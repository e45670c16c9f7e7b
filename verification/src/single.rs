//! Single-precision numbers as bit patterns, with the arithmetic of IEEE 754 on them.

use crate::rounding::downward;
use crate::rounding::lemma_last_place;
use crate::rounding::lemma_nearest_parts;
use crate::rounding::lemma_rounded_scaled;
use crate::rounding::lemma_rounded_zero;
use crate::rounding::power_of_two;
use crate::rounding::round_quotient;
use crate::rounding::rounded;
use crate::rounding::upward;
use crate::rounding::INFINITE;
use crate::rounding::STEP;
use vstd::arithmetic::div_mod::lemma_fundamental_div_mod;
use vstd::arithmetic::div_mod::lemma_fundamental_div_mod_converse;
use vstd::arithmetic::power2::lemma2_to64;
use vstd::arithmetic::power2::lemma_pow2_adds;
use vstd::arithmetic::power2::lemma_pow2_pos;
use vstd::arithmetic::power2::lemma_pow2_strictly_increases;
use vstd::arithmetic::power2::lemma_pow2_unfold;
use vstd::arithmetic::power2::pow2;
use vstd::prelude::*;

verus! {

/// The bit that carries the sign.
pub const SIGN: u32 = 0x8000_0000;

/// The bits of 0.
pub const ZERO: u32 = 0;

/// The bits of 1/2.
pub const HALF: u32 = 0x3f00_0000;

/// The bits of -1/2.
pub const MINUS_HALF: u32 = 0xbf00_0000;

/// The bits of 1.
pub const ONE: u32 = 0x3f80_0000;

/// The bits of 2.
pub const TWO: u32 = 0x4000_0000;

/// The bits of 4.
pub const FOUR: u32 = 0x4080_0000;

/// The bits of the largest finite number.
pub const MAX: u32 = 0x7f7f_ffff;

/// The bits of 2^-23, the distance from 1 to the next larger number.
pub const EPSILON: u32 = 0x3400_0000;

/// The bits of what an operation without a value returns.
pub const NAN: u32 = 0x7fc0_0000;

/// The unit exponent of an encoded magnitude: its last place is worth 2^exponent units.
pub open spec fn exponent_of(magnitude: nat) -> nat {
    if magnitude < STEP {
        0
    } else {
        (magnitude / STEP as nat - 1) as nat
    }
}

/// The significand of an encoded magnitude, with its leading bit.
pub open spec fn significand_of(magnitude: nat) -> nat {
    (magnitude - exponent_of(magnitude) * STEP) as nat
}

/// The value of an encoded finite magnitude in units of 2^-149.
pub open spec fn units_of(magnitude: nat) -> nat {
    significand_of(magnitude) * pow2(exponent_of(magnitude))
}

/// The number 1 in units of 2^-149.
pub open spec fn one() -> nat {
    pow2(149)
}

/// A single-precision number, held by its bit pattern.
#[derive(Debug, Clone, Copy)]
pub struct Single {
    pub bits: u32,
}

impl Single {
    /// The bit pattern without its sign.
    pub open spec fn magnitude(self) -> nat {
        self.bits as nat % 0x8000_0000
    }

    pub open spec fn negative(self) -> bool {
        self.bits >= SIGN
    }

    pub open spec fn finite(self) -> bool {
        self.magnitude() < INFINITE
    }

    pub open spec fn infinite(self) -> bool {
        self.magnitude() == INFINITE
    }

    pub open spec fn nan(self) -> bool {
        self.magnitude() > INFINITE
    }

    pub open spec fn zero(self) -> bool {
        self.magnitude() == 0
    }

    /// The value of a finite number in units of 2^-149.
    pub open spec fn units(self) -> int {
        if self.negative() {
            -(units_of(self.magnitude()) as int)
        } else {
            units_of(self.magnitude()) as int
        }
    }

    /// The place of a number in the order of all numbers; both zeros have the same.
    pub open spec fn ordinal(self) -> int {
        if self.negative() {
            -(self.magnitude() as int)
        } else {
            self.magnitude() as int
        }
    }

    /// The number with this sign and this encoded magnitude.
    pub open spec fn signed(negative: bool, magnitude: int) -> Single {
        Single { bits: (if negative { magnitude + SIGN } else { magnitude }) as u32 }
    }

    /// The number nearest to this many units; `negative` is the sign of a zero.
    pub open spec fn from_units(units: int, negative: bool) -> Single {
        if units == 0 {
            Single::signed(negative, 0)
        } else if units < 0 {
            Single::signed(true, rounded((-units) as nat, 1))
        } else {
            Single::signed(false, rounded(units as nat, 1))
        }
    }
}

/// The significand of an encoded magnitude fits 24 bits and has its top bit set above the lowest
/// exponent.
pub proof fn lemma_parts(magnitude: nat)
    ensures
        magnitude == exponent_of(magnitude) * STEP + significand_of(magnitude),
        significand_of(magnitude) < 0x100_0000,
        exponent_of(magnitude) > 0 ==> significand_of(magnitude) >= STEP,
        significand_of(magnitude) == 0 <==> magnitude == 0,
        magnitude < INFINITE ==> exponent_of(magnitude) <= 253,
{
}

/// A finite magnitude is its own rounding.
pub proof fn lemma_rounded_exact(magnitude: nat)
    requires
        magnitude < INFINITE,
    ensures
        rounded(units_of(magnitude), 1) == magnitude,
{
    lemma2_to64();
    lemma_parts(magnitude);
    let e = exponent_of(magnitude);
    let m = significand_of(magnitude);
    lemma_pow2_adds(24, e);
    lemma_pow2_adds(23, e);
    lemma_pow2_pos(e);
    let unit = pow2(e);
    assert(m * unit < 0x100_0000 * unit) by (nonlinear_arith)
        requires
            m < 0x100_0000,
            unit > 0,
    ;
    if e > 0 {
        assert(m * unit >= 0x80_0000 * unit) by (nonlinear_arith)
            requires
                m >= 0x80_0000,
                unit > 0,
        ;
    }
    lemma_last_place(m * unit, 1, e);
    lemma_nearest_parts(m * unit, unit, m, 0);
}

/// The order of encoded magnitudes is the order of their values.
pub proof fn lemma_units_increase(low: nat, high: nat)
    requires
        low < high,
    ensures
        units_of(low) < units_of(high),
{
    lemma2_to64();
    lemma_parts(low);
    lemma_parts(high);
    let (m, e) = (significand_of(low), exponent_of(low));
    let (n, f) = (significand_of(high), exponent_of(high));
    lemma_pow2_pos(e);
    assert(e <= f);
    if e == f {
        assert(m * pow2(e) < n * pow2(e)) by (nonlinear_arith)
            requires
                m < n,
                pow2(e) > 0,
        ;
    } else {
        lemma_pow2_unfold(e + 1);
        if e + 1 < f {
            lemma_pow2_strictly_increases(e + 1, f);
        }
        assert(m * pow2(e) < n * pow2(f)) by (nonlinear_arith)
            requires
                m < 0x100_0000,
                n >= 0x80_0000,
                pow2(f) >= 2 * pow2(e),
                pow2(e) > 0,
        ;
    }
}

/// The order of finite numbers is the order of their values.
pub proof fn lemma_order(a: Single, b: Single)
    requires
        a.finite(),
        b.finite(),
    ensures
        a.ordinal() < b.ordinal() <==> a.units() < b.units(),
        a.ordinal() == b.ordinal() <==> a.units() == b.units(),
        a.units() == 0 <==> a.zero(),
{
    lemma_parts(0);
    assert(units_of(0) == 0) by (nonlinear_arith)
        requires
            units_of(0) == significand_of(0) * pow2(exponent_of(0)),
            significand_of(0) == 0,
    ;
    let (m, n) = (a.magnitude(), b.magnitude());
    if m < n {
        lemma_units_increase(m, n);
    }
    if n < m {
        lemma_units_increase(n, m);
    }
    if m > 0 {
        lemma_units_increase(0, m);
    }
    if n > 0 {
        lemma_units_increase(0, n);
    }
}

/// A number so much larger than another that their sum rounds back to it.
proof fn lemma_absorbs(magnitude: nat, small: nat)
    requires
        magnitude < INFINITE,
        exponent_of(magnitude) >= 2,
        4 * small < pow2(exponent_of(magnitude)),
    ensures
        rounded(units_of(magnitude) + small, 1) == magnitude,
        units_of(magnitude) > small,
        rounded((units_of(magnitude) - small) as nat, 1) == magnitude,
{
    lemma2_to64();
    lemma_parts(magnitude);
    let e = exponent_of(magnitude);
    let m = significand_of(magnitude);
    let unit = pow2(e);
    let value = units_of(magnitude);
    lemma_pow2_pos(e);
    lemma_pow2_adds(24, e);
    lemma_pow2_adds(23, e);
    lemma_pow2_unfold(e);
    let half = pow2((e - 1) as nat);
    assert((m + 1) * unit == m * unit + unit && m * unit >= 0x80_0000 * unit && (m + 1) * unit
        <= 0x100_0000 * unit) by (nonlinear_arith)
        requires
            0x80_0000 <= m < 0x100_0000,
            unit > 0,
    ;
    // Above the value.
    lemma_last_place(value + small, 1, e);
    lemma_nearest_parts(value + small, unit, m, small);
    // Below the value.
    if small == 0 {
    } else if m > STEP {
        assert((m - 1) * unit == m * unit - unit && (m - 1) * unit >= 0x80_0000 * unit)
            by (nonlinear_arith)
            requires
                m > 0x80_0000,
                unit > 0,
        ;
        lemma_last_place((value - small) as nat, 1, e);
        lemma_nearest_parts(
            (value - small) as nat,
            unit,
            (m - 1) as nat,
            (unit - small) as nat,
        );
    } else {
        let f = (e - 1) as nat;
        assert(m == 0x80_0000);
        lemma_pow2_adds(24, f);
        lemma_pow2_adds(23, f);
        lemma_last_place((value - small) as nat, 1, f);
        assert(value - small == 0xff_ffff * half + (half - small)) by (nonlinear_arith)
            requires
                value == 0x80_0000 * unit,
                unit == 2 * half,
        ;
        lemma_nearest_parts(
            (value - small) as nat,
            half,
            0xff_ffff,
            (half - small) as nat,
        );
    }
}

impl Single {
    pub open spec fn spec_from_bits(bits: u32) -> Single {
        Single { bits }
    }

    #[verifier::when_used_as_spec(spec_from_bits)]
    pub fn from_bits(bits: u32) -> (single: Single)
        ensures
            single == Single::spec_from_bits(bits),
    {
        Single { bits }
    }

    pub fn to_bits(self) -> (bits: u32)
        ensures
            bits == self.bits,
    {
        self.bits
    }

    fn magnitude_bits(self) -> (magnitude: u32)
        ensures
            magnitude == self.magnitude(),
    {
        self.bits % 0x8000_0000
    }

    fn with_sign(negative: bool, magnitude: u32) -> (single: Single)
        requires
            magnitude <= INFINITE,
        ensures
            single == Single::signed(negative, magnitude as int),
    {
        if negative {
            Single { bits: magnitude + SIGN }
        } else {
            Single { bits: magnitude }
        }
    }

    /// Significand and unit exponent.
    fn parts(self) -> (parts: (u32, u32))
        requires
            self.finite(),
        ensures
            parts.0 == significand_of(self.magnitude()),
            parts.1 == exponent_of(self.magnitude()),
    {
        let magnitude: u32 = self.magnitude_bits();
        if magnitude < STEP {
            (magnitude, 0)
        } else {
            let exponent: u32 = magnitude / STEP - 1;
            (magnitude - exponent * STEP, exponent)
        }
    }

    pub fn is_nan(self) -> (answer: bool)
        ensures
            answer == self.nan(),
    {
        self.magnitude_bits() > INFINITE
    }

    pub open spec fn spec_lt(self, other: Single) -> bool {
        !self.nan() && !other.nan() && self.ordinal() < other.ordinal()
    }

    pub open spec fn spec_le(self, other: Single) -> bool {
        !self.nan() && !other.nan() && self.ordinal() <= other.ordinal()
    }

    pub open spec fn spec_equals(self, other: Single) -> bool {
        !self.nan() && !other.nan() && self.ordinal() == other.ordinal()
    }

    fn place(self) -> (place: i64)
        ensures
            place == self.ordinal(),
    {
        let magnitude: i64 = self.magnitude_bits() as i64;
        if self.bits >= SIGN {
            -magnitude
        } else {
            magnitude
        }
    }

    /// `self < other`.
    #[verifier::when_used_as_spec(spec_lt)]
    pub fn lt(self, other: Single) -> (answer: bool)
        ensures
            answer == self.spec_lt(other),
    {
        !self.is_nan() && !other.is_nan() && self.place() < other.place()
    }

    /// `self <= other`.
    #[verifier::when_used_as_spec(spec_le)]
    pub fn le(self, other: Single) -> (answer: bool)
        ensures
            answer == self.spec_le(other),
    {
        !self.is_nan() && !other.is_nan() && self.place() <= other.place()
    }

    /// `self == other` as numbers: both zeros are equal, and nothing equals a NaN.
    #[verifier::when_used_as_spec(spec_equals)]
    pub fn equals(self, other: Single) -> (answer: bool)
        ensures
            answer == self.spec_equals(other),
    {
        !self.is_nan() && !other.is_nan() && self.place() == other.place()
    }

    pub open spec fn spec_max(self, other: Single) -> Single {
        if self.nan() || self.spec_lt(other) {
            other
        } else {
            self
        }
    }

    pub open spec fn spec_min(self, other: Single) -> Single {
        if self.nan() || other.spec_lt(self) {
            other
        } else {
            self
        }
    }

    pub open spec fn spec_clamp(self, low: Single, high: Single) -> Single {
        if self.spec_lt(low) {
            low
        } else if high.spec_lt(self) {
            high
        } else {
            self
        }
    }

    /// The larger of two numbers; the other one where one is a NaN.
    #[verifier::when_used_as_spec(spec_max)]
    pub fn max(self, other: Single) -> (larger: Single)
        ensures
            larger == self.spec_max(other),
    {
        if self.is_nan() || self.lt(other) {
            other
        } else {
            self
        }
    }

    /// The smaller of two numbers; the other one where one is a NaN.
    #[verifier::when_used_as_spec(spec_min)]
    pub fn min(self, other: Single) -> (smaller: Single)
        ensures
            smaller == self.spec_min(other),
    {
        if self.is_nan() || other.lt(self) {
            other
        } else {
            self
        }
    }

    /// The number restricted to `low..=high`; a NaN stays a NaN.
    #[verifier::when_used_as_spec(spec_clamp)]
    pub fn clamp(self, low: Single, high: Single) -> (clamped: Single)
        requires
            low.spec_le(high),
        ensures
            clamped == self.spec_clamp(low, high),
    {
        if self.lt(low) {
            low
        } else if high.lt(self) {
            high
        } else {
            self
        }
    }

    pub open spec fn spec_negated(self) -> Single {
        Single::signed(!self.negative(), self.magnitude() as int)
    }

    pub open spec fn spec_abs(self) -> Single {
        Single::signed(false, self.magnitude() as int)
    }

    /// The number with the opposite sign.
    #[verifier::when_used_as_spec(spec_negated)]
    pub fn negated(self) -> (opposite: Single)
        ensures
            opposite == self.spec_negated(),
    {
        if self.bits >= SIGN {
            Single { bits: self.bits - SIGN }
        } else {
            Single { bits: self.bits + SIGN }
        }
    }

    /// The number without its sign.
    #[verifier::when_used_as_spec(spec_abs)]
    pub fn abs(self) -> (size: Single)
        ensures
            size == self.spec_abs(),
    {
        Single { bits: self.magnitude_bits() }
    }

    #[verifier::opaque]
    pub open spec fn spec_plus(self, other: Single) -> Single {
        if self.nan() || other.nan() || (self.infinite() && other.infinite() && self.negative()
            != other.negative()) {
            Single::from_bits(NAN)
        } else if self.infinite() {
            self
        } else if other.infinite() {
            other
        } else {
            Single::from_units(
                self.units() + other.units(),
                self.negative() && other.negative(),
            )
        }
    }

    pub open spec fn spec_minus(self, other: Single) -> Single {
        self.spec_plus(other.spec_negated())
    }

    /// `self + other`, the exact sum rounded to nearest.
    #[verifier::when_used_as_spec(spec_plus)]
    pub fn plus(self, other: Single) -> (sum: Single)
        ensures
            sum == self.spec_plus(other),
    {
        proof {
            reveal(Single::spec_plus);
        }
        if self.is_nan() || other.is_nan() {
            return Single::from_bits(NAN);
        }
        let a: u32 = self.magnitude_bits();
        let b: u32 = other.magnitude_bits();
        if a == INFINITE {
            if b == INFINITE && (self.bits >= SIGN) != (other.bits >= SIGN) {
                return Single::from_bits(NAN);
            }
            return self;
        }
        if b == INFINITE {
            return other;
        }
        if a >= b {
            Single::plus_ordered(self, other)
        } else {
            Single::plus_ordered(other, self)
        }
    }

    /// The sum of two finite numbers, the first of which has no smaller magnitude.
    fn plus_ordered(large: Single, small: Single) -> (sum: Single)
        requires
            large.finite(),
            small.magnitude() <= large.magnitude(),
        ensures
            sum == Single::from_units(
                large.units() + small.units(),
                large.negative() && small.negative(),
            ),
    {
        let (m, e) = large.parts();
        let (n, f) = small.parts();
        proof {
            lemma2_to64();
            lemma_parts(large.magnitude());
            lemma_parts(small.magnitude());
            lemma_pow2_pos(f as nat);
        }
        assert(f <= e);
        let gap: u32 = e - f;
        if gap > 30 {
            proof {
                let shift = pow2(gap as nat);
                lemma_pow2_adds(f as nat, gap as nat);
                lemma_pow2_strictly_increases(30, gap as nat);
                assert(4 * (n * pow2(f as nat)) < pow2(f as nat) * shift) by (nonlinear_arith)
                    requires
                        n < 0x100_0000,
                        shift > 0x4000_0000,
                        pow2(f as nat) > 0,
                ;
                lemma_absorbs(large.magnitude(), units_of(small.magnitude()));
            }
            return large;
        }
        proof {
            if gap < 30 {
                lemma_pow2_strictly_increases(gap as nat, 30);
            }
        }
        let factor: u64 = power_of_two(gap) as u64;
        proof {
            lemma_pow2_adds(f as nat, gap as nat);
            assert(m * factor < 0x40_0000_0000_0000) by (nonlinear_arith)
                requires
                    m < 0x100_0000,
                    factor <= 0x4000_0000,
            ;
        }
        let wide: i64 = ((m as u64) * factor) as i64;
        let narrow: i64 = n as i64;
        let left: i64 = if large.bits >= SIGN { -wide } else { wide };
        let right: i64 = if small.bits >= SIGN { -narrow } else { narrow };
        let total: i64 = left + right;
        proof {
            let unit = pow2(f as nat);
            assert(large.units() == left * unit) by (nonlinear_arith)
                requires
                    wide == m * factor,
                    left == (if large.negative() { -wide } else { wide as int }),
                    large.units() == (if large.negative() {
                        -(m * (unit * factor))
                    } else {
                        m * (unit * factor)
                    }),
            ;
            assert(small.units() == right * unit) by (nonlinear_arith)
                requires
                    narrow == n,
                    right == (if small.negative() { -narrow } else { narrow as int }),
                    small.units() == (if small.negative() { -(n * unit) } else { n * unit }),
            ;
            assert(left * unit + right * unit == total * unit) by (nonlinear_arith)
                requires
                    total == left + right,
            ;
            assert(upward(f as int) == f && downward(f as int) == 0);
            assert(1u32 as nat * pow2(0) == 1);
            assert(total == 0 ==> total * unit == 0) by (nonlinear_arith);
            assert(total > 0 ==> total * unit > 0) by (nonlinear_arith)
                requires
                    unit > 0,
            ;
            assert(total < 0 ==> total * unit < 0 && (-total) * unit == -(total * unit))
                by (nonlinear_arith)
                requires
                    unit > 0,
            ;
        }
        if total == 0 {
            Single::with_sign(large.bits >= SIGN && small.bits >= SIGN, 0)
        } else if total < 0 {
            Single::with_sign(true, round_quotient((-total) as u64, 1, f as i32))
        } else {
            Single::with_sign(false, round_quotient(total as u64, 1, f as i32))
        }
    }

    /// `self - other`, the exact difference rounded to nearest.
    #[verifier::when_used_as_spec(spec_minus)]
    pub fn minus(self, other: Single) -> (difference: Single)
        ensures
            difference == self.spec_minus(other),
    {
        self.plus(other.negated())
    }
}

impl Single {
    #[verifier::opaque]
    pub open spec fn spec_times(self, other: Single) -> Single {
        let negative = self.negative() != other.negative();
        if self.nan() || other.nan() || (self.infinite() && other.zero()) || (self.zero()
            && other.infinite()) {
            Single::from_bits(NAN)
        } else if self.infinite() || other.infinite() {
            Single::signed(negative, INFINITE as int)
        } else {
            Single::signed(
                negative,
                rounded(units_of(self.magnitude()) * units_of(other.magnitude()), one()),
            )
        }
    }

    #[verifier::opaque]
    pub open spec fn spec_over(self, other: Single) -> Single {
        let negative = self.negative() != other.negative();
        if self.nan() || other.nan() || (self.infinite() && other.infinite()) || (self.zero()
            && other.zero()) {
            Single::from_bits(NAN)
        } else if self.infinite() || other.zero() {
            Single::signed(negative, INFINITE as int)
        } else if other.infinite() {
            Single::signed(negative, 0)
        } else {
            Single::signed(
                negative,
                rounded(units_of(self.magnitude()) * one(), units_of(other.magnitude())),
            )
        }
    }

    /// `self * other`, the exact product rounded to nearest.
    #[verifier::when_used_as_spec(spec_times)]
    pub fn times(self, other: Single) -> (product: Single)
        ensures
            product == self.spec_times(other),
    {
        proof {
            reveal(Single::spec_times);
        }
        let negative: bool = (self.bits >= SIGN) != (other.bits >= SIGN);
        let a: u32 = self.magnitude_bits();
        let b: u32 = other.magnitude_bits();
        if a > INFINITE || b > INFINITE || (a == INFINITE && b == 0) || (a == 0 && b == INFINITE) {
            return Single::from_bits(NAN);
        }
        if a == INFINITE || b == INFINITE {
            return Single::with_sign(negative, INFINITE);
        }
        let (m, e) = self.parts();
        let (n, f) = other.parts();
        proof {
            lemma_parts(a as nat);
            lemma_parts(b as nat);
            lemma_pow2_pos(149);
        }
        let ghost exact = units_of(a as nat) * units_of(b as nat);
        if m == 0 || n == 0 {
            proof {
                assert(exact == 0) by (nonlinear_arith)
                    requires
                        exact == (m * pow2(e as nat)) * (n * pow2(f as nat)),
                        m == 0 || n == 0,
                ;
                lemma_rounded_zero(one());
            }
            return Single::with_sign(negative, 0);
        }
        assert(0 < m * n < 0x1_0000_0000_0000) by (nonlinear_arith)
            requires
                0 < m < 0x100_0000,
                0 < n < 0x100_0000,
        ;
        let num: u64 = (m as u64) * (n as u64);
        let exponent: i32 = (e as i32) + (f as i32) - 149;
        proof {
            let (pe, pf) = (pow2(e as nat), pow2(f as nat));
            lemma_pow2_adds(e as nat, f as nat);
            lemma_pow2_pos((e + f) as nat);
            let both = pow2((e + f) as nat);
            assert(exact == num * both) by (nonlinear_arith)
                requires
                    exact == (m * pe) * (n * pf),
                    num == m * n,
                    both == pe * pf,
            ;
            lemma_rounding_of_product(num as nat, (e + f) as nat);
        }
        Single::with_sign(negative, round_quotient(num, 1, exponent))
    }

    /// `self / other`, the exact quotient rounded to nearest.
    #[verifier::when_used_as_spec(spec_over)]
    pub fn over(self, other: Single) -> (quotient: Single)
        ensures
            quotient == self.spec_over(other),
    {
        proof {
            reveal(Single::spec_over);
        }
        let negative: bool = (self.bits >= SIGN) != (other.bits >= SIGN);
        let a: u32 = self.magnitude_bits();
        let b: u32 = other.magnitude_bits();
        if a > INFINITE || b > INFINITE || (a == INFINITE && b == INFINITE) || (a == 0 && b == 0) {
            return Single::from_bits(NAN);
        }
        if a == INFINITE || b == 0 {
            return Single::with_sign(negative, INFINITE);
        }
        if b == INFINITE {
            return Single::with_sign(negative, 0);
        }
        let (m, e) = self.parts();
        let (n, f) = other.parts();
        proof {
            lemma_parts(a as nat);
            lemma_parts(b as nat);
            lemma_pow2_pos(149);
            lemma_pow2_pos(f as nat);
            assert(n * pow2(f as nat) > 0) by (nonlinear_arith)
                requires
                    n > 0,
                    pow2(f as nat) > 0,
            ;
        }
        if m == 0 {
            proof {
                assert(units_of(a as nat) * one() == 0) by (nonlinear_arith)
                    requires
                        units_of(a as nat) == m * pow2(e as nat),
                        m == 0,
                ;
                lemma_rounded_zero(units_of(b as nat));
            }
            return Single::with_sign(negative, 0);
        }
        let exponent: i32 = (e as i32) + 149 - (f as i32);
        proof {
            lemma_rounding_of_quotient(m as nat, n as nat, e as nat, f as nat);
        }
        Single::with_sign(negative, round_quotient(m as u64, n, exponent))
    }
}

/// How a product of significands is brought to units.
proof fn lemma_rounding_of_product(num: nat, exponents: nat)
    ensures
        rounded(num * pow2(exponents), one()) == rounded(
            num * pow2(upward(exponents - 149)),
            1 * pow2(downward(exponents - 149)),
        ),
{
    lemma2_to64();
    lemma_pow2_pos(149);
    lemma_pow2_pos(exponents);
    if exponents >= 149 {
        let up = (exponents - 149) as nat;
        lemma_pow2_adds(up, 149);
        assert(num * (pow2(up) * pow2(149)) == (num * pow2(up)) * pow2(149)) by (nonlinear_arith);
        lemma_rounded_scaled(num * pow2(up), 1, one());
    } else {
        let down = (149 - exponents) as nat;
        lemma_pow2_adds(down, exponents);
        lemma_pow2_pos(down);
        assert(num * pow2(0) == num) by (nonlinear_arith)
            requires
                pow2(0) == 1,
        ;
        lemma_rounded_scaled(num, pow2(down), pow2(exponents));
    }
}

/// How a quotient of significands is brought to units.
proof fn lemma_rounding_of_quotient(m: nat, n: nat, e: nat, f: nat)
    requires
        n > 0,
    ensures
        rounded((m * pow2(e)) * one(), n * pow2(f)) == rounded(
            m * pow2(upward(e + 149 - f)),
            n * pow2(downward(e + 149 - f)),
        ),
{
    lemma2_to64();
    lemma_pow2_adds(e, 149);
    let top = pow2(e + 149);
    assert((m * pow2(e)) * one() == m * top) by (nonlinear_arith)
        requires
            top == pow2(e) * one(),
    ;
    lemma_pow2_pos(f);
    lemma_pow2_pos(e + 149);
    if e + 149 >= f {
        let up = (e + 149 - f) as nat;
        lemma_pow2_adds(up, f);
        assert(m * (pow2(up) * pow2(f)) == (m * pow2(up)) * pow2(f)) by (nonlinear_arith);
        assert(n * pow2(0) == n) by (nonlinear_arith)
            requires
                pow2(0) == 1,
        ;
        lemma_rounded_scaled(m * pow2(up), n, pow2(f));
    } else {
        let down = (f - (e + 149)) as nat;
        lemma_pow2_adds(down, e + 149);
        lemma_pow2_pos(down);
        assert(n * (pow2(down) * top) == (n * pow2(down)) * top && n * pow2(down) > 0)
            by (nonlinear_arith)
            requires
                n > 0,
                pow2(down) > 0,
        ;
        assert(m * pow2(0) == m) by (nonlinear_arith)
            requires
                pow2(0) == 1,
        ;
        lemma_rounded_scaled(m, n * pow2(down), top);
    }
}

/// A finite number is the nearest number to its own value.
pub proof fn lemma_from_own_units(x: Single)
    requires
        x.finite(),
    ensures
        Single::from_units(x.units(), x.negative()) == x,
{
    lemma_order(x, x);
    lemma_rounded_exact(x.magnitude());
}

/// Whole part and rest of a number below 2^24, from its significand.
proof fn lemma_whole_part(m: nat, e: nat, whole: nat, rest: nat)
    requires
        e < 149,
        m == whole * pow2((149 - e) as nat) + rest,
        rest < pow2((149 - e) as nat),
    ensures
        (m * pow2(e)) / one() == whole,
        (m * pow2(e)) % one() == rest * pow2(e),
        rest * pow2(e) == 0 <==> rest == 0,
        2 * (rest * pow2(e)) >= one() <==> 2 * rest >= pow2((149 - e) as nat),
{
    let s = (149 - e) as nat;
    let unit = pow2(e);
    lemma_pow2_adds(s, e);
    lemma_pow2_pos(e);
    lemma_pow2_pos(s);
    assert(m * unit == whole * one() + rest * unit && rest * unit < one()) by (nonlinear_arith)
        requires
            m == whole * pow2(s) + rest,
            one() == pow2(s) * unit,
            rest < pow2(s),
            unit > 0,
    ;
    assert(rest * unit == 0 <==> rest == 0) by (nonlinear_arith)
        requires
            unit > 0,
    ;
    assert(2 * (rest * unit) >= one() <==> 2 * rest >= pow2(s)) by (nonlinear_arith)
        requires
            one() == pow2(s) * unit,
            unit > 0,
    ;
    lemma_fundamental_div_mod_converse(
        (m * unit) as int,
        one() as int,
        whole as int,
        (rest * unit) as int,
    );
}

/// A number of 2^24 or more is whole.
proof fn lemma_large_is_whole(m: nat, e: nat)
    requires
        e >= 149,
    ensures
        m * pow2(e) == (m * pow2((e - 149) as nat)) * one(),
        (m * pow2(e)) / one() == m * pow2((e - 149) as nat),
        (m * pow2(e)) % one() == 0,
{
    let up = (e - 149) as nat;
    lemma_pow2_adds(up, 149);
    lemma_pow2_pos(149);
    assert(m * (pow2(up) * one()) == (m * pow2(up)) * one()) by (nonlinear_arith);
    lemma_fundamental_div_mod_converse(
        (m * pow2(e)) as int,
        one() as int,
        (m * pow2(up)) as int,
        0,
    );
}

/// What a whole part and a rest say of the neighbouring whole numbers.
proof fn lemma_neighbours(value: nat, whole: nat, rest: nat)
    requires
        value / one() == whole,
        value % one() == rest,
    ensures
        value == whole * one() + rest,
        rest < one(),
        (-(value as int)) / (one() as int) == if rest == 0 {
            -(whole as int)
        } else {
            -(whole as int) - 1
        },
        (2 * value + one()) / (2 * one()) == if 2 * rest >= one() {
            whole + 1
        } else {
            whole
        },
{
    let d = one() as int;
    lemma_pow2_pos(149);
    lemma_fundamental_div_mod(value as int, d);
    let (w, r) = (whole as int, rest as int);
    assert(d * w == w * d) by (nonlinear_arith);
    if r == 0 {
        assert(-(value as int) == (-w) * d + 0) by (nonlinear_arith)
            requires
                value == w * d + r,
                r == 0,
        ;
        lemma_fundamental_div_mod_converse(-(value as int), d, -w, 0);
    } else {
        assert(-(value as int) == (-w - 1) * d + (d - r)) by (nonlinear_arith)
            requires
                value == w * d + r,
        ;
        lemma_fundamental_div_mod_converse(-(value as int), d, -w - 1, d - r);
    }
    if 2 * r >= d {
        assert(2 * value + d == (w + 1) * (2 * d) + (2 * r - d)) by (nonlinear_arith)
            requires
                value == w * d + r,
        ;
        lemma_fundamental_div_mod_converse(2 * value + d, 2 * d, w + 1, 2 * r - d);
    } else {
        assert(2 * value + d == w * (2 * d) + (2 * r + d)) by (nonlinear_arith)
            requires
                value == w * d + r,
        ;
        lemma_fundamental_div_mod_converse(2 * value + d, 2 * d, w, 2 * r + d);
    }
}

/// The whole part of a number below 2^24 in size, and how its rest compares to nothing and to a
/// half.
struct WholePart {
    whole: u32,
    inexact: bool,
    half: bool,
}

impl Single {
    #[verifier::opaque]
    pub open spec fn spec_floor(self) -> Single {
        if self.finite() {
            Single::from_units((self.units() / one() as int) * one(), self.negative())
        } else {
            self
        }
    }

    #[verifier::opaque]
    pub open spec fn spec_round(self) -> Single {
        if self.finite() {
            let whole = (2 * units_of(self.magnitude()) + one()) / (2 * one());
            Single::from_units(
                if self.negative() {
                    -(whole * one())
                } else {
                    (whole * one()) as int
                },
                self.negative(),
            )
        } else {
            self
        }
    }

    fn whole_part(self) -> (part: WholePart)
        requires
            self.finite(),
            exponent_of(self.magnitude()) < 149,
        ensures
            part.whole == units_of(self.magnitude()) / one(),
            part.whole <= 0x100_0000,
            part.inexact == (units_of(self.magnitude()) % one() != 0),
            part.half == (2 * (units_of(self.magnitude()) % one()) >= one()),
    {
        let (m, e) = self.parts();
        let shift: u32 = 149 - e;
        proof {
            lemma2_to64();
            lemma_parts(self.magnitude());
        }
        if shift > 24 {
            proof {
                lemma_pow2_strictly_increases(24, shift as nat);
                lemma_pow2_unfold(shift as nat);
                if shift > 25 {
                    lemma_pow2_strictly_increases(25, shift as nat);
                }
                lemma_whole_part(m as nat, e as nat, 0, m as nat);
            }
            WholePart { whole: 0, inexact: m != 0, half: false }
        } else {
            proof {
                lemma_pow2_pos(shift as nat);
                if shift < 24 {
                    lemma_pow2_strictly_increases(shift as nat, 24);
                }
            }
            let unit: u32 = power_of_two(shift) as u32;
            let whole: u32 = m / unit;
            let rest: u32 = m % unit;
            proof {
                lemma_fundamental_div_mod(m as int, unit as int);
                assert(unit * whole == whole * unit) by (nonlinear_arith);
                lemma_whole_part(m as nat, e as nat, whole as nat, rest as nat);
                assert(whole <= m) by (nonlinear_arith)
                    requires
                        m == unit * whole + rest,
                        unit >= 1,
                        rest >= 0,
                        whole >= 0,
                ;
            }
            WholePart { whole, inexact: rest != 0, half: 2 * rest >= unit }
        }
    }

    /// The whole number with this sign and size.
    fn whole(negative: bool, size: u64) -> (single: Single)
        ensures
            single == Single::from_units(
                if negative {
                    -(size * one())
                } else {
                    size * one()
                },
                negative,
            ),
    {
        proof {
            lemma2_to64();
            lemma_pow2_pos(149);
            assert(size > 0 ==> size * one() > 0) by (nonlinear_arith)
                requires
                    one() > 0,
            ;
            assert(size == 0 ==> size * one() == 0) by (nonlinear_arith);
            assert(1u32 as nat * pow2(0) == 1);
        }
        if size == 0 {
            Single::with_sign(negative, 0)
        } else {
            Single::with_sign(negative, round_quotient(size, 1, 149))
        }
    }

    /// The largest whole number that is not above the number.
    #[verifier::when_used_as_spec(spec_floor)]
    pub fn floor(self) -> (floor: Single)
        ensures
            floor == self.spec_floor(),
    {
        proof {
            reveal(Single::spec_floor);
        }
        if self.magnitude_bits() >= INFINITE {
            return self;
        }
        let (m, e) = self.parts();
        let ghost value = units_of(self.magnitude());
        if e >= 149 {
            proof {
                lemma_large_is_whole(m as nat, e as nat);
                lemma_neighbours(value, value / one(), 0);
                lemma_from_own_units(self);
                let (w, d) = ((value / one()) as int, one() as int);
                assert((-w) * d == -(w * d)) by (nonlinear_arith);
            }
            return self;
        }
        let part = self.whole_part();
        proof {
            lemma_neighbours(value, value / one(), value % one());
            let (w, d) = (part.whole as int, one() as int);
            assert((-w) * d == -(w * d) && (-w - 1) * d == -((w + 1) * d)) by (nonlinear_arith);
        }
        if self.bits >= SIGN && part.inexact {
            Single::whole(true, (part.whole + 1) as u64)
        } else {
            Single::whole(self.bits >= SIGN, part.whole as u64)
        }
    }

    /// The nearest whole number, away from zero where two are equally near.
    #[verifier::when_used_as_spec(spec_round)]
    pub fn round(self) -> (rounded: Single)
        ensures
            rounded == self.spec_round(),
    {
        proof {
            reveal(Single::spec_round);
        }
        if self.magnitude_bits() >= INFINITE {
            return self;
        }
        let (m, e) = self.parts();
        let ghost value = units_of(self.magnitude());
        if e >= 149 {
            proof {
                lemma_pow2_pos(149);
                lemma_large_is_whole(m as nat, e as nat);
                lemma_neighbours(value, value / one(), 0);
                lemma_from_own_units(self);
            }
            return self;
        }
        let part = self.whole_part();
        proof {
            lemma_neighbours(value, value / one(), value % one());
        }
        if part.half {
            Single::whole(self.bits >= SIGN, (part.whole + 1) as u64)
        } else {
            Single::whole(self.bits >= SIGN, part.whole as u64)
        }
    }

    /// The number without its fraction, in units of 1; infinity counts as more than any integer.
    pub open spec fn truncated_size(self) -> int {
        if self.infinite() {
            u128::MAX as int
        } else {
            (units_of(self.magnitude()) / one()) as int
        }
    }

    #[verifier::opaque]
    pub open spec fn spec_to_usize(self) -> usize {
        if self.nan() || self.negative() {
            0
        } else if self.truncated_size() > usize::MAX {
            usize::MAX
        } else {
            self.truncated_size() as usize
        }
    }

    #[verifier::opaque]
    pub open spec fn spec_to_i32(self) -> i32 {
        if self.nan() {
            0
        } else if self.negative() {
            if self.truncated_size() > 0x8000_0000 {
                i32::MIN
            } else {
                (-self.truncated_size()) as i32
            }
        } else if self.truncated_size() > i32::MAX {
            i32::MAX
        } else {
            self.truncated_size() as i32
        }
    }

    /// The size of the number without its fraction, capped at 2^64.
    fn truncate(self) -> (size: u128)
        requires
            !self.nan(),
        ensures
            size == self.truncated_size() || (size == 0x1_0000_0000_0000_0000
                && self.truncated_size() > size),
    {
        if self.magnitude_bits() == INFINITE {
            return 0x1_0000_0000_0000_0000;
        }
        let (m, e) = self.parts();
        proof {
            lemma2_to64();
            lemma_parts(self.magnitude());
        }
        if e < 149 {
            return self.whole_part().whole as u128;
        }
        let up: u32 = e - 149;
        proof {
            lemma_large_is_whole(m as nat, e as nat);
        }
        if up > 64 {
            proof {
                lemma_pow2_strictly_increases(64, up as nat);
                assert(m * pow2(up as nat) > 0x1_0000_0000_0000_0000) by (nonlinear_arith)
                    requires
                        m >= 1,
                        pow2(up as nat) > 0x1_0000_0000_0000_0000,
                ;
            }
            0x1_0000_0000_0000_0000
        } else {
            let factor: u128 = power_of_two(up);
            proof {
                if up < 64 {
                    lemma_pow2_strictly_increases(up as nat, 64);
                }
                assert(m * factor < 0x100_0001_0000_0000_0000_0000) by (nonlinear_arith)
                    requires
                        m < 0x100_0000,
                        factor <= 0x1_0000_0000_0000_0000,
                ;
            }
            let size: u128 = (m as u128) * factor;
            if size > 0x1_0000_0000_0000_0000 {
                0x1_0000_0000_0000_0000
            } else {
                size
            }
        }
    }

    /// The number without its fraction as a `usize`: 0 for what is negative or a NaN, and the
    /// largest `usize` for what is larger.
    #[verifier::when_used_as_spec(spec_to_usize)]
    pub fn to_usize(self) -> (whole: usize)
        ensures
            whole == self.spec_to_usize(),
    {
        proof {
            reveal(Single::spec_to_usize);
        }
        if self.is_nan() || self.bits >= SIGN {
            return 0;
        }
        let size: u128 = self.truncate();
        if size > usize::MAX as u128 {
            usize::MAX
        } else {
            size as usize
        }
    }

    /// The number without its fraction as an `i32`: 0 for a NaN, and the nearest `i32` for what is
    /// out of range.
    #[verifier::when_used_as_spec(spec_to_i32)]
    pub fn to_i32(self) -> (whole: i32)
        ensures
            whole == self.spec_to_i32(),
    {
        proof {
            reveal(Single::spec_to_i32);
        }
        if self.is_nan() {
            return 0;
        }
        let size: u128 = self.truncate();
        if self.bits >= SIGN {
            if size >= 0x8000_0000 {
                i32::MIN
            } else {
                -(size as i32)
            }
        } else if size > 0x7fff_ffff {
            i32::MAX
        } else {
            size as i32
        }
    }

    #[verifier::opaque]
    pub open spec fn spec_from_i32(whole: i32) -> Single {
        Single::from_units(whole * one(), false)
    }

    #[verifier::opaque]
    pub open spec fn spec_from_usize(whole: usize) -> Single {
        Single::from_units(whole * one(), false)
    }

    /// The number nearest to an `i32`.
    #[verifier::when_used_as_spec(spec_from_i32)]
    pub fn from_i32(whole: i32) -> (single: Single)
        ensures
            single == Single::spec_from_i32(whole),
    {
        proof {
            reveal(Single::spec_from_i32);
        }
        if whole < 0 {
            let size: u64 = (-(whole as i64)) as u64;
            proof {
                lemma_pow2_pos(149);
                let (w, d) = (whole as int, one() as int);
                assert(-((-w) * d) == w * d && w * d < 0) by (nonlinear_arith)
                    requires
                        w < 0,
                        d > 0,
                ;
            }
            Single::whole(true, size)
        } else {
            Single::whole(false, whole as u64)
        }
    }

    /// The number nearest to a `usize`.
    #[verifier::when_used_as_spec(spec_from_usize)]
    pub fn from_usize(whole: usize) -> (single: Single)
        ensures
            single == Single::spec_from_usize(whole),
    {
        proof {
            reveal(Single::spec_from_usize);
        }
        Single::whole(false, whole as u64)
    }
}

/// Finite numbers have a product, and a quotient where the divisor is not 0.
pub proof fn lemma_has_value(a: Single, b: Single)
    requires
        a.finite(),
        b.finite(),
    ensures
        !a.times(b).nan(),
        !b.zero() ==> !a.over(b).nan(),
{
    reveal(Single::spec_times);
    reveal(Single::spec_over);
}

impl PartialEq for Single {
    fn eq(&self, other: &Single) -> (answer: bool) {
        self.equals(*other)
    }
}

impl vstd::std_specs::cmp::PartialEqSpecImpl for Single {
    open spec fn obeys_eq_spec() -> bool {
        true
    }

    open spec fn eq_spec(&self, other: &Single) -> bool {
        self.spec_equals(*other)
    }
}

} // verus!
