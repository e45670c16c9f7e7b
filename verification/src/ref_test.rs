//! The size and configuration of a recorded terminal, as JSON.

use alacritty_terminal::term::test::TermSize;
use vstd::prelude::*;
use vstd::string::StringExecFns;

verus! {

/// The character of a decimal digit.
pub open spec fn digit(value: nat) -> char {
    (48 + value) as char
}

/// A number in decimal, without leading zeros.
pub open spec fn decimal(number: nat) -> Seq<char>
    decreases number,
{
    if number < 10 {
        seq![digit(number)]
    } else {
        decimal(number / 10).push(digit(number % 10))
    }
}

/// `serde_json::to_string` of a `TermSize`: an object with the two fields of the structure in
/// order, in decimal, without white space. It does not fail.
#[verifier::external_body]
fn term_size_json(columns: usize, screen_lines: usize) -> (json: String)
    ensures
        json@ == "{\"columns\":"@ + decimal(columns as nat) + ",\"screen_lines\":"@ + decimal(
            screen_lines as nat,
        ) + "}"@,
{
    serde_json::to_string(&TermSize::new(columns, screen_lines)).expect("serialize size")
}

/// Appends one decimal digit.
fn push_digit(text: &mut String, value: usize)
    requires
        value < 10,
    ensures
        final(text)@ == old(text)@.push(digit(value as nat)),
{
    proof {
        reveal_strlit("0");
        reveal_strlit("1");
        reveal_strlit("2");
        reveal_strlit("3");
        reveal_strlit("4");
        reveal_strlit("5");
        reveal_strlit("6");
        reveal_strlit("7");
        reveal_strlit("8");
        reveal_strlit("9");
    }
    let digit: &str = match value {
        0 => "0",
        1 => "1",
        2 => "2",
        3 => "3",
        4 => "4",
        5 => "5",
        6 => "6",
        7 => "7",
        8 => "8",
        _ => "9",
    };
    text.append(digit);
}

/// Appends a number in decimal.
fn push_decimal(text: &mut String, number: usize)
    ensures
        final(text)@ == old(text)@ + decimal(number as nat),
    decreases number,
{
    if number >= 10 {
        push_decimal(text, number / 10);
    }
    push_digit(text, number % 10);
}

/// The size of a recorded terminal.
pub fn size_json(columns: usize, screen_lines: usize) -> (json: String)
    ensures
        json@ == "{\"columns\":"@ + decimal(columns as nat) + ",\"screen_lines\":"@ + decimal(
            screen_lines as nat,
        ) + "}"@,
{
    term_size_json(columns, screen_lines)
}

/// The configuration of a recorded terminal.
pub fn config_json(history_size: usize) -> (json: String)
    ensures
        json@ == "{\"history_size\":"@ + decimal(history_size as nat) + "}"@,
{
    let mut json = String::from_str("{\"history_size\":");
    push_decimal(&mut json, history_size);
    json.append("}");
    json
}

/// The number that decimal digits stand for.
pub open spec fn read_decimal(text: Seq<char>) -> int
    decreases text.len(),
{
    if text.len() == 0 {
        0
    } else {
        10 * read_decimal(text.drop_last()) + (text.last() as int - '0' as int)
    }
}

/// A number in decimal reads back as that number; it is made of the digits 0 to 9, and begins with
/// 0 only where it is 0.
pub proof fn law_decimal_reads_back(number: nat)
    ensures
        read_decimal(decimal(number)) == number,
        decimal(number).len() >= 1,
        forall|i: int|
            0 <= i < decimal(number).len() ==> '0' <= #[trigger] decimal(number)[i] <= '9',
        decimal(number)[0] == '0' ==> number == 0,
    decreases number,
{
    let text = decimal(number);
    let front = text.drop_last();
    if number < 10 {
        assert(front =~= Seq::<char>::empty());
        assert(read_decimal(front) == 0);
    } else {
        law_decimal_reads_back(number / 10);
        assert(front =~= decimal(number / 10));
        assert forall|i: int| 0 <= i < text.len() implies '0' <= #[trigger] text[i] <= '9' by {
            if i < front.len() {
                assert(text[i] == decimal(number / 10)[i]);
            }
        }
        assert(text[0] == decimal(number / 10)[0]);
        assert(text.last() == digit(number % 10));
    }
}

} // verus!
