//! The tree of panes of one window.

use crate::rect::can_take_ratio;
use crate::rect::min_columns;
use crate::rect::min_screen_lines;
use crate::rect::ratio_from_pointer;
use crate::rect::rects_overlap_1d;
use crate::rect::spec_min_columns;
use crate::rect::spec_min_screen_lines;
use crate::rect::split_rect;
use crate::rect::takes_ratio;
pub use crate::rect::Axis;
pub use crate::rect::LayoutMetrics;
pub use crate::rect::Rect;
use crate::single::Single;
use crate::single::EPSILON;
use crate::single::HALF;
use crate::single::MAX;
use crate::single::MINUS_HALF;
use vstd::prelude::*;

verus! {

/// Identifier for a leaf pane.
#[derive(Debug, Clone, Copy, PartialEq, Eq, Hash, Structural)]
pub struct PaneId(pub(crate) u64);

impl PaneId {
    pub closed spec fn spec_raw(self) -> u64 {
        self.0
    }

    /// The pane with this number.
    pub closed spec fn numbered(number: u64) -> PaneId {
        PaneId(number)
    }

    #[verifier::when_used_as_spec(spec_raw)]
    pub fn raw(self) -> (number: u64)
        ensures
            number == self.spec_raw(),
    {
        self.0
    }
}

/// Identifier for a split divider.
#[derive(Debug, Clone, Copy, PartialEq, Eq, Hash, Structural)]
pub struct SplitId(pub(crate) u64);

impl SplitId {
    /// The number of the divider.
    pub closed spec fn number(self) -> u64 {
        self.0
    }

    /// The divider with this number.
    pub closed spec fn numbered(number: u64) -> SplitId {
        SplitId(number)
    }
}

/// Panes and dividers are known by their numbers.
pub proof fn lemma_numbered()
    ensures
        forall|n: u64| (#[trigger] PaneId::numbered(n)).raw() == n,
        forall|id: PaneId| PaneId::numbered(#[trigger] id.raw()) == id,
        forall|n: u64| (#[trigger] SplitId::numbered(n)).number() == n,
        forall|id: SplitId| SplitId::numbered(#[trigger] id.number()) == id,
{
}

/// Keyboard focus movement.
#[derive(Debug, Clone, Copy, PartialEq, Eq, Structural)]
pub enum FocusDirection {
    Left,
    Right,
    Up,
    Down,
}

/// Laid-out leaf pane.
#[derive(Debug, Clone, Copy, PartialEq)]
pub struct LeafGeometry {
    pub id: PaneId,
    pub rect: Rect,
    pub columns: usize,
    pub screen_lines: usize,
}

/// Laid-out split bar.
#[derive(Debug, Clone, Copy, PartialEq)]
pub struct BarGeometry {
    pub id: SplitId,
    pub axis: Axis,
    pub rect: Rect,
}

/// Result of computing a layout tree.
#[derive(Debug, Clone, PartialEq)]
pub struct LayoutGeometry {
    pub leaves: Vec<LeafGeometry>,
    pub bars: Vec<BarGeometry>,
}

/// Hit-test result.
#[derive(Debug, Clone, Copy, PartialEq, Eq, Structural)]
pub enum Hit {
    Pane(PaneId),
    Bar { id: SplitId, axis: Axis },
}

/// A binary tree of panes.
pub enum Node {
    Leaf(PaneId),
    Split { id: SplitId, axis: Axis, ratio: Single, first: Box<Node>, second: Box<Node> },
}

impl Node {
    /// The panes from first to last.
    pub open spec fn leaves(self) -> Seq<PaneId>
        decreases self,
    {
        match self {
            Node::Leaf(id) => seq![id],
            Node::Split { first, second, .. } => first.leaves() + second.leaves(),
        }
    }

    /// The dividers from first to last.
    pub open spec fn splits(self) -> Seq<SplitId>
        decreases self,
    {
        match self {
            Node::Leaf(_) => seq![],
            Node::Split { id, first, second, .. } => first.splits().push(id) + second.splits(),
        }
    }

    /// No divider has a NaN for its ratio.
    pub open spec fn ratios_are_numbers(self) -> bool
        decreases self,
    {
        match self {
            Node::Leaf(_) => true,
            Node::Split { ratio, first, second, .. } => !ratio.nan() && first.ratios_are_numbers()
                && second.ratios_are_numbers(),
        }
    }

    /// No pane and no divider occurs twice, every number in use lies below the next one, and every
    /// ratio is a number.
    pub open spec fn sound(self, next_pane: u64, next_split: u64) -> bool {
        &&& self.leaves().no_duplicates()
        &&& self.splits().no_duplicates()
        &&& forall|i: int|
            0 <= i < self.leaves().len() ==> 0 < (#[trigger] self.leaves()[i]).raw() < next_pane
        &&& forall|i: int|
            0 <= i < self.splits().len() ==> 0 < (#[trigger] self.splits()[i]).number()
                < next_split
        &&& self.ratios_are_numbers()
        &&& next_pane > 0
        &&& next_split > 0
    }

    /// The tree in which the first leaf `focused` is replaced by a split of itself and `new_id`;
    /// the same tree where there is no such leaf.
    pub open spec fn with_split(
        self,
        focused: PaneId,
        axis: Axis,
        new_id: PaneId,
        split_id: SplitId,
    ) -> Node
        decreases self,
    {
        match self {
            Node::Leaf(id) => if id == focused {
                Node::Split {
                    id: split_id,
                    axis,
                    ratio: Single::from_bits(HALF),
                    first: Box::new(Node::Leaf(focused)),
                    second: Box::new(Node::Leaf(new_id)),
                }
            } else {
                self
            },
            Node::Split { id, axis: own, ratio, first, second } => if first.leaves().contains(
                focused,
            ) {
                Node::Split {
                    id,
                    axis: own,
                    ratio,
                    first: Box::new(first.with_split(focused, axis, new_id, split_id)),
                    second,
                }
            } else {
                Node::Split {
                    id,
                    axis: own,
                    ratio,
                    first,
                    second: Box::new(second.with_split(focused, axis, new_id, split_id)),
                }
            },
        }
    }

    /// The tree in which the sibling of a leaf `id` has taken the place of their parent, and the
    /// first pane of that sibling.
    pub open spec fn without(self, id: PaneId) -> Option<(Node, PaneId)>
        decreases self,
    {
        match self {
            Node::Leaf(_) => None,
            Node::Split { id: split_id, axis, ratio, first, second } => {
                if *first == Node::Leaf(id) {
                    Some((*second, second.leaves()[0]))
                } else if *second == Node::Leaf(id) {
                    Some((*first, first.leaves()[0]))
                } else {
                    match first.without(id) {
                        Some((rest, focus)) => Some(
                            (
                                Node::Split {
                                    id: split_id,
                                    axis,
                                    ratio,
                                    first: Box::new(rest),
                                    second,
                                },
                                focus,
                            ),
                        ),
                        None => match second.without(id) {
                            Some((rest, focus)) => Some(
                                (
                                    Node::Split {
                                        id: split_id,
                                        axis,
                                        ratio,
                                        first,
                                        second: Box::new(rest),
                                    },
                                    focus,
                                ),
                            ),
                            None => None,
                        },
                    }
                }
            },
        }
    }

    /// Whether closing pane `id` at place `at` takes it out of the order, together with one divider
    /// beside it, leaves everything else in its place, and gives the focus to a remaining pane.
    pub open spec fn closes_in_order(self, id: PaneId, at: int) -> bool {
        self.without(id) matches Some((rest, focus)) && {
            &&& rest.leaves() == self.leaves().remove(at)
            &&& rest.leaves().contains(focus)
            &&& (at < self.splits().len() && rest.splits() == self.splits().remove(at)) || (at > 0
                && rest.splits() == self.splits().remove(at - 1))
            &&& self.ratios_are_numbers() ==> rest.ratios_are_numbers()
        }
    }

    /// What of a tree stays when the ratios are left out.
    pub open spec fn same_shape(self, other: Node) -> bool
        decreases self,
    {
        match (self, other) {
            (Node::Leaf(a), Node::Leaf(b)) => a == b,
            (
                Node::Split { id: a, axis: p, first: f, second: s, .. },
                Node::Split { id: b, axis: q, first: g, second: t, .. },
            ) => a == b && p == q && f.same_shape(*g) && s.same_shape(*t),
            _ => false,
        }
    }
}

/// A tree has a first leaf.
pub proof fn lemma_has_leaf(node: Node)
    ensures
        node.leaves().len() >= 1,
    decreases node,
{
    if let Node::Split { first, second, .. } = node {
        lemma_has_leaf(*first);
        lemma_has_leaf(*second);
    }
}

/// Splitting a pane that is not there changes nothing.
pub proof fn lemma_split_absent(
    node: Node,
    focused: PaneId,
    axis: Axis,
    new_id: PaneId,
    split_id: SplitId,
)
    requires
        !node.leaves().contains(focused),
    ensures
        node.with_split(focused, axis, new_id, split_id) == node,
    decreases node,
{
    match node {
        Node::Leaf(id) => {
            assert(node.leaves()[0] == id);
        },
        Node::Split { first, second, .. } => {
            lemma_contains_either(first.leaves(), second.leaves(), focused);
            lemma_split_absent(*second, focused, axis, new_id, split_id);
        },
    }
}

/// What two sequences in a row hold.
pub proof fn lemma_contains_either<A>(a: Seq<A>, b: Seq<A>, x: A)
    ensures
        (a + b).contains(x) <==> a.contains(x) || b.contains(x),
{
    if a.contains(x) {
        let i = choose|i: int| 0 <= i < a.len() && a[i] == x;
        assert((a + b)[i] == x);
    }
    if b.contains(x) {
        let i = choose|i: int| 0 <= i < b.len() && b[i] == x;
        assert((a + b)[a.len() + i] == x);
    }
    if (a + b).contains(x) {
        let i = choose|i: int| 0 <= i < (a + b).len() && (a + b)[i] == x;
        if i < a.len() {
            assert(a[i] == x);
        } else {
            assert(b[i - a.len()] == x);
        }
    }
}

impl Node {
    fn split_leaf(
        &mut self,
        focused: PaneId,
        axis: Axis,
        new_id: PaneId,
        split_id: SplitId,
    ) -> (found: bool)
        ensures
            found == old(self).leaves().contains(focused),
            *final(self) == old(self).with_split(focused, axis, new_id, split_id),
        decreases *old(self),
    {
        match self {
            Node::Leaf(id) => {
                proof {
                    assert(old(self).leaves()[0] == *id);
                }
                if *id == focused {
                    *self = Node::Split {
                        id: split_id,
                        axis,
                        ratio: Single::from_bits(HALF),
                        first: Box::new(Node::Leaf(focused)),
                        second: Box::new(Node::Leaf(new_id)),
                    };
                    true
                } else {
                    false
                }
            },
            Node::Split { first, second, .. } => {
                proof {
                    lemma_contains_either(first.leaves(), second.leaves(), focused);
                    if !first.leaves().contains(focused) {
                        lemma_split_absent(**first, focused, axis, new_id, split_id);
                    }
                }
                first.split_leaf(focused, axis, new_id, split_id) || second.split_leaf(
                    focused,
                    axis,
                    new_id,
                    split_id,
                )
            },
        }
    }

    fn first_leaf(&self) -> (id: PaneId)
        ensures
            id == self.leaves()[0],
        decreases self,
    {
        match self {
            Node::Leaf(id) => *id,
            Node::Split { first, .. } => {
                proof {
                    lemma_has_leaf(**first);
                }
                first.first_leaf()
            },
        }
    }

    fn close(&mut self, id: PaneId) -> (focus: Option<PaneId>)
        ensures
            match old(self).without(id) {
                Some((rest, next)) => *final(self) == rest && focus == Some(next),
                None => *final(self) == *old(self) && focus is None,
            },
        decreases *old(self),
    {
        match self {
            Node::Leaf(_) => None,
            Node::Split { first, second, .. } => {
                if let Node::Leaf(pid) = **first {
                    if pid == id {
                        let focus = second.first_leaf();
                        *self = mem_take_node(second);
                        return Some(focus);
                    }
                }
                if let Node::Leaf(pid) = **second {
                    if pid == id {
                        let focus = first.first_leaf();
                        *self = mem_take_node(first);
                        return Some(focus);
                    }
                }
                match first.close(id) {
                    Some(focus) => Some(focus),
                    None => second.close(id),
                }
            },
        }
    }
}

/// Takes a subtree out and leaves a leaf in its place.
fn mem_take_node(node: &mut Box<Node>) -> (taken: Node)
    ensures
        taken == *old(node),
{
    let mut taken = Node::Leaf(PaneId(0));
    std::mem::swap(&mut taken, &mut **node);
    taken
}

/// The first element with a property.
pub open spec fn first_where<A>(s: Seq<A>, property: spec_fn(A) -> bool) -> Option<A>
    decreases s.len(),
{
    if s.len() == 0 {
        None
    } else if property(s[0]) {
        Some(s[0])
    } else {
        first_where(s.drop_first(), property)
    }
}

/// `first_where` by index: element `i` where it is the first with the property, and nothing where
/// `i` is the length and no element has it.
pub proof fn lemma_first_where<A>(s: Seq<A>, property: spec_fn(A) -> bool, i: int)
    requires
        0 <= i <= s.len(),
        forall|j: int| 0 <= j < i ==> !property(#[trigger] s[j]),
        i < s.len() ==> property(s[i]),
    ensures
        first_where(s, property) == if i < s.len() {
            Some(s[i])
        } else {
            None
        },
    decreases i,
{
    if i > 0 {
        let rest = s.drop_first();
        assert(!property(s[0]));
        assert forall|j: int| 0 <= j < i - 1 implies !property(#[trigger] rest[j]) by {
            assert(rest[j] == s[j + 1]);
        }
        lemma_first_where(rest, property, i - 1);
    }
}

/// What `first_where` finds is an element with the property.
pub proof fn lemma_first_where_found<A>(s: Seq<A>, property: spec_fn(A) -> bool)
    ensures
        match first_where(s, property) {
            Some(found) => property(found) && s.contains(found),
            None => forall|i: int| 0 <= i < s.len() ==> !property(#[trigger] s[i]),
        },
    decreases s.len(),
{
    if s.len() > 0 {
        if property(s[0]) {
            assert(s.contains(s[0]));
        } else {
            let rest = s.drop_first();
            lemma_first_where_found(rest, property);
            if first_where(rest, property) is Some {
                let found = first_where(rest, property)->0;
                let i = choose|i: int| 0 <= i < rest.len() && rest[i] == found;
                assert(s[i + 1] == found);
            } else {
                assert forall|i: int| 0 <= i < s.len() implies !property(#[trigger] s[i]) by {
                    if i > 0 {
                        assert(rest[i - 1] == s[i]);
                    }
                }
            }
        }
    }
}

/// The columns that fit a width.
pub open spec fn columns_in(width: Single, metrics: LayoutMetrics) -> usize {
    let fit = width.over(metrics.cell_width).to_usize();
    if fit < spec_min_columns() {
        spec_min_columns()
    } else {
        fit
    }
}

/// The lines that fit a height.
pub open spec fn lines_in(height: Single, metrics: LayoutMetrics) -> usize {
    let fit = height.over(metrics.cell_height).to_usize();
    if fit < spec_min_screen_lines() {
        spec_min_screen_lines()
    } else {
        fit
    }
}

/// Whether two ratios differ by more than the rounding of a number near 1.
pub open spec fn ratio_differs(ratio: Single, other: Single) -> bool {
    Single::from_bits(EPSILON).lt(ratio.minus(other).abs())
}

impl Node {
    /// The laid-out panes from first to last.
    pub open spec fn placed(self, bounds: Rect, metrics: LayoutMetrics) -> Seq<LeafGeometry>
        decreases self,
    {
        match self {
            Node::Leaf(id) => seq![
                LeafGeometry {
                    id,
                    rect: bounds,
                    columns: columns_in(bounds.width, metrics),
                    screen_lines: lines_in(bounds.height, metrics),
                },
            ],
            Node::Split { axis, ratio, first, second, .. } => {
                let parts = split_rect(bounds, axis, ratio, metrics);
                first.placed(parts.0, metrics) + second.placed(parts.2, metrics)
            },
        }
    }

    /// The laid-out bars from first to last.
    pub open spec fn barred(self, bounds: Rect, metrics: LayoutMetrics) -> Seq<BarGeometry>
        decreases self,
    {
        match self {
            Node::Leaf(_) => seq![],
            Node::Split { id, axis, ratio, first, second } => {
                let parts = split_rect(bounds, axis, ratio, metrics);
                first.barred(parts.0, metrics).push(BarGeometry { id, axis, rect: parts.1 })
                    + second.barred(parts.2, metrics)
            },
        }
    }

    /// Whether the divider `id` has a ratio for every pointer.
    pub open spec fn takes_drag(self, id: SplitId, bounds: Rect, metrics: LayoutMetrics) -> bool
        decreases self,
    {
        match self {
            Node::Leaf(_) => true,
            Node::Split { id: own, axis, ratio, first, second } => if own == id {
                takes_ratio(bounds, axis, metrics)
            } else {
                let parts = split_rect(bounds, axis, ratio, metrics);
                first.takes_drag(id, parts.0, metrics) && second.takes_drag(id, parts.2, metrics)
            },
        }
    }

    /// The tree after the divider `id` was dragged to a pointer, and whether that changed it. The
    /// first part is tried before the second.
    pub open spec fn dragged(
        self,
        id: SplitId,
        bounds: Rect,
        metrics: LayoutMetrics,
        x: Single,
        y: Single,
    ) -> (Node, bool)
        decreases self,
    {
        match self {
            Node::Leaf(_) => (self, false),
            Node::Split { id: own, axis, ratio, first, second } => if own == id {
                let pointed = ratio_from_pointer(bounds, axis, metrics, x, y);
                if ratio_differs(ratio, pointed) {
                    (Node::Split { id: own, axis, ratio: pointed, first, second }, true)
                } else {
                    (self, false)
                }
            } else {
                let parts = split_rect(bounds, axis, ratio, metrics);
                let (left, moved) = first.dragged(id, parts.0, metrics, x, y);
                if moved {
                    (Node::Split { id: own, axis, ratio, first: Box::new(left), second }, true)
                } else {
                    let (right, moved) = second.dragged(id, parts.2, metrics, x, y);
                    (Node::Split { id: own, axis, ratio, first, second: Box::new(right) }, moved)
                }
            },
        }
    }

    fn compute(&self, bounds: Rect, metrics: LayoutMetrics, geometry: &mut LayoutGeometry)
        ensures
            final(geometry).leaves@ == old(geometry).leaves@ + self.placed(bounds, metrics),
            final(geometry).bars@ == old(geometry).bars@ + self.barred(bounds, metrics),
        decreases self,
    {
        match self {
            Node::Leaf(id) => {
                let fit: usize = bounds.width.over(metrics.cell_width).to_usize();
                let fewest: usize = min_columns();
                let columns: usize = if fit < fewest {
                    fewest
                } else {
                    fit
                };
                let fit: usize = bounds.height.over(metrics.cell_height).to_usize();
                let fewest: usize = min_screen_lines();
                let screen_lines: usize = if fit < fewest {
                    fewest
                } else {
                    fit
                };
                geometry.leaves.push(
                    LeafGeometry { id: *id, rect: bounds, columns, screen_lines },
                );
            },
            Node::Split { id, axis, ratio, first, second } => {
                let (first_bounds, bar, second_bounds) = split_rect(bounds, *axis, *ratio, metrics);
                first.compute(first_bounds, metrics, geometry);
                geometry.bars.push(BarGeometry { id: *id, axis: *axis, rect: bar });
                second.compute(second_bounds, metrics, geometry);
            },
        }
    }

    fn can_drag(&self, id: SplitId, bounds: Rect, metrics: LayoutMetrics) -> (answer: bool)
        ensures
            answer == self.takes_drag(id, bounds, metrics),
        decreases self,
    {
        match self {
            Node::Leaf(_) => true,
            Node::Split { id: split_id, axis, ratio, first, second } => {
                if *split_id == id {
                    return can_take_ratio(bounds, *axis, metrics);
                }
                let (first_bounds, _, second_bounds) = split_rect(bounds, *axis, *ratio, metrics);
                first.can_drag(id, first_bounds, metrics) && second.can_drag(
                    id,
                    second_bounds,
                    metrics,
                )
            },
        }
    }

    fn drag(
        &mut self,
        id: SplitId,
        bounds: Rect,
        metrics: LayoutMetrics,
        pointer_x: Single,
        pointer_y: Single,
    ) -> (changed: bool)
        requires
            old(self).takes_drag(id, bounds, metrics),
        ensures
            (*final(self), changed) == old(self).dragged(id, bounds, metrics, pointer_x, pointer_y),
            !changed ==> *final(self) == *old(self),
        decreases *old(self),
    {
        match self {
            Node::Leaf(_) => false,
            Node::Split { id: split_id, axis, ratio, first, second } => {
                if *split_id == id {
                    let new_ratio: Single = ratio_from_pointer(
                        bounds,
                        *axis,
                        metrics,
                        pointer_x,
                        pointer_y,
                    );
                    if Single::from_bits(EPSILON).lt(ratio.minus(new_ratio).abs()) {
                        *ratio = new_ratio;
                        return true;
                    }
                    return false;
                }
                let (first_bounds, _, second_bounds) = split_rect(bounds, *axis, *ratio, metrics);
                first.drag(id, first_bounds, metrics, pointer_x, pointer_y) || second.drag(
                    id,
                    second_bounds,
                    metrics,
                    pointer_x,
                    pointer_y,
                )
            },
        }
    }
}

impl LayoutGeometry {
    /// The laid-out pane with this identifier.
    pub fn leaf(&self, id: PaneId) -> (leaf: Option<&LeafGeometry>)
        ensures
            match first_where(self.leaves@, |leaf: LeafGeometry| leaf.id == id) {
                Some(found) => leaf == Some(&found),
                None => leaf is None,
            },
    {
        let ghost property = |leaf: LeafGeometry| leaf.id == id;
        let mut i: usize = 0;
        while i < self.leaves.len()
            invariant
                i <= self.leaves.len(),
                property == (|leaf: LeafGeometry| leaf.id == id),
                forall|j: int| 0 <= j < i ==> !property(#[trigger] self.leaves@[j]),
            decreases self.leaves.len() - i,
        {
            if self.leaves[i].id == id {
                proof {
                    lemma_first_where(self.leaves@, property, i as int);
                }
                return Some(&self.leaves[i]);
            }
            i = i + 1;
        }
        proof {
            lemma_first_where(self.leaves@, property, i as int);
        }
        None
    }
}

/// The square of the distance between the centers of two panes.
#[verifier::opaque]
pub open spec fn center_distance(current: LeafGeometry, other: LeafGeometry) -> Single {
    let (cx, cy) = current.rect.center();
    let (lx, ly) = other.rect.center();
    let dx = lx.minus(cx);
    let dy = ly.minus(cy);
    dx.times(dx).plus(dy.times(dy))
}

/// Whether the center of a pane lies in a direction from another by more than half a pixel, and the
/// two overlap across that direction.
#[verifier::opaque]
pub open spec fn lies_toward(
    current: LeafGeometry,
    other: LeafGeometry,
    direction: FocusDirection,
) -> bool {
    let (cx, cy) = current.rect.center();
    let (lx, ly) = other.rect.center();
    let (a, b) = (current.rect, other.rect);
    match direction {
        FocusDirection::Left => lx.minus(cx).lt(Single::from_bits(MINUS_HALF)) && rects_overlap_1d(
            a.y,
            a.height,
            b.y,
            b.height,
        ),
        FocusDirection::Right => Single::from_bits(HALF).lt(lx.minus(cx)) && rects_overlap_1d(
            a.y,
            a.height,
            b.y,
            b.height,
        ),
        FocusDirection::Up => ly.minus(cy).lt(Single::from_bits(MINUS_HALF)) && rects_overlap_1d(
            a.x,
            a.width,
            b.x,
            b.width,
        ),
        FocusDirection::Down => Single::from_bits(HALF).lt(ly.minus(cy)) && rects_overlap_1d(
            a.x,
            a.width,
            b.x,
            b.width,
        ),
    }
}

fn distance(current: &LeafGeometry, other: &LeafGeometry) -> (distance: Single)
    ensures
        distance == center_distance(*current, *other),
{
    proof {
        reveal(center_distance);
    }
    let (cx, cy) = current.rect.center();
    let (lx, ly) = other.rect.center();
    let dx: Single = lx.minus(cx);
    let dy: Single = ly.minus(cy);
    dx.times(dx).plus(dy.times(dy))
}

fn toward(current: &LeafGeometry, other: &LeafGeometry, direction: FocusDirection) -> (toward: bool)
    ensures
        toward == lies_toward(*current, *other, direction),
{
    proof {
        reveal(lies_toward);
    }
    let (cx, cy) = current.rect.center();
    let (lx, ly) = other.rect.center();
    let dx: Single = lx.minus(cx);
    let dy: Single = ly.minus(cy);
    match direction {
        FocusDirection::Left => {
            dx.lt(Single::from_bits(MINUS_HALF)) && rects_overlap_1d(
                current.rect.y,
                current.rect.height,
                other.rect.y,
                other.rect.height,
            )
        },
        FocusDirection::Right => {
            Single::from_bits(HALF).lt(dx) && rects_overlap_1d(
                current.rect.y,
                current.rect.height,
                other.rect.y,
                other.rect.height,
            )
        },
        FocusDirection::Up => {
            dy.lt(Single::from_bits(MINUS_HALF)) && rects_overlap_1d(
                current.rect.x,
                current.rect.width,
                other.rect.x,
                other.rect.width,
            )
        },
        FocusDirection::Down => {
            Single::from_bits(HALF).lt(dy) && rects_overlap_1d(
                current.rect.x,
                current.rect.width,
                other.rect.x,
                other.rect.width,
            )
        },
    }
}

/// Whether a pane can take the focus over in a direction; one whose distance is not below the
/// largest number cannot.
pub open spec fn neighbors(
    current: LeafGeometry,
    other: LeafGeometry,
    direction: FocusDirection,
) -> bool {
    &&& other.id != current.id
    &&& lies_toward(current, other, direction)
    &&& center_distance(current, other).lt(Single::from_bits(MAX))
}

/// Whether pane `at` is the nearest neighbor among the first `count` panes, and the first of those
/// that are equally near.
pub open spec fn nearest_neighbor(
    leaves: Seq<LeafGeometry>,
    current: LeafGeometry,
    direction: FocusDirection,
    at: int,
    count: int,
) -> bool {
    &&& 0 <= at < count
    &&& neighbors(current, leaves[at], direction)
    &&& forall|j: int|
        0 <= j < count && neighbors(current, #[trigger] leaves[j], direction) ==> {
            &&& center_distance(current, leaves[at]).le(center_distance(current, leaves[j]))
            &&& j < at ==> center_distance(current, leaves[at]).lt(
                center_distance(current, leaves[j]),
            )
        }
}

/// Whether a choice is the nearest neighbor, or nothing where there is no neighbor.
pub open spec fn chosen_neighbor(
    leaves: Seq<LeafGeometry>,
    current: LeafGeometry,
    direction: FocusDirection,
    choice: Option<PaneId>,
) -> bool {
    match choice {
        Some(id) => exists|at: int|
            #![trigger leaves[at]]
            nearest_neighbor(leaves, current, direction, at, leaves.len() as int) && leaves[at].id
                == id,
        None => forall|j: int|
            0 <= j < leaves.len() ==> !neighbors(current, #[trigger] leaves[j], direction),
    }
}

/// There is at most one choice.
pub proof fn lemma_one_choice(
    leaves: Seq<LeafGeometry>,
    current: LeafGeometry,
    direction: FocusDirection,
    a: Option<PaneId>,
    b: Option<PaneId>,
)
    requires
        chosen_neighbor(leaves, current, direction, a),
        chosen_neighbor(leaves, current, direction, b),
    ensures
        a == b,
{
    let count = leaves.len() as int;
    if a is Some && b is Some {
        let i = choose|at: int|
            #![trigger leaves[at]]
            nearest_neighbor(leaves, current, direction, at, count) && leaves[at].id == a->0;
        let j = choose|at: int|
            #![trigger leaves[at]]
            nearest_neighbor(leaves, current, direction, at, count) && leaves[at].id == b->0;
        assert(neighbors(current, leaves[i], direction));
        assert(neighbors(current, leaves[j], direction));
        assert(i == j);
    }
}

impl Node {
    /// The pane beside `focused` in a direction: of those that overlap it across that direction,
    /// the one with the nearest center, and the first of those that are equally near.
    pub open spec fn neighbor(
        self,
        bounds: Rect,
        metrics: LayoutMetrics,
        focused: PaneId,
        direction: FocusDirection,
    ) -> Option<PaneId> {
        let leaves = self.placed(bounds, metrics);
        match first_where(leaves, |leaf: LeafGeometry| leaf.id == focused) {
            Some(current) => choose|choice: Option<PaneId>|
                chosen_neighbor(leaves, current, direction, choice),
            None => None,
        }
    }

    /// What lies under a point: the first bar that holds it within its slop, or else the first pane
    /// that holds it.
    pub open spec fn hit(
        self,
        bounds: Rect,
        metrics: LayoutMetrics,
        x: Single,
        y: Single,
    ) -> Option<Hit> {
        match first_where(
            self.barred(bounds, metrics),
            |bar: BarGeometry| bar.rect.inflate(metrics.hit_slop).contains(x, y),
        ) {
            Some(bar) => Some(Hit::Bar { id: bar.id, axis: bar.axis }),
            None => match first_where(
                self.placed(bounds, metrics),
                |leaf: LeafGeometry| leaf.rect.contains(x, y),
            ) {
                Some(leaf) => Some(Hit::Pane(leaf.id)),
                None => None,
            },
        }
    }
}

/// Two sequences in a row without duplicates have none each, and none in common.
pub proof fn lemma_distinct_parts<A>(a: Seq<A>, b: Seq<A>)
    requires
        (a + b).no_duplicates(),
    ensures
        a.no_duplicates(),
        b.no_duplicates(),
        forall|x: A| a.contains(x) ==> !b.contains(x),
{
    assert forall|i: int, j: int| 0 <= i < a.len() && 0 <= j < a.len() && i != j implies a[i]
        != a[j] by {
        assert((a + b)[i] == a[i] && (a + b)[j] == a[j]);
    }
    assert forall|i: int, j: int| 0 <= i < b.len() && 0 <= j < b.len() && i != j implies b[i]
        != b[j] by {
        assert((a + b)[a.len() + i] == b[i] && (a + b)[a.len() + j] == b[j]);
    }
    assert forall|x: A| a.contains(x) implies !b.contains(x) by {
        let i = choose|i: int| 0 <= i < a.len() && a[i] == x;
        if b.contains(x) {
            let j = choose|j: int| 0 <= j < b.len() && b[j] == x;
            assert((a + b)[i] == (a + b)[a.len() + j]);
        }
    }
}

/// There is one divider between each two neighbouring panes.
pub proof fn law_one_divider_fewer(node: Node)
    ensures
        node.splits().len() + 1 == node.leaves().len(),
    decreases node,
{
    if let Node::Split { first, second, .. } = node {
        law_one_divider_fewer(*first);
        law_one_divider_fewer(*second);
    }
}

/// A split puts the new pane directly behind the pane that was split, and the new divider between
/// the two; everything else keeps its place.
pub proof fn law_split_order(
    node: Node,
    focused: PaneId,
    axis: Axis,
    new_id: PaneId,
    split_id: SplitId,
    at: int,
)
    requires
        node.leaves().no_duplicates(),
        0 <= at < node.leaves().len(),
        node.leaves()[at] == focused,
    ensures
        node.with_split(focused, axis, new_id, split_id).leaves() == node.leaves().insert(
            at + 1,
            new_id,
        ),
        node.with_split(focused, axis, new_id, split_id).splits() == node.splits().insert(
            at,
            split_id,
        ),
        node.ratios_are_numbers() ==> node.with_split(
            focused,
            axis,
            new_id,
            split_id,
        ).ratios_are_numbers(),
    decreases node,
{
    match node {
        Node::Leaf(id) => {
            lemma_split_order_of_leaf(id, axis, new_id, split_id);
        },
        Node::Split { id, first, second, .. } => {
            let (a, b) = (first.leaves(), second.leaves());
            let (c, d) = (first.splits().push(id), second.splits());
            lemma_distinct_parts(a, b);
            law_one_divider_fewer(*first);
            law_one_divider_fewer(*second);
            lemma_insert_parts(a, b, at + 1, new_id);
            lemma_insert_parts(c, d, at, split_id);
            if at < a.len() {
                assert(a[at] == focused);
                law_split_order(*first, focused, axis, new_id, split_id, at);
                assert(first.splits().insert(at, split_id).push(id) =~= c.insert(at, split_id));
            } else {
                assert(b[at - a.len()] == focused);
                assert(b.contains(focused));
                law_split_order(*second, focused, axis, new_id, split_id, at - a.len());
            }
        },
    }
}

/// `law_split_order` for a single pane.
proof fn lemma_split_order_of_leaf(id: PaneId, axis: Axis, new_id: PaneId, split_id: SplitId)
    ensures
        Node::Leaf(id).with_split(id, axis, new_id, split_id).leaves() == Node::Leaf(
            id,
        ).leaves().insert(1, new_id),
        Node::Leaf(id).with_split(id, axis, new_id, split_id).splits() == Node::Leaf(
            id,
        ).splits().insert(0, split_id),
        Node::Leaf(id).with_split(id, axis, new_id, split_id).ratios_are_numbers(),
{
    reveal_with_fuel(Node::leaves, 2);
    reveal_with_fuel(Node::splits, 2);
    reveal_with_fuel(Node::ratios_are_numbers, 2);
    let after = Node::Leaf(id).with_split(id, axis, new_id, split_id);
    assert(after.leaves() =~= seq![id].insert(1, new_id));
    assert(after.splits() =~= Seq::<SplitId>::empty().insert(0, split_id));
}

/// Where an insertion into two sequences in a row goes.
proof fn lemma_insert_parts<A>(a: Seq<A>, b: Seq<A>, at: int, x: A)
    requires
        0 <= at <= a.len() + b.len(),
    ensures
        at <= a.len() ==> (a + b).insert(at, x) == a.insert(at, x) + b,
        at >= a.len() ==> (a + b).insert(at, x) == a + b.insert(at - a.len(), x),
{
    if at <= a.len() {
        assert((a + b).insert(at, x) =~= a.insert(at, x) + b);
    }
    if at >= a.len() {
        assert((a + b).insert(at, x) =~= a + b.insert(at - a.len(), x));
    }
}

/// Closing a pane takes it out of the order, together with one divider beside it; everything else
/// keeps its place, and a remaining pane gets the focus.
pub proof fn law_close_order(node: Node, id: PaneId, at: int)
    requires
        node.leaves().no_duplicates(),
        0 <= at < node.leaves().len(),
        node.leaves()[at] == id,
        node.leaves().len() > 1,
    ensures
        node.closes_in_order(id, at),
    decreases node, 1nat,
{
    law_one_divider_fewer(node);
    if let Node::Split { id: split_id, first, second, .. } = node {
        let (a, b) = (first.leaves(), second.leaves());
        let (c, d) = (first.splits(), second.splits());
        lemma_distinct_parts(a, b);
        lemma_has_leaf(*first);
        lemma_has_leaf(*second);
        law_one_divider_fewer(*first);
        law_one_divider_fewer(*second);
        lemma_remove_parts(a, b, at);
        if *first == Node::Leaf(id) {
            assert((a + b)[0] == id);
            assert(at == 0);
            assert(seq![id].remove(0) + b =~= b);
            assert(d =~= (c.push(split_id) + d).remove(0));
            assert(b.contains(b[0]));
        } else if *second == Node::Leaf(id) {
            assert((a + b)[a.len() as int] == id);
            assert(at == a.len());
            assert(a + seq![id].remove(0) =~= a);
            assert(c =~= (c.push(split_id) + d).remove(at - 1));
            assert(a.contains(a[0]));
        } else if at < a.len() {
            lemma_close_order_in_first(node, id, at);
        } else {
            lemma_close_order_in_second(node, id, at);
        }
    }
}

/// `law_close_order` where the pane lies deeper in the first part.
proof fn lemma_close_order_in_first(node: Node, id: PaneId, at: int)
    requires
        node.leaves().no_duplicates(),
        node matches Node::Split { first, second, .. } && *first != Node::Leaf(id) && *second
            != Node::Leaf(id) && 0 <= at < first.leaves().len(),
        node.leaves()[at] == id,
    ensures
        node.closes_in_order(id, at),
    decreases node, 0nat,
{
    if let Node::Split { id: split_id, first, second, .. } = node {
        let (a, b) = (first.leaves(), second.leaves());
        let (c, d) = (first.splits(), second.splits());
        lemma_distinct_parts(a, b);
        law_one_divider_fewer(*first);
        assert(a[at] == id);
        assert(a.contains(id));
        lemma_not_only(*first, id);
        law_close_order(*first, id, at);
        let (rest, focus) = first.without(id)->0;
        lemma_contains_either(rest.leaves(), b, focus);
        lemma_remove_parts(a, b, at);
        if at < c.len() && rest.splits() == c.remove(at) {
            assert(c.remove(at).push(split_id) + d =~= (c.push(split_id) + d).remove(at));
        } else {
            assert(c.remove(at - 1).push(split_id) + d =~= (c.push(split_id) + d).remove(at - 1));
        }
    }
}

/// `law_close_order` where the pane lies deeper in the second part.
proof fn lemma_close_order_in_second(node: Node, id: PaneId, at: int)
    requires
        node.leaves().no_duplicates(),
        node matches Node::Split { first, second, .. } && *first != Node::Leaf(id) && *second
            != Node::Leaf(id) && first.leaves().len() <= at < node.leaves().len(),
        node.leaves()[at] == id,
    ensures
        node.closes_in_order(id, at),
    decreases node, 0nat,
{
    if let Node::Split { id: split_id, first, second, .. } = node {
        let (a, b) = (first.leaves(), second.leaves());
        let (c, d) = (first.splits(), second.splits());
        let k = at - a.len();
        lemma_distinct_parts(a, b);
        law_one_divider_fewer(*first);
        law_one_divider_fewer(*second);
        assert(b[k] == id);
        assert(b.contains(id));
        assert(!a.contains(id));
        lemma_close_absent(*first, id);
        lemma_not_only(*second, id);
        law_close_order(*second, id, k);
        let (rest, focus) = second.without(id)->0;
        lemma_contains_either(a, rest.leaves(), focus);
        lemma_remove_parts(a, b, at);
        if k < d.len() && rest.splits() == d.remove(k) {
            assert(c.push(split_id) + d.remove(k) =~= (c.push(split_id) + d).remove(at));
        } else {
            assert(c.push(split_id) + d.remove(k - 1) =~= (c.push(split_id) + d).remove(at - 1));
        }
    }
}

/// Where a removal from two sequences in a row goes.
proof fn lemma_remove_parts<A>(a: Seq<A>, b: Seq<A>, at: int)
    requires
        0 <= at < a.len() + b.len(),
    ensures
        at < a.len() ==> (a + b).remove(at) == a.remove(at) + b,
        at >= a.len() ==> (a + b).remove(at) == a + b.remove(at - a.len()),
{
    if at < a.len() {
        assert((a + b).remove(at) =~= a.remove(at) + b);
    } else {
        assert((a + b).remove(at) =~= a + b.remove(at - a.len()));
    }
}

/// A tree that holds a pane and is not just that pane holds others.
proof fn lemma_not_only(node: Node, id: PaneId)
    requires
        node != Node::Leaf(id),
        node.leaves().contains(id),
    ensures
        node.leaves().len() > 1,
{
    match node {
        Node::Leaf(own) => {
            let i = choose|i: int| 0 <= i < node.leaves().len() && node.leaves()[i] == id;
            assert(node.leaves()[i] == own);
        },
        Node::Split { first, second, .. } => {
            lemma_has_leaf(*first);
            lemma_has_leaf(*second);
        },
    }
}

/// Nothing is closed where the pane is absent.
pub proof fn lemma_close_absent(node: Node, id: PaneId)
    requires
        !node.leaves().contains(id),
    ensures
        node.without(id) is None,
    decreases node,
{
    if let Node::Split { first, second, .. } = node {
        lemma_contains_either(first.leaves(), second.leaves(), id);
        lemma_close_absent(*first, id);
        lemma_close_absent(*second, id);
        assert(Node::Leaf(id).leaves()[0] == id);
    }
}

/// A drag that changes something keeps panes, dividers and directions, and leaves a number as the
/// ratio.
pub proof fn law_drag_keeps_shape(
    node: Node,
    id: SplitId,
    bounds: Rect,
    metrics: LayoutMetrics,
    x: Single,
    y: Single,
)
    ensures
        node.same_shape(node.dragged(id, bounds, metrics, x, y).0),
        node.dragged(id, bounds, metrics, x, y).0.leaves() == node.leaves(),
        node.dragged(id, bounds, metrics, x, y).0.splits() == node.splits(),
        node.ratios_are_numbers() ==> node.dragged(
            id,
            bounds,
            metrics,
            x,
            y,
        ).0.ratios_are_numbers(),
    decreases node,
{
    if let Node::Split { id: own, axis, ratio, first, second } = node {
        lemma_same_shape_reflexive(*first);
        lemma_same_shape_reflexive(*second);
        let parts = split_rect(bounds, axis, ratio, metrics);
        let pointed = ratio_from_pointer(bounds, axis, metrics, x, y);
        if ratio_differs(ratio, pointed) {
            lemma_ratio_differs(ratio, pointed);
        }
        law_drag_keeps_shape(*first, id, parts.0, metrics, x, y);
        law_drag_keeps_shape(*second, id, parts.2, metrics, x, y);
    }
}

/// A ratio that differs from another is another number.
pub proof fn lemma_ratio_differs(ratio: Single, other: Single)
    requires
        ratio_differs(ratio, other),
    ensures
        !other.nan(),
        ratio != other,
{
    reveal(Single::spec_plus);
}

/// A tree has its own shape.
pub proof fn lemma_same_shape_reflexive(node: Node)
    ensures
        node.same_shape(node),
    decreases node,
{
    if let Node::Split { first, second, .. } = node {
        lemma_same_shape_reflexive(*first);
        lemma_same_shape_reflexive(*second);
    }
}

/// A split under the next two numbers keeps a tree sound.
pub proof fn law_split_stays_sound(
    node: Node,
    focused: PaneId,
    axis: Axis,
    next_pane: u64,
    next_split: u64,
)
    requires
        node.sound(next_pane, next_split),
        next_pane < u64::MAX,
        next_split < u64::MAX,
    ensures
        node.with_split(
            focused,
            axis,
            PaneId::numbered(next_pane),
            SplitId::numbered(next_split),
        ).sound((next_pane + 1) as u64, (next_split + 1) as u64),
        !node.leaves().contains(PaneId::numbered(next_pane)),
        !node.leaves().contains(focused) ==> node.with_split(
            focused,
            axis,
            PaneId::numbered(next_pane),
            SplitId::numbered(next_split),
        ) == node,
{
    let new_id = PaneId::numbered(next_pane);
    let split_id = SplitId::numbered(next_split);
    if node.leaves().contains(focused) {
        let at = choose|at: int| 0 <= at < node.leaves().len() && node.leaves()[at] == focused;
        law_one_divider_fewer(node);
        law_split_order(node, focused, axis, new_id, split_id, at);
        lemma_insert_fresh(node.leaves(), at + 1, new_id);
        lemma_insert_fresh(node.splits(), at, split_id);
        let after = node.with_split(focused, axis, new_id, split_id);
        assert forall|i: int| 0 <= i < after.leaves().len() implies 0 < (
        #[trigger] after.leaves()[i]).raw() < next_pane + 1 by {
            if i <= at {
                assert(after.leaves()[i] == node.leaves()[i]);
            } else if i > at + 1 {
                assert(after.leaves()[i] == node.leaves()[i - 1]);
            }
        }
        assert forall|i: int| 0 <= i < after.splits().len() implies 0 < (
        #[trigger] after.splits()[i]).number() < next_split + 1 by {
            if i < at {
                assert(after.splits()[i] == node.splits()[i]);
            } else if i > at {
                assert(after.splits()[i] == node.splits()[i - 1]);
            }
        }
    } else {
        lemma_split_absent(node, focused, axis, new_id, split_id);
    }
}

/// A tree stays sound when a pane is closed; that succeeds for each of its panes but the last.
pub proof fn law_close_stays_sound(node: Node, id: PaneId, next_pane: u64, next_split: u64)
    requires
        node.sound(next_pane, next_split),
    ensures
        node.without(id) is Some <==> node.leaves().contains(id) && node.leaves().len() > 1,
        node.without(id) matches Some((rest, focus)) ==> {
            &&& rest.sound(next_pane, next_split)
            &&& rest.leaves().contains(focus)
            &&& forall|other: PaneId| #[trigger]
                rest.leaves().contains(other) <==> node.leaves().contains(other) && other != id
        },
{
    lemma_has_leaf(node);
    if !node.leaves().contains(id) {
        lemma_close_absent(node, id);
    } else if node.leaves().len() > 1 {
        let at = choose|at: int| 0 <= at < node.leaves().len() && node.leaves()[at] == id;
        law_close_order(node, id, at);
        law_one_divider_fewer(node);
        lemma_remove_distinct(node.leaves(), at);
        if at < node.splits().len() {
            lemma_remove_distinct(node.splits(), at);
        }
        if at > 0 {
            lemma_remove_distinct(node.splits(), at - 1);
        }
        lemma_remove_contains(node.leaves(), at);
    } else if let Node::Split { first, second, .. } = node {
        lemma_has_leaf(*first);
        lemma_has_leaf(*second);
    }
}

/// What a sequence holds after one of its distinct elements is taken out.
proof fn lemma_remove_contains<A>(s: Seq<A>, at: int)
    requires
        0 <= at < s.len(),
        s.no_duplicates(),
    ensures
        forall|x: A| #[trigger] s.remove(at).contains(x) <==> s.contains(x) && x != s[at],
{
    let t = s.remove(at);
    assert forall|x: A| #[trigger] t.contains(x) <==> s.contains(x) && x != s[at] by {
        if t.contains(x) {
            let i = choose|i: int| 0 <= i < t.len() && t[i] == x;
            let j = if i < at {
                i
            } else {
                i + 1
            };
            assert(s[j] == x);
        }
        if s.contains(x) && x != s[at] {
            let j = choose|j: int| 0 <= j < s.len() && s[j] == x;
            let i = if j < at {
                j
            } else {
                j - 1
            };
            assert(t[i] == x);
        }
    }
}

/// Binary tree of panes.
pub struct Layout {
    root: Node,
    next_pane_id: u64,
    next_split_id: u64,
}

impl Layout {
    /// The tree.
    pub closed spec fn tree(self) -> Node {
        self.root
    }

    /// The number that the next pane gets.
    pub closed spec fn next_pane(self) -> u64 {
        self.next_pane_id
    }

    /// The number that the next divider gets.
    pub closed spec fn next_split(self) -> u64 {
        self.next_split_id
    }

    /// Whether the tree is sound under the numbers handed out so far.
    pub open spec fn well_formed(self) -> bool {
        self.tree().sound(self.next_pane(), self.next_split())
    }

    /// Create a layout with a single pane.
    pub fn new() -> (created: (Self, PaneId))
        ensures
            created.0.well_formed(),
            created.0.tree() == Node::Leaf(created.1),
            created.1 == PaneId::numbered(1),
            created.0.next_pane() == 2,
            created.0.next_split() == 1,
    {
        let id = PaneId(1);
        (Self { root: Node::Leaf(id), next_pane_id: 2, next_split_id: 1 }, id)
    }

    pub fn is_single_pane(&self) -> (single: bool)
        ensures
            single == (self.tree() is Leaf),
            single == (self.tree().leaves().len() == 1),
    {
        proof {
            if let Node::Split { first, second, .. } = &self.root {
                lemma_has_leaf(**first);
                lemma_has_leaf(**second);
            }
        }
        matches!(self.root, Node::Leaf(_))
    }

    /// Split `focused` along `axis`, returning the new pane id.
    pub fn split(&mut self, focused: PaneId, axis: Axis) -> (new_pane: Option<PaneId>)
        requires
            old(self).well_formed(),
            old(self).next_pane() < u64::MAX,
            old(self).next_split() < u64::MAX,
        ensures
            final(self).well_formed(),
            final(self).next_pane() == old(self).next_pane() + 1,
            final(self).next_split() == old(self).next_split() + 1,
            new_pane == if old(self).tree().leaves().contains(focused) {
                Some(PaneId::numbered(old(self).next_pane()))
            } else {
                None
            },
            final(self).tree() == old(self).tree().with_split(
                focused,
                axis,
                PaneId::numbered(old(self).next_pane()),
                SplitId::numbered(old(self).next_split()),
            ),
            new_pane is None ==> final(self).tree() == old(self).tree(),
    {
        let new_id = PaneId(self.next_pane_id);
        self.next_pane_id += 1;
        let split_id = SplitId(self.next_split_id);
        self.next_split_id += 1;
        proof {
            law_split_stays_sound(
                old(self).root,
                focused,
                axis,
                old(self).next_pane_id,
                old(self).next_split_id,
            );
        }
        if self.root.split_leaf(focused, axis, new_id, split_id) {
            Some(new_id)
        } else {
            None
        }
    }

    /// Remove `id`, collapsing its parent split.
    ///
    /// Returns the sibling that should receive focus. `None` if this was the last pane.
    pub fn close(&mut self, id: PaneId) -> (focus: Option<PaneId>)
        requires
            old(self).well_formed(),
        ensures
            final(self).well_formed(),
            final(self).next_pane() == old(self).next_pane(),
            final(self).next_split() == old(self).next_split(),
            focus is Some <==> old(self).tree().leaves().contains(id) && old(
                self,
            ).tree().leaves().len() > 1,
            match old(self).tree().without(id) {
                Some((rest, next)) => final(self).tree() == rest && focus == Some(next),
                None => final(self).tree() == old(self).tree() && focus is None,
            },
    {
        proof {
            law_close_stays_sound(
                old(self).root,
                id,
                old(self).next_pane_id,
                old(self).next_split_id,
            );
        }
        if self.is_single_pane() {
            return None;
        }
        self.root.close(id)
    }

    pub fn compute(&self, bounds: Rect, metrics: LayoutMetrics) -> (geometry: LayoutGeometry)
        ensures
            geometry.leaves@ == self.tree().placed(bounds, metrics),
            geometry.bars@ == self.tree().barred(bounds, metrics),
    {
        let mut geometry = LayoutGeometry { leaves: Vec::new(), bars: Vec::new() };
        self.root.compute(bounds, metrics, &mut geometry);
        geometry
    }

    /// What lies under a point: a bar with its slop before any pane.
    pub fn hit_test(&self, bounds: Rect, metrics: LayoutMetrics, x: Single, y: Single) -> (hit:
        Option<Hit>)
        ensures
            hit == self.tree().hit(bounds, metrics, x, y),
    {
        let geometry = self.compute(bounds, metrics);
        let ghost on_bar = |bar: BarGeometry| bar.rect.inflate(metrics.hit_slop).contains(x, y);
        let ghost on_leaf = |leaf: LeafGeometry| leaf.rect.contains(x, y);
        let mut i: usize = 0;
        while i < geometry.bars.len()
            invariant
                i <= geometry.bars.len(),
                geometry.leaves@ == self.tree().placed(bounds, metrics),
                geometry.bars@ == self.tree().barred(bounds, metrics),
                on_bar == (|bar: BarGeometry|
                    bar.rect.inflate(metrics.hit_slop).contains(x, y)),
                forall|j: int| 0 <= j < i ==> !on_bar(#[trigger] geometry.bars@[j]),
            decreases geometry.bars.len() - i,
        {
            let bar = geometry.bars[i];
            if bar.rect.inflate(metrics.hit_slop).contains(x, y) {
                proof {
                    lemma_first_where(geometry.bars@, on_bar, i as int);
                }
                return Some(Hit::Bar { id: bar.id, axis: bar.axis });
            }
            i = i + 1;
        }
        proof {
            lemma_first_where(geometry.bars@, on_bar, i as int);
        }
        let mut i: usize = 0;
        while i < geometry.leaves.len()
            invariant
                i <= geometry.leaves.len(),
                geometry.leaves@ == self.tree().placed(bounds, metrics),
                geometry.bars@ == self.tree().barred(bounds, metrics),
                on_bar == (|bar: BarGeometry|
                    bar.rect.inflate(metrics.hit_slop).contains(x, y)),
                on_leaf == (|leaf: LeafGeometry| leaf.rect.contains(x, y)),
                first_where(geometry.bars@, on_bar) is None,
                forall|j: int| 0 <= j < i ==> !on_leaf(#[trigger] geometry.leaves@[j]),
            decreases geometry.leaves.len() - i,
        {
            let leaf = geometry.leaves[i];
            if leaf.rect.contains(x, y) {
                proof {
                    lemma_first_where(geometry.leaves@, on_leaf, i as int);
                }
                return Some(Hit::Pane(leaf.id));
            }
            i = i + 1;
        }
        proof {
            lemma_first_where(geometry.leaves@, on_leaf, i as int);
        }
        None
    }

    /// The pane beside `focused` in a direction: of those that overlap it across that direction,
    /// the one with the nearest center.
    pub fn neighbor(
        &self,
        bounds: Rect,
        metrics: LayoutMetrics,
        focused: PaneId,
        direction: FocusDirection,
    ) -> (neighbor: Option<PaneId>)
        ensures
            neighbor == self.tree().neighbor(bounds, metrics, focused, direction),
            match first_where(
                self.tree().placed(bounds, metrics),
                |leaf: LeafGeometry| leaf.id == focused,
            ) {
                Some(current) => chosen_neighbor(
                    self.tree().placed(bounds, metrics),
                    current,
                    direction,
                    neighbor,
                ),
                None => neighbor is None,
            },
    {
        let geometry = self.compute(bounds, metrics);
        proof {
            lemma_first_where_found(geometry.leaves@, |leaf: LeafGeometry| leaf.id == focused);
        }
        let current: LeafGeometry = match geometry.leaf(focused) {
            Some(leaf) => *leaf,
            None => return None,
        };
        let mut best: Option<PaneId> = None;
        let mut best_dist: Single = Single::from_bits(MAX);
        let ghost mut found: int = 0;
        let mut i: usize = 0;
        while i < geometry.leaves.len()
            invariant
                i <= geometry.leaves.len(),
                geometry.leaves@ == self.tree().placed(bounds, metrics),
                current.id == focused,
                first_where(geometry.leaves@, |leaf: LeafGeometry| leaf.id == focused) == Some(
                    current,
                ),
                best is None ==> best_dist == Single::from_bits(MAX) && forall|j: int|
                    0 <= j < i ==> !neighbors(current, #[trigger] geometry.leaves@[j], direction),
                best matches Some(id) ==> {
                    &&& 0 <= found < i
                    &&& geometry.leaves@[found].id == id
                    &&& best_dist == center_distance(current, geometry.leaves@[found])
                    &&& nearest_neighbor(geometry.leaves@, current, direction, found, i as int)
                },
            decreases geometry.leaves.len() - i,
        {
            let leaf = geometry.leaves[i];
            i = i + 1;
            if leaf.id == focused {
                continue;
            }
            if !toward(&current, &leaf, direction) {
                continue;
            }
            let dist: Single = distance(&current, &leaf);
            if dist.lt(best_dist) {
                best_dist = dist;
                best = Some(leaf.id);
                proof {
                    found = i - 1;
                }
            }
        }
        proof {
            let leaves = geometry.leaves@;
            assert(chosen_neighbor(leaves, current, direction, best));
            let choice = self.tree().neighbor(bounds, metrics, focused, direction);
            lemma_one_choice(leaves, current, direction, best, choice);
        }
        best
    }

    /// Whether a split bar can be dragged to every pointer.
    pub fn can_drag(&self, id: SplitId, bounds: Rect, metrics: LayoutMetrics) -> (answer: bool)
        ensures
            answer == self.tree().takes_drag(id, bounds, metrics),
    {
        self.root.can_drag(id, bounds, metrics)
    }

    /// Whether there are numbers left for another pane and another divider.
    pub fn can_split(&self) -> (answer: bool)
        ensures
            answer == (self.next_pane() < u64::MAX && self.next_split() < u64::MAX),
    {
        self.next_pane_id < u64::MAX && self.next_split_id < u64::MAX
    }

    /// Drag a split bar. Returns `true` if the ratio changed.
    pub fn drag_split(
        &mut self,
        id: SplitId,
        bounds: Rect,
        metrics: LayoutMetrics,
        pointer_x: Single,
        pointer_y: Single,
    ) -> (changed: bool)
        requires
            old(self).tree().takes_drag(id, bounds, metrics),
        ensures
            (final(self).tree(), changed) == old(self).tree().dragged(
                id,
                bounds,
                metrics,
                pointer_x,
                pointer_y,
            ),
            !changed ==> final(self).tree() == old(self).tree(),
            final(self).next_pane() == old(self).next_pane(),
            final(self).next_split() == old(self).next_split(),
            old(self).well_formed() ==> final(self).well_formed(),
    {
        proof {
            law_drag_keeps_shape(old(self).root, id, bounds, metrics, pointer_x, pointer_y);
        }
        self.root.drag(id, bounds, metrics, pointer_x, pointer_y)
    }
}

/// A new element keeps a sequence free of duplicates.
proof fn lemma_insert_fresh<A>(s: Seq<A>, at: int, x: A)
    requires
        0 <= at <= s.len(),
        s.no_duplicates(),
        !s.contains(x),
    ensures
        s.insert(at, x).no_duplicates(),
{
    let t = s.insert(at, x);
    assert forall|i: int, j: int| 0 <= i < t.len() && 0 <= j < t.len() && i != j implies t[i]
        != t[j] by {
        let a = if i < at {
            i
        } else {
            i - 1
        };
        let b = if j < at {
            j
        } else {
            j - 1
        };
        if i != at {
            assert(t[i] == s[a]);
            assert(s.contains(s[a]));
        }
        if j != at {
            assert(t[j] == s[b]);
            assert(s.contains(s[b]));
        }
    }
}

/// Taking an element out keeps a sequence free of duplicates.
proof fn lemma_remove_distinct<A>(s: Seq<A>, at: int)
    requires
        0 <= at < s.len(),
        s.no_duplicates(),
    ensures
        s.remove(at).no_duplicates(),
{
}

} // verus!
