//! Moving the focus there and back.

use crate::laws::law_geometry_follows_tree;
use crate::layout::center_distance;
use crate::layout::chosen_neighbor;
use crate::layout::first_where;
use crate::layout::lemma_first_where_found;
use crate::layout::lies_toward;
use crate::layout::nearest_neighbor;
use crate::layout::neighbors;
use crate::layout::FocusDirection;
use crate::layout::LeafGeometry;
use crate::layout::Node;
use crate::layout::PaneId;
use crate::rect::LayoutMetrics;
use crate::rect::Rect;
use crate::rounding::rounded;
use crate::rounding::INFINITE;
use crate::single::Single;
use crate::single::HALF;
use crate::single::MINUS_HALF;
use vstd::prelude::*;

verus! {

/// The direction back.
pub open spec fn opposite(direction: FocusDirection) -> FocusDirection {
    match direction {
        FocusDirection::Left => FocusDirection::Right,
        FocusDirection::Right => FocusDirection::Left,
        FocusDirection::Up => FocusDirection::Down,
        FocusDirection::Down => FocusDirection::Up,
    }
}

/// Whether two numbers are opposite: one is the other with its sign changed, or both are zero or
/// both a NaN.
spec fn opposed(d: Single, e: Single) -> bool {
    &&& d.magnitude() == e.magnitude()
    &&& d.zero() || d.nan() || d.negative() != e.negative()
}

/// What changes with the sign.
proof fn lemma_negated(x: Single)
    ensures
        x.negated().magnitude() == x.magnitude(),
        x.negated().negative() == !x.negative(),
        x.negated().units() == -x.units(),
{
}

/// Opposite values have opposite nearest numbers.
proof fn lemma_opposite_units(units: int, n: bool, m: bool)
    ensures
        opposed(Single::from_units(units, n), Single::from_units(-units, m)),
{
    let size = (if units < 0 {
        -units
    } else {
        units
    }) as nat;
    assert(0 <= rounded(size, 1) <= INFINITE);
}

/// A difference the other way around is opposite.
proof fn lemma_opposite_difference(a: Single, b: Single)
    ensures
        opposed(a.minus(b), b.minus(a)),
{
    reveal(Single::spec_plus);
    lemma_negated(a);
    lemma_negated(b);
    if a.finite() && b.finite() {
        lemma_opposite_units(
            a.units() - b.units(),
            a.negative() && b.negated().negative(),
            b.negative() && a.negated().negative(),
        );
    }
}

/// The square of a difference does not depend on its direction.
proof fn lemma_square(d: Single, e: Single)
    requires
        d.magnitude() == e.magnitude(),
    ensures
        d.times(d) == e.times(e),
{
    reveal(Single::spec_times);
}

/// The distance is the same both ways.
proof fn lemma_distance_symmetric(a: LeafGeometry, b: LeafGeometry)
    ensures
        center_distance(a, b) == center_distance(b, a),
{
    reveal(center_distance);
    let (ax, ay) = a.rect.center();
    let (bx, by) = b.rect.center();
    lemma_opposite_difference(ax, bx);
    lemma_opposite_difference(ay, by);
    lemma_square(bx.minus(ax), ax.minus(bx));
    lemma_square(by.minus(ay), ay.minus(by));
}

/// What lies in a direction has what it lies from in the opposite direction.
proof fn lemma_lies_back(a: LeafGeometry, b: LeafGeometry, direction: FocusDirection)
    requires
        lies_toward(a, b, direction),
    ensures
        lies_toward(b, a, opposite(direction)),
{
    reveal(lies_toward);
    let (ax, ay) = a.rect.center();
    let (bx, by) = b.rect.center();
    lemma_opposite_difference(ax, bx);
    lemma_opposite_difference(ay, by);
    assert(Single::from_bits(HALF).ordinal() == -Single::from_bits(MINUS_HALF).ordinal());
}

/// A pane is a neighbor of each of its neighbors, in the opposite direction.
pub proof fn law_neighbors_are_mutual(
    a: LeafGeometry,
    b: LeafGeometry,
    direction: FocusDirection,
)
    requires
        neighbors(a, b, direction),
    ensures
        neighbors(b, a, opposite(direction)),
        center_distance(a, b) == center_distance(b, a),
{
    lemma_lies_back(a, b, direction);
    lemma_distance_symmetric(a, b);
}

/// Among the first `count` panes there is a nearest neighbor, or none at all.
proof fn lemma_nearest_exists(
    leaves: Seq<LeafGeometry>,
    current: LeafGeometry,
    direction: FocusDirection,
    count: int,
) -> (place: Option<int>)
    requires
        0 <= count <= leaves.len(),
    ensures
        match place {
            Some(at) => nearest_neighbor(leaves, current, direction, at, count),
            None => forall|j: int|
                0 <= j < count ==> !neighbors(current, #[trigger] leaves[j], direction),
        },
    decreases count,
{
    if count == 0 {
        None
    } else {
        let before = lemma_nearest_exists(leaves, current, direction, count - 1);
        let last = leaves[count - 1];
        if !neighbors(current, last, direction) {
            before
        } else {
            match before {
                None => Some(count - 1),
                Some(at) => {
                    if center_distance(current, last).lt(center_distance(current, leaves[at])) {
                        Some(count - 1)
                    } else {
                        Some(at)
                    }
                },
            }
        }
    }
}

/// There is always a choice: the nearest neighbor, or nothing.
pub proof fn lemma_choice_exists(
    leaves: Seq<LeafGeometry>,
    current: LeafGeometry,
    direction: FocusDirection,
) -> (choice: Option<PaneId>)
    ensures
        chosen_neighbor(leaves, current, direction, choice),
{
    match lemma_nearest_exists(leaves, current, direction, leaves.len() as int) {
        Some(at) => {
            assert(leaves[at].id == leaves[at].id);
            Some(leaves[at].id)
        },
        None => None,
    }
}

/// In a layout without duplicates, a pane is found at its place.
pub proof fn lemma_found_at(node: Node, bounds: Rect, metrics: LayoutMetrics, at: int)
    requires
        node.leaves().no_duplicates(),
        0 <= at < node.leaves().len(),
    ensures
        ({
            let leaves = node.placed(bounds, metrics);
            let id = node.leaves()[at];
            at < leaves.len() && first_where(leaves, |leaf: LeafGeometry| leaf.id == id) == Some(
                leaves[at],
            )
        }),
{
    let leaves = node.placed(bounds, metrics);
    let id = node.leaves()[at];
    law_geometry_follows_tree(node, bounds, metrics);
    lemma_first_where_found(leaves, |leaf: LeafGeometry| leaf.id == id);
    assert(leaves[at].id == id);
    let found = first_where(leaves, |leaf: LeafGeometry| leaf.id == id)->0;
    let i = choose|i: int| 0 <= i < leaves.len() && leaves[i] == found;
    assert(node.leaves()[i] == id);
}

/// The focus can move back: where a pane has a neighbor in a direction, that neighbor has one in
/// the opposite direction, which is at most as far away. The two panes are given by their places,
/// and the result is the place of the pane that the way back leads to.
pub proof fn law_focus_moves_back(
    node: Node,
    bounds: Rect,
    metrics: LayoutMetrics,
    direction: FocusDirection,
    from: int,
    to: int,
) -> (back: int)
    requires
        node.leaves().no_duplicates(),
        0 <= from < node.leaves().len(),
        0 <= to < node.leaves().len(),
        node.neighbor(bounds, metrics, node.leaves()[from], direction) == Some(node.leaves()[to]),
    ensures
        0 <= back < node.leaves().len(),
        node.neighbor(bounds, metrics, node.leaves()[to], opposite(direction)) == Some(
            node.leaves()[back],
        ),
        ({
            let leaves = node.placed(bounds, metrics);
            center_distance(leaves[to], leaves[back]).le(center_distance(leaves[from], leaves[to]))
        }),
{
    let leaves = node.placed(bounds, metrics);
    let count = leaves.len() as int;
    law_geometry_follows_tree(node, bounds, metrics);
    lemma_found_at(node, bounds, metrics, from);
    lemma_found_at(node, bounds, metrics, to);
    let (here, there) = (leaves[from], leaves[to]);
    let _ = lemma_choice_exists(leaves, here, direction);
    let there_id = node.leaves()[to];
    assert(chosen_neighbor(leaves, here, direction, Some(there_id)));
    let at = choose|at: int|
        #![trigger leaves[at]]
        nearest_neighbor(leaves, here, direction, at, count) && leaves[at].id == there_id;
    assert(node.leaves()[at] == there_id);
    assert(at == to);
    law_neighbors_are_mutual(here, there, direction);
    let choice = lemma_choice_exists(leaves, there, opposite(direction));
    let chosen = node.neighbor(bounds, metrics, there_id, opposite(direction));
    assert(chosen_neighbor(leaves, there, opposite(direction), chosen));
    assert(neighbors(there, leaves[from], opposite(direction)));
    let back_id = chosen->0;
    let back = choose|at: int|
        #![trigger leaves[at]]
        nearest_neighbor(leaves, there, opposite(direction), at, count) && leaves[at].id
            == back_id;
    assert(node.leaves()[back] == back_id);
    back
}

} // verus!
