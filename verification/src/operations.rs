//! What dragging, hit testing, focus movement and closing are for.

use crate::laws::law_every_pane_is_laid_out;
use crate::laws::law_geometry_follows_tree;
use crate::laws::lemma_divides_nothing;
use crate::laws::lemma_drag_absent;
use crate::laws::lemma_own_divider;
use crate::layout::center_distance;
use crate::layout::chosen_neighbor;
use crate::layout::first_where;
use crate::layout::lemma_contains_either;
use crate::layout::lemma_distinct_parts;
use crate::layout::lemma_has_leaf;
use crate::layout::lies_toward;
use crate::layout::nearest_neighbor;
use crate::layout::neighbors;
use crate::layout::BarGeometry;
use crate::layout::FocusDirection;
use crate::layout::Hit;
use crate::layout::LeafGeometry;
use crate::layout::Node;
use crate::layout::PaneId;
use crate::layout::SplitId;
use crate::moving::lemma_choice_exists;
use crate::moving::lemma_found_at;
use crate::rect::ratio_from_pointer;
use crate::rect::split_rect;
use crate::rect::LayoutMetrics;
use crate::rect::Rect;
use crate::rest::lemma_finds_parent;
use crate::rest::Wanted;
use crate::single::Single;
use crate::single::EPSILON;
use crate::single::HALF;
use crate::single::MAX;
use crate::single::MINUS_HALF;
use crate::single::TWO;
use vstd::prelude::*;

verus! {

/// A drag takes the divider to the pointer: where its ratio and that of the pointer, in the
/// rectangle that it divides, lie apart by more than the rounding of a number near 1, it takes the
/// ratio of the pointer and reports a change; where they do not, nothing changes.
pub proof fn law_drag_follows_the_pointer(
    node: Node,
    id: SplitId,
    bounds: Rect,
    metrics: LayoutMetrics,
    x: Single,
    y: Single,
)
    requires
        node.splits().no_duplicates(),
        node.splits().contains(id),
    ensures
        node.divided_by(id, bounds, metrics) matches Some((rect, axis)) && node.ratio_of(
            id,
        ) matches Some(ratio) && {
            let pointed = ratio_from_pointer(rect, axis, metrics, x, y);
            let (after, changed) = node.dragged(id, bounds, metrics, x, y);
            if Single::from_bits(EPSILON).lt(ratio.minus(pointed).abs()) {
                changed && after.ratio_of(id) == Some(pointed) && after.divided_by(
                    id,
                    bounds,
                    metrics,
                ) == Some((rect, axis))
            } else {
                !changed && after == node
            }
        },
    decreases node,
{
    if let Node::Split { id: own, axis, ratio, first, second } = node {
        if own != id {
            let parts = split_rect(bounds, axis, ratio, metrics);
            let (c, d) = (first.splits(), second.splits());
            lemma_own_divider(*first, own, *second, id);
            lemma_distinct_parts(c.push(own), d);
            assert(c.push(own) =~= c + seq![own]);
            lemma_distinct_parts(c, seq![own]);
            lemma_contains_either(c, seq![own], id);
            if c.contains(id) {
                law_drag_follows_the_pointer(*first, id, parts.0, metrics, x, y);
                lemma_drag_absent(*second, id, parts.2, metrics, x, y);
            } else {
                law_drag_follows_the_pointer(*second, id, parts.2, metrics, x, y);
                lemma_drag_absent(*first, id, parts.0, metrics, x, y);
                lemma_divides_nothing(*first, id, parts.0, metrics);
            }
        }
    }
}

/// The bar of a divider is laid out between the two parts of the rectangle that it divides, by its
/// ratio; the result is the place of that bar.
pub proof fn law_bar_lies_where_it_divides(
    node: Node,
    id: SplitId,
    bounds: Rect,
    metrics: LayoutMetrics,
) -> (i: int)
    requires
        node.splits().contains(id),
    ensures
        0 <= i < node.barred(bounds, metrics).len(),
        node.divided_by(id, bounds, metrics) matches Some((rect, axis)) && node.ratio_of(
            id,
        ) matches Some(ratio) && node.barred(bounds, metrics)[i] == (BarGeometry {
            id,
            axis,
            rect: split_rect(rect, axis, ratio, metrics).1,
        }),
    decreases node,
{
    match node {
        Node::Leaf(_) => 0,
        Node::Split { id: own, axis, ratio, first, second } => {
            let parts = split_rect(bounds, axis, ratio, metrics);
            let count = first.barred(parts.0, metrics).len() as int;
            lemma_own_divider(*first, own, *second, id);
            if own == id {
                assert(node.barred(bounds, metrics)[count] == BarGeometry {
                    id,
                    axis,
                    rect: parts.1,
                });
                count
            } else if first.splits().contains(id) {
                let i = law_bar_lies_where_it_divides(*first, id, parts.0, metrics);
                assert(node.barred(bounds, metrics)[i] == first.barred(parts.0, metrics)[i]);
                i
            } else {
                lemma_divides_nothing(*first, id, parts.0, metrics);
                let i = law_bar_lies_where_it_divides(*second, id, parts.2, metrics);
                assert(node.barred(bounds, metrics)[count + 1 + i] == second.barred(
                    parts.2,
                    metrics,
                )[i]);
                count + 1 + i
            }
        },
    }
}

/// The first element with a property is found by its place.
proof fn lemma_first_place<A>(s: Seq<A>, property: spec_fn(A) -> bool) -> (i: int)
    ensures
        match first_where(s, property) {
            Some(found) => 0 <= i < s.len() && s[i] == found && property(s[i]) && forall|j: int|
                0 <= j < i ==> !property(#[trigger] s[j]),
            None => forall|j: int| 0 <= j < s.len() ==> !property(#[trigger] s[j]),
        },
    decreases s.len(),
{
    if s.len() == 0 || property(s[0]) {
        0
    } else {
        let rest = s.drop_first();
        let i = lemma_first_place(rest, property);
        if first_where(rest, property) is Some {
            assert(rest[i] == s[i + 1]);
            assert forall|j: int| 0 <= j < i + 1 implies !property(#[trigger] s[j]) by {
                if j > 0 {
                    assert(s[j] == rest[j - 1]);
                }
            }
        } else {
            assert forall|j: int| 0 <= j < s.len() implies !property(#[trigger] s[j]) by {
                if j > 0 {
                    assert(s[j] == rest[j - 1]);
                }
            }
        }
        i + 1
    }
}

/// Whether a bar holds a point within its slop.
pub open spec fn bar_holds(bar: BarGeometry, metrics: LayoutMetrics, x: Single, y: Single) -> bool {
    bar.rect.inflate(metrics.hit_slop).contains(x, y)
}

/// A hit lies under the point. A bar that is hit holds the point within its slop, and no earlier
/// bar does. A pane that is hit holds the point, no earlier pane does, and no bar holds it within
/// its slop. Where nothing is hit, no bar and no pane holds the point.
pub proof fn law_hit_lies_under_the_point(
    node: Node,
    bounds: Rect,
    metrics: LayoutMetrics,
    x: Single,
    y: Single,
)
    ensures
        ({
            let bars = node.barred(bounds, metrics);
            let leaves = node.placed(bounds, metrics);
            let free = forall|j: int|
                0 <= j < bars.len() ==> !bar_holds(#[trigger] bars[j], metrics, x, y);
            match node.hit(bounds, metrics, x, y) {
                Some(Hit::Bar { id, axis }) => exists|i: int|
                    0 <= i < bars.len() && (#[trigger] bars[i]).id == id && bars[i].axis == axis
                        && bar_holds(bars[i], metrics, x, y) && forall|j: int|
                        0 <= j < i ==> !bar_holds(#[trigger] bars[j], metrics, x, y),
                Some(Hit::Pane(id)) => free && exists|i: int|
                    0 <= i < leaves.len() && (#[trigger] leaves[i]).id == id
                        && leaves[i].rect.contains(x, y) && forall|j: int|
                        0 <= j < i ==> !(#[trigger] leaves[j]).rect.contains(x, y),
                None => free && forall|j: int|
                    0 <= j < leaves.len() ==> !(#[trigger] leaves[j]).rect.contains(x, y),
            }
        }),
{
    let bars = node.barred(bounds, metrics);
    let leaves = node.placed(bounds, metrics);
    let on_bar = |bar: BarGeometry| bar.rect.inflate(metrics.hit_slop).contains(x, y);
    let on_leaf = |leaf: LeafGeometry| leaf.rect.contains(x, y);
    let i = lemma_first_place(bars, on_bar);
    if first_where(bars, on_bar) is Some {
        assert(on_bar(bars[i]));
        assert(bar_holds(bars[i], metrics, x, y));
        assert forall|j: int| 0 <= j < i implies !bar_holds(#[trigger] bars[j], metrics, x, y) by {
            assert(!on_bar(bars[j]));
        }
    } else {
        assert forall|j: int| 0 <= j < bars.len() implies !bar_holds(
            #[trigger] bars[j],
            metrics,
            x,
            y,
        ) by {
            assert(!on_bar(bars[j]));
        }
        let k = lemma_first_place(leaves, on_leaf);
        if first_where(leaves, on_leaf) is Some {
            assert(on_leaf(leaves[k]));
            assert(leaves[k].rect.contains(x, y));
            assert forall|j: int| 0 <= j < k implies !(#[trigger] leaves[j]).rect.contains(
                x,
                y,
            ) by {
                assert(!on_leaf(leaves[j]));
            }
        } else {
            assert forall|j: int|
                0 <= j < leaves.len() implies !(#[trigger] leaves[j]).rect.contains(x, y) by {
                assert(!on_leaf(leaves[j]));
            }
        }
    }
}

/// Whether the centers of two rectangles lie apart in a direction by more than half a pixel, and
/// their extents across that direction overlap.
pub open spec fn stands_beside(a: Rect, b: Rect, direction: FocusDirection) -> bool {
    let two = Single::from_bits(TWO);
    let dx = b.x.plus(b.width.over(two)).minus(a.x.plus(a.width.over(two)));
    let dy = b.y.plus(b.height.over(two)).minus(a.y.plus(a.height.over(two)));
    let share_rows = a.y.lt(b.y.plus(b.height)) && b.y.lt(a.y.plus(a.height));
    let share_columns = a.x.lt(b.x.plus(b.width)) && b.x.lt(a.x.plus(a.width));
    &&& direction == FocusDirection::Left ==> share_rows && dx.lt(Single::from_bits(MINUS_HALF))
    &&& direction == FocusDirection::Right ==> share_rows && Single::from_bits(HALF).lt(dx)
    &&& direction == FocusDirection::Up ==> share_columns && dy.lt(Single::from_bits(MINUS_HALF))
    &&& direction == FocusDirection::Down ==> share_columns && Single::from_bits(HALF).lt(dy)
}

/// The square of the distance between the centers of two rectangles.
pub open spec fn squared_distance(a: Rect, b: Rect) -> Single {
    let two = Single::from_bits(TWO);
    let dx = b.x.plus(b.width.over(two)).minus(a.x.plus(a.width.over(two)));
    let dy = b.y.plus(b.height.over(two)).minus(a.y.plus(a.height.over(two)));
    dx.times(dx).plus(dy.times(dy))
}

/// A pane is a neighbor of another exactly where its rectangle stands beside it, at less than the
/// largest distance.
proof fn lemma_neighbors_stand_beside(
    current: LeafGeometry,
    other: LeafGeometry,
    direction: FocusDirection,
)
    ensures
        center_distance(current, other) == squared_distance(current.rect, other.rect),
        neighbors(current, other, direction) == (other.id != current.id && stands_beside(
            current.rect,
            other.rect,
            direction,
        ) && squared_distance(current.rect, other.rect).lt(Single::from_bits(MAX))),
{
    reveal(center_distance);
    reveal(lies_toward);
}

/// Whether the focus can move from one pane to another: the other is another pane, stands beside
/// it, and is less than the largest distance away.
pub open spec fn within_reach(
    node: Node,
    bounds: Rect,
    metrics: LayoutMetrics,
    direction: FocusDirection,
    from: int,
    to: int,
) -> bool {
    let leaves = node.placed(bounds, metrics);
    &&& from != to
    &&& stands_beside(leaves[from].rect, leaves[to].rect, direction)
    &&& squared_distance(leaves[from].rect, leaves[to].rect).lt(Single::from_bits(MAX))
}

/// The focus moves to the nearest pane that stands beside the focused one, to the first of those
/// that are equally near; it stays only where none stands there.
pub proof fn law_neighbor_stands_nearest_beside(
    node: Node,
    bounds: Rect,
    metrics: LayoutMetrics,
    direction: FocusDirection,
    from: int,
)
    requires
        node.leaves().no_duplicates(),
        0 <= from < node.leaves().len(),
    ensures
        ({
            let leaves = node.placed(bounds, metrics);
            match node.neighbor(bounds, metrics, node.leaves()[from], direction) {
                Some(id) => exists|to: int|
                    0 <= to < node.leaves().len() && #[trigger] node.leaves()[to] == id
                        && within_reach(node, bounds, metrics, direction, from, to) && forall|
                        k: int,
                    |
                        0 <= k < node.leaves().len() && within_reach(
                            node,
                            bounds,
                            metrics,
                            direction,
                            from,
                            k,
                        ) ==> {
                            let (near, far) = (
                                squared_distance(leaves[from].rect, leaves[to].rect),
                                squared_distance(
                                    leaves[from].rect,
                                    (#[trigger] leaves[k]).rect,
                                ),
                            );
                            near.le(far) && (k < to ==> near.lt(far))
                        },
                None => forall|k: int|
                    #![trigger leaves[k]]
                    0 <= k < node.leaves().len() ==> !within_reach(
                        node,
                        bounds,
                        metrics,
                        direction,
                        from,
                        k,
                    ),
            }
        }),
{
    let leaves = node.placed(bounds, metrics);
    let count = leaves.len() as int;
    law_geometry_follows_tree(node, bounds, metrics);
    lemma_found_at(node, bounds, metrics, from);
    let here = leaves[from];
    let _ = lemma_choice_exists(leaves, here, direction);
    let choice = node.neighbor(bounds, metrics, node.leaves()[from], direction);
    assert(chosen_neighbor(leaves, here, direction, choice));
    assert forall|k: int| #![trigger leaves[k]] 0 <= k < node.leaves().len() implies within_reach(
        node,
        bounds,
        metrics,
        direction,
        from,
        k,
    ) == neighbors(here, leaves[k], direction) && center_distance(here, leaves[k])
        == squared_distance(here.rect, leaves[k].rect) by {
        lemma_neighbors_stand_beside(here, leaves[k], direction);
        assert(leaves[k].id == node.leaves()[k]);
        assert(leaves[from].id == node.leaves()[from]);
    }
    if let Some(id) = choice {
        let to = choose|at: int|
            #![trigger leaves[at]]
            nearest_neighbor(leaves, here, direction, at, count) && leaves[at].id == id;
        assert(node.leaves()[to] == id);
        assert(within_reach(node, bounds, metrics, direction, from, to));
    }
}

/// Closing a pane gives the focus to the first pane of the other part of the split that it was a
/// part of: to the pane directly behind it where it was the first part, and to the first pane of
/// the first part where it was the second.
pub proof fn law_close_focuses_the_sibling(
    node: Node,
    id: PaneId,
    bounds: Rect,
    metrics: LayoutMetrics,
)
    requires
        node.leaves().no_duplicates(),
        node.without(id) is Some,
    ensures
        node.find(Wanted::ParentOf(id), bounds, metrics) matches Some(place) && {
            let focus = (node.without(id)->0).1;
            &&& place.node matches Node::Split { first, second, .. } && {
                &&& *first == Node::Leaf(id) ==> focus == second.leaves()[0]
                &&& *first != Node::Leaf(id) ==> *second == Node::Leaf(id) && focus
                    == first.leaves()[0]
            }
            &&& 0 <= place.start < node.leaves().len()
            &&& node.leaves()[place.start] != id ==> focus == node.leaves()[place.start]
            &&& node.leaves()[place.start] == id ==> place.start + 1 < node.leaves().len() && focus
                == node.leaves()[place.start + 1]
        },
    decreases node,
{
    let wanted = Wanted::ParentOf(id);
    lemma_finds_parent(node, id, bounds, metrics);
    if let Node::Split { axis, ratio, first, second, .. } = node {
        let parts = split_rect(bounds, axis, ratio, metrics);
        let (a, b) = (first.leaves(), second.leaves());
        lemma_has_leaf(*first);
        lemma_has_leaf(*second);
        lemma_distinct_parts(a, b);
        if wanted.is_met_by(node) {
            if *first == Node::Leaf(id) {
                assert(a[0] == id);
                assert(node.leaves()[1] == b[0]);
            } else {
                assert(node.leaves()[0] == a[0]);
                assert(a.contains(a[0]));
                assert(b[0] == id);
                assert(b.contains(id));
            }
        } else {
            lemma_finds_parent(*first, id, parts.0, metrics);
            lemma_finds_parent(*second, id, parts.2, metrics);
            if first.without(id) is Some {
                law_close_focuses_the_sibling(*first, id, parts.0, metrics);
                let place = first.find(wanted, parts.0, metrics)->0;
                assert(node.leaves()[place.start] == a[place.start]);
                if a[place.start] == id {
                    assert(node.leaves()[place.start + 1] == a[place.start + 1]);
                }
            } else {
                law_close_focuses_the_sibling(*second, id, parts.2, metrics);
                let place = second.find(wanted, parts.2, metrics)->0;
                assert(node.leaves()[a.len() + place.start] == b[place.start]);
                if b[place.start] == id {
                    assert(node.leaves()[a.len() + place.start + 1] == b[place.start + 1]);
                }
            }
        }
    }
}

/// From a pane that is not in the layout, the focus moves nowhere.
pub proof fn law_no_pane_has_no_neighbor(
    node: Node,
    bounds: Rect,
    metrics: LayoutMetrics,
    focused: PaneId,
    direction: FocusDirection,
)
    requires
        !node.leaves().contains(focused),
    ensures
        node.neighbor(bounds, metrics, focused, direction) is None,
{
    law_every_pane_is_laid_out(node, bounds, metrics, focused);
}

} // verus!
