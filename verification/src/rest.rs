//! What a split, a close and a drag leave in place.

use crate::laws::law_drag_reports_change;
use crate::laws::law_geometry_follows_tree;
use crate::laws::lemma_drag_absent;
use crate::laws::lemma_own_divider;
use crate::layout::lemma_contains_either;
use crate::layout::lemma_distinct_parts;
use crate::layout::BarGeometry;
use crate::layout::Node;
use crate::layout::PaneId;
use crate::layout::SplitId;
use crate::rect::split_rect;
use crate::rect::Axis;
use crate::rect::LayoutMetrics;
use crate::rect::Rect;
use crate::single::Single;
use crate::single::HALF;
use vstd::prelude::*;

verus! {

/// A subtree to look for.
pub enum Wanted {
    /// A pane.
    Pane(PaneId),
    /// The split one of whose two parts is a pane.
    ParentOf(PaneId),
    /// The split with a divider.
    Divider(SplitId),
}

/// A subtree, the rectangle in which it is laid out, and how many panes come before it.
pub struct Place {
    pub node: Node,
    pub rect: Rect,
    pub start: int,
}

impl Wanted {
    /// Whether a subtree is the one.
    pub open spec fn is_met_by(self, node: Node) -> bool {
        match self {
            Wanted::Pane(id) => node == Node::Leaf(id),
            Wanted::ParentOf(id) => node matches Node::Split { first, second, .. } && (*first
                == Node::Leaf(id) || *second == Node::Leaf(id)),
            Wanted::Divider(id) => node matches Node::Split { id: own, .. } && own == id,
        }
    }
}

impl Node {
    /// The first subtree that is looked for, a split before its parts.
    pub open spec fn find(
        self,
        wanted: Wanted,
        bounds: Rect,
        metrics: LayoutMetrics,
    ) -> Option<Place>
        decreases self,
    {
        if wanted.is_met_by(self) {
            Some(Place { node: self, rect: bounds, start: 0 })
        } else {
            match self {
                Node::Leaf(_) => None,
                Node::Split { axis, ratio, first, second, .. } => {
                    let parts = split_rect(bounds, axis, ratio, metrics);
                    match first.find(wanted, parts.0, metrics) {
                        Some(place) => Some(place),
                        None => match second.find(wanted, parts.2, metrics) {
                            Some(place) => Some(
                                Place { start: place.start + first.leaves().len(), ..place },
                            ),
                            None => None,
                        },
                    }
                },
            }
        }
    }
}

/// Whether two trees are laid out alike but for one subtree of the first, in whose rectangle the
/// second has another: the panes before and behind it are the same, and so are the bars.
pub open spec fn alike_but_for(
    before: Node,
    after: Node,
    bounds: Rect,
    metrics: LayoutMetrics,
    place: Place,
    new: Node,
) -> bool {
    let (leaves, bars) = (before.placed(bounds, metrics), before.barred(bounds, metrics));
    let (former, rect) = (place.node, place.rect);
    let (leaf_end, bar_end) = (
        place.start + former.leaves().len(),
        place.start + former.splits().len(),
    );
    &&& 0 <= place.start
    &&& leaf_end <= leaves.len()
    &&& bar_end <= bars.len()
    &&& leaves == leaves.take(place.start) + former.placed(rect, metrics) + leaves.skip(leaf_end)
    &&& bars == bars.take(place.start) + former.barred(rect, metrics) + bars.skip(bar_end)
    &&& after.placed(bounds, metrics) == leaves.take(place.start) + new.placed(rect, metrics)
        + leaves.skip(leaf_end)
    &&& after.barred(bounds, metrics) == bars.take(place.start) + new.barred(rect, metrics)
        + bars.skip(bar_end)
}

/// A tree with another subtree in the place of itself.
proof fn lemma_alike_whole(node: Node, new: Node, bounds: Rect, metrics: LayoutMetrics)
    ensures
        alike_but_for(
            node,
            new,
            bounds,
            metrics,
            Place { node, rect: bounds, start: 0 },
            new,
        ),
{
    law_geometry_follows_tree(node, bounds, metrics);
    let (leaves, bars) = (node.placed(bounds, metrics), node.barred(bounds, metrics));
    let (a, b) = (new.placed(bounds, metrics), new.barred(bounds, metrics));
    assert(leaves.take(0) + leaves + leaves.skip(leaves.len() as int) =~= leaves);
    assert(bars.take(0) + bars + bars.skip(bars.len() as int) =~= bars);
    assert(leaves.take(0) + a + leaves.skip(leaves.len() as int) =~= a);
    assert(bars.take(0) + b + bars.skip(bars.len() as int) =~= b);
}

/// A common end behind two sequences that are alike but for their middle.
proof fn lemma_alike_in_front<A>(s: Seq<A>, start: int, end: int, new: Seq<A>, tail: Seq<A>)
    requires
        0 <= start <= end <= s.len(),
    ensures
        s.take(start) + new + s.skip(end) + tail == (s + tail).take(start) + new + (s + tail).skip(
            end,
        ),
{
    assert((s + tail).take(start) =~= s.take(start));
    assert((s + tail).skip(end) =~= s.skip(end) + tail);
    assert(s.take(start) + new + s.skip(end) + tail =~= s.take(start) + new + (s.skip(end)
        + tail));
}

/// A common beginning before two sequences that are alike but for their middle.
proof fn lemma_alike_behind<A>(head: Seq<A>, s: Seq<A>, start: int, end: int, new: Seq<A>)
    requires
        0 <= start <= end <= s.len(),
    ensures
        head + (s.take(start) + new + s.skip(end)) == (head + s).take(head.len() + start) + new + (
        head + s).skip(head.len() + end),
{
    assert((head + s).take(head.len() + start) =~= head + s.take(start));
    assert((head + s).skip(head.len() + end) =~= s.skip(end));
    assert(head + (s.take(start) + new + s.skip(end)) =~= head + s.take(start) + new + s.skip(end));
}

/// Trees whose first parts are alike but for a subtree are so themselves.
proof fn lemma_alike_first(
    node: Node,
    changed: Node,
    bounds: Rect,
    metrics: LayoutMetrics,
    place: Place,
    new: Node,
)
    requires
        node matches Node::Split { axis, ratio, first, .. } && alike_but_for(
            *first,
            changed,
            split_rect(bounds, axis, ratio, metrics).0,
            metrics,
            place,
            new,
        ),
    ensures
        node matches Node::Split { id, axis, ratio, second, .. } && alike_but_for(
            node,
            Node::Split { id, axis, ratio, first: Box::new(changed), second },
            bounds,
            metrics,
            place,
            new,
        ),
{
    if let Node::Split { id, axis, ratio, first, second } = node {
        let parts = split_rect(bounds, axis, ratio, metrics);
        let after = Node::Split { id, axis, ratio, first: Box::new(changed), second };
        let bar = BarGeometry { id, axis, rect: parts.1 };
        let (p, q) = (first.placed(parts.0, metrics), second.placed(parts.2, metrics));
        let (c, d) = (first.barred(parts.0, metrics), second.barred(parts.2, metrics));
        let (start, from) = (place.start, place.node);
        let (leaf_end, bar_end) = (start + from.leaves().len(), start + from.splits().len());
        law_geometry_follows_tree(*first, parts.0, metrics);
        lemma_alike_in_front(p, start, leaf_end, from.placed(place.rect, metrics), q);
        lemma_alike_in_front(p, start, leaf_end, new.placed(place.rect, metrics), q);
        let tail = seq![bar] + d;
        assert(c.push(bar) + d =~= c + tail);
        lemma_alike_in_front(c, start, bar_end, from.barred(place.rect, metrics), tail);
        lemma_alike_in_front(c, start, bar_end, new.barred(place.rect, metrics), tail);
        let e = changed.barred(parts.0, metrics);
        assert(e.push(bar) + d =~= e + tail);
        assert(node.barred(bounds, metrics) == c + tail);
        assert(after.barred(bounds, metrics) == e + tail);
        assert(node.placed(bounds, metrics) == p + q);
        assert(after.placed(bounds, metrics) == changed.placed(parts.0, metrics) + q);
    }
}

/// Trees whose second parts are alike but for a subtree are so themselves.
proof fn lemma_alike_second(
    node: Node,
    changed: Node,
    bounds: Rect,
    metrics: LayoutMetrics,
    place: Place,
    new: Node,
)
    requires
        node matches Node::Split { axis, ratio, second, .. } && alike_but_for(
            *second,
            changed,
            split_rect(bounds, axis, ratio, metrics).2,
            metrics,
            place,
            new,
        ),
    ensures
        node matches Node::Split { id, axis, ratio, first, .. } && alike_but_for(
            node,
            Node::Split { id, axis, ratio, first, second: Box::new(changed) },
            bounds,
            metrics,
            Place { start: place.start + first.leaves().len(), ..place },
            new,
        ),
{
    if let Node::Split { id, axis, ratio, first, second } = node {
        let parts = split_rect(bounds, axis, ratio, metrics);
        let after = Node::Split { id, axis, ratio, first, second: Box::new(changed) };
        let bar = BarGeometry { id, axis, rect: parts.1 };
        let (p, q) = (first.placed(parts.0, metrics), second.placed(parts.2, metrics));
        let (c, d) = (first.barred(parts.0, metrics), second.barred(parts.2, metrics));
        let (start, from) = (place.start, place.node);
        let (leaf_end, bar_end) = (start + from.leaves().len(), start + from.splits().len());
        law_geometry_follows_tree(*first, parts.0, metrics);
        law_geometry_follows_tree(*second, parts.2, metrics);
        lemma_alike_behind(p, q, start, leaf_end, from.placed(place.rect, metrics));
        lemma_alike_behind(p, q, start, leaf_end, new.placed(place.rect, metrics));
        let head = c.push(bar);
        lemma_alike_behind(head, d, start, bar_end, from.barred(place.rect, metrics));
        lemma_alike_behind(head, d, start, bar_end, new.barred(place.rect, metrics));
        assert(node.barred(bounds, metrics) == head + d);
        assert(after.barred(bounds, metrics) == head + changed.barred(parts.2, metrics));
        assert(node.placed(bounds, metrics) == p + q);
        assert(after.placed(bounds, metrics) == p + changed.placed(parts.2, metrics));
    }
}

/// A pane is found exactly where it is in the tree.
proof fn lemma_finds_pane(node: Node, id: PaneId, bounds: Rect, metrics: LayoutMetrics)
    ensures
        node.find(Wanted::Pane(id), bounds, metrics) is Some <==> node.leaves().contains(id),
    decreases node,
{
    match node {
        Node::Leaf(own) => {
            assert(node.leaves()[0] == own);
            if node.leaves().contains(id) {
                let i = choose|i: int| 0 <= i < node.leaves().len() && node.leaves()[i] == id;
                assert(node.leaves()[i] == own);
            }
        },
        Node::Split { axis, ratio, first, second, .. } => {
            let parts = split_rect(bounds, axis, ratio, metrics);
            lemma_contains_either(first.leaves(), second.leaves(), id);
            lemma_finds_pane(*first, id, parts.0, metrics);
            lemma_finds_pane(*second, id, parts.2, metrics);
        },
    }
}

/// A split changes nothing but the pane that is split: in its rectangle, the two panes and the bar
/// of the new split are laid out, and all other panes and bars stay as they are.
pub proof fn law_split_keeps_the_rest(
    node: Node,
    focused: PaneId,
    axis: Axis,
    new_id: PaneId,
    split_id: SplitId,
    bounds: Rect,
    metrics: LayoutMetrics,
)
    requires
        node.leaves().contains(focused),
    ensures
        node.find(Wanted::Pane(focused), bounds, metrics) matches Some(place) && place.node
            == Node::Leaf(focused) && alike_but_for(
            node,
            node.with_split(focused, axis, new_id, split_id),
            bounds,
            metrics,
            place,
            Node::Split {
                id: split_id,
                axis,
                ratio: Single::from_bits(HALF),
                first: Box::new(Node::Leaf(focused)),
                second: Box::new(Node::Leaf(new_id)),
            },
        ),
    decreases node,
{
    let new = Node::Split {
        id: split_id,
        axis,
        ratio: Single::from_bits(HALF),
        first: Box::new(Node::Leaf(focused)),
        second: Box::new(Node::Leaf(new_id)),
    };
    lemma_finds_pane(node, focused, bounds, metrics);
    match node {
        Node::Leaf(_) => {
            lemma_alike_whole(node, new, bounds, metrics);
        },
        Node::Split { axis: own, ratio, first, second, .. } => {
            let parts = split_rect(bounds, own, ratio, metrics);
            lemma_contains_either(first.leaves(), second.leaves(), focused);
            lemma_finds_pane(*first, focused, parts.0, metrics);
            if first.leaves().contains(focused) {
                law_split_keeps_the_rest(
                    *first,
                    focused,
                    axis,
                    new_id,
                    split_id,
                    parts.0,
                    metrics,
                );
                let place = first.find(Wanted::Pane(focused), parts.0, metrics)->0;
                let changed = first.with_split(focused, axis, new_id, split_id);
                lemma_alike_first(node, changed, bounds, metrics, place, new);
            } else {
                law_split_keeps_the_rest(
                    *second,
                    focused,
                    axis,
                    new_id,
                    split_id,
                    parts.2,
                    metrics,
                );
                let place = second.find(Wanted::Pane(focused), parts.2, metrics)->0;
                let changed = second.with_split(focused, axis, new_id, split_id);
                lemma_alike_second(node, changed, bounds, metrics, place, new);
            }
        },
    }
}

impl Node {
    /// The part of a split that is not a pane.
    pub open spec fn sibling_of(self, id: PaneId) -> Node {
        match self {
            Node::Split { first, second, .. } => if *first == Node::Leaf(id) {
                *second
            } else {
                *first
            },
            Node::Leaf(_) => self,
        }
    }
}

/// The parent of a pane is found exactly where the pane can be closed.
pub proof fn lemma_finds_parent(node: Node, id: PaneId, bounds: Rect, metrics: LayoutMetrics)
    ensures
        node.find(Wanted::ParentOf(id), bounds, metrics) is Some <==> node.without(id) is Some,
    decreases node,
{
    if let Node::Split { axis, ratio, first, second, .. } = node {
        let parts = split_rect(bounds, axis, ratio, metrics);
        lemma_finds_parent(*first, id, parts.0, metrics);
        lemma_finds_parent(*second, id, parts.2, metrics);
    }
}

/// Closing a pane changes nothing but the split that it was a part of: the other part takes the
/// whole rectangle of that split, and all other panes and bars stay as they are.
pub proof fn law_close_keeps_the_rest(
    node: Node,
    id: PaneId,
    bounds: Rect,
    metrics: LayoutMetrics,
)
    requires
        node.without(id) is Some,
    ensures
        node.find(Wanted::ParentOf(id), bounds, metrics) matches Some(place)
            && Wanted::ParentOf(id).is_met_by(place.node) && alike_but_for(
            node,
            (node.without(id)->0).0,
            bounds,
            metrics,
            place,
            place.node.sibling_of(id),
        ),
    decreases node,
{
    let wanted = Wanted::ParentOf(id);
    if let Node::Split { axis, ratio, first, second, .. } = node {
        let parts = split_rect(bounds, axis, ratio, metrics);
        if wanted.is_met_by(node) {
            lemma_alike_whole(node, node.sibling_of(id), bounds, metrics);
        } else {
            lemma_finds_parent(*first, id, parts.0, metrics);
            if first.without(id) is Some {
                law_close_keeps_the_rest(*first, id, parts.0, metrics);
                let place = first.find(wanted, parts.0, metrics)->0;
                let changed = (first.without(id)->0).0;
                let new = place.node.sibling_of(id);
                lemma_alike_first(node, changed, bounds, metrics, place, new);
            } else {
                law_close_keeps_the_rest(*second, id, parts.2, metrics);
                let place = second.find(wanted, parts.2, metrics)->0;
                let changed = (second.without(id)->0).0;
                let new = place.node.sibling_of(id);
                lemma_alike_second(node, changed, bounds, metrics, place, new);
            }
        }
    }
}

/// A divider is found exactly where it is in the tree.
proof fn lemma_finds_divider(node: Node, id: SplitId, bounds: Rect, metrics: LayoutMetrics)
    ensures
        node.find(Wanted::Divider(id), bounds, metrics) is Some <==> node.splits().contains(id),
    decreases node,
{
    if let Node::Split { id: own, axis, ratio, first, second } = node {
        let parts = split_rect(bounds, axis, ratio, metrics);
        lemma_own_divider(*first, own, *second, id);
        lemma_finds_divider(*first, id, parts.0, metrics);
        lemma_finds_divider(*second, id, parts.2, metrics);
    }
}

/// A drag changes nothing but the split whose divider is dragged: that split is laid out in its
/// rectangle as if it were dragged alone, and all other panes and bars stay as they are.
pub proof fn law_drag_keeps_the_rest(
    node: Node,
    id: SplitId,
    bounds: Rect,
    metrics: LayoutMetrics,
    x: Single,
    y: Single,
)
    requires
        node.splits().no_duplicates(),
        node.splits().contains(id),
    ensures
        node.find(Wanted::Divider(id), bounds, metrics) matches Some(place)
            && Wanted::Divider(id).is_met_by(place.node) && alike_but_for(
            node,
            node.dragged(id, bounds, metrics, x, y).0,
            bounds,
            metrics,
            place,
            place.node.dragged(id, place.rect, metrics, x, y).0,
        ),
    decreases node,
{
    let wanted = Wanted::Divider(id);
    if let Node::Split { id: own, axis, ratio, first, second } = node {
        let parts = split_rect(bounds, axis, ratio, metrics);
        let (c, d) = (first.splits(), second.splits());
        if own == id {
            lemma_alike_whole(node, node.dragged(id, bounds, metrics, x, y).0, bounds, metrics);
        } else {
            lemma_own_divider(*first, own, *second, id);
            lemma_distinct_parts(c.push(own), d);
            assert(c.push(own) =~= c + seq![own]);
            lemma_distinct_parts(c, seq![own]);
            lemma_contains_either(c, seq![own], id);
            lemma_finds_divider(*first, id, parts.0, metrics);
            if c.contains(id) {
                lemma_drag_absent(*second, id, parts.2, metrics, x, y);
                law_drag_reports_change(*first, id, parts.0, metrics, x, y);
                law_drag_keeps_the_rest(*first, id, parts.0, metrics, x, y);
                let place = first.find(wanted, parts.0, metrics)->0;
                let changed = first.dragged(id, parts.0, metrics, x, y).0;
                let new = place.node.dragged(id, place.rect, metrics, x, y).0;
                lemma_alike_first(node, changed, bounds, metrics, place, new);
            } else {
                lemma_drag_absent(*first, id, parts.0, metrics, x, y);
                law_drag_keeps_the_rest(*second, id, parts.2, metrics, x, y);
                let place = second.find(wanted, parts.2, metrics)->0;
                let changed = second.dragged(id, parts.2, metrics, x, y).0;
                let new = place.node.dragged(id, place.rect, metrics, x, y).0;
                lemma_alike_second(node, changed, bounds, metrics, place, new);
            }
        }
    }
}

} // verus!
