//! What holds of the operations on a tree of panes together.

use crate::layout::chosen_neighbor;
use crate::layout::first_where;
use crate::layout::lemma_close_absent;
use crate::layout::lemma_contains_either;
use crate::layout::lemma_distinct_parts;
use crate::layout::lemma_first_where_found;
use crate::layout::lemma_ratio_differs;
use crate::layout::nearest_neighbor;
use crate::layout::ratio_differs;
use crate::layout::BarGeometry;
use crate::layout::FocusDirection;
use crate::layout::Hit;
use crate::layout::LeafGeometry;
use crate::layout::Node;
use crate::layout::PaneId;
use crate::layout::SplitId;
use crate::rect::ratio_from_pointer;
use crate::rect::spec_min_columns;
use crate::rect::spec_min_screen_lines;
use crate::rect::split_rect;
use crate::rect::Axis;
use crate::rect::LayoutMetrics;
use crate::rect::Rect;
use crate::single::lemma_order;
use crate::single::Single;
use vstd::prelude::*;

verus! {

/// Closing the pane that a split has made undoes the split, and gives the focus back to the pane
/// that was split.
pub proof fn law_close_undoes_split(
    node: Node,
    focused: PaneId,
    axis: Axis,
    new_id: PaneId,
    split_id: SplitId,
)
    requires
        node.leaves().no_duplicates(),
        node.leaves().contains(focused),
        !node.leaves().contains(new_id),
    ensures
        node.with_split(focused, axis, new_id, split_id).without(new_id) == Some((node, focused)),
    decreases node,
{
    match node {
        Node::Leaf(id) => {
            let i = choose|i: int| 0 <= i < node.leaves().len() && node.leaves()[i] == focused;
            assert(node.leaves()[i] == id);
            assert(Node::Leaf(focused).leaves()[0] == focused);
        },
        Node::Split { first, second, .. } => {
            let (a, b) = (first.leaves(), second.leaves());
            lemma_contains_either(a, b, focused);
            lemma_contains_either(a, b, new_id);
            lemma_distinct_parts(a, b);
            assert(Node::Leaf(new_id).leaves()[0] == new_id);
            if a.contains(focused) {
                law_close_undoes_split(*first, focused, axis, new_id, split_id);
                lemma_not_a_leaf(*first, focused, axis, new_id, split_id);
            } else {
                lemma_close_absent(*first, new_id);
                law_close_undoes_split(*second, focused, axis, new_id, split_id);
                lemma_not_a_leaf(*second, focused, axis, new_id, split_id);
            }
        },
    }
}

/// A tree in which a pane was split is no single pane.
proof fn lemma_not_a_leaf(
    node: Node,
    focused: PaneId,
    axis: Axis,
    new_id: PaneId,
    split_id: SplitId,
)
    requires
        node.leaves().contains(focused),
    ensures
        node.with_split(focused, axis, new_id, split_id) is Split,
{
    if let Node::Leaf(id) = node {
        let i = choose|i: int| 0 <= i < node.leaves().len() && node.leaves()[i] == focused;
        assert(node.leaves()[i] == id);
    }
}

/// The laid-out panes are those of the tree, in order, and so are the laid-out bars; there is one
/// bar fewer than there are panes.
pub proof fn law_geometry_follows_tree(node: Node, bounds: Rect, metrics: LayoutMetrics)
    ensures
        node.placed(bounds, metrics).len() == node.leaves().len(),
        forall|i: int|
            0 <= i < node.leaves().len() ==> (#[trigger] node.placed(bounds, metrics)[i]).id
                == node.leaves()[i],
        node.barred(bounds, metrics).len() == node.splits().len(),
        forall|i: int|
            0 <= i < node.splits().len() ==> (#[trigger] node.barred(bounds, metrics)[i]).id
                == node.splits()[i],
        node.barred(bounds, metrics).len() + 1 == node.placed(bounds, metrics).len(),
    decreases node,
{
    if let Node::Split { axis, ratio, first, second, .. } = node {
        let parts = split_rect(bounds, axis, ratio, metrics);
        law_geometry_follows_tree(*first, parts.0, metrics);
        law_geometry_follows_tree(*second, parts.2, metrics);
        let count = first.leaves().len();
        assert forall|i: int| 0 <= i < node.leaves().len() implies (#[trigger] node.placed(
            bounds,
            metrics,
        )[i]).id == node.leaves()[i] by {
            if i < count {
                assert(node.placed(bounds, metrics)[i] == first.placed(parts.0, metrics)[i]);
            } else {
                assert(node.placed(bounds, metrics)[i] == second.placed(parts.2, metrics)[i
                    - count]);
            }
        }
        let count = first.splits().len();
        assert forall|i: int| 0 <= i < node.splits().len() implies (#[trigger] node.barred(
            bounds,
            metrics,
        )[i]).id == node.splits()[i] by {
            if i < count {
                assert(node.barred(bounds, metrics)[i] == first.barred(parts.0, metrics)[i]);
            } else if i > count {
                assert(node.barred(bounds, metrics)[i] == second.barred(parts.2, metrics)[i - count
                    - 1]);
            }
        }
    }
}

/// No pane has fewer columns or lines than the smallest terminal, however narrow it is.
pub proof fn law_panes_hold_a_terminal(node: Node, bounds: Rect, metrics: LayoutMetrics)
    ensures
        forall|i: int|
            0 <= i < node.placed(bounds, metrics).len() ==> {
                &&& (#[trigger] node.placed(bounds, metrics)[i]).columns >= spec_min_columns()
                &&& node.placed(bounds, metrics)[i].screen_lines >= spec_min_screen_lines()
            },
    decreases node,
{
    if let Node::Split { axis, ratio, first, second, .. } = node {
        let parts = split_rect(bounds, axis, ratio, metrics);
        law_panes_hold_a_terminal(*first, parts.0, metrics);
        law_panes_hold_a_terminal(*second, parts.2, metrics);
        let count = first.placed(parts.0, metrics).len();
        assert forall|i: int| 0 <= i < node.placed(bounds, metrics).len() implies {
            &&& (#[trigger] node.placed(bounds, metrics)[i]).columns >= spec_min_columns()
            &&& node.placed(bounds, metrics)[i].screen_lines >= spec_min_screen_lines()
        } by {
            if i < count {
                assert(node.placed(bounds, metrics)[i] == first.placed(parts.0, metrics)[i]);
            } else {
                assert(node.placed(bounds, metrics)[i] == second.placed(parts.2, metrics)[i
                    - count]);
            }
        }
    }
}

/// A pane is found in the geometry exactly where it is in the tree.
pub proof fn law_every_pane_is_laid_out(
    node: Node,
    bounds: Rect,
    metrics: LayoutMetrics,
    id: PaneId,
)
    ensures
        match first_where(
            node.placed(bounds, metrics),
            |leaf: LeafGeometry| leaf.id == id,
        ) {
            Some(leaf) => leaf.id == id && node.leaves().contains(id),
            None => !node.leaves().contains(id),
        },
{
    let leaves = node.placed(bounds, metrics);
    law_geometry_follows_tree(node, bounds, metrics);
    lemma_first_where_found(leaves, |leaf: LeafGeometry| leaf.id == id);
    lemma_laid_out_id(node, bounds, metrics);
    if node.leaves().contains(id) {
        let i = choose|i: int| 0 <= i < node.leaves().len() && node.leaves()[i] == id;
        assert(leaves[i].id == id);
    }
}

/// What is laid out is in the tree.
proof fn lemma_laid_out_id(node: Node, bounds: Rect, metrics: LayoutMetrics)
    ensures
        forall|leaf: LeafGeometry|
            #![trigger node.placed(bounds, metrics).contains(leaf)]
            node.placed(bounds, metrics).contains(leaf) ==> node.leaves().contains(leaf.id),
        forall|bar: BarGeometry|
            #![trigger node.barred(bounds, metrics).contains(bar)]
            node.barred(bounds, metrics).contains(bar) ==> node.splits().contains(bar.id),
{
    law_geometry_follows_tree(node, bounds, metrics);
    let leaves = node.placed(bounds, metrics);
    let bars = node.barred(bounds, metrics);
    assert forall|leaf: LeafGeometry| #[trigger]
        leaves.contains(leaf) implies node.leaves().contains(leaf.id) by {
        let i = choose|i: int| 0 <= i < leaves.len() && leaves[i] == leaf;
        assert(node.leaves()[i] == leaf.id);
    }
    assert forall|bar: BarGeometry| #[trigger]
        bars.contains(bar) implies node.splits().contains(bar.id) by {
        let i = choose|i: int| 0 <= i < bars.len() && bars[i] == bar;
        assert(node.splits()[i] == bar.id);
    }
}

/// What a point hits is a pane or a divider of the tree.
pub proof fn law_hit_names_a_part(
    node: Node,
    bounds: Rect,
    metrics: LayoutMetrics,
    x: Single,
    y: Single,
)
    ensures
        match node.hit(bounds, metrics, x, y) {
            Some(Hit::Pane(id)) => node.leaves().contains(id),
            Some(Hit::Bar { id, .. }) => node.splits().contains(id),
            None => true,
        },
{
    lemma_laid_out_id(node, bounds, metrics);
    lemma_first_where_found(
        node.barred(bounds, metrics),
        |bar: BarGeometry| bar.rect.inflate(metrics.hit_slop).contains(x, y),
    );
    lemma_first_where_found(
        node.placed(bounds, metrics),
        |leaf: LeafGeometry| leaf.rect.contains(x, y),
    );
}

/// The neighbor of a pane is another pane of the tree.
pub proof fn law_neighbor_is_another_pane(
    node: Node,
    bounds: Rect,
    metrics: LayoutMetrics,
    current: LeafGeometry,
    direction: FocusDirection,
    id: PaneId,
)
    requires
        chosen_neighbor(node.placed(bounds, metrics), current, direction, Some(id)),
    ensures
        id != current.id,
        node.leaves().contains(id),
{
    let leaves = node.placed(bounds, metrics);
    let at = choose|at: int|
        #![trigger leaves[at]]
        nearest_neighbor(leaves, current, direction, at, leaves.len() as int) && leaves[at].id
            == id;
    law_geometry_follows_tree(node, bounds, metrics);
    assert(node.leaves()[at] == id);
}

impl Node {
    /// The ratio of a divider.
    pub open spec fn ratio_of(self, id: SplitId) -> Option<Single>
        decreases self,
    {
        match self {
            Node::Leaf(_) => None,
            Node::Split { id: own, ratio, first, second, .. } => if own == id {
                Some(ratio)
            } else {
                match first.ratio_of(id) {
                    Some(found) => Some(found),
                    None => second.ratio_of(id),
                }
            },
        }
    }
}

impl Node {
    /// The rectangle that a divider divides, and in which direction.
    pub open spec fn divided_by(
        self,
        id: SplitId,
        bounds: Rect,
        metrics: LayoutMetrics,
    ) -> Option<(Rect, Axis)>
        decreases self,
    {
        match self {
            Node::Leaf(_) => None,
            Node::Split { id: own, axis, ratio, first, second } => if own == id {
                Some((bounds, axis))
            } else {
                let parts = split_rect(bounds, axis, ratio, metrics);
                match first.divided_by(id, parts.0, metrics) {
                    Some(found) => Some(found),
                    None => second.divided_by(id, parts.2, metrics),
                }
            },
        }
    }
}

/// A divider that the tree does not have divides nothing.
pub proof fn lemma_divides_nothing(node: Node, id: SplitId, bounds: Rect, metrics: LayoutMetrics)
    requires
        !node.splits().contains(id),
    ensures
        node.divided_by(id, bounds, metrics) is None,
        node.ratio_of(id) is None,
    decreases node,
{
    if let Node::Split { id: own, axis, ratio, first, second } = node {
        let parts = split_rect(bounds, axis, ratio, metrics);
        lemma_own_divider(*first, own, *second, id);
        lemma_divides_nothing(*first, id, parts.0, metrics);
        lemma_divides_nothing(*second, id, parts.2, metrics);
    }
}

/// The dividers of a split are its own and those of its parts.
pub proof fn lemma_own_divider(first: Node, own: SplitId, second: Node, id: SplitId)
    ensures
        (first.splits().push(own) + second.splits()).contains(id) <==> first.splits().contains(id)
            || own == id || second.splits().contains(id),
{
    let (c, d) = (first.splits(), second.splits());
    assert(c.push(own) =~= c + seq![own]);
    lemma_contains_either(c + seq![own], d, id);
    lemma_contains_either(c, seq![own], id);
    assert(seq![own][0] == own);
}

/// A divider that a drag moves takes the ratio of the pointer in the rectangle that it divides.
pub proof fn law_drag_takes_pointed_ratio(
    node: Node,
    id: SplitId,
    bounds: Rect,
    metrics: LayoutMetrics,
    x: Single,
    y: Single,
)
    requires
        node.splits().no_duplicates(),
        node.dragged(id, bounds, metrics, x, y).1,
    ensures
        node.divided_by(id, bounds, metrics) matches Some((rect, axis)) && node.dragged(
            id,
            bounds,
            metrics,
            x,
            y,
        ).0.ratio_of(id) == Some(ratio_from_pointer(rect, axis, metrics, x, y)),
    decreases node,
{
    if let Node::Split { id: own, axis, ratio, first, second } = node {
        if own != id {
            let parts = split_rect(bounds, axis, ratio, metrics);
            let (c, d) = (first.splits(), second.splits());
            lemma_distinct_parts(c.push(own), d);
            assert(c.push(own) =~= c + seq![own]);
            lemma_distinct_parts(c, seq![own]);
            if first.dragged(id, parts.0, metrics, x, y).1 {
                law_drag_takes_pointed_ratio(*first, id, parts.0, metrics, x, y);
            } else {
                law_drag_takes_pointed_ratio(*second, id, parts.2, metrics, x, y);
                if !d.contains(id) {
                    lemma_drag_absent(*second, id, parts.2, metrics, x, y);
                }
                lemma_contains_either(c, seq![own], id);
                assert(!c.contains(id));
                lemma_divides_nothing(*first, id, parts.0, metrics);
            }
        }
    }
}

/// A drag moves no divider but its own.
pub proof fn law_drag_moves_one_divider(
    node: Node,
    id: SplitId,
    bounds: Rect,
    metrics: LayoutMetrics,
    x: Single,
    y: Single,
    other: SplitId,
)
    requires
        other != id,
    ensures
        node.dragged(id, bounds, metrics, x, y).0.ratio_of(other) == node.ratio_of(other),
    decreases node,
{
    if let Node::Split { axis, ratio, first, second, .. } = node {
        let parts = split_rect(bounds, axis, ratio, metrics);
        law_drag_moves_one_divider(*first, id, parts.0, metrics, x, y, other);
        law_drag_moves_one_divider(*second, id, parts.2, metrics, x, y, other);
    }
}

/// A drag reports a change exactly where the tree changes.
pub proof fn law_drag_reports_change(
    node: Node,
    id: SplitId,
    bounds: Rect,
    metrics: LayoutMetrics,
    x: Single,
    y: Single,
)
    ensures
        node.dragged(id, bounds, metrics, x, y).1 <==> node.dragged(id, bounds, metrics, x, y).0
            != node,
    decreases node,
{
    if let Node::Split { axis, ratio, first, second, .. } = node {
        let parts = split_rect(bounds, axis, ratio, metrics);
        let pointed = ratio_from_pointer(bounds, axis, metrics, x, y);
        if ratio_differs(ratio, pointed) {
            lemma_ratio_differs(ratio, pointed);
        }
        law_drag_reports_change(*first, id, parts.0, metrics, x, y);
        law_drag_reports_change(*second, id, parts.2, metrics, x, y);
    }
}

/// A divider that the tree does not have moves nothing.
pub proof fn lemma_drag_absent(
    node: Node,
    id: SplitId,
    bounds: Rect,
    metrics: LayoutMetrics,
    x: Single,
    y: Single,
)
    requires
        !node.splits().contains(id),
    ensures
        node.dragged(id, bounds, metrics, x, y) == (node, false),
    decreases node,
{
    if let Node::Split { id: own, axis, ratio, first, second } = node {
        let parts = split_rect(bounds, axis, ratio, metrics);
        lemma_own_divider(*first, own, *second, id);
        lemma_drag_absent(*first, id, parts.0, metrics, x, y);
        lemma_drag_absent(*second, id, parts.2, metrics, x, y);
    }
}

/// A ratio does not differ from itself.
pub proof fn lemma_ratio_settled(ratio: Single)
    ensures
        !ratio_differs(ratio, ratio),
{
    reveal(Single::spec_plus);
    if ratio.finite() {
        lemma_order(ratio, ratio);
    }
}

/// A second drag to the same pointer changes nothing.
pub proof fn law_drag_settles(
    node: Node,
    id: SplitId,
    bounds: Rect,
    metrics: LayoutMetrics,
    x: Single,
    y: Single,
)
    requires
        node.splits().no_duplicates(),
    ensures
        ({
            let after = node.dragged(id, bounds, metrics, x, y).0;
            after.dragged(id, bounds, metrics, x, y) == (after, false)
        }),
    decreases node,
{
    if let Node::Split { id: own, axis, ratio, first, second } = node {
        let parts = split_rect(bounds, axis, ratio, metrics);
        let (c, d) = (first.splits(), second.splits());
        lemma_distinct_parts(c.push(own), d);
        assert(c.push(own) =~= c + seq![own]);
        lemma_distinct_parts(c, seq![own]);
        law_drag_reports_change(*first, id, parts.0, metrics, x, y);
        law_drag_reports_change(*second, id, parts.2, metrics, x, y);
        if own == id {
            lemma_ratio_settled(ratio_from_pointer(bounds, axis, metrics, x, y));
        } else {
            law_drag_settles(*first, id, parts.0, metrics, x, y);
            law_drag_settles(*second, id, parts.2, metrics, x, y);
            if c.contains(id) {
                lemma_contains_either(c, seq![own], id);
                lemma_drag_absent(*second, id, parts.2, metrics, x, y);
            } else {
                lemma_drag_absent(*first, id, parts.0, metrics, x, y);
            }
        }
    }
}

} // verus!
