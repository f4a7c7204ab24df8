//! What the flattening walk reaches: every container that holds a message
//! and lies below one of the roots enters the display order.

use crate::arena::{in_list, lemma_child_in_list};
use crate::container::Container;
use crate::flatten::{child_indentation, visit, walk, walk_list, walk_roots, Walk};
use crate::forest::{forest_wf, is_ancestor_or_self, lemma_ranking, ranking_of};
use crate::harvest::{
    count_of, law_sorted_keeps_entries, roots_among, shown_root, sorted_by_date,
};
use vstd::prelude::*;

verus! {

/// Every entry of `before` is an entry of `after`.
pub open spec fn extends(before: Seq<usize>, after: Seq<usize>) -> bool {
    forall|x: usize| #[trigger] before.contains(x) ==> after.contains(x)
}

/// A stop at a container drops nothing from the order, and adds the
/// container where it holds a message.
pub proof fn lemma_visit_keeps(
    shape: Seq<Container>,
    subjects: Seq<Seq<char>>,
    w: Walk,
    node: int,
    indentation: usize,
)
    requires
        0 <= node < shape.len(),
        shape.len() <= usize::MAX,
    ensures
        extends(w.order, visit(shape, subjects, w, node, indentation).order),
        shape[node].message is Some ==> visit(
            shape,
            subjects,
            w,
            node,
            indentation,
        ).order.contains(node as usize),
{
    let after = visit(shape, subjects, w, node, indentation).order;
    if shape[node].message is Some && !w.order.contains(node as usize) {
        assert(after == w.order.push(node as usize));
        assert(after[w.order.len() as int] == node as usize);
        assert forall|x: usize| #[trigger] w.order.contains(x) implies after.contains(x) by {
            let i = choose|i: int| 0 <= i < w.order.len() && w.order[i] == x;
            assert(after[i] == x);
        }
    }
}

/// A walk drops nothing from the order.
pub proof fn lemma_walk_keeps(
    shape: Seq<Container>,
    subjects: Seq<Seq<char>>,
    w: Walk,
    node: int,
    indentation: usize,
)
    requires
        forest_wf(shape),
        0 <= node < shape.len(),
        shape.len() <= usize::MAX,
    ensures
        extends(w.order, walk(shape, subjects, w, node, indentation).order),
        shape[node].message is Some ==> walk(shape, subjects, w, node, indentation).order.contains(
            node as usize,
        ),
    decreases ranking_of(shape).height[node], 1nat,
{
    lemma_ranking(shape);
    assert(shape[node].id == node);
    lemma_visit_keeps(shape, subjects, w, node, indentation);
    let seen = visit(shape, subjects, w, node, indentation);
    if shape[node].first_child is Some {
        let first = shape[node].first_child->0 as int;
        assert(shape[first].id == first);
        lemma_walk_list_keeps(
            shape,
            subjects,
            seen,
            first,
            child_indentation(shape, node, indentation),
        );
    }
}

/// A walk along a sibling list drops nothing from the order.
pub proof fn lemma_walk_list_keeps(
    shape: Seq<Container>,
    subjects: Seq<Seq<char>>,
    w: Walk,
    first: int,
    indentation: usize,
)
    requires
        forest_wf(shape),
        0 <= first < shape.len(),
        shape.len() <= usize::MAX,
    ensures
        extends(w.order, walk_list(shape, subjects, w, first, indentation).order),
    decreases ranking_of(shape).height[first], 2nat,
{
    lemma_ranking(shape);
    assert(shape[first].id == first);
    lemma_walk_keeps(shape, subjects, w, first, indentation);
    let done = walk(shape, subjects, w, first, indentation);
    if shape[first].next_sibling is Some {
        let next = shape[first].next_sibling->0 as int;
        assert(shape[next].id == next);
        lemma_walk_list_keeps(shape, subjects, done, next, indentation);
    }
}

/// The child of `above` through which the way from `below` up to `above`
/// leads.
pub open spec fn child_towards(shape: Seq<Container>, above: int, below: int) -> int
    decreases crate::forest::climb(shape, below),
    when forest_wf(shape) && 0 <= below < shape.len()
{
    if shape[below].parent is Some && shape[below].parent->0 != above {
        proof {
            let r = ranking_of(shape);
            let up = shape[below].parent->0 as int;
            assert(crate::forest::link_ok(shape, shape[below].parent));
            assert(shape[up].id == up);
            assert(r.height[below] < r.height[up] <= r.top);
        }
        child_towards(shape, above, shape[below].parent->0 as int)
    } else {
        below
    }
}

/// Below a container, every other container lies below one of its
/// children.
pub proof fn lemma_child_towards(shape: Seq<Container>, above: int, below: int)
    requires
        forest_wf(shape),
        0 <= below < shape.len(),
        above != below,
        is_ancestor_or_self(shape, above, below),
    ensures
        0 <= child_towards(shape, above, below) < shape.len(),
        shape[child_towards(shape, above, below)].parent == Some(above as usize),
        is_ancestor_or_self(shape, child_towards(shape, above, below), below),
    decreases crate::forest::climb(shape, below),
{
    lemma_ranking(shape);
    assert(shape[below].id == below);
    let up = shape[below].parent->0 as int;
    assert(shape[up].id == up);
    if up != above {
        lemma_child_towards(shape, above, up);
    }
}

/// A walk reaches every container below the one where it starts: each of
/// them that holds a message stands in the order afterwards.
pub proof fn lemma_walk_reaches(
    shape: Seq<Container>,
    subjects: Seq<Seq<char>>,
    w: Walk,
    node: int,
    indentation: usize,
    below: int,
)
    requires
        forest_wf(shape),
        0 <= node < shape.len(),
        0 <= below < shape.len(),
        shape.len() <= usize::MAX,
        is_ancestor_or_self(shape, node, below),
        shape[below].message is Some,
    ensures
        walk(shape, subjects, w, node, indentation).order.contains(below as usize),
    decreases ranking_of(shape).height[node], 1nat,
{
    lemma_ranking(shape);
    assert(shape[node].id == node);
    if below == node {
        lemma_walk_keeps(shape, subjects, w, node, indentation);
    } else {
        lemma_child_towards(shape, node, below);
        let child = child_towards(shape, node, below);
        lemma_child_in_list(shape, child);
        let first = shape[node].first_child->0 as int;
        assert(shape[first].id == first);
        let seen = visit(shape, subjects, w, node, indentation);
        lemma_walk_list_reaches(
            shape,
            subjects,
            seen,
            first,
            child_indentation(shape, node, indentation),
            child,
            below,
        );
    }
}

/// A walk along a sibling list reaches every container below each member
/// of the list.
pub proof fn lemma_walk_list_reaches(
    shape: Seq<Container>,
    subjects: Seq<Seq<char>>,
    w: Walk,
    first: int,
    indentation: usize,
    member: int,
    below: int,
)
    requires
        forest_wf(shape),
        0 <= first < shape.len(),
        0 <= member < shape.len(),
        0 <= below < shape.len(),
        shape.len() <= usize::MAX,
        in_list(shape, first, member),
        is_ancestor_or_self(shape, member, below),
        shape[below].message is Some,
    ensures
        walk_list(shape, subjects, w, first, indentation).order.contains(below as usize),
    decreases ranking_of(shape).height[first], 2nat,
{
    lemma_ranking(shape);
    assert(shape[first].id == first);
    let done = walk(shape, subjects, w, first, indentation);
    if first == member {
        lemma_walk_reaches(shape, subjects, w, first, indentation, below);
        if shape[first].next_sibling is Some {
            let next = shape[first].next_sibling->0 as int;
            assert(shape[next].id == next);
            lemma_walk_list_keeps(shape, subjects, done, next, indentation);
        }
    } else {
        let next = shape[first].next_sibling->0 as int;
        assert(shape[next].id == next);
        lemma_walk_list_reaches(shape, subjects, done, next, indentation, member, below);
    }
}

/// Whether some entry of the list is `below` or has it below itself.
pub open spec fn covered(shape: Seq<Container>, roots: Seq<usize>, count: int, below: int) -> bool {
    exists|k: int| 0 <= k < count && is_ancestor_or_self(shape, #[trigger] roots[k] as int, below)
}

/// The walk from the roots reaches every container below one of them.
pub proof fn lemma_walk_roots_reaches(
    shape: Seq<Container>,
    subjects: Seq<Seq<char>>,
    w: Walk,
    roots: Seq<usize>,
    count: nat,
    below: int,
)
    requires
        forest_wf(shape),
        shape.len() <= usize::MAX,
        count <= roots.len(),
        forall|k: int| 0 <= k < roots.len() ==> (#[trigger] roots[k]) < shape.len(),
        0 <= below < shape.len(),
        shape[below].message is Some,
        covered(shape, roots, count as int, below),
    ensures
        walk_roots(shape, subjects, w, roots, count).order.contains(below as usize),
    decreases count,
{
    let k = choose|k: int| 0 <= k < count && is_ancestor_or_self(shape, #[trigger] roots[k] as int, below);
    let so_far = walk_roots(shape, subjects, w, roots, (count - 1) as nat);
    let start = Walk { subject: None, ..so_far };
    let last = roots[count - 1] as int;
    assert(roots[count - 1] < shape.len());
    if k == count - 1 {
        lemma_walk_reaches(shape, subjects, start, last, 0, below);
    } else {
        assert(is_ancestor_or_self(shape, roots[k] as int, below));
        lemma_walk_roots_reaches(shape, subjects, w, roots, (count - 1) as nat, below);
        lemma_walk_keeps(shape, subjects, start, last, 0);
    }
}

/// The root of the tree that `node` stands in.
pub open spec fn top_of(shape: Seq<Container>, node: int) -> int
    decreases crate::forest::climb(shape, node),
    when forest_wf(shape) && 0 <= node < shape.len()
{
    if shape[node].parent is Some {
        proof {
            let r = ranking_of(shape);
            let up = shape[node].parent->0 as int;
            assert(crate::forest::link_ok(shape, shape[node].parent));
            assert(shape[up].id == up);
            assert(r.height[node] < r.height[up] <= r.top);
        }
        top_of(shape, shape[node].parent->0 as int)
    } else {
        node
    }
}

/// Every container stands below a container without parent.
pub proof fn lemma_top_of(shape: Seq<Container>, node: int)
    requires
        forest_wf(shape),
        0 <= node < shape.len(),
    ensures
        0 <= top_of(shape, node) < shape.len(),
        shape[top_of(shape, node)].parent is None,
        is_ancestor_or_self(shape, top_of(shape, node), node),
    decreases crate::forest::climb(shape, node),
{
    lemma_ranking(shape);
    assert(shape[node].id == node);
    if shape[node].parent is Some {
        let up = shape[node].parent->0 as int;
        assert(shape[up].id == up);
        lemma_top_of(shape, up);
    }
}

/// The roots that are gathered hold, for every container without parent,
/// the container that is shown for it.
pub proof fn lemma_roots_listed(shape: Seq<Container>, count: nat, root: int)
    requires
        0 <= root < count <= shape.len(),
        shape[root].parent is None,
    ensures
        roots_among(shape, count).contains(shown_root(shape, root)),
    decreases count,
{
    let listed = roots_among(shape, count);
    let before = roots_among(shape, (count - 1) as nat);
    if root == count - 1 {
        assert(listed == before.push(shown_root(shape, root)));
        assert(listed[before.len() as int] == shown_root(shape, root));
    } else {
        lemma_roots_listed(shape, (count - 1) as nat, root);
        let i = choose|i: int| 0 <= i < before.len() && before[i] == shown_root(shape, root);
        if shape[count - 1].parent is None {
            assert(listed == before.push(shown_root(shape, count - 1)));
            assert(listed[i] == shown_root(shape, root));
        }
    }
}

/// The container that is shown for a root has below it every container
/// below the root that holds a message.
pub proof fn lemma_shown_root_covers(shape: Seq<Container>, root: int, below: int)
    requires
        forest_wf(shape),
        0 <= root < shape.len(),
        0 <= below < shape.len(),
        is_ancestor_or_self(shape, root, below),
        shape[below].message is Some,
    ensures
        shown_root(shape, root) < shape.len(),
        is_ancestor_or_self(shape, shown_root(shape, root) as int, below),
{
    lemma_ranking(shape);
    assert(shape[root].id == root);
    if shown_root(shape, root) != root {
        let only = shape[root].first_child->0 as int;
        assert(shape[only].id == only);
        lemma_child_towards(shape, root, below);
        let child = child_towards(shape, root, below);
        lemma_child_in_list(shape, child);
        assert(in_list(shape, only, child));
        assert(child == only);
    }
}

/// A list holds an entry where it holds it at least once.
pub proof fn lemma_count_contains(list: Seq<usize>, node: usize)
    ensures
        (count_of(list, node) > 0) == list.contains(node),
    decreases list.len(),
{
    if list.len() > 0 {
        let rest = list.drop_last();
        lemma_count_contains(rest, node);
        if list.last() == node {
            assert(list[list.len() - 1] == node);
        } else if rest.contains(node) {
            let i = choose|i: int| 0 <= i < rest.len() && rest[i] == node;
            assert(list[i] == node);
        } else if list.contains(node) {
            let i = choose|i: int| 0 <= i < list.len() && list[i] == node;
            assert(rest[i] == node);
        }
    }
}

/// The roots of an arena, gathered and ordered, cover every container
/// that holds a message.
pub proof fn lemma_roots_cover(shape: Seq<Container>, below: int)
    requires
        forest_wf(shape),
        0 <= below < shape.len(),
        shape.len() <= usize::MAX,
        shape[below].message is Some,
    ensures
        covered(
            shape,
            sorted_by_date(shape, roots_among(shape, shape.len())),
            sorted_by_date(shape, roots_among(shape, shape.len())).len() as int,
            below,
        ),
{
    let gathered = roots_among(shape, shape.len());
    let ordered = sorted_by_date(shape, gathered);
    lemma_top_of(shape, below);
    let top = top_of(shape, below);
    lemma_roots_listed(shape, shape.len(), top);
    lemma_shown_root_covers(shape, top, below);
    let shown = shown_root(shape, top);
    lemma_count_contains(gathered, shown);
    law_sorted_keeps_entries(shape, gathered, shown);
    lemma_count_contains(ordered, shown);
    let k = choose|k: int| 0 <= k < ordered.len() && ordered[k] == shown;
    assert(is_ancestor_or_self(shape, ordered[k] as int, below));
}

} // verus!
