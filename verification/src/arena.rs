//! The operations on the container arena: the reachability test, linking a
//! child under a parent, and raising dates towards the root.

use crate::container::Container;
use crate::container::UnixTimestamp;
use crate::forest::{
    children_are_listed, children_know_parent, climb, first_has_no_previous, forest_wf,
    has_previous, is_first_child, link_ok, links_in_range, next_is_unique, one_way_in,
    previous_sibling, is_ancestor_or_self, lemma_ranking, lemma_same_shape_wf, ranked, ranking_of,
    keeps_children, same_messages, same_shape, Ranking,
};
use vstd::prelude::*;

verus! {

/// The later of two dates.
pub open spec fn later(a: UnixTimestamp, b: UnixTimestamp) -> UnixTimestamp {
    if a < b {
        b
    } else {
        a
    }
}

/// The container `c` with its date raised to at least `date`.
pub open spec fn with_date_raised(c: Container, date: UnixTimestamp) -> Container {
    Container { date: later(c.date, date), ..c }
}

/// The arena after `date` has been carried from `from` up to its root:
/// `from` and each of its ancestors has its date raised to at least `date`,
/// and nothing else changes.
pub open spec fn raise_dates(arena: Seq<Container>, from: int, date: UnixTimestamp) -> Seq<
    Container,
> {
    Seq::new(
        arena.len(),
        |i: int|
            if is_ancestor_or_self(arena, i, from) {
                with_date_raised(arena[i], date)
            } else {
                arena[i]
            },
    )
}

/// The arena while the date is on its way up: the nodes from `from` up to,
/// but not including, `at` have been raised.
pub open spec fn raise_dates_below(
    arena: Seq<Container>,
    from: int,
    at: int,
    date: UnixTimestamp,
) -> Seq<Container> {
    Seq::new(
        arena.len(),
        |i: int|
            if is_ancestor_or_self(arena, i, from) && !is_ancestor_or_self(arena, i, at) {
                with_date_raised(arena[i], date)
            } else {
                arena[i]
            },
    )
}

impl Container {
    /// Whether `other` is this container or lies below it in the forest.
    pub fn is_descendant(&self, threads: &Vec<Container>, other: &Container) -> (r: bool)
        requires
            forest_wf(threads@),
            other.id < threads.len(),
        ensures
            r == is_ancestor_or_self(threads@, self.id as int, other.id as int),
    {
        let mut cur: usize = other.id;
        loop
            invariant
                forest_wf(threads@),
                cur < threads.len(),
                is_ancestor_or_self(threads@, self.id as int, other.id as int)
                    == is_ancestor_or_self(threads@, self.id as int, cur as int),
            decreases climb(threads@, cur as int),
        {
            if cur == self.id {
                return true;
            }
            match threads[cur].parent {
                Some(up) => {
                    proof {
                        lemma_ranking(threads@);
                        assert(threads@[cur as int].id == cur);
                        assert(threads@[up as int].id == up);
                    }
                    cur = up;
                },
                None => {
                    return false;
                },
            }
        }
    }
}

/// Walks from `from` through the parent links to the root and raises the
/// date of every container on the way to at least `date`.
pub fn propagate_date(threads: &mut Vec<Container>, from: usize, date: UnixTimestamp)
    requires
        forest_wf(old(threads)@),
        from < old(threads).len(),
    ensures
        final(threads)@ == raise_dates(old(threads)@, from as int, date),
        forest_wf(final(threads)@),
        same_shape(old(threads)@, final(threads)@),
        same_messages(old(threads)@, final(threads)@),
        keeps_children(old(threads)@, final(threads)@),
{
    let ghost before = threads@;
    let mut cur: usize = from;
    assert(threads@ =~= raise_dates_below(before, from as int, from as int, date));
    loop
        invariant_except_break
            threads@ == raise_dates_below(before, from as int, cur as int, date),
        invariant
            forest_wf(before),
            from < before.len(),
            cur < before.len(),
            is_ancestor_or_self(before, cur as int, from as int),
        ensures
            threads@ == raise_dates(before, from as int, date),
        decreases climb(before, cur as int),
    {
        let mut node = threads[cur];
        proof {
            lemma_ranking(before);
            assert(before[cur as int].id == cur);
            assert(is_ancestor_or_self(before, cur as int, cur as int));
            assert(node == before[cur as int]);
        }
        if node.date < date {
            node.date = date;
        }
        threads.set(cur, node);
        match node.parent {
            Some(up) => {
                proof {
                    assert(before[up as int].id == up);
                    lemma_ancestor_step(before, cur as int, from as int);
                    if is_ancestor_or_self(before, cur as int, up as int) {
                        lemma_ancestor_height(before, cur as int, up as int);
                    }
                    assert forall|i: int| 0 <= i < before.len() implies #[trigger] threads@[i]
                        == raise_dates_below(before, from as int, up as int, date)[i] by {
                        lemma_above(before, i, cur as int);
                    }
                    assert(threads@ =~= raise_dates_below(before, from as int, up as int, date));
                }
                cur = up;
            },
            None => {
                proof {
                    assert forall|i: int| 0 <= i < before.len() implies #[trigger] threads@[i]
                        == raise_dates(before, from as int, date)[i] by {
                        lemma_above(before, i, cur as int);
                    }
                    assert(threads@ =~= raise_dates(before, from as int, date));
                }
                break;
            },
        }
    }
    proof {
        lemma_raise_dates_wf(before, from as int, date);
    }
}

/// The ancestors of a node are the node and the ancestors of its parent.
pub proof fn lemma_above(arena: Seq<Container>, target: int, node: int)
    requires
        forest_wf(arena),
        0 <= node < arena.len(),
    ensures
        is_ancestor_or_self(arena, target, node) == (target == node || (arena[node].parent is Some
            && is_ancestor_or_self(arena, target, arena[node].parent->0 as int))),
{
}

/// An ancestor is at least as high in the arena's ranking as the node.
pub proof fn lemma_ancestor_height(arena: Seq<Container>, target: int, node: int)
    requires
        forest_wf(arena),
        0 <= node < arena.len(),
        is_ancestor_or_self(arena, target, node),
    ensures
        0 <= target < arena.len(),
        ranking_of(arena).height[target] >= ranking_of(arena).height[node],
    decreases climb(arena, node),
{
    lemma_ranking(arena);
    assert(arena[node].id == node);
    if node != target {
        let up = arena[node].parent->0 as int;
        assert(arena[up].id == up);
        lemma_ancestor_height(arena, target, up);
    }
}

/// The parent of an ancestor of `node` is an ancestor of `node` too.
pub proof fn lemma_ancestor_step(arena: Seq<Container>, target: int, node: int)
    requires
        forest_wf(arena),
        0 <= node < arena.len(),
        0 <= target < arena.len(),
        is_ancestor_or_self(arena, target, node),
        arena[target].parent is Some,
    ensures
        is_ancestor_or_self(arena, arena[target].parent->0 as int, node),
    decreases climb(arena, node),
{
    lemma_ranking(arena);
    assert(arena[node].id == node);
    assert(arena[target].id == target);
    let up_t = arena[target].parent->0 as int;
    if node == target {
        assert(arena[up_t].id == up_t);
        assert(is_ancestor_or_self(arena, up_t, up_t));
    } else {
        let up = arena[node].parent->0 as int;
        assert(arena[up].id == up);
        lemma_ancestor_step(arena, target, up);
    }
}

/// Raising dates leaves the forest well formed.
pub proof fn lemma_raise_dates_wf(arena: Seq<Container>, from: int, date: UnixTimestamp)
    requires
        forest_wf(arena),
    ensures
        forest_wf(raise_dates(arena, from, date)),
        same_shape(arena, raise_dates(arena, from, date)),
{
    lemma_same_shape_wf(arena, raise_dates(arena, from, date));
}

/// The last node of the sibling list that `node` is in.
pub open spec fn last_sibling(arena: Seq<Container>, node: int) -> int
    decreases ranking_of(arena).height[node],
    when forest_wf(arena) && 0 <= node < arena.len()
{
    if arena[node].next_sibling is Some {
        proof {
            lemma_ranking(arena);
            assert(arena[node].id == node);
        }
        last_sibling(arena, arena[node].next_sibling->0 as int)
    } else {
        node
    }
}

/// The last sibling ends the list and has the same parent as every node of it.
pub proof fn lemma_last_sibling(arena: Seq<Container>, node: int)
    requires
        forest_wf(arena),
        0 <= node < arena.len(),
    ensures
        0 <= last_sibling(arena, node) < arena.len(),
        arena[last_sibling(arena, node)].next_sibling is None,
        arena[last_sibling(arena, node)].parent == arena[node].parent,
    decreases ranking_of(arena).height[node],
{
    lemma_ranking(arena);
    assert(arena[node].id == node);
    if arena[node].next_sibling is Some {
        let next = arena[node].next_sibling->0 as int;
        assert(arena[next].id == next);
        lemma_last_sibling(arena, next);
    }
}

/// The arena after the root `child` has been put at the end of the child
/// list of `parent`.
pub open spec fn attach(arena: Seq<Container>, child: int, parent: int) -> Seq<Container> {
    let bound = arena.update(child, Container { parent: Some(parent as usize), ..arena[child] });
    if arena[parent].first_child is Some {
        let last = last_sibling(arena, arena[parent].first_child->0 as int);
        bound.update(last, Container { next_sibling: Some(child as usize), ..bound[last] })
    } else {
        bound.update(parent, Container { first_child: Some(child as usize), ..bound[parent] })
    }
}

/// Whether `node` stands in the sibling list from `start` on.
pub open spec fn in_list(arena: Seq<Container>, start: int, node: int) -> bool
    decreases ranking_of(arena).height[start],
    when forest_wf(arena) && 0 <= start < arena.len()
{
    if start == node {
        true
    } else if arena[start].next_sibling is Some {
        proof {
            lemma_ranking(arena);
            assert(arena[start].id == start);
        }
        in_list(arena, arena[start].next_sibling->0 as int, node)
    } else {
        false
    }
}

/// A list that holds a container holds its next sibling too.
pub proof fn lemma_in_list_next(arena: Seq<Container>, start: int, node: int)
    requires
        forest_wf(arena),
        0 <= start < arena.len(),
        0 <= node < arena.len(),
        in_list(arena, start, node),
        arena[node].next_sibling is Some,
    ensures
        in_list(arena, start, arena[node].next_sibling->0 as int),
    decreases ranking_of(arena).height[start],
{
    lemma_ranking(arena);
    assert(arena[start].id == start);
    assert(arena[node].id == node);
    let next = arena[node].next_sibling->0 as int;
    assert(arena[next].id == next);
    if start == node {
        assert(in_list(arena, next, next));
    } else {
        let after = arena[start].next_sibling->0 as int;
        assert(arena[after].id == after);
        lemma_in_list_next(arena, after, node);
    }
}

/// Every container that has a parent stands in the child list of it.
pub proof fn lemma_child_in_list(arena: Seq<Container>, node: int)
    requires
        forest_wf(arena),
        0 <= node < arena.len(),
        arena[node].parent is Some,
    ensures
        arena[arena[node].parent->0 as int].first_child is Some,
        in_list(arena, arena[arena[node].parent->0 as int].first_child->0 as int, node),
    decreases climb(arena, node),
{
    reveal(one_way_in);
    lemma_ranking(arena);
    assert(arena[node].id == node);
    let up = arena[node].parent->0 as int;
    assert(arena[up].id == up);
    if is_first_child(arena, node) {
        assert(in_list(arena, node, node));
    } else {
        let before = previous_sibling(arena, node);
        assert(arena[before].id == before);
        assert(arena[before].parent == arena[node].parent);
        lemma_child_in_list(arena, before);
        let first = arena[up].first_child->0 as int;
        assert(arena[first].id == first);
        lemma_in_list_next(arena, first, before);
    }
}

/// The arena after `child` has been taken out of the child list of its
/// parent and made a root. A root stays as it is.
pub open spec fn detach(arena: Seq<Container>, child: int) -> Seq<Container> {
    if arena[child].parent is None {
        arena
    } else {
        let up = arena[child].parent->0 as int;
        let freed = Container { parent: None, next_sibling: None, ..arena[child] };
        if arena[up].first_child == Some(child as usize) {
            arena.update(
                up,
                Container { first_child: arena[child].next_sibling, ..arena[up] },
            ).update(child, freed)
        } else {
            let before = previous_sibling(arena, child);
            arena.update(
                before,
                Container { next_sibling: arena[child].next_sibling, ..arena[before] },
            ).update(child, freed)
        }
    }
}

/// The container whose link leads to `child`: its parent where it is the
/// first child, and the sibling before it where it is not.
pub open spec fn way_in(arena: Seq<Container>, child: int) -> int {
    if is_first_child(arena, child) {
        arena[child].parent->0 as int
    } else {
        previous_sibling(arena, child)
    }
}

/// One link and no other leads to a container that has a parent.
pub proof fn lemma_only_way_in(arena: Seq<Container>, child: int)
    requires
        forest_wf(arena),
        0 <= child < arena.len(),
        arena[child].parent is Some,
    ensures
        0 <= way_in(arena, child) < arena.len(),
        way_in(arena, child) != child,
        !is_first_child(arena, child) ==> arena[way_in(arena, child)].next_sibling == Some(
            child as usize,
        ) && arena[way_in(arena, child)].parent == arena[child].parent,
        forall|x: int|
            0 <= x < arena.len() && (#[trigger] arena[x]).next_sibling == Some(child as usize)
                ==> !is_first_child(arena, child) && x == way_in(arena, child),
        forall|p: int|
            0 <= p < arena.len() && (#[trigger] arena[p]).first_child == Some(child as usize)
                ==> is_first_child(arena, child) && p == way_in(arena, child),
{
    reveal(one_way_in);
    lemma_ranking(arena);
    assert(arena[child].id == child);
    let up = arena[child].parent->0 as int;
    assert(arena[up].id == up);
    let through = way_in(arena, child);
    if !is_first_child(arena, child) {
        assert(arena[through].id == through);
    }
    assert forall|x: int|
        0 <= x < arena.len() && (#[trigger] arena[x]).next_sibling == Some(
            child as usize,
        ) implies !is_first_child(arena, child) && x == through by {
        assert(arena[x].id == x);
        if is_first_child(arena, child) {
            assert(arena[x].next_sibling != arena[up].first_child);
        } else {
            assert(arena[x].next_sibling == arena[through].next_sibling);
        }
    }
    assert forall|p: int|
        0 <= p < arena.len() && (#[trigger] arena[p]).first_child == Some(
            child as usize,
        ) implies is_first_child(arena, child) && p == through by {
        assert(arena[p].id == p);
    }
}

/// Taking a container out of its child list leaves every link in the
/// arena, the child lists in agreement with the parent links, and the
/// ranking as it was.
pub proof fn lemma_detach_links(arena: Seq<Container>, child: int)
    requires
        forest_wf(arena),
        0 <= child < arena.len(),
        arena[child].parent is Some,
    ensures
        links_in_range(detach(arena, child)),
        children_know_parent(detach(arena, child)),
        ranked(detach(arena, child), ranking_of(arena)),
{
    let after = detach(arena, child);
    let r = ranking_of(arena);
    lemma_ranking(arena);
    lemma_only_way_in(arena, child);
    assert(arena[child].id == child);
    let up = arena[child].parent->0 as int;
    assert(arena[up].id == up);
    let through = way_in(arena, child);
    assert(arena[through].id == through);
    let next = arena[child].next_sibling;
    if next is Some {
        assert(arena[next->0 as int].id == next->0);
    }
    assert forall|i: int| 0 <= i < after.len() implies {
        &&& (#[trigger] after[i]).id == i
        &&& link_ok(after, after[i].parent)
        &&& link_ok(after, after[i].first_child)
        &&& link_ok(after, after[i].next_sibling)
    } by {
        assert(arena[i].id == i);
    }
    assert forall|i: int| 0 <= i < after.len() implies {
        &&& (#[trigger] after[i]).first_child is Some ==> after[after[i].first_child->0 as int].parent
            == Some(i as usize)
        &&& after[i].next_sibling is Some ==> {
            &&& after[i].parent is Some
            &&& after[after[i].next_sibling->0 as int].parent == after[i].parent
        }
    } by {
        assert(arena[i].id == i);
        if arena[i].first_child is Some {
            let c = arena[i].first_child->0 as int;
            assert(arena[c].id == c);
        }
        if arena[i].next_sibling is Some {
            let y = arena[i].next_sibling->0 as int;
            assert(arena[y].id == y);
        }
    }
    assert forall|i: int| 0 <= i < after.len() implies {
        &&& r.height[i] <= r.top
        &&& (#[trigger] after[i]).parent is Some ==> r.height[after[i].parent->0 as int] > r.height[i]
        &&& after[i].next_sibling is Some ==> r.height[i] > r.height[after[i].next_sibling->0 as int]
    } by {
        assert(arena[i].id == i);
    }
}

/// After a container has been taken out, still no container is the next
/// sibling of two others.
pub proof fn lemma_detach_next_unique(arena: Seq<Container>, child: int)
    requires
        forest_wf(arena),
        0 <= child < arena.len(),
        arena[child].parent is Some,
    ensures
        next_is_unique(detach(arena, child)),
{
    let after = detach(arena, child);
    lemma_only_way_in(arena, child);
    let through = way_in(arena, child);
    let first = is_first_child(arena, child);
    assert(arena[child].id == child);
    assert forall|x: int, y: int|
        0 <= x < after.len() && 0 <= y < after.len() && (#[trigger] after[x]).next_sibling is Some
            && after[x].next_sibling == (#[trigger] after[y]).next_sibling implies x == y by {
        reveal(one_way_in);
        assert(arena[x].id == x);
        assert(arena[y].id == y);
        if x != y {
            if !first && x == through {
                assert(arena[y].next_sibling == arena[child].next_sibling);
            } else if !first && y == through {
                assert(arena[x].next_sibling == arena[child].next_sibling);
            } else {
                assert(arena[x].next_sibling == arena[y].next_sibling);
            }
        }
    }
}

/// After a container has been taken out, still no first child is the next
/// sibling of another.
pub proof fn lemma_detach_first_no_previous(arena: Seq<Container>, child: int)
    requires
        forest_wf(arena),
        0 <= child < arena.len(),
        arena[child].parent is Some,
    ensures
        first_has_no_previous(detach(arena, child)),
{
    let after = detach(arena, child);
    lemma_only_way_in(arena, child);
    let through = way_in(arena, child);
    let first = is_first_child(arena, child);
    assert(arena[child].id == child);
    let up = arena[child].parent->0 as int;
    assert forall|p: int, x: int|
        0 <= p < after.len() && 0 <= x < after.len() && (#[trigger] after[p]).first_child is Some implies (#[trigger] after[x]).next_sibling
        != after[p].first_child by {
        reveal(one_way_in);
        assert(arena[x].id == x);
        assert(arena[p].id == p);
        if first && p == up {
            if x != child {
                assert(arena[x].next_sibling is Some && arena[x].next_sibling
                    == arena[child].next_sibling ==> x == child);
            }
        } else if !first && x == through {
            assert(arena[child].next_sibling != arena[p].first_child);
        } else {
            assert(arena[x].next_sibling != arena[p].first_child);
        }
    }
}

/// After a container has been taken out, every container that has a parent
/// still stands in the child list of it.
pub proof fn lemma_detach_listed(arena: Seq<Container>, child: int)
    requires
        forest_wf(arena),
        0 <= child < arena.len(),
        arena[child].parent is Some,
    ensures
        children_are_listed(detach(arena, child)),
{
    let after = detach(arena, child);
    lemma_only_way_in(arena, child);
    let through = way_in(arena, child);
    let first = is_first_child(arena, child);
    let next = arena[child].next_sibling;
    assert(arena[child].id == child);
    assert forall|c: int|
        0 <= c < after.len() && (#[trigger] after[c]).parent is Some implies is_first_child(after, c)
        || has_previous(after, c) by {
        reveal(one_way_in);
        assert(arena[c].id == c);
        let above = arena[c].parent->0 as int;
        assert(arena[above].id == above);
        if next == Some(c as usize) {
            if !first {
                assert(after[through].next_sibling == Some(c as usize));
            }
        } else if is_first_child(arena, c) {
            assert(after[above].first_child == arena[above].first_child);
        } else {
            let x = previous_sibling(arena, c);
            assert(arena[x].id == x);
            assert(x != child);
            assert(after[x].next_sibling == Some(c as usize));
        }
    }
}

/// Taking a container out of its child list keeps the forest well formed.
pub proof fn lemma_detach_wf(arena: Seq<Container>, child: int)
    requires
        forest_wf(arena),
        0 <= child < arena.len(),
    ensures
        forest_wf(detach(arena, child)),
        detach(arena, child).len() == arena.len(),
        detach(arena, child)[child].parent is None,
        same_messages(arena, detach(arena, child)),
        same_dates(arena, detach(arena, child)),
        forall|i: int|
            0 <= i < arena.len() && i != child ==> (#[trigger] detach(arena, child)[i]).parent
                == arena[i].parent,
{
    if arena[child].parent is Some {
        lemma_only_way_in(arena, child);
        lemma_detach_links(arena, child);
        lemma_detach_next_unique(arena, child);
        lemma_detach_first_no_previous(arena, child);
        lemma_detach_listed(arena, child);
        assert(one_way_in(detach(arena, child))) by {
            reveal(one_way_in);
        }
    }
}

/// Whoever is above a node once a container has been taken out of its
/// child list was above it before.
pub proof fn lemma_detach_ancestors(arena: Seq<Container>, child: int, target: int, node: int)
    requires
        forest_wf(arena),
        0 <= child < arena.len(),
        0 <= node < arena.len(),
        is_ancestor_or_self(detach(arena, child), target, node),
    ensures
        is_ancestor_or_self(arena, target, node),
    decreases climb(arena, node),
{
    lemma_detach_wf(arena, child);
    lemma_ranking(arena);
    let after = detach(arena, child);
    assert(arena[node].id == node);
    assert(after[node].id == node);
    if node != target {
        assert(after[node].parent is Some);
        assert(node != child);
        let up = arena[node].parent->0 as int;
        assert(arena[up].id == up);
        lemma_detach_ancestors(arena, child, target, up);
    }
}

/// The sibling list from `node` on.
pub open spec fn list_from(arena: Seq<Container>, node: int) -> Seq<int>
    decreases ranking_of(arena).height[node],
    when forest_wf(arena) && 0 <= node < arena.len()
{
    if arena[node].next_sibling is Some {
        proof {
            lemma_ranking(arena);
            assert(arena[node].id == node);
        }
        seq![node] + list_from(arena, arena[node].next_sibling->0 as int)
    } else {
        seq![node]
    }
}

/// The children of a container, in the order of its child list.
pub open spec fn children_of(arena: Seq<Container>, parent: int) -> Seq<int> {
    if arena[parent].first_child is Some {
        list_from(arena, arena[parent].first_child->0 as int)
    } else {
        Seq::empty()
    }
}

proof fn lemma_list_grows(arena: Seq<Container>, child: int, parent: int, node: int)
    requires
        forest_wf(arena),
        0 <= child < arena.len(),
        0 <= parent < arena.len(),
        0 <= node < arena.len(),
        arena[child].parent is None,
        !is_ancestor_or_self(arena, child, parent),
        arena[parent].first_child is Some,
        last_sibling(arena, node) == last_sibling(arena, arena[parent].first_child->0 as int),
    ensures
        list_from(attach(arena, child, parent), node) == list_from(arena, node).push(child),
    decreases ranking_of(arena).height[node],
{
    let after = attach(arena, child, parent);
    lemma_attach_wf(arena, child, parent);
    lemma_ranking(arena);
    assert(arena[child].id == child);
    assert(arena[parent].id == parent);
    assert(arena[node].id == node);
    let first = arena[parent].first_child->0 as int;
    assert(arena[first].id == first);
    lemma_last_sibling(arena, first);
    lemma_last_sibling(arena, node);
    let last = last_sibling(arena, first);
    assert(arena[child].next_sibling is None);
    assert(last != child);
    assert(node != child);
    if arena[node].next_sibling is Some {
        let next = arena[node].next_sibling->0 as int;
        assert(arena[next].id == next);
        assert(after[node].next_sibling == Some(next as usize));
        lemma_list_grows(arena, child, parent, next);
        assert(list_from(after, node) =~= list_from(arena, node).push(child));
    } else {
        assert(node == last);
        assert(after[node].next_sibling == Some(child as usize));
        assert(after[child].next_sibling is None);
        assert(list_from(after, child) =~= seq![child]);
        assert(list_from(after, node) =~= list_from(arena, node).push(child));
    }
}

/// Attaching puts the child behind the children that the parent has: the
/// child list of the parent is the one that it had, with the child at its
/// end.
pub proof fn law_attach_appends(arena: Seq<Container>, child: int, parent: int)
    requires
        forest_wf(arena),
        0 <= child < arena.len(),
        0 <= parent < arena.len(),
        arena[child].parent is None,
        !is_ancestor_or_self(arena, child, parent),
    ensures
        children_of(attach(arena, child, parent), parent) == children_of(arena, parent).push(child),
{
    let after = attach(arena, child, parent);
    lemma_attach_wf(arena, child, parent);
    assert(arena[child].id == child);
    assert(arena[parent].id == parent);
    assert(arena[child].next_sibling is None);
    if arena[parent].first_child is Some {
        let first = arena[parent].first_child->0 as int;
        assert(arena[first].id == first);
        lemma_last_sibling(arena, first);
        assert(after[parent].first_child == arena[parent].first_child);
        lemma_list_grows(arena, child, parent, first);
    } else {
        assert(after[parent].first_child == Some(child as usize));
        assert(after[child].next_sibling is None);
        assert(list_from(after, child) =~= seq![child]);
        assert(children_of(after, parent) =~= children_of(arena, parent).push(child));
    }
}

/// Linking puts the child at the end of the child list of the parent, in
/// the order in which children were linked.
pub proof fn law_link_appends(arena: Seq<Container>, child: int, parent: int)
    requires
        forest_wf(arena),
        0 <= child < arena.len(),
        0 <= parent < arena.len(),
        link_applies(arena, child, parent),
    ensures
        children_of(link_result(arena, child, parent), parent) == children_of(
            detach(arena, child),
            parent,
        ).push(child),
        link_result(arena, child, parent)[child].parent == Some(parent as usize),
{
    lemma_detach_wf(arena, child);
    if is_ancestor_or_self(detach(arena, child), child, parent) {
        lemma_detach_ancestors(arena, child, child, parent);
    }
    law_attach_appends(detach(arena, child), child, parent);
    let freed = detach(arena, child);
    assert(freed[child].id == child);
    assert(freed[parent].id == parent);
    if freed[parent].first_child is Some {
        let first = freed[parent].first_child->0 as int;
        assert(freed[first].id == first);
        lemma_last_sibling(freed, first);
    }
}

/// The list without the first place at which `node` stands.
pub open spec fn skipping(list: Seq<int>, node: int) -> Seq<int>
    decreases list.len(),
{
    if list.len() == 0 {
        list
    } else if list[0] == node {
        list.subrange(1, list.len() as int)
    } else {
        seq![list[0]] + skipping(list.subrange(1, list.len() as int), node)
    }
}

proof fn lemma_list_below_stays(arena: Seq<Container>, child: int, node: int)
    requires
        forest_wf(arena),
        0 <= child < arena.len(),
        0 <= node < arena.len(),
        arena[child].parent is Some,
        ranking_of(arena).height[node] < ranking_of(arena).height[child],
    ensures
        list_from(detach(arena, child), node) == list_from(arena, node),
    decreases ranking_of(arena).height[node],
{
    let after = detach(arena, child);
    lemma_detach_wf(arena, child);
    lemma_only_way_in(arena, child);
    lemma_ranking(arena);
    assert(arena[child].id == child);
    assert(arena[node].id == node);
    let up = arena[child].parent->0 as int;
    assert(arena[up].id == up);
    let through = way_in(arena, child);
    assert(arena[through].id == through);
    assert(node != child);
    assert(node != through);
    assert(after[node].next_sibling == arena[node].next_sibling);
    if arena[node].next_sibling is Some {
        let next = arena[node].next_sibling->0 as int;
        assert(arena[next].id == next);
        lemma_list_below_stays(arena, child, next);
    }
}

proof fn lemma_in_list_previous(arena: Seq<Container>, node: int, child: int)
    requires
        forest_wf(arena),
        0 <= node < arena.len(),
        node != child,
        in_list(arena, node, child),
    ensures
        has_previous(arena, child),
    decreases ranking_of(arena).height[node],
{
    lemma_ranking(arena);
    assert(arena[node].id == node);
    let next = arena[node].next_sibling->0 as int;
    assert(arena[next].id == next);
    if next == child {
        assert(arena[node].next_sibling == Some(child as usize));
    } else {
        lemma_in_list_previous(arena, next, child);
    }
}

proof fn lemma_list_shrinks(arena: Seq<Container>, child: int, node: int)
    requires
        forest_wf(arena),
        0 <= child < arena.len(),
        0 <= node < arena.len(),
        arena[child].parent is Some,
        node != child,
        in_list(arena, node, child),
    ensures
        list_from(detach(arena, child), node) == skipping(list_from(arena, node), child),
    decreases ranking_of(arena).height[node],
{
    let after = detach(arena, child);
    lemma_detach_wf(arena, child);
    lemma_only_way_in(arena, child);
    lemma_ranking(arena);
    assert(arena[child].id == child);
    assert(arena[node].id == node);
    let next = arena[node].next_sibling->0 as int;
    assert(arena[next].id == next);
    let before = list_from(arena, node);
    let rest = list_from(arena, next);
    assert(before =~= seq![node] + rest);
    assert(before.subrange(1, before.len() as int) =~= rest);
    if next == child {
        assert(node == way_in(arena, child));
        assert(after[node].next_sibling == arena[child].next_sibling);
        if arena[child].next_sibling is Some {
            let beyond = arena[child].next_sibling->0 as int;
            assert(arena[beyond].id == beyond);
            lemma_list_below_stays(arena, child, beyond);
            assert(rest =~= seq![child] + list_from(arena, beyond));
            assert(rest.subrange(1, rest.len() as int) =~= list_from(arena, beyond));
            assert(skipping(rest, child) =~= list_from(arena, beyond));
            assert(list_from(after, node) =~= seq![node] + list_from(arena, beyond));
        } else {
            assert(rest =~= seq![child]);
            assert(skipping(rest, child) =~= Seq::<int>::empty());
            assert(list_from(after, node) =~= seq![node]);
        }
        assert(skipping(before, child) =~= seq![node] + skipping(rest, child));
    } else {
        lemma_in_list_previous(arena, node, child);
        let other = previous_sibling(arena, child);
        assert(arena[other].next_sibling == Some(child as usize));
        assert(node != way_in(arena, child));
        assert(after[node].next_sibling == arena[node].next_sibling);
        lemma_list_shrinks(arena, child, next);
        assert(list_from(after, node) =~= seq![node] + list_from(after, next));
        assert(skipping(before, child) =~= seq![node] + skipping(rest, child));
    }
}

/// Taking a child out of its list leaves the other children of its parent
/// in their order.
pub proof fn law_detach_removes(arena: Seq<Container>, child: int)
    requires
        forest_wf(arena),
        0 <= child < arena.len(),
        arena[child].parent is Some,
    ensures
        children_of(detach(arena, child), arena[child].parent->0 as int) == skipping(
            children_of(arena, arena[child].parent->0 as int),
            child,
        ),
{
    let after = detach(arena, child);
    lemma_detach_wf(arena, child);
    lemma_only_way_in(arena, child);
    lemma_child_in_list(arena, child);
    lemma_ranking(arena);
    assert(arena[child].id == child);
    let up = arena[child].parent->0 as int;
    assert(arena[up].id == up);
    let first = arena[up].first_child->0 as int;
    assert(arena[first].id == first);
    if first == child {
        let before = list_from(arena, child);
        if arena[child].next_sibling is Some {
            let beyond = arena[child].next_sibling->0 as int;
            assert(arena[beyond].id == beyond);
            lemma_list_below_stays(arena, child, beyond);
            assert(before =~= seq![child] + list_from(arena, beyond));
            assert(before.subrange(1, before.len() as int) =~= list_from(arena, beyond));
            assert(after[up].first_child == Some(beyond as usize));
        } else {
            assert(before =~= seq![child]);
            assert(before.subrange(1, before.len() as int) =~= Seq::<int>::empty());
            assert(after[up].first_child is None);
        }
    } else {
        assert(up != way_in(arena, child));
        assert(after[up].first_child == arena[up].first_child);
        lemma_list_shrinks(arena, child, first);
    }
}

/// Whether linking `child` under `parent` closes no circle: neither is the
/// other, nor lies below it.
pub open spec fn link_applies(arena: Seq<Container>, child: int, parent: int) -> bool {
    !is_ancestor_or_self(arena, child, parent) && !is_ancestor_or_self(arena, parent, child)
}

/// What linking `child` under `parent` makes of the arena: nothing where
/// one of the two is the other or lies below it. Otherwise `child` leaves
/// the child list that it may stand in and goes to the end of the child
/// list of `parent`.
pub open spec fn link_result(arena: Seq<Container>, child: int, parent: int) -> Seq<Container> {
    if link_applies(arena, child, parent) {
        attach(detach(arena, child), child, parent)
    } else {
        arena
    }
}

/// Linking keeps the forest well formed.
pub proof fn lemma_link_wf(arena: Seq<Container>, child: int, parent: int)
    requires
        forest_wf(arena),
        0 <= child < arena.len(),
        0 <= parent < arena.len(),
    ensures
        forest_wf(link_result(arena, child, parent)),
        link_result(arena, child, parent).len() == arena.len(),
{
    if link_applies(arena, child, parent) {
        lemma_detach_wf(arena, child);
        if is_ancestor_or_self(detach(arena, child), child, parent) {
            lemma_detach_ancestors(arena, child, child, parent);
        }
        lemma_attach_wf(detach(arena, child), child, parent);
    }
}

/// Puts `child` at the end of the child list of `parent`, unless that
/// would close a circle: where `parent` is `child` or lies below it, or
/// `child` lies below `parent`, nothing happens. A child that had another
/// parent leaves the child list of that one: the last link wins.
pub fn link(threads: &mut Vec<Container>, child: usize, parent: usize)
    requires
        forest_wf(old(threads)@),
        child < old(threads).len(),
        parent < old(threads).len(),
    ensures
        final(threads)@ == link_result(old(threads)@, child as int, parent as int),
        forest_wf(final(threads)@),
        same_messages(old(threads)@, final(threads)@),
        same_dates(old(threads)@, final(threads)@),
        forall|i: int|
            0 <= i < old(threads).len() && i != child ==> (#[trigger] final(threads)@[i]).parent
                == old(threads)@[i].parent,
        old(threads)@[child as int].parent is None ==> keeps_children(
            old(threads)@,
            final(threads)@,
        ),
        link_applies(old(threads)@, child as int, parent as int) ==> final(threads)@[child as int].parent
            == Some(parent) && final(threads)@[parent as int].first_child is Some,
{
    let ghost before = threads@;
    let below = threads[child];
    let above = threads[parent];
    proof {
        assert(before[child as int].id == child);
        assert(before[parent as int].id == parent);
    }
    if below.is_descendant(threads, &above) || above.is_descendant(threads, &below) {
        return ;
    }
    proof {
        lemma_link_wf(before, child as int, parent as int);
        lemma_detach_wf(before, child as int);
    }
    unlink(threads, child);
    let ghost freed = threads@;
    let above = threads[parent];
    let mut node = threads[child];
    proof {
        assert(freed[child as int].id == child);
        assert(freed[parent as int].id == parent);
    }
    match above.first_child {
        None => {
            node.parent = Some(parent);
            threads.set(child, node);
            let mut up = above;
            up.first_child = Some(child);
            threads.set(parent, up);
            assert(threads@ =~= attach(freed, child as int, parent as int));
        },
        Some(first) => {
            let mut cur: usize = first;
            loop
                invariant
                    threads@ == freed,
                    forest_wf(freed),
                    cur < freed.len(),
                    first < freed.len(),
                    last_sibling(freed, first as int) == last_sibling(freed, cur as int),
                ensures
                    threads@ == freed,
                    cur == last_sibling(freed, first as int),
                    cur < freed.len(),
                decreases ranking_of(freed).height[cur as int],
            {
                proof {
                    lemma_ranking(freed);
                    assert(freed[cur as int].id == cur);
                }
                match threads[cur].next_sibling {
                    Some(next) => {
                        cur = next;
                    },
                    None => {
                        break ;
                    },
                }
            }
            proof {
                lemma_last_sibling(freed, first as int);
            }
            node.parent = Some(parent);
            threads.set(child, node);
            let mut last = threads[cur];
            last.next_sibling = Some(child);
            threads.set(cur, last);
            assert(threads@ =~= attach(freed, child as int, parent as int));
        },
    }
}

/// Takes `child` out of the child list of its parent and makes it a root.
pub fn unlink(threads: &mut Vec<Container>, child: usize)
    requires
        forest_wf(old(threads)@),
        child < old(threads).len(),
    ensures
        final(threads)@ == detach(old(threads)@, child as int),
        forest_wf(final(threads)@),
{
    let ghost before = threads@;
    let mut node = threads[child];
    proof {
        lemma_detach_wf(before, child as int);
        lemma_ranking(before);
        assert(before[child as int].id == child);
    }
    match node.parent {
        None => {},
        Some(up) => {
            let mut above = threads[up];
            proof {
                assert(before[up as int].id == up);
                lemma_child_in_list(before, child as int);
                lemma_only_way_in(before, child as int);
            }
            match above.first_child {
                None => {},
                Some(first) => {
                    if first == child {
                        above.first_child = node.next_sibling;
                        threads.set(up, above);
                    } else {
                        let mut cur: usize = first;
                        loop
                            invariant
                                threads@ == before,
                                forest_wf(before),
                                child < before.len(),
                                cur < before.len(),
                                cur != child,
                                in_list(before, cur as int, child as int),
                            ensures
                                threads@ == before,
                                cur < before.len(),
                                before[cur as int].next_sibling == Some(child),
                            decreases ranking_of(before).height[cur as int],
                        {
                            proof {
                                lemma_ranking(before);
                                assert(before[cur as int].id == cur);
                            }
                            match threads[cur].next_sibling {
                                Some(next) => {
                                    if next == child {
                                        break ;
                                    }
                                    cur = next;
                                },
                                None => {
                                    break ;
                                },
                            }
                        }
                        let mut previous = threads[cur];
                        previous.next_sibling = node.next_sibling;
                        threads.set(cur, previous);
                    }
                },
            }
            node.parent = None;
            node.next_sibling = None;
            threads.set(child, node);
            assert(threads@ =~= detach(before, child as int));
        },
    }
}

/// The ranking of the arena with every node that is not below `child`
/// lifted above all of those that are.
pub open spec fn lifted_ranking(arena: Seq<Container>, child: int) -> Ranking {
    let r = ranking_of(arena);
    Ranking {
        height: Seq::new(
            arena.len(),
            |i: int|
                if is_ancestor_or_self(arena, child, i) {
                    r.height[i]
                } else {
                    r.height[i] + r.top + 1
                },
        ),
        top: r.top + r.top + 1,
    }
}

/// Attaching a root under a node that is not below it keeps the forest
/// well formed.
pub proof fn lemma_attach_wf(arena: Seq<Container>, child: int, parent: int)
    requires
        forest_wf(arena),
        0 <= child < arena.len(),
        0 <= parent < arena.len(),
        arena[child].parent is None,
        !is_ancestor_or_self(arena, child, parent),
    ensures
        forest_wf(attach(arena, child, parent)),
        attach(arena, child, parent).len() == arena.len(),
{
    let after = attach(arena, child, parent);
    let r = ranking_of(arena);
    let lifted = lifted_ranking(arena, child);
    lemma_ranking(arena);
    assert(arena[child].id == child);
    assert(arena[parent].id == parent);
    assert(child != parent);
    assert(arena[child].next_sibling is None);
    let first = arena[parent].first_child;
    let last = if first is Some {
        last_sibling(arena, first->0 as int)
    } else {
        parent
    };
    if first is Some {
        assert(arena[first->0 as int].id == first->0);
        lemma_last_sibling(arena, first->0 as int);
        assert(arena[last].parent == Some(parent as usize));
        assert(last != child);
    }
    assert(after.len() == arena.len());
    assert forall|i: int| 0 <= i < after.len() implies {
        &&& (#[trigger] after[i]).id == i
        &&& link_ok(after, after[i].parent)
        &&& link_ok(after, after[i].first_child)
        &&& link_ok(after, after[i].next_sibling)
    } by {
        assert(arena[i].id == i);
    }
    assert forall|i: int| 0 <= i < after.len() implies {
        &&& (#[trigger] after[i]).first_child is Some ==> after[after[i].first_child->0 as int].parent
            == Some(i as usize)
        &&& after[i].next_sibling is Some ==> {
            &&& after[i].parent is Some
            &&& after[after[i].next_sibling->0 as int].parent == after[i].parent
        }
    } by {
        assert(arena[i].id == i);
        if arena[i].first_child is Some {
            let c = arena[i].first_child->0 as int;
            assert(arena[c].id == c);
        }
        if arena[i].next_sibling is Some {
            let y = arena[i].next_sibling->0 as int;
            assert(arena[y].id == y);
        }
    }
    assert forall|i: int| 0 <= i < after.len() implies {
        &&& lifted.height[i] <= lifted.top
        &&& (#[trigger] after[i]).parent is Some ==> lifted.height[after[i].parent->0 as int]
            > lifted.height[i]
        &&& after[i].next_sibling is Some ==> lifted.height[i] > lifted.height[after[i].next_sibling->0 as int]
    } by {
        assert(arena[i].id == i);
        lemma_above(arena, child, i);
        if arena[i].parent is Some {
            let up = arena[i].parent->0 as int;
            assert(arena[up].id == up);
        }
        if arena[i].next_sibling is Some {
            let y = arena[i].next_sibling->0 as int;
            assert(arena[y].id == y);
            lemma_above(arena, child, y);
        }
        if i == last && first is Some {
            lemma_above(arena, child, last);
        }
    }
    assert(ranked(after, lifted));
    lemma_attach_one_way(arena, child, parent);
}

/// Attaching a root gives it one place in the child lists and leaves every
/// other container the place that it had.
pub proof fn lemma_attach_one_way(arena: Seq<Container>, child: int, parent: int)
    requires
        forest_wf(arena),
        0 <= child < arena.len(),
        0 <= parent < arena.len(),
        arena[child].parent is None,
        child != parent,
    ensures
        one_way_in(attach(arena, child, parent)),
{
    reveal(one_way_in);
    let after = attach(arena, child, parent);
    assert(arena[child].id == child);
    assert(arena[parent].id == parent);
    assert(arena[child].next_sibling is None);
    let first = arena[parent].first_child;
    let last = if first is Some {
        last_sibling(arena, first->0 as int)
    } else {
        parent
    };
    if first is Some {
        assert(arena[first->0 as int].id == first->0);
        lemma_last_sibling(arena, first->0 as int);
        assert(last != child);
    }
    assert forall|x: int, y: int|
        0 <= x < after.len() && 0 <= y < after.len() && (#[trigger] after[x]).next_sibling is Some
            && after[x].next_sibling == (#[trigger] after[y]).next_sibling implies x == y by {
        assert(arena[x].id == x);
        assert(arena[y].id == y);
        if after[x].next_sibling == Some(child as usize) {
            assert(arena[x].next_sibling != Some(child as usize));
            assert(arena[y].next_sibling != Some(child as usize));
        } else {
            assert(arena[x].next_sibling == arena[y].next_sibling);
        }
    }
    assert forall|p: int, x: int|
        0 <= p < after.len() && 0 <= x < after.len() && (#[trigger] after[p]).first_child is Some implies (#[trigger] after[x]).next_sibling
        != after[p].first_child by {
        assert(arena[x].id == x);
        assert(arena[p].id == p);
        if after[p].first_child == Some(child as usize) {
            assert(arena[x].next_sibling != Some(child as usize));
            assert(arena[p].first_child != Some(child as usize));
        } else {
            assert(arena[x].next_sibling != arena[p].first_child);
        }
    }
    assert forall|c: int|
        0 <= c < after.len() && (#[trigger] after[c]).parent is Some implies is_first_child(after, c)
        || has_previous(after, c) by {
        assert(arena[c].id == c);
        if c == child {
            if first is Some {
                assert(after[last].next_sibling == Some(child as usize));
            }
        } else {
            let up = arena[c].parent->0 as int;
            assert(arena[up].id == up);
            if is_first_child(arena, c) {
                assert(after[up].first_child == arena[up].first_child);
            } else {
                let x = previous_sibling(arena, c);
                assert(after[x].next_sibling == Some(c as usize));
            }
        }
    }
}

/// Every container is at least as recent as each of its children.
pub open spec fn dates_monotone(arena: Seq<Container>) -> bool {
    forall|i: int|
        0 <= i < arena.len() && (#[trigger] arena[i]).parent is Some ==> arena[arena[i].parent->0 as int].date
            >= arena[i].date
}

/// Every container but `except` is no more recent than its parent.
pub open spec fn monotone_but(arena: Seq<Container>, except: int) -> bool {
    forall|i: int|
        0 <= i < arena.len() && i != except && (#[trigger] arena[i]).parent is Some
            ==> arena[arena[i].parent->0 as int].date >= arena[i].date
}

/// Two arenas give every container the same date.
pub open spec fn same_dates(a: Seq<Container>, b: Seq<Container>) -> bool {
    &&& a.len() == b.len()
    &&& forall|i: int| 0 <= i < a.len() ==> (#[trigger] b[i]).date == a[i].date
}

/// Carrying a date up from `from` mends the one place where a child may be
/// more recent than its parent, if that child lies right below `from` and
/// is no more recent than the date carried.
pub proof fn lemma_raise_dates_mends(
    arena: Seq<Container>,
    from: int,
    date: UnixTimestamp,
    except: int,
)
    requires
        forest_wf(arena),
        0 <= from < arena.len(),
        monotone_but(arena, except),
        0 <= except < arena.len() ==> arena[except].parent == Some(from as usize)
            && arena[except].date <= date,
    ensures
        dates_monotone(raise_dates(arena, from, date)),
{
    let raised = raise_dates(arena, from, date);
    lemma_ranking(arena);
    assert forall|i: int| 0 <= i < raised.len() && (#[trigger] raised[i]).parent is Some implies raised[raised[i].parent->0 as int].date
        >= raised[i].date by {
        assert(arena[i].id == i);
        let up = arena[i].parent->0 as int;
        assert(arena[up].id == up);
        if i == except {
            assert(is_ancestor_or_self(arena, from, from));
            if is_ancestor_or_self(arena, i, from) {
                lemma_ancestor_height(arena, i, from);
            }
        } else {
            if is_ancestor_or_self(arena, i, from) {
                lemma_ancestor_step(arena, i, from);
            }
        }
    }
}

/// Linking `child`, a root, under `parent` leaves every other container
/// with the parent and the date that it had.
pub proof fn lemma_attach_dates(arena: Seq<Container>, child: int, parent: int)
    requires
        forest_wf(arena),
        0 <= child < arena.len(),
        0 <= parent < arena.len(),
        arena[child].parent is None,
        dates_monotone(arena),
    ensures
        monotone_but(link_result(arena, child, parent), child),
        same_dates(arena, link_result(arena, child, parent)),
        link_result(arena, child, parent)[child].parent is Some ==> link_result(
            arena,
            child,
            parent,
        )[child].parent == Some(parent as usize),
{
    let after = link_result(arena, child, parent);
    assert(arena[child].id == child);
    assert(arena[parent].id == parent);
    if after != arena {
        if arena[parent].first_child is Some {
            let first = arena[parent].first_child->0 as int;
            assert(arena[first].id == first);
            lemma_last_sibling(arena, first);
        }
        assert forall|i: int| 0 <= i < after.len() && i != child && (#[trigger] after[i]).parent is Some implies after[after[i].parent->0 as int].date
            >= after[i].date by {
            assert(arena[i].id == i);
            assert(after[i].parent == arena[i].parent);
            let up = arena[i].parent->0 as int;
            assert(arena[up].id == up);
            assert(after[up].date == arena[up].date);
        }
    }
}

/// A container that was just added, without links, is above no other.
pub proof fn lemma_new_is_above_none(
    arena: Seq<Container>,
    message: Option<usize>,
    date: UnixTimestamp,
    node: int,
)
    requires
        forest_wf(arena),
        forest_wf(arena.push(Container::fresh(arena.len() as usize, message, date))),
        0 <= node < arena.len(),
    ensures
        !is_ancestor_or_self(
            arena.push(Container::fresh(arena.len() as usize, message, date)),
            arena.len() as int,
            node,
        ),
    decreases climb(arena, node),
{
    let grown = arena.push(Container::fresh(arena.len() as usize, message, date));
    lemma_ranking(arena);
    assert(arena[node].id == node);
    assert(grown[node] == arena[node]);
    if arena[node].parent is Some {
        let up = arena[node].parent->0 as int;
        assert(arena[up].id == up);
        lemma_new_is_above_none(arena, message, date, up);
    }
}

} // verus!
