//! The mathematical model of a thread forest: what it means for an arena of
//! containers to be well formed, and the relations between its nodes.

use crate::container::Container;
use vstd::prelude::*;

verus! {

/// A link is either absent or an index into the arena.
pub open spec fn link_ok(arena: Seq<Container>, link: Option<usize>) -> bool {
    link is Some ==> link->0 < arena.len()
}

/// Every container knows its own index and every link points into the arena.
pub open spec fn links_in_range(arena: Seq<Container>) -> bool {
    forall|i: int|
        0 <= i < arena.len() ==> {
            &&& (#[trigger] arena[i]).id == i
            &&& link_ok(arena, arena[i].parent)
            &&& link_ok(arena, arena[i].first_child)
            &&& link_ok(arena, arena[i].next_sibling)
        }
}

/// The child lists agree with the parent links: a first child names its
/// parent, and a next sibling has the same parent as the node before it.
pub open spec fn children_know_parent(arena: Seq<Container>) -> bool {
    forall|i: int|
        0 <= i < arena.len() ==> {
            &&& (#[trigger] arena[i]).first_child is Some ==> arena[arena[i].first_child->0 as int].parent
                == Some(i as usize)
            &&& arena[i].next_sibling is Some ==> {
                &&& arena[i].parent is Some
                &&& arena[arena[i].next_sibling->0 as int].parent == arena[i].parent
            }
        }
}

/// Whether `node` is the first child of its parent.
pub open spec fn is_first_child(arena: Seq<Container>, node: int) -> bool {
    arena[node].parent is Some && arena[arena[node].parent->0 as int].first_child == Some(
        node as usize,
    )
}

/// Whether some container has `node` as its next sibling.
pub open spec fn has_previous(arena: Seq<Container>, node: int) -> bool {
    exists|x: int| 0 <= x < arena.len() && (#[trigger] arena[x]).next_sibling == Some(node as usize)
}

/// The container that has `node` as its next sibling.
pub open spec fn previous_sibling(arena: Seq<Container>, node: int) -> int {
    choose|x: int| 0 <= x < arena.len() && (#[trigger] arena[x]).next_sibling == Some(node as usize)
}

/// No container is the next sibling of two others.
pub open spec fn next_is_unique(arena: Seq<Container>) -> bool {
    forall|x: int, y: int|
        0 <= x < arena.len() && 0 <= y < arena.len() && (#[trigger] arena[x]).next_sibling is Some
            && arena[x].next_sibling == (#[trigger] arena[y]).next_sibling ==> x == y
}

/// A first child is nobody's next sibling.
pub open spec fn first_has_no_previous(arena: Seq<Container>) -> bool {
    forall|p: int, x: int|
        0 <= p < arena.len() && 0 <= x < arena.len() && (#[trigger] arena[p]).first_child is Some
            ==> (#[trigger] arena[x]).next_sibling != arena[p].first_child
}

/// Every container that has a parent stands in the child list of it: as
/// its first child, or as the next sibling of another.
pub open spec fn children_are_listed(arena: Seq<Container>) -> bool {
    forall|c: int|
        0 <= c < arena.len() && (#[trigger] arena[c]).parent is Some ==> is_first_child(arena, c)
            || has_previous(arena, c)
}

/// Every container is reached by one link at most, and by one if it has a
/// parent: no container has two places in the child lists.
#[verifier::opaque]
pub open spec fn one_way_in(arena: Seq<Container>) -> bool {
    &&& next_is_unique(arena)
    &&& first_has_no_previous(arena)
    &&& children_are_listed(arena)
}

/// A witness that no chain of links runs in a circle: a height for each
/// node that drops along every parent-to-child and sibling-to-next-sibling
/// link, and a bound on all heights.
pub ghost struct Ranking {
    pub height: Seq<nat>,
    pub top: nat,
}

/// Whether the heights of `r` drop along every link of the arena.
pub open spec fn ranked(arena: Seq<Container>, r: Ranking) -> bool {
    &&& r.height.len() == arena.len()
    &&& forall|i: int|
        0 <= i < arena.len() ==> {
            &&& r.height[i] <= r.top
            &&& (#[trigger] arena[i]).parent is Some ==> r.height[arena[i].parent->0 as int] > r.height[i]
            &&& arena[i].next_sibling is Some ==> r.height[i] > r.height[arena[i].next_sibling->0 as int]
        }
}

/// Whether the arena has a ranking, which is to say that no chain of links
/// runs in a circle.
pub open spec fn has_ranking(arena: Seq<Container>) -> bool {
    exists|r: Ranking| ranked(arena, r)
}

/// A ranking of the arena, where it has one.
pub open spec fn ranking_of(arena: Seq<Container>) -> Ranking {
    choose|r: Ranking| ranked(arena, r)
}

/// The arena is a forest: links are in range, child lists and parent links
/// agree, and no node can be reached from itself.
pub open spec fn forest_wf(arena: Seq<Container>) -> bool {
    &&& links_in_range(arena)
    &&& children_know_parent(arena)
    &&& one_way_in(arena)
    &&& has_ranking(arena)
}

/// How far `node` is below the bound of the arena's ranking; it drops with
/// every step towards the root.
pub open spec fn climb(arena: Seq<Container>, node: int) -> nat {
    (ranking_of(arena).top - ranking_of(arena).height[node]) as nat
}

/// Whether `target` is `node` itself or one of its ancestors.
pub open spec fn is_ancestor_or_self(arena: Seq<Container>, target: int, node: int) -> bool
    decreases climb(arena, node),
    when forest_wf(arena) && 0 <= node < arena.len()
{
    if node == target {
        true
    } else if arena[node].parent is Some {
        proof {
            assert(ranked(arena, ranking_of(arena)));
            let r = ranking_of(arena);
            let up = arena[node].parent->0 as int;
            assert(link_ok(arena, arena[node].parent));
            assert(arena[up].id == up);
            assert(r.height[node] < r.height[up] <= r.top);
        }
        is_ancestor_or_self(arena, target, arena[node].parent->0 as int)
    } else {
        false
    }
}

/// Two arenas have the same shape when they agree on every link; they may
/// differ in messages, dates and the fields derived for display.
pub open spec fn same_shape(a: Seq<Container>, b: Seq<Container>) -> bool {
    &&& a.len() == b.len()
    &&& forall|i: int|
        0 <= i < a.len() ==> {
            &&& (#[trigger] b[i]).id == a[i].id
            &&& b[i].parent == a[i].parent
            &&& b[i].first_child == a[i].first_child
            &&& b[i].next_sibling == a[i].next_sibling
        }
}

/// Two arenas bind the same messages to the same containers.
pub open spec fn same_messages(a: Seq<Container>, b: Seq<Container>) -> bool {
    &&& a.len() == b.len()
    &&& forall|i: int| 0 <= i < a.len() ==> (#[trigger] b[i]).message == a[i].message
}

/// A container without a message has at least one child.
pub open spec fn placeholders_have_children(arena: Seq<Container>) -> bool {
    forall|i: int| 0 <= i < arena.len() && (#[trigger] arena[i]).message is None ==> arena[i].first_child is Some
}

/// Every container that has a child in `a` has one in `b`.
pub open spec fn keeps_children(a: Seq<Container>, b: Seq<Container>) -> bool {
    &&& a.len() <= b.len()
    &&& forall|i: int| 0 <= i < a.len() && (#[trigger] a[i]).first_child is Some ==> b[i].first_child is Some
}

/// The ranking that the arena's well-formedness promises.
pub proof fn lemma_ranking(arena: Seq<Container>)
    requires
        has_ranking(arena),
    ensures
        ranked(arena, ranking_of(arena)),
{
}

/// Well-formedness depends on the links alone.
pub proof fn lemma_same_shape_wf(a: Seq<Container>, b: Seq<Container>)
    requires
        forest_wf(a),
        same_shape(a, b),
    ensures
        forest_wf(b),
{
    let r = ranking_of(a);
    assert forall|i: int| 0 <= i < b.len() implies {
        &&& (#[trigger] b[i]).id == i
        &&& link_ok(b, b[i].parent)
        &&& link_ok(b, b[i].first_child)
        &&& link_ok(b, b[i].next_sibling)
    } by {
        assert(a[i].id == i);
    }
    assert forall|i: int| 0 <= i < b.len() implies {
        &&& (#[trigger] b[i]).first_child is Some ==> b[b[i].first_child->0 as int].parent == Some(
            i as usize,
        )
        &&& b[i].next_sibling is Some ==> {
            &&& b[i].parent is Some
            &&& b[b[i].next_sibling->0 as int].parent == b[i].parent
        }
    } by {
        assert(a[i].id == i);
        if b[i].first_child is Some {
            let c = b[i].first_child->0 as int;
            assert(b[c].parent == a[c].parent);
        }
        if b[i].next_sibling is Some {
            let y = b[i].next_sibling->0 as int;
            assert(b[y].parent == a[y].parent);
        }
    }
    assert forall|i: int| 0 <= i < b.len() implies {
        &&& r.height[i] <= r.top
        &&& (#[trigger] b[i]).parent is Some ==> r.height[b[i].parent->0 as int] > r.height[i]
        &&& b[i].next_sibling is Some ==> r.height[i] > r.height[b[i].next_sibling->0 as int]
    } by {
        assert(a[i].id == i);
    }
    assert(ranked(b, r));
    reveal(one_way_in);
    assert forall|x: int, y: int|
        0 <= x < b.len() && 0 <= y < b.len() && (#[trigger] b[x]).next_sibling is Some
            && b[x].next_sibling == (#[trigger] b[y]).next_sibling implies x == y by {
        assert(a[x].next_sibling == a[y].next_sibling);
    }
    assert forall|p: int, x: int|
        0 <= p < b.len() && 0 <= x < b.len() && (#[trigger] b[p]).first_child is Some implies (#[trigger] b[x]).next_sibling
        != b[p].first_child by {
        assert(a[x].next_sibling != a[p].first_child);
    }
    assert forall|c: int| 0 <= c < b.len() && (#[trigger] b[c]).parent is Some implies is_first_child(
        b,
        c,
    ) || has_previous(b, c) by {
        assert(a[c].parent is Some);
        let up = a[c].parent->0 as int;
        assert(a[c].id == c);
        assert(b[up].first_child == a[up].first_child);
        if !is_first_child(a, c) {
            let x = previous_sibling(a, c);
            assert(b[x].next_sibling == Some(c as usize));
        }
    }
}

/// The way from `node` to its root: the node, its parent, and so on.
pub open spec fn lineage(arena: Seq<Container>, node: int) -> Seq<int>
    decreases climb(arena, node),
    when forest_wf(arena) && 0 <= node < arena.len()
{
    if arena[node].parent is Some {
        proof {
            let r = ranking_of(arena);
            let up = arena[node].parent->0 as int;
            assert(link_ok(arena, arena[node].parent));
            assert(arena[up].id == up);
            assert(r.height[node] < r.height[up] <= r.top);
        }
        seq![node] + lineage(arena, arena[node].parent->0 as int)
    } else {
        seq![node]
    }
}

/// How many ancestors `node` has.
pub open spec fn depth(arena: Seq<Container>, node: int) -> nat {
    (lineage(arena, node).len() - 1) as nat
}

/// The way to the root starts at the node, stays in the arena, climbs in
/// the ranking and passes no node twice.
pub proof fn lemma_lineage(arena: Seq<Container>, node: int)
    requires
        forest_wf(arena),
        0 <= node < arena.len(),
    ensures
        lineage(arena, node).len() >= 1,
        lineage(arena, node)[0] == node,
        forall|j: int|
            0 <= j < lineage(arena, node).len() ==> 0 <= #[trigger] lineage(arena, node)[j]
                < arena.len(),
        forall|j: int|
            0 < j < lineage(arena, node).len() ==> ranking_of(arena).height[#[trigger] lineage(
                arena,
                node,
            )[j]] > ranking_of(arena).height[node],
        lineage(arena, node).no_duplicates(),
        arena[node].parent is Some ==> depth(arena, node) == depth(
            arena,
            arena[node].parent->0 as int,
        ) + 1,
        arena[node].parent is None ==> depth(arena, node) == 0,
    decreases climb(arena, node),
{
    let r = ranking_of(arena);
    lemma_ranking(arena);
    assert(arena[node].id == node);
    if arena[node].parent is Some {
        let up = arena[node].parent->0 as int;
        assert(arena[up].id == up);
        assert(r.height[node] < r.height[up] <= r.top);
        lemma_lineage(arena, up);
        let rest = lineage(arena, up);
        let all = lineage(arena, node);
        assert(all == seq![node] + rest);
        assert forall|j: int| 0 < j < all.len() implies r.height[#[trigger] all[j]] > r.height[node] by {
            assert(all[j] == rest[j - 1]);
            if j > 1 {
                assert(r.height[rest[j - 1]] > r.height[up]);
            }
        }
        assert forall|j: int, k: int| 0 <= j < all.len() && 0 <= k < all.len() && j != k implies all[j]
            != all[k] by {
            if j > 0 && k > 0 {
                assert(all[j] == rest[j - 1]);
                assert(all[k] == rest[k - 1]);
            } else if j == 0 {
                assert(r.height[all[k]] > r.height[node]);
            } else {
                assert(r.height[all[j]] > r.height[node]);
            }
        }
        assert forall|j: int| 0 <= j < all.len() implies 0 <= #[trigger] all[j] < arena.len() by {
            if j > 0 {
                assert(all[j] == rest[j - 1]);
            }
        }
    }
}

/// No node lies deeper than the arena has containers.
pub proof fn lemma_depth_bounded(arena: Seq<Container>, node: int)
    requires
        forest_wf(arena),
        0 <= node < arena.len(),
    ensures
        depth(arena, node) < arena.len(),
{
    lemma_lineage(arena, node);
    let way = lineage(arena, node);
    way.unique_seq_to_set();
    vstd::set_lib::lemma_int_range(0, arena.len() as int);
    assert(way.to_set().subset_of(vstd::set_lib::set_int_range(0, arena.len() as int))) by {
        assert forall|x: int| way.to_set().contains(x) implies vstd::set_lib::set_int_range(
            0,
            arena.len() as int,
        ).contains(x) by {
            let j = choose|j: int| 0 <= j < way.len() && way[j] == x;
            assert(0 <= way[j] < arena.len());
        }
    }
    vstd::set_lib::lemma_len_subset(
        way.to_set(),
        vstd::set_lib::set_int_range(0, arena.len() as int),
    );
}

} // verus!
