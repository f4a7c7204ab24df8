//! What holds of every forest that a build gives.

use crate::arena::{dates_monotone, lemma_ancestor_height};
use crate::builder::{
    after_envelope, after_envelopes, bindings_agree, bound_here, built_collection, built_roots,
    built_state, built_walk, empty_state, envelopes_after, ForestState,
};
use crate::container::Container;
use crate::envelope::EnvelopeView;
use crate::flatten::subjects_of;
use crate::forest::{climb, forest_wf, is_ancestor_or_self, lemma_ranking, one_way_in};
use vstd::prelude::*;

verus! {

/// No container is its own ancestor: in a well-formed forest the parent of
/// a node does not have that node above it, so no chain of parent hops,
/// and no chain of child hops, leads from a container back to itself.
pub proof fn law_no_container_above_itself(arena: Seq<Container>, node: int)
    requires
        forest_wf(arena),
        0 <= node < arena.len(),
        arena[node].parent is Some,
    ensures
        !is_ancestor_or_self(arena, node, arena[node].parent->0 as int),
{
    let up = arena[node].parent->0 as int;
    lemma_ranking(arena);
    assert(arena[node].id == node);
    assert(arena[up].id == up);
    if is_ancestor_or_self(arena, node, up) {
        lemma_ancestor_height(arena, node, up);
    }
}

/// Two nodes that are each above the other are the same node.
pub proof fn law_ancestry_is_antisymmetric(arena: Seq<Container>, a: int, b: int)
    requires
        forest_wf(arena),
        0 <= a < arena.len(),
        0 <= b < arena.len(),
        is_ancestor_or_self(arena, a, b),
        is_ancestor_or_self(arena, b, a),
    ensures
        a == b,
{
    lemma_ranking(arena);
    assert(arena[a].id == a);
    assert(arena[b].id == b);
    lemma_ancestor_height(arena, a, b);
    lemma_ancestor_height(arena, b, a);
    if a != b {
        let up = arena[b].parent->0 as int;
        assert(arena[up].id == up);
        lemma_ancestor_height(arena, a, up);
    }
}

/// The structure is a forest: no container is reached by two links. It is
/// not the next sibling of two containers, not the first child of two, and
/// not the first child of one and the next sibling of another.
pub proof fn law_one_link_leads_to_each(arena: Seq<Container>, x: int, y: int, node: usize)
    requires
        forest_wf(arena),
        0 <= x < arena.len(),
        0 <= y < arena.len(),
    ensures
        arena[x].next_sibling == Some(node) && arena[y].next_sibling == Some(node) ==> x == y,
        arena[x].first_child == Some(node) && arena[y].first_child == Some(node) ==> x == y,
        !(arena[x].first_child == Some(node) && arena[y].next_sibling == Some(node)),
{
    reveal(one_way_in);
    assert(arena[x].id == x);
    assert(arena[y].id == y);
    if arena[x].next_sibling == Some(node) && arena[y].next_sibling == Some(node) {
        assert(arena[x].next_sibling == arena[y].next_sibling);
    }
    if arena[x].first_child == Some(node) {
        assert(arena[y].next_sibling != arena[x].first_child);
    }
}

/// Where every container is at least as recent as its children, it is at
/// least as recent as everything below it.
pub proof fn law_dates_cover_descendants(arena: Seq<Container>, above: int, below: int)
    requires
        forest_wf(arena),
        dates_monotone(arena),
        0 <= below < arena.len(),
        is_ancestor_or_self(arena, above, below),
    ensures
        0 <= above < arena.len(),
        arena[above].date >= arena[below].date,
    decreases climb(arena, below),
{
    lemma_ranking(arena);
    assert(arena[below].id == below);
    if below != above {
        let up = arena[below].parent->0 as int;
        assert(arena[up].id == up);
        law_dates_cover_descendants(arena, above, up);
    }
}

/// An envelope that is bound is held by the container that it names and by
/// no other.
pub proof fn law_bound_exactly_once(
    nodes: Seq<Container>,
    envelopes: Seq<EnvelopeView>,
    position: int,
    t: int,
)
    requires
        bindings_agree(nodes, envelopes),
        0 <= position < envelopes.len(),
        bound_here(nodes, envelopes, position),
        0 <= t < nodes.len(),
    ensures
        nodes[t].message == Some(position as usize) <==> t == envelopes[position].thread->0,
{
    if nodes[t].message == Some(position as usize) {
        assert(envelopes[nodes[t].message->0 as int].thread->0 == t);
    }
}

/// No envelope is held by two containers.
pub proof fn law_envelope_in_one_container(
    nodes: Seq<Container>,
    envelopes: Seq<EnvelopeView>,
    s: int,
    t: int,
)
    requires
        bindings_agree(nodes, envelopes),
        0 <= s < nodes.len(),
        0 <= t < nodes.len(),
        nodes[s].message is Some,
        nodes[s].message == nodes[t].message,
    ensures
        s == t,
{
    let held = nodes[s].message->0 as int;
    assert(envelopes[held].thread->0 == s);
    assert(nodes[t].message is Some);
    assert(envelopes[held].thread->0 == t);
}

/// Two collections have the same headers when they differ at most in the
/// containers that their envelopes name.
pub open spec fn same_headers(a: Seq<EnvelopeView>, b: Seq<EnvelopeView>) -> bool {
    &&& a.len() == b.len()
    &&& forall|j: int|
        0 <= j < a.len() ==> {
            &&& (#[trigger] a[j]).message_id == b[j].message_id
            &&& a[j].references == b[j].references
            &&& a[j].in_reply_to == b[j].in_reply_to
            &&& a[j].date == b[j].date
            &&& a[j].subject == b[j].subject
        }
}

/// Threading reads the headers alone.
pub proof fn lemma_same_headers_threaded(
    st: ForestState,
    a: Seq<EnvelopeView>,
    b: Seq<EnvelopeView>,
    count: nat,
)
    requires
        same_headers(a, b),
        count <= a.len(),
    ensures
        after_envelopes(st, a, count) == after_envelopes(st, b, count),
    decreases count,
{
    if count > 0 {
        lemma_same_headers_threaded(st, a, b, (count - 1) as nat);
        let before = after_envelopes(st, a, (count - 1) as nat);
        assert(a[count - 1].message_id == b[count - 1].message_id);
        assert(after_envelope(before, a[count - 1], (count - 1) as usize) == after_envelope(
            before,
            b[count - 1],
            (count - 1) as usize,
        ));
    }
}

/// A rebuild gives the same forest: two collections with the same headers,
/// such as a collection before and after a build, give the same arena with
/// the same links, the same roots in the same order, and the same display
/// order.
pub proof fn law_rebuild_gives_same_forest(
    a: Seq<EnvelopeView>,
    b: Seq<EnvelopeView>,
    sent: Option<Seq<EnvelopeView>>,
)
    requires
        same_headers(a, b),
    ensures
        built_state(a, sent) == built_state(b, sent),
        built_roots(a, sent) == built_roots(b, sent),
        built_walk(a, sent) == built_walk(b, sent),
{
    lemma_same_headers_threaded(empty_state(), a, b, a.len());
    let first = built_collection(a, sent);
    let second = built_collection(b, sent);
    assert(envelopes_after(empty_state(), a).len() == envelopes_after(empty_state(), b).len());
    assert(first.len() == second.len());
    assert forall|j: int| 0 <= j < first.len() implies first[j].subject == second[j].subject by {
        if j < a.len() {
            assert(a[j].subject == b[j].subject);
        }
    }
    assert(subjects_of(first) =~= subjects_of(second));
}

} // verus!
