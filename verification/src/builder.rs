//! Building the forest: resolving Message-IDs to containers, binding
//! envelopes to them and linking each under the mail it answers.

use crate::arena::{
    dates_monotone, lemma_attach_dates, lemma_new_is_above_none, lemma_raise_dates_mends, link,
    link_result, propagate_date, raise_dates,
};
use crate::container::Container;
use crate::container::UnixTimestamp;
use crate::envelope::{Envelope, EnvelopeView};
use crate::forest::{
    forest_wf, has_previous, is_ancestor_or_self, is_first_child, keeps_children, one_way_in,
    previous_sibling, lemma_ranking, lemma_same_shape_wf, link_ok,
    placeholders_have_children, ranked, ranking_of, same_messages, same_shape,
};
use crate::flatten::{
    bound_below, flatten, order_ok, subjects_of, walk_roots, walk_state, Walk,
};
use crate::harvest::{harvest_roots, roots_among, sort_roots, sorted_by_date};
use crate::reach::lemma_roots_cover;
use crate::id_index::{empty_index, id_entries, id_table_get, id_table_insert, id_table_new};
use fnv::FnvHashMap;
use vstd::prelude::*;

verus! {

/// The container arena together with the Message-ID index over it.
pub ghost struct ForestState {
    pub nodes: Seq<Container>,
    pub ids: Map<Seq<char>, usize>,
}

/// The state that an arena and an index make.
pub open spec fn state(nodes: Seq<Container>, ids: Map<Seq<char>, usize>) -> ForestState {
    ForestState { nodes, ids }
}

/// Every Message-ID of the index names a container of the arena.
pub open spec fn index_in_range(st: ForestState) -> bool {
    forall|k: Seq<char>| #[trigger] st.ids.contains_key(k) ==> st.ids[k] < st.nodes.len()
}

/// No two Message-IDs name the same container.
pub open spec fn index_injective(st: ForestState) -> bool {
    forall|k: Seq<char>, l: Seq<char>|
        #[trigger] st.ids.contains_key(k) && #[trigger] st.ids.contains_key(l) && st.ids[k]
            == st.ids[l] ==> k == l
}

/// A container without a message has no parent.
pub open spec fn unbound_are_roots(nodes: Seq<Container>) -> bool {
    forall|i: int| 0 <= i < nodes.len() && (#[trigger] nodes[i]).message is None ==> nodes[i].parent is None
}

/// What holds of the arena and the index between any two steps of a build.
pub open spec fn state_wf(st: ForestState) -> bool {
    &&& forest_wf(st.nodes)
    &&& index_in_range(st)
    &&& index_injective(st)
    &&& unbound_are_roots(st.nodes)
}

/// Every bound container of `after` either was bound to the same envelope
/// in `before`, or holds an envelope that stands at `from` or later in the
/// collection and names that container.
pub open spec fn bound_since(
    before: Seq<Container>,
    after: Seq<Container>,
    envelopes: Seq<EnvelopeView>,
    from: int,
) -> bool {
    forall|t: int|
        0 <= t < after.len() && (#[trigger] after[t]).message is Some ==> {
            ||| (t < before.len() && before[t].message == after[t].message)
            ||| (from <= after[t].message->0 < envelopes.len() && envelopes[after[t].message->0 as int].thread
                == Some(t as usize))
        }
}

/// Containers and envelopes agree on who is bound to whom: the envelope
/// that a container holds names that container.
pub open spec fn bindings_agree(nodes: Seq<Container>, envelopes: Seq<EnvelopeView>) -> bool {
    forall|t: int|
        0 <= t < nodes.len() && (#[trigger] nodes[t]).message is Some ==> {
            &&& nodes[t].message->0 < envelopes.len()
            &&& envelopes[nodes[t].message->0 as int].thread is Some
            &&& envelopes[nodes[t].message->0 as int].thread->0 == t
        }
}

/// What one step binds: a container of `after` that holds a message held
/// it in `before`, or is `bound` and holds the envelope at `position`.
pub open spec fn binds_only(
    before: Seq<Container>,
    after: Seq<Container>,
    bound: Option<usize>,
    position: usize,
) -> bool {
    forall|t: int|
        0 <= t < after.len() && (#[trigger] after[t]).message is Some ==> {
            ||| (t < before.len() && before[t].message == after[t].message)
            ||| (bound == Some(t as usize) && after[t].message == Some(position))
        }
}

/// What is bound stays bound to the same envelope.
pub open spec fn keeps_bound(before: Seq<Container>, after: Seq<Container>) -> bool {
    &&& before.len() <= after.len()
    &&& forall|t: int|
        0 <= t < before.len() && (#[trigger] before[t]).message is Some ==> after[t].message
            == before[t].message
}

/// A Message-ID whose container holds a message in `after` had it bound
/// in `before` already, unless it is `message_id`.
pub open spec fn binds_under(before: ForestState, after: ForestState, message_id: Seq<char>) -> bool {
    forall|key: Seq<char>|
        #[trigger] after.ids.contains_key(key) && after.nodes[after.ids[key] as int].message is Some
            ==> key == message_id || (before.ids.contains_key(key) && before.nodes[before.ids[key] as int].message
            is Some)
}

/// Whether no earlier envelope of the list has the Message-ID of the one
/// at `position`.
pub open spec fn first_occurrence(envelopes: Seq<EnvelopeView>, position: int) -> bool {
    forall|j: int| 0 <= j < position ==> (#[trigger] envelopes[j]).message_id != envelopes[position].message_id
}

/// Whether the index has `message_id` and its container holds a message.
pub open spec fn id_is_bound(st: ForestState, message_id: Seq<char>) -> bool {
    st.ids.contains_key(message_id) && st.nodes[st.ids[message_id] as int].message is Some
}

/// Whether one of the first `count` envelopes has `message_id`.
pub open spec fn seen_before(envelopes: Seq<EnvelopeView>, count: int, message_id: Seq<char>) -> bool {
    exists|j: int| 0 <= j < count && (#[trigger] envelopes[j]).message_id == message_id
}

/// The envelope at `position` names a container, and that container holds
/// the envelope.
pub open spec fn bound_here(nodes: Seq<Container>, envelopes: Seq<EnvelopeView>, position: int) -> bool {
    &&& envelopes[position].thread is Some
    &&& envelopes[position].thread->0 < nodes.len()
    &&& nodes[envelopes[position].thread->0 as int].message == Some(position as usize)
}

/// Every envelope that is the first with its Message-ID, and whose
/// Message-ID was not bound in `start`, is bound.
pub open spec fn firsts_are_bound(
    start: ForestState,
    given: Seq<EnvelopeView>,
    nodes: Seq<Container>,
    envelopes: Seq<EnvelopeView>,
    count: int,
) -> bool {
    forall|j: int|
        0 <= j < count && #[trigger] first_occurrence(given, j) && !id_is_bound(
            start,
            given[j].message_id,
        ) ==> bound_here(nodes, envelopes, j)
}

/// Whether binding an envelope with `message_id` and `date` would put an
/// older date on a container that stands for it already: the index has the
/// Message-ID, its container holds no message yet and is more recent.
pub open spec fn backdates(st: ForestState, message_id: Seq<char>, date: UnixTimestamp) -> bool {
    &&& st.ids.contains_key(message_id)
    &&& st.nodes[st.ids[message_id] as int].message is None
    &&& st.nodes[st.ids[message_id] as int].date > date
}

/// The state with a container for `message_id`: unchanged where the index
/// has one, and otherwise with a new container without message at the end
/// of the arena, indexed under `message_id`.
pub open spec fn with_container(st: ForestState, message_id: Seq<char>) -> ForestState {
    if st.ids.contains_key(message_id) {
        st
    } else {
        ForestState {
            nodes: st.nodes.push(Container::fresh(st.nodes.len() as usize, None, 0)),
            ids: st.ids.insert(message_id, st.nodes.len() as usize),
        }
    }
}

/// The container that stands for `message_id` in `with_container`.
pub open spec fn container_of(st: ForestState, message_id: Seq<char>) -> usize {
    if st.ids.contains_key(message_id) {
        st.ids[message_id]
    } else {
        st.nodes.len() as usize
    }
}

/// A new container without links keeps the forest well formed.
pub proof fn lemma_push_wf(nodes: Seq<Container>, message: Option<usize>, date: UnixTimestamp)
    requires
        forest_wf(nodes),
        nodes.len() <= usize::MAX,
    ensures
        forest_wf(nodes.push(Container::fresh(nodes.len() as usize, message, date))),
{
    let after = nodes.push(Container::fresh(nodes.len() as usize, message, date));
    let r = ranking_of(nodes);
    lemma_ranking(nodes);
    let grown = crate::forest::Ranking { height: r.height.push(0), top: r.top };
    assert forall|i: int| 0 <= i < after.len() implies {
        &&& (#[trigger] after[i]).id == i
        &&& link_ok(after, after[i].parent)
        &&& link_ok(after, after[i].first_child)
        &&& link_ok(after, after[i].next_sibling)
    } by {
        if i < nodes.len() {
            assert(nodes[i].id == i);
        }
    }
    assert forall|i: int| 0 <= i < after.len() implies {
        &&& (#[trigger] after[i]).first_child is Some ==> after[after[i].first_child->0 as int].parent
            == Some(i as usize)
        &&& after[i].next_sibling is Some ==> {
            &&& after[i].parent is Some
            &&& after[after[i].next_sibling->0 as int].parent == after[i].parent
        }
    } by {
        if i < nodes.len() {
            assert(nodes[i].id == i);
        }
    }
    assert forall|i: int| 0 <= i < after.len() implies {
        &&& grown.height[i] <= grown.top
        &&& (#[trigger] after[i]).parent is Some ==> grown.height[after[i].parent->0 as int]
            > grown.height[i]
        &&& after[i].next_sibling is Some ==> grown.height[i] > grown.height[after[i].next_sibling->0 as int]
    } by {
        if i < nodes.len() {
            assert(nodes[i].id == i);
        }
    }
    assert(ranked(after, grown));
    reveal(one_way_in);
    assert forall|x: int, y: int|
        0 <= x < after.len() && 0 <= y < after.len() && (#[trigger] after[x]).next_sibling is Some
            && after[x].next_sibling == (#[trigger] after[y]).next_sibling implies x == y by {
        assert(nodes[x].next_sibling == nodes[y].next_sibling);
    }
    assert forall|p: int, x: int|
        0 <= p < after.len() && 0 <= x < after.len() && (#[trigger] after[p]).first_child is Some implies (#[trigger] after[x]).next_sibling
        != after[p].first_child by {
        if x < nodes.len() {
            assert(nodes[x].next_sibling != nodes[p].first_child);
        }
    }
    assert forall|c: int|
        0 <= c < after.len() && (#[trigger] after[c]).parent is Some implies is_first_child(after, c)
        || has_previous(after, c) by {
        assert(nodes[c].id == c);
        let up = nodes[c].parent->0 as int;
        assert(after[up] == nodes[up]);
        if !is_first_child(nodes, c) {
            let x = previous_sibling(nodes, c);
            assert(after[x].next_sibling == Some(c as usize));
        }
    }
}

/// Returns the container that stands for `message_id`. Where the index has
/// none yet, a container without message is added to the arena and indexed.
pub fn get_or_create(
    threads: &mut Vec<Container>,
    id_table: &mut FnvHashMap<String, usize>,
    message_id: &str,
) -> (index: usize)
    requires
        state_wf(state(old(threads)@, id_entries(*old(id_table)))),
    ensures
        state(final(threads)@, id_entries(*final(id_table))) == with_container(
            state(old(threads)@, id_entries(*old(id_table))),
            message_id@,
        ),
        index == container_of(state(old(threads)@, id_entries(*old(id_table))), message_id@),
        index < final(threads).len(),
        state_wf(state(final(threads)@, id_entries(*final(id_table)))),
        dates_monotone(old(threads)@) ==> dates_monotone(final(threads)@),
        keeps_children(old(threads)@, final(threads)@),
        keeps_bound(old(threads)@, final(threads)@),
{
    match id_table_get(id_table, message_id) {
        Some(index) => index,
        None => {
            let index = threads.len();
            proof {
                lemma_push_wf(threads@, None, 0);
            }
            threads.push(Container::new(index, None, 0));
            id_table_insert(id_table, message_id.to_owned(), index);
            index
        },
    }
}

/// The container that an envelope with `message_id` is bound to: the one
/// that the index has for it, a new one where the index has none, and
/// none at all where the indexed container holds a message already.
pub open spec fn bound_index(st: ForestState, message_id: Seq<char>) -> Option<usize> {
    if st.ids.contains_key(message_id) {
        if st.nodes[st.ids[message_id] as int].message is Some {
            None
        } else {
            Some(st.ids[message_id])
        }
    } else {
        Some(st.nodes.len() as usize)
    }
}

/// The state after the envelope at `position`, with `message_id` and
/// `date`, has been bound: its container holds the envelope and has its
/// date. Where the Message-ID belongs to a bound container, nothing changes.
pub open spec fn bind(
    st: ForestState,
    message_id: Seq<char>,
    position: usize,
    date: UnixTimestamp,
) -> ForestState {
    if st.ids.contains_key(message_id) {
        let at = st.ids[message_id] as int;
        if st.nodes[at].message is Some {
            st
        } else {
            ForestState {
                nodes: st.nodes.update(
                    at,
                    Container { message: Some(position), date, ..st.nodes[at] },
                ),
                ids: st.ids,
            }
        }
    } else {
        ForestState {
            nodes: st.nodes.push(Container::fresh(st.nodes.len() as usize, Some(position), date)),
            ids: st.ids.insert(message_id, st.nodes.len() as usize),
        }
    }
}

/// Binds the envelope at `position` of the collection to the container of
/// its Message-ID and returns that container. The first envelope with a
/// Message-ID wins: for a later one nothing changes and `None` is returned.
pub fn bind_message(
    threads: &mut Vec<Container>,
    id_table: &mut FnvHashMap<String, usize>,
    message_id: &str,
    position: usize,
    date: UnixTimestamp,
) -> (bound: Option<usize>)
    requires
        state_wf(state(old(threads)@, id_entries(*old(id_table)))),
    ensures
        state(final(threads)@, id_entries(*final(id_table))) == bind(
            state(old(threads)@, id_entries(*old(id_table))),
            message_id@,
            position,
            date,
        ),
        bound == bound_index(state(old(threads)@, id_entries(*old(id_table))), message_id@),
        bound is Some ==> bound->0 < final(threads).len() && final(threads)@[bound->0 as int].parent
            is None && final(threads)@[bound->0 as int].message == Some(position),
        bound is Some ==> final(threads)@[bound->0 as int].date == date,
        state_wf(state(final(threads)@, id_entries(*final(id_table)))),
        dates_monotone(old(threads)@) && !backdates(
            state(old(threads)@, id_entries(*old(id_table))),
            message_id@,
            date,
        ) ==> dates_monotone(final(threads)@),
        placeholders_have_children(old(threads)@) ==> placeholders_have_children(final(threads)@),
{
    let ghost before = threads@;
    match id_table_get(id_table, message_id) {
        Some(at) => {
            if threads[at].message.is_some() {
                None
            } else {
                let mut node = threads[at];
                node.message = Some(position);
                node.date = date;
                threads.set(at, node);
                proof {
                    assert(same_shape(before, threads@));
                    lemma_same_shape_wf(before, threads@);
                }
                Some(at)
            }
        },
        None => {
            let at = threads.len();
            proof {
                lemma_push_wf(threads@, Some(position), date);
            }
            threads.push(Container::new(at, Some(position), date));
            id_table_insert(id_table, message_id.to_owned(), at);
            Some(at)
        },
    }
}

/// The state after one envelope has been threaded: it is bound to its
/// container, linked under the container of its most recent reference, and
/// its date is carried up from there. An envelope whose Message-ID is
/// bound already changes nothing.
pub open spec fn after_envelope(st: ForestState, envelope: EnvelopeView, position: usize) -> ForestState {
    match bound_index(st, envelope.message_id) {
        None => st,
        Some(own) => {
            let bound = bind(st, envelope.message_id, position, envelope.date);
            if envelope.references.len() > 0 {
                let found = with_container(bound, envelope.references.last());
                let above = container_of(bound, envelope.references.last());
                ForestState {
                    nodes: raise_dates(
                        link_result(found.nodes, own as int, above as int),
                        above as int,
                        envelope.date,
                    ),
                    ids: found.ids,
                }
            } else {
                ForestState { nodes: raise_dates(bound.nodes, own as int, envelope.date), ids: bound.ids }
            }
        },
    }
}

/// The envelope after it has been threaded: it names its container, or is
/// unchanged where it was not bound.
pub open spec fn envelope_after(st: ForestState, envelope: EnvelopeView) -> EnvelopeView {
    match bound_index(st, envelope.message_id) {
        None => envelope,
        Some(own) => EnvelopeView { thread: Some(own), ..envelope },
    }
}

/// Threads one envelope, which stands at `position` of its collection.
pub fn thread_envelope(
    threads: &mut Vec<Container>,
    id_table: &mut FnvHashMap<String, usize>,
    envelope: &mut Envelope,
    position: usize,
)
    requires
        state_wf(state(old(threads)@, id_entries(*old(id_table)))),
    ensures
        state(final(threads)@, id_entries(*final(id_table))) == after_envelope(
            state(old(threads)@, id_entries(*old(id_table))),
            old(envelope)@,
            position,
        ),
        final(envelope)@ == envelope_after(
            state(old(threads)@, id_entries(*old(id_table))),
            old(envelope)@,
        ),
        state_wf(state(final(threads)@, id_entries(*final(id_table)))),
        old(threads).len() <= final(threads).len(),
        binds_only(
            old(threads)@,
            final(threads)@,
            bound_index(state(old(threads)@, id_entries(*old(id_table))), old(envelope)@.message_id),
            position,
        ),
        dates_monotone(old(threads)@) && !backdates(
            state(old(threads)@, id_entries(*old(id_table))),
            old(envelope)@.message_id,
            old(envelope)@.date,
        ) ==> dates_monotone(final(threads)@),
        keeps_bound(old(threads)@, final(threads)@),
        placeholders_have_children(old(threads)@) ==> placeholders_have_children(final(threads)@),
        binds_under(
            state(old(threads)@, id_entries(*old(id_table))),
            state(final(threads)@, id_entries(*final(id_table))),
            old(envelope)@.message_id,
        ),
        bound_index(
            state(old(threads)@, id_entries(*old(id_table))),
            old(envelope)@.message_id,
        ) matches Some(own) ==> own < final(threads).len() && final(threads)@[own as int].message
            == Some(position),
{
    let ghost ordered = dates_monotone(threads@) && !backdates(
        state(threads@, id_entries(*id_table)),
        envelope@.message_id,
        envelope@.date,
    );
    let date = envelope.date();
    let bound = bind_message(threads, id_table, envelope.message_id_raw(), position, date);
    match bound {
        None => {},
        Some(own) => {
            envelope.set_thread(own);
            match envelope.last_reference() {
                Some(reference) => {
                    let ghost bound_nodes = threads@;
                    let above = get_or_create(threads, id_table, reference);
                    let ghost found = threads@;
                    link(threads, own, above);
                    let ghost linked = threads@;
                    propagate_date(threads, above, date);
                    proof {
                        if above == bound_nodes.len() {
                            lemma_new_is_above_none(bound_nodes, None, 0, own as int);
                            assert(found[above as int].parent is None);
                            assert(found[above as int].id == above);
                            assert(!is_ancestor_or_self(found, own as int, above as int));
                            assert(linked[own as int].parent is Some);
                        }
                        if ordered {
                            lemma_attach_dates(found, own as int, above as int);
                            if linked[own as int].parent is Some {
                                lemma_raise_dates_mends(linked, above as int, date, own as int);
                            } else {
                                assert(dates_monotone(linked));
                                lemma_raise_dates_mends(linked, above as int, date, -1);
                            }
                        }
                    }
                },
                None => {
                    let ghost held = threads@;
                    propagate_date(threads, own, date);
                    proof {
                        if ordered {
                            lemma_raise_dates_mends(held, own as int, date, -1);
                        }
                    }
                },
            }
        },
    }
}

/// What a list of envelopes holds.
pub open spec fn views(list: Seq<Envelope>) -> Seq<EnvelopeView> {
    Seq::new(list.len(), |j: int| list[j]@)
}

/// The state after the first `count` envelopes have been threaded in order.
pub open spec fn after_envelopes(st: ForestState, envelopes: Seq<EnvelopeView>, count: nat) -> ForestState
    decreases count,
{
    if count == 0 {
        st
    } else {
        after_envelope(
            after_envelopes(st, envelopes, (count - 1) as nat),
            envelopes[count - 1],
            (count - 1) as usize,
        )
    }
}

/// The envelopes after all of them have been threaded in order.
pub open spec fn envelopes_after(st: ForestState, envelopes: Seq<EnvelopeView>) -> Seq<EnvelopeView> {
    Seq::new(
        envelopes.len(),
        |j: int| envelope_after(after_envelopes(st, envelopes, j as nat), envelopes[j]),
    )
}

/// None of the first `count` envelopes, threaded in order, puts an older
/// date on a container that stands for it already.
pub open spec fn never_backdated(st: ForestState, envelopes: Seq<EnvelopeView>, count: nat) -> bool {
    forall|k: nat|
        k < count ==> !backdates(
            #[trigger] after_envelopes(st, envelopes, k),
            envelopes[k as int].message_id,
            envelopes[k as int].date,
        )
}

/// Threads the envelopes of the collection in order: each is bound to the
/// container of its Message-ID, unless an earlier one was, and linked under
/// the container of its most recent reference.
pub fn build_collection(
    threads: &mut Vec<Container>,
    id_table: &mut FnvHashMap<String, usize>,
    collection: &mut Vec<Envelope>,
)
    requires
        state_wf(state(old(threads)@, id_entries(*old(id_table)))),
    ensures
        state(final(threads)@, id_entries(*final(id_table))) == after_envelopes(
            state(old(threads)@, id_entries(*old(id_table))),
            views(old(collection)@),
            old(collection).len() as nat,
        ),
        views(final(collection)@) == envelopes_after(
            state(old(threads)@, id_entries(*old(id_table))),
            views(old(collection)@),
        ),
        state_wf(state(final(threads)@, id_entries(*final(id_table)))),
        old(threads).len() <= final(threads).len(),
        bound_since(old(threads)@, final(threads)@, views(final(collection)@), 0),
        dates_monotone(old(threads)@) && never_backdated(
            state(old(threads)@, id_entries(*old(id_table))),
            views(old(collection)@),
            old(collection).len() as nat,
        ) ==> dates_monotone(final(threads)@),
        keeps_bound(old(threads)@, final(threads)@),
        placeholders_have_children(old(threads)@) ==> placeholders_have_children(final(threads)@),
        firsts_are_bound(
            state(old(threads)@, id_entries(*old(id_table))),
            views(old(collection)@),
            final(threads)@,
            views(final(collection)@),
            old(collection).len() as int,
        ),
{
    let ghost start = state(threads@, id_entries(*id_table));
    let ghost given = views(collection@);
    let count = collection.len();
    let mut i: usize = 0;
    while i < count
        invariant
            i <= count,
            count == collection.len(),
            given.len() == count,
            state_wf(state(threads@, id_entries(*id_table))),
            state(threads@, id_entries(*id_table)) == after_envelopes(start, given, i as nat),
            forall|j: int| i <= j < count ==> (#[trigger] collection@[j])@ == given[j],
            forall|j: int|
                0 <= j < i ==> (#[trigger] collection@[j])@ == envelope_after(
                    after_envelopes(start, given, j as nat),
                    given[j],
                ),
            start.nodes.len() <= threads.len(),
            dates_monotone(start.nodes) && never_backdated(start, given, i as nat)
                ==> dates_monotone(threads@),
            keeps_bound(start.nodes, threads@),
            placeholders_have_children(start.nodes) ==> placeholders_have_children(threads@),
            forall|key: Seq<char>| #[trigger]
                id_is_bound(state(threads@, id_entries(*id_table)), key) ==> id_is_bound(
                    start,
                    key,
                ) || seen_before(given, i as int, key),
            forall|j: int|
                0 <= j < i && #[trigger] first_occurrence(given, j) && !id_is_bound(
                    start,
                    given[j].message_id,
                ) ==> bound_here(threads@, views(collection@), j),
            forall|t: int|
                0 <= t < threads.len() && (#[trigger] threads@[t]).message is Some ==> {
                    ||| (t < start.nodes.len() && start.nodes[t].message == threads@[t].message)
                    ||| (threads@[t].message->0 < i && collection@[threads@[t].message->0 as int]@.thread
                        == Some(t as usize))
                },
        decreases count - i,
    {
        proof {
            if never_backdated(start, given, (i + 1) as nat) {
                assert(!backdates(
                    after_envelopes(start, given, i as nat),
                    given[i as int].message_id,
                    given[i as int].date,
                ));
                assert(never_backdated(start, given, i as nat));
            }
        }
        let ghost held = state(threads@, id_entries(*id_table));
        let ghost listed = views(collection@);
        thread_envelope(threads, id_table, &mut collection[i], i);
        proof {
            let now = state(threads@, id_entries(*id_table));
            let own_id = given[i as int].message_id;
            assert forall|key: Seq<char>| #[trigger] id_is_bound(now, key) implies id_is_bound(
                start,
                key,
            ) || seen_before(given, i + 1, key) by {
                if key == own_id {
                    assert(given[i as int].message_id == key);
                } else {
                    assert(id_is_bound(held, key));
                    if !id_is_bound(start, key) {
                        let j = choose|j: int| 0 <= j < i && (#[trigger] given[j]).message_id == key;
                        assert(given[j].message_id == key);
                    }
                }
            }
            assert forall|j: int|
                0 <= j < i + 1 && #[trigger] first_occurrence(given, j) && !id_is_bound(
                    start,
                    given[j].message_id,
                ) implies bound_here(threads@, views(collection@), j) by {
                if j < i {
                    assert(bound_here(held.nodes, listed, j));
                    assert(views(collection@)[j] == listed[j]);
                } else {
                    if id_is_bound(held, own_id) {
                        let k = choose|k: int| 0 <= k < i && (#[trigger] given[k]).message_id == own_id;
                        assert(given[k].message_id != given[i as int].message_id);
                    }
                    assert(bound_index(held, own_id) is Some);
                }
            }
        }
        i = i + 1;
    }
    assert(views(collection@) =~= envelopes_after(start, given));
}

/// Whether a sent envelope belongs to the forest: the index knows its
/// Message-ID, or the Message-ID that it answers.
pub open spec fn sent_matches(st: ForestState, envelope: EnvelopeView) -> bool {
    st.ids.contains_key(envelope.message_id) || (envelope.in_reply_to.len() > 0
        && st.ids.contains_key(envelope.in_reply_to))
}

/// Whether a sent envelope is taken over into the collection: it belongs
/// to the forest and its Message-ID is not bound yet.
pub open spec fn sent_copied(st: ForestState, envelope: EnvelopeView) -> bool {
    sent_matches(st, envelope) && bound_index(st, envelope.message_id) is Some
}

/// The state after one sent envelope has been merged, where `position` is
/// the place that its copy gets in the collection. An envelope whose
/// Message-ID is indexed fills that container; any other is bound to a new
/// container, linked under the container of the mail that it answers, and
/// its date is carried up from there.
pub open spec fn after_sent_envelope(st: ForestState, envelope: EnvelopeView, position: usize) -> ForestState {
    if !sent_copied(st, envelope) {
        st
    } else if st.ids.contains_key(envelope.message_id) {
        bind(st, envelope.message_id, position, envelope.date)
    } else {
        let bound = bind(st, envelope.message_id, position, envelope.date);
        let own = st.nodes.len() as int;
        let above = st.ids[envelope.in_reply_to] as int;
        ForestState {
            nodes: raise_dates(link_result(bound.nodes, own, above), above, envelope.date),
            ids: bound.ids,
        }
    }
}

/// The copy of a sent envelope that enters the collection: it names the
/// container that it was bound to.
pub open spec fn sent_copy(st: ForestState, envelope: EnvelopeView) -> EnvelopeView {
    EnvelopeView { thread: bound_index(st, envelope.message_id), ..envelope }
}

/// The outcome of a merge: the state, and the copies that were added to
/// the collection.
pub ghost struct Merged {
    pub st: ForestState,
    pub copied: Seq<EnvelopeView>,
}

/// The outcome of merging the first `count` sent envelopes in order into a
/// forest whose collection holds `base` envelopes.
pub open spec fn after_sent(st: ForestState, base: nat, sent: Seq<EnvelopeView>, count: nat) -> Merged
    decreases count,
{
    if count == 0 {
        Merged { st, copied: Seq::empty() }
    } else {
        let so_far = after_sent(st, base, sent, (count - 1) as nat);
        let envelope = sent[count - 1];
        if sent_copied(so_far.st, envelope) {
            Merged {
                st: after_sent_envelope(
                    so_far.st,
                    envelope,
                    (base + so_far.copied.len()) as usize,
                ),
                copied: so_far.copied.push(sent_copy(so_far.st, envelope)),
            }
        } else {
            so_far
        }
    }
}

/// Merges one sent envelope into the forest, where `position` is the place
/// that its copy would get in the collection. Returns the copy, or `None`
/// where the envelope does not belong to the forest or its Message-ID is
/// bound already.
pub fn merge_sent_envelope(
    threads: &mut Vec<Container>,
    id_table: &mut FnvHashMap<String, usize>,
    envelope: &Envelope,
    position: usize,
) -> (copy: Option<Envelope>)
    requires
        state_wf(state(old(threads)@, id_entries(*old(id_table)))),
    ensures
        state(final(threads)@, id_entries(*final(id_table))) == after_sent_envelope(
            state(old(threads)@, id_entries(*old(id_table))),
            envelope@,
            position,
        ),
        copy is Some == sent_copied(state(old(threads)@, id_entries(*old(id_table))), envelope@),
        copy is Some ==> copy->0@ == sent_copy(
            state(old(threads)@, id_entries(*old(id_table))),
            envelope@,
        ),
        state_wf(state(final(threads)@, id_entries(*final(id_table)))),
        old(threads).len() <= final(threads).len(),
        binds_only(
            old(threads)@,
            final(threads)@,
            if copy is Some {
                copy->0@.thread
            } else {
                None
            },
            position,
        ),
        dates_monotone(old(threads)@) && !backdates(
            state(old(threads)@, id_entries(*old(id_table))),
            envelope@.message_id,
            envelope@.date,
        ) ==> dates_monotone(final(threads)@),
        keeps_bound(old(threads)@, final(threads)@),
        placeholders_have_children(old(threads)@) ==> placeholders_have_children(final(threads)@),
{
    let ghost ordered = dates_monotone(threads@) && !backdates(
        state(threads@, id_entries(*id_table)),
        envelope@.message_id,
        envelope@.date,
    );
    let known = id_table_get(id_table, envelope.message_id_raw());
    let above = if envelope.in_reply_to_raw().is_empty() {
        None
    } else {
        id_table_get(id_table, envelope.in_reply_to_raw())
    };
    if known.is_none() && above.is_none() {
        return None;
    }
    let date = envelope.date();
    let bound = bind_message(threads, id_table, envelope.message_id_raw(), position, date);
    match bound {
        None => None,
        Some(own) => {
            let mut copy = envelope.duplicate();
            copy.set_thread(own);
            if known.is_none() {
                match above {
                    Some(up) => {
                        let ghost found = threads@;
                        link(threads, own, up);
                        let ghost linked = threads@;
                        propagate_date(threads, up, date);
                        proof {
                            if ordered {
                                lemma_attach_dates(found, own as int, up as int);
                                if linked[own as int].parent is Some {
                                    lemma_raise_dates_mends(linked, up as int, date, own as int);
                                } else {
                                    assert(dates_monotone(linked));
                                    lemma_raise_dates_mends(linked, up as int, date, -1);
                                }
                            }
                        }
                    },
                    None => {},
                }
            }
            Some(copy)
        },
    }
}

/// None of the first `count` sent envelopes, merged in order, puts an
/// older date on a container that stands for it already.
pub open spec fn never_backdated_sent(
    st: ForestState,
    base: nat,
    sent: Seq<EnvelopeView>,
    count: nat,
) -> bool {
    forall|k: nat|
        k < count ==> !backdates(
            (#[trigger] after_sent(st, base, sent, k)).st,
            sent[k as int].message_id,
            sent[k as int].date,
        )
}

/// Merges the sent envelopes that belong to the forest: each one whose
/// Message-ID, or the Message-ID that it answers, is indexed is copied to
/// the end of the collection and threaded. The others are left out.
pub fn merge_sent(
    threads: &mut Vec<Container>,
    id_table: &mut FnvHashMap<String, usize>,
    collection: &mut Vec<Envelope>,
    sent: &Vec<Envelope>,
)
    requires
        state_wf(state(old(threads)@, id_entries(*old(id_table)))),
    ensures
        state(final(threads)@, id_entries(*final(id_table))) == after_sent(
            state(old(threads)@, id_entries(*old(id_table))),
            old(collection).len() as nat,
            views(sent@),
            sent.len() as nat,
        ).st,
        views(final(collection)@) == views(old(collection)@) + after_sent(
            state(old(threads)@, id_entries(*old(id_table))),
            old(collection).len() as nat,
            views(sent@),
            sent.len() as nat,
        ).copied,
        state_wf(state(final(threads)@, id_entries(*final(id_table)))),
        old(threads).len() <= final(threads).len(),
        bound_since(
            old(threads)@,
            final(threads)@,
            views(final(collection)@),
            old(collection).len() as int,
        ),
        dates_monotone(old(threads)@) && never_backdated_sent(
            state(old(threads)@, id_entries(*old(id_table))),
            old(collection).len() as nat,
            views(sent@),
            sent.len() as nat,
        ) ==> dates_monotone(final(threads)@),
        keeps_bound(old(threads)@, final(threads)@),
        placeholders_have_children(old(threads)@) ==> placeholders_have_children(final(threads)@),
{
    let ghost start = state(threads@, id_entries(*id_table));
    let ghost given = views(collection@);
    let ghost base = collection.len() as nat;
    let ghost extra = views(sent@);
    let mut i: usize = 0;
    assert(views(collection@) =~= given + after_sent(start, base, extra, 0).copied);
    while i < sent.len()
        invariant
            i <= sent.len(),
            extra == views(sent@),
            base == given.len(),
            state_wf(state(threads@, id_entries(*id_table))),
            state(threads@, id_entries(*id_table)) == after_sent(start, base, extra, i as nat).st,
            views(collection@) == given + after_sent(start, base, extra, i as nat).copied,
            start.nodes.len() <= threads.len(),
            bound_since(start.nodes, threads@, views(collection@), base as int),
            dates_monotone(start.nodes) && never_backdated_sent(start, base, extra, i as nat)
                ==> dates_monotone(threads@),
            keeps_bound(start.nodes, threads@),
            placeholders_have_children(start.nodes) ==> placeholders_have_children(threads@),
        decreases sent.len() - i,
    {
        proof {
            if never_backdated_sent(start, base, extra, (i + 1) as nat) {
                assert(!backdates(
                    after_sent(start, base, extra, i as nat).st,
                    extra[i as int].message_id,
                    extra[i as int].date,
                ));
                assert(never_backdated_sent(start, base, extra, i as nat));
            }
            assert(extra[i as int] == sent@[i as int]@);
        }
        let ghost so_far = after_sent(start, base, extra, i as nat);
        let ghost seen = views(collection@);
        assert(collection@.len() == seen.len());
        let copy = merge_sent_envelope(threads, id_table, &sent[i], collection.len());
        match copy {
            Some(envelope) => {
                let ghost held = collection@;
                collection.push(envelope);
                proof {
                    let target = given + so_far.copied.push(sent_copy(so_far.st, extra[i as int]));
                    assert(extra[i as int] == sent@[i as int]@);
                    assert(views(held) == seen);
                    assert(views(collection@).len() == target.len());
                    assert forall|j: int| 0 <= j < target.len() implies views(collection@)[j]
                        == target[j] by {
                        if j < held.len() {
                            assert(collection@[j] == held[j]);
                            assert(views(held)[j] == held[j]@);
                            assert(seen[j] == (given + so_far.copied)[j]);
                        }
                    }
                    assert(views(collection@) =~= target);
                }
            },
            None => {},
        }
        i = i + 1;
    }
}

/// The state before anything has been threaded.
pub open spec fn empty_state() -> ForestState {
    ForestState { nodes: Seq::empty(), ids: empty_index() }
}

/// What the envelopes of an optional sent folder hold.
pub open spec fn sent_views(sent_folder: Option<Vec<Envelope>>) -> Option<Seq<EnvelopeView>> {
    match sent_folder {
        Some(list) => Some(views(list@)),
        None => None,
    }
}

/// The state after the collection has been threaded and the sent folder,
/// if there is one, has been merged.
pub open spec fn built_state(envelopes: Seq<EnvelopeView>, sent: Option<Seq<EnvelopeView>>) -> ForestState {
    let threaded = after_envelopes(empty_state(), envelopes, envelopes.len());
    match sent {
        Some(list) => after_sent(threaded, envelopes.len(), list, list.len()).st,
        None => threaded,
    }
}

/// The collection after a build: every envelope names its container, and
/// the copies from the sent folder stand at the end.
pub open spec fn built_collection(envelopes: Seq<EnvelopeView>, sent: Option<Seq<EnvelopeView>>) -> Seq<
    EnvelopeView,
> {
    let threaded = after_envelopes(empty_state(), envelopes, envelopes.len());
    match sent {
        Some(list) => envelopes_after(empty_state(), envelopes) + after_sent(
            threaded,
            envelopes.len(),
            list,
            list.len(),
        ).copied,
        None => envelopes_after(empty_state(), envelopes),
    }
}

/// The roots of the built forest, most recent first.
pub open spec fn built_roots(envelopes: Seq<EnvelopeView>, sent: Option<Seq<EnvelopeView>>) -> Seq<usize> {
    let nodes = built_state(envelopes, sent).nodes;
    sorted_by_date(nodes, roots_among(nodes, nodes.len()))
}

/// The walk over the built forest from its roots.
pub open spec fn built_walk(envelopes: Seq<EnvelopeView>, sent: Option<Seq<EnvelopeView>>) -> Walk {
    let nodes = built_state(envelopes, sent).nodes;
    walk_roots(
        nodes,
        subjects_of(built_collection(envelopes, sent)),
        walk_state(nodes, Seq::empty(), None),
        built_roots(envelopes, sent),
        built_roots(envelopes, sent).len(),
    )
}

/// No step of the build puts an older date on a container that stands for
/// the envelope already: no envelope is older than the mails that were
/// threaded below its container before it came.
pub open spec fn build_never_backdates(envelopes: Seq<EnvelopeView>, sent: Option<Seq<EnvelopeView>>) -> bool {
    &&& never_backdated(empty_state(), envelopes, envelopes.len())
    &&& match sent {
        Some(list) => never_backdated_sent(
            after_envelopes(empty_state(), envelopes, envelopes.len()),
            envelopes.len(),
            list,
            list.len(),
        ),
        None => true,
    }
}

/// The empty state is well formed.
pub proof fn lemma_empty_state_wf()
    ensures
        state_wf(empty_state()),
{
    let r = crate::forest::Ranking { height: Seq::empty(), top: 0 };
    assert(ranked(empty_state().nodes, r));
    reveal(one_way_in);
}

/// An arena without containers and an index without entries, from which a
/// build starts.
pub fn new_forest() -> (made: (Vec<Container>, FnvHashMap<String, usize>))
    ensures
        state(made.0@, id_entries(made.1)) == empty_state(),
        state_wf(state(made.0@, id_entries(made.1))),
        made.0@.len() == 0,
{
    let threads: Vec<Container> = Vec::new();
    let id_table = id_table_new();
    proof {
        lemma_empty_state_wf();
        assert(state(threads@, id_entries(id_table)) == empty_state());
    }
    (threads, id_table)
}

/// What was bound before a step stays bound to the same envelope when the
/// collection only grows.
pub proof fn lemma_bindings_extend(
    before: Seq<Container>,
    after: Seq<Container>,
    held: Seq<EnvelopeView>,
    grown: Seq<EnvelopeView>,
)
    requires
        bindings_agree(before, held),
        bound_since(before, after, grown, held.len() as int),
        held.len() <= grown.len(),
        after.len() <= usize::MAX,
        forall|j: int| 0 <= j < held.len() ==> grown[j] == held[j],
    ensures
        bindings_agree(after, grown),
        bound_below(after, grown.len() as int),
{
    assert forall|t: int| 0 <= t < after.len() && (#[trigger] after[t]).message is Some implies {
        &&& after[t].message->0 < grown.len()
        &&& grown[after[t].message->0 as int].thread is Some
        &&& grown[after[t].message->0 as int].thread->0 == t
    } by {
        if t < before.len() && before[t].message == after[t].message {
            assert(before[t].message is Some);
        }
    }
}

/// Builds the thread forest of a collection.
///
/// The envelopes are threaded in order; where there is a sent folder, those
/// of its envelopes that belong to a thread are copied to the end of the
/// collection and threaded too. Returns the arena, with the display fields
/// set, and the containers that hold a message in display order: thread by
/// thread, the most recently active thread first, each thread depth first.
pub fn build_threads(collection: &mut Vec<Envelope>, sent_folder: &Option<Vec<Envelope>>) -> (built: (
    Vec<Container>,
    Vec<usize>,
))
    ensures
        views(final(collection)@) == built_collection(
            views(old(collection)@),
            sent_views(*sent_folder),
        ),
        built.0@ == built_walk(views(old(collection)@), sent_views(*sent_folder)).nodes,
        built.1@ == built_walk(views(old(collection)@), sent_views(*sent_folder)).order,
        same_shape(built_state(views(old(collection)@), sent_views(*sent_folder)).nodes, built.0@),
        same_messages(
            built_state(views(old(collection)@), sent_views(*sent_folder)).nodes,
            built.0@,
        ),
        forest_wf(built.0@),
        placeholders_have_children(built.0@),
        order_ok(built.0@, built.1@),
        forall|t: int|
            0 <= t < built.0.len() && (#[trigger] built.0@[t]).message is Some ==> built.1@.contains(
                t as usize,
            ),
        bindings_agree(built.0@, views(final(collection)@)),
        build_never_backdates(views(old(collection)@), sent_views(*sent_folder)) ==> dates_monotone(
            built.0@,
        ),
        forall|j: int|
            0 <= j < old(collection).len() && #[trigger] first_occurrence(views(old(collection)@), j)
                ==> bound_here(built.0@, views(final(collection)@), j),
{
    let ghost given = views(collection@);
    let (mut threads, mut id_table) = new_forest();
    build_collection(&mut threads, &mut id_table, collection);
    let ghost threaded = threads@;
    let ghost held = views(collection@);
    proof {
        lemma_bindings_extend(Seq::empty(), threaded, Seq::empty(), held);
    }
    match sent_folder {
        Some(sent) => {
            merge_sent(&mut threads, &mut id_table, collection, sent);
            proof {
                lemma_bindings_extend(threaded, threads@, held, views(collection@));
            }
        },
        None => {},
    }
    let ghost shape = threads@;
    let roots = sort_roots(&threads, harvest_roots(&threads));
    let order = flatten(&mut threads, &roots, collection);
    proof {
        lemma_same_shape_wf(shape, threads@);
        assert forall|t: int|
            0 <= t < threads.len() && (#[trigger] threads@[t]).message is Some implies order@.contains(
            t as usize,
        ) by {
            assert(shape[t].message is Some);
            lemma_roots_cover(shape, t);
        }
        assert forall|j: int|
            0 <= j < given.len() && #[trigger] first_occurrence(given, j) implies bound_here(
            threads@,
            views(collection@),
            j,
        ) by {
            assert(!id_is_bound(empty_state(), given[j].message_id));
            assert(bound_here(threaded, held, j));
            assert(views(collection@)[j] == held[j]);
            let at = held[j].thread->0 as int;
            assert(threaded[at].message is Some);
            assert(shape[at].message == threaded[at].message);
        }
    }
    (threads, order)
}

} // verus!
