//! Gathering the roots of the forest and ordering them by recency.

use crate::container::Container;
use crate::forest::links_in_range;
use vstd::prelude::*;

verus! {

/// The container that is shown in place of the root `node`: a root without
/// message that has exactly one child gives way to that child.
pub open spec fn shown_root(arena: Seq<Container>, node: int) -> usize {
    if arena[node].message is None && arena[node].first_child is Some
        && arena[arena[node].first_child->0 as int].next_sibling is None {
        arena[node].first_child->0
    } else {
        node as usize
    }
}

/// The roots among the first `count` containers, in arena order, each
/// replaced by the container that is shown for it.
pub open spec fn roots_among(arena: Seq<Container>, count: nat) -> Seq<usize>
    decreases count,
{
    if count == 0 {
        Seq::empty()
    } else if arena[count - 1].parent is None {
        roots_among(arena, (count - 1) as nat).push(shown_root(arena, count - 1))
    } else {
        roots_among(arena, (count - 1) as nat)
    }
}

/// Every entry of the list is an index into the arena.
pub open spec fn all_in_arena(arena: Seq<Container>, list: Seq<usize>) -> bool {
    forall|j: int| 0 <= j < list.len() ==> (#[trigger] list[j]) < arena.len()
}

/// Collects the containers without parent, in the order in which they
/// entered the arena. A root that holds no message and has a single child
/// is replaced by that child.
pub fn harvest_roots(threads: &Vec<Container>) -> (roots: Vec<usize>)
    requires
        links_in_range(threads@),
    ensures
        roots@ == roots_among(threads@, threads.len() as nat),
        all_in_arena(threads@, roots@),
{
    let mut roots: Vec<usize> = Vec::new();
    let mut i: usize = 0;
    while i < threads.len()
        invariant
            i <= threads.len(),
            links_in_range(threads@),
            roots@ == roots_among(threads@, i as nat),
            all_in_arena(threads@, roots@),
        decreases threads.len() - i,
    {
        let node = threads[i];
        proof {
            assert(threads@[i as int].id == i);
        }
        if node.parent.is_none() {
            let mut shown: usize = i;
            if node.message.is_none() {
                match node.first_child {
                    Some(first) => {
                        if threads[first].next_sibling.is_none() {
                            shown = first;
                        }
                    },
                    None => {},
                }
            }
            roots.push(shown);
        }
        i = i + 1;
    }
    roots
}

/// The list `sorted` with `node` put behind every entry that is at least
/// as recent as `node`.
pub open spec fn insert_by_date(arena: Seq<Container>, sorted: Seq<usize>, node: usize) -> Seq<usize>
    decreases sorted.len(),
{
    if sorted.len() == 0 {
        seq![node]
    } else if arena[sorted.last() as int].date >= arena[node as int].date {
        sorted.push(node)
    } else {
        insert_by_date(arena, sorted.drop_last(), node).push(sorted.last())
    }
}

/// The list ordered by date, most recent first; entries of the same date
/// keep their order.
pub open spec fn sorted_by_date(arena: Seq<Container>, list: Seq<usize>) -> Seq<usize>
    decreases list.len(),
{
    if list.len() == 0 {
        Seq::empty()
    } else {
        insert_by_date(arena, sorted_by_date(arena, list.drop_last()), list.last())
    }
}

/// Where `node` goes: behind the entry at `at - 1`, which is at least as
/// recent, and before the entries from `at` on, which are all older.
pub proof fn lemma_insert_at(arena: Seq<Container>, sorted: Seq<usize>, node: usize, at: int)
    requires
        0 <= at <= sorted.len(),
        forall|j: int| at <= j < sorted.len() ==> arena[#[trigger] sorted[j] as int].date < arena[node as int].date,
        at > 0 ==> arena[sorted[at - 1] as int].date >= arena[node as int].date,
    ensures
        insert_by_date(arena, sorted, node) == sorted.insert(at, node),
    decreases sorted.len(),
{
    if sorted.len() == 0 {
        assert(seq![node] =~= sorted.insert(at, node));
    } else if at == sorted.len() {
        assert(sorted.push(node) =~= sorted.insert(at, node));
    } else {
        let rest = sorted.drop_last();
        assert(arena[sorted[sorted.len() - 1] as int].date < arena[node as int].date);
        assert forall|j: int| at <= j < rest.len() implies arena[#[trigger] rest[j] as int].date
            < arena[node as int].date by {
            assert(rest[j] == sorted[j]);
        }
        lemma_insert_at(arena, rest, node, at);
        assert(rest.insert(at, node).push(sorted.last()) =~= sorted.insert(at, node));
    }
}

/// Whether the list runs from the most recent entry to the least recent.
pub open spec fn descending(arena: Seq<Container>, list: Seq<usize>) -> bool {
    forall|i: int, j: int|
        0 <= i < j < list.len() ==> arena[#[trigger] list[i] as int].date >= arena[#[trigger] list[j] as int].date
}

/// Every entry of the list is at least as recent as `low`.
pub open spec fn all_since(arena: Seq<Container>, list: Seq<usize>, low: u64) -> bool {
    forall|i: int| 0 <= i < list.len() ==> arena[#[trigger] list[i] as int].date >= low
}

/// The entries of the list that have the date `date`, in their order.
pub open spec fn dated(arena: Seq<Container>, list: Seq<usize>, date: u64) -> Seq<usize>
    decreases list.len(),
{
    if list.len() == 0 {
        Seq::empty()
    } else if arena[list.last() as int].date == date {
        dated(arena, list.drop_last(), date).push(list.last())
    } else {
        dated(arena, list.drop_last(), date)
    }
}

/// How often `node` stands in the list.
pub open spec fn count_of(list: Seq<usize>, node: usize) -> nat
    decreases list.len(),
{
    if list.len() == 0 {
        0
    } else if list.last() == node {
        count_of(list.drop_last(), node) + 1
    } else {
        count_of(list.drop_last(), node)
    }
}

proof fn lemma_insert_since(arena: Seq<Container>, sorted: Seq<usize>, node: usize, low: u64)
    requires
        all_since(arena, sorted, low),
        arena[node as int].date >= low,
    ensures
        all_since(arena, insert_by_date(arena, sorted, node), low),
    decreases sorted.len(),
{
    if sorted.len() > 0 && arena[sorted.last() as int].date < arena[node as int].date {
        let rest = sorted.drop_last();
        assert forall|i: int| 0 <= i < rest.len() implies arena[#[trigger] rest[i] as int].date
            >= low by {
            assert(rest[i] == sorted[i]);
        }
        lemma_insert_since(arena, rest, node, low);
    }
}

proof fn lemma_insert_descending(arena: Seq<Container>, sorted: Seq<usize>, node: usize)
    requires
        descending(arena, sorted),
    ensures
        descending(arena, insert_by_date(arena, sorted, node)),
    decreases sorted.len(),
{
    let after = insert_by_date(arena, sorted, node);
    if sorted.len() == 0 {
    } else if arena[sorted.last() as int].date >= arena[node as int].date {
        assert forall|i: int, j: int| 0 <= i < j < after.len() implies arena[#[trigger] after[i] as int].date
            >= arena[#[trigger] after[j] as int].date by {
            if j == sorted.len() {
                if i < sorted.len() - 1 {
                    assert(arena[sorted[i] as int].date >= arena[sorted[sorted.len() - 1] as int].date);
                }
            } else {
                assert(arena[sorted[i] as int].date >= arena[sorted[j] as int].date);
            }
        }
    } else {
        let rest = sorted.drop_last();
        let last = sorted.last();
        let low = arena[last as int].date;
        assert forall|i: int, j: int| 0 <= i < j < rest.len() implies arena[#[trigger] rest[i] as int].date
            >= arena[#[trigger] rest[j] as int].date by {
            assert(arena[sorted[i] as int].date >= arena[sorted[j] as int].date);
        }
        assert forall|i: int| 0 <= i < rest.len() implies arena[#[trigger] rest[i] as int].date
            >= low by {
            assert(arena[sorted[i] as int].date >= arena[sorted[sorted.len() - 1] as int].date);
        }
        lemma_insert_descending(arena, rest, node);
        lemma_insert_since(arena, rest, node, low);
        let inner = insert_by_date(arena, rest, node);
        assert forall|i: int, j: int| 0 <= i < j < after.len() implies arena[#[trigger] after[i] as int].date
            >= arena[#[trigger] after[j] as int].date by {
            if j == inner.len() {
                assert(arena[inner[i] as int].date >= low);
            } else {
                assert(arena[inner[i] as int].date >= arena[inner[j] as int].date);
            }
        }
    }
}

proof fn lemma_insert_dated(arena: Seq<Container>, sorted: Seq<usize>, node: usize, date: u64)
    ensures
        dated(arena, insert_by_date(arena, sorted, node), date) == if arena[node as int].date
            == date {
            dated(arena, sorted, date).push(node)
        } else {
            dated(arena, sorted, date)
        },
    decreases sorted.len(),
{
    let after = insert_by_date(arena, sorted, node);
    if sorted.len() == 0 {
        assert(after.last() == node);
        assert(after.drop_last() =~= sorted);
    } else if arena[sorted.last() as int].date >= arena[node as int].date {
        assert(after.last() == node);
        assert(after.drop_last() =~= sorted);
    } else {
        let rest = sorted.drop_last();
        lemma_insert_dated(arena, rest, node, date);
        let inner = insert_by_date(arena, rest, node);
        assert(after.last() == sorted.last());
        assert(after.drop_last() =~= inner);
    }
}

proof fn lemma_insert_count(arena: Seq<Container>, sorted: Seq<usize>, node: usize, other: usize)
    ensures
        count_of(insert_by_date(arena, sorted, node), other) == count_of(sorted, other) + (if node
            == other {
            1nat
        } else {
            0nat
        }),
    decreases sorted.len(),
{
    let after = insert_by_date(arena, sorted, node);
    if sorted.len() == 0 {
        assert(after.last() == node);
        assert(after.drop_last() =~= sorted);
    } else if arena[sorted.last() as int].date >= arena[node as int].date {
        assert(after.last() == node);
        assert(after.drop_last() =~= sorted);
    } else {
        let rest = sorted.drop_last();
        lemma_insert_count(arena, rest, node, other);
        let inner = insert_by_date(arena, rest, node);
        assert(after.last() == sorted.last());
        assert(after.drop_last() =~= inner);
    }
}

/// The ordered list runs from the most recent entry to the least recent.
pub proof fn law_sorted_is_descending(arena: Seq<Container>, list: Seq<usize>)
    ensures
        descending(arena, sorted_by_date(arena, list)),
    decreases list.len(),
{
    if list.len() > 0 {
        law_sorted_is_descending(arena, list.drop_last());
        lemma_insert_descending(arena, sorted_by_date(arena, list.drop_last()), list.last());
    }
}

/// Ordering is stable: the entries of one date stand in the ordered list
/// as they stood in the list.
pub proof fn law_sorted_is_stable(arena: Seq<Container>, list: Seq<usize>, date: u64)
    ensures
        dated(arena, sorted_by_date(arena, list), date) == dated(arena, list, date),
    decreases list.len(),
{
    if list.len() > 0 {
        law_sorted_is_stable(arena, list.drop_last(), date);
        lemma_insert_dated(arena, sorted_by_date(arena, list.drop_last()), list.last(), date);
    }
}

/// Ordering neither adds nor drops an entry: each stands in the ordered
/// list as often as in the list.
pub proof fn law_sorted_keeps_entries(arena: Seq<Container>, list: Seq<usize>, node: usize)
    ensures
        count_of(sorted_by_date(arena, list), node) == count_of(list, node),
    decreases list.len(),
{
    if list.len() > 0 {
        law_sorted_keeps_entries(arena, list.drop_last(), node);
        lemma_insert_count(arena, sorted_by_date(arena, list.drop_last()), list.last(), node);
    }
}

/// The list read from its end to its start.
pub open spec fn backwards(list: Seq<usize>) -> Seq<usize> {
    Seq::new(list.len(), |j: int| list[list.len() - 1 - j])
}

proof fn lemma_backwards_insert(list: Seq<usize>, node: usize, at: int)
    requires
        0 <= at <= list.len(),
    ensures
        backwards(list.insert(at, node)) == backwards(list).insert(list.len() - at, node),
{
    let size = list.len() as int;
    let grown = list.insert(at, node);
    let target = backwards(list).insert(size - at, node);
    assert(backwards(grown).len() == target.len());
    assert forall|j: int| 0 <= j < size + 1 implies backwards(grown)[j] == target[j] by {
        assert(backwards(grown)[j] == grown[size - j]);
        if j < size - at {
            assert(target[j] == backwards(list)[j]);
            assert(grown[size - j] == list[size - j - 1]);
        } else if j > size - at {
            assert(target[j] == backwards(list)[j - 1]);
            assert(grown[size - j] == list[size - j]);
        } else {
            assert(grown[at] == node);
        }
    }
    assert(backwards(grown) =~= target);
}

proof fn lemma_rising_older(arena: Seq<Container>, rising: Seq<usize>, date: u64, at: int, j: int)
    requires
        descending(arena, backwards(rising)),
        0 <= j < at <= rising.len(),
        arena[rising[at - 1] as int].date < date,
    ensures
        arena[rising[j] as int].date < date,
{
    let size = rising.len() as int;
    let falling = backwards(rising);
    assert(falling[size - at] == rising[at - 1]);
    assert(falling[size - 1 - j] == rising[j]);
    if j < at - 1 {
        assert(arena[falling[size - at] as int].date >= arena[falling[size - 1 - j] as int].date);
    }
}

/// Where `node` goes in a list that is kept in rising order: before the
/// entries from `at` on, which are at least as recent, and behind the one
/// at `at - 1`, which is older. Read backwards, the list is then the one
/// that inserting by date gives.
proof fn lemma_insert_rising(arena: Seq<Container>, rising: Seq<usize>, node: usize, at: int)
    requires
        descending(arena, backwards(rising)),
        0 <= at <= rising.len(),
        forall|j: int| at <= j < rising.len() ==> arena[#[trigger] rising[j] as int].date >= arena[node as int].date,
        at > 0 ==> arena[rising[at - 1] as int].date < arena[node as int].date,
    ensures
        backwards(rising.insert(at, node)) == insert_by_date(arena, backwards(rising), node),
{
    let size = rising.len() as int;
    let falling = backwards(rising);
    let date = arena[node as int].date;
    assert forall|j: int| size - at <= j < size implies arena[#[trigger] falling[j] as int].date
        < date by {
        assert(falling[j] == rising[size - 1 - j]);
        lemma_rising_older(arena, rising, date, at, size - 1 - j);
    }
    if size - at > 0 {
        assert(falling[size - at - 1] == rising[at]);
    }
    lemma_insert_at(arena, falling, node, size - at);
    lemma_backwards_insert(rising, node, at);
}

/// Orders the roots by the date of their containers, most recent first.
/// Roots of the same date keep the order that they had.
pub fn sort_roots(threads: &Vec<Container>, roots: Vec<usize>) -> (sorted: Vec<usize>)
    requires
        all_in_arena(threads@, roots@),
    ensures
        sorted@ == sorted_by_date(threads@, roots@),
        all_in_arena(threads@, sorted@),
{
    // The list is kept in rising order, so that a root that is more recent
    // than all before it, as most are, goes to the end.
    let mut rising: Vec<usize> = Vec::new();
    let mut i: usize = 0;
    assert(roots@.take(0) =~= Seq::<usize>::empty());
    assert(backwards(rising@) =~= Seq::<usize>::empty());
    while i < roots.len()
        invariant
            i <= roots.len(),
            all_in_arena(threads@, roots@),
            backwards(rising@) == sorted_by_date(threads@, roots@.take(i as int)),
            all_in_arena(threads@, rising@),
            rising.len() == i,
        decreases roots.len() - i,
    {
        let node = roots[i];
        let date = threads[node].date;
        let mut at: usize = rising.len();
        while at > 0 && threads[rising[at - 1]].date >= date
            invariant
                at <= rising.len(),
                all_in_arena(threads@, rising@),
                node < threads.len(),
                date == threads@[node as int].date,
                forall|j: int| at <= j < rising.len() ==> threads@[#[trigger] rising@[j] as int].date >= date,
            decreases at,
        {
            at = at - 1;
        }
        proof {
            law_sorted_is_descending(threads@, roots@.take(i as int));
            lemma_insert_rising(threads@, rising@, node, at as int);
            assert(roots@.take(i + 1).drop_last() =~= roots@.take(i as int));
            assert forall|j: int| 0 <= j < rising@.insert(at as int, node).len() implies (#[trigger] rising@.insert(
                at as int,
                node,
            )[j]) < threads.len() by {
                if j < at {
                    assert(rising@.insert(at as int, node)[j] == rising@[j]);
                } else if j > at {
                    assert(rising@.insert(at as int, node)[j] == rising@[j - 1]);
                }
            }
        }
        rising.insert(at, node);
        i = i + 1;
    }
    assert(roots@.take(roots.len() as int) =~= roots@);
    let mut sorted: Vec<usize> = Vec::new();
    let size = rising.len();
    let mut k: usize = 0;
    while k < size
        invariant
            k <= size,
            size == rising.len(),
            sorted.len() == k,
            all_in_arena(threads@, rising@),
            forall|j: int| 0 <= j < k ==> sorted@[j] == rising@[size - 1 - j],
        decreases size - k,
    {
        sorted.push(rising[size - 1 - k]);
        k = k + 1;
    }
    assert(sorted@ =~= backwards(rising@));
    sorted
}

} // verus!
