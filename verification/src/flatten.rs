//! The flattening walk: the display order of the forest, and the fields of
//! each container that are derived for display.

use crate::arena::same_dates;
use crate::container::Container;
use crate::envelope::{reply_prefix, Envelope, EnvelopeView};
use crate::builder::views;
use crate::forest::{
    depth, forest_wf, lemma_depth_bounded, lemma_lineage, lemma_ranking, ranking_of, same_messages,
    same_shape,
};
use crate::harvest::all_in_arena;
use crate::reach::{covered, lemma_walk_roots_reaches};
use vstd::prelude::*;

verus! {

/// The state of a walk: the arena with the display fields set so far, the
/// display order so far, and the envelope whose subject heads the thread
/// that is being walked, once one has been met.
pub ghost struct Walk {
    pub nodes: Seq<Container>,
    pub order: Seq<usize>,
    pub subject: Option<usize>,
}

/// The state of a walk that an arena, an order and a heading subject make.
pub open spec fn walk_state(nodes: Seq<Container>, order: Seq<usize>, subject: Option<usize>) -> Walk {
    Walk { nodes, order, subject }
}

/// The subjects of a list of envelopes.
pub open spec fn subjects_of(envelopes: Seq<EnvelopeView>) -> Seq<Seq<char>> {
    Seq::new(envelopes.len(), |j: int| envelopes[j].subject)
}

/// Whether a subject is left out of the display below the subject that
/// heads its thread: it is the same, or the same behind the reply prefix.
pub open spec fn suppressed(subject: Seq<char>, head: Seq<char>) -> bool {
    subject == head || subject == reply_prefix() + head
}

/// The parent that a container is drawn under: its parent, unless that one
/// holds no message.
pub open spec fn display_parent_of(shape: Seq<Container>, node: int) -> Option<usize> {
    if shape[node].parent is Some && shape[shape[node].parent->0 as int].message is Some {
        shape[node].parent
    } else {
        None
    }
}

/// The indentation of the children of `node`: one more than its own where
/// it holds a message, and its own where it does not.
pub open spec fn child_indentation(shape: Seq<Container>, node: int, indentation: usize) -> usize {
    if shape[node].message is Some {
        (indentation + 1) as usize
    } else {
        indentation
    }
}

/// The walk after it has stopped at `node`. Every container gets its
/// display parent. One that holds a message gets its indentation and enters
/// the order, unless it is there already; its subject is hidden where the
/// thread has a heading subject that suppresses it, and it becomes the
/// heading one where the thread has none yet.
pub open spec fn visit(
    shape: Seq<Container>,
    subjects: Seq<Seq<char>>,
    w: Walk,
    node: int,
    indentation: usize,
) -> Walk {
    let drawn = Container { display_parent: display_parent_of(shape, node), ..w.nodes[node] };
    match shape[node].message {
        Some(m) => Walk {
            nodes: w.nodes.update(
                node,
                Container {
                    indentation,
                    show_subject: drawn.show_subject && !(w.subject is Some && suppressed(
                        subjects[m as int],
                        subjects[w.subject->0 as int],
                    )),
                    ..drawn
                },
            ),
            order: if w.order.contains(node as usize) {
                w.order
            } else {
                w.order.push(node as usize)
            },
            subject: if w.subject is Some {
                w.subject
            } else {
                Some(m)
            },
        },
        None => Walk { nodes: w.nodes.update(node, drawn), order: w.order, subject: w.subject },
    }
}

/// The walk after `node` and everything below it has been visited, depth
/// first, the children in the order of their list.
pub open spec fn walk(
    shape: Seq<Container>,
    subjects: Seq<Seq<char>>,
    w: Walk,
    node: int,
    indentation: usize,
) -> Walk
    decreases ranking_of(shape).height[node], 1nat,
    when forest_wf(shape) && 0 <= node < shape.len()
{
    let seen = visit(shape, subjects, w, node, indentation);
    if shape[node].first_child is Some {
        proof {
            lemma_ranking(shape);
            assert(shape[node].id == node);
            assert(shape[shape[node].first_child->0 as int].id == shape[node].first_child->0);
        }
        walk_list(
            shape,
            subjects,
            seen,
            shape[node].first_child->0 as int,
            child_indentation(shape, node, indentation),
        )
    } else {
        seen
    }
}

/// The walk after `first` and the siblings behind it have been walked in
/// turn, each with everything below it.
pub open spec fn walk_list(
    shape: Seq<Container>,
    subjects: Seq<Seq<char>>,
    w: Walk,
    first: int,
    indentation: usize,
) -> Walk
    decreases ranking_of(shape).height[first], 2nat,
    when forest_wf(shape) && 0 <= first < shape.len()
{
    let done = walk(shape, subjects, w, first, indentation);
    if shape[first].next_sibling is Some {
        proof {
            lemma_ranking(shape);
            assert(shape[first].id == first);
        }
        walk_list(shape, subjects, done, shape[first].next_sibling->0 as int, indentation)
    } else {
        done
    }
}

/// The walk after the first `count` roots have been walked in order, each
/// as a thread of its own that starts without indentation.
pub open spec fn walk_roots(
    shape: Seq<Container>,
    subjects: Seq<Seq<char>>,
    w: Walk,
    roots: Seq<usize>,
    count: nat,
) -> Walk
    decreases count,
{
    if count == 0 {
        w
    } else {
        let so_far = walk_roots(shape, subjects, w, roots, (count - 1) as nat);
        walk(
            shape,
            subjects,
            Walk { subject: None, ..so_far },
            roots[count - 1] as int,
            0,
        )
    }
}

/// Every message that a container holds stands below `limit` in the
/// collection.
pub open spec fn bound_below(nodes: Seq<Container>, limit: int) -> bool {
    forall|t: int| 0 <= t < nodes.len() && (#[trigger] nodes[t]).message is Some ==> nodes[t].message->0 < limit
}

/// What holds of a walk under way: the arena has kept its shape and its
/// messages, and every message named is in the collection.
pub open spec fn walkable(
    shape: Seq<Container>,
    nodes: Seq<Container>,
    subject: Option<usize>,
    limit: int,
) -> bool {
    &&& forest_wf(shape)
    &&& same_shape(shape, nodes)
    &&& same_messages(shape, nodes)
    &&& same_dates(shape, nodes)
    &&& bound_below(shape, limit)
    &&& subject is Some ==> subject->0 < limit
}

/// What holds of a display order: every entry is a container that holds a
/// message, and no container stands in it twice.
pub open spec fn order_ok(shape: Seq<Container>, order: Seq<usize>) -> bool {
    &&& order.no_duplicates()
    &&& forall|j: int|
        0 <= j < order.len() ==> (#[trigger] order[j]) < shape.len() && shape[order[j] as int].message
            is Some
}

/// Whether the list holds `index`.
pub fn contains_index(list: &Vec<usize>, index: usize) -> (found: bool)
    ensures
        found == list@.contains(index),
{
    let mut j: usize = 0;
    while j < list.len()
        invariant
            j <= list.len(),
            forall|k: int| 0 <= k < j ==> list@[k] != index,
        decreases list.len() - j,
    {
        if list[j] == index {
            return true;
        }
        j = j + 1;
    }
    false
}

/// Stops at one container: sets its display fields and lets it enter the
/// order.
fn visit_node(
    threads: &mut Vec<Container>,
    indentation: usize,
    threaded: &mut Vec<usize>,
    node: usize,
    subject: &mut Option<usize>,
    collection: &Vec<Envelope>,
    Ghost(shape): Ghost<Seq<Container>>,
)
    requires
        walkable(shape, old(threads)@, *old(subject), collection.len() as int),
        order_ok(shape, old(threaded)@),
        node < shape.len(),
    ensures
        walk_state(final(threads)@, final(threaded)@, *final(subject)) == visit(
            shape,
            subjects_of(views(collection@)),
            walk_state(old(threads)@, old(threaded)@, *old(subject)),
            node as int,
            indentation,
        ),
        walkable(shape, final(threads)@, *final(subject), collection.len() as int),
        order_ok(shape, final(threaded)@),
{
    let mut drawn = threads[node];
    proof {
        assert(shape[node as int].id == node);
        assert(threads@[node as int].parent == shape[node as int].parent);
        assert(threads@[node as int].message == shape[node as int].message);
    }
    drawn.display_parent = match drawn.parent {
        Some(up) => {
            proof {
                assert(threads@[up as int].message == shape[up as int].message);
            }
            if threads[up].message.is_some() {
                Some(up)
            } else {
                None
            }
        },
        None => None,
    };
    match drawn.message {
        Some(m) => {
            drawn.set_indentation(indentation);
            match *subject {
                Some(head) => {
                    let own = &collection[m];
                    let heading = &collection[head];
                    if own.same_subject(heading) || own.answers_subject(heading) {
                        drawn.set_show_subject(false);
                    }
                },
                None => {
                    *subject = Some(m);
                },
            }
            if !contains_index(threaded, node) {
                let ghost before = threaded@;
                threaded.push(node);
                proof {
                    assert forall|i: int, j: int|
                        0 <= i < threaded@.len() && 0 <= j < threaded@.len() && i != j implies threaded@[i]
                        != threaded@[j] by {
                        if i < before.len() && j < before.len() {
                            assert(before[i] != before[j]);
                        } else if i < before.len() {
                            assert(before[i] != node);
                        } else {
                            assert(before[j] != node);
                        }
                    }
                }
            }
        },
        None => {},
    }
    threads.set(node, drawn);
}

/// Walks a container and everything below it, depth first.
fn build_threaded(
    threads: &mut Vec<Container>,
    indentation: usize,
    threaded: &mut Vec<usize>,
    node: usize,
    subject: &mut Option<usize>,
    collection: &Vec<Envelope>,
    Ghost(shape): Ghost<Seq<Container>>,
)
    requires
        walkable(shape, old(threads)@, *old(subject), collection.len() as int),
        order_ok(shape, old(threaded)@),
        node < shape.len(),
        indentation <= depth(shape, node as int),
    ensures
        walk_state(final(threads)@, final(threaded)@, *final(subject)) == walk(
            shape,
            subjects_of(views(collection@)),
            walk_state(old(threads)@, old(threaded)@, *old(subject)),
            node as int,
            indentation,
        ),
        walkable(shape, final(threads)@, *final(subject), collection.len() as int),
        order_ok(shape, final(threaded)@),
    decreases ranking_of(shape).height[node as int],
{
    let here = threads[node];
    let size = threads.len();
    proof {
        lemma_ranking(shape);
        lemma_depth_bounded(shape, node as int);
        assert(shape.len() == size);
        assert(indentation < size);
        assert(shape[node as int].id == node);
        assert(threads@[node as int].first_child == shape[node as int].first_child);
        assert(threads@[node as int].message == shape[node as int].message);
    }
    visit_node(threads, indentation, threaded, node, subject, collection, Ghost(shape));
    match here.first_child {
        None => {},
        Some(first) => {
            let below = if here.message.is_some() {
                indentation + 1
            } else {
                indentation
            };
            let ghost seen = walk_state(threads@, threaded@, *subject);
            let ghost subjects = subjects_of(views(collection@));
            let mut cur: usize = first;
            proof {
                assert(shape[first as int].id == first);
            }
            loop
                invariant_except_break
                    walk_list(shape, subjects, seen, first as int, below) == walk_list(
                        shape,
                        subjects,
                        walk_state(threads@, threaded@, *subject),
                        cur as int,
                        below,
                    ),
                invariant
                    walkable(shape, threads@, *subject, collection.len() as int),
                    order_ok(shape, threaded@),
                    subjects == subjects_of(views(collection@)),
                    node < shape.len(),
                    cur < shape.len(),
                    first < shape.len(),
                    shape[cur as int].parent == Some(node),
                    below <= depth(shape, node as int) + 1,
                ensures
                    walk_state(threads@, threaded@, *subject) == walk_list(
                        shape,
                        subjects,
                        seen,
                        first as int,
                        below,
                    ),
                decreases ranking_of(shape).height[cur as int],
            {
                proof {
                    lemma_ranking(shape);
                    lemma_lineage(shape, cur as int);
                    assert(shape[cur as int].id == cur);
                    assert(threads@[cur as int].next_sibling == shape[cur as int].next_sibling);
                }
                let next = threads[cur].next_sibling;
                build_threaded(threads, below, threaded, cur, subject, collection, Ghost(shape));
                match next {
                    Some(sibling) => {
                        proof {
                            assert(shape[sibling as int].id == sibling);
                        }
                        cur = sibling;
                    },
                    None => {
                        break ;
                    },
                }
            }
        },
    }
}

/// Walks the forest from each of the roots in turn, depth first, and
/// returns the containers that hold a message in the order in which the
/// walk met them. On the way each container gets its display parent, and
/// each one that holds a message its indentation and whether its subject
/// is shown. Containers without message take no level of indentation.
pub fn flatten(threads: &mut Vec<Container>, roots: &Vec<usize>, collection: &Vec<Envelope>) -> (order:
    Vec<usize>)
    requires
        forest_wf(old(threads)@),
        all_in_arena(old(threads)@, roots@),
        bound_below(old(threads)@, collection.len() as int),
    ensures
        final(threads)@ == walk_roots(
            old(threads)@,
            subjects_of(views(collection@)),
            walk_state(old(threads)@, Seq::empty(), None),
            roots@,
            roots.len() as nat,
        ).nodes,
        order@ == walk_roots(
            old(threads)@,
            subjects_of(views(collection@)),
            walk_state(old(threads)@, Seq::empty(), None),
            roots@,
            roots.len() as nat,
        ).order,
        same_shape(old(threads)@, final(threads)@),
        same_messages(old(threads)@, final(threads)@),
        same_dates(old(threads)@, final(threads)@),
        order_ok(old(threads)@, order@),
        forall|t: int|
            0 <= t < old(threads).len() && (#[trigger] old(threads)@[t]).message is Some && covered(
                old(threads)@,
                roots@,
                roots.len() as int,
                t,
            ) ==> order@.contains(t as usize),
{
    let ghost shape = threads@;
    let ghost subjects = subjects_of(views(collection@));
    let ghost start = walk_state(shape, Seq::empty(), None);
    let mut order: Vec<usize> = Vec::new();
    let mut subject: Option<usize> = None;
    let mut i: usize = 0;
    while i < roots.len()
        invariant
            i <= roots.len(),
            subjects == subjects_of(views(collection@)),
            all_in_arena(shape, roots@),
            walkable(shape, threads@, None, collection.len() as int),
            order_ok(shape, order@),
            threads@ == walk_roots(shape, subjects, start, roots@, i as nat).nodes,
            order@ == walk_roots(shape, subjects, start, roots@, i as nat).order,
        decreases roots.len() - i,
    {
        subject = None;
        build_threaded(threads, 0, &mut order, roots[i], &mut subject, collection, Ghost(shape));
        i = i + 1;
    }
    let size = threads.len();
    proof {
        assert(shape.len() == size);
        assert forall|t: int|
            0 <= t < shape.len() && (#[trigger] shape[t]).message is Some && covered(
                shape,
                roots@,
                roots.len() as int,
                t,
            ) implies order@.contains(t as usize) by {
            lemma_walk_roots_reaches(shape, subjects, start, roots@, roots.len() as nat, t);
        }
    }
    order
}

} // verus!
