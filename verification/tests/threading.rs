use fnv::FnvHashMap;
use melib::arena::{link, propagate_date, unlink};
use melib::builder::{build_collection, build_threads, get_or_create, new_forest};
use melib::container::Container;
use melib::envelope::Envelope;
use melib::flatten::flatten;
use melib::harvest::{harvest_roots, sort_roots};

fn mail(id: &str, references: &[&str], date: u64, subject: &str) -> Envelope {
    let in_reply_to = references.last().map(|r| r.to_string()).unwrap_or_default();
    Envelope::new(
        id.to_string(),
        references.iter().map(|r| r.to_string()).collect(),
        in_reply_to,
        date,
        subject.to_string(),
    )
}

fn container_of(collection: &[Envelope], threads: &[Container], at: usize) -> Container {
    threads[collection[at].thread().unwrap()]
}

#[test]
fn linear_chain_has_one_root_and_rising_indentation() {
    let mut collection = vec![
        mail("M1", &[], 10, "hello"),
        mail("M2", &["M1"], 20, "Re: hello"),
        mail("M3", &["M1", "M2"], 30, "Re: hello"),
    ];
    let (threads, order) = build_threads(&mut collection, &None);
    assert_eq!(threads.len(), 3);
    let roots: Vec<&Container> = threads.iter().filter(|c| !c.has_parent()).collect();
    assert_eq!(roots.len(), 1);
    assert_eq!(roots[0].message(), Some(0));
    assert_eq!(order.len(), 3);
    let shown: Vec<Option<usize>> = order.iter().map(|&i| threads[i].message()).collect();
    assert_eq!(shown, vec![Some(0), Some(1), Some(2)]);
    let indentation: Vec<usize> = order.iter().map(|&i| threads[i].indentation()).collect();
    assert_eq!(indentation, vec![0, 1, 2]);
    let m1 = container_of(&collection, &threads, 0);
    let m2 = container_of(&collection, &threads, 1);
    let m3 = container_of(&collection, &threads, 2);
    assert_eq!(m2.parent(), collection[0].thread());
    assert_eq!(m3.parent(), collection[1].thread());
    assert_eq!(m1.first_child(), collection[1].thread());
    assert_eq!(m2.first_child(), collection[2].thread());
    assert!(!m3.has_children());
    assert_eq!(m1.date(), 30);
    assert_eq!(m2.date(), 30);
    assert_eq!(m3.date(), 30);
}

#[test]
fn reply_subjects_are_hidden_below_the_heading_one() {
    let mut collection = vec![
        mail("M1", &[], 10, "hello"),
        mail("M2", &["M1"], 20, "Re: hello"),
        mail("M3", &["M2"], 30, "hello"),
        mail("M4", &["M3"], 40, "something else"),
        mail("M5", &["M4"], 50, "Re: Re: hello"),
    ];
    let (threads, _) = build_threads(&mut collection, &None);
    let shown: Vec<bool> = (0..5)
        .map(|i| container_of(&collection, &threads, i).show_subject())
        .collect();
    assert_eq!(shown, vec![true, false, false, true, true]);
}

#[test]
fn missing_ancestor_gets_a_placeholder_and_its_only_child_is_promoted() {
    let mut collection = vec![
        mail("M2", &["M0"], 20, "about M0"),
        mail("M1", &[], 10, "alone"),
    ];
    let (threads, order) = build_threads(&mut collection, &None);
    assert_eq!(threads.len(), 3);
    let placeholders: Vec<&Container> = threads.iter().filter(|c| !c.has_message()).collect();
    assert_eq!(placeholders.len(), 1);
    let hole = placeholders[0];
    assert!(!hole.has_parent());
    assert_eq!(hole.first_child(), collection[0].thread());
    let m2 = container_of(&collection, &threads, 0);
    assert!(!m2.has_sibling());
    assert_eq!(m2.parent(), Some(threads.iter().position(|c| !c.has_message()).unwrap()));
    assert_eq!(m2.display_parent(), None);
    let m1 = container_of(&collection, &threads, 1);
    assert!(!m1.has_parent());
    assert!(!m1.has_children());
    let roots = sort_roots(&threads, harvest_roots(&threads));
    assert_eq!(roots, vec![collection[0].thread().unwrap(), collection[1].thread().unwrap()]);
    assert_eq!(order, roots);
    assert_eq!(m2.indentation(), 0);
    assert_eq!(m1.indentation(), 0);
}

#[test]
fn placeholder_with_two_children_stays_the_root() {
    let mut collection = vec![
        mail("A", &["gone"], 10, "first"),
        mail("B", &["gone"], 20, "second"),
    ];
    let (threads, order) = build_threads(&mut collection, &None);
    assert_eq!(threads.len(), 3);
    let hole = threads.iter().position(|c| !c.has_message()).unwrap();
    let roots = harvest_roots(&threads);
    assert_eq!(roots, vec![hole]);
    assert_eq!(threads[hole].first_child(), collection[0].thread());
    let a = container_of(&collection, &threads, 0);
    let b = container_of(&collection, &threads, 1);
    assert_eq!(a.next_sibling(), collection[1].thread());
    assert!(!b.has_sibling());
    assert_eq!(threads[hole].date(), 20);
    assert_eq!(order, vec![collection[0].thread().unwrap(), collection[1].thread().unwrap()]);
    assert_eq!(a.indentation(), 0);
    assert_eq!(b.indentation(), 0);
    assert!(a.show_subject());
    assert!(b.show_subject());
    assert_eq!(a.display_parent(), None);
}

#[test]
fn duplicate_message_id_binds_only_the_first() {
    let mut collection = vec![
        mail("dup", &[], 10, "one"),
        mail("dup", &[], 20, "two"),
    ];
    let (threads, order) = build_threads(&mut collection, &None);
    assert_eq!(threads.len(), 1);
    assert_eq!(threads[0].message(), Some(0));
    assert_eq!(threads[0].date(), 10);
    assert_eq!(collection[0].thread(), Some(0));
    assert_eq!(collection[1].thread(), None);
    assert_eq!(order, vec![0]);
}

#[test]
fn link_that_would_close_a_circle_is_refused() {
    let mut collection = vec![
        mail("M1", &["M3"], 10, "a"),
        mail("M3", &["M1"], 20, "b"),
    ];
    let (threads, order) = build_threads(&mut collection, &None);
    assert_eq!(threads.len(), 2);
    let m1 = container_of(&collection, &threads, 0);
    let m3 = container_of(&collection, &threads, 1);
    assert_eq!(m1.parent(), collection[1].thread());
    assert_eq!(m3.parent(), None);
    assert_eq!(m3.first_child(), collection[0].thread());
    assert!(!m1.has_children());
    assert!(!m1.has_sibling());
    assert!(!m3.has_sibling());
    let with_parent = threads.iter().filter(|c| c.has_parent()).count();
    assert_eq!(with_parent, 1);
    assert_eq!(order, vec![collection[1].thread().unwrap(), collection[0].thread().unwrap()]);
}

#[test]
fn self_reference_links_nothing() {
    let mut collection = vec![mail("M1", &["M1"], 10, "a")];
    let (threads, order) = build_threads(&mut collection, &None);
    assert_eq!(threads.len(), 1);
    assert!(!threads[0].has_parent());
    assert!(!threads[0].has_children());
    assert_eq!(order, vec![0]);
}

#[test]
fn only_the_most_recent_reference_is_linked() {
    let mut collection = vec![mail("M3", &["M1", "M2"], 10, "a")];
    let (threads, _) = build_threads(&mut collection, &None);
    assert_eq!(threads.len(), 2);
    let m3 = container_of(&collection, &threads, 0);
    let hole = m3.parent().unwrap();
    assert!(!threads[hole].has_message());
    assert!(!threads[hole].has_parent());
}

#[test]
fn roots_are_ordered_by_date_and_ties_keep_their_order() {
    let mut collection = vec![
        mail("a", &[], 10, "a"),
        mail("b", &[], 30, "b"),
        mail("c", &[], 10, "c"),
        mail("d", &[], 20, "d"),
        mail("e", &[], 30, "e"),
    ];
    let (threads, order) = build_threads(&mut collection, &None);
    let shown: Vec<usize> = order.iter().map(|&i| threads[i].message().unwrap()).collect();
    assert_eq!(shown, vec![1, 4, 3, 0, 2]);
}

#[test]
fn rebuilding_gives_the_same_forest() {
    let make = || {
        vec![
            mail("M2", &["M0"], 20, "x"),
            mail("M1", &[], 10, "y"),
            mail("M3", &["M2"], 30, "Re: x"),
            mail("M4", &["M0"], 5, "z"),
        ]
    };
    let mut first = make();
    let mut second = make();
    let (threads_a, order_a) = build_threads(&mut first, &None);
    let (threads_b, order_b) = build_threads(&mut second, &None);
    assert_eq!(order_a, order_b);
    assert_eq!(threads_a.len(), threads_b.len());
    for (a, b) in threads_a.iter().zip(threads_b.iter()) {
        assert_eq!(a.message(), b.message());
        assert_eq!(a.parent(), b.parent());
        assert_eq!(a.first_child(), b.first_child());
        assert_eq!(a.next_sibling(), b.next_sibling());
        assert_eq!(a.date(), b.date());
        assert_eq!(a.indentation(), b.indentation());
        assert_eq!(a.show_subject(), b.show_subject());
    }
    let mut again = first;
    let (threads_c, order_c) = build_threads(&mut again, &None);
    assert_eq!(order_a, order_c);
    for (a, c) in threads_a.iter().zip(threads_c.iter()) {
        assert_eq!(a.parent(), c.parent());
        assert_eq!(a.first_child(), c.first_child());
        assert_eq!(a.next_sibling(), c.next_sibling());
    }
}

#[test]
fn every_parent_is_at_least_as_recent_as_its_children() {
    let mut collection = vec![
        mail("M1", &[], 10, "a"),
        mail("M2", &["M1"], 50, "b"),
        mail("M3", &["M1"], 20, "c"),
        mail("M4", &["M3"], 70, "d"),
        mail("M5", &["M9"], 5, "e"),
    ];
    let (threads, _) = build_threads(&mut collection, &None);
    for c in threads.iter() {
        if let Some(p) = c.parent() {
            assert!(threads[p].date() >= c.date());
        }
    }
    assert_eq!(container_of(&collection, &threads, 0).date(), 70);
    assert_eq!(container_of(&collection, &threads, 2).date(), 70);
    assert_eq!(container_of(&collection, &threads, 1).date(), 50);
}

#[test]
fn an_older_mail_that_fills_a_placeholder_takes_its_own_date() {
    let mut collection = vec![
        mail("M2", &["M1"], 10, "reply"),
        mail("M1", &[], 5, "first"),
    ];
    let (threads, _) = build_threads(&mut collection, &None);
    assert_eq!(container_of(&collection, &threads, 1).date(), 5);
    assert_eq!(container_of(&collection, &threads, 0).date(), 10);
}

#[test]
fn every_bound_envelope_names_the_container_that_holds_it() {
    let mut collection = vec![
        mail("M1", &[], 10, "a"),
        mail("M2", &["M1"], 50, "b"),
        mail("M1", &[], 20, "c"),
        mail("M4", &["M3"], 70, "d"),
    ];
    let (threads, _) = build_threads(&mut collection, &None);
    for (t, c) in threads.iter().enumerate() {
        if let Some(m) = c.message() {
            assert_eq!(collection[m].thread(), Some(t));
        }
    }
    let bound: Vec<usize> = threads.iter().filter_map(|c| c.message()).collect();
    assert_eq!(bound.len(), 3);
    assert!(bound.contains(&0) && bound.contains(&1) && bound.contains(&3));
    assert_eq!(collection[2].thread(), None);
}

#[test]
fn sent_mail_that_answers_a_thread_is_merged() {
    let mut collection = vec![mail("M1", &[], 10, "question")];
    let sent = vec![
        mail("S1", &["M1"], 20, "Re: question"),
        mail("S2", &["elsewhere"], 30, "unrelated"),
        mail("M1", &[], 40, "same id"),
    ];
    let (threads, order) = build_threads(&mut collection, &Some(sent));
    assert_eq!(collection.len(), 2);
    assert_eq!(collection[1].message_id_raw(), "S1");
    assert_eq!(threads.len(), 2);
    let s1 = container_of(&collection, &threads, 1);
    assert_eq!(s1.message(), Some(1));
    assert_eq!(s1.parent(), collection[0].thread());
    assert_eq!(container_of(&collection, &threads, 0).date(), 20);
    assert_eq!(order, vec![collection[0].thread().unwrap(), collection[1].thread().unwrap()]);
    assert_eq!(s1.indentation(), 1);
    assert!(!s1.show_subject());
}

#[test]
fn sent_mail_fills_a_placeholder() {
    let mut collection = vec![mail("M2", &["S0"], 10, "Re: mine")];
    let sent = vec![mail("S0", &[], 5, "mine")];
    let (threads, order) = build_threads(&mut collection, &Some(sent));
    assert_eq!(collection.len(), 2);
    assert_eq!(threads.len(), 2);
    let s0 = container_of(&collection, &threads, 1);
    assert_eq!(s0.message(), Some(1));
    assert_eq!(s0.first_child(), collection[0].thread());
    assert_eq!(s0.date(), 5);
    assert_eq!(order, vec![collection[1].thread().unwrap(), collection[0].thread().unwrap()]);
}

#[test]
fn absent_sent_folder_is_skipped() {
    let mut collection = vec![mail("M1", &[], 10, "a")];
    let (threads, order) = build_threads(&mut collection, &None);
    assert_eq!(collection.len(), 1);
    assert_eq!(threads.len(), 1);
    assert_eq!(order, vec![0]);
}

#[test]
fn empty_collection_gives_an_empty_forest() {
    let mut collection: Vec<Envelope> = Vec::new();
    let (threads, order) = build_threads(&mut collection, &Some(vec![mail("S", &["x"], 1, "s")]));
    assert!(threads.is_empty());
    assert!(order.is_empty());
    assert!(collection.is_empty());
}

#[test]
fn get_or_create_reuses_what_the_index_has() {
    let mut threads: Vec<Container> = Vec::new();
    let mut ids: FnvHashMap<String, usize> = FnvHashMap::default();
    let a = get_or_create(&mut threads, &mut ids, "a");
    let b = get_or_create(&mut threads, &mut ids, "b");
    let again = get_or_create(&mut threads, &mut ids, "a");
    assert_eq!((a, b, again), (0, 1, 0));
    assert_eq!(threads.len(), 2);
    assert!(!threads[0].has_message());
    assert_eq!(ids.get("b"), Some(&1));
}

#[test]
fn link_appends_in_order_and_refuses_circles() {
    let mut threads: Vec<Container> = Vec::new();
    let mut ids: FnvHashMap<String, usize> = FnvHashMap::default();
    for id in ["p", "a", "b", "c"] {
        get_or_create(&mut threads, &mut ids, id);
    }
    link(&mut threads, 1, 0);
    link(&mut threads, 2, 0);
    link(&mut threads, 3, 2);
    assert_eq!(threads[0].first_child(), Some(1));
    assert_eq!(threads[1].next_sibling(), Some(2));
    assert_eq!(threads[2].next_sibling(), None);
    assert_eq!(threads[2].first_child(), Some(3));
    assert_eq!(threads[3].parent(), Some(2));
    let before: Vec<(Option<usize>, Option<usize>, Option<usize>)> =
        threads.iter().map(|c| (c.parent(), c.first_child(), c.next_sibling())).collect();
    link(&mut threads, 0, 3);
    link(&mut threads, 0, 0);
    let after: Vec<(Option<usize>, Option<usize>, Option<usize>)> =
        threads.iter().map(|c| (c.parent(), c.first_child(), c.next_sibling())).collect();
    assert_eq!(before, after);
    assert!(threads[0].is_descendant(&threads, &threads[3]));
    assert!(!threads[3].is_descendant(&threads, &threads[0]));
    assert!(!threads[1].is_descendant(&threads, &threads[2]));
}

#[test]
fn propagate_date_raises_every_ancestor_and_nothing_else() {
    let mut threads: Vec<Container> = Vec::new();
    let mut ids: FnvHashMap<String, usize> = FnvHashMap::default();
    for id in ["root", "mid", "leaf", "other"] {
        get_or_create(&mut threads, &mut ids, id);
    }
    link(&mut threads, 1, 0);
    link(&mut threads, 2, 1);
    link(&mut threads, 3, 0);
    propagate_date(&mut threads, 0, 100);
    propagate_date(&mut threads, 1, 50);
    let dates: Vec<u64> = threads.iter().map(|c| c.date()).collect();
    assert_eq!(dates, vec![100, 50, 0, 0]);
    propagate_date(&mut threads, 2, 70);
    let dates: Vec<u64> = threads.iter().map(|c| c.date()).collect();
    assert_eq!(dates, vec![100, 70, 70, 0]);
}

#[test]
fn build_collection_extends_a_given_forest() {
    let (mut threads, mut ids) = new_forest();
    assert!(threads.is_empty());
    assert!(ids.is_empty());
    let mut first = vec![mail("M1", &[], 10, "a")];
    build_collection(&mut threads, &mut ids, &mut first);
    assert_eq!(threads.len(), 1);
    assert_eq!(first[0].thread(), Some(0));
    let mut second = vec![mail("M2", &["M1"], 20, "Re: a"), mail("M1", &[], 30, "again")];
    build_collection(&mut threads, &mut ids, &mut second);
    assert_eq!(threads.len(), 2);
    assert_eq!(second[0].thread(), Some(1));
    assert_eq!(second[1].thread(), None);
    assert_eq!(threads[1].parent(), Some(0));
    assert_eq!(threads[0].date(), 20);
    assert_eq!(ids.get("M2"), Some(&1));
    let roots = sort_roots(&threads, harvest_roots(&threads));
    assert_eq!(roots, vec![0]);
    let order = flatten(&mut threads, &roots, &first);
    assert_eq!(order, vec![0, 1]);
}

#[test]
fn containers_that_hold_the_same_message_are_equal() {
    let a = Container::new(0, Some(3), 10);
    let b = Container::new(1, Some(3), 20);
    let c = Container::new(0, None, 10);
    let d = Container::new(0, Some(4), 10);
    assert!(a == b);
    assert!(a == c);
    assert!(a != d);
    assert!(b != c);
}

#[test]
fn last_link_wins_and_the_child_leaves_its_old_list() {
    let mut threads: Vec<Container> = Vec::new();
    let mut ids: FnvHashMap<String, usize> = FnvHashMap::default();
    for id in ["p", "q", "a", "b", "c"] {
        get_or_create(&mut threads, &mut ids, id);
    }
    link(&mut threads, 2, 0);
    link(&mut threads, 3, 0);
    link(&mut threads, 4, 0);
    link(&mut threads, 3, 1);
    assert_eq!(threads[3].parent(), Some(1));
    assert_eq!(threads[3].next_sibling(), None);
    assert_eq!(threads[1].first_child(), Some(3));
    assert_eq!(threads[0].first_child(), Some(2));
    assert_eq!(threads[2].next_sibling(), Some(4));
    assert_eq!(threads[4].next_sibling(), None);
    link(&mut threads, 2, 1);
    assert_eq!(threads[0].first_child(), Some(4));
    assert_eq!(threads[1].first_child(), Some(3));
    assert_eq!(threads[3].next_sibling(), Some(2));
    assert_eq!(threads[2].parent(), Some(1));
    link(&mut threads, 4, 0);
    assert_eq!(threads[0].first_child(), Some(4));
    assert_eq!(threads[4].parent(), Some(0));
    link(&mut threads, 1, 3);
    assert_eq!(threads[1].parent(), None);
    let in_edges = |threads: &Vec<Container>, node: usize| {
        threads
            .iter()
            .filter(|c| c.first_child() == Some(node) || c.next_sibling() == Some(node))
            .count()
    };
    for node in 0..threads.len() {
        let expected = if threads[node].has_parent() { 1 } else { 0 };
        assert_eq!(in_edges(&threads, node), expected);
    }
}

#[test]
fn unlink_makes_a_root_and_closes_the_list() {
    let mut threads: Vec<Container> = Vec::new();
    let mut ids: FnvHashMap<String, usize> = FnvHashMap::default();
    for id in ["p", "a", "b", "c"] {
        get_or_create(&mut threads, &mut ids, id);
    }
    link(&mut threads, 1, 0);
    link(&mut threads, 2, 0);
    link(&mut threads, 3, 0);
    unlink(&mut threads, 2);
    assert_eq!(threads[2].parent(), None);
    assert_eq!(threads[2].next_sibling(), None);
    assert_eq!(threads[1].next_sibling(), Some(3));
    unlink(&mut threads, 1);
    assert_eq!(threads[0].first_child(), Some(3));
    unlink(&mut threads, 3);
    assert_eq!(threads[0].first_child(), None);
    unlink(&mut threads, 0);
    assert_eq!(threads[0].parent(), None);
}

#[test]
fn every_bound_container_stands_once_in_the_display_order() {
    let mut collection = vec![
        mail("M5", &["M4"], 50, "e"),
        mail("M2", &["M1"], 20, "b"),
        mail("M1", &[], 10, "a"),
        mail("M3", &["M1"], 30, "c"),
        mail("M7", &["gone", "M6"], 70, "g"),
        mail("M8", &["M6"], 80, "h"),
        mail("M2", &[], 90, "again"),
        mail("M9", &["M9"], 5, "i"),
    ];
    let sent = vec![mail("S1", &["M3"], 40, "Re: c"), mail("S2", &["nowhere"], 41, "x")];
    let (threads, order) = build_threads(&mut collection, &Some(sent));
    let bound: Vec<usize> = (0..threads.len()).filter(|&t| threads[t].has_message()).collect();
    assert_eq!(bound.len(), 8);
    assert_eq!(order.len(), bound.len());
    for t in bound {
        assert_eq!(order.iter().filter(|&&o| o == t).count(), 1);
    }
    let shown: Vec<&str> = order
        .iter()
        .map(|&t| collection[threads[t].message().unwrap()].message_id_raw())
        .collect();
    assert_eq!(shown, vec!["M7", "M8", "M5", "M1", "M2", "M3", "S1", "M9"]);
    let indentation: Vec<usize> = order.iter().map(|&t| threads[t].indentation()).collect();
    assert_eq!(indentation, vec![0, 0, 0, 0, 1, 1, 2, 0]);
}

#[test]
fn display_fields_are_set_one_by_one() {
    let mut c = Container::new(3, Some(1), 9);
    assert_eq!(c.indentation(), 0);
    assert!(c.show_subject());
    c.set_indentation(4);
    c.set_show_subject(false);
    assert_eq!(c.indentation(), 4);
    assert!(!c.show_subject());
    assert_eq!(c.message(), Some(1));
    assert_eq!(c.date(), 9);
    assert_eq!(c.display_parent(), None);
}
