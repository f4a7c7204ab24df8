use melib::text_processing::{choose_cut, GlobMatch, Truncate};

#[test]
fn test_globmatch() {
    assert!("INBOX".matches_glob("INBOX"));
    assert!("INBOX/Sent".matches_glob("INBOX/*"));
    assert!(!"INBOX/Sent".matches_glob("*/Drafts"));
    assert!("INBOX/Sent".matches_glob("*/Sent"));
    assert!("INBOX/Archives/2047".matches_glob("*"));
}

#[test]
fn glob_parts_are_found_one_behind_the_other() {
    assert!("INBOX/Archives/2047".matches_glob("INBOX/*/2047"));
    assert!("INBOX/Archives/2047".matches_glob("*Arch*20*"));
    assert!(!"INBOX/Archives/2047".matches_glob("*2047*Arch*"));
    assert!(!"INBOX".matches_glob("NBOX"));
    assert!("INBOX".matches_glob("*NBOX"));
    assert!(!"INBOX".matches_glob("INBOX/Sent"));
    assert!(!"".matches_glob("INBOX"));
    assert!("".matches_glob("*"));
    assert!("".matches_glob(""));
    assert!("INBOX".matches_glob(""));
    assert!("aXbXc".matches_glob("a*X*c"));
    assert!(!"ab".matches_glob("ab*b"));
}

#[test]
fn a_glob_whose_start_is_found_matches_a_longer_text() {
    assert!("INBOX/Sent".matches_glob("INBOX"));
    assert!("INBOX/Sent".matches_glob("*/Se"));
}

#[test]
fn is_glob_looks_for_a_star() {
    assert!("INBOX/*".is_glob());
    assert!("*".is_glob());
    assert!(!"INBOX".is_glob());
    assert!(!"".is_glob());
}

#[test]
fn truncate_cuts_at_the_start_of_a_cluster() {
    let mut s = String::from("hello world");
    (&mut s).truncate_at_boundary(5);
    assert_eq!(s, "hell");
    let mut s = String::from("hello");
    (&mut s).truncate_at_boundary(5);
    assert_eq!(s, "hello");
    let mut s = String::from("hello");
    (&mut s).truncate_at_boundary(9);
    assert_eq!(s, "hello");
    let mut s = String::from("hello");
    (&mut s).truncate_at_boundary(0);
    assert_eq!(s, "hello");
    let mut s = String::from("hello");
    (&mut s).truncate_at_boundary(1);
    assert_eq!(s, "");
}

#[test]
fn truncate_keeps_clusters_whole() {
    let mut s = String::from("a\u{310}e\u{301}o\u{308}\u{332}\r\n");
    assert_eq!(s.len(), 13);
    (&mut s).truncate_at_boundary(3);
    assert_eq!(s, "a\u{310}e\u{301}");
    let mut s = String::from("a\u{310}e\u{301}o\u{308}\u{332}\r\n");
    (&mut s).truncate_at_boundary(12);
    assert_eq!(s, "a\u{310}e\u{301}o\u{308}\u{332}");
}

#[test]
fn cut_is_chosen_from_the_cluster_starts() {
    let starts = vec![0, 3, 6, 11];
    assert_eq!(choose_cut(13, &starts, 2), Some(3));
    assert_eq!(choose_cut(13, &starts, 4), Some(11));
    assert_eq!(choose_cut(13, &starts, 9), Some(11));
    assert_eq!(choose_cut(13, &starts, 13), None);
    assert_eq!(choose_cut(13, &starts, 0), None);
    assert_eq!(choose_cut(13, &Vec::new(), 2), None);
}
