use melib::bindings::{filter, keys_equal, BindingHandler, Bindings, Outcome};
use melib::keys::{Key, MouseButton, MouseEvent};
use melib::listing::format_age;

fn chords() -> Bindings {
    Bindings {
        normal: vec![
            (vec![Key::Char('g'), Key::Char('g')], "top".to_string()),
            (vec![Key::Char('g'), Key::Char('e')], "end".to_string()),
            (vec![Key::Ctrl('x')], "quit".to_string()),
            (vec![Key::Char('z'), Key::Char('z'), Key::Char('z')], "sleep".to_string()),
        ],
    }
}

fn typed(keys: &[Key]) -> Vec<(Key, Vec<u8>)> {
    keys.iter().map(|k| (k.clone(), vec![1u8])).collect()
}

#[test]
fn filter_keeps_the_chords_that_start_with_the_keys() {
    let bindings = chords();
    assert_eq!(filter(&bindings.normal, &typed(&[])), vec![0, 1, 2, 3]);
    assert_eq!(filter(&bindings.normal, &typed(&[Key::Char('g')])), vec![0, 1]);
    assert_eq!(filter(&bindings.normal, &typed(&[Key::Char('g'), Key::Char('e')])), vec![1]);
    assert_eq!(filter(&bindings.normal, &typed(&[Key::Ctrl('x')])), vec![2]);
    assert_eq!(filter(&bindings.normal, &typed(&[Key::Ctrl('x'), Key::Ctrl('x')])), Vec::<usize>::new());
    assert_eq!(filter(&bindings.normal, &typed(&[Key::Char('q')])), Vec::<usize>::new());
}

#[test]
fn keys_are_compared_by_what_they_hold() {
    assert!(keys_equal(&Key::Left, &Key::Left));
    assert!(!keys_equal(&Key::Left, &Key::Right));
    assert!(keys_equal(&Key::F(3), &Key::F(3)));
    assert!(!keys_equal(&Key::F(3), &Key::F(4)));
    assert!(!keys_equal(&Key::Char('a'), &Key::Alt('a')));
    assert!(keys_equal(&Key::Paste("x".to_string()), &Key::Paste("x".to_string())));
    assert!(!keys_equal(&Key::Paste("x".to_string()), &Key::Paste("y".to_string())));
    assert!(keys_equal(
        &Key::Mouse(MouseEvent::Press(MouseButton::Left, 1, 2)),
        &Key::Mouse(MouseEvent::Press(MouseButton::Left, 1, 2))
    ));
    assert!(!keys_equal(
        &Key::Mouse(MouseEvent::Press(MouseButton::Left, 1, 2)),
        &Key::Mouse(MouseEvent::Release(1, 2))
    ));
    assert!(keys_equal(&Key::ChordTimeout, &Key::ChordTimeout));
}

#[test]
fn a_chord_is_followed_key_by_key() {
    let mut handler = BindingHandler::new(chords());
    let (outcome, passed) = handler.handle_input(Key::Char('g'), vec![103], false);
    assert_eq!(outcome, Outcome::Wait);
    assert!(passed.is_empty());
    assert_eq!(handler.prefix, vec![(Key::Char('g'), vec![103])]);
    let (outcome, passed) = handler.handle_input(Key::Char('e'), vec![101], false);
    assert_eq!(outcome, Outcome::Command(1));
    assert!(passed.is_empty());
    assert!(handler.prefix.is_empty());
    assert_eq!(handler.bindings.normal[1].1, "end");
}

#[test]
fn keys_that_start_no_chord_are_passed_on() {
    let mut handler = BindingHandler::new(chords());
    let (outcome, passed) = handler.handle_input(Key::Char('g'), vec![103], false);
    assert_eq!(outcome, Outcome::Wait);
    assert!(passed.is_empty());
    let (outcome, passed) = handler.handle_input(Key::Char('q'), vec![113], false);
    assert_eq!(outcome, Outcome::PassOn);
    assert_eq!(passed, vec![(Key::Char('g'), vec![103]), (Key::Char('q'), vec![113])]);
    assert!(handler.prefix.is_empty());
    let (outcome, passed) = handler.handle_input(Key::Left, vec![27, 91, 68], false);
    assert_eq!(outcome, Outcome::PassOn);
    assert_eq!(passed, vec![(Key::Left, vec![27, 91, 68])]);
}

#[test]
fn a_chord_of_one_key_gives_its_command_at_once() {
    let mut handler = BindingHandler::new(chords());
    let (outcome, passed) = handler.handle_input(Key::Ctrl('x'), vec![24], false);
    assert_eq!(outcome, Outcome::Command(2));
    assert!(passed.is_empty());
    assert!(handler.prefix.is_empty());
}

#[test]
fn keys_left_over_are_passed_on_when_the_time_has_run_out() {
    let mut handler = BindingHandler::new(chords());
    handler.handle_input(Key::Char('z'), vec![122], false);
    let (outcome, passed) = handler.handle_input(Key::Char('z'), vec![122], false);
    assert_eq!(outcome, Outcome::Wait);
    assert!(passed.is_empty());
    let (outcome, passed) = handler.handle_input(Key::Char('g'), vec![103], true);
    assert_eq!(outcome, Outcome::Wait);
    assert_eq!(passed, vec![(Key::Char('z'), vec![122]), (Key::Char('z'), vec![122])]);
    assert_eq!(handler.prefix, vec![(Key::Char('g'), vec![103])]);
    let (outcome, passed) = handler.handle_input(Key::Char('q'), vec![113], true);
    assert_eq!(outcome, Outcome::PassOn);
    assert_eq!(passed, vec![(Key::Char('g'), vec![103]), (Key::Char('q'), vec![113])]);
    let (outcome, passed) = handler.handle_input(Key::Ctrl('x'), vec![24], true);
    assert_eq!(outcome, Outcome::Command(2));
    assert!(passed.is_empty());
}

#[test]
fn ages_are_worded_in_minutes_hours_and_days() {
    assert_eq!(format_age(0).as_deref(), Some("0 minutes ago"));
    assert_eq!(format_age(59).as_deref(), Some("0 minutes ago"));
    assert_eq!(format_age(60).as_deref(), Some("1 minute ago"));
    assert_eq!(format_age(119).as_deref(), Some("1 minute ago"));
    assert_eq!(format_age(120).as_deref(), Some("2 minutes ago"));
    assert_eq!(format_age(3599).as_deref(), Some("59 minutes ago"));
    assert_eq!(format_age(3600).as_deref(), Some("1 hour ago"));
    assert_eq!(format_age(7200).as_deref(), Some("2 hours ago"));
    assert_eq!(format_age(86399).as_deref(), Some("23 hours ago"));
    assert_eq!(format_age(86400).as_deref(), Some("1 day ago"));
    assert_eq!(format_age(604799).as_deref(), Some("6 days ago"));
    assert_eq!(format_age(604800), None);
    assert_eq!(format_age(u64::MAX), None);
}
