use melib::actions::{
    AccountAction, Action, ComposeAction, ListingAction, MailboxOperation, MailingListAction,
    SortField, SortOrder, TabAction, TagAction, ViewAction,
};
use melib::backends::{ImapOp, NotmuchError};
use melib::compose::{Composer, ViewMode};
use melib::conf::{
    eighty_percent, eighty_val, false_val, internal_value_false, internal_value_true, is_text,
    non_empty_string, none, true_val, unquoted, usage, zero_val, CacheType, FileFolderConf,
    FileMailboxConf, IndexStyle, InvalidValue, LogSettings, LoggingLevel, MailUIConf,
    SearchBackend, SpecialUseMailbox, ToggleFlag,
};
use melib::directive::{include_directive, Directive};
use melib::keys::{InputCommand, Key, KeyError, MouseButton, MouseEvent};

#[test]
fn index_style_is_read_from_its_names() {
    assert_eq!(IndexStyle::from_name("Plain"), Ok(IndexStyle::Plain));
    assert_eq!(IndexStyle::from_name("plain"), Ok(IndexStyle::Plain));
    assert_eq!(IndexStyle::from_name("Threaded"), Ok(IndexStyle::Threaded));
    assert_eq!(IndexStyle::from_name("threaded"), Ok(IndexStyle::Threaded));
    assert_eq!(IndexStyle::from_name("Compact"), Ok(IndexStyle::Compact));
    assert_eq!(IndexStyle::from_name("compact"), Ok(IndexStyle::Compact));
    assert_eq!(IndexStyle::from_name("Conversations"), Ok(IndexStyle::Conversations));
    assert_eq!(IndexStyle::from_name("conversations"), Ok(IndexStyle::Conversations));
    assert_eq!(IndexStyle::from_name("PLAIN"), Err(InvalidValue::IndexStyle));
    assert_eq!(IndexStyle::from_name(""), Err(InvalidValue::IndexStyle));
    assert_eq!(IndexStyle::default(), IndexStyle::Compact);
    for style in [
        IndexStyle::Plain,
        IndexStyle::Threaded,
        IndexStyle::Compact,
        IndexStyle::Conversations,
    ] {
        assert_eq!(IndexStyle::from_name(style.name()), Ok(style));
    }
    assert_eq!(IndexStyle::Conversations.name(), "conversations");
}

#[test]
fn search_backend_is_read_whatever_the_case() {
    assert_eq!(SearchBackend::from_name("none"), Ok(SearchBackend::Nothing));
    assert_eq!(SearchBackend::from_name("NoThing"), Ok(SearchBackend::Nothing));
    assert_eq!(SearchBackend::from_name(""), Ok(SearchBackend::Nothing));
    assert_eq!(SearchBackend::from_name("AUTO"), Ok(SearchBackend::Auto));
    assert_eq!(SearchBackend::from_name("auto"), Ok(SearchBackend::Auto));
    assert_eq!(SearchBackend::from_name("sqlite"), Err(InvalidValue::SearchBackend));
    assert_eq!(SearchBackend::from_name("aut"), Err(InvalidValue::SearchBackend));
    assert_eq!(SearchBackend::default(), SearchBackend::Auto);
    assert_eq!(SearchBackend::Nothing.name(), "none");
    assert_eq!(SearchBackend::Auto.name(), "auto");
}

#[test]
fn cache_type_is_read_from_its_names() {
    assert_eq!(CacheType::from_name("nothing"), Ok(CacheType::Nothing));
    assert_eq!(CacheType::from_name("none"), Ok(CacheType::Nothing));
    assert_eq!(CacheType::from_name(""), Ok(CacheType::Nothing));
    assert_eq!(CacheType::from_name("None"), Err(InvalidValue::IndexCache));
    assert_eq!(CacheType::default(), CacheType::Nothing);
    assert_eq!(CacheType::Nothing.name(), "none");
}

#[test]
fn invalid_values_say_which_setting_they_are() {
    assert_eq!(InvalidValue::IndexStyle.message(), "invalid `index_style` value");
    assert_eq!(InvalidValue::SearchBackend.message(), "invalid `search_backend` value");
    assert_eq!(InvalidValue::IndexCache.message(), "invalid `index_cache` value");
}

#[test]
fn default_values() {
    assert!(!false_val());
    assert!(true_val());
    assert_eq!(zero_val(), 0);
    assert_eq!(eighty_val(), 80);
    assert_eq!(eighty_percent(), 80);
    assert_eq!(none::<u8>(), None);
    assert_eq!(internal_value_false(), ToggleFlag::InternalVal(false));
    assert_eq!(internal_value_true(), ToggleFlag::InternalVal(true));
    assert!(internal_value_true().is_true());
    assert!(internal_value_false().is_false());
    assert!(!ToggleFlag::Unset.is_true());
    assert!(!ToggleFlag::Unset.is_false());
    assert!(ToggleFlag::True.is_true());
    assert!(ToggleFlag::False.is_false());
    assert_eq!(non_empty_string(String::new()), None);
    assert_eq!(non_empty_string("x".to_string()), Some("x".to_string()));
    assert!(is_text("abc", "abc"));
    assert!(!is_text("abc", "abd"));
}

#[test]
fn mailbox_entries_hand_out_their_parts() {
    let mut entry = FileMailboxConf::default();
    entry.conf_override.identity = Some("me".to_string());
    entry.mailbox_conf.autoload = true;
    assert_eq!(entry.conf_override().identity.as_deref(), Some("me"));
    assert_eq!(entry.conf_override().index_style, None);
    assert!(entry.mailbox_conf().autoload);
    assert_eq!(entry.mailbox_conf().subscribe, ToggleFlag::Unset);

    let mut folder = FileFolderConf::default();
    folder.conf_override = MailUIConf { identity: None, index_style: Some(IndexStyle::Plain) };
    folder.folder_conf.rename = Some("In".to_string());
    assert_eq!(folder.conf_override().index_style, Some(IndexStyle::Plain));
    assert_eq!(folder.folder_conf().rename.as_deref(), Some("In"));
    assert!(!folder.folder_conf().autoload);
}

#[test]
fn log_settings_start_at_info() {
    let log = LogSettings::default();
    assert_eq!(log.log_file, None);
    assert_eq!(log.maximum_level, LoggingLevel::INFO);
}

#[test]
fn only_mailing_list_and_mailbox_actions_need_confirmation() {
    let path = || "INBOX".to_string();
    assert!(Action::MailingListAction(MailingListAction::ListUnsubscribe).needs_confirmation());
    assert!(Action::Mailbox(path(), MailboxOperation::Delete(path())).needs_confirmation());
    assert!(Action::Mailbox(path(), MailboxOperation::Rename(path(), path())).needs_confirmation());
    let free = vec![
        Action::Listing(ListingAction::Tag(TagAction::Add("x".to_string()))),
        Action::Listing(ListingAction::Delete),
        Action::ViewMailbox(1),
        Action::Sort(SortField::Date, SortOrder::Desc),
        Action::SubSort(SortField::Subject, SortOrder::Asc),
        Action::Tab(TabAction::Close),
        Action::Tab(TabAction::Reply((0, 7), 9)),
        Action::ToggleThreadSnooze,
        Action::View(ViewAction::SaveAttachment(0, path())),
        Action::SetEnv(path(), path()),
        Action::PrintEnv(path()),
        Action::Compose(ComposeAction::SaveDraft),
        Action::AccountAction(path(), AccountAction::ReIndex),
        Action::PrintSetting(path()),
    ];
    for action in free.iter() {
        assert!(!action.needs_confirmation());
    }
}

#[test]
fn imap_op_starts_with_nothing_fetched() {
    let op = ImapOp::new(7, "INBOX".to_string(), 99);
    assert_eq!(op.uid, 7);
    assert_eq!(op.mailbox_path, "INBOX");
    assert_eq!(op.mailbox_hash, 99);
    assert_eq!(op.bytes, None);
    assert_eq!(op.headers, None);
    assert_eq!(op.body, None);
    assert_eq!(op.flags, None);
    assert_eq!(op.description(), "Message in mailbox: INBOX");
}

#[test]
fn notmuch_error_keeps_its_text() {
    let err = NotmuchError("database is locked".to_string());
    assert_eq!(err.message(), "database is locked");
}

#[test]
fn composer_starts_dirty_and_empty() {
    let mut composer = Composer::default();
    assert!(composer.is_dirty());
    assert_eq!(composer.mode, ViewMode::Overview);
    assert!(composer.buffer.is_empty());
    composer.dirty = false;
    composer.set_dirty();
    assert!(composer.is_dirty());
    assert_eq!(composer.title(), "compose");
}

#[test]
fn input_commands_are_told_apart() {
    assert_ne!(InputCommand::Kill, InputCommand::ChordTimeout);
}

fn read_key(name: &str) -> Result<Key, String> {
    Key::from_name(name).map_err(|e| {
        format!(
            "{}`{}`{} for key `k` at line 1 column 5",
            e.heading(),
            &name[e.quoted_from()..],
            e.explanation()
        )
    })
}

#[test]
fn test_key_serde() {
    assert_eq!(read_key("Backspace"), Ok(Key::Backspace));
    assert_eq!(read_key("Left"), Ok(Key::Left));
    assert_eq!(read_key("Right"), Ok(Key::Right));
    assert_eq!(read_key("Up"), Ok(Key::Up));
    assert_eq!(read_key("Down"), Ok(Key::Down));
    assert_eq!(read_key("Home"), Ok(Key::Home));
    assert_eq!(read_key("End"), Ok(Key::End));
    assert_eq!(read_key("PageUp"), Ok(Key::PageUp));
    assert_eq!(read_key("PageDown"), Ok(Key::PageDown));
    assert_eq!(read_key("Delete"), Ok(Key::Delete));
    assert_eq!(read_key("Insert"), Ok(Key::Insert));
    assert_eq!(read_key("Enter"), Ok(Key::Char('\n')));
    assert_eq!(read_key("Tab"), Ok(Key::Char('\t')));
    assert_eq!(read_key("k"), Ok(Key::Char('k')));
    assert_eq!(read_key("1"), Ok(Key::Char('1')));
    assert_eq!(read_key("Esc"), Ok(Key::Esc));
    assert_eq!(read_key("C-a"), Ok(Key::Ctrl('a')));
    assert_eq!(read_key("C-1"), Ok(Key::Ctrl('1')));
    assert_eq!(read_key("M-a"), Ok(Key::Alt('a')));
    assert_eq!(read_key("F1"), Ok(Key::F(1)));
    assert_eq!(read_key("F12"), Ok(Key::F(12)));
    assert_eq!(
        read_key("C-V").unwrap_err(),
        "`V` should be a lowercase and alphanumeric character instead. for key `k` at line 1 column 5".to_string()
    );
    assert_eq!(
        read_key("M-V").unwrap_err(),
        "`V` should be a lowercase and alphanumeric character instead. for key `k` at line 1 column 5".to_string()
    );
    assert_eq!(
        read_key("F13").unwrap_err(),
        "`13` should be a number 1 <= n <= 12 instead. for key `k` at line 1 column 5".to_string()
    );
    assert_eq!(
        read_key("Fc").unwrap_err(),
        "`c` should be a number 1 <= n <= 12 instead. for key `k` at line 1 column 5".to_string()
    );
    assert_eq!(
        read_key("adsfsf").unwrap_err(),
        "Cannot derive shortcut from `adsfsf`. Please consult the manual for valid key inputs. for key `k` at line 1 column 5".to_string()
    );
}

#[test]
fn key_names_in_small_letters_and_odd_numbers() {
    assert_eq!(Key::from_name("backspace"), Ok(Key::Backspace));
    assert_eq!(Key::from_name("pagedown"), Ok(Key::PageDown));
    assert_eq!(Key::from_name("enter"), Ok(Key::Char('\n')));
    assert_eq!(Key::from_name("F"), Ok(Key::Char('F')));
    assert_eq!(Key::from_name("F0"), Err(KeyError::NotFunctionKey(1)));
    assert_eq!(Key::from_name("F09"), Ok(Key::F(9)));
    assert_eq!(Key::from_name("F+7"), Ok(Key::F(7)));
    assert_eq!(Key::from_name("F+"), Err(KeyError::NotFunctionKey(1)));
    assert_eq!(Key::from_name("F-1"), Err(KeyError::NotFunctionKey(1)));
    assert_eq!(Key::from_name("F99"), Err(KeyError::NotFunctionKey(1)));
    assert_eq!(Key::from_name("F123"), Err(KeyError::Unknown));
    assert_eq!(Key::from_name("M-9"), Ok(Key::Alt('9')));
    assert_eq!(Key::from_name("M-_"), Err(KeyError::NotLowercase(2)));
    assert_eq!(Key::from_name("C-ab"), Err(KeyError::Unknown));
    assert_eq!(Key::from_name(""), Err(KeyError::Unknown));
    assert_eq!(Key::from_name("BACKSPACE"), Err(KeyError::Unknown));
}

#[test]
fn keys_are_shown_and_written() {
    assert_eq!(Key::F(1).display_name(), "F1");
    assert_eq!(Key::F(12).display_name(), "F12");
    assert_eq!(Key::F(255).display_name(), "F255");
    assert_eq!(Key::F(100).config_name(), "F100");
    assert_eq!(Key::Char(' ').display_name(), "Space");
    assert_eq!(Key::Char(' ').config_name(), " ");
    assert_eq!(Key::Char('\t').display_name(), "Tab");
    assert_eq!(Key::Char('\n').config_name(), "Enter");
    assert_eq!(Key::Char('x').display_name(), "x");
    assert_eq!(Key::Alt('a').display_name(), "M-a");
    assert_eq!(Key::Ctrl('b').config_name(), "C-b");
    assert_eq!(Key::Null.display_name(), "Null byte");
    assert_eq!(Key::Null.config_name(), "Null");
    assert_eq!(Key::Paste("abc".to_string()).display_name(), "Pasted buf");
    assert_eq!(Key::Paste("abc".to_string()).config_name(), "abc");
    assert_eq!(Key::pasted(&"abc".to_string()), Key::Paste("abc".to_string()));
    assert_eq!(Key::Mouse(MouseEvent::Press(MouseButton::Left, 1, 2)).display_name(), "Mouse");
    assert_eq!(Key::ChordTimeout.display_name(), "Chord timeout");
    for key in [
        Key::Backspace,
        Key::Left,
        Key::Right,
        Key::Up,
        Key::Down,
        Key::Home,
        Key::End,
        Key::PageUp,
        Key::PageDown,
        Key::Delete,
        Key::Insert,
        Key::Esc,
        Key::Char('\n'),
        Key::Char('\t'),
        Key::Char('q'),
        Key::F(7),
        Key::Alt('z'),
        Key::Ctrl('0'),
    ] {
        assert_eq!(Key::from_name(&key.config_name()), Ok(key));
    }
}

#[test]
fn lines_are_read_as_directives() {
    let quoted = |line: &str| match include_directive(line.as_bytes()) {
        Directive::Include(from, to) => Some(line[from..to].to_string()),
        _ => None,
    };
    assert_eq!(include_directive(b""), Directive::Nothing);
    assert_eq!(include_directive(b"   "), Directive::Nothing);
    assert_eq!(include_directive(b"# include(\"a\")"), Directive::Nothing);
    assert_eq!(include_directive(b"[accounts]"), Directive::Nothing);
    assert_eq!(include_directive(b"include"), Directive::Nothing);
    assert_eq!(include_directive(b"include("), Directive::Nothing);
    assert_eq!(include_directive(b"  \tinclude(\"themes.toml\")  "), Directive::Include(12, 23));
    assert_eq!(quoted("include(\"themes.toml\")").as_deref(), Some("themes.toml"));
    assert_eq!(quoted("include('a b')").as_deref(), Some("a b"));
    assert_eq!(quoted("include(`it's`) ").as_deref(), Some("it's"));
    assert_eq!(quoted("include(\"\")").as_deref(), Some(""));
    assert_eq!(quoted("include(\"a\"").as_deref(), Some("a"));
    assert_eq!(include_directive(b"include(a)"), Directive::Malformed);
    assert_eq!(include_directive(b"include(\"a)"), Directive::Malformed);
    assert_eq!(include_directive(b"include(\"a')"), Directive::Malformed);
    assert_eq!(include_directive(b"include(\"a\"]"), Directive::Malformed);
    assert_eq!(include_directive(b"include(\"a\") x"), Directive::Malformed);
    assert_eq!(include_directive(b"x include(\"a\")"), Directive::Nothing);
}

#[test]
fn mailbox_use_is_told_from_its_name() {
    assert_eq!(usage("INBOX"), Some(SpecialUseMailbox::Inbox));
    assert_eq!(usage("inbox"), Some(SpecialUseMailbox::Inbox));
    assert_eq!(usage("Archive"), Some(SpecialUseMailbox::Archive));
    assert_eq!(usage("drafts"), Some(SpecialUseMailbox::Drafts));
    assert_eq!(usage("Junk"), Some(SpecialUseMailbox::Junk));
    assert_eq!(usage("SPAM"), Some(SpecialUseMailbox::Junk));
    assert_eq!(usage("Sent"), Some(SpecialUseMailbox::Sent));
    assert_eq!(usage("trash"), Some(SpecialUseMailbox::Trash));
    assert_eq!(usage("lists"), Some(SpecialUseMailbox::Normal));
    assert_eq!(usage(""), Some(SpecialUseMailbox::Normal));
}

#[test]
fn values_lose_the_quotes_they_were_written_in() {
    assert_eq!(unquoted("\"true\""), "true");
    assert_eq!(unquoted("true"), "true");
    assert_eq!(unquoted("\"\""), "");
    assert_eq!(unquoted(""), "");
    assert_eq!(unquoted("\"a"), "\"a");
    assert_eq!(unquoted("a\""), "a\"");
    assert_eq!(unquoted("\"\u{e9}t\u{e9}\""), "\u{e9}t\u{e9}");
    assert_eq!(unquoted("80"), "80");
}
