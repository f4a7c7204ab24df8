//! Settings that are read from the configuration file: the styles and
//! backends that can be named there, and what a mailbox overrides.

use vstd::prelude::*;
use vstd::string::StrSliceExecFns;

verus! {

/// Whether `name` is the text `literal`.
pub fn is_text(name: &str, literal: &str) -> (r: bool)
    ensures
        r == (name@ == literal@),
{
    name.to_owned() == literal.to_owned()
}

/// The lower-case form of an ASCII capital, and any other character itself.
pub open spec fn ascii_lower(c: char) -> char {
    if 'A' <= c && c <= 'Z' {
        ((c as u8 + 32) as u8) as char
    } else {
        c
    }
}

/// The text with every ASCII capital replaced by its lower-case form.
pub open spec fn folded(text: Seq<char>) -> Seq<char> {
    Seq::new(text.len(), |j: int| ascii_lower(text[j]))
}

/// Calls `str::eq_ignore_ascii_case`: the two texts are the same once the
/// ASCII capitals of both are put in lower case.
#[verifier::external_body]
fn same_ignoring_case(a: &str, b: &str) -> (r: bool)
    ensures
        r == (folded(a@) == folded(b@)),
{
    a.eq_ignore_ascii_case(b)
}

/// A setting whose value the configuration file gave a name that is not
/// one of those it can have.
#[derive(Clone, Copy, Debug, PartialEq, Eq, Structural)]
pub enum InvalidValue {
    IndexStyle,
    SearchBackend,
    IndexCache,
}

impl InvalidValue {
    pub open spec fn text(self) -> Seq<char> {
        match self {
            InvalidValue::IndexStyle => "invalid `index_style` value"@,
            InvalidValue::SearchBackend => "invalid `search_backend` value"@,
            InvalidValue::IndexCache => "invalid `index_cache` value"@,
        }
    }

    /// What to tell the user.
    pub fn message(&self) -> (r: &'static str)
        ensures
            r@ == self.text(),
    {
        match self {
            InvalidValue::IndexStyle => "invalid `index_style` value",
            InvalidValue::SearchBackend => "invalid `search_backend` value",
            InvalidValue::IndexCache => "invalid `index_cache` value",
        }
    }
}

/// How a mailbox is listed.
#[derive(Copy, Debug, Clone, Hash, PartialEq, Eq, Structural)]
pub enum IndexStyle {
    Plain,
    Threaded,
    Compact,
    Conversations,
}

impl Default for IndexStyle {
    fn default() -> (r: IndexStyle)
        ensures
            r == IndexStyle::Compact,
    {
        IndexStyle::Compact
    }
}

impl IndexStyle {
    /// The style that a name of the configuration file stands for. Each
    /// style is named in lower case or with a capital first letter.
    pub open spec fn named(name: Seq<char>) -> Option<IndexStyle> {
        if name == "Plain"@ || name == "plain"@ {
            Some(IndexStyle::Plain)
        } else if name == "Threaded"@ || name == "threaded"@ {
            Some(IndexStyle::Threaded)
        } else if name == "Compact"@ || name == "compact"@ {
            Some(IndexStyle::Compact)
        } else if name == "Conversations"@ || name == "conversations"@ {
            Some(IndexStyle::Conversations)
        } else {
            None
        }
    }

    /// The name under which a style is written to the configuration file.
    pub open spec fn spelled(self) -> Seq<char> {
        match self {
            IndexStyle::Plain => "plain"@,
            IndexStyle::Threaded => "threaded"@,
            IndexStyle::Compact => "compact"@,
            IndexStyle::Conversations => "conversations"@,
        }
    }

    /// Reads a style from its name.
    pub fn from_name(name: &str) -> (r: Result<IndexStyle, InvalidValue>)
        ensures
            IndexStyle::named(name@) is Some ==> r == Ok::<IndexStyle, InvalidValue>(
                IndexStyle::named(name@)->0,
            ),
            IndexStyle::named(name@) is None ==> r == Err::<IndexStyle, InvalidValue>(
                InvalidValue::IndexStyle,
            ),
    {
        if is_text(name, "Plain") || is_text(name, "plain") {
            Ok(IndexStyle::Plain)
        } else if is_text(name, "Threaded") || is_text(name, "threaded") {
            Ok(IndexStyle::Threaded)
        } else if is_text(name, "Compact") || is_text(name, "compact") {
            Ok(IndexStyle::Compact)
        } else if is_text(name, "Conversations") || is_text(name, "conversations") {
            Ok(IndexStyle::Conversations)
        } else {
            Err(InvalidValue::IndexStyle)
        }
    }

    /// The name of the style in the configuration file.
    pub fn name(&self) -> (r: &'static str)
        ensures
            r@ == self.spelled(),
    {
        match self {
            IndexStyle::Plain => "plain",
            IndexStyle::Threaded => "threaded",
            IndexStyle::Compact => "compact",
            IndexStyle::Conversations => "conversations",
        }
    }
}

/// Which backend answers searches.
#[derive(Debug, Copy, Clone, PartialEq, Eq, Structural)]
pub enum SearchBackend {
    Nothing,
    Auto,
}

impl Default for SearchBackend {
    fn default() -> (r: SearchBackend)
        ensures
            r == SearchBackend::Auto,
    {
        SearchBackend::Auto
    }
}

impl SearchBackend {
    /// The backend that a name stands for, whatever the case of its ASCII
    /// letters: `none`, `nothing` or the empty name for none, `auto` for
    /// the automatic choice.
    pub open spec fn named(name: Seq<char>) -> Option<SearchBackend> {
        if folded(name) == folded("none"@) || folded(name) == folded("nothing"@) || name.len() == 0 {
            Some(SearchBackend::Nothing)
        } else if folded(name) == folded("auto"@) {
            Some(SearchBackend::Auto)
        } else {
            None
        }
    }

    pub open spec fn spelled(self) -> Seq<char> {
        match self {
            SearchBackend::Nothing => "none"@,
            SearchBackend::Auto => "auto"@,
        }
    }

    /// Reads a backend from its name.
    pub fn from_name(name: &str) -> (r: Result<SearchBackend, InvalidValue>)
        ensures
            SearchBackend::named(name@) is Some ==> r == Ok::<SearchBackend, InvalidValue>(
                SearchBackend::named(name@)->0,
            ),
            SearchBackend::named(name@) is None ==> r == Err::<SearchBackend, InvalidValue>(
                InvalidValue::SearchBackend,
            ),
    {
        if same_ignoring_case(name, "none") || same_ignoring_case(name, "nothing")
            || name.is_empty() {
            Ok(SearchBackend::Nothing)
        } else if same_ignoring_case(name, "auto") {
            Ok(SearchBackend::Auto)
        } else {
            Err(InvalidValue::SearchBackend)
        }
    }

    /// The name of the backend in the configuration file.
    pub fn name(&self) -> (r: &'static str)
        ensures
            r@ == self.spelled(),
    {
        match self {
            SearchBackend::Nothing => "none",
            SearchBackend::Auto => "auto",
        }
    }
}

/// Where the index of a mailbox is cached.
#[derive(Debug, Clone, Copy, PartialEq, Eq, Structural)]
pub enum CacheType {
    Nothing,
}

impl Default for CacheType {
    fn default() -> (r: CacheType)
        ensures
            r == CacheType::Nothing,
    {
        CacheType::Nothing
    }
}

impl CacheType {
    /// The cache that a name stands for: `nothing`, `none` or the empty
    /// name for none.
    pub open spec fn named(name: Seq<char>) -> Option<CacheType> {
        if name == "nothing"@ || name == "none"@ || name.len() == 0 {
            Some(CacheType::Nothing)
        } else {
            None
        }
    }

    /// Reads a cache type from its name.
    pub fn from_name(name: &str) -> (r: Result<CacheType, InvalidValue>)
        ensures
            CacheType::named(name@) is Some ==> r == Ok::<CacheType, InvalidValue>(
                CacheType::named(name@)->0,
            ),
            CacheType::named(name@) is None ==> r == Err::<CacheType, InvalidValue>(
                InvalidValue::IndexCache,
            ),
    {
        if is_text(name, "nothing") || is_text(name, "none") || name.is_empty() {
            Ok(CacheType::Nothing)
        } else {
            Err(InvalidValue::IndexCache)
        }
    }

    /// The name of the cache type in the configuration file.
    pub fn name(&self) -> (r: &'static str)
        ensures
            r@ == "none"@,
    {
        "none"
    }
}

/// A setting that is on, off, or was left to the program, which then notes
/// what it chose.
#[derive(Copy, Debug, Clone, PartialEq, Eq, Structural)]
pub enum ToggleFlag {
    Unset,
    InternalVal(bool),
    False,
    True,
}

impl ToggleFlag {
    pub open spec fn on(self) -> bool {
        self == ToggleFlag::True || self == ToggleFlag::InternalVal(true)
    }

    /// Whether the setting is nothing but off.
    pub fn is_false(&self) -> (r: bool)
        ensures
            r == (*self == ToggleFlag::False || *self == ToggleFlag::InternalVal(false)),
    {
        match self {
            ToggleFlag::False => true,
            ToggleFlag::InternalVal(chosen) => !*chosen,
            _ => false,
        }
    }

    /// Whether the setting is on.
    pub fn is_true(&self) -> (r: bool)
        ensures
            r == self.on(),
    {
        match self {
            ToggleFlag::True => true,
            ToggleFlag::InternalVal(chosen) => *chosen,
            _ => false,
        }
    }
}

pub fn false_val() -> (r: bool)
    ensures
        !r,
{
    false
}

pub fn true_val() -> (r: bool)
    ensures
        r,
{
    true
}

pub fn zero_val() -> (r: usize)
    ensures
        r == 0,
{
    0
}

pub fn eighty_val() -> (r: usize)
    ensures
        r == 80,
{
    80
}

pub fn eighty_percent() -> (r: usize)
    ensures
        r == 80,
{
    80
}

pub fn none<T>() -> (r: Option<T>)
    ensures
        r is None,
{
    None
}

pub fn internal_value_false() -> (r: ToggleFlag)
    ensures
        r == ToggleFlag::InternalVal(false),
{
    ToggleFlag::InternalVal(false)
}

pub fn internal_value_true() -> (r: ToggleFlag)
    ensures
        r == ToggleFlag::InternalVal(true),
{
    ToggleFlag::InternalVal(true)
}

/// The text as a setting: none where it is empty.
pub fn non_empty_string(text: String) -> (r: Option<String>)
    ensures
        text@.len() == 0 ==> r is None,
        text@.len() > 0 ==> r == Some(text),
{
    if text.as_str().is_empty() {
        None
    } else {
        Some(text)
    }
}

/// A text without the double quotes that it stands between; a text that
/// does not stand between two double quotes is left as it is.
pub open spec fn without_quotes(text: Seq<char>) -> Seq<char> {
    if text.len() >= 2 && text[0] == '"' && text.last() == '"' {
        text.subrange(1, text.len() - 1)
    } else {
        text
    }
}

/// Takes a value of any kind, written out as text, for a text setting: a
/// text loses the quotes that it was written in, anything else stays as
/// it was written. A single quote is no value.
pub fn unquoted(text: &str) -> (r: String)
    requires
        !(text@.len() == 1 && text@[0] == '"'),
    ensures
        r@ == without_quotes(text@),
{
    let size = text.unicode_len();
    if size >= 2 && text.get_char(0) == '"' && text.get_char(size - 1) == '"' {
        text.substring_char(1, size - 1).to_owned()
    } else {
        text.to_owned()
    }
}

/// What a mailbox or an account sets otherwise than the program as a whole.
#[derive(Debug, Clone, Default)]
pub struct MailUIConf {
    pub identity: Option<String>,
    pub index_style: Option<IndexStyle>,
}

/// What the backend is told of a mailbox.
#[derive(Debug, Clone)]
pub struct MailboxConf {
    pub alias: Option<String>,
    pub autoload: bool,
    pub subscribe: ToggleFlag,
    pub ignore: ToggleFlag,
}

impl Default for MailboxConf {
    fn default() -> (r: MailboxConf)
        ensures
            r.alias is None,
            !r.autoload,
            r.subscribe == ToggleFlag::Unset,
            r.ignore == ToggleFlag::Unset,
    {
        MailboxConf {
            alias: None,
            autoload: false,
            subscribe: ToggleFlag::Unset,
            ignore: ToggleFlag::Unset,
        }
    }
}

/// What the backend is told of a folder.
#[derive(Debug, Clone)]
pub struct FolderConf {
    pub rename: Option<String>,
    pub autoload: bool,
    pub subscribe: ToggleFlag,
    pub ignore: ToggleFlag,
}

impl Default for FolderConf {
    fn default() -> (r: FolderConf)
        ensures
            r.rename is None,
            !r.autoload,
            r.subscribe == ToggleFlag::Unset,
            r.ignore == ToggleFlag::Unset,
    {
        FolderConf {
            rename: None,
            autoload: false,
            subscribe: ToggleFlag::Unset,
            ignore: ToggleFlag::Unset,
        }
    }
}

/// The entry of a mailbox in the configuration file.
#[derive(Debug, Clone, Default)]
pub struct FileMailboxConf {
    pub conf_override: MailUIConf,
    pub mailbox_conf: MailboxConf,
}

impl FileMailboxConf {
    pub fn conf_override(&self) -> (r: &MailUIConf)
        ensures
            *r == self.conf_override,
    {
        &self.conf_override
    }

    pub fn mailbox_conf(&self) -> (r: &MailboxConf)
        ensures
            *r == self.mailbox_conf,
    {
        &self.mailbox_conf
    }
}

/// The entry of a folder in the configuration file.
#[derive(Debug, Clone, Default)]
pub struct FileFolderConf {
    pub folder_conf: FolderConf,
    pub conf_override: MailUIConf,
}

impl FileFolderConf {
    pub fn conf_override(&self) -> (r: &MailUIConf)
        ensures
            *r == self.conf_override,
    {
        &self.conf_override
    }

    pub fn folder_conf(&self) -> (r: &FolderConf)
        ensures
            *r == self.folder_conf,
    {
        &self.folder_conf
    }
}

/// What a mailbox is used for.
#[derive(Debug, Clone, Copy, PartialEq, Eq, Structural)]
pub enum SpecialUseMailbox {
    Normal,
    Inbox,
    Archive,
    Drafts,
    Flagged,
    Junk,
    Sent,
    Trash,
}

/// The use that the name of a mailbox stands for, whatever the case of
/// its ASCII letters; `junk` and `spam` both stand for junk, and a name
/// that stands for nothing else for a normal mailbox.
pub open spec fn use_of(name: Seq<char>) -> SpecialUseMailbox {
    if folded(name) == folded("inbox"@) {
        SpecialUseMailbox::Inbox
    } else if folded(name) == folded("archive"@) {
        SpecialUseMailbox::Archive
    } else if folded(name) == folded("drafts"@) {
        SpecialUseMailbox::Drafts
    } else if folded(name) == folded("junk"@) || folded(name) == folded("spam"@) {
        SpecialUseMailbox::Junk
    } else if folded(name) == folded("sent"@) {
        SpecialUseMailbox::Sent
    } else if folded(name) == folded("trash"@) {
        SpecialUseMailbox::Trash
    } else {
        SpecialUseMailbox::Normal
    }
}

/// Tells from the name of a mailbox what it is used for.
pub fn usage(name: &str) -> (r: Option<SpecialUseMailbox>)
    ensures
        r == Some(use_of(name@)),
{
    if same_ignoring_case(name, "inbox") {
        Some(SpecialUseMailbox::Inbox)
    } else if same_ignoring_case(name, "archive") {
        Some(SpecialUseMailbox::Archive)
    } else if same_ignoring_case(name, "drafts") {
        Some(SpecialUseMailbox::Drafts)
    } else if same_ignoring_case(name, "junk") {
        Some(SpecialUseMailbox::Junk)
    } else if same_ignoring_case(name, "spam") {
        Some(SpecialUseMailbox::Junk)
    } else if same_ignoring_case(name, "sent") {
        Some(SpecialUseMailbox::Sent)
    } else if same_ignoring_case(name, "trash") {
        Some(SpecialUseMailbox::Trash)
    } else {
        Some(SpecialUseMailbox::Normal)
    }
}

/// How much is logged.
#[derive(Copy, Debug, Clone, PartialEq, Eq, Structural)]
pub enum LoggingLevel {
    OFF,
    FATAL,
    ERROR,
    WARN,
    INFO,
    DEBUG,
    TRACE,
}

impl Default for LoggingLevel {
    fn default() -> (r: LoggingLevel)
        ensures
            r == LoggingLevel::INFO,
    {
        LoggingLevel::INFO
    }
}

/// Where the log goes and how much of it is kept.
#[derive(Debug, Clone, Default)]
pub struct LogSettings {
    pub log_file: Option<String>,
    pub maximum_level: LoggingLevel,
}

} // verus!
