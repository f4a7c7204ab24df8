//! What the user can ask the program to do.

use vstd::prelude::*;

verus! {

pub type AccountName = String;

pub type MailboxPath = String;

pub type NewMailboxPath = String;

#[derive(Debug)]
pub enum TagAction {
    Add(String),
    Remove(String),
}

#[derive(Debug)]
pub enum ListingAction {
    SetPlain,
    SetThreaded,
    SetCompact,
    SetConversations,
    Search(String),
    Select(String),
    SetSeen,
    SetUnseen,
    CopyTo(MailboxPath),
    CopyToOtherAccount(AccountName, MailboxPath),
    MoveTo(MailboxPath),
    MoveToOtherAccount(AccountName, MailboxPath),
    Delete,
    OpenInNewTab,
    Tag(TagAction),
}

/// What a tab is asked to do. A mail is named by the hash of its envelope,
/// a mailbox by the position of its account and its own hash, and a
/// process by its identifier.
#[derive(Debug)]
pub enum TabAction {
    New,
    NewDraft(usize),
    Reply((usize, u64), u64),
    Close,
    Edit(usize, u64),
    Kill(u128),
}

#[derive(Debug)]
pub enum MailingListAction {
    ListPost,
    ListArchive,
    ListUnsubscribe,
}

#[derive(Debug)]
pub enum ViewAction {
    Pipe(String, Vec<String>),
    SaveAttachment(usize, String),
}

#[derive(Debug)]
pub enum ComposeAction {
    AddAttachment(String),
    AddAttachmentPipe(String),
    RemoveAttachment(usize),
    SaveDraft,
    ToggleSign,
}

#[derive(Debug)]
pub enum AccountAction {
    ReIndex,
    PrintAccountSetting(String),
}

#[derive(Debug)]
pub enum MailboxOperation {
    Create(NewMailboxPath),
    Delete(MailboxPath),
    Subscribe(MailboxPath),
    Unsubscribe(MailboxPath),
    Rename(MailboxPath, NewMailboxPath),
    SetPermissions(MailboxPath),
}

/// By what a listing is sorted.
#[derive(Debug, Clone, Copy, PartialEq, Eq, Structural)]
pub enum SortField {
    Subject,
    Date,
}

/// In which direction a listing is sorted.
#[derive(Debug, Clone, Copy, PartialEq, Eq, Structural)]
pub enum SortOrder {
    Asc,
    Desc,
}

#[derive(Debug)]
pub enum Action {
    Listing(ListingAction),
    ViewMailbox(usize),
    Sort(SortField, SortOrder),
    SubSort(SortField, SortOrder),
    Tab(TabAction),
    ToggleThreadSnooze,
    MailingListAction(MailingListAction),
    View(ViewAction),
    SetEnv(String, String),
    PrintEnv(String),
    Compose(ComposeAction),
    Mailbox(AccountName, MailboxOperation),
    AccountAction(AccountName, AccountAction),
    PrintSetting(String),
}

impl Action {
    /// The actions that the user has to confirm: those on mailing lists and
    /// those that change a mailbox.
    pub open spec fn confirmed(&self) -> bool {
        self is MailingListAction || self is Mailbox
    }

    /// Whether the user is asked before the action is carried out.
    pub fn needs_confirmation(&self) -> (r: bool)
        ensures
            r == self.confirmed(),
    {
        match self {
            Action::Listing(_) => false,
            Action::ViewMailbox(_) => false,
            Action::Sort(_, _) => false,
            Action::SubSort(_, _) => false,
            Action::Tab(_) => false,
            Action::ToggleThreadSnooze => false,
            Action::MailingListAction(_) => true,
            Action::View(_) => false,
            Action::SetEnv(_, _) => false,
            Action::PrintEnv(_) => false,
            Action::Compose(_) => false,
            Action::Mailbox(_, _) => true,
            Action::AccountAction(_, _) => false,
            Action::PrintSetting(_) => false,
        }
    }
}

} // verus!
