//! What the mail backends share with the rest of the program.

use vstd::prelude::*;
use vstd::string::StringExecFns;

verus! {

/// The hash by which a mailbox is known.
pub type MailboxHash = u64;

/// An error of the notmuch backend, as the text that describes it.
#[derive(Debug)]
pub struct NotmuchError(pub String);

impl NotmuchError {
    /// The text of the error.
    pub fn message(&self) -> (r: &str)
        ensures
            r@ == self.0@,
    {
        self.0.as_str()
    }
}

/// One message of an IMAP mailbox and what has been fetched of it so far.
#[derive(Debug, Clone)]
pub struct ImapOp {
    pub uid: usize,
    pub bytes: Option<String>,
    pub headers: Option<String>,
    pub body: Option<String>,
    pub mailbox_path: String,
    pub mailbox_hash: MailboxHash,
    pub flags: Option<u8>,
}

impl ImapOp {
    /// The message `uid` of a mailbox, with nothing fetched yet.
    pub fn new(uid: usize, mailbox_path: String, mailbox_hash: MailboxHash) -> (op: ImapOp)
        ensures
            op.uid == uid,
            op.mailbox_path == mailbox_path,
            op.mailbox_hash == mailbox_hash,
            op.bytes is None,
            op.headers is None,
            op.body is None,
            op.flags is None,
    {
        ImapOp {
            uid,
            bytes: None,
            headers: None,
            body: None,
            mailbox_path,
            mailbox_hash,
            flags: None,
        }
    }

    /// Says in which mailbox the message lies.
    pub fn description(&self) -> (r: String)
        ensures
            r@ == "Message in mailbox: "@ + self.mailbox_path@,
    {
        let mut text = String::from_str("Message in mailbox: ");
        text.append(self.mailbox_path.as_str());
        text
    }
}

} // verus!
