//! The metadata of one mail, as far as threading reads it.

use crate::container::UnixTimestamp;
use vstd::prelude::*;
use vstd::string::StringExecFns;

verus! {

/// What an envelope holds, as mathematical values.
pub ghost struct EnvelopeView {
    pub message_id: Seq<char>,
    pub references: Seq<Seq<char>>,
    pub in_reply_to: Seq<char>,
    pub date: UnixTimestamp,
    pub subject: Seq<char>,
    pub thread: Option<usize>,
}

/// The headers of a mail that threading needs, already decoded, and the
/// index of the container that the mail was bound to.
///
/// `references` lists the Message-IDs of the ancestors, oldest first.
#[derive(Debug)]
pub struct Envelope {
    message_id: String,
    references: Vec<String>,
    in_reply_to: String,
    date: UnixTimestamp,
    subject: String,
    thread: Option<usize>,
}

/// What a reply puts before the subject that it answers.
pub open spec fn reply_prefix() -> Seq<char> {
    seq!['R', 'e', ':', ' ']
}

/// The texts of a list of strings.
pub open spec fn texts(list: Seq<String>) -> Seq<Seq<char>> {
    Seq::new(list.len(), |j: int| list[j]@)
}

impl View for Envelope {
    type V = EnvelopeView;

    closed spec fn view(&self) -> EnvelopeView {
        EnvelopeView {
            message_id: self.message_id@,
            references: texts(self.references@),
            in_reply_to: self.in_reply_to@,
            date: self.date,
            subject: self.subject@,
            thread: self.thread,
        }
    }
}

impl Envelope {
    /// Makes an envelope that is bound to no container yet.
    pub fn new(
        message_id: String,
        references: Vec<String>,
        in_reply_to: String,
        date: UnixTimestamp,
        subject: String,
    ) -> (e: Envelope)
        ensures
            e@ == (EnvelopeView {
                message_id: message_id@,
                references: texts(references@),
                in_reply_to: in_reply_to@,
                date,
                subject: subject@,
                thread: None,
            }),
    {
        Envelope { message_id, references, in_reply_to, date, subject, thread: None }
    }

    pub fn message_id_raw(&self) -> (r: &str)
        ensures
            r@ == self@.message_id,
    {
        self.message_id.as_str()
    }

    pub fn references(&self) -> (r: &Vec<String>)
        ensures
            texts(r@) == self@.references,
    {
        &self.references
    }

    /// The most recent of the references, if there is any.
    pub fn last_reference(&self) -> (r: Option<&str>)
        ensures
            self@.references.len() == 0 ==> r is None,
            self@.references.len() > 0 ==> r is Some && r->0@ == self@.references.last(),
    {
        let n = self.references.len();
        if n == 0 {
            None
        } else {
            Some(self.references[n - 1].as_str())
        }
    }

    pub fn in_reply_to_raw(&self) -> (r: &str)
        ensures
            r@ == self@.in_reply_to,
    {
        self.in_reply_to.as_str()
    }

    pub fn date(&self) -> (r: UnixTimestamp)
        ensures
            r == self@.date,
    {
        self.date
    }

    pub fn subject(&self) -> (r: &str)
        ensures
            r@ == self@.subject,
    {
        self.subject.as_str()
    }

    /// Whether the two envelopes have the same subject.
    pub fn same_subject(&self, other: &Envelope) -> (r: bool)
        ensures
            r == (self@.subject == other@.subject),
    {
        self.subject == other.subject
    }

    /// Whether the subject of this envelope is that of `other` with the
    /// reply prefix before it.
    pub fn answers_subject(&self, other: &Envelope) -> (r: bool)
        ensures
            r == (self@.subject == reply_prefix() + other@.subject),
    {
        let mut expected = String::from_str("Re: ");
        proof {
            reveal_strlit("Re: ");
            assert("Re: "@ =~= reply_prefix());
        }
        expected.append(other.subject.as_str());
        self.subject == expected
    }

    /// The container that this envelope is bound to.
    pub fn thread(&self) -> (r: Option<usize>)
        ensures
            r == self@.thread,
    {
        self.thread
    }

    pub fn set_thread(&mut self, index: usize)
        ensures
            final(self)@ == (EnvelopeView { thread: Some(index), ..old(self)@ }),
    {
        self.thread = Some(index);
    }

    /// A copy of this envelope.
    pub fn duplicate(&self) -> (e: Envelope)
        ensures
            e@ == self@,
    {
        let mut references: Vec<String> = Vec::new();
        let mut j: usize = 0;
        while j < self.references.len()
            invariant
                j <= self.references.len(),
                references.len() == j,
                forall|k: int| 0 <= k < j ==> (#[trigger] references@[k])@ == self.references@[k]@,
            decreases self.references.len() - j,
        {
            references.push(self.references[j].clone());
            j = j + 1;
        }
        assert(texts(references@) =~= texts(self.references@));
        Envelope {
            message_id: self.message_id.clone(),
            references,
            in_reply_to: self.in_reply_to.clone(),
            date: self.date,
            subject: self.subject.clone(),
            thread: self.thread,
        }
    }
}

impl Clone for Envelope {
    fn clone(&self) -> (e: Envelope)
        ensures
            e@ == self@,
    {
        self.duplicate()
    }
}

} // verus!
