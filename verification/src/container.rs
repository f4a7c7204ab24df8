//! The node type of the thread forest.

use vstd::prelude::*;

verus! {

/// Seconds since the epoch.
pub type UnixTimestamp = u64;

/// A node of the thread forest.
///
/// Containers live in an arena (a `Vec<Container>`) and name each other by
/// arena index. `message` is an index into the envelope collection; a
/// container without a message stands for a mail that is referenced by
/// others but is not in the collection itself. The children of a container
/// form a singly linked list: `first_child` is its head and `next_sibling`
/// leads from each child to the next. `parent` is the structural parent and
/// never changes once the forest is built; `display_parent`, `indentation`
/// and `show_subject` are derived for display by the flattening walk.
#[derive(Clone, Copy, Debug)]
pub struct Container {
    pub id: usize,
    pub message: Option<usize>,
    pub parent: Option<usize>,
    pub display_parent: Option<usize>,
    pub first_child: Option<usize>,
    pub next_sibling: Option<usize>,
    pub date: UnixTimestamp,
    pub indentation: usize,
    pub show_subject: bool,
}

impl Container {
    /// A container with no links, as it is when it enters the arena.
    pub open spec fn fresh(id: usize, message: Option<usize>, date: UnixTimestamp) -> Container {
        Container {
            id,
            message,
            parent: None,
            display_parent: None,
            first_child: None,
            next_sibling: None,
            date,
            indentation: 0,
            show_subject: true,
        }
    }

    /// Makes a container with no links.
    pub fn new(id: usize, message: Option<usize>, date: UnixTimestamp) -> (c: Container)
        ensures
            c == Container::fresh(id, message, date),
    {
        Container {
            id,
            message,
            parent: None,
            display_parent: None,
            first_child: None,
            next_sibling: None,
            date,
            indentation: 0,
            show_subject: true,
        }
    }

    pub fn message(&self) -> (r: Option<usize>)
        ensures
            r == self.message,
    {
        self.message
    }

    pub fn parent(&self) -> (r: Option<usize>)
        ensures
            r == self.parent,
    {
        self.parent
    }

    /// The parent to draw this container under: its structural parent where
    /// that one holds a message, after the flattening walk has visited it.
    pub fn display_parent(&self) -> (r: Option<usize>)
        ensures
            r == self.display_parent,
    {
        self.display_parent
    }

    pub fn has_parent(&self) -> (r: bool)
        ensures
            r == self.parent.is_some(),
    {
        self.parent.is_some()
    }

    pub fn first_child(&self) -> (r: Option<usize>)
        ensures
            r == self.first_child,
    {
        self.first_child
    }

    pub fn next_sibling(&self) -> (r: Option<usize>)
        ensures
            r == self.next_sibling,
    {
        self.next_sibling
    }

    pub fn has_children(&self) -> (r: bool)
        ensures
            r == self.first_child.is_some(),
    {
        self.first_child.is_some()
    }

    pub fn has_sibling(&self) -> (r: bool)
        ensures
            r == self.next_sibling.is_some(),
    {
        self.next_sibling.is_some()
    }

    pub fn has_message(&self) -> (r: bool)
        ensures
            r == self.message.is_some(),
    {
        self.message.is_some()
    }

    pub fn date(&self) -> (r: UnixTimestamp)
        ensures
            r == self.date,
    {
        self.date
    }

    pub fn set_indentation(&mut self, i: usize)
        ensures
            *final(self) == (Container { indentation: i, ..*old(self) }),
    {
        self.indentation = i;
    }

    pub fn indentation(&self) -> (r: usize)
        ensures
            r == self.indentation,
    {
        self.indentation
    }

    pub fn set_show_subject(&mut self, set: bool)
        ensures
            *final(self) == (Container { show_subject: set, ..*old(self) }),
    {
        self.show_subject = set;
    }

    pub fn show_subject(&self) -> (r: bool)
        ensures
            r == self.show_subject,
    {
        self.show_subject
    }

    /// Whether two containers stand for the same node: two containers that
    /// both hold a message are the same when they hold the same message, any
    /// other two when they have the same arena index.
    pub open spec fn same_node(&self, other: &Container) -> bool {
        match (self.message, other.message) {
            (Some(s), Some(o)) => s == o,
            _ => self.id == other.id,
        }
    }
}

impl PartialEq for Container {
    fn eq(&self, other: &Container) -> (r: bool) {
        match (self.message, other.message) {
            (Some(s), Some(o)) => s == o,
            _ => self.id == other.id,
        }
    }
}

impl vstd::std_specs::cmp::PartialEqSpecImpl for Container {
    open spec fn obeys_eq_spec() -> bool {
        true
    }

    open spec fn eq_spec(&self, other: &Container) -> bool {
        self.same_node(other)
    }
}

} // verus!
