//! The state of the component in which a mail is written.

use vstd::prelude::*;

verus! {

/// What the composer shows.
#[derive(Debug, Clone, Copy, PartialEq, Eq, Structural)]
pub enum ViewMode {
    Overview,
}

/// The draft that is being written, and whether it has to be drawn anew.
#[derive(Debug)]
pub struct Composer {
    pub dirty: bool,
    pub mode: ViewMode,
    pub buffer: String,
}

impl Default for Composer {
    fn default() -> (r: Composer)
        ensures
            r.dirty,
            r.mode == ViewMode::Overview,
            r.buffer@.len() == 0,
    {
        Composer { dirty: true, mode: ViewMode::Overview, buffer: String::new() }
    }
}

impl Composer {
    /// Whether the composer has to be drawn anew.
    pub fn is_dirty(&self) -> (r: bool)
        ensures
            r == self.dirty,
    {
        self.dirty
    }

    /// Marks the composer as to be drawn anew.
    pub fn set_dirty(&mut self)
        ensures
            final(self).dirty,
            final(self).mode == old(self).mode,
            final(self).buffer == old(self).buffer,
    {
        self.dirty = true;
    }

    /// What the composer is called in a listing.
    pub fn title(&self) -> (r: &'static str)
        ensures
            r@ == "compose"@,
    {
        "compose"
    }
}

} // verus!
