//! Key bindings: chords of keys that stand for a command, and the handler
//! that decides, key by key, whether a chord is being typed.

use crate::keys::Key;
use vstd::prelude::*;

verus! {

/// A key as it was read, with the bytes that the terminal sent for it.
pub type Input = (Key, Vec<u8>);

/// A chord and the command that it stands for.
pub type Binding = (Vec<Key>, String);

/// The chords that are bound in normal mode.
#[derive(Debug, Clone, Default)]
pub struct Bindings {
    pub normal: Vec<Binding>,
}

/// Whether two keys are the same key; two pasted texts are the same when
/// they hold the same text.
pub open spec fn same_key(a: Key, b: Key) -> bool {
    match (a, b) {
        (Key::Paste(s), Key::Paste(t)) => s@ == t@,
        (Key::Paste(_), _) => false,
        (_, Key::Paste(_)) => false,
        _ => a == b,
    }
}

/// Compares two keys.
pub fn keys_equal(a: &Key, b: &Key) -> (r: bool)
    ensures
        r == same_key(*a, *b),
{
    match (a, b) {
        (Key::Backspace, Key::Backspace) => true,
        (Key::Left, Key::Left) => true,
        (Key::Right, Key::Right) => true,
        (Key::Up, Key::Up) => true,
        (Key::Down, Key::Down) => true,
        (Key::Home, Key::Home) => true,
        (Key::End, Key::End) => true,
        (Key::PageUp, Key::PageUp) => true,
        (Key::PageDown, Key::PageDown) => true,
        (Key::Delete, Key::Delete) => true,
        (Key::Insert, Key::Insert) => true,
        (Key::F(m), Key::F(n)) => *m == *n,
        (Key::Char(c), Key::Char(d)) => *c == *d,
        (Key::Alt(c), Key::Alt(d)) => *c == *d,
        (Key::Ctrl(c), Key::Ctrl(d)) => *c == *d,
        (Key::Null, Key::Null) => true,
        (Key::Esc, Key::Esc) => true,
        (Key::Mouse(e), Key::Mouse(f)) => *e == *f,
        (Key::Paste(s), Key::Paste(t)) => *s == *t,
        (Key::ChordTimeout, Key::ChordTimeout) => true,
        _ => false,
    }
}

/// Whether the keys typed so far are the start of a chord.
pub open spec fn starts_chord(typed: Seq<Input>, chord: Seq<Key>) -> bool {
    &&& typed.len() <= chord.len()
    &&& forall|j: int| 0 <= j < typed.len() ==> same_key(#[trigger] chord[j], typed[j].0)
}

/// The places, among the first `count` bindings, of those whose chord the
/// keys typed so far start.
pub open spec fn candidates(bindings: Seq<Binding>, typed: Seq<Input>, count: nat) -> Seq<usize>
    decreases count,
{
    if count == 0 {
        Seq::empty()
    } else if starts_chord(typed, bindings[count - 1].0@) {
        candidates(bindings, typed, (count - 1) as nat).push((count - 1) as usize)
    } else {
        candidates(bindings, typed, (count - 1) as nat)
    }
}

fn chord_starts_with(chord: &Vec<Key>, typed: &Vec<Input>) -> (r: bool)
    ensures
        r == starts_chord(typed@, chord@),
{
    if typed.len() > chord.len() {
        return false;
    }
    let mut j: usize = 0;
    while j < typed.len()
        invariant
            j <= typed.len(),
            typed.len() <= chord.len(),
            forall|k: int| 0 <= k < j ==> same_key(#[trigger] chord@[k], typed@[k].0),
        decreases typed.len() - j,
    {
        if !keys_equal(&chord[j], &typed[j].0) {
            assert(!same_key(chord@[j as int], typed@[j as int].0));
            return false;
        }
        j = j + 1;
    }
    true
}

/// The places of the bindings whose chord starts with the keys typed so
/// far, in the order of the bindings.
pub fn filter(bs: &Vec<Binding>, key: &Vec<Input>) -> (remaining: Vec<usize>)
    ensures
        remaining@ == candidates(bs@, key@, bs.len() as nat),
        forall|j: int| 0 <= j < remaining.len() ==> (#[trigger] remaining@[j]) < bs.len(),
{
    let mut remaining: Vec<usize> = Vec::new();
    let mut i: usize = 0;
    while i < bs.len()
        invariant
            i <= bs.len(),
            remaining@ == candidates(bs@, key@, i as nat),
            forall|j: int| 0 <= j < remaining.len() ==> (#[trigger] remaining@[j]) < bs.len(),
        decreases bs.len() - i,
    {
        if chord_starts_with(&bs[i].0, key) {
            remaining.push(i);
        }
        i = i + 1;
    }
    remaining
}

/// What the handler does with a key.
#[derive(Debug, Clone, Copy, PartialEq, Eq, Structural)]
pub enum Outcome {
    /// No chord starts with the keys typed: they are passed on as they are.
    PassOn,
    /// The keys typed are the only chord that starts with them: its
    /// command is passed on in their place, character by character.
    Command(usize),
    /// The keys typed start a chord and are not yet all of one: the
    /// handler waits for the next key.
    Wait,
}

/// What a key does, given the places of the bindings that the keys typed
/// so far start.
pub open spec fn outcome_of(bindings: Seq<Binding>, typed: Seq<Input>, found: Seq<usize>) -> Outcome {
    if found.len() == 0 {
        Outcome::PassOn
    } else if found.len() == 1 && typed.len() == bindings[found[0] as int].0@.len() {
        Outcome::Command(found[0])
    } else {
        Outcome::Wait
    }
}

/// The keys typed so far, after the handler has dropped those that were
/// left from a chord that ran out of time.
pub open spec fn typed_with(prefix: Seq<Input>, key: Key, bytes: Vec<u8>, timed_out: bool) -> Seq<Input> {
    if timed_out {
        seq![(key, bytes)]
    } else {
        prefix.push((key, bytes))
    }
}

/// Follows the keys of a chord as they come in.
#[derive(Debug, Clone, Default)]
pub struct BindingHandler {
    pub bindings: Bindings,
    pub prefix: Vec<Input>,
}

impl BindingHandler {
    /// A handler that has seen no key yet.
    pub fn new(bindings: Bindings) -> (handler: BindingHandler)
        ensures
            handler.bindings == bindings,
            handler.prefix@.len() == 0,
    {
        BindingHandler { bindings, prefix: Vec::new() }
    }

    /// Takes the next key. `timed_out` says that the time for the next
    /// key of a chord has run out since the last key.
    ///
    /// Returns what to do, and the keys to pass on before anything else:
    /// where the time has run out, the keys that were left over from
    /// before; where no chord starts with the keys typed, those keys as
    /// well. While the handler waits, it keeps the keys typed.
    pub fn handle_input(&mut self, key: Key, x: Vec<u8>, timed_out: bool) -> (r: (Outcome, Vec<Input>))
        ensures
            final(self).bindings == old(self).bindings,
            r.0 == outcome_of(
                old(self).bindings.normal@,
                typed_with(old(self).prefix@, key, x, timed_out),
                candidates(
                    old(self).bindings.normal@,
                    typed_with(old(self).prefix@, key, x, timed_out),
                    old(self).bindings.normal.len() as nat,
                ),
            ),
            r.0 is Wait ==> final(self).prefix@ == typed_with(old(self).prefix@, key, x, timed_out)
                && r.1@ == (if timed_out {
                old(self).prefix@
            } else {
                Seq::<Input>::empty()
            }),
            r.0 is Command ==> final(self).prefix@.len() == 0 && r.0->Command_0
                < old(self).bindings.normal.len() && r.1@ == (if timed_out {
                old(self).prefix@
            } else {
                Seq::<Input>::empty()
            }),
            r.0 is PassOn ==> final(self).prefix@.len() == 0 && r.1@ == old(self).prefix@.push(
                (key, x),
            ),
    {
        let ghost before = self.prefix@;
        let mut passed: Vec<Input> = Vec::new();
        if timed_out {
            std::mem::swap(&mut passed, &mut self.prefix);
            assert(passed@ == before);
            assert(self.prefix@.len() == 0);
        }
        self.prefix.push((key, x));
        assert(self.prefix@ =~= typed_with(before, key, x, timed_out));
        let found = filter(&self.bindings.normal, &self.prefix);
        if found.len() == 0 {
            let ghost typed = self.prefix@;
            let mut rest: Vec<Input> = Vec::new();
            std::mem::swap(&mut rest, &mut self.prefix);
            passed.append(&mut rest);
            assert(passed@ =~= before.push((key, x)));
            (Outcome::PassOn, passed)
        } else if found.len() == 1 && self.prefix.len() == self.bindings.normal[found[0]].0.len() {
            let mut rest: Vec<Input> = Vec::new();
            std::mem::swap(&mut rest, &mut self.prefix);
            (Outcome::Command(found[0]), passed)
        } else {
            (Outcome::Wait, passed)
        }
    }
}

} // verus!
