//! Reading a line of the configuration file as a directive that brings in
//! another file.

use vstd::prelude::*;

verus! {

/// Whether a byte is white space when read as a character.
pub open spec fn is_space(b: u8) -> bool {
    (9 <= b && b <= 13) || b == 32 || b == 133 || b == 160
}

/// Whether a byte opens and closes a path: one of the three quotes.
pub open spec fn is_quote(b: u8) -> bool {
    b == 34 || b == 39 || b == 96
}

/// The word that starts the directive.
pub open spec fn keyword() -> Seq<u8> {
    seq![105u8, 110u8, 99u8, 108u8, 117u8, 100u8, 101u8, 40u8]
}

/// The first place at or behind `from` that holds no white space, or the
/// length of the line.
pub open spec fn skip_space(line: Seq<u8>, from: int) -> int
    decreases line.len() - from,
{
    if from >= line.len() || !is_space(line[from]) {
        from
    } else {
        skip_space(line, from + 1)
    }
}

/// The first place at or behind `from` that holds `byte`, or the length of
/// the line.
pub open spec fn find_byte(line: Seq<u8>, from: int, byte: u8) -> int
    decreases line.len() - from,
{
    if from >= line.len() || line[from] == byte {
        from
    } else {
        find_byte(line, from + 1, byte)
    }
}

/// Whether the line holds nothing but white space from `from` on.
pub open spec fn only_space(line: Seq<u8>, from: int) -> bool {
    forall|j: int| from <= j < line.len() && 0 <= j ==> is_space(#[trigger] line[j])
}

/// Whether the keyword stands in the line at `at`.
pub open spec fn keyword_at(line: Seq<u8>, at: int) -> bool {
    &&& 0 <= at
    &&& at + 8 <= line.len()
    &&& line.subrange(at, at + 8) == keyword()
}

/// What a line says about bringing in a file.
#[derive(Debug, Clone, Copy, PartialEq, Eq, Structural)]
pub enum Directive {
    /// The line is no directive.
    Nothing,
    /// The line brings in the file whose path stands in the line from the
    /// first offset up to the second.
    Include(usize, usize),
    /// The line starts as a directive and does not end as one.
    Malformed,
}

/// What a line says. A line is a directive where, after white space, it
/// starts with the keyword and an opening bracket. What follows has to be a path between two equal
/// quotes, then nothing, or a closing bracket and nothing but white space.
/// A line that ends right behind the opening bracket is no directive.
pub open spec fn directive_of(line: Seq<u8>) -> Directive {
    let start = skip_space(line, 0);
    if !keyword_at(line, start) {
        Directive::Nothing
    } else if start + 8 >= line.len() {
        Directive::Nothing
    } else if !is_quote(line[start + 8]) {
        Directive::Malformed
    } else {
        let close = find_byte(line, start + 9, line[start + 8]);
        if close >= line.len() {
            Directive::Malformed
        } else if close + 1 < line.len() && line[close + 1] != 41 {
            Directive::Malformed
        } else if !only_space(line, close + 2) {
            Directive::Malformed
        } else {
            Directive::Include((start + 9) as usize, close as usize)
        }
    }
}

/// How many files deep one file may bring in another.
pub const MAX_DEPTH: u8 = 7;

/// Whether a file at this depth is too deep to be read: deeper than
/// `MAX_DEPTH`, which is what a file that brings in itself comes to.
pub fn too_deep(level: u8) -> (r: bool)
    ensures
        r == (level > MAX_DEPTH),
{
    level > MAX_DEPTH
}

fn space(b: u8) -> (r: bool)
    ensures
        r == is_space(b),
{
    (9 <= b && b <= 13) || b == 32 || b == 133 || b == 160
}

fn keyword_stands_at(line: &[u8], at: usize) -> (r: bool)
    requires
        at <= line@.len(),
    ensures
        r == keyword_at(line@, at as int),
{
    let size = line.len();
    if size - at < 8 {
        return false;
    }
    let found = line[at] == 105 && line[at + 1] == 110 && line[at + 2] == 99 && line[at + 3] == 108
        && line[at + 4] == 117 && line[at + 5] == 100 && line[at + 6] == 101 && line[at + 7] == 40;
    proof {
        let part = line@.subrange(at as int, at + 8);
        if found {
            assert(part =~= keyword());
        } else {
            assert(part[0] == line@[at + 0]);
            assert(part[1] == line@[at + 1]);
            assert(part[2] == line@[at + 2]);
            assert(part[3] == line@[at + 3]);
            assert(part[4] == line@[at + 4]);
            assert(part[5] == line@[at + 5]);
            assert(part[6] == line@[at + 6]);
            assert(part[7] == line@[at + 7]);
        }
    }
    found
}

/// Reads a line of the configuration file as a directive.
pub fn include_directive(line: &[u8]) -> (r: Directive)
    ensures
        r == directive_of(line@),
{
    let size = line.len();
    let mut start: usize = 0;
    while start < size && space(line[start])
        invariant
            start <= size,
            size == line@.len(),
            skip_space(line@, 0) == skip_space(line@, start as int),
        decreases size - start,
    {
        start = start + 1;
    }
    if !keyword_stands_at(line, start) {
        return Directive::Nothing;
    }
    let open = start + 8;
    if open >= size {
        return Directive::Nothing;
    }
    let quote = line[open];
    if !(quote == 34 || quote == 39 || quote == 96) {
        return Directive::Malformed;
    }
    let mut close: usize = open + 1;
    while close < size && line[close] != quote
        invariant
            open < close <= size,
            size == line@.len(),
            find_byte(line@, open + 1, quote) == find_byte(line@, close as int, quote),
        decreases size - close,
    {
        close = close + 1;
    }
    if close >= size {
        return Directive::Malformed;
    }
    if close + 1 < size && line[close + 1] != 41 {
        return Directive::Malformed;
    }
    let mut rest: usize = if size - close < 2 {
        size
    } else {
        close + 2
    };
    assert(directive_of(line@) == if only_space(line@, close + 2) {
        Directive::Include((open + 1) as usize, close)
    } else {
        Directive::Malformed
    });
    while rest < size
        invariant
            directive_of(line@) == if only_space(line@, close + 2) {
                Directive::Include((open + 1) as usize, close)
            } else {
                Directive::Malformed
            },
            close + 2 <= rest || rest == size,
            rest <= size,
            size == line@.len(),
            forall|j: int| close + 2 <= j < rest ==> is_space(#[trigger] line@[j]),
        decreases size - rest,
    {
        if !space(line[rest]) {
            assert(!is_space(line@[rest as int]));
            return Directive::Malformed;
        }
        rest = rest + 1;
    }
    Directive::Include(open + 1, close)
}

} // verus!
