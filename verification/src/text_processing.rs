//! Small text helpers: matching a name against a glob, and shortening a
//! string at a grapheme boundary.

use unicode_segmentation::UnicodeSegmentation;
use vstd::prelude::*;
use vstd::string::StringSliceAdditionalSpecFns;
use vstd::utf8::{encode_utf8, is_char_boundary};

verus! {

/// The byte that stands for any run of bytes in a glob.
pub open spec fn star() -> u8 {
    42
}

/// Where the part of the glob that starts at `from` ends: at the next star,
/// or at the end of the glob.
pub open spec fn part_end(glob: Seq<u8>, from: int) -> int
    decreases glob.len() - from,
{
    if from >= glob.len() || glob[from] == star() {
        from
    } else {
        part_end(glob, from + 1)
    }
}

/// Whether `part` stands in `text` at `at`.
pub open spec fn starts_at(text: Seq<u8>, part: Seq<u8>, at: int) -> bool {
    &&& 0 <= at
    &&& at + part.len() <= text.len()
    &&& text.subrange(at, at + part.len()) == part
}

/// The first place at or behind `from` where `part` stands in `text`, or
/// the length of `text` where there is none.
pub open spec fn find_from(text: Seq<u8>, part: Seq<u8>, from: int) -> int
    decreases text.len() - from,
{
    if from >= text.len() {
        text.len() as int
    } else if starts_at(text, part, from) {
        from
    } else {
        find_from(text, part, from + 1)
    }
}

/// Whether the parts of `glob` from `from` on are found in `text` from `at`
/// on, one behind the other. The part at the start of the glob has to stand
/// where the text starts; each later one is taken at the first place where
/// it stands. An empty part is found anywhere; any other only before the
/// end of the text.
pub open spec fn matches_from(text: Seq<u8>, glob: Seq<u8>, from: int, at: int) -> bool
    decreases glob.len() - from,
{
    let end = part_end(glob, from);
    let part = glob.subrange(from, end);
    if from > glob.len() || end < from {
        true
    } else if part.len() == 0 {
        if end < glob.len() {
            matches_from(text, glob, end + 1, at)
        } else {
            true
        }
    } else if at >= text.len() {
        false
    } else {
        let found = if from == 0 {
            at
        } else {
            find_from(text, part, at)
        };
        if found < text.len() && starts_at(text, part, found) {
            if end < glob.len() {
                matches_from(text, glob, end + 1, found + part.len())
            } else {
                true
            }
        } else {
            false
        }
    }
}

/// Whether a text matches a glob, both as bytes.
pub open spec fn glob_matches(text: Seq<u8>, glob: Seq<u8>) -> bool {
    matches_from(text, glob, 0, 0)
}

/// The end of a part lies between its start and the end of the glob, and no
/// star stands in the part.
pub proof fn lemma_part_end(glob: Seq<u8>, from: int)
    requires
        0 <= from <= glob.len(),
    ensures
        from <= part_end(glob, from) <= glob.len(),
        part_end(glob, from) < glob.len() ==> glob[part_end(glob, from)] == star(),
    decreases glob.len() - from,
{
    if from < glob.len() && glob[from] != star() {
        lemma_part_end(glob, from + 1);
    }
}

fn part_end_at(glob: &[u8], from: usize) -> (end: usize)
    requires
        from <= glob@.len(),
    ensures
        end == part_end(glob@, from as int),
        from <= end <= glob@.len(),
{
    let mut end: usize = from;
    while end < glob.len() && glob[end] != 42
        invariant
            from <= end <= glob@.len(),
            part_end(glob@, from as int) == part_end(glob@, end as int),
        decreases glob@.len() - end,
    {
        end = end + 1;
    }
    end
}

fn stands_at(text: &[u8], glob: &[u8], from: usize, end: usize, at: usize) -> (r: bool)
    requires
        from <= end <= glob@.len(),
        at <= text@.len(),
    ensures
        r == starts_at(text@, glob@.subrange(from as int, end as int), at as int),
{
    let size = end - from;
    let length = text.len();
    let limit = glob.len();
    if size > length - at {
        return false;
    }
    let ghost part = glob@.subrange(from as int, end as int);
    let mut j: usize = 0;
    while j < size
        invariant
            j <= size,
            size == end - from,
            from <= end <= glob@.len(),
            at + size <= length,
            length == text@.len(),
            limit == glob@.len(),
            part == glob@.subrange(from as int, end as int),
            forall|k: int| 0 <= k < j ==> text@[at + k] == part[k],
        decreases size - j,
    {
        if text[at + j] != glob[from + j] {
            proof {
                assert(text@.subrange(at as int, at + size)[j as int] != part[j as int]);
            }
            return false;
        }
        j = j + 1;
    }
    assert(text@.subrange(at as int, at + size) =~= part);
    true
}

fn matches_bytes(text: &[u8], glob: &[u8]) -> (r: bool)
    ensures
        r == glob_matches(text@, glob@),
{
    let mut from: usize = 0;
    let mut at: usize = 0;
    loop
        invariant
            from <= glob@.len(),
            at <= text@.len(),
            glob_matches(text@, glob@) == matches_from(text@, glob@, from as int, at as int),
        decreases glob@.len() - from,
    {
        let end = part_end_at(glob, from);
        let ghost part = glob@.subrange(from as int, end as int);
        proof {
            lemma_part_end(glob@, from as int);
        }
        if end > from {
            if at >= text.len() {
                return false;
            }
            let mut found: usize = at;
            if from > 0 {
                while found < text.len() && !stands_at(text, glob, from, end, found)
                    invariant
                        at <= found <= text@.len(),
                        from <= end <= glob@.len(),
                        part == glob@.subrange(from as int, end as int),
                        find_from(text@, part, at as int) == find_from(text@, part, found as int),
                    decreases text@.len() - found,
                {
                    found = found + 1;
                }
            }
            if found >= text.len() || !stands_at(text, glob, from, end, found) {
                return false;
            }
            at = found + (end - from);
        }
        if end >= glob.len() {
            return true;
        }
        from = end + 1;
    }
}

/// Matching names against globs in which `*` stands for any run of bytes.
pub trait GlobMatch {
    fn matches_glob(&self, s: &str) -> bool;

    fn is_glob(&self) -> bool;
}

impl GlobMatch for str {
    /// Whether this text matches the glob `s`.
    fn matches_glob(&self, s: &str) -> (r: bool)
        ensures
            r == glob_matches(self.spec_bytes(), s.spec_bytes()),
    {
        matches_bytes(self.as_bytes(), s.as_bytes())
    }

    /// Whether this text holds a star.
    fn is_glob(&self) -> (r: bool)
        ensures
            r == self.spec_bytes().contains(star()),
    {
        let bytes = self.as_bytes();
        let mut j: usize = 0;
        while j < bytes.len()
            invariant
                j <= bytes@.len(),
                bytes@ == self.spec_bytes(),
                forall|k: int| 0 <= k < j ==> bytes@[k] != star(),
            decreases bytes@.len() - j,
        {
            if bytes[j] == 42 {
                assert(bytes@[j as int] == star());
                return true;
            }
            j = j + 1;
        }
        false
    }
}

/// The byte offsets at which the extended grapheme clusters of a text
/// start, in order.
pub uninterp spec fn grapheme_starts(text: Seq<char>) -> Seq<usize>;

/// Every offset of the list lies before the end of the bytes, on the
/// boundary of a character.
pub open spec fn all_boundaries(bytes: Seq<u8>, starts: Seq<usize>) -> bool {
    forall|j: int|
        0 <= j < starts.len() ==> (#[trigger] starts[j]) < bytes.len() && is_char_boundary(
            bytes,
            starts[j] as int,
        )
}

/// Calls `UnicodeSegmentation::grapheme_indices` for extended clusters and
/// hands out the byte offset of each cluster. Every cluster is a non-empty
/// slice of the text, so each offset lies before the end of the text and on
/// the boundary of a character.
#[verifier::external_body]
fn grapheme_offsets(text: &str) -> (starts: Vec<usize>)
    ensures
        starts@ == grapheme_starts(text@),
        all_boundaries(text.spec_bytes(), starts@),
{
    UnicodeSegmentation::grapheme_indices(text, true).map(|(at, _)| at).collect()
}

/// Calls `String::truncate`, which keeps the first `new_len` bytes of the
/// text, or all of it where it is no longer than that.
#[verifier::external_body]
fn truncate_bytes(text: &mut String, new_len: usize)
    requires
        is_char_boundary(encode_utf8(old(text)@), new_len as int),
    ensures
        encode_utf8(final(text)@) == kept_bytes(encode_utf8(old(text)@), new_len),
{
    text.truncate(new_len)
}

/// The first `new_len` of the bytes, or all of them where there are no more.
pub open spec fn kept_bytes(bytes: Seq<u8>, new_len: usize) -> Seq<u8> {
    if new_len <= bytes.len() {
        bytes.subrange(0, new_len as int)
    } else {
        bytes
    }
}

/// Where a text of `length` bytes is cut that is to be shortened to `new_len`: at the start
/// of its grapheme cluster number `new_len`, or of its last one where it
/// has fewer. `None` where the text stays as it is: it has no more than
/// `new_len` bytes, or `new_len` is zero, or it has no cluster at all.
pub open spec fn cut_point(length: int, starts: Seq<usize>, new_len: usize) -> Option<usize> {
    if new_len >= length || new_len == 0 || starts.len() == 0 {
        None
    } else if new_len <= starts.len() {
        Some(starts[new_len - 1])
    } else {
        Some(starts.last())
    }
}

/// The bytes of a text after it has been shortened to `new_len`.
pub open spec fn truncated(bytes: Seq<u8>, starts: Seq<usize>, new_len: usize) -> Seq<u8> {
    match cut_point(bytes.len() as int, starts, new_len) {
        Some(at) => kept_bytes(bytes, at),
        None => bytes,
    }
}

/// Picks the place of the cut from the starts of the grapheme clusters.
pub fn choose_cut(length: usize, starts: &Vec<usize>, new_len: usize) -> (cut: Option<usize>)
    ensures
        cut == cut_point(length as int, starts@, new_len),
{
    if new_len >= length || new_len == 0 || starts.len() == 0 {
        None
    } else if new_len <= starts.len() {
        Some(starts[new_len - 1])
    } else {
        Some(starts[starts.len() - 1])
    }
}

/// Shortening a text without splitting a grapheme cluster.
pub trait Truncate {
    fn truncate_at_boundary(self, new_len: usize);
}

impl Truncate for &mut String {
    /// Cuts the text at the start of its grapheme cluster number `new_len`,
    /// where it has more than `new_len` bytes.
    fn truncate_at_boundary(self, new_len: usize)
        ensures
            encode_utf8(final(self)@) == truncated(
                encode_utf8(old(self)@),
                grapheme_starts(old(self)@),
                new_len,
            ),
    {
        let ghost bytes = encode_utf8(self@);
        let text = self.as_str();
        let starts = grapheme_offsets(text);
        let length = text.as_bytes().len();
        proof {
            assert(text.spec_bytes() == bytes);
        }
        let cut = choose_cut(length, &starts, new_len);
        proof {
            assert(bytes.len() == length);
        }
        match cut {
            Some(at) => {
                proof {
                    if new_len <= starts@.len() {
                        assert(at == starts@[new_len - 1]);
                    } else {
                        assert(at == starts@[starts@.len() - 1]);
                    }
                }
                truncate_bytes(self, at);
            },
            None => {},
        }
    }
}

} // verus!
