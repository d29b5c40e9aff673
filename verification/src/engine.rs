//! The regular expression engine that the prefilters stand in front of.

use std::sync::Arc;

use vstd::prelude::*;

use crate::expr::Expr;
use crate::options::{BytesMode, RegexOptions, Result};
use crate::text;

verus! {

/// What is searched, and how.
#[derive(Clone, Copy, Debug)]
pub struct RegexInput<'t> {
    /// The bytes that are searched
    pub haystack: &'t [u8],
    /// Whether the haystack is UTF-8 text or bytes of any kind
    pub kind: BytesMode,
    /// Where the search starts
    pub start: usize,
    /// Where the search ends
    pub end: usize,
    /// Whether a match has to start where the search starts
    pub anchored: bool,
}

/// The number of bytes of the character that `b` leads.
pub open spec fn char_len(b: u8) -> int {
    if b < 0x80 {
        1
    } else if b < 0xE0 {
        2
    } else if b < 0xF0 {
        3
    } else {
        4
    }
}

impl<'t> RegexInput<'t> {
    /// Whether the search ends within the haystack, which is no longer than a slice can be.
    pub open spec fn is_valid(self) -> bool {
        self.end <= self.haystack@.len() <= isize::MAX
    }

    /// The position after `pos`: that of the next character of a text, or of the next byte.
    pub open spec fn next_position(self, pos: int) -> int {
        match self.kind {
            BytesMode::Unicode => pos + char_len(self.haystack@[pos]),
            BytesMode::Bytes => pos + 1,
        }
    }

    /// The position after `pos`.
    pub fn advance_position(&self, pos: usize) -> (next: usize)
        requires
            self.is_valid(),
            pos < self.haystack@.len(),
        ensures
            next == self.next_position(pos as int),
    {
        match self.kind {
            BytesMode::Unicode => {
                let b: u8 = self.haystack[pos];
                if b < 0x80 {
                    pos + 1
                } else if b < 0xE0 {
                    pos + 2
                } else if b < 0xF0 {
                    pos + 3
                } else {
                    pos + 4
                }
            },
            BytesMode::Bytes => pos + 1,
        }
    }
}

/// A match of one of several patterns.
#[derive(Clone, Copy, Debug, PartialEq, Eq)]
pub struct RegexSetMatch {
    /// The number of the pattern
    pub pattern_index: usize,
    /// Where the match starts
    pub start: usize,
    /// Where the match ends
    pub end: usize,
}

/// A compiled pattern of an engine, and what the engine does with patterns. Nothing is taken for
/// granted of its answers: what is stated of a search is stated of whatever the engine answers.
pub trait Regex: Sized {
    /// Several compiled patterns that are searched for at once
    type Set;

    /// The matches that a search for several patterns finds
    type Matches;

    /// Parses `pattern`.
    fn parse_tree(pattern: &str, options: &RegexOptions) -> Result<Expr>;

    /// Rewrites a parsed pattern to the one that is compiled.
    fn optimize(tree: Expr) -> Expr;

    /// Compiles `pattern`.
    fn new_options(pattern: String, options: &RegexOptions) -> Result<Self>;

    /// Puts compiled patterns together.
    fn set_from_regexes(regexes: Vec<Arc<Self>>) -> Result<Self::Set>;

    /// Searches for all patterns of a set. Their numbers are their places in the set.
    fn set_find_input(set: &Self::Set, input: &RegexInput) -> Result<Option<Self::Matches>>;

    /// The first of the matches that a search found.
    fn first_match(matches: Self::Matches) -> Option<Result<RegexSetMatch>>;

    /// Matches one pattern at the position `pos`. The match bears the number `index`.
    fn match_at(
        regex: &Self,
        index: usize,
        input: &RegexInput,
        pos: usize,
    ) -> Result<Option<RegexSetMatch>>;
}

/// The position that follows one of a text is where the next character starts: behind the first
/// `k + 1` characters, where it was behind the first `k`.
pub proof fn the_next_position_is_the_next_character(input: RegexInput, t: Seq<char>, k: int)
    requires
        input.haystack@ == vstd::utf8::encode_utf8(t),
        input.kind == BytesMode::Unicode,
        0 <= k < t.len(),
    ensures
        input.next_position(vstd::utf8::encode_utf8(t.take(k)).len() as int)
            == vstd::utf8::encode_utf8(t.take(k + 1)).len(),
{
    let c = t[k];
    let at = vstd::utf8::encode_utf8(t.take(k));
    text::encoding_of_concatenation(t.take(k), t.skip(k));
    text::encoding_of_concatenation(t.take(k), seq![c]);
    text::encoding_of_concatenation(seq![c], t.skip(k + 1));
    text::encoding_of_one(c);
    assert(t =~= t.take(k) + t.skip(k));
    assert(t.skip(k) =~= seq![c] + t.skip(k + 1));
    assert(t.take(k + 1) =~= t.take(k) + seq![c]);
    text::first_byte_of_char(c);
    assert(input.haystack@[at.len() as int] == text::char_bytes(c)[0]);
    lead_byte_tells_length(c);
}

/// The first byte of a character tells the length of its encoding.
proof fn lead_byte_tells_length(c: char)
    ensures
        text::char_bytes(c).len() > 0,
        char_len(text::char_bytes(c)[0]) == text::char_bytes(c).len(),
{
    text::first_byte_of_char(c);
    let s = c as u32;
    if vstd::utf8::has_width_1_encoding(s) {
    } else if vstd::utf8::has_width_2_encoding(s) {
        assert((0xC0 | ((s >> 6) & 0x1F) as u8) < 0xE0) by (bit_vector);
    } else if vstd::utf8::has_width_3_encoding(s) {
        assert(0xE0 <= (0xE0 | ((s >> 12) & 0x0F) as u8) < 0xF0) by (bit_vector);
    } else {
        assert(0xF0 <= (0xF0 | ((s >> 18) & 0x7) as u8)) by (bit_vector);
    }
}

/// The position that follows one of bytes of any kind is that of the next byte.
pub proof fn the_next_position_is_the_next_byte(input: RegexInput, pos: int)
    requires
        input.kind == BytesMode::Bytes,
    ensures
        input.next_position(pos) == pos + 1,
{
}

/// How far the next position of a text is: one byte behind an ASCII character, and as many as a first
/// byte says otherwise, by the bits that it starts with.
pub proof fn the_first_bits_tell_the_next_position(input: RegexInput, pos: int)
    requires
        input.kind == BytesMode::Unicode,
        0 <= pos < input.haystack@.len(),
    ensures
        ({
            let b = input.haystack@[pos];
            input.next_position(pos) - pos == if b & 0x80 == 0 {
                1int
            } else if b & 0xF0 == 0xF0 {
                4
            } else if b & 0xF0 == 0xE0 {
                3
            } else {
                2
            }
        }),
{
    let b = input.haystack@[pos];
    assert((b & 0x80 == 0 <==> b < 0x80) && (b & 0xF0 == 0xF0 <==> b >= 0xF0) && (b & 0xF0 == 0xE0
        <==> 0xE0 <= b < 0xF0)) by (bit_vector);
}

} // verus!
