//! Characters and their UTF-8 encoding.

use vstd::prelude::*;

verus! {

/// The UTF-8 encoding of one character.
pub open spec fn char_bytes(c: char) -> Seq<u8> {
    vstd::utf8::encode_scalar(c as u32)
}

/// `part` stands somewhere in `whole`, as one unbroken piece.
pub open spec fn is_substring<A>(part: Seq<A>, whole: Seq<A>) -> bool {
    exists|k: int| #[trigger] stands_at(part, whole, k)
}

/// `part` stands in `whole` from position `k` on.
pub open spec fn stands_at<A>(part: Seq<A>, whole: Seq<A>, k: int) -> bool {
    0 <= k <= whole.len() - part.len() && whole.subrange(k, k + part.len()) =~= part
}

/// The encoding of a text is the encodings of its pieces in a row.
pub proof fn encoding_of_concatenation(a: Seq<char>, b: Seq<char>)
    ensures
        vstd::utf8::encode_utf8(a + b) == vstd::utf8::encode_utf8(a) + vstd::utf8::encode_utf8(b),
    decreases a.len(),
{
    let whole = a + b;
    if a.len() == 0 {
        assert(whole =~= b);
    } else {
        assert(whole.drop_first() =~= a.drop_first() + b);
        encoding_of_concatenation(a.drop_first(), b);
    }
}

/// Where a text is encoded from `p` to `q`, a part of it is encoded in between.
pub proof fn part_of_encoding(t: Seq<char>, k: int, e: int, hay: Seq<u8>, p: int, q: int)
    requires
        0 <= p <= q <= hay.len(),
        vstd::utf8::encode_utf8(t) == hay.subrange(p, q),
        0 <= k <= e <= t.len(),
    ensures
        ({
            let s = p + vstd::utf8::encode_utf8(t.take(k)).len();
            let part = vstd::utf8::encode_utf8(t.subrange(k, e));
            p <= s && s + part.len() <= q && hay.subrange(s, s + part.len()) == part
        }),
{
    let part = t.subrange(k, e);
    let before = vstd::utf8::encode_utf8(t.take(k));
    let inside = vstd::utf8::encode_utf8(part);
    let after = vstd::utf8::encode_utf8(t.skip(e));
    encoding_of_concatenation(t.take(k), part + t.skip(e));
    encoding_of_concatenation(part, t.skip(e));
    assert(t =~= t.take(k) + (part + t.skip(e)));
    let s = p + before.len();
    let whole = hay.subrange(p, q);
    assert(whole == before + (inside + after));
    assert(whole.len() == before.len() + inside.len() + after.len());
    assert forall|m: int| 0 <= m < inside.len() implies hay.subrange(s, s + inside.len())[m]
        == inside[m] by {
        assert(whole[before.len() + m] == inside[m]);
    }
    assert(hay.subrange(s, s + inside.len()) =~= inside);
}

/// The encoding of a text of one character.
pub proof fn encoding_of_one(c: char)
    ensures
        vstd::utf8::encode_utf8(seq![c]) == char_bytes(c),
{
    reveal_with_fuel(vstd::utf8::encode_utf8, 2);
    assert(seq![c].drop_first() =~= Seq::<char>::empty());
}

/// The first byte of a character: itself where it is ASCII, else one of the bytes that can lead a
/// longer encoding.
pub proof fn first_byte_of_char(c: char)
    ensures
        char_bytes(c).len() > 0,
        c <= '\u{7f}' ==> char_bytes(c).len() == 1 && char_bytes(c)[0] as int == c as int,
        c > '\u{7f}' ==> 0xC2 <= char_bytes(c)[0] <= 0xF4,
{
    let s = c as u32;
    if vstd::utf8::has_width_1_encoding(s) {
        assert(s & 0x7F == s) by (bit_vector)
            requires
                s <= 0x7F,
        ;
    } else if vstd::utf8::has_width_2_encoding(s) {
        assert(0xC2 <= (0xC0 | ((s >> 6) & 0x1F) as u8) <= 0xF4) by (bit_vector)
            requires
                0x80 <= s <= 0x7FF,
        ;
    } else if vstd::utf8::has_width_3_encoding(s) {
        assert(0xC2 <= (0xE0 | ((s >> 12) & 0x0F) as u8) <= 0xF4) by (bit_vector);
    } else {
        assert(0xC2 <= (0xF0 | ((s >> 18) & 0x7) as u8) <= 0xF4) by (bit_vector)
            requires
                s <= 0x10FFFF,
        ;
    }
}

/// The UTF-8 encoding of `c`.
pub fn encode_char(c: char) -> (bytes: Vec<u8>)
    ensures
        bytes@ == char_bytes(c),
{
    let s: u32 = c as u32;
    let mut bytes: Vec<u8> = Vec::new();
    if s <= 0x7F {
        bytes.push((s & 0x7F) as u8);
    } else if s <= 0x7FF {
        bytes.push(0xC0 | ((s >> 6) & 0x1F) as u8);
        bytes.push(0x80 | (s & 0x3F) as u8);
    } else if s <= 0xFFFF {
        bytes.push(0xE0 | ((s >> 12) & 0x0F) as u8);
        bytes.push(0x80 | ((s >> 6) & 0x3F) as u8);
        bytes.push(0x80 | (s & 0x3F) as u8);
    } else {
        bytes.push(0xF0 | ((s >> 18) & 0x7) as u8);
        bytes.push(0x80 | ((s >> 12) & 0x3F) as u8);
        bytes.push(0x80 | ((s >> 6) & 0x3F) as u8);
        bytes.push(0x80 | (s & 0x3F) as u8);
    }
    assert(bytes@ =~= char_bytes(c));
    bytes
}

} // verus!
