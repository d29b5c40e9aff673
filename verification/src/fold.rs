//! Case-insensitive comparison of characters: Unicode simple case folding.

use regex_syntax::hir::{ClassUnicode, ClassUnicodeRange};
use vstd::prelude::*;

verus! {

/// The ranges of the characters that simple case folding holds equivalent to `c`, or `None` where
/// there is no case folding data: what `ClassUnicode::try_case_fold_simple` of `regex_syntax` makes
/// of the class of `c` alone.
pub uninterp spec fn simple_fold_ranges(c: char) -> Option<Seq<(char, char)>>;

/// Whether one of the inclusive `ranges` holds `c`.
pub open spec fn in_char_ranges(ranges: Seq<(char, char)>, c: char) -> bool {
    exists|k: int| 0 <= k < ranges.len() && (#[trigger] ranges[k]).0 <= c <= ranges[k].1
}

/// Whether the number `n` is that of a character: surrogates are none.
pub open spec fn is_char_number(n: int) -> bool {
    0 <= n <= 0x10FFFF && !(0xD800 <= n <= 0xDFFF)
}

/// The characters numbered `first` to `last`, in ascending order.
pub open spec fn chars_between(first: int, last: int) -> Seq<char>
    decreases last - first + 1,
{
    if last < first {
        Seq::empty()
    } else if is_char_number(last) {
        chars_between(first, last - 1).push(last as char)
    } else {
        chars_between(first, last - 1)
    }
}

/// The characters of `ranges`, range by range.
pub open spec fn chars_of_ranges(ranges: Seq<(char, char)>) -> Seq<char>
    decreases ranges.len(),
{
    if ranges.len() == 0 {
        Seq::empty()
    } else {
        chars_of_ranges(ranges.drop_last()) + chars_between(
            ranges.last().0 as int,
            ranges.last().1 as int,
        )
    }
}

/// The characters equivalent to `c` under simple case folding, or `None` without the data.
pub open spec fn fold_chars(c: char) -> Option<Seq<char>> {
    match simple_fold_ranges(c) {
        Some(ranges) => Some(chars_of_ranges(ranges)),
        None => None,
    }
}

/// Whether `c` has the property `Alphabetic` of Unicode: what `char::is_alphabetic` returns.
pub uninterp spec fn is_alphabetic(c: char) -> bool;

/// Whether a case-insensitive `c` can match `t`. Without case folding data nothing is ruled out for
/// a letter; what is no letter has no case, and matches itself.
pub open spec fn folds_to(c: char, t: char) -> bool {
    match simple_fold_ranges(c) {
        Some(ranges) => in_char_ranges(ranges, t),
        None => is_alphabetic(c) || c == t,
    }
}

/// Whether the ranges are in ascending order, none of them empty and no two of them overlapping.
pub open spec fn ranges_ascend(ranges: Seq<(char, char)>) -> bool {
    &&& forall|i: int| 0 <= i < ranges.len() ==> (#[trigger] ranges[i]).0 <= ranges[i].1
    &&& forall|i: int, j: int|
        0 <= i < j < ranges.len() ==> (#[trigger] ranges[i]).1 < (#[trigger] ranges[j]).0
}

/// Whether the characters are in ascending order, none of them twice.
pub open spec fn chars_ascend(chars: Seq<char>) -> bool {
    forall|i: int, j: int| 0 <= i < j < chars.len() ==> #[trigger] chars[i] < #[trigger] chars[j]
}

/// Calls `ClassUnicode::try_case_fold_simple` on the class of `c` alone and hands out the ranges of
/// the class. The outcome is a function of `c`. The class only grows: it still holds `c`. Its ranges
/// are sorted and do not overlap. Folding is symmetric: the class of `c` holds those characters whose
/// own class holds `c`.
#[verifier::external_body]
fn simple_fold(c: char) -> (ranges: Option<Vec<(char, char)>>)
    ensures
        ranges is None ==> simple_fold_ranges(c) is None,
        ranges matches Some(v) ==> {
            &&& simple_fold_ranges(c) == Some(v@)
            &&& in_char_ranges(v@, c)
            &&& ranges_ascend(v@)
            &&& forall|d: char| #[trigger]
                in_char_ranges(v@, d) <==> (simple_fold_ranges(d) matches Some(w) && in_char_ranges(
                    w,
                    c,
                ))
        },
{
    let mut class = ClassUnicode::new([ClassUnicodeRange::new(c, c)]);
    class.try_case_fold_simple().ok()?;
    Some(class.iter().map(|r| (r.start(), r.end())).collect())
}

/// Calls `char::is_alphabetic`. The outcome is a function of the character.
#[verifier::external_body]
pub(crate) fn char_is_alphabetic(c: char) -> (alphabetic: bool)
    ensures
        alphabetic == is_alphabetic(c),
{
    c.is_alphabetic()
}

/// Calls `char::from_u32`: the character numbered `n`, or `None` where there is none.
#[verifier::external_body]
fn char_from_u32(n: u32) -> (c: Option<char>)
    ensures
        c is Some <==> is_char_number(n as int),
        c matches Some(c) ==> c as u32 == n,
{
    char::from_u32(n)
}

/// A list of characters from `first` to `last` holds exactly those.
proof fn chars_between_members(first: int, last: int, c: char)
    ensures
        chars_between(first, last).contains(c) <==> first <= c as int <= last,
    decreases last - first + 1,
{
    if first <= last {
        chars_between_members(first, last - 1, c);
        let rest = chars_between(first, last - 1);
        if is_char_number(last) {
            let all = rest.push(last as char);
            assert(all[rest.len() as int] == last as char);
            if rest.contains(c) {
                let k = choose|k: int| 0 <= k < rest.len() && rest[k] == c;
                assert(all[k] == c);
            }
            if all.contains(c) {
                let k = choose|k: int| 0 <= k < all.len() && all[k] == c;
                assert(k < rest.len() ==> rest[k] == c);
            }
        }
    }
}

/// The characters of a list of ranges are those that one of the ranges holds.
pub proof fn chars_of_ranges_members(ranges: Seq<(char, char)>, c: char)
    ensures
        chars_of_ranges(ranges).contains(c) <==> in_char_ranges(ranges, c),
    decreases ranges.len(),
{
    if ranges.len() > 0 {
        let rest = ranges.drop_last();
        let (lo, hi) = ranges.last();
        chars_of_ranges_members(rest, c);
        chars_between_members(lo as int, hi as int, c);
        let a = chars_of_ranges(rest);
        let b = chars_between(lo as int, hi as int);
        if a.contains(c) {
            let k = choose|k: int| 0 <= k < a.len() && a[k] == c;
            assert((a + b)[k] == c);
            let m = choose|m: int| 0 <= m < rest.len() && (#[trigger] rest[m]).0 <= c <= rest[m].1;
            assert(ranges[m] == rest[m]);
        }
        if b.contains(c) {
            let k = choose|k: int| 0 <= k < b.len() && b[k] == c;
            assert((a + b)[a.len() + k] == c);
            assert(ranges[ranges.len() - 1] == (lo, hi));
        }
        if (a + b).contains(c) {
            let k = choose|k: int| 0 <= k < (a + b).len() && (a + b)[k] == c;
            if k < a.len() {
                assert(a[k] == c);
            } else {
                assert(b[k - a.len()] == c);
            }
        }
        if in_char_ranges(ranges, c) {
            let m = choose|m: int| 0 <= m < ranges.len() && (#[trigger] ranges[m]).0 <= c <= ranges[m].1;
            if m < rest.len() {
                assert(rest[m] == ranges[m]);
            }
        }
    }
}

/// A list of characters from `first` to `last` is ascending.
proof fn chars_between_ascend(first: int, last: int)
    ensures
        chars_ascend(chars_between(first, last)),
    decreases last - first + 1,
{
    if first <= last {
        chars_between_ascend(first, last - 1);
        let rest = chars_between(first, last - 1);
        if is_char_number(last) {
            let all = rest.push(last as char);
            assert forall|i: int, j: int| 0 <= i < j < all.len() implies #[trigger] all[i]
                < #[trigger] all[j] by {
                if j == rest.len() {
                    assert(rest.contains(rest[i]));
                    chars_between_members(first, last - 1, rest[i]);
                }
            }
        }
    }
}

/// The characters of a list of ranges are ascending where the ranges are.
proof fn chars_of_ranges_ascend(ranges: Seq<(char, char)>)
    requires
        ranges_ascend(ranges),
    ensures
        chars_ascend(chars_of_ranges(ranges)),
    decreases ranges.len(),
{
    if ranges.len() > 0 {
        let rest = ranges.drop_last();
        let (lo, hi) = ranges.last();
        let a = chars_of_ranges(rest);
        let b = chars_between(lo as int, hi as int);
        let all = chars_of_ranges(ranges);
        assert(forall|i: int| 0 <= i < rest.len() ==> #[trigger] rest[i] == ranges[i]);
        chars_of_ranges_ascend(rest);
        chars_between_ascend(lo as int, hi as int);
        assert forall|i: int, j: int| 0 <= i < j < all.len() implies #[trigger] all[i]
            < #[trigger] all[j] by {
            if j < a.len() {
                assert(a[i] < a[j]);
            } else if i >= a.len() {
                assert(b[i - a.len()] < b[j - a.len()]);
            } else {
                let c = a[i];
                let d = b[j - a.len()];
                assert(a.contains(c));
                chars_of_ranges_members(rest, c);
                let m = choose|m: int|
                    0 <= m < rest.len() && (#[trigger] rest[m]).0 <= c <= rest[m].1;
                assert(ranges[m].1 < ranges[ranges.len() - 1].0);
                assert(b.contains(d));
                chars_between_members(lo as int, hi as int, d);
            }
        }
    }
}

/// Appends the characters from `first` to `last`.
fn push_chars(chars: &mut Vec<char>, first: char, last: char)
    ensures
        final(chars)@ == old(chars)@ + chars_between(first as int, last as int),
{
    let mut n: u32 = first as u32;
    while n <= last as u32
        invariant
            first as u32 <= n <= 0x110000,
            n <= last as int + 1 || n == first as u32,
            chars@ == old(chars)@ + chars_between(first as int, n - 1),
        decreases 0x110000 - n,
    {
        if let Some(c) = char_from_u32(n) {
            chars.push(c);
            proof {
                vstd::utf8::char_u32_cast(c, n);
            }
        }
        assert(chars@ =~= old(chars)@ + chars_between(first as int, n as int));
        n += 1;
    }
    assert(chars_between(first as int, n - 1) =~= chars_between(first as int, last as int));
}

/// The characters equivalent to `c` under Unicode simple case folding, `c` included, in ascending
/// order.
pub fn case_folds(c: char) -> (folds: Option<Vec<char>>)
    ensures
        folds is None <==> fold_chars(c) is None,
        folds matches Some(v) ==> {
            &&& fold_chars(c) == Some(v@)
            &&& v@.contains(c)
            &&& chars_ascend(v@)
            &&& forall|d: char| #[trigger]
                v@.contains(d) <==> (fold_chars(d) matches Some(w) && w.contains(c))
        },
{
    let ranges = match simple_fold(c) {
        Some(ranges) => ranges,
        None => return None,
    };
    let mut folds: Vec<char> = Vec::new();
    let mut i: usize = 0;
    while i < ranges.len()
        invariant
            i <= ranges@.len(),
            folds@ == chars_of_ranges(ranges@.take(i as int)),
        decreases ranges@.len() - i,
    {
        push_chars(&mut folds, ranges[i].0, ranges[i].1);
        proof {
            assert(ranges@.take(i + 1).drop_last() =~= ranges@.take(i as int));
        }
        i += 1;
    }
    proof {
        assert(ranges@.take(i as int) =~= ranges@);
        chars_of_ranges_members(ranges@, c);
        chars_of_ranges_ascend(ranges@);
        assert forall|d: char| #[trigger]
            folds@.contains(d) <==> (fold_chars(d) matches Some(w) && w.contains(c)) by {
            chars_of_ranges_members(ranges@, d);
            assert(in_char_ranges(ranges@, d) <==> (simple_fold_ranges(d) matches Some(w)
                && in_char_ranges(w, c)));
            if let Some(w) = simple_fold_ranges(d) {
                chars_of_ranges_members(w, c);
            }
        }
    }
    Some(folds)
}

/// What the case folds of a character are: each character that a range of its folded class holds, in
/// ascending order, or nothing where there is no folded class.
pub proof fn the_folds_are_the_class(c: char, folds: Option<Vec<char>>)
    requires
        call_ensures(case_folds, (c,), folds),
    ensures
        match (simple_fold_ranges(c), folds) {
            (Some(ranges), Some(v)) => {
                &&& forall|i: int, j: int| 0 <= i < j < v@.len() ==> v@[i] < v@[j]
                &&& forall|d: char| #[trigger]
                    v@.contains(d) <==> exists|m: int|
                        0 <= m < ranges.len() && (#[trigger] ranges[m]).0 <= d <= ranges[m].1
            },
            (None, None) => true,
            _ => false,
        },
{
    if let (Some(ranges), Some(v)) = (simple_fold_ranges(c), folds) {
        assert forall|d: char| #[trigger]
            v@.contains(d) <==> exists|m: int|
                0 <= m < ranges.len() && (#[trigger] ranges[m]).0 <= d <= ranges[m].1 by {
            chars_of_ranges_members(ranges, d);
        }
        assert forall|i: int, j: int| 0 <= i < j < v@.len() implies v@[i] < v@[j] by {
            assert(chars_ascend(v@));
        }
    }
}

} // verus!
