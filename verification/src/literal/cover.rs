//! Literals that cover others: where one stands, another stands inside it.

use vstd::prelude::*;

use crate::fold;
use crate::literal::needles;
use crate::literal::required::{self, LiteralView, RequiredLiteral};
use crate::semantics;
use crate::text;

verus! {

/// `s` in lower case: what `str::to_lowercase` returns.
pub uninterp spec fn lowercase_of(s: Seq<char>) -> Seq<char>;

/// Whether `s` holds an alphabetic character.
pub open spec fn has_alphabetic(s: Seq<char>) -> bool {
    exists|k: int| 0 <= k < s.len() && fold::is_alphabetic(#[trigger] s[k])
}

/// Whether `list` holds each of `others`.
pub open spec fn holds_each(list: Seq<char>, others: Seq<char>) -> bool {
    forall|k: int| 0 <= k < others.len() ==> list.contains(#[trigger] others[k])
}

/// Whether a case-insensitive `c` matches whatever `d` matches. Without case folding data a letter
/// matches anything, and what is no letter matches itself.
pub open spec fn folds_hold(c: char, d: char, d_casei: bool) -> bool {
    match (fold::fold_chars(c), fold::fold_chars(d)) {
        (Some(folds), Some(others)) => if d_casei {
            holds_each(folds, others)
        } else {
            folds.contains(d)
        },
        (Some(folds), None) => !d_casei && folds.contains(d),
        (None, _) => fold::is_alphabetic(c) || c == d,
    }
}

/// Whether a case-insensitive `short` matches the part of `long` from `k` on, whatever its case.
pub open spec fn matches_part(short: Seq<char>, long: LiteralView, k: int) -> bool {
    &&& 0 <= k <= long.0.len() - short.len()
    &&& forall|m: int|
        0 <= m < short.len() ==> folds_hold(#[trigger] short[m], long.0[k + m], long.1)
}

/// Whether `c` matches nothing but itself in any case. Without case folding data that is so of what
/// is no letter.
pub open spec fn is_caseless(c: char) -> bool {
    match fold::fold_chars(c) {
        Some(folds) => holds_each(seq![c], folds),
        None => !fold::is_alphabetic(c),
    }
}

/// Whether each character of `s` matches nothing but itself in any case.
pub open spec fn all_caseless(s: Seq<char>) -> bool {
    forall|m: int| 0 <= m < s.len() ==> is_caseless(#[trigger] s[m])
}

/// Whether `short` makes `long` needless: `short` stands wherever `long` stands. Where `short`
/// matches in any case, it is part of `long` in lower case, and matches a part of it by its case
/// folds. A `short` that does not covers a `long` that does only if it appears as is and nothing in
/// it has a case.
pub open spec fn covers(short: LiteralView, long: LiteralView) -> bool {
    if short.1 {
        &&& text::is_substring(lowercase_of(short.0), lowercase_of(long.0))
        &&& exists|k: int| #[trigger] matches_part(short.0, long, k)
    } else if long.1 {
        &&& text::is_substring(short.0, long.0)
        &&& !has_alphabetic(short.0)
        &&& all_caseless(short.0)
    } else {
        text::is_substring(short.0, long.0)
    }
}

/// `literal` put in front of the first of `sorted` that is not shorter.
pub open spec fn placed(sorted: Seq<LiteralView>, literal: LiteralView) -> Seq<LiteralView>
    decreases sorted.len(),
{
    if sorted.len() == 0 || required::byte_len(literal) <= required::byte_len(sorted[0]) {
        seq![literal] + sorted
    } else {
        seq![sorted[0]] + placed(sorted.drop_first(), literal)
    }
}

/// The literals by ascending length. Those of one length keep their order.
pub open spec fn by_len(literals: Seq<LiteralView>) -> Seq<LiteralView>
    decreases literals.len(),
{
    if literals.len() == 0 {
        literals
    } else {
        placed(by_len(literals.drop_first()), literals[0])
    }
}

/// The literals without those that equal the one right before.
pub open spec fn without_repeats(literals: Seq<LiteralView>) -> Seq<LiteralView>
    decreases literals.len(),
{
    if literals.len() == 0 {
        literals
    } else {
        let before = without_repeats(literals.drop_last());
        if before.len() > 0 && before.last() == literals.last() {
            before
        } else {
            before.push(literals.last())
        }
    }
}

/// Whether one of `kept` covers `literal`.
pub open spec fn is_covered(kept: Seq<LiteralView>, literal: LiteralView) -> bool {
    exists|k: int| 0 <= k < kept.len() && covers(#[trigger] kept[k], literal)
}

/// The literals without those that one kept before them covers.
pub open spec fn uncovered(literals: Seq<LiteralView>) -> Seq<LiteralView>
    decreases literals.len(),
{
    if literals.len() == 0 {
        literals
    } else {
        let kept = uncovered(literals.drop_last());
        if is_covered(kept, literals.last()) {
            kept
        } else {
            kept.push(literals.last())
        }
    }
}

/// The literals that are left of `literals` once shorter ones stand for those that contain them.
pub open spec fn reduced(literals: Seq<LiteralView>) -> Seq<LiteralView> {
    uncovered(without_repeats(by_len(literals)))
}

/// Calls `str::to_lowercase`. The outcome is a function of the text.
#[verifier::external_body]
fn lowercase(s: &str) -> (lower: String)
    ensures
        lower@ == lowercase_of(s@),
{
    s.to_lowercase()
}

/// Calls `str::contains` with a text to look for: whether it stands somewhere in `whole`.
#[verifier::external_body]
fn contains(whole: &str, part: &str) -> (found: bool)
    ensures
        found == text::is_substring(part@, whole@),
{
    whole.contains(part)
}

/// Whether an alphabetic character is in `s`.
fn any_alphabetic(s: &str) -> (found: bool)
    ensures
        found == has_alphabetic(s@),
{
    let mut found = false;
    for c in chars: s.chars()
        invariant
            chars.seq() == s@,
            found == has_alphabetic(s@.take(chars.index())),
    {
        let ghost done = chars.index();
        proof {
            if has_alphabetic(s@.take(done)) {
                let k = choose|k: int| 0 <= k < done && fold::is_alphabetic(#[trigger] s@.take(done)[k]);
                assert(s@.take(done + 1)[k] == s@.take(done)[k]);
            }
            if has_alphabetic(s@.take(done + 1)) && !fold::is_alphabetic(c) {
                let k = choose|k: int|
                    0 <= k < done + 1 && fold::is_alphabetic(#[trigger] s@.take(done + 1)[k]);
                assert(s@.take(done)[k] == s@[k]);
            }
            assert(s@.take(done + 1)[done] == c);
        }
        if fold::char_is_alphabetic(c) {
            found = true;
        }
    }
    assert(s@.take(s@.len() as int) =~= s@);
    found
}

/// What the folds of a character hold, if there are any.
pub open spec fn folds_view(folds: Option<Vec<char>>) -> Option<Seq<char>> {
    match folds {
        Some(list) => Some(list@),
        None => None,
    }
}

/// The case folds of each of `chars`.
fn folds_of(chars: &Vec<char>) -> (lists: Vec<Option<Vec<char>>>)
    ensures
        lists@.len() == chars@.len(),
        forall|k: int|
            0 <= k < chars@.len() ==> folds_view(#[trigger] lists@[k]) == fold::fold_chars(chars@[k]),
{
    let mut lists: Vec<Option<Vec<char>>> = Vec::with_capacity(chars.len());
    let mut i: usize = 0;
    while i < chars.len()
        invariant
            i <= chars@.len(),
            lists@.len() == i,
            forall|k: int|
                0 <= k < i ==> folds_view(#[trigger] lists@[k]) == fold::fold_chars(chars@[k]),
        decreases chars@.len() - i,
    {
        lists.push(fold::case_folds(chars[i]));
        i += 1;
    }
    lists
}

/// Whether `c` is in `list`.
fn has_char(list: &Vec<char>, c: char) -> (found: bool)
    ensures
        found == list@.contains(c),
{
    let mut i: usize = 0;
    while i < list.len()
        invariant
            i <= list@.len(),
            forall|k: int| 0 <= k < i ==> #[trigger] list@[k] != c,
        decreases list@.len() - i,
    {
        if list[i] == c {
            assert(list@[i as int] == c);
            return true;
        }
        i += 1;
    }
    false
}

/// Whether `list` holds each of `others`.
fn has_all(list: &Vec<char>, others: &Vec<char>) -> (all: bool)
    ensures
        all == holds_each(list@, others@),
{
    let mut i: usize = 0;
    while i < others.len()
        invariant
            i <= others@.len(),
            forall|k: int| 0 <= k < i ==> list@.contains(#[trigger] others@[k]),
        decreases others@.len() - i,
    {
        if !has_char(list, others[i]) {
            assert(!list@.contains(others@[i as int]));
            return false;
        }
        i += 1;
    }
    true
}

/// Whether a case-insensitive `short` matches a part of `long`, whatever its case.
fn matches_some_part(short: &str, long: &str, long_casei: bool) -> (found: bool)
    ensures
        found <==> exists|k: int| #[trigger] matches_part(short@, (long@, long_casei), k),
{
    let a = needles::chars_of(short);
    let b = needles::chars_of(long);
    if a.len() > b.len() {
        return false;
    }
    let a_folds = folds_of(&a);
    let b_folds = folds_of(&b);
    let n: usize = b.len();
    let last: usize = n - a.len();
    let ghost whole = (b@, long_casei);
    let mut k: usize = 0;
    while k <= last
        invariant
            a@ == short@,
            b@ == long@,
            whole == (b@, long_casei),
            n == b@.len(),
            last == n - a@.len(),
            a_folds@.len() == a@.len(),
            b_folds@.len() == b@.len(),
            forall|i: int|
                0 <= i < a@.len() ==> folds_view(#[trigger] a_folds@[i]) == fold::fold_chars(a@[i]),
            forall|i: int|
                0 <= i < b@.len() ==> folds_view(#[trigger] b_folds@[i]) == fold::fold_chars(b@[i]),
            k <= last + 1,
            forall|i: int| 0 <= i < k ==> !#[trigger] matches_part(a@, whole, i),
        decreases last + 1 - k,
    {
        let mut m: usize = 0;
        let mut all = true;
        while m < a.len() && all
            invariant
                k <= last,
                n == b@.len(),
                last == n - a@.len(),
                m <= a@.len(),
                whole == (b@, long_casei),
                a_folds@.len() == a@.len(),
                b_folds@.len() == b@.len(),
                forall|i: int|
                    0 <= i < a@.len() ==> folds_view(#[trigger] a_folds@[i]) == fold::fold_chars(a@[i]),
                forall|i: int|
                    0 <= i < b@.len() ==> folds_view(#[trigger] b_folds@[i]) == fold::fold_chars(b@[i]),
                all ==> forall|i: int|
                    0 <= i < m ==> folds_hold(#[trigger] a@[i], b@[k + i], long_casei),
                !all ==> !matches_part(a@, whole, k as int),
            decreases a@.len() - m,
        {
            assert(folds_view(a_folds@[m as int]) == fold::fold_chars(a@[m as int]));
            assert(folds_view(b_folds@[k + m]) == fold::fold_chars(b@[k + m]));
            all = match (&a_folds[m], &b_folds[k + m]) {
                (Some(folds), Some(others)) => if long_casei {
                    has_all(folds, others)
                } else {
                    has_char(folds, b[k + m])
                },
                (Some(folds), None) => !long_casei && has_char(folds, b[k + m]),
                (None, _) => a[m] == b[k + m] || fold::char_is_alphabetic(a[m]),
            };
            assert(!all ==> !folds_hold(a@[m as int], b@[k + m], long_casei));
            m += 1;
        }
        if all {
            assert(matches_part(a@, whole, k as int));
            return true;
        }
        if k == last {
            return false;
        }
        k += 1;
    }
    false
}

/// Whether each character of `s` matches nothing but itself in any case.
fn is_all_caseless(s: &str) -> (caseless: bool)
    ensures
        caseless == all_caseless(s@),
{
    let chars = needles::chars_of(s);
    let mut i: usize = 0;
    while i < chars.len()
        invariant
            i <= chars@.len(),
            chars@ == s@,
            forall|m: int| 0 <= m < i ==> is_caseless(#[trigger] s@[m]),
        decreases chars@.len() - i,
    {
        let c: char = chars[i];
        match fold::case_folds(c) {
            Some(folds) => {
                let mut alone: Vec<char> = Vec::new();
                alone.push(c);
                assert(alone@ =~= seq![c]);
                if !has_all(&alone, &folds) {
                    assert(!is_caseless(s@[i as int]));
                    return false;
                }
            },
            None => {
                if fold::char_is_alphabetic(c) {
                    assert(!is_caseless(s@[i as int]));
                    return false;
                }
            },
        }
        i += 1;
    }
    true
}

/// Whether `short` makes `long` needless.
fn is_cover(short: &RequiredLiteral, long: &RequiredLiteral) -> (covered: bool)
    ensures
        covered == covers((short.0@, short.1), (long.0@, long.1)),
{
    let ghost s = (short.0@, short.1);
    let ghost l = (long.0@, long.1);
    if short.1 {
        let within = contains(
            lowercase(long.0.as_str()).as_str(),
            lowercase(short.0.as_str()).as_str(),
        );
        let (a, b) = (short.0.as_str(), long.0.as_str());
        let matched = matches_some_part(a, b, long.1);
        assert(a@ == s.0 && (b@, long.1) == l);
        assert(matched <==> exists|k: int| #[trigger] matches_part(s.0, l, k));
        within && matched
    } else if long.1 {
        // a case-sensitive `short` only covers `long` if it appears as is
        let within = contains(long.0.as_str(), short.0.as_str());
        let lettered = any_alphabetic(short.0.as_str());
        let caseless = is_all_caseless(short.0.as_str());
        assert(caseless == all_caseless(s.0));
        within && !lettered && caseless
    } else {
        contains(long.0.as_str(), short.0.as_str())
    }
}

/// Puts `literal` in front of the first of `sorted` that is not shorter.
fn place(sorted: &mut Vec<RequiredLiteral>, literal: RequiredLiteral)
    ensures
        required::literals_view(final(sorted)@) == placed(
            required::literals_view(old(sorted)@),
            (literal.0@, literal.1),
        ),
{
    let ghost view = required::literals_view(sorted@);
    let ghost new = (literal.0@, literal.1);
    let n: usize = required::str_byte_len(literal.0.as_str());
    let mut i: usize = 0;
    proof {
        assert(view.take(0) + placed(view.skip(0), new) =~= placed(view, new)) by {
            assert(view.skip(0) =~= view);
        }
    }
    while i < sorted.len() && required::str_byte_len(sorted[i].0.as_str()) < n
        invariant
            i <= sorted@.len(),
            view == required::literals_view(sorted@),
            new == (literal.0@, literal.1),
            n == required::byte_len(new),
            view.take(i as int) + placed(view.skip(i as int), new) == placed(view, new),
        decreases sorted@.len() - i,
    {
        proof {
            let rest = view.skip(i as int);
            assert(rest.drop_first() =~= view.skip(i + 1));
            assert(rest[0] == view[i as int]);
            assert(view.take(i as int) + (seq![rest[0]] + placed(rest.drop_first(), new)) =~= view.take(
                i + 1,
            ) + placed(view.skip(i + 1), new));
        }
        i += 1;
    }
    proof {
        let rest = view.skip(i as int);
        if i < sorted@.len() {
            assert(rest[0] == view[i as int]);
        }
        assert(placed(rest, new) == seq![new] + rest);
    }
    sorted.insert(i, literal);
    assert(required::literals_view(sorted@) =~= view.take(i as int) + (seq![new] + view.skip(i as int)));
}

/// The literals by ascending length. Those of one length keep their order.
fn sort_by_len(literals: Vec<RequiredLiteral>) -> (sorted: Vec<RequiredLiteral>)
    ensures
        required::literals_view(sorted@) == by_len(required::literals_view(literals@)),
{
    let mut literals = literals;
    let mut sorted: Vec<RequiredLiteral> = Vec::with_capacity(literals.len());
    let ghost view = required::literals_view(literals@);
    assert(view.skip(literals@.len() as int) =~= Seq::empty());
    assert(required::literals_view(sorted@) =~= Seq::empty());
    while literals.len() > 0
        invariant
            literals@.len() <= view.len(),
            required::literals_view(literals@) == view.take(literals@.len() as int),
            required::literals_view(sorted@) == by_len(view.skip(literals@.len() as int)),
        decreases literals@.len(),
    {
        let ghost n = literals@.len() - 1;
        let ghost before = literals@;
        if let Some(literal) = literals.pop() {
            proof {
                assert(required::literals_view(before)[n] == view[n]);
                assert(view.skip(n)[0] == view[n]);
                assert(view.skip(n).drop_first() =~= view.skip(n + 1));
                assert(required::literals_view(literals@) =~= view.take(n)) by {
                    assert(forall|k: int| 0 <= k < n ==> #[trigger] required::literals_view(literals@)[k]
                        == required::literals_view(before)[k]);
                }
            }
            place(&mut sorted, literal);
        }
    }
    assert(view.skip(0) =~= view);
    sorted
}

/// The literals without those that equal the one right before.
fn drop_repeats(literals: Vec<RequiredLiteral>) -> (distinct: Vec<RequiredLiteral>)
    ensures
        required::literals_view(distinct@) == without_repeats(required::literals_view(literals@)),
{
    let ghost view = required::literals_view(literals@);
    let mut distinct: Vec<RequiredLiteral> = Vec::with_capacity(literals.len());
    let mut i: usize = 0;
    assert(required::literals_view(distinct@) =~= view.take(0));
    while i < literals.len()
        invariant
            i <= literals@.len(),
            view == required::literals_view(literals@),
            required::literals_view(distinct@) == without_repeats(view.take(i as int)),
        decreases literals@.len() - i,
    {
        proof {
            assert(view.take(i + 1).drop_last() =~= view.take(i as int));
            assert(view.take(i + 1).last() == view[i as int]);
        }
        let ghost before = distinct@;
        let last: usize = distinct.len();
        if last == 0 || distinct[last - 1].1 != literals[i].1 || distinct[last - 1].0 != literals[i].0 {
            distinct.push((literals[i].0.clone(), literals[i].1));
            assert(required::literals_view(distinct@) =~= required::literals_view(before).push(
                view[i as int],
            ));
        }
        i += 1;
    }
    assert(view.take(i as int) =~= view);
    distinct
}

/// Drops literals that contain another literal of the set: text containing `sqlFragment`
/// contains `sql`, so `sql` alone covers both. Comparison is lowercase when the shorter one is
/// case-insensitive, and by case folds besides, so that it only ever drops a literal the shorter
/// one still covers.
pub fn reduce(literals: Vec<RequiredLiteral>) -> (kept: Vec<RequiredLiteral>)
    ensures
        required::literals_view(kept@) == reduced(required::literals_view(literals@)),
{
    let literals = drop_repeats(sort_by_len(literals));
    let ghost view = required::literals_view(literals@);
    let mut kept: Vec<RequiredLiteral> = Vec::with_capacity(literals.len());
    let mut i: usize = 0;
    assert(required::literals_view(kept@) =~= view.take(0));
    while i < literals.len()
        invariant
            i <= literals@.len(),
            view == required::literals_view(literals@),
            required::literals_view(kept@) == uncovered(view.take(i as int)),
        decreases literals@.len() - i,
    {
        let ghost before = required::literals_view(kept@);
        proof {
            assert(view.take(i + 1).drop_last() =~= view.take(i as int));
            assert(view.take(i + 1).last() == view[i as int]);
        }
        let mut covered = false;
        let mut k: usize = 0;
        while k < kept.len() && !covered
            invariant
                i < literals@.len(),
                k <= kept@.len(),
                view == required::literals_view(literals@),
                before == required::literals_view(kept@),
                covered ==> is_covered(before, view[i as int]),
                !covered ==> forall|m: int| 0 <= m < k ==> !covers(#[trigger] before[m], view[i as int]),
            decreases kept@.len() - k,
        {
            assert(before[k as int] == (kept@[k as int].0@, kept@[k as int].1));
            covered = is_cover(&kept[k], &literals[i]);
            k += 1;
        }
        if !covered {
            kept.push((literals[i].0.clone(), literals[i].1));
            assert(required::literals_view(kept@) =~= before.push(view[i as int]));
        }
        i += 1;
    }
    assert(view.take(i as int) =~= view);
    kept
}

/// A literal that makes another needless occurs where the other occurs.
proof fn a_cover_occurs(short: LiteralView, long: LiteralView, hay: Seq<u8>, p: int, q: int)
    requires
        covers(short, long),
        semantics::literal_at(long.0, long.1, hay, p, q),
    ensures
        required::occurs_from(short, hay, p),
{
    let t = choose|t: Seq<char>|
        #[trigger] semantics::spells(long.0, long.1, t) && vstd::utf8::encode_utf8(t)
            == hay.subrange(p, q);
    let k = if short.1 {
        choose|k: int| #[trigger] matches_part(short.0, long, k)
    } else {
        choose|k: int| #[trigger] text::stands_at(short.0, long.0, k)
    };
    let e = k + short.0.len();
    let part = t.subrange(k, e);
    assert(semantics::spells(short.0, short.1, part)) by {
        assert forall|m: int| 0 <= m < short.0.len() implies if short.1 {
            fold::folds_to(short.0[m], #[trigger] part[m])
        } else {
            part[m] == short.0[m]
        } by {
            assert(part[m] == t[k + m]);
            if short.1 {
                let (c, d) = (short.0[m], long.0[k + m]);
                assert(folds_hold(c, d, long.1));
                if fold::fold_chars(c) is Some {
                    fold::chars_of_ranges_members(fold::simple_fold_ranges(c)->Some_0, t[k + m]);
                }
                if fold::fold_chars(c) is Some && long.1 {
                    let others = fold::fold_chars(d)->Some_0;
                    fold::chars_of_ranges_members(fold::simple_fold_ranges(d)->Some_0, t[k + m]);
                    let n = choose|n: int| 0 <= n < others.len() && others[n] == t[k + m];
                    assert(fold::fold_chars(c)->Some_0.contains(others[n]));
                }
            } else {
                assert(long.0.subrange(k, e)[m] == long.0[k + m]);
                if long.1 {
                    let c = short.0[m];
                    assert(is_caseless(c));
                    if let Some(folds) = fold::fold_chars(c) {
                        fold::chars_of_ranges_members(
                            fold::simple_fold_ranges(c)->Some_0,
                            t[k + m],
                        );
                        let n = choose|n: int| 0 <= n < folds.len() && folds[n] == t[k + m];
                        assert(seq![c].contains(folds[n]));
                    }
                }
            }
        }
    }
    let s = p + vstd::utf8::encode_utf8(t.take(k)).len();
    text::part_of_encoding(t, k, e, hay, p, q);
    assert(semantics::literal_at(
        short.0,
        short.1,
        hay,
        s,
        s + vstd::utf8::encode_utf8(part).len(),
    ));
}

/// Placing a literal in a list adds it and drops nothing.
proof fn placed_members(sorted: Seq<LiteralView>, literal: LiteralView, x: LiteralView)
    ensures
        placed(sorted, literal).contains(x) <==> x == literal || sorted.contains(x),
    decreases sorted.len(),
{
    let r = placed(sorted, literal);
    if sorted.len() == 0 || required::byte_len(literal) <= required::byte_len(sorted[0]) {
        assert(r[0] == literal);
        assert(forall|k: int| 0 <= k < sorted.len() ==> #[trigger] sorted[k] == r[k + 1]);
    } else {
        let rest = sorted.drop_first();
        placed_members(rest, literal, x);
        assert(r[0] == sorted[0]);
        let tail = placed(rest, literal);
        assert(forall|k: int| 0 <= k < tail.len() ==> #[trigger] tail[k] == r[k + 1]);
        assert(forall|k: int| 0 <= k < rest.len() ==> #[trigger] rest[k] == sorted[k + 1]);
        if sorted.contains(x) {
            let k = choose|k: int| 0 <= k < sorted.len() && sorted[k] == x;
            if k > 0 {
                assert(rest[k - 1] == x);
            }
        }
        if r.contains(x) {
            let k = choose|k: int| 0 <= k < r.len() && r[k] == x;
            if k > 0 {
                assert(tail[k - 1] == x);
            }
        }
        if tail.contains(x) {
            let k = choose|k: int| 0 <= k < tail.len() && tail[k] == x;
            assert(r[k + 1] == x);
        }
        if rest.contains(x) {
            let k = choose|k: int| 0 <= k < rest.len() && rest[k] == x;
            assert(sorted[k + 1] == x);
        }
    }
}

/// Sorting keeps the members.
proof fn by_len_members(literals: Seq<LiteralView>, x: LiteralView)
    ensures
        by_len(literals).contains(x) <==> literals.contains(x),
    decreases literals.len(),
{
    if literals.len() > 0 {
        let rest = literals.drop_first();
        by_len_members(rest, x);
        placed_members(by_len(rest), literals[0], x);
        if literals.contains(x) {
            let k = choose|k: int| 0 <= k < literals.len() && literals[k] == x;
            if k > 0 {
                assert(rest[k - 1] == x);
            }
        }
        if rest.contains(x) {
            let k = choose|k: int| 0 <= k < rest.len() && rest[k] == x;
            assert(literals[k + 1] == x);
        }
    }
}

/// Dropping repeats keeps the members.
proof fn without_repeats_members(literals: Seq<LiteralView>, x: LiteralView)
    ensures
        without_repeats(literals).contains(x) <==> literals.contains(x),
    decreases literals.len(),
{
    if literals.len() > 0 {
        let rest = literals.drop_last();
        let before = without_repeats(rest);
        let last = literals.last();
        without_repeats_members(rest, x);
        vstd::seq_lib::lemma_seq_contains_after_push(before, last, x);
        vstd::seq_lib::lemma_seq_contains_after_push(rest, last, x);
        assert(rest.push(last) =~= literals);
        if before.len() > 0 && before.last() == last {
            assert(before[before.len() - 1] == last);
        }
    }
}

/// Of each literal either it or one that covers it is kept, and all that are kept were there.
proof fn uncovered_members(literals: Seq<LiteralView>, x: LiteralView)
    ensures
        uncovered(literals).contains(x) ==> literals.contains(x),
        literals.contains(x) ==> uncovered(literals).contains(x) || is_covered(
            uncovered(literals),
            x,
        ),
    decreases literals.len(),
{
    if literals.len() > 0 {
        let rest = literals.drop_last();
        let kept = uncovered(rest);
        let last = literals.last();
        uncovered_members(rest, x);
        vstd::seq_lib::lemma_seq_contains_after_push(kept, last, x);
        vstd::seq_lib::lemma_seq_contains_after_push(rest, last, x);
        assert(rest.push(last) =~= literals);
        if is_covered(kept, x) {
            let k = choose|k: int| 0 <= k < kept.len() && covers(#[trigger] kept[k], x);
            assert(kept.push(last)[k] == kept[k]);
        }
    }
}

/// Dropping the literals that shorter ones cover loses no text: where one of all the literals
/// occurs, one of those that are kept occurs.
pub proof fn a_kept_literal_occurs(literals: Seq<LiteralView>, hay: Seq<u8>, i: int)
    requires
        required::some_occurs_from(literals, hay, i),
    ensures
        required::some_occurs_from(reduced(literals), hay, i),
{
    let m = choose|m: int|
        0 <= m < literals.len() && required::occurs_from(#[trigger] literals[m], hay, i);
    let x = literals[m];
    let sorted = by_len(literals);
    let distinct = without_repeats(sorted);
    let kept = reduced(literals);
    assert(literals.contains(x));
    by_len_members(literals, x);
    without_repeats_members(sorted, x);
    uncovered_members(distinct, x);
    if kept.contains(x) {
        let k = choose|k: int| 0 <= k < kept.len() && kept[k] == x;
        assert(required::occurs_from(kept[k], hay, i));
    } else {
        let k = choose|k: int| 0 <= k < kept.len() && covers(#[trigger] kept[k], x);
        let y = kept[k];
        let (p, q) = choose|p: int, q: int|
            i <= p && #[trigger] semantics::literal_at(x.0, x.1, hay, p, q);
        a_cover_occurs(y, x, hay, p, q);
        let (s, e) = choose|s: int, e: int|
            p <= s && #[trigger] semantics::literal_at(y.0, y.1, hay, s, e);
        assert(required::occurs_from(kept[k], hay, i));
    }
}

/// What is kept was there, and something is kept where there was something.
pub proof fn kept_literals_were_there(literals: Seq<LiteralView>)
    ensures
        forall|x: LiteralView| #[trigger] reduced(literals).contains(x) ==> literals.contains(x),
        literals.len() > 0 ==> reduced(literals).len() > 0,
{
    let sorted = by_len(literals);
    let distinct = without_repeats(sorted);
    assert forall|x: LiteralView| #[trigger] reduced(literals).contains(x) implies literals.contains(
        x,
    ) by {
        uncovered_members(distinct, x);
        without_repeats_members(sorted, x);
        by_len_members(literals, x);
    }
}

/// No literal that is kept is covered by one kept before it.
pub proof fn kept_literals_are_uncovered(literals: Seq<LiteralView>, i: int, j: int)
    requires
        0 <= i < j < reduced(literals).len(),
    ensures
        !covers(reduced(literals)[i], reduced(literals)[j]),
{
    uncovered_is_uncovered(without_repeats(by_len(literals)), i, j);
}

proof fn uncovered_is_uncovered(literals: Seq<LiteralView>, i: int, j: int)
    requires
        0 <= i < j < uncovered(literals).len(),
    ensures
        !covers(uncovered(literals)[i], uncovered(literals)[j]),
    decreases literals.len(),
{
    let kept = uncovered(literals.drop_last());
    if j < kept.len() {
        uncovered_is_uncovered(literals.drop_last(), i, j);
    } else {
        assert(uncovered(literals)[i] == kept[i]);
    }
}

/// Sorting by length is ascending, and the literals of each length keep their order.
pub proof fn sorting_is_stable(literals: Seq<LiteralView>, n: nat)
    ensures
        forall|i: int, j: int|
            0 <= i <= j < by_len(literals).len() ==> required::byte_len(
                #[trigger] by_len(literals)[i],
            ) <= required::byte_len(#[trigger] by_len(literals)[j]),
        by_len(literals).filter(has_len(n)) == literals.filter(has_len(n)),
    decreases literals.len(),
{
    if literals.len() > 0 {
        let rest = literals.drop_first();
        sorting_is_stable(rest, n);
        placing_is_stable(by_len(rest), literals[0], n);
        assert(literals =~= seq![literals[0]] + rest);
        Seq::filter_distributes_over_add(seq![literals[0]], rest, has_len(n));
    }
}

/// The literals of length `n`.
pub open spec fn has_len(n: nat) -> spec_fn(LiteralView) -> bool {
    |literal: LiteralView| required::byte_len(literal) == n
}

proof fn placing_is_stable(sorted: Seq<LiteralView>, literal: LiteralView, n: nat)
    requires
        forall|i: int, j: int|
            0 <= i <= j < sorted.len() ==> required::byte_len(#[trigger] sorted[i])
                <= required::byte_len(#[trigger] sorted[j]),
    ensures
        forall|i: int, j: int|
            0 <= i <= j < placed(sorted, literal).len() ==> required::byte_len(
                #[trigger] placed(sorted, literal)[i],
            ) <= required::byte_len(#[trigger] placed(sorted, literal)[j]),
        placed(sorted, literal).filter(has_len(n)) == seq![literal].filter(has_len(n))
            + sorted.filter(has_len(n)),
    decreases sorted.len(),
{
    let f = has_len(n);
    let r = placed(sorted, literal);
    if sorted.len() == 0 || required::byte_len(literal) <= required::byte_len(sorted[0]) {
        Seq::filter_distributes_over_add(seq![literal], sorted, f);
    } else {
        let rest = sorted.drop_first();
        let tail = placed(rest, literal);
        placing_is_stable(rest, literal, n);
        Seq::filter_distributes_over_add(seq![sorted[0]], tail, f);
        Seq::filter_distributes_over_add(seq![sorted[0]], rest, f);
        assert(sorted =~= seq![sorted[0]] + rest);
        assert forall|j: int| 0 <= j < tail.len() implies required::byte_len(sorted[0])
            <= required::byte_len(#[trigger] tail[j]) by {
            assert(tail.contains(tail[j]));
            placed_members(rest, literal, tail[j]);
            if tail[j] != literal {
                let k = choose|k: int| 0 <= k < rest.len() && rest[k] == tail[j];
                assert(sorted[k + 1] == tail[j]);
            }
        }
        reveal(Seq::filter);
        reveal_with_fuel(Seq::filter, 2);
        let a = seq![sorted[0]];
        let b = seq![literal];
        assert(a.drop_last() =~= Seq::empty());
        assert(b.drop_last() =~= Seq::empty());
        assert(f(sorted[0]) ==> !f(literal));
        assert(a.filter(f) + (b.filter(f) + rest.filter(f)) =~= b.filter(f) + (a.filter(f) + rest.filter(
            f,
        )));
    }
}

/// Whether no literal is shorter than one before it.
pub open spec fn lens_ascend(literals: Seq<LiteralView>) -> bool {
    forall|i: int, j: int|
        0 <= i <= j < literals.len() ==> required::byte_len(#[trigger] literals[i])
            <= required::byte_len(#[trigger] literals[j])
}

/// Whether no literal is covered by one before it.
pub open spec fn none_covered(literals: Seq<LiteralView>) -> bool {
    forall|i: int, j: int|
        0 <= i < j < literals.len() ==> !covers(#[trigger] literals[i], #[trigger] literals[j])
}

/// A literal covers its equal.
pub proof fn a_literal_covers_its_equal(literal: LiteralView)
    ensures
        covers(literal, literal),
{
    let (s, casei) = literal;
    assert(text::stands_at(lowercase_of(s), lowercase_of(s), 0));
    assert(text::stands_at(s, s, 0));
    if casei {
        assert forall|m: int| 0 <= m < s.len() implies folds_hold(#[trigger] s[m], s[0 + m], casei) by {
            if let Some(folds) = fold::fold_chars(s[m]) {
                assert(holds_each(folds, folds));
            }
        }
        assert(matches_part(s, literal, 0));
    }
}

/// A sorted list stays as it is.
proof fn by_len_of_sorted(literals: Seq<LiteralView>)
    requires
        lens_ascend(literals),
    ensures
        by_len(literals) == literals,
    decreases literals.len(),
{
    if literals.len() > 0 {
        let rest = literals.drop_first();
        assert(forall|k: int| 0 <= k < rest.len() ==> #[trigger] rest[k] == literals[k + 1]);
        by_len_of_sorted(rest);
        if rest.len() > 0 {
            assert(rest[0] == literals[1]);
        }
        assert(seq![literals[0]] + rest =~= literals);
    }
}

/// A list in which no literal is covered stays as it is.
proof fn nothing_to_drop(literals: Seq<LiteralView>)
    requires
        none_covered(literals),
    ensures
        without_repeats(literals) == literals,
        uncovered(literals) == literals,
    decreases literals.len(),
{
    if literals.len() > 0 {
        let rest = literals.drop_last();
        let last = literals.last();
        assert(forall|k: int| 0 <= k < rest.len() ==> #[trigger] rest[k] == literals[k]);
        nothing_to_drop(rest);
        assert(rest.push(last) =~= literals);
        assert(literals[literals.len() - 1] == last);
        assert forall|k: int| 0 <= k < rest.len() implies !covers(#[trigger] rest[k], last) by {
            assert(!covers(literals[k], literals[literals.len() - 1]));
        }
        if rest.len() > 0 && rest.last() == last {
            a_literal_covers_its_equal(last);
            assert(covers(rest[rest.len() - 1], last));
        }
    }
}

/// Adding a literal at the end keeps a list sorted where none in it is longer.
proof fn pushed_stays_sorted(kept: Seq<LiteralView>, literals: Seq<LiteralView>)
    requires
        literals.len() > 0,
        lens_ascend(literals),
        lens_ascend(kept),
        forall|x: LiteralView| #[trigger] kept.contains(x) ==> literals.drop_last().contains(x),
    ensures
        lens_ascend(kept.push(literals.last())),
{
    let all = kept.push(literals.last());
    assert forall|i: int, j: int| 0 <= i <= j < all.len() implies required::byte_len(
        #[trigger] all[i],
    ) <= required::byte_len(#[trigger] all[j]) by {
        if j < kept.len() {
            assert(required::byte_len(kept[i]) <= required::byte_len(kept[j]));
        } else if i < kept.len() {
            assert(kept.contains(kept[i]));
            let rest = literals.drop_last();
            let k = choose|k: int| 0 <= k < rest.len() && rest[k] == kept[i];
            assert(literals[k] == kept[i]);
            assert(required::byte_len(literals[k]) <= required::byte_len(
                literals[literals.len() - 1],
            ));
        }
    }
}

/// Dropping literals keeps a list sorted.
proof fn dropping_keeps_sorted(literals: Seq<LiteralView>)
    requires
        lens_ascend(literals),
    ensures
        lens_ascend(without_repeats(literals)),
        lens_ascend(uncovered(literals)),
    decreases literals.len(),
{
    if literals.len() > 0 {
        let rest = literals.drop_last();
        assert(forall|k: int| 0 <= k < rest.len() ==> #[trigger] rest[k] == literals[k]);
        assert(lens_ascend(rest));
        dropping_keeps_sorted(rest);
        assert forall|x: LiteralView| #[trigger] without_repeats(rest).contains(x) implies rest.contains(
            x,
        ) by {
            without_repeats_members(rest, x);
        }
        assert forall|x: LiteralView| #[trigger] uncovered(rest).contains(x) implies rest.contains(
            x,
        ) by {
            uncovered_members(rest, x);
        }
        pushed_stays_sorted(without_repeats(rest), literals);
        pushed_stays_sorted(uncovered(rest), literals);
    }
}

/// Reducing twice gives what reducing once gives.
pub proof fn reducing_again_changes_nothing(literals: Seq<LiteralView>)
    ensures
        reduced(reduced(literals)) == reduced(literals),
{
    let sorted = by_len(literals);
    let kept = reduced(literals);
    sorting_is_stable(literals, 0);
    dropping_keeps_sorted(sorted);
    dropping_keeps_sorted(without_repeats(sorted));
    assert forall|i: int, j: int| 0 <= i < j < kept.len() implies !covers(
        #[trigger] kept[i],
        #[trigger] kept[j],
    ) by {
        kept_literals_are_uncovered(literals, i, j);
    }
    by_len_of_sorted(kept);
    nothing_to_drop(kept);
}

/// A part of a text that is not all of it is shorter, in bytes.
proof fn a_part_is_shorter(part: Seq<char>, whole: Seq<char>)
    requires
        text::is_substring(part, whole),
        part != whole,
    ensures
        vstd::utf8::encode_utf8(part).len() < vstd::utf8::encode_utf8(whole).len(),
{
    let k = choose|k: int| #[trigger] text::stands_at(part, whole, k);
    let e = k + part.len();
    let a = whole.take(k);
    let b = whole.skip(e);
    text::encoding_of_concatenation(a, part + b);
    text::encoding_of_concatenation(part, b);
    assert(whole =~= a + (part + b));
    if a.len() > 0 {
        text::encoding_of_concatenation(seq![a[0]], a.drop_first());
        text::encoding_of_one(a[0]);
        text::first_byte_of_char(a[0]);
        assert(a =~= seq![a[0]] + a.drop_first());
    } else if b.len() > 0 {
        text::encoding_of_concatenation(seq![b[0]], b.drop_first());
        text::encoding_of_one(b[0]);
        text::first_byte_of_char(b[0]);
        assert(b =~= seq![b[0]] + b.drop_first());
    } else {
        assert(whole =~= part);
    }
}

/// A part of a part is a part.
proof fn parts_of_parts(a: Seq<char>, b: Seq<char>, c: Seq<char>)
    requires
        text::is_substring(a, b),
        text::is_substring(b, c),
    ensures
        text::is_substring(a, c),
{
    let i = choose|i: int| #[trigger] text::stands_at(a, b, i);
    let j = choose|j: int| #[trigger] text::stands_at(b, c, j);
    assert(c.subrange(j + i, j + i + a.len()) =~= c.subrange(j, j + b.len()).subrange(
        i,
        i + a.len(),
    ));
    assert(text::stands_at(a, c, j + i));
}

/// What is kept is sorted by length, and none of it is covered by what comes before.
proof fn kept_is_in_order(literals: Seq<LiteralView>)
    ensures
        lens_ascend(reduced(literals)),
        none_covered(reduced(literals)),
{
    let sorted = by_len(literals);
    let kept = reduced(literals);
    sorting_is_stable(literals, 0);
    dropping_keeps_sorted(sorted);
    dropping_keeps_sorted(without_repeats(sorted));
    assert forall|i: int, j: int| 0 <= i < j < kept.len() implies !covers(
        #[trigger] kept[i],
        #[trigger] kept[j],
    ) by {
        kept_literals_are_uncovered(literals, i, j);
    }
}

/// A literal is kept, or one that covers it is: nothing is dropped for another reason.
pub proof fn kept_or_covered(literals: Seq<LiteralView>, x: LiteralView)
    requires
        literals.contains(x),
    ensures
        reduced(literals).contains(x) || is_covered(reduced(literals), x),
{
    let sorted = by_len(literals);
    by_len_members(literals, x);
    without_repeats_members(sorted, x);
    uncovered_members(without_repeats(sorted), x);
}

/// Of literals that do not match in any case, those are kept that hold no other as a part.
pub proof fn the_least_literals_are_kept(literals: Seq<LiteralView>, x: LiteralView)
    requires
        forall|k: int| 0 <= k < literals.len() ==> !(#[trigger] literals[k]).1,
    ensures
        reduced(literals).contains(x) <==> literals.contains(x) && forall|y: LiteralView| #[trigger]
            literals.contains(y) && text::is_substring(y.0, x.0) ==> y == x,
{
    let kept = reduced(literals);
    kept_literals_were_there(literals);
    kept_is_in_order(literals);
    if kept.contains(x) {
        assert forall|y: LiteralView| #[trigger]
            literals.contains(y) && text::is_substring(y.0, x.0) implies y == x by {
            let yk = choose|k: int| 0 <= k < literals.len() && literals[k] == y;
            let xk = choose|k: int| 0 <= k < literals.len() && literals[k] == x;
            assert(!literals[yk].1 && !literals[xk].1);
            if y != x {
                a_part_is_shorter(y.0, x.0);
                kept_or_covered(literals, y);
                let z = if kept.contains(y) {
                    assert(text::stands_at(y.0, y.0, 0));
                    y
                } else {
                    let m = choose|m: int| 0 <= m < kept.len() && covers(#[trigger] kept[m], y);
                    assert(kept.contains(kept[m]));
                    kept[m]
                };
                let zk = choose|k: int| 0 <= k < literals.len() && literals[k] == z;
                assert(literals.contains(z));
                assert(!literals[zk].1);
                assert(text::is_substring(z.0, y.0));
                parts_of_parts(z.0, y.0, x.0);
                if z.0 != y.0 {
                    a_part_is_shorter(z.0, y.0);
                }
                let i = choose|i: int| 0 <= i < kept.len() && kept[i] == z;
                let j = choose|j: int| 0 <= j < kept.len() && kept[j] == x;
                assert(required::byte_len(kept[i]) < required::byte_len(kept[j]));
                if j <= i {
                    assert(required::byte_len(kept[j]) <= required::byte_len(kept[i]));
                }
                assert(covers(kept[i], kept[j]));
            }
        }
    }
    if literals.contains(x) && !kept.contains(x) {
        kept_or_covered(literals, x);
        let m = choose|m: int| 0 <= m < kept.len() && covers(#[trigger] kept[m], x);
        let z = kept[m];
        assert(kept.contains(z));
        assert(literals.contains(z));
        let zk = choose|k: int| 0 <= k < literals.len() && literals[k] == z;
        let xk = choose|k: int| 0 <= k < literals.len() && literals[k] == x;
        assert(!literals[zk].1 && !literals[xk].1);
        assert(text::is_substring(z.0, x.0));
    }
}

/// Whether `d`, a character of a literal, can match `t`.
pub open spec fn can_be(d: char, casei: bool, t: char) -> bool {
    if casei {
        fold::folds_to(d, t)
    } else {
        t == d
    }
}

/// Whether a case-insensitive `short` matches whatever stands where `long` has its part from `k` on.
pub open spec fn matches_whatever(short: Seq<char>, long: LiteralView, k: int) -> bool {
    &&& 0 <= k <= long.0.len() - short.len()
    &&& forall|m: int, t: char|
        0 <= m < short.len() && can_be(long.0[k + m], long.1, t) ==> #[trigger] fold::folds_to(
            short[m],
            t,
        )
}

/// What it takes for a literal to cover another. To stand in it as it is, where neither matches in any
/// case. To stand in it as it is and to hold nothing that has a case, where only the other does. And
/// where it matches in any case itself, to stand in it in lower case and to match a part of it,
/// whatever its case.
pub proof fn what_it_takes_to_cover(short: LiteralView, long: LiteralView)
    requires
        forall|k: int|
            0 <= k < short.0.len() ==> fold::fold_chars(#[trigger] short.0[k]) is Some,
        forall|k: int| 0 <= k < long.0.len() ==> fold::fold_chars(#[trigger] long.0[k]) is Some,
    ensures
        !short.1 && !long.1 ==> (covers(short, long) <==> text::is_substring(short.0, long.0)),
        !short.1 && long.1 ==> (covers(short, long) <==> text::is_substring(short.0, long.0)
            && forall|m: int|
            0 <= m < short.0.len() ==> !fold::is_alphabetic(#[trigger] short.0[m])
                && folds_to_itself(short.0[m])),
        short.1 ==> (covers(short, long) <==> text::is_substring(
            lowercase_of(short.0),
            lowercase_of(long.0),
        ) && exists|k: int| #[trigger] matches_whatever(short.0, long, k)),
{
    if !short.1 && long.1 {
        assert forall|m: int| 0 <= m < short.0.len() implies (is_caseless(#[trigger] short.0[m])
            <==> folds_to_itself(short.0[m])) by {
            caseless_means(short.0[m]);
        }
        if forall|m: int|
            0 <= m < short.0.len() ==> !fold::is_alphabetic(#[trigger] short.0[m])
                && folds_to_itself(short.0[m]) {
            assert(all_caseless(short.0));
            assert(!has_alphabetic(short.0));
        }
        if covers(short, long) {
            assert forall|m: int| 0 <= m < short.0.len() implies !fold::is_alphabetic(
                #[trigger] short.0[m],
            ) && folds_to_itself(short.0[m]) by {
                assert(is_caseless(short.0[m]));
            }
        }
    }
    if short.1 {
        assert forall|k: int| matches_part(short.0, long, k) <==> #[trigger] matches_whatever(
            short.0,
            long,
            k,
        ) by {
            part_means(short.0, long, k);
        }
        if exists|k: int| #[trigger] matches_part(short.0, long, k) {
            let k = choose|k: int| #[trigger] matches_part(short.0, long, k);
            assert(matches_whatever(short.0, long, k));
        }
        if exists|k: int| #[trigger] matches_whatever(short.0, long, k) {
            let k = choose|k: int| #[trigger] matches_whatever(short.0, long, k);
            assert(matches_part(short.0, long, k));
        }
    }
}

/// Whether a case-insensitive `c` matches nothing but itself.
pub open spec fn folds_to_itself(c: char) -> bool {
    forall|t: char| #[trigger] fold::folds_to(c, t) ==> t == c
}

proof fn caseless_means(c: char)
    requires
        fold::fold_chars(c) is Some,
    ensures
        is_caseless(c) <==> folds_to_itself(c),
{
    let ranges = fold::simple_fold_ranges(c)->Some_0;
    let folds = fold::fold_chars(c)->Some_0;
    if is_caseless(c) {
        assert forall|t: char| #[trigger] fold::folds_to(c, t) implies t == c by {
            fold::chars_of_ranges_members(ranges, t);
            let k = choose|k: int| 0 <= k < folds.len() && folds[k] == t;
            assert(seq![c].contains(folds[k]));
        }
    }
    if folds_to_itself(c) {
        assert forall|k: int| 0 <= k < folds.len() implies seq![c].contains(#[trigger] folds[k]) by {
            assert(folds.contains(folds[k]));
            fold::chars_of_ranges_members(ranges, folds[k]);
            assert(fold::folds_to(c, folds[k]));
            assert(seq![c][0] == folds[k]);
        }
    }
}

proof fn part_means(short: Seq<char>, long: LiteralView, k: int)
    requires
        forall|k: int| 0 <= k < short.len() ==> fold::fold_chars(#[trigger] short[k]) is Some,
        forall|k: int| 0 <= k < long.0.len() ==> fold::fold_chars(#[trigger] long.0[k]) is Some,
    ensures
        matches_part(short, long, k) <==> matches_whatever(short, long, k),
{
    if matches_part(short, long, k) {
        assert forall|m: int, t: char|
            0 <= m < short.len() && can_be(long.0[k + m], long.1, t) implies #[trigger] fold::folds_to(
            short[m],
            t,
        ) by {
            let (c, d) = (short[m], long.0[k + m]);
            assert(folds_hold(c, d, long.1));
            fold::chars_of_ranges_members(fold::simple_fold_ranges(c)->Some_0, t);
            if long.1 {
                let others = fold::fold_chars(d)->Some_0;
                fold::chars_of_ranges_members(fold::simple_fold_ranges(d)->Some_0, t);
                let n = choose|n: int| 0 <= n < others.len() && others[n] == t;
                assert(fold::fold_chars(c)->Some_0.contains(others[n]));
            }
        }
    }
    if matches_whatever(short, long, k) {
        assert forall|m: int| 0 <= m < short.len() implies folds_hold(
            #[trigger] short[m],
            long.0[k + m],
            long.1,
        ) by {
            let (c, d) = (short[m], long.0[k + m]);
            let folds = fold::fold_chars(c)->Some_0;
            if long.1 {
                let others = fold::fold_chars(d)->Some_0;
                assert forall|n: int| 0 <= n < others.len() implies folds.contains(
                    #[trigger] others[n],
                ) by {
                    let t = others[n];
                    assert(others.contains(t));
                    fold::chars_of_ranges_members(fold::simple_fold_ranges(d)->Some_0, t);
                    assert(can_be(d, long.1, t));
                    assert(fold::folds_to(short[m], t));
                    fold::chars_of_ranges_members(fold::simple_fold_ranges(c)->Some_0, t);
                }
            } else {
                assert(can_be(d, long.1, d));
                assert(fold::folds_to(short[m], d));
                fold::chars_of_ranges_members(fold::simple_fold_ranges(c)->Some_0, d);
            }
        }
    }
}

/// Whether `part` is left of `whole` once some of it is dropped.
pub open spec fn is_left_of(part: Seq<LiteralView>, whole: Seq<LiteralView>) -> bool
    decreases whole.len(),
{
    if part.len() == 0 {
        true
    } else if whole.len() == 0 {
        false
    } else {
        ||| part.last() == whole.last() && is_left_of(part.drop_last(), whole.drop_last())
        ||| is_left_of(part, whole.drop_last())
    }
}

proof fn all_is_left(whole: Seq<LiteralView>)
    ensures
        is_left_of(whole, whole),
    decreases whole.len(),
{
    if whole.len() > 0 {
        all_is_left(whole.drop_last());
    }
}

proof fn dropping_leaves_the_rest(literals: Seq<LiteralView>)
    ensures
        is_left_of(without_repeats(literals), literals),
        is_left_of(uncovered(literals), literals),
    decreases literals.len(),
{
    if literals.len() > 0 {
        let rest = literals.drop_last();
        let last = literals.last();
        dropping_leaves_the_rest(rest);
        assert(without_repeats(rest).push(last).drop_last() =~= without_repeats(rest));
        assert(uncovered(rest).push(last).drop_last() =~= uncovered(rest));
    }
}

proof fn left_of_left(a: Seq<LiteralView>, b: Seq<LiteralView>, c: Seq<LiteralView>)
    requires
        is_left_of(a, b),
        is_left_of(b, c),
    ensures
        is_left_of(a, c),
    decreases c.len(),
{
    if a.len() > 0 && c.len() > 0 {
        if b.len() > 0 && b.last() == c.last() && is_left_of(b.drop_last(), c.drop_last()) {
            if a.last() == b.last() && is_left_of(a.drop_last(), b.drop_last()) {
                left_of_left(a.drop_last(), b.drop_last(), c.drop_last());
            } else {
                left_of_left(a, b.drop_last(), c.drop_last());
            }
        } else {
            left_of_left(a, b, c.drop_last());
        }
    }
}

proof fn filtering_keeps_left(
    a: Seq<LiteralView>,
    b: Seq<LiteralView>,
    f: spec_fn(LiteralView) -> bool,
)
    requires
        is_left_of(a, b),
    ensures
        is_left_of(a.filter(f), b.filter(f)),
    decreases b.len(),
{
    reveal(Seq::filter);
    if a.len() > 0 {
        let rest = b.drop_last();
        if a.last() == b.last() && is_left_of(a.drop_last(), rest) {
            filtering_keeps_left(a.drop_last(), rest, f);
            if f(b.last()) {
                let x = a.filter(f);
                let y = b.filter(f);
                assert(x.drop_last() =~= a.drop_last().filter(f));
                assert(y.drop_last() =~= rest.filter(f));
            }
        } else {
            filtering_keeps_left(a, rest, f);
            if f(b.last()) {
                let y = b.filter(f);
                assert(y.drop_last() =~= rest.filter(f));
            }
        }
    }
}

/// In which order literals are kept: by their lengths in bytes, and those of one length in the order
/// that they came in.
pub proof fn literals_are_kept_in_order(literals: Seq<LiteralView>, n: nat)
    ensures
        forall|i: int, j: int|
            0 <= i <= j < reduced(literals).len() ==> vstd::utf8::encode_utf8(
                (#[trigger] reduced(literals)[i]).0,
            ).len() <= vstd::utf8::encode_utf8((#[trigger] reduced(literals)[j]).0).len(),
        is_left_of(
            reduced(literals).filter(
                |literal: LiteralView| vstd::utf8::encode_utf8(literal.0).len() == n,
            ),
            literals.filter(|literal: LiteralView| vstd::utf8::encode_utf8(literal.0).len() == n),
        ),
{
    let f = |literal: LiteralView| vstd::utf8::encode_utf8(literal.0).len() == n;
    let sorted = by_len(literals);
    let distinct = without_repeats(sorted);
    let kept = reduced(literals);
    kept_is_in_order(literals);
    assert forall|i: int, j: int| 0 <= i <= j < kept.len() implies vstd::utf8::encode_utf8(
        (#[trigger] kept[i]).0,
    ).len() <= vstd::utf8::encode_utf8((#[trigger] kept[j]).0).len() by {
        assert(required::byte_len(kept[i]) <= required::byte_len(kept[j]));
    }
    dropping_leaves_the_rest(sorted);
    dropping_leaves_the_rest(distinct);
    left_of_left(kept, distinct, sorted);
    filtering_keeps_left(kept, sorted, f);
    sorting_is_stable(literals, n);
    assert(has_len(n) =~= f);
}

} // verus!
