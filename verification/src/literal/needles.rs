//! The bytes that a case-insensitive literal can stand as.

use vstd::prelude::*;

use crate::fold;
use crate::semantics;
use crate::text;

verus! {

/// What byte strings hold.
pub open spec fn bytes_view(list: Seq<Vec<u8>>) -> Seq<Seq<u8>> {
    list.map_values(|bytes: Vec<u8>| bytes@)
}

/// Each of `variants`, followed by each of `folds`.
pub open spec fn extended(variants: Seq<Seq<u8>>, folds: Seq<char>) -> Seq<Seq<u8>>
    decreases variants.len(),
{
    if variants.len() == 0 {
        Seq::empty()
    } else {
        extended(variants.drop_last(), folds) + followed_by_each(variants.last(), folds)
    }
}

/// `variant`, followed by each of `folds`.
pub open spec fn followed_by_each(variant: Seq<u8>, folds: Seq<char>) -> Seq<Seq<u8>> {
    folds.map_values(|c: char| variant + text::char_bytes(c))
}

/// Every spelling of `chars`: each character replaced by each of its simple case folds.
pub open spec fn spellings(chars: Seq<char>) -> Seq<Seq<u8>>
    decreases chars.len(),
{
    if chars.len() == 0 {
        seq![Seq::empty()]
    } else {
        extended(spellings(chars.drop_last()), fold::fold_chars(chars.last())->Some_0)
    }
}

/// How many characters of `chars`, at least `n`, have no more than `budget` spellings; `None` where
/// one of them or the one after them has no case folding data.
pub open spec fn prefix_len(chars: Seq<char>, budget: nat, n: nat) -> Option<nat>
    decreases chars.len() - n,
{
    if n >= chars.len() {
        Some(n)
    } else {
        match fold::fold_chars(chars[n as int]) {
            Some(_) => if spellings(chars.take(n as int + 1)).len() > budget {
                Some(n)
            } else {
                prefix_len(chars, budget, n + 1)
            },
            None => None,
        }
    }
}

/// The needles for a case-insensitive literal: the spellings of its longest prefix that has no more
/// than `budget`. `None` where that prefix is empty, or where case folding data is missing.
pub open spec fn needle_list(chars: Seq<char>, budget: nat) -> Option<Seq<Seq<u8>>> {
    match prefix_len(chars, budget, 0) {
        Some(n) => if n > 0 {
            Some(spellings(chars.take(n as int)))
        } else {
            None
        },
        None => None,
    }
}

/// The prefix of a case-insensitive literal that its needles are the spellings of.
pub open spec fn used_prefix(chars: Seq<char>, budget: nat) -> Seq<char> {
    match prefix_len(chars, budget, 0) {
        Some(n) => chars.take(n as int),
        None => Seq::empty(),
    }
}

/// Whether the folds of each of `chars` are known, hold the character itself and hold nothing twice.
pub open spec fn folds_are_regular(chars: Seq<char>) -> bool {
    forall|k: int|
        0 <= k < chars.len() ==> (fold::fold_chars(#[trigger] chars[k]) matches Some(folds)
            && folds.contains(chars[k]) && folds.no_duplicates())
}

/// There are as many extended variants as pairs.
proof fn extended_len(variants: Seq<Seq<u8>>, folds: Seq<char>)
    ensures
        extended(variants, folds).len() == variants.len() * folds.len(),
    decreases variants.len(),
{
    if variants.len() > 0 {
        extended_len(variants.drop_last(), folds);
        let n = variants.len();
        let m = folds.len();
        assert(n * m == (n - 1) * m + m) by (nonlinear_arith);
    } else {
        assert(0 * folds.len() == 0) by (nonlinear_arith);
    }
}

/// The characters of `s`.
pub(crate) fn chars_of(s: &str) -> (list: Vec<char>)
    ensures
        list@ == s@,
{
    let mut list: Vec<char> = Vec::new();
    for c in chars: s.chars()
        invariant
            chars.seq() == s@,
            list@ == s@.take(chars.index()),
    {
        list.push(c);
        assert(list@ =~= s@.take(chars.index() + 1));
    }
    assert(s@.take(s@.len() as int) =~= s@);
    list
}

/// `variant`, followed by `c`.
fn followed_by(variant: &Vec<u8>, c: char) -> (bytes: Vec<u8>)
    ensures
        bytes@ == variant@ + text::char_bytes(c),
{
    let mut bytes: Vec<u8> = Vec::with_capacity(variant.len());
    bytes.extend_from_slice(variant.as_slice());
    let mut encoded = text::encode_char(c);
    bytes.append(&mut encoded);
    bytes
}

/// Each of `variants`, followed by each of `folds`.
fn extend_variants(variants: &Vec<Vec<u8>>, folds: &Vec<char>) -> (next: Vec<Vec<u8>>)
    ensures
        bytes_view(next@) == extended(bytes_view(variants@), folds@),
{
    let ghost view = bytes_view(variants@);
    let mut next: Vec<Vec<u8>> = Vec::new();
    let mut i: usize = 0;
    assert(bytes_view(next@) =~= extended(view.take(0), folds@));
    while i < variants.len()
        invariant
            i <= variants@.len(),
            view == bytes_view(variants@),
            bytes_view(next@) == extended(view.take(i as int), folds@),
        decreases variants@.len() - i,
    {
        let ghost done = bytes_view(next@);
        let ghost added = followed_by_each(view[i as int], folds@);
        let mut k: usize = 0;
        assert(done + added.take(0) =~= done);
        while k < folds.len()
            invariant
                i < variants@.len(),
                k <= folds@.len(),
                view == bytes_view(variants@),
                added == followed_by_each(view[i as int], folds@),
                bytes_view(next@) == done + added.take(k as int),
            decreases folds@.len() - k,
        {
            let ghost before = next@;
            next.push(followed_by(&variants[i], folds[k]));
            proof {
                assert(next@.last()@ == added[k as int]);
                assert(bytes_view(next@) =~= bytes_view(before).push(added[k as int]));
                assert(bytes_view(next@) =~= done + added.take(k + 1));
            }
            k += 1;
        }
        proof {
            assert(added.take(k as int) =~= added);
            assert(view.take(i + 1).drop_last() =~= view.take(i as int));
            assert(view.take(i + 1).last() == view[i as int]);
        }
        i += 1;
    }
    assert(view.take(i as int) =~= view);
    next
}

/// The byte needles for a case-insensitive literal: every combination of the simple case
/// folds of its characters. When the full literal needs more than `budget` needles, a prefix
/// of it is used instead, since a substring of a required literal is required too. `None`
/// when even one character does not fit, or when case folding data is unavailable.
pub fn casei_needles(literal: &str, budget: usize) -> (needles: Option<Vec<Vec<u8>>>)
    ensures
        match needles {
            Some(list) => {
                &&& needle_list(literal@, budget as nat) == Some(bytes_view(list@))
                &&& bytes_view(list@).no_duplicates()
                &&& bytes_view(list@).contains(
                    vstd::utf8::encode_utf8(used_prefix(literal@, budget as nat)),
                )
            },
            None => needle_list(literal@, budget as nat) is None,
        },
{
    let chars = chars_of(literal);
    let mut variants: Vec<Vec<u8>> = Vec::new();
    variants.push(Vec::new());
    let mut n: usize = 0;
    let mut fits = true;
    proof {
        assert(bytes_view(variants@) =~= spellings(chars@.take(0)));
    }
    while n < chars.len() && fits
        invariant
            chars@ == literal@,
            n <= chars@.len(),
            bytes_view(variants@) == spellings(chars@.take(n as int)),
            folds_are_regular(chars@.take(n as int)),
            fits ==> prefix_len(chars@, budget as nat, 0) == prefix_len(
                chars@,
                budget as nat,
                n as nat,
            ),
            !fits ==> prefix_len(chars@, budget as nat, 0) == Some(n as nat),
        decreases chars@.len() - n + (if fits { 1int } else { 0int }),
    {
        let folds = match fold::case_folds(chars[n]) {
            Some(folds) => folds,
            None => return None,
        };
        proof {
            assert(chars@.take(n + 1).drop_last() =~= chars@.take(n as int));
            assert(chars@.take(n + 1).last() == chars@[n as int]);
            extended_len(bytes_view(variants@), folds@);
            assert(folds@.no_duplicates());
            assert(folds_are_regular(chars@.take(n + 1))) by {
                let more = chars@.take(n + 1);
                assert forall|k: int| 0 <= k < more.len() implies (fold::fold_chars(
                    #[trigger] more[k],
                ) matches Some(folds) && folds.contains(more[k]) && folds.no_duplicates()) by {
                    if k < n {
                        assert(chars@.take(n as int)[k] == more[k]);
                    }
                }
            }
        }
        match variants.len().checked_mul(folds.len()) {
            Some(count) if count <= budget => {
                variants = extend_variants(&variants, &folds);
                n += 1;
            },
            _ => {
                fits = false;
            },
        }
    }
    if n == 0 {
        return None;
    }
    proof {
        let prefix = chars@.take(n as int);
        assert(used_prefix(literal@, budget as nat) == prefix);
        spellings_are_distinct(prefix);
        assert(semantics::spells(prefix, true, prefix)) by {
            assert forall|k: int| 0 <= k < prefix.len() implies fold::folds_to(
                #[trigger] prefix[k],
                prefix[k],
            ) by {
                fold::chars_of_ranges_members(
                    fold::simple_fold_ranges(prefix[k])->Some_0,
                    prefix[k],
                );
            }
        }
        spellings_are_complete(prefix, prefix);
    }
    Some(variants)
}

/// A variant followed by a fold is among the extended variants.
proof fn extended_members(variants: Seq<Seq<u8>>, folds: Seq<char>, i: int, k: int)
    requires
        0 <= i < variants.len(),
        0 <= k < folds.len(),
    ensures
        extended(variants, folds).contains(variants[i] + text::char_bytes(folds[k])),
    decreases variants.len(),
{
    let x = variants[i] + text::char_bytes(folds[k]);
    let a = extended(variants.drop_last(), folds);
    let b = followed_by_each(variants.last(), folds);
    if i < variants.len() - 1 {
        extended_members(variants.drop_last(), folds, i, k);
        let m = choose|m: int| 0 <= m < a.len() && a[m] == x;
        assert((a + b)[m] == x);
    } else {
        assert(b[k] == x);
        assert((a + b)[a.len() + k] == x);
    }
}

/// Where all of `chars` have case folding data, each text that they match is among the spellings.
proof fn spellings_are_complete(chars: Seq<char>, t: Seq<char>)
    requires
        semantics::spells(chars, true, t),
        forall|k: int| 0 <= k < chars.len() ==> fold::fold_chars(#[trigger] chars[k]) is Some,
    ensures
        spellings(chars).contains(vstd::utf8::encode_utf8(t)),
    decreases chars.len(),
{
    if chars.len() == 0 {
        assert(t =~= Seq::empty());
        assert(spellings(chars)[0] == vstd::utf8::encode_utf8(t));
    } else {
        let c = chars.last();
        let d = t.last();
        let folds = fold::fold_chars(c)->Some_0;
        let before = spellings(chars.drop_last());
        assert(semantics::spells(chars.drop_last(), true, t.drop_last())) by {
            assert(forall|k: int| 0 <= k < chars.len() - 1 ==> #[trigger] t.drop_last()[k] == t[k]);
        }
        spellings_are_complete(chars.drop_last(), t.drop_last());
        assert(fold::folds_to(chars[chars.len() - 1], t[t.len() - 1]));
        fold::chars_of_ranges_members(fold::simple_fold_ranges(c)->Some_0, d);
        let k = choose|k: int| 0 <= k < folds.len() && folds[k] == d;
        let head = vstd::utf8::encode_utf8(t.drop_last());
        let i = choose|i: int| 0 <= i < before.len() && before[i] == head;
        extended_members(before, folds, i, k);
        text::encoding_of_concatenation(t.drop_last(), seq![d]);
        text::encoding_of_one(d);
        assert(t =~= t.drop_last() + seq![d]);
    }
}

/// An extended variant is a variant followed by a fold.
proof fn extended_parts(variants: Seq<Seq<u8>>, folds: Seq<char>, x: int) -> (at: (int, int))
    requires
        0 <= x < extended(variants, folds).len(),
    ensures
        0 <= at.0 < variants.len(),
        0 <= at.1 < folds.len(),
        extended(variants, folds)[x] == variants[at.0] + text::char_bytes(folds[at.1]),
    decreases variants.len(),
{
    let a = extended(variants.drop_last(), folds);
    if x < a.len() {
        let at = extended_parts(variants.drop_last(), folds, x);
        assert(variants.drop_last()[at.0] == variants[at.0]);
        at
    } else {
        (variants.len() - 1, x - a.len())
    }
}

/// Where all of `chars` have case folding data, each spelling is that of a text that they match.
proof fn spellings_are_sound(chars: Seq<char>, m: int) -> (t: Seq<char>)
    requires
        0 <= m < spellings(chars).len(),
        forall|k: int| 0 <= k < chars.len() ==> fold::fold_chars(#[trigger] chars[k]) is Some,
    ensures
        semantics::spells(chars, true, t),
        spellings(chars)[m] == vstd::utf8::encode_utf8(t),
    decreases chars.len(),
{
    if chars.len() == 0 {
        assert(semantics::spells(chars, true, Seq::empty()));
        Seq::empty()
    } else {
        let c = chars.last();
        let before = chars.drop_last();
        let folds = fold::fold_chars(c)->Some_0;
        let (i, k) = extended_parts(spellings(before), folds, m);
        assert(forall|j: int| 0 <= j < before.len() ==> #[trigger] before[j] == chars[j]);
        let head = spellings_are_sound(before, i);
        let d = folds[k];
        let t = head.push(d);
        assert(folds.contains(d));
        fold::chars_of_ranges_members(fold::simple_fold_ranges(c)->Some_0, d);
        text::encoding_of_concatenation(head, seq![d]);
        text::encoding_of_one(d);
        assert(t =~= head + seq![d]);
        assert forall|j: int| 0 <= j < chars.len() implies fold::folds_to(chars[j], #[trigger] t[j]) by {
            if j < before.len() {
                assert(t[j] == head[j]);
                assert(before[j] == chars[j]);
            }
        }
        assert(semantics::spells(chars, true, t));
        t
    }
}

/// Texts with the same encoding are the same.
proof fn encoding_is_injective(s: Seq<char>, t: Seq<char>)
    requires
        vstd::utf8::encode_utf8(s) == vstd::utf8::encode_utf8(t),
    ensures
        s == t,
{
    vstd::utf8::encode_utf8_decode_utf8(s);
    vstd::utf8::encode_utf8_decode_utf8(t);
}

/// Two texts with a character behind them each, encoded alike, are alike in both.
proof fn followed_alike(s: Seq<char>, c: char, t: Seq<char>, d: char)
    requires
        vstd::utf8::encode_utf8(s) + text::char_bytes(c) == vstd::utf8::encode_utf8(t)
            + text::char_bytes(d),
    ensures
        s == t,
        c == d,
{
    text::encoding_of_concatenation(s, seq![c]);
    text::encoding_of_concatenation(t, seq![d]);
    text::encoding_of_one(c);
    text::encoding_of_one(d);
    let a = s + seq![c];
    let b = t + seq![d];
    encoding_is_injective(a, b);
    assert(a.len() == s.len() + 1 && b.len() == t.len() + 1);
    assert(a[s.len() as int] == c && b[t.len() as int] == d);
    assert(s =~= a.drop_last());
    assert(t =~= b.drop_last());
}

/// Distinct encodings, followed by distinct characters each, stay distinct.
proof fn extended_are_distinct(variants: Seq<Seq<u8>>, texts: Seq<Seq<char>>, folds: Seq<char>)
    requires
        variants.no_duplicates(),
        folds.no_duplicates(),
        texts.len() == variants.len(),
        forall|i: int|
            0 <= i < variants.len() ==> #[trigger] variants[i] == vstd::utf8::encode_utf8(texts[i]),
    ensures
        extended(variants, folds).no_duplicates(),
    decreases variants.len(),
{
    if variants.len() > 0 {
        let rest = variants.drop_last();
        let last = variants.len() - 1;
        let a = extended(rest, folds);
        let b = followed_by_each(variants.last(), folds);
        let all = a + b;
        assert(forall|i: int| 0 <= i < rest.len() ==> #[trigger] rest[i] == variants[i]);
        extended_are_distinct(rest, texts.drop_last(), folds);
        assert forall|x: int, y: int| 0 <= x < y < all.len() implies all[x] != all[y] by {
            if all[x] == all[y] && y >= a.len() {
                let k = y - a.len();
                assert(all[y] == variants[last] + text::char_bytes(folds[k]));
                if x >= a.len() {
                    let j = x - a.len();
                    assert(all[x] == variants[last] + text::char_bytes(folds[j]));
                    followed_alike(texts[last], folds[j], texts[last], folds[k]);
                } else {
                    let (i, j) = extended_parts(rest, folds, x);
                    assert(all[x] == variants[i] + text::char_bytes(folds[j]));
                    followed_alike(texts[i], folds[j], texts[last], folds[k]);
                    assert(variants[i] == variants[last]);
                }
            } else if y < a.len() {
                assert(a[x] != a[y]);
            }
        }
    }
}

/// No spelling occurs twice.
proof fn spellings_are_distinct(chars: Seq<char>)
    requires
        folds_are_regular(chars),
    ensures
        spellings(chars).no_duplicates(),
    decreases chars.len(),
{
    if chars.len() > 0 {
        let before = chars.drop_last();
        let variants = spellings(before);
        assert(forall|j: int| 0 <= j < before.len() ==> #[trigger] before[j] == chars[j]);
        assert(chars[chars.len() - 1] == chars.last());
        spellings_are_distinct(before);
        let texts = Seq::new(
            variants.len(),
            |i: int| choose|t: Seq<char>| vstd::utf8::encode_utf8(t) == variants[i],
        );
        assert forall|i: int| 0 <= i < variants.len() implies #[trigger] variants[i]
            == vstd::utf8::encode_utf8(texts[i]) by {
            let t = spellings_are_sound(before, i);
            assert(vstd::utf8::encode_utf8(t) == variants[i]);
        }
        extended_are_distinct(variants, texts, fold::fold_chars(chars.last())->Some_0);
    }
}

/// What the length of the prefix says: its characters have case folding data, its spellings stay
/// within the budget, and one character more would not.
proof fn prefix_len_is_greatest(chars: Seq<char>, budget: nat, n: nat)
    requires
        n <= chars.len(),
    ensures
        prefix_len(chars, budget, n) matches Some(r) ==> {
            &&& n <= r <= chars.len()
            &&& forall|k: int| n <= k < r ==> fold::fold_chars(#[trigger] chars[k]) is Some
            &&& r > n ==> spellings(chars.take(r as int)).len() <= budget
            &&& r < chars.len() ==> spellings(chars.take(r as int + 1)).len() > budget
        },
    decreases chars.len() - n,
{
    if n < chars.len() {
        if fold::fold_chars(chars[n as int]) is Some && spellings(chars.take(n as int + 1)).len()
            <= budget {
            prefix_len_is_greatest(chars, budget, n + 1);
        }
    }
}

/// A spelling of at least one character holds at least one byte.
proof fn spellings_are_not_empty(chars: Seq<char>, m: int)
    requires
        chars.len() > 0,
        0 <= m < spellings(chars).len(),
    ensures
        spellings(chars)[m].len() > 0,
{
    extended_are_not_empty(
        spellings(chars.drop_last()),
        fold::fold_chars(chars.last())->Some_0,
        m,
    );
}

proof fn extended_are_not_empty(variants: Seq<Seq<u8>>, folds: Seq<char>, m: int)
    requires
        0 <= m < extended(variants, folds).len(),
    ensures
        extended(variants, folds)[m].len() > 0,
    decreases variants.len(),
{
    let a = extended(variants.drop_last(), folds);
    let b = followed_by_each(variants.last(), folds);
    if m < a.len() {
        extended_are_not_empty(variants.drop_last(), folds, m);
        assert((a + b)[m] == a[m]);
    } else {
        let c = folds[m - a.len()];
        text::first_byte_of_char(c);
        assert((a + b)[m] == variants.last() + text::char_bytes(c));
    }
}

/// There are no more needles than the budget allows, and no needle is empty.
pub proof fn needles_stay_within_budget(chars: Seq<char>, budget: nat)
    requires
        needle_list(chars, budget) is Some,
    ensures
        needle_list(chars, budget)->Some_0.len() <= budget,
        forall|m: int|
            0 <= m < needle_list(chars, budget)->Some_0.len() ==> (
            #[trigger] needle_list(chars, budget)->Some_0[m]).len() > 0,
{
    prefix_len_is_greatest(chars, budget, 0);
    let n = prefix_len(chars, budget, 0)->Some_0;
    let prefix = chars.take(n as int);
    assert forall|m: int| 0 <= m < spellings(prefix).len() implies (
    #[trigger] spellings(prefix)[m]).len() > 0 by {
        spellings_are_not_empty(prefix, m);
    }
}

/// The needles are the spellings of the longest prefix of the literal that has few enough.
pub proof fn needles_spell_the_longest_prefix(chars: Seq<char>, budget: nat)
    requires
        needle_list(chars, budget) is Some,
    ensures
        exists|n: int|
            0 < n <= chars.len() && needle_list(chars, budget) == Some(
                spellings(#[trigger] chars.take(n)),
            ) && (n < chars.len() ==> spellings(chars.take(n + 1)).len() > budget),
{
    prefix_len_is_greatest(chars, budget, 0);
    let n = prefix_len(chars, budget, 0)->Some_0 as int;
    assert(needle_list(chars, budget) == Some(spellings(chars.take(n))));
}

/// Where a case-insensitive literal stands, one of its needles stands.
pub proof fn a_needle_stands(chars: Seq<char>, budget: nat, hay: Seq<u8>, p: int, q: int)
    requires
        needle_list(chars, budget) is Some,
        semantics::literal_at(chars, true, hay, p, q),
    ensures
        exists|m: int|
            0 <= m < needle_list(chars, budget)->Some_0.len() && text::stands_at(
                #[trigger] needle_list(chars, budget)->Some_0[m],
                hay,
                p,
            ),
{
    prefix_len_is_greatest(chars, budget, 0);
    let n = prefix_len(chars, budget, 0)->Some_0 as int;
    let prefix = chars.take(n);
    let needles = spellings(prefix);
    let t = choose|t: Seq<char>|
        #[trigger] semantics::spells(chars, true, t) && vstd::utf8::encode_utf8(t) == hay.subrange(
            p,
            q,
        );
    let part = t.subrange(0, n);
    assert(semantics::spells(prefix, true, part)) by {
        assert(forall|k: int| 0 <= k < n ==> #[trigger] part[k] == t[k]);
        assert(forall|k: int| 0 <= k < n ==> #[trigger] prefix[k] == chars[k]);
    }
    spellings_are_complete(prefix, part);
    text::part_of_encoding(t, 0, n, hay, p, q);
    assert(t.take(0) =~= Seq::empty());
    let m = choose|m: int| 0 <= m < needles.len() && needles[m] == vstd::utf8::encode_utf8(part);
    assert(needle_list(chars, budget)->Some_0[m] == needles[m]);
    assert(text::stands_at(needles[m], hay, p));
}

/// The needles are the encodings of the texts that the prefix matches in any case, and nothing else.
pub proof fn needles_are_the_spellings(chars: Seq<char>, budget: nat, bytes: Seq<u8>)
    requires
        needle_list(chars, budget) is Some,
    ensures
        needle_list(chars, budget)->Some_0.contains(bytes) <==> semantics::encodes_literal(
            used_prefix(chars, budget),
            true,
            bytes,
        ),
{
    prefix_len_is_greatest(chars, budget, 0);
    let prefix = used_prefix(chars, budget);
    let list = spellings(prefix);
    assert(forall|k: int| 0 <= k < prefix.len() ==> #[trigger] prefix[k] == chars[k]);
    if list.contains(bytes) {
        let m = choose|m: int| 0 <= m < list.len() && list[m] == bytes;
        let t = spellings_are_sound(prefix, m);
        assert(semantics::spells(prefix, true, t));
    }
    if semantics::encodes_literal(prefix, true, bytes) {
        let t = choose|t: Seq<char>|
            #[trigger] semantics::spells(prefix, true, t) && vstd::utf8::encode_utf8(t) == bytes;
        spellings_are_complete(prefix, t);
    }
}

/// With case folding data there are needles wherever the first character has few enough folds.
pub proof fn needles_are_there(chars: Seq<char>, budget: nat)
    requires
        chars.len() > 0,
        forall|k: int| 0 <= k < chars.len() ==> fold::fold_chars(#[trigger] chars[k]) is Some,
        fold::fold_chars(chars[0])->Some_0.len() <= budget,
    ensures
        needle_list(chars, budget) is Some,
{
    let one = chars.take(1);
    assert(one.drop_last() =~= Seq::empty());
    assert(one.last() == chars[0]);
    let folds = fold::fold_chars(chars[0])->Some_0;
    extended_len(spellings(one.drop_last()), folds);
    assert(spellings(one.drop_last()).len() == 1);
    assert(1 * folds.len() == folds.len()) by (nonlinear_arith);
    assert(spellings(one) == extended(spellings(one.drop_last()), folds));
    prefix_len_with_data(chars, budget, 1);
    prefix_len_is_greatest(chars, budget, 1);
}

proof fn prefix_len_with_data(chars: Seq<char>, budget: nat, n: nat)
    requires
        forall|k: int| 0 <= k < chars.len() ==> fold::fold_chars(#[trigger] chars[k]) is Some,
    ensures
        prefix_len(chars, budget, n) is Some,
    decreases chars.len() - n,
{
    if n < chars.len() {
        assert(fold::fold_chars(chars[n as int]) is Some);
        prefix_len_with_data(chars, budget, n + 1);
    }
}

/// In how many ways `chars` can be spelled: the product of the numbers of their case folds.
pub open spec fn fold_product(chars: Seq<char>) -> nat
    decreases chars.len(),
{
    if chars.len() == 0 {
        1
    } else {
        fold_product(chars.drop_last()) * fold::fold_chars(chars.last())->Some_0.len()
    }
}

/// There are as many spellings as the case folds make.
pub proof fn spellings_are_counted(chars: Seq<char>)
    ensures
        spellings(chars).len() == fold_product(chars),
    decreases chars.len(),
{
    if chars.len() > 0 {
        spellings_are_counted(chars.drop_last());
        extended_len(
            spellings(chars.drop_last()),
            fold::fold_chars(chars.last())->Some_0,
        );
    }
}

/// Whether the first `n` characters are as many as can be spelled in no more than `budget` ways.
pub open spec fn is_longest(chars: Seq<char>, budget: nat, n: int) -> bool {
    &&& 0 < n <= chars.len()
    &&& fold_product(chars.take(n)) <= budget
    &&& n < chars.len() ==> fold_product(chars.take(n + 1)) > budget
}

/// What the needles of a case-insensitive literal are: the encodings of the texts that its longest
/// prefix within the budget matches in any case.
pub proof fn needles_spell_out_a_prefix(chars: Seq<char>, budget: nat)
    requires
        needle_list(chars, budget) is Some,
    ensures
        exists|n: int| #[trigger]
            is_longest(chars, budget, n) && forall|bytes: Seq<u8>| #[trigger]
                needle_list(chars, budget)->Some_0.contains(bytes) <==> semantics::encodes_literal(
                    chars.take(n),
                    true,
                    bytes,
                ),
        needle_list(chars, budget)->Some_0.len() <= budget,
{
    prefix_len_is_greatest(chars, budget, 0);
    needles_stay_within_budget(chars, budget);
    let n = prefix_len(chars, budget, 0)->Some_0 as int;
    spellings_are_counted(chars.take(n));
    spellings_are_counted(chars.take(n + 1));
    assert(is_longest(chars, budget, n));
    assert forall|bytes: Seq<u8>| #[trigger]
        needle_list(chars, budget)->Some_0.contains(bytes) <==> semantics::encodes_literal(
            chars.take(n),
            true,
            bytes,
        ) by {
        needles_are_the_spellings(chars, budget, bytes);
    }
}

/// When a case-insensitive literal has no needles: where it is empty, where its first character has
/// more folds than the budget allows, or where case folding data is missing.
pub proof fn when_there_are_no_needles(chars: Seq<char>, budget: nat)
    requires
        needle_list(chars, budget) is None,
    ensures
        ({
            ||| chars.len() == 0
            ||| fold::fold_chars(chars[0]) matches Some(folds) && folds.len() > budget
            ||| exists|k: int| 0 <= k < chars.len() && fold::fold_chars(#[trigger] chars[k]) is None
        }),
{
    if chars.len() > 0 && forall|k: int|
        0 <= k < chars.len() ==> fold::fold_chars(#[trigger] chars[k]) is Some {
        assert(fold::fold_chars(chars[0]) is Some);
        if fold::fold_chars(chars[0])->Some_0.len() <= budget {
            needles_are_there(chars, budget);
        }
    }
}

/// Spelling number `m` of `chars`, where the folds of the last character change fastest.
pub open spec fn spelling(chars: Seq<char>, m: int) -> Seq<char>
    decreases chars.len(),
{
    if chars.len() == 0 {
        chars
    } else {
        let folds = fold::fold_chars(chars.last())->Some_0;
        spelling(chars.drop_last(), m / (folds.len() as int)).push(folds[m % (folds.len() as int)])
    }
}

proof fn extended_at(variants: Seq<Seq<u8>>, folds: Seq<char>, m: int)
    requires
        0 <= m < variants.len() * folds.len(),
    ensures
        folds.len() > 0,
        0 <= m / (folds.len() as int) < variants.len(),
        0 <= m % (folds.len() as int) < folds.len(),
        extended(variants, folds).len() == variants.len() * folds.len(),
        extended(variants, folds)[m] == variants[m / (folds.len() as int)] + text::char_bytes(
            folds[m % (folds.len() as int)],
        ),
    decreases variants.len(),
{
    let n = variants.len() as int;
    let len = folds.len() as int;
    let q = m / len;
    let r = m % len;
    extended_len(variants, folds);
    assert(n > 0 && len > 0) by (nonlinear_arith)
        requires
            0 <= m < n * len,
            n >= 0,
            len >= 0,
    ;
    assert(m == q * len + r && 0 <= r < len && 0 <= q < n) by (nonlinear_arith)
        requires
            0 <= m < n * len,
            len > 0,
            q == m / len,
            r == m % len,
    ;
    let rest = variants.drop_last();
    extended_len(rest, folds);
    assert((n - 1) * len + len == n * len) by (nonlinear_arith);
    if q < n - 1 {
        assert(q * len + r < (n - 1) * len) by (nonlinear_arith)
            requires
                q < n - 1,
                0 <= r < len,
        ;
        extended_at(rest, folds, m);
        assert(rest[q] == variants[q]);
    } else {
        assert(variants.last() == variants[q]);
        assert(followed_by_each(variants.last(), folds)[r] == variants[q] + text::char_bytes(
            folds[r],
        ));
    }
}

proof fn spellings_are_numbered(chars: Seq<char>, m: int)
    requires
        0 <= m < spellings(chars).len(),
    ensures
        spellings(chars)[m] == vstd::utf8::encode_utf8(spelling(chars, m)),
    decreases chars.len(),
{
    if chars.len() == 0 {
        assert(vstd::utf8::encode_utf8(spelling(chars, m)) =~= Seq::<u8>::empty());
    } else {
        let rest = chars.drop_last();
        let folds = fold::fold_chars(chars.last())->Some_0;
        let len = folds.len() as int;
        extended_len(spellings(rest), folds);
        extended_at(spellings(rest), folds, m);
        spellings_are_numbered(rest, m / len);
        let c = folds[m % len];
        text::encoding_of_concatenation(spelling(rest, m / len), seq![c]);
        text::encoding_of_one(c);
        assert(spelling(chars, m) =~= spelling(rest, m / len) + seq![c]);
    }
}

/// In which order the needles of a case-insensitive literal come: that of the folds of the last
/// character of the prefix first, then of the one before it, and so on.
pub proof fn needles_come_in_order(chars: Seq<char>, budget: nat)
    requires
        needle_list(chars, budget) is Some,
    ensures
        exists|n: int| #[trigger]
            is_longest(chars, budget, n) && needle_list(chars, budget)->Some_0.len() == fold_product(
                chars.take(n),
            ) && forall|m: int|
                0 <= m < needle_list(chars, budget)->Some_0.len() ==> #[trigger] needle_list(
                    chars,
                    budget,
                )->Some_0[m] == vstd::utf8::encode_utf8(spelling(chars.take(n), m)),
{
    prefix_len_is_greatest(chars, budget, 0);
    let n = prefix_len(chars, budget, 0)->Some_0 as int;
    spellings_are_counted(chars.take(n));
    spellings_are_counted(chars.take(n + 1));
    assert(is_longest(chars, budget, n));
    assert forall|m: int| 0 <= m < needle_list(chars, budget)->Some_0.len() implies
        #[trigger] needle_list(chars, budget)->Some_0[m] == vstd::utf8::encode_utf8(
        spelling(chars.take(n), m),
    ) by {
        spellings_are_numbered(chars.take(n), m);
    }
}

} // verus!
