//! The prefilter that looks for the required literals of a pattern.

use regex_automata::util::prefilter::Prefilter;
use regex_automata::{MatchKind, Span};
use vstd::prelude::*;

use crate::expr::Expr;
use crate::literal::cover;
use crate::literal::needles;
use crate::literal::required::{self, LiteralView, RequiredLiteral};
use crate::semantics;
use crate::text;
use crate::tree::HirCtx;

verus! {

/// Upper bound on the needles handed to the prefilter after case expansion. Beyond this the
/// multi-substring search stops being cheap relative to the matcher it protects.
pub const MAX_NEEDLES: usize = 64;

/// `Prefilter`, the substring search of `regex_automata`. What it looks for is `prefilter_needles`.
#[verifier::external_type_specification]
#[verifier::external_body]
pub struct ExPrefilter(regex_automata::util::prefilter::Prefilter);

/// The needles that a prefilter looks for.
pub uninterp spec fn prefilter_needles(prefilter: Prefilter) -> Seq<Seq<u8>>;

/// Whether there are needles, and none of them is empty.
pub open spec fn is_searchable(list: Seq<Seq<u8>>) -> bool {
    list.len() > 0 && forall|k: int| 0 <= k < list.len() ==> (#[trigger] list[k]).len() > 0
}

/// The number of bytes of all needles.
pub open spec fn total_len(list: Seq<Seq<u8>>) -> nat
    decreases list.len(),
{
    if list.len() == 0 {
        0
    } else {
        total_len(list.drop_last()) + list.last().len()
    }
}

/// One of the needles stands in `hay` between `start` and `end`.
pub open spec fn a_needle_stands_within(
    list: Seq<Seq<u8>>,
    hay: Seq<u8>,
    start: int,
    end: int,
) -> bool {
    exists|k: int, p: int|
        0 <= k < list.len() && start <= p && p + list[k].len() <= end && #[trigger] text::stands_at(
            list[k],
            hay,
            p,
        )
}

/// Calls `Prefilter::new` with `MatchKind::LeftmostFirst`. It gives none without needles, or with an
/// empty one. It always gives one for a single needle, and for needles of no more than 65536 bytes
/// in all: the automaton that is built where nothing simpler will do has at most two states for
/// each byte and 256 transitions from each, and numbers of 31 bits for them. Whether it gives one
/// beyond that can depend on the machine, and is left open.
#[verifier::external_body]
fn build_prefilter(list: &Vec<Vec<u8>>) -> (prefilter: Option<Prefilter>)
    ensures
        prefilter matches Some(p) ==> {
            &&& is_searchable(needles::bytes_view(list@))
            &&& prefilter_needles(p) == needles::bytes_view(list@)
        },
        is_searchable(needles::bytes_view(list@)) && (list@.len() == 1 || total_len(
            needles::bytes_view(list@),
        ) <= 0x10000) ==> prefilter is Some,
{
    Prefilter::new(MatchKind::LeftmostFirst, list)
}

/// Calls `Prefilter::find`: where a needle stands in `haystack` between `start` and `end`, if one
/// does.
#[verifier::external_body]
fn find_needle(prefilter: &Prefilter, haystack: &[u8], start: usize, end: usize) -> (span: Option<
    (usize, usize),
>)
    requires
        start <= end <= haystack@.len(),
    ensures
        span is Some <==> a_needle_stands_within(
            prefilter_needles(*prefilter),
            haystack@,
            start as int,
            end as int,
        ),
        span matches Some((s, e)) ==> start <= s <= e <= end && prefilter_needles(
            *prefilter,
        ).contains(haystack@.subrange(s as int, e as int)),
{
    prefilter.find(haystack, Span { start, end }).map(|span| (span.start, span.end))
}

/// Calls `Prefilter::clone`: a prefilter that looks for the same needles.
#[verifier::external_body]
fn copy_prefilter(prefilter: &Prefilter) -> (copy: Prefilter)
    ensures
        prefilter_needles(copy) == prefilter_needles(*prefilter),
{
    prefilter.clone()
}

/// Whether `a` comes before `b` in the order of dictionaries.
pub open spec fn precedes(a: Seq<u8>, b: Seq<u8>) -> bool
    decreases a.len(),
{
    if b.len() == 0 {
        false
    } else if a.len() == 0 {
        true
    } else if a[0] == b[0] {
        precedes(a.drop_first(), b.drop_first())
    } else {
        a[0] < b[0]
    }
}

/// `needle` put at its place among `sorted`, unless it is there.
pub open spec fn inserted(sorted: Seq<Seq<u8>>, needle: Seq<u8>) -> Seq<Seq<u8>>
    decreases sorted.len(),
{
    if sorted.len() > 0 && precedes(sorted[0], needle) {
        seq![sorted[0]] + inserted(sorted.drop_first(), needle)
    } else if sorted.len() > 0 && sorted[0] == needle {
        sorted
    } else {
        seq![needle] + sorted
    }
}

/// The needles in ascending order, each once.
pub open spec fn sorted_needles(list: Seq<Seq<u8>>) -> Seq<Seq<u8>>
    decreases list.len(),
{
    if list.len() == 0 {
        list
    } else {
        inserted(sorted_needles(list.drop_last()), list.last())
    }
}

/// The needles for one literal, if it can be searched for.
pub open spec fn literal_needles(literal: LiteralView, budget: nat) -> Option<Seq<Seq<u8>>> {
    if literal.1 {
        needles::needle_list(literal.0, budget)
    } else {
        Some(seq![vstd::utf8::encode_utf8(literal.0)])
    }
}

/// The needles for all literals, if each of them can be searched for.
pub open spec fn needles_of(literals: Seq<LiteralView>, budget: nat) -> Option<Seq<Seq<u8>>>
    decreases literals.len(),
{
    if literals.len() == 0 {
        Some(Seq::empty())
    } else {
        match (
            needles_of(literals.drop_last(), budget),
            literal_needles(literals.last(), budget),
        ) {
            (Some(a), Some(b)) => Some(a + b),
            _ => None,
        }
    }
}

/// How many needles each of `n` literals may have.
pub open spec fn needle_budget(n: nat) -> nat {
    if MAX_NEEDLES as nat / n >= 1 {
        MAX_NEEDLES as nat / n
    } else {
        1
    }
}

/// The needles for the required literals of `expr`, if there are any such literals, each can be
/// searched for, and the needles are no more than `MAX_NEEDLES`.
pub open spec fn expr_needles(expr: Expr) -> Option<Seq<Seq<u8>>> {
    match required::required(expr) {
        Some(set) => if set.len() == 0 {
            None
        } else {
            let kept = cover::reduced(set);
            match needles_of(kept, needle_budget(kept.len())) {
                Some(list) => if sorted_needles(list).len() <= MAX_NEEDLES {
                    Some(sorted_needles(list))
                } else {
                    None
                },
                None => None,
            }
        },
        None => None,
    }
}

/// Whether `a` comes before `b` in the order of dictionaries.
fn bytes_precede(a: &Vec<u8>, b: &Vec<u8>) -> (first: bool)
    ensures
        first == precedes(a@, b@),
{
    let mut i: usize = 0;
    assert(a@.skip(0) =~= a@ && b@.skip(0) =~= b@);
    while i < a.len() && i < b.len() && a[i] == b[i]
        invariant
            i <= a@.len(),
            i <= b@.len(),
            precedes(a@, b@) == precedes(a@.skip(i as int), b@.skip(i as int)),
        decreases a@.len() - i,
    {
        proof {
            assert(a@.skip(i as int).drop_first() =~= a@.skip(i + 1));
            assert(b@.skip(i as int).drop_first() =~= b@.skip(i + 1));
        }
        i += 1;
    }
    if i >= b.len() {
        false
    } else if i >= a.len() {
        true
    } else {
        a[i] < b[i]
    }
}

/// Whether `a` and `b` are the same bytes.
fn same_bytes(a: &Vec<u8>, b: &Vec<u8>) -> (same: bool)
    ensures
        same == (a@ == b@),
{
    if a.len() != b.len() {
        return false;
    }
    let mut i: usize = 0;
    while i < a.len()
        invariant
            i <= a@.len(),
            a@.len() == b@.len(),
            a@.take(i as int) == b@.take(i as int),
        decreases a@.len() - i,
    {
        if a[i] != b[i] {
            return false;
        }
        proof {
            assert(a@.take(i + 1) =~= a@.take(i as int).push(a@[i as int]));
            assert(b@.take(i + 1) =~= b@.take(i as int).push(b@[i as int]));
        }
        i += 1;
    }
    assert(a@.take(i as int) =~= a@ && b@.take(i as int) =~= b@);
    true
}

/// Puts `needle` at its place among `sorted`, unless it is there.
fn insert_sorted(sorted: &mut Vec<Vec<u8>>, needle: Vec<u8>)
    ensures
        needles::bytes_view(final(sorted)@) == inserted(
            needles::bytes_view(old(sorted)@),
            needle@,
        ),
{
    let ghost view = needles::bytes_view(sorted@);
    let mut i: usize = 0;
    proof {
        assert(view.skip(0) =~= view);
        assert(view.take(0) + inserted(view, needle@) =~= inserted(view, needle@));
    }
    while i < sorted.len() && bytes_precede(&sorted[i], &needle)
        invariant
            i <= sorted@.len(),
            view == needles::bytes_view(sorted@),
            view.take(i as int) + inserted(view.skip(i as int), needle@) == inserted(view, needle@),
        decreases sorted@.len() - i,
    {
        proof {
            let rest = view.skip(i as int);
            assert(rest.drop_first() =~= view.skip(i + 1));
            assert(rest[0] == view[i as int]);
            assert(view.take(i as int) + (seq![rest[0]] + inserted(rest.drop_first(), needle@))
                =~= view.take(i + 1) + inserted(view.skip(i + 1), needle@));
        }
        i += 1;
    }
    proof {
        assert(view.take(i as int) + view.skip(i as int) =~= view);
        if i < sorted@.len() {
            assert(view.skip(i as int)[0] == view[i as int]);
        }
    }
    if i < sorted.len() && same_bytes(&sorted[i], &needle) {
        return;
    }
    let ghost bytes = needle@;
    sorted.insert(i, needle);
    assert(needles::bytes_view(sorted@) =~= view.take(i as int) + (seq![bytes] + view.skip(i as int)));
}

/// The needles in ascending order, each once.
fn sort_needles(list: Vec<Vec<u8>>) -> (sorted: Vec<Vec<u8>>)
    ensures
        needles::bytes_view(sorted@) == sorted_needles(needles::bytes_view(list@)),
{
    let ghost view = needles::bytes_view(list@);
    let mut sorted: Vec<Vec<u8>> = Vec::with_capacity(list.len());
    let mut i: usize = 0;
    assert(needles::bytes_view(sorted@) =~= view.take(0));
    while i < list.len()
        invariant
            i <= list@.len(),
            view == needles::bytes_view(list@),
            needles::bytes_view(sorted@) == sorted_needles(view.take(i as int)),
        decreases list@.len() - i,
    {
        let mut needle: Vec<u8> = Vec::with_capacity(list[i].len());
        needle.extend_from_slice(list[i].as_slice());
        proof {
            assert(needle@ =~= view[i as int]);
            assert(view.take(i + 1).drop_last() =~= view.take(i as int));
        }
        insert_sorted(&mut sorted, needle);
        i += 1;
    }
    assert(view.take(i as int) =~= view);
    sorted
}

/// Checks that a haystack contains one of the required literals of a pattern.
#[derive(Debug)]
pub struct LiteralPrefilter {
    inner: Prefilter,
}

impl LiteralPrefilter {
    /// The needles that are looked for.
    pub closed spec fn needles(self) -> Seq<Seq<u8>> {
        prefilter_needles(self.inner)
    }

    /// Builds the prefilter for `expr`, or `None` when the pattern has no required literals or
    /// they cannot be turned into a small set of byte needles.
    pub fn from_expr(expr: &Expr) -> (prefilter: Option<Self>)
        ensures
            prefilter matches Some(p) ==> {
                &&& expr_needles(*expr) == Some(p.needles())
                &&& is_searchable(p.needles())
                &&& p.needles().len() <= MAX_NEEDLES
            },
            expr_needles(*expr) matches Some(list) ==> is_searchable(list) && list.len()
                <= MAX_NEEDLES && (list.len() == 1 || total_len(list) <= 0x10000)
                ==> prefilter is Some,
            *expr matches Expr::Alt(branches) && branches@.len() == 0 ==> prefilter is None,
    {
        proof {
            // An alternation without branches requires nothing
            reveal_with_fuel(required::required, 2);
            reveal_with_fuel(required::required_of_each, 2);
        }
        let literals = match required::required_literals(expr) {
            Some(literals) => {
                if literals.len() == 0 {
                    return None;
                }
                cover::reduce(literals)
            },
            None => return None,
        };
        // Any-of semantics: every literal must be searchable, and they share the budget
        let share: usize = MAX_NEEDLES / literals.len();
        let budget: usize = if share >= 1 {
            share
        } else {
            1
        };
        match collect_needles(&literals, budget) {
            Some(list) => {
                let list = sort_needles(list);
                if list.len() > MAX_NEEDLES {
                    return None;
                }
                match build_prefilter(&list) {
                    Some(inner) => Some(LiteralPrefilter { inner }),
                    None => None,
                }
            },
            None => None,
        }
    }

    /// Whether a match starting at or after `start` is possible at all
    pub fn may_match(&self, haystack: &[u8], start: usize) -> (possible: bool)
        ensures
            possible <==> start < haystack@.len() && a_needle_stands_within(
                self.needles(),
                haystack@,
                start as int,
                haystack@.len() as int,
            ),
    {
        let end: usize = haystack.len();
        if start >= end {
            return false;
        }
        find_needle(&self.inner, haystack, start, end).is_some()
    }
}

impl Clone for LiteralPrefilter {
    fn clone(&self) -> (copy: Self)
        ensures
            copy.needles() == self.needles(),
    {
        LiteralPrefilter { inner: copy_prefilter(&self.inner) }
    }
}

/// The needles for all literals, or `None` where one of them cannot be searched for.
fn collect_needles(literals: &Vec<RequiredLiteral>, budget: usize) -> (list: Option<Vec<Vec<u8>>>)
    ensures
        match list {
            Some(list) => needles_of(required::literals_view(literals@), budget as nat) == Some(
                needles::bytes_view(list@),
            ),
            None => needles_of(required::literals_view(literals@), budget as nat) is None,
        },
{
    let ghost view = required::literals_view(literals@);
    let mut list: Vec<Vec<u8>> = Vec::new();
    let mut i: usize = 0;
    assert(needles::bytes_view(list@) =~= Seq::empty());
    while i < literals.len()
        invariant
            i <= literals@.len(),
            view == required::literals_view(literals@),
            needles_of(view.take(i as int), budget as nat) == Some(needles::bytes_view(list@)),
        decreases literals@.len() - i,
    {
        let ghost before = list@;
        proof {
            assert(view.take(i + 1).drop_last() =~= view.take(i as int));
            assert(view.take(i + 1).last() == view[i as int]);
        }
        if literals[i].1 {
            match needles::casei_needles(literals[i].0.as_str(), budget) {
                Some(more) => {
                    let mut more = more;
                    let ghost added = more@;
                    list.append(&mut more);
                    assert(needles::bytes_view(list@) =~= needles::bytes_view(before)
                        + needles::bytes_view(added));
                },
                None => {
                    proof {
                        each_literal_is_needed(view, budget as nat, i as int);
                    }
                    return None;
                },
            }
        } else {
            let mut needle: Vec<u8> = Vec::new();
            needle.extend_from_slice(literals[i].0.as_str().as_bytes());
            assert(needle@ =~= vstd::utf8::encode_utf8(view[i as int].0));
            list.push(needle);
            assert(needles::bytes_view(list@) =~= needles::bytes_view(before) + seq![
                vstd::utf8::encode_utf8(view[i as int].0),
            ]);
        }
        i += 1;
    }
    assert(view.take(i as int) =~= view);
    Some(list)
}

/// One literal that cannot be searched for leaves none.
proof fn each_literal_is_needed(literals: Seq<LiteralView>, budget: nat, k: int)
    requires
        0 <= k < literals.len(),
        literal_needles(literals[k], budget) is None,
    ensures
        needles_of(literals, budget) is None,
    decreases literals.len(),
{
    if k < literals.len() - 1 {
        assert(literals.drop_last()[k] == literals[k]);
        each_literal_is_needed(literals.drop_last(), budget, k);
    }
}

/// Inserting a needle adds it and drops nothing.
proof fn inserted_members(sorted: Seq<Seq<u8>>, needle: Seq<u8>, x: Seq<u8>)
    ensures
        inserted(sorted, needle).contains(x) <==> x == needle || sorted.contains(x),
    decreases sorted.len(),
{
    let r = inserted(sorted, needle);
    if sorted.len() > 0 && precedes(sorted[0], needle) {
        let rest = sorted.drop_first();
        let tail = inserted(rest, needle);
        inserted_members(rest, needle, x);
        prepended_members(sorted[0], tail, x);
        prepended_members(sorted[0], rest, x);
        assert(sorted =~= seq![sorted[0]] + rest);
    } else if sorted.len() > 0 && sorted[0] == needle {
        assert(sorted.contains(needle));
    } else {
        prepended_members(needle, sorted, x);
    }
}

proof fn prepended_members(first: Seq<u8>, rest: Seq<Seq<u8>>, x: Seq<u8>)
    ensures
        (seq![first] + rest).contains(x) <==> x == first || rest.contains(x),
{
    let all = seq![first] + rest;
    assert(all[0] == first);
    if rest.contains(x) {
        let k = choose|k: int| 0 <= k < rest.len() && rest[k] == x;
        assert(all[k + 1] == x);
    }
    if all.contains(x) {
        let k = choose|k: int| 0 <= k < all.len() && all[k] == x;
        if k > 0 {
            assert(rest[k - 1] == x);
        }
    }
}

/// Of two needles that differ, one comes before the other.
proof fn one_precedes(a: Seq<u8>, b: Seq<u8>)
    ensures
        a == b || precedes(a, b) || precedes(b, a),
    decreases a.len(),
{
    if a.len() > 0 && b.len() > 0 && a[0] == b[0] {
        one_precedes(a.drop_first(), b.drop_first());
        assert(a =~= seq![a[0]] + a.drop_first());
        assert(b =~= seq![b[0]] + b.drop_first());
    } else if a.len() == 0 && b.len() == 0 {
        assert(a =~= b);
    }
}

/// What comes before a needle that comes before another comes before that.
proof fn precedes_is_transitive(a: Seq<u8>, b: Seq<u8>, c: Seq<u8>)
    requires
        precedes(a, b),
        precedes(b, c),
    ensures
        precedes(a, c),
    decreases a.len(),
{
    if a.len() > 0 && a[0] == b[0] && b[0] == c[0] {
        precedes_is_transitive(a.drop_first(), b.drop_first(), c.drop_first());
    }
}

/// No needle comes before itself.
proof fn precedes_is_strict(a: Seq<u8>)
    ensures
        !precedes(a, a),
    decreases a.len(),
{
    if a.len() > 0 {
        precedes_is_strict(a.drop_first());
    }
}

/// Whether each needle comes before those after it.
pub open spec fn is_ascending(list: Seq<Seq<u8>>) -> bool {
    forall|i: int, j: int|
        0 <= i < j < list.len() ==> precedes(#[trigger] list[i], #[trigger] list[j])
}

proof fn inserting_keeps_order(sorted: Seq<Seq<u8>>, needle: Seq<u8>)
    requires
        is_ascending(sorted),
    ensures
        is_ascending(inserted(sorted, needle)),
    decreases sorted.len(),
{
    let r = inserted(sorted, needle);
    if sorted.len() > 0 && precedes(sorted[0], needle) {
        let rest = sorted.drop_first();
        let tail = inserted(rest, needle);
        assert(is_ascending(rest));
        inserting_keeps_order(rest, needle);
        assert forall|j: int| 0 <= j < tail.len() implies precedes(sorted[0], #[trigger] tail[j]) by {
            assert(tail.contains(tail[j]));
            inserted_members(rest, needle, tail[j]);
            if tail[j] != needle {
                let k = choose|k: int| 0 <= k < rest.len() && rest[k] == tail[j];
                assert(sorted[k + 1] == tail[j]);
            }
        }
        assert forall|i: int, j: int| 0 <= i < j < r.len() implies precedes(
            #[trigger] r[i],
            #[trigger] r[j],
        ) by {
            assert(r[j] == tail[j - 1]);
            if i > 0 {
                assert(r[i] == tail[i - 1]);
            }
        }
    } else if sorted.len() > 0 && sorted[0] != needle {
        one_precedes(sorted[0], needle);
        assert forall|i: int, j: int| 0 <= i < j < r.len() implies precedes(
            #[trigger] r[i],
            #[trigger] r[j],
        ) by {
            assert(r[j] == sorted[j - 1]);
            if i > 0 {
                assert(r[i] == sorted[i - 1]);
            } else if j > 1 {
                precedes_is_transitive(needle, sorted[0], sorted[j - 1]);
            }
        }
    }
}

/// The needles are in ascending order, none twice, and no needle is lost.
pub proof fn needles_are_sorted(list: Seq<Seq<u8>>)
    ensures
        is_ascending(sorted_needles(list)),
        sorted_needles(list).no_duplicates(),
        forall|x: Seq<u8>| #[trigger] sorted_needles(list).contains(x) <==> list.contains(x),
    decreases list.len(),
{
    let sorted = sorted_needles(list);
    if list.len() > 0 {
        let rest = list.drop_last();
        needles_are_sorted(rest);
        inserting_keeps_order(sorted_needles(rest), list.last());
        assert forall|x: Seq<u8>| #[trigger] sorted.contains(x) <==> list.contains(x) by {
            inserted_members(sorted_needles(rest), list.last(), x);
            vstd::seq_lib::lemma_seq_contains_after_push(rest, list.last(), x);
            assert(rest.push(list.last()) =~= list);
        }
    }
    assert forall|i: int, j: int| 0 <= i < sorted.len() && 0 <= j < sorted.len() && i != j implies sorted[i]
        != sorted[j] by {
        precedes_is_strict(sorted[i]);
        if i < j {
            assert(precedes(sorted[i], sorted[j]));
        } else {
            assert(precedes(sorted[j], sorted[i]));
        }
    }
}

/// Where a literal stands, one of the needles for all literals stands.
proof fn a_needle_stands_for_each(
    literals: Seq<LiteralView>,
    budget: nat,
    m: int,
    hay: Seq<u8>,
    p: int,
    q: int,
)
    requires
        needles_of(literals, budget) is Some,
        0 <= m < literals.len(),
        semantics::literal_at(literals[m].0, literals[m].1, hay, p, q),
    ensures
        exists|x: Seq<u8>|
            needles_of(literals, budget)->Some_0.contains(x) && #[trigger] text::stands_at(x, hay, p),
    decreases literals.len(),
{
    let a = needles_of(literals.drop_last(), budget)->Some_0;
    let b = literal_needles(literals.last(), budget)->Some_0;
    let all = a + b;
    if m < literals.len() - 1 {
        assert(literals.drop_last()[m] == literals[m]);
        a_needle_stands_for_each(literals.drop_last(), budget, m, hay, p, q);
        let x = choose|x: Seq<u8>| a.contains(x) && #[trigger] text::stands_at(x, hay, p);
        let k = choose|k: int| 0 <= k < a.len() && a[k] == x;
        assert(all[k] == x);
    } else {
        let (val, casei) = literals[m];
        let k = if casei {
            needles::a_needle_stands(val, budget, hay, p, q);
            choose|k: int| 0 <= k < b.len() && text::stands_at(#[trigger] b[k], hay, p)
        } else {
            let t = choose|t: Seq<char>|
                #[trigger] semantics::spells(val, casei, t) && vstd::utf8::encode_utf8(t)
                    == hay.subrange(p, q);
            assert(t =~= val);
            assert(text::stands_at(b[0], hay, p));
            0int
        };
        assert(all[a.len() + k] == b[k]);
        assert(all.contains(b[k]));
    }
}

/// A pattern that matches is let through: where `expr` matches at `start` or later, one of its
/// needles stands there, so that the prefilter says that a match is possible.
pub proof fn a_match_is_let_through(
    expr: Expr,
    ctx: HirCtx,
    hay: Seq<u8>,
    start: int,
    i: int,
    j: int,
)
    requires
        semantics::can_match(expr, ctx, hay, i, j),
        start <= i,
        expr_needles(expr) matches Some(list) && is_searchable(list),
    ensures
        start < hay.len(),
        a_needle_stands_within(expr_needles(expr)->Some_0, hay, start, hay.len() as int),
{
    let set = required::required(expr)->Some_0;
    let kept = cover::reduced(set);
    let budget = needle_budget(kept.len());
    let list = needles_of(kept, budget)->Some_0;
    let sorted = sorted_needles(list);
    required::a_required_literal_occurs(expr, ctx, hay, i, j);
    cover::a_kept_literal_occurs(set, hay, i);
    let m = choose|m: int|
        0 <= m < kept.len() && required::occurs_from(#[trigger] kept[m], hay, i);
    let (p, q) = choose|p: int, q: int|
        i <= p && #[trigger] semantics::literal_at(kept[m].0, kept[m].1, hay, p, q);
    a_needle_stands_for_each(kept, budget, m, hay, p, q);
    let x = choose|x: Seq<u8>| list.contains(x) && #[trigger] text::stands_at(x, hay, p);
    needles_are_sorted(list);
    assert(sorted.contains(x));
    let k = choose|k: int| 0 <= k < sorted.len() && sorted[k] == x;
    assert(text::stands_at(sorted[k], hay, p));
    assert(sorted[k].len() > 0);
}

proof fn needle_count(literals: Seq<LiteralView>, budget: nat)
    requires
        needles_of(literals, budget) is Some,
        budget >= 1,
    ensures
        needles_of(literals, budget)->Some_0.len() <= literals.len() * budget,
    decreases literals.len(),
{
    let n = literals.len();
    if n > 0 {
        needle_count(literals.drop_last(), budget);
        if literals.last().1 {
            needles::needles_stay_within_budget(literals.last().0, budget);
        }
        assert(n * budget == (n - 1) * budget + budget) by (nonlinear_arith);
    } else {
        assert(n * budget == 0) by (nonlinear_arith)
            requires
                n == 0,
        ;
    }
}

proof fn sorting_adds_nothing(list: Seq<Seq<u8>>)
    ensures
        sorted_needles(list).len() <= list.len(),
    decreases list.len(),
{
    if list.len() > 0 {
        sorting_adds_nothing(list.drop_last());
        inserting_adds_one(sorted_needles(list.drop_last()), list.last());
    }
}

proof fn inserting_adds_one(sorted: Seq<Seq<u8>>, needle: Seq<u8>)
    ensures
        inserted(sorted, needle).len() <= sorted.len() + 1,
    decreases sorted.len(),
{
    if sorted.len() > 0 && precedes(sorted[0], needle) {
        inserting_adds_one(sorted.drop_first(), needle);
    }
}

/// Where there are no more literals than `MAX_NEEDLES`, sharing the budget keeps their needles within
/// that bound: only more literals than that can make too many needles.
pub proof fn shares_keep_within_the_bound(literals: Seq<LiteralView>)
    requires
        0 < literals.len() <= MAX_NEEDLES,
        needles_of(literals, needle_budget(literals.len())) is Some,
    ensures
        sorted_needles(needles_of(literals, needle_budget(literals.len()))->Some_0).len()
            <= MAX_NEEDLES,
{
    let n = literals.len();
    let budget = needle_budget(n);
    needle_count(literals, budget);
    sorting_adds_nothing(needles_of(literals, budget)->Some_0);
    assert(64nat / n >= 1 && n * (64nat / n) <= 64) by (nonlinear_arith)
        requires
            0 < n <= 64,
    ;
}

/// The needles stay within `MAX_NEEDLES`.
pub proof fn needles_stay_within_the_bound(expr: Expr)
    requires
        expr_needles(expr) is Some,
    ensures
        expr_needles(expr)->Some_0.len() <= MAX_NEEDLES,
{
}

/// A pattern without required literals has no needles.
pub proof fn nothing_required_needs_nothing(expr: Expr)
    requires
        required::required(expr) is None || required::required(expr)->Some_0.len() == 0,
    ensures
        expr_needles(expr) is None,
{
}

/// Whether `share` is how many needles each of `n` literals may have: as many as leave all of them
/// within 64, and one where that is too many.
pub open spec fn is_share(n: nat, share: nat) -> bool {
    &&& share >= 1
    &&& n <= 64 ==> n * share <= 64 && n * (share + 1) > 64
    &&& n > 64 ==> share == 1
}

/// The literals share the bound on the needles.
pub proof fn the_bound_is_shared(n: nat)
    requires
        n > 0,
    ensures
        is_share(n, needle_budget(n)),
{
    let q = 64nat / n;
    if n <= 64 {
        assert(q >= 1 && n * q <= 64 && n * (q + 1) > 64) by (nonlinear_arith)
            requires
                0 < n <= 64,
                q == 64nat / n,
        ;
    } else {
        assert(q == 0) by (nonlinear_arith)
            requires
                n > 64,
                q == 64nat / n,
        ;
    }
}

/// Whether `bytes` is looked for on account of `literal`: its encoding, or, where it matches in any
/// case, the encoding of what its first `n` characters match.
pub open spec fn stands_for(literal: LiteralView, n: int, bytes: Seq<u8>) -> bool {
    if literal.1 {
        semantics::encodes_literal(literal.0.take(n), true, bytes)
    } else {
        bytes == vstd::utf8::encode_utf8(literal.0)
    }
}

/// Whether the case-insensitive of `literals` are cut to their longest prefixes within `share`.
pub open spec fn are_cut(literals: Seq<LiteralView>, share: nat, lens: Seq<int>) -> bool {
    &&& lens.len() == literals.len()
    &&& forall|m: int|
        0 <= m < literals.len() && literals[m].1 ==> needles::is_longest(
            literals[m].0,
            share,
            #[trigger] lens[m],
        )
}

/// Whether `bytes` is looked for on account of one of `literals`.
pub open spec fn one_stands_for(
    literals: Seq<LiteralView>,
    lens: Seq<int>,
    bytes: Seq<u8>,
) -> bool {
    exists|m: int| 0 <= m < literals.len() && stands_for(literals[m], #[trigger] lens[m], bytes)
}

/// The needles of several literals are those that stand for one of them.
proof fn needles_stand_for_literals(literals: Seq<LiteralView>, share: nat) -> (lens: Seq<int>)
    requires
        needles_of(literals, share) is Some,
    ensures
        are_cut(literals, share, lens),
        forall|x: Seq<u8>| #[trigger]
            needles_of(literals, share)->Some_0.contains(x) <==> one_stands_for(literals, lens, x),
    decreases literals.len(),
{
    if literals.len() == 0 {
        Seq::empty()
    } else {
        let rest = literals.drop_last();
        let last = literals.last();
        let at = literals.len() - 1;
        let before = needles_stand_for_literals(rest, share);
        let a = needles_of(rest, share)->Some_0;
        let b = literal_needles(last, share)->Some_0;
        let n: int = if last.1 {
            needles::needles_spell_out_a_prefix(last.0, share);
            choose|n: int| #[trigger]
                needles::is_longest(last.0, share, n) && forall|bytes: Seq<u8>| #[trigger]
                    needles::needle_list(last.0, share)->Some_0.contains(bytes)
                        <==> semantics::encodes_literal(last.0.take(n), true, bytes)
        } else {
            0
        };
        let lens = before.push(n);
        assert forall|x: Seq<u8>| b.contains(x) <==> #[trigger] stands_for(last, n, x) by {
            if !last.1 {
                assert(b[0] == vstd::utf8::encode_utf8(last.0));
            }
        }
        assert forall|m: int| 0 <= m < literals.len() && literals[m].1 implies needles::is_longest(
            literals[m].0,
            share,
            #[trigger] lens[m],
        ) by {
            if m < at {
                assert(rest[m] == literals[m] && before[m] == lens[m]);
            }
        }
        assert forall|x: Seq<u8>| #[trigger]
            needles_of(literals, share)->Some_0.contains(x) <==> one_stands_for(literals, lens, x) by {
            let all = a + b;
            if all.contains(x) {
                let k = choose|k: int| 0 <= k < all.len() && all[k] == x;
                if k < a.len() {
                    assert(a.contains(a[k]));
                    let m = choose|m: int|
                        0 <= m < rest.len() && stands_for(rest[m], #[trigger] before[m], x);
                    assert(stands_for(literals[m], lens[m], x));
                } else {
                    assert(b.contains(b[k - a.len()]));
                    assert(stands_for(literals[at], lens[at], x));
                }
            }
            if one_stands_for(literals, lens, x) {
                let m = choose|m: int|
                    0 <= m < literals.len() && stands_for(literals[m], #[trigger] lens[m], x);
                if m < at {
                    assert(stands_for(rest[m], before[m], x));
                    assert(a.contains(x));
                    let k = choose|k: int| 0 <= k < a.len() && a[k] == x;
                    assert(all[k] == x);
                } else {
                    assert(stands_for(last, n, x));
                    let k = choose|k: int| 0 <= k < b.len() && b[k] == x;
                    assert(all[a.len() + k] == x);
                }
            }
        }
        lens
    }
}

/// What is looked for: of each literal that is kept its whole encoding, or, where it matches in any
/// case, every spelling of its longest prefix within its share of the bound. Nothing else is looked
/// for, and nothing twice.
pub proof fn what_is_looked_for(expr: Expr) -> (found: (nat, Seq<int>))
    requires
        expr_needles(expr) is Some,
    ensures
        required::required(expr) is Some,
        is_share(cover::reduced(required::required(expr)->Some_0).len(), found.0),
        are_cut(cover::reduced(required::required(expr)->Some_0), found.0, found.1),
        expr_needles(expr)->Some_0.no_duplicates(),
        expr_needles(expr)->Some_0.len() <= 64,
        forall|x: Seq<u8>| #[trigger]
            expr_needles(expr)->Some_0.contains(x) <==> one_stands_for(
                cover::reduced(required::required(expr)->Some_0),
                found.1,
                x,
            ),
{
    let set = required::required(expr)->Some_0;
    let kept = cover::reduced(set);
    cover::kept_literals_were_there(set);
    the_bound_is_shared(kept.len());
    let share = needle_budget(kept.len());
    let lens = needles_stand_for_literals(kept, share);
    let all = needles_of(kept, share)->Some_0;
    needles_are_sorted(all);
    assert forall|x: Seq<u8>| #[trigger]
        expr_needles(expr)->Some_0.contains(x) <==> one_stands_for(kept, lens, x) by {
        assert(sorted_needles(all).contains(x) <==> all.contains(x));
    }
    (share, lens)
}

/// Whether what is looked for on account of `literal` stands in `hay` at `start` or later.
pub open spec fn is_found_from(literal: LiteralView, n: int, hay: Seq<u8>, start: int) -> bool {
    if literal.1 {
        required::occurs_from((literal.0.take(n), true), hay, start)
    } else {
        required::occurs_from(literal, hay, start)
    }
}

/// What lets a haystack through: exactly that one of the literals that are kept stands at `start` or
/// later, or the prefix of one that matches in any case.
pub proof fn what_lets_a_haystack_through(expr: Expr, hay: Seq<u8>, start: int) -> (found: (
    nat,
    Seq<int>,
))
    requires
        expr_needles(expr) is Some,
        0 <= start,
    ensures
        ({
            let (share, lens) = found;
            let kept = cover::reduced(required::required(expr)->Some_0);
            &&& is_share(kept.len(), share)
            &&& are_cut(kept, share, lens)
            &&& a_needle_stands_within(
                expr_needles(expr)->Some_0,
                hay,
                start,
                hay.len() as int,
            ) <==> exists|m: int|
                0 <= m < kept.len() && is_found_from(kept[m], #[trigger] lens[m], hay, start)
        }),
{
    let (share, lens) = what_is_looked_for(expr);
    let kept = cover::reduced(required::required(expr)->Some_0);
    let list = expr_needles(expr)->Some_0;
    if a_needle_stands_within(list, hay, start, hay.len() as int) {
        let (k, p) = choose|k: int, p: int|
            0 <= k < list.len() && start <= p && p + list[k].len() <= hay.len()
                && #[trigger] text::stands_at(list[k], hay, p);
        let x = list[k];
        assert(list.contains(x));
        let m = choose|m: int| 0 <= m < kept.len() && stands_for(kept[m], #[trigger] lens[m], x);
        let (val, casei) = kept[m];
        let cut = if casei {
            val.take(lens[m])
        } else {
            val
        };
        if !casei {
            assert(semantics::spells(val, false, val));
        }
        assert(semantics::encodes_literal(cut, casei, x));
        assert(hay.subrange(p, p + x.len()) == x);
        let q = p + x.len();
        let literal = (cut, casei);
        assert(semantics::literal_at(literal.0, literal.1, hay, p, q));
        assert(required::occurs_from(literal, hay, start));
        assert(is_found_from(kept[m], lens[m], hay, start));
    }
    if exists|m: int| 0 <= m < kept.len() && is_found_from(kept[m], #[trigger] lens[m], hay, start) {
        let m = choose|m: int|
            0 <= m < kept.len() && is_found_from(kept[m], #[trigger] lens[m], hay, start);
        let (val, casei) = kept[m];
        let cut = if casei {
            val.take(lens[m])
        } else {
            val
        };
        let (p, q) = choose|p: int, q: int|
            start <= p && #[trigger] semantics::literal_at(cut, casei, hay, p, q);
        let x = hay.subrange(p, q);
        if !casei {
            let t = choose|t: Seq<char>|
                #[trigger] semantics::spells(cut, casei, t) && vstd::utf8::encode_utf8(t) == x;
            assert(t =~= val);
        }
        assert(stands_for(kept[m], lens[m], x));
        assert(list.contains(x));
        let k = choose|k: int| 0 <= k < list.len() && list[k] == x;
        assert(x.len() == q - p);
        assert(text::stands_at(list[k], hay, p));
    }
    (share, lens)
}

/// Of a pattern whose required literals do not match in any case, a haystack is let through exactly
/// where one of them stands at `start` or later.
pub proof fn case_sensitive_literals_are_looked_for_whole(expr: Expr, hay: Seq<u8>, start: int)
    requires
        expr_needles(expr) is Some,
        0 <= start,
        forall|k: int|
            0 <= k < required::required(expr)->Some_0.len() ==> !(
            #[trigger] required::required(expr)->Some_0[k]).1,
    ensures
        a_needle_stands_within(expr_needles(expr)->Some_0, hay, start, hay.len() as int)
            <==> required::some_occurs_from(required::required(expr)->Some_0, hay, start),
{
    let set = required::required(expr)->Some_0;
    let kept = cover::reduced(set);
    let (share, lens) = what_lets_a_haystack_through(expr, hay, start);
    cover::kept_literals_were_there(set);
    assert forall|m: int| 0 <= m < kept.len() implies !(#[trigger] kept[m]).1 && set.contains(
        kept[m],
    ) by {
        assert(kept.contains(kept[m]));
        let k = choose|k: int| 0 <= k < set.len() && set[k] == kept[m];
        assert(!set[k].1);
    }
    if exists|m: int| 0 <= m < kept.len() && is_found_from(kept[m], #[trigger] lens[m], hay, start) {
        let m = choose|m: int|
            0 <= m < kept.len() && is_found_from(kept[m], #[trigger] lens[m], hay, start);
        assert(!kept[m].1);
        let k = choose|k: int| 0 <= k < set.len() && set[k] == kept[m];
        assert(required::occurs_from(set[k], hay, start));
    }
    if required::some_occurs_from(set, hay, start) {
        cover::a_kept_literal_occurs(set, hay, start);
        let m = choose|m: int|
            0 <= m < kept.len() && required::occurs_from(#[trigger] kept[m], hay, start);
        assert(!kept[m].1);
        assert(is_found_from(kept[m], lens[m], hay, start));
    }
}

/// When nothing is looked for: where nothing is required, where a literal that is kept matches in any
/// case and has no needles within its share, or where more than 64 literals are kept.
pub proof fn when_nothing_is_looked_for(expr: Expr) -> (share: nat)
    requires
        expr_needles(expr) is None,
    ensures
        ({
            ||| required::required(expr) is None
            ||| required::required(expr)->Some_0.len() == 0
            ||| ({
                let kept = cover::reduced(required::required(expr)->Some_0);
                &&& is_share(kept.len(), share)
                &&& kept.len() > 64 || exists|m: int|
                    0 <= m < kept.len() && (#[trigger] kept[m]).1 && needles::needle_list(
                        kept[m].0,
                        share,
                    ) is None
            })
        }),
{
    let set = required::required(expr)->Some_0;
    let kept = cover::reduced(set);
    let share = needle_budget(kept.len());
    if required::required(expr) is Some && set.len() > 0 {
        cover::kept_literals_were_there(set);
        the_bound_is_shared(kept.len());
        if needles_of(kept, share) is None {
            one_is_not_searchable(kept, share);
        } else if kept.len() <= 64 {
            shares_keep_within_the_bound(kept);
        }
    }
    share
}

proof fn one_is_not_searchable(literals: Seq<LiteralView>, budget: nat)
    requires
        needles_of(literals, budget) is None,
    ensures
        exists|m: int|
            0 <= m < literals.len() && (#[trigger] literals[m]).1 && needles::needle_list(
                literals[m].0,
                budget,
            ) is None,
    decreases literals.len(),
{
    let rest = literals.drop_last();
    let last = literals.len() - 1;
    assert(literals[last] == literals.last());
    if needles_of(rest, budget) is None {
        one_is_not_searchable(rest, budget);
        let m = choose|m: int|
            0 <= m < rest.len() && (#[trigger] rest[m]).1 && needles::needle_list(
                rest[m].0,
                budget,
            ) is None;
        assert(literals[m] == rest[m]);
    } else {
        assert(literals[last].1);
    }
}

/// Whether the encoding of `text` stands in `hay` at `start` or later.
pub open spec fn text_stands_from(text: Seq<char>, hay: Seq<u8>, start: int) -> bool {
    exists|p: int|
        start <= p && p + vstd::utf8::encode_utf8(text).len() <= hay.len() && #[trigger] hay.subrange(
            p,
            p + vstd::utf8::encode_utf8(text).len(),
        ) == vstd::utf8::encode_utf8(text)
}

/// Of a pattern whose required literals do not match in any case, the prefilter says that a match is
/// possible exactly where one of those literals stands at `start` or later, whole.
pub proof fn may_match_finds_the_literals(
    expr: Expr,
    literals: Vec<RequiredLiteral>,
    filter: LiteralPrefilter,
    haystack: &[u8],
    start: usize,
    possible: bool,
)
    requires
        call_ensures(required::required_literals, (&expr,), Some(literals)),
        forall|k: int| 0 <= k < literals@.len() ==> !(#[trigger] literals@[k]).1,
        call_ensures(LiteralPrefilter::from_expr, (&expr,), Some(filter)),
        call_ensures(LiteralPrefilter::may_match, (&filter, haystack, start), possible),
    ensures
        possible <==> exists|k: int|
            0 <= k < literals@.len() && text_stands_from(
                (#[trigger] literals@[k]).0@,
                haystack@,
                start as int,
            ),
{
    let hay = haystack@;
    let set = required::required(expr)->Some_0;
    let list = filter.needles();
    assert(set == required::literals_view(literals@));
    assert forall|k: int| 0 <= k < set.len() implies !(#[trigger] set[k]).1 by {
        assert(!literals@[k].1);
    }
    case_sensitive_literals_are_looked_for_whole(expr, hay, start as int);
    if a_needle_stands_within(list, hay, start as int, hay.len() as int) {
        let (k, p) = choose|k: int, p: int|
            0 <= k < list.len() && start <= p && p + list[k].len() <= hay.len()
                && #[trigger] text::stands_at(list[k], hay, p);
        assert(list[k].len() > 0);
    }
    if required::some_occurs_from(set, hay, start as int) {
        let k = choose|k: int|
            0 <= k < set.len() && required::occurs_from(#[trigger] set[k], hay, start as int);
        let (p, q) = choose|p: int, q: int|
            start <= p && #[trigger] semantics::literal_at(set[k].0, set[k].1, hay, p, q);
        let val = set[k].0;
        let x = hay.subrange(p, q);
        let t = choose|t: Seq<char>|
            #[trigger] semantics::spells(val, false, t) && vstd::utf8::encode_utf8(t) == x;
        assert(t =~= val);
        assert(literals@[k].0@ == val);
        assert(x.len() == q - p);
        assert(hay.subrange(p, p + x.len()) == x);
        assert(text_stands_from(literals@[k].0@, hay, start as int));
    }
    if exists|k: int|
        0 <= k < literals@.len() && text_stands_from(
            (#[trigger] literals@[k]).0@,
            hay,
            start as int,
        ) {
        let k = choose|k: int|
            0 <= k < literals@.len() && text_stands_from(
                (#[trigger] literals@[k]).0@,
                hay,
                start as int,
            );
        let val = literals@[k].0@;
        let x = vstd::utf8::encode_utf8(val);
        let p = choose|p: int|
            start <= p && p + x.len() <= hay.len() && #[trigger] hay.subrange(p, p + x.len()) == x;
        let q = p + x.len();
        assert(set[k] == (val, false));
        assert(semantics::spells(val, false, val));
        assert(semantics::encodes_literal(val, false, hay.subrange(p, q)));
        assert(semantics::literal_at(set[k].0, set[k].1, hay, p, q));
        assert(required::occurs_from(set[k], hay, start as int));
    }
}

/// The order of dictionaries: at the first byte in which two texts differ the smaller one decides,
/// and what ends first comes first.
pub proof fn the_first_difference_decides(a: Seq<u8>, b: Seq<u8>)
    ensures
        precedes(a, b) <==> exists|n: int|
            0 <= n <= a.len() && n < b.len() && (#[trigger] a.take(n)) == b.take(n) && (n == a.len()
                || a[n] < b[n]),
    decreases a.len(),
{
    if a.len() == 0 || b.len() == 0 || a[0] != b[0] {
        if precedes(a, b) {
            assert(a.take(0) =~= b.take(0));
        }
        if exists|n: int|
            0 <= n <= a.len() && n < b.len() && (#[trigger] a.take(n)) == b.take(n) && (n == a.len()
                || a[n] < b[n]) {
            let n = choose|n: int|
                0 <= n <= a.len() && n < b.len() && (#[trigger] a.take(n)) == b.take(n) && (n
                    == a.len() || a[n] < b[n]);
            if n > 0 {
                assert(a.take(n)[0] == b.take(n)[0]);
            }
        }
    } else {
        let c = a.drop_first();
        let d = b.drop_first();
        the_first_difference_decides(c, d);
        if precedes(a, b) {
            let n = choose|n: int|
                0 <= n <= c.len() && n < d.len() && (#[trigger] c.take(n)) == d.take(n) && (n
                    == c.len() || c[n] < d[n]);
            assert forall|i: int| 0 <= i < n + 1 implies #[trigger] a.take(n + 1)[i] == b.take(
                n + 1,
            )[i] by {
                if i > 0 {
                    assert(c.take(n)[i - 1] == d.take(n)[i - 1]);
                }
            }
            assert(a.take(n + 1) =~= b.take(n + 1));
        }
        if exists|n: int|
            0 <= n <= a.len() && n < b.len() && (#[trigger] a.take(n)) == b.take(n) && (n == a.len()
                || a[n] < b[n]) {
            let n = choose|n: int|
                0 <= n <= a.len() && n < b.len() && (#[trigger] a.take(n)) == b.take(n) && (n
                    == a.len() || a[n] < b[n]);
            assert(n > 0);
            assert forall|i: int| 0 <= i < n - 1 implies #[trigger] c.take(n - 1)[i] == d.take(
                n - 1,
            )[i] by {
                assert(a.take(n)[i + 1] == b.take(n)[i + 1]);
            }
            assert(c.take(n - 1) =~= d.take(n - 1));
        }
    }
}

/// What the prefilter says of a haystack: that a match is possible exactly where one of the literals
/// that are kept stands at `start` or later, or the prefix of one that matches in any case.
pub proof fn may_match_finds_what_is_looked_for(
    expr: Expr,
    filter: LiteralPrefilter,
    haystack: &[u8],
    start: usize,
    possible: bool,
) -> (found: (nat, Seq<int>))
    requires
        call_ensures(LiteralPrefilter::from_expr, (&expr,), Some(filter)),
        call_ensures(LiteralPrefilter::may_match, (&filter, haystack, start), possible),
    ensures
        ({
            let (share, lens) = found;
            let kept = cover::reduced(required::required(expr)->Some_0);
            &&& required::required(expr) is Some
            &&& is_share(kept.len(), share)
            &&& are_cut(kept, share, lens)
            &&& possible <==> exists|m: int|
                0 <= m < kept.len() && is_found_from(
                    kept[m],
                    #[trigger] lens[m],
                    haystack@,
                    start as int,
                )
        }),
{
    let hay = haystack@;
    let list = filter.needles();
    if a_needle_stands_within(list, hay, start as int, hay.len() as int) {
        let (k, p) = choose|k: int, p: int|
            0 <= k < list.len() && start <= p && p + list[k].len() <= hay.len()
                && #[trigger] text::stands_at(list[k], hay, p);
        assert(list[k].len() > 0);
    }
    what_lets_a_haystack_through(expr, hay, start as int)
}

} // verus!
