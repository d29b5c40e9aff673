//! The start bytes are exact: of expressions that look at nothing but the text that they match, each
//! start byte starts some match, and a match can be empty where the start says so.

use vstd::prelude::*;

use crate::expr::{Expr, LookAround};
use crate::fold;
use crate::lazy::byte_set::ByteSet;
use crate::lazy::start::{self, StartSet};
use crate::options::{BytesMode, RegexOptions};
use crate::semantics;
use crate::text;
use crate::tree::{self, HirCtx, HirTree};

verus! {

/// The bytes that a start speaks of.
pub open spec fn bytes_of(start: StartSet) -> Set<u8> {
    match start {
        StartSet::Definite(set) => set,
        StartSet::MaybeEmpty(set) => set,
        StartSet::Bail => Set::empty(),
    }
}

/// Whether `w` starts with `b`.
pub open spec fn starts_with(w: Seq<u8>, b: u8) -> bool {
    w.len() > 0 && w[0] == b
}

/// Whether a syntax tree has a match in each of its parts, and no class that its start takes to hold
/// more than it does: none beyond ASCII.
pub open spec fn hir_is_plain(hir: HirTree) -> bool
    decreases hir,
{
    match hir {
        HirTree::Unicode(ranges) => ranges.len() > 0 && forall|k: int|
            0 <= k < ranges.len() ==> (#[trigger] ranges[k]).0 <= ranges[k].1 <= '\u{7f}',
        HirTree::Bytes(ranges) => ranges.len() > 0 && forall|k: int|
            0 <= k < ranges.len() ==> (#[trigger] ranges[k]).0 <= ranges[k].1,
        HirTree::Capture(sub) => hir_is_plain(*sub),
        HirTree::Repetition(_, sub) => hir_is_plain(*sub),
        HirTree::Concat(subs) => forall|k: int|
            0 <= k < subs.len() ==> hir_is_plain(#[trigger] subs[k]),
        HirTree::Alternation(subs) => subs.len() > 0 && forall|k: int|
            0 <= k < subs.len() ==> hir_is_plain(#[trigger] subs[k]),
        _ => true,
    }
}

/// Whether an expression is made of literals, assertions, delegated pieces, groups, repetitions, rows
/// and alternatives that can match. A case-insensitive literal has to have its case folding data.
pub open spec fn is_plain(expr: Expr, ctx: HirCtx) -> bool
    decreases expr,
{
    match expr {
        Expr::Empty => true,
        Expr::Assertion(_) => true,
        Expr::KeepOut => true,
        Expr::ContinueFromPreviousMatchEnd => true,
        Expr::Literal { val, casei } => casei ==> forall|k: int|
            0 <= k < val@.len() ==> fold::fold_chars(#[trigger] val@[k]) is Some && fold::folds_to(
                val@[k],
                val@[k],
            ),
        Expr::Delegate { .. } => tree::delegate_tree(expr, ctx) matches Some(hir) && hir_is_plain(
            hir,
        ),
        Expr::Group(child) => is_plain(*child, ctx),
        Expr::AtomicGroup(child) => is_plain(*child, ctx),
        Expr::Repeat { child, lo, hi, .. } => lo <= hi && hi >= 1 && is_plain(*child, ctx),
        Expr::Concat(children) => forall|k: int|
            0 <= k < children@.len() ==> is_plain(#[trigger] children@[k], ctx),
        Expr::Alt(branches) => branches@.len() > 0 && forall|k: int|
            0 <= k < branches@.len() ==> is_plain(#[trigger] branches@[k], ctx),
        Expr::LookAround(_, LookAround::LookAhead) => false,
        Expr::LookAround(_, _) => true,
        _ => false,
    }
}

/// Equal texts have equal parts.
proof fn same_parts(hay: Seq<u8>, i: int, k: int, j: int, other: Seq<u8>, at: int)
    requires
        0 <= i <= k <= j <= hay.len(),
        0 <= at <= at + (j - i) <= other.len(),
        other.subrange(at, at + (j - i)) == hay.subrange(i, j),
    ensures
        other.subrange(at, at + (k - i)) == hay.subrange(i, k),
        other.subrange(at + (k - i), at + (j - i)) == hay.subrange(k, j),
{
    let a = other.subrange(at, at + (j - i));
    let b = hay.subrange(i, j);
    assert(other.subrange(at, at + (k - i)) =~= a.subrange(0, k - i));
    assert(hay.subrange(i, k) =~= b.subrange(0, k - i));
    assert(other.subrange(at + (k - i), at + (j - i)) =~= a.subrange(k - i, j - i));
    assert(hay.subrange(k, j) =~= b.subrange(k - i, j - i));
}

/// Moving the text moves the match: whether a syntax tree can match from one place to another depends on what
/// stands between.
proof fn hir_moves(hir: HirTree, hay: Seq<u8>, i: int, j: int, other: Seq<u8>, at: int)
    requires
        semantics::hir_can_match(hir, hay, i, j),
        0 <= at <= at + (j - i) <= other.len(),
        other.subrange(at, at + (j - i)) == hay.subrange(i, j),
    ensures
        semantics::hir_can_match(hir, other, at, at + (j - i)),
    decreases hir, 0nat,
{
    let end = at + (j - i);
    match hir {
        HirTree::Literal(_) => {
            assert(other.subrange(at, end) == hay.subrange(i, j));
        },
        HirTree::Unicode(_) => {},
        HirTree::Bytes(_) => {
            assert(other.subrange(at, end)[0] == hay.subrange(i, j)[0]);
        },
        HirTree::Capture(sub) => {
            hir_moves(*sub, hay, i, j, other, at);
        },
        HirTree::Repetition(min, sub) => {
            let n = choose|n: nat|
                #[trigger] semantics::is_count(min as int, n, usize::MAX as int)
                    && semantics::hir_repeats(*sub, n, hay, i, j);
            hir_repeats_move(*sub, n, hay, i, j, other, at);
        },
        HirTree::Concat(subs) => {
            hir_rows_move(subs, hay, i, j, other, at);
        },
        HirTree::Alternation(subs) => {
            let k = choose|k: int|
                0 <= k < subs.len() && semantics::hir_can_match(#[trigger] subs[k], hay, i, j);
            hir_moves(subs[k], hay, i, j, other, at);
            assert(semantics::hir_can_match(subs[k], other, at, end));
        },
        _ => {},
    }
}

proof fn hir_repeats_move(
    hir: HirTree,
    n: nat,
    hay: Seq<u8>,
    i: int,
    j: int,
    other: Seq<u8>,
    at: int,
)
    requires
        semantics::hir_repeats(hir, n, hay, i, j),
        0 <= i <= j <= hay.len(),
        0 <= at <= at + (j - i) <= other.len(),
        other.subrange(at, at + (j - i)) == hay.subrange(i, j),
    ensures
        semantics::hir_repeats(hir, n, other, at, at + (j - i)),
    decreases hir, n + 1,
{
    if n > 0 {
        let k = choose|k: int|
            #[trigger] semantics::between(i, k, j) && semantics::hir_can_match(hir, hay, i, k)
                && semantics::hir_repeats(hir, (n - 1) as nat, hay, k, j);
        same_parts(hay, i, k, j, other, at);
        hir_moves(hir, hay, i, k, other, at);
        hir_repeats_move(hir, (n - 1) as nat, hay, k, j, other, at + (k - i));
        assert(semantics::between(at, at + (k - i), at + (j - i)));
    }
}

proof fn hir_rows_move(
    row: Seq<HirTree>,
    hay: Seq<u8>,
    i: int,
    j: int,
    other: Seq<u8>,
    at: int,
)
    requires
        semantics::hir_concat_can_match(row, hay, i, j),
        0 <= i <= j <= hay.len(),
        0 <= at <= at + (j - i) <= other.len(),
        other.subrange(at, at + (j - i)) == hay.subrange(i, j),
    ensures
        semantics::hir_concat_can_match(row, other, at, at + (j - i)),
    decreases row, 0nat,
{
    if row.len() > 0 {
        let rest = row.drop_first();
        let k = choose|k: int|
            #[trigger] semantics::between(i, k, j) && semantics::hir_can_match(row[0], hay, i, k)
                && semantics::hir_concat_can_match(rest, hay, k, j);
        same_parts(hay, i, k, j, other, at);
        hir_moves(row[0], hay, i, k, other, at);
        assert(forall|m: int| 0 <= m < rest.len() ==> #[trigger] rest[m] == row[m + 1]);
        hir_rows_move(rest, hay, k, j, other, at + (k - i));
        assert(semantics::between(at, at + (k - i), at + (j - i)));
    }
}

/// Whether a syntax tree can match all of `w`.
pub open spec fn hir_matches(hir: HirTree, w: Seq<u8>) -> bool {
    semantics::hir_can_match(hir, w, 0, w.len() as int)
}

/// A match of the first of a row and one of the rest make one of the row.
proof fn hir_row_joins(row: Seq<HirTree>, a: Seq<u8>, b: Seq<u8>)
    requires
        row.len() > 0,
        hir_matches(row[0], a),
        semantics::hir_concat_can_match(row.drop_first(), b, 0, b.len() as int),
    ensures
        semantics::hir_concat_can_match(row, a + b, 0, (a + b).len() as int),
{
    let w = a + b;
    let k = a.len() as int;
    let rest = row.drop_first();
    assert(w.subrange(0, k) =~= a.subrange(0, k));
    assert(w.subrange(k, w.len() as int) =~= b.subrange(0, b.len() as int));
    hir_moves(row[0], a, 0, k, w, 0);
    assert(forall|m: int| 0 <= m < rest.len() ==> #[trigger] rest[m] == row[m + 1]);
    hir_rows_move(rest, b, 0, b.len() as int, w, k);
    assert(semantics::between(0, k, w.len() as int));
}

/// A match and `n` more make `n + 1`.
proof fn hir_repeats_join(hir: HirTree, n: nat, a: Seq<u8>, b: Seq<u8>)
    requires
        hir_matches(hir, a),
        semantics::hir_repeats(hir, n, b, 0, b.len() as int),
    ensures
        semantics::hir_repeats(hir, n + 1, a + b, 0, (a + b).len() as int),
{
    let w = a + b;
    let k = a.len() as int;
    assert(w.subrange(0, k) =~= a.subrange(0, k));
    assert(w.subrange(k, w.len() as int) =~= b.subrange(0, b.len() as int));
    hir_moves(hir, a, 0, k, w, 0);
    hir_repeats_move(hir, n, b, 0, b.len() as int, w, k);
    assert(semantics::between(0, k, w.len() as int));
    assert((n + 1 - 1) as nat == n);
}

/// What matches once matches as often as it may.
proof fn hir_repeats_any(hir: HirTree, n: nat, a: Seq<u8>) -> (w: Seq<u8>)
    requires
        hir_matches(hir, a),
    ensures
        semantics::hir_repeats(hir, n, w, 0, w.len() as int),
        a.len() == 0 ==> w.len() == 0,
    decreases n,
{
    if n == 0 {
        Seq::empty()
    } else {
        let b = hir_repeats_any(hir, (n - 1) as nat, a);
        hir_repeats_join(hir, (n - 1) as nat, a, b);
        a + b
    }
}

/// The start of a syntax tree says no more than its matches bear out: it matches the empty text where its
/// start allows that, and something that starts with `b` where `b` is a start byte.
proof fn hir_start_is_tight(hir: HirTree, b: u8)
    requires
        hir_is_plain(hir),
    ensures
        !(start::hir_start(hir) is Bail),
        exists|w: Seq<u8>| #[trigger] hir_matches(hir, w),
        start::hir_start(hir) is MaybeEmpty ==> hir_matches(hir, Seq::empty()),
        bytes_of(start::hir_start(hir)).contains(b) ==> exists|w: Seq<u8>|
            #[trigger] hir_matches(hir, w) && starts_with(w, b),
    decreases hir, 0nat,
{
    let none = Seq::<u8>::empty();
    match hir {
        HirTree::Literal(bytes) => {
            assert(bytes.subrange(0, bytes.len() as int) =~= bytes);
            assert(hir_matches(hir, bytes));
            if bytes.len() > 0 {
                assert(starts_with(bytes, bytes[0]));
            } else {
                assert(bytes =~= none);
            }
        },
        HirTree::Unicode(ranges) => {
            let c = ranges[0].0;
            class_matches(ranges, 0, c);
            text::first_byte_of_char(c);
            assert(start::char_range_leads(ranges[0], c as u8));
            assert(start::lead_bytes(ranges).contains(c as u8));
            if start::lead_bytes(ranges).contains(b) {
                let k = choose|k: int|
                    0 <= k < ranges.len() && start::char_range_leads(#[trigger] ranges[k], b);
                let d = b as char;
                text::first_byte_of_char(d);
                class_matches(ranges, k, d);
                assert(starts_with(text::char_bytes(d), b));
            }
        },
        HirTree::Bytes(ranges) => {
            let c = ranges[0].0;
            let w = seq![c];
            assert(semantics::in_byte_ranges(ranges, c));
            assert(hir_matches(hir, w));
            assert(start::bytes_of_ranges(ranges).contains(c));
            if start::bytes_of_ranges(ranges).contains(b) {
                let x = seq![b];
                assert(semantics::in_byte_ranges(ranges, x[0]));
                assert(hir_matches(hir, x));
                assert(starts_with(x, b));
            }
        },
        HirTree::Capture(sub) => {
            hir_start_is_tight(*sub, b);
            let any = choose|w: Seq<u8>| #[trigger] hir_matches(*sub, w);
            assert(hir_matches(hir, any));
            assert(hir_matches(*sub, none) ==> hir_matches(hir, none));
            if bytes_of(start::hir_start(*sub)).contains(b) {
                let w = choose|w: Seq<u8>| #[trigger] hir_matches(*sub, w) && starts_with(w, b);
                assert(hir_matches(hir, w));
            }
        },
        HirTree::Repetition(min, sub) => {
            hir_start_is_tight(*sub, b);
            let hi = if min >= 1 {
                min as int
            } else {
                1
            };
            assert forall|n: nat, w: Seq<u8>|
                min <= n <= hi && #[trigger] semantics::hir_repeats(
                    *sub,
                    n,
                    w,
                    0,
                    w.len() as int,
                ) implies hir_matches(hir, w) by {
                assert(semantics::is_count(min as int, n, usize::MAX as int));
            }
            hir_repetition_is_tight(hir, *sub, min as int, hi, b);
        },
        HirTree::Concat(subs) => {
            hir_row_is_tight(subs, b);
            let any = choose|w: Seq<u8>|
                #[trigger] semantics::hir_concat_can_match(subs, w, 0, w.len() as int);
            assert(hir_matches(hir, any));
            assert(start::hir_start(hir) is MaybeEmpty ==> hir_matches(hir, none));
            if bytes_of(start::hir_concat_start(subs)).contains(b) {
                let w = choose|w: Seq<u8>|
                    #[trigger] semantics::hir_concat_can_match(subs, w, 0, w.len() as int)
                        && starts_with(w, b);
                assert(hir_matches(hir, w));
            }
        },
        HirTree::Alternation(subs) => {
            assert(decreases_to!(hir => hir->Alternation_0));
            hir_choice_is_tight(subs, subs.len() as int, b);
            assert(subs.take(subs.len() as int) =~= subs);
            let (k, any) = choose|k: int, w: Seq<u8>|
                0 <= k < subs.len() && #[trigger] hir_matches(subs[k], w);
            choice_matches(subs, k, any);
            if start::hir_start(hir) is MaybeEmpty {
                let m = choose|m: int|
                    0 <= m < subs.len() && #[trigger] hir_matches(subs[m], none);
                choice_matches(subs, m, none);
            }
            if bytes_of(start::hir_start(hir)).contains(b) {
                let (m, w) = choose|m: int, w: Seq<u8>|
                    0 <= m < subs.len() && #[trigger] hir_matches(subs[m], w) && starts_with(w, b);
                choice_matches(subs, m, w);
            }
        },
        _ => {
            assert(hir_matches(hir, none));
        },
    }
}

proof fn hir_repetition_is_tight(
    hir: HirTree,
    sub: HirTree,
    lo: int,
    hi: int,
    b: u8,
)
    requires
        hir_is_plain(hir),
        0 <= lo <= hi,
        hi >= 1,
        forall|n: nat, w: Seq<u8>|
            lo <= n <= hi && #[trigger] semantics::hir_repeats(sub, n, w, 0, w.len() as int)
                ==> hir_matches(hir, w),
        !(start::hir_start(sub) is Bail),
        exists|w: Seq<u8>| #[trigger] hir_matches(sub, w),
        start::hir_start(sub) is MaybeEmpty ==> hir_matches(sub, Seq::empty()),
        bytes_of(start::hir_start(sub)).contains(b) ==> exists|w: Seq<u8>|
            #[trigger] hir_matches(sub, w) && starts_with(w, b),
    ensures
        exists|w: Seq<u8>| #[trigger] hir_matches(hir, w),
        lo == 0 || start::hir_start(sub) is MaybeEmpty ==> hir_matches(hir, Seq::empty()),
        bytes_of(start::hir_start(sub)).contains(b) ==> exists|w: Seq<u8>|
            #[trigger] hir_matches(hir, w) && starts_with(w, b),
{
    let none = Seq::<u8>::empty();
    let any = choose|w: Seq<u8>| #[trigger] hir_matches(sub, w);
    let many = hir_repeats_any(sub, lo as nat, any);
    assert(hir_matches(hir, many));
    if lo == 0 {
        assert(semantics::hir_repeats(sub, 0nat, none, 0, none.len() as int));
    } else if start::hir_start(sub) is MaybeEmpty {
        let w = hir_repeats_any(sub, lo as nat, none);
        assert(w =~= none);
    }
    if bytes_of(start::hir_start(sub)).contains(b) {
        let first = choose|w: Seq<u8>| #[trigger] hir_matches(sub, w) && starts_with(w, b);
        let n = if lo > 1 {
            (lo - 1) as nat
        } else {
            0nat
        };
        let more = hir_repeats_any(sub, n, any);
        hir_repeats_join(sub, n, first, more);
        assert(hir_matches(hir, first + more));
        assert(starts_with(first + more, b));
    }
}

proof fn hir_row_is_tight(row: Seq<HirTree>, b: u8)
    requires
        forall|k: int| 0 <= k < row.len() ==> hir_is_plain(#[trigger] row[k]),
    ensures
        !(start::hir_concat_start(row) is Bail),
        exists|w: Seq<u8>| #[trigger] semantics::hir_concat_can_match(row, w, 0, w.len() as int),
        start::hir_concat_start(row) is MaybeEmpty ==> semantics::hir_concat_can_match(row, Seq::empty(), 0, 0),
        bytes_of(start::hir_concat_start(row)).contains(b) ==> exists|w: Seq<u8>|
            #[trigger] semantics::hir_concat_can_match(row, w, 0, w.len() as int) && starts_with(w, b),
    decreases row, 0nat,
{
    let none = Seq::<u8>::empty();
    if row.len() == 0 {
        assert(semantics::hir_concat_can_match(row, none, 0, none.len() as int));
    } else {
        let first = row[0];
        let rest = row.drop_first();
        assert(forall|m: int| 0 <= m < rest.len() ==> #[trigger] rest[m] == row[m + 1]);
        hir_start_is_tight(first, b);
        hir_row_is_tight(rest, b);
        let a = choose|w: Seq<u8>| #[trigger] hir_matches(first, w);
        let z = choose|w: Seq<u8>|
            #[trigger] semantics::hir_concat_can_match(rest, w, 0, w.len() as int);
        hir_row_joins(row, a, z);
        if start::hir_start(first) is MaybeEmpty {
            assert(none + none =~= none);
            assert(none + z =~= z);
            if start::hir_concat_start(rest) is MaybeEmpty {
                hir_row_joins(row, none, none);
            }
        }
        if bytes_of(start::hir_concat_start(row)).contains(b) {
            if bytes_of(start::hir_start(first)).contains(b) {
                let x = choose|w: Seq<u8>|
                    #[trigger] hir_matches(first, w) && starts_with(w, b);
                hir_row_joins(row, x, z);
                assert(starts_with(x + z, b));
            } else {
                let y = choose|w: Seq<u8>|
                    #[trigger] semantics::hir_concat_can_match(rest, w, 0, w.len() as int)
                        && starts_with(w, b);
                hir_row_joins(row, none, y);
                assert(none + y =~= y);
            }
        }
    }
}

proof fn hir_choice_is_tight(all: Seq<HirTree>, n: int, b: u8)
    requires
        0 < n <= all.len(),
        forall|k: int| 0 <= k < n ==> hir_is_plain(#[trigger] all[k]),
    ensures
        !(start::hir_alternation_start(all.take(n)) is Bail),
        exists|k: int, w: Seq<u8>| 0 <= k < n && #[trigger] hir_matches(all[k], w),
        start::hir_alternation_start(all.take(n)) is MaybeEmpty ==> exists|k: int|
            0 <= k < n && #[trigger] hir_matches(all[k], Seq::empty()),
        bytes_of(start::hir_alternation_start(all.take(n))).contains(b) ==> exists|k: int, w: Seq<u8>|
            0 <= k < n && #[trigger] hir_matches(all[k], w) && starts_with(w, b),
    decreases all, n as nat,
{
    let none = Seq::<u8>::empty();
    let part = all.take(n);
    let last = n - 1;
    assert(part[last] == all[last]);
    hir_start_is_tight(all[last], b);
    let any = choose|w: Seq<u8>| #[trigger] hir_matches(all[last], w);
    assert(hir_matches(all[last], any));
    if n > 1 {
        assert(part.drop_last() =~= all.take(last));
        hir_choice_is_tight(all, last, b);
        if bytes_of(start::hir_alternation_start(part)).contains(b) {
            if bytes_of(start::hir_start(all[last])).contains(b) {
                let w = choose|w: Seq<u8>|
                    #[trigger] hir_matches(all[last], w) && starts_with(w, b);
            } else {
                assert(bytes_of(start::hir_alternation_start(all.take(last))).contains(b));
            }
        }
    } else {
        assert(part[0] == all[0]);
    }
}

/// A class matches each of its characters.
proof fn class_matches(ranges: Seq<(char, char)>, k: int, c: char)
    requires
        0 <= k < ranges.len(),
        ranges[k].0 <= c <= ranges[k].1,
    ensures
        hir_matches(HirTree::Unicode(ranges), text::char_bytes(c)),
{
    let w = text::char_bytes(c);
    assert(fold::in_char_ranges(ranges, c));
    assert(w.subrange(0, w.len() as int) =~= w);
}

/// An alternation matches what one of its alternatives matches.
proof fn choice_matches(subs: Seq<HirTree>, k: int, w: Seq<u8>)
    requires
        0 <= k < subs.len(),
        hir_matches(subs[k], w),
    ensures
        hir_matches(HirTree::Alternation(subs), w),
{
    let whole = HirTree::Alternation(subs);
    assert(whole->Alternation_0[k] == subs[k]);
    assert(semantics::hir_can_match(subs[k], w, 0, w.len() as int));
    assert(semantics::hir_can_match(whole, w, 0, w.len() as int));
}

/// Moving the text moves the match: whether an expression can match from one place to another depends on what
/// stands between.
proof fn expr_moves(expr: Expr, ctx: HirCtx, hay: Seq<u8>, i: int, j: int, other: Seq<u8>, at: int)
    requires
        is_plain(expr, ctx),
        semantics::can_match(expr, ctx, hay, i, j),
        0 <= at <= at + (j - i) <= other.len(),
        other.subrange(at, at + (j - i)) == hay.subrange(i, j),
    ensures
        semantics::can_match(expr, ctx, other, at, at + (j - i)),
    decreases expr, 0nat,
{
    let end = at + (j - i);
    match expr {
        Expr::Literal { .. } => {},
        Expr::Delegate { .. } => {
            hir_moves(tree::delegate_tree(expr, ctx)->Some_0, hay, i, j, other, at);
        },
        Expr::Group(child) => {
            expr_moves(*child, ctx, hay, i, j, other, at);
        },
        Expr::AtomicGroup(child) => {
            expr_moves(*child, ctx, hay, i, j, other, at);
        },
        Expr::Concat(children) => {
            assert(decreases_to!(expr => expr->Concat_0@));
            expr_rows_move(children@, ctx, hay, i, j, other, at);
        },
        Expr::Alt(branches) => {
            let k = choose|k: int|
                0 <= k < branches@.len() && semantics::can_match(
                    #[trigger] branches@[k],
                    ctx,
                    hay,
                    i,
                    j,
                );
            assert(decreases_to!(expr => expr->Alt_0@[k]));
            expr_moves(branches@[k], ctx, hay, i, j, other, at);
            assert(semantics::can_match(branches@[k], ctx, other, at, end));
        },
        Expr::Repeat { child, lo, hi, .. } => {
            let n = choose|n: nat|
                #[trigger] semantics::is_count(lo as int, n, hi as int) && semantics::repeats(
                    *child,
                    n,
                    ctx,
                    hay,
                    i,
                    j,
                );
            expr_repeats_move(*child, n, ctx, hay, i, j, other, at);
        },
        _ => {},
    }
}

proof fn expr_repeats_move(
    expr: Expr,
    n: nat,
    ctx: HirCtx, hay: Seq<u8>,
    i: int,
    j: int,
    other: Seq<u8>,
    at: int,
)
    requires
        is_plain(expr, ctx),
        semantics::repeats(expr, n, ctx, hay, i, j),
        0 <= i <= j <= hay.len(),
        0 <= at <= at + (j - i) <= other.len(),
        other.subrange(at, at + (j - i)) == hay.subrange(i, j),
    ensures
        semantics::repeats(expr, n, ctx, other, at, at + (j - i)),
    decreases expr, n + 1,
{
    if n > 0 {
        let k = choose|k: int|
            #[trigger] semantics::between(i, k, j) && semantics::can_match(expr, ctx, hay, i, k)
                && semantics::repeats(expr, (n - 1) as nat, ctx, hay, k, j);
        same_parts(hay, i, k, j, other, at);
        expr_moves(expr, ctx, hay, i, k, other, at);
        expr_repeats_move(expr, (n - 1) as nat, ctx, hay, k, j, other, at + (k - i));
        assert(semantics::between(at, at + (k - i), at + (j - i)));
    }
}

proof fn expr_rows_move(
    row: Seq<Expr>,
    ctx: HirCtx, hay: Seq<u8>,
    i: int,
    j: int,
    other: Seq<u8>,
    at: int,
)
    requires
        forall|m: int| 0 <= m < row.len() ==> is_plain(#[trigger] row[m], ctx),
        semantics::concat_can_match(row, ctx, hay, i, j),
        0 <= i <= j <= hay.len(),
        0 <= at <= at + (j - i) <= other.len(),
        other.subrange(at, at + (j - i)) == hay.subrange(i, j),
    ensures
        semantics::concat_can_match(row, ctx, other, at, at + (j - i)),
    decreases row, 0nat,
{
    if row.len() > 0 {
        let rest = row.drop_first();
        let k = choose|k: int|
            #[trigger] semantics::between(i, k, j) && semantics::can_match(row[0], ctx, hay, i, k)
                && semantics::concat_can_match(rest, ctx, hay, k, j);
        same_parts(hay, i, k, j, other, at);
        expr_moves(row[0], ctx, hay, i, k, other, at);
        assert(forall|m: int| 0 <= m < rest.len() ==> #[trigger] rest[m] == row[m + 1]);
        expr_rows_move(rest, ctx, hay, k, j, other, at + (k - i));
        assert(semantics::between(at, at + (k - i), at + (j - i)));
    }
}

/// Whether an expression can match all of `w`.
pub open spec fn expr_matches(expr: Expr, ctx: HirCtx, w: Seq<u8>) -> bool {
    semantics::can_match(expr, ctx, w, 0, w.len() as int)
}

/// A match of the first of a row and one of the rest make one of the row.
proof fn expr_row_joins(row: Seq<Expr>, ctx: HirCtx, a: Seq<u8>, b: Seq<u8>)
    requires
        row.len() > 0,
        forall|m: int| 0 <= m < row.len() ==> is_plain(#[trigger] row[m], ctx),
        expr_matches(row[0], ctx, a),
        semantics::concat_can_match(row.drop_first(), ctx, b, 0, b.len() as int),
    ensures
        semantics::concat_can_match(row, ctx, a + b, 0, (a + b).len() as int),
{
    let w = a + b;
    let k = a.len() as int;
    let rest = row.drop_first();
    assert(w.subrange(0, k) =~= a.subrange(0, k));
    assert(w.subrange(k, w.len() as int) =~= b.subrange(0, b.len() as int));
    expr_moves(row[0], ctx, a, 0, k, w, 0);
    assert(forall|m: int| 0 <= m < rest.len() ==> #[trigger] rest[m] == row[m + 1]);
    expr_rows_move(rest, ctx, b, 0, b.len() as int, w, k);
    assert(semantics::between(0, k, w.len() as int));
}

/// A match and `n` more make `n + 1`.
proof fn expr_repeats_join(expr: Expr, n: nat, ctx: HirCtx, a: Seq<u8>, b: Seq<u8>)
    requires
        is_plain(expr, ctx),
        expr_matches(expr, ctx, a),
        semantics::repeats(expr, n, ctx, b, 0, b.len() as int),
    ensures
        semantics::repeats(expr, n + 1, ctx, a + b, 0, (a + b).len() as int),
{
    let w = a + b;
    let k = a.len() as int;
    assert(w.subrange(0, k) =~= a.subrange(0, k));
    assert(w.subrange(k, w.len() as int) =~= b.subrange(0, b.len() as int));
    expr_moves(expr, ctx, a, 0, k, w, 0);
    expr_repeats_move(expr, n, ctx, b, 0, b.len() as int, w, k);
    assert(semantics::between(0, k, w.len() as int));
    assert((n + 1 - 1) as nat == n);
}

/// What matches once matches as often as it may.
proof fn expr_repeats_any(expr: Expr, n: nat, ctx: HirCtx, a: Seq<u8>) -> (w: Seq<u8>)
    requires
        is_plain(expr, ctx),
        expr_matches(expr, ctx, a),
    ensures
        semantics::repeats(expr, n, ctx, w, 0, w.len() as int),
        a.len() == 0 ==> w.len() == 0,
    decreases n,
{
    if n == 0 {
        Seq::empty()
    } else {
        let b = expr_repeats_any(expr, (n - 1) as nat, ctx, a);
        expr_repeats_join(expr, (n - 1) as nat, ctx, a, b);
        a + b
    }
}

/// The start of an expression says no more than its matches bear out: it matches the empty text where its
/// start allows that, and something that starts with `b` where `b` is a start byte.
proof fn expr_start_is_tight(expr: Expr, ctx: HirCtx, b: u8)
    requires
        is_plain(expr, ctx),
    ensures
        !(start::expr_start(expr, ctx) is Bail),
        exists|w: Seq<u8>| #[trigger] expr_matches(expr, ctx, w),
        start::expr_start(expr, ctx) is MaybeEmpty ==> expr_matches(expr, ctx, Seq::empty()),
        bytes_of(start::expr_start(expr, ctx)).contains(b) ==> exists|w: Seq<u8>|
            #[trigger] expr_matches(expr, ctx, w) && starts_with(w, b),
    decreases expr, 0nat,
{
    let none = Seq::<u8>::empty();
    match expr {
        Expr::Literal { val, casei } => {
            literal_is_tight(expr, val@, casei, ctx, b);
        },
        Expr::Delegate { .. } => {
            let hir = tree::delegate_tree(expr, ctx)->Some_0;
            hir_start_is_tight(hir, b);
            let any = choose|w: Seq<u8>| #[trigger] hir_matches(hir, w);
            assert(expr_matches(expr, ctx, any));
            assert(hir_matches(hir, none) ==> expr_matches(expr, ctx, none));
            if bytes_of(start::hir_start(hir)).contains(b) {
                let w = choose|w: Seq<u8>| #[trigger] hir_matches(hir, w) && starts_with(w, b);
                assert(expr_matches(expr, ctx, w));
            }
        },
        Expr::Group(child) => {
            expr_start_is_tight(*child, ctx, b);
            child_is_tight(expr, *child, ctx, b);
        },
        Expr::AtomicGroup(child) => {
            expr_start_is_tight(*child, ctx, b);
            child_is_tight(expr, *child, ctx, b);
        },
        Expr::Repeat { child, lo, hi, .. } => {
            expr_start_is_tight(*child, ctx, b);
            assert forall|n: nat, w: Seq<u8>|
                lo <= n <= hi && #[trigger] semantics::repeats(
                    *child,
                    n,
                    ctx,
                    w,
                    0,
                    w.len() as int,
                ) implies expr_matches(expr, ctx, w) by {
                repeats_in_order(*child, n, ctx, w, 0, w.len() as int);
                assert(semantics::is_count(lo as int, n, hi as int));
            }
            expr_repetition_is_tight(expr, *child, lo as int, hi as int, ctx, b);
        },
        Expr::Concat(children) => {
            assert(decreases_to!(expr => expr->Concat_0@));
            expr_row_is_tight(children@, ctx, b);
            let any = choose|w: Seq<u8>|
                #[trigger] semantics::concat_can_match(children@, ctx, w, 0, w.len() as int);
            assert(expr_matches(expr, ctx, any));
            assert(start::expr_start(expr, ctx) == start::concat_start(children@, ctx));
            assert(start::expr_start(expr, ctx) is MaybeEmpty ==> expr_matches(expr, ctx, none));
            if bytes_of(start::concat_start(children@, ctx)).contains(b) {
                let w = choose|w: Seq<u8>|
                    #[trigger] semantics::concat_can_match(children@, ctx, w, 0, w.len() as int)
                        && starts_with(w, b);
                assert(expr_matches(expr, ctx, w));
            }
        },
        Expr::Alt(branches) => {
            let all = branches@;
            assert(decreases_to!(expr => expr->Alt_0@));
            expr_choice_is_tight(all, all.len() as int, ctx, b);
            assert(all.take(all.len() as int) =~= all);
            let (k, any) = choose|k: int, w: Seq<u8>|
                0 <= k < all.len() && #[trigger] expr_matches(all[k], ctx, w);
            branch_matches(branches, k, ctx, any);
            assert(start::expr_start(expr, ctx) == start::alt_start(all, ctx));
            if start::expr_start(expr, ctx) is MaybeEmpty {
                let m = choose|m: int|
                    0 <= m < all.len() && #[trigger] expr_matches(all[m], ctx, none);
                branch_matches(branches, m, ctx, none);
            }
            if bytes_of(start::expr_start(expr, ctx)).contains(b) {
                let (m, w) = choose|m: int, w: Seq<u8>|
                    0 <= m < all.len() && #[trigger] expr_matches(all[m], ctx, w) && starts_with(
                        w,
                        b,
                    );
                branch_matches(branches, m, ctx, w);
            }
        },
        _ => {
            assert(expr_matches(expr, ctx, none));
        },
    }
}

proof fn expr_repetition_is_tight(
    expr: Expr,
    sub: Expr,
    lo: int,
    hi: int,
    ctx: HirCtx, b: u8,
)
    requires
        is_plain(expr, ctx),
        is_plain(sub, ctx),
        0 <= lo <= hi,
        hi >= 1,
        forall|n: nat, w: Seq<u8>|
            lo <= n <= hi && #[trigger] semantics::repeats(sub, n, ctx, w, 0, w.len() as int)
                ==> expr_matches(expr, ctx, w),
        !(start::expr_start(sub, ctx) is Bail),
        exists|w: Seq<u8>| #[trigger] expr_matches(sub, ctx, w),
        start::expr_start(sub, ctx) is MaybeEmpty ==> expr_matches(sub, ctx, Seq::empty()),
        bytes_of(start::expr_start(sub, ctx)).contains(b) ==> exists|w: Seq<u8>|
            #[trigger] expr_matches(sub, ctx, w) && starts_with(w, b),
    ensures
        exists|w: Seq<u8>| #[trigger] expr_matches(expr, ctx, w),
        lo == 0 || start::expr_start(sub, ctx) is MaybeEmpty ==> expr_matches(expr, ctx, Seq::empty()),
        bytes_of(start::expr_start(sub, ctx)).contains(b) ==> exists|w: Seq<u8>|
            #[trigger] expr_matches(expr, ctx, w) && starts_with(w, b),
{
    let none = Seq::<u8>::empty();
    let any = choose|w: Seq<u8>| #[trigger] expr_matches(sub, ctx, w);
    let many = expr_repeats_any(sub, lo as nat, ctx, any);
    assert(expr_matches(expr, ctx, many));
    if lo == 0 {
        assert(semantics::repeats(sub, 0nat, ctx, none, 0, none.len() as int));
    } else if start::expr_start(sub, ctx) is MaybeEmpty {
        let w = expr_repeats_any(sub, lo as nat, ctx, none);
        assert(w =~= none);
    }
    if bytes_of(start::expr_start(sub, ctx)).contains(b) {
        let first = choose|w: Seq<u8>| #[trigger] expr_matches(sub, ctx, w) && starts_with(w, b);
        let n = if lo > 1 {
            (lo - 1) as nat
        } else {
            0nat
        };
        let more = expr_repeats_any(sub, n, ctx, any);
        expr_repeats_join(sub, n, ctx, first, more);
        assert(expr_matches(expr, ctx, first + more));
        assert(starts_with(first + more, b));
    }
}

proof fn expr_row_is_tight(row: Seq<Expr>, ctx: HirCtx, b: u8)
    requires
        forall|k: int| 0 <= k < row.len() ==> is_plain(#[trigger] row[k], ctx),
    ensures
        !(start::concat_start(row, ctx) is Bail),
        exists|w: Seq<u8>| #[trigger] semantics::concat_can_match(row, ctx, w, 0, w.len() as int),
        start::concat_start(row, ctx) is MaybeEmpty ==> semantics::concat_can_match(row, ctx, Seq::empty(), 0, 0),
        bytes_of(start::concat_start(row, ctx)).contains(b) ==> exists|w: Seq<u8>|
            #[trigger] semantics::concat_can_match(row, ctx, w, 0, w.len() as int) && starts_with(w, b),
    decreases row, 0nat,
{
    let none = Seq::<u8>::empty();
    if row.len() == 0 {
        assert(semantics::concat_can_match(row, ctx, none, 0, none.len() as int));
    } else {
        let first = row[0];
        let rest = row.drop_first();
        assert(forall|m: int| 0 <= m < rest.len() ==> #[trigger] rest[m] == row[m + 1]);
        expr_start_is_tight(first, ctx, b);
        expr_row_is_tight(rest, ctx, b);
        let a = choose|w: Seq<u8>| #[trigger] expr_matches(first, ctx, w);
        let z = choose|w: Seq<u8>|
            #[trigger] semantics::concat_can_match(rest, ctx, w, 0, w.len() as int);
        expr_row_joins(row, ctx, a, z);
        if start::expr_start(first, ctx) is MaybeEmpty {
            assert(none + none =~= none);
            assert(none + z =~= z);
            if start::concat_start(rest, ctx) is MaybeEmpty {
                expr_row_joins(row, ctx, none, none);
            }
        }
        if bytes_of(start::concat_start(row, ctx)).contains(b) {
            if bytes_of(start::expr_start(first, ctx)).contains(b) {
                let x = choose|w: Seq<u8>|
                    #[trigger] expr_matches(first, ctx, w) && starts_with(w, b);
                expr_row_joins(row, ctx, x, z);
                assert(starts_with(x + z, b));
            } else {
                let y = choose|w: Seq<u8>|
                    #[trigger] semantics::concat_can_match(rest, ctx, w, 0, w.len() as int)
                        && starts_with(w, b);
                expr_row_joins(row, ctx, none, y);
                assert(none + y =~= y);
            }
        }
    }
}

proof fn expr_choice_is_tight(all: Seq<Expr>, n: int, ctx: HirCtx, b: u8)
    requires
        0 < n <= all.len(),
        forall|k: int| 0 <= k < n ==> is_plain(#[trigger] all[k], ctx),
    ensures
        !(start::alt_start(all.take(n), ctx) is Bail),
        exists|k: int, w: Seq<u8>| 0 <= k < n && #[trigger] expr_matches(all[k], ctx, w),
        start::alt_start(all.take(n), ctx) is MaybeEmpty ==> exists|k: int|
            0 <= k < n && #[trigger] expr_matches(all[k], ctx, Seq::empty()),
        bytes_of(start::alt_start(all.take(n), ctx)).contains(b) ==> exists|k: int, w: Seq<u8>|
            0 <= k < n && #[trigger] expr_matches(all[k], ctx, w) && starts_with(w, b),
    decreases all, n as nat,
{
    let none = Seq::<u8>::empty();
    let part = all.take(n);
    let last = n - 1;
    assert(part[last] == all[last]);
    expr_start_is_tight(all[last], ctx, b);
    let any = choose|w: Seq<u8>| #[trigger] expr_matches(all[last], ctx, w);
    assert(expr_matches(all[last], ctx, any));
    if n > 1 {
        assert(part.drop_last() =~= all.take(last));
        expr_choice_is_tight(all, last, ctx, b);
        if bytes_of(start::alt_start(part, ctx)).contains(b) {
            if bytes_of(start::expr_start(all[last], ctx)).contains(b) {
                let w = choose|w: Seq<u8>|
                    #[trigger] expr_matches(all[last], ctx, w) && starts_with(w, b);
            } else {
                assert(bytes_of(start::alt_start(all.take(last), ctx)).contains(b));
            }
        }
    } else {
        assert(part[0] == all[0]);
    }
}

/// An alternation matches what one of its branches matches.
proof fn branch_matches(branches: Vec<Expr>, k: int, ctx: HirCtx, w: Seq<u8>)
    requires
        0 <= k < branches@.len(),
        expr_matches(branches@[k], ctx, w),
    ensures
        expr_matches(Expr::Alt(branches), ctx, w),
{
    let whole = Expr::Alt(branches);
    assert(whole->Alt_0@[k] == branches@[k]);
    assert(semantics::can_match(branches@[k], ctx, w, 0, w.len() as int));
    assert(semantics::can_match(whole, ctx, w, 0, w.len() as int));
}

/// Repetitions lie within the haystack.
proof fn repeats_in_order(expr: Expr, n: nat, ctx: HirCtx, hay: Seq<u8>, i: int, j: int)
    requires
        semantics::repeats(expr, n, ctx, hay, i, j),
    ensures
        i <= j,
    decreases n,
{
    if n > 0 {
        let k = choose|k: int|
            #[trigger] semantics::between(i, k, j) && semantics::can_match(expr, ctx, hay, i, k)
                && semantics::repeats(expr, (n - 1) as nat, ctx, hay, k, j);
    }
}

/// A group matches what is in it.
proof fn child_is_tight(expr: Expr, child: Expr, ctx: HirCtx, b: u8)
    requires
        expr == Expr::Group(Box::new(child)) || expr == Expr::AtomicGroup(Box::new(child)),
        !(start::expr_start(child, ctx) is Bail),
        exists|w: Seq<u8>| #[trigger] expr_matches(child, ctx, w),
        start::expr_start(child, ctx) is MaybeEmpty ==> expr_matches(child, ctx, Seq::empty()),
        bytes_of(start::expr_start(child, ctx)).contains(b) ==> exists|w: Seq<u8>|
            #[trigger] expr_matches(child, ctx, w) && starts_with(w, b),
    ensures
        !(start::expr_start(expr, ctx) is Bail),
        exists|w: Seq<u8>| #[trigger] expr_matches(expr, ctx, w),
        start::expr_start(expr, ctx) is MaybeEmpty ==> expr_matches(expr, ctx, Seq::empty()),
        bytes_of(start::expr_start(expr, ctx)).contains(b) ==> exists|w: Seq<u8>|
            #[trigger] expr_matches(expr, ctx, w) && starts_with(w, b),
{
    let any = choose|w: Seq<u8>| #[trigger] expr_matches(child, ctx, w);
    assert(expr_matches(expr, ctx, any));
    assert(expr_matches(child, ctx, Seq::empty()) ==> expr_matches(expr, ctx, Seq::empty()));
    if bytes_of(start::expr_start(child, ctx)).contains(b) {
        let w = choose|w: Seq<u8>| #[trigger] expr_matches(child, ctx, w) && starts_with(w, b);
        assert(expr_matches(expr, ctx, w));
    }
}

/// A literal matches each of its spellings.
proof fn literal_is_tight(expr: Expr, val: Seq<char>, casei: bool, ctx: HirCtx, b: u8)
    requires
        expr matches Expr::Literal { val: v, casei: c } && v@ == val && c == casei,
        is_plain(expr, ctx),
    ensures
        !(start::expr_start(expr, ctx) is Bail),
        exists|w: Seq<u8>| #[trigger] expr_matches(expr, ctx, w),
        start::expr_start(expr, ctx) is MaybeEmpty ==> expr_matches(expr, ctx, Seq::empty()),
        bytes_of(start::expr_start(expr, ctx)).contains(b) ==> exists|w: Seq<u8>|
            #[trigger] expr_matches(expr, ctx, w) && starts_with(w, b),
{
    assert(semantics::spells(val, casei, val));
    literal_matches(expr, val, casei, ctx, val);
    if val.len() == 0 {
        assert(val =~= Seq::empty());
    } else {
        if bytes_of(start::expr_start(expr, ctx)).contains(b) {
            let c = if casei {
                let chars = fold::fold_chars(val[0])->Some_0;
                let k = choose|k: int|
                    0 <= k < chars.len() && text::char_bytes(#[trigger] chars[k])[0] == b;
                assert(chars.contains(chars[k]));
                fold::chars_of_ranges_members(fold::simple_fold_ranges(val[0])->Some_0, chars[k]);
                chars[k]
            } else {
                val[0]
            };
            let t = val.update(0, c);
            assert(semantics::spells(val, casei, t));
            literal_matches(expr, val, casei, ctx, t);
            text::first_byte_of_char(c);
            let w = vstd::utf8::encode_utf8(t);
            text::encoding_of_concatenation(seq![c], t.drop_first());
            text::encoding_of_one(c);
            assert(t =~= seq![c] + t.drop_first());
            assert(w[0] == b);
            assert(starts_with(w, b));
        }
    }
}

proof fn literal_matches(expr: Expr, val: Seq<char>, casei: bool, ctx: HirCtx, t: Seq<char>)
    requires
        expr matches Expr::Literal { val: v, casei: c } && v@ == val && c == casei,
        semantics::spells(val, casei, t),
    ensures
        expr_matches(expr, ctx, vstd::utf8::encode_utf8(t)),
{
    let w = vstd::utf8::encode_utf8(t);
    assert(w.subrange(0, w.len() as int) =~= w);
    assert(semantics::encodes_literal(val, casei, w));
}

/// Whether a syntax tree matches the empty text somewhere.
pub open spec fn hir_matches_nothing(hir: HirTree) -> bool {
    exists|hay: Seq<u8>, i: int| #[trigger] semantics::hir_can_match(hir, hay, i, i)
}

/// Whether some match of a syntax tree starts with `b`.
pub open spec fn hir_matches_from(hir: HirTree, b: u8) -> bool {
    exists|hay: Seq<u8>, i: int, j: int| #[trigger]
        semantics::hir_can_match(hir, hay, i, j) && i < j && hay[i] == b
}

/// The start of a plain syntax tree is exact: something is known of it, it is definite where no match
/// is empty, and its bytes are those that matches start with.
pub proof fn the_start_of_a_syntax_tree_is_exact(hir: HirTree, b: u8)
    requires
        hir_is_plain(hir),
    ensures
        !(start::hir_start(hir) is Bail),
        start::hir_start(hir) is MaybeEmpty <==> hir_matches_nothing(hir),
        bytes_of(start::hir_start(hir)).contains(b) <==> hir_matches_from(hir, b),
{
    let none = Seq::<u8>::empty();
    hir_start_is_tight(hir, b);
    if start::hir_start(hir) is MaybeEmpty {
        assert(semantics::hir_can_match(hir, none, 0, 0));
    }
    if hir_matches_nothing(hir) {
        let (hay, i) = choose|hay: Seq<u8>, i: int| #[trigger]
            semantics::hir_can_match(hir, hay, i, i);
        start::hir_start_holds_of_matches(hir, hay, i, i);
    }
    if bytes_of(start::hir_start(hir)).contains(b) {
        let w = choose|w: Seq<u8>| #[trigger] hir_matches(hir, w) && starts_with(w, b);
        assert(semantics::hir_can_match(hir, w, 0, w.len() as int));
    }
    if hir_matches_from(hir, b) {
        let (hay, i, j) = choose|hay: Seq<u8>, i: int, j: int| #[trigger]
            semantics::hir_can_match(hir, hay, i, j) && i < j && hay[i] == b;
        start::hir_start_holds_of_matches(hir, hay, i, j);
    }
}

/// Whether an expression matches the empty text somewhere.
pub open spec fn matches_nothing(expr: Expr, ctx: HirCtx) -> bool {
    exists|hay: Seq<u8>, i: int| #[trigger] semantics::can_match(expr, ctx, hay, i, i)
}

/// Whether some match of an expression starts with `b`.
pub open spec fn matches_from(expr: Expr, ctx: HirCtx, b: u8) -> bool {
    exists|hay: Seq<u8>, i: int, j: int| #[trigger]
        semantics::can_match(expr, ctx, hay, i, j) && i < j && hay[i] == b
}

/// The start of a plain expression is exact: something is known of it, it is definite where no match
/// is empty, and its bytes are those that matches start with.
pub proof fn the_start_of_an_expression_is_exact(expr: Expr, ctx: HirCtx, b: u8)
    requires
        is_plain(expr, ctx),
    ensures
        !(start::expr_start(expr, ctx) is Bail),
        start::expr_start(expr, ctx) is MaybeEmpty <==> matches_nothing(expr, ctx),
        bytes_of(start::expr_start(expr, ctx)).contains(b) <==> matches_from(expr, ctx, b),
{
    let none = Seq::<u8>::empty();
    expr_start_is_tight(expr, ctx, b);
    if start::expr_start(expr, ctx) is MaybeEmpty {
        assert(semantics::can_match(expr, ctx, none, 0, 0));
    }
    if matches_nothing(expr, ctx) {
        let (hay, i) = choose|hay: Seq<u8>, i: int| #[trigger]
            semantics::can_match(expr, ctx, hay, i, i);
        assert(none.subrange(0, 0) =~= hay.subrange(i, i));
        expr_moves(expr, ctx, hay, i, i, none, 0);
        start::start_holds_of_matches(expr, ctx, none, 0, 0);
    }
    if bytes_of(start::expr_start(expr, ctx)).contains(b) {
        let w = choose|w: Seq<u8>| #[trigger] expr_matches(expr, ctx, w) && starts_with(w, b);
        assert(semantics::can_match(expr, ctx, w, 0, w.len() as int));
    }
    if matches_from(expr, ctx, b) {
        let (hay, i, j) = choose|hay: Seq<u8>, i: int, j: int| #[trigger]
            semantics::can_match(expr, ctx, hay, i, j) && i < j && hay[i] == b;
        start::start_holds_of_matches(expr, ctx, hay, i, j);
    }
}

/// The start bytes of a plain expression are there exactly where no match of it is empty, and are the
/// bytes that its matches start with.
pub proof fn start_bytes_are_exact(expr: Expr, ctx: HirCtx)
    requires
        is_plain(expr, ctx),
    ensures
        match start::start_bytes_of(expr, ctx) {
            Some(set) => !matches_nothing(expr, ctx) && forall|b: u8| #[trigger]
                set.contains(b) <==> matches_from(expr, ctx, b),
            None => matches_nothing(expr, ctx),
        },
{
    assert forall|b: u8| #[trigger] bytes_of(start::expr_start(expr, ctx)).contains(b)
        <==> matches_from(expr, ctx, b) by {
        the_start_of_an_expression_is_exact(expr, ctx, b);
    }
    the_start_of_an_expression_is_exact(expr, ctx, 0);
    if start::expr_start(expr, ctx) is Definite {
        expr_start_is_tight(expr, ctx, 0);
        let w = choose|w: Seq<u8>| #[trigger] expr_matches(expr, ctx, w);
        assert(semantics::can_match(expr, ctx, w, 0, w.len() as int));
        if w.len() == 0 {
            assert(matches_nothing(expr, ctx));
        }
        assert(matches_from(expr, ctx, w[0]));
        assert(bytes_of(start::expr_start(expr, ctx)).contains(w[0]));
    }
}

/// What is known of a row of syntax trees comes from its first that cannot be empty, number `k`, and those
/// before it; where each can be empty, from all. If nothing is known of that one, nothing is known of
/// the row, and what comes behind it makes no difference.
pub proof fn what_starts_a_row_of_syntax_trees(row: Seq<HirTree>, k: int, b: u8)
    requires
        0 <= k <= row.len(),
        forall|m: int| 0 <= m < k ==> start::hir_start(#[trigger] row[m]) is MaybeEmpty,
        k < row.len() ==> !(start::hir_start(row[k]) is MaybeEmpty),
    ensures
        start::hir_concat_start(row) is Bail <==> k < row.len() && start::hir_start(row[k]) is Bail,
        start::hir_concat_start(row) is Definite <==> k < row.len() && start::hir_start(row[k]) is Definite,
        !(start::hir_concat_start(row) is Bail) ==> (bytes_of(start::hir_concat_start(row)).contains(b) <==> exists|m: int|
            0 <= m <= k && m < row.len() && bytes_of(start::hir_start(#[trigger] row[m])).contains(b)),
    decreases row.len(),
{
    if row.len() > 0 {
        let rest = row.drop_first();
        assert(forall|m: int| 0 <= m < rest.len() ==> #[trigger] rest[m] == row[m + 1]);
        if k > 0 {
            assert(start::hir_start(row[0]) is MaybeEmpty);
            what_starts_a_row_of_syntax_trees(rest, k - 1, b);
            if exists|m: int|
                0 <= m <= k && m < row.len() && bytes_of(start::hir_start(#[trigger] row[m])).contains(b) {
                let m = choose|m: int|
                    0 <= m <= k && m < row.len() && bytes_of(start::hir_start(#[trigger] row[m])).contains(b);
                if m > 0 {
                    assert(rest[m - 1] == row[m]);
                }
            }
            if exists|m: int|
                0 <= m <= k - 1 && m < rest.len() && bytes_of(start::hir_start(#[trigger] rest[m])).contains(b) {
                let m = choose|m: int|
                    0 <= m <= k - 1 && m < rest.len() && bytes_of(start::hir_start(#[trigger] rest[m])).contains(
                        b,
                    );
                assert(rest[m] == row[m + 1]);
            }
        }
    }
}

/// What is known of an alternation of syntax trees comes from all of them: nothing where nothing is known of
/// one, a definite start where each has one, and the bytes of all.
pub proof fn what_starts_a_choice_of_syntax_trees(all: Seq<HirTree>, b: u8)
    requires
        all.len() > 0,
    ensures
        start::hir_alternation_start(all) is Bail <==> exists|m: int|
            0 <= m < all.len() && start::hir_start(#[trigger] all[m]) is Bail,
        start::hir_alternation_start(all) is Definite <==> forall|m: int|
            0 <= m < all.len() ==> start::hir_start(#[trigger] all[m]) is Definite,
        !(start::hir_alternation_start(all) is Bail) ==> (bytes_of(start::hir_alternation_start(all)).contains(b) <==> exists|m: int|
            0 <= m < all.len() && bytes_of(start::hir_start(#[trigger] all[m])).contains(b)),
    decreases all.len(),
{
    let last = all.len() - 1;
    assert(all.last() == all[last]);
    if all.len() > 1 {
        let rest = all.drop_last();
        assert(forall|m: int| 0 <= m < rest.len() ==> #[trigger] rest[m] == all[m]);
        what_starts_a_choice_of_syntax_trees(rest, b);
        if exists|m: int| 0 <= m < rest.len() && start::hir_start(#[trigger] rest[m]) is Bail {
            let m = choose|m: int| 0 <= m < rest.len() && start::hir_start(#[trigger] rest[m]) is Bail;
            assert(start::hir_start(all[m]) is Bail);
        }
        if exists|m: int| 0 <= m < all.len() && start::hir_start(#[trigger] all[m]) is Bail {
            let m = choose|m: int| 0 <= m < all.len() && start::hir_start(#[trigger] all[m]) is Bail;
            if m < last {
                assert(start::hir_start(rest[m]) is Bail);
            }
        }
        if forall|m: int| 0 <= m < all.len() ==> start::hir_start(#[trigger] all[m]) is Definite {
            assert forall|m: int| 0 <= m < rest.len() implies start::hir_start(
                #[trigger] rest[m]) is Definite by {
                assert(start::hir_start(all[m]) is Definite);
            }
        }
        if start::hir_alternation_start(all) is Definite {
            assert forall|m: int| 0 <= m < all.len() implies start::hir_start(#[trigger] all[m]) is Definite by {
                if m < last {
                    assert(start::hir_start(rest[m]) is Definite);
                }
            }
        }
        if exists|m: int| 0 <= m < rest.len() && bytes_of(start::hir_start(#[trigger] rest[m])).contains(b) {
            let m = choose|m: int|
                0 <= m < rest.len() && bytes_of(start::hir_start(#[trigger] rest[m])).contains(b);
            assert(bytes_of(start::hir_start(all[m])).contains(b));
        }
        if exists|m: int| 0 <= m < all.len() && bytes_of(start::hir_start(#[trigger] all[m])).contains(b) {
            let m = choose|m: int|
                0 <= m < all.len() && bytes_of(start::hir_start(#[trigger] all[m])).contains(b);
            if m < last {
                assert(bytes_of(start::hir_start(rest[m])).contains(b));
            }
        }
    } else {
        assert(all[0] == all[last]);
    }
}

/// What is known of a row of expressions comes from its first that cannot be empty, number `k`, and those
/// before it; where each can be empty, from all. If nothing is known of that one, nothing is known of
/// the row, and what comes behind it makes no difference.
pub proof fn what_starts_a_row_of_expressions(row: Seq<Expr>, ctx: HirCtx, k: int, b: u8)
    requires
        0 <= k <= row.len(),
        forall|m: int| 0 <= m < k ==> start::expr_start(#[trigger] row[m], ctx) is MaybeEmpty,
        k < row.len() ==> !(start::expr_start(row[k], ctx) is MaybeEmpty),
    ensures
        start::concat_start(row, ctx) is Bail <==> k < row.len() && start::expr_start(row[k], ctx) is Bail,
        start::concat_start(row, ctx) is Definite <==> k < row.len() && start::expr_start(row[k], ctx) is Definite,
        !(start::concat_start(row, ctx) is Bail) ==> (bytes_of(start::concat_start(row, ctx)).contains(b) <==> exists|m: int|
            0 <= m <= k && m < row.len() && bytes_of(start::expr_start(#[trigger] row[m], ctx)).contains(b)),
    decreases row.len(),
{
    if row.len() > 0 {
        let rest = row.drop_first();
        assert(forall|m: int| 0 <= m < rest.len() ==> #[trigger] rest[m] == row[m + 1]);
        if k > 0 {
            assert(start::expr_start(row[0], ctx) is MaybeEmpty);
            what_starts_a_row_of_expressions(rest, ctx, k - 1, b);
            if exists|m: int|
                0 <= m <= k && m < row.len() && bytes_of(start::expr_start(#[trigger] row[m], ctx)).contains(b) {
                let m = choose|m: int|
                    0 <= m <= k && m < row.len() && bytes_of(start::expr_start(#[trigger] row[m], ctx)).contains(b);
                if m > 0 {
                    assert(rest[m - 1] == row[m]);
                }
            }
            if exists|m: int|
                0 <= m <= k - 1 && m < rest.len() && bytes_of(start::expr_start(#[trigger] rest[m], ctx)).contains(b) {
                let m = choose|m: int|
                    0 <= m <= k - 1 && m < rest.len() && bytes_of(start::expr_start(#[trigger] rest[m], ctx)).contains(
                        b,
                    );
                assert(rest[m] == row[m + 1]);
            }
        }
    }
}

/// What is known of an alternation of expressions comes from all of them: nothing where nothing is known of
/// one, a definite start where each has one, and the bytes of all.
pub proof fn what_starts_a_choice_of_expressions(all: Seq<Expr>, ctx: HirCtx, b: u8)
    requires
        all.len() > 0,
    ensures
        start::alt_start(all, ctx) is Bail <==> exists|m: int|
            0 <= m < all.len() && start::expr_start(#[trigger] all[m], ctx) is Bail,
        start::alt_start(all, ctx) is Definite <==> forall|m: int|
            0 <= m < all.len() ==> start::expr_start(#[trigger] all[m], ctx) is Definite,
        !(start::alt_start(all, ctx) is Bail) ==> (bytes_of(start::alt_start(all, ctx)).contains(b) <==> exists|m: int|
            0 <= m < all.len() && bytes_of(start::expr_start(#[trigger] all[m], ctx)).contains(b)),
    decreases all.len(),
{
    let last = all.len() - 1;
    assert(all.last() == all[last]);
    if all.len() > 1 {
        let rest = all.drop_last();
        assert(forall|m: int| 0 <= m < rest.len() ==> #[trigger] rest[m] == all[m]);
        what_starts_a_choice_of_expressions(rest, ctx, b);
        if exists|m: int| 0 <= m < rest.len() && start::expr_start(#[trigger] rest[m], ctx) is Bail {
            let m = choose|m: int| 0 <= m < rest.len() && start::expr_start(#[trigger] rest[m], ctx) is Bail;
            assert(start::expr_start(all[m], ctx) is Bail);
        }
        if exists|m: int| 0 <= m < all.len() && start::expr_start(#[trigger] all[m], ctx) is Bail {
            let m = choose|m: int| 0 <= m < all.len() && start::expr_start(#[trigger] all[m], ctx) is Bail;
            if m < last {
                assert(start::expr_start(rest[m], ctx) is Bail);
            }
        }
        if forall|m: int| 0 <= m < all.len() ==> start::expr_start(#[trigger] all[m], ctx) is Definite {
            assert forall|m: int| 0 <= m < rest.len() implies start::expr_start(
                #[trigger] rest[m], ctx) is Definite by {
                assert(start::expr_start(all[m], ctx) is Definite);
            }
        }
        if start::alt_start(all, ctx) is Definite {
            assert forall|m: int| 0 <= m < all.len() implies start::expr_start(#[trigger] all[m], ctx) is Definite by {
                if m < last {
                    assert(start::expr_start(rest[m], ctx) is Definite);
                }
            }
        }
        if exists|m: int| 0 <= m < rest.len() && bytes_of(start::expr_start(#[trigger] rest[m], ctx)).contains(b) {
            let m = choose|m: int|
                0 <= m < rest.len() && bytes_of(start::expr_start(#[trigger] rest[m], ctx)).contains(b);
            assert(bytes_of(start::expr_start(all[m], ctx)).contains(b));
        }
        if exists|m: int| 0 <= m < all.len() && bytes_of(start::expr_start(#[trigger] all[m], ctx)).contains(b) {
            let m = choose|m: int|
                0 <= m < all.len() && bytes_of(start::expr_start(#[trigger] all[m], ctx)).contains(b);
            if m < last {
                assert(bytes_of(start::expr_start(rest[m], ctx)).contains(b));
            }
        }
    } else {
        assert(all[0] == all[last]);
    }
}

/// Whether what is known of a start is what is known of another, but that there may be no match at
/// all.
pub open spec fn is_optional_of(start: StartSet, whole: StartSet) -> bool {
    &&& start is Bail <==> whole is Bail
    &&& !(start is Definite)
    &&& forall|b: u8| #[trigger] bytes_of(start).contains(b) <==> bytes_of(whole).contains(b)
}

/// What is known of each kind of expression. A row and an alternation have laws of their own.
pub proof fn what_starts_an_expression(expr: Expr, ctx: HirCtx)
    ensures
        match expr {
            Expr::Empty => start::expr_start(expr, ctx) == StartSet::MaybeEmpty(Set::empty()),
            Expr::Assertion(_) => start::expr_start(expr, ctx) == StartSet::MaybeEmpty(Set::empty()),
            Expr::KeepOut => start::expr_start(expr, ctx) == StartSet::MaybeEmpty(Set::empty()),
            Expr::ContinueFromPreviousMatchEnd => start::expr_start(expr, ctx)
                == StartSet::MaybeEmpty(Set::empty()),
            Expr::Literal { val, casei } => match start::expr_start(expr, ctx) {
                StartSet::Definite(set) => val@.len() > 0 && forall|b: u8| #[trigger]
                    set.contains(b) <==> if casei {
                        exists|c: char|
                            fold::fold_chars(val@[0])->Some_0.contains(c)
                                && #[trigger] text::char_bytes(c)[0] == b
                    } else {
                        b == text::char_bytes(val@[0])[0]
                    },
                StartSet::MaybeEmpty(set) => val@.len() == 0 && set == Set::<u8>::empty(),
                StartSet::Bail => val@.len() > 0 && casei && fold::fold_chars(val@[0]) is None,
            },
            Expr::Delegate { .. } => match tree::delegate_tree(expr, ctx) {
                Some(hir) => start::expr_start(expr, ctx) == start::hir_start(hir),
                None => start::expr_start(expr, ctx) is Bail,
            },
            Expr::Group(child) => start::expr_start(expr, ctx) == start::expr_start(*child, ctx),
            Expr::AtomicGroup(child) => start::expr_start(expr, ctx) == start::expr_start(
                *child,
                ctx,
            ),
            Expr::Repeat { child, lo, .. } => if lo >= 1 {
                start::expr_start(expr, ctx) == start::expr_start(*child, ctx)
            } else {
                is_optional_of(start::expr_start(expr, ctx), start::expr_start(*child, ctx))
            },
            Expr::LookAround(child, LookAround::LookAhead) => if start::expr_start(
                *child,
                ctx,
            ) is Definite {
                start::expr_start(expr, ctx) == start::expr_start(*child, ctx)
            } else {
                start::expr_start(expr, ctx) == StartSet::MaybeEmpty(Set::empty())
            },
            Expr::LookAround(_, _) => start::expr_start(expr, ctx) == StartSet::MaybeEmpty(
                Set::empty(),
            ),
            Expr::Concat(_) => true,
            Expr::Alt(_) => true,
            _ => start::expr_start(expr, ctx) is Bail,
        },
{
    if let Expr::Literal { val, casei } = expr {
        if val@.len() > 0 && casei && fold::fold_chars(val@[0]) is Some {
            let chars = fold::fold_chars(val@[0])->Some_0;
            assert forall|b: u8| #[trigger] start::first_bytes(chars).contains(b) <==> exists|c: char|
                chars.contains(c) && #[trigger] text::char_bytes(c)[0] == b by {
                if start::first_bytes(chars).contains(b) {
                    let k = choose|k: int|
                        0 <= k < chars.len() && text::char_bytes(#[trigger] chars[k])[0] == b;
                    assert(chars.contains(chars[k]));
                }
                if exists|c: char| chars.contains(c) && #[trigger] text::char_bytes(c)[0] == b {
                    let c = choose|c: char|
                        chars.contains(c) && #[trigger] text::char_bytes(c)[0] == b;
                    let k = choose|k: int| 0 <= k < chars.len() && chars[k] == c;
                    assert(text::char_bytes(chars[k])[0] == b);
                }
            }
        }
    }
}

/// What is known of a row or an alternation as an expression is what is known of its parts together.
pub proof fn what_starts_parts_together(parts: Vec<Expr>, ctx: HirCtx)
    ensures
        start::expr_start(Expr::Concat(parts), ctx) == start::concat_start(parts@, ctx),
        start::expr_start(Expr::Alt(parts), ctx) == start::alt_start(parts@, ctx),
        parts@.len() == 0 ==> start::concat_start(parts@, ctx) == StartSet::MaybeEmpty(Set::empty()),
        parts@.len() == 0 ==> start::alt_start(parts@, ctx) == StartSet::MaybeEmpty(Set::empty()),
{
    reveal_with_fuel(start::expr_start, 2);
}

/// What is known of each kind of syntax tree. A row and an alternation have laws of their own. Of a
/// class of characters beyond ASCII each byte that can lead one is taken.
pub proof fn what_starts_a_syntax_tree(hir: HirTree)
    ensures
        match hir {
            HirTree::Empty => start::hir_start(hir) == StartSet::MaybeEmpty(Set::empty()),
            HirTree::Look => start::hir_start(hir) == StartSet::MaybeEmpty(Set::empty()),
            HirTree::Literal(bytes) => match start::hir_start(hir) {
                StartSet::Definite(set) => bytes.len() > 0 && forall|b: u8| #[trigger]
                    set.contains(b) <==> b == bytes[0],
                StartSet::MaybeEmpty(set) => bytes.len() == 0 && set == Set::<u8>::empty(),
                StartSet::Bail => false,
            },
            HirTree::Unicode(ranges) => match start::hir_start(hir) {
                StartSet::Definite(set) => forall|b: u8| #[trigger]
                    set.contains(b) <==> leads_a_class(ranges, b),
                StartSet::MaybeEmpty(_) => false,
                StartSet::Bail => forall|b: u8| !#[trigger] leads_a_class(ranges, b),
            },
            HirTree::Bytes(ranges) => match start::hir_start(hir) {
                StartSet::Definite(set) => forall|b: u8| #[trigger]
                    set.contains(b) <==> semantics::in_byte_ranges(ranges, b),
                StartSet::MaybeEmpty(_) => false,
                StartSet::Bail => forall|b: u8| !#[trigger] semantics::in_byte_ranges(ranges, b),
            },
            HirTree::Capture(sub) => start::hir_start(hir) == start::hir_start(*sub),
            HirTree::Repetition(min, sub) => if min >= 1 {
                start::hir_start(hir) == start::hir_start(*sub)
            } else {
                is_optional_of(start::hir_start(hir), start::hir_start(*sub))
            },
            HirTree::Concat(subs) => start::hir_start(hir) == start::hir_concat_start(subs),
            HirTree::Alternation(subs) => start::hir_start(hir) == start::hir_alternation_start(subs),
        },
        start::hir_concat_start(Seq::empty()) == StartSet::MaybeEmpty(Set::empty()),
        start::hir_alternation_start(Seq::empty()) == StartSet::MaybeEmpty(Set::empty()),
{
    reveal_with_fuel(start::hir_start, 2);
    reveal_with_fuel(start::hir_concat_start, 2);
    reveal_with_fuel(start::hir_alternation_start, 2);
    match hir {
        HirTree::Unicode(ranges) => {
            assert forall|b: u8| #[trigger] start::lead_bytes(ranges).contains(b)
                <==> leads_a_class(ranges, b) by {
                if leads_a_class(ranges, b) {
                    let k = choose|k: int|
                        0 <= k < ranges.len() && (((#[trigger] ranges[k]).0 as int <= b
                            <= ranges[k].1 as int && b <= 0x7F) || (ranges[k].1 as int > 0x7F
                            && 0xC2 <= b <= 0xF4));
                    assert(start::char_range_leads(ranges[k], b));
                }
            }
            if start::hir_start(hir) is Bail {
                assert forall|b: u8| !#[trigger] leads_a_class(ranges, b) by {
                    assert(!start::lead_bytes(ranges).contains(b));
                }
            }
        },
        HirTree::Bytes(ranges) => {
            if start::hir_start(hir) is Bail {
                assert forall|b: u8| !#[trigger] semantics::in_byte_ranges(ranges, b) by {
                    assert(!start::bytes_of_ranges(ranges).contains(b));
                }
            }
        },
        _ => {},
    }
}

/// Whether a class of characters can start with `b`: an ASCII character of it, or a byte that can lead
/// a character beyond ASCII where it holds one.
pub open spec fn leads_a_class(ranges: Seq<(char, char)>, b: u8) -> bool {
    exists|k: int|
        0 <= k < ranges.len() && (((#[trigger] ranges[k]).0 as int <= b <= ranges[k].1 as int && b
            <= 0x7F) || (ranges[k].1 as int > 0x7F && 0xC2 <= b <= 0xF4))
}

/// What is handed out as the start bytes of an expression: the bytes that are known to start each of
/// its matches, wherever a match is known not to be empty and there is such a byte. Nothing else is
/// handed out. The expression is taken as the options have it parsed.
pub proof fn start_bytes_are_those_known(expr: Expr, options: RegexOptions, set: Option<ByteSet>)
    requires
        call_ensures(start::byte_set_from_expr, (&expr, &options), set),
    ensures
        ({
            let ctx = HirCtx {
                unicode: options.unicode_mode,
                utf8: options.bytes_mode == BytesMode::Unicode,
            };
            match (start::expr_start(expr, ctx), set) {
                (StartSet::Definite(known), Some(bytes)) => known == bytes@ && exists|b: u8|
                    known.contains(b),
                (StartSet::Definite(known), None) => forall|b: u8| !known.contains(b),
                (_, _) => set is None,
            }
        }),
{
    if let Some(bytes) = set {
        if forall|b: u8| !bytes@.contains(b) {
            assert(bytes@ =~= Set::<u8>::empty());
        }
    }
}

} // verus!
