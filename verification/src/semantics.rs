//! What an expression can match.
//!
//! `can_match` and `hir_can_match` hold of every piece of the haystack that an expression matches.
//! Where a construct depends on more than the text that it matches (an assertion, a backreference,
//! a negative lookaround), they leave that condition out and hold of more: what follows from
//! them follows from a match.

use vstd::prelude::*;

use crate::expr::{Expr, LookAround};
use crate::fold;
use crate::text;
use crate::tree::{self, HirCtx, HirTree};

verus! {

/// `text` is the literal `val`, character by character, in any case where `casei` says so.
pub open spec fn spells(val: Seq<char>, casei: bool, text: Seq<char>) -> bool {
    &&& text.len() == val.len()
    &&& forall|k: int|
        #![trigger text[k]]
        #![trigger val[k]]
        0 <= k < val.len() ==> if casei {
            fold::folds_to(val[k], text[k])
        } else {
            text[k] == val[k]
        }
}

/// `piece` is the encoding of a text that is the literal `val`.
pub open spec fn encodes_literal(val: Seq<char>, casei: bool, piece: Seq<u8>) -> bool {
    exists|text: Seq<char>|
        #[trigger] spells(val, casei, text) && vstd::utf8::encode_utf8(text) == piece
}

/// The literal `val` stands in `hay` from `i` to `j`.
pub open spec fn literal_at(val: Seq<char>, casei: bool, hay: Seq<u8>, i: int, j: int) -> bool {
    0 <= i <= j <= hay.len() && encodes_literal(val, casei, hay.subrange(i, j))
}

/// `k` lies between `i` and `j`.
pub open spec fn between(i: int, k: int, j: int) -> bool {
    i <= k <= j
}

/// `n` repetitions are neither too few nor too many: `hi` is `usize::MAX` for no bound.
pub open spec fn is_count(lo: int, n: nat, hi: int) -> bool {
    lo <= n && (n <= hi || hi == usize::MAX)
}

/// Whether a syntax tree of `regex_syntax` can match `hay` from `i` to `j`.
pub open spec fn hir_can_match(tree: HirTree, hay: Seq<u8>, i: int, j: int) -> bool
    decreases tree, 0nat,
{
    &&& 0 <= i <= j <= hay.len()
    &&& match tree {
        HirTree::Empty => i == j,
        HirTree::Look => i == j,
        HirTree::Literal(bytes) => hay.subrange(i, j) == bytes,
        HirTree::Unicode(ranges) => exists|c: char|
            fold::in_char_ranges(ranges, c) && hay.subrange(i, j) == #[trigger] text::char_bytes(c),
        HirTree::Bytes(ranges) => j == i + 1 && in_byte_ranges(ranges, hay[i]),
        HirTree::Capture(sub) => hir_can_match(*sub, hay, i, j),
        HirTree::Repetition(min, sub) => exists|n: nat|
            #[trigger] is_count(min as int, n, usize::MAX as int) && hir_repeats(*sub, n, hay, i, j),
        HirTree::Concat(subs) => hir_concat_can_match(subs, hay, i, j),
        HirTree::Alternation(subs) => exists|k: int|
            0 <= k < subs.len() && hir_can_match(#[trigger] subs[k], hay, i, j),
    }
}

/// Whether one of the inclusive `ranges` holds `b`.
pub open spec fn in_byte_ranges(ranges: Seq<(u8, u8)>, b: u8) -> bool {
    exists|k: int| 0 <= k < ranges.len() && (#[trigger] ranges[k]).0 <= b <= ranges[k].1
}

/// Whether `n` matches of `tree` in a row can take up `hay` from `i` to `j`.
pub open spec fn hir_repeats(tree: HirTree, n: nat, hay: Seq<u8>, i: int, j: int) -> bool
    decreases tree, n + 1,
{
    if n == 0 {
        i == j
    } else {
        exists|k: int|
            #[trigger] between(i, k, j) && hir_can_match(tree, hay, i, k) && hir_repeats(
                tree,
                (n - 1) as nat,
                hay,
                k,
                j,
            )
    }
}

/// Whether matches of `subs` in a row can take up `hay` from `i` to `j`.
pub open spec fn hir_concat_can_match(subs: Seq<HirTree>, hay: Seq<u8>, i: int, j: int) -> bool
    decreases subs, 0nat,
{
    if subs.len() == 0 {
        i == j
    } else {
        exists|k: int|
            #[trigger] between(i, k, j) && hir_can_match(subs[0], hay, i, k) && hir_concat_can_match(
                subs.drop_first(),
                hay,
                k,
                j,
            )
    }
}

/// Whether `expr` can match `hay` from `i` to `j`. A lookahead can look beyond `j`.
pub open spec fn can_match(expr: Expr, ctx: HirCtx, hay: Seq<u8>, i: int, j: int) -> bool
    decreases expr, 0nat,
{
    &&& 0 <= i <= j <= hay.len()
    &&& match expr {
        Expr::Empty => i == j,
        Expr::Assertion(_) => i == j,
        Expr::KeepOut => i == j,
        Expr::ContinueFromPreviousMatchEnd => i == j,
        Expr::Literal { val, casei } => literal_at(val@, casei, hay, i, j),
        Expr::Delegate { .. } => match tree::delegate_tree(expr, ctx) {
            Some(hir) => hir_can_match(hir, hay, i, j),
            None => true,
        },
        Expr::Group(child) => can_match(*child, ctx, hay, i, j),
        Expr::AtomicGroup(child) => can_match(*child, ctx, hay, i, j),
        Expr::Concat(children) => concat_can_match(children@, ctx, hay, i, j),
        Expr::Alt(branches) => exists|k: int|
            0 <= k < branches@.len() && can_match(#[trigger] branches@[k], ctx, hay, i, j),
        Expr::Repeat { child, lo, hi, .. } => exists|n: nat|
            #[trigger] is_count(lo as int, n, hi as int) && repeats(
                *child,
                n,
                ctx,
                hay,
                i,
                j,
            ),
        Expr::LookAround(child, LookAround::LookAhead) => i == j && exists|k: int|
            #[trigger] between(i, k, hay.len() as int) && can_match(*child, ctx, hay, i, k),
        Expr::LookAround(_, _) => i == j,
        _ => true,
    }
}

/// Whether `n` matches of `expr` in a row can take up `hay` from `i` to `j`.
pub open spec fn repeats(expr: Expr, n: nat, ctx: HirCtx, hay: Seq<u8>, i: int, j: int) -> bool
    decreases expr, n + 1,
{
    if n == 0 {
        i == j
    } else {
        exists|k: int|
            #[trigger] between(i, k, j) && can_match(expr, ctx, hay, i, k) && repeats(
                expr,
                (n - 1) as nat,
                ctx,
                hay,
                k,
                j,
            )
    }
}

/// Whether matches of `exprs` in a row can take up `hay` from `i` to `j`.
pub open spec fn concat_can_match(exprs: Seq<Expr>, ctx: HirCtx, hay: Seq<u8>, i: int, j: int) -> bool
    decreases exprs, 0nat,
{
    if exprs.len() == 0 {
        i == j
    } else {
        exists|k: int|
            #[trigger] between(i, k, j) && can_match(exprs[0], ctx, hay, i, k) && concat_can_match(
                exprs.drop_first(),
                ctx,
                hay,
                k,
                j,
            )
    }
}

/// Two literals that stand one after the other, with the same regard for case, are one literal.
pub proof fn adjacent_literals(
    a: Seq<char>,
    b: Seq<char>,
    casei: bool,
    hay: Seq<u8>,
    i: int,
    k: int,
    j: int,
)
    requires
        literal_at(a, casei, hay, i, k),
        literal_at(b, casei, hay, k, j),
    ensures
        literal_at(a + b, casei, hay, i, j),
{
    let s = choose|text: Seq<char>|
        #[trigger] spells(a, casei, text) && vstd::utf8::encode_utf8(text) == hay.subrange(i, k);
    let t = choose|text: Seq<char>|
        #[trigger] spells(b, casei, text) && vstd::utf8::encode_utf8(text) == hay.subrange(k, j);
    text::encoding_of_concatenation(s, t);
    assert(hay.subrange(i, j) =~= hay.subrange(i, k) + hay.subrange(k, j));
    assert forall|m: int| 0 <= m < (a + b).len() implies if casei {
        fold::folds_to((a + b)[m], #[trigger] (s + t)[m])
    } else {
        (s + t)[m] == (a + b)[m]
    } by {
        if m < a.len() {
            assert((s + t)[m] == s[m]);
        } else {
            assert((s + t)[m] == t[m - a.len()]);
        }
    }
    assert(spells(a + b, casei, s + t));
}

} // verus!
