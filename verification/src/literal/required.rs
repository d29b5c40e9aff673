//! The literals that a match must contain.

use vstd::prelude::*;
use vstd::string::StringExecFns;

use crate::engine::Regex;
use crate::expr::{Expr, LookAround};
use crate::options::{RegexOptions, Result};
use crate::semantics;
use crate::tree::HirCtx;

verus! {

/// A literal that must appear in any match, with whether it matches case-insensitively.
pub type RequiredLiteral = (String, bool);

/// What a required literal holds: its characters, and whether it matches case-insensitively.
pub type LiteralView = (Seq<char>, bool);

/// What the literals of a list hold.
pub open spec fn literals_view(literals: Seq<RequiredLiteral>) -> Seq<LiteralView> {
    literals.map_values(|literal: RequiredLiteral| (literal.0@, literal.1))
}

/// What the literals of each of several lists hold.
pub open spec fn sets_view(sets: Seq<Vec<RequiredLiteral>>) -> Seq<Seq<LiteralView>> {
    sets.map_values(|set: Vec<RequiredLiteral>| literals_view(set@))
}

/// The length of a literal in bytes.
pub open spec fn byte_len(literal: LiteralView) -> nat {
    vstd::utf8::encode_utf8(literal.0).len()
}

/// The length of the shortest literal of a set; 0 where there is none.
pub open spec fn shortest(set: Seq<LiteralView>) -> nat
    decreases set.len(),
{
    if set.len() == 0 {
        0
    } else if set.len() == 1 {
        byte_len(set[0])
    } else if byte_len(set.last()) < shortest(set.drop_last()) {
        byte_len(set.last())
    } else {
        shortest(set.drop_last())
    }
}

/// The set whose shortest literal is longest, and of several such the last.
pub open spec fn most_selective(sets: Seq<Seq<LiteralView>>) -> Option<Seq<LiteralView>>
    decreases sets.len(),
{
    if sets.len() == 0 {
        None
    } else {
        match most_selective(sets.drop_last()) {
            Some(best) => if shortest(best) > shortest(sets.last()) {
                Some(best)
            } else {
                Some(sets.last())
            },
            None => Some(sets.last()),
        }
    }
}

/// The list that holds what `item` holds, if anything.
pub open spec fn as_list<A>(item: Option<A>) -> Seq<A> {
    match item {
        Some(a) => seq![a],
        None => Seq::empty(),
    }
}

/// The candidate that a run of literals makes, if there is a run.
pub open spec fn run_set(run: Option<LiteralView>) -> Seq<Seq<LiteralView>> {
    match run {
        Some(literal) => seq![seq![literal]],
        None => Seq::empty(),
    }
}

/// The literals of which at least one must appear in any match of `expr`.
pub open spec fn required(expr: Expr) -> Option<Seq<LiteralView>>
    decreases expr,
{
    match expr {
        Expr::Literal { val, casei } => Some(seq![(val@, casei)]),
        Expr::Group(inner) => required(*inner),
        Expr::AtomicGroup(inner) => required(*inner),
        Expr::LookAround(inner, LookAround::LookAhead) => required(*inner),
        Expr::Repeat { child, lo, .. } => if lo >= 1 {
            required(*child)
        } else {
            None
        },
        Expr::Alt(branches) => required_of_each(branches@),
        Expr::Concat(children) => most_selective(candidates(children@, None)),
        _ => None,
    }
}

/// The literals of all `branches` together, or `None` where one of them has none.
pub open spec fn required_of_each(branches: Seq<Expr>) -> Option<Seq<LiteralView>>
    decreases branches,
{
    if branches.len() == 0 {
        Some(Seq::empty())
    } else {
        match (required_of_each(branches.drop_last()), required(branches.last())) {
            (Some(a), Some(b)) => Some(a + b),
            _ => None,
        }
    }
}

/// The candidate sets of `children` in a row, where `run` is the literal that ends right before
/// them. Adjacent literals that regard case alike form one literal.
pub open spec fn candidates(children: Seq<Expr>, run: Option<LiteralView>) -> Seq<Seq<LiteralView>>
    decreases children,
{
    if children.len() == 0 {
        run_set(run)
    } else {
        let rest = children.drop_first();
        match children[0] {
            Expr::Literal { val, casei } => match run {
                Some((before, c)) if c == casei => candidates(rest, Some((before + val@, casei))),
                _ => run_set(run) + candidates(rest, Some((val@, casei))),
            },
            child => run_set(run) + as_list(required(child)) + candidates(rest, None),
        }
    }
}

/// The list of `literal` alone.
fn singleton(literal: RequiredLiteral) -> (list: Vec<RequiredLiteral>)
    ensures
        literals_view(list@) == seq![(literal.0@, literal.1)],
{
    let mut list: Vec<RequiredLiteral> = Vec::new();
    list.push(literal);
    assert(literals_view(list@) =~= seq![(literal.0@, literal.1)]);
    list
}

/// The length of `s` in bytes.
pub(crate) fn str_byte_len(s: &str) -> (n: usize)
    ensures
        n == vstd::utf8::encode_utf8(s@).len(),
{
    s.as_bytes().len()
}

/// The length of the shortest literal of `set`.
fn shortest_len(set: &Vec<RequiredLiteral>) -> (n: usize)
    ensures
        n == shortest(literals_view(set@)),
{
    let ghost view = literals_view(set@);
    if set.len() == 0 {
        return 0;
    }
    let mut min: usize = str_byte_len(set[0].0.as_str());
    let mut i: usize = 1;
    while i < set.len()
        invariant
            1 <= i <= set@.len(),
            view == literals_view(set@),
            min == shortest(view.take(i as int)),
        decreases set@.len() - i,
    {
        let n: usize = str_byte_len(set[i].0.as_str());
        if n < min {
            min = n;
        }
        assert(view.take(i + 1).drop_last() =~= view.take(i as int));
        i += 1;
    }
    assert(view.take(i as int) =~= view);
    min
}

/// The set whose shortest literal is longest, and of several such the last.
fn pick_most_selective(sets: Vec<Vec<RequiredLiteral>>) -> (best: Option<Vec<RequiredLiteral>>)
    ensures
        match best {
            Some(set) => most_selective(sets_view(sets@)) == Some(literals_view(set@)),
            None => most_selective(sets_view(sets@)) is None,
        },
{
    let mut sets = sets;
    let ghost view = sets_view(sets@);
    if sets.len() == 0 {
        return None;
    }
    let mut best: usize = 0;
    let mut i: usize = 1;
    assert(most_selective(view.take(1)) == Some(view[0])) by {
        assert(view.take(1).drop_last() =~= Seq::<Seq<LiteralView>>::empty());
        assert(most_selective(view.take(1).drop_last()) is None);
    }
    while i < sets.len()
        invariant
            1 <= i <= sets@.len(),
            best < i,
            view == sets_view(sets@),
            most_selective(view.take(i as int)) == Some(view[best as int]),
        decreases sets@.len() - i,
    {
        assert(view.take(i + 1).drop_last() =~= view.take(i as int));
        if shortest_len(&sets[best]) <= shortest_len(&sets[i]) {
            best = i;
        }
        i += 1;
    }
    assert(view.take(i as int) =~= view);
    Some(sets.swap_remove(best))
}

/// Literals of which at least one must appear in any match of `expr`, or `None` when no such
/// set can be established. The analysis is conservative: every construct it does not
/// understand contributes nothing, so the result is only ever weaker than the truth.
pub fn required_literals(expr: &Expr) -> (literals: Option<Vec<RequiredLiteral>>)
    ensures
        match literals {
            Some(list) => required(*expr) == Some(literals_view(list@)),
            None => required(*expr) is None,
        },
    decreases *expr,
{
    match expr {
        Expr::Literal { val, casei } => Some(singleton((val.clone(), *casei))),
        Expr::Group(inner) => required_literals(inner),
        Expr::AtomicGroup(inner) => required_literals(inner),
        // A positive lookahead must match at this position, so its literal is in the text
        Expr::LookAround(inner, LookAround::LookAhead) => required_literals(inner),
        Expr::Repeat { child, lo, .. } => if *lo >= 1 {
            required_literals(child)
        } else {
            None
        },
        // Every branch must contribute, otherwise nothing is required
        Expr::Alt(branches) => {
            let mut out: Vec<RequiredLiteral> = Vec::new();
            let mut i: usize = 0;
            assert(literals_view(out@) =~= Seq::<LiteralView>::empty());
            while i < branches.len()
                invariant
                    i <= branches@.len(),
                    *expr == Expr::Alt(*branches),
                    required_of_each(branches@.take(i as int)) == Some(literals_view(out@)),
                decreases branches@.len() - i,
            {
                proof {
                    assert(branches@.take(i + 1).drop_last() =~= branches@.take(i as int));
                    assert(decreases_to!(*expr => expr->Alt_0@[i as int]));
                }
                match required_literals(&branches[i]) {
                    Some(list) => {
                        let mut list = list;
                        let ghost a = out@;
                        let ghost b = list@;
                        out.append(&mut list);
                        assert(literals_view(a + b) =~= literals_view(a) + literals_view(b));
                    },
                    None => {
                        proof {
                            each_branch_is_needed(branches@, i as int);
                        }
                        return None;
                    },
                }
                i += 1;
            }
            assert(branches@.take(i as int) =~= branches@);
            Some(out)
        },
        // Runs of adjacent literals form one literal. Among all candidates keep the most
        // selective set: the one whose shortest literal is longest.
        Expr::Concat(children) => {
            let mut sets: Vec<Vec<RequiredLiteral>> = Vec::new();
            let mut run: Option<RequiredLiteral> = None;
            let mut i: usize = 0;
            let ghost all = candidates(children@, None);
            proof {
                assert(children@.skip(0) =~= children@);
                assert(sets_view(sets@) + all =~= all);
            }
            while i < children.len()
                invariant
                    i <= children@.len(),
                    *expr == Expr::Concat(*children),
                    all == sets_view(sets@) + candidates(children@.skip(i as int), run_view(run)),
                decreases children@.len() - i,
            {
                let ghost before = sets_view(sets@);
                let ghost rest = children@.skip(i + 1);
                proof {
                    assert(children@.skip(i as int)[0] == children@[i as int]);
                    assert(children@.skip(i as int).drop_first() =~= rest);
                }
                if let Expr::Literal { val, casei } = &children[i] {
                    match run {
                        Some((mut s, c)) => {
                            if c == *casei {
                                s.append(val.as_str());
                                run = Some((s, c));
                            } else {
                                push_set(&mut sets, singleton((s, c)));
                                run = Some((val.clone(), *casei));
                                assert(all =~= sets_view(sets@) + candidates(rest, run_view(run)));
                            }
                        },
                        None => {
                            run = Some((val.clone(), *casei));
                            assert(all =~= sets_view(sets@) + candidates(rest, run_view(run)));
                        },
                    }
                } else {
                    assert(decreases_to!(*expr => expr->Concat_0@[i as int]));
                    if let Some(literal) = run {
                        push_set(&mut sets, singleton(literal));
                    }
                    run = None;
                    if let Some(list) = required_literals(&children[i]) {
                        push_set(&mut sets, list);
                    }
                    assert(all =~= sets_view(sets@) + candidates(rest, run_view(run)));
                }
                i += 1;
            }
            if let Some(literal) = run {
                push_set(&mut sets, singleton(literal));
            }
            assert(all =~= sets_view(sets@));
            pick_most_selective(sets)
        },
        _ => None,
    }
}

/// Whether `literals` can be what a pattern requires: it parses, and its rewritten tree requires
/// them.
pub open spec fn can_require<R: Regex>(
    pattern: &str,
    options: &RegexOptions,
    literals: Result<Option<Vec<RequiredLiteral>>>,
) -> bool {
    exists|tree: Result<Expr>|
        #[trigger] call_ensures(R::parse_tree, (pattern, options), tree) && match tree {
            Ok(parsed) => exists|expr: Expr|
                #[trigger] call_ensures(R::optimize, (parsed,), expr) && match literals {
                    Ok(Some(list)) => required(expr) == Some(literals_view(list@)),
                    Ok(None) => required(expr) is None,
                    Err(_) => false,
                },
            Err(e) => literals == Err::<Option<Vec<RequiredLiteral>>, crate::options::Error>(e),
        }
}

/// The required literals of `pattern` under `options`, without compiling it. Analyzes the
/// same rewritten tree that is compiled.
pub fn required_literals_of<R: Regex>(pattern: &str, options: &RegexOptions) -> (literals: Result<
    Option<Vec<RequiredLiteral>>,
>)
    ensures
        can_require::<R>(pattern, options, literals),
{
    let tree = R::parse_tree(pattern, options);
    assert(call_ensures(R::parse_tree, (pattern, options), tree));
    match tree {
        Ok(parsed) => {
            let expr = R::optimize(parsed);
            assert(call_ensures(R::optimize, (parsed,), expr));
            Ok(required_literals(&expr))
        },
        Err(e) => Err(e),
    }
}

/// What the literal of a run holds.
spec fn run_view(run: Option<RequiredLiteral>) -> Option<LiteralView> {
    match run {
        Some(literal) => Some((literal.0@, literal.1)),
        None => None,
    }
}

/// Adds a candidate set.
fn push_set(sets: &mut Vec<Vec<RequiredLiteral>>, set: Vec<RequiredLiteral>)
    ensures
        sets_view(final(sets)@) == sets_view(old(sets)@).push(literals_view(set@)),
{
    sets.push(set);
    assert(sets_view(sets@) =~= sets_view(old(sets)@).push(literals_view(set@)));
}

/// One branch without literals leaves the alternation without.
proof fn each_branch_is_needed(branches: Seq<Expr>, k: int)
    requires
        0 <= k < branches.len(),
        required(branches[k]) is None,
    ensures
        required_of_each(branches) is None,
    decreases branches.len(),
{
    if k < branches.len() - 1 {
        assert(branches.drop_last()[k] == branches[k]);
        each_branch_is_needed(branches.drop_last(), k);
    }
}

/// `literal` stands in `hay` at `i` or later.
pub open spec fn occurs_from(literal: LiteralView, hay: Seq<u8>, i: int) -> bool {
    exists|p: int, q: int|
        i <= p && #[trigger] semantics::literal_at(literal.0, literal.1, hay, p, q)
}

/// One of the literals of `set` stands in `hay` at `i` or later.
pub open spec fn some_occurs_from(set: Seq<LiteralView>, hay: Seq<u8>, i: int) -> bool {
    exists|m: int| 0 <= m < set.len() && occurs_from(#[trigger] set[m], hay, i)
}

/// What occurs from `k` on occurs from an earlier `i` on.
proof fn occurs_earlier(set: Seq<LiteralView>, hay: Seq<u8>, i: int, k: int)
    requires
        i <= k,
        some_occurs_from(set, hay, k),
    ensures
        some_occurs_from(set, hay, i),
{
    let m = choose|m: int| 0 <= m < set.len() && occurs_from(#[trigger] set[m], hay, k);
    let (p, q) = choose|p: int, q: int|
        k <= p && #[trigger] semantics::literal_at(set[m].0, set[m].1, hay, p, q);
    assert(occurs_from(set[m], hay, i));
}

/// The set that is picked is one of the sets.
proof fn most_selective_is_one(sets: Seq<Seq<LiteralView>>)
    ensures
        most_selective(sets) matches Some(set) ==> sets.contains(set),
    decreases sets.len(),
{
    if sets.len() > 0 {
        most_selective_is_one(sets.drop_last());
        assert(sets[sets.len() - 1] == sets.last());
        if let Some(best) = most_selective(sets.drop_last()) {
            let k = choose|k: int| 0 <= k < sets.drop_last().len() && sets.drop_last()[k] == best;
            assert(sets[k] == best);
        }
    }
}

/// Where all branches together have literals, those of each branch are among them.
proof fn branch_literals_are_kept(branches: Seq<Expr>, k: int, hay: Seq<u8>, i: int)
    requires
        0 <= k < branches.len(),
        required_of_each(branches) is Some,
    ensures
        required(branches[k]) is Some,
        some_occurs_from(required(branches[k])->Some_0, hay, i) ==> some_occurs_from(
            required_of_each(branches)->Some_0,
            hay,
            i,
        ),
    decreases branches.len(),
{
    let a = required_of_each(branches.drop_last())->Some_0;
    let b = required(branches.last())->Some_0;
    if k < branches.len() - 1 {
        assert(branches.drop_last()[k] == branches[k]);
        branch_literals_are_kept(branches.drop_last(), k, hay, i);
        if some_occurs_from(a, hay, i) {
            let m = choose|m: int| 0 <= m < a.len() && occurs_from(#[trigger] a[m], hay, i);
            assert((a + b)[m] == a[m]);
        }
    } else if some_occurs_from(b, hay, i) {
        let m = choose|m: int| 0 <= m < b.len() && occurs_from(#[trigger] b[m], hay, i);
        assert((a + b)[a.len() + m] == b[m]);
    }
}

/// A match contains one of the required literals: where `expr` matches from `i` on, one of them
/// stands at `i` or later. It may stand beyond the end of the match, in a lookahead.
pub proof fn a_required_literal_occurs(expr: Expr, ctx: HirCtx, hay: Seq<u8>, i: int, j: int)
    requires
        semantics::can_match(expr, ctx, hay, i, j),
        required(expr) is Some,
    ensures
        some_occurs_from(required(expr)->Some_0, hay, i),
    decreases expr,
{
    match expr {
        Expr::Literal { val, casei } => {
            let set: Seq<LiteralView> = seq![(val@, casei)];
            assert(semantics::literal_at(set[0].0, set[0].1, hay, i, j));
            assert(occurs_from(set[0], hay, i));
        },
        Expr::Group(inner) => a_required_literal_occurs(*inner, ctx, hay, i, j),
        Expr::AtomicGroup(inner) => a_required_literal_occurs(*inner, ctx, hay, i, j),
        Expr::LookAround(inner, LookAround::LookAhead) => {
            let k = choose|k: int|
                #[trigger] semantics::between(i, k, hay.len() as int) && semantics::can_match(
                    *inner,
                    ctx,
                    hay,
                    i,
                    k,
                );
            a_required_literal_occurs(*inner, ctx, hay, i, k);
        },
        Expr::Repeat { child, lo, hi, .. } => {
            let n = choose|n: nat|
                #[trigger] semantics::is_count(lo as int, n, hi as int) && semantics::repeats(
                    *child,
                    n,
                    ctx,
                    hay,
                    i,
                    j,
                );
            let k = choose|k: int|
                #[trigger] semantics::between(i, k, j) && semantics::can_match(
                    *child,
                    ctx,
                    hay,
                    i,
                    k,
                ) && semantics::repeats(*child, (n - 1) as nat, ctx, hay, k, j);
            a_required_literal_occurs(*child, ctx, hay, i, k);
        },
        Expr::Alt(branches) => {
            let k = choose|k: int|
                0 <= k < branches@.len() && semantics::can_match(
                    #[trigger] branches@[k],
                    ctx,
                    hay,
                    i,
                    j,
                );
            branch_literals_are_kept(branches@, k, hay, i);
            assert(decreases_to!(expr => expr->Alt_0@[k]));
            a_required_literal_occurs(branches@[k], ctx, hay, i, j);
        },
        Expr::Concat(children) => {
            let sets = candidates(children@, None);
            assert(decreases_to!(expr => expr->Concat_0@));
            each_candidate_occurs(children@, ctx, hay, i, i, j, None, i);
            most_selective_is_one(sets);
            let set = required(expr)->Some_0;
            let k = choose|k: int| 0 <= k < sets.len() && sets[k] == set;
            assert(some_occurs_from(sets[k], hay, i));
        },
        _ => {},
    }
}

/// Of each candidate of a row of expressions one literal occurs where the row matches. The literal
/// of `run` stands right before the row, from `s` to `k`.
proof fn each_candidate_occurs(
    children: Seq<Expr>,
    ctx: HirCtx,
    hay: Seq<u8>,
    i: int,
    k: int,
    j: int,
    run: Option<LiteralView>,
    s: int,
)
    requires
        i <= s <= k,
        semantics::concat_can_match(children, ctx, hay, k, j),
        run matches Some(literal) ==> semantics::literal_at(literal.0, literal.1, hay, s, k),
    ensures
        forall|m: int|
            0 <= m < candidates(children, run).len() ==> some_occurs_from(
                #[trigger] candidates(children, run)[m],
                hay,
                i,
            ),
    decreases children,
{
    let sets = candidates(children, run);
    if let Some(literal) = run {
        let set: Seq<LiteralView> = seq![literal];
        assert(semantics::literal_at(set[0].0, set[0].1, hay, s, k));
        assert(occurs_from(set[0], hay, i));
        assert(some_occurs_from(set, hay, i));
        assert(run_set(run)[0] == set);
    }
    if children.len() == 0 {
        assert(sets == run_set(run));
    } else {
        let rest = children.drop_first();
        let e = choose|e: int|
            #[trigger] semantics::between(k, e, j) && semantics::can_match(
                children[0],
                ctx,
                hay,
                k,
                e,
            ) && semantics::concat_can_match(rest, ctx, hay, e, j);
        match children[0] {
            Expr::Literal { val, casei } => {
                match run {
                    Some((before, c)) if c == casei => {
                        semantics::adjacent_literals(before, val@, casei, hay, s, k, e);
                        let run1 = Some((before + val@, casei));
                        each_candidate_occurs(rest, ctx, hay, i, e, j, run1, s);
                        assert(sets == candidates(rest, run1));
                    },
                    _ => {
                        let run1 = Some((val@, casei));
                        each_candidate_occurs(rest, ctx, hay, i, e, j, run1, k);
                        let tail = candidates(rest, run1);
                        assert(sets == run_set(run) + tail);
                        assert forall|m: int| 0 <= m < sets.len() implies some_occurs_from(
                            #[trigger] sets[m],
                            hay,
                            i,
                        ) by {
                            if m < run_set(run).len() {
                                assert(sets[m] == run_set(run)[m]);
                            } else {
                                assert(sets[m] == tail[m - run_set(run).len()]);
                            }
                        }
                    },
                }
            },
            child => {
                each_candidate_occurs(rest, ctx, hay, i, e, j, None, e);
                if required(child) is Some {
                    a_required_literal_occurs(children[0], ctx, hay, k, e);
                    occurs_earlier(required(child)->Some_0, hay, i, k);
                }
                let head = run_set(run) + as_list(required(child));
                let tail = candidates(rest, None);
                assert forall|m: int| 0 <= m < sets.len() implies some_occurs_from(
                    #[trigger] sets[m],
                    hay,
                    i,
                ) by {
                    if m < run_set(run).len() {
                        assert(sets[m] == run_set(run)[m]);
                    } else if m < head.len() {
                        assert(sets[m] == as_list(required(child))[m - run_set(run).len()]);
                    } else {
                        assert(sets[m] == tail[m - head.len()]);
                    }
                }
            },
        }
    }
}

/// A list of literals is seen as the characters of each, in order, and whether it matches in any case.
pub proof fn literals_are_seen_as_they_stand(literals: Seq<RequiredLiteral>, k: int)
    requires
        0 <= k < literals.len(),
    ensures
        literals_view(literals).len() == literals.len(),
        literals_view(literals)[k].0 == literals[k].0@,
        literals_view(literals)[k].1 == literals[k].1,
{
}

} // verus!
