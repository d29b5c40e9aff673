//! Which literals a pattern requires: what each kind of expression requires, and which of several
//! sets is picked where expressions stand in a row.

use vstd::prelude::*;

use crate::engine::Regex;
use crate::expr::{Expr, LookAround};
use crate::literal::required::{self, LiteralView, RequiredLiteral};
use crate::options::{Error, RegexOptions, Result};

verus! {

/// What a set is ranked by: the length of its shortest literal in bytes. None of its literals is
/// shorter, and one of them is no longer. A set without literals ranks lowest.
pub proof fn the_rank_is_the_least_length(set: Seq<LiteralView>)
    ensures
        set.len() == 0 ==> required::shortest(set) == 0,
        forall|m: int|
            0 <= m < set.len() ==> required::shortest(set) <= vstd::utf8::encode_utf8(
                (#[trigger] set[m]).0,
            ).len(),
        set.len() > 0 ==> exists|m: int|
            0 <= m < set.len() && required::shortest(set) == vstd::utf8::encode_utf8(
                (#[trigger] set[m]).0,
            ).len(),
    decreases set.len(),
{
    if set.len() == 1 {
        assert(required::shortest(set) == vstd::utf8::encode_utf8(set[0].0).len());
    } else if set.len() > 1 {
        let rest = set.drop_last();
        the_rank_is_the_least_length(rest);
        let k = choose|k: int|
            0 <= k < rest.len() && required::shortest(rest) == vstd::utf8::encode_utf8(
                (#[trigger] rest[k]).0,
            ).len();
        assert(set[k] == rest[k]);
        let last = set.len() - 1;
        assert(set.last() == set[last]);
        assert forall|m: int| 0 <= m < set.len() implies required::shortest(set)
            <= vstd::utf8::encode_utf8((#[trigger] set[m]).0).len() by {
            if m < last {
                assert(rest[m] == set[m]);
            }
        }
        if required::byte_len(set[last]) < required::shortest(rest) {
            assert(required::shortest(set) == vstd::utf8::encode_utf8(set[last].0).len());
        } else {
            assert(required::shortest(set) == vstd::utf8::encode_utf8(set[k].0).len());
        }
    }
}

/// Whether the set at `k` is the one to pick: none ranks higher, and none behind it as high.
pub open spec fn is_pick(sets: Seq<Seq<LiteralView>>, k: int) -> bool {
    &&& 0 <= k < sets.len()
    &&& forall|i: int|
        0 <= i < sets.len() ==> required::shortest(#[trigger] sets[i]) <= required::shortest(sets[k])
    &&& forall|i: int|
        k < i < sets.len() ==> required::shortest(#[trigger] sets[i]) < required::shortest(sets[k])
}

/// Of several sets the one that ranks highest is picked, and of several such the last.
pub proof fn the_most_selective_is_picked(sets: Seq<Seq<LiteralView>>)
    ensures
        match required::most_selective(sets) {
            Some(best) => exists|k: int| #[trigger] is_pick(sets, k) && sets[k] == best,
            None => sets.len() == 0,
        },
    decreases sets.len(),
{
    if sets.len() > 0 {
        let rest = sets.drop_last();
        let last = sets.len() - 1;
        the_most_selective_is_picked(rest);
        assert(sets.last() == sets[last]);
        assert(forall|i: int| 0 <= i < rest.len() ==> #[trigger] rest[i] == sets[i]);
        if let Some(best) = required::most_selective(rest) {
            let k = choose|k: int| #[trigger] is_pick(rest, k) && rest[k] == best;
            if required::shortest(best) > required::shortest(sets[last]) {
                assert(is_pick(sets, k)) by {
                    assert forall|i: int| 0 <= i < sets.len() implies required::shortest(
                        #[trigger] sets[i],
                    ) <= required::shortest(sets[k]) by {
                        if i < last {
                            assert(rest[i] == sets[i]);
                        }
                    }
                    assert forall|i: int| k < i < sets.len() implies required::shortest(
                        #[trigger] sets[i],
                    ) < required::shortest(sets[k]) by {
                        if i < last {
                            assert(rest[i] == sets[i]);
                        }
                    }
                }
            } else {
                assert(is_pick(sets, last)) by {
                    assert forall|i: int| 0 <= i < sets.len() implies required::shortest(
                        #[trigger] sets[i],
                    ) <= required::shortest(sets[last]) by {
                        if i < last {
                            assert(rest[i] == sets[i]);
                        }
                    }
                }
            }
        } else {
            assert(is_pick(sets, last));
        }
    }
}

/// What each kind of expression requires. A row of expressions has a law of its own, and so has an
/// alternation.
pub proof fn what_an_expression_requires(expr: Expr)
    ensures
        match expr {
            Expr::Literal { val, casei } => required::required(expr) == Some(seq![(val@, casei)]),
            Expr::Group(inner) => required::required(expr) == required::required(*inner),
            Expr::AtomicGroup(inner) => required::required(expr) == required::required(*inner),
            Expr::LookAround(inner, LookAround::LookAhead) => required::required(expr)
                == required::required(*inner),
            Expr::Repeat { child, lo, .. } => if lo == 0 {
                required::required(expr) is None
            } else {
                required::required(expr) == required::required(*child)
            },
            Expr::Alt(_) => true,
            Expr::Concat(_) => true,
            _ => required::required(expr) is None,
        },
{
}

/// An alternation requires the literals of all its branches, one after the other, and nothing where
/// one branch requires nothing.
pub proof fn what_an_alternation_requires(branches: Seq<Expr>)
    ensures
        match required::required_of_each(branches) {
            Some(list) => {
                &&& forall|k: int|
                    0 <= k < branches.len() ==> required::required(#[trigger] branches[k]) is Some
                &&& list == branches.map_values(
                    |branch: Expr| required::required(branch)->Some_0,
                ).flatten()
            },
            None => exists|k: int|
                0 <= k < branches.len() && required::required(#[trigger] branches[k]) is None,
        },
    decreases branches.len(),
{
    let f = |branch: Expr| required::required(branch)->Some_0;
    let lists = branches.map_values(f);
    if branches.len() == 0 {
        assert(lists =~= Seq::empty());
    } else {
        let rest = branches.drop_last();
        let last = branches.last();
        what_an_alternation_requires(rest);
        assert(forall|k: int| 0 <= k < rest.len() ==> #[trigger] rest[k] == branches[k]);
        assert(branches[branches.len() - 1] == last);
        assert(lists =~= rest.map_values(f).push(f(last)));
        rest.map_values(f).lemma_flatten_push(f(last));
        if required::required_of_each(rest) is None {
            let k = choose|k: int|
                0 <= k < rest.len() && required::required(#[trigger] rest[k]) is None;
            assert(required::required(branches[k]) is None);
        } else if required::required(last) is None {
            assert(required::required(branches[branches.len() - 1]) is None);
        } else {
            assert forall|k: int| 0 <= k < branches.len() implies required::required(
                #[trigger] branches[k],
            ) is Some by {
                if k < rest.len() {
                    assert(required::required(rest[k]) is Some);
                }
            }
        }
    }
}

/// What an alternation as an expression requires is what its branches require together.
pub proof fn an_alternation_requires_what_its_branches_do(branches: Vec<Expr>)
    ensures
        required::required(Expr::Alt(branches)) == required::required_of_each(branches@),
{
    reveal_with_fuel(required::required, 2);
}

/// Whether `expr` is a literal that regards case as `casei` says.
pub open spec fn is_literal(expr: Expr, casei: bool) -> bool {
    expr matches Expr::Literal { casei: c, .. } && c == casei
}

/// The text of the literals from `i` to `j`, one after the other.
pub open spec fn joined(children: Seq<Expr>, i: int, j: int) -> Seq<char>
    decreases j - i,
{
    if i >= j {
        Seq::empty()
    } else {
        joined(children, i, j - 1) + children[j - 1]->Literal_val@
    }
}

/// Whether the expressions from `i` to `j` are a run: literals that regard case alike, and as many of
/// them as there are.
pub open spec fn is_run(children: Seq<Expr>, casei: bool, i: int, j: int) -> bool {
    &&& 0 <= i < j <= children.len()
    &&& forall|k: int| i <= k < j ==> is_literal(#[trigger] children[k], casei)
    &&& i == 0 || !is_literal(children[i - 1], casei)
    &&& j == children.len() || !is_literal(children[j], casei)
}

/// Whether `set` is required by what ends at `e` in a row of expressions: by a run of literals, of
/// which it is the one literal that they form, or by another expression.
pub open spec fn is_candidate(children: Seq<Expr>, e: int, set: Seq<LiteralView>) -> bool {
    ||| exists|casei: bool, i: int| #[trigger]
        is_run(children, casei, i, e) && set == seq![(joined(children, i, e), casei)]
    ||| 0 < e <= children.len() && !(children[e - 1] is Literal) && required::required(
        children[e - 1],
    ) == Some(set)
}

/// Where the candidates of the rest of a row end. `run` is the literal that ends right before the
/// rest, and `s` is where it starts.
proof fn candidate_ends(all: Seq<Expr>, i: int, s: int, run: Option<LiteralView>) -> (ends: Seq<int>)
    requires
        0 <= i <= all.len(),
        match run {
            Some((v, c)) => {
                &&& 0 <= s < i
                &&& v == joined(all, s, i)
                &&& forall|k: int| s <= k < i ==> is_literal(#[trigger] all[k], c)
                &&& s == 0 || !is_literal(all[s - 1], c)
            },
            None => i == 0 || !(all[i - 1] is Literal),
        },
    ensures
        ends.len() == required::candidates(all.skip(i), run).len(),
        forall|m: int|
            0 <= m < ends.len() ==> is_candidate(
                all,
                #[trigger] ends[m],
                required::candidates(all.skip(i), run)[m],
            ),
        forall|m: int| 0 <= m < ends.len() ==> #[trigger] ends[m] >= i,
        run is None ==> forall|m: int| 0 <= m < ends.len() ==> #[trigger] ends[m] > i,
        forall|m: int, n: int| 0 <= m < n < ends.len() ==> #[trigger] ends[m] < #[trigger] ends[n],
        forall|e: int, set: Seq<LiteralView>| #[trigger]
            is_candidate(all, e, set) && (e > i || (e == i && run is Some)) ==> exists|m: int|
                0 <= m < ends.len() && #[trigger] ends[m] == e && required::candidates(
                    all.skip(i),
                    run,
                )[m] == set,
    decreases all.len() - i,
{
    let list = required::candidates(all.skip(i), run);
    // What a run that ends here makes
    let head: Seq<Seq<LiteralView>> = required::run_set(run);
    let head_ends: Seq<int> = if run is Some {
        seq![i]
    } else {
        Seq::empty()
    };
    assert(head_ends.len() == head.len());
    // Whether the run ends here
    let closes = i == all.len() || !(run matches Some((_, c)) && is_literal(all[i], c));
    if let Some((v, c)) = run {
        if closes {
            assert(is_run(all, c, s, i));
            assert(head[0] == seq![(joined(all, s, i), c)]);
            assert(is_candidate(all, i, head[0]));
        }
        assert forall|set: Seq<LiteralView>| #[trigger] is_candidate(all, i, set) implies closes && set
            == seq![(v, c)] by {
            assert(is_literal(all[i - 1], c));
            let (casei, a) = choose|casei: bool, a: int| #[trigger]
                is_run(all, casei, a, i) && set == seq![(joined(all, a, i), casei)];
            assert(is_literal(all[i - 1], casei));
            if a < s {
                assert(is_literal(all[s - 1], c));
            } else if s < a {
                assert(is_literal(all[a - 1], c));
            }
        }
    }
    if i == all.len() {
        assert(list == head);
        assert forall|e: int, set: Seq<LiteralView>| #[trigger]
            is_candidate(all, e, set) && (e > i || (e == i && run is Some)) implies exists|m: int|
            0 <= m < head_ends.len() && #[trigger] head_ends[m] == e && list[m] == set by {
            assert(e <= all.len());
            assert(head_ends[0] == i);
        }
        head_ends
    } else {
        let rest = all.skip(i + 1);
        assert(all.skip(i).drop_first() =~= rest);
        assert(all.skip(i)[0] == all[i]);
        match all[i] {
            Expr::Literal { val, casei } => {
                match run {
                    Some((before, c)) if c == casei => {
                        let run1 = Some((before + val@, casei));
                        assert(joined(all, s, i + 1) == joined(all, s, i) + val@);
                        let ends = candidate_ends(all, i + 1, s, run1);
                        assert(list == required::candidates(rest, run1));
                        ends
                    },
                    _ => {
                        let run1 = Some((val@, casei));
                        assert(joined(all, i, i) == Seq::<char>::empty());
                        assert(joined(all, i, i + 1) =~= val@);
                        let tail_ends = candidate_ends(all, i + 1, i, run1);
                        let tail = required::candidates(rest, run1);
                        assert(list == head + tail);
                        let ends = head_ends + tail_ends;
                        ends_of_parts(all, i, head, head_ends, tail, tail_ends);
                        assert forall|e: int, set: Seq<LiteralView>| #[trigger]
                            is_candidate(all, e, set) && (e > i || (e == i && run is Some)) implies exists|
                            m: int,
                        | 0 <= m < ends.len() && #[trigger] ends[m] == e && list[m] == set by {
                            if e == i {
                                assert(ends[0] == i && list[0] == head[0]);
                            } else {
                                let m = choose|m: int|
                                    0 <= m < tail_ends.len() && #[trigger] tail_ends[m] == e
                                        && tail[m] == set;
                                assert(ends[head_ends.len() + m] == e);
                                assert(list[head.len() + m] == set);
                            }
                        }
                        ends
                    },
                }
            },
            child => {
                let own = required::as_list(required::required(child));
                let own_ends: Seq<int> = if required::required(child) is Some {
                    seq![i + 1]
                } else {
                    Seq::empty()
                };
                if required::required(child) is Some {
                    assert(is_candidate(all, i + 1, own[0]));
                }
                let tail_ends = candidate_ends(all, i + 1, 0, None);
                let tail = required::candidates(rest, None);
                assert(list == head + own + tail);
                ends_of_parts(all, i, head, head_ends, own, own_ends);
                ends_of_parts(all, i + 1, head + own, head_ends + own_ends, tail, tail_ends);
                let ends = head_ends + own_ends + tail_ends;
                assert forall|e: int, set: Seq<LiteralView>| #[trigger]
                    is_candidate(all, e, set) && (e > i || (e == i && run is Some)) implies exists|
                    m: int,
                | 0 <= m < ends.len() && #[trigger] ends[m] == e && list[m] == set by {
                    if e == i {
                        assert(ends[0] == i && list[0] == head[0]);
                    } else if e == i + 1 {
                        assert(!is_literal(all[i], true) && !is_literal(all[i], false));
                        assert(required::required(all[i]) == Some(set)) by {
                            if exists|casei: bool, a: int| #[trigger] is_run(all, casei, a, e) {
                                let (casei, a) = choose|casei: bool, a: int| #[trigger]
                                    is_run(all, casei, a, e);
                                assert(is_literal(all[e - 1], casei));
                            }
                        }
                        assert(ends[head_ends.len() as int] == e);
                        assert(list[head.len() as int] == set);
                    } else {
                        let m = choose|m: int|
                            0 <= m < tail_ends.len() && #[trigger] tail_ends[m] == e && tail[m]
                                == set;
                        assert(ends[head_ends.len() + own_ends.len() + m] == e);
                        assert(list[head.len() + own.len() + m] == set);
                    }
                }
                ends
            },
        }
    }
}

/// Candidates that end up to `i`, and others that end behind it, are candidates together.
proof fn ends_of_parts(
    all: Seq<Expr>,
    i: int,
    a: Seq<Seq<LiteralView>>,
    a_ends: Seq<int>,
    b: Seq<Seq<LiteralView>>,
    b_ends: Seq<int>,
)
    requires
        a.len() == a_ends.len(),
        b.len() == b_ends.len(),
        forall|m: int| 0 <= m < a.len() ==> is_candidate(all, #[trigger] a_ends[m], a[m]),
        forall|m: int| 0 <= m < b.len() ==> is_candidate(all, #[trigger] b_ends[m], b[m]),
        forall|m: int| 0 <= m < a.len() ==> #[trigger] a_ends[m] <= i,
        forall|m: int| 0 <= m < b.len() ==> #[trigger] b_ends[m] > i,
        forall|m: int, n: int| 0 <= m < n < a.len() ==> #[trigger] a_ends[m] < #[trigger] a_ends[n],
        forall|m: int, n: int| 0 <= m < n < b.len() ==> #[trigger] b_ends[m] < #[trigger] b_ends[n],
    ensures
        forall|m: int|
            0 <= m < (a + b).len() ==> is_candidate(
                all,
                #[trigger] (a_ends + b_ends)[m],
                (a + b)[m],
            ),
        forall|m: int, n: int|
            0 <= m < n < (a + b).len() ==> #[trigger] (a_ends + b_ends)[m] < #[trigger] (a_ends
                + b_ends)[n],
{
    let ends = a_ends + b_ends;
    assert forall|m: int| 0 <= m < (a + b).len() implies is_candidate(
        all,
        #[trigger] ends[m],
        (a + b)[m],
    ) by {
        if m < a.len() {
            assert(ends[m] == a_ends[m]);
        } else {
            assert(ends[m] == b_ends[m - a.len()]);
        }
    }
    assert forall|m: int, n: int| 0 <= m < n < (a + b).len() implies #[trigger] ends[m]
        < #[trigger] ends[n] by {
        if n < a.len() {
            assert(a_ends[m] < a_ends[n]);
        } else if m >= a.len() {
            assert(b_ends[m - a.len()] < b_ends[n - a.len()]);
        } else {
            assert(a_ends[m] <= i && b_ends[n - a.len()] > i);
        }
    }
}

/// What a row of expressions requires: one of the candidates, which are the runs of literals and what
/// the other expressions require. The length of its shortest literal is no less than that of any
/// other candidate, and greater than that of any candidate behind it. Nothing where there is no
/// candidate.
pub proof fn what_a_row_requires(children: Vec<Expr>)
    ensures
        match required::required(Expr::Concat(children)) {
            Some(best) => exists|e: int| #[trigger]
                is_candidate(children@, e, best) && forall|e1: int, set: Seq<LiteralView>| #[trigger]
                    is_candidate(children@, e1, set) ==> required::shortest(set)
                        <= required::shortest(best) && (e < e1 ==> required::shortest(set)
                        < required::shortest(best)),
            None => forall|e: int, set: Seq<LiteralView>| !#[trigger]
                is_candidate(children@, e, set),
        },
{
    let all = children@;
    let sets = required::candidates(all, None);
    assert(required::required(Expr::Concat(children)) == required::most_selective(sets)) by {
        reveal_with_fuel(required::required, 2);
    }
    assert(all.skip(0) =~= all);
    let ends = candidate_ends(all, 0, 0, None);
    the_most_selective_is_picked(sets);
    assert forall|e: int, set: Seq<LiteralView>| #[trigger] is_candidate(all, e, set) implies e > 0 by {}
    if let Some(best) = required::most_selective(sets) {
        let k = choose|k: int| #[trigger] is_pick(sets, k) && sets[k] == best;
        let e = ends[k];
        assert(is_candidate(all, e, best));
        assert forall|e1: int, set: Seq<LiteralView>| #[trigger]
            is_candidate(all, e1, set) implies required::shortest(set) <= required::shortest(best)
            && (e < e1 ==> required::shortest(set) < required::shortest(best)) by {
            let m = choose|m: int|
                0 <= m < ends.len() && #[trigger] ends[m] == e1 && sets[m] == set;
            assert(required::shortest(sets[m]) <= required::shortest(sets[k]));
            if e < e1 {
                if m < k {
                    assert(ends[m] < ends[k]);
                }
                assert(required::shortest(sets[m]) < required::shortest(sets[k]));
            }
        }
    }
}

/// The literals of a pattern are those of a tree that the parser and the rewriting of the engine
/// give, in that order.
pub proof fn literals_are_those_of_the_rewritten_tree<R: Regex>(
    pattern: &str,
    options: &RegexOptions,
    literals: Option<Vec<RequiredLiteral>>,
)
    requires
        required::can_require::<R>(pattern, options, Ok(literals)),
    ensures
        exists|parsed: Expr, expr: Expr|
            call_ensures(R::parse_tree, (pattern, options), Ok(parsed)) && #[trigger] call_ensures(
                R::optimize,
                (parsed,),
                expr,
            ) && required::required(expr) == match literals {
                Some(list) => Some(required::literals_view(list@)),
                None => None,
            },
{
    let tree = choose|tree: Result<Expr>|
        #[trigger] call_ensures(R::parse_tree, (pattern, options), tree) && match tree {
            Ok(parsed) => exists|expr: Expr|
                #[trigger] call_ensures(R::optimize, (parsed,), expr) && match literals {
                    Some(list) => required::required(expr) == Some(required::literals_view(list@)),
                    None => required::required(expr) is None,
                },
            Err(_) => false,
        };
    assert(call_ensures(R::parse_tree, (pattern, options), Ok(tree->Ok_0)));
}

/// The literals of a pattern are refused only with the error that it does not parse with.
pub proof fn literals_are_refused_by_the_parser<R: Regex>(
    pattern: &str,
    options: &RegexOptions,
    e: Error,
)
    requires
        required::can_require::<R>(pattern, options, Err(e)),
    ensures
        call_ensures(R::parse_tree, (pattern, options), Err(e)),
{
}

} // verus!
