//! What a search for many patterns finds: the match that starts first, and of several at one
//! position that of the pattern with the lowest number. That patterns with start bytes are tried at
//! few positions only makes no difference.

use std::sync::Arc;

use vstd::prelude::*;

use crate::engine::{Regex, RegexInput, RegexSetMatch};
use crate::expr::Expr;
use crate::lazy::candidates;
use crate::lazy::finder::{self, Finder};
use crate::lazy::regex::LazyRegex;
use crate::lazy::start;
use crate::options::{Error, Result};
use crate::semantics;
use crate::tree::HirCtx;

verus! {

/// Where each pattern matches: the match of a pattern, by its number, at a position.
pub type Hits = spec_fn(int, int) -> Option<RegexSetMatch>;

/// Whether `p` is one of the positions of a search that comes from `pos` on: all that follow
/// it, or `pos` alone where the search is anchored.
pub open spec fn is_position(input: RegexInput, pos: int, p: int) -> bool
    decreases
            (if pos < input.end {
                input.end - pos
            } else {
                0
            }),
{
    p == pos || (pos < input.end && !input.anchored && is_position(
        input,
        input.next_position(pos),
        p,
    ))
}

/// Whether each match bears the number of its pattern and starts where it is found.
pub open spec fn are_placed(hits: Hits) -> bool {
    forall|i: int, p: int|
        #[trigger] hits(i, p) matches Some(m) ==> m.pattern_index == i && m.start == p
}

/// Whether the engine, wherever it does not fail, matches the patterns where `hits` has them match.
pub open spec fn engine_agrees<R: Regex>(
    patterns: Seq<Arc<LazyRegex<R>>>,
    input: RegexInput,
    hits: Hits,
) -> bool {
    forall|i: usize, pos: usize, regex: Arc<R>, m: Option<RegexSetMatch>|
        i < patterns.len() && patterns[i as int].can_be(Ok(regex)) && #[trigger] call_ensures(
            R::match_at,
            (&*regex, i, &input, pos),
            Ok(m),
        ) ==> m == hits(i as int, pos as int)
}

/// Whether a pattern with start bytes matches only where one of them stands.
pub open spec fn starts_hold<R: Regex>(
    patterns: Seq<Arc<LazyRegex<R>>>,
    input: RegexInput,
    hits: Hits,
) -> bool {
    forall|i: int, p: int|
        0 <= i < patterns.len() && #[trigger] hits(i, p) is Some && is_position(
            input,
            input.start as int,
            p,
        ) ==> starts_in(patterns[i].start_set(), input, p)
}

/// Whether, where there are start bytes, one of them stands at `p`.
pub open spec fn starts_in(set: Option<Set<u8>>, input: RegexInput, p: int) -> bool {
    set matches Some(bytes) ==> 0 <= p < input.end && bytes.contains(input.haystack@[p])
}

/// Whether `i` is the number of a pattern; where `rest` says so, of one without start bytes.
pub open spec fn counts<R: Regex>(
    patterns: Seq<Arc<LazyRegex<R>>>,
    rest: bool,
    i: int,
) -> bool {
    0 <= i < patterns.len() && (rest ==> patterns[i].start_set() is None)
}

/// Whether `hit` is the match that starts first, and of several at one position that of the pattern
/// with the lowest number; `None` where no pattern matches.
pub open spec fn is_first<R: Regex>(
    patterns: Seq<Arc<LazyRegex<R>>>,
    rest: bool,
    input: RegexInput,
    hits: Hits,
    hit: Option<RegexSetMatch>,
) -> bool {
    let from = input.start as int;
    match hit {
        Some(m) => {
            &&& counts(patterns, rest, m.pattern_index as int)
            &&& is_position(input, from, m.start as int)
            &&& hits(m.pattern_index as int, m.start as int) == Some(m)
            &&& forall|i: int, p: int|
                counts(patterns, rest, i) && is_position(input, from, p) && #[trigger] hits(
                    i,
                    p,
                ) is Some ==> m.start < p || (m.start == p && m.pattern_index <= i)
        },
        None => forall|i: int, p: int|
            counts(patterns, rest, i) && is_position(input, from, p) ==> #[trigger] hits(i, p) is None,
    }
}

/// Whether `first` is the first match among the members of a set, numbered by their places in it:
/// member `k` is the pattern numbered `places[k]`.
pub open spec fn is_first_member(
    places: Seq<usize>,
    input: RegexInput,
    hits: Hits,
    first: Option<RegexSetMatch>,
) -> bool {
    let from = input.start as int;
    match first {
        Some(m) => {
            &&& m.pattern_index < places.len()
            &&& is_position(input, from, m.start as int)
            &&& hits(places[m.pattern_index as int] as int, m.start as int) matches Some(h)
                && h.end == m.end
            &&& forall|k: int, p: int|
                0 <= k < places.len() && is_position(input, from, p) && #[trigger] hits(
                    places[k] as int,
                    p,
                ) is Some ==> m.start < p || (m.start == p && m.pattern_index <= k)
        },
        None => forall|k: int, p: int|
            0 <= k < places.len() && is_position(input, from, p) ==> #[trigger] hits(
                places[k] as int,
                p,
            ) is None,
    }
}

/// Whether a search of the engine for a set, wherever it does not fail, gives the first match among
/// its members.
pub open spec fn set_finds_the_first<R: Regex>(
    set: R::Set,
    places: Seq<usize>,
    input: RegexInput,
    hits: Hits,
) -> bool {
    &&& forall|matches: R::Matches, first: Option<Result<RegexSetMatch>>|
        call_ensures(R::set_find_input, (&set, &input), Ok(Some(matches)))
            && #[trigger] call_ensures(R::first_match, (matches,), first) ==> match first {
            Some(Ok(m)) => is_first_member(places, input, hits, Some(m)),
            Some(Err(_)) => true,
            None => is_first_member(places, input, hits, None),
        }
    &&& call_ensures(R::set_find_input, (&set, &input), Ok(None)) ==> is_first_member(
        places,
        input,
        hits,
        None,
    )
}

/// Whether a search for the patterns without start bytes, wherever it does not fail, finds the first
/// match among them.
pub open spec fn set_agrees<R: Regex>(
    finder: Finder<R>,
    patterns: Seq<Arc<LazyRegex<R>>>,
    input: RegexInput,
    hits: Hits,
) -> bool {
    finder.rest() matches Some(rest) ==> set_finds_the_first::<R>(
        rest.whole(),
        rest.places(),
        input,
        hits,
    )
}

/// The first match among the members of the set is the first among the patterns without start bytes.
proof fn the_set_finds_the_first<R: Regex>(
    finder: Finder<R>,
    patterns: Seq<Arc<LazyRegex<R>>>,
    input: RegexInput,
    hits: Hits,
    hit: Option<RegexSetMatch>,
)
    requires
        finder.is_for(patterns),
        patterns.len() <= usize::MAX,
        are_placed(hits),
        finder.rest() is Some,
        set_agrees(finder, patterns, input, hits),
        finder::set_can_find::<R>(
            finder.rest()->Some_0.whole(),
            finder.rest()->Some_0.places(),
            input,
            Ok(hit),
        ),
    ensures
        is_first(patterns, true, input, hits, hit),
{
    let rest = finder.rest()->Some_0;
    let places = rest.places();
    let sets = finder::start_sets(patterns);
    let from = input.start as int;
    candidates::gaps_are_listed(sets);
    finder::a_set_match_bears_its_place::<R>(rest.whole(), places, input, hit);
    let first: Option<RegexSetMatch> = match hit {
        Some(h) => {
            let (matches, m) = choose|matches: R::Matches, m: RegexSetMatch|
                call_ensures(R::set_find_input, (&rest.whole(), &input), Ok(Some(matches)))
                    && #[trigger] call_ensures(R::first_match, (matches,), Some(Ok(m)))
                    && h.pattern_index == places[m.pattern_index as int] && h.start == m.start
                    && h.end == m.end;
            Some(m)
        },
        None => None,
    };
    assert(is_first_member(places, input, hits, first));
    assert forall|i: int| counts(patterns, true, i) implies exists|k: int|
        0 <= k < places.len() && #[trigger] places[k] == i by {
        assert(sets[i] == patterns[i].start_set());
        assert(places.contains(i as usize));
    }
    match first {
        Some(m) => {
            let k = m.pattern_index as int;
            assert(places.contains(places[k]));
            assert(sets[places[k] as int] == patterns[places[k] as int].start_set());
            assert forall|i: int, p: int|
                counts(patterns, true, i) && is_position(input, from, p) && #[trigger] hits(
                    i,
                    p,
                ) is Some implies m.start < p || (m.start == p && places[k] <= i) by {
                let n = choose|n: int| 0 <= n < places.len() && #[trigger] places[n] == i;
                assert(hits(places[n] as int, p) is Some);
                if k < n {
                    assert(places[k] < places[n]);
                }
            }
        },
        None => {
            assert forall|i: int, p: int|
                counts(patterns, true, i) && is_position(input, from, p) implies #[trigger] hits(
                i,
                p,
            ) is None by {
                let n = choose|n: int| 0 <= n < places.len() && #[trigger] places[n] == i;
                assert(hits(places[n] as int, p) is None);
            }
        },
    }
}

/// There is one first match at most.
pub proof fn the_first_match_is_unique<R: Regex>(
    patterns: Seq<Arc<LazyRegex<R>>>,
    rest: bool,
    input: RegexInput,
    hits: Hits,
    a: Option<RegexSetMatch>,
    b: Option<RegexSetMatch>,
)
    requires
        is_first(patterns, rest, input, hits, a),
        is_first(patterns, rest, input, hits, b),
    ensures
        a == b,
{
    if let Some(m) = a {
        assert(hits(m.pattern_index as int, m.start as int) is Some);
    }
    if let Some(m) = b {
        assert(hits(m.pattern_index as int, m.start as int) is Some);
    }
}

/// A match of a parsed pattern starts with one of the start bytes that are taken from it.
pub proof fn start_bytes_hold(
    expr: Expr,
    ctx: HirCtx,
    input: RegexInput,
    p: int,
    j: int,
)
    requires
        input.end == input.haystack@.len(),
        semantics::can_match(expr, ctx, input.haystack@, p, j),
    ensures
        starts_in(start::start_bytes_of(expr, ctx), input, p),
{
    if start::start_bytes_of(expr, ctx) is Some {
        start::matches_start_in_the_set(expr, ctx, input.haystack@, p, j);
    }
}

/// Whether `trees` are what the patterns of a finder parsed to: the start bytes were taken from them.
pub open spec fn are_trees_of<R: Regex>(
    patterns: Seq<Arc<LazyRegex<R>>>,
    trees: Seq<Expr>,
) -> bool {
    &&& trees.len() == patterns.len()
    &&& forall|i: int|
        0 <= i < patterns.len() ==> (#[trigger] patterns[i]).start_set() == start::start_bytes_of(
            trees[i],
            HirCtx::of(patterns[i].asked_options()),
        )
}

/// Whether patterns match only what their trees can match.
pub open spec fn are_matches<R: Regex>(
    patterns: Seq<Arc<LazyRegex<R>>>,
    trees: Seq<Expr>,
    input: RegexInput,
    hits: Hits,
) -> bool {
    forall|i: int, p: int|
        0 <= i < patterns.len() && #[trigger] hits(i, p) is Some ==> exists|j: int|
            #[trigger] semantics::can_match(
                trees[i],
                HirCtx::of(patterns[i].asked_options()),
                input.haystack@,
                p,
                j,
            )
}

/// Patterns that match only what their trees can match do so only where a start byte stands, as far
/// as they have start bytes.
pub proof fn parsed_patterns_start_there<R: Regex>(
    patterns: Seq<Arc<LazyRegex<R>>>,
    trees: Seq<Expr>,
    input: RegexInput,
    hits: Hits,
)
    requires
        are_trees_of(patterns, trees),
        are_matches(patterns, trees, input, hits),
        input.end == input.haystack@.len(),
    ensures
        starts_hold(patterns, input, hits),
{
    assert forall|i: int, p: int|
        0 <= i < patterns.len() && #[trigger] hits(i, p) is Some && is_position(
            input,
            input.start as int,
            p,
        ) implies starts_in(patterns[i].start_set(), input, p) by {
        let ctx = HirCtx::of(patterns[i].asked_options());
        let j = choose|j: int|
            #[trigger] semantics::can_match(trees[i], ctx, input.haystack@, p, j);
        start_bytes_hold(trees[i], ctx, input, p, j);
    }
}

/// What trying patterns at one position gives: the match of the first of them that matches there.
proof fn trying_finds_the_first<R: Regex>(
    patterns: Seq<Arc<LazyRegex<R>>>,
    list: Seq<usize>,
    input: RegexInput,
    pos: usize,
    hits: Hits,
    hit: Option<RegexSetMatch>,
)
    requires
        finder::can_try(patterns, list, input, pos, Ok(hit)),
        engine_agrees(patterns, input, hits),
        are_placed(hits),
        forall|k: int| 0 <= k < list.len() ==> #[trigger] list[k] < patterns.len(),
        forall|i: int, j: int| 0 <= i < j < list.len() ==> list[i] < list[j],
    ensures
        match hit {
            Some(m) => {
                &&& list.contains(m.pattern_index)
                &&& hits(m.pattern_index as int, pos as int) == Some(m)
                &&& forall|k: int|
                    0 <= k < list.len() && hits(#[trigger] list[k] as int, pos as int) is Some
                        ==> m.pattern_index <= list[k]
            },
            None => forall|k: int|
                0 <= k < list.len() ==> hits(#[trigger] list[k] as int, pos as int) is None,
        },
    decreases list.len(),
{
    if list.len() > 0 {
        let compiled = choose|compiled: Result<Arc<R>>| #[trigger]
            patterns[list[0] as int].can_be(compiled) && match compiled {
                Ok(regex) => exists|tried: Result<Option<RegexSetMatch>>|
                    #[trigger] call_ensures(R::match_at, (&*regex, list[0], &input, pos), tried)
                        && match tried {
                        Ok(None) => finder::can_try(
                            patterns,
                            list.drop_first(),
                            input,
                            pos,
                            Ok(hit),
                        ),
                        _ => Ok::<Option<RegexSetMatch>, Error>(hit) == tried,
                    },
                Err(e) => Ok::<Option<RegexSetMatch>, Error>(hit) == Err::<
                    Option<RegexSetMatch>,
                    Error,
                >(e),
            };
        let regex = compiled->Ok_0;
        let tried = choose|tried: Result<Option<RegexSetMatch>>|
            #[trigger] call_ensures(R::match_at, (&*regex, list[0], &input, pos), tried)
                && match tried {
                Ok(None) => finder::can_try(patterns, list.drop_first(), input, pos, Ok(hit)),
                _ => Ok::<Option<RegexSetMatch>, Error>(hit) == tried,
            };
        assert(call_ensures(R::match_at, (&*regex, list[0], &input, pos), Ok(tried->Ok_0)));
        assert(tried->Ok_0 == hits(list[0] as int, pos as int));
        if tried->Ok_0 is None {
            let rest = list.drop_first();
            trying_finds_the_first(patterns, rest, input, pos, hits, hit);
            assert forall|k: int| 0 < k < list.len() implies #[trigger] list[k] == rest[k - 1] by {}
            if let Some(m) = hit {
                let k = choose|k: int| 0 <= k < rest.len() && rest[k] == m.pattern_index;
                assert(list[k + 1] == m.pattern_index);
            }
        } else {
            assert(list[0] == hit->Some_0.pattern_index);
        }
    }
}

/// Positions come in ascending order.
proof fn positions_ascend(input: RegexInput, pos: int, p: int)
    requires
        is_position(input, pos, p),
    ensures
        pos <= p,
    decreases
            (if pos < input.end {
                input.end - pos
            } else {
                0
            }),
{
    if p != pos {
        positions_ascend(input, input.next_position(pos), p);
    }
}

/// What follows a position of a search is a position of it.
proof fn positions_go_on(input: RegexInput, from: int, pos: int, p: int)
    requires
        is_position(input, from, pos),
        is_position(input, pos, p),
    ensures
        is_position(input, from, p),
    decreases
            (if from < input.end {
                input.end - from
            } else {
                0
            }),
{
    if from != pos {
        positions_go_on(input, input.next_position(from), pos, p);
    }
}

/// Whether `hit` is the first match, from `pos` on, of the patterns with start bytes. Where there is
/// none, one may still come behind `set_hit`.
spec fn is_first_of_walk<R: Regex>(
    patterns: Seq<Arc<LazyRegex<R>>>,
    input: RegexInput,
    set_hit: Option<RegexSetMatch>,
    pos: int,
    hits: Hits,
    hit: Option<RegexSetMatch>,
) -> bool {
    match hit {
        Some(m) => {
            &&& counts(patterns, false, m.pattern_index as int)
            &&& is_position(input, pos, m.start as int)
            &&& hits(m.pattern_index as int, m.start as int) == Some(m)
            &&& forall|i: int, p: int|
                is_walked(patterns, input, pos, i, p) && #[trigger] hits(i, p) is Some ==> m.start < p
                    || (m.start == p && m.pattern_index <= i)
        },
        None => forall|i: int, p: int|
            is_walked(patterns, input, pos, i, p) && #[trigger] hits(i, p) is Some ==> (
            set_hit matches Some(s) && s.start < p),
    }
}

/// Whether `i` is the number of a pattern with start bytes, and `p` a position from `pos` on.
spec fn is_walked<R: Regex>(
    patterns: Seq<Arc<LazyRegex<R>>>,
    input: RegexInput,
    pos: int,
    i: int,
    p: int,
) -> bool {
    0 <= i < patterns.len() && patterns[i].start_set() is Some && is_position(input, pos, p)
}

/// What a walk gives: the first match of the patterns with start bytes, unless it comes too late.
proof fn walking_finds_the_first<R: Regex>(
    finder: Finder<R>,
    patterns: Seq<Arc<LazyRegex<R>>>,
    input: RegexInput,
    set_hit: Option<RegexSetMatch>,
    pos: int,
    hits: Hits,
    hit: Option<RegexSetMatch>,
)
    requires
        finder.is_for(patterns),
        patterns.len() <= usize::MAX,
        input.is_valid(),
        are_placed(hits),
        engine_agrees(patterns, input, hits),
        starts_hold(patterns, input, hits),
        is_position(input, input.start as int, pos),
        finder::can_walk(finder, input, set_hit, pos, Ok(hit)),
    ensures
        is_first_of_walk(patterns, input, set_hit, pos, hits, hit),
    decreases
            (if pos < input.end {
                input.end - pos
            } else {
                0
            }),
{
    positions_ascend(input, input.start as int, pos);
    let sets = finder::start_sets(patterns);
    if finder::is_past(input, set_hit, pos) {
        assert forall|i: int, p: int|
            is_walked(patterns, input, pos, i, p) && #[trigger] hits(i, p) is Some implies (
        set_hit matches Some(s) && s.start < p) by {
            positions_go_on(input, input.start as int, pos, p);
            positions_ascend(input, pos, p);
            assert(starts_in(patterns[i].start_set(), input, p));
        }
    } else {
        let b = input.haystack@[pos];
        let list = finder.at(b);
        let tried = choose|tried: Result<Option<RegexSetMatch>>| #[trigger]
            finder::can_try(finder.patterns(), list, input, pos as usize, tried) && match tried {
                Ok(None) => if input.anchored {
                    Ok::<Option<RegexSetMatch>, Error>(hit) == tried
                } else {
                    finder::can_walk(finder, input, set_hit, input.next_position(pos), Ok(hit))
                },
                _ => Ok::<Option<RegexSetMatch>, Error>(hit) == tried,
            };
        let here = tried->Ok_0;
        assert(tried == Ok::<Option<RegexSetMatch>, Error>(here));
        candidates::holders_are_listed(sets, b);
        assert forall|k: int| 0 <= k < list.len() implies #[trigger] list[k] < patterns.len() by {
            assert(list.contains(list[k]));
        }
        trying_finds_the_first(patterns, list, input, pos as usize, hits, here);
        // Whatever matches here is among what was tried
        assert forall|i: int|
            0 <= i < patterns.len() && patterns[i].start_set() is Some && #[trigger] hits(
                i,
                pos,
            ) is Some implies list.contains(i as usize) by {
            assert(starts_in(patterns[i].start_set(), input, pos));
            assert(sets[i] == patterns[i].start_set());
        }
        match here {
            Some(m) => {
                assert forall|i: int, p: int|
                    is_walked(patterns, input, pos, i, p) && #[trigger] hits(i, p) is Some implies m.start
                    < p || (m.start == p && m.pattern_index <= i) by {
                    positions_ascend(input, pos, p);
                    if p == pos {
                        let k = choose|k: int| 0 <= k < list.len() && list[k] == i as usize;
                        assert(hits(list[k] as int, pos) is Some);
                    }
                }
            },
            None => {
                assert forall|i: int|
                    0 <= i < patterns.len() && patterns[i].start_set() is Some implies #[trigger] hits(
                    i,
                    pos,
                ) is None by {
                    if hits(i, pos) is Some {
                        let k = choose|k: int| 0 <= k < list.len() && list[k] == i as usize;
                        assert(hits(list[k] as int, pos) is None);
                    }
                }
                if !input.anchored {
                    let next = input.next_position(pos);
                    assert(is_position(input, next, next));
                    assert(is_position(input, pos, next));
                    positions_go_on(input, input.start as int, pos, next);
                    walking_finds_the_first(finder, patterns, input, set_hit, next, hits, hit);
                    assert forall|i: int, p: int|
                        is_walked(patterns, input, pos, i, p) && #[trigger] hits(
                            i,
                            p,
                        ) is Some implies is_walked(patterns, input, next, i, p) by {
                        assert(p != pos);
                    }
                }
            },
        }
    }
}

/// Where as many places have no set as there are, none has one.
proof fn all_gaps(sets: Seq<Option<Set<u8>>>, i: int)
    requires
        candidates::gaps(sets).len() >= sets.len(),
        0 <= i < sets.len(),
    ensures
        sets[i] is None,
    decreases sets.len(),
{
    gaps_are_few(sets.drop_last());
    if i < sets.len() - 1 {
        all_gaps(sets.drop_last(), i);
        assert(sets.drop_last()[i] == sets[i]);
    }
}

proof fn gaps_are_few(sets: Seq<Option<Set<u8>>>)
    ensures
        candidates::gaps(sets).len() <= sets.len(),
    decreases sets.len(),
{
    if sets.len() > 0 {
        gaps_are_few(sets.drop_last());
    }
}

/// Of the first match of the patterns without start bytes and that of those with, the earlier is the
/// first of all.
proof fn the_earlier_is_the_first<R: Regex>(
    patterns: Seq<Arc<LazyRegex<R>>>,
    input: RegexInput,
    hits: Hits,
    set_hit: Option<RegexSetMatch>,
    walk_hit: Option<RegexSetMatch>,
)
    requires
        is_first(patterns, true, input, hits, set_hit),
        is_first_of_walk(patterns, input, set_hit, input.start as int, hits, walk_hit),
    ensures
        is_first(patterns, false, input, hits, finder::earlier(set_hit, walk_hit)),
{
    let from = input.start as int;
    let hit = finder::earlier(set_hit, walk_hit);
    assert forall|i: int, p: int|
        counts(patterns, false, i) && is_position(input, from, p) && #[trigger] hits(
            i,
            p,
        ) is Some implies (hit matches Some(m) && (m.start < p || (m.start == p && m.pattern_index
        <= i))) by {
        if patterns[i].start_set() is None {
            assert(counts(patterns, true, i));
        } else {
            assert(is_walked(patterns, input, from, i, p));
        }
    }
}

/// A search finds the first match of all patterns: the one that starts first, and of several at one
/// position that of the pattern with the lowest number, or none where none matches. So the start
/// bytes, and which patterns have them, make no difference.
///
/// It does wherever the engine does not fail, matches each pattern where `hits` has it match, and
/// finds the first match among the patterns without start bytes; and where a pattern with start
/// bytes matches only where one of them stands. A match that starts behind the position where it is
/// found, as `KeepOut` can have it, is left out.
pub proof fn the_first_match_is_found<R: Regex>(
    finder: Finder<R>,
    patterns: Seq<Arc<LazyRegex<R>>>,
    input: RegexInput,
    hits: Hits,
    hit: Option<RegexSetMatch>,
)
    requires
        finder.is_for(patterns),
        patterns.len() <= usize::MAX,
        input.is_valid(),
        are_placed(hits),
        engine_agrees(patterns, input, hits),
        starts_hold(patterns, input, hits),
        set_agrees(finder, patterns, input, hits),
        finder::can_find(finder, input, Ok(hit)),
    ensures
        is_first(patterns, false, input, hits, hit),
{
    let sets = finder::start_sets(patterns);
    let from = input.start as int;
    candidates::gaps_are_listed(sets);
    if patterns.len() > 0 {
        let set_hit = match finder.rest() {
            Some(rest) => {
                let found = choose|found: Result<Option<RegexSetMatch>>| #[trigger]
                    finder::set_can_find::<R>(rest.whole(), rest.places(), input, found)
                        && match found {
                        Ok(set_hit) => if rest.places().len() == finder.patterns().len() {
                            Ok::<Option<RegexSetMatch>, Error>(hit) == found
                        } else {
                            finder::can_finish(finder, input, set_hit, Ok(hit))
                        },
                        Err(_) => Ok::<Option<RegexSetMatch>, Error>(hit) == found,
                    };
                assert(found == Ok::<Option<RegexSetMatch>, Error>(found->Ok_0));
                assert(finder::set_can_find::<R>(
                    rest.whole(),
                    rest.places(),
                    input,
                    Ok(found->Ok_0),
                ));
                the_set_finds_the_first(finder, patterns, input, hits, found->Ok_0);
                found->Ok_0
            },
            None => {
                assert forall|i: int|
                    0 <= i < patterns.len() implies patterns[i].start_set() is Some by {
                    assert(sets[i] == patterns[i].start_set());
                    if sets[i] is None {
                        assert(candidates::gaps(sets).contains(i as usize));
                    }
                }
                None
            },
        };
        assert(is_first(patterns, true, input, hits, set_hit));
        if finder.rest() is Some && finder.rest()->Some_0.places().len() == patterns.len() {
            assert forall|i: int| counts(patterns, false, i) implies #[trigger] counts(
                patterns,
                true,
                i,
            ) by {
                all_gaps(sets, i);
                assert(sets[i] == patterns[i].start_set());
            }
        } else {
            assert(finder::can_finish(finder, input, set_hit, Ok(hit)));
            let walked = choose|walked: Result<Option<RegexSetMatch>>| #[trigger]
                finder::can_walk(finder, input, set_hit, from, walked) && match walked {
                    Ok(walk_hit) => Ok::<Option<RegexSetMatch>, Error>(hit) == Ok::<
                        Option<RegexSetMatch>,
                        Error,
                    >(finder::earlier(set_hit, walk_hit)),
                    Err(e) => Ok::<Option<RegexSetMatch>, Error>(hit) == Err::<
                        Option<RegexSetMatch>,
                        Error,
                    >(e),
                };
            let walk_hit = walked->Ok_0;
            assert(finder::can_walk(finder, input, set_hit, from, Ok(walk_hit)));
            walking_finds_the_first(finder, patterns, input, set_hit, from, hits, walk_hit);
            the_earlier_is_the_first(patterns, input, hits, set_hit, walk_hit);
        }
    }
}

/// A search to the end of the haystack finds the first match of all patterns, where the engine
/// matches only what the parsed patterns can match: the start bytes are then right of themselves. The
/// other premises are those of `the_first_match_is_found`.
pub proof fn the_first_match_of_parsed_patterns_is_found<R: Regex>(
    finder: Finder<R>,
    patterns: Seq<Arc<LazyRegex<R>>>,
    trees: Seq<Expr>,
    input: RegexInput,
    hits: Hits,
    hit: Option<RegexSetMatch>,
)
    requires
        finder.is_for(patterns),
        patterns.len() <= usize::MAX,
        input.is_valid(),
        input.end == input.haystack@.len(),
        are_placed(hits),
        are_trees_of(patterns, trees),
        are_matches(patterns, trees, input, hits),
        engine_agrees(patterns, input, hits),
        set_agrees(finder, patterns, input, hits),
        finder::can_find(finder, input, Ok(hit)),
    ensures
        is_first(patterns, false, input, hits, hit),
{
    parsed_patterns_start_there(patterns, trees, input, hits);
    the_first_match_is_found(finder, patterns, input, hits, hit);
}

/// Whether the engine, asked for the pattern numbered `i` at `p`, can come out as `out`: it compiles
/// the pattern and matches it there, or fails to compile it.
pub open spec fn can_come_out<R: Regex>(
    patterns: Seq<Arc<LazyRegex<R>>>,
    input: RegexInput,
    i: usize,
    p: usize,
    out: Result<Option<RegexSetMatch>>,
) -> bool {
    ||| exists|regex: Arc<R>|
        patterns[i as int].can_be(Ok(regex)) && #[trigger] call_ensures(
            R::match_at,
            (&*regex, i, &input, p),
            out,
        )
    ||| out matches Err(e) && patterns[i as int].can_be(Err(e))
}

/// Whether the pattern numbered `i` is due at `p`, a position from `pos` on: one of its start bytes
/// stands there, and `set_hit` does not start before.
pub open spec fn is_due<R: Regex>(
    patterns: Seq<Arc<LazyRegex<R>>>,
    input: RegexInput,
    set_hit: Option<RegexSetMatch>,
    pos: int,
    i: usize,
    p: usize,
) -> bool {
    &&& i < patterns.len()
    &&& is_position(input, pos, p as int)
    &&& p < input.end
    &&& patterns[i as int].start_set() matches Some(set) && set.contains(input.haystack@[p as int])
    &&& set_hit matches Some(s) ==> p <= s.start
}

/// Whether `out` is what the engine can come out with where the patterns that are due are tried, one
/// position after the other and lower numbers first, up to the first that matches or fails. Where
/// none does, each of them was tried.
pub open spec fn is_outcome_of_all<R: Regex>(
    patterns: Seq<Arc<LazyRegex<R>>>,
    input: RegexInput,
    set_hit: Option<RegexSetMatch>,
    pos: int,
    out: Result<Option<RegexSetMatch>>,
) -> bool {
    match out {
        Ok(None) => forall|j: usize, q: usize| #[trigger]
            is_due(patterns, input, set_hit, pos, j, q) ==> can_come_out(
                patterns,
                input,
                j,
                q,
                Ok(None),
            ),
        _ => exists|i: usize, p: usize|
            is_due(patterns, input, set_hit, pos, i, p) && #[trigger] can_come_out(
                patterns,
                input,
                i,
                p,
                out,
            ) && forall|j: usize, q: usize| #[trigger]
                is_due(patterns, input, set_hit, pos, j, q) && (q < p || (q == p && j < i))
                    ==> can_come_out(patterns, input, j, q, Ok(None)),
    }
}

/// Whether `set_hit` is what a search of the engine for the patterns without start bytes can come out
/// with, under the numbers that they have among all; `None` where there are no such patterns.
pub open spec fn is_outcome_of_rest<R: Regex>(
    finder: Finder<R>,
    input: RegexInput,
    set_hit: Option<RegexSetMatch>,
) -> bool {
    match (finder.rest(), set_hit) {
        (None, _) => set_hit is None,
        (Some(rest), Some(h)) => exists|matches: R::Matches, m: RegexSetMatch|
            call_ensures(R::set_find_input, (&rest.whole(), &input), Ok(Some(matches)))
                && #[trigger] call_ensures(R::first_match, (matches,), Some(Ok(m)))
                && h.pattern_index == rest.places()[m.pattern_index as int] && h.start == m.start
                && h.end == m.end,
        (Some(rest), None) => call_ensures(R::set_find_input, (&rest.whole(), &input), Ok(None))
            || exists|matches: R::Matches|
            call_ensures(R::set_find_input, (&rest.whole(), &input), Ok(Some(matches)))
                && #[trigger] call_ensures(R::first_match, (matches,), None),
    }
}

/// Whether `hit` is the one of two matches that starts first, and of two at one position that of the
/// pattern with the lower number.
pub open spec fn is_earlier_of(
    a: Option<RegexSetMatch>,
    b: Option<RegexSetMatch>,
    hit: Option<RegexSetMatch>,
) -> bool {
    &&& hit == a || hit == b
    &&& a matches Some(x) ==> (hit matches Some(h) && h.start <= x.start && (h.start == x.start
        ==> h.pattern_index <= x.pattern_index))
    &&& b matches Some(x) ==> (hit matches Some(h) && h.start <= x.start && (h.start == x.start
        ==> h.pattern_index <= x.pattern_index))
}

proof fn a_try_is_an_outcome<R: Regex>(
    patterns: Seq<Arc<LazyRegex<R>>>,
    list: Seq<usize>,
    input: RegexInput,
    pos: usize,
    out: Result<Option<RegexSetMatch>>,
) -> (k: int)
    requires
        finder::can_try(patterns, list, input, pos, out),
    ensures
        0 <= k <= list.len(),
        k == list.len() <==> out == Ok::<Option<RegexSetMatch>, Error>(None),
        k < list.len() ==> can_come_out(patterns, input, list[k], pos, out),
        forall|n: int|
            0 <= n < k ==> can_come_out(patterns, input, #[trigger] list[n], pos, Ok(None)),
    decreases list.len(),
{
    if list.len() == 0 {
        0
    } else {
        let compiled = choose|compiled: Result<Arc<R>>| #[trigger]
            patterns[list[0] as int].can_be(compiled) && match compiled {
                Ok(regex) => exists|tried: Result<Option<RegexSetMatch>>|
                    #[trigger] call_ensures(R::match_at, (&*regex, list[0], &input, pos), tried)
                        && match tried {
                        Ok(None) => finder::can_try(patterns, list.drop_first(), input, pos, out),
                        _ => out == tried,
                    },
                Err(e) => out == Err::<Option<RegexSetMatch>, Error>(e),
            };
        match compiled {
            Ok(regex) => {
                let tried = choose|tried: Result<Option<RegexSetMatch>>|
                    #[trigger] call_ensures(R::match_at, (&*regex, list[0], &input, pos), tried)
                        && match tried {
                        Ok(None) => finder::can_try(patterns, list.drop_first(), input, pos, out),
                        _ => out == tried,
                    };
                assert(patterns[list[0] as int].can_be(Ok(regex)));
                assert(can_come_out(patterns, input, list[0], pos, tried));
                if tried matches Ok(None) {
                    let rest = list.drop_first();
                    let k = a_try_is_an_outcome(patterns, rest, input, pos, out);
                    assert(k < rest.len() ==> rest[k] == list[k + 1]);
                    assert forall|n: int| 0 <= n < k + 1 implies can_come_out(
                        patterns,
                        input,
                        #[trigger] list[n],
                        pos,
                        Ok(None),
                    ) by {
                        if n > 0 {
                            assert(rest[n - 1] == list[n]);
                        }
                    }
                    k + 1
                } else {
                    0
                }
            },
            Err(e) => {
                assert(patterns[list[0] as int].can_be(Err(e)));
                0
            },
        }
    }
}

proof fn a_walk_is_an_outcome<R: Regex>(
    finder: Finder<R>,
    patterns: Seq<Arc<LazyRegex<R>>>,
    input: RegexInput,
    set_hit: Option<RegexSetMatch>,
    pos: int,
    out: Result<Option<RegexSetMatch>>,
)
    requires
        finder.is_for(patterns),
        patterns.len() <= usize::MAX,
        input.is_valid(),
        0 <= pos,
        finder::can_walk(finder, input, set_hit, pos, out),
    ensures
        is_outcome_of_all(patterns, input, set_hit, pos, out),
    decreases
            (if pos < input.end {
                input.end - pos
            } else {
                0
            }),
{
    let none = Ok::<Option<RegexSetMatch>, Error>(None);
    if finder::is_past(input, set_hit, pos) {
        assert forall|j: usize, q: usize| #[trigger]
            is_due(patterns, input, set_hit, pos, j, q) implies can_come_out(
            patterns,
            input,
            j,
            q,
            none,
        ) by {
            positions_ascend(input, pos, q as int);
        }
    } else {
        let sets = finder::start_sets(patterns);
        let b = input.haystack@[pos];
        let at = pos as usize;
        let list = finder.at(b);
        let tried = choose|tried: Result<Option<RegexSetMatch>>| #[trigger]
            finder::can_try(finder.patterns(), list, input, at, tried) && match tried {
                Ok(None) => if input.anchored {
                    out == tried
                } else {
                    finder::can_walk(finder, input, set_hit, input.next_position(pos), out)
                },
                _ => out == tried,
            };
        let k = a_try_is_an_outcome(patterns, list, input, at, tried);
        candidates::holders_are_listed(sets, b);
        // Whatever is due here is among what was tried
        assert forall|j: usize| #[trigger]
            is_due(patterns, input, set_hit, pos, j, at) implies list.contains(j) by {
            assert(sets[j as int] == patterns[j as int].start_set());
        }
        if tried == none {
            assert forall|j: usize| #[trigger]
                is_due(patterns, input, set_hit, pos, j, at) implies can_come_out(
                patterns,
                input,
                j,
                at,
                none,
            ) by {
                let n = choose|n: int| 0 <= n < list.len() && list[n] == j;
                assert(can_come_out(patterns, input, list[n], at, none));
            }
            if input.anchored {
                assert forall|j: usize, q: usize| #[trigger]
                    is_due(patterns, input, set_hit, pos, j, q) implies can_come_out(
                    patterns,
                    input,
                    j,
                    q,
                    none,
                ) by {
                    assert(q == at);
                }
            } else {
                let next = input.next_position(pos);
                a_walk_is_an_outcome(finder, patterns, input, set_hit, next, out);
                assert forall|j: usize, q: usize| #[trigger]
                    is_due(patterns, input, set_hit, pos, j, q) implies q == at || is_due(
                    patterns,
                    input,
                    set_hit,
                    next,
                    j,
                    q,
                ) by {}
                if out != none {
                    let (i, p) = choose|i: usize, p: usize|
                        is_due(patterns, input, set_hit, next, i, p) && #[trigger] can_come_out(
                            patterns,
                            input,
                            i,
                            p,
                            out,
                        ) && forall|j: usize, q: usize| #[trigger]
                            is_due(patterns, input, set_hit, next, j, q) && (q < p || (q == p && j
                                < i)) ==> can_come_out(patterns, input, j, q, none);
                    assert(is_due(patterns, input, set_hit, pos, i, p));
                    assert(can_come_out(patterns, input, i, p, out));
                }
            }
        } else {
            let i = list[k];
            assert(list.contains(i));
            assert(sets[i as int] == patterns[i as int].start_set());
            assert(is_due(patterns, input, set_hit, pos, i, at));
            assert(can_come_out(patterns, input, i, at, out));
            assert forall|j: usize, q: usize| #[trigger]
                is_due(patterns, input, set_hit, pos, j, q) && (q < at || (q == at && j
                    < i)) implies can_come_out(patterns, input, j, q, none) by {
                positions_ascend(input, pos, q as int);
                assert(is_due(patterns, input, set_hit, pos, j, at));
                let n = choose|n: int| 0 <= n < list.len() && list[n] == j;
                if k < n {
                    assert(list[k] < list[n]);
                }
                assert(can_come_out(patterns, input, list[n], at, none));
            }
        }
    }
}

/// What a search that does not fail tells, whatever the engine answers: it gives the earlier of the
/// match that the engine finds of the patterns without start bytes, and of the first that comes out
/// where those with start bytes are tried at each position where one of them stands. Nothing that is
/// due is passed over: what comes before the match was tried, and neither matched nor failed.
pub proof fn what_a_search_tells<R: Regex>(
    finder: Finder<R>,
    patterns: Seq<Arc<LazyRegex<R>>>,
    input: RegexInput,
    hit: Option<RegexSetMatch>,
) -> (found: (Option<RegexSetMatch>, Option<RegexSetMatch>))
    requires
        finder.is_for(patterns),
        patterns.len() <= usize::MAX,
        input.is_valid(),
        finder::can_find(finder, input, Ok(hit)),
    ensures
        is_outcome_of_rest(finder, input, found.0),
        is_outcome_of_all(patterns, input, found.0, input.start as int, Ok(found.1)),
        is_earlier_of(found.0, found.1, hit),
{
    let sets = finder::start_sets(patterns);
    let from = input.start as int;
    let out = Ok::<Option<RegexSetMatch>, Error>(hit);
    if patterns.len() == 0 {
        (None, None)
    } else {
        let set_hit: Option<RegexSetMatch> = match finder.rest() {
            Some(rest) => {
                let found = choose|found: Result<Option<RegexSetMatch>>| #[trigger]
                    finder::set_can_find::<R>(rest.whole(), rest.places(), input, found)
                        && match found {
                        Ok(set_hit) => if rest.places().len() == finder.patterns().len() {
                            out == found
                        } else {
                            finder::can_finish(finder, input, set_hit, out)
                        },
                        Err(_) => out == found,
                    };
                assert(found == Ok::<Option<RegexSetMatch>, Error>(found->Ok_0));
                finder::a_set_match_bears_its_place::<R>(
                    rest.whole(),
                    rest.places(),
                    input,
                    found->Ok_0,
                );
                found->Ok_0
            },
            None => None,
        };
        assert(is_outcome_of_rest(finder, input, set_hit));
        if finder.rest() is Some && finder.rest()->Some_0.places().len() == patterns.len() {
            assert forall|j: usize, q: usize| #[trigger]
                is_due(patterns, input, set_hit, from, j, q) implies can_come_out(
                patterns,
                input,
                j,
                q,
                Ok(None),
            ) by {
                all_gaps(sets, j as int);
                assert(sets[j as int] == patterns[j as int].start_set());
            }
            (set_hit, None)
        } else {
            assert(finder::can_finish(finder, input, set_hit, out));
            let walked = choose|walked: Result<Option<RegexSetMatch>>| #[trigger]
                finder::can_walk(finder, input, set_hit, from, walked) && match walked {
                    Ok(walk_hit) => out == Ok::<Option<RegexSetMatch>, Error>(
                        finder::earlier(set_hit, walk_hit),
                    ),
                    Err(e) => out == Err::<Option<RegexSetMatch>, Error>(e),
                };
            let walk_hit = walked->Ok_0;
            assert(walked == Ok::<Option<RegexSetMatch>, Error>(walk_hit));
            a_walk_is_an_outcome(finder, patterns, input, set_hit, from, walked);
            (set_hit, walk_hit)
        }
    }
}

/// What a search that fails tells, whatever the engine answers: the engine fails when it searches for
/// the patterns without start bytes, or else on the first of those with start bytes that is due and
/// does not just not match. That is what the search fails with.
pub proof fn what_a_failure_tells<R: Regex>(
    finder: Finder<R>,
    patterns: Seq<Arc<LazyRegex<R>>>,
    input: RegexInput,
    e: Error,
)
    requires
        finder.is_for(patterns),
        patterns.len() <= usize::MAX,
        input.is_valid(),
        finder::can_find(finder, input, Err(e)),
    ensures
        (finder.rest() matches Some(rest) && finder::set_can_fail::<R>(rest.whole(), input, e))
            || exists|set_hit: Option<RegexSetMatch>| #[trigger]
            is_outcome_of_rest(finder, input, set_hit) && is_outcome_of_all(
                patterns,
                input,
                set_hit,
                input.start as int,
                Err(e),
            ),
{
    let from = input.start as int;
    let out = Err::<Option<RegexSetMatch>, Error>(e);
    match finder.rest() {
        Some(rest) => {
            let found = choose|found: Result<Option<RegexSetMatch>>| #[trigger]
                finder::set_can_find::<R>(rest.whole(), rest.places(), input, found) && match found {
                    Ok(set_hit) => if rest.places().len() == finder.patterns().len() {
                        out == found
                    } else {
                        finder::can_finish(finder, input, set_hit, out)
                    },
                    Err(_) => out == found,
                };
            match found {
                Ok(set_hit) => {
                    finder::a_set_match_bears_its_place::<R>(
                        rest.whole(),
                        rest.places(),
                        input,
                        set_hit,
                    );
                    assert(is_outcome_of_rest(finder, input, set_hit));
                    assert(finder::can_finish(finder, input, set_hit, out));
                    assert(finder::can_walk(finder, input, set_hit, from, out));
                    a_walk_is_an_outcome(finder, patterns, input, set_hit, from, out);
                },
                Err(_) => {
                    finder::a_set_fails_with_the_engine::<R>(
                        rest.whole(),
                        rest.places(),
                        input,
                        e,
                    );
                },
            }
        },
        None => {
            assert(finder::can_finish(finder, input, None, out));
            assert(finder::can_walk(finder, input, None, from, out));
            a_walk_is_an_outcome(finder, patterns, input, None, from, out);
            assert(is_outcome_of_rest(finder, input, None));
        },
    }
}

/// What a finder for some patterns finds is the first match of all of them. The premises on the engine
/// are those of `the_first_match_is_found`.
pub proof fn a_finder_finds_the_first<R: Regex>(
    regexes: Vec<Arc<LazyRegex<R>>>,
    finder: Finder<R>,
    input: RegexInput,
    hits: Hits,
    hit: Option<RegexSetMatch>,
)
    requires
        regexes@.len() <= usize::MAX,
        call_ensures(Finder::<R>::new, (regexes,), Ok(finder)),
        call_ensures(Finder::<R>::find_input, (&finder, input), Ok(hit)),
        input.is_valid(),
        are_placed(hits),
        engine_agrees(regexes@, input, hits),
        starts_hold(regexes@, input, hits),
        set_agrees(finder, regexes@, input, hits),
    ensures
        is_first(regexes@, false, input, hits, hit),
{
    the_first_match_is_found(finder, regexes@, input, hits, hit);
}

} // verus!
