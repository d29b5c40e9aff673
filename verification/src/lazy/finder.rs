//! Finds which of many patterns matches first.

use std::sync::Arc;

use vstd::prelude::*;

use crate::engine::{Regex, RegexInput, RegexSetMatch};
use crate::lazy::byte_set::ByteSet;
use crate::lazy::candidates::{self, StartPrefilter};
use crate::lazy::regex::LazyRegex;
use crate::options::{BytesMode, CompileError, Error, Result};

verus! {

/// The patterns whose start bytes are not known. They are searched for together.
pub struct Remainder<R: Regex> {
    set: Arc<R::Set>,
    indices: Vec<usize>,
}

/// Whether a search for several patterns can come out as `hit`, where `indices` holds the numbers of
/// the patterns.
pub open spec fn set_can_find<R: Regex>(
    set: R::Set,
    indices: Seq<usize>,
    input: RegexInput,
    hit: Result<Option<RegexSetMatch>>,
) -> bool {
    exists|found: Result<Option<R::Matches>>|
        #[trigger] call_ensures(R::set_find_input, (&set, &input), found) && match found {
            Ok(Some(matches)) => exists|first: Option<Result<RegexSetMatch>>|
                #[trigger] call_ensures(R::first_match, (matches,), first) && match first {
                    Some(Ok(m)) => hit == Ok::<Option<RegexSetMatch>, Error>(
                        Some(
                            RegexSetMatch {
                                pattern_index: indices[m.pattern_index as int],
                                start: m.start,
                                end: m.end,
                            },
                        ),
                    ),
                    Some(Err(e)) => hit == Err::<Option<RegexSetMatch>, Error>(e),
                    None => hit == Ok::<Option<RegexSetMatch>, Error>(None),
                },
            Ok(None) => hit == Ok::<Option<RegexSetMatch>, Error>(None),
            Err(e) => hit == Err::<Option<RegexSetMatch>, Error>(e),
        }
}

/// Whether the first match of a search for `n` patterns always bears the number of one of them.
pub open spec fn set_knows_its_patterns<R: Regex>(set: R::Set, input: RegexInput, n: nat) -> bool {
    forall|matches: R::Matches, m: RegexSetMatch|
        call_ensures(R::set_find_input, (&set, &input), Ok(Some(matches))) && #[trigger] call_ensures(
            R::first_match,
            (matches,),
            Some(Ok(m)),
        ) ==> m.pattern_index < n
}

impl<R: Regex> Remainder<R> {
    /// The patterns, put together.
    pub closed spec fn whole(self) -> R::Set {
        *self.set
    }

    /// The numbers of the patterns.
    pub closed spec fn places(self) -> Seq<usize> {
        self.indices@
    }

    /// Searches for the patterns. The match bears the number that its pattern has among all.
    pub fn find_input(&self, input: RegexInput) -> (hit: Result<Option<RegexSetMatch>>)
        requires
            set_knows_its_patterns::<R>(self.whole(), input, self.places().len()),
        ensures
            set_can_find::<R>(self.whole(), self.places(), input, hit),
    {
        let found = R::set_find_input(&*self.set, &input);
        assert(call_ensures(R::set_find_input, (&self.whole(), &input), found));
        match found {
            Ok(Some(matches)) => {
                let first = R::first_match(matches);
                assert(call_ensures(R::first_match, (matches,), first));
                match first {
                    Some(Ok(m)) => {
                        // The number among all patterns, not just among those of the set
                        let pattern_index: usize = self.indices[m.pattern_index];
                        Ok(Some(RegexSetMatch { pattern_index, start: m.start, end: m.end }))
                    },
                    Some(Err(e)) => Err(e),
                    None => Ok(None),
                }
            },
            Ok(None) => Ok(None),
            Err(e) => Err(e),
        }
    }
}

/// Finds which of many patterns matches first.
#[verifier::reject_recursive_types(R)]
pub struct Finder<R: Regex> {
    regexes: Vec<Arc<LazyRegex<R>>>,
    prefilter: StartPrefilter,
    remainder: Option<Remainder<R>>,
}

/// The start bytes of the patterns, as far as they are known.
pub open spec fn start_sets<R: Regex>(patterns: Seq<Arc<LazyRegex<R>>>) -> Seq<Option<Set<u8>>> {
    patterns.map_values(|pattern: Arc<LazyRegex<R>>| pattern.start_set())
}

/// Whether each pattern is for UTF-8 text.
pub open spec fn all_unicode<R: Regex>(patterns: Seq<Arc<LazyRegex<R>>>) -> bool {
    forall|i: int|
        0 <= i < patterns.len() ==> (#[trigger] patterns[i]).asked_options().bytes_mode
            == BytesMode::Unicode
}

/// Whether `e` says that all patterns have to be for UTF-8 text.
pub open spec fn is_mode_error(e: Error) -> bool {
    e matches Error::CompileError(inner) && *inner matches CompileError::UnexpectedGeneralError(
        message,
    ) && message@
        == "Finder only supports `BytesMode::Unicode`, the LazyRegexes need to be constructed with that mode."@
}

/// Whether compiling the patterns numbered `indices`, in that order and up to the first that fails,
/// can come out as `compiled`.
pub open spec fn can_compile_all<R: Regex>(
    patterns: Seq<Arc<LazyRegex<R>>>,
    indices: Seq<usize>,
    compiled: Result<Vec<Arc<R>>>,
) -> bool {
    match compiled {
        Ok(list) => {
            &&& list@.len() == indices.len()
            &&& forall|k: int|
                0 <= k < indices.len() ==> patterns[indices[k] as int].can_be(
                    Ok(#[trigger] list@[k]),
                )
        },
        Err(e) => exists|k: int|
            0 <= k < indices.len() && patterns[#[trigger] indices[k] as int].can_be(Err(e))
                && compile_up_to(patterns, indices, k),
    }
}

/// Whether the first `k` of the patterns numbered `indices` can be compiled.
pub open spec fn compile_up_to<R: Regex>(
    patterns: Seq<Arc<LazyRegex<R>>>,
    indices: Seq<usize>,
    k: int,
) -> bool {
    exists|list: Seq<Arc<R>>|
        list.len() == k && forall|j: int|
            0 <= j < k ==> patterns[indices[j] as int].can_be(Ok(#[trigger] list[j]))
}

impl<R: Regex> Finder<R> {
    #[verifier::type_invariant]
    spec fn knows_its_patterns(self) -> bool {
        forall|b: u8, k: int|
            0 <= k < self.prefilter.at(b).len() ==> #[trigger] self.prefilter.at(b)[k]
                < self.regexes@.len()
    }

    /// The patterns.
    pub closed spec fn patterns(self) -> Seq<Arc<LazyRegex<R>>> {
        self.regexes@
    }

    /// The numbers of the patterns with start bytes that can match at `b`.
    pub closed spec fn at(self, b: u8) -> Seq<usize> {
        self.prefilter.at(b)
    }

    /// The patterns without start bytes, if there are any.
    pub closed spec fn rest(self) -> Option<Remainder<R>> {
        self.remainder
    }

    /// Whether this is a finder for `patterns`, all of them for UTF-8 text: those with start bytes
    /// are tried where a start byte stands, and the others are `rest`.
    pub open spec fn is_for(self, patterns: Seq<Arc<LazyRegex<R>>>) -> bool {
        let sets = start_sets(patterns);
        &&& all_unicode(patterns)
        &&& self.patterns() == patterns
        &&& forall|b: u8| #[trigger] self.at(b) == candidates::holders(sets, b)
        &&& match self.rest() {
            Some(rest) => rest.places() == candidates::gaps(sets) && rest.places().len() > 0,
            None => candidates::gaps(sets).len() == 0,
        }
    }

    /// The finder for `regexes`. Fails where one of them is not for UTF-8 text, where one without
    /// start bytes cannot be compiled, or where those without cannot be put together.
    pub fn new(regexes: Vec<Arc<LazyRegex<R>>>) -> (finder: Result<Self>)
        ensures
            can_be_built(regexes@, finder),
    {
        let ghost patterns = regexes@;
        let n: usize = regexes.len();
        let mut i: usize = 0;
        while i < n
            invariant
                i <= n == regexes@.len(),
                forall|k: int|
                    0 <= k < i ==> (#[trigger] regexes@[k]).asked_options().bytes_mode
                        == BytesMode::Unicode,
            decreases n - i,
        {
            if regexes[i].bytes_mode() != BytesMode::Unicode {
                let message = "Finder only supports `BytesMode::Unicode`, the LazyRegexes need to be constructed with that mode.".to_owned();
                return Err(
                    Error::CompileError(Box::new(CompileError::UnexpectedGeneralError(message))),
                );
            }
            i += 1;
        }
        let sets = collect_start_bytes(&regexes);
        let (prefilter, remaining) = match StartPrefilter::from_byte_sets(sets.as_slice()) {
            Some(built) => built,
            None => {
                let remaining = all_indices(n);
                proof {
                    assert forall|k: int|
                        0 <= k < patterns.len() implies #[trigger] start_sets(patterns)[k] is None by {
                        assert(sets@[k] is None);
                    }
                    without_sets(start_sets(patterns));
                }
                (StartPrefilter::default(), remaining)
            },
        };
        assert(forall|b: u8| #[trigger]
            prefilter.at(b) == candidates::holders(start_sets(patterns), b));
        assert(remaining@ == candidates::gaps(start_sets(patterns)));
        proof {
            candidates::gaps_are_listed(start_sets(patterns));
            assert forall|k: int| 0 <= k < remaining@.len() implies #[trigger] remaining@[k]
                < patterns.len() by {
                assert(remaining@.contains(remaining@[k]));
            }
            assert forall|b: u8, k: int|
                0 <= k < prefilter.at(b).len() implies #[trigger] prefilter.at(b)[k] < patterns.len() by {
                candidates::holders_are_listed(start_sets(patterns), b);
                assert(prefilter.at(b).contains(prefilter.at(b)[k]));
            }
        }
        if remaining.len() == 0 {
            return Ok(Finder { regexes, prefilter, remainder: None });
        }
        let compiled = match compile_all(&regexes, &remaining) {
            Ok(compiled) => compiled,
            Err(e) => return Err(e),
        };
        let set = R::set_from_regexes(compiled);
        assert(call_ensures(R::set_from_regexes, (compiled,), set));
        match set {
            Ok(set) => {
                let remainder = Some(Remainder { set: Arc::new(set), indices: remaining });
                Ok(Finder { regexes, prefilter, remainder })
            },
            Err(e) => Err(e),
        }
    }
}

/// Whether trying the patterns numbered `list` at `pos`, in that order and up to the first that
/// matches or fails, can come out as `hit`.
pub open spec fn can_try<R: Regex>(
    patterns: Seq<Arc<LazyRegex<R>>>,
    list: Seq<usize>,
    input: RegexInput,
    pos: usize,
    hit: Result<Option<RegexSetMatch>>,
) -> bool
    decreases list.len(),
{
    if list.len() == 0 {
        hit == Ok::<Option<RegexSetMatch>, Error>(None)
    } else {
        exists|compiled: Result<Arc<R>>| #[trigger]
            patterns[list[0] as int].can_be(compiled) && match compiled {
                Ok(regex) => exists|tried: Result<Option<RegexSetMatch>>|
                    #[trigger] call_ensures(R::match_at, (&*regex, list[0], &input, pos), tried)
                        && match tried {
                        Ok(None) => can_try(patterns, list.drop_first(), input, pos, hit),
                        _ => hit == tried,
                    },
                Err(e) => hit == Err::<Option<RegexSetMatch>, Error>(e),
            }
    }
}

/// Whether there is no use to go on at `pos`: the search ends there, or `set_hit` comes before.
pub open spec fn is_past(input: RegexInput, set_hit: Option<RegexSetMatch>, pos: int) -> bool {
    pos >= input.end || (set_hit matches Some(m) && pos > m.start)
}

/// Whether trying the patterns with start bytes at one position after the other, from `pos` on, can
/// come out as `hit`.
pub open spec fn can_walk<R: Regex>(
    finder: Finder<R>,
    input: RegexInput,
    set_hit: Option<RegexSetMatch>,
    pos: int,
    hit: Result<Option<RegexSetMatch>>,
) -> bool
    decreases
            (if pos < input.end {
                input.end - pos
            } else {
                0
            }),
{
    if is_past(input, set_hit, pos) {
        hit == Ok::<Option<RegexSetMatch>, Error>(None)
    } else {
        exists|tried: Result<Option<RegexSetMatch>>| #[trigger]
            can_try(
                finder.patterns(),
                finder.at(input.haystack@[pos]),
                input,
                pos as usize,
                tried,
            ) && match tried {
                Ok(None) => if input.anchored {
                    hit == tried
                } else {
                    can_walk(finder, input, set_hit, input.next_position(pos), hit)
                },
                _ => hit == tried,
            }
    }
}

/// The earlier of two matches. Of two at one position, that of the pattern with the lower number.
pub open spec fn earlier(
    set_hit: Option<RegexSetMatch>,
    walk_hit: Option<RegexSetMatch>,
) -> Option<RegexSetMatch> {
    match (set_hit, walk_hit) {
        (Some(s), Some(w)) => if s.start < w.start || (s.start == w.start && s.pattern_index
            < w.pattern_index) {
            Some(s)
        } else {
            Some(w)
        },
        (Some(s), None) => Some(s),
        (None, w) => w,
    }
}

/// Whether a walk after a search for the other patterns that found `set_hit` can have the search
/// come out as `hit`.
pub open spec fn can_finish<R: Regex>(
    finder: Finder<R>,
    input: RegexInput,
    set_hit: Option<RegexSetMatch>,
    hit: Result<Option<RegexSetMatch>>,
) -> bool {
    exists|walked: Result<Option<RegexSetMatch>>| #[trigger]
        can_walk(finder, input, set_hit, input.start as int, walked) && match walked {
            Ok(walk_hit) => hit == Ok::<Option<RegexSetMatch>, Error>(earlier(set_hit, walk_hit)),
            Err(e) => hit == Err::<Option<RegexSetMatch>, Error>(e),
        }
}

/// Whether a search can come out as `hit`.
pub open spec fn can_find<R: Regex>(
    finder: Finder<R>,
    input: RegexInput,
    hit: Result<Option<RegexSetMatch>>,
) -> bool {
    if finder.patterns().len() == 0 {
        hit == Ok::<Option<RegexSetMatch>, Error>(None)
    } else {
        match finder.rest() {
            Some(rest) => exists|found: Result<Option<RegexSetMatch>>| #[trigger]
                set_can_find::<R>(rest.whole(), rest.places(), input, found) && match found {
                    Ok(set_hit) => if rest.places().len() == finder.patterns().len() {
                        hit == found
                    } else {
                        can_finish(finder, input, set_hit, hit)
                    },
                    Err(_) => hit == found,
                },
            None => can_finish(finder, input, None, hit),
        }
    }
}

impl<R: Regex> Finder<R> {
    /// Tries the patterns with start bytes at `pos`.
    fn try_at(&self, input: &RegexInput, pos: usize) -> (hit: Result<Option<RegexSetMatch>>)
        requires
            pos < input.haystack@.len(),
        ensures
            can_try(
                self.patterns(),
                self.at(input.haystack@[pos as int]),
                *input,
                pos,
                hit,
            ),
    {
        proof {
            use_type_invariant(self);
        }
        let b: u8 = input.haystack[pos];
        let ghost list = self.at(b);
        if !self.prefilter.may_match_at(b) {
            return Ok(None);
        }
        let candidates = self.prefilter.candidates(b);
        let mut i: usize = 0;
        assert(list.skip(0) =~= list);
        while i < candidates.len()
            invariant
                i <= candidates@.len(),
                candidates@ == list,
                list == self.at(input.haystack@[pos as int]),
                forall|k: int| 0 <= k < list.len() ==> #[trigger] list[k] < self.regexes@.len(),
                forall|o: Result<Option<RegexSetMatch>>| #[trigger]
                    can_try(self.patterns(), list.skip(i as int), *input, pos, o) ==> can_try(
                        self.patterns(),
                        list,
                        *input,
                        pos,
                        o,
                    ),
            decreases candidates@.len() - i,
        {
            let index: usize = candidates[i];
            proof {
                assert(list.skip(i as int)[0] == index);
                assert(list.skip(i as int).drop_first() =~= list.skip(i + 1));
            }
            let compiled = self.regexes[index].regex_ref();
            assert(self.patterns()[list.skip(i as int)[0] as int].can_be(
                self.regexes@[index as int].outcome(),
            ));
            match compiled {
                Ok(regex) => {
                    let tried = R::match_at(&**regex, index, input, pos);
                    assert(call_ensures(
                        R::match_at,
                        (&**regex, list.skip(i as int)[0], input, pos),
                        tried,
                    ));
                    match tried {
                        Ok(None) => {},
                        _ => {
                            assert(can_try(self.patterns(), list.skip(i as int), *input, pos, tried));
                            return tried;
                        },
                    }
                    assert forall|o: Result<Option<RegexSetMatch>>| #[trigger]
                        can_try(self.patterns(), list.skip(i + 1), *input, pos, o) implies can_try(
                        self.patterns(),
                        list,
                        *input,
                        pos,
                        o,
                    ) by {
                        assert(can_try(self.patterns(), list.skip(i as int), *input, pos, o));
                    }
                },
                Err(e) => {
                    assert(can_try(
                        self.patterns(),
                        list.skip(i as int),
                        *input,
                        pos,
                        Err::<Option<RegexSetMatch>, Error>(e),
                    ));
                    return Err(e);
                },
            }
            i += 1;
        }
        assert(can_try(
            self.patterns(),
            list.skip(i as int),
            *input,
            pos,
            Ok::<Option<RegexSetMatch>, Error>(None),
        ));
        Ok(None)
    }
}

impl<R: Regex> Finder<R> {
    /// Tries the patterns with start bytes at one position after the other. `set_hit` is the match of
    /// the other patterns: knowing where it starts lets the walk stop early.
    fn walk(&self, input: &RegexInput, set_hit: &Option<RegexSetMatch>) -> (hit: Result<
        Option<RegexSetMatch>,
    >)
        requires
            input.is_valid(),
        ensures
            can_walk(*self, *input, *set_hit, input.start as int, hit),
    {
        let mut pos: usize = input.start;
        while pos < input.end
            invariant
                input.is_valid(),
                forall|o: Result<Option<RegexSetMatch>>| #[trigger]
                    can_walk(*self, *input, *set_hit, pos as int, o) ==> can_walk(
                        *self,
                        *input,
                        *set_hit,
                        input.start as int,
                        o,
                    ),
            decreases
                    (if pos < input.end {
                        input.end - pos
                    } else {
                        0
                    }),
        {
            let ghost here = pos;
            if let Some(m) = set_hit {
                if pos > m.start {
                    assert(can_walk(*self, *input, *set_hit, here as int, Ok(None)));
                    return Ok(None);
                }
            }
            let tried = self.try_at(input, pos);
            assert(!is_past(*input, *set_hit, here as int));
            assert(can_try(
                self.patterns(),
                self.at(input.haystack@[here as int]),
                *input,
                (here as int) as usize,
                tried,
            ));
            match tried {
                Ok(None) => {},
                _ => {
                    assert(can_walk(*self, *input, *set_hit, here as int, tried));
                    return tried;
                },
            }
            if input.anchored {
                assert(can_walk(*self, *input, *set_hit, here as int, Ok(None)));
                return Ok(None);
            }
            pos = input.advance_position(pos);
            assert forall|o: Result<Option<RegexSetMatch>>| #[trigger]
                can_walk(*self, *input, *set_hit, pos as int, o) implies can_walk(
                *self,
                *input,
                *set_hit,
                input.start as int,
                o,
            ) by {
                assert(can_walk(*self, *input, *set_hit, here as int, o));
            }
        }
        assert(can_walk(*self, *input, *set_hit, pos as int, Ok(None)));
        Ok(None)
    }

    /// Searches for all patterns: the match that starts first, and of several at one position that of
    /// the pattern with the lowest number.
    pub fn find_input(&self, input: RegexInput) -> (hit: Result<Option<RegexSetMatch>>)
        requires
            input.is_valid(),
            self.rest() matches Some(rest) ==> set_knows_its_patterns::<R>(
                rest.whole(),
                input,
                rest.places().len(),
            ),
        ensures
            can_find(*self, input, hit),
    {
        if self.regexes.len() == 0 {
            return Ok(None);
        }
        let set_hit = match &self.remainder {
            Some(rest) => {
                let found = rest.find_input(input);
                assert(set_can_find::<R>(rest.whole(), rest.places(), input, found));
                match found {
                    Ok(set_hit) => {
                        if rest.indices.len() == self.regexes.len() {
                            return Ok(set_hit);
                        }
                        set_hit
                    },
                    Err(e) => return Err(e),
                }
            },
            None => None,
        };
        let walked = self.walk(&input, &set_hit);
        assert(can_walk(*self, input, set_hit, input.start as int, walked));
        let hit = match walked {
            Ok(walk_hit) => match (set_hit, walk_hit) {
                (Some(s), Some(w)) => {
                    // Earliest win, otherwise by the number of the pattern
                    if s.start < w.start || (s.start == w.start && s.pattern_index < w.pattern_index) {
                        Ok(Some(s))
                    } else {
                        Ok(Some(w))
                    }
                },
                (Some(s), None) => Ok(Some(s)),
                (None, w) => Ok(w),
            },
            Err(e) => Err(e),
        };
        assert(can_finish(*self, input, set_hit, hit));
        hit
    }
}

/// Whether building a finder for `patterns` can come out as `finder`.
pub open spec fn can_be_built<R: Regex>(
    patterns: Seq<Arc<LazyRegex<R>>>,
    finder: Result<Finder<R>>,
) -> bool {
    let places = candidates::gaps(start_sets(patterns));
    if !all_unicode(patterns) {
        finder matches Err(e) && is_mode_error(e)
    } else if places.len() == 0 {
        finder matches Ok(f) && f.is_for(patterns)
    } else {
        exists|compiled: Result<Vec<Arc<R>>>|
            #[trigger] can_compile_all(patterns, places, compiled) && match compiled {
                Ok(list) => exists|set: Result<R::Set>|
                    #[trigger] call_ensures(R::set_from_regexes, (list,), set) && match set {
                        Ok(whole) => finder matches Ok(f) && f.is_for(patterns)
                            && f.rest()->Some_0.whole() == whole,
                        Err(e) => finder == Err::<Finder<R>, Error>(e),
                    },
                Err(e) => finder == Err::<Finder<R>, Error>(e),
            }
    }
}

/// Copies of the start bytes of all patterns.
fn collect_start_bytes<R: Regex>(regexes: &Vec<Arc<LazyRegex<R>>>) -> (sets: Vec<Option<ByteSet>>)
    ensures
        candidates::sets_view(sets@) == start_sets(regexes@),
{
    let mut sets: Vec<Option<ByteSet>> = Vec::with_capacity(regexes.len());
    let mut i: usize = 0;
    while i < regexes.len()
        invariant
            i <= regexes@.len(),
            sets@.len() == i,
            forall|k: int|
                0 <= k < i ==> candidates::sets_view(sets@)[k] == #[trigger] regexes@[k].start_set(),
        decreases regexes@.len() - i,
    {
        let ghost before = sets@;
        let set = match regexes[i].start_bytes() {
            Some(set) => Some(set.clone()),
            None => None,
        };
        sets.push(set);
        assert(forall|k: int| 0 <= k < i ==> #[trigger] candidates::sets_view(sets@)[k]
            == candidates::sets_view(before)[k]);
        i += 1;
    }
    assert(candidates::sets_view(sets@) =~= start_sets(regexes@));
    sets
}

/// The numbers below `n`, in ascending order.
fn all_indices(n: usize) -> (list: Vec<usize>)
    ensures
        list@ == Seq::new(n as nat, |k: int| k as usize),
{
    let mut list: Vec<usize> = Vec::with_capacity(n);
    let mut i: usize = 0;
    while i < n
        invariant
            i <= n,
            list@ == Seq::new(i as nat, |k: int| k as usize),
        decreases n - i,
    {
        list.push(i);
        i += 1;
        assert(list@ =~= Seq::new(i as nat, |k: int| k as usize));
    }
    list
}

/// Where there are no sets at all, no set holds a byte and each place is a gap.
proof fn without_sets(sets: Seq<Option<Set<u8>>>)
    requires
        forall|k: int| 0 <= k < sets.len() ==> #[trigger] sets[k] is None,
    ensures
        candidates::gaps(sets) == Seq::new(sets.len(), |k: int| k as usize),
        forall|b: u8| #[trigger] candidates::holders(sets, b) == Seq::<usize>::empty(),
    decreases sets.len(),
{
    if sets.len() > 0 {
        without_sets(sets.drop_last());
        assert(sets.last() == sets[sets.len() - 1]);
        assert forall|b: u8| #[trigger] candidates::holders(sets, b) == Seq::<usize>::empty() by {
            assert(candidates::holders(sets.drop_last(), b) == Seq::<usize>::empty());
        }
    }
    assert(candidates::gaps(sets) =~= Seq::new(sets.len(), |k: int| k as usize));
}

/// Compiles the patterns numbered `indices`, up to the first that fails.
fn compile_all<R: Regex>(regexes: &Vec<Arc<LazyRegex<R>>>, indices: &Vec<usize>) -> (compiled: Result<
    Vec<Arc<R>>,
>)
    requires
        forall|k: int| 0 <= k < indices@.len() ==> #[trigger] indices@[k] < regexes@.len(),
    ensures
        can_compile_all(regexes@, indices@, compiled),
{
    let mut list: Vec<Arc<R>> = Vec::with_capacity(indices.len());
    let mut i: usize = 0;
    while i < indices.len()
        invariant
            i <= indices@.len(),
            forall|k: int| 0 <= k < indices@.len() ==> #[trigger] indices@[k] < regexes@.len(),
            list@.len() == i,
            forall|k: int|
                0 <= k < i ==> regexes@[indices@[k] as int].can_be(Ok(#[trigger] list@[k])),
        decreases indices@.len() - i,
    {
        match regexes[indices[i]].regex() {
            Ok(regex) => {
                list.push(regex);
            },
            Err(e) => {
                proof {
                    assert(compile_up_to(regexes@, indices@, i as int));
                    assert(regexes@[indices@[i as int] as int].can_be(Err(e)));
                }
                return Err(e);
            },
        }
        i += 1;
    }
    Ok(list)
}

/// What a search for the patterns of a set gives. A match is that which the engine answers with
/// first: it starts and ends there, and bears the number that stands in `places` for the engine's own.
/// There is none where the engine answers with none.
pub proof fn a_set_match_bears_its_place<R: Regex>(
    set: R::Set,
    places: Seq<usize>,
    input: RegexInput,
    hit: Option<RegexSetMatch>,
)
    requires
        set_can_find::<R>(set, places, input, Ok(hit)),
    ensures
        match hit {
            Some(h) => exists|matches: R::Matches, m: RegexSetMatch|
                call_ensures(R::set_find_input, (&set, &input), Ok(Some(matches)))
                    && #[trigger] call_ensures(R::first_match, (matches,), Some(Ok(m)))
                    && h.pattern_index == places[m.pattern_index as int] && h.start == m.start
                    && h.end == m.end,
            None => call_ensures(R::set_find_input, (&set, &input), Ok(None)) || exists|
                matches: R::Matches,
            |
                call_ensures(R::set_find_input, (&set, &input), Ok(Some(matches)))
                    && #[trigger] call_ensures(R::first_match, (matches,), None),
        },
{
}

/// A search for the patterns of a set fails only with what the engine fails with.
pub proof fn a_set_fails_with_the_engine<R: Regex>(
    set: R::Set,
    places: Seq<usize>,
    input: RegexInput,
    e: Error,
)
    requires
        set_can_find::<R>(set, places, input, Err(e)),
    ensures
        set_can_fail::<R>(set, input, e),
{
}

/// Whether the engine, asked for the patterns of a set, can fail with `e`.
pub open spec fn set_can_fail<R: Regex>(set: R::Set, input: RegexInput, e: Error) -> bool {
    call_ensures(R::set_find_input, (&set, &input), Err(e)) || exists|matches: R::Matches|
        call_ensures(R::set_find_input, (&set, &input), Ok(Some(matches)))
            && #[trigger] call_ensures(R::first_match, (matches,), Some(Err(e)))
}

/// Whether the engine, asked for one of `patterns` at a position, can fail with `e`.
pub open spec fn patterns_can_fail<R: Regex>(
    patterns: Seq<Arc<LazyRegex<R>>>,
    input: RegexInput,
    e: Error,
) -> bool {
    ||| exists|i: int| 0 <= i < patterns.len() && (#[trigger] patterns[i]).can_be(Err(e))
    ||| exists|i: usize, regex: Arc<R>, pos: usize|
        i < patterns.len() && patterns[i as int].can_be(Ok(regex)) && input.start <= pos < input.end
            && #[trigger] call_ensures(R::match_at, (&*regex, i, &input, pos), Err(e))
}

proof fn a_try_fails_with_the_engine<R: Regex>(
    patterns: Seq<Arc<LazyRegex<R>>>,
    list: Seq<usize>,
    input: RegexInput,
    pos: usize,
    e: Error,
)
    requires
        can_try(patterns, list, input, pos, Err(e)),
        input.start <= pos < input.end,
        forall|k: int| 0 <= k < list.len() ==> #[trigger] list[k] < patterns.len(),
    ensures
        patterns_can_fail(patterns, input, e),
    decreases list.len(),
{
    let hit = Err::<Option<RegexSetMatch>, Error>(e);
    if list.len() > 0 {
        let compiled = choose|compiled: Result<Arc<R>>| #[trigger]
            patterns[list[0] as int].can_be(compiled) && match compiled {
                Ok(regex) => exists|tried: Result<Option<RegexSetMatch>>|
                    #[trigger] call_ensures(R::match_at, (&*regex, list[0], &input, pos), tried)
                        && match tried {
                        Ok(None) => can_try(patterns, list.drop_first(), input, pos, hit),
                        _ => hit == tried,
                    },
                Err(e) => hit == Err::<Option<RegexSetMatch>, Error>(e),
            };
        if let Ok(regex) = compiled {
            let tried = choose|tried: Result<Option<RegexSetMatch>>|
                #[trigger] call_ensures(R::match_at, (&*regex, list[0], &input, pos), tried)
                    && match tried {
                    Ok(None) => can_try(patterns, list.drop_first(), input, pos, hit),
                    _ => hit == tried,
                };
            if tried matches Ok(None) {
                a_try_fails_with_the_engine(patterns, list.drop_first(), input, pos, e);
            } else {
                assert(call_ensures(R::match_at, (&*regex, list[0], &input, pos), Err(e)));
                assert(patterns[list[0] as int].can_be(Ok(regex)));
            }
        } else {
            assert(patterns[list[0] as int].can_be(Err(e)));
        }
    }
}

proof fn a_walk_fails_with_the_engine<R: Regex>(
    finder: Finder<R>,
    patterns: Seq<Arc<LazyRegex<R>>>,
    input: RegexInput,
    set_hit: Option<RegexSetMatch>,
    pos: int,
    e: Error,
)
    requires
        finder.is_for(patterns),
        patterns.len() <= usize::MAX,
        input.is_valid(),
        input.start <= pos,
        can_walk(finder, input, set_hit, pos, Err(e)),
    ensures
        patterns_can_fail(patterns, input, e),
    decreases
            (if pos < input.end {
                input.end - pos
            } else {
                0
            }),
{
    let hit = Err::<Option<RegexSetMatch>, Error>(e);
    if !is_past(input, set_hit, pos) {
        let b = input.haystack@[pos];
        let list = finder.at(b);
        let tried = choose|tried: Result<Option<RegexSetMatch>>| #[trigger]
            can_try(finder.patterns(), list, input, pos as usize, tried) && match tried {
                Ok(None) => if input.anchored {
                    hit == tried
                } else {
                    can_walk(finder, input, set_hit, input.next_position(pos), hit)
                },
                _ => hit == tried,
            };
        if tried matches Ok(None) {
            a_walk_fails_with_the_engine(
                finder,
                patterns,
                input,
                set_hit,
                input.next_position(pos),
                e,
            );
        } else {
            candidates::holders_are_listed(start_sets(patterns), b);
            assert forall|k: int| 0 <= k < list.len() implies #[trigger] list[k] < patterns.len() by {
                assert(list.contains(list[k]));
            }
            a_try_fails_with_the_engine(patterns, list, input, pos as usize, e);
        }
    }
}

/// A search fails only with what the engine fails with, when it compiles or matches a pattern or
/// searches for the set. So it does not fail where the engine does not.
pub proof fn a_search_fails_with_the_engine<R: Regex>(
    finder: Finder<R>,
    patterns: Seq<Arc<LazyRegex<R>>>,
    input: RegexInput,
    e: Error,
)
    requires
        finder.is_for(patterns),
        patterns.len() <= usize::MAX,
        input.is_valid(),
        can_find(finder, input, Err(e)),
    ensures
        patterns_can_fail(patterns, input, e) || (finder.rest() matches Some(rest)
            && set_can_fail::<R>(rest.whole(), input, e)),
{
    let hit = Err::<Option<RegexSetMatch>, Error>(e);
    match finder.rest() {
        Some(rest) => {
            let found = choose|found: Result<Option<RegexSetMatch>>| #[trigger]
                set_can_find::<R>(rest.whole(), rest.places(), input, found) && match found {
                    Ok(set_hit) => if rest.places().len() == finder.patterns().len() {
                        hit == found
                    } else {
                        can_finish(finder, input, set_hit, hit)
                    },
                    Err(_) => hit == found,
                };
            match found {
                Ok(set_hit) => {
                    assert(can_finish(finder, input, set_hit, hit));
                    a_walk_fails_with_the_engine(
                        finder,
                        patterns,
                        input,
                        set_hit,
                        input.start as int,
                        e,
                    );
                },
                Err(_) => {
                    a_set_fails_with_the_engine::<R>(rest.whole(), rest.places(), input, e);
                },
            }
        },
        None => {
            assert(can_finish(finder, input, None, hit));
            a_walk_fails_with_the_engine(finder, patterns, input, None, input.start as int, e);
        },
    }
}

/// What a finder for some patterns holds. All of them are for UTF-8 text. At a byte those are tried
/// whose start bytes it is one of, in ascending order, and the rest are those without start bytes.
pub proof fn a_finder_knows_its_patterns<R: Regex>(
    finder: Finder<R>,
    patterns: Seq<Arc<LazyRegex<R>>>,
)
    requires
        can_be_built(patterns, Ok(finder)),
        patterns.len() <= usize::MAX,
    ensures
        finder.patterns() == patterns,
        forall|i: int|
            0 <= i < patterns.len() ==> (#[trigger] patterns[i]).asked_options().bytes_mode
                == BytesMode::Unicode,
        forall|b: u8, i: usize| #[trigger]
            finder.at(b).contains(i) <==> i < patterns.len() && (
            patterns[i as int].start_set() matches Some(set) && set.contains(b)),
        forall|b: u8, j: int, k: int|
            0 <= j < k < finder.at(b).len() ==> #[trigger] finder.at(b)[j] < #[trigger] finder.at(b)[k],
        match finder.rest() {
            Some(rest) => {
                &&& rest.places().len() > 0
                &&& forall|i: usize| #[trigger]
                    rest.places().contains(i) <==> i < patterns.len()
                        && patterns[i as int].start_set() is None
                &&& forall|j: int, k: int|
                    0 <= j < k < rest.places().len() ==> #[trigger] rest.places()[j]
                        < #[trigger] rest.places()[k]
                // member `k` of the set is the pattern numbered `places[k]`
                &&& exists|list: Vec<Arc<R>>|
                    #[trigger] call_ensures(R::set_from_regexes, (list,), Ok(rest.whole()))
                        && list@.len() == rest.places().len() && forall|k: int|
                        0 <= k < list@.len() ==> patterns[rest.places()[k] as int].can_be(
                            Ok(#[trigger] list@[k]),
                        )
            },
            None => forall|i: int|
                0 <= i < patterns.len() ==> (#[trigger] patterns[i]).start_set() is Some,
        },
{
    let sets = start_sets(patterns);
    candidates::gaps_are_listed(sets);
    assert(forall|i: int| 0 <= i < sets.len() ==> #[trigger] sets[i] == patterns[i].start_set());
    assert forall|b: u8, i: usize| #[trigger]
        finder.at(b).contains(i) <==> i < patterns.len() && (
        patterns[i as int].start_set() matches Some(set) && set.contains(b)) by {
        candidates::holders_are_listed(sets, b);
        assert(candidates::holders(sets, b).contains(i) <==> i < sets.len()
            && candidates::has_byte(sets[i as int], b));
    }
    assert forall|b: u8, j: int, k: int|
        0 <= j < k < finder.at(b).len() implies #[trigger] finder.at(b)[j] < #[trigger] finder.at(
        b,
    )[k] by {
        candidates::holders_are_listed(sets, b);
    }
    let places = candidates::gaps(sets);
    match finder.rest() {
        Some(rest) => {
            let compiled = choose|compiled: Result<Vec<Arc<R>>>|
                #[trigger] can_compile_all(patterns, places, compiled) && match compiled {
                    Ok(list) => exists|set: Result<R::Set>|
                        #[trigger] call_ensures(R::set_from_regexes, (list,), set) && match set {
                            Ok(whole) => finder.is_for(patterns) && rest.whole() == whole,
                            Err(_) => false,
                        },
                    Err(_) => false,
                };
            let list = compiled->Ok_0;
            assert(call_ensures(R::set_from_regexes, (list,), Ok(rest.whole())));
        },
        None => {
            assert forall|i: int| 0 <= i < patterns.len() implies (
            #[trigger] patterns[i]).start_set() is Some by {
                if sets[i] is None {
                    assert(places.contains(i as usize));
                }
            }
        },
    }
}

/// Whether `places` holds the numbers of the patterns without start bytes, in ascending order.
pub open spec fn are_places_of_rest<R: Regex>(
    patterns: Seq<Arc<LazyRegex<R>>>,
    places: Seq<usize>,
) -> bool {
    &&& forall|i: usize| #[trigger]
        places.contains(i) <==> i < patterns.len() && patterns[i as int].start_set() is None
    &&& forall|j: int, k: int|
        0 <= j < k < places.len() ==> #[trigger] places[j] < #[trigger] places[k]
}

/// Whether `list` is what the patterns numbered `places` compile to.
pub open spec fn are_compiled<R: Regex>(
    patterns: Seq<Arc<LazyRegex<R>>>,
    places: Seq<usize>,
    list: Seq<Arc<R>>,
) -> bool {
    list.len() == places.len() && forall|k: int|
        0 <= k < list.len() ==> patterns[places[k] as int].can_be(Ok(#[trigger] list[k]))
}

/// When building a finder fails: with the error of the mode wherever a pattern is not for UTF-8 text,
/// and else with what the engine fails with, on the first pattern without start bytes that cannot be
/// compiled or on putting them together. So it does not fail where the engine does not.
pub proof fn building_fails_with_the_engine<R: Regex>(
    patterns: Seq<Arc<LazyRegex<R>>>,
    e: Error,
)
    requires
        can_be_built(patterns, Err::<Finder<R>, Error>(e)),
        patterns.len() <= usize::MAX,
    ensures
        if exists|i: int|
            0 <= i < patterns.len() && (#[trigger] patterns[i]).asked_options().bytes_mode
                == BytesMode::Bytes {
            e matches Error::CompileError(inner)
                && *inner matches CompileError::UnexpectedGeneralError(message) && message@
                == "Finder only supports `BytesMode::Unicode`, the LazyRegexes need to be constructed with that mode."@
        } else {
            exists|places: Seq<usize>| #[trigger]
                are_places_of_rest(patterns, places) && ({
                    ||| exists|k: int, list: Seq<Arc<R>>|
                        0 <= k < places.len() && patterns[places[k] as int].can_be(Err(e))
                            && #[trigger] are_compiled(patterns, places.take(k), list)
                    ||| exists|list: Vec<Arc<R>>| #[trigger]
                        are_compiled(patterns, places, list@) && call_ensures(
                            R::set_from_regexes,
                            (list,),
                            Err(e),
                        )
                })
        },
{
    let sets = start_sets(patterns);
    let places = candidates::gaps(sets);
    candidates::gaps_are_listed(sets);
    assert(forall|i: int| 0 <= i < sets.len() ==> #[trigger] sets[i] == patterns[i].start_set());
    if !all_unicode(patterns) {
        let i = choose|i: int|
            0 <= i < patterns.len() && (#[trigger] patterns[i]).asked_options().bytes_mode
                != BytesMode::Unicode;
        assert(patterns[i].asked_options().bytes_mode == BytesMode::Bytes);
    } else {
        let finder = Err::<Finder<R>, Error>(e);
        let compiled = choose|compiled: Result<Vec<Arc<R>>>|
            #[trigger] can_compile_all(patterns, places, compiled) && match compiled {
                Ok(list) => exists|set: Result<R::Set>|
                    #[trigger] call_ensures(R::set_from_regexes, (list,), set) && match set {
                        Ok(whole) => false,
                        Err(x) => finder == Err::<Finder<R>, Error>(x),
                    },
                Err(x) => finder == Err::<Finder<R>, Error>(x),
            };
        assert(are_places_of_rest(patterns, places));
        match compiled {
            Ok(list) => {
                assert(are_compiled(patterns, places, list@));
            },
            Err(x) => {
                let k = choose|k: int|
                    0 <= k < places.len() && patterns[#[trigger] places[k] as int].can_be(Err(x))
                        && compile_up_to(patterns, places, k);
                let list = choose|list: Seq<Arc<R>>|
                    list.len() == k && forall|j: int|
                        0 <= j < k ==> patterns[places[j] as int].can_be(Ok(#[trigger] list[j]));
                assert(are_compiled(patterns, places.take(k), list));
            },
        }
    }
}

} // verus!
