//! Which of many patterns can match at a byte.

use vstd::prelude::*;

use crate::lazy::byte_set::ByteSet;

verus! {

/// What sets of bytes hold, as far as there are sets.
pub open spec fn sets_view(sets: Seq<Option<ByteSet>>) -> Seq<Option<Set<u8>>> {
    sets.map_values(
        |set: Option<ByteSet>|
            match set {
                Some(set) => Some(set@),
                None => None,
            },
    )
}

/// Whether there is a set, and `b` is in it.
pub open spec fn has_byte(set: Option<Set<u8>>, b: u8) -> bool {
    match set {
        Some(bytes) => bytes.contains(b),
        None => false,
    }
}

/// The numbers of the sets that hold `b`, in ascending order.
pub open spec fn holders(sets: Seq<Option<Set<u8>>>, b: u8) -> Seq<usize>
    decreases sets.len(),
{
    if sets.len() == 0 {
        Seq::empty()
    } else {
        let before = holders(sets.drop_last(), b);
        if has_byte(sets.last(), b) {
            before.push((sets.len() - 1) as usize)
        } else {
            before
        }
    }
}

/// The numbers of the places where there is no set, in ascending order.
pub open spec fn gaps(sets: Seq<Option<Set<u8>>>) -> Seq<usize>
    decreases sets.len(),
{
    if sets.len() == 0 {
        Seq::empty()
    } else {
        let before = gaps(sets.drop_last());
        if sets.last() is None {
            before.push((sets.len() - 1) as usize)
        } else {
            before
        }
    }
}

/// The patterns that can match at each byte.
pub struct StartPrefilter {
    table: Vec<Vec<usize>>,
}

/// A table without patterns.
fn empty_table() -> (table: Vec<Vec<usize>>)
    ensures
        table@.len() == 256,
        forall|b: int| 0 <= b < 256 ==> (#[trigger] table@[b])@ == Seq::<usize>::empty(),
{
    let mut table: Vec<Vec<usize>> = Vec::with_capacity(256);
    while table.len() < 256
        invariant
            table@.len() <= 256,
            forall|b: int| 0 <= b < table@.len() ==> (#[trigger] table@[b])@ == Seq::<usize>::empty(),
        decreases 256 - table@.len(),
    {
        table.push(Vec::new());
    }
    table
}

/// Adds `index` at each byte of `bytes`.
fn add_index(table: &mut Vec<Vec<usize>>, bytes: &ByteSet, index: usize)
    requires
        old(table)@.len() == 256,
    ensures
        final(table)@.len() == 256,
        forall|b: u8|
            (#[trigger] final(table)@[b as int])@ == if bytes@.contains(b) {
                old(table)@[b as int]@.push(index)
            } else {
                old(table)@[b as int]@
            },
{
    let list = bytes.iter();
    let mut i: usize = 0;
    while i < list.len()
        invariant
            i <= list@.len(),
            table@.len() == 256,
            forall|x: int, y: int| 0 <= x < y < list@.len() ==> list@[x] < list@[y],
            forall|b: u8|
                (#[trigger] table@[b as int])@ == if list@.take(i as int).contains(b) {
                    old(table)@[b as int]@.push(index)
                } else {
                    old(table)@[b as int]@
                },
        decreases list@.len() - i,
    {
        let at: usize = list[i] as usize;
        let ghost before = table@;
        proof {
            let b = list@[i as int];
            let done = list@.take(i as int);
            assert(!done.contains(b)) by {
                if done.contains(b) {
                    let k = choose|k: int| 0 <= k < done.len() && done[k] == b;
                    assert(list@[k] < list@[i as int]);
                }
            }
            assert(list@.take(i + 1) =~= done.push(b));
        }
        table[at].push(index);
        proof {
            let done = list@.take(i as int);
            assert forall|b: u8| (#[trigger] table@[b as int])@ == if list@.take(i + 1).contains(b) {
                old(table)@[b as int]@.push(index)
            } else {
                old(table)@[b as int]@
            } by {
                assert(before[b as int]@ == if done.contains(b) {
                    old(table)@[b as int]@.push(index)
                } else {
                    old(table)@[b as int]@
                });
                vstd::seq_lib::lemma_seq_contains_after_push(done, list@[i as int], b);
            }
        }
        i += 1;
    }
    proof {
        assert(list@.take(i as int) =~= list@);
        assert(forall|b: u8| list@.contains(b) <==> bytes@.contains(b));
    }
}

impl StartPrefilter {
    #[verifier::type_invariant]
    spec fn is_complete(self) -> bool {
        self.table@.len() == 256
    }

    /// The patterns that can match at `b`.
    pub closed spec fn at(self, b: u8) -> Seq<usize> {
        self.table@[b as int]@
    }

    /// The prefilter for the patterns whose start bytes are known, and the numbers of the others.
    /// `None` where there are no start bytes at all.
    pub fn from_byte_sets(sets: &[Option<ByteSet>]) -> (built: Option<(StartPrefilter, Vec<usize>)>)
        ensures
            built is None <==> forall|i: int| 0 <= i < sets@.len() ==> #[trigger] sets@[i] is None,
            built matches Some((prefilter, remaining)) ==> {
                &&& forall|b: u8| #[trigger] prefilter.at(b) == holders(sets_view(sets@), b)
                &&& remaining@ == gaps(sets_view(sets@))
            },
    {
        let ghost view = sets_view(sets@);
        let mut table = empty_table();
        let mut remaining: Vec<usize> = Vec::new();
        let mut any = false;
        let mut i: usize = 0;
        while i < sets.len()
            invariant
                i <= sets@.len(),
                view == sets_view(sets@),
                table@.len() == 256,
                !any <==> forall|k: int| 0 <= k < i ==> #[trigger] sets@[k] is None,
                forall|b: u8| (#[trigger] table@[b as int])@ == holders(view.take(i as int), b),
                remaining@ == gaps(view.take(i as int)),
            decreases sets@.len() - i,
        {
            proof {
                assert(view.take(i + 1).drop_last() =~= view.take(i as int));
                assert(view.take(i + 1).last() == view[i as int]);
            }
            match &sets[i] {
                Some(set) => {
                    add_index(&mut table, set, i);
                    any = true;
                },
                None => {
                    remaining.push(i);
                },
            }
            i += 1;
        }
        assert(view.take(i as int) =~= view);
        if any {
            Some((StartPrefilter { table }, remaining))
        } else {
            None
        }
    }

    /// Whether a pattern can match at `b`.
    pub fn may_match_at(&self, b: u8) -> (possible: bool)
        ensures
            possible <==> self.at(b).len() > 0,
    {
        proof {
            use_type_invariant(self);
        }
        self.table[b as usize].len() > 0
    }

    /// The patterns that can match at `b`, in ascending order.
    pub fn candidates(&self, b: u8) -> (list: &Vec<usize>)
        ensures
            list@ == self.at(b),
    {
        proof {
            use_type_invariant(self);
        }
        &self.table[b as usize]
    }
}

impl Default for StartPrefilter {
    fn default() -> (prefilter: Self)
        ensures
            forall|b: u8| #[trigger] prefilter.at(b) == Seq::<usize>::empty(),
    {
        let table = empty_table();
        StartPrefilter { table }
    }
}

/// A set holds a byte exactly where its number is listed, and the list is ascending.
pub proof fn holders_are_listed(sets: Seq<Option<Set<u8>>>, b: u8)
    requires
        sets.len() <= usize::MAX,
    ensures
        forall|i: int, j: int|
            0 <= i < j < holders(sets, b).len() ==> holders(sets, b)[i] < holders(sets, b)[j],
        forall|k: usize|
            #[trigger] holders(sets, b).contains(k) <==> k < sets.len() && has_byte(sets[k as int], b),
    decreases sets.len(),
{
    if sets.len() > 0 {
        let rest = sets.drop_last();
        let before = holders(rest, b);
        let last = (sets.len() - 1) as usize;
        holders_are_listed(rest, b);
        assert forall|k: usize| #[trigger] holders(sets, b).contains(k) <==> k < sets.len()
            && has_byte(sets[k as int], b) by {
            vstd::seq_lib::lemma_seq_contains_after_push(before, last, k);
            assert(before.contains(k) <==> k < rest.len() && has_byte(rest[k as int], b));
        }
        assert forall|i: int, j: int| 0 <= i < j < holders(sets, b).len() implies holders(sets, b)[i]
            < holders(sets, b)[j] by {
            assert(before.contains(before[i]));
        }
    }
}

/// A place has no set exactly where its number is listed, and the list is ascending.
pub proof fn gaps_are_listed(sets: Seq<Option<Set<u8>>>)
    requires
        sets.len() <= usize::MAX,
    ensures
        gaps(sets).len() <= sets.len(),
        forall|i: int, j: int| 0 <= i < j < gaps(sets).len() ==> gaps(sets)[i] < gaps(sets)[j],
        forall|k: usize|
            #[trigger] gaps(sets).contains(k) <==> k < sets.len() && sets[k as int] is None,
    decreases sets.len(),
{
    if sets.len() > 0 {
        let rest = sets.drop_last();
        let before = gaps(rest);
        let last = (sets.len() - 1) as usize;
        gaps_are_listed(rest);
        assert forall|k: usize| #[trigger] gaps(sets).contains(k) <==> k < sets.len()
            && sets[k as int] is None by {
            vstd::seq_lib::lemma_seq_contains_after_push(before, last, k);
            assert(before.contains(k) <==> k < rest.len() && rest[k as int] is None);
        }
        assert forall|i: int, j: int| 0 <= i < j < gaps(sets).len() implies gaps(sets)[i] < gaps(
            sets,
        )[j] by {
            assert(before.contains(before[i]));
        }
    }
}

/// The patterns that can match at a byte are exactly those that have it among their start bytes, and
/// they are handed out in order.
pub proof fn who_can_match_at_a_byte(
    sets: &[Option<ByteSet>],
    prefilter: StartPrefilter,
    remaining: Vec<usize>,
    b: u8,
    list: &Vec<usize>,
    possible: bool,
)
    requires
        sets@.len() <= usize::MAX,
        call_ensures(StartPrefilter::from_byte_sets, (sets,), Some((prefilter, remaining))),
        call_ensures(StartPrefilter::candidates, (&prefilter, b), list),
        call_ensures(StartPrefilter::may_match_at, (&prefilter, b), possible),
    ensures
        forall|i: int, j: int| 0 <= i < j < list@.len() ==> list@[i] < list@[j],
        forall|k: usize| #[trigger]
            list@.contains(k) <==> k < sets@.len() && (sets@[k as int] matches Some(set)
                && set@.contains(b)),
        possible <==> exists|k: int|
            0 <= k < sets@.len() && (#[trigger] sets@[k] matches Some(set) && set@.contains(b)),
{
    let view = sets_view(sets@);
    holders_are_listed(view, b);
    let built = Some((prefilter, remaining));
    assert(built->Some_0.0.at(b) == holders(view, b));
    assert forall|k: usize| #[trigger]
        list@.contains(k) <==> k < sets@.len() && (sets@[k as int] matches Some(set)
            && set@.contains(b)) by {
        assert(holders(view, b).contains(k) <==> k < view.len() && has_byte(view[k as int], b));
    }
    if possible {
        let k = list@[0];
        assert(list@.contains(k));
        assert(sets@[k as int] is Some);
    }
    if exists|k: int|
        0 <= k < sets@.len() && (#[trigger] sets@[k] matches Some(set) && set@.contains(b)) {
        let k = choose|k: int|
            0 <= k < sets@.len() && (#[trigger] sets@[k] matches Some(set) && set@.contains(b));
        assert(list@.contains(k as usize));
    }
}

/// The patterns that are left over are exactly those without start bytes, in order.
pub proof fn who_is_left_over(
    sets: &[Option<ByteSet>],
    prefilter: StartPrefilter,
    remaining: Vec<usize>,
)
    requires
        sets@.len() <= usize::MAX,
        call_ensures(StartPrefilter::from_byte_sets, (sets,), Some((prefilter, remaining))),
    ensures
        forall|i: int, j: int| 0 <= i < j < remaining@.len() ==> remaining@[i] < remaining@[j],
        forall|k: usize| #[trigger]
            remaining@.contains(k) <==> k < sets@.len() && sets@[k as int] is None,
{
    let view = sets_view(sets@);
    gaps_are_listed(view);
    assert forall|k: usize| #[trigger]
        remaining@.contains(k) <==> k < sets@.len() && sets@[k as int] is None by {
        assert(gaps(view).contains(k) <==> k < view.len() && view[k as int] is None);
    }
}

} // verus!
