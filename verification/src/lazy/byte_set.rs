//! A set of bytes, and the walk over the bits of a bitmap.

use vstd::prelude::*;

verus! {

/// Whether bit `k` of `word` is set.
pub open spec fn word_bit(word: u64, k: int) -> bool {
    0 <= k < 64 && (word >> (k as u64)) & 1 == 1
}

/// Whether bit `k` of the bitmap `words` is set: bit `k % 64` of word `k / 64`.
pub open spec fn bitmap_bit(words: Seq<u64>, k: int) -> bool {
    0 <= k < words.len() * 64 && word_bit(words[k / 64], k % 64)
}

/// `list` holds exactly the positions of the bits set in `words`, lowest first and each once.
pub open spec fn lists_bits(list: Seq<usize>, words: Seq<u64>) -> bool {
    &&& forall|i: int, j: int| 0 <= i < j < list.len() ==> list[i] < list[j]
    &&& forall|k: usize| #[trigger] list.contains(k) <==> bitmap_bit(words, k as int)
}

/// A set of bytes, stored as a 256 bits bitmap
#[derive(Debug, PartialEq, Eq)]
pub struct ByteSet([u64; 4]);

impl View for ByteSet {
    type V = Set<u8>;

    closed spec fn view(&self) -> Set<u8> {
        Set::new(|b: u8| bitmap_bit(self.0@, b as int))
    }
}

impl ByteSet {
    pub fn new() -> (set: Self)
        ensures
            set@ == Set::<u8>::empty(),
    {
        let set = ByteSet([0, 0, 0, 0]);
        assert forall|b: u8| !set@.contains(b) by {
            let k = (b % 64) as u64;
            assert((0u64 >> k) & 1 == 0) by (bit_vector);
        }
        set
    }

    pub fn insert(&mut self, byte: u8)
        ensures
            final(self)@ == old(self)@.insert(byte),
    {
        let w: usize = (byte >> 6) as usize;
        assert(byte >> 6 == byte / 64 && byte & 63 == byte % 64) by (bit_vector);
        let k: u8 = byte & 63;
        let ghost before = self.0@;
        self.0[w] = self.0[w] | (1u64 << k);
        assert forall|b: u8| self@.contains(b) == old(self)@.insert(byte).contains(b) by {
            let x = before[w as int];
            let j = (b % 64) as u64;
            let k = k as u64;
            assert(((x | (1u64 << k)) >> j) & 1 == (if j == k { 1 } else { (x >> j) & 1 }))
                by (bit_vector)
                requires
                    j < 64,
                    k < 64,
            ;
        }
    }

    pub fn is_empty(&self) -> (empty: bool)
        ensures
            empty == (self@ == Set::<u8>::empty()),
    {
        let empty = self.0[0] == 0 && self.0[1] == 0 && self.0[2] == 0 && self.0[3] == 0;
        proof {
            if empty {
                assert forall|b: u8| !self@.contains(b) by {
                    let k = (b % 64) as u64;
                    assert((0u64 >> k) & 1 == 0) by (bit_vector);
                }
                assert(self@ =~= Set::<u8>::empty());
            } else {
                let w: int = if self.0[0] != 0 {
                    0
                } else if self.0[1] != 0 {
                    1
                } else if self.0[2] != 0 {
                    2
                } else {
                    3
                };
                let x = self.0@[w];
                vstd::std_specs::bits::axiom_u64_trailing_zeros(x);
                let b = (w * 64 + vstd::std_specs::bits::u64_trailing_zeros(x)) as u8;
                assert(self@.contains(b));
            }
        }
        empty
    }

    pub fn contains(&self, byte: u8) -> (found: bool)
        ensures
            found == self@.contains(byte),
    {
        let w: usize = (byte >> 6) as usize;
        assert(byte >> 6 == byte / 64 && byte & 63 == byte % 64) by (bit_vector);
        let k: u8 = byte & 63;
        proof {
            let x = self.0@[w as int];
            let k = k as u64;
            assert((x & (1u64 << k) != 0) == ((x >> k) & 1 == 1)) by (bit_vector)
                requires
                    k < 64,
            ;
        }
        self.0[w] & (1u64 << k) != 0
    }

    pub fn union(&mut self, other: &Self)
        ensures
            final(self)@ == old(self)@.union(other@),
    {
        let mut i: usize = 0;
        while i < 4
            invariant
                i <= 4,
                forall|j: int| 0 <= j < i ==> self.0@[j] == old(self).0@[j] | other.0@[j],
                forall|j: int| i <= j < 4 ==> self.0@[j] == old(self).0@[j],
            decreases 4 - i,
        {
            self.0[i] = self.0[i] | other.0[i];
            i += 1;
        }
        assert forall|b: u8| self@.contains(b) == old(self)@.union(other@).contains(b) by {
            let x = old(self).0@[b as int / 64];
            let y = other.0@[b as int / 64];
            let k = (b % 64) as u64;
            assert(((x | y) >> k) & 1 == 1 <==> ((x >> k) & 1 == 1 || (y >> k) & 1 == 1))
                by (bit_vector);
        }
    }

    /// The bytes of the set, in ascending order
    pub fn iter(&self) -> (bytes: Vec<u8>)
        ensures
            forall|i: int, j: int| 0 <= i < j < bytes@.len() ==> bytes@[i] < bytes@[j],
            forall|b: u8| #[trigger] bytes@.contains(b) <==> self@.contains(b),
    {
        let bits = set_bits(&self.0);
        let mut bytes: Vec<u8> = Vec::new();
        let mut i: usize = 0;
        while i < bits.len()
            invariant
                i <= bits@.len(),
                lists_bits(bits@, self.0@),
                bytes@.len() == i,
                forall|j: int| 0 <= j < i ==> bytes@[j] == bits@[j] && bits@[j] < 256,
            decreases bits@.len() - i,
        {
            assert(bits@.contains(bits@[i as int]));
            bytes.push(bits[i] as u8);
            i += 1;
        }
        assert forall|b: u8| #[trigger] bytes@.contains(b) <==> self@.contains(b) by {
            if bytes@.contains(b) {
                let j = choose|j: int| 0 <= j < bytes@.len() && bytes@[j] == b;
                assert(bits@.contains(bits@[j]));
            }
            if self@.contains(b) {
                assert(bits@.contains(b as usize));
                let j = choose|j: int| 0 <= j < bits@.len() && bits@[j] == b as usize;
                assert(bytes@[j] == b);
            }
        }
        bytes
    }
}

impl Default for ByteSet {
    fn default() -> (set: Self)
        ensures
            set@ == Set::<u8>::empty(),
    {
        ByteSet::new()
    }
}

impl Clone for ByteSet {
    fn clone(&self) -> (set: Self)
        ensures
            set@ == self@,
    {
        ByteSet(self.0)
    }
}

/// The positions of the bits set, starting from the lowest
pub fn bits_of(word: u64) -> (bits: Vec<usize>)
    ensures
        lists_bits(bits@, seq![word]),
{
    let mut rest: u64 = word;
    let mut bits: Vec<usize> = Vec::new();
    while rest != 0
        invariant
            forall|i: int, j: int| 0 <= i < j < bits@.len() ==> bits@[i] < bits@[j],
            forall|k: usize|
                #![trigger bits@.contains(k)]
                #![trigger word_bit(word, k as int)]
                word_bit(word, k as int) <==> bits@.contains(k) || word_bit(rest, k as int),
            forall|i: int, k: int|
                0 <= i < bits@.len() && #[trigger] word_bit(rest, k) ==> #[trigger] bits@[i] < k,
        decreases rest,
    {
        let ghost old_bits = bits@;
        let ghost old_rest = rest;
        let bit: usize = rest.trailing_zeros() as usize;
        proof {
            vstd::std_specs::bits::axiom_u64_trailing_zeros(rest);
            let t = bit as u64;
            let cleared = rest & ((rest - 1) as u64);
            assert forall|k: int| #[trigger] word_bit(cleared, k) <==> word_bit(rest, k) && k != t by {
                if 0 <= k < 64 {
                    let j = k as u64;
                    assert(((rest & ((rest - 1) as u64)) >> j) & 1 == (if j == t {
                        0
                    } else {
                        (rest >> j) & 1
                    })) by (bit_vector)
                        requires
                            t < 64,
                            j < 64,
                            (rest >> t) & 1 == 1,
                            rest << ((64 - t) as u64) == 0,
                    ;
                }
            }
            assert(rest & ((rest - 1) as u64) < rest) by (bit_vector)
                requires
                    rest != 0,
            ;
            assert forall|k: int| #[trigger] word_bit(rest, k) implies t <= k by {
                if k < t {
                    assert((rest >> (k as u64)) & 1u64 == 0u64);
                }
            }
            assert(word_bit(rest, t as int));
        }
        // clear the lowest set bit so that the next turn gets the following one
        rest = rest & (rest - 1);
        bits.push(bit);
        proof {
            assert forall|k: usize|
                #![trigger bits@.contains(k)]
                #![trigger word_bit(word, k as int)]
                word_bit(word, k as int) <==> bits@.contains(k) || word_bit(rest, k as int) by {
                assert(bits@[old_bits.len() as int] == bit);
                if old_bits.contains(k) {
                    let j = choose|j: int| 0 <= j < old_bits.len() && old_bits[j] == k;
                    assert(bits@[j] == k);
                }
                if bits@.contains(k) && k != bit {
                    let j = choose|j: int| 0 <= j < bits@.len() && bits@[j] == k;
                    assert(old_bits[j] == k);
                }
            }
        }
    }
    proof {
        assert forall|k: usize| #[trigger] bits@.contains(k) <==> bitmap_bit(seq![word], k as int) by {
            let j = k as u64;
            assert((0u64 >> j) & 1 == 0) by (bit_vector);
            assert(word_bit(word, k as int) <==> bits@.contains(k));
        }
    }
    bits
}

/// The positions of the bits set in a bitmap of 64 bit words, starting from the lowest
pub fn set_bits(words: &[u64]) -> (bits: Vec<usize>)
    requires
        words@.len() * 64 <= usize::MAX,
    ensures
        lists_bits(bits@, words@),
{
    let mut bits: Vec<usize> = Vec::new();
    let mut i: usize = 0;
    while i < words.len()
        invariant
            i <= words@.len(),
            words@.len() * 64 <= usize::MAX,
            forall|a: int, b: int| 0 <= a < b < bits@.len() ==> bits@[a] < bits@[b],
            forall|k: usize|
                #![trigger bits@.contains(k)]
                #![trigger bitmap_bit(words@, k as int)]
                bits@.contains(k) <==> k < i * 64 && bitmap_bit(words@, k as int),
        decreases words@.len() - i,
    {
        let ghost old_bits = bits@;
        let in_word = bits_of(words[i]);
        let mut j: usize = 0;
        while j < in_word.len()
            invariant
                i < words@.len(),
                words@.len() * 64 <= usize::MAX,
                j <= in_word@.len(),
                lists_bits(in_word@, seq![words@[i as int]]),
                bits@.len() == old_bits.len() + j,
                forall|a: int| 0 <= a < old_bits.len() ==> bits@[a] == old_bits[a],
                forall|a: int|
                    0 <= a < j ==> #[trigger] bits@[old_bits.len() + a] == i * 64 + in_word@[a],
            decreases in_word@.len() - j,
        {
            assert(in_word@.contains(in_word@[j as int]));
            bits.push(i * 64 + in_word[j]);
            j += 1;
        }
        proof {
            assert forall|a: int, b: int| 0 <= a < b < bits@.len() implies bits@[a] < bits@[b] by {
                if a < old_bits.len() <= b {
                    assert(old_bits.contains(old_bits[a]));
                    assert(bits@[a] < i * 64);
                    assert(bits@[old_bits.len() + (b - old_bits.len())] >= i * 64);
                } else if b < old_bits.len() {
                    assert(old_bits[a] < old_bits[b]);
                } else {
                    let x = a - old_bits.len();
                    let y = b - old_bits.len();
                    assert(bits@[old_bits.len() + x] == i * 64 + in_word@[x]);
                    assert(bits@[old_bits.len() + y] == i * 64 + in_word@[y]);
                }
            }
            assert forall|k: usize|
                #![trigger bits@.contains(k)]
                #![trigger bitmap_bit(words@, k as int)]
                bits@.contains(k) <==> k < (i + 1) * 64 && bitmap_bit(words@, k as int) by {
                if bits@.contains(k) {
                    let a = choose|a: int| 0 <= a < bits@.len() && bits@[a] == k;
                    if a < old_bits.len() {
                        assert(old_bits.contains(old_bits[a]));
                    } else {
                        let b = a - old_bits.len();
                        assert(bits@[old_bits.len() + b] == i * 64 + in_word@[b]);
                        assert(in_word@.contains(in_word@[b]));
                    }
                }
                if k < (i + 1) * 64 && bitmap_bit(words@, k as int) {
                    if k < i * 64 {
                        assert(old_bits.contains(k));
                        let a = choose|a: int| 0 <= a < old_bits.len() && old_bits[a] == k;
                        assert(bits@[a] == k);
                    } else {
                        let m = (k - i * 64) as usize;
                        assert(in_word@.contains(m));
                        let b = choose|b: int| 0 <= b < in_word@.len() && in_word@[b] == m;
                        assert(bits@[old_bits.len() + b] == k);
                    }
                }
            }
        }
        i += 1;
    }
    bits
}

/// What a list of bits is: each position `k` whose bit in the bitmap is set, lowest first.
pub proof fn the_bits_set_are_listed(words: &[u64], bits: Vec<usize>)
    requires
        call_ensures(set_bits, (words,), bits),
    ensures
        forall|i: int, j: int| 0 <= i < j < bits@.len() ==> bits@[i] < bits@[j],
        forall|k: usize| #[trigger]
            bits@.contains(k) <==> k < words@.len() * 64 && words@[k as int / 64] & (1u64 << ((k
                % 64) as u64)) != 0,
{
    assert forall|k: usize| #[trigger]
        bits@.contains(k) <==> k < words@.len() * 64 && words@[k as int / 64] & (1u64 << ((k
            % 64) as u64)) != 0 by {
        a_bit_is_its_mask(words@[k as int / 64], (k % 64) as u64);
    }
}

/// What a list of the bits of one word is: each position `k` whose bit is set, lowest first.
pub proof fn the_bits_of_a_word_are_listed(word: u64, bits: Vec<usize>)
    requires
        call_ensures(bits_of, (word,), bits),
    ensures
        forall|i: int, j: int| 0 <= i < j < bits@.len() ==> bits@[i] < bits@[j],
        forall|k: usize| #[trigger]
            bits@.contains(k) <==> k < 64 && word & (1u64 << (k as u64)) != 0,
{
    assert forall|k: usize| #[trigger]
        bits@.contains(k) <==> k < 64 && word & (1u64 << (k as u64)) != 0 by {
        if k < 64 {
            a_bit_is_its_mask(word, k as u64);
        }
    }
}

proof fn a_bit_is_its_mask(x: u64, k: u64)
    requires
        k < 64,
    ensures
        word_bit(x, k as int) <==> x & (1u64 << k) != 0,
{
    assert((x & (1u64 << k) != 0) == ((x >> k) & 1 == 1)) by (bit_vector)
        requires
            k < 64,
    ;
}

} // verus!
