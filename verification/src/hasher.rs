//! The 64-bit xxHash finaliser used to place keys in buckets.

use vstd::prelude::*;

verus! {

/// The result type of every hash function in this module.
pub type Hash = u64;

pub const PRIME_1: u64 = 11_400_714_785_074_694_791;
pub const PRIME_2: u64 = 14_029_467_366_897_019_727;
pub const PRIME_3: u64 = 1_609_587_929_392_839_161;
pub const PRIME_4: u64 = 9_650_029_242_287_828_579;
pub const PRIME_5: u64 = 2_870_177_450_012_600_261;

/// The initial accumulator before any input is mixed in.
pub const SEED: u64 = 0x9e3779b97f4a7c13u64;

/// Rotation of a 64-bit word to the left by `r` bits, for `0 < r < 64`.
pub open spec fn rotl(x: u64, r: u64) -> u64 {
    (x << r) | (x >> (64 - r) as u64)
}

/// Multiplication modulo 2^64.
pub open spec fn mul64(x: u64, y: u64) -> u64 {
    vstd::wrapping::u64_specs::wrapping_mul(x, y)
}

/// Addition modulo 2^64.
pub open spec fn add64(x: u64, y: u64) -> u64 {
    vstd::wrapping::u64_specs::wrapping_add(x, y)
}

/// The accumulator after the seed and the input length (8 bytes) are added.
pub open spec fn initial_acc() -> u64 {
    add64(add64(SEED, PRIME_5), 8)
}

/// One xxHash input round: scramble the input word.
pub open spec fn round(k: u64) -> u64 {
    mul64(rotl(mul64(k, PRIME_2), 31), PRIME_1)
}

/// Mixing the scrambled word into the accumulator.
pub open spec fn merge(acc: u64, k: u64) -> u64 {
    add64(mul64(rotl(acc ^ round(k), 27), PRIME_1), PRIME_4)
}

/// The final avalanche that spreads every input bit over the whole word.
pub open spec fn avalanche(h: u64) -> u64 {
    let h1 = mul64(h ^ (h >> 33u64), PRIME_2);
    let h2 = mul64(h1 ^ (h1 >> 29u64), PRIME_3);
    h2 ^ (h2 >> 32u64)
}

/// The hash of one 64-bit word.
pub open spec fn spec_xxhash(k: u64) -> u64 {
    avalanche(merge(initial_acc(), k))
}

/// Hashes a single 64-bit word.
pub fn xxhash(k: u64) -> (h: Hash)
    ensures
        h == spec_xxhash(k),
{
    let mut k1: u64 = k;
    let mut h64: u64 = SEED;
    h64 = h64.wrapping_add(PRIME_5);
    h64 = h64.wrapping_add(8);

    k1 = k1.wrapping_mul(PRIME_2);
    k1 = (k1 << 31u64) | (k1 >> 33u64);
    k1 = k1.wrapping_mul(PRIME_1);
    h64 = h64 ^ k1;
    h64 = (h64 << 27u64) | (h64 >> 37u64);
    h64 = h64.wrapping_mul(PRIME_1);
    h64 = h64.wrapping_add(PRIME_4);

    h64 = h64 ^ (h64 >> 33u64);
    h64 = h64.wrapping_mul(PRIME_2);
    h64 = h64 ^ (h64 >> 29u64);
    h64 = h64.wrapping_mul(PRIME_3);
    h64 = h64 ^ (h64 >> 32u64);
    h64
}

/// The hash of a sequence of 64-bit words: the exclusive or of the hashes of
/// its words (0 for no words).
pub open spec fn xor_hash(words: Seq<u64>) -> u64
    decreases words.len(),
{
    if words.len() == 0 {
        0
    } else {
        xor_hash(words.drop_last()) ^ spec_xxhash(words.last())
    }
}

/// The word hash is the XXH64 finaliser of an 8-byte input, written out
/// step by step with wrapping arithmetic: the accumulator starts at
/// `SEED + PRIME_5 + 8`; the input is multiplied by `PRIME_2`, rotated left
/// by 31 and multiplied by `PRIME_1`; it is xor-ed into the accumulator,
/// which is rotated left by 27, multiplied by `PRIME_1` and increased by
/// `PRIME_4`; then the avalanche xor-shifts by 33, multiplies by `PRIME_2`,
/// xor-shifts by 29, multiplies by `PRIME_3` and xor-shifts by 32.
pub proof fn law_xxhash_is_xxh64_finaliser(k: u64)
    ensures
        ({
            let acc0 = vstd::wrapping::u64_specs::wrapping_add(
                vstd::wrapping::u64_specs::wrapping_add(0x9e3779b97f4a7c13u64, 2_870_177_450_012_600_261u64),
                8u64,
            );
            let a = vstd::wrapping::u64_specs::wrapping_mul(k, 14_029_467_366_897_019_727u64);
            let b = (a << 31u64) | (a >> 33u64);
            let c = vstd::wrapping::u64_specs::wrapping_mul(b, 11_400_714_785_074_694_791u64);
            let d = acc0 ^ c;
            let e = (d << 27u64) | (d >> 37u64);
            let f = vstd::wrapping::u64_specs::wrapping_add(
                vstd::wrapping::u64_specs::wrapping_mul(e, 11_400_714_785_074_694_791u64),
                9_650_029_242_287_828_579u64,
            );
            let g = vstd::wrapping::u64_specs::wrapping_mul(f ^ (f >> 33u64), 14_029_467_366_897_019_727u64);
            let h = vstd::wrapping::u64_specs::wrapping_mul(g ^ (g >> 29u64), 1_609_587_929_392_839_161u64);
            spec_xxhash(k) == h ^ (h >> 32u64)
        }),
{
}

/// Reference values of the word hash, across small words, words wider than
/// a byte or than 32 bits, and the largest word.
pub proof fn law_xxhash_reference_values()
    ensures
        spec_xxhash(0) == 8000355573975644306u64,
        spec_xxhash(1) == 5361387280682687394u64,
        spec_xxhash(255) == 16659466148809845371u64,
        spec_xxhash(256) == 9529386589736467313u64,
        spec_xxhash(1000) == 1773057307682398141u64,
        spec_xxhash(4294967296) == 12586222165394773109u64,
        spec_xxhash(5000000000) == 8431750652168789512u64,
        spec_xxhash(0xffff_ffff_ffff_ffff) == 3715347663920142428u64,
{
    assert(spec_xxhash(0u64) == 8000355573975644306u64) by (bit_vector);
    assert(spec_xxhash(1u64) == 5361387280682687394u64) by (bit_vector);
    assert(spec_xxhash(255u64) == 16659466148809845371u64) by (bit_vector);
    assert(spec_xxhash(256u64) == 9529386589736467313u64) by (bit_vector);
    assert(spec_xxhash(1000u64) == 1773057307682398141u64) by (bit_vector);
    assert(spec_xxhash(4294967296u64) == 12586222165394773109u64) by (bit_vector);
    assert(spec_xxhash(5000000000u64) == 8431750652168789512u64) by (bit_vector);
    assert(spec_xxhash(0xffff_ffff_ffff_ffffu64) == 3715347663920142428u64) by (bit_vector);
}

/// The hash of no words is 0, and appending a word to a key's words xors
/// that word's hash into the key's hash; so a key's hash is the xor of the
/// hashes of all of its words, whatever their number.
pub proof fn law_xor_hash_fold(s: Seq<u64>, w: u64)
    ensures
        xor_hash(Seq::<u64>::empty()) == 0,
        xor_hash(s.push(w)) == xor_hash(s) ^ spec_xxhash(w),
{
    assert(s.push(w).drop_last() =~= s);
}

/// A reference value for a key of three words: the xor of the three word
/// hashes.
pub proof fn law_three_word_reference_value()
    ensures
        xor_hash(seq![1u64, 2u64, 3u64]) == 17140603701543867687u64,
{
    law_xor_hash_fold(Seq::<u64>::empty(), 1);
    law_xor_hash_fold(seq![1u64], 2);
    law_xor_hash_fold(seq![1u64, 2u64], 3);
    assert(Seq::<u64>::empty().push(1) =~= seq![1u64]);
    assert(seq![1u64].push(2) =~= seq![1u64, 2u64]);
    assert(seq![1u64, 2u64].push(3) =~= seq![1u64, 2u64, 3u64]);
    let x1 = spec_xxhash(1);
    let x2 = spec_xxhash(2);
    let x3 = spec_xxhash(3);
    assert(x1 == 5361387280682687394u64) by (bit_vector)
        requires x1 == spec_xxhash(1u64);
    assert(x2 == 9280518076524877704u64) by (bit_vector)
        requires x2 == spec_xxhash(2u64);
    assert(x3 == 2842852280112011533u64) by (bit_vector)
        requires x3 == spec_xxhash(3u64);
    assert(((0u64 ^ x1) ^ x2) ^ x3 == 17140603701543867687u64) by (bit_vector)
        requires
            x1 == 5361387280682687394u64,
            x2 == 9280518076524877704u64,
            x3 == 2842852280112011533u64,
    ;
}

/// A key of a single word hashes as that word does: `generic_xxhash` on a
/// key whose words are `[w]` gives `xxhash(w)`.
pub proof fn law_single_word_hash(w: u64)
    ensures
        xor_hash(seq![w]) == spec_xxhash(w),
{
    let h = spec_xxhash(w);
    assert(seq![w].drop_last() =~= Seq::<u64>::empty());
    assert(xor_hash(Seq::<u64>::empty()) == 0);
    assert(0u64 ^ h == h) by (bit_vector);
}

/// A key that can be hashed word by word and compared for identity.
///
/// `key_words` is the key's representation as 64-bit words; values narrower
/// than a word are zero-extended into one word.
pub trait HashKey: Sized {
    spec fn key_words(&self) -> Seq<u64>;

    fn hash_words(&self) -> (words: Vec<u64>)
        ensures
            words@ == self.key_words(),
    ;

    fn same_key(&self, other: &Self) -> (same: bool)
        ensures
            same == (*self == *other),
    ;
}

impl HashKey for u8 {
    open spec fn key_words(&self) -> Seq<u64> {
        seq![*self as u64]
    }

    fn hash_words(&self) -> (words: Vec<u64>) {
        let w: u64 = *self as u64;
        vec![w]
    }

    fn same_key(&self, other: &Self) -> (same: bool) {
        *self == *other
    }
}

impl HashKey for u16 {
    open spec fn key_words(&self) -> Seq<u64> {
        seq![*self as u64]
    }

    fn hash_words(&self) -> (words: Vec<u64>) {
        let w: u64 = *self as u64;
        vec![w]
    }

    fn same_key(&self, other: &Self) -> (same: bool) {
        *self == *other
    }
}

impl HashKey for u32 {
    open spec fn key_words(&self) -> Seq<u64> {
        seq![*self as u64]
    }

    fn hash_words(&self) -> (words: Vec<u64>) {
        let w: u64 = *self as u64;
        vec![w]
    }

    fn same_key(&self, other: &Self) -> (same: bool) {
        *self == *other
    }
}

impl HashKey for u64 {
    open spec fn key_words(&self) -> Seq<u64> {
        seq![*self]
    }

    fn hash_words(&self) -> (words: Vec<u64>) {
        vec![*self]
    }

    fn same_key(&self, other: &Self) -> (same: bool) {
        *self == *other
    }
}

impl<const N: usize> HashKey for [u64; N] {
    open spec fn key_words(&self) -> Seq<u64> {
        self@
    }

    fn hash_words(&self) -> (words: Vec<u64>) {
        let mut words: Vec<u64> = Vec::new();
        let mut i: usize = 0;
        while i < N
            invariant
                i <= N,
                N == self@.len(),
                words@ == self@.take(i as int),
            decreases N - i,
        {
            words.push(self[i]);
            i = i + 1;
            assert(words@ =~= self@.take(i as int));
        }
        assert(self@.take(N as int) =~= self@);
        words
    }

    fn same_key(&self, other: &Self) -> (same: bool) {
        let mut i: usize = 0;
        while i < N
            invariant
                i <= N,
                N == self@.len(),
                N == other@.len(),
                forall|j: int| 0 <= j < i ==> self@[j] == other@[j],
            decreases N - i,
        {
            if self[i] != other[i] {
                return false;
            }
            i = i + 1;
        }
        proof {
            assert(self@ =~= other@);
            vstd::array::axiom_array_ext_equal(*self, *other);
        }
        true
    }
}

/// Hashes a key by hashing each of its 64-bit words and combining the
/// results with exclusive or.
pub fn generic_xxhash<K: HashKey>(value: &K) -> (h: Hash)
    ensures
        h == xor_hash(value.key_words()),
{
    let words = value.hash_words();
    let mut hash: u64 = 0;
    let mut i: usize = 0;
    while i < words.len()
        invariant
            i <= words.len(),
            hash == xor_hash(words@.take(i as int)),
        decreases words.len() - i,
    {
        let w = xxhash(words[i]);
        proof {
            assert(words@.take(i + 1).drop_last() =~= words@.take(i as int));
        }
        hash = hash ^ w;
        i = i + 1;
    }
    proof {
        assert(words@.take(words.len() as int) =~= words@);
    }
    hash
}

/// Every primitive key is one word: narrower keys are zero-extended and a
/// `u64` key is used whole, so each hashes exactly as the word hash of its
/// value; an array key's words are its elements in order.
pub proof fn law_key_words(a: u8, b: u16, c: u32, d: u64, e: [u64; 2])
    ensures
        a.key_words() == seq![a as u64],
        b.key_words() == seq![b as u64],
        c.key_words() == seq![c as u64],
        d.key_words() == seq![d],
        e.key_words() == seq![e[0], e[1]],
        xor_hash(a.key_words()) == spec_xxhash(a as u64),
        xor_hash(b.key_words()) == spec_xxhash(b as u64),
        xor_hash(c.key_words()) == spec_xxhash(c as u64),
        xor_hash(d.key_words()) == spec_xxhash(d),
        xor_hash(e.key_words()) == spec_xxhash(e[0]) ^ spec_xxhash(e[1]),
{
    law_single_word_hash(a as u64);
    law_single_word_hash(b as u64);
    law_single_word_hash(c as u64);
    law_single_word_hash(d);
    assert(e@ =~= seq![e[0], e[1]]);
    law_xor_hash_fold(Seq::<u64>::empty(), e[0]);
    law_xor_hash_fold(seq![e[0]], e[1]);
    assert(Seq::<u64>::empty().push(e[0]) =~= seq![e[0]]);
    assert(seq![e[0]].push(e[1]) =~= seq![e[0], e[1]]);
    let h0 = spec_xxhash(e[0]);
    assert(0u64 ^ h0 == h0) by (bit_vector);
}

} // verus!
