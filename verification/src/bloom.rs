//! Bloom filter for probabilistic block existence checks: a "no" is always
//! right, a "yes" may be a false positive.
use vstd::prelude::*;
use crate::cid::Cid;
use crate::error::{Error, ErrorKind};

verus! {

/// FNV-1a 64-bit offset basis.
pub const FNV_OFFSET: u64 = 0xcbf2_9ce4_8422_2325;
/// FNV-1a 64-bit prime.
pub const FNV_PRIME: u64 = 0x0100_0000_01b3;
/// Seed of the second hash.
pub const SECOND_SEED: u64 = 0x811c_9dc5;

/// FNV-1a of `data` starting from `seed`.
pub open spec fn fnv(seed: u64, data: Seq<u8>) -> u64
    decreases data.len(),
{
    if data.len() == 0 {
        seed
    } else {
        (fnv(seed, data.drop_last()) ^ (data.last() as u64)).wrapping_mul(FNV_PRIME)
    }
}

/// FNV-1a hash with custom seed.
pub fn fnv1a_hash_with_seed(data: &[u8], seed: u64) -> (r: u64)
    ensures r == fnv(seed, data@),
{
    let mut hash = seed;
    let mut i: usize = 0;
    while i < data.len()
        invariant i <= data.len(), hash == fnv(seed, data@.subrange(0, i as int)),
        decreases data.len() - i,
    {
        assert(data@.subrange(0, i + 1).drop_last() =~= data@.subrange(0, i as int));
        hash = hash ^ (data[i] as u64);
        hash = hash.wrapping_mul(FNV_PRIME);
        i += 1;
    }
    assert(data@.subrange(0, data.len() as int) =~= data@);
    hash
}

/// FNV-1a hash function.
pub fn fnv1a_hash(data: &[u8]) -> (r: u64)
    ensures r == fnv(FNV_OFFSET, data@),
{
    fnv1a_hash_with_seed(data, FNV_OFFSET)
}

/// The `i`-th probe of `data` (double hashing: h1 + i * h2, wrapping).
pub open spec fn probe(data: Seq<u8>, i: int) -> usize {
    (fnv(FNV_OFFSET, data).wrapping_add((i as u64).wrapping_mul(fnv(SECOND_SEED, data)))) as usize
}

/// The bit a probe selects in a filter of `num_bits` bits.
pub open spec fn bit_of(hash: usize, num_bits: usize) -> int {
    (hash % num_bits) as int
}

/// Whether bit `idx` is set.
pub open spec fn is_set(bits: Seq<u64>, idx: int) -> bool {
    bits[idx / 64] & (1u64 << ((idx % 64) as u64)) != 0
}

/// The number of 64-bit words that hold `num_bits` bits.
pub open spec fn words_for(num_bits: usize) -> int {
    num_bits / 64 + if num_bits % 64 != 0 { 1int } else { 0int }
}

/// The number of set bits among the lowest `k` bits of `w`.
pub open spec fn ones_below(w: u64, k: nat) -> nat
    decreases k,
{
    if k == 0 { 0 } else { ones_below(w, (k - 1) as nat) + if w & (1u64 << ((k - 1) as u64)) != 0 { 1nat } else { 0nat } }
}

/// The number of set bits in the first `n` words.
pub open spec fn ones_in(words: Seq<u64>, n: nat) -> nat
    decreases n,
{
    if n == 0 { 0 } else { ones_in(words, (n - 1) as nat) + ones_below(words[n - 1], 64) }
}

proof fn lemma_ones_below_bound(w: u64, k: nat)
    ensures ones_below(w, k) <= k,
    decreases k,
{
    if k > 0 { lemma_ones_below_bound(w, (k - 1) as nat); }
}

/// The number of set bits of a word.
fn word_ones(w: u64) -> (r: u64)
    ensures r == ones_below(w, 64), r <= 64,
{
    let mut c: u64 = 0;
    let mut b: u64 = 0;
    while b < 64
        invariant b <= 64, c == ones_below(w, b as nat), c <= b,
        decreases 64 - b,
    {
        if w & (1u64 << b) != 0 {
            c = c + 1;
        }
        b += 1;
    }
    c
}

/// The mathematical value of a bloom filter.
pub struct BloomView {
    pub bits: Seq<u64>,
    pub count: usize,
    pub num_bits: usize,
    pub num_hashes: usize,
}

/// Every probe of `data` selects a set bit: the filter may hold `data`.
pub open spec fn may_contain(v: BloomView, data: Seq<u8>) -> bool {
    forall|i: int| 0 <= i < v.num_hashes ==> #[trigger] is_set(v.bits, bit_of(probe(data, i), v.num_bits))
}

/// Every bit set in `a` is set in `b`, over a filter of `num_bits` bits.
pub open spec fn covers(b: Seq<u64>, a: Seq<u64>, num_bits: usize) -> bool {
    forall|idx: int| 0 <= idx < num_bits && #[trigger] is_set(a, idx) ==> is_set(b, idx)
}

/// The filter's words hold exactly its bits.
pub open spec fn bloom_wf(v: BloomView) -> bool {
    v.bits.len() == words_for(v.num_bits)
}

proof fn lemma_or_bit(w: u64, o: u64, p: u64)
    requires o < 64, p < 64,
    ensures
        (w | (1u64 << o)) & (1u64 << o) != 0,
        w & (1u64 << p) != 0 ==> (w | (1u64 << o)) & (1u64 << p) != 0,
        p != o ==> (((w | (1u64 << o)) & (1u64 << p) != 0) == (w & (1u64 << p) != 0)),
{
    assert((w | (1u64 << o)) & (1u64 << o) != 0) by (bit_vector) requires o < 64;
    assert(w & (1u64 << p) != 0 ==> (w | (1u64 << o)) & (1u64 << p) != 0) by (bit_vector) requires o < 64, p < 64;
    assert(p != o ==> (((w | (1u64 << o)) & (1u64 << p) != 0) == (w & (1u64 << p) != 0))) by (bit_vector)
        requires o < 64, p < 64;
}

/// Bit `idx` is the bit of one of the first `k` probes of `data`.
pub open spec fn probed_below(data: Seq<u8>, k: int, num_bits: usize, idx: int) -> bool {
    exists|i: int| 0 <= i < k && idx == #[trigger] bit_of(probe(data, i), num_bits)
}

/// The bits after inserting `data`: exactly those set before and those of
/// the filter's probes of `data`.
pub open spec fn exact_insert(before: BloomView, after: BloomView, data: Seq<u8>) -> bool {
    &&& after.bits.len() == before.bits.len()
    &&& forall|idx: int| 0 <= idx < 64 * before.bits.len() ==>
        (#[trigger] is_set(after.bits, idx) <==> is_set(before.bits, idx) || probed_below(data, before.num_hashes as int, before.num_bits, idx))
}

proof fn lemma_zero_word(p: u64)
    requires p < 64,
    ensures 0u64 & (1u64 << p) == 0,
{
    assert(0u64 & (1u64 << p) == 0) by (bit_vector) requires p < 64;
}

/// The bytes oxicode's standard encoding gives for a filter's words and count.
pub uninterp spec fn bloom_encoded(bits: Seq<u64>, count: usize) -> Seq<u8>;

/// The words and count oxicode's standard decoding reads from the start of
/// `data`, when it can.
pub uninterp spec fn bloom_decoded(data: Seq<u8>) -> Option<(Seq<u64>, usize)>;

/// The filter that encoded bytes describe for `num_bits` bits and
/// `num_hashes` hashes, when they decode to words of the right number.
pub open spec fn decoded_filter(data: Seq<u8>, num_bits: usize, num_hashes: usize) -> Option<BloomView> {
    match bloom_decoded(data) {
        Some((bits, count)) => if bits.len() == words_for(num_bits) {
            Some(BloomView { bits, count, num_bits, num_hashes })
        } else {
            None
        },
        None => None,
    }
}

/// `oxicode::encode_to_vec` of the pair (words, count). It always succeeds:
/// the standard configuration writes integers and a length into a `Vec`,
/// whose writer never fails. Decoding the bytes gives the pair back.
#[verifier::external_body]
fn encode_words(bits: &Vec<u64>, count: usize) -> (r: Result<Vec<u8>, String>)
    ensures
        r is Ok,
        r matches Ok(b) ==> b@ == bloom_encoded(bits@, count) && bloom_decoded(b@) == Some((bits@, count)),
{
    oxicode::encode_to_vec(&(bits.clone(), count)).map_err(|e| e.to_string())
}

/// `oxicode::decode_from_slice` of a (words, count) pair; the error's text
/// when `data` does not start with one.
#[verifier::external_body]
fn decode_words(data: &[u8]) -> (r: Result<(Vec<u64>, usize), String>)
    ensures
        r matches Ok((b, c)) ==> bloom_decoded(data@) == Some((b@, c)),
        r is Err ==> bloom_decoded(data@) is None,
{
    oxicode::decode_from_slice::<(Vec<u64>, usize)>(data).map(|(v, _)| v).map_err(|e| e.to_string())
}

/// Bloom filter for fast probabilistic existence checks.
#[derive(Debug)]
pub struct BloomFilter {
    bits: Vec<u64>,
    count: usize,
    num_bits: usize,
    num_hashes: usize,
}

impl View for BloomFilter {
    type V = BloomView;

    closed spec fn view(&self) -> BloomView {
        BloomView { bits: self.bits@, count: self.count, num_bits: self.num_bits, num_hashes: self.num_hashes }
    }
}

/// Memory a filter of `num_bits` bits takes, in bytes (whole 64-bit words).
pub fn bloom_memory_bytes(num_bits: usize) -> (r: usize)
    requires words_for(num_bits) * 8 <= usize::MAX,
    ensures r == words_for(num_bits) * 8,
{
    let words = num_bits / 64 + if num_bits % 64 != 0 { 1 } else { 0 };
    words * 8
}

impl BloomFilter {
    /// An empty filter of `num_bits` bits probed by `num_hashes` hashes.
    pub fn with_params(num_bits: usize, num_hashes: usize) -> (r: Self)
        ensures bloom_wf(r@), r@.num_bits == num_bits, r@.num_hashes == num_hashes, r@.count == 0,
            forall|idx: int| 0 <= idx < num_bits ==> !#[trigger] is_set(r@.bits, idx),
            r@.bits == Seq::new(words_for(num_bits) as nat, |k: int| 0u64),
    {
        let words = num_bits / 64 + if num_bits % 64 != 0 { 1 } else { 0 };
        let mut bits: Vec<u64> = Vec::new();
        let mut i: usize = 0;
        while i < words
            invariant i <= words, bits@.len() == i, forall|k: int| 0 <= k < i ==> bits@[k] == 0,
            decreases words - i,
        {
            bits.push(0);
            i += 1;
        }
        let r = BloomFilter { bits, count: 0, num_bits, num_hashes };
        assert(r@.bits =~= Seq::new(words_for(num_bits) as nat, |k: int| 0u64));
        assert forall|idx: int| 0 <= idx < num_bits implies !#[trigger] is_set(r@.bits, idx) by {
            lemma_zero_word((idx % 64) as u64);
        }
        r
    }

    /// A filter from saved words and count; `InvalidData` when the number of
    /// words does not fit `num_bits`.
    pub fn from_parts(bits: Vec<u64>, count: usize, num_bits: usize, num_hashes: usize) -> (r: Result<Self, Error>)
        ensures
            r is Ok <==> bits@.len() == words_for(num_bits),
            r matches Ok(f) ==> f@ == (BloomView { bits: bits@, count, num_bits, num_hashes }),
            r matches Err(e) ==> e.kind() == ErrorKind::InvalidData,
    {
        let words = num_bits / 64 + if num_bits % 64 != 0 { 1 } else { 0 };
        if bits.len() != words {
            return Err(Error::InvalidData(String::from_str("Bloom filter size mismatch")));
        }
        Ok(BloomFilter { bits, count, num_bits, num_hashes })
    }

    /// The filter's words and count in oxicode's standard encoding, which
    /// always succeeds.
    pub fn encode(&self) -> (r: Result<Vec<u8>, Error>)
        ensures
            r is Ok,
            r matches Ok(b) ==> b@ == bloom_encoded(self@.bits, self@.count)
                && bloom_decoded(b@) == Some((self@.bits, self@.count)),
            r matches Err(e) ==> e.kind() == ErrorKind::Serialization,
    {
        match encode_words(&self.bits, self.count) {
            Ok(b) => Ok(b),
            Err(m) => {
                let mut msg = String::from_str("Failed to serialize bloom filter: ");
                msg.append(m.as_str());
                Err(Error::Serialization(msg))
            },
        }
    }

    /// A filter of `num_bits` bits and `num_hashes` hashes from encoded words
    /// and count: `Deserialization` when the bytes do not decode,
    /// `InvalidData` when the number of words does not fit `num_bits`.
    pub fn decode(data: &[u8], num_bits: usize, num_hashes: usize) -> (r: Result<Self, Error>)
        ensures
            match r {
                Ok(f) => decoded_filter(data@, num_bits, num_hashes) == Some(f@),
                Err(e) => decoded_filter(data@, num_bits, num_hashes) is None && e.kind() == if bloom_decoded(data@) is None {
                    ErrorKind::Deserialization
                } else {
                    ErrorKind::InvalidData
                },
            },
    {
        match decode_words(data) {
            Ok((bits, count)) => Self::from_parts(bits, count, num_bits, num_hashes),
            Err(m) => {
                let mut msg = String::from_str("Failed to deserialize bloom filter: ");
                msg.append(m.as_str());
                Err(Error::Deserialization(msg))
            },
        }
    }

    /// The saved form of the filter: its words and count.
    pub fn to_parts(&self) -> (r: (Vec<u64>, usize))
        ensures r.0@ == self@.bits, r.1 == self@.count,
    {
        (self.bits.clone(), self.count)
    }

    /// Compute hash values for data using double hashing.
    fn compute_hashes(&self, data: &[u8]) -> (r: Vec<usize>)
        ensures r@.len() == self@.num_hashes, forall|i: int| 0 <= i < r@.len() ==> #[trigger] r@[i] == probe(data@, i),
    {
        let h1 = fnv1a_hash(data);
        let h2 = fnv1a_hash_with_seed(data, SECOND_SEED);
        let mut hashes: Vec<usize> = Vec::new();
        let mut i: usize = 0;
        while i < self.num_hashes
            invariant i <= self.num_hashes, h1 == fnv(FNV_OFFSET, data@), h2 == fnv(SECOND_SEED, data@),
                hashes@.len() == i, forall|k: int| 0 <= k < i ==> #[trigger] hashes@[k] == probe(data@, k),
            decreases self.num_hashes - i,
        {
            let hash = h1.wrapping_add((i as u64).wrapping_mul(h2));
            hashes.push(#[verifier::truncate] (hash as usize));
            i += 1;
        }
        hashes
    }

    /// Insert raw bytes: every probe's bit is set.
    pub fn insert(&mut self, data: &[u8])
        requires bloom_wf(old(self)@), old(self)@.num_bits > 0, old(self)@.count < usize::MAX,
        ensures
            inserted(old(self)@, final(self)@, data@),
            exact_insert(old(self)@, final(self)@, data@),
            bloom_wf(final(self)@), may_contain(final(self)@, data@),
            covers(final(self)@.bits, old(self)@.bits, old(self)@.num_bits),
            final(self)@.count == old(self)@.count + 1,
            final(self)@.num_bits == old(self)@.num_bits, final(self)@.num_hashes == old(self)@.num_hashes,
    {
        let hashes = self.compute_hashes(data);
        let ghost start = self@;
        let mut i: usize = 0;
        while i < hashes.len()
            invariant
                i <= hashes.len(), hashes@.len() == start.num_hashes, bloom_wf(self@), self@.num_bits > 0,
                self@.num_bits == start.num_bits, self@.num_hashes == start.num_hashes, self@.count == start.count,
                forall|k: int| 0 <= k < hashes@.len() ==> #[trigger] hashes@[k] == probe(data@, k),
                forall|k: int| 0 <= k < i ==> #[trigger] is_set(self@.bits, bit_of(probe(data@, k), self@.num_bits)),
                covers(self@.bits, start.bits, start.num_bits),
                self@.bits.len() == start.bits.len(),
                forall|idx: int| 0 <= idx < 64 * start.bits.len() ==>
                    (#[trigger] is_set(self@.bits, idx) <==> is_set(start.bits, idx) || probed_below(data@, i as int, start.num_bits, idx)),
            decreases hashes.len() - i,
        {
            let bit_index = hashes[i] % self.num_bits;
            let word_index = bit_index / 64;
            let bit_offset = bit_index % 64;
            let ghost before = self@.bits;
            let w = self.bits[word_index];
            self.bits.set(word_index, w | (1u64 << (bit_offset as u64)));
            proof {
                lemma_or_bit(w, bit_offset as u64, 0);
                assert(is_set(self@.bits, bit_index as int));
                assert forall|idx: int| 0 <= idx < self@.num_bits && #[trigger] is_set(before, idx) implies is_set(self@.bits, idx) by {
                    if idx / 64 == word_index {
                        lemma_or_bit(w, bit_offset as u64, (idx % 64) as u64);
                    }
                }
                assert forall|k: int| 0 <= k < i + 1 implies #[trigger] is_set(self@.bits, bit_of(probe(data@, k), self@.num_bits)) by {
                    if k < i {
                        assert(is_set(before, bit_of(probe(data@, k), self@.num_bits)));
                    }
                }
                assert(bit_index as int == bit_of(probe(data@, i as int), start.num_bits));
                assert forall|idx: int| 0 <= idx < 64 * start.bits.len() implies
                    (#[trigger] is_set(self@.bits, idx) <==> is_set(start.bits, idx) || probed_below(data@, i + 1, start.num_bits, idx)) by {
                    if idx / 64 == word_index as int {
                        lemma_or_bit(w, bit_offset as u64, (idx % 64) as u64);
                    } else {
                        assert(self@.bits[idx / 64] == before[idx / 64]);
                    }
                    if idx == bit_index as int {
                        assert(is_set(self@.bits, idx));
                        assert(probed_below(data@, i + 1, start.num_bits, idx));
                    } else {
                        assert(idx / 64 != word_index as int || idx % 64 != bit_offset as int);
                        assert(is_set(self@.bits, idx) == is_set(before, idx));
                        if probed_below(data@, i + 1, start.num_bits, idx) {
                            let w2 = choose|w2: int| 0 <= w2 < i + 1 && idx == #[trigger] bit_of(probe(data@, w2), start.num_bits);
                            assert(w2 != i);
                            assert(probed_below(data@, i as int, start.num_bits, idx));
                        }
                        if probed_below(data@, i as int, start.num_bits, idx) {
                            let w2 = choose|w2: int| 0 <= w2 < i && idx == #[trigger] bit_of(probe(data@, w2), start.num_bits);
                            assert(probed_below(data@, i + 1, start.num_bits, idx));
                        }
                    }
                }
            }
            i += 1;
        }
        self.count = self.count + 1;
    }

    /// Insert a CID.
    pub fn insert_cid(&mut self, cid: &Cid)
        requires bloom_wf(old(self)@), old(self)@.num_bits > 0, old(self)@.count < usize::MAX,
        ensures
            exact_insert(old(self)@, final(self)@, cid@),
            bloom_wf(final(self)@), may_contain(final(self)@, cid@),
            covers(final(self)@.bits, old(self)@.bits, old(self)@.num_bits),
            final(self)@.count == old(self)@.count + 1,
            final(self)@.num_bits == old(self)@.num_bits, final(self)@.num_hashes == old(self)@.num_hashes,
    {
        let b = cid.to_bytes();
        self.insert(b.as_slice());
    }

    /// Whether raw bytes might be in the filter: `false` means definitely not.
    pub fn contains(&self, data: &[u8]) -> (r: bool)
        requires bloom_wf(self@), self@.num_bits > 0,
        ensures r == may_contain(self@, data@),
    {
        let hashes = self.compute_hashes(data);
        let mut i: usize = 0;
        while i < hashes.len()
            invariant
                i <= hashes.len(), hashes@.len() == self@.num_hashes, bloom_wf(self@), self@.num_bits > 0,
                forall|k: int| 0 <= k < hashes@.len() ==> #[trigger] hashes@[k] == probe(data@, k),
                forall|k: int| 0 <= k < i ==> #[trigger] is_set(self@.bits, bit_of(probe(data@, k), self@.num_bits)),
            decreases hashes.len() - i,
        {
            let bit_index = hashes[i] % self.num_bits;
            let word_index = bit_index / 64;
            let bit_offset = bit_index % 64;
            if self.bits[word_index] & (1u64 << (bit_offset as u64)) == 0 {
                assert(!is_set(self@.bits, bit_of(probe(data@, i as int), self@.num_bits)));
                return false;
            }
            i += 1;
        }
        true
    }

    /// Whether a CID might be in the filter.
    pub fn contains_cid(&self, cid: &Cid) -> (r: bool)
        requires bloom_wf(self@), self@.num_bits > 0,
        ensures r == may_contain(self@, cid@),
    {
        let b = cid.to_bytes();
        self.contains(b.as_slice())
    }

    /// Get the number of items inserted.
    pub fn count(&self) -> (r: usize)
        ensures r == self@.count,
    {
        self.count
    }

    /// The size of the bit array, in bits.
    pub fn num_bits(&self) -> (r: usize)
        ensures r == self@.num_bits,
    {
        self.num_bits
    }

    /// The number of hash functions.
    pub fn num_hashes(&self) -> (r: usize)
        ensures r == self@.num_hashes,
    {
        self.num_hashes
    }

    /// The number of set bits.
    pub fn set_bits(&self) -> (r: u64)
        requires self@.bits.len() * 64 <= u64::MAX,
        ensures r == ones_in(self@.bits, self@.bits.len()),
    {
        let mut total: u64 = 0;
        let mut i: usize = 0;
        while i < self.bits.len()
            invariant i <= self.bits.len(), total == ones_in(self@.bits, i as nat), total <= i * 64,
                self@.bits.len() * 64 <= u64::MAX,
            decreases self.bits.len() - i,
        {
            let c = word_ones(self.bits[i]);
            total = total + c;
            i += 1;
        }
        total
    }

    /// Get memory usage in bytes.
    pub fn memory_bytes(&self) -> (r: usize)
        requires words_for(self@.num_bits) * 8 <= usize::MAX,
        ensures r == words_for(self@.num_bits) * 8,
    {
        bloom_memory_bytes(self.num_bits)
    }

    /// Clear the bloom filter.
    pub fn clear(&mut self)
        requires bloom_wf(old(self)@),
        ensures
            bloom_wf(final(self)@), final(self)@.count == 0,
            final(self)@.num_bits == old(self)@.num_bits, final(self)@.num_hashes == old(self)@.num_hashes,
            forall|idx: int| 0 <= idx < final(self)@.num_bits ==> !#[trigger] is_set(final(self)@.bits, idx),
            final(self)@.bits == Seq::new(old(self)@.bits.len(), |k: int| 0u64),
    {
        let mut i: usize = 0;
        while i < self.bits.len()
            invariant i <= self.bits.len(), bloom_wf(self@), self@.num_bits == old(self)@.num_bits,
                self@.num_hashes == old(self)@.num_hashes, forall|k: int| 0 <= k < i ==> self@.bits[k] == 0,
            decreases self.bits.len() - i,
        {
            self.bits.set(i, 0);
            i += 1;
        }
        self.count = 0;
        assert(self@.bits =~= Seq::new(old(self)@.bits.len(), |k: int| 0u64));
        assert forall|idx: int| 0 <= idx < self@.num_bits implies !#[trigger] is_set(self@.bits, idx) by {
            lemma_zero_word((idx % 64) as u64);
        }
    }
}

/// No false negatives: once inserted, data stays reported as possibly
/// present however many other items are inserted, until the filter is cleared.
pub proof fn lemma_no_false_negatives(before: BloomView, after: BloomView, data: Seq<u8>)
    requires
        may_contain(before, data),
        covers(after.bits, before.bits, before.num_bits),
        after.num_bits == before.num_bits, after.num_hashes == before.num_hashes, before.num_bits > 0,
    ensures may_contain(after, data),
{
    assert forall|i: int| 0 <= i < after.num_hashes implies #[trigger] is_set(after.bits, bit_of(probe(data, i), after.num_bits)) by {
        assert(is_set(before.bits, bit_of(probe(data, i), before.num_bits)));
    }
}

/// `after` is `before` with `data` inserted, as `insert` leaves it.
pub open spec fn inserted(before: BloomView, after: BloomView, data: Seq<u8>) -> bool {
    &&& bloom_wf(after)
    &&& may_contain(after, data)
    &&& covers(after.bits, before.bits, before.num_bits)
    &&& after.count == before.count + 1
    &&& after.num_bits == before.num_bits
    &&& after.num_hashes == before.num_hashes
}

/// No false negatives over any run of insertions: when `states[i + 1]` is
/// `states[i]` with `items[i]` inserted, for each `i`, the last state may
/// contain every item inserted.
pub proof fn lemma_inserts_remembered(states: Seq<BloomView>, items: Seq<Seq<u8>>)
    requires
        states.len() == items.len() + 1,
        states[0].num_bits > 0,
        forall|i: int| 0 <= i < items.len() ==> #[trigger] inserted(states[i], states[i + 1], items[i]),
    ensures
        forall|i: int| 0 <= i < items.len() ==> may_contain(states.last(), #[trigger] items[i]),
        states.last().num_bits == states[0].num_bits,
        covers(states.last().bits, states[0].bits, states[0].num_bits),
    decreases items.len(),
{
    let n = items.len();
    if n > 0 {
        let s2 = states.drop_last();
        let i2 = items.drop_last();
        assert forall|i: int| 0 <= i < i2.len() implies #[trigger] inserted(s2[i], s2[i + 1], i2[i]) by {
            assert(inserted(states[i], states[i + 1], items[i]));
        }
        lemma_inserts_remembered(s2, i2);
        assert(inserted(states[n - 1], states[n as int], items[n - 1]));
        assert forall|i: int| 0 <= i < n implies may_contain(states.last(), #[trigger] items[i]) by {
            if i < n - 1 {
                assert(may_contain(s2.last(), i2[i]));
                lemma_no_false_negatives(states[n - 1], states[n as int], items[i]);
            }
        }
    }
}

/// Coverage of set bits composes across successive insertions.
pub proof fn lemma_covers_trans(a: Seq<u64>, b: Seq<u64>, c: Seq<u64>, num_bits: usize)
    requires covers(b, a, num_bits), covers(c, b, num_bits),
    ensures covers(c, a, num_bits),
{
}

/// Decoding bytes whose contents are a filter's words and count, with that
/// filter's size and hash count, gives back the same filter.
pub proof fn lemma_encode_decode(v: BloomView, bytes: Seq<u8>)
    requires bloom_wf(v), bloom_decoded(bytes) == Some((v.bits, v.count)),
    ensures decoded_filter(bytes, v.num_bits, v.num_hashes) == Some(v),
{
}

} // verus!
