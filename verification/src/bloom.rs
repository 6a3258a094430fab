//! A bloom filter: a set of keys that may answer "present" for a key that
//! was never inserted, and never answers "absent" for one that was.
//!
//! A key is hashed twice with FNV-1a, from two different bases; its `i`-th
//! probe is bit `(h1 + i * h2) mod num_bits`, in wrapping arithmetic.

use crate::codec::{push_bytes, push_u32, push_u64, read_u32_at, read_u64_at, u32_at, u64_at};
use vstd::bytes::{
    lemma_auto_spec_u32_to_from_le_bytes, lemma_auto_spec_u64_to_from_le_bytes,
    spec_u32_to_le_bytes, spec_u64_to_le_bytes,
};
use vstd::prelude::*;
use vstd::slice::slice_subrange;
use vstd::string::StringExecFns;

verus! {

/// The FNV-1a prime for 64-bit hashes.
pub const FNV_PRIME: u64 = 0x0000_0100_0000_01b3;

/// The basis of the first hash.
pub const FNV_BASIS_A: u64 = 0xcbf2_9ce4_8422_2325;

/// The basis of the second hash.
pub const FNV_BASIS_B: u64 = 0x517c_c1b7_2722_0a95;

/// The largest bit vector that deserialization accepts: 128 MiB.
pub const MAX_BLOOM_BYTES: usize = 134_217_728;

/// The bits that a filter holds per expected key at a false-positive rate of
/// one percent, in millionths: `ln(100) / ln(2)^2`, rounded up.
pub const ONE_PERCENT_MICROBITS: u64 = 9_585_059;

/// The number of probes per key at a false-positive rate of one percent.
pub const ONE_PERCENT_HASHES: u32 = 7;

/// The FNV-1a hash of `data`, started from `basis`.
pub open spec fn fnv1a(data: Seq<u8>, basis: u64) -> u64
    decreases data.len(),
{
    if data.len() == 0 {
        basis
    } else {
        (fnv1a(data.drop_last(), basis) ^ (data.last() as u64)).wrapping_mul(FNV_PRIME)
    }
}

/// The bit that the `i`-th probe falls on for a key with hashes `h1` and
/// `h2`, in a filter of `num_bits` bits: `(h1 + i * h2) mod num_bits`, the
/// sum and the product wrapping at 64 bits.
#[verifier::opaque]
pub open spec fn double_hash(h1: u64, h2: u64, i: u32, num_bits: u64) -> int
    recommends
        num_bits > 0,
{
    (h1.wrapping_add((i as u64).wrapping_mul(h2)) % num_bits) as int
}

/// The bit that the `i`-th probe of `key` falls on, in a filter of
/// `num_bits` bits.
pub open spec fn probe(key: Seq<u8>, i: u32, num_bits: u64) -> int
    recommends
        num_bits > 0,
{
    double_hash(fnv1a(key, FNV_BASIS_A), fnv1a(key, FNV_BASIS_B), i, num_bits)
}

/// A probe falls inside a filter that has bits.
pub proof fn lemma_probe_in_range(key: Seq<u8>, i: u32, num_bits: u64)
    requires
        num_bits >= 1,
    ensures
        0 <= probe(key, i, num_bits) < num_bits,
{
    reveal(double_hash);
}

/// Whether bit `idx` of a bit vector is set. Bit `idx` is bit `idx % 8` of
/// byte `idx / 8`, counted from the least significant.
pub open spec fn bit_at(bits: Seq<u8>, idx: int) -> bool
    recommends
        0 <= idx < 8 * bits.len(),
{
    (bits[idx / 8] >> ((idx % 8) as u8)) & 1u8 == 1u8
}

/// The bit vector with bit `idx` set.
pub open spec fn with_bit(bits: Seq<u8>, idx: int) -> Seq<u8>
    recommends
        0 <= idx < 8 * bits.len(),
{
    bits.update(idx / 8, bits[idx / 8] | (1u8 << ((idx % 8) as u8)))
}

/// The bit vector with the first `count` probes of `key` set.
pub open spec fn with_probes(bits: Seq<u8>, key: Seq<u8>, num_bits: u64, count: nat) -> Seq<u8>
    decreases count,
{
    if count == 0 {
        bits
    } else {
        with_bit(
            with_probes(bits, key, num_bits, (count - 1) as nat),
            probe(key, (count - 1) as u32, num_bits),
        )
    }
}

/// What a filter holds.
pub struct BloomView {
    pub num_bits: u64,
    pub num_hashes: u32,
    pub bits: Seq<u8>,
}

impl BloomView {
    /// Every probe falls inside the bit vector. A filter without probes is
    /// usable whatever it holds.
    pub open spec fn wf(self) -> bool {
        self.num_hashes == 0 || (1 <= self.num_bits <= 8 * self.bits.len())
    }

    /// All probes of `key` fall on set bits.
    pub open spec fn may_contain(self, key: Seq<u8>) -> bool {
        forall|i: u32| 0 <= i < self.num_hashes ==> bit_at(self.bits, #[trigger] probe(key, i, self.num_bits))
    }

    /// The filter after `key` was inserted.
    pub open spec fn insert(self, key: Seq<u8>) -> BloomView {
        BloomView {
            num_bits: self.num_bits,
            num_hashes: self.num_hashes,
            bits: with_probes(self.bits, key, self.num_bits, self.num_hashes as nat),
        }
    }

    /// The filter's wire format:
    /// `num_bits:u64 | num_hashes:u32 | bits_len:u32 | bits`, little-endian.
    pub open spec fn serialized(self) -> Seq<u8> {
        spec_u64_to_le_bytes(self.num_bits) + spec_u32_to_le_bytes(self.num_hashes)
            + spec_u32_to_le_bytes(self.bits.len() as u32) + self.bits
    }
}

/// Why a filter could not be deserialized.
#[derive(Debug, Clone, Copy, PartialEq, Eq, Structural)]
pub enum BloomError {
    /// The input ends before the filter does.
    UnexpectedEof,
    /// The bit vector is declared longer than [`MAX_BLOOM_BYTES`].
    TooLarge,
}

impl BloomError {
    /// What the error says.
    pub open spec fn message(self) -> Seq<char> {
        match self {
            BloomError::UnexpectedEof => "bloom filter: unexpected end of input"@,
            BloomError::TooLarge => "bloom filter too large"@,
        }
    }

    /// What the error says.
    pub fn to_string(&self) -> (r: String)
        ensures
            r@ == self.message(),
    {
        match self {
            BloomError::UnexpectedEof => String::from_str("bloom filter: unexpected end of input"),
            BloomError::TooLarge => String::from_str("bloom filter too large"),
        }
    }
}

/// The filter that the start of `data` encodes. Bytes after it are not
/// looked at.
pub open spec fn parse_bloom(data: Seq<u8>) -> Result<BloomView, BloomError> {
    if data.len() < 16 {
        Err(BloomError::UnexpectedEof)
    } else {
        let bits_len = u32_at(data, 12) as int;
        if bits_len > MAX_BLOOM_BYTES {
            Err(BloomError::TooLarge)
        } else if 16 + bits_len > data.len() {
            Err(BloomError::UnexpectedEof)
        } else {
            Ok(
                BloomView {
                    num_bits: u64_at(data, 0),
                    num_hashes: u32_at(data, 8),
                    bits: data.subrange(16, 16 + bits_len),
                },
            )
        }
    }
}

/// The number of bits of a filter sized for `expected_items` keys at a
/// false-positive rate of one percent: [`ONE_PERCENT_MICROBITS`] millionths
/// of a bit per key, rounded up, and at least 8.
pub open spec fn one_percent_bits(expected_items: nat) -> nat {
    let exact = (expected_items * ONE_PERCENT_MICROBITS + 999_999) / 1_000_000;
    if exact < 8 {
        8
    } else {
        exact as nat
    }
}

/// The empty filter sized for `expected_items` keys at a false-positive rate
/// of one percent.
pub open spec fn one_percent_filter(expected_items: nat) -> BloomView {
    BloomView {
        num_bits: one_percent_bits(expected_items) as u64,
        num_hashes: ONE_PERCENT_HASHES,
        bits: Seq::new((one_percent_bits(expected_items) + 7) / 8, |i: int| 0u8),
    }
}

/// A bloom filter over a bit vector.
#[derive(Debug)]
pub struct BloomFilter {
    bits: Vec<u8>,
    num_bits: u64,
    num_hashes: u32,
}

impl View for BloomFilter {
    type V = BloomView;

    closed spec fn view(&self) -> BloomView {
        BloomView { num_bits: self.num_bits, num_hashes: self.num_hashes, bits: self.bits@ }
    }
}

/// One step of FNV-1a.
fn fnv1a_64(data: &[u8], basis: u64) -> (h: u64)
    ensures
        h == fnv1a(data@, basis),
{
    let mut hash: u64 = basis;
    let mut i: usize = 0;
    while i < data.len()
        invariant
            0 <= i <= data@.len(),
            hash == fnv1a(data@.take(i as int), basis),
        decreases data@.len() - i,
    {
        assert(data@.take(i + 1).drop_last() =~= data@.take(i as int));
        hash = (hash ^ (data[i] as u64)).wrapping_mul(FNV_PRIME);
        i += 1;
    }
    assert(data@.take(i as int) =~= data@);
    hash
}

impl BloomFilter {
    /// An empty filter of `num_bits` bits and `num_hashes` probes per key.
    pub fn with_dimensions(num_bits: u64, num_hashes: u32) -> (bf: Self)
        requires
            num_bits >= 1,
            (num_bits + 7) / 8 <= usize::MAX,
        ensures
            bf@.num_bits == num_bits,
            bf@.num_hashes == num_hashes,
            bf@.bits.len() == (num_bits + 7) / 8,
            forall|i: int| 0 <= i < bf@.bits.len() ==> bf@.bits[i] == 0u8,
            bf@.wf(),
    {
        let byte_len: usize = (num_bits / 8 + (if num_bits % 8 == 0 {
            0u64
        } else {
            1u64
        })) as usize;
        let mut bits: Vec<u8> = Vec::with_capacity(byte_len);
        let mut i: usize = 0;
        while i < byte_len
            invariant
                i <= byte_len,
                bits@.len() == i,
                forall|j: int| 0 <= j < i ==> bits@[j] == 0u8,
            decreases byte_len - i,
        {
            bits.push(0u8);
            i += 1;
        }
        BloomFilter { bits, num_bits, num_hashes }
    }

    /// An empty filter sized for `expected_items` keys at a false-positive
    /// rate of one percent, or `None` where its bit vector would be longer
    /// than a `u32` can say.
    pub fn sized_for(expected_items: usize) -> (r: Option<Self>)
        ensures
            (one_percent_bits(expected_items as nat) + 7) / 8 <= u32::MAX ==> r is Some && r->Some_0@
                == one_percent_filter(expected_items as nat) && r->Some_0@.wf(),
            (one_percent_bits(expected_items as nat) + 7) / 8 > u32::MAX ==> r is None,
    {
        let items: u128 = expected_items as u128;
        assert(items * ONE_PERCENT_MICROBITS <= 0xffff_ffff_ffff_ffff * 9_585_059) by (nonlinear_arith)
            requires
                items <= 0xffff_ffff_ffff_ffff,
                ONE_PERCENT_MICROBITS == 9_585_059,
        ;
        let exact: u128 = (items * (ONE_PERCENT_MICROBITS as u128) + 999_999) / 1_000_000;
        let num_bits: u128 = if exact < 8 {
            8
        } else {
            exact
        };
        if (num_bits + 7) / 8 > 0xffff_ffff {
            return None;
        }
        if (num_bits + 7) / 8 > usize::MAX as u128 {
            return None;
        }
        let bf = Self::with_dimensions(num_bits as u64, ONE_PERCENT_HASHES);
        assert(bf@.bits =~= one_percent_filter(expected_items as nat).bits);
        Some(bf)
    }

    /// A filter made of the parts of a serialized one.
    pub fn from_raw(bits: Vec<u8>, num_bits: u64, num_hashes: u32) -> (bf: Self)
        ensures
            bf@ == (BloomView { num_bits, num_hashes, bits: bits@ }),
    {
        BloomFilter { bits, num_bits, num_hashes }
    }

    /// Whether every probe falls inside the bit vector, so that the filter
    /// can be asked and inserted into.
    pub fn is_well_formed(&self) -> (r: bool)
        ensures
            r == self@.wf(),
    {
        self.num_hashes == 0 || (self.num_bits >= 1 && (self.num_bits - 1) / 8 < self.bits.len() as u64)
    }

    /// Inserts a key: sets the bits of all its probes.
    pub fn insert(&mut self, key: &[u8])
        requires
            old(self)@.wf(),
        ensures
            final(self)@ == old(self)@.insert(key@),
            final(self)@.bits.len() == old(self)@.bits.len(),
            final(self)@.wf(),
            final(self)@.may_contain(key@),
            forall|other: Seq<u8>| old(self)@.may_contain(other) ==> final(self)@.may_contain(other),
    {
        proof {
            lemma_insert_sound(self@, key@);
        }
        if self.num_hashes == 0 {
            return ;
        }
        let (h1, h2) = self.hash_pair(key);
        let mut i: u32 = 0;
        while i < self.num_hashes
            invariant
                0 <= i <= self.num_hashes,
                self.num_bits == old(self).num_bits,
                self.num_hashes == old(self).num_hashes,
                1 <= self.num_bits <= 8 * self.bits@.len(),
                self.bits@.len() == old(self).bits@.len(),
                h1 == fnv1a(key@, FNV_BASIS_A),
                h2 == fnv1a(key@, FNV_BASIS_B),
                self.bits@ == with_probes(old(self).bits@, key@, self.num_bits, i as nat),
            decreases self.num_hashes - i,
        {
            let bit_idx: u64 = self.get_bit_index(h1, h2, i);
            self.set_bit(bit_idx);
            i += 1;
        }
    }

    /// Whether the key may have been inserted: `false` means that it
    /// certainly was not.
    pub fn may_contain(&self, key: &[u8]) -> (r: bool)
        requires
            self@.wf(),
        ensures
            r == self@.may_contain(key@),
    {
        if self.num_hashes == 0 {
            return true;
        }
        let (h1, h2) = self.hash_pair(key);
        let mut i: u32 = 0;
        while i < self.num_hashes
            invariant
                0 <= i <= self.num_hashes,
                1 <= self.num_bits <= 8 * self.bits@.len(),
                h1 == fnv1a(key@, FNV_BASIS_A),
                h2 == fnv1a(key@, FNV_BASIS_B),
                forall|j: u32| 0 <= j < i ==> bit_at(self.bits@, #[trigger] probe(key@, j, self.num_bits)),
            decreases self.num_hashes - i,
        {
            let bit_idx: u64 = self.get_bit_index(h1, h2, i);
            if !self.get_bit(bit_idx) {
                assert(!bit_at(self@.bits, probe(key@, i, self@.num_bits)));
                return false;
            }
            i += 1;
        }
        true
    }

    /// The number of bits in the filter.
    pub fn num_bits(&self) -> (r: u64)
        ensures
            r == self@.num_bits,
    {
        self.num_bits
    }

    /// The number of probes per key.
    pub fn num_hashes(&self) -> (r: u32)
        ensures
            r == self@.num_hashes,
    {
        self.num_hashes
    }

    /// The bit vector.
    pub fn bits(&self) -> (r: &[u8])
        ensures
            r@ == self@.bits,
    {
        self.bits.as_slice()
    }

    /// The size of the serialized filter in bytes.
    pub fn serialized_size(&self) -> (r: usize)
        requires
            16 + self@.bits.len() <= usize::MAX,
        ensures
            r == 16 + self@.bits.len(),
    {
        8 + 4 + 4 + self.bits.len()
    }

    /// Appends the serialized filter to `out`.
    pub fn write_to(&self, out: &mut Vec<u8>)
        requires
            self@.bits.len() <= u32::MAX,
        ensures
            final(out)@ == old(out)@ + self@.serialized(),
    {
        push_u64(out, self.num_bits);
        push_u32(out, self.num_hashes);
        push_u32(out, self.bits.len() as u32);
        push_bytes(out, self.bits.as_slice());
        assert(out@ =~= old(out)@ + self@.serialized());
    }

    /// Deserializes the filter at the start of `data`.
    pub fn read_from(data: &[u8]) -> (r: Result<Self, BloomError>)
        ensures
            match parse_bloom(data@) {
                Ok(v) => r is Ok && r->Ok_0@ == v,
                Err(e) => r == Err::<Self, BloomError>(e),
            },
    {
        let len: usize = data.len();
        if len < 16 {
            return Err(BloomError::UnexpectedEof);
        }
        let num_bits: u64 = read_u64_at(data, 0);
        let num_hashes: u32 = read_u32_at(data, 8);
        let bits_len: u32 = read_u32_at(data, 12);
        if bits_len as u64 > MAX_BLOOM_BYTES as u64 {
            return Err(BloomError::TooLarge);
        }
        if len - 16 < bits_len as usize {
            return Err(BloomError::UnexpectedEof);
        }
        let bits: Vec<u8> = crate::bytes::copy_bytes(
            slice_subrange(data, 16, 16 + bits_len as usize),
        );
        Ok(Self::from_raw(bits, num_bits, num_hashes))
    }

    fn hash_pair(&self, key: &[u8]) -> (r: (u64, u64))
        ensures
            r.0 == fnv1a(key@, FNV_BASIS_A),
            r.1 == fnv1a(key@, FNV_BASIS_B),
    {
        let h1: u64 = fnv1a_64(key, FNV_BASIS_A);
        let h2: u64 = fnv1a_64(key, FNV_BASIS_B);
        (h1, h2)
    }

    fn get_bit_index(&self, h1: u64, h2: u64, i: u32) -> (r: u64)
        requires
            self.num_bits >= 1,
        ensures
            r == double_hash(h1, h2, i, self.num_bits),
            r < self.num_bits,
    {
        reveal(double_hash);
        h1.wrapping_add((i as u64).wrapping_mul(h2)) % self.num_bits
    }

    fn set_bit(&mut self, idx: u64)
        requires
            idx < 8 * old(self).bits@.len(),
        ensures
            final(self).bits@ == with_bit(old(self).bits@, idx as int),
            final(self).num_bits == old(self).num_bits,
            final(self).num_hashes == old(self).num_hashes,
    {
        let len: usize = self.bits.len();
        assert(idx / 8 < len);
        let byte_idx: usize = (idx / 8) as usize;
        let bit_offset: u8 = (idx % 8) as u8;
        let byte: u8 = self.bits[byte_idx];
        self.bits.set(byte_idx, byte | (1u8 << bit_offset));
        assert(self.bits@ =~= with_bit(old(self).bits@, idx as int));
    }

    fn get_bit(&self, idx: u64) -> (r: bool)
        requires
            idx < 8 * self.bits@.len(),
        ensures
            r == bit_at(self.bits@, idx as int),
    {
        let len: usize = self.bits.len();
        assert(idx / 8 < len);
        let byte_idx: usize = (idx / 8) as usize;
        let bit_offset: u8 = (idx % 8) as u8;
        (self.bits[byte_idx] >> bit_offset) & 1u8 == 1u8
    }
}

/// Setting a bit sets it and leaves every other bit as it was.
pub proof fn lemma_with_bit(bits: Seq<u8>, idx: int, other: int)
    requires
        0 <= idx < 8 * bits.len(),
        0 <= other < 8 * bits.len(),
    ensures
        with_bit(bits, idx).len() == bits.len(),
        bit_at(with_bit(bits, idx), other) == (other == idx || bit_at(bits, other)),
{
    let byte = bits[idx / 8];
    let o = (idx % 8) as u8;
    let p = (other % 8) as u8;
    assert(o < 8 && p < 8 ==> (((byte | (1u8 << o)) >> p) & 1u8 == 1u8) == (p == o || (byte >> p)
        & 1u8 == 1u8)) by (bit_vector);
}

/// After the first `count` probes of `key` were set, a bit is set exactly if
/// it was set before or one of those probes falls on it.
pub proof fn lemma_with_probes(bits: Seq<u8>, key: Seq<u8>, num_bits: u64, count: nat, idx: int)
    requires
        1 <= num_bits <= 8 * bits.len(),
        count <= u32::MAX,
        0 <= idx < 8 * bits.len(),
    ensures
        with_probes(bits, key, num_bits, count).len() == bits.len(),
        bit_at(with_probes(bits, key, num_bits, count), idx) == (bit_at(bits, idx) || exists|
            i: u32,
        |
            0 <= i < count && #[trigger] probe(key, i, num_bits) == idx),
    decreases count,
{
    if count > 0 {
        let before = with_probes(bits, key, num_bits, (count - 1) as nat);
        let last = (count - 1) as u32;
        lemma_probe_in_range(key, last, num_bits);
        lemma_with_probes(bits, key, num_bits, (count - 1) as nat, idx);
        lemma_with_bit(before, probe(key, last, num_bits), idx);
        if bit_at(with_probes(bits, key, num_bits, count), idx) {
            if !bit_at(bits, idx) && probe(key, last, num_bits) != idx {
                let i = choose|i: u32| 0 <= i < count - 1 && #[trigger] probe(key, i, num_bits) == idx;
                assert(0 <= i < count && probe(key, i, num_bits) == idx);
            }
        }
    }
}

/// No false negatives: an inserted key is reported as possibly present, and
/// so is every key that was reported so before.
pub proof fn lemma_insert_sound(filter: BloomView, key: Seq<u8>)
    requires
        filter.wf(),
    ensures
        filter.insert(key).wf(),
        filter.insert(key).bits.len() == filter.bits.len(),
        filter.insert(key).may_contain(key),
        forall|other: Seq<u8>| filter.may_contain(other) ==> filter.insert(key).may_contain(other),
{
    let after = filter.insert(key);
    if filter.num_hashes > 0 {
        lemma_with_probes(filter.bits, key, filter.num_bits, filter.num_hashes as nat, 0);
        assert forall|i: u32| 0 <= i < after.num_hashes implies bit_at(
            after.bits,
            #[trigger] probe(key, i, after.num_bits),
        ) by {
            lemma_probe_in_range(key, i, filter.num_bits);
            lemma_with_probes(
                filter.bits,
                key,
                filter.num_bits,
                filter.num_hashes as nat,
                probe(key, i, filter.num_bits),
            );
        }
        assert forall|other: Seq<u8>| filter.may_contain(other) implies after.may_contain(
            other,
        ) by {
            assert forall|i: u32| 0 <= i < after.num_hashes implies bit_at(
                after.bits,
                #[trigger] probe(other, i, after.num_bits),
            ) by {
                lemma_probe_in_range(other, i, filter.num_bits);
                lemma_with_probes(
                    filter.bits,
                    key,
                    filter.num_bits,
                    filter.num_hashes as nat,
                    probe(other, i, filter.num_bits),
                );
            }
        }
    }
}

/// Serializing a filter and deserializing the bytes gives the filter back,
/// whatever follows it in the input; so `may_contain` answers the same for
/// every key. It holds of filters within the size that deserialization
/// accepts.
pub proof fn lemma_serialize_then_parse(filter: BloomView, tail: Seq<u8>)
    requires
        filter.bits.len() <= MAX_BLOOM_BYTES,
    ensures
        parse_bloom(filter.serialized() + tail) == Ok::<BloomView, BloomError>(filter),
{
    lemma_auto_spec_u32_to_from_le_bytes();
    lemma_auto_spec_u64_to_from_le_bytes();
    let data = filter.serialized() + tail;
    assert(data.subrange(0, 8) =~= spec_u64_to_le_bytes(filter.num_bits));
    assert(data.subrange(8, 12) =~= spec_u32_to_le_bytes(filter.num_hashes));
    assert(data.subrange(12, 16) =~= spec_u32_to_le_bytes(filter.bits.len() as u32));
    assert(data.subrange(16, 16 + filter.bits.len() as int) =~= filter.bits);
}

} // verus!
