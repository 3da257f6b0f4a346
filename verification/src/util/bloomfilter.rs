//! A Bloom filter over pairs of an index and a label, sized for a false
//! positive rate of one in a hundred thousand.
//!
//! The bits of a filter are held in a bit vector of the `bit_vec` crate.
//! This module calls it through functions whose contracts are not proved
//! here; each names the function that it calls and what it takes for
//! granted.

use vstd::prelude::*;
use bit_vec::BitVec;
use super::{be_bytes, be_encode};

verus! {

/// Bits of the filter per item that it is sized for.
pub const BITS_PER_ITEM: usize = 24;

/// Bytes of the filter per item that it is sized for.
pub const BYTES_PER_ITEM: usize = 3;

/// The number of bit positions that an item marks: with `BITS_PER_ITEM`
/// bits per item this keeps the false positive rate under `10^-5`.
pub const HASHES: u32 = 17;

/// Start value of the first hash.
pub const SEED_ONE: u64 = 0xcbf2_9ce4_8422_2325;

/// Start value of the second hash.
pub const SEED_TWO: u64 = 0x8422_2325_cbf2_9ce4;

/// Multiplier of the hash.
pub const HASH_PRIME: u64 = 0x0000_0100_0000_01b3;

/// First multiplier of the last mixing of a hash.
pub const MIX_ONE: u64 = 0xff51_afd7_ed55_8ccd;

/// Second multiplier of the last mixing of a hash.
pub const MIX_TWO: u64 = 0xc4ce_b9fe_1a85_ec53;

/// One step of the hash: the byte is mixed in and the state multiplied,
/// modulo `2^64`.
pub open spec fn hash_step(h: u64, b: u8) -> u64 {
    (h ^ (b as u64)).wrapping_mul(HASH_PRIME)
}

/// The hash of a byte string from the start value `h`.
pub open spec fn hash_fold(h: u64, s: Seq<u8>) -> u64
    decreases s.len(),
{
    if s.len() == 0 {
        h
    } else {
        hash_step(hash_fold(h, s.drop_last()), s.last())
    }
}

/// The last mixing of a hash, which spreads every bit of the state over
/// the whole number.
pub open spec fn hash_finish(h: u64) -> u64 {
    let a = (h ^ (h >> 33)).wrapping_mul(MIX_ONE);
    let b = (a ^ (a >> 33)).wrapping_mul(MIX_TWO);
    b ^ (b >> 33)
}

/// The hash of a byte string with the start value `seed`.
pub open spec fn spec_hash(seed: u64, s: Seq<u8>) -> u64 {
    hash_finish(hash_fold(seed, s))
}

/// The last mixing of a hash.
pub fn finish(h: u64) -> (r: u64)
    ensures
        r == hash_finish(h),
{
    let a = (h ^ (h >> 33)).wrapping_mul(MIX_ONE);
    let b = (a ^ (a >> 33)).wrapping_mul(MIX_TWO);
    b ^ (b >> 33)
}

/// The bytes that stand for an item: the index as eight bytes, most
/// significant first, then the label.
pub open spec fn item_bytes(index: u64, label: Seq<u8>) -> Seq<u8> {
    be_bytes(index as nat, 8) + label
}

/// The `j`-th bit position of an item in a filter of `nbits` bits: the
/// first hash of its bytes plus `j` times the second, which is made odd,
/// modulo `2^64` and then modulo `nbits`.
pub open spec fn spec_position(index: u64, label: Seq<u8>, j: u32, nbits: nat) -> nat {
    let data = item_bytes(index, label);
    let h1 = spec_hash(SEED_ONE, data);
    let h2 = spec_hash(SEED_TWO, data) | 1u64;
    (h1.wrapping_add((j as u64).wrapping_mul(h2)) as nat) % nbits
}

/// Whether bit `p` of the bytes is set; the first bit of a byte is its most
/// significant one.
pub open spec fn bit_at(bytes: Seq<u8>, p: int) -> bool {
    bytes[p / 8] & (0x80u8 >> ((p % 8) as u8)) != 0
}

/// The bits that the bytes hold.
pub open spec fn bits_of(bytes: Seq<u8>) -> Seq<bool> {
    Seq::new(8 * bytes.len(), |p: int| bit_at(bytes, p))
}

/// Whether one of the first `k` positions of the item is `p`.
pub open spec fn hits(p: int, index: u64, label: Seq<u8>, k: u32, nbits: nat) -> bool {
    exists|j: u32| j < k && #[trigger] spec_position(index, label, j, nbits) == p
}

/// The bits after the first `k` positions of an item are set.
pub open spec fn marked(bits: Seq<bool>, index: u64, label: Seq<u8>, k: u32) -> Seq<bool> {
    Seq::new(bits.len(), |p: int| bits[p] || hits(p, index, label, k, bits.len()))
}

/// Whether all `k` positions of the item are set in the bits.
pub open spec fn all_set(bits: Seq<bool>, index: u64, label: Seq<u8>, k: u32) -> bool {
    forall|j: u32| j < k ==> bits[#[trigger] spec_position(index, label, j, bits.len()) as int]
}

/// The most bytes that a filter has: the machine has to number their
/// bits.
pub open spec fn spec_most_bytes() -> nat {
    (usize::MAX / 8) as nat
}

/// The number of bytes of a filter for `items` items: `BYTES_PER_ITEM` for
/// each, at least one item, and no more than fit the machine.
pub open spec fn spec_filter_bytes(items: nat) -> nat {
    if items == 0 {
        BYTES_PER_ITEM as nat
    } else if items * BYTES_PER_ITEM <= spec_most_bytes() {
        (items * BYTES_PER_ITEM) as nat
    } else {
        spec_most_bytes()
    }
}

/// The byte that the eight bits from `at` on stand for, the first of them
/// its most significant bit.
pub open spec fn byte_of(bits: Seq<bool>, at: int) -> u8 {
    byte_of_bits(
        bits[at],
        bits[at + 1],
        bits[at + 2],
        bits[at + 3],
        bits[at + 4],
        bits[at + 5],
        bits[at + 6],
        bits[at + 7],
    )
}

/// The byte that eight bits stand for, the first of them its most
/// significant bit.
pub open spec fn byte_of_bits(b0: bool, b1: bool, b2: bool, b3: bool, b4: bool, b5: bool, b6: bool, b7: bool) -> u8 {
    (if b0 { 0x80u8 } else { 0u8 }) | (if b1 { 0x40u8 } else { 0u8 }) | (if b2 { 0x20u8 } else { 0u8 }) | (if b3 { 0x10u8 } else { 0u8 }) | (if b4 { 0x08u8 } else { 0u8 }) | (if b5 { 0x04u8 } else { 0u8 }) | (if b6 { 0x02u8 } else { 0u8 }) | (if b7 { 0x01u8 } else { 0u8 })
}

/// The bytes that bits stand for, eight bits to the byte.
pub open spec fn packed(bits: Seq<bool>) -> Seq<u8> {
    Seq::new((bits.len() / 8) as nat, |i: int| byte_of(bits, 8 * i))
}

/// The bits of a byte are the bits that it was made of.
proof fn lemma_byte_has_bits(b0: bool, b1: bool, b2: bool, b3: bool, b4: bool, b5: bool, b6: bool, b7: bool, j: u8)
    by (bit_vector)
    requires
        j < 8,
    ensures
        (((if b0 { 0x80u8 } else { 0u8 }) | (if b1 { 0x40u8 } else { 0u8 }) | (if b2 { 0x20u8 } else { 0u8 }) | (if b3 { 0x10u8 } else { 0u8 }) | (if b4 { 0x08u8 } else { 0u8 }) | (if b5 { 0x04u8 } else { 0u8 }) | (if b6 { 0x02u8 } else { 0u8 }) | (if b7 { 0x01u8 } else { 0u8 })) & (0x80u8 >> j) != 0) == (if j == 0 { b0 } else if j == 1 { b1 } else if j == 2 { b2 } else if j == 3 { b3 } else if j == 4 { b4 } else if j == 5 { b5 } else if j == 6 { b6 } else { b7 }),
{
}

/// A byte is made of its bits.
proof fn lemma_bits_make_byte(x: u8)
    by (bit_vector)
    ensures
        ((if x & (0x80u8 >> 0u8) != 0 { 0x80u8 } else { 0u8 }) | (if x & (0x80u8 >> 1u8) != 0 { 0x40u8 } else { 0u8 }) | (if x & (0x80u8 >> 2u8) != 0 { 0x20u8 } else { 0u8 }) | (if x & (0x80u8 >> 3u8) != 0 { 0x10u8 } else { 0u8 }) | (if x & (0x80u8 >> 4u8) != 0 { 0x08u8 } else { 0u8 }) | (if x & (0x80u8 >> 5u8) != 0 { 0x04u8 } else { 0u8 }) | (if x & (0x80u8 >> 6u8) != 0 { 0x02u8 } else { 0u8 }) | (if x & (0x80u8 >> 7u8) != 0 { 0x01u8 } else { 0u8 })) == x,
{
}

/// Bits that were packed into bytes are the bits of those bytes.
pub proof fn lemma_bits_of_packed(bits: Seq<bool>)
    requires
        bits.len() % 8 == 0,
    ensures
        bits_of(packed(bits)) == bits,
{
    let bytes = packed(bits);
    assert forall|p: int| 0 <= p < bits.len() implies bit_at(bytes, p) == bits[p] by {
        let i = p / 8;
        let j = (p % 8) as u8;
        assert(p == 8 * i + j);
        assert(bytes[i] == byte_of(bits, 8 * i));
        lemma_byte_has_bits(
            bits[8 * i],
            bits[8 * i + 1],
            bits[8 * i + 2],
            bits[8 * i + 3],
            bits[8 * i + 4],
            bits[8 * i + 5],
            bits[8 * i + 6],
            bits[8 * i + 7],
            j,
        );
    }
    assert(bits_of(bytes) =~= bits);
}

/// The bits of bytes pack into those bytes.
pub proof fn lemma_packed_bits_of(bytes: Seq<u8>)
    ensures
        packed(bits_of(bytes)) == bytes,
{
    let bits = bits_of(bytes);
    assert forall|i: int| 0 <= i < bytes.len() implies byte_of(bits, 8 * i) == bytes[i] by {
        lemma_bits_make_byte(bytes[i]);
        assert(bits[8 * i] == bit_at(bytes, 8 * i));
        assert(bits[8 * i + 1] == bit_at(bytes, 8 * i + 1));
        assert(bits[8 * i + 2] == bit_at(bytes, 8 * i + 2));
        assert(bits[8 * i + 3] == bit_at(bytes, 8 * i + 3));
        assert(bits[8 * i + 4] == bit_at(bytes, 8 * i + 4));
        assert(bits[8 * i + 5] == bit_at(bytes, 8 * i + 5));
        assert(bits[8 * i + 6] == bit_at(bytes, 8 * i + 6));
        assert(bits[8 * i + 7] == bit_at(bytes, 8 * i + 7));
    }
    assert(packed(bits) =~= bytes);
}

/// Bits that are all unset pack into bytes of zero.
pub proof fn lemma_packed_unset(len: nat)
    ensures
        packed(Seq::new(8 * len, |p: int| false)) == Seq::new(len, |i: int| 0u8),
{
    let zeros = Seq::new(len, |i: int| 0u8);
    assert(bits_of(zeros) =~= Seq::new(8 * len, |p: int| false)) by {
        assert forall|p: int| 0 <= p < 8 * len implies !bit_at(zeros, p) by {
            let j = (p % 8) as u8;
            assert(0u8 & (0x80u8 >> j) == 0) by (bit_vector);
        }
    }
    lemma_packed_bits_of(zeros);
}

/// The bit vector of the `bit_vec` crate.
#[verifier::external_type_specification]
#[verifier::external_body]
#[verifier::reject_recursive_types(B)]
pub struct ExBitVec<B>(BitVec<B>);

/// The bits that a bit vector holds, in order.
pub uninterp spec fn bit_vec_bits(v: BitVec<u32>) -> Seq<bool>;

/// Calls `BitVec::from_elem` with `false`. Taken for granted: the vector
/// has `len` bits, all unset.
#[verifier::external_body]
fn bits_unset(len: usize) -> (v: BitVec<u32>)
    ensures
        bit_vec_bits(v) == Seq::new(len as nat, |p: int| false),
{
    BitVec::from_elem(len, false)
}

/// Calls `BitVec::from_bytes`. Taken for granted: each byte becomes eight
/// bits, its most significant bit first. The function fails where the
/// machine cannot number the bits, which the precondition leaves out.
#[verifier::external_body]
fn bits_from_bytes(bytes: &[u8]) -> (v: BitVec<u32>)
    requires
        8 * bytes@.len() <= usize::MAX,
    ensures
        bit_vec_bits(v) == bits_of(bytes@),
{
    BitVec::from_bytes(bytes)
}

/// Calls `BitVec::to_bytes`. Taken for granted: eight bits become a byte,
/// the first of them its most significant bit, and a last byte is filled
/// up with unset bits.
#[verifier::external_body]
fn bits_to_bytes(v: &BitVec<u32>) -> (bytes: Vec<u8>)
    ensures
        bytes@.len() == (bit_vec_bits(*v).len() + 7) / 8,
        forall|p: int|
            0 <= p < 8 * bytes@.len() ==> #[trigger] bit_at(bytes@, p) == (p < bit_vec_bits(*v).len() && bit_vec_bits(
                *v,
            )[p]),
{
    v.to_bytes()
}

/// Calls `BitVec::len`: the number of bits.
#[verifier::external_body]
fn bits_len(v: &BitVec<u32>) -> (n: usize)
    ensures
        n == bit_vec_bits(*v).len(),
{
    v.len()
}

/// Calls `BitVec::get`: the bit at an index, and `None` for an index that
/// the vector does not have.
#[verifier::external_body]
fn bits_get(v: &BitVec<u32>, i: usize) -> (bit: Option<bool>)
    ensures
        bit == if i < bit_vec_bits(*v).len() {
            Some(bit_vec_bits(*v)[i as int])
        } else {
            None
        },
{
    v.get(i)
}

/// Calls `BitVec::set`. Taken for granted: the bit at the index gets the
/// value, and no other bit changes. The function fails for an index that
/// the vector does not have, which the precondition leaves out, and for
/// no other.
#[verifier::external_body]
fn bits_set(v: &mut BitVec<u32>, i: usize, bit: bool)
    requires
        i < bit_vec_bits(*old(v)).len(),
    ensures
        bit_vec_bits(*final(v)) == bit_vec_bits(*old(v)).update(i as int, bit),
    no_unwind
{
    v.set(i, bit)
}

/// Calls `BitVec::fill`. Taken for granted: every bit gets the value, the
/// vector keeps its length, and the function does not fail.
#[verifier::external_body]
fn bits_fill(v: &mut BitVec<u32>, bit: bool)
    ensures
        bit_vec_bits(*final(v)) == Seq::new(bit_vec_bits(*old(v)).len(), |p: int| bit),
    no_unwind
{
    v.fill(bit)
}

/// Setting no position leaves the bits.
proof fn lemma_marked_none(bits: Seq<bool>, index: u64, label: Seq<u8>)
    ensures
        marked(bits, index, label, 0) == bits,
{
    assert(marked(bits, index, label, 0) =~= bits);
}

/// An item whose positions were set is found.
pub proof fn lemma_marked_all_set(bits: Seq<bool>, index: u64, label: Seq<u8>, k: u32)
    requires
        bits.len() > 0,
    ensures
        all_set(marked(bits, index, label, k), index, label, k),
{
    let n = bits.len();
    let m = marked(bits, index, label, k);
    assert forall|w: u32| w < k implies m[#[trigger] spec_position(index, label, w, n) as int] by {
        let q = spec_position(index, label, w, n) as int;
        assert(0 <= q < n);
        assert(hits(q, index, label, k, n));
    }
}

/// A Bloom filter: a set of items that may answer yes for an item that was
/// never put in, and never answers no for one that was.
pub struct Bloom {
    bitmap: BitVec<u32>,
    k_num: u32,
}

impl Bloom {
    /// The bytes of the filter.
    pub closed spec fn spec_bytes(&self) -> Seq<u8> {
        packed(bit_vec_bits(self.bitmap))
    }

    /// The bits of the filter.
    pub open spec fn bits(&self) -> Seq<bool> {
        bits_of(self.spec_bytes())
    }

    /// The number of positions that an item marks.
    pub closed spec fn spec_hashes(&self) -> u32 {
        self.k_num
    }

    /// A filter has at least one byte, and its bits fill its bytes.
    #[verifier::type_invariant]
    spec fn has_bits(&self) -> bool {
        bit_vec_bits(self.bitmap).len() > 0 && bit_vec_bits(self.bitmap).len() % 8 == 0
    }

    /// The bits of the filter are those of its bit vector.
    proof fn lemma_bits(&self)
        requires
            self.has_bits(),
        ensures
            self.bits() == bit_vec_bits(self.bitmap),
            self.bits().len() > 0,
            8 * self.spec_bytes().len() == self.bits().len(),
    {
        lemma_bits_of_packed(bit_vec_bits(self.bitmap));
    }

    /// Whether the filter answers yes for the item.
    pub open spec fn spec_check(&self, index: u64, label: Seq<u8>) -> bool {
        all_set(self.bits(), index, label, self.spec_hashes())
    }

    /// An empty filter of `bitmap_size` bytes in which an item marks
    /// `k_num` positions.
    pub fn new(bitmap_size: usize, k_num: u32) -> (bloom: Bloom)
        requires
            0 < bitmap_size <= spec_most_bytes(),
        ensures
            bloom.spec_bytes() == Seq::new(bitmap_size as nat, |i: int| 0u8),
            bloom.spec_hashes() == k_num,
            bloom.spec_bytes().len() > 0,
    {
        let bitmap = bits_unset(8 * bitmap_size);
        proof {
            lemma_packed_unset(bitmap_size as nat);
            assert(Seq::new((8 * bitmap_size) as nat, |p: int| false) =~= Seq::new(
                8 * (bitmap_size as nat),
                |p: int| false,
            ));
        }
        Bloom { bitmap, k_num }
    }

    /// An empty filter for `items_count` items.
    pub fn for_items(items_count: usize) -> (bloom: Bloom)
        ensures
            bloom.spec_bytes() == Seq::new(spec_filter_bytes(items_count as nat), |i: int| 0u8),
            bloom.spec_hashes() == HASHES,
    {
        let most: usize = usize::MAX / 8;
        let size: usize = if items_count == 0 {
            BYTES_PER_ITEM
        } else if items_count <= most / BYTES_PER_ITEM {
            items_count * BYTES_PER_ITEM
        } else {
            most
        };
        Bloom::new(size, HASHES)
    }

    /// The number of bits of the filter.
    pub fn number_of_bits(&self) -> (n: u128)
        ensures
            n == self.bits().len(),
    {
        proof {
            use_type_invariant(self);
            self.lemma_bits();
        }
        let n = bits_len(&self.bitmap);
        n as u128
    }

    /// The number of positions that an item marks.
    pub fn number_of_hash_functions(&self) -> (k: u32)
        ensures
            k == self.spec_hashes(),
    {
        self.k_num
    }

    /// The two hashes of an item.
    fn hashes(index: u64, label: &[u8]) -> (h: (u64, u64))
        ensures
            h.0 == spec_hash(SEED_ONE, item_bytes(index, label@)),
            h.1 == spec_hash(SEED_TWO, item_bytes(index, label@)) | 1u64,
    {
        let head = be_encode(index, 8);
        let ghost data = item_bytes(index, label@);
        let mut h1: u64 = SEED_ONE;
        let mut h2: u64 = SEED_TWO;
        let mut i: usize = 0;
        while i < head.len()
            invariant
                i <= head@.len(),
                head@ == be_bytes(index as nat, 8),
                data == head@ + label@,
                h1 == hash_fold(SEED_ONE, data.take(i as int)),
                h2 == hash_fold(SEED_TWO, data.take(i as int)),
            decreases head@.len() - i,
        {
            proof {
                assert(data.take(i as int + 1).drop_last() =~= data.take(i as int));
            }
            h1 = (h1 ^ (head[i] as u64)).wrapping_mul(HASH_PRIME);
            h2 = (h2 ^ (head[i] as u64)).wrapping_mul(HASH_PRIME);
            i += 1;
        }
        let mut j: usize = 0;
        while j < label.len()
            invariant
                j <= label@.len(),
                head@.len() == 8,
                data == head@ + label@,
                h1 == hash_fold(SEED_ONE, data.take(8 + j as int)),
                h2 == hash_fold(SEED_TWO, data.take(8 + j as int)),
            decreases label@.len() - j,
        {
            proof {
                assert(data.take(8 + j as int + 1).drop_last() =~= data.take(8 + j as int));
            }
            h1 = (h1 ^ (label[j] as u64)).wrapping_mul(HASH_PRIME);
            h2 = (h2 ^ (label[j] as u64)).wrapping_mul(HASH_PRIME);
            j += 1;
        }
        assert(data.take(8 + label@.len() as int) =~= data);
        (finish(h1), finish(h2) | 1u64)
    }

    /// The `j`-th bit position of an item with the hashes `h`.
    fn position(&self, h: (u64, u64), j: u32, Ghost(index): Ghost<u64>, Ghost(label): Ghost<Seq<u8>>) -> (p: usize)
        requires
            h.0 == spec_hash(SEED_ONE, item_bytes(index, label)),
            h.1 == spec_hash(SEED_TWO, item_bytes(index, label)) | 1u64,
        ensures
            p == spec_position(index, label, j, self.bits().len()),
            p < self.bits().len(),
    {
        proof {
            use_type_invariant(self);
            self.lemma_bits();
        }
        let nbits: usize = bits_len(&self.bitmap);
        ((h.0.wrapping_add((j as u64).wrapping_mul(h.1)) as u128) % (nbits as u128)) as usize
    }

    /// Whether bit `p` of the filter is set.
    fn get_bit(&self, p: usize) -> (r: bool)
        requires
            p < self.bits().len(),
        ensures
            r == self.bits()[p as int],
    {
        proof {
            use_type_invariant(self);
            self.lemma_bits();
        }
        match bits_get(&self.bitmap, p) {
            Some(bit) => bit,
            None => false,
        }
    }

    /// Sets bit `p` of the filter.
    fn set_bit(&mut self, p: usize)
        requires
            p < old(self).bits().len(),
        ensures
            final(self).k_num == old(self).k_num,
            final(self).bits() == old(self).bits().update(p as int, true),
    {
        proof {
            use_type_invariant(&*self);
            self.lemma_bits();
        }
        bits_set(&mut self.bitmap, p, true);
        proof {
            self.lemma_bits();
        }
    }

    /// Puts the item in the filter: its positions are set, and no other
    /// bit changes.
    pub fn set(&mut self, index: u64, label: &[u8])
        ensures
            final(self).spec_hashes() == old(self).spec_hashes(),
            final(self).bits() == marked(old(self).bits(), index, label@, old(self).spec_hashes()),
            final(self).spec_check(index, label@),
    {
        let h = Bloom::hashes(index, label);
        let ghost bits0 = self.bits();
        let ghost n = bits0.len();
        let mut j: u32 = 0;
        proof {
            use_type_invariant(&*self);
            self.lemma_bits();
            lemma_marked_none(bits0, index, label@);
        }
        while j < self.k_num
            invariant
                n > 0,
                j <= self.k_num,
                self.k_num == old(self).k_num,
                self.bits().len() == n,
                bits0 == old(self).bits(),
                bits0.len() == n,
                h.0 == spec_hash(SEED_ONE, item_bytes(index, label@)),
                h.1 == spec_hash(SEED_TWO, item_bytes(index, label@)) | 1u64,
                self.bits() == marked(bits0, index, label@, j),
            decreases self.k_num - j,
        {
            let p = self.position(h, j, Ghost(index), Ghost(label@));
            let ghost before = self.bits();
            self.set_bit(p);
            proof {
                assert forall|q: int| 0 <= q < n implies (#[trigger] self.bits()[q]) == marked(
                    bits0,
                    index,
                    label@,
                    (j + 1) as u32,
                )[q] by {
                    assert(self.bits()[q] == (before[q] || q == p));
                    assert(before[q] == marked(bits0, index, label@, j)[q]);
                    if hits(q, index, label@, j, n) {
                        let w = choose|w: u32| w < j && #[trigger] spec_position(index, label@, w, n) == q;
                        assert(w < j + 1 && spec_position(index, label@, w, n) == q);
                    }
                    if q == p {
                        assert(j < j + 1 && spec_position(index, label@, j, n) == q);
                    }
                    if hits(q, index, label@, (j + 1) as u32, n) {
                        let w = choose|w: u32| w < j + 1 && #[trigger] spec_position(index, label@, w, n) == q;
                        if w < j {
                            assert(hits(q, index, label@, j, n));
                        }
                    }
                }
                assert(self.bits() =~= marked(bits0, index, label@, (j + 1) as u32));
            }
            j += 1;
        }
        proof {
            lemma_marked_all_set(bits0, index, label@, self.k_num);
        }
    }

    /// Whether the filter answers yes for the item: all its positions are
    /// set.
    pub fn check(&self, index: u64, label: &[u8]) -> (r: bool)
        ensures
            r == self.spec_check(index, label@),
    {
        let h = Bloom::hashes(index, label);
        let mut j: u32 = 0;
        while j < self.k_num
            invariant
                j <= self.k_num,
                h.0 == spec_hash(SEED_ONE, item_bytes(index, label@)),
                h.1 == spec_hash(SEED_TWO, item_bytes(index, label@)) | 1u64,
                all_set(self.bits(), index, label@, j),
            decreases self.k_num - j,
        {
            let p = self.position(h, j, Ghost(index), Ghost(label@));
            if !self.get_bit(p) {
                return false;
            }
            j += 1;
        }
        true
    }

    /// The bytes of the filter.
    pub fn to_bytes(&self) -> (bytes: Vec<u8>)
        ensures
            bytes@ == self.spec_bytes(),
    {
        proof {
            use_type_invariant(self);
            self.lemma_bits();
        }
        let bytes = bits_to_bytes(&self.bitmap);
        proof {
            let held = bit_vec_bits(self.bitmap);
            assert(bits_of(bytes@) =~= held);
            lemma_packed_bits_of(bytes@);
        }
        bytes
    }

    /// Replaces the bits of the filter by those that `bytes` hold, where
    /// there are as many bytes as the filter has; says whether it did.
    pub fn from_bytes(&mut self, bytes: &[u8]) -> (loaded: bool)
        ensures
            final(self).spec_hashes() == old(self).spec_hashes(),
            loaded == (bytes@.len() == old(self).spec_bytes().len()),
            loaded ==> final(self).spec_bytes() == bytes@,
            !loaded ==> final(self).spec_bytes() == old(self).spec_bytes(),
    {
        proof {
            use_type_invariant(&*self);
            self.lemma_bits();
        }
        let nbits = bits_len(&self.bitmap);
        if bytes.len() != nbits / 8 {
            return false;
        }
        self.bitmap = bits_from_bytes(bytes);
        proof {
            lemma_packed_bits_of(bytes@);
        }
        true
    }

    /// Removes all items.
    pub fn clear(&mut self)
        ensures
            final(self).spec_hashes() == old(self).spec_hashes(),
            final(self).spec_bytes() == Seq::new(old(self).spec_bytes().len(), |i: int| 0u8),
    {
        proof {
            use_type_invariant(&*self);
            self.lemma_bits();
        }
        let ghost len = self.spec_bytes().len();
        bits_fill(&mut self.bitmap, false);
        proof {
            lemma_packed_unset(len);
            assert(bit_vec_bits(self.bitmap) =~= Seq::new(8 * len, |p: int| false));
        }
    }
}

/// The bits of the filter of a list of labels after the first `upto` of
/// them were put in, each with its index in the list.
pub open spec fn filter_bits(labels: Seq<Seq<u8>>, upto: nat) -> Seq<bool>
    decreases upto,
{
    if upto == 0 {
        bits_of(Seq::new(spec_filter_bytes(labels.len()), |i: int| 0u8))
    } else {
        marked(filter_bits(labels, (upto - 1) as nat), (upto - 1) as u64, labels[upto - 1], HASHES)
    }
}

/// The filter has as many bits however many labels were put in.
pub proof fn lemma_filter_bits_len(labels: Seq<Seq<u8>>, upto: nat)
    ensures
        filter_bits(labels, upto).len() == 8 * spec_filter_bytes(labels.len()),
        filter_bits(labels, upto).len() > 0,
    decreases upto,
{
    if upto > 0 {
        lemma_filter_bits_len(labels, (upto - 1) as nat);
    }
}

/// A filter never answers no for a label that was put in: the filter of a
/// list of labels answers yes for every one of them at its index.
pub proof fn lemma_filter_finds(labels: Seq<Seq<u8>>, upto: nat, i: nat)
    requires
        i < upto <= labels.len(),
        labels.len() <= u64::MAX,
    ensures
        all_set(filter_bits(labels, upto), i as u64, labels[i as int], HASHES),
    decreases upto,
{
    let before = filter_bits(labels, (upto - 1) as nat);
    lemma_filter_bits_len(labels, (upto - 1) as nat);
    lemma_filter_bits_len(labels, upto);
    let n = before.len();
    if i == upto - 1 {
        lemma_marked_all_set(before, i as u64, labels[i as int], HASHES);
    } else {
        lemma_filter_finds(labels, (upto - 1) as nat, i);
        let after = filter_bits(labels, upto);
        assert forall|w: u32| w < HASHES implies after[#[trigger] spec_position(i as u64, labels[i as int], w, n) as int] by {
            let q = spec_position(i as u64, labels[i as int], w, n) as int;
            assert(before[q]);
        }
    }
}

} // verus!
