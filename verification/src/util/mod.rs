//! Label order, bucket partitioning and the small formulas that the client
//! and the server have to agree on.

use vstd::prelude::*;
use vstd::arithmetic::div_mod::{lemma_div_denominator, lemma_mod_breakdown};
use vstd::arithmetic::power::lemma_pow_positive;
use vstd::arithmetic::power::pow;
use vstd::arithmetic::power2::{lemma2_to64, lemma2_to64_rest, lemma_pow2_unfold, pow2};
use vstd::slice::slice_subrange;
use std::cmp::Ordering;
use crate::db::OptScheme;
use self::bloomfilter::Bloom;

pub mod bloomfilter;
pub mod random;

verus! {

/// Lexicographic order on byte strings: unsigned bytes, most significant
/// byte first; a proper prefix comes before its extensions.
pub open spec fn lex_lt(a: Seq<u8>, b: Seq<u8>) -> bool
    decreases a.len(),
{
    if b.len() == 0 {
        false
    } else if a.len() == 0 {
        true
    } else if a[0] != b[0] {
        a[0] < b[0]
    } else {
        lex_lt(a.drop_first(), b.drop_first())
    }
}

/// `a` comes before `b` or equals it.
pub open spec fn lex_le(a: Seq<u8>, b: Seq<u8>) -> bool {
    !lex_lt(b, a)
}

/// A byte string read as an unsigned integer, most significant byte first.
pub open spec fn be_value(s: Seq<u8>) -> nat
    decreases s.len(),
{
    if s.len() == 0 {
        0
    } else {
        be_value(s.drop_last()) * 256 + s.last() as nat
    }
}

/// No byte string comes before itself.
pub proof fn lemma_lex_lt_irreflexive(a: Seq<u8>)
    ensures
        !lex_lt(a, a),
    decreases a.len(),
{
    if a.len() > 0 {
        lemma_lex_lt_irreflexive(a.drop_first());
    }
}

/// Of two different byte strings one comes before the other, and never both.
pub proof fn lemma_lex_lt_total(a: Seq<u8>, b: Seq<u8>)
    ensures
        a != b ==> (lex_lt(a, b) || lex_lt(b, a)),
        !(lex_lt(a, b) && lex_lt(b, a)),
    decreases a.len(),
{
    if a.len() == 0 || b.len() == 0 {
        if a.len() == 0 && b.len() == 0 {
            assert(a =~= b);
        }
    } else if a[0] == b[0] {
        lemma_lex_lt_total(a.drop_first(), b.drop_first());
        if a.drop_first() == b.drop_first() {
            assert(a =~= seq![a[0]] + a.drop_first());
            assert(b =~= seq![b[0]] + b.drop_first());
        }
    }
}

/// The order is transitive.
pub proof fn lemma_lex_lt_transitive(a: Seq<u8>, b: Seq<u8>, c: Seq<u8>)
    requires
        lex_lt(a, b),
        lex_lt(b, c),
    ensures
        lex_lt(a, c),
    decreases a.len(),
{
    if a.len() > 0 && a[0] == b[0] && b[0] == c[0] {
        lemma_lex_lt_transitive(a.drop_first(), b.drop_first(), c.drop_first());
    }
}

/// Whether `a` comes before `b` in the order of labels.
pub fn label_lt(a: &[u8], b: &[u8]) -> (r: bool)
    ensures
        r == lex_lt(a@, b@),
{
    let mut i: usize = 0;
    proof {
        assert(a@.skip(0) =~= a@);
        assert(b@.skip(0) =~= b@);
    }
    while i < a.len() && i < b.len()
        invariant
            i <= a@.len(),
            i <= b@.len(),
            lex_lt(a@, b@) == lex_lt(a@.skip(i as int), b@.skip(i as int)),
        decreases a@.len() - i,
    {
        proof {
            assert(a@.skip(i as int).drop_first() =~= a@.skip(i as int + 1));
            assert(b@.skip(i as int).drop_first() =~= b@.skip(i as int + 1));
        }
        if a[i] != b[i] {
            return a[i] < b[i];
        }
        i += 1;
    }
    i < b.len()
}

/// Whether two labels are the same bytes.
pub fn label_eq(a: &[u8], b: &[u8]) -> (r: bool)
    ensures
        r == (a@ == b@),
{
    if a.len() != b.len() {
        return false;
    }
    let mut i: usize = 0;
    while i < a.len()
        invariant
            i <= a@.len(),
            a@.len() == b@.len(),
            forall|j: int| 0 <= j < i ==> a@[j] == b@[j],
        decreases a@.len() - i,
    {
        if a[i] != b[i] {
            return false;
        }
        i += 1;
    }
    assert(a@ =~= b@);
    true
}

/// Compares two labels byte by byte, most significant byte first.
pub fn label_cmp(l1: &[u8], l2: &[u8]) -> (r: Ordering)
    ensures
        (r == Ordering::Less) == lex_lt(l1@, l2@),
        (r == Ordering::Greater) == lex_lt(l2@, l1@),
        (r == Ordering::Equal) == (l1@ == l2@),
{
    proof {
        lemma_lex_lt_total(l1@, l2@);
        lemma_lex_lt_irreflexive(l1@);
    }
    if label_lt(l1, l2) {
        Ordering::Less
    } else if label_lt(l2, l1) {
        Ordering::Greater
    } else {
        Ordering::Equal
    }
}

/// The number of levels of a complete binary tree of `num` nodes: the least
/// `h` with `num < 2^h`.
pub open spec fn spec_tree_height(num: nat) -> nat
    decreases num,
{
    if num == 0 {
        0
    } else {
        1 + spec_tree_height(num / 2)
    }
}

/// A tree of `num` nodes has at most 64 levels where `num` fits 64 bits.
pub proof fn lemma_tree_height_bound(num: nat, bits: nat)
    requires
        num < pow2(bits),
    ensures
        spec_tree_height(num) <= bits,
    decreases num,
{
    if num > 0 {
        if bits == 0 {
            lemma2_to64();
        } else {
            lemma_pow2_unfold(bits);
            lemma_tree_height_bound(num / 2, (bits - 1) as nat);
        }
    }
}

/// The number of levels of a complete binary tree of `num` nodes.
pub fn tree_height(num: u64) -> (h: u32)
    ensures
        h == spec_tree_height(num as nat),
        h <= 64,
{
    let mut h: u32 = 0;
    let mut rest: u64 = num;
    proof {
        lemma2_to64_rest();
        lemma_tree_height_bound(num as nat, 64);
    }
    while rest > 0
        invariant
            h + spec_tree_height(rest as nat) == spec_tree_height(num as nat),
            spec_tree_height(num as nat) <= 64,
        decreases rest,
    {
        rest = rest / 2;
        h += 1;
    }
    h
}

/// The number of tuples in a systematic collection of a bucket of
/// `bucket_len` tuples that is split into `num_collections` collections:
/// the bucket is halved, the larger half first, and for four collections
/// each half is halved again.
pub open spec fn spec_collection_len(bucket_len: nat, collection_idx: nat, num_collections: nat) -> nat {
    let first = (bucket_len - bucket_len / 2) as nat;
    let second = bucket_len / 2;
    if num_collections == 1 {
        bucket_len
    } else if num_collections == 2 {
        if collection_idx == 0 {
            first
        } else {
            second
        }
    } else if collection_idx == 0 {
        (first - first / 2) as nat
    } else if collection_idx == 1 {
        first / 2
    } else if collection_idx == 2 {
        (second - second / 2) as nat
    } else {
        second / 2
    }
}

/// The number of tuples in the collection `collection_idx` of a bucket of
/// `bucket_len` tuples split into `num_collections` systematic collections.
pub fn collection_len(bucket_len: u64, collection_idx: u32, num_collections: u32) -> (len: u64)
    requires
        num_collections == 1 || num_collections == 2 || num_collections == 4,
        num_collections != 1 ==> collection_idx < num_collections,
    ensures
        len == spec_collection_len(bucket_len as nat, collection_idx as nat, num_collections as nat),
{
    let first: u64 = bucket_len - bucket_len / 2;
    let second: u64 = bucket_len / 2;
    if num_collections == 1 {
        bucket_len
    } else if num_collections == 2 {
        if collection_idx == 0 {
            first
        } else {
            second
        }
    } else if collection_idx == 0 {
        first - first / 2
    } else if collection_idx == 1 {
        first / 2
    } else if collection_idx == 2 {
        second - second / 2
    } else {
        second / 2
    }
}

/// The systematic collections of a bucket hold all its tuples, and the
/// second collection of each pair that is combined holds as many tuples as
/// the first, or one fewer.
pub proof fn lemma_collection_len_sum(n: nat)
    ensures
        spec_collection_len(n, 0, 2) + spec_collection_len(n, 1, 2) == n,
        spec_collection_len(n, 0, 4) + spec_collection_len(n, 1, 4) + spec_collection_len(n, 2, 4)
            + spec_collection_len(n, 3, 4) == n,
        spec_collection_len(n, 1, 2) <= spec_collection_len(n, 0, 2) <= spec_collection_len(n, 1, 2) + 1,
        spec_collection_len(n, 1, 4) <= spec_collection_len(n, 0, 4) <= spec_collection_len(n, 1, 4) + 1,
        spec_collection_len(n, 3, 4) <= spec_collection_len(n, 2, 4) <= spec_collection_len(n, 3, 4) + 1,
        spec_collection_len(n, 2, 4) <= spec_collection_len(n, 0, 4) <= spec_collection_len(n, 2, 4) + 1,
        spec_collection_len(n, 3, 4) <= spec_collection_len(n, 1, 4) <= spec_collection_len(n, 3, 4) + 1,
{
}

/// The collections of a bucket that hold tuples as they were sent; the
/// others hold combinations of these.
pub fn label_collections(scheme: OptScheme) -> (r: Vec<usize>)
    ensures
        r@ == spec_label_collections(scheme),
{
    let mut r: Vec<usize> = Vec::new();
    r.push(0);
    match scheme {
        OptScheme::Normal | OptScheme::Aliasing => {},
        OptScheme::Hybrid2 => {
            r.push(1);
        },
        OptScheme::Hybrid4 => {
            r.push(1);
            r.push(2);
            r.push(3);
        },
    }
    assert(r@ =~= spec_label_collections(scheme));
    r
}

/// The indices of the systematic collections of a bucket.
pub open spec fn spec_label_collections(scheme: OptScheme) -> Seq<usize> {
    match scheme {
        OptScheme::Normal | OptScheme::Aliasing => seq![0usize],
        OptScheme::Hybrid2 => seq![0usize, 1usize],
        OptScheme::Hybrid4 => seq![0usize, 1usize, 2usize, 3usize],
    }
}

/// The `n` low-order bytes of `x`, most significant byte first.
pub open spec fn be_bytes(x: nat, n: nat) -> Seq<u8> {
    Seq::new(n, |j: int| ((x / pow(256, (n - 1 - j) as nat) as nat) % 256) as u8)
}

/// Writes the `n` low-order bytes of `x`, most significant byte first.
pub fn be_encode(x: u64, n: usize) -> (out: Vec<u8>)
    requires
        n <= 8,
    ensures
        out@ == be_bytes(x as nat, n as nat),
{
    let mut out: Vec<u8> = vec![0u8; n];
    let mut rest: u64 = x;
    let mut i: usize = 0;
    proof {
        assert(pow(256, 0) == 1) by {
            reveal_with_fuel(pow, 1);
        }
    }
    while i < n
        invariant
            i <= n <= 8,
            out@.len() == n,
            rest == x as int / pow(256, i as nat),
            pow(256, i as nat) > 0,
            forall|j: int| n - i <= j < n ==> out@[j] == #[trigger] be_bytes(x as nat, n as nat)[j],
        decreases n - i,
    {
        out[n - 1 - i] = (rest % 256) as u8;
        proof {
            assert(pow(256, (i + 1) as nat) == 256 * pow(256, i as nat)) by {
                reveal_with_fuel(pow, 1);
            }
            lemma_div_denominator(x as int, pow(256, i as nat), 256);
            assert(pow(256, i as nat) * 256 == 256 * pow(256, i as nat)) by (nonlinear_arith);
        }
        rest = rest / 256;
        i += 1;
    }
    assert(out@ =~= be_bytes(x as nat, n as nat));
    out
}

/// The upper bound of bucket `index` among `buckets` buckets, as a number:
/// the label space, by its first four bytes, is cut into `buckets` parts of
/// the width `2^32 / buckets`. The bound is at most the largest number of
/// four bytes, which is the last bound where `buckets` divides `2^32`.
pub open spec fn spec_marker_value(index: nat, buckets: nat) -> nat
    recommends
        0 < buckets,
{
    let cut = (0x1_0000_0000nat / buckets) * (index + 1);
    if cut < 0xffff_ffff {
        cut
    } else {
        0xffff_ffff
    }
}

/// The upper bound of bucket `index` among `buckets` buckets: four bytes,
/// most significant first.
pub fn label_marker(index: usize, buckets: usize) -> (marker: Vec<u8>)
    requires
        index < buckets,
        buckets <= u32::MAX,
    ensures
        marker@ == be_bytes(spec_marker_value(index as nat, buckets as nat), 4),
{
    let width: u64 = 0x1_0000_0000u64 / (buckets as u64);
    proof {
        lemma_marker_cut_bound(index as nat, buckets as nat);
    }
    let cut: u64 = width * ((index as u64) + 1);
    let limit: u64 = if cut < 0xffff_ffff {
        cut
    } else {
        0xffff_ffff
    };
    be_encode(limit, 4)
}

/// The cuts lie within `2^32`, and every cut but the last within four
/// bytes.
pub proof fn lemma_marker_cut_bound(index: nat, buckets: nat)
    requires
        index < buckets,
        buckets <= 0xffff_ffff,
    ensures
        0 < 0x1_0000_0000nat / buckets,
        (0x1_0000_0000nat / buckets) * (index + 1) <= 0x1_0000_0000,
        index + 1 < buckets ==> (0x1_0000_0000nat / buckets) * (index + 1) < 0xffff_ffff,
{
    let w = 0x1_0000_0000nat / buckets;
    assert(w * buckets <= 0x1_0000_0000) by (nonlinear_arith)
        requires
            w == 0x1_0000_0000nat / buckets,
            buckets > 0,
    ;
    assert(w >= 1) by (nonlinear_arith)
        requires
            w == 0x1_0000_0000nat / buckets,
            0 < buckets <= 0xffff_ffff,
    ;
    assert(w * (index + 1) <= w * buckets) by (nonlinear_arith)
        requires
            index + 1 <= buckets,
    ;
    if index + 1 < buckets {
        assert(w * (index + 1) + w <= w * buckets) by (nonlinear_arith)
            requires
                index + 2 <= buckets,
        ;
        if w == 1 {
            assert(w * (index + 1) == index + 1) by (nonlinear_arith)
                requires
                    w == 1,
            ;
        }
    }
}

/// Markers fit four bytes and grow with the index.
pub proof fn lemma_marker_value_bound(index: nat, buckets: nat)
    requires
        index < buckets,
        buckets <= 0xffff_ffff,
    ensures
        spec_marker_value(index, buckets) <= 0xffff_ffff,
        index + 1 < buckets ==> spec_marker_value(index, buckets) < spec_marker_value(index + 1, buckets),
{
    let w = 0x1_0000_0000nat / buckets;
    lemma_marker_cut_bound(index, buckets);
    assert(w * (index + 1) < w * (index + 2)) by (nonlinear_arith)
        requires
            w >= 1,
    ;
}

/// The packing factor of the retrieval primitive for a collection of `num`
/// tuples of `TUPLE_SIZE` bytes.
pub open spec fn spec_alpha(num: nat) -> nat {
    if num < 8 {
        1
    } else if num < 2048 {
        8
    } else if num < 65536 {
        32
    } else {
        64
    }
}

/// The packing factor of the retrieval primitive for a collection of `num`
/// tuples.
pub fn get_alpha(num: u64) -> (alpha: u64)
    ensures
        alpha == spec_alpha(num as nat),
{
    if num < 8 {
        1
    } else if num < 2048 {
        8
    } else if num < 65536 {
        32
    } else {
        64
    }
}

/// The byte strings that a list of vectors holds.
pub open spec fn byte_strings(v: Seq<Vec<u8>>) -> Seq<Seq<u8>> {
    Seq::new(v.len(), |i: int| v[i]@)
}

/// The marker of bucket `index` among `buckets` buckets.
pub open spec fn spec_marker(index: nat, buckets: nat) -> Seq<u8> {
    be_bytes(spec_marker_value(index, buckets), 4)
}

/// The markers of all `buckets` buckets, in order.
pub open spec fn spec_markers(buckets: nat) -> Seq<Seq<u8>> {
    Seq::new(buckets, |i: int| spec_marker(i as nat, buckets))
}

/// Whether a label lies at or below a marker: its leading bytes, as many as
/// the marker has, do not come after the marker.
pub open spec fn within_marker(label: Seq<u8>, marker: Seq<u8>) -> bool {
    let n = if label.len() < marker.len() {
        label.len()
    } else {
        marker.len()
    };
    lex_le(label.take(n as int), marker)
}

/// The first index from `from` on whose marker the label lies within, or
/// the number of markers if there is none.
pub open spec fn first_within(label: Seq<u8>, partitions: Seq<Seq<u8>>, from: int) -> int
    decreases partitions.len() - from,
{
    if from < 0 || from >= partitions.len() {
        partitions.len() as int
    } else if within_marker(label, partitions[from]) {
        from
    } else {
        first_within(label, partitions, from + 1)
    }
}

/// The bucket of a label: the first whose marker the label lies within; a
/// label beyond every marker goes to bucket 0.
pub open spec fn spec_bucket_idx(label: Seq<u8>, partitions: Seq<Seq<u8>>) -> int {
    let first = first_within(label, partitions, 0);
    if first < partitions.len() {
        first
    } else {
        0
    }
}

/// What `first_within` finds: the label lies within no marker before it,
/// and within the one it names, if it names one.
pub proof fn lemma_first_within(label: Seq<u8>, partitions: Seq<Seq<u8>>, from: int)
    requires
        0 <= from <= partitions.len(),
    ensures
        from <= first_within(label, partitions, from) <= partitions.len(),
        forall|j: int| from <= j < first_within(label, partitions, from) ==> !within_marker(label, #[trigger] partitions[j]),
        first_within(label, partitions, from) < partitions.len() ==> within_marker(
            label,
            partitions[first_within(label, partitions, from)],
        ),
    decreases partitions.len() - from,
{
    if from < partitions.len() && !within_marker(label, partitions[from]) {
        lemma_first_within(label, partitions, from + 1);
    }
}

/// The bucket of a label among the buckets that `partitions` bounds.
pub fn bucket_idx(label: &[u8], partitions: &[Vec<u8>]) -> (idx: usize)
    ensures
        idx == spec_bucket_idx(label@, byte_strings(partitions@)),
        partitions@.len() > 0 ==> idx < partitions@.len(),
{
    let ghost parts = byte_strings(partitions@);
    let mut i: usize = 0;
    proof {
        lemma_first_within(label@, parts, 0);
    }
    while i < partitions.len()
        invariant
            i <= partitions@.len(),
            parts == byte_strings(partitions@),
            first_within(label@, parts, 0) == first_within(label@, parts, i as int),
        decreases partitions@.len() - i,
    {
        let marker = &partitions[i];
        let n = if label.len() < marker.len() {
            label.len()
        } else {
            marker.len()
        };
        let head = slice_subrange(label, 0, n);
        assert(head@ == label@.take(n as int));
        assert(parts[i as int] == marker@);
        if !label_lt(marker.as_slice(), head) {
            proof {
                lemma_first_within(label@, parts, i as int);
            }
            return i;
        }
        i += 1;
    }
    0
}

/// Labels in ascending order (equal neighbours allowed).
pub open spec fn labels_sorted(labels: Seq<Seq<u8>>) -> bool {
    forall|i: int, j: int| 0 <= i < j < labels.len() ==> lex_le(#[trigger] labels[i], #[trigger] labels[j])
}

/// The index of `label` in a list of labels, by binary search: an index
/// that holds the label, or `None`; on a list in ascending order `None`
/// comes only where the label is not in the list.
pub fn get_index(labels: &[Vec<u8>], label: &[u8]) -> (r: Option<u64>)
    ensures
        r matches Some(i) ==> i < labels@.len() && labels@[i as int]@ == label@,
        labels_sorted(byte_strings(labels@)) && r is None ==> forall|i: int|
            0 <= i < labels@.len() ==> (#[trigger] labels@[i])@ != label@,
{
    let ghost ls = byte_strings(labels@);
    let mut lo: usize = 0;
    let mut hi: usize = labels.len();
    while lo < hi
        invariant
            lo <= hi <= labels@.len(),
            ls == byte_strings(labels@),
            labels_sorted(ls) ==> forall|i: int| 0 <= i < lo ==> (#[trigger] labels@[i])@ != label@,
            labels_sorted(ls) ==> forall|i: int| hi <= i < labels@.len() ==> (#[trigger] labels@[i])@ != label@,
        decreases hi - lo,
    {
        let mid: usize = lo + (hi - lo) / 2;
        let probe = labels[mid].as_slice();
        if label_lt(probe, label) {
            proof {
                if labels_sorted(ls) {
                    assert forall|i: int| 0 <= i < mid + 1 implies (#[trigger] labels@[i])@ != label@ by {
                        if i < mid {
                            assert(lex_le(ls[i], ls[mid as int]));
                        }
                        lemma_lex_lt_irreflexive(label@);
                    }
                }
            }
            lo = mid + 1;
        } else if label_lt(label, probe) {
            proof {
                if labels_sorted(ls) {
                    assert forall|i: int| mid <= i < labels@.len() implies (#[trigger] labels@[i])@ != label@ by {
                        if mid < i {
                            assert(lex_le(ls[mid as int], ls[i]));
                        }
                        lemma_lex_lt_irreflexive(label@);
                    }
                }
            }
            hi = mid;
        } else {
            proof {
                lemma_lex_lt_total(probe@, label@);
            }
            return Some(mid as u64);
        }
    }
    None
}

/// The first powers of 256.
pub proof fn lemma_pow256()
    ensures
        pow(256, 0) == 1,
        pow(256, 1) == 0x100,
        pow(256, 2) == 0x1_0000,
        pow(256, 3) == 0x100_0000,
        pow(256, 4) == 0x1_0000_0000,
{
    assert(pow(256, 0) == 1) by {
        reveal_with_fuel(pow, 1);
    }
    assert(pow(256, 1) == 256 * pow(256, 0)) by {
        reveal_with_fuel(pow, 1);
    }
    assert(pow(256, 2) == 256 * pow(256, 1)) by {
        reveal_with_fuel(pow, 1);
    }
    assert(pow(256, 3) == 256 * pow(256, 2)) by {
        reveal_with_fuel(pow, 1);
    }
    assert(pow(256, 4) == 256 * pow(256, 3)) by {
        reveal_with_fuel(pow, 1);
    }
}

/// Numbers below `256^n` are ordered as their `n` bytes are.
pub proof fn lemma_be_bytes_order(x: nat, y: nat, n: nat)
    requires
        x % (pow(256, n) as nat) < y % (pow(256, n) as nat),
    ensures
        lex_lt(be_bytes(x, n), be_bytes(y, n)),
    decreases n,
{
    if n == 0 {
        assert(pow(256, 0) == 1) by {
            reveal_with_fuel(pow, 1);
        }
    } else {
        let p = pow(256, (n - 1) as nat);
        lemma_pow_positive(256, (n - 1) as nat);
        assert(pow(256, n) == 256 * p) by {
            reveal_with_fuel(pow, 1);
        }
        assert(p * 256 == 256 * p) by (nonlinear_arith);
        lemma_mod_breakdown(x as int, p, 256);
        lemma_mod_breakdown(y as int, p, 256);
        let a0 = (x as int / p) % 256;
        let b0 = (y as int / p) % 256;
        let xr = x as int % p;
        let yr = y as int % p;
        assert(a0 < b0 || (a0 == b0 && xr < yr)) by (nonlinear_arith)
            requires
                p * a0 + xr < p * b0 + yr,
                0 <= xr < p,
                0 <= yr < p,
        ;
        let bx = be_bytes(x, n);
        let by = be_bytes(y, n);
        assert(bx[0] == a0 as u8);
        assert(by[0] == b0 as u8);
        assert(bx.drop_first() =~= be_bytes(x, (n - 1) as nat));
        assert(by.drop_first() =~= be_bytes(y, (n - 1) as nat));
        if a0 == b0 {
            lemma_be_bytes_order(x, y, (n - 1) as nat);
        }
    }
}

/// The markers of the buckets come in strictly ascending order.
pub proof fn lemma_markers_increasing(i: nat, j: nat, buckets: nat)
    requires
        i < j < buckets,
        buckets <= 0xffff_ffff,
    ensures
        lex_lt(spec_marker(i, buckets), spec_marker(j, buckets)),
{
    lemma_marker_values_increasing(i, j, buckets);
    lemma_marker_value_bound(j, buckets);
    lemma_marker_value_bound(i, buckets);
    lemma_pow256();
    let x = spec_marker_value(i, buckets);
    let y = spec_marker_value(j, buckets);
    assert(pow(256, 4) as nat == 0x1_0000_0000nat);
    assert(x % 0x1_0000_0000nat == x);
    assert(y % 0x1_0000_0000nat == y);
    lemma_be_bytes_order(x, y, 4);
}

/// The marker values grow with the index.
pub proof fn lemma_marker_values_increasing(i: nat, j: nat, buckets: nat)
    requires
        i < j < buckets,
        buckets <= 0xffff_ffff,
    ensures
        spec_marker_value(i, buckets) < spec_marker_value(j, buckets),
{
    lemma_marker_cut_bound(i, buckets);
    let w = 0x1_0000_0000nat / buckets;
    assert(w * (i + 1) < w * (j + 1)) by (nonlinear_arith)
        requires
            w >= 1,
            i < j,
    ;
}

/// Where the number of buckets divides `2^32` or `2^32 - 1`, the last
/// marker is the largest four bytes, so that every label lies within some
/// marker: the ranges up to the markers cover the label space. With
/// another number of buckets no cut into parts of one whole width reaches
/// the end of the label space.
pub proof fn lemma_markers_cover(label: Seq<u8>, buckets: nat)
    requires
        0 < buckets <= 0xffff_ffff,
        0x1_0000_0000nat % buckets == 0 || 0xffff_ffffnat % buckets == 0,
        label.len() >= 4,
    ensures
        spec_marker((buckets - 1) as nat, buckets) == seq![255u8, 255u8, 255u8, 255u8],
        within_marker(label, spec_marker((buckets - 1) as nat, buckets)),
        first_within(label, spec_markers(buckets), 0) < buckets,
{
    let w = 0x1_0000_0000nat / buckets;
    if 0x1_0000_0000nat % buckets == 0 {
        assert(w * buckets == 0x1_0000_0000) by (nonlinear_arith)
            requires
                w == 0x1_0000_0000nat / buckets,
                0x1_0000_0000nat % buckets == 0,
                buckets > 0,
        ;
    } else {
        let q = 0xffff_ffffnat / buckets;
        assert(q * buckets == 0xffff_ffff) by (nonlinear_arith)
            requires
                q == 0xffff_ffffnat / buckets,
                0xffff_ffffnat % buckets == 0,
                buckets > 0,
        ;
        assert(q <= w) by (nonlinear_arith)
            requires
                q == 0xffff_ffffnat / buckets,
                w == 0x1_0000_0000nat / buckets,
                buckets > 0,
        ;
        assert(q * buckets <= w * buckets) by (nonlinear_arith)
            requires
                q <= w,
        ;
    }
    let top = spec_marker((buckets - 1) as nat, buckets);
    lemma_pow256();
    let v = spec_marker_value((buckets - 1) as nat, buckets);
    assert(v == 0xffff_ffff);
    assert(top.len() == 4);
    assert(top[0] == ((v / (pow(256, 3) as nat)) % 256) as u8);
    assert(top[1] == ((v / (pow(256, 2) as nat)) % 256) as u8);
    assert(top[2] == ((v / (pow(256, 1) as nat)) % 256) as u8);
    assert(top[3] == ((v / (pow(256, 0) as nat)) % 256) as u8);
    assert((0xffff_ffffnat / 0x100_0000nat) % 256 == 255);
    assert((0xffff_ffffnat / 0x1_0000nat) % 256 == 255);
    assert((0xffff_ffffnat / 0x100nat) % 256 == 255);
    assert((0xffff_ffffnat / 1nat) % 256 == 255);
    assert(top[0] == 255u8 && top[1] == 255u8 && top[2] == 255u8 && top[3] == 255u8);
    assert(top =~= seq![255u8, 255u8, 255u8, 255u8]);
    let head = label.take(4);
    lemma_top_is_last(head);
    lemma_first_within(label, spec_markers(buckets), 0);
    assert(spec_markers(buckets)[buckets - 1] == top);
}

/// No four bytes come after four bytes of 255.
proof fn lemma_top_is_last(head: Seq<u8>)
    requires
        head.len() == 4,
    ensures
        !lex_lt(seq![255u8, 255u8, 255u8, 255u8], head),
{
    reveal_with_fuel(lex_lt, 5);
    let top = seq![255u8, 255u8, 255u8, 255u8];
    let t1 = top.drop_first();
    let h1 = head.drop_first();
    let t2 = t1.drop_first();
    let h2 = h1.drop_first();
    let t3 = t2.drop_first();
    let h3 = h2.drop_first();
    assert(t3.drop_first().len() == 0);
    assert(h3.drop_first().len() == 0);
}

/// How often a client sweeps the buckets when every message is stored
/// once: `3 * ceil(ln k / ln ln k)` for `k >= 9` buckets, and `k` below
/// that. Each bound of the table is the largest `k` with that value.
pub open spec fn spec_retry_bound(k: nat) -> nat {
    if k < 9 {
        k
    } else if k <= 93 {
        9
    } else if k <= 5503 {
        12
    } else if k <= 332105 {
        15
    } else if k <= 24128091 {
        18
    } else if k <= 2099467158 {
        21
    } else if k <= 214910065295 {
        24
    } else if k <= 25438034785804 {
        27
    } else if k <= 3430631121407801 {
        30
    } else if k <= 520643904835474201 {
        33
    } else {
        36
    }
}

/// How often a client sweeps the buckets when every message is stored
/// under two labels: `ceil(ln ln k / ln 2) + 1` for `k >= 3` buckets, and
/// `k` below that. Each bound of the table is the largest `k` with that
/// value, the integer part of `e^2`, `e^4`, `e^8`, `e^16` and `e^32`.
pub open spec fn spec_retry_bound_aliasing(k: nat) -> nat {
    if k < 3 {
        k
    } else if k <= 7 {
        2
    } else if k <= 54 {
        3
    } else if k <= 2980 {
        4
    } else if k <= 8886110 {
        5
    } else if k <= 78962960182680 {
        6
    } else {
        7
    }
}

/// The number of sweeps over the buckets that a round holds, for `k`
/// buckets.
pub open spec fn spec_max_retries(scheme: OptScheme, k: nat) -> nat {
    match scheme {
        OptScheme::Normal => spec_retry_bound(k),
        OptScheme::Aliasing => spec_retry_bound_aliasing(k),
        OptScheme::Hybrid2 => spec_retry_bound_aliasing(k) / 2,
        OptScheme::Hybrid4 => 1,
    }
}

/// The number of sweeps when every message is stored once.
pub fn retry_bound(k: u64) -> (r: u32)
    ensures
        r == spec_retry_bound(k as nat),
{
    if k < 9 {
        k as u32
    } else if k <= 93 {
        9
    } else if k <= 5503 {
        12
    } else if k <= 332105 {
        15
    } else if k <= 24128091 {
        18
    } else if k <= 2099467158 {
        21
    } else if k <= 214910065295 {
        24
    } else if k <= 25438034785804 {
        27
    } else if k <= 3430631121407801 {
        30
    } else if k <= 520643904835474201 {
        33
    } else {
        36
    }
}

/// The number of sweeps when every message is stored under two labels.
pub fn retry_bound_aliasing(k: u64) -> (r: u32)
    ensures
        r == spec_retry_bound_aliasing(k as nat),
{
    if k < 3 {
        k as u32
    } else if k <= 7 {
        2
    } else if k <= 54 {
        3
    } else if k <= 2980 {
        4
    } else if k <= 8886110 {
        5
    } else if k <= 78962960182680 {
        6
    } else {
        7
    }
}

/// The number of sweeps over the buckets that a round holds, for `k`
/// buckets.
pub fn max_retries(scheme: OptScheme, k: u64) -> (r: u32)
    ensures
        r == spec_max_retries(scheme, k as nat),
        r <= 36,
{
    match scheme {
        OptScheme::Normal => retry_bound(k),
        OptScheme::Aliasing => retry_bound_aliasing(k),
        OptScheme::Hybrid2 => retry_bound_aliasing(k) / 2,
        OptScheme::Hybrid4 => 1,
    }
}

/// The first index below `num` for which the filter answers yes for the
/// label, or `None` if it answers no for all.
pub fn get_idx_bloom(bloom: &Bloom, label: &[u8], num: u64) -> (r: Option<u64>)
    ensures
        r matches Some(i) ==> i < num && bloom.spec_check(i, label@) && forall|j: u64|
            j < i ==> !#[trigger] bloom.spec_check(j, label@),
        r is None ==> forall|j: u64| j < num ==> !#[trigger] bloom.spec_check(j, label@),
{
    let mut i: u64 = 0;
    while i < num
        invariant
            i <= num,
            forall|j: u64| j < i ==> !#[trigger] bloom.spec_check(j, label@),
        decreases num - i,
    {
        if bloom.check(i, label) {
            return Some(i);
        }
        i += 1;
    }
    None
}

/// Two to the power of `e`.
pub fn pow2_u64(e: u32) -> (r: u64)
    requires
        e < 64,
    ensures
        r == pow2(e as nat),
{
    let mut r: u64 = 1;
    let mut i: u32 = 0;
    proof {
        lemma2_to64();
        lemma2_to64_rest();
    }
    while i < e
        invariant
            i <= e < 64,
            r == pow2(i as nat),
            pow2(63) == 0x8000_0000_0000_0000,
        decreases e - i,
    {
        proof {
            lemma_pow2_unfold((i + 1) as nat);
            if i + 1 < 63 {
                vstd::arithmetic::power2::lemma_pow2_strictly_increases((i + 1) as nat, 63);
            }
        }
        r = r * 2;
        i += 1;
    }
    r
}

/// The levels of a tree hold all its nodes: `num` nodes are fewer than
/// `2^h` for the height `h` of the tree.
pub proof fn lemma_tree_height_holds(n: nat)
    ensures
        n < pow2(spec_tree_height(n)),
    decreases n,
{
    if n == 0 {
        lemma2_to64();
    } else {
        lemma_tree_height_holds(n / 2);
        lemma_pow2_unfold(spec_tree_height(n));
    }
}

/// A tree has a level only where it has a node to start it.
pub proof fn lemma_tree_height_pow2(n: nat, level: nat)
    requires
        level < spec_tree_height(n),
    ensures
        pow2(level) <= n,
    decreases n,
{
    if level == 0 {
        lemma2_to64();
    } else {
        lemma_pow2_unfold(level);
        lemma_tree_height_pow2(n / 2, (level - 1) as nat);
    }
}

} // verus!
