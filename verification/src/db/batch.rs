//! What encoding makes of a bucket: the order of its tuples, the split
//! into systematic collections, and the combinations that let a client
//! read several tuples of one bucket at once.

use vstd::prelude::*;
use super::bst::{
    bst_layout, lemma_find_idx_lt, lemma_node_nonempty, lemma_node_range_bounds,
    lemma_node_rank_bounds, node_len, node_range, node_rank,
};
use super::tuple::xor_bytes;
use super::{OptScheme, RetScheme, LABEL_SIZE, TUPLE_SIZE};
use crate::util::{lemma_lex_lt_irreflexive, lemma_lex_lt_total, lemma_lex_lt_transitive, lex_le, lex_lt};

verus! {

/// The label of a tuple given as bytes.
pub open spec fn label_of(t: Seq<u8>) -> Seq<u8> {
    t.subrange(0, LABEL_SIZE as int)
}

/// Tuples in ascending order of their labels.
pub open spec fn sorted_by_label(s: Seq<Seq<u8>>) -> bool {
    forall|i: int, j: int| 0 <= i < j < s.len() ==> lex_le(label_of(#[trigger] s[i]), label_of(#[trigger] s[j]))
}

/// An ascending sequence with `t` put in behind the tuples that do not
/// come after it.
pub open spec fn insert_by_label(s: Seq<Seq<u8>>, t: Seq<u8>) -> Seq<Seq<u8>>
    decreases s.len(),
{
    if s.len() == 0 {
        seq![t]
    } else if lex_le(label_of(s.last()), label_of(t)) {
        s.push(t)
    } else {
        insert_by_label(s.drop_last(), t).push(s.last())
    }
}

/// The tuples in ascending order of their labels; tuples with one label
/// keep their order.
pub open spec fn sort_by_label(s: Seq<Seq<u8>>) -> Seq<Seq<u8>>
    decreases s.len(),
{
    if s.len() == 0 {
        s
    } else {
        insert_by_label(sort_by_label(s.drop_last()), s.last())
    }
}

/// Where `t` goes in an ascending sequence: behind the last tuple that
/// does not come after it.
pub open spec fn insert_point(s: Seq<Seq<u8>>, t: Seq<u8>) -> int
    decreases s.len(),
{
    if s.len() == 0 {
        0
    } else if lex_le(label_of(s.last()), label_of(t)) {
        s.len() as int
    } else {
        insert_point(s.drop_last(), t)
    }
}

/// Putting a tuple in by its label is putting it in at its insert point.
pub proof fn lemma_insert_by_label(s: Seq<Seq<u8>>, t: Seq<u8>)
    ensures
        0 <= insert_point(s, t) <= s.len(),
        insert_by_label(s, t) == s.insert(insert_point(s, t), t),
        forall|i: int| insert_point(s, t) <= i < s.len() ==> lex_lt(label_of(t), label_of(#[trigger] s[i])),
        insert_point(s, t) > 0 ==> lex_le(label_of(s[insert_point(s, t) - 1]), label_of(t)),
    decreases s.len(),
{
    if s.len() == 0 {
        assert(seq![t] =~= s.insert(0, t));
    } else if lex_le(label_of(s.last()), label_of(t)) {
        assert(s.push(t) =~= s.insert(s.len() as int, t));
    } else {
        lemma_insert_by_label(s.drop_last(), t);
        let p = insert_point(s.drop_last(), t);
        assert(s.drop_last().insert(p, t).push(s.last()) =~= s.insert(p, t));
        assert forall|i: int| p <= i < s.len() implies lex_lt(label_of(t), label_of(#[trigger] s[i])) by {
            if i < s.len() - 1 {
                assert(s[i] == s.drop_last()[i]);
            }
        }
        if p > 0 {
            assert(s[p - 1] == s.drop_last()[p - 1]);
        }
    }
}

/// Putting a tuple into an ascending sequence leaves it ascending.
pub proof fn lemma_insert_keeps_sorted(s: Seq<Seq<u8>>, t: Seq<u8>)
    requires
        sorted_by_label(s),
    ensures
        sorted_by_label(insert_by_label(s, t)),
{
    lemma_insert_by_label(s, t);
    let p = insert_point(s, t);
    let r = s.insert(p, t);
    assert forall|i: int, j: int| 0 <= i < j < r.len() implies lex_le(
        label_of(#[trigger] r[i]),
        label_of(#[trigger] r[j]),
    ) by {
        if j < p {
            assert(r[i] == s[i] && r[j] == s[j]);
        } else if j == p {
            assert(r[i] == s[i]);
            if i < p - 1 {
                assert(lex_le(label_of(s[i]), label_of(s[p - 1])));
                if lex_lt(label_of(t), label_of(s[i])) {
                    lemma_lex_lt_total(label_of(s[i]), label_of(s[p - 1]));
                    lemma_lex_lt_total(label_of(t), label_of(s[p - 1]));
                    if label_of(s[i]) != label_of(s[p - 1]) {
                        lemma_lex_lt_transitive(label_of(t), label_of(s[i]), label_of(s[p - 1]));
                    }
                }
            }
        } else if i < p {
            assert(r[i] == s[i] && r[j] == s[j - 1]);
            if i < j - 1 {
                assert(lex_le(label_of(s[i]), label_of(s[j - 1])));
            } else {
                lemma_lex_lt_total(label_of(s[i]), label_of(s[i]));
            }
        } else if i == p {
            assert(r[j] == s[j - 1]);
            lemma_lex_lt_total(label_of(t), label_of(s[j - 1]));
        } else {
            assert(r[i] == s[i - 1] && r[j] == s[j - 1]);
        }
    }
}

/// Sorting gives an ascending sequence of the same tuples.
pub proof fn lemma_sort_by_label(s: Seq<Seq<u8>>)
    ensures
        sorted_by_label(sort_by_label(s)),
        sort_by_label(s).len() == s.len(),
        sort_by_label(s).to_multiset() == s.to_multiset(),
    decreases s.len(),
{
    broadcast use vstd::seq_lib::group_to_multiset_ensures;

    if s.len() > 0 {
        let head = s.drop_last();
        lemma_sort_by_label(head);
        lemma_insert_keeps_sorted(sort_by_label(head), s.last());
        lemma_insert_by_label(sort_by_label(head), s.last());
        let p = insert_point(sort_by_label(head), s.last());
        assert(s =~= head.push(s.last()));
        let r = sort_by_label(head).insert(p, s.last());
        assert(r.remove(p) =~= sort_by_label(head));
        assert(r[p] == s.last());
        assert(r.contains(s.last()));
        assert(r.to_multiset() =~= sort_by_label(head).to_multiset().insert(s.last()));
    }
}

/// The order in which a collection holds an ascending sequence: as a
/// complete binary search tree where labels are found by descent, else
/// as it is.
pub open spec fn laid_out(s: Seq<Seq<u8>>, ret: RetScheme) -> Seq<Seq<u8>> {
    if ret == RetScheme::Tree {
        bst_layout(s)
    } else {
        s
    }
}

/// The first, larger half of a sequence.
pub open spec fn first_half(s: Seq<Seq<u8>>) -> Seq<Seq<u8>> {
    s.take(s.len() - s.len() / 2)
}

/// The second half of a sequence.
pub open spec fn second_half(s: Seq<Seq<u8>>) -> Seq<Seq<u8>> {
    s.skip(s.len() - s.len() / 2)
}

/// The combination of two collections: tuple by tuple the exclusive or of
/// both, and the tuples of the first that the second has no partner for
/// as they are.
pub open spec fn xor_pad(a: Seq<Seq<u8>>, b: Seq<Seq<u8>>) -> Seq<Seq<u8>> {
    Seq::new(
        a.len(),
        |i: int|
            if i < b.len() {
                xor_bytes(a[i], b[i])
            } else {
                a[i]
            },
    )
}

/// The number of collections of a bucket.
pub open spec fn spec_num_collections(opt: OptScheme) -> nat {
    match opt {
        OptScheme::Normal | OptScheme::Aliasing => 1,
        OptScheme::Hybrid2 => 3,
        OptScheme::Hybrid4 => 9,
    }
}

/// The number of collections of a bucket that hold tuples as they were
/// sent.
pub open spec fn spec_num_systematic(opt: OptScheme) -> nat {
    match opt {
        OptScheme::Normal | OptScheme::Aliasing => 1,
        OptScheme::Hybrid2 => 2,
        OptScheme::Hybrid4 => 4,
    }
}

/// The collections of a bucket after encoding, from the tuples that were
/// pushed into it.
///
/// The tuples are put in ascending order. With a batch code the bucket is
/// cut into two or four systematic collections, each laid out by itself;
/// the other collections combine these: for two, the third is the first
/// with the second; for four, the fifth to the ninth are the first with
/// the second, the third with the fourth, the first with the third, the
/// second with the fourth, and the seventh with the eighth.
pub open spec fn encoded(raw: Seq<Seq<u8>>, opt: OptScheme, ret: RetScheme) -> Seq<Seq<Seq<u8>>> {
    let sorted = sort_by_label(raw);
    match opt {
        OptScheme::Normal | OptScheme::Aliasing => seq![laid_out(sorted, ret)],
        OptScheme::Hybrid2 => {
            let c0 = laid_out(first_half(sorted), ret);
            let c1 = laid_out(second_half(sorted), ret);
            seq![c0, c1, xor_pad(c0, c1)]
        },
        OptScheme::Hybrid4 => {
            let c0 = laid_out(first_half(first_half(sorted)), ret);
            let c1 = laid_out(second_half(first_half(sorted)), ret);
            let c2 = laid_out(first_half(second_half(sorted)), ret);
            let c3 = laid_out(second_half(second_half(sorted)), ret);
            let c6 = xor_pad(c0, c2);
            let c7 = xor_pad(c1, c3);
            seq![c0, c1, c2, c3, xor_pad(c0, c1), xor_pad(c2, c3), c6, c7, xor_pad(c6, c7)]
        },
    }
}

/// All tuples have `TUPLE_SIZE` bytes.
pub open spec fn all_tuples(s: Seq<Seq<u8>>) -> bool {
    forall|i: int| 0 <= i < s.len() ==> (#[trigger] s[i]).len() == TUPLE_SIZE
}

/// The tuple of zeros: combined with a tuple it leaves the tuple.
pub open spec fn zero_tuple() -> Seq<u8> {
    Seq::new(TUPLE_SIZE as nat, |i: int| 0u8)
}

/// The tuple at index `i` of a collection, and the tuple of zeros where
/// the collection has none there.
pub open spec fn part_at(c: Seq<Seq<u8>>, i: int) -> Seq<u8> {
    if 0 <= i < c.len() {
        c[i]
    } else {
        zero_tuple()
    }
}

/// The exclusive or of a list of tuples.
pub open spec fn xor_all(parts: Seq<Seq<u8>>) -> Seq<u8>
    decreases parts.len(),
{
    if parts.len() == 0 {
        zero_tuple()
    } else {
        xor_bytes(xor_all(parts.drop_last()), parts.last())
    }
}

/// Sorting keeps every tuple a tuple.
pub proof fn lemma_sort_all_tuples(s: Seq<Seq<u8>>)
    requires
        all_tuples(s),
    ensures
        all_tuples(sort_by_label(s)),
    decreases s.len(),
{
    if s.len() > 0 {
        let head = s.drop_last();
        assert forall|i: int| 0 <= i < head.len() implies (#[trigger] head[i]).len() == TUPLE_SIZE by {
            assert(head[i] == s[i]);
        }
        lemma_sort_all_tuples(head);
        lemma_sort_by_label(head);
        lemma_insert_by_label(sort_by_label(head), s.last());
    }
}

/// Laying a sequence out keeps its length and every tuple a tuple.
pub proof fn lemma_laid_out_shape(s: Seq<Seq<u8>>, ret: RetScheme)
    requires
        all_tuples(s),
    ensures
        laid_out(s, ret).len() == s.len(),
        all_tuples(laid_out(s, ret)),
{
    if ret == RetScheme::Tree {
        assert forall|i: int| 0 <= i < s.len() implies (#[trigger] bst_layout(s)[i]).len() == TUPLE_SIZE by {
            lemma_node_rank_bounds(s.len(), i as nat);
        }
    }
}

/// The combination of two collections of tuples is a collection of
/// tuples, as long as the first.
pub proof fn lemma_xor_pad_shape(a: Seq<Seq<u8>>, b: Seq<Seq<u8>>)
    requires
        all_tuples(a),
        all_tuples(b),
    ensures
        xor_pad(a, b).len() == a.len(),
        all_tuples(xor_pad(a, b)),
{
}

/// A byte combined with nothing is the byte, and combined twice with one
/// byte as well.
pub proof fn lemma_xor_byte(x: u8, y: u8)
    by (bit_vector)
    ensures
        x ^ 0u8 == x,
        0u8 ^ x == x,
        (x ^ y) ^ y == x,
        x ^ (x ^ y) == y,
        (x ^ y) == (y ^ x),
{
}

/// Where a collection is combined with one that is no longer, the tuple
/// of the combination at an index is that of the first combined with that
/// of the second, the tuple of zeros standing in where there is none.
pub proof fn lemma_part_of_xor_pad(a: Seq<Seq<u8>>, b: Seq<Seq<u8>>, i: int)
    requires
        all_tuples(a),
        all_tuples(b),
        b.len() <= a.len(),
    ensures
        part_at(xor_pad(a, b), i) == xor_bytes(part_at(a, i), part_at(b, i)),
        part_at(a, i).len() == TUPLE_SIZE,
        part_at(b, i).len() == TUPLE_SIZE,
{
    let l = part_at(xor_pad(a, b), i);
    let r = xor_bytes(part_at(a, i), part_at(b, i));
    assert forall|j: int| 0 <= j < TUPLE_SIZE implies l[j] == r[j] by {
        lemma_xor_byte(part_at(a, i)[j], part_at(b, i)[j]);
    }
    assert(l =~= r);
}

/// The exclusive or of a list with one more tuple.
pub proof fn lemma_xor_all_push(parts: Seq<Seq<u8>>, t: Seq<u8>)
    ensures
        xor_all(parts.push(t)) == xor_bytes(xor_all(parts), t),
{
    assert(parts.push(t).drop_last() =~= parts);
}

/// With the batch code for two retrievals, the third collection gives a
/// tuple of the first two from the other: at an index that the second
/// collection has, each of the two is the other combined with the third;
/// at the one index that only the first may have, the third holds the
/// tuple of the first.
pub proof fn lemma_hybrid2_sound(raw: Seq<Seq<u8>>, ret: RetScheme, i: int)
    requires
        all_tuples(raw),
    ensures
        ({
            let e = encoded(raw, OptScheme::Hybrid2, ret);
            &&& e.len() == 3
            &&& e[0].len() + e[1].len() == raw.len()
            &&& e[1].len() <= e[0].len() <= e[1].len() + 1
            &&& e[2].len() == e[0].len()
            &&& 0 <= i < e[1].len() ==> xor_bytes(e[0][i], e[2][i]) == e[1][i] && xor_bytes(e[1][i], e[2][i]) == e[0][i]
            &&& e[1].len() <= i < e[0].len() ==> e[2][i] == e[0][i]
        }),
{
    let e = encoded(raw, OptScheme::Hybrid2, ret);
    let sorted = sort_by_label(raw);
    lemma_sort_by_label(raw);
    lemma_sort_all_tuples(raw);
    lemma_laid_out_shape(first_half(sorted), ret);
    lemma_laid_out_shape(second_half(sorted), ret);
    if 0 <= i < e[1].len() {
        let a = e[0][i];
        let b = e[1][i];
        assert forall|j: int| 0 <= j < TUPLE_SIZE implies xor_bytes(a, e[2][i])[j] == b[j] && xor_bytes(b, e[2][i])[j]
            == a[j] by {
            lemma_xor_byte(a[j], b[j]);
            lemma_xor_byte(b[j], a[j]);
        }
        assert(xor_bytes(a, e[2][i]) =~= b);
        assert(xor_bytes(b, e[2][i]) =~= a);
    }
}

/// The ways to get a tuple of the systematic collection `c` from the nine
/// collections of the batch code for four retrievals: each of the four
/// alternatives names the collections whose tuples at one index combine
/// to the tuple of `c` at that index.
pub open spec fn h4_parts(c: int, alt: int) -> Seq<int> {
    if c == 0 {
        if alt == 0 {
            seq![0int]
        } else if alt == 1 {
            seq![1int, 4int]
        } else if alt == 2 {
            seq![2int, 6int]
        } else {
            seq![3int, 5int, 7int, 8int]
        }
    } else if c == 1 {
        if alt == 0 {
            seq![1int]
        } else if alt == 1 {
            seq![0int, 4int]
        } else if alt == 2 {
            seq![3int, 7int]
        } else {
            seq![2int, 5int, 6int, 8int]
        }
    } else if c == 2 {
        if alt == 0 {
            seq![2int]
        } else if alt == 1 {
            seq![3int, 5int]
        } else if alt == 2 {
            seq![0int, 6int]
        } else {
            seq![1int, 4int, 7int, 8int]
        }
    } else {
        if alt == 0 {
            seq![3int]
        } else if alt == 1 {
            seq![2int, 5int]
        } else if alt == 2 {
            seq![1int, 7int]
        } else {
            seq![0int, 4int, 6int, 8int]
        }
    }
}

/// The tuples at index `i` of the collections that `parts` names.
pub open spec fn parts_at(e: Seq<Seq<Seq<u8>>>, parts: Seq<int>, i: int) -> Seq<Seq<u8>> {
    Seq::new(parts.len(), |k: int| part_at(e[parts[k]], i))
}

/// The shape of a bucket encoded for four retrievals.
pub proof fn lemma_hybrid4_shape(raw: Seq<Seq<u8>>, ret: RetScheme)
    requires
        all_tuples(raw),
    ensures
        ({
            let e = encoded(raw, OptScheme::Hybrid4, ret);
            &&& e.len() == 9
            &&& forall|k: int| 0 <= k < 9 ==> all_tuples(#[trigger] e[k])
            &&& e[0].len() + e[1].len() + e[2].len() + e[3].len() == raw.len()
            &&& e[1].len() <= e[0].len() <= e[1].len() + 1
            &&& e[3].len() <= e[2].len() <= e[3].len() + 1
            &&& e[2].len() <= e[0].len() <= e[2].len() + 1
            &&& e[3].len() <= e[1].len() <= e[3].len() + 1
            &&& e[4].len() == e[0].len()
            &&& e[5].len() == e[2].len()
            &&& e[6].len() == e[0].len()
            &&& e[7].len() == e[1].len()
            &&& e[8].len() == e[0].len()
        }),
{
    let sorted = sort_by_label(raw);
    lemma_sort_by_label(raw);
    lemma_sort_all_tuples(raw);
    let f = first_half(sorted);
    let g = second_half(sorted);
    lemma_laid_out_shape(first_half(f), ret);
    lemma_laid_out_shape(second_half(f), ret);
    lemma_laid_out_shape(first_half(g), ret);
    lemma_laid_out_shape(second_half(g), ret);
    let e = encoded(raw, OptScheme::Hybrid4, ret);
    lemma_xor_pad_shape(e[0], e[1]);
    lemma_xor_pad_shape(e[2], e[3]);
    lemma_xor_pad_shape(e[0], e[2]);
    lemma_xor_pad_shape(e[1], e[3]);
    lemma_xor_pad_shape(e[6], e[7]);
}

/// Whether nine tuples are related as the tuples at one index of the nine
/// collections of the batch code for four retrievals.
pub open spec fn h4_related(p: Seq<Seq<u8>>) -> bool {
    &&& p.len() == 9
    &&& forall|k: int| 0 <= k < 9 ==> (#[trigger] p[k]).len() == TUPLE_SIZE
    &&& p[4] == xor_bytes(p[0], p[1])
    &&& p[5] == xor_bytes(p[2], p[3])
    &&& p[6] == xor_bytes(p[0], p[2])
    &&& p[7] == xor_bytes(p[1], p[3])
    &&& p[8] == xor_bytes(p[6], p[7])
}

/// The exclusive or of one tuple.
pub proof fn lemma_xor_all_one(a: Seq<u8>)
    requires
        a.len() == TUPLE_SIZE,
    ensures
        xor_all(seq![a]) == a,
{
    lemma_xor_all_push(Seq::<Seq<u8>>::empty(), a);
    assert(Seq::<Seq<u8>>::empty().push(a) =~= seq![a]);
    assert forall|j: int| 0 <= j < TUPLE_SIZE implies xor_bytes(zero_tuple(), a)[j] == a[j] by {
        lemma_xor_byte(a[j], a[j]);
    }
    assert(xor_bytes(zero_tuple(), a) =~= a);
}

/// The exclusive or of two tuples.
pub proof fn lemma_xor_all_two(a: Seq<u8>, b: Seq<u8>)
    requires
        a.len() == TUPLE_SIZE,
        b.len() == TUPLE_SIZE,
    ensures
        xor_all(seq![a, b]) == xor_bytes(a, b),
{
    lemma_xor_all_one(a);
    lemma_xor_all_push(seq![a], b);
    assert(seq![a].push(b) =~= seq![a, b]);
}

/// The exclusive or of four tuples.
proof fn lemma_xor_all_four(a: Seq<u8>, b: Seq<u8>, c: Seq<u8>, d: Seq<u8>)
    requires
        a.len() == TUPLE_SIZE,
        b.len() == TUPLE_SIZE,
        c.len() == TUPLE_SIZE,
        d.len() == TUPLE_SIZE,
    ensures
        xor_all(seq![a, b, c, d]) == xor_bytes(xor_bytes(xor_bytes(a, b), c), d),
{
    lemma_xor_all_two(a, b);
    lemma_xor_all_push(seq![a, b], c);
    assert(seq![a, b].push(c) =~= seq![a, b, c]);
    lemma_xor_all_push(seq![a, b, c], d);
    assert(seq![a, b, c].push(d) =~= seq![a, b, c, d]);
}

/// The identities behind the alternatives, for one byte of each of the
/// four systematic tuples.
proof fn lemma_xor_table(e0: u8, e1: u8, e2: u8, e3: u8)
    by (bit_vector)
    ensures
        (e1 ^ (e0 ^ e1)) == e0,
        (e2 ^ (e0 ^ e2)) == e0,
        (((e3 ^ (e2 ^ e3)) ^ (e1 ^ e3)) ^ ((e0 ^ e2) ^ (e1 ^ e3))) == e0,
        (e0 ^ (e0 ^ e1)) == e1,
        (e3 ^ (e1 ^ e3)) == e1,
        (((e2 ^ (e2 ^ e3)) ^ (e0 ^ e2)) ^ ((e0 ^ e2) ^ (e1 ^ e3))) == e1,
        (e3 ^ (e2 ^ e3)) == e2,
        (e0 ^ (e0 ^ e2)) == e2,
        (((e1 ^ (e0 ^ e1)) ^ (e1 ^ e3)) ^ ((e0 ^ e2) ^ (e1 ^ e3))) == e2,
        (e2 ^ (e2 ^ e3)) == e3,
        (e1 ^ (e1 ^ e3)) == e3,
        (((e0 ^ (e0 ^ e1)) ^ (e0 ^ e2)) ^ ((e0 ^ e2) ^ (e1 ^ e3))) == e3,
{
}

/// An alternative of two collections: where its byte-wise identity
/// holds, the two tuples combine to the tuple of the systematic
/// collection.
proof fn lemma_h4_pair(p: Seq<Seq<u8>>, home: int, a: int, b: int)
    requires
        h4_related(p),
        0 <= home < 4,
        0 <= a < 9,
        0 <= b < 9,
        forall|j: int| 0 <= j < TUPLE_SIZE ==> p[a][j] ^ p[b][j] == #[trigger] p[home][j],
    ensures
        xor_all(seq![p[a], p[b]]) == p[home],
{
    lemma_xor_all_two(p[a], p[b]);
    assert(xor_bytes(p[a], p[b]) =~= p[home]);
}

/// An alternative of four collections: where its byte-wise identity
/// holds, the four tuples combine to the tuple of the systematic
/// collection.
proof fn lemma_h4_quad(p: Seq<Seq<u8>>, home: int, a: int, b: int, c: int, d: int)
    requires
        h4_related(p),
        0 <= home < 4,
        0 <= a < 9,
        0 <= b < 9,
        0 <= c < 9,
        0 <= d < 9,
        forall|j: int| 0 <= j < TUPLE_SIZE ==> ((p[a][j] ^ p[b][j]) ^ p[c][j]) ^ p[d][j] == #[trigger] p[home][j],
    ensures
        xor_all(seq![p[a], p[b], p[c], p[d]]) == p[home],
{
    lemma_xor_all_four(p[a], p[b], p[c], p[d]);
    assert(xor_bytes(xor_bytes(xor_bytes(p[a], p[b]), p[c]), p[d]) =~= p[home]);
}

/// With the batch code for four retrievals, every alternative gives the
/// tuple: for nine tuples related as those at one index of the nine
/// collections, the ones that an alternative names combine to the tuple of
/// the systematic collection.
pub proof fn lemma_h4_alternative(p: Seq<Seq<u8>>, c: int, alt: int)
    requires
        h4_related(p),
        0 <= c < 4,
        0 <= alt < 4,
    ensures
        xor_all(Seq::new(h4_parts(c, alt).len(), |k: int| p[h4_parts(c, alt)[k]])) == p[c],
{
    let parts = h4_parts(c, alt);
    let ps = Seq::new(parts.len(), |k: int| p[parts[k]]);
    assert forall|j: int| 0 <= j < TUPLE_SIZE implies {
        &&& p[4][j] == p[0][j] ^ p[1][j]
        &&& p[5][j] == p[2][j] ^ p[3][j]
        &&& p[6][j] == p[0][j] ^ p[2][j]
        &&& p[7][j] == p[1][j] ^ p[3][j]
        &&& p[8][j] == p[6][j] ^ p[7][j]
    } by {}
    if alt == 0 {
        assert(ps =~= seq![p[c]]);
        lemma_xor_all_one(p[c]);
    } else if alt == 3 {
        assert(ps =~= seq![p[parts[0]], p[parts[1]], p[parts[2]], p[parts[3]]]);
        assert forall|j: int| 0 <= j < TUPLE_SIZE implies ((p[parts[0]][j] ^ p[parts[1]][j]) ^ p[parts[2]][j])
            ^ p[parts[3]][j] == #[trigger] p[c][j] by {
            lemma_xor_table(p[0][j], p[1][j], p[2][j], p[3][j]);
        }
        lemma_h4_quad(p, c, parts[0], parts[1], parts[2], parts[3]);
    } else {
        assert(ps =~= seq![p[parts[0]], p[parts[1]]]);
        assert forall|j: int| 0 <= j < TUPLE_SIZE implies p[parts[0]][j] ^ p[parts[1]][j] == #[trigger] p[c][j] by {
            lemma_xor_table(p[0][j], p[1][j], p[2][j], p[3][j]);
        }
        lemma_h4_pair(p, c, parts[0], parts[1]);
    }
}

/// The tuples at index `i` of the nine collections of an encoded bucket
/// are related as the batch code says, a collection that is too short for
/// the index counting as zeros.
pub proof fn lemma_h4_related(raw: Seq<Seq<u8>>, ret: RetScheme, i: int)
    requires
        all_tuples(raw),
    ensures
        h4_related(Seq::new(9, |k: int| part_at(encoded(raw, OptScheme::Hybrid4, ret)[k], i))),
{
    let e = encoded(raw, OptScheme::Hybrid4, ret);
    lemma_hybrid4_shape(raw, ret);
    lemma_part_of_xor_pad(e[0], e[1], i);
    lemma_part_of_xor_pad(e[2], e[3], i);
    lemma_part_of_xor_pad(e[0], e[2], i);
    lemma_part_of_xor_pad(e[1], e[3], i);
    lemma_part_of_xor_pad(e[6], e[7], i);
    assert(e[4] == xor_pad(e[0], e[1]));
    assert(e[5] == xor_pad(e[2], e[3]));
    assert(e[6] == xor_pad(e[0], e[2]));
    assert(e[7] == xor_pad(e[1], e[3]));
    assert(e[8] == xor_pad(e[6], e[7]));
}

/// With the batch code for four retrievals, every alternative gives the
/// tuple: the tuples at one index of the collections that it names
/// combine to the tuple of the systematic collection at that index, a
/// collection that is too short for the index counting as zeros.
pub proof fn lemma_hybrid4_sound(raw: Seq<Seq<u8>>, ret: RetScheme, c: int, alt: int, i: int)
    requires
        all_tuples(raw),
        0 <= c < 4,
        0 <= alt < 4,
    ensures
        xor_all(parts_at(encoded(raw, OptScheme::Hybrid4, ret), h4_parts(c, alt), i)) == part_at(
            encoded(raw, OptScheme::Hybrid4, ret)[c],
            i,
        ),
{
    let e = encoded(raw, OptScheme::Hybrid4, ret);
    let p = Seq::new(9, |k: int| part_at(e[k], i));
    lemma_h4_related(raw, ret, i);
    lemma_h4_alternative(p, c, alt);
    assert(parts_at(e, h4_parts(c, alt), i) =~= Seq::new(h4_parts(c, alt).len(), |k: int| p[h4_parts(c, alt)[k]]));
}

/// Where a descent from the node at index `k` of a tree finds a label:
/// at the node if its tuple has the label, else below its left child if
/// the label comes before that of the tuple, else below its right child;
/// nowhere once the descent leaves the tree.
pub open spec fn descend(tree: Seq<Seq<u8>>, label: Seq<u8>, k: nat) -> Option<nat>
    decreases
        if k < tree.len() {
            tree.len() - k
        } else {
            0
        },
{
    if k >= tree.len() {
        None
    } else if label_of(tree[k as int]) == label {
        Some(k)
    } else if lex_lt(label, label_of(tree[k as int])) {
        descend(tree, label, 2 * k + 1)
    } else {
        descend(tree, label, 2 * k + 2)
    }
}

/// A descent from a node finds every label under the node: in the layout
/// of tuples in ascending order of their labels, the descent from the
/// node at index `k` for the label of a tuple in the part of the node
/// ends at a tuple with that label.
pub proof fn lemma_descend_finds(s: Seq<Seq<u8>>, k: nat, r: int)
    requires
        sorted_by_label(s),
        node_range(s.len(), k).0 <= r < node_range(s.len(), k).1,
    ensures
        descend(bst_layout(s), label_of(s[r]), k) is Some,
        label_of(bst_layout(s)[descend(bst_layout(s), label_of(s[r]), k)->0 as int]) == label_of(s[r]),
    decreases
        if k < s.len() {
            s.len() - k
        } else {
            0
        },
{
    let n = s.len();
    let tree = bst_layout(s);
    let label = label_of(s[r]);
    lemma_node_range_bounds(n, k);
    if k >= n {
        super::bst::lemma_node_empty(n, k);
    } else {
        lemma_node_nonempty(n, k);
        lemma_find_idx_lt(node_len(n, k) as nat);
        let (lo, hi) = node_range(n, k);
        let root = node_rank(n, k);
        assert(tree[k as int] == s[root]);
        assert(((2 * k + 1 - 1) / 2) as nat == k);
        assert(((2 * k + 2 - 1) / 2) as nat == k);
        assert(node_range(n, 2 * k + 1) == (lo, root));
        assert(node_range(n, 2 * k + 2) == (root + 1, hi));
        lemma_lex_lt_total(label, label_of(s[root]));
        lemma_lex_lt_irreflexive(label);
        if label_of(s[root]) != label {
            if lex_lt(label, label_of(s[root])) {
                if r > root {
                    assert(lex_le(label_of(s[root]), label_of(s[r])));
                }
                lemma_descend_finds(s, 2 * k + 1, r);
            } else {
                if r < root {
                    assert(lex_le(label_of(s[r]), label_of(s[root])));
                }
                lemma_descend_finds(s, 2 * k + 2, r);
            }
        }
    }
}

/// A descent from the root of the tree of a collection finds the label
/// of every tuple of the collection.
pub proof fn lemma_tree_finds(s: Seq<Seq<u8>>, r: int)
    requires
        sorted_by_label(s),
        0 <= r < s.len(),
    ensures
        descend(bst_layout(s), label_of(s[r]), 0) is Some,
        label_of(bst_layout(s)[descend(bst_layout(s), label_of(s[r]), 0)->0 as int]) == label_of(s[r]),
{
    lemma_descend_finds(s, 0, r);
}

} // verus!
