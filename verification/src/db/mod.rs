//! The per-round collection of Pung's messages.

use vstd::prelude::*;
use vstd::arithmetic::power2::{lemma_pow2_pos, pow2};
use vstd::slice::slice_subrange;
use crate::pir::{spec_params, PirParams};
use crate::util::bloomfilter::{bits_of, filter_bits, Bloom, HASHES};
use crate::util::{
    lemma_lex_lt_irreflexive, lemma_tree_height_holds, lemma_tree_height_pow2, lex_le, pow2_u64,
    spec_tree_height, tree_height,
};
use self::batch::{
    encoded, label_of, laid_out, sort_by_label, sorted_by_label, spec_num_collections,
    spec_num_systematic, xor_pad,
};
use self::bst::{bst_layout, lemma_first_of_last_level, lemma_node_rank_bounds, node_rank, BSTOrder};

pub mod batch;
pub mod bst;
pub mod sort;
pub mod tuple;

verus! {

/// Size of a label (the output of the HMAC-SHA256 label function).
pub const LABEL_SIZE: usize = 32;

/// Size of a ciphertext: message payloads are padded to this many bytes.
pub const CIPHER_SIZE: usize = 238;

/// Size of the authentication tag.
pub const MAC_SIZE: usize = 16;

/// Size of a tuple: label, ciphertext and tag, in this order.
pub const TUPLE_SIZE: usize = 286;

/// How a client finds the index of a label in a collection.
#[derive(PartialEq, Eq, Copy, Clone, Debug, Structural)]
pub enum RetScheme {
    Explicit,
    Bloom,
    Tree,
}

/// How a bucket is laid out to serve several retrievals.
#[derive(PartialEq, Eq, PartialOrd, Copy, Clone, Debug, Structural)]
pub enum OptScheme {
    /// One collection, no optimization.
    Normal,
    /// Every message is stored under two labels.
    Aliasing,
    /// Aliasing with a batch code that serves two retrievals per bucket.
    Hybrid2,
    /// Aliasing with a batch code that serves four retrievals per bucket.
    Hybrid4,
}

/// A label that names a message, the encrypted message and its tag.
#[derive(Copy, Clone, Debug)]
pub struct PungTuple {
    pub data: [u8; TUPLE_SIZE],
}

/// The tuples of a sequence as bytes.
pub open spec fn tuple_bytes(s: Seq<PungTuple>) -> Seq<Seq<u8>> {
    Seq::new(s.len(), |i: int| s[i]@)
}

/// The labels of tuples given as bytes.
pub open spec fn labels_of(s: Seq<Seq<u8>>) -> Seq<Seq<u8>> {
    Seq::new(s.len(), |i: int| label_of(s[i]))
}

/// The number of levels that a collection of `len` tuples is served in:
/// those of its tree where labels are found by descent, else one.
pub open spec fn spec_levels(len: nat, ret: RetScheme) -> nat {
    if ret == RetScheme::Tree {
        spec_tree_height(len)
    } else {
        1
    }
}

/// The index at which a level of a collection of `len` tuples starts.
pub open spec fn spec_level_start(len: nat, ret: RetScheme, level: nat) -> nat {
    if ret == RetScheme::Tree {
        (pow2(level) - 1) as nat
    } else {
        0
    }
}

/// The index before which a level of a collection of `len` tuples ends.
pub open spec fn spec_level_end(len: nat, ret: RetScheme, level: nat) -> nat {
    if ret == RetScheme::Tree && pow2(level + 1) - 1 < len {
        (pow2(level + 1) - 1) as nat
    } else {
        len
    }
}

/// An ordered sequence of tuples, with a filter over its labels.
pub struct Collection {
    set: Vec<PungTuple>,
    ret_scheme: RetScheme,
    depth: u64,
    bloom: Bloom,
}

impl View for Collection {
    type V = Seq<Seq<u8>>;

    closed spec fn view(&self) -> Seq<Seq<u8>> {
        tuple_bytes(self.set@)
    }
}

impl Collection {
    /// How labels are found in the collection.
    pub closed spec fn spec_ret_scheme(&self) -> RetScheme {
        self.ret_scheme
    }

    /// The depth of recursion that the retrieval primitive is set up with.
    pub closed spec fn spec_depth(&self) -> u64 {
        self.depth
    }

    /// The bits of the filter of the collection.
    pub closed spec fn spec_bloom_bits(&self) -> Seq<bool> {
        self.bloom.bits()
    }

    /// The number of positions that a label marks in the filter.
    pub closed spec fn spec_bloom_hashes(&self) -> u32 {
        self.bloom.spec_hashes()
    }

    /// The number of levels that the collection is served in.
    pub open spec fn spec_num_levels(&self) -> nat {
        spec_levels(self@.len(), self.spec_ret_scheme())
    }

    /// Every tuple of a collection has `TUPLE_SIZE` bytes, and there are
    /// no more tuples than the machine can count.
    pub proof fn lemma_all_tuples(&self)
        ensures
            self::batch::all_tuples(self@),
            self@.len() <= usize::MAX,
    {
        assert(self.set@.len() == self.set.len());
    }

    /// An empty collection.
    pub fn new(ret_scheme: RetScheme, depth: u64) -> (c: Collection)
        ensures
            c@.len() == 0,
            c.spec_ret_scheme() == ret_scheme,
            c.spec_depth() == depth,
            c.spec_bloom_bits() == bits_of(seq![0u8]),
            c.spec_bloom_hashes() == 1,
    {
        let bloom = Bloom::new(1, 1);
        assert(bloom.spec_bytes() =~= seq![0u8]);
        Collection { set: Vec::new(), ret_scheme, depth, bloom }
    }

    /// The label of the tuple at `idx`.
    pub fn get_label(&self, idx: usize) -> (l: &[u8])
        requires
            idx < self@.len(),
        ensures
            l@ == label_of(self@[idx as int]),
    {
        self.set[idx].label()
    }

    /// The filter over the labels of the collection.
    pub fn get_bloom(&self) -> (b: &Bloom)
        ensures
            b.bits() == self.spec_bloom_bits(),
            b.spec_hashes() == self.spec_bloom_hashes(),
    {
        &self.bloom
    }

    /// The number of tuples in the collection.
    pub fn len(&self) -> (n: usize)
        ensures
            n == self@.len(),
    {
        self.set.len()
    }

    /// Whether the collection holds no tuple.
    pub fn is_empty(&self) -> (b: bool)
        ensures
            b == (self@.len() == 0),
    {
        self.set.len() == 0
    }

    /// The number of levels that the collection is served in.
    pub fn num_levels(&self) -> (n: usize)
        ensures
            n == self.spec_num_levels(),
            n <= 64,
    {
        if self.ret_scheme == RetScheme::Tree {
            tree_height(self.set.len() as u64) as usize
        } else {
            1
        }
    }

    /// Adds a tuple to the end of the collection.
    pub fn push(&mut self, tuple: PungTuple)
        ensures
            final(self)@ == old(self)@.push(tuple@),
            final(self).spec_ret_scheme() == old(self).spec_ret_scheme(),
            final(self).spec_depth() == old(self).spec_depth(),
            final(self).spec_bloom_bits() == old(self).spec_bloom_bits(),
            final(self).spec_bloom_hashes() == old(self).spec_bloom_hashes(),
    {
        self.set.push(tuple);
        assert(tuple_bytes(self.set@) =~= tuple_bytes(old(self).set@).push(tuple@));
    }

    /// The first tuple, if there is one.
    pub fn get_first(&self) -> (t: Option<&PungTuple>)
        ensures
            self@.len() == 0 ==> t is None,
            self@.len() > 0 ==> t is Some && t->0@ == self@[0],
    {
        if self.set.len() == 0 {
            None
        } else {
            Some(&self.set[0])
        }
    }

    /// The tuple at `idx`.
    pub fn get_tuple(&self, idx: usize) -> (t: &PungTuple)
        requires
            idx < self@.len(),
        ensures
            t@ == self@[idx as int],
    {
        &self.set[idx]
    }

    /// The tuples of the collection, in order.
    pub fn get_tuples(&self) -> (ts: &[PungTuple])
        ensures
            tuple_bytes(ts@) == self@,
    {
        self.set.as_slice()
    }

    /// Replaces the tuples of the collection.
    pub fn set_contents(&mut self, collection: Vec<PungTuple>)
        ensures
            final(self)@ == tuple_bytes(collection@),
            final(self).spec_ret_scheme() == old(self).spec_ret_scheme(),
            final(self).spec_depth() == old(self).spec_depth(),
            final(self).spec_bloom_bits() == old(self).spec_bloom_bits(),
            final(self).spec_bloom_hashes() == old(self).spec_bloom_hashes(),
    {
        self.set = collection;
    }

    /// Builds the filter over the labels of the collection: every label is
    /// put in with the index of its tuple.
    pub fn set_bloom(&mut self)
        ensures
            final(self)@ == old(self)@,
            final(self).spec_ret_scheme() == old(self).spec_ret_scheme(),
            final(self).spec_depth() == old(self).spec_depth(),
            final(self).spec_bloom_bits() == filter_bits(labels_of(old(self)@), old(self)@.len()),
            final(self).spec_bloom_hashes() == HASHES,
    {
        let mut bloom = Bloom::for_items(self.set.len());
        let ghost labels = labels_of(self@);
        let mut i: usize = 0;
        while i < self.set.len()
            invariant
                i <= self.set@.len(),
                self.set@ == old(self).set@,
                labels == labels_of(tuple_bytes(self.set@)),
                bloom.spec_hashes() == HASHES,
                bloom.bits() == filter_bits(labels, i as nat),
            decreases self.set@.len() - i,
        {
            bloom.set(i as u64, self.set[i].label());
            i += 1;
        }
        self.bloom = bloom;
    }

    /// Takes the tuples from `offset` on out of the collection.
    pub fn split_off(&mut self, offset: usize) -> (rest: Vec<PungTuple>)
        requires
            offset <= old(self)@.len(),
        ensures
            final(self)@ == old(self)@.take(offset as int),
            tuple_bytes(rest@) == old(self)@.skip(offset as int),
            final(self).spec_ret_scheme() == old(self).spec_ret_scheme(),
            final(self).spec_depth() == old(self).spec_depth(),
            final(self).spec_bloom_bits() == old(self).spec_bloom_bits(),
            final(self).spec_bloom_hashes() == old(self).spec_bloom_hashes(),
    {
        let rest = self.set.split_off(offset);
        assert(tuple_bytes(self.set@) =~= tuple_bytes(old(self).set@).take(offset as int));
        assert(tuple_bytes(rest@) =~= tuple_bytes(old(self).set@).skip(offset as int));
        rest
    }

    /// Changes how labels are found in the collection.
    pub fn set_scheme(&mut self, scheme: RetScheme)
        ensures
            final(self)@ == old(self)@,
            final(self).spec_ret_scheme() == scheme,
            final(self).spec_depth() == old(self).spec_depth(),
            final(self).spec_bloom_bits() == old(self).spec_bloom_bits(),
            final(self).spec_bloom_hashes() == old(self).spec_bloom_hashes(),
    {
        self.ret_scheme = scheme;
    }

    /// Puts the tuples in ascending order of their labels.
    pub fn sort(&mut self)
        ensures
            final(self)@ == sort_by_label(old(self)@),
            final(self).spec_ret_scheme() == old(self).spec_ret_scheme(),
            final(self).spec_depth() == old(self).spec_depth(),
            final(self).spec_bloom_bits() == old(self).spec_bloom_bits(),
            final(self).spec_bloom_hashes() == old(self).spec_bloom_hashes(),
    {
        let sorted = self::sort::sort_tuples(self.set.as_slice());
        self.set = sorted;
    }

    /// Lays the tuples out as a complete binary search tree where labels
    /// are found by descent, and leaves them as they are otherwise.
    pub fn as_bst_array(&mut self)
        ensures
            final(self)@ == laid_out(old(self)@, old(self).spec_ret_scheme()),
            final(self).spec_ret_scheme() == old(self).spec_ret_scheme(),
            final(self).spec_depth() == old(self).spec_depth(),
            final(self).spec_bloom_bits() == old(self).spec_bloom_bits(),
            final(self).spec_bloom_hashes() == old(self).spec_bloom_hashes(),
    {
        if self.ret_scheme == RetScheme::Tree {
            let ghost before = self.set@;
            self.set.as_bst_order();
            proof {
                assert(self.set@ =~= bst_layout(before));
                assert forall|k: int| 0 <= k < before.len() implies tuple_bytes(bst_layout(before))[k] == bst_layout(
                    tuple_bytes(before),
                )[k] by {
                    self::bst::lemma_node_rank_bounds(before.len(), k as nat);
                }
                assert(tuple_bytes(bst_layout(before)) =~= bst_layout(tuple_bytes(before)));
            }
        }
    }

    /// What the retrieval primitive is set up with for each level of the
    /// collection.
    pub fn pir_setup(&self) -> (params: Vec<PirParams>)
        ensures
            params@.len() == self.spec_num_levels(),
            forall|l: int|
                0 <= l < params@.len() ==> #[trigger] params@[l] == spec_params(
                    (spec_level_end(self@.len(), self.spec_ret_scheme(), l as nat) - spec_level_start(
                        self@.len(),
                        self.spec_ret_scheme(),
                        l as nat,
                    )) as nat,
                    self.spec_depth(),
                ),
    {
        let levels = self.num_levels();
        let mut params: Vec<PirParams> = Vec::with_capacity(levels);
        let mut i: usize = 0;
        while i < levels
            invariant
                i <= levels,
                levels == self.spec_num_levels(),
                params@.len() == i,
                forall|l: int|
                    0 <= l < i ==> #[trigger] params@[l] == spec_params(
                        (spec_level_end(self@.len(), self.spec_ret_scheme(), l as nat) - spec_level_start(
                            self@.len(),
                            self.spec_ret_scheme(),
                            l as nat,
                        )) as nat,
                        self.spec_depth(),
                    ),
            decreases levels - i,
        {
            let level = self.get_level(i);
            params.push(PirParams::for_tuples(level.len() as u64, self.depth));
            i += 1;
        }
        params
    }

    /// The tuples of one level: all tuples where labels are not found by
    /// descent, else the nodes of that level of the tree.
    pub fn get_level(&self, level: usize) -> (ts: &[PungTuple])
        requires
            self.spec_ret_scheme() == RetScheme::Tree ==> level < self.spec_num_levels(),
        ensures
            tuple_bytes(ts@) == self@.subrange(
                spec_level_start(self@.len(), self.spec_ret_scheme(), level as nat) as int,
                spec_level_end(self@.len(), self.spec_ret_scheme(), level as nat) as int,
            ),
            ts@.len() == spec_level_end(self@.len(), self.spec_ret_scheme(), level as nat) - spec_level_start(
                self@.len(),
                self.spec_ret_scheme(),
                level as nat,
            ),
    {
        if self.ret_scheme == RetScheme::Explicit || self.ret_scheme == RetScheme::Bloom {
            let ts = self.set.as_slice();
            assert(tuple_bytes(ts@) =~= self@.subrange(0, self@.len() as int));
            ts
        } else {
            let n = self.set.len();
            proof {
                vstd::arithmetic::power2::lemma2_to64_rest();
                crate::util::lemma_tree_height_bound(n as nat, 64);
                lemma_tree_height_pow2(n as nat, level as nat);
                vstd::arithmetic::power2::lemma_pow2_unfold((level + 1) as nat);
                vstd::arithmetic::power2::lemma_pow2_pos(level as nat);
            }
            let pw = pow2_u64(level as u32);
            let min: usize = (pw - 1) as usize;
            let max: usize = if pw as usize <= n - min - 1 {
                min + pw as usize
            } else {
                n
            };
            let ts = slice_subrange(self.set.as_slice(), min, max);
            assert(tuple_bytes(ts@) =~= self@.subrange(min as int, max as int));
            ts
        }
    }

    /// Removes all tuples.
    pub fn clear(&mut self)
        ensures
            final(self)@.len() == 0,
            final(self).spec_ret_scheme() == old(self).spec_ret_scheme(),
            final(self).spec_depth() == old(self).spec_depth(),
            final(self).spec_bloom_bits() == old(self).spec_bloom_bits(),
            final(self).spec_bloom_hashes() == old(self).spec_bloom_hashes(),
    {
        self.set.clear();
    }
}

/// The number of tuples in a list of collections.
pub open spec fn total_len(cs: Seq<Collection>) -> nat
    decreases cs.len(),
{
    if cs.len() == 0 {
        0
    } else {
        total_len(cs.drop_last()) + cs.last()@.len()
    }
}

/// The number of levels that a list of collections is served in.
pub open spec fn total_levels(cs: Seq<Collection>) -> nat
    decreases cs.len(),
{
    if cs.len() == 0 {
        0
    } else {
        total_levels(cs.drop_last()) + cs.last().spec_num_levels()
    }
}

/// The label that tells a client whether a label lies before a
/// collection: the least label of the collection, which is that of its
/// first tuple, or of the first node of the last level of its tree; no
/// bytes for an empty collection.
pub open spec fn spec_lmid(c: Seq<Seq<u8>>, ret: RetScheme) -> Seq<u8> {
    if c.len() == 0 {
        Seq::empty()
    } else if ret == RetScheme::Tree {
        label_of(c[pow2((spec_tree_height(c.len()) - 1) as nat) - 1])
    } else {
        label_of(c[0])
    }
}

/// The label that a collection publishes is the least of its labels: it
/// is the label of the first tuple of the ascending sequence that the
/// collection was laid out from, and no tuple of the collection comes
/// before it.
pub proof fn lemma_lmid_is_least(s: Seq<Seq<u8>>, ret: RetScheme)
    requires
        s.len() > 0,
        sorted_by_label(s),
    ensures
        spec_lmid(laid_out(s, ret), ret) == label_of(s[0]),
        forall|j: int|
            0 <= j < s.len() ==> lex_le(spec_lmid(laid_out(s, ret), ret), label_of(#[trigger] laid_out(s, ret)[j])),
{
    let c = laid_out(s, ret);
    let n = s.len();
    lemma_lex_lt_irreflexive(label_of(s[0]));
    if ret == RetScheme::Tree {
        let level = (spec_tree_height(n) - 1) as nat;
        lemma_tree_height_pow2(n, level);
        lemma_tree_height_holds(n);
        lemma_first_of_last_level(n, level);
        lemma_pow2_pos(level);
        let first = pow2(level) - 1;
        assert(c.len() == n);
        assert(c[first] == s[node_rank(n, first as nat)]);
        assert(spec_lmid(c, ret) == label_of(s[0]));
        assert forall|j: int| 0 <= j < n implies lex_le(label_of(s[0]), label_of(#[trigger] c[j])) by {
            lemma_node_rank_bounds(n, j as nat);
            assert(c[j] == s[node_rank(n, j as nat)]);
        }
    } else {
        assert(c == s);
        assert(spec_lmid(c, ret) == label_of(s[0]));
    }
}

/// The labels that a bucket publishes: one for each systematic collection
/// but the first.
pub open spec fn spec_mid_labels(cs: Seq<Seq<Seq<u8>>>, opt: OptScheme, ret: RetScheme) -> Seq<Seq<u8>> {
    match opt {
        OptScheme::Normal | OptScheme::Aliasing => Seq::empty(),
        OptScheme::Hybrid2 => seq![spec_lmid(cs[1], ret)],
        OptScheme::Hybrid4 => seq![spec_lmid(cs[1], ret), spec_lmid(cs[2], ret), spec_lmid(cs[3], ret)],
    }
}

/// The tuples of each of a list of collections.
pub open spec fn views_of(cs: Seq<Collection>) -> Seq<Seq<Seq<u8>>> {
    Seq::new(cs.len(), |i: int| cs[i]@)
}

/// The tuples of each collection of each of a list of buckets.
pub open spec fn bucket_views(bs: Seq<Bucket>) -> Seq<Seq<Seq<Seq<u8>>>> {
    Seq::new(bs.len(), |i: int| bs[i]@)
}

/// Whether the collections `after` are those of a bucket encoded from the
/// collections `before`, of which the first holds the tuples: the tuples
/// are as `encoded` says; where labels are found by a filter, each
/// systematic collection has the filter of its labels, and every other
/// filter is as it was.
pub open spec fn encoded_from(after: Seq<Collection>, before: Seq<Collection>, opt: OptScheme, ret: RetScheme) -> bool {
    &&& after.len() == before.len()
    &&& forall|i: int|
        0 <= i < after.len() ==> {
            &&& (#[trigger] after[i])@ == encoded(before[0]@, opt, ret)[i]
            &&& after[i].spec_ret_scheme() == before[i].spec_ret_scheme()
            &&& after[i].spec_depth() == before[i].spec_depth()
            &&& if ret == RetScheme::Bloom && i < spec_num_systematic(opt) {
                &&& after[i].spec_bloom_bits() == filter_bits(labels_of(after[i]@), after[i]@.len())
                &&& after[i].spec_bloom_hashes() == HASHES
            } else {
                &&& after[i].spec_bloom_bits() == before[i].spec_bloom_bits()
                &&& after[i].spec_bloom_hashes() == before[i].spec_bloom_hashes()
            }
        }
}

/// The combination of two collections, tuple by tuple.
fn xor_collections(a: &Collection, b: &Collection) -> (out: Vec<PungTuple>)
    ensures
        tuple_bytes(out@) == xor_pad(a@, b@),
{
    let mut out: Vec<PungTuple> = Vec::with_capacity(a.len());
    let mut i: usize = 0;
    while i < a.len()
        invariant
            i <= a@.len(),
            out@.len() == i,
            forall|k: int| 0 <= k < i ==> (#[trigger] out@[k])@ == xor_pad(a@, b@)[k],
        decreases a@.len() - i,
    {
        if i < b.len() {
            out.push(a.get_tuple(i).xor(b.get_tuple(i)));
        } else {
            out.push(*a.get_tuple(i));
        }
        i += 1;
    }
    assert(tuple_bytes(out@) =~= xor_pad(a@, b@));
    out
}

/// The part of a round's tuples whose labels fall into one range: a fixed
/// set of collections, shaped by the optimization scheme.
pub struct Bucket {
    collections: Vec<Collection>,
    opt_scheme: OptScheme,
    ret_scheme: RetScheme,
}

impl View for Bucket {
    type V = Seq<Seq<Seq<u8>>>;

    open spec fn view(&self) -> Seq<Seq<Seq<u8>>> {
        views_of(self.collections())
    }
}

impl View for Database {
    type V = Seq<Seq<Seq<Seq<u8>>>>;

    open spec fn view(&self) -> Seq<Seq<Seq<Seq<u8>>>> {
        bucket_views(self.buckets())
    }
}

impl Bucket {
    /// The collections of the bucket.
    pub closed spec fn collections(&self) -> Seq<Collection> {
        self.collections@
    }

    /// A bucket has the collections of its scheme, and labels are found
    /// in all of them as in the bucket.
    pub open spec fn wf(&self) -> bool {
        &&& self.collections().len() == spec_num_collections(self.spec_opt_scheme())
        &&& forall|i: int|
            0 <= i < self.collections().len() ==> (#[trigger] self.collections()[i]).spec_ret_scheme()
                == self.spec_ret_scheme()
    }

    /// The optimization scheme of the bucket.
    pub closed spec fn spec_opt_scheme(&self) -> OptScheme {
        self.opt_scheme
    }

    /// How labels are found in the bucket.
    pub closed spec fn spec_ret_scheme(&self) -> RetScheme {
        self.ret_scheme
    }

    /// The number of tuples in all collections.
    pub open spec fn spec_len(&self) -> nat {
        total_len(self.collections())
    }

    /// The number of tuples as they were sent: those of the systematic
    /// collections.
    pub open spec fn spec_unencoded_len(&self) -> nat {
        total_len(self.collections().take(spec_num_systematic(self.spec_opt_scheme()) as int))
    }

    /// The number of levels that the collections are served in.
    pub open spec fn spec_total_dbs(&self) -> nat {
        total_levels(self.collections())
    }

    /// An empty bucket.
    pub fn new(ret_scheme: RetScheme, opt_scheme: OptScheme, depth: u64) -> (b: Bucket)
        ensures
            b.wf(),
            b.spec_opt_scheme() == opt_scheme,
            b.spec_ret_scheme() == ret_scheme,
            b.collections().len() == spec_num_collections(opt_scheme),
            forall|i: int|
                0 <= i < b.collections().len() ==> {
                    &&& (#[trigger] b.collections()[i])@.len() == 0
                    &&& b.collections()[i].spec_ret_scheme() == ret_scheme
                    &&& b.collections()[i].spec_depth() == depth
                    &&& b.collections()[i].spec_bloom_bits() == bits_of(seq![0u8])
                    &&& b.collections()[i].spec_bloom_hashes() == 1
                },
    {
        let count: usize = match opt_scheme {
            OptScheme::Normal | OptScheme::Aliasing => 1,
            OptScheme::Hybrid2 => 3,
            OptScheme::Hybrid4 => 9,
        };
        let mut collections: Vec<Collection> = Vec::with_capacity(count);
        let mut i: usize = 0;
        while i < count
            invariant
                i <= count,
                collections@.len() == i,
                forall|k: int|
                    0 <= k < i ==> {
                        &&& (#[trigger] collections@[k])@.len() == 0
                        &&& collections@[k].spec_ret_scheme() == ret_scheme
                        &&& collections@[k].spec_depth() == depth
                        &&& collections@[k].spec_bloom_bits() == bits_of(seq![0u8])
                        &&& collections@[k].spec_bloom_hashes() == 1
                    },
            decreases count - i,
        {
            collections.push(Collection::new(ret_scheme, depth));
            i += 1;
        }
        Bucket { collections, opt_scheme, ret_scheme }
    }

    /// The collections of the bucket, in order.
    pub fn get_collections(&self) -> (cs: &[Collection])
        ensures
            cs@ == self.collections(),
    {
        self.collections.as_slice()
    }

    /// The collection `id` of the bucket.
    pub fn get_collection(&self, id: usize) -> (c: &Collection)
        requires
            id < self.collections().len(),
        ensures
            *c == self.collections()[id as int],
    {
        &self.collections[id]
    }

    /// The collection `id` of the bucket, to change it. With another
    /// retrieval scheme the bucket is no longer well formed.
    pub fn get_collection_mut(&mut self, id: usize) -> (c: &mut Collection)
        requires
            id < old(self).collections().len(),
        ensures
            *c == old(self).collections()[id as int],
            final(self).collections() == old(self).collections().update(id as int, *final(c)),
            final(self).spec_opt_scheme() == old(self).spec_opt_scheme(),
            final(self).spec_ret_scheme() == old(self).spec_ret_scheme(),
    {
        &mut self.collections[id]
    }

    /// The number of collections of the bucket.
    pub fn num_collections(&self) -> (n: usize)
        ensures
            n == self.collections().len(),
    {
        self.collections.len()
    }

    /// The number of levels that the collections are served in.
    pub fn total_dbs(&self) -> (count: usize)
        requires
            self.wf(),
        ensures
            count == self.spec_total_dbs(),
            count <= 576,
    {
        let mut count: usize = 0;
        let mut i: usize = 0;
        while i < self.collections.len()
            invariant
                i <= self.collections@.len() <= 9,
                count == total_levels(self.collections@.take(i as int)),
                count <= 64 * i,
            decreases self.collections@.len() - i,
        {
            proof {
                assert(self.collections@.take(i as int + 1).drop_last() =~= self.collections@.take(i as int));
            }
            count += self.collections[i].num_levels();
            i += 1;
        }
        assert(self.collections@.take(self.collections@.len() as int) =~= self.collections@);
        count
    }

    /// The number of tuples in all collections.
    pub fn len(&self) -> (count: usize)
        requires
            self.spec_len() <= usize::MAX,
        ensures
            count == self.spec_len(),
    {
        let mut count: usize = 0;
        let mut i: usize = 0;
        proof {
            lemma_total_len_take(self.collections@, self.collections@.len() as int);
        }
        while i < self.collections.len()
            invariant
                i <= self.collections@.len(),
                count == total_len(self.collections@.take(i as int)),
                total_len(self.collections@) <= usize::MAX,
            decreases self.collections@.len() - i,
        {
            proof {
                assert(self.collections@.take(i as int + 1).drop_last() =~= self.collections@.take(i as int));
                lemma_total_len_take(self.collections@, i as int + 1);
            }
            count += self.collections[i].len();
            i += 1;
        }
        assert(self.collections@.take(self.collections@.len() as int) =~= self.collections@);
        count
    }

    /// The number of tuples as they were sent.
    pub fn unencoded_len(&self) -> (count: usize)
        requires
            self.wf(),
            self.spec_unencoded_len() <= usize::MAX,
        ensures
            count == self.spec_unencoded_len(),
    {
        let systematic: usize = match self.opt_scheme {
            OptScheme::Normal | OptScheme::Aliasing => 1,
            OptScheme::Hybrid2 => 2,
            OptScheme::Hybrid4 => 4,
        };
        let ghost cs = self.collections@.take(systematic as int);
        let mut count: usize = 0;
        let mut i: usize = 0;
        proof {
            lemma_total_len_take(cs, cs.len() as int);
        }
        while i < systematic
            invariant
                i <= systematic <= self.collections@.len(),
                cs == self.collections@.take(systematic as int),
                count == total_len(cs.take(i as int)),
                total_len(cs) <= usize::MAX,
            decreases systematic - i,
        {
            proof {
                assert(cs.take(i as int + 1).drop_last() =~= cs.take(i as int));
                lemma_total_len_take(cs, i as int + 1);
            }
            count += self.collections[i].len();
            i += 1;
        }
        assert(cs.take(systematic as int) =~= cs);
        count
    }

    /// Whether the bucket holds no tuple.
    pub fn is_empty(&self) -> (b: bool)
        ensures
            b == (self.spec_len() == 0),
    {
        let mut i: usize = 0;
        while i < self.collections.len()
            invariant
                i <= self.collections@.len(),
                total_len(self.collections@.take(i as int)) == 0,
            decreases self.collections@.len() - i,
        {
            proof {
                assert(self.collections@.take(i as int + 1).drop_last() =~= self.collections@.take(i as int));
                lemma_total_len_take(self.collections@, i as int + 1);
            }
            if !self.collections[i].is_empty() {
                return false;
            }
            i += 1;
        }
        assert(self.collections@.take(self.collections@.len() as int) =~= self.collections@);
        true
    }

    /// Removes the tuples of all collections.
    pub fn clear(&mut self)
        requires
            old(self).wf(),
        ensures
            final(self).wf(),
            final(self).spec_opt_scheme() == old(self).spec_opt_scheme(),
            final(self).spec_ret_scheme() == old(self).spec_ret_scheme(),
            final(self).collections().len() == old(self).collections().len(),
            forall|i: int|
                0 <= i < final(self).collections().len() ==> {
                    &&& (#[trigger] final(self).collections()[i])@.len() == 0
                    &&& final(self).collections()[i].spec_ret_scheme() == old(self).collections()[i].spec_ret_scheme()
                    &&& final(self).collections()[i].spec_depth() == old(self).collections()[i].spec_depth()
                    &&& final(self).collections()[i].spec_bloom_bits() == old(self).collections()[i].spec_bloom_bits()
                    &&& final(self).collections()[i].spec_bloom_hashes() == old(self).collections()[i].spec_bloom_hashes()
                },
            final(self).spec_len() == 0,
    {
        let n = self.collections.len();
        let mut i: usize = 0;
        while i < n
            invariant
                i <= n,
                n == self.collections@.len(),
                n == old(self).collections@.len(),
                self.opt_scheme == old(self).opt_scheme,
                self.ret_scheme == old(self).ret_scheme,
                n == spec_num_collections(self.opt_scheme),
                forall|k: int| 0 <= k < n ==> (#[trigger] self.collections@[k]).spec_ret_scheme() == self.ret_scheme,
                forall|k: int| 0 <= k < n ==> (#[trigger] old(self).collections@[k]).spec_ret_scheme() == self.ret_scheme,
                forall|k: int|
                    0 <= k < i ==> {
                        &&& (#[trigger] self.collections@[k])@.len() == 0
                        &&& self.collections@[k].spec_depth() == old(self).collections@[k].spec_depth()
                        &&& self.collections@[k].spec_bloom_bits() == old(self).collections@[k].spec_bloom_bits()
                        &&& self.collections@[k].spec_bloom_hashes() == old(self).collections@[k].spec_bloom_hashes()
                    },
                forall|k: int| i <= k < n ==> (#[trigger] self.collections@[k]) == old(self).collections@[k],
            decreases n - i,
        {
            self.collections[i].clear();
            i += 1;
        }
        proof {
            lemma_total_len_empty(self.collections@);
        }
    }

    /// The optimization scheme of the bucket.
    pub fn opt_scheme(&self) -> (opt: OptScheme)
        ensures
            opt == self.spec_opt_scheme(),
    {
        self.opt_scheme
    }

    /// Adds a tuple to the bucket: to its first collection; encoding
    /// spreads the tuples over the others.
    pub fn push(&mut self, tuple: PungTuple)
        requires
            old(self).wf(),
        ensures
            final(self).wf(),
            final(self).spec_opt_scheme() == old(self).spec_opt_scheme(),
            final(self).spec_ret_scheme() == old(self).spec_ret_scheme(),
            final(self).collections().len() == old(self).collections().len(),
            final(self).collections()[0]@ == old(self).collections()[0]@.push(tuple@),
            final(self).collections()[0].spec_ret_scheme() == old(self).collections()[0].spec_ret_scheme(),
            final(self).collections()[0].spec_depth() == old(self).collections()[0].spec_depth(),
            final(self).collections()[0].spec_bloom_bits() == old(self).collections()[0].spec_bloom_bits(),
            final(self).collections()[0].spec_bloom_hashes() == old(self).collections()[0].spec_bloom_hashes(),
            forall|i: int|
                1 <= i < final(self).collections().len() ==> #[trigger] final(self).collections()[i] == old(self).collections()[i],
    {
        self.collections[0].push(tuple);
    }

    /// Lays out a systematic collection after the split: as a tree where
    /// labels are found by descent, and with its filter where they are
    /// found by a filter.
    fn finish_systematic(&mut self, id: usize)
        requires
            old(self).wf(),
            id < old(self).collections().len(),
        ensures
            final(self).wf(),
            final(self).spec_opt_scheme() == old(self).spec_opt_scheme(),
            final(self).spec_ret_scheme() == old(self).spec_ret_scheme(),
            final(self).collections().len() == old(self).collections().len(),
            forall|i: int|
                0 <= i < final(self).collections().len() && i != id ==> #[trigger] final(self).collections()[i]
                    == old(self).collections()[i],
            final(self).collections()[id as int]@ == laid_out(
                old(self).collections()[id as int]@,
                old(self).spec_ret_scheme(),
            ),
            final(self).collections()[id as int].spec_ret_scheme() == old(self).spec_ret_scheme(),
            final(self).collections()[id as int].spec_depth() == old(self).collections()[id as int].spec_depth(),
            if old(self).spec_ret_scheme() == RetScheme::Bloom {
                &&& final(self).collections()[id as int].spec_bloom_bits() == filter_bits(
                    labels_of(final(self).collections()[id as int]@),
                    final(self).collections()[id as int]@.len(),
                )
                &&& final(self).collections()[id as int].spec_bloom_hashes() == HASHES
            } else {
                &&& final(self).collections()[id as int].spec_bloom_bits() == old(self).collections()[id as int].spec_bloom_bits()
                &&& final(self).collections()[id as int].spec_bloom_hashes() == old(self).collections()[id as int].spec_bloom_hashes()
            },
    {
        if self.ret_scheme == RetScheme::Tree {
            self.collections[id].as_bst_array();
        } else if self.ret_scheme == RetScheme::Bloom {
            self.collections[id].set_bloom();
        }
    }

    /// Moves the second half of collection `from` to collection `to`.
    fn split_half(&mut self, from: usize, to: usize)
        requires
            old(self).wf(),
            from < old(self).collections().len(),
            to < old(self).collections().len(),
            from != to,
        ensures
            final(self).wf(),
            final(self).spec_opt_scheme() == old(self).spec_opt_scheme(),
            final(self).spec_ret_scheme() == old(self).spec_ret_scheme(),
            final(self).collections().len() == old(self).collections().len(),
            forall|i: int|
                0 <= i < final(self).collections().len() && i != from && i != to ==> #[trigger] final(self).collections()[i] == old(self).collections()[i],
            final(self).collections()[from as int]@ == self::batch::first_half(old(self).collections()[from as int]@),
            final(self).collections()[to as int]@ == self::batch::second_half(old(self).collections()[from as int]@),
            final(self).collections()[from as int].spec_depth() == old(self).collections()[from as int].spec_depth(),
            final(self).collections()[to as int].spec_depth() == old(self).collections()[to as int].spec_depth(),
            final(self).collections()[from as int].spec_bloom_bits() == old(self).collections()[from as int].spec_bloom_bits(),
            final(self).collections()[to as int].spec_bloom_bits() == old(self).collections()[to as int].spec_bloom_bits(),
            final(self).collections()[from as int].spec_bloom_hashes() == old(self).collections()[from as int].spec_bloom_hashes(),
            final(self).collections()[to as int].spec_bloom_hashes() == old(self).collections()[to as int].spec_bloom_hashes(),
    {
        let len = self.collections[from].len();
        let rest = self.collections[from].split_off(len - len / 2);
        self.collections[to].set_contents(rest);
    }

    /// Fills collection `to` with the combination of the collections `a`
    /// and `b`.
    fn combine(&mut self, a: usize, b: usize, to: usize)
        requires
            old(self).wf(),
            a < old(self).collections().len(),
            b < old(self).collections().len(),
            to < old(self).collections().len(),
            to != a,
            to != b,
        ensures
            final(self).wf(),
            final(self).spec_opt_scheme() == old(self).spec_opt_scheme(),
            final(self).spec_ret_scheme() == old(self).spec_ret_scheme(),
            final(self).collections().len() == old(self).collections().len(),
            forall|i: int|
                0 <= i < final(self).collections().len() && i != to ==> #[trigger] final(self).collections()[i]
                    == old(self).collections()[i],
            final(self).collections()[to as int]@ == xor_pad(
                old(self).collections()[a as int]@,
                old(self).collections()[b as int]@,
            ),
            final(self).collections()[to as int].spec_depth() == old(self).collections()[to as int].spec_depth(),
            final(self).collections()[to as int].spec_bloom_bits() == old(self).collections()[to as int].spec_bloom_bits(),
            final(self).collections()[to as int].spec_bloom_hashes() == old(self).collections()[to as int].spec_bloom_hashes(),
    {
        let combined = xor_collections(&self.collections[a], &self.collections[b]);
        self.collections[to].set_contents(combined);
    }

    /// Encodes the bucket, once per round after all tuples were pushed:
    /// the tuples of the first collection are put in ascending order of
    /// their labels, spread over the systematic collections, laid out for
    /// retrieval, and combined into the other collections.
    pub fn encode(&mut self)
        requires
            old(self).wf(),
        ensures
            final(self).wf(),
            final(self).spec_opt_scheme() == old(self).spec_opt_scheme(),
            final(self).spec_ret_scheme() == old(self).spec_ret_scheme(),
            encoded_from(
                final(self).collections(),
                old(self).collections(),
                old(self).spec_opt_scheme(),
                old(self).spec_ret_scheme(),
            ),
    {
        self.collections[0].sort();
        match self.opt_scheme {
            OptScheme::Normal | OptScheme::Aliasing => {
                self.finish_systematic(0);
            },
            OptScheme::Hybrid2 => {
                self.split_half(0, 1);
                self.finish_systematic(0);
                self.finish_systematic(1);
                self.combine(0, 1, 2);
            },
            OptScheme::Hybrid4 => {
                self.split_half(0, 2);
                self.split_half(0, 1);
                self.split_half(2, 3);
                self.finish_systematic(0);
                self.finish_systematic(1);
                self.finish_systematic(2);
                self.finish_systematic(3);
                self.combine(0, 1, 4);
                self.combine(2, 3, 5);
                self.combine(0, 2, 6);
                self.combine(1, 3, 7);
                self.combine(6, 7, 8);
            },
        }
    }

    /// The label of the least tuple of collection `id`, or no bytes if the
    /// collection is empty.
    fn lmid(&self, id: usize) -> (l: Vec<u8>)
        requires
            self.wf(),
            id < self.collections().len(),
        ensures
            l@ == spec_lmid(self.collections()[id as int]@, self.spec_ret_scheme()),
    {
        let c = &self.collections[id];
        if c.is_empty() {
            Vec::new()
        } else if self.ret_scheme == RetScheme::Tree {
            let n = c.len();
            let h = tree_height(n as u64);
            proof {
                lemma_tree_height_pow2(n as nat, (h - 1) as nat);
                vstd::arithmetic::power2::lemma_pow2_pos((h - 1) as nat);
            }
            let first = pow2_u64(h - 1) - 1;
            vstd::slice::slice_to_vec(c.get_label(first as usize))
        } else {
            vstd::slice::slice_to_vec(c.get_label(0))
        }
    }

    /// The labels that the bucket publishes after encoding, by which a
    /// client tells in which systematic collection a label lies: the least
    /// label of each systematic collection but the first.
    pub fn mid_labels(&self) -> (lmids: Vec<Vec<u8>>)
        requires
            self.wf(),
        ensures
            crate::util::byte_strings(lmids@) == spec_mid_labels(self@, self.spec_opt_scheme(), self.spec_ret_scheme()),
    {
        let mut lmids: Vec<Vec<u8>> = Vec::new();
        match self.opt_scheme {
            OptScheme::Normal | OptScheme::Aliasing => {},
            OptScheme::Hybrid2 => {
                lmids.push(self.lmid(1));
            },
            OptScheme::Hybrid4 => {
                lmids.push(self.lmid(1));
                lmids.push(self.lmid(2));
                lmids.push(self.lmid(3));
            },
        }
        assert(crate::util::byte_strings(lmids@) =~= spec_mid_labels(
            self@,
            self.spec_opt_scheme(),
            self.spec_ret_scheme(),
        ));
        lmids
    }

    /// What the retrieval primitive is set up with: for every collection,
    /// the parameters of each of its levels.
    pub fn pir_setup(&self) -> (params: Vec<Vec<PirParams>>)
        ensures
            params@.len() == self.collections().len(),
            forall|i: int|
                0 <= i < params@.len() ==> params_of(#[trigger] params@[i]@, self.collections()[i]),
    {
        let mut params: Vec<Vec<PirParams>> = Vec::with_capacity(self.collections.len());
        let mut i: usize = 0;
        while i < self.collections.len()
            invariant
                i <= self.collections@.len(),
                params@.len() == i,
                forall|k: int| 0 <= k < i ==> params_of(#[trigger] params@[k]@, self.collections@[k]),
            decreases self.collections@.len() - i,
        {
            params.push(self.collections[i].pir_setup());
            i += 1;
        }
        params
    }
}

/// Whether `params` are the parameters of the levels of a collection.
pub open spec fn params_of(params: Seq<PirParams>, c: Collection) -> bool {
    &&& params.len() == c.spec_num_levels()
    &&& forall|l: int|
        0 <= l < params.len() ==> #[trigger] params[l] == spec_params(
            (spec_level_end(c@.len(), c.spec_ret_scheme(), l as nat) - spec_level_start(
                c@.len(),
                c.spec_ret_scheme(),
                l as nat,
            )) as nat,
            c.spec_depth(),
        )
}

/// The tuples of the first collections of a list are among those of the
/// list.
pub proof fn lemma_total_len_take(cs: Seq<Collection>, k: int)
    requires
        0 <= k <= cs.len(),
    ensures
        total_len(cs.take(k)) <= total_len(cs),
    decreases cs.len() - k,
{
    if k < cs.len() {
        lemma_total_len_take(cs, k + 1);
        assert(cs.take(k + 1).drop_last() =~= cs.take(k));
    } else {
        assert(cs.take(k) =~= cs);
    }
}

/// Empty collections hold no tuples.
pub proof fn lemma_total_len_empty(cs: Seq<Collection>)
    requires
        forall|i: int| 0 <= i < cs.len() ==> (#[trigger] cs[i])@.len() == 0,
    ensures
        total_len(cs) == 0,
    decreases cs.len(),
{
    if cs.len() > 0 {
        lemma_total_len_empty(cs.drop_last());
    }
}

/// The number of tuples in a list of buckets.
pub open spec fn total_tuples(bs: Seq<Bucket>) -> nat
    decreases bs.len(),
{
    if bs.len() == 0 {
        0
    } else {
        total_tuples(bs.drop_last()) + bs.last().spec_len()
    }
}

/// The number of levels that a list of buckets is served in.
pub open spec fn total_dbs_of(bs: Seq<Bucket>) -> nat
    decreases bs.len(),
{
    if bs.len() == 0 {
        0
    } else {
        total_dbs_of(bs.drop_last()) + bs.last().spec_total_dbs()
    }
}

/// The tuples of the first buckets of a list are among those of the list.
pub proof fn lemma_total_tuples_take(bs: Seq<Bucket>, k: int)
    requires
        0 <= k <= bs.len(),
    ensures
        total_tuples(bs.take(k)) <= total_tuples(bs),
    decreases bs.len() - k,
{
    if k < bs.len() {
        lemma_total_tuples_take(bs, k + 1);
        assert(bs.take(k + 1).drop_last() =~= bs.take(k));
    } else {
        assert(bs.take(k) =~= bs);
    }
}

/// The tuples of one round: a list of buckets that share one retrieval
/// scheme and one optimization scheme.
pub struct Database {
    buckets: Vec<Bucket>,
}

impl Database {
    /// The buckets of the database.
    pub closed spec fn buckets(&self) -> Seq<Bucket> {
        self.buckets@
    }

    /// Every bucket is well formed, and all have the schemes of the first.
    pub open spec fn wf(&self) -> bool {
        forall|i: int|
            0 <= i < self.buckets().len() ==> {
                &&& (#[trigger] self.buckets()[i]).wf()
                &&& self.buckets()[i].spec_opt_scheme() == self.buckets()[0].spec_opt_scheme()
                &&& self.buckets()[i].spec_ret_scheme() == self.buckets()[0].spec_ret_scheme()
            }
    }

    /// The number of tuples in all buckets.
    pub open spec fn spec_len(&self) -> nat {
        total_tuples(self.buckets())
    }

    /// The number of levels that the database is served in: the number of
    /// retrievals that probe every level of every collection once.
    pub open spec fn spec_total_dbs(&self) -> nat {
        total_dbs_of(self.buckets())
    }

    /// An empty database of `buckets` buckets.
    pub fn new(ret_scheme: RetScheme, opt_scheme: OptScheme, buckets: usize, depth: u64) -> (db: Database)
        ensures
            db.wf(),
            db.buckets().len() == buckets,
            forall|i: int|
                0 <= i < buckets ==> {
                    &&& (#[trigger] db.buckets()[i]).spec_opt_scheme() == opt_scheme
                    &&& db.buckets()[i].spec_ret_scheme() == ret_scheme
                    &&& db.buckets()[i].spec_len() == 0
                    &&& forall|c: int|
                        0 <= c < db.buckets()[i].collections().len() ==> (#[trigger] db.buckets()[i].collections()[c]).spec_depth()
                            == depth
                },
    {
        let mut bs: Vec<Bucket> = Vec::new();
        let mut i: usize = 0;
        while i < buckets
            invariant
                i <= buckets,
                bs@.len() == i,
                forall|k: int|
                    0 <= k < i ==> {
                        &&& (#[trigger] bs@[k]).wf()
                        &&& bs@[k].spec_opt_scheme() == opt_scheme
                        &&& bs@[k].spec_ret_scheme() == ret_scheme
                        &&& bs@[k].spec_len() == 0
                        &&& forall|c: int|
                            0 <= c < bs@[k].collections().len() ==> (#[trigger] bs@[k].collections()[c]).spec_depth()
                                == depth
                    },
            decreases buckets - i,
        {
            let bucket = Bucket::new(ret_scheme, opt_scheme, depth);
            proof {
                lemma_total_len_empty(bucket.collections());
            }
            bs.push(bucket);
            i += 1;
        }
        Database { buckets: bs }
    }

    /// The number of levels that the database is served in.
    pub fn total_dbs(&self) -> (count: usize)
        requires
            self.wf(),
            576 * self.buckets().len() <= usize::MAX,
        ensures
            count == self.spec_total_dbs(),
            count <= 576 * self.buckets().len(),
    {
        let mut count: usize = 0;
        let mut i: usize = 0;
        while i < self.buckets.len()
            invariant
                i <= self.buckets@.len(),
                self.wf(),
                576 * self.buckets@.len() <= usize::MAX,
                count == total_dbs_of(self.buckets@.take(i as int)),
                count <= 576 * i,
            decreases self.buckets@.len() - i,
        {
            proof {
                assert(self.buckets@.take(i as int + 1).drop_last() =~= self.buckets@.take(i as int));
            }
            count += self.buckets[i].total_dbs();
            i += 1;
        }
        assert(self.buckets@.take(self.buckets@.len() as int) =~= self.buckets@);
        count
    }

    /// The number of tuples in all buckets.
    pub fn len(&self) -> (count: usize)
        requires
            self.spec_len() <= usize::MAX,
        ensures
            count == self.spec_len(),
    {
        let mut count: usize = 0;
        let mut i: usize = 0;
        while i < self.buckets.len()
            invariant
                i <= self.buckets@.len(),
                count == total_tuples(self.buckets@.take(i as int)),
                total_tuples(self.buckets@) <= usize::MAX,
            decreases self.buckets@.len() - i,
        {
            proof {
                assert(self.buckets@.take(i as int + 1).drop_last() =~= self.buckets@.take(i as int));
                lemma_total_tuples_take(self.buckets@, i as int + 1);
            }
            count += self.buckets[i].len();
            i += 1;
        }
        assert(self.buckets@.take(self.buckets@.len() as int) =~= self.buckets@);
        count
    }

    /// Whether the database holds no tuple.
    pub fn is_empty(&self) -> (b: bool)
        ensures
            b == (self.spec_len() == 0),
    {
        let mut i: usize = 0;
        while i < self.buckets.len()
            invariant
                i <= self.buckets@.len(),
                total_tuples(self.buckets@.take(i as int)) == 0,
            decreases self.buckets@.len() - i,
        {
            proof {
                assert(self.buckets@.take(i as int + 1).drop_last() =~= self.buckets@.take(i as int));
                lemma_total_tuples_take(self.buckets@, i as int + 1);
            }
            if !self.buckets[i].is_empty() {
                return false;
            }
            i += 1;
        }
        assert(self.buckets@.take(self.buckets@.len() as int) =~= self.buckets@);
        true
    }

    /// The optimization scheme of the database.
    pub fn opt_scheme(&self) -> (opt: OptScheme)
        requires
            self.buckets().len() > 0,
        ensures
            opt == self.buckets()[0].spec_opt_scheme(),
    {
        self.buckets[0].opt_scheme()
    }

    /// The number of buckets.
    pub fn num_buckets(&self) -> (n: usize)
        ensures
            n == self.buckets().len(),
    {
        self.buckets.len()
    }

    /// The buckets, in order.
    pub fn get_buckets(&self) -> (bs: &[Bucket])
        ensures
            bs@ == self.buckets(),
    {
        self.buckets.as_slice()
    }

    /// The bucket `id`.
    pub fn get_bucket(&self, id: usize) -> (b: &Bucket)
        requires
            id < self.buckets().len(),
        ensures
            *b == self.buckets()[id as int],
    {
        &self.buckets[id]
    }

    /// The bucket `id`, to change it.
    pub fn get_bucket_mut(&mut self, id: usize) -> (b: &mut Bucket)
        requires
            id < old(self).buckets().len(),
        ensures
            *b == old(self).buckets()[id as int],
            final(self).buckets() == old(self).buckets().update(id as int, *final(b)),
    {
        &mut self.buckets[id]
    }

    /// Removes the tuples of all buckets.
    pub fn clear(&mut self)
        requires
            old(self).wf(),
        ensures
            final(self).wf(),
            final(self).buckets().len() == old(self).buckets().len(),
            forall|i: int|
                0 <= i < final(self).buckets().len() ==> {
                    &&& (#[trigger] final(self).buckets()[i]).spec_opt_scheme() == old(self).buckets()[i].spec_opt_scheme()
                    &&& final(self).buckets()[i].spec_ret_scheme() == old(self).buckets()[i].spec_ret_scheme()
                    &&& final(self).buckets()[i].spec_len() == 0
                },
            final(self).spec_len() == 0,
    {
        let n = self.buckets.len();
        let mut i: usize = 0;
        while i < n
            invariant
                i <= n,
                n == self.buckets@.len(),
                n == old(self).buckets@.len(),
                old(self).wf(),
                forall|k: int|
                    0 <= k < n ==> {
                        &&& (#[trigger] self.buckets@[k]).wf()
                        &&& self.buckets@[k].spec_opt_scheme() == old(self).buckets@[k].spec_opt_scheme()
                        &&& self.buckets@[k].spec_ret_scheme() == old(self).buckets@[k].spec_ret_scheme()
                    },
                forall|k: int| 0 <= k < i ==> (#[trigger] self.buckets@[k]).spec_len() == 0,
            decreases n - i,
        {
            self.buckets[i].clear();
            i += 1;
        }
        proof {
            lemma_total_tuples_empty(self.buckets@);
        }
    }

    /// Adds a tuple to the bucket `bucket_id`.
    pub fn push(&mut self, bucket_id: usize, tuple: PungTuple)
        requires
            old(self).wf(),
            bucket_id < old(self).buckets().len(),
        ensures
            final(self).wf(),
            final(self).buckets().len() == old(self).buckets().len(),
            forall|i: int|
                0 <= i < final(self).buckets().len() && i != bucket_id ==> #[trigger] final(self).buckets()[i] == old(self).buckets()[i],
            final(self).buckets()[bucket_id as int].spec_opt_scheme() == old(self).buckets()[bucket_id as int].spec_opt_scheme(),
            final(self).buckets()[bucket_id as int].spec_ret_scheme() == old(self).buckets()[bucket_id as int].spec_ret_scheme(),
            final(self).buckets()[bucket_id as int].collections().len() == old(self).buckets()[bucket_id as int].collections().len(),
            final(self).buckets()[bucket_id as int].collections()[0]@ == old(self).buckets()[bucket_id as int].collections()[0]@.push(tuple@),
            forall|c: int|
                1 <= c < final(self).buckets()[bucket_id as int].collections().len() ==> #[trigger] final(self).buckets()[bucket_id as int].collections()[c] == old(self).buckets()[bucket_id as int].collections()[c],
    {
        self.buckets[bucket_id].push(tuple);
    }

    /// Encodes every bucket.
    pub fn encode(&mut self)
        requires
            old(self).wf(),
        ensures
            final(self).wf(),
            final(self).buckets().len() == old(self).buckets().len(),
            forall|i: int|
                0 <= i < final(self).buckets().len() ==> {
                    &&& (#[trigger] final(self).buckets()[i]).spec_opt_scheme() == old(self).buckets()[i].spec_opt_scheme()
                    &&& final(self).buckets()[i].spec_ret_scheme() == old(self).buckets()[i].spec_ret_scheme()
                    &&& encoded_from(
                        final(self).buckets()[i].collections(),
                        old(self).buckets()[i].collections(),
                        old(self).buckets()[i].spec_opt_scheme(),
                        old(self).buckets()[i].spec_ret_scheme(),
                    )
                },
    {
        let n = self.buckets.len();
        let mut i: usize = 0;
        while i < n
            invariant
                i <= n,
                n == self.buckets@.len(),
                n == old(self).buckets@.len(),
                old(self).wf(),
                forall|k: int|
                    0 <= k < n ==> {
                        &&& (#[trigger] self.buckets@[k]).wf()
                        &&& self.buckets@[k].spec_opt_scheme() == old(self).buckets@[k].spec_opt_scheme()
                        &&& self.buckets@[k].spec_ret_scheme() == old(self).buckets@[k].spec_ret_scheme()
                    },
                forall|k: int|
                    0 <= k < i ==> encoded_from(
                        (#[trigger] self.buckets@[k]).collections(),
                        old(self).buckets@[k].collections(),
                        old(self).buckets@[k].spec_opt_scheme(),
                        old(self).buckets@[k].spec_ret_scheme(),
                    ),
                forall|k: int| i <= k < n ==> (#[trigger] self.buckets@[k]) == old(self).buckets@[k],
            decreases n - i,
        {
            self.buckets[i].encode();
            i += 1;
        }
    }

    /// What the retrieval primitive is set up with: for every bucket and
    /// every collection, the parameters of each of its levels.
    pub fn pir_setup(&self) -> (params: Vec<Vec<Vec<PirParams>>>)
        ensures
            params@.len() == self.buckets().len(),
            forall|i: int|
                0 <= i < params@.len() ==> {
                    &&& (#[trigger] params@[i])@.len() == self.buckets()[i].collections().len()
                    &&& forall|c: int|
                        0 <= c < params@[i]@.len() ==> params_of(
                            #[trigger] params@[i]@[c]@,
                            self.buckets()[i].collections()[c],
                        )
                },
    {
        let mut params: Vec<Vec<Vec<PirParams>>> = Vec::with_capacity(self.buckets.len());
        let mut i: usize = 0;
        while i < self.buckets.len()
            invariant
                i <= self.buckets@.len(),
                params@.len() == i,
                forall|k: int|
                    0 <= k < i ==> {
                        &&& (#[trigger] params@[k])@.len() == self.buckets@[k].collections().len()
                        &&& forall|c: int|
                            0 <= c < params@[k]@.len() ==> params_of(
                                #[trigger] params@[k]@[c]@,
                                self.buckets@[k].collections()[c],
                            )
                    },
            decreases self.buckets@.len() - i,
        {
            params.push(self.buckets[i].pir_setup());
            i += 1;
        }
        params
    }
}

/// Empty buckets hold no tuples.
pub proof fn lemma_total_tuples_empty(bs: Seq<Bucket>)
    requires
        forall|i: int| 0 <= i < bs.len() ==> (#[trigger] bs[i]).spec_len() == 0,
    ensures
        total_tuples(bs) == 0,
    decreases bs.len(),
{
    if bs.len() > 0 {
        lemma_total_tuples_empty(bs.drop_last());
    }
}

/// Where a list of collections holds no tuple, each of them is empty.
pub proof fn lemma_total_len_zero(cs: Seq<Collection>, c: int)
    requires
        total_len(cs) == 0,
        0 <= c < cs.len(),
    ensures
        cs[c]@.len() == 0,
    decreases cs.len(),
{
    if c < cs.len() - 1 {
        lemma_total_len_zero(cs.drop_last(), c);
    }
}

} // verus!
