//! How a client retrieves: which collections it probes at which indices,
//! and how it puts the answers together. The probes of a round are the
//! same for every client: which bucket, collection and level is probed
//! when, and with which length, follows from the scheme and the sizes of
//! the buckets alone, whatever the client is looking for.

use vstd::prelude::*;
use crate::db::batch::{
    all_tuples, encoded, first_half, h4_parts, label_of, lemma_hybrid4_shape, lemma_hybrid4_sound,
    lemma_laid_out_shape, lemma_part_of_xor_pad, lemma_sort_all_tuples, lemma_sort_by_label,
    lemma_xor_all_one, lemma_xor_all_two, lemma_xor_byte, part_at, parts_at, second_half,
    sort_by_label, spec_num_collections, spec_num_systematic, xor_all, zero_tuple,
};
use crate::db::tuple::xor_bytes;
use crate::db::{
    spec_level_end, spec_level_start, spec_levels, OptScheme, PungTuple, RetScheme, LABEL_SIZE,
    TUPLE_SIZE,
};
use crate::util::bloomfilter::Bloom;
use crate::util::random::random_index;
use crate::util::{
    byte_strings, collection_len, get_idx_bloom, get_index, label_eq, label_lt, lex_lt,
    pow2_u64, spec_collection_len, tree_height,
};
use super::pcrypto::{decrypt, gen_label, spec_decrypt, spec_gen_label, HASH_LIMIT, KEY_SIZE, MESSAGE_SIZE};

use crate::util::random::unseeded_rng;
use rand::ChaChaRng;

verus! {

/// One retrieval: the level of a collection of a bucket, the index in the
/// level, and the number of tuples in the level.
#[derive(PartialEq, Eq, Copy, Clone, Debug, Structural)]
pub struct Probe {
    pub bucket: usize,
    pub collection: u32,
    pub level: u32,
    pub idx: u64,
    pub len: u64,
}

/// What the server sees of a retrieval: everything but the index.
#[derive(PartialEq, Eq, Copy, Clone, Debug, Structural)]
pub struct Shape {
    pub bucket: usize,
    pub collection: u32,
    pub level: u32,
    pub len: u64,
}

impl Probe {
    /// What the server sees of the retrieval.
    pub open spec fn shape(&self) -> Shape {
        Shape { bucket: self.bucket, collection: self.collection, level: self.level, len: self.len }
    }
}

/// What the server sees of a list of retrievals.
pub open spec fn shapes_of(probes: Seq<Probe>) -> Seq<Shape> {
    Seq::new(probes.len(), |i: int| probes[i].shape())
}

/// Whether a label lies at or behind the start of a collection, by the
/// label that the bucket publishes for the collection: the least label
/// of the collection does not come after the label. No label lies in an
/// empty collection, which publishes no bytes.
pub open spec fn reaches(label: Seq<u8>, lmid: Seq<u8>) -> bool {
    lmid.len() > 0 && !lex_lt(label, lmid)
}

/// The collection among the systematic ones that a label lies in, by the
/// labels that the bucket publishes for all but the first: the last
/// whose start the label reaches, or the first. A label that comes
/// before the label published for a collection lies in a collection
/// before it.
pub open spec fn spec_classify(label: Seq<u8>, lmids: Seq<Seq<u8>>) -> nat
    decreases lmids.len(),
{
    if lmids.len() == 0 {
        0
    } else if reaches(label, lmids.last()) {
        lmids.len()
    } else {
        spec_classify(label, lmids.drop_last())
    }
}

/// The systematic collection that a label lies in.
pub fn classify(label: &[u8], lmids: &[Vec<u8>]) -> (home: usize)
    ensures
        home == spec_classify(label@, byte_strings(lmids@)),
        home <= lmids@.len(),
{
    let ghost ls = byte_strings(lmids@);
    let mut home: usize = 0;
    let mut i: usize = 0;
    while i < lmids.len()
        invariant
            i <= lmids@.len(),
            ls == byte_strings(lmids@),
            home == spec_classify(label@, ls.take(i as int)),
            home <= i,
        decreases lmids@.len() - i,
    {
        proof {
            assert(ls.take(i as int + 1).drop_last() =~= ls.take(i as int));
        }
        if lmids[i].len() > 0 && !label_lt(label, lmids[i].as_slice()) {
            home = i + 1;
        }
        i += 1;
    }
    assert(ls.take(lmids@.len() as int) =~= ls);
    home
}

/// The number of tuples of collection `c` of a bucket of `num` tuples.
/// A collection that combines two is as long as the first of them.
pub open spec fn spec_part_len(opt: OptScheme, num: u64, c: nat) -> u64 {
    match opt {
        OptScheme::Normal | OptScheme::Aliasing => num,
        OptScheme::Hybrid2 => if c == 1 {
            spec_collection_len(num as nat, 1, 2) as u64
        } else {
            spec_collection_len(num as nat, 0, 2) as u64
        },
        OptScheme::Hybrid4 => if c < 4 {
            spec_collection_len(num as nat, c, 4) as u64
        } else if c == 5 {
            spec_collection_len(num as nat, 2, 4) as u64
        } else if c == 7 {
            spec_collection_len(num as nat, 1, 4) as u64
        } else {
            spec_collection_len(num as nat, 0, 4) as u64
        },
    }
}

/// The number of tuples of collection `c` of a bucket of `num` tuples.
pub fn part_len(opt: OptScheme, num: u64, c: usize) -> (len: u64)
    requires
        c < spec_num_collections(opt),
    ensures
        len == spec_part_len(opt, num, c as nat),
        len <= num,
{
    match opt {
        OptScheme::Normal | OptScheme::Aliasing => num,
        OptScheme::Hybrid2 => if c == 1 {
            collection_len(num, 1, 2)
        } else {
            collection_len(num, 0, 2)
        },
        OptScheme::Hybrid4 => if c < 4 {
            collection_len(num, c as u32, 4)
        } else if c == 5 {
            collection_len(num, 2, 4)
        } else if c == 7 {
            collection_len(num, 1, 4)
        } else {
            collection_len(num, 0, 4)
        },
    }
}

/// The number of retrievals that a collection of `len` tuples takes: one
/// for each level.
pub fn levels_of_len(len: u64, ret: RetScheme) -> (levels: u32)
    ensures
        levels == spec_levels(len as nat, ret),
        levels <= 64,
{
    if ret == RetScheme::Tree {
        tree_height(len)
    } else {
        1
    }
}

/// The number of tuples in a level of a collection of `len` tuples.
pub open spec fn spec_probe_len(len: u64, ret: RetScheme, level: nat) -> u64 {
    (spec_level_end(len as nat, ret, level) - spec_level_start(len as nat, ret, level)) as u64
}

/// The number of tuples in a level of a collection of `len` tuples.
pub fn probe_len(len: u64, ret: RetScheme, level: u32) -> (n: u64)
    requires
        level < spec_levels(len as nat, ret),
    ensures
        n == spec_probe_len(len, ret, level as nat),
        n <= len,
        ret == RetScheme::Tree ==> n > 0,
{
    if ret != RetScheme::Tree {
        len
    } else {
        proof {
            vstd::arithmetic::power2::lemma2_to64_rest();
            crate::util::lemma_tree_height_bound(len as nat, 64);
            crate::util::lemma_tree_height_pow2(len as nat, level as nat);
            vstd::arithmetic::power2::lemma_pow2_unfold((level + 1) as nat);
            vstd::arithmetic::power2::lemma_pow2_pos(level as nat);
        }
        let pw = pow2_u64(level);
        let start = pw - 1;
        if pw <= len - start - 1 {
            pw
        } else {
            len - start
        }
    }
}

/// The ways to get a tuple of the systematic collection `home` from the
/// collections of a bucket: each alternative names the collections whose
/// tuples at one index combine to the tuple.
pub open spec fn spec_alternative(opt: OptScheme, home: int, alt: int) -> Seq<int> {
    match opt {
        OptScheme::Normal | OptScheme::Aliasing => seq![0int],
        OptScheme::Hybrid2 => if alt == 0 {
            seq![home]
        } else {
            seq![1 - home, 2int]
        },
        OptScheme::Hybrid4 => h4_parts(home, alt),
    }
}

/// The number of alternatives for a tuple.
pub open spec fn spec_alternatives(opt: OptScheme) -> nat {
    match opt {
        OptScheme::Normal | OptScheme::Aliasing => 1,
        OptScheme::Hybrid2 => 2,
        OptScheme::Hybrid4 => 4,
    }
}

/// The number of labels that a client looks for in one bucket in one
/// sweep.
pub open spec fn spec_targets(opt: OptScheme) -> nat {
    match opt {
        OptScheme::Normal | OptScheme::Aliasing => 1,
        OptScheme::Hybrid2 => 2,
        OptScheme::Hybrid4 => 4,
    }
}

/// The collections that an alternative names.
pub fn alternative(opt: OptScheme, home: usize, alt: usize) -> (parts: Vec<usize>)
    requires
        home < spec_targets(opt),
        alt < spec_alternatives(opt),
    ensures
        parts@.len() == spec_alternative(opt, home as int, alt as int).len(),
        forall|k: int| 0 <= k < parts@.len() ==> (#[trigger] parts@[k]) == spec_alternative(opt, home as int, alt as int)[k],
        forall|k: int| 0 <= k < parts@.len() ==> (#[trigger] parts@[k]) < spec_num_collections(opt),
{
    let mut parts: Vec<usize> = Vec::new();
    match opt {
        OptScheme::Normal | OptScheme::Aliasing => {
            parts.push(0);
        },
        OptScheme::Hybrid2 => {
            if alt == 0 {
                parts.push(home);
            } else {
                parts.push(1 - home);
                parts.push(2);
            }
        },
        OptScheme::Hybrid4 => {
            if alt == 0 {
                parts.push(home);
            } else if alt == 1 {
                if home == 0 {
                    parts.push(1);
                    parts.push(4);
                } else if home == 1 {
                    parts.push(0);
                    parts.push(4);
                } else if home == 2 {
                    parts.push(3);
                    parts.push(5);
                } else {
                    parts.push(2);
                    parts.push(5);
                }
            } else if alt == 2 {
                if home == 0 {
                    parts.push(2);
                    parts.push(6);
                } else if home == 1 {
                    parts.push(3);
                    parts.push(7);
                } else if home == 2 {
                    parts.push(0);
                    parts.push(6);
                } else {
                    parts.push(1);
                    parts.push(7);
                }
            } else {
                if home == 0 {
                    parts.push(3);
                    parts.push(5);
                    parts.push(7);
                    parts.push(8);
                } else if home == 1 {
                    parts.push(2);
                    parts.push(5);
                    parts.push(6);
                    parts.push(8);
                } else if home == 2 {
                    parts.push(1);
                    parts.push(4);
                    parts.push(7);
                    parts.push(8);
                } else {
                    parts.push(0);
                    parts.push(4);
                    parts.push(6);
                    parts.push(8);
                }
            }
        },
    }
    parts
}

/// A label that a client looks for in a bucket, with the peer whose key
/// opens the message.
pub struct Scheduled {
    /// The index of the peer among the peers of the client; the number of
    /// peers stands for the dummy peer.
    pub peer: usize,
    pub label: Vec<u8>,
}

/// A label that a client looks for in the current sweep over a bucket,
/// and how far the search is.
pub struct Target {
    pub peer: usize,
    pub label: Vec<u8>,
    /// The systematic collection that the label lies in.
    pub home: usize,
    /// The collections whose tuples combine to the tuples of `home`; none
    /// where no alternative was left.
    pub route: Vec<usize>,
    /// The index in the current level at which the search goes on; `None`
    /// once the label is found or cannot be there.
    pub idx: Option<u64>,
    /// The tuple with the label, once it is found.
    pub found: Option<PungTuple>,
}

/// A target as contracts see it.
pub struct TargetView {
    pub peer: usize,
    pub label: Seq<u8>,
    pub home: usize,
    pub route: Seq<usize>,
    pub idx: Option<u64>,
    pub found: Option<Seq<u8>>,
}

impl View for Target {
    type V = TargetView;

    open spec fn view(&self) -> TargetView {
        TargetView {
            peer: self.peer,
            label: self.label@,
            home: self.home,
            route: self.route@,
            idx: self.idx,
            found: match self.found {
                Some(t) => Some(t@),
                None => None,
            },
        }
    }
}

/// The targets as contracts see them.
pub open spec fn target_views(targets: Seq<Target>) -> Seq<TargetView> {
    Seq::new(targets.len(), |i: int| targets[i]@)
}

/// Whether the collections of an alternative are all still free.
pub open spec fn all_free(parts: Seq<int>, free: Seq<bool>) -> bool {
    forall|k: int| 0 <= k < parts.len() ==> 0 <= #[trigger] parts[k] < free.len() && free[parts[k]]
}

/// The first alternative from `alt` on whose collections are all still
/// free, or the number of alternatives if there is none.
pub open spec fn spec_first_free(opt: OptScheme, home: int, free: Seq<bool>, alt: nat) -> nat
    decreases spec_alternatives(opt) - alt,
{
    if alt >= spec_alternatives(opt) {
        spec_alternatives(opt)
    } else if all_free(spec_alternative(opt, home, alt as int), free) {
        alt
    } else {
        spec_first_free(opt, home, free, alt + 1)
    }
}

/// The collections that are free after those of a route were taken.
pub open spec fn spec_taken(free: Seq<bool>, route: Seq<usize>) -> Seq<bool> {
    Seq::new(free.len(), |c: int| free[c] && !route.contains(c as usize))
}

/// Whether all collections of a route are free.
fn route_free(parts: &Vec<usize>, free: &Vec<bool>, Ghost(spec_parts): Ghost<Seq<int>>) -> (r: bool)
    requires
        parts@.len() == spec_parts.len(),
        forall|k: int| 0 <= k < parts@.len() ==> (#[trigger] parts@[k]) == spec_parts[k],
    ensures
        r == all_free(spec_parts, free@),
{
    let mut k: usize = 0;
    while k < parts.len()
        invariant
            k <= parts@.len(),
            parts@.len() == spec_parts.len(),
            forall|j: int| 0 <= j < parts@.len() ==> (#[trigger] parts@[j]) == spec_parts[j],
            forall|j: int| 0 <= j < k ==> 0 <= #[trigger] spec_parts[j] < free@.len() && free@[spec_parts[j]],
        decreases parts@.len() - k,
    {
        if parts[k] >= free.len() || !free[parts[k]] {
            assert(!(0 <= spec_parts[k as int] < free@.len() && free@[spec_parts[k as int]]));
            return false;
        }
        k += 1;
    }
    true
}

/// The route for a label that lies in the collection `home`: the
/// collections of the first alternative that are all still free; they are
/// free no longer. No collections where no alternative is left.
pub fn choose_route(opt: OptScheme, home: usize, free: &mut Vec<bool>) -> (route: Vec<usize>)
    requires
        home < spec_targets(opt),
        old(free)@.len() == spec_num_collections(opt),
    ensures
        route@ == spec_route(opt, home as int, old(free)@),
        final(free)@ == spec_taken(old(free)@, route@),
        spec_first_free(opt, home as int, old(free)@, 0) == spec_alternatives(opt) ==> route@.len() == 0,
        spec_first_free(opt, home as int, old(free)@, 0) < spec_alternatives(opt) ==> {
            let parts = spec_alternative(opt, home as int, spec_first_free(opt, home as int, old(free)@, 0) as int);
            &&& route@.len() == parts.len()
            &&& forall|k: int| 0 <= k < route@.len() ==> (#[trigger] route@[k]) == parts[k]
        },
        forall|k: int| 0 <= k < route@.len() ==> (#[trigger] route@[k]) < spec_num_collections(opt),
        forall|k: int| 0 <= k < route@.len() ==> old(free)@[(#[trigger] route@[k]) as int],
{
    let count: usize = match opt {
        OptScheme::Normal | OptScheme::Aliasing => 1,
        OptScheme::Hybrid2 => 2,
        OptScheme::Hybrid4 => 4,
    };
    let mut alt: usize = 0;
    while alt < count
        invariant
            alt <= count,
            count == spec_alternatives(opt),
            home < spec_targets(opt),
            *free == *old(free),
            free@.len() == spec_num_collections(opt),
            spec_first_free(opt, home as int, free@, 0) == spec_first_free(opt, home as int, free@, alt as nat),
        decreases count - alt,
    {
        let parts = alternative(opt, home, alt);
        if route_free(&parts, free, Ghost(spec_alternative(opt, home as int, alt as int))) {
            let ghost before = free@;
            let total = free.len();
            let mut k: usize = 0;
            assert(parts@.take(0) =~= Seq::<usize>::empty());
            while k < parts.len()
                invariant
                    k <= parts@.len(),
                    free@.len() == before.len(),
                    forall|j: int| 0 <= j < parts@.len() ==> (#[trigger] parts@[j]) < free@.len(),
                    free@.len() <= usize::MAX,
                    forall|c: usize|
                        c < free@.len() ==> #[trigger] free@[c as int] == (before[c as int] && !parts@.take(k as int).contains(
                            c,
                        )),
                decreases parts@.len() - k,
            {
                let ghost prev = free@;
                free.set(parts[k], false);
                proof {
                    assert forall|c: usize| c < free@.len() implies #[trigger] free@[c as int] == (before[c as int]
                        && !parts@.take(k as int + 1).contains(c)) by {
                        let longer = parts@.take(k as int + 1);
                        let shorter = parts@.take(k as int);
                        assert(prev[c as int] == (before[c as int] && !shorter.contains(c)));
                        if shorter.contains(c) {
                            let w = choose|w: int| 0 <= w < shorter.len() && shorter[w] == c;
                            assert(longer[w] == c);
                        }
                        if c == parts@[k as int] {
                            assert(longer[k as int] == c);
                        }
                        if longer.contains(c) {
                            let w = choose|w: int| 0 <= w < longer.len() && longer[w] == c;
                            if w < k {
                                assert(shorter[w] == c);
                            }
                        }
                    }
                }
                k += 1;
            }
            proof {
                assert(parts@.take(parts@.len() as int) =~= parts@);
                assert forall|c: int| 0 <= c < free@.len() implies free@[c] == spec_taken(before, parts@)[c] by {
                    assert(free@[(c as usize) as int] == (before[(c as usize) as int] && !parts@.contains(c as usize)));
                }
                assert(free@ =~= spec_taken(before, parts@));
                lemma_first_free_found(opt, home as int, before, 0, alt as nat);
                assert(parts@ =~= spec_route(opt, home as int, before));
            }
            return parts;
        }
        alt += 1;
    }
    let route: Vec<usize> = Vec::new();
    proof {
        assert(free@ =~= spec_taken(free@, route@));
        assert(route@ =~= spec_route(opt, home as int, free@));
    }
    route
}

/// The first alternative whose collections are free is the first from any
/// alternative before it on.
proof fn lemma_first_free_found(opt: OptScheme, home: int, free: Seq<bool>, from: nat, alt: nat)
    requires
        from <= alt < spec_alternatives(opt),
        all_free(spec_alternative(opt, home, alt as int), free),
        spec_first_free(opt, home, free, from) == spec_first_free(opt, home, free, alt),
    ensures
        spec_first_free(opt, home, free, from) == alt,
{
}

/// The index at which collection `c` is probed for the targets, in a
/// level of `len` tuples: that of the target whose route the collection
/// is on, if its search is at an index of the level. `None` where any
/// index will do.
pub open spec fn spec_wanted(targets: Seq<TargetView>, c: usize, len: u64, upto: nat) -> Option<u64>
    decreases upto,
{
    if upto == 0 {
        None
    } else if spec_wanted(targets, c, len, (upto - 1) as nat) is Some {
        spec_wanted(targets, c, len, (upto - 1) as nat)
    } else {
        let t = targets[upto - 1];
        if t.route.contains(c) && t.idx is Some && t.idx->0 < len {
            t.idx
        } else {
            None
        }
    }
}

/// Whether a list holds a number.
fn holds(list: &Vec<usize>, c: usize) -> (r: bool)
    ensures
        r == list@.contains(c),
{
    let mut k: usize = 0;
    while k < list.len()
        invariant
            k <= list@.len(),
            forall|j: int| 0 <= j < k ==> list@[j] != c,
        decreases list@.len() - k,
    {
        if list[k] == c {
            return true;
        }
        k += 1;
    }
    false
}

/// The index at which collection `c` is probed for the targets, if it
/// matters.
pub fn wanted(targets: &Vec<Target>, c: usize, len: u64) -> (r: Option<u64>)
    ensures
        r == spec_wanted(target_views(targets@), c, len, targets@.len()),
        r matches Some(j) ==> j < len,
{
    let mut k: usize = 0;
    let ghost views = target_views(targets@);
    while k < targets.len()
        invariant
            k <= targets@.len(),
            views == target_views(targets@),
            spec_wanted(views, c, len, k as nat) is None,
        decreases targets@.len() - k,
    {
        let t = &targets[k];
        if holds(&t.route, c) {
            match t.idx {
                Some(j) => {
                    if j < len {
                        proof {
                            lemma_wanted_prefix(views, c, len, k as nat + 1, targets@.len());
                        }
                        return Some(j);
                    }
                },
                None => {},
            }
        }
        k += 1;
    }
    None
}

/// An index that the first targets want is the index that all want.
pub proof fn lemma_wanted_prefix(targets: Seq<TargetView>, c: usize, len: u64, k: nat, n: nat)
    requires
        k <= n,
        spec_wanted(targets, c, len, k) is Some,
    ensures
        spec_wanted(targets, c, len, n) == spec_wanted(targets, c, len, k),
    decreases n - k,
{
    if k < n {
        lemma_wanted_prefix(targets, c, len, k + 1, n);
    }
}

/// The tuple that the answers give for a target whose search is at index
/// `j`: the combination of the answers of the collections on its route
/// that have a tuple at the index. `None` where an answer is missing or
/// no collection has a tuple there.
pub open spec fn spec_node(route: Seq<usize>, j: u64, answers: Seq<Option<Seq<u8>>>, lens: Seq<u64>, upto: nat) -> Option<
    Seq<u8>,
>
    decreases upto,
{
    if upto == 0 {
        Some(zero_tuple())
    } else {
        let c = route[upto - 1] as int;
        match spec_node(route, j, answers, lens, (upto - 1) as nat) {
            None => None,
            Some(acc) => if j >= lens[c] {
                Some(acc)
            } else {
                match answers[c] {
                    None => None,
                    Some(t) => Some(xor_bytes(acc, t)),
                }
            },
        }
    }
}

/// The answers as contracts see them.
pub open spec fn answer_views(answers: Seq<Option<PungTuple>>) -> Seq<Option<Seq<u8>>> {
    Seq::new(
        answers.len(),
        |i: int|
            match answers[i] {
                Some(t) => Some(t@),
                None => None,
            },
    )
}

/// The tuple that the answers give for a target whose search is at index
/// `j`.
pub fn node(route: &Vec<usize>, j: u64, answers: &Vec<Option<PungTuple>>, lens: &Vec<u64>) -> (r: Option<PungTuple>)
    requires
        answers@.len() == lens@.len(),
        forall|k: int| 0 <= k < route@.len() ==> (#[trigger] route@[k]) < lens@.len(),
    ensures
        match r {
            Some(t) => spec_node(route@, j, answer_views(answers@), lens@, route@.len()) == Some(t@),
            None => spec_node(route@, j, answer_views(answers@), lens@, route@.len()) is None,
        },
{
    let mut acc = PungTuple::default();
    let mut k: usize = 0;
    while k < route.len()
        invariant
            k <= route@.len(),
            answers@.len() == lens@.len(),
            forall|i: int| 0 <= i < route@.len() ==> (#[trigger] route@[i]) < lens@.len(),
            spec_node(route@, j, answer_views(answers@), lens@, k as nat) == Some(acc@),
        decreases route@.len() - k,
    {
        let c = route[k];
        if j < lens[c] {
            match &answers[c] {
                None => {
                    proof {
                        lemma_node_none(route@, j, answer_views(answers@), lens@, k as nat + 1, route@.len());
                    }
                    return None;
                },
                Some(t) => {
                    acc = acc.xor(t);
                },
            }
        }
        k += 1;
    }
    Some(acc)
}

/// Once an answer is missing, the tuple is.
pub proof fn lemma_node_none(route: Seq<usize>, j: u64, answers: Seq<Option<Seq<u8>>>, lens: Seq<u64>, k: nat, n: nat)
    requires
        k <= n,
        spec_node(route, j, answers, lens, k) is None,
    ensures
        spec_node(route, j, answers, lens, n) is None,
    decreases n - k,
{
    if k < n {
        lemma_node_none(route, j, answers, lens, k + 1, n);
    }
}

/// Where the search of a target goes after the tuple at its index was
/// seen.
///
/// Where labels are found in a list or by a filter, the label is found if
/// the tuple has it, and the search ends either way. In a tree the search
/// goes down: to the left child where the label of the tuple comes after
/// the label, to the right child where it comes before, as long as the
/// next level has that child; it has found the label where the tuple has
/// it. A search whose tuple is missing ends.
pub open spec fn spec_step(t: TargetView, seen: Option<Seq<u8>>, ret: RetScheme, next_len: u64) -> TargetView {
    if t.idx is None {
        t
    } else if seen is None {
        TargetView { idx: None, ..t }
    } else if label_of(seen->0) == t.label {
        TargetView { idx: None, found: seen, ..t }
    } else if ret != RetScheme::Tree {
        TargetView { idx: None, ..t }
    } else {
        let j = t.idx->0;
        let child = if lex_lt(t.label, label_of(seen->0)) {
            2 * j
        } else {
            2 * j + 1
        };
        if child < next_len {
            TargetView { idx: Some(child as u64), ..t }
        } else {
            TargetView { idx: None, ..t }
        }
    }
}

/// Moves the search of a target on after the tuple at its index was
/// seen; `next_len` is the number of tuples in the next level of its
/// collection, 0 where there is none.
pub fn step(t: &mut Target, seen: Option<PungTuple>, ret: RetScheme, next_len: u64)
    ensures
        final(t)@ == spec_step(
            old(t)@,
            match seen {
                Some(s) => Some(s@),
                None => None,
            },
            ret,
            next_len,
        ),
{
    let j = match t.idx {
        Some(j) => j,
        None => {
            return ;
        },
    };
    let s = match seen {
        Some(s) => s,
        None => {
            t.idx = None;
            return ;
        },
    };
    if label_eq(s.label(), t.label.as_slice()) {
        t.idx = None;
        t.found = Some(s);
    } else if ret != RetScheme::Tree {
        t.idx = None;
    } else {
        let right = !label_lt(t.label.as_slice(), s.label());
        if j > (u64::MAX - 1) / 2 {
            t.idx = None;
        } else {
            let child = if right {
                2 * j + 1
            } else {
                2 * j
            };
            if child < next_len {
                t.idx = Some(child);
            } else {
                t.idx = None;
            }
        }
    }
}

/// What the server sees of the retrievals of a round depends on: the
/// schemes, the number of sweeps, and the number of tuples of each
/// bucket.
pub struct Params {
    pub opt: OptScheme,
    pub ret: RetScheme,
    pub retries: u32,
    pub nums: Seq<u64>,
}

/// How far the retrievals of a round are: the sweep, the bucket, and the
/// level.
#[derive(PartialEq, Eq, Copy, Clone, Debug, Structural)]
pub struct Position {
    pub retry: u32,
    pub bucket: usize,
    pub level: u32,
}

/// The number of steps that a sweep takes over a bucket of `num` tuples:
/// one for each level of its largest collection, and one for a bucket
/// without any.
pub open spec fn spec_slot_batches(opt: OptScheme, ret: RetScheme, num: u64) -> nat {
    let levels = spec_levels(spec_part_len(opt, num, 0) as nat, ret);
    if levels == 0 {
        1
    } else {
        levels
    }
}

/// Whether the retrievals of the round are made.
pub open spec fn spec_done(p: Params, pos: Position) -> bool {
    p.nums.len() == 0 || pos.retry >= p.retries
}

/// The position after a step.
pub open spec fn spec_next(p: Params, pos: Position) -> Position {
    if pos.level + 1 < spec_slot_batches(p.opt, p.ret, p.nums[pos.bucket as int]) {
        Position { level: (pos.level + 1) as u32, ..pos }
    } else if pos.bucket + 1 < p.nums.len() {
        Position { bucket: (pos.bucket + 1) as usize, level: 0, ..pos }
    } else {
        Position { retry: (pos.retry + 1) as u32, bucket: 0, level: 0 }
    }
}

/// What the server sees of the retrievals of one step, for the first
/// `upto` collections of the bucket: one retrieval for each collection
/// that has the level.
pub open spec fn spec_shapes(opt: OptScheme, ret: RetScheme, num: u64, bucket: usize, level: u32, upto: nat) -> Seq<Shape>
    decreases upto,
{
    if upto == 0 {
        Seq::empty()
    } else {
        let c = (upto - 1) as nat;
        let len = spec_part_len(opt, num, c);
        let before = spec_shapes(opt, ret, num, bucket, level, c);
        if level < spec_levels(len as nat, ret) {
            before.push(Shape { bucket, collection: c as u32, level, len: spec_probe_len(len, ret, level as nat) })
        } else {
            before
        }
    }
}

/// What the server sees of the retrievals of the step at a position.
pub open spec fn spec_batch(p: Params, pos: Position) -> Seq<Shape> {
    if spec_done(p, pos) {
        Seq::empty()
    } else {
        spec_shapes(p.opt, p.ret, p.nums[pos.bucket as int], pos.bucket, pos.level, spec_num_collections(p.opt))
    }
}

/// The answers of one step by collection, for the first `upto`
/// collections: the answers come in the order of the retrievals; a
/// collection without the level has none, and so has one whose answer is
/// not there.
pub open spec fn spec_spread(
    results: Seq<Option<Seq<u8>>>,
    opt: OptScheme,
    ret: RetScheme,
    num: u64,
    level: u32,
    upto: nat,
) -> Seq<Option<Seq<u8>>>
    decreases upto,
{
    if upto == 0 {
        Seq::empty()
    } else {
        let c = (upto - 1) as nat;
        let before = spec_spread(results, opt, ret, num, level, c);
        let k = spec_shapes(opt, ret, num, 0, level, c).len();
        if level < spec_levels(spec_part_len(opt, num, c) as nat, ret) && k < results.len() {
            before.push(results[k as int])
        } else {
            before.push(None)
        }
    }
}

/// The number of tuples in the level of each of the first `upto`
/// collections; 0 for a collection without the level.
pub open spec fn spec_lens(opt: OptScheme, ret: RetScheme, num: u64, level: u32, upto: nat) -> Seq<u64>
    decreases upto,
{
    if upto == 0 {
        Seq::empty()
    } else {
        let c = (upto - 1) as nat;
        let len = spec_part_len(opt, num, c);
        spec_lens(opt, ret, num, level, c).push(
            if level < spec_levels(len as nat, ret) {
                spec_probe_len(len, ret, level as nat)
            } else {
                0
            },
        )
    }
}

/// The number of tuples in a level of the collection `home`; 0 where the
/// collection does not have the level.
pub open spec fn spec_level_len(opt: OptScheme, ret: RetScheme, num: u64, home: usize, level: nat) -> u64 {
    let len = spec_part_len(opt, num, home as nat);
    if level < spec_levels(len as nat, ret) {
        spec_probe_len(len, ret, level)
    } else {
        0
    }
}

/// The number of tuples in a level of the collection `home`; 0 where the
/// collection does not have the level.
pub fn level_len(opt: OptScheme, ret: RetScheme, num: u64, home: usize, level: u32) -> (n: u64)
    requires
        home < spec_num_collections(opt),
    ensures
        n == spec_level_len(opt, ret, num, home, level as nat),
{
    let len = part_len(opt, num, home);
    if level < levels_of_len(len, ret) {
        probe_len(len, ret, level)
    } else {
        0
    }
}

/// The tuple that a target sees in a step, from the answers by
/// collection.
pub open spec fn spec_seen(t: TargetView, answers: Seq<Option<Seq<u8>>>, lens: Seq<u64>) -> Option<Seq<u8>> {
    if t.idx is Some {
        spec_node(t.route, t.idx->0, answers, lens, t.route.len())
    } else {
        None
    }
}

/// The messages that the targets of a sweep over a bucket give, for the
/// first `upto` targets: for every target that found its tuple, the
/// message that the tuple decrypts to under the key of its peer, if it
/// does.
pub open spec fn spec_harvest(targets: Seq<TargetView>, keys: Seq<Seq<u8>>, round: u64, upto: nat) -> Seq<Seq<u8>>
    decreases upto,
{
    if upto == 0 {
        Seq::empty()
    } else {
        let before = spec_harvest(targets, keys, round, (upto - 1) as nat);
        let t = targets[upto - 1];
        match t.found {
            None => before,
            Some(tuple) => {
                let opened = spec_decrypt(
                    keys[t.peer as int],
                    round,
                    tuple.subrange(LABEL_SIZE as int, LABEL_SIZE + MESSAGE_SIZE),
                    tuple.subrange(LABEL_SIZE + MESSAGE_SIZE, TUPLE_SIZE as int),
                );
                if opened.0 {
                    before.push(opened.1)
                } else {
                    before
                }
            },
        }
    }
}

/// The answers of a step by collection, and the number of tuples in the
/// level of each collection.
pub fn spread(results: &[Option<PungTuple>], opt: OptScheme, ret: RetScheme, num: u64, level: u32) -> (r: (
    Vec<Option<PungTuple>>,
    Vec<u64>,
))
    ensures
        answer_views(r.0@) == spec_spread(answer_views(results@), opt, ret, num, level, spec_num_collections(opt)),
        r.1@ == spec_lens(opt, ret, num, level, spec_num_collections(opt)),
        r.0@.len() == spec_num_collections(opt),
        r.1@.len() == spec_num_collections(opt),
{
    let count: usize = match opt {
        OptScheme::Normal | OptScheme::Aliasing => 1,
        OptScheme::Hybrid2 => 3,
        OptScheme::Hybrid4 => 9,
    };
    let ghost rs = answer_views(results@);
    let mut answers: Vec<Option<PungTuple>> = Vec::with_capacity(count);
    let mut lens: Vec<u64> = Vec::with_capacity(count);
    let mut k: usize = 0;
    let mut c: usize = 0;
    assert(answer_views(answers@) =~= spec_spread(rs, opt, ret, num, level, 0));
    while c < count
        invariant
            c <= count,
            count == spec_num_collections(opt),
            rs == answer_views(results@),
            k == spec_shapes(opt, ret, num, 0, level, c as nat).len(),
            k <= c,
            answers@.len() == c,
            lens@.len() == c,
            answer_views(answers@) == spec_spread(rs, opt, ret, num, level, c as nat),
            lens@ == spec_lens(opt, ret, num, level, c as nat),
        decreases count - c,
    {
        let len = part_len(opt, num, c);
        let ghost before = answer_views(answers@);
        if level < levels_of_len(len, ret) {
            if k < results.len() {
                answers.push(results[k]);
                assert(answer_views(answers@) =~= before.push(rs[k as int]));
            } else {
                answers.push(None);
                assert(answer_views(answers@) =~= before.push(None));
            }
            lens.push(probe_len(len, ret, level));
            k += 1;
        } else {
            answers.push(None);
            assert(answer_views(answers@) =~= before.push(None));
            lens.push(0);
        }
        c += 1;
    }
    (answers, lens)
}

/// Moves the searches of the targets on after a step: each sees the tuple
/// that the answers give at its index.
pub fn step_targets(
    targets: &mut Vec<Target>,
    answers: &Vec<Option<PungTuple>>,
    lens: &Vec<u64>,
    opt: OptScheme,
    ret: RetScheme,
    num: u64,
    level: u32,
)
    requires
        answers@.len() == lens@.len(),
        answers@.len() == spec_num_collections(opt),
        level < u32::MAX,
        forall|i: int, k: int|
            0 <= i < old(targets)@.len() && 0 <= k < old(targets)@[i].route@.len() ==> (#[trigger] old(targets)@[i].route@[k])
                < spec_num_collections(opt),
        forall|i: int| 0 <= i < old(targets)@.len() ==> (#[trigger] old(targets)@[i]).home < spec_num_collections(opt),
    ensures
        final(targets)@.len() == old(targets)@.len(),
        forall|i: int|
            0 <= i < old(targets)@.len() ==> (#[trigger] final(targets)@[i])@ == spec_step(
                old(targets)@[i]@,
                spec_seen(old(targets)@[i]@, answer_views(answers@), lens@),
                ret,
                spec_level_len(opt, ret, num, old(targets)@[i].home, level as nat + 1),
            ),
{
    let n = targets.len();
    let mut i: usize = 0;
    while i < n
        invariant
            i <= n,
            n == targets@.len(),
            n == old(targets)@.len(),
            answers@.len() == lens@.len(),
            answers@.len() == spec_num_collections(opt),
            level < u32::MAX,
            forall|a: int, k: int|
                0 <= a < old(targets)@.len() && 0 <= k < old(targets)@[a].route@.len() ==> (#[trigger] old(targets)@[a].route@[k])
                    < spec_num_collections(opt),
            forall|a: int| 0 <= a < old(targets)@.len() ==> (#[trigger] old(targets)@[a]).home < spec_num_collections(opt),
            forall|a: int| i <= a < n ==> (#[trigger] targets@[a]) == old(targets)@[a],
            forall|a: int|
                0 <= a < i ==> (#[trigger] targets@[a])@ == spec_step(
                    old(targets)@[a]@,
                    spec_seen(old(targets)@[a]@, answer_views(answers@), lens@),
                    ret,
                    spec_level_len(opt, ret, num, old(targets)@[a].home, level as nat + 1),
                ),
        decreases n - i,
    {
        let seen = match targets[i].idx {
            Some(j) => {
                assert(forall|k: int|
                    0 <= k < old(targets)@[i as int].route@.len() ==> (#[trigger] old(targets)@[i as int].route@[k])
                        < spec_num_collections(opt));
                node(&targets[i].route, j, answers, lens)
            },
            None => None,
        };
        let next_len = level_len(opt, ret, num, targets[i].home, level + 1);
        step(&mut targets[i], seen, ret, next_len);
        i += 1;
    }
}

/// Decrypts what the targets of a sweep over a bucket found: the messages
/// go to the end of the list.
pub fn harvest(targets: &Vec<Target>, keys: &Vec<Vec<u8>>, round: u64, messages: &mut Vec<Vec<u8>>)
    requires
        forall|i: int| 0 <= i < targets@.len() ==> (#[trigger] targets@[i]).peer < keys@.len(),
        forall|i: int| 0 <= i < keys@.len() ==> (#[trigger] keys@[i])@.len() == KEY_SIZE,
    ensures
        byte_strings(final(messages)@) == byte_strings(old(messages)@) + spec_harvest(
            target_views(targets@),
            byte_strings(keys@),
            round,
            targets@.len(),
        ),
{
    let ghost base = byte_strings(messages@);
    let ghost views = target_views(targets@);
    let ghost ks = byte_strings(keys@);
    let mut i: usize = 0;
    assert(byte_strings(messages@) =~= base + spec_harvest(views, ks, round, 0));
    while i < targets.len()
        invariant
            i <= targets@.len(),
            views == target_views(targets@),
            ks == byte_strings(keys@),
            forall|a: int| 0 <= a < targets@.len() ==> (#[trigger] targets@[a]).peer < keys@.len(),
            forall|a: int| 0 <= a < keys@.len() ==> (#[trigger] keys@[a])@.len() == KEY_SIZE,
            byte_strings(messages@) == base + spec_harvest(views, ks, round, i as nat),
        decreases targets@.len() - i,
    {
        let t = &targets[i];
        let ghost before = byte_strings(messages@);
        match &t.found {
            None => {},
            Some(tuple) => {
                let key = keys[t.peer].as_slice();
                match decrypt(key, round, tuple.cipher(), tuple.mac()) {
                    Ok(m) => {
                        let ghost mv = m@;
                        messages.push(m);
                        assert(byte_strings(messages@) =~= before.push(mv));
                    },
                    Err(_) => {},
                }
            },
        }
        i += 1;
    }
}

/// A scheduled label as contracts see it.
pub struct ScheduledView {
    pub peer: usize,
    pub label: Seq<u8>,
}

impl View for Scheduled {
    type V = ScheduledView;

    open spec fn view(&self) -> ScheduledView {
        ScheduledView { peer: self.peer, label: self.label@ }
    }
}

/// The labels scheduled for each bucket as contracts see them.
pub open spec fn map_view(map: Seq<Vec<Scheduled>>) -> Seq<Seq<ScheduledView>> {
    Seq::new(map.len(), |b: int| Seq::new(map[b]@.len(), |i: int| map[b]@[i]@))
}

/// The schedule after a label was placed: the label goes to the bucket of
/// its first label; where messages are stored twice, it goes to the
/// bucket of the second label, as that label, if fewer labels are
/// scheduled there.
pub open spec fn spec_place(
    map: Seq<Seq<ScheduledView>>,
    peer: usize,
    label: Seq<u8>,
    first: int,
    alias: Option<(Seq<u8>, int)>,
) -> Seq<Seq<ScheduledView>> {
    match alias {
        Some((second_label, second)) => if map[first].len() <= map[second].len() {
            map.update(first, map[first].push(ScheduledView { peer, label }))
        } else {
            map.update(second, map[second].push(ScheduledView { peer, label: second_label }))
        },
        None => map.update(first, map[first].push(ScheduledView { peer, label })),
    }
}

/// Schedules a label of a peer: in the bucket `first` of its first label,
/// or, of the two buckets of a message that is stored twice, in the one
/// with fewer labels so far, the first of them if they have as many.
pub fn place(map: &mut Vec<Vec<Scheduled>>, peer: usize, label: Vec<u8>, first: usize, alias: Option<(Vec<u8>, usize)>)
    requires
        first < old(map)@.len(),
        alias matches Some((_, second)) ==> second < old(map)@.len(),
    ensures
        final(map)@.len() == old(map)@.len(),
        map_view(final(map)@) == spec_place(
            map_view(old(map)@),
            peer,
            label@,
            first as int,
            match alias {
                Some((l, b)) => Some((l@, b as int)),
                None => None,
            },
        ),
{
    let ghost before = map_view(map@);
    match alias {
        Some((second_label, second)) => {
            if map[first].len() <= map[second].len() {
                let ghost entry = ScheduledView { peer, label: label@ };
                map[first].push(Scheduled { peer, label });
                assert(map_view(map@) =~~= before.update(first as int, before[first as int].push(entry)));
            } else {
                let ghost entry = ScheduledView { peer, label: second_label@ };
                map[second].push(Scheduled { peer, label: second_label });
                assert(map_view(map@) =~~= before.update(second as int, before[second as int].push(entry)));
            }
        },
        None => {
            let ghost entry = ScheduledView { peer, label: label@ };
            map[first].push(Scheduled { peer, label });
            assert(map_view(map@) =~~= before.update(first as int, before[first as int].push(entry)));
        },
    }
}

/// The label that a client looks for next in a bucket: the label that
/// was scheduled last for the bucket, or, where none is left, a label of
/// the dummy peer, so that the retrieval is made all the same.
pub fn next_label(
    map: &mut Vec<Vec<Scheduled>>,
    bucket: usize,
    dummy_key: &[u8],
    round: u64,
    dummy_uid: u64,
    dummy_peer: usize,
    dummy_count: &mut u64,
) -> (s: Scheduled)
    requires
        bucket < old(map)@.len(),
        dummy_key@.len() < HASH_LIMIT,
    ensures
        final(map)@.len() == old(map)@.len(),
        old(map)@[bucket as int]@.len() > 0 ==> {
            &&& s@ == old(map)@[bucket as int]@.last()@
            &&& map_view(final(map)@) == map_view(old(map)@).update(
                bucket as int,
                map_view(old(map)@)[bucket as int].drop_last(),
            )
            &&& *final(dummy_count) == *old(dummy_count)
        },
        old(map)@[bucket as int]@.len() == 0 ==> {
            &&& s.peer == dummy_peer
            &&& s.label@ == spec_gen_label(dummy_key@, round, dummy_uid, *old(dummy_count), 0)
            &&& map_view(final(map)@) == map_view(old(map)@)
            &&& *final(dummy_count) == if *old(dummy_count) < u64::MAX {
                (*old(dummy_count) + 1) as u64
            } else {
                u64::MAX
            }
        },
{
    let ghost before = map_view(map@);
    if map[bucket].len() > 0 {
        let s = map[bucket].pop().unwrap();
        assert(map_view(map@) =~~= before.update(bucket as int, before[bucket as int].drop_last()));
        s
    } else {
        let label = gen_label(dummy_key, round, dummy_uid, *dummy_count, 0);
        if *dummy_count < u64::MAX {
            *dummy_count = *dummy_count + 1;
        }
        assert(map_view(map@) =~~= before);
        Scheduled { peer: dummy_peer, label }
    }
}

/// How a client finds the index of a label in a collection.
pub enum LabelIndex {
    /// The labels of every systematic collection of every bucket, one
    /// collection after the other.
    Explicit(Vec<Vec<Vec<u8>>>),
    /// The filter of every systematic collection of every bucket, one
    /// collection after the other.
    Bloom(Vec<Bloom>),
    /// By descent in the tree of the collection.
    Tree,
}

/// What a retrieval keeps to itself: what the client looks for, and what
/// it has found.
pub struct Core {
    pub opt: OptScheme,
    pub ret: RetScheme,
    pub round: u64,
    pub retries: u32,
    pub nums: Vec<u64>,
    pub lmids: Vec<Vec<Vec<u8>>>,
    pub pos: Position,
    pub map: Vec<Vec<Scheduled>>,
    pub dummy_count: u64,
    pub keys: Vec<Vec<u8>>,
    pub dummy_key: Vec<u8>,
    pub dummy_uid: u64,
    pub index: LabelIndex,
    pub targets: Vec<Target>,
    pub messages: Vec<Vec<u8>>,
}

impl Core {
    /// What the server sees of the retrievals depends on.
    pub open spec fn params(&self) -> Params {
        Params { opt: self.opt, ret: self.ret, retries: self.retries, nums: self.nums@ }
    }

    /// Whether all retrievals are made.
    pub open spec fn done(&self) -> bool {
        spec_done(self.params(), self.pos)
    }

    /// The parts fit together: there is a schedule and the published
    /// labels for every bucket, a key for every peer and the dummy peer,
    /// and the index covers every systematic collection; the targets
    /// name peers and collections that exist.
    pub open spec fn wf(&self) -> bool {
        &&& self.nums@.len() <= u32::MAX
        &&& self.lmids@.len() == self.nums@.len()
        &&& self.map@.len() == self.nums@.len()
        &&& forall|b: int| 0 <= b < self.lmids@.len() ==> (#[trigger] self.lmids@[b])@.len() + 1 == spec_num_systematic(self.opt)
        &&& self.keys@.len() > 0
        &&& forall|i: int| 0 <= i < self.keys@.len() ==> (#[trigger] self.keys@[i])@.len() == KEY_SIZE
        &&& self.dummy_key@.len() == KEY_SIZE
        &&& forall|b: int, i: int|
            0 <= b < self.map@.len() && 0 <= i < self.map@[b]@.len() ==> (#[trigger] self.map@[b]@[i]).peer < self.keys@.len()
        &&& match self.index {
            LabelIndex::Explicit(lists) => lists@.len() == self.nums@.len() * spec_num_systematic(self.opt),
            LabelIndex::Bloom(filters) => filters@.len() == self.nums@.len() * spec_num_systematic(self.opt),
            LabelIndex::Tree => true,
        }
        &&& !self.done() ==> self.pos.bucket < self.nums@.len() && self.pos.level < spec_slot_batches(
            self.opt,
            self.ret,
            self.nums@[self.pos.bucket as int],
        )
        &&& self.targets_wf()
    }

    /// The targets name peers and collections that exist.
    pub open spec fn targets_wf(&self) -> bool {
        forall|i: int|
            0 <= i < self.targets@.len() ==> {
                &&& (#[trigger] self.targets@[i]).peer < self.keys@.len()
                &&& self.targets@[i].home < spec_num_systematic(self.opt)
                &&& forall|k: int|
                    0 <= k < self.targets@[i].route@.len() ==> (#[trigger] self.targets@[i].route@[k]) < spec_num_collections(
                        self.opt,
                    )
            }
    }

    /// Whether `idx` is where the search for a label starts in the
    /// collection `home` of the bucket of the position.
    ///
    /// In a tree the search starts at the root, if there is one. In a
    /// list of labels it starts at an index that holds the label; where
    /// it starts nowhere, a list in ascending order with a label for
    /// every tuple of the collection does not hold the label. With a
    /// filter it starts at the first index for which the filter answers
    /// yes, and nowhere if there is none.
    pub open spec fn located(&self, label: Seq<u8>, home: usize, idx: Option<u64>) -> bool {
        let len = spec_part_len(self.opt, self.nums@[self.pos.bucket as int], home as nat);
        let at = self.pos.bucket * spec_num_systematic(self.opt) + home;
        if self.ret == RetScheme::Tree {
            idx == if len > 0 {
                Some(0u64)
            } else {
                None
            }
        } else {
            match self.index {
                LabelIndex::Explicit(lists) => {
                    &&& idx matches Some(j) ==> j < len && j < lists@[at]@.len() && lists@[at]@[j as int]@ == label
                    &&& idx is None && crate::util::labels_sorted(byte_strings(lists@[at]@)) && lists@[at]@.len()
                        <= len ==> forall|j: int| 0 <= j < lists@[at]@.len() ==> (#[trigger] lists@[at]@[j])@ != label
                },
                LabelIndex::Bloom(filters) => {
                    &&& idx matches Some(j) ==> j < len && filters@[at].spec_check(j, label) && forall|i: u64|
                        i < j ==> !#[trigger] filters@[at].spec_check(i, label)
                    &&& idx is None ==> forall|i: u64| i < len ==> !#[trigger] filters@[at].spec_check(i, label)
                },
                LabelIndex::Tree => idx is None,
            }
        }
    }

    /// Where the search for a label starts in the collection `home` of
    /// the bucket of the position, as far as the client can tell before
    /// it retrieves.
    pub fn lookup(&self, label: &[u8], home: usize) -> (r: Option<u64>)
        requires
            self.wf(),
            !self.done(),
            home < spec_num_systematic(self.opt),
        ensures
            self.located(label@, home, r),
            r matches Some(j) ==> j < spec_part_len(self.opt, self.nums@[self.pos.bucket as int], home as nat),
    {
        let systematic: usize = match self.opt {
            OptScheme::Normal | OptScheme::Aliasing => 1,
            OptScheme::Hybrid2 => 2,
            OptScheme::Hybrid4 => 4,
        };
        let len = part_len(self.opt, self.nums[self.pos.bucket], home);
        if self.ret == RetScheme::Tree {
            return if len > 0 {
                Some(0)
            } else {
                None
            };
        }
        assert(self.pos.bucket * systematic + home < self.nums@.len() * systematic) by (nonlinear_arith)
            requires
                self.pos.bucket < self.nums@.len(),
                home < systematic,
        ;
        assert(self.pos.bucket * systematic >= 0) by (nonlinear_arith);
        match &self.index {
            LabelIndex::Explicit(lists) => {
                let total = lists.len();
                let at = self.pos.bucket * systematic + home;
                match get_index(lists[at].as_slice(), label) {
                    Some(j) => if j < len {
                        Some(j)
                    } else {
                        None
                    },
                    None => None,
                }
            },
            LabelIndex::Bloom(filters) => {
                let total = filters.len();
                let at = self.pos.bucket * systematic + home;
                get_idx_bloom(&filters[at], label, len)
            },
            LabelIndex::Tree => None,
        }
    }

    /// Whether `after` is the state at the start of the sweep over the
    /// bucket of its position, from the schedule of `before`.
    ///
    /// As many labels as the scheme looks for in one sweep are taken from
    /// the schedule of the bucket. Each lies in the collection that the
    /// labels published for the bucket say, gets the route of the first
    /// alternative whose collections are free after the routes of the
    /// labels before it, and starts its search where `located` says; a
    /// label without a route is not searched for.
    pub open spec fn sweep_started(before: Core, after: Core) -> bool {
        Core::sweep_started_from(
            map_view(before.map@),
            before.dummy_key@,
            before.dummy_uid,
            (before.keys@.len() - 1) as usize,
            before.dummy_count,
            after,
        )
    }

    /// Whether `after` is the state at the start of the sweep over the
    /// bucket of its position, from a schedule, the key and the uid of
    /// the dummy peer, its place among the peers, and the number of dummy
    /// labels so far.
    pub open spec fn sweep_started_from(
        map: Seq<Seq<ScheduledView>>,
        dummy_key: Seq<u8>,
        dummy_uid: u64,
        dummy_peer: usize,
        dummy_count: u64,
        after: Core,
    ) -> bool {
        let bucket = after.pos.bucket as int;
        let count = spec_targets(after.opt);
        let taken = spec_taken_labels(map, bucket, dummy_key, after.round, dummy_uid, dummy_peer, dummy_count, count);
        let homes = spec_homes(taken.0, byte_strings(after.lmids@[bucket]@), after.opt);
        &&& after.targets@.len() == count
        &&& map_view(after.map@) == taken.1
        &&& after.dummy_count == taken.2
        &&& forall|i: int|
            0 <= i < count ==> {
                &&& (#[trigger] after.targets@[i]).peer == taken.0[i].peer
                &&& after.targets@[i].label@ == taken.0[i].label
                &&& after.targets@[i].home == homes[i]
                &&& after.targets@[i].route@ == spec_routes(after.opt, homes, count).0[i]
                &&& after.targets@[i].found is None
                &&& if after.targets@[i].route@.len() == 0 {
                    after.targets@[i].idx is None
                } else {
                    after.located(after.targets@[i].label@, after.targets@[i].home, after.targets@[i].idx)
                }
            }
    }

    /// Starts the sweep over the bucket of the position: takes the labels
    /// to look for in the bucket, and decides for each in which
    /// collection it lies and from which collections its tuple comes.
    fn begin_slot(&mut self)
        requires
            old(self).wf(),
            !old(self).done(),
        ensures
            final(self).wf(),
            final(self).params() == old(self).params(),
            final(self).pos == old(self).pos,
            final(self).round == old(self).round,
            final(self).keys == old(self).keys,
            final(self).messages == old(self).messages,
            final(self).lmids == old(self).lmids,
            final(self).index == old(self).index,
            final(self).dummy_key == old(self).dummy_key,
            final(self).dummy_uid == old(self).dummy_uid,
            Core::sweep_started(*old(self), *final(self)),
    {
        let count: usize = match self.opt {
            OptScheme::Normal | OptScheme::Aliasing => 1,
            OptScheme::Hybrid2 => 2,
            OptScheme::Hybrid4 => 4,
        };
        let parts: usize = match self.opt {
            OptScheme::Normal | OptScheme::Aliasing => 1,
            OptScheme::Hybrid2 => 3,
            OptScheme::Hybrid4 => 9,
        };
        let bucket = self.pos.bucket;
        let dummy_peer = self.keys.len() - 1;
        let mut free: Vec<bool> = vec![true; parts];
        let mut targets: Vec<Target> = Vec::with_capacity(count);
        let ghost start = *self;
        let ghost lm = byte_strings(self.lmids@[bucket as int]@);
        let ghost map0 = map_view(self.map@);
        let ghost all = spec_taken_labels(
            map0,
            bucket as int,
            self.dummy_key@,
            self.round,
            self.dummy_uid,
            dummy_peer,
            self.dummy_count,
            count as nat,
        );
        let ghost homes = spec_homes(all.0, lm, self.opt);
        let mut i: usize = 0;
        proof {
            assert(free@ =~= spec_routes(self.opt, homes, 0).1);
            lemma_taken_labels(
                map0,
                bucket as int,
                self.dummy_key@,
                self.round,
                self.dummy_uid,
                dummy_peer,
                self.dummy_count,
                count as nat,
                0,
            );
            lemma_routes_len(self.opt, homes, count as nat);
        }
        while i < count
            invariant
                i <= count,
                count == spec_targets(self.opt),
                parts == spec_num_collections(self.opt),
                free@.len() == parts,
                bucket == self.pos.bucket,
                dummy_peer == self.keys@.len() - 1,
                self.wf(),
                !self.done(),
                self.opt == start.opt,
                self.ret == start.ret,
                self.retries == start.retries,
                self.nums == start.nums,
                self.pos == start.pos,
                self.round == start.round,
                self.keys == start.keys,
                self.messages == start.messages,
                self.lmids == start.lmids,
                self.index == start.index,
                self.dummy_key == start.dummy_key,
                self.dummy_uid == start.dummy_uid,
                start.wf(),
                lm == byte_strings(start.lmids@[bucket as int]@),
                map0 == map_view(start.map@),
                all == spec_taken_labels(
                    map0,
                    bucket as int,
                    start.dummy_key@,
                    start.round,
                    start.dummy_uid,
                    dummy_peer,
                    start.dummy_count,
                    count as nat,
                ),
                homes == spec_homes(all.0, lm, start.opt),
                all.0.len() == count,
                spec_routes(start.opt, homes, count as nat).0.len() == count,
                (map_view(self.map@), self.dummy_count) == ({
                    let t = spec_taken_labels(
                        map0,
                        bucket as int,
                        start.dummy_key@,
                        start.round,
                        start.dummy_uid,
                        dummy_peer,
                        start.dummy_count,
                        i as nat,
                    );
                    (t.1, t.2)
                }),
                free@ == spec_routes(start.opt, homes, i as nat).1,
                targets@.len() == i,
                forall|k: int| 0 <= k < i ==> #[trigger] started_as(start, targets@[k], all.0[k], homes, k),
            decreases count - i,
        {
            let ghost map1 = self.map@;
            let ghost taken = spec_taken_labels(
                map0,
                bucket as int,
                start.dummy_key@,
                start.round,
                start.dummy_uid,
                dummy_peer,
                start.dummy_count,
                i as nat,
            );
            let s = next_label(
                &mut self.map,
                bucket,
                self.dummy_key.as_slice(),
                self.round,
                self.dummy_uid,
                dummy_peer,
                &mut self.dummy_count,
            );
            proof {
                lemma_taken_step(
                    map0,
                    bucket as int,
                    start.dummy_key@,
                    start.round,
                    start.dummy_uid,
                    dummy_peer,
                    start.dummy_count,
                    count as nat,
                    i as nat,
                );
                if map1[bucket as int]@.len() > 0 {
                    assert(map1[bucket as int]@.last().peer < self.keys@.len());
                    assert(map_view(map1)[bucket as int].last() == map1[bucket as int]@.last()@);
                }
                assert(all.0[i as int] == s@);
                assert forall|b: int, k: int|
                    0 <= b < self.map@.len() && 0 <= k < self.map@[b]@.len() implies (#[trigger] self.map@[b]@[k]).peer
                    < self.keys@.len() by {
                    assert(map_view(self.map@)[b][k] == self.map@[b]@[k]@);
                    assert(map_view(self.map@)[b].len() == self.map@[b]@.len());
                    assert(map_view(map1)[b].len() == map1[b]@.len());
                    assert(k < map1[b]@.len());
                    assert(map_view(map1)[b][k] == map1[b]@[k]@);
                    assert(map1[b]@[k].peer < self.keys@.len());
                }
                lemma_routes(start.opt, homes, count as nat, i as nat + 1);
            }
            let home0 = classify(s.label.as_slice(), self.lmids[bucket].as_slice());
            let home = if home0 < count {
                home0
            } else {
                count - 1
            };
            let route = choose_route(self.opt, home, &mut free);
            let idx = if route.len() == 0 {
                None
            } else {
                self.lookup(s.label.as_slice(), home)
            };
            let target = Target { peer: s.peer, label: s.label, home, route, idx, found: None };
            proof {
                assert(home == homes[i as int]);
                lemma_located_same(*self, start, target.label@, home, idx);
                assert(started_as(start, target, all.0[i as int], homes, i as int));
            }
            targets.push(target);
            i += 1;
        }
        self.targets = targets;
        proof {
            assert forall|k: int| 0 <= k < count implies (if (#[trigger] self.targets@[k]).route@.len() == 0 {
                self.targets@[k].idx is None
            } else {
                self.located(self.targets@[k].label@, self.targets@[k].home, self.targets@[k].idx)
            }) by {
                assert(started_as(start, self.targets@[k], all.0[k], homes, k));
                lemma_located_same(
                    *self,
                    start,
                    self.targets@[k].label@,
                    self.targets@[k].home,
                    self.targets@[k].idx,
                );
            }
            assert forall|k: int| 0 <= k < count implies {
                &&& (#[trigger] self.targets@[k]).peer == all.0[k].peer
                &&& self.targets@[k].label@ == all.0[k].label
                &&& self.targets@[k].home == homes[k]
                &&& self.targets@[k].route@ == spec_routes(start.opt, homes, count as nat).0[k]
                &&& self.targets@[k].found is None
            } by {
                assert(started_as(start, self.targets@[k], all.0[k], homes, k));
            }
            assert(self.targets_wf()) by {
                assert forall|k: int| 0 <= k < self.targets@.len() implies {
                    &&& (#[trigger] self.targets@[k]).peer < self.keys@.len()
                    &&& self.targets@[k].home < spec_num_systematic(self.opt)
                    &&& forall|a: int|
                        0 <= a < self.targets@[k].route@.len() ==> (#[trigger] self.targets@[k].route@[a])
                            < spec_num_collections(self.opt)
                } by {
                    assert(started_as(start, self.targets@[k], all.0[k], homes, k));
                }
            }
        }
    }
}

/// Where a search starts depends on the schemes, the sizes of the
/// buckets, the position and the index of labels alone.
pub proof fn lemma_located_same(a: Core, b: Core, label: Seq<u8>, home: usize, idx: Option<u64>)
    requires
        a.opt == b.opt,
        a.ret == b.ret,
        a.nums == b.nums,
        a.pos == b.pos,
        a.index == b.index,
    ensures
        a.located(label, home, idx) == b.located(label, home, idx),
{
}

/// Whether a target is the `k`-th of the sweep that starts: it has the
/// label that was taken, lies in its collection, has its route, and its
/// search starts where the label is located.
pub open spec fn started_as(start: Core, target: Target, taken: ScheduledView, homes: Seq<usize>, k: int) -> bool {
    &&& target.peer < start.keys@.len()
    &&& target.home < spec_num_systematic(start.opt)
    &&& forall|a: int| 0 <= a < target.route@.len() ==> (#[trigger] target.route@[a]) < spec_num_collections(start.opt)
    &&& target.peer == taken.peer
    &&& target.label@ == taken.label
    &&& target.home == homes[k]
    &&& target.route@ == spec_routes(start.opt, homes, spec_targets(start.opt)).0[k]
    &&& target.found is None
    &&& if target.route@.len() == 0 {
        target.idx is None
    } else {
        start.located(target.label@, target.home, target.idx)
    }
}

/// The labels that a sweep takes from the schedule of a bucket: `count`
/// times the label that `next_label` gives. With the labels come the
/// schedule and the number of dummy labels afterwards.
pub open spec fn spec_taken_labels(
    map: Seq<Seq<ScheduledView>>,
    bucket: int,
    dummy_key: Seq<u8>,
    round: u64,
    dummy_uid: u64,
    dummy_peer: usize,
    dummy_count: u64,
    count: nat,
) -> (Seq<ScheduledView>, Seq<Seq<ScheduledView>>, u64)
    decreases count,
{
    if count == 0 {
        (Seq::empty(), map, dummy_count)
    } else {
        let (taken, rest, dummies) = spec_taken_labels(
            map,
            bucket,
            dummy_key,
            round,
            dummy_uid,
            dummy_peer,
            dummy_count,
            (count - 1) as nat,
        );
        if rest[bucket].len() > 0 {
            (taken.push(rest[bucket].last()), rest.update(bucket, rest[bucket].drop_last()), dummies)
        } else {
            (
                taken.push(
                    ScheduledView { peer: dummy_peer, label: spec_gen_label(dummy_key, round, dummy_uid, dummies, 0) },
                ),
                rest,
                if dummies < u64::MAX {
                    (dummies + 1) as u64
                } else {
                    u64::MAX
                },
            )
        }
    }
}

/// The first labels that a sweep takes are the same however many it
/// takes.
pub proof fn lemma_taken_labels(
    map: Seq<Seq<ScheduledView>>,
    bucket: int,
    dummy_key: Seq<u8>,
    round: u64,
    dummy_uid: u64,
    dummy_peer: usize,
    dummy_count: u64,
    count: nat,
    upto: nat,
)
    requires
        upto <= count,
    ensures
        spec_taken_labels(map, bucket, dummy_key, round, dummy_uid, dummy_peer, dummy_count, count).0.len() == count,
        spec_taken_labels(map, bucket, dummy_key, round, dummy_uid, dummy_peer, dummy_count, upto).0
            == spec_taken_labels(map, bucket, dummy_key, round, dummy_uid, dummy_peer, dummy_count, count).0.take(
            upto as int,
        ),
    decreases count,
{
    let all = spec_taken_labels(map, bucket, dummy_key, round, dummy_uid, dummy_peer, dummy_count, count);
    if count > 0 {
        lemma_taken_labels(map, bucket, dummy_key, round, dummy_uid, dummy_peer, dummy_count, (count - 1) as nat, 0);
        if upto < count {
            lemma_taken_labels(
                map,
                bucket,
                dummy_key,
                round,
                dummy_uid,
                dummy_peer,
                dummy_count,
                (count - 1) as nat,
                upto,
            );
            let shorter = spec_taken_labels(
                map,
                bucket,
                dummy_key,
                round,
                dummy_uid,
                dummy_peer,
                dummy_count,
                (count - 1) as nat,
            );
            assert(shorter.0.take(upto as int) =~= all.0.take(upto as int));
        } else {
            assert(all.0.take(upto as int) =~= all.0);
        }
    } else {
        assert(all.0.take(0) =~= all.0);
    }
}

/// What the next label of a sweep is, from the labels before it.
pub proof fn lemma_taken_step(
    map: Seq<Seq<ScheduledView>>,
    bucket: int,
    dummy_key: Seq<u8>,
    round: u64,
    dummy_uid: u64,
    dummy_peer: usize,
    dummy_count: u64,
    count: nat,
    i: nat,
)
    requires
        i < count,
    ensures
        ({
            let all = spec_taken_labels(map, bucket, dummy_key, round, dummy_uid, dummy_peer, dummy_count, count);
            let before = spec_taken_labels(map, bucket, dummy_key, round, dummy_uid, dummy_peer, dummy_count, i);
            let after = spec_taken_labels(map, bucket, dummy_key, round, dummy_uid, dummy_peer, dummy_count, i + 1);
            &&& all.0.len() == count
            &&& all.0[i as int] == after.0[i as int]
            &&& after.0.len() == i + 1
            &&& if before.1[bucket].len() > 0 {
                &&& after.0[i as int] == before.1[bucket].last()
                &&& after.1 == before.1.update(bucket, before.1[bucket].drop_last())
                &&& after.2 == before.2
            } else {
                &&& after.0[i as int] == (ScheduledView {
                    peer: dummy_peer,
                    label: spec_gen_label(dummy_key, round, dummy_uid, before.2, 0),
                })
                &&& after.1 == before.1
                &&& after.2 == if before.2 < u64::MAX {
                    (before.2 + 1) as u64
                } else {
                    u64::MAX
                }
            }
        }),
{
    lemma_taken_labels(map, bucket, dummy_key, round, dummy_uid, dummy_peer, dummy_count, count, i + 1);
    lemma_taken_labels(map, bucket, dummy_key, round, dummy_uid, dummy_peer, dummy_count, i + 1, i + 1);
    lemma_taken_labels(map, bucket, dummy_key, round, dummy_uid, dummy_peer, dummy_count, i, i);
}

/// The systematic collection that a label lies in, among those of the
/// scheme.
pub open spec fn spec_home(label: Seq<u8>, lmids: Seq<Seq<u8>>, opt: OptScheme) -> usize {
    if spec_classify(label, lmids) < spec_targets(opt) {
        spec_classify(label, lmids) as usize
    } else {
        (spec_targets(opt) - 1) as usize
    }
}

/// The systematic collections that the labels of a sweep lie in.
pub open spec fn spec_homes(taken: Seq<ScheduledView>, lmids: Seq<Seq<u8>>, opt: OptScheme) -> Seq<usize> {
    Seq::new(taken.len(), |i: int| spec_home(taken[i].label, lmids, opt))
}

/// The route for a label that lies in the collection `home`, with the
/// collections that are still free: those of the first alternative whose
/// collections are all free, or none.
pub open spec fn spec_route(opt: OptScheme, home: int, free: Seq<bool>) -> Seq<usize> {
    let alt = spec_first_free(opt, home, free, 0);
    if alt < spec_alternatives(opt) {
        Seq::new(spec_alternative(opt, home, alt as int).len(), |k: int| spec_alternative(opt, home, alt as int)[k] as usize)
    } else {
        Seq::empty()
    }
}

/// The routes of the first `upto` labels of a sweep, and the collections
/// that they leave free: every label gets its route among the
/// collections that the labels before it left free.
pub open spec fn spec_routes(opt: OptScheme, homes: Seq<usize>, upto: nat) -> (Seq<Seq<usize>>, Seq<bool>)
    decreases upto,
{
    if upto == 0 {
        (Seq::empty(), Seq::new(spec_num_collections(opt), |c: int| true))
    } else {
        let (routes, free) = spec_routes(opt, homes, (upto - 1) as nat);
        let route = spec_route(opt, homes[upto - 1] as int, free);
        (routes.push(route), spec_taken(free, route))
    }
}

/// There is a route for every label.
pub proof fn lemma_routes_len(opt: OptScheme, homes: Seq<usize>, count: nat)
    ensures
        spec_routes(opt, homes, count).0.len() == count,
    decreases count,
{
    if count > 0 {
        lemma_routes_len(opt, homes, (count - 1) as nat);
    }
}

/// The routes of the first labels are the same however many labels
/// follow.
pub proof fn lemma_routes(opt: OptScheme, homes: Seq<usize>, count: nat, upto: nat)
    requires
        1 <= upto <= count,
    ensures
        spec_routes(opt, homes, count).0.len() == count,
        spec_routes(opt, homes, count).0[upto - 1] == spec_route(
            opt,
            homes[upto - 1] as int,
            spec_routes(opt, homes, (upto - 1) as nat).1,
        ),
        spec_routes(opt, homes, upto).1 == spec_taken(
            spec_routes(opt, homes, (upto - 1) as nat).1,
            spec_routes(opt, homes, count).0[upto - 1],
        ),
    decreases count,
{
    lemma_routes_len(opt, homes, count);
    lemma_routes_len(opt, homes, (count - 1) as nat);
    if upto < count {
        lemma_routes(opt, homes, (count - 1) as nat, upto);
    }
}

/// The targets after a step, as contracts see them: each has seen the
/// tuple that the answers give at its index.
pub open spec fn spec_stepped(
    targets: Seq<Target>,
    results: Seq<Option<Seq<u8>>>,
    opt: OptScheme,
    ret: RetScheme,
    num: u64,
    level: u32,
) -> Seq<TargetView> {
    let answers = spec_spread(results, opt, ret, num, level, spec_num_collections(opt));
    let lens = spec_lens(opt, ret, num, level, spec_num_collections(opt));
    Seq::new(
        targets.len(),
        |i: int|
            spec_step(
                targets[i]@,
                spec_seen(targets[i]@, answers, lens),
                ret,
                spec_level_len(opt, ret, num, targets[i].home, level as nat + 1),
            ),
    )
}

impl Core {
    /// Takes the answers to the retrievals of the step at the position,
    /// in the order of the retrievals, `None` for an answer that did not
    /// come: the searches of the targets move on. With the last step of a
    /// sweep over a bucket, what the targets found is decrypted, and the
    /// next sweep starts with new targets.
    pub fn absorb(&mut self, results: &[Option<PungTuple>])
        requires
            old(self).wf(),
            !old(self).done(),
        ensures
            final(self).wf(),
            final(self).params() == old(self).params(),
            final(self).round == old(self).round,
            final(self).keys == old(self).keys,
            final(self).pos == spec_next(old(self).params(), old(self).pos),
            ({
                let stepped = spec_stepped(
                    old(self).targets@,
                    answer_views(results@),
                    old(self).opt,
                    old(self).ret,
                    old(self).nums@[old(self).pos.bucket as int],
                    old(self).pos.level,
                );
                if final(self).pos.bucket == old(self).pos.bucket && final(self).pos.retry == old(self).pos.retry
                    && final(self).pos.level != 0 {
                    &&& target_views(final(self).targets@) == stepped
                    &&& final(self).messages == old(self).messages
                    &&& map_view(final(self).map@) == map_view(old(self).map@)
                    &&& final(self).dummy_count == old(self).dummy_count
                } else {
                    &&& byte_strings(final(self).messages@) == byte_strings(old(self).messages@) + spec_harvest(
                        stepped,
                        byte_strings(old(self).keys@),
                        old(self).round,
                        stepped.len(),
                    )
                    &&& if final(self).done() {
                        final(self).targets@.len() == 0
                    } else {
                        Core::sweep_started(*old(self), *final(self))
                    }
                }
            }),
    {
        let num = self.nums[self.pos.bucket];
        let level = self.pos.level;
        let (answers, lens) = spread(results, self.opt, self.ret, num, level);
        let levels = levels_of_len(part_len(self.opt, num, 0), self.ret);
        let batches = if levels == 0 {
            1
        } else {
            levels
        };
        let ghost before = self.targets@;
        proof {
            assert(self.targets_wf());
            assert forall|i: int| 0 <= i < self.targets@.len() implies (#[trigger] self.targets@[i]).home
                < spec_num_collections(self.opt) by {}
        }
        step_targets(&mut self.targets, &answers, &lens, self.opt, self.ret, num, level);
        proof {
            let stepped = spec_stepped(before, answer_views(results@), self.opt, self.ret, num, level);
            assert(target_views(self.targets@) =~= stepped);
            assert forall|i: int| 0 <= i < self.targets@.len() implies {
                &&& (#[trigger] self.targets@[i]).peer == before[i].peer
                &&& self.targets@[i].home == before[i].home
                &&& self.targets@[i].route@ == before[i].route@
            } by {
                assert(self.targets@[i]@ == stepped[i]);
            }
        }
        if level + 1 < batches {
            self.pos = Position { level: level + 1, ..self.pos };
        } else {
            harvest(&self.targets, &self.keys, self.round, &mut self.messages);
            if self.pos.bucket + 1 < self.nums.len() {
                self.pos = Position { bucket: self.pos.bucket + 1, level: 0, ..self.pos };
            } else {
                self.pos = Position { retry: self.pos.retry + 1, bucket: 0, level: 0 };
            }
            self.targets = Vec::new();
            if self.pos.retry < self.retries {
                self.begin_slot();
            }
        }
    }

    /// The retrievals of the step at the position: one for each
    /// collection that has the level, at the index at which a target
    /// searches, or at a random index where none does.
    pub fn build_batch(&self, rng: &mut ChaChaRng) -> (probes: Vec<Probe>)
        requires
            self.wf(),
            !self.done(),
        ensures
            shapes_of(probes@) == spec_batch(self.params(), self.pos),
            forall|k: int| 0 <= k < probes@.len() && (#[trigger] probes@[k]).len > 0 ==> probes@[k].idx < probes@[k].len,
            forall|k: int|
                0 <= k < probes@.len() ==> (spec_wanted(
                    target_views(self.targets@),
                    (#[trigger] probes@[k]).collection as usize,
                    probes@[k].len,
                    self.targets@.len(),
                ) matches Some(j) ==> probes@[k].idx == j),
    {
        let count: usize = match self.opt {
            OptScheme::Normal | OptScheme::Aliasing => 1,
            OptScheme::Hybrid2 => 3,
            OptScheme::Hybrid4 => 9,
        };
        let bucket = self.pos.bucket;
        let level = self.pos.level;
        let num = self.nums[bucket];
        let mut probes: Vec<Probe> = Vec::with_capacity(count);
        let mut c: usize = 0;
        assert(shapes_of(probes@) =~= spec_shapes(self.opt, self.ret, num, bucket, level, 0));
        while c < count
            invariant
                c <= count,
                count == spec_num_collections(self.opt),
                count <= 9,
                shapes_of(probes@) == spec_shapes(self.opt, self.ret, num, bucket, level, c as nat),
                forall|k: int| 0 <= k < probes@.len() && (#[trigger] probes@[k]).len > 0 ==> probes@[k].idx < probes@[k].len,
                forall|k: int|
                    0 <= k < probes@.len() ==> (spec_wanted(
                        target_views(self.targets@),
                        (#[trigger] probes@[k]).collection as usize,
                        probes@[k].len,
                        self.targets@.len(),
                    ) matches Some(j) ==> probes@[k].idx == j),
            decreases count - c,
        {
            let len = part_len(self.opt, num, c);
            if level < levels_of_len(len, self.ret) {
                let n = probe_len(len, self.ret, level);
                let idx = match wanted(&self.targets, c, n) {
                    Some(j) => j,
                    None => random_index(rng, n),
                };
                let ghost before = shapes_of(probes@);
                let probe = Probe { bucket, collection: c as u32, level, idx, len: n };
                probes.push(probe);
                assert(shapes_of(probes@) =~= before.push(probe.shape()));
            }
            c += 1;
        }
        probes
    }
}

/// The retrievals of a client in one round, step by step: the probes to
/// make now, and what to do with their answers.
pub struct Retrieval {
    core: Core,
    current: Vec<Probe>,
    rng: ChaChaRng,
}

impl Retrieval {
    /// What the server sees of the retrievals depends on.
    pub closed spec fn params(&self) -> Params {
        self.core.params()
    }

    /// How far the retrievals are.
    pub closed spec fn position(&self) -> Position {
        self.core.pos
    }

    /// The probes of the step at the position.
    pub closed spec fn spec_batch_probes(&self) -> Seq<Probe> {
        self.current@
    }

    /// The messages that were retrieved so far.
    pub closed spec fn spec_messages(&self) -> Seq<Seq<u8>> {
        byte_strings(self.core.messages@)
    }

    /// What the retrieval keeps to itself.
    pub closed spec fn spec_core(&self) -> Core {
        self.core
    }

    /// The probes of the step are those of the position: what the server
    /// sees of them follows from the parameters and the position; every
    /// index lies in its level, and is the index at which a target
    /// searches where the collection is on the route of one.
    pub closed spec fn wf(&self) -> bool {
        &&& self.core.wf()
        &&& shapes_of(self.current@) == spec_batch(self.core.params(), self.core.pos)
        &&& forall|k: int|
            0 <= k < self.current@.len() && (#[trigger] self.current@[k]).len > 0 ==> self.current@[k].idx
                < self.current@[k].len
        &&& forall|k: int|
            0 <= k < self.current@.len() ==> (spec_wanted(
                target_views(self.core.targets@),
                (#[trigger] self.current@[k]).collection as usize,
                self.current@[k].len,
                self.core.targets@.len(),
            ) matches Some(j) ==> self.current@[k].idx == j)
    }

    /// Access pattern uniformity: what the server sees of the probes of a
    /// step is a function of the parameters and the position. The index
    /// of a probe lies in its level, and is that of the target whose
    /// route the collection is on, if its search is at an index of the
    /// level.
    pub proof fn lemma_shapes(&self)
        requires
            self.wf(),
        ensures
            shapes_of(self.spec_batch_probes()) == spec_batch(self.params(), self.position()),
            forall|k: int|
                0 <= k < self.spec_batch_probes().len() && (#[trigger] self.spec_batch_probes()[k]).len > 0
                    ==> self.spec_batch_probes()[k].idx < self.spec_batch_probes()[k].len,
            forall|k: int|
                0 <= k < self.spec_batch_probes().len() ==> (spec_wanted(
                    target_views(self.spec_core().targets@),
                    (#[trigger] self.spec_batch_probes()[k]).collection as usize,
                    self.spec_batch_probes()[k].len,
                    self.spec_core().targets@.len(),
                ) matches Some(j) ==> self.spec_batch_probes()[k].idx == j),
    {
    }

    /// Starts the retrievals of a round from what a client knows: the
    /// first sweep starts over the first bucket.
    pub fn start(core: Core) -> (r: Retrieval)
        requires
            core.wf(),
            core.pos == (Position { retry: 0, bucket: 0, level: 0 }),
        ensures
            r.wf(),
            r.params() == core.params(),
            r.position() == core.pos,
            r.spec_messages() == byte_strings(core.messages@),
            r.spec_core().round == core.round,
            r.spec_core().keys == core.keys,
            r.spec_core().lmids == core.lmids,
            r.spec_core().index == core.index,
            !spec_done(core.params(), core.pos) ==> Core::sweep_started(core, r.spec_core()),
    {
        let mut core = core;
        let mut rng = unseeded_rng();
        let current = if core.nums.len() > 0 && core.pos.retry < core.retries {
            core.begin_slot();
            core.build_batch(&mut rng)
        } else {
            let empty: Vec<Probe> = Vec::new();
            assert(shapes_of(empty@) =~= spec_batch(core.params(), core.pos));
            empty
        };
        Retrieval { core, current, rng }
    }

    /// Whether all retrievals of the round are made.
    pub fn is_done(&self) -> (done: bool)
        ensures
            done == spec_done(self.params(), self.position()),
    {
        self.core.nums.len() == 0 || self.core.pos.retry >= self.core.retries
    }

    /// The probes to make now, in this order.
    pub fn batch(&self) -> (probes: &[Probe])
        ensures
            probes@ == self.spec_batch_probes(),
    {
        self.current.as_slice()
    }

    /// Takes the answers to the probes of the step, in the order of the
    /// probes, `None` for an answer that did not come, and moves on to
    /// the next step. What the server sees of the next probes follows
    /// from the parameters and the position, whatever the answers were.
    pub fn receive(&mut self, results: &[Option<PungTuple>])
        requires
            old(self).wf(),
        ensures
            final(self).wf(),
            final(self).params() == old(self).params(),
            final(self).position() == if spec_done(old(self).params(), old(self).position()) {
                old(self).position()
            } else {
                spec_next(old(self).params(), old(self).position())
            },
            spec_done(old(self).params(), old(self).position()) ==> final(self).spec_messages() == old(self).spec_messages(),
            !spec_done(old(self).params(), old(self).position()) ==> ({
                let core = old(self).spec_core();
                let stepped = spec_stepped(
                    core.targets@,
                    answer_views(results@),
                    core.opt,
                    core.ret,
                    core.nums@[core.pos.bucket as int],
                    core.pos.level,
                );
                if final(self).position().bucket == core.pos.bucket && final(self).position().retry == core.pos.retry
                    && final(self).position().level != 0 {
                    &&& target_views(final(self).spec_core().targets@) == stepped
                    &&& final(self).spec_messages() == old(self).spec_messages()
                } else {
                    &&& final(self).spec_messages() == old(self).spec_messages() + spec_harvest(
                        stepped,
                        byte_strings(core.keys@),
                        core.round,
                        stepped.len(),
                    )
                    &&& !spec_done(final(self).params(), final(self).position()) ==> Core::sweep_started(
                        core,
                        final(self).spec_core(),
                    )
                }
            }),
    {
        if self.core.nums.len() == 0 || self.core.pos.retry >= self.core.retries {
            return ;
        }
        self.core.absorb(results);
        if self.core.pos.retry < self.core.retries {
            self.current = self.core.build_batch(&mut self.rng);
        } else {
            self.current = Vec::new();
            assert(shapes_of(self.current@) =~= spec_batch(self.core.params(), self.core.pos));
        }
    }

    /// The messages that were retrieved so far, each padded to
    /// `MESSAGE_SIZE` bytes.
    pub fn messages(&self) -> (ms: &Vec<Vec<u8>>)
        ensures
            byte_strings(ms@) == self.spec_messages(),
    {
        &self.core.messages
    }
}

/// Access pattern uniformity: two retrievals with the same parameters at
/// the same position show the server the same probes, whatever labels
/// they look for and whatever answers they got.
pub proof fn lemma_access_pattern(a: &Retrieval, b: &Retrieval)
    requires
        a.wf(),
        b.wf(),
        a.params() == b.params(),
        a.position() == b.position(),
    ensures
        shapes_of(a.spec_batch_probes()) == shapes_of(b.spec_batch_probes()),
{
    a.lemma_shapes();
    b.lemma_shapes();
}

/// Client and server agree on the sizes of the collections: a collection
/// of an encoded bucket has as many tuples as the client reckons from
/// the number of tuples of the bucket.
pub proof fn lemma_part_len_agrees(raw: Seq<Seq<u8>>, opt: OptScheme, ret: RetScheme, c: nat)
    requires
        all_tuples(raw),
        raw.len() <= u64::MAX,
        c < spec_num_collections(opt),
    ensures
        encoded(raw, opt, ret).len() == spec_num_collections(opt),
        encoded(raw, opt, ret)[c as int].len() == spec_part_len(opt, raw.len() as u64, c),
{
    let sorted = sort_by_label(raw);
    lemma_sort_by_label(raw);
    lemma_sort_all_tuples(raw);
    match opt {
        OptScheme::Normal | OptScheme::Aliasing => {
            lemma_laid_out_shape(sorted, ret);
        },
        OptScheme::Hybrid2 => {
            lemma_laid_out_shape(first_half(sorted), ret);
            lemma_laid_out_shape(second_half(sorted), ret);
        },
        OptScheme::Hybrid4 => {
            lemma_hybrid4_shape(raw, ret);
            let f = first_half(sorted);
            let g = second_half(sorted);
            lemma_laid_out_shape(first_half(f), ret);
            lemma_laid_out_shape(second_half(f), ret);
            lemma_laid_out_shape(first_half(g), ret);
            lemma_laid_out_shape(second_half(g), ret);
        },
    }
}

/// Batch code soundness as the client uses it: for every systematic
/// collection and every alternative of the scheme, the tuples at one
/// index of the collections that the alternative names combine to the
/// tuple of the systematic collection at that index, a collection that
/// is too short for the index counting as zeros.
pub proof fn lemma_alternative_sound(raw: Seq<Seq<u8>>, opt: OptScheme, ret: RetScheme, home: int, alt: int, i: int)
    requires
        all_tuples(raw),
        0 <= home < spec_targets(opt),
        0 <= alt < spec_alternatives(opt),
    ensures
        xor_all(parts_at(encoded(raw, opt, ret), spec_alternative(opt, home, alt), i)) == part_at(
            encoded(raw, opt, ret)[home],
            i,
        ),
{
    let e = encoded(raw, opt, ret);
    let sorted = sort_by_label(raw);
    let ps = parts_at(e, spec_alternative(opt, home, alt), i);
    lemma_sort_by_label(raw);
    lemma_sort_all_tuples(raw);
    match opt {
        OptScheme::Normal | OptScheme::Aliasing => {
            lemma_laid_out_shape(sorted, ret);
            assert(ps =~= seq![part_at(e[0], i)]);
            lemma_xor_all_one(part_at(e[0], i));
        },
        OptScheme::Hybrid2 => {
            lemma_laid_out_shape(first_half(sorted), ret);
            lemma_laid_out_shape(second_half(sorted), ret);
            lemma_part_of_xor_pad(e[0], e[1], i);
            let first = part_at(e[0], i);
            let second = part_at(e[1], i);
            let both = part_at(e[2], i);
            if alt == 0 {
                assert(ps =~= seq![part_at(e[home], i)]);
                lemma_xor_all_one(part_at(e[home], i));
            } else {
                let other = part_at(e[1 - home], i);
                assert(ps =~= seq![other, both]);
                lemma_xor_all_two(other, both);
                let l = xor_bytes(other, both);
                let r = part_at(e[home], i);
                assert forall|j: int| 0 <= j < TUPLE_SIZE implies l[j] == r[j] by {
                    lemma_xor_byte(first[j], second[j]);
                    lemma_xor_byte(second[j], first[j]);
                }
                assert(l =~= r);
            }
        },
        OptScheme::Hybrid4 => {
            lemma_hybrid4_sound(raw, ret, home, alt, i);
        },
    }
}

/// The number of probes of the first `upto` steps of a sweep over a
/// bucket of `num` tuples.
pub open spec fn spec_slot_probes(opt: OptScheme, ret: RetScheme, num: u64, upto: nat) -> nat
    decreases upto,
{
    if upto == 0 {
        0
    } else {
        spec_slot_probes(opt, ret, num, (upto - 1) as nat) + spec_shapes(
            opt,
            ret,
            num,
            0,
            (upto - 1) as u32,
            spec_num_collections(opt),
        ).len()
    }
}

/// The number of levels of the first `upto` collections of a bucket of
/// `num` tuples, as the client reckons them.
pub open spec fn spec_slot_levels(opt: OptScheme, ret: RetScheme, num: u64, upto: nat) -> nat
    decreases upto,
{
    if upto == 0 {
        0
    } else {
        spec_slot_levels(opt, ret, num, (upto - 1) as nat) + spec_levels(
            spec_part_len(opt, num, (upto - 1) as nat) as nat,
            ret,
        )
    }
}

/// The probes of the first steps of a sweep, counted by collection: each
/// of the first `parts` collections is probed once in every step for
/// which it has a level.
proof fn lemma_probes_by_collection(opt: OptScheme, ret: RetScheme, num: u64, steps: nat, parts: nat)
    requires
        steps <= u32::MAX,
    ensures
        spec_probes_upto(opt, ret, num, steps, parts) == spec_probes_upto(opt, ret, num, steps, 0) + spec_capped_levels(
            opt,
            ret,
            num,
            steps,
            parts,
        ),
        spec_probes_upto(opt, ret, num, steps, 0) == 0,
    decreases parts, steps,
{
    if steps > 0 {
        lemma_probes_by_collection(opt, ret, num, (steps - 1) as nat, parts);
        lemma_probes_by_collection(opt, ret, num, (steps - 1) as nat, 0);
        if parts > 0 {
            lemma_probes_by_collection(opt, ret, num, steps, (parts - 1) as nat);
            lemma_probes_by_collection(opt, ret, num, (steps - 1) as nat, (parts - 1) as nat);
        }
    } else if parts > 0 {
        lemma_probes_by_collection(opt, ret, num, steps, (parts - 1) as nat);
    }
}

/// The number of probes of the first `steps` steps of a sweep into the
/// first `parts` collections.
pub open spec fn spec_probes_upto(opt: OptScheme, ret: RetScheme, num: u64, steps: nat, parts: nat) -> nat
    decreases steps,
{
    if steps == 0 {
        0
    } else {
        spec_probes_upto(opt, ret, num, (steps - 1) as nat, parts) + spec_shapes(
            opt,
            ret,
            num,
            0,
            (steps - 1) as u32,
            parts,
        ).len()
    }
}

/// The number of levels of the first `parts` collections, none counted
/// beyond `steps`.
pub open spec fn spec_capped_levels(opt: OptScheme, ret: RetScheme, num: u64, steps: nat, parts: nat) -> nat
    decreases parts,
{
    if parts == 0 {
        0
    } else {
        let levels = spec_levels(spec_part_len(opt, num, (parts - 1) as nat) as nat, ret);
        spec_capped_levels(opt, ret, num, steps, (parts - 1) as nat) + if levels < steps {
            levels
        } else {
            steps
        }
    }
}

/// A collection with fewer tuples has no more levels.
pub proof fn lemma_levels_monotone(a: nat, b: nat, ret: RetScheme)
    requires
        a <= b,
    ensures
        spec_levels(a, ret) <= spec_levels(b, ret),
    decreases b,
{
    if ret == RetScheme::Tree && a > 0 {
        lemma_levels_monotone(a / 2, b / 2, ret);
    }
}

/// No collection of a bucket has more levels than the first.
proof fn lemma_capped_is_all(opt: OptScheme, ret: RetScheme, num: u64, steps: nat, parts: nat)
    requires
        parts <= spec_num_collections(opt),
        spec_levels(spec_part_len(opt, num, 0) as nat, ret) <= steps,
    ensures
        spec_capped_levels(opt, ret, num, steps, parts) == spec_slot_levels(opt, ret, num, parts),
    decreases parts,
{
    if parts > 0 {
        lemma_capped_is_all(opt, ret, num, steps, (parts - 1) as nat);
        crate::util::lemma_collection_len_sum(num as nat);
        lemma_levels_monotone(
            spec_part_len(opt, num, (parts - 1) as nat) as nat,
            spec_part_len(opt, num, 0) as nat,
            ret,
        );
    }
}

/// The client makes the retrievals that the server counts: in a sweep
/// over a bucket the client probes every level of every collection once,
/// so that the probes of a sweep are as many as the levels of the encoded
/// bucket.
pub proof fn lemma_sweep_probes_all_levels(raw: Seq<Seq<u8>>, opt: OptScheme, ret: RetScheme)
    requires
        all_tuples(raw),
        raw.len() <= u64::MAX,
    ensures
        spec_slot_probes(opt, ret, raw.len() as u64, spec_slot_batches(opt, ret, raw.len() as u64))
            == crate::server::model::levels_in(encoded(raw, opt, ret), ret),
{
    let num = raw.len() as u64;
    let steps = spec_slot_batches(opt, ret, num);
    let parts = spec_num_collections(opt);
    vstd::arithmetic::power2::lemma2_to64_rest();
    crate::util::lemma_tree_height_bound(spec_part_len(opt, num, 0) as nat, 64);
    lemma_slot_probes_upto(opt, ret, num, steps);
    lemma_probes_by_collection(opt, ret, num, steps, parts);
    lemma_capped_is_all(opt, ret, num, steps, parts);
    lemma_levels_of_encoded(raw, opt, ret, parts);
    assert(encoded(raw, opt, ret).take(parts as int) =~= encoded(raw, opt, ret)) by {
        lemma_part_len_agrees(raw, opt, ret, 0);
    }
}

/// The probes of the steps of a sweep go into all collections.
proof fn lemma_slot_probes_upto(opt: OptScheme, ret: RetScheme, num: u64, steps: nat)
    ensures
        spec_slot_probes(opt, ret, num, steps) == spec_probes_upto(opt, ret, num, steps, spec_num_collections(opt)),
    decreases steps,
{
    if steps > 0 {
        lemma_slot_probes_upto(opt, ret, num, (steps - 1) as nat);
    }
}

/// The levels of the first collections of an encoded bucket are those
/// that the client reckons.
proof fn lemma_levels_of_encoded(raw: Seq<Seq<u8>>, opt: OptScheme, ret: RetScheme, parts: nat)
    requires
        all_tuples(raw),
        raw.len() <= u64::MAX,
        parts <= spec_num_collections(opt),
    ensures
        crate::server::model::levels_in(encoded(raw, opt, ret).take(parts as int), ret) == spec_slot_levels(
            opt,
            ret,
            raw.len() as u64,
            parts,
        ),
    decreases parts,
{
    let e = encoded(raw, opt, ret);
    if parts > 0 {
        lemma_levels_of_encoded(raw, opt, ret, (parts - 1) as nat);
        lemma_part_len_agrees(raw, opt, ret, (parts - 1) as nat);
        assert(e.take(parts as int).drop_last() =~= e.take(parts as int - 1));
        assert(e.take(parts as int).last() == e[parts as int - 1]);
    }
}

} // verus!
