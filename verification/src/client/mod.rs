//! The client of a round: what it sends, and how it retrieves.

use vstd::prelude::*;
use vstd::string::StringSliceAdditionalSpecFns;
use crate::db::{OptScheme, RetScheme, LABEL_SIZE};
use crate::error::Error;
use crate::util::random::{random_bytes, unseeded_rng};
use crate::db::batch::spec_num_systematic;
use crate::util::bloomfilter::{spec_filter_bytes, Bloom, HASHES};
use crate::util::{
    bucket_idx, byte_strings, label_eq, label_lt, label_marker, lex_lt, max_retries,
    spec_bucket_idx, spec_marker, spec_markers, spec_max_retries,
};
use self::retrieve::{
    map_view, part_len, place, spec_done, spec_part_len, spec_place, Core, LabelIndex, Params,
    Position, Retrieval, Scheduled, ScheduledView,
};
use self::pcrypto::{
    derive_keys, encrypt, gen_label, spec_encrypt, spec_gen_label, spec_k_e, spec_k_l, spec_k_l2,
    PungKeys, HASH_BLOCK, HASH_LIMIT, KEY_SIZE, MESSAGE_SIZE,
};

pub mod pcrypto;
pub mod retrieve;

verus! {

/// The number of random bytes that the keys of the dummy peer come from.
pub const DUMMY_SECRET_SIZE: usize = 256;

/// A peer of a client: the uids under which the two label their messages
/// to each other, and the keys that they share.
pub struct PungPeer {
    pub uid_self: u64,
    pub uid_peer: u64,
    pub keys: PungKeys,
}

/// A peer as contracts see it.
pub struct PeerView {
    pub uid_self: u64,
    pub uid_peer: u64,
    pub k_l: Seq<u8>,
    pub k_l2: Seq<u8>,
    pub k_e: Seq<u8>,
}

impl View for PungPeer {
    type V = PeerView;

    open spec fn view(&self) -> PeerView {
        PeerView {
            uid_self: self.uid_self,
            uid_peer: self.uid_peer,
            k_l: self.keys.k_l@,
            k_l2: self.keys.k_l2@,
            k_e: self.keys.k_e@,
        }
    }
}

impl PungPeer {
    /// A peer with its uids and keys.
    pub fn new(uid_self: u64, uid_peer: u64, keys: PungKeys) -> (peer: PungPeer)
        ensures
            peer.uid_self == uid_self,
            peer.uid_peer == uid_peer,
            peer.keys == keys,
    {
        PungPeer { uid_self, uid_peer, keys }
    }
}

/// What a client learns of a bucket when the round is encoded: the number
/// of its tuples, and the labels that it publishes.
pub struct BucketInfo {
    pub num: u64,
    pub lmid: Vec<Vec<u8>>,
}

impl BucketInfo {
    /// The number of tuples of the bucket.
    pub fn num_tuples(&self) -> (n: u64)
        ensures
            n == self.num,
    {
        self.num
    }

    /// The label that the bucket publishes for its systematic collection
    /// `idx + 1`.
    pub fn get_lmid(&self, idx: usize) -> (l: &[u8])
        requires
            idx < self.lmid@.len(),
        ensures
            l@ == self.lmid@[idx as int]@,
    {
        self.lmid[idx].as_slice()
    }

    /// The labels that the bucket publishes.
    pub fn get_lmids(&self) -> (ls: &[Vec<u8>])
        ensures
            ls@ == self.lmid@,
    {
        self.lmid.as_slice()
    }
}

/// The uids of a client and a peer, from their names: the one whose name
/// comes first has uid 0 and the other uid 1; a client that is its own
/// peer has uid 0 twice. The first uid is that of the client.
pub open spec fn spec_uids(me: Seq<u8>, peer: Seq<u8>) -> (u64, u64) {
    if lex_lt(me, peer) {
        (0, 1)
    } else if lex_lt(peer, me) {
        (1, 0)
    } else {
        (0, 0)
    }
}

/// Uid symmetry: the uid that a client gives its peer is the uid that the
/// peer gives itself, and the other way round, so that both label the
/// messages of one of them alike.
pub proof fn lemma_uid_symmetry(a: Seq<u8>, b: Seq<u8>)
    ensures
        spec_uids(a, b).1 == spec_uids(b, a).0,
        spec_uids(a, b).0 == spec_uids(b, a).1,
{
    crate::util::lemma_lex_lt_total(a, b);
}

/// A peer of a client with the name that the client knows it by.
pub struct PeerEntry {
    pub name: Vec<u8>,
    pub peer: PungPeer,
}

/// The index of the first peer with the name, or -1.
pub open spec fn peer_index(peers: Seq<PeerEntry>, name: Seq<u8>) -> int
    decreases peers.len(),
{
    if peers.len() == 0 {
        -1
    } else if peer_index(peers.drop_last(), name) >= 0 {
        peer_index(peers.drop_last(), name)
    } else if peers.last().name@ == name {
        peers.len() - 1
    } else {
        -1
    }
}

/// No two peers have one name.
pub open spec fn names_distinct(peers: Seq<PeerEntry>) -> bool {
    forall|i: int, j: int| 0 <= i < j < peers.len() ==> (#[trigger] peers[i]).name@ != (#[trigger] peers[j]).name@
}

/// The peer that is found has the name that was looked for, and where
/// none is found no peer has the name.
pub proof fn lemma_peer_index(peers: Seq<PeerEntry>, name: Seq<u8>)
    ensures
        -1 <= peer_index(peers, name) < peers.len(),
        peer_index(peers, name) >= 0 ==> peers[peer_index(peers, name)].name@ == name,
        peer_index(peers, name) == -1 ==> forall|i: int| 0 <= i < peers.len() ==> (#[trigger] peers[i]).name@ != name,
    decreases peers.len(),
{
    if peers.len() > 0 {
        lemma_peer_index(peers.drop_last(), name);
        if peer_index(peers.drop_last(), name) < 0 && peers.last().name@ != name {
            assert forall|i: int| 0 <= i < peers.len() implies (#[trigger] peers[i]).name@ != name by {
                if i < peers.len() - 1 {
                    assert(peers.drop_last()[i] == peers[i]);
                }
            }
        }
    }
}

/// A peer that is found among the first peers is found among all, at the
/// same index.
pub proof fn lemma_peer_index_prefix(peers: Seq<PeerEntry>, name: Seq<u8>, k: int)
    requires
        0 <= k <= peers.len(),
        peer_index(peers.take(k), name) >= 0,
    ensures
        peer_index(peers, name) == peer_index(peers.take(k), name),
    decreases peers.len() - k,
{
    if k < peers.len() {
        assert(peers.take(k + 1).drop_last() =~= peers.take(k));
        lemma_peer_index_prefix(peers, name, k + 1);
    } else {
        assert(peers.take(k) =~= peers);
    }
}

/// Whether the optimization scheme stores every message under two
/// labels.
pub open spec fn spec_aliased(opt: OptScheme) -> bool {
    opt != OptScheme::Normal
}

/// The second label of message `msg_num` with collision counter `iter`.
pub open spec fn spec_alias(k_l2: Seq<u8>, round: u64, uid: u64, msg_num: u64, iter: u64) -> Seq<u8> {
    spec_gen_label(k_l2, round, uid, msg_num, iter)
}

/// Whether `iter` is the collision counter of the second label of a
/// message whose first label falls into bucket `first`: the least for
/// which the second label falls into another bucket.
pub open spec fn is_alias_iter(
    k_l2: Seq<u8>,
    round: u64,
    uid: u64,
    msg_num: u64,
    first: int,
    partitions: Seq<Seq<u8>>,
    iter: u64,
) -> bool {
    &&& spec_bucket_idx(spec_alias(k_l2, round, uid, msg_num, iter), partitions) != first
    &&& forall|c: u64| c < iter ==> spec_bucket_idx(#[trigger] spec_alias(k_l2, round, uid, msg_num, c), partitions) == first
}

/// With fewer than two buckets every label falls into bucket 0.
pub proof fn lemma_one_bucket(label: Seq<u8>, partitions: Seq<Seq<u8>>)
    requires
        partitions.len() < 2,
    ensures
        spec_bucket_idx(label, partitions) == 0,
{
    crate::util::lemma_first_within(label, partitions, 0);
}

/// The second label of a message whose first label falls into bucket
/// `first`: the label with the least collision counter that falls into
/// another bucket. `None` where no counter gives one, as with fewer than
/// two buckets.
pub fn find_alias(k_l2: &[u8], round: u64, uid: u64, msg_num: u64, first: usize, partitions: &[Vec<u8>]) -> (r: Option<
    (u64, Vec<u8>),
>)
    requires
        k_l2@.len() < HASH_LIMIT,
    ensures
        r matches Some((iter, alias)) ==> {
            &&& is_alias_iter(k_l2@, round, uid, msg_num, first as int, byte_strings(partitions@), iter)
            &&& alias@ == spec_alias(k_l2@, round, uid, msg_num, iter)
            &&& alias@.len() == LABEL_SIZE
        },
        r is None ==> partitions@.len() < 2 || forall|c: u64|
            spec_bucket_idx(#[trigger] spec_alias(k_l2@, round, uid, msg_num, c), byte_strings(partitions@)) == first,
{
    if partitions.len() < 2 {
        return None;
    }
    let mut iter: u64 = 0;
    while iter < u64::MAX
        invariant
            k_l2@.len() < HASH_LIMIT,
            forall|c: u64|
                c < iter ==> spec_bucket_idx(
                    #[trigger] spec_alias(k_l2@, round, uid, msg_num, c),
                    byte_strings(partitions@),
                ) == first,
        decreases u64::MAX - iter,
    {
        let alias = gen_label(k_l2, round, uid, msg_num, iter);
        if bucket_idx(alias.as_slice(), partitions) != first {
            return Some((iter, alias));
        }
        iter += 1;
    }
    let alias = gen_label(k_l2, round, uid, msg_num, iter);
    if bucket_idx(alias.as_slice(), partitions) != first {
        return Some((iter, alias));
    }
    None
}

/// The state of a client: its name and rates, the round, its peers, and
/// what it knows of the buckets of the round.
pub struct PungClient {
    id: u64,
    name: Vec<u8>,
    send_rate: u32,
    ret_rate: u32,
    depth: u64,
    round: u64,
    buckets: Vec<BucketInfo>,
    ret_scheme: RetScheme,
    opt_scheme: OptScheme,
    peers: Vec<PeerEntry>,
    dummy: Option<PungPeer>,
    partitions: Vec<Vec<u8>>,
}

impl PungClient {
    /// The id that the server gave the client.
    pub closed spec fn spec_id(&self) -> u64 {
        self.id
    }

    /// The name of the client.
    pub closed spec fn spec_name(&self) -> Seq<u8> {
        self.name@
    }

    /// The number of tuples that the client sends in a round.
    pub closed spec fn spec_send_rate(&self) -> u32 {
        self.send_rate
    }

    /// The number of messages that the client retrieves in a round, which
    /// is the number of buckets.
    pub closed spec fn spec_ret_rate(&self) -> u32 {
        self.ret_rate
    }

    /// The depth of recursion of the retrieval primitive.
    pub closed spec fn spec_depth(&self) -> u64 {
        self.depth
    }

    /// The round of the client.
    pub closed spec fn spec_round(&self) -> u64 {
        self.round
    }

    /// What the client knows of the buckets of the round.
    pub closed spec fn spec_buckets(&self) -> Seq<BucketInfo> {
        self.buckets@
    }

    /// How the client finds labels.
    pub closed spec fn spec_ret_scheme(&self) -> RetScheme {
        self.ret_scheme
    }

    /// The optimization scheme.
    pub closed spec fn spec_opt_scheme(&self) -> OptScheme {
        self.opt_scheme
    }

    /// The peers of the client.
    pub closed spec fn spec_peers(&self) -> Seq<PeerEntry> {
        self.peers@
    }

    /// The peer that stands in where there is nothing to retrieve.
    pub closed spec fn spec_dummy(&self) -> Option<PungPeer> {
        self.dummy
    }

    /// The markers of the buckets.
    pub closed spec fn spec_partitions(&self) -> Seq<Seq<u8>> {
        byte_strings(self.partitions@)
    }

    /// No two peers have one name, the keys of every peer have `KEY_SIZE`
    /// bytes, and the buckets are those of the retrieval rate.
    pub closed spec fn wf(&self) -> bool {
        &&& byte_strings(self.partitions@) == spec_markers(self.ret_rate as nat)
        &&& self.partitions@.len() == self.ret_rate
        &&& names_distinct(self.peers@)
        &&& forall|i: int|
            0 <= i < self.peers@.len() ==> {
                &&& (#[trigger] self.peers@[i]).peer.keys.k_e@.len() == KEY_SIZE
                &&& self.peers@[i].peer.keys.k_l@.len() == KEY_SIZE
                &&& self.peers@[i].peer.keys.k_l2@.len() == KEY_SIZE
            }
        &&& self.dummy matches Some(d) ==> d.keys.k_e@.len() == KEY_SIZE && d.keys.k_l@.len() == KEY_SIZE
            && d.keys.k_l2@.len() == KEY_SIZE
        &&& self.buckets@.len() == 0 || self.buckets@.len() == self.ret_rate
        &&& forall|b: int|
            0 <= b < self.buckets@.len() ==> (#[trigger] self.buckets@[b]).lmid@.len() == spec_lmids_per_bucket(
                self.opt_scheme,
            )
    }

    /// A client knows each peer by one name.
    pub proof fn lemma_peers_distinct(&self)
        requires
            self.wf(),
        ensures
            names_distinct(self.spec_peers()),
    {
    }

    /// A client with a name, in round 0, with no peers: it sends
    /// `send_rate` tuples in a round and retrieves from `ret_rate`
    /// buckets.
    pub fn new(
        name: &str,
        send_rate: u32,
        ret_rate: u32,
        depth: u64,
        ret_scheme: RetScheme,
        opt_scheme: OptScheme,
    ) -> (client: PungClient)
        ensures
            client.wf(),
            client.spec_id() == 0,
            client.spec_name() == name.spec_bytes(),
            client.spec_send_rate() == send_rate,
            client.spec_ret_rate() == ret_rate,
            client.spec_depth() == depth,
            client.spec_round() == 0,
            client.spec_buckets().len() == 0,
            client.spec_ret_scheme() == ret_scheme,
            client.spec_opt_scheme() == opt_scheme,
            client.spec_peers().len() == 0,
            client.spec_dummy() is None,
            client.spec_partitions() == spec_markers(ret_rate as nat),
    {
        let buckets = ret_rate as usize;
        let mut partitions: Vec<Vec<u8>> = Vec::with_capacity(buckets);
        let mut i: usize = 0;
        while i < buckets
            invariant
                i <= buckets <= u32::MAX,
                partitions@.len() == i,
                forall|k: int| 0 <= k < i ==> (#[trigger] partitions@[k])@ == spec_marker(k as nat, buckets as nat),
            decreases buckets - i,
        {
            partitions.push(label_marker(i, buckets));
            i += 1;
        }
        assert(byte_strings(partitions@) =~= spec_markers(buckets as nat));
        PungClient {
            id: 0,
            name: vstd::slice::slice_to_vec(name.as_bytes()),
            send_rate,
            ret_rate,
            depth,
            round: 0,
            buckets: Vec::new(),
            ret_scheme,
            opt_scheme,
            peers: Vec::new(),
            dummy: None,
            partitions,
        }
    }

    /// The round of the client.
    pub fn get_round(&self) -> (round: u64)
        ensures
            round == self.spec_round(),
    {
        self.round
    }

    /// The id that the server gave the client.
    pub fn get_id(&self) -> (id: u64)
        ensures
            id == self.spec_id(),
    {
        self.id
    }

    /// The rate that the client registers with.
    pub fn get_send_rate(&self) -> (rate: u32)
        ensures
            rate == self.spec_send_rate(),
    {
        self.send_rate
    }

    /// The rate that the client registers with at the server, which
    /// counts stored tuples: the number of tuples that it sends in a
    /// round, twice where every message is stored under two labels.
    pub fn register_rate(&self) -> (rate: u32)
        ensures
            rate == if !spec_aliased(self.spec_opt_scheme()) {
                self.spec_send_rate() as int
            } else if 2 * self.spec_send_rate() <= u32::MAX {
                2 * self.spec_send_rate()
            } else {
                u32::MAX as int
            },
    {
        if self.opt_scheme == OptScheme::Normal {
            self.send_rate
        } else if self.send_rate <= u32::MAX / 2 {
            2 * self.send_rate
        } else {
            u32::MAX
        }
    }

    /// The number of buckets that the client retrieves from.
    pub fn get_ret_rate(&self) -> (rate: u32)
        ensures
            rate == self.spec_ret_rate(),
    {
        self.ret_rate
    }

    /// Moves the client `val` rounds on, where the rounds do not run out,
    /// and forgets the buckets of the round.
    pub fn inc_round(&mut self, val: u64)
        requires
            old(self).wf(),
            old(self).spec_round() + val <= u64::MAX,
        ensures
            final(self).wf(),
            final(self).spec_round() == old(self).spec_round() + val,
            final(self).spec_buckets().len() == 0,
            final(self).spec_id() == old(self).spec_id(),
            final(self).spec_name() == old(self).spec_name(),
            final(self).spec_send_rate() == old(self).spec_send_rate(),
            final(self).spec_ret_rate() == old(self).spec_ret_rate(),
            final(self).spec_depth() == old(self).spec_depth(),
            final(self).spec_ret_scheme() == old(self).spec_ret_scheme(),
            final(self).spec_opt_scheme() == old(self).spec_opt_scheme(),
            final(self).spec_peers() == old(self).spec_peers(),
            final(self).spec_dummy() == old(self).spec_dummy(),
            final(self).spec_partitions() == old(self).spec_partitions(),
    {
        self.round = self.round + val;
        self.buckets.clear();
    }

    /// The index of the peer with the name.
    pub fn find_peer(&self, name: &[u8]) -> (r: Option<usize>)
        ensures
            r matches Some(i) ==> i == peer_index(self.spec_peers(), name@) && i < self.spec_peers().len() && self.spec_peers()[i as int].name@
                == name@,
            r is None ==> peer_index(self.spec_peers(), name@) == -1,
    {
        let mut i: usize = 0;
        while i < self.peers.len()
            invariant
                i <= self.peers@.len(),
                peer_index(self.peers@.take(i as int), name@) == -1,
            decreases self.peers@.len() - i,
        {
            proof {
                assert(self.peers@.take(i as int + 1).drop_last() =~= self.peers@.take(i as int));
            }
            if label_eq(self.peers[i].name.as_slice(), name) {
                proof {
                    lemma_peer_index_prefix(self.peers@, name@, i as int + 1);
                }
                return Some(i);
            }
            i += 1;
        }
        assert(self.peers@.take(self.peers@.len() as int) =~= self.peers@);
        None
    }

    /// Adds a peer with the secret that the client shares with it, or
    /// replaces the peer of that name. The uids of the two come from
    /// their names, and the keys from the secret.
    pub fn add_peer(&mut self, peer: &str, secret: &[u8])
        requires
            old(self).wf(),
            secret@.len() + HASH_BLOCK < HASH_LIMIT,
        ensures
            final(self).wf(),
            final(self).spec_peers().len() == if peer_index(old(self).spec_peers(), peer.spec_bytes()) >= 0 {
                old(self).spec_peers().len()
            } else {
                old(self).spec_peers().len() + 1
            },
            ({
                let at = if peer_index(old(self).spec_peers(), peer.spec_bytes()) >= 0 {
                    peer_index(old(self).spec_peers(), peer.spec_bytes())
                } else {
                    old(self).spec_peers().len() as int
                };
                let entry = final(self).spec_peers()[at];
                &&& entry.name@ == peer.spec_bytes()
                &&& (entry.peer.uid_self, entry.peer.uid_peer) == spec_uids(old(self).spec_name(), peer.spec_bytes())
                &&& entry.peer.keys.k_e@ == spec_k_e(secret@)
                &&& entry.peer.keys.k_l@ == spec_k_l(secret@)
                &&& entry.peer.keys.k_l2@ == spec_k_l2(secret@)
                &&& forall|i: int|
                    0 <= i < old(self).spec_peers().len() && i != at ==> #[trigger] final(self).spec_peers()[i] == old(self).spec_peers()[i]
            }),
            final(self).spec_id() == old(self).spec_id(),
            final(self).spec_name() == old(self).spec_name(),
            final(self).spec_send_rate() == old(self).spec_send_rate(),
            final(self).spec_ret_rate() == old(self).spec_ret_rate(),
            final(self).spec_depth() == old(self).spec_depth(),
            final(self).spec_round() == old(self).spec_round(),
            final(self).spec_buckets() == old(self).spec_buckets(),
            final(self).spec_ret_scheme() == old(self).spec_ret_scheme(),
            final(self).spec_opt_scheme() == old(self).spec_opt_scheme(),
            final(self).spec_dummy() == old(self).spec_dummy(),
            final(self).spec_partitions() == old(self).spec_partitions(),
    {
        let keys = derive_keys(secret);
        let name = peer.as_bytes();
        let entry = if label_lt(self.name.as_slice(), name) {
            PeerEntry { name: vstd::slice::slice_to_vec(name), peer: PungPeer::new(0, 1, keys) }
        } else if label_lt(name, self.name.as_slice()) {
            PeerEntry { name: vstd::slice::slice_to_vec(name), peer: PungPeer::new(1, 0, keys) }
        } else {
            PeerEntry { name: vstd::slice::slice_to_vec(name), peer: PungPeer::new(0, 0, keys) }
        };
        proof {
            lemma_peer_index(self.peers@, name@);
        }
        match self.find_peer(name) {
            Some(i) => {
                self.peers[i] = entry;
            },
            None => {
                self.peers.push(entry);
            },
        }
    }

    /// Sets up the peer that stands in where there is nothing to
    /// retrieve: its keys come from random bytes.
    pub fn init_dummy_peer(&mut self)
        requires
            old(self).wf(),
        ensures
            final(self).wf(),
            final(self).spec_dummy() is Some,
            final(self).spec_dummy()->0.uid_self == 0,
            final(self).spec_dummy()->0.uid_peer == 0,
            final(self).spec_id() == old(self).spec_id(),
            final(self).spec_name() == old(self).spec_name(),
            final(self).spec_send_rate() == old(self).spec_send_rate(),
            final(self).spec_ret_rate() == old(self).spec_ret_rate(),
            final(self).spec_depth() == old(self).spec_depth(),
            final(self).spec_round() == old(self).spec_round(),
            final(self).spec_buckets() == old(self).spec_buckets(),
            final(self).spec_ret_scheme() == old(self).spec_ret_scheme(),
            final(self).spec_opt_scheme() == old(self).spec_opt_scheme(),
            final(self).spec_peers() == old(self).spec_peers(),
            final(self).spec_partitions() == old(self).spec_partitions(),
    {
        let mut rng = unseeded_rng();
        let secret = random_bytes(&mut rng, DUMMY_SECRET_SIZE);
        let keys = derive_keys(secret.as_slice());
        self.dummy = Some(PungPeer::new(0, 0, keys));
    }

    /// Records the id that the server gave the client when it
    /// registered.
    pub fn register(&mut self, id: u64) -> (r: u64)
        requires
            old(self).wf(),
        ensures
            final(self).wf(),
            r == id,
            final(self).spec_id() == id,
            final(self).spec_name() == old(self).spec_name(),
            final(self).spec_send_rate() == old(self).spec_send_rate(),
            final(self).spec_ret_rate() == old(self).spec_ret_rate(),
            final(self).spec_depth() == old(self).spec_depth(),
            final(self).spec_round() == old(self).spec_round(),
            final(self).spec_buckets() == old(self).spec_buckets(),
            final(self).spec_ret_scheme() == old(self).spec_ret_scheme(),
            final(self).spec_opt_scheme() == old(self).spec_opt_scheme(),
            final(self).spec_peers() == old(self).spec_peers(),
            final(self).spec_dummy() == old(self).spec_dummy(),
            final(self).spec_partitions() == old(self).spec_partitions(),
    {
        self.id = id;
        id
    }

    /// Takes the round that the server gave when the client synchronized:
    /// the client moves on to it, unless it lies behind the round of the
    /// client.
    pub fn sync(&mut self, new_round: u64) -> (r: Result<(), Error>)
        requires
            old(self).wf(),
        ensures
            final(self).wf(),
            r is Ok == (old(self).spec_round() <= new_round),
            r matches Err(e) ==> e == Error::InvalidRound,
            final(self).spec_round() == if r is Ok {
                new_round
            } else {
                old(self).spec_round()
            },
            final(self).spec_id() == old(self).spec_id(),
            final(self).spec_name() == old(self).spec_name(),
            final(self).spec_send_rate() == old(self).spec_send_rate(),
            final(self).spec_ret_rate() == old(self).spec_ret_rate(),
            final(self).spec_depth() == old(self).spec_depth(),
            final(self).spec_buckets() == old(self).spec_buckets(),
            final(self).spec_ret_scheme() == old(self).spec_ret_scheme(),
            final(self).spec_opt_scheme() == old(self).spec_opt_scheme(),
            final(self).spec_peers() == old(self).spec_peers(),
            final(self).spec_dummy() == old(self).spec_dummy(),
            final(self).spec_partitions() == old(self).spec_partitions(),
    {
        if self.round <= new_round {
            self.round = new_round;
            Ok(())
        } else {
            Err(Error::InvalidRound)
        }
    }
}

/// Whether a second label exists for a message whose first label falls
/// into bucket `first`.
pub open spec fn has_alias(k_l2: Seq<u8>, round: u64, uid: u64, msg_num: u64, first: int, partitions: Seq<Seq<u8>>) -> bool {
    exists|iter: u64| is_alias_iter(k_l2, round, uid, msg_num, first, partitions, iter)
}

/// The collision counter of the second label of a message.
pub open spec fn alias_iter(k_l2: Seq<u8>, round: u64, uid: u64, msg_num: u64, first: int, partitions: Seq<Seq<u8>>) -> u64 {
    choose|iter: u64| is_alias_iter(k_l2, round, uid, msg_num, first, partitions, iter)
}

/// The second label of a message: the label under the second key with
/// the least collision counter that falls into another bucket than the
/// first label.
pub open spec fn alias_label(k_l2: Seq<u8>, round: u64, uid: u64, msg_num: u64, first: int, partitions: Seq<Seq<u8>>) -> Seq<u8> {
    spec_alias(k_l2, round, uid, msg_num, alias_iter(k_l2, round, uid, msg_num, first, partitions))
}

/// There is one collision counter at most.
pub proof fn lemma_alias_iter_unique(
    k_l2: Seq<u8>,
    round: u64,
    uid: u64,
    msg_num: u64,
    first: int,
    partitions: Seq<Seq<u8>>,
    iter: u64,
)
    requires
        is_alias_iter(k_l2, round, uid, msg_num, first, partitions, iter),
    ensures
        has_alias(k_l2, round, uid, msg_num, first, partitions),
        alias_iter(k_l2, round, uid, msg_num, first, partitions) == iter,
{
    let other = alias_iter(k_l2, round, uid, msg_num, first, partitions);
    assert(is_alias_iter(k_l2, round, uid, msg_num, first, partitions, other));
    if other < iter {
        assert(spec_bucket_idx(spec_alias(k_l2, round, uid, msg_num, other), partitions) == first);
    }
    if iter < other {
        assert(spec_bucket_idx(spec_alias(k_l2, round, uid, msg_num, iter), partitions) == first);
    }
}

/// The labels of the message `msg_num` under the uid `uid`: the first
/// label, and the second where messages are stored twice.
pub open spec fn spec_labels(peer: PeerView, round: u64, uid: u64, msg_num: u64, opt: OptScheme, partitions: Seq<Seq<u8>>) -> Seq<u8> {
    let label = spec_gen_label(peer.k_l, round, uid, msg_num, 0);
    if spec_aliased(opt) {
        label + alias_label(peer.k_l2, round, uid, msg_num, spec_bucket_idx(label, partitions), partitions)
    } else {
        label
    }
}

/// The tuple that goes over the wire for the message `msg_num` to a peer:
/// its labels, the ciphertext and the tag.
pub open spec fn spec_wire_tuple(
    peer: PeerView,
    round: u64,
    msg_num: u64,
    msg: Seq<u8>,
    opt: OptScheme,
    partitions: Seq<Seq<u8>>,
) -> Seq<u8> {
    spec_labels(peer, round, peer.uid_peer, msg_num, opt, partitions) + spec_encrypt(peer.k_e, round, msg).0
        + spec_encrypt(peer.k_e, round, msg).1
}

/// Why a message cannot be sent, if it cannot: it is too long, or no
/// second label falls into another bucket than the first.
pub open spec fn msg_failure(peer: PeerView, round: u64, uid: u64, msg_num: u64, msg_len: nat, opt: OptScheme, partitions: Seq<Seq<u8>>) -> Option<Error> {
    if msg_len > MESSAGE_SIZE {
        Some(Error::MessageTooLong)
    } else if spec_aliased(opt) && !has_alias(
        peer.k_l2,
        round,
        uid,
        msg_num,
        spec_bucket_idx(spec_gen_label(peer.k_l, round, uid, msg_num, 0), partitions),
        partitions,
    ) {
        Some(Error::NoAlias)
    } else {
        None
    }
}

/// The sum of a list of numbers.
pub open spec fn spec_sum(s: Seq<u64>) -> nat
    decreases s.len(),
{
    if s.len() == 0 {
        0
    } else {
        spec_sum(s.drop_last()) + s.last() as nat
    }
}

/// The number of labels that a bucket publishes.
pub open spec fn spec_lmids_per_bucket(opt: OptScheme) -> nat {
    match opt {
        OptScheme::Normal | OptScheme::Aliasing => 0,
        OptScheme::Hybrid2 => 1,
        OptScheme::Hybrid4 => 3,
    }
}

impl PungClient {
    /// The labels of a message under a uid, for sending or for finding
    /// it: the first label, and the second where messages are stored
    /// twice; or why there are none.
    fn labels_for(&self, peer: &PungPeer, uid: u64, msg_num: u64) -> (r: Result<(Vec<u8>, Option<Vec<u8>>), Error>)
        requires
            self.wf(),
            peer.keys.k_l@.len() == KEY_SIZE,
            peer.keys.k_l2@.len() == KEY_SIZE,
        ensures
            match r {
                Ok((label, alias)) => {
                    &&& msg_failure(peer@, self.spec_round(), uid, msg_num, 0, self.spec_opt_scheme(), self.spec_partitions()) is None
                    &&& label@ == spec_gen_label(peer.keys.k_l@, self.spec_round(), uid, msg_num, 0)
                    &&& label@.len() == LABEL_SIZE
                    &&& alias is Some == spec_aliased(self.spec_opt_scheme())
                    &&& alias matches Some(a) ==> a@ == alias_label(
                        peer.keys.k_l2@,
                        self.spec_round(),
                        uid,
                        msg_num,
                        spec_bucket_idx(label@, self.spec_partitions()),
                        self.spec_partitions(),
                    ) && a@.len() == LABEL_SIZE && spec_bucket_idx(a@, self.spec_partitions()) != spec_bucket_idx(
                        label@,
                        self.spec_partitions(),
                    )
                },
                Err(e) => msg_failure(
                    peer@,
                    self.spec_round(),
                    uid,
                    msg_num,
                    0,
                    self.spec_opt_scheme(),
                    self.spec_partitions(),
                ) == Some(e),
            },
    {
        let label = gen_label(peer.keys.k_l.as_slice(), self.round, uid, msg_num, 0);
        if self.opt_scheme == OptScheme::Normal {
            return Ok((label, None));
        }
        let first = bucket_idx(label.as_slice(), self.partitions.as_slice());
        match find_alias(peer.keys.k_l2.as_slice(), self.round, uid, msg_num, first, self.partitions.as_slice()) {
            Some((iter, alias)) => {
                proof {
                    lemma_alias_iter_unique(
                        peer.keys.k_l2@,
                        self.round,
                        uid,
                        msg_num,
                        first as int,
                        self.spec_partitions(),
                        iter,
                    );
                }
                Ok((label, Some(alias)))
            },
            None => {
                proof {
                    let parts = self.spec_partitions();
                    if has_alias(peer.keys.k_l2@, self.round, uid, msg_num, first as int, parts) {
                        let iter = alias_iter(peer.keys.k_l2@, self.round, uid, msg_num, first as int, parts);
                        assert(is_alias_iter(peer.keys.k_l2@, self.round, uid, msg_num, first as int, parts, iter));
                        if parts.len() < 2 {
                            lemma_one_bucket(spec_alias(peer.keys.k_l2@, self.round, uid, msg_num, iter), parts);
                            lemma_one_bucket(label@, parts);
                        }
                    }
                }
                Err(Error::NoAlias)
            },
        }
    }

    /// The tuples that go over the wire for messages to a peer, in the
    /// round of the client: each message is encrypted under the key that
    /// the two share and labeled under the uid of the peer, with the
    /// number of the message.
    pub fn send(&self, recipient: &str, msgs: &[Vec<u8>]) -> (r: Result<Vec<Vec<u8>>, Error>)
        requires
            self.wf(),
        ensures
            peer_index(self.spec_peers(), recipient.spec_bytes()) < 0 ==> r == Err::<Vec<Vec<u8>>, Error>(
                Error::InvalidPeer,
            ),
            peer_index(self.spec_peers(), recipient.spec_bytes()) >= 0 && msgs@.len() == 0 ==> r == Err::<
                Vec<Vec<u8>>,
                Error,
            >(Error::NoMessages),
            peer_index(self.spec_peers(), recipient.spec_bytes()) >= 0 && msgs@.len() > 0 ==> ({
                let peer = self.spec_peers()[peer_index(self.spec_peers(), recipient.spec_bytes())].peer@;
                match r {
                    Ok(tuples) => {
                        &&& tuples@.len() == msgs@.len()
                        &&& forall|k: int|
                            0 <= k < msgs@.len() ==> {
                                &&& msg_failure(
                                    peer,
                                    self.spec_round(),
                                    peer.uid_peer,
                                    k as u64,
                                    msgs@[k]@.len(),
                                    self.spec_opt_scheme(),
                                    self.spec_partitions(),
                                ) is None
                                &&& (#[trigger] tuples@[k])@ == spec_wire_tuple(
                                    peer,
                                    self.spec_round(),
                                    k as u64,
                                    msgs@[k]@,
                                    self.spec_opt_scheme(),
                                    self.spec_partitions(),
                                )
                            }
                    },
                    Err(e) => exists|k: int|
                        0 <= k < msgs@.len() && #[trigger] msg_failure(
                            peer,
                            self.spec_round(),
                            peer.uid_peer,
                            k as u64,
                            msgs@[k]@.len(),
                            self.spec_opt_scheme(),
                            self.spec_partitions(),
                        ) == Some(e) && forall|j: int|
                            0 <= j < k ==> (#[trigger] msg_failure(
                                peer,
                                self.spec_round(),
                                peer.uid_peer,
                                j as u64,
                                msgs@[j]@.len(),
                                self.spec_opt_scheme(),
                                self.spec_partitions(),
                            )) is None,
                }
            }),
    {
        let i = match self.find_peer(recipient.as_bytes()) {
            Some(i) => i,
            None => {
                return Err(Error::InvalidPeer);
            },
        };
        if msgs.len() == 0 {
            return Err(Error::NoMessages);
        }
        let peer = &self.peers[i].peer;
        let ghost pv = peer@;
        let mut tuples: Vec<Vec<u8>> = Vec::with_capacity(msgs.len());
        let mut k: usize = 0;
        while k < msgs.len()
            invariant
                k <= msgs@.len(),
                msgs@.len() > 0,
                self.wf(),
                i < self.peers@.len(),
                i == peer_index(self.spec_peers(), recipient.spec_bytes()),
                *peer == self.peers@[i as int].peer,
                pv == peer@,
                tuples@.len() == k,
                forall|j: int|
                    0 <= j < k ==> (#[trigger] msg_failure(
                        pv,
                        self.spec_round(),
                        pv.uid_peer,
                        j as u64,
                        msgs@[j]@.len(),
                        self.spec_opt_scheme(),
                        self.spec_partitions(),
                    )) is None,
                forall|j: int|
                    0 <= j < k ==> (#[trigger] tuples@[j])@ == spec_wire_tuple(
                        pv,
                        self.spec_round(),
                        j as u64,
                        msgs@[j]@,
                        self.spec_opt_scheme(),
                        self.spec_partitions(),
                    ),
            decreases msgs@.len() - k,
        {
            let msg = msgs[k].as_slice();
            if msg.len() > MESSAGE_SIZE {
                assert(msg_failure(
                    pv,
                    self.spec_round(),
                    pv.uid_peer,
                    k as u64,
                    msgs@[k as int]@.len(),
                    self.spec_opt_scheme(),
                    self.spec_partitions(),
                ) == Some(Error::MessageTooLong));
                return Err(Error::MessageTooLong);
            }
            let (mut tuple, alias) = match self.labels_for(peer, peer.uid_peer, k as u64) {
                Ok(labels) => labels,
                Err(e) => {
                    assert(msg_failure(
                        pv,
                        self.spec_round(),
                        pv.uid_peer,
                        k as u64,
                        msgs@[k as int]@.len(),
                        self.spec_opt_scheme(),
                        self.spec_partitions(),
                    ) == Some(e));
                    return Err(e);
                },
            };
            match alias {
                Some(mut a) => {
                    tuple.append(&mut a);
                },
                None => {},
            }
            let (mut c, mut mac) = encrypt(peer.keys.k_e.as_slice(), self.round, msg);
            tuple.append(&mut c);
            tuple.append(&mut mac);
            proof {
                assert(tuple@ =~= spec_wire_tuple(
                    pv,
                    self.spec_round(),
                    k as u64,
                    msgs@[k as int]@,
                    self.spec_opt_scheme(),
                    self.spec_partitions(),
                ));
                assert(msg_failure(
                    pv,
                    self.spec_round(),
                    pv.uid_peer,
                    k as u64,
                    msgs@[k as int]@.len(),
                    self.spec_opt_scheme(),
                    self.spec_partitions(),
                ) is None);
            }
            tuples.push(tuple);
            k += 1;
        }
        Ok(tuples)
    }

    /// Takes the reply to the send requests of the round: the number of
    /// tuples of each bucket, and the labels that the buckets publish. A
    /// reply that does not have one number for each bucket of the
    /// client, or not the labels of the scheme, is refused. The total
    /// number of tuples comes back.
    pub fn receive_info(&mut self, num_messages: &[u64], min_labels: &[Vec<u8>]) -> (r: Result<u64, Error>)
        requires
            old(self).wf(),
        ensures
            final(self).wf(),
            r is Ok == (num_messages@.len() == old(self).spec_ret_rate() && min_labels@.len() == num_messages@.len()
                * spec_lmids_per_bucket(old(self).spec_opt_scheme()) && spec_sum(num_messages@) <= u64::MAX),
            r matches Err(e) ==> e == Error::InvalidReply && final(self).spec_buckets() == old(self).spec_buckets(),
            r matches Ok(total) ==> {
                &&& total == spec_sum(num_messages@)
                &&& final(self).spec_buckets().len() == num_messages@.len()
                &&& forall|b: int|
                    0 <= b < num_messages@.len() ==> {
                        &&& (#[trigger] final(self).spec_buckets()[b]).num == num_messages@[b]
                        &&& byte_strings(final(self).spec_buckets()[b].lmid@) == byte_strings(min_labels@).subrange(
                            b * spec_lmids_per_bucket(old(self).spec_opt_scheme()),
                            (b + 1) * spec_lmids_per_bucket(old(self).spec_opt_scheme()),
                        )
                    }
            },
            final(self).spec_id() == old(self).spec_id(),
            final(self).spec_name() == old(self).spec_name(),
            final(self).spec_send_rate() == old(self).spec_send_rate(),
            final(self).spec_ret_rate() == old(self).spec_ret_rate(),
            final(self).spec_depth() == old(self).spec_depth(),
            final(self).spec_round() == old(self).spec_round(),
            final(self).spec_ret_scheme() == old(self).spec_ret_scheme(),
            final(self).spec_opt_scheme() == old(self).spec_opt_scheme(),
            final(self).spec_peers() == old(self).spec_peers(),
            final(self).spec_dummy() == old(self).spec_dummy(),
            final(self).spec_partitions() == old(self).spec_partitions(),
    {
        let per: usize = match self.opt_scheme {
            OptScheme::Normal | OptScheme::Aliasing => 0,
            OptScheme::Hybrid2 => 1,
            OptScheme::Hybrid4 => 3,
        };
        let n = num_messages.len();
        if n != self.ret_rate as usize {
            return Err(Error::InvalidReply);
        }
        assert(n * per <= 3 * 0xffff_ffff) by (nonlinear_arith)
            requires
                n <= 0xffff_ffff,
                per <= 3,
        ;
        if min_labels.len() as u64 != (n as u64) * (per as u64) {
            return Err(Error::InvalidReply);
        }
        let mut buckets: Vec<BucketInfo> = Vec::with_capacity(n);
        let mut total: u64 = 0;
        let mut b: usize = 0;
        while b < n
            invariant
                b <= n <= u32::MAX,
                *self == *old(self),
                self.wf(),
                per == spec_lmids_per_bucket(self.opt_scheme),
                min_labels@.len() <= usize::MAX,
                per <= 3,
                n == num_messages@.len(),
                min_labels@.len() == n * per,
                buckets@.len() == b,
                total == spec_sum(num_messages@.take(b as int)),
                forall|k: int|
                    0 <= k < b ==> {
                        &&& (#[trigger] buckets@[k]).num == num_messages@[k]
                        &&& byte_strings(buckets@[k].lmid@) == byte_strings(min_labels@).subrange(k * per, (k + 1) * per)
                    },
            decreases n - b,
        {
            proof {
                assert(num_messages@.take(b as int + 1).drop_last() =~= num_messages@.take(b as int));
                lemma_sum_take(num_messages@, b as int + 1);
            }
            if num_messages[b] > u64::MAX - total {
                return Err(Error::InvalidReply);
            }
            total = total + num_messages[b];
            let mut lmid: Vec<Vec<u8>> = Vec::with_capacity(per);
            let mut j: usize = 0;
            assert(b * per + per == (b + 1) * per) by (nonlinear_arith);
            assert((b + 1) * per <= n * per) by (nonlinear_arith)
                requires
                    b < n,
            ;
            while j < per
                invariant
                    j <= per <= 3,
                    b < n,
                    min_labels@.len() <= usize::MAX,
                    b * per + per <= min_labels@.len(),
                    lmid@.len() == j,
                    forall|t: int| 0 <= t < j ==> (#[trigger] lmid@[t])@ == min_labels@[b * per + t]@,
                decreases per - j,
            {
                assert(b * per + j < usize::MAX);
                lmid.push(min_labels[b * per + j].clone());
                j += 1;
            }
            assert(byte_strings(lmid@) =~= byte_strings(min_labels@).subrange(b * per, (b + 1) * per));
            buckets.push(BucketInfo { num: num_messages[b], lmid });
            b += 1;
        }
        assert(num_messages@.take(n as int) =~= num_messages@);
        self.buckets = buckets;
        Ok(total)
    }
}

/// The sum of the first numbers of a list is no more than the sum of
/// all.
pub proof fn lemma_sum_take(s: Seq<u64>, k: int)
    requires
        0 <= k <= s.len(),
    ensures
        spec_sum(s.take(k)) <= spec_sum(s),
    decreases s.len() - k,
{
    if k < s.len() {
        lemma_sum_take(s, k + 1);
        assert(s.take(k + 1).drop_last() =~= s.take(k));
    } else {
        assert(s.take(k) =~= s);
    }
}

/// The names as bytes.
pub open spec fn names_of(names: Seq<&str>) -> Seq<Seq<u8>> {
    Seq::new(names.len(), |k: int| names[k].spec_bytes())
}

/// How often the peer at index `i` is named among the first `upto`
/// names.
pub open spec fn spec_count(peers: Seq<PeerEntry>, names: Seq<Seq<u8>>, upto: nat, i: int) -> nat
    decreases upto,
{
    if upto == 0 {
        0
    } else if peer_index(peers, names[upto - 1]) == i {
        spec_count(peers, names, (upto - 1) as nat, i) + 1
    } else {
        spec_count(peers, names, (upto - 1) as nat, i)
    }
}

/// Why the label of the `k`-th name cannot be scheduled, if it cannot:
/// the name is not that of a peer, or the label of the message has no
/// second label.
pub open spec fn name_failure(peers: Seq<PeerEntry>, names: Seq<Seq<u8>>, round: u64, opt: OptScheme, partitions: Seq<Seq<u8>>, k: int) -> Option<Error> {
    let i = peer_index(peers, names[k]);
    if i < 0 {
        Some(Error::InvalidPeer)
    } else {
        msg_failure(peers[i].peer@, round, peers[i].peer.uid_self, spec_count(peers, names, k as nat, i) as u64, 0, opt, partitions)
    }
}

/// The labels that a client looks for, by bucket, for the first `upto`
/// names of peers to retrieve from: for every name the label of the next
/// message of that peer, under the uid of the client, placed as
/// `spec_place` says.
pub open spec fn spec_schedule(
    peers: Seq<PeerEntry>,
    names: Seq<Seq<u8>>,
    round: u64,
    opt: OptScheme,
    partitions: Seq<Seq<u8>>,
    upto: nat,
) -> Seq<Seq<ScheduledView>>
    decreases upto,
{
    if upto == 0 {
        Seq::new(partitions.len(), |b: int| Seq::empty())
    } else {
        let before = spec_schedule(peers, names, round, opt, partitions, (upto - 1) as nat);
        let i = peer_index(peers, names[upto - 1]);
        let peer = peers[i].peer@;
        let count = spec_count(peers, names, (upto - 1) as nat, i) as u64;
        let label = spec_gen_label(peer.k_l, round, peer.uid_self, count, 0);
        let first = spec_bucket_idx(label, partitions);
        let alias = alias_label(peer.k_l2, round, peer.uid_self, count, first, partitions);
        spec_place(
            before,
            i as usize,
            label,
            first,
            if spec_aliased(opt) {
                Some((alias, spec_bucket_idx(alias, partitions)))
            } else {
                None
            },
        )
    }
}

impl PungClient {
    /// The labels that the client looks for in this round, by bucket, for
    /// the names of the peers to retrieve from; a peer that is named
    /// several times is asked for as many messages.
    pub fn schedule(&self, peer_names: &[&str]) -> (r: Result<Vec<Vec<Scheduled>>, Error>)
        requires
            self.wf(),
        ensures
            match r {
                Ok(map) => {
                    &&& map@.len() == self.spec_ret_rate()
                    &&& peer_names@.len() > 0 ==> self.spec_ret_rate() > 0
                    &&& forall|k: int|
                        0 <= k < peer_names@.len() ==> (#[trigger] name_failure(
                            self.spec_peers(),
                            names_of(peer_names@),
                            self.spec_round(),
                            self.spec_opt_scheme(),
                            self.spec_partitions(),
                            k,
                        )) is None
                    &&& map_view(map@) == spec_schedule(
                        self.spec_peers(),
                        names_of(peer_names@),
                        self.spec_round(),
                        self.spec_opt_scheme(),
                        self.spec_partitions(),
                        peer_names@.len(),
                    )
                    &&& forall|b: int, i: int|
                        0 <= b < map@.len() && 0 <= i < map@[b]@.len() ==> (#[trigger] map@[b]@[i]).peer < self.spec_peers().len()
                },
                Err(e) => if self.spec_ret_rate() == 0 {
                    peer_names@.len() > 0 && e == Error::InvalidBucket
                } else {
                    exists|k: int|
                        0 <= k < peer_names@.len() && #[trigger] name_failure(
                            self.spec_peers(),
                            names_of(peer_names@),
                            self.spec_round(),
                            self.spec_opt_scheme(),
                            self.spec_partitions(),
                            k,
                        ) == Some(e) && forall|j: int|
                            0 <= j < k ==> (#[trigger] name_failure(
                                self.spec_peers(),
                                names_of(peer_names@),
                                self.spec_round(),
                                self.spec_opt_scheme(),
                                self.spec_partitions(),
                                j,
                            )) is None
                },
            },
    {
        let buckets = self.partitions.len();
        let ghost names = names_of(peer_names@);
        let ghost parts = self.spec_partitions();
        let mut map: Vec<Vec<Scheduled>> = Vec::with_capacity(buckets);
        let mut b: usize = 0;
        while b < buckets
            invariant
                b <= buckets,
                map@.len() == b,
                forall|k: int| 0 <= k < b ==> (#[trigger] map@[k])@.len() == 0,
            decreases buckets - b,
        {
            map.push(Vec::new());
            b += 1;
        }
        if buckets == 0 {
            if peer_names.len() > 0 {
                return Err(Error::InvalidBucket);
            }
            assert(map_view(map@) =~~= spec_schedule(
                self.spec_peers(),
                names,
                self.spec_round(),
                self.spec_opt_scheme(),
                parts,
                0,
            ));
            return Ok(map);
        }
        let mut counts: Vec<u64> = vec![0u64; self.peers.len()];
        let mut k: usize = 0;
        assert(map_view(map@) =~~= spec_schedule(
            self.spec_peers(),
            names,
            self.spec_round(),
            self.spec_opt_scheme(),
            parts,
            0,
        ));
        while k < peer_names.len()
            invariant
                k <= peer_names@.len(),
                self.wf(),
                buckets > 0,
                buckets == self.partitions@.len(),
                buckets == self.ret_rate,
                names == names_of(peer_names@),
                parts == self.spec_partitions(),
                map@.len() == buckets,
                counts@.len() == self.peers@.len(),
                forall|i: int|
                    0 <= i < counts@.len() ==> (#[trigger] counts@[i]) == spec_count(self.peers@, names, k as nat, i)
                        && counts@[i] <= k,
                forall|j: int|
                    0 <= j < k ==> (#[trigger] name_failure(
                        self.spec_peers(),
                        names,
                        self.spec_round(),
                        self.spec_opt_scheme(),
                        parts,
                        j,
                    )) is None,
                map_view(map@) == spec_schedule(
                    self.spec_peers(),
                    names,
                    self.spec_round(),
                    self.spec_opt_scheme(),
                    parts,
                    k as nat,
                ),
                forall|b: int, i: int|
                    0 <= b < map@.len() && 0 <= i < map@[b]@.len() ==> (#[trigger] map@[b]@[i]).peer < self.peers@.len(),
            decreases peer_names@.len() - k,
        {
            let name = peer_names[k].as_bytes();
            assert(name@ == names[k as int]);
            let i = match self.find_peer(name) {
                Some(i) => i,
                None => {
                    assert(name_failure(
                        self.spec_peers(),
                        names,
                        self.spec_round(),
                        self.spec_opt_scheme(),
                        parts,
                        k as int,
                    ) == Some(Error::InvalidPeer));
                    return Err(Error::InvalidPeer);
                },
            };
            let peer = &self.peers[i].peer;
            let count = counts[i];
            let (label, alias) = match self.labels_for(peer, peer.uid_self, count) {
                Ok(labels) => labels,
                Err(e) => {
                    assert(name_failure(
                        self.spec_peers(),
                        names,
                        self.spec_round(),
                        self.spec_opt_scheme(),
                        parts,
                        k as int,
                    ) == Some(e));
                    return Err(e);
                },
            };
            assert(name_failure(
                self.spec_peers(),
                names,
                self.spec_round(),
                self.spec_opt_scheme(),
                parts,
                k as int,
            ) is None);
            let first = bucket_idx(label.as_slice(), self.partitions.as_slice());
            let placed = match alias {
                Some(a) => {
                    let second = bucket_idx(a.as_slice(), self.partitions.as_slice());
                    Some((a, second))
                },
                None => None,
            };
            let ghost map0 = map@;
            place(&mut map, i, label, first, placed);
            proof {
                assert forall|b: int, t: int| 0 <= b < map@.len() && 0 <= t < map@[b]@.len() implies (#[trigger] map@[b]@[t]).peer
                    < self.peers@.len() by {
                    assert(map_view(map@)[b][t] == map@[b]@[t]@);
                    assert(map_view(map@)[b].len() == map@[b]@.len());
                    if t < map0[b]@.len() {
                        assert(map_view(map0)[b][t] == map0[b]@[t]@);
                        assert(map_view(map0)[b].len() == map0[b]@.len());
                    }
                }
            }
            counts[i] = count + 1;
            k += 1;
        }
        Ok(map)
    }

    /// The index of labels from the lists of labels that the server
    /// gave: one list for every systematic collection of every bucket.
    pub fn get_explicit_labels(&self, labels: Vec<Vec<Vec<u8>>>) -> (r: Result<LabelIndex, Error>)
        ensures
            r is Ok == (labels@.len() == self.spec_ret_rate() * spec_num_systematic(self.spec_opt_scheme())),
            r matches Ok(index) ==> index == LabelIndex::Explicit(labels),
            r matches Err(e) ==> e == Error::InvalidReply,
    {
        let systematic: u64 = match self.opt_scheme {
            OptScheme::Normal | OptScheme::Aliasing => 1,
            OptScheme::Hybrid2 => 2,
            OptScheme::Hybrid4 => 4,
        };
        assert(self.ret_rate * systematic <= 4 * 0xffff_ffff) by (nonlinear_arith)
            requires
                self.ret_rate <= 0xffff_ffff,
                systematic <= 4,
        ;
        if labels.len() as u64 != (self.ret_rate as u64) * systematic {
            return Err(Error::InvalidReply);
        }
        Ok(LabelIndex::Explicit(labels))
    }

    /// Whether byte strings are the filters of the round: the client knows
    /// the buckets, and there is one filter for every systematic
    /// collection of every bucket, each of the size that the number of
    /// tuples of its collection asks for.
    pub open spec fn filters_fit(&self, blooms: Seq<Seq<u8>>) -> bool {
        &&& self.spec_buckets().len() == self.spec_ret_rate()
        &&& blooms.len() == self.spec_ret_rate() * spec_num_systematic(self.spec_opt_scheme())
        &&& forall|k: int| 0 <= k < blooms.len() ==> #[trigger] self.filter_fits(blooms, k)
    }

    /// Whether the `k`-th byte string has the size of the filter of its
    /// collection.
    pub open spec fn filter_fits(&self, blooms: Seq<Seq<u8>>, k: int) -> bool {
        let systematic = spec_num_systematic(self.spec_opt_scheme()) as int;
        let len = spec_part_len(self.spec_opt_scheme(), self.spec_buckets()[k / systematic].num, (k % systematic) as nat);
        &&& len <= usize::MAX
        &&& blooms[k].len() == spec_filter_bytes(len as nat)
    }

    /// The index of labels from the bytes of the filters that the server
    /// gave: one filter for every systematic collection of every bucket,
    /// each of the size that the number of tuples of its collection
    /// asks for.
    pub fn get_bloom_filter(&self, blooms: &[Vec<u8>]) -> (r: Result<LabelIndex, Error>)
        requires
            self.wf(),
        ensures
            r is Ok == self.filters_fit(byte_strings(blooms@)),
            r matches Err(e) ==> e == Error::InvalidReply,
            r matches Ok(index) ==> {
                &&& index matches LabelIndex::Bloom(filters)
                &&& index->Bloom_0@.len() == blooms@.len()
                &&& forall|k: int|
                    0 <= k < blooms@.len() ==> (#[trigger] index->Bloom_0@[k]).spec_bytes() == blooms@[k]@
                        && index->Bloom_0@[k].spec_hashes() == HASHES
            },
    {
        let systematic: usize = match self.opt_scheme {
            OptScheme::Normal | OptScheme::Aliasing => 1,
            OptScheme::Hybrid2 => 2,
            OptScheme::Hybrid4 => 4,
        };
        if self.buckets.len() != self.ret_rate as usize {
            return Err(Error::InvalidReply);
        }
        let n = self.buckets.len();
        assert(n * systematic <= 4 * 0xffff_ffff) by (nonlinear_arith)
            requires
                n <= 0xffff_ffff,
                systematic <= 4,
        ;
        if blooms.len() as u64 != (n as u64) * (systematic as u64) {
            return Err(Error::InvalidReply);
        }
        let mut filters: Vec<Bloom> = Vec::with_capacity(blooms.len());
        let mut b: usize = 0;
        let ghost bs = byte_strings(blooms@);
        while b < n
            invariant
                b <= n,
                n == self.buckets@.len(),
                n == self.ret_rate,
                bs == byte_strings(blooms@),
                systematic == spec_num_systematic(self.opt_scheme),
                blooms@.len() == n * systematic,
                filters@.len() == b * systematic,
                forall|k: int| 0 <= k < filters@.len() ==> #[trigger] self.filter_fits(bs, k),
                forall|k: int|
                    0 <= k < filters@.len() ==> (#[trigger] filters@[k]).spec_bytes() == blooms@[k]@ && filters@[k].spec_hashes()
                        == HASHES,
            decreases n - b,
        {
            let mut c: usize = 0;
            assert(b * systematic + systematic == (b + 1) * systematic) by (nonlinear_arith);
            assert((b + 1) * systematic <= n * systematic) by (nonlinear_arith)
                requires
                    b < n,
            ;
            while c < systematic
                invariant
                    c <= systematic <= 4,
                    b < n,
                    n == self.buckets@.len(),
                    n == self.ret_rate,
                    bs == byte_strings(blooms@),
                    systematic == spec_num_systematic(self.opt_scheme),
                    blooms@.len() == n * systematic,
                    b * systematic + systematic <= blooms@.len(),
                    filters@.len() == b * systematic + c,
                    forall|k: int| 0 <= k < filters@.len() ==> #[trigger] self.filter_fits(bs, k),
                    forall|k: int|
                        0 <= k < filters@.len() ==> (#[trigger] filters@[k]).spec_bytes() == blooms@[k]@ && filters@[k].spec_hashes()
                            == HASHES,
                decreases systematic - c,
            {
                let len = part_len(self.opt_scheme, self.buckets[b].num, c);
                let ghost at = (b * systematic + c) as int;
                proof {
                    assert(at / systematic as int == b && at % systematic as int == c) by (nonlinear_arith)
                        requires
                            at == b * systematic + c,
                            0 <= c < systematic,
                    ;
                    assert(bs[at] == blooms@[at]@);
                }
                if len > usize::MAX as u64 {
                    assert(!self.filter_fits(bs, at));
                    return Err(Error::InvalidReply);
                }
                let mut filter = Bloom::for_items(len as usize);
                if !filter.from_bytes(blooms[filters.len()].as_slice()) {
                    assert(!self.filter_fits(bs, at));
                    return Err(Error::InvalidReply);
                }
                assert(self.filter_fits(bs, at));
                filters.push(filter);
                c += 1;
            }
            b += 1;
        }
        Ok(LabelIndex::Bloom(filters))
    }

    /// Whether an index of labels is that of the retrieval scheme and
    /// covers every systematic collection of every bucket.
    pub open spec fn index_fits(&self, index: LabelIndex) -> bool {
        let collections = self.spec_ret_rate() * spec_num_systematic(self.spec_opt_scheme());
        match index {
            LabelIndex::Explicit(lists) => self.spec_ret_scheme() == RetScheme::Explicit && lists@.len() == collections,
            LabelIndex::Bloom(filters) => self.spec_ret_scheme() == RetScheme::Bloom && filters@.len() == collections,
            LabelIndex::Tree => self.spec_ret_scheme() == RetScheme::Tree,
        }
    }

    /// Whether every name is that of a peer whose next label can be
    /// scheduled.
    pub open spec fn names_fit(&self, names: Seq<Seq<u8>>) -> bool {
        forall|k: int|
            0 <= k < names.len() ==> (#[trigger] name_failure(
                self.spec_peers(),
                names,
                self.spec_round(),
                self.spec_opt_scheme(),
                self.spec_partitions(),
                k,
            )) is None
    }

    /// The retrievals of this round from the named peers, one message
    /// from a peer for each time that it is named: the labels are
    /// scheduled, and the first probes are ready. The index of labels is
    /// that of the retrieval scheme: the lists of labels or the filters
    /// of the server, or none where labels are found by descent.
    ///
    /// Refused are, in this order: more names than the retrieval rate; a
    /// name that cannot be scheduled; a client without a dummy peer; a
    /// client that does not know the buckets of the round, or an index
    /// that does not fit.
    pub fn retr(&self, peer_names: &[&str], index: LabelIndex) -> (r: Result<Retrieval, Error>)
        requires
            self.wf(),
        ensures
            r is Ok == (peer_names@.len() <= self.spec_ret_rate() && self.names_fit(names_of(peer_names@))
                && self.spec_dummy() is Some && self.spec_buckets().len() == self.spec_ret_rate() && self.index_fits(
                index,
            )),
            r matches Err(e) ==> if peer_names@.len() > self.spec_ret_rate() {
                e == Error::RateExceeded
            } else if !self.names_fit(names_of(peer_names@)) {
                exists|k: int|
                    0 <= k < peer_names@.len() && #[trigger] name_failure(
                        self.spec_peers(),
                        names_of(peer_names@),
                        self.spec_round(),
                        self.spec_opt_scheme(),
                        self.spec_partitions(),
                        k,
                    ) == Some(e) && forall|j: int|
                        0 <= j < k ==> (#[trigger] name_failure(
                            self.spec_peers(),
                            names_of(peer_names@),
                            self.spec_round(),
                            self.spec_opt_scheme(),
                            self.spec_partitions(),
                            j,
                        )) is None
            } else if self.spec_dummy() is None {
                e == Error::NoDummyPeer
            } else {
                e == Error::InvalidReply
            },
            r matches Ok(retrieval) ==> {
                &&& retrieval.wf()
                &&& retrieval.params() == (Params {
                    opt: self.spec_opt_scheme(),
                    ret: self.spec_ret_scheme(),
                    retries: spec_max_retries(self.spec_opt_scheme(), self.spec_ret_rate() as nat) as u32,
                    nums: Seq::new(self.spec_buckets().len(), |b: int| self.spec_buckets()[b].num),
                })
                &&& retrieval.position() == (Position { retry: 0, bucket: 0, level: 0 })
                &&& retrieval.spec_messages().len() == 0
                &&& retrieval.spec_core().round == self.spec_round()
                &&& retrieval.spec_core().index == index
                &&& retrieval.spec_core().keys@.len() == self.spec_peers().len() + 1
                &&& forall|i: int|
                    0 <= i < self.spec_peers().len() ==> (#[trigger] retrieval.spec_core().keys@[i])@
                        == self.spec_peers()[i].peer.keys.k_e@
                &&& retrieval.spec_core().keys@[self.spec_peers().len() as int]@ == self.spec_dummy()->0.keys.k_e@
                &&& forall|b: int|
                    0 <= b < self.spec_buckets().len() ==> byte_strings((#[trigger] retrieval.spec_core().lmids@[b])@)
                        == byte_strings(self.spec_buckets()[b].lmid@)
                &&& !spec_done(retrieval.params(), retrieval.position()) ==> Core::sweep_started_from(
                    spec_schedule(
                        self.spec_peers(),
                        names_of(peer_names@),
                        self.spec_round(),
                        self.spec_opt_scheme(),
                        self.spec_partitions(),
                        peer_names@.len(),
                    ),
                    self.spec_dummy()->0.keys.k_l@,
                    self.spec_dummy()->0.uid_self,
                    self.spec_peers().len() as usize,
                    0,
                    retrieval.spec_core(),
                )
            },
    {
        if peer_names.len() > self.ret_rate as usize {
            return Err(Error::RateExceeded);
        }
        let map = match self.schedule(peer_names) {
            Ok(map) => map,
            Err(e) => {
                return Err(e);
            },
        };
        let dummy = match &self.dummy {
            Some(d) => d,
            None => {
                return Err(Error::NoDummyPeer);
            },
        };
        let n = self.buckets.len();
        if n != self.ret_rate as usize {
            return Err(Error::InvalidReply);
        }
        let systematic: usize = match self.opt_scheme {
            OptScheme::Normal | OptScheme::Aliasing => 1,
            OptScheme::Hybrid2 => 2,
            OptScheme::Hybrid4 => 4,
        };
        assert(n * systematic <= 4 * 0xffff_ffff) by (nonlinear_arith)
            requires
                n <= 0xffff_ffff,
                systematic <= 4,
        ;
        let fits = match &index {
            LabelIndex::Explicit(lists) => self.ret_scheme == RetScheme::Explicit && lists.len() as u64 == (n as u64) * (
            systematic as u64),
            LabelIndex::Bloom(filters) => self.ret_scheme == RetScheme::Bloom && filters.len() as u64 == (n as u64) * (
            systematic as u64),
            LabelIndex::Tree => self.ret_scheme == RetScheme::Tree,
        };
        if !fits {
            return Err(Error::InvalidReply);
        }
        let mut nums: Vec<u64> = Vec::with_capacity(n);
        let mut lmids: Vec<Vec<Vec<u8>>> = Vec::with_capacity(n);
        let mut b: usize = 0;
        while b < n
            invariant
                b <= n,
                n == self.buckets@.len(),
                self.wf(),
                nums@.len() == b,
                lmids@.len() == b,
                forall|k: int| 0 <= k < b ==> (#[trigger] nums@[k]) == self.buckets@[k].num,
                forall|k: int| 0 <= k < b ==> (#[trigger] lmids@[k])@.len() == spec_lmids_per_bucket(self.opt_scheme),
                forall|k: int|
                    0 <= k < b ==> byte_strings((#[trigger] lmids@[k])@) == byte_strings(self.buckets@[k].lmid@),
            decreases n - b,
        {
            nums.push(self.buckets[b].num);
            let mut copy: Vec<Vec<u8>> = Vec::new();
            let mut j: usize = 0;
            while j < self.buckets[b].lmid.len()
                invariant
                    b < n,
                    n == self.buckets@.len(),
                    j <= self.buckets@[b as int].lmid@.len(),
                    copy@.len() == j,
                    forall|t: int| 0 <= t < j ==> (#[trigger] copy@[t])@ == self.buckets@[b as int].lmid@[t]@,
                decreases self.buckets@[b as int].lmid@.len() - j,
            {
                let label = self.buckets[b].lmid[j].clone();
                assert(label@ == self.buckets@[b as int].lmid@[j as int]@);
                copy.push(label);
                j += 1;
            }
            assert(byte_strings(copy@) =~= byte_strings(self.buckets@[b as int].lmid@));
            lmids.push(copy);
            b += 1;
        }
        let mut keys: Vec<Vec<u8>> = Vec::new();
        let mut i: usize = 0;
        while i < self.peers.len()
            invariant
                i <= self.peers@.len(),
                self.wf(),
                keys@.len() == i,
                forall|k: int| 0 <= k < i ==> (#[trigger] keys@[k])@.len() == KEY_SIZE,
                forall|k: int| 0 <= k < i ==> (#[trigger] keys@[k])@ == self.peers@[k].peer.keys.k_e@,
            decreases self.peers@.len() - i,
        {
            let key = self.peers[i].peer.keys.k_e.clone();
            assert(key@ == self.peers@[i as int].peer.keys.k_e@);
            keys.push(key);
            i += 1;
        }
        let dummy_k_e = dummy.keys.k_e.clone();
        assert(dummy_k_e@ == dummy.keys.k_e@);
        keys.push(dummy_k_e);
        let dummy_key = dummy.keys.k_l.clone();
        assert(dummy_key@ == dummy.keys.k_l@);
        let retries = max_retries(self.opt_scheme, self.ret_rate as u64);
        let core = Core {
            opt: self.opt_scheme,
            ret: self.ret_scheme,
            round: self.round,
            retries,
            nums,
            lmids,
            pos: Position { retry: 0, bucket: 0, level: 0 },
            map,
            dummy_count: 0,
            keys,
            dummy_key,
            dummy_uid: dummy.uid_self,
            index,
            targets: Vec::new(),
            messages: Vec::new(),
        };
        proof {
            assert(core.params().nums =~= Seq::new(self.spec_buckets().len(), |b: int| self.spec_buckets()[b].num));
            assert(spec_lmids_per_bucket(self.opt_scheme) + 1 == spec_num_systematic(self.opt_scheme));
        }
        Ok(Retrieval::start(core))
    }
}

} // verus!
