//! The round engine of the server: the only owner of the database, with
//! one method for each request of a client.

use vstd::prelude::*;
use super::model::{
    accepted, advanced, aliased, all_cleared, all_encoded, all_mid_labels, arrivals, bucket_of,
    client_index, closed, drained, held_by, held_by_others, info_of, installed, levels_in,
    levels_of, lookup_refusal, mapping_of, held_of, held_without, inv, late_ids,
    lemma_client_index, lemma_deadline_conserves, lemma_retr_conserves, lemma_send_conserves,
    on_time, spec_deadline, DeadlineResult, renewed, settle, spec_close, spec_register,
    spec_retr, spec_send, spec_sync, stored, stored_for, systematic_len, valid_wire, wire_size,
    with_quota, Client, Info, Phase, Queued, Resolved, RetrResult, SendOutcome, SendResult,
    State, Status,
};
use crate::db::batch::{
    all_tuples, encoded, first_half, lemma_hybrid4_shape, lemma_laid_out_shape, lemma_sort_all_tuples,
    lemma_sort_by_label, second_half, sort_by_label, spec_num_collections, spec_num_systematic,
};
use crate::db::{
    encoded_from, labels_of, total_len, total_levels, tuple_bytes, views_of, Collection,
    Database, OptScheme, PungTuple, RetScheme, LABEL_SIZE, TUPLE_SIZE,
};
use crate::error::Error;
use crate::util::bloomfilter::{bits_of, filter_bits, HASHES};
use crate::util::random::{random_bytes, unseeded_rng};
use crate::util::{
    bucket_idx, byte_strings, label_marker, spec_marker, spec_markers, spec_max_retries,
};

verus! {

/// A send request that is held for a later round.
struct HeldSend {
    ticket: u64,
    id: u64,
    round: u64,
    tuples: Vec<PungTuple>,
}

/// The held requests as the state machine sees them.
spec fn queue_view(queue: Seq<HeldSend>) -> Seq<Queued> {
    Seq::new(
        queue.len(),
        |i: int|
            Queued {
                ticket: queue[i].ticket,
                id: queue[i].id,
                round: queue[i].round,
                tuples: tuple_bytes(queue[i].tuples@),
            },
    )
}

/// The round engine.
pub struct PungRpc {
    round: u64,
    phase: Phase,
    clients: Vec<Client>,
    next: u64,
    next_ticket: u64,
    queue: Vec<HeldSend>,
    count: u64,
    dbase: Database,
    partitions: Vec<Vec<u8>>,
    extra_tuples: Vec<PungTuple>,
    min_messages: u32,
    opt_scheme: OptScheme,
    ret_scheme: RetScheme,
}

impl View for PungRpc {
    type V = State;

    closed spec fn view(&self) -> State {
        State {
            round: self.round,
            phase: self.phase,
            clients: self.clients@,
            next_id: self.next,
            next_ticket: self.next_ticket,
            queue: queue_view(self.queue@),
            count: self.count,
            db: self.dbase@,
            extra: tuple_bytes(self.extra_tuples@),
            min_messages: self.min_messages,
            opt: self.opt_scheme,
            ret: self.ret_scheme,
        }
    }
}

impl PungRpc {
    /// The database of the engine.
    pub closed spec fn db(&self) -> Database {
        self.dbase
    }

    /// The database fits the engine: it has a bucket for each marker of
    /// the label space, and every bucket has the schemes of the engine.
    pub closed spec fn wf_db(&self) -> bool {
        &&& self.dbase.wf()
        &&& 0 < self.dbase.buckets().len() <= u32::MAX
        &&& self.partitions@.len() == self.dbase.buckets().len()
        &&& byte_strings(self.partitions@) == spec_markers(self.dbase.buckets().len())
        &&& forall|b: int|
            0 <= b < self.dbase.buckets().len() ==> {
                &&& (#[trigger] self.dbase.buckets()[b]).spec_opt_scheme() == self.opt_scheme
                &&& self.dbase.buckets()[b].spec_ret_scheme() == self.ret_scheme
            }
    }

    /// While the round serves retrievals with filters, every systematic
    /// collection has the filter of its labels.
    pub closed spec fn filters_built(&self) -> bool {
        self.phase == Phase::Receiving && self.ret_scheme == RetScheme::Bloom ==> forall|b: int, c: int|
            0 <= b < self.dbase.buckets().len() && 0 <= c < spec_num_systematic(self.opt_scheme) ==> {
                &&& (#[trigger] self.dbase.buckets()[b].collections()[c]).spec_bloom_bits() == filter_bits(
                    labels_of(self.dbase.buckets()[b].collections()[c]@),
                    self.dbase.buckets()[b].collections()[c]@.len(),
                )
                &&& self.dbase.buckets()[b].collections()[c].spec_bloom_hashes() == HASHES
            }
    }

    /// The engine is between two requests.
    pub open spec fn wf(&self) -> bool {
        &&& self.wf_db()
        &&& self.filters_built()
        &&& inv(self@)
    }

    /// An engine for a database of `buckets` buckets with the given
    /// schemes, at the start of round 0, with `extra` padding tuples for
    /// every round.
    pub fn new(
        ret_scheme: RetScheme,
        opt_scheme: OptScheme,
        buckets: usize,
        depth: u64,
        extra: usize,
        min_messages: u32,
    ) -> (rpc: PungRpc)
        requires
            0 < buckets <= u32::MAX,
        ensures
            rpc.wf(),
            rpc@.round == 0,
            rpc@.phase == Phase::Sending,
            rpc@.clients.len() == 0,
            rpc@.next_id == 0,
            rpc@.next_ticket == 0,
            rpc@.queue.len() == 0,
            rpc@.count == 0,
            rpc@.db.len() == buckets,
            forall|b: int, c: int|
                0 <= b < buckets && 0 <= c < spec_num_collections(opt_scheme) ==> (#[trigger] rpc@.db[b][c]).len() == 0,
            forall|b: int| 0 <= b < buckets ==> (#[trigger] rpc@.db[b]).len() == spec_num_collections(opt_scheme),
            rpc@.extra.len() == extra,
            all_tuples(rpc@.extra),
            rpc@.min_messages == min_messages,
            rpc@.opt == opt_scheme,
            rpc@.ret == ret_scheme,
    {
        let dbase = Database::new(ret_scheme, opt_scheme, buckets, depth);
        let mut partitions: Vec<Vec<u8>> = Vec::with_capacity(buckets);
        let mut i: usize = 0;
        while i < buckets
            invariant
                i <= buckets <= u32::MAX,
                partitions@.len() == i,
                forall|k: int| 0 <= k < i ==> (#[trigger] partitions@[k])@ == spec_marker(k as nat, buckets as nat),
            decreases buckets - i,
        {
            partitions.push(label_marker(i, buckets));
            i += 1;
        }
        assert(byte_strings(partitions@) =~= spec_markers(buckets as nat));
        let extra_tuples = random_tuples(extra);
        let rpc = PungRpc {
            round: 0,
            phase: Phase::Sending,
            clients: Vec::new(),
            next: 0,
            next_ticket: 0,
            queue: Vec::new(),
            count: 0,
            dbase,
            partitions,
            extra_tuples,
            min_messages,
            opt_scheme,
            ret_scheme,
        };
        proof {
            assert forall|b: int, c: int|
                0 <= b < buckets && 0 <= c < spec_num_collections(opt_scheme) implies (#[trigger] rpc@.db[b][c]).len()
                == 0 by {
                let bucket = rpc.dbase.buckets()[b];
                crate::db::lemma_total_len_zero(bucket.collections(), c);
            }
        }
        rpc
    }

    /// The database, to read the collections from.
    pub fn database(&self) -> (db: &Database)
        ensures
            *db == self.db(),
            db@ == self@.db,
    {
        &self.dbase
    }

    /// The number of the round.
    pub fn round(&self) -> (r: u64)
        ensures
            r == self@.round,
    {
        self.round
    }

    /// The phase of the round.
    pub fn phase(&self) -> (p: Phase)
        ensures
            p == self@.phase,
    {
        self.phase
    }

    /// The number of sweeps over `buckets` buckets that a round holds.
    pub fn max_retries(&self, buckets: usize) -> (r: u32)
        ensures
            r == spec_max_retries(self@.opt, buckets as nat),
    {
        crate::util::max_retries(self.opt_scheme, buckets as u64)
    }

    /// The id that the next client gets.
    pub fn next_id(&self) -> (id: u64)
        ensures
            id == self@.next_id,
    {
        self.next
    }

    /// The index of the client `id`.
    fn find(&self, id: u64) -> (r: Option<usize>)
        ensures
            r matches Some(i) ==> i == client_index(self@.clients, id) && i < self@.clients.len() && self@.clients[i as int].id
                == id,
            r is None ==> client_index(self@.clients, id) == -1,
    {
        let mut i: usize = 0;
        while i < self.clients.len()
            invariant
                i <= self.clients@.len(),
                client_index(self.clients@.take(i as int), id) == -1,
            decreases self.clients@.len() - i,
        {
            proof {
                assert(self.clients@.take(i as int + 1).drop_last() =~= self.clients@.take(i as int));
            }
            if self.clients[i].id == id {
                proof {
                    lemma_client_index_prefix(self.clients@, id, i as int + 1);
                }
                return Some(i);
            }
            i += 1;
        }
        assert(self.clients@.take(self.clients@.len() as int) =~= self.clients@);
        None
    }

    /// A new client registers with the number of tuples that it sends in
    /// a round, and gets its id. A rate of zero is refused.
    pub fn register(&mut self, rate: u32) -> (r: Result<u64, Error>)
        requires
            old(self).wf(),
        ensures
            final(self).wf(),
            final(self).db() == old(self).db(),
            final(self)@ == spec_register(old(self)@, rate).0,
            r == spec_register(old(self)@, rate).1,
    {
        if rate == 0 {
            return Err(Error::InvalidRate);
        }
        if self.next == u64::MAX {
            return Err(Error::IdsExhausted);
        }
        let id = self.next;
        self.clients.push(Client { id, rate, status: Status::Registered, send_remaining: 0, ret_remaining: 0 });
        self.next = self.next + 1;
        Ok(id)
    }

    /// A client synchronizes with the rounds and learns the round that it
    /// is part of: the current one while it takes tuples, else the next.
    pub fn sync(&mut self, id: u64) -> (r: Result<u64, Error>)
        requires
            old(self).wf(),
        ensures
            final(self).wf(),
            final(self).db() == old(self).db(),
            final(self)@ == spec_sync(old(self)@, id).0,
            r == spec_sync(old(self)@, id).1,
    {
        let i = match self.find(id) {
            Some(i) => i,
            None => {
                return Err(Error::UnknownId);
            },
        };
        let c = self.clients[i];
        if self.phase == Phase::Receiving {
            if c.status == Status::Registered {
                self.clients[i] = Client { status: Status::Joining, ..c };
            }
            Ok(self.round + 1)
        } else {
            if c.status != Status::Synchronized {
                self.clients[i] = Client {
                    status: Status::Synchronized,
                    send_remaining: c.rate,
                    ret_remaining: 0,
                    ..c
                };
            }
            Ok(self.round)
        }
    }

    /// A client leaves, or its connection is lost: the server forgets it.
    /// The tickets of its held requests come back; they are refused.
    pub fn close(&mut self, id: u64) -> (r: Result<Vec<u64>, Error>)
        requires
            old(self).wf(),
        ensures
            final(self).wf(),
            final(self).db() == old(self).db(),
            final(self)@ == spec_close(old(self)@, id).0,
            match spec_close(old(self)@, id).1 {
                Ok(tickets) => r is Ok && r->Ok_0@ == tickets,
                Err(e) => r == Err::<Vec<u64>, Error>(e),
            },
    {
        let i = match self.find(id) {
            Some(i) => i,
            None => {
                return Err(Error::UnknownId);
            },
        };
        self.clients.remove(i);
        let mut held: Vec<HeldSend> = Vec::new();
        std::mem::swap(&mut held, &mut self.queue);
        let mut tickets: Vec<u64> = Vec::new();
        let mut k: usize = 0;
        assert(queue_view(held@).take(0) =~= Seq::<Queued>::empty());
        assert(queue_view(self.queue@) =~= Seq::<Queued>::empty());
        while k < held.len()
            invariant
                k <= held@.len(),
                held@ == old(self).queue@,
                tickets@ == held_by(queue_view(held@).take(k as int), id),
                queue_view(self.queue@) == held_by_others(queue_view(held@).take(k as int), id),
                self.round == old(self).round,
                self.phase == old(self).phase,
                self.clients@ == old(self).clients@.remove(i as int),
                self.next == old(self).next,
                self.next_ticket == old(self).next_ticket,
                self.count == old(self).count,
                self.dbase == old(self).dbase,
                self.partitions == old(self).partitions,
                self.extra_tuples == old(self).extra_tuples,
                self.min_messages == old(self).min_messages,
                self.opt_scheme == old(self).opt_scheme,
                self.ret_scheme == old(self).ret_scheme,
            decreases held@.len() - k,
        {
            proof {
                assert(queue_view(held@).take(k as int + 1).drop_last() =~= queue_view(held@).take(k as int));
            }
            let ghost before = queue_view(self.queue@);
            if held[k].id == id {
                tickets.push(held[k].ticket);
            } else {
                let tuples = copy_tuples(&held[k].tuples);
                self.queue.push(HeldSend { ticket: held[k].ticket, id: held[k].id, round: held[k].round, tuples });
                assert(queue_view(self.queue@) =~= before.push(queue_view(held@)[k as int]));
            }
            k += 1;
        }
        assert(queue_view(held@).take(held@.len() as int) =~= queue_view(held@));
        Ok(tickets)
    }

    /// Changes the number of padding tuples that a round gets, from the
    /// next encoding on.
    pub fn change_extra(&mut self, extra: u64)
        requires
            old(self).wf(),
            extra <= usize::MAX,
        ensures
            final(self).wf(),
            final(self).db() == old(self).db(),
            final(self)@.extra.len() == extra,
            all_tuples(final(self)@.extra),
            final(self)@ == (State { extra: final(self)@.extra, ..old(self)@ }),
    {
        self.extra_tuples = random_tuples(extra as usize);
    }

    /// The labels of the systematic collections of every bucket, one
    /// collection after the other, for the clients that find labels in
    /// the list: while the round `round` serves retrievals.
    pub fn get_mapping(&self, round: u64) -> (r: Result<Vec<Vec<Vec<u8>>>, Error>)
        requires
            self.wf(),
        ensures
            match lookup_refusal(self@, round) {
                Some(e) => r == Err::<Vec<Vec<Vec<u8>>>, Error>(e),
                None => r is Ok && label_lists(r->Ok_0@) == mapping_of(self@.db, spec_num_systematic(self@.opt)),
            },
    {
        if round != self.round {
            return Err(Error::InvalidRound);
        }
        if self.phase != Phase::Receiving {
            return Err(Error::NotReceivePhase);
        }
        let systematic: usize = match self.opt_scheme {
            OptScheme::Normal | OptScheme::Aliasing => 1,
            OptScheme::Hybrid2 => 2,
            OptScheme::Hybrid4 => 4,
        };
        let n = self.dbase.num_buckets();
        let ghost db = self.dbase@;
        let ghost want = mapping_of(db, systematic as nat);
        let mut lists: Vec<Vec<Vec<u8>>> = Vec::new();
        let mut b: usize = 0;
        while b < n
            invariant
                b <= n,
                self.wf_db(),
                n == self.dbase.buckets().len(),
                db == self.dbase@,
                systematic == spec_num_systematic(self.opt_scheme),
                want == mapping_of(db, systematic as nat),
                lists@.len() == b * systematic,
                forall|k: int| 0 <= k < lists@.len() ==> byte_strings(#[trigger] lists@[k]@) == want[k],
            decreases n - b,
        {
            let bucket = self.dbase.get_bucket(b);
            let mut c: usize = 0;
            while c < systematic
                invariant
                    c <= systematic <= 4,
                    b < n,
                    self.wf_db(),
                    n == self.dbase.buckets().len(),
                    db == self.dbase@,
                    *bucket == self.dbase.buckets()[b as int],
                    systematic == spec_num_systematic(self.opt_scheme),
                    want == mapping_of(db, systematic as nat),
                    lists@.len() == b * systematic + c,
                    forall|k: int| 0 <= k < lists@.len() ==> byte_strings(#[trigger] lists@[k]@) == want[k],
                decreases systematic - c,
            {
                let collection = bucket.get_collection(c);
                let mut labels: Vec<Vec<u8>> = Vec::with_capacity(collection.len());
                let mut j: usize = 0;
                while j < collection.len()
                    invariant
                        j <= collection@.len(),
                        labels@.len() == j,
                        forall|t: int| 0 <= t < j ==> (#[trigger] labels@[t])@ == crate::db::batch::label_of(collection@[t]),
                    decreases collection@.len() - j,
                {
                    labels.push(vstd::slice::slice_to_vec(collection.get_label(j)));
                    j += 1;
                }
                proof {
                    let k = (b * systematic + c) as int;
                    assert(k / systematic as int == b && k % systematic as int == c) by (nonlinear_arith)
                        requires
                            k == b * systematic + c,
                            0 <= c < systematic,
                    ;
                    assert(k < n * systematic) by (nonlinear_arith)
                        requires
                            k == b * systematic + c,
                            0 <= c < systematic,
                            b < n,
                    ;
                    assert(db[b as int][c as int] == collection@);
                    assert(byte_strings(labels@) =~= want[k]);
                }
                lists.push(labels);
                c += 1;
            }
            proof {
                assert(b * systematic + systematic == (b + 1) * systematic) by (nonlinear_arith);
            }
            b += 1;
        }
        assert(label_lists(lists@) =~= want);
        Ok(lists)
    }

    /// The bytes of the filters of the systematic collections of every
    /// bucket, one collection after the other, for the clients that find
    /// labels by filter: while the round `round` serves retrievals.
    pub fn get_bloom(&self, round: u64) -> (r: Result<Vec<Vec<u8>>, Error>)
        requires
            self.wf(),
        ensures
            match lookup_refusal(self@, round) {
                Some(e) => r == Err::<Vec<Vec<u8>>, Error>(e),
                None => {
                    &&& r is Ok
                    &&& r->Ok_0@.len() == self@.db.len() * spec_num_systematic(self@.opt)
                    &&& self@.ret == RetScheme::Bloom ==> forall|k: int|
                        0 <= k < r->Ok_0@.len() ==> bits_of(#[trigger] r->Ok_0@[k]@) == filter_bits(
                            labels_of(
                                self@.db[k / spec_num_systematic(self@.opt) as int][k % spec_num_systematic(
                                    self@.opt,
                                ) as int],
                            ),
                            self@.db[k / spec_num_systematic(self@.opt) as int][k % spec_num_systematic(
                                self@.opt,
                            ) as int].len(),
                        )
                },
            },
    {
        if round != self.round {
            return Err(Error::InvalidRound);
        }
        if self.phase != Phase::Receiving {
            return Err(Error::NotReceivePhase);
        }
        let systematic: usize = match self.opt_scheme {
            OptScheme::Normal | OptScheme::Aliasing => 1,
            OptScheme::Hybrid2 => 2,
            OptScheme::Hybrid4 => 4,
        };
        let n = self.dbase.num_buckets();
        let ghost db = self.dbase@;
        let mut filters: Vec<Vec<u8>> = Vec::new();
        let mut b: usize = 0;
        while b < n
            invariant
                b <= n,
                self.wf_db(),
                self.filters_built(),
                self.phase == Phase::Receiving,
                n == self.dbase.buckets().len(),
                db == self.dbase@,
                systematic == spec_num_systematic(self.opt_scheme),
                filters@.len() == b * systematic,
                self.ret_scheme == RetScheme::Bloom ==> forall|k: int|
                    0 <= k < filters@.len() ==> bits_of(#[trigger] filters@[k]@) == filter_bits(
                        labels_of(db[k / systematic as int][k % systematic as int]),
                        db[k / systematic as int][k % systematic as int].len(),
                    ),
            decreases n - b,
        {
            let bucket = self.dbase.get_bucket(b);
            let mut c: usize = 0;
            while c < systematic
                invariant
                    c <= systematic <= 4,
                    b < n,
                    self.wf_db(),
                    self.filters_built(),
                    self.phase == Phase::Receiving,
                    n == self.dbase.buckets().len(),
                    db == self.dbase@,
                    *bucket == self.dbase.buckets()[b as int],
                    systematic == spec_num_systematic(self.opt_scheme),
                    filters@.len() == b * systematic + c,
                    self.ret_scheme == RetScheme::Bloom ==> forall|k: int|
                        0 <= k < filters@.len() ==> bits_of(#[trigger] filters@[k]@) == filter_bits(
                            labels_of(db[k / systematic as int][k % systematic as int]),
                            db[k / systematic as int][k % systematic as int].len(),
                        ),
                decreases systematic - c,
            {
                let collection = bucket.get_collection(c);
                let bytes = collection.get_bloom().to_bytes();
                proof {
                    let k = (b * systematic + c) as int;
                    assert(k / systematic as int == b && k % systematic as int == c) by (nonlinear_arith)
                        requires
                            k == b * systematic + c,
                            0 <= c < systematic,
                    ;
                    assert(db[b as int][c as int] == collection@);
                    assert(*collection == self.dbase.buckets()[b as int].collections()[c as int]);
                }
                filters.push(bytes);
                c += 1;
            }
            proof {
                assert(b * systematic + systematic == (b + 1) * systematic) by (nonlinear_arith);
            }
            b += 1;
        }
        Ok(filters)
    }
}

/// The byte strings of each of a list of lists.
pub open spec fn label_lists(lists: Seq<Vec<Vec<u8>>>) -> Seq<Seq<Seq<u8>>> {
    Seq::new(lists.len(), |i: int| byte_strings(lists[i]@))
}

/// A client that is found among the first clients is found among all, at
/// the same index.
pub proof fn lemma_client_index_prefix(clients: Seq<Client>, id: u64, k: int)
    requires
        0 <= k <= clients.len(),
        client_index(clients.take(k), id) >= 0,
    ensures
        client_index(clients, id) == client_index(clients.take(k), id),
    decreases clients.len() - k,
{
    if k < clients.len() {
        assert(clients.take(k + 1).drop_last() =~= clients.take(k));
        lemma_client_index_prefix(clients, id, k + 1);
    } else {
        assert(clients.take(k) =~= clients);
    }
}

/// A copy of a list of tuples.
fn copy_tuples(ts: &Vec<PungTuple>) -> (out: Vec<PungTuple>)
    ensures
        out@ == ts@,
{
    let mut out: Vec<PungTuple> = Vec::with_capacity(ts.len());
    let mut i: usize = 0;
    while i < ts.len()
        invariant
            i <= ts@.len(),
            out@ == ts@.take(i as int),
        decreases ts@.len() - i,
    {
        out.push(ts[i]);
        assert(out@ =~= ts@.take(i as int + 1));
        i += 1;
    }
    assert(ts@.take(ts@.len() as int) =~= ts@);
    out
}

/// `count` tuples of random bytes.
fn random_tuples(count: usize) -> (tuples: Vec<PungTuple>)
    ensures
        tuples@.len() == count,
        all_tuples(tuple_bytes(tuples@)),
{
    let mut rng = unseeded_rng();
    let mut tuples: Vec<PungTuple> = Vec::new();
    let mut i: usize = 0;
    while i < count
        invariant
            i <= count,
            tuples@.len() == i,
        decreases count - i,
    {
        let bytes = random_bytes(&mut rng, TUPLE_SIZE);
        tuples.push(PungTuple::new(bytes.as_slice()));
        i += 1;
    }
    tuples
}

/// The reply to the send requests of a round: the number of tuples of
/// each bucket, and the labels that the buckets publish, one bucket after
/// the other.
pub struct RoundInfo {
    pub num_messages: Vec<u64>,
    pub min_labels: Vec<Vec<u8>>,
}

impl View for RoundInfo {
    type V = Info;

    open spec fn view(&self) -> Info {
        Info { num_messages: self.num_messages@, min_labels: byte_strings(self.min_labels@) }
    }
}

/// The reply of a round, if there is one.
pub open spec fn info_view(info: Option<RoundInfo>) -> Option<Info> {
    match info {
        Some(i) => Some(i@),
        None => None,
    }
}

/// The result of a send request that was not refused.
pub struct SendReply {
    pub outcome: SendOutcome,
    /// The reply to all send requests of the round, if this request was
    /// the last of the round.
    pub closed: Option<RoundInfo>,
}

impl View for SendReply {
    type V = SendResult;

    open spec fn view(&self) -> SendResult {
        SendResult { outcome: self.outcome, closed: info_view(self.closed) }
    }
}

/// The result of a retrieval that was granted.
pub struct RetrReply {
    /// Whether the retrieval was the last of the round.
    pub advanced: bool,
    /// What became of the requests that were held for the next round.
    pub resolved: Vec<Resolved>,
    /// The reply to the send requests of the next round, if the held
    /// requests leave nothing to wait for.
    pub closed: Option<RoundInfo>,
}

impl View for RetrReply {
    type V = RetrResult;

    open spec fn view(&self) -> RetrResult {
        RetrResult { advanced: self.advanced, resolved: self.resolved@, closed: info_view(self.closed) }
    }
}

/// The tuples that fall into a bucket, after one more tuple.
proof fn lemma_arrivals_push(ts: Seq<Seq<u8>>, t: Seq<u8>, buckets: nat, b: int)
    ensures
        arrivals(ts.push(t), buckets, b) == if bucket_of(t, buckets) == b {
            arrivals(ts, buckets, b).push(t)
        } else {
            arrivals(ts, buckets, b)
        },
{
    assert(ts.push(t).drop_last() =~= ts);
}

/// The database after one more tuple was installed.
proof fn lemma_installed_push(db: Seq<Seq<Seq<Seq<u8>>>>, ts: Seq<Seq<u8>>, t: Seq<u8>)
    requires
        forall|b: int| 0 <= b < db.len() ==> (#[trigger] db[b]).len() > 0,
        0 <= bucket_of(t, db.len()) < db.len(),
    ensures
        installed(db, ts.push(t)) == installed(db, ts).update(
            bucket_of(t, db.len()),
            installed(db, ts)[bucket_of(t, db.len())].update(
                0,
                installed(db, ts)[bucket_of(t, db.len())][0].push(t),
            ),
        ),
{
    let n = db.len();
    let target = bucket_of(t, n);
    let l = installed(db, ts.push(t));
    let mid = installed(db, ts);
    let r = mid.update(target, mid[target].update(0, mid[target][0].push(t)));
    assert forall|b: int| 0 <= b < n implies l[b] == r[b] by {
        lemma_arrivals_push(ts, t, n, b);
        if b == target {
            assert(db[b][0] + arrivals(ts, n, b).push(t) =~= (db[b][0] + arrivals(ts, n, b)).push(t));
            assert(l[b] =~= r[b]);
        }
    }
    assert(l =~= r);
}

/// Installing no tuple leaves the database.
proof fn lemma_installed_none(db: Seq<Seq<Seq<Seq<u8>>>>)
    requires
        forall|b: int| 0 <= b < db.len() ==> (#[trigger] db[b]).len() > 0,
    ensures
        installed(db, Seq::empty()) == db,
{
    let l = installed(db, Seq::empty());
    assert forall|b: int| 0 <= b < db.len() implies l[b] == db[b] by {
        assert(db[b][0] + arrivals(Seq::empty(), db.len(), b) =~= db[b][0]);
        assert(l[b] =~= db[b]);
    }
    assert(l =~= db);
}

/// The levels of a list of collections, counted from their tuples.
proof fn lemma_levels_view(cs: Seq<Collection>, ret: RetScheme)
    requires
        forall|i: int| 0 <= i < cs.len() ==> (#[trigger] cs[i]).spec_ret_scheme() == ret,
    ensures
        total_levels(cs) == levels_in(views_of(cs), ret),
    decreases cs.len(),
{
    if cs.len() > 0 {
        lemma_levels_view(cs.drop_last(), ret);
        assert(views_of(cs).drop_last() =~= views_of(cs.drop_last()));
    }
}

impl PungRpc {
    /// The tuples that are stored for the tuples of a send request, or
    /// `None` where one does not have the size of the scheme.
    fn parse_wire(&self, wire: &[Vec<u8>]) -> (r: Option<Vec<PungTuple>>)
        ensures
            r is Some == valid_wire(byte_strings(wire@), self@.opt),
            r matches Some(ts) ==> tuple_bytes(ts@) == stored(byte_strings(wire@), self@.opt),
    {
        let ghost w = byte_strings(wire@);
        let doubled = self.opt_scheme != OptScheme::Normal;
        let mut out: Vec<PungTuple> = Vec::new();
        let mut i: usize = 0;
        assert(tuple_bytes(out@) =~= stored(w.take(0), self.opt_scheme));
        while i < wire.len()
            invariant
                i <= wire@.len(),
                w == byte_strings(wire@),
                doubled == aliased(self.opt_scheme),
                valid_wire(w.take(i as int), self.opt_scheme),
                tuple_bytes(out@) == stored(w.take(i as int), self.opt_scheme),
            decreases wire@.len() - i,
        {
            let t = wire[i].as_slice();
            let ghost before = tuple_bytes(out@);
            proof {
                assert(w.take(i as int + 1).drop_last() =~= w.take(i as int));
                assert(w.take(i as int + 1).last() == t@);
                assert(w[i as int] == t@);
            }
            if doubled {
                if t.len() != LABEL_SIZE + TUPLE_SIZE {
                    return None;
                }
                let mut first = vstd::slice::slice_to_vec(vstd::slice::slice_subrange(t, 0, LABEL_SIZE));
                first.extend_from_slice(vstd::slice::slice_subrange(t, 2 * LABEL_SIZE, LABEL_SIZE + TUPLE_SIZE));
                let one = PungTuple::new(first.as_slice());
                let two = PungTuple::new(vstd::slice::slice_subrange(t, LABEL_SIZE, LABEL_SIZE + TUPLE_SIZE));
                out.push(one);
                out.push(two);
                proof {
                    let parts = stored_for(t@, self.opt_scheme);
                    assert(one@ =~= parts[0]);
                    assert(two@ =~= parts[1]);
                    assert(parts.len() == 2);
                    assert(tuple_bytes(out@) =~= before + parts);
                }
            } else {
                if t.len() != TUPLE_SIZE {
                    return None;
                }
                out.push(PungTuple::new(t));
                assert(tuple_bytes(out@) =~= before + stored_for(t@, self.opt_scheme));
            }
            proof {
                assert forall|k: int| 0 <= k < i + 1 implies (#[trigger] w.take(i as int + 1)[k]).len() == wire_size(
                    self.opt_scheme,
                ) by {
                    if k < i {
                        assert(w.take(i as int)[k] == w.take(i as int + 1)[k]);
                    }
                }
            }
            i += 1;
        }
        assert(w.take(wire@.len() as int) =~= w);
        Some(out)
    }

    /// Installs tuples: each goes to the bucket of its label.
    fn install(&mut self, ts: &Vec<PungTuple>)
        requires
            old(self).wf_db(),
        ensures
            final(self).wf_db(),
            final(self)@ == (State { db: installed(old(self)@.db, tuple_bytes(ts@)), ..old(self)@ }),
    {
        let ghost db0 = self.dbase@;
        let ghost bytes = tuple_bytes(ts@);
        let ghost n = self.dbase.buckets().len();
        proof {
            assert forall|b: int| 0 <= b < db0.len() implies (#[trigger] db0[b]).len() > 0 by {
                assert(self.dbase.buckets()[b].wf());
            }
            lemma_installed_none(db0);
            assert(bytes.take(0) =~= Seq::<Seq<u8>>::empty());
        }
        let mut i: usize = 0;
        while i < ts.len()
            invariant
                i <= ts@.len(),
                self.wf_db(),
                n == self.dbase.buckets().len(),
                n == db0.len(),
                bytes == tuple_bytes(ts@),
                forall|b: int| 0 <= b < db0.len() ==> (#[trigger] db0[b]).len() > 0,
                self.dbase@ == installed(db0, bytes.take(i as int)),
                self.round == old(self).round,
                self.phase == old(self).phase,
                self.clients == old(self).clients,
                self.next == old(self).next,
                self.next_ticket == old(self).next_ticket,
                self.queue == old(self).queue,
                self.count == old(self).count,
                self.partitions == old(self).partitions,
                self.extra_tuples == old(self).extra_tuples,
                self.min_messages == old(self).min_messages,
                self.opt_scheme == old(self).opt_scheme,
                self.ret_scheme == old(self).ret_scheme,
            decreases ts@.len() - i,
        {
            let t = ts[i];
            let b = bucket_idx(t.label(), self.partitions.as_slice());
            let ghost before = self.dbase;
            self.dbase.push(b, t);
            proof {
                assert(b == bucket_of(t@, n as nat));
                let prev = bytes.take(i as int);
                assert(bytes.take(i as int + 1) =~= prev.push(t@));
                lemma_installed_push(db0, prev, t@);
                let mid = installed(db0, prev);
                let want = mid.update(b as int, mid[b as int].update(0, mid[b as int][0].push(t@)));
                assert forall|k: int| 0 <= k < n implies (#[trigger] self.dbase@[k]) == want[k] by {
                    if k == b {
                        assert(self.dbase@[k] =~= want[k]);
                    } else {
                        assert(self.dbase.buckets()[k] == before.buckets()[k]);
                    }
                }
                assert(self.dbase@ =~= want);
            }
            i += 1;
        }
        assert(bytes.take(ts@.len() as int) =~= bytes);
    }
}

/// The systematic collections of an encoded bucket hold the tuples that
/// were pushed into it.
pub proof fn lemma_systematic_len(raw: Seq<Seq<u8>>, opt: OptScheme, ret: RetScheme)
    requires
        all_tuples(raw),
    ensures
        encoded(raw, opt, ret).len() == spec_num_collections(opt),
        systematic_len(encoded(raw, opt, ret), opt) == raw.len(),
{
    let sorted = sort_by_label(raw);
    lemma_sort_by_label(raw);
    lemma_sort_all_tuples(raw);
    match opt {
        OptScheme::Normal | OptScheme::Aliasing => {
            lemma_laid_out_shape(sorted, ret);
        },
        OptScheme::Hybrid2 => {
            lemma_laid_out_shape(first_half(sorted), ret);
            lemma_laid_out_shape(second_half(sorted), ret);
        },
        OptScheme::Hybrid4 => {
            lemma_hybrid4_shape(raw, ret);
        },
    }
}

/// The tuples of the systematic collections, counted from the
/// collections.
proof fn lemma_unencoded_len(cs: Seq<Collection>, opt: OptScheme)
    requires
        cs.len() == spec_num_collections(opt),
    ensures
        total_len(cs.take(spec_num_systematic(opt) as int)) == systematic_len(views_of(cs), opt),
{
    let k = spec_num_systematic(opt) as int;
    let t = cs.take(k);
    assert(total_len(t.take(0)) == 0);
    assert(t.take(1).drop_last() =~= t.take(0));
    assert(total_len(t.take(1)) == cs[0]@.len());
    if k >= 2 {
        assert(t.take(2).drop_last() =~= t.take(1));
        assert(total_len(t.take(2)) == cs[0]@.len() + cs[1]@.len());
    }
    if k >= 4 {
        assert(t.take(3).drop_last() =~= t.take(2));
        assert(total_len(t.take(3)) == cs[0]@.len() + cs[1]@.len() + cs[2]@.len());
        assert(t.take(4).drop_last() =~= t.take(3));
        assert(total_len(t.take(4)) == cs[0]@.len() + cs[1]@.len() + cs[2]@.len() + cs[3]@.len());
    }
    assert(t.take(k) =~= t);
}

/// No labels are published where there is no batch code.
proof fn lemma_levels_take(db: Seq<Seq<Seq<Seq<u8>>>>, ret: RetScheme, k: int)
    requires
        0 <= k < db.len(),
    ensures
        levels_of(db.take(k + 1), ret) == levels_of(db.take(k), ret) + levels_in(db[k], ret),
{
    assert(db.take(k + 1).drop_last() =~= db.take(k));
}

impl PungRpc {
    /// The number of levels that the database is served in.
    fn total_levels(&self) -> (total: u64)
        requires
            self.wf_db(),
        ensures
            total == levels_of(self@.db, self@.ret),
            total <= 576 * self@.db.len(),
    {
        let n = self.dbase.num_buckets();
        let ghost db = self.dbase@;
        let mut total: u64 = 0;
        let mut b: usize = 0;
        while b < n
            invariant
                b <= n <= u32::MAX,
                self.wf_db(),
                n == self.dbase.buckets().len(),
                db == self.dbase@,
                total == levels_of(db.take(b as int), self.ret_scheme),
                total <= 576 * b,
            decreases n - b,
        {
            let bucket = self.dbase.get_bucket(b);
            proof {
                assert(bucket.wf());
                lemma_levels_view(bucket.collections(), self.ret_scheme);
                lemma_levels_take(db, self.ret_scheme, b as int);
            }
            total = total + bucket.total_dbs() as u64;
            b += 1;
        }
        assert(db.take(n as int) =~= db);
        total
    }

    /// Encodes the round: the padding tuples are installed, every bucket
    /// is encoded, every client of the round gets its retrievals, and the
    /// round serves retrievals from now on. The reply to the send
    /// requests of the round comes back.
    fn close_round(&mut self) -> (info: RoundInfo)
        requires
            old(self).wf_db(),
        ensures
            final(self).wf_db(),
            final(self).filters_built(),
            final(self)@ == closed(old(self)@),
            info@ == info_of(final(self)@.db, old(self)@.opt, old(self)@.ret),
    {
        let extras = copy_tuples(&self.extra_tuples);
        self.install(&extras);
        let ghost mid = self.dbase;
        let n = self.dbase.num_buckets();
        self.dbase.encode();
        proof {
            let want = all_encoded(mid@, self.opt_scheme, self.ret_scheme);
            assert forall|b: int| 0 <= b < n implies (#[trigger] self.dbase@[b]) == want[b] by {
                let after = self.dbase.buckets()[b].collections();
                let before = mid.buckets()[b].collections();
                assert(mid.buckets()[b].wf());
                assert(encoded_from(after, before, self.opt_scheme, self.ret_scheme));
                before[0].lemma_all_tuples();
                lemma_systematic_len(before[0]@, self.opt_scheme, self.ret_scheme);
                assert(mid@[b][0] == before[0]@);
                assert(views_of(after) =~= encoded(before[0]@, self.opt_scheme, self.ret_scheme));
            }
            assert(self.dbase@ =~= want);
            assert forall|b: int, c: int|
                0 <= b < n && 0 <= c < spec_num_systematic(self.opt_scheme) && self.ret_scheme
                    == RetScheme::Bloom implies {
                &&& (#[trigger] self.dbase.buckets()[b].collections()[c]).spec_bloom_bits() == filter_bits(
                    labels_of(self.dbase.buckets()[b].collections()[c]@),
                    self.dbase.buckets()[b].collections()[c]@.len(),
                )
                &&& self.dbase.buckets()[b].collections()[c].spec_bloom_hashes() == HASHES
            } by {
                let after = self.dbase.buckets()[b].collections();
                let before = mid.buckets()[b].collections();
                assert(mid.buckets()[b].wf());
                assert(encoded_from(after, before, self.opt_scheme, self.ret_scheme));
            }
        }
        let levels = self.total_levels();
        let retries = crate::util::max_retries(self.opt_scheme, n as u64);
        assert(levels * retries <= 576 * 0xffff_ffff * 36) by (nonlinear_arith)
            requires
                levels <= 576 * n,
                n <= 0xffff_ffff,
                retries <= 36,
        ;
        let q: u64 = levels * (retries as u64);
        let ghost clients0 = self.clients@;
        let ghost queue0 = self.queue@;
        let ghost partitions0 = self.partitions@;
        let ghost extra0 = self.extra_tuples@;
        let mut i: usize = 0;
        while i < self.clients.len()
            invariant
                i <= self.clients@.len(),
                self.clients@.len() == clients0.len(),
                forall|k: int| 0 <= k < i ==> (#[trigger] self.clients@[k]) == with_quota(clients0, q)[k],
                forall|k: int| i <= k < clients0.len() ==> (#[trigger] self.clients@[k]) == clients0[k],
                self.round == old(self).round,
                self.phase == old(self).phase,
                self.next == old(self).next,
                self.next_ticket == old(self).next_ticket,
                self.queue@ == queue0,
                self.count == old(self).count,
                self.dbase@ == all_encoded(mid@, self.opt_scheme, self.ret_scheme),
                self.wf_db(),
                self.ret_scheme == RetScheme::Bloom ==> forall|b: int, c: int|
                    0 <= b < self.dbase.buckets().len() && 0 <= c < spec_num_systematic(self.opt_scheme) ==> {
                        &&& (#[trigger] self.dbase.buckets()[b].collections()[c]).spec_bloom_bits() == filter_bits(
                            labels_of(self.dbase.buckets()[b].collections()[c]@),
                            self.dbase.buckets()[b].collections()[c]@.len(),
                        )
                        &&& self.dbase.buckets()[b].collections()[c].spec_bloom_hashes() == HASHES
                    },
                self.partitions@ == partitions0,
                self.extra_tuples@ == extra0,
                self.min_messages == old(self).min_messages,
                self.opt_scheme == old(self).opt_scheme,
                self.ret_scheme == old(self).ret_scheme,
            decreases self.clients@.len() - i,
        {
            let c = self.clients[i];
            if c.status == Status::Synchronized {
                self.clients[i] = Client { ret_remaining: q, ..c };
            }
            i += 1;
        }
        assert(self.clients@ =~= with_quota(clients0, q));
        self.phase = Phase::Receiving;
        proof {
            assert forall|b: int| 0 <= b < mid.buckets().len() implies (#[trigger] mid.buckets()[b]).collections().len()
                > 0 by {
                assert(mid.buckets()[b].wf());
            }
        }
        let info = self.round_info(Ghost(mid));
        info
    }

    /// The reply to the send requests of the round, from the encoded
    /// database.
    fn round_info(&self, Ghost(mid): Ghost<Database>) -> (info: RoundInfo)
        requires
            self.wf_db(),
            self.dbase@ == all_encoded(mid@, self.opt_scheme, self.ret_scheme),
            mid.buckets().len() == self.dbase.buckets().len(),
            mid.wf(),
            forall|b: int| 0 <= b < mid.buckets().len() ==> (#[trigger] mid.buckets()[b]).collections().len() > 0,
        ensures
            info@ == info_of(self@.db, self@.opt, self@.ret),
    {
        let n = self.dbase.num_buckets();
        let ghost db = self.dbase@;
        let mut num_messages: Vec<u64> = Vec::with_capacity(n);
        let mut min_labels: Vec<Vec<u8>> = Vec::new();
        let mut b: usize = 0;
        assert(byte_strings(min_labels@) =~= all_mid_labels(db, self.opt_scheme, self.ret_scheme, 0));
        while b < n
            invariant
                b <= n,
                self.wf_db(),
                n == self.dbase.buckets().len(),
                n == mid.buckets().len(),
                forall|b: int| 0 <= b < mid.buckets().len() ==> (#[trigger] mid.buckets()[b]).collections().len() > 0,
                db == self.dbase@,
                db == all_encoded(mid@, self.opt_scheme, self.ret_scheme),
                num_messages@.len() == b,
                forall|k: int| 0 <= k < b ==> (#[trigger] num_messages@[k]) == systematic_len(db[k], self.opt_scheme) as u64,
                byte_strings(min_labels@) == all_mid_labels(db, self.opt_scheme, self.ret_scheme, b as nat),
            decreases n - b,
        {
            let bucket = self.dbase.get_bucket(b);
            proof {
                assert(bucket.wf());
                let raw = mid.buckets()[b as int].collections()[0];
                raw.lemma_all_tuples();
                assert(mid@[b as int][0] == raw@);
                assert(db[b as int] == encoded(raw@, self.opt_scheme, self.ret_scheme));
                lemma_systematic_len(raw@, self.opt_scheme, self.ret_scheme);
                lemma_unencoded_len(bucket.collections(), self.opt_scheme);
            }
            num_messages.push(bucket.unencoded_len() as u64);
            let mut labels = bucket.mid_labels();
            let ghost before = byte_strings(min_labels@);
            let ghost added = byte_strings(labels@);
            min_labels.append(&mut labels);
            assert(byte_strings(min_labels@) =~= before + added);
            b += 1;
        }
        let info = RoundInfo { num_messages, min_labels };
        assert(info@.num_messages =~= info_of(db, self.opt_scheme, self.ret_scheme).num_messages);
        info
    }

    /// Encodes the round if it is ready for that.
    fn settle(&mut self) -> (info: Option<RoundInfo>)
        requires
            old(self).wf_db(),
            old(self).filters_built(),
        ensures
            final(self).wf_db(),
            final(self).filters_built(),
            final(self)@ == settle(old(self)@).0,
            info_view(info) == settle(old(self)@).1,
    {
        if self.phase != Phase::Sending || self.count < self.min_messages as u64 {
            return None;
        }
        let mut i: usize = 0;
        while i < self.clients.len()
            invariant
                i <= self.clients@.len(),
                *self == *old(self),
                self.wf_db(),
                self.filters_built(),
                forall|k: int|
                    0 <= k < i && (#[trigger] self.clients@[k]).status == Status::Synchronized ==> self.clients@[k].send_remaining
                        == 0,
            decreases self.clients@.len() - i,
        {
            if self.clients[i].status == Status::Synchronized && self.clients[i].send_remaining != 0 {
                return None;
            }
            i += 1;
        }
        Some(self.close_round())
    }

    /// Takes tuples from the client at index `i`.
    fn accept(&mut self, i: usize, ts: &Vec<PungTuple>)
        requires
            old(self).wf_db(),
            i < old(self)@.clients.len(),
            ts@.len() <= old(self)@.clients[i as int].send_remaining,
        ensures
            final(self).wf_db(),
            final(self)@ == accepted(old(self)@, i as int, tuple_bytes(ts@)),
    {
        let c = self.clients[i];
        self.clients[i] = Client { send_remaining: c.send_remaining - ts.len() as u32, ..c };
        self.count = if ts.len() as u64 > u64::MAX - self.count {
            u64::MAX
        } else {
            self.count + ts.len() as u64
        };
        self.install(ts);
    }
}

impl PungRpc {
    /// A client sends tuples for a round. Tuples for the current round are
    /// installed, if the round takes tuples and the client may send that
    /// many; tuples for a later round are held until that round starts.
    /// The reply to a request whose tuples were taken comes when the round
    /// is encoded: with this request, if it is the last of the round.
    pub fn send(&mut self, id: u64, round: u64, tuples: &[Vec<u8>]) -> (r: Result<SendReply, Error>)
        requires
            old(self).wf(),
        ensures
            final(self).wf(),
            final(self)@ == spec_send(old(self)@, id, round, byte_strings(tuples@)).0,
            match spec_send(old(self)@, id, round, byte_strings(tuples@)).1 {
                Ok(res) => r is Ok && r->Ok_0@ == res,
                Err(e) => r is Err && r->Err_0 == e,
            },
    {
        proof {
            lemma_send_conserves(self@, id, round, byte_strings(tuples@));
        }
        let i = match self.find(id) {
            Some(i) => i,
            None => {
                return Err(Error::UnknownId);
            },
        };
        if round < self.round {
            return Err(Error::InvalidRound);
        }
        if self.phase != Phase::Sending && round == self.round {
            return Err(Error::NotSendPhase);
        }
        if tuples.len() == 0 {
            return Err(Error::NoTuples);
        }
        let stored = match self.parse_wire(tuples) {
            Some(ts) => ts,
            None => {
                return Err(Error::InvalidTuple);
            },
        };
        if round > self.round {
            if self.next_ticket == u64::MAX {
                return Err(Error::IdsExhausted);
            }
            let ticket = self.next_ticket;
            let ghost before = queue_view(self.queue@);
            let ghost bytes = tuple_bytes(stored@);
            self.queue.push(HeldSend { ticket, id, round, tuples: stored });
            self.next_ticket = ticket + 1;
            assert(queue_view(self.queue@) =~= before.push(Queued { ticket, id, round, tuples: bytes }));
            let closed = self.settle();
            return Ok(SendReply { outcome: SendOutcome::Held(ticket), closed });
        }
        let c = self.clients[i];
        if c.status != Status::Synchronized {
            return Err(Error::NotSynchronized);
        }
        if (c.send_remaining as u64) < stored.len() as u64 {
            return Err(Error::SendRateExceeded);
        }
        self.accept(i, &stored);
        let closed = self.settle();
        Ok(SendReply { outcome: SendOutcome::Accepted, closed })
    }

    /// Starts the next round: the database is emptied, the clients may
    /// send again, and the requests that were held for the round are taken
    /// or refused.
    fn advance(&mut self) -> (resolved: Vec<Resolved>)
        requires
            old(self).wf_db(),
            old(self)@.round + 1 < u64::MAX,
        ensures
            final(self).wf_db(),
            final(self)@.phase == Phase::Sending,
            final(self)@ == advanced(old(self)@).0,
            resolved@ == advanced(old(self)@).1,
    {
        let ghost s0 = self@;
        self.round = self.round + 1;
        self.phase = Phase::Sending;
        self.count = 0;
        let ghost clients0 = self.clients@;
        let mut i: usize = 0;
        while i < self.clients.len()
            invariant
                i <= self.clients@.len(),
                self.clients@.len() == clients0.len(),
                forall|k: int| 0 <= k < i ==> (#[trigger] self.clients@[k]) == renewed(clients0)[k],
                forall|k: int| i <= k < clients0.len() ==> (#[trigger] self.clients@[k]) == clients0[k],
                self.round == old(self).round + 1,
                self.phase == Phase::Sending,
                self.count == 0,
                self.next == old(self).next,
                self.next_ticket == old(self).next_ticket,
                self.queue == old(self).queue,
                self.dbase == old(self).dbase,
                self.partitions == old(self).partitions,
                self.extra_tuples == old(self).extra_tuples,
                self.min_messages == old(self).min_messages,
                self.opt_scheme == old(self).opt_scheme,
                self.ret_scheme == old(self).ret_scheme,
            decreases self.clients@.len() - i,
        {
            let c = self.clients[i];
            if c.status != Status::Registered {
                self.clients[i] = Client {
                    status: Status::Synchronized,
                    send_remaining: c.rate,
                    ret_remaining: 0,
                    ..c
                };
            }
            i += 1;
        }
        assert(self.clients@ =~= renewed(clients0));
        let ghost before = self.dbase;
        self.dbase.clear();
        proof {
            let want = all_cleared(before@);
            assert forall|b: int| 0 <= b < before.buckets().len() implies (#[trigger] self.dbase@[b]) == want[b] by {
                let after = self.dbase.buckets()[b];
                assert(after.wf());
                assert(before.buckets()[b].wf());
                assert forall|c: int| 0 <= c < after.collections().len() implies (#[trigger] after.collections()[c])@
                    =~= Seq::<Seq<u8>>::empty() by {
                    crate::db::lemma_total_len_zero(after.collections(), c);
                }
                assert(self.dbase@[b] =~= want[b]);
            }
            assert(self.dbase@ =~= want);
        }
        let mut held: Vec<HeldSend> = Vec::new();
        std::mem::swap(&mut held, &mut self.queue);
        let ghost fresh = State {
            round: (s0.round + 1) as u64,
            phase: Phase::Sending,
            clients: renewed(s0.clients),
            count: 0,
            db: all_cleared(s0.db),
            ..s0
        };
        let mut resolved: Vec<Resolved> = Vec::new();
        let mut k: usize = 0;
        proof {
            assert(queue_view(self.queue@) =~= Seq::<Queued>::empty());
            assert(fresh.queue == queue_view(held@));
        }
        while k < held.len()
            invariant
                k <= held@.len(),
                self.wf_db(),
                fresh.queue == queue_view(held@),
                fresh.round == self.round,
                self.phase == Phase::Sending,
                self@ == (State { queue: drained(fresh, k as nat).2, ..drained(fresh, k as nat).0 }),
                drained(fresh, k as nat).0.queue == fresh.queue,
                resolved@ == drained(fresh, k as nat).1,
            decreases held@.len() - k,
        {
            let ghost t = drained(fresh, k as nat).0;
            let ghost q = fresh.queue[k as int];
            let ghost rest = queue_view(self.queue@);
            let entry = &held[k];
            proof {
                assert(q.tuples == tuple_bytes(entry.tuples@));
                lemma_client_index(t.clients, q.id);
            }
            if entry.round != self.round {
                let tuples = copy_tuples(&entry.tuples);
                self.queue.push(HeldSend { ticket: entry.ticket, id: entry.id, round: entry.round, tuples });
                assert(queue_view(self.queue@) =~= rest.push(q));
            } else {
                match self.find(entry.id) {
                    None => {
                        resolved.push(Resolved { ticket: entry.ticket, refused: Some(Error::NotSynchronized) });
                    },
                    Some(i) => {
                        let c = self.clients[i];
                        if c.status != Status::Synchronized {
                            resolved.push(Resolved { ticket: entry.ticket, refused: Some(Error::NotSynchronized) });
                        } else if (c.send_remaining as u64) < entry.tuples.len() as u64 {
                            resolved.push(Resolved { ticket: entry.ticket, refused: Some(Error::SendRateExceeded) });
                        } else {
                            self.accept(i, &entry.tuples);
                            resolved.push(Resolved { ticket: entry.ticket, refused: None });
                        }
                    },
                }
            }
            k += 1;
        }
        resolved
    }

    /// A client retrieves from one level of a collection of a bucket. The
    /// engine grants the retrieval and counts it; the answer is that of
    /// the retrieval primitive for the level. With the last retrieval of
    /// the round the next round starts.
    pub fn retr(&mut self, id: u64, round: u64, bucket: u32, collection: u32, level: u32) -> (r: Result<
        RetrReply,
        Error,
    >)
        requires
            old(self).wf(),
        ensures
            final(self).wf(),
            final(self)@ == spec_retr(old(self)@, id, round, bucket, collection, level).0,
            match spec_retr(old(self)@, id, round, bucket, collection, level).1 {
                Ok(res) => r is Ok && r->Ok_0@ == res,
                Err(e) => r is Err && r->Err_0 == e,
            },
    {
        proof {
            lemma_retr_conserves(self@, id, round, bucket, collection, level);
        }
        let i = match self.find(id) {
            Some(i) => i,
            None => {
                return Err(Error::UnknownId);
            },
        };
        if round != self.round {
            return Err(Error::InvalidRound);
        }
        if self.phase != Phase::Receiving {
            return Err(Error::NotReceivePhase);
        }
        let c = self.clients[i];
        if c.status != Status::Synchronized {
            return Err(Error::NotSynchronized);
        }
        if c.ret_remaining == 0 {
            return Err(Error::RetrievalRateExceeded);
        }
        if bucket as usize >= self.dbase.num_buckets() {
            return Err(Error::InvalidBucket);
        }
        let b = self.dbase.get_bucket(bucket as usize);
        if collection as usize >= b.num_collections() {
            return Err(Error::InvalidCollection);
        }
        let col = b.get_collection(collection as usize);
        proof {
            assert(b.wf());
            assert(self.dbase@[bucket as int][collection as int] == col@);
        }
        if level as usize >= col.num_levels() {
            return Err(Error::InvalidLevel);
        }
        self.clients[i] = Client { ret_remaining: c.ret_remaining - 1, ..c };
        let mut k: usize = 0;
        let mut done = true;
        while k < self.clients.len()
            invariant
                k <= self.clients@.len(),
                done == forall|j: int|
                    0 <= j < k && (#[trigger] self.clients@[j]).status == Status::Synchronized ==> self.clients@[j].ret_remaining
                        == 0,
            decreases self.clients@.len() - k,
        {
            if self.clients[k].status == Status::Synchronized && self.clients[k].ret_remaining != 0 {
                done = false;
            }
            k += 1;
        }
        if done && self.round < u64::MAX - 1 {
            let resolved = self.advance();
            let closed = self.settle();
            Ok(RetrReply { advanced: true, resolved, closed })
        } else {
            let reply = RetrReply { advanced: false, resolved: Vec::new(), closed: None };
            assert(reply@.resolved =~= Seq::<Resolved>::empty());
            Ok(reply)
        }
    }
}

/// What a deadline came to.
pub struct DeadlineReply {
    /// The clients that were closed for holding the phase up.
    pub closed_ids: Vec<u64>,
    /// The tickets of their held requests, which are refused.
    pub refused: Vec<u64>,
    /// Whether the next round started.
    pub advanced: bool,
    /// What became of the requests that were held for the next round.
    pub resolved: Vec<Resolved>,
    /// The reply to the send requests of the round, if it was encoded.
    pub closed: Option<RoundInfo>,
}

impl View for DeadlineReply {
    type V = DeadlineResult;

    open spec fn view(&self) -> DeadlineResult {
        DeadlineResult {
            closed_ids: self.closed_ids@,
            refused: self.refused@,
            advanced: self.advanced,
            resolved: self.resolved@,
            closed: info_view(self.closed),
        }
    }
}

/// Whether a list holds an id.
fn holds_id(ids: &Vec<u64>, id: u64) -> (r: bool)
    ensures
        r == ids@.contains(id),
{
    let mut k: usize = 0;
    while k < ids.len()
        invariant
            k <= ids@.len(),
            forall|j: int| 0 <= j < k ==> ids@[j] != id,
        decreases ids@.len() - k,
    {
        if ids[k] == id {
            return true;
        }
        k += 1;
    }
    false
}

impl PungRpc {
    /// The phase has run out of time: the clients that have not sent all
    /// they may, or not made all their retrievals, are closed, so that
    /// one client that is stuck does not hold up all others; the round
    /// then moves on as far as it can.
    pub fn deadline(&mut self) -> (reply: DeadlineReply)
        requires
            old(self).wf(),
        ensures
            final(self).wf(),
            final(self)@ == spec_deadline(old(self)@).0,
            reply@ == spec_deadline(old(self)@).1,
    {
        proof {
            lemma_deadline_conserves(self@);
        }
        let phase = self.phase;
        let mut all: Vec<Client> = Vec::new();
        std::mem::swap(&mut all, &mut self.clients);
        let mut ids: Vec<u64> = Vec::new();
        let mut i: usize = 0;
        while i < all.len()
            invariant
                i <= all@.len(),
                all@ == old(self).clients@,
                self.clients@ == on_time(all@.take(i as int), phase),
                ids@ == late_ids(all@.take(i as int), phase),
                self.round == old(self).round,
                self.phase == old(self).phase,
                phase == self.phase,
                self.next == old(self).next,
                self.next_ticket == old(self).next_ticket,
                self.queue == old(self).queue,
                self.count == old(self).count,
                self.dbase == old(self).dbase,
                self.partitions == old(self).partitions,
                self.extra_tuples == old(self).extra_tuples,
                self.min_messages == old(self).min_messages,
                self.opt_scheme == old(self).opt_scheme,
                self.ret_scheme == old(self).ret_scheme,
            decreases all@.len() - i,
        {
            proof {
                assert(all@.take(i as int + 1).drop_last() =~= all@.take(i as int));
            }
            let c = all[i];
            let late = c.status == Status::Synchronized && if phase == Phase::Sending {
                c.send_remaining > 0
            } else {
                c.ret_remaining > 0
            };
            if late {
                ids.push(c.id);
            } else {
                self.clients.push(c);
            }
            i += 1;
        }
        assert(all@.take(all@.len() as int) =~= all@);
        let mut held: Vec<HeldSend> = Vec::new();
        std::mem::swap(&mut held, &mut self.queue);
        let mut refused: Vec<u64> = Vec::new();
        let mut k: usize = 0;
        let ghost clients1 = self.clients@;
        assert(queue_view(held@).take(0) =~= Seq::<Queued>::empty());
        assert(queue_view(self.queue@) =~= Seq::<Queued>::empty());
        while k < held.len()
            invariant
                k <= held@.len(),
                held@ == old(self).queue@,
                refused@ == held_of(queue_view(held@).take(k as int), ids@),
                queue_view(self.queue@) == held_without(queue_view(held@).take(k as int), ids@),
                self.clients@ == clients1,
                self.round == old(self).round,
                self.phase == old(self).phase,
                self.next == old(self).next,
                self.next_ticket == old(self).next_ticket,
                self.count == old(self).count,
                self.dbase == old(self).dbase,
                self.partitions == old(self).partitions,
                self.extra_tuples == old(self).extra_tuples,
                self.min_messages == old(self).min_messages,
                self.opt_scheme == old(self).opt_scheme,
                self.ret_scheme == old(self).ret_scheme,
            decreases held@.len() - k,
        {
            proof {
                assert(queue_view(held@).take(k as int + 1).drop_last() =~= queue_view(held@).take(k as int));
            }
            let ghost before = queue_view(self.queue@);
            if holds_id(&ids, held[k].id) {
                refused.push(held[k].ticket);
            } else {
                let tuples = copy_tuples(&held[k].tuples);
                self.queue.push(HeldSend { ticket: held[k].ticket, id: held[k].id, round: held[k].round, tuples });
                assert(queue_view(self.queue@) =~= before.push(queue_view(held@)[k as int]));
            }
            k += 1;
        }
        assert(queue_view(held@).take(held@.len() as int) =~= queue_view(held@));
        if self.phase == Phase::Receiving && self.round < u64::MAX - 1 {
            let resolved = self.advance();
            let closed = self.settle();
            DeadlineReply { closed_ids: ids, refused, advanced: true, resolved, closed }
        } else {
            let closed = self.settle();
            let reply = DeadlineReply { closed_ids: ids, refused, advanced: false, resolved: Vec::new(), closed };
            assert(reply@.resolved =~= Seq::<Resolved>::empty());
            reply
        }
    }
}

} // verus!
