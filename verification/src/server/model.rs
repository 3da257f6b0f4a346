//! The round state machine as a function from state and request to next
//! state and reply.

use vstd::prelude::*;
use crate::db::batch::{encoded, label_of};
use crate::db::{spec_levels, spec_mid_labels, OptScheme, RetScheme, LABEL_SIZE, TUPLE_SIZE};
use crate::error::Error;
use crate::util::{spec_bucket_idx, spec_markers, spec_max_retries};

verus! {

/// The two phases of a round.
#[derive(PartialEq, Eq, Copy, Clone, Debug, Structural)]
pub enum Phase {
    /// The round takes tuples.
    Sending,
    /// The round is encoded and serves retrievals.
    Receiving,
}

/// How far a client takes part in the rounds.
#[derive(PartialEq, Eq, Copy, Clone, Debug, Structural)]
pub enum Status {
    /// Registered, and not yet part of a round.
    Registered,
    /// Synchronized while a round served retrievals: part of the next
    /// round.
    Joining,
    /// Part of the current round.
    Synchronized,
}

/// What the server keeps of a client.
#[derive(PartialEq, Eq, Copy, Clone, Debug, Structural)]
pub struct Client {
    pub id: u64,
    /// The number of tuples that the client may send in a round.
    pub rate: u32,
    pub status: Status,
    /// The number of tuples that the client may still send in this round.
    pub send_remaining: u32,
    /// The number of retrievals that the client has still to make in this
    /// round.
    pub ret_remaining: u64,
}

/// What became of a send request that was held for a later round.
#[derive(PartialEq, Eq, Copy, Clone, Debug, Structural)]
pub struct Resolved {
    pub ticket: u64,
    /// `None` where the tuples were taken; the reply to the request is
    /// then the one to all send requests of the round.
    pub refused: Option<Error>,
}

/// A send request that is held for a later round.
pub struct Queued {
    pub ticket: u64,
    pub id: u64,
    pub round: u64,
    pub tuples: Seq<Seq<u8>>,
}

/// The reply to the send requests of a round, once the round is encoded:
/// the number of tuples of each bucket, and the labels that each bucket
/// publishes.
pub struct Info {
    pub num_messages: Seq<u64>,
    pub min_labels: Seq<Seq<u8>>,
}

/// The state of the server.
pub struct State {
    pub round: u64,
    pub phase: Phase,
    pub clients: Seq<Client>,
    /// The id that the next client gets.
    pub next_id: u64,
    /// The ticket that the next held request gets.
    pub next_ticket: u64,
    pub queue: Seq<Queued>,
    /// The number of tuples taken in this round.
    pub count: u64,
    /// The tuples of each collection of each bucket.
    pub db: Seq<Seq<Seq<Seq<u8>>>>,
    /// The padding tuples that every round gets.
    pub extra: Seq<Seq<u8>>,
    /// The number of tuples below which a round stays open for sending.
    pub min_messages: u32,
    pub opt: OptScheme,
    pub ret: RetScheme,
}

/// What a send request comes to.
#[derive(PartialEq, Eq, Copy, Clone, Debug, Structural)]
pub enum SendOutcome {
    /// The tuples were taken: the reply comes when the round is encoded.
    Accepted,
    /// The request is held for its round under this ticket.
    Held(u64),
}

/// The result of a send request: what it came to, and the reply to all
/// send requests of the round if this request was the last of the round.
pub struct SendResult {
    pub outcome: SendOutcome,
    pub closed: Option<Info>,
}

/// The result of a retrieval that the server grants: whether it was the
/// last of the round; then the requests held for the next round are
/// resolved, and the reply to its send requests is there if they leave
/// nothing to wait for.
pub struct RetrResult {
    pub advanced: bool,
    pub resolved: Seq<Resolved>,
    pub closed: Option<Info>,
}

/// The index of the client `id`, or -1.
pub open spec fn client_index(clients: Seq<Client>, id: u64) -> int
    decreases clients.len(),
{
    if clients.len() == 0 {
        -1
    } else if client_index(clients.drop_last(), id) >= 0 {
        client_index(clients.drop_last(), id)
    } else if clients.last().id == id {
        clients.len() - 1
    } else {
        -1
    }
}

/// Whether the optimization scheme stores every message under two
/// labels.
pub open spec fn aliased(opt: OptScheme) -> bool {
    opt != OptScheme::Normal
}

/// The size of a tuple on the wire: with a second label where messages
/// are stored twice.
pub open spec fn wire_size(opt: OptScheme) -> nat {
    if aliased(opt) {
        (LABEL_SIZE + TUPLE_SIZE) as nat
    } else {
        TUPLE_SIZE as nat
    }
}

/// Whether every tuple of a send request has the size of the scheme.
pub open spec fn valid_wire(wire: Seq<Seq<u8>>, opt: OptScheme) -> bool {
    forall|i: int| 0 <= i < wire.len() ==> (#[trigger] wire[i]).len() == wire_size(opt)
}

/// The tuples that are stored for one tuple on the wire: the tuple, or
/// one under each of its two labels.
pub open spec fn stored_for(w: Seq<u8>, opt: OptScheme) -> Seq<Seq<u8>> {
    if aliased(opt) {
        seq![
            w.subrange(0, LABEL_SIZE as int) + w.subrange(2 * LABEL_SIZE, w.len() as int),
            w.subrange(LABEL_SIZE as int, w.len() as int),
        ]
    } else {
        seq![w]
    }
}

/// The tuples that are stored for a send request, in order.
pub open spec fn stored(wire: Seq<Seq<u8>>, opt: OptScheme) -> Seq<Seq<u8>>
    decreases wire.len(),
{
    if wire.len() == 0 {
        Seq::empty()
    } else {
        stored(wire.drop_last(), opt) + stored_for(wire.last(), opt)
    }
}

/// The bucket of a tuple among `buckets` buckets.
pub open spec fn bucket_of(t: Seq<u8>, buckets: nat) -> int {
    spec_bucket_idx(label_of(t), spec_markers(buckets))
}

/// The tuples of a list that fall into bucket `b`, in order.
pub open spec fn arrivals(ts: Seq<Seq<u8>>, buckets: nat, b: int) -> Seq<Seq<u8>>
    decreases ts.len(),
{
    if ts.len() == 0 {
        Seq::empty()
    } else if bucket_of(ts.last(), buckets) == b {
        arrivals(ts.drop_last(), buckets, b).push(ts.last())
    } else {
        arrivals(ts.drop_last(), buckets, b)
    }
}

/// The database after tuples were installed: each goes to the end of the
/// first collection of its bucket.
pub open spec fn installed(db: Seq<Seq<Seq<Seq<u8>>>>, ts: Seq<Seq<u8>>) -> Seq<Seq<Seq<Seq<u8>>>> {
    Seq::new(db.len(), |b: int| db[b].update(0, db[b][0] + arrivals(ts, db.len(), b)))
}

/// The database after every bucket was encoded.
pub open spec fn all_encoded(db: Seq<Seq<Seq<Seq<u8>>>>, opt: OptScheme, ret: RetScheme) -> Seq<Seq<Seq<Seq<u8>>>> {
    Seq::new(db.len(), |b: int| encoded(db[b][0], opt, ret))
}

/// The database after every collection was emptied.
pub open spec fn all_cleared(db: Seq<Seq<Seq<Seq<u8>>>>) -> Seq<Seq<Seq<Seq<u8>>>> {
    Seq::new(db.len(), |b: int| Seq::new(db[b].len(), |c: int| Seq::<Seq<u8>>::empty()))
}

/// The number of levels that a list of collections is served in.
pub open spec fn levels_in(cs: Seq<Seq<Seq<u8>>>, ret: RetScheme) -> nat
    decreases cs.len(),
{
    if cs.len() == 0 {
        0
    } else {
        levels_in(cs.drop_last(), ret) + spec_levels(cs.last().len(), ret)
    }
}

/// The number of levels that a database is served in.
pub open spec fn levels_of(db: Seq<Seq<Seq<Seq<u8>>>>, ret: RetScheme) -> nat
    decreases db.len(),
{
    if db.len() == 0 {
        0
    } else {
        levels_of(db.drop_last(), ret) + levels_in(db.last(), ret)
    }
}

/// The number of retrievals that every client makes in a round: one for
/// each level of each collection, in each sweep over the buckets.
pub open spec fn quota(db: Seq<Seq<Seq<Seq<u8>>>>, opt: OptScheme, ret: RetScheme) -> nat {
    levels_of(db, ret) * spec_max_retries(opt, db.len())
}

/// The labels that the buckets up to `upto` publish, one bucket after the
/// other; none where there is no batch code.
pub open spec fn all_mid_labels(db: Seq<Seq<Seq<Seq<u8>>>>, opt: OptScheme, ret: RetScheme, upto: nat) -> Seq<Seq<u8>>
    decreases upto,
{
    if upto == 0 {
        Seq::empty()
    } else {
        all_mid_labels(db, opt, ret, (upto - 1) as nat) + spec_mid_labels(db[upto - 1], opt, ret)
    }
}

/// The number of tuples that a bucket holds as they were sent.
pub open spec fn systematic_len(cs: Seq<Seq<Seq<u8>>>, opt: OptScheme) -> nat {
    match opt {
        OptScheme::Normal | OptScheme::Aliasing => cs[0].len(),
        OptScheme::Hybrid2 => cs[0].len() + cs[1].len(),
        OptScheme::Hybrid4 => cs[0].len() + cs[1].len() + cs[2].len() + cs[3].len(),
    }
}

/// The reply to the send requests of a round whose database is encoded.
pub open spec fn info_of(db: Seq<Seq<Seq<Seq<u8>>>>, opt: OptScheme, ret: RetScheme) -> Info {
    Info {
        num_messages: Seq::new(db.len(), |b: int| systematic_len(db[b], opt) as u64),
        min_labels: all_mid_labels(db, opt, ret, db.len()),
    }
}

/// Whether every client of the round has sent all it may.
pub open spec fn all_sent(clients: Seq<Client>) -> bool {
    forall|i: int|
        0 <= i < clients.len() && (#[trigger] clients[i]).status == Status::Synchronized ==> clients[i].send_remaining
            == 0
}

/// Whether every client of the round has made all its retrievals.
pub open spec fn all_retrieved(clients: Seq<Client>) -> bool {
    forall|i: int|
        0 <= i < clients.len() && (#[trigger] clients[i]).status == Status::Synchronized ==> clients[i].ret_remaining
            == 0
}

/// The clients when a round starts to serve retrievals: every client of
/// the round has `q` retrievals to make.
pub open spec fn with_quota(clients: Seq<Client>, q: u64) -> Seq<Client> {
    Seq::new(
        clients.len(),
        |i: int|
            if clients[i].status == Status::Synchronized {
                Client { ret_remaining: q, ..clients[i] }
            } else {
                clients[i]
            },
    )
}

/// The clients when a round starts: those of the last round and those
/// that joined may send as many tuples as their rate says.
pub open spec fn renewed(clients: Seq<Client>) -> Seq<Client> {
    Seq::new(
        clients.len(),
        |i: int|
            if clients[i].status == Status::Registered {
                clients[i]
            } else {
                Client {
                    status: Status::Synchronized,
                    send_remaining: clients[i].rate,
                    ret_remaining: 0,
                    ..clients[i]
                }
            },
    )
}

/// A counter that stops at the largest number.
pub open spec fn capped_add(a: u64, b: nat) -> u64 {
    if a + b > u64::MAX {
        u64::MAX
    } else {
        (a + b) as u64
    }
}

/// The state after the client at index `i` sent the tuples `ts`.
pub open spec fn accepted(s: State, i: int, ts: Seq<Seq<u8>>) -> State {
    State {
        clients: s.clients.update(
            i,
            Client { send_remaining: (s.clients[i].send_remaining - ts.len()) as u32, ..s.clients[i] },
        ),
        count: capped_add(s.count, ts.len()),
        db: installed(s.db, ts),
        ..s
    }
}

/// Whether the round is ready to be encoded: it takes tuples, every
/// client of the round has sent all it may, and the round has as many
/// tuples as it needs.
pub open spec fn ready_to_close(s: State) -> bool {
    s.phase == Phase::Sending && all_sent(s.clients) && s.count >= s.min_messages
}

/// The state after the round was encoded: the padding tuples are
/// installed, every bucket is encoded, every client of the round gets its
/// retrievals, and the round serves retrievals.
pub open spec fn closed(s: State) -> State {
    let db = all_encoded(installed(s.db, s.extra), s.opt, s.ret);
    State { phase: Phase::Receiving, clients: with_quota(s.clients, quota(db, s.opt, s.ret) as u64), db, ..s }
}

/// The state after the round was encoded if it is ready for that, and the
/// reply to its send requests then.
pub open spec fn settle(s: State) -> (State, Option<Info>) {
    if ready_to_close(s) {
        (closed(s), Some(info_of(closed(s).db, s.opt, s.ret)))
    } else {
        (s, None)
    }
}

/// Why the held request `q` is refused by the state, if it is.
pub open spec fn refusal(s: State, q: Queued) -> Option<Error> {
    let i = client_index(s.clients, q.id);
    if i < 0 || s.clients[i].status != Status::Synchronized {
        Some(Error::NotSynchronized)
    } else if s.clients[i].send_remaining < q.tuples.len() {
        Some(Error::SendRateExceeded)
    } else {
        None
    }
}

/// The state after the first `upto` held requests were looked at when
/// the round started: those of the round are taken or refused as if they
/// had come in the round; the others stay. With the state come what
/// became of the requests of the round, and the requests that stay.
pub open spec fn drained(s: State, upto: nat) -> (State, Seq<Resolved>, Seq<Queued>)
    decreases upto,
{
    if upto == 0 {
        (s, Seq::empty(), Seq::empty())
    } else {
        let (t, resolved, rest) = drained(s, (upto - 1) as nat);
        let q = s.queue[upto - 1];
        if q.round != s.round {
            (t, resolved, rest.push(q))
        } else if refusal(t, q) is Some {
            (t, resolved.push(Resolved { ticket: q.ticket, refused: refusal(t, q) }), rest)
        } else {
            (
                accepted(t, client_index(t.clients, q.id), q.tuples),
                resolved.push(Resolved { ticket: q.ticket, refused: None }),
                rest,
            )
        }
    }
}

/// The state when the next round starts: the database is empty, the
/// clients may send again, and the requests held for the round are
/// resolved.
pub open spec fn advanced(s: State) -> (State, Seq<Resolved>) {
    let fresh = State {
        round: (s.round + 1) as u64,
        phase: Phase::Sending,
        clients: renewed(s.clients),
        count: 0,
        db: all_cleared(s.db),
        ..s
    };
    let (t, resolved, rest) = drained(fresh, fresh.queue.len());
    (State { queue: rest, ..t }, resolved)
}

/// A new client registers with a rate: it gets the next id.
pub open spec fn spec_register(s: State, rate: u32) -> (State, Result<u64, Error>) {
    if rate == 0 {
        (s, Err(Error::InvalidRate))
    } else if s.next_id == u64::MAX {
        (s, Err(Error::IdsExhausted))
    } else {
        (
            State {
                clients: s.clients.push(
                    Client { id: s.next_id, rate, status: Status::Registered, send_remaining: 0, ret_remaining: 0 },
                ),
                next_id: (s.next_id + 1) as u64,
                ..s
            },
            Ok(s.next_id),
        )
    }
}

/// A client synchronizes: while the round takes tuples it becomes part of
/// the round and learns its number; while the round serves retrievals it
/// becomes part of the next round and learns that number.
pub open spec fn spec_sync(s: State, id: u64) -> (State, Result<u64, Error>) {
    let i = client_index(s.clients, id);
    if i < 0 {
        (s, Err(Error::UnknownId))
    } else if s.phase == Phase::Receiving {
        if s.clients[i].status == Status::Registered {
            (State { clients: s.clients.update(i, Client { status: Status::Joining, ..s.clients[i] }), ..s }, Ok((s.round + 1) as u64))
        } else {
            (s, Ok((s.round + 1) as u64))
        }
    } else if s.clients[i].status == Status::Synchronized {
        (s, Ok(s.round))
    } else {
        (
            State {
                clients: s.clients.update(
                    i,
                    Client {
                        status: Status::Synchronized,
                        send_remaining: s.clients[i].rate,
                        ret_remaining: 0,
                        ..s.clients[i]
                    },
                ),
                ..s
            },
            Ok(s.round),
        )
    }
}

/// The held requests of a client.
pub open spec fn held_by(queue: Seq<Queued>, id: u64) -> Seq<u64>
    decreases queue.len(),
{
    if queue.len() == 0 {
        Seq::empty()
    } else if queue.last().id == id {
        held_by(queue.drop_last(), id).push(queue.last().ticket)
    } else {
        held_by(queue.drop_last(), id)
    }
}

/// The held requests of all clients but one.
pub open spec fn held_by_others(queue: Seq<Queued>, id: u64) -> Seq<Queued>
    decreases queue.len(),
{
    if queue.len() == 0 {
        Seq::empty()
    } else if queue.last().id == id {
        held_by_others(queue.drop_last(), id)
    } else {
        held_by_others(queue.drop_last(), id).push(queue.last())
    }
}

/// A client leaves: the server forgets it, and its held requests are
/// refused.
pub open spec fn spec_close(s: State, id: u64) -> (State, Result<Seq<u64>, Error>) {
    let i = client_index(s.clients, id);
    if i < 0 {
        (s, Err(Error::UnknownId))
    } else {
        (
            State { clients: s.clients.remove(i), queue: held_by_others(s.queue, id), ..s },
            Ok(held_by(s.queue, id)),
        )
    }
}

/// A client sends tuples for a round.
pub open spec fn spec_send(s: State, id: u64, round: u64, wire: Seq<Seq<u8>>) -> (State, Result<SendResult, Error>) {
    let i = client_index(s.clients, id);
    if i < 0 {
        (s, Err(Error::UnknownId))
    } else if round < s.round {
        (s, Err(Error::InvalidRound))
    } else if s.phase != Phase::Sending && round == s.round {
        (s, Err(Error::NotSendPhase))
    } else if wire.len() == 0 {
        (s, Err(Error::NoTuples))
    } else if !valid_wire(wire, s.opt) {
        (s, Err(Error::InvalidTuple))
    } else if round > s.round {
        if s.next_ticket == u64::MAX {
            (s, Err(Error::IdsExhausted))
        } else {
            let held = State {
                queue: s.queue.push(Queued { ticket: s.next_ticket, id, round, tuples: stored(wire, s.opt) }),
                next_ticket: (s.next_ticket + 1) as u64,
                ..s
            };
            (settle(held).0, Ok(SendResult { outcome: SendOutcome::Held(s.next_ticket), closed: settle(held).1 }))
        }
    } else if s.clients[i].status != Status::Synchronized {
        (s, Err(Error::NotSynchronized))
    } else if s.clients[i].send_remaining < stored(wire, s.opt).len() {
        (s, Err(Error::SendRateExceeded))
    } else {
        let taken = accepted(s, i, stored(wire, s.opt));
        (settle(taken).0, Ok(SendResult { outcome: SendOutcome::Accepted, closed: settle(taken).1 }))
    }
}

/// Why a retrieval is refused, if it is.
pub open spec fn retr_refusal(s: State, id: u64, round: u64, bucket: u32, collection: u32, level: u32) -> Option<Error> {
    let i = client_index(s.clients, id);
    if i < 0 {
        Some(Error::UnknownId)
    } else if round != s.round {
        Some(Error::InvalidRound)
    } else if s.phase != Phase::Receiving {
        Some(Error::NotReceivePhase)
    } else if s.clients[i].status != Status::Synchronized {
        Some(Error::NotSynchronized)
    } else if s.clients[i].ret_remaining == 0 {
        Some(Error::RetrievalRateExceeded)
    } else if bucket >= s.db.len() {
        Some(Error::InvalidBucket)
    } else if collection >= s.db[bucket as int].len() {
        Some(Error::InvalidCollection)
    } else if level >= spec_levels(s.db[bucket as int][collection as int].len(), s.ret) {
        Some(Error::InvalidLevel)
    } else {
        None
    }
}

/// The clients after the client at index `i` made one of its retrievals.
pub open spec fn retrieved_once(clients: Seq<Client>, i: int) -> Seq<Client> {
    clients.update(i, Client { ret_remaining: (clients[i].ret_remaining - 1) as u64, ..clients[i] })
}

/// Whether no request is held for a round.
pub open spec fn none_held_for(queue: Seq<Queued>, round: int) -> bool {
    forall|k: int| 0 <= k < queue.len() ==> (#[trigger] queue[k]).round != round
}

/// A client retrieves from one level of a collection: the retrieval is
/// counted, and the next round starts when it was the last of the round.
/// The last round that the counter can number does not end.
pub open spec fn spec_retr(s: State, id: u64, round: u64, bucket: u32, collection: u32, level: u32) -> (
    State,
    Result<RetrResult, Error>,
) {
    let i = client_index(s.clients, id);
    match retr_refusal(s, id, round, bucket, collection, level) {
        Some(e) => (s, Err(e)),
        None => {
            let counted = State { clients: retrieved_once(s.clients, i), ..s };
            if all_retrieved(counted.clients) && counted.round + 1 < u64::MAX {
                let (next, resolved) = advanced(counted);
                (settle(next).0, Ok(RetrResult { advanced: true, resolved, closed: settle(next).1 }))
            } else {
                (counted, Ok(RetrResult { advanced: false, resolved: Seq::empty(), closed: None }))
            }
        },
    }
}

/// The labels of the systematic collections of every bucket, one
/// collection after the other.
pub open spec fn mapping_of(db: Seq<Seq<Seq<Seq<u8>>>>, systematic: nat) -> Seq<Seq<Seq<u8>>> {
    Seq::new(
        db.len() * systematic,
        |k: int|
            Seq::new(
                db[k / systematic as int][k % systematic as int].len(),
                |j: int| label_of(db[k / systematic as int][k % systematic as int][j]),
            ),
    )
}

/// Why a request for the labels or the filters of a round is refused, if
/// it is.
pub open spec fn lookup_refusal(s: State, round: u64) -> Option<Error> {
    if round != s.round {
        Some(Error::InvalidRound)
    } else if s.phase != Phase::Receiving {
        Some(Error::NotReceivePhase)
    } else {
        None
    }
}

/// What holds of the clients between requests: every client has a rate
/// above 0 and may not send more than its rate, and the ids of the
/// clients differ and were given out.
pub open spec fn clients_inv(clients: Seq<Client>, next_id: u64) -> bool {
    &&& forall|i: int| 0 <= i < clients.len() ==> 0 < (#[trigger] clients[i]).rate
    &&& forall|i: int| 0 <= i < clients.len() ==> (#[trigger] clients[i]).send_remaining <= clients[i].rate
    &&& forall|i: int| 0 <= i < clients.len() ==> (#[trigger] clients[i]).id < next_id
    &&& forall|i: int, j: int| 0 <= i < j < clients.len() ==> (#[trigger] clients[i]).id != (#[trigger] clients[j]).id
}

/// What holds of the state between requests: the clients are in order,
/// and while the round serves retrievals, every client of the round has
/// sent all it may.
pub open spec fn inv(s: State) -> bool {
    &&& s.round < u64::MAX
    &&& s.db.len() > 0
    &&& clients_inv(s.clients, s.next_id)
    &&& s.phase == Phase::Receiving ==> all_sent(s.clients)
}

/// The client that is found has the id that was looked for.
pub proof fn lemma_client_index(clients: Seq<Client>, id: u64)
    ensures
        -1 <= client_index(clients, id) < clients.len(),
        client_index(clients, id) >= 0 ==> clients[client_index(clients, id)].id == id,
        client_index(clients, id) == -1 ==> forall|i: int| 0 <= i < clients.len() ==> (#[trigger] clients[i]).id != id,
    decreases clients.len(),
{
    if clients.len() > 0 {
        lemma_client_index(clients.drop_last(), id);
        if client_index(clients.drop_last(), id) < 0 && clients.last().id != id {
            assert forall|i: int| 0 <= i < clients.len() implies (#[trigger] clients[i]).id != id by {
                if i < clients.len() - 1 {
                    assert(clients.drop_last()[i] == clients[i]);
                }
            }
        }
    }
}

/// Taking tuples from a client that may send them keeps the clients in
/// order.
pub proof fn lemma_accepted_inv(s: State, i: int, ts: Seq<Seq<u8>>)
    requires
        clients_inv(s.clients, s.next_id),
        0 <= i < s.clients.len(),
        ts.len() <= s.clients[i].send_remaining,
    ensures
        clients_inv(accepted(s, i, ts).clients, s.next_id),
        accepted(s, i, ts).clients.len() == s.clients.len(),
        accepted(s, i, ts).db.len() == s.db.len(),
        accepted(s, i, ts).round == s.round,
        accepted(s, i, ts).phase == s.phase,
        accepted(s, i, ts).next_id == s.next_id,
{
}

/// Encoding a round that is ready for it keeps the state in order.
pub proof fn lemma_settle_inv(s: State)
    requires
        s.round < u64::MAX,
        s.db.len() > 0,
        clients_inv(s.clients, s.next_id),
        s.phase == Phase::Sending,
    ensures
        inv(settle(s).0),
        settle(s).0.round == s.round,
        settle(s).0.phase == Phase::Receiving ==> all_sent(s.clients) && s.count >= s.min_messages,
{
}

/// Looking at the held requests keeps the clients in order.
pub proof fn lemma_drained_inv(s: State, upto: nat)
    requires
        clients_inv(s.clients, s.next_id),
        upto <= s.queue.len(),
    ensures
        clients_inv(drained(s, upto).0.clients, s.next_id),
        drained(s, upto).0.round == s.round,
        drained(s, upto).0.phase == s.phase,
        drained(s, upto).0.next_id == s.next_id,
        drained(s, upto).0.db.len() == s.db.len(),
    decreases upto,
{
    if upto > 0 {
        lemma_drained_inv(s, (upto - 1) as nat);
        let (t, resolved, rest) = drained(s, (upto - 1) as nat);
        let q = s.queue[upto - 1];
        if q.round == s.round && refusal(t, q) is None {
            lemma_client_index(t.clients, q.id);
            lemma_accepted_inv(t, client_index(t.clients, q.id), q.tuples);
        }
    }
}

/// Rate conservation for tuples: whatever a client sends, no client has
/// sent more than its rate in the round, and the round starts to serve
/// retrievals only when every client of the round has sent all it may;
/// every client of the round then has the same number of retrievals to
/// make, one for each level of the database in each sweep.
pub proof fn lemma_send_conserves(s: State, id: u64, round: u64, wire: Seq<Seq<u8>>)
    requires
        inv(s),
    ensures
        inv(spec_send(s, id, round, wire).0),
        spec_send(s, id, round, wire).0.round == s.round,
        spec_send(s, id, round, wire).0.phase != s.phase ==> {
            let t = spec_send(s, id, round, wire).0;
            &&& s.phase == Phase::Sending
            &&& t.phase == Phase::Receiving
            &&& t.count >= t.min_messages
            &&& forall|i: int|
                0 <= i < t.clients.len() && (#[trigger] t.clients[i]).status == Status::Synchronized ==> {
                    &&& t.clients[i].send_remaining == 0
                    &&& t.clients[i].ret_remaining == quota(t.db, t.opt, t.ret) as u64
                }
        },
{
    let i = client_index(s.clients, id);
    lemma_client_index(s.clients, id);
    if i >= 0 && round >= s.round && !(s.phase != Phase::Sending && round == s.round) && wire.len() > 0 && valid_wire(
        wire,
        s.opt,
    ) {
        if round > s.round {
            if s.next_ticket != u64::MAX {
                let held = State {
                    queue: s.queue.push(Queued { ticket: s.next_ticket, id, round, tuples: stored(wire, s.opt) }),
                    next_ticket: (s.next_ticket + 1) as u64,
                    ..s
                };
                if s.phase == Phase::Sending {
                    lemma_settle_inv(held);
                }
            }
        } else if s.clients[i].status == Status::Synchronized && s.clients[i].send_remaining >= stored(
            wire,
            s.opt,
        ).len() {
            lemma_accepted_inv(s, i, stored(wire, s.opt));
            lemma_settle_inv(accepted(s, i, stored(wire, s.opt)));
        }
    }
}

/// Where no request of the round is among the first `upto` that are held,
/// looking at them changes nothing: all of them stay.
pub proof fn lemma_drained_none(s: State, upto: nat)
    requires
        upto <= s.queue.len(),
        none_held_for(s.queue, s.round as int),
    ensures
        drained(s, upto) == (s, Seq::<Resolved>::empty(), s.queue.take(upto as int)),
    decreases upto,
{
    if upto > 0 {
        lemma_drained_none(s, (upto - 1) as nat);
        assert(s.queue.take(upto - 1).push(s.queue[upto - 1]) =~= s.queue.take(upto as int));
    } else {
        assert(s.queue.take(0) =~= Seq::<Queued>::empty());
    }
}

/// Rate conservation for retrievals. A retrieval that is granted is one
/// that the client had still to make, and it lowers the number of those
/// by one. While a client of the round has a retrieval to make, round,
/// phase and database stay as they are. With the last retrieval of the
/// round the next round starts, so that every client makes all its
/// retrievals in a round, and no more. Where no request is held for the
/// next round, it starts empty: it takes tuples, the database holds none
/// and none is counted, and every client of the round may send as many
/// tuples as its rate says.
pub proof fn lemma_retr_conserves(s: State, id: u64, round: u64, bucket: u32, collection: u32, level: u32)
    requires
        inv(s),
    ensures
        inv(spec_retr(s, id, round, bucket, collection, level).0),
        spec_retr(s, id, round, bucket, collection, level).1 is Err ==> spec_retr(
            s,
            id,
            round,
            bucket,
            collection,
            level,
        ).0 == s,
        spec_retr(s, id, round, bucket, collection, level).1 matches Ok(r) ==> {
            let t = spec_retr(s, id, round, bucket, collection, level).0;
            let i = client_index(s.clients, id);
            let counted = retrieved_once(s.clients, i);
            &&& s.phase == Phase::Receiving
            &&& round == s.round
            &&& 0 <= i < s.clients.len()
            &&& s.clients[i].status == Status::Synchronized
            &&& s.clients[i].ret_remaining > 0
            &&& counted[i].ret_remaining == s.clients[i].ret_remaining - 1
            &&& r.advanced == (all_retrieved(counted) && s.round + 1 < u64::MAX)
            &&& !r.advanced ==> t == (State { clients: counted, ..s })
            &&& r.advanced ==> t.round == s.round + 1
            &&& r.advanced && none_held_for(s.queue, s.round + 1) ==> {
                &&& t == (State {
                    round: (s.round + 1) as u64,
                    phase: Phase::Sending,
                    clients: renewed(counted),
                    count: 0,
                    db: all_cleared(s.db),
                    ..s
                })
                &&& r.resolved == Seq::<Resolved>::empty()
                &&& r.closed is None
                &&& forall|k: int|
                    0 <= k < t.clients.len() && (#[trigger] t.clients[k]).status == Status::Synchronized ==> {
                        &&& t.clients[k].send_remaining == t.clients[k].rate
                        &&& t.clients[k].ret_remaining == 0
                    }
            }
        },
        spec_retr(s, id, round, bucket, collection, level).0.round != s.round ==> {
            &&& spec_retr(s, id, round, bucket, collection, level).0.round == s.round + 1
            &&& forall|i: int|
                0 <= i < s.clients.len() && (#[trigger] s.clients[i]).status == Status::Synchronized ==> {
                    &&& s.clients[i].send_remaining == 0
                    &&& s.clients[i].ret_remaining == if s.clients[i].id == id {
                        1u64
                    } else {
                        0u64
                    }
                }
        },
{
    let i = client_index(s.clients, id);
    lemma_client_index(s.clients, id);
    if retr_refusal(s, id, round, bucket, collection, level) is None {
        let counted = State { clients: retrieved_once(s.clients, i), ..s };
        assert(clients_inv(counted.clients, s.next_id));
        assert(all_sent(counted.clients));
        if all_retrieved(counted.clients) && counted.round + 1 < u64::MAX {
            let fresh = State {
                round: (counted.round + 1) as u64,
                phase: Phase::Sending,
                clients: renewed(counted.clients),
                count: 0,
                db: all_cleared(counted.db),
                ..counted
            };
            assert(clients_inv(fresh.clients, s.next_id));
            lemma_drained_inv(fresh, fresh.queue.len());
            let (t, resolved, rest) = drained(fresh, fresh.queue.len());
            let next = State { queue: rest, ..t };
            lemma_settle_inv(next);
            assert forall|k: int|
                0 <= k < s.clients.len() && (#[trigger] s.clients[k]).status == Status::Synchronized implies {
                &&& s.clients[k].send_remaining == 0
                &&& s.clients[k].ret_remaining == if s.clients[k].id == id {
                    1u64
                } else {
                    0u64
                }
            } by {
                assert(counted.clients[k].status == Status::Synchronized);
                if k != i {
                    assert(counted.clients[k] == s.clients[k]);
                }
            }
            if none_held_for(s.queue, s.round + 1) {
                lemma_drained_none(fresh, fresh.queue.len());
                assert(fresh.queue.take(fresh.queue.len() as int) =~= fresh.queue);
                assert(next == fresh);
                assert(fresh.clients[i].status == Status::Synchronized);
                assert(fresh.clients[i].send_remaining == fresh.clients[i].rate);
                assert(!all_sent(fresh.clients));
                assert(settle(next) == (fresh, None::<Info>));
            }
        }
    }
}

/// In every other request the state stays in order.
pub proof fn lemma_bookkeeping_inv(s: State, id: u64, rate: u32)
    requires
        inv(s),
    ensures
        inv(spec_register(s, rate).0),
        inv(spec_sync(s, id).0),
        inv(spec_close(s, id).0),
{
    lemma_client_index(s.clients, id);
    let i = client_index(s.clients, id);
    if i >= 0 {
        let after = s.clients.remove(i);
        assert forall|a: int, b: int| 0 <= a < b < after.len() implies (#[trigger] after[a]).id != (#[trigger] after[b]).id by {
            let a0 = if a < i {
                a
            } else {
                a + 1
            };
            let b0 = if b < i {
                b
            } else {
                b + 1
            };
            assert(after[a] == s.clients[a0] && after[b] == s.clients[b0]);
        }
    }
}

/// Whether a client holds the phase up: it is part of the round and has
/// not sent all it may while the round takes tuples, or not made all its
/// retrievals while the round serves them.
pub open spec fn is_late(c: Client, phase: Phase) -> bool {
    c.status == Status::Synchronized && if phase == Phase::Sending {
        c.send_remaining > 0
    } else {
        c.ret_remaining > 0
    }
}

/// The clients that do not hold the phase up.
pub open spec fn on_time(clients: Seq<Client>, phase: Phase) -> Seq<Client>
    decreases clients.len(),
{
    if clients.len() == 0 {
        Seq::empty()
    } else if is_late(clients.last(), phase) {
        on_time(clients.drop_last(), phase)
    } else {
        on_time(clients.drop_last(), phase).push(clients.last())
    }
}

/// The ids of the clients that hold the phase up.
pub open spec fn late_ids(clients: Seq<Client>, phase: Phase) -> Seq<u64>
    decreases clients.len(),
{
    if clients.len() == 0 {
        Seq::empty()
    } else if is_late(clients.last(), phase) {
        late_ids(clients.drop_last(), phase).push(clients.last().id)
    } else {
        late_ids(clients.drop_last(), phase)
    }
}

/// The held requests of the clients that are not among `ids`.
pub open spec fn held_without(queue: Seq<Queued>, ids: Seq<u64>) -> Seq<Queued>
    decreases queue.len(),
{
    if queue.len() == 0 {
        Seq::empty()
    } else if ids.contains(queue.last().id) {
        held_without(queue.drop_last(), ids)
    } else {
        held_without(queue.drop_last(), ids).push(queue.last())
    }
}

/// The tickets of the held requests of the clients among `ids`.
pub open spec fn held_of(queue: Seq<Queued>, ids: Seq<u64>) -> Seq<u64>
    decreases queue.len(),
{
    if queue.len() == 0 {
        Seq::empty()
    } else if ids.contains(queue.last().id) {
        held_of(queue.drop_last(), ids).push(queue.last().ticket)
    } else {
        held_of(queue.drop_last(), ids)
    }
}

/// What a deadline comes to: the clients that were closed, the tickets of
/// their held requests, which are refused, and how the round moved on.
pub struct DeadlineResult {
    pub closed_ids: Seq<u64>,
    pub refused: Seq<u64>,
    pub advanced: bool,
    pub resolved: Seq<Resolved>,
    pub closed: Option<Info>,
}

/// The phase has run out of time: the clients that hold it up are closed
/// as if they had left, and the round moves on as far as the others let
/// it: a round that served retrievals gives way to the next, and a round
/// that takes tuples is encoded if it has as many as it needs.
pub open spec fn spec_deadline(s: State) -> (State, DeadlineResult) {
    let ids = late_ids(s.clients, s.phase);
    let rest = State { clients: on_time(s.clients, s.phase), queue: held_without(s.queue, ids), ..s };
    let refused = held_of(s.queue, ids);
    if s.phase == Phase::Receiving && rest.round + 1 < u64::MAX {
        let (next, resolved) = advanced(rest);
        (settle(next).0, DeadlineResult { closed_ids: ids, refused, advanced: true, resolved, closed: settle(next).1 })
    } else {
        (
            settle(rest).0,
            DeadlineResult { closed_ids: ids, refused, advanced: false, resolved: Seq::empty(), closed: settle(rest).1 },
        )
    }
}

/// The clients that do not hold the phase up are clients, in their order,
/// and none of them holds the phase up.
pub proof fn lemma_on_time(clients: Seq<Client>, phase: Phase, next_id: u64)
    requires
        clients_inv(clients, next_id),
    ensures
        clients_inv(on_time(clients, phase), next_id),
        forall|i: int| 0 <= i < on_time(clients, phase).len() ==> !is_late(#[trigger] on_time(clients, phase)[i], phase),
        forall|i: int|
            0 <= i < on_time(clients, phase).len() ==> exists|j: int|
                0 <= j < clients.len() && clients[j] == #[trigger] on_time(clients, phase)[i],
    decreases clients.len(),
{
    if clients.len() > 0 {
        let head = clients.drop_last();
        assert(clients_inv(head, next_id)) by {
            assert forall|i: int| 0 <= i < head.len() implies (#[trigger] head[i]) == clients[i] by {}
        }
        lemma_on_time(head, phase, next_id);
        let kept = on_time(clients, phase);
        let before = on_time(head, phase);
        assert forall|i: int| 0 <= i < kept.len() implies exists|j: int|
            0 <= j < clients.len() && clients[j] == #[trigger] kept[i] by {
            if i < before.len() {
                let j = choose|j: int| 0 <= j < head.len() && head[j] == before[i];
                assert(clients[j] == kept[i]);
            } else {
                assert(clients[clients.len() - 1] == kept[i]);
            }
        }
        if !is_late(clients.last(), phase) {
            assert forall|a: int, b: int| 0 <= a < b < kept.len() implies (#[trigger] kept[a]).id != (#[trigger] kept[b]).id by {
                if b == kept.len() - 1 {
                    let j = choose|j: int| 0 <= j < head.len() && head[j] == before[a];
                    assert(clients[j].id != clients[clients.len() - 1].id);
                }
            }
        }
    }
}

/// A deadline keeps the state in order, and moves a round on only when
/// every client that is left has sent all it may and made all its
/// retrievals.
pub proof fn lemma_deadline_conserves(s: State)
    requires
        inv(s),
    ensures
        inv(spec_deadline(s).0),
        spec_deadline(s).1.advanced ==> s.phase == Phase::Receiving && spec_deadline(s).0.round == s.round + 1,
        !spec_deadline(s).1.advanced ==> spec_deadline(s).0.round == s.round,
{
    let ids = late_ids(s.clients, s.phase);
    let rest = State { clients: on_time(s.clients, s.phase), queue: held_without(s.queue, ids), ..s };
    lemma_on_time(s.clients, s.phase, s.next_id);
    if s.phase == Phase::Receiving {
        assert(all_sent(rest.clients)) by {
            assert forall|i: int|
                0 <= i < rest.clients.len() && (#[trigger] rest.clients[i]).status == Status::Synchronized implies rest.clients[i].send_remaining
                == 0 by {
                let j = choose|j: int| 0 <= j < s.clients.len() && s.clients[j] == rest.clients[i];
                assert(s.clients[j].status == Status::Synchronized);
            }
        }
        if rest.round + 1 < u64::MAX {
            let fresh = State {
                round: (rest.round + 1) as u64,
                phase: Phase::Sending,
                clients: renewed(rest.clients),
                count: 0,
                db: all_cleared(rest.db),
                ..rest
            };
            assert(clients_inv(fresh.clients, s.next_id));
            lemma_drained_inv(fresh, fresh.queue.len());
            let (t, resolved, remaining) = drained(fresh, fresh.queue.len());
            lemma_settle_inv(State { queue: remaining, ..t });
        }
    } else {
        lemma_settle_inv(rest);
    }
}

} // verus!
