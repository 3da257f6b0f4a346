use pung::client::retrieve::{LabelIndex, Probe, Retrieval, Shape};
use pung::client::PungClient;
use pung::db::{OptScheme, PungTuple, RetScheme};
use pung::error::Error;
use pung::server::model::{Phase, SendOutcome};
use pung::server::rpc::{PungRpc, RoundInfo};

fn secret(last: u8) -> Vec<u8> {
    let mut s = vec![0u8; 32];
    s[31] = last;
    s
}

fn padded(msg: &[u8]) -> Vec<u8> {
    let mut m = msg.to_vec();
    m.resize(238, 0);
    m
}

// Answers a probe from the database of the engine, and has the engine count the retrieval.
fn answer(rpc: &mut PungRpc, id: u64, round: u64, probe: &Probe) -> Option<PungTuple> {
    let tuple = {
        let collection = rpc.database().get_bucket(probe.bucket).get_collection(probe.collection as usize);
        if collection.is_empty() {
            assert_eq!(probe.len, 0);
            None
        } else {
            let level = collection.get_level(probe.level as usize);
            assert_eq!(level.len() as u64, probe.len);
            assert!(probe.idx < probe.len);
            Some(level[probe.idx as usize].clone())
        }
    };
    rpc.retr(id, round, probe.bucket as u32, probe.collection, probe.level).unwrap();
    tuple
}

fn index_for(rpc: &PungRpc, client: &PungClient, ret: RetScheme, round: u64) -> LabelIndex {
    match ret {
        RetScheme::Explicit => client.get_explicit_labels(rpc.get_mapping(round).unwrap()).unwrap(),
        RetScheme::Bloom => client.get_bloom_filter(&rpc.get_bloom(round).unwrap()).unwrap(),
        RetScheme::Tree => LabelIndex::Tree,
    }
}

// Runs the retrievals of a client to the end; gives the messages and what the server saw.
fn retrieve(rpc: &mut PungRpc, client: &PungClient, names: &[&str], ret: RetScheme) -> (Vec<Vec<u8>>, Vec<Shape>) {
    let round = client.get_round();
    let index = index_for(rpc, client, ret, round);
    let mut retrieval: Retrieval = client.retr(names, index).unwrap();
    let mut seen = Vec::new();
    while !retrieval.is_done() {
        let probes: Vec<Probe> = retrieval.batch().to_vec();
        let mut answers = Vec::new();
        for p in &probes {
            seen.push(Shape { bucket: p.bucket, collection: p.collection, level: p.level, len: p.len });
            answers.push(answer(rpc, client.get_id(), round, p));
        }
        retrieval.receive(&answers);
    }
    (retrieval.messages().clone(), seen)
}

fn setup(name: &str, peers: &[(&str, u8)], rate: u32, buckets: u32, ret: RetScheme, opt: OptScheme) -> PungClient {
    let mut c = PungClient::new(name, rate, buckets, 1, ret, opt);
    for (p, s) in peers {
        c.add_peer(p, &secret(*s));
    }
    c.init_dummy_peer();
    c
}

fn join(rpc: &mut PungRpc, client: &mut PungClient, rate: u32) {
    let id = rpc.register(rate).unwrap();
    client.register(id);
    let round = rpc.sync(id).unwrap();
    client.sync(round).unwrap();
}

fn take_info(client: &mut PungClient, info: &RoundInfo) -> u64 {
    client.receive_info(&info.num_messages, &info.min_labels).unwrap()
}

fn loopback(ret: RetScheme, opt: OptScheme, buckets: u32, quota: u32) {
    let mut rpc = PungRpc::new(ret, opt, buckets as usize, 1, 0, 0);
    let mut a = setup("a", &[("a", 1)], 1, buckets, ret, opt);
    join(&mut rpc, &mut a, quota);
    let wire = a.send("a", &[b"hello".to_vec()]).unwrap();
    let reply = rpc.send(a.get_id(), 0, &wire).unwrap();
    assert_eq!(reply.outcome, SendOutcome::Accepted);
    let info = reply.closed.expect("the only client has sent all it may");
    assert_eq!(rpc.phase(), Phase::Receiving);
    assert_eq!(take_info(&mut a, &info), quota as u64);
    let (messages, _) = retrieve(&mut rpc, &a, &["a"], ret);
    assert!(messages == vec![padded(b"hello")], "{:?} {:?} {} buckets: {} messages", ret, opt, buckets, messages.len());
    assert_eq!(&messages[0][0..5], b"hello");
    assert!(messages[0][5..238].iter().all(|b| *b == 0));
    assert_eq!(rpc.round(), 1);
    assert_eq!(rpc.phase(), Phase::Sending);
    assert!(rpc.database().is_empty());
}

#[test]
fn single_message_loopback() {
    loopback(RetScheme::Explicit, OptScheme::Normal, 1, 1);
}

#[test]
fn loopback_in_every_scheme() {
    for ret in [RetScheme::Explicit, RetScheme::Bloom, RetScheme::Tree] {
        loopback(ret, OptScheme::Normal, 3, 1);
        loopback(ret, OptScheme::Aliasing, 3, 2);
        loopback(ret, OptScheme::Hybrid2, 3, 2);
        loopback(ret, OptScheme::Hybrid4, 3, 2);
    }
}

fn exchange(ret: RetScheme, opt: OptScheme, buckets: u32, per_message: u32) {
    let mut rpc = PungRpc::new(ret, opt, buckets as usize, 1, 0, 0);
    let mut a = setup("a", &[("b", 7)], 1, buckets, ret, opt);
    let mut b = setup("b", &[("a", 7)], 1, buckets, ret, opt);
    join(&mut rpc, &mut a, per_message);
    join(&mut rpc, &mut b, per_message);
    let wire_a = a.send("b", &[b"hi-a".to_vec()]).unwrap();
    let wire_b = b.send("a", &[b"hi-b".to_vec()]).unwrap();
    let first = rpc.send(a.get_id(), 0, &wire_a).unwrap();
    assert!(first.closed.is_none());
    assert_eq!(rpc.phase(), Phase::Sending);
    let second = rpc.send(b.get_id(), 0, &wire_b).unwrap();
    let info = second.closed.unwrap();
    take_info(&mut a, &info);
    take_info(&mut b, &info);
    let (got_a, seen_a) = retrieve(&mut rpc, &a, &["b"], ret);
    assert_eq!(rpc.round(), 0);
    let (got_b, seen_b) = retrieve(&mut rpc, &b, &["a"], ret);
    assert!(got_a == vec![padded(b"hi-b")], "{:?} {:?} {} buckets: {} messages", ret, opt, buckets, got_a.len());
    assert!(got_b == vec![padded(b"hi-a")], "{:?} {:?} {} buckets: {} messages", ret, opt, buckets, got_b.len());
    assert_eq!(seen_a, seen_b);
    assert_eq!(rpc.round(), 1);
}

#[test]
fn two_party_exchange() {
    exchange(RetScheme::Explicit, OptScheme::Normal, 2, 1);
}

#[test]
fn two_party_exchange_in_every_scheme() {
    for ret in [RetScheme::Explicit, RetScheme::Bloom, RetScheme::Tree] {
        for buckets in [2u32, 5] {
            exchange(ret, OptScheme::Normal, buckets, 1);
            exchange(ret, OptScheme::Aliasing, buckets, 2);
            exchange(ret, OptScheme::Hybrid2, buckets, 2);
            exchange(ret, OptScheme::Hybrid4, buckets, 2);
        }
    }
}

#[test]
fn aliasing_bucket_swap() {
    let mut rpc = PungRpc::new(RetScheme::Explicit, OptScheme::Aliasing, 2, 1, 0, 0);
    let mut a = setup("a", &[("a", 1)], 1, 2, RetScheme::Explicit, OptScheme::Aliasing);
    join(&mut rpc, &mut a, 2);
    let wire = a.send("a", &[b"twice".to_vec()]).unwrap();
    assert_eq!(wire[0].len(), 318);
    let label_1 = wire[0][0..32].to_vec();
    let label_2 = wire[0][32..64].to_vec();
    let reply = rpc.send(a.get_id(), 0, &wire).unwrap();
    let info = reply.closed.unwrap();
    assert_eq!(info.num_messages, vec![1, 1]);
    let db = rpc.database();
    let t0 = db.get_bucket(0).get_collection(0).get_tuple(0).clone();
    let t1 = db.get_bucket(1).get_collection(0).get_tuple(0).clone();
    assert_eq!(t0.cipher(), t1.cipher());
    assert_eq!(t0.mac(), t1.mac());
    assert_ne!(t0.label(), t1.label());
    let mut labels = vec![t0.label().to_vec(), t1.label().to_vec()];
    labels.sort();
    let mut sent = vec![label_1, label_2];
    sent.sort();
    assert_eq!(labels, sent);
}

#[test]
fn round_advance_under_dummy_padding() {
    let ret = RetScheme::Explicit;
    let opt = OptScheme::Normal;
    let mut rpc = PungRpc::new(ret, opt, 4, 1, 0, 0);
    let mut a = setup("a", &[("a", 1)], 2, 4, ret, opt);
    join(&mut rpc, &mut a, 2);
    let wire = a.send("a", &[b"one".to_vec(), b"two".to_vec()]).unwrap();
    let info = rpc.send(a.get_id(), 0, &wire).unwrap().closed.unwrap();
    assert_eq!(take_info(&mut a, &info), 2);
    let (messages, seen) = retrieve(&mut rpc, &a, &["a"], ret);
    // four sweeps over four buckets with one level each
    assert_eq!(seen.len(), 16);
    assert_eq!(rpc.max_retries(4), 4);
    assert_eq!(messages, vec![padded(b"one")]);
    assert_eq!(rpc.round(), 1);
    assert!(rpc.database().is_empty());
    assert_eq!(rpc.database().len(), 0);
}

#[test]
fn late_send_queued() {
    let ret = RetScheme::Explicit;
    let opt = OptScheme::Normal;
    let mut rpc = PungRpc::new(ret, opt, 1, 1, 0, 0);
    let mut a = setup("a", &[("a", 1)], 1, 1, ret, opt);
    join(&mut rpc, &mut a, 1);
    let wire = a.send("a", &[b"now".to_vec()]).unwrap();
    let info = rpc.send(a.get_id(), 0, &wire).unwrap().closed.unwrap();
    take_info(&mut a, &info);

    // a send for the next round while this one serves retrievals
    a.inc_round(1);
    let later = a.send("a", &[b"later".to_vec()]).unwrap();
    let held = rpc.send(a.get_id(), 1, &later).unwrap();
    let ticket = match held.outcome {
        SendOutcome::Held(t) => t,
        SendOutcome::Accepted => panic!("the round has not come"),
    };
    assert!(held.closed.is_none());
    assert_eq!(rpc.round(), 0);
    assert!(rpc.database().get_bucket(0).get_collection(0).len() == 1);

    // the last retrieval of round 0 starts round 1 and installs the held tuples
    let reply = rpc.retr(a.get_id(), 0, 0, 0, 0).unwrap();
    assert!(reply.advanced);
    assert_eq!(reply.resolved.len(), 1);
    assert_eq!(reply.resolved[0].ticket, ticket);
    assert_eq!(reply.resolved[0].refused, None);
    let info = reply.closed.expect("the held tuples were all that the client may send");
    assert_eq!(info.num_messages, vec![1]);
    assert_eq!(rpc.round(), 1);
    assert_eq!(rpc.phase(), Phase::Receiving);
    take_info(&mut a, &info);
    let (messages, _) = retrieve(&mut rpc, &a, &["a"], ret);
    assert_eq!(messages, vec![padded(b"later")]);
    assert_eq!(rpc.round(), 2);
}

#[test]
fn server_refuses() {
    let mut rpc = PungRpc::new(RetScheme::Explicit, OptScheme::Normal, 2, 1, 0, 0);
    assert_eq!(rpc.register(0), Err(Error::InvalidRate));
    assert_eq!(rpc.next_id(), 0);
    let id = rpc.register(2).unwrap();
    assert_eq!(id, 0);
    assert_eq!(rpc.next_id(), 1);
    assert_eq!(rpc.sync(9), Err(Error::UnknownId));
    assert_eq!(rpc.close(9).err(), Some(Error::UnknownId));
    let tuple = vec![vec![1u8; 286]];
    assert_eq!(rpc.send(9, 0, &tuple).err(), Some(Error::UnknownId));
    assert_eq!(rpc.send(id, 0, &tuple).err(), Some(Error::NotSynchronized));
    assert_eq!(rpc.sync(id), Ok(0));
    assert_eq!(rpc.send(id, 0, &[]).err(), Some(Error::NoTuples));
    assert_eq!(rpc.send(id, 0, &[vec![1u8; 285]]).err(), Some(Error::InvalidTuple));
    assert_eq!(rpc.send(id, 0, &[vec![1u8; 318]]).err(), Some(Error::InvalidTuple));
    assert_eq!(rpc.send(id, 0, &vec![vec![1u8; 286]; 3]).err(), Some(Error::SendRateExceeded));
    assert_eq!(rpc.retr(id, 0, 0, 0, 0).err(), Some(Error::NotReceivePhase));
    assert_eq!(rpc.get_mapping(0).err(), Some(Error::NotReceivePhase));
    assert_eq!(rpc.get_bloom(1).err(), Some(Error::InvalidRound));
    assert!(rpc.send(id, 0, &tuple).unwrap().closed.is_none());
    let info = rpc.send(id, 0, &tuple).unwrap().closed.unwrap();
    assert_eq!(info.num_messages.iter().sum::<u64>(), 2);
    assert!(info.min_labels.is_empty());
    assert_eq!(rpc.send(id, 0, &tuple).err(), Some(Error::NotSendPhase));
    assert_eq!(rpc.sync(id), Ok(1));
    assert_eq!(rpc.retr(id, 1, 0, 0, 0).err(), Some(Error::InvalidRound));
    assert_eq!(rpc.retr(9, 0, 0, 0, 0).err(), Some(Error::UnknownId));
    assert_eq!(rpc.retr(id, 0, 2, 0, 0).err(), Some(Error::InvalidBucket));
    assert_eq!(rpc.retr(id, 0, 0, 1, 0).err(), Some(Error::InvalidCollection));
    assert_eq!(rpc.retr(id, 0, 0, 0, 1).err(), Some(Error::InvalidLevel));
    let other = rpc.register(1).unwrap();
    assert_eq!(rpc.sync(other), Ok(1));
    assert_eq!(rpc.retr(other, 0, 0, 0, 0).err(), Some(Error::NotSynchronized));
    // two buckets, one level each, two sweeps
    for _ in 0..3 {
        assert!(!rpc.retr(id, 0, 0, 0, 0).unwrap().advanced);
    }
    assert!(rpc.retr(id, 0, 1, 0, 0).unwrap().advanced);
    assert_eq!(rpc.round(), 1);
    assert_eq!(rpc.send(id, 0, &tuple).err(), Some(Error::InvalidRound));
    // the client that synchronized during the retrievals is part of round 1
    assert!(rpc.send(other, 1, &tuple).unwrap().closed.is_none());
    assert_eq!(rpc.close(id).unwrap(), Vec::<u64>::new());
    assert_eq!(rpc.sync(id), Err(Error::UnknownId));
}

#[test]
fn rate_conservation() {
    let mut rpc = PungRpc::new(RetScheme::Tree, OptScheme::Hybrid2, 3, 1, 0, 0);
    let a = rpc.register(4).unwrap();
    let b = rpc.register(2).unwrap();
    rpc.sync(a).unwrap();
    rpc.sync(b).unwrap();
    let mut tuples = Vec::new();
    for i in 0..3u8 {
        let mut t = vec![0u8; 318];
        t[0] = 40 * i;
        t[32] = 255 - 40 * i;
        t[100] = i;
        tuples.push(t);
    }
    // two stored tuples for each tuple on the wire
    assert_eq!(rpc.send(a, 0, &tuples).err(), Some(Error::SendRateExceeded));
    assert!(rpc.send(a, 0, &tuples[0..1]).unwrap().closed.is_none());
    assert!(rpc.send(b, 0, &tuples[1..2]).unwrap().closed.is_none());
    assert_eq!(rpc.send(b, 0, &tuples[2..3]).err(), Some(Error::SendRateExceeded));
    let info = rpc.send(a, 0, &tuples[2..3]).unwrap().closed.unwrap();
    assert_eq!(info.num_messages.iter().sum::<u64>(), 6);
    assert_eq!(info.min_labels.len(), 3);
    let total = rpc.database().total_dbs() as u32;
    let retries = rpc.max_retries(3);
    assert_eq!(retries, 1);
    let mut granted = 0;
    'outer: for bucket in 0..3u32 {
        for collection in 0..3u32 {
            let levels = rpc.database().get_bucket(bucket as usize).get_collection(collection as usize).num_levels();
            for level in 0..levels as u32 {
                for id in [a, b] {
                    let reply = rpc.retr(id, 0, bucket, collection, level).unwrap();
                    granted += 1;
                    if reply.advanced {
                        break 'outer;
                    }
                }
            }
        }
    }
    assert_eq!(granted, 2 * total * retries);
    assert_eq!(rpc.round(), 1);
    assert_eq!(rpc.retr(a, 1, 0, 0, 0).err(), Some(Error::NotReceivePhase));
}

#[test]
fn quota_is_exhausted() {
    let mut rpc = PungRpc::new(RetScheme::Explicit, OptScheme::Normal, 1, 1, 0, 0);
    let a = rpc.register(1).unwrap();
    let b = rpc.register(1).unwrap();
    rpc.sync(a).unwrap();
    rpc.sync(b).unwrap();
    rpc.send(a, 0, &[vec![3u8; 286]]).unwrap();
    rpc.send(b, 0, &[vec![4u8; 286]]).unwrap();
    assert!(!rpc.retr(a, 0, 0, 0, 0).unwrap().advanced);
    assert_eq!(rpc.retr(a, 0, 0, 0, 0).err(), Some(Error::RetrievalRateExceeded));
    assert!(rpc.retr(b, 0, 0, 0, 0).unwrap().advanced);
}

#[test]
fn extra_tuples_pad_the_round() {
    let mut rpc = PungRpc::new(RetScheme::Explicit, OptScheme::Normal, 2, 1, 5, 0);
    let a = rpc.register(1).unwrap();
    rpc.sync(a).unwrap();
    let info = rpc.send(a, 0, &[vec![3u8; 286]]).unwrap().closed.unwrap();
    assert_eq!(info.num_messages.iter().sum::<u64>(), 6);
    assert_eq!(rpc.database().len(), 6);
    rpc.change_extra(2);
    for _ in 0..4 {
        rpc.retr(a, 0, 0, 0, 0).unwrap();
    }
    assert_eq!(rpc.round(), 1);
    let info = rpc.send(a, 1, &[vec![3u8; 286]]).unwrap().closed.unwrap();
    assert_eq!(info.num_messages.iter().sum::<u64>(), 3);
}

#[test]
fn min_messages_holds_the_round() {
    let mut rpc = PungRpc::new(RetScheme::Explicit, OptScheme::Normal, 1, 1, 0, 2);
    let a = rpc.register(1).unwrap();
    rpc.sync(a).unwrap();
    assert!(rpc.send(a, 0, &[vec![3u8; 286]]).unwrap().closed.is_none());
    assert_eq!(rpc.phase(), Phase::Sending);
    let b = rpc.register(1).unwrap();
    rpc.sync(b).unwrap();
    assert!(rpc.send(b, 0, &[vec![4u8; 286]]).unwrap().closed.is_some());
}

#[test]
fn closing_refuses_held_sends() {
    let mut rpc = PungRpc::new(RetScheme::Explicit, OptScheme::Normal, 1, 1, 0, 0);
    let a = rpc.register(1).unwrap();
    let b = rpc.register(1).unwrap();
    rpc.sync(a).unwrap();
    let first = rpc.send(a, 3, &[vec![3u8; 286]]).unwrap();
    let second = rpc.send(b, 2, &[vec![3u8; 286]]).unwrap();
    let third = rpc.send(a, 1, &[vec![3u8; 286]]).unwrap();
    assert_eq!(first.outcome, SendOutcome::Held(0));
    assert_eq!(second.outcome, SendOutcome::Held(1));
    assert_eq!(third.outcome, SendOutcome::Held(2));
    assert_eq!(rpc.close(a).unwrap(), vec![0, 2]);
}

#[test]
fn access_pattern_is_uniform() {
    for ret in [RetScheme::Explicit, RetScheme::Bloom, RetScheme::Tree] {
        for opt in [OptScheme::Normal, OptScheme::Aliasing, OptScheme::Hybrid2, OptScheme::Hybrid4] {
            let buckets = 3u32;
            let per = if opt == OptScheme::Normal { 1 } else { 2 };
            let mut rpc = PungRpc::new(ret, opt, buckets as usize, 1, 7, 0);
            let mut a = setup("a", &[("b", 7), ("c", 8)], 3, buckets, ret, opt);
            let mut b = setup("b", &[("a", 7)], 3, buckets, ret, opt);
            let mut c = setup("c", &[("a", 8)], 3, buckets, ret, opt);
            join(&mut rpc, &mut a, 3 * per);
            join(&mut rpc, &mut b, 3 * per);
            join(&mut rpc, &mut c, 3 * per);
            let msgs = |tag: &str| -> Vec<Vec<u8>> { (0..3).map(|i| format!("{}-{}", tag, i).into_bytes()).collect() };
            let wa = a.send("b", &msgs("a")).unwrap();
            let wb = b.send("a", &msgs("b")).unwrap();
            let wc = c.send("a", &msgs("c")).unwrap();
            assert!(rpc.send(a.get_id(), 0, &wa).unwrap().closed.is_none());
            assert!(rpc.send(b.get_id(), 0, &wb).unwrap().closed.is_none());
            let info = rpc.send(c.get_id(), 0, &wc).unwrap().closed.unwrap();
            take_info(&mut a, &info);
            take_info(&mut b, &info);
            take_info(&mut c, &info);
            let (got_a, seen_a) = retrieve(&mut rpc, &a, &["b", "c", "b"], ret);
            let (got_b, seen_b) = retrieve(&mut rpc, &b, &["a"], ret);
            let (got_c, seen_c) = retrieve(&mut rpc, &c, &[], ret);
            assert_eq!(seen_a, seen_b);
            assert_eq!(seen_a, seen_c);
            assert_eq!(rpc.round(), 1);
            let mut got_a_sorted = got_a.clone();
            got_a_sorted.sort();
            assert_eq!(got_a_sorted, vec![padded(b"b-0"), padded(b"b-1"), padded(b"c-0")]);
            assert_eq!(got_b, vec![padded(b"a-0")]);
            assert!(got_c.is_empty());
        }
    }
}

#[test]
fn deadline_closes_the_stuck() {
    let mut rpc = PungRpc::new(RetScheme::Explicit, OptScheme::Normal, 1, 1, 0, 0);
    let a = rpc.register(1).unwrap();
    let b = rpc.register(2).unwrap();
    let c = rpc.register(1).unwrap();
    rpc.sync(a).unwrap();
    rpc.sync(b).unwrap();
    let held = rpc.send(b, 5, &[vec![9u8; 286]]).unwrap();
    assert_eq!(held.outcome, SendOutcome::Held(0));
    assert!(rpc.send(a, 0, &[vec![3u8; 286]]).unwrap().closed.is_none());
    assert!(rpc.send(b, 0, &[vec![4u8; 286]]).unwrap().closed.is_none());
    // b may send one more tuple and holds the round up
    let reply = rpc.deadline();
    assert_eq!(reply.closed_ids, vec![b]);
    assert_eq!(reply.refused, vec![0]);
    assert!(!reply.advanced);
    let info = reply.closed.expect("the others have sent all they may");
    assert_eq!(info.num_messages, vec![2]);
    assert_eq!(rpc.phase(), Phase::Receiving);
    assert_eq!(rpc.sync(b), Err(Error::UnknownId));
    assert_eq!(rpc.sync(c), Ok(1));
    // a has one retrieval to make and does not make it
    let reply = rpc.deadline();
    assert_eq!(reply.closed_ids, vec![a]);
    assert!(reply.advanced);
    assert!(reply.closed.is_none());
    assert_eq!(rpc.round(), 1);
    assert_eq!(rpc.phase(), Phase::Sending);
    assert!(rpc.database().is_empty());
    // c joined during the retrievals and is part of round 1
    assert!(rpc.send(c, 1, &[vec![5u8; 286]]).unwrap().closed.is_some());
    // the only client of round 1 makes its only retrieval
    assert!(rpc.retr(c, 1, 0, 0, 0).unwrap().advanced);
    assert_eq!(rpc.phase(), Phase::Sending);
    // c does not send in round 2
    let reply = rpc.deadline();
    assert_eq!(reply.closed_ids, vec![c]);
    assert!(!reply.advanced);
    assert_eq!(rpc.round(), 2);
    assert_eq!(rpc.sync(c), Err(Error::UnknownId));
}

#[test]
fn padding_tuples_are_random_bytes() {
    let mut rpc = PungRpc::new(RetScheme::Explicit, OptScheme::Normal, 1, 1, 4, 0);
    let a = rpc.register(1).unwrap();
    rpc.sync(a).unwrap();
    rpc.send(a, 0, &[vec![0u8; 286]]).unwrap().closed.unwrap();
    let collection = rpc.database().get_bucket(0).get_collection(0);
    assert_eq!(collection.len(), 5);
    let tuples: Vec<Vec<u8>> = collection.get_tuples().iter().map(|t| t.to_binary()).collect();
    assert_eq!(tuples[0], vec![0u8; 286]);
    for i in 1..5 {
        assert!(tuples[i].iter().filter(|b| **b != 0).count() > 200);
        for j in 1..i {
            assert_ne!(tuples[i], tuples[j]);
        }
        assert!(tuples[i - 1][..32] <= tuples[i][..32]);
    }
}

#[test]
fn held_sends_are_taken_or_refused() {
    let mut rpc = PungRpc::new(RetScheme::Explicit, OptScheme::Normal, 1, 1, 0, 0);
    let a = rpc.register(2).unwrap();
    let b = rpc.register(1).unwrap();
    let c = rpc.register(1).unwrap();
    rpc.sync(a).unwrap();
    let one = vec![vec![1u8; 286]];
    let three = vec![vec![2u8; 286]; 3];
    // for round 1: too many tuples of a, one of b, who is not part of a round, and one of a
    let too_many = rpc.send(a, 1, &three).unwrap().outcome;
    let stranger = rpc.send(b, 1, &one).unwrap().outcome;
    let fine = rpc.send(a, 1, &one).unwrap().outcome;
    let later = rpc.send(a, 2, &one).unwrap().outcome;
    assert_eq!(
        (too_many, stranger, fine, later),
        (SendOutcome::Held(0), SendOutcome::Held(1), SendOutcome::Held(2), SendOutcome::Held(3))
    );
    assert!(rpc.send(a, 0, &vec![vec![3u8; 286]; 2]).unwrap().closed.is_some());
    assert_eq!(rpc.sync(c), Ok(1));
    assert!(rpc.retr(a, 0, 0, 0, 0).unwrap().advanced);
    assert_eq!(rpc.round(), 1);
    assert_eq!(rpc.phase(), Phase::Sending);
    assert_eq!(rpc.database().len(), 1);
    assert_eq!(rpc.database().get_bucket(0).get_collection(0).get_tuple(0).to_binary(), vec![1u8; 286]);
    // a may send one more tuple in round 1, and c one
    assert!(rpc.send(a, 1, &one).unwrap().closed.is_none());
    let info = rpc.send(c, 1, &one).unwrap().closed.unwrap();
    assert_eq!(info.num_messages, vec![3]);
}

#[test]
fn held_sends_are_resolved_with_the_round() {
    let mut rpc = PungRpc::new(RetScheme::Explicit, OptScheme::Normal, 1, 1, 0, 0);
    let a = rpc.register(2).unwrap();
    let b = rpc.register(1).unwrap();
    rpc.sync(a).unwrap();
    let one = vec![vec![1u8; 286]];
    rpc.send(a, 1, &vec![vec![2u8; 286]; 3]).unwrap();
    rpc.send(b, 1, &one).unwrap();
    rpc.send(a, 1, &one).unwrap();
    rpc.send(a, 0, &vec![vec![3u8; 286]; 2]).unwrap();
    let reply = rpc.retr(a, 0, 0, 0, 0).unwrap();
    assert!(reply.advanced);
    let refused: Vec<(u64, Option<Error>)> = reply.resolved.iter().map(|r| (r.ticket, r.refused)).collect();
    assert_eq!(refused, vec![(0, Some(Error::SendRateExceeded)), (1, Some(Error::NotSynchronized)), (2, None)]);
    assert!(reply.closed.is_none());
}
