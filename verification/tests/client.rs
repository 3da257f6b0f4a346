use pung::client::pcrypto::{derive_keys, gen_label, PungKeys};
use pung::client::retrieve::{
    alternative, choose_route, classify, level_len, next_label, part_len, place, probe_len, step, LabelIndex,
    Scheduled, Target,
};
use pung::client::{find_alias, BucketInfo, PungClient, PungPeer};
use pung::db::{OptScheme, PungTuple, RetScheme};
use pung::error::Error;
use pung::util::random::{index_of, random_index, some_or_random};
use pung::util::{bucket_idx, label_marker};
use rand::ChaChaRng;

fn secret(last: u8) -> Vec<u8> {
    let mut s = vec![0u8; 32];
    s[31] = last;
    s
}

fn client(name: &str, buckets: u32, opt: OptScheme) -> PungClient {
    let mut c = PungClient::new(name, 2, buckets, 1, RetScheme::Explicit, opt);
    c.init_dummy_peer();
    c
}

#[test]
fn peers_and_buckets() {
    let keys = PungKeys { k_l: vec![1], k_l2: vec![2], k_e: vec![3] };
    let peer = PungPeer::new(0, 1, keys);
    assert_eq!(peer.uid_self, 0);
    assert_eq!(peer.uid_peer, 1);
    assert_eq!(peer.keys.k_e, vec![3]);
    let info = BucketInfo { num: 7, lmid: vec![vec![1, 2], vec![3]] };
    assert_eq!(info.num_tuples(), 7);
    assert_eq!(info.get_lmid(1), &[3]);
    assert_eq!(info.get_lmids().len(), 2);
}

#[test]
fn uids_are_symmetric() {
    // what a sends to b, b looks for, and the other way round
    for opt in [OptScheme::Normal, OptScheme::Aliasing] {
        for (x, y) in [("a", "b"), ("b", "a"), ("a", "a"), ("ab", "a"), ("", "z")] {
            let mut cx = client(x, 4, opt);
            let mut cy = client(y, 4, opt);
            cx.add_peer(y, &secret(1));
            cy.add_peer(x, &secret(1));
            let wire = cx.send(y, &[b"m0".to_vec(), b"m1".to_vec()]).unwrap();
            let map = cy.schedule(&[x, x]).unwrap();
            let scheduled: Vec<Vec<u8>> = map.iter().flatten().map(|s| s.label.clone()).collect();
            assert_eq!(scheduled.len(), 2);
            for label in scheduled {
                assert!(wire.iter().any(|w| w[0..32] == label[..] || (opt != OptScheme::Normal && w[32..64] == label[..])));
            }
        }
    }
    let keys = derive_keys(&secret(1));
    let mut a = client("a", 1, OptScheme::Normal);
    a.add_peer("b", &secret(1));
    let wire = a.send("b", &[b"m".to_vec()]).unwrap();
    // a comes first and has uid 0: it labels what it sends with the uid of b
    assert_eq!(wire[0][0..32], gen_label(&keys.k_l, 0, 1, 0, 0)[..]);
    let mut b = client("b", 1, OptScheme::Normal);
    b.add_peer("a", &secret(1));
    let wire = b.send("a", &[b"m".to_vec()]).unwrap();
    assert_eq!(wire[0][0..32], gen_label(&keys.k_l, 0, 0, 0, 0)[..]);
    let map = b.schedule(&["a"]).unwrap();
    assert_eq!(map[0][0].label, gen_label(&keys.k_l, 0, 1, 0, 0));
}

#[test]
fn tuples_on_the_wire() {
    let mut a = client("a", 4, OptScheme::Normal);
    a.add_peer("b", &secret(1));
    assert_eq!(a.send("c", &[b"x".to_vec()]).err(), Some(Error::InvalidPeer));
    assert_eq!(a.send("b", &[]).err(), Some(Error::NoMessages));
    assert_eq!(a.send("b", &[vec![0u8; 239]]).err(), Some(Error::MessageTooLong));
    let wire = a.send("b", &[vec![1u8; 238], b"x".to_vec()]).unwrap();
    assert_eq!(wire.len(), 2);
    assert_eq!(wire[0].len(), 286);
    assert_ne!(wire[0][..32], wire[1][..32]);

    let mut a = client("a", 4, OptScheme::Hybrid2);
    a.add_peer("b", &secret(1));
    let wire = a.send("b", &[b"x".to_vec()]).unwrap();
    assert_eq!(wire[0].len(), 318);
    let parts: Vec<Vec<u8>> = (0..4).map(|i| label_marker(i, 4)).collect();
    assert_ne!(bucket_idx(&wire[0][..32], &parts), bucket_idx(&wire[0][32..64], &parts));

    // with one bucket no second label falls into another
    let mut a = client("a", 1, OptScheme::Aliasing);
    a.add_peer("b", &secret(1));
    assert_eq!(a.send("b", &[b"x".to_vec()]).err(), Some(Error::NoAlias));
    assert_eq!(a.schedule(&["b"]).err(), Some(Error::NoAlias));
    assert_eq!(a.register_rate(), 4);
    let mut nowhere = client("a", 0, OptScheme::Normal);
    nowhere.add_peer("b", &secret(1));
    assert_eq!(nowhere.schedule(&["b"]).err(), Some(Error::InvalidBucket));
    assert!(nowhere.schedule(&[]).unwrap().is_empty());
    assert_eq!(client("a", 1, OptScheme::Normal).register_rate(), 2);
}

#[test]
fn alias_is_the_first_in_another_bucket() {
    let key = derive_keys(&secret(3)).k_l2;
    let parts: Vec<Vec<u8>> = (0..2).map(|i| label_marker(i, 2)).collect();
    for msg in 0..20u64 {
        for first in 0..2usize {
            let (iter, alias) = find_alias(&key, 5, 1, msg, first, &parts).unwrap();
            assert_eq!(alias, gen_label(&key, 5, 1, msg, iter));
            assert_ne!(bucket_idx(&alias, &parts), first);
            for c in 0..iter {
                assert_eq!(bucket_idx(&gen_label(&key, 5, 1, msg, c), &parts), first);
            }
        }
    }
    assert!(find_alias(&key, 5, 1, 0, 0, &parts[..1]).is_none());
}

#[test]
fn rounds_and_ids() {
    let mut a = client("a", 2, OptScheme::Normal);
    assert_eq!(a.get_round(), 0);
    assert_eq!(a.get_id(), 0);
    assert_eq!(a.register(7), 7);
    assert_eq!(a.get_id(), 7);
    assert_eq!(a.sync(3), Ok(()));
    assert_eq!(a.get_round(), 3);
    assert_eq!(a.sync(2), Err(Error::InvalidRound));
    assert_eq!(a.get_round(), 3);
    a.inc_round(2);
    assert_eq!(a.get_round(), 5);
    assert_eq!(a.get_send_rate(), 2);
    assert_eq!(a.get_ret_rate(), 2);
}

#[test]
fn replies_are_taken_or_refused() {
    let mut a = client("a", 2, OptScheme::Hybrid4);
    let labels: Vec<Vec<u8>> = (0..6u8).map(|i| vec![i; 32]).collect();
    assert_eq!(a.receive_info(&[1], &labels[..3]), Err(Error::InvalidReply));
    assert_eq!(a.receive_info(&[1, 2], &labels[..5]), Err(Error::InvalidReply));
    assert_eq!(a.receive_info(&[u64::MAX, 2], &labels), Err(Error::InvalidReply));
    assert_eq!(a.retr(&[], LabelIndex::Tree).err(), Some(Error::InvalidReply));
    assert_eq!(a.receive_info(&[5, 9], &labels), Ok(14));
    assert_eq!(a.get_explicit_labels(vec![vec![]; 7]).err(), Some(Error::InvalidReply));
    assert!(a.get_explicit_labels(vec![vec![]; 8]).is_ok());
    assert_eq!(a.get_bloom_filter(&vec![vec![0u8; 3]; 8]).err(), Some(Error::InvalidReply));
    // buckets of 5 and 9 tuples in collections of 2, 1, 1, 1 and 3, 2, 2, 2 tuples
    let sizes = [6usize, 3, 3, 3, 9, 6, 6, 6];
    let blooms: Vec<Vec<u8>> = sizes.iter().map(|n| vec![0u8; *n]).collect();
    assert!(a.get_bloom_filter(&blooms).is_ok());
    assert_eq!(a.retr(&["x"], LabelIndex::Explicit(vec![vec![]; 8])).err(), Some(Error::InvalidPeer));
    assert_eq!(a.retr(&["a", "a", "a"], LabelIndex::Tree).err(), Some(Error::RateExceeded));
    assert_eq!(a.retr(&[], LabelIndex::Tree).err(), Some(Error::InvalidReply));
    assert_eq!(a.retr(&[], LabelIndex::Explicit(vec![vec![]; 7])).err(), Some(Error::InvalidReply));
    let without = PungClient::new("a", 1, 2, 1, RetScheme::Explicit, OptScheme::Normal);
    assert_eq!(without.retr(&[], LabelIndex::Explicit(vec![vec![]; 2])).err(), Some(Error::NoDummyPeer));
}

#[test]
fn schedule_balances_the_buckets() {
    let mut map: Vec<Vec<Scheduled>> = vec![Vec::new(), Vec::new(), Vec::new()];
    place(&mut map, 0, vec![1], 0, Some((vec![2], 1)));
    // as many in both: the bucket of the first label
    assert_eq!(map[0].len(), 1);
    assert_eq!(map[0][0].label, vec![1]);
    place(&mut map, 1, vec![3], 0, Some((vec![4], 1)));
    assert_eq!(map[1].len(), 1);
    assert_eq!(map[1][0].label, vec![4]);
    assert_eq!(map[1][0].peer, 1);
    place(&mut map, 2, vec![5], 2, None);
    assert_eq!(map[2][0].label, vec![5]);
    place(&mut map, 2, vec![6], 2, Some((vec![7], 0)));
    assert_eq!(map[2].len(), 2);

    let mut count = 0u64;
    let key = derive_keys(&secret(9)).k_l;
    let s = next_label(&mut map, 2, &key, 4, 0, 9, &mut count);
    assert_eq!((s.peer, s.label, count), (2, vec![6], 0));
    let s = next_label(&mut map, 2, &key, 4, 0, 9, &mut count);
    assert_eq!((s.peer, s.label, count), (2, vec![5], 0));
    let s = next_label(&mut map, 2, &key, 4, 0, 9, &mut count);
    assert_eq!((s.peer, s.label, count), (9, gen_label(&key, 4, 0, 0, 0), 1));
    let s = next_label(&mut map, 2, &key, 4, 0, 9, &mut count);
    assert_eq!((s.peer, s.label, count), (9, gen_label(&key, 4, 0, 1, 0), 2));
}

#[test]
fn labels_lie_in_collections() {
    let lmids = vec![vec![10u8], vec![20u8], vec![30u8]];
    assert_eq!(classify(&[5], &lmids), 0);
    assert_eq!(classify(&[10], &lmids), 1);
    assert_eq!(classify(&[19, 255], &lmids), 1);
    assert_eq!(classify(&[20], &lmids), 2);
    assert_eq!(classify(&[200], &lmids), 3);
    assert_eq!(classify(&[200], &[]), 0);
    // an empty collection publishes no bytes, and no label lies in it
    let gaps = vec![vec![], vec![20u8], vec![]];
    assert_eq!(classify(&[5], &gaps), 0);
    assert_eq!(classify(&[25], &gaps), 2);
    assert_eq!(classify(&[25], &[vec![], vec![], vec![]]), 0);
}

#[test]
fn routes_share_no_collection() {
    assert_eq!(alternative(OptScheme::Normal, 0, 0), vec![0]);
    assert_eq!(alternative(OptScheme::Hybrid2, 0, 1), vec![1, 2]);
    assert_eq!(alternative(OptScheme::Hybrid2, 1, 1), vec![0, 2]);
    let table = [
        [vec![0], vec![1, 4], vec![2, 6], vec![3, 5, 7, 8]],
        [vec![1], vec![0, 4], vec![3, 7], vec![2, 5, 6, 8]],
        [vec![2], vec![3, 5], vec![0, 6], vec![1, 4, 7, 8]],
        [vec![3], vec![2, 5], vec![1, 7], vec![0, 4, 6, 8]],
    ];
    for home in 0..4 {
        for alt in 0..4 {
            assert_eq!(alternative(OptScheme::Hybrid4, home, alt), table[home][alt]);
        }
    }
    // whatever four collections the labels lie in, every label gets a route
    for homes in 0..256usize {
        let mut free = vec![true; 9];
        let mut used = Vec::new();
        for t in 0..4 {
            let route = choose_route(OptScheme::Hybrid4, (homes >> (2 * t)) & 3, &mut free);
            assert!(!route.is_empty());
            for c in route {
                assert!(!used.contains(&c));
                assert!(!free[c]);
                used.push(c);
            }
        }
    }
    let mut free = vec![true; 3];
    assert_eq!(choose_route(OptScheme::Hybrid2, 1, &mut free), vec![1]);
    assert_eq!(choose_route(OptScheme::Hybrid2, 1, &mut free), vec![0, 2]);
    assert_eq!(choose_route(OptScheme::Hybrid2, 0, &mut free), Vec::<usize>::new());
    assert_eq!(free, vec![false, false, false]);
}

#[test]
fn sizes_of_collections_and_levels() {
    assert_eq!(part_len(OptScheme::Normal, 9, 0), 9);
    let two: Vec<u64> = (0..3).map(|c| part_len(OptScheme::Hybrid2, 9, c)).collect();
    assert_eq!(two, vec![5, 4, 5]);
    let four: Vec<u64> = (0..9).map(|c| part_len(OptScheme::Hybrid4, 9, c)).collect();
    assert_eq!(four, vec![3, 2, 2, 2, 3, 2, 3, 2, 3]);
    assert_eq!(probe_len(9, RetScheme::Explicit, 0), 9);
    let levels: Vec<u64> = (0..4).map(|l| probe_len(9, RetScheme::Tree, l)).collect();
    assert_eq!(levels, vec![1, 2, 4, 2]);
    assert_eq!(level_len(OptScheme::Hybrid2, RetScheme::Tree, 9, 1, 2), 1);
    assert_eq!(level_len(OptScheme::Hybrid2, RetScheme::Tree, 9, 1, 3), 0);
    assert_eq!(level_len(OptScheme::Hybrid2, RetScheme::Bloom, 9, 1, 0), 4);
    assert_eq!(level_len(OptScheme::Hybrid2, RetScheme::Bloom, 9, 1, 1), 0);
}

fn tuple_with_label(first: u8) -> PungTuple {
    let mut raw = [0u8; 286];
    raw[0] = first;
    PungTuple::new(&raw)
}

fn target(label_first: u8, idx: Option<u64>) -> Target {
    let mut label = vec![0u8; 32];
    label[0] = label_first;
    Target { peer: 0, label, home: 0, route: vec![0], idx, found: None }
}

#[test]
fn searches_go_down_the_tree() {
    let mut t = target(50, Some(3));
    step(&mut t, Some(tuple_with_label(60)), RetScheme::Tree, 100);
    assert_eq!(t.idx, Some(6));
    assert!(t.found.is_none());
    step(&mut t, Some(tuple_with_label(40)), RetScheme::Tree, 100);
    assert_eq!(t.idx, Some(13));
    step(&mut t, Some(tuple_with_label(50)), RetScheme::Tree, 100);
    assert_eq!(t.idx, None);
    assert!(t.found.as_ref().unwrap().label()[0] == 50);
    // a search that is over stays as it is
    step(&mut t, Some(tuple_with_label(1)), RetScheme::Tree, 100);
    assert!(t.found.as_ref().unwrap().label()[0] == 50);

    let mut t = target(50, Some(3));
    step(&mut t, Some(tuple_with_label(40)), RetScheme::Tree, 7);
    assert_eq!(t.idx, None);
    assert!(t.found.is_none());
    let mut t = target(50, Some(3));
    step(&mut t, None, RetScheme::Tree, 100);
    assert_eq!(t.idx, None);
    let mut t = target(50, Some(3));
    step(&mut t, Some(tuple_with_label(40)), RetScheme::Explicit, 100);
    assert_eq!(t.idx, None);
    assert!(t.found.is_none());
    let mut t = target(50, Some(u64::MAX));
    step(&mut t, Some(tuple_with_label(40)), RetScheme::Tree, u64::MAX);
    assert_eq!(t.idx, None);
}

#[test]
fn random_indices_lie_in_range() {
    let mut rng = ChaChaRng::new_unseeded();
    let mut seen = std::collections::HashSet::new();
    for _ in 0..200 {
        let i = random_index(&mut rng, 1000);
        assert!(i < 1000);
        seen.insert(i);
    }
    assert!(seen.len() > 100);
    assert_eq!(random_index(&mut rng, 0), 0);
    assert_eq!(random_index(&mut rng, 1), 0);
    assert_eq!(some_or_random(Some(77), &mut rng, 5), 77);
    assert!(some_or_random(None, &mut rng, 5) < 5);
    assert_eq!(index_of(1007, 10), 7);
    assert_eq!(index_of(1007, 0), 0);
}
