use pung::db;
use pung::db::bst::BSTOrder;
use pung::util;
use rand::ChaChaRng;
use rand::Rng;

#[test]
fn bst_to_arr() {
    let mut input = vec![1, 2, 3, 4, 5];
    let correct = vec![4, 2, 5, 1, 3];
    input.as_bst_order();
    assert_eq!(correct, input);

    let mut input = vec![1];
    let correct = vec![1];
    input.as_bst_order();
    assert_eq!(correct, input);

    let mut input = vec![1, 2, 3, 4, 5, 6, 7, 8, 9, 10, 11, 12, 13, 14];
    let correct = vec![8, 4, 12, 2, 6, 10, 14, 1, 3, 5, 7, 9, 11, 13];
    input.as_bst_order();
    assert_eq!(correct, input);
}

fn create_tuples(num: usize, set: &mut Vec<db::PungTuple>, first_byte: Option<u8>) {
    let mut rng = ChaChaRng::new_unseeded();

    for _ in 0..num {
        let mut raw_tuple = [0u8; db::TUPLE_SIZE];
        rng.fill_bytes(&mut raw_tuple);

        if first_byte.is_some() {
            raw_tuple[0] = first_byte.unwrap();
            raw_tuple[7] = first_byte.unwrap();
        }

        set.push(db::PungTuple::new(&raw_tuple[..]));
    }
}

fn sort_by_label(tuples: &mut Vec<db::PungTuple>) {
    tuples.sort_by(|a, b| util::label_cmp(a.label(), b.label()));
}

#[test]
fn batch_code_2_explicit() {
    let num = 1000;

    let mut tuples_1 = Vec::with_capacity(num);
    let mut tuples_2 = Vec::with_capacity(num);
    create_tuples(num, &mut tuples_1, Some(0));
    create_tuples(num, &mut tuples_2, Some(255));

    let mut bucket = db::Bucket::new(db::RetScheme::Explicit, db::OptScheme::Hybrid2, 1);

    for tuple in &tuples_1 {
        bucket.push(tuple.clone());
    }

    for tuple in &tuples_2 {
        bucket.push(tuple.clone());
    }

    bucket.encode();

    sort_by_label(&mut tuples_1);
    sort_by_label(&mut tuples_2);

    assert!(bucket.len() == 3000);
    assert!(bucket.get_collection(0).len() == 1000);
    assert!(bucket.get_collection(1).len() == 1000);
    assert!(bucket.get_collection(2).len() == 1000);
    assert!(tuples_1[0] == *bucket.get_collection(0).get_tuple(0));
    assert!(tuples_2[0] == *bucket.get_collection(1).get_tuple(0));
    assert!((&tuples_1[0] ^ &tuples_2[0]) == *bucket.get_collection(2).get_tuple(0));

    assert!(tuples_1[50] == *bucket.get_collection(0).get_tuple(50));
    assert!(tuples_2[50] == *bucket.get_collection(1).get_tuple(50));
    assert!((&tuples_1[50] ^ &tuples_2[50]) == *bucket.get_collection(2).get_tuple(50));

    assert!(tuples_1[120] == *bucket.get_collection(0).get_tuple(120));
    assert!(tuples_2[120] == *bucket.get_collection(1).get_tuple(120));
    assert!((&tuples_1[120] ^ &tuples_2[120]) == *bucket.get_collection(2).get_tuple(120));
}

#[test]
fn batch_code_2_bst() {
    let num = 1000;

    let mut tuples_1 = Vec::with_capacity(num);
    let mut tuples_2 = Vec::with_capacity(num);
    create_tuples(num, &mut tuples_1, Some(0));
    create_tuples(num, &mut tuples_2, Some(255));

    let mut bucket = db::Bucket::new(db::RetScheme::Tree, db::OptScheme::Hybrid2, 1);

    for tuple in &tuples_1 {
        bucket.push(tuple.clone());
    }

    for tuple in &tuples_2 {
        bucket.push(tuple.clone());
    }

    bucket.encode();

    sort_by_label(&mut tuples_1);
    tuples_1.as_bst_order();
    sort_by_label(&mut tuples_2);
    tuples_2.as_bst_order();

    assert!(bucket.len() == 3000);
    assert!(bucket.get_collection(0).len() == 1000);
    assert!(bucket.get_collection(1).len() == 1000);
    assert!(bucket.get_collection(2).len() == 1000);
    assert!(tuples_1[0] == *bucket.get_collection(0).get_tuple(0));
    assert!(tuples_2[0] == *bucket.get_collection(1).get_tuple(0));
    assert!((&tuples_1[0] ^ &tuples_2[0]) == *bucket.get_collection(2).get_tuple(0));

    assert!(tuples_1[50] == *bucket.get_collection(0).get_tuple(50));
    assert!(tuples_2[50] == *bucket.get_collection(1).get_tuple(50));
    assert!((&tuples_1[50] ^ &tuples_2[50]) == *bucket.get_collection(2).get_tuple(50));

    assert!(tuples_1[120] == *bucket.get_collection(0).get_tuple(120));
    assert!(tuples_2[120] == *bucket.get_collection(1).get_tuple(120));
    assert!((&tuples_1[120] ^ &tuples_2[120]) == *bucket.get_collection(2).get_tuple(120));
}

fn tuple(label: u32, body: u8) -> db::PungTuple {
    let mut raw = [body; db::TUPLE_SIZE];
    for i in 0..db::LABEL_SIZE {
        raw[i] = 0;
    }
    raw[0..4].copy_from_slice(&label.to_be_bytes());
    db::PungTuple::new(&raw)
}

#[test]
fn tuples_have_three_parts() {
    let mut raw = [0u8; db::TUPLE_SIZE];
    for i in 0..db::TUPLE_SIZE {
        raw[i] = (i % 256) as u8;
    }
    let t = db::PungTuple::new(&raw);
    assert_eq!(t.to_binary(), raw.to_vec());
    assert_eq!(t.label(), &raw[..32]);
    assert_eq!(t.cipher(), &raw[32..270]);
    assert_eq!(t.mac(), &raw[270..]);
    assert_eq!(db::LABEL_SIZE + db::CIPHER_SIZE + db::MAC_SIZE, db::TUPLE_SIZE);
    assert_eq!(db::PungTuple::default().to_binary(), vec![0u8; 286]);
    let other = tuple(7, 0xf0);
    let x = &t ^ &other;
    assert_eq!(x.to_binary(), t.xor(&other).to_binary());
    for i in 0..db::TUPLE_SIZE {
        assert_eq!(x.data[i], t.data[i] ^ other.data[i]);
    }
    assert_eq!((&x ^ &other).to_binary(), raw.to_vec());
    let mut in_place = t;
    in_place ^= other;
    assert_eq!(in_place.to_binary(), x.to_binary());
    in_place.xor_with(&other);
    assert_eq!(in_place.to_binary(), raw.to_vec());
    // tuples with one label are equal, whatever they hold
    assert!(tuple(7, 1) == tuple(7, 2));
    assert!(tuple(7, 9) < tuple(8, 1));
    assert!(tuple(256, 1) > tuple(255, 9));
    assert!(!(tuple(7, 1) < tuple(7, 2)));
    assert!(tuple(7, 1) <= tuple(7, 2));
    assert_eq!(tuple(7, 1).partial_cmp(&tuple(7, 2)), Some(std::cmp::Ordering::Equal));
    assert!(db::OptScheme::Hybrid2 >= db::OptScheme::Aliasing);
    assert!(db::OptScheme::Normal < db::OptScheme::Aliasing);
    assert!(tuple(7, 1) != tuple(8, 1));
    let mut hundred = vec![0u8; 32];
    hundred[3] = 100;
    assert!(tuple(7, 1).lt(&hundred));
    assert!(!tuple(7, 1).gt(&hundred));
    assert!(tuple(300, 1).gt(&hundred));
    assert!(!tuple(100, 0).lt(&hundred));
    assert!(!tuple(100, 1).gt(&hundred));
}

#[test]
fn sorting_is_stable() {
    let mut c = db::Collection::new(db::RetScheme::Explicit, 1);
    for (label, body) in [(5u32, 1u8), (3, 2), (5, 3), (1, 4), (3, 5), (5, 6)] {
        c.push(tuple(label, body));
    }
    c.sort();
    let got: Vec<(u8, u8)> = (0..6).map(|i| (c.get_tuple(i).data[3], c.get_tuple(i).data[40])).collect();
    assert_eq!(got, vec![(1, 4), (3, 2), (3, 5), (5, 1), (5, 3), (5, 6)]);
    assert_eq!(c.get_first().unwrap().data[40], 4);
    assert_eq!(c.get_label(1)[3], 3);
    assert_eq!(c.get_tuples().len(), 6);
    let rest = c.split_off(4);
    assert_eq!(rest.len(), 2);
    assert_eq!(c.len(), 4);
    c.set_contents(rest);
    assert_eq!(c.len(), 2);
    c.clear();
    assert!(c.is_empty());
    assert!(c.get_first().is_none());
}

#[test]
fn levels_of_a_tree() {
    let mut c = db::Collection::new(db::RetScheme::Tree, 3);
    assert_eq!(c.num_levels(), 0);
    for i in 0..9u32 {
        c.push(tuple(i, 0));
    }
    c.sort();
    c.as_bst_array();
    let labels: Vec<u8> = (0..9).map(|i| c.get_tuple(i).data[3]).collect();
    assert_eq!(labels, vec![5, 3, 7, 1, 4, 6, 8, 0, 2]);
    assert_eq!(c.num_levels(), 4);
    let sizes: Vec<usize> = (0..4).map(|l| c.get_level(l).len()).collect();
    assert_eq!(sizes, vec![1, 2, 4, 2]);
    assert_eq!(c.get_level(3)[0].data[3], 0);
    let params = c.pir_setup();
    assert_eq!(params.len(), 4);
    assert_eq!(params[2].num, 4);
    assert_eq!(params[2].depth, 3);
    assert_eq!(params[2].size, 286);
    c.set_scheme(db::RetScheme::Explicit);
    assert_eq!(c.num_levels(), 1);
    assert_eq!(c.get_level(0).len(), 9);
    assert_eq!(c.get_level(5).len(), 9);
}

#[test]
fn batch_code_4() {
    for ret in [db::RetScheme::Explicit, db::RetScheme::Tree, db::RetScheme::Bloom] {
        for n in 0..40u32 {
            let mut bucket = db::Bucket::new(ret, db::OptScheme::Hybrid4, 1);
            assert_eq!(bucket.num_collections(), 9);
            for i in 0..n {
                bucket.push(tuple((i * 7919) % 1000, i as u8));
            }
            assert_eq!(bucket.len(), n as usize);
            bucket.encode();
            let lens: Vec<usize> = (0..9).map(|c| bucket.get_collection(c).len()).collect();
            for c in 0..4 {
                assert_eq!(lens[c] as u64, util::collection_len(n as u64, c as u32, 4));
            }
            assert_eq!(bucket.unencoded_len(), n as usize);
            assert_eq!(bucket.is_empty(), n == 0);
            assert_eq!(&lens[4..], &[lens[0], lens[2], lens[0], lens[1], lens[0]]);
            let part = |c: usize, i: usize| -> db::PungTuple {
                if i < lens[c] {
                    bucket.get_collection(c).get_tuple(i).clone()
                } else {
                    db::PungTuple::default()
                }
            };
            let table: [[&[usize]; 4]; 4] = [
                [&[0], &[1, 4], &[2, 6], &[3, 5, 7, 8]],
                [&[1], &[0, 4], &[3, 7], &[2, 5, 6, 8]],
                [&[2], &[3, 5], &[0, 6], &[1, 4, 7, 8]],
                [&[3], &[2, 5], &[1, 7], &[0, 4, 6, 8]],
            ];
            for home in 0..4 {
                for i in 0..lens[home] {
                    for alt in 0..4 {
                        let mut acc = db::PungTuple::default();
                        for c in table[home][alt] {
                            acc = &acc ^ &part(*c, i);
                        }
                        assert_eq!(acc.to_binary(), part(home, i).to_binary());
                    }
                }
            }
            let lmids = bucket.mid_labels();
            assert_eq!(lmids.len(), 3);
            for c in 1..4 {
                let least = (0..lens[c]).map(|i| bucket.get_collection(c).get_label(i).to_vec()).min();
                assert_eq!(lmids[c - 1], least.unwrap_or_default());
            }
            bucket.clear();
            assert!(bucket.is_empty());
        }
    }
}

#[test]
fn databases() {
    let mut database = db::Database::new(db::RetScheme::Tree, db::OptScheme::Hybrid2, 3, 1);
    assert_eq!(database.num_buckets(), 3);
    assert!(database.is_empty());
    assert_eq!(database.opt_scheme(), db::OptScheme::Hybrid2);
    assert_eq!(database.total_dbs(), 0);
    for i in 0..5u32 {
        database.push(1, tuple(i, 0));
    }
    database.push(2, tuple(9, 0));
    assert_eq!(database.len(), 6);
    assert_eq!(database.get_bucket(1).len(), 5);
    database.encode();
    assert_eq!(database.len(), 3 + 2 + 3 + 1 + 0 + 1);
    // trees of 3, 2 and 3 tuples, and of 1, 0 and 1
    assert_eq!(database.get_bucket(1).total_dbs(), 6);
    assert_eq!(database.total_dbs(), 8);
    assert_eq!(database.get_buckets().len(), 3);
    assert_eq!(database.get_bucket(1).mid_labels(), vec![database.get_bucket(1).get_collection(1).get_label(1).to_vec()]);
    assert_eq!(database.get_bucket(0).mid_labels(), vec![Vec::<u8>::new()]);
    assert_eq!(database.get_bucket(1).opt_scheme(), db::OptScheme::Hybrid2);
    let params = database.pir_setup();
    assert_eq!(params.len(), 3);
    assert_eq!(params[1].len(), 3);
    assert_eq!(params[1][0].len(), 2);
    assert_eq!(params[0][0].len(), 0);
    database.clear();
    assert!(database.is_empty());
    let plain = db::Bucket::new(db::RetScheme::Explicit, db::OptScheme::Normal, 1);
    assert!(plain.mid_labels().is_empty());
    assert_eq!(plain.get_collections().len(), 1);
    assert_eq!(plain.total_dbs(), 1);
}

#[test]
fn buckets_and_collections_can_be_changed() {
    let mut database = db::Database::new(db::RetScheme::Explicit, db::OptScheme::Hybrid2, 2, 1);
    database.get_bucket_mut(1).push(tuple(3, 1));
    database.get_bucket_mut(1).get_collection_mut(2).push(tuple(4, 1));
    assert_eq!(database.get_bucket(1).get_collection(0).len(), 1);
    assert_eq!(database.get_bucket(1).get_collection(2).get_label(0)[3], 4);
    assert_eq!(database.len(), 2);
    assert_eq!(database.get_bucket(1).unencoded_len(), 1);
    assert!(database.get_bucket(0).is_empty());
}

#[test]
fn published_labels_are_the_least_of_their_collections() {
    for ret in [db::RetScheme::Explicit, db::RetScheme::Bloom, db::RetScheme::Tree] {
        for opt in [db::OptScheme::Hybrid2, db::OptScheme::Hybrid4] {
            for num in [1usize, 2, 3, 4, 5, 7, 8, 9, 16, 21, 100] {
                let mut tuples = Vec::with_capacity(num);
                create_tuples(num, &mut tuples, None);
                let mut bucket = db::Bucket::new(ret, opt, 1);
                for t in &tuples {
                    bucket.push(t.clone());
                }
                bucket.encode();
                let published = bucket.mid_labels();
                let systematic = util::label_collections(opt);
                assert_eq!(published.len(), systematic.len() - 1);
                for (at, c) in systematic.iter().skip(1).enumerate() {
                    let collection = bucket.get_collection(*c);
                    let least = collection.get_tuples().iter().map(|t| t.label().to_vec()).min();
                    match least {
                        Some(l) => assert_eq!(published[at], l),
                        None => assert!(published[at].is_empty()),
                    }
                }
            }
        }
    }
}
