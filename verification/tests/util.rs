use byteorder::{BigEndian, ByteOrder};
use pung::db::bst::{find_idx, root_idx, BSTOrder};
use pung::db::OptScheme;
use pung::util;
use std::cmp::Ordering;

#[test]
fn labels_compare_byte_by_byte() {
    let mut low = vec![0u8; 32];
    let mut high = vec![0u8; 32];
    low[31] = 255;
    high[0] = 1;
    assert_eq!(util::label_cmp(&low, &high), Ordering::Less);
    assert_eq!(util::label_cmp(&high, &low), Ordering::Greater);
    assert_eq!(util::label_cmp(&low, &low), Ordering::Equal);
    assert!(util::label_lt(&low, &high));
    assert!(!util::label_lt(&high, &low));
    assert!(!util::label_lt(&low, &low));
    // a proper prefix comes first
    assert!(util::label_lt(&low[..4], &low));
    assert!(util::label_lt(&[], &[0]));
    assert!(!util::label_lt(&[], &[]));
    assert!(util::label_eq(&low, &low.clone()));
    assert!(!util::label_eq(&low, &high));
    assert!(!util::label_eq(&low[..4], &low));
}

#[test]
fn tree_heights() {
    let expected = [(0u64, 0u32), (1, 1), (2, 2), (3, 2), (4, 3), (7, 3), (8, 4), (1000, 10), (1023, 10), (1024, 11)];
    for (n, h) in expected {
        assert_eq!(util::tree_height(n), h);
    }
    assert_eq!(util::tree_height(u64::MAX), 64);
    for n in 1..5000u64 {
        assert_eq!(util::tree_height(n), ((n + 1) as f64).log2().ceil() as u32);
    }
}

#[test]
fn collection_lengths() {
    assert_eq!(util::collection_len(7, 0, 1), 7);
    assert_eq!(util::collection_len(7, 0, 2), 4);
    assert_eq!(util::collection_len(7, 1, 2), 3);
    assert_eq!(util::collection_len(8, 0, 2), 4);
    assert_eq!(util::collection_len(8, 1, 2), 4);
    let fours: Vec<u64> = (0..4).map(|i| util::collection_len(7, i, 4)).collect();
    assert_eq!(fours, vec![2, 2, 2, 1]);
    let fours: Vec<u64> = (0..4).map(|i| util::collection_len(6, i, 4)).collect();
    assert_eq!(fours, vec![2, 1, 2, 1]);
    let fours: Vec<u64> = (0..4).map(|i| util::collection_len(1, i, 4)).collect();
    assert_eq!(fours, vec![1, 0, 0, 0]);
    for n in 0..300u64 {
        assert_eq!(util::collection_len(n, 0, 2) + util::collection_len(n, 1, 2), n);
        assert_eq!((0..4).map(|i| util::collection_len(n, i, 4)).sum::<u64>(), n);
        assert_eq!(util::collection_len(n, 0, 4), ((n as f64 / 2f64).ceil() / 2f64).ceil() as u64);
        assert_eq!(util::collection_len(n, 1, 4), ((n as f64 / 2f64).ceil() / 2f64).floor() as u64);
        assert_eq!(util::collection_len(n, 2, 4), ((n as f64 / 2f64).floor() / 2f64).ceil() as u64);
        assert_eq!(util::collection_len(n, 3, 4), n / 4);
    }
    assert_eq!(util::collection_len(u64::MAX, 0, 2), 1 << 63);
}

#[test]
fn packing_factors() {
    let expected = [(0u64, 1u64), (7, 1), (8, 8), (2047, 8), (2048, 32), (65535, 32), (65536, 64), (u64::MAX, 64)];
    for (n, alpha) in expected {
        assert_eq!(util::get_alpha(n), alpha);
    }
}

#[test]
fn systematic_collections() {
    assert_eq!(util::label_collections(OptScheme::Normal), vec![0]);
    assert_eq!(util::label_collections(OptScheme::Aliasing), vec![0]);
    assert_eq!(util::label_collections(OptScheme::Hybrid2), vec![0, 1]);
    assert_eq!(util::label_collections(OptScheme::Hybrid4), vec![0, 1, 2, 3]);
}

#[test]
fn markers_cut_the_label_space() {
    assert_eq!(util::label_marker(0, 1), vec![255, 255, 255, 255]);
    assert_eq!(util::label_marker(0, 2), vec![0x80, 0x00, 0x00, 0x00]);
    assert_eq!(util::label_marker(1, 2), vec![0xff, 0xff, 0xff, 0xff]);
    assert_eq!(util::label_marker(0, 3), vec![0x55, 0x55, 0x55, 0x55]);
    assert_eq!(util::label_marker(2, 3), vec![0xff, 0xff, 0xff, 0xff]);
    assert_eq!(util::label_marker(0, 4), vec![0x40, 0x00, 0x00, 0x00]);
    assert_eq!(util::label_marker(1, 4), vec![0x80, 0x00, 0x00, 0x00]);
    assert_eq!(util::label_marker(2, 4), vec![0xc0, 0x00, 0x00, 0x00]);
    assert_eq!(util::label_marker(3, 4), vec![0xff, 0xff, 0xff, 0xff]);
    assert_eq!(util::label_marker(0, 7), vec![0x24, 0x92, 0x49, 0x24]);
    assert_eq!(util::label_marker(6, 7), vec![0xff, 0xff, 0xff, 0xfc]);
    assert_eq!(util::label_marker(0, 256), vec![0x01, 0x00, 0x00, 0x00]);
    assert_eq!(util::label_marker(255, 256), vec![0xff, 0xff, 0xff, 0xff]);
    let most = u32::MAX as usize;
    assert_eq!(util::label_marker(0, most), vec![0, 0, 0, 1]);
    assert_eq!(util::label_marker(most - 1, most), vec![0xff, 0xff, 0xff, 0xff]);
    for k in [1usize, 2, 3, 4, 5, 7, 16, 17, 100, 256, 257, 1 << 20] {
        let markers: Vec<Vec<u8>> = (0..k).map(|i| util::label_marker(i, k)).collect();
        for i in 1..k {
            assert!(markers[i - 1] < markers[i]);
        }
        if (1u64 << 32) % (k as u64) == 0 || (u32::MAX as usize) % k == 0 {
            assert_eq!(markers[k - 1], vec![255u8; 4]);
        }
    }
}

#[test]
fn labels_fall_into_buckets() {
    let parts: Vec<Vec<u8>> = (0..4).map(|i| util::label_marker(i, 4)).collect();
    let mut label = vec![0u8; 32];
    assert_eq!(util::bucket_idx(&label, &parts), 0);
    label[0] = 0x3f;
    label[1] = 0xff;
    label[2] = 0xff;
    label[3] = 0xff;
    label[4] = 0xff;
    assert_eq!(util::bucket_idx(&label, &parts), 0);
    // the first four bytes are the marker of bucket 0
    label[0] = 0x40;
    label[1] = 0;
    label[2] = 0;
    label[3] = 0;
    assert_eq!(util::bucket_idx(&label, &parts), 0);
    label[3] = 1;
    assert_eq!(util::bucket_idx(&label, &parts), 1);
    label[0] = 0x80;
    label[3] = 0;
    assert_eq!(util::bucket_idx(&label, &parts), 1);
    label[0] = 0x80;
    label[3] = 1;
    assert_eq!(util::bucket_idx(&label, &parts), 2);
    label[0] = 0xc0;
    assert_eq!(util::bucket_idx(&label, &parts), 3);
    // the end of the label space lies in the last bucket
    label[0] = 0xff;
    label[1] = 0xff;
    label[2] = 0xff;
    label[3] = 0xff;
    assert_eq!(util::bucket_idx(&label, &parts), 3);
    let two: Vec<Vec<u8>> = (0..2).map(|i| util::label_marker(i, 2)).collect();
    assert_eq!(util::bucket_idx(&label, &two), 1);
    // seven equal parts end at 0xfffffffc: what lies beyond goes to bucket 0
    let seven: Vec<Vec<u8>> = (0..7).map(|i| util::label_marker(i, 7)).collect();
    label[3] = 0xfc;
    assert_eq!(util::bucket_idx(&label, &seven), 6);
    label[3] = 0xfd;
    assert_eq!(util::bucket_idx(&label, &seven), 0);
    assert_eq!(util::bucket_idx(&label, &[]), 0);
}

#[test]
fn binary_search_finds_labels() {
    let labels: Vec<Vec<u8>> = (0..50u8).map(|i| vec![2 * i, 7]).collect();
    for i in 0..50u8 {
        assert_eq!(util::get_index(&labels, &[2 * i, 7]), Some(i as u64));
        assert_eq!(util::get_index(&labels, &[2 * i + 1, 7]), None);
        assert_eq!(util::get_index(&labels, &[2 * i, 6]), None);
    }
    assert_eq!(util::get_index(&[], &[1]), None);
}

#[test]
fn retry_bounds_follow_the_formulas() {
    let normal = |k: u64| -> u32 {
        if k < 9 {
            k as u32
        } else {
            3 * ((k as f64).ln() / (k as f64).ln().ln()).ceil() as u32
        }
    };
    let aliasing = |k: u64| -> u32 {
        if k < 3 {
            k as u32
        } else {
            (((k as f64).ln().ln() / 2f64.ln()) + 1.0).ceil() as u32
        }
    };
    for k in 0..20000u64 {
        assert_eq!(util::retry_bound(k), normal(k), "k = {}", k);
        assert_eq!(util::retry_bound_aliasing(k), aliasing(k), "k = {}", k);
    }
    for edge in [93u64, 5503, 332105, 24128091, 2099467158, 214910065295, 25438034785804] {
        for k in [edge - 1, edge, edge + 1, edge + 2] {
            assert_eq!(util::retry_bound(k), normal(k), "k = {}", k);
        }
    }
    for edge in [7u64, 54, 2980, 8886110, 78962960182680] {
        for k in [edge - 1, edge, edge + 1, edge + 2] {
            assert_eq!(util::retry_bound_aliasing(k), aliasing(k), "k = {}", k);
        }
    }
    assert_eq!(util::retry_bound(8), 8);
    assert_eq!(util::retry_bound(9), 9);
    assert_eq!(util::retry_bound(94), 12);
    assert_eq!(util::retry_bound(u64::MAX), 36);
    assert_eq!(util::retry_bound_aliasing(2), 2);
    assert_eq!(util::retry_bound_aliasing(3), 2);
    assert_eq!(util::retry_bound_aliasing(8), 3);
    assert_eq!(util::retry_bound_aliasing(u64::MAX), 7);
    assert_eq!(util::max_retries(OptScheme::Normal, 100), 12);
    assert_eq!(util::max_retries(OptScheme::Aliasing, 100), 4);
    assert_eq!(util::max_retries(OptScheme::Hybrid2, 100), 2);
    assert_eq!(util::max_retries(OptScheme::Hybrid4, 100), 1);
}

#[test]
fn big_endian_bytes() {
    assert_eq!(util::be_encode(0x0102030405060708, 8), vec![1, 2, 3, 4, 5, 6, 7, 8]);
    assert_eq!(util::be_encode(0x0102030405060708, 4), vec![5, 6, 7, 8]);
    assert_eq!(util::be_encode(258, 2), vec![1, 2]);
    assert_eq!(util::be_encode(7, 0), Vec::<u8>::new());
    assert_eq!(util::be_encode(u64::MAX, 8), vec![255u8; 8]);
    assert_eq!(util::pow2_u64(0), 1);
    assert_eq!(util::pow2_u64(63), 1 << 63);
}

fn in_order(a: &[u32], k: usize, out: &mut Vec<u32>) {
    if k < a.len() {
        in_order(a, 2 * k + 1, out);
        out.push(a[k]);
        in_order(a, 2 * k + 2, out);
    }
}

#[test]
fn bst_layout_reads_back_in_order() {
    for n in 0..200u32 {
        let sorted: Vec<u32> = (0..n).map(|i| 3 * i + 1).collect();
        let mut tree = sorted.clone();
        tree.as_bst_order();
        let mut read = Vec::new();
        in_order(&tree, 0, &mut read);
        assert_eq!(read, sorted);
    }
    let mut empty: Vec<u32> = Vec::new();
    empty.as_bst_order();
    assert!(empty.is_empty());
}

#[test]
fn roots_of_complete_trees() {
    let expected = [(1u32, 0u32), (2, 1), (3, 1), (4, 2), (5, 3), (6, 3), (7, 3), (8, 4), (14, 7), (15, 7), (16, 8)];
    for (n, root) in expected {
        assert_eq!(find_idx(n), root);
        assert_eq!(root_idx(n as u64), root as u64);
    }
    assert_eq!(find_idx(0), 0);
    assert_eq!(find_idx(u32::MAX), (u32::MAX - 1) / 2);
    assert_eq!(root_idx(u64::MAX), (u64::MAX - 1) / 2);
}

#[test]
fn big_endian_bytes_as_byteorder_writes_them() {
    for x in [0u64, 1, 255, 256, 0x0102030405060708, u64::MAX, 1 << 63, 0xdeadbeef] {
        let mut eight = [0u8; 8];
        BigEndian::write_u64(&mut eight, x);
        assert_eq!(util::be_encode(x, 8), eight.to_vec());
        let mut four = [0u8; 4];
        BigEndian::write_u32(&mut four, x as u32);
        assert_eq!(util::be_encode(x, 4), four.to_vec());
    }
}

#[test]
fn bst_layout_of_values_that_are_cloned() {
    let sorted: Vec<String> = (0..10u32).map(|i| format!("label {}", i)).collect();
    let mut tree = sorted.clone();
    tree.as_bst_order();
    let ranks = [6usize, 3, 8, 1, 5, 7, 9, 0, 2, 4];
    for (k, r) in ranks.iter().enumerate() {
        assert_eq!(tree[k], sorted[*r]);
    }
    let mut lists: Vec<Vec<u8>> = vec![vec![1], vec![2, 2], vec![3, 3, 3]];
    lists.as_bst_order();
    assert_eq!(lists, vec![vec![2, 2], vec![1], vec![3, 3, 3]]);
}
