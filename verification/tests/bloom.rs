use bit_vec::BitVec;
use pung::db::{Collection, PungTuple, RetScheme};
use pung::util::bloomfilter::Bloom;
use pung::util::get_idx_bloom;

fn label(i: u32) -> Vec<u8> {
    let mut l = vec![0u8; 32];
    l[0..4].copy_from_slice(&i.to_be_bytes());
    l[31] = 9;
    l
}

#[test]
fn filter_finds_what_was_put_in() {
    let mut bloom = Bloom::for_items(500);
    assert_eq!(bloom.number_of_bits(), 500 * 24);
    assert_eq!(bloom.number_of_hash_functions(), 17);
    for i in 0..500u32 {
        assert!(!bloom.check(i as u64, &label(i)));
    }
    for i in 0..500u32 {
        bloom.set(i as u64, &label(i));
    }
    for i in 0..500u32 {
        assert!(bloom.check(i as u64, &label(i)));
    }
    let mut wrong = 0;
    for i in 0..500u32 {
        for j in 0..40u64 {
            if j != i as u64 && bloom.check(j, &label(i)) {
                wrong += 1;
            }
        }
        if bloom.check(i as u64, &label(i + 1000)) {
            wrong += 1;
        }
    }
    assert!(wrong <= 1, "{} false positives in 20000", wrong);
}

#[test]
fn filter_goes_over_the_wire() {
    let mut bloom = Bloom::for_items(10);
    for i in 0..10u32 {
        bloom.set(i as u64, &label(i));
    }
    let bytes = bloom.to_bytes();
    assert_eq!(bytes.len(), 30);
    assert!(bytes.iter().any(|b| *b != 0));
    let mut other = Bloom::for_items(10);
    assert!(!other.from_bytes(&bytes[..29]));
    assert!(!other.check(3, &label(3)));
    assert!(other.from_bytes(&bytes));
    assert_eq!(other.to_bytes(), bytes);
    for i in 0..10u32 {
        assert!(other.check(i as u64, &label(i)));
    }
    other.clear();
    assert_eq!(other.to_bytes(), vec![0u8; 30]);
    assert!(!other.check(3, &label(3)));
}

#[test]
fn filter_sizes() {
    assert_eq!(Bloom::for_items(0).to_bytes().len(), 3);
    assert_eq!(Bloom::for_items(1).to_bytes().len(), 3);
    assert_eq!(Bloom::for_items(7).to_bytes().len(), 21);
    let small = Bloom::new(2, 3);
    assert_eq!(small.number_of_bits(), 16);
    assert_eq!(small.number_of_hash_functions(), 3);
}

#[test]
fn first_bit_is_the_most_significant() {
    let mut bloom = Bloom::new(1, 1);
    bloom.set(0, &[]);
    let byte = bloom.to_bytes()[0];
    assert_eq!(byte.count_ones(), 1);
    let mut same = Bloom::new(1, 1);
    assert!(same.from_bytes(&[byte]));
    assert!(same.check(0, &[]));
}

#[test]
fn index_by_filter() {
    let mut collection = Collection::new(RetScheme::Bloom, 1);
    for i in 0..100u32 {
        let mut raw = [0u8; 286];
        raw[..32].copy_from_slice(&label(i));
        collection.push(PungTuple::new(&raw));
    }
    collection.set_bloom();
    let bloom = collection.get_bloom();
    for i in 0..100u32 {
        assert_eq!(get_idx_bloom(bloom, &label(i), 100), Some(i as u64));
    }
    assert_eq!(get_idx_bloom(bloom, &label(500), 100), None);
    assert_eq!(get_idx_bloom(bloom, &label(50), 50), None);
    assert_eq!(get_idx_bloom(bloom, &label(50), 0), None);
}

#[test]
fn bytes_hold_the_bits_as_a_bit_vector_does() {
    let mut bloom = Bloom::for_items(20);
    for i in 0..20u32 {
        bloom.set(i as u64, &label(i));
    }
    let bytes = bloom.to_bytes();
    let bits = BitVec::from_bytes(&bytes);
    assert_eq!(bits.len() as u128, bloom.number_of_bits());
    assert_eq!(bits.to_bytes(), bytes);
    // a filter with one position for an item has one bit set, the one that the bit vector shows
    let mut one = Bloom::new(4, 1);
    one.set(5, &label(5));
    let shown: Vec<usize> = BitVec::from_bytes(&one.to_bytes()).iter().enumerate().filter(|(_, b)| *b).map(|(i, _)| i).collect();
    assert_eq!(shown.len(), 1);
    let mut same = BitVec::from_elem(32, false);
    same.set(shown[0], true);
    assert_eq!(same.to_bytes(), one.to_bytes());
}
