use crypto::hkdf::{hkdf_expand, hkdf_extract};
use crypto::sha2::Sha256;
use pung::client::pcrypto::{decrypt, derive_keys, encrypt, gen_label};
use pung::error::Error;

fn secret() -> Vec<u8> {
    let mut s = vec![0u8; 32];
    s[31] = 1;
    s
}

#[test]
fn keys_are_symmetric() {
    let a = derive_keys(&secret());
    let b = derive_keys(&secret());
    assert_eq!(a.k_e, b.k_e);
    assert_eq!(a.k_l, b.k_l);
    assert_eq!(a.k_l2, b.k_l2);
    assert_eq!(a.k_e.len(), 32);
    assert_eq!(a.k_l.len(), 32);
    assert_eq!(a.k_l2.len(), 32);
    assert_ne!(a.k_e, a.k_l);
    assert_ne!(a.k_l, a.k_l2);
    let other = derive_keys(&[9u8; 32]);
    assert_ne!(a.k_e, other.k_e);
}

#[test]
fn keys_follow_hkdf() {
    // the vector of RFC 5869 for SHA-256 with empty salt and info
    let ikm = vec![0x0bu8; 22];
    let keys = derive_keys(&ikm);
    let okm_start: Vec<u8> = vec![
        0x8d, 0xa4, 0xe7, 0x75, 0xa5, 0x63, 0xc1, 0x8f, 0x71, 0x5f, 0x80, 0x2a, 0x06, 0x3c, 0x5a, 0x31, 0xb8, 0xa1,
        0x1f, 0x5c, 0x5e, 0xe1, 0x87, 0x9e, 0xc3, 0x45, 0x4e, 0x5f, 0x3c, 0x73, 0x8d, 0x2d,
    ];
    assert_eq!(keys.k_e, okm_start);
    assert_eq!(&keys.k_l[..10], &[0x9d, 0x20, 0x13, 0x95, 0xfa, 0xa4, 0xb6, 0x1a, 0x96, 0xc8]);
}

#[test]
fn labels_are_determined_by_their_inputs() {
    let key = derive_keys(&secret()).k_l;
    let one = gen_label(&key, 3, 1, 4, 0);
    let two = gen_label(&key, 3, 1, 4, 0);
    assert_eq!(one, two);
    assert_eq!(one.len(), 32);
    assert_ne!(one, gen_label(&key, 4, 1, 4, 0));
    assert_ne!(one, gen_label(&key, 3, 0, 4, 0));
    assert_ne!(one, gen_label(&key, 3, 1, 5, 0));
    assert_ne!(one, gen_label(&key, 3, 1, 4, 1));
    assert_ne!(one, gen_label(&derive_keys(&secret()).k_l2, 3, 1, 4, 0));
}

fn hex(s: &str) -> Vec<u8> {
    (0..s.len() / 2).map(|i| u8::from_str_radix(&s[2 * i..2 * i + 2], 16).unwrap()).collect()
}

#[test]
fn labels_follow_hmac() {
    // HMAC-SHA256 of the four numbers, eight bytes each with the most significant first
    let label = gen_label(b"Jefe", 1, 2, 3, 4);
    assert_eq!(label, hex("264f1bc56cdc5ff93e3d00af7b2c91472eb4c3da73b0d9d2bd505dcab7386682"));
    let label = gen_label(&[0x0bu8; 20], 0, 0, 0, 0);
    assert_eq!(label, hex("3b7a4aac943c9eb441d5ff7531e332c3e4f7fb32f2028fe5b69aac529d68ee15"));
}

#[test]
fn encryption_round_trip() {
    let key = derive_keys(&secret()).k_e;
    for len in [0usize, 1, 5, 100, 237, 238] {
        let message: Vec<u8> = (0..len).map(|i| (i % 251) as u8 + 1).collect();
        let (c, mac) = encrypt(&key, 12, &message);
        assert_eq!(c.len(), 238);
        assert_eq!(mac.len(), 16);
        let mut padded = message.clone();
        padded.resize(238, 0);
        assert_ne!(c, padded);
        assert_eq!(decrypt(&key, 12, &c, &mac), Ok(padded));
    }
}

#[test]
fn encryption_depends_on_key_and_round() {
    let key = derive_keys(&secret()).k_e;
    let other = derive_keys(&[5u8; 32]).k_e;
    let (c, mac) = encrypt(&key, 12, b"hello");
    assert_eq!((c.clone(), mac.clone()), encrypt(&key, 12, b"hello"));
    assert_ne!(c, encrypt(&key, 13, b"hello").0);
    assert_ne!(c, encrypt(&other, 12, b"hello").0);
    assert_ne!(mac, encrypt(&key, 12, b"hellp").1);
}

#[test]
fn decryption_refuses_what_was_not_encrypted() {
    let key = derive_keys(&secret()).k_e;
    let other = derive_keys(&[5u8; 32]).k_e;
    let (c, mac) = encrypt(&key, 12, b"hello");
    assert_eq!(decrypt(&key, 13, &c, &mac), Err(Error::DecryptFailed));
    assert_eq!(decrypt(&other, 12, &c, &mac), Err(Error::DecryptFailed));
    let mut bent = c.clone();
    bent[0] ^= 1;
    assert_eq!(decrypt(&key, 12, &bent, &mac), Err(Error::DecryptFailed));
    let mut tag = mac.clone();
    tag[15] ^= 0x80;
    assert_eq!(decrypt(&key, 12, &c, &tag), Err(Error::DecryptFailed));
    assert_eq!(decrypt(&key, 12, &c, &mac[..15]), Err(Error::DecryptFailed));
    assert_eq!(decrypt(&key, 12, &c, &[]), Err(Error::DecryptFailed));
    assert_eq!(Error::DecryptFailed.message(), "Unable to decrypt ciphertext or verify mac");
}

#[test]
fn keys_are_the_thirds_of_the_keying_material() {
    for secret in [vec![], vec![7u8], secret(), vec![0xabu8; 64], vec![3u8; 1000]] {
        let mut prk = [0u8; 32];
        hkdf_extract(Sha256::new(), &[], &secret, &mut prk);
        let mut material = [0u8; 96];
        hkdf_expand(Sha256::new(), &prk, &[], &mut material);
        let keys = derive_keys(&secret);
        let mut joined = keys.k_e.clone();
        joined.extend_from_slice(&keys.k_l);
        joined.extend_from_slice(&keys.k_l2);
        assert_eq!(joined.len(), 96);
        assert_eq!(joined, material.to_vec());
    }
}
