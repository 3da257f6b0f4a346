//! The cryptographic operations of a client: keys from a shared secret,
//! labels, and the encryption of messages.
//!
//! The primitives are those of the `crypto` crate. This module calls them
//! through functions whose contracts are not proved here; each names the
//! function that it calls and what it takes for granted.

use vstd::prelude::*;
use crypto::aead::{AeadDecryptor, AeadEncryptor};
use crypto::chacha20poly1305::ChaCha20Poly1305;
use crypto::hkdf;
use crypto::hmac::Hmac;
use crypto::mac::Mac;
use crypto::sha2::Sha256;
use crate::db::{CIPHER_SIZE, LABEL_SIZE, MAC_SIZE};
use crate::error::Error;
use crate::util::{be_bytes, be_encode};

verus! {

/// The size of a padded message: that of a ciphertext.
pub const MESSAGE_SIZE: usize = 238;

/// The size of a key.
pub const KEY_SIZE: usize = 32;

/// The longest output that the key derivation gives.
pub const MAX_OKM_SIZE: usize = 8160;

/// The number of bytes from which on SHA-256 digests no text: the length
/// of a text in bits has to fit 64 bits.
pub const HASH_LIMIT: u64 = 0x2000_0000_0000_0000;

/// The bytes that a tag digests before its data: the key, as one block.
pub const HASH_BLOCK: u64 = 64;

/// The most bytes that ChaCha20-Poly1305 seals under one nonce: the blocks
/// of 64 bytes that a counter of 32 bits numbers, but for the first one,
/// which keys the tag, and the last one, with which the counter runs out.
pub const SEAL_LIMIT: u64 = 0x3f_ffff_ff80;

/// The pseudorandom key that `crypto::hkdf::hkdf_extract` with SHA-256
/// gives for a salt and input keying material.
pub uninterp spec fn hkdf_extract_sha256(salt: Seq<u8>, ikm: Seq<u8>) -> Seq<u8>;

/// The first `len` bytes of keying material that
/// `crypto::hkdf::hkdf_expand` with SHA-256 gives for a pseudorandom key
/// and context information.
pub uninterp spec fn hkdf_expand_sha256(prk: Seq<u8>, info: Seq<u8>, len: nat) -> Seq<u8>;

/// The tag that `crypto::hmac::Hmac` with SHA-256 gives for a key and
/// data.
pub uninterp spec fn hmac_sha256(key: Seq<u8>, data: Seq<u8>) -> Seq<u8>;

/// The ciphertext and the tag that `crypto::chacha20poly1305` gives for a
/// key, a nonce, associated data and a message.
pub uninterp spec fn chacha20poly1305_seal(key: Seq<u8>, nonce: Seq<u8>, aad: Seq<u8>, msg: Seq<u8>) -> (
    Seq<u8>,
    Seq<u8>,
);

/// Whether `crypto::chacha20poly1305` accepts a ciphertext with its tag
/// under a key, a nonce and associated data, and the message that it
/// gives then.
pub uninterp spec fn chacha20poly1305_open(
    key: Seq<u8>,
    nonce: Seq<u8>,
    aad: Seq<u8>,
    cipher: Seq<u8>,
    tag: Seq<u8>,
) -> (bool, Seq<u8>);

/// Calls `crypto::hkdf::hkdf_extract` with SHA-256 and a buffer of `len`
/// bytes. Taken for granted: the result depends on the salt and the
/// keying material alone, and fills the buffer. The function fails for a
/// buffer that does not have the 32 bytes of the digest, and where the
/// digest counts more bits than it can, which the precondition leaves
/// out.
#[verifier::external_body]
fn hkdf_extract(salt: &[u8], ikm: &[u8], len: usize) -> (prk: Vec<u8>)
    requires
        salt@.len() < HASH_LIMIT,
        ikm@.len() + HASH_BLOCK < HASH_LIMIT,
        len == 32,
    ensures
        prk@ == hkdf_extract_sha256(salt@, ikm@),
        prk@.len() == len,
{
    let mut prk: Vec<u8> = vec![0u8; len];
    hkdf::hkdf_extract(Sha256::new(), salt, ikm, &mut prk[..]);
    prk
}

/// Calls `crypto::hkdf::hkdf_expand` with SHA-256. Taken for granted: the
/// result depends on the key, the information and the length alone, and
/// fills the buffer that it is given. The function fails for more than
/// 255 blocks of 32 bytes, and where the digest counts more bits than it
/// can: each block digests the key, the block before it, the information
/// and one byte. The precondition leaves both out.
#[verifier::external_body]
fn hkdf_expand(prk: &[u8], info: &[u8], len: usize) -> (okm: Vec<u8>)
    requires
        prk@.len() < HASH_LIMIT,
        info@.len() + HASH_BLOCK + 33 < HASH_LIMIT,
        len <= MAX_OKM_SIZE,
    ensures
        okm@ == hkdf_expand_sha256(prk@, info@, len as nat),
        okm@.len() == len,
{
    let mut okm: Vec<u8> = vec![0u8; len];
    hkdf::hkdf_expand(Sha256::new(), prk, info, &mut okm[..]);
    okm
}

/// Calls `crypto::hmac::Hmac` with SHA-256 on one piece of data. Taken
/// for granted: the tag depends on the key and the data alone, and has
/// the 32 bytes of the digest. The function fails where the digest counts
/// more bits than it can, which the precondition leaves out.
#[verifier::external_body]
fn hmac_tag(key: &[u8], data: &[u8]) -> (tag: Vec<u8>)
    requires
        key@.len() < HASH_LIMIT,
        data@.len() + HASH_BLOCK < HASH_LIMIT,
    ensures
        tag@ == hmac_sha256(key@, data@),
        tag@.len() == 32,
{
    let mut prf = Hmac::new(Sha256::new(), key);
    let mut tag: Vec<u8> = vec![0u8; prf.output_bytes()];
    prf.input(data);
    prf.raw_result(&mut tag);
    tag
}

/// Calls `ChaCha20Poly1305::new` and `encrypt` of the `crypto` crate,
/// with a buffer of `tag_len` bytes for the tag. Taken for granted:
/// ciphertext and tag depend on the arguments alone; the ciphertext is as
/// long as the message, and the tag fills its buffer of 16 bytes. The
/// constructor fails for other key and nonce sizes, and the cipher where
/// its block counter runs out, which the precondition leaves out.
#[verifier::external_body]
fn aead_seal(key: &[u8], nonce: &[u8], aad: &[u8], msg: &[u8], tag_len: usize) -> (sealed: (Vec<u8>, Vec<u8>))
    requires
        key@.len() == 16 || key@.len() == 32,
        nonce@.len() == 8,
        msg@.len() <= SEAL_LIMIT,
        tag_len == 16,
    ensures
        (sealed.0@, sealed.1@) == chacha20poly1305_seal(key@, nonce@, aad@, msg@),
        sealed.0@.len() == msg@.len(),
        sealed.1@.len() == tag_len,
{
    let mut cipher: Vec<u8> = vec![0u8; msg.len()];
    let mut tag: Vec<u8> = vec![0u8; tag_len];
    ChaCha20Poly1305::new(key, nonce, aad).encrypt(msg, &mut cipher[..], &mut tag[..]);
    (cipher, tag)
}

/// Calls `ChaCha20Poly1305::new` and `decrypt` of the `crypto` crate.
/// Taken for granted: whether the tag is accepted and the message depend
/// on the arguments alone; the message is as long as the ciphertext; and
/// a ciphertext with the tag that `encrypt` gave for a message under the
/// same key, nonce and associated data is accepted and gives that
/// message: `decrypt` computes the tag as `encrypt` does and undoes the
/// same key stream.
#[verifier::external_body]
fn aead_open(key: &[u8], nonce: &[u8], aad: &[u8], cipher: &[u8], tag: &[u8]) -> (opened: (bool, Vec<u8>))
    requires
        key@.len() == 16 || key@.len() == 32,
        nonce@.len() == 8,
        cipher@.len() <= SEAL_LIMIT,
    ensures
        (opened.0, opened.1@) == chacha20poly1305_open(key@, nonce@, aad@, cipher@, tag@),
        opened.1@.len() == cipher@.len(),
        forall|msg: Seq<u8>| #[trigger]
            chacha20poly1305_seal(key@, nonce@, aad@, msg) == (cipher@, tag@) ==> opened.0 && opened.1@ == msg,
{
    let mut msg: Vec<u8> = vec![0u8; cipher.len()];
    let ok = ChaCha20Poly1305::new(key, nonce, aad).decrypt(cipher, &mut msg[..], tag);
    (ok, msg)
}

/// The keys that two peers share.
pub struct PungKeys {
    /// The key of the labels.
    pub k_l: Vec<u8>,
    /// The key of the second labels, where messages are stored twice.
    pub k_l2: Vec<u8>,
    /// The key that messages are encrypted with.
    pub k_e: Vec<u8>,
}

/// The keying material that a secret gives: the secret is made uniform
/// with an empty salt, and expanded with no context to three keys.
pub open spec fn spec_key_material(secret: Seq<u8>) -> Seq<u8> {
    hkdf_expand_sha256(hkdf_extract_sha256(Seq::empty(), secret), Seq::empty(), 3 * KEY_SIZE as nat)
}

/// The encryption key of a secret: the first third of its keying
/// material.
pub open spec fn spec_k_e(secret: Seq<u8>) -> Seq<u8> {
    spec_key_material(secret).subrange(0, KEY_SIZE as int)
}

/// The label key of a secret: the second third of its keying material.
pub open spec fn spec_k_l(secret: Seq<u8>) -> Seq<u8> {
    spec_key_material(secret).subrange(KEY_SIZE as int, 2 * KEY_SIZE)
}

/// The second label key of a secret: the last third of its keying
/// material.
pub open spec fn spec_k_l2(secret: Seq<u8>) -> Seq<u8> {
    spec_key_material(secret).subrange(2 * KEY_SIZE, 3 * KEY_SIZE)
}

/// The keys of a secret. Two parties that derive from one secret get the
/// same keys.
pub fn derive_keys(secret: &[u8]) -> (keys: PungKeys)
    requires
        secret@.len() + HASH_BLOCK < HASH_LIMIT,
    ensures
        spec_key_material(secret@).len() == 3 * KEY_SIZE,
        keys.k_e@ + keys.k_l@ + keys.k_l2@ == spec_key_material(secret@),
        keys.k_e@ == spec_k_e(secret@),
        keys.k_l@ == spec_k_l(secret@),
        keys.k_l2@ == spec_k_l2(secret@),
        keys.k_e@.len() == KEY_SIZE,
        keys.k_l@.len() == KEY_SIZE,
        keys.k_l2@.len() == KEY_SIZE,
{
    let salt: Vec<u8> = Vec::new();
    let info: Vec<u8> = Vec::new();
    assert(salt@ =~= Seq::<u8>::empty());
    assert(info@ =~= Seq::<u8>::empty());
    let prk = hkdf_extract(salt.as_slice(), secret, KEY_SIZE);
    let mut okm = hkdf_expand(prk.as_slice(), info.as_slice(), 3 * KEY_SIZE);
    let ghost material = okm@;
    let mut k_l = okm.split_off(KEY_SIZE);
    let k_l2 = k_l.split_off(KEY_SIZE);
    assert(okm@ =~= material.subrange(0, KEY_SIZE as int));
    assert(k_l@ =~= material.subrange(KEY_SIZE as int, 2 * KEY_SIZE));
    assert(k_l2@ =~= material.subrange(2 * KEY_SIZE, 3 * KEY_SIZE));
    assert(okm@ + k_l@ + k_l2@ =~= material);
    PungKeys { k_l, k_l2, k_e: okm }
}

/// What a label is the tag of: round, uid, message number and collision
/// counter, eight bytes each, most significant byte first.
pub open spec fn spec_label_input(round: u64, uid: u64, msg_num: u64, iter: u64) -> Seq<u8> {
    be_bytes(round as nat, 8) + be_bytes(uid as nat, 8) + be_bytes(msg_num as nat, 8) + be_bytes(iter as nat, 8)
}

/// The label of a message: a function of the key, the round, the uid of
/// the recipient, the number of the message and the collision counter.
pub open spec fn spec_gen_label(key: Seq<u8>, round: u64, uid: u64, msg_num: u64, iter: u64) -> Seq<u8> {
    hmac_sha256(key, spec_label_input(round, uid, msg_num, iter))
}

/// The label of a message. It depends on the arguments alone: two calls
/// with the same arguments give the same label.
pub fn gen_label(key: &[u8], round: u64, uid: u64, msg_num: u64, iter: u64) -> (label: Vec<u8>)
    requires
        key@.len() < HASH_LIMIT,
    ensures
        label@ == spec_gen_label(key@, round, uid, msg_num, iter),
        label@.len() == LABEL_SIZE,
{
    let mut input = be_encode(round, 8);
    let mut uid_bytes = be_encode(uid, 8);
    let mut num_bytes = be_encode(msg_num, 8);
    let mut iter_bytes = be_encode(iter, 8);
    input.append(&mut uid_bytes);
    input.append(&mut num_bytes);
    input.append(&mut iter_bytes);
    assert(input@ =~= spec_label_input(round, uid, msg_num, iter));
    hmac_tag(key, input.as_slice())
}

/// Label determinism: the label is a function of the key, the round, the
/// uid, the number of the message and the collision counter; what two
/// calls of `gen_label` give for the same arguments is the same.
pub proof fn lemma_label_determinism(key: Seq<u8>, round: u64, uid: u64, msg_num: u64, iter: u64, one: Seq<u8>, other: Seq<u8>)
    requires
        one == spec_gen_label(key, round, uid, msg_num, iter),
        other == spec_gen_label(key, round, uid, msg_num, iter),
    ensures
        one == other,
{
}

/// Key symmetry: the keys are a function of the secret; what two parties
/// derive from one secret with `derive_keys` is the same.
pub proof fn lemma_key_symmetry(secret: Seq<u8>, mine: (Seq<u8>, Seq<u8>, Seq<u8>), yours: (Seq<u8>, Seq<u8>, Seq<u8>))
    requires
        mine == (spec_k_e(secret), spec_k_l(secret), spec_k_l2(secret)),
        yours == (spec_k_e(secret), spec_k_l(secret), spec_k_l2(secret)),
    ensures
        mine == yours,
{
}

/// A message with zeros behind it up to `MESSAGE_SIZE` bytes.
pub open spec fn spec_padded(message: Seq<u8>) -> Seq<u8> {
    message + Seq::new((MESSAGE_SIZE - message.len()) as nat, |i: int| 0u8)
}

/// The ciphertext and the tag of a message in a round: the padded message
/// is sealed under the key with the round as nonce, eight bytes with the
/// most significant first, and no associated data.
pub open spec fn spec_encrypt(key: Seq<u8>, round: u64, message: Seq<u8>) -> (Seq<u8>, Seq<u8>) {
    chacha20poly1305_seal(key, be_bytes(round as nat, 8), Seq::empty(), spec_padded(message))
}

/// Whether a ciphertext with its tag is accepted in a round, and the
/// padded message that it gives then.
pub open spec fn spec_decrypt(key: Seq<u8>, round: u64, c: Seq<u8>, mac: Seq<u8>) -> (bool, Seq<u8>) {
    chacha20poly1305_open(key, be_bytes(round as nat, 8), Seq::empty(), c, mac)
}

/// Pads a message to `MESSAGE_SIZE` bytes.
fn pad_message(message: &[u8]) -> (padded: Vec<u8>)
    requires
        message@.len() <= MESSAGE_SIZE,
    ensures
        padded@ == spec_padded(message@),
        padded@.len() == MESSAGE_SIZE,
{
    let mut padded: Vec<u8> = vec![0u8; MESSAGE_SIZE];
    let mut i: usize = 0;
    while i < message.len()
        invariant
            i <= message@.len() <= MESSAGE_SIZE,
            padded@.len() == MESSAGE_SIZE,
            forall|j: int| 0 <= j < i ==> padded@[j] == message@[j],
            forall|j: int| i <= j < MESSAGE_SIZE ==> padded@[j] == 0u8,
        decreases message@.len() - i,
    {
        padded[i] = message[i];
        i += 1;
    }
    assert(padded@ =~= spec_padded(message@));
    padded
}

/// Encrypts a message of a round under the encryption key: the ciphertext
/// of `CIPHER_SIZE` bytes and the tag of `MAC_SIZE` bytes.
pub fn encrypt(key: &[u8], round: u64, message: &[u8]) -> (sealed: (Vec<u8>, Vec<u8>))
    requires
        key@.len() == 16 || key@.len() == 32,
        message@.len() <= MESSAGE_SIZE,
    ensures
        (sealed.0@, sealed.1@) == spec_encrypt(key@, round, message@),
        sealed.0@.len() == CIPHER_SIZE,
        sealed.1@.len() == MAC_SIZE,
{
    let nonce = be_encode(round, 8);
    let aad: Vec<u8> = Vec::new();
    assert(aad@ =~= Seq::<u8>::empty());
    let padded = pad_message(message);
    aead_seal(key, nonce.as_slice(), aad.as_slice(), padded.as_slice(), MAC_SIZE)
}

/// Decrypts a ciphertext of a round and checks its tag: the padded
/// message, or `DecryptFailed` where the tag is not accepted. What
/// `encrypt` gave for a message under the same key and round decrypts to
/// that message, padded.
pub fn decrypt(key: &[u8], round: u64, c: &[u8], mac: &[u8]) -> (r: Result<Vec<u8>, Error>)
    requires
        key@.len() == 16 || key@.len() == 32,
        c@.len() == MESSAGE_SIZE,
    ensures
        r is Ok == spec_decrypt(key@, round, c@, mac@).0,
        r matches Ok(m) ==> m@ == spec_decrypt(key@, round, c@, mac@).1 && m@.len() == MESSAGE_SIZE,
        r matches Err(e) ==> e == Error::DecryptFailed,
        forall|message: Seq<u8>|
            message.len() <= MESSAGE_SIZE && #[trigger] spec_encrypt(key@, round, message) == (c@, mac@) ==> r is Ok
                && r->Ok_0@ == spec_padded(message),
{
    let nonce = be_encode(round, 8);
    let aad: Vec<u8> = Vec::new();
    assert(aad@ =~= Seq::<u8>::empty());
    let opened = aead_open(key, nonce.as_slice(), aad.as_slice(), c, mac);
    if opened.0 {
        Ok(opened.1)
    } else {
        Err(Error::DecryptFailed)
    }
}

} // verus!
