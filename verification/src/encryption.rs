//! Encryption of one chunk under a key taken from its neighbours.
//!
//! The chunks of a stream form a ring. The key and the initial counter block
//! for a chunk are cut from the SHA-512 hash of the hashes of the chunk before
//! it and the chunk after it, both taken before encryption: bytes 0 to 31 of
//! that hash are the AES-256 key, bytes 32 to 47 the counter block, and the
//! last 16 bytes are not used. The chunk is then encrypted with AES-256 in
//! counter mode, which keeps its length. Nothing but the content of the
//! stream enters the key, so equal streams encrypt to equal chunks.

use crate::bytes::append_bytes;
use crypto::digest::Digest;
use crypto::symmetriccipher::SynchronousStreamCipher;
use vstd::prelude::*;

verus! {

/// Number of bytes of a hash.
pub const HASH_SIZE: usize = 64;

/// Number of bytes of a cipher key.
pub const KEY_SIZE: usize = 32;

/// Number of bytes of the initial counter block of the cipher.
pub const IV_SIZE: usize = 16;

/// The SHA-512 hash of `data`.
pub uninterp spec fn spec_sha512(data: Seq<u8>) -> Seq<u8>;

/// The first `length` bytes that AES-256 in counter mode generates from
/// `key` and the initial counter block `iv`.
pub uninterp spec fn spec_aes256_ctr_keystream(key: Seq<u8>, iv: Seq<u8>, length: nat) -> Seq<u8>;

/// `data` with each byte combined by exclusive or with the byte of `mask` at
/// the same position.
pub open spec fn spec_xor(data: Seq<u8>, mask: Seq<u8>) -> Seq<u8> {
    Seq::new(data.len(), |i: int| data[i] ^ mask[i])
}

/// `data` after AES-256 in counter mode under `key` and `iv`. The cipher is
/// its own inverse.
pub open spec fn spec_cipher(key: Seq<u8>, iv: Seq<u8>, data: Seq<u8>) -> Seq<u8> {
    spec_xor(data, spec_aes256_ctr_keystream(key, iv, data.len()))
}

/// The hash that key and counter block of a chunk are cut from, given the
/// hashes of the chunks before and after it.
pub open spec fn spec_pad(previous: Seq<u8>, next: Seq<u8>) -> Seq<u8> {
    spec_sha512(previous + next)
}

/// The cipher key that is cut from the hash `pad`: its first 32 bytes.
pub open spec fn spec_pad_key(pad: Seq<u8>) -> Seq<u8> {
    pad.subrange(0, KEY_SIZE as int)
}

/// The initial counter block that is cut from the hash `pad`: the 16 bytes
/// that follow the key.
pub open spec fn spec_pad_iv(pad: Seq<u8>) -> Seq<u8> {
    pad.subrange(KEY_SIZE as int, KEY_SIZE + IV_SIZE)
}

/// The cipher key of a chunk with the given neighbour hashes.
pub open spec fn spec_key(previous: Seq<u8>, next: Seq<u8>) -> Seq<u8> {
    spec_pad_key(spec_pad(previous, next))
}

/// The initial counter block of a chunk with the given neighbour hashes.
pub open spec fn spec_iv(previous: Seq<u8>, next: Seq<u8>) -> Seq<u8> {
    spec_pad_iv(spec_pad(previous, next))
}

/// The ciphertext of a chunk with content `plain` whose neighbours hash to
/// `previous` and `next`.
pub open spec fn spec_encrypt_chunk(previous: Seq<u8>, next: Seq<u8>, plain: Seq<u8>) -> Seq<u8> {
    spec_cipher(spec_key(previous, next), spec_iv(previous, next), plain)
}

/// The content of a chunk with ciphertext `cipher` whose neighbours hash to
/// `previous` and `next`.
pub open spec fn spec_decrypt_chunk(previous: Seq<u8>, next: Seq<u8>, cipher: Seq<u8>) -> Seq<u8> {
    spec_cipher(spec_key(previous, next), spec_iv(previous, next), cipher)
}

/// Combining twice with the same mask gives the data back.
pub proof fn lemma_xor_twice(data: Seq<u8>, mask: Seq<u8>)
    ensures
        spec_xor(spec_xor(data, mask), mask) == data,
{
    assert forall|i: int| 0 <= i < data.len() implies spec_xor(spec_xor(data, mask), mask)[i]
        == data[i] by {
        let d: u8 = data[i];
        let m: u8 = mask[i];
        assert((d ^ m) ^ m == d) by (bit_vector);
    }
    assert(spec_xor(spec_xor(data, mask), mask) =~= data);
}

/// Decryption undoes encryption: a chunk decrypted with the neighbour hashes
/// it was encrypted with is the chunk again, whatever its content and length.
pub proof fn lemma_decrypt_encrypt(previous: Seq<u8>, next: Seq<u8>, plain: Seq<u8>)
    ensures
        spec_encrypt_chunk(previous, next, plain).len() == plain.len(),
        spec_decrypt_chunk(previous, next, spec_encrypt_chunk(previous, next, plain)) == plain,
{
    let key = spec_key(previous, next);
    let iv = spec_iv(previous, next);
    lemma_xor_twice(plain, spec_aes256_ctr_keystream(key, iv, plain.len()));
}

/// Calls `crypto::sha2::Sha512`: `new`, one `input` of all of `data`, then
/// `result` into as many bytes as `output_bytes` tells. Trusted: the bytes
/// returned are the SHA-512 hash of `data`, and there are 64 of them.
#[verifier::external_body]
pub(crate) fn sha512(data: &[u8]) -> (hash: Vec<u8>)
    ensures
        hash@ == spec_sha512(data@),
        hash@.len() == HASH_SIZE,
{
    let mut hasher = crypto::sha2::Sha512::new();
    hasher.input(data);
    let mut hash = vec![0u8; hasher.output_bytes()];
    hasher.result(&mut hash);
    hash
}

/// Calls `crypto::aes::ctr` with a 256-bit key, then `process` once on all
/// of `data`. Trusted: each byte returned is the byte of `data` at that
/// position combined by exclusive or with a byte that depends on the key, the
/// counter block and the position alone.
#[verifier::external_body]
pub(crate) fn aes256_ctr(key: &[u8], iv: &[u8], data: &[u8]) -> (out: Vec<u8>)
    requires
        key@.len() == KEY_SIZE,
        iv@.len() == IV_SIZE,
    ensures
        out@ == spec_xor(data@, spec_aes256_ctr_keystream(key@, iv@, data@.len())),
{
    let mut out = vec![0u8; data.len()];
    let mut cipher = crypto::aes::ctr(crypto::aes::KeySize::KeySize256, key, iv);
    cipher.process(data, &mut out);
    out
}

/// Joins the hashes of the two neighbours of a chunk, the one before it
/// first, into the bytes that its pad is the hash of.
pub fn join_neighbours(previous: &[u8], next: &[u8]) -> (joined: Vec<u8>)
    ensures
        joined@ == previous@ + next@,
{
    let mut joined: Vec<u8> = Vec::new();
    append_bytes(&mut joined, previous);
    append_bytes(&mut joined, next);
    joined
}

/// Cuts key and counter block from a pad: the first 32 bytes and the 16
/// bytes after them.
pub fn split_pad(pad: &[u8]) -> (parts: (&[u8], &[u8]))
    requires
        pad@.len() == HASH_SIZE,
    ensures
        parts.0@ == spec_pad_key(pad@),
        parts.1@ == spec_pad_iv(pad@),
{
    (
        vstd::slice::slice_subrange(pad, 0, KEY_SIZE),
        vstd::slice::slice_subrange(pad, KEY_SIZE, KEY_SIZE + IV_SIZE),
    )
}

/// Applies the cipher to `data` under the key and counter block that the
/// neighbour hashes `previous` and `next` give.
fn apply_cipher(previous: &[u8], next: &[u8], data: &[u8]) -> (out: Vec<u8>)
    ensures
        out@ == spec_cipher(spec_key(previous@, next@), spec_iv(previous@, next@), data@),
{
    let joined: Vec<u8> = join_neighbours(previous, next);
    let pad: Vec<u8> = sha512(joined.as_slice());
    let (key, iv) = split_pad(pad.as_slice());
    aes256_ctr(key, iv, data)
}

/// Encrypts the chunk `plain`, whose neighbours in the ring hash to
/// `previous` and `next` before encryption.
pub fn encrypt_chunk(previous: &[u8], next: &[u8], plain: &[u8]) -> (cipher: Vec<u8>)
    ensures
        cipher@ == spec_encrypt_chunk(previous@, next@, plain@),
        cipher@.len() == plain@.len(),
{
    apply_cipher(previous, next, plain)
}

/// Decrypts the chunk `cipher`, whose neighbours in the ring hash to
/// `previous` and `next` before encryption.
pub fn decrypt_chunk(previous: &[u8], next: &[u8], cipher: &[u8]) -> (plain: Vec<u8>)
    ensures
        plain@ == spec_decrypt_chunk(previous@, next@, cipher@),
        plain@.len() == cipher@.len(),
{
    apply_cipher(previous, next, cipher)
}

} // verus!
