use vstd::prelude::*;

use crate::bytes::{block_at, copy_range, lemma_block_index, lemma_xor_seq_twice, xor_seq};
use crate::cipher::{aes128_encrypt, encrypt_blocks};
use crate::error::CryptoError;
use crate::xor::xor;

verus! {

/// The 8 little-endian bytes of `n`.
pub open spec fn le_bytes(n: u64) -> Seq<u8> {
    Seq::new(8, |t: int| (n >> ((8 * t) as u64)) as u8)
}

/// The first `len` bytes of the CTR keystream: keystream block `j` is the
/// encryption of `nonce` followed by the little-endian 64-bit counter `j`.
pub open spec fn ctr_keystream_spec(key: Seq<u8>, nonce: Seq<u8>, len: nat) -> Seq<u8> {
    Seq::new(len, |i: int| aes128_encrypt(key, nonce + le_bytes((i / 16) as u64))[i % 16])
}

/// CTR encryption, which is also CTR decryption: `data` exclusive-or'ed with
/// as much of the keystream as it is long.
pub open spec fn ctr_spec(key: Seq<u8>, nonce: Seq<u8>, data: Seq<u8>) -> Seq<u8> {
    xor_seq(data, ctr_keystream_spec(key, nonce, data.len()))
}

/// The 16-byte counter block: `nonce` followed by `counter` in little endian.
fn counter_block(nonce: &[u8], counter: u64) -> (r: Vec<u8>)
    requires
        nonce@.len() == 8,
    ensures
        r@ == nonce@ + le_bytes(counter),
{
    let mut block = copy_range(nonce, 0, 8);
    assert(nonce@.subrange(0, 8) =~= nonce@);
    let mut t: u64 = 0;
    while t < 8
        invariant
            t <= 8,
            block@ == nonce@ + le_bytes(counter).subrange(0, t as int),
        decreases 8 - t,
    {
        block.push((counter >> (8 * t)) as u8);
        t += 1;
        assert(block@ =~= nonce@ + le_bytes(counter).subrange(0, t as int));
    }
    assert(le_bytes(counter).subrange(0, 8) =~= le_bytes(counter));
    block
}

/// The first `len` bytes of the keystream for `key` and `nonce`.
fn ctr_keystream(key: &[u8], nonce: &[u8], len: usize) -> (r: Vec<u8>)
    requires
        key@.len() == 16,
        nonce@.len() == 8,
    ensures
        r@ == ctr_keystream_spec(key@, nonce@, len as nat),
{
    let mut keystream: Vec<u8> = Vec::with_capacity(len);
    let mut counter: u64 = 0;
    while keystream.len() < len
        invariant
            key@.len() == 16,
            nonce@.len() == 8,
            keystream@.len() <= len,
            keystream@.len() < len ==> keystream@.len() == 16 * counter,
            forall|i: int|
                0 <= i < keystream@.len() ==> keystream@[i] == #[trigger] ctr_keystream_spec(
                    key@,
                    nonce@,
                    len as nat,
                )[i],
        decreases len - keystream@.len(),
    {
        let block = counter_block(nonce, counter);
        let encrypted = encrypt_blocks(key, block.as_slice());
        assert(block_at(encrypted@, 0) =~= encrypted@);
        assert(block_at(block@, 0) =~= block@);
        let start = keystream.len();
        let take: usize = if len - start < 16 { len - start } else { 16 };
        let mut t: usize = 0;
        while t < take
            invariant
                take <= 16,
                start + take <= len,
                start == 16 * counter,
                t <= take,
                keystream@.len() == start + t,
                encrypted@ == aes128_encrypt(key@, nonce@ + le_bytes(counter)),
                encrypted@.len() == 16,
                forall|i: int|
                    0 <= i < keystream@.len() ==> keystream@[i] == #[trigger] ctr_keystream_spec(
                        key@,
                        nonce@,
                        len as nat,
                    )[i],
            decreases take - t,
        {
            keystream.push(encrypted[t]);
            proof {
                lemma_block_index(counter as int, t as int);
            }
            t += 1;
        }
        counter += 1;
    }
    assert(keystream@ =~= ctr_keystream_spec(key@, nonce@, len as nat));
    keystream
}

/// CTR encryption under `key` and an 8-byte `nonce`; any length, no padding.
/// Fails with `MalformedInput` unless the nonce is 8 bytes long.
pub fn encrypt_aes_ctr(plaintext: &[u8], key: &[u8], nonce: &[u8]) -> (r: Result<
    Vec<u8>,
    CryptoError,
>)
    requires
        key@.len() == 16,
    ensures
        nonce@.len() == 8 ==> r is Ok && r->Ok_0@ == ctr_spec(key@, nonce@, plaintext@),
        nonce@.len() != 8 ==> r == Err::<Vec<u8>, CryptoError>(CryptoError::MalformedInput),
{
    if nonce.len() != 8 {
        return Err(CryptoError::MalformedInput);
    }
    let keystream = ctr_keystream(key, nonce, plaintext.len());
    Ok(xor(plaintext, keystream.as_slice()))
}

/// CTR decryption, the same operation as CTR encryption.
pub fn decrypt_aes_ctr(ciphertext: &[u8], key: &[u8], nonce: &[u8]) -> (r: Result<
    Vec<u8>,
    CryptoError,
>)
    requires
        key@.len() == 16,
    ensures
        nonce@.len() == 8 ==> r is Ok && r->Ok_0@ == ctr_spec(key@, nonce@, ciphertext@),
        nonce@.len() != 8 ==> r == Err::<Vec<u8>, CryptoError>(CryptoError::MalformedInput),
{
    if nonce.len() != 8 {
        return Err(CryptoError::MalformedInput);
    }
    let keystream = ctr_keystream(key, nonce, ciphertext.len());
    Ok(xor(ciphertext, keystream.as_slice()))
}

/// CTR on empty data gives empty data.
pub proof fn lemma_ctr_empty(key: Seq<u8>, nonce: Seq<u8>)
    ensures
        ctr_spec(key, nonce, Seq::empty()) == Seq::<u8>::empty(),
{
    assert(ctr_spec(key, nonce, Seq::empty()) =~= Seq::<u8>::empty());
}

/// CTR is its own inverse: applying it twice with the same key and nonce gives
/// the data back, for every input.
pub proof fn lemma_ctr_round_trip(key: Seq<u8>, nonce: Seq<u8>, data: Seq<u8>)
    ensures
        ctr_spec(key, nonce, ctr_spec(key, nonce, data)) == data,
        ctr_spec(key, nonce, data).len() == data.len(),
{
    lemma_xor_seq_twice(data, ctr_keystream_spec(key, nonce, data.len()));
}

} // verus!
