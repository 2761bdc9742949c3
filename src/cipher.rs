use vstd::prelude::*;

use crate::bytes::block_at;
use openssl::cipher::Cipher;
use openssl::cipher_ctx::CipherCtx;

verus! {

/// The longest buffer handed to the block cipher in one call.
pub const MAX_MESSAGE: usize = 0x7fff_0000;

/// AES-128 encryption of one 16-byte block under a 16-byte key.
pub uninterp spec fn aes128_encrypt(key: Seq<u8>, block: Seq<u8>) -> Seq<u8>;

/// AES-128 decryption of one 16-byte block under a 16-byte key.
pub uninterp spec fn aes128_decrypt(key: Seq<u8>, block: Seq<u8>) -> Seq<u8>;

/// `c` is the block-by-block AES-128 encryption of `p` under `key` (each block
/// also decrypting back to its plaintext block, as a block cipher does).
pub open spec fn ecb_encrypts(key: Seq<u8>, p: Seq<u8>, c: Seq<u8>) -> bool {
    &&& p.len() % 16 == 0
    &&& c.len() == p.len()
    &&& forall|i: int|
        0 <= i < p.len() / 16 ==> {
            &&& #[trigger] block_at(c, i) == aes128_encrypt(key, block_at(p, i))
            &&& aes128_decrypt(key, block_at(c, i)) == block_at(p, i)
        }
}

/// Block-by-block AES-128 decryption of `c` under `key`.
pub open spec fn ecb_decrypt_spec(key: Seq<u8>, c: Seq<u8>) -> Seq<u8> {
    Seq::new(c.len(), |j: int| aes128_decrypt(key, block_at(c, j / 16))[j % 16])
}

/// Relies on openssl's `CipherCtx` (`encrypt_init` with `Cipher::aes_128_ecb`,
/// padding off, `cipher_update_vec`, `cipher_final_vec`): each 16-byte block is
/// encrypted on its own, and a block cipher's decryption undoes its encryption.
#[verifier::external_body]
fn ecb_encrypt_blocks(key: &[u8], data: &[u8]) -> (r: Vec<u8>)
    requires
        key@.len() == 16,
        data@.len() % 16 == 0,
        data@.len() <= MAX_MESSAGE,
    ensures
        ecb_encrypts(key@, data@, r@),
{
    let mut ctx = CipherCtx::new().unwrap();
    ctx.encrypt_init(Some(Cipher::aes_128_ecb()), Some(key), None).unwrap();
    ctx.set_padding(false);
    let mut out = Vec::new();
    ctx.cipher_update_vec(data, &mut out).unwrap();
    ctx.cipher_final_vec(&mut out).unwrap();
    out
}

/// Relies on openssl's `CipherCtx` (`decrypt_init` with `Cipher::aes_128_ecb`,
/// padding off, `cipher_update_vec`, `cipher_final_vec`): each 16-byte block is
/// decrypted on its own, and a block cipher's encryption undoes its decryption.
#[verifier::external_body]
fn ecb_decrypt_blocks(key: &[u8], data: &[u8]) -> (r: Vec<u8>)
    requires
        key@.len() == 16,
        data@.len() % 16 == 0,
        data@.len() <= MAX_MESSAGE,
    ensures
        r@.len() == data@.len(),
        forall|i: int|
            0 <= i < data@.len() / 16 ==> {
                &&& #[trigger] block_at(r@, i) == aes128_decrypt(key@, block_at(data@, i))
                &&& aes128_encrypt(key@, block_at(r@, i)) == block_at(data@, i)
            },
{
    let mut ctx = CipherCtx::new().unwrap();
    ctx.decrypt_init(Some(Cipher::aes_128_ecb()), Some(key), None).unwrap();
    ctx.set_padding(false);
    let mut out = Vec::new();
    ctx.cipher_update_vec(data, &mut out).unwrap();
    ctx.cipher_final_vec(&mut out).unwrap();
    out
}

/// Block `i` of the block-wise decryption is the decryption of block `i`.
pub proof fn lemma_ecb_decrypt_block(key: Seq<u8>, c: Seq<u8>, i: int)
    requires
        c.len() % 16 == 0,
        0 <= i < c.len() / 16,
        aes128_decrypt(key, block_at(c, i)).len() == 16,
    ensures
        block_at(ecb_decrypt_spec(key, c), i) == aes128_decrypt(key, block_at(c, i)),
{
    let d = ecb_decrypt_spec(key, c);
    assert forall|t: int| 0 <= t < 16 implies #[trigger] block_at(d, i)[t] == aes128_decrypt(
        key,
        block_at(c, i),
    )[t] by {
        crate::bytes::lemma_block_index(i, t);
    }
    assert(block_at(d, i) =~= aes128_decrypt(key, block_at(c, i)));
}

/// Decrypting an ECB encryption block by block gives the plaintext back.
pub proof fn lemma_ecb_decrypt_inverts(key: Seq<u8>, p: Seq<u8>, c: Seq<u8>)
    requires
        ecb_encrypts(key, p, c),
    ensures
        ecb_decrypt_spec(key, c) == p,
{
    let d = ecb_decrypt_spec(key, c);
    assert forall|i: int| 0 <= i < d.len() / 16 implies #[trigger] block_at(d, i) == block_at(
        p,
        i,
    ) by {
        assert(block_at(c, i) == aes128_encrypt(key, block_at(p, i)));
        lemma_ecb_decrypt_block(key, c, i);
    }
    crate::bytes::lemma_equal_by_blocks(d, p);
}

/// AES-128 block-wise encryption of whole blocks under a 16-byte key.
pub fn encrypt_blocks(key: &[u8], data: &[u8]) -> (r: Vec<u8>)
    requires
        key@.len() == 16,
        data@.len() % 16 == 0,
        data@.len() <= MAX_MESSAGE,
    ensures
        ecb_encrypts(key@, data@, r@),
        ecb_decrypt_spec(key@, r@) == data@,
{
    let r = ecb_encrypt_blocks(key, data);
    proof {
        lemma_ecb_decrypt_inverts(key@, data@, r@);
    }
    r
}

/// AES-128 block-wise decryption of whole blocks under a 16-byte key.
pub fn decrypt_blocks(key: &[u8], data: &[u8]) -> (r: Vec<u8>)
    requires
        key@.len() == 16,
        data@.len() % 16 == 0,
        data@.len() <= MAX_MESSAGE,
    ensures
        r@ == ecb_decrypt_spec(key@, data@),
        ecb_encrypts(key@, r@, data@),
{
    let r = ecb_decrypt_blocks(key, data);
    proof {
        let d = ecb_decrypt_spec(key@, data@);
        assert forall|i: int| 0 <= i < d.len() / 16 implies #[trigger] block_at(d, i) == block_at(
            r@,
            i,
        ) by {
            assert(block_at(r@, i).len() == 16);
            lemma_ecb_decrypt_block(key@, data@, i);
        }
        crate::bytes::lemma_equal_by_blocks(d, r@);
    }
    r
}

} // verus!
