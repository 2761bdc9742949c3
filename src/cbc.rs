use vstd::prelude::*;

use crate::bytes::{append_range, block_at, copy_range, lemma_xor_seq_twice, xor_seq};
use crate::cipher::{
    decrypt_blocks, ecb_decrypt_spec, ecb_encrypts, encrypt_blocks, lemma_ecb_decrypt_inverts,
    MAX_MESSAGE,
};
use crate::error::CryptoError;
use crate::pkcs7::{lemma_strip_pad, pad_pkcs7, pkcs7_pad, pkcs7_strip, strip_pkcs7};
use crate::xor::xor;

verus! {

/// `c` is the CBC encryption of the whole blocks `p` under `key` and `iv`:
/// each ciphertext block is the encryption of its plaintext block exclusive-or'ed
/// with the ciphertext block before it (the IV before the first one).
pub open spec fn cbc_encrypts(key: Seq<u8>, iv: Seq<u8>, p: Seq<u8>, c: Seq<u8>) -> bool {
    &&& p.len() == c.len()
    &&& ecb_encrypts(key, xor_seq(p, iv + c), c)
}

/// CBC decryption of `c` under `key` and `iv`, padding left in place: each
/// decrypted block exclusive-or'ed with the ciphertext block before it.
pub open spec fn cbc_decrypt_spec(key: Seq<u8>, iv: Seq<u8>, c: Seq<u8>) -> Seq<u8> {
    xor_seq(ecb_decrypt_spec(key, c), iv + c)
}

proof fn lemma_cbc_step(
    key: Seq<u8>,
    iv: Seq<u8>,
    p: Seq<u8>,
    c: Seq<u8>,
    x: Seq<u8>,
    e: Seq<u8>,
    i: int,
)
    requires
        iv.len() == 16,
        0 <= i,
        16 * i + 16 <= p.len(),
        c.len() == 16 * i,
        ecb_encrypts(key, xor_seq(p.subrange(0, 16 * i), iv + c), c),
        x == xor_seq(block_at(p, i), (iv + c).subrange(16 * i, 16 * i + 16)),
        e.len() == 16,
        e == crate::cipher::aes128_encrypt(key, x),
        crate::cipher::aes128_decrypt(key, e) == x,
    ensures
        ecb_encrypts(key, xor_seq(p.subrange(0, 16 * i + 16), iv + (c + e)), c + e),
{
    let c2 = c + e;
    let q1 = xor_seq(p.subrange(0, 16 * i), iv + c);
    let q2 = xor_seq(p.subrange(0, 16 * i + 16), iv + c2);
    assert forall|b: int| 0 <= b < q2.len() / 16 implies {
        &&& #[trigger] block_at(c2, b) == crate::cipher::aes128_encrypt(key, block_at(q2, b))
        &&& crate::cipher::aes128_decrypt(key, block_at(c2, b)) == block_at(q2, b)
    } by {
        if b < i {
            assert(block_at(c2, b) =~= block_at(c, b));
            assert(block_at(q2, b) =~= block_at(q1, b));
        } else {
            assert(b == i);
            assert(block_at(c2, b) =~= e);
            assert(block_at(q2, b) =~= x);
        }
    }
}

/// CBC encryption: PKCS#7-pad `bytes` to 16-byte blocks, then encrypt each
/// block exclusive-or'ed with the previous ciphertext block (first with `iv`).
/// Fails with `MalformedInput` unless `iv` is 16 bytes long.
pub fn encrypt_aes_cbc(bytes: &[u8], key: &[u8], iv: &[u8]) -> (r: Result<Vec<u8>, CryptoError>)
    requires
        key@.len() == 16,
        bytes@.len() + 16 <= MAX_MESSAGE,
    ensures
        iv@.len() == 16 ==> r is Ok && cbc_encrypts(key@, iv@, pkcs7_pad(bytes@, 16), r->Ok_0@)
            && cbc_decrypt_spec(key@, iv@, r->Ok_0@) == pkcs7_pad(bytes@, 16),
        iv@.len() != 16 ==> r == Err::<Vec<u8>, CryptoError>(CryptoError::MalformedInput),
{
    if iv.len() != 16 {
        return Err(CryptoError::MalformedInput);
    }
    let padded = pad_pkcs7(bytes, 16);
    proof {
        lemma_strip_pad(bytes@, 16);
    }
    let n = padded.len() / 16;
    let mut encrypted: Vec<u8> = Vec::with_capacity(padded.len());
    let mut prev = copy_range(iv, 0, 16);
    assert(iv@.subrange(0, 16) =~= iv@);
    assert(xor_seq(padded@.subrange(0, 0), iv@ + encrypted@) =~= Seq::<u8>::empty());
    let mut i: usize = 0;
    while i < n
        invariant
            key@.len() == 16,
            iv@.len() == 16,
            padded@ == pkcs7_pad(bytes@, 16),
            padded@.len() == 16 * n,
            padded@.len() <= MAX_MESSAGE,
            i <= n,
            encrypted@.len() == 16 * i,
            prev@ == (iv@ + encrypted@).subrange(16 * i, 16 * i + 16),
            ecb_encrypts(key@, xor_seq(padded@.subrange(0, 16 * i), iv@ + encrypted@), encrypted@),
        decreases n - i,
    {
        let block = copy_range(padded.as_slice(), 16 * i, 16 * i + 16);
        let x = xor(block.as_slice(), prev.as_slice());
        let e = encrypt_blocks(key, x.as_slice());
        proof {
            assert(block_at(e@, 0) =~= e@);
            assert(block_at(x@, 0) =~= x@);
            lemma_cbc_step(key@, iv@, padded@, encrypted@, x@, e@, i as int);
        }
        append_range(&mut encrypted, e.as_slice(), 0, 16);
        assert(e@.subrange(0, 16) =~= e@);
        prev = e;
        i += 1;
        assert(prev@ =~= (iv@ + encrypted@).subrange(16 * i, 16 * i + 16));
    }
    proof {
        assert(padded@.subrange(0, 16 * n) =~= padded@);
        let q = xor_seq(padded@, iv@ + encrypted@);
        lemma_ecb_decrypt_inverts(key@, q, encrypted@);
        lemma_xor_seq_twice(padded@, iv@ + encrypted@);
    }
    Ok(encrypted)
}

/// CBC decryption followed by stripping the padding. Fails with
/// `MalformedInput` unless `iv` is 16 bytes and `bytes` whole blocks, and with
/// `InvalidPadding` where the decrypted blocks do not end in valid padding.
pub fn decrypt_aes_cbc(bytes: &[u8], key: &[u8], iv: &[u8]) -> (r: Result<Vec<u8>, CryptoError>)
    requires
        key@.len() == 16,
        bytes@.len() <= MAX_MESSAGE,
    ensures
        iv@.len() != 16 || bytes@.len() % 16 != 0 ==> r == Err::<Vec<u8>, CryptoError>(
            CryptoError::MalformedInput,
        ),
        iv@.len() == 16 && bytes@.len() % 16 == 0 ==> match pkcs7_strip(
            cbc_decrypt_spec(key@, iv@, bytes@),
        ) {
            Some(m) => r is Ok && r->Ok_0@ == m,
            None => r == Err::<Vec<u8>, CryptoError>(CryptoError::InvalidPadding),
        },
{
    if iv.len() != 16 || bytes.len() % 16 != 0 {
        return Err(CryptoError::MalformedInput);
    }
    let decrypted = decrypt_blocks(key, bytes);
    let mut chain = copy_range(iv, 0, 16);
    append_range(&mut chain, bytes, 0, bytes.len());
    let preceding = copy_range(chain.as_slice(), 0, bytes.len());
    let padded = xor(decrypted.as_slice(), preceding.as_slice());
    assert(padded@ =~= cbc_decrypt_spec(key@, iv@, bytes@));
    strip_pkcs7(padded.as_slice())
}

/// CBC decryption undoes CBC encryption block for block.
pub proof fn lemma_cbc_decrypt_inverts(key: Seq<u8>, iv: Seq<u8>, p: Seq<u8>, c: Seq<u8>)
    requires
        cbc_encrypts(key, iv, p, c),
    ensures
        cbc_decrypt_spec(key, iv, c) == p,
{
    lemma_ecb_decrypt_inverts(key, xor_seq(p, iv + c), c);
    lemma_xor_seq_twice(p, iv + c);
}

/// A plaintext of whole blocks still gets a whole block of padding: its CBC
/// encryption is one block longer and that block decrypts to sixteen 16s.
pub proof fn lemma_cbc_aligned_padding(
    key: Seq<u8>,
    iv: Seq<u8>,
    plaintext: Seq<u8>,
    ciphertext: Seq<u8>,
)
    requires
        plaintext.len() % 16 == 0,
        cbc_encrypts(key, iv, pkcs7_pad(plaintext, 16), ciphertext),
    ensures
        ciphertext.len() == plaintext.len() + 16,
        cbc_decrypt_spec(key, iv, ciphertext).subrange(
            plaintext.len() as int,
            plaintext.len() as int + 16,
        ) == crate::bytes::repeat_byte(16, 16),
{
    crate::pkcs7::lemma_full_block_padding(plaintext, 16);
    lemma_cbc_decrypt_inverts(key, iv, pkcs7_pad(plaintext, 16), ciphertext);
    assert(cbc_decrypt_spec(key, iv, ciphertext).subrange(
        plaintext.len() as int,
        plaintext.len() as int + 16,
    ) =~= crate::bytes::repeat_byte(16, 16));
}

/// Decrypting a CBC encryption with the same key and IV and stripping its
/// padding gives the plaintext back, for every plaintext, key and IV.
pub proof fn lemma_cbc_round_trip(
    key: Seq<u8>,
    iv: Seq<u8>,
    plaintext: Seq<u8>,
    ciphertext: Seq<u8>,
)
    requires
        cbc_encrypts(key, iv, pkcs7_pad(plaintext, 16), ciphertext),
    ensures
        pkcs7_strip(cbc_decrypt_spec(key, iv, ciphertext)) == Some(plaintext),
{
    let p = pkcs7_pad(plaintext, 16);
    lemma_ecb_decrypt_inverts(key, xor_seq(p, iv + ciphertext), ciphertext);
    lemma_xor_seq_twice(p, iv + ciphertext);
    lemma_strip_pad(plaintext, 16);
}

} // verus!
