use vstd::prelude::*;

use crate::cipher::{
    decrypt_blocks, ecb_decrypt_spec, ecb_encrypts, encrypt_blocks, lemma_ecb_decrypt_inverts,
    MAX_MESSAGE,
};
use crate::error::CryptoError;
use crate::bytes::{copy_range, ranges_equal};
use crate::pkcs7::{lemma_strip_pad, pad_pkcs7, pkcs7_pad, pkcs7_strip};

verus! {

/// ECB encryption: PKCS#7-pad `bytes` to 16-byte blocks (always adding
/// padding, a whole block on an exact multiple), then encrypt each block on
/// its own under `key`.
pub fn encrypt_aes_ecb(bytes: &[u8], key: &[u8]) -> (r: Vec<u8>)
    requires
        key@.len() == 16,
        bytes@.len() + 16 <= MAX_MESSAGE,
    ensures
        ecb_encrypts(key@, pkcs7_pad(bytes@, 16), r@),
        ecb_decrypt_spec(key@, r@) == pkcs7_pad(bytes@, 16),
{
    let padded = pad_pkcs7(bytes, 16);
    proof {
        lemma_strip_pad(bytes@, 16);
    }
    encrypt_blocks(key, padded.as_slice())
}

/// ECB decryption: each 16-byte block decrypted on its own under `key`; the
/// padding is left in place. Fails with `MalformedInput` unless the input is
/// made of whole blocks.
pub fn decrypt_aes_ecb(encrypted: &[u8], key: &[u8]) -> (r: Result<Vec<u8>, CryptoError>)
    requires
        key@.len() == 16,
        encrypted@.len() <= MAX_MESSAGE,
    ensures
        encrypted@.len() % 16 == 0 ==> r is Ok && r->Ok_0@ == ecb_decrypt_spec(key@, encrypted@),
        encrypted@.len() % 16 != 0 ==> r == Err::<Vec<u8>, CryptoError>(
            CryptoError::MalformedInput,
        ),
{
    if encrypted.len() % 16 != 0 {
        return Err(CryptoError::MalformedInput);
    }
    Ok(decrypt_blocks(key, encrypted))
}

/// Decrypting an ECB encryption and stripping its padding gives the plaintext
/// back, for every plaintext and key.
pub proof fn lemma_ecb_round_trip(key: Seq<u8>, plaintext: Seq<u8>, ciphertext: Seq<u8>)
    requires
        ecb_encrypts(key, pkcs7_pad(plaintext, 16), ciphertext),
    ensures
        pkcs7_strip(ecb_decrypt_spec(key, ciphertext)) == Some(plaintext),
{
    lemma_ecb_decrypt_inverts(key, pkcs7_pad(plaintext, 16), ciphertext);
    lemma_strip_pad(plaintext, 16);
}

/// A plaintext of whole blocks still gets a whole block of padding: its ECB
/// encryption is one block longer and that block decrypts to sixteen 16s.
pub proof fn lemma_ecb_aligned_padding(key: Seq<u8>, plaintext: Seq<u8>, ciphertext: Seq<u8>)
    requires
        plaintext.len() % 16 == 0,
        ecb_encrypts(key, pkcs7_pad(plaintext, 16), ciphertext),
    ensures
        ciphertext.len() == plaintext.len() + 16,
        ecb_decrypt_spec(key, ciphertext).subrange(
            plaintext.len() as int,
            plaintext.len() as int + 16,
        ) == crate::bytes::repeat_byte(16, 16),
{
    crate::pkcs7::lemma_full_block_padding(plaintext, 16);
    lemma_ecb_decrypt_inverts(key, pkcs7_pad(plaintext, 16), ciphertext);
    assert(ecb_decrypt_spec(key, ciphertext).subrange(plaintext.len() as int, plaintext.len() as int + 16)
        =~= crate::bytes::repeat_byte(16, 16));
}

/// Chunk `e` of `m` for chunks of `size` bytes.
pub open spec fn chunk(m: Seq<u8>, size: nat, e: int) -> Seq<u8> {
    m.subrange(size * e, size * e + size)
}

/// How many of the first `i` chunks of `m` equal chunk `j`.
pub open spec fn equal_before(m: Seq<u8>, size: nat, j: int, i: nat) -> nat
    decreases i,
{
    if i == 0 {
        0
    } else {
        equal_before(m, size, j, (i - 1) as nat) + if chunk(m, size, i - 1) == chunk(m, size, j) {
            1nat
        } else {
            0nat
        }
    }
}

/// The number of pairs of equal chunks among the first `n` chunks of `m`.
pub open spec fn repeated_pairs(m: Seq<u8>, size: nat, n: nat) -> nat
    decreases n,
{
    if n == 0 {
        0
    } else {
        repeated_pairs(m, size, (n - 1) as nat) + equal_before(
            m,
            size,
            n - 1,
            (n - 1) as nat,
        )
    }
}

/// The number of pairs of equal whole chunks in `m`.
pub open spec fn repeated_block_count(m: Seq<u8>, size: nat) -> nat {
    repeated_pairs(m, size, m.len() / size)
}

proof fn lemma_chunk_fits(len: int, size: int, e: int)
    requires
        size > 0,
        0 <= e < len / size,
        len >= 0,
    ensures
        size * e + size <= len,
        0 <= size * e,
{
    vstd::arithmetic::div_mod::lemma_fundamental_div_mod(len, size);
    assert(size * e + size <= size * (len / size)) by (nonlinear_arith)
        requires
            e + 1 <= len / size,
            size > 0,
    ;
    assert(0 <= size * e) by (nonlinear_arith)
        requires
            e >= 0,
            size > 0,
    ;
}

/// The number of pairs of identical whole `block_size`-byte blocks in
/// `message`, a sign of ECB encryption.
pub fn find_repeated_blocks(message: &[u8], block_size: usize) -> (r: usize)
    requires
        block_size > 0,
        (message@.len() / (block_size as nat)) * (message@.len() / (block_size as nat)) <= usize::MAX,
    ensures
        r == repeated_block_count(message@, block_size as nat),
{
    let mlen = message.len();
    let nb = mlen / block_size;
    let mut count: usize = 0;
    let mut j: usize = 0;
    while j < nb
        invariant
            block_size > 0,
            nb == message@.len() / (block_size as nat),
            nb * nb <= usize::MAX,
            j <= nb,
            mlen == message@.len(),
            count == repeated_pairs(message@, block_size as nat, j as nat),
            count <= j * nb,
        decreases nb - j,
    {
        let mut i: usize = 0;
        let ghost base = count;
        proof {
            lemma_chunk_fits(message@.len() as int, block_size as int, j as int);
        }
        while i < j
            invariant
                block_size > 0,
                nb == message@.len() / (block_size as nat),
                nb * nb <= usize::MAX,
                j < nb,
                i <= j,
                base <= j * nb,
                block_size * j + block_size <= message@.len(),
                mlen == message@.len(),
                count == base + equal_before(message@, block_size as nat, j as int, i as nat),
                count <= base + i,
            decreases j - i,
        {
            proof {
                lemma_chunk_fits(message@.len() as int, block_size as int, i as int);
                assert(j * nb + i < nb * nb) by (nonlinear_arith)
                    requires
                        i < j,
                        j < nb,
                ;
            }
            if ranges_equal(message, block_size * i, message, block_size * j, block_size) {
                count += 1;
            }
            i += 1;
        }
        proof {
            assert(j * nb + j <= (j + 1) * nb) by (nonlinear_arith)
                requires
                    j < nb,
            ;
        }
        j += 1;
    }
    count
}

/// Among `messages`, the one with the most pairs of identical 16-byte blocks
/// (the first such one where several tie): the one most likely ECB-encrypted.
pub fn detect_aes_ecb(messages: &Vec<Vec<u8>>) -> (r: Vec<u8>)
    requires
        messages@.len() > 0,
        forall|i: int|
            0 <= i < messages@.len() ==> (#[trigger] messages@[i]@.len() / 16) * (
            messages@[i]@.len() / 16) <= usize::MAX,
    ensures
        exists|i: int|
            0 <= i < messages@.len() && r@ == messages@[i]@ && (forall|j: int|
                0 <= j < messages@.len() ==> repeated_block_count(#[trigger] messages@[j]@, 16)
                    <= repeated_block_count(messages@[i]@, 16)) && (forall|j: int|
                0 <= j < i ==> repeated_block_count(#[trigger] messages@[j]@, 16)
                    < repeated_block_count(messages@[i]@, 16)),
{
    let mut best: usize = 0;
    let mut best_count = find_repeated_blocks(messages[0].as_slice(), 16);
    let mut k: usize = 1;
    while k < messages.len()
        invariant
            1 <= k <= messages@.len(),
            best < k,
            forall|i: int|
                0 <= i < messages@.len() ==> (#[trigger] messages@[i]@.len() / 16) * (
                messages@[i]@.len() / 16) <= usize::MAX,
            best_count == repeated_block_count(messages@[best as int]@, 16),
            forall|j: int|
                0 <= j < k ==> repeated_block_count(#[trigger] messages@[j]@, 16) <= best_count,
            forall|j: int|
                0 <= j < best ==> repeated_block_count(#[trigger] messages@[j]@, 16) < best_count,
        decreases messages@.len() - k,
    {
        let c = find_repeated_blocks(messages[k].as_slice(), 16);
        if c > best_count {
            best = k;
            best_count = c;
        }
        k += 1;
    }
    let chosen = &messages[best];
    let r = copy_range(chosen.as_slice(), 0, chosen.len());
    assert(chosen@.subrange(0, chosen@.len() as int) =~= chosen@);
    r
}

} // verus!
