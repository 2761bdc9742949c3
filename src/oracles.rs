use vstd::prelude::*;

use crate::bytes::{append_range, copy_range};
use crate::cbc::{cbc_decrypt_spec, cbc_encrypts, decrypt_aes_cbc, encrypt_aes_cbc};
use crate::cipher::{ecb_decrypt_spec, ecb_encrypts, MAX_MESSAGE};
use crate::ctr::{ctr_spec, encrypt_aes_ctr};
use crate::ecb::{decrypt_aes_ecb, encrypt_aes_ecb};
use crate::ecb_attack::is_ecb_oracle;
use crate::error::CryptoError;
use crate::padding_oracle::is_padding_oracle;
use crate::pkcs7::{pkcs7_pad, pkcs7_strip, pkcs7_valid};
use crate::random::{random_between, random_bool, random_bytes};

verus! {

/// The longest query, and the longest hidden text, that the oracles of this
/// library take; the attacks send no longer query. A query, a hidden text, a
/// prefix of up to 64 bytes and the padding must fit together in one call of
/// the block cipher, whose length is an `int` (`MAX_MESSAGE`).
pub const MAX_HIDDEN: usize = 0x3FFF_0000;

/// ECB encryption under `key` of `plaintext` followed by `unknown_string`.
pub fn aes_ecb_oracle(plaintext: &[u8], unknown_string: &[u8], key: &[u8]) -> (r: Vec<u8>)
    requires
        key@.len() == 16,
        plaintext@.len() + unknown_string@.len() + 16 <= MAX_MESSAGE,
    ensures
        ecb_encrypts(key@, pkcs7_pad(plaintext@ + unknown_string@, 16), r@),
{
    let mut bytes: Vec<u8> = Vec::new();
    append_range(&mut bytes, plaintext, 0, plaintext.len());
    append_range(&mut bytes, unknown_string, 0, unknown_string.len());
    assert(bytes@ =~= plaintext@ + unknown_string@);
    encrypt_aes_ecb(bytes.as_slice(), key)
}

/// An ECB oracle under a fresh random key that appends `unknown_string` to
/// what it is given.
pub fn gen_aes_ecb_oracle(unknown_string: &[u8]) -> (r: impl Fn(&[u8]) -> Vec<u8>)
    requires
        unknown_string@.len() <= MAX_HIDDEN,
    ensures
        forall|x: &[u8]| x@.len() <= MAX_HIDDEN ==> #[trigger] call_requires(r, (x,)),
        exists|key: Seq<u8>| key.len() == 16 && is_ecb_oracle(r, key, Seq::empty(), unknown_string@),
{
    let key = random_bytes(16);
    let mut unknown: Vec<u8> = Vec::new();
    append_range(&mut unknown, unknown_string, 0, unknown_string.len());
    assert(unknown@ =~= unknown_string@);
    let ghost k = key@;
    let ghost u = unknown@;
    let oracle = move |plaintext: &[u8]| -> (c: Vec<u8>)
        requires
            plaintext@.len() <= MAX_HIDDEN,
        ensures
            ecb_encrypts(key@, pkcs7_pad(plaintext@ + unknown@, 16), c@),
        { aes_ecb_oracle(plaintext, unknown.as_slice(), key.as_slice()) };
    proof {
        assert forall|x: &[u8], c: Vec<u8>| #[trigger] call_ensures(oracle, (x,), c) implies ecb_encrypts(
            k,
            pkcs7_pad(Seq::empty() + x@ + u, 16),
            c@,
        ) by {
            assert(Seq::empty() + x@ + u =~= x@ + u);
        }
        assert(is_ecb_oracle(oracle, k, Seq::empty(), u));
    }
    oracle
}

/// An ECB oracle under a fresh random key that puts a fixed random prefix of
/// 0 to 64 bytes before what it is given and `unknown_string` after it.
pub fn gen_aes_ecb_oracle_padded(unknown_string: &[u8]) -> (r: impl Fn(&[u8]) -> Vec<u8>)
    requires
        unknown_string@.len() <= MAX_HIDDEN,
    ensures
        forall|x: &[u8]| x@.len() <= MAX_HIDDEN ==> #[trigger] call_requires(r, (x,)),
        exists|key: Seq<u8>, prefix: Seq<u8>|
            key.len() == 16 && prefix.len() <= 64 && is_ecb_oracle(r, key, prefix, unknown_string@),
{
    let key = random_bytes(16);
    let prefix_len = random_between(0, 64);
    let prefix = random_bytes(prefix_len);
    let unknown = copy_range(unknown_string, 0, unknown_string.len());
    assert(unknown_string@.subrange(0, unknown_string@.len() as int) =~= unknown_string@);
    let ghost k = key@;
    let ghost pre = prefix@;
    let ghost u = unknown@;
    let oracle = move |plaintext: &[u8]| -> (c: Vec<u8>)
        requires
            plaintext@.len() <= MAX_HIDDEN,
        ensures
            ecb_encrypts(key@, pkcs7_pad(prefix@ + plaintext@ + unknown@, 16), c@),
        {
            let mut input = copy_range(prefix.as_slice(), 0, prefix.len());
            append_range(&mut input, plaintext, 0, plaintext.len());
            assert(input@ =~= prefix@ + plaintext@);
            aes_ecb_oracle(input.as_slice(), unknown.as_slice(), key.as_slice())
        };
    assert(is_ecb_oracle(oracle, k, pre, u));
    oracle
}

/// A ciphertext of `plaintext` under a fresh random key and IV, that IV, and a
/// padding oracle for the same key and IV: it tells whether a ciphertext
/// decrypts to whole blocks ending in valid padding.
pub fn gen_aes_cbc_padding_oracle(plaintext: &[u8]) -> (r: (Vec<u8>, Vec<u8>, impl Fn(&[u8]) -> bool))
    requires
        plaintext@.len() <= MAX_HIDDEN,
    ensures
        r.1@.len() == 16,
        forall|c: &[u8]| c@.len() <= MAX_MESSAGE ==> #[trigger] call_requires(r.2, (c,)),
        exists|key: Seq<u8>|
            key.len() == 16 && is_padding_oracle(r.2, key, r.1@) && cbc_encrypts(
                key,
                r.1@,
                pkcs7_pad(plaintext@, 16),
                r.0@,
            ),
{
    let key = random_bytes(16);
    let iv = random_bytes(16);
    let ciphertext = match encrypt_aes_cbc(plaintext, key.as_slice(), iv.as_slice()) {
        Ok(c) => c,
        Err(_) => Vec::new(),
    };
    let iv_out = copy_range(iv.as_slice(), 0, 16);
    assert(iv@.subrange(0, 16) =~= iv@);
    let ghost k = key@;
    let oracle = move |c: &[u8]| -> (valid: bool)
        requires
            c@.len() <= MAX_MESSAGE,
        ensures
            valid == (c@.len() % 16 == 0 && pkcs7_valid(cbc_decrypt_spec(key@, iv@, c@))),
        {
            match decrypt_aes_cbc(c, key.as_slice(), iv.as_slice()) {
                Ok(_) => true,
                Err(_) => false,
            }
        };
    assert(is_padding_oracle(oracle, k, iv_out@));
    (ciphertext, iv_out, oracle)
}

/// `oracle` answers every plaintext with its ECB encryption under `key`, after
/// PKCS#7 padding.
pub open spec fn is_ecb_encrypt_oracle<F: Fn(&[u8]) -> Vec<u8>>(oracle: F, key: Seq<u8>) -> bool {
    forall|x: &[u8], c: Vec<u8>|
        #[trigger] call_ensures(oracle, (x,), c) ==> ecb_encrypts(key, pkcs7_pad(x@, 16), c@)
}

/// `oracle` answers every ciphertext as `decrypt_aes_ecb` does under `key`:
/// its block-wise decryption with the padding left in place, or
/// `MalformedInput` for a ciphertext that is not whole blocks.
pub open spec fn is_ecb_decrypt_oracle<G: Fn(&[u8]) -> Result<Vec<u8>, CryptoError>>(
    oracle: G,
    key: Seq<u8>,
) -> bool {
    forall|x: &[u8], d: Result<Vec<u8>, CryptoError>|
        #[trigger] call_ensures(oracle, (x,), d) ==> if x@.len() % 16 == 0 {
            d is Ok && d->Ok_0@ == ecb_decrypt_spec(key, x@)
        } else {
            d == Err::<Vec<u8>, CryptoError>(CryptoError::MalformedInput)
        }
}

/// An ECB encryption oracle and the matching decryption oracle, sharing a
/// fresh random key. Decryption leaves the padding in place.
pub fn gen_aes_ecb_encrypt_decrypt_oracles() -> (r: (
    impl Fn(&[u8]) -> Vec<u8>,
    impl Fn(&[u8]) -> Result<Vec<u8>, CryptoError>,
))
    ensures
        forall|x: &[u8]| x@.len() <= MAX_HIDDEN ==> #[trigger] call_requires(r.0, (x,)),
        forall|x: &[u8]| x@.len() <= MAX_HIDDEN ==> #[trigger] call_requires(r.1, (x,)),
        exists|key: Seq<u8>|
            key.len() == 16 && is_ecb_encrypt_oracle(r.0, key) && #[trigger] is_ecb_decrypt_oracle(
                r.1,
                key,
            ),
{
    let key = random_bytes(16);
    let key2 = copy_range(key.as_slice(), 0, 16);
    assert(key@.subrange(0, 16) =~= key@);
    let ghost k = key@;
    let encrypt = move |plaintext: &[u8]| -> (c: Vec<u8>)
        requires
            plaintext@.len() <= MAX_HIDDEN,
        ensures
            ecb_encrypts(key@, pkcs7_pad(plaintext@, 16), c@),
        { encrypt_aes_ecb(plaintext, key.as_slice()) };
    let decrypt = move |ciphertext: &[u8]| -> (d: Result<Vec<u8>, CryptoError>)
        requires
            ciphertext@.len() <= MAX_HIDDEN,
        ensures
            if ciphertext@.len() % 16 == 0 {
                d is Ok && d->Ok_0@ == ecb_decrypt_spec(key2@, ciphertext@)
            } else {
                d == Err::<Vec<u8>, CryptoError>(CryptoError::MalformedInput)
            },
        { decrypt_aes_ecb(ciphertext, key2.as_slice()) };
    let r = (encrypt, decrypt);
    assert(is_ecb_encrypt_oracle(r.0, k));
    assert(is_ecb_decrypt_oracle(r.1, k));
    r
}

/// `oracle` answers every plaintext with its CBC encryption under `key` and
/// `iv`, after PKCS#7 padding.
pub open spec fn is_cbc_encrypt_oracle<F: Fn(&[u8]) -> Vec<u8>>(
    oracle: F,
    key: Seq<u8>,
    iv: Seq<u8>,
) -> bool {
    forall|x: &[u8], c: Vec<u8>|
        #[trigger] call_ensures(oracle, (x,), c) ==> cbc_encrypts(key, iv, pkcs7_pad(x@, 16), c@)
}

/// `oracle` answers every ciphertext as `decrypt_aes_cbc` does under `key` and
/// `iv`: its plaintext with the padding stripped, or the error.
pub open spec fn is_cbc_decrypt_oracle<G: Fn(&[u8]) -> Result<Vec<u8>, CryptoError>>(
    oracle: G,
    key: Seq<u8>,
    iv: Seq<u8>,
) -> bool {
    forall|x: &[u8], d: Result<Vec<u8>, CryptoError>|
        #[trigger] call_ensures(oracle, (x,), d) ==> if x@.len() % 16 != 0 {
            d == Err::<Vec<u8>, CryptoError>(CryptoError::MalformedInput)
        } else {
            match pkcs7_strip(cbc_decrypt_spec(key, iv, x@)) {
                Some(m) => d is Ok && d->Ok_0@ == m,
                None => d == Err::<Vec<u8>, CryptoError>(CryptoError::InvalidPadding),
            }
        }
}

/// A CBC encryption oracle and the matching decryption oracle (which strips
/// the padding), sharing a fresh random key and IV.
pub fn gen_aes_cbc_encrypt_decrypt_oracles() -> (r: (
    impl Fn(&[u8]) -> Vec<u8>,
    impl Fn(&[u8]) -> Result<Vec<u8>, CryptoError>,
))
    ensures
        forall|x: &[u8]| x@.len() <= MAX_HIDDEN ==> #[trigger] call_requires(r.0, (x,)),
        forall|x: &[u8]| x@.len() <= MAX_HIDDEN ==> #[trigger] call_requires(r.1, (x,)),
        exists|key: Seq<u8>, iv: Seq<u8>|
            key.len() == 16 && iv.len() == 16 && is_cbc_encrypt_oracle(r.0, key, iv)
                && #[trigger] is_cbc_decrypt_oracle(r.1, key, iv),
{
    let key = random_bytes(16);
    let iv = random_bytes(16);
    let key2 = copy_range(key.as_slice(), 0, 16);
    let iv2 = copy_range(iv.as_slice(), 0, 16);
    assert(key@.subrange(0, 16) =~= key@);
    assert(iv@.subrange(0, 16) =~= iv@);
    let encrypt = move |plaintext: &[u8]| -> (c: Vec<u8>)
        requires
            plaintext@.len() <= MAX_HIDDEN,
        ensures
            cbc_encrypts(key@, iv@, pkcs7_pad(plaintext@, 16), c@),
        {
            match encrypt_aes_cbc(plaintext, key.as_slice(), iv.as_slice()) {
                Ok(c) => c,
                Err(_) => Vec::new(),
            }
        };
    let decrypt = move |ciphertext: &[u8]| -> (d: Result<Vec<u8>, CryptoError>)
        requires
            ciphertext@.len() <= MAX_HIDDEN,
        ensures
            if ciphertext@.len() % 16 != 0 {
                d == Err::<Vec<u8>, CryptoError>(CryptoError::MalformedInput)
            } else {
                match pkcs7_strip(cbc_decrypt_spec(key2@, iv2@, ciphertext@)) {
                    Some(m) => d is Ok && d->Ok_0@ == m,
                    None => d == Err::<Vec<u8>, CryptoError>(CryptoError::InvalidPadding),
                }
            },
        { decrypt_aes_cbc(ciphertext, key2.as_slice(), iv2.as_slice()) };
    let r = (encrypt, decrypt);
    assert(is_cbc_encrypt_oracle(r.0, key@, iv@));
    assert(is_cbc_decrypt_oracle(r.1, key@, iv@));
    r
}

/// Which mode an encryption used.
#[derive(Debug, Clone, Copy, PartialEq, Eq, Structural)]
pub enum CipherMode {
    Ecb,
    Cbc,
}

/// Encrypts `bytes` between 5 to 10 random bytes before and 5 to 10 after,
/// under a fresh random key, in ECB or (with a random IV) CBC mode, chosen at
/// random; the mode is returned along with the ciphertext.
pub fn random_aes_mode_oracle(bytes: &[u8]) -> (r: (CipherMode, Vec<u8>))
    requires
        bytes@.len() <= MAX_HIDDEN,
    ensures
        r.0 == CipherMode::Ecb ==> exists|key: Seq<u8>, before: Seq<u8>, after: Seq<u8>|
            key.len() == 16 && 5 <= before.len() <= 10 && 5 <= after.len() <= 10
                && #[trigger] ecb_encrypts(key, pkcs7_pad(before + bytes@ + after, 16), r.1@),
        r.0 == CipherMode::Cbc ==> exists|key: Seq<u8>, iv: Seq<u8>, before: Seq<u8>, after: Seq<u8>|
            key.len() == 16 && iv.len() == 16 && 5 <= before.len() <= 10 && 5 <= after.len() <= 10
                && #[trigger] cbc_encrypts(key, iv, pkcs7_pad(before + bytes@ + after, 16), r.1@),
{
    let key = random_bytes(16);
    let before_len = random_between(5, 10);
    let before = random_bytes(before_len);
    let after_len = random_between(5, 10);
    let after = random_bytes(after_len);
    let mut modified = copy_range(before.as_slice(), 0, before_len);
    append_range(&mut modified, bytes, 0, bytes.len());
    append_range(&mut modified, after.as_slice(), 0, after_len);
    assert(modified@ =~= before@ + bytes@ + after@);
    if random_bool() {
        let encrypted = encrypt_aes_ecb(modified.as_slice(), key.as_slice());
        let r = (CipherMode::Ecb, encrypted);
        assert(ecb_encrypts(key@, pkcs7_pad(before@ + bytes@ + after@, 16), r.1@));
        r
    } else {
        let iv = random_bytes(16);
        let encrypted = match encrypt_aes_cbc(modified.as_slice(), key.as_slice(), iv.as_slice()) {
            Ok(c) => c,
            Err(_) => Vec::new(),
        };
        let r = (CipherMode::Cbc, encrypted);
        assert(cbc_encrypts(key@, iv@, pkcs7_pad(before@ + bytes@ + after@, 16), r.1@));
        r
    }
}

/// Each plaintext encrypted in CTR mode under one fresh random key and the
/// same 8-byte `nonce` (a deliberate reuse). Fails with `MalformedInput`
/// unless the nonce is 8 bytes long.
pub fn encrypt_fixed_nonce_ctr(plaintexts: &[Vec<u8>], nonce: &[u8]) -> (r: Result<
    Vec<Vec<u8>>,
    CryptoError,
>)
    ensures
        nonce@.len() != 8 ==> r == Err::<Vec<Vec<u8>>, CryptoError>(CryptoError::MalformedInput),
        nonce@.len() == 8 ==> r is Ok && r->Ok_0@.len() == plaintexts@.len() && exists|key: Seq<u8>|
            key.len() == 16 && forall|i: int|
                0 <= i < plaintexts@.len() ==> #[trigger] r->Ok_0@[i]@ == ctr_spec(
                    key,
                    nonce@,
                    plaintexts@[i]@,
                ),
{
    if nonce.len() != 8 {
        return Err(CryptoError::MalformedInput);
    }
    let key = random_bytes(16);
    let mut out: Vec<Vec<u8>> = Vec::with_capacity(plaintexts.len());
    let mut i: usize = 0;
    while i < plaintexts.len()
        invariant
            key@.len() == 16,
            nonce@.len() == 8,
            i <= plaintexts@.len(),
            out@.len() == i,
            forall|j: int|
                0 <= j < i ==> #[trigger] out@[j]@ == ctr_spec(key@, nonce@, plaintexts@[j]@),
        decreases plaintexts@.len() - i,
    {
        match encrypt_aes_ctr(plaintexts[i].as_slice(), key.as_slice(), nonce) {
            Ok(c) => out.push(c),
            Err(e) => {
                return Err(e);
            },
        }
        i += 1;
    }
    Ok(out)
}

} // verus!
