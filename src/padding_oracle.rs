use vstd::prelude::*;

use crate::bytes::{append_range, block_at, copy_range};
use crate::cbc::cbc_decrypt_spec;
use crate::cipher::{aes128_decrypt, ecb_decrypt_spec};
use crate::error::CryptoError;
use crate::pkcs7::{pkcs7_strip, pkcs7_valid, strip_pkcs7};

verus! {

/// `oracle` tells, for every ciphertext, whether its CBC decryption under
/// `key` and the 16-byte `iv` is made of whole blocks ending in valid padding.
pub open spec fn is_padding_oracle<F: Fn(&[u8]) -> bool>(
    oracle: F,
    key: Seq<u8>,
    iv: Seq<u8>,
) -> bool {
    &&& iv.len() == 16
    &&& forall|c: &[u8], b: bool|
        #[trigger] call_ensures(oracle, (c,), b) ==> (b <==> c@.len() % 16 == 0 && pkcs7_valid(
            cbc_decrypt_spec(key, iv, c@),
        ))
}

/// `oracle` never reports valid padding.
pub open spec fn never_valid<F: Fn(&[u8]) -> bool>(oracle: F) -> bool {
    forall|c: &[u8], b: bool| #[trigger] call_ensures(oracle, (c,), b) ==> !b
}

/// A query of the attack on `ciphertext`: a 16-byte block of its own choice
/// followed by one of the ciphertext's blocks.
pub open spec fn is_probe(query: Seq<u8>, ciphertext: Seq<u8>) -> bool {
    &&& query.len() == 32
    &&& exists|i: int|
        0 <= i < ciphertext.len() / 16 && query.subrange(16, 32) == #[trigger] block_at(
            ciphertext,
            i,
        )
}

proof fn lemma_xor_facts(d: u8, z: u8, n: u8)
    ensures
        d ^ (d ^ n) == n,
        (d ^ z == n) <==> (z == d ^ n),
        d ^ (z ^ 1u8) == (d ^ z) ^ 1u8,
        (d ^ z) ^ 1u8 != d ^ z,
{
    assert(d ^ (d ^ n) == n) by (bit_vector);
    assert((d ^ z == n) <==> (z == d ^ n)) by (bit_vector);
    assert(d ^ (z ^ 1u8) == (d ^ z) ^ 1u8) by (bit_vector);
    assert((d ^ z) ^ 1u8 != d ^ z) by (bit_vector);
}

/// The second block of the CBC decryption of `z ++ c` is the decryption of
/// `c` exclusive-or'ed with `z`.
proof fn lemma_two_block_decrypt(key: Seq<u8>, iv: Seq<u8>, z: Seq<u8>, c: Seq<u8>, t: int)
    requires
        iv.len() == 16,
        z.len() == 16,
        c.len() == 16,
        0 <= t < 16,
    ensures
        cbc_decrypt_spec(key, iv, z + c).len() == 32,
        cbc_decrypt_spec(key, iv, z + c)[16 + t] == aes128_decrypt(key, c)[t] ^ z[t],
{
    crate::bytes::lemma_block_index(1, t);
    assert(crate::bytes::block_at(z + c, 1) =~= c);
    assert(ecb_decrypt_spec(key, z + c)[16 + t] == aes128_decrypt(key, c)[t]);
}

/// With the bytes after position `p` of `z` set so that the decrypted block
/// ends in `16 - p` bytes of value `16 - p`, a query `z ++ c` with `z[p] == b`
/// passes (and, for `p > 0`, passes again with bit 0 of `z[p - 1]` flipped)
/// exactly when the decrypted byte at `p` is `16 - p` too.
proof fn lemma_padding_query(
    key: Seq<u8>,
    iv: Seq<u8>,
    z: Seq<u8>,
    c: Seq<u8>,
    p: int,
)
    requires
        iv.len() == 16,
        z.len() == 16,
        c.len() == 16,
        0 <= p < 16,
        forall|j: int| p < j < 16 ==> z[j] == aes128_decrypt(key, c)[j] ^ ((16 - p) as u8),
    ensures
        ({
            let valid = pkcs7_valid(cbc_decrypt_spec(key, iv, z + c));
            let flipped = if p > 0 {
                pkcs7_valid(cbc_decrypt_spec(key, iv, z.update(p - 1, z[p - 1] ^ 1u8) + c))
            } else {
                true
            };
            (valid && flipped) <==> aes128_decrypt(key, c)[p] ^ z[p] == (16 - p) as u8
        }),
{
    let d = aes128_decrypt(key, c);
    let s = cbc_decrypt_spec(key, iv, z + c);
    let n = (16 - p) as u8;
    assert forall|t: int| 0 <= t < 16 implies s[16 + t] == d[t] ^ z[t] by {
        lemma_two_block_decrypt(key, iv, z, c, t);
    }
    lemma_two_block_decrypt(key, iv, z, c, 0);
    assert forall|i: int| 16 + p < i < 32 implies s[i] == n by {
        lemma_two_block_decrypt(key, iv, z, c, i - 16);
        lemma_xor_facts(d[i - 16], d[i - 16] ^ n, n);
    }
    if p > 0 {
        let z2 = z.update(p - 1, z[p - 1] ^ 1u8);
        let s2 = cbc_decrypt_spec(key, iv, z2 + c);
        assert forall|t: int| 0 <= t < 16 implies s2[16 + t] == d[t] ^ z2[t] by {
            lemma_two_block_decrypt(key, iv, z2, c, t);
        }
        lemma_two_block_decrypt(key, iv, z2, c, 0);
        if p < 15 {
            assert(s.last() == n);
            assert(s2.last() == n);
            if d[p] ^ z[p] == n {
                assert(pkcs7_valid(s));
                assert(pkcs7_valid(s2));
            } else {
                assert(s[16 + p] != n);
            }
        } else {
            let m = d[15] ^ z[15];
            assert(s.last() == m);
            assert(s2.last() == m);
            lemma_xor_facts(d[14], z[14], m);
            if m == 1 {
                assert(pkcs7_valid(s));
                assert(pkcs7_valid(s2));
            } else if m >= 2 && pkcs7_valid(s) {
                assert(s[30] == m);
                assert(s2[30] == s[30] ^ 1u8);
            }
        }
    } else {
        assert(s.last() == 16);
        if d[0] ^ z[0] == n {
            assert(pkcs7_valid(s));
        } else {
            assert(s[16] != n);
        }
    }
}

/// The value of byte `p` of `z` for which the query `z ++ block` shows the
/// decrypted block ending in `16 - p` bytes of value `16 - p`; for `p > 0`
/// a candidate counts only if it passes again with bit 0 of `z[p - 1]`
/// flipped, which rules out a longer padding that happened to be valid.
fn search_byte(oracle: &impl Fn(&[u8]) -> bool, z: &Vec<u8>, block: &[u8], p: usize) -> (r: Result<
    u8,
    CryptoError,
>)
    requires
        z@.len() == 16,
        block@.len() == 16,
        p < 16,
        forall|c: &[u8]| c@.len() == 32 && c@.subrange(16, 32) == block@ ==> #[trigger] call_requires(*oracle, (c,)),
        forall|key: Seq<u8>, iv: Seq<u8>|
            #[trigger] is_padding_oracle(*oracle, key, iv) ==> forall|j: int|
                p < j < 16 ==> #[trigger] z@[j] == aes128_decrypt(key, block@)[j] ^ ((16 - p) as u8),
    ensures
        forall|key: Seq<u8>, iv: Seq<u8>|
            #[trigger] is_padding_oracle(*oracle, key, iv) ==> r is Ok && aes128_decrypt(
                key,
                block@,
            )[p as int] ^ r->Ok_0 == (16 - p) as u8,
        never_valid(*oracle) ==> r == Err::<u8, CryptoError>(CryptoError::OracleContractViolated),
{
    let n: u8 = (16 - p) as u8;
    let mut b: u16 = 0;
    while b < 256
        invariant
            p < 16,
            n == 16 - p,
            z@.len() == 16,
            block@.len() == 16,
            forall|c: &[u8]| c@.len() == 32 && c@.subrange(16, 32) == block@ ==> #[trigger] call_requires(*oracle, (c,)),
            forall|key: Seq<u8>, iv: Seq<u8>|
                #[trigger] is_padding_oracle(*oracle, key, iv) ==> {
                    &&& forall|j: int|
                        p < j < 16 ==> #[trigger] z@[j] == aes128_decrypt(key, block@)[j] ^ n
                    &&& b <= (aes128_decrypt(key, block@)[p as int] ^ n) as u16
                },
            b <= 256,
        decreases 256 - b,
    {
        let mut candidate = copy_range(z.as_slice(), 0, 16);
        candidate.set(p, b as u8);
        let mut query = copy_range(candidate.as_slice(), 0, 16);
        append_range(&mut query, block, 0, 16);
        let qs = query.as_slice();
        assert(qs@.subrange(16, 32) =~= block@);
        let valid = oracle(qs);
        assert(call_ensures(*oracle, (qs,), valid));
        let mut flipped = true;
        if valid && p > 0 {
            let mut flipped_query = copy_range(qs, 0, 32);
            let v = flipped_query[p - 1] ^ 1;
            flipped_query.set(p - 1, v);
            let fs = flipped_query.as_slice();
            assert(fs@ =~= candidate@.update(p - 1, candidate@[p - 1] ^ 1u8) + block@);
            assert(fs@.subrange(16, 32) =~= block@);
            flipped = oracle(fs);
            proof {
                assert(call_ensures(*oracle, (fs,), flipped));
            }
        }
        proof {
            assert(z@.subrange(0, 16) =~= z@);
            assert(candidate@.subrange(0, 16) =~= candidate@);
            assert(block@.subrange(0, 16) =~= block@);
            assert(qs@.subrange(0, 32) =~= qs@);
            assert forall|key: Seq<u8>, iv: Seq<u8>|
                #[trigger] is_padding_oracle(*oracle, key, iv) implies ((valid && flipped) <==> (
                aes128_decrypt(key, block@)[p as int] ^ (b as u8) == n)) by {
                assert(call_ensures(*oracle, (qs,), valid));
                assert(forall|j: int| p < j < 16 ==> candidate@[j] == z@[j]);
                lemma_padding_query(key, iv, candidate@, block@, p as int);
            }
        }
        if valid && flipped {
            return Ok(b as u8);
        }
        proof {
            assert forall|key: Seq<u8>, iv: Seq<u8>|
                #[trigger] is_padding_oracle(*oracle, key, iv) implies b + 1 <= (aes128_decrypt(
                key,
                block@,
            )[p as int] ^ n) as u16 by {
                lemma_xor_facts(aes128_decrypt(key, block@)[p as int], b as u8, n);
            }
        }
        b += 1;
    }
    Err(CryptoError::OracleContractViolated)
}

/// The decryption of one ciphertext `block` before chaining (its intermediate
/// state), found byte by byte from the last with padding-oracle queries
/// `z ++ block`, where `z` starts as the block before it. After byte `p` is
/// found, the bytes from `p` on are set to give padding one longer.
fn solve_block(oracle: &impl Fn(&[u8]) -> bool, prev: &[u8], block: &[u8]) -> (r: Result<
    Vec<u8>,
    CryptoError,
>)
    requires
        prev@.len() == 16,
        block@.len() == 16,
        forall|c: &[u8]| c@.len() == 32 && c@.subrange(16, 32) == block@ ==> #[trigger] call_requires(*oracle, (c,)),
    ensures
        r is Ok ==> r->Ok_0@.len() == 16,
        forall|key: Seq<u8>, iv: Seq<u8>|
            #[trigger] is_padding_oracle(*oracle, key, iv) ==> r is Ok && forall|t: int|
                0 <= t < 16 ==> #[trigger] r->Ok_0@[t] == aes128_decrypt(key, block@)[t],
        never_valid(*oracle) ==> r == Err::<Vec<u8>, CryptoError>(
            CryptoError::OracleContractViolated,
        ),
{
    let mut z = copy_range(prev, 0, 16);
    let mut inter = crate::bytes::repeat(0, 16);
    let mut i: usize = 16;
    while i > 0
        invariant
            i <= 16,
            never_valid(*oracle) ==> i == 16,
            z@.len() == 16,
            inter@.len() == 16,
            block@.len() == 16,
            forall|c: &[u8]| c@.len() == 32 && c@.subrange(16, 32) == block@ ==> #[trigger] call_requires(*oracle, (c,)),
            forall|j: int| i <= j < 16 ==> z@[j] == #[trigger] inter@[j] ^ ((17 - i) as u8),
            forall|key: Seq<u8>, iv: Seq<u8>|
                #[trigger] is_padding_oracle(*oracle, key, iv) ==> forall|j: int|
                    i <= j < 16 ==> #[trigger] inter@[j] == aes128_decrypt(key, block@)[j],
        decreases i,
    {
        let p = i - 1;
        let n: u8 = (16 - p) as u8;
        proof {
            assert forall|key: Seq<u8>, iv: Seq<u8>|
                #[trigger] is_padding_oracle(*oracle, key, iv) implies forall|j: int|
                p < j < 16 ==> #[trigger] z@[j] == aes128_decrypt(key, block@)[j] ^ n by {
                assert forall|j: int| p < j < 16 implies #[trigger] z@[j] == aes128_decrypt(
                    key,
                    block@,
                )[j] ^ n by {
                    assert(inter@[j] == aes128_decrypt(key, block@)[j]);
                }
            }
        }
        let b = match search_byte(oracle, &z, block, p) {
            Ok(b) => b,
            Err(e) => {
                return Err(e);
            },
        };
        inter.set(p, b ^ n);
        proof {
            assert forall|key: Seq<u8>, iv: Seq<u8>|
                #[trigger] is_padding_oracle(*oracle, key, iv) implies forall|j: int|
                p <= j < 16 ==> #[trigger] inter@[j] == aes128_decrypt(key, block@)[j] by {
                lemma_xor_facts(aes128_decrypt(key, block@)[p as int], b, n);
                assert((b ^ n) == aes128_decrypt(key, block@)[p as int]) by {
                    let d = aes128_decrypt(key, block@)[p as int];
                    assert(d ^ b == n ==> b ^ n == d) by (bit_vector);
                }
            }
        }
        let mut j: usize = p;
        while j < 16
            invariant
                p < 16,
                p <= j <= 16,
                n == 16 - p,
                z@.len() == 16,
                inter@.len() == 16,
                forall|t: int| p <= t < j ==> z@[t] == #[trigger] inter@[t] ^ (n + 1) as u8,
            decreases 16 - j,
        {
            let v = inter[j] ^ (n + 1);
            z.set(j, v);
            j += 1;
        }
        i -= 1;
    }
    Ok(inter)
}

/// CBC padding-oracle attack: recovers the plaintext of `ciphertext`
/// (encrypted with `iv`) from nothing but a padding-validity oracle, block by
/// block, and strips its padding. For every oracle that reports padding
/// validity under a fixed key, the result is the CBC decryption of the
/// ciphertext with its padding stripped (`InvalidPadding` where that padding is
/// invalid). Fails first with `MalformedInput` unless the IV is 16 bytes and the
/// ciphertext whole blocks.
pub fn cbc_padding_oracle_attack(ciphertext: &[u8], iv: &[u8], oracle: impl Fn(&[u8]) -> bool) -> (r:
    Result<Vec<u8>, CryptoError>)
    requires
        forall|c: &[u8]| is_probe(c@, ciphertext@) ==> #[trigger] call_requires(oracle, (c,)),
    ensures
        ciphertext@.len() >= 16 && ciphertext@.len() % 16 == 0 && iv@.len() == 16 && never_valid(
            oracle,
        ) ==> r == Err::<Vec<u8>, CryptoError>(CryptoError::OracleContractViolated),
        ciphertext@.len() % 16 != 0 || iv@.len() != 16 ==> r == Err::<Vec<u8>, CryptoError>(
            CryptoError::MalformedInput,
        ),
        ciphertext@.len() % 16 == 0 && iv@.len() == 16 ==> forall|key: Seq<u8>, oracle_iv: Seq<u8>|
            #[trigger] is_padding_oracle(oracle, key, oracle_iv) ==> match pkcs7_strip(
                cbc_decrypt_spec(key, iv@, ciphertext@),
            ) {
                Some(m) => r is Ok && r->Ok_0@ == m,
                None => r == Err::<Vec<u8>, CryptoError>(CryptoError::InvalidPadding),
            },
{
    if ciphertext.len() % 16 != 0 || iv.len() != 16 {
        return Err(CryptoError::MalformedInput);
    }
    let clen = ciphertext.len();
    let n = clen / 16;
    let mut plaintext: Vec<u8> = Vec::with_capacity(clen);
    let mut i: usize = 0;
    while i < n
        invariant
            clen == ciphertext@.len(),
            n == ciphertext@.len() / 16,
            ciphertext@.len() % 16 == 0,
            iv@.len() == 16,
            i <= n,
            plaintext@.len() == 16 * i,
            never_valid(oracle) ==> i == 0,
            forall|c: &[u8]| is_probe(c@, ciphertext@) ==> #[trigger] call_requires(oracle, (c,)),
            forall|key: Seq<u8>, oracle_iv: Seq<u8>|
                #[trigger] is_padding_oracle(oracle, key, oracle_iv) ==> forall|j: int|
                    0 <= j < plaintext@.len() ==> #[trigger] plaintext@[j] == cbc_decrypt_spec(
                        key,
                        iv@,
                        ciphertext@,
                    )[j],
        decreases n - i,
    {
        let prev = if i == 0 {
            copy_range(iv, 0, 16)
        } else {
            copy_range(ciphertext, 16 * i - 16, 16 * i)
        };
        let block = copy_range(ciphertext, 16 * i, 16 * i + 16);
        proof {
            assert(block@ == block_at(ciphertext@, i as int));
            assert forall|c: &[u8]|
                c@.len() == 32 && c@.subrange(16, 32) == block@ implies #[trigger] call_requires(
                oracle,
                (c,),
            ) by {
                assert(is_probe(c@, ciphertext@));
            }
        }
        let inter = match solve_block(&oracle, prev.as_slice(), block.as_slice()) {
            Ok(v) => v,
            Err(e) => {
                return Err(e);
            },
        };
        let decrypted = crate::xor::xor(inter.as_slice(), prev.as_slice());
        let ghost before = plaintext@;
        append_range(&mut plaintext, decrypted.as_slice(), 0, 16);
        proof {
            assert(decrypted@.subrange(0, 16) =~= decrypted@);
            assert(block@ == crate::bytes::block_at(ciphertext@, i as int));
            assert forall|key: Seq<u8>, oracle_iv: Seq<u8>|
                #[trigger] is_padding_oracle(oracle, key, oracle_iv) implies forall|j: int|
                0 <= j < plaintext@.len() ==> #[trigger] plaintext@[j] == cbc_decrypt_spec(
                key,
                iv@,
                ciphertext@,
            )[j] by {
                assert forall|j: int| 0 <= j < plaintext@.len() implies #[trigger] plaintext@[j]
                    == cbc_decrypt_spec(key, iv@, ciphertext@)[j] by {
                    if j < 16 * i {
                        assert(plaintext@[j] == before[j]);
                    } else {
                        let t = j - 16 * i;
                        crate::bytes::lemma_block_index(i as int, t);
                        assert(inter@[t] == aes128_decrypt(key, block@)[t]);
                        assert(ecb_decrypt_spec(key, ciphertext@)[j] == aes128_decrypt(
                            key,
                            block@,
                        )[t]);
                        assert((iv@ + ciphertext@)[j] == prev@[t]);
                    }
                }
            }
        }
        i += 1;
    }
    proof {
        assert forall|key: Seq<u8>, oracle_iv: Seq<u8>|
            #[trigger] is_padding_oracle(oracle, key, oracle_iv) implies plaintext@
            == cbc_decrypt_spec(key, iv@, ciphertext@) by {
            assert(plaintext@ =~= cbc_decrypt_spec(key, iv@, ciphertext@));
        }
    }
    strip_pkcs7(plaintext.as_slice())
}

} // verus!
