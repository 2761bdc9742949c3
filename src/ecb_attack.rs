use vstd::prelude::*;

use crate::bytes::{block_at, ranges_equal, repeat, repeat_byte};
use crate::cipher::ecb_encrypts;
use crate::error::CryptoError;
use crate::oracles::MAX_HIDDEN;
use crate::pkcs7::pkcs7_pad;

verus! {

/// `oracle` answers every query `x` with the ECB encryption under `key` of
/// `prefix ++ x ++ suffix`, PKCS#7-padded to 16-byte blocks.
pub open spec fn is_ecb_oracle<F: Fn(&[u8]) -> Vec<u8>>(
    oracle: F,
    key: Seq<u8>,
    prefix: Seq<u8>,
    suffix: Seq<u8>,
) -> bool {
    forall|x: &[u8], r: Vec<u8>|
        #[trigger] call_ensures(oracle, (x,), r) ==> ecb_encrypts(
            key,
            pkcs7_pad(prefix + x@ + suffix, 16),
            r@,
        )
}

/// `answer`, the answer to a query of `k + 32` zero bytes, shows blocks
/// `q + 1` and `q + 2` equal: the repetition that confirms ECB after a prefix
/// ending in block `q`.
pub open spec fn confirms_ecb(query: Seq<u8>, answer: Seq<u8>, q: int, k: int) -> bool {
    &&& 1 <= k <= 16
    &&& 0 <= q
    &&& query == repeat_byte(0, (k + 32) as nat)
    &&& 16 * q + 48 <= answer.len()
    &&& block_at(answer, q + 1) == block_at(answer, q + 2)
}

/// The detector's verdict on the answer to 48 zero bytes: blocks 1 and 2 of
/// the answer are present and equal.
pub open spec fn shows_repeated_block(answer: Seq<u8>) -> bool {
    answer.len() >= 48 && block_at(answer, 1) == block_at(answer, 2)
}

/// Mode detection: submits three blocks of zero bytes and reports ECB when
/// blocks 1 and 2 of the answer are identical, as only ECB makes them. Every
/// ECB oracle whose prefix is at most one block long is reported as ECB.
pub fn detect_aes_ecb_from_oracle(oracle: impl Fn(&[u8]) -> Vec<u8>) -> (r: bool)
    requires
        forall|x: &[u8]| x@.len() <= MAX_HIDDEN ==> #[trigger] call_requires(oracle, (x,)),
    ensures
        exists|x: &[u8], answer: Vec<u8>|
            #[trigger] call_ensures(oracle, (x,), answer) && x@ == repeat_byte(0, 48) && r
                == shows_repeated_block(answer@),
        forall|key: Seq<u8>, prefix: Seq<u8>, suffix: Seq<u8>|
            #[trigger] is_ecb_oracle(oracle, key, prefix, suffix) && prefix.len() <= 16 ==> r,
{
    let probe = repeat(0, 48);
    let ps = probe.as_slice();
    let answer = oracle(ps);
    let r = answer.len() >= 48 && ranges_equal(answer.as_slice(), 16, answer.as_slice(), 32, 16);
    proof {
        assert(call_ensures(oracle, (ps,), answer) && ps@ == repeat_byte(0, 48) && r
            == shows_repeated_block(answer@));
        assert forall|key: Seq<u8>, prefix: Seq<u8>, suffix: Seq<u8>|
            #[trigger] is_ecb_oracle(oracle, key, prefix, suffix) && prefix.len() <= 16 implies r by {
            let p = prefix + ps@ + suffix;
            let pp = pkcs7_pad(p, 16);
            lemma_pad_keeps(p, p);
            lemma_pad_len(p);
            assert(block_at(pp, 1) =~= repeat_byte(0, 16));
            assert(block_at(pp, 2) =~= repeat_byte(0, 16));
            assert(block_at(answer@, 1) == crate::cipher::aes128_encrypt(key, block_at(pp, 1)));
            assert(block_at(answer@, 2) == crate::cipher::aes128_encrypt(key, block_at(pp, 2)));
        }
    }
    r
}

/// The index of the first 16-byte block in which `a` and `b` differ, among the
/// blocks that both hold whole.
fn first_differing_block(a: &[u8], b: &[u8]) -> (r: Option<usize>)
    ensures
        match r {
            Some(d) => {
                &&& 16 * d + 16 <= a@.len()
                &&& 16 * d + 16 <= b@.len()
                &&& block_at(a@, d as int) != block_at(b@, d as int)
                &&& forall|e: int| 0 <= e < d ==> block_at(a@, e) == block_at(b@, e)
            },
            None => forall|e: int|
                0 <= e && 16 * e + 16 <= a@.len() && 16 * e + 16 <= b@.len() ==> block_at(a@, e)
                    == block_at(b@, e),
        },
{
    let alen = a.len();
    let blen = b.len();
    let n = if alen < blen { alen / 16 } else { blen / 16 };
    let mut d: usize = 0;
    while d < n
        invariant
            alen == a@.len(),
            blen == b@.len(),
            n == (if a@.len() < b@.len() { a@.len() / 16 } else { b@.len() / 16 }),
            d <= n,
            forall|e: int| 0 <= e < d ==> block_at(a@, e) == block_at(b@, e),
        decreases n - d,
    {
        if !ranges_equal(a, 16 * d, b, 16 * d, 16) {
            return Some(d);
        }
        d += 1;
    }
    None
}

/// Padding keeps the bytes it pads, and pads sequences of equal length alike.
proof fn lemma_pad_keeps(a: Seq<u8>, b: Seq<u8>)
    requires
        a.len() == b.len(),
    ensures
        pkcs7_pad(a, 16).len() == pkcs7_pad(b, 16).len(),
        forall|i: int| 0 <= i < a.len() ==> #[trigger] pkcs7_pad(a, 16)[i] == a[i],
        forall|i: int| 0 <= i < b.len() ==> #[trigger] pkcs7_pad(b, 16)[i] == b[i],
        forall|i: int|
            a.len() <= i < pkcs7_pad(a, 16).len() ==> #[trigger] pkcs7_pad(a, 16)[i] == pkcs7_pad(
                b,
                16,
            )[i],
{
}

/// Where two plaintexts of one length first differ at byte `j`, their ECB
/// encryptions agree on every block before block `j / 16` and differ on it.
proof fn lemma_first_difference(
    key: Seq<u8>,
    first: Seq<u8>,
    second: Seq<u8>,
    first_c: Seq<u8>,
    second_c: Seq<u8>,
    j: int,
)
    requires
        ecb_encrypts(key, first, first_c),
        ecb_encrypts(key, second, second_c),
        first.len() == second.len(),
        0 <= j < first.len(),
        forall|i: int| 0 <= i < j ==> first[i] == second[i],
        first[j] != second[j],
    ensures
        16 * (j / 16) + 16 <= first_c.len(),
        16 * (j / 16) + 16 <= second_c.len(),
        forall|b: int| 0 <= b < j / 16 ==> block_at(first_c, b) == block_at(second_c, b),
        block_at(first_c, j / 16) != block_at(second_c, j / 16),
{
    let jb = j / 16;
    assert forall|b: int| 0 <= b < jb implies block_at(first_c, b) == block_at(second_c, b) by {
        assert(block_at(first, b) =~= block_at(second, b));
        assert(block_at(first_c, b) == crate::cipher::aes128_encrypt(key, block_at(first, b)));
        assert(block_at(second_c, b) == crate::cipher::aes128_encrypt(key, block_at(second, b)));
    }
    assert(block_at(first, jb)[j - 16 * jb] != block_at(second, jb)[j - 16 * jb]);
    assert(crate::cipher::aes128_decrypt(key, block_at(first_c, jb)) == block_at(first, jb));
    assert(crate::cipher::aes128_decrypt(key, block_at(second_c, jb)) == block_at(second, jb));
}

/// The block index of the first byte after the prefix: the first block in
/// which the answers to the one-byte queries `[0]` and `[1]` differ.
fn locate_prefix_block(oracle: &impl Fn(&[u8]) -> Vec<u8>) -> (r: Result<usize, CryptoError>)
    requires
        forall|x: &[u8]| x@.len() <= MAX_HIDDEN ==> #[trigger] call_requires(*oracle, (x,)),
    ensures
        forall|key: Seq<u8>, prefix: Seq<u8>, suffix: Seq<u8>|
            #[trigger] is_ecb_oracle(*oracle, key, prefix, suffix) && suffix.len() + 32 <= MAX_HIDDEN ==> r is Ok && r->Ok_0
                == prefix.len() / 16,
{
    let zero = repeat(0, 1);
    let one = repeat(1, 1);
    let zs = zero.as_slice();
    let os = one.as_slice();
    let c0 = oracle(zs);
    let c1 = oracle(os);
    let r = match first_differing_block(c0.as_slice(), c1.as_slice()) {
        Some(d) => Ok(d),
        None => Err(CryptoError::OracleContractViolated),
    };
    proof {
        assert forall|key: Seq<u8>, prefix: Seq<u8>, suffix: Seq<u8>|
            #[trigger] is_ecb_oracle(*oracle, key, prefix, suffix) && suffix.len() + 32 <= MAX_HIDDEN implies r is Ok && r->Ok_0
                == prefix.len() / 16 by {
            let a = prefix + zero@ + suffix;
            let b = prefix + one@ + suffix;
            assert(call_ensures(*oracle, (zs,), c0));
            assert(call_ensures(*oracle, (os,), c1));
            lemma_pad_keeps(a, b);
            let j = prefix.len() as int;
            assert(a[j] == 0);
            assert(b[j] == 1);
            lemma_first_difference(key, pkcs7_pad(a, 16), pkcs7_pad(b, 16), c0@, c1@, j);
        }
    }
    r
}

/// PKCS#7 padding to 16-byte blocks ends on the next multiple of 16.
proof fn lemma_pad_len(s: Seq<u8>)
    ensures
        pkcs7_pad(s, 16).len() == 16 * (s.len() / 16) + 16,
{
}

/// The combined length of the oracle's hidden prefix and suffix: the number of
/// zero bytes that first makes the answer grow tells how far the unknown bytes
/// fall short of a block boundary. The growth must be one 16-byte block.
fn measure_hidden_length(oracle: &impl Fn(&[u8]) -> Vec<u8>) -> (r: Result<usize, CryptoError>)
    requires
        forall|x: &[u8]| x@.len() <= MAX_HIDDEN ==> #[trigger] call_requires(*oracle, (x,)),
    ensures
        forall|key: Seq<u8>, prefix: Seq<u8>, suffix: Seq<u8>|
            #[trigger] is_ecb_oracle(*oracle, key, prefix, suffix) && suffix.len() + 32 <= MAX_HIDDEN ==> r is Ok && r->Ok_0
                == prefix.len() + suffix.len(),
{
    let empty: Vec<u8> = Vec::new();
    let es = empty.as_slice();
    let base = oracle(es);
    proof {
        assert forall|key: Seq<u8>, prefix: Seq<u8>, suffix: Seq<u8>|
            #[trigger] is_ecb_oracle(*oracle, key, prefix, suffix) && suffix.len() + 32 <= MAX_HIDDEN implies base@.len() == 16 * (
            (prefix.len() + suffix.len()) / 16) + 16 by {
            assert(call_ensures(*oracle, (es,), base));
            assert(prefix + es@ + suffix =~= prefix + suffix);
            lemma_pad_len(prefix + suffix);
        }
    }
    let mut i: usize = 1;
    while i <= 16
        invariant
            1 <= i <= 17,
            forall|x: &[u8]| x@.len() <= MAX_HIDDEN ==> #[trigger] call_requires(*oracle, (x,)),
            forall|key: Seq<u8>, prefix: Seq<u8>, suffix: Seq<u8>|
                #[trigger] is_ecb_oracle(*oracle, key, prefix, suffix) && suffix.len() + 32 <= MAX_HIDDEN ==> {
                    &&& base@.len() == 16 * ((prefix.len() + suffix.len()) / 16) + 16
                    &&& (prefix.len() + suffix.len() + i - 1) / 16 == (prefix.len()
                        + suffix.len()) / 16
                },
        decreases 17 - i,
    {
        let probe = repeat(0, i);
        let ps = probe.as_slice();
        let c = oracle(ps);
        proof {
            assert forall|key: Seq<u8>, prefix: Seq<u8>, suffix: Seq<u8>|
                #[trigger] is_ecb_oracle(*oracle, key, prefix, suffix) && suffix.len() + 32 <= MAX_HIDDEN implies c@.len() == 16 * ((
            prefix.len() + suffix.len() + i) / 16) + 16 by {
                assert(call_ensures(*oracle, (ps,), c));
                lemma_pad_len(prefix + ps@ + suffix);
            }
        }
        if c.len() > base.len() {
            if c.len() - base.len() != 16 || base.len() < i {
                return Err(CryptoError::OracleContractViolated);
            }
            return Ok(base.len() - i);
        }
        i += 1;
    }
    Err(CryptoError::OracleContractViolated)
}

/// The number of filler bytes that brings the prefix up to a block boundary:
/// the smallest `k` in `1..=16` for which queries `0^k ++ [0]` and `0^k ++ [1]`
/// first differ after the prefix's last block. A query of `k + 32` zero bytes
/// must then show two equal blocks, as only ECB gives.
fn find_alignment(oracle: &impl Fn(&[u8]) -> Vec<u8>, q: usize) -> (r: Result<usize, CryptoError>)
    requires
        forall|x: &[u8]| x@.len() <= MAX_HIDDEN ==> #[trigger] call_requires(*oracle, (x,)),
        forall|key: Seq<u8>, prefix: Seq<u8>, suffix: Seq<u8>|
            #[trigger] is_ecb_oracle(*oracle, key, prefix, suffix) && suffix.len() + 32 <= MAX_HIDDEN ==> q == prefix.len() / 16,
    ensures
        r is Ok ==> 1 <= r->Ok_0 <= 16,
        r is Ok ==> exists|x: &[u8], answer: Vec<u8>|
            #[trigger] call_ensures(*oracle, (x,), answer) && confirms_ecb(
                x@,
                answer@,
                q as int,
                r->Ok_0 as int,
            ),
        forall|key: Seq<u8>, prefix: Seq<u8>, suffix: Seq<u8>|
            #[trigger] is_ecb_oracle(*oracle, key, prefix, suffix) && suffix.len() + 32 <= MAX_HIDDEN ==> r is Ok && r->Ok_0 == 16
                - prefix.len() % 16,
{
    let mut k: usize = 1;
    while k <= 16
        invariant
            1 <= k <= 17,
            forall|x: &[u8]| x@.len() <= MAX_HIDDEN ==> #[trigger] call_requires(*oracle, (x,)),
            forall|key: Seq<u8>, prefix: Seq<u8>, suffix: Seq<u8>|
                #[trigger] is_ecb_oracle(*oracle, key, prefix, suffix) && suffix.len() + 32 <= MAX_HIDDEN ==> {
                    &&& q == prefix.len() / 16
                    &&& (prefix.len() + k - 1) / 16 == prefix.len() / 16
                },
        decreases 17 - k,
    {
        let mut a = repeat(0, k);
        a.push(0);
        let mut b = repeat(0, k);
        b.push(1);
        let sa = a.as_slice();
        let sb = b.as_slice();
        let ca = oracle(sa);
        let cb = oracle(sb);
        let d = first_differing_block(ca.as_slice(), cb.as_slice());
        proof {
            assert forall|key: Seq<u8>, prefix: Seq<u8>, suffix: Seq<u8>|
                #[trigger] is_ecb_oracle(*oracle, key, prefix, suffix) && suffix.len() + 32 <= MAX_HIDDEN implies d is Some && d->Some_0
                == (prefix.len() + k) / 16 by {
                let pa = prefix + sa@ + suffix;
                let pb = prefix + sb@ + suffix;
                assert(call_ensures(*oracle, (sa,), ca));
                assert(call_ensures(*oracle, (sb,), cb));
                lemma_pad_keeps(pa, pb);
                let j = prefix.len() + k;
                assert(pa[j] == 0);
                assert(pb[j] == 1);
                lemma_first_difference(key, pkcs7_pad(pa, 16), pkcs7_pad(pb, 16), ca@, cb@, j);
            }
        }
        match d {
            None => {
                return Err(CryptoError::OracleContractViolated);
            },
            Some(d) => {
                if d > q {
                    let probe = repeat(0, k + 32);
                    let ps = probe.as_slice();
                    let c = oracle(ps);
                    proof {
                        assert forall|key: Seq<u8>, prefix: Seq<u8>, suffix: Seq<u8>|
                            #[trigger] is_ecb_oracle(*oracle, key, prefix, suffix) && suffix.len() + 32 <= MAX_HIDDEN implies {
                            &&& q + 3 <= c@.len() / 16
                            &&& block_at(c@, q + 1) == block_at(c@, q + 2)
                        } by {
                            assert(call_ensures(*oracle, (ps,), c));
                            let p = prefix + ps@ + suffix;
                            let pp = pkcs7_pad(p, 16);
                            lemma_pad_keeps(p, p);
                            lemma_pad_len(p);
                            assert(prefix.len() + k == 16 * q + 16);
                            assert(block_at(pp, q + 1) =~= repeat_byte(0, 16));
                            assert(block_at(pp, q + 2) =~= repeat_byte(0, 16));
                            assert(block_at(c@, q + 1) == crate::cipher::aes128_encrypt(
                                key,
                                block_at(pp, q + 1),
                            ));
                            assert(block_at(c@, q + 2) == crate::cipher::aes128_encrypt(
                                key,
                                block_at(pp, q + 2),
                            ));
                        }
                    }
                    let nb = c.len() / 16;
                    if nb < 3 || nb - 3 < q || !ranges_equal(
                        c.as_slice(),
                        16 * q + 16,
                        c.as_slice(),
                        16 * q + 32,
                        16,
                    ) {
                        return Err(CryptoError::OracleContractViolated);
                    }
                    assert(block_at(c@, q + 1) =~= c@.subrange(16 * q + 16, 16 * q + 32));
                    assert(block_at(c@, q + 2) =~= c@.subrange(16 * q + 32, 16 * q + 48));
                    assert(call_ensures(*oracle, (ps,), c) && confirms_ecb(ps@, c@, q as int, k as int));
                    return Ok(k);
                }
                proof {
                    assert forall|key: Seq<u8>, prefix: Seq<u8>, suffix: Seq<u8>|
                        #[trigger] is_ecb_oracle(*oracle, key, prefix, suffix) && suffix.len() + 32 <= MAX_HIDDEN implies (
                        prefix.len() + k) / 16 == prefix.len() / 16 by {}
                }
            },
        }
        k += 1;
    }
    Err(CryptoError::OracleContractViolated)
}

/// With the prefix filled to a block boundary by `k` zero bytes, `w` more
/// zero bytes put suffix byte `t` last in block `blk`. The query that spells out
/// the known bytes and then `c` gives that block exactly when `c` is the byte.
proof fn lemma_probe_plaintext(
    prefix: Seq<u8>,
    suffix: Seq<u8>,
    short: Seq<u8>,
    probe: Seq<u8>,
    k: int,
    t: int,
    c: u8,
)
    requires
        0 <= k <= 16,
        (prefix.len() + k) % 16 == 0,
        0 <= t < suffix.len(),
        short == repeat_byte(0, (k + 15 - t % 16) as nat),
        probe == repeat_byte(0, (k + 15 - t % 16) as nat) + suffix.subrange(0, t) + seq![c],
    ensures
        ({
            let ps = pkcs7_pad(prefix + short + suffix, 16);
            let pp = pkcs7_pad(prefix + probe + suffix, 16);
            let blk = (prefix.len() + k) / 16 + t / 16;
            &&& 16 * blk + 16 <= ps.len()
            &&& 16 * blk + 16 <= pp.len()
            &&& (block_at(ps, blk) == block_at(pp, blk) <==> c == suffix[t])
        }),
{
    let w = 15 - t % 16;
    let us = prefix + short + suffix;
    let up = prefix + probe + suffix;
    let ps = pkcs7_pad(us, 16);
    let pp = pkcs7_pad(up, 16);
    let blk = (prefix.len() + k) / 16 + t / 16;
    let base = 16 * blk;
    let off = prefix.len() + k + w;
    assert(base + 15 == off + t);
    assert(base + 16 <= us.len());
    assert(base + 16 <= up.len());
    assert(forall|i: int| 0 <= i < us.len() ==> #[trigger] ps[i] == us[i]);
    assert(forall|i: int| 0 <= i < up.len() ==> #[trigger] pp[i] == up[i]);
    assert forall|e: int| 0 <= e < 15 implies #[trigger] block_at(ps, blk)[e] == block_at(
        pp,
        blk,
    )[e] by {
        let g = base + e;
        if g < off {
            assert(us[g] == 0);
            assert(up[g] == 0);
        } else {
            assert(us[g] == suffix[g - off]);
            assert(up[g] == suffix.subrange(0, t)[g - off]);
        }
    }
    assert(block_at(ps, blk)[15] == suffix[t]);
    assert(block_at(pp, blk)[15] == c);
    if c == suffix[t] {
        assert(block_at(ps, blk) =~= block_at(pp, blk));
    }
}

/// Suffix byte `known.len()`, given the suffix bytes before it: the one value
/// `c` for which the query `0^(k + w) ++ known ++ [c]` reproduces the target
/// block of the query `0^(k + w)`, where `w` zero bytes leave the unknown byte
/// last in its block.
fn recover_byte(
    oracle: &impl Fn(&[u8]) -> Vec<u8>,
    k: usize,
    q: usize,
    known: &Vec<u8>,
) -> (r: Result<u8, CryptoError>)
    requires
        1 <= k <= 16,
        forall|x: &[u8]| x@.len() <= MAX_HIDDEN ==> #[trigger] call_requires(*oracle, (x,)),
        forall|key: Seq<u8>, prefix: Seq<u8>, suffix: Seq<u8>|
            #[trigger] is_ecb_oracle(*oracle, key, prefix, suffix) && suffix.len() + 32 <= MAX_HIDDEN ==> {
                &&& q == prefix.len() / 16
                &&& k == 16 - prefix.len() % 16
                &&& known@.len() < suffix.len()
                &&& known@ == suffix.subrange(0, known@.len() as int)
            },
    ensures
        forall|key: Seq<u8>, prefix: Seq<u8>, suffix: Seq<u8>|
            #[trigger] is_ecb_oracle(*oracle, key, prefix, suffix) && suffix.len() + 32 <= MAX_HIDDEN ==> r == Ok::<u8, CryptoError>(
                suffix[known@.len() as int],
            ),
{
    let t = known.len();
    if t > MAX_HIDDEN - 32 {
        return Err(CryptoError::OracleContractViolated);
    }
    let w = 15 - t % 16;
    let short = repeat(0, k + w);
    let ss = short.as_slice();
    let target = oracle(ss);
    let nb = target.len() / 16;
    if nb <= q || nb - q - 1 <= t / 16 {
        proof {
            assert forall|key: Seq<u8>, prefix: Seq<u8>, suffix: Seq<u8>|
                #[trigger] is_ecb_oracle(*oracle, key, prefix, suffix) && suffix.len() + 32 <= MAX_HIDDEN implies false by {
                assert(call_ensures(*oracle, (ss,), target));
                lemma_probe_plaintext(prefix, suffix, ss@, ss@ + suffix.subrange(0, t as int) + seq![0u8], k as int, t as int, 0);
            }
        }
        return Err(CryptoError::OracleContractViolated);
    }
    let blk = q + 1 + t / 16;
    let mut c: u16 = 0;
    while c < 256
        invariant
            forall|x: &[u8]| x@.len() <= MAX_HIDDEN ==> #[trigger] call_requires(*oracle, (x,)),
            call_ensures(*oracle, (ss,), target),
            ss@ == repeat_byte(0, (k + w) as nat),
            w == 15 - t % 16,
            t == known@.len(),
            blk == q + 1 + t / 16,
            16 * blk + 16 <= target@.len(),
            1 <= k <= 16,
            w <= 15,
            t + 32 <= MAX_HIDDEN,
            c <= 256,
            forall|key: Seq<u8>, prefix: Seq<u8>, suffix: Seq<u8>|
                #[trigger] is_ecb_oracle(*oracle, key, prefix, suffix) && suffix.len() + 32 <= MAX_HIDDEN ==> {
                    &&& q == prefix.len() / 16
                    &&& k == 16 - prefix.len() % 16
                    &&& known@.len() < suffix.len()
                    &&& known@ == suffix.subrange(0, known@.len() as int)
                    &&& c <= suffix[t as int]
                },
        decreases 256 - c,
    {
        let mut probe = repeat(0, k + w);
        crate::bytes::append_range(&mut probe, known.as_slice(), 0, t);
        probe.push(c as u8);
        let ps = probe.as_slice();
        assert(ps@ =~= ss@ + known@.subrange(0, t as int) + seq![c as u8]);
        let answer = oracle(ps);
        let found = answer.len() / 16 > blk && ranges_equal(
            target.as_slice(),
            16 * blk,
            answer.as_slice(),
            16 * blk,
            16,
        );
        proof {
            assert forall|key: Seq<u8>, prefix: Seq<u8>, suffix: Seq<u8>|
                #[trigger] is_ecb_oracle(*oracle, key, prefix, suffix) && suffix.len() + 32 <= MAX_HIDDEN implies (found <==> c
                == suffix[t as int]) by {
                assert(call_ensures(*oracle, (ps,), answer));
                assert(known@.subrange(0, t as int) =~= known@);
                lemma_probe_plaintext(prefix, suffix, ss@, ps@, k as int, t as int, c as u8);
                let u1 = pkcs7_pad(prefix + ss@ + suffix, 16);
                let u2 = pkcs7_pad(prefix + ps@ + suffix, 16);
                assert(prefix.len() / 16 + 1 == (prefix.len() + k) / 16);
                assert(block_at(target@, blk as int) == crate::cipher::aes128_encrypt(
                    key,
                    block_at(u1, blk as int),
                ));
                assert(block_at(answer@, blk as int) == crate::cipher::aes128_encrypt(
                    key,
                    block_at(u2, blk as int),
                ));
                assert(crate::cipher::aes128_decrypt(key, block_at(target@, blk as int))
                    == block_at(u1, blk as int));
                assert(crate::cipher::aes128_decrypt(key, block_at(answer@, blk as int))
                    == block_at(u2, blk as int));
            }
        }
        if found {
            return Ok(c as u8);
        }
        c += 1;
    }
    Err(CryptoError::OracleContractViolated)
}

/// Byte-at-a-time ECB decryption: recovers the hidden suffix that an ECB
/// oracle appends, after a fixed unknown prefix, to the bytes it is given.
/// The oracle is queried only; its key, prefix and suffix are never seen.
/// Steps: locate the prefix's last block, measure the hidden length (which
/// also confirms a 16-byte block), align the prefix to a block boundary while
/// confirming ECB, then recover the suffix byte by byte.
/// For every oracle that encrypts `prefix ++ x ++ suffix` in ECB mode under a
/// fixed key (with a suffix at least 32 bytes short of `MAX_HIDDEN`, so that
/// every query fits) the result is exactly `suffix`; an oracle that does not
/// behave so may give `OracleContractViolated`.
pub fn decrypt_aes_ecb_with_oracle(oracle: impl Fn(&[u8]) -> Vec<u8>) -> (r: Result<
    Vec<u8>,
    CryptoError,
>)
    requires
        forall|x: &[u8]| x@.len() <= MAX_HIDDEN ==> #[trigger] call_requires(oracle, (x,)),
    ensures
        forall|key: Seq<u8>, prefix: Seq<u8>, suffix: Seq<u8>|
            #[trigger] is_ecb_oracle(oracle, key, prefix, suffix) && suffix.len() + 32 <= MAX_HIDDEN ==> r is Ok && r->Ok_0@
                == suffix,
        r is Ok ==> exists|x: &[u8], answer: Vec<u8>, q: int, k: int|
            #![trigger call_ensures(oracle, (x,), answer), confirms_ecb(x@, answer@, q, k)]
            call_ensures(oracle, (x,), answer) && confirms_ecb(x@, answer@, q, k),
{
    let q = match locate_prefix_block(&oracle) {
        Ok(q) => q,
        Err(e) => {
            return Err(e);
        },
    };
    let n = match measure_hidden_length(&oracle) {
        Ok(n) => n,
        Err(e) => {
            return Err(e);
        },
    };
    let k = match find_alignment(&oracle, q) {
        Ok(k) => k,
        Err(e) => {
            return Err(e);
        },
    };
    if q > n / 16 || n - 16 * q < 16 - k {
        return Err(CryptoError::OracleContractViolated);
    }
    let prefix_len = 16 * q + (16 - k);
    let suffix_len = n - prefix_len;
    let mut recovered: Vec<u8> = Vec::with_capacity(suffix_len);
    while recovered.len() < suffix_len
        invariant
            1 <= k <= 16,
            forall|x: &[u8]| x@.len() <= MAX_HIDDEN ==> #[trigger] call_requires(oracle, (x,)),
            forall|key: Seq<u8>, prefix: Seq<u8>, suffix: Seq<u8>|
                #[trigger] is_ecb_oracle(oracle, key, prefix, suffix) && suffix.len() + 32 <= MAX_HIDDEN ==> {
                    &&& q == prefix.len() / 16
                    &&& k == 16 - prefix.len() % 16
                    &&& suffix_len == suffix.len()
                    &&& recovered@.len() <= suffix.len()
                    &&& recovered@ == suffix.subrange(0, recovered@.len() as int)
                },
        decreases suffix_len - recovered@.len(),
    {
        let b = match recover_byte(&oracle, k, q, &recovered) {
            Ok(b) => b,
            Err(e) => {
                return Err(e);
            },
        };
        recovered.push(b);
        proof {
            assert forall|key: Seq<u8>, prefix: Seq<u8>, suffix: Seq<u8>|
                #[trigger] is_ecb_oracle(oracle, key, prefix, suffix) && suffix.len() + 32 <= MAX_HIDDEN implies recovered@
                == suffix.subrange(0, recovered@.len() as int) by {
                assert(recovered@ =~= suffix.subrange(0, recovered@.len() as int));
            }
        }
    }
    proof {
        assert forall|key: Seq<u8>, prefix: Seq<u8>, suffix: Seq<u8>|
            #[trigger] is_ecb_oracle(oracle, key, prefix, suffix) && suffix.len() + 32 <= MAX_HIDDEN implies recovered@ == suffix by {
            assert(suffix.subrange(0, suffix.len() as int) =~= suffix);
        }
    }
    Ok(recovered)
}

} // verus!
