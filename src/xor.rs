use vstd::prelude::*;

use crate::bytes::{repeat, repeat_byte, xor_seq};
use crate::codec::{bit_from_top, byte_to_binary};

verus! {

/// `msg` exclusive-or'ed with `key` repeated over its whole length.
pub open spec fn repeating_xor_seq(msg: Seq<u8>, key: Seq<u8>) -> Seq<u8> {
    Seq::new(msg.len(), |i: int| msg[i] ^ key[i % key.len() as int])
}

/// Exclusive or of two buffers of equal length, byte by byte.
pub fn xor(b1: &[u8], b2: &[u8]) -> (r: Vec<u8>)
    requires
        b1@.len() == b2@.len(),
    ensures
        r@ == xor_seq(b1@, b2@),
{
    let n = b1.len();
    let mut r: Vec<u8> = Vec::with_capacity(n);
    let mut i: usize = 0;
    while i < n
        invariant
            n == b1@.len() == b2@.len(),
            i <= n,
            r@ == xor_seq(b1@.subrange(0, i as int), b2@),
        decreases n - i,
    {
        r.push(b1[i] ^ b2[i]);
        i += 1;
        assert(r@ =~= xor_seq(b1@.subrange(0, i as int), b2@));
    }
    assert(b1@.subrange(0, n as int) =~= b1@);
    r
}

/// Every byte of `msg` exclusive-or'ed with `key`.
pub fn single_byte_xor(msg: &[u8], key: u8) -> (r: Vec<u8>)
    ensures
        r@ == xor_seq(msg@, repeat_byte(key, msg@.len())),
{
    let k = repeat(key, msg.len());
    xor(msg, k.as_slice())
}

/// `msg` exclusive-or'ed with `key` repeated as often as needed.
pub fn repeating_key_xor(msg: &[u8], key: &[u8]) -> (r: Vec<u8>)
    requires
        key@.len() > 0,
    ensures
        r@ == repeating_xor_seq(msg@, key@),
{
    let n = msg.len();
    let m = key.len();
    let mut r: Vec<u8> = Vec::with_capacity(n);
    let mut i: usize = 0;
    let mut j: usize = 0;
    while i < n
        invariant
            n == msg@.len(),
            m == key@.len() > 0,
            i <= n,
            j == (i as int) % (m as int),
            r@ == repeating_xor_seq(msg@.subrange(0, i as int), key@),
        decreases n - i,
    {
        r.push(msg[i] ^ key[j]);
        i += 1;
        j = if j + 1 == m { 0 } else { j + 1 };
        proof {
            crate::bytes::lemma_mod_next(i - 1, m as int);
        }
        assert(r@ =~= repeating_xor_seq(msg@.subrange(0, i as int), key@));
    }
    assert(msg@.subrange(0, n as int) =~= msg@);
    r
}

/// The number of the first `k` bit positions (from the most significant) at
/// which `x` and `y` differ.
pub open spec fn bit_diffs(x: u8, y: u8, k: nat) -> nat
    decreases k,
{
    if k == 0 {
        0
    } else {
        bit_diffs(x, y, (k - 1) as nat) + if bit_from_top(x, k - 1) != bit_from_top(y, k - 1) {
            1nat
        } else {
            0nat
        }
    }
}

/// The number of differing bits between the first `n` bytes of `a` and `b`.
pub open spec fn hamming_prefix(a: Seq<u8>, b: Seq<u8>, n: nat) -> nat
    decreases n,
{
    if n == 0 {
        0
    } else {
        hamming_prefix(a, b, (n - 1) as nat) + bit_diffs(a[n - 1], b[n - 1], 8)
    }
}

/// The Hamming distance between `a` and `b`, over as many bytes as the
/// shorter one holds.
pub open spec fn hamming(a: Seq<u8>, b: Seq<u8>) -> nat {
    hamming_prefix(a, b, if a.len() < b.len() { a.len() } else { b.len() })
}

proof fn lemma_bit_diffs_bound(x: u8, y: u8, k: nat)
    ensures
        bit_diffs(x, y, k) <= k,
    decreases k,
{
    if k > 0 {
        lemma_bit_diffs_bound(x, y, (k - 1) as nat);
    }
}

/// The number of bits in which `b1` and `b2` differ, over as many bytes as the
/// shorter one holds.
pub fn calculate_edit_distance(b1: &[u8], b2: &[u8]) -> (r: usize)
    requires
        b1@.len() <= usize::MAX / 8,
    ensures
        r == hamming(b1@, b2@),
{
    let n = if b1.len() < b2.len() { b1.len() } else { b2.len() };
    let mut count: usize = 0;
    let mut i: usize = 0;
    while i < n
        invariant
            n == (if b1@.len() < b2@.len() { b1@.len() } else { b2@.len() }),
            n <= usize::MAX / 8,
            i <= n,
            count == hamming_prefix(b1@, b2@, i as nat),
            count <= 8 * i,
        decreases n - i,
    {
        let bits1 = byte_to_binary(b1[i]);
        let bits2 = byte_to_binary(b2[i]);
        let mut k: usize = 0;
        let ghost base = count;
        while k < 8
            invariant
                k <= 8,
                i < n,
                n <= usize::MAX / 8,
                base <= 8 * i,
                bits1@ == Seq::new(8, |j: int| bit_from_top(b1@[i as int], j)),
                bits2@ == Seq::new(8, |j: int| bit_from_top(b2@[i as int], j)),
                count == base + bit_diffs(b1@[i as int], b2@[i as int], k as nat),
            decreases 8 - k,
        {
            proof {
                lemma_bit_diffs_bound(b1@[i as int], b2@[i as int], k as nat);
            }
            if bits1[k] != bits2[k] {
                count += 1;
            }
            k += 1;
        }
        proof {
            lemma_bit_diffs_bound(b1@[i as int], b2@[i as int], 8);
        }
        i += 1;
    }
    count
}

/// A repeating-key XOR decryption: the key found and the message it gives.
pub struct RepeatingXORDecryptResult {
    pub key: Vec<u8>,
    pub message: Vec<u8>,
}

/// A single-byte XOR decryption: the key byte and the message it gives.
#[derive(Clone, Debug)]
pub struct XORDecryptResult {
    pub key: u8,
    pub message: Vec<u8>,
}

} // verus!
