use vstd::prelude::*;

use crate::bytes::{append_range, copy_range, repeat, repeat_byte};
use crate::error::CryptoError;

verus! {

/// Number of padding bytes that PKCS#7 appends to a message of `len` bytes.
pub open spec fn pad_len(len: nat, block_size: nat) -> nat {
    (block_size - len % block_size) as nat
}

/// `message` followed by its PKCS#7 padding for `block_size`.
pub open spec fn pkcs7_pad(message: Seq<u8>, block_size: nat) -> Seq<u8> {
    let n = pad_len(message.len(), block_size);
    message + repeat_byte(n as u8, n)
}

/// Whether `s` ends in valid PKCS#7 padding: a last byte `n` with
/// `1 <= n <= s.len()`, and `n` trailing bytes all equal to `n`.
pub open spec fn pkcs7_valid(s: Seq<u8>) -> bool {
    &&& s.len() > 0
    &&& 1 <= s.last() <= s.len()
    &&& forall|i: int| s.len() - s.last() <= i < s.len() ==> s[i] == s.last()
}

/// `s` with its PKCS#7 padding removed, or `None` where the padding is invalid.
pub open spec fn pkcs7_strip(s: Seq<u8>) -> Option<Seq<u8>> {
    if pkcs7_valid(s) {
        Some(s.subrange(0, s.len() - s.last()))
    } else {
        None
    }
}

/// Appends PKCS#7 padding: `n = block_size - len % block_size` bytes of value
/// `n`, a whole block of them where the length is already a multiple.
pub fn pad_pkcs7(message: &[u8], block_size: usize) -> (r: Vec<u8>)
    requires
        1 <= block_size < 256,
        message@.len() + block_size <= usize::MAX,
    ensures
        r@ == pkcs7_pad(message@, block_size as nat),
{
    let pad_length: usize = block_size - message.len() % block_size;
    let mut padded = copy_range(message, 0, message.len());
    let padding = repeat(pad_length as u8, pad_length);
    append_range(&mut padded, padding.as_slice(), 0, pad_length);
    assert(message@.subrange(0, message@.len() as int) =~= message@);
    assert(padding@.subrange(0, pad_length as int) =~= padding@);
    padded
}

/// Whether `message` ends in valid PKCS#7 padding.
pub fn validate_pkcs7(message: &[u8]) -> (r: bool)
    ensures
        r == pkcs7_valid(message@),
{
    let len = message.len();
    if len == 0 {
        return false;
    }
    let padding = message[len - 1];
    if padding == 0 || (padding as usize) > len {
        return false;
    }
    let mut i: usize = len - padding as usize;
    while i < len
        invariant
            1 <= padding <= len,
            len == message@.len(),
            padding == message@.last(),
            len - padding <= i <= len,
            forall|j: int| len - padding <= j < i ==> message@[j] == padding,
        decreases len - i,
    {
        if message[i] != padding {
            return false;
        }
        i += 1;
    }
    true
}

/// Removes PKCS#7 padding, failing with `InvalidPadding` unless it is valid.
pub fn strip_pkcs7(message: &[u8]) -> (r: Result<Vec<u8>, CryptoError>)
    ensures
        match pkcs7_strip(message@) {
            Some(m) => r is Ok && r->Ok_0@ == m,
            None => r == Err::<Vec<u8>, CryptoError>(CryptoError::InvalidPadding),
        },
{
    if validate_pkcs7(message) {
        let n = message[message.len() - 1] as usize;
        Ok(copy_range(message, 0, message.len() - n))
    } else {
        Err(CryptoError::InvalidPadding)
    }
}

/// Padding then stripping gives the message back, for every block size from
/// 1 to 255.
pub proof fn lemma_strip_pad(message: Seq<u8>, block_size: nat)
    requires
        1 <= block_size < 256,
    ensures
        pkcs7_strip(pkcs7_pad(message, block_size)) == Some(message),
        pkcs7_pad(message, block_size).len() % block_size == 0,
        pkcs7_pad(message, block_size).len() > message.len(),
{
    let p = pkcs7_pad(message, block_size);
    let n = pad_len(message.len(), block_size);
    assert(1 <= n <= block_size);
    assert(p.last() == n as u8);
    assert((n as u8) as nat == n);
    assert(p.subrange(0, p.len() - n) =~= message);
    let len = message.len() as int;
    let bs = block_size as int;
    let q = len / bs;
    vstd::arithmetic::div_mod::lemma_fundamental_div_mod(len, bs);
    assert(len + n == (q + 1) * bs) by (nonlinear_arith)
        requires
            len == bs * q + len % bs,
            n == bs - len % bs,
    ;
    vstd::arithmetic::div_mod::lemma_mod_multiples_basic(q + 1, bs);
}

/// A message whose length is already a multiple of the block size still gets
/// padding: a whole block of bytes equal to the block size.
pub proof fn lemma_full_block_padding(message: Seq<u8>, block_size: nat)
    requires
        1 <= block_size < 256,
        message.len() % block_size == 0,
    ensures
        pkcs7_pad(message, block_size) == message + repeat_byte(block_size as u8, block_size),
{
}

/// A buffer whose last byte is zero never has valid padding.
pub proof fn lemma_zero_last_byte_invalid(s: Seq<u8>)
    requires
        s.len() > 0,
        s.last() == 0,
    ensures
        pkcs7_strip(s) == None::<Seq<u8>>,
{
}

/// A buffer whose last `n` bytes are not all equal to its last byte `n` never
/// has valid padding.
pub proof fn lemma_mismatched_padding_invalid(s: Seq<u8>, i: int)
    requires
        s.len() > 0,
        s.len() - s.last() <= i < s.len(),
        s[i] != s.last(),
    ensures
        pkcs7_strip(s) == None::<Seq<u8>>,
{
}

} // verus!
