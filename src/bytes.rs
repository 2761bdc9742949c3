use vstd::prelude::*;

verus! {

/// Block `i` (16 bytes) of `s`.
pub open spec fn block_at(s: Seq<u8>, i: int) -> Seq<u8> {
    s.subrange(16 * i, 16 * i + 16)
}

/// Byte-wise exclusive or of two sequences, as long as the first.
pub open spec fn xor_seq(a: Seq<u8>, b: Seq<u8>) -> Seq<u8> {
    Seq::new(a.len(), |i: int| a[i] ^ b[i])
}

/// `n` copies of the byte `b`.
pub open spec fn repeat_byte(b: u8, n: nat) -> Seq<u8> {
    Seq::new(n, |i: int| b)
}

/// A byte of position `j` lies in block `j / 16`, at offset `j % 16`.
pub proof fn lemma_block_index(i: int, k: int)
    requires
        0 <= k < 16,
    ensures
        (16 * i + k) / 16 == i,
        (16 * i + k) % 16 == k,
{
}

/// Exclusive or with the same byte twice is the identity.
pub proof fn lemma_xor_twice(a: u8, b: u8)
    ensures
        (a ^ b) ^ b == a,
        a ^ (a ^ b) == b,
{
    assert((a ^ b) ^ b == a) by (bit_vector);
    assert(a ^ (a ^ b) == b) by (bit_vector);
}

/// Exclusive or with the same sequence twice is the identity.
pub proof fn lemma_xor_seq_twice(a: Seq<u8>, b: Seq<u8>)
    requires
        a.len() <= b.len(),
    ensures
        xor_seq(xor_seq(a, b), b) == a,
{
    assert forall|i: int| 0 <= i < a.len() implies xor_seq(xor_seq(a, b), b)[i] == a[i] by {
        lemma_xor_twice(a[i], b[i]);
    }
    assert(xor_seq(xor_seq(a, b), b) =~= a);
}

/// Stepping `x` by one steps `x % m` by one, wrapping at `m`.
pub proof fn lemma_mod_next(x: int, m: int)
    requires
        x >= 0,
        m > 0,
    ensures
        (x + 1) % m == if x % m + 1 == m { 0 } else { x % m + 1 },
{
    vstd::arithmetic::div_mod::lemma_fundamental_div_mod(x, m);
    let q = x / m;
    let r = x % m;
    if r + 1 == m {
        assert(x + 1 == (q + 1) * m + 0) by (nonlinear_arith)
            requires
                x == m * q + r,
                r + 1 == m,
        ;
        vstd::arithmetic::div_mod::lemma_fundamental_div_mod_converse(x + 1, m, q + 1, 0);
    } else {
        assert(x + 1 == q * m + (r + 1)) by (nonlinear_arith)
            requires
                x == m * q + r,
        ;
        vstd::arithmetic::div_mod::lemma_fundamental_div_mod_converse(x + 1, m, q, r + 1);
    }
}

/// Two sequences of whole blocks that agree block by block are equal.
pub proof fn lemma_equal_by_blocks(a: Seq<u8>, b: Seq<u8>)
    requires
        a.len() == b.len(),
        a.len() % 16 == 0,
        forall|i: int| 0 <= i < a.len() / 16 ==> #[trigger] block_at(a, i) == block_at(b, i),
    ensures
        a == b,
{
    assert forall|j: int| 0 <= j < a.len() implies a[j] == b[j] by {
        let i = j / 16;
        assert(0 <= i < a.len() / 16);
        assert(block_at(a, i)[j - 16 * i] == a[j]);
        assert(block_at(b, i)[j - 16 * i] == b[j]);
    }
    assert(a =~= b);
}

/// A copy of `s[lo..hi]`.
pub fn copy_range(s: &[u8], lo: usize, hi: usize) -> (r: Vec<u8>)
    requires
        lo <= hi <= s@.len(),
    ensures
        r@ == s@.subrange(lo as int, hi as int),
{
    let mut r: Vec<u8> = Vec::with_capacity(hi - lo);
    let mut i: usize = lo;
    while i < hi
        invariant
            lo <= i <= hi <= s@.len(),
            r@ == s@.subrange(lo as int, i as int),
        decreases hi - i,
    {
        r.push(s[i]);
        i += 1;
        assert(r@ =~= s@.subrange(lo as int, i as int));
    }
    r
}

/// Appends `s[lo..hi]` to `v`.
pub fn append_range(v: &mut Vec<u8>, s: &[u8], lo: usize, hi: usize)
    requires
        lo <= hi <= s@.len(),
    ensures
        final(v)@ == old(v)@ + s@.subrange(lo as int, hi as int),
{
    let mut i: usize = lo;
    while i < hi
        invariant
            lo <= i <= hi <= s@.len(),
            v@ == old(v)@ + s@.subrange(lo as int, i as int),
        decreases hi - i,
    {
        v.push(s[i]);
        i += 1;
        assert(v@ =~= old(v)@ + s@.subrange(lo as int, i as int));
    }
}

/// Whether `a[i..i + n]` and `b[j..j + n]` hold the same bytes.
pub fn ranges_equal(a: &[u8], i: usize, b: &[u8], j: usize, n: usize) -> (r: bool)
    requires
        i + n <= a@.len(),
        j + n <= b@.len(),
    ensures
        r == (a@.subrange(i as int, i + n) == b@.subrange(j as int, j + n)),
{
    let alen = a.len();
    let blen = b.len();
    let mut t: usize = 0;
    while t < n
        invariant
            t <= n,
            alen == a@.len(),
            blen == b@.len(),
            i + n <= a@.len(),
            j + n <= b@.len(),
            a@.subrange(i as int, i + t) == b@.subrange(j as int, j + t),
        decreases n - t,
    {
        if a[i + t] != b[j + t] {
            assert(a@.subrange(i as int, i + n)[t as int] != b@.subrange(j as int, j + n)[t as int]);
            return false;
        }
        t += 1;
        assert(a@.subrange(i as int, i + t) =~= b@.subrange(j as int, j + t));
    }
    assert(a@.subrange(i as int, i + n) =~= b@.subrange(j as int, j + n));
    true
}

/// `n` copies of the byte `b`.
pub fn repeat(b: u8, n: usize) -> (r: Vec<u8>)
    ensures
        r@ == repeat_byte(b, n as nat),
{
    let mut r: Vec<u8> = Vec::with_capacity(n);
    let mut i: usize = 0;
    while i < n
        invariant
            i <= n,
            r@ == repeat_byte(b, i as nat),
        decreases n - i,
    {
        r.push(b);
        i += 1;
        assert(r@ =~= repeat_byte(b, i as nat));
    }
    r
}

} // verus!
