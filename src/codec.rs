use vstd::prelude::*;
use vstd::string::StringSliceAdditionalSpecFns;

verus! {

/// The lower-case hexadecimal digit for `n < 16`.
pub open spec fn hex_char(n: u8) -> char {
    if n < 10 {
        ((48 + n) as u8) as char
    } else {
        ((87 + n) as u8) as char
    }
}

/// Whether `c` is a hexadecimal digit, in either case.
pub open spec fn is_hex_digit(c: char) -> bool {
    ('0' <= c <= '9') || ('a' <= c <= 'f') || ('A' <= c <= 'F')
}

/// The value of the hexadecimal digit `c`.
pub open spec fn hex_value(c: char) -> int {
    if '0' <= c <= '9' {
        c as int - 48
    } else if 'a' <= c <= 'f' {
        c as int - 87
    } else {
        c as int - 55
    }
}

/// Two lower-case hexadecimal digits for each byte, high digit first.
pub open spec fn hex_encode(bytes: Seq<u8>) -> Seq<char> {
    Seq::new(
        2 * bytes.len(),
        |j: int|
            if j % 2 == 0 {
                hex_char(bytes[j / 2] / 16)
            } else {
                hex_char(bytes[j / 2] % 16)
            },
    )
}

/// The bytes that pairs of hexadecimal digits spell, high digit first.
pub open spec fn hex_decode(hex: Seq<char>) -> Seq<u8> {
    Seq::new(hex.len() / 2, |i: int| (16 * hex_value(hex[2 * i]) + hex_value(hex[2 * i + 1])) as u8)
}

/// Bit `7 - k` of `byte`: the `k`-th bit from the most significant.
pub open spec fn bit_from_top(byte: u8, k: int) -> bool {
    (byte >> ((7 - k) as u8)) & 1u8 == 1u8
}

/// The number that a sequence of bits spells, most significant first.
pub open spec fn bits_value(bits: Seq<bool>) -> nat
    decreases bits.len(),
{
    if bits.len() == 0 {
        0
    } else {
        2 * bits_value(bits.drop_last()) + if bits.last() {
            1nat
        } else {
            0nat
        }
    }
}

/// Relies on `String`'s `FromIterator<&char>`: the string of exactly these
/// characters, in order.
#[verifier::external_body]
pub(crate) fn string_from_chars(chars: &Vec<char>) -> (r: String)
    ensures
        r@ == chars@,
{
    chars.iter().collect()
}

/// Relies on `str::chars`: the characters of `s`, in order.
#[verifier::external_body]
pub(crate) fn chars_of(s: &str) -> (r: Vec<char>)
    ensures
        r@ == s@,
{
    s.chars().collect()
}

/// The lower-case hexadecimal digit for a number below 16.
pub fn int_to_hex(i: u8) -> (r: char)
    requires
        i < 16,
    ensures
        r == hex_char(i),
{
    if i < 10 {
        (48 + i) as char
    } else {
        (87 + i) as char
    }
}

/// Lower-case hexadecimal, two digits per byte.
pub fn bytes_to_hex(bytes: &[u8]) -> (r: String)
    ensures
        r@ == hex_encode(bytes@),
{
    let mut chars: Vec<char> = Vec::new();
    let mut i: usize = 0;
    while i < bytes.len()
        invariant
            i <= bytes@.len(),
            chars@ == hex_encode(bytes@.subrange(0, i as int)),
        decreases bytes@.len() - i,
    {
        let b = bytes[i];
        chars.push(int_to_hex(b / 16));
        chars.push(int_to_hex(b % 16));
        i += 1;
        assert(chars@ =~= hex_encode(bytes@.subrange(0, i as int)));
    }
    assert(bytes@.subrange(0, bytes@.len() as int) =~= bytes@);
    string_from_chars(&chars)
}

/// The value of one hexadecimal digit.
fn hex_digit_value(c: char) -> (r: u8)
    requires
        is_hex_digit(c),
    ensures
        r == hex_value(c),
        r < 16,
{
    let v = c as u32;
    if v <= 57 {
        (v - 48) as u8
    } else if v >= 97 {
        (v - 87) as u8
    } else {
        (v - 55) as u8
    }
}

/// The bytes spelled by a string of hexadecimal digits (either case), two
/// digits per byte.
pub fn hex_to_bytes(hex: &str) -> (r: Vec<u8>)
    requires
        hex@.len() % 2 == 0,
        forall|i: int| 0 <= i < hex@.len() ==> is_hex_digit(#[trigger] hex@[i]),
    ensures
        r@ == hex_decode(hex@),
{
    let chars = chars_of(hex);
    let clen = chars.len();
    let n = clen / 2;
    let mut r: Vec<u8> = Vec::with_capacity(n);
    let mut i: usize = 0;
    while i < n
        invariant
            chars@ == hex@,
            clen == hex@.len(),
            n == hex@.len() / 2,
            hex@.len() % 2 == 0,
            forall|i: int| 0 <= i < hex@.len() ==> is_hex_digit(#[trigger] hex@[i]),
            i <= n,
            r@ == hex_decode(hex@).subrange(0, i as int),
        decreases n - i,
    {
        let hi = hex_digit_value(chars[2 * i]);
        let lo = hex_digit_value(chars[2 * i + 1]);
        r.push(hi * 16 + lo);
        i += 1;
        assert(r@ =~= hex_decode(hex@).subrange(0, i as int));
    }
    assert(hex_decode(hex@).subrange(0, n as int) =~= hex_decode(hex@));
    r
}

/// Each byte as the character of the same code (U+0000 to U+00FF).
pub fn bytes_to_ascii(bytes: &[u8]) -> (r: String)
    ensures
        r@ == Seq::new(bytes@.len(), |i: int| bytes@[i] as char),
{
    let mut chars: Vec<char> = Vec::new();
    let mut i: usize = 0;
    while i < bytes.len()
        invariant
            i <= bytes@.len(),
            chars@ == Seq::new(i as nat, |j: int| bytes@[j] as char),
        decreases bytes@.len() - i,
    {
        chars.push(bytes[i] as char);
        i += 1;
        assert(chars@ =~= Seq::new(i as nat, |j: int| bytes@[j] as char));
    }
    string_from_chars(&chars)
}

/// The UTF-8 bytes of `ascii`.
pub fn ascii_to_bytes(ascii: &str) -> (r: Vec<u8>)
    ensures
        r@ == ascii.spec_bytes(),
{
    let b = ascii.as_bytes();
    let r = crate::bytes::copy_range(b, 0, b.len());
    assert(b@.subrange(0, b@.len() as int) =~= b@);
    r
}

/// The 8 bits of `byte`, most significant first.
pub fn byte_to_binary(byte: u8) -> (r: Vec<bool>)
    ensures
        r@ == Seq::new(8, |k: int| bit_from_top(byte, k)),
{
    let mut binary: Vec<bool> = Vec::with_capacity(8);
    let mut k: u8 = 0;
    while k < 8
        invariant
            k <= 8,
            binary@ == Seq::new(k as nat, |j: int| bit_from_top(byte, j)),
        decreases 8 - k,
    {
        binary.push((byte >> (7 - k)) & 1 == 1);
        k += 1;
        assert(binary@ =~= Seq::new(k as nat, |j: int| bit_from_top(byte, j)));
    }
    binary
}

/// The byte that 8 bits spell, most significant first.
pub fn binary_to_byte(binary: &[bool]) -> (r: u8)
    requires
        binary@.len() == 8,
    ensures
        r == bits_value(binary@),
{
    let mut byte: u8 = 0;
    let mut i: usize = 0;
    proof {
        vstd::arithmetic::power2::lemma2_to64();
        assert(binary@.subrange(0, 0) =~= Seq::<bool>::empty());
    }
    while i < 8
        invariant
            binary@.len() == 8,
            i <= 8,
            byte == bits_value(binary@.subrange(0, i as int)),
            byte < vstd::arithmetic::power2::pow2(i as nat),
        decreases 8 - i,
    {
        proof {
            vstd::arithmetic::power2::lemma2_to64();
            assert(binary@.subrange(0, i + 1).drop_last() =~= binary@.subrange(0, i as int));
            vstd::arithmetic::power2::lemma_pow2_unfold((i + 1) as nat);
        }
        byte = 2 * byte + if binary[i] {
            1
        } else {
            0
        };
        i += 1;
    }
    assert(binary@.subrange(0, 8) =~= binary@);
    byte
}

/// Whether `c` is a base64 digit.
pub open spec fn is_base64_digit(c: char) -> bool {
    ('A' <= c <= 'Z') || ('a' <= c <= 'z') || ('0' <= c <= '9') || c == '+' || c == '/'
}

/// The value (below 64) of the base64 digit `c`.
pub open spec fn base64_value(c: char) -> nat {
    if 'A' <= c <= 'Z' {
        (c as int - 65) as nat
    } else if 'a' <= c <= 'z' {
        (c as int - 71) as nat
    } else if '0' <= c <= '9' {
        (c as int + 4) as nat
    } else if c == '+' {
        62
    } else {
        63
    }
}

/// The base64 digit of value `v < 64`.
pub open spec fn base64_char(v: nat) -> char {
    if v <= 25 {
        ((65 + v) as u8) as char
    } else if v <= 51 {
        ((71 + v) as u8) as char
    } else if v <= 61 {
        ((v - 4) as u8) as char
    } else if v == 62 {
        '+'
    } else {
        '/'
    }
}

/// The bits a base64 character stands for: six for a digit, none for `=`.
pub open spec fn char_bits(c: char) -> Seq<bool> {
    if c == '=' {
        Seq::empty()
    } else {
        Seq::new(6, |k: int| bit_from_top(base64_value(c) as u8, k + 2))
    }
}

/// The bits of a base64 text, six per digit, in order.
pub open spec fn base64_bits(s: Seq<char>) -> Seq<bool>
    decreases s.len(),
{
    if s.len() == 0 {
        Seq::empty()
    } else {
        base64_bits(s.drop_last()) + char_bits(s.last())
    }
}

/// The bytes that the whole groups of 8 bits spell, most significant first.
pub open spec fn bytes_of_bits(bits: Seq<bool>) -> Seq<u8> {
    Seq::new(bits.len() / 8, |i: int| bits_value(bits.subrange(8 * i, 8 * i + 8)) as u8)
}

/// The bits of bytes, eight per byte, most significant first.
pub open spec fn bits_of_bytes(bytes: Seq<u8>) -> Seq<bool> {
    Seq::new(8 * bytes.len(), |j: int| bit_from_top(bytes[j / 8], j % 8))
}

/// `bits` followed by `false` bits up to six.
pub open spec fn pad_six(bits: Seq<bool>) -> Seq<bool> {
    bits + Seq::new((6 - bits.len()) as nat, |k: int| false)
}

/// A base64 digit per six bits, the last group filled with zero bits.
pub open spec fn base64_digits(bits: Seq<bool>) -> Seq<char> {
    Seq::new(
        ((bits.len() + 5) / 6) as nat,
        |i: int|
            base64_char(
                bits_value(
                    pad_six(bits.subrange(6 * i, if 6 * i + 6 <= bits.len() {
                        6 * i + 6
                    } else {
                        bits.len() as int
                    })),
                ),
            ),
    )
}

/// Base64 text of bytes: a digit per six bits (the last group filled with
/// zero bits), then `=` up to a multiple of four characters.
pub open spec fn base64_encode(bytes: Seq<u8>) -> Seq<char> {
    let digits = base64_digits(bits_of_bytes(bytes));
    digits + Seq::new(((4 - digits.len() % 4) % 4) as nat, |k: int| '=')
}

/// A number spelled by bits is below 2 to the number of bits.
pub proof fn lemma_bits_value_bound(bits: Seq<bool>)
    ensures
        bits_value(bits) < vstd::arithmetic::power2::pow2(bits.len()),
    decreases bits.len(),
{
    if bits.len() > 0 {
        lemma_bits_value_bound(bits.drop_last());
        vstd::arithmetic::power2::lemma_pow2_unfold(bits.len());
    } else {
        vstd::arithmetic::power2::lemma2_to64();
    }
}

/// The bits one base64 character stands for: six for a digit, none for `=`.
fn base64_to_binary(c: char) -> (r: Vec<bool>)
    requires
        is_base64_digit(c) || c == '=',
    ensures
        r@ == char_bits(c),
{
    if c == '=' {
        return Vec::new();
    }
    let v = c as u32;
    let byte: u8 = if v >= 65 && v <= 90 {
        (v - 65) as u8
    } else if v >= 97 && v <= 122 {
        (v - 71) as u8
    } else if v >= 48 && v <= 57 {
        (v + 4) as u8
    } else if c == '+' {
        62
    } else {
        63
    };
    let bits = byte_to_binary(byte);
    let mut r: Vec<bool> = Vec::with_capacity(6);
    let mut k: usize = 2;
    while k < 8
        invariant
            2 <= k <= 8,
            byte == base64_value(c),
            bits@ == Seq::new(8, |j: int| bit_from_top(byte, j)),
            r@ == Seq::new((k - 2) as nat, |j: int| bit_from_top(byte, j + 2)),
        decreases 8 - k,
    {
        r.push(bits[k]);
        k += 1;
        assert(r@ =~= Seq::new((k - 2) as nat, |j: int| bit_from_top(byte, j + 2)));
    }
    r
}

/// The base64 digit for up to six bits, filled with zero bits to six.
fn binary_to_base64(binary: &[bool]) -> (r: char)
    requires
        binary@.len() <= 6,
    ensures
        r == base64_char(bits_value(pad_six(binary@))),
{
    let mut bits: Vec<bool> = Vec::with_capacity(6);
    let mut i: usize = 0;
    while i < binary.len()
        invariant
            binary@.len() <= 6,
            i <= binary@.len(),
            bits@ == binary@.subrange(0, i as int),
        decreases binary@.len() - i,
    {
        bits.push(binary[i]);
        i += 1;
        assert(bits@ =~= binary@.subrange(0, i as int));
    }
    while bits.len() < 6
        invariant
            binary@.len() <= bits@.len() <= 6,
            bits@ == binary@ + Seq::new((bits@.len() - binary@.len()) as nat, |k: int| false),
        decreases 6 - bits@.len(),
    {
        bits.push(false);
        assert(bits@ =~= binary@ + Seq::new((bits@.len() - binary@.len()) as nat, |k: int| false));
    }
    assert(binary@.subrange(0, binary@.len() as int) =~= binary@);
    assert(bits@ =~= pad_six(binary@));
    let mut c: u8 = 0;
    let mut j: usize = 0;
    proof {
        vstd::arithmetic::power2::lemma2_to64();
        assert(bits@.subrange(0, 0) =~= Seq::<bool>::empty());
    }
    while j < 6
        invariant
            bits@.len() == 6,
            j <= 6,
            c == bits_value(bits@.subrange(0, j as int)),
            c < vstd::arithmetic::power2::pow2(j as nat),
        decreases 6 - j,
    {
        proof {
            vstd::arithmetic::power2::lemma2_to64();
            assert(bits@.subrange(0, j + 1).drop_last() =~= bits@.subrange(0, j as int));
            vstd::arithmetic::power2::lemma_pow2_unfold((j + 1) as nat);
        }
        c = 2 * c + if bits[j] {
            1
        } else {
            0
        };
        j += 1;
    }
    assert(bits@.subrange(0, 6) =~= bits@);
    if c <= 25 {
        (65 + c) as char
    } else if c <= 51 {
        (71 + c) as char
    } else if c <= 61 {
        (c - 4) as char
    } else if c == 62 {
        '+'
    } else {
        '/'
    }
}

/// The bytes that a base64 text spells: six bits per digit, `=` standing
/// for none, and every whole group of eight bits one byte.
pub fn base64_to_bytes(base64: &str) -> (r: Vec<u8>)
    requires
        base64@.len() % 4 == 0,
        forall|i: int|
            0 <= i < base64@.len() ==> is_base64_digit(#[trigger] base64@[i]) || base64@[i] == '=',
    ensures
        r@ == bytes_of_bits(base64_bits(base64@)),
{
    let chars = chars_of(base64);
    let mut bits: Vec<bool> = Vec::new();
    let mut i: usize = 0;
    while i < chars.len()
        invariant
            chars@ == base64@,
            i <= chars@.len(),
            forall|i: int|
                0 <= i < base64@.len() ==> is_base64_digit(#[trigger] base64@[i]) || base64@[i]
                    == '=',
            bits@ == base64_bits(base64@.subrange(0, i as int)),
        decreases chars@.len() - i,
    {
        let more = base64_to_binary(chars[i]);
        let mut k: usize = 0;
        let ghost before = bits@;
        while k < more.len()
            invariant
                k <= more@.len(),
                bits@ == before + more@.subrange(0, k as int),
            decreases more@.len() - k,
        {
            bits.push(more[k]);
            k += 1;
            assert(bits@ =~= before + more@.subrange(0, k as int));
        }
        assert(more@.subrange(0, more@.len() as int) =~= more@);
        assert(base64@.subrange(0, i + 1).drop_last() =~= base64@.subrange(0, i as int));
        i += 1;
    }
    assert(base64@.subrange(0, chars@.len() as int) =~= base64@);
    let blen = bits.len();
    let n = blen / 8;
    let mut out: Vec<u8> = Vec::with_capacity(n);
    let mut b: usize = 0;
    while b < n
        invariant
            blen == bits@.len(),
            n == blen / 8,
            b <= n,
            out@ == bytes_of_bits(bits@).subrange(0, b as int),
        decreases n - b,
    {
        let mut chunk: Vec<bool> = Vec::with_capacity(8);
        let mut k: usize = 0;
        while k < 8
            invariant
                blen == bits@.len(),
                b < n,
                n == blen / 8,
                k <= 8,
                chunk@ == bits@.subrange(8 * b, 8 * b + k),
            decreases 8 - k,
        {
            chunk.push(bits[8 * b + k]);
            k += 1;
            assert(chunk@ =~= bits@.subrange(8 * b, 8 * b + k));
        }
        let v = binary_to_byte(chunk.as_slice());
        proof {
            lemma_bits_value_bound(chunk@);
            vstd::arithmetic::power2::lemma2_to64();
        }
        out.push(v);
        b += 1;
        assert(out@ =~= bytes_of_bits(bits@).subrange(0, b as int));
    }
    assert(bytes_of_bits(bits@).subrange(0, n as int) =~= bytes_of_bits(bits@));
    out
}

/// Base64 text of `bytes`: a digit per six bits (the last group filled with
/// zero bits), then `=` up to a multiple of four characters.
pub fn bytes_to_base64(bytes: &[u8]) -> (r: String)
    requires
        8 * bytes@.len() + 8 <= usize::MAX,
    ensures
        r@ == base64_encode(bytes@),
{
    let mut bits: Vec<bool> = Vec::new();
    let mut i: usize = 0;
    while i < bytes.len()
        invariant
            8 * bytes@.len() + 8 <= usize::MAX,
            i <= bytes@.len(),
            bits@ == bits_of_bytes(bytes@.subrange(0, i as int)),
        decreases bytes@.len() - i,
    {
        let more = byte_to_binary(bytes[i]);
        let mut k: usize = 0;
        let ghost before = bits@;
        while k < 8
            invariant
                k <= 8,
                more@ == Seq::new(8, |j: int| bit_from_top(bytes@[i as int], j)),
                bits@ == before + more@.subrange(0, k as int),
            decreases 8 - k,
        {
            bits.push(more[k]);
            k += 1;
            assert(bits@ =~= before + more@.subrange(0, k as int));
        }
        assert(more@.subrange(0, 8) =~= more@);
        proof {
            let s1 = bytes@.subrange(0, i + 1);
            assert forall|j: int| 0 <= j < 8 * (i + 1) implies #[trigger] bits@[j]
                == bits_of_bytes(s1)[j] by {
                if j < 8 * i {
                    assert(bits_of_bytes(bytes@.subrange(0, i as int))[j] == bits_of_bytes(s1)[j]);
                } else {
                    assert((j - 8 * i) == j % 8);
                    assert(j / 8 == i);
                }
            }
            assert(bits@ =~= bits_of_bytes(s1));
        }
        i += 1;
    }
    assert(bytes@.subrange(0, bytes@.len() as int) =~= bytes@);
    let ghost all = bits_of_bytes(bytes@);
    let blen = bits.len();
    let n = (blen + 5) / 6;
    let ghost digits = base64_digits(all);
    let mut out: Vec<char> = Vec::new();
    let mut c: usize = 0;
    while c < n
        invariant
            bits@ == all,
            blen == all.len(),
            blen <= usize::MAX - 8,
            n == (blen + 5) / 6,
            c <= n,
            digits == base64_digits(all),
            out@ == digits.subrange(0, c as int),
        decreases n - c,
    {
        let end = if 6 * c + 6 <= blen { 6 * c + 6 } else { blen };
        let mut chunk: Vec<bool> = Vec::with_capacity(6);
        let mut k: usize = 6 * c;
        while k < end
            invariant
                6 * c <= k <= end <= blen,
                blen == bits@.len(),
                end <= 6 * c + 6,
                chunk@ == bits@.subrange(6 * c, k as int),
            decreases end - k,
        {
            chunk.push(bits[k]);
            k += 1;
            assert(chunk@ =~= bits@.subrange(6 * c, k as int));
        }
        let digit = binary_to_base64(chunk.as_slice());
        assert(chunk@ == all.subrange(6 * c, if 6 * c + 6 <= all.len() {
            6 * c + 6
        } else {
            all.len() as int
        }));
        assert(digit == digits[c as int]);
        out.push(digit);
        c += 1;
        assert(out@ =~= digits.subrange(0, c as int));
    }
    assert(digits.subrange(0, n as int) =~= digits);
    let pad: usize = (4 - n % 4) % 4;
    let mut p: usize = 0;
    while p < pad
        invariant
            digits == base64_digits(all),
            all == bits_of_bytes(bytes@),
            p <= pad <= 3,
            out@ == digits + Seq::new(p as nat, |k: int| '='),
        decreases pad - p,
    {
        out.push('=');
        p += 1;
        assert(out@ =~= digits + Seq::new(p as nat, |k: int| '='));
    }
    string_from_chars(&out)
}

} // verus!
