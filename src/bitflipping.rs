use vstd::prelude::*;

use crate::bytes::{copy_range, lemma_block_index};
use crate::cbc::{cbc_decrypt_spec, cbc_encrypts, lemma_cbc_decrypt_inverts};
use crate::cipher::ecb_decrypt_spec;
use crate::codec::{chars_of, string_from_chars};
use crate::error::CryptoError;
use crate::oracles::{
    gen_aes_cbc_encrypt_decrypt_oracles, is_cbc_decrypt_oracle, is_cbc_encrypt_oracle,
};
use crate::pkcs7::{pkcs7_pad, pkcs7_strip};
use crate::query::{encode_char, encode_meta, encode_meta_spec};

verus! {

/// `flipped` is `ciphertext` with, for each byte `t` of `desired`, the byte
/// 16 positions before `offset + t` exclusive-or'ed with `known[offset + t] ^
/// desired[t]`, and every other byte kept.
pub open spec fn flips(
    ciphertext: Seq<u8>,
    known: Seq<u8>,
    desired: Seq<u8>,
    offset: int,
    flipped: Seq<u8>,
) -> bool {
    &&& flipped.len() == ciphertext.len()
    &&& forall|i: int|
        0 <= i < ciphertext.len() ==> #[trigger] flipped[i] == if offset - 16 <= i < offset - 16
            + desired.len() {
            ciphertext[i] ^ known[i + 16] ^ desired[i + 16 - offset]
        } else {
            ciphertext[i]
        }
}

/// CBC bit flipping: exclusive-ors `known[offset..] ^ desired` into the
/// ciphertext block before the one holding `offset`, so that after CBC
/// decryption the plaintext bytes at `offset` read `desired` (at the cost of
/// the plaintext block before them).
pub fn flip_bits(ciphertext: &[u8], known: &[u8], desired: &[u8], offset: usize) -> (r: Vec<u8>)
    requires
        16 <= offset,
        offset % 16 + desired@.len() <= 16,
        offset + desired@.len() <= known@.len(),
        offset <= ciphertext@.len(),
    ensures
        flips(ciphertext@, known@, desired@, offset as int, r@),
{
    let mut r = copy_range(ciphertext, 0, ciphertext.len());
    assert(ciphertext@.subrange(0, ciphertext@.len() as int) =~= ciphertext@);
    let mut t: usize = 0;
    while t < desired.len()
        invariant
            16 <= offset,
            offset % 16 + desired@.len() <= 16,
            offset + desired@.len() <= known@.len(),
            offset <= ciphertext@.len(),
            t <= desired@.len(),
            r@.len() == ciphertext@.len(),
            forall|i: int|
                0 <= i < ciphertext@.len() ==> #[trigger] r@[i] == if offset - 16 <= i < offset
                    - 16 + t {
                    ciphertext@[i] ^ known@[i + 16] ^ desired@[i + 16 - offset]
                } else {
                    ciphertext@[i]
                },
        decreases desired@.len() - t,
    {
        let i = offset - 16 + t;
        let v = r[i] ^ known[offset + t] ^ desired[t];
        r.set(i, v);
        t += 1;
    }
    r
}

proof fn lemma_xor_cancel(a: u8, c: u8, x: u8)
    ensures
        a ^ (c ^ (a ^ c) ^ x) == x,
{
    assert(a ^ (c ^ (a ^ c) ^ x) == x) by (bit_vector);
}

/// Flipping bits as `flip_bits` does in a CBC encryption of `plaintext` makes
/// the decryption read `desired` at `offset`; every byte outside the target
/// bytes and the block before them still decrypts to the plaintext.
pub proof fn lemma_bit_flip(
    key: Seq<u8>,
    iv: Seq<u8>,
    plaintext: Seq<u8>,
    ciphertext: Seq<u8>,
    desired: Seq<u8>,
    offset: int,
    flipped: Seq<u8>,
)
    requires
        iv.len() == 16,
        cbc_encrypts(key, iv, plaintext, ciphertext),
        16 <= offset,
        offset % 16 + desired.len() <= 16,
        offset + desired.len() <= plaintext.len(),
        flips(ciphertext, plaintext, desired, offset, flipped),
    ensures
        cbc_decrypt_spec(key, iv, flipped).len() == plaintext.len(),
        forall|t: int|
            0 <= t < desired.len() ==> #[trigger] cbc_decrypt_spec(key, iv, flipped)[offset + t]
                == desired[t],
        forall|j: int|
            0 <= j < plaintext.len() && j / 16 != offset / 16 - 1 && !(offset <= j < offset
                + desired.len()) ==> #[trigger] cbc_decrypt_spec(key, iv, flipped)[j]
                == plaintext[j],
{
    lemma_cbc_decrypt_inverts(key, iv, plaintext, ciphertext);
    let d = cbc_decrypt_spec(key, iv, ciphertext);
    let d2 = cbc_decrypt_spec(key, iv, flipped);
    let tb = offset / 16 - 1;
    assert forall|j: int| 0 <= j < plaintext.len() && j / 16 != tb implies ecb_decrypt_spec(
        key,
        flipped,
    )[j] == ecb_decrypt_spec(key, ciphertext)[j] by {
        let b = j / 16;
        assert forall|e: int| 0 <= e < 16 implies #[trigger] crate::bytes::block_at(flipped, b)[e]
            == crate::bytes::block_at(ciphertext, b)[e] by {
            lemma_block_index(b, e);
        }
        assert(crate::bytes::block_at(flipped, b) =~= crate::bytes::block_at(ciphertext, b));
    }
    assert forall|t: int| 0 <= t < desired.len() implies #[trigger] d2[offset + t]
        == desired[t] by {
        let j = offset + t;
        assert(j / 16 == offset / 16);
        assert((iv + flipped)[j] == flipped[j - 16]);
        assert((iv + ciphertext)[j] == ciphertext[j - 16]);
        assert(d[j] == plaintext[j]);
        let a = ecb_decrypt_spec(key, ciphertext)[j];
        let c = ciphertext[j - 16];
        assert(d2[j] == a ^ (c ^ plaintext[j] ^ desired[t]));
        assert(plaintext[j] == a ^ c);
        lemma_xor_cancel(a, c, desired[t]);
    }
    assert forall|j: int|
        0 <= j < plaintext.len() && j / 16 != tb && !(offset <= j < offset
            + desired.len()) implies #[trigger] d2[j] == plaintext[j] by {
        assert(d[j] == plaintext[j]);
        if j >= 16 {
            assert((iv + flipped)[j] == flipped[j - 16]);
            assert((iv + ciphertext)[j] == ciphertext[j - 16]);
        }
    }
}

/// The character codes of `s`, one byte each (its ASCII bytes).
pub open spec fn ascii_codes(s: Seq<char>) -> Seq<u8> {
    Seq::new(s.len(), |i: int| s[i] as u8)
}

/// Whether `s` holds the bytes of `;admin=true;` somewhere.
pub open spec fn contains_admin(s: Seq<u8>) -> bool {
    exists|i: int| 0 <= i && i + 12 <= s.len() && #[trigger] s.subrange(i, i + 12) == ascii_codes(
        ";admin=true;"@,
    )
}

/// One byte per character: the character's code, truncated to 8 bits.
fn text_bytes(s: &str) -> (r: Vec<u8>)
    ensures
        r@ == ascii_codes(s@),
{
    let chars = chars_of(s);
    let mut r: Vec<u8> = Vec::with_capacity(chars.len());
    let mut i: usize = 0;
    while i < chars.len()
        invariant
            chars@ == s@,
            i <= chars@.len(),
            r@ == ascii_codes(s@.subrange(0, i as int)),
        decreases chars@.len() - i,
    {
        r.push(chars[i] as u8);
        i += 1;
        assert(r@ =~= ascii_codes(s@.subrange(0, i as int)));
    }
    assert(s@.subrange(0, chars@.len() as int) =~= s@);
    r
}

/// Whether the text of `bytes` contains `;admin=true;`.
pub fn is_admin(bytes: &[u8]) -> (r: bool)
    ensures
        r == contains_admin(bytes@),
{
    let marker = text_bytes(";admin=true;");
    proof {
        reveal_strlit(";admin=true;");
    }
    assert(marker@.len() == 12);
    if bytes.len() < 12 {
        return false;
    }
    let blen = bytes.len();
    let last = blen - 12;
    let mut i: usize = 0;
    while i <= last
        invariant
            last + 12 == bytes@.len(),
            last + 12 == blen,
            i <= last + 1,
            marker@ == ascii_codes(";admin=true;"@),
            marker@.len() == 12,
            forall|k: int|
                0 <= k < i && k + 12 <= bytes@.len() ==> #[trigger] bytes@.subrange(k, k + 12)
                    != marker@,
        decreases bytes@.len() - i,
    {
        if crate::bytes::ranges_equal(bytes, i, marker.as_slice(), 0, 12) {
            assert(marker@.subrange(0, 12) =~= marker@);
            return true;
        }
        assert(marker@.subrange(0, 12) =~= marker@);
        i += 1;
    }
    false
}

/// Text with no metacharacter is left as it is by percent-encoding.
proof fn lemma_encode_plain(s: Seq<char>, meta: Seq<char>)
    requires
        forall|i: int| 0 <= i < s.len() ==> !meta.contains(#[trigger] s[i]),
    ensures
        encode_meta_spec(s, meta) == s,
    decreases s.len(),
{
    if s.len() > 0 {
        lemma_encode_plain(s.drop_last(), meta);
        assert(encode_char(s.last(), meta) == seq![s.last()]);
        assert(s.drop_last().push(s.last()) =~= s);
    }
}

/// The text `prefix`, then `userdata` with `;` and `=` percent-encoded, then
/// `suffix`.
fn profile_for(prefix: &str, userdata: &str, suffix: &str) -> (r: String)
    ensures
        r@ == prefix@ + encode_meta_spec(userdata@, seq![';', '=']) + suffix@,
{
    let meta: Vec<char> = vec![';', '='];
    assert(meta@ =~= seq![';', '=']);
    let encoded = encode_meta(userdata, meta.as_slice());
    let mut out = chars_of(prefix);
    let mid = chars_of(encoded.as_str());
    let tail = chars_of(suffix);
    let mut i: usize = 0;
    while i < mid.len()
        invariant
            i <= mid@.len(),
            out@ == prefix@ + mid@.subrange(0, i as int),
        decreases mid@.len() - i,
    {
        out.push(mid[i]);
        i += 1;
        assert(out@ =~= prefix@ + mid@.subrange(0, i as int));
    }
    let mut j: usize = 0;
    while j < tail.len()
        invariant
            j <= tail@.len(),
            out@ == prefix@ + mid@ + tail@.subrange(0, j as int),
        decreases tail@.len() - j,
    {
        out.push(tail[j]);
        j += 1;
        assert(out@ =~= prefix@ + mid@ + tail@.subrange(0, j as int));
    }
    assert(mid@.subrange(0, mid@.len() as int) =~= mid@);
    assert(tail@.subrange(0, tail@.len() as int) =~= tail@);
    string_from_chars(&out)
}

/// The attack's plaintext: a comment template around 16 bytes `a` of user data.
pub open spec fn comment_template() -> Seq<u8> {
    ascii_codes(
        "comment1=cooking%20MCs;userdata="@ + Seq::new(16, |i: int| 'a')
            + ";comment2=%20like%20a%20pound%20of%20bacon"@,
    )
}

/// The bytes the attack makes the user data decrypt to.
pub open spec fn admin_target() -> Seq<u8> {
    ascii_codes(";admin=true;a="@)
}

/// The CBC bit-flipping attack: a comment template with 16 bytes of user
/// data is encrypted by an oracle under a fresh random key and IV, bits of the
/// ciphertext block before the user data are flipped so that the user data
/// decrypts to `;admin=true;a=`, and the decryption oracle's plaintext is
/// returned; it always contains `;admin=true;`.
pub fn cbc_bitflipping_attack_admin() -> (r: Result<Vec<u8>, CryptoError>)
    ensures
        r is Ok,
        exists|key: Seq<u8>, iv: Seq<u8>, c: Seq<u8>, f: Seq<u8>|
            #![trigger cbc_encrypts(key, iv, pkcs7_pad(comment_template(), 16), c), flips(c, pkcs7_pad(comment_template(), 16), admin_target(), 48, f)]
            key.len() == 16 && iv.len() == 16 && cbc_encrypts(
                key,
                iv,
                pkcs7_pad(comment_template(), 16),
                c,
            ) && flips(c, pkcs7_pad(comment_template(), 16), admin_target(), 48, f)
                && pkcs7_strip(cbc_decrypt_spec(key, iv, f)) == Some(r->Ok_0@),
        r->Ok_0@.len() == 90,
        r->Ok_0@.len() == comment_template().len(),
        forall|t: int| 0 <= t < 14 ==> r->Ok_0@[48 + t] == #[trigger] admin_target()[t],
        forall|j: int|
            0 <= j < 90 && !(32 <= j < 62) ==> #[trigger] r->Ok_0@[j] == comment_template()[j],
        contains_admin(r->Ok_0@),
{
    let userdata = string_from_chars(&vec!['a'; 16]);
    let template = profile_for(
        "comment1=cooking%20MCs;userdata=",
        userdata.as_str(),
        ";comment2=%20like%20a%20pound%20of%20bacon",
    );
    let encoded = text_bytes(template.as_str());
    let (encrypt, decrypt) = gen_aes_cbc_encrypt_decrypt_oracles();
    let ghost (key, iv) = choose|key: Seq<u8>, iv: Seq<u8>|
        key.len() == 16 && iv.len() == 16 && is_cbc_encrypt_oracle(encrypt, key, iv)
            && #[trigger] is_cbc_decrypt_oracle(decrypt, key, iv);
    proof {
        reveal_strlit("comment1=cooking%20MCs;userdata=");
        reveal_strlit(";comment2=%20like%20a%20pound%20of%20bacon");
        assert(userdata@ =~= Seq::new(16, |i: int| 'a'));
        lemma_encode_plain(userdata@, seq![';', '=']);
        assert(encoded@ =~= comment_template());
        assert(encoded@.len() == 90);
    }
    let es = encoded.as_slice();
    let ciphertext = encrypt(es);
    let target = text_bytes(";admin=true;a=");
    proof {
        reveal_strlit(";admin=true;a=");
        assert(target@.len() == 14);
    }
    let flipped = flip_bits(ciphertext.as_slice(), encoded.as_slice(), target.as_slice(), 48);
    let fs = flipped.as_slice();
    let plaintext = decrypt(fs);
    proof {
        reveal_strlit(";admin=true;");
        let p = pkcs7_pad(encoded@, 16);
        crate::pkcs7::lemma_strip_pad(encoded@, 16);
        assert(p.len() == 96);
        assert forall|i: int| 0 <= i < ciphertext@.len() implies #[trigger] flipped@[i] == (if 32
            <= i < 46 {
            ciphertext@[i] ^ p[i + 16] ^ target@[i + 16 - 48]
        } else {
            ciphertext@[i]
        }) by {
            if 32 <= i < 46 {
                assert(p[i + 16] == encoded@[i + 16]);
            }
        }
        assert(flips(ciphertext@, p, target@, 48, flipped@));
        lemma_bit_flip(key, iv, p, ciphertext@, target@, 48, flipped@);
        let d = cbc_decrypt_spec(key, iv, flipped@);
        assert forall|j: int| 90 <= j < 96 implies d[j] == 6 by {
            assert(j / 16 == 5);
            assert(p[j] == 6);
        }
        assert(crate::pkcs7::pkcs7_valid(d));
        let m = d.subrange(0, 90);
        assert(pkcs7_strip(d) == Some(m));
        assert(call_ensures(decrypt, (fs,), plaintext));
        assert(plaintext is Ok && plaintext->Ok_0@ == m);
        assert(target@ == admin_target());
        assert(cbc_encrypts(key, iv, pkcs7_pad(comment_template(), 16), ciphertext@));
        assert(flips(ciphertext@, pkcs7_pad(comment_template(), 16), admin_target(), 48, flipped@));
        assert forall|t: int| 0 <= t < 14 implies m[48 + t] == #[trigger] admin_target()[t] by {}
        assert forall|j: int| 0 <= j < 90 && !(32 <= j < 62) implies #[trigger] m[j]
            == comment_template()[j] by {
            assert(j / 16 != 2);
            assert(p[j] == encoded@[j]);
        }
        assert(contains_admin(m)) by {
            assert forall|t: int| 0 <= t < 12 implies m[48 + t] == target@[t] by {}
            let w: int = 48;
            assert(m.subrange(w, w + 12) =~= ascii_codes(";admin=true;"@));
        }
    }
    plaintext
}

} // verus!
