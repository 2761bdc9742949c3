use vstd::prelude::*;

use crate::bitflipping::ascii_codes;
use crate::bytes::{append_range, block_at, repeat_byte};
use crate::cipher::{aes128_decrypt, ecb_decrypt_spec};
use crate::codec::{chars_of, string_from_chars};
use crate::error::CryptoError;
use crate::oracles::{gen_aes_ecb_encrypt_decrypt_oracles, is_ecb_decrypt_oracle, is_ecb_encrypt_oracle};
use crate::pkcs7::pkcs7_pad;
use crate::query::{encode_meta_spec, profile_for, query_string_spec};

verus! {

/// One byte per character: the character's code, truncated to 8 bits.
fn text_codes(s: &str) -> (r: Vec<u8>)
    ensures
        r@ == ascii_codes(s@),
{
    let chars = chars_of(s);
    let mut r: Vec<u8> = Vec::with_capacity(chars.len());
    let mut i: usize = 0;
    while i < chars.len()
        invariant
            chars@ == s@,
            i <= chars@.len(),
            r@ == ascii_codes(s@.subrange(0, i as int)),
        decreases chars@.len() - i,
    {
        r.push(chars[i] as u8);
        i += 1;
        assert(r@ =~= ascii_codes(s@.subrange(0, i as int)));
    }
    assert(s@.subrange(0, chars@.len() as int) =~= s@);
    r
}

/// Text with neither `&` nor `=` is left as it is by percent-encoding.
proof fn lemma_plain(s: Seq<char>)
    requires
        forall|i: int| 0 <= i < s.len() ==> #[trigger] s[i] != '&' && s[i] != '=',
    ensures
        encode_meta_spec(s, seq!['&', '=']) == s,
    decreases s.len(),
{
    if s.len() > 0 {
        lemma_plain(s.drop_last());
        let m = seq!['&', '='];
        assert(!m.contains(s.last())) by {
            if m.contains(s.last()) {
                let k = choose|k: int| 0 <= k < m.len() && m[k] == s.last();
                assert(k == 0 || k == 1);
            }
        }
        assert(s.drop_last().push(s.last()) =~= s);
    }
}

/// The ECB cut-and-paste attack: encrypts the profile of `foooo@bar.com`,
/// which leaves `role=` at the end of its second block, and the profile of an
/// address that puts `admin` and its padding alone in a block; pastes that
/// block after the first two blocks of the first ciphertext and returns the
/// decryption, which reads `email=foooo@bar.com&uid=10&role=admin` and eleven
/// padding bytes of value 11.
pub fn ecb_cut_and_paste_admin_profile() -> (r: Result<Vec<u8>, CryptoError>)
    ensures
        r is Ok && r->Ok_0@ == ascii_codes("email=foooo@bar.com&uid=10&role=admin"@)
            + repeat_byte(11, 11),
{
    let base = profile_for("foooo@bar.com");
    let mut admin_chars = chars_of("aaaaaaaaaaadmin");
    let mut k: usize = 0;
    while k < 11
        invariant
            k <= 11,
            admin_chars@ == "aaaaaaaaaaadmin"@ + Seq::new(k as nat, |i: int| 11u8 as char),
        decreases 11 - k,
    {
        admin_chars.push(11u8 as char);
        k += 1;
        assert(admin_chars@ =~= "aaaaaaaaaaadmin"@ + Seq::new(k as nat, |i: int| 11u8 as char));
    }
    let admin_email = string_from_chars(&admin_chars);
    let admin = profile_for(admin_email.as_str());
    let base_bytes = text_codes(base.as_str());
    let admin_bytes = text_codes(admin.as_str());
    let (encrypt, decrypt) = gen_aes_ecb_encrypt_decrypt_oracles();
    let ghost key = choose|key: Seq<u8>|
        key.len() == 16 && is_ecb_encrypt_oracle(encrypt, key) && #[trigger] is_ecb_decrypt_oracle(
            decrypt,
            key,
        );
    proof {
        reveal_strlit("foooo@bar.com");
        reveal_strlit("aaaaaaaaaaadmin");
        reveal_strlit("email");
        reveal_strlit("uid");
        reveal_strlit("10");
        reveal_strlit("role");
        reveal_strlit("user");
        reveal_strlit("email=foooo@bar.com&uid=10&role=admin");
        lemma_plain("foooo@bar.com"@);
        lemma_plain(admin_email@);
        lemma_plain("email"@);
        lemma_plain("uid"@);
        lemma_plain("10"@);
        lemma_plain("role"@);
        lemma_plain("user"@);
        reveal_strlit("email=foooo@bar.com&uid=10&role=user");
        let pairs = seq![("email"@, "foooo@bar.com"@), ("uid"@, "10"@), ("role"@, "user"@)];
        let q1 = query_string_spec(pairs.drop_last().drop_last(), '&', '=');
        let q2 = query_string_spec(pairs.drop_last(), '&', '=');
        assert(pairs.drop_last().drop_last().len() == 1);
        assert(q1 == "email"@ + seq!['='] + "foooo@bar.com"@);
        assert(q2 == q1 + seq!['&'] + ("uid"@ + seq!['='] + "10"@));
        assert(base@ == q2 + seq!['&'] + ("role"@ + seq!['='] + "user"@));
        assert(base@ =~= "email=foooo@bar.com&uid=10&role=user"@);
        let apairs = seq![("email"@, admin_email@), ("uid"@, "10"@), ("role"@, "user"@)];
        let a1 = query_string_spec(apairs.drop_last().drop_last(), '&', '=');
        let a2 = query_string_spec(apairs.drop_last(), '&', '=');
        assert(apairs.drop_last().drop_last().len() == 1);
        assert(a1 == "email"@ + seq!['='] + admin_email@);
        assert(a2 == a1 + seq!['&'] + ("uid"@ + seq!['='] + "10"@));
        assert(admin@ == a2 + seq!['&'] + ("role"@ + seq!['='] + "user"@));
        assert(admin@.len() == 49);
    }
    let bs = base_bytes.as_slice();
    let abs = admin_bytes.as_slice();
    let ciphertext_base = encrypt(bs);
    let ciphertext_admin = encrypt(abs);
    let mut combined: Vec<u8> = Vec::new();
    append_range(&mut combined, ciphertext_base.as_slice(), 0, 32);
    append_range(&mut combined, ciphertext_admin.as_slice(), 16, 32);
    let cs = combined.as_slice();
    let r = decrypt(cs);
    proof {
        let pb = pkcs7_pad(base_bytes@, 16);
        let pa = pkcs7_pad(admin_bytes@, 16);
        crate::pkcs7::lemma_strip_pad(base_bytes@, 16);
        crate::pkcs7::lemma_strip_pad(admin_bytes@, 16);
        assert(call_ensures(encrypt, (bs,), ciphertext_base));
        assert(call_ensures(encrypt, (abs,), ciphertext_admin));
        assert(call_ensures(decrypt, (cs,), r));
        let expected = ascii_codes("email=foooo@bar.com&uid=10&role=admin"@) + repeat_byte(11, 11);
        let d = ecb_decrypt_spec(key, combined@);
        assert(combined@.len() == 48);
        assert(block_at(combined@, 0) =~= block_at(ciphertext_base@, 0));
        assert(block_at(combined@, 1) =~= block_at(ciphertext_base@, 1));
        assert(block_at(combined@, 2) =~= block_at(ciphertext_admin@, 1));
        assert(aes128_decrypt(key, block_at(combined@, 0)) == block_at(pb, 0));
        assert(aes128_decrypt(key, block_at(combined@, 1)) == block_at(pb, 1));
        assert(aes128_decrypt(key, block_at(combined@, 2)) == block_at(pa, 1));
        assert forall|b: int| 0 <= b < 3 implies #[trigger] block_at(d, b) == block_at(
            expected,
            b,
        ) by {
            crate::cipher::lemma_ecb_decrypt_block(key, combined@, b);
            if b < 2 {
                assert(block_at(pb, b) =~= block_at(expected, b));
            } else {
                assert(block_at(pa, 1) =~= block_at(expected, b));
            }
        }
        crate::bytes::lemma_equal_by_blocks(d, expected);
    }
    r
}

} // verus!
