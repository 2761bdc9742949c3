use block_modes::cbc::{decrypt_aes_cbc, encrypt_aes_cbc};
use block_modes::codec::{base64_to_bytes, hex_to_bytes};
use block_modes::ctr::{decrypt_aes_ctr, encrypt_aes_ctr};
use block_modes::ecb::{decrypt_aes_ecb, encrypt_aes_ecb};
use block_modes::error::CryptoError;
use block_modes::oracles::encrypt_fixed_nonce_ctr;
use block_modes::pkcs7::strip_pkcs7;

const KEY: &[u8; 16] = b"YELLOW SUBMARINE";

#[test]
fn ecb_matches_aes_test_vector() {
    let key = hex_to_bytes("000102030405060708090a0b0c0d0e0f");
    let plaintext = hex_to_bytes("00112233445566778899aabbccddeeff");
    let ciphertext = encrypt_aes_ecb(&plaintext, &key);
    assert_eq!(ciphertext.len(), 32);
    assert_eq!(
        &ciphertext[..16],
        &hex_to_bytes("69c4e0d86a7b0430d8cdb78070b4c55a")[..]
    );
    let decrypted = decrypt_aes_ecb(&ciphertext, &key).unwrap();
    assert_eq!(&decrypted[..16], &plaintext[..]);
    assert_eq!(&decrypted[16..], &[16u8; 16]);
}

#[test]
fn ecb_round_trip() {
    for len in [0usize, 1, 15, 16, 17, 32, 100] {
        let plaintext: Vec<u8> = (0..len).map(|i| (i * 13) as u8).collect();
        let ciphertext = encrypt_aes_ecb(&plaintext, KEY);
        assert_eq!(ciphertext.len(), (len / 16 + 1) * 16);
        let decrypted = decrypt_aes_ecb(&ciphertext, KEY).unwrap();
        assert_eq!(strip_pkcs7(&decrypted), Ok(plaintext));
    }
}

#[test]
fn ecb_equal_blocks_encrypt_equally() {
    let ciphertext = encrypt_aes_ecb(&[7u8; 32], KEY);
    assert_eq!(&ciphertext[..16], &ciphertext[16..32]);
}

#[test]
fn ecb_decrypt_rejects_partial_block() {
    assert_eq!(decrypt_aes_ecb(&[0u8; 20], KEY), Err(CryptoError::MalformedInput));
}

#[test]
fn cbc_round_trip() {
    let iv = [9u8; 16];
    for len in [0usize, 5, 16, 33, 64] {
        let plaintext: Vec<u8> = (0..len).map(|i| (i * 31 + 1) as u8).collect();
        let ciphertext = encrypt_aes_cbc(&plaintext, KEY, &iv).unwrap();
        assert_eq!(ciphertext.len(), (len / 16 + 1) * 16);
        assert_eq!(decrypt_aes_cbc(&ciphertext, KEY, &iv), Ok(plaintext));
    }
}

#[test]
fn cbc_chains_blocks() {
    let iv = [0u8; 16];
    let ciphertext = encrypt_aes_cbc(&[0u8; 48], KEY, &iv).unwrap();
    assert_ne!(&ciphertext[..16], &ciphertext[16..32]);
    assert_ne!(&ciphertext[16..32], &ciphertext[32..48]);
    let ecb = encrypt_aes_ecb(&[0u8; 16], KEY);
    assert_eq!(&ciphertext[..16], &ecb[..16]);
}

#[test]
fn cbc_rejects_bad_lengths() {
    assert_eq!(
        encrypt_aes_cbc(b"abc", KEY, &[0u8; 8]),
        Err(CryptoError::MalformedInput)
    );
    assert_eq!(
        decrypt_aes_cbc(&[0u8; 17], KEY, &[0u8; 16]),
        Err(CryptoError::MalformedInput)
    );
    assert_eq!(
        decrypt_aes_cbc(&[0u8; 16], KEY, &[0u8; 15]),
        Err(CryptoError::MalformedInput)
    );
}

#[test]
fn cbc_reports_invalid_padding() {
    let iv = [1u8; 16];
    let mut ciphertext = encrypt_aes_cbc(b"sixteen byte msg", KEY, &iv).unwrap();
    let n = ciphertext.len();
    ciphertext[n - 17] ^= 0x10;
    assert_eq!(
        decrypt_aes_cbc(&ciphertext, KEY, &iv),
        Err(CryptoError::InvalidPadding)
    );
    assert_eq!(decrypt_aes_cbc(&[], KEY, &iv), Err(CryptoError::InvalidPadding));
}

#[test]
fn ctr_decrypts_known_ciphertext() {
    let ciphertext = base64_to_bytes(
        "L77na/nrFsKvynd6HzOoG7GHTLXsTVu9qvY/2syLXzhPweyyMTJULu/6/kXX0KSvoOLSFQ==",
    );
    let plaintext = decrypt_aes_ctr(&ciphertext, KEY, &[0u8; 8]).unwrap();
    assert_eq!(
        plaintext,
        b"Yo, VIP Let's kick it Ice, Ice, baby Ice, Ice, baby ".to_vec()
    );
}

#[test]
fn ctr_empty_plaintext() {
    assert_eq!(encrypt_aes_ctr(&[], KEY, &[0u8; 8]), Ok(vec![]));
}

#[test]
fn ctr_round_trip() {
    let nonce = [3u8, 1, 4, 1, 5, 9, 2, 6];
    for len in [1usize, 15, 16, 17, 70] {
        let plaintext: Vec<u8> = (0..len).map(|i| (i * 5 + 11) as u8).collect();
        let ciphertext = encrypt_aes_ctr(&plaintext, KEY, &nonce).unwrap();
        assert_eq!(ciphertext.len(), len);
        assert_ne!(ciphertext, plaintext);
        assert_eq!(decrypt_aes_ctr(&ciphertext, KEY, &nonce), Ok(plaintext));
    }
}

#[test]
fn ctr_rejects_bad_nonce() {
    assert_eq!(
        encrypt_aes_ctr(b"abc", KEY, &[0u8; 16]),
        Err(CryptoError::MalformedInput)
    );
    assert_eq!(
        decrypt_aes_ctr(b"abc", KEY, &[0u8; 7]),
        Err(CryptoError::MalformedInput)
    );
}

#[test]
fn fixed_nonce_reuses_keystream() {
    let plaintexts = vec![b"first message here".to_vec(), b"second one".to_vec()];
    let ciphertexts = encrypt_fixed_nonce_ctr(&plaintexts, &[0u8; 8]).unwrap();
    assert_eq!(ciphertexts.len(), 2);
    for i in 0..10 {
        assert_eq!(
            ciphertexts[0][i] ^ ciphertexts[1][i],
            plaintexts[0][i] ^ plaintexts[1][i]
        );
    }
    assert_eq!(
        encrypt_fixed_nonce_ctr(&plaintexts, &[0u8; 4]).err(),
        Some(CryptoError::MalformedInput)
    );
}
