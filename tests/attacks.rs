use block_modes::bitflipping::{cbc_bitflipping_attack_admin, flip_bits, is_admin};
use block_modes::cut_and_paste::ecb_cut_and_paste_admin_profile;
use block_modes::ecb::{detect_aes_ecb, find_repeated_blocks};
use block_modes::ecb_attack::{decrypt_aes_ecb_with_oracle, detect_aes_ecb_from_oracle};
use block_modes::error::CryptoError;
use block_modes::oracles::{
    aes_ecb_oracle, gen_aes_cbc_encrypt_decrypt_oracles, gen_aes_cbc_padding_oracle,
    gen_aes_ecb_oracle, gen_aes_ecb_oracle_padded, random_aes_mode_oracle, CipherMode,
};
use block_modes::padding_oracle::cbc_padding_oracle_attack;

#[test]
fn detector_classifies_random_modes() {
    for _ in 0..40 {
        let mode = std::cell::Cell::new(None);
        let verdict = detect_aes_ecb_from_oracle(|input: &[u8]| {
            let (m, c) = random_aes_mode_oracle(input);
            mode.set(Some(m));
            c
        });
        assert_eq!(verdict, mode.get() == Some(CipherMode::Ecb));
    }
}

#[test]
fn detector_sees_ecb_with_short_prefix() {
    let key = [42u8; 16];
    let prefix = [1u8; 16];
    let verdict = detect_aes_ecb_from_oracle(|input: &[u8]| {
        let mut bytes = prefix.to_vec();
        bytes.extend_from_slice(input);
        aes_ecb_oracle(&bytes, b"tail", &key)
    });
    assert!(verdict);
}

#[test]
fn ecb_decoder_recovers_secret_message() {
    for _ in 0..5 {
        let oracle = gen_aes_ecb_oracle_padded(b"secret-message");
        assert_eq!(
            decrypt_aes_ecb_with_oracle(oracle),
            Ok(b"secret-message".to_vec())
        );
    }
}

#[test]
fn ecb_decoder_every_prefix_length() {
    let key = [7u8; 16];
    let secret = b"Rollin' in my 5.0, with my rag-top down".to_vec();
    for prefix_len in 0..=33usize {
        let prefix: Vec<u8> = (0..prefix_len).map(|i| (i * 37 + 5) as u8).collect();
        let s = secret.clone();
        let oracle = move |input: &[u8]| {
            let mut bytes = prefix.clone();
            bytes.extend_from_slice(input);
            aes_ecb_oracle(&bytes, &s, &key)
        };
        assert_eq!(decrypt_aes_ecb_with_oracle(oracle), Ok(secret.clone()));
    }
}

#[test]
fn ecb_decoder_without_prefix() {
    let oracle = gen_aes_ecb_oracle(b"no prefix, two blocks of hidden text!");
    assert_eq!(
        decrypt_aes_ecb_with_oracle(oracle),
        Ok(b"no prefix, two blocks of hidden text!".to_vec())
    );
}

#[test]
fn ecb_decoder_awkward_suffixes() {
    let cases: Vec<Vec<u8>> = vec![
        vec![],
        vec![0, 0, 0, 1, 2],
        vec![1],
        vec![b'x', 1],
        vec![16u8; 16],
        (0..=40u8).collect(),
    ];
    for secret in cases {
        let oracle = gen_aes_ecb_oracle_padded(&secret);
        assert_eq!(decrypt_aes_ecb_with_oracle(oracle), Ok(secret));
    }
}

#[test]
fn ecb_decoder_rejects_cbc_oracle() {
    let (encrypt, _decrypt) = gen_aes_cbc_encrypt_decrypt_oracles();
    assert_eq!(
        decrypt_aes_ecb_with_oracle(encrypt),
        Err(CryptoError::OracleContractViolated)
    );
}

#[test]
fn padding_oracle_recovers_plaintext() {
    let plaintext = b"ICE ICE BABY WITH PADDING";
    let (ciphertext, iv, oracle) = gen_aes_cbc_padding_oracle(plaintext);
    assert_eq!(
        cbc_padding_oracle_attack(&ciphertext, &iv, oracle),
        Ok(plaintext.to_vec())
    );
}

#[test]
fn padding_oracle_handles_full_padding_blocks() {
    for len in [0usize, 1, 15, 16, 31, 32, 47] {
        let plaintext: Vec<u8> = (0..len).map(|i| (i * 3 + 2) as u8).collect();
        let (ciphertext, iv, oracle) = gen_aes_cbc_padding_oracle(&plaintext);
        assert_eq!(cbc_padding_oracle_attack(&ciphertext, &iv, oracle), Ok(plaintext));
    }
}

#[test]
fn padding_oracle_rejects_malformed_input() {
    let (ciphertext, iv, oracle) = gen_aes_cbc_padding_oracle(b"abc");
    assert_eq!(
        cbc_padding_oracle_attack(&ciphertext[..10], &iv, &oracle),
        Err(CryptoError::MalformedInput)
    );
    assert_eq!(
        cbc_padding_oracle_attack(&ciphertext, &iv[..8], &oracle),
        Err(CryptoError::MalformedInput)
    );
}

#[test]
fn padding_oracle_reports_inconsistent_oracle() {
    let never = |_: &[u8]| false;
    assert_eq!(
        cbc_padding_oracle_attack(&[0u8; 16], &[0u8; 16], never),
        Err(CryptoError::OracleContractViolated)
    );
}

#[test]
fn bitflipping_makes_admin() {
    let plaintext = cbc_bitflipping_attack_admin().unwrap();
    assert!(is_admin(&plaintext));
    assert_eq!(&plaintext[48..62], b";admin=true;a=");
    assert_eq!(&plaintext[..32], b"comment1=cooking%20MCs;userdata=");
    assert_eq!(plaintext.len(), 90);
    assert_eq!(&plaintext[62..], b"ike%20a%20pound%20of%20bacon");
}

#[test]
fn flip_bits_targets_previous_block() {
    let ciphertext = vec![0u8; 48];
    let known: Vec<u8> = vec![b'a'; 48];
    let flipped = flip_bits(&ciphertext, &known, b"xy", 32);
    let mut expected = vec![0u8; 48];
    expected[16] = b'a' ^ b'x';
    expected[17] = b'a' ^ b'y';
    assert_eq!(flipped, expected);
}

#[test]
fn is_admin_finds_marker() {
    assert!(is_admin(b"x;admin=true;y"));
    assert!(!is_admin(b";admin=false;"));
    assert!(!is_admin(b""));
}

#[test]
fn cut_and_paste_makes_admin_profile() {
    let mut expected = b"email=foooo@bar.com&uid=10&role=admin".to_vec();
    expected.extend_from_slice(&[11u8; 11]);
    assert_eq!(ecb_cut_and_paste_admin_profile(), Ok(expected));
}

#[test]
fn repeated_blocks_are_counted() {
    let mut message = vec![0u8; 16];
    message.extend_from_slice(&[1u8; 16]);
    message.extend_from_slice(&[0u8; 16]);
    message.extend_from_slice(&[0u8; 16]);
    message.extend_from_slice(&[5u8; 3]);
    assert_eq!(find_repeated_blocks(&message, 16), 3);
    assert_eq!(find_repeated_blocks(&message, 32), 0);
    assert_eq!(find_repeated_blocks(b"abab", 1), 2);
}

#[test]
fn detect_ecb_picks_most_repetitive() {
    let messages = vec![
        (0..64u8).collect::<Vec<u8>>(),
        [vec![9u8; 32], (0..32u8).collect()].concat(),
        [vec![9u8; 32], vec![9u8; 16]].concat(),
    ];
    assert_eq!(detect_aes_ecb(&messages), messages[2]);
}
