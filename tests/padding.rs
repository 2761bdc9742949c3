use block_modes::error::CryptoError;
use block_modes::pkcs7::{pad_pkcs7, strip_pkcs7, validate_pkcs7};

#[test]
fn pad_exact_block_adds_full_block() {
    let padded = pad_pkcs7(&[b'A'; 16], 16);
    assert_eq!(padded.len(), 32);
    assert_eq!(&padded[..16], &[b'A'; 16]);
    assert_eq!(&padded[16..], &[16u8; 16]);
}

#[test]
fn pad_partial_block() {
    let padded = pad_pkcs7(b"YELLOW SUBMARINE", 20);
    assert_eq!(padded, b"YELLOW SUBMARINE\x04\x04\x04\x04".to_vec());
}

#[test]
fn pad_empty_message() {
    assert_eq!(pad_pkcs7(b"", 16), vec![16u8; 16]);
    assert_eq!(pad_pkcs7(b"", 1), vec![1u8]);
}

#[test]
fn pad_largest_block_size() {
    let padded = pad_pkcs7(b"abc", 255);
    assert_eq!(padded.len(), 255);
    assert!(padded[3..].iter().all(|&b| b == 252));
}

#[test]
fn strip_valid_padding() {
    assert_eq!(
        strip_pkcs7(b"ICE ICE BABY\x04\x04\x04\x04"),
        Ok(b"ICE ICE BABY".to_vec())
    );
}

#[test]
fn strip_rejects_mismatched_padding() {
    assert_eq!(
        strip_pkcs7(b"ICE ICE BABY\x05\x05\x05\x05"),
        Err(CryptoError::InvalidPadding)
    );
    assert_eq!(
        strip_pkcs7(b"ICE ICE BABY\x01\x02\x03\x04"),
        Err(CryptoError::InvalidPadding)
    );
}

#[test]
fn strip_rejects_zero_last_byte() {
    assert_eq!(strip_pkcs7(b"abc\x00"), Err(CryptoError::InvalidPadding));
    assert!(!validate_pkcs7(&[0u8; 16]));
}

#[test]
fn strip_rejects_empty_and_overlong() {
    assert_eq!(strip_pkcs7(b""), Err(CryptoError::InvalidPadding));
    assert_eq!(strip_pkcs7(b"\x05\x05"), Err(CryptoError::InvalidPadding));
}

#[test]
fn strip_whole_buffer_of_padding() {
    assert_eq!(strip_pkcs7(&[16u8; 16]), Ok(vec![]));
}

#[test]
fn strip_undoes_pad_for_every_length() {
    for block_size in [1usize, 2, 7, 16, 31, 255] {
        for len in 0..40usize {
            let message: Vec<u8> = (0..len).map(|i| (i * 7 + 3) as u8).collect();
            let padded = pad_pkcs7(&message, block_size);
            assert_eq!(padded.len() % block_size, 0);
            assert!(padded.len() > message.len());
            assert_eq!(strip_pkcs7(&padded), Ok(message));
        }
    }
}
