use block_modes::codec::{
    ascii_to_bytes, base64_to_bytes, binary_to_byte, byte_to_binary, bytes_to_ascii,
    bytes_to_base64, bytes_to_hex, hex_to_bytes, int_to_hex,
};

#[test]
fn hex_to_base64() {
    let bytes = hex_to_bytes(
        "49276d206b696c6c696e6720796f757220627261696e206c696b65206120706f69736f6e6f7573206d757368726f6f6d",
    );
    assert_eq!(
        bytes_to_base64(&bytes),
        "SSdtIGtpbGxpbmcgeW91ciBicmFpbiBsaWtlIGEgcG9pc29ub3VzIG11c2hyb29t"
    );
}

#[test]
fn hex_round_trip() {
    let bytes = vec![0u8, 1, 15, 16, 127, 128, 254, 255];
    let hex = bytes_to_hex(&bytes);
    assert_eq!(hex, "00010f107f80feff");
    assert_eq!(hex_to_bytes(&hex), bytes);
    assert_eq!(hex_to_bytes("ABcd"), vec![0xab, 0xcd]);
    assert_eq!(hex_to_bytes(""), Vec::<u8>::new());
}

#[test]
fn single_hex_digits() {
    assert_eq!(int_to_hex(0), '0');
    assert_eq!(int_to_hex(9), '9');
    assert_eq!(int_to_hex(10), 'a');
    assert_eq!(int_to_hex(15), 'f');
}

#[test]
fn base64_padding_cases() {
    assert_eq!(bytes_to_base64(b""), "");
    assert_eq!(bytes_to_base64(b"M"), "TQ==");
    assert_eq!(bytes_to_base64(b"Ma"), "TWE=");
    assert_eq!(bytes_to_base64(b"Man"), "TWFu");
    assert_eq!(bytes_to_base64(&[0xfb, 0xff]), "+/8=");
    assert_eq!(base64_to_bytes("TQ=="), b"M".to_vec());
    assert_eq!(base64_to_bytes("TWE="), b"Ma".to_vec());
    assert_eq!(base64_to_bytes("TWFu"), b"Man".to_vec());
    assert_eq!(base64_to_bytes("+/8="), vec![0xfb, 0xff]);
}

#[test]
fn base64_round_trip() {
    for len in 0..20usize {
        let bytes: Vec<u8> = (0..len).map(|i| (i * 59 + 17) as u8).collect();
        assert_eq!(base64_to_bytes(&bytes_to_base64(&bytes)), bytes);
    }
}

#[test]
fn ascii_conversions() {
    assert_eq!(ascii_to_bytes("hi!"), vec![104, 105, 33]);
    assert_eq!(bytes_to_ascii(&[104, 105, 33]), "hi!");
    assert_eq!(bytes_to_ascii(&[0xe9]), "\u{e9}");
}

#[test]
fn binary_conversions() {
    assert_eq!(
        byte_to_binary(5),
        vec![false, false, false, false, false, true, false, true]
    );
    assert_eq!(byte_to_binary(128)[0], true);
    for b in 0..=255u8 {
        assert_eq!(binary_to_byte(&byte_to_binary(b)), b);
    }
}
