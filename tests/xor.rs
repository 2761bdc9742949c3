use block_modes::codec::{bytes_to_hex, hex_to_bytes};
use block_modes::xor::{calculate_edit_distance, repeating_key_xor, single_byte_xor, xor};

#[test]
fn fixed_xor() {
    let a = hex_to_bytes("1c0111001f010100061a024b53535009181c");
    let b = hex_to_bytes("686974207468652062756c6c277320657965");
    assert_eq!(bytes_to_hex(&xor(&a, &b)), "746865206b696420646f6e277420706c6179");
}

#[test]
fn repeating_key() {
    let plaintext =
        b"Burning 'em, if you ain't quick and nimble\nI go crazy when I hear a cymbal";
    assert_eq!(
        bytes_to_hex(&repeating_key_xor(plaintext, b"ICE")),
        "0b3637272a2b2e63622c2e69692a23693a2a3c6324202d623d63343c2a26226324272765272a282b2f20430a652e2c652a3124333a653e2b2027630c692b20283165286326302e27282f"
    );
    assert_eq!(repeating_key_xor(b"", b"k"), Vec::<u8>::new());
}

#[test]
fn single_byte() {
    assert_eq!(single_byte_xor(b"\x00\x01\xff", 0x0f), vec![0x0f, 0x0e, 0xf0]);
}

#[test]
fn edit_distance() {
    assert_eq!(calculate_edit_distance(b"this is a test", b"wokka wokka!!!"), 37);
    assert_eq!(calculate_edit_distance(b"\xff\x00", b"\x00"), 8);
    assert_eq!(calculate_edit_distance(b"", b"abc"), 0);
}
