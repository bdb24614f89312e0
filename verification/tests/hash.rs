//! The digest type: validating construction and hexadecimal rendering.

use dottorrent::InvalidHashLength;
use dottorrent::Sha1Hash;

#[test]
fn nineteen_bytes_are_rejected() {
    let r = Sha1Hash::from_buffer(&[0u8; 19]);
    assert!(matches!(r, Err(InvalidHashLength(19))));
}

#[test]
fn twenty_one_bytes_are_rejected() {
    let r = Sha1Hash::from_buffer(&[0u8; 21]);
    assert!(matches!(r, Err(InvalidHashLength(21))));
}

#[test]
fn twenty_bytes_are_copied() {
    let mut buf = [0u8; 20];
    for (i, b) in buf.iter_mut().enumerate() {
        *b = i as u8;
    }
    let h = Sha1Hash::from_buffer(&buf).unwrap();
    assert_eq!(h.hash, buf);
}

#[test]
fn hex_rendering_is_forty_lowercase_digits() {
    let mut buf = [0u8; 20];
    buf[0] = 0x0f;
    buf[1] = 0xa0;
    buf[19] = 0xff;
    let h = Sha1Hash::from_buffer(&buf).unwrap();
    let text = h.to_hex();
    assert_eq!(text.len(), 40);
    let mut expected = String::from("0fa0");
    for _ in 0..17 {
        expected.push_str("00");
    }
    expected.push_str("ff");
    assert_eq!(text, expected);
    assert!(text
        .chars()
        .all(|c| c.is_ascii_digit() || ('a'..='f').contains(&c)));
}
