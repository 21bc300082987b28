use cope::hex;

#[test]
fn test_hex() {
    assert_eq!(hex("\x01\x7f".as_bytes()), "017f");
}

#[test]
fn hex_two_lowercase_digits_per_byte() {
    let bytes: Vec<u8> = vec![0x00, 0xff, 0x10, 0xab, 0x09];
    let h = hex(&bytes);
    assert_eq!(h, "00ff10ab09");
    assert_eq!(h.len(), 2 * bytes.len());
    assert!(h.chars().all(|c| c.is_ascii_digit() || ('a'..='f').contains(&c)));
    let back: Vec<u8> = (0..bytes.len())
        .map(|i| u8::from_str_radix(&h[2 * i..2 * i + 2], 16).unwrap())
        .collect();
    assert_eq!(back, bytes);
}

#[test]
fn hex_of_nothing_is_empty() {
    assert_eq!(hex(&[]), "");
}
