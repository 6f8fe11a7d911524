use sysbf::hex::hex_chars;

#[test]
fn hex_chars_renders_two_digits_per_byte() {
    let bytes = vec![0x00u8, 0xff, 0x80, 0x0a, 0x7f];
    let s: String = hex_chars(&bytes).into_iter().collect();
    assert_eq!(s, "00ff800a7f");
}

#[test]
fn hex_chars_of_empty_is_empty() {
    let bytes: Vec<u8> = Vec::new();
    assert_eq!(hex_chars(&bytes), Vec::<char>::new());
}
