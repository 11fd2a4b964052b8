use live_wetter::text::utf8_len_is;

#[test]
fn utf8_len_is_counts_encoded_bytes() {
    let ascii: Vec<char> = "2026".chars().collect();
    assert!(utf8_len_is(&ascii, 4));
    assert!(!utf8_len_is(&ascii, 3));
    let wide: Vec<char> = "2ö2€".chars().collect();
    assert!(utf8_len_is(&wide, 1 + 2 + 1 + 3));
    assert!(!utf8_len_is(&wide, 4));
    let long: Vec<char> = std::iter::repeat('ä').take(3000).collect();
    assert!(utf8_len_is(&long, 6000));
    assert!(!utf8_len_is(&long, 5999));
    assert!(utf8_len_is(&Vec::new(), 0));
}
