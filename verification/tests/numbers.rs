use csv2html::numbers::u64_to_string;

#[test]
fn numerals() {
    assert_eq!(u64_to_string(0), "0");
    assert_eq!(u64_to_string(7), "7");
    assert_eq!(u64_to_string(10), "10");
    assert_eq!(u64_to_string(12345), "12345");
    assert_eq!(u64_to_string(18446744073709551615), "18446744073709551615");
}
