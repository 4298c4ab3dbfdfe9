use metrology4rs::text::{integer_text, natural_text};

#[test]
fn naturals_in_decimal_notation() {
    assert_eq!(natural_text(0), "0");
    assert_eq!(natural_text(7), "7");
    assert_eq!(natural_text(10), "10");
    assert_eq!(natural_text(109), "109");
    assert_eq!(natural_text(1234567890), "1234567890");
    assert_eq!(natural_text(usize::MAX), format!("{}", usize::MAX));
}

#[test]
fn integers_in_decimal_notation() {
    assert_eq!(integer_text(0), "0");
    assert_eq!(integer_text(5), "5");
    assert_eq!(integer_text(-1), "-1");
    assert_eq!(integer_text(-120), "-120");
    assert_eq!(integer_text(i32::MAX), "2147483647");
    assert_eq!(integer_text(i32::MIN), "-2147483648");
    for n in [-1000001, -99, -10, -9, 9, 10, 11, 99, 100, 101, 65536] {
        assert_eq!(integer_text(n), format!("{}", n));
    }
}
