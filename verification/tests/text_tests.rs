use tetra_master::text::{push_decimal, push_hex_byte, push_signed_decimal};

#[test]
fn decimal_notation() {
    let mut s = String::from("n=");
    push_decimal(&mut s, 0);
    push_decimal(&mut s, 1234567890);
    assert_eq!(s, "n=01234567890");
    let mut s = String::new();
    push_decimal(&mut s, u64::MAX);
    assert_eq!(s, u64::MAX.to_string());
}

#[test]
fn signed_decimal_notation() {
    for n in [0i64, 7, -7, 16, -16, i64::MIN, i64::MAX] {
        let mut s = String::new();
        push_signed_decimal(&mut s, n);
        assert_eq!(s, n.to_string());
    }
}

#[test]
fn hex_notation() {
    for n in [0u8, 9, 10, 15, 16, 0xAB, 0xFF] {
        let mut s = String::new();
        push_hex_byte(&mut s, n);
        assert_eq!(s, format!("{:X}", n));
    }
}
