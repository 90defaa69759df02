use boole::boole::adder;

#[test]
fn adder_test_zero_operands() {
    assert_eq!(adder(0, 0), 0);
}

#[test]
fn adder_test_identity() {
    assert_eq!(adder(0, u32::MAX), u32::MAX);
    assert_eq!(adder(u32::MAX, 0), u32::MAX);
}

#[test]
fn test_carry_chain() {
    let a = 0x00000001;
    let b = 0xFFFFFFFF;
    assert_eq!(adder(a, b), 0);
}

#[test]
fn test_high_bit_overflow() {
    let a = 0x80000000;
    let b = 0x80000000;
    assert_eq!(adder(a, b), 0);
}

#[test]
fn test_sign_bit_transition() {
    let a = 0x7FFFFFFF;
    let b = 1;
    assert_eq!(adder(a, b), 0x80000000);
}

#[test]
fn test_multi_byte_carries() {
    let a = 0x0F0F0F0F;
    let b = 0xF0F0F0F0;
    assert_eq!(adder(a, b), u32::MAX);
}

#[test]
fn test_no_carry_operations() {
    let a = 0x12345678;
    let b = 0x0F0F0F0F;
    assert_eq!(adder(a, b), 0x21436587);
}
