use prefix_code::code::{bit_at, Code};

#[test]
fn test_code() {
    // Create empty code.
    let mut new_code = Code::new();

    // Push the bits 1 and 0.
    new_code.push_bit(1);
    new_code.push_bit(0);

    // Create another code from new_code.
    let mut from_code = Code::from(new_code.buffer, new_code.length);

    // Push longer value.
    let new_value: u32 = 0b1111_0000;
    from_code.push(new_value, 8);

    // Check codes.
    assert_eq!(from_code.buffer, 0b00000000_00000000_00000010_11110000);
    assert_eq!(new_code.buffer, 0b00000000_00000000_00000000_00000010);

    // Check lengths.
    assert_eq!(from_code.length, 10);
    assert_eq!(new_code.length, 2);
}

#[test]
fn new_code_is_empty() {
    let code = Code::new();
    assert_eq!(code.buffer, 0);
    assert_eq!(code.length, 0);
    let other = Code::default();
    assert_eq!(other.buffer, 0);
    assert_eq!(other.length, 0);
}

#[test]
fn from_keeps_raw_bits() {
    let code = Code::from(0b1011, 4);
    assert_eq!(code.buffer, 0b1011);
    assert_eq!(code.length, 4);
    let loose = Code::from(0xFF, 2);
    assert_eq!(loose.buffer, 0xFF);
    assert_eq!(loose.length, 2);
}

#[test]
fn push_matches_from() {
    let mut code = Code::new();
    code.push_bit(1);
    code.push(0b011, 3);
    let from = Code::from(0b1011, 4);
    assert_eq!(code.buffer, from.buffer);
    assert_eq!(code.length, from.length);
}

#[test]
fn push_full_width() {
    let mut code = Code::new();
    code.push(0xDEAD_BEEF, 32);
    assert_eq!(code.buffer, 0xDEAD_BEEF);
    assert_eq!(code.length, 32);
}

#[test]
fn push_bit_normalizes_non_binary() {
    for bit in [2u8, 3, 7, 128, 255] {
        let mut odd = Code::from(0b10, 2);
        odd.push_bit(bit);
        let mut one = Code::from(0b10, 2);
        one.push_bit(1);
        assert_eq!(odd.buffer, one.buffer);
        assert_eq!(odd.length, one.length);
        assert_eq!(odd.buffer, 0b101);
        assert_eq!(odd.length, 3);
    }
}

#[test]
fn render_is_zero_padded() {
    assert_eq!(Code::from(0b1011, 4).render(), "1011");
    assert_eq!(Code::from(1, 3).render(), "001");
    assert_eq!(Code::from(0, 2).render(), "00");
    assert_eq!(Code::new().render(), "");
    assert_eq!(Code::from(0b10_1111_0000, 10).render(), "1011110000");
}

#[test]
fn render_uses_exactly_length_digits() {
    assert_eq!(Code::from(0b1111, 2).render(), "11");
    assert_eq!(Code::from(1, 34).render().len(), 34);
    assert_eq!(
        Code::from(0x8000_0001, 32).render(),
        "10000000000000000000000000000001"
    );
}

#[test]
fn bit_at_reads_single_bits() {
    assert_eq!(bit_at(0b100, 2), 1);
    assert_eq!(bit_at(0b100, 1), 0);
    assert_eq!(bit_at(0x8000_0000, 31), 1);
    assert_eq!(bit_at(0xFFFF_FFFF, 32), 0);
    assert_eq!(bit_at(0xFFFF_FFFF, 200), 0);
}
