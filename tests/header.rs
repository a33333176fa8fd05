use dns_codec::Header;

#[test]
fn byte_shift() {
    let val = 128u8;
    let val2 = 0u8;
    assert_eq!(val >> 7, 1);
    assert_eq!(val2 >> 7, 0)
}

#[test]
fn op_code_shift() {
    let val = 0b1101_1000u8;
    let e = val >> 3 & 0xF;
    assert_eq!(e, 0b00001011);
}

#[test]
fn aa_shift() {
    let x = 0b11111_1_00u8;
    let e = x >> 2 & 1;
    let x2 = 0b1010_0_11u8;
    let e2 = x2 >> 2 & 1;
    assert_eq!(e, 1);
    assert_eq!(e2, 0);
}

#[test]
fn tc_shift() {
    let x = 0b111111_1_0u8;
    let e = (x >> 1 & 1) == 1;
    let x2 = 0b101011_0_1u8;
    let e2 = (x2 >> 1 & 1) == 1;
    assert!(e);
    assert!(!e2)
}

#[test]
fn rd_test() {
    let x = 0b1111_1111u8;
    let e = x & 1;
    let x2 = 0b1010_0100u8;
    assert_eq!(e, 1);
    assert_eq!(x2 & 1, 0);
}

#[test]
fn reserved_test() {
    let x = 0b0_101_0011u8;
    let e = x >> 4 & 0b00000_111;
    assert_eq!(e, 0b00000_101);
}

#[test]
fn r_code_test() {
    let x = 0b1010__1011u8;
    let e = x & 0b0000_1111;
    assert_eq!(e, 0b0000_1011)
}

#[test]
fn deserializing_bytes() {
    let [first, second] = 1488u16.to_be_bytes();
    let third = 0b1_1010_000u8;
    let fourth = 0b0_000_0000u8;
    let [fifth, sixth] = 3228u16.to_be_bytes();
    let [seventh, eight] = 2280u16.to_be_bytes();
    let [ninth, ten] = 1500u16.to_be_bytes();
    let [eleventh, twelve] = 5000u16.to_be_bytes();
    let bytes = [first, second, third, fourth, fifth, sixth, seventh, eight, ninth, ten, eleventh, twelve];
    let h = Header::deserialize(&bytes);
    println!("{:?}", h);
}

#[test]
fn serialize() {
    let x = 0u8;
    let s = 0b0000_1010u8;
    let y = x | ((true as u8) << 7) | (s << 3) | ((false as u8) << 2) | ((true as u8) << 1) | 0;
    assert_eq!(y, 0b11010010)
}

#[test]
fn serialize_and_deserialize() {
    let [first, second] = 1488u16.to_be_bytes();
    let third = 0b1_1010_000u8;
    let fourth = 0b0_000_0000u8;
    let [fifth, sixth] = 3228u16.to_be_bytes();
    let [seventh, eight] = 2280u16.to_be_bytes();
    let [ninth, ten] = 1500u16.to_be_bytes();
    let [eleventh, twelve] = 5000u16.to_be_bytes();
    let bytes = [first, second, third, fourth, fifth, sixth, seventh, eight, ninth, ten, eleventh, twelve];
    let h = Header::deserialize(&bytes).unwrap();
    let result = h.serialize();
    let bytes = bytes.to_vec();
    let result = result.to_vec();
    assert_eq!(bytes, result);
}
