use dns_codec::Question;

#[test]
fn test_serialize_question() {
    let question: Question = Default::default();
    let expected = b"\x0ccodecrafters\x02io\011";
    let _expected = bytes::BytesMut::from(&expected[..]);
    let got = question.serialize();
    println!("{:?}", got)
}

#[test]
fn test_deserialize_question() {
    let val = b"\x0ccodecrafters\x02io\0\x00\x01\x00\x01\xC0\x00\x00\x01\x00\x01";
    let (_q, s) = Question::deserialize(val, 0).unwrap();
    let (_q, e) = Question::deserialize(val, s).unwrap();
    assert_eq!(e, val.len())
}

#[test]
fn test_xor() {
    let one = 0b11_0000_00_0000_0001u16;
    let two = 0b11_0000_00_0000_0010u16;
    let three = 0b11_0000_00_0000_0011u16;
    let four = 0b11_0000_00_0000_0100u16;
    let ten = 0b11_0000_00_0000_1010u16;
    let xor1 = one ^ 0b1100_0000_0000_0000u16;
    let xor2 = two ^ 0b1100_0000_0000_0000u16;
    let xor3 = three ^ 0b1100_0000_0000_0000u16;
    let xor4 = four ^ 0b1100_0000_0000_0000u16;
    let xor5 = ten ^ 0b1100_0000_0000_0000u16;
    assert_eq!(xor1, 1);
    assert_eq!(xor2, 2);
    assert_eq!(xor3, 3);
    assert_eq!(xor4, 4);
    assert_eq!(xor5, 10)
}
