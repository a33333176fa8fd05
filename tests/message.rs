use bytes::{BufMut, BytesMut};
use dns_codec::{Answer, Header, Label, Labels, Message, MessageBuilder, Question};

#[test]
fn label_test() {
    let v = Labels::from_bytes(b"\x0ccodecrafters\x02io");
    println!("{:?}", v);
}

#[test]
fn test_from_domain() {
    let domain = "codecrafters.io";
    let expected = Labels(vec![Label::new(b"codecrafters"), Label::new(b"io")]);
    let x = Labels::from_domain(domain);
    assert_eq!(x, expected)
}

#[test]
fn test_builder() {
    let parsed = Header {
        id: 27901,
        qr: false,
        opcode: 0,
        aa: false,
        tc: false,
        rd: true,
        ra: false,
        reserved: 0,
        r_code: 0,
        qd_count: 1,
        an_count: 0,
        ns_count: 0,
        ar_count: 0,
    };
    let (id, opcode, rd) = parsed.get_id_opcode_rd();
    let message = MessageBuilder::new()
        .set_id(id)
        .set_opcode(opcode)
        .set_rd(rd)
        .finish();

    println!("{:#?}", message)
}

#[test]
fn ser_de() {
    let message = MessageBuilder::new()
        .set_id(1488)
        .set_opcode(228)
        .set_rd(true)
        .finish();
    let ser = message.serialize();
    let de = Message::deserialize(&ser);
    println!("{:#?}", de);
}

#[test]
fn label_to_string() {
    let label = Labels::from_domain("youtube.com");
    let v: String = label.to_string();
    assert_eq!(v.as_str(), "youtube.com")
}

#[test]
fn test_multiple_ans() {
    let message = MessageBuilder::new()
        .set_id(1488)
        .add_answer(Answer::from_domain_name("hello.world"))
        .add_answer(Answer::from_domain_name("a.rather.long.name"))
        .add_answer(Answer::from_domain_name("one.more.name"))
        .add_question(Question::from_domain_name("a.b.question"))
        .finish();
    let cloned = message.clone();
    let from_iter = MessageBuilder::new()
        .set_id(228)
        .add_answers(cloned.answers)
        .finish();
    assert_eq!(from_iter.header.an(), 3);
    assert_eq!(message.answers, from_iter.answers)
}

#[test]
fn testing_stuff() {
    let l = Labels::from_domain("youtube.com");
    let mut l = l.into_bytes_mut();
    l.put_u8(0);
    println!("{l:?}")
}

#[test]
fn i_guess_it_broken() {
    let val = b"\x03abc\x11longassdomainname\x03com\0\x03def\xC0\x04\x05hello\0";
    let (l, end) = Labels::parse(val, 0).unwrap();
    let _bytes = BytesMut::from(&val[end + 1..]);
    let (a, _b) = Labels::parse(val, end + 1).unwrap();
    println!("{l:?}, rest is {:?}", a)
}

#[test]
fn de() {
    let val = b"\xbf9\x01\0\0\x02\0\0\0\0\0\0\x03abc\x11longassdomainname\x03com\0\0\x01\0\x01\x03def\xc0\x10\0\x01\0\x01";
    let bytes = BytesMut::from(&val[49..]);
    println!("{:?}", bytes);
    let de = Message::deserialize(val);
    println!("{de:?}");
}
