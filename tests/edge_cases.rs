use dns_codec::{Answer, Class, Data, DnsError, Header, Label, Labels, Message, MessageBuilder, Question, Ty};

#[test]
fn header_needs_twelve_bytes() {
    assert_eq!(Header::deserialize(&[0u8; 11]), Err(DnsError::HeaderLength));
    assert_eq!(Header::deserialize(&[0u8; 13]), Err(DnsError::HeaderLength));
    assert_eq!(Message::deserialize(&[0u8; 5]), Err(DnsError::HeaderLength));
}

#[test]
fn unknown_type_and_class() {
    assert_eq!(Question::deserialize(b"\x01a\0\x00\x03\x00\x01", 0), Err(DnsError::UnknownType));
    assert_eq!(Question::deserialize(b"\x01a\0\x00\x01\x00\x09", 0), Err(DnsError::UnknownClass));
    assert_eq!(Ty::try_from(7u16), Err(DnsError::UnknownType));
    assert_eq!(Ty::try_from(16u16), Ok(Ty::TXT));
    assert_eq!(Class::try_from(4u16), Ok(Class::HS));
    assert_eq!(Class::try_from(0u16), Err(DnsError::UnknownClass));
    assert_eq!(Ty::MX.code(), 15);
    assert_eq!(Class::CH.code(), 3);
}

#[test]
fn truncated_input() {
    assert_eq!(Labels::parse(b"\x05ab", 0), Err(DnsError::Truncated));
    assert_eq!(Labels::parse(b"\x01a", 0), Err(DnsError::Truncated));
    assert_eq!(Labels::parse(b"\0", 3), Err(DnsError::Truncated));
    assert_eq!(Labels::parse(b"\x01a\0\xC0", 3), Err(DnsError::Truncated));
    assert_eq!(Question::deserialize(b"\x01a\0\x00", 0), Err(DnsError::Truncated));
    assert_eq!(Answer::deserialize(b"\x01a\0\x00\x01\x00\x01\x00\x00", 0), Err(DnsError::Truncated));
    // A header that announces one question, with nothing after it.
    assert_eq!(Message::deserialize(b"\0\x01\0\0\0\x01\0\0\0\0\0\0"), Err(DnsError::Truncated));
}

#[test]
fn pointer_must_point_back() {
    // A pointer to itself.
    assert_eq!(Labels::parse(b"\x01a\0\xC0\x03", 3), Err(DnsError::BadPointer));
    // A pointer forward.
    assert_eq!(Labels::parse(b"\xC0\x02\x01a\0", 0), Err(DnsError::BadPointer));
}

#[test]
fn zero_after_terminator_is_taken() {
    let (l, end) = Labels::parse(b"\x01a\0\0", 0).unwrap();
    assert_eq!(l.to_string(), "a");
    assert_eq!(end, 3);
    let (_, end) = Labels::parse(b"\x01a\0\x01", 0).unwrap();
    assert_eq!(end, 2);
    let (l, end) = Labels::parse(b"\0", 0).unwrap();
    assert!(l.0.is_empty());
    assert_eq!(end, 0);
}

#[test]
fn label_keeps_length_modulo_256() {
    let long = vec![b'x'; 300];
    let l = Label::new(&long);
    assert_eq!(l.len(), 44);
    assert_eq!(l.to_string(), "x".repeat(44));
    let max = vec![b'y'; 255];
    assert_eq!(Label::new(&max).len(), 255);
}

#[test]
fn invalid_utf8_label_is_replaced() {
    let l = Label::new(b"a\xffb");
    assert_eq!(l.len(), 3);
    assert_eq!(l.to_string(), "a\u{fffd}b");
    let ls = Labels(vec![Label::new(b"\xff"), Label::new(b"ok")]);
    assert_eq!(ls.to_string(), "\u{fffd}.ok");
}

#[test]
fn from_bytes_stops_at_zero_or_end() {
    let l = Labels::from_bytes(b"\x02ab\x01c\0\x01d");
    assert_eq!(l.to_string(), "ab.c");
    let short = Labels::from_bytes(b"\x05ab");
    assert_eq!(short.to_string(), "ab");
    assert!(Labels::from_bytes(b"").0.is_empty());
}

#[test]
fn labels_encode_without_terminator() {
    let bytes = Labels::from_domain("youtube.com").into_bytes_mut();
    assert_eq!(bytes.to_vec(), b"\x07youtube\x03com".to_vec());
    assert_eq!(Labels::from_domain("youtube.com").encoded_len(), 12);
}

#[test]
fn data_len_and_bytes() {
    let d = Data::A(0x0102_0304);
    assert_eq!(d.len(), 4);
    assert_eq!(d.as_bytes().to_vec(), vec![1, 2, 3, 4]);
}

#[test]
fn builder_counts_each_item() {
    let m = MessageBuilder::new()
        .add_question(Question::default())
        .add_question(Question::from_domain_name("b.c"))
        .add_answer(Answer::default())
        .finish();
    assert_eq!(m.header.qd(), 2);
    assert_eq!(m.header.an(), 1);
    assert_eq!(m.header.id, 1234);
    assert!(m.header.qr);
    let d = Header::default();
    assert_eq!(d, Header::new(1234, true, 0, false, false, false, false, 0, 0, 0, 0, 0, 0));
}

#[test]
fn header_counters_and_setters() {
    let mut h = Header::default();
    h.increment_qd_count();
    h.increment_an_count();
    h.increment_an_count();
    h.set_id(5);
    h.set_opcode(2);
    h.set_rd(true);
    assert_eq!((h.qd(), h.an()), (1, 2));
    assert_eq!(h.get_id_opcode_rd(), (5, 2, true));
}

#[test]
fn opcode_wider_than_four_bits_loses_high_bits() {
    let m = MessageBuilder::new().set_id(1488).set_opcode(228).set_rd(true).finish();
    let bytes = m.serialize();
    let back = Message::deserialize(&bytes).unwrap();
    assert_eq!(back.id(), 1488);
    assert_eq!(back.opcode(), 228 & 0x0f);
    assert!(back.rd());
}

#[test]
fn split_of_message_without_questions_is_empty() {
    let m = MessageBuilder::new().finish();
    assert!(m.split().is_empty());
}

#[test]
fn question_new_and_domain() {
    let q = Question::new(b"\x03www\x07example\x03com", 1, 1);
    assert_eq!(q.domain(), "www.example.com");
    assert_eq!(q, Question::from_domain_name("www.example.com"));
}
