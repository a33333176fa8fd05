use dns_codec::{Answer, Answers, Class, Data, Header, Labels, Message, MessageBuilder, Question, Ty};

fn sample_header() -> Header {
    Header::new(0xbeef, true, 0b1010, true, false, true, false, 0b101, 0b0011, 3228, 2280, 1500, 5000)
}

#[test]
fn header_round_trip_keeps_fields() {
    let h = sample_header();
    let bytes = h.serialize();
    assert_eq!(bytes.len(), 12);
    assert_eq!(Header::deserialize(&bytes).unwrap(), h);
}

#[test]
fn header_bytes_follow_the_layout() {
    let h = sample_header();
    let bytes = h.serialize().to_vec();
    assert_eq!(
        bytes,
        vec![0xbe, 0xef, 0b1_1010_1_0_1, 0b0_101_0011, 0x0c, 0x9c, 0x08, 0xe8, 0x05, 0xdc, 0x13, 0x88]
    );
}

#[test]
fn header_scenario_from_bytes() {
    let [a, b] = 1488u16.to_be_bytes();
    let [c, d] = 3228u16.to_be_bytes();
    let [e, f] = 2280u16.to_be_bytes();
    let [g, h] = 1500u16.to_be_bytes();
    let [i, j] = 5000u16.to_be_bytes();
    let bytes = [a, b, 0b1_1010_000u8, 0, c, d, e, f, g, h, i, j];
    let header = Header::deserialize(&bytes).unwrap();
    assert_eq!(header.id, 1488);
    assert!(header.qr);
    assert_eq!(header.opcode, 0b1010);
    assert!(!header.aa);
    assert!(!header.tc);
    assert!(!header.rd);
    assert!(!header.ra);
    assert_eq!(header.reserved, 0);
    assert_eq!(header.r_code, 0);
    assert_eq!(header.qd_count, 3228);
    assert_eq!(header.an_count, 2280);
    assert_eq!(header.ns_count, 1500);
    assert_eq!(header.ar_count, 5000);
    assert_eq!(header.serialize().to_vec(), bytes.to_vec());
}

#[test]
fn domain_text_round_trips() {
    for s in ["codecrafters.io", "a.b.c", "", "trailing.", ".leading", "x"] {
        assert_eq!(Labels::from_domain(s).to_string(), s);
    }
}

#[test]
fn question_bytes_scenario() {
    let q = Question::from_domain_name("codecrafters.io");
    assert_eq!(q.serialize().to_vec(), b"\x0ccodecrafters\x02io\x00\x00\x01\x00\x01".to_vec());
}

#[test]
fn question_round_trip() {
    let q = Question::new(b"\x03www\x07example\x03com", 15, 3);
    let bytes = q.clone().serialize();
    let (back, end) = Question::deserialize(&bytes, 0).unwrap();
    assert_eq!(back, q);
    assert_eq!(end, bytes.len());
}

#[test]
fn answer_round_trip() {
    let a = Answer::new("mail.example.org", 15, 1, 3600, 0x7f00_0001);
    let bytes = a.clone().serialize();
    assert_eq!(bytes.len(), "mail.example.org".len() + 2 + 14);
    let (back, end) = Answer::deserialize(&bytes, 0).unwrap();
    assert_eq!(back, a);
    assert_eq!(end, bytes.len());
}

#[test]
fn answer_bytes_scenario() {
    let a = Answer::from_domain_name("a.io");
    assert_eq!(
        a.serialize().to_vec(),
        b"\x01a\x02io\x00\x00\x01\x00\x01\x00\x00\x00\x3c\x00\x04\x08\x08\x08\x08".to_vec()
    );
}

#[test]
fn pointer_resolves_to_earlier_name() {
    // "abc.longassdomainname.com" at 0, then "def" and a pointer to offset 4.
    let val = b"\x03abc\x11longassdomainname\x03com\0\x03def\xC0\x04\x05hello\0";
    let (first, end) = Labels::parse(val, 0).unwrap();
    assert_eq!(first.to_string(), "abc.longassdomainname.com");
    assert_eq!(end, 26);
    let (second, end2) = Labels::parse(val, 27).unwrap();
    assert_eq!(second.to_string(), "def.longassdomainname.com");
    assert_eq!(end2, 33);
}

#[test]
fn pointer_end_does_not_depend_on_target_length() {
    let short = b"\x01a\0\xC0\x00\0\x01";
    let long = b"\x0blongerlabel\x03xyz\0\xC0\x00\0\x01";
    let (ls, end) = Labels::parse(short, 3).unwrap();
    assert_eq!(ls.to_string(), "a");
    assert_eq!(end, 5);
    let (ll, end) = Labels::parse(long, 17).unwrap();
    assert_eq!(ll.to_string(), "longerlabel.xyz");
    assert_eq!(end, 19);
}

#[test]
fn message_with_two_questions_decodes() {
    let val = b"\xbf9\x01\0\0\x02\0\0\0\0\0\0\x03abc\x11longassdomainname\x03com\0\0\x01\0\x01\x03def\xc0\x10\0\x01\0\x01";
    let m = Message::deserialize(val).unwrap();
    assert_eq!(m.id(), 0xbf39);
    assert!(m.rd());
    assert_eq!(m.questions.0.len(), 2);
    assert_eq!(m.questions.0[0].domain(), "abc.longassdomainname.com");
    assert_eq!(m.questions.0[1].domain(), "def.longassdomainname.com");
    assert_eq!(m.answers.0.len(), 0);
}

#[test]
fn message_round_trip() {
    let m = MessageBuilder::new()
        .set_id(77)
        .add_question(Question::from_domain_name("example.com"))
        .add_answer(Answer::from_domain_name("example.com"))
        .finish();
    let len = m.encoded_len();
    let bytes = m.clone().serialize();
    assert_eq!(len, bytes.len());
    assert_eq!(Message::deserialize(&bytes).unwrap(), m);
}

#[test]
fn split_then_join() {
    let query = MessageBuilder::new()
        .set_id(9)
        .add_question(Question::from_domain_name("a.example"))
        .add_question(Question::from_domain_name("b.example"))
        .add_question(Question::from_domain_name("c.example"))
        .finish();
    let asked = query.questions.clone();
    let parts = query.split();
    assert_eq!(parts.len(), 3);
    for (i, p) in parts.iter().enumerate() {
        assert_eq!(p.header.qd_count, 1);
        assert_eq!(p.header.an_count, 0);
        assert_eq!(p.header.id, 9);
        assert_eq!(p.questions.0, vec![asked.0[i].clone()]);
        assert!(p.answers.0.is_empty());
    }
    let responses: Vec<Message> = parts
        .into_iter()
        .map(|p| {
            MessageBuilder::new()
                .set_header(p.header)
                .add_answers(Answers::from_questions(&p.questions))
                .add_questions(p.questions)
                .finish()
        })
        .collect();
    let joined = Message::join(responses);
    assert_eq!(joined.header.qd_count, 3);
    assert_eq!(joined.header.an_count, 3);
    assert_eq!(joined.header.id, 9);
    assert_eq!(joined.questions, asked);
    assert_eq!(joined.answers, Answers::from_questions(&asked));
}

#[test]
fn answers_from_questions_use_fixed_address() {
    let qs = MessageBuilder::new()
        .add_question(Question::from_domain_name("x.y"))
        .finish()
        .questions;
    let answers = Answers::from_questions(&qs);
    assert_eq!(answers.0.len(), 1);
    assert_eq!(answers.0[0], Answer::new("x.y", 1, 1, 60, 0x0808_0808));
    assert_eq!(answers.0[0].domain(), "x.y");
    let _ = (Ty::A, Class::IN, Data::A(0));
}
