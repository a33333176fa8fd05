//! Whole messages: a header, then questions, then answers; splitting a
//! message into one message per question and joining answers back.
use bytes::BytesMut;
use vstd::prelude::*;
use vstd::seq_lib::lemma_flatten_concat;
use vstd::slice::slice_subrange;
use vstd::utf8::encode_utf8;

use crate::answer::{answer_bytes, parse_answer, Answer, AnswerView, Data, DEFAULT_ADDRESS, DEFAULT_TTL};
use crate::buffer::{as_slice, bytes_of, capped, lemma_capped_add};
use crate::error::DnsError;
use crate::codes::{Class, Ty};
use crate::header::{default_header, header_bytes, header_of, Header, HEADER_LEN};
use crate::domain::{domain_labels, name_text};
use crate::question::{parse_question, question_bytes, Question, QuestionView};

verus! {

/// The questions of a message, in order.
#[derive(Debug, PartialEq, Eq)]
pub struct Questions(pub Vec<Question>);

/// The answers of a message, in order.
#[derive(Debug, PartialEq, Eq)]
pub struct Answers(pub Vec<Answer>);

pub open spec fn questions_view(v: Seq<Question>) -> Seq<QuestionView> {
    v.map_values(|q: Question| q@)
}

pub open spec fn answers_view(v: Seq<Answer>) -> Seq<AnswerView> {
    v.map_values(|a: Answer| a@)
}

impl View for Questions {
    type V = Seq<QuestionView>;

    open spec fn view(&self) -> Seq<QuestionView> {
        questions_view(self.0@)
    }
}

impl View for Answers {
    type V = Seq<AnswerView>;

    open spec fn view(&self) -> Seq<AnswerView> {
        answers_view(self.0@)
    }
}

/// A message as plain values.
pub struct MessageView {
    pub header: Header,
    pub questions: Seq<QuestionView>,
    pub answers: Seq<AnswerView>,
}

/// A message: one header, its questions and its answers.
#[derive(Debug, PartialEq, Eq)]
pub struct Message {
    pub header: Header,
    pub questions: Questions,
    pub answers: Answers,
}

impl View for Message {
    type V = MessageView;

    open spec fn view(&self) -> MessageView {
        MessageView { header: self.header, questions: self.questions@, answers: self.answers@ }
    }
}

/// The views of a list of messages.
pub open spec fn messages_view(v: Seq<Message>) -> Seq<MessageView> {
    v.map_values(|m: Message| m@)
}

/// The encodings of the questions, one after another.
pub open spec fn questions_bytes(qs: Seq<QuestionView>) -> Seq<u8> {
    qs.map_values(|q: QuestionView| question_bytes(q)).flatten()
}

/// The encodings of the answers, one after another.
pub open spec fn answers_bytes(ans: Seq<AnswerView>) -> Seq<u8> {
    ans.map_values(|a: AnswerView| answer_bytes(a)).flatten()
}

/// The encoding of a message: header, questions, answers.
pub open spec fn message_bytes(m: MessageView) -> Seq<u8> {
    header_bytes(m.header) + questions_bytes(m.questions) + answers_bytes(m.answers)
}

/// Decoded questions with the offset after the last, or why it failed.
pub type QuestionsResult = Result<(Seq<QuestionView>, int), DnsError>;

/// Decoded answers with the offset after the last, or why it failed.
pub type AnswersResult = Result<(Seq<AnswerView>, int), DnsError>;

/// Decoding of `n` questions one after another from `start`.
pub open spec fn parse_questions(buf: Seq<u8>, start: int, n: nat) -> QuestionsResult
    decreases n,
{
    if n == 0 {
        Ok((seq![], start))
    } else {
        match parse_question(buf, start) {
            Err(e) => Err(e),
            Ok((q, end)) => match parse_questions(buf, end, (n - 1) as nat) {
                Err(e) => Err(e),
                Ok((qs, last)) => Ok((seq![q] + qs, last)),
            },
        }
    }
}

/// Decoding of `n` answers one after another from `start`.
pub open spec fn parse_answers(buf: Seq<u8>, start: int, n: nat) -> AnswersResult
    decreases n,
{
    if n == 0 {
        Ok((seq![], start))
    } else {
        match parse_answer(buf, start) {
            Err(e) => Err(e),
            Ok((a, end)) => match parse_answers(buf, end, (n - 1) as nat) {
                Err(e) => Err(e),
                Ok((ans, last)) => Ok((seq![a] + ans, last)),
            },
        }
    }
}

/// Decoding of a message: the header from the first twelve bytes, then as
/// many questions and then answers as its counts give, each starting where
/// the one before ended. The other sections are not read.
pub open spec fn parse_message(buf: Seq<u8>) -> Result<MessageView, DnsError> {
    if buf.len() < HEADER_LEN {
        Err(DnsError::HeaderLength)
    } else {
        let header = header_of(buf.take(HEADER_LEN as int));
        match parse_questions(buf, HEADER_LEN as int, header.qd_count as nat) {
            Err(e) => Err(e),
            Ok((questions, end)) => match parse_answers(buf, end, header.an_count as nat) {
                Err(e) => Err(e),
                Ok((answers, _)) => Ok(MessageView { header, questions, answers }),
            },
        }
    }
}

/// What a call of `Message::deserialize` returned, over plain values.
pub open spec fn message_result_view(r: Result<Message, DnsError>) -> Result<MessageView, DnsError> {
    match r {
        Ok(m) => Ok(m@),
        Err(e) => Err(e),
    }
}

spec fn with_questions(p: Seq<QuestionView>, r: QuestionsResult) -> QuestionsResult {
    match r {
        Ok((qs, end)) => Ok((p + qs, end)),
        Err(e) => Err(e),
    }
}

spec fn with_answers(p: Seq<AnswerView>, r: AnswersResult) -> AnswersResult {
    match r {
        Ok((ans, end)) => Ok((p + ans, end)),
        Err(e) => Err(e),
    }
}

proof fn lemma_flatten_prefix<A>(parts: Seq<Seq<A>>, i: int)
    requires
        0 <= i < parts.len(),
    ensures
        parts.take(i + 1).flatten() == parts.take(i).flatten() + parts[i],
        parts.take(i + 1).flatten().len() <= parts.flatten().len(),
{
    assert(parts.take(i + 1) =~= parts.take(i).push(parts[i]));
    parts.take(i).lemma_flatten_push(parts[i]);
    lemma_flatten_concat(parts.take(i + 1), parts.skip(i + 1));
    assert(parts.take(i + 1) + parts.skip(i + 1) =~= parts);
}

impl Questions {
    /// Appends the encodings of the questions to `out`.
    pub fn write_to(&self, out: &mut BytesMut)
        requires
            bytes_of(*old(out)).len() + questions_bytes(self@).len() <= isize::MAX,
        ensures
            bytes_of(*final(out)) == bytes_of(*old(out)) + questions_bytes(self@),
    {
        let ghost start = bytes_of(*out);
        let ghost parts = self@.map_values(|q: QuestionView| question_bytes(q));
        let mut i: usize = 0;
        while i < self.0.len()
            invariant
                i <= self.0@.len(),
                parts == self@.map_values(|q: QuestionView| question_bytes(q)),
                start.len() + parts.flatten().len() <= isize::MAX,
                bytes_of(*out) == start + parts.take(i as int).flatten(),
            decreases self.0@.len() - i,
        {
            proof {
                lemma_flatten_prefix(parts, i as int);
            }
            self.0[i].write_to(out);
            i = i + 1;
        }
        assert(parts.take(i as int) =~= parts);
    }

    /// The encodings of the questions, one after another.
    pub fn serialize(self) -> (r: BytesMut)
        requires
            questions_bytes(self@).len() <= isize::MAX,
        ensures
            bytes_of(r) == questions_bytes(self@),
    {
        let mut out = BytesMut::new();
        self.write_to(&mut out);
        assert(Seq::<u8>::empty() + questions_bytes(self@) =~= questions_bytes(self@));
        out
    }
}

impl Answers {
    /// Appends the encodings of the answers to `out`.
    pub fn write_to(&self, out: &mut BytesMut)
        requires
            bytes_of(*old(out)).len() + answers_bytes(self@).len() <= isize::MAX,
        ensures
            bytes_of(*final(out)) == bytes_of(*old(out)) + answers_bytes(self@),
    {
        let ghost start = bytes_of(*out);
        let ghost parts = self@.map_values(|a: AnswerView| answer_bytes(a));
        let mut i: usize = 0;
        while i < self.0.len()
            invariant
                i <= self.0@.len(),
                parts == self@.map_values(|a: AnswerView| answer_bytes(a)),
                start.len() + parts.flatten().len() <= isize::MAX,
                bytes_of(*out) == start + parts.take(i as int).flatten(),
            decreases self.0@.len() - i,
        {
            proof {
                lemma_flatten_prefix(parts, i as int);
            }
            self.0[i].write_to(out);
            i = i + 1;
        }
        assert(parts.take(i as int) =~= parts);
    }

    /// The encodings of the answers, one after another.
    pub fn serialize(self) -> (r: BytesMut)
        requires
            answers_bytes(self@).len() <= isize::MAX,
        ensures
            bytes_of(r) == answers_bytes(self@),
    {
        let mut out = BytesMut::new();
        self.write_to(&mut out);
        assert(Seq::<u8>::empty() + answers_bytes(self@) =~= answers_bytes(self@));
        out
    }
}

impl Message {
    pub fn new(header: Header, questions: Vec<Question>, answers: Vec<Answer>) -> (r: Message)
        ensures
            r@ == (MessageView {
                header,
                questions: questions_view(questions@),
                answers: answers_view(answers@),
            }),
    {
        Message { header, questions: Questions(questions), answers: Answers(answers) }
    }

    /// The length of the encoding of the message, or `usize::MAX` when it
    /// does not fit. `serialize` needs it to be at most `isize::MAX`.
    pub fn encoded_len(&self) -> (r: usize)
        ensures
            r == capped(message_bytes(self@).len() as int),
    {
        let ghost qparts = self@.questions.map_values(|q: QuestionView| question_bytes(q));
        let ghost aparts = self@.answers.map_values(|a: AnswerView| answer_bytes(a));
        let mut total: usize = HEADER_LEN;
        assert(qparts.take(0).flatten() =~= Seq::<u8>::empty());
        let mut i: usize = 0;
        while i < self.questions.0.len()
            invariant
                i <= qparts.len(),
                qparts == self@.questions.map_values(|q: QuestionView| question_bytes(q)),
                total == capped(HEADER_LEN + qparts.take(i as int).flatten().len()),
            decreases qparts.len() - i,
        {
            proof {
                lemma_flatten_prefix(qparts, i as int);
            }
            let n = self.questions.0[i].encoded_len();
            proof {
                lemma_capped_add(HEADER_LEN + qparts.take(i as int).flatten().len(), qparts[i as int].len() as int);
            }
            total = total.saturating_add(n);
            i = i + 1;
        }
        assert(qparts.take(i as int) =~= qparts);
        assert(aparts.take(0).flatten() =~= Seq::<u8>::empty());
        let mut j: usize = 0;
        while j < self.answers.0.len()
            invariant
                j <= aparts.len(),
                qparts == self@.questions.map_values(|q: QuestionView| question_bytes(q)),
                aparts == self@.answers.map_values(|a: AnswerView| answer_bytes(a)),
                total == capped(
                    HEADER_LEN + qparts.flatten().len() + aparts.take(j as int).flatten().len(),
                ),
            decreases aparts.len() - j,
        {
            proof {
                lemma_flatten_prefix(aparts, j as int);
            }
            let n = self.answers.0[j].encoded_len();
            proof {
                lemma_capped_add(
                    HEADER_LEN + qparts.flatten().len() + aparts.take(j as int).flatten().len(),
                    aparts[j as int].len() as int,
                );
            }
            total = total.saturating_add(n);
            j = j + 1;
        }
        assert(aparts.take(j as int) =~= aparts);
        proof {
            crate::header::lemma_header_len(self.header);
        }
        total
    }

    /// The encoding of the message: header, questions, answers.
    pub fn serialize(self) -> (r: BytesMut)
        requires
            message_bytes(self@).len() <= isize::MAX,
        ensures
            bytes_of(r) == message_bytes(self@),
    {
        let mut out = self.header.serialize();
        let questions = self.questions.serialize();
        let answers = self.answers.serialize();
        out.extend_from_slice(as_slice(&questions));
        out.extend_from_slice(as_slice(&answers));
        out
    }

    /// Decodes a whole message.
    pub fn deserialize(bytes: &[u8]) -> (r: Result<Message, DnsError>)
        ensures
            message_result_view(r) == parse_message(bytes@),
    {
        if bytes.len() < HEADER_LEN {
            return Err(DnsError::HeaderLength);
        }
        let header = match Header::deserialize(slice_subrange(bytes, 0, HEADER_LEN)) {
            Ok(h) => h,
            Err(e) => {
                return Err(e);
            },
        };
        let ghost b = bytes@;
        assert(b.subrange(0, HEADER_LEN as int) =~= b.take(HEADER_LEN as int));
        let mut start: usize = HEADER_LEN;
        let mut questions: Vec<Question> = Vec::new();
        let mut i: u16 = 0;
        while i < header.qd_count
            invariant
                b == bytes@,
                i <= header.qd_count,
                b.len() >= HEADER_LEN,
                header == header_of(b.take(HEADER_LEN as int)),
                parse_questions(b, HEADER_LEN as int, header.qd_count as nat) == with_questions(
                    questions_view(questions@),
                    parse_questions(b, start as int, (header.qd_count - i) as nat),
                ),
            decreases header.qd_count - i,
        {
            match Question::deserialize(bytes, start) {
                Ok((q, end)) => {
                    let ghost before = questions@;
                    let ghost rest = parse_questions(b, end as int, (header.qd_count - i - 1) as nat);
                    questions.push(q);
                    assert(questions_view(questions@) =~= questions_view(before).push(q@));
                    proof {
                        match rest {
                            Ok((qs, last)) => {
                                assert(questions_view(before) + (seq![q@] + qs) =~= questions_view(questions@) + qs);
                            },
                            Err(e) => {},
                        }
                    }
                    start = end;
                },
                Err(e) => {
                    assert(parse_questions(b, start as int, (header.qd_count - i) as nat) == Err::<
                        (Seq<QuestionView>, int),
                        DnsError,
                    >(e));
                    assert(parse_questions(b, HEADER_LEN as int, header.qd_count as nat) == Err::<
                        (Seq<QuestionView>, int),
                        DnsError,
                    >(e));
                    assert(parse_message(b) == Err::<MessageView, DnsError>(e));
                    return Err(e);
                },
            }
            i = i + 1;
        }
        assert(questions_view(questions@) + seq![] =~= questions_view(questions@));
        let mut answers: Vec<Answer> = Vec::new();
        let ghost qend = start as int;
        let mut j: u16 = 0;
        while j < header.an_count
            invariant
                b == bytes@,
                j <= header.an_count,
                b.len() >= HEADER_LEN,
                header == header_of(b.take(HEADER_LEN as int)),
                parse_questions(b, HEADER_LEN as int, header.qd_count as nat) == Ok::<
                    (Seq<QuestionView>, int),
                    DnsError,
                >((questions_view(questions@), qend)),
                parse_answers(b, qend, header.an_count as nat) == with_answers(
                    answers_view(answers@),
                    parse_answers(b, start as int, (header.an_count - j) as nat),
                ),
            decreases header.an_count - j,
        {
            match Answer::deserialize(bytes, start) {
                Ok((a, end)) => {
                    let ghost before = answers@;
                    let ghost rest = parse_answers(b, end as int, (header.an_count - j - 1) as nat);
                    answers.push(a);
                    assert(answers_view(answers@) =~= answers_view(before).push(a@));
                    proof {
                        match rest {
                            Ok((ans, last)) => {
                                assert(answers_view(before) + (seq![a@] + ans) =~= answers_view(answers@) + ans);
                            },
                            Err(e) => {},
                        }
                    }
                    start = end;
                },
                Err(e) => {
                    assert(parse_answers(b, start as int, (header.an_count - j) as nat) == Err::<
                        (Seq<AnswerView>, int),
                        DnsError,
                    >(e));
                    assert(parse_answers(b, qend, header.an_count as nat) == Err::<
                        (Seq<AnswerView>, int),
                        DnsError,
                    >(e));
                    assert(parse_message(b) == Err::<MessageView, DnsError>(e));
                    return Err(e);
                },
            }
            j = j + 1;
        }
        assert(answers_view(answers@) + seq![] =~= answers_view(answers@));
        Ok(Message { header, questions: Questions(questions), answers: Answers(answers) })
    }

    /// The id of the message.
    pub fn id(&self) -> (r: u16)
        ensures
            r == self.header.id,
    {
        self.header.id
    }

    /// The opcode of the message.
    pub fn opcode(&self) -> (r: u8)
        ensures
            r == self.header.opcode,
    {
        self.header.opcode
    }

    /// Whether recursion is desired.
    pub fn rd(&self) -> (r: bool)
        ensures
            r == self.header.rd,
    {
        self.header.rd
    }
}

impl core::ops::Deref for Questions {
    type Target = Vec<Question>;

    fn deref(&self) -> (r: &Vec<Question>)
        ensures
            r@ == self.0@,
    {
        &self.0
    }
}

impl core::ops::Deref for Answers {
    type Target = Vec<Answer>;

    fn deref(&self) -> (r: &Vec<Answer>)
        ensures
            r@ == self.0@,
    {
        &self.0
    }
}

impl Clone for Questions {
    fn clone(&self) -> (r: Questions)
        ensures
            r@ == self@,
    {
        let mut v: Vec<Question> = Vec::new();
        let mut i: usize = 0;
        while i < self.0.len()
            invariant
                i <= self.0@.len(),
                questions_view(v@) == questions_view(self.0@.take(i as int)),
            decreases self.0@.len() - i,
        {
            let q = self.0[i].clone();
            let ghost before = v@;
            v.push(q);
            assert(self.0@.take(i as int + 1) =~= self.0@.take(i as int).push(self.0@[i as int]));
            assert(questions_view(v@) =~= questions_view(before).push(q@));
            assert(questions_view(v@) =~= questions_view(self.0@.take(i as int + 1)));
            i = i + 1;
        }
        assert(self.0@.take(i as int) =~= self.0@);
        Questions(v)
    }
}

impl Clone for Answers {
    fn clone(&self) -> (r: Answers)
        ensures
            r@ == self@,
    {
        let mut v: Vec<Answer> = Vec::new();
        let mut i: usize = 0;
        while i < self.0.len()
            invariant
                i <= self.0@.len(),
                answers_view(v@) == answers_view(self.0@.take(i as int)),
            decreases self.0@.len() - i,
        {
            let a = self.0[i].clone();
            let ghost before = v@;
            v.push(a);
            assert(self.0@.take(i as int + 1) =~= self.0@.take(i as int).push(self.0@[i as int]));
            assert(answers_view(v@) =~= answers_view(before).push(a@));
            assert(answers_view(v@) =~= answers_view(self.0@.take(i as int + 1)));
            i = i + 1;
        }
        assert(self.0@.take(i as int) =~= self.0@);
        Answers(v)
    }
}

impl Clone for Message {
    fn clone(&self) -> (r: Message)
        ensures
            r@ == self@,
    {
        Message {
            header: self.header,
            questions: self.questions.clone(),
            answers: self.answers.clone(),
        }
    }
}

/// The answer that `Answers::from_questions` makes for a question: an
/// address record for the question's name, read as text and split at dots
/// again, with the fixed time to live and address.
pub open spec fn synthesized_answer(q: QuestionView) -> AnswerView {
    AnswerView {
        name: domain_labels(encode_utf8(name_text(q.name))),
        ty: Ty::A,
        class: Class::IN,
        ttl: DEFAULT_TTL,
        rd_length: 4,
        r_data: Data::A(DEFAULT_ADDRESS),
    }
}

impl Answers {
    /// One address record for each question, in order, each with the fixed
    /// time to live and address.
    pub fn from_questions(questions: &Questions) -> (r: Answers)
        ensures
            r@ == questions@.map_values(|q: QuestionView| synthesized_answer(q)),
    {
        let ghost qs = questions@;
        let mut v: Vec<Answer> = Vec::new();
        let mut i: usize = 0;
        while i < questions.0.len()
            invariant
                i <= qs.len(),
                qs == questions@,
                answers_view(v@) == qs.take(i as int).map_values(
                    |q: QuestionView| synthesized_answer(q),
                ),
            decreases qs.len() - i,
        {
            let domain = questions.0[i].domain();
            let a = Answer::from_domain_name(domain.as_str());
            let ghost before = v@;
            v.push(a);
            assert(qs.take(i as int + 1) =~= qs.take(i as int).push(qs[i as int]));
            assert(answers_view(v@) =~= answers_view(before).push(a@));
            assert(answers_view(v@) =~= qs.take(i as int + 1).map_values(
                |q: QuestionView| synthesized_answer(q),
            ));
            i = i + 1;
        }
        assert(qs.take(i as int) =~= qs);
        Answers(v)
    }
}

impl Default for Message {
    /// The default header, and no questions or answers.
    fn default() -> (r: Message)
        ensures
            r@ == (MessageView { header: default_header(), questions: seq![], answers: seq![] }),
    {
        let r = Message {
            header: Header::default(),
            questions: Questions(Vec::new()),
            answers: Answers(Vec::new()),
        };
        assert(r@.questions =~= Seq::<QuestionView>::empty());
        assert(r@.answers =~= Seq::<AnswerView>::empty());
        r
    }
}

/// Builds a message, counting each question and answer in the header as it
/// is added.
pub struct MessageBuilder {
    message: Message,
}

impl View for MessageBuilder {
    type V = MessageView;

    closed spec fn view(&self) -> MessageView {
        self.message@
    }
}

impl MessageBuilder {
    /// A builder holding the default header and no questions or answers.
    pub fn new() -> (r: MessageBuilder)
        ensures
            r@ == (MessageView { header: default_header(), questions: seq![], answers: seq![] }),
    {
        MessageBuilder { message: Message::default() }
    }

    pub fn set_id(self, id: u16) -> (r: MessageBuilder)
        ensures
            r@ == (MessageView { header: Header { id, ..self@.header }, ..self@ }),
    {
        let mut s = self;
        s.message.header.set_id(id);
        s
    }

    pub fn set_opcode(self, opcode: u8) -> (r: MessageBuilder)
        ensures
            r@ == (MessageView { header: Header { opcode, ..self@.header }, ..self@ }),
    {
        let mut s = self;
        s.message.header.set_opcode(opcode);
        s
    }

    pub fn set_rd(self, rd: bool) -> (r: MessageBuilder)
        ensures
            r@ == (MessageView { header: Header { rd, ..self@.header }, ..self@ }),
    {
        let mut s = self;
        s.message.header.set_rd(rd);
        s
    }

    /// Replaces the whole header, counts included.
    pub fn set_header(self, header: Header) -> (r: MessageBuilder)
        ensures
            r@ == (MessageView { header, ..self@ }),
    {
        let mut s = self;
        s.message.header = header;
        s
    }

    /// Adds an answer and counts it.
    pub fn add_answer(self, answer: Answer) -> (r: MessageBuilder)
        requires
            self@.header.an_count < u16::MAX,
        ensures
            r@ == (MessageView {
                header: Header { an_count: (self@.header.an_count + 1) as u16, ..self@.header },
                answers: self@.answers.push(answer@),
                ..self@
            }),
    {
        let mut s = self;
        let ghost before = s.message.answers.0@;
        s.message.answers.0.push(answer);
        assert(answers_view(s.message.answers.0@) =~= answers_view(before).push(answer@));
        s.message.header.increment_an_count();
        s
    }

    /// Adds a question and counts it.
    pub fn add_question(self, question: Question) -> (r: MessageBuilder)
        requires
            self@.header.qd_count < u16::MAX,
        ensures
            r@ == (MessageView {
                header: Header { qd_count: (self@.header.qd_count + 1) as u16, ..self@.header },
                questions: self@.questions.push(question@),
                ..self@
            }),
    {
        let mut s = self;
        let ghost before = s.message.questions.0@;
        s.message.questions.0.push(question);
        assert(questions_view(s.message.questions.0@) =~= questions_view(before).push(question@));
        s.message.header.increment_qd_count();
        s
    }

    /// Adds the questions in order, counting each.
    pub fn add_questions(self, questions: Questions) -> (r: MessageBuilder)
        requires
            self@.header.qd_count + questions@.len() <= u16::MAX,
        ensures
            r@ == (MessageView {
                header: Header {
                    qd_count: (self@.header.qd_count + questions@.len()) as u16,
                    ..self@.header
                },
                questions: self@.questions + questions@,
                ..self@
            }),
    {
        let mut s = self;
        let mut items = questions.0;
        let ghost before = s.message.questions.0@;
        let ghost added = items@;
        let n = items.len();
        s.message.questions.0.append(&mut items);
        assert(questions_view(s.message.questions.0@) =~= questions_view(before) + questions_view(
            added,
        ));
        s.message.header.qd_count = s.message.header.qd_count + n as u16;
        s
    }

    /// Adds the answers in order, counting each.
    pub fn add_answers(self, answers: Answers) -> (r: MessageBuilder)
        requires
            self@.header.an_count + answers@.len() <= u16::MAX,
        ensures
            r@ == (MessageView {
                header: Header {
                    an_count: (self@.header.an_count + answers@.len()) as u16,
                    ..self@.header
                },
                answers: self@.answers + answers@,
                ..self@
            }),
    {
        let mut s = self;
        let mut items = answers.0;
        let ghost before = s.message.answers.0@;
        let ghost added = items@;
        let n = items.len();
        s.message.answers.0.append(&mut items);
        assert(answers_view(s.message.answers.0@) =~= answers_view(before) + answers_view(added));
        s.message.header.an_count = s.message.header.an_count + n as u16;
        s
    }

    /// The message built.
    pub fn finish(self) -> (r: Message)
        ensures
            r@ == self@,
    {
        self.message
    }
}

/// The header of each single-question message that `split` makes.
pub open spec fn single_header(h: Header) -> Header {
    Header { qd_count: 1, an_count: 0, ..h }
}

/// One message per question, in order: the header with one question and no
/// answers counted, that question, and no answers.
pub open spec fn split_view(m: MessageView) -> Seq<MessageView> {
    Seq::new(
        m.questions.len(),
        |i: int|
            MessageView {
                header: single_header(m.header),
                questions: seq![m.questions[i]],
                answers: seq![],
            },
    )
}

/// All questions of the messages, in order.
pub open spec fn all_questions(ms: Seq<MessageView>) -> Seq<QuestionView> {
    ms.map_values(|m: MessageView| m.questions).flatten()
}

/// All answers of the messages, in order.
pub open spec fn all_answers(ms: Seq<MessageView>) -> Seq<AnswerView> {
    ms.map_values(|m: MessageView| m.answers).flatten()
}

/// The message that `join` makes: the first message's header with the counts
/// of what was gathered, every question, and every answer.
pub open spec fn join_view(ms: Seq<MessageView>) -> MessageView {
    MessageView {
        header: Header {
            qd_count: all_questions(ms).len() as u16,
            an_count: all_answers(ms).len() as u16,
            ..ms[0].header
        },
        questions: all_questions(ms),
        answers: all_answers(ms),
    }
}

proof fn lemma_flatten_singletons<A>(ps: Seq<Seq<A>>, xs: Seq<A>)
    requires
        ps.len() == xs.len(),
        forall|i: int| 0 <= i < ps.len() ==> #[trigger] ps[i] == seq![xs[i]],
    ensures
        ps.flatten() == xs,
    decreases ps.len(),
{
    if ps.len() > 0 {
        lemma_flatten_singletons(ps.drop_first(), xs.drop_first());
        assert(seq![xs[0]] + xs.drop_first() =~= xs);
    }
}

/// Splitting a message of N questions and no answers gives N messages, each
/// counting one question and no answer. When each of those comes back with
/// its question and exactly one answer, joining them gives back the
/// questions in order, the answers in order, and counts of N each.
pub proof fn lemma_split_join(m: MessageView, responses: Seq<MessageView>)
    requires
        1 <= m.questions.len() <= u16::MAX,
        m.answers.len() == 0,
        responses.len() == m.questions.len(),
        forall|i: int|
            0 <= i < responses.len() ==> (#[trigger] responses[i]).questions == split_view(
                m,
            )[i].questions && responses[i].answers.len() == 1,
    ensures
        split_view(m).len() == m.questions.len(),
        forall|i: int|
            0 <= i < m.questions.len() ==> (#[trigger] split_view(m)[i]).header.qd_count == 1
                && split_view(m)[i].header.an_count == 0 && split_view(m)[i].questions == seq![
                m.questions[i],
            ] && split_view(m)[i].answers.len() == 0,
        join_view(responses).questions == m.questions,
        join_view(responses).answers == responses.map_values(|r: MessageView| r.answers[0]),
        join_view(responses).header.qd_count == m.questions.len(),
        join_view(responses).header.an_count == m.questions.len(),
{
    let qs = responses.map_values(|r: MessageView| r.questions);
    let ans = responses.map_values(|r: MessageView| r.answers);
    let firsts = responses.map_values(|r: MessageView| r.answers[0]);
    assert forall|i: int| 0 <= i < qs.len() implies #[trigger] qs[i] == seq![m.questions[i]] by {
        assert(responses[i].questions == split_view(m)[i].questions);
    }
    lemma_flatten_singletons(qs, m.questions);
    assert forall|i: int| 0 <= i < ans.len() implies #[trigger] ans[i] == seq![firsts[i]] by {
        assert(responses[i].answers.len() == 1);
        assert(ans[i] =~= seq![firsts[i]]);
    }
    lemma_flatten_singletons(ans, firsts);
}

impl Message {
    /// One message per question, in order, each with a copy of the header
    /// counting one question and no answers, and no answers.
    pub fn split(self) -> (r: Vec<Message>)
        ensures
            messages_view(r@) == split_view(self@),
    {
        let ghost m = self@;
        let mut header = self.header;
        header.qd_count = 1;
        header.an_count = 0;
        let mut out: Vec<Message> = Vec::new();
        let mut i: usize = 0;
        while i < self.questions.0.len()
            invariant
                i <= m.questions.len(),
                m == self@,
                header == single_header(m.header),
                messages_view(out@) == split_view(m).take(i as int),
            decreases m.questions.len() - i,
        {
            let q = self.questions.0[i].clone();
            let ghost qv = q@;
            let mut one: Vec<Question> = Vec::new();
            one.push(q);
            let msg = Message::new(header, one, Vec::new());
            assert(msg@ =~= split_view(m)[i as int]) by {
                assert(questions_view(one@) =~= seq![qv]);
                assert(msg@.answers =~= Seq::<AnswerView>::empty());
            }
            let ghost before = out@;
            out.push(msg);
            assert(messages_view(out@) =~= messages_view(before).push(msg@));
            assert(split_view(m).take(i as int + 1) =~= split_view(m).take(i as int).push(
                split_view(m)[i as int],
            ));
            i = i + 1;
        }
        assert(split_view(m).take(i as int) =~= split_view(m));
        out
    }

    /// Gathers the answers and questions of every message, in order, under
    /// the first message's header, with the counts recomputed from what was
    /// gathered.
    pub fn join(v: Vec<Message>) -> (r: Message)
        requires
            v@.len() >= 1,
            all_questions(messages_view(v@)).len() <= u16::MAX,
            all_answers(messages_view(v@)).len() <= u16::MAX,
        ensures
            r@ == join_view(messages_view(v@)),
    {
        let ghost ms = messages_view(v@);
        let ghost qparts = ms.map_values(|m: MessageView| m.questions);
        let ghost aparts = ms.map_values(|m: MessageView| m.answers);
        let mut header = v[0].header;
        header.qd_count = 0;
        header.an_count = 0;
        let mut b = MessageBuilder::new().set_header(header);
        assert(b@.answers =~= aparts.take(0).flatten());
        let mut i: usize = 0;
        while i < v.len()
            invariant
                i <= v@.len(),
                ms == messages_view(v@),
                aparts == ms.map_values(|m: MessageView| m.answers),
                aparts.flatten().len() <= u16::MAX,
                b@.header == (Header { an_count: b@.answers.len() as u16, ..header }),
                b@.questions.len() == 0,
                b@.answers == aparts.take(i as int).flatten(),
            decreases v@.len() - i,
        {
            proof {
                lemma_flatten_prefix(aparts, i as int);
            }
            b = b.add_answers(v[i].answers.clone());
            i = i + 1;
        }
        assert(aparts.take(i as int) =~= aparts);
        assert(b@.questions =~= qparts.take(0).flatten());
        let mut j: usize = 0;
        while j < v.len()
            invariant
                j <= v@.len(),
                ms == messages_view(v@),
                qparts == ms.map_values(|m: MessageView| m.questions),
                qparts.flatten().len() <= u16::MAX,
                b@.header == (Header {
                    an_count: all_answers(ms).len() as u16,
                    qd_count: b@.questions.len() as u16,
                    ..header
                }),
                b@.answers == all_answers(ms),
                b@.questions == qparts.take(j as int).flatten(),
            decreases v@.len() - j,
        {
            proof {
                lemma_flatten_prefix(qparts, j as int);
            }
            b = b.add_questions(v[j].questions.clone());
            j = j + 1;
        }
        assert(qparts.take(j as int) =~= qparts);
        b.finish()
    }
}

} // verus!
