//! Questions: a name, a type and a class.
use bytes::BytesMut;
use vstd::prelude::*;

use crate::buffer::{be16, bytes_of, capped, lemma_capped_add, put_u16, put_u8};
use crate::codes::{class_code, class_of, lemma_codes_round_trip, ty_code, ty_of, Class, Ty};
use crate::error::DnsError;
use crate::header::read_be16;
use crate::domain::{domain_labels, name_text};
use crate::name::{
    labels_bytes, labels_from_bytes, lemma_parse_uncompressed, name_bytes, parse_name,
    valid_labels, Labels,
};
use vstd::string::StringSliceAdditionalSpecFns;

verus! {

/// A question as plain values.
pub struct QuestionView {
    pub name: Seq<Seq<u8>>,
    pub ty: Ty,
    pub class: Class,
}

/// A question of a message.
#[derive(Debug, PartialEq, Eq)]
pub struct Question {
    name: Labels,
    ty: Ty,
    class: Class,
}

impl View for Question {
    type V = QuestionView;

    closed spec fn view(&self) -> QuestionView {
        QuestionView { name: self.name@, ty: self.ty, class: self.class }
    }
}

/// The encoding of a question: its name, then type and class.
pub open spec fn question_bytes(q: QuestionView) -> Seq<u8> {
    name_bytes(q.name) + be16(ty_code(q.ty)) + be16(class_code(q.class))
}

/// A decoded question with the offset just after it, or why it failed.
pub type QuestionResult = Result<(QuestionView, int), DnsError>;

/// Decoding of the question at `start` in `buf`: a name, then a type and a
/// class read from the offset where the name's decoding stopped.
pub open spec fn parse_question(buf: Seq<u8>, start: int) -> QuestionResult {
    match parse_name(buf, start) {
        Err(e) => Err(e),
        Ok((name, end)) => {
            if end + 2 > buf.len() {
                Err(DnsError::Truncated)
            } else {
                match ty_of(read_be16(buf, end)) {
                    None => Err(DnsError::UnknownType),
                    Some(ty) => {
                        if end + 4 > buf.len() {
                            Err(DnsError::Truncated)
                        } else {
                            match class_of(read_be16(buf, end + 2)) {
                                None => Err(DnsError::UnknownClass),
                                Some(class) => Ok((QuestionView { name, ty, class }, end + 4)),
                            }
                        }
                    },
                }
            }
        },
    }
}

/// What a call of `Question::deserialize` returned, over plain values.
pub open spec fn question_result_view(r: Result<(Question, usize), DnsError>) -> QuestionResult {
    match r {
        Ok((q, end)) => Ok((q@, end as int)),
        Err(e) => Err(e),
    }
}

/// A question found at `start` of a larger buffer decodes to itself and ends
/// where its encoding ends.
pub proof fn lemma_parse_question_at(buf: Seq<u8>, start: int, q: QuestionView)
    requires
        valid_labels(q.name),
        0 <= start,
        start + question_bytes(q).len() <= buf.len(),
        buf.subrange(start, start + question_bytes(q).len()) == question_bytes(q),
    ensures
        parse_question(buf, start) == Ok::<(QuestionView, int), DnsError>(
            (q, start + question_bytes(q).len()),
        ),
{
    let qb = question_bytes(q);
    let nb = name_bytes(q.name);
    let k = nb.len() as int;
    let z = start + labels_bytes(q.name).len();
    lemma_codes_round_trip(q.ty, q.class);
    assert(buf.subrange(start, start + nb.len()) =~= nb) by {
        assert forall|i: int| 0 <= i < nb.len() implies buf.subrange(start, start + nb.len())[i]
            == nb[i] by {
            assert(buf[start + i] == qb[i]);
        }
    }
    assert(buf[z + 1] == qb[k]);
    assert(buf[z + 2] == qb[k + 1]);
    assert(buf[z + 3] == qb[k + 2]);
    assert(buf[z + 4] == qb[k + 3]);
    lemma_parse_uncompressed(buf, start, q.name);
}

/// Decoding the encoding of a question whose name is uncompressed labels
/// gives that question, and stops at the end of the encoding.
pub proof fn lemma_question_round_trip(q: QuestionView)
    requires
        valid_labels(q.name),
    ensures
        parse_question(question_bytes(q), 0) == Ok::<(QuestionView, int), DnsError>(
            (q, question_bytes(q).len() as int),
        ),
{
    let b = question_bytes(q);
    assert(b.subrange(0, b.len() as int) =~= b);
    lemma_parse_question_at(b, 0, q);
}

impl Question {
    /// A question of type A and class IN for a domain written with dots.
    pub fn from_domain_name(name: &str) -> (r: Question)
        ensures
            r@ == (QuestionView { name: domain_labels(name.spec_bytes()), ty: Ty::A, class: Class::IN }),
    {
        Question { name: Labels::from_domain(name), ty: Ty::A, class: Class::IN }
    }

    /// A question from length-prefixed name bytes and raw type and class
    /// values, which must name a type and a class.
    pub fn new(buf: &[u8], ty: u16, class: u16) -> (r: Question)
        requires
            ty_of(ty) is Some,
            class_of(class) is Some,
        ensures
            r@ == (QuestionView {
                name: labels_from_bytes(buf@),
                ty: ty_of(ty)->Some_0,
                class: class_of(class)->Some_0,
            }),
    {
        let t = match Ty::try_from(ty) {
            Ok(t) => t,
            Err(_) => Ty::A,
        };
        let c = match Class::try_from(class) {
            Ok(c) => c,
            Err(_) => Class::IN,
        };
        Question { name: Labels::from_bytes(buf), ty: t, class: c }
    }

    /// The length of the encoding, or `usize::MAX` when it does not fit.
    pub fn encoded_len(&self) -> (r: usize)
        ensures
            r == capped(question_bytes(self@).len() as int),
    {
        proof {
            lemma_capped_add(labels_bytes(self@.name).len() as int, 5);
        }
        self.name.encoded_len().saturating_add(5)
    }

    /// Appends the encoding of the question to `out`.
    pub fn write_to(&self, out: &mut BytesMut)
        requires
            bytes_of(*old(out)).len() + question_bytes(self@).len() <= isize::MAX,
        ensures
            bytes_of(*final(out)) == bytes_of(*old(out)) + question_bytes(self@),
    {
        let ghost start = bytes_of(*out);
        self.name.write_to(out);
        put_u8(out, 0);
        put_u16(out, self.ty.code());
        put_u16(out, self.class.code());
        assert(bytes_of(*out) =~= start + question_bytes(self@));
    }

    /// The encoding: the name with its terminating zero, the type, the class.
    pub fn serialize(self) -> (r: BytesMut)
        requires
            question_bytes(self@).len() <= isize::MAX,
        ensures
            bytes_of(r) == question_bytes(self@),
    {
        let mut buf = BytesMut::new();
        self.write_to(&mut buf);
        assert(Seq::<u8>::empty() + question_bytes(self@) =~= question_bytes(self@));
        buf
    }

    /// Decodes the question at `start` in `bytes`, following compression
    /// pointers; returns it with the offset just after it.
    pub fn deserialize(bytes: &[u8], start: usize) -> (r: Result<(Question, usize), DnsError>)
        ensures
            question_result_view(r) == parse_question(bytes@, start as int),
    {
        let (name, end) = match Labels::parse(bytes, start) {
            Ok(p) => p,
            Err(e) => {
                return Err(e);
            },
        };
        if end > bytes.len() || bytes.len() - end < 2 {
            return Err(DnsError::Truncated);
        }
        let ty = match Ty::try_from((bytes[end] as u16) * 0x100 + bytes[end + 1] as u16) {
            Ok(t) => t,
            Err(e) => {
                return Err(e);
            },
        };
        if bytes.len() - end < 4 {
            return Err(DnsError::Truncated);
        }
        let class = match Class::try_from((bytes[end + 2] as u16) * 0x100 + bytes[end + 3] as u16) {
            Ok(c) => c,
            Err(e) => {
                return Err(e);
            },
        };
        Ok((Question { name, ty, class }, end + 4))
    }

    /// The name as text, labels joined by dots.
    pub fn domain(&self) -> (r: String)
        ensures
            r@ == name_text(self@.name),
    {
        self.name.to_string()
    }
}

impl Clone for Question {
    fn clone(&self) -> (r: Question)
        ensures
            r@ == self@,
    {
        Question { name: self.name.clone(), ty: self.ty, class: self.class }
    }
}

impl Default for Question {
    /// A question of type A and class IN for codecrafters.io.
    fn default() -> (r: Question)
        ensures
            r@ == (QuestionView {
                name: domain_labels("codecrafters.io".spec_bytes()),
                ty: Ty::A,
                class: Class::IN,
            }),
    {
        Question::from_domain_name("codecrafters.io")
    }
}

} // verus!
