//! Resource records: a name, type, class, time to live and resource data.
use bytes::BytesMut;
use vstd::prelude::*;

use crate::buffer::{as_slice, be16, be32, bytes_of, capped, lemma_capped_add, put_u16, put_u32, put_u8};
use crate::codes::{class_code, class_of, lemma_codes_round_trip, ty_code, ty_of, Class, Ty};
use crate::error::DnsError;
use crate::header::{be16_at, read_be16};
use crate::domain::{domain_labels, name_text};
use crate::name::{
    labels_bytes, lemma_parse_uncompressed, name_bytes, parse_name, valid_labels, Labels,
};
use vstd::string::StringSliceAdditionalSpecFns;

verus! {

/// The resource data of a record, by record kind.
#[non_exhaustive]
#[derive(Debug, Clone, Copy, PartialEq, Eq, Structural)]
pub enum Data {
    /// An IPv4 address.
    A(u32),
}

/// The bytes of resource data on the wire.
pub open spec fn data_bytes(d: Data) -> Seq<u8> {
    match d {
        Data::A(a) => be32(a),
    }
}

/// The big-endian 32-bit value at `s[i]` to `s[i + 3]`.
pub open spec fn read_be32(s: Seq<u8>, i: int) -> u32 {
    (s[i] as int * 0x100_0000 + s[i + 1] as int * 0x1_0000 + s[i + 2] as int * 0x100
        + s[i + 3] as int) as u32
}

/// The time to live of the records this library makes, in seconds.
pub const DEFAULT_TTL: u32 = 60;

/// The address of the records this library makes: 8.8.8.8.
pub const DEFAULT_ADDRESS: u32 = 0x0808_0808;

/// A record as plain values.
pub struct AnswerView {
    pub name: Seq<Seq<u8>>,
    pub ty: Ty,
    pub class: Class,
    pub ttl: u32,
    pub rd_length: u16,
    pub r_data: Data,
}

/// A resource record of a message.
#[derive(Debug, PartialEq, Eq)]
pub struct Answer {
    name: Labels,
    ty: Ty,
    class: Class,
    ttl: u32,
    rd_length: u16,
    r_data: Data,
}

impl View for Answer {
    type V = AnswerView;

    closed spec fn view(&self) -> AnswerView {
        AnswerView {
            name: self.name@,
            ty: self.ty,
            class: self.class,
            ttl: self.ttl,
            rd_length: self.rd_length,
            r_data: self.r_data,
        }
    }
}

/// The encoding of a record: name, type, class, time to live, data length,
/// data.
pub open spec fn answer_bytes(a: AnswerView) -> Seq<u8> {
    name_bytes(a.name) + be16(ty_code(a.ty)) + be16(class_code(a.class)) + be32(a.ttl) + be16(
        a.rd_length,
    ) + data_bytes(a.r_data)
}

/// A decoded record with the offset just after it, or why it failed.
pub type AnswerResult = Result<(AnswerView, int), DnsError>;

/// Decoding of the record at `start` in `buf`: a name, then type, class, time
/// to live, data length and a four-byte address read from the offset where
/// the name's decoding stopped. The data length is taken as it stands.
pub open spec fn parse_answer(buf: Seq<u8>, start: int) -> AnswerResult {
    match parse_name(buf, start) {
        Err(e) => Err(e),
        Ok((name, end)) => {
            if end + 2 > buf.len() {
                Err(DnsError::Truncated)
            } else {
                match ty_of(read_be16(buf, end)) {
                    None => Err(DnsError::UnknownType),
                    Some(ty) => {
                        if end + 4 > buf.len() {
                            Err(DnsError::Truncated)
                        } else {
                            match class_of(read_be16(buf, end + 2)) {
                                None => Err(DnsError::UnknownClass),
                                Some(class) => {
                                    if end + 14 > buf.len() {
                                        Err(DnsError::Truncated)
                                    } else {
                                        Ok(
                                            (
                                                AnswerView {
                                                    name,
                                                    ty,
                                                    class,
                                                    ttl: read_be32(buf, end + 4),
                                                    rd_length: read_be16(buf, end + 8),
                                                    r_data: Data::A(read_be32(buf, end + 10)),
                                                },
                                                end + 14,
                                            ),
                                        )
                                    }
                                },
                            }
                        }
                    },
                }
            }
        },
    }
}

/// What a call of `Answer::deserialize` returned, over plain values.
pub open spec fn answer_result_view(r: Result<(Answer, usize), DnsError>) -> AnswerResult {
    match r {
        Ok((a, end)) => Ok((a@, end as int)),
        Err(e) => Err(e),
    }
}

proof fn lemma_be32_read(v: u32)
    ensures
        read_be32(be32(v), 0) == v,
{
    assert(v == (v / 0x100_0000) * 0x100_0000 + ((v / 0x1_0000) % 0x100) * 0x1_0000 + ((v / 0x100)
        % 0x100) * 0x100 + v % 0x100) by (nonlinear_arith);
}

proof fn lemma_be16_read(v: u16)
    ensures
        read_be16(be16(v), 0) == v,
{
}

fn be32_at(v: &[u8], i: usize) -> (r: u32)
    requires
        i + 3 < v@.len(),
    ensures
        r == read_be32(v@, i as int),
{
    (v[i] as u32) * 0x100_0000 + (v[i + 1] as u32) * 0x1_0000 + (v[i + 2] as u32) * 0x100 + (v[i
        + 3] as u32)
}

/// A record found at `start` of a larger buffer decodes to itself and ends
/// where its encoding ends.
pub proof fn lemma_parse_answer_at(buf: Seq<u8>, start: int, a: AnswerView)
    requires
        valid_labels(a.name),
        0 <= start,
        start + answer_bytes(a).len() <= buf.len(),
        buf.subrange(start, start + answer_bytes(a).len()) == answer_bytes(a),
    ensures
        parse_answer(buf, start) == Ok::<(AnswerView, int), DnsError>(
            (a, start + answer_bytes(a).len()),
        ),
{
    let ab = answer_bytes(a);
    let nb = name_bytes(a.name);
    let k = nb.len() as int;
    let z = start + labels_bytes(a.name).len();
    lemma_codes_round_trip(a.ty, a.class);
    assert(buf.subrange(start, start + k) =~= nb) by {
        assert forall|i: int| 0 <= i < k implies buf.subrange(start, start + k)[i] == nb[i] by {
            assert(buf[start + i] == ab[i]);
        }
    }
    assert forall|i: int| 0 <= i < 14 implies buf[z + 1 + i] == #[trigger] ab[k + i] by {
        assert(buf[start + (k + i)] == ab[k + i]);
    }
    lemma_parse_uncompressed(buf, start, a.name);
    let d = match a.r_data {
        Data::A(x) => x,
    };
    lemma_be16_read(ty_code(a.ty));
    lemma_be16_read(class_code(a.class));
    lemma_be32_read(a.ttl);
    lemma_be16_read(a.rd_length);
    lemma_be32_read(d);
    assert(ab[k] == be16(ty_code(a.ty))[0]);
    assert(ab[k + 1] == be16(ty_code(a.ty))[1]);
    assert(ab[k + 2] == be16(class_code(a.class))[0]);
    assert(ab[k + 3] == be16(class_code(a.class))[1]);
    assert(ab[k + 4] == be32(a.ttl)[0]);
    assert(ab[k + 5] == be32(a.ttl)[1]);
    assert(ab[k + 6] == be32(a.ttl)[2]);
    assert(ab[k + 7] == be32(a.ttl)[3]);
    assert(ab[k + 8] == be16(a.rd_length)[0]);
    assert(ab[k + 9] == be16(a.rd_length)[1]);
    assert(ab[k + 10] == be32(d)[0]);
    assert(ab[k + 11] == be32(d)[1]);
    assert(ab[k + 12] == be32(d)[2]);
    assert(ab[k + 13] == be32(d)[3]);
    assert(buf[z + 1] == 0);
    assert(read_be16(buf, z + 1) == read_be16(be16(ty_code(a.ty)), 0));
    assert(read_be16(buf, z + 3) == read_be16(be16(class_code(a.class)), 0));
    assert(read_be32(buf, z + 5) == read_be32(be32(a.ttl), 0));
    assert(read_be16(buf, z + 9) == read_be16(be16(a.rd_length), 0));
    assert(read_be32(buf, z + 11) == read_be32(be32(d), 0));
}

/// Decoding the encoding of an address record whose name is uncompressed
/// labels gives that record back.
pub proof fn lemma_answer_round_trip(a: AnswerView)
    requires
        valid_labels(a.name),
    ensures
        parse_answer(answer_bytes(a), 0) == Ok::<(AnswerView, int), DnsError>(
            (a, answer_bytes(a).len() as int),
        ),
{
    let b = answer_bytes(a);
    assert(b.subrange(0, b.len() as int) =~= b);
    lemma_parse_answer_at(b, 0, a);
}

impl Data {
    /// The number of bytes of the data on the wire.
    pub fn len(&self) -> (r: u16)
        ensures
            r == data_bytes(*self).len(),
    {
        match *self {
            Data::A(_) => 4,
        }
    }

    /// The data as it goes on the wire.
    pub fn as_bytes(&self) -> (r: BytesMut)
        ensures
            bytes_of(r) == data_bytes(*self),
    {
        match self {
            Data::A(a) => {
                let mut b = BytesMut::new();
                put_u32(&mut b, *a);
                assert(bytes_of(b) =~= data_bytes(*self));
                b
            },
        }
    }
}

impl Answer {
    /// An address record of type A and class IN for a domain, with the fixed
    /// time to live and address.
    pub fn from_domain_name(name: &str) -> (r: Answer)
        ensures
            r@ == (AnswerView {
                name: domain_labels(name.spec_bytes()),
                ty: Ty::A,
                class: Class::IN,
                ttl: DEFAULT_TTL,
                rd_length: 4,
                r_data: Data::A(DEFAULT_ADDRESS),
            }),
    {
        Answer::new(name, 1, 1, DEFAULT_TTL, DEFAULT_ADDRESS)
    }

    /// A record for a domain with raw type and class values; the type must
    /// name a type and the class must be IN, the one class whose data is
    /// known. The data length follows from the data.
    pub fn new(name: &str, ty: u16, class: u16, ttl: u32, data: u32) -> (r: Answer)
        requires
            ty_of(ty) is Some,
            class_of(class) == Some(Class::IN),
        ensures
            r@ == (AnswerView {
                name: domain_labels(name.spec_bytes()),
                ty: ty_of(ty)->Some_0,
                class: Class::IN,
                ttl,
                rd_length: 4,
                r_data: Data::A(data),
            }),
    {
        let t = match Ty::try_from(ty) {
            Ok(t) => t,
            Err(_) => Ty::A,
        };
        let r_data = Data::A(data);
        let rd_length = r_data.len();
        Answer {
            name: Labels::from_domain(name),
            ty: t,
            class: Class::IN,
            ttl,
            rd_length,
            r_data,
        }
    }

    /// The length of the encoding, or `usize::MAX` when it does not fit.
    pub fn encoded_len(&self) -> (r: usize)
        ensures
            r == capped(answer_bytes(self@).len() as int),
    {
        proof {
            lemma_capped_add(labels_bytes(self@.name).len() as int, 15);
        }
        self.name.encoded_len().saturating_add(15)
    }

    /// Appends the encoding of the record to `out`.
    pub fn write_to(&self, out: &mut BytesMut)
        requires
            bytes_of(*old(out)).len() + answer_bytes(self@).len() <= isize::MAX,
        ensures
            bytes_of(*final(out)) == bytes_of(*old(out)) + answer_bytes(self@),
    {
        let ghost start = bytes_of(*out);
        self.name.write_to(out);
        put_u8(out, 0);
        put_u16(out, self.ty.code());
        put_u16(out, self.class.code());
        put_u32(out, self.ttl);
        put_u16(out, self.rd_length);
        let data = self.r_data.as_bytes();
        out.extend_from_slice(as_slice(&data));
        assert(bytes_of(*out) =~= start + answer_bytes(self@));
    }

    /// The encoding: name with its terminating zero, type, class, time to
    /// live, data length, data.
    pub fn serialize(self) -> (r: BytesMut)
        requires
            answer_bytes(self@).len() <= isize::MAX,
        ensures
            bytes_of(r) == answer_bytes(self@),
    {
        let mut bytes = BytesMut::new();
        self.write_to(&mut bytes);
        assert(Seq::<u8>::empty() + answer_bytes(self@) =~= answer_bytes(self@));
        bytes
    }

    /// Decodes the record at `start` in `bytes`, following compression
    /// pointers; returns it with the offset just after it.
    pub fn deserialize(bytes: &[u8], start: usize) -> (r: Result<(Answer, usize), DnsError>)
        ensures
            answer_result_view(r) == parse_answer(bytes@, start as int),
    {
        let (name, end) = match Labels::parse(bytes, start) {
            Ok(p) => p,
            Err(e) => {
                return Err(e);
            },
        };
        if end > bytes.len() || bytes.len() - end < 2 {
            return Err(DnsError::Truncated);
        }
        let ty = match Ty::try_from(be16_at(bytes, end)) {
            Ok(t) => t,
            Err(e) => {
                return Err(e);
            },
        };
        if bytes.len() - end < 4 {
            return Err(DnsError::Truncated);
        }
        let class = match Class::try_from(be16_at(bytes, end + 2)) {
            Ok(c) => c,
            Err(e) => {
                return Err(e);
            },
        };
        if bytes.len() - end < 14 {
            return Err(DnsError::Truncated);
        }
        let ttl = be32_at(bytes, end + 4);
        let rd_length = be16_at(bytes, end + 8);
        let r_data = Data::A(be32_at(bytes, end + 10));
        Ok((Answer { name, ty, class, ttl, rd_length, r_data }, end + 14))
    }

    /// The name as text, labels joined by dots.
    pub fn domain(&self) -> (r: String)
        ensures
            r@ == name_text(self@.name),
    {
        self.name.to_string()
    }
}

impl Clone for Answer {
    fn clone(&self) -> (r: Answer)
        ensures
            r@ == self@,
    {
        Answer {
            name: self.name.clone(),
            ty: self.ty,
            class: self.class,
            ttl: self.ttl,
            rd_length: self.rd_length,
            r_data: self.r_data,
        }
    }
}

impl Default for Answer {
    /// The address record for codecrafters.io.
    fn default() -> (r: Answer)
        ensures
            r@ == (AnswerView {
                name: domain_labels("codecrafters.io".spec_bytes()),
                ty: Ty::A,
                class: Class::IN,
                ttl: DEFAULT_TTL,
                rd_length: 4,
                r_data: Data::A(DEFAULT_ADDRESS),
            }),
    {
        Answer::from_domain_name("codecrafters.io")
    }
}

} // verus!
