//! The fixed twelve-byte header that opens every message.
use bytes::BytesMut;
use vstd::prelude::*;

use crate::buffer::{be16, bytes_of, put_u16, put_u8};
use crate::error::DnsError;

verus! {

/// Length of an encoded header.
pub const HEADER_LEN: usize = 12;

/// The header of a message: an id, the flag bits, and four section counts.
#[derive(Debug, Clone, Copy, PartialEq, Eq, Structural)]
pub struct Header {
    pub id: u16,
    /// Set in a response.
    pub qr: bool,
    /// Four bits on the wire.
    pub opcode: u8,
    pub aa: bool,
    pub tc: bool,
    pub rd: bool,
    pub ra: bool,
    /// Three bits on the wire.
    pub reserved: u8,
    /// Four bits on the wire.
    pub r_code: u8,
    pub qd_count: u16,
    pub an_count: u16,
    pub ns_count: u16,
    pub ar_count: u16,
}

/// One bit for a flag.
pub open spec fn flag_bit(b: bool) -> u8 {
    if b {
        1
    } else {
        0
    }
}

/// The third header byte: qr, opcode, aa, tc and rd, from the high bit down.
pub open spec fn flags_high(h: Header) -> u8 {
    (flag_bit(h.qr) << 7u8) | (h.opcode << 3u8) | (flag_bit(h.aa) << 2u8) | (flag_bit(h.tc) << 1u8)
        | flag_bit(h.rd)
}

/// The fourth header byte: ra, the reserved bits and the response code.
pub open spec fn flags_low(h: Header) -> u8 {
    (flag_bit(h.ra) << 7u8) | (h.reserved << 4u8) | h.r_code
}

/// The twelve bytes that encode `h`.
pub open spec fn header_bytes(h: Header) -> Seq<u8> {
    be16(h.id) + seq![flags_high(h), flags_low(h)] + be16(h.qd_count) + be16(h.an_count) + be16(
        h.ns_count,
    ) + be16(h.ar_count)
}

/// The big-endian 16-bit value at `s[i]`, `s[i + 1]`.
pub open spec fn read_be16(s: Seq<u8>, i: int) -> u16 {
    (s[i] as int * 0x100 + s[i + 1] as int) as u16
}

/// The header that twelve bytes encode.
pub open spec fn header_of(s: Seq<u8>) -> Header {
    Header {
        id: read_be16(s, 0),
        qr: s[2] >> 7u8 == 1,
        opcode: (s[2] >> 3u8) & 0xf,
        aa: (s[2] >> 2u8) & 1 == 1,
        tc: (s[2] >> 1u8) & 1 == 1,
        rd: s[2] & 1 == 1,
        ra: s[3] >> 7u8 == 1,
        reserved: (s[3] >> 4u8) & 7,
        r_code: s[3] & 0xf,
        qd_count: read_be16(s, 4),
        an_count: read_be16(s, 6),
        ns_count: read_be16(s, 8),
        ar_count: read_be16(s, 10),
    }
}

/// Every field fits the bits that the wire gives it.
pub open spec fn fields_fit(h: Header) -> bool {
    h.opcode < 16 && h.reserved < 8 && h.r_code < 16
}

proof fn lemma_high_bits(q: u8, op: u8, a: u8, t: u8, r: u8)
    by (bit_vector)
    requires
        q <= 1,
        op < 16,
        a <= 1,
        t <= 1,
        r <= 1,
    ensures
        ((q << 7u8) | (op << 3u8) | (a << 2u8) | (t << 1u8) | r) >> 7u8 == q,
        (((q << 7u8) | (op << 3u8) | (a << 2u8) | (t << 1u8) | r) >> 3u8) & 0xf == op,
        (((q << 7u8) | (op << 3u8) | (a << 2u8) | (t << 1u8) | r) >> 2u8) & 1 == a,
        (((q << 7u8) | (op << 3u8) | (a << 2u8) | (t << 1u8) | r) >> 1u8) & 1 == t,
        ((q << 7u8) | (op << 3u8) | (a << 2u8) | (t << 1u8) | r) & 1 == r,
{
}

proof fn lemma_low_bits(a: u8, res: u8, code: u8)
    by (bit_vector)
    requires
        a <= 1,
        res < 8,
        code < 16,
    ensures
        ((a << 7u8) | (res << 4u8) | code) >> 7u8 == a,
        (((a << 7u8) | (res << 4u8) | code) >> 4u8) & 7 == res,
        ((a << 7u8) | (res << 4u8) | code) & 0xf == code,
{
}

/// An encoded header is twelve bytes long.
pub proof fn lemma_header_len(h: Header)
    ensures
        header_bytes(h).len() == HEADER_LEN,
{
}

/// Decoding the twelve bytes of a header gives that header back, whenever
/// opcode, reserved bits and response code each fit their bits.
pub proof fn lemma_header_round_trip(h: Header)
    requires
        fields_fit(h),
    ensures
        header_bytes(h).len() == HEADER_LEN,
        header_of(header_bytes(h)) == h,
{
    let s = header_bytes(h);
    lemma_high_bits(flag_bit(h.qr), h.opcode, flag_bit(h.aa), flag_bit(h.tc), flag_bit(h.rd));
    lemma_low_bits(flag_bit(h.ra), h.reserved, h.r_code);
    assert(s.subrange(0, 2) =~= be16(h.id));
    assert(s.subrange(4, 6) =~= be16(h.qd_count));
    assert(s.subrange(6, 8) =~= be16(h.an_count));
    assert(s.subrange(8, 10) =~= be16(h.ns_count));
    assert(s.subrange(10, 12) =~= be16(h.ar_count));
    assert(header_of(s) == h);
}

fn bit_of(b: bool) -> (r: u8)
    ensures
        r == flag_bit(b),
{
    if b {
        1
    } else {
        0
    }
}

pub(crate) fn be16_at(v: &[u8], i: usize) -> (r: u16)
    requires
        i + 1 < v@.len(),
    ensures
        r == read_be16(v@, i as int),
{
    (v[i] as u16) * 0x100 + (v[i + 1] as u16)
}

impl Header {
    pub fn new(
        id: u16,
        qr: bool,
        opcode: u8,
        aa: bool,
        tc: bool,
        rd: bool,
        ra: bool,
        reserved: u8,
        r_code: u8,
        qd_count: u16,
        an_count: u16,
        ns_count: u16,
        ar_count: u16,
    ) -> (r: Header)
        ensures
            r == (Header {
                id,
                qr,
                opcode,
                aa,
                tc,
                rd,
                ra,
                reserved,
                r_code,
                qd_count,
                an_count,
                ns_count,
                ar_count,
            }),
    {
        Header {
            id,
            qr,
            opcode,
            aa,
            tc,
            rd,
            ra,
            reserved,
            r_code,
            qd_count,
            an_count,
            ns_count,
            ar_count,
        }
    }

    /// Decodes a header from exactly twelve bytes.
    pub fn deserialize(v: &[u8]) -> (r: Result<Header, DnsError>)
        ensures
            v@.len() == HEADER_LEN ==> r == Ok::<Header, DnsError>(header_of(v@)),
            v@.len() != HEADER_LEN ==> r == Err::<Header, DnsError>(DnsError::HeaderLength),
    {
        if v.len() != HEADER_LEN {
            return Err(DnsError::HeaderLength);
        }
        let id = be16_at(v, 0);
        let qr = v[2] >> 7u8 == 1;
        let opcode = (v[2] >> 3u8) & 0xf;
        let aa = (v[2] >> 2u8) & 1 == 1;
        let tc = (v[2] >> 1u8) & 1 == 1;
        let rd = v[2] & 1 == 1;
        let ra = v[3] >> 7u8 == 1;
        let reserved = (v[3] >> 4u8) & 7;
        let r_code = v[3] & 0xf;
        let qd_count = be16_at(v, 4);
        let an_count = be16_at(v, 6);
        let ns_count = be16_at(v, 8);
        let ar_count = be16_at(v, 10);
        Ok(
            Header {
                id,
                qr,
                opcode,
                aa,
                tc,
                rd,
                ra,
                reserved,
                r_code,
                qd_count,
                an_count,
                ns_count,
                ar_count,
            },
        )
    }

    /// Encodes the header as twelve bytes.
    pub fn serialize(self) -> (r: BytesMut)
        ensures
            bytes_of(r) == header_bytes(self),
    {
        let mut buffer = BytesMut::new();
        put_u16(&mut buffer, self.id);
        let high = (bit_of(self.qr) << 7u8) | (self.opcode << 3u8) | (bit_of(self.aa) << 2u8) | (
        bit_of(self.tc) << 1u8) | bit_of(self.rd);
        put_u8(&mut buffer, high);
        let low = (bit_of(self.ra) << 7u8) | (self.reserved << 4u8) | self.r_code;
        put_u8(&mut buffer, low);
        put_u16(&mut buffer, self.qd_count);
        put_u16(&mut buffer, self.an_count);
        put_u16(&mut buffer, self.ns_count);
        put_u16(&mut buffer, self.ar_count);
        assert(bytes_of(buffer) =~= header_bytes(self));
        buffer
    }
    /// The number of questions.
    pub fn qd(&self) -> (r: u16)
        ensures
            r == self.qd_count,
    {
        self.qd_count
    }

    /// The number of answers.
    pub fn an(&self) -> (r: u16)
        ensures
            r == self.an_count,
    {
        self.an_count
    }

    /// The id, opcode and recursion-desired flag, which a response copies.
    pub fn get_id_opcode_rd(&self) -> (r: (u16, u8, bool))
        ensures
            r == (self.id, self.opcode, self.rd),
    {
        (self.id, self.opcode, self.rd)
    }

    pub fn set_id(&mut self, id: u16)
        ensures
            *final(self) == (Header { id, ..*old(self) }),
    {
        self.id = id;
    }

    pub fn set_opcode(&mut self, opcode: u8)
        ensures
            *final(self) == (Header { opcode, ..*old(self) }),
    {
        self.opcode = opcode;
    }

    pub fn set_rd(&mut self, rd: bool)
        ensures
            *final(self) == (Header { rd, ..*old(self) }),
    {
        self.rd = rd;
    }

    /// Counts one more question.
    pub fn increment_qd_count(&mut self)
        requires
            old(self).qd_count < u16::MAX,
        ensures
            *final(self) == (Header { qd_count: (old(self).qd_count + 1) as u16, ..*old(self) }),
    {
        self.qd_count += 1;
    }

    /// Counts one more answer.
    pub fn increment_an_count(&mut self)
        requires
            old(self).an_count < u16::MAX,
        ensures
            *final(self) == (Header { an_count: (old(self).an_count + 1) as u16, ..*old(self) }),
    {
        self.an_count += 1;
    }
}

/// The header a new message starts from: id 1234, the response flag set,
/// every other field zero.
pub open spec fn default_header() -> Header {
    Header {
        id: 1234,
        qr: true,
        opcode: 0,
        aa: false,
        tc: false,
        rd: false,
        ra: false,
        reserved: 0,
        r_code: 0,
        qd_count: 0,
        an_count: 0,
        ns_count: 0,
        ar_count: 0,
    }
}

impl Default for Header {
    fn default() -> (r: Header)
        ensures
            r == default_header(),
    {
        Header::new(1234, true, 0, false, false, false, false, 0, 0, 0, 0, 0, 0)
    }
}

} // verus!
