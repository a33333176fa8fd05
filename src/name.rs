//! Domain names: labels, their uncompressed encoding, and decoding with
//! compression pointers.
use bytes::BytesMut;
use vstd::prelude::*;
use vstd::slice::slice_subrange;
use vstd::utf8::{decode_utf8, valid_utf8};

use crate::buffer::{as_slice, bytes_of, capped, lemma_capped_add, put_u8};
use crate::error::DnsError;

verus! {

/// What `String::from_utf8_lossy` makes of a byte sequence.
pub uninterp spec fn lossy_text(b: Seq<u8>) -> Seq<char>;

/// Relies on `String::from_utf8_lossy`: the text of the bytes, where valid
/// UTF-8 is decoded as it stands.
#[verifier::external_body]
fn text_of(b: &[u8]) -> (r: String)
    ensures
        r@ == lossy_text(b@),
        valid_utf8(b@) ==> r@ == decode_utf8(b@),
{
    String::from_utf8_lossy(b).into_owned()
}

/// What a label keeps of the bytes it is made from: a length byte holds the
/// count, so only the first `len % 256` bytes stay.
pub open spec fn label_content(s: Seq<u8>) -> Seq<u8> {
    s.take((s.len() % 0x100) as int)
}

/// The encoding of one label: its length byte, then its bytes.
pub open spec fn label_bytes(l: Seq<u8>) -> Seq<u8> {
    seq![l.len() as u8] + l
}

/// The encoding of a sequence of labels, without the terminating zero.
pub open spec fn labels_bytes(ls: Seq<Seq<u8>>) -> Seq<u8> {
    ls.map_values(|l: Seq<u8>| label_bytes(l)).flatten()
}

/// One segment of a domain name, stored with its length byte in front.
#[derive(Debug, PartialEq, Eq)]
pub struct Label {
    val: BytesMut,
}

impl Label {
    #[verifier::type_invariant]
    spec fn well_formed(self) -> bool {
        &&& bytes_of(self.val).len() >= 1
        &&& bytes_of(self.val)[0] as int == bytes_of(self.val).len() - 1
    }
}

impl View for Label {
    type V = Seq<u8>;

    /// The bytes of the label, without its length byte.
    closed spec fn view(&self) -> Seq<u8> {
        bytes_of(self.val).drop_first()
    }
}

impl Label {
    /// A label of the given bytes; the length byte keeps `len % 256`, and so
    /// does the content.
    pub fn new(content: &[u8]) -> (r: Label)
        ensures
            r@ == label_content(content@),
    {
        let n = content.len() % 0x100;
        let mut val = BytesMut::new();
        put_u8(&mut val, n as u8);
        val.extend_from_slice(slice_subrange(content, 0, n));
        assert(bytes_of(val).drop_first() =~= label_content(content@));
        Label { val }
    }

    /// The number of bytes in the label.
    pub fn len(&self) -> (r: usize)
        ensures
            r == self@.len(),
            r < 0x100,
    {
        proof {
            use_type_invariant(self);
        }
        as_slice(&self.val)[0] as usize
    }

    /// The label's bytes read as text.
    pub fn to_string(&self) -> (r: String)
        ensures
            r@ == lossy_text(self@),
            valid_utf8(self@) ==> r@ == decode_utf8(self@),
    {
        proof {
            use_type_invariant(self);
        }
        let all = as_slice(&self.val);
        let content = slice_subrange(all, 1, all.len());
        assert(content@ =~= self@);
        text_of(content)
    }

    /// Appends the label's encoding to `out`.
    pub fn write_to(&self, out: &mut BytesMut)
        requires
            bytes_of(*old(out)).len() + self@.len() + 1 <= isize::MAX,
        ensures
            bytes_of(*final(out)) == bytes_of(*old(out)) + label_bytes(self@),
            self@.len() < 0x100,
    {
        proof {
            use_type_invariant(self);
        }
        out.extend_from_slice(as_slice(&self.val));
        assert(bytes_of(self.val) =~= label_bytes(self@));
    }
}

impl Clone for Label {
    fn clone(&self) -> (r: Label)
        ensures
            r@ == self@,
    {
        proof {
            use_type_invariant(self);
        }
        Label { val: self.val.clone() }
    }
}

/// A domain name: its labels, left to right.
#[derive(Debug, PartialEq, Eq)]
pub struct Labels(pub Vec<Label>);

/// The bytes of each label in `v`.
pub open spec fn labels_view(v: Seq<Label>) -> Seq<Seq<u8>> {
    v.map_values(|l: Label| l@)
}

impl View for Labels {
    type V = Seq<Seq<u8>>;

    open spec fn view(&self) -> Seq<Seq<u8>> {
        labels_view(self.0@)
    }
}

/// A decoded name with the offset where decoding stopped, or why it failed.
pub type NameResult = Result<(Seq<Seq<u8>>, int), DnsError>;

/// A byte whose two high bits are set opens a compression pointer.
pub open spec fn is_pointer(b: u8) -> bool {
    b >= 0xc0
}

/// The offset held in the low fourteen bits of a pointer's two bytes.
pub open spec fn pointer_offset(b0: u8, b1: u8) -> int {
    (b0 as int - 0xc0) * 0x100 + b1 as int
}

/// `r` with the labels `p` put in front of its labels.
pub open spec fn with_prefix(p: Seq<Seq<u8>>, r: NameResult) -> NameResult {
    match r {
        Ok((ls, end)) => Ok((p + ls, end)),
        Err(e) => Err(e),
    }
}

/// Decoding, from position `pos` on, of the name that starts at `start` in
/// `buf`.
///
/// A zero byte ends the name, and the result's offset is that of the zero,
/// or of the byte after it when that byte is zero too. A pointer, whose
/// offset must lie before `start`, brings in the labels of the name found
/// there and ends the name, two bytes on. Any other byte is a length, and that
/// many bytes after it make a label.
pub open spec fn parse_from(buf: Seq<u8>, start: int, pos: int) -> NameResult
    decreases start, buf.len() - pos,
{
    if pos < 0 || pos >= buf.len() {
        Err(DnsError::Truncated)
    } else if buf[pos] == 0 {
        if pos + 1 < buf.len() && buf[pos + 1] == 0 {
            Ok((seq![], pos + 1))
        } else {
            Ok((seq![], pos))
        }
    } else if is_pointer(buf[pos]) {
        if pos + 1 >= buf.len() {
            Err(DnsError::Truncated)
        } else if !(0 <= pointer_offset(buf[pos], buf[pos + 1]) < start) {
            Err(DnsError::BadPointer)
        } else {
            let target = pointer_offset(buf[pos], buf[pos + 1]);
            match parse_from(buf, target, target) {
                Ok((ls, _)) => Ok((ls, pos + 2)),
                Err(e) => Err(e),
            }
        }
    } else {
        let n = buf[pos] as int;
        if pos + 1 + n > buf.len() {
            Err(DnsError::Truncated)
        } else {
            with_prefix(seq![buf.subrange(pos + 1, pos + 1 + n)], parse_from(buf, start, pos + 1 + n))
        }
    }
}

/// Decoding of the name that starts at `start` in `buf`.
pub open spec fn parse_name(buf: Seq<u8>, start: int) -> NameResult {
    parse_from(buf, start, start)
}

/// What a call of `Labels::parse` returned, over plain values.
pub open spec fn parsed_view(r: Result<(Labels, usize), DnsError>) -> NameResult {
    match r {
        Ok((ls, end)) => Ok((ls@, end as int)),
        Err(e) => Err(e),
    }
}

/// A label that the uncompressed encoding carries without ambiguity: not
/// empty, and at most 63 bytes.
pub open spec fn valid_label(l: Seq<u8>) -> bool {
    1 <= l.len() <= 63
}

/// Every label of the name is valid.
pub open spec fn valid_labels(ls: Seq<Seq<u8>>) -> bool {
    forall|i: int| 0 <= i < ls.len() ==> valid_label(#[trigger] ls[i])
}

/// The encoding of a name: its labels, then a zero byte.
pub open spec fn name_bytes(ls: Seq<Seq<u8>>) -> Seq<u8> {
    labels_bytes(ls).push(0)
}

proof fn lemma_labels_bytes_first(ls: Seq<Seq<u8>>)
    requires
        ls.len() > 0,
    ensures
        labels_bytes(ls) == label_bytes(ls[0]) + labels_bytes(ls.drop_first()),
{
    let m = ls.map_values(|l: Seq<u8>| label_bytes(l));
    assert(m.drop_first() =~= ls.drop_first().map_values(|l: Seq<u8>| label_bytes(l)));
}

/// Encoding one more label appends its encoding.
pub proof fn lemma_labels_bytes_push(ls: Seq<Seq<u8>>, l: Seq<u8>)
    ensures
        labels_bytes(ls.push(l)) == labels_bytes(ls) + label_bytes(l),
{
    let m = ls.map_values(|x: Seq<u8>| label_bytes(x));
    assert(ls.push(l).map_values(|x: Seq<u8>| label_bytes(x)) =~= m.push(label_bytes(l)));
    m.lemma_flatten_push(label_bytes(l));
}

/// The encoding of two names one after the other.
pub proof fn lemma_labels_bytes_concat(a: Seq<Seq<u8>>, b: Seq<Seq<u8>>)
    ensures
        labels_bytes(a + b) == labels_bytes(a) + labels_bytes(b),
{
    let f = |x: Seq<u8>| label_bytes(x);
    assert((a + b).map_values(f) =~= a.map_values(f) + b.map_values(f));
    vstd::seq_lib::lemma_flatten_concat(a.map_values(f), b.map_values(f));
}

/// Decoding runs through the uncompressed labels at `pos`, keeping each, and
/// goes on at the end of their encoding.
pub proof fn lemma_parse_labels(buf: Seq<u8>, start: int, pos: int, ls: Seq<Seq<u8>>)
    requires
        0 <= pos,
        pos + labels_bytes(ls).len() <= buf.len(),
        buf.subrange(pos, pos + labels_bytes(ls).len()) == labels_bytes(ls),
        valid_labels(ls),
    ensures
        parse_from(buf, start, pos) == with_prefix(
            ls,
            parse_from(buf, start, pos + labels_bytes(ls).len()),
        ),
    decreases ls.len(),
{
    let r = parse_from(buf, start, pos + labels_bytes(ls).len());
    if ls.len() == 0 {
        match r {
            Ok((l, e)) => {
                assert(ls + l =~= l);
            },
            Err(e) => {},
        }
    } else {
        lemma_labels_bytes_first(ls);
        let first = ls[0];
        let rest = ls.drop_first();
        let n = first.len();
        assert(valid_label(ls[0]));
        let enc = labels_bytes(ls);
        assert(enc[0] == first.len() as u8);
        assert(buf[pos] == enc[0]);
        assert(buf.subrange(pos + 1, pos + 1 + n) =~= first) by {
            assert forall|i: int| 0 <= i < n implies buf.subrange(pos + 1, pos + 1 + n)[i]
                == first[i] by {
                assert(buf[pos + 1 + i] == enc[1 + i]);
            }
        }
        assert(buf.subrange(pos + 1 + n, pos + 1 + n + labels_bytes(rest).len())
            =~= labels_bytes(rest)) by {
            assert forall|i: int| 0 <= i < labels_bytes(rest).len() implies buf.subrange(
                pos + 1 + n,
                pos + 1 + n + labels_bytes(rest).len(),
            )[i] == labels_bytes(rest)[i] by {
                assert(buf[pos + 1 + n + i] == enc[1 + n + i]);
            }
        }
        assert(valid_labels(rest)) by {
            assert forall|i: int| 0 <= i < rest.len() implies valid_label(#[trigger] rest[i]) by {
                assert(rest[i] == ls[i + 1]);
            }
        }
        lemma_parse_labels(buf, start, pos + 1 + n, rest);
        match r {
            Ok((l, e)) => {
                assert(seq![first] + (rest + l) =~= ls + l);
            },
            Err(e) => {},
        }
    }
}

/// A name written without pointers decodes to its labels. The offset that
/// comes back is that of the terminating zero, or one more when the byte after
/// that zero is zero too.
pub proof fn lemma_parse_uncompressed(buf: Seq<u8>, start: int, ls: Seq<Seq<u8>>)
    requires
        0 <= start,
        start + name_bytes(ls).len() <= buf.len(),
        buf.subrange(start, start + name_bytes(ls).len()) == name_bytes(ls),
        valid_labels(ls),
    ensures
        ({
            let z = start + labels_bytes(ls).len();
            parse_name(buf, start) == if z + 1 < buf.len() && buf[z + 1] == 0 {
                Ok::<(Seq<Seq<u8>>, int), DnsError>((ls, z + 1))
            } else {
                Ok::<(Seq<Seq<u8>>, int), DnsError>((ls, z))
            }
        }),
{
    let k = labels_bytes(ls).len() as int;
    assert(buf.subrange(start, start + k) =~= labels_bytes(ls)) by {
        assert forall|i: int| 0 <= i < k implies buf.subrange(start, start + k)[i]
            == labels_bytes(ls)[i] by {
            assert(buf[start + i] == name_bytes(ls)[i]);
        }
    }
    assert(buf[start + k] == name_bytes(ls)[k]);
    lemma_parse_labels(buf, start, start, ls);
    assert(ls + seq![] =~= ls);
}

/// A name that is uncompressed labels and then a pointer to an earlier offset
/// `t` decodes to those labels followed by the labels of the name at `t`, and
/// decoding ends just after the pointer's two bytes, however long the name at
/// `t` is.
pub proof fn lemma_pointer_resolution(buf: Seq<u8>, t: int, s: int, ls: Seq<Seq<u8>>)
    requires
        0 <= t < s,
        s + labels_bytes(ls).len() + 1 < buf.len(),
        buf.subrange(s, s + labels_bytes(ls).len()) == labels_bytes(ls),
        valid_labels(ls),
        is_pointer(buf[s + labels_bytes(ls).len()]),
        pointer_offset(buf[s + labels_bytes(ls).len()], buf[s + labels_bytes(ls).len() + 1]) == t,
        parse_name(buf, t) is Ok,
    ensures
        parse_name(buf, s) == Ok::<(Seq<Seq<u8>>, int), DnsError>(
            (ls + (parse_name(buf, t)->Ok_0).0, s + labels_bytes(ls).len() + 2),
        ),
{
    lemma_parse_labels(buf, s, s, ls);
}

impl Labels {
    /// Decodes the name that starts at `start` in `buf`, following pointers
    /// into the same buffer.
    pub fn parse(buf: &[u8], start: usize) -> (r: Result<(Labels, usize), DnsError>)
        ensures
            parsed_view(r) == parse_name(buf@, start as int),
        decreases start,
    {
        if start >= buf.len() {
            return Err(DnsError::Truncated);
        }
        let mut v: Vec<Label> = Vec::new();
        let mut pos = start;
        loop
            invariant
                start <= pos <= buf@.len(),
                parse_name(buf@, start as int) == with_prefix(
                    labels_view(v@),
                    parse_from(buf@, start as int, pos as int),
                ),
            decreases buf@.len() - pos,
        {
            if pos >= buf.len() {
                return Err(DnsError::Truncated);
            }
            let b = buf[pos];
            if b == 0 {
                if pos + 1 < buf.len() && buf[pos + 1] == 0 {
                    pos = pos + 1;
                }
                assert(labels_view(v@) + seq![] =~= labels_view(v@));
                return Ok((Labels(v), pos));
            } else if b >= 0xc0 {
                if pos + 1 >= buf.len() {
                    return Err(DnsError::Truncated);
                }
                let target: usize = ((b - 0xc0) as usize) * 0x100 + (buf[pos + 1] as usize);
                if target >= start {
                    return Err(DnsError::BadPointer);
                }
                match Labels::parse(buf, target) {
                    Ok((sub, _)) => {
                        let mut rest = sub.0;
                        let ghost before = v@;
                        v.append(&mut rest);
                        assert(labels_view(v@) =~= labels_view(before) + sub@);
                        return Ok((Labels(v), pos + 2));
                    },
                    Err(e) => {
                        return Err(e);
                    },
                }
            } else {
                let n = b as usize;
                if n > buf.len() - pos - 1 {
                    return Err(DnsError::Truncated);
                }
                let label = Label::new(slice_subrange(buf, pos + 1, pos + 1 + n));
                assert(label@ =~= buf@.subrange(pos + 1, pos + 1 + n));
                let ghost before = v@;
                v.push(label);
                assert(labels_view(v@) =~= labels_view(before) + seq![label@]);
                assert forall|r: NameResult|
                    with_prefix(labels_view(before), with_prefix(seq![label@], r)) == with_prefix(
                        labels_view(v@),
                        r,
                    ) by {
                    match r {
                        Ok((ls, e)) => {
                            assert(labels_view(before) + (seq![label@] + ls) =~= labels_view(v@) + ls);
                        },
                        Err(e) => {},
                    }
                }
                pos = pos + 1 + n;
            }
        }
    }
}

/// The labels that length-prefixed bytes hold, up to a zero length byte or
/// the end; a label cut short by the end keeps what is there.
pub open spec fn labels_from_bytes(s: Seq<u8>) -> Seq<Seq<u8>>
    decreases s.len(),
{
    if s.len() == 0 || s[0] == 0 {
        seq![]
    } else {
        let end = if 1 + s[0] as int <= s.len() {
            1 + s[0] as int
        } else {
            s.len() as int
        };
        seq![s.subrange(1, end)] + labels_from_bytes(s.subrange(end, s.len() as int))
    }
}

impl Labels {
    /// The length of the encoding of the labels, or `usize::MAX` when it
    /// does not fit.
    pub fn encoded_len(&self) -> (r: usize)
        ensures
            r == capped(labels_bytes(self@).len() as int),
    {
        let ghost ls = self@;
        let mut total: usize = 0;
        let mut i: usize = 0;
        assert(labels_bytes(ls.take(0)) =~= Seq::<u8>::empty());
        while i < self.0.len()
            invariant
                0 <= i <= ls.len(),
                ls == self@,
                total == capped(labels_bytes(ls.take(i as int)).len() as int),
            decreases ls.len() - i,
        {
            proof {
                lemma_labels_bytes_push(ls.take(i as int), ls[i as int]);
                assert(ls.take(i as int).push(ls[i as int]) =~= ls.take(i as int + 1));
            }
            let n = self.0[i].len();
            proof {
                lemma_capped_add(labels_bytes(ls.take(i as int)).len() as int, n + 1);
            }
            total = total.saturating_add(n + 1);
            i = i + 1;
        }
        assert(ls.take(i as int) =~= ls);
        total
    }

    /// Appends the encoding of the labels, without a terminating zero.
    pub fn write_to(&self, out: &mut BytesMut)
        requires
            bytes_of(*old(out)).len() + labels_bytes(self@).len() <= isize::MAX,
        ensures
            bytes_of(*final(out)) == bytes_of(*old(out)) + labels_bytes(self@),
    {
        let ghost start = bytes_of(*out);
        let ghost ls = self@;
        let mut i: usize = 0;
        while i < self.0.len()
            invariant
                0 <= i <= ls.len(),
                ls == self@,
                start.len() + labels_bytes(ls).len() <= isize::MAX,
                bytes_of(*out) == start + labels_bytes(ls.take(i as int)),
            decreases ls.len() - i,
        {
            let label = &self.0[i];
            proof {
                lemma_labels_bytes_push(ls.take(i as int), ls[i as int]);
                assert(ls.take(i as int).push(ls[i as int]) =~= ls.take(i as int + 1));
                lemma_labels_bytes_concat(ls.take(i as int + 1), ls.skip(i as int + 1));
                assert(ls.take(i as int + 1) + ls.skip(i as int + 1) =~= ls);
            }
            label.write_to(out);
            i = i + 1;
        }
        assert(ls.take(i as int) =~= ls);
    }

    /// The encoding of the labels, without a terminating zero.
    pub fn into_bytes_mut(self) -> (r: BytesMut)
        requires
            labels_bytes(self@).len() <= isize::MAX,
        ensures
            bytes_of(r) == labels_bytes(self@),
    {
        let mut out = BytesMut::new();
        self.write_to(&mut out);
        out
    }

    /// Reads length-prefixed labels until a zero length byte or the end of
    /// the bytes.
    pub fn from_bytes(seq: &[u8]) -> (r: Labels)
        ensures
            r@ == labels_from_bytes(seq@),
    {
        let ghost s = seq@;
        let mut v: Vec<Label> = Vec::new();
        let mut i: usize = 0;
        assert(s.subrange(0, s.len() as int) =~= s);
        assert(labels_view(v@) + labels_from_bytes(s) =~= labels_from_bytes(s));
        while i < seq.len() && seq[i] != 0
            invariant
                i <= s.len(),
                s == seq@,
                labels_from_bytes(s) == labels_view(v@) + labels_from_bytes(s.subrange(i as int, s.len() as int)),
            decreases s.len() - i,
        {
            let n = seq[i] as usize;
            let end = if n <= seq.len() - i - 1 {
                i + 1 + n
            } else {
                seq.len()
            };
            let label = Label::new(slice_subrange(seq, i + 1, end));
            proof {
                let t = s.subrange(i as int, s.len() as int);
                assert(t.subrange(1, end - i) =~= s.subrange(i as int + 1, end as int));
                assert(t.subrange(end - i, t.len() as int) =~= s.subrange(end as int, s.len() as int));
                assert(label@ =~= s.subrange(i as int + 1, end as int));
                let ghost before = v@;
                assert(labels_view(before.push(label)) =~= labels_view(before).push(label@));
                assert(labels_view(before) + (seq![label@] + labels_from_bytes(s.subrange(end as int, s.len() as int))) =~= labels_view(before).push(label@) + labels_from_bytes(s.subrange(end as int, s.len() as int)));
            }
            v.push(label);
            i = end;
        }
        proof {
            let t = s.subrange(i as int, s.len() as int);
            if t.len() > 0 {
                assert(t[0] == s[i as int]);
            }
            assert(labels_from_bytes(t) =~= Seq::<Seq<u8>>::empty());
            assert(labels_view(v@) + seq![] =~= labels_view(v@));
        }
        Labels(v)
    }
}

impl core::ops::Deref for Labels {
    type Target = Vec<Label>;

    fn deref(&self) -> (r: &Vec<Label>)
        ensures
            r@ == self.0@,
    {
        &self.0
    }
}

impl core::ops::Deref for Label {
    type Target = BytesMut;

    /// The stored bytes: the length byte, then the label's bytes.
    fn deref(&self) -> (r: &BytesMut)
        ensures
            bytes_of(*r) == label_bytes(self@),
    {
        proof {
            use_type_invariant(self);
        }
        assert(bytes_of(self.val) =~= label_bytes(self@));
        &self.val
    }
}

impl Clone for Labels {
    fn clone(&self) -> (r: Labels)
        ensures
            r@ == self@,
    {
        let mut v: Vec<Label> = Vec::new();
        let mut i: usize = 0;
        while i < self.0.len()
            invariant
                i <= self.0@.len(),
                labels_view(v@) == labels_view(self.0@.take(i as int)),
            decreases self.0@.len() - i,
        {
            let l = self.0[i].clone();
            let ghost before = v@;
            v.push(l);
            assert(self.0@.take(i as int + 1) =~= self.0@.take(i as int).push(self.0@[i as int]));
            assert(labels_view(v@) =~= labels_view(before).push(l@));
            assert(labels_view(v@) =~= labels_view(self.0@.take(i as int + 1)));
            i = i + 1;
        }
        assert(self.0@.take(i as int) =~= self.0@);
        Labels(v)
    }
}

} // verus!
