//! Domain names as dotted text: splitting text into labels and joining
//! labels back into text.
use vstd::prelude::*;
use vstd::slice::slice_subrange;
use vstd::string::StringSliceAdditionalSpecFns;
use vstd::utf8::{
    char_u32_cast, decode_utf8, encode_utf8, encode_utf8_decode_utf8, encode_utf8_valid_utf8,
    is_ascii_chars, is_ascii_chars_encode_utf8, valid_utf8,
};

use crate::name::{label_content, labels_view, lossy_text, Label, Labels};

verus! {

/// Pieces joined with a dot between each two.
pub open spec fn join_dots(ps: Seq<Seq<char>>) -> Seq<char>
    decreases ps.len(),
{
    if ps.len() == 0 {
        seq![]
    } else if ps.len() == 1 {
        ps[0]
    } else {
        ps[0] + seq!['.'] + join_dots(ps.drop_first())
    }
}

/// The text of a name: the text of each label, joined by dots.
pub open spec fn name_text(ls: Seq<Seq<u8>>) -> Seq<char> {
    join_dots(ls.map_values(|l: Seq<u8>| lossy_text(l)))
}

/// The byte of a dot.
pub const DOT: u8 = 0x2e;

/// The pieces of `s` between dots; with no dot, `s` is the one piece.
pub open spec fn split_dots(s: Seq<u8>) -> Seq<Seq<u8>>
    decreases s.len(),
{
    if s.len() == 0 {
        seq![seq![]]
    } else {
        let rest = split_dots(s.drop_first());
        if s[0] == DOT {
            seq![seq![]] + rest
        } else {
            rest.update(0, seq![s[0]] + rest[0])
        }
    }
}

/// The name that `Labels::from_domain` makes of the bytes of a domain.
pub open spec fn domain_labels(s: Seq<u8>) -> Seq<Seq<u8>> {
    split_dots(s).map_values(|p: Seq<u8>| label_content(p))
}

proof fn lemma_join_push(ps: Seq<Seq<char>>, p: Seq<char>)
    ensures
        join_dots(ps.push(p)) == if ps.len() == 0 {
            p
        } else {
            join_dots(ps) + seq!['.'] + p
        },
    decreases ps.len(),
{
    assert(join_dots(seq![p]) == p);
    if ps.len() == 0 {
        assert(ps.push(p) =~= seq![p]);
    } else if ps.len() == 1 {
        assert(ps.push(p).drop_first() =~= seq![p]);
        assert(ps.push(p)[0] == ps[0]);
    } else {
        assert(ps.push(p)[0] == ps[0]);
        assert(ps.push(p).drop_first() =~= ps.drop_first().push(p));
        lemma_join_push(ps.drop_first(), p);
        assert(ps[0] + seq!['.'] + (join_dots(ps.drop_first()) + seq!['.'] + p) =~= ps[0] + seq![
            '.',
        ] + join_dots(ps.drop_first()) + seq!['.'] + p);
    }
}

proof fn lemma_split_nonempty(s: Seq<u8>)
    ensures
        split_dots(s).len() >= 1,
    decreases s.len(),
{
    if s.len() > 0 {
        lemma_split_nonempty(s.drop_first());
    }
}

/// `r` with `c` put in front of its first piece.
spec fn onto_first(c: Seq<u8>, r: Seq<Seq<u8>>) -> Seq<Seq<u8>> {
    r.update(0, c + r[0])
}

/// Every label is valid UTF-8.
pub open spec fn all_valid_utf8(ls: Seq<Seq<u8>>) -> bool {
    forall|i: int| 0 <= i < ls.len() ==> valid_utf8(#[trigger] ls[i])
}

/// The text of a name whose labels are valid UTF-8: each label decoded,
/// joined by dots.
pub open spec fn decoded_text(ls: Seq<Seq<u8>>) -> Seq<char> {
    join_dots(ls.map_values(|l: Seq<u8>| decode_utf8(l)))
}

spec fn ascii_bytes(b: Seq<u8>) -> bool {
    forall|i: int| 0 <= i < b.len() ==> #[trigger] b[i] < 0x80
}

spec fn chars_of(b: Seq<u8>) -> Seq<char> {
    b.map_values(|x: u8| x as char)
}

proof fn lemma_ascii_decode(p: Seq<u8>)
    requires
        ascii_bytes(p),
    ensures
        valid_utf8(p),
        decode_utf8(p) == chars_of(p),
{
    let c = chars_of(p);
    assert(is_ascii_chars(c)) by {
        assert forall|i: int| 0 <= i < c.len() implies '\0' <= #[trigger] c[i] <= '\u{7f}' by {
            assert(p[i] < 0x80);
        }
    }
    is_ascii_chars_encode_utf8(c);
    assert(encode_utf8(c) =~= p) by {
        assert forall|i: int| 0 <= i < p.len() implies encode_utf8(c)[i] == p[i] by {
            assert(c[i] as u8 == encode_utf8(c)[i]);
            assert(p[i] < 0x80);
        }
    }
    encode_utf8_valid_utf8(c);
    encode_utf8_decode_utf8(c);
}

proof fn lemma_split_pieces(b: Seq<u8>)
    ensures
        forall|i: int|
            0 <= i < split_dots(b).len() ==> (#[trigger] split_dots(b)[i]).len() <= b.len(),
        ascii_bytes(b) ==> forall|i: int|
            0 <= i < split_dots(b).len() ==> ascii_bytes(#[trigger] split_dots(b)[i]),
    decreases b.len(),
{
    if b.len() > 0 {
        let t = b.drop_first();
        lemma_split_pieces(t);
        lemma_split_nonempty(t);
        let rest = split_dots(t);
        if b[0] == DOT {
            assert forall|i: int| 0 <= i < split_dots(b).len() implies (#[trigger] split_dots(
                b,
            )[i]).len() <= b.len() by {
                if i > 0 {
                    assert(split_dots(b)[i] == rest[i - 1]);
                }
            }
            if ascii_bytes(b) {
                assert(ascii_bytes(t)) by {
                    assert forall|i: int| 0 <= i < t.len() implies #[trigger] t[i] < 0x80 by {
                        assert(t[i] == b[i + 1]);
                    }
                }
                assert forall|i: int| 0 <= i < split_dots(b).len() implies ascii_bytes(
                    #[trigger] split_dots(b)[i],
                ) by {
                    if i > 0 {
                        assert(split_dots(b)[i] == rest[i - 1]);
                    }
                }
            }
        } else {
            if ascii_bytes(b) {
                assert(ascii_bytes(t)) by {
                    assert forall|i: int| 0 <= i < t.len() implies #[trigger] t[i] < 0x80 by {
                        assert(t[i] == b[i + 1]);
                    }
                }
                assert(ascii_bytes(rest[0]));
                assert(ascii_bytes(seq![b[0]] + rest[0])) by {
                    let q = seq![b[0]] + rest[0];
                    assert forall|i: int| 0 <= i < q.len() implies #[trigger] q[i] < 0x80 by {
                        if i > 0 {
                            assert(q[i] == rest[0][i - 1]);
                        }
                    }
                }
            }
        }
    }
}

proof fn lemma_join_onto_first(ps: Seq<Seq<char>>, c: Seq<char>)
    requires
        ps.len() >= 1,
    ensures
        join_dots(ps.update(0, c + ps[0])) == c + join_dots(ps),
{
    let q = ps.update(0, c + ps[0]);
    if ps.len() == 1 {
    } else {
        assert(q.drop_first() =~= ps.drop_first());
        assert(c + ps[0] + seq!['.'] + join_dots(ps.drop_first()) =~= c + (ps[0] + seq!['.']
            + join_dots(ps.drop_first())));
    }
}

proof fn lemma_join_split(b: Seq<u8>)
    requires
        ascii_bytes(b),
    ensures
        join_dots(split_dots(b).map_values(|p: Seq<u8>| chars_of(p))) == chars_of(b),
    decreases b.len(),
{
    let f = |p: Seq<u8>| chars_of(p);
    assert(chars_of(Seq::<u8>::empty()) =~= Seq::<char>::empty());
    if b.len() == 0 {
        assert(split_dots(b).map_values(f) =~= seq![Seq::<char>::empty()]);
        assert(chars_of(b) =~= Seq::<char>::empty());
    } else {
        let t = b.drop_first();
        assert(ascii_bytes(t)) by {
            assert forall|i: int| 0 <= i < t.len() implies #[trigger] t[i] < 0x80 by {
                assert(t[i] == b[i + 1]);
            }
        }
        lemma_join_split(t);
        lemma_split_nonempty(t);
        let rest = split_dots(t);
        let rm = rest.map_values(f);
        if b[0] == DOT {
            let m = split_dots(b).map_values(f);
            assert(m =~= seq![Seq::<char>::empty()] + rm);
            assert(m.drop_first() =~= rm);
            assert(chars_of(b) =~= seq!['.'] + chars_of(t)) by {
                assert((DOT as char) == '.');
            }
            assert(Seq::<char>::empty() + seq!['.'] + join_dots(rm) =~= seq!['.'] + join_dots(rm));
        } else {
            let c = seq![b[0] as char];
            assert(split_dots(b).map_values(f) =~= rm.update(0, c + rm[0])) by {
                assert(chars_of(seq![b[0]] + rest[0]) =~= c + chars_of(rest[0]));
            }
            lemma_join_onto_first(rm, c);
            assert(chars_of(b) =~= c + chars_of(t));
        }
    }
}

/// The name of an ASCII domain reads back as that domain: decoding each
/// label of `Labels::from_domain` and joining them by dots gives the string,
/// when no piece between dots is longer than 63 bytes.
pub proof fn lemma_domain_text_round_trip(s: Seq<char>)
    requires
        is_ascii_chars(s),
        forall|i: int|
            0 <= i < split_dots(encode_utf8(s)).len() ==> (#[trigger] split_dots(
                encode_utf8(s),
            )[i]).len() <= 63,
    ensures
        all_valid_utf8(domain_labels(encode_utf8(s))),
        decoded_text(domain_labels(encode_utf8(s))) == s,
{
    let b = encode_utf8(s);
    is_ascii_chars_encode_utf8(s);
    assert(ascii_bytes(b)) by {
        assert forall|i: int| 0 <= i < b.len() implies #[trigger] b[i] < 0x80 by {
            assert(s[i] as u8 == b[i]);
            assert('\0' <= s[i] <= '\u{7f}');
        }
    }
    assert(chars_of(b) =~= s) by {
        assert forall|i: int| 0 <= i < s.len() implies chars_of(b)[i] == s[i] by {
            assert(s[i] as u8 == b[i]);
            assert('\0' <= s[i] <= '\u{7f}');
            char_u32_cast(s[i], s[i] as u32);
        }
    }
    let pieces = split_dots(b);
    lemma_split_pieces(b);
    let ls = domain_labels(b);
    assert(ls =~= pieces) by {
        assert forall|i: int| 0 <= i < pieces.len() implies ls[i] == pieces[i] by {
            assert(pieces[i].len() <= 63);
            assert(label_content(pieces[i]) =~= pieces[i]);
        }
    }
    assert forall|i: int| 0 <= i < ls.len() implies valid_utf8(#[trigger] ls[i]) by {
        lemma_ascii_decode(pieces[i]);
    }
    assert(ls.map_values(|l: Seq<u8>| decode_utf8(l)) =~= pieces.map_values(
        |p: Seq<u8>| chars_of(p),
    )) by {
        assert forall|i: int| 0 <= i < pieces.len() implies decode_utf8(ls[i]) == chars_of(
            pieces[i],
        ) by {
            lemma_ascii_decode(pieces[i]);
        }
    }
    lemma_join_split(b);
}

impl Labels {
    /// The labels as text, joined by dots.
    pub fn to_string(&self) -> (r: String)
        ensures
            r@ == name_text(self@),
            all_valid_utf8(self@) ==> r@ == decoded_text(self@),
    {
        let ghost ls = self@;
        let ghost mut pieces: Seq<Seq<char>> = seq![];
        let mut s = String::new();
        let mut i: usize = 0;
        while i < self.0.len()
            invariant
                0 <= i <= ls.len(),
                ls == self@,
                pieces.len() == i,
                s@ == join_dots(pieces),
                forall|j: int| 0 <= j < i ==> #[trigger] pieces[j] == lossy_text(ls[j]),
                forall|j: int|
                    0 <= j < i && valid_utf8(ls[j]) ==> #[trigger] pieces[j] == decode_utf8(ls[j]),
            decreases ls.len() - i,
        {
            let piece = self.0[i].to_string();
            proof {
                lemma_join_push(pieces, piece@);
            }
            if i > 0 {
                let dot = ".";
                proof {
                    reveal_strlit(".");
                }
                s.append(dot);
            }
            s.append(piece.as_str());
            proof {
                pieces = pieces.push(piece@);
            }
            i = i + 1;
        }
        assert(pieces =~= ls.map_values(|l: Seq<u8>| lossy_text(l)));
        proof {
            if all_valid_utf8(ls) {
                assert(pieces =~= ls.map_values(|l: Seq<u8>| decode_utf8(l)));
            }
        }
        s
    }

    /// The labels of a domain written with dots between them. Each piece
    /// between dots becomes one label, empty pieces included.
    pub fn from_domain(domain: &str) -> (r: Labels)
        ensures
            r@ == domain_labels(domain.spec_bytes()),
    {
        let bytes = domain.as_bytes();
        let ghost b = bytes@;
        let mut v: Vec<Label> = Vec::new();
        let ghost mut done: Seq<Seq<u8>> = seq![];
        let mut seg: usize = 0;
        let mut i: usize = 0;
        proof {
            lemma_split_nonempty(b);
            assert(b.subrange(0, b.len() as int) =~= b);
            assert(onto_first(b.subrange(0, 0), split_dots(b)) =~= split_dots(b));
            assert(done + split_dots(b) =~= split_dots(b));
        }
        while i < bytes.len()
            invariant
                seg <= i <= b.len(),
                b == bytes@,
                split_dots(b) == done + onto_first(b.subrange(seg as int, i as int), split_dots(b.subrange(i as int, b.len() as int))),
                labels_view(v@) == done.map_values(|p: Seq<u8>| label_content(p)),
            decreases b.len() - i,
        {
            let ghost tail = b.subrange(i as int, b.len() as int);
            let ghost next = b.subrange(i as int + 1, b.len() as int);
            proof {
                assert(tail.drop_first() =~= next);
                lemma_split_nonempty(next);
            }
            if bytes[i] == DOT {
                let label = Label::new(slice_subrange(bytes, seg, i));
                proof {
                    let cur = b.subrange(seg as int, i as int);
                    assert(onto_first(cur, split_dots(tail)) =~= seq![cur] + split_dots(next));
                    assert(onto_first(b.subrange(i as int + 1, i as int + 1), split_dots(next)) =~= split_dots(next));
                    assert(done + (seq![cur] + split_dots(next)) =~= done.push(cur) + split_dots(next));
                    let ghost before = v@;
                    assert(labels_view(before.push(label)) =~= labels_view(before).push(label@));
                    assert(done.push(cur).map_values(|p: Seq<u8>| label_content(p)) =~= done.map_values(|p: Seq<u8>| label_content(p)).push(label_content(cur)));
                    done = done.push(cur);
                }
                v.push(label);
                seg = i + 1;
            } else {
                proof {
                    let cur = b.subrange(seg as int, i as int);
                    let x = b[i as int];
                    let rest = split_dots(next);
                    assert(tail[0] == x);
                    assert(split_dots(tail) == rest.update(0, seq![x] + rest[0]));
                    assert(cur + (seq![x] + rest[0]) =~= b.subrange(seg as int, i as int + 1) + rest[0]);
                    assert(onto_first(cur, split_dots(tail)) =~= onto_first(b.subrange(seg as int, i as int + 1), split_dots(next)));
                }
            }
            i = i + 1;
        }
        let label = Label::new(slice_subrange(bytes, seg, i));
        proof {
            let cur = b.subrange(seg as int, i as int);
            assert(b.subrange(i as int, b.len() as int) =~= Seq::<u8>::empty());
            assert(onto_first(cur, seq![seq![]]) =~= seq![cur]);
            let ghost before = v@;
            assert(labels_view(before.push(label)) =~= labels_view(before).push(label@));
            assert(done.push(cur).map_values(|p: Seq<u8>| label_content(p)) =~= done.map_values(|p: Seq<u8>| label_content(p)).push(label_content(cur)));
            assert(done + seq![cur] =~= done.push(cur));
        }
        v.push(label);
        Labels(v)
    }
}

} // verus!
