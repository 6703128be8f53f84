//! Writing frames: the bytes that stand on the wire for each frame.
use vstd::prelude::*;
use vstd::utf8::*;
use crate::text::{dec, dec_signed, push_decimal, push_signed_decimal};
use super::decode::crlf;
use super::frame::{
    lemma_models, models, BulkString, FrameModel, NullBulkString, RespArray, RespBoolean,
    RespDouble, RespFrame, RespInteger, RespNull, RespNullArray, RespSet, SimpleError,
    SimpleString,
};
use super::map::{lemma_pair_models, RespMap};
use super::frame::pair_models;
use super::RespEncode;

verus! {

/// `$-1\r\n`
pub open spec fn null_bulk_wire() -> Seq<u8> {
    seq![36u8, 45u8, 49u8, 13u8, 10u8]
}

/// `*-1\r\n`
pub open spec fn null_array_wire() -> Seq<u8> {
    seq![42u8, 45u8, 49u8, 13u8, 10u8]
}

/// A header line: the prefix byte, a count in decimal, `\r\n`.
pub open spec fn header(prefix: u8, n: nat) -> Seq<u8> {
    seq![prefix] + dec(n) + crlf()
}

/// The bytes that stand on the wire for a frame.
pub open spec fn wire(f: FrameModel) -> Seq<u8>
    decreases f,
{
    match f {
        FrameModel::SimpleString(c) => seq![43u8] + encode_utf8(c) + crlf(),
        FrameModel::SimpleError(c) => seq![45u8] + encode_utf8(c) + crlf(),
        FrameModel::Integer(v) => seq![58u8] + dec_signed(v) + crlf(),
        FrameModel::BulkString(Some(d)) => header(36, d.len()) + d + crlf(),
        FrameModel::BulkString(None) => null_bulk_wire(),
        FrameModel::NullBulkString => null_bulk_wire(),
        FrameModel::Array(Some(items)) => header(42, items.len()) + wires(items),
        FrameModel::Array(None) => null_array_wire(),
        FrameModel::Boolean(b) => if b {
            seq![35u8, 116u8, 13u8, 10u8]
        } else {
            seq![35u8, 102u8, 13u8, 10u8]
        },
        FrameModel::Double(t) => seq![44u8] + encode_utf8(t) + crlf(),
        FrameModel::RespMap(ps) => header(37, ps.len()) + pairs_wire(ps),
        FrameModel::RespSet(items) => header(126, items.len()) + wires(items),
        FrameModel::Null => seq![95u8, 13u8, 10u8],
        FrameModel::NullArray => null_array_wire(),
    }
}

/// The frames written one after the other.
pub open spec fn wires(s: Seq<FrameModel>) -> Seq<u8>
    decreases s,
{
    if s.len() == 0 {
        seq![]
    } else {
        wire(s[0]) + wires(s.drop_first())
    }
}

/// A key written as a simple string.
pub open spec fn key_wire(k: Seq<char>) -> Seq<u8> {
    seq![43u8] + encode_utf8(k) + crlf()
}

/// The key/value pairs written one after the other, each key as a simple string.
pub open spec fn pairs_wire(s: Seq<(Seq<char>, FrameModel)>) -> Seq<u8>
    decreases s,
{
    if s.len() == 0 {
        seq![]
    } else {
        key_wire(s[0].0) + wire(s[0].1) + pairs_wire(s.drop_first())
    }
}

/// Writing one more frame appends its bytes.
pub proof fn lemma_wires_push(s: Seq<FrameModel>, f: FrameModel)
    ensures
        wires(s.push(f)) == wires(s) + wire(f),
    decreases s.len(),
{
    if s.len() == 0 {
        assert(s.push(f).drop_first() =~= Seq::<FrameModel>::empty());
        assert(wires(Seq::<FrameModel>::empty()) == Seq::<u8>::empty());
        assert(wires(s.push(f)) =~= wires(s) + wire(f));
    } else {
        assert(s.push(f).drop_first() =~= s.drop_first().push(f));
        lemma_wires_push(s.drop_first(), f);
        assert(wires(s.push(f)) =~= wires(s) + wire(f));
    }
}

/// Writing one more pair appends its key's bytes and its value's bytes.
pub proof fn lemma_pairs_wire_push(s: Seq<(Seq<char>, FrameModel)>, p: (Seq<char>, FrameModel))
    ensures
        pairs_wire(s.push(p)) == pairs_wire(s) + key_wire(p.0) + wire(p.1),
    decreases s.len(),
{
    if s.len() == 0 {
        assert(s.push(p).drop_first() =~= Seq::<(Seq<char>, FrameModel)>::empty());
        assert(pairs_wire(Seq::<(Seq<char>, FrameModel)>::empty()) == Seq::<u8>::empty());
        assert(pairs_wire(s.push(p)) =~= pairs_wire(s) + key_wire(p.0) + wire(p.1));
    } else {
        assert(s.push(p).drop_first() =~= s.drop_first().push(p));
        lemma_pairs_wire_push(s.drop_first(), p);
        assert(pairs_wire(s.push(p)) =~= pairs_wire(s) + key_wire(p.0) + wire(p.1));
    }
}

/// Appends the bytes of a slice.
pub fn push_bytes(out: &mut Vec<u8>, b: &[u8])
    ensures
        final(out)@ == old(out)@ + b@,
{
    let mut i: usize = 0;
    while i < b.len()
        invariant
            i <= b@.len(),
            out@ == old(out)@ + b@.take(i as int),
        decreases b@.len() - i,
    {
        out.push(b[i]);
        i = i + 1;
        assert(out@ =~= old(out)@ + b@.take(i as int));
    }
    assert(b@.take(b@.len() as int) =~= b@);
}

/// Appends `\r\n`.
fn push_crlf(out: &mut Vec<u8>)
    ensures
        final(out)@ == old(out)@ + crlf(),
{
    out.push(13);
    out.push(10);
    assert(final(out)@ =~= old(out)@ + crlf());
}

/// Appends a header line: the prefix byte, a count, `\r\n`.
fn push_header(out: &mut Vec<u8>, prefix: u8, n: usize)
    ensures
        final(out)@ == old(out)@ + header(prefix, n as nat),
{
    out.push(prefix);
    push_decimal(out, n as u64);
    push_crlf(out);
    assert(final(out)@ =~= old(out)@ + header(prefix, n as nat));
}

/// Appends a text line: the prefix byte, the text, `\r\n`.
fn push_line(out: &mut Vec<u8>, prefix: u8, text: &str)
    ensures
        final(out)@ == old(out)@ + (seq![prefix] + encode_utf8(text@) + crlf()),
{
    out.push(prefix);
    push_bytes(out, text.as_bytes());
    push_crlf(out);
    assert(final(out)@ =~= old(out)@ + (seq![prefix] + encode_utf8(text@) + crlf()));
}

/// Appends the first `n` of five given bytes.
fn push_fixed(out: &mut Vec<u8>, a: u8, b: u8, c: u8, d: u8, e: u8, n: usize)
    requires
        3 <= n <= 5,
    ensures
        final(out)@ == old(out)@ + seq![a, b, c, d, e].take(n as int),
{
    out.push(a);
    out.push(b);
    out.push(c);
    if n >= 4 {
        out.push(d);
    }
    if n >= 5 {
        out.push(e);
    }
    assert(final(out)@ =~= old(out)@ + seq![a, b, c, d, e].take(n as int));
}

impl RespFrame {
    /// Appends the bytes of the frame.
    pub fn encode_into(&self, out: &mut Vec<u8>)
        ensures
            final(out)@ == old(out)@ + wire(self.model()),
        decreases self,
    {
        match self {
            RespFrame::SimpleString(s) => push_line(out, 43, s.content.as_str()),
            RespFrame::SimpleError(e) => push_line(out, 45, e.msg.as_str()),
            RespFrame::Integer(i) => {
                out.push(58);
                push_signed_decimal(out, i.value);
                push_crlf(out);
                assert(final(out)@ =~= old(out)@ + wire(self.model()));
            },
            RespFrame::BulkString(b) => match &b.content {
                Some(data) => {
                    push_header(out, 36, data.len());
                    push_bytes(out, data.as_slice());
                    push_crlf(out);
                    assert(final(out)@ =~= old(out)@ + wire(self.model()));
                },
                None => {
                    push_fixed(out, 36, 45, 49, 13, 10, 5);
                    assert(seq![36u8, 45u8, 49u8, 13u8, 10u8].take(5) =~= null_bulk_wire());
                },
            },
            RespFrame::NullBulkString(_) => {
                push_fixed(out, 36, 45, 49, 13, 10, 5);
                assert(seq![36u8, 45u8, 49u8, 13u8, 10u8].take(5) =~= null_bulk_wire());
            },
            RespFrame::Array(a) => match &a.elements {
                Some(v) => {
                    proof {
                        lemma_models(v@);
                    }
                    push_header(out, 42, v.len());
                    encode_all(v, out);
                    assert(final(out)@ =~= old(out)@ + wire(self.model()));
                },
                None => {
                    push_fixed(out, 42, 45, 49, 13, 10, 5);
                    assert(seq![42u8, 45u8, 49u8, 13u8, 10u8].take(5) =~= null_array_wire());
                },
            },
            RespFrame::Boolean(b) => {
                if b.value {
                    push_fixed(out, 35, 116, 13, 10, 0, 4);
                    assert(seq![35u8, 116u8, 13u8, 10u8, 0u8].take(4) =~= seq![
                        35u8,
                        116u8,
                        13u8,
                        10u8,
                    ]);
                } else {
                    push_fixed(out, 35, 102, 13, 10, 0, 4);
                    assert(seq![35u8, 102u8, 13u8, 10u8, 0u8].take(4) =~= seq![
                        35u8,
                        102u8,
                        13u8,
                        10u8,
                    ]);
                }
            },
            RespFrame::Double(d) => push_line(out, 44, d.text()),
            RespFrame::RespMap(m) => {
                let ps = m.as_slice();
                proof {
                    lemma_pair_models(ps@);
                }
                push_header(out, 37, ps.len());
                encode_pairs(m, ps, out);
                assert(final(out)@ =~= old(out)@ + wire(self.model()));
            },
            RespFrame::RespSet(s) => {
                proof {
                    lemma_models(s.elements@);
                }
                push_header(out, 126, s.elements.len());
                encode_all(&s.elements, out);
                assert(final(out)@ =~= old(out)@ + wire(self.model()));
            },
            RespFrame::RespNull(_) => {
                push_fixed(out, 95, 13, 10, 0, 0, 3);
                assert(seq![95u8, 13u8, 10u8, 0u8, 0u8].take(3) =~= seq![95u8, 13u8, 10u8]);
            },
            RespFrame::RespNullArray(_) => {
                push_fixed(out, 42, 45, 49, 13, 10, 5);
                assert(seq![42u8, 45u8, 49u8, 13u8, 10u8].take(5) =~= null_array_wire());
            },
        }
    }
}

/// Appends the bytes of the frames, one after the other.
pub fn encode_all(v: &Vec<RespFrame>, out: &mut Vec<u8>)
    ensures
        final(out)@ == old(out)@ + wires(models(v@)),
    decreases v@,
{
    proof {
        lemma_models(v@);
    }
    let mut i: usize = 0;
    while i < v.len()
        invariant
            i <= v@.len(),
            models(v@).len() == v@.len(),
            forall|j: int| 0 <= j < v@.len() ==> #[trigger] models(v@)[j] == v@[j].model(),
            out@ == old(out)@ + wires(models(v@).take(i as int)),
        decreases v@.len() - i,
    {
        assert(decreases_to!(v@ => v@[i as int]));
        v[i].encode_into(out);
        proof {
            assert(models(v@).take(i + 1) =~= models(v@).take(i as int).push(v@[i as int].model()));
            lemma_wires_push(models(v@).take(i as int), v@[i as int].model());
        }
        i = i + 1;
        assert(out@ =~= old(out)@ + wires(models(v@).take(i as int)));
    }
    assert(models(v@).take(v@.len() as int) =~= models(v@));
}

/// Appends the key/value pairs of a map, one after the other.
fn encode_pairs(m: &RespMap, ps: &[(String, RespFrame)], out: &mut Vec<u8>)
    requires
        pair_models(ps@) == m.entries(),
        forall|i: int| 0 <= i < ps@.len() ==> decreases_to!(m => ps@[i].1),
    ensures
        final(out)@ == old(out)@ + pairs_wire(pair_models(ps@)),
    decreases m,
{
    proof {
        lemma_pair_models(ps@);
    }
    let mut i: usize = 0;
    while i < ps.len()
        invariant
            i <= ps@.len(),
            pair_models(ps@).len() == ps@.len(),
            forall|j: int|
                0 <= j < ps@.len() ==> #[trigger] pair_models(ps@)[j] == (
                    ps@[j].0@,
                    ps@[j].1.model(),
                ),
            forall|j: int| 0 <= j < ps@.len() ==> decreases_to!(m => ps@[j].1),
            out@ == old(out)@ + pairs_wire(pair_models(ps@).take(i as int)),
        decreases ps@.len() - i,
    {
        push_line(out, 43, ps[i].0.as_str());
        ps[i].1.encode_into(out);
        proof {
            assert(pair_models(ps@).take(i + 1) =~= pair_models(ps@).take(i as int).push(
                (ps@[i as int].0@, ps@[i as int].1.model()),
            ));
            lemma_pairs_wire_push(
                pair_models(ps@).take(i as int),
                (ps@[i as int].0@, ps@[i as int].1.model()),
            );
        }
        i = i + 1;
        assert(out@ =~= old(out)@ + pairs_wire(pair_models(ps@).take(i as int)));
    }
    assert(pair_models(ps@).take(ps@.len() as int) =~= pair_models(ps@));
}

impl RespEncode for RespFrame {
    open spec fn encoding(&self) -> Seq<u8> {
        wire(self.model())
    }

    fn encode(&self) -> (r: Vec<u8>) {
        let mut out: Vec<u8> = Vec::new();
        self.encode_into(&mut out);
        assert(out@ =~= wire(self.model()));
        out
    }
}

impl RespEncode for SimpleString {
    open spec fn encoding(&self) -> Seq<u8> {
        wire(FrameModel::SimpleString(self.content@))
    }

    fn encode(&self) -> (r: Vec<u8>) {
        let mut out: Vec<u8> = Vec::new();
        push_line(&mut out, 43, self.content.as_str());
        assert(out@ =~= self.encoding());
        out
    }
}

impl RespEncode for SimpleError {
    open spec fn encoding(&self) -> Seq<u8> {
        wire(FrameModel::SimpleError(self.msg@))
    }

    fn encode(&self) -> (r: Vec<u8>) {
        let mut out: Vec<u8> = Vec::new();
        push_line(&mut out, 45, self.msg.as_str());
        assert(out@ =~= self.encoding());
        out
    }
}

impl RespEncode for RespInteger {
    open spec fn encoding(&self) -> Seq<u8> {
        wire(FrameModel::Integer(self.value))
    }

    fn encode(&self) -> (r: Vec<u8>) {
        let mut out: Vec<u8> = Vec::new();
        out.push(58);
        push_signed_decimal(&mut out, self.value);
        push_crlf(&mut out);
        assert(out@ =~= self.encoding());
        out
    }
}

impl RespEncode for BulkString {
    open spec fn encoding(&self) -> Seq<u8> {
        wire(
            FrameModel::BulkString(
                match self.content {
                    Some(d) => Some(d@),
                    None => None,
                },
            ),
        )
    }

    fn encode(&self) -> (r: Vec<u8>) {
        let mut out: Vec<u8> = Vec::new();
        match &self.content {
            Some(data) => {
                push_header(&mut out, 36, data.len());
                push_bytes(&mut out, data.as_slice());
                push_crlf(&mut out);
            },
            None => {
                push_fixed(&mut out, 36, 45, 49, 13, 10, 5);
            },
        }
        assert(out@ =~= self.encoding());
        out
    }
}

impl RespEncode for NullBulkString {
    open spec fn encoding(&self) -> Seq<u8> {
        wire(FrameModel::NullBulkString)
    }

    fn encode(&self) -> (r: Vec<u8>) {
        let mut out: Vec<u8> = Vec::new();
        push_fixed(&mut out, 36, 45, 49, 13, 10, 5);
        assert(out@ =~= self.encoding());
        out
    }
}

impl RespEncode for RespArray {
    open spec fn encoding(&self) -> Seq<u8> {
        wire(
            FrameModel::Array(
                match self.elements {
                    Some(e) => Some(models(e@)),
                    None => None,
                },
            ),
        )
    }

    fn encode(&self) -> (r: Vec<u8>) {
        let mut out: Vec<u8> = Vec::new();
        match &self.elements {
            Some(v) => {
                proof {
                    lemma_models(v@);
                }
                push_header(&mut out, 42, v.len());
                encode_all(v, &mut out);
            },
            None => {
                push_fixed(&mut out, 42, 45, 49, 13, 10, 5);
            },
        }
        assert(out@ =~= self.encoding());
        out
    }
}

impl RespEncode for RespNullArray {
    open spec fn encoding(&self) -> Seq<u8> {
        wire(FrameModel::NullArray)
    }

    fn encode(&self) -> (r: Vec<u8>) {
        let mut out: Vec<u8> = Vec::new();
        push_fixed(&mut out, 42, 45, 49, 13, 10, 5);
        assert(out@ =~= self.encoding());
        out
    }
}

impl RespEncode for RespBoolean {
    open spec fn encoding(&self) -> Seq<u8> {
        wire(FrameModel::Boolean(self.value))
    }

    fn encode(&self) -> (r: Vec<u8>) {
        let mut out: Vec<u8> = Vec::new();
        if self.value {
            push_fixed(&mut out, 35, 116, 13, 10, 0, 4);
        } else {
            push_fixed(&mut out, 35, 102, 13, 10, 0, 4);
        }
        assert(out@ =~= self.encoding());
        out
    }
}

impl RespEncode for RespDouble {
    open spec fn encoding(&self) -> Seq<u8> {
        wire(FrameModel::Double(self.text_view()))
    }

    fn encode(&self) -> (r: Vec<u8>) {
        let mut out: Vec<u8> = Vec::new();
        push_line(&mut out, 44, self.text());
        assert(out@ =~= self.encoding());
        out
    }
}

impl RespEncode for RespMap {
    open spec fn encoding(&self) -> Seq<u8> {
        wire(FrameModel::RespMap(self.entries()))
    }

    fn encode(&self) -> (r: Vec<u8>) {
        let mut out: Vec<u8> = Vec::new();
        let ps = self.as_slice();
        proof {
            lemma_pair_models(ps@);
        }
        push_header(&mut out, 37, ps.len());
        encode_pairs(self, ps, &mut out);
        assert(out@ =~= self.encoding());
        out
    }
}

impl RespEncode for RespSet {
    open spec fn encoding(&self) -> Seq<u8> {
        wire(FrameModel::RespSet(models(self.elements@)))
    }

    fn encode(&self) -> (r: Vec<u8>) {
        let mut out: Vec<u8> = Vec::new();
        proof {
            lemma_models(self.elements@);
        }
        push_header(&mut out, 126, self.elements.len());
        encode_all(&self.elements, &mut out);
        assert(out@ =~= self.encoding());
        out
    }
}

impl RespEncode for RespNull {
    open spec fn encoding(&self) -> Seq<u8> {
        wire(FrameModel::Null)
    }

    fn encode(&self) -> (r: Vec<u8>) {
        let mut out: Vec<u8> = Vec::new();
        push_fixed(&mut out, 95, 13, 10, 0, 0, 3);
        assert(out@ =~= self.encoding());
        out
    }
}

} // verus!
