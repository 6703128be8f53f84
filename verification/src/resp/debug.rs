//! The text that `{:?}` prints for a frame, built field by field the way
//! `#[derive(Debug)]` lays out the frame types.
use vstd::prelude::*;
use crate::text::{ascii_text, ascii_to_string, dec_signed, list_debug, list_debug_string,
    push_signed_decimal};
use super::frame::{models, BulkString, FrameModel, RespArray, RespFrame};
use super::laws::lemma_dec_signed_plain;

verus! {

/// Formats text the way `{:?}` prints a `str`: quoted, with the characters that
/// `char::escape_debug` escapes escaped.
pub uninterp spec fn str_debug_text(s: Seq<char>) -> Seq<char>;

/// `<str as Debug>::fmt`, through `format!("{:?}", ..)`: its text is a function of
/// the characters alone, which is all that is claimed.
#[verifier::external_body]
pub fn str_debug(s: &str) -> (r: String)
    ensures
        r@ == str_debug_text(s@),
{
    format!("{:?}", s)
}

/// What `{:?}` prints for a frame, the way `#[derive(Debug)]` lays it out, with a
/// map shown under the variant name `Map` with its entries as `{"key": frame, ..}`,
/// and a set under the name `Set`. A double shows the text it holds.
pub open spec fn frame_debug_text(f: FrameModel) -> Seq<char>
    decreases f,
{
    match f {
        FrameModel::SimpleString(c) => "SimpleString(SimpleString { content: "@ + str_debug_text(c)
            + " })"@,
        FrameModel::SimpleError(c) => "SimpleError(SimpleError { msg: "@ + str_debug_text(c)
            + " })"@,
        FrameModel::Integer(v) => "Integer(RespInteger { value: "@ + ascii_text(dec_signed(v))
            + " })"@,
        FrameModel::BulkString(None) => "BulkString(BulkString { content: None })"@,
        FrameModel::BulkString(Some(b)) => "BulkString(BulkString { content: Some("@ + ascii_text(
            list_debug(b),
        ) + ") })"@,
        FrameModel::NullBulkString => "NullBulkString(NullBulkString)"@,
        FrameModel::Array(None) => "Array(RespArray { elements: None })"@,
        FrameModel::Array(Some(items)) => "Array(RespArray { elements: Some(["@ + items_debug_text(
            items,
        ) + "]) })"@,
        FrameModel::Boolean(b) => "Boolean(RespBoolean { value: "@ + (if b {
            "true"@
        } else {
            "false"@
        }) + " })"@,
        FrameModel::Double(t) => "Double(RespDouble { text: "@ + str_debug_text(t) + " })"@,
        FrameModel::RespMap(ps) => "Map(RespMap { pairs: {"@ + pairs_debug_text(ps) + "} })"@,
        FrameModel::RespSet(items) => "Set(RespSet { elements: ["@ + items_debug_text(items)
            + "] })"@,
        FrameModel::Null => "RespNull(RespNull)"@,
        FrameModel::NullArray => "RespNullArray(RespNullArray)"@,
    }
}

/// The frames printed one after another, separated by `, `.
pub open spec fn items_debug_text(s: Seq<FrameModel>) -> Seq<char>
    decreases s,
{
    if s.len() == 0 {
        Seq::empty()
    } else if s.len() == 1 {
        frame_debug_text(s[0])
    } else {
        items_debug_text(s.drop_last()) + ", "@ + frame_debug_text(s[s.len() - 1])
    }
}

/// The key/value pairs printed as `{:?}` prints the entries of an ordered map:
/// `"key": frame`, separated by `, `.
pub open spec fn pairs_debug_text(s: Seq<(Seq<char>, FrameModel)>) -> Seq<char>
    decreases s,
{
    if s.len() == 0 {
        Seq::empty()
    } else {
        let p = s[s.len() - 1];
        let one = str_debug_text(p.0) + ": "@ + frame_debug_text(p.1);
        if s.len() == 1 {
            one
        } else {
            pairs_debug_text(s.drop_last()) + ", "@ + one
        }
    }
}

/// Prints a frame the way `{:?}` does.
pub fn frame_debug(f: &RespFrame) -> (r: String)
    ensures
        r@ == frame_debug_text(f@),
    decreases f,
{
    let mut m = String::new();
    match f {
        RespFrame::SimpleString(s) => {
            m.append("SimpleString(SimpleString { content: ");
            let d = str_debug(s.content.as_str());
            m.append(d.as_str());
            m.append(" })");
        },
        RespFrame::SimpleError(e) => {
            m.append("SimpleError(SimpleError { msg: ");
            let d = str_debug(e.msg.as_str());
            m.append(d.as_str());
            m.append(" })");
        },
        RespFrame::Integer(i) => {
            m.append("Integer(RespInteger { value: ");
            let mut v: Vec<u8> = Vec::new();
            push_signed_decimal(&mut v, i.value);
            proof {
                lemma_dec_signed_plain(i.value);
            }
            let d = ascii_to_string(v);
            m.append(d.as_str());
            m.append(" })");
        },
        RespFrame::BulkString(BulkString { content }) => match content {
            Some(b) => {
                m.append("BulkString(BulkString { content: Some(");
                let d = list_debug_string(b.as_slice());
                m.append(d.as_str());
                m.append(") })");
            },
            None => {
                m.append("BulkString(BulkString { content: None })");
            },
        },
        RespFrame::NullBulkString(_) => {
            m.append("NullBulkString(NullBulkString)");
        },
        RespFrame::Array(RespArray { elements }) => match elements {
            Some(v) => {
                m.append("Array(RespArray { elements: Some([");
                let d = items_debug(v);
                m.append(d.as_str());
                m.append("]) })");
            },
            None => {
                m.append("Array(RespArray { elements: None })");
            },
        },
        RespFrame::Boolean(b) => {
            m.append("Boolean(RespBoolean { value: ");
            if b.value {
                m.append("true");
            } else {
                m.append("false");
            }
            m.append(" })");
        },
        RespFrame::Double(d) => {
            m.append("Double(RespDouble { text: ");
            let t = str_debug(d.text());
            m.append(t.as_str());
            m.append(" })");
        },
        RespFrame::RespMap(p) => {
            m.append("Map(RespMap { pairs: {");
            let d = p.pairs_debug();
            m.append(d.as_str());
            m.append("} })");
        },
        RespFrame::RespSet(s) => {
            m.append("Set(RespSet { elements: [");
            let d = items_debug(&s.elements);
            m.append(d.as_str());
            m.append("] })");
        },
        RespFrame::RespNull(_) => {
            m.append("RespNull(RespNull)");
        },
        RespFrame::RespNullArray(_) => {
            m.append("RespNullArray(RespNullArray)");
        },
    }
    m
}

/// Prints frames one after another, separated by `, `.
pub fn items_debug(v: &Vec<RespFrame>) -> (r: String)
    ensures
        r@ == items_debug_text(models(v@)),
    decreases v@,
{
    proof {
        super::frame::lemma_models(v@);
    }
    let mut m = String::new();
    let mut i: usize = 0;
    while i < v.len()
        invariant
            i <= v@.len(),
            models(v@).len() == v@.len(),
            forall|j: int| 0 <= j < v@.len() ==> #[trigger] models(v@)[j] == v@[j].model(),
            m@ == items_debug_text(models(v@).take(i as int)),
        decreases v@.len() - i,
    {
        assert(decreases_to!(v@ => v@[i as int]));
        let ghost t = models(v@).take(i + 1);
        assert(t.drop_last() =~= models(v@).take(i as int));
        if i > 0 {
            m.append(", ");
        } else {
            assert(models(v@).take(0) =~= Seq::<FrameModel>::empty());
        }
        let d = frame_debug(&v[i]);
        m.append(d.as_str());
        i = i + 1;
    }
    assert(models(v@).take(v@.len() as int) =~= models(v@));
    m
}

} // verus!
