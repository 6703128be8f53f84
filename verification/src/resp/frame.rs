//! The RESP frames and their mathematical values.
use vstd::prelude::*;
use vstd::utf8::encode_utf8;
use vstd::slice::slice_to_vec;
use super::map::RespMap;
use crate::text::{is_float, is_float_text};

verus! {

/// `+<content>\r\n`
#[derive(Debug, Clone, PartialEq)]
pub struct SimpleString {
    pub content: String,
}

/// `-<msg>\r\n`
#[derive(Debug, Clone, PartialEq)]
pub struct SimpleError {
    pub msg: String,
}

/// `:<value>\r\n`
#[derive(Debug, Clone, PartialEq)]
pub struct RespInteger {
    pub value: i64,
}

/// `$<length>\r\n<data>\r\n`, or `$-1\r\n` when there is no content.
#[derive(Debug, Clone, PartialEq)]
pub struct BulkString {
    pub content: Option<Vec<u8>>,
}

/// `$-1\r\n`
#[derive(Debug, Clone, PartialEq)]
pub struct NullBulkString;

/// `*<count>\r\n<element-1>...<element-n>`, or `*-1\r\n` when there are no elements.
#[derive(Debug, PartialEq)]
pub struct RespArray {
    pub elements: Option<Vec<RespFrame>>,
}

/// `*-1\r\n`
#[derive(Debug, Clone, PartialEq)]
pub struct RespNullArray;

/// `#t\r\n` or `#f\r\n`
#[derive(Debug, Clone, PartialEq)]
pub struct RespBoolean {
    pub value: bool,
}

/// `,<double>\r\n`; the double is held as the text that stands on the wire,
/// which always has the syntax that `f64::from_str` accepts.
#[derive(Debug, PartialEq)]
pub struct RespDouble {
    text: String,
}

impl RespDouble {
    /// The text of the double.
    pub closed spec fn text_view(&self) -> Seq<char> {
        self.text@
    }

    /// A double from its text, when `f64::from_str` accepts that text.
    pub fn from_text(text: String) -> (r: Option<Self>)
        ensures
            r is Some <==> is_float_text(encode_utf8(text@)),
            r matches Some(d) ==> d.text_view() == text@,
    {
        if is_float(text.as_str().as_bytes()) {
            Some(RespDouble { text })
        } else {
            None
        }
    }

    /// The text of the double.
    pub fn text(&self) -> (r: &str)
        ensures
            r@ == self.text_view(),
    {
        self.text.as_str()
    }
}

/// `_\r\n`
#[derive(Debug, Clone, PartialEq)]
pub struct RespNull;

/// `~<count>\r\n<element-1>...<element-n>`
#[derive(Debug, PartialEq)]
pub struct RespSet {
    pub elements: Vec<RespFrame>,
}

/// One RESP value.
#[derive(Debug, PartialEq)]
pub enum RespFrame {
    SimpleString(SimpleString),
    SimpleError(SimpleError),
    Integer(RespInteger),
    BulkString(BulkString),
    NullBulkString(NullBulkString),
    Array(RespArray),
    Boolean(RespBoolean),
    Double(RespDouble),
    RespMap(RespMap),
    RespSet(RespSet),
    RespNull(RespNull),
    RespNullArray(RespNullArray),
}

/// The mathematical value of a frame: text as characters, binary data as bytes,
/// nested frames as sequences, a map as its key/value pairs in key order.
pub enum FrameModel {
    SimpleString(Seq<char>),
    SimpleError(Seq<char>),
    Integer(i64),
    BulkString(Option<Seq<u8>>),
    NullBulkString,
    Array(Option<Seq<FrameModel>>),
    Boolean(bool),
    Double(Seq<char>),
    RespMap(Seq<(Seq<char>, FrameModel)>),
    RespSet(Seq<FrameModel>),
    Null,
    NullArray,
}

impl RespFrame {
    /// The mathematical value of the frame.
    pub open spec fn model(&self) -> FrameModel
        decreases self,
    {
        match self {
            RespFrame::SimpleString(s) => FrameModel::SimpleString(s.content@),
            RespFrame::SimpleError(e) => FrameModel::SimpleError(e.msg@),
            RespFrame::Integer(i) => FrameModel::Integer(i.value),
            RespFrame::BulkString(b) => FrameModel::BulkString(
                match &b.content {
                    Some(v) => Some(v@),
                    None => None,
                },
            ),
            RespFrame::NullBulkString(_) => FrameModel::NullBulkString,
            RespFrame::Array(a) => FrameModel::Array(
                match &a.elements {
                    Some(v) => Some(models(v@)),
                    None => None,
                },
            ),
            RespFrame::Boolean(b) => FrameModel::Boolean(b.value),
            RespFrame::Double(d) => FrameModel::Double(d.text_view()),
            RespFrame::RespMap(m) => FrameModel::RespMap(m.entries()),
            RespFrame::RespSet(s) => FrameModel::RespSet(models(s.elements@)),
            RespFrame::RespNull(_) => FrameModel::Null,
            RespFrame::RespNullArray(_) => FrameModel::NullArray,
        }
    }
}

/// The values of a sequence of frames.
pub open spec fn models(s: Seq<RespFrame>) -> Seq<FrameModel>
    decreases s,
{
    if s.len() == 0 {
        seq![]
    } else {
        seq![s[0].model()] + models(s.drop_first())
    }
}

/// The values of a sequence of key/value pairs.
pub open spec fn pair_models(s: Seq<(String, RespFrame)>) -> Seq<(Seq<char>, FrameModel)>
    decreases s,
{
    if s.len() == 0 {
        seq![]
    } else {
        seq![(s[0].0@, s[0].1.model())] + pair_models(s.drop_first())
    }
}

impl View for RespFrame {
    type V = FrameModel;

    open spec fn view(&self) -> FrameModel {
        self.model()
    }
}

/// The values of a sequence of frames, element by element.
pub proof fn lemma_models(s: Seq<RespFrame>)
    ensures
        models(s).len() == s.len(),
        forall|i: int| 0 <= i < s.len() ==> #[trigger] models(s)[i] == s[i].model(),
    decreases s.len(),
{
    if s.len() > 0 {
        lemma_models(s.drop_first());
        assert forall|i: int| 0 <= i < s.len() implies #[trigger] models(s)[i] == s[i].model() by {
            if i > 0 {
                assert(models(s)[i] == models(s.drop_first())[i - 1]);
            }
        }
    }
}

/// Two sequences of frames with equal values element by element have equal values.
pub proof fn lemma_models_equal(a: Seq<RespFrame>, b: Seq<RespFrame>)
    requires
        a.len() == b.len(),
        forall|i: int| 0 <= i < a.len() ==> #[trigger] a[i].model() == b[i].model(),
    ensures
        models(a) == models(b),
{
    lemma_models(a);
    lemma_models(b);
    assert(models(a) =~= models(b));
}

impl RespFrame {
    /// A copy of the frame.
    pub fn duplicate(&self) -> (r: Self)
        ensures
            r.model() == self.model(),
        decreases self,
    {
        match self {
            RespFrame::SimpleString(s) => RespFrame::SimpleString(
                SimpleString { content: s.content.clone() },
            ),
            RespFrame::SimpleError(e) => RespFrame::SimpleError(SimpleError { msg: e.msg.clone() }),
            RespFrame::Integer(i) => RespFrame::Integer(RespInteger { value: i.value }),
            RespFrame::BulkString(b) => RespFrame::BulkString(
                BulkString {
                    content: match &b.content {
                        Some(v) => Some(slice_to_vec(v.as_slice())),
                        None => None,
                    },
                },
            ),
            RespFrame::NullBulkString(_) => RespFrame::NullBulkString(NullBulkString),
            RespFrame::Array(a) => RespFrame::Array(
                RespArray {
                    elements: match &a.elements {
                        Some(v) => Some(duplicate_all(v)),
                        None => None,
                    },
                },
            ),
            RespFrame::Boolean(b) => RespFrame::Boolean(RespBoolean { value: b.value }),
            RespFrame::Double(d) => RespFrame::Double(d.duplicate()),
            RespFrame::RespMap(m) => RespFrame::RespMap(m.duplicate()),
            RespFrame::RespSet(s) => RespFrame::RespSet(
                RespSet { elements: duplicate_all(&s.elements) },
            ),
            RespFrame::RespNull(_) => RespFrame::RespNull(RespNull),
            RespFrame::RespNullArray(_) => RespFrame::RespNullArray(RespNullArray),
        }
    }
}

/// Copies of all the frames.
pub fn duplicate_all(v: &Vec<RespFrame>) -> (r: Vec<RespFrame>)
    ensures
        models(r@) == models(v@),
    decreases v@,
{
    let mut out: Vec<RespFrame> = Vec::new();
    let mut i: usize = 0;
    while i < v.len()
        invariant
            i <= v@.len(),
            out@.len() == i,
            forall|j: int| 0 <= j < i ==> #[trigger] out@[j].model() == v@[j].model(),
        decreases v@.len() - i,
    {
        assert(decreases_to!(v@ => v@[i as int]));
        let c = v[i].duplicate();
        out.push(c);
        i = i + 1;
    }
    proof {
        lemma_models_equal(out@, v@);
    }
    out
}

impl RespDouble {
    /// A copy of the double.
    pub fn duplicate(&self) -> (r: Self)
        ensures
            r.text_view() == self.text_view(),
    {
        RespDouble { text: self.text.clone() }
    }
}

impl Clone for RespFrame {
    fn clone(&self) -> (r: Self)
        ensures
            r.model() == self.model(),
    {
        self.duplicate()
    }
}

impl Clone for RespArray {
    fn clone(&self) -> (r: Self) {
        RespArray {
            elements: match &self.elements {
                Some(v) => Some(duplicate_all(v)),
                None => None,
            },
        }
    }
}

impl Clone for RespSet {
    fn clone(&self) -> (r: Self) {
        RespSet { elements: duplicate_all(&self.elements) }
    }
}

impl SimpleString {
    pub fn new(content: String) -> (r: Self)
        ensures
            r.content@ == content@,
    {
        SimpleString { content }
    }
}

impl SimpleError {
    pub fn new(msg: String) -> (r: Self)
        ensures
            r.msg@ == msg@,
    {
        SimpleError { msg }
    }
}

impl RespInteger {
    pub fn new(value: i64) -> (r: Self)
        ensures
            r.value == value,
    {
        RespInteger { value }
    }
}

impl RespBoolean {
    pub fn new(value: bool) -> (r: Self)
        ensures
            r.value == value,
    {
        RespBoolean { value }
    }
}

impl BulkString {
    /// A bulk string holding `content`.
    pub fn new(content: Vec<u8>) -> (r: Self)
        ensures
            r.content matches Some(v) && v@ == content@,
    {
        BulkString { content: Some(content) }
    }

    /// The bulk string without content.
    pub fn null() -> (r: Self)
        ensures
            r.content is None,
    {
        BulkString { content: None }
    }

    /// A bulk string holding a copy of the bytes.
    pub fn from_string(content: &[u8]) -> (r: Self)
        ensures
            r.content matches Some(v) && v@ == content@,
    {
        BulkString { content: Some(slice_to_vec(content)) }
    }
}

impl RespArray {
    pub fn new(elements: Option<Vec<RespFrame>>) -> (r: Self)
        ensures
            r.elements == elements,
    {
        RespArray { elements }
    }

    /// An array holding the elements.
    pub fn from_vec(elements: Vec<RespFrame>) -> (r: Self)
        ensures
            r.elements == Some(elements),
    {
        RespArray { elements: Some(elements) }
    }

    /// An array with no element.
    pub fn empty() -> (r: Self)
        ensures
            r.elements matches Some(v) && v@.len() == 0,
    {
        RespArray { elements: Some(Vec::new()) }
    }

    /// The array without elements (`*-1`).
    pub fn null() -> (r: Self)
        ensures
            r.elements is None,
    {
        RespArray { elements: None }
    }
}

impl RespSet {
    pub fn new(elements: Vec<RespFrame>) -> (r: Self)
        ensures
            r.elements == elements,
    {
        RespSet { elements }
    }

    /// An empty set with room for `capacity` elements.
    pub fn with_capacity(capacity: usize) -> (r: Self)
        ensures
            r.elements@.len() == 0,
    {
        RespSet { elements: Vec::with_capacity(capacity) }
    }
}


impl From<SimpleString> for RespFrame {
    fn from(v: SimpleString) -> (r: Self) {
        RespFrame::SimpleString(v)
    }
}

impl vstd::std_specs::convert::FromSpecImpl<SimpleString> for RespFrame {
    open spec fn obeys_from_spec() -> bool {
        true
    }

    open spec fn from_spec(v: SimpleString) -> RespFrame {
        RespFrame::SimpleString(v)
    }
}

impl From<SimpleError> for RespFrame {
    fn from(v: SimpleError) -> (r: Self) {
        RespFrame::SimpleError(v)
    }
}

impl vstd::std_specs::convert::FromSpecImpl<SimpleError> for RespFrame {
    open spec fn obeys_from_spec() -> bool {
        true
    }

    open spec fn from_spec(v: SimpleError) -> RespFrame {
        RespFrame::SimpleError(v)
    }
}

impl From<RespInteger> for RespFrame {
    fn from(v: RespInteger) -> (r: Self) {
        RespFrame::Integer(v)
    }
}

impl vstd::std_specs::convert::FromSpecImpl<RespInteger> for RespFrame {
    open spec fn obeys_from_spec() -> bool {
        true
    }

    open spec fn from_spec(v: RespInteger) -> RespFrame {
        RespFrame::Integer(v)
    }
}

impl From<BulkString> for RespFrame {
    fn from(v: BulkString) -> (r: Self) {
        RespFrame::BulkString(v)
    }
}

impl vstd::std_specs::convert::FromSpecImpl<BulkString> for RespFrame {
    open spec fn obeys_from_spec() -> bool {
        true
    }

    open spec fn from_spec(v: BulkString) -> RespFrame {
        RespFrame::BulkString(v)
    }
}

impl From<NullBulkString> for RespFrame {
    fn from(v: NullBulkString) -> (r: Self) {
        RespFrame::NullBulkString(v)
    }
}

impl vstd::std_specs::convert::FromSpecImpl<NullBulkString> for RespFrame {
    open spec fn obeys_from_spec() -> bool {
        true
    }

    open spec fn from_spec(v: NullBulkString) -> RespFrame {
        RespFrame::NullBulkString(v)
    }
}

impl From<RespArray> for RespFrame {
    fn from(v: RespArray) -> (r: Self) {
        RespFrame::Array(v)
    }
}

impl vstd::std_specs::convert::FromSpecImpl<RespArray> for RespFrame {
    open spec fn obeys_from_spec() -> bool {
        true
    }

    open spec fn from_spec(v: RespArray) -> RespFrame {
        RespFrame::Array(v)
    }
}

impl From<RespBoolean> for RespFrame {
    fn from(v: RespBoolean) -> (r: Self) {
        RespFrame::Boolean(v)
    }
}

impl vstd::std_specs::convert::FromSpecImpl<RespBoolean> for RespFrame {
    open spec fn obeys_from_spec() -> bool {
        true
    }

    open spec fn from_spec(v: RespBoolean) -> RespFrame {
        RespFrame::Boolean(v)
    }
}

impl From<RespDouble> for RespFrame {
    fn from(v: RespDouble) -> (r: Self) {
        RespFrame::Double(v)
    }
}

impl vstd::std_specs::convert::FromSpecImpl<RespDouble> for RespFrame {
    open spec fn obeys_from_spec() -> bool {
        true
    }

    open spec fn from_spec(v: RespDouble) -> RespFrame {
        RespFrame::Double(v)
    }
}

impl From<RespMap> for RespFrame {
    fn from(v: RespMap) -> (r: Self) {
        RespFrame::RespMap(v)
    }
}

impl vstd::std_specs::convert::FromSpecImpl<RespMap> for RespFrame {
    open spec fn obeys_from_spec() -> bool {
        true
    }

    open spec fn from_spec(v: RespMap) -> RespFrame {
        RespFrame::RespMap(v)
    }
}

impl From<RespSet> for RespFrame {
    fn from(v: RespSet) -> (r: Self) {
        RespFrame::RespSet(v)
    }
}

impl vstd::std_specs::convert::FromSpecImpl<RespSet> for RespFrame {
    open spec fn obeys_from_spec() -> bool {
        true
    }

    open spec fn from_spec(v: RespSet) -> RespFrame {
        RespFrame::RespSet(v)
    }
}

impl From<RespNull> for RespFrame {
    fn from(v: RespNull) -> (r: Self) {
        RespFrame::RespNull(v)
    }
}

impl vstd::std_specs::convert::FromSpecImpl<RespNull> for RespFrame {
    open spec fn obeys_from_spec() -> bool {
        true
    }

    open spec fn from_spec(v: RespNull) -> RespFrame {
        RespFrame::RespNull(v)
    }
}

impl From<RespNullArray> for RespFrame {
    fn from(v: RespNullArray) -> (r: Self) {
        RespFrame::RespNullArray(v)
    }
}

impl vstd::std_specs::convert::FromSpecImpl<RespNullArray> for RespFrame {
    open spec fn obeys_from_spec() -> bool {
        true
    }

    open spec fn from_spec(v: RespNullArray) -> RespFrame {
        RespFrame::RespNullArray(v)
    }
}

impl From<Vec<RespFrame>> for RespArray {
    fn from(elements: Vec<RespFrame>) -> (r: Self) {
        RespArray { elements: Some(elements) }
    }
}

impl vstd::std_specs::convert::FromSpecImpl<Vec<RespFrame>> for RespArray {
    open spec fn obeys_from_spec() -> bool {
        true
    }

    open spec fn from_spec(v: Vec<RespFrame>) -> RespArray {
        RespArray { elements: Some(v) }
    }
}

/// Text as a bulk string frame holding its UTF-8 bytes.
impl From<&str> for RespFrame {
    fn from(s: &str) -> (r: Self)
        ensures
            r.model() == FrameModel::BulkString(Some(encode_utf8(s@))),
    {
        RespFrame::BulkString(BulkString::from_string(s.as_bytes()))
    }
}

/// A spec function cannot build the frame's byte vector, so `from_spec` only names a
/// frame with the right model, and `from` is described by its own `ensures`.
impl vstd::std_specs::convert::FromSpecImpl<&str> for RespFrame {
    open spec fn obeys_from_spec() -> bool {
        false
    }

    open spec fn from_spec(v: &str) -> RespFrame {
        choose|f: RespFrame| f.model() == FrameModel::BulkString(Some(encode_utf8(v@)))
    }
}

/// Bytes as a bulk string frame.
impl From<&[u8]> for RespFrame {
    fn from(s: &[u8]) -> (r: Self)
        ensures
            r.model() == FrameModel::BulkString(Some(s@)),
    {
        RespFrame::BulkString(BulkString::from_string(s))
    }
}

/// See the impl for `&str`.
impl vstd::std_specs::convert::FromSpecImpl<&[u8]> for RespFrame {
    open spec fn obeys_from_spec() -> bool {
        false
    }

    open spec fn from_spec(v: &[u8]) -> RespFrame {
        choose|f: RespFrame| f.model() == FrameModel::BulkString(Some(v@))
    }
}

/// A byte array as a bulk string frame.
impl<const N: usize> From<&[u8; N]> for RespFrame {
    fn from(s: &[u8; N]) -> (r: Self)
        ensures
            r.model() == FrameModel::BulkString(Some(s@)),
    {
        RespFrame::BulkString(BulkString::from_string(s.as_slice()))
    }
}

/// See the impl for `&str`.
impl<const N: usize> vstd::std_specs::convert::FromSpecImpl<&[u8; N]> for RespFrame {
    open spec fn obeys_from_spec() -> bool {
        false
    }

    open spec fn from_spec(v: &[u8; N]) -> RespFrame {
        choose|f: RespFrame| f.model() == FrameModel::BulkString(Some(v@))
    }
}

/// Text as a simple string.
impl From<&str> for SimpleString {
    fn from(s: &str) -> (r: Self)
        ensures
            r.content@ == s@,
    {
        SimpleString::new(s.to_owned())
    }
}

/// A spec function cannot build the string, so `from_spec` only names a simple
/// string with the right text, and `from` is described by its own `ensures`.
impl vstd::std_specs::convert::FromSpecImpl<&str> for SimpleString {
    open spec fn obeys_from_spec() -> bool {
        false
    }

    open spec fn from_spec(v: &str) -> SimpleString {
        choose|t: SimpleString| t.content@ == v@
    }
}

impl core::ops::Deref for RespArray {
    type Target = Option<Vec<RespFrame>>;

    fn deref(&self) -> (r: &Option<Vec<RespFrame>>)
        ensures
            *r == self.elements,
    {
        &self.elements
    }
}

impl core::ops::Deref for RespSet {
    type Target = Vec<RespFrame>;

    fn deref(&self) -> (r: &Vec<RespFrame>)
        ensures
            *r == self.elements,
    {
        &self.elements
    }
}

impl core::ops::DerefMut for RespSet {
    fn deref_mut(&mut self) -> (r: &mut Vec<RespFrame>)
        ensures
            *r == old(self).elements,
            final(self).elements == *final(r),
    {
        &mut self.elements
    }
}

impl core::ops::Deref for SimpleString {
    type Target = str;

    fn deref(&self) -> (r: &str)
        ensures
            r@ == self.content@,
    {
        self.content.as_str()
    }
}

} // verus!
