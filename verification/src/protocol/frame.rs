//! RESP2 and RESP3 frames.
//!
//! [`BulkString`] wraps [`bytes::Bytes`], so a payload is shared rather than
//! copied when a frame is handed on.

use bytes::Bytes;
use vstd::prelude::*;
use vstd::string::*;
use vstd::std_specs::convert::FromSpecImpl;

use crate::buffer::{bytes_clone, bytes_from_slice, bytes_from_vec, bytes_of, bytes_slice};
use crate::protocol::double::DoubleText;

verus! {

/// Bulk-string payload. `None` is the explicit null bulk (`$-1\r\n`).
#[derive(Debug, PartialEq, Eq)]
pub struct BulkString(pub Option<Bytes>);

impl View for BulkString {
    type V = Option<Seq<u8>>;

    open spec fn view(&self) -> Option<Seq<u8>> {
        match self.0 {
            Some(b) => Some(bytes_of(b)),
            None => None,
        }
    }
}

impl BulkString {
    /// A bulk holding `b`.
    pub fn from_bytes(b: Bytes) -> (r: Self)
        ensures
            r@ == Some(bytes_of(b)),
    {
        BulkString(Some(b))
    }

    /// The explicit null bulk.
    pub fn null() -> (r: Self)
        ensures
            r@ is None,
    {
        BulkString(None)
    }

    /// The payload, where there is one.
    pub fn as_bytes(&self) -> (r: Option<&[u8]>)
        ensures
            self@ == (match r {
                Some(b) => Some(b@),
                None => None,
            }),
    {
        match &self.0 {
            Some(b) => Some(bytes_slice(b)),
            None => None,
        }
    }

    /// Whether this is the null bulk.
    pub fn is_null(&self) -> (r: bool)
        ensures
            r == (self@ is None),
    {
        self.0.is_none()
    }
}

impl Default for BulkString {
    /// The null bulk.
    fn default() -> (r: Self)
        ensures
            r@ is None,
    {
        BulkString::null()
    }
}

impl Clone for BulkString {
    fn clone(&self) -> (r: Self)
        ensures
            r@ == self@,
    {
        match &self.0 {
            Some(b) => BulkString(Some(bytes_clone(b))),
            None => BulkString(None),
        }
    }
}

impl From<&[u8]> for BulkString {
    fn from(b: &[u8]) -> (r: Self)
        ensures
            r@ == Some(b@),
    {
        BulkString(Some(bytes_from_slice(b)))
    }
}

impl FromSpecImpl<&[u8]> for BulkString {
    open spec fn obeys_from_spec() -> bool {
        false
    }

    open spec fn from_spec(b: &[u8]) -> Self {
        arbitrary()
    }
}

impl From<Vec<u8>> for BulkString {
    fn from(v: Vec<u8>) -> (r: Self)
        ensures
            r@ == Some(v@),
    {
        BulkString(Some(bytes_from_vec(v)))
    }
}

impl FromSpecImpl<Vec<u8>> for BulkString {
    open spec fn obeys_from_spec() -> bool {
        false
    }

    open spec fn from_spec(v: Vec<u8>) -> Self {
        arbitrary()
    }
}

impl From<&str> for BulkString {
    fn from(s: &str) -> (r: Self)
        ensures
            r@ == Some(s.spec_bytes()),
    {
        BulkString(Some(bytes_from_slice(s.as_bytes())))
    }
}

impl FromSpecImpl<&str> for BulkString {
    open spec fn obeys_from_spec() -> bool {
        false
    }

    open spec fn from_spec(s: &str) -> Self {
        arbitrary()
    }
}

impl From<String> for BulkString {
    fn from(s: String) -> (r: Self)
        ensures
            r@ == Some(vstd::utf8::encode_utf8(s@)),
    {
        BulkString(Some(bytes_from_slice(s.as_str().as_bytes())))
    }
}

impl FromSpecImpl<String> for BulkString {
    open spec fn obeys_from_spec() -> bool {
        false
    }

    open spec fn from_spec(s: String) -> Self {
        arbitrary()
    }
}

/// One RESP frame. The RESP3-only variants (`MapFrame`, `SetFrame`, `Push`,
/// `Boolean`, `Double`, `BigNumber` and `Null`) cannot be sent on a RESP2
/// connection: the codec refuses them.
#[derive(Debug, PartialEq)]
pub enum Frame {
    /// `+OK\r\n` and the like.
    SimpleString(String),
    /// `-ERR ...\r\n`. The leading code is the first word; the rest is for
    /// people.
    Error(String),
    /// `:123\r\n`.
    Integer(i64),
    /// `$5\r\nhello\r\n`, or `$-1\r\n` for null.
    Bulk(BulkString),
    /// `*3\r\n...`, or `*-1\r\n` for the null array.
    Array(Option<Vec<Frame>>),
    /// RESP3 map, `%2\r\n...`. Pairs keep their order.
    MapFrame(Vec<(Frame, Frame)>),
    /// RESP3 set, `~3\r\n...`.
    SetFrame(Vec<Frame>),
    /// RESP3 `>3\r\n...`, used for pub/sub delivery.
    Push(Vec<Frame>),
    /// RESP3 `#t` or `#f`.
    Boolean(bool),
    /// RESP3 `,3.14\r\n`, carried as its literal.
    Double(DoubleText),
    /// RESP3 `_\r\n`.
    Null,
    /// RESP3 `(123...\r\n`, carried as its literal.
    BigNumber(String),
}

/// Mathematical value of a [`Frame`].
pub ghost enum FrameView {
    SimpleString(Seq<char>),
    Error(Seq<char>),
    Integer(int),
    Bulk(Option<Seq<u8>>),
    Array(Option<Seq<FrameView>>),
    MapFrame(Seq<(FrameView, FrameView)>),
    SetFrame(Seq<FrameView>),
    Push(Seq<FrameView>),
    Boolean(bool),
    Double(Seq<u8>),
    Null,
    BigNumber(Seq<char>),
}

/// Values of a list of frames.
pub open spec fn frames_view(s: Seq<Frame>) -> Seq<FrameView>
    decreases s,
{
    Seq::new(s.len(), |i: int| if 0 <= i < s.len() { frame_view(s[i]) } else { FrameView::Null })
}

/// Values of a list of key/value pairs.
pub open spec fn pairs_view(s: Seq<(Frame, Frame)>) -> Seq<(FrameView, FrameView)>
    decreases s,
{
    Seq::new(
        s.len(),
        |i: int|
            if 0 <= i < s.len() {
                (frame_view(s[i].0), frame_view(s[i].1))
            } else {
                (FrameView::Null, FrameView::Null)
            },
    )
}

/// Value of a frame.
pub open spec fn frame_view(f: Frame) -> FrameView
    decreases f,
{
    match f {
        Frame::SimpleString(s) => FrameView::SimpleString(s@),
        Frame::Error(s) => FrameView::Error(s@),
        Frame::Integer(n) => FrameView::Integer(n as int),
        Frame::Bulk(b) => FrameView::Bulk(b@),
        Frame::Array(None) => FrameView::Array(None),
        Frame::Array(Some(items)) => FrameView::Array(Some(frames_view(items@))),
        Frame::MapFrame(pairs) => FrameView::MapFrame(pairs_view(pairs@)),
        Frame::SetFrame(items) => FrameView::SetFrame(frames_view(items@)),
        Frame::Push(items) => FrameView::Push(frames_view(items@)),
        Frame::Boolean(b) => FrameView::Boolean(b),
        Frame::Double(d) => FrameView::Double(d@),
        Frame::Null => FrameView::Null,
        Frame::BigNumber(s) => FrameView::BigNumber(s@),
    }
}

impl View for Frame {
    type V = FrameView;

    open spec fn view(&self) -> FrameView {
        frame_view(*self)
    }
}

/// Whether a frame value exists in RESP3 only.
pub open spec fn resp3_only(f: FrameView) -> bool {
    match f {
        FrameView::MapFrame(_)
        | FrameView::SetFrame(_)
        | FrameView::Push(_)
        | FrameView::Boolean(_)
        | FrameView::Double(_)
        | FrameView::Null
        | FrameView::BigNumber(_) => true,
        _ => false,
    }
}

impl Frame {
    /// `+OK\r\n`.
    pub fn ok() -> (r: Self)
        ensures
            r@ == FrameView::SimpleString("OK"@),
    {
        Frame::SimpleString("OK".to_owned())
    }

    /// A generic `-ERR <msg>` error frame.
    pub fn error(msg: &str) -> (r: Self)
        ensures
            r@ == FrameView::Error("ERR "@ + msg@),
    {
        let mut text: String = "ERR ".to_owned();
        text.append(msg);
        Frame::Error(text)
    }

    /// Whether this frame exists in RESP3 only.
    pub fn requires_resp3(&self) -> (r: bool)
        ensures
            r == resp3_only(self@),
    {
        match self {
            Frame::MapFrame(_)
            | Frame::SetFrame(_)
            | Frame::Push(_)
            | Frame::Boolean(_)
            | Frame::Double(_)
            | Frame::Null
            | Frame::BigNumber(_) => true,
            _ => false,
        }
    }
}

/// The value of a list that grew by one frame.
pub proof fn lemma_frames_view_push(s: Seq<Frame>, f: Frame)
    ensures
        frames_view(s.push(f)) == frames_view(s).push(f@),
{
    assert(frames_view(s.push(f)) =~= frames_view(s).push(f@));
}

/// The value of a list that grew by one pair.
pub proof fn lemma_pairs_view_push(s: Seq<(Frame, Frame)>, k: Frame, v: Frame)
    ensures
        pairs_view(s.push((k, v))) == pairs_view(s).push((k@, v@)),
{
    assert(pairs_view(s.push((k, v))) =~= pairs_view(s).push((k@, v@)));
}

fn clone_frames(items: &Vec<Frame>) -> (r: Vec<Frame>)
    ensures
        frames_view(r@) == frames_view(items@),
    decreases items,
{
    let mut out: Vec<Frame> = Vec::new();
    let mut i: usize = 0;
    while i < items.len()
        invariant
            i <= items@.len(),
            frames_view(out@) == frames_view(items@.take(i as int)),
        decreases items@.len() - i,
    {
        assert(decreases_to!(items => items@[i as int]));
        let f: Frame = clone_frame(&items[i]);
        proof {
            lemma_frames_view_push(out@, f);
            lemma_frames_view_push(items@.take(i as int), items@[i as int]);
            assert(items@.take(i + 1) =~= items@.take(i as int).push(items@[i as int]));
        }
        out.push(f);
        i = i + 1;
    }
    assert(items@.take(i as int) =~= items@);
    out
}

fn clone_pairs(items: &Vec<(Frame, Frame)>) -> (r: Vec<(Frame, Frame)>)
    ensures
        pairs_view(r@) == pairs_view(items@),
    decreases items,
{
    let mut out: Vec<(Frame, Frame)> = Vec::new();
    let mut i: usize = 0;
    while i < items.len()
        invariant
            i <= items@.len(),
            pairs_view(out@) == pairs_view(items@.take(i as int)),
        decreases items@.len() - i,
    {
        assert(decreases_to!(items => items@[i as int]));
        let k: Frame = clone_frame(&items[i].0);
        let v: Frame = clone_frame(&items[i].1);
        proof {
            lemma_pairs_view_push(out@, k, v);
            lemma_pairs_view_push(
                items@.take(i as int),
                items@[i as int].0,
                items@[i as int].1,
            );
            assert(items@.take(i + 1) =~= items@.take(i as int).push(items@[i as int]));
        }
        out.push((k, v));
        i = i + 1;
    }
    assert(items@.take(i as int) =~= items@);
    out
}

fn clone_frame(f: &Frame) -> (r: Frame)
    ensures
        r@ == f@,
    decreases f,
{
    match f {
        Frame::SimpleString(s) => Frame::SimpleString(s.clone()),
        Frame::Error(s) => Frame::Error(s.clone()),
        Frame::Integer(n) => Frame::Integer(*n),
        Frame::Bulk(b) => Frame::Bulk(b.clone()),
        Frame::Array(None) => Frame::Array(None),
        Frame::Array(Some(items)) => Frame::Array(Some(clone_frames(items))),
        Frame::MapFrame(pairs) => Frame::MapFrame(clone_pairs(pairs)),
        Frame::SetFrame(items) => Frame::SetFrame(clone_frames(items)),
        Frame::Push(items) => Frame::Push(clone_frames(items)),
        Frame::Boolean(b) => Frame::Boolean(*b),
        Frame::Double(d) => Frame::Double(d.clone()),
        Frame::Null => Frame::Null,
        Frame::BigNumber(s) => Frame::BigNumber(s.clone()),
    }
}

impl Clone for Frame {
    fn clone(&self) -> (r: Self)
        ensures
            r@ == self@,
    {
        clone_frame(self)
    }
}

} // verus!
