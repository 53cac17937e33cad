//! RESP2/RESP3 codec.
//!
//! The codec has one piece of state besides its limits: the negotiated
//! protocol version. RESP3-only frames are refused on encode while the version
//! is `Resp2`, and their prefixes are refused on decode.

use bytes::BytesMut;
use vstd::prelude::*;
use vstd::slice::slice_subrange;
use vstd::string::*;
use vstd::utf8::encode_utf8;

use crate::buffer::{
    bytes_from_slice, bytes_slice, pending_advance, pending_extend, pending_of, pending_slice,
};
use crate::protocol::double::{is_double, spells, spells_word, DoubleText};
use crate::protocol::error::{ErrorView, ProtocolError};
use crate::protocol::frame::{
    frames_view, lemma_frames_view_push, lemma_pairs_view_push, pairs_view, resp3_only, BulkString,
    Frame, FrameView,
};
use crate::text::{
    ascii_chars, decimal, decimal_bytes, hex, is_digit, parse_signed, push_decimal, push_hex,
    push_signed_decimal, signed_decimal, signed_decimal_bytes, signed_numeral, string_from_utf8,
    utf8_text,
};

verus! {

/// Negotiated protocol version.
#[derive(Debug, Clone, Copy, PartialEq, Eq, Structural)]
pub enum ProtocolVersion {
    /// Baseline of a freshly accepted connection.
    Resp2,
    /// After a successful `HELLO 3`.
    Resp3,
}

impl Default for ProtocolVersion {
    fn default() -> (r: Self)
        ensures
            r == ProtocolVersion::Resp2,
    {
        ProtocolVersion::Resp2
    }
}

/// Largest bulk string that a fresh codec accepts: 512 MiB.
pub const DEFAULT_MAX_BULK_SIZE: u64 = 536_870_912;

/// Longest array that a fresh codec accepts.
pub const DEFAULT_MAX_ARRAY_LEN: u64 = 1_048_576;

/// Deepest nesting that the decoder follows.
pub const MAX_DEPTH: usize = 32;

/// First byte `+`.
pub const PREFIX_SIMPLE: u8 = 43;

/// First byte `-`.
pub const PREFIX_ERROR: u8 = 45;

/// First byte `:`.
pub const PREFIX_INTEGER: u8 = 58;

/// First byte `$`.
pub const PREFIX_BULK: u8 = 36;

/// First byte `*`.
pub const PREFIX_ARRAY: u8 = 42;

/// First byte `%`.
pub const PREFIX_MAP: u8 = 37;

/// First byte `~`.
pub const PREFIX_SET: u8 = 126;

/// First byte `>`.
pub const PREFIX_PUSH: u8 = 62;

/// First byte `#`.
pub const PREFIX_BOOLEAN: u8 = 35;

/// First byte `,`.
pub const PREFIX_DOUBLE: u8 = 44;

/// First byte `_`.
pub const PREFIX_NULL: u8 = 95;

/// First byte `(`.
pub const PREFIX_BIG_NUMBER: u8 = 40;

/// RESP codec.
#[derive(Debug)]
pub struct RespCodec {
    version: ProtocolVersion,
    max_bulk_size: u64,
    max_array_len: u64,
}

/// Mathematical value of a [`RespCodec`]: the version, and the limits that the
/// decoder enforces.
pub ghost struct Limits {
    pub version: ProtocolVersion,
    pub max_bulk: int,
    pub max_array: int,
}

impl View for RespCodec {
    type V = Limits;

    closed spec fn view(&self) -> Limits {
        Limits {
            version: self.version,
            max_bulk: self.max_bulk_size as int,
            max_array: self.max_array_len as int,
        }
    }
}

// ---------------------------------------------------------------------------
// Grammar
// ---------------------------------------------------------------------------

/// What parsing a frame yields: its value and the bytes used, or an error
/// (`Incomplete` where the input ends inside the frame).
pub type FrameResult = Result<(FrameView, int), ErrorView>;

/// Position of the first CR LF in `b` from `from` on.
pub open spec fn find_crlf(b: Seq<u8>, from: int) -> Option<int>
    decreases b.len() - from,
{
    if 0 <= from && from + 1 < b.len() {
        if b[from] == 13 && b[from + 1] == 10 {
            Some(from)
        } else {
            find_crlf(b, from + 1)
        }
    } else {
        None
    }
}

/// Whether a first byte starts a frame under `version`.
pub open spec fn known_prefix(b: u8, version: ProtocolVersion) -> bool {
    ||| b == PREFIX_SIMPLE || b == PREFIX_ERROR || b == PREFIX_INTEGER || b == PREFIX_BULK || b
        == PREFIX_ARRAY
    ||| version == ProtocolVersion::Resp3 && resp3_prefix(b)
}

/// Whether a first byte starts a RESP3-only frame.
pub open spec fn resp3_prefix(b: u8) -> bool {
    b == PREFIX_MAP || b == PREFIX_SET || b == PREFIX_PUSH || b == PREFIX_BOOLEAN || b
        == PREFIX_DOUBLE || b == PREFIX_NULL || b == PREFIX_BIG_NUMBER
}

/// Number of a line that holds a signed decimal numeral of 64 bits.
pub open spec fn line_number(line: Seq<u8>) -> Result<int, ErrorView> {
    match utf8_text(line) {
        None => Err(ErrorView::InvalidEncoding("integer not utf-8"@)),
        Some(t) => match signed_numeral(line) {
            Some(v) => if i64::MIN <= v <= i64::MAX {
                Ok(v)
            } else {
                Err(ErrorView::InvalidEncoding("bad integer: "@ + t))
            },
            None => Err(ErrorView::InvalidEncoding("bad integer: "@ + t)),
        },
    }
}

/// A line of text and the bytes it takes, line end included; `what` names the
/// frame in the error.
pub open spec fn text_line(b: Seq<u8>, what: Seq<char>) -> Result<(Seq<char>, int), ErrorView> {
    match find_crlf(b, 0) {
        None => Err(ErrorView::Incomplete),
        Some(i) => match utf8_text(b.take(i)) {
            Some(t) => Ok((t, i + 2)),
            None => Err(ErrorView::InvalidEncoding(what + " not utf-8"@)),
        },
    }
}

/// A line holding a number, and the bytes it takes.
pub open spec fn number_line(b: Seq<u8>) -> Result<(int, int), ErrorView> {
    match find_crlf(b, 0) {
        None => Err(ErrorView::Incomplete),
        Some(i) => match line_number(b.take(i)) {
            Ok(v) => Ok((v, i + 2)),
            Err(e) => Err(e),
        },
    }
}

/// A bulk string behind its `$`.
pub open spec fn bulk_at(b: Seq<u8>, max_bulk: int) -> FrameResult {
    match number_line(b) {
        Err(e) => Err(e),
        Ok((len, used)) => if len == -1 {
            Ok((FrameView::Bulk(None), used))
        } else if len < 0 {
            Err(
                ErrorView::InvalidEncoding(
                    "negative bulk length "@ + ascii_chars(signed_decimal(len)),
                ),
            )
        } else if len > max_bulk {
            Err(ErrorView::BulkTooLarge { size: len, max: max_bulk })
        } else if len > usize::MAX {
            Err(ErrorView::InvalidEncoding("bulk length exceeds usize"@))
        } else if len + 2 > usize::MAX {
            Err(ErrorView::InvalidEncoding("bulk length overflow"@))
        } else if b.len() < used + len + 2 {
            Err(ErrorView::Incomplete)
        } else if b[used + len] != 13 || b[used + len + 1] != 10 {
            Err(ErrorView::InvalidEncoding("bulk missing trailing CRLF"@))
        } else {
            Ok((FrameView::Bulk(Some(b.subrange(used, used + len))), used + len + 2))
        },
    }
}

/// The element count of an aggregate, checked against the limits; `what` names
/// the aggregate in the errors.
pub open spec fn checked_count(n: int, max_array: int, what: Seq<char>) -> Result<int, ErrorView> {
    if n < 0 {
        Err(
            ErrorView::InvalidEncoding(
                "negative "@ + what + " length "@ + ascii_chars(signed_decimal(n)),
            ),
        )
    } else if n > max_array {
        Err(ErrorView::ArrayTooLarge { len: n, max: max_array })
    } else if n > usize::MAX {
        Err(ErrorView::InvalidEncoding(what + " length exceeds usize"@))
    } else {
        Ok(n)
    }
}

/// The first `n` frames of `b`, at nesting depth `depth`.
pub open spec fn items_at(b: Seq<u8>, lim: Limits, depth: int, n: nat) -> Result<
    (Seq<FrameView>, int),
    ErrorView,
>
    decreases MAX_DEPTH + 2 - depth, n + 1,
{
    if n == 0 {
        Ok((Seq::empty(), 0))
    } else {
        match items_at(b, lim, depth, (n - 1) as nat) {
            Err(e) => Err(e),
            Ok((items, used)) => match frame_at(b.skip(used), lim, depth) {
                Err(e) => Err(e),
                Ok((f, more)) => Ok((items.push(f), used + more)),
            },
        }
    }
}

/// The first `n` key/value pairs of `b`, at nesting depth `depth`.
pub open spec fn pairs_at(b: Seq<u8>, lim: Limits, depth: int, n: nat) -> Result<
    (Seq<(FrameView, FrameView)>, int),
    ErrorView,
>
    decreases MAX_DEPTH + 2 - depth, n + 1,
{
    if n == 0 {
        Ok((Seq::empty(), 0))
    } else {
        match pairs_at(b, lim, depth, (n - 1) as nat) {
            Err(e) => Err(e),
            Ok((pairs, used)) => match frame_at(b.skip(used), lim, depth) {
                Err(e) => Err(e),
                Ok((k, used_k)) => match frame_at(b.skip(used + used_k), lim, depth) {
                    Err(e) => Err(e),
                    Ok((v, used_v)) => Ok((pairs.push((k, v)), used + used_k + used_v)),
                },
            },
        }
    }
}

/// An aggregate of frames behind its prefix: a count line, then that many
/// frames one level deeper.
pub open spec fn aggregate_at(b: Seq<u8>, lim: Limits, depth: int, what: Seq<char>) -> Result<
    (Seq<FrameView>, int),
    ErrorView,
>
    decreases MAX_DEPTH + 2 - depth, 0int,
    when depth <= MAX_DEPTH
{
    match number_line(b) {
        Err(e) => Err(e),
        Ok((n, used)) => match checked_count(n, lim.max_array, what) {
            Err(e) => Err(e),
            Ok(count) => match items_at(b.skip(used), lim, depth + 1, count as nat) {
                Err(e) => Err(e),
                Ok((items, more)) => Ok((items, used + more)),
            },
        },
    }
}

/// Whether a big number is written as digits behind an optional sign.
pub open spec fn is_big_number(s: Seq<u8>) -> bool {
    &&& s.len() > 0
    &&& forall|i: int|
        0 <= i < s.len() ==> is_digit(#[trigger] s[i]) || (i == 0 && (s[i] == 43 || s[i] == 45))
}

/// The frame at the start of `b`, at nesting depth `depth`.
pub open spec fn frame_at(b: Seq<u8>, lim: Limits, depth: int) -> FrameResult
    decreases MAX_DEPTH + 2 - depth, 1int,
    when depth <= MAX_DEPTH + 1
{
    if depth > MAX_DEPTH {
        Err(ErrorView::InvalidEncoding("nesting deeper than "@ + ascii_chars(decimal(MAX_DEPTH as nat))))
    } else if b.len() == 0 {
        Err(ErrorView::Incomplete)
    } else {
        let p = b[0];
        let rest = b.skip(1);
        if p == PREFIX_SIMPLE {
            match text_line(rest, "simple string"@) {
                Ok((t, n)) => Ok((FrameView::SimpleString(t), 1 + n)),
                Err(e) => Err(e),
            }
        } else if p == PREFIX_ERROR {
            match text_line(rest, "error"@) {
                Ok((t, n)) => Ok((FrameView::Error(t), 1 + n)),
                Err(e) => Err(e),
            }
        } else if p == PREFIX_INTEGER {
            match number_line(rest) {
                Ok((v, n)) => Ok((FrameView::Integer(v), 1 + n)),
                Err(e) => Err(e),
            }
        } else if p == PREFIX_BULK {
            match bulk_at(rest, lim.max_bulk) {
                Ok((f, n)) => Ok((f, 1 + n)),
                Err(e) => Err(e),
            }
        } else if p == PREFIX_ARRAY {
            if number_line(rest) matches Ok((v, n)) && v == -1 {
                Ok((FrameView::Array(None), 1 + number_line(rest)->Ok_0.1))
            } else {
                match aggregate_at(rest, lim, depth, "array"@) {
                    Ok((items, n)) => Ok((FrameView::Array(Some(items)), 1 + n)),
                    Err(e) => Err(e),
                }
            }
        } else if !resp3_prefix(p) {
            Err(ErrorView::InvalidEncoding("unknown prefix 0x"@ + ascii_chars(hex(p as nat, 2))))
        } else if lim.version == ProtocolVersion::Resp2 {
            Err(
                ErrorView::InvalidEncoding(
                    "RESP3-only prefix 0x"@ + ascii_chars(hex(p as nat, 2))
                        + " on RESP2 connection"@,
                ),
            )
        } else if p == PREFIX_MAP {
            match number_line(rest) {
                Err(e) => Err(e),
                Ok((n, used)) => match checked_count(n, lim.max_array, "map"@) {
                    Err(e) => Err(e),
                    Ok(count) => match pairs_at(rest.skip(used), lim, depth + 1, count as nat) {
                        Err(e) => Err(e),
                        Ok((pairs, more)) => Ok((FrameView::MapFrame(pairs), 1 + used + more)),
                    },
                },
            }
        } else if p == PREFIX_SET {
            match aggregate_at(rest, lim, depth, "set"@) {
                Ok((items, n)) => Ok((FrameView::SetFrame(items), 1 + n)),
                Err(e) => Err(e),
            }
        } else if p == PREFIX_PUSH {
            match aggregate_at(rest, lim, depth, "push"@) {
                Ok((items, n)) => Ok((FrameView::Push(items), 1 + n)),
                Err(e) => Err(e),
            }
        } else {
            match find_crlf(rest, 0) {
                None => Err(ErrorView::Incomplete),
                Some(i) => match scalar3(p, rest.take(i)) {
                    Ok(f) => Ok((f, 1 + i + 2)),
                    Err(e) => Err(e),
                },
            }
        }
    }
}

/// A RESP3 frame that is a single line: boolean, double, null or big number.
pub open spec fn scalar3(p: u8, line: Seq<u8>) -> Result<FrameView, ErrorView> {
    if p == PREFIX_BOOLEAN {
        if line =~= seq![116u8] {
            Ok(FrameView::Boolean(true))
        } else if line =~= seq![102u8] {
            Ok(FrameView::Boolean(false))
        } else {
            Err(ErrorView::InvalidEncoding("invalid boolean"@))
        }
    } else if p == PREFIX_DOUBLE {
        match utf8_text(line) {
            None => Err(ErrorView::InvalidEncoding("double not utf-8"@)),
            Some(t) => if is_double(line) {
                Ok(FrameView::Double(line))
            } else {
                Err(ErrorView::InvalidEncoding("bad double: "@ + t))
            },
        }
    } else if p == PREFIX_NULL {
        if line.len() == 0 {
            Ok(FrameView::Null)
        } else {
            Err(ErrorView::InvalidEncoding("null frame has no payload"@))
        }
    } else {
        match utf8_text(line) {
            None => Err(ErrorView::InvalidEncoding("big number not utf-8"@)),
            Some(t) => if is_big_number(line) {
                Ok(FrameView::BigNumber(t))
            } else {
                Err(ErrorView::InvalidEncoding("bad big number: "@ + t))
            },
        }
    }
}

// ---------------------------------------------------------------------------
// Decoder
// ---------------------------------------------------------------------------

/// Value of what a parsing step returned.
pub open spec fn frame_result(r: Result<(Frame, usize), ProtocolError>) -> FrameResult {
    match r {
        Ok((f, n)) => Ok((f@, n as int)),
        Err(e) => Err(e@),
    }
}

proof fn lemma_items_error(b: Seq<u8>, lim: Limits, depth: int, k: nat, n: nat)
    requires
        k <= n,
        items_at(b, lim, depth, k) is Err,
    ensures
        items_at(b, lim, depth, n) == items_at(b, lim, depth, k),
    decreases n,
{
    if k < n {
        lemma_items_error(b, lim, depth, k, (n - 1) as nat);
    }
}

proof fn lemma_pairs_error(b: Seq<u8>, lim: Limits, depth: int, k: nat, n: nat)
    requires
        k <= n,
        pairs_at(b, lim, depth, k) is Err,
    ensures
        pairs_at(b, lim, depth, n) == pairs_at(b, lim, depth, k),
    decreases n,
{
    if k < n {
        lemma_pairs_error(b, lim, depth, k, (n - 1) as nat);
    }
}

fn invalid(message: &str) -> (r: ProtocolError)
    ensures
        r@ == ErrorView::InvalidEncoding(message@),
{
    ProtocolError::InvalidEncoding(message.to_owned())
}

fn invalid_with(head: &str, tail: &str) -> (r: ProtocolError)
    ensures
        r@ == ErrorView::InvalidEncoding(head@ + tail@),
{
    let mut m: String = head.to_owned();
    m.append(tail);
    ProtocolError::InvalidEncoding(m)
}

fn invalid_byte(head: &str, b: u8, tail: &str) -> (r: ProtocolError)
    ensures
        r@ == ErrorView::InvalidEncoding(head@ + ascii_chars(hex(b as nat, 2)) + tail@),
{
    let mut m: String = head.to_owned();
    push_hex(&mut m, b as u64, 2);
    m.append(tail);
    ProtocolError::InvalidEncoding(m)
}

/// Whether `b` starts a frame under `version`.
pub fn is_known_prefix(b: u8, version: ProtocolVersion) -> (r: bool)
    ensures
        r == known_prefix(b, version),
{
    if b == PREFIX_SIMPLE || b == PREFIX_ERROR || b == PREFIX_INTEGER || b == PREFIX_BULK || b
        == PREFIX_ARRAY {
        true
    } else if b == PREFIX_MAP || b == PREFIX_SET || b == PREFIX_PUSH || b == PREFIX_BOOLEAN || b
        == PREFIX_DOUBLE || b == PREFIX_NULL || b == PREFIX_BIG_NUMBER {
        version == ProtocolVersion::Resp3
    } else {
        false
    }
}

/// Bytes of the inline `PING` at the start of `b`, if there is one: the word
/// in any letter case, ended by LF or CR LF.
pub open spec fn inline_ping(b: Seq<u8>) -> Option<int> {
    if b.len() < 5 || !spells(b.take(4), seq![112u8, 105u8, 110u8, 103u8]) {
        None
    } else if b[4] == 10 {
        Some(5)
    } else if b.len() >= 6 && b[4] == 13 && b[5] == 10 {
        Some(6)
    } else {
        None
    }
}

/// Matches the inline form of `PING` and counts the bytes that it takes.
pub fn match_inline_ping(buf: &[u8]) -> (r: Option<usize>)
    ensures
        inline_ping(buf@) == (match r {
            Some(n) => Some(n as int),
            None => None,
        }),
{
    if buf.len() < 5 {
        return None;
    }
    let head: &[u8] = slice_subrange(buf, 0, 4);
    proof {
        assert(head@ =~= buf@.take(4));
        assert([112u8, 105u8, 110u8, 103u8]@ =~= seq![112u8, 105u8, 110u8, 103u8]);
    }
    if !spells_word(head, &[112u8, 105u8, 110u8, 103u8]) {
        return None;
    }
    if buf[4] == 10 {
        return Some(5);
    }
    if buf.len() >= 6 && buf[4] == 13 && buf[5] == 10 {
        return Some(6);
    }
    None
}

/// Reads up to the next CR LF: the line without it, and the bytes with it.
pub fn read_line(buf: &[u8]) -> (r: Result<(&[u8], usize), ProtocolError>)
    ensures
        match find_crlf(buf@, 0) {
            Some(i) => r is Ok && r->Ok_0.0@ == buf@.take(i) && r->Ok_0.1 == i + 2 && i + 2
                <= buf@.len(),
            None => r is Err && r->Err_0@ is Incomplete,
        },
{
    let n: usize = buf.len();
    let mut i: usize = 0;
    while i < n && n - i > 1
        invariant
            n == buf@.len(),
            i <= n,
            find_crlf(buf@, 0) == find_crlf(buf@, i as int),
        decreases n - i,
    {
        if buf[i] == 13 && buf[i + 1] == 10 {
            let line: &[u8] = slice_subrange(buf, 0, i);
            assert(line@ =~= buf@.take(i as int));
            return Ok((line, i + 2));
        }
        i = i + 1;
    }
    Err(ProtocolError::Incomplete)
}

/// Reads a signed decimal integer of 64 bits.
pub fn parse_i64(buf: &[u8]) -> (r: Result<i64, ProtocolError>)
    ensures
        line_number(buf@) == (match r {
            Ok(v) => Ok::<int, ErrorView>(v as int),
            Err(e) => Err(e@),
        }),
{
    match string_from_utf8(buf) {
        None => Err(invalid("integer not utf-8")),
        Some(text) => match parse_signed(buf) {
            Some(v) => Ok(v),
            None => Err(invalid_with("bad integer: ", text.as_str())),
        },
    }
}

fn read_number(buf: &[u8]) -> (r: Result<(i64, usize), ProtocolError>)
    ensures
        number_line(buf@) == (match r {
            Ok((v, n)) => Ok::<(int, int), ErrorView>((v as int, n as int)),
            Err(e) => Err(e@),
        }),
        r matches Ok((_, n)) ==> n <= buf@.len(),
{
    match read_line(buf) {
        Err(e) => Err(e),
        Ok((line, used)) => match parse_i64(line) {
            Ok(v) => Ok((v, used)),
            Err(e) => Err(e),
        },
    }
}

fn read_text(buf: &[u8], what: &str) -> (r: Result<(String, usize), ProtocolError>)
    ensures
        text_line(buf@, what@) == (match r {
            Ok((t, n)) => Ok::<(Seq<char>, int), ErrorView>((t@, n as int)),
            Err(e) => Err(e@),
        }),
        r matches Ok((_, n)) ==> n <= buf@.len(),
{
    match read_line(buf) {
        Err(e) => Err(e),
        Ok((line, used)) => match string_from_utf8(line) {
            Some(t) => Ok((t, used)),
            None => Err(invalid_with(what, " not utf-8")),
        },
    }
}

fn parse_bulk(buf: &[u8], max_bulk: u64) -> (r: Result<(Frame, usize), ProtocolError>)
    ensures
        frame_result(r) == bulk_at(buf@, max_bulk as int),
        r matches Ok((_, n)) ==> n <= buf@.len(),
{
    let (len, used): (i64, usize) = match read_number(buf) {
        Ok(x) => x,
        Err(e) => return Err(e),
    };
    if len == -1 {
        return Ok((Frame::Bulk(BulkString::null()), used));
    }
    if len < 0 {
        let mut m: String = "negative bulk length ".to_owned();
        push_signed_decimal(&mut m, len);
        return Err(ProtocolError::InvalidEncoding(m));
    }
    let size: u64 = len as u64;
    if size > max_bulk {
        return Err(ProtocolError::BulkTooLarge { size, max: max_bulk });
    }
    if size > usize::MAX as u64 {
        return Err(invalid("bulk length exceeds usize"));
    }
    let size: usize = size as usize;
    if size > usize::MAX - 2 {
        return Err(invalid("bulk length overflow"));
    }
    if buf.len() - used < size + 2 {
        return Err(ProtocolError::Incomplete);
    }
    if buf[used + size] != 13 || buf[used + size + 1] != 10 {
        return Err(invalid("bulk missing trailing CRLF"));
    }
    let payload: &[u8] = slice_subrange(buf, used, used + size);
    Ok((Frame::Bulk(BulkString::from_bytes(bytes_from_slice(payload))), used + size + 2))
}

fn parse_count(n: i64, max_array: u64, what: &str) -> (r: Result<usize, ProtocolError>)
    ensures
        checked_count(n as int, max_array as int, what@) == (match r {
            Ok(c) => Ok::<int, ErrorView>(c as int),
            Err(e) => Err(e@),
        }),
{
    if n < 0 {
        let mut m: String = "negative ".to_owned();
        m.append(what);
        m.append(" length ");
        push_signed_decimal(&mut m, n);
        return Err(ProtocolError::InvalidEncoding(m));
    }
    let count: u64 = n as u64;
    if count > max_array {
        return Err(ProtocolError::ArrayTooLarge { len: count, max: max_array });
    }
    if count > usize::MAX as u64 {
        return Err(invalid_with(what, " length exceeds usize"));
    }
    Ok(count as usize)
}

fn big_number_literal(s: &[u8]) -> (r: bool)
    ensures
        r == is_big_number(s@),
{
    let n: usize = s.len();
    let mut i: usize = 0;
    while i < n
        invariant
            n == s@.len(),
            i <= n,
            forall|j: int|
                0 <= j < i ==> is_digit(#[trigger] s@[j]) || (j == 0 && (s@[j] == 43 || s@[j]
                    == 45)),
        decreases n - i,
    {
        let c: u8 = s[i];
        if !(48 <= c && c <= 57) && !(i == 0 && (c == 43 || c == 45)) {
            assert(!is_digit(s@[i as int]));
            return false;
        }
        i = i + 1;
    }
    n > 0
}

fn parse_scalar3(p: u8, line: &[u8]) -> (r: Result<Frame, ProtocolError>)
    ensures
        scalar3(p, line@) == (match r {
            Ok(f) => Ok::<FrameView, ErrorView>(f@),
            Err(e) => Err(e@),
        }),
{
    if p == PREFIX_BOOLEAN {
        if line.len() == 1 && line[0] == 116 {
            assert(line@ =~= seq![116u8]);
            Ok(Frame::Boolean(true))
        } else if line.len() == 1 && line[0] == 102 {
            assert(line@ =~= seq![102u8]);
            assert(line@[0] != 116);
            Ok(Frame::Boolean(false))
        } else {
            Err(invalid("invalid boolean"))
        }
    } else if p == PREFIX_DOUBLE {
        match string_from_utf8(line) {
            None => Err(invalid("double not utf-8")),
            Some(t) => match DoubleText::parse(line) {
                Some(d) => Ok(Frame::Double(d)),
                None => Err(invalid_with("bad double: ", t.as_str())),
            },
        }
    } else if p == PREFIX_NULL {
        if line.len() == 0 {
            Ok(Frame::Null)
        } else {
            Err(invalid("null frame has no payload"))
        }
    } else {
        match string_from_utf8(line) {
            None => Err(invalid("big number not utf-8")),
            Some(t) => if big_number_literal(line) {
                Ok(Frame::BigNumber(t))
            } else {
                Err(invalid_with("bad big number: ", t.as_str()))
            },
        }
    }
}

impl RespCodec {
    fn parse_items(&self, buf: &[u8], depth: usize, count: usize) -> (r: Result<
        (Vec<Frame>, usize),
        ProtocolError,
    >)
        requires
            depth <= MAX_DEPTH + 1,
        ensures
            items_at(buf@, self@, depth as int, count as nat) == (match r {
                Ok((v, n)) => Ok::<(Seq<FrameView>, int), ErrorView>((frames_view(v@), n as int)),
                Err(e) => Err(e@),
            }),
            r matches Ok((_, n)) ==> n <= buf@.len(),
        decreases MAX_DEPTH + 2 - depth, 3int,
    {
        let mut items: Vec<Frame> = Vec::new();
        let mut used: usize = 0;
        let mut i: usize = 0;
        assert(frames_view(items@) =~= Seq::<FrameView>::empty());
        while i < count
            invariant
                depth <= MAX_DEPTH + 1,
                i <= count,
                used <= buf@.len(),
                items_at(buf@, self@, depth as int, i as nat) == Ok::<
                    (Seq<FrameView>, int),
                    ErrorView,
                >((frames_view(items@), used as int)),
            decreases count - i,
        {
            let rest: &[u8] = slice_subrange(buf, used, buf.len());
            assert(rest@ =~= buf@.skip(used as int));
            match self.parse_frame(rest, depth) {
                Ok((f, more)) => {
                    proof {
                        lemma_frames_view_push(items@, f);
                    }
                    items.push(f);
                    used = used + more;
                },
                Err(e) => {
                    proof {
                        lemma_items_error(
                            buf@,
                            self@,
                            depth as int,
                            (i + 1) as nat,
                            count as nat,
                        );
                    }
                    return Err(e);
                },
            }
            i = i + 1;
        }
        Ok((items, used))
    }

    fn parse_pairs(&self, buf: &[u8], depth: usize, count: usize) -> (r: Result<
        (Vec<(Frame, Frame)>, usize),
        ProtocolError,
    >)
        requires
            depth <= MAX_DEPTH + 1,
        ensures
            pairs_at(buf@, self@, depth as int, count as nat) == (match r {
                Ok((v, n)) => Ok::<(Seq<(FrameView, FrameView)>, int), ErrorView>(
                    (pairs_view(v@), n as int),
                ),
                Err(e) => Err(e@),
            }),
            r matches Ok((_, n)) ==> n <= buf@.len(),
        decreases MAX_DEPTH + 2 - depth, 3int,
    {
        let mut pairs: Vec<(Frame, Frame)> = Vec::new();
        let mut used: usize = 0;
        let mut i: usize = 0;
        assert(pairs_view(pairs@) =~= Seq::<(FrameView, FrameView)>::empty());
        while i < count
            invariant
                depth <= MAX_DEPTH + 1,
                i <= count,
                used <= buf@.len(),
                pairs_at(buf@, self@, depth as int, i as nat) == Ok::<
                    (Seq<(FrameView, FrameView)>, int),
                    ErrorView,
                >((pairs_view(pairs@), used as int)),
            decreases count - i,
        {
            let rest: &[u8] = slice_subrange(buf, used, buf.len());
            assert(rest@ =~= buf@.skip(used as int));
            let (k, used_k): (Frame, usize) = match self.parse_frame(rest, depth) {
                Ok(x) => x,
                Err(e) => {
                    proof {
                        lemma_pairs_error(
                            buf@,
                            self@,
                            depth as int,
                            (i + 1) as nat,
                            count as nat,
                        );
                    }
                    return Err(e);
                },
            };
            let rest: &[u8] = slice_subrange(buf, used + used_k, buf.len());
            assert(rest@ =~= buf@.skip(used + used_k));
            let (v, used_v): (Frame, usize) = match self.parse_frame(rest, depth) {
                Ok(x) => x,
                Err(e) => {
                    proof {
                        lemma_pairs_error(
                            buf@,
                            self@,
                            depth as int,
                            (i + 1) as nat,
                            count as nat,
                        );
                    }
                    return Err(e);
                },
            };
            proof {
                lemma_pairs_view_push(pairs@, k, v);
            }
            pairs.push((k, v));
            used = used + used_k + used_v;
            i = i + 1;
        }
        Ok((pairs, used))
    }

    fn parse_aggregate(&self, buf: &[u8], depth: usize, what: &str) -> (r: Result<
        (Vec<Frame>, usize),
        ProtocolError,
    >)
        requires
            depth <= MAX_DEPTH,
        ensures
            aggregate_at(buf@, self@, depth as int, what@) == (match r {
                Ok((v, n)) => Ok::<(Seq<FrameView>, int), ErrorView>((frames_view(v@), n as int)),
                Err(e) => Err(e@),
            }),
            r matches Ok((_, n)) ==> n <= buf@.len(),
        decreases MAX_DEPTH + 2 - depth, 0int,
    {
        let (n, used): (i64, usize) = match read_number(buf) {
            Ok(x) => x,
            Err(e) => return Err(e),
        };
        let count: usize = match parse_count(n, self.max_array_len, what) {
            Ok(c) => c,
            Err(e) => return Err(e),
        };
        let rest: &[u8] = slice_subrange(buf, used, buf.len());
        assert(rest@ =~= buf@.skip(used as int));
        match self.parse_items(rest, depth + 1, count) {
            Ok((items, more)) => Ok((items, used + more)),
            Err(e) => Err(e),
        }
    }

    fn parse_map(&self, buf: &[u8], depth: usize) -> (r: Result<(Frame, usize), ProtocolError>)
        requires
            depth <= MAX_DEPTH,
        ensures
            frame_result(r) == (match number_line(buf@) {
                Err(e) => Err::<(FrameView, int), ErrorView>(e),
                Ok((n, used)) => match checked_count(n, self@.max_array, "map"@) {
                    Err(e) => Err(e),
                    Ok(count) => match pairs_at(
                        buf@.skip(used),
                        self@,
                        depth + 1,
                        count as nat,
                    ) {
                        Err(e) => Err(e),
                        Ok((pairs, more)) => Ok((FrameView::MapFrame(pairs), used + more)),
                    },
                },
            }),
            r matches Ok((_, n)) ==> n <= buf@.len(),
        decreases MAX_DEPTH + 2 - depth, 0int,
    {
        let (n, used): (i64, usize) = match read_number(buf) {
            Ok(x) => x,
            Err(e) => return Err(e),
        };
        let count: usize = match parse_count(n, self.max_array_len, "map") {
            Ok(c) => c,
            Err(e) => return Err(e),
        };
        let rest: &[u8] = slice_subrange(buf, used, buf.len());
        assert(rest@ =~= buf@.skip(used as int));
        match self.parse_pairs(rest, depth + 1, count) {
            Ok((pairs, more)) => Ok((Frame::MapFrame(pairs), used + more)),
            Err(e) => Err(e),
        }
    }

    fn parse_array(&self, buf: &[u8], depth: usize) -> (r: Result<(Frame, usize), ProtocolError>)
        requires
            depth <= MAX_DEPTH,
        ensures
            frame_result(r) == (if number_line(buf@) matches Ok((v, n)) && v == -1 {
                Ok::<(FrameView, int), ErrorView>(
                    (FrameView::Array(None), number_line(buf@)->Ok_0.1),
                )
            } else {
                match aggregate_at(buf@, self@, depth as int, "array"@) {
                    Ok((items, n)) => Ok((FrameView::Array(Some(items)), n)),
                    Err(e) => Err(e),
                }
            }),
            r matches Ok((_, n)) ==> n <= buf@.len(),
        decreases MAX_DEPTH + 2 - depth, 1int,
    {
        if let Ok((n, used)) = read_number(buf) {
            if n == -1 {
                return Ok((Frame::Array(None), used));
            }
        }
        match self.parse_aggregate(buf, depth, "array") {
            Ok((items, n)) => Ok((Frame::Array(Some(items)), n)),
            Err(e) => Err(e),
        }
    }

    /// Parses the frame at the start of `buf`.
    fn parse_frame(&self, buf: &[u8], depth: usize) -> (r: Result<(Frame, usize), ProtocolError>)
        requires
            depth <= MAX_DEPTH + 1,
        ensures
            frame_result(r) == frame_at(buf@, self@, depth as int),
            r matches Ok((_, n)) ==> n <= buf@.len(),
        decreases MAX_DEPTH + 2 - depth, 2int,
    {
        if depth > MAX_DEPTH {
            let mut m: String = "nesting deeper than ".to_owned();
            push_decimal(&mut m, MAX_DEPTH as u64);
            return Err(ProtocolError::InvalidEncoding(m));
        }
        if buf.len() == 0 {
            return Err(ProtocolError::Incomplete);
        }
        let p: u8 = buf[0];
        let rest: &[u8] = slice_subrange(buf, 1, buf.len());
        assert(rest@ =~= buf@.skip(1));
        if p == PREFIX_SIMPLE {
            match read_text(rest, "simple string") {
                Ok((t, n)) => Ok((Frame::SimpleString(t), 1 + n)),
                Err(e) => Err(e),
            }
        } else if p == PREFIX_ERROR {
            match read_text(rest, "error") {
                Ok((t, n)) => Ok((Frame::Error(t), 1 + n)),
                Err(e) => Err(e),
            }
        } else if p == PREFIX_INTEGER {
            match read_number(rest) {
                Ok((v, n)) => Ok((Frame::Integer(v), 1 + n)),
                Err(e) => Err(e),
            }
        } else if p == PREFIX_BULK {
            match parse_bulk(rest, self.max_bulk_size) {
                Ok((f, n)) => Ok((f, 1 + n)),
                Err(e) => Err(e),
            }
        } else if p == PREFIX_ARRAY {
            match self.parse_array(rest, depth) {
                Ok((f, n)) => Ok((f, 1 + n)),
                Err(e) => Err(e),
            }
        } else if !is_known_prefix(p, ProtocolVersion::Resp3) {
            let e: ProtocolError = invalid_byte("unknown prefix 0x", p, "");
            proof {
                reveal_strlit("");
                assert(e@ == ErrorView::InvalidEncoding(
                    "unknown prefix 0x"@ + ascii_chars(hex(p as nat, 2)),
                )) by {
                    let m = "unknown prefix 0x"@ + ascii_chars(hex(p as nat, 2));
                    assert(m + ""@ =~= m);
                }
            }
            Err(e)
        } else if self.version == ProtocolVersion::Resp2 {
            Err(invalid_byte("RESP3-only prefix 0x", p, " on RESP2 connection"))
        } else if p == PREFIX_MAP {
            match self.parse_map(rest, depth) {
                Ok((f, n)) => Ok((f, 1 + n)),
                Err(e) => Err(e),
            }
        } else if p == PREFIX_SET {
            match self.parse_aggregate(rest, depth, "set") {
                Ok((items, n)) => Ok((Frame::SetFrame(items), 1 + n)),
                Err(e) => Err(e),
            }
        } else if p == PREFIX_PUSH {
            match self.parse_aggregate(rest, depth, "push") {
                Ok((items, n)) => Ok((Frame::Push(items), 1 + n)),
                Err(e) => Err(e),
            }
        } else {
            match read_line(rest) {
                Err(e) => Err(e),
                Ok((line, n)) => match parse_scalar3(p, line) {
                    Ok(f) => Ok((f, 1 + n)),
                    Err(e) => Err(e),
                },
            }
        }
    }
}

/// What one decoding step does with the pending bytes.
pub ghost enum Decoded {
    /// No complete frame yet.
    Nothing,
    /// A frame, and how many bytes it took.
    Frame(FrameView, int),
    /// The bytes are not acceptable.
    Refused(ErrorView),
}

/// The decoding step on pending bytes `b`.
pub open spec fn decode_step(b: Seq<u8>, lim: Limits) -> Decoded {
    if b.len() == 0 {
        Decoded::Nothing
    } else if inline_ping(b) is Some {
        Decoded::Frame(
            FrameView::Array(Some(seq![FrameView::Bulk(Some(encode_utf8("PING"@)))])),
            inline_ping(b)->0,
        )
    } else if !known_prefix(b[0], lim.version) {
        if 65 <= b[0] <= 90 || 97 <= b[0] <= 122 {
            Decoded::Refused(ErrorView::InlineCommandRejected("only PING is accepted inline"@))
        } else {
            Decoded::Refused(
                ErrorView::InvalidEncoding(
                    "unexpected leading byte 0x"@ + ascii_chars(hex(b[0] as nat, 2)),
                ),
            )
        }
    } else {
        match frame_at(b, lim, 0) {
            Ok((f, n)) => Decoded::Frame(f, n),
            Err(ErrorView::Incomplete) => Decoded::Nothing,
            Err(e) => Decoded::Refused(e),
        }
    }
}

impl RespCodec {
    /// A fresh codec: `Resp2`, default limits.
    pub fn new() -> (r: Self)
        ensures
            r@ == (Limits {
                version: ProtocolVersion::Resp2,
                max_bulk: DEFAULT_MAX_BULK_SIZE as int,
                max_array: DEFAULT_MAX_ARRAY_LEN as int,
            }),
    {
        RespCodec {
            version: ProtocolVersion::Resp2,
            max_bulk_size: DEFAULT_MAX_BULK_SIZE,
            max_array_len: DEFAULT_MAX_ARRAY_LEN,
        }
    }

    /// The negotiated protocol version.
    pub fn version(&self) -> (r: ProtocolVersion)
        ensures
            r == self@.version,
    {
        self.version
    }

    /// Switches to RESP3, after a successful `HELLO 3`.
    pub fn upgrade_to_resp3(&mut self)
        ensures
            final(self)@ == (Limits { version: ProtocolVersion::Resp3, ..old(self)@ }),
    {
        self.version = ProtocolVersion::Resp3;
    }

    /// Sets the largest bulk string that is accepted.
    pub fn set_max_bulk_size(&mut self, bytes: u64)
        ensures
            final(self)@ == (Limits { max_bulk: bytes as int, ..old(self)@ }),
    {
        self.max_bulk_size = bytes;
    }

    /// Sets the longest array that is accepted.
    pub fn set_max_array_len(&mut self, len: u64)
        ensures
            final(self)@ == (Limits { max_array: len as int, ..old(self)@ }),
    {
        self.max_array_len = len;
    }

    /// Takes the next frame off the pending bytes. `Ok(None)` asks for more
    /// bytes; then, and on an error, the pending bytes stay as they are.
    pub fn decode(&mut self, src: &mut BytesMut) -> (r: Result<Option<Frame>, ProtocolError>)
        ensures
            final(self)@ == old(self)@,
            match decode_step(pending_of(*old(src)), old(self)@) {
                Decoded::Nothing => r == Ok::<Option<Frame>, ProtocolError>(None) && pending_of(
                    *final(src),
                ) == pending_of(*old(src)),
                Decoded::Frame(f, n) => {
                    &&& r is Ok && r->Ok_0 is Some && r->Ok_0->0@ == f
                    &&& pending_of(*final(src)) == pending_of(*old(src)).skip(n)
                },
                Decoded::Refused(e) => r is Err && r->Err_0@ == e && pending_of(*final(src))
                    == pending_of(*old(src)),
            },
    {
        let buf: &[u8] = pending_slice(src);
        if buf.len() == 0 {
            return Ok(None);
        }
        if let Some(n) = match_inline_ping(buf) {
            pending_advance(src, n);
            let mut items: Vec<Frame> = Vec::new();
            items.push(Frame::Bulk(BulkString::from("PING")));
            let f: Frame = Frame::Array(Some(items));
            assert(frames_view(items@) =~= seq![FrameView::Bulk(Some(encode_utf8("PING"@)))]);
            return Ok(Some(f));
        }
        let first: u8 = buf[0];
        if !is_known_prefix(first, self.version) {
            if (65 <= first && first <= 90) || (97 <= first && first <= 122) {
                return Err(ProtocolError::InlineCommandRejected("only PING is accepted inline"));
            }
            let mut m: String = "unexpected leading byte 0x".to_owned();
            push_hex(&mut m, first as u64, 2);
            return Err(ProtocolError::InvalidEncoding(m));
        }
        match self.parse_frame(buf, 0) {
            Ok((frame, used)) => {
                pending_advance(src, used);
                Ok(Some(frame))
            },
            Err(ProtocolError::Incomplete) => Ok(None),
            Err(e) => Err(e),
        }
    }
}

impl Default for RespCodec {
    fn default() -> (r: Self)
        ensures
            r@ == (Limits {
                version: ProtocolVersion::Resp2,
                max_bulk: DEFAULT_MAX_BULK_SIZE as int,
                max_array: DEFAULT_MAX_ARRAY_LEN as int,
            }),
    {
        RespCodec::new()
    }
}

// ---------------------------------------------------------------------------
// Encoder
// ---------------------------------------------------------------------------

/// What encoding does: the bytes that it writes, and the error that stopped
/// it, if one did.
pub ghost struct Emitted {
    pub bytes: Seq<u8>,
    pub stopped: Option<ErrorView>,
}

/// Name of a frame's kind.
pub open spec fn kind_name(f: FrameView) -> Seq<char> {
    match f {
        FrameView::SimpleString(_) => "SimpleString"@,
        FrameView::Error(_) => "Error"@,
        FrameView::Integer(_) => "Integer"@,
        FrameView::Bulk(_) => "Bulk"@,
        FrameView::Array(_) => "Array"@,
        FrameView::MapFrame(_) => "Map"@,
        FrameView::SetFrame(_) => "Set"@,
        FrameView::Push(_) => "Push"@,
        FrameView::Boolean(_) => "Boolean"@,
        FrameView::Double(_) => "Double"@,
        FrameView::Null => "Null"@,
        FrameView::BigNumber(_) => "BigNumber"@,
    }
}

/// Whether a byte string holds a CR or an LF.
pub open spec fn breaks_line(b: Seq<u8>) -> bool {
    exists|i: int| 0 <= i < b.len() && (#[trigger] b[i] == 13 || b[i] == 10)
}

/// A line: prefix, text, CR LF.
pub open spec fn line(prefix: u8, text: Seq<u8>) -> Seq<u8> {
    seq![prefix] + text + seq![13u8, 10u8]
}

/// What encoding the first `n` frames of a list does.
pub open spec fn emit_items(s: Seq<FrameView>, n: nat, version: ProtocolVersion) -> Emitted
    decreases s, n + 1,
{
    if n == 0 || n > s.len() {
        Emitted { bytes: Seq::empty(), stopped: None }
    } else {
        let before = emit_items(s, (n - 1) as nat, version);
        if before.stopped is Some {
            before
        } else {
            let last = emit(s[n - 1], version);
            Emitted { bytes: before.bytes + last.bytes, stopped: last.stopped }
        }
    }
}

/// What encoding the first `n` pairs of a list does.
pub open spec fn emit_pairs(
    s: Seq<(FrameView, FrameView)>,
    n: nat,
    version: ProtocolVersion,
) -> Emitted
    decreases s, n + 1,
{
    if n == 0 || n > s.len() {
        Emitted { bytes: Seq::empty(), stopped: None }
    } else {
        let before = emit_pairs(s, (n - 1) as nat, version);
        if before.stopped is Some {
            before
        } else {
            let k = emit(s[n - 1].0, version);
            if k.stopped is Some {
                Emitted { bytes: before.bytes + k.bytes, stopped: k.stopped }
            } else {
                let v = emit(s[n - 1].1, version);
                Emitted { bytes: before.bytes + k.bytes + v.bytes, stopped: v.stopped }
            }
        }
    }
}

/// `rest` behind a line that is always written.
pub open spec fn after(head: Seq<u8>, rest: Emitted) -> Emitted {
    Emitted { bytes: head + rest.bytes, stopped: rest.stopped }
}

/// What encoding `f` on a connection of `version` does.
pub open spec fn emit(f: FrameView, version: ProtocolVersion) -> Emitted
    decreases f, 0nat,
{
    if version == ProtocolVersion::Resp2 && resp3_only(f) {
        Emitted {
            bytes: Seq::empty(),
            stopped: Some(ErrorView::Resp3Required(kind_name(f))),
        }
    } else {
        match f {
            FrameView::SimpleString(s) => if breaks_line(encode_utf8(s)) {
                Emitted {
                    bytes: Seq::empty(),
                    stopped: Some(ErrorView::InvalidEncoding("simple string contains CR/LF"@)),
                }
            } else {
                Emitted { bytes: line(PREFIX_SIMPLE, encode_utf8(s)), stopped: None }
            },
            FrameView::Error(s) => if breaks_line(encode_utf8(s)) {
                Emitted {
                    bytes: Seq::empty(),
                    stopped: Some(ErrorView::InvalidEncoding("error string contains CR/LF"@)),
                }
            } else {
                Emitted { bytes: line(PREFIX_ERROR, encode_utf8(s)), stopped: None }
            },
            FrameView::Integer(n) => Emitted {
                bytes: line(PREFIX_INTEGER, signed_decimal(n)),
                stopped: None,
            },
            FrameView::Bulk(None) => Emitted {
                bytes: line(PREFIX_BULK, seq![45u8, 49u8]),
                stopped: None,
            },
            FrameView::Bulk(Some(b)) => Emitted {
                bytes: line(PREFIX_BULK, decimal(b.len())) + b + seq![13u8, 10u8],
                stopped: None,
            },
            FrameView::Array(None) => Emitted {
                bytes: line(PREFIX_ARRAY, seq![45u8, 49u8]),
                stopped: None,
            },
            FrameView::Array(Some(items)) => after(
                line(PREFIX_ARRAY, decimal(items.len())),
                emit_items(items, items.len(), version),
            ),
            FrameView::MapFrame(pairs) => after(
                line(PREFIX_MAP, decimal(pairs.len())),
                emit_pairs(pairs, pairs.len(), version),
            ),
            FrameView::SetFrame(items) => after(
                line(PREFIX_SET, decimal(items.len())),
                emit_items(items, items.len(), version),
            ),
            FrameView::Push(items) => after(
                line(PREFIX_PUSH, decimal(items.len())),
                emit_items(items, items.len(), version),
            ),
            FrameView::Boolean(b) => Emitted {
                bytes: line(
                    PREFIX_BOOLEAN,
                    seq![
                        if b {
                            116u8
                        } else {
                            102u8
                        },
                    ],
                ),
                stopped: None,
            },
            FrameView::Double(d) => Emitted { bytes: line(PREFIX_DOUBLE, d), stopped: None },
            FrameView::Null => Emitted { bytes: line(PREFIX_NULL, Seq::empty()), stopped: None },
            FrameView::BigNumber(s) => Emitted {
                bytes: line(PREFIX_BIG_NUMBER, encode_utf8(s)),
                stopped: None,
            },
        }
    }
}

fn has_line_break(b: &[u8]) -> (r: bool)
    ensures
        r == breaks_line(b@),
{
    let mut i: usize = 0;
    while i < b.len()
        invariant
            i <= b@.len(),
            forall|j: int| 0 <= j < i ==> #[trigger] b@[j] != 13 && b@[j] != 10,
        decreases b@.len() - i,
    {
        if b[i] == 13 || b[i] == 10 {
            return true;
        }
        i = i + 1;
    }
    false
}

fn put_line(dst: &mut BytesMut, prefix: u8, text: &[u8])
    ensures
        pending_of(*final(dst)) == pending_of(*old(dst)) + line(prefix, text@),
{
    let head: [u8; 1] = [prefix];
    let end: [u8; 2] = [13, 10];
    pending_extend(dst, &head);
    pending_extend(dst, text);
    pending_extend(dst, &end);
    proof {
        assert(head@ =~= seq![prefix]);
        assert(end@ =~= seq![13u8, 10u8]);
        assert(pending_of(*dst) =~= pending_of(*old(dst)) + line(prefix, text@));
    }
}

fn frame_kind(f: &Frame) -> (r: &'static str)
    ensures
        r@ == kind_name(f@),
{
    match f {
        Frame::SimpleString(_) => "SimpleString",
        Frame::Error(_) => "Error",
        Frame::Integer(_) => "Integer",
        Frame::Bulk(_) => "Bulk",
        Frame::Array(_) => "Array",
        Frame::MapFrame(_) => "Map",
        Frame::SetFrame(_) => "Set",
        Frame::Push(_) => "Push",
        Frame::Boolean(_) => "Boolean",
        Frame::Double(_) => "Double",
        Frame::Null => "Null",
        Frame::BigNumber(_) => "BigNumber",
    }
}

/// Value of what encoding returned.
pub open spec fn stop_of(r: Result<(), ProtocolError>) -> Option<ErrorView> {
    match r {
        Ok(_) => None,
        Err(e) => Some(e@),
    }
}

proof fn lemma_emit_items_stopped(s: Seq<FrameView>, k: nat, n: nat, version: ProtocolVersion)
    requires
        k <= n <= s.len(),
        emit_items(s, k, version).stopped is Some,
    ensures
        emit_items(s, n, version) == emit_items(s, k, version),
    decreases n,
{
    if k < n {
        lemma_emit_items_stopped(s, k, (n - 1) as nat, version);
    }
}

proof fn lemma_emit_pairs_stopped(
    s: Seq<(FrameView, FrameView)>,
    k: nat,
    n: nat,
    version: ProtocolVersion,
)
    requires
        k <= n <= s.len(),
        emit_pairs(s, k, version).stopped is Some,
    ensures
        emit_pairs(s, n, version) == emit_pairs(s, k, version),
    decreases n,
{
    if k < n {
        lemma_emit_pairs_stopped(s, k, (n - 1) as nat, version);
    }
}

fn encode_items(items: &Vec<Frame>, version: ProtocolVersion, dst: &mut BytesMut) -> (r: Result<
    (),
    ProtocolError,
>)
    ensures
        ({
            let e = emit_items(frames_view(items@), items@.len(), version);
            &&& pending_of(*final(dst)) == pending_of(*old(dst)) + e.bytes
            &&& stop_of(r) == e.stopped
        }),
    decreases items,
{
    let ghost views = frames_view(items@);
    let mut i: usize = 0;
    assert(pending_of(*dst) + Seq::<u8>::empty() =~= pending_of(*dst));
    while i < items.len()
        invariant
            i <= items@.len(),
            views == frames_view(items@),
            emit_items(views, i as nat, version).stopped is None,
            pending_of(*dst) == pending_of(*old(dst)) + emit_items(views, i as nat, version).bytes,
        decreases items@.len() - i,
    {
        assert(decreases_to!(items => items@[i as int]));
        let ghost before = pending_of(*dst);
        let step: Result<(), ProtocolError> = encode_frame(&items[i], version, dst);
        proof {
            assert(views[i as int] == items@[i as int]@);
            assert(pending_of(*dst) =~= pending_of(*old(dst)) + emit_items(
                views,
                (i + 1) as nat,
                version,
            ).bytes);
        }
        if step.is_err() {
            proof {
                lemma_emit_items_stopped(views, (i + 1) as nat, items@.len(), version);
            }
            return step;
        }
        i = i + 1;
    }
    Ok(())
}

fn encode_pairs(pairs: &Vec<(Frame, Frame)>, version: ProtocolVersion, dst: &mut BytesMut) -> (r:
    Result<(), ProtocolError>)
    ensures
        ({
            let e = emit_pairs(pairs_view(pairs@), pairs@.len(), version);
            &&& pending_of(*final(dst)) == pending_of(*old(dst)) + e.bytes
            &&& stop_of(r) == e.stopped
        }),
    decreases pairs,
{
    let ghost views = pairs_view(pairs@);
    let mut i: usize = 0;
    assert(pending_of(*dst) + Seq::<u8>::empty() =~= pending_of(*dst));
    while i < pairs.len()
        invariant
            i <= pairs@.len(),
            views == pairs_view(pairs@),
            emit_pairs(views, i as nat, version).stopped is None,
            pending_of(*dst) == pending_of(*old(dst)) + emit_pairs(views, i as nat, version).bytes,
        decreases pairs@.len() - i,
    {
        assert(decreases_to!(pairs => pairs@[i as int]));
        let step: Result<(), ProtocolError> = encode_frame(&pairs[i].0, version, dst);
        assert(views[i as int] == (pairs@[i as int].0@, pairs@[i as int].1@));
        if step.is_err() {
            proof {
                assert(pending_of(*dst) =~= pending_of(*old(dst)) + emit_pairs(
                    views,
                    (i + 1) as nat,
                    version,
                ).bytes);
                lemma_emit_pairs_stopped(views, (i + 1) as nat, pairs@.len(), version);
            }
            return step;
        }
        let step: Result<(), ProtocolError> = encode_frame(&pairs[i].1, version, dst);
        assert(pending_of(*dst) =~= pending_of(*old(dst)) + emit_pairs(
            views,
            (i + 1) as nat,
            version,
        ).bytes);
        if step.is_err() {
            proof {
                lemma_emit_pairs_stopped(views, (i + 1) as nat, pairs@.len(), version);
            }
            return step;
        }
        i = i + 1;
    }
    Ok(())
}

/// Appends the encoding of `frame`. On an error the bytes written before it
/// was met stay in `dst`.
fn encode_frame(frame: &Frame, version: ProtocolVersion, dst: &mut BytesMut) -> (r: Result<
    (),
    ProtocolError,
>)
    ensures
        pending_of(*final(dst)) == pending_of(*old(dst)) + emit(frame@, version).bytes,
        stop_of(r) == emit(frame@, version).stopped,
    decreases frame,
{
    let ghost before = pending_of(*dst);
    assert(before + Seq::<u8>::empty() =~= before);
    if version == ProtocolVersion::Resp2 && frame.requires_resp3() {
        return Err(ProtocolError::Resp3Required(frame_kind(frame)));
    }
    match frame {
        Frame::SimpleString(s) => {
            let b: &[u8] = s.as_str().as_bytes();
            if has_line_break(b) {
                return Err(invalid("simple string contains CR/LF"));
            }
            put_line(dst, PREFIX_SIMPLE, b);
            Ok(())
        },
        Frame::Error(s) => {
            let b: &[u8] = s.as_str().as_bytes();
            if has_line_break(b) {
                return Err(invalid("error string contains CR/LF"));
            }
            put_line(dst, PREFIX_ERROR, b);
            Ok(())
        },
        Frame::Integer(n) => {
            put_line(dst, PREFIX_INTEGER, signed_decimal_bytes(*n).as_slice());
            Ok(())
        },
        Frame::Bulk(BulkString(None)) => {
            let none: [u8; 2] = [45, 49];
            assert(none@ =~= seq![45u8, 49u8]);
            put_line(dst, PREFIX_BULK, &none);
            Ok(())
        },
        Frame::Bulk(BulkString(Some(b))) => {
            let payload: &[u8] = bytes_slice(b);
            let end: [u8; 2] = [13, 10];
            put_line(dst, PREFIX_BULK, decimal_bytes(payload.len() as u64).as_slice());
            pending_extend(dst, payload);
            pending_extend(dst, &end);
            proof {
                assert(end@ =~= seq![13u8, 10u8]);
                assert(pending_of(*dst) =~= before + emit(frame@, version).bytes);
            }
            Ok(())
        },
        Frame::Array(None) => {
            let none: [u8; 2] = [45, 49];
            assert(none@ =~= seq![45u8, 49u8]);
            put_line(dst, PREFIX_ARRAY, &none);
            Ok(())
        },
        Frame::Array(Some(items)) => {
            put_line(dst, PREFIX_ARRAY, decimal_bytes(items.len() as u64).as_slice());
            let r: Result<(), ProtocolError> = encode_items(items, version, dst);
            assert(pending_of(*dst) =~= before + emit(frame@, version).bytes);
            r
        },
        Frame::MapFrame(pairs) => {
            put_line(dst, PREFIX_MAP, decimal_bytes(pairs.len() as u64).as_slice());
            let r: Result<(), ProtocolError> = encode_pairs(pairs, version, dst);
            assert(pending_of(*dst) =~= before + emit(frame@, version).bytes);
            r
        },
        Frame::SetFrame(items) => {
            put_line(dst, PREFIX_SET, decimal_bytes(items.len() as u64).as_slice());
            let r: Result<(), ProtocolError> = encode_items(items, version, dst);
            assert(pending_of(*dst) =~= before + emit(frame@, version).bytes);
            r
        },
        Frame::Push(items) => {
            put_line(dst, PREFIX_PUSH, decimal_bytes(items.len() as u64).as_slice());
            let r: Result<(), ProtocolError> = encode_items(items, version, dst);
            assert(pending_of(*dst) =~= before + emit(frame@, version).bytes);
            r
        },
        Frame::Boolean(b) => {
            let text: [u8; 1] = if *b {
                [116]
            } else {
                [102]
            };
            assert(text@ =~= seq![
                if *b {
                    116u8
                } else {
                    102u8
                },
            ]);
            put_line(dst, PREFIX_BOOLEAN, &text);
            Ok(())
        },
        Frame::Double(d) => {
            put_line(dst, PREFIX_DOUBLE, d.as_bytes());
            Ok(())
        },
        Frame::Null => {
            let none: [u8; 0] = [];
            assert(none@ =~= Seq::<u8>::empty());
            put_line(dst, PREFIX_NULL, &none);
            Ok(())
        },
        Frame::BigNumber(s) => {
            put_line(dst, PREFIX_BIG_NUMBER, s.as_str().as_bytes());
            Ok(())
        },
    }
}

impl RespCodec {
    /// Appends the encoding of `frame` to `dst`. On an error the bytes written
    /// before it was met stay in `dst`.
    pub fn encode(&mut self, frame: &Frame, dst: &mut BytesMut) -> (r: Result<(), ProtocolError>)
        ensures
            final(self)@ == old(self)@,
            pending_of(*final(dst)) == pending_of(*old(dst)) + emit(
                frame@,
                old(self)@.version,
            ).bytes,
            stop_of(r) == emit(frame@, old(self)@.version).stopped,
    {
        encode_frame(frame, self.version, dst)
    }
}

} // verus!
