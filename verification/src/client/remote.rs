//! Maps on a server: what is sent for each operation, and what the answers mean.
//!
//! Where an answer is of no expected kind, the error quotes it; `shown` is the
//! answer as it is quoted. A request is known by a number of the caller's.

use std::collections::VecDeque;

use bytes::Bytes;
use vstd::prelude::*;
use vstd::string::*;
use vstd::utf8::*;

use crate::buffer::{bytes_from_slice, bytes_of};
use crate::client::cursor::{found_view, BufferedCursor, PairView, ScanOptions};
use crate::client::embedded::pattern_view;
use crate::client::error::{Error, ErrorView};
use crate::client::stats::{DMapStats, FigureView, Stats};
use crate::client::types::{options_fault, GetResponse, PutOptions, ResponseView};
use crate::protocol::command::{
    list_of, Command, CommandView, PutCommandOptions, ScanCommandOptions, ScanView,
};
use crate::protocol::double::DoubleText;
use crate::protocol::frame::{frames_view, Frame, FrameView};
use crate::protocol::hello::{HelloArgs, HelloView};
use crate::text::{
    bytes_to_vec, chars_of, checked_utf8, contains_text, find_char, holds_text,
    lemma_unsigned_numeral_nonneg, lower_text,
    parse_unsigned, position_of, starts_with, str_equal, str_from_utf8, string_from_utf8,
    strip_prefix, text_between, to_lower_text, unsigned_numeral, utf8_fault, utf8_text,
};

verus! {

/// Partitions that a client takes a cluster to have until it learns better.
pub const DEFAULT_PARTITION_COUNT: u32 = 271;

// ---------------------------------------------------------------------------
// Errors
// ---------------------------------------------------------------------------

/// Why a connection does not work.
#[derive(Debug, PartialEq, Eq)]
pub enum ConnError {
    /// It was closed.
    Closed(String),
    /// What came or went was not well-formed.
    Protocol(String),
    /// Reading or writing failed.
    Io(String),
}

/// Mathematical value of a [`ConnError`].
pub ghost enum ConnView {
    Closed(Seq<char>),
    Protocol(Seq<char>),
    Io(Seq<char>),
}

impl View for ConnError {
    type V = ConnView;

    open spec fn view(&self) -> ConnView {
        match self {
            ConnError::Closed(m) => ConnView::Closed(m@),
            ConnError::Protocol(m) => ConnView::Protocol(m@),
            ConnError::Io(m) => ConnView::Io(m@),
        }
    }
}

impl From<ConnError> for Error {
    fn from(e: ConnError) -> (r: Self) {
        match e {
            ConnError::Closed(m) => Error::ServerGone(m),
            ConnError::Protocol(m) => Error::Protocol(m),
            ConnError::Io(m) => Error::ServerGone(m),
        }
    }
}

impl vstd::std_specs::convert::FromSpecImpl<ConnError> for Error {
    open spec fn obeys_from_spec() -> bool {
        true
    }

    open spec fn from_spec(e: ConnError) -> Error {
        match e {
            ConnError::Closed(m) => Error::ServerGone(m),
            ConnError::Protocol(m) => Error::Protocol(m),
            ConnError::Io(m) => Error::ServerGone(m),
        }
    }
}

/// The error that each of several waiting requests is told: a failure to read or
/// write counts as the end of the connection.
pub fn clone_err(e: &ConnError) -> (r: ConnError)
    ensures
        r@ == shared_error(e@),
{
    match e {
        ConnError::Closed(m) => ConnError::Closed(m.clone()),
        ConnError::Protocol(m) => ConnError::Protocol(m.clone()),
        ConnError::Io(m) => ConnError::Closed(m.clone()),
    }
}

/// The error that each of several waiting requests is told.
pub open spec fn shared_error(e: ConnView) -> ConnView {
    match e {
        ConnView::Io(m) => ConnView::Closed(m),
        _ => e,
    }
}

/// What a redirection says: the partition up to the next space, then the
/// address.
pub open spec fn moved_to(rest: Seq<char>) -> ErrorView {
    let at = find_char(rest, ' ', 0);
    ErrorView::Moved {
        partition: match unsigned_numeral(encode_utf8(rest.take(at))) {
            Some(n) => if n <= u32::MAX {
                n as u32
            } else {
                0
            },
            None => 0,
        },
        addr: if at < rest.len() {
            rest.skip(at + 1)
        } else {
            Seq::empty()
        },
    }
}

/// What an error of the general kind means.
pub open spec fn general_error(rest: Seq<char>) -> ErrorView {
    let l = lower_text(rest);
    if holds_text(l, "not an integer"@) || holds_text(l, "not a number"@) {
        ErrorView::NotANumber { expected: "integer"@, got: rest }
    } else if holds_text(l, "operation timed out"@) {
        ErrorView::Timeout
    } else if holds_text(l, "no such lock"@) {
        ErrorView::NoSuchLock
    } else if holds_text(l, "lock not acquired"@) {
        ErrorView::LockNotAcquired
    } else {
        ErrorView::Server(rest)
    }
}

/// What follows the first word of a message.
pub open spec fn behind(msg: Seq<char>, word: Seq<char>) -> Seq<char> {
    msg.skip(word.len() as int)
}

/// What an error of the server means.
pub open spec fn translated(msg: Seq<char>) -> ErrorView {
    if starts_with(msg, "MOVED "@) {
        moved_to(behind(msg, "MOVED "@))
    } else if starts_with(msg, "NOAUTH "@) {
        ErrorView::Auth(behind(msg, "NOAUTH "@))
    } else if starts_with(msg, "WRONGPASS "@) {
        ErrorView::Auth(behind(msg, "WRONGPASS "@))
    } else if starts_with(msg, "CURSOR "@) {
        ErrorView::InvalidCursor
    } else if starts_with(msg, "CROSSPARTITION "@) {
        ErrorView::InvalidArgument("CROSSPARTITION "@ + behind(msg, "CROSSPARTITION "@))
    } else if starts_with(msg, "ERR "@) {
        general_error(behind(msg, "ERR "@))
    } else {
        ErrorView::Server(msg)
    }
}

fn redirection(rest: &str) -> (r: Error)
    ensures
        r@ == moved_to(rest@),
{
    let c: Vec<char> = chars_of(rest);
    let at: usize = position_of(&c, ' ', 0);
    let digits: String = text_between(&c, 0, at);
    assert(digits@ =~= rest@.take(at as int));
    proof {
        lemma_unsigned_numeral_nonneg(encode_utf8(digits@));
    }
    let partition: u32 = match parse_unsigned(digits.as_str().as_bytes(), u32::MAX as u64) {
        Some(n) => n as u32,
        None => 0,
    };
    let addr: String = if at < c.len() {
        text_between(&c, at + 1, c.len())
    } else {
        String::new()
    };
    assert(at < c@.len() ==> addr@ =~= rest@.skip(at + 1));
    Error::Moved { partition, addr }
}

fn general(rest: String) -> (r: Error)
    ensures
        r@ == general_error(rest@),
{
    let l: String = to_lower_text(rest.as_str());
    if contains_text(l.as_str(), "not an integer") || contains_text(l.as_str(), "not a number") {
        return Error::NotANumber { expected: "integer", got: rest };
    }
    if contains_text(l.as_str(), "operation timed out") {
        return Error::Timeout;
    }
    if contains_text(l.as_str(), "no such lock") {
        return Error::NoSuchLock;
    }
    if contains_text(l.as_str(), "lock not acquired") {
        return Error::LockNotAcquired;
    }
    Error::Server(rest)
}

/// What an error of the server means.
pub fn translate_error(msg: &str) -> (r: Error)
    ensures
        r@ == translated(msg@),
{
    if let Some(rest) = strip_prefix(msg, "MOVED ") {
        return redirection(rest.as_str());
    }
    if let Some(rest) = strip_prefix(msg, "NOAUTH ") {
        return Error::Auth(rest);
    }
    if let Some(rest) = strip_prefix(msg, "WRONGPASS ") {
        return Error::Auth(rest);
    }
    if let Some(_) = strip_prefix(msg, "CURSOR ") {
        return Error::InvalidCursor;
    }
    if let Some(rest) = strip_prefix(msg, "CROSSPARTITION ") {
        let mut m: String = "CROSSPARTITION ".to_owned();
        m.append(rest.as_str());
        return Error::InvalidArgument(m);
    }
    if let Some(rest) = strip_prefix(msg, "ERR ") {
        return general(rest);
    }
    Error::Server(msg.to_owned())
}

/// Any answer but an error will do.
pub fn check_not_error(frame: &Frame) -> (r: Result<(), Error>)
    ensures
        match frame@ {
            FrameView::Error(m) => r is Err && r->Err_0@ == translated(m),
            _ => r is Ok,
        },
{
    match frame {
        Frame::Error(m) => Err(translate_error(m.as_str())),
        _ => Ok(()),
    }
}

// ---------------------------------------------------------------------------
// Commands
// ---------------------------------------------------------------------------

/// The command that opens a connection.
pub fn hello_command(auth: Option<&str>) -> (r: Command)
    ensures
        r@ == CommandView::Hello(
            HelloView {
                protocol_version: Some(2u32),
                auth: match auth {
                    Some(p) => Some((None, encode_utf8(p@))),
                    None => None,
                },
                client_name: None,
            },
        ),
{
    let auth: Option<(Option<Bytes>, Bytes)> = match auth {
        Some(p) => Some((None, bytes_from_slice(p.as_bytes()))),
        None => None,
    };
    Command::Hello(HelloArgs { protocol_version: Some(2), auth, client_name: None })
}

/// The command that asks whether the server is there.
pub fn ping_command(message: Option<&[u8]>) -> (r: Command)
    ensures
        r@ == CommandView::Ping(
            match message {
                Some(m) => Some(m@),
                None => None,
            },
        ),
{
    match message {
        Some(m) => Command::Ping(Some(bytes_from_slice(m))),
        None => Command::Ping(None),
    }
}

/// The options of a write as the command carries them.
pub open spec fn command_options(o: PutOptions) -> PutCommandOptions {
    PutCommandOptions {
        ex: o.ex,
        px: o.px,
        exat: o.exat,
        pxat: o.pxat,
        nx: o.nx,
        xx: o.xx,
        timestamp: o.timestamp,
    }
}

/// A map on a server.
#[derive(Debug)]
pub struct RemoteDMap {
    name: String,
}

impl View for RemoteDMap {
    type V = Seq<char>;

    closed spec fn view(&self) -> Seq<char> {
        self.name@
    }
}

impl RemoteDMap {
    /// The map with this name.
    pub fn new(name: &str) -> (r: Self)
        ensures
            r@ == name@,
    {
        RemoteDMap { name: name.to_owned() }
    }

    /// The name.
    pub fn name(&self) -> (r: &str)
        ensures
            r@ == self@,
    {
        self.name.as_str()
    }

    fn dmap_bytes(&self) -> (r: Bytes)
        ensures
            bytes_of(r) == encode_utf8(self@),
    {
        bytes_from_slice(self.name.as_str().as_bytes())
    }

    /// The command that stores a value; options that do not go together are
    /// refused before anything is sent.
    pub fn put_command(&self, key: &str, value: &[u8], options: PutOptions) -> (r: Result<
        Command,
        Error,
    >)
        ensures
            match options_fault(options) {
                Some(e) => r is Err && r->Err_0@ == e,
                None => r is Ok && r->Ok_0@ == (CommandView::DmPut {
                    dmap: encode_utf8(self@),
                    key: encode_utf8(key@),
                    value: value@,
                    options: command_options(options),
                }),
            },
    {
        match options.validate() {
            Err(e) => return Err(e),
            Ok(()) => {},
        }
        Ok(
            Command::DmPut {
                dmap: self.dmap_bytes(),
                key: bytes_from_slice(key.as_bytes()),
                value: bytes_from_slice(value),
                options: PutCommandOptions {
                    ex: options.ex,
                    px: options.px,
                    exat: options.exat,
                    pxat: options.pxat,
                    nx: options.nx,
                    xx: options.xx,
                    timestamp: options.timestamp,
                },
            },
        )
    }

    /// The command that reads a value.
    pub fn get_command(&self, key: &str) -> (r: Command)
        ensures
            r@ == (CommandView::DmGet { dmap: encode_utf8(self@), key: encode_utf8(key@) }),
    {
        Command::DmGet { dmap: self.dmap_bytes(), key: bytes_from_slice(key.as_bytes()) }
    }

    /// The command that removes a key.
    pub fn delete_command(&self, key: &str) -> (r: Command)
        ensures
            r@ == (CommandView::DmDel {
                dmap: encode_utf8(self@),
                keys: seq![encode_utf8(key@)],
            }),
    {
        let mut keys: Vec<Bytes> = Vec::new();
        keys.push(bytes_from_slice(key.as_bytes()));
        assert(list_of(keys@) =~= seq![encode_utf8(key@)]);
        Command::DmDel { dmap: self.dmap_bytes(), keys }
    }

    /// The command that adds to a number.
    pub fn incr_command(&self, key: &str, delta: i64) -> (r: Command)
        ensures
            r@ == (CommandView::DmIncr {
                dmap: encode_utf8(self@),
                key: encode_utf8(key@),
                delta,
            }),
    {
        Command::DmIncr { dmap: self.dmap_bytes(), key: bytes_from_slice(key.as_bytes()), delta }
    }

    /// The command that takes from a number.
    pub fn decr_command(&self, key: &str, delta: i64) -> (r: Command)
        ensures
            r@ == (CommandView::DmDecr {
                dmap: encode_utf8(self@),
                key: encode_utf8(key@),
                delta,
            }),
    {
        Command::DmDecr { dmap: self.dmap_bytes(), key: bytes_from_slice(key.as_bytes()), delta }
    }

    /// The command that adds to a number with a fraction.
    pub fn incr_by_float_command(&self, key: &str, delta: DoubleText) -> (r: Command)
        ensures
            r@ == (CommandView::DmIncrByFloat {
                dmap: encode_utf8(self@),
                key: encode_utf8(key@),
                delta: delta@,
            }),
    {
        Command::DmIncrByFloat {
            dmap: self.dmap_bytes(),
            key: bytes_from_slice(key.as_bytes()),
            delta,
        }
    }

    /// The command that stores a value and asks for the one it replaces.
    pub fn get_put_command(&self, key: &str, value: &[u8]) -> (r: Command)
        ensures
            r@ == (CommandView::DmGetPut {
                dmap: encode_utf8(self@),
                key: encode_utf8(key@),
                value: value@,
            }),
    {
        Command::DmGetPut {
            dmap: self.dmap_bytes(),
            key: bytes_from_slice(key.as_bytes()),
            value: bytes_from_slice(value),
        }
    }

    /// The command that sets when a key expires, in whole milliseconds.
    pub fn expire_command(&self, key: &str, duration_ns: u64) -> (r: Command)
        ensures
            r@ == (CommandView::DmPexpire {
                dmap: encode_utf8(self@),
                key: encode_utf8(key@),
                milliseconds: (duration_ns / 1_000_000) as u64,
            }),
    {
        Command::DmPexpire {
            dmap: self.dmap_bytes(),
            key: bytes_from_slice(key.as_bytes()),
            milliseconds: duration_ns / 1_000_000,
        }
    }

    /// The command that scans a partition.
    pub fn scan_command(&self, partition_id: u32, options: &ScanOptions) -> (r: Command)
        ensures
            r@ == (CommandView::DmScan {
                partition_id,
                dmap: encode_utf8(self@),
                cursor: 0,
                options: ScanView {
                    match_pattern: match pattern_view(*options) {
                        Some(p) => Some(encode_utf8(p)),
                        None => None,
                    },
                    count: match options.count {
                        Some(c) => if c <= u32::MAX {
                            Some(c as u32)
                        } else {
                            None
                        },
                        None => None,
                    },
                },
            }),
    {
        let match_pattern: Option<Bytes> = match &options.match_pattern {
            Some(p) => Some(bytes_from_slice(p.as_str().as_bytes())),
            None => None,
        };
        let count: Option<u32> = match options.count {
            Some(c) => if c as u64 <= u32::MAX as u64 {
                Some(c as u32)
            } else {
                None
            },
            None => None,
        };
        Command::DmScan {
            partition_id,
            dmap: self.dmap_bytes(),
            cursor: 0,
            options: ScanCommandOptions { match_pattern, count },
        }
    }

    /// The command that removes every entry.
    pub fn destroy_command(&self) -> (r: Command)
        ensures
            r@ == (CommandView::DmDestroy { dmap: encode_utf8(self@) }),
    {
        Command::DmDestroy { dmap: self.dmap_bytes() }
    }

    /// Locks on a server are not to be had.
    pub fn lock(&self) -> (r: Error)
        ensures
            r@ == ErrorView::Unsupported("DM.LOCK (Phase 7)"@),
    {
        Error::Unsupported("DM.LOCK (Phase 7)")
    }
}

// ---------------------------------------------------------------------------
// Answers
// ---------------------------------------------------------------------------

fn unexpected(front: &str, shown: &str) -> (r: Error)
    ensures
        r@ == ErrorView::Protocol(front@ + " unexpected reply: "@ + shown@),
{
    let mut m: String = front.to_owned();
    m.append(" unexpected reply: ");
    m.append(shown);
    Error::Protocol(m)
}

/// The answer says that there is nothing.
pub open spec fn is_nothing(f: FrameView) -> bool {
    f == FrameView::Bulk(None) || f == FrameView::Null
}

/// What the answer to a write means.
pub fn put_reply(options: PutOptions, reply: &Frame, shown: &str) -> (r: Result<(), Error>)
    ensures
        match reply@ {
            FrameView::SimpleString(s) if s == "OK"@ => r is Ok,
            FrameView::Error(m) => r is Err && r->Err_0@ == translated(m),
            f => r is Err && r->Err_0@ == if !is_nothing(f) {
                ErrorView::Protocol("DM.PUT unexpected reply: "@ + shown@)
            } else if options.nx {
                ErrorView::KeyAlreadyExists
            } else if options.xx {
                ErrorView::KeyNotExists
            } else {
                ErrorView::Protocol("null reply for unconditional PUT"@)
            },
        },
{
    let nothing: bool = match reply {
        Frame::SimpleString(s) => {
            if str_equal(s.as_str(), "OK") {
                return Ok(());
            }
            false
        },
        Frame::Error(m) => return Err(translate_error(m.as_str())),
        Frame::Bulk(b) => b.is_null(),
        Frame::Null => true,
        _ => false,
    };
    if !nothing {
        let mut m: String = "DM.PUT unexpected reply: ".to_owned();
        m.append(shown);
        Err(Error::Protocol(m))
    } else if options.nx {
        Err(Error::KeyAlreadyExists)
    } else if options.xx {
        Err(Error::KeyNotExists)
    } else {
        Err(Error::Protocol("null reply for unconditional PUT".to_owned()))
    }
}

/// A value that came without its times.
pub open spec fn bare(value: Seq<u8>) -> ResponseView {
    ResponseView { value, timestamp: 0, ttl: None }
}

/// What the answer to a read means.
pub fn get_reply(reply: &Frame, shown: &str) -> (r: Result<GetResponse, Error>)
    ensures
        match reply@ {
            FrameView::Bulk(Some(b)) => r is Ok && r->Ok_0@ == bare(b),
            FrameView::Error(m) => r is Err && r->Err_0@ == translated(m),
            f => r is Err && r->Err_0@ == if is_nothing(f) {
                ErrorView::KeyNotFound
            } else {
                ErrorView::Protocol("DM.GET"@ + " unexpected reply: "@ + shown@)
            },
        },
{
    match reply {
        Frame::Bulk(b) => match b.as_bytes() {
            Some(v) => Ok(GetResponse { value: bytes_to_vec(v), timestamp: 0, ttl: None }),
            None => Err(Error::KeyNotFound),
        },
        Frame::Null => Err(Error::KeyNotFound),
        Frame::Error(m) => Err(translate_error(m.as_str())),
        _ => Err(unexpected("DM.GET", shown)),
    }
}

/// What the answer to a removal means: whether there was something.
pub fn delete_reply(reply: &Frame, shown: &str) -> (r: Result<bool, Error>)
    ensures
        match reply@ {
            FrameView::Integer(n) => r is Ok && r->Ok_0 == (n > 0),
            FrameView::Error(m) => r is Err && r->Err_0@ == translated(m),
            _ => r is Err && r->Err_0@ == ErrorView::Protocol(
                "DM.DEL"@ + " unexpected reply: "@ + shown@,
            ),
        },
{
    match reply {
        Frame::Integer(n) => Ok(*n > 0),
        Frame::Error(m) => Err(translate_error(m.as_str())),
        _ => Err(unexpected("DM.DEL", shown)),
    }
}

/// What the answer to a command that gives a number means; `name` is the name of
/// the command.
pub fn number_reply(name: &str, reply: &Frame, shown: &str) -> (r: Result<i64, Error>)
    ensures
        match reply@ {
            FrameView::Integer(n) => r is Ok && r->Ok_0 == n,
            FrameView::Error(m) => r is Err && r->Err_0@ == translated(m),
            _ => r is Err && r->Err_0@ == ErrorView::Protocol(
                name@ + " unexpected reply: "@ + shown@,
            ),
        },
{
    match reply {
        Frame::Integer(n) => Ok(*n),
        Frame::Error(m) => Err(translate_error(m.as_str())),
        _ => Err(unexpected(name, shown)),
    }
}

/// What the answer to an addition with a fraction means: the text of the sum.
pub fn float_reply(reply: &Frame, shown: &str) -> (r: Result<String, Error>)
    ensures
        match reply@ {
            FrameView::Bulk(Some(b)) => if valid_utf8(b) {
                r is Ok && r->Ok_0@ == decode_utf8(b)
            } else {
                r is Err && r->Err_0@ == ErrorView::Serialization(utf8_fault(b))
            },
            FrameView::Error(m) => r is Err && r->Err_0@ == translated(m),
            _ => r is Err && r->Err_0@ == ErrorView::Protocol(
                "DM.INCRBYFLOAT"@ + " unexpected reply: "@ + shown@,
            ),
        },
{
    match reply {
        Frame::Bulk(b) => match b.as_bytes() {
            Some(v) => match checked_utf8(v) {
                Ok(text) => {
                    proof {
                        encode_utf8_decode_utf8(text@);
                    }
                    Ok(text.to_owned())
                },
                Err(m) => Err(Error::Serialization(m)),
            },
            None => Err(unexpected("DM.INCRBYFLOAT", shown)),
        },
        Frame::Error(m) => Err(translate_error(m.as_str())),
        _ => Err(unexpected("DM.INCRBYFLOAT", shown)),
    }
}

/// What the answer to a replacement means: the value that was there.
pub fn get_put_reply(reply: &Frame, shown: &str) -> (r: Result<Option<GetResponse>, Error>)
    ensures
        match reply@ {
            FrameView::Bulk(Some(b)) => r is Ok && r->Ok_0 is Some && (r->Ok_0)->0@ == bare(b),
            FrameView::Error(m) => r is Err && r->Err_0@ == translated(m),
            f => if is_nothing(f) {
                r is Ok && r->Ok_0 is None
            } else {
                r is Err && r->Err_0@ == ErrorView::Protocol(
                    "DM.GETPUT"@ + " unexpected reply: "@ + shown@,
                )
            },
        },
{
    match reply {
        Frame::Bulk(b) => match b.as_bytes() {
            Some(v) => Ok(Some(GetResponse { value: bytes_to_vec(v), timestamp: 0, ttl: None })),
            None => Ok(None),
        },
        Frame::Null => Ok(None),
        Frame::Error(m) => Err(translate_error(m.as_str())),
        _ => Err(unexpected("DM.GETPUT", shown)),
    }
}

/// What the answer to a new expiry means.
pub fn expire_reply(reply: &Frame, shown: &str) -> (r: Result<(), Error>)
    ensures
        match reply@ {
            FrameView::Integer(n) if n == 1 => r is Ok,
            FrameView::Integer(n) if n == 0 => r is Err && r->Err_0@ == ErrorView::KeyNotFound,
            FrameView::Error(m) => r is Err && r->Err_0@ == translated(m),
            _ => r is Err && r->Err_0@ == ErrorView::Protocol(
                "DM.PEXPIRE"@ + " unexpected reply: "@ + shown@,
            ),
        },
{
    match reply {
        Frame::Integer(n) => if *n == 1 {
            Ok(())
        } else if *n == 0 {
            Err(Error::KeyNotFound)
        } else {
            Err(unexpected("DM.PEXPIRE", shown))
        },
        Frame::Error(m) => Err(translate_error(m.as_str())),
        _ => Err(unexpected("DM.PEXPIRE", shown)),
    }
}

/// What the answer to the removal of everything means.
pub fn destroy_reply(reply: &Frame, shown: &str) -> (r: Result<(), Error>)
    ensures
        match reply@ {
            FrameView::SimpleString(s) if s == "OK"@ => r is Ok,
            FrameView::Error(m) => r is Err && r->Err_0@ == translated(m),
            _ => r is Err && r->Err_0@ == ErrorView::Protocol(
                "DM.DESTROY"@ + " unexpected reply: "@ + shown@,
            ),
        },
{
    match reply {
        Frame::SimpleString(s) => if str_equal(s.as_str(), "OK") {
            Ok(())
        } else {
            Err(unexpected("DM.DESTROY", shown))
        },
        Frame::Error(m) => Err(translate_error(m.as_str())),
        _ => Err(unexpected("DM.DESTROY", shown)),
    }
}

/// The bytes that a frame carries.
pub open spec fn bulk_of(f: FrameView) -> Option<Seq<u8>> {
    match f {
        FrameView::Bulk(b) => b,
        _ => None,
    }
}

fn bulk(f: &Frame) -> (r: Option<&[u8]>)
    ensures
        match r {
            Some(b) => bulk_of(f@) == Some(b@),
            None => bulk_of(f@) is None,
        },
{
    match f {
        Frame::Bulk(b) => b.as_bytes(),
        _ => None,
    }
}

/// The pair that two frames stand for: a key that is text, and a value.
pub open spec fn pair_of(k: FrameView, v: FrameView) -> Option<PairView> {
    match (bulk_of(k), bulk_of(v)) {
        (Some(a), Some(b)) => match utf8_text(a) {
            Some(key) => Some(PairView { key, value: b }),
            None => None,
        },
        _ => None,
    }
}

/// The pairs among the first `n` couples of frames.
pub open spec fn pairs_of(items: Seq<FrameView>, n: int) -> Seq<PairView>
    decreases n,
{
    if n <= 0 {
        Seq::empty()
    } else {
        match pair_of(items[2 * n - 2], items[2 * n - 1]) {
            Some(p) => pairs_of(items, n - 1).push(p),
            None => pairs_of(items, n - 1),
        }
    }
}

/// Reads frames two by two; a last one without a partner is left alone.
fn read_pairs(items: &Vec<Frame>) -> (r: Vec<(String, Vec<u8>)>)
    ensures
        found_view(r@) == pairs_of(frames_view(items@), items@.len() as int / 2),
{
    let mut out: Vec<(String, Vec<u8>)> = Vec::new();
    let count: usize = items.len();
    let n: usize = count / 2;
    let ghost all = frames_view(items@);
    let mut i: usize = 0;
    assert(found_view(out@) =~= Seq::empty());
    while i < n
        invariant
            i <= n,
            count == items@.len(),
            n == count as int / 2,
            all == frames_view(items@),
            all.len() == items@.len(),
            found_view(out@) == pairs_of(all, i as int),
        decreases n - i,
    {
        let ghost before = found_view(out@);
        assert(all[2 * i as int] == items@[2 * i as int]@);
        assert(all[2 * i + 1] == items@[2 * i + 1]@);
        match (bulk(&items[2 * i]), bulk(&items[2 * i + 1])) {
            (Some(a), Some(b)) => {
                match string_from_utf8(a) {
                    Some(key) => {
                        let ghost added = PairView { key: key@, value: b@ };
                        out.push((key, bytes_to_vec(b)));
                        assert(found_view(out@) =~= before.push(added));
                    },
                    None => {},
                }
            },
            _ => {},
        }
        i = i + 1;
    }
    out
}

/// What the answer to a scan means.
pub open spec fn scan_outcome(f: FrameView, shown: Seq<char>) -> Result<Seq<PairView>, ErrorView> {
    match f {
        FrameView::Error(m) => Err(translated(m)),
        FrameView::Array(Some(parts)) => if parts.len() != 2 {
            Err(ErrorView::Protocol("DM.SCAN"@ + " unexpected reply: "@ + shown))
        } else {
            match parts[1] {
                FrameView::Array(Some(items)) => Ok(pairs_of(items, items.len() as int / 2)),
                _ => Err(ErrorView::Protocol("DM.SCAN payload not an array"@)),
            }
        },
        _ => Err(ErrorView::Protocol("DM.SCAN"@ + " unexpected reply: "@ + shown)),
    }
}

/// What the answer to a scan means.
pub fn scan_reply(reply: &Frame, shown: &str) -> (r: Result<BufferedCursor, Error>)
    ensures
        match scan_outcome(reply@, shown@) {
            Ok(s) => r is Ok && r->Ok_0@ == s,
            Err(e) => r is Err && r->Err_0@ == e,
        },
{
    match reply {
        Frame::Error(m) => Err(translate_error(m.as_str())),
        Frame::Array(Some(parts)) => {
            if parts.len() != 2 {
                return Err(unexpected("DM.SCAN", shown));
            }
            assert(frames_view(parts@)[1] == parts@[1]@);
            match &parts[1] {
                Frame::Array(Some(items)) => Ok(BufferedCursor::new(read_pairs(items))),
                _ => Err(Error::Protocol("DM.SCAN payload not an array".to_owned())),
            }
        },
        _ => Err(unexpected("DM.SCAN", shown)),
    }
}

/// The last value that is text, of the first `n` pairs that have this key.
pub open spec fn value_of(pairs: Seq<PairView>, key: Seq<char>, n: int) -> Option<Seq<u8>>
    decreases n,
{
    if n <= 0 {
        None
    } else if pairs[n - 1].key == key && valid_utf8(pairs[n - 1].value) {
        Some(pairs[n - 1].value)
    } else {
        value_of(pairs, key, n - 1)
    }
}

/// The number under a key; 0 where there is none.
pub open spec fn number_of(pairs: Seq<PairView>, key: Seq<char>) -> int {
    match value_of(pairs, key, pairs.len() as int) {
        Some(v) => match unsigned_numeral(v) {
            Some(n) => if n <= usize::MAX {
                n
            } else {
                0
            },
            None => 0,
        },
        None => 0,
    }
}

/// One of the values is text.
pub open spec fn any_text(pairs: Seq<PairView>) -> bool {
    exists|i: int| 0 <= i < pairs.len() && valid_utf8((#[trigger] pairs[i]).value)
}

/// What the answer to a question for figures means: the connections and the
/// commands of the server, under a name of their own.
pub open spec fn stats_outcome(f: FrameView) -> Result<Seq<FigureView>, ErrorView> {
    match f {
        FrameView::Error(m) => Err(translated(m)),
        FrameView::Array(Some(items)) => {
            let pairs = pairs_of(items, items.len() as int / 2);
            if any_text(pairs) {
                Ok(
                    seq![
                        FigureView {
                            name: "__server__"@,
                            stats: DMapStats {
                                len: number_of(pairs, "connections"@) as usize,
                                inuse: number_of(pairs, "commands_total"@) as u64,
                            },
                        },
                    ],
                )
            } else {
                Ok(Seq::empty())
            }
        },
        _ => Err(ErrorView::Protocol("STATS expected Array(Some(_))"@)),
    }
}

fn number_under(pairs: &Vec<(String, Vec<u8>)>, key: &str) -> (r: u64)
    ensures
        r == number_of(found_view(pairs@), key@),
        r <= usize::MAX,
{
    let ghost all = found_view(pairs@);
    let mut i: usize = pairs.len();
    while i > 0
        invariant
            i <= pairs@.len(),
            all == found_view(pairs@),
            all.len() == pairs@.len(),
            value_of(all, key@, all.len() as int) == value_of(all, key@, i as int),
        decreases i,
    {
        let p: &(String, Vec<u8>) = &pairs[i - 1];
        assert(all[i - 1] == (PairView { key: p.0@, value: p.1@ }));
        if str_equal(p.0.as_str(), key) && str_from_utf8(p.1.as_slice()).is_some() {
            proof {
                lemma_unsigned_numeral_nonneg(p.1@);
            }
            return match parse_unsigned(p.1.as_slice(), usize::MAX as u64) {
                Some(n) => n,
                None => 0,
            };
        }
        i = i - 1;
    }
    0
}

fn has_text(pairs: &Vec<(String, Vec<u8>)>) -> (r: bool)
    ensures
        r == any_text(found_view(pairs@)),
{
    let ghost all = found_view(pairs@);
    let mut i: usize = 0;
    while i < pairs.len()
        invariant
            i <= pairs@.len(),
            all == found_view(pairs@),
            all.len() == pairs@.len(),
            forall|k: int| 0 <= k < i ==> !valid_utf8((#[trigger] all[k]).value),
        decreases pairs@.len() - i,
    {
        assert(all[i as int].value == pairs@[i as int].1@);
        if str_from_utf8(pairs[i].1.as_slice()).is_some() {
            return true;
        }
        i = i + 1;
    }
    false
}

/// What the answer to a question for figures means.
pub fn stats_reply(reply: &Frame) -> (r: Result<Stats, Error>)
    ensures
        match stats_outcome(reply@) {
            Ok(s) => r is Ok && r->Ok_0@ == s,
            Err(e) => r is Err && r->Err_0@ == e,
        },
{
    match reply {
        Frame::Error(m) => Err(translate_error(m.as_str())),
        Frame::Array(Some(items)) => {
            let pairs: Vec<(String, Vec<u8>)> = read_pairs(items);
            let mut out: Stats = Stats::default();
            if has_text(&pairs) {
                let len: u64 = number_under(&pairs, "connections");
                let inuse: u64 = number_under(&pairs, "commands_total");
                let stats = DMapStats { len: len as usize, inuse };
                out.dmaps.push(("__server__".to_owned(), stats));
                assert(out@ =~= seq![FigureView { name: "__server__"@, stats }]);
            }
            Ok(out)
        },
        _ => Err(Error::Protocol("STATS expected Array(Some(_))".to_owned())),
    }
}

// ---------------------------------------------------------------------------
// Requests in flight
// ---------------------------------------------------------------------------

/// The requests of one connection. Answers come in the order of the requests;
/// once the connection has ended no request goes out.
#[derive(Debug)]
pub struct Requests {
    waiting: VecDeque<u64>,
    ended: bool,
}

/// Mathematical value of [`Requests`].
#[verifier::ext_equal]
pub ghost struct RequestsView {
    pub waiting: Seq<u64>,
    pub ended: bool,
}

impl View for Requests {
    type V = RequestsView;

    closed spec fn view(&self) -> RequestsView {
        RequestsView { waiting: self.waiting@, ended: self.ended }
    }
}

/// All requests that waited are told the same.
pub open spec fn all_told(waiting: Seq<u64>, e: ConnView, told: Seq<(u64, ConnError)>) -> bool {
    &&& told.len() == waiting.len()
    &&& forall|i: int|
        0 <= i < told.len() ==> (#[trigger] told[i]).0 == waiting[i] && told[i].1@ == shared_error(
            e,
        )
}

impl Requests {
    /// Nothing was sent yet.
    pub fn new() -> (r: Self)
        ensures
            r@ == (RequestsView { waiting: Seq::empty(), ended: false }),
    {
        Requests { waiting: VecDeque::new(), ended: false }
    }

    /// A request wants to go out. It is refused once the connection has ended.
    pub fn submit(&mut self, request: u64) -> (r: Result<(), ConnError>)
        ensures
            if old(self)@.ended {
                &&& r is Err
                &&& r->Err_0@ == ConnView::Closed("server closed connection"@)
                &&& final(self)@ == old(self)@
            } else {
                &&& r is Ok
                &&& final(self)@ == (RequestsView {
                    waiting: old(self)@.waiting.push(request),
                    ended: false,
                })
            },
    {
        if self.ended {
            return Err(ConnError::Closed("server closed connection".to_owned()));
        }
        self.waiting.push_back(request);
        Ok(())
    }

    /// An answer comes in: it belongs to the oldest request. `None` comes back
    /// where nobody waits.
    pub fn answered(&mut self) -> (r: Option<u64>)
        ensures
            if old(self)@.waiting.len() == 0 {
                r is None && final(self)@ == old(self)@
            } else {
                &&& r == Some(old(self)@.waiting[0])
                &&& final(self)@ == (RequestsView {
                    waiting: old(self)@.waiting.skip(1),
                    ended: old(self)@.ended,
                })
            },
    {
        let r: Option<u64> = self.waiting.pop_front();
        assert(old(self)@.waiting.len() > 0 ==> self@.waiting =~= old(self)@.waiting.skip(1));
        r
    }

    /// The connection ends for this reason: all requests that wait are told so.
    pub fn end(&mut self, reason: &ConnError) -> (r: Vec<(u64, ConnError)>)
        ensures
            final(self)@ == (RequestsView { waiting: Seq::empty(), ended: true }),
            all_told(old(self)@.waiting, reason@, r@),
    {
        self.ended = true;
        let ghost all = old(self)@.waiting;
        let mut out: Vec<(u64, ConnError)> = Vec::new();
        assert(all.skip(0) =~= all);
        while self.waiting.len() > 0
            invariant
                self.ended,
                out@.len() <= all.len(),
                self.waiting@ == all.skip(out@.len() as int),
                forall|i: int|
                    0 <= i < out@.len() ==> (#[trigger] out@[i]).0 == all[i] && out@[i].1@
                        == shared_error(reason@),
            decreases self.waiting@.len(),
        {
            let ghost n = out@.len() as int;
            match self.waiting.pop_front() {
                Some(request) => {
                    assert(all.skip(n)[0] == all[n]);
                    assert(self.waiting@ =~= all.skip(n + 1));
                    out.push((request, clone_err(reason)));
                },
                None => {},
            }
        }
        assert(self.waiting@ =~= Seq::empty());
        out
    }
}

/// Of requests that were sent one after the other, each gets the answer that
/// came in its place: the `i`th answer goes to the `i`th request.
pub proof fn law_answers_meet_requests(waiting: Seq<u64>, i: int)
    requires
        0 <= i < waiting.len(),
    ensures
        waiting.skip(i).len() > 0,
        waiting.skip(i)[0] == waiting[i],
        waiting.skip(i).skip(1) == waiting.skip(i + 1),
{
    assert(waiting.skip(i).skip(1) =~= waiting.skip(i + 1));
}

} // verus!
