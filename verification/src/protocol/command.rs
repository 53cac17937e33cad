//! Parsed commands, and their form on the wire: an array of bulk strings.

use bytes::Bytes;
use vstd::prelude::*;
use vstd::string::*;

use crate::buffer::{bytes_clone, bytes_from_slice, bytes_from_vec, bytes_of, bytes_slice};
use crate::protocol::double::{is_double, DoubleText};
use crate::protocol::error::{CommandError, CommandErrorView};
use crate::protocol::frame::{frames_view, BulkString, Frame, FrameView};
use crate::protocol::hello::{clone_opt_bytes, opt_bytes, HelloArgs, HelloView};
use crate::protocol::verb::{arity_met, verb_arity, verb_name, verb_of, word, Verb};
use crate::text::{
    decimal, decimal_bytes, is_same_word, lossy_text, parse_signed, parse_unsigned, same_word,
    signed_decimal, signed_decimal_bytes, signed_numeral, string_from_utf8_lossy,
    unsigned_numeral,
};

verus! {

/// Which copy of a partition a fragment belongs to.
#[derive(Debug, Clone, Copy, PartialEq, Eq, Structural)]
pub enum PartitionType {
    Primary,
    Backup,
}

/// Optional flags of `DM.PUT`.
#[derive(Debug, Clone, Copy, PartialEq, Eq, Structural)]
pub struct PutCommandOptions {
    /// `EX seconds`.
    pub ex: Option<u64>,
    /// `PX milliseconds`.
    pub px: Option<u64>,
    /// `EXAT unix-seconds`.
    pub exat: Option<u64>,
    /// `PXAT unix-milliseconds`.
    pub pxat: Option<u64>,
    /// `NX`: only set where the key is missing.
    pub nx: bool,
    /// `XX`: only set where the key is present.
    pub xx: bool,
    /// `TS unix-nanos`: timestamp given by the client.
    pub timestamp: Option<i64>,
}

/// No flag set.
pub open spec fn no_put_options() -> PutCommandOptions {
    PutCommandOptions {
        ex: None,
        px: None,
        exat: None,
        pxat: None,
        nx: false,
        xx: false,
        timestamp: None,
    }
}

impl Default for PutCommandOptions {
    fn default() -> (r: Self)
        ensures
            r == no_put_options(),
    {
        PutCommandOptions {
            ex: None,
            px: None,
            exat: None,
            pxat: None,
            nx: false,
            xx: false,
            timestamp: None,
        }
    }
}

/// Optional flags of `DM.SCAN`.
#[derive(Debug, PartialEq, Eq)]
pub struct ScanCommandOptions {
    /// `MATCH pat`: glob pattern.
    pub match_pattern: Option<Bytes>,
    /// `COUNT n`: hint to the server.
    pub count: Option<u32>,
}

/// Mathematical value of [`ScanCommandOptions`].
pub ghost struct ScanView {
    pub match_pattern: Option<Seq<u8>>,
    pub count: Option<u32>,
}

impl View for ScanCommandOptions {
    type V = ScanView;

    open spec fn view(&self) -> ScanView {
        ScanView { match_pattern: opt_bytes(self.match_pattern), count: self.count }
    }
}

impl Default for ScanCommandOptions {
    fn default() -> (r: Self)
        ensures
            r@ == (ScanView { match_pattern: None, count: None }),
    {
        ScanCommandOptions { match_pattern: None, count: None }
    }
}

impl Clone for ScanCommandOptions {
    fn clone(&self) -> (r: Self)
        ensures
            r@ == self@,
    {
        ScanCommandOptions {
            match_pattern: clone_opt_bytes(&self.match_pattern),
            count: self.count,
        }
    }
}

/// All commands that a server understands.
#[allow(inconsistent_fields)]
#[derive(Debug, PartialEq)]
pub enum Command {
    /// `PING [message]`.
    Ping(Option<Bytes>),
    /// `AUTH password`, or `AUTH username password`.
    Auth { username: Option<Bytes>, password: Bytes },
    /// `HELLO [protover] [AUTH ...] [SETNAME ...]`.
    Hello(HelloArgs),
    /// `QUIT`.
    Quit,
    /// `STATS`.
    Stats,
    /// `DM.PUT dmap key value [options]`.
    DmPut { dmap: Bytes, key: Bytes, value: Bytes, options: PutCommandOptions },
    /// `DM.GET dmap key`.
    DmGet { dmap: Bytes, key: Bytes },
    /// `DM.DEL dmap key [key ...]`.
    DmDel { dmap: Bytes, keys: Vec<Bytes> },
    /// `DM.EXPIRE dmap key seconds`.
    DmExpire { dmap: Bytes, key: Bytes, seconds: u64 },
    /// `DM.PEXPIRE dmap key milliseconds`.
    DmPexpire { dmap: Bytes, key: Bytes, milliseconds: u64 },
    /// `DM.INCR dmap key delta`.
    DmIncr { dmap: Bytes, key: Bytes, delta: i64 },
    /// `DM.DECR dmap key delta`.
    DmDecr { dmap: Bytes, key: Bytes, delta: i64 },
    /// `DM.GETPUT dmap key value`.
    DmGetPut { dmap: Bytes, key: Bytes, value: Bytes },
    /// `DM.INCRBYFLOAT dmap key delta`.
    DmIncrByFloat { dmap: Bytes, key: Bytes, delta: DoubleText },
    /// `DM.DESTROY dmap`.
    DmDestroy { dmap: Bytes },
    /// `DM.SCAN partID dmap cursor [MATCH pat] [COUNT n]`.
    DmScan { partition_id: u32, dmap: Bytes, cursor: u64, options: ScanCommandOptions },
    /// `INTERNAL.NODE.UPDATEROUTING table`.
    InternalNodeUpdateRouting { table: Bytes },
    /// `INTERNAL.NODE.PUBLISH channel message`.
    InternalNodePublish { channel: Bytes, message: Bytes },
    /// `INTERNAL.NODE.MOVEFRAGMENT partID PRIMARY|BACKUP dmap payload`.
    InternalNodeMoveFragment {
        partition_id: u32,
        partition_type: PartitionType,
        dmap: Bytes,
        payload: Bytes,
    },
}

/// Mathematical value of a [`Command`].
#[allow(inconsistent_fields)]
pub ghost enum CommandView {
    Ping(Option<Seq<u8>>),
    Auth { username: Option<Seq<u8>>, password: Seq<u8> },
    Hello(HelloView),
    Quit,
    Stats,
    DmPut { dmap: Seq<u8>, key: Seq<u8>, value: Seq<u8>, options: PutCommandOptions },
    DmGet { dmap: Seq<u8>, key: Seq<u8> },
    DmDel { dmap: Seq<u8>, keys: Seq<Seq<u8>> },
    DmExpire { dmap: Seq<u8>, key: Seq<u8>, seconds: u64 },
    DmPexpire { dmap: Seq<u8>, key: Seq<u8>, milliseconds: u64 },
    DmIncr { dmap: Seq<u8>, key: Seq<u8>, delta: i64 },
    DmDecr { dmap: Seq<u8>, key: Seq<u8>, delta: i64 },
    DmGetPut { dmap: Seq<u8>, key: Seq<u8>, value: Seq<u8> },
    DmIncrByFloat { dmap: Seq<u8>, key: Seq<u8>, delta: Seq<u8> },
    DmDestroy { dmap: Seq<u8> },
    DmScan { partition_id: u32, dmap: Seq<u8>, cursor: u64, options: ScanView },
    InternalNodeUpdateRouting { table: Seq<u8> },
    InternalNodePublish { channel: Seq<u8>, message: Seq<u8> },
    InternalNodeMoveFragment {
        partition_id: u32,
        partition_type: PartitionType,
        dmap: Seq<u8>,
        payload: Seq<u8>,
    },
}

/// Contents of a list of byte strings.
pub open spec fn list_of(s: Seq<Bytes>) -> Seq<Seq<u8>> {
    Seq::new(s.len(), |i: int| bytes_of(s[i]))
}

impl View for Command {
    type V = CommandView;

    open spec fn view(&self) -> CommandView {
        match self {
            Command::Ping(m) => CommandView::Ping(opt_bytes(*m)),
            Command::Auth { username, password } => CommandView::Auth {
                username: opt_bytes(*username),
                password: bytes_of(*password),
            },
            Command::Hello(h) => CommandView::Hello(h@),
            Command::Quit => CommandView::Quit,
            Command::Stats => CommandView::Stats,
            Command::DmPut { dmap, key, value, options } => CommandView::DmPut {
                dmap: bytes_of(*dmap),
                key: bytes_of(*key),
                value: bytes_of(*value),
                options: *options,
            },
            Command::DmGet { dmap, key } => CommandView::DmGet {
                dmap: bytes_of(*dmap),
                key: bytes_of(*key),
            },
            Command::DmDel { dmap, keys } => CommandView::DmDel {
                dmap: bytes_of(*dmap),
                keys: list_of(keys@),
            },
            Command::DmExpire { dmap, key, seconds } => CommandView::DmExpire {
                dmap: bytes_of(*dmap),
                key: bytes_of(*key),
                seconds: *seconds,
            },
            Command::DmPexpire { dmap, key, milliseconds } => CommandView::DmPexpire {
                dmap: bytes_of(*dmap),
                key: bytes_of(*key),
                milliseconds: *milliseconds,
            },
            Command::DmIncr { dmap, key, delta } => CommandView::DmIncr {
                dmap: bytes_of(*dmap),
                key: bytes_of(*key),
                delta: *delta,
            },
            Command::DmDecr { dmap, key, delta } => CommandView::DmDecr {
                dmap: bytes_of(*dmap),
                key: bytes_of(*key),
                delta: *delta,
            },
            Command::DmGetPut { dmap, key, value } => CommandView::DmGetPut {
                dmap: bytes_of(*dmap),
                key: bytes_of(*key),
                value: bytes_of(*value),
            },
            Command::DmIncrByFloat { dmap, key, delta } => CommandView::DmIncrByFloat {
                dmap: bytes_of(*dmap),
                key: bytes_of(*key),
                delta: delta@,
            },
            Command::DmDestroy { dmap } => CommandView::DmDestroy { dmap: bytes_of(*dmap) },
            Command::DmScan { partition_id, dmap, cursor, options } => CommandView::DmScan {
                partition_id: *partition_id,
                dmap: bytes_of(*dmap),
                cursor: *cursor,
                options: options@,
            },
            Command::InternalNodeUpdateRouting { table } =>
                CommandView::InternalNodeUpdateRouting { table: bytes_of(*table) },
            Command::InternalNodePublish { channel, message } => CommandView::InternalNodePublish {
                channel: bytes_of(*channel),
                message: bytes_of(*message),
            },
            Command::InternalNodeMoveFragment { partition_id, partition_type, dmap, payload } =>
                CommandView::InternalNodeMoveFragment {
                    partition_id: *partition_id,
                    partition_type: *partition_type,
                    dmap: bytes_of(*dmap),
                    payload: bytes_of(*payload),
                },
        }
    }
}

// ---------------------------------------------------------------------------
// Syntax
// ---------------------------------------------------------------------------

/// What parsing a command yields.
pub type CommandResult = Result<CommandView, CommandErrorView>;

/// Refusal of an argument of `v`.
pub open spec fn bad_argument(v: Verb, reason: Seq<char>) -> CommandErrorView {
    CommandErrorView::InvalidArgument { command: verb_name(v), reason }
}

/// Number at position `i` of `a`: an unsigned numeral no greater than `max`.
pub open spec fn unsigned_at(a: Seq<Seq<u8>>, i: int, max: int) -> Option<int> {
    if i < a.len() {
        match unsigned_numeral(a[i]) {
            Some(v) => if v <= max {
                Some(v)
            } else {
                None
            },
            None => None,
        }
    } else {
        None
    }
}

/// Number at position `i` of `a`: a signed numeral of 64 bits.
pub open spec fn signed_at(a: Seq<Seq<u8>>, i: int) -> Option<int> {
    if i < a.len() {
        match signed_numeral(a[i]) {
            Some(v) => if i64::MIN <= v <= i64::MAX {
                Some(v)
            } else {
                None
            },
            None => None,
        }
    } else {
        None
    }
}

/// How many of the four expiry options are given.
pub open spec fn expiry_count(o: PutCommandOptions) -> int {
    (if o.ex is Some {
        1int
    } else {
        0
    }) + (if o.px is Some {
        1int
    } else {
        0
    }) + (if o.exat is Some {
        1int
    } else {
        0
    }) + (if o.pxat is Some {
        1int
    } else {
        0
    })
}

/// Options of `DM.PUT` read from `a`, on top of `acc`.
pub open spec fn put_options(a: Seq<Seq<u8>>, acc: PutCommandOptions) -> Result<
    PutCommandOptions,
    CommandErrorView,
>
    decreases a.len(),
{
    if a.len() == 0 {
        Ok(acc)
    } else if same_word(a[0], word("NX"@)) {
        put_options(a.skip(1), PutCommandOptions { nx: true, ..acc })
    } else if same_word(a[0], word("XX"@)) {
        put_options(a.skip(1), PutCommandOptions { xx: true, ..acc })
    } else if same_word(a[0], word("EX"@)) {
        match unsigned_at(a, 1, u64::MAX as int) {
            Some(v) => put_options(a.skip(2), PutCommandOptions { ex: Some(v as u64), ..acc }),
            None => Err(bad_argument(Verb::DmPut, "EX is not an unsigned integer"@)),
        }
    } else if same_word(a[0], word("PX"@)) {
        match unsigned_at(a, 1, u64::MAX as int) {
            Some(v) => put_options(a.skip(2), PutCommandOptions { px: Some(v as u64), ..acc }),
            None => Err(bad_argument(Verb::DmPut, "PX is not an unsigned integer"@)),
        }
    } else if same_word(a[0], word("EXAT"@)) {
        match unsigned_at(a, 1, u64::MAX as int) {
            Some(v) => put_options(a.skip(2), PutCommandOptions { exat: Some(v as u64), ..acc }),
            None => Err(bad_argument(Verb::DmPut, "EXAT is not an unsigned integer"@)),
        }
    } else if same_word(a[0], word("PXAT"@)) {
        match unsigned_at(a, 1, u64::MAX as int) {
            Some(v) => put_options(a.skip(2), PutCommandOptions { pxat: Some(v as u64), ..acc }),
            None => Err(bad_argument(Verb::DmPut, "PXAT is not an unsigned integer"@)),
        }
    } else if same_word(a[0], word("TS"@)) {
        match signed_at(a, 1) {
            Some(v) => put_options(
                a.skip(2),
                PutCommandOptions { timestamp: Some(v as i64), ..acc },
            ),
            None => Err(bad_argument(Verb::DmPut, "TS is not an integer"@)),
        }
    } else {
        Err(bad_argument(Verb::DmPut, "unknown option"@))
    }
}

/// Options of `DM.PUT` as read, refused where they exclude each other.
pub open spec fn checked_put_options(a: Seq<Seq<u8>>) -> Result<
    PutCommandOptions,
    CommandErrorView,
> {
    match put_options(a, no_put_options()) {
        Err(e) => Err(e),
        Ok(o) => if o.nx && o.xx {
            Err(
                CommandErrorView::ConflictingOptions {
                    command: verb_name(Verb::DmPut),
                    detail: "NX and XX are mutually exclusive"@,
                },
            )
        } else if expiry_count(o) > 1 {
            Err(
                CommandErrorView::ConflictingOptions {
                    command: verb_name(Verb::DmPut),
                    detail: "at most one of EX/PX/EXAT/PXAT may be set"@,
                },
            )
        } else {
            Ok(o)
        },
    }
}

/// Options of `DM.SCAN` read from `a`, on top of `acc`.
pub open spec fn scan_options(a: Seq<Seq<u8>>, acc: ScanView) -> Result<ScanView, CommandErrorView>
    decreases a.len(),
{
    if a.len() == 0 {
        Ok(acc)
    } else if same_word(a[0], word("MATCH"@)) {
        if a.len() < 2 {
            Err(bad_argument(Verb::DmScan, "MATCH needs a pattern"@))
        } else {
            scan_options(a.skip(2), ScanView { match_pattern: Some(a[1]), ..acc })
        }
    } else if same_word(a[0], word("COUNT"@)) {
        match unsigned_at(a, 1, u32::MAX as int) {
            Some(v) => scan_options(a.skip(2), ScanView { count: Some(v as u32), ..acc }),
            None => Err(bad_argument(Verb::DmScan, "COUNT is not an unsigned integer"@)),
        }
    } else {
        Err(bad_argument(Verb::DmScan, "unknown option"@))
    }
}

/// Options of `HELLO` read from `a`, on top of `acc`. `AUTH` takes a user name
/// and a password, or a password alone where an odd number of words is left.
pub open spec fn hello_options(a: Seq<Seq<u8>>, acc: HelloView) -> Result<
    HelloView,
    CommandErrorView,
>
    decreases a.len(),
{
    if a.len() == 0 {
        Ok(acc)
    } else if same_word(a[0], word("AUTH"@)) {
        if a.len() < 2 {
            Err(bad_argument(Verb::Hello, "AUTH needs a password"@))
        } else if a.len() % 2 == 0 {
            hello_options(a.skip(2), HelloView { auth: Some((None, a[1])), ..acc })
        } else {
            hello_options(a.skip(3), HelloView { auth: Some((Some(a[1]), a[2])), ..acc })
        }
    } else if same_word(a[0], word("SETNAME"@)) {
        if a.len() < 2 {
            Err(bad_argument(Verb::Hello, "SETNAME needs a name"@))
        } else {
            hello_options(a.skip(2), HelloView { client_name: Some(a[1]), ..acc })
        }
    } else {
        Err(bad_argument(Verb::Hello, "unknown option"@))
    }
}

/// Arguments of `HELLO`: a protocol version unless an option comes first, then
/// options.
pub open spec fn hello_of(a: Seq<Seq<u8>>) -> Result<HelloView, CommandErrorView> {
    let query = HelloView { protocol_version: None, auth: None, client_name: None };
    if a.len() == 0 || same_word(a[0], word("AUTH"@)) || same_word(a[0], word("SETNAME"@)) {
        hello_options(a, query)
    } else {
        match unsigned_at(a, 0, u32::MAX as int) {
            Some(v) => hello_options(
                a.skip(1),
                HelloView { protocol_version: Some(v as u32), ..query },
            ),
            None => Err(
                bad_argument(Verb::Hello, "protocol version is not an unsigned integer"@),
            ),
        }
    }
}

/// The command of verb `v` with arguments `a`, whose number is right for `v`.
pub open spec fn body_of(v: Verb, a: Seq<Seq<u8>>) -> CommandResult {
    match v {
        Verb::Ping => Ok(
            CommandView::Ping(
                if a.len() == 1 {
                    Some(a[0])
                } else {
                    None
                },
            ),
        ),
        Verb::Auth => Ok(
            if a.len() == 1 {
                CommandView::Auth { username: None, password: a[0] }
            } else {
                CommandView::Auth { username: Some(a[0]), password: a[1] }
            },
        ),
        Verb::Hello => match hello_of(a) {
            Ok(h) => Ok(CommandView::Hello(h)),
            Err(e) => Err(e),
        },
        Verb::Quit => Ok(CommandView::Quit),
        Verb::Stats => Ok(CommandView::Stats),
        Verb::DmPut => match checked_put_options(a.skip(3)) {
            Ok(options) => Ok(
                CommandView::DmPut { dmap: a[0], key: a[1], value: a[2], options },
            ),
            Err(e) => Err(e),
        },
        Verb::DmGet => Ok(CommandView::DmGet { dmap: a[0], key: a[1] }),
        Verb::DmDel => Ok(CommandView::DmDel { dmap: a[0], keys: a.skip(1) }),
        Verb::DmExpire => match unsigned_at(a, 2, u64::MAX as int) {
            Some(n) => Ok(CommandView::DmExpire { dmap: a[0], key: a[1], seconds: n as u64 }),
            None => Err(bad_argument(v, "seconds is not an unsigned integer"@)),
        },
        Verb::DmPexpire => match unsigned_at(a, 2, u64::MAX as int) {
            Some(n) => Ok(
                CommandView::DmPexpire { dmap: a[0], key: a[1], milliseconds: n as u64 },
            ),
            None => Err(bad_argument(v, "milliseconds is not an unsigned integer"@)),
        },
        Verb::DmIncr => match signed_at(a, 2) {
            Some(n) => Ok(CommandView::DmIncr { dmap: a[0], key: a[1], delta: n as i64 }),
            None => Err(bad_argument(v, "delta is not an integer"@)),
        },
        Verb::DmDecr => match signed_at(a, 2) {
            Some(n) => Ok(CommandView::DmDecr { dmap: a[0], key: a[1], delta: n as i64 }),
            None => Err(bad_argument(v, "delta is not an integer"@)),
        },
        Verb::DmGetPut => Ok(CommandView::DmGetPut { dmap: a[0], key: a[1], value: a[2] }),
        Verb::DmIncrByFloat => if is_double(a[2]) {
            Ok(CommandView::DmIncrByFloat { dmap: a[0], key: a[1], delta: a[2] })
        } else {
            Err(bad_argument(v, "delta is not a number"@))
        },
        Verb::DmDestroy => Ok(CommandView::DmDestroy { dmap: a[0] }),
        Verb::DmScan => match unsigned_at(a, 0, u32::MAX as int) {
            None => Err(bad_argument(v, "partition id is not an unsigned integer"@)),
            Some(p) => match unsigned_at(a, 2, u64::MAX as int) {
                None => Err(bad_argument(v, "cursor is not an unsigned integer"@)),
                Some(c) => match scan_options(
                    a.skip(3),
                    ScanView { match_pattern: None, count: None },
                ) {
                    Err(e) => Err(e),
                    Ok(options) => Ok(
                        CommandView::DmScan {
                            partition_id: p as u32,
                            dmap: a[1],
                            cursor: c as u64,
                            options,
                        },
                    ),
                },
            },
        },
        Verb::NodeUpdateRouting => Ok(CommandView::InternalNodeUpdateRouting { table: a[0] }),
        Verb::NodePublish => Ok(
            CommandView::InternalNodePublish { channel: a[0], message: a[1] },
        ),
        Verb::NodeMoveFragment => match unsigned_at(a, 0, u32::MAX as int) {
            None => Err(bad_argument(v, "partition id is not an unsigned integer"@)),
            Some(p) => match partition_type_of(a[1]) {
                None => Err(bad_argument(v, "partition type is neither PRIMARY nor BACKUP"@)),
                Some(t) => Ok(
                    CommandView::InternalNodeMoveFragment {
                        partition_id: p as u32,
                        partition_type: t,
                        dmap: a[2],
                        payload: a[3],
                    },
                ),
            },
        },
    }
}

/// The partition type that `b` spells.
pub open spec fn partition_type_of(b: Seq<u8>) -> Option<PartitionType> {
    if same_word(b, word("PRIMARY"@)) {
        Some(PartitionType::Primary)
    } else if same_word(b, word("BACKUP"@)) {
        Some(PartitionType::Backup)
    } else {
        None
    }
}

/// The command that a list of words spells: a verb, then its arguments.
pub open spec fn command_of(args: Seq<Seq<u8>>) -> CommandResult {
    if args.len() == 0 {
        Err(CommandErrorView::NotAnArray)
    } else {
        match verb_of(args[0]) {
            None => Err(CommandErrorView::UnknownCommand(lossy_text(args[0]))),
            Some(v) => if !arity_met(verb_arity(v), args.len() - 1) {
                Err(
                    CommandErrorView::WrongArity {
                        command: verb_name(v),
                        expected: verb_arity(v),
                        got: args.len() - 1,
                    },
                )
            } else {
                body_of(v, args.skip(1))
            },
        }
    }
}

/// The words of an array of bulk strings; `None` for any other frame.
pub open spec fn words_of(f: FrameView) -> Option<Seq<Seq<u8>>> {
    match f {
        FrameView::Array(Some(items)) => if forall|i: int|
            0 <= i < items.len() ==> is_word(#[trigger] items[i]) {
            Some(Seq::new(items.len(), |i: int| items[i]->Bulk_0->0))
        } else {
            None
        },
        _ => None,
    }
}

/// Whether a frame is a bulk string other than null.
pub open spec fn is_word(f: FrameView) -> bool {
    f matches FrameView::Bulk(Some(_))
}

/// The array of bulk strings that holds `words`.
pub open spec fn frame_of(words: Seq<Seq<u8>>) -> FrameView {
    FrameView::Array(Some(Seq::new(words.len(), |i: int| FrameView::Bulk(Some(words[i])))))
}

// ---------------------------------------------------------------------------
// Parser
// ---------------------------------------------------------------------------

/// Value of what parsing returned.
pub open spec fn command_result(r: Result<Command, CommandError>) -> CommandResult {
    match r {
        Ok(c) => Ok(c@),
        Err(e) => Err(e@),
    }
}

fn refuse(v: Verb, reason: &str) -> (r: CommandError)
    ensures
        r@ == bad_argument(v, reason@),
{
    CommandError::InvalidArgument { command: v.name(), reason: reason.to_owned() }
}

fn read_unsigned(a: &Vec<Bytes>, i: usize, max: u64) -> (r: Option<u64>)
    ensures
        unsigned_at(list_of(a@), i as int, max as int) == (match r {
            Some(v) => Some(v as int),
            None => None,
        }),
{
    if i < a.len() {
        let b: &[u8] = bytes_slice(&a[i]);
        proof {
            assert(list_of(a@)[i as int] == b@);
            crate::text::lemma_unsigned_numeral_nonneg(b@);
        }
        parse_unsigned(b, max)
    } else {
        None
    }
}

fn read_signed(a: &Vec<Bytes>, i: usize) -> (r: Option<i64>)
    ensures
        signed_at(list_of(a@), i as int) == (match r {
            Some(v) => Some(v as int),
            None => None,
        }),
{
    if i < a.len() {
        let b: &[u8] = bytes_slice(&a[i]);
        assert(list_of(a@)[i as int] == b@);
        parse_signed(b)
    } else {
        None
    }
}

fn word_is(a: &Vec<Bytes>, i: usize, w: &str) -> (r: bool)
    requires
        i < a@.len(),
    ensures
        r == same_word(list_of(a@)[i as int], word(w@)),
{
    is_same_word(bytes_slice(&a[i]), w.as_bytes())
}

/// Reads the options of `DM.PUT` from position `from` on.
fn parse_put_options(a: &Vec<Bytes>, from: usize) -> (r: Result<PutCommandOptions, CommandError>)
    requires
        from <= a@.len(),
    ensures
        checked_put_options(list_of(a@).skip(from as int)) == (match r {
            Ok(o) => Ok::<PutCommandOptions, CommandErrorView>(o),
            Err(e) => Err(e@),
        }),
{
    let ghost words = list_of(a@);
    let mut o: PutCommandOptions = PutCommandOptions::default();
    let mut i: usize = from;
    let n: usize = a.len();
    while i < n
        invariant
            from <= i <= n,
            n == a@.len(),
            words == list_of(a@),
            put_options(words.skip(from as int), no_put_options()) == put_options(
                words.skip(i as int),
                o,
            ),
        decreases n - i,
    {
        let ghost rest = words.skip(i as int);
        proof {
            assert(rest[0] == words[i as int]);
            assert(i + 1 < n ==> rest[1] == words[i + 1]);
            assert(rest.skip(1) =~= words.skip(i + 1));
            assert(i + 2 <= n ==> rest.skip(2) =~= words.skip(i + 2));
        }
        if word_is(a, i, "NX") {
            o.nx = true;
            i = i + 1;
        } else if word_is(a, i, "XX") {
            o.xx = true;
            i = i + 1;
        } else if word_is(a, i, "EX") {
            match read_unsigned(a, i + 1, u64::MAX) {
                Some(v) => {
                    o.ex = Some(v);
                    i = i + 2;
                },
                None => return Err(refuse(Verb::DmPut, "EX is not an unsigned integer")),
            }
        } else if word_is(a, i, "PX") {
            match read_unsigned(a, i + 1, u64::MAX) {
                Some(v) => {
                    o.px = Some(v);
                    i = i + 2;
                },
                None => return Err(refuse(Verb::DmPut, "PX is not an unsigned integer")),
            }
        } else if word_is(a, i, "EXAT") {
            match read_unsigned(a, i + 1, u64::MAX) {
                Some(v) => {
                    o.exat = Some(v);
                    i = i + 2;
                },
                None => return Err(refuse(Verb::DmPut, "EXAT is not an unsigned integer")),
            }
        } else if word_is(a, i, "PXAT") {
            match read_unsigned(a, i + 1, u64::MAX) {
                Some(v) => {
                    o.pxat = Some(v);
                    i = i + 2;
                },
                None => return Err(refuse(Verb::DmPut, "PXAT is not an unsigned integer")),
            }
        } else if word_is(a, i, "TS") {
            match read_signed(a, i + 1) {
                Some(v) => {
                    o.timestamp = Some(v);
                    i = i + 2;
                },
                None => return Err(refuse(Verb::DmPut, "TS is not an integer")),
            }
        } else {
            return Err(refuse(Verb::DmPut, "unknown option"));
        }
    }
    if o.nx && o.xx {
        return Err(
            CommandError::ConflictingOptions {
                command: Verb::DmPut.name(),
                detail: "NX and XX are mutually exclusive",
            },
        );
    }
    let many: bool = (o.ex.is_some() && (o.px.is_some() || o.exat.is_some() || o.pxat.is_some()))
        || (o.px.is_some() && (o.exat.is_some() || o.pxat.is_some())) || (o.exat.is_some()
        && o.pxat.is_some());
    if many {
        return Err(
            CommandError::ConflictingOptions {
                command: Verb::DmPut.name(),
                detail: "at most one of EX/PX/EXAT/PXAT may be set",
            },
        );
    }
    Ok(o)
}

/// Reads the options of `DM.SCAN` from position `from` on.
fn parse_scan_options(a: &Vec<Bytes>, from: usize) -> (r: Result<ScanCommandOptions, CommandError>)
    requires
        from <= a@.len(),
    ensures
        scan_options(
            list_of(a@).skip(from as int),
            ScanView { match_pattern: None, count: None },
        ) == (match r {
            Ok(o) => Ok::<ScanView, CommandErrorView>(o@),
            Err(e) => Err(e@),
        }),
{
    let ghost words = list_of(a@);
    let mut o: ScanCommandOptions = ScanCommandOptions::default();
    let mut i: usize = from;
    let n: usize = a.len();
    while i < n
        invariant
            from <= i <= n,
            n == a@.len(),
            words == list_of(a@),
            scan_options(
                words.skip(from as int),
                ScanView { match_pattern: None, count: None },
            ) == scan_options(words.skip(i as int), o@),
        decreases n - i,
    {
        let ghost rest = words.skip(i as int);
        proof {
            assert(rest[0] == words[i as int]);
            assert(i + 1 < n ==> rest[1] == words[i + 1]);
            assert(i + 2 <= n ==> rest.skip(2) =~= words.skip(i + 2));
        }
        if word_is(a, i, "MATCH") {
            if n - i < 2 {
                return Err(refuse(Verb::DmScan, "MATCH needs a pattern"));
            }
            o.match_pattern = Some(bytes_clone(&a[i + 1]));
            i = i + 2;
        } else if word_is(a, i, "COUNT") {
            match read_unsigned(a, i + 1, u32::MAX as u64) {
                Some(v) => {
                    o.count = Some(v as u32);
                    i = i + 2;
                },
                None => return Err(refuse(Verb::DmScan, "COUNT is not an unsigned integer")),
            }
        } else {
            return Err(refuse(Verb::DmScan, "unknown option"));
        }
    }
    Ok(o)
}

/// Reads the arguments of `HELLO`.
fn parse_hello(a: &Vec<Bytes>) -> (r: Result<HelloArgs, CommandError>)
    ensures
        hello_of(list_of(a@)) == (match r {
            Ok(h) => Ok::<HelloView, CommandErrorView>(h@),
            Err(e) => Err(e@),
        }),
{
    let ghost words = list_of(a@);
    let n: usize = a.len();
    let mut h: HelloArgs = HelloArgs::default();
    let mut i: usize = 0;
    if n > 0 && !word_is(a, 0, "AUTH") && !word_is(a, 0, "SETNAME") {
        match read_unsigned(a, 0, u32::MAX as u64) {
            Some(v) => {
                h.protocol_version = Some(v as u32);
                i = 1;
            },
            None => return Err(
                refuse(Verb::Hello, "protocol version is not an unsigned integer"),
            ),
        }
    }
    assert(words.skip(0) =~= words);
    while i < n
        invariant
            i <= n,
            n == a@.len(),
            words == list_of(a@),
            hello_of(words) == hello_options(words.skip(i as int), h@),
        decreases n - i,
    {
        let ghost rest = words.skip(i as int);
        proof {
            assert(rest[0] == words[i as int]);
            assert(i + 1 < n ==> rest[1] == words[i + 1]);
            assert(i + 2 < n ==> rest[2] == words[i + 2]);
            assert(i + 2 <= n ==> rest.skip(2) =~= words.skip(i + 2));
            assert(i + 3 <= n ==> rest.skip(3) =~= words.skip(i + 3));
        }
        if word_is(a, i, "AUTH") {
            if n - i < 2 {
                return Err(refuse(Verb::Hello, "AUTH needs a password"));
            }
            if (n - i) % 2 == 0 {
                h.auth = Some((None, bytes_clone(&a[i + 1])));
                i = i + 2;
            } else {
                h.auth = Some((Some(bytes_clone(&a[i + 1])), bytes_clone(&a[i + 2])));
                i = i + 3;
            }
        } else if word_is(a, i, "SETNAME") {
            if n - i < 2 {
                return Err(refuse(Verb::Hello, "SETNAME needs a name"));
            }
            h.client_name = Some(bytes_clone(&a[i + 1]));
            i = i + 2;
        } else {
            return Err(refuse(Verb::Hello, "unknown option"));
        }
    }
    Ok(h)
}

fn rest_of(a: &Vec<Bytes>, from: usize) -> (r: Vec<Bytes>)
    requires
        from <= a@.len(),
    ensures
        list_of(r@) == list_of(a@).skip(from as int),
{
    let mut out: Vec<Bytes> = Vec::new();
    let mut i: usize = from;
    while i < a.len()
        invariant
            from <= i <= a@.len(),
            out@.len() == i - from,
            forall|j: int|
                0 <= j < out@.len() ==> bytes_of(#[trigger] out@[j]) == bytes_of(a@[from + j]),
        decreases a@.len() - i,
    {
        out.push(bytes_clone(&a[i]));
        i = i + 1;
    }
    assert(list_of(out@) =~= list_of(a@).skip(from as int));
    out
}

/// Builds the command of verb `v` from its arguments.
#[verifier::rlimit(40)]
fn parse_body(v: Verb, a: &Vec<Bytes>) -> (r: Result<Command, CommandError>)
    requires
        arity_met(verb_arity(v), a@.len() as int),
    ensures
        command_result(r) == body_of(v, list_of(a@)),
{
    let ghost words = list_of(a@);
    match v {
        Verb::Ping => Ok(
            Command::Ping(
                if a.len() == 1 {
                    Some(bytes_clone(&a[0]))
                } else {
                    None
                },
            ),
        ),
        Verb::Auth => if a.len() == 1 {
            Ok(Command::Auth { username: None, password: bytes_clone(&a[0]) })
        } else {
            Ok(Command::Auth { username: Some(bytes_clone(&a[0])), password: bytes_clone(&a[1]) })
        },
        Verb::Hello => match parse_hello(a) {
            Ok(h) => Ok(Command::Hello(h)),
            Err(e) => Err(e),
        },
        Verb::Quit => Ok(Command::Quit),
        Verb::Stats => Ok(Command::Stats),
        Verb::DmPut => match parse_put_options(a, 3) {
            Ok(options) => Ok(
                Command::DmPut {
                    dmap: bytes_clone(&a[0]),
                    key: bytes_clone(&a[1]),
                    value: bytes_clone(&a[2]),
                    options,
                },
            ),
            Err(e) => Err(e),
        },
        Verb::DmGet => Ok(Command::DmGet { dmap: bytes_clone(&a[0]), key: bytes_clone(&a[1]) }),
        Verb::DmDel => Ok(Command::DmDel { dmap: bytes_clone(&a[0]), keys: rest_of(a, 1) }),
        Verb::DmExpire => match read_unsigned(a, 2, u64::MAX) {
            Some(n) => Ok(
                Command::DmExpire {
                    dmap: bytes_clone(&a[0]),
                    key: bytes_clone(&a[1]),
                    seconds: n,
                },
            ),
            None => Err(refuse(v, "seconds is not an unsigned integer")),
        },
        Verb::DmPexpire => match read_unsigned(a, 2, u64::MAX) {
            Some(n) => Ok(
                Command::DmPexpire {
                    dmap: bytes_clone(&a[0]),
                    key: bytes_clone(&a[1]),
                    milliseconds: n,
                },
            ),
            None => Err(refuse(v, "milliseconds is not an unsigned integer")),
        },
        Verb::DmIncr => match read_signed(a, 2) {
            Some(n) => Ok(
                Command::DmIncr { dmap: bytes_clone(&a[0]), key: bytes_clone(&a[1]), delta: n },
            ),
            None => Err(refuse(v, "delta is not an integer")),
        },
        Verb::DmDecr => match read_signed(a, 2) {
            Some(n) => Ok(
                Command::DmDecr { dmap: bytes_clone(&a[0]), key: bytes_clone(&a[1]), delta: n },
            ),
            None => Err(refuse(v, "delta is not an integer")),
        },
        Verb::DmGetPut => Ok(
            Command::DmGetPut {
                dmap: bytes_clone(&a[0]),
                key: bytes_clone(&a[1]),
                value: bytes_clone(&a[2]),
            },
        ),
        Verb::DmIncrByFloat => match DoubleText::parse(bytes_slice(&a[2])) {
            Some(delta) => Ok(
                Command::DmIncrByFloat { dmap: bytes_clone(&a[0]), key: bytes_clone(&a[1]), delta },
            ),
            None => Err(refuse(v, "delta is not a number")),
        },
        Verb::DmDestroy => Ok(Command::DmDestroy { dmap: bytes_clone(&a[0]) }),
        Verb::DmScan => match read_unsigned(a, 0, u32::MAX as u64) {
            None => Err(refuse(v, "partition id is not an unsigned integer")),
            Some(p) => match read_unsigned(a, 2, u64::MAX) {
                None => Err(refuse(v, "cursor is not an unsigned integer")),
                Some(cursor) => match parse_scan_options(a, 3) {
                    Err(e) => Err(e),
                    Ok(options) => Ok(
                        Command::DmScan {
                            partition_id: p as u32,
                            dmap: bytes_clone(&a[1]),
                            cursor,
                            options,
                        },
                    ),
                },
            },
        },
        Verb::NodeUpdateRouting => Ok(
            Command::InternalNodeUpdateRouting { table: bytes_clone(&a[0]) },
        ),
        Verb::NodePublish => Ok(
            Command::InternalNodePublish {
                channel: bytes_clone(&a[0]),
                message: bytes_clone(&a[1]),
            },
        ),
        Verb::NodeMoveFragment => match read_unsigned(a, 0, u32::MAX as u64) {
            None => Err(refuse(v, "partition id is not an unsigned integer")),
            Some(p) => {
                let partition_type: PartitionType = if word_is(a, 1, "PRIMARY") {
                    PartitionType::Primary
                } else if word_is(a, 1, "BACKUP") {
                    PartitionType::Backup
                } else {
                    return Err(refuse(v, "partition type is neither PRIMARY nor BACKUP"));
                };
                Ok(
                    Command::InternalNodeMoveFragment {
                        partition_id: p as u32,
                        partition_type,
                        dmap: bytes_clone(&a[2]),
                        payload: bytes_clone(&a[3]),
                    },
                )
            },
        },
    }
}

/// The words of an array of bulk strings.
fn collect_words(frame: &Frame) -> (r: Option<Vec<Bytes>>)
    ensures
        words_of(frame@) == (match r {
            Some(v) => Some(list_of(v@)),
            None => None,
        }),
{
    match frame {
        Frame::Array(Some(items)) => {
            let ghost views = frames_view(items@);
            let mut out: Vec<Bytes> = Vec::new();
            let mut i: usize = 0;
            while i < items.len()
                invariant
                    i <= items@.len(),
                    views == frames_view(items@),
                    frame@ == FrameView::Array(Some(views)),
                    out@.len() == i,
                    forall|j: int|
                        0 <= j < i ==> is_word(#[trigger] views[j]) && views[j]->Bulk_0->0
                            == bytes_of(out@[j]),
                decreases items@.len() - i,
            {
                assert(views[i as int] == items@[i as int]@);
                match &items[i] {
                    Frame::Bulk(BulkString(Some(b))) => {
                        out.push(bytes_clone(b));
                    },
                    _ => {
                        assert(!is_word(views[i as int]));
                        return None;
                    },
                }
                i = i + 1;
            }
            proof {
                let words = words_of(frame@);
                assert(words is Some);
                assert(words->0 =~= list_of(out@));
            }
            Some(out)
        },
        _ => None,
    }
}

impl Command {
    /// Parses an array of bulk strings into a command.
    pub fn parse(frame: Frame) -> (r: Result<Self, CommandError>)
        ensures
            command_result(r) == (match words_of(frame@) {
                Some(words) => command_of(words),
                None => Err(CommandErrorView::NotAnArray),
            }),
    {
        let words: Vec<Bytes> = match collect_words(&frame) {
            Some(w) => w,
            None => return Err(CommandError::NotAnArray),
        };
        if words.len() == 0 {
            return Err(CommandError::NotAnArray);
        }
        let first: &[u8] = bytes_slice(&words[0]);
        match Verb::recognise(first) {
            None => Err(CommandError::UnknownCommand(string_from_utf8_lossy(first))),
            Some(v) => {
                let got: usize = words.len() - 1;
                if !v.takes(got) {
                    return Err(
                        CommandError::WrongArity { command: v.name(), expected: v.arity(), got },
                    );
                }
                let args: Vec<Bytes> = rest_of(&words, 1);
                assert(args@.len() == list_of(args@).len());
                parse_body(v, &args)
            },
        }
    }
}

// ---------------------------------------------------------------------------
// Encoder
// ---------------------------------------------------------------------------

/// `w` followed by the numeral of an optional number; nothing where it is not
/// given.
pub open spec fn option_words(w: Seq<char>, n: Option<int>) -> Seq<Seq<u8>> {
    match n {
        Some(v) => seq![word(w), signed_decimal(v)],
        None => Seq::empty(),
    }
}

/// `w`, where the flag is set.
pub open spec fn flag_words(w: Seq<char>, set: bool) -> Seq<Seq<u8>> {
    if set {
        seq![word(w)]
    } else {
        Seq::empty()
    }
}

/// Number of an optional unsigned integer.
pub open spec fn opt_int(n: Option<u64>) -> Option<int> {
    match n {
        Some(v) => Some(v as int),
        None => None,
    }
}

/// Words of the options of `DM.PUT`.
pub open spec fn put_words(o: PutCommandOptions) -> Seq<Seq<u8>> {
    option_words("EX"@, opt_int(o.ex)) + (option_words("PX"@, opt_int(o.px)) + (option_words(
        "EXAT"@,
        opt_int(o.exat),
    ) + (option_words("PXAT"@, opt_int(o.pxat)) + (flag_words("NX"@, o.nx) + (flag_words(
        "XX"@,
        o.xx,
    ) + option_words(
        "TS"@,
        match o.timestamp {
            Some(v) => Some(v as int),
            None => None,
        },
    ))))))
}

/// Words of the options of `DM.SCAN`.
pub open spec fn scan_words(o: ScanView) -> Seq<Seq<u8>> {
    (match o.match_pattern {
        Some(p) => seq![word("MATCH"@), p],
        None => Seq::empty(),
    }) + option_words(
        "COUNT"@,
        match o.count {
            Some(v) => Some(v as int),
            None => None,
        },
    )
}

/// Words of the options of `HELLO`.
pub open spec fn hello_words(h: HelloView) -> Seq<Seq<u8>> {
    (match h.auth {
        Some((None, p)) => seq![word("AUTH"@), p],
        Some((Some(u), p)) => seq![word("AUTH"@), u, p],
        None => Seq::empty(),
    }) + (match h.client_name {
        Some(n) => seq![word("SETNAME"@), n],
        None => Seq::empty(),
    })
}

/// Canonical spelling of a partition type.
pub open spec fn partition_type_name(t: PartitionType) -> Seq<char> {
    match t {
        PartitionType::Primary => "PRIMARY"@,
        PartitionType::Backup => "BACKUP"@,
    }
}

/// Verb of a command.
pub open spec fn verb_for(c: CommandView) -> Verb {
    match c {
        CommandView::Ping(_) => Verb::Ping,
        CommandView::Auth { .. } => Verb::Auth,
        CommandView::Hello(_) => Verb::Hello,
        CommandView::Quit => Verb::Quit,
        CommandView::Stats => Verb::Stats,
        CommandView::DmPut { .. } => Verb::DmPut,
        CommandView::DmGet { .. } => Verb::DmGet,
        CommandView::DmDel { .. } => Verb::DmDel,
        CommandView::DmExpire { .. } => Verb::DmExpire,
        CommandView::DmPexpire { .. } => Verb::DmPexpire,
        CommandView::DmIncr { .. } => Verb::DmIncr,
        CommandView::DmDecr { .. } => Verb::DmDecr,
        CommandView::DmGetPut { .. } => Verb::DmGetPut,
        CommandView::DmIncrByFloat { .. } => Verb::DmIncrByFloat,
        CommandView::DmDestroy { .. } => Verb::DmDestroy,
        CommandView::DmScan { .. } => Verb::DmScan,
        CommandView::InternalNodeUpdateRouting { .. } => Verb::NodeUpdateRouting,
        CommandView::InternalNodePublish { .. } => Verb::NodePublish,
        CommandView::InternalNodeMoveFragment { .. } => Verb::NodeMoveFragment,
    }
}

/// Arguments of a command, in the order of its syntax.
pub open spec fn arguments(c: CommandView) -> Seq<Seq<u8>> {
    match c {
        CommandView::Ping(m) => match m {
            Some(b) => seq![b],
            None => Seq::empty(),
        },
        CommandView::Auth { username, password } => match username {
            Some(u) => seq![u, password],
            None => seq![password],
        },
        CommandView::Hello(h) => (match h.protocol_version {
            Some(v) => seq![decimal(v as nat)],
            None => Seq::empty(),
        }) + hello_words(h),
        CommandView::Quit => Seq::empty(),
        CommandView::Stats => Seq::empty(),
        CommandView::DmPut { dmap, key, value, options } => seq![dmap, key, value] + put_words(
            options,
        ),
        CommandView::DmGet { dmap, key } => seq![dmap, key],
        CommandView::DmDel { dmap, keys } => seq![dmap] + keys,
        CommandView::DmExpire { dmap, key, seconds } => seq![dmap, key, decimal(seconds as nat)],
        CommandView::DmPexpire { dmap, key, milliseconds } => seq![
            dmap,
            key,
            decimal(milliseconds as nat),
        ],
        CommandView::DmIncr { dmap, key, delta } => seq![dmap, key, signed_decimal(delta as int)],
        CommandView::DmDecr { dmap, key, delta } => seq![dmap, key, signed_decimal(delta as int)],
        CommandView::DmGetPut { dmap, key, value } => seq![dmap, key, value],
        CommandView::DmIncrByFloat { dmap, key, delta } => seq![dmap, key, delta],
        CommandView::DmDestroy { dmap } => seq![dmap],
        CommandView::DmScan { partition_id, dmap, cursor, options } => seq![
            decimal(partition_id as nat),
            dmap,
            decimal(cursor as nat),
        ] + scan_words(options),
        CommandView::InternalNodeUpdateRouting { table } => seq![table],
        CommandView::InternalNodePublish { channel, message } => seq![channel, message],
        CommandView::InternalNodeMoveFragment { partition_id, partition_type, dmap, payload } =>
            seq![
                decimal(partition_id as nat),
                word(partition_type_name(partition_type)),
                dmap,
                payload,
            ],
    }
}

/// The words that spell a command: its verb, then its arguments.
pub open spec fn command_words(c: CommandView) -> Seq<Seq<u8>> {
    seq![word(verb_name(verb_for(c)))] + arguments(c)
}

proof fn lemma_assoc(a: Seq<Seq<u8>>, b: Seq<Seq<u8>>, c: Seq<Seq<u8>>)
    ensures
        (a + b) + c == a + (b + c),
{
    assert((a + b) + c =~= a + (b + c));
}

proof fn lemma_put_words(
    o: PutCommandOptions,
    ts: Seq<Seq<u8>>,
    xx: Seq<Seq<u8>>,
    nx: Seq<Seq<u8>>,
    pxat: Seq<Seq<u8>>,
    exat: Seq<Seq<u8>>,
    px: Seq<Seq<u8>>,
)
    requires
        ts == option_words(
            "TS"@,
            match o.timestamp {
                Some(v) => Some(v as int),
                None => None,
            },
        ),
        xx == flag_words("XX"@, o.xx) + ts,
        nx == flag_words("NX"@, o.nx) + xx,
        pxat == option_words("PXAT"@, opt_int(o.pxat)) + nx,
        exat == option_words("EXAT"@, opt_int(o.exat)) + pxat,
        px == option_words("PX"@, opt_int(o.px)) + exat,
    ensures
        put_words(o) == option_words("EX"@, opt_int(o.ex)) + px,
{
}

/// A list of words under construction.
struct Words {
    items: Vec<Frame>,
}

impl Words {
    spec fn list(&self) -> Seq<Seq<u8>> {
        Seq::new(self.items@.len(), |i: int| self.items@[i]@->Bulk_0->0)
    }

    spec fn valid(&self) -> bool {
        forall|i: int| 0 <= i < self.items@.len() ==> is_word(#[trigger] frame_value(self.items@[i]))
    }

    fn push(&mut self, b: Bytes)
        requires
            old(self).valid(),
        ensures
            final(self).valid(),
            final(self).list() == old(self).list().push(bytes_of(b)),
    {
        let f: Frame = Frame::Bulk(BulkString::from_bytes(b));
        let ghost before = self.items@;
        self.items.push(f);
        proof {
            assert forall|i: int| 0 <= i < self.items@.len() implies is_word(
                #[trigger] frame_value(self.items@[i]),
            ) by {
                if i < before.len() {
                    assert(is_word(frame_value(before[i])));
                }
            }
            assert(self.list() =~= old(self).list().push(bytes_of(b)));
        }
    }

    fn put(&mut self, b: &[u8])
        requires
            old(self).valid(),
        ensures
            final(self).valid(),
            final(self).list() == old(self).list().push(b@),
    {
        self.push(bytes_from_slice(b));
    }

    fn put_number(&mut self, n: u64)
        requires
            old(self).valid(),
        ensures
            final(self).valid(),
            final(self).list() == old(self).list().push(decimal(n as nat)),
    {
        self.push(bytes_from_vec(decimal_bytes(n)));
    }

    fn put_signed(&mut self, n: i64)
        requires
            old(self).valid(),
        ensures
            final(self).valid(),
            final(self).list() == old(self).list().push(signed_decimal(n as int)),
    {
        self.push(bytes_from_vec(signed_decimal_bytes(n)));
    }

    fn put_option(&mut self, w: &str, n: Option<u64>)
        requires
            old(self).valid(),
        ensures
            final(self).valid(),
            final(self).list() == old(self).list() + option_words(w@, opt_int(n)),
    {
        if let Some(v) = n {
            self.put(w.as_bytes());
            self.put_number(v);
        }
        assert(self.list() =~= old(self).list() + option_words(w@, opt_int(n)));
    }

    fn put_flag(&mut self, w: &str, set: bool)
        requires
            old(self).valid(),
        ensures
            final(self).valid(),
            final(self).list() == old(self).list() + flag_words(w@, set),
    {
        if set {
            self.put(w.as_bytes());
        }
        assert(self.list() =~= old(self).list() + flag_words(w@, set));
    }

    fn put_put_options(&mut self, o: &PutCommandOptions)
        requires
            old(self).valid(),
        ensures
            final(self).valid(),
            final(self).list() == old(self).list() + put_words(*o),
    {
        let ghost ts = option_words(
            "TS"@,
            match o.timestamp {
                Some(v) => Some(v as int),
                None => None,
            },
        );
        let ghost xx = flag_words("XX"@, o.xx) + ts;
        let ghost nx = flag_words("NX"@, o.nx) + xx;
        let ghost pxat = option_words("PXAT"@, opt_int(o.pxat)) + nx;
        let ghost exat = option_words("EXAT"@, opt_int(o.exat)) + pxat;
        let ghost px = option_words("PX"@, opt_int(o.px)) + exat;
        proof {
            lemma_put_words(*o, ts, xx, nx, pxat, exat, px);
            lemma_assoc(self.list(), option_words("EX"@, opt_int(o.ex)), px);
        }
        self.put_option("EX", o.ex);
        proof {
            lemma_assoc(self.list(), option_words("PX"@, opt_int(o.px)), exat);
        }
        self.put_option("PX", o.px);
        proof {
            lemma_assoc(self.list(), option_words("EXAT"@, opt_int(o.exat)), pxat);
        }
        self.put_option("EXAT", o.exat);
        proof {
            lemma_assoc(self.list(), option_words("PXAT"@, opt_int(o.pxat)), nx);
        }
        self.put_option("PXAT", o.pxat);
        proof {
            lemma_assoc(self.list(), flag_words("NX"@, o.nx), xx);
        }
        self.put_flag("NX", o.nx);
        proof {
            lemma_assoc(self.list(), flag_words("XX"@, o.xx), ts);
        }
        self.put_flag("XX", o.xx);
        let ghost before = self.list();
        assert(before + ts == old(self).list() + put_words(*o));
        if let Some(v) = o.timestamp {
            self.put("TS".as_bytes());
            self.put_signed(v);
        }
        assert(self.list() =~= before + ts);
    }

    fn put_scan_options(&mut self, o: &ScanCommandOptions)
        requires
            old(self).valid(),
        ensures
            final(self).valid(),
            final(self).list() == old(self).list() + scan_words(o@),
    {
        if let Some(p) = &o.match_pattern {
            self.put("MATCH".as_bytes());
            self.push(bytes_clone(p));
        }
        if let Some(n) = o.count {
            self.put("COUNT".as_bytes());
            self.put_number(n as u64);
        }
        assert(self.list() =~= old(self).list() + scan_words(o@));
    }

    fn put_hello(&mut self, h: &HelloArgs)
        requires
            old(self).valid(),
        ensures
            final(self).valid(),
            final(self).list() == old(self).list() + arguments(CommandView::Hello(h@)),
    {
        if let Some(v) = h.protocol_version {
            self.put_number(v as u64);
        }
        if let Some((u, p)) = &h.auth {
            self.put("AUTH".as_bytes());
            if let Some(u) = u {
                self.push(bytes_clone(u));
            }
            self.push(bytes_clone(p));
        }
        if let Some(n) = &h.client_name {
            self.put("SETNAME".as_bytes());
            self.push(bytes_clone(n));
        }
        assert(self.list() =~= old(self).list() + arguments(CommandView::Hello(h@)));
    }

    fn put_all(&mut self, keys: &Vec<Bytes>)
        requires
            old(self).valid(),
        ensures
            final(self).valid(),
            final(self).list() == old(self).list() + list_of(keys@),
    {
        let mut i: usize = 0;
        while i < keys.len()
            invariant
                i <= keys@.len(),
                self.valid(),
                self.list() == old(self).list() + list_of(keys@).take(i as int),
            decreases keys@.len() - i,
        {
            self.push(bytes_clone(&keys[i]));
            i = i + 1;
            assert(self.list() =~= old(self).list() + list_of(keys@).take(i as int));
        }
        assert(list_of(keys@).take(i as int) =~= list_of(keys@));
    }
}

/// Value of a frame.
spec fn frame_value(f: Frame) -> FrameView {
    f@
}

impl Command {
    fn verb(&self) -> (r: Verb)
        ensures
            r == verb_for(self@),
    {
        match self {
            Command::Ping(_) => Verb::Ping,
            Command::Auth { .. } => Verb::Auth,
            Command::Hello(_) => Verb::Hello,
            Command::Quit => Verb::Quit,
            Command::Stats => Verb::Stats,
            Command::DmPut { .. } => Verb::DmPut,
            Command::DmGet { .. } => Verb::DmGet,
            Command::DmDel { .. } => Verb::DmDel,
            Command::DmExpire { .. } => Verb::DmExpire,
            Command::DmPexpire { .. } => Verb::DmPexpire,
            Command::DmIncr { .. } => Verb::DmIncr,
            Command::DmDecr { .. } => Verb::DmDecr,
            Command::DmGetPut { .. } => Verb::DmGetPut,
            Command::DmIncrByFloat { .. } => Verb::DmIncrByFloat,
            Command::DmDestroy { .. } => Verb::DmDestroy,
            Command::DmScan { .. } => Verb::DmScan,
            Command::InternalNodeUpdateRouting { .. } => Verb::NodeUpdateRouting,
            Command::InternalNodePublish { .. } => Verb::NodePublish,
            Command::InternalNodeMoveFragment { .. } => Verb::NodeMoveFragment,
        }
    }

    #[verifier::rlimit(60)]
    fn put_arguments(&self, out: &mut Words)
        requires
            old(out).valid(),
        ensures
            final(out).valid(),
            final(out).list() == old(out).list() + arguments(self@),
    {
        match self {
            Command::Ping(m) => {
                if let Some(b) = m {
                    out.push(bytes_clone(b));
                }
            },
            Command::Auth { username, password } => {
                if let Some(u) = username {
                    out.push(bytes_clone(u));
                }
                out.push(bytes_clone(password));
            },
            Command::Hello(h) => {
                out.put_hello(h);
            },
            Command::Quit => {},
            Command::Stats => {},
            Command::DmPut { dmap, key, value, options } => {
                out.push(bytes_clone(dmap));
                out.push(bytes_clone(key));
                out.push(bytes_clone(value));
                out.put_put_options(options);
            },
            Command::DmGet { dmap, key } => {
                out.push(bytes_clone(dmap));
                out.push(bytes_clone(key));
            },
            Command::DmDel { dmap, keys } => {
                out.push(bytes_clone(dmap));
                out.put_all(keys);
            },
            Command::DmExpire { dmap, key, seconds } => {
                out.push(bytes_clone(dmap));
                out.push(bytes_clone(key));
                out.put_number(*seconds);
            },
            Command::DmPexpire { dmap, key, milliseconds } => {
                out.push(bytes_clone(dmap));
                out.push(bytes_clone(key));
                out.put_number(*milliseconds);
            },
            Command::DmIncr { dmap, key, delta } => {
                out.push(bytes_clone(dmap));
                out.push(bytes_clone(key));
                out.put_signed(*delta);
            },
            Command::DmDecr { dmap, key, delta } => {
                out.push(bytes_clone(dmap));
                out.push(bytes_clone(key));
                out.put_signed(*delta);
            },
            Command::DmGetPut { dmap, key, value } => {
                out.push(bytes_clone(dmap));
                out.push(bytes_clone(key));
                out.push(bytes_clone(value));
            },
            Command::DmIncrByFloat { dmap, key, delta } => {
                out.push(bytes_clone(dmap));
                out.push(bytes_clone(key));
                out.put(delta.as_bytes());
            },
            Command::DmDestroy { dmap } => {
                out.push(bytes_clone(dmap));
            },
            Command::DmScan { partition_id, dmap, cursor, options } => {
                out.put_number(*partition_id as u64);
                out.push(bytes_clone(dmap));
                out.put_number(*cursor);
                out.put_scan_options(options);
            },
            Command::InternalNodeUpdateRouting { table } => {
                out.push(bytes_clone(table));
            },
            Command::InternalNodePublish { channel, message } => {
                out.push(bytes_clone(channel));
                out.push(bytes_clone(message));
            },
            Command::InternalNodeMoveFragment { partition_id, partition_type, dmap, payload } => {
                out.put_number(*partition_id as u64);
                match *partition_type {
                    PartitionType::Primary => {
                        out.put("PRIMARY".as_bytes());
                    },
                    PartitionType::Backup => {
                        out.put("BACKUP".as_bytes());
                    },
                }
                out.push(bytes_clone(dmap));
                out.push(bytes_clone(payload));
            },
        }
        assert(out.list() =~= old(out).list() + arguments(self@));
    }

    /// The array of bulk strings that spells this command.
    pub fn to_frame(&self) -> (r: Frame)
        ensures
            r@ == frame_of(command_words(self@)),
    {
        let mut out: Words = Words { items: Vec::new() };
        out.put(self.verb().name().as_bytes());
        self.put_arguments(&mut out);
        proof {
            let words = command_words(self@);
            assert(out.list() =~= words);
            let expected = Seq::new(words.len(), |i: int| FrameView::Bulk(Some(words[i])));
            assert forall|i: int| 0 <= i < words.len() implies frames_view(out.items@)[i]
                == expected[i] by {
                assert(is_word(frame_value(out.items@[i])));
                assert(out.list()[i] == out.items@[i]@->Bulk_0->0);
            }
            assert(frames_view(out.items@) =~= expected);
        }
        Frame::Array(Some(out.items))
    }
}

} // verus!
