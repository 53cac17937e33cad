//! Errors of the codec and of the command parser.

use vstd::prelude::*;
use vstd::string::*;

use crate::text::{ascii_chars, decimal, push_decimal};

verus! {

/// Codec errors.
#[derive(Debug, PartialEq, Eq)]
#[non_exhaustive]
pub enum ProtocolError {
    /// The buffer ended inside a frame: read more bytes and retry. The codec
    /// itself reports this as "no frame yet".
    Incomplete,
    /// The wire bytes are malformed.
    InvalidEncoding(String),
    /// A bulk string declared a size above the configured maximum.
    BulkTooLarge { size: u64, max: u64 },
    /// An array, set, push or map declared a length above the configured
    /// maximum.
    ArrayTooLarge { len: u64, max: u64 },
    /// An inline command other than `PING`.
    InlineCommandRejected(&'static str),
    /// A RESP3-only frame was to be sent on a RESP2 connection.
    Resp3Required(&'static str),
}

/// Mathematical value of a [`ProtocolError`].
pub ghost enum ErrorView {
    Incomplete,
    InvalidEncoding(Seq<char>),
    BulkTooLarge { size: int, max: int },
    ArrayTooLarge { len: int, max: int },
    InlineCommandRejected(Seq<char>),
    Resp3Required(Seq<char>),
}

impl View for ProtocolError {
    type V = ErrorView;

    open spec fn view(&self) -> ErrorView {
        match self {
            ProtocolError::Incomplete => ErrorView::Incomplete,
            ProtocolError::InvalidEncoding(m) => ErrorView::InvalidEncoding(m@),
            ProtocolError::BulkTooLarge { size, max } => ErrorView::BulkTooLarge {
                size: *size as int,
                max: *max as int,
            },
            ProtocolError::ArrayTooLarge { len, max } => ErrorView::ArrayTooLarge {
                len: *len as int,
                max: *max as int,
            },
            ProtocolError::InlineCommandRejected(m) => ErrorView::InlineCommandRejected(m@),
            ProtocolError::Resp3Required(m) => ErrorView::Resp3Required(m@),
        }
    }
}

impl ProtocolError {
    /// The error as a line of text.
    pub fn message(&self) -> (r: String)
        ensures
            r@ == protocol_message(self@),
    {
        match self {
            ProtocolError::Incomplete => "incomplete frame".to_owned(),
            ProtocolError::InvalidEncoding(m) => {
                let mut s: String = "invalid encoding: ".to_owned();
                s.append(m.as_str());
                s
            },
            ProtocolError::BulkTooLarge { size, max } => {
                let mut s: String = "bulk too large: ".to_owned();
                push_decimal(&mut s, *size);
                s.append(" bytes (max ");
                push_decimal(&mut s, *max);
                s.append(")");
                s
            },
            ProtocolError::ArrayTooLarge { len, max } => {
                let mut s: String = "array too large: ".to_owned();
                push_decimal(&mut s, *len);
                s.append(" elements (max ");
                push_decimal(&mut s, *max);
                s.append(")");
                s
            },
            ProtocolError::InlineCommandRejected(m) => {
                let mut s: String = "inline command not allowed: ".to_owned();
                s.append(m);
                s
            },
            ProtocolError::Resp3Required(kind) => {
                let mut s: String = "frame type ".to_owned();
                s.append(kind);
                s.append(" requires RESP3 \u{2014} upgrade via HELLO 3 first");
                s
            },
        }
    }
}

/// Decimal digits as characters.
pub open spec fn digits(n: int) -> Seq<char> {
    ascii_chars(decimal(n as nat))
}

/// Text of a codec error.
pub open spec fn protocol_message(e: ErrorView) -> Seq<char> {
    match e {
        ErrorView::Incomplete => "incomplete frame"@,
        ErrorView::InvalidEncoding(m) => "invalid encoding: "@ + m,
        ErrorView::BulkTooLarge { size, max } => "bulk too large: "@ + digits(size)
            + " bytes (max "@ + digits(max) + ")"@,
        ErrorView::ArrayTooLarge { len, max } => "array too large: "@ + digits(len)
            + " elements (max "@ + digits(max) + ")"@,
        ErrorView::InlineCommandRejected(m) => "inline command not allowed: "@ + m,
        ErrorView::Resp3Required(kind) => "frame type "@ + kind
            + " requires RESP3 \u{2014} upgrade via HELLO 3 first"@,
    }
}

/// How many arguments a command takes, not counting the verb.
#[derive(Debug, Clone, Copy, PartialEq, Eq, Structural)]
pub enum ArityHint {
    /// Exactly this many.
    Exactly(usize),
    /// At least this many.
    AtLeast(usize),
    /// Between `min` and `max`, both included in the range.
    Range { min: usize, max: usize },
}

/// Text of an arity.
pub open spec fn arity_text(a: ArityHint) -> Seq<char> {
    match a {
        ArityHint::Exactly(n) => digits(n as int),
        ArityHint::AtLeast(n) => "at least "@ + digits(n as int),
        ArityHint::Range { min, max } => digits(min as int) + "..="@ + digits(max as int),
    }
}

impl ArityHint {
    /// The arity as it appears in messages.
    pub fn describe(&self) -> (r: String)
        ensures
            r@ == arity_text(*self),
    {
        let mut s: String = String::new();
        match *self {
            ArityHint::Exactly(n) => {
                push_decimal(&mut s, n as u64);
            },
            ArityHint::AtLeast(n) => {
                s.append("at least ");
                push_decimal(&mut s, n as u64);
            },
            ArityHint::Range { min, max } => {
                push_decimal(&mut s, min as u64);
                s.append("..=");
                push_decimal(&mut s, max as u64);
            },
        }
        assert(s@ =~= arity_text(*self));
        s
    }
}

/// Command-parser errors.
#[derive(Debug, PartialEq, Eq)]
#[non_exhaustive]
pub enum CommandError {
    /// The frame is no array of bulk strings.
    NotAnArray,
    /// The verb is unknown.
    UnknownCommand(String),
    /// Wrong number of arguments.
    WrongArity { command: &'static str, expected: ArityHint, got: usize },
    /// An argument could not be read.
    InvalidArgument { command: &'static str, reason: String },
    /// Mutually exclusive options were both given.
    ConflictingOptions { command: &'static str, detail: &'static str },
}

/// Mathematical value of a [`CommandError`].
pub ghost enum CommandErrorView {
    NotAnArray,
    UnknownCommand(Seq<char>),
    WrongArity { command: Seq<char>, expected: ArityHint, got: int },
    InvalidArgument { command: Seq<char>, reason: Seq<char> },
    ConflictingOptions { command: Seq<char>, detail: Seq<char> },
}

impl View for CommandError {
    type V = CommandErrorView;

    open spec fn view(&self) -> CommandErrorView {
        match self {
            CommandError::NotAnArray => CommandErrorView::NotAnArray,
            CommandError::UnknownCommand(s) => CommandErrorView::UnknownCommand(s@),
            CommandError::WrongArity { command, expected, got } => CommandErrorView::WrongArity {
                command: command@,
                expected: *expected,
                got: *got as int,
            },
            CommandError::InvalidArgument { command, reason } => CommandErrorView::InvalidArgument {
                command: command@,
                reason: reason@,
            },
            CommandError::ConflictingOptions { command, detail } =>
                CommandErrorView::ConflictingOptions { command: command@, detail: detail@ },
        }
    }
}

/// Text of a command error.
pub open spec fn command_message(e: CommandErrorView) -> Seq<char> {
    match e {
        CommandErrorView::NotAnArray => "expected array of bulk strings"@,
        CommandErrorView::UnknownCommand(s) => "unknown command: "@ + s,
        CommandErrorView::WrongArity { command, expected, got } =>
            "wrong number of arguments for "@ + command + ": expected "@ + arity_text(expected)
                + ", got "@ + digits(got),
        CommandErrorView::InvalidArgument { command, reason } => "invalid argument for "@ + command
            + ": "@ + reason,
        CommandErrorView::ConflictingOptions { command, detail } => "conflicting options for "@
            + command + ": "@ + detail,
    }
}

impl CommandError {
    /// The error as a line of text.
    pub fn message(&self) -> (r: String)
        ensures
            r@ == command_message(self@),
    {
        match self {
            CommandError::NotAnArray => "expected array of bulk strings".to_owned(),
            CommandError::UnknownCommand(v) => {
                let mut s: String = "unknown command: ".to_owned();
                s.append(v.as_str());
                s
            },
            CommandError::WrongArity { command, expected, got } => {
                let mut s: String = "wrong number of arguments for ".to_owned();
                s.append(command);
                s.append(": expected ");
                s.append(expected.describe().as_str());
                s.append(", got ");
                push_decimal(&mut s, *got as u64);
                s
            },
            CommandError::InvalidArgument { command, reason } => {
                let mut s: String = "invalid argument for ".to_owned();
                s.append(command);
                s.append(": ");
                s.append(reason.as_str());
                s
            },
            CommandError::ConflictingOptions { command, detail } => {
                let mut s: String = "conflicting options for ".to_owned();
                s.append(command);
                s.append(": ");
                s.append(detail);
                s
            },
        }
    }
}

} // verus!
