//! Errors that applications see.

use vstd::prelude::*;
use vstd::string::*;

use crate::error::Fault;
use crate::net::number_text;
use crate::text::push_decimal;

verus! {

/// Why a node could not store an entry or look for one.
#[derive(Debug, PartialEq, Eq)]
pub enum StorageError {
    /// The key is longer than 255 bytes.
    KeyTooLong,
    /// The value is longer than 32 bits can count.
    ValueTooLong,
    /// A pattern is not well-formed, in the words of its parser.
    Pattern(String),
}

/// Mathematical value of a [`StorageError`].
pub ghost enum StorageFault {
    KeyTooLong,
    ValueTooLong,
    Pattern(Seq<char>),
}

impl View for StorageError {
    type V = StorageFault;

    open spec fn view(&self) -> StorageFault {
        match self {
            StorageError::KeyTooLong => StorageFault::KeyTooLong,
            StorageError::ValueTooLong => StorageFault::ValueTooLong,
            StorageError::Pattern(m) => StorageFault::Pattern(m@),
        }
    }
}

/// Why an operation failed.
#[derive(Debug, PartialEq, Eq)]
pub enum Error {
    /// There is no such key.
    KeyNotFound,
    /// There is no such map.
    DMapNotFound(String),
    /// The key was to be new, and is not.
    KeyAlreadyExists,
    /// The key was to be there, and is not.
    KeyNotExists,
    /// The lock was not free in time.
    LockNotAcquired,
    /// The lock is not held with this token.
    NoSuchLock,
    /// The scanned partition has moved; the scan starts over.
    InvalidCursor,
    /// It took too long.
    Timeout,
    /// The value is not of the form that was asked for.
    Serialization(String),
    /// The value is no number of the kind that was asked for.
    NotANumber { expected: &'static str, got: String },
    /// This kind of client cannot do that.
    Unsupported(&'static str),
    /// The entry could not be stored or looked for.
    Storage(StorageError),
    /// The configuration was refused.
    Config(crate::error::Error),
    /// The arguments do not go together.
    InvalidArgument(String),
    /// The connection to the server is gone.
    ServerGone(String),
    /// The server answered with something unexpected.
    Protocol(String),
    /// The server answered with an error.
    Server(String),
    /// The server asks for other credentials.
    Auth(String),
    /// The key is served elsewhere.
    Moved { partition: u32, addr: String },
    /// The subscription has ended.
    SubscriptionClosed,
}

/// Mathematical value of an [`Error`].
pub ghost enum ErrorView {
    KeyNotFound,
    DMapNotFound(Seq<char>),
    KeyAlreadyExists,
    KeyNotExists,
    LockNotAcquired,
    NoSuchLock,
    InvalidCursor,
    Timeout,
    Serialization(Seq<char>),
    NotANumber { expected: Seq<char>, got: Seq<char> },
    Unsupported(Seq<char>),
    Storage(StorageFault),
    Config(Fault),
    InvalidArgument(Seq<char>),
    ServerGone(Seq<char>),
    Protocol(Seq<char>),
    Server(Seq<char>),
    Auth(Seq<char>),
    Moved { partition: u32, addr: Seq<char> },
    SubscriptionClosed,
}

impl View for Error {
    type V = ErrorView;

    open spec fn view(&self) -> ErrorView {
        match self {
            Error::KeyNotFound => ErrorView::KeyNotFound,
            Error::DMapNotFound(m) => ErrorView::DMapNotFound(m@),
            Error::KeyAlreadyExists => ErrorView::KeyAlreadyExists,
            Error::KeyNotExists => ErrorView::KeyNotExists,
            Error::LockNotAcquired => ErrorView::LockNotAcquired,
            Error::NoSuchLock => ErrorView::NoSuchLock,
            Error::InvalidCursor => ErrorView::InvalidCursor,
            Error::Timeout => ErrorView::Timeout,
            Error::Serialization(m) => ErrorView::Serialization(m@),
            Error::NotANumber { expected, got } => ErrorView::NotANumber {
                expected: expected@,
                got: got@,
            },
            Error::Unsupported(m) => ErrorView::Unsupported(m@),
            Error::Storage(e) => ErrorView::Storage(e@),
            Error::Config(e) => ErrorView::Config(e@),
            Error::InvalidArgument(m) => ErrorView::InvalidArgument(m@),
            Error::ServerGone(m) => ErrorView::ServerGone(m@),
            Error::Protocol(m) => ErrorView::Protocol(m@),
            Error::Server(m) => ErrorView::Server(m@),
            Error::Auth(m) => ErrorView::Auth(m@),
            Error::Moved { partition, addr } => ErrorView::Moved {
                partition: *partition,
                addr: addr@,
            },
            Error::SubscriptionClosed => ErrorView::SubscriptionClosed,
        }
    }
}

/// Text of a storage fault.
pub open spec fn storage_text(f: StorageFault) -> Seq<char> {
    match f {
        StorageFault::KeyTooLong => "key longer than 255 bytes"@,
        StorageFault::ValueTooLong => "value too long"@,
        StorageFault::Pattern(m) => "bad pattern: "@ + m,
    }
}

/// Text of an error.
pub open spec fn error_text(e: ErrorView) -> Seq<char> {
    match e {
        ErrorView::KeyNotFound => "key not found"@,
        ErrorView::DMapNotFound(m) => "dmap not found: "@ + m,
        ErrorView::KeyAlreadyExists => "key already exists"@,
        ErrorView::KeyNotExists => "key does not exist"@,
        ErrorView::LockNotAcquired => "lock not acquired within deadline"@,
        ErrorView::NoSuchLock => "no such lock for this token"@,
        ErrorView::InvalidCursor => "invalid scan cursor: partition migrated; restart the scan"@,
        ErrorView::Timeout => "operation timed out"@,
        ErrorView::Serialization(m) => "serialization error: "@ + m,
        ErrorView::NotANumber { expected, got } => "value at key is not a "@ + expected + ": "@
            + got,
        ErrorView::Unsupported(m) => "operation not supported in this client mode: "@ + m,
        ErrorView::Storage(f) => "storage error: "@ + storage_text(f),
        ErrorView::Config(f) => "config error: "@ + crate::error::fault_text(f),
        ErrorView::InvalidArgument(m) => "invalid argument: "@ + m,
        ErrorView::ServerGone(m) => "server is gone: "@ + m,
        ErrorView::Protocol(m) => "protocol error: "@ + m,
        ErrorView::Server(m) => "server error: "@ + m,
        ErrorView::Auth(m) => "auth required: "@ + m,
        ErrorView::Moved { partition, addr } => "MOVED "@ + number_text(partition as int) + " "@
            + addr,
        ErrorView::SubscriptionClosed => "pub/sub subscription closed"@,
    }
}

fn joined(front: &str, m: &str) -> (r: String)
    ensures
        r@ == front@ + m@,
{
    let mut s: String = front.to_owned();
    s.append(m);
    s
}

impl StorageError {
    /// The error as a line of text.
    pub fn message(&self) -> (r: String)
        ensures
            r@ == storage_text(self@),
    {
        match self {
            StorageError::KeyTooLong => "key longer than 255 bytes".to_owned(),
            StorageError::ValueTooLong => "value too long".to_owned(),
            StorageError::Pattern(m) => joined("bad pattern: ", m.as_str()),
        }
    }
}

impl Error {
    /// The error as a line of text.
    pub fn message(&self) -> (r: String)
        ensures
            r@ == error_text(self@),
    {
        match self {
            Error::KeyNotFound => "key not found".to_owned(),
            Error::DMapNotFound(m) => joined("dmap not found: ", m.as_str()),
            Error::KeyAlreadyExists => "key already exists".to_owned(),
            Error::KeyNotExists => "key does not exist".to_owned(),
            Error::LockNotAcquired => "lock not acquired within deadline".to_owned(),
            Error::NoSuchLock => "no such lock for this token".to_owned(),
            Error::InvalidCursor =>
                "invalid scan cursor: partition migrated; restart the scan".to_owned(),
            Error::Timeout => "operation timed out".to_owned(),
            Error::Serialization(m) => joined("serialization error: ", m.as_str()),
            Error::NotANumber { expected, got } => {
                let mut s: String = joined("value at key is not a ", expected);
                s.append(": ");
                s.append(got.as_str());
                s
            },
            Error::Unsupported(m) => joined("operation not supported in this client mode: ", m),
            Error::Storage(e) => joined("storage error: ", e.message().as_str()),
            Error::Config(e) => joined("config error: ", e.message().as_str()),
            Error::InvalidArgument(m) => joined("invalid argument: ", m.as_str()),
            Error::ServerGone(m) => joined("server is gone: ", m.as_str()),
            Error::Protocol(m) => joined("protocol error: ", m.as_str()),
            Error::Server(m) => joined("server error: ", m.as_str()),
            Error::Auth(m) => joined("auth required: ", m.as_str()),
            Error::Moved { partition, addr } => {
                let mut s: String = "MOVED ".to_owned();
                push_decimal(&mut s, *partition as u64);
                s.append(" ");
                s.append(addr.as_str());
                s
            },
            Error::SubscriptionClosed => "pub/sub subscription closed".to_owned(),
        }
    }
}

} // verus!
