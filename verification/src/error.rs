//! Errors of loading and validating a configuration.

use vstd::prelude::*;
use vstd::string::*;

use crate::mode::Mode;
use crate::net::number_text;
use crate::text::push_decimal;

verus! {

/// Why a configuration was refused.
#[derive(Debug, PartialEq, Eq)]
pub enum Error {
    /// A value is out of its range.
    Config(String),
    /// The production profile asks for at least one backup.
    ProductionReplicaCount { got: u32 },
    /// The production profile asks for a majority quorum.
    ProductionQuorum { got: u32 },
    /// A section does not go with the mode.
    IrrelevantSection { section: &'static str, mode: Mode },
    /// A setting cannot change on a running node.
    BootstrapImmutable(&'static str),
    /// The text is not a well-formed configuration, in the words of the parser.
    TomlParse(String),
    /// The file could not be read, in the words of the operating system.
    Io(String),
}

/// Mathematical value of an [`Error`].
pub ghost enum Fault {
    Config(Seq<char>),
    ProductionReplicaCount { got: u32 },
    ProductionQuorum { got: u32 },
    IrrelevantSection { section: Seq<char>, mode: Mode },
    BootstrapImmutable(Seq<char>),
    TomlParse(Seq<char>),
    Io(Seq<char>),
}

impl View for Error {
    type V = Fault;

    open spec fn view(&self) -> Fault {
        match self {
            Error::Config(m) => Fault::Config(m@),
            Error::ProductionReplicaCount { got } => Fault::ProductionReplicaCount { got: *got },
            Error::ProductionQuorum { got } => Fault::ProductionQuorum { got: *got },
            Error::IrrelevantSection { section, mode } => Fault::IrrelevantSection {
                section: section@,
                mode: *mode,
            },
            Error::BootstrapImmutable(m) => Fault::BootstrapImmutable(m@),
            Error::TomlParse(m) => Fault::TomlParse(m@),
            Error::Io(m) => Fault::Io(m@),
        }
    }
}

/// What a validation reports: nothing, or the first fault.
pub open spec fn reports(r: Result<(), Error>, fault: Option<Fault>) -> bool {
    match fault {
        None => r is Ok,
        Some(f) => r is Err && r->Err_0@ == f,
    }
}

/// Name of a mode in messages.
pub open spec fn mode_label(m: Mode) -> Seq<char> {
    match m {
        Mode::Standalone => "Standalone"@,
        Mode::EmbeddedSolo => "EmbeddedSolo"@,
        Mode::EmbeddedClustered => "EmbeddedClustered"@,
    }
}

/// Text of a fault.
pub open spec fn fault_text(f: Fault) -> Seq<char> {
    match f {
        Fault::Config(m) => "invalid config: "@ + m,
        Fault::ProductionReplicaCount { got } => "production profile requires replica_count >= 2, got "@
            + number_text(got as int)
            + " (override Profile::Custom if you accept silent data loss)"@,
        Fault::ProductionQuorum { got } =>
            "production profile requires member_count_quorum to form a majority (>= replica_count/2 + 1), got "@
            + number_text(got as int),
        Fault::IrrelevantSection { section, mode } => "section ["@ + section
            + "] is not relevant for mode "@ + mode_label(mode),
        Fault::BootstrapImmutable(m) => "cannot change "@ + m
            + " on a running node (bootstrap-only)"@,
        Fault::TomlParse(m) => "failed to parse TOML config: "@ + m,
        Fault::Io(m) => "config I/O error: "@ + m,
    }
}

impl Error {
    /// The error as a line of text.
    pub fn message(&self) -> (r: String)
        ensures
            r@ == fault_text(self@),
    {
        let mut s: String = String::new();
        match self {
            Error::Config(m) => {
                s = "invalid config: ".to_owned();
                s.append(m.as_str());
            },
            Error::ProductionReplicaCount { got } => {
                s = "production profile requires replica_count >= 2, got ".to_owned();
                push_decimal(&mut s, *got as u64);
                s.append(" (override Profile::Custom if you accept silent data loss)");
            },
            Error::ProductionQuorum { got } => {
                s =
                "production profile requires member_count_quorum to form a majority (>= replica_count/2 + 1), got ".to_owned();
                push_decimal(&mut s, *got as u64);
            },
            Error::IrrelevantSection { section, mode } => {
                s = "section [".to_owned();
                s.append(section);
                s.append("] is not relevant for mode ");
                s.append(
                    match mode {
                        Mode::Standalone => "Standalone",
                        Mode::EmbeddedSolo => "EmbeddedSolo",
                        Mode::EmbeddedClustered => "EmbeddedClustered",
                    },
                );
            },
            Error::BootstrapImmutable(m) => {
                s = "cannot change ".to_owned();
                s.append(m);
                s.append(" on a running node (bootstrap-only)");
            },
            Error::TomlParse(m) => {
                s = "failed to parse TOML config: ".to_owned();
                s.append(m.as_str());
            },
            Error::Io(m) => {
                s = "config I/O error: ".to_owned();
                s.append(m.as_str());
            },
        }
        s
    }
}

} // verus!
