//! Errors of the model-file parsers. Every one is a rejection of untrusted input:
//! the parsers are total over arbitrary bytes.

use vstd::prelude::*;
use vstd::string::StringExecFns;

use crate::text::{dec, dec_text};

verus! {

#[derive(Debug, Clone, PartialEq, Eq)]
pub enum FormatError {
    Io(String),
    UnknownFormat(String),
    BadMagic { expected: &'static str },
    UnsupportedVersion(u32),
    Malformed { context: &'static str, detail: String },
    LimitExceeded { what: &'static str, got: u64, limit: u64 },
    MissingKey(String),
    Json(String),
}

/// What a [`FormatError`] says.
#[verifier::ext_equal]
pub enum Fault {
    Io(Seq<char>),
    UnknownFormat(Seq<char>),
    BadMagic(Seq<char>),
    UnsupportedVersion(u32),
    Malformed { context: Seq<char>, detail: Seq<char> },
    LimitExceeded { what: Seq<char>, got: nat, limit: nat },
    MissingKey(Seq<char>),
    Json(Seq<char>),
}

impl View for FormatError {
    type V = Fault;

    open spec fn view(&self) -> Fault {
        match self {
            FormatError::Io(s) => Fault::Io(s@),
            FormatError::UnknownFormat(s) => Fault::UnknownFormat(s@),
            FormatError::BadMagic { expected } => Fault::BadMagic(expected@),
            FormatError::UnsupportedVersion(v) => Fault::UnsupportedVersion(*v),
            FormatError::Malformed { context, detail } => Fault::Malformed {
                context: context@,
                detail: detail@,
            },
            FormatError::LimitExceeded { what, got, limit } => Fault::LimitExceeded {
                what: what@,
                got: *got as nat,
                limit: *limit as nat,
            },
            FormatError::MissingKey(k) => Fault::MissingKey(k@),
            FormatError::Json(s) => Fault::Json(s@),
        }
    }
}

/// The text of an error, as it is shown to a user.
pub open spec fn error_text(e: FormatError) -> Seq<char> {
    match e {
        FormatError::Io(s) => "i/o error: "@ + s@,
        FormatError::UnknownFormat(s) => "not a recognized model file: "@ + s@,
        FormatError::BadMagic { expected } => "bad magic bytes (expected "@ + expected@ + ")"@,
        FormatError::UnsupportedVersion(v) => "unsupported gguf version "@ + dec(v as nat)
            + " (supported: 2, 3)"@,
        FormatError::Malformed { context, detail } => "malformed "@ + context@ + ": "@ + detail@,
        FormatError::LimitExceeded { what, got, limit } => what@ + " ("@ + dec(got as nat)
            + ") exceeds limit ("@ + dec(limit as nat) + ")"@,
        FormatError::MissingKey(k) => "missing required metadata: "@ + k@,
        FormatError::Json(s) => "invalid json: "@ + s@,
    }
}

impl FormatError {
    /// The text of this error, as it is shown to a user.
    pub fn message(&self) -> (s: String)
        ensures
            s@ == error_text(*self),
    {
        match self {
            FormatError::Io(detail) => {
                let mut s = "i/o error: ".to_owned();
                s.append(detail.as_str());
                s
            },
            FormatError::UnknownFormat(path) => {
                let mut s = "not a recognized model file: ".to_owned();
                s.append(path.as_str());
                s
            },
            FormatError::BadMagic { expected } => {
                let mut s = "bad magic bytes (expected ".to_owned();
                s.append(expected);
                s.append(")");
                s
            },
            FormatError::UnsupportedVersion(v) => {
                let mut s = "unsupported gguf version ".to_owned();
                s.append(dec_text(*v as u64).as_str());
                s.append(" (supported: 2, 3)");
                s
            },
            FormatError::Malformed { context, detail } => {
                let mut s = "malformed ".to_owned();
                s.append(context);
                s.append(": ");
                s.append(detail.as_str());
                s
            },
            FormatError::LimitExceeded { what, got, limit } => {
                let mut s = String::new();
                s.append(what);
                s.append(" (");
                s.append(dec_text(*got).as_str());
                s.append(") exceeds limit (");
                s.append(dec_text(*limit).as_str());
                s.append(")");
                assert(Seq::<char>::empty() + what@ =~= what@);
                s
            },
            FormatError::MissingKey(k) => {
                let mut s = "missing required metadata: ".to_owned();
                s.append(k.as_str());
                s
            },
            FormatError::Json(detail) => {
                let mut s = "invalid json: ".to_owned();
                s.append(detail.as_str());
                s
            },
        }
    }
}

} // verus!
