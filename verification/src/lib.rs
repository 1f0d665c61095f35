//! `fyp_core`: the PDF syntax layer of 4YouPDF (lexing, stream filters,
//! header detection, cross-reference entries, the standard security
//! handler) with its behaviour stated in contracts and proved.
//!
//! Never panic on malformed input: every failure is an [`Error`].

pub mod builder;
pub mod bytes;
pub mod ciphers;
pub mod cleanup;
pub mod cli;
pub mod conformance;
pub mod crypto;
pub mod decode;
pub mod document;
pub mod desktop;
pub mod encryption;
pub mod filters;
pub mod hashing;
pub mod lexer;
pub mod object;
pub mod ops;
pub mod pagetree;
pub mod parser;
pub mod recover;
pub mod revision_order;
pub mod text;
pub mod version;
pub mod writer;
pub mod xref;

use crate::text::{decimal, push_decimal, push_str};
use vstd::prelude::*;

verus! {

/// Every failure the engine can report. The engine never panics on input.
#[derive(Debug, PartialEq, Eq)]
pub enum Error {
    /// Missing or malformed `%PDF-x.y` header.
    BadHeader,
    /// Unexpected byte or token at the given offset.
    Syntax {
        /// Byte offset in the input.
        offset: usize,
        /// Human-readable explanation.
        message: String,
    },
    /// Input ended while a token or object was still open.
    UnexpectedEof,
    /// Nesting deeper than the parser allows (protection against hostile files).
    TooDeep,
    /// No `startxref` near the end of the file (ISO 32000-2, 7.5.5).
    MissingStartxref,
    /// Malformed cross-reference section (ISO 32000-2, 7.5.4).
    BadXref {
        /// Byte offset in the input.
        offset: usize,
        /// Human-readable explanation.
        message: String,
    },
    /// The `/Prev` chain of incremental updates comes back to a section
    /// already read (ISO 32000-2, 7.5.6).
    XrefLoop {
        /// Offset of the section reached twice.
        offset: usize,
    },
    /// Valid PDF relying on a feature not implemented yet.
    Unsupported {
        /// The missing feature, with its clause of ISO 32000-2.
        feature: &'static str,
    },
    /// Objects parse but do not form the expected document structure.
    BadStructure {
        /// Human-readable explanation.
        message: String,
    },
    /// Encoded stream data that its filter cannot decode (ISO 32000-2, 7.4).
    Filter {
        /// Filter name as written in the file, e.g. `ASCII85Decode`.
        filter: String,
        /// Human-readable explanation.
        message: String,
    },
    /// Decoding would produce more than the configured amount of data.
    LimitExceeded {
        /// The limit that was hit, in bytes.
        limit: usize,
        /// What was being produced when the limit was hit.
        what: &'static str,
    },
    /// An object stream (ISO 32000-2, 7.5.7) that cannot be used.
    BadObjectStream {
        /// Object number of the object stream.
        stream_num: u32,
        /// Human-readable explanation.
        message: String,
    },
    /// The declared cross-reference table is unusable and scanning the
    /// file found nothing to rebuild one from.
    Unrecoverable {
        /// Why the declared table could not be used.
        declared: Box<Error>,
    },
    /// The file is encrypted and the password does not open it.
    WrongPassword,
    /// The `/Encrypt` dictionary is malformed or inconsistent.
    BadEncryption {
        /// Human-readable explanation.
        message: String,
    },
    /// A page index beyond the document.
    NoSuchPage {
        /// The index asked for, 0-based.
        index: usize,
        /// Number of pages of the document.
        count: usize,
    },
    /// A page operation that cannot be carried out as asked.
    BadOperation {
        /// Human-readable explanation.
        message: String,
    },
    /// The document cannot be written as asked.
    Unwritable {
        /// Human-readable explanation.
        message: String,
    },
}


/// The text of an error, as it is shown to users.
pub open spec fn error_text(e: Error) -> Seq<char>
    decreases e,
{
    match e {
        Error::BadHeader => "missing or malformed %PDF header"@,
        Error::Syntax { offset, message } => "syntax error at byte "@ + decimal(offset as nat)
            + ": "@ + message@,
        Error::UnexpectedEof => "unexpected end of input"@,
        Error::TooDeep => "object nesting too deep"@,
        Error::MissingStartxref => "no startxref found"@,
        Error::BadXref { offset, message } => "cross-reference error at byte "@ + decimal(
            offset as nat,
        ) + ": "@ + message@,
        Error::XrefLoop { offset } => "/Prev chain loops back to the section at byte "@
            + decimal(offset as nat),
        Error::Unsupported { feature } => "not supported yet: "@ + feature@,
        Error::BadStructure { message } => "invalid document structure: "@ + message@,
        Error::Filter { filter, message } => filter@ + ": "@ + message@,
        Error::LimitExceeded { limit, what } => what@ + " would exceed the limit of "@ + decimal(
            limit as nat,
        ) + " bytes"@,
        Error::BadObjectStream { stream_num, message } => "object stream "@ + decimal(
            stream_num as nat,
        ) + ": "@ + message@,
        Error::Unrecoverable { declared } => "cross-reference table unusable ("@ + error_text(
            *declared,
        ) + ") and no object found to rebuild it"@,
        Error::WrongPassword => "the password does not open this file"@,
        Error::BadEncryption { message } => "invalid encryption parameters: "@ + message@,
        Error::NoSuchPage { index, count } => "page index "@ + decimal(index as nat)
            + " is beyond the "@ + decimal(count as nat) + " pages of the document"@,
        Error::BadOperation { message } => message@,
        Error::Unwritable { message } => "cannot write the document: "@ + message@,
    }
}

impl Error {
    /// The text of the error, as it is shown to users.
    pub fn message(&self) -> (s: String)
        ensures
            s@ == error_text(*self),
        decreases self,
    {
        let mut s = String::new();
        match self {
            Error::BadHeader => push_str(&mut s, "missing or malformed %PDF header"),
            Error::Syntax { offset, message } => {
                push_str(&mut s, "syntax error at byte ");
                push_decimal(&mut s, *offset as u64);
                push_str(&mut s, ": ");
                push_str(&mut s, message.as_str());
            },
            Error::UnexpectedEof => push_str(&mut s, "unexpected end of input"),
            Error::TooDeep => push_str(&mut s, "object nesting too deep"),
            Error::MissingStartxref => push_str(&mut s, "no startxref found"),
            Error::BadXref { offset, message } => {
                push_str(&mut s, "cross-reference error at byte ");
                push_decimal(&mut s, *offset as u64);
                push_str(&mut s, ": ");
                push_str(&mut s, message.as_str());
            },
            Error::XrefLoop { offset } => {
                push_str(&mut s, "/Prev chain loops back to the section at byte ");
                push_decimal(&mut s, *offset as u64);
            },
            Error::Unsupported { feature } => {
                push_str(&mut s, "not supported yet: ");
                push_str(&mut s, feature);
            },
            Error::BadStructure { message } => {
                push_str(&mut s, "invalid document structure: ");
                push_str(&mut s, message.as_str());
            },
            Error::Filter { filter, message } => {
                push_str(&mut s, filter.as_str());
                push_str(&mut s, ": ");
                push_str(&mut s, message.as_str());
            },
            Error::LimitExceeded { limit, what } => {
                push_str(&mut s, what);
                push_str(&mut s, " would exceed the limit of ");
                push_decimal(&mut s, *limit as u64);
                push_str(&mut s, " bytes");
            },
            Error::BadObjectStream { stream_num, message } => {
                push_str(&mut s, "object stream ");
                push_decimal(&mut s, *stream_num as u64);
                push_str(&mut s, ": ");
                push_str(&mut s, message.as_str());
            },
            Error::Unrecoverable { declared } => {
                let inner = declared.message();
                push_str(&mut s, "cross-reference table unusable (");
                push_str(&mut s, inner.as_str());
                push_str(&mut s, ") and no object found to rebuild it");
            },
            Error::WrongPassword => push_str(&mut s, "the password does not open this file"),
            Error::BadEncryption { message } => {
                push_str(&mut s, "invalid encryption parameters: ");
                push_str(&mut s, message.as_str());
            },
            Error::NoSuchPage { index, count } => {
                push_str(&mut s, "page index ");
                push_decimal(&mut s, *index as u64);
                push_str(&mut s, " is beyond the ");
                push_decimal(&mut s, *count as u64);
                push_str(&mut s, " pages of the document");
            },
            Error::BadOperation { message } => push_str(&mut s, message.as_str()),
            Error::Unwritable { message } => {
                push_str(&mut s, "cannot write the document: ");
                push_str(&mut s, message.as_str());
            },
        }
        s
    }
}

} // verus!
