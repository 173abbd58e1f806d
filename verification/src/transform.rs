//! The decisions of the `transform` entry point.
//!
//! The entry point's run is: fetch the request document from the host,
//! decode and mutate it, hand the re-encoded document back, and return 1 on
//! success and 0 on any failure.  The host calls themselves stand outside
//! this crate; what stands here is every decision between them:
//! `transform` turns the fetch's outcome into the plan (abort, or propagate
//! these bytes), and `conclude` turns the propagate call's status into the
//! entry point's return value.

use vstd::prelude::*;

use crate::json::ser;
use crate::mutate::{mutate_doc, mutate_document, secret_model};
use crate::parse::{parse_doc, parse_doc_x};

verus! {

/// Why a document was not transformed.
#[derive(Debug, PartialEq, Eq)]
pub enum TransformError {
    /// The input was no well-formed JSON document.
    Malformed,
}

/// Decodes the document, mutates its headers, re-encodes it.
///
/// Succeeds exactly on well-formed JSON; the output is the canonical
/// encoding of the mutated document.
pub fn transform_document(input: &Vec<u8>, secret: Option<&Vec<u8>>) -> (r: Result<
    Vec<u8>,
    TransformError,
>)
    ensures
        r is Ok <==> parse_doc(input@) is Some,
        parse_doc(input@) matches Some(v) ==> r matches Ok(out) && out@ == ser(
            mutate_doc(v, secret_model(secret)),
        ),
        r matches Err(e) ==> e == TransformError::Malformed,
{
    match parse_doc_x(input) {
        Some(doc) => {
            let mutated = mutate_document(doc, secret);
            Ok(crate::json::serialize(&mutated))
        },
        None => Err(TransformError::Malformed),
    }
}

/// What the entry point does next, the fetch call being answered.
pub enum Plan {
    /// Return 0; the propagate host call is not made.
    Abort,
    /// Hand these bytes to the propagate host call.
    Propagate(Vec<u8>),
}

/// The decision after the fetch host call: on a non-zero fetch status or a
/// malformed document the run is aborted with no propagate call; otherwise
/// the mutated document is handed on.
pub fn transform(fetch_status: i32, body: &Vec<u8>, secret: Option<&Vec<u8>>) -> (r: Plan)
    ensures
        fetch_status != 0 ==> r is Abort,
        fetch_status == 0 ==> (match parse_doc(body@) {
            Some(v) => r matches Plan::Propagate(out) && out@ == ser(
                mutate_doc(v, secret_model(secret)),
            ),
            None => r is Abort,
        }),
{
    if fetch_status != 0 {
        return Plan::Abort;
    }
    match transform_document(body, secret) {
        Ok(out) => Plan::Propagate(out),
        Err(_) => Plan::Abort,
    }
}

/// The entry point's return value, the propagate call being answered:
/// 1 exactly when the host accepted the new document.
pub fn conclude(set_status: i32) -> (r: i32)
    ensures
        r == if set_status == 0 {
            1i32
        } else {
            0i32
        },
{
    if set_status == 0 {
        1
    } else {
        0
    }
}

/// A log line's severity, as the host's `log` import counts them.
#[derive(Debug, PartialEq, Eq)]
pub enum LogLevel {
    Debug,
    Info,
    Warn,
    Error,
}

impl LogLevel {
    /// The ordinal the host expects.
    pub open spec fn spec_code(self) -> i32 {
        match self {
            LogLevel::Debug => 0,
            LogLevel::Info => 1,
            LogLevel::Warn => 2,
            LogLevel::Error => 3,
        }
    }

    pub fn code(&self) -> (r: i32)
        ensures
            r == self.spec_code(),
            0 <= r <= 3,
    {
        match self {
            LogLevel::Debug => 0,
            LogLevel::Info => 1,
            LogLevel::Warn => 2,
            LogLevel::Error => 3,
        }
    }
}

} // verus!
