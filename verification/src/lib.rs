//! Port scanner core: target and port expressions, IP address text, service
//! fingerprints, scan-result rendering, release-version comparison and the decisions
//! around a scan run.

pub mod cli;
pub mod fingerprint;
pub mod ip;
pub mod output;
pub mod ports;
pub mod scanner;
pub mod target;
pub mod text;
pub mod updater;

use vstd::prelude::*;

verus! {

/// `std::io::Error`, carried through unchanged.
#[verifier::external_type_specification]
#[verifier::external_body]
pub struct ExIoError(std::io::Error);

/// `serde_json::Error`, carried through unchanged.
#[verifier::external_type_specification]
#[verifier::external_body]
pub struct ExJsonError(serde_json::Error);

/// The errors of the scanner.
#[derive(Debug)]
pub enum PscanError {
    /// A target, port or option the user supplied was rejected; the text says why.
    InvalidInput(String),
    Io(std::io::Error),
    Json(serde_json::Error),
}

/// The scanner's result type.
pub type Result<T> = std::result::Result<T, PscanError>;

/// `e` rejects the user's input with the message `m`.
pub open spec fn rejects_with(e: PscanError, m: Seq<char>) -> bool {
    e matches PscanError::InvalidInput(s) && s@ == m
}

} // verus!
