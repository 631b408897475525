use vstd::prelude::*;
use crate::text::{push_str, push_u64};

verus! {

/// Errors raised by the library.
///
/// Variants that wrap an error of another crate in other places hold its
/// message here.
#[derive(Debug, Clone, PartialEq, Eq)]
pub enum NiphasError {
    Kube(String),
    InvalidInput(String),
    NixEval(String),
    EvalTimeout(u64),
    FlakeNotAllowed(String),
    StorePathNotFound(String),
    InvalidStorePath(String),
    NarParse(String),
    NarInfoParse(String),
    HashMismatch { expected: String, actual: String },
    SignatureVerification(String),
    Cache(String),
    StorePathNotCached(String),
    ClosureResolution(String),
    Mount(String),
    Io(String),
    Http(String),
    Timeout(String),
    Serialization(String),
    Config(String),
}

impl NiphasError {
    /// The error's message, as `Display` writes it.
    pub open spec fn text(self) -> Seq<char> {
        match self {
            NiphasError::Kube(m) => "kubernetes api error: "@ + m@,
            NiphasError::InvalidInput(m) => "invalid input: "@ + m@,
            NiphasError::NixEval(m) => "nix evaluation failed: "@ + m@,
            NiphasError::EvalTimeout(s) => "evaluation timed out after "@ + crate::text::decimal(
                s as nat,
            ) + "s"@,
            NiphasError::FlakeNotAllowed(m) => "flake not allowed: "@ + m@,
            NiphasError::StorePathNotFound(m) => "store path not found: "@ + m@,
            NiphasError::InvalidStorePath(m) => "invalid store path: "@ + m@,
            NiphasError::NarParse(m) => "NAR parse error: "@ + m@,
            NiphasError::NarInfoParse(m) => ".narinfo parse error: "@ + m@,
            NiphasError::HashMismatch { expected, actual } => "hash mismatch: expected "@
                + expected@ + ", got "@ + actual@,
            NiphasError::SignatureVerification(m) => "signature verification failed: "@ + m@,
            NiphasError::Cache(m) => "cache error: "@ + m@,
            NiphasError::StorePathNotCached(m) => "store path not cached: "@ + m@,
            NiphasError::ClosureResolution(m) => "closure resolution failed: "@ + m@,
            NiphasError::Mount(m) => "mount failed: "@ + m@,
            NiphasError::Io(m) => "I/O error: "@ + m@,
            NiphasError::Http(m) => "HTTP error: "@ + m@,
            NiphasError::Timeout(m) => "timeout: "@ + m@,
            NiphasError::Serialization(m) => "serialization error: "@ + m@,
            NiphasError::Config(m) => "config error: "@ + m@,
        }
    }

    /// The message, as `Display` writes it.
    pub fn to_string(&self) -> (r: String)
        ensures
            r@ == self.text(),
    {
        let mut r = String::new();
        match self {
            NiphasError::Kube(m) => {
                push_str(&mut r, "kubernetes api error: ");
                push_str(&mut r, m.as_str());
            },
            NiphasError::InvalidInput(m) => {
                push_str(&mut r, "invalid input: ");
                push_str(&mut r, m.as_str());
            },
            NiphasError::NixEval(m) => {
                push_str(&mut r, "nix evaluation failed: ");
                push_str(&mut r, m.as_str());
            },
            NiphasError::EvalTimeout(s) => {
                push_str(&mut r, "evaluation timed out after ");
                push_u64(&mut r, *s);
                push_str(&mut r, "s");
            },
            NiphasError::FlakeNotAllowed(m) => {
                push_str(&mut r, "flake not allowed: ");
                push_str(&mut r, m.as_str());
            },
            NiphasError::StorePathNotFound(m) => {
                push_str(&mut r, "store path not found: ");
                push_str(&mut r, m.as_str());
            },
            NiphasError::InvalidStorePath(m) => {
                push_str(&mut r, "invalid store path: ");
                push_str(&mut r, m.as_str());
            },
            NiphasError::NarParse(m) => {
                push_str(&mut r, "NAR parse error: ");
                push_str(&mut r, m.as_str());
            },
            NiphasError::NarInfoParse(m) => {
                push_str(&mut r, ".narinfo parse error: ");
                push_str(&mut r, m.as_str());
            },
            NiphasError::HashMismatch { expected, actual } => {
                push_str(&mut r, "hash mismatch: expected ");
                push_str(&mut r, expected.as_str());
                push_str(&mut r, ", got ");
                push_str(&mut r, actual.as_str());
            },
            NiphasError::SignatureVerification(m) => {
                push_str(&mut r, "signature verification failed: ");
                push_str(&mut r, m.as_str());
            },
            NiphasError::Cache(m) => {
                push_str(&mut r, "cache error: ");
                push_str(&mut r, m.as_str());
            },
            NiphasError::StorePathNotCached(m) => {
                push_str(&mut r, "store path not cached: ");
                push_str(&mut r, m.as_str());
            },
            NiphasError::ClosureResolution(m) => {
                push_str(&mut r, "closure resolution failed: ");
                push_str(&mut r, m.as_str());
            },
            NiphasError::Mount(m) => {
                push_str(&mut r, "mount failed: ");
                push_str(&mut r, m.as_str());
            },
            NiphasError::Io(m) => {
                push_str(&mut r, "I/O error: ");
                push_str(&mut r, m.as_str());
            },
            NiphasError::Http(m) => {
                push_str(&mut r, "HTTP error: ");
                push_str(&mut r, m.as_str());
            },
            NiphasError::Timeout(m) => {
                push_str(&mut r, "timeout: ");
                push_str(&mut r, m.as_str());
            },
            NiphasError::Serialization(m) => {
                push_str(&mut r, "serialization error: ");
                push_str(&mut r, m.as_str());
            },
            NiphasError::Config(m) => {
                push_str(&mut r, "config error: ");
                push_str(&mut r, m.as_str());
            },
        }
        r
    }
}

} // verus!
