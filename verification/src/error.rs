//! The library's error type.
use vstd::prelude::*;

use crate::text::{chars_of, push_str, string_from_chars};

verus! {

/// Every failure the tool reports.  Failures of the file system, the
/// network and the parsers are carried as their message.
#[derive(Debug)]
pub enum OctError {
    Io(String),
    Http(String),
    Json(String),
    TomlDe(String),
    TomlSer(String),
    TokenInvalid(String),
    NotInitialized,
    NoConfigFound,
    ServerError { code: String, message: String },
    PathSecurity(String),
    Backup(String),
    Bundle(String),
    Config(String),
}

/// Which failure an error is.
#[derive(Debug, Clone, Copy, PartialEq, Eq, Structural)]
pub enum ErrorKind {
    Io,
    Http,
    Json,
    TomlDe,
    TomlSer,
    TokenInvalid,
    NotInitialized,
    NoConfigFound,
    ServerError,
    PathSecurity,
    Backup,
    Bundle,
    Config,
}

/// An error as plain values: its kind, its message (the code, for a server
/// error) and, for a server error, the server's message.
pub type ErrorView = (ErrorKind, Seq<char>, Seq<char>);

impl View for OctError {
    type V = ErrorView;

    open spec fn view(&self) -> ErrorView {
        match self {
            OctError::Io(m) => (ErrorKind::Io, m@, seq![]),
            OctError::Http(m) => (ErrorKind::Http, m@, seq![]),
            OctError::Json(m) => (ErrorKind::Json, m@, seq![]),
            OctError::TomlDe(m) => (ErrorKind::TomlDe, m@, seq![]),
            OctError::TomlSer(m) => (ErrorKind::TomlSer, m@, seq![]),
            OctError::TokenInvalid(m) => (ErrorKind::TokenInvalid, m@, seq![]),
            OctError::NotInitialized => (ErrorKind::NotInitialized, seq![], seq![]),
            OctError::NoConfigFound => (ErrorKind::NoConfigFound, seq![], seq![]),
            OctError::ServerError { code, message } => (ErrorKind::ServerError, code@, message@),
            OctError::PathSecurity(m) => (ErrorKind::PathSecurity, m@, seq![]),
            OctError::Backup(m) => (ErrorKind::Backup, m@, seq![]),
            OctError::Bundle(m) => (ErrorKind::Bundle, m@, seq![]),
            OctError::Config(m) => (ErrorKind::Config, m@, seq![]),
        }
    }
}

/// The view of an error of the given kind that carries one message.
pub open spec fn err_msg(kind: ErrorKind, m: Seq<char>) -> ErrorView {
    (kind, m, seq![])
}

/// A `Result` holding a string, as plain values.
pub open spec fn string_result_view(r: Result<String, OctError>) -> Result<Seq<char>, ErrorView> {
    match r {
        Ok(s) => Ok(s@),
        Err(e) => Err(e@),
    }
}

/// A `Result` holding bytes, as plain values.
pub open spec fn bytes_result_view(r: Result<Vec<u8>, OctError>) -> Result<Seq<u8>, ErrorView> {
    match r {
        Ok(b) => Ok(b@),
        Err(e) => Err(e@),
    }
}

/// The text the tool prints for an error.
pub open spec fn error_text(e: OctError) -> Seq<char> {
    match e {
        OctError::Io(m) => "IO error: "@ + m@,
        OctError::Http(m) => "HTTP error: "@ + m@,
        OctError::Json(m) => "JSON error: "@ + m@,
        OctError::TomlDe(m) => "TOML error: "@ + m@,
        OctError::TomlSer(m) => "TOML serialize error: "@ + m@,
        OctError::TokenInvalid(m) => "token invalid: "@ + m@,
        OctError::NotInitialized => "not initialized: run `oct init` first"@,
        OctError::NoConfigFound => "no opencode config found"@,
        OctError::ServerError { code, message } => "server error: "@ + code@ + " "@ + message@,
        OctError::PathSecurity(m) => "path security violation: "@ + m@,
        OctError::Backup(m) => "backup error: "@ + m@,
        OctError::Bundle(m) => "bundle error: "@ + m@,
        OctError::Config(m) => "config error: "@ + m@,
    }
}

impl OctError {
    /// A copy of this error.
    pub fn copy(&self) -> (r: OctError)
        ensures
            r@ == self@,
    {
        match self {
            OctError::Io(m) => OctError::Io(m.clone()),
            OctError::Http(m) => OctError::Http(m.clone()),
            OctError::Json(m) => OctError::Json(m.clone()),
            OctError::TomlDe(m) => OctError::TomlDe(m.clone()),
            OctError::TomlSer(m) => OctError::TomlSer(m.clone()),
            OctError::TokenInvalid(m) => OctError::TokenInvalid(m.clone()),
            OctError::NotInitialized => OctError::NotInitialized,
            OctError::NoConfigFound => OctError::NoConfigFound,
            OctError::ServerError { code, message } => OctError::ServerError { code: code.clone(), message: message.clone() },
            OctError::PathSecurity(m) => OctError::PathSecurity(m.clone()),
            OctError::Backup(m) => OctError::Backup(m.clone()),
            OctError::Bundle(m) => OctError::Bundle(m.clone()),
            OctError::Config(m) => OctError::Config(m.clone()),
        }
    }

    /// The text the tool prints for this error.
    pub fn message(&self) -> (r: String)
        ensures
            r@ == error_text(*self),
    {
        let mut v: Vec<char>;
        match self {
            OctError::Io(m) => {
                v = chars_of("IO error: ");
                push_str(&mut v, m.as_str());
            },
            OctError::Http(m) => {
                v = chars_of("HTTP error: ");
                push_str(&mut v, m.as_str());
            },
            OctError::Json(m) => {
                v = chars_of("JSON error: ");
                push_str(&mut v, m.as_str());
            },
            OctError::TomlDe(m) => {
                v = chars_of("TOML error: ");
                push_str(&mut v, m.as_str());
            },
            OctError::TomlSer(m) => {
                v = chars_of("TOML serialize error: ");
                push_str(&mut v, m.as_str());
            },
            OctError::TokenInvalid(m) => {
                v = chars_of("token invalid: ");
                push_str(&mut v, m.as_str());
            },
            OctError::NotInitialized => {
                v = chars_of("not initialized: run `oct init` first");
            },
            OctError::NoConfigFound => {
                v = chars_of("no opencode config found");
            },
            OctError::ServerError { code, message } => {
                v = chars_of("server error: ");
                push_str(&mut v, code.as_str());
                push_str(&mut v, " ");
                push_str(&mut v, message.as_str());
            },
            OctError::PathSecurity(m) => {
                v = chars_of("path security violation: ");
                push_str(&mut v, m.as_str());
            },
            OctError::Backup(m) => {
                v = chars_of("backup error: ");
                push_str(&mut v, m.as_str());
            },
            OctError::Bundle(m) => {
                v = chars_of("bundle error: ");
                push_str(&mut v, m.as_str());
            },
            OctError::Config(m) => {
                v = chars_of("config error: ");
                push_str(&mut v, m.as_str());
            },
        }
        string_from_chars(v.as_slice())
    }
}

} // verus!
