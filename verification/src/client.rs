//! What the tool sends to the remote store and how it reads the replies.
use vstd::prelude::*;

use crate::error::{ErrorKind, ErrorView, OctError};
use crate::text::{chars_of, concat2, decimal, decimal_exec, push_chars, string_from_chars};

verus! {

/// The body of an error reply of the store.
#[derive(Debug)]
pub struct ServerError {
    pub error: ErrorDetail,
    pub request_id: String,
}

/// The code and message of an error reply.
#[derive(Debug)]
pub struct ErrorDetail {
    pub code: String,
    pub message: String,
}

/// The address of the configuration resource of the store at `endpoint`.
pub fn config_url(endpoint: &str) -> (r: String)
    ensures
        r@ == endpoint@ + "/api/v1/config"@,
{
    concat2(endpoint, "/api/v1/config")
}

/// The address of the metadata resource of the store at `endpoint`.
pub fn meta_url(endpoint: &str) -> (r: String)
    ensures
        r@ == endpoint@ + "/api/v1/meta"@,
{
    concat2(endpoint, "/api/v1/meta")
}

/// The `Authorization` header value that carries `token`.
pub fn bearer_header(token: &str) -> (r: String)
    ensures
        r@ == "Bearer "@ + token@,
{
    concat2("Bearer ", token)
}

/// Whether an HTTP status is a success (200 to 299).
pub fn is_success_status(status: u16) -> (r: bool)
    ensures
        r == (200 <= status <= 299),
{
    200 <= status && status <= 299
}

/// The error for a reply with an unsuccessful `status` and `body`: the
/// store's own code and message when the body is one of its error replies
/// (`parsed`), or else `HTTP_` and the status with the body as message.
pub fn reply_error(status: u16, body: String, parsed: Option<ServerError>) -> (e: OctError)
    ensures
        parsed matches Some(se) ==> e@ == (ErrorKind::ServerError, se.error.code@, se.error.message@),
        parsed is None ==> e@ == (ErrorKind::ServerError, "HTTP_"@ + decimal(status as nat), body@),
{
    match parsed {
        Some(se) => OctError::ServerError { code: se.error.code, message: se.error.message },
        None => {
            let mut code = chars_of("HTTP_");
            let digits = decimal_exec(status as u64);
            push_chars(&mut code, &digits);
            OctError::ServerError { code: string_from_chars(code.as_slice()), message: body }
        },
    }
}

} // verus!
