//! Error types.  A caller can tell a remote application error (`Rpc`) from
//! a transport or local failure by the variant alone, never by message
//! text.

use vstd::prelude::*;

use crate::json::{parse_text, Json, JsonV};
use crate::protocol::{DecodeError, RpcError};

verus! {

/// Client-side errors.
#[derive(Debug)]
pub enum Error {
    /// The TCP connection failed; the payload describes how.
    Io(String),
    /// The delivery slot for a response was torn down before an answer
    /// arrived — the connection was lost with the call outstanding.
    Recv,
    /// The send queue towards the connection is gone.
    Send,
    /// A local decode failure: the peer's line was not a message.
    Json(DecodeError),
    /// The remote application answered the call with an error.
    Rpc(RpcError),
    /// A named group is gone from the hosted scene.
    GroupGone(String),
    /// A named unit is gone from the hosted scene.
    UnitGone(String),
    /// A named static object is gone from the hosted scene.
    StaticGone(String),
    /// A freshly added group did not appear in time.
    AddGroupTimeout,
    /// A freshly added static object did not appear in time.
    AddStaticTimeout,
}

/// Host-boundary errors of the serving side.
#[derive(Debug)]
pub enum ServerError {
    /// An argument handed in by the host had the wrong type; the fields
    /// name the argument and the type it should have had.
    ArgumentType(String, String),
    /// The host's result text for a call was not JSON; it is carried along
    /// so the host can be told, and it is never sent on the wire.
    SerializeResult(String),
    /// The host's broadcast payload text was not JSON.
    SerializeBroadcast(String),
}

/// The error for a host argument of the wrong type.
pub fn argument_type_error(name: &str, kind: &str) -> (r: ServerError)
    ensures
        r matches ServerError::ArgumentType(n, k) && n@ == name@ && k@ == kind@,
{
    ServerError::ArgumentType(String::from_str(name), String::from_str(kind))
}

/// Parses the host's result text for one call.  A text that is not JSON is
/// a local error, surfaced to the host and never sent as a success.
pub fn parse_host_result(text: &str) -> (r: Result<Json, ServerError>)
    ensures
        match (parse_text(text@), r) {
            (Option::Some(v), Result::Ok(j)) => j@ == v,
            (Option::None, Result::Err(e)) => e matches ServerError::SerializeResult(t) && t@
                == text@,
            _ => false,
        },
{
    match crate::json::from_text(text) {
        Some(j) => Ok(j),
        None => Err(ServerError::SerializeResult(String::from_str(text))),
    }
}

/// Parses the host's broadcast payload text; a literal `null` is an absent
/// payload.
pub fn parse_broadcast_payload(text: &str) -> (r: Result<Option<Json>, ServerError>)
    ensures
        match (parse_text(text@), r) {
            (Option::Some(v), Result::Ok(p)) => crate::protocol::opt_json_view(p)
                == crate::protocol::flatten_null(Option::Some(v)),
            (Option::None, Result::Err(e)) => e matches ServerError::SerializeBroadcast(t) && t@
                == text@,
            _ => false,
        },
{
    match crate::json::from_text(text) {
        Some(Json::Null) => Ok(None),
        Some(j) => Ok(Some(j)),
        None => Err(ServerError::SerializeBroadcast(String::from_str(text))),
    }
}

} // verus!
