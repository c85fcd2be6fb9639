//! The control plane's small replies and how each side reads them: an
//! acknowledgement (`ok` and an error text), the reply to a skill import or
//! export, and the reply to a spawn request; and the errors a control client
//! reports.
use crate::text::{push_str, string_from};
use vstd::prelude::*;

verus! {

/// An acknowledgement: whether the request succeeded, and why not.
#[derive(Debug)]
pub struct Ack {
    pub ok: bool,
    /// Empty when `ok`.
    pub error: String,
}

/// An acknowledgement with the given outcome and error text.
pub fn ack(ok: bool, error: &str) -> (r: Ack)
    ensures
        r.ok == ok,
        r.error@ == error@,
{
    Ack { ok, error: string_from(error) }
}

/// A successful acknowledgement.
pub fn ok_ack() -> (r: Ack)
    ensures
        r.ok,
        r.error@ == Seq::<char>::empty(),
{
    Ack { ok: true, error: String::new() }
}

/// The outcome of a request, with a failure's message as text.
pub open spec fn outcome_view(res: Result<(), String>) -> Result<(), Seq<char>> {
    match res {
        Ok(()) => Ok(()),
        Err(msg) => Err(msg@),
    }
}

/// The acknowledgement (`ok`, error text) for an outcome.
pub open spec fn ack_of(res: Result<(), Seq<char>>) -> (bool, Seq<char>) {
    match res {
        Ok(()) => (true, Seq::empty()),
        Err(msg) => (false, msg),
    }
}

/// What an acknowledgement says: success, or failure with its text.
pub open spec fn read_ack(ok: bool, error: Seq<char>) -> Result<(), Seq<char>> {
    if ok {
        Ok(())
    } else {
        Err(error)
    }
}

/// A client's result as the server's outcome: success, or the server's
/// error text; `None` for the client's own errors.
pub open spec fn server_view<T>(r: Result<T, ControlClientError>) -> Option<Result<T, Seq<char>>> {
    match r {
        Ok(v) => Some(Ok(v)),
        Err(ControlClientError::Server(m)) => Some(Err(m@)),
        Err(_) => None,
    }
}

/// The acknowledgement for the outcome of a request; a failure carries the
/// failure's message.
pub fn to_ack(res: Result<(), String>) -> (r: Ack)
    ensures
        (r.ok, r.error@) == ack_of(outcome_view(res)),
{
    match res {
        Ok(()) => ok_ack(),
        Err(msg) => Ack { ok: false, error: msg },
    }
}

/// The errors a control client reports. Those that come from the transport
/// or the codec carry that error's message.
#[derive(Debug)]
pub enum ControlClientError {
    /// The daemon's address could not be read.
    InvalidAddress(String),
    /// The connection could not be made.
    Connection(String),
    /// The call ended with an error status.
    Status(String),
    /// No discovery file: the daemon does not seem to run.
    NoDaemon,
    /// A payload could not be encoded or decoded.
    Serde(String),
    /// The server answered with an error.
    Server(String),
    /// The server's answer was empty.
    Empty,
}

/// The text of a `ControlClientError`.
pub open spec fn client_error_text(e: ControlClientError) -> Seq<char> {
    match e {
        ControlClientError::InvalidAddress(m) => "invalid address: "@ + m@,
        ControlClientError::Connection(m) => "gRPC connection error: "@ + m@,
        ControlClientError::Status(m) => "gRPC status error: "@ + m@,
        ControlClientError::NoDaemon => "daemon discovery file not found — is the daemon running?"@,
        ControlClientError::Serde(m) => "payload (de)serialisation error: "@ + m@,
        ControlClientError::Server(m) => "server returned an error: "@ + m@,
        ControlClientError::Empty => "unexpected empty response from server"@,
    }
}

impl ControlClientError {
    /// The error's message.
    pub fn message(&self) -> (r: String)
        ensures
            r@ == client_error_text(*self),
    {
        let mut out = String::new();
        match self {
            ControlClientError::InvalidAddress(m) => {
                push_str(&mut out, "invalid address: ");
                push_str(&mut out, m.as_str());
            },
            ControlClientError::Connection(m) => {
                push_str(&mut out, "gRPC connection error: ");
                push_str(&mut out, m.as_str());
            },
            ControlClientError::Status(m) => {
                push_str(&mut out, "gRPC status error: ");
                push_str(&mut out, m.as_str());
            },
            ControlClientError::NoDaemon => {
                push_str(&mut out, "daemon discovery file not found — is the daemon running?");
            },
            ControlClientError::Serde(m) => {
                push_str(&mut out, "payload (de)serialisation error: ");
                push_str(&mut out, m.as_str());
            },
            ControlClientError::Server(m) => {
                push_str(&mut out, "server returned an error: ");
                push_str(&mut out, m.as_str());
            },
            ControlClientError::Empty => {
                push_str(&mut out, "unexpected empty response from server");
            },
        }
        out
    }
}

/// What a client makes of an acknowledgement: success, or the server's error.
pub fn check_ack(ack: Ack) -> (r: Result<(), ControlClientError>)
    ensures
        server_view(r) == Some(read_ack(ack.ok, ack.error@)),
{
    if ack.ok {
        Ok(())
    } else {
        Err(ControlClientError::Server(ack.error))
    }
}

/// The reply to a skill import or export: how many skills, or an error text
/// (empty on success).
pub struct ImportReply {
    pub count: u32,
    pub error: String,
}

/// The reply (count, error text) for the outcome of an import or export.
pub open spec fn import_reply_of(res: Result<u32, Seq<char>>) -> (u32, Seq<char>) {
    match res {
        Ok(n) => (n, Seq::empty()),
        Err(msg) => (0, msg),
    }
}

/// What an import or export reply says: the count when the error text is
/// empty, else failure with that text.
pub open spec fn read_import(count: u32, error: Seq<char>) -> Result<u32, Seq<char>> {
    if error.len() == 0 {
        Ok(count)
    } else {
        Err(error)
    }
}

/// The reply a server sends for the outcome of an import or export.
pub fn import_reply(res: Result<u32, String>) -> (r: ImportReply)
    ensures
        (r.count, r.error@) == import_reply_of(
            match res {
                Ok(n) => Ok(n),
                Err(msg) => Err(msg@),
            },
        ),
{
    match res {
        Ok(n) => ImportReply { count: n, error: String::new() },
        Err(msg) => ImportReply { count: 0, error: msg },
    }
}

/// What a client makes of an import or export reply: the count when the
/// error text is empty, else the server's error.
pub fn result_or_error(count: u32, error: String) -> (r: Result<u32, ControlClientError>)
    ensures
        server_view(r) == Some(read_import(count, error@)),
{
    if error.as_str().is_empty() {
        Ok(count)
    } else {
        Err(ControlClientError::Server(error))
    }
}

/// The server's answer to a spawn request.
pub enum SpawnReply {
    /// The new agent's id, as text.
    AgentId(String),
    /// Why the agent could not be spawned.
    Error(String),
}

/// What a client makes of a spawn answer: the id's text, the server's error,
/// or `Empty` when there was no answer.
pub fn spawn_outcome(reply: Option<SpawnReply>) -> (r: Result<String, ControlClientError>)
    ensures
        match reply {
            Some(SpawnReply::AgentId(id)) => r matches Ok(s) && s@ == id@,
            Some(SpawnReply::Error(msg)) => r matches Err(ControlClientError::Server(m)) && m@
                == msg@,
            None => r matches Err(ControlClientError::Empty),
        },
{
    match reply {
        Some(SpawnReply::AgentId(id)) => Ok(id),
        Some(SpawnReply::Error(msg)) => Err(ControlClientError::Server(msg)),
        None => Err(ControlClientError::Empty),
    }
}

/// An acknowledgement read back by a client gives the outcome it was made
/// from: success stays success, and a failure comes back with its message.
pub proof fn law_ack_round_trip(res: Result<(), Seq<char>>)
    ensures
        read_ack(ack_of(res).0, ack_of(res).1) == res,
{
    match res {
        Ok(u) => {
            assert(u == ());
        },
        Err(_) => {},
    }
}

/// An import or export reply read back by a client gives the outcome it was
/// made from, when a failure's message is not empty.
pub proof fn law_import_round_trip(res: Result<u32, Seq<char>>)
    requires
        res matches Err(msg) ==> msg.len() > 0,
    ensures
        read_import(import_reply_of(res).0, import_reply_of(res).1) == res,
{
}

} // verus!
