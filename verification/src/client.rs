//! The decisions of the loopback client: how failures are classified, which
//! ones leave the connection usable, when a command is retried, and what a
//! liveness probe counts as an answer. The socket work around them is the
//! caller's.

use vstd::prelude::*;
use crate::reply::{reply_debug_text, Reply, ReplyModel};
use crate::text::{from_utf8_lossy, lossy_text, push_text};

verus! {

#[verifier::external_type_specification]
#[verifier::external_body]
pub struct ExIoError(std::io::Error);

/// Everything that can go wrong on a loopback call.
#[derive(Debug)]
pub enum ClientError {
    /// Could not establish a connection at all.
    Connect(std::io::Error),
    /// Socket error during an established conversation.
    Io(std::io::Error),
    /// The read timeout elapsed before a complete reply arrived.
    Timeout,
    /// The peer closed the connection before any byte of a reply arrived.
    Closed,
    /// Bytes on the wire were not valid RESP2, or the stream lost its framing.
    Protocol(String),
    /// The server answered with an error reply; the connection stays usable.
    Server(String),
    /// AUTH was required and rejected.
    Auth(String),
}

/// `Display` for `std::io::Error`: the error's message. Its text comes from
/// the operating system, so the contract says nothing of it.
#[verifier::external_body]
fn io_error_text(e: &std::io::Error) -> (s: String) {
    format!("{e}")
}

/// Whether the socket error `e` is a read timeout: its `kind()` is
/// `WouldBlock` or `TimedOut`. A function of the error alone.
pub uninterp spec fn io_error_timed_out(e: std::io::Error) -> bool;

/// Whether `e.kind()` is `WouldBlock` or `TimedOut`, the two ways a read
/// timeout surfaces.
#[verifier::external_body]
pub(crate) fn io_timed_out(e: &std::io::Error) -> (b: bool)
    ensures
        b == io_error_timed_out(*e),
{
    match e.kind() {
        std::io::ErrorKind::WouldBlock => true,
        std::io::ErrorKind::TimedOut => true,
        _ => false,
    }
}

impl ClientError {
    /// Whether the connection must be discarded after this error. Only a
    /// server error reply leaves the stream synchronized.
    pub fn is_fatal_to_connection(&self) -> (b: bool)
        ensures
            b == !(self is Server),
    {
        !matches!(self, ClientError::Server(_))
    }

    /// The error as text, as its `Display` form writes it.
    pub fn message(&self) -> (s: String)
        ensures
            match self {
                ClientError::Timeout => s@ == "timed out waiting for a reply"@,
                ClientError::Closed => s@ == "server closed the connection"@,
                ClientError::Protocol(m) => s@ == "protocol error: "@ + m@,
                ClientError::Server(m) => s@ == m@,
                ClientError::Auth(m) => s@ == "authentication failed: "@ + m@,
                ClientError::Connect(_) => "could not connect: "@.is_prefix_of(s@),
                ClientError::Io(_) => "socket error: "@.is_prefix_of(s@),
            },
    {
        let mut s = String::new();
        match self {
            ClientError::Connect(e) => {
                push_text(&mut s, "could not connect: ");
                let t = io_error_text(e);
                push_text(&mut s, t.as_str());
            },
            ClientError::Io(e) => {
                push_text(&mut s, "socket error: ");
                let t = io_error_text(e);
                push_text(&mut s, t.as_str());
            },
            ClientError::Timeout => push_text(&mut s, "timed out waiting for a reply"),
            ClientError::Closed => push_text(&mut s, "server closed the connection"),
            ClientError::Protocol(m) => {
                push_text(&mut s, "protocol error: ");
                push_text(&mut s, m.as_str());
            },
            ClientError::Server(m) => push_text(&mut s, m.as_str()),
            ClientError::Auth(m) => {
                push_text(&mut s, "authentication failed: ");
                push_text(&mut s, m.as_str());
            },
        }
        proof {
            assert(Seq::<char>::empty() + "could not connect: "@ =~= "could not connect: "@);
            assert(Seq::<char>::empty() + "socket error: "@ =~= "socket error: "@);
            assert(Seq::<char>::empty() + "timed out waiting for a reply"@ =~= "timed out waiting for a reply"@);
            assert(Seq::<char>::empty() + "server closed the connection"@ =~= "server closed the connection"@);
            assert(Seq::<char>::empty() + "protocol error: "@ =~= "protocol error: "@);
            assert(Seq::<char>::empty() + "authentication failed: "@ =~= "authentication failed: "@);
            match self {
                ClientError::Server(m) => {
                    assert(Seq::<char>::empty() + m@ =~= m@);
                },
                _ => {},
            }
        }
        s
    }
}

/// What to do after a failed attempt of a retrying command.
pub struct RetryDecision {
    /// Drop the held connection (every error but a server error reply).
    pub drop_connection: bool,
    /// Try once more on a fresh connection.
    pub retry: bool,
}

/// Whether a failure of a command is worth one retry on a fresh connection:
/// only when the connection had been established before the call, and the
/// failure happened before any byte of a reply (a socket error, a close with
/// nothing read, or a failed connect).
pub open spec fn retry_worthy(was_reused: bool, err: ClientError) -> bool {
    was_reused && (err is Io || err is Closed || err is Connect)
}

pub fn after_failure(was_reused: bool, err: &ClientError) -> (d: RetryDecision)
    ensures
        d.drop_connection == !(*err is Server),
        d.retry == retry_worthy(was_reused, *err),
{
    let retry = was_reused && match err {
        ClientError::Io(_) => true,
        ClientError::Closed => true,
        ClientError::Connect(_) => true,
        _ => false,
    };
    RetryDecision { drop_connection: err.is_fatal_to_connection(), retry }
}

/// A liveness probe's verdict on the answer to PING: any well-formed reply,
/// an error reply included, proves the service is answering.
pub fn probe_verdict(r: Result<Reply, ClientError>) -> (v: Result<(), ClientError>)
    ensures
        v is Ok <==> (r is Ok || r->Err_0 is Server),
        v is Err ==> v == Err::<(), ClientError>(r->Err_0),
{
    match r {
        Ok(_) => Ok(()),
        Err(ClientError::Server(_)) => Ok(()),
        Err(e) => Err(e),
    }
}

/// A complete reply as the caller sees it: an error reply becomes a
/// `Server` error carrying its text, anything else is returned as is.
pub fn classify_reply(reply: Reply) -> (r: Result<Reply, ClientError>)
    ensures
        match reply@ {
            ReplyModel::Error(m) => r matches Err(ClientError::Server(t)) && t@ == lossy_text(m),
            _ => r == Ok::<Reply, ClientError>(reply),
        },
{
    match reply {
        Reply::Error(msg) => Err(ClientError::Server(from_utf8_lossy(msg.as_slice()))),
        other => Ok(other),
    }
}

/// The error for a peer that closed the stream: `Closed` when no byte of a
/// reply had arrived (the case that is safe to retry), a protocol error
/// otherwise.
pub fn closed_error(partial_reply_seen: bool) -> (e: ClientError)
    ensures
        !partial_reply_seen ==> e is Closed,
        partial_reply_seen ==> (e matches ClientError::Protocol(m) && m@
            == "server closed the connection mid-reply"@),
{
    if partial_reply_seen {
        ClientError::Protocol(crate::text::owned("server closed the connection mid-reply"))
    } else {
        ClientError::Closed
    }
}

/// Classifies a socket error given whether it was a timeout and whether part
/// of a reply had already arrived: a timeout is `Timeout`; otherwise an
/// error after a partial reply is a protocol error (the command certainly
/// ran), and any other is `Io`.
pub fn classify_io(timed_out: bool, partial_reply_seen: bool, e: std::io::Error) -> (r: ClientError)
    ensures
        timed_out ==> r is Timeout,
        !timed_out && partial_reply_seen ==> (r matches ClientError::Protocol(m)
            && "connection failed after a partial reply had arrived: "@.is_prefix_of(m@)),
        !timed_out && !partial_reply_seen ==> (r matches ClientError::Io(x) && x == e),
{
    if timed_out {
        ClientError::Timeout
    } else if partial_reply_seen {
        let mut m = String::new();
        push_text(&mut m, "connection failed after a partial reply had arrived: ");
        let t = io_error_text(&e);
        push_text(&mut m, t.as_str());
        proof {
            assert(Seq::<char>::empty() + "connection failed after a partial reply had arrived: "@
                =~= "connection failed after a partial reply had arrived: "@);
        }
        ClientError::Protocol(m)
    } else {
        ClientError::Io(e)
    }
}

/// A socket error as the client reports it: `Timeout` when its kind is a
/// read timeout (`WouldBlock` or `TimedOut`); otherwise, as `classify_io`
/// says, a protocol error naming a connection lost after part of a reply,
/// or the socket error itself.
pub fn map_io(partial_reply_seen: bool, e: std::io::Error) -> (r: ClientError)
    ensures
        io_error_timed_out(e) ==> r is Timeout,
        !io_error_timed_out(e) && partial_reply_seen ==> (r matches ClientError::Protocol(m)
            && "connection failed after a partial reply had arrived: "@.is_prefix_of(m@)),
        !io_error_timed_out(e) && !partial_reply_seen ==> (r matches ClientError::Io(x) && x == e),
{
    let t = io_timed_out(&e);
    classify_io(t, partial_reply_seen, e)
}

/// The outcome of the AUTH sent on a fresh connection: a simple-string
/// reply authenticates; a server error becomes `Auth` with its text; any
/// other reply is an `Auth` error naming it; transport errors pass through.
pub fn auth_verdict(r: Result<Reply, ClientError>) -> (v: Result<(), ClientError>)
    ensures
        match r {
            Ok(reply) => match reply@ {
                ReplyModel::Simple(_) => v is Ok,
                _ => v matches Err(ClientError::Auth(m)) && m@ == "unexpected AUTH reply: "@
                    + reply_debug_text(reply@),
            },
            Err(ClientError::Server(msg)) => v matches Err(ClientError::Auth(m)) && m@ == msg@,
            Err(e) => v == Err::<(), ClientError>(e),
        },
{
    match r {
        Ok(Reply::Simple(_)) => Ok(()),
        Ok(other) => {
            let mut m = String::new();
            push_text(&mut m, "unexpected AUTH reply: ");
            let d = other.debug_string();
            push_text(&mut m, d.as_str());
            proof {
                assert(Seq::<char>::empty() + "unexpected AUTH reply: "@ =~= "unexpected AUTH reply: "@);
            }
            Err(ClientError::Auth(m))
        },
        Err(ClientError::Server(msg)) => Err(ClientError::Auth(msg)),
        Err(e) => Err(e),
    }
}

/// The password a client authenticates with: none when absent or empty.
pub open spec fn normalize_password_spec(p: Option<Vec<u8>>) -> Option<Vec<u8>> {
    match p {
        Some(v) => if v@.len() > 0 {
            Some(v)
        } else {
            None
        },
        None => None,
    }
}

pub fn normalize_password(p: Option<Vec<u8>>) -> (r: Option<Vec<u8>>)
    ensures
        r == normalize_password_spec(p),
{
    match p {
        Some(v) => if v.len() > 0 {
            Some(v)
        } else {
            None
        },
        None => None,
    }
}

} // verus!
