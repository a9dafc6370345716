//! What the manager knows of the tasks that do the proxy's work: the accept
//! loop of a listener and the splice of a connection. The tasks themselves
//! belong to the runtime; here each is a number that names it.

use crate::addr::SocketAddress;
use crate::prefixed;
use crate::varint;
use vstd::prelude::*;
use vstd::string::*;
use vstd::utf8::*;

verus! {

/// The accept task that serves a bound address, named by its number.
#[derive(Debug, PartialEq, Eq, Clone, Copy)]
pub struct Listener(pub u64);

impl DeepView for Listener {
    type V = u64;

    open spec fn deep_view(&self) -> u64 {
        self.0
    }
}

/// A spliced connection: the client, the backend it was routed to, and the
/// task that owns both sockets, named by its number.
#[derive(Debug, PartialEq, Eq)]
pub struct ConnInfo {
    pub peer: SocketAddress,
    pub target: SocketAddress,
    pub handler: u64,
}

impl Clone for ConnInfo {
    fn clone(&self) -> (copy: Self)
        ensures
            copy.peer@ == self.peer@,
            copy.target@ == self.target@,
            copy.handler == self.handler,
    {
        ConnInfo { peer: self.peer.clone(), target: self.target.clone(), handler: self.handler }
    }
}

/// Why the backend could not be dialled.
#[derive(Debug, PartialEq, Eq, Clone, Copy)]
pub enum DialFailure {
    /// The backend refused the connection.
    Refused,
    /// The backend did not answer in time.
    TimedOut,
    /// Anything else.
    Other,
}

/// The reason a client is given for a failed dial.
pub open spec fn reason(failure: DialFailure) -> Seq<char> {
    match failure {
        DialFailure::Refused => "Gateway refused connection"@,
        DialFailure::TimedOut => "Gateway timed out"@,
        DialFailure::Other => "Unknown error"@,
    }
}

/// The reason a client is given for a failed dial.
pub fn failure_reason(failure: DialFailure) -> (text: &'static str)
    ensures
        text@ == reason(failure),
{
    match failure {
        DialFailure::Refused => "Gateway refused connection",
        DialFailure::TimedOut => "Gateway timed out",
        DialFailure::Other => "Unknown error",
    }
}

/// The body of the packet that carries `document` to a client: the packet
/// id, which is zero, and the document as a string.
pub open spec fn reply_body(document: Seq<char>) -> Seq<u8> {
    varint::encoding(0) + prefixed::encoding(document)
}

/// The packet that carries `document` to a client: the length of the body
/// as a VarInt, then the body.
pub open spec fn reply_encoding(document: Seq<char>) -> Seq<u8> {
    varint::encoding(reply_body(document).len() as i32) + reply_body(document)
}

/// Frames `document`, a status or a disconnect reason in JSON, as the
/// packet that is sent to a client in place of a backend's answer. There
/// is no packet for a document whose body is longer than a VarInt can say.
pub fn reply_frame(document: &str) -> (frame: Option<Vec<u8>>)
    ensures
        frame is Some <==> reply_body(document@).len() <= i32::MAX,
        frame matches Some(bytes) ==> bytes@ == reply_encoding(document@),
{
    if document.as_bytes().len() > i32::MAX as usize {
        return None;
    }
    let mut body: Vec<u8> = Vec::new();
    varint::write_var_int(0, &mut body);
    prefixed::write_string(document, &mut body);
    assert(body@ =~= reply_body(document@));
    if body.len() > i32::MAX as usize {
        return None;
    }
    let mut frame: Vec<u8> = Vec::new();
    varint::write_var_int(body.len() as i32, &mut frame);
    frame.extend_from_slice(body.as_slice());
    assert(frame@ =~= reply_encoding(document@));
    Some(frame)
}

} // verus!
