//! The control plane: what the proxy does on a line from an operator.
//!
//! A line is either empty, and ignored, or it holds one request. A line
//! that cannot be decoded is answered with an error, and the connection
//! goes on. Every request is answered at once but `MkListener`: there a
//! socket has to be bound first, which the caller does, and the answer
//! follows from how that went.

use crate::addr::SocketAddress;
use crate::assoc;
use crate::assoc::Key;
use crate::cprot::{ErrKind, ErrKindView, Request, RequestView, Response, ResponseView};
use crate::manager::{Manager, ManagerView};
use crate::proxy::Listener;
use crate::text;
use vstd::prelude::*;
use vstd::string::*;

verus! {

/// The longest line of the control protocol, in bytes.
pub const MAX_LINE: usize = 8192;

/// A response with the tasks that the caller has to stop before it sends
/// the response.
#[derive(Debug, PartialEq, Eq)]
pub struct Effect {
    pub response: Response,
    pub abort: Vec<u64>,
}

/// What a request comes to.
#[derive(Debug, PartialEq, Eq)]
pub enum Outcome {
    /// The request is done; this is its answer.
    Reply(Effect),
    /// A listener was asked for: bind this address, start its accept task,
    /// and report with `listener_bound`.
    Bind(SocketAddress),
}

/// `a => b`, the form of a listed pair.
pub open spec fn arrow(a: Seq<char>, b: Seq<char>) -> Seq<char> {
    a + " => "@ + b
}

/// The lines that list a routing table.
pub open spec fn mapping_lines(table: Seq<(Key, Seq<char>)>) -> Seq<Seq<char>> {
    Seq::new(table.len(), |i: int| arrow(table[i].0, table[i].1))
}

/// The lines that list connections.
pub open spec fn conn_lines(conns: Seq<(Seq<char>, Key)>) -> Seq<Seq<char>> {
    Seq::new(conns.len(), |i: int| arrow(conns[i].0, conns[i].1))
}

/// The lines that list listeners.
pub open spec fn listener_lines(table: Seq<(Key, u64)>) -> Seq<Seq<char>> {
    Seq::new(table.len(), |i: int| table[i].0)
}

/// The answer to `SetMapping`.
pub open spec fn set_answer(domain: Key, addr: Seq<char>, was: Option<Seq<char>>) -> ResponseView {
    match was {
        Some(old) => ResponseView::Okay("Set "@ + domain + " to "@ + addr + ", replaced "@ + old),
        None => ResponseView::Okay("Set "@ + domain + " to "@ + addr),
    }
}

/// The answer to `GetMapping`.
pub open spec fn get_answer(domain: Key, found: Option<Seq<char>>) -> ResponseView {
    match found {
        Some(addr) => ResponseView::Okay(arrow(domain, addr)),
        None => ResponseView::Error(ErrKindView::NotFound, "Unable to find "@ + domain),
    }
}

/// The answer to `RmMapping`, from the count that the removal reports: the
/// number of stopped players is one less.
pub open spec fn rm_answer(domain: Key, count: usize) -> ResponseView {
    if count == 0 {
        ResponseView::Error(ErrKindView::NotFound, "Unable to find "@ + domain)
    } else {
        ResponseView::Okay(
            "Deleted mapping for "@ + domain + "; Disconnected "@ + text::decimal(
                (count - 1) as nat,
            ) + " players"@,
        )
    }
}

/// The answer to `RmListener`.
pub open spec fn rm_listener_answer(addr: Key, found: bool) -> ResponseView {
    if found {
        ResponseView::Okay("Listener "@ + addr + " closed"@)
    } else {
        ResponseView::Error(ErrKindView::NotFound, "Listener "@ + addr + " does not exist"@)
    }
}

/// The answer to `MkListener`, once the bind went well or failed with the
/// error text `failure`.
pub open spec fn mk_listener_answer(addr: Key, failure: Option<Seq<char>>) -> ResponseView {
    match failure {
        None => ResponseView::Okay("Created new listener "@ + addr),
        Some(text) => ResponseView::Error(
            ErrKindView::IoError(text),
            "Unable to listen on '"@ + addr + "'"@,
        ),
    }
}

/// The answer to a request in state `m`; none yet to `MkListener`.
pub open spec fn answer(m: ManagerView, req: RequestView) -> Option<ResponseView> {
    match req {
        RequestView::Echo => Some(ResponseView::Echo),
        RequestView::MkListener(_) => None,
        RequestView::RmListener(addr) => Some(
            rm_listener_answer(addr, assoc::has_key(m.listeners, addr)),
        ),
        RequestView::LsListeners => Some(ResponseView::List(listener_lines(m.listeners))),
        RequestView::SetMapping(domain, addr) => Some(
            set_answer(domain, addr, assoc::get(m.mappings, domain)),
        ),
        RequestView::GetMapping(domain) => Some(get_answer(domain, assoc::get(m.mappings, domain))),
        RequestView::RmMapping(domain, disconnect) => Some(
            rm_answer(domain, m.reported(domain, disconnect)),
        ),
        RequestView::LsMappings => Some(ResponseView::List(mapping_lines(m.mappings))),
        RequestView::LsConns => Some(ResponseView::List(conn_lines(m.list_connections()))),
    }
}

/// The state that a request leaves behind.
pub open spec fn next(m: ManagerView, req: RequestView) -> ManagerView {
    match req {
        RequestView::RmListener(addr) => m.kill_delete_listener(addr),
        RequestView::SetMapping(domain, addr) => m.set_mapping(domain, addr),
        RequestView::RmMapping(domain, disconnect) => m.del_mapping(domain, disconnect),
        _ => m,
    }
}

/// The tasks that a request stops.
pub open spec fn to_stop(m: ManagerView, req: RequestView) -> Seq<u64> {
    match req {
        RequestView::RmListener(addr) => match assoc::get(m.listeners, addr) {
            Some(task) => seq![task],
            None => seq![],
        },
        RequestView::RmMapping(domain, disconnect) => m.stopped(domain, disconnect),
        _ => seq![],
    }
}

/// Whether `o` is what the request `req` comes to in state `before`, and
/// `after` the state it leaves.
pub open spec fn carried_out(
    before: ManagerView,
    after: ManagerView,
    req: RequestView,
    o: Outcome,
) -> bool {
    &&& after == next(before, req)
    &&& match o {
        Outcome::Bind(addr) => req == RequestView::MkListener(addr@),
        Outcome::Reply(e) => answer(before, req) == Some(e.response@) && e.abort@ == to_stop(
            before,
            req,
        ),
    }
}

/// Whether `o` is the answer to a line that could not be decoded.
pub open spec fn undecoded(o: Outcome) -> bool {
    o matches Outcome::Reply(e) && e.response@ == ResponseView::Error(
        ErrKindView::InvalidPacket,
        "Unable to decode packet"@,
    ) && e.abort@ == Seq::<u64>::empty()
}

fn arrow_line(a: &str, b: &str) -> (line: String)
    ensures
        line@ == arrow(a@, b@),
{
    String::from_str(a).concat(" => ").concat(b)
}

fn reply(response: Response) -> (r: Outcome)
    ensures
        r matches Outcome::Reply(e) && e.response == response && e.abort@ == Seq::<u64>::empty(),
{
    Outcome::Reply(Effect { response, abort: Vec::new() })
}

/// Carries out a request and answers it. For `MkListener` nothing is done
/// yet: the address comes back for the caller to bind.
pub fn process_packet(packet: Request, manager: &mut Manager) -> (r: Outcome)
    ensures
        carried_out(old(manager)@, final(manager)@, packet@, r),
{
    match packet {
        Request::Echo => reply(Response::Echo),
        Request::MkListener(socket) => Outcome::Bind(socket),
        Request::RmListener(socket) => {
            let addr = socket.as_str();
            match manager.kill_delete_listener(&socket) {
                Some(listener) => {
                    let mut abort: Vec<u64> = Vec::new();
                    abort.push(listener.0);
                    assert(abort@ =~= seq![listener.0]);
                    Outcome::Reply(
                        Effect {
                            response: Response::Okay(
                                String::from_str("Listener ").concat(addr).concat(" closed"),
                            ),
                            abort,
                        },
                    )
                },
                None => reply(
                    Response::Error(
                        ErrKind::NotFound,
                        String::from_str("Listener ").concat(addr).concat(" does not exist"),
                    ),
                ),
            }
        },
        Request::LsListeners => {
            let addrs = manager.get_listeners();
            let mut lines: Vec<String> = Vec::new();
            let mut i: usize = 0;
            while i < addrs.len()
                invariant
                    i <= addrs.len(),
                    lines@.len() == i,
                    forall|j: int| 0 <= j < i ==> (#[trigger] lines@[j])@ == addrs@[j]@,
                decreases addrs.len() - i,
            {
                lines.push(String::from_str(addrs[i].as_str()));
                i = i + 1;
            }
            assert(lines.deep_view() =~= listener_lines(manager@.listeners));
            reply(Response::List(lines))
        },
        Request::SetMapping(domain, socket) => {
            let set = String::from_str("Set ").concat(domain.as_str()).concat(" to ").concat(
                socket.as_str(),
            );
            match manager.set_mapping(domain, socket) {
                Some(old) => reply(
                    Response::Okay(set.concat(", replaced ").concat(old.as_str())),
                ),
                None => reply(Response::Okay(set)),
            }
        },
        Request::GetMapping(domain) => match manager.get_mapping(domain.as_str()) {
            Some(addr) => reply(Response::Okay(arrow_line(domain.as_str(), addr.as_str()))),
            None => reply(
                Response::Error(
                    ErrKind::NotFound,
                    String::from_str("Unable to find ").concat(domain.as_str()),
                ),
            ),
        },
        Request::RmMapping(domain, rm_clients) => {
            let removal = manager.del_mapping(domain.as_str(), rm_clients);
            if removal.count == 0 {
                assert(removal.aborted@ =~= Seq::<u64>::empty()) by {
                    assert(old(manager)@.removal_count(domain@, rm_clients) == 0);
                }
                reply(
                    Response::Error(
                        ErrKind::NotFound,
                        String::from_str("Unable to find ").concat(domain.as_str()),
                    ),
                )
            } else {
                let players = text::to_decimal(removal.count - 1);
                Outcome::Reply(
                    Effect {
                        response: Response::Okay(
                            String::from_str("Deleted mapping for ").concat(
                                domain.as_str(),
                            ).concat("; Disconnected ").concat(players.as_str()).concat(
                                " players",
                            ),
                        ),
                        abort: removal.aborted,
                    },
                )
            }
        },
        Request::LsMappings => {
            let pairs = manager.list_mappings();
            let mut lines: Vec<String> = Vec::new();
            let mut i: usize = 0;
            while i < pairs.len()
                invariant
                    i <= pairs.len(),
                    lines@.len() == i,
                    forall|j: int|
                        0 <= j < i ==> (#[trigger] lines@[j])@ == arrow(pairs@[j].0@, pairs@[j].1@),
                decreases pairs.len() - i,
            {
                lines.push(arrow_line(pairs[i].0.as_str(), pairs[i].1.as_str()));
                i = i + 1;
            }
            assert(lines.deep_view() =~= mapping_lines(manager@.mappings));
            reply(Response::List(lines))
        },
        Request::LsConns => {
            let pairs = manager.list_connections();
            let mut lines: Vec<String> = Vec::new();
            let mut i: usize = 0;
            while i < pairs.len()
                invariant
                    i <= pairs.len(),
                    lines@.len() == i,
                    forall|j: int|
                        0 <= j < i ==> (#[trigger] lines@[j])@ == arrow(pairs@[j].0@, pairs@[j].1@),
                decreases pairs.len() - i,
            {
                lines.push(arrow_line(pairs[i].0.as_str(), pairs[i].1.as_str()));
                i = i + 1;
            }
            assert(lines.deep_view() =~= conn_lines(manager@.list_connections()));
            reply(Response::List(lines))
        },
    }
}

/// Ends a `MkListener`: `bound` is the accept task that now serves `addr`,
/// or the text of the error that the bind failed with. A listener that
/// served the address before is replaced and named for the caller to stop.
pub fn listener_bound(manager: &mut Manager, addr: SocketAddress, bound: Result<Listener, String>) -> (r:
    Effect)
    ensures
        match bound {
            Ok(listener) => {
                &&& final(manager)@ == old(manager)@.register_listener(addr@, listener.0)
                &&& r.response@ == mk_listener_answer(addr@, None)
                &&& r.abort@ == match assoc::get(old(manager)@.listeners, addr@) {
                    Some(task) => seq![task],
                    None => seq![],
                }
            },
            Err(failure) => {
                &&& final(manager)@ == old(manager)@
                &&& r.response@ == mk_listener_answer(addr@, Some(failure@))
                &&& r.abort@ == Seq::<u64>::empty()
            },
        },
{
    match bound {
        Ok(listener) => {
            let response = Response::Okay(
                String::from_str("Created new listener ").concat(addr.as_str()),
            );
            let mut abort: Vec<u64> = Vec::new();
            match manager.register_listener(addr, listener) {
                Some(was) => {
                    abort.push(was.0);
                    assert(abort@ =~= seq![was.0]);
                },
                None => {},
            }
            Effect { response, abort }
        },
        Err(failure) => Effect {
            response: Response::Error(
                ErrKind::IoError(failure),
                String::from_str("Unable to listen on '").concat(addr.as_str()).concat("'"),
            ),
            abort: Vec::new(),
        },
    }
}

/// What a line of the control protocol comes to: nothing for an empty
/// line; for a line that could not be decoded, so that `packet` is none,
/// the answer that says so; else what the request comes to.
pub fn handle_controller(line: &str, packet: Option<Request>, manager: &mut Manager) -> (r: Option<
    Outcome,
>)
    ensures
        match r {
            None => line@.len() == 0 && final(manager)@ == old(manager)@,
            Some(o) => line@.len() > 0 && match packet {
                None => undecoded(o) && final(manager)@ == old(manager)@,
                Some(p) => carried_out(old(manager)@, final(manager)@, p@, o),
            },
        },
{
    if line.is_empty() {
        return None;
    }
    match packet {
        None => Some(
            reply(
                Response::Error(ErrKind::InvalidPacket, String::from_str("Unable to decode packet")),
            ),
        ),
        Some(packet) => Some(process_packet(packet, manager)),
    }
}

} // verus!
