//! The manager: the routing table, the listeners, and the two indices of
//! connections, with every operation an operator or the proxy can ask for.
//!
//! The manager holds no socket and runs no task. A listener or a connection
//! is known to it by the number of the task that serves it; where tasks
//! have to be stopped, an operation names them and the caller stops them.
//! A connection is entered when it is spliced and reported when its task
//! has ended. Until the next sweep the index may still hold the entry of a
//! connection that has ended; such an entry counts for nothing.

use crate::addr::SocketAddress;
use crate::assoc;
use crate::assoc::Key;
use crate::error::ErrorKind;
use crate::prot;
use crate::prot::{Host, Parsed, Seek};
use crate::proxy::{ConnInfo, Listener};
use crate::table::Table;
use vstd::prelude::*;

verus! {

/// An entry of a connection index, in the abstract.
pub struct ConnModel {
    pub peer: Seq<char>,
    pub target: Seq<char>,
    pub handler: u64,
    /// Whether the task of the connection still runs.
    pub live: bool,
}

/// A connection index in the abstract: the entries by domain.
pub type Index = Seq<(Key, Seq<ConnModel>)>;

/// The entries of `conns` whose connection still runs, in their order.
pub open spec fn alive(conns: Seq<ConnModel>) -> Seq<ConnModel>
    decreases conns.len(),
{
    if conns.len() == 0 {
        conns
    } else if conns.last().live {
        alive(conns.drop_last()).push(conns.last())
    } else {
        alive(conns.drop_last())
    }
}

/// The task numbers of `conns`, in their order.
pub open spec fn handlers(conns: Seq<ConnModel>) -> Seq<u64> {
    Seq::new(conns.len(), |i: int| conns[i].handler)
}

/// `conns` with every entry of task `handler` marked as ended.
pub open spec fn retired(conns: Seq<ConnModel>, handler: u64) -> Seq<ConnModel> {
    Seq::new(
        conns.len(),
        |i: int|
            if conns[i].handler == handler {
                ConnModel { live: false, ..conns[i] }
            } else {
                conns[i]
            },
    )
}

/// `index` with every list reduced to the connections that still run.
pub open spec fn swept(index: Index) -> Index {
    Seq::new(index.len(), |i: int| (index[i].0, alive(index[i].1)))
}

/// `index` with every entry of task `handler` marked as ended.
pub open spec fn released(index: Index, handler: u64) -> Index {
    Seq::new(index.len(), |i: int| (index[i].0, retired(index[i].1, handler)))
}

/// The running connections of one domain as they are listed: the peer,
/// then the domain.
pub open spec fn listed_under(domain: Key, conns: Seq<ConnModel>) -> Seq<(Seq<char>, Key)> {
    Seq::new(alive(conns).len(), |i: int| (alive(conns)[i].peer, domain))
}

/// The running connections of `index` as they are listed, domain after
/// domain.
pub open spec fn listed(index: Index) -> Seq<(Seq<char>, Key)>
    decreases index.len(),
{
    if index.len() == 0 {
        seq![]
    } else {
        listed(index.drop_last()) + listed_under(index.last().0, index.last().1)
    }
}

/// Every list of `index` holds running connections only.
pub open spec fn all_live(index: Index) -> bool {
    forall|i: int, j: int|
        0 <= i < index.len() && 0 <= j < index[i].1.len() ==> (#[trigger] index[i].1[j]).live
}

/// The list under `domain`, empty where the index has none.
pub open spec fn bucket(index: Index, domain: Key) -> Seq<ConnModel> {
    match assoc::get(index, domain) {
        Some(conns) => conns,
        None => seq![],
    }
}

/// The state of a manager, in the abstract.
pub struct ManagerView {
    /// The routing table: the backend by domain.
    pub mappings: Seq<(Key, Seq<char>)>,
    /// The accept task by bound address.
    pub listeners: Seq<(Key, u64)>,
    /// The connections routed under a domain that is, or was until its
    /// removal by force, in the routing table.
    pub connections: Index,
    /// The connections that outlived the removal of their mapping.
    pub grace: Index,
    /// The clients accepted since the last sweep.
    pub accepted: usize,
    /// Whether the sweeper was started.
    pub sweeping: bool,
}

impl ManagerView {
    /// The state of a manager that was just made.
    pub open spec fn empty() -> ManagerView {
        ManagerView {
            mappings: seq![],
            listeners: seq![],
            connections: seq![],
            grace: seq![],
            accepted: 0,
            sweeping: false,
        }
    }

    /// No table holds a key twice.
    pub open spec fn wf(self) -> bool {
        &&& assoc::distinct(self.mappings)
        &&& assoc::distinct(self.listeners)
        &&& assoc::distinct(self.connections)
        &&& assoc::distinct(self.grace)
    }

    /// The state after `domain` was mapped to `target`.
    pub open spec fn set_mapping(self, domain: Key, target: Seq<char>) -> ManagerView {
        ManagerView { mappings: assoc::put(self.mappings, domain, target), ..self }
    }

    /// The state after a listener was entered for `addr`.
    pub open spec fn register_listener(self, addr: Key, task: u64) -> ManagerView {
        ManagerView { listeners: assoc::put(self.listeners, addr, task), ..self }
    }

    /// The state after the listener of `addr` was taken out.
    pub open spec fn kill_delete_listener(self, addr: Key) -> ManagerView {
        ManagerView { listeners: assoc::del(self.listeners, addr), ..self }
    }

    /// The state after one more client was accepted. The count wraps.
    pub open spec fn new_client(self) -> ManagerView {
        ManagerView {
            accepted: if self.accepted == usize::MAX {
                0
            } else {
                (self.accepted + 1) as usize
            },
            ..self
        }
    }

    /// The state after a connection was entered under `domain`, behind
    /// those already there.
    pub open spec fn register_client(self, domain: Key, conn: ConnModel) -> ManagerView {
        ManagerView {
            connections: assoc::put(
                self.connections,
                domain,
                bucket(self.connections, domain).push(conn),
            ),
            ..self
        }
    }

    /// The state after the task `handler` was reported as ended.
    pub open spec fn release_client(self, handler: u64) -> ManagerView {
        ManagerView {
            connections: released(self.connections, handler),
            grace: released(self.grace, handler),
            ..self
        }
    }

    /// The state after both indices were cleaned.
    pub open spec fn clean_cache(self) -> ManagerView {
        ManagerView { connections: swept(self.connections), grace: swept(self.grace), ..self }
    }

    /// The state after a tick of the sweeper: the count is taken, and the
    /// indices are cleaned unless it was zero.
    pub open spec fn sweep(self) -> ManagerView {
        if self.accepted == 0 {
            self
        } else {
            ManagerView { accepted: 0, ..self.clean_cache() }
        }
    }

    /// The state after the mapping of `domain` was removed. The list of the
    /// domain leaves the connection index; unless its tasks are stopped,
    /// what still runs of it goes behind the domain's list in the grace
    /// index.
    pub open spec fn del_mapping(self, domain: Key, disconnect: bool) -> ManagerView {
        ManagerView {
            mappings: assoc::del(self.mappings, domain),
            connections: assoc::del(self.connections, domain),
            grace: if assoc::has_key(self.connections, domain) && !disconnect {
                assoc::put(
                    self.grace,
                    domain,
                    bucket(self.grace, domain) + alive(bucket(self.connections, domain)),
                )
            } else {
                self.grace
            },
            ..self
        }
    }

    /// The tasks that the removal of `domain` stops: with `disconnect`,
    /// those of the domain's connections that still run.
    pub open spec fn stopped(self, domain: Key, disconnect: bool) -> Seq<u64> {
        if disconnect {
            handlers(alive(bucket(self.connections, domain)))
        } else {
            seq![]
        }
    }

    /// The count that the removal of `domain` reports: where the domain has
    /// a list and its tasks are stopped, their number and one; else one for
    /// a mapping that was there, and zero for none.
    pub open spec fn removal_count(self, domain: Key, disconnect: bool) -> nat {
        if assoc::has_key(self.connections, domain) && disconnect {
            self.stopped(domain, disconnect).len() + 1
        } else if assoc::has_key(self.mappings, domain) {
            1
        } else {
            0
        }
    }

    /// The count as a machine number: what does not fit is cut down to the
    /// largest number there is.
    pub open spec fn reported(self, domain: Key, disconnect: bool) -> usize {
        if self.removal_count(domain, disconnect) <= usize::MAX {
            self.removal_count(domain, disconnect) as usize
        } else {
            usize::MAX
        }
    }

    /// The running connections as they are listed: those of the connection
    /// index, then those of the grace index.
    pub open spec fn list_connections(self) -> Seq<(Seq<char>, Key)> {
        listed(self.connections) + listed(self.grace)
    }
}

/// An entry of a connection index: what the manager keeps of a connection
/// it does not own. `live` falls when the owning task reports its end.
struct Conn {
    info: ConnInfo,
    live: bool,
}

impl DeepView for Conn {
    type V = ConnModel;

    closed spec fn deep_view(&self) -> ConnModel {
        ConnModel {
            peer: self.info.peer@,
            target: self.info.target@,
            handler: self.info.handler,
            live: self.live,
        }
    }
}

fn copy_conn(c: &Conn) -> (copy: Conn)
    ensures
        copy.deep_view() == c.deep_view(),
{
    Conn { info: c.info.clone(), live: c.live }
}

/// The entries of `conns` whose connection still runs.
fn live_of(conns: &Vec<Conn>) -> (kept: Vec<Conn>)
    ensures
        kept.deep_view() == alive(conns.deep_view()),
{
    let mut kept: Vec<Conn> = Vec::new();
    let mut i: usize = 0;
    assert(conns.deep_view().take(0) =~= Seq::empty());
    assert(kept.deep_view() =~= Seq::empty());
    while i < conns.len()
        invariant
            i <= conns.len(),
            kept.deep_view() == alive(conns.deep_view().take(i as int)),
        decreases conns.len() - i,
    {
        let ghost before = kept.deep_view();
        let ghost part = conns.deep_view().take(i + 1);
        assert(part.drop_last() =~= conns.deep_view().take(i as int));
        assert(part.last() == conns@[i as int].deep_view());
        if conns[i].live {
            kept.push(copy_conn(&conns[i]));
            assert(kept.deep_view() =~= before.push(conns@[i as int].deep_view()));
        }
        i = i + 1;
    }
    assert(conns.deep_view().take(i as int) =~= conns.deep_view());
    kept
}

/// Removes from `vec` the entries whose connection has ended.
fn clean_vec(vec: &mut Vec<Conn>)
    ensures
        final(vec).deep_view() == alive(old(vec).deep_view()),
{
    let kept = live_of(vec);
    *vec = kept;
}

/// The task numbers of `conns`.
fn handlers_of(conns: &Vec<Conn>) -> (tasks: Vec<u64>)
    ensures
        tasks@ == handlers(conns.deep_view()),
{
    let mut tasks: Vec<u64> = Vec::new();
    let mut i: usize = 0;
    while i < conns.len()
        invariant
            i <= conns.len(),
            tasks@.len() == i,
            forall|j: int| 0 <= j < i ==> tasks@[j] == conns@[j].info.handler,
        decreases conns.len() - i,
    {
        tasks.push(conns[i].info.handler);
        i = i + 1;
    }
    assert(tasks@ =~= handlers(conns.deep_view()));
    tasks
}

/// `conns` with every entry of task `handler` marked as ended.
fn retire(conns: &Vec<Conn>, handler: u64) -> (marked: Vec<Conn>)
    ensures
        marked.deep_view() == retired(conns.deep_view(), handler),
{
    let mut marked: Vec<Conn> = Vec::new();
    let mut i: usize = 0;
    while i < conns.len()
        invariant
            i <= conns.len(),
            marked@.len() == i,
            forall|j: int|
                0 <= j < i ==> (#[trigger] marked@[j]).deep_view() == retired(
                    conns.deep_view(),
                    handler,
                )[j],
        decreases conns.len() - i,
    {
        let c = &conns[i];
        marked.push(Conn { info: c.info.clone(), live: c.live && c.info.handler != handler });
        i = i + 1;
    }
    assert(marked.deep_view() =~= retired(conns.deep_view(), handler));
    marked
}

/// Whether every list of `index` holds running connections only.
fn index_is_clean(index: &Table<Vec<Conn>>) -> (clean: bool)
    ensures
        clean == all_live(index.model()),
{
    let mut i: usize = 0;
    while i < index.len()
        invariant
            i <= index.model().len(),
            forall|a: int, b: int|
                0 <= a < i && 0 <= b < index.model()[a].1.len() ==> (
                #[trigger] index.model()[a].1[b]).live,
        decreases index.model().len() - i,
    {
        let conns = index.value(i);
        let mut j: usize = 0;
        while j < conns.len()
            invariant
                j <= conns.len(),
                i < index.model().len(),
                conns.deep_view() == index.model()[i as int].1,
                forall|b: int| 0 <= b < j ==> (#[trigger] conns.deep_view()[b]).live,
            decreases conns.len() - j,
        {
            if !conns[j].live {
                assert(!index.model()[i as int].1[j as int].live);
                return false;
            }
            j = j + 1;
        }
        i = i + 1;
    }
    true
}

/// Cleans every list of `index`.
fn clean_index(index: &mut Table<Vec<Conn>>)
    ensures
        final(index).model() == swept(old(index).model()),
{
    let ghost orig = index.model();
    let mut i: usize = 0;
    while i < index.len()
        invariant
            i <= index.model().len(),
            index.model().len() == orig.len(),
            forall|j: int| 0 <= j < i ==> #[trigger] index.model()[j] == swept(orig)[j],
            forall|j: int| i <= j < orig.len() ==> #[trigger] index.model()[j] == orig[j],
        decreases orig.len() - i,
    {
        let kept = live_of(index.value(i));
        let _ = index.swap(i, kept);
        i = i + 1;
    }
    assert(index.model() =~= swept(orig));
}

/// Marks the entries of task `handler` in every list of `index`.
fn release_in(index: &mut Table<Vec<Conn>>, handler: u64)
    ensures
        final(index).model() == released(old(index).model(), handler),
{
    let ghost orig = index.model();
    let mut i: usize = 0;
    while i < index.len()
        invariant
            i <= index.model().len(),
            index.model().len() == orig.len(),
            forall|j: int| 0 <= j < i ==> #[trigger] index.model()[j] == released(orig, handler)[j],
            forall|j: int| i <= j < orig.len() ==> #[trigger] index.model()[j] == orig[j],
        decreases orig.len() - i,
    {
        let marked = retire(index.value(i), handler);
        let _ = index.swap(i, marked);
        i = i + 1;
    }
    assert(index.model() =~= released(orig, handler));
}

/// The texts of listed connections.
pub open spec fn texts(pairs: Seq<(SocketAddress, String)>) -> Seq<(Seq<char>, Key)> {
    Seq::new(pairs.len(), |i: int| (pairs[i].0@, pairs[i].1@))
}

/// Appends to `out` the running connections of one domain.
fn list_under(domain: &String, conns: &Vec<Conn>, out: &mut Vec<(SocketAddress, String)>)
    ensures
        texts(final(out)@) == texts(old(out)@) + listed_under(domain@, conns.deep_view()),
{
    let ghost all = conns.deep_view();
    let mut i: usize = 0;
    assert(all.take(0) =~= Seq::empty());
    assert(texts(out@) =~= texts(old(out)@) + listed_under(domain@, all.take(0)));
    while i < conns.len()
        invariant
            i <= conns.len(),
            all == conns.deep_view(),
            texts(out@) == texts(old(out)@) + listed_under(domain@, all.take(i as int)),
        decreases conns.len() - i,
    {
        let ghost before = texts(out@);
        let ghost part = all.take(i + 1);
        assert(part.drop_last() =~= all.take(i as int));
        assert(part.last() == conns@[i as int].deep_view());
        if conns[i].live {
            out.push((conns[i].info.peer.clone(), domain.clone()));
            assert(texts(out@) =~= before.push((conns@[i as int].info.peer@, domain@)));
            assert(listed_under(domain@, part) =~= listed_under(domain@, all.take(i as int)).push(
                (conns@[i as int].info.peer@, domain@),
            ));
            assert(texts(out@) =~= texts(old(out)@) + listed_under(domain@, part));
        } else {
            assert(listed_under(domain@, part) =~= listed_under(domain@, all.take(i as int)));
        }
        i = i + 1;
    }
    assert(all.take(i as int) =~= all);
}

/// Appends to `out` the running connections of `index`.
fn list_index(index: &Table<Vec<Conn>>, out: &mut Vec<(SocketAddress, String)>)
    ensures
        texts(final(out)@) == texts(old(out)@) + listed(index.model()),
{
    let ghost all = index.model();
    let mut i: usize = 0;
    assert(all.take(0) =~= Seq::empty());
    assert(texts(out@) =~= texts(old(out)@) + listed(all.take(0)));
    while i < index.len()
        invariant
            i <= index.model().len(),
            all == index.model(),
            texts(out@) == texts(old(out)@) + listed(all.take(i as int)),
        decreases all.len() - i,
    {
        let ghost before = texts(out@);
        let ghost part = all.take(i + 1);
        assert(part.drop_last() =~= all.take(i as int));
        assert(part.last() == all[i as int]);
        list_under(index.key(i), index.value(i), out);
        assert(texts(out@) =~= texts(old(out)@) + listed(part));
        i = i + 1;
    }
    assert(all.take(i as int) =~= all);
}

/// What the removal of a mapping leaves the caller to do and to report.
#[derive(Debug, PartialEq, Eq)]
pub struct Removal {
    /// Zero where nothing was removed; else one more than the number of
    /// tasks to stop.
    pub count: usize,
    /// The tasks to stop.
    pub aborted: Vec<u64>,
}

/// What becomes of a client, decided from the bytes peeked so far.
#[derive(Debug, PartialEq, Eq)]
pub enum Routing {
    /// No verdict yet: that many bytes must be there before it pays to
    /// look again.
    Wait(usize),
    /// The handshake is refused; the client is dropped without a word.
    Reject(ErrorKind),
    /// The client asks for a host that is not in the routing table.
    Unknown(Host),
    /// The client is to be spliced to this backend.
    Dial(Host, SocketAddress),
}

/// The routing that the reading `p` of a client's bytes calls for, the
/// routing table being `mappings`, on a stream that is `closed` or not.
pub open spec fn routes(r: Routing, p: Parsed, mappings: Seq<(Key, Seq<char>)>, closed: bool) -> bool {
    match p {
        Parsed::Need(k) => if closed {
            r == Routing::Reject(ErrorKind::UnexpectedEof)
        } else {
            r == Routing::Wait(k as usize) && k <= usize::MAX
        },
        Parsed::Invalid => r == Routing::Reject(ErrorKind::InvalidData),
        Parsed::Host(domain, port) => match assoc::get(mappings, domain) {
            Some(target) => r matches Routing::Dial(h, t) && h.domain@ == domain && h.port == port
                && t@ == target,
            None => r matches Routing::Unknown(h) && h.domain@ == domain && h.port == port,
        },
    }
}

/// The state of the proxy.
pub struct Manager {
    dict: Table<SocketAddress>,
    connections: Table<Vec<Conn>>,
    listener: Table<Listener>,
    cached_players: Table<Vec<Conn>>,
    con_count: usize,
    cleaner_running: bool,
}

impl View for Manager {
    type V = ManagerView;

    closed spec fn view(&self) -> ManagerView {
        ManagerView {
            mappings: self.dict.model(),
            listeners: self.listener.model(),
            connections: self.connections.model(),
            grace: self.cached_players.model(),
            accepted: self.con_count,
            sweeping: self.cleaner_running,
        }
    }
}

impl Manager {
    /// A manager with nothing in it.
    pub fn new() -> (m: Self)
        ensures
            m@ == ManagerView::empty(),
    {
        Manager {
            dict: Table::new(),
            connections: Table::new(),
            listener: Table::new(),
            cached_players: Table::new(),
            con_count: 0,
            cleaner_running: false,
        }
    }

    /// Marks the sweeper as started. It is started once.
    pub fn start_cleaner(&mut self)
        requires
            !old(self)@.sweeping,
        ensures
            final(self)@ == (ManagerView { sweeping: true, ..old(self)@ }),
    {
        self.cleaner_running = true;
    }

    /// Whether the sweeper was started.
    pub fn cleaner_running(&self) -> (running: bool)
        ensures
            running == self@.sweeping,
    {
        self.cleaner_running
    }

    /// Counts one more accepted client.
    pub fn new_client(&mut self)
        ensures
            final(self)@ == old(self)@.new_client(),
    {
        self.con_count = if self.con_count == usize::MAX {
            0
        } else {
            self.con_count + 1
        };
    }

    /// Decides what becomes of a client from the bytes peeked from its
    /// socket so far, `closed` telling whether it has closed: the handshake
    /// is read, and the host it names is looked up in the routing table.
    pub fn route_client(&self, peeked: &[u8], closed: bool) -> (r: Routing)
        ensures
            routes(r, prot::handshake(peeked@), self@.mappings, closed),
    {
        match prot::seek_handshake(peeked, closed) {
            Seek::Need(n) => Routing::Wait(n),
            Seek::Failed(kind) => Routing::Reject(kind),
            Seek::Found(host) => match self.get_socket_addr(&host.domain) {
                Some(target) => Routing::Dial(host, target),
                None => Routing::Unknown(host),
            },
        }
    }

    /// Enters `listener` for `addr` and hands out the listener that served
    /// the address before, for the caller to stop.
    pub fn register_listener(&mut self, addr: SocketAddress, listener: Listener) -> (was: Option<
        Listener,
    >)
        ensures
            final(self)@ == old(self)@.register_listener(addr@, listener.0),
            match was {
                Some(l) => assoc::get(old(self)@.listeners, addr@) == Some(l.0),
                None => !assoc::has_key(old(self)@.listeners, addr@),
            },
    {
        self.listener.put(addr.0, listener)
    }

    /// Takes the listener of `addr` out and hands it to the caller to stop.
    pub fn kill_delete_listener(&mut self, addr: &SocketAddress) -> (was: Option<Listener>)
        ensures
            final(self)@ == old(self)@.kill_delete_listener(addr@),
            match was {
                Some(l) => assoc::get(old(self)@.listeners, addr@) == Some(l.0),
                None => !assoc::has_key(old(self)@.listeners, addr@),
            },
    {
        self.listener.del(addr.as_str())
    }

    /// The bound addresses, in the order in which they were first bound.
    pub fn get_listeners(&self) -> (addrs: Vec<SocketAddress>)
        ensures
            addrs@.len() == self@.listeners.len(),
            forall|i: int| 0 <= i < addrs@.len() ==> (#[trigger] addrs@[i])@ == self@.listeners[i].0,
    {
        let mut addrs: Vec<SocketAddress> = Vec::new();
        let mut i: usize = 0;
        while i < self.listener.len()
            invariant
                i <= self.listener.model().len(),
                addrs@.len() == i,
                forall|j: int|
                    0 <= j < i ==> (#[trigger] addrs@[j])@ == self.listener.model()[j].0,
            decreases self.listener.model().len() - i,
        {
            addrs.push(SocketAddress::new(self.listener.key(i).as_str()));
            i = i + 1;
        }
        addrs
    }

    /// Maps `domain` to `socket` and hands out the backend it was mapped to
    /// before.
    pub fn set_mapping(&mut self, domain: String, socket: SocketAddress) -> (was: Option<
        SocketAddress,
    >)
        ensures
            final(self)@ == old(self)@.set_mapping(domain@, socket@),
            match was {
                Some(a) => assoc::get(old(self)@.mappings, domain@) == Some(a@),
                None => !assoc::has_key(old(self)@.mappings, domain@),
            },
    {
        self.dict.put(domain, socket)
    }

    /// The backend that `domain` is mapped to.
    pub fn get_mapping(&self, domain: &str) -> (target: Option<SocketAddress>)
        ensures
            match target {
                Some(a) => assoc::get(self@.mappings, domain@) == Some(a@),
                None => !assoc::has_key(self@.mappings, domain@),
            },
    {
        match self.dict.find(domain) {
            Some(i) => Some(self.dict.value(i).clone()),
            None => None,
        }
    }

    /// The backend that a client asking for `host` is routed to.
    pub fn get_socket_addr(&self, host: &String) -> (target: Option<SocketAddress>)
        ensures
            match target {
                Some(a) => assoc::get(self@.mappings, host@) == Some(a@),
                None => !assoc::has_key(self@.mappings, host@),
            },
    {
        self.get_mapping(host.as_str())
    }

    /// The routing table, in the order in which the domains were first
    /// mapped.
    pub fn list_mappings(&self) -> (pairs: Vec<(String, SocketAddress)>)
        ensures
            pairs@.len() == self@.mappings.len(),
            forall|i: int|
                0 <= i < pairs@.len() ==> (#[trigger] pairs@[i]).0@ == self@.mappings[i].0
                    && pairs@[i].1@ == self@.mappings[i].1,
    {
        let mut pairs: Vec<(String, SocketAddress)> = Vec::new();
        let mut i: usize = 0;
        while i < self.dict.len()
            invariant
                i <= self.dict.model().len(),
                pairs@.len() == i,
                forall|j: int|
                    0 <= j < i ==> (#[trigger] pairs@[j]).0@ == self.dict.model()[j].0
                        && pairs@[j].1@ == self.dict.model()[j].1,
            decreases self.dict.model().len() - i,
        {
            pairs.push((self.dict.key(i).clone(), self.dict.value(i).clone()));
            i = i + 1;
        }
        pairs
    }

    /// Enters a spliced connection under the domain `target`.
    pub fn register_client(&mut self, target: String, conn: ConnInfo)
        ensures
            final(self)@ == old(self)@.register_client(
                target@,
                ConnModel {
                    peer: conn.peer@,
                    target: conn.target@,
                    handler: conn.handler,
                    live: true,
                },
            ),
    {
        let entry = Conn { info: conn, live: true };
        proof {
            assoc::lemma_slot(self.connections.model(), target@);
        }
        match self.connections.find(target.as_str()) {
            Some(i) => {
                let mut list = self.connections.swap(i, Vec::new());
                let ghost before = list.deep_view();
                list.push(entry);
                assert(list.deep_view() =~= before.push(entry.deep_view()));
                let _ = self.connections.swap(i, list);
                assert(self.connections.model() =~= old(self)@.register_client(
                    target@,
                    entry.deep_view(),
                ).connections);
            },
            None => {
                let mut list: Vec<Conn> = Vec::new();
                list.push(entry);
                assert(list.deep_view() =~= Seq::<ConnModel>::empty().push(entry.deep_view()));
                let _ = self.connections.put(target, list);
            },
        }
    }

    /// Takes note that the task `handler` has ended: its connection counts
    /// no longer, though its entry stays until the next sweep.
    pub fn release_client(&mut self, handler: u64)
        ensures
            final(self)@ == old(self)@.release_client(handler),
    {
        release_in(&mut self.connections, handler);
        release_in(&mut self.cached_players, handler);
    }

    /// Removes from both indices the entries of connections that have
    /// ended: first from the connection index, then from the grace index.
    pub fn clean_cache(&mut self)
        ensures
            final(self)@ == old(self)@.clean_cache(),
    {
        clean_index(&mut self.connections);
        clean_index(&mut self.cached_players);
    }

    /// Whether an index still holds the entry of a connection that has
    /// ended: what the next cleaning will take away.
    pub fn has_stale(&self) -> (stale: bool)
        ensures
            stale == !(all_live(self@.connections) && all_live(self@.grace)),
    {
        !(index_is_clean(&self.connections) && index_is_clean(&self.cached_players))
    }

    /// One tick of the sweeper: takes the count of accepted clients, leaving
    /// zero, and cleans the indices unless the count was zero.
    pub fn sweep(&mut self) -> (accepted: usize)
        ensures
            accepted == old(self)@.accepted,
            final(self)@ == old(self)@.sweep(),
    {
        let accepted = self.con_count;
        self.con_count = 0;
        if accepted != 0 {
            self.clean_cache();
        }
        accepted
    }

    /// Removes the mapping of `domain`. With `dc_players` the tasks of the
    /// domain's running connections are named for the caller to stop;
    /// without, what still runs of them moves to the grace index.
    pub fn del_mapping(&mut self, domain: &str, dc_players: bool) -> (r: Removal)
        ensures
            final(self)@ == old(self)@.del_mapping(domain@, dc_players),
            r.aborted@ == old(self)@.stopped(domain@, dc_players),
            r.count == old(self)@.reported(domain@, dc_players),
    {
        let rm_map = self.dict.del(domain);
        let found: usize = if rm_map.is_some() {
            1
        } else {
            0
        };
        match self.connections.del(domain) {
            Some(conns) => {
                let running = live_of(&conns);
                if dc_players {
                    let aborted = handlers_of(&running);
                    let count = if aborted.len() < usize::MAX {
                        aborted.len() + 1
                    } else {
                        usize::MAX
                    };
                    Removal { count, aborted }
                } else {
                    proof {
                        assoc::lemma_slot(self.cached_players.model(), domain@);
                    }
                    match self.cached_players.find(domain) {
                        Some(i) => {
                            let mut list = self.cached_players.swap(i, Vec::new());
                            let ghost before = list.deep_view();
                            let mut running = running;
                            list.append(&mut running);
                            assert(list.deep_view() =~= before + alive(conns.deep_view()));
                            let _ = self.cached_players.swap(i, list);
                            assert(self.cached_players.model() =~= old(self)@.del_mapping(
                                domain@,
                                dc_players,
                            ).grace);
                        },
                        None => {
                            assert(Seq::<ConnModel>::empty() + running.deep_view()
                                =~= running.deep_view());
                            let _ = self.cached_players.put(String::from_str(domain), running);
                        },
                    }
                    Removal { count: found, aborted: Vec::new() }
                }
            },
            None => {
                assert(handlers(alive(Seq::<ConnModel>::empty())) =~= Seq::<u64>::empty());
                Removal { count: found, aborted: Vec::new() }
            },
        }
    }

    /// The running connections, each as the peer and the domain it came
    /// for: those of the connection index, then those of the grace index.
    pub fn list_connections(&self) -> (pairs: Vec<(SocketAddress, String)>)
        ensures
            texts(pairs@) == self@.list_connections(),
    {
        let mut pairs: Vec<(SocketAddress, String)> = Vec::new();
        assert(texts(pairs@) =~= Seq::empty());
        list_index(&self.connections, &mut pairs);
        list_index(&self.cached_players, &mut pairs);
        assert(texts(pairs@) =~= self@.list_connections());
        pairs
    }
}

} // verus!
