//! What holds of the manager whatever is asked of it, stated over its
//! abstract state and proved once for all.

use crate::assoc;
use crate::assoc::Key;
use crate::manager::{all_live, alive, bucket, handlers, listed, listed_under, released};
use crate::manager::{retired, swept};
use crate::manager::{ConnModel, Index, ManagerView};
use vstd::prelude::*;

verus! {

/// One step of a manager.
pub enum Op {
    SetMapping(Key, Seq<char>),
    DelMapping(Key, bool),
    RegisterListener(Key, u64),
    KillDeleteListener(Key),
    NewClient,
    RegisterClient(Key, ConnModel),
    ReleaseClient(u64),
    CleanCache,
    Sweep,
    StartCleaner,
}

/// The state after one step.
pub open spec fn apply(m: ManagerView, op: Op) -> ManagerView {
    match op {
        Op::SetMapping(domain, target) => m.set_mapping(domain, target),
        Op::DelMapping(domain, disconnect) => m.del_mapping(domain, disconnect),
        Op::RegisterListener(addr, task) => m.register_listener(addr, task),
        Op::KillDeleteListener(addr) => m.kill_delete_listener(addr),
        Op::NewClient => m.new_client(),
        Op::RegisterClient(domain, conn) => m.register_client(domain, conn),
        Op::ReleaseClient(handler) => m.release_client(handler),
        Op::CleanCache => m.clean_cache(),
        Op::Sweep => m.sweep(),
        Op::StartCleaner => ManagerView { sweeping: true, ..m },
    }
}

/// The state of a new manager after the steps `ops`, in their order.
pub open spec fn run(ops: Seq<Op>) -> ManagerView
    decreases ops.len(),
{
    if ops.len() == 0 {
        ManagerView::empty()
    } else {
        apply(run(ops.drop_last()), ops.last())
    }
}

/// What `alive` keeps: running connections only, each running connection
/// of the list, and all of a list that was cleaned before.
pub proof fn lemma_alive(conns: Seq<ConnModel>)
    ensures
        forall|j: int| 0 <= j < alive(conns).len() ==> (#[trigger] alive(conns)[j]).live,
        forall|i: int|
            0 <= i < conns.len() && conns[i].live ==> alive(conns).contains(#[trigger] conns[i]),
        alive(alive(conns)) == alive(conns),
        alive(conns).len() <= conns.len(),
    decreases conns.len(),
{
    if conns.len() > 0 {
        let front = conns.drop_last();
        lemma_alive(front);
        let kept = alive(conns);
        assert forall|i: int| 0 <= i < conns.len() && conns[i].live implies kept.contains(
            #[trigger] conns[i],
        ) by {
            if i < front.len() {
                assert(front[i] == conns[i]);
                let at = choose|at: int| 0 <= at < alive(front).len() && alive(front)[at] == front[i];
                assert(kept[at] == conns[i]);
            } else {
                assert(kept[kept.len() - 1] == conns[i]);
            }
        }
        if conns.last().live {
            assert(kept.drop_last() =~= alive(front));
        }
    }
}

proof fn lemma_keys_kept(index: Index, handler: u64)
    requires
        assoc::distinct(index),
    ensures
        assoc::distinct(swept(index)),
        assoc::distinct(released(index, handler)),
{
    assert forall|i: int, j: int| 0 <= i < j < index.len() implies (#[trigger] swept(index)[i]).0
        != (#[trigger] swept(index)[j]).0 by {
        assert(index[i].0 != index[j].0);
    }
    assert forall|i: int, j: int| 0 <= i < j < index.len() implies (#[trigger] released(
        index,
        handler,
    )[i]).0 != (#[trigger] released(index, handler)[j]).0 by {
        assert(index[i].0 != index[j].0);
    }
}

/// No step makes a table hold a key twice.
pub proof fn lemma_step_keeps_keys_apart(m: ManagerView, op: Op)
    requires
        m.wf(),
    ensures
        apply(m, op).wf(),
{
    match op {
        Op::SetMapping(domain, target) => {
            assoc::lemma_put(m.mappings, domain, target, domain);
        },
        Op::DelMapping(domain, disconnect) => {
            assoc::lemma_del(m.mappings, domain, domain);
            assoc::lemma_del(m.connections, domain, domain);
            assoc::lemma_put(
                m.grace,
                domain,
                bucket(m.grace, domain) + alive(bucket(m.connections, domain)),
                domain,
            );
        },
        Op::RegisterListener(addr, task) => {
            assoc::lemma_put(m.listeners, addr, task, addr);
        },
        Op::KillDeleteListener(addr) => {
            assoc::lemma_del(m.listeners, addr, addr);
        },
        Op::NewClient => {},
        Op::RegisterClient(domain, conn) => {
            assoc::lemma_put(
                m.connections,
                domain,
                bucket(m.connections, domain).push(conn),
                domain,
            );
        },
        Op::ReleaseClient(handler) => {
            lemma_keys_kept(m.connections, handler);
            lemma_keys_kept(m.grace, handler);
        },
        Op::CleanCache => {
            lemma_keys_kept(m.connections, 0);
            lemma_keys_kept(m.grace, 0);
        },
        Op::Sweep => {
            lemma_keys_kept(m.connections, 0);
            lemma_keys_kept(m.grace, 0);
        },
        Op::StartCleaner => {},
    }
}

/// Whatever was asked of a manager since it was made, no table of it holds
/// a key twice: a domain has one backend, one list in each index, and an
/// address has one listener.
pub proof fn lemma_keys_apart(ops: Seq<Op>)
    ensures
        run(ops).wf(),
    decreases ops.len(),
{
    if ops.len() > 0 {
        lemma_keys_apart(ops.drop_last());
        lemma_step_keeps_keys_apart(run(ops.drop_last()), ops.last());
    }
}

/// Listeners are unique: after any sequence of steps no two entries of the
/// listener table have the same address, so that at most one accept task
/// serves an address; and the task that a new listener displaces is the one
/// the table held for the address.
pub proof fn lemma_listener_unique(ops: Seq<Op>, addr: Key, task: u64)
    ensures
        assoc::distinct(run(ops).listeners),
        assoc::distinct(run(ops).register_listener(addr, task).listeners),
        assoc::get(run(ops).register_listener(addr, task).listeners, addr) == Some(task),
        !assoc::has_key(run(ops).kill_delete_listener(addr).listeners, addr),
{
    lemma_keys_apart(ops);
    assoc::lemma_put(run(ops).listeners, addr, task, addr);
    assoc::lemma_del(run(ops).listeners, addr, addr);
}

/// The routing table is a register per domain. A lookup after `SetMapping`
/// sees the new backend under the domain and the old state under every
/// other; after `RmMapping`, on a table without double keys, it sees
/// nothing under the domain; and setting a mapping touches no connection.
/// Every operation being a function of the state before it, the answers to
/// operations that do not overlap are those of their order.
pub proof fn lemma_mapping_register(
    m: ManagerView,
    domain: Key,
    target: Seq<char>,
    disconnect: bool,
    other: Key,
)
    ensures
        assoc::get(m.set_mapping(domain, target).mappings, domain) == Some(target),
        other != domain ==> assoc::get(m.set_mapping(domain, target).mappings, other) == assoc::get(
            m.mappings,
            other,
        ),
        m.set_mapping(domain, target).connections == m.connections,
        m.set_mapping(domain, target).grace == m.grace,
        other != domain ==> assoc::get(m.del_mapping(domain, disconnect).mappings, other)
            == assoc::get(m.mappings, other),
        m.wf() ==> !assoc::has_key(m.del_mapping(domain, disconnect).mappings, domain),
{
    assoc::lemma_put(m.mappings, domain, target, domain);
    assoc::lemma_put(m.mappings, domain, target, other);
    assoc::lemma_del(m.mappings, domain, other);
}

/// What the steps `ops` last said of `domain`: the backend of the last
/// `SetMapping` for it, unless a `DelMapping` for it came after.
pub open spec fn last_word(ops: Seq<Op>, domain: Key) -> Option<Seq<char>>
    decreases ops.len(),
{
    if ops.len() == 0 {
        None
    } else {
        match ops.last() {
            Op::SetMapping(d, target) if d == domain => Some(target),
            Op::DelMapping(d, _) if d == domain => None,
            _ => last_word(ops.drop_last(), domain),
        }
    }
}

/// Mapping reads and writes are those of their order: whatever was asked
/// of a manager, a lookup finds for a domain what the last step that spoke
/// of the domain left there, and no other step has a say in it.
pub proof fn lemma_mapping_history(ops: Seq<Op>, domain: Key)
    ensures
        assoc::get(run(ops).mappings, domain) == last_word(ops, domain),
    decreases ops.len(),
{
    if ops.len() > 0 {
        let before = run(ops.drop_last());
        lemma_mapping_history(ops.drop_last(), domain);
        lemma_keys_apart(ops.drop_last());
        match ops.last() {
            Op::SetMapping(d, target) => {
                assoc::lemma_put(before.mappings, d, target, domain);
            },
            Op::DelMapping(d, _) => {
                assoc::lemma_del(before.mappings, d, domain);
            },
            _ => {},
        }
    }
}

proof fn lemma_swept_listing(index: Index)
    ensures
        all_live(swept(index)),
        listed(swept(index)) == listed(index),
    decreases index.len(),
{
    assert forall|i: int, j: int|
        0 <= i < swept(index).len() && 0 <= j < swept(index)[i].1.len() implies (
    #[trigger] swept(index)[i].1[j]).live by {
        lemma_alive(index[i].1);
    }
    if index.len() > 0 {
        lemma_swept_listing(index.drop_last());
        assert(swept(index).drop_last() =~= swept(index.drop_last()));
        lemma_alive(index.last().1);
        assert(listed_under(index.last().0, alive(index.last().1)) =~= listed_under(
            index.last().0,
            index.last().1,
        ));
    }
}

/// The sweeper's bound: once the indices were cleaned, no list in either
/// holds the entry of a connection that has ended. Nothing that runs is
/// lost by it: the connections that are listed stay the same.
pub proof fn lemma_clean_cache(m: ManagerView)
    ensures
        all_live(m.clean_cache().connections),
        all_live(m.clean_cache().grace),
        m.clean_cache().list_connections() == m.list_connections(),
        m.accepted != 0 ==> all_live(m.sweep().connections) && all_live(m.sweep().grace),
{
    lemma_swept_listing(m.connections);
    lemma_swept_listing(m.grace);
}

/// A forced disconnect reaches every connection of the domain: each entry
/// under the domain whose connection still runs has its task among those
/// that the removal stops, the count it reports is their number and one,
/// and afterwards, on a table without double keys, the connection index has
/// nothing under the domain.
pub proof fn lemma_forced_disconnect(m: ManagerView, domain: Key)
    ensures
        forall|i: int|
            0 <= i < bucket(m.connections, domain).len() && (#[trigger] bucket(
                m.connections,
                domain,
            )[i]).live ==> m.stopped(domain, true).contains(
                bucket(m.connections, domain)[i].handler,
            ),
        assoc::has_key(m.connections, domain) ==> m.removal_count(domain, true) == m.stopped(
            domain,
            true,
        ).len() + 1,
        m.wf() ==> !assoc::has_key(m.del_mapping(domain, true).connections, domain),
        m.del_mapping(domain, true).grace == m.grace,
{
    let conns = bucket(m.connections, domain);
    lemma_alive(conns);
    assert forall|i: int| 0 <= i < conns.len() && (#[trigger] conns[i]).live implies m.stopped(
        domain,
        true,
    ).contains(conns[i].handler) by {
        let at = choose|at: int| 0 <= at < alive(conns).len() && alive(conns)[at] == conns[i];
        assert(handlers(alive(conns))[at] == conns[i].handler);
    }
    assoc::lemma_del(m.connections, domain, domain);
}

/// A connection that has ended counts for nothing: after its task was
/// reported, no entry of that task is running in either index.
pub proof fn lemma_released(m: ManagerView, handler: u64)
    ensures
        forall|i: int, j: int|
            0 <= i < m.connections.len() && 0 <= j < m.connections[i].1.len() ==> {
                let c = #[trigger] m.release_client(handler).connections[i].1[j];
                c.live == (m.connections[i].1[j].live && c.handler != handler)
            },
        forall|i: int, j: int|
            0 <= i < m.grace.len() && 0 <= j < m.grace[i].1.len() ==> {
                let c = #[trigger] m.release_client(handler).grace[i].1[j];
                c.live == (m.grace[i].1[j].live && c.handler != handler)
            },
{
    assert forall|i: int, j: int|
        0 <= i < m.connections.len() && 0 <= j < m.connections[i].1.len() implies {
        let c = #[trigger] m.release_client(handler).connections[i].1[j];
        c.live == (m.connections[i].1[j].live && c.handler != handler)
    } by {
        assert(m.release_client(handler).connections[i].1 == retired(m.connections[i].1, handler));
    }
    assert forall|i: int, j: int| 0 <= i < m.grace.len() && 0 <= j < m.grace[i].1.len() implies {
        let c = #[trigger] m.release_client(handler).grace[i].1[j];
        c.live == (m.grace[i].1[j].live && c.handler != handler)
    } by {
        assert(m.release_client(handler).grace[i].1 == retired(m.grace[i].1, handler));
    }
}

/// The number of entries of `conns` that belong to task `handler` and
/// still run.
pub open spec fn running(conns: Seq<ConnModel>, handler: u64) -> nat
    decreases conns.len(),
{
    if conns.len() == 0 {
        0
    } else {
        running(conns.drop_last(), handler) + if conns.last().live && conns.last().handler
            == handler {
            1nat
        } else {
            0nat
        }
    }
}

/// The number of entries of `index` that belong to task `handler` and still
/// run, over all its lists.
pub open spec fn running_in(index: Index, handler: u64) -> nat
    decreases index.len(),
{
    if index.len() == 0 {
        0
    } else {
        running_in(index.drop_last(), handler) + running(index.last().1, handler)
    }
}

/// The number of places in which a manager holds a running connection of
/// task `handler`: in the connection index and in the grace index.
pub open spec fn places(m: ManagerView, handler: u64) -> nat {
    running_in(m.connections, handler) + running_in(m.grace, handler)
}

/// Steps in which every connection that is entered belongs to a task of
/// which the manager holds no running connection yet.
pub open spec fn fresh(ops: Seq<Op>) -> bool
    decreases ops.len(),
{
    ops.len() == 0 || (fresh(ops.drop_last()) && match ops.last() {
        Op::RegisterClient(_, conn) => places(run(ops.drop_last()), conn.handler) == 0,
        _ => true,
    })
}

proof fn lemma_running_add(a: Seq<ConnModel>, b: Seq<ConnModel>, h: u64)
    ensures
        running(a + b, h) == running(a, h) + running(b, h),
    decreases b.len(),
{
    if b.len() == 0 {
        assert(a + b =~= a);
    } else {
        assert((a + b).drop_last() =~= a + b.drop_last());
        lemma_running_add(a, b.drop_last(), h);
    }
}

proof fn lemma_running_push(a: Seq<ConnModel>, c: ConnModel, h: u64)
    ensures
        running(a.push(c), h) == running(a, h) + if c.live && c.handler == h {
            1nat
        } else {
            0nat
        },
{
    assert(a.push(c).drop_last() =~= a);
}

proof fn lemma_running_alive(c: Seq<ConnModel>, h: u64)
    ensures
        running(alive(c), h) == running(c, h),
    decreases c.len(),
{
    if c.len() > 0 {
        lemma_running_alive(c.drop_last(), h);
        if c.last().live {
            lemma_running_push(alive(c.drop_last()), c.last(), h);
        }
    }
}

proof fn lemma_running_retired(c: Seq<ConnModel>, gone: u64, h: u64)
    ensures
        running(retired(c, gone), h) == if h == gone {
            0
        } else {
            running(c, h)
        },
    decreases c.len(),
{
    if c.len() > 0 {
        lemma_running_retired(c.drop_last(), gone, h);
        assert(retired(c, gone).drop_last() =~= retired(c.drop_last(), gone));
    }
}

proof fn lemma_running_in_update(index: Index, i: int, entry: (Key, Seq<ConnModel>), h: u64)
    requires
        0 <= i < index.len(),
    ensures
        running_in(index.update(i, entry), h) + running(index[i].1, h) == running_in(index, h)
            + running(entry.1, h),
    decreases index.len(),
{
    let after = index.update(i, entry);
    if i == index.len() - 1 {
        assert(after.drop_last() =~= index.drop_last());
    } else {
        assert(after.drop_last() =~= index.drop_last().update(i, entry));
        lemma_running_in_update(index.drop_last(), i, entry, h);
    }
}

proof fn lemma_running_in_remove(index: Index, i: int, h: u64)
    requires
        0 <= i < index.len(),
    ensures
        running_in(index.remove(i), h) + running(index[i].1, h) == running_in(index, h),
    decreases index.len(),
{
    let after = index.remove(i);
    if i == index.len() - 1 {
        assert(after =~= index.drop_last());
    } else {
        assert(after.drop_last() =~= index.drop_last().remove(i));
        assert(after.last() == index.last());
        lemma_running_in_remove(index.drop_last(), i, h);
    }
}

proof fn lemma_running_in_put(index: Index, k: Key, v: Seq<ConnModel>, h: u64)
    ensures
        running_in(assoc::put(index, k, v), h) + running(bucket(index, k), h) == running_in(
            index,
            h,
        ) + running(v, h),
{
    assoc::lemma_slot(index, k);
    if assoc::has_key(index, k) {
        lemma_running_in_update(index, assoc::slot(index, k), (k, v), h);
    } else {
        assert(index.push((k, v)).drop_last() =~= index);
    }
}

proof fn lemma_running_in_del(index: Index, k: Key, h: u64)
    ensures
        running_in(assoc::del(index, k), h) + running(bucket(index, k), h) == running_in(index, h),
{
    assoc::lemma_slot(index, k);
    if assoc::has_key(index, k) {
        lemma_running_in_remove(index, assoc::slot(index, k), h);
    }
}

proof fn lemma_running_in_swept(index: Index, gone: u64, h: u64)
    ensures
        running_in(swept(index), h) == running_in(index, h),
        running_in(released(index, gone), h) == if h == gone {
            0
        } else {
            running_in(index, h)
        },
    decreases index.len(),
{
    if index.len() > 0 {
        lemma_running_in_swept(index.drop_last(), gone, h);
        assert(swept(index).drop_last() =~= swept(index.drop_last()));
        assert(released(index, gone).drop_last() =~= released(index.drop_last(), gone));
        lemma_running_alive(index.last().1, h);
        lemma_running_retired(index.last().1, gone, h);
    }
}

/// What a step does to the places of a task: entering a running connection
/// of the task adds one, reporting the task's end leaves none, and no other
/// step adds any. A removal without force moves what runs from one index to
/// the other and loses none of it.
pub proof fn lemma_step_places(m: ManagerView, op: Op, h: u64)
    ensures
        places(apply(m, op), h) <= places(m, h) + (if op matches Op::RegisterClient(_, c) && c.live
            && c.handler == h {
            1nat
        } else {
            0nat
        }),
        op == Op::ReleaseClient(h) ==> places(apply(m, op), h) == 0,
        op matches Op::DelMapping(_, disconnect) && !disconnect ==> places(apply(m, op), h)
            == places(m, h),
{
    match op {
        Op::DelMapping(domain, disconnect) => {
            let moved = alive(bucket(m.connections, domain));
            lemma_running_in_del(m.connections, domain, h);
            lemma_running_in_put(m.grace, domain, bucket(m.grace, domain) + moved, h);
            lemma_running_add(bucket(m.grace, domain), moved, h);
            lemma_running_alive(bucket(m.connections, domain), h);
        },
        Op::RegisterClient(domain, conn) => {
            lemma_running_in_put(
                m.connections,
                domain,
                bucket(m.connections, domain).push(conn),
                h,
            );
            lemma_running_push(bucket(m.connections, domain), conn, h);
        },
        Op::ReleaseClient(gone) => {
            lemma_running_in_swept(m.connections, gone, h);
            lemma_running_in_swept(m.grace, gone, h);
        },
        Op::CleanCache => {
            lemma_running_in_swept(m.connections, 0, h);
            lemma_running_in_swept(m.grace, 0, h);
        },
        Op::Sweep => {
            lemma_running_in_swept(m.connections, 0, h);
            lemma_running_in_swept(m.grace, 0, h);
        },
        _ => {},
    }
}

/// A running connection stands in one place. As long as every connection
/// that is entered belongs to a task the manager holds no running
/// connection of, no task ever has more than one running entry, the
/// connection index and the grace index taken together.
pub proof fn lemma_one_place(ops: Seq<Op>, h: u64)
    requires
        fresh(ops),
    ensures
        places(run(ops), h) <= 1,
    decreases ops.len(),
{
    if ops.len() > 0 {
        lemma_one_place(ops.drop_last(), h);
        lemma_step_places(run(ops.drop_last()), ops.last(), h);
    }
}

} // verus!
