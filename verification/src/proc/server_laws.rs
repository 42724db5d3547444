//! What the requests to the process manager have to do with each other.
use vstd::prelude::*;
use crate::kernel::AddressSpaceId;
use crate::proc::proc_table;
use crate::proc::proc_table::{InfoModel, TableModel};
use crate::proc::server;
use crate::proc::server::ThreadOp;
use crate::proc::types;
use crate::proc::types::{
    ProcError, ProcRequest, ProcessId, ProcessPriority, ProcessState, Signal,
};
use crate::search;
use crate::task::types::TaskPriority;

verus! {

/// The process is still there and has not begun to exit.
pub open spec fn lives(t: TableModel, pid: ProcessId) -> bool {
    t.lookup(pid) matches Some(info) && match info.state {
        ProcessState::Created | ProcessState::Running | ProcessState::Blocked
        | ProcessState::Stopped => true,
        ProcessState::Dying | ProcessState::Zombie => false,
    }
}

/// No slot of the table is free.
pub open spec fn full(t: TableModel) -> bool {
    forall|i: int| 0 <= i < t.slots.len() ==> (#[trigger] t.slots[i]) is Some
}

proof fn lemma_full(t: TableModel)
    ensures
        t.free_slot() is None <==> full(t),
        t.free_slot() is Some ==> 0 <= t.free_slot()->0 < t.slots.len()
            && t.slots[t.free_slot()->0] is None,
{
    search::lemma_first_index(t.slots, proc_table::vacant(), 0);
    match t.free_slot() {
        Some(i) => {
            assert(proc_table::vacant()(t.slots[i]));
        },
        None => {
            assert forall|i: int| 0 <= i < t.slots.len() implies (#[trigger] t.slots[i]) is Some by {
                assert(!proc_table::vacant()(t.slots[i]));
            }
        },
    }
}

/// The first bytes of a name, as many as a record keeps.
pub open spec fn start_of(name: Seq<u8>) -> Seq<u8> {
    name.take(if name.len() < 32 {
        name.len() as int
    } else {
        32
    })
}

/// A process that is spawned is new: nobody had its number before.  It runs, it is
/// the child of its parent, and it has the name and the priority that were asked
/// for, no threads and no exit code.  The others stay as they are.  Spawning is
/// refused exactly when the parent does not live or the table is full.
pub proof fn law_spawned_process(
    t: TableModel,
    parent: ProcessId,
    name: Seq<u8>,
    priority: ProcessPriority,
    other: ProcessId,
)
    requires
        t.inv(),
    ensures
        ({
            let (r, t2) = server::spawn_outcome(t, parent, name, priority);
            &&& r is Ok <==> lives(t, parent) && !full(t)
            &&& r is Err ==> t2 == t && r->Err_0 == (if t.lookup(parent) is None {
                ProcError::InvalidProcess
            } else if !lives(t, parent) {
                ProcError::InvalidState
            } else {
                ProcError::ProcessTableFull
            })
            &&& r matches Ok(pid) ==> {
                &&& t.lookup(pid) is None
                &&& t2.lookup(pid) == Some(
                    InfoModel {
                        pid,
                        name: start_of(name),
                        state: ProcessState::Running,
                        priority,
                        addr_space_id: AddressSpaceId(0),
                        parent,
                        threads: Seq::empty(),
                        exit_code: None,
                    },
                )
                &&& other != pid ==> t2.lookup(other) == t.lookup(other)
            }
        }),
{
    lemma_full(t);
    assert(name.take(name.len() as int) =~= name);
    if server::spawn_outcome(t, parent, name, priority).0 is Ok {
        let info = InfoModel {
            state: ProcessState::Running,
            ..proc_table::created(ProcessId::NULL(), name, priority, AddressSpaceId(0), parent)
        };
        proc_table::law_insert_then_lookup(t, info, other);
        proc_table::law_insert_then_lookup(t, info, t.next_pid());
        lemma_new(t);
    }
}

/// The next number refers to nobody yet.
proof fn lemma_new(t: TableModel)
    requires
        t.inv(),
        t.free_slot() is Some,
    ensures
        t.lookup(t.next_pid()) is None,
{
    lemma_full(t);
    let i = t.free_slot()->0;
    types::law_process_id_round_trip(
        i,
        proc_table::next_generation(t.generations[i]) as int,
        t.next_pid(),
    );
}

/// A process that is registered is new and has what was told of it; the others
/// stay as they are.  It is refused exactly when the parent that it names is
/// unknown or the table is full.
pub proof fn law_registered_process(
    t: TableModel,
    parent: ProcessId,
    addr_space_id: AddressSpaceId,
    name: Seq<u8>,
    priority: ProcessPriority,
    other: ProcessId,
)
    requires
        t.inv(),
    ensures
        ({
            let (r, t2) = server::register_outcome(t, parent, addr_space_id, name, priority);
            &&& r is Ok <==> (parent.0 == 0 || t.lookup(parent) is Some) && !full(t)
            &&& r is Err ==> t2 == t
            &&& r matches Ok(pid) ==> {
                &&& t.lookup(pid) is None
                &&& t2.lookup(pid) == Some(
                    InfoModel {
                        pid,
                        name: start_of(name),
                        state: ProcessState::Created,
                        priority,
                        addr_space_id,
                        parent,
                        threads: Seq::empty(),
                        exit_code: None,
                    },
                )
                &&& other != pid ==> t2.lookup(other) == t.lookup(other)
            }
        }),
{
    lemma_full(t);
    assert(name.take(name.len() as int) =~= name);
    if server::register_outcome(t, parent, addr_space_id, name, priority).0 is Ok {
        let info = proc_table::created(ProcessId::NULL(), name, priority, addr_space_id, parent);
        proc_table::law_insert_then_lookup(t, info, other);
        proc_table::law_insert_then_lookup(t, info, t.next_pid());
        lemma_new(t);
    }
}

/// A process that exits loses each of its threads, in order; it stays for a living
/// parent with its exit code and is gone otherwise.  It is refused exactly when the
/// process does not live.
pub proof fn law_exited_process(t: TableModel, pid: ProcessId, code: i32, other: ProcessId)
    requires
        t.inv(),
    ensures
        ({
            let (r, t2, ops) = server::exit_outcome(t, pid, code);
            &&& r is Ok <==> lives(t, pid)
            &&& r is Err ==> t2 == t && ops.len() == 0
            &&& r is Ok ==> {
                let info = t.lookup(pid)->0;
                &&& ops.len() == info.threads.len()
                &&& forall|i: int|
                    0 <= i < ops.len() ==> #[trigger] ops[i] == ThreadOp::Destroy(info.threads[i])
                &&& other != pid ==> t2.lookup(other) == t.lookup(other)
                &&& t2.lookup(pid) == (if info.parent != pid && lives(t, info.parent) {
                    Some(
                        InfoModel {
                            state: ProcessState::Zombie,
                            exit_code: Some(code),
                            threads: Seq::empty(),
                            ..info
                        },
                    )
                } else {
                    None
                })
            }
        }),
{
    if server::exit_outcome(t, pid, code).0 is Ok {
        server::lemma_lookup_after_update(t, pid, server::zombie_of(t.lookup(pid)->0, code));
        proc_table::law_remove_then_lookup(t, pid, pid);
        proc_table::law_remove_then_lookup(t, pid, other);
    }
}

/// What a signal does to a process that can receive it: SIGSTOP stops it, SIGCONT
/// lets a stopped one run, SIGCHLD does nothing, and any other ends it with the
/// negative number of the signal as its exit code.
pub proof fn law_signals(t: TableModel, pid: ProcessId, signal: Signal, other: ProcessId)
    requires
        t.inv(),
        lives(t, pid),
        t.lookup(pid)->0.state != ProcessState::Created,
    ensures
        ({
            let (r, t2, ops) = server::signal_outcome(t, pid, signal);
            let info = t.lookup(pid)->0;
            &&& r is Ok
            &&& other != pid ==> t2.lookup(other) == t.lookup(other)
            &&& signal == Signal::SIGSTOP ==> ops.len() == 0 && t2.lookup(pid) == Some(
                InfoModel { state: ProcessState::Stopped, ..info },
            )
            &&& signal == Signal::SIGCONT ==> ops.len() == 0 && t2.lookup(pid) == Some(
                InfoModel {
                    state: if info.state == ProcessState::Stopped {
                        ProcessState::Running
                    } else {
                        info.state
                    },
                    ..info
                },
            )
            &&& signal == Signal::SIGCHLD ==> ops.len() == 0 && t2 == t
            &&& signal != Signal::SIGSTOP && signal != Signal::SIGCONT && signal != Signal::SIGCHLD
                ==> (r, t2, ops) == server::exit_outcome(t, pid, (-signal.num()) as i32)
        }),
{
    let info = t.lookup(pid)->0;
    server::lemma_lookup_after_update(t, pid, InfoModel { state: ProcessState::Stopped, ..info });
    server::lemma_lookup_after_update(t, pid, InfoModel { state: ProcessState::Running, ..info });
    law_exited_process(t, pid, (-signal.num()) as i32, other);
}

/// The numbers of the signals that end, stop and continue a process.
pub proof fn law_signal_numbers(a: Signal, b: Signal)
    ensures
        a.num() == b.num() ==> a == b,
        Signal::SIGINT.num() == 2,
        Signal::SIGKILL.num() == 9,
        Signal::SIGSEGV.num() == 11,
        Signal::SIGTERM.num() == 15,
        Signal::SIGCHLD.num() == 17,
        Signal::SIGCONT.num() == 18,
        Signal::SIGSTOP.num() == 19,
        1 < a.num() < 32,
{
}

/// A new priority is that of the process and, in order, of each of its threads;
/// nothing else changes.
pub proof fn law_priority(
    t: TableModel,
    pid: ProcessId,
    priority: ProcessPriority,
    other: ProcessId,
)
    requires
        t.inv(),
    ensures
        ({
            let (r, t2, ops) = server::priority_outcome(t, pid, priority);
            &&& r is Ok <==> t.lookup(pid) is Some
            &&& r is Err ==> t2 == t && ops.len() == 0 && r->Err_0 == ProcError::InvalidProcess
            &&& r is Ok ==> {
                let info = t.lookup(pid)->0;
                &&& t2.lookup(pid) == Some(InfoModel { priority, ..info })
                &&& other != pid ==> t2.lookup(other) == t.lookup(other)
                &&& ops.len() == info.threads.len()
                &&& forall|i: int|
                    0 <= i < ops.len() ==> #[trigger] ops[i] == ThreadOp::SetPriority(
                        info.threads[i],
                        TaskPriority(priority.0),
                    )
            }
        }),
{
    if t.lookup(pid) is Some {
        server::lemma_lookup_after_update(t, pid, InfoModel { priority, ..t.lookup(pid)->0 });
    }
}

/// The processes of a list are found by their numbers, each once; a list of
/// children holds exactly those whose parent this is.
pub proof fn law_children(t: TableModel, parent: ProcessId, pid: ProcessId)
    requires
        t.inv(),
    ensures
        proc_table::pids(search::collected(t.slots, proc_table::child_of(parent))).contains(pid)
            <==> t.lookup(pid) is Some && t.lookup(pid)->0.parent == parent,
{
    let p = proc_table::child_of(parent);
    lemma_listed(t, p, pid);
}

/// The list of all processes holds exactly those that can be looked up.
pub proof fn law_list(t: TableModel, pid: ProcessId)
    requires
        t.inv(),
    ensures
        proc_table::pids(search::collected(t.slots, proc_table::any_process())).contains(pid)
            <==> t.lookup(pid) is Some,
{
    lemma_listed(t, proc_table::any_process(), pid);
}

proof fn lemma_listed(t: TableModel, p: spec_fn(InfoModel) -> bool, pid: ProcessId)
    requires
        t.inv(),
    ensures
        proc_table::pids(search::collected(t.slots, p)).contains(pid) <==> t.lookup(pid) is Some && p(
            t.lookup(pid)->0,
        ),
{
    let all = search::collected(t.slots, p);
    let ids = proc_table::pids(all);
    if ids.contains(pid) {
        let k = choose|k: int| 0 <= k < ids.len() && ids[k] == pid;
        assert(all.contains(all[k]));
        lemma_collected(t.slots, p, all[k]);
        let i = choose|i: int|
            0 <= i < t.slots.len() && #[trigger] t.slots[i] == Some(all[k]);
        types::law_process_id_round_trip(i, t.generations[i] as int, pid);
    }
    if t.lookup(pid) is Some && p(t.lookup(pid)->0) {
        let info = t.lookup(pid)->0;
        let i = pid.slot();
        assert(t.slots[i] == Some(info));
        lemma_collected(t.slots, p, info);
        let k = choose|k: int| 0 <= k < all.len() && all[k] == info;
        types::law_process_id_round_trip(i, t.generations[i] as int, pid);
        assert(ids[k] == info.pid);
        assert(info.pid == pid);
    }
}

proof fn lemma_collected(slots: Seq<Option<InfoModel>>, p: spec_fn(InfoModel) -> bool, v: InfoModel)
    ensures
        search::collected(slots, p).contains(v) <==> p(v) && exists|i: int|
            0 <= i < slots.len() && #[trigger] slots[i] == Some(v),
    decreases slots.len(),
{
    if slots.len() > 0 {
        let init = slots.drop_last();
        let n = slots.len() - 1;
        let rest = search::collected(init, p);
        let all = search::collected(slots, p);
        lemma_collected(init, p, v);
        if all.contains(v) {
            let k = choose|k: int| 0 <= k < all.len() && all[k] == v;
            if k < rest.len() {
                assert(rest[k] == v);
                let i = choose|i: int| 0 <= i < init.len() && #[trigger] init[i] == Some(v);
                assert(slots[i] == Some(v));
            } else {
                assert(slots[n] == Some(v));
            }
        }
        if p(v) && exists|i: int| 0 <= i < slots.len() && #[trigger] slots[i] == Some(v) {
            let i = choose|i: int| 0 <= i < slots.len() && #[trigger] slots[i] == Some(v);
            if i < n {
                assert(init[i] == Some(v));
                let k = choose|k: int| 0 <= k < rest.len() && rest[k] == v;
                assert(all[k] == v);
            } else {
                assert(all[all.len() - 1] == v);
            }
        }
    }
}

/// A request does what it asks for.
pub proof fn law_requests(t: TableModel, default: ProcessPriority, q: ProcRequest)
    ensures
        match q {
            ProcRequest::Exit { pid, exit_code } => server::request_outcome(t, default, q)
                == server::exit_outcome(t, pid, exit_code),
            ProcRequest::Signal { target, signal } => server::request_outcome(t, default, q)
                == server::signal_outcome(t, target, signal),
            ProcRequest::SetPriority { target, priority } => server::request_outcome(t, default, q)
                == server::priority_outcome(t, target, priority),
            ProcRequest::Query { target } => {
                &&& server::request_outcome(t, default, q).1 == t
                &&& server::request_outcome(t, default, q).0 is Ok <==> t.lookup(target) is Some
            },
            ProcRequest::List => server::request_outcome(t, default, q).1 == t,
            ProcRequest::Spawn { parent, name, name_len, .. } => name_len <= 32 ==> {
                let s = server::spawn_outcome(t, parent, name@.take(name_len as int), default);
                &&& server::request_outcome(t, default, q).1 == s.1
                &&& server::request_outcome(t, default, q).0 is Ok <==> s.0 is Ok
            },
            ProcRequest::Register { addr_space_id, name, name_len, priority, parent, .. } => name_len
                <= 32 ==> {
                let s = server::register_outcome(
                    t,
                    parent,
                    addr_space_id,
                    name@.take(name_len as int),
                    priority,
                );
                &&& server::request_outcome(t, default, q).1 == s.1
                &&& server::request_outcome(t, default, q).0 is Ok <==> s.0 is Ok
            },
        },
{
}

/// A process starts with the priority that the first part of its name asks for.
pub proof fn law_default_priority(rest: Seq<u8>)
    ensures
        // "init", "mm-", "proc-", "cap-"
        server::default_priority_for(seq![105u8, 110u8, 105u8, 116u8] + rest)
            == ProcessPriority::SYSTEM(),
        server::default_priority_for(seq![109u8, 109u8, 45u8] + rest) == ProcessPriority::SYSTEM(),
        server::default_priority_for(seq![112u8, 114u8, 111u8, 99u8, 45u8] + rest)
            == ProcessPriority::SYSTEM(),
        server::default_priority_for(seq![99u8, 97u8, 112u8, 45u8] + rest)
            == ProcessPriority::SYSTEM(),
        // "fs-", "net-", "drv-"
        server::default_priority_for(seq![102u8, 115u8, 45u8] + rest) == ProcessPriority::SERVER(),
        server::default_priority_for(seq![110u8, 101u8, 116u8, 45u8] + rest)
            == ProcessPriority::SERVER(),
        server::default_priority_for(seq![100u8, 114u8, 118u8, 45u8] + rest)
            == ProcessPriority::SERVER(),
{
    lemma_prefix(seq![105u8, 110u8, 105u8, 116u8], rest);
    lemma_prefix(seq![109u8, 109u8, 45u8], rest);
    lemma_prefix(seq![112u8, 114u8, 111u8, 99u8, 45u8], rest);
    lemma_prefix(seq![99u8, 97u8, 112u8, 45u8], rest);
    lemma_prefix(seq![102u8, 115u8, 45u8], rest);
    lemma_prefix(seq![110u8, 101u8, 116u8, 45u8], rest);
    lemma_prefix(seq![100u8, 114u8, 118u8, 45u8], rest);
    assert((seq![102u8, 115u8, 45u8] + rest)[0] == 102);
    assert((seq![110u8, 101u8, 116u8, 45u8] + rest)[0] == 110);
    assert((seq![100u8, 114u8, 118u8, 45u8] + rest)[0] == 100);
}

proof fn lemma_prefix(p: Seq<u8>, rest: Seq<u8>)
    ensures
        crate::text::has_prefix(p + rest, p),
{
    assert((p + rest).take(p.len() as int) =~= p);
}

proof fn lemma_register_all_keeps(
    t: TableModel,
    parent: ProcessId,
    servers: Seq<server::ServerEntry>,
    i: int,
    pid: ProcessId,
)
    requires
        t.inv(),
        t.lookup(pid) is Some,
        0 <= i,
    ensures
        server::register_all(t, parent, servers, i).1.lookup(pid) == t.lookup(pid),
    decreases servers.len() - i,
{
    if i < servers.len() {
        let s = servers[i];
        let (r, t2) = server::register_outcome(t, parent, s.0, s.1@, s.2);
        law_registered_process(t, parent, s.0, s.1@, s.2, pid);
        if r is Ok {
            let info = proc_table::created(ProcessId::NULL(), s.1@, s.2, s.0, parent);
            proc_table::law_insert_then_lookup(t, info, pid);
            lemma_register_all_keeps(t2, parent, servers, i + 1, pid);
        }
    }
}

/// The server at `k` has a process of its own.
pub open spec fn has_process(
    t: TableModel,
    parent: ProcessId,
    servers: Seq<server::ServerEntry>,
    k: int,
) -> bool {
    exists|pid: ProcessId|
        (#[trigger] t.lookup(pid)) is Some && {
            let p = t.lookup(pid)->0;
            &&& p.addr_space_id == servers[k].0
            &&& p.name == start_of(servers[k].1@)
            &&& p.priority == servers[k].2
            &&& p.parent == parent
        }
}

/// Once servers were registered without an error, each of them has a process with
/// its name, its address space, its priority and its parent.
pub proof fn law_all_servers_are_registered(
    t: TableModel,
    parent: ProcessId,
    servers: Seq<server::ServerEntry>,
    i: int,
    k: int,
)
    requires
        t.inv(),
        0 <= i <= k < servers.len(),
        server::register_all(t, parent, servers, i).0 is Ok,
    ensures
        has_process(server::register_all(t, parent, servers, i).1, parent, servers, k),
    decreases servers.len() - i,
{
    let s = servers[i];
    let (r, t2) = server::register_outcome(t, parent, s.0, s.1@, s.2);
    let after = server::register_all(t, parent, servers, i).1;
    law_registered_process(t, parent, s.0, s.1@, s.2, parent);
    let info = proc_table::created(ProcessId::NULL(), s.1@, s.2, s.0, parent);
    proc_table::law_insert_then_lookup(t, info, parent);
    if i < k {
        law_all_servers_are_registered(t2, parent, servers, i + 1, k);
    } else {
        let pid = r->Ok_0;
        lemma_register_all_keeps(t2, parent, servers, i + 1, pid);
        assert(after.lookup(pid) == t2.lookup(pid));
    }
}

} // verus!
