//! What is started with a configuration, and in which order.

use crate::cli::{Config, PortForward, PortForwardProto};
use crate::net;
use crate::net::{parse_socket_addr, SocketAddr};
use vstd::prelude::*;

verus! {

/// One half of a port forward: a socket at an address, and where it leads.
#[derive(Debug, Clone, Copy, PartialEq, Eq, Structural)]
pub struct ForwardTask {
    /// TCP or else UDP.
    pub tcp: bool,
    pub bind: SocketAddr,
    pub remote: SocketAddr,
    /// Which forward of the configuration it is of.
    pub forward: usize,
}

/// An address of a port forward is none.
#[derive(Debug, Clone, Copy, PartialEq, Eq, Structural)]
pub enum ForwardError {
    Bind { forward: usize },
    Remote { forward: usize },
}

/// The tasks of a forward: one for each protocol, TCP first.
pub open spec fn tasks_of(
    network: PortForwardProto,
    bind: SocketAddr,
    remote: SocketAddr,
    forward: usize,
) -> Seq<ForwardTask> {
    let tcp = ForwardTask { tcp: true, bind, remote, forward };
    let udp = ForwardTask { tcp: false, bind, remote, forward };
    match network {
        PortForwardProto::Tcp => seq![tcp],
        PortForwardProto::Udp => seq![udp],
        PortForwardProto::Both => seq![tcp, udp],
    }
}

/// What the addresses of the forwards read as.
pub open spec fn bind_addr(f: PortForward) -> Option<SocketAddr> {
    net::socket_addr_in_text(f.bind@)
}

pub open spec fn remote_addr(f: PortForward) -> Option<SocketAddr> {
    net::socket_addr_in_text(f.remote@)
}

/// What is wrong with the addresses of a forward.
pub open spec fn addr_fault(
    bind: Option<SocketAddr>,
    remote: Option<SocketAddr>,
    forward: usize,
) -> Option<ForwardError> {
    if bind is None {
        Some(ForwardError::Bind { forward })
    } else if remote is None {
        Some(ForwardError::Remote { forward })
    } else {
        None
    }
}

/// The first forward from `i` on with a wrong address.
pub open spec fn forwards_fault(list: Seq<PortForward>, i: int) -> Option<ForwardError>
    decreases list.len() - i,
{
    if i < 0 || i >= list.len() {
        None
    } else {
        match addr_fault(bind_addr(list[i]), remote_addr(list[i]), i as usize) {
            Some(e) => Some(e),
            None => forwards_fault(list, i + 1),
        }
    }
}

/// The tasks of the first `n` forwards.
pub open spec fn tasks_upto(list: Seq<PortForward>, n: int) -> Seq<ForwardTask>
    decreases n,
{
    if n <= 0 {
        Seq::empty()
    } else {
        tasks_upto(list, n - 1) + tasks_of(
            list[n - 1].network,
            bind_addr(list[n - 1])->0,
            remote_addr(list[n - 1])->0,
            (n - 1) as usize,
        )
    }
}

/// Adds the tasks of one forward, by what its addresses read as.
pub fn add_forward(
    tasks: &mut Vec<ForwardTask>,
    network: PortForwardProto,
    bind: Option<SocketAddr>,
    remote: Option<SocketAddr>,
    forward: usize,
) -> (r: Result<(), ForwardError>)
    ensures
        match r {
            Ok(_) => addr_fault(bind, remote, forward) is None && final(tasks)@ == old(tasks)@
                + tasks_of(network, bind->0, remote->0, forward),
            Err(e) => addr_fault(bind, remote, forward) == Some(e) && final(tasks)@ == old(tasks)@,
        },
{
    let bind = match bind {
        Some(a) => a,
        None => return Err(ForwardError::Bind { forward }),
    };
    let remote = match remote {
        Some(a) => a,
        None => return Err(ForwardError::Remote { forward }),
    };
    let ghost before = tasks@;
    let tcp = ForwardTask { tcp: true, bind, remote, forward };
    let udp = ForwardTask { tcp: false, bind, remote, forward };
    match network {
        PortForwardProto::Tcp => {
            tasks.push(tcp);
        },
        PortForwardProto::Udp => {
            tasks.push(udp);
        },
        PortForwardProto::Both => {
            tasks.push(tcp);
            tasks.push(udp);
        },
    }
    assert(tasks@ =~= before + tasks_of(network, bind, remote, forward));
    Ok(())
}

/// The tasks of the port forwards of a configuration, in order.
pub fn plan_port_forwards(config: &Config) -> (r: Result<Vec<ForwardTask>, ForwardError>)
    ensures
        match r {
            Ok(tasks) => forwards_fault(config.port_forward@, 0) is None && tasks@ == tasks_upto(
                config.port_forward@,
                config.port_forward@.len() as int,
            ),
            Err(e) => forwards_fault(config.port_forward@, 0) == Some(e),
        },
{
    let mut tasks: Vec<ForwardTask> = Vec::new();
    let mut i: usize = 0;
    while i < config.port_forward.len()
        invariant
            i <= config.port_forward@.len(),
            forwards_fault(config.port_forward@, 0) == forwards_fault(
                config.port_forward@,
                i as int,
            ),
            tasks@ == tasks_upto(config.port_forward@, i as int),
        decreases config.port_forward@.len() - i,
    {
        let f = &config.port_forward[i];
        let bind = parse_socket_addr(f.bind.as_str());
        let remote = parse_socket_addr(f.remote.as_str());
        add_forward(&mut tasks, f.network, bind, remote, i)?;
        i += 1;
    }
    Ok(tasks)
}

/// The next thing to do while sockets are bound and tasks are started.
#[derive(Debug, Clone, Copy, PartialEq, Eq, Structural)]
pub enum StartupAction {
    /// Bind the socket of the task with that number.
    Bind(usize),
    /// Start the task with that number.
    Start(usize),
    /// Everything runs.
    Done,
    /// The socket of the task with that number cannot be bound. Nothing was started.
    Failed(usize),
}

/// Binds the sockets of all tasks before it starts any of them.
pub struct Startup {
    pub total: usize,
    pub bound: usize,
    pub started: usize,
    pub failed: bool,
}

impl Startup {
    pub open spec fn wf(self) -> bool {
        &&& self.bound <= self.total
        &&& self.started <= self.total
        &&& self.started > 0 ==> self.bound == self.total
        &&& self.failed ==> self.bound < self.total
    }

    pub open spec fn action(self) -> StartupAction {
        if self.failed {
            StartupAction::Failed(self.bound)
        } else if self.bound < self.total {
            StartupAction::Bind(self.bound)
        } else if self.started < self.total {
            StartupAction::Start(self.started)
        } else {
            StartupAction::Done
        }
    }

    /// A start of `total` tasks.
    pub fn new(total: usize) -> (r: Self)
        ensures
            r == (Startup { total, bound: 0, started: 0, failed: false }),
            r.wf(),
    {
        Startup { total, bound: 0, started: 0, failed: false }
    }

    /// The next thing to do.
    pub fn next(&self) -> (r: StartupAction)
        requires
            self.wf(),
        ensures
            r == self.action(),
    {
        if self.failed {
            StartupAction::Failed(self.bound)
        } else if self.bound < self.total {
            StartupAction::Bind(self.bound)
        } else if self.started < self.total {
            StartupAction::Start(self.started)
        } else {
            StartupAction::Done
        }
    }

    /// Notes whether the socket that was to be bound is.
    pub fn on_bound(&mut self, ok: bool)
        requires
            old(self).wf(),
            old(self).action() is Bind,
        ensures
            final(self).wf(),
            *final(self) == if ok {
                Startup { bound: (old(self).bound + 1) as usize, ..*old(self) }
            } else {
                Startup { failed: true, ..*old(self) }
            },
    {
        if ok {
            self.bound = self.bound + 1;
        } else {
            self.failed = true;
        }
    }

    /// Notes that the task that was to be started is.
    pub fn on_started(&mut self)
        requires
            old(self).wf(),
            old(self).action() is Start,
        ensures
            final(self).wf(),
            *final(self) == (Startup { started: (old(self).started + 1) as usize, ..*old(self) }),
    {
        self.started = self.started + 1;
    }
}

/// No task is started before the sockets of all are bound, and none ever when one
/// cannot be.
pub proof fn all_are_bound_before_one_starts(s: Startup)
    requires
        s.wf(),
    ensures
        s.action() is Start ==> s.bound == s.total && !s.failed,
        s.action() is Failed ==> s.started == 0,
        s.action() is Done ==> s.bound == s.total && s.started == s.total,
{
}

/// Which of the lasting tasks a configuration asks for.
#[derive(Debug, Clone, Copy, PartialEq, Eq, Structural)]
pub struct TaskPlan {
    /// Servers are checked every so often.
    pub health_check: bool,
    /// Servers are scored by their traffic.
    pub scores: bool,
    /// Intercepted UDP is listened for.
    pub udp: bool,
}

/// Which of the lasting tasks a configuration asks for.
pub fn task_plan(config: &Config) -> (r: TaskPlan)
    ensures
        r == (TaskPlan {
            health_check: config.health_check_interval_secs > 0,
            scores: !config.disable_upstream_score,
            udp: config.udp,
        }),
{
    TaskPlan {
        health_check: config.health_check_interval_secs > 0,
        scores: !config.disable_upstream_score,
        udp: config.udp,
    }
}

/// Every forward has a task for each of its protocols, from its own address to its
/// own remote address, and there are no other tasks.
pub proof fn forwards_have_their_tasks(list: Seq<PortForward>, task: ForwardTask)
    requires
        list.len() <= usize::MAX,
    ensures
        tasks_upto(list, list.len() as int).contains(task) <==> {
            let f = list[task.forward as int];
            &&& task.forward < list.len()
            &&& task.bind == bind_addr(f)->0
            &&& task.remote == remote_addr(f)->0
            &&& task.tcp ==> f.network is Tcp || f.network is Both
            &&& !task.tcp ==> f.network is Udp || f.network is Both
        },
{
    lemma_tasks(list, task, list.len() as int);
}

proof fn lemma_tasks(list: Seq<PortForward>, task: ForwardTask, n: int)
    requires
        0 <= n <= list.len() <= usize::MAX,
    ensures
        tasks_upto(list, n).contains(task) <==> {
            let f = list[task.forward as int];
            &&& task.forward < n
            &&& task.bind == bind_addr(f)->0
            &&& task.remote == remote_addr(f)->0
            &&& task.tcp ==> f.network is Tcp || f.network is Both
            &&& !task.tcp ==> f.network is Udp || f.network is Both
        },
    decreases n,
{
    if n > 0 {
        lemma_tasks(list, task, n - 1);
        let front = tasks_upto(list, n - 1);
        let f = list[n - 1];
        let bind = bind_addr(f)->0;
        let remote = remote_addr(f)->0;
        let more = tasks_of(f.network, bind, remote, (n - 1) as usize);
        let all = front + more;
        assert(all.contains(task) <==> front.contains(task) || more.contains(task)) by {
            if front.contains(task) {
                let i = choose|i: int| 0 <= i < front.len() && front[i] == task;
                assert(all[i] == task);
            }
            if more.contains(task) {
                let i = choose|i: int| 0 <= i < more.len() && more[i] == task;
                assert(all[front.len() + i] == task);
            }
            if all.contains(task) {
                let i = choose|i: int| 0 <= i < all.len() && all[i] == task;
                if i < front.len() {
                    assert(front[i] == task);
                } else {
                    assert(more[i - front.len()] == task);
                }
            }
        }
        let tcp = ForwardTask { tcp: true, bind, remote, forward: (n - 1) as usize };
        let udp = ForwardTask { tcp: false, bind, remote, forward: (n - 1) as usize };
        assert(more.contains(tcp) <==> f.network is Tcp || f.network is Both) by {
            if f.network is Tcp || f.network is Both {
                assert(more[0] == tcp);
            }
        }
        assert(more.contains(udp) <==> f.network is Udp || f.network is Both) by {
            if f.network is Udp {
                assert(more[0] == udp);
            }
            if f.network is Both {
                assert(more[1] == udp);
            }
        }
        assert(more.contains(task) ==> task == tcp || task == udp);
    } else {
        assert(!tasks_upto(list, n).contains(task));
    }
}

/// A forward without a local address is refused for that, and one without a remote
/// address for that. The first forward with a fault is the one that is named.
pub proof fn first_wrong_forward_is_named(list: Seq<PortForward>, k: int)
    requires
        0 <= k < list.len() <= usize::MAX,
        bind_addr(list[k]) is None || remote_addr(list[k]) is None,
        forall|i: int|
            0 <= i < k ==> bind_addr(#[trigger] list[i]) is Some && remote_addr(list[i]) is Some,
    ensures
        forwards_fault(list, 0) == Some(
            if bind_addr(list[k]) is None {
                ForwardError::Bind { forward: k as usize }
            } else {
                ForwardError::Remote { forward: k as usize }
            },
        ),
{
    lemma_first_fault(list, 0, k);
}

proof fn lemma_first_fault(list: Seq<PortForward>, from: int, k: int)
    requires
        0 <= from <= k < list.len() <= usize::MAX,
        bind_addr(list[k]) is None || remote_addr(list[k]) is None,
        forall|i: int|
            from <= i < k ==> bind_addr(#[trigger] list[i]) is Some && remote_addr(list[i]) is Some,
    ensures
        forwards_fault(list, from) == Some(
            if bind_addr(list[k]) is None {
                ForwardError::Bind { forward: k as usize }
            } else {
                ForwardError::Remote { forward: k as usize }
            },
        ),
    decreases k - from,
{
    if from < k {
        lemma_first_fault(list, from + 1, k);
    }
}

} // verus!
