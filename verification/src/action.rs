//! The remediation action taxonomy, the keyword parser that turns
//! recommendation texts into actions, the priority ordering of a plan, and
//! the decision logic of the executor: how a kill outcome is judged and
//! which control-group writes a throttle requires.  The host commands
//! themselves run outside the crate.

use vstd::prelude::*;

use crate::strutil::{contains_seq, lower_seq, str_contains_ci};
use crate::strutil::{dec_digits, str_contains, u32_to_string, u64_to_string};

verus! {

broadcast use {vstd::std_specs::vec::group_vec_axioms, vstd::seq_lib::group_to_multiset_ensures};

/// The closed set of remediation actions.
pub enum ActionType {
    /// Deliver a process signal, e.g. `SIGUSR1` for a checkpoint dump.
    Signal { signal: i32 },
    /// Apply resource limits to the target's control group.
    CgroupThrottle { cpu_quota: Option<u64>, memory_limit: Option<u64>, io_limit: Option<u64> },
    /// Bring a network interface down and up again.
    NetworkRestart { interface: String },
    /// Send a signal, wait, then optionally force-terminate.
    GracefulShutdown { signal: i32, wait_seconds: u64, force_kill: bool },
    /// Terminate the whole process tree.
    KillProcess,
    /// Mark the node unschedulable.
    IsolateNode { reason: String },
    /// Report the contents of a checkpoint directory.
    CheckCheckpoint { checkpoint_dir: String },
    /// Run an opaque host command.
    Custom { command: String, args: Vec<String> },
}

/// The mathematical image of an action.
pub enum ActionModel {
    Signal { signal: i32 },
    CgroupThrottle { cpu_quota: Option<u64>, memory_limit: Option<u64>, io_limit: Option<u64> },
    NetworkRestart { interface: Seq<char> },
    GracefulShutdown { signal: i32, wait_seconds: u64, force_kill: bool },
    KillProcess,
    IsolateNode { reason: Seq<char> },
    CheckCheckpoint { checkpoint_dir: Seq<char> },
    Custom { command: Seq<char>, args: Seq<Seq<char>> },
}

impl View for ActionType {
    type V = ActionModel;

    open spec fn view(&self) -> ActionModel {
        match self {
            ActionType::Signal { signal } => ActionModel::Signal { signal: *signal },
            ActionType::CgroupThrottle { cpu_quota, memory_limit, io_limit } => {
                ActionModel::CgroupThrottle {
                    cpu_quota: *cpu_quota,
                    memory_limit: *memory_limit,
                    io_limit: *io_limit,
                }
            },
            ActionType::NetworkRestart { interface } => {
                ActionModel::NetworkRestart { interface: interface@ }
            },
            ActionType::GracefulShutdown { signal, wait_seconds, force_kill } => {
                ActionModel::GracefulShutdown {
                    signal: *signal,
                    wait_seconds: *wait_seconds,
                    force_kill: *force_kill,
                }
            },
            ActionType::KillProcess => ActionModel::KillProcess,
            ActionType::IsolateNode { reason } => ActionModel::IsolateNode { reason: reason@ },
            ActionType::CheckCheckpoint { checkpoint_dir } => {
                ActionModel::CheckCheckpoint { checkpoint_dir: checkpoint_dir@ }
            },
            ActionType::Custom { command, args } => ActionModel::Custom {
                command: command@,
                args: args@.map_values(|a: String| a@),
            },
        }
    }
}

/// Case-insensitive keyword occurrence over ASCII letters.
pub open spec fn has_kw(t: Seq<char>, kw: Seq<char>) -> bool {
    contains_seq(lower_seq(t), lower_seq(kw))
}

/// What a recommendation text parses to: the keyword-to-action table, in
/// priority of recognition.
pub open spec fn spec_from_recommendation(t: Seq<char>) -> Option<ActionModel> {
    if has_kw(t, "sigusr1"@) || has_kw(t, "checkpoint dump"@) {
        Some(ActionModel::Signal { signal: 10 })
    } else if has_kw(t, "signal"@) && has_kw(t, "dump"@) {
        Some(ActionModel::Signal { signal: 10 })
    } else if has_kw(t, "zap"@) || has_kw(t, "kill"@) {
        Some(ActionModel::KillProcess)
    } else if has_kw(t, "graceful"@) || (has_kw(t, "signal"@) && has_kw(t, "wait"@)) {
        Some(ActionModel::GracefulShutdown { signal: 10, wait_seconds: 10, force_kill: true })
    } else if has_kw(t, "cgroup"@) || has_kw(t, "throttle"@) || has_kw(t, "limit"@) {
        Some(ActionModel::CgroupThrottle {
            cpu_quota: Some(50000),
            memory_limit: None,
            io_limit: None,
        })
    } else if has_kw(t, "restart network"@) || has_kw(t, "network interface"@) {
        if has_kw(t, "eno"@) {
            Some(ActionModel::NetworkRestart { interface: "eno1"@ })
        } else {
            Some(ActionModel::NetworkRestart { interface: "eth0"@ })
        }
    } else if has_kw(t, "isolate"@) {
        Some(ActionModel::IsolateNode { reason: t })
    } else if has_kw(t, "checkpoint"@) && has_kw(t, "check"@) {
        Some(ActionModel::CheckCheckpoint { checkpoint_dir: "/tmp/checkpoints"@ })
    } else {
        None
    }
}

impl ActionType {
    /// Reads a recommended-action text into an action through the keyword
    /// table; text that names no known remedy yields nothing.
    pub fn from_recommendation(text: &str) -> (r: Option<ActionType>)
        ensures
            match r {
                Some(a) => spec_from_recommendation(text@) == Some(a@),
                None => spec_from_recommendation(text@) is None,
            },
    {
        if str_contains_ci(text, "sigusr1") || str_contains_ci(text, "checkpoint dump") {
            Some(ActionType::Signal { signal: 10 })
        } else if str_contains_ci(text, "signal") && str_contains_ci(text, "dump") {
            Some(ActionType::Signal { signal: 10 })
        } else if str_contains_ci(text, "zap") || str_contains_ci(text, "kill") {
            Some(ActionType::KillProcess)
        } else if str_contains_ci(text, "graceful") || (str_contains_ci(text, "signal")
            && str_contains_ci(text, "wait")) {
            Some(ActionType::GracefulShutdown { signal: 10, wait_seconds: 10, force_kill: true })
        } else if str_contains_ci(text, "cgroup") || str_contains_ci(text, "throttle")
            || str_contains_ci(text, "limit") {
            Some(ActionType::CgroupThrottle {
                cpu_quota: Some(50000),
                memory_limit: None,
                io_limit: None,
            })
        } else if str_contains_ci(text, "restart network") || str_contains_ci(
            text,
            "network interface",
        ) {
            if str_contains_ci(text, "eno") {
                let r = ActionType::NetworkRestart { interface: String::from_str("eno1") };
                assert(r@ == (ActionModel::NetworkRestart { interface: "eno1"@ }));
                Some(r)
            } else {
                let r = ActionType::NetworkRestart { interface: String::from_str("eth0") };
                assert(r@ == (ActionModel::NetworkRestart { interface: "eth0"@ }));
                Some(r)
            }
        } else if str_contains_ci(text, "isolate") {
            let r = ActionType::IsolateNode { reason: text.to_owned() };
            assert(r@ == (ActionModel::IsolateNode { reason: text@ }));
            Some(r)
        } else if str_contains_ci(text, "checkpoint") && str_contains_ci(text, "check") {
            let r = ActionType::CheckCheckpoint {
                checkpoint_dir: String::from_str("/tmp/checkpoints"),
            };
            assert(r@ == (ActionModel::CheckCheckpoint { checkpoint_dir: "/tmp/checkpoints"@ }));
            Some(r)
        } else {
            None
        }
    }

    /// The rank an action takes in a plan: signals run first, a kill of
    /// the whole tree always last.
    pub fn priority(&self) -> (r: u8)
        ensures
            r == spec_priority(self@),
    {
        match self {
            ActionType::Signal { .. } => 1,
            ActionType::GracefulShutdown { .. } => 2,
            ActionType::CgroupThrottle { .. } => 3,
            ActionType::CheckCheckpoint { .. } => 4,
            ActionType::NetworkRestart { .. } => 5,
            ActionType::IsolateNode { .. } => 6,
            ActionType::Custom { .. } => 7,
            ActionType::KillProcess => 10,
        }
    }

    /// A short human-readable description of the action.
    pub fn description(&self) -> (r: String)
        ensures
            r@ == spec_description(self@),
    {
        match self {
            ActionType::Signal { signal } => {
                let s = String::from_str("send signal ").concat(
                    u32_to_string(if *signal >= 0 {
                        *signal as u32
                    } else {
                        0
                    }).as_str(),
                ).concat(" (").concat(signal_name(*signal)).concat(")");
                proof {
                    assert(s@ =~= spec_description(self@));
                }
                s
            },
            ActionType::CgroupThrottle { .. } => String::from_str("apply cgroup limits"),
            ActionType::NetworkRestart { interface } => {
                let s = String::from_str("restart network interface ").concat(interface.as_str());
                proof {
                    assert(s@ =~= spec_description(self@));
                }
                s
            },
            ActionType::GracefulShutdown { wait_seconds, .. } => {
                let s = String::from_str("graceful shutdown, wait ").concat(
                    u64_to_string(*wait_seconds).as_str(),
                ).concat(" s");
                proof {
                    assert(s@ =~= spec_description(self@));
                }
                s
            },
            ActionType::KillProcess => String::from_str("kill process tree"),
            ActionType::IsolateNode { .. } => String::from_str("isolate node"),
            ActionType::CheckCheckpoint { checkpoint_dir } => {
                let s = String::from_str("check checkpoints in ").concat(checkpoint_dir.as_str());
                proof {
                    assert(s@ =~= spec_description(self@));
                }
                s
            },
            ActionType::Custom { command, .. } => {
                let s = String::from_str("run ").concat(command.as_str());
                proof {
                    assert(s@ =~= spec_description(self@));
                }
                s
            },
        }
    }
}

/// The rank of each action kind; lower runs earlier.
pub open spec fn spec_priority(a: ActionModel) -> u8 {
    match a {
        ActionModel::Signal { .. } => 1,
        ActionModel::GracefulShutdown { .. } => 2,
        ActionModel::CgroupThrottle { .. } => 3,
        ActionModel::CheckCheckpoint { .. } => 4,
        ActionModel::NetworkRestart { .. } => 5,
        ActionModel::IsolateNode { .. } => 6,
        ActionModel::Custom { .. } => 7,
        ActionModel::KillProcess => 10,
    }
}

/// The description each action kind carries.
pub open spec fn spec_description(a: ActionModel) -> Seq<char> {
    match a {
        ActionModel::Signal { signal } => "send signal "@ + dec_digits(
            if signal >= 0 {
                signal as int
            } else {
                0
            },
        ) + " ("@ + spec_signal_name(signal) + ")"@,
        ActionModel::CgroupThrottle { .. } => "apply cgroup limits"@,
        ActionModel::NetworkRestart { interface } => "restart network interface "@ + interface,
        ActionModel::GracefulShutdown { wait_seconds, .. } => "graceful shutdown, wait "@
            + dec_digits(wait_seconds as int) + " s"@,
        ActionModel::KillProcess => "kill process tree"@,
        ActionModel::IsolateNode { .. } => "isolate node"@,
        ActionModel::CheckCheckpoint { checkpoint_dir } => "check checkpoints in "@
            + checkpoint_dir,
        ActionModel::Custom { command, .. } => "run "@ + command,
    }
}

/// The numeric name of a signal.
pub fn signal_name(sig: i32) -> (r: &'static str)
    ensures
        r@ == spec_signal_name(sig),
{
    match sig {
        1 => "SIGHUP",
        2 => "SIGINT",
        3 => "SIGQUIT",
        9 => "SIGKILL",
        10 => "SIGUSR1",
        12 => "SIGUSR2",
        15 => "SIGTERM",
        _ => "UNKNOWN",
    }
}

/// The name each signal number carries.
pub open spec fn spec_signal_name(sig: i32) -> Seq<char> {
    if sig == 1 {
        "SIGHUP"@
    } else if sig == 2 {
        "SIGINT"@
    } else if sig == 3 {
        "SIGQUIT"@
    } else if sig == 9 {
        "SIGKILL"@
    } else if sig == 10 {
        "SIGUSR1"@
    } else if sig == 12 {
        "SIGUSR2"@
    } else if sig == 15 {
        "SIGTERM"@
    } else {
        "UNKNOWN"@
    }
}

// ---------------------------------------------------------------------------
// Executor decisions.
// ---------------------------------------------------------------------------

/// The decision layer of the action executor: it never touches the host
/// itself, it judges outcomes and derives the writes a throttle needs.
pub struct ActionExecutor;

impl ActionExecutor {
    pub fn new() -> (r: ActionExecutor) {
        ActionExecutor
    }

    /// Judges a kill command's outcome: success, or a missing target —
    /// which counts as success, killing an absent process is a no-op —
    /// or a real failure.
    pub fn kill_outcome(status_success: bool, stderr: &String) -> (r: Result<(), ()>)
        ensures
            r is Ok <==> (status_success || contains_seq(stderr@, "No such process"@)),
    {
        if status_success {
            Ok(())
        } else if str_contains(stderr.as_str(), "No such process") {
            Ok(())
        } else {
            Err(())
        }
    }
}

/// One control-group limit set for a process.
pub struct CgroupLimits {
    pub cpu_quota: Option<u64>,
    pub memory_limit: Option<u64>,
    pub io_limit: Option<u64>,
}

/// The limits recorded per pid after a sequence of throttles: a model of
/// what the host's control groups hold.
pub struct CgroupState {
    entries: Vec<(u32, CgroupLimits)>,
}

/// The model of the per-pid limit table.
pub open spec fn cgroup_view(v: Seq<(u32, CgroupLimits)>) -> Seq<(u32, (Option<u64>, Option<u64>, Option<u64>))> {
    v.map_values(
        |p: (u32, CgroupLimits)| (p.0, (p.1.cpu_quota, p.1.memory_limit, p.1.io_limit)),
    )
}

/// A throttle merged over previous limits: a side that names no value
/// keeps the old one.
pub open spec fn merge_limits(
    prev: (Option<u64>, Option<u64>, Option<u64>),
    cpu: Option<u64>,
    mem: Option<u64>,
    io: Option<u64>,
) -> (Option<u64>, Option<u64>, Option<u64>) {
    (
        if cpu is Some {
            cpu
        } else {
            prev.0
        },
        if mem is Some {
            mem
        } else {
            prev.1
        },
        if io is Some {
            io
        } else {
            prev.2
        },
    )
}

/// The table after applying a throttle to one pid, scanning from `i`.
pub open spec fn spec_apply_from(
    t: Seq<(u32, (Option<u64>, Option<u64>, Option<u64>))>,
    pid: u32,
    cpu: Option<u64>,
    mem: Option<u64>,
    io: Option<u64>,
    i: int,
) -> Seq<(u32, (Option<u64>, Option<u64>, Option<u64>))>
    decreases t.len() - i,
{
    if i < 0 || i >= t.len() {
        t.push((pid, merge_limits((None, None, None), cpu, mem, io)))
    } else if t[i].0 == pid {
        t.update(i, (pid, merge_limits(t[i].1, cpu, mem, io)))
    } else {
        spec_apply_from(t, pid, cpu, mem, io, i + 1)
    }
}

/// The table after applying a throttle to one pid.
pub open spec fn spec_apply_throttle(
    t: Seq<(u32, (Option<u64>, Option<u64>, Option<u64>))>,
    pid: u32,
    cpu: Option<u64>,
    mem: Option<u64>,
    io: Option<u64>,
) -> Seq<(u32, (Option<u64>, Option<u64>, Option<u64>))> {
    spec_apply_from(t, pid, cpu, mem, io, 0)
}

impl CgroupState {
    pub closed spec fn table(&self) -> Seq<(u32, (Option<u64>, Option<u64>, Option<u64>))> {
        cgroup_view(self.entries@)
    }

    /// An empty table: no limits applied yet.
    pub fn new() -> (r: CgroupState)
        ensures
            r.table() == Seq::<(u32, (Option<u64>, Option<u64>, Option<u64>))>::empty(),
    {
        let r = CgroupState { entries: Vec::new() };
        proof {
            assert(r.table() =~= Seq::<(u32, (Option<u64>, Option<u64>, Option<u64>))>::empty());
        }
        r
    }

    /// The limits currently recorded for a pid, as a
    /// `(cpu, memory, io)` triple.
    pub fn limits_of(&self, pid: u32) -> (r: Option<(Option<u64>, Option<u64>, Option<u64>)>)
        ensures
            match r {
                Some(l) => exists|j: int|
                    0 <= j < self.table().len() && (#[trigger] self.table()[j]) == (pid, l),
                None => forall|j: int|
                    0 <= j < self.table().len() ==> (#[trigger] self.table()[j]).0 != pid,
            },
    {
        let n = self.entries.len();
        let mut i: usize = 0;
        while i < n
            invariant
                0 <= i <= n,
                n == self.entries@.len(),
                forall|j: int| 0 <= j < i ==> (#[trigger] self.table()[j]).0 != pid,
            decreases n - i,
        {
            if self.entries[i].0 == pid {
                let l = &self.entries[i].1;
                let triple = (l.cpu_quota, l.memory_limit, l.io_limit);
                assert(self.table()[i as int] == (pid, triple));
                return Some(triple);
            }
            assert(self.table()[i as int].0 != pid);
            i = i + 1;
        }
        None
    }

    /// Applies a throttle: overwrites the named limits for the pid and
    /// keeps the others.
    pub fn apply_throttle(&mut self, pid: u32, cpu: Option<u64>, mem: Option<u64>, io: Option<u64>)
        ensures
            final(self).table() == spec_apply_throttle(old(self).table(), pid, cpu, mem, io),
    {
        let n = self.entries.len();
        let mut i: usize = 0;
        while i < n
            invariant
                0 <= i <= n,
                n == self.entries@.len(),
                self.entries@ == old(self).entries@,
                spec_apply_throttle(self.table(), pid, cpu, mem, io) == spec_apply_from(
                    self.table(),
                    pid,
                    cpu,
                    mem,
                    io,
                    i as int,
                ),
            decreases n - i,
        {
            if self.entries[i].0 == pid {
                assert(self.table()[i as int].0 == pid);
                let prev = &self.entries[i];
                let merged = CgroupLimits {
                    cpu_quota: match cpu {
                        Some(v) => Some(v),
                        None => prev.1.cpu_quota,
                    },
                    memory_limit: match mem {
                        Some(v) => Some(v),
                        None => prev.1.memory_limit,
                    },
                    io_limit: match io {
                        Some(v) => Some(v),
                        None => prev.1.io_limit,
                    },
                };
                let ghost before = cgroup_view(self.entries@);
                self.entries.set(i, (pid, merged));
                proof {
                    assert(cgroup_view(self.entries@) =~= before.update(
                        i as int,
                        (pid, merge_limits(before[i as int].1, cpu, mem, io)),
                    ));
                }
                return ;
            }
            assert(self.table()[i as int].0 != pid);
            i = i + 1;
        }
        let fresh = CgroupLimits {
            cpu_quota: cpu,
            memory_limit: mem,
            io_limit: io,
        };
        let ghost before = cgroup_view(self.entries@);
        self.entries.push((pid, fresh));
        proof {
            assert(cgroup_view(self.entries@) =~= before.push(
                (pid, merge_limits((None, None, None), cpu, mem, io)),
            ));
        }
    }
}

/// Applying the same throttle twice leaves exactly the state one
/// application leaves: the writes overwrite identically.
pub proof fn lemma_throttle_idempotent(
    t: Seq<(u32, (Option<u64>, Option<u64>, Option<u64>))>,
    pid: u32,
    cpu: Option<u64>,
    mem: Option<u64>,
    io: Option<u64>,
)
    requires
        forall|a: int, b: int| 0 <= a < b < t.len() ==> (#[trigger] t[a]).0 != (#[trigger] t[b]).0,
    ensures
        spec_apply_throttle(spec_apply_throttle(t, pid, cpu, mem, io), pid, cpu, mem, io)
            == spec_apply_throttle(t, pid, cpu, mem, io),
{
    lemma_throttle_idem_from(t, pid, cpu, mem, io, 0);
}

proof fn lemma_throttle_idem_from(
    t: Seq<(u32, (Option<u64>, Option<u64>, Option<u64>))>,
    pid: u32,
    cpu: Option<u64>,
    mem: Option<u64>,
    io: Option<u64>,
    i: int,
)
    requires
        0 <= i <= t.len(),
        forall|a: int, b: int| 0 <= a < b < t.len() ==> (#[trigger] t[a]).0 != (#[trigger] t[b]).0,
        forall|j: int| 0 <= j < i ==> (#[trigger] t[j]).0 != pid,
    ensures
        spec_apply_from(spec_apply_from(t, pid, cpu, mem, io, i), pid, cpu, mem, io, 0)
            == spec_apply_from(t, pid, cpu, mem, io, i),
    decreases t.len() - i,
{
    let t1 = spec_apply_from(t, pid, cpu, mem, io, i);
    if i >= t.len() {
        // Appended: the second application finds the fresh entry and
        // merges the same limits into themselves.
        let fresh = merge_limits((None, None, None), cpu, mem, io);
        assert(t1 == t.push((pid, fresh)));
        lemma_apply_finds(t1, pid, cpu, mem, io, 0, t.len() as int);
        assert(merge_limits(fresh, cpu, mem, io) == fresh);
        assert(t1.update(t.len() as int, (pid, fresh)) =~= t1);
    } else if t[i].0 == pid {
        let merged = merge_limits(t[i].1, cpu, mem, io);
        assert(t1 == t.update(i, (pid, merged)));
        lemma_apply_finds(t1, pid, cpu, mem, io, 0, i);
        assert(merge_limits(merged, cpu, mem, io) == merged);
        assert(t1.update(i, (pid, merged)) =~= t1);
    } else {
        lemma_throttle_idem_from(t, pid, cpu, mem, io, i + 1);
    }
}

/// `spec_apply_from` lands exactly on the unique entry of the pid.
proof fn lemma_apply_finds(
    t: Seq<(u32, (Option<u64>, Option<u64>, Option<u64>))>,
    pid: u32,
    cpu: Option<u64>,
    mem: Option<u64>,
    io: Option<u64>,
    i: int,
    target: int,
)
    requires
        0 <= i <= target < t.len(),
        t[target].0 == pid,
        forall|j: int| 0 <= j < target ==> (#[trigger] t[j]).0 != pid,
    ensures
        spec_apply_from(t, pid, cpu, mem, io, i) == t.update(
            target,
            (pid, merge_limits(t[target].1, cpu, mem, io)),
        ),
    decreases t.len() - i,
{
    if i < target {
        lemma_apply_finds(t, pid, cpu, mem, io, i + 1, target);
    }
}

// ---------------------------------------------------------------------------
// Plan construction.
// ---------------------------------------------------------------------------

/// One successfully executed action of a plan.
pub struct ExecutedAction {
    pub action: String,
    pub result: String,
    pub priority: u8,
}

/// One failed action of a plan.
pub struct FailedAction {
    pub action: String,
    pub error: String,
    pub priority: u8,
}

/// The outcome of a whole plan.
pub struct FixResult {
    pub success: bool,
    pub message: String,
    pub executed_actions: Vec<ExecutedAction>,
    pub failed_actions: Vec<FailedAction>,
}

/// The recommendation texts that parse, in order, as `(action, priority)`
/// pairs, scanning from `i`.
pub open spec fn parsed_from(recs: Seq<Seq<char>>, i: int) -> Seq<(ActionModel, u8)>
    decreases recs.len() - i,
{
    if i < 0 || i >= recs.len() {
        Seq::empty()
    } else {
        match spec_from_recommendation(recs[i]) {
            Some(a) => seq![(a, spec_priority(a))] + parsed_from(recs, i + 1),
            None => parsed_from(recs, i + 1),
        }
    }
}

/// The plan ordering: ascending priority.
pub open spec fn plan_sorted(plan: Seq<(ActionModel, u8)>) -> bool {
    forall|a: int, b: int| 0 <= a < b < plan.len() ==> (#[trigger] plan[a]).1 <= (#[trigger] plan[b]).1
}

/// The subsequence of a plan carrying one priority, in plan order.
pub open spec fn with_priority(plan: Seq<(ActionModel, u8)>, p: u8) -> Seq<(ActionModel, u8)>
    decreases plan.len(),
{
    if plan.len() == 0 {
        Seq::empty()
    } else if plan[0].1 == p {
        seq![plan[0]] + with_priority(plan.drop_first(), p)
    } else {
        with_priority(plan.drop_first(), p)
    }
}

/// Removing an entry of another priority leaves a priority's subsequence
/// untouched.
proof fn lemma_wp_remove_other(s: Seq<(ActionModel, u8)>, mi: int, q: u8)
    requires
        0 <= mi < s.len(),
        s[mi].1 != q,
    ensures
        with_priority(s.remove(mi), q) == with_priority(s, q),
    decreases mi,
{
    if mi == 0 {
        assert(s.remove(0) =~= s.drop_first());
    } else {
        assert(s.remove(mi).drop_first() =~= s.drop_first().remove(mi - 1));
        lemma_wp_remove_other(s.drop_first(), mi - 1, q);
        assert(s.remove(mi)[0] == s[0]);
        if s[0].1 == q {
            assert(with_priority(s.remove(mi), q) == seq![s[0]] + with_priority(
                s.remove(mi).drop_first(),
                q,
            ));
        }
    }
}

/// Removing the first entry of a priority removes exactly the head of
/// that priority's subsequence.
proof fn lemma_wp_remove_first(s: Seq<(ActionModel, u8)>, mi: int)
    requires
        0 <= mi < s.len(),
        forall|j: int| 0 <= j < mi ==> (#[trigger] s[j]).1 != s[mi].1,
    ensures
        with_priority(s, s[mi].1) == seq![s[mi]] + with_priority(s.remove(mi), s[mi].1),
    decreases mi,
{
    let p = s[mi].1;
    if mi == 0 {
        assert(s.remove(0) =~= s.drop_first());
    } else {
        assert(s[0].1 != p);
        assert(s.remove(mi).drop_first() =~= s.drop_first().remove(mi - 1));
        assert(s.drop_first()[mi - 1] == s[mi]);
        lemma_wp_remove_first(s.drop_first(), mi - 1);
        assert(s.remove(mi)[0] == s[0]);
        assert(with_priority(s.remove(mi), p) == with_priority(s.remove(mi).drop_first(), p));
    }
}

/// Appending an entry extends only its own priority's subsequence.
proof fn lemma_wp_push(s: Seq<(ActionModel, u8)>, x: (ActionModel, u8), q: u8)
    ensures
        with_priority(s.push(x), q) == (if x.1 == q {
            with_priority(s, q).push(x)
        } else {
            with_priority(s, q)
        }),
    decreases s.len(),
{
    if s.len() == 0 {
        assert(s.push(x).drop_first() =~= Seq::<(ActionModel, u8)>::empty());
        assert(s.push(x)[0] == x);
        assert(with_priority(s.push(x).drop_first(), q) =~= Seq::<(ActionModel, u8)>::empty());
        if x.1 == q {
            assert(with_priority(s.push(x), q) =~= seq![x]);
            assert(with_priority(s, q).push(x) =~= seq![x]);
        } else {
            assert(with_priority(s.push(x), q) =~= Seq::<(ActionModel, u8)>::empty());
        }
    } else {
        assert(s.push(x).drop_first() =~= s.drop_first().push(x));
        lemma_wp_push(s.drop_first(), x, q);
        assert(s.push(x)[0] == s[0]);
        if s[0].1 == q {
            if x.1 == q {
                assert(seq![s[0]] + with_priority(s.drop_first(), q).push(x) =~= (seq![s[0]]
                    + with_priority(s.drop_first(), q)).push(x));
            }
        }
    }
}

/// The view of an executable plan.
pub open spec fn plan_view(plan: Seq<(ActionType, u8)>) -> Seq<(ActionModel, u8)> {
    plan.map_values(|p: (ActionType, u8)| (p.0@, p.1))
}

/// The plan builder.
pub struct FixEngine {
    executor: ActionExecutor,
}

impl FixEngine {
    pub fn new() -> (r: FixEngine) {
        FixEngine { executor: ActionExecutor::new() }
    }

    /// Parses recommendation texts into actions and orders them by
    /// priority, lowest first and stably: actions of equal priority keep
    /// the order their texts arrived in.  Texts that name no remedy are
    /// dropped.
    pub fn parse_recommendations(&self, recommendations: &Vec<String>) -> (r: Vec<(ActionType, u8)>)
        ensures
            plan_sorted(plan_view(r@)),
            plan_view(r@).to_multiset() == parsed_from(
                recommendations@.map_values(|s: String| s@),
                0,
            ).to_multiset(),
            forall|p: u8|
                #[trigger] with_priority(plan_view(r@), p) == with_priority(
                    parsed_from(recommendations@.map_values(|s: String| s@), 0),
                    p,
                ),
    {
        let ghost recs = recommendations@.map_values(|s: String| s@);
        let n = recommendations.len();
        let mut actions: Vec<(ActionType, u8)> = Vec::new();
        let mut i: usize = 0;
        while i < n
            invariant
                0 <= i <= n,
                n == recommendations@.len(),
                recs == recommendations@.map_values(|s: String| s@),
                parsed_from(recs, 0) == plan_view(actions@) + parsed_from(recs, i as int),
            decreases n - i,
        {
            let ghost before = plan_view(actions@);
            match ActionType::from_recommendation(recommendations[i].as_str()) {
                Some(a) => {
                    let p = a.priority();
                    let ghost am = a@;
                    actions.push((a, p));
                    proof {
                        assert(plan_view(actions@) =~= before.push((am, spec_priority(am))));
                        assert(before + (seq![(am, spec_priority(am))] + parsed_from(recs, i + 1))
                            =~= plan_view(actions@) + parsed_from(recs, i + 1));
                    }
                },
                None => {},
            }
            i = i + 1;
        }
        proof {
            assert(plan_view(actions@) =~= parsed_from(recs, 0));
        }

        // Selection sort on priority: each round takes the earliest entry
        // of minimal priority, which keeps equal priorities in arrival
        // order.
        let ghost unsorted = plan_view(actions@);
        let mut pending = actions;
        let mut sorted: Vec<(ActionType, u8)> = Vec::new();
        while pending.len() > 0
            invariant
                plan_view(pending@).to_multiset().add(plan_view(sorted@).to_multiset())
                    =~= unsorted.to_multiset(),
                plan_sorted(plan_view(sorted@)),
                forall|a: int, b: int|
                    0 <= a < sorted@.len() && 0 <= b < pending@.len() ==> (#[trigger] plan_view(
                        sorted@,
                    )[a]).1 <= (#[trigger] plan_view(pending@)[b]).1,
                forall|p: u8|
                    #[trigger] with_priority(unsorted, p) == with_priority(plan_view(sorted@), p)
                        + with_priority(plan_view(pending@), p),
            decreases pending@.len(),
        {
            let m = pending.len();
            let mut mi: usize = 0;
            let mut k: usize = 1;
            while k < m
                invariant
                    0 <= mi < k <= m,
                    m == pending@.len(),
                    forall|j: int|
                        0 <= j < k ==> (#[trigger] pending@[j]).1 >= pending@[mi as int].1,
                    forall|j: int|
                        0 <= j < mi ==> (#[trigger] pending@[j]).1 > pending@[mi as int].1,
                decreases m - k,
            {
                if pending[k].1 < pending[mi].1 {
                    mi = k;
                }
                k = k + 1;
            }
            let ghost pend0 = plan_view(pending@);
            let ghost sort0 = plan_view(sorted@);
            let picked = pending.remove(mi);
            let ghost pm = (picked.0@, picked.1);
            sorted.push(picked);
            proof {
                assert(plan_view(pending@) =~= pend0.remove(mi as int));
                assert(plan_view(pending@).to_multiset() =~= pend0.to_multiset().remove(
                    pend0[mi as int],
                ));
                assert(plan_view(sorted@) =~= sort0.push(pm));
                assert(plan_view(sorted@).to_multiset() =~= sort0.to_multiset().insert(pm));
                assert(pm == pend0[mi as int]);
                assert(plan_view(pending@).to_multiset().add(plan_view(sorted@).to_multiset())
                    =~= unsorted.to_multiset());
                assert forall|a: int, b: int|
                    0 <= a < sorted@.len() && 0 <= b < pending@.len() implies (#[trigger] plan_view(
                    sorted@,
                )[a]).1 <= (#[trigger] plan_view(pending@)[b]).1 by {
                    if b < mi {
                        assert(plan_view(pending@)[b] == pend0[b]);
                    } else {
                        assert(plan_view(pending@)[b] == pend0[b + 1]);
                    }
                    if a < sort0.len() {
                        assert(plan_view(sorted@)[a] == sort0[a]);
                    } else {
                        assert(plan_view(sorted@)[a] == pend0[mi as int]);
                    }
                }
                // Stability: the removed entry heads its own priority's
                // subsequence, and no other subsequence moves.
                assert forall|p: u8| #[trigger]
                    with_priority(unsorted, p) == with_priority(plan_view(sorted@), p)
                        + with_priority(plan_view(pending@), p) by {
                    lemma_wp_push(sort0, pm, p);
                    if p == pm.1 {
                        lemma_wp_remove_first(pend0, mi as int);
                        assert(with_priority(pend0, p) == seq![pm] + with_priority(
                            pend0.remove(mi as int),
                            p,
                        ));
                        assert(with_priority(unsorted, p) =~= with_priority(sort0, p) + (seq![pm]
                            + with_priority(pend0.remove(mi as int), p)));
                        assert(with_priority(sort0, p).push(pm) =~= with_priority(sort0, p)
                            + seq![pm]);
                        assert((with_priority(sort0, p) + seq![pm]) + with_priority(
                            pend0.remove(mi as int),
                            p,
                        ) =~= with_priority(sort0, p) + (seq![pm] + with_priority(
                            pend0.remove(mi as int),
                            p,
                        )));
                    } else {
                        lemma_wp_remove_other(pend0, mi as int, p);
                    }
                }
            }
        }
        proof {
            assert forall|p: u8| #[trigger]
                with_priority(plan_view(sorted@), p) == with_priority(unsorted, p) by {
                assert(with_priority(plan_view(pending@), p) =~= Seq::<(ActionModel, u8)>::empty());
                assert(with_priority(plan_view(sorted@), p) + Seq::<(ActionModel, u8)>::empty()
                    =~= with_priority(plan_view(sorted@), p));
            }
        }
        sorted
    }

    /// Folds per-action outcomes into a plan result: the plan succeeded
    /// exactly when nothing failed.  A failed action never erases its
    /// siblings' outcomes.
    pub fn summarize(
        &self,
        executed: Vec<ExecutedAction>,
        failed: Vec<FailedAction>,
        message: String,
    ) -> (r: FixResult)
        ensures
            r.success == (failed@.len() == 0),
            r.executed_actions@ == executed@,
            r.failed_actions@ == failed@,
            r.message == message,
    {
        let success = failed.len() == 0;
        FixResult { success, message, executed_actions: executed, failed_actions: failed }
    }
}

/// The actuator for host-level process cleanup; the host calls themselves
/// are issued outside the crate, against `kill_outcome`'s judgement.
pub struct SystemActuator;

impl SystemActuator {
    pub fn new() -> (r: SystemActuator) {
        SystemActuator
    }

    /// The actuator's registry name.
    pub fn name(&self) -> (r: &'static str)
        ensures
            r@ == "system"@,
    {
        "system"
    }
}

} // verus!
