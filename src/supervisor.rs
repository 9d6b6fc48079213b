use std::rc::Rc;
use vstd::prelude::*;

use crate::errors::SupervisorError;
use crate::limiter::{
    charged, counts_at, lemma_pruned_keeps_all, lemma_pruned_len, period_millis, RestartWindow,
};
use crate::records::{
    ChildRecord, find_index, find_pid, has_pid, is_running, lemma_push_wf,
    lemma_records_below_members, lemma_records_below_wf, lemma_remove_wf,
    lemma_running_between_members, position_of_index, running_between, running_in, table_wf,
};
use crate::restart::{
    ExitStatus, is_abnormal, fresh_between, lemma_fresh_between_ascending,
    lemma_fresh_between_members, needs_restart, plan_restart, records_left, remaining_records, restart_plan,
    stop_plan,
};
use crate::shutdown::StopOrder;

verus! {

/// The unit of work that a child process runs.
pub trait Supervisable {
    /// Whether the worker can be run.
    spec fn ready(&self) -> bool;

    /// Runs the worker; called in the child process.
    fn init(&self) -> Result<(), SupervisorError>
        requires
            self.ready(),
    ;

    /// Releases what the worker holds; called in the child process.
    fn finalize(&self) -> Result<(), SupervisorError>
        requires
            self.ready(),
    ;
}

/// Which children are restarted when one of them ends.
#[derive(Clone, Copy, Debug, PartialEq, Eq, Structural)]
pub enum Strategy {
    OneForOne,
    OneForAll,
    RestForOne,
    SimpleOneForOne,
}

/// When a child is restarted after it ends.
#[derive(Clone, Copy, Debug, PartialEq, Eq, Structural)]
pub enum ChildLifetime {
    Permanent,
    Temporary,
    Transient,
}

/// The role of a child: a plain worker or a nested supervisor.
#[derive(Clone, Copy, Debug, PartialEq, Eq, Structural)]
pub enum ProcessType {
    Worker,
    Supervisor,
}

/// How a child is stopped: killed at once, asked and awaited without limit,
/// or asked and killed after the given number of seconds.
#[derive(Clone, Copy, Debug, PartialEq, Eq, Structural)]
pub enum ShutdownType {
    BrutalKill,
    Infinity,
    Timeout(u64),
}

/// Validated supervisor flags: the strategy, and at most `intensity`
/// restarts within any `period` seconds.
#[derive(Clone, Copy, Debug, PartialEq, Eq, Structural)]
pub struct SupervisorFlags {
    strategy: Strategy,
    intensity: u64,
    period: u64,
}

impl SupervisorFlags {
    /// Flags with a period of zero are refused with `InvalidConfiguration`.
    pub fn new(strategy: Strategy, intensity: u64, period: u64) -> (r: Result<
        SupervisorFlags,
        SupervisorError,
    >)
        ensures
            period == 0 <==> r is Err,
            r matches Err(e) ==> e == SupervisorError::InvalidConfiguration,
            r matches Ok(f) ==> (f.wf() && f.spec_strategy() == strategy && f.spec_intensity()
                == intensity && f.spec_period() == period),
    {
        if period > 0 {
            Ok(SupervisorFlags { strategy, intensity, period })
        } else {
            Err(SupervisorError::InvalidConfiguration)
        }
    }

    pub open spec fn wf(&self) -> bool {
        self.spec_period() > 0
    }

    pub closed spec fn spec_strategy(&self) -> Strategy {
        self.strategy
    }

    /// The most restarts allowed within one period.
    pub closed spec fn spec_intensity(&self) -> u64 {
        self.intensity
    }

    /// The period, in seconds.
    pub closed spec fn spec_period(&self) -> u64 {
        self.period
    }

    pub fn strategy(&self) -> (r: Strategy)
        ensures
            r == self.spec_strategy(),
    {
        self.strategy
    }

    pub fn intensity(&self) -> (r: u64)
        ensures
            r == self.spec_intensity(),
    {
        self.intensity
    }

    pub fn period(&self) -> (r: u64)
        ensures
            r == self.spec_period(),
            self.wf() ==> r > 0,
    {
        self.period
    }
}

/// The description of one supervised child, running the worker `W`.
pub struct ChildSpecs<W> {
    pub id: String,
    pub child: Rc<W>,
    pub restart: ChildLifetime,
    pub shutdown: ShutdownType,
    pub process_type: ProcessType,
}

impl<W> ChildSpecs<W> {
    pub fn new(
        id: &str,
        child: Rc<W>,
        restart: ChildLifetime,
        shutdown: ShutdownType,
        process_type: ProcessType,
    ) -> (r: ChildSpecs<W>)
        ensures
            r.id@ == id@,
            r.child == child,
            r.restart == restart,
            r.shutdown == shutdown,
            r.process_type == process_type,
    {
        ChildSpecs { id: id.to_string(), child, restart, shutdown, process_type }
    }
}

/// The phases of a supervisor, in the order it goes through them.
#[derive(Clone, Copy, Debug, PartialEq, Eq, Structural)]
pub enum Phase {
    Starting,
    Running,
    ShuttingDown,
    Terminated,
}

/// What the supervisor decided on the end of a child.
pub enum ExitDecision {
    /// The process id belongs to no running child; nothing changed.
    Untracked,
    /// The child is not restarted; its siblings run on.
    Dropped,
    /// Stop these children, in order, then launch these specifications, in
    /// order.
    Restart { stop: Vec<StopOrder>, start: Vec<usize> },
    /// The restart intensity was exceeded: stop every child, then end with
    /// `RestartIntensityExceeded`.
    Escalate { stop: Vec<StopOrder> },
}

/// What one wait for the children observed.
#[derive(Clone, Copy, Debug, PartialEq, Eq, Structural)]
pub enum WaitEvent {
    /// The child `pid` ended.
    Exited(i32, ExitStatus),
    /// The wait's timeout passed.
    TimedOut,
    /// The host asked the supervisor to stop.
    Interrupted,
    /// Waiting failed.
    Failed,
}

/// The error that an event ends the supervisor with, if any.
pub open spec fn end_cause_spec(ev: WaitEvent) -> Option<SupervisorError> {
    match ev {
        WaitEvent::Interrupted => Some(SupervisorError::Interrupted),
        WaitEvent::Failed => Some(SupervisorError::WaitFailed),
        _ => None,
    }
}

/// The error that an event ends the supervisor with, if it ends it at all:
/// an interrupt, or a failed wait, after which the view of the children can
/// no longer be trusted.
pub fn end_cause(ev: &WaitEvent) -> (r: Option<SupervisorError>)
    ensures
        r == end_cause_spec(*ev),
{
    match ev {
        WaitEvent::Interrupted => Some(SupervisorError::Interrupted),
        WaitEvent::Failed => Some(SupervisorError::WaitFailed),
        _ => None,
    }
}

/// What the host reports to the supervisor.
pub enum Event {
    /// The run begins.
    Begin,
    /// The launch asked for made the process `pid`.
    Launched(i32),
    /// The launch asked for failed.
    LaunchFailed,
    /// A wait for the children observed this.
    Waited(WaitEvent),
    /// The stops asked for are done: whether an interrupt came meanwhile, or
    /// the error that waiting met.
    StopsDone(Result<bool, SupervisorError>),
}

/// What the supervisor asks the host to do next.
pub enum Action {
    /// Launch the specification at this index, then report `Launched` or
    /// `LaunchFailed`.
    Launch(usize),
    /// Stop these children, each by its policy and in order, until all are
    /// reaped, then report `StopsDone`.
    Stop(Vec<StopOrder>),
    /// Wait without limit for the next event, then report `Waited`.
    Wait,
    /// The run is over, with this result.
    Finish(Result<(), SupervisorError>),
}

/// The position of a phase in the order that a supervisor goes through.
pub open spec fn phase_rank(p: Phase) -> int {
    match p {
        Phase::Starting => 0,
        Phase::Running => 1,
        Phase::ShuttingDown => 2,
        Phase::Terminated => 3,
    }
}

/// The result of a run that ends with `outcome`.
pub open spec fn result_of(outcome: Option<SupervisorError>) -> Result<(), SupervisorError> {
    match outcome {
        Some(e) => Err(e),
        None => Ok(()),
    }
}

/// The position of the record with process id `pid`.
pub open spec fn position_of_pid(recs: Seq<ChildRecord>, pid: i32) -> int {
    choose|i: int| 0 <= i < recs.len() && #[trigger] recs[i].pid == pid
}

/// The orders that stop the running specifications `idxs`, in order: each
/// with its own shutdown policy, or with an immediate kill when `force`.
pub open spec fn stop_orders(
    recs: Seq<ChildRecord>,
    shutdowns: Seq<ShutdownType>,
    idxs: Seq<usize>,
    force: bool,
) -> Seq<StopOrder> {
    idxs.map_values(
        |j: usize|
            StopOrder {
                pid: recs[position_of_index(recs, j as int)].pid,
                policy: if force {
                    ShutdownType::BrutalKill
                } else {
                    shutdowns[j as int]
                },
            },
    )
}

/// The table once specification `j` is gone: later indices move down one.
pub open spec fn shifted_down(recs: Seq<ChildRecord>, j: int) -> Seq<ChildRecord> {
    recs.map_values(
        |r: ChildRecord|
            if r.spec_index > j {
                ChildRecord { spec_index: (r.spec_index - 1) as usize, pid: r.pid, started_at: r.started_at }
            } else {
                r
            },
    )
}

/// Whether each index of `s` can be launched: it names a specification that
/// neither runs nor is retired, and occurs once.
pub open spec fn launchable(s: Seq<usize>, recs: Seq<ChildRecord>, retired: Seq<bool>, n: int) -> bool {
    &&& forall|t: int|
        0 <= t < s.len() ==> #[trigger] s[t] < n && !retired[s[t] as int] && !is_running(
            recs,
            s[t] as int,
        )
    &&& forall|a: int, b: int| 0 <= a < b < s.len() ==> #[trigger] s[a] != #[trigger] s[b]
}

/// The indices `0..n`, ascending.
pub open spec fn all_indices(n: int) -> Seq<usize> {
    Seq::new(n as nat, |i: int| i as usize)
}

/// Whether no two specifications share an id.
pub open spec fn ids_unique(ids: Seq<Seq<char>>) -> bool {
    forall|i: int, j: int| 0 <= i < j < ids.len() ==> ids[i] != ids[j]
}

/// A supervisor: the children's specifications, the table of the children
/// that run, and the restarts made lately.
pub struct Supervisor<W> {
    flags: SupervisorFlags,
    child_specs: Vec<ChildSpecs<W>>,
    child_records: Vec<ChildRecord>,
    window: RestartWindow,
    phase: Phase,
    retired: Vec<bool>,
    pending: Vec<usize>,
    outcome: Option<SupervisorError>,
}

/// The orders that stop the running specifications `idxs`.
fn make_orders<W>(
    recs: &Vec<ChildRecord>,
    specs: &Vec<ChildSpecs<W>>,
    idxs: &Vec<usize>,
    force: bool,
) -> (r: Vec<StopOrder>)
    requires
        table_wf(recs@, specs@.len() as int),
        forall|t: int|
            0 <= t < idxs@.len() ==> #[trigger] idxs@[t] < specs@.len() && is_running(
                recs@,
                idxs@[t] as int,
            ),
    ensures
        r@ == stop_orders(recs@, specs@.map_values(|c: ChildSpecs<W>| c.shutdown), idxs@, force),
{
    let ghost shutdowns = specs@.map_values(|c: ChildSpecs<W>| c.shutdown);
    let mut out: Vec<StopOrder> = Vec::new();
    let mut i: usize = 0;
    while i < idxs.len()
        invariant
            i <= idxs@.len(),
            table_wf(recs@, specs@.len() as int),
            shutdowns == specs@.map_values(|c: ChildSpecs<W>| c.shutdown),
            forall|t: int|
                0 <= t < idxs@.len() ==> #[trigger] idxs@[t] < specs@.len() && is_running(
                    recs@,
                    idxs@[t] as int,
                ),
            out@ =~= stop_orders(recs@, shutdowns, idxs@.subrange(0, i as int), force),
        decreases idxs@.len() - i,
    {
        let j = idxs[i];
        assert(idxs@[i as int] == j);
        if let Some(p) = find_index(recs, j) {
            let ghost q = position_of_index(recs@, j as int);
            assert(recs@[q].spec_index == j);
            let policy = if force {
                ShutdownType::BrutalKill
            } else {
                specs[j].shutdown
            };
            out.push(StopOrder { pid: recs[p].pid, policy });
        }
        assert(idxs@.subrange(0, i + 1) =~= idxs@.subrange(0, i as int).push(j));
        i = i + 1;
    }
    assert(idxs@.subrange(0, idxs@.len() as int) =~= idxs@);
    out
}

impl<W> Supervisor<W> {
    pub closed spec fn flags(&self) -> SupervisorFlags {
        self.flags
    }

    /// The number of specifications.
    pub closed spec fn n(&self) -> int {
        self.child_specs.len() as int
    }

    /// The specifications, in declaration order.
    pub closed spec fn specs(&self) -> Seq<ChildSpecs<W>> {
        self.child_specs@
    }

    /// For each specification, whether it is retired: its child was
    /// temporary and has ended, so it is never launched again.
    pub closed spec fn retired(&self) -> Seq<bool> {
        self.retired@
    }

    /// The specifications still to launch, in order.
    pub closed spec fn pending(&self) -> Seq<usize> {
        self.pending@
    }

    /// The error that the run is to end with, once shutting down.
    pub closed spec fn outcome(&self) -> Option<SupervisorError> {
        self.outcome
    }

    pub closed spec fn lifetimes(&self) -> Seq<ChildLifetime> {
        self.child_specs@.map_values(|c: ChildSpecs<W>| c.restart)
    }

    pub closed spec fn shutdowns(&self) -> Seq<ShutdownType> {
        self.child_specs@.map_values(|c: ChildSpecs<W>| c.shutdown)
    }

    pub closed spec fn ids(&self) -> Seq<Seq<char>> {
        self.child_specs@.map_values(|c: ChildSpecs<W>| c.id@)
    }

    /// The table of the children that run.
    pub closed spec fn records(&self) -> Seq<ChildRecord> {
        self.child_records@
    }

    /// The times of the restarts made lately.
    pub closed spec fn window(&self) -> Seq<u64> {
        self.window@
    }

    pub closed spec fn phase(&self) -> Phase {
        self.phase
    }

    /// Valid flags; one entry per specification in each of its views; a
    /// well-formed table, empty once shutting down, where no retired
    /// specification runs.
    pub open spec fn wf(&self) -> bool {
        &&& self.flags().wf()
        &&& self.specs().len() == self.n()
        &&& self.lifetimes().len() == self.n()
        &&& self.shutdowns().len() == self.n()
        &&& self.ids().len() == self.n()
        &&& self.retired().len() == self.n()
        &&& table_wf(self.records(), self.n())
        &&& forall|j: int| 0 <= j < self.n() && #[trigger] self.retired()[j] ==> !is_running(self.records(), j)
        &&& (self.phase() is ShuttingDown || self.phase() is Terminated) ==> self.records().len()
            == 0 && self.pending().len() == 0
        &&& self.phase() is ShuttingDown ==> self.outcome() is Some
        &&& self.phase() is Starting ==> forall|j: int| 0 <= j < self.n() ==> !#[trigger] self.retired()[j]
        &&& launchable(self.pending(), self.records(), self.retired(), self.n())
    }

    /// A supervisor of `specs` that has launched nothing yet.
    pub fn new(flags: SupervisorFlags, specs: Vec<ChildSpecs<W>>) -> (r: Supervisor<W>)
        ensures
            r.flags() == flags,
            r.n() == specs@.len(),
            r.specs() == specs@,
            r.retired() == Seq::new(specs@.len(), |j: int| false),
            r.pending() == Seq::<usize>::empty(),
            r.outcome() is None,
            r.lifetimes() == specs@.map_values(|c: ChildSpecs<W>| c.restart),
            r.shutdowns() == specs@.map_values(|c: ChildSpecs<W>| c.shutdown),
            r.ids() == specs@.map_values(|c: ChildSpecs<W>| c.id@),
            r.records() == Seq::<ChildRecord>::empty(),
            r.window() == Seq::<u64>::empty(),
            r.phase() == Phase::Starting,
            flags.wf() ==> r.wf(),
    {
        let n = specs.len();
        let mut retired: Vec<bool> = Vec::new();
        let mut j: usize = 0;
        while j < n
            invariant
                j <= n,
                retired@ =~= Seq::new(j as nat, |i: int| false),
            decreases n - j,
        {
            retired.push(false);
            j = j + 1;
        }
        Supervisor {
            flags,
            child_specs: specs,
            child_records: Vec::new(),
            window: RestartWindow::new(),
            phase: Phase::Starting,
            retired,
            pending: Vec::new(),
            outcome: None,
        }
    }

    /// Fails with `DuplicateChildId` exactly when two specifications share an
    /// id.
    pub fn check_ids(&self) -> (r: Result<(), SupervisorError>)
        ensures
            r is Ok <==> ids_unique(self.ids()),
            r matches Err(e) ==> e == SupervisorError::DuplicateChildId,
    {
        let n = self.child_specs.len();
        let mut i: usize = 0;
        while i < n
            invariant
                n == self.child_specs@.len(),
                i <= n,
                forall|a: int, b: int| 0 <= a < i && a < b < n ==> self.ids()[a] != self.ids()[b],
            decreases n - i,
        {
            let mut j: usize = i + 1;
            while j < n
                invariant
                    n == self.child_specs@.len(),
                    i < n,
                    i + 1 <= j <= n,
                    forall|a: int, b: int|
                        0 <= a < i && a < b < n ==> self.ids()[a] != self.ids()[b],
                    forall|b: int| i < b < j ==> self.ids()[i as int] != self.ids()[b],
                decreases n - j,
            {
                if self.child_specs[i].id == self.child_specs[j].id {
                    assert(self.ids()[i as int] == self.ids()[j as int]);
                    return Err(SupervisorError::DuplicateChildId);
                }
                j = j + 1;
            }
            i = i + 1;
        }
        Ok(())
    }

    /// Records that specification `spec_index` was launched as `pid` at
    /// `now` (milliseconds of a monotonic clock).
    pub fn child_started(&mut self, spec_index: usize, pid: i32, now: u64)
        requires
            old(self).wf(),
            old(self).phase() is Starting || old(self).phase() is Running,
            spec_index < old(self).n(),
            !is_running(old(self).records(), spec_index as int),
            !has_pid(old(self).records(), pid),
            !old(self).retired()[spec_index as int],
            forall|t: int| 0 <= t < old(self).pending().len() ==> #[trigger] old(self).pending()[t] != spec_index,
        ensures
            final(self).pending() == old(self).pending(),
            final(self).outcome() == old(self).outcome(),
            final(self).wf(),
            final(self).retired() == old(self).retired(),
            final(self).records() == old(self).records().push(
                ChildRecord { spec_index, pid, started_at: now },
            ),
            final(self).same_settings(old(self)),
            final(self).window() == old(self).window(),
            final(self).phase() == old(self).phase(),
    {
        let rec = ChildRecord { spec_index, pid, started_at: now };
        proof {
            lemma_push_wf(self.child_records@, rec, self.child_specs@.len() as int);
            let recs = self.child_records@.push(rec);
            assert forall|x: int| 0 <= x < self.n() && x != spec_index && is_running(recs, x) implies is_running(
                self.child_records@,
                x,
            ) by {
                let i = choose|i: int| 0 <= i < recs.len() && #[trigger] recs[i].spec_index == x;
                assert(i < self.child_records@.len());
                assert(self.child_records@[i] == recs[i]);
            }
        }
        self.child_records.push(rec);
    }

    /// The specification that the child `pid` runs.
    pub open spec fn index_of_pid(&self, pid: i32) -> int {
        self.records()[position_of_pid(self.records(), pid)].spec_index as int
    }

    /// The table without the child `pid`.
    pub open spec fn records_without(&self, pid: i32) -> Seq<ChildRecord> {
        self.records().remove(position_of_pid(self.records(), pid))
    }

    /// Whether the child `pid`, ended with `status`, is to be restarted.
    pub open spec fn exit_restarts(&self, pid: i32, status: ExitStatus) -> bool {
        needs_restart(self.lifetimes()[self.index_of_pid(pid)], status)
    }

    /// The specifications launched again after `pid` ended with `status`.
    pub open spec fn exit_starts(&self, pid: i32, status: ExitStatus) -> Seq<usize> {
        restart_plan(
            self.flags().spec_strategy(),
            self.n(),
            self.index_of_pid(pid),
            self.exit_restarts(pid, status),
            self.retired(),
        )
    }

    /// The children stopped after `pid` ended with `status`.
    pub open spec fn exit_stops(&self, pid: i32, status: ExitStatus) -> Seq<usize> {
        stop_plan(
            self.flags().spec_strategy(),
            self.n(),
            self.records_without(pid),
            self.index_of_pid(pid),
            self.exit_restarts(pid, status),
        )
    }

    /// Handles the end of child `pid` with `status` at `now`. A child that
    /// needs no restart leaves the table and nothing else changes. Otherwise
    /// the restarts of the plan are charged to the window: within the
    /// intensity, the children of the plan leave the table and the decision
    /// says what to stop and what to launch; beyond it, every child leaves
    /// the table, to be stopped, and the supervisor shuts down.
    pub fn child_exited(&mut self, pid: i32, status: ExitStatus, now: u64) -> (r: ExitDecision)
        requires
            old(self).pending().len() == 0,
            old(self).wf(),
            old(self).phase() is Running,
        ensures
            final(self).wf(),
            final(self).same_settings(old(self)),
            !has_pid(old(self).records(), pid) ==> r is Untracked && final(self).records()
                == old(self).records() && final(self).window() == old(self).window()
                && final(self).phase() == old(self).phase(),
            has_pid(old(self).records(), pid) && !old(self).exit_restarts(pid, status) ==> {
                &&& r is Dropped
                &&& final(self).records() == old(self).records_without(pid)
                &&& final(self).window() == old(self).window()
                &&& final(self).phase() == old(self).phase()
            },
            has_pid(old(self).records(), pid) && old(self).exit_restarts(pid, status) ==> {
                &&& final(self).window() == charged(
                    old(self).window(),
                    old(self).exit_starts(pid, status).len(),
                    now,
                    period_millis(old(self).flags().spec_period()),
                )
                &&& final(self).window().len() <= old(self).flags().spec_intensity() ==> {
                    &&& r matches ExitDecision::Restart { stop, start } && stop@ == stop_orders(
                        old(self).records_without(pid),
                        old(self).shutdowns(),
                        old(self).exit_stops(pid, status),
                        false,
                    ) && start@ == old(self).exit_starts(pid, status)
                    &&& final(self).records() == records_left(
                        old(self).flags().spec_strategy(),
                        old(self).records_without(pid),
                        old(self).index_of_pid(pid),
                        true,
                    )
                    &&& final(self).phase() == old(self).phase()
                }
                &&& final(self).window().len() > old(self).flags().spec_intensity() ==> {
                    &&& r matches ExitDecision::Escalate { stop } && stop@ == stop_orders(
                        old(self).records_without(pid),
                        old(self).shutdowns(),
                        running_between(old(self).records_without(pid), 0, old(self).n()),
                        false,
                    )
                    &&& final(self).records() == Seq::<ChildRecord>::empty()
                    &&& final(self).phase() == Phase::ShuttingDown
                }
            },
            !has_pid(old(self).records(), pid) ==> final(self).retired() == old(self).retired(),
            final(self).pending().len() == 0,
            final(self).outcome() == (if final(self).phase() is ShuttingDown {
                Some(SupervisorError::RestartIntensityExceeded)
            } else {
                old(self).outcome()
            }),
            final(self).phase() is ShuttingDown || final(self).phase() == old(self).phase(),
            r matches ExitDecision::Restart { start, .. } ==> (start@.len() > 0 && forall|a: int, b: int|
                0 <= a < b < start@.len() ==> #[trigger] start@[a] != #[trigger] start@[b]),
            has_pid(old(self).records(), pid) ==> final(self).retired() == (if old(self).lifetimes()[old(self).index_of_pid(pid)] is Temporary {
                old(self).retired().update(old(self).index_of_pid(pid), true)
            } else {
                old(self).retired()
            }),
            r matches ExitDecision::Restart { start, .. } ==> forall|t: int|
                0 <= t < start@.len() ==> #[trigger] start@[t] < final(self).n() && !is_running(
                    final(self).records(),
                    start@[t] as int,
                ) && !final(self).retired()[start@[t] as int],
    {
        let n = self.child_specs.len();
        let pos = match find_pid(&self.child_records, pid) {
            None => {
                return ExitDecision::Untracked;
            },
            Some(p) => p,
        };
        let ghost old_recs = self.child_records@;
        proof {
            let q = position_of_pid(old_recs, pid);
            assert(old_recs[q].pid == pid);
            lemma_remove_wf(old_recs, pos as int, n as int);
        }
        let rec = self.child_records.remove(pos);
        let k = rec.spec_index;
        assert(self.lifetimes()[k as int] == self.child_specs@[k as int].restart);
        let restart = self.child_specs[k].restart.restarts_after(status);
        if !restart {
            if self.child_specs[k].restart == ChildLifetime::Temporary {
                self.retired.set(k, true);
            }
            return ExitDecision::Dropped;
        }
        let plan = plan_restart(self.flags.strategy, n, &self.child_records, k, true, &self.retired);
        let within = self.window.charge(
            plan.to_restart.len(),
            now,
            self.flags.period,
            self.flags.intensity,
        );
        if within {
            proof {
                lemma_running_between_members(self.child_records@, 0, n as int);
                lemma_running_between_members(self.child_records@, k + 1, n as int);
                lemma_fresh_between_members(self.retired@, 0, n as int);
                lemma_fresh_between_members(self.retired@, k as int, n as int);
                lemma_fresh_between_ascending(self.retired@, 0, n as int);
                lemma_fresh_between_ascending(self.retired@, k as int, n as int);
                assert(old_recs[pos as int].spec_index == k);
                assert(is_running(old_recs, k as int));
                assert(!self.retired@[k as int]);
                assert(fresh_between(self.retired@, 0, n as int).contains((k as int) as usize));
                assert(fresh_between(self.retired@, k as int, n as int).contains((k as int) as usize));
            }
            let stop = make_orders(&self.child_records, &self.child_specs, &plan.to_stop, false);
            let left = remaining_records(self.flags.strategy, &self.child_records, k, true);
            proof {
                lemma_records_below_wf(self.child_records@, k + 1, n as int);
                lemma_records_below_members(self.child_records@, k + 1);
                let rest = self.child_records@;
                assert forall|j: int| 0 <= j < n && #[trigger] self.retired@[j] implies !is_running(
                    left@,
                    j,
                ) by {
                    if is_running(left@, j) {
                        let i = choose|i: int| 0 <= i < left@.len() && #[trigger] left@[i].spec_index
                            == j;
                        if self.flags.strategy is RestForOne {
                            assert(left@.contains(left@[i]));
                            assert(rest.contains(left@[i]));
                            let q = choose|q: int| 0 <= q < rest.len() && rest[q] == left@[i];
                            assert(rest[q].spec_index == j);
                        }
                    }
                }
                assert forall|t: int| 0 <= t < plan.to_restart@.len() implies !is_running(
                    left@,
                    #[trigger] plan.to_restart@[t] as int,
                ) by {
                    let j = plan.to_restart@[t] as int;
                    if is_running(left@, j) {
                        let i = choose|i: int| 0 <= i < left@.len() && #[trigger] left@[i].spec_index
                            == j;
                        if self.flags.strategy is RestForOne {
                            assert(left@.contains(left@[i]));
                            assert(rest.contains(left@[i]));
                        }
                    }
                }
            }
            self.child_records = left;
            ExitDecision::Restart { stop, start: plan.to_restart }
        } else {
            let all = running_in(&self.child_records, 0, n);
            proof {
                lemma_running_between_members(self.child_records@, 0, n as int);
            }
            let stop = make_orders(&self.child_records, &self.child_specs, &all, false);
            self.child_records = Vec::new();
            self.pending = Vec::new();
            self.phase = Phase::ShuttingDown;
            self.outcome = Some(SupervisorError::RestartIntensityExceeded);
            ExitDecision::Escalate { stop }
        }
    }

    /// Adds a specification to the pool of a simple-one-for-one supervisor
    /// and returns its index, for the caller to launch; other strategies
    /// have a fixed set of children and refuse it.
    pub fn add_child(&mut self, spec: ChildSpecs<W>) -> (r: Result<usize, SupervisorError>)
        requires
            old(self).wf(),
        ensures
            final(self).wf(),
            final(self).records() == old(self).records(),
            final(self).window() == old(self).window(),
            final(self).phase() == old(self).phase(),
            final(self).flags() == old(self).flags(),
            (r is Ok) <==> (old(self).flags().spec_strategy() is SimpleOneForOne),
            r matches Ok(j) ==> {
                &&& j == old(self).n()
                &&& final(self).n() == old(self).n() + 1
                &&& final(self).lifetimes() == old(self).lifetimes().push(spec.restart)
                &&& final(self).shutdowns() == old(self).shutdowns().push(spec.shutdown)
                &&& final(self).ids() == old(self).ids().push(spec.id@)
                &&& final(self).specs() == old(self).specs().push(spec)
                &&& final(self).retired() == old(self).retired().push(false)
            },
            r matches Err(e) ==> e == SupervisorError::InvalidConfiguration && final(self).same_settings(old(self))
                && final(self).retired() == old(self).retired(),
    {
        if self.flags.strategy != Strategy::SimpleOneForOne {
            return Err(SupervisorError::InvalidConfiguration);
        }
        let j = self.child_specs.len();
        let ghost before = self.child_specs@;
        self.child_specs.push(spec);
        self.retired.push(false);
        proof {
            assert(self.lifetimes() =~= before.map_values(|c: ChildSpecs<W>| c.restart).push(
                spec.restart,
            ));
            assert(self.shutdowns() =~= before.map_values(|c: ChildSpecs<W>| c.shutdown).push(
                spec.shutdown,
            ));
            assert(self.ids() =~= before.map_values(|c: ChildSpecs<W>| c.id@).push(spec.id@));
        }
        Ok(j)
    }

    /// Removes specification `j` from the pool of a simple-one-for-one
    /// supervisor. Its child, if one runs, leaves the table and the order
    /// that stops it is returned; the children of later specifications move
    /// down one index. Other strategies, and an index out of range, are
    /// refused.
    #[verifier::rlimit(50)]
    pub fn delete_child(&mut self, j: usize) -> (r: Result<Option<StopOrder>, SupervisorError>)
        requires
            old(self).pending().len() == 0,
            old(self).wf(),
        ensures
            final(self).wf(),
            final(self).window() == old(self).window(),
            final(self).phase() == old(self).phase(),
            final(self).flags() == old(self).flags(),
            (r is Ok) <==> (old(self).flags().spec_strategy() is SimpleOneForOne && j < old(self).n()),
            (r is Ok) ==> {
                &&& final(self).n() == old(self).n() - 1
                &&& final(self).lifetimes() == old(self).lifetimes().remove(j as int)
                &&& final(self).shutdowns() == old(self).shutdowns().remove(j as int)
                &&& final(self).ids() == old(self).ids().remove(j as int)
                &&& final(self).specs() == old(self).specs().remove(j as int)
                &&& final(self).retired() == old(self).retired().remove(j as int)
            },
            r matches Ok(None) ==> !is_running(old(self).records(), j as int) && final(self).records() == shifted_down(old(self).records(), j as int),
            r matches Ok(Some(o)) ==> is_running(old(self).records(), j as int) && o == (StopOrder {
                pid: old(self).records()[position_of_index(old(self).records(), j as int)].pid,
                policy: old(self).shutdowns()[j as int],
            }) && final(self).records() == shifted_down(
                old(self).records().remove(position_of_index(old(self).records(), j as int)),
                j as int,
            ),
            r matches Err(e) ==> e == SupervisorError::InvalidConfiguration && final(self).records() == old(self).records() && final(self).same_settings(old(self)),
            r is Err ==> final(self).retired() == old(self).retired(),
    {
        if self.flags.strategy != Strategy::SimpleOneForOne || j >= self.child_specs.len() {
            return Err(SupervisorError::InvalidConfiguration);
        }
        let n = self.child_specs.len();
        let ghost recs0 = self.child_records@;
        let order = match find_index(&self.child_records, j) {
            Some(p) => {
                proof {
                    let q = position_of_index(recs0, j as int);
                    assert(recs0[q].spec_index == j);
                    lemma_remove_wf(recs0, p as int, n as int);
                }
                let rec = self.child_records.remove(p);
                Some(StopOrder { pid: rec.pid, policy: self.child_specs[j].shutdown })
            },
            None => None,
        };
        let ghost recs1 = self.child_records@;
        assert(table_wf(recs1, n as int));
        assert(!is_running(recs1, j as int));
        let mut shifted: Vec<ChildRecord> = Vec::new();
        let mut i: usize = 0;
        while i < self.child_records.len()
            invariant
                i <= recs1.len(),
                self.child_records@ == recs1,
                shifted@ =~= shifted_down(recs1.subrange(0, i as int), j as int),
            decreases recs1.len() - i,
        {
            let r = self.child_records[i];
            if r.spec_index > j {
                shifted.push(
                    ChildRecord { spec_index: r.spec_index - 1, pid: r.pid, started_at: r.started_at },
                );
            } else {
                shifted.push(r);
            }
            i = i + 1;
        }
        assert(recs1.subrange(0, recs1.len() as int) =~= recs1);
        let ghost before = self.child_specs@;
        let ghost ret0 = self.retired@;
        self.child_specs.remove(j);
        self.retired.remove(j);
        proof {
            let sh = shifted@;
            let ret1 = self.retired@;
            assert forall|a: int| 0 <= a < n - 1 && #[trigger] ret1[a] implies !is_running(sh, a) by {
                let b = if a < j { a } else { a + 1 };
                assert(ret0[b]);
                if is_running(sh, a) {
                    let i = choose|i: int| 0 <= i < sh.len() && #[trigger] sh[i].spec_index == a;
                    assert(recs1[i].spec_index != j);
                    assert(recs1[i].spec_index == b);
                    assert(is_running(recs0, b)) by {
                        if order is Some {
                            let p = position_of_index(recs0, j as int);
                            assert(recs0[if i < p { i } else { i + 1 }] == recs1[i]);
                        } else {
                            assert(recs0 == recs1);
                        }
                    }
                }
            }
            let sh = shifted@;
            assert forall|a: int| 0 <= a < sh.len() implies #[trigger] sh[a].spec_index < n - 1 by {
                assert(recs1[a].spec_index != j);
            }
            assert forall|a: int, b: int|
                0 <= a < sh.len() && 0 <= b < sh.len() && a != b implies #[trigger] sh[a].spec_index
                != #[trigger] sh[b].spec_index && sh[a].pid != sh[b].pid by {
                assert(recs1[a].spec_index != j);
                assert(recs1[b].spec_index != j);
                assert(recs1[a].spec_index != recs1[b].spec_index);
            }
            assert(self.lifetimes() =~= before.map_values(|c: ChildSpecs<W>| c.restart).remove(
                j as int,
            ));
            assert(self.shutdowns() =~= before.map_values(|c: ChildSpecs<W>| c.shutdown).remove(
                j as int,
            ));
            assert(self.ids() =~= before.map_values(|c: ChildSpecs<W>| c.id@).remove(j as int));
        }
        self.child_records = shifted;
        Ok(order)
    }

    /// The next action once the state has changed: the end of a shutdown,
    /// the next pending launch, the end of a tree with no child left, or a
    /// wait.
    fn advance(&mut self) -> (r: Action)
        requires
            old(self).wf(),
            !(old(self).phase() is Terminated),
        ensures
            final(self).wf(),
            final(self).same_settings(old(self)),
            final(self).records() == old(self).records(),
            final(self).window() == old(self).window(),
            final(self).retired() == old(self).retired(),
            final(self).outcome() == old(self).outcome(),
            final(self).pending() == old(self).pending(),
            final(self).advanced(old(self).phase(), r),
    {
        if self.phase == Phase::ShuttingDown {
            self.phase = Phase::Terminated;
            return Action::Finish(
                match self.outcome {
                    Some(e) => Err(e),
                    None => Ok(()),
                },
            );
        }
        if self.pending.len() > 0 {
            return Action::Launch(self.pending[0]);
        }
        if self.phase == Phase::Starting {
            self.phase = Phase::Running;
        }
        if self.child_records.len() == 0 {
            self.phase = Phase::Terminated;
            return Action::Finish(Ok(()));
        }
        Action::Wait
    }

    /// What comes once the state has settled, from phase `before`: a
    /// shutdown ends with its outcome; otherwise the next pending launch; with
    /// nothing to launch, the end of the run with `Ok` when no child runs,
    /// and else a wait, the tree now running.
    pub open spec fn advanced(&self, before: Phase, r: Action) -> bool {
        if before is ShuttingDown {
            &&& r matches Action::Finish(res) && res == result_of(self.outcome())
            &&& self.phase() is Terminated
        } else if self.pending().len() > 0 {
            &&& r matches Action::Launch(j) && j == self.pending()[0]
            &&& self.phase() == before
        } else if self.records().len() == 0 {
            &&& r matches Action::Finish(res) && res == Ok::<(), SupervisorError>(())
            &&& self.phase() is Terminated
        } else {
            &&& r is Wait
            &&& self.phase() is Running
        }
    }

    /// The decision for one event: the host performs the action returned
    /// and reports what came of it, from `Begin` until `Finish`. `now` is the
    /// time of the event, in milliseconds of a monotonic clock.
    ///
    /// The specifications are launched in declaration order, then the
    /// children's ends are handled as `child_exited` says. A run ends with
    /// `Ok` only where no child runs and none is left to launch. A launch
    /// that fails, an interrupt, a failed wait and an exceeded restart
    /// intensity each stop every child and then end the run with their
    /// error; an interrupt while children are stopped for a restart abandons
    /// the launches not yet made. The phase only moves forward.
    pub fn step(&mut self, ev: Event, now: u64) -> (r: Action)
        requires
            old(self).wf(),
            !(old(self).phase() is Terminated),
            ev is Begin ==> old(self).phase() is Starting && old(self).records().len() == 0
                && old(self).pending().len() == 0,
            ev is Launched || ev is LaunchFailed ==> old(self).pending().len() > 0,
            ev is Waited ==> old(self).phase() is Running && old(self).pending().len() == 0,
        ensures
            final(self).wf(),
            final(self).same_settings(old(self)),
            phase_rank(old(self).phase()) <= phase_rank(final(self).phase()),
            r is Finish <==> final(self).phase() is Terminated,
            r matches Action::Finish(res) ==> (final(self).records().len() == 0 && final(self).pending().len() == 0),
            r is Launch ==> (final(self).phase() is Starting || final(self).phase() is Running),
            ev is Begin ==> (if ids_unique(old(self).ids()) {
                &&& final(self).pending() == all_indices(old(self).n())
                &&& final(self).records() == old(self).records()
                &&& final(self).advanced(old(self).phase(), r)
            } else {
                r matches Action::Finish(res) && res == Err::<(), SupervisorError>(
                    SupervisorError::DuplicateChildId,
                )
            }),
            ev matches Event::Launched(p) ==> (if has_pid(old(self).records(), p)
                || old(self).phase() is ShuttingDown {
                final(self).torn_down(old(self), true, SupervisorError::StartupFailed, r)
            } else {
                &&& final(self).records() == old(self).records().push(
                    ChildRecord { spec_index: old(self).pending()[0], pid: p, started_at: now },
                )
                &&& final(self).pending() == old(self).pending().drop_first()
                &&& final(self).window() == old(self).window()
                &&& final(self).advanced(old(self).phase(), r)
            }),
            ev is LaunchFailed ==> final(self).torn_down(
                old(self),
                true,
                SupervisorError::StartupFailed,
                r,
            ),
            ev matches Event::Waited(w) ==> (match end_cause_spec(w) {
                Some(cause) => final(self).torn_down(old(self), false, cause, r),
                None => true,
            }),
            ev matches Event::Waited(w) ==> ((w is TimedOut || (w matches WaitEvent::Exited(pid, st)
                && !has_pid(old(self).records(), pid))) ==> {
                &&& final(self).records() == old(self).records()
                &&& final(self).window() == old(self).window()
                &&& final(self).advanced(old(self).phase(), r)
            }),
            ev matches Event::Waited(WaitEvent::Exited(pid, st)) ==> (has_pid(old(self).records(), pid)
                ==> final(self).exit_handled(old(self), pid, st, now, r)),
            ev is StopsDone && old(self).phase() is ShuttingDown ==> (r matches Action::Finish(res)
                && res == result_of(old(self).outcome())),
            ev matches Event::StopsDone(done) ==> (!(old(self).phase() is ShuttingDown) ==> (
            match done {
                Ok(false) => {
                    &&& final(self).records() == old(self).records()
                    &&& final(self).pending() == old(self).pending()
                    &&& final(self).advanced(old(self).phase(), r)
                },
                Ok(true) => final(self).torn_down(old(self), false, SupervisorError::Interrupted, r),
                Err(e) => final(self).torn_down(old(self), false, e, r),
            })),
    {
        match ev {
            Event::Begin => {
                if self.check_ids().is_err() {
                    self.phase = Phase::Terminated;
                    return Action::Finish(Err(SupervisorError::DuplicateChildId));
                }
                let n = self.child_specs.len();
                let mut all: Vec<usize> = Vec::new();
                let mut j: usize = 0;
                while j < n
                    invariant
                        j <= n,
                        n == self.child_specs@.len(),
                        all@ =~= all_indices(j as int),
                    decreases n - j,
                {
                    all.push(j);
                    j = j + 1;
                }
                self.pending = all;
                self.advance()
            },
            Event::Launched(pid) => {
                if self.tracks(pid) || self.phase == Phase::ShuttingDown {
                    return self.tear_down(true, SupervisorError::StartupFailed);
                }
                let ghost before = self.pending@;
                let j = self.pending.remove(0);
                assert(self.pending@ =~= before.drop_first());
                assert(before[0] == j);
                assert forall|t: int| 0 <= t < self.pending@.len() implies #[trigger] self.pending@[t] != j by {
                    assert(self.pending@[t] == before[t + 1]);
                }
                self.child_started(j, pid, now);
                self.advance()
            },
            Event::LaunchFailed => self.tear_down(true, SupervisorError::StartupFailed),
            Event::Waited(w) => {
                if let Some(cause) = end_cause(&w) {
                    return self.tear_down(false, cause);
                }
                match w {
                    WaitEvent::Exited(pid, st) => match self.child_exited(pid, st, now) {
                        ExitDecision::Restart { stop, start } => {
                            self.pending = start;
                            if stop.len() > 0 {
                                Action::Stop(stop)
                            } else {
                                self.advance()
                            }
                        },
                        ExitDecision::Escalate { stop } => Action::Stop(stop),
                        _ => self.advance(),
                    },
                    _ => self.advance(),
                }
            },
            Event::StopsDone(done) => {
                if self.phase == Phase::ShuttingDown {
                    return self.advance();
                }
                match done {
                    Ok(false) => self.advance(),
                    Ok(true) => self.tear_down(false, SupervisorError::Interrupted),
                    Err(e) => self.tear_down(false, e),
                }
            },
        }
    }

    /// Ends the run: every child is removed from the table and the orders
    /// that stop them are returned; the run is to end with `cause`.
    fn tear_down(&mut self, force: bool, cause: SupervisorError) -> (r: Action)
        requires
            old(self).wf(),
            !(old(self).phase() is Terminated),
        ensures
            final(self).wf(),
            final(self).same_settings(old(self)),
            final(self).torn_down(old(self), force, cause, r),
            final(self).window() == old(self).window(),
            final(self).retired() == old(self).retired(),
    {
        Action::Stop(self.begin_shutdown(force, cause))
    }

    /// `self` is `old` torn down for `cause`: shutting down with that
    /// outcome, no child in the table and nothing to launch, and `r` the
    /// orders that stop every child `old` ran, in declaration order.
    pub open spec fn torn_down(&self, old: &Self, force: bool, cause: SupervisorError, r: Action) -> bool {
        &&& r matches Action::Stop(orders) && orders@ == stop_orders(
            old.records(),
            old.shutdowns(),
            running_between(old.records(), 0, old.n()),
            force,
        )
        &&& self.phase() is ShuttingDown
        &&& self.outcome() == Some(cause)
        &&& self.records().len() == 0
        &&& self.pending().len() == 0
    }

    /// `self` is `old` after the end of child `pid` with `status` at `now`,
    /// handled as `child_exited` says, and `r` what follows: the stops of the
    /// plan, the end of the run on escalation, or what comes once settled.
    pub open spec fn exit_handled(&self, old: &Self, pid: i32, status: ExitStatus, now: u64, r: Action) -> bool {
        let k = old.index_of_pid(pid);
        &&& self.retired() == (if old.lifetimes()[k] is Temporary {
            old.retired().update(k, true)
        } else {
            old.retired()
        })
        &&& if !old.exit_restarts(pid, status) {
            &&& self.records() == old.records_without(pid)
            &&& self.window() == old.window()
            &&& self.pending().len() == 0
            &&& self.advanced(old.phase(), r)
        } else {
            &&& self.window() == charged(
                old.window(),
                old.exit_starts(pid, status).len(),
                now,
                period_millis(old.flags().spec_period()),
            )
            &&& if self.window().len() <= old.flags().spec_intensity() {
                &&& self.records() == records_left(
                    old.flags().spec_strategy(),
                    old.records_without(pid),
                    k,
                    true,
                )
                &&& self.pending() == old.exit_starts(pid, status)
                &&& if old.exit_stops(pid, status).len() > 0 {
                    &&& r matches Action::Stop(orders) && orders@ == stop_orders(
                        old.records_without(pid),
                        old.shutdowns(),
                        old.exit_stops(pid, status),
                        false,
                    )
                    &&& self.phase() == old.phase()
                } else {
                    self.advanced(old.phase(), r)
                }
            } else {
                &&& r matches Action::Stop(orders) && orders@ == stop_orders(
                    old.records_without(pid),
                    old.shutdowns(),
                    running_between(old.records_without(pid), 0, old.n()),
                    false,
                )
                &&& self.phase() is ShuttingDown
                &&& self.outcome() == Some(SupervisorError::RestartIntensityExceeded)
                &&& self.records().len() == 0
                &&& self.pending().len() == 0
            }
        }
    }

    /// The specification to launch next, if any.
    pub fn pending_launch(&self) -> (r: Option<usize>)
        ensures
            r is Some <==> self.pending().len() > 0,
            r matches Some(j) ==> j == self.pending()[0],
    {
        if self.pending.len() > 0 {
            Some(self.pending[0])
        } else {
            None
        }
    }

    /// Whether specification `j` has a running child.
    pub fn runs_index(&self, j: usize) -> (r: bool)
        ensures
            r == is_running(self.records(), j as int),
    {
        find_index(&self.child_records, j).is_some()
    }

    /// Whether `pid` is a running child.
    pub fn tracks(&self, pid: i32) -> (r: bool)
        ensures
            r == has_pid(self.records(), pid),
    {
        find_pid(&self.child_records, pid).is_some()
    }

    /// The flags, specifications and phase are those of `other`.
    pub open spec fn same_settings(&self, other: &Self) -> bool {
        &&& self.flags() == other.flags()
        &&& self.specs() == other.specs()
        &&& self.n() == other.n()
        &&& self.lifetimes() == other.lifetimes()
        &&& self.shutdowns() == other.shutdowns()
        &&& self.ids() == other.ids()
    }

    /// Every specification was launched: supervision begins.
    pub fn start_complete(&mut self)
        requires
            old(self).wf(),
            old(self).phase() is Starting,
        ensures
            final(self).retired() == old(self).retired(),
            final(self).wf(),
            final(self).phase() == Phase::Running,
            final(self).records() == old(self).records(),
            final(self).window() == old(self).window(),
            final(self).same_settings(old(self)),
    {
        self.phase = Phase::Running;
    }

    /// Removes every running child from the table and returns the orders
    /// that stop them, in declaration order: with their own policies, or with
    /// an immediate kill when `force` (a launch failed). The run is to end
    /// with `cause`.
    pub fn begin_shutdown(&mut self, force: bool, cause: SupervisorError) -> (r: Vec<StopOrder>)
        requires
            old(self).wf(),
        ensures
            final(self).pending().len() == 0,
            final(self).outcome() == Some(cause),
            final(self).retired() == old(self).retired(),
            final(self).wf(),
            r@ == stop_orders(
                old(self).records(),
                old(self).shutdowns(),
                running_between(old(self).records(), 0, old(self).n()),
                force,
            ),
            final(self).records() == Seq::<ChildRecord>::empty(),
            final(self).phase() == (if old(self).phase() is Terminated {
                Phase::Terminated
            } else {
                Phase::ShuttingDown
            }),
            final(self).window() == old(self).window(),
            final(self).same_settings(old(self)),
    {
        let n = self.child_specs.len();
        let all = running_in(&self.child_records, 0, n);
        proof {
            lemma_running_between_members(self.child_records@, 0, n as int);
        }
        let stop = make_orders(&self.child_records, &self.child_specs, &all, force);
        self.child_records = Vec::new();
        self.pending = Vec::new();
        self.outcome = Some(cause);
        if self.phase != Phase::Terminated {
            self.phase = Phase::ShuttingDown;
        }
        stop
    }

    /// Every child was reaped: the supervisor has ended.
    pub fn finish(&mut self)
        requires
            old(self).wf(),
            old(self).records().len() == 0,
        ensures
            final(self).pending().len() == 0,
            final(self).outcome() == old(self).outcome(),
            final(self).retired() == old(self).retired(),
            final(self).wf(),
            final(self).phase() == Phase::Terminated,
            final(self).records() == old(self).records(),
            final(self).window() == old(self).window(),
            final(self).same_settings(old(self)),
    {
        self.pending = Vec::new();
        self.phase = Phase::Terminated;
    }

    /// Whether no child runs.
    pub fn is_idle(&self) -> (r: bool)
        ensures
            r == (self.records().len() == 0),
    {
        self.child_records.len() == 0
    }

    pub fn current_phase(&self) -> (r: Phase)
        ensures
            r == self.phase(),
    {
        self.phase
    }

    pub fn supervisor_flags(&self) -> (r: SupervisorFlags)
        ensures
            r == self.flags(),
    {
        self.flags
    }

    /// The number of specifications.
    pub fn child_count(&self) -> (r: usize)
        ensures
            r == self.n(),
    {
        self.child_specs.len()
    }

    /// The specification at position `j`.
    pub fn spec(&self, j: usize) -> (r: &ChildSpecs<W>)
        requires
            j < self.n(),
        ensures
            *r == self.specs()[j as int],
            r.restart == self.lifetimes()[j as int],
            r.shutdown == self.shutdowns()[j as int],
            r.id@ == self.ids()[j as int],
    {
        &self.child_specs[j]
    }

    /// The running children, in table order.
    pub fn running_children(&self) -> (r: &Vec<ChildRecord>)
        ensures
            r@ == self.records(),
    {
        &self.child_records
    }

    /// The number of restarts within the period.
    pub fn recent_restarts(&self) -> (r: usize)
        ensures
            r == self.window().len(),
    {
        self.window.len()
    }
}

/// A child other than `pid` that ran before `pid` ended still runs, with
/// the same record, once the record of `pid` is removed.
pub proof fn lemma_siblings_kept<W>(s: Supervisor<W>, pid: i32)
    requires
        s.wf(),
        has_pid(s.records(), pid),
    ensures
        forall|x: ChildRecord| #[trigger]
            s.records().contains(x) && x.pid != pid ==> s.records_without(pid).contains(x),
{
    let recs = s.records();
    let pos = position_of_pid(recs, pid);
    assert(recs[pos].pid == pid);
    let rest = s.records_without(pid);
    assert forall|x: ChildRecord| recs.contains(x) && x.pid != pid implies rest.contains(x) by {
        let i = choose|i: int| 0 <= i < recs.len() && recs[i] == x;
        if i < pos {
            assert(rest[i] == x);
        } else {
            assert(rest[i - 1] == x);
        }
    }
}

/// Under one-for-one, the end of a child stops no other child, leaves every
/// sibling's record as it was, and launches at most that child again.
pub proof fn lemma_one_for_one_isolates<W>(s: Supervisor<W>, pid: i32, status: ExitStatus)
    requires
        s.wf(),
        s.flags().spec_strategy() is OneForOne,
        has_pid(s.records(), pid),
    ensures
        s.exit_stops(pid, status) == Seq::<usize>::empty(),
        s.exit_starts(pid, status) == (if s.exit_restarts(pid, status) {
            seq![s.index_of_pid(pid) as usize]
        } else {
            Seq::<usize>::empty()
        }),
        records_left(
            s.flags().spec_strategy(),
            s.records_without(pid),
            s.index_of_pid(pid),
            s.exit_restarts(pid, status),
        ) == s.records_without(pid),
        forall|x: ChildRecord| #[trigger]
            s.records().contains(x) && x.pid != pid ==> s.records_without(pid).contains(x),
{
    lemma_siblings_kept(s, pid);
}

/// Under one-for-all, the end of a permanent child stops every other child
/// that runs, leaves no record behind, and launches again, in declaration
/// order, every specification but the retired ones.
pub proof fn lemma_one_for_all_restarts_group<W>(s: Supervisor<W>, pid: i32, status: ExitStatus)
    requires
        s.wf(),
        s.flags().spec_strategy() is OneForAll,
        has_pid(s.records(), pid),
        s.lifetimes()[s.index_of_pid(pid)] is Permanent,
    ensures
        s.exit_restarts(pid, status),
        forall|j: int|
            0 <= j < s.n() ==> (#[trigger] s.exit_stops(pid, status).contains(j as usize)
                <==> is_running(s.records_without(pid), j)),
        s.exit_starts(pid, status) == fresh_between(s.retired(), 0, s.n()),
        forall|j: int|
            0 <= j < s.n() ==> (#[trigger] s.exit_starts(pid, status).contains(j as usize)
                <==> !s.retired()[j]),
        records_left(s.flags().spec_strategy(), s.records_without(pid), s.index_of_pid(pid), true)
            == Seq::<ChildRecord>::empty(),
{
    let rest = s.records_without(pid);
    lemma_running_between_members(rest, 0, s.n());
    lemma_fresh_between_members(s.retired(), 0, s.n());
    let sr = s.exit_starts(pid, status);
    assert forall|j: int| 0 <= j < s.n() && #[trigger] sr.contains(j as usize) implies !s.retired()[j] by {
        let t = choose|t: int| 0 <= t < sr.len() && sr[t] == j as usize;
    }
    let st = s.exit_stops(pid, status);
    assert forall|j: int| 0 <= j < s.n() && #[trigger] st.contains(j as usize) implies is_running(
        rest,
        j,
    ) by {
        let t = choose|t: int| 0 <= t < st.len() && st[t] == j as usize;
    }
}

/// Under rest-for-one, the end of child `k` stops only children declared
/// after it, and every child declared before it keeps its record.
pub proof fn lemma_rest_for_one_spares_earlier<W>(s: Supervisor<W>, pid: i32, status: ExitStatus)
    requires
        s.wf(),
        s.flags().spec_strategy() is RestForOne,
        has_pid(s.records(), pid),
    ensures
        forall|t: int|
            0 <= t < s.exit_stops(pid, status).len() ==> #[trigger] s.exit_stops(pid, status)[t]
                > s.index_of_pid(pid),
        forall|t: int|
            0 <= t < s.exit_starts(pid, status).len() ==> #[trigger] s.exit_starts(pid, status)[t]
                >= s.index_of_pid(pid),
        forall|x: ChildRecord| #[trigger]
            s.records().contains(x) && x.spec_index < s.index_of_pid(pid) ==> records_left(
                s.flags().spec_strategy(),
                s.records_without(pid),
                s.index_of_pid(pid),
                s.exit_restarts(pid, status),
            ).contains(x),
{
    let k = s.index_of_pid(pid);
    let rest = s.records_without(pid);
    lemma_siblings_kept(s, pid);
    lemma_records_below_members(rest, k + 1);
    let pos0 = position_of_pid(s.records(), pid);
    assert(s.records()[pos0].pid == pid);
    lemma_fresh_between_members(s.retired(), k, s.n());
    if k + 1 <= s.n() {
        lemma_running_between_members(rest, k + 1, s.n());
    }
    assert forall|x: ChildRecord| #[trigger]
        s.records().contains(x) && x.spec_index < k implies records_left(
        s.flags().spec_strategy(),
        rest,
        k,
        s.exit_restarts(pid, status),
    ).contains(x) by {
        let pos = position_of_pid(s.records(), pid);
        assert(s.records()[pos].pid == pid);
        assert(x.pid != pid);
    }
}

/// A temporary child that ends is never launched again, whatever the
/// strategy and however it ended; nothing else is stopped on its account.
pub proof fn lemma_temporary_never_restarts<W>(s: Supervisor<W>, pid: i32, status: ExitStatus)
    requires
        s.wf(),
        has_pid(s.records(), pid),
        s.lifetimes()[s.index_of_pid(pid)] is Temporary,
    ensures
        !s.exit_restarts(pid, status),
        s.exit_starts(pid, status) == Seq::<usize>::empty(),
        s.exit_stops(pid, status) == Seq::<usize>::empty(),
{
}

/// A retired specification, whose temporary child has ended, is in no
/// restart list, whatever the strategy and whichever child ends.
pub proof fn lemma_retired_never_restarts<W>(s: Supervisor<W>, pid: i32, status: ExitStatus)
    requires
        s.wf(),
        has_pid(s.records(), pid),
    ensures
        forall|t: int|
            0 <= t < s.exit_starts(pid, status).len() ==> !s.retired()[#[trigger] s.exit_starts(
                pid,
                status,
            )[t] as int],
{
    let k = s.index_of_pid(pid);
    let pos = position_of_pid(s.records(), pid);
    assert(s.records()[pos].spec_index == k);
    assert(is_running(s.records(), k));
    lemma_fresh_between_members(s.retired(), 0, s.n());
    lemma_fresh_between_members(s.retired(), k, s.n());
}

/// A child that keeps failing under one-for-one is restarted while fewer
/// than `intensity` restarts lie in the window, and its failure escalates
/// once `intensity` restarts lie there that all still count at `now`.
pub proof fn lemma_crash_loop_escalates<W>(s: Supervisor<W>, pid: i32, status: ExitStatus, now: u64)
    requires
        s.wf(),
        s.flags().spec_strategy() is OneForOne,
        has_pid(s.records(), pid),
        !(s.lifetimes()[s.index_of_pid(pid)] is Temporary),
        is_abnormal(status),
    ensures
        s.exit_restarts(pid, status),
        s.exit_starts(pid, status).len() == 1,
        s.window().len() < s.flags().spec_intensity() ==> charged(
            s.window(),
            1,
            now,
            period_millis(s.flags().spec_period()),
        ).len() <= s.flags().spec_intensity(),
        (s.window().len() == s.flags().spec_intensity() && forall|i: int|
            0 <= i < s.window().len() ==> counts_at(
                #[trigger] s.window()[i],
                now,
                period_millis(s.flags().spec_period()),
            )) ==> charged(s.window(), 1, now, period_millis(s.flags().spec_period())).len()
            > s.flags().spec_intensity(),
{
    let p = period_millis(s.flags().spec_period());
    let all = s.window() + Seq::new(1, |i: int| now);
    lemma_pruned_len(all, now, p);
    if forall|i: int| 0 <= i < s.window().len() ==> counts_at(#[trigger] s.window()[i], now, p) {
        assert forall|i: int| 0 <= i < all.len() implies counts_at(#[trigger] all[i], now, p) by {
            if i < s.window().len() {
                assert(all[i] == s.window()[i]);
            }
        }
        lemma_pruned_keeps_all(all, now, p);
    }
}

/// The end of a failing child under one-for-one, as a run handles it: with
/// fewer than `intensity` restarts in the window the child is launched again
/// at once; with `intensity` restarts there that all still count, the run
/// stops every child and is to end with `RestartIntensityExceeded`.
pub proof fn lemma_crash_loop_run<W>(
    s: Supervisor<W>,
    t: Supervisor<W>,
    pid: i32,
    status: ExitStatus,
    now: u64,
    r: Action,
)
    requires
        s.wf(),
        t.wf(),
        s.phase() is Running,
        s.pending().len() == 0,
        s.flags().spec_strategy() is OneForOne,
        has_pid(s.records(), pid),
        !(s.lifetimes()[s.index_of_pid(pid)] is Temporary),
        is_abnormal(status),
        t.exit_handled(&s, pid, status, now, r),
    ensures
        s.window().len() < s.flags().spec_intensity() ==> (r matches Action::Launch(j) && j
            == s.index_of_pid(pid) && t.records() == s.records_without(pid)),
        (s.window().len() == s.flags().spec_intensity() && forall|i: int|
            0 <= i < s.window().len() ==> counts_at(
                #[trigger] s.window()[i],
                now,
                period_millis(s.flags().spec_period()),
            )) ==> (r is Stop && t.phase() is ShuttingDown && t.outcome() == Some(
            SupervisorError::RestartIntensityExceeded,
        ) && t.records().len() == 0),
{
    lemma_crash_loop_escalates(s, pid, status, now);
    lemma_one_for_one_isolates(s, pid, status);
}

} // verus!
