use std::rc::Rc;

use lumbergh::child::FnWorker;
use lumbergh::errors::SupervisorError;
use lumbergh::limiter::RestartWindow;
use lumbergh::records::ChildRecord;
use lumbergh::restart::ExitStatus;
use lumbergh::shutdown::{ShutdownTracker, StopOrder, StopSignal};
use lumbergh::supervisor::{
    end_cause, Action, ChildLifetime, ChildSpecs, ExitDecision, Phase, ProcessType, ShutdownType, Strategy,
    Event, Supervisor, SupervisorFlags, WaitEvent,
};

type Work = FnWorker<fn() -> Result<(), SupervisorError>>;

fn done() -> Result<(), SupervisorError> {
    Ok(())
}

fn spec(id: &str, restart: ChildLifetime, shutdown: ShutdownType) -> ChildSpecs<Work> {
    let worker: Work = FnWorker::new(done as fn() -> Result<(), SupervisorError>);
    ChildSpecs::new(id, Rc::new(worker), restart, shutdown, ProcessType::Worker)
}

/// A running supervisor whose children `0..n` run as pids `100 + i`, started at time `10 * i`.
fn running(strategy: Strategy, intensity: u64, period: u64, lifetimes: &[ChildLifetime]) -> Supervisor<Work> {
    let flags = SupervisorFlags::new(strategy, intensity, period).unwrap();
    let mut specs = Vec::new();
    for (i, l) in lifetimes.iter().enumerate() {
        specs.push(spec(&format!("child{}", i), *l, ShutdownType::Timeout(1)));
    }
    let mut sup = Supervisor::new(flags, specs);
    assert_eq!(sup.check_ids(), Ok(()));
    for i in 0..lifetimes.len() {
        sup.child_started(i, 100 + i as i32, 10 * i as u64);
    }
    sup.start_complete();
    sup
}

fn record(spec_index: usize, pid: i32, started_at: u64) -> ChildRecord {
    ChildRecord { spec_index, pid, started_at }
}

fn timeout_order(pid: i32) -> StopOrder {
    StopOrder { pid, policy: ShutdownType::Timeout(1) }
}

#[test]
fn supervisor_it_works() {}

#[test]
fn flags_refuse_zero_period() {
    assert_eq!(SupervisorFlags::new(Strategy::OneForOne, 1, 0).err(), Some(SupervisorError::InvalidConfiguration));
    let f = SupervisorFlags::new(Strategy::RestForOne, 0, 5).unwrap();
    assert_eq!(f.strategy(), Strategy::RestForOne);
    assert_eq!(f.intensity(), 0);
    assert_eq!(f.period(), 5);
}

#[test]
fn child_specs_keep_their_fields() {
    let s = spec("worker", ChildLifetime::Transient, ShutdownType::Infinity);
    assert_eq!(s.id, "worker");
    assert_eq!(s.restart, ChildLifetime::Transient);
    assert_eq!(s.shutdown, ShutdownType::Infinity);
    assert_eq!(s.process_type, ProcessType::Worker);
}

#[test]
fn duplicate_ids_are_refused() {
    let flags = SupervisorFlags::new(Strategy::OneForOne, 1, 5).unwrap();
    let specs = vec![
        spec("a", ChildLifetime::Permanent, ShutdownType::BrutalKill),
        spec("b", ChildLifetime::Permanent, ShutdownType::BrutalKill),
        spec("a", ChildLifetime::Permanent, ShutdownType::BrutalKill),
    ];
    let sup = Supervisor::new(flags, specs);
    assert_eq!(sup.check_ids(), Err(SupervisorError::DuplicateChildId));
}

#[test]
fn permanent_child_exceeds_intensity_on_second_exit() {
    let mut sup = running(Strategy::OneForOne, 1, 5, &[ChildLifetime::Permanent]);
    match sup.child_exited(100, ExitStatus::Exited(1), 1000) {
        ExitDecision::Restart { stop, start } => {
            assert!(stop.is_empty());
            assert_eq!(start, vec![0]);
        }
        _ => panic!("expected a restart"),
    }
    assert_eq!(sup.recent_restarts(), 1);
    sup.child_started(0, 200, 1000);
    match sup.child_exited(200, ExitStatus::Exited(1), 2000) {
        ExitDecision::Escalate { stop } => assert!(stop.is_empty()),
        _ => panic!("expected an escalation"),
    }
    assert_eq!(sup.current_phase(), Phase::ShuttingDown);
    assert!(sup.is_idle());
}

#[test]
fn temporary_child_ends_cleanly() {
    let mut sup = running(Strategy::OneForOne, 5, 5, &[ChildLifetime::Temporary]);
    assert!(matches!(sup.child_exited(100, ExitStatus::Exited(0), 500), ExitDecision::Dropped));
    assert!(sup.is_idle());
    assert_eq!(sup.recent_restarts(), 0);
    assert_eq!(sup.current_phase(), Phase::Running);
}

#[test]
fn one_for_one_restarts_only_the_failed_child() {
    let lifetimes = [ChildLifetime::Permanent; 3];
    let mut sup = running(Strategy::OneForOne, 3, 5, &lifetimes);
    match sup.child_exited(101, ExitStatus::Signaled(9), 700) {
        ExitDecision::Restart { stop, start } => {
            assert!(stop.is_empty());
            assert_eq!(start, vec![1]);
        }
        _ => panic!("expected a restart"),
    }
    assert_eq!(sup.running_children(), &vec![record(0, 100, 0), record(2, 102, 20)]);
}

#[test]
fn one_for_all_restarts_the_whole_group() {
    let lifetimes = [ChildLifetime::Permanent, ChildLifetime::Permanent, ChildLifetime::Temporary];
    let mut sup = running(Strategy::OneForAll, 3, 5, &lifetimes);
    match sup.child_exited(101, ExitStatus::Exited(3), 700) {
        ExitDecision::Restart { stop, start } => {
            assert_eq!(stop, vec![timeout_order(100), timeout_order(102)]);
            assert_eq!(start, vec![0, 1, 2]);
        }
        _ => panic!("expected a restart"),
    }
    assert!(sup.is_idle());
    for i in 0..3 {
        sup.child_started(i, 300 + i as i32, 800);
    }
    assert_eq!(sup.running_children().len(), 3);
    assert!(sup.running_children().iter().all(|r| r.started_at == 800));
}

#[test]
fn one_for_all_drops_a_child_that_needs_no_restart() {
    let lifetimes = [ChildLifetime::Permanent, ChildLifetime::Transient, ChildLifetime::Permanent];
    let mut sup = running(Strategy::OneForAll, 3, 5, &lifetimes);
    assert!(matches!(sup.child_exited(101, ExitStatus::Exited(0), 700), ExitDecision::Dropped));
    assert_eq!(sup.running_children(), &vec![record(0, 100, 0), record(2, 102, 20)]);
}

#[test]
fn rest_for_one_restarts_the_later_children() {
    let lifetimes = [ChildLifetime::Permanent; 4];
    let mut sup = running(Strategy::RestForOne, 5, 5, &lifetimes);
    match sup.child_exited(101, ExitStatus::Exited(2), 700) {
        ExitDecision::Restart { stop, start } => {
            assert_eq!(stop, vec![timeout_order(102), timeout_order(103)]);
            assert_eq!(start, vec![1, 2, 3]);
        }
        _ => panic!("expected a restart"),
    }
    assert_eq!(sup.running_children(), &vec![record(0, 100, 0)]);
    assert_eq!(sup.recent_restarts(), 3);
}

#[test]
fn temporary_child_is_never_relaunched() {
    for strategy in [Strategy::OneForOne, Strategy::OneForAll, Strategy::RestForOne, Strategy::SimpleOneForOne] {
        for status in [ExitStatus::Exited(0), ExitStatus::Exited(1), ExitStatus::Signaled(15)] {
            let lifetimes = [ChildLifetime::Permanent, ChildLifetime::Temporary, ChildLifetime::Permanent];
            let mut sup = running(strategy, 5, 5, &lifetimes);
            assert!(matches!(sup.child_exited(101, status, 50), ExitDecision::Dropped));
            assert_eq!(sup.running_children(), &vec![record(0, 100, 0), record(2, 102, 20)]);
        }
    }
}

#[test]
fn transient_child_restarts_only_after_failure() {
    let mut sup = running(Strategy::OneForOne, 5, 5, &[ChildLifetime::Transient, ChildLifetime::Transient]);
    assert!(matches!(sup.child_exited(100, ExitStatus::Exited(0), 50), ExitDecision::Dropped));
    match sup.child_exited(101, ExitStatus::Exited(4), 60) {
        ExitDecision::Restart { start, .. } => assert_eq!(start, vec![1]),
        _ => panic!("expected a restart"),
    }
}

#[test]
fn unknown_pid_changes_nothing() {
    let mut sup = running(Strategy::OneForOne, 5, 5, &[ChildLifetime::Permanent]);
    assert!(matches!(sup.child_exited(999, ExitStatus::Exited(1), 50), ExitDecision::Untracked));
    assert_eq!(sup.running_children(), &vec![record(0, 100, 0)]);
    assert!(sup.tracks(100));
    assert!(!sup.tracks(999));
    assert!(sup.runs_index(0));
}

#[test]
fn zero_intensity_escalates_on_first_failure() {
    let mut sup = running(Strategy::OneForOne, 0, 5, &[ChildLifetime::Permanent, ChildLifetime::Permanent]);
    match sup.child_exited(100, ExitStatus::Exited(1), 50) {
        ExitDecision::Escalate { stop } => assert_eq!(stop, vec![timeout_order(101)]),
        _ => panic!("expected an escalation"),
    }
    assert!(sup.is_idle());
    assert_eq!(sup.current_phase(), Phase::ShuttingDown);
}

#[test]
fn restarts_outside_the_period_are_forgotten() {
    let mut sup = running(Strategy::OneForOne, 1, 5, &[ChildLifetime::Permanent]);
    assert!(matches!(sup.child_exited(100, ExitStatus::Exited(1), 1000), ExitDecision::Restart { .. }));
    sup.child_started(0, 200, 1000);
    assert!(matches!(sup.child_exited(200, ExitStatus::Exited(1), 6001), ExitDecision::Restart { .. }));
    assert_eq!(sup.recent_restarts(), 1);
}

#[test]
fn restart_exactly_one_period_back_still_counts() {
    let mut sup = running(Strategy::OneForOne, 1, 5, &[ChildLifetime::Permanent]);
    assert!(matches!(sup.child_exited(100, ExitStatus::Exited(1), 0), ExitDecision::Restart { .. }));
    sup.child_started(0, 200, 0);
    assert!(matches!(sup.child_exited(200, ExitStatus::Exited(1), 5000), ExitDecision::Escalate { .. }));
}

#[test]
fn window_allows_intensity_restarts_per_period() {
    let mut w = RestartWindow::new();
    assert!(w.charge(1, 0, 5, 2));
    assert!(w.charge(1, 1000, 5, 2));
    assert!(!w.charge(1, 2000, 5, 2));
    assert_eq!(w.len(), 3);
    let mut w = RestartWindow::new();
    assert!(w.charge(1, 0, 5, 2));
    assert!(w.charge(1, 1000, 5, 2));
    assert!(w.charge(1, 5001, 5, 2));
    assert_eq!(w.len(), 2);
    assert!(!w.charge(2, 5500, 5, 2));
    let mut w = RestartWindow::new();
    assert!(w.charge(1, 0, 5, 2));
    assert!(w.charge(1, 1000, 5, 2));
    assert!(!w.charge(1, 5000, 5, 2));
    assert_eq!(w.len(), 3);
}

#[test]
fn shutdown_timeout_kills_after_deadline() {
    let mut t = ShutdownTracker::new();
    assert_eq!(t.start(StopOrder { pid: 7, policy: ShutdownType::Timeout(2) }, 1000), StopSignal::Graceful);
    assert_eq!(t.next_timeout(1000), Some(2000));
    assert_eq!(t.next_timeout(2500), Some(500));
    assert!(t.expire(2999).is_empty());
    assert_eq!(t.expire(3000), vec![7]);
    assert_eq!(t.next_timeout(3000), None);
    assert!(t.expire(9000).is_empty());
    assert!(!t.is_empty());
    assert!(t.reaped(7));
    assert!(t.is_empty());
}

#[test]
fn shutdown_policies_pick_signals_and_deadlines() {
    let mut t = ShutdownTracker::new();
    assert_eq!(t.start(StopOrder { pid: 1, policy: ShutdownType::BrutalKill }, 0), StopSignal::Forceful);
    assert_eq!(t.start(StopOrder { pid: 2, policy: ShutdownType::Infinity }, 0), StopSignal::Graceful);
    assert_eq!(t.next_timeout(0), None);
    assert_eq!(t.start(StopOrder { pid: 3, policy: ShutdownType::Timeout(5) }, 100), StopSignal::Graceful);
    assert_eq!(t.start(StopOrder { pid: 4, policy: ShutdownType::Timeout(1) }, 200), StopSignal::Graceful);
    assert_eq!(t.next_timeout(200), Some(1000));
    assert!(!t.reaped(9));
    assert!(t.reaped(4));
    assert_eq!(t.next_timeout(200), Some(4900));
    assert!(t.reaped(1));
    assert!(t.reaped(2));
    assert!(t.reaped(3));
    assert!(t.is_empty());
}

#[test]
fn shutdown_orders_follow_declaration_and_policy() {
    let flags = SupervisorFlags::new(Strategy::OneForOne, 1, 5).unwrap();
    let specs = vec![
        spec("a", ChildLifetime::Permanent, ShutdownType::BrutalKill),
        spec("b", ChildLifetime::Permanent, ShutdownType::Infinity),
        spec("c", ChildLifetime::Permanent, ShutdownType::Timeout(3)),
    ];
    let mut sup = Supervisor::new(flags, specs);
    sup.child_started(2, 32, 0);
    sup.child_started(0, 30, 0);
    sup.child_started(1, 31, 0);
    sup.start_complete();
    let orders = sup.begin_shutdown(false, SupervisorError::Interrupted);
    assert_eq!(
        orders,
        vec![
            StopOrder { pid: 30, policy: ShutdownType::BrutalKill },
            StopOrder { pid: 31, policy: ShutdownType::Infinity },
            StopOrder { pid: 32, policy: ShutdownType::Timeout(3) },
        ]
    );
    assert!(sup.is_idle());
    assert_eq!(sup.current_phase(), Phase::ShuttingDown);
    sup.finish();
    assert_eq!(sup.current_phase(), Phase::Terminated);
}

#[test]
fn failed_start_kills_launched_children() {
    let flags = SupervisorFlags::new(Strategy::OneForAll, 1, 5).unwrap();
    let specs = vec![
        spec("a", ChildLifetime::Permanent, ShutdownType::Infinity),
        spec("b", ChildLifetime::Permanent, ShutdownType::Timeout(3)),
    ];
    let mut sup = Supervisor::new(flags, specs);
    sup.child_started(0, 40, 0);
    let orders = sup.begin_shutdown(true, SupervisorError::StartupFailed);
    assert_eq!(orders, vec![StopOrder { pid: 40, policy: ShutdownType::BrutalKill }]);
}

#[test]
fn exit_status_classification() {
    assert!(!ExitStatus::Exited(0).is_abnormal());
    assert!(ExitStatus::Exited(1).is_abnormal());
    assert!(ExitStatus::Signaled(0).is_abnormal());
    assert!(ChildLifetime::Permanent.restarts_after(ExitStatus::Exited(0)));
    assert!(!ChildLifetime::Temporary.restarts_after(ExitStatus::Exited(1)));
    assert!(!ChildLifetime::Transient.restarts_after(ExitStatus::Exited(0)));
    assert!(ChildLifetime::Transient.restarts_after(ExitStatus::Signaled(9)));
}

#[test]
fn pool_grows_and_shrinks_under_simple_one_for_one() {
    let lifetimes = [ChildLifetime::Permanent, ChildLifetime::Permanent];
    let mut sup = running(Strategy::SimpleOneForOne, 5, 5, &lifetimes);
    let added = sup.add_child(spec("extra", ChildLifetime::Transient, ShutdownType::BrutalKill));
    assert_eq!(added, Ok(2));
    assert_eq!(sup.child_count(), 3);
    sup.child_started(2, 500, 90);
    assert_eq!(
        sup.delete_child(0),
        Ok(Some(StopOrder { pid: 100, policy: ShutdownType::Timeout(1) }))
    );
    assert_eq!(sup.child_count(), 2);
    assert_eq!(sup.running_children(), &vec![record(0, 101, 10), record(1, 500, 90)]);
    assert_eq!(sup.spec(1).id, "extra");
    assert_eq!(sup.delete_child(5), Err(SupervisorError::InvalidConfiguration));
    match sup.child_exited(101, ExitStatus::Exited(1), 100) {
        ExitDecision::Restart { stop, start } => {
            assert!(stop.is_empty());
            assert_eq!(start, vec![0]);
        }
        _ => panic!("expected a restart"),
    }
    sup.child_started(0, 600, 100);
    assert!(matches!(sup.child_exited(500, ExitStatus::Exited(0), 110), ExitDecision::Dropped));
    assert_eq!(sup.delete_child(1), Ok(None));
    assert_eq!(sup.running_children(), &vec![record(0, 600, 100)]);
}

#[test]
fn fixed_strategies_refuse_pool_changes() {
    let mut sup = running(Strategy::OneForOne, 5, 5, &[ChildLifetime::Permanent]);
    let extra = spec("extra", ChildLifetime::Permanent, ShutdownType::BrutalKill);
    assert_eq!(sup.add_child(extra).err(), Some(SupervisorError::InvalidConfiguration));
    assert_eq!(sup.delete_child(0), Err(SupervisorError::InvalidConfiguration));
    assert_eq!(sup.child_count(), 1);
    assert_eq!(sup.supervisor_flags().strategy(), Strategy::OneForOne);
}

#[test]
fn interrupts_and_wait_failures_end_the_supervisor() {
    assert_eq!(end_cause(&WaitEvent::Interrupted), Some(SupervisorError::Interrupted));
    assert_eq!(end_cause(&WaitEvent::Failed), Some(SupervisorError::WaitFailed));
    assert_eq!(end_cause(&WaitEvent::TimedOut), None);
    assert_eq!(end_cause(&WaitEvent::Exited(5, ExitStatus::Exited(1))), None);
}

#[test]
fn intensity_allows_exactly_that_many_restarts() {
    let mut sup = running(Strategy::OneForOne, 3, 10, &[ChildLifetime::Permanent]);
    let mut pid = 100;
    for round in 1..=3u64 {
        match sup.child_exited(pid, ExitStatus::Signaled(11), round * 100) {
            ExitDecision::Restart { start, .. } => assert_eq!(start, vec![0]),
            _ => panic!("expected a restart"),
        }
        pid += 1;
        sup.child_started(0, pid, round * 100);
    }
    assert_eq!(sup.recent_restarts(), 3);
    assert!(matches!(sup.child_exited(pid, ExitStatus::Signaled(11), 400), ExitDecision::Escalate { .. }));
    assert_eq!(sup.current_phase(), Phase::ShuttingDown);
}

fn supervisor_of(strategy: Strategy, intensity: u64, lifetimes: &[ChildLifetime]) -> Supervisor<Work> {
    let flags = SupervisorFlags::new(strategy, intensity, 5).unwrap();
    let mut specs = Vec::new();
    for (i, l) in lifetimes.iter().enumerate() {
        specs.push(spec(&format!("child{}", i), *l, ShutdownType::Timeout(1)));
    }
    Supervisor::new(flags, specs)
}

fn exited(pid: i32, code: i32) -> Event {
    Event::Waited(WaitEvent::Exited(pid, ExitStatus::Exited(code)))
}

#[test]
fn run_of_crashing_child_ends_with_intensity_exceeded() {
    let mut sup = supervisor_of(Strategy::OneForOne, 1, &[ChildLifetime::Permanent]);
    assert!(matches!(sup.step(Event::Begin, 0), Action::Launch(0)));
    assert!(matches!(sup.step(Event::Launched(100), 0), Action::Wait));
    assert!(matches!(sup.step(exited(100, 1), 1000), Action::Launch(0)));
    assert!(matches!(sup.step(Event::Launched(101), 1000), Action::Wait));
    match sup.step(exited(101, 1), 2000) {
        Action::Stop(orders) => assert!(orders.is_empty()),
        _ => panic!("expected the teardown"),
    }
    match sup.step(Event::StopsDone(Ok(false)), 2000) {
        Action::Finish(r) => assert_eq!(r, Err(SupervisorError::RestartIntensityExceeded)),
        _ => panic!("expected the end of the run"),
    }
    assert_eq!(sup.current_phase(), Phase::Terminated);
}

#[test]
fn run_of_temporary_child_ends_ok() {
    let mut sup = supervisor_of(Strategy::OneForOne, 5, &[ChildLifetime::Temporary]);
    assert!(matches!(sup.step(Event::Begin, 0), Action::Launch(0)));
    assert!(matches!(sup.step(Event::Launched(100), 0), Action::Wait));
    match sup.step(exited(100, 0), 10) {
        Action::Finish(r) => assert_eq!(r, Ok(())),
        _ => panic!("expected the end of the run"),
    }
    assert_eq!(sup.recent_restarts(), 0);
}

#[test]
fn run_launches_in_order_and_kills_on_launch_failure() {
    let mut sup = supervisor_of(Strategy::OneForAll, 1, &[ChildLifetime::Permanent; 3]);
    assert!(matches!(sup.step(Event::Begin, 0), Action::Launch(0)));
    assert!(matches!(sup.step(Event::Launched(100), 0), Action::Launch(1)));
    assert!(matches!(sup.step(Event::Launched(101), 0), Action::Launch(2)));
    match sup.step(Event::LaunchFailed, 0) {
        Action::Stop(orders) => assert_eq!(
            orders,
            vec![
                StopOrder { pid: 100, policy: ShutdownType::BrutalKill },
                StopOrder { pid: 101, policy: ShutdownType::BrutalKill },
            ]
        ),
        _ => panic!("expected the teardown"),
    }
    match sup.step(Event::StopsDone(Ok(false)), 0) {
        Action::Finish(r) => assert_eq!(r, Err(SupervisorError::StartupFailed)),
        _ => panic!("expected the end of the run"),
    }
}

#[test]
fn run_refuses_duplicate_ids() {
    let flags = SupervisorFlags::new(Strategy::OneForOne, 1, 5).unwrap();
    let specs = vec![
        spec("a", ChildLifetime::Permanent, ShutdownType::BrutalKill),
        spec("a", ChildLifetime::Permanent, ShutdownType::BrutalKill),
    ];
    let mut sup = Supervisor::new(flags, specs);
    match sup.step(Event::Begin, 0) {
        Action::Finish(r) => assert_eq!(r, Err(SupervisorError::DuplicateChildId)),
        _ => panic!("expected the end of the run"),
    }
}

#[test]
fn group_restart_stops_then_relaunches_and_interrupt_abandons_it() {
    let mut sup = supervisor_of(Strategy::OneForAll, 5, &[ChildLifetime::Permanent; 2]);
    sup.step(Event::Begin, 0);
    sup.step(Event::Launched(100), 0);
    assert!(matches!(sup.step(Event::Launched(101), 0), Action::Wait));
    match sup.step(exited(100, 2), 50) {
        Action::Stop(orders) => assert_eq!(orders, vec![timeout_order(101)]),
        _ => panic!("expected the stops"),
    }
    assert_eq!(sup.pending_launch(), Some(0));
    assert!(matches!(sup.step(Event::StopsDone(Ok(false)), 60), Action::Launch(0)));
    assert!(matches!(sup.step(Event::Launched(200), 60), Action::Launch(1)));
    assert!(matches!(sup.step(Event::Launched(201), 60), Action::Wait));
    match sup.step(exited(201, 2), 70) {
        Action::Stop(orders) => assert_eq!(orders, vec![timeout_order(200)]),
        _ => panic!("expected the stops"),
    }
    match sup.step(Event::StopsDone(Ok(true)), 80) {
        Action::Stop(orders) => assert!(orders.is_empty()),
        _ => panic!("expected the teardown"),
    }
    assert_eq!(sup.pending_launch(), None);
    match sup.step(Event::StopsDone(Ok(false)), 90) {
        Action::Finish(r) => assert_eq!(r, Err(SupervisorError::Interrupted)),
        _ => panic!("expected the end of the run"),
    }
}

#[test]
fn interrupt_and_wait_failure_tear_the_tree_down() {
    let mut sup = supervisor_of(Strategy::OneForOne, 5, &[ChildLifetime::Permanent]);
    sup.step(Event::Begin, 0);
    sup.step(Event::Launched(100), 0);
    assert!(matches!(sup.step(Event::Waited(WaitEvent::TimedOut), 5), Action::Wait));
    match sup.step(Event::Waited(WaitEvent::Failed), 10) {
        Action::Stop(orders) => assert_eq!(orders, vec![timeout_order(100)]),
        _ => panic!("expected the teardown"),
    }
    match sup.step(Event::StopsDone(Err(SupervisorError::WaitFailed)), 20) {
        Action::Finish(r) => assert_eq!(r, Err(SupervisorError::WaitFailed)),
        _ => panic!("expected the end of the run"),
    }
}

#[test]
fn ended_temporary_child_is_left_out_of_group_restart() {
    for strategy in [Strategy::OneForAll, Strategy::RestForOne] {
        let lifetimes = [ChildLifetime::Permanent, ChildLifetime::Temporary, ChildLifetime::Permanent];
        let mut sup = running(strategy, 5, 5, &lifetimes);
        assert!(matches!(sup.child_exited(101, ExitStatus::Exited(0), 50), ExitDecision::Dropped));
        match sup.child_exited(100, ExitStatus::Exited(1), 60) {
            ExitDecision::Restart { start, .. } => assert_eq!(start, vec![0, 2]),
            _ => panic!("expected a restart"),
        }
    }
}

#[test]
fn supervisor_keeps_each_spec() {
    let flags = SupervisorFlags::new(Strategy::OneForOne, 1, 5).unwrap();
    let worker: Rc<Work> = Rc::new(FnWorker::new(done as fn() -> Result<(), SupervisorError>));
    let specs = vec![ChildSpecs::new(
        "boss",
        worker.clone(),
        ChildLifetime::Permanent,
        ShutdownType::Infinity,
        ProcessType::Supervisor,
    )];
    let sup = Supervisor::new(flags, specs);
    assert!(Rc::ptr_eq(&sup.spec(0).child, &worker));
    assert_eq!(sup.spec(0).process_type, ProcessType::Supervisor);
    assert_eq!(sup.spec(0).id, "boss");
}
