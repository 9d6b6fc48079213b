use vstd::prelude::*;

use crate::limiter::{period_millis, to_millis};
use crate::supervisor::ShutdownType;

verus! {

/// The signal that asks a child to end.
#[derive(Clone, Copy, Debug, PartialEq, Eq, Structural)]
pub enum StopSignal {
    /// A request the child may act on in its own way.
    Graceful,
    /// Ends the child without its cooperation.
    Forceful,
}

/// A child to stop, and how.
#[derive(Clone, Copy, Debug, PartialEq, Eq, Structural)]
pub struct StopOrder {
    pub pid: i32,
    pub policy: ShutdownType,
}

/// A child that was signalled and is not yet reaped: past `deadline`, if
/// any, it is killed.
#[derive(Clone, Copy, Debug, PartialEq, Eq, Structural)]
pub struct Stopping {
    pub pid: i32,
    pub deadline: Option<u64>,
}

/// The first signal that a policy sends.
pub open spec fn first_signal(policy: ShutdownType) -> StopSignal {
    match policy {
        ShutdownType::BrutalKill => StopSignal::Forceful,
        _ => StopSignal::Graceful,
    }
}

/// The time at which a child signalled at `sent_at` is killed, if ever: only
/// a timeout policy has one, its seconds after the signal.
pub open spec fn kill_deadline(policy: ShutdownType, sent_at: u64) -> Option<u64> {
    match policy {
        ShutdownType::Timeout(secs) => Some(
            if sent_at + period_millis(secs) > u64::MAX {
                u64::MAX
            } else {
                (sent_at + period_millis(secs)) as u64
            },
        ),
        _ => None,
    }
}

/// Whether a stop is past its deadline at `now`.
pub open spec fn is_due(s: Stopping, now: u64) -> bool {
    s.deadline matches Some(d) && d <= now
}

/// The process ids of the stops due at `now`, in order.
pub open spec fn due_pids(s: Seq<Stopping>, now: u64) -> Seq<i32>
    decreases s.len(),
{
    if s.len() == 0 {
        Seq::empty()
    } else if is_due(s.last(), now) {
        due_pids(s.drop_last(), now).push(s.last().pid)
    } else {
        due_pids(s.drop_last(), now)
    }
}

/// A stop after its kill: no deadline is left.
pub open spec fn after_kill(s: Stopping, now: u64) -> Stopping {
    if is_due(s, now) {
        Stopping { pid: s.pid, deadline: None }
    } else {
        s
    }
}

/// The earliest deadline among the stops, if any has one.
pub open spec fn earliest(s: Seq<Stopping>) -> Option<u64>
    decreases s.len(),
{
    if s.len() == 0 {
        None
    } else {
        match (earliest(s.drop_last()), s.last().deadline) {
            (None, d) => d,
            (e, None) => e,
            (Some(a), Some(b)) => Some(if a <= b { a } else { b }),
        }
    }
}

/// The stops whose process id is not `pid`, in order.
pub open spec fn without_pid(s: Seq<Stopping>, pid: i32) -> Seq<Stopping>
    decreases s.len(),
{
    if s.len() == 0 {
        Seq::empty()
    } else if s.last().pid != pid {
        without_pid(s.drop_last(), pid).push(s.last())
    } else {
        without_pid(s.drop_last(), pid)
    }
}

/// The children being stopped, until each is reaped.
pub struct ShutdownTracker {
    pending: Vec<Stopping>,
}

impl View for ShutdownTracker {
    type V = Seq<Stopping>;

    closed spec fn view(&self) -> Seq<Stopping> {
        self.pending@
    }
}

impl ShutdownTracker {
    pub fn new() -> (r: ShutdownTracker)
        ensures
            r@ == Seq::<Stopping>::empty(),
    {
        ShutdownTracker { pending: Vec::new() }
    }

    /// Whether every child being stopped was reaped.
    pub fn is_empty(&self) -> (r: bool)
        ensures
            r == (self@.len() == 0),
    {
        self.pending.len() == 0
    }

    /// Starts to stop a child at `now`: returns the signal to send it, and
    /// tracks it with the deadline of its policy.
    pub fn start(&mut self, order: StopOrder, now: u64) -> (r: StopSignal)
        ensures
            r == first_signal(order.policy),
            final(self)@ == old(self)@.push(
                Stopping { pid: order.pid, deadline: kill_deadline(order.policy, now) },
            ),
    {
        let deadline = match order.policy {
            ShutdownType::Timeout(secs) => {
                let p = to_millis(secs);
                if p > u64::MAX - now {
                    Some(u64::MAX)
                } else {
                    Some(now + p)
                }
            },
            _ => None,
        };
        self.pending.push(Stopping { pid: order.pid, deadline });
        match order.policy {
            ShutdownType::BrutalKill => StopSignal::Forceful,
            _ => StopSignal::Graceful,
        }
    }

    /// How long, in milliseconds from `now`, the next wait may last: until
    /// the earliest deadline (zero once it is past), or without limit.
    pub fn next_timeout(&self, now: u64) -> (r: Option<u64>)
        ensures
            r is None <==> earliest(self@) is None,
            earliest(self@) matches Some(d) ==> r == Some(
                if d <= now {
                    0u64
                } else {
                    (d - now) as u64
                },
            ),
    {
        let mut best: Option<u64> = None;
        let mut i: usize = 0;
        while i < self.pending.len()
            invariant
                i <= self.pending@.len(),
                best == earliest(self.pending@.subrange(0, i as int)),
            decreases self.pending@.len() - i,
        {
            assert(self.pending@.subrange(0, i + 1).drop_last() =~= self.pending@.subrange(
                0,
                i as int,
            ));
            best = match (best, self.pending[i].deadline) {
                (None, d) => d,
                (e, None) => e,
                (Some(a), Some(b)) => Some(
                    if a <= b {
                        a
                    } else {
                        b
                    },
                ),
            };
            i = i + 1;
        }
        assert(self.pending@.subrange(0, self.pending@.len() as int) =~= self.pending@);
        match best {
            None => None,
            Some(d) => Some(
                if d <= now {
                    0
                } else {
                    d - now
                },
            ),
        }
    }

    /// Notes that `pid` was reaped; tells whether it was being stopped.
    pub fn reaped(&mut self, pid: i32) -> (r: bool)
        ensures
            r == (exists|i: int| 0 <= i < old(self)@.len() && #[trigger] old(self)@[i].pid == pid),
            final(self)@ == without_pid(old(self)@, pid),
    {
        let ghost start = self.pending@;
        let mut kept: Vec<Stopping> = Vec::new();
        let mut found = false;
        let mut i: usize = 0;
        while i < self.pending.len()
            invariant
                i <= self.pending@.len(),
                self.pending@ == start,
                kept@ == without_pid(start.subrange(0, i as int), pid),
                found == (exists|k: int| 0 <= k < i && #[trigger] start[k].pid == pid),
            decreases self.pending@.len() - i,
        {
            assert(start.subrange(0, i + 1).drop_last() =~= start.subrange(0, i as int));
            if self.pending[i].pid != pid {
                kept.push(self.pending[i]);
            } else {
                found = true;
            }
            i = i + 1;
        }
        assert(start.subrange(0, start.len() as int) =~= start);
        self.pending = kept;
        found
    }

    /// The children whose deadline has come at `now`: they are to be killed,
    /// and no deadline is left for them.
    pub fn expire(&mut self, now: u64) -> (r: Vec<i32>)
        ensures
            r@ == due_pids(old(self)@, now),
            final(self)@ == old(self)@.map_values(|s: Stopping| after_kill(s, now)),
    {
        let ghost start = self.pending@;
        let mut due: Vec<i32> = Vec::new();
        let mut next: Vec<Stopping> = Vec::new();
        let mut i: usize = 0;
        while i < self.pending.len()
            invariant
                i <= self.pending@.len(),
                self.pending@ == start,
                due@ == due_pids(start.subrange(0, i as int), now),
                next@ =~= start.subrange(0, i as int).map_values(|s: Stopping| after_kill(s, now)),
            decreases self.pending@.len() - i,
        {
            assert(start.subrange(0, i + 1).drop_last() =~= start.subrange(0, i as int));
            let s = self.pending[i];
            let is_due = match s.deadline {
                Some(d) => d <= now,
                None => false,
            };
            if is_due {
                due.push(s.pid);
                next.push(Stopping { pid: s.pid, deadline: None });
            } else {
                next.push(s);
            }
            i = i + 1;
        }
        assert(start.subrange(0, start.len() as int) =~= start);
        self.pending = next;
        due
    }
}

/// A child stopped under a timeout of `secs` seconds, signalled at
/// `sent_at`, is due for the kill exactly from `secs` seconds after the
/// signal on, and alone it bounds the next wait to that very time.
pub proof fn lemma_timeout_kills_on_time(pid: i32, secs: u64, sent_at: u64, now: u64)
    requires
        sent_at + secs * 1000 <= u64::MAX,
    ensures
        kill_deadline(ShutdownType::Timeout(secs), sent_at) == Some((sent_at + secs * 1000) as u64),
        is_due(Stopping { pid, deadline: kill_deadline(ShutdownType::Timeout(secs), sent_at) }, now)
            <==> now >= sent_at + secs * 1000,
        earliest(
            seq![Stopping { pid, deadline: kill_deadline(ShutdownType::Timeout(secs), sent_at) }],
        ) == Some((sent_at + secs * 1000) as u64),
{
    let s = seq![Stopping { pid, deadline: kill_deadline(ShutdownType::Timeout(secs), sent_at) }];
    assert(s.drop_last() =~= Seq::<Stopping>::empty());
    assert(earliest(s.drop_last()) is None);
    assert(s.last() == s[0]);
}

} // verus!
