use vstd::prelude::*;

use crate::records::{
    ChildRecord, is_running, keep_below, records_below, running_between, running_in,
};
use crate::supervisor::{ChildLifetime, Strategy};

verus! {

/// How a child process ended: by exiting with a code, or by a signal.
#[derive(Clone, Copy, Debug, PartialEq, Eq, Structural)]
pub enum ExitStatus {
    Exited(i32),
    Signaled(i32),
}

/// An exit with a non-zero code, or by a signal.
pub open spec fn is_abnormal(s: ExitStatus) -> bool {
    match s {
        ExitStatus::Exited(code) => code != 0,
        ExitStatus::Signaled(_) => true,
    }
}

/// Whether a child with lifetime `l` is restarted after it ended with `s`.
pub open spec fn needs_restart(l: ChildLifetime, s: ExitStatus) -> bool {
    match l {
        ChildLifetime::Permanent => true,
        ChildLifetime::Temporary => false,
        ChildLifetime::Transient => is_abnormal(s),
    }
}

impl ExitStatus {
    pub fn is_abnormal(&self) -> (r: bool)
        ensures
            r == is_abnormal(*self),
    {
        match self {
            ExitStatus::Exited(code) => *code != 0,
            ExitStatus::Signaled(_) => true,
        }
    }
}

impl ChildLifetime {
    /// Whether a child of this lifetime is restarted after it ended with `s`.
    pub fn restarts_after(&self, s: ExitStatus) -> (r: bool)
        ensures
            r == needs_restart(*self, s),
    {
        match self {
            ChildLifetime::Permanent => true,
            ChildLifetime::Temporary => false,
            ChildLifetime::Transient => s.is_abnormal(),
        }
    }
}

/// The indices in `lo..hi` whose specification is not retired, ascending:
/// a retired specification belongs to a temporary child that has ended.
pub open spec fn fresh_between(retired: Seq<bool>, lo: int, hi: int) -> Seq<usize>
    decreases hi - lo,
{
    if hi <= lo {
        Seq::empty()
    } else if !retired[hi - 1] {
        fresh_between(retired, lo, hi - 1).push((hi - 1) as usize)
    } else {
        fresh_between(retired, lo, hi - 1)
    }
}

/// The indices that `fresh_between` lists are those in range that are not
/// retired.
pub proof fn lemma_fresh_between_members(retired: Seq<bool>, lo: int, hi: int)
    requires
        0 <= lo,
        hi <= retired.len(),
        hi <= usize::MAX + 1,
    ensures
        forall|t: int|
            0 <= t < fresh_between(retired, lo, hi).len() ==> lo <= #[trigger] fresh_between(
                retired,
                lo,
                hi,
            )[t] < hi && !retired[fresh_between(retired, lo, hi)[t] as int],
        forall|j: int|
            lo <= j < hi && !retired[j] ==> #[trigger] fresh_between(retired, lo, hi).contains(
                j as usize,
            ),
    decreases hi - lo,
{
    if hi > lo {
        lemma_fresh_between_members(retired, lo, hi - 1);
        let prev = fresh_between(retired, lo, hi - 1);
        let cur = fresh_between(retired, lo, hi);
        assert forall|j: int| lo <= j < hi && !retired[j] implies cur.contains(j as usize) by {
            if j < hi - 1 {
                assert(prev.contains(j as usize));
                let t = choose|t: int| 0 <= t < prev.len() && prev[t] == j as usize;
                assert(cur[t] == j as usize);
            } else {
                assert(cur[cur.len() - 1] == j as usize);
            }
        }
    }
}

/// `fresh_between` lists its indices in strictly ascending order.
pub proof fn lemma_fresh_between_ascending(retired: Seq<bool>, lo: int, hi: int)
    requires
        0 <= lo,
        hi <= retired.len(),
        hi <= usize::MAX + 1,
    ensures
        forall|a: int, b: int|
            0 <= a < b < fresh_between(retired, lo, hi).len() ==> #[trigger] fresh_between(
                retired,
                lo,
                hi,
            )[a] < #[trigger] fresh_between(retired, lo, hi)[b],
    decreases hi - lo,
{
    if hi > lo {
        lemma_fresh_between_ascending(retired, lo, hi - 1);
        lemma_fresh_between_members(retired, lo, hi - 1);
        let prev = fresh_between(retired, lo, hi - 1);
        let cur = fresh_between(retired, lo, hi);
        assert forall|a: int, b: int| 0 <= a < b < cur.len() implies cur[a] < cur[b] by {
            assert(cur[a] == prev[a]);
            if b < prev.len() {
                assert(cur[b] == prev[b]);
            } else {
                assert(cur[b] == (hi - 1) as usize);
                assert(prev[a] < hi - 1);
            }
        }
    }
}

/// The specifications to stop after child `k` ended, given the records that
/// still run (the ended one removed) and whether `k` needs a restart.
pub open spec fn stop_plan(
    strategy: Strategy,
    n: int,
    recs: Seq<ChildRecord>,
    k: int,
    restart: bool,
) -> Seq<usize> {
    if !restart {
        Seq::empty()
    } else {
        match strategy {
            Strategy::OneForAll => running_between(recs, 0, n),
            Strategy::RestForOne => running_between(recs, k + 1, n),
            _ => Seq::empty(),
        }
    }
}

/// The specifications to launch again after child `k` ended, in order;
/// retired specifications are never launched again.
pub open spec fn restart_plan(
    strategy: Strategy,
    n: int,
    k: int,
    restart: bool,
    retired: Seq<bool>,
) -> Seq<usize> {
    if !restart {
        Seq::empty()
    } else {
        match strategy {
            Strategy::OneForAll => fresh_between(retired, 0, n),
            Strategy::RestForOne => fresh_between(retired, k, n),
            _ => seq![k as usize],
        }
    }
}

/// The records left running once the stop plan is carried out.
pub open spec fn records_left(
    strategy: Strategy,
    recs: Seq<ChildRecord>,
    k: int,
    restart: bool,
) -> Seq<ChildRecord> {
    if !restart {
        recs
    } else {
        match strategy {
            Strategy::OneForAll => Seq::empty(),
            Strategy::RestForOne => records_below(recs, k + 1),
            _ => recs,
        }
    }
}

/// What the strategy asks for after one child ended: the specifications to
/// stop and those to launch again, both in order.
pub struct RestartPlan {
    pub to_stop: Vec<usize>,
    pub to_restart: Vec<usize>,
}

/// The indices in `lo..hi` whose specification is not retired, ascending.
pub fn fresh_indices(retired: &Vec<bool>, lo: usize, hi: usize) -> (r: Vec<usize>)
    requires
        lo <= hi <= retired@.len(),
    ensures
        r@ == fresh_between(retired@, lo as int, hi as int),
{
    let mut out: Vec<usize> = Vec::new();
    let mut j: usize = lo;
    while j < hi
        invariant
            lo <= j <= hi <= retired@.len(),
            out@ == fresh_between(retired@, lo as int, j as int),
        decreases hi - j,
    {
        if !retired[j] {
            out.push(j);
        }
        j = j + 1;
    }
    out
}

/// Computes the restart plan for the end of child `k` among `n`
/// specifications, with `recs` the records that still run and `retired`
/// the specifications never to launch again.
pub fn plan_restart(
    strategy: Strategy,
    n: usize,
    recs: &Vec<ChildRecord>,
    k: usize,
    restart: bool,
    retired: &Vec<bool>,
) -> (r: RestartPlan)
    requires
        k < n,
        retired@.len() == n,
    ensures
        r.to_stop@ == stop_plan(strategy, n as int, recs@, k as int, restart),
        r.to_restart@ == restart_plan(strategy, n as int, k as int, restart, retired@),
{
    if !restart {
        return RestartPlan { to_stop: Vec::new(), to_restart: Vec::new() };
    }
    match strategy {
        Strategy::OneForAll => RestartPlan {
            to_stop: running_in(recs, 0, n),
            to_restart: fresh_indices(retired, 0, n),
        },
        Strategy::RestForOne => RestartPlan {
            to_stop: running_in(recs, k + 1, n),
            to_restart: fresh_indices(retired, k, n),
        },
        _ => RestartPlan { to_stop: Vec::new(), to_restart: vec![k] },
    }
}

/// The records left running once the plan's stops are carried out.
pub fn remaining_records(
    strategy: Strategy,
    recs: &Vec<ChildRecord>,
    k: usize,
    restart: bool,
) -> (r: Vec<ChildRecord>)
    requires
        k < usize::MAX,
    ensures
        r@ == records_left(strategy, recs@, k as int, restart),
{
    if !restart {
        return recs.clone();
    }
    match strategy {
        Strategy::OneForAll => Vec::new(),
        Strategy::RestForOne => keep_below(recs, k + 1),
        _ => recs.clone(),
    }
}

} // verus!
