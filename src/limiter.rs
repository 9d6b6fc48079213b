use vstd::prelude::*;

verus! {

/// Milliseconds in a second.
pub const MILLIS: u64 = 1000;

/// The length of `period_secs` seconds in milliseconds, capped at `u64::MAX`.
pub open spec fn period_millis(period_secs: u64) -> int {
    if period_secs * 1000 > u64::MAX {
        u64::MAX as int
    } else {
        period_secs * 1000
    }
}

/// Whether a restart at time `t` still counts at time `now`: it lies at
/// most `period` milliseconds back (or, with a clock gone back, ahead).
pub open spec fn counts_at(t: u64, now: u64, period: int) -> bool {
    now <= t + period
}

/// The restart times of `s` that still count at `now`, in order.
pub open spec fn pruned(s: Seq<u64>, now: u64, period: int) -> Seq<u64>
    decreases s.len(),
{
    if s.len() == 0 {
        Seq::empty()
    } else if counts_at(s.last(), now, period) {
        pruned(s.drop_last(), now, period).push(s.last())
    } else {
        pruned(s.drop_last(), now, period)
    }
}

/// The window after `count` restarts are charged at `now`.
pub open spec fn charged(s: Seq<u64>, count: nat, now: u64, period: int) -> Seq<u64> {
    pruned(s + Seq::new(count, |i: int| now), now, period)
}

/// The times of the restarts made lately, oldest first.
pub struct RestartWindow {
    stamps: Vec<u64>,
}

impl View for RestartWindow {
    type V = Seq<u64>;

    closed spec fn view(&self) -> Seq<u64> {
        self.stamps@
    }
}

/// Converts a period in seconds to milliseconds, capped at `u64::MAX`.
pub fn to_millis(period_secs: u64) -> (r: u64)
    ensures
        r == period_millis(period_secs),
{
    if period_secs > u64::MAX / MILLIS {
        u64::MAX
    } else {
        period_secs * MILLIS
    }
}

impl RestartWindow {
    pub fn new() -> (r: RestartWindow)
        ensures
            r@ == Seq::<u64>::empty(),
    {
        RestartWindow { stamps: Vec::new() }
    }

    /// The number of restarts in the window.
    pub fn len(&self) -> (r: usize)
        ensures
            r == self@.len(),
    {
        self.stamps.len()
    }

    /// Records `count` restarts at `now`, drops the restarts that lie
    /// more than `period_secs` back, and tells whether the restarts left are
    /// within `intensity`: when not, the restarts must not be made.
    pub fn charge(&mut self, count: usize, now: u64, period_secs: u64, intensity: u64) -> (r: bool)
        ensures
            final(self)@ == charged(old(self)@, count as nat, now, period_millis(period_secs)),
            r == (final(self)@.len() <= intensity),
    {
        let period = to_millis(period_secs);
        let ghost all = self.stamps@ + Seq::new(count as nat, |i: int| now);
        let mut c: usize = 0;
        while c < count
            invariant
                c <= count,
                self.stamps@ =~= old(self)@ + Seq::new(c as nat, |i: int| now),
                all == old(self)@ + Seq::new(count as nat, |i: int| now),
            decreases count - c,
        {
            self.stamps.push(now);
            c = c + 1;
        }
        let mut kept: Vec<u64> = Vec::new();
        let mut i: usize = 0;
        while i < self.stamps.len()
            invariant
                i <= self.stamps@.len(),
                self.stamps@ == all,
                period == period_millis(period_secs),
                kept@ == pruned(all.subrange(0, i as int), now, period as int),
            decreases self.stamps@.len() - i,
        {
            assert(all.subrange(0, i + 1).drop_last() =~= all.subrange(0, i as int));
            let t = self.stamps[i];
            if t > now || now - t <= period {
                kept.push(t);
            }
            i = i + 1;
        }
        assert(all.subrange(0, all.len() as int) =~= all);
        self.stamps = kept;
        (self.stamps.len() as u64) <= intensity
    }
}

/// The window after one restart at each time of `ts`, in turn, starting
/// from an empty one.
pub open spec fn window_after(ts: Seq<u64>, period: int) -> Seq<u64>
    decreases ts.len(),
{
    if ts.len() == 0 {
        Seq::empty()
    } else {
        charged(window_after(ts.drop_last(), period), 1, ts.last(), period)
    }
}

/// Pruning keeps a window whose every restart still counts.
pub proof fn lemma_pruned_keeps_all(s: Seq<u64>, now: u64, period: int)
    requires
        forall|i: int| 0 <= i < s.len() ==> counts_at(#[trigger] s[i], now, period),
    ensures
        pruned(s, now, period) == s,
    decreases s.len(),
{
    if s.len() > 0 {
        lemma_pruned_keeps_all(s.drop_last(), now, period);
        assert(s.drop_last().push(s.last()) =~= s);
    }
}

/// A child that ends again at once after each restart, all within one
/// period: every restart stays in the window, so the restarts are allowed
/// while their number is at most the intensity, and the one after that is
/// refused.
pub proof fn lemma_intensity_trips_after_limit(ts: Seq<u64>, period_secs: u64, intensity: u64)
    requires
        ts.len() > 0,
        forall|i: int, j: int| 0 <= i <= j < ts.len() ==> ts[i] <= ts[j],
        counts_at(ts[0], ts.last(), period_millis(period_secs)),
    ensures
        window_after(ts, period_millis(period_secs)) == ts,
        (window_after(ts, period_millis(period_secs)).len() <= intensity) <==> (ts.len()
            <= intensity),
    decreases ts.len(),
{
    let p = period_millis(period_secs);
    let init = ts.drop_last();
    if init.len() > 0 {
        assert(init.last() == ts[ts.len() - 2]);
        lemma_intensity_trips_after_limit(init, period_secs, intensity);
    }
    assert(window_after(init, p) == init);
    let now = ts.last();
    let all = init + Seq::new(1, |i: int| now);
    assert(all =~= ts);
    assert forall|i: int| 0 <= i < ts.len() implies counts_at(#[trigger] ts[i], now, p) by {
        assert(ts[0] <= ts[i]);
    }
    lemma_pruned_keeps_all(ts, now, p);
}

/// Pruning never lengthens a window.
pub proof fn lemma_pruned_len(s: Seq<u64>, now: u64, period: int)
    ensures
        pruned(s, now, period).len() <= s.len(),
    decreases s.len(),
{
    if s.len() > 0 {
        lemma_pruned_len(s.drop_last(), now, period);
    }
}

} // verus!
