use vstd::prelude::*;

verus! {

/// A running child: the specification it instantiates, its process id and
/// the monotonic time, in milliseconds, at which it was launched.
#[derive(Clone, Copy, Debug, PartialEq, Eq, Structural)]
pub struct ChildRecord {
    pub spec_index: usize,
    pub pid: i32,
    pub started_at: u64,
}

/// Whether some record of the table runs specification `j`.
pub open spec fn is_running(recs: Seq<ChildRecord>, j: int) -> bool {
    exists|i: int| 0 <= i < recs.len() && #[trigger] recs[i].spec_index == j
}

/// Whether some record of the table has process id `pid`.
pub open spec fn has_pid(recs: Seq<ChildRecord>, pid: i32) -> bool {
    exists|i: int| 0 <= i < recs.len() && #[trigger] recs[i].pid == pid
}

/// A well-formed table: every record refers to one of `n` specifications,
/// and no specification and no process id occurs twice.
pub open spec fn table_wf(recs: Seq<ChildRecord>, n: int) -> bool {
    &&& forall|i: int| 0 <= i < recs.len() ==> #[trigger] recs[i].spec_index < n
    &&& forall|i: int, k: int|
        0 <= i < recs.len() && 0 <= k < recs.len() && i != k ==> #[trigger] recs[i].spec_index
            != #[trigger] recs[k].spec_index
    &&& forall|i: int, k: int|
        0 <= i < recs.len() && 0 <= k < recs.len() && i != k ==> #[trigger] recs[i].pid
            != #[trigger] recs[k].pid
}

/// The position of the record that runs specification `j`.
pub open spec fn position_of_index(recs: Seq<ChildRecord>, j: int) -> int {
    choose|i: int| 0 <= i < recs.len() && #[trigger] recs[i].spec_index == j
}

/// The indices in `lo..hi` whose specification is running, ascending.
pub open spec fn running_between(recs: Seq<ChildRecord>, lo: int, hi: int) -> Seq<usize>
    decreases hi - lo,
{
    if hi <= lo {
        Seq::empty()
    } else if is_running(recs, hi - 1) {
        running_between(recs, lo, hi - 1).push((hi - 1) as usize)
    } else {
        running_between(recs, lo, hi - 1)
    }
}

/// The records whose specification index is below `bound`, in table order.
pub open spec fn records_below(recs: Seq<ChildRecord>, bound: int) -> Seq<ChildRecord>
    decreases recs.len(),
{
    if recs.len() == 0 {
        Seq::empty()
    } else if recs.last().spec_index < bound {
        records_below(recs.drop_last(), bound).push(recs.last())
    } else {
        records_below(recs.drop_last(), bound)
    }
}

/// The indices that `running_between` lists are those in range whose
/// specification runs.
pub proof fn lemma_running_between_members(recs: Seq<ChildRecord>, lo: int, hi: int)
    requires
        0 <= lo,
        hi <= usize::MAX + 1,
    ensures
        forall|t: int|
            0 <= t < running_between(recs, lo, hi).len() ==> lo <= #[trigger] running_between(
                recs,
                lo,
                hi,
            )[t] < hi && is_running(recs, running_between(recs, lo, hi)[t] as int),
        forall|j: int|
            lo <= j < hi && is_running(recs, j) ==> #[trigger] running_between(
                recs,
                lo,
                hi,
            ).contains(j as usize),
    decreases hi - lo,
{
    if hi > lo {
        lemma_running_between_members(recs, lo, hi - 1);
        let prev = running_between(recs, lo, hi - 1);
        let cur = running_between(recs, lo, hi);
        assert forall|j: int| lo <= j < hi && is_running(recs, j) implies cur.contains(
            j as usize,
        ) by {
            if j < hi - 1 {
                assert(prev.contains(j as usize));
                let t = choose|t: int| 0 <= t < prev.len() && prev[t] == j as usize;
                assert(cur[t] == j as usize);
            } else {
                assert(cur[cur.len() - 1] == j as usize);
            }
        }
    }
}

/// The records that `records_below` keeps are those of the table under the
/// bound.
pub proof fn lemma_records_below_members(recs: Seq<ChildRecord>, bound: int)
    ensures
        forall|x: ChildRecord|
            #[trigger] records_below(recs, bound).contains(x) <==> recs.contains(x) && x.spec_index
                < bound,
    decreases recs.len(),
{
    if recs.len() > 0 {
        let init = recs.drop_last();
        lemma_records_below_members(init, bound);
        assert(recs =~= init.push(recs.last()));
        assert forall|x: ChildRecord| recs.contains(x) implies init.contains(x) || x == recs.last() by {
            let i = choose|i: int| 0 <= i < recs.len() && recs[i] == x;
            if i < recs.len() - 1 {
                assert(init[i] == x);
            }
        }
        assert forall|x: ChildRecord| init.contains(x) implies recs.contains(x) by {
            let i = choose|i: int| 0 <= i < init.len() && init[i] == x;
            assert(recs[i] == x);
        }
        assert(recs[recs.len() - 1] == recs.last());
        let k0 = records_below(init, bound);
        let last = recs.last();
        assert forall|x: ChildRecord| #[trigger]
            records_below(recs, bound).contains(x) <==> recs.contains(x) && x.spec_index
                < bound by {
            if last.spec_index < bound {
                let kr = k0.push(last);
                assert(records_below(recs, bound) == kr);
                if kr.contains(x) {
                    let i = choose|i: int| 0 <= i < kr.len() && kr[i] == x;
                    if i < k0.len() {
                        assert(k0[i] == x);
                    }
                }
                if k0.contains(x) {
                    let i = choose|i: int| 0 <= i < k0.len() && k0[i] == x;
                    assert(kr[i] == x);
                }
                if x == last {
                    assert(kr[k0.len() as int] == x);
                }
            }
        }
    }
}

/// Keeping the records under a bound keeps the table well formed.
pub proof fn lemma_records_below_wf(recs: Seq<ChildRecord>, bound: int, n: int)
    requires
        table_wf(recs, n),
    ensures
        table_wf(records_below(recs, bound), n),
    decreases recs.len(),
{
    if recs.len() > 0 {
        let init = recs.drop_last();
        lemma_records_below_wf(init, bound, n);
        lemma_records_below_members(init, bound);
        let kept = records_below(init, bound);
        if recs.last().spec_index < bound {
            let last = recs.last();
            assert forall|i: int| 0 <= i < kept.len() implies kept[i].spec_index != last.spec_index
                && kept[i].pid != last.pid by {
                assert(kept.contains(kept[i]));
                let t = choose|t: int| 0 <= t < init.len() && init[t] == kept[i];
                assert(recs[t] == kept[i]);
            }
        }
    }
}

/// Removing a record keeps the table well formed.
pub proof fn lemma_remove_wf(recs: Seq<ChildRecord>, pos: int, n: int)
    requires
        table_wf(recs, n),
        0 <= pos < recs.len(),
    ensures
        table_wf(recs.remove(pos), n),
        !is_running(recs.remove(pos), recs[pos].spec_index as int),
        !has_pid(recs.remove(pos), recs[pos].pid),
        forall|x: ChildRecord| #[trigger]
            recs.remove(pos).contains(x) ==> recs.contains(x),
{
    let r = recs.remove(pos);
    assert forall|i: int| 0 <= i < r.len() implies r[i] == recs[if i < pos {
        i
    } else {
        i + 1
    }] by {}
    assert forall|x: ChildRecord| r.contains(x) implies recs.contains(x) by {
        let i = choose|i: int| 0 <= i < r.len() && r[i] == x;
        assert(recs[if i < pos { i } else { i + 1 }] == x);
    }
}

/// Adding a record for a specification that does not run, under a process
/// id not in use, keeps the table well formed.
pub proof fn lemma_push_wf(recs: Seq<ChildRecord>, rec: ChildRecord, n: int)
    requires
        table_wf(recs, n),
        rec.spec_index < n,
        !is_running(recs, rec.spec_index as int),
        !has_pid(recs, rec.pid),
    ensures
        table_wf(recs.push(rec), n),
{
    let r = recs.push(rec);
    assert forall|i: int| 0 <= i < recs.len() implies r[i] == recs[i] by {}
}

/// Finds the position of the record with process id `pid`.
pub fn find_pid(recs: &Vec<ChildRecord>, pid: i32) -> (r: Option<usize>)
    ensures
        r matches Some(i) ==> i < recs@.len() && recs@[i as int].pid == pid,
        r is None <==> !has_pid(recs@, pid),
{
    let mut i: usize = 0;
    while i < recs.len()
        invariant
            i <= recs@.len(),
            forall|k: int| 0 <= k < i ==> (#[trigger] recs@[k]).pid != pid,
        decreases recs@.len() - i,
    {
        if recs[i].pid == pid {
            return Some(i);
        }
        i = i + 1;
    }
    None
}

/// Finds the position of the record that runs specification `j`.
pub fn find_index(recs: &Vec<ChildRecord>, j: usize) -> (r: Option<usize>)
    ensures
        r matches Some(i) ==> i < recs@.len() && recs@[i as int].spec_index == j,
        r is None <==> !is_running(recs@, j as int),
{
    let mut i: usize = 0;
    while i < recs.len()
        invariant
            i <= recs@.len(),
            forall|k: int| 0 <= k < i ==> (#[trigger] recs@[k]).spec_index != j,
        decreases recs@.len() - i,
    {
        if recs[i].spec_index == j {
            return Some(i);
        }
        i = i + 1;
    }
    None
}

/// The indices in `lo..hi` whose specification is running, ascending.
pub fn running_in(recs: &Vec<ChildRecord>, lo: usize, hi: usize) -> (r: Vec<usize>)
    ensures
        r@ == running_between(recs@, lo as int, hi as int),
{
    let mut out: Vec<usize> = Vec::new();
    if hi <= lo {
        return out;
    }
    let mut j: usize = lo;
    while j < hi
        invariant
            lo <= j <= hi,
            out@ == running_between(recs@, lo as int, j as int),
        decreases hi - j,
    {
        if find_index(recs, j).is_some() {
            out.push(j);
        }
        j = j + 1;
    }
    out
}

/// The records whose specification index is below `bound`, in table order.
pub fn keep_below(recs: &Vec<ChildRecord>, bound: usize) -> (r: Vec<ChildRecord>)
    ensures
        r@ == records_below(recs@, bound as int),
{
    let mut out: Vec<ChildRecord> = Vec::new();
    let mut i: usize = 0;
    while i < recs.len()
        invariant
            i <= recs@.len(),
            out@ == records_below(recs@.subrange(0, i as int), bound as int),
        decreases recs@.len() - i,
    {
        assert(recs@.subrange(0, i + 1).drop_last() =~= recs@.subrange(0, i as int));
        if recs[i].spec_index < bound {
            out.push(recs[i]);
        }
        i = i + 1;
    }
    assert(recs@.subrange(0, recs@.len() as int) =~= recs@);
    out
}

} // verus!
