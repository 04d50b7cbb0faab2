//! The process record shared by every scheduling discipline, the ready-queue
//! entry used by the dispatchers, and the arithmetic facts about workloads
//! that the schedulers' overflow and termination arguments rest on.

use vstd::prelude::*;

verus! {

use vstd::multiset::Multiset;

/// One unit of work handed to a scheduler.
///
/// `arrival` is the time the process becomes ready and `duration` the total
/// CPU time it requires; both are fixed by the caller.  `first_run` and
/// `completion` are placeholders on input and are filled in by the
/// scheduler: `first_run` is the clock value of the first execution slice and
/// `completion` the clock value at which the last required unit finishes.
/// Completed records always report their total `duration`, even under the
/// preemptive disciplines that track remaining work internally.
#[derive(Clone, Copy, Debug, PartialEq, Eq, Structural)]
pub struct Process {
    pub arrival: i32,
    pub duration: i32,
    pub first_run: i32,
    pub completion: i32,
}

/// A ready-queue entry: the original record plus the dispatcher's
/// bookkeeping.  `rem` is the CPU time still owed, `first_run` is `-1`
/// until the first dispatch, `completion` is `0` until the entry retires,
/// and `runs` counts dispatches so far.
#[derive(Clone, Copy, Debug, PartialEq, Eq, Structural)]
pub struct Task {
    pub arrival: i32,
    pub duration: i32,
    pub rem: i32,
    pub first_run: i32,
    pub completion: i32,
    pub runs: i32,
}

/// The ready-queue entry under which a waiting process is first admitted.
pub open spec fn entry_of(p: Process) -> Task {
    Task {
        arrival: p.arrival,
        duration: p.duration,
        rem: p.duration,
        first_run: -1i32,
        completion: 0,
        runs: 0,
    }
}

/// The (arrival, total duration) pair that identifies a process record
/// independently of the timing fields a scheduler fills in.
pub open spec fn key_of(p: Process) -> (i32, i32) {
    (p.arrival, p.duration)
}

/// The identifying pair of a ready-queue entry.
pub open spec fn task_key_of(t: Task) -> (i32, i32) {
    (t.arrival, t.duration)
}

/// Workloads are handed to a scheduler sorted by arrival time, ties broken
/// by duration.
pub open spec fn sorted_by_arrival(s: Seq<Process>) -> bool {
    forall|i: int, j: int|
        0 <= i < j < s.len() ==> (s[i].arrival < s[j].arrival || (s[i].arrival == s[j].arrival
            && s[i].duration <= s[j].duration))
}

/// Every process arrives at a non-negative time and asks for at least one
/// unit of CPU time.
pub open spec fn bounded_records(s: Seq<Process>) -> bool {
    forall|i: int|
        #![trigger s[i].arrival]
        #![trigger s[i].duration]
        0 <= i < s.len() ==> s[i].arrival >= 0 && s[i].duration >= 1
}

/// What every scheduler requires of its input: non-empty, sane records,
/// arrival order.
pub open spec fn valid_workload(s: Seq<Process>) -> bool {
    &&& s.len() > 0
    &&& bounded_records(s)
    &&& sorted_by_arrival(s)
}

/// Total CPU time requested by the records from index `i` on.
pub open spec fn dur_sum_from(s: Seq<Process>, i: int) -> int
    decreases s.len() - i when 0 <= i <= s.len()
{
    if i >= s.len() {
        0
    } else {
        s[i].duration + dur_sum_from(s, i + 1)
    }
}

/// Total CPU time requested by a whole workload.
pub open spec fn dur_sum(s: Seq<Process>) -> int {
    dur_sum_from(s, 0)
}

/// The simulated clock never needs to pass the last arrival plus the total
/// requested CPU time, so this is all a scheduler asks of the machine.
pub open spec fn fits(s: Seq<Process>) -> bool {
    s.len() > 0 && s[s.len() - 1].arrival + dur_sum(s) <= i32::MAX
}

/// The completed record a retired ready-queue entry stands for.
pub open spec fn record_of(e: Task) -> Process {
    Process {
        arrival: e.arrival,
        duration: e.duration,
        first_run: e.first_run,
        completion: e.completion,
    }
}

/// Every waiting entry still owes at least one unit.
pub open spec fn positive_rems(q: Seq<Task>) -> bool {
    forall|k: int| 0 <= k < q.len() ==> (#[trigger] q[k].rem) >= 1
}

/// CPU time still owed to the entries of a ready queue.
pub open spec fn rem_sum(q: Seq<Task>) -> int
    decreases q.len(),
{
    if q.len() == 0 {
        0
    } else {
        q[0].rem + rem_sum(q.drop_first())
    }
}

/// Total durations of the entries of a ready queue.
pub open spec fn task_dur_sum(q: Seq<Task>) -> int
    decreases q.len(),
{
    if q.len() == 0 {
        0
    } else {
        q[0].duration + task_dur_sum(q.drop_first())
    }
}

/// The suffix sums shrink as the start index grows, and never go negative.
pub proof fn lemma_dur_sum_from_le(s: Seq<Process>, i: int, j: int)
    requires
        bounded_records(s),
        0 <= i <= j <= s.len(),
    ensures
        0 <= dur_sum_from(s, j) <= dur_sum_from(s, i),
    decreases j - i,
{
    if i < j {
        lemma_dur_sum_from_le(s, i + 1, j);
    } else {
        lemma_dur_sum_from_nonneg(s, i);
    }
}

/// A suffix sum of non-negative durations is non-negative.
pub proof fn lemma_dur_sum_from_nonneg(s: Seq<Process>, i: int)
    requires
        bounded_records(s),
        0 <= i <= s.len(),
    ensures
        dur_sum_from(s, i) >= 0,
    decreases s.len() - i,
{
    if i < s.len() {
        lemma_dur_sum_from_nonneg(s, i + 1);
    }
}

/// Appending an entry adds its remaining time to the queue's owed total.
pub proof fn lemma_rem_sum_push(q: Seq<Task>, t: Task)
    ensures
        rem_sum(q.push(t)) == rem_sum(q) + t.rem,
    decreases q.len(),
{
    if q.len() == 0 {
        assert(q.push(t).drop_first() =~= Seq::<Task>::empty());
        assert(rem_sum(Seq::<Task>::empty()) == 0);
        assert(rem_sum(q.push(t)) == t.rem + rem_sum(q.push(t).drop_first()));
    } else {
        assert(q.push(t).drop_first() =~= q.drop_first().push(t));
        lemma_rem_sum_push(q.drop_first(), t);
        assert(rem_sum(q.push(t)) == q[0].rem + rem_sum(q.push(t).drop_first()));
        assert(rem_sum(q) == q[0].rem + rem_sum(q.drop_first()));
    }
}

/// Removing an entry takes exactly its remaining time out of the owed total.
pub proof fn lemma_rem_sum_remove(q: Seq<Task>, i: int)
    requires
        0 <= i < q.len(),
    ensures
        rem_sum(q.remove(i)) == rem_sum(q) - q[i].rem,
    decreases q.len(),
{
    if i == 0 {
        assert(q.remove(0) =~= q.drop_first());
        assert(rem_sum(q) == q[0].rem + rem_sum(q.drop_first()));
    } else {
        assert(q.remove(i).drop_first() =~= q.drop_first().remove(i - 1));
        lemma_rem_sum_remove(q.drop_first(), i - 1);
        assert(rem_sum(q.remove(i)) == q[0].rem + rem_sum(q.remove(i).drop_first()));
        assert(rem_sum(q) == q[0].rem + rem_sum(q.drop_first()));
    }
}

/// Appending an entry adds its total duration to the queue's duration total.
pub proof fn lemma_task_dur_sum_push(q: Seq<Task>, t: Task)
    ensures
        task_dur_sum(q.push(t)) == task_dur_sum(q) + t.duration,
    decreases q.len(),
{
    if q.len() == 0 {
        assert(q.push(t).drop_first() =~= Seq::<Task>::empty());
        assert(task_dur_sum(Seq::<Task>::empty()) == 0);
        assert(task_dur_sum(q.push(t)) == t.duration + task_dur_sum(q.push(t).drop_first()));
    } else {
        assert(q.push(t).drop_first() =~= q.drop_first().push(t));
        lemma_task_dur_sum_push(q.drop_first(), t);
        assert(task_dur_sum(q.push(t)) == q[0].duration + task_dur_sum(q.push(t).drop_first()));
        assert(task_dur_sum(q) == q[0].duration + task_dur_sum(q.drop_first()));
    }
}

/// Removing an entry takes exactly its total duration out of the total.
pub proof fn lemma_task_dur_sum_remove(q: Seq<Task>, i: int)
    requires
        0 <= i < q.len(),
    ensures
        task_dur_sum(q.remove(i)) == task_dur_sum(q) - q[i].duration,
    decreases q.len(),
{
    if i == 0 {
        assert(q.remove(0) =~= q.drop_first());
        assert(task_dur_sum(q) == q[0].duration + task_dur_sum(q.drop_first()));
    } else {
        assert(q.remove(i).drop_first() =~= q.drop_first().remove(i - 1));
        lemma_task_dur_sum_remove(q.drop_first(), i - 1);
        assert(task_dur_sum(q.remove(i)) == q[0].duration + task_dur_sum(q.remove(i).drop_first()));
        assert(task_dur_sum(q) == q[0].duration + task_dur_sum(q.drop_first()));
    }
}

/// A queue of entries that each still owe time owes at least any one
/// entry's share.
pub proof fn lemma_rem_sum_nonneg(q: Seq<Task>)
    requires
        forall|k: int| 0 <= k < q.len() ==> (#[trigger] q[k].rem) >= 0,
    ensures
        rem_sum(q) >= 0,
    decreases q.len(),
{
    if q.len() > 0 {
        lemma_rem_sum_nonneg(q.drop_first());
    }
}

/// The duration total of a prepended sequence splits off the head's share.
pub proof fn lemma_dur_sum_from_shift(c: Seq<Process>, rest: Seq<Process>, k: int)
    requires
        0 <= k <= rest.len(),
        c.len() == rest.len() + 1,
        forall|j: int| 0 <= j < rest.len() ==> c[j + 1] == (#[trigger] rest[j]),
    ensures
        dur_sum_from(c, k + 1) == dur_sum_from(rest, k),
    decreases rest.len() - k,
{
    if k < rest.len() {
        lemma_dur_sum_from_shift(c, rest, k + 1);
    }
}

/// Prepending a record adds its duration to the total.
pub proof fn lemma_dur_sum_prepend(d: Process, rest: Seq<Process>)
    ensures
        dur_sum(seq![d] + rest) == d.duration + dur_sum(rest),
{
    let c = seq![d] + rest;
    lemma_dur_sum_from_shift(c, rest, 0);
    assert(c[0] == d);
}

/// Retired entries and the records they stand for carry the same total
/// durations.
pub proof fn lemma_dur_sum_map_record_from(ts: Seq<Task>, k: int)
    requires
        0 <= k <= ts.len(),
    ensures
        dur_sum_from(ts.map_values(|e: Task| record_of(e)), k) == task_dur_sum(ts.skip(k)),
    decreases ts.len() - k,
{
    if k < ts.len() {
        lemma_dur_sum_map_record_from(ts, k + 1);
        assert(ts.skip(k).drop_first() =~= ts.skip(k + 1));
        assert(ts.skip(k)[0] == ts[k]);
    } else {
        assert(ts.skip(k) =~= Seq::<Task>::empty());
    }
}

/// A retired queue's records request exactly the queue's total duration.
pub proof fn lemma_dur_sum_map_record(ts: Seq<Task>)
    ensures
        dur_sum(ts.map_values(|e: Task| record_of(e))) == task_dur_sum(ts),
{
    lemma_dur_sum_map_record_from(ts, 0);
    assert(ts.skip(0) =~= ts);
}

/// A sequence's multiset is its head plus the multiset of the rest.
pub proof fn lemma_head_to_multiset<A>(c: Seq<A>)
    requires
        c.len() > 0,
    ensures
        c.to_multiset() == c.remove(0).to_multiset().insert(c[0]),
{
    broadcast use vstd::seq_lib::group_to_multiset_ensures;

    assert(c.contains(c[0]));
    assert(c.to_multiset() =~= c.remove(0).to_multiset().insert(c[0]));
}

/// The empty sequence carries the empty multiset.
pub proof fn lemma_empty_to_multiset<A>()
    ensures
        Seq::<A>::empty().to_multiset() == Multiset::<A>::empty(),
{
    broadcast use vstd::seq_lib::group_to_multiset_ensures;

    assert(Seq::<A>::empty().to_multiset() =~= Multiset::<A>::empty());
}

/// The index of the entry the shortest-remaining-time policy dispatches
/// next: the smallest remaining time, and among equals the one admitted
/// earliest.
pub open spec fn min_rem_index(q: Seq<Task>) -> int
    decreases q.len(),
{
    if q.len() <= 1 {
        0
    } else {
        let m = min_rem_index(q.drop_last());
        if q.last().rem < q[m].rem {
            q.len() - 1
        } else {
            m
        }
    }
}

/// `min_rem_index` indeed picks the earliest entry with minimal remaining
/// time.
pub proof fn lemma_min_rem_index(q: Seq<Task>)
    requires
        q.len() > 0,
    ensures
        0 <= min_rem_index(q) < q.len(),
        forall|k: int| 0 <= k < q.len() ==> q[min_rem_index(q)].rem <= (#[trigger] q[k].rem),
        forall|k: int| 0 <= k < min_rem_index(q) ==> q[min_rem_index(q)].rem < (#[trigger] q[k].rem),
    decreases q.len(),
{
    if q.len() > 1 {
        lemma_min_rem_index(q.drop_last());
        let d = q.drop_last();
        let md = min_rem_index(d);
        assert(forall|k: int| 0 <= k < d.len() ==> d[k] == q[k]);
        assert(q.last() == q[q.len() - 1]);
        let m = min_rem_index(q);
        assert forall|k: int| 0 <= k < q.len() implies q[m].rem <= (#[trigger] q[k].rem) by {
            if k < q.len() - 1 {
                assert(d[md].rem <= d[k].rem);
            }
        }
        assert forall|k: int| 0 <= k < m implies q[m].rem < (#[trigger] q[k].rem) by {
            if k < q.len() - 1 {
                assert(d[md].rem <= d[k].rem);
                if k < md {
                    assert(d[md].rem < d[k].rem);
                }
            }
        }
    }
}

/// Scans a ready queue for the entry the shortest-remaining-time policy
/// dispatches next.
pub fn find_min_rem(q: &Vec<Task>) -> (m: usize)
    requires
        q@.len() > 0,
    ensures
        m as int == min_rem_index(q@),
{
    let mut m: usize = 0;
    let mut j: usize = 1;
    while j < q.len()
        invariant
            1 <= j <= q@.len(),
            m < j,
            m as int == min_rem_index(q@.take(j as int)),
        decreases q@.len() - j,
    {
        proof {
            assert(q@.take(j + 1).drop_last() =~= q@.take(j as int));
        }
        if q[j].rem < q[m].rem {
            m = j;
        }
        j += 1;
    }
    proof {
        assert(q@.take(q@.len() as int) =~= q@);
    }
    m
}

} // verus!
