//! First-in-first-out scheduling: the processor runs the workload strictly
//! in input order, each process to completion.  The clock starts at the
//! first arrival and otherwise only ever equals the previous completion; an
//! idle gap before a late arrival is deliberately not modelled.

use vstd::prelude::*;

use crate::workload::Process;
use crate::workload::dur_sum;
use crate::workload::dur_sum_from;
use crate::workload::fits;
use crate::workload::key_of;
use crate::workload::lemma_dur_sum_from_le;
use crate::workload::valid_workload;

verus! {

/// The clock value at which the `i`-th process of a first-in-first-out
/// schedule is dispatched: the first arrival plus the durations of all
/// earlier processes.
pub open spec fn fifo_start(s: Seq<Process>, i: int) -> int
    decreases i when 0 <= i
{
    if i <= 0 {
        s[0].arrival as int
    } else {
        fifo_start(s, i - 1) + s[i - 1].duration
    }
}

/// The complete first-in-first-out schedule: the `i`-th output keeps the
/// `i`-th input's arrival and duration, is first run at `fifo_start` and
/// completes one full duration later.
pub open spec fn fifo_schedule(s: Seq<Process>) -> Seq<Process> {
    Seq::new(
        s.len(),
        |i: int|
            Process {
                arrival: s[i].arrival,
                duration: s[i].duration,
                first_run: fifo_start(s, i) as i32,
                completion: (fifo_start(s, i) + s[i].duration) as i32,
            },
    )
}

/// Every dispatch time of a feasible schedule lies between the first
/// arrival and the machine bound, so the clock arithmetic stays exact.
pub proof fn lemma_fifo_start_bounds(s: Seq<Process>, i: int)
    requires
        valid_workload(s),
        0 <= i <= s.len(),
    ensures
        s[0].arrival <= fifo_start(s, i),
        fifo_start(s, i) + dur_sum_from(s, i) == s[0].arrival + dur_sum(s),
    decreases i,
{
    if i > 0 {
        lemma_fifo_start_bounds(s, i - 1);
        lemma_dur_sum_from_le(s, i - 1, i);
    }
}

/// Runs the workload in input order, no preemption: the `i`-th process is
/// first run when the `i - 1`-th completes (the first at its own arrival)
/// and completes after exactly its duration.
pub fn fifo(workload: Vec<Process>) -> (out: Vec<Process>)
    requires
        valid_workload(workload@),
        fits(workload@),
    ensures
        out@ == fifo_schedule(workload@),
        out@.len() == workload@.len(),
{
    let ghost s = workload@;
    let mut out: Vec<Process> = Vec::new();
    let mut t: i32 = workload[0].arrival;
    let mut i: usize = 0;
    while i < workload.len()
        invariant
            valid_workload(s),
            fits(s),
            workload@ == s,
            0 <= i <= s.len(),
            t as int == fifo_start(s, i as int),
            out@.len() == i,
            forall|j: int| 0 <= j < i ==> out@[j] == fifo_schedule(s)[j],
        decreases s.len() - i,
    {
        proof {
            lemma_fifo_start_bounds(s, i as int);
            lemma_dur_sum_from_le(s, i as int, i as int + 1);
            assert(dur_sum_from(s, i as int) == s[i as int].duration + dur_sum_from(
                s,
                i as int + 1,
            ));
            assert(s[0].arrival <= s[s.len() - 1].arrival);
        }
        let p = workload[i];
        let completion = t + p.duration;
        out.push(
            Process {
                arrival: p.arrival,
                duration: p.duration,
                first_run: t,
                completion,
            },
        );
        t = completion;
        i += 1;
    }
    proof {
        assert(out@ =~= fifo_schedule(s));
    }
    out
}

/// Law: first-in-first-out preserves the workload.  The schedule has one
/// output per input, the multiset of (arrival, duration) pairs is kept
/// (here even their order is), and no process completes before it is first
/// run.
pub proof fn lemma_fifo_conservation(s: Seq<Process>)
    requires
        valid_workload(s),
        fits(s),
    ensures
        fifo_schedule(s).len() == s.len(),
        fifo_schedule(s).map_values(|p: Process| key_of(p)) == s.map_values(
            |p: Process| key_of(p),
        ),
        fifo_schedule(s).map_values(|p: Process| key_of(p)).to_multiset() == s.map_values(
            |p: Process| key_of(p),
        ).to_multiset(),
        forall|i: int|
            0 <= i < s.len() ==> (#[trigger] fifo_schedule(s)[i]).first_run <= fifo_schedule(
                s,
            )[i].completion,
{
    assert(fifo_schedule(s).map_values(|p: Process| key_of(p)) =~= s.map_values(
        |p: Process| key_of(p),
    ));
    assert forall|i: int| 0 <= i < s.len() implies (#[trigger] fifo_schedule(s)[i]).first_run
        <= fifo_schedule(s)[i].completion by {
        lemma_fifo_start_bounds(s, i);
        lemma_fifo_start_bounds(s, i + 1);
        lemma_dur_sum_from_le(s, i, i + 1);
        lemma_dur_sum_from_le(s, i + 1, s.len() as int);
    }
}

/// Law: first-in-first-out never preempts — every output's completion lies
/// exactly one full duration after its first run.
pub proof fn lemma_fifo_no_preemption(s: Seq<Process>)
    requires
        valid_workload(s),
        fits(s),
    ensures
        forall|i: int|
            0 <= i < s.len() ==> (#[trigger] fifo_schedule(s)[i]).completion == fifo_schedule(
                s,
            )[i].first_run + fifo_schedule(s)[i].duration,
{
    assert forall|i: int| 0 <= i < s.len() implies (#[trigger] fifo_schedule(s)[i]).completion
        == fifo_schedule(s)[i].first_run + fifo_schedule(s)[i].duration by {
        lemma_fifo_start_bounds(s, i);
        lemma_fifo_start_bounds(s, i + 1);
        lemma_dur_sum_from_le(s, i + 1, s.len() as int);
    }
}

/// A workload is gap-free for first-in-first-out when every process has
/// arrived by the time the processor reaches it.
pub open spec fn fifo_feasible(s: Seq<Process>) -> bool {
    forall|i: int| 0 <= i < s.len() ==> (#[trigger] s[i].arrival) <= fifo_start(s, i)
}

/// Law: on a gap-free workload, first-in-first-out never runs a process
/// before it arrives.  (On a workload with an idle gap the discipline
/// deliberately starts the next process at the previous completion, which
/// can precede its arrival, so the law is stated for gap-free inputs.)
pub proof fn lemma_fifo_respects_arrival(s: Seq<Process>)
    requires
        valid_workload(s),
        fits(s),
        fifo_feasible(s),
    ensures
        forall|i: int|
            0 <= i < s.len() ==> (#[trigger] fifo_schedule(s)[i]).arrival <= fifo_schedule(
                s,
            )[i].first_run,
{
    assert forall|i: int| 0 <= i < s.len() implies (#[trigger] fifo_schedule(s)[i]).arrival
        <= fifo_schedule(s)[i].first_run by {
        lemma_fifo_start_bounds(s, i);
        lemma_fifo_start_bounds(s, i + 1);
        lemma_dur_sum_from_le(s, i, s.len() as int);
    }
}

} // verus!
