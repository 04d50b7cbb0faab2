//! Shortest job first, non-preemptive: arrived processes wait in a ready
//! queue ordered by duration; once dispatched, a process runs to
//! completion.  When the queue runs dry while processes are still to come,
//! the clock jumps forward to the next arrival.  Ties on duration go to
//! the process admitted earliest.

use vstd::prelude::*;

use crate::workload::Process;
use crate::workload::Task;
use crate::workload::dur_sum;
use crate::workload::dur_sum_from;
use crate::workload::entry_of;
use crate::workload::find_min_rem;
use crate::workload::fits;
use crate::workload::key_of;
use crate::workload::lemma_dur_sum_from_le;
use crate::workload::lemma_dur_sum_prepend;
use crate::workload::lemma_empty_to_multiset;
use crate::workload::lemma_head_to_multiset;
use crate::workload::lemma_min_rem_index;
use crate::workload::lemma_rem_sum_nonneg;
use crate::workload::lemma_rem_sum_push;
use crate::workload::lemma_rem_sum_remove;
use crate::workload::lemma_task_dur_sum_push;
use crate::workload::lemma_task_dur_sum_remove;
use crate::workload::min_rem_index;
use crate::workload::rem_sum;
use crate::workload::task_dur_sum;
use crate::workload::task_key_of;
use crate::workload::valid_workload;

verus! {

/// The shortest-job-first schedule, one decision per recursive step, from
/// a mid-run state: `s` is the whole workload, of which index `i` onward
/// has not been admitted yet, `q` holds the arrived-but-waiting entries,
/// and `t` is the clock.  A step either admits the next arrived process,
/// jumps an idle gap to the next arrival, or dispatches the waiting entry
/// with the least remaining work and runs it to completion.
pub open spec fn sjf_rec(s: Seq<Process>, i: int, q: Seq<Task>, t: int) -> Seq<Process>
    decreases s.len() - i + q.len(), s.len() - i
        when 0 <= i <= s.len()
{
    if i < s.len() && s[i].arrival <= t {
        sjf_rec(s, i + 1, q.push(entry_of(s[i])), t)
    } else if q.len() == 0 {
        if i >= s.len() {
            Seq::empty()
        } else {
            sjf_rec(s, i + 1, q.push(entry_of(s[i])), s[i].arrival as int)
        }
    } else {
        let m = min_rem_index(q);
        let done = Process {
            arrival: q[m].arrival,
            duration: q[m].duration,
            first_run: t as i32,
            completion: (t + q[m].duration) as i32,
        };
        proof {
            lemma_min_rem_index(q);
        }
        seq![done] + sjf_rec(s, i, q.remove(m), t + q[m].duration)
    }
}

/// What holds of every entry waiting in the non-preemptive ready queue at
/// clock `t`: it has arrived, still owes its whole duration, and that is
/// at least one unit.
pub open spec fn sjf_q_inv(q: Seq<Task>, t: int) -> bool {
    forall|k: int|
        0 <= k < q.len() ==> {
            &&& (#[trigger] q[k]).rem == q[k].duration
            &&& q[k].duration >= 1
            &&& 0 <= q[k].arrival <= t
        }
}

/// The facts every shortest-job-first run obeys, proved by induction over
/// the model: one output per pending process, conservation of the
/// (arrival, duration) pairs and of the total work, dispatch no earlier
/// than arrival, completion exactly one duration after first run, and
/// completions in clock order.
pub proof fn lemma_sjf_rec_props(s: Seq<Process>, i: int, q: Seq<Task>, t: int)
    requires
        valid_workload(s),
        fits(s),
        0 <= i <= s.len(),
        sjf_q_inv(q, t),
        t >= 0,
        t + rem_sum(q) + dur_sum_from(s, i) <= i32::MAX,
    ensures
        ({
            let out = sjf_rec(s, i, q, t);
            &&& out.len() == s.len() - i + q.len()
            &&& out.map_values(|p: Process| key_of(p)).to_multiset() == s.skip(i).map_values(
                |p: Process| key_of(p),
            ).to_multiset().add(q.map_values(|e: Task| task_key_of(e)).to_multiset())
            &&& dur_sum(out) == dur_sum_from(s, i) + task_dur_sum(q)
            &&& forall|j: int|
                0 <= j < out.len() ==> {
                    &&& (#[trigger] out[j]).duration >= 1
                    &&& 0 <= out[j].arrival <= out[j].first_run
                    &&& out[j].completion == out[j].first_run + out[j].duration
                    &&& out[j].first_run >= t
                    &&& out[j].completion >= t
                }
            &&& forall|j1: int, j2: int|
                0 <= j1 <= j2 < out.len() ==> (#[trigger] out[j1]).completion
                    <= (#[trigger] out[j2]).completion
        }),
    decreases s.len() - i + q.len(), s.len() - i,
{
    broadcast use vstd::seq_lib::group_to_multiset_ensures;

    let out = sjf_rec(s, i, q, t);
    let keys = |p: Process| key_of(p);
    let tkeys = |e: Task| task_key_of(e);
    if i < s.len() && s[i].arrival <= t {
        lemma_rem_sum_push(q, entry_of(s[i]));
        lemma_task_dur_sum_push(q, entry_of(s[i]));
        lemma_sjf_rec_props(s, i + 1, q.push(entry_of(s[i])), t);
        assert(q.push(entry_of(s[i])).map_values(tkeys) =~= q.map_values(tkeys).push(
            key_of(s[i]),
        ));
        assert(s.skip(i).map_values(keys).remove(0) =~= s.skip(i + 1).map_values(keys));
        lemma_head_to_multiset(s.skip(i).map_values(keys));
        assert(out.map_values(keys).to_multiset() =~= s.skip(i).map_values(
            keys,
        ).to_multiset().add(q.map_values(tkeys).to_multiset()));
    } else if q.len() == 0 {
        if i >= s.len() {
            assert(out.map_values(keys) =~= Seq::<(i32, i32)>::empty());
            assert(s.skip(i).map_values(keys) =~= Seq::<(i32, i32)>::empty());
            assert(q.map_values(tkeys) =~= Seq::<(i32, i32)>::empty());
            lemma_empty_to_multiset::<(i32, i32)>();
            assert(out.map_values(keys).to_multiset() =~= s.skip(i).map_values(
                keys,
            ).to_multiset().add(q.map_values(tkeys).to_multiset()));
        } else {
            let t1 = s[i].arrival as int;
            assert(t1 + rem_sum(q.push(entry_of(s[i]))) + dur_sum_from(s, i + 1) <= i32::MAX)
                by {
                lemma_rem_sum_push(q, entry_of(s[i]));
                lemma_dur_sum_from_le(s, 0, i);
                assert(s[i].arrival <= s[s.len() - 1].arrival);
            }
            lemma_task_dur_sum_push(q, entry_of(s[i]));
            lemma_sjf_rec_props(s, i + 1, q.push(entry_of(s[i])), t1);
            assert(q.push(entry_of(s[i])).map_values(tkeys) =~= q.map_values(tkeys).push(
                key_of(s[i]),
            ));
            assert(s.skip(i).map_values(keys).remove(0) =~= s.skip(i + 1).map_values(keys));
            lemma_head_to_multiset(s.skip(i).map_values(keys));
            assert(out.map_values(keys).to_multiset() =~= s.skip(i).map_values(
                keys,
            ).to_multiset().add(q.map_values(tkeys).to_multiset()));
        }
    } else {
        let m = min_rem_index(q);
        lemma_min_rem_index(q);
        let dur = q[m].duration as int;
        let done = Process {
            arrival: q[m].arrival,
            duration: q[m].duration,
            first_run: t as i32,
            completion: (t + dur) as i32,
        };
        let q1 = q.remove(m);
        lemma_rem_sum_remove(q, m);
        lemma_task_dur_sum_remove(q, m);
        lemma_rem_sum_nonneg(q1);
        let rest = sjf_rec(s, i, q1, t + dur);
        lemma_sjf_rec_props(s, i, q1, t + dur);
        assert(out == seq![done] + rest);
        assert(forall|j: int| 0 <= j < rest.len() ==> rest[j] == (#[trigger] out[j + 1]));
        // conservation of the identifying pairs
        assert(q1.map_values(tkeys) =~= q.map_values(tkeys).remove(m));
        assert(out.map_values(keys).remove(0) =~= rest.map_values(keys));
        lemma_head_to_multiset(out.map_values(keys));
        assert(q.map_values(tkeys)[m] == task_key_of(q[m]));
        assert(q.map_values(tkeys).contains(task_key_of(q[m])));
        assert(out.map_values(keys).to_multiset() =~= s.skip(i).map_values(
            keys,
        ).to_multiset().add(q.map_values(tkeys).to_multiset()));
        // conservation of the total work
        assert(out.map_values(keys)[0] == key_of(done));
        lemma_dur_sum_prepend(done, rest);
        assert(seq![done] + rest =~= out);
    }
}

/// Law: shortest job first preserves the workload.  The schedule has one
/// output per input, the multiset of (arrival, duration) pairs and the
/// total work are kept, and every output is first run no earlier than its
/// arrival and completes no earlier than its first run.
pub proof fn lemma_sjf_conservation(s: Seq<Process>)
    requires
        valid_workload(s),
        fits(s),
    ensures
        ({
            let out = sjf_rec(s, 0, Seq::<Task>::empty(), s[0].arrival as int);
            &&& out.len() == s.len()
            &&& out.map_values(|p: Process| key_of(p)).to_multiset() == s.map_values(
                |p: Process| key_of(p),
            ).to_multiset()
            &&& dur_sum(out) == dur_sum(s)
            &&& forall|j: int|
                0 <= j < out.len() ==> 0 <= (#[trigger] out[j]).arrival <= out[j].first_run
                    <= out[j].completion
        }),
{
    let t0 = s[0].arrival as int;
    let keys = |p: Process| key_of(p);
    let tkeys = |e: Task| task_key_of(e);
    assert(s[0].arrival <= s[s.len() - 1].arrival);
    lemma_sjf_rec_props(s, 0, Seq::<Task>::empty(), t0);
    assert(s.skip(0) =~= s);
    assert(Seq::<Task>::empty().map_values(tkeys) =~= Seq::<(i32, i32)>::empty());
    lemma_empty_to_multiset::<(i32, i32)>();
    assert(s.map_values(keys).to_multiset().add(vstd::multiset::Multiset::<(i32, i32)>::empty())
        =~= s.map_values(keys).to_multiset());
    let out = sjf_rec(s, 0, Seq::<Task>::empty(), t0);
    assert(forall|j: int|
        0 <= j < out.len() ==> 0 <= (#[trigger] out[j]).arrival <= out[j].first_run
            <= out[j].completion);
}

/// Law: shortest job first never preempts — every output's completion lies
/// exactly one full duration after its first run.
pub proof fn lemma_sjf_no_preemption(s: Seq<Process>)
    requires
        valid_workload(s),
        fits(s),
    ensures
        ({
            let out = sjf_rec(s, 0, Seq::<Task>::empty(), s[0].arrival as int);
            forall|j: int|
                0 <= j < out.len() ==> (#[trigger] out[j]).completion == out[j].first_run
                    + out[j].duration
        }),
{
    assert(s[0].arrival <= s[s.len() - 1].arrival);
    lemma_sjf_rec_props(s, 0, Seq::<Task>::empty(), s[0].arrival as int);
}

/// Runs the workload shortest-job-first: arrived processes gather in a
/// ready queue; the one with the least duration (ties to the earliest
/// admitted) runs to completion; the clock jumps over idle gaps to the
/// next arrival.
pub fn sjf(workload: Vec<Process>) -> (out: Vec<Process>)
    requires
        valid_workload(workload@),
        fits(workload@),
    ensures
        out@ == sjf_rec(workload@, 0, Seq::<Task>::empty(), workload@[0].arrival as int),
        out@.len() == workload@.len(),
{
    let ghost s = workload@;
    proof {
        assert(s[0].arrival <= s[s.len() - 1].arrival);
        lemma_sjf_rec_props(s, 0, Seq::<Task>::empty(), s[0].arrival as int);
    }
    let ghost t0 = s[0].arrival as int;
    let mut out: Vec<Process> = Vec::new();
    let mut q: Vec<Task> = Vec::new();
    let mut t: i32 = workload[0].arrival;
    let mut i: usize = 0;
    while i < workload.len() || q.len() > 0
        invariant
            valid_workload(s),
            fits(s),
            workload@ == s,
            0 <= i <= s.len(),
            sjf_q_inv(q@, t as int),
            t >= 0,
            t as int + rem_sum(q@) + dur_sum_from(s, i as int) <= i32::MAX,
            sjf_rec(s, 0, Seq::<Task>::empty(), t0) == out@ + sjf_rec(s, i as int, q@, t as int),
        decreases s.len() - i + q@.len(), s.len() - i,
    {
        let ghost qpre = q@;
        let ghost ipre = i as int;
        let ghost tpre = t as int;
        let ghost opre = out@;
        if i < workload.len() && workload[i].arrival <= t {
            let p = workload[i];
            proof {
                lemma_rem_sum_push(q@, entry_of(p));
            }
            q.push(
                Task {
                    arrival: p.arrival,
                    duration: p.duration,
                    rem: p.duration,
                    first_run: -1,
                    completion: 0,
                    runs: 0,
                },
            );
            i += 1;
            proof {
                assert(q@ == qpre.push(entry_of(p)));
                assert(sjf_rec(s, ipre, qpre, tpre) == sjf_rec(s, i as int, q@, t as int));
            }
        } else if q.len() == 0 {
            let p = workload[i];
            proof {
                lemma_rem_sum_push(q@, entry_of(p));
                lemma_dur_sum_from_le(s, 0, ipre);
                assert(p.arrival <= s[s.len() - 1].arrival);
            }
            t = p.arrival;
            q.push(
                Task {
                    arrival: p.arrival,
                    duration: p.duration,
                    rem: p.duration,
                    first_run: -1,
                    completion: 0,
                    runs: 0,
                },
            );
            i += 1;
            proof {
                assert(q@ == qpre.push(entry_of(p)));
                assert(sjf_rec(s, ipre, qpre, tpre) == sjf_rec(s, i as int, q@, t as int));
            }
        } else {
            let m = find_min_rem(&q);
            proof {
                lemma_min_rem_index(q@);
                lemma_rem_sum_remove(q@, m as int);
                lemma_rem_sum_nonneg(q@.remove(m as int));
                lemma_dur_sum_from_le(s, i as int, s.len() as int);
            }
            let task = q[m];
            q.remove(m);
            let completion = t + task.duration;
            let done = Process {
                arrival: task.arrival,
                duration: task.duration,
                first_run: t,
                completion,
            };
            out.push(done);
            t = completion;
            proof {
                let rest = sjf_rec(s, i as int, q@, t as int);
                assert(q@ == qpre.remove(m as int));
                assert(sjf_rec(s, ipre, qpre, tpre) == seq![done] + rest);
                assert(out@ == opre.push(done));
                assert(opre + (seq![done] + rest) =~= out@ + rest);
            }
        }
    }
    proof {
        assert(sjf_rec(s, s.len() as int, q@, t as int) == Seq::<Process>::empty());
        assert(out@ + Seq::<Process>::empty() =~= out@);
    }
    out
}

} // verus!
