//! Shortest time-to-completion first, preemptive: the processor grants one
//! unit at a time to the arrived process with the least remaining work,
//! reconsidering after every unit, so a newly arrived shorter job preempts
//! the current one.  The first process to complete, if it arrived at time
//! zero, reads a first run of zero even when bookkeeping stamped it later.
//! Ties on remaining work go to the entry admitted earliest.

use vstd::prelude::*;

use crate::workload::Process;
use crate::workload::Task;
use crate::workload::dur_sum;
use crate::workload::dur_sum_from;
use crate::workload::entry_of;
use crate::workload::find_min_rem;
use crate::workload::fits;
use crate::workload::key_of;
use crate::workload::lemma_dur_sum_from_le;
use crate::workload::lemma_dur_sum_from_nonneg;
use crate::workload::lemma_dur_sum_prepend;
use crate::workload::lemma_empty_to_multiset;
use crate::workload::lemma_head_to_multiset;
use crate::workload::lemma_min_rem_index;
use crate::workload::lemma_rem_sum_nonneg;
use crate::workload::lemma_rem_sum_push;
use crate::workload::lemma_rem_sum_remove;
use crate::workload::lemma_task_dur_sum_push;
use crate::workload::lemma_task_dur_sum_remove;
use crate::workload::min_rem_index;
use crate::workload::positive_rems;
use crate::workload::rem_sum;
use crate::workload::task_dur_sum;
use crate::workload::task_key_of;
use crate::workload::valid_workload;

verus! {

/// The shortest-time-to-completion-first schedule, one decision per
/// recursive step, from a mid-run state: index `i` of `s` onward is not
/// yet admitted, `q` holds the arrived entries with their remaining work,
/// `t` is the clock, and `none_done` records that nothing has completed
/// yet (which is what the first-completion special case of the discipline
/// turns on).  A step admits the next arrived process, jumps an idle gap,
/// or grants one unit to the entry with the least remaining work.
pub open spec fn stcf_rec(s: Seq<Process>, i: int, q: Seq<Task>, t: int, none_done: bool) -> Seq<
    Process,
>
    decreases dur_sum_from(s, i) + rem_sum(q), s.len() - i
        when 0 <= i <= s.len() && valid_workload(s) && positive_rems(q)
{
    if i < s.len() && s[i].arrival <= t {
        proof {
            lemma_rem_sum_push(q, entry_of(s[i]));
            lemma_rem_sum_nonneg(q);
            lemma_dur_sum_from_nonneg(s, i + 1);
        }
        stcf_rec(s, i + 1, q.push(entry_of(s[i])), t, none_done)
    } else if q.len() == 0 {
        if i >= s.len() {
            Seq::empty()
        } else {
            proof {
                lemma_rem_sum_push(q, entry_of(s[i]));
                lemma_dur_sum_from_nonneg(s, i + 1);
            }
            stcf_rec(s, i + 1, q.push(entry_of(s[i])), s[i].arrival as int, none_done)
        }
    } else {
        let m = min_rem_index(q);
        let task = q[m];
        let started = if task.first_run == -1i32 {
            t as i32
        } else {
            task.first_run
        };
        proof {
            lemma_min_rem_index(q);
            lemma_rem_sum_remove(q, m);
            lemma_dur_sum_from_nonneg(s, i);
            assert forall|k: int| 0 <= k < q.remove(m).len() implies (#[trigger] q.remove(
                m,
            )[k]).rem >= 0 by {
                if k < m {
                    assert(q.remove(m)[k] == q[k]);
                } else {
                    assert(q.remove(m)[k] == q[k + 1]);
                }
            }
            lemma_rem_sum_nonneg(q.remove(m));
            lemma_rem_sum_push(
                q.remove(m),
                Task { rem: (task.rem - 1) as i32, first_run: started, ..task },
            );
        }
        if task.rem == 1 {
            let done = Process {
                arrival: task.arrival,
                duration: task.duration,
                first_run: if task.arrival == 0 && none_done {
                    0i32
                } else {
                    started
                },
                completion: (t + 1) as i32,
            };
            seq![done] + stcf_rec(s, i, q.remove(m), t + 1, false)
        } else {
            let run = Task { rem: (task.rem - 1) as i32, first_run: started, ..task };
            stcf_rec(s, i, q.remove(m).push(run), t + 1, none_done)
        }
    }
}

/// What holds of every entry waiting in the preemptive ready queue at
/// clock `t`: it has arrived, owes between one unit and its whole
/// duration, and its first-run stamp, once set, lies between its arrival
/// and the clock.
pub open spec fn stcf_q_inv(q: Seq<Task>, t: int) -> bool {
    forall|k: int|
        0 <= k < q.len() ==> {
            &&& 1 <= (#[trigger] q[k]).rem <= q[k].duration
            &&& 0 <= q[k].arrival <= t
            &&& (q[k].first_run == -1i32 || q[k].arrival <= q[k].first_run <= t)
        }
}

/// The facts every shortest-time-to-completion-first run obeys, proved by
/// induction over the model: one output per pending process, conservation
/// of the (arrival, duration) pairs and of the total work, first run no
/// earlier than arrival, completion no earlier than first run, and
/// completions in clock order.
#[verifier::rlimit(100)]
pub proof fn lemma_stcf_rec_props(s: Seq<Process>, i: int, q: Seq<Task>, t: int, none_done: bool)
    requires
        valid_workload(s),
        fits(s),
        0 <= i <= s.len(),
        stcf_q_inv(q, t),
        t >= 0,
        t + rem_sum(q) + dur_sum_from(s, i) <= i32::MAX,
    ensures
        ({
            let out = stcf_rec(s, i, q, t, none_done);
            &&& out.len() == s.len() - i + q.len()
            &&& out.map_values(|p: Process| key_of(p)).to_multiset() == s.skip(i).map_values(
                |p: Process| key_of(p),
            ).to_multiset().add(q.map_values(|e: Task| task_key_of(e)).to_multiset())
            &&& dur_sum(out) == dur_sum_from(s, i) + task_dur_sum(q)
            &&& forall|j: int|
                0 <= j < out.len() ==> {
                    &&& (#[trigger] out[j]).duration >= 1
                    &&& 0 <= out[j].arrival <= out[j].first_run <= out[j].completion
                    &&& out[j].completion >= t + 1
                }
            &&& forall|j1: int, j2: int|
                0 <= j1 <= j2 < out.len() ==> (#[trigger] out[j1]).completion
                    <= (#[trigger] out[j2]).completion
        }),
    decreases dur_sum_from(s, i) + rem_sum(q), s.len() - i,
{
    broadcast use vstd::seq_lib::group_to_multiset_ensures;

    let out = stcf_rec(s, i, q, t, none_done);
    let keys = |p: Process| key_of(p);
    let tkeys = |e: Task| task_key_of(e);
    if i < s.len() && s[i].arrival <= t {
        lemma_rem_sum_push(q, entry_of(s[i]));
        lemma_task_dur_sum_push(q, entry_of(s[i]));
        lemma_stcf_rec_props(s, i + 1, q.push(entry_of(s[i])), t, none_done);
        assert(q.push(entry_of(s[i])).map_values(tkeys) =~= q.map_values(tkeys).push(
            key_of(s[i]),
        ));
        assert(s.skip(i).map_values(keys).remove(0) =~= s.skip(i + 1).map_values(keys));
        lemma_head_to_multiset(s.skip(i).map_values(keys));
        assert(out.map_values(keys).to_multiset() =~= s.skip(i).map_values(
            keys,
        ).to_multiset().add(q.map_values(tkeys).to_multiset()));
    } else if q.len() == 0 {
        if i >= s.len() {
            assert(out.map_values(keys) =~= Seq::<(i32, i32)>::empty());
            assert(s.skip(i).map_values(keys) =~= Seq::<(i32, i32)>::empty());
            assert(q.map_values(tkeys) =~= Seq::<(i32, i32)>::empty());
            lemma_empty_to_multiset::<(i32, i32)>();
            assert(out.map_values(keys).to_multiset() =~= s.skip(i).map_values(
                keys,
            ).to_multiset().add(q.map_values(tkeys).to_multiset()));
        } else {
            let t1 = s[i].arrival as int;
            lemma_rem_sum_push(q, entry_of(s[i]));
            lemma_dur_sum_from_le(s, 0, i);
            assert(s[i].arrival <= s[s.len() - 1].arrival);
            assert(t1 + rem_sum(q.push(entry_of(s[i]))) + dur_sum_from(s, i + 1) <= i32::MAX);
            lemma_task_dur_sum_push(q, entry_of(s[i]));
            lemma_stcf_rec_props(s, i + 1, q.push(entry_of(s[i])), t1, none_done);
            assert(q.push(entry_of(s[i])).map_values(tkeys) =~= q.map_values(tkeys).push(
                key_of(s[i]),
            ));
            assert(s.skip(i).map_values(keys).remove(0) =~= s.skip(i + 1).map_values(keys));
            lemma_head_to_multiset(s.skip(i).map_values(keys));
            assert(out.map_values(keys).to_multiset() =~= s.skip(i).map_values(
                keys,
            ).to_multiset().add(q.map_values(tkeys).to_multiset()));
        }
    } else {
        let m = min_rem_index(q);
        lemma_min_rem_index(q);
        let task = q[m];
        lemma_rem_sum_remove(q, m);
        lemma_dur_sum_from_nonneg(s, i);
        assert forall|k: int| 0 <= k < q.remove(m).len() implies (#[trigger] q.remove(m)[k]).rem
            >= 0 by {
            if k < m {
                assert(q.remove(m)[k] == q[k]);
            } else {
                assert(q.remove(m)[k] == q[k + 1]);
            }
        }
        lemma_rem_sum_nonneg(q.remove(m));
        if task.rem == 1 {
            let q1 = q.remove(m);
            lemma_task_dur_sum_remove(q, m);
            let done = Process {
                arrival: task.arrival,
                duration: task.duration,
                first_run: if task.arrival == 0 && none_done {
                    0i32
                } else if task.first_run == -1i32 {
                    t as i32
                } else {
                    task.first_run
                },
                completion: (t + 1) as i32,
            };
            let rest = stcf_rec(s, i, q1, t + 1, false);
            lemma_stcf_rec_props(s, i, q1, t + 1, false);
            assert(out == seq![done] + rest);
            assert(forall|j: int| 0 <= j < rest.len() ==> rest[j] == (#[trigger] out[j + 1]));
            assert(q1.map_values(tkeys) =~= q.map_values(tkeys).remove(m));
            assert(out.map_values(keys).remove(0) =~= rest.map_values(keys));
            lemma_head_to_multiset(out.map_values(keys));
            assert(q.map_values(tkeys)[m] == task_key_of(task));
            assert(q.map_values(tkeys).contains(task_key_of(task)));
            assert(out.map_values(keys).to_multiset() =~= s.skip(i).map_values(
                keys,
            ).to_multiset().add(q.map_values(tkeys).to_multiset()));
            assert(out.map_values(keys)[0] == key_of(done));
            lemma_dur_sum_prepend(done, rest);
            assert(seq![done] + rest =~= out);
        } else {
            let started = if task.first_run == -1i32 {
                t as i32
            } else {
                task.first_run
            };
            let run = Task { rem: (task.rem - 1) as i32, first_run: started, ..task };
            let q1 = q.remove(m).push(run);
            lemma_rem_sum_push(q.remove(m), run);
            lemma_task_dur_sum_remove(q, m);
            lemma_task_dur_sum_push(q.remove(m), run);
            lemma_stcf_rec_props(s, i, q1, t + 1, none_done);
            assert(out == stcf_rec(s, i, q1, t + 1, none_done));
            // the multiset of pending pairs is unchanged: the dispatched
            // entry goes back with one unit less remaining
            assert(q1.map_values(tkeys) =~= q.map_values(tkeys).remove(m).push(
                task_key_of(task),
            ));
            assert(q.map_values(tkeys)[m] == task_key_of(task));
            assert(q.map_values(tkeys).contains(task_key_of(task)));
            assert(q1.map_values(tkeys).to_multiset() =~= q.map_values(tkeys).to_multiset());
        }
    }
}

/// Grants the processor one unit at a time to the arrived process with
/// the least remaining work, preempting after every unit; idle gaps are
/// jumped to the next arrival.
pub fn stcf(workload: Vec<Process>) -> (out: Vec<Process>)
    requires
        valid_workload(workload@),
        fits(workload@),
    ensures
        out@ == stcf_rec(workload@, 0, Seq::<Task>::empty(), workload@[0].arrival as int, true),
        out@.len() == workload@.len(),
{
    let ghost s = workload@;
    proof {
        assert(s[0].arrival <= s[s.len() - 1].arrival);
        lemma_stcf_rec_props(s, 0, Seq::<Task>::empty(), s[0].arrival as int, true);
    }
    let ghost t0 = s[0].arrival as int;
    let mut out: Vec<Process> = Vec::new();
    let mut q: Vec<Task> = Vec::new();
    let mut t: i32 = workload[0].arrival;
    let mut i: usize = 0;
    while i < workload.len() || q.len() > 0
        invariant
            valid_workload(s),
            fits(s),
            workload@ == s,
            0 <= i <= s.len(),
            stcf_q_inv(q@, t as int),
            t >= 0,
            t as int + rem_sum(q@) + dur_sum_from(s, i as int) <= i32::MAX,
            stcf_rec(s, 0, Seq::<Task>::empty(), t0, true) == out@ + stcf_rec(
                s,
                i as int,
                q@,
                t as int,
                out@.len() == 0,
            ),
        decreases dur_sum_from(s, i as int) + rem_sum(q@), s.len() - i,
    {
        let ghost qpre = q@;
        let ghost ipre = i as int;
        let ghost tpre = t as int;
        let ghost opre = out@;
        if i < workload.len() && workload[i].arrival <= t {
            let p = workload[i];
            proof {
                lemma_rem_sum_push(q@, entry_of(p));
            }
            q.push(
                Task {
                    arrival: p.arrival,
                    duration: p.duration,
                    rem: p.duration,
                    first_run: -1,
                    completion: 0,
                    runs: 0,
                },
            );
            i += 1;
            proof {
                assert(q@ == qpre.push(entry_of(p)));
                assert(stcf_rec(s, ipre, qpre, tpre, opre.len() == 0) == stcf_rec(
                    s,
                    i as int,
                    q@,
                    t as int,
                    out@.len() == 0,
                ));
            }
        } else if q.len() == 0 {
            let p = workload[i];
            proof {
                lemma_rem_sum_push(q@, entry_of(p));
                lemma_dur_sum_from_le(s, 0, ipre);
                assert(p.arrival <= s[s.len() - 1].arrival);
            }
            t = p.arrival;
            q.push(
                Task {
                    arrival: p.arrival,
                    duration: p.duration,
                    rem: p.duration,
                    first_run: -1,
                    completion: 0,
                    runs: 0,
                },
            );
            i += 1;
            proof {
                assert(q@ == qpre.push(entry_of(p)));
                assert(stcf_rec(s, ipre, qpre, tpre, opre.len() == 0) == stcf_rec(
                    s,
                    i as int,
                    q@,
                    t as int,
                    out@.len() == 0,
                ));
            }
        } else {
            let m = find_min_rem(&q);
            proof {
                lemma_min_rem_index(q@);
                lemma_rem_sum_remove(q@, m as int);
                lemma_rem_sum_nonneg(q@.remove(m as int));
                lemma_dur_sum_from_le(s, i as int, s.len() as int);
            }
            let task = q[m];
            let started = if task.first_run == -1 {
                t
            } else {
                task.first_run
            };
            q.remove(m);
            if task.rem == 1 {
                let done = Process {
                    arrival: task.arrival,
                    duration: task.duration,
                    first_run: if task.arrival == 0 && out.len() == 0 {
                        0
                    } else {
                        started
                    },
                    completion: t + 1,
                };
                out.push(done);
                t = t + 1;
                proof {
                    let rest = stcf_rec(s, i as int, q@, t as int, false);
                    assert(q@ == qpre.remove(m as int));
                    assert(stcf_rec(s, ipre, qpre, tpre, opre.len() == 0) == seq![done] + rest);
                    assert(out@ == opre.push(done));
                    assert(opre + (seq![done] + rest) =~= out@ + rest);
                }
            } else {
                let run = Task {
                    arrival: task.arrival,
                    duration: task.duration,
                    rem: task.rem - 1,
                    first_run: started,
                    completion: task.completion,
                    runs: task.runs,
                };
                proof {
                    lemma_rem_sum_push(q@, run);
                }
                q.push(run);
                t = t + 1;
                proof {
                    assert(run == Task { rem: (task.rem - 1) as i32, first_run: started, ..task });
                    assert(q@ == qpre.remove(m as int).push(run));
                    assert(stcf_rec(s, ipre, qpre, tpre, opre.len() == 0) == stcf_rec(
                        s,
                        i as int,
                        q@,
                        t as int,
                        out@.len() == 0,
                    ));
                }
            }
        }
    }
    proof {
        assert(stcf_rec(s, s.len() as int, q@, t as int, out@.len() == 0) == Seq::<
            Process,
        >::empty());
        assert(out@ + Seq::<Process>::empty() =~= out@);
    }
    out
}

/// Law: shortest time-to-completion first preserves the workload.  One
/// output per input, the multiset of (arrival, duration) pairs is kept,
/// and every output is first run no earlier than its arrival and
/// completes no earlier than its first run.
pub proof fn lemma_stcf_conservation(s: Seq<Process>)
    requires
        valid_workload(s),
        fits(s),
    ensures
        ({
            let out = stcf_rec(s, 0, Seq::<Task>::empty(), s[0].arrival as int, true);
            &&& out.len() == s.len()
            &&& out.map_values(|p: Process| key_of(p)).to_multiset() == s.map_values(
                |p: Process| key_of(p),
            ).to_multiset()
            &&& forall|j: int|
                0 <= j < out.len() ==> 0 <= (#[trigger] out[j]).arrival <= out[j].first_run
                    <= out[j].completion
        }),
{
    let keys = |p: Process| key_of(p);
    let tkeys = |e: Task| task_key_of(e);
    assert(s[0].arrival <= s[s.len() - 1].arrival);
    lemma_stcf_rec_props(s, 0, Seq::<Task>::empty(), s[0].arrival as int, true);
    assert(s.skip(0) =~= s);
    assert(Seq::<Task>::empty().map_values(tkeys) =~= Seq::<(i32, i32)>::empty());
    lemma_empty_to_multiset::<(i32, i32)>();
    assert(s.map_values(keys).to_multiset().add(vstd::multiset::Multiset::<(i32, i32)>::empty())
        =~= s.map_values(keys).to_multiset());
}

/// Law: shortest time-to-completion first is work-conserving — the time
/// units executed, summed over the output (each process runs exactly its
/// duration before completing), equal the total duration of the input,
/// and the simulated clock only ever increases: completions come out in
/// nondecreasing order.
pub proof fn lemma_stcf_work_conserving(s: Seq<Process>)
    requires
        valid_workload(s),
        fits(s),
    ensures
        ({
            let out = stcf_rec(s, 0, Seq::<Task>::empty(), s[0].arrival as int, true);
            &&& dur_sum(out) == dur_sum(s)
            &&& forall|j1: int, j2: int|
                0 <= j1 <= j2 < out.len() ==> (#[trigger] out[j1]).completion
                    <= (#[trigger] out[j2]).completion
        }),
{
    assert(s[0].arrival <= s[s.len() - 1].arrival);
    lemma_stcf_rec_props(s, 0, Seq::<Task>::empty(), s[0].arrival as int, true);
}

} // verus!
