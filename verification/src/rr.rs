//! Round robin with a fixed quantum: arrived processes wait in first-come
//! first-served order; the head of the queue runs for at most `time_slice`
//! contiguous units, then goes back to the tail behind any processes that
//! arrived meanwhile.  Idle gaps are jumped to the next arrival.

use vstd::prelude::*;

use crate::workload::Process;
use crate::workload::Task;
use crate::workload::dur_sum;
use crate::workload::dur_sum_from;
use crate::workload::entry_of;
use crate::workload::fits;
use crate::workload::key_of;
use crate::workload::lemma_dur_sum_from_le;
use crate::workload::lemma_dur_sum_from_nonneg;
use crate::workload::lemma_dur_sum_map_record;
use crate::workload::lemma_empty_to_multiset;
use crate::workload::lemma_head_to_multiset;
use crate::workload::lemma_rem_sum_nonneg;
use crate::workload::lemma_rem_sum_push;
use crate::workload::lemma_task_dur_sum_push;
use crate::workload::positive_rems;
use crate::workload::record_of;
use crate::workload::rem_sum;
use crate::workload::task_dur_sum;
use crate::workload::task_key_of;
use crate::workload::valid_workload;

verus! {

use vstd::multiset::Multiset;

/// The CPU time a dispatched-but-unfinished process still owes while it
/// waits to rejoin the queue.
pub open spec fn pend_rem(pend: Option<Task>) -> int {
    match pend {
        Option::None => 0,
        Option::Some(e) => e.rem as int,
    }
}

/// Whether a dispatched-but-unfinished process is waiting to rejoin.
pub open spec fn pend_count(pend: Option<Task>) -> int {
    match pend {
        Option::None => 0,
        Option::Some(_) => 1,
    }
}

/// The total duration such a process stands for.
pub open spec fn pend_dur(pend: Option<Task>) -> int {
    match pend {
        Option::None => 0,
        Option::Some(e) => e.duration as int,
    }
}

/// The identifying pairs such a process contributes.
pub open spec fn pend_keys(pend: Option<Task>) -> Multiset<(i32, i32)> {
    match pend {
        Option::None => Multiset::empty(),
        Option::Some(e) => Multiset::empty().insert(task_key_of(e)),
    }
}

/// The round-robin schedule, one decision per recursive step, from a
/// mid-run state: index `i` of `s` onward is not yet admitted, `q` is the
/// ready list in dispatch order, `t` is the clock, and `pend` carries a
/// preempted process that rejoins the tail after the arrivals up to `t`
/// have been admitted (which is why it is held aside rather than pushed
/// at once).  A step admits the next arrived process, lets the preempted
/// one rejoin, jumps an idle gap, or dispatches the head for
/// `min(time_slice, remaining)` units.  The result is the retired entries
/// in completion order, still carrying their dispatch counts.
pub open spec fn rr_rec(
    s: Seq<Process>,
    i: int,
    q: Seq<Task>,
    t: int,
    pend: Option<Task>,
    slice: int,
) -> Seq<Task>
    decreases dur_sum_from(s, i) + rem_sum(q) + pend_rem(pend), s.len() - i, pend_count(pend)
        when 0 <= i <= s.len() && valid_workload(s) && positive_rems(q) && slice >= 1
            && pend_rem(pend) >= 0
{
    if i < s.len() && s[i].arrival <= t {
        proof {
            lemma_rem_sum_push(q, entry_of(s[i]));
            lemma_rem_sum_nonneg(q);
            lemma_dur_sum_from_nonneg(s, i + 1);
        }
        rr_rec(s, i + 1, q.push(entry_of(s[i])), t, pend, slice)
    } else if pend is Some {
        let e = pend->Some_0;
        proof {
            lemma_rem_sum_push(q, e);
            lemma_dur_sum_from_nonneg(s, i);
        }
        rr_rec(s, i, q.push(e), t, Option::None, slice)
    } else if q.len() == 0 {
        if i >= s.len() {
            Seq::empty()
        } else {
            proof {
                lemma_rem_sum_push(q, entry_of(s[i]));
                lemma_dur_sum_from_nonneg(s, i + 1);
            }
            rr_rec(s, i + 1, q.push(entry_of(s[i])), s[i].arrival as int, Option::None, slice)
        }
    } else {
        let task = q[0];
        let started = if task.first_run == -1i32 {
            t as i32
        } else {
            task.first_run
        };
        proof {
            lemma_dur_sum_from_nonneg(s, i);
            assert forall|k: int| 0 <= k < q.drop_first().len() implies (#[trigger] q.drop_first(
            )[k]).rem >= 0 by {
                assert(q.drop_first()[k] == q[k + 1]);
            }
            lemma_rem_sum_nonneg(q.drop_first());
        }
        if task.rem <= slice {
            let done = Task {
                arrival: task.arrival,
                duration: task.duration,
                rem: 0,
                first_run: started,
                completion: (t + task.rem) as i32,
                runs: (task.runs + 1) as i32,
            };
            seq![done] + rr_rec(s, i, q.drop_first(), t + task.rem, Option::None, slice)
        } else {
            let run = Task {
                arrival: task.arrival,
                duration: task.duration,
                rem: (task.rem - slice) as i32,
                first_run: started,
                completion: task.completion,
                runs: (task.runs + 1) as i32,
            };
            rr_rec(s, i, q.drop_first(), t + slice, Option::Some(run), slice)
        }
    }
}

/// The round-robin schedule as completed process records.
pub open spec fn rr_schedule(s: Seq<Process>, slice: int) -> Seq<Process> {
    rr_rec(s, 0, Seq::<Task>::empty(), s[0].arrival as int, Option::None, slice).map_values(
        |e: Task| record_of(e),
    )
}

/// What holds of a dispatched or waiting round-robin entry at clock `t`
/// under quantum `slice`: it has arrived, owes between one unit and its
/// whole duration, its first-run stamp behaves, its dispatch count is
/// consistent with the work done so far — every completed dispatch
/// granted exactly one full quantum, or the entry would have retired.
pub open spec fn rr_entry_inv(e: Task, t: int, slice: int) -> bool {
    &&& 1 <= e.rem <= e.duration
    &&& 0 <= e.arrival <= t
    &&& (e.first_run == -1i32 ==> e.runs == 0)
    &&& (e.first_run != -1i32 ==> e.arrival <= e.first_run <= t)
    &&& e.runs >= 0
    &&& e.rem == e.duration - e.runs * slice
}

/// The queue-wide form of `rr_entry_inv`.
pub open spec fn rr_q_inv(q: Seq<Task>, t: int, slice: int) -> bool {
    forall|k: int| 0 <= k < q.len() ==> rr_entry_inv(#[trigger] q[k], t, slice)
}

/// The pending form of `rr_entry_inv`: a preempted entry has run.
pub open spec fn rr_pend_inv(pend: Option<Task>, t: int, slice: int) -> bool {
    match pend {
        Option::None => true,
        Option::Some(e) => rr_entry_inv(e, t, slice) && e.first_run != -1i32,
    }
}

/// The facts every round-robin run obeys, proved by induction over the
/// model: one retired entry per pending process, conservation of the
/// (arrival, duration) pairs and of the total work, first run no earlier
/// than arrival, completion no earlier than first run, completions in
/// clock order, and the quantum law — a retired entry's dispatch count
/// `runs` satisfies `(runs - 1) * slice < duration <= runs * slice`,
/// which says each dispatch granted at most one quantum and the process
/// was dispatched exactly as often as its duration required.
#[verifier::rlimit(100)]
pub proof fn lemma_rr_rec_props(
    s: Seq<Process>,
    i: int,
    q: Seq<Task>,
    t: int,
    pend: Option<Task>,
    slice: int,
)
    requires
        valid_workload(s),
        fits(s),
        0 <= i <= s.len(),
        slice >= 1,
        rr_q_inv(q, t, slice),
        rr_pend_inv(pend, t, slice),
        t >= 0,
        t + rem_sum(q) + pend_rem(pend) + dur_sum_from(s, i) <= i32::MAX,
    ensures
        ({
            let out = rr_rec(s, i, q, t, pend, slice);
            &&& out.len() == s.len() - i + q.len() + pend_count(pend)
            &&& out.map_values(|e: Task| task_key_of(e)).to_multiset() == s.skip(i).map_values(
                |p: Process| key_of(p),
            ).to_multiset().add(q.map_values(|e: Task| task_key_of(e)).to_multiset()).add(
                pend_keys(pend),
            )
            &&& task_dur_sum(out) == dur_sum_from(s, i) + task_dur_sum(q) + pend_dur(pend)
            &&& forall|j: int|
                0 <= j < out.len() ==> {
                    &&& (#[trigger] out[j]).duration >= 1
                    &&& 0 <= out[j].arrival <= out[j].first_run <= out[j].completion
                    &&& out[j].completion >= t + 1
                    &&& out[j].runs >= 1
                    &&& (out[j].runs - 1) * slice < out[j].duration <= out[j].runs * slice
                }
            &&& forall|j1: int, j2: int|
                0 <= j1 <= j2 < out.len() ==> (#[trigger] out[j1]).completion
                    <= (#[trigger] out[j2]).completion
        }),
    decreases dur_sum_from(s, i) + rem_sum(q) + pend_rem(pend), s.len() - i, pend_count(pend),
{
    broadcast use vstd::seq_lib::group_to_multiset_ensures;

    let out = rr_rec(s, i, q, t, pend, slice);
    let keys = |p: Process| key_of(p);
    let tkeys = |e: Task| task_key_of(e);
    lemma_dur_sum_from_nonneg(s, i);
    if i < s.len() && s[i].arrival <= t {
        lemma_rem_sum_push(q, entry_of(s[i]));
        lemma_rem_sum_nonneg(q);
        lemma_task_dur_sum_push(q, entry_of(s[i]));
        assert(entry_of(s[i]).rem == entry_of(s[i]).duration - entry_of(s[i]).runs * slice) by {
            assert(0int * slice == 0) by (nonlinear_arith);
        }
        lemma_rr_rec_props(s, i + 1, q.push(entry_of(s[i])), t, pend, slice);
        assert(q.push(entry_of(s[i])).map_values(tkeys) =~= q.map_values(tkeys).push(
            key_of(s[i]),
        ));
        assert(s.skip(i).map_values(keys).remove(0) =~= s.skip(i + 1).map_values(keys));
        lemma_head_to_multiset(s.skip(i).map_values(keys));
        assert(out.map_values(tkeys).to_multiset() =~= s.skip(i).map_values(
            keys,
        ).to_multiset().add(q.map_values(tkeys).to_multiset()).add(pend_keys(pend)));
    } else if pend is Some {
        let e = pend->Some_0;
        lemma_rem_sum_push(q, e);
        lemma_task_dur_sum_push(q, e);
        lemma_rr_rec_props(s, i, q.push(e), t, Option::None, slice);
        assert(q.push(e).map_values(tkeys) =~= q.map_values(tkeys).push(task_key_of(e)));
        assert(out.map_values(tkeys).to_multiset() =~= s.skip(i).map_values(
            keys,
        ).to_multiset().add(q.map_values(tkeys).to_multiset()).add(pend_keys(pend)));
    } else if q.len() == 0 {
        if i >= s.len() {
            assert(out.map_values(tkeys) =~= Seq::<(i32, i32)>::empty());
            assert(s.skip(i).map_values(keys) =~= Seq::<(i32, i32)>::empty());
            assert(q.map_values(tkeys) =~= Seq::<(i32, i32)>::empty());
            lemma_empty_to_multiset::<(i32, i32)>();
            assert(out.map_values(tkeys).to_multiset() =~= s.skip(i).map_values(
                keys,
            ).to_multiset().add(q.map_values(tkeys).to_multiset()).add(pend_keys(pend)));
        } else {
            let t1 = s[i].arrival as int;
            lemma_rem_sum_push(q, entry_of(s[i]));
            lemma_dur_sum_from_le(s, 0, i);
            assert(s[i].arrival <= s[s.len() - 1].arrival);
            assert(t1 + rem_sum(q.push(entry_of(s[i]))) + dur_sum_from(s, i + 1) <= i32::MAX);
            lemma_task_dur_sum_push(q, entry_of(s[i]));
            assert(entry_of(s[i]).rem == entry_of(s[i]).duration - entry_of(s[i]).runs * slice)
                by {
                assert(0int * slice == 0) by (nonlinear_arith);
            }
            lemma_rr_rec_props(s, i + 1, q.push(entry_of(s[i])), t1, Option::None, slice);
            assert(q.push(entry_of(s[i])).map_values(tkeys) =~= q.map_values(tkeys).push(
                key_of(s[i]),
            ));
            assert(s.skip(i).map_values(keys).remove(0) =~= s.skip(i + 1).map_values(keys));
            lemma_head_to_multiset(s.skip(i).map_values(keys));
            assert(out.map_values(tkeys).to_multiset() =~= s.skip(i).map_values(
                keys,
            ).to_multiset().add(q.map_values(tkeys).to_multiset()).add(pend_keys(pend)));
        }
    } else {
        let task = q[0];
        let started = if task.first_run == -1i32 {
            t as i32
        } else {
            task.first_run
        };
        assert(q.drop_first().len() == q.len() - 1);
        assert forall|k: int| 0 <= k < q.drop_first().len() implies rr_entry_inv(
            #[trigger] q.drop_first()[k],
            t,
            slice,
        ) by {
            assert(q.drop_first()[k] == q[k + 1]);
        }
        lemma_rem_sum_nonneg(q.drop_first());
        assert(rem_sum(q) == task.rem + rem_sum(q.drop_first()));
        assert(task_dur_sum(q) == task.duration + task_dur_sum(q.drop_first()));
        assert(q.map_values(tkeys)[0] == task_key_of(task));
        assert(q.map_values(tkeys).remove(0) =~= q.drop_first().map_values(tkeys));
        lemma_head_to_multiset(q.map_values(tkeys));
        if task.rem <= slice {
            let done = Task {
                arrival: task.arrival,
                duration: task.duration,
                rem: 0,
                first_run: started,
                completion: (t + task.rem) as i32,
                runs: (task.runs + 1) as i32,
            };
            assert(task.runs + 1 <= task.duration) by {
                assert(task.runs * slice >= task.runs) by (nonlinear_arith)
                    requires task.runs >= 0 && slice >= 1;
            }
            let rest = rr_rec(s, i, q.drop_first(), t + task.rem, Option::None, slice);
            lemma_rr_rec_props(s, i, q.drop_first(), t + task.rem, Option::None, slice);
            assert(out == seq![done] + rest);
            assert(forall|j: int| 0 <= j < rest.len() ==> rest[j] == (#[trigger] out[j + 1]));
            assert(out.map_values(tkeys).remove(0) =~= rest.map_values(tkeys));
            lemma_head_to_multiset(out.map_values(tkeys));
            assert(out.map_values(tkeys).to_multiset() =~= s.skip(i).map_values(
                keys,
            ).to_multiset().add(q.map_values(tkeys).to_multiset()).add(pend_keys(pend)));
            assert(task_dur_sum(out) == done.duration + task_dur_sum(rest)) by {
                assert((seq![done] + rest).drop_first() =~= rest);
            }
            // the quantum law for the retiring entry
            assert((done.runs - 1) * slice < done.duration <= done.runs * slice) by {
                assert((task.runs + 1) * slice == task.runs * slice + slice)
                    by (nonlinear_arith);
            }
        } else {
            let run = Task {
                arrival: task.arrival,
                duration: task.duration,
                rem: (task.rem - slice) as i32,
                first_run: started,
                completion: task.completion,
                runs: (task.runs + 1) as i32,
            };
            assert(task.runs + 1 <= task.duration - (task.rem - slice)) by {
                assert(task.runs * slice >= task.runs) by (nonlinear_arith)
                    requires task.runs >= 0 && slice >= 1;
            }
            assert(run.rem == run.duration - run.runs * slice) by {
                assert((task.runs + 1) * slice == task.runs * slice + slice)
                    by (nonlinear_arith);
            }
            lemma_rem_sum_push(q.drop_first(), run);
            lemma_task_dur_sum_push(q.drop_first(), run);
            lemma_rr_rec_props(s, i, q.drop_first(), t + slice, Option::Some(run), slice);
            assert(out == rr_rec(s, i, q.drop_first(), t + slice, Option::Some(run), slice));
            assert(pend_keys(Option::Some(run)) =~= Multiset::empty().insert(task_key_of(task)));
            assert(out.map_values(tkeys).to_multiset() =~= s.skip(i).map_values(
                keys,
            ).to_multiset().add(q.map_values(tkeys).to_multiset()).add(pend_keys(pend)));
        }
    }
}

/// Dispatches the ready list head for at most `time_slice` contiguous
/// units; a preempted process rejoins the tail behind the processes that
/// arrived while it ran; idle gaps are jumped to the next arrival.
pub fn rr(workload: Vec<Process>, time_slice: i32) -> (out: Vec<Process>)
    requires
        valid_workload(workload@),
        fits(workload@),
        time_slice >= 1,
    ensures
        out@ == rr_schedule(workload@, time_slice as int),
        out@.len() == workload@.len(),
{
    let ghost s = workload@;
    proof {
        assert(s[0].arrival <= s[s.len() - 1].arrival);
        lemma_rr_rec_props(
            s,
            0,
            Seq::<Task>::empty(),
            s[0].arrival as int,
            Option::None,
            time_slice as int,
        );
    }
    let ghost slice = time_slice as int;
    let ghost t0 = s[0].arrival as int;
    let mut out: Vec<Process> = Vec::new();
    let ghost mut retired: Seq<Task> = Seq::<Task>::empty();
    let mut q: Vec<Task> = Vec::new();
    let mut pending: Option<Task> = Option::None;
    let mut t: i32 = workload[0].arrival;
    let mut i: usize = 0;
    while i < workload.len() || q.len() > 0 || pending.is_some()
        invariant
            valid_workload(s),
            fits(s),
            workload@ == s,
            slice == time_slice as int,
            time_slice >= 1,
            0 <= i <= s.len(),
            forall|k: int|
                0 <= k < q@.len() ==> {
                    &&& 1 <= (#[trigger] q@[k]).rem <= q@[k].duration
                    &&& 0 <= q@[k].arrival <= t
                    &&& 0 <= q@[k].runs <= q@[k].duration - q@[k].rem
                },
            match pending {
                Option::None => true,
                Option::Some(e) => {
                    &&& 1 <= e.rem <= e.duration
                    &&& 0 <= e.arrival <= t
                    &&& 0 <= e.runs <= e.duration - e.rem
                },
            },
            t >= 0,
            t as int + rem_sum(q@) + pend_rem(pending) + dur_sum_from(s, i as int) <= i32::MAX,
            rr_rec(s, 0, Seq::<Task>::empty(), t0, Option::None, slice) == retired + rr_rec(
                s,
                i as int,
                q@,
                t as int,
                pending,
                slice,
            ),
            out@ == retired.map_values(|e: Task| record_of(e)),
        decreases dur_sum_from(s, i as int) + rem_sum(q@) + pend_rem(pending),
            s.len() - i,
            pend_count(pending),
    {
        let ghost qpre = q@;
        let ghost ipre = i as int;
        let ghost tpre = t as int;
        let ghost ppre = pending;
        if i < workload.len() && workload[i].arrival <= t {
            let p = workload[i];
            proof {
                lemma_rem_sum_push(q@, entry_of(p));
            }
            q.push(
                Task {
                    arrival: p.arrival,
                    duration: p.duration,
                    rem: p.duration,
                    first_run: -1,
                    completion: 0,
                    runs: 0,
                },
            );
            i += 1;
            proof {
                assert(q@ == qpre.push(entry_of(p)));
                assert(rr_rec(s, ipre, qpre, tpre, ppre, slice) == rr_rec(
                    s,
                    i as int,
                    q@,
                    t as int,
                    pending,
                    slice,
                ));
            }
        } else if pending.is_some() {
            let e = match pending {
                Option::Some(e) => e,
                Option::None => unreached(),
            };
            proof {
                lemma_rem_sum_push(q@, e);
            }
            q.push(e);
            pending = Option::None;
            proof {
                assert(q@ == qpre.push(e));
                assert(rr_rec(s, ipre, qpre, tpre, ppre, slice) == rr_rec(
                    s,
                    i as int,
                    q@,
                    t as int,
                    pending,
                    slice,
                ));
            }
        } else if q.len() == 0 {
            let p = workload[i];
            proof {
                lemma_rem_sum_push(q@, entry_of(p));
                lemma_dur_sum_from_le(s, 0, ipre);
                assert(p.arrival <= s[s.len() - 1].arrival);
            }
            t = p.arrival;
            q.push(
                Task {
                    arrival: p.arrival,
                    duration: p.duration,
                    rem: p.duration,
                    first_run: -1,
                    completion: 0,
                    runs: 0,
                },
            );
            i += 1;
            proof {
                assert(q@ == qpre.push(entry_of(p)));
                assert(rr_rec(s, ipre, qpre, tpre, ppre, slice) == rr_rec(
                    s,
                    i as int,
                    q@,
                    t as int,
                    pending,
                    slice,
                ));
            }
        } else {
            proof {
                assert forall|k: int| 0 <= k < q@.drop_first().len() implies (
                #[trigger] q@.drop_first()[k]).rem >= 0 by {
                    assert(q@.drop_first()[k] == q@[k + 1]);
                }
                lemma_rem_sum_nonneg(q@.drop_first());
                lemma_dur_sum_from_le(s, i as int, s.len() as int);
                assert(rem_sum(q@) == q@[0].rem + rem_sum(q@.drop_first()));
            }
            let task = q.remove(0);
            proof {
                assert(q@ =~= qpre.drop_first());
            }
            let started = if task.first_run == -1 {
                t
            } else {
                task.first_run
            };
            if task.rem <= time_slice {
                let completion = t + task.rem;
                let ghost done = Task {
                    arrival: task.arrival,
                    duration: task.duration,
                    rem: 0,
                    first_run: started,
                    completion,
                    runs: (task.runs + 1) as i32,
                };
                out.push(
                    Process {
                        arrival: task.arrival,
                        duration: task.duration,
                        first_run: started,
                        completion,
                    },
                );
                t = completion;
                proof {
                    let opre = retired;
                    retired = retired.push(done);
                    let rest = rr_rec(s, i as int, q@, t as int, Option::None, slice);
                    assert(rr_rec(s, ipre, qpre, tpre, ppre, slice) == seq![done] + rest);
                    assert(opre + (seq![done] + rest) =~= retired + rest);
                    assert(retired.map_values(|e: Task| record_of(e)) =~= opre.map_values(
                        |e: Task| record_of(e),
                    ).push(record_of(done)));
                }
            } else {
                let run = Task {
                    arrival: task.arrival,
                    duration: task.duration,
                    rem: task.rem - time_slice,
                    first_run: started,
                    completion: task.completion,
                    runs: task.runs + 1,
                };
                pending = Option::Some(run);
                t = t + time_slice;
                proof {
                    assert(rr_rec(s, ipre, qpre, tpre, ppre, slice) == rr_rec(
                        s,
                        i as int,
                        q@,
                        t as int,
                        pending,
                        slice,
                    ));
                }
            }
        }
    }
    proof {
        assert(rr_rec(s, s.len() as int, q@, t as int, pending, slice) == Seq::<Task>::empty());
        assert(retired + Seq::<Task>::empty() =~= retired);
    }
    out
}

/// Law: round robin preserves the workload.  One output per input, the
/// multiset of (arrival, duration) pairs is kept, and every output is
/// first run no earlier than its arrival and completes no earlier than
/// its first run.
pub proof fn lemma_rr_conservation(s: Seq<Process>, slice: int)
    requires
        valid_workload(s),
        fits(s),
        slice >= 1,
    ensures
        ({
            let out = rr_schedule(s, slice);
            &&& out.len() == s.len()
            &&& out.map_values(|p: Process| key_of(p)).to_multiset() == s.map_values(
                |p: Process| key_of(p),
            ).to_multiset()
            &&& forall|j: int|
                0 <= j < out.len() ==> 0 <= (#[trigger] out[j]).arrival <= out[j].first_run
                    <= out[j].completion
        }),
{
    let keys = |p: Process| key_of(p);
    let tkeys = |e: Task| task_key_of(e);
    assert(s[0].arrival <= s[s.len() - 1].arrival);
    lemma_rr_rec_props(s, 0, Seq::<Task>::empty(), s[0].arrival as int, Option::None, slice);
    let ts = rr_rec(s, 0, Seq::<Task>::empty(), s[0].arrival as int, Option::None, slice);
    assert(s.skip(0) =~= s);
    assert(Seq::<Task>::empty().map_values(tkeys) =~= Seq::<(i32, i32)>::empty());
    lemma_empty_to_multiset::<(i32, i32)>();
    assert(s.map_values(keys).to_multiset().add(Multiset::<(i32, i32)>::empty()).add(
        Multiset::<(i32, i32)>::empty(),
    ) =~= s.map_values(keys).to_multiset());
    assert(ts.map_values(tkeys) =~= rr_schedule(s, slice).map_values(keys));
    assert(forall|j: int|
        0 <= j < ts.len() ==> rr_schedule(s, slice)[j] == record_of(#[trigger] ts[j]));
}

/// Law: round robin is work-conserving — the time units executed, summed
/// over the output (each process runs exactly its duration before
/// completing), equal the total duration of the input, and the simulated
/// clock only ever increases: completions come out in nondecreasing
/// order.
pub proof fn lemma_rr_work_conserving(s: Seq<Process>, slice: int)
    requires
        valid_workload(s),
        fits(s),
        slice >= 1,
    ensures
        ({
            let out = rr_schedule(s, slice);
            &&& dur_sum(out) == dur_sum(s)
            &&& forall|j1: int, j2: int|
                0 <= j1 <= j2 < out.len() ==> (#[trigger] out[j1]).completion
                    <= (#[trigger] out[j2]).completion
        }),
{
    assert(s[0].arrival <= s[s.len() - 1].arrival);
    lemma_rr_rec_props(s, 0, Seq::<Task>::empty(), s[0].arrival as int, Option::None, slice);
    let ts = rr_rec(s, 0, Seq::<Task>::empty(), s[0].arrival as int, Option::None, slice);
    lemma_dur_sum_map_record(ts);
    assert(forall|j: int|
        0 <= j < ts.len() ==> rr_schedule(s, slice)[j] == record_of(#[trigger] ts[j]));
}

/// Law: the round-robin quantum bound.  Every retired entry of the model
/// was dispatched exactly `ceil(duration / time_slice)` times: its
/// dispatch count `runs` satisfies `(runs - 1) * slice < duration <=
/// runs * slice`.  Together with the dispatch rule — each grant is
/// `min(slice, remaining)` — this pins every dispatch to at most one
/// quantum: the first `runs - 1` grants are exactly `slice` units and the
/// last is `duration - (runs - 1) * slice`, between one unit and a full
/// quantum.
pub proof fn lemma_rr_quantum(s: Seq<Process>, slice: int)
    requires
        valid_workload(s),
        fits(s),
        slice >= 1,
    ensures
        ({
            let ts = rr_rec(s, 0, Seq::<Task>::empty(), s[0].arrival as int, Option::None, slice);
            forall|j: int|
                0 <= j < ts.len() ==> {
                    &&& (#[trigger] ts[j]).runs >= 1
                    &&& (ts[j].runs - 1) * slice < ts[j].duration <= ts[j].runs * slice
                    &&& ts[j].runs == (ts[j].duration + slice - 1) / slice
                }
        }),
{
    assert(s[0].arrival <= s[s.len() - 1].arrival);
    lemma_rr_rec_props(s, 0, Seq::<Task>::empty(), s[0].arrival as int, Option::None, slice);
    let ts = rr_rec(s, 0, Seq::<Task>::empty(), s[0].arrival as int, Option::None, slice);
    assert forall|j: int| 0 <= j < ts.len() implies (#[trigger] ts[j]).runs == (ts[j].duration
        + slice - 1) / slice by {
        let d = ts[j].duration as int;
        let n = ts[j].runs as int;
        let r = d + slice - 1 - n * slice;
        assert(d + slice - 1 == n * slice + r);
        assert(0 <= r < slice) by {
            assert((n - 1) * slice == n * slice - slice) by (nonlinear_arith);
        }
        vstd::arithmetic::div_mod::lemma_fundamental_div_mod_converse(
            d + slice - 1,
            slice,
            n,
            r,
        );
    }
}

} // verus!
