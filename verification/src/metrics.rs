//! Aggregate performance figures over a completion sequence.  The
//! averages themselves are quotients a caller takes at the boundary; the
//! verified core computes the exact integer totals they divide —
//! turnaround time is `completion - arrival`, response time is
//! `first_run - arrival`, summed over every record.  An empty sequence
//! has no average, so the totals require at least one record.

use vstd::prelude::*;

use crate::workload::Process;

verus! {

/// The total turnaround time of the records from index `i` on.
pub open spec fn turnaround_sum_from(s: Seq<Process>, i: int) -> int
    decreases s.len() - i when 0 <= i <= s.len()
{
    if i >= s.len() {
        0
    } else {
        (s[i].completion - s[i].arrival) + turnaround_sum_from(s, i + 1)
    }
}

/// The total turnaround time of a completion sequence.
pub open spec fn turnaround_sum(s: Seq<Process>) -> int {
    turnaround_sum_from(s, 0)
}

/// The total response time of the records from index `i` on.
pub open spec fn response_sum_from(s: Seq<Process>, i: int) -> int
    decreases s.len() - i when 0 <= i <= s.len()
{
    if i >= s.len() {
        0
    } else {
        (s[i].first_run - s[i].arrival) + response_sum_from(s, i + 1)
    }
}

/// The total response time of a completion sequence.
pub open spec fn response_sum(s: Seq<Process>) -> int {
    response_sum_from(s, 0)
}

/// Records whose timing fields are non-negative, as every schedule
/// produces.
pub open spec fn timed_records(s: Seq<Process>) -> bool {
    forall|k: int|
        #![trigger s[k].arrival]
        #![trigger s[k].completion]
        #![trigger s[k].first_run]
        0 <= k < s.len() ==> s[k].arrival >= 0 && s[k].completion >= 0 && s[k].first_run >= 0
}

/// Each record moves either total by less than `2^31` units.
proof fn lemma_turnaround_sum_bound(s: Seq<Process>, i: int)
    requires
        timed_records(s),
        0 <= i <= s.len(),
    ensures
        -((s.len() - i) * 0x7fff_ffff) <= turnaround_sum_from(s, i) <= (s.len() - i)
            * 0x7fff_ffff,
    decreases s.len() - i,
{
    if i < s.len() {
        lemma_turnaround_sum_bound(s, i + 1);
    }
}

/// Each record moves either total by less than `2^31` units.
proof fn lemma_response_sum_bound(s: Seq<Process>, i: int)
    requires
        timed_records(s),
        0 <= i <= s.len(),
    ensures
        -((s.len() - i) * 0x7fff_ffff) <= response_sum_from(s, i) <= (s.len() - i) * 0x7fff_ffff,
    decreases s.len() - i,
{
    if i < s.len() {
        lemma_response_sum_bound(s, i + 1);
    }
}

/// The exact total turnaround time of a non-empty completion sequence;
/// dividing by the record count gives the average turnaround time.
pub fn total_turnaround(processes: &Vec<Process>) -> (r: i64)
    requires
        processes@.len() >= 1,
        processes@.len() <= 0x7fff_ffff,
        timed_records(processes@),
    ensures
        r as int == turnaround_sum(processes@),
{
    let ghost s = processes@;
    let mut acc: i64 = 0;
    let mut j: usize = 0;
    while j < processes.len()
        invariant
            timed_records(s),
            processes@ == s,
            s.len() <= 0x7fff_ffff,
            0 <= j <= s.len(),
            acc as int == turnaround_sum(s) - turnaround_sum_from(s, j as int),
            -((j as int) * 0x7fff_ffff) <= acc as int <= (j as int) * 0x7fff_ffff,
        decreases s.len() - j,
    {
        let p = processes[j];
        acc = acc + ((p.completion as i64) - (p.arrival as i64));
        j += 1;
    }
    acc
}

/// The exact total response time of a non-empty completion sequence;
/// dividing by the record count gives the average response time.
pub fn total_response(processes: &Vec<Process>) -> (r: i64)
    requires
        processes@.len() >= 1,
        processes@.len() <= 0x7fff_ffff,
        timed_records(processes@),
    ensures
        r as int == response_sum(processes@),
{
    let ghost s = processes@;
    let mut acc: i64 = 0;
    let mut j: usize = 0;
    while j < processes.len()
        invariant
            timed_records(s),
            processes@ == s,
            s.len() <= 0x7fff_ffff,
            0 <= j <= s.len(),
            acc as int == response_sum(s) - response_sum_from(s, j as int),
            -((j as int) * 0x7fff_ffff) <= acc as int <= (j as int) * 0x7fff_ffff,
        decreases s.len() - j,
    {
        let p = processes[j];
        acc = acc + ((p.first_run as i64) - (p.arrival as i64));
        j += 1;
    }
    acc
}

} // verus!
