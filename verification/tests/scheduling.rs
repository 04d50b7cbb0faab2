use scheduler::fifo::fifo;
use scheduler::rr::rr;
use scheduler::sjf::sjf;
use scheduler::stcf::stcf;
use scheduler::workload::Process;

fn p(arrival: i32, duration: i32) -> Process {
    Process { arrival, duration, first_run: 0, completion: 0 }
}

fn done(arrival: i32, duration: i32, first_run: i32, completion: i32) -> Process {
    Process { arrival, duration, first_run, completion }
}

fn three_process_workload() -> Vec<Process> {
    vec![p(0, 6), p(1, 4), p(2, 3)]
}

#[test]
fn fifo_three_process_scenario() {
    let out = fifo(three_process_workload());
    assert_eq!(
        out,
        vec![done(0, 6, 0, 6), done(1, 4, 6, 10), done(2, 3, 10, 13)]
    );
}

#[test]
fn sjf_three_process_scenario() {
    // only the first process is ready at t = 0 and runs to 6; then the
    // shorter of the two waiting jobs goes first
    let out = sjf(three_process_workload());
    assert_eq!(
        out,
        vec![done(0, 6, 0, 6), done(2, 3, 6, 9), done(1, 4, 9, 13)]
    );
}

#[test]
fn stcf_three_process_scenario() {
    // unit-by-unit: the second arrival preempts at t = 1, runs to
    // completion at 5, the third follows to 8, the first finishes last
    let out = stcf(three_process_workload());
    assert_eq!(
        out,
        vec![done(1, 4, 1, 5), done(2, 3, 5, 8), done(0, 6, 0, 13)]
    );
}

#[test]
fn rr_three_process_scenario() {
    // quantum 2: dispatch order A B C A B C A with the second arrival
    // finishing first
    let out = rr(three_process_workload(), 2);
    assert_eq!(
        out,
        vec![done(1, 4, 2, 10), done(2, 3, 4, 11), done(0, 6, 0, 13)]
    );
}

#[test]
fn fifo_single_process() {
    let out = fifo(vec![p(0, 5)]);
    assert_eq!(out, vec![done(0, 5, 0, 5)]);
}

#[test]
fn sjf_single_process() {
    let out = sjf(vec![p(0, 5)]);
    assert_eq!(out, vec![done(0, 5, 0, 5)]);
}

#[test]
fn stcf_single_process() {
    let out = stcf(vec![p(0, 5)]);
    assert_eq!(out, vec![done(0, 5, 0, 5)]);
}

#[test]
fn rr_single_process() {
    let out = rr(vec![p(0, 5)], 2);
    assert_eq!(out, vec![done(0, 5, 0, 5)]);
}

#[test]
fn sjf_idle_gap_jumps_to_next_arrival() {
    let out = sjf(vec![p(0, 1), p(5, 2)]);
    assert_eq!(out, vec![done(0, 1, 0, 1), done(5, 2, 5, 7)]);
}

#[test]
fn stcf_idle_gap_jumps_to_next_arrival() {
    let out = stcf(vec![p(0, 1), p(5, 2)]);
    assert_eq!(out, vec![done(0, 1, 0, 1), done(5, 2, 5, 7)]);
}

#[test]
fn rr_idle_gap_jumps_to_next_arrival() {
    let out = rr(vec![p(0, 1), p(5, 2)], 3);
    assert_eq!(out, vec![done(0, 1, 0, 1), done(5, 2, 5, 7)]);
}

#[test]
fn fifo_runs_in_input_order_across_gaps() {
    // first-in-first-out does not model idle waiting: the second process
    // is started at the first one's completion even though it arrives
    // later
    let out = fifo(vec![p(0, 1), p(5, 2)]);
    assert_eq!(out, vec![done(0, 1, 0, 1), done(5, 2, 1, 3)]);
}

#[test]
fn sjf_equal_durations_keep_admission_order() {
    let out = sjf(vec![p(0, 3), p(0, 3)]);
    assert_eq!(out, vec![done(0, 3, 0, 3), done(0, 3, 3, 6)]);
}

#[test]
fn stcf_preempts_for_shorter_remaining() {
    // the later, shorter job takes the processor after one unit
    let out = stcf(vec![p(0, 5), p(1, 2)]);
    assert_eq!(out, vec![done(1, 2, 1, 3), done(0, 5, 0, 7)]);
}

#[test]
fn rr_unit_slice_alternates() {
    let out = rr(vec![p(0, 2), p(0, 2)], 1);
    assert_eq!(out, vec![done(0, 2, 0, 3), done(0, 2, 1, 4)]);
}

#[test]
fn rr_large_slice_runs_each_to_completion() {
    // a quantum beyond every duration degenerates to run-to-completion
    // in arrival order
    let out = rr(three_process_workload(), 100);
    assert_eq!(
        out,
        vec![done(0, 6, 0, 6), done(1, 4, 6, 10), done(2, 3, 10, 13)]
    );
}

#[test]
fn stcf_ties_go_to_earliest_admitted() {
    // at t = 2 the running job and the new arrival both have 3 units
    // left; the earlier-admitted one keeps the processor
    let out = stcf(vec![p(0, 4), p(2, 3)]);
    assert_eq!(out, vec![done(0, 4, 0, 4), done(2, 3, 4, 7)]);
}

#[test]
fn sjf_does_not_preempt_running_job() {
    // the short job arrives while the long one runs and still waits
    let out = sjf(vec![p(0, 10), p(1, 1)]);
    assert_eq!(out, vec![done(0, 10, 0, 10), done(1, 1, 10, 11)]);
}

#[test]
fn rr_slice_boundary_completes_without_requeue() {
    let out = rr(vec![p(0, 4)], 2);
    assert_eq!(out, vec![done(0, 4, 0, 4)]);
}

#[test]
fn rr_same_arrival_batch_keeps_admission_order() {
    // equal arrivals stand in duration order in the sorted input and are
    // dispatched in that order
    let out = rr(vec![p(0, 1), p(0, 3)], 2);
    assert_eq!(out, vec![done(0, 1, 0, 1), done(0, 3, 1, 4)]);
}

#[test]
fn outputs_conserve_the_workload() {
    let input = three_process_workload();
    for out in [
        fifo(input.clone()),
        sjf(input.clone()),
        stcf(input.clone()),
        rr(input.clone(), 2),
    ] {
        assert_eq!(out.len(), input.len());
        let mut in_keys: Vec<(i32, i32)> = input.iter().map(|q| (q.arrival, q.duration)).collect();
        let mut out_keys: Vec<(i32, i32)> = out.iter().map(|q| (q.arrival, q.duration)).collect();
        in_keys.sort();
        out_keys.sort();
        assert_eq!(in_keys, out_keys);
        for q in &out {
            assert!(q.arrival <= q.first_run);
            assert!(q.first_run <= q.completion);
        }
    }
}
