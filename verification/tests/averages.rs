use scheduler::fifo::fifo;
use scheduler::metrics::total_response;
use scheduler::metrics::total_turnaround;
use scheduler::rr::rr;
use scheduler::sjf::sjf;
use scheduler::stcf::stcf;
use scheduler::workload::Process;

fn p(arrival: i32, duration: i32) -> Process {
    Process { arrival, duration, first_run: 0, completion: 0 }
}

fn avg(total: i64, count: usize) -> f64 {
    total as f64 / count as f64
}

#[test]
fn fifo_three_process_averages() {
    let out = fifo(vec![p(0, 6), p(1, 4), p(2, 3)]);
    let response = total_response(&out);
    let turnaround = total_turnaround(&out);
    assert_eq!(response, 0 + 5 + 8);
    assert_eq!(turnaround, 6 + 9 + 11);
    assert_eq!(avg(response, out.len()), 13.0 / 3.0);
    assert_eq!(avg(turnaround, out.len()), 26.0 / 3.0);
}

#[test]
fn single_process_averages_are_trivial() {
    for out in [
        fifo(vec![p(0, 5)]),
        sjf(vec![p(0, 5)]),
        stcf(vec![p(0, 5)]),
        rr(vec![p(0, 5)], 2),
    ] {
        assert_eq!(avg(total_response(&out), out.len()), 0.0);
        assert_eq!(avg(total_turnaround(&out), out.len()), 5.0);
    }
}

#[test]
fn totals_sum_exact_fields() {
    let records = vec![
        Process { arrival: 1, duration: 4, first_run: 3, completion: 9 },
        Process { arrival: 2, duration: 1, first_run: 5, completion: 6 },
    ];
    assert_eq!(total_response(&records), (3 - 1) + (5 - 2));
    assert_eq!(total_turnaround(&records), (9 - 1) + (6 - 2));
}
