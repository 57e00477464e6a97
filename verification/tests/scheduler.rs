//! Driving the ordered scheduler through its polling protocol with a
//! simulated driver: operations complete after a per-operation number of
//! polls, so completion order varies freely while the output must not.

use taskflow::task::Task;

/// Runs a whole batch to exhaustion. Each operation resolves to its own
/// index and becomes ready after `delays[i]` unproductive polls. Returns
/// the emitted values and checks the admission bound along the way.
fn drive(n: usize, limit: usize, delays: Vec<usize>) -> Vec<usize> {
    assert_eq!(delays.len(), n);
    let mut task: Task<usize> = Task::new(n, limit);
    let mut polls_left = delays;
    let mut admitted = vec![false; n];
    let mut admitted_count = 0usize;
    let mut absorbed = 0usize;
    let mut out: Vec<usize> = Vec::new();
    while !task.done() {
        task.begin_pass();
        while let Some(ord) = task.next_op() {
            if !admitted[ord] {
                admitted[ord] = true;
                admitted_count += 1;
            }
            // Admitted-but-unconsumed operations never exceed the limit.
            assert!(admitted_count - absorbed <= limit);
            if polls_left[ord] == 0 {
                task.op_ready(ord);
                absorbed += 1;
            } else {
                polls_left[ord] -= 1;
                task.op_pending();
            }
        }
        if let Some(v) = task.try_emit() {
            out.push(v);
        }
    }
    out
}

#[test]
fn stream_orders_output_with_scattered_delays() {
    let n = 50;
    let delays: Vec<usize> = (0..n).map(|i| (i * 7 + 3) % 10).collect();
    let out = drive(n, 15, delays);
    assert_eq!(out, (0..n).collect::<Vec<_>>());
}

#[test]
fn stream_orders_output_with_reversed_delays() {
    // Later submissions complete first; emission order must not care.
    let n = 12;
    let delays: Vec<usize> = (0..n).map(|i| n - 1 - i).collect();
    let out = drive(n, 4, delays);
    assert_eq!(out, (0..n).collect::<Vec<_>>());
}

#[test]
fn empty_batch_is_immediately_done() {
    let task: Task<usize> = Task::new(0, 5);
    assert!(task.done());
}

#[test]
fn exhausted_stream_keeps_reporting_end() {
    let n = 6;
    let delays = vec![1, 0, 3, 2, 0, 1];
    let mut task: Task<usize> = Task::new(n, 2);
    let mut polls_left = delays;
    let mut out: Vec<usize> = Vec::new();
    while !task.done() {
        task.begin_pass();
        while let Some(ord) = task.next_op() {
            if polls_left[ord] == 0 {
                task.op_ready(ord);
            } else {
                polls_left[ord] -= 1;
                task.op_pending();
            }
        }
        if let Some(v) = task.try_emit() {
            out.push(v);
        }
    }
    assert_eq!(out, vec![0, 1, 2, 3, 4, 5]);
    // Further pulls find a drained machine, indefinitely.
    for _ in 0..3 {
        assert!(task.done());
        task.begin_pass();
        assert!(task.next_op().is_none());
        assert!(task.try_emit().is_none());
    }
}

#[test]
fn failing_stream_stops_after_first_error_in_completion_order() {
    // Fifteen operations; operation i fails exactly when i >= 10, and its
    // delay grows with its index, so completions arrive in index order.
    let n = 15usize;
    let limit = 5usize;
    let mut task: Task<Result<i32, i32>> = Task::new(n, limit);
    let mut polls_left: Vec<usize> = (0..n).collect();
    let mut completions = 0usize;
    let mut emitted_ok: Vec<i32> = Vec::new();
    let mut first_error: Option<i32> = None;
    'outer: while !task.done() {
        task.begin_pass();
        while let Some(ord) = task.next_op() {
            if polls_left[ord] == 0 {
                completions += 1;
                let outcome = if ord < 10 { Ok(ord as i32) } else { Err(ord as i32) };
                task.op_ready(outcome);
            } else {
                polls_left[ord] -= 1;
                task.op_pending();
            }
        }
        if let Some(v) = task.try_emit() {
            match v {
                Ok(x) => emitted_ok.push(x),
                Err(e) => {
                    // The consumer stops at the first failure, like a
                    // fail-fast collect over the stream would.
                    first_error = Some(e);
                    break 'outer;
                }
            }
        }
    }
    assert_eq!(first_error, Some(10));
    assert_eq!(emitted_ok, (0..10).collect::<Vec<_>>());
    // Operations 0 through 10 completed; the later ones were still
    // pending when consumption stopped.
    assert_eq!(completions, 11);
}

#[test]
fn aborted_stream_is_done_for_good() {
    let mut task: Task<usize> = Task::new(3, 2);
    task.begin_pass();
    let ord = task.next_op().expect("one operation should be handed out");
    assert_eq!(ord, 0);
    task.op_aborted();
    assert!(task.done());
}
