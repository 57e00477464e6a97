//! The materializing batch pieces: the start/stop controller, the
//! reassembly of completion-ordered outcomes, and the fail-fast flavors.

use taskflow::task::BatchController;
use taskflow::task::TaskItem;
use taskflow::task::collect_options;
use taskflow::task::collect_results;
use taskflow::task::reorder;

#[test]
fn controller_bounds_starts_and_stops_on_failure() {
    let mut ctl = BatchController::new(8, 3);
    let mut running: Vec<usize> = Vec::new();
    // Fill to the limit: starts come out in submission order.
    while let Some(i) = ctl.try_start() {
        running.push(i);
    }
    assert_eq!(running, vec![0, 1, 2]);
    // One finish frees one slot.
    ctl.finish(true);
    assert_eq!(ctl.try_start(), Some(3));
    assert_eq!(ctl.try_start(), None);
    // A failure stops the batch: nothing starts any more, however many
    // slots free up.
    ctl.finish(false);
    ctl.finish(true);
    ctl.finish(true);
    assert_eq!(ctl.try_start(), None);
}

#[test]
fn reorder_restores_submission_order() {
    let pairs = vec![
        TaskItem(3, "d"),
        TaskItem(0, "a"),
        TaskItem(2, "c"),
        TaskItem(1, "b"),
    ];
    let r = reorder(pairs);
    assert_eq!(r, vec!["a", "b", "c", "d"]);
}

#[test]
fn collect_results_reindexes_successes() {
    let outcomes: Vec<(usize, Result<i32, i32>)> =
        vec![(2, Ok(20)), (0, Ok(0)), (1, Ok(10))];
    assert_eq!(collect_results(outcomes), Ok(vec![0, 10, 20]));
}

#[test]
fn collect_results_returns_first_error_by_completion_order() {
    // The error at completion position one wins, not the smaller index
    // failing later.
    let outcomes: Vec<(usize, Result<i32, i32>)> =
        vec![(4, Ok(4)), (2, Err(-2)), (0, Err(-10)), (1, Ok(1))];
    assert_eq!(collect_results(outcomes), Err(-2));
}

#[test]
fn collect_options_absent_item_wins() {
    let outcomes: Vec<(usize, Option<i32>)> = vec![(1, Some(1)), (0, None)];
    assert_eq!(collect_options(outcomes), None);
    let outcomes: Vec<(usize, Option<i32>)> = vec![(1, Some(10)), (0, Some(5))];
    assert_eq!(collect_options(outcomes), Some(vec![5, 10]));
}

#[test]
fn batch_reorders_fifty_operations_under_limit() {
    // Fifty operations, each resolving to its own index, limit
    // twenty-five, completions in a scattered order: the materialized
    // result is still the submission order.
    let n = 50usize;
    let mut ctl = BatchController::new(n, 25);
    let mut in_flight: Vec<usize> = Vec::new();
    let mut outcomes: Vec<TaskItem<usize>> = Vec::new();
    let mut tick = 0usize;
    loop {
        while let Some(i) = ctl.try_start() {
            in_flight.push(i);
        }
        if in_flight.is_empty() {
            break;
        }
        // Pick a different in-flight operation each round.
        let pick = (tick * 7 + 3) % in_flight.len();
        tick += 1;
        let i = in_flight.remove(pick);
        outcomes.push(TaskItem(i, i));
        ctl.finish(true);
    }
    let r = reorder(outcomes);
    assert_eq!(r, (0..n).collect::<Vec<_>>());
}

#[test]
fn batch_run_with_failures_stops_early() {
    // Eight operations, limit three, completions in start order;
    // operation one fails. Nothing starts once the failure is seen.
    let n = 8usize;
    let mut ctl = BatchController::new(n, 3);
    let mut in_flight: Vec<usize> = Vec::new();
    let mut started: Vec<usize> = Vec::new();
    let mut outcomes: Vec<(usize, Result<usize, usize>)> = Vec::new();
    loop {
        while let Some(i) = ctl.try_start() {
            in_flight.push(i);
            started.push(i);
        }
        if in_flight.is_empty() {
            break;
        }
        let i = in_flight.remove(0);
        let ok = i != 1;
        outcomes.push((i, if ok { Ok(i) } else { Err(i) }));
        ctl.finish(ok);
    }
    // Starts stopped as soon as the failure was reported; the already
    // running operations were still awaited.
    assert_eq!(started, vec![0, 1, 2, 3]);
    assert_eq!(collect_results(outcomes), Err(1));
}
