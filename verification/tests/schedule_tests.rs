use scan_code_sync::tasks::schedule::{name_taken, next_step, sweep_tasks, TaskStatus, TaskStep};

fn st(finished: bool, failed: bool, running: bool) -> TaskStatus {
    TaskStatus { finished, failed, running }
}

#[test]
fn sweep_drops_finished_and_chains_successes() {
    let statuses = vec![st(true, false, false), st(false, false, true), st(true, true, false), st(false, false, false)];
    let sweep = sweep_tasks(&statuses);
    assert_eq!(sweep.kept, vec![1, 3]);
    assert_eq!(sweep.chained, vec![0]);
    let empty = sweep_tasks(&vec![]);
    assert!(empty.kept.is_empty() && empty.chained.is_empty());
}

#[test]
fn next_steps() {
    assert_eq!(next_step(st(true, false, true)), TaskStep::Wait);
    assert_eq!(next_step(st(false, false, true)), TaskStep::Collect);
    assert_eq!(next_step(st(false, true, false)), TaskStep::Start);
}

#[test]
fn duplicate_names() {
    let names = vec!["setup".to_string(), "reset data".to_string()];
    assert!(name_taken(&names, "reset data"));
    assert!(!name_taken(&names, "reset"));
    assert!(!name_taken(&vec![], "setup"));
}
