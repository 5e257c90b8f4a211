use jiff::Timestamp;
use tasky::{Dependency, LinkKind, Result, Task, TaskLink, TaskStatus};

const NOW: Timestamp = Timestamp::UNIX_EPOCH;

fn task() -> Task {
    Task::new(
        "T".into(),
        "F".into(),
        "Work".into(),
        String::new(),
        String::new(),
        NOW,
    )
    .unwrap()
}

#[test]
fn happy_path_walks_every_state_in_order() {
    let mut task = task();
    assert!(task.start(false, NOW).is_err(), "blocked");
    task.start(true, NOW).unwrap();
    assert_eq!(task.status, TaskStatus::InProgress);
    task.begin_testing(NOW).unwrap();
    assert_eq!(task.status, TaskStatus::Testing);
    task.fail_testing(NOW).unwrap();
    assert_eq!(task.status, TaskStatus::InProgress);
    task.begin_testing(NOW).unwrap();
    task.pass_testing(NOW).unwrap();
    assert_eq!(task.status, TaskStatus::ReadyForMerge);
    task.finish(NOW).unwrap();
    assert_eq!(task.status, TaskStatus::Done);
    assert!(task.completed_at.is_some());
    assert!(!task.status.is_open());
}

#[test]
fn no_state_can_be_skipped_or_revisited_after_done() {
    let mut task = task();
    assert!(task.finish(NOW).is_err(), "todo cannot finish");
    assert!(task.begin_testing(NOW).is_err(), "todo cannot test");
    assert!(task.pass_testing(NOW).is_err());
    assert!(task.fail_testing(NOW).is_err());
    task.start(true, NOW).unwrap();
    assert!(task.start(true, NOW).is_err());
    assert!(task.finish(NOW).is_err(), "in progress cannot finish");
    assert!(task.pass_testing(NOW).is_err(), "must be testing first");
    assert!(task.require_editable_dependencies().is_err());
    task.begin_testing(NOW).unwrap();
    assert!(task.finish(NOW).is_err(), "testing cannot finish");
    task.pass_testing(NOW).unwrap();
    assert!(
        task.fail_testing(NOW).is_err(),
        "ready for merge cannot fail"
    );
    task.finish(NOW).unwrap();
    assert!(task.cancel(NOW).is_err());
    assert!(task.finish(NOW).is_err());
    assert!(task.set_pr(Some("x".into()), NOW).is_err());
    assert!(task.set_test_plan("x".into(), NOW).is_err());
}

#[test]
fn cancel_works_from_every_open_state() {
    for steps in 0..4 {
        let mut task = task();
        let moves: [fn(&mut Task) -> Result<()>; 4] = [
            |t| t.start(true, NOW),
            |t| t.begin_testing(NOW),
            |t| t.pass_testing(NOW),
            |t| t.finish(NOW),
        ];
        for step in moves.iter().take(steps) {
            step(&mut task).unwrap();
        }
        task.cancel(NOW).unwrap();
        assert_eq!(task.status, TaskStatus::Cancelled, "after {steps} steps");
        assert!(task.start(true, NOW).is_err());
    }
}

#[test]
fn test_plan_and_pr_are_editable_while_open() {
    let mut task = task();
    task.set_test_plan("1. run cargo test".into(), NOW).unwrap();
    assert_eq!(task.test_plan, "1. run cargo test");
    task.set_pr(Some("https://example.com/pr/1".into()), NOW)
        .unwrap();
    assert_eq!(task.pr.as_deref(), Some("https://example.com/pr/1"));
    task.set_pr(Some("  ".into()), NOW).unwrap();
    assert_eq!(task.pr, None, "blank clears");
    task.cancel(NOW).unwrap();
    assert!(task.set_pr(Some("x".into()), NOW).is_err());
}

#[test]
fn links_and_edges_are_validated() {
    assert!(Dependency::new("a".into(), "a".into()).is_err());
    assert!(
        TaskLink::new(
            "L".into(),
            "T".into(),
            LinkKind::Commit,
            "abc123".into(),
            NOW
        )
        .is_ok()
    );
    assert!(TaskLink::new("L".into(), "T".into(), LinkKind::Url, " ".into(), NOW).is_err());
}
