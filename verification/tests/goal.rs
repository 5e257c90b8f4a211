use jiff::Timestamp;
use tasky::{Goal, GoalStatus, Task, TaskStatus};

fn now() -> Timestamp {
    Timestamp::UNIX_EPOCH
}

fn goal_named(id: &str, parent: Option<&str>) -> Goal {
    Goal::new(
        id.into(),
        "P1".into(),
        parent.map(str::to_owned),
        id.to_lowercase(),
        id.to_uppercase(),
        String::new(),
        None,
        now(),
    )
    .unwrap()
}

fn goal() -> Goal {
    goal_named("F1", None)
}

fn done_task(id: &str) -> Task {
    let mut task = Task::new(
        id.into(),
        "F1".into(),
        "Work".into(),
        String::new(),
        String::new(),
        now(),
    )
    .unwrap();
    task.start(true, now()).unwrap();
    task.begin_testing(now()).unwrap();
    task.pass_testing(now()).unwrap();
    task.finish(now()).unwrap();
    task
}

#[test]
fn creation_validates_fields() {
    let new = |slug: &str, title: &str, parent: Option<&str>| {
        Goal::new(
            "F".into(),
            "P".into(),
            parent.map(str::to_owned),
            slug.into(),
            title.into(),
            String::new(),
            None,
            now(),
        )
    };
    assert!(new("Bad Slug", "T", None).is_err());
    assert!(new("ok", " ", None).is_err());
    assert!(new("ok", "T", Some("F")).is_err(), "self parent");
    assert_eq!(
        new("ok", "T", Some("G")).unwrap().parent_id.as_deref(),
        Some("G")
    );
    let with_spec = Goal::new(
        "F".into(),
        "P".into(),
        None,
        "ok".into(),
        "T".into(),
        String::new(),
        Some("  ".into()),
        now(),
    )
    .unwrap();
    assert_eq!(with_spec.spec, None, "blank specs are dropped");
}

#[test]
fn spec_is_optional_and_editable_while_open() {
    let mut goal = goal();
    assert_eq!(goal.spec, None);
    goal.activate(now()).unwrap();
    assert!(goal.activate(now()).is_err());
    goal.set_spec(Some("Requirements".into()), now()).unwrap();
    assert_eq!(goal.spec.as_deref(), Some("Requirements"));
    goal.set_spec(None, now()).unwrap();
    assert_eq!(goal.spec, None);
    goal.cancel(&[], now()).unwrap();
    assert!(goal.set_spec(Some("Late".into()), now()).is_err());
}

#[test]
fn completion_requires_finished_tasks() {
    let mut goal = goal();
    let mut task = Task::new(
        "T1".into(),
        "F1".into(),
        "Work".into(),
        String::new(),
        String::new(),
        now(),
    )
    .unwrap();
    let one = |task: &Task| vec![task.clone()];
    assert!(goal.complete(&one(&task), &[], now()).is_err(), "draft");
    goal.activate(now()).unwrap();
    assert!(goal.complete(&one(&task), &[], now()).is_err(), "open task");
    task.start(true, now()).unwrap();
    task.begin_testing(now()).unwrap();
    assert!(
        goal.complete(&one(&task), &[], now()).is_err(),
        "testing is still open"
    );
    task.pass_testing(now()).unwrap();
    task.finish(now()).unwrap();
    assert_eq!(task.status, TaskStatus::Done);
    goal.complete(&one(&task), &[], now()).unwrap();
    assert_eq!(goal.status, GoalStatus::Complete);
    assert!(goal.completed_at.is_some());
    assert!(goal.cancel(&[], now()).is_err());
    assert!(goal.require_open().is_err());
}

#[test]
fn closing_requires_closed_subgoals() {
    let mut parent = goal_named("G", None);
    parent.activate(now()).unwrap();
    let mut child = goal_named("C", Some("G"));
    let tasks = [done_task("T")];
    assert!(
        parent
            .complete(&tasks, std::slice::from_ref(&child), now())
            .is_err(),
        "draft sub-goal keeps the parent open"
    );
    assert!(
        parent.cancel(std::slice::from_ref(&child), now()).is_err(),
        "cancel also waits for sub-goals"
    );
    child.cancel(&[], now()).unwrap();
    parent
        .complete(&tasks, std::slice::from_ref(&child), now())
        .unwrap();
    assert_eq!(parent.status, GoalStatus::Complete);

    let mut other = goal_named("H", None);
    let mut done_child = goal_named("D", Some("H"));
    done_child.activate(now()).unwrap();
    done_child.complete(&[], &[], now()).unwrap();
    other
        .cancel(std::slice::from_ref(&done_child), now())
        .unwrap();
    assert_eq!(other.status, GoalStatus::Cancelled);
}

#[test]
fn a_complete_goal_can_be_reopened_and_completed_again() {
    let mut goal = goal_named("G1", None);
    assert!(goal.reopen(now()).is_err());
    goal.activate(now()).unwrap();
    assert!(goal.reopen(now()).is_err());
    goal.complete(&[], &[], now()).unwrap();
    goal.reopen(now()).unwrap();
    assert_eq!(goal.status, GoalStatus::Active);
    assert!(goal.completed_at.is_none());
    goal.complete(&[], &[], now()).unwrap();
    assert_eq!(goal.status, GoalStatus::Complete);
}
