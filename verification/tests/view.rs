use jiff::Timestamp;
use tasky::store::TaskDetail;
use tasky::ui::{location, pulses, ranks, task_state_label, State};
use tasky::{Goal, GoalStatus, Project, Task, TaskStatus};

fn detail(id: &str, deps: &[&str], ready: bool) -> TaskDetail {
    TaskDetail {
        task: Task::new(id.into(), "g".into(), id.to_uppercase(), String::new(), String::new(), Timestamp::UNIX_EPOCH)
            .unwrap(),
        project: "p".into(),
        goal: "g".into(),
        ready,
        depends_on: deps.iter().map(|d| (*d).to_owned()).collect(),
        blocked_by: Vec::new(),
        dependents: Vec::new(),
        links: Vec::new(),
    }
}

#[test]
fn states_merge_goal_and_task_lifecycles() {
    assert_eq!(State::from(GoalStatus::Draft), State::Open);
    assert_eq!(State::from(GoalStatus::Active), State::InWork);
    assert_eq!(State::from(GoalStatus::Complete), State::Finished);
    assert_eq!(State::from(GoalStatus::Cancelled), State::Abandoned);
    let mut t = detail("a", &[], true);
    assert_eq!(State::of_task(&t), State::Open);
    t.ready = false;
    assert_eq!(State::of_task(&t), State::Blocked);
    t.task.status = TaskStatus::ReadyForMerge;
    assert_eq!(State::of_task(&t), State::AwaitingMerge);
    t.task.status = TaskStatus::Testing;
    assert_eq!(State::of_task(&t), State::Validating);
}

#[test]
fn ranks_follow_the_longest_prerequisite_chain() {
    let tasks = [
        detail("a", &[], true),
        detail("b", &["a"], false),
        detail("c", &["a", "b"], false),
        detail("d", &["x"], false),
        detail("e", &["d", "c"], false),
    ];
    assert_eq!(ranks(&tasks), vec![0, 1, 2, 0, 3]);
    assert!(ranks(&[]).is_empty());
}

#[test]
fn live_states_pulse() {
    assert!(pulses(State::InWork) && pulses(State::Validating) && pulses(State::AwaitingMerge));
    assert!(!pulses(State::Open) && !pulses(State::Blocked));
    assert!(!pulses(State::Finished) && !pulses(State::Abandoned));
}

#[test]
fn state_labels_read_as_words() {
    let mut t = detail("a", &[], true);
    assert_eq!(task_state_label(&t), "ready");
    t.ready = false;
    assert_eq!(task_state_label(&t), "blocked");
    t.task.status = TaskStatus::ReadyForMerge;
    assert_eq!(task_state_label(&t), "ready for merge");
    t.task.status = TaskStatus::InProgress;
    assert_eq!(task_state_label(&t), "in progress");
    t.task.status = TaskStatus::Done;
    assert_eq!(task_state_label(&t), "done");
}

#[test]
fn locations_use_names_and_fall_back_to_slugs() {
    let project = Project::new("P".into(), None, "app".into(), "My App".into(), None, None, Timestamp::UNIX_EPOCH)
        .unwrap();
    let goal = Goal::new(
        "g".into(),
        "P".into(),
        None,
        "auth".into(),
        "Authentication".into(),
        String::new(),
        None,
        Timestamp::UNIX_EPOCH,
    )
    .unwrap();
    let t = detail("a", &[], true);
    assert_eq!(location(&[project.clone()], &[goal.clone()], &t), "My App › Authentication");
    assert_eq!(location(&[], &[goal], &t), "p › Authentication");
    assert_eq!(location(&[project], &[], &t), "p › g");
}
