use jiff::Timestamp;
use tasky::task::link_target;
use tasky::{Error, LinkKind, Task};

const NOW: Timestamp = Timestamp::UNIX_EPOCH;

fn task() -> Task {
    Task::new("T".into(), "F".into(), "Work".into(), String::new(), String::new(), NOW).unwrap()
}

#[test]
fn title_and_body_change_until_the_task_closes() {
    let mut task = task();
    task.set_title("Work well".into(), NOW).unwrap();
    assert_eq!(task.title, "Work well");
    assert_eq!(
        task.set_title(" ".into(), NOW).err(),
        Some(Error::Invalid("title must not be blank".into()))
    );
    assert_eq!(task.title, "Work well");
    task.set_body("Build it well.".into(), NOW).unwrap();
    assert_eq!(task.body, "Build it well.");
    task.cancel(NOW).unwrap();
    assert_eq!(
        task.set_title("Late".into(), NOW).err(),
        Some(Error::Invalid("task T is cancelled and cannot be retitled".into()))
    );
    assert_eq!(
        task.set_body("late".into(), NOW).err(),
        Some(Error::Invalid("task T is cancelled and cannot be given a new body".into()))
    );
    assert_eq!(task.body, "Build it well.");
}

#[test]
fn refusals_name_the_task_and_its_state() {
    let mut task = task();
    assert_eq!(
        task.finish(NOW).err(),
        Some(Error::Invalid("task T is todo and cannot be finished".into()))
    );
    assert_eq!(
        task.start(false, NOW).err(),
        Some(Error::Invalid("task T has unfinished dependencies".into()))
    );
    assert!(task.completed_at.is_none());
    task.cancel(NOW).unwrap();
    assert!(task.completed_at.is_none(), "only done records a completion time");
}

#[test]
fn links_given_on_the_command_line() {
    assert_eq!(
        link_target(Some("abc123".into()), None),
        (LinkKind::Commit, "abc123".to_string())
    );
    assert_eq!(
        link_target(None, Some("https://x".into())),
        (LinkKind::Url, "https://x".to_string())
    );
    assert_eq!(link_target(None, None), (LinkKind::Url, String::new()));
}
