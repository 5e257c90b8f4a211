use jiff::Timestamp;
use tasky::rows::{DependencyRow, GoalRow, LinkRow, ProjectRow, TaskRow};
use tasky::{Dependency, Error, Goal, LinkKind, Project, Task, TaskLink};

fn at() -> Timestamp {
    Timestamp::new(1_123_456_789, 123_000_000).unwrap()
}

#[test]
fn records_read_back_as_written() {
    let project = Project::new(
        "P".into(),
        Some("Q".into()),
        "app".into(),
        "App".into(),
        Some("/home/me/app".into()),
        None,
        at(),
    )
    .unwrap();
    let row = ProjectRow::from_project(&project);
    assert_eq!(row.created_at, "2005-08-07T23:19:49.123Z");
    assert_eq!(row.into_project().unwrap(), project);

    let mut goal = Goal::new(
        "G".into(),
        "P".into(),
        None,
        "auth".into(),
        "Auth".into(),
        "Log in".into(),
        Some("spec".into()),
        at(),
    )
    .unwrap();
    goal.activate(Timestamp::UNIX_EPOCH).unwrap();
    goal.complete(&[], &[], Timestamp::UNIX_EPOCH).unwrap();
    let row = GoalRow::from_goal(&goal);
    assert_eq!(row.status, "complete");
    assert_eq!(row.completed_at.as_deref(), Some("1970-01-01T00:00:00Z"));
    assert_eq!(row.into_goal().unwrap(), goal);

    let mut task = Task::new("T".into(), "G".into(), "Work".into(), "b".into(), "p".into(), at()).unwrap();
    task.start(true, at()).unwrap();
    let row = TaskRow::from_task(&task);
    assert_eq!(row.status, "in_progress");
    assert_eq!(row.completed_at, None);
    assert_eq!(row.into_task().unwrap(), task);

    let link = TaskLink::new("L".into(), "T".into(), LinkKind::Url, "https://x".into(), at()).unwrap();
    let row = LinkRow::from_link(&link);
    assert_eq!(row.kind, "url");
    assert_eq!(row.into_link().unwrap(), link);

    let dependency = Dependency::new("T".into(), "U".into()).unwrap();
    let row = DependencyRow::from_dependency(&dependency);
    assert_eq!(row.into_dependency().unwrap(), dependency);
}

#[test]
fn malformed_rows_are_refused() {
    let task = Task::new("T".into(), "G".into(), "Work".into(), String::new(), String::new(), at()).unwrap();
    let mut row = TaskRow::from_task(&task);
    row.status = "bogus".into();
    assert_eq!(
        row.clone().into_task().err(),
        Some(Error::Invalid("unknown TaskStatus: \"bogus\"".into()))
    );
    row.status = "todo".into();
    row.updated_at = "yesterday".into();
    assert_eq!(
        row.clone().into_task().err(),
        Some(Error::Invalid("invalid updated_at timestamp \"yesterday\"".into()))
    );
    row.updated_at = row.created_at.clone();
    row.completed_at = Some("soon".into());
    assert_eq!(
        row.into_task().err(),
        Some(Error::Invalid("invalid completed_at timestamp \"soon\"".into()))
    );
    let link = LinkRow {
        id: "L".into(),
        task_id: "T".into(),
        kind: "tag".into(),
        reference: "v1".into(),
        created_at: "2024-06-19T19:22:45Z".into(),
    };
    assert_eq!(
        link.into_link().err(),
        Some(Error::Invalid("unknown LinkKind: \"tag\"".into()))
    );
    let edge = DependencyRow {
        task_id: "T".into(),
        depends_on_id: "T".into(),
    };
    assert_eq!(
        edge.into_dependency().err(),
        Some(Error::Invalid("a task cannot depend on itself".into()))
    );
    let project = ProjectRow {
        id: "P".into(),
        parent_id: None,
        slug: "app".into(),
        name: "App".into(),
        repo_path: None,
        repo_url: None,
        created_at: "2024-06-19 15:22:45-04".into(),
    };
    assert_eq!(
        project.into_project().unwrap().created_at.to_string(),
        "2024-06-19T19:22:45Z",
        "any offset jiff accepts reads back in UTC"
    );
}
