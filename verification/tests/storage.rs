use jiff::Timestamp;
use tasky::dag::Dag;
use tasky::store::{
    apply_repo_change, change, check_goal_scope, goal_slug_free, id_patterns, new_dependency,
    project_slug_free, resolve_goal_slug, select_tasks, single, split_goal_reference, Change,
    GoalDetail, ProjectDetail, TaskCounts, TaskDetail, TaskFilter, TaskScope,
};
use tasky::{Dependency, Error, Goal, Project, Task, TaskStatus};

const NOW: Timestamp = Timestamp::UNIX_EPOCH;

fn project(id: &str, slug: &str) -> Project {
    Project::new(id.into(), None, slug.into(), slug.to_uppercase(), None, None, NOW).unwrap()
}

fn goal(id: &str, project: &str) -> Goal {
    Goal::new(
        id.into(),
        project.into(),
        None,
        id.to_lowercase(),
        id.to_uppercase(),
        String::new(),
        None,
        NOW,
    )
    .unwrap()
}

fn task(id: &str, goal: &str) -> Task {
    Task::new(id.into(), goal.into(), "Work".into(), String::new(), String::new(), NOW).unwrap()
}

#[test]
fn command_line_flags_pick_a_change() {
    assert_eq!(change(Some("x".into()), false), Change::SetTo("x".into()));
    assert_eq!(change(Some("x".into()), true), Change::SetTo("x".into()));
    assert_eq!(change(None, true), Change::Clear);
    assert_eq!(change(None, false), Change::Keep);
    assert_eq!(Change::default(), Change::Keep);
}

#[test]
fn repo_changes_keep_clear_or_set() {
    let mut app = project("P", "app");
    apply_repo_change(&mut app, Change::SetTo("/home/me/app".into()), Change::Keep);
    assert_eq!(app.repo_path.as_deref(), Some("/home/me/app"));
    assert_eq!(app.repo_url, None);
    apply_repo_change(&mut app, Change::Keep, Change::SetTo("git@example.com:app.git".into()));
    assert_eq!(app.repo_path.as_deref(), Some("/home/me/app"), "path kept");
    assert_eq!(app.repo_url.as_deref(), Some("git@example.com:app.git"));
    apply_repo_change(&mut app, Change::Clear, Change::SetTo(" ".into()));
    assert_eq!(app.repo_path, None);
    assert_eq!(app.repo_url, None, "blank clears");
}

#[test]
fn counts_tally_each_status() {
    let mut tasks = vec![task("a", "g"), task("b", "g"), task("c", "g"), task("d", "g")];
    tasks[1].start(true, NOW).unwrap();
    tasks[2].cancel(NOW).unwrap();
    tasks[3].start(true, NOW).unwrap();
    tasks[3].begin_testing(NOW).unwrap();
    let counts = TaskCounts::of(&tasks);
    assert_eq!(
        counts,
        TaskCounts {
            todo: 1,
            in_progress: 1,
            testing: 1,
            ready_for_merge: 0,
            done: 0,
            cancelled: 1,
        }
    );
    assert_eq!(TaskCounts::of(&[]), TaskCounts::default());
}

#[test]
fn id_fragments_become_patterns() {
    assert_eq!(
        id_patterns("01hzk9ab").unwrap(),
        ("01HZK9AB%".to_string(), "%01HZK9AB".to_string())
    );
    assert_eq!(
        id_patterns("not-an-id").err(),
        Some(Error::Invalid("\"not-an-id\" is not an ID fragment".into()))
    );
    assert!(id_patterns("").is_err());
    assert!(id_patterns("é1").is_err());
}

#[test]
fn lookups_need_exactly_one_row() {
    assert_eq!(
        single(Vec::<u8>::new(), "task", "0").err(),
        Some(Error::NotFound("task 0".into()))
    );
    assert_eq!(single(vec![7u8], "task", "0"), Ok(7));
    assert_eq!(
        single(vec![1u8, 2], "task", "0").err(),
        Some(Error::Ambiguous("task 0".into()))
    );
}

#[test]
fn scopes_and_statuses_select_tasks() {
    let mut tasks = vec![task("a", "g1"), task("b", "g2"), task("c", "g1")];
    tasks[2].cancel(NOW).unwrap();
    let keep = Some(vec!["g1".to_string()]);
    let ids = |v: Vec<Task>| v.into_iter().map(|t| t.id).collect::<Vec<_>>();
    assert_eq!(ids(select_tasks(tasks.clone(), &keep, None)), vec!["a", "c"]);
    assert_eq!(
        ids(select_tasks(tasks.clone(), &keep, Some(TaskStatus::Cancelled))),
        vec!["c"]
    );
    assert_eq!(ids(select_tasks(tasks.clone(), &None, None)), vec!["a", "b", "c"]);
    assert!(select_tasks(tasks, &Some(Vec::new()), None).is_empty());
    let filter = TaskFilter::default();
    assert!(filter.status.is_none() && filter.scope.project.is_none());
    let scope = TaskScope::default();
    assert!(scope.goal.is_none());
}

#[test]
fn a_scoped_goal_must_be_in_the_scoped_project() {
    let web = project("W", "web");
    let core = goal("G", "A");
    let app = project("A", "app");
    let projects = [app.clone(), web.clone()];
    assert_eq!(
        check_goal_scope(&projects, &core, Some(&web), "core").err(),
        Some(Error::NotFound("goal core in project web".into()))
    );
    assert!(check_goal_scope(&projects, &core, None, "core").is_ok());
    assert!(check_goal_scope(&projects, &goal("G", "W"), Some(&web), "core").is_ok());
    let mobile = Project::new("M".into(), Some("A".into()), "mobile".into(), "Mobile".into(), None, None, NOW)
        .unwrap();
    let projects = [app.clone(), web, mobile];
    assert!(
        check_goal_scope(&projects, &goal("G", "M"), Some(&app), "app/mobile/shell").is_ok(),
        "a goal of a sub-project lies in the scope"
    );
}

#[test]
fn goal_references_split_at_the_last_slash() {
    assert_eq!(
        split_goal_reference("app/auth"),
        Some(("app".to_string(), "auth".to_string()))
    );
    assert_eq!(
        split_goal_reference("app/mobile/shell"),
        Some(("app/mobile".to_string(), "shell".to_string()))
    );
    assert_eq!(split_goal_reference("auth"), None);
}

#[test]
fn shared_goal_slugs_are_ambiguous() {
    assert!(resolve_goal_slug(Vec::new(), "auth").is_none());
    let one = resolve_goal_slug(vec![goal("A", "P")], "auth").unwrap().unwrap();
    assert_eq!(one.id, "A");
    assert_eq!(
        resolve_goal_slug(vec![goal("A", "P"), goal("B", "Q")], "auth")
            .unwrap()
            .err(),
        Some(Error::Ambiguous(
            "goal auth exists in more than one project; use PROJECT/auth".into()
        ))
    );
}

#[test]
fn taken_slugs_are_duplicates() {
    assert!(project_slug_free(0, "web").is_ok());
    assert_eq!(
        project_slug_free(1, "web").err(),
        Some(Error::Duplicate("project web".into()))
    );
    assert!(goal_slug_free(0, "app", "auth").is_ok());
    assert_eq!(
        goal_slug_free(1, "app", "auth").err(),
        Some(Error::Duplicate("goal app/auth".into()))
    );
}

#[test]
fn dependencies_stay_within_a_project() {
    let tasks = vec![task("a", "g1"), task("b", "g2")];
    let dag = Dag::new(&tasks, &[]).unwrap();
    assert_eq!(
        new_dependency(&dag, &tasks[1], &tasks[0], "web", "app").err(),
        Some(Error::Invalid(
            "task b cannot depend on a: they belong to different projects".into()
        ))
    );
    assert_eq!(
        new_dependency(&dag, &tasks[1], &tasks[0], "app", "app").unwrap(),
        Dependency::new("b".into(), "a".into()).unwrap()
    );
    assert_eq!(
        new_dependency(&dag, &tasks[1], &tasks[1], "app", "app").err(),
        Some(Error::Invalid("a task cannot depend on itself".into()))
    );
}

#[test]
fn details_gather_what_a_reader_needs() {
    let mut tasks = vec![task("a", "g"), task("b", "g"), task("c", "g")];
    tasks[0].start(true, NOW).unwrap();
    let edges = vec![
        Dependency::new("b".into(), "a".into()).unwrap(),
        Dependency::new("c".into(), "b".into()).unwrap(),
    ];
    let dag = Dag::new(&tasks, &edges).unwrap();
    let detail = TaskDetail::new(tasks[1].clone(), "app".into(), "g".into(), Vec::new(), &dag);
    assert!(!detail.ready);
    assert_eq!(detail.depends_on, vec!["a".to_string()]);
    assert_eq!(detail.blocked_by, vec!["a".to_string()]);
    assert_eq!(detail.dependents, vec!["c".to_string()]);
    assert_eq!(detail.project, "app");

    let scope = vec!["g".to_string()];
    let goals = [goal("g", "P")];
    let goal_detail = GoalDetail::new(goals[0].clone(), "app".into(), &goals, &tasks, &scope);
    assert_eq!(goal_detail.tasks.todo, 2);
    assert_eq!(goal_detail.tasks.in_progress, 1);
    assert_eq!(goal_detail.subgoals, 0);

    let mut all = tasks.clone();
    all.push(task("x", "elsewhere"));
    let projects = [project("P", "app")];
    let project_detail = ProjectDetail::new(projects[0].clone(), "app".into(), &projects, &goals, &all, &scope);
    assert_eq!(project_detail.goals, 1);
    assert_eq!(project_detail.subprojects, 0);
    assert_eq!(project_detail.path, "app");
    assert_eq!(project_detail.tasks.todo, 2, "tasks of other goals are not counted");
}
