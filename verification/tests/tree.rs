use jiff::Timestamp;
use tasky::dag::Dag;
use tasky::store::{
    new_dependency, select_goals, GoalDetail, ProjectDetail,
};
use tasky::tree::{find_by_path, project_path, root_project_id, scope_goal_ids};
use tasky::{Error, Goal, Project, Task};

const NOW: Timestamp = Timestamp::UNIX_EPOCH;

fn project(id: &str, parent: Option<&str>, slug: &str) -> Project {
    Project::new(id.into(), parent.map(str::to_owned), slug.into(), slug.to_uppercase(), None, None, NOW).unwrap()
}

fn goal(id: &str, project: &str, parent: Option<&str>) -> Goal {
    Goal::new(id.into(), project.into(), parent.map(str::to_owned), id.to_lowercase(), id.to_uppercase(), String::new(), None, NOW)
        .unwrap()
}

fn task(id: &str, goal: &str) -> Task {
    Task::new(id.into(), goal.into(), "Work".into(), String::new(), String::new(), NOW).unwrap()
}

/// app, app/mobile, app/mobile/ios, and web.
fn hierarchy() -> Vec<Project> {
    vec![
        project("A", None, "app"),
        project("M", Some("A"), "mobile"),
        project("I", Some("M"), "ios"),
        project("W", None, "web"),
    ]
}

#[test]
fn projects_have_paths_from_their_root() {
    let projects = hierarchy();
    assert_eq!(project_path(&projects, "I").as_deref(), Some("app/mobile/ios"));
    assert_eq!(project_path(&projects, "A").as_deref(), Some("app"));
    assert_eq!(project_path(&projects, "nope"), None);
    assert_eq!(find_by_path(&projects, "app/mobile"), Some(1));
    assert_eq!(find_by_path(&projects, "app/mobile/ios"), Some(2));
    assert_eq!(find_by_path(&projects, "mobile"), None, "a sub-project is named by its path");
    assert_eq!(root_project_id(&projects, "I").as_deref(), Some("A"));
    assert_eq!(root_project_id(&projects, "W").as_deref(), Some("W"));
    assert_eq!(root_project_id(&projects, "nope"), None);
}

#[test]
fn looping_hierarchies_have_no_root() {
    let projects = vec![project("A", Some("B"), "a"), project("B", Some("A"), "b")];
    assert_eq!(root_project_id(&projects, "A"), None);
    assert_eq!(project_path(&projects, "A"), None);
}

#[test]
fn scopes_cover_everything_nested() {
    let projects = hierarchy();
    let goals = vec![
        goal("auth", "A", None),
        goal("login", "A", Some("auth")),
        goal("shell", "M", None),
        goal("site", "W", None),
    ];
    assert_eq!(
        scope_goal_ids(&projects, &goals, Some(&projects[0]), None),
        Some(vec!["auth".to_string(), "login".to_string(), "shell".to_string()])
    );
    assert_eq!(
        scope_goal_ids(&projects, &goals, Some(&projects[1]), None),
        Some(vec!["shell".to_string()])
    );
    assert_eq!(
        scope_goal_ids(&projects, &goals, None, Some(&goals[0])),
        Some(vec!["auth".to_string(), "login".to_string()])
    );
    assert_eq!(scope_goal_ids(&projects, &goals, None, None), None);
    let kept = select_goals(goals.clone(), &vec!["shell".to_string(), "auth".to_string()]);
    assert_eq!(kept.iter().map(|g| g.id.as_str()).collect::<Vec<_>>(), vec!["auth", "shell"]);

    let tasks = vec![task("t1", "login"), task("t2", "site")];
    let scope = scope_goal_ids(&projects, &goals, None, Some(&goals[0])).unwrap();
    let detail = GoalDetail::new(goals[0].clone(), "app".into(), &goals, &tasks, &scope);
    assert_eq!(detail.subgoals, 1);
    assert_eq!(detail.tasks.todo, 1, "a sub-goal's task counts for its parent");
    let scope = scope_goal_ids(&projects, &goals, Some(&projects[0]), None).unwrap();
    let detail = ProjectDetail::new(projects[0].clone(), "app".into(), &projects, &goals, &tasks, &scope);
    assert_eq!(detail.subprojects, 1);
    assert_eq!(detail.goals, 2);
    assert_eq!(detail.tasks.todo, 1);
}

#[test]
fn dependencies_may_join_tasks_under_one_root_project() {
    let projects = hierarchy();
    let tasks = vec![task("S", "shell"), task("T", "auth"), task("V", "site")];
    let dag = Dag::new(&tasks, &[]).unwrap();
    let app_root = root_project_id(&projects, "M").unwrap();
    let same_root = root_project_id(&projects, "A").unwrap();
    let web_root = root_project_id(&projects, "W").unwrap();
    assert_eq!(
        new_dependency(&dag, &tasks[0], &tasks[1], &app_root, &same_root).unwrap(),
        tasky::Dependency::new("S".into(), "T".into()).unwrap(),
        "a sub-project's task may depend on a task of its root project"
    );
    assert_eq!(
        new_dependency(&dag, &tasks[2], &tasks[0], &web_root, &app_root).err(),
        Some(Error::Invalid(
            "task V cannot depend on S: they belong to different projects".into()
        ))
    );
}
