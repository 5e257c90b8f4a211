use jiff::Timestamp;
use tasky::dag::Dag;
use tasky::{Dependency, Task};

fn task(id: &str) -> Task {
    Task::new(
        id.into(),
        "F".into(),
        id.to_uppercase(),
        String::new(),
        String::new(),
        Timestamp::UNIX_EPOCH,
    )
    .unwrap()
}

/// Walk a todo task through the whole lifecycle to done.
fn finish(task: &mut Task) {
    let now = Timestamp::UNIX_EPOCH;
    task.start(true, now).unwrap();
    task.begin_testing(now).unwrap();
    task.pass_testing(now).unwrap();
    task.finish(now).unwrap();
}

fn edge(task: &str, on: &str) -> Dependency {
    Dependency::new(task.into(), on.into()).unwrap()
}

fn ids<'a>(tasks: Vec<&'a Task>) -> Vec<&'a str> {
    tasks.into_iter().map(|t| t.id.as_str()).collect()
}

#[test]
fn readiness_follows_dependencies() {
    let mut tasks = vec![task("a"), task("b"), task("c")];
    let edges = vec![edge("b", "a"), edge("c", "b")];
    let dag = Dag::new(&tasks, &edges).unwrap();
    assert_eq!(ids(dag.ready()), vec!["a"]);
    assert_eq!(ids(dag.blockers("c")), vec!["b"]);
    assert_eq!(ids(dag.dependents("a")), vec!["b"]);
    assert_eq!(ids(dag.topological_order()), vec!["a", "b", "c"]);
    drop(dag);

    finish(&mut tasks[0]);
    let dag = Dag::new(&tasks, &edges).unwrap();
    assert_eq!(ids(dag.ready()), vec!["b"]);
    assert!(dag.dependencies_done("b").unwrap());
    assert!(!dag.dependencies_done("c").unwrap());
}

#[test]
fn cancelled_dependencies_keep_dependents_blocked() {
    let mut tasks = vec![task("a"), task("b")];
    tasks[0].cancel(Timestamp::UNIX_EPOCH).unwrap();
    let edges = vec![edge("b", "a")];
    let dag = Dag::new(&tasks, &edges).unwrap();
    assert!(dag.ready().is_empty());
}

#[test]
fn construction_rejects_bad_graphs() {
    let tasks = vec![task("a"), task("b")];
    assert!(Dag::new(&tasks, &[edge("a", "b"), edge("b", "a")]).is_err());
    assert!(Dag::new(&tasks, &[edge("a", "missing")]).is_err());
    assert!(Dag::new(&[task("a"), task("a")], &[]).is_err());
    let self_edge = Dependency {
        task_id: "a".into(),
        depends_on_id: "a".into(),
    };
    assert!(Dag::new(&tasks, &[self_edge]).is_err());
}

#[test]
fn new_dependencies_are_checked_for_cycles_and_state() {
    let mut tasks = vec![task("a"), task("b"), task("c")];
    let edges = vec![edge("b", "a"), edge("c", "b")];
    let dag = Dag::new(&tasks, &edges).unwrap();
    assert!(dag.check_new_dependency("a", "c").is_err(), "cycle");
    assert!(dag.check_new_dependency("a", "a").is_err(), "self");
    assert!(dag.check_new_dependency("a", "zzz").is_err(), "missing");
    dag.check_new_dependency("c", "a").unwrap();
    drop(dag);

    tasks[0].start(true, Timestamp::UNIX_EPOCH).unwrap();
    let dag = Dag::new(&tasks, &edges).unwrap();
    assert!(dag.check_new_dependency("a", "c").is_err(), "started");
}

#[test]
fn topological_order_breaks_ties_by_id() {
    let tasks = vec![task("d"), task("c"), task("b"), task("a")];
    let edges = vec![edge("a", "d"), edge("b", "d")];
    let dag = Dag::new(&tasks, &edges).unwrap();
    assert_eq!(ids(dag.topological_order()), vec!["c", "d", "a", "b"]);
}
