use jiff::Timestamp;
use tasky::dag::Dag;
use tasky::{Dependency, Error, Task, TaskStatus};

fn task(id: &str) -> Task {
    Task::new(
        id.into(),
        "F".into(),
        id.to_uppercase(),
        String::new(),
        String::new(),
        Timestamp::UNIX_EPOCH,
    )
    .unwrap()
}

fn edge(task: &str, on: &str) -> Dependency {
    Dependency::new(task.into(), on.into()).unwrap()
}

fn ids<'a>(tasks: Vec<&'a Task>) -> Vec<&'a str> {
    tasks.into_iter().map(|t| t.id.as_str()).collect()
}

#[test]
fn construction_errors_name_the_first_problem() {
    let tasks = vec![task("a"), task("b")];
    assert_eq!(
        Dag::new(&tasks, &[edge("a", "b"), edge("b", "a")]).err(),
        Some(Error::Invalid("dependency graph contains a cycle".into()))
    );
    assert_eq!(
        Dag::new(&tasks, &[edge("a", "missing")]).err(),
        Some(Error::NotFound("task missing".into()))
    );
    assert_eq!(
        Dag::new(&tasks, &[edge("ghost", "a")]).err(),
        Some(Error::NotFound("task ghost".into()))
    );
    assert_eq!(
        Dag::new(&[task("a"), task("b"), task("a")], &[edge("x", "y")]).err(),
        Some(Error::Duplicate("task a".into())),
        "duplicates are reported before edges"
    );
    let self_edge = Dependency {
        task_id: "a".into(),
        depends_on_id: "a".into(),
    };
    assert_eq!(
        Dag::new(&tasks, &[self_edge]).err(),
        Some(Error::Invalid("task a depends on itself".into()))
    );
}

#[test]
fn lookups_and_listings_are_in_id_order() {
    let tasks = vec![task("c"), task("a"), task("b")];
    let edges = vec![edge("c", "b"), edge("c", "a"), edge("b", "a")];
    let dag = Dag::new(&tasks, &edges).unwrap();
    assert_eq!(ids(dag.tasks()), vec!["a", "b", "c"]);
    assert_eq!(ids(dag.dependencies("c")), vec!["a", "b"]);
    assert_eq!(ids(dag.dependents("a")), vec!["b", "c"]);
    assert!(dag.dependencies("nobody").is_empty());
    assert_eq!(dag.task("b").unwrap().id, "b");
    assert_eq!(dag.task("x").err(), Some(Error::NotFound("task x".into())));
    assert_eq!(
        dag.dependencies_done("x").err(),
        Some(Error::NotFound("task x".into()))
    );
    let outsider = task("z");
    assert!(dag.is_ready(&outsider), "a task with no edges is ready when todo");
}

#[test]
fn dependency_refusals_carry_their_messages() {
    let mut tasks = vec![task("a"), task("b"), task("c")];
    let edges = vec![edge("b", "a"), edge("c", "b")];
    let dag = Dag::new(&tasks, &edges).unwrap();
    assert_eq!(
        dag.check_new_dependency("a", "c").err(),
        Some(Error::Invalid(
            "task a cannot depend on c: it would create a cycle".into()
        ))
    );
    assert_eq!(
        dag.check_new_dependency("a", "a").err(),
        Some(Error::Invalid("a task cannot depend on itself".into()))
    );
    assert_eq!(
        dag.check_new_dependency("zzz", "a").err(),
        Some(Error::NotFound("task zzz".into()))
    );
    assert_eq!(
        dag.check_new_dependency("a", "zzz").err(),
        Some(Error::NotFound("task zzz".into()))
    );
    drop(dag);
    tasks[0].start(true, Timestamp::UNIX_EPOCH).unwrap();
    let dag = Dag::new(&tasks, &edges).unwrap();
    assert_eq!(
        dag.check_new_dependency("a", "c").err(),
        Some(Error::Invalid(
            "task a is in_progress and cannot be given new dependencies".into()
        ))
    );
}

#[test]
fn an_accepted_dependency_can_be_recorded() {
    let tasks = vec![task("a"), task("b"), task("c")];
    let mut edges = vec![edge("b", "a"), edge("c", "b")];
    let dag = Dag::new(&tasks, &edges).unwrap();
    dag.check_new_dependency("c", "a").unwrap();
    drop(dag);
    edges.push(edge("c", "a"));
    let dag = Dag::new(&tasks, &edges).unwrap();
    assert_eq!(ids(dag.topological_order()), vec!["a", "b", "c"]);
    assert_eq!(ids(dag.dependencies("c")), vec!["a", "b"]);
}

#[test]
fn order_puts_every_prerequisite_first() {
    let tasks = vec![task("e"), task("d"), task("c"), task("b"), task("a")];
    let edges = vec![
        edge("a", "e"),
        edge("b", "a"),
        edge("c", "a"),
        edge("d", "b"),
        edge("d", "c"),
    ];
    let dag = Dag::new(&tasks, &edges).unwrap();
    let order = ids(dag.topological_order());
    assert_eq!(order, vec!["e", "a", "b", "c", "d"]);
    for e in &edges {
        let task_at = order.iter().position(|id| *id == e.task_id).unwrap();
        let prerequisite_at = order.iter().position(|id| *id == e.depends_on_id).unwrap();
        assert!(prerequisite_at < task_at);
    }
}

#[test]
fn blockers_are_the_prerequisites_not_done() {
    let mut tasks = vec![task("a"), task("b"), task("c")];
    tasks[0].cancel(Timestamp::UNIX_EPOCH).unwrap();
    let edges = vec![edge("c", "a"), edge("c", "b")];
    let dag = Dag::new(&tasks, &edges).unwrap();
    assert_eq!(ids(dag.blockers("c")), vec!["a", "b"], "cancelled still blocks");
    assert!(!dag.dependencies_done("c").unwrap());
    assert!(dag.dependencies_done("a").unwrap());
    assert_eq!(ids(dag.ready()), vec!["b"]);
    assert_eq!(tasks[0].status, TaskStatus::Cancelled);
}
