use jiff::Timestamp;
use std::collections::HashSet;
use tasky::layout::{
    extents, plan, Kind, Placed, Plan, GOAL_HH, GOAL_HW, GOAL_OFFSET, PROJECT_HH, PROJECT_HW, TASK_R,
};
use tasky::store::TaskDetail;
use tasky::ui::{default_collapsed, State};
use tasky::{Goal, GoalStatus, Project, Task, TaskStatus};

fn project(id: &str) -> Project {
    project_in(id, None)
}

fn project_in(id: &str, parent: Option<&str>) -> Project {
    Project::new(
        id.into(),
        parent.map(str::to_owned),
        id.into(),
        id.to_uppercase(),
        None,
        None,
        Timestamp::UNIX_EPOCH,
    )
    .unwrap()
}

fn goal(id: &str, project: &str) -> Goal {
    goal_in(id, project, None)
}

fn goal_in(id: &str, project: &str, parent: Option<&str>) -> Goal {
    Goal::new(
        id.into(),
        project.into(),
        parent.map(str::to_owned),
        id.into(),
        id.to_uppercase(),
        String::new(),
        None,
        Timestamp::UNIX_EPOCH,
    )
    .unwrap()
}

fn complete_goal(id: &str, project: &str) -> Goal {
    let mut goal = goal(id, project);
    goal.status = GoalStatus::Complete;
    goal
}

fn collapsed_set(projects: &[Project], goals: &[Goal]) -> HashSet<String> {
    default_collapsed(projects, goals).into_iter().collect()
}

#[test]
fn complete_goals_and_fully_complete_projects_start_collapsed() {
    let projects = [project("done"), project("mixed"), project("empty")];
    let goals = [
        complete_goal("g1", "done"),
        complete_goal("g2", "done"),
        complete_goal("g3", "mixed"),
        goal("g4", "mixed"),
    ];
    let collapsed = collapsed_set(&projects, &goals);
    assert!(collapsed.contains("g1") && collapsed.contains("g2"));
    assert!(collapsed.contains("g3"));
    assert!(!collapsed.contains("g4"));
    assert!(collapsed.contains("done"), "every goal complete");
    assert!(!collapsed.contains("mixed"));
    assert!(!collapsed.contains("empty"), "nothing to collapse");

    let projects = [project("root"), project_in("leaf", Some("root"))];
    let goals = [complete_goal("lg", "leaf")];
    let collapsed = collapsed_set(&projects, &goals);
    assert!(collapsed.contains("leaf"));
    assert!(
        collapsed.contains("root"),
        "all its sub-projects are finished"
    );
    let goals = [complete_goal("lg", "leaf"), goal("open", "root")];
    assert!(!collapsed_set(&projects, &goals).contains("root"));
}

fn task(id: &str, goal: &str, deps: &[&str], done: bool) -> TaskDetail {
    let mut task = Task::new(
        id.into(),
        goal.into(),
        id.to_uppercase(),
        String::new(),
        String::new(),
        Timestamp::UNIX_EPOCH,
    )
    .unwrap();
    if done {
        task.status = TaskStatus::Done;
    }
    TaskDetail {
        task,
        project: "p".into(),
        goal: goal.into(),
        ready: deps.is_empty() && !done,
        depends_on: deps.iter().map(|d| (*d).to_owned()).collect(),
        blocked_by: Vec::new(),
        dependents: Vec::new(),
        links: Vec::new(),
    }
}

fn node<'a>(layout: &'a Plan, title: &str) -> &'a Placed {
    layout.nodes.iter().find(|node| node.title == title).unwrap()
}

fn build(projects: &[Project], goals: &[Goal], tasks: &[TaskDetail]) -> Plan {
    build_with(projects, goals, tasks, &[])
}

fn build_with(projects: &[Project], goals: &[Goal], tasks: &[TaskDetail], collapsed: &[&str]) -> Plan {
    let collapsed: Vec<String> = collapsed.iter().map(|c| (*c).to_owned()).collect();
    plan(projects, goals, tasks, &collapsed)
}

fn hierarchy_pairs(layout: &Plan) -> Vec<(&str, &str)> {
    layout
        .edges
        .iter()
        .filter(|e| !e.dependency)
        .map(|e| (layout.nodes[e.from].title.as_str(), layout.nodes[e.to].title.as_str()))
        .collect()
}

#[test]
fn columns_follow_hierarchy_and_dependency_rank() {
    let layout = build(
        &[project("p")],
        &[goal("g1", "p"), goal("g2", "p")],
        &[
            task("a", "g1", &[], true),
            task("b", "g1", &["a"], false),
            task("c", "g2", &["b"], false),
            task("d", "g2", &[], false),
        ],
    );
    let (p, g1, g2) = (node(&layout, "P"), node(&layout, "G1"), node(&layout, "G2"));
    let (ta, tb, tc, td) = (node(&layout, "A"), node(&layout, "B"), node(&layout, "C"), node(&layout, "D"));
    assert!(p.x < g1.x && g1.x < ta.x, "project, goal, task columns");
    assert_eq!(g1.x, g2.x);
    assert!(ta.x < tb.x && tb.x < tc.x, "dependents move right");
    assert_eq!(ta.x, td.x, "independent tasks share column 0");
    assert!(tc.y > tb.y, "second goal's band is below the first");
    assert!(g1.y < g2.y);
    assert!(p.y > g1.y && p.y < g2.y, "project centred on its goals");
    assert_eq!(p.kind, Kind::Project);
    assert_eq!(extents(ta.kind), (TASK_R, TASK_R));
    assert!(tb.x - ta.x >= 2 * TASK_R, "circles never overlap");
    assert!(g1.x - p.x >= PROJECT_HW + GOAL_HW, "shapes never overlap");
    assert_eq!(ta.state, State::Finished);
    assert_eq!(tb.state, State::Blocked, "b waits on a, which the fixture marks not ready");
    assert_eq!(td.state, State::Open, "d has no prerequisites");
    let mut testing = task("t", "g1", &[], false);
    testing.task.status = TaskStatus::Testing;
    assert_eq!(State::of_task(&testing), State::Validating);
    assert!(ta.contains(ta.x + 1, ta.y - 1));
    assert!(!ta.contains(ta.x + TASK_R + 1, ta.y));
    assert!(!ta.contains(ta.x + 51, ta.y + 51), "circle corners are outside");
    assert!(g1.contains(g1.x + 108, g1.y + 63), "rectangle corners are inside");
    assert!(p.contains(p.x + 60, p.y + 36));
    assert!(!p.contains(p.x + 120, p.y + 72), "diamond corners are outside");
}

#[test]
fn edges_cover_hierarchy_and_dependencies() {
    let layout = build(
        &[project("p")],
        &[goal("g", "p")],
        &[task("a", "g", &[], false), task("b", "g", &["a"], false)],
    );
    let hierarchy = layout.edges.iter().filter(|e| !e.dependency).count();
    let deps: Vec<_> = layout.edges.iter().filter(|e| e.dependency).collect();
    assert_eq!(hierarchy, 2, "project\u{2192}goal and goal\u{2192}a; b is reached through a");
    assert_eq!(deps.len(), 1);
    assert_eq!(layout.nodes[deps[0].from].title, "A");
    assert_eq!(layout.nodes[deps[0].to].title, "B");
    for edge in &layout.edges {
        assert!(layout.nodes[edge.from].x < layout.nodes[edge.to].x, "every edge flows left to right");
    }
}

#[test]
fn same_column_tasks_do_not_overlap_and_projects_stack() {
    let layout = build(
        &[project("p1"), project("p2")],
        &[goal("g1", "p1"), goal("g2", "p2")],
        &[task("a", "g1", &[], false), task("b", "g1", &[], false)],
    );
    let (ta, tb) = (node(&layout, "A"), node(&layout, "B"));
    assert_eq!(ta.x, tb.x);
    assert!(tb.y - ta.y >= 2 * TASK_R);
    let (p1, p2) = (node(&layout, "P1"), node(&layout, "P2"));
    assert!(p2.y - p1.y >= 2 * PROJECT_HH);
    assert!(layout.bounds.w > GOAL_OFFSET && layout.bounds.h > 0);
    assert_eq!(layout.bounds.x + PROJECT_HW as i128, 0);
}

#[test]
fn goal_edges_go_only_to_tasks_not_rooted_in_the_goal() {
    // a <- b inside g1; c in g2 depends on b (another goal); d in g2 is independent.
    let layout = build(
        &[project("p")],
        &[goal("g1", "p"), goal("g2", "p")],
        &[
            task("a", "g1", &[], false),
            task("b", "g1", &["a"], false),
            task("c", "g2", &["b"], false),
            task("d", "g2", &[], false),
        ],
    );
    let joined = hierarchy_pairs(&layout);
    assert!(joined.contains(&("G1", "A")));
    assert!(!joined.contains(&("G1", "B")), "b follows a within g1");
    assert!(joined.contains(&("G2", "C")), "c's only prerequisite is in another goal");
    assert!(joined.contains(&("G2", "D")));
    assert!(joined.contains(&("P", "G1")) && joined.contains(&("P", "G2")));
}

#[test]
fn collapsing_hides_children_and_their_edges() {
    let projects = [project("p1"), project("p2")];
    let goals = [goal("g1", "p1"), goal("g2", "p1"), goal("g3", "p2")];
    let tasks = [
        task("a", "g1", &[], false),
        task("b", "g1", &["a"], false),
        task("e", "g1", &[], false),
        task("c", "g2", &["b"], false),
        task("d", "g3", &[], false),
    ];
    let open = build(&projects, &goals, &tasks);
    assert_eq!(open.nodes.len(), 10);

    let layout = build_with(&projects, &goals, &tasks, &["g1"]);
    let titles: Vec<&str> = layout.nodes.iter().map(|n| n.title.as_str()).collect();
    assert!(!titles.contains(&"A") && !titles.contains(&"B") && !titles.contains(&"E"));
    assert!(titles.contains(&"C"), "other goals keep their tasks");
    assert!(node(&layout, "G1").collapsed);
    assert!(!node(&layout, "G2").collapsed);
    assert!(
        layout.edges.iter().all(|e| !e.dependency),
        "c's prerequisite b is hidden, so its dependency edge is gone"
    );
    assert!(layout.bounds.h < open.bounds.h, "collapsing frees space");

    let layout = build_with(&projects, &goals, &tasks, &["p1"]);
    let titles: Vec<&str> = layout.nodes.iter().map(|n| n.title.as_str()).collect();
    assert_eq!(titles, ["P1", "P2", "G3", "D"]);
    assert!(node(&layout, "P1").collapsed);
    let p1 = node(&layout, "P1");
    assert!(p1.contains(p1.x, p1.y));
}

#[test]
fn nested_projects_and_goals_indent_beneath_their_parents() {
    let projects = [project("p"), project_in("sub", Some("p"))];
    let goals = [goal("g", "p"), goal_in("child", "p", Some("g")), goal("sg", "sub")];
    let tasks = [
        task("a", "g", &[], false),
        task("b", "child", &["a"], false),
        task("c", "sg", &[], false),
    ];
    let layout = build(&projects, &goals, &tasks);
    let (p, sub) = (node(&layout, "P"), node(&layout, "SUB"));
    let (g, child, sg) = (node(&layout, "G"), node(&layout, "CHILD"), node(&layout, "SG"));
    assert!(sub.x > p.x, "sub-project indents right");
    assert!(sub.y > g.y, "sub-project sits below the parent's goals");
    assert!(child.x > g.x, "sub-goal indents right of its parent goal");
    assert!(child.y > node(&layout, "A").y, "sub-goal sits below the parent's tasks");
    assert!(sg.x > sub.x, "a sub-project's goal is right of the sub-project");
    assert!(node(&layout, "B").x > child.x && node(&layout, "C").x > sg.x);
    let joined = hierarchy_pairs(&layout);
    assert!(joined.contains(&("P", "SUB")));
    assert!(joined.contains(&("G", "CHILD")));
    assert!(joined.contains(&("SUB", "SG")));
    assert!(!joined.contains(&("P", "CHILD")), "a sub-goal hangs off its goal, not the project");
    assert!(p.y > g.y && p.y < sub.y, "project centred on its whole block");

    let layout = build_with(&projects, &goals, &tasks, &["g"]);
    let titles: Vec<&str> = layout.nodes.iter().map(|n| n.title.as_str()).collect();
    assert!(!titles.contains(&"CHILD") && !titles.contains(&"B"), "subtree hidden");
    assert!(titles.contains(&"SUB") && titles.contains(&"C"));
    let layout = build_with(&projects, &goals, &tasks, &["p"]);
    assert_eq!(layout.nodes.len(), 1, "collapsing a project hides sub-projects too");
}

#[test]
fn shapes_contain_their_centres_and_exact_edges() {
    let layout = build(&[project("p")], &[goal("g", "p")], &[task("a", "g", &[], false)]);
    let (p, g, a) = (node(&layout, "P"), node(&layout, "G"), node(&layout, "A"));
    assert!(p.contains(p.x + PROJECT_HW, p.y) && !p.contains(p.x + PROJECT_HW + 1, p.y));
    assert!(g.contains(g.x + GOAL_HW, g.y + GOAL_HH) && !g.contains(g.x + GOAL_HW, g.y + GOAL_HH + 1));
    assert!(a.contains(a.x, a.y + TASK_R) && !a.contains(a.x + 46, a.y + 46));
    assert_eq!(a.x, g.x + 314);
    assert_eq!(g.x, p.x + GOAL_OFFSET);
}

#[test]
fn blocks_centre_their_shapes_and_roots_stack() {
    let layout = build(
        &[project("p1"), project("p2")],
        &[goal("g", "p1")],
        &[task("a", "g", &[], false), task("b", "g", &[], false)],
    );
    let (p1, p2, g, a, b) = (
        node(&layout, "P1"),
        node(&layout, "P2"),
        node(&layout, "G"),
        node(&layout, "A"),
        node(&layout, "B"),
    );
    assert_eq!((a.top, a.y, a.height), (0, 84, 168));
    assert_eq!((b.top, b.y), (168, 252));
    assert_eq!((g.top, g.height, g.y), (0, 336, 168));
    assert_eq!((p1.top, p1.height, p1.y), (0, 336, 168));
    assert_eq!((p2.top, p2.height, p2.y), (336 + 160, 180, 336 + 160 + 90));
}
