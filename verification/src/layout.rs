//! The graph viewer's layout in whole world units: which projects, goals and tasks are
//! shown, where each one sits, and which edges join them.
//!
//! A root project sits at the left; its goals one column right; a goal's tasks further
//! right by dependency rank. Sub-projects and sub-goals indent to the right beneath their
//! parent, so every hierarchy edge flows left to right. A goal is joined only to its tasks
//! that have no prerequisite inside the same goal; every other task is reached from the goal
//! through dependency edges. Collapsing a project or goal hides everything beneath it.

use crate::store::{contains_text, holds_text, TaskDetail};
use crate::text::same_text;
use crate::ui::{goal_state, ranks, rank_at, task_state, State};
use crate::{Goal, Project};
use vstd::prelude::*;

verus! {

/// Half width of a project's diamond.
pub const PROJECT_HW: u128 = 150;
/// Half height of a project's diamond.
pub const PROJECT_HH: u128 = 90;
/// Half width of a goal's rectangle.
pub const GOAL_HW: u128 = 120;
/// Half height of a goal's rectangle.
pub const GOAL_HH: u128 = 70;
/// Radius of a task's circle.
pub const TASK_R: u128 = 64;
/// Space between neighbouring columns.
pub const COL_GAP: u128 = 130;
/// From a project's centre to its goals' centre.
pub const GOAL_OFFSET: u128 = 400;
/// From a project's centre to a sub-project's.
pub const SUBPROJECT_OFFSET: u128 = 430;
/// From a goal's centre to its first task column.
pub const TASK_OFFSET: u128 = 314;
/// From a goal's centre to a sub-goal's.
pub const SUBGOAL_OFFSET: u128 = 370;
/// From one task column to the next.
pub const COL_STEP: u128 = 258;
/// Height of one row of tasks.
pub const ROW: u128 = 168;
/// Space between the blocks beneath one parent.
pub const GOAL_GAP: u128 = 48;
/// Space between root projects.
pub const PROJECT_GAP: u128 = 160;
/// Every project and goal centre lies left of this.
pub const X_LIMIT: u128 = 0x1_0000_0000_0000_0000_0000_0000;
/// Every centre lies left of this.
pub const X_CAP: u128 = 0x40_0000_0000_0000_0000_0000_0000;

/// What a shape stands for.
#[derive(Debug, Clone, Copy, PartialEq, Eq, Structural)]
pub enum Kind {
    Project,
    Goal,
    Task,
}

/// A shape showing its title, centred at (`x`, `y`). It sits in the band of heights from
/// `top` to `top + height`, which for a project or goal also holds everything shown
/// beneath it, and for a task is its row. `collapsed` marks hidden children; `under` is
/// the shape it was placed beneath (none for a root project); `source` is its position in
/// the list of projects, goals or tasks that its kind names.
#[derive(Debug, Clone)]
pub struct Placed {
    pub id: String,
    pub kind: Kind,
    pub state: State,
    pub collapsed: bool,
    pub x: u128,
    pub y: u128,
    pub top: u128,
    pub height: u128,
    pub title: String,
    pub under: Option<usize>,
    pub source: usize,
}

/// A directed edge between shape positions. `dependency` edges join tasks; the rest are
/// hierarchy.
#[derive(Debug, Clone, Copy, PartialEq, Eq, Structural)]
pub struct Edge {
    pub from: usize,
    pub to: usize,
    pub dependency: bool,
}

/// An axis-aligned rectangle in world units, from (`x`, `y`) to (`x + w`, `y + h`).
#[derive(Debug, Clone, Copy, PartialEq, Eq, Structural)]
pub struct Bounds {
    pub x: i128,
    pub y: u128,
    pub w: u128,
    pub h: u128,
}

/// Every shown shape, every edge, and the rectangle that holds all shapes.
#[derive(Debug, Clone)]
pub struct Plan {
    pub nodes: Vec<Placed>,
    pub edges: Vec<Edge>,
    pub bounds: Bounds,
}

/// Half width of a shape of this kind.
pub open spec fn half_width(kind: Kind) -> int {
    match kind {
        Kind::Project => PROJECT_HW as int,
        Kind::Goal => GOAL_HW as int,
        Kind::Task => TASK_R as int,
    }
}

/// Half height of a shape of this kind.
pub open spec fn half_height(kind: Kind) -> int {
    match kind {
        Kind::Project => PROJECT_HH as int,
        Kind::Goal => GOAL_HH as int,
        Kind::Task => TASK_R as int,
    }
}

/// The last of the first `k` tasks with this ID.
pub open spec fn last_with_id(tasks: Seq<TaskDetail>, id: Seq<char>, k: int) -> Option<int>
    decreases k,
{
    if k <= 0 {
        None
    } else if tasks[k - 1].task.id@ == id {
        Some(k - 1)
    } else {
        last_with_id(tasks, id, k - 1)
    }
}

/// The goal of the task with this ID, the last one listed counting.
pub open spec fn goal_of(tasks: Seq<TaskDetail>, id: Seq<char>) -> Option<Seq<char>> {
    match last_with_id(tasks, id, tasks.len() as int) {
        Some(j) => Some(tasks[j].task.goal_id@),
        None => None,
    }
}

/// Some prerequisite among `deps` is a task of this goal.
pub open spec fn rooted_in_goal(tasks: Seq<TaskDetail>, deps: Seq<String>, goal_id: Seq<char>) -> bool {
    exists|k: int| 0 <= k < deps.len() && goal_of(tasks, #[trigger] deps[k]@) == Some(goal_id)
}

/// Some task with ID `to` lists `from` among its prerequisites.
pub open spec fn depends_pair(tasks: Seq<TaskDetail>, to: Seq<char>, from: Seq<char>) -> bool {
    exists|t: int, m: int|
        0 <= t < tasks.len() && 0 <= m < tasks[t].depends_on@.len() && tasks[t].task.id@ == to
            && #[trigger] tasks[t].depends_on@[m]@ == from
}

/// Shape `i` shows what its source says, beneath a shown shape that is not collapsed, at
/// the offset right of it that their kinds call for; a task one column further right per
/// dependency rank.
pub open spec fn node_ok(
    projects: Seq<Project>,
    goals: Seq<Goal>,
    tasks: Seq<TaskDetail>,
    ranks: Seq<usize>,
    collapsed: Seq<String>,
    nodes: Seq<Placed>,
    i: int,
) -> bool {
    let n = nodes[i];
    let s = n.source as int;
    &&& n.collapsed == holds_text(collapsed, n.id@)
    &&& n.x <= X_CAP
    &&& (n.under matches Some(u) ==> u < i && !nodes[u as int].collapsed)
    &&& match n.kind {
        Kind::Project => {
            &&& s < projects.len()
            &&& n.id@ == projects[s].id@
            &&& n.title@ == projects[s].name@
            &&& n.state == State::Open
            &&& match n.under {
                None => projects[s].parent_id is None && n.x == 0,
                Some(u) => {
                    &&& nodes[u as int].kind == Kind::Project
                    &&& projects[s].parent_id matches Some(pid) && pid@ == nodes[u as int].id@
                    &&& n.x == nodes[u as int].x + SUBPROJECT_OFFSET
                },
            }
        },
        Kind::Goal => {
            &&& s < goals.len()
            &&& n.id@ == goals[s].id@
            &&& n.title@ == goals[s].title@
            &&& n.state == goal_state(goals[s].status)
            &&& n.under matches Some(u) && {
                let p = nodes[u as int];
                ||| p.kind == Kind::Project && goals[s].project_id@ == p.id@ && goals[s].parent_id is None
                    && n.x == p.x + GOAL_OFFSET
                ||| p.kind == Kind::Goal && (goals[s].parent_id matches Some(pid) && pid@ == p.id@) && n.x
                    == p.x + SUBGOAL_OFFSET
            }
        },
        Kind::Task => {
            &&& s < tasks.len()
            &&& s < ranks.len()
            &&& n.id@ == tasks[s].task.id@
            &&& n.title@ == tasks[s].task.title@
            &&& n.state == task_state(tasks[s].task.status, tasks[s].ready)
            &&& n.under matches Some(u) && nodes[u as int].kind == Kind::Goal && tasks[s].task.goal_id@
                == nodes[u as int].id@ && n.x == nodes[u as int].x + TASK_OFFSET + COL_STEP * ranks[s]
        },
    }
}

/// A hierarchy edge runs from a shape's parent to it, and reaches a task only when no
/// prerequisite of the task belongs to the same goal; a dependency edge runs from a
/// prerequisite task to a task that lists it.
pub open spec fn edge_ok(tasks: Seq<TaskDetail>, nodes: Seq<Placed>, e: Edge) -> bool {
    &&& e.from < nodes.len()
    &&& e.to < nodes.len()
    &&& if e.dependency {
        &&& nodes[e.from as int].kind == Kind::Task
        &&& nodes[e.to as int].kind == Kind::Task
        &&& depends_pair(tasks, nodes[e.to as int].id@, nodes[e.from as int].id@)
    } else {
        &&& nodes[e.to as int].under == Some(e.from)
        &&& nodes[e.to as int].kind == Kind::Task ==> !rooted_in_goal(
            tasks,
            tasks[nodes[e.to as int].source as int].depends_on@,
            nodes[e.from as int].id@,
        )
    }
}

/// Shape `i` is joined to its parent by a hierarchy edge, unless it is a task with a
/// prerequisite in the same goal.
pub open spec fn joined(tasks: Seq<TaskDetail>, nodes: Seq<Placed>, edges: Seq<Edge>, i: int) -> bool {
    match nodes[i].under {
        Some(u) => !(nodes[i].kind == Kind::Task && rooted_in_goal(
            tasks,
            tasks[nodes[i].source as int].depends_on@,
            nodes[u as int].id@,
        )) ==> exists|k: int|
            0 <= k < edges.len() && #[trigger] edges[k] == (Edge { from: u, to: i as usize, dependency: false }),
        None => true,
    }
}

/// Every shape and edge is as described above.
pub open spec fn placed_ok(
    projects: Seq<Project>,
    goals: Seq<Goal>,
    tasks: Seq<TaskDetail>,
    ranks: Seq<usize>,
    collapsed: Seq<String>,
    nodes: Seq<Placed>,
    edges: Seq<Edge>,
) -> bool {
    &&& forall|i: int| 0 <= i < nodes.len() ==> #[trigger] node_ok(projects, goals, tasks, ranks, collapsed, nodes, i)
    &&& forall|k: int| 0 <= k < edges.len() ==> #[trigger] edge_ok(tasks, nodes, edges[k])
    &&& forall|i: int| 0 <= i < nodes.len() ==> #[trigger] joined(tasks, nodes, edges, i)
}

/// Two shapes agree on everything but their height and centre height.
pub open spec fn same_but_y(a: Placed, b: Placed) -> bool {
    &&& a.id == b.id
    &&& a.top == b.top
    &&& a.kind == b.kind
    &&& a.state == b.state
    &&& a.collapsed == b.collapsed
    &&& a.x == b.x
    &&& a.title == b.title
    &&& a.under == b.under
    &&& a.source == b.source
}

/// `long` keeps every shape of `short`, but for heights, and every edge.
pub open spec fn extends(short: Seq<Placed>, long: Seq<Placed>, short_edges: Seq<Edge>, long_edges: Seq<Edge>) -> bool {
    &&& short.len() <= long.len()
    &&& forall|i: int| 0 <= i < short.len() ==> same_but_y(#[trigger] short[i], long[i])
    &&& short_edges.len() <= long_edges.len()
    &&& forall|k: int| 0 <= k < short_edges.len() ==> #[trigger] short_edges[k] == long_edges[k]
}

/// Growing the shapes and edges keeps what held of the old ones.
proof fn lemma_extends(
    projects: Seq<Project>,
    goals: Seq<Goal>,
    tasks: Seq<TaskDetail>,
    ranks: Seq<usize>,
    collapsed: Seq<String>,
    short: Seq<Placed>,
    long: Seq<Placed>,
    short_edges: Seq<Edge>,
    long_edges: Seq<Edge>,
)
    requires
        extends(short, long, short_edges, long_edges),
        placed_ok(projects, goals, tasks, ranks, collapsed, short, short_edges),
    ensures
        forall|i: int| 0 <= i < short.len() ==> #[trigger] node_ok(projects, goals, tasks, ranks, collapsed, long, i),
        forall|k: int| 0 <= k < short_edges.len() ==> #[trigger] edge_ok(tasks, long, long_edges[k]),
        forall|i: int| 0 <= i < short.len() ==> #[trigger] joined(tasks, long, long_edges, i),
{
    assert forall|i: int| 0 <= i < short.len() implies #[trigger] node_ok(
        projects,
        goals,
        tasks,
        ranks,
        collapsed,
        long,
        i,
    ) by {
        assert(node_ok(projects, goals, tasks, ranks, collapsed, short, i));
        assert(same_but_y(short[i], long[i]));
        if let Some(u) = short[i].under {
            assert(same_but_y(short[u as int], long[u as int]));
        }
    }
    assert forall|k: int| 0 <= k < short_edges.len() implies #[trigger] edge_ok(tasks, long, long_edges[k]) by {
        let e = short_edges[k];
        assert(edge_ok(tasks, short, e));
        assert(same_but_y(short[e.from as int], long[e.from as int]));
        assert(same_but_y(short[e.to as int], long[e.to as int]));
    }
    assert forall|i: int| 0 <= i < short.len() implies #[trigger] joined(tasks, long, long_edges, i) by {
        assert(joined(tasks, short, short_edges, i));
        assert(node_ok(projects, goals, tasks, ranks, collapsed, short, i));
        assert(same_but_y(short[i], long[i]));
        if let Some(u) = short[i].under {
            assert(same_but_y(short[u as int], long[u as int]));
            if !(short[i].kind == Kind::Task && rooted_in_goal(
                tasks,
                tasks[short[i].source as int].depends_on@,
                short[u as int].id@,
            )) {
                let k = choose|k: int|
                    0 <= k < short_edges.len() && #[trigger] short_edges[k] == (Edge {
                        from: u,
                        to: i as usize,
                        dependency: false,
                    });
                assert(long_edges[k] == short_edges[k]);
            }
        }
    }
}

/// The position of the last task with this ID, if any.
fn find_last(tasks: &[TaskDetail], id: &str) -> (r: Option<usize>)
    ensures
        r matches Some(j) ==> j < tasks@.len() && last_with_id(tasks@, id@, tasks@.len() as int) == Some(j as int),
        r is None ==> last_with_id(tasks@, id@, tasks@.len() as int) is None,
{
    let mut i: usize = tasks.len();
    while i > 0
        invariant
            i <= tasks@.len(),
            last_with_id(tasks@, id@, tasks@.len() as int) == last_with_id(tasks@, id@, i as int),
        decreases i,
    {
        if same_text(tasks[i - 1].task.id.as_str(), id) {
            return Some(i - 1);
        }
        i = i - 1;
    }
    None
}

/// Whether some prerequisite of a task belongs to this goal.
fn rooted(tasks: &[TaskDetail], deps: &Vec<String>, goal_id: &str) -> (r: bool)
    ensures
        r == rooted_in_goal(tasks@, deps@, goal_id@),
{
    let mut k: usize = 0;
    while k < deps.len()
        invariant
            k <= deps@.len(),
            forall|j: int| 0 <= j < k ==> goal_of(tasks@, #[trigger] deps@[j]@) != Some(goal_id@),
        decreases deps@.len() - k,
    {
        match find_last(tasks, deps[k].as_str()) {
            Some(j) => {
                if same_text(tasks[j].task.goal_id.as_str(), goal_id) {
                    assert(goal_of(tasks@, deps@[k as int]@) == Some(goal_id@));
                    return true;
                }
            },
            None => {},
        }
        k = k + 1;
    }
    false
}

/// Show one more shape, joined to its parent when `join`.
fn push_node(
    projects: &[Project],
    goals: &[Goal],
    tasks: &[TaskDetail],
    ranks: &Vec<usize>,
    collapsed: &Vec<String>,
    nodes: &mut Vec<Placed>,
    edges: &mut Vec<Edge>,
    p: Placed,
    join: bool,
) -> (node: usize)
    requires
        placed_ok(projects@, goals@, tasks@, ranks@, collapsed@, old(nodes)@, old(edges)@),
        node_ok(projects@, goals@, tasks@, ranks@, collapsed@, old(nodes)@.push(p), old(nodes)@.len() as int),
        join == (p.under is Some && !(p.kind == Kind::Task && rooted_in_goal(
            tasks@,
            tasks@[p.source as int].depends_on@,
            old(nodes)@[p.under->0 as int].id@,
        ))),
    ensures
        node == old(nodes)@.len(),
        final(nodes)@ == old(nodes)@.push(p),
        final(edges)@ == (if join {
            old(edges)@.push(Edge { from: p.under->0, to: node, dependency: false })
        } else {
            old(edges)@
        }),
        placed_ok(projects@, goals@, tasks@, ranks@, collapsed@, final(nodes)@, final(edges)@),
        extends(old(nodes)@, final(nodes)@, old(edges)@, final(edges)@),
{
    let node = nodes.len();
    let ghost before = nodes@;
    let ghost before_edges = edges@;
    let under = p.under;
    nodes.push(p);
    if join {
        match under {
            Some(u) => edges.push(Edge { from: u, to: node, dependency: false }),
            None => {},
        }
    }
    proof {
        assert(extends(before, nodes@, before_edges, edges@));
        lemma_extends(projects@, goals@, tasks@, ranks@, collapsed@, before, nodes@, before_edges, edges@);
        assert(node_ok(projects@, goals@, tasks@, ranks@, collapsed@, nodes@, node as int));
        if join {
            let k = edges@.len() - 1;
            assert(edges@[k] == Edge { from: under->0, to: node, dependency: false });
            assert(edge_ok(tasks@, nodes@, edges@[k]));
        }
        assert(joined(tasks@, nodes@, edges@, node as int));
        assert forall|i: int| 0 <= i < nodes@.len() implies #[trigger] node_ok(
            projects@,
            goals@,
            tasks@,
            ranks@,
            collapsed@,
            nodes@,
            i,
        ) by {
            if i < before.len() {
            }
        }
        assert forall|i: int| 0 <= i < nodes@.len() implies #[trigger] joined(tasks@, nodes@, edges@, i) by {
            if i < before.len() {
            }
        }
        assert forall|k: int| 0 <= k < edges@.len() implies #[trigger] edge_ok(tasks@, nodes@, edges@[k]) by {
            if k < before_edges.len() {
            }
        }
    }
    node
}

/// Close the band of shape `i` at `height`, centring the shape in it.
fn set_band(
    projects: &[Project],
    goals: &[Goal],
    tasks: &[TaskDetail],
    ranks: &Vec<usize>,
    collapsed: &Vec<String>,
    nodes: &mut Vec<Placed>,
    edges: &Vec<Edge>,
    i: usize,
    height: u128,
)
    requires
        placed_ok(projects@, goals@, tasks@, ranks@, collapsed@, old(nodes)@, edges@),
        i < old(nodes)@.len(),
        old(nodes)@[i as int].kind != Kind::Task,
        old(nodes)@[i as int].top + height <= u128::MAX,
        rows_apart(old(nodes)@),
    ensures
        placed_ok(projects@, goals@, tasks@, ranks@, collapsed@, final(nodes)@, edges@),
        extends(old(nodes)@, final(nodes)@, edges@, edges@),
        final(nodes)@.len() == old(nodes)@.len(),
        forall|k: int| 0 <= k < old(nodes)@.len() && k != i ==> #[trigger] final(nodes)@[k] == old(nodes)@[k],
        same_but_y(old(nodes)@[i as int], final(nodes)@[i as int]),
        final(nodes)@[i as int].height == height,
        final(nodes)@[i as int].y == old(nodes)@[i as int].top + height / 2,
        rows_apart(final(nodes)@),
{
    let ghost before = nodes@;
    let y = nodes[i].top + height / 2;
    nodes[i].y = y;
    nodes[i].height = height;
    proof {
        assert(extends(before, nodes@, edges@, edges@));
        lemma_extends(projects@, goals@, tasks@, ranks@, collapsed@, before, nodes@, edges@, edges@);
        let after = nodes@;
        assert forall|a: int, b: int|
            #![trigger after[a], after[b]]
            0 <= a < after.len() && 0 <= b < after.len() && a != b && after[a].kind == Kind::Task
                && after[b].kind == Kind::Task && after[a].under == after[b].under && after[a].x == after[b].x implies apart(
                after[a].y as int,
                after[b].y as int,
            ) >= ROW by {
            assert(after[a] == before[a] && after[b] == before[b]);
        }
    }
}

/// Where a shape's band ends.
pub open spec fn band_end(n: Placed) -> int {
    n.top + n.height
}

/// Shape `i` is centred in its band. A task's band is one row. A project's or goal's band
/// is at least its own shape's height, holds the bands of the shapes directly beneath it,
/// ends where the lowest of them ends unless its own shape needs more room, and each
/// sub-block beneath it starts a gap below every shape placed beneath it before.
#[verifier::opaque]
pub open spec fn band_ok(nodes: Seq<Placed>, i: int) -> bool {
    let n = nodes[i];
    &&& n.y == n.top + n.height / 2
    &&& n.kind == Kind::Task ==> n.height == ROW
    &&& n.kind != Kind::Task ==> {
        &&& n.height >= 2 * half_height(n.kind)
        &&& forall|c: int|
            0 <= c < nodes.len() && (#[trigger] nodes[c]).under == Some(i as usize) ==> n.top <= nodes[c].top
                && band_end(nodes[c]) <= band_end(n)
        &&& n.height == 2 * half_height(n.kind) || exists|c: int|
            0 <= c < nodes.len() && (#[trigger] nodes[c]).under == Some(i as usize) && band_end(nodes[c])
                == band_end(n)
        &&& forall|c: int, d: int|
            #![trigger nodes[c], nodes[d]]
            0 <= c < d < nodes.len() && nodes[c].under == Some(i as usize) && nodes[d].under == Some(i as usize)
                && nodes[d].kind != Kind::Task ==> band_end(nodes[c]) + GOAL_GAP <= nodes[d].top
    }
}

/// A band stays as it was when shapes are added, none of them directly beneath it.
proof fn lemma_band_extends(short: Seq<Placed>, long: Seq<Placed>, i: int)
    requires
        0 <= i < short.len() <= long.len(),
        band_ok(short, i),
        forall|k: int| 0 <= k < short.len() ==> #[trigger] long[k] == short[k],
        forall|k: int| short.len() <= k < long.len() ==> (#[trigger] long[k]).under != Some(i as usize),
    ensures
        band_ok(long, i),
{
    reveal(band_ok);
    assert(long[i] == short[i]);
    if short[i].kind != Kind::Task {
        assert forall|c: int|
            0 <= c < long.len() && (#[trigger] long[c]).under == Some(i as usize) implies long[i].top <= long[c].top
                && band_end(long[c]) <= band_end(long[i]) by {
            assert(long[c] == short[c]);
        }
        if short[i].height != 2 * half_height(short[i].kind) {
            let c = choose|c: int|
                0 <= c < short.len() && (#[trigger] short[c]).under == Some(i as usize) && band_end(short[c])
                    == band_end(short[i]);
            assert(long[c] == short[c]);
        }
        assert forall|c: int, d: int|
            #![trigger long[c], long[d]]
            0 <= c < d < long.len() && long[c].under == Some(i as usize) && long[d].under == Some(i as usize)
                && long[d].kind != Kind::Task implies band_end(long[c]) + GOAL_GAP <= long[d].top by {
            assert(long[c] == short[c] && long[d] == short[d]);
        }
    }
}

/// While the block of shape `node` is being filled from `top` down to `y`: every shape
/// placed after it lies beneath it, has its band closed, and the shapes directly beneath
/// it fit between `top` and `y`, the lowest ending at `y`, each sub-block a gap below
/// what came before it.
spec fn block_open(nodes: Seq<Placed>, node: int, top: int, y: int) -> bool {
    &&& top <= y
    &&& forall|j: int| node < j < nodes.len() ==> ((#[trigger] nodes[j]).under matches Some(u) && node <= u)
    &&& forall|j: int| node < j < nodes.len() ==> #[trigger] band_ok(nodes, j)
    &&& forall|c: int|
        node < c < nodes.len() && (#[trigger] nodes[c]).under == Some(node as usize) ==> top <= nodes[c].top
            && band_end(nodes[c]) <= y
    &&& y == top || exists|c: int|
        node < c < nodes.len() && (#[trigger] nodes[c]).under == Some(node as usize) && band_end(nodes[c]) == y
    &&& forall|c: int, d: int|
        #![trigger nodes[c], nodes[d]]
        node < c < d < nodes.len() && nodes[c].under == Some(node as usize) && nodes[d].under == Some(node as usize)
            && nodes[d].kind != Kind::Task ==> band_end(nodes[c]) + GOAL_GAP <= nodes[d].top
}

/// A closed band is never empty.
proof fn lemma_band_positive(nodes: Seq<Placed>, i: int)
    requires
        0 <= i < nodes.len(),
        band_ok(nodes, i),
    ensures
        band_end(nodes[i]) > nodes[i].top,
{
    reveal(band_ok);
}

/// A sub-block placed from `t` keeps the block of `node` open, now down to its end.
proof fn lemma_block_child(before: Seq<Placed>, after: Seq<Placed>, node: int, top: int, y0: int, t: int)
    requires
        0 <= node < before.len() < after.len(),
        after.len() <= usize::MAX,
        block_open(before, node, top, y0),
        forall|k: int| 0 <= k < before.len() ==> #[trigger] after[k] == before[k],
        after[before.len() as int].under == Some(node as usize),
        after[before.len() as int].kind != Kind::Task,
        after[before.len() as int].top == t,
        forall|k: int|
            before.len() < k < after.len() ==> ((#[trigger] after[k]).under matches Some(u) && before.len() <= u),
        forall|k: int| before.len() <= k < after.len() ==> #[trigger] band_ok(after, k),
        y0 <= t,
        y0 > top ==> y0 + GOAL_GAP <= t,
    ensures
        block_open(after, node, top, band_end(after[before.len() as int])),
{
    reveal(band_ok);
    let mid = before.len() as int;
    let y = band_end(after[mid]);
    lemma_band_positive(after, mid);
    assert forall|j: int| node < j < after.len() implies ((#[trigger] after[j]).under matches Some(u) && node <= u) by {
        if j < mid {
            assert(after[j] == before[j]);
        } else if j == mid {
            assert(after[mid].under == Some(node as usize));
        }
    }
    assert forall|j: int| node < j < after.len() implies #[trigger] band_ok(after, j) by {
        if j < mid {
            assert(band_ok(before, j));
            assert forall|k: int| mid <= k < after.len() implies (#[trigger] after[k]).under != Some(j as usize) by {
                if k == mid {
                    assert(after[mid].under == Some(node as usize));
                }
            }
            lemma_band_extends(before, after, j);
        }
    }
    assert forall|c: int|
        node < c < after.len() && (#[trigger] after[c]).under == Some(node as usize) implies top <= after[c].top
            && band_end(after[c]) <= y by {
        if c < mid {
            assert(after[c] == before[c]);
        }
    }
    assert forall|c: int, d: int|
        #![trigger after[c], after[d]]
        node < c < d < after.len() && after[c].under == Some(node as usize) && after[d].under == Some(
            node as usize,
        ) && after[d].kind != Kind::Task implies band_end(after[c]) + GOAL_GAP <= after[d].top by {
        if d < mid {
            assert(after[c] == before[c] && after[d] == before[d]);
        } else if d == mid {
            assert(after[c] == before[c]);
            assert(band_ok(before, c));
            lemma_band_positive(before, c);
        }
    }
}

/// Closing the band of `node` at `height`, all that it holds fitting, closes every band
/// from `node` on.
proof fn lemma_block_close(before: Seq<Placed>, after: Seq<Placed>, node: int, top: int, y: int)
    requires
        0 <= node < before.len() == after.len(),
        after.len() <= usize::MAX,
        block_open(before, node, top, y),
        before[node].kind != Kind::Task,
        before[node].top == top,
        before[node].under matches Some(u) ==> u < node,
        forall|c: int| 0 <= c < node ==> (#[trigger] before[c]).under != Some(node as usize),
        forall|k: int| 0 <= k < before.len() && k != node ==> #[trigger] after[k] == before[k],
        same_but_y(before[node], after[node]),
        after[node].height == (if y - top > 2 * half_height(before[node].kind) {
            y - top
        } else {
            2 * half_height(before[node].kind)
        }),
        after[node].y == top + after[node].height / 2,
    ensures
        forall|j: int| node <= j < after.len() ==> #[trigger] band_ok(after, j),
{
    reveal(band_ok);
    assert forall|j: int| node <= j < after.len() implies #[trigger] band_ok(after, j) by {
        if j > node {
            assert(band_ok(before, j));
            assert(after[j] == before[j]);
            let n = after[j];
            if n.kind != Kind::Task {
                assert forall|c: int|
                    0 <= c < after.len() && (#[trigger] after[c]).under == Some(j as usize) implies n.top <= after[c].top
                        && band_end(after[c]) <= band_end(n) by {
                    assert(c != node);
                    assert(after[c] == before[c]);
                }
                if n.height != 2 * half_height(n.kind) {
                    let c = choose|c: int|
                        0 <= c < before.len() && (#[trigger] before[c]).under == Some(j as usize) && band_end(
                            before[c],
                        ) == band_end(before[j]);
                    assert(c != node);
                    assert(after[c] == before[c]);
                }
                assert forall|c: int, d: int|
                    #![trigger after[c], after[d]]
                    0 <= c < d < after.len() && after[c].under == Some(j as usize) && after[d].under == Some(
                        j as usize,
                    ) && after[d].kind != Kind::Task implies band_end(after[c]) + GOAL_GAP <= after[d].top by {
                    assert(c != node && d != node);
                    assert(after[c] == before[c] && after[d] == before[d]);
                }
            }
        } else {
            let n = after[node];
            assert forall|c: int|
                0 <= c < after.len() && (#[trigger] after[c]).under == Some(node as usize) implies n.top
                    <= after[c].top && band_end(after[c]) <= band_end(n) by {
                if c != node {
                    assert(after[c] == before[c]);
                }
            }
            if n.height != 2 * half_height(n.kind) {
                let c = choose|c: int|
                    node < c < before.len() && (#[trigger] before[c]).under == Some(node as usize) && band_end(
                        before[c],
                    ) == y;
                assert(after[c] == before[c]);
            }
            assert forall|c: int, d: int|
                #![trigger after[c], after[d]]
                0 <= c < d < after.len() && after[c].under == Some(node as usize) && after[d].under == Some(
                    node as usize,
                ) && after[d].kind != Kind::Task implies band_end(after[c]) + GOAL_GAP <= after[d].top by {
                assert(c != node && d != node);
                assert(after[c] == before[c] && after[d] == before[d]);
            }
        }
    }
}

/// Where row `r` of a goal's tasks starts, for rows starting at `top`.
pub open spec fn row_top(top: int, r: int) -> int {
    top + ROW * r
}

/// Tasks beneath one goal never overlap: two of them in the same column sit at least a
/// row apart.
pub open spec fn rows_apart(nodes: Seq<Placed>) -> bool {
    forall|i: int, j: int|
        #![trigger nodes[i], nodes[j]]
        0 <= i < nodes.len() && 0 <= j < nodes.len() && i != j && nodes[i].kind == Kind::Task && nodes[j].kind
            == Kind::Task && nodes[i].under == nodes[j].under && nodes[i].x == nodes[j].x ==> apart(
            nodes[i].y as int,
            nodes[j].y as int,
        ) >= ROW
}

/// Some column entry of `counts` is `col` with more rows than `r`.
pub open spec fn row_entry(counts: Seq<(usize, u128)>, col: usize, r: int) -> bool {
    exists|c: int| 0 <= c < counts.len() && (#[trigger] counts[c]).0 == col && r < counts[c].1
}

/// A new shape keeps tasks apart when it is no task, or is a row away from each task in
/// its column beneath the same goal.
proof fn lemma_rows_push(before: Seq<Placed>, p: Placed)
    requires
        rows_apart(before),
        p.kind == Kind::Task ==> forall|j: int|
            0 <= j < before.len() && (#[trigger] before[j]).kind == Kind::Task && before[j].under == p.under
                && before[j].x == p.x ==> apart(before[j].y as int, p.y as int) >= ROW,
    ensures
        rows_apart(before.push(p)),
{
    let after = before.push(p);
    assert forall|i: int, j: int|
        #![trigger after[i], after[j]]
        0 <= i < after.len() && 0 <= j < after.len() && i != j && after[i].kind == Kind::Task && after[j].kind
            == Kind::Task && after[i].under == after[j].under && after[i].x == after[j].x implies apart(
            after[i].y as int,
            after[j].y as int,
        ) >= ROW by {
        if i < before.len() && j < before.len() {
            assert(after[i] == before[i] && after[j] == before[j]);
        } else if i < before.len() {
            assert(after[i] == before[i]);
            assert(apart(before[i].y as int, p.y as int) >= ROW);
        } else {
            assert(after[j] == before[j]);
            assert(apart(before[j].y as int, p.y as int) >= ROW);
        }
    }
}

/// The tasks of the goal shown at `goal_node` are all shown beneath it.
pub open spec fn tasks_shown(tasks: Seq<TaskDetail>, nodes: Seq<Placed>, goal_node: int) -> bool {
    forall|t: int|
        0 <= t < tasks.len() && #[trigger] tasks[t].task.goal_id@ == nodes[goal_node].id@ ==> exists|j: int|
            0 <= j < nodes.len() && nodes[j].kind == Kind::Task && nodes[j].source == t && nodes[j].under
                == Some(goal_node as usize)
}

/// Place the tasks of the goal shown at `goal_node` in rows by dependency rank, starting
/// at `top`; return the rows' height (zero when the goal has no tasks).
fn task_rows(
    projects: &[Project],
    goals: &[Goal],
    tasks: &[TaskDetail],
    ranks: &Vec<usize>,
    collapsed: &Vec<String>,
    nodes: &mut Vec<Placed>,
    edges: &mut Vec<Edge>,
    goal_node: usize,
    top: u128,
) -> (height: u128)
    requires
        placed_ok(projects@, goals@, tasks@, ranks@, collapsed@, old(nodes)@, old(edges)@),
        ranks@.len() == tasks@.len(),
        goal_node < old(nodes)@.len(),
        old(nodes)@[goal_node as int].kind == Kind::Goal,
        !old(nodes)@[goal_node as int].collapsed,
        old(nodes)@[goal_node as int].x <= X_LIMIT,
        top <= 512 * old(nodes)@.len(),
        goal_node + 1 == old(nodes)@.len(),
        rows_apart(old(nodes)@),
    ensures
        rows_apart(final(nodes)@),
        forall|j: int|
            old(nodes)@.len() <= j < final(nodes)@.len() ==> (#[trigger] final(nodes)@[j]).under == Some(goal_node),
        placed_ok(projects@, goals@, tasks@, ranks@, collapsed@, final(nodes)@, final(edges)@),
        extends(old(nodes)@, final(nodes)@, old(edges)@, final(edges)@),
        tasks_shown(tasks@, final(nodes)@, goal_node as int),
        height <= ROW * (final(nodes)@.len() - old(nodes)@.len()),
        forall|j: int| old(nodes)@.len() <= j < final(nodes)@.len() ==> #[trigger] final(nodes)@[j].kind == Kind::Task,
        forall|i: int| 0 <= i < old(nodes)@.len() ==> #[trigger] final(nodes)@[i] == old(nodes)@[i],
        forall|j: int| old(nodes)@.len() <= j < final(nodes)@.len() ==> #[trigger] band_ok(final(nodes)@, j),
        forall|j: int|
            old(nodes)@.len() <= j < final(nodes)@.len() ==> {
                &&& top <= (#[trigger] final(nodes)@[j]).top
                &&& band_end(final(nodes)@[j]) <= top + height
                &&& exists|r: int| 0 <= r && final(nodes)@[j].top == #[trigger] row_top(top as int, r)
            },
        height == 0 || exists|j: int|
            old(nodes)@.len() <= j < final(nodes)@.len() && band_end(#[trigger] final(nodes)@[j]) == top + height,
{
    let gid = nodes[goal_node].id.clone();
    let gx = nodes[goal_node].x;
    let ghost start = nodes@;
    let ghost start_edges = edges@;
    let mut counts: Vec<(usize, u128)> = Vec::new();
    let ghost mut rowg: Seq<int> = Seq::empty();
    proof {
        assert forall|i: int| 0 <= i < start.len() && (#[trigger] start[i]).kind == Kind::Task implies start[i].under
            != Some(goal_node) by {
            assert(node_ok(projects@, goals@, tasks@, ranks@, collapsed@, start, i));
        }
    }
    let mut rows: u128 = 0;
    let mut t: usize = 0;
    while t < tasks.len()
        invariant
            placed_ok(projects@, goals@, tasks@, ranks@, collapsed@, nodes@, edges@),
            extends(start, nodes@, start_edges, edges@),
            ranks@.len() == tasks@.len(),
            goal_node < start.len(),
            start[goal_node as int].kind == Kind::Goal,
            !start[goal_node as int].collapsed,
            gid@ == start[goal_node as int].id@,
            gx == start[goal_node as int].x,
            gx <= X_LIMIT,
            top <= 512 * start.len(),
            t <= tasks@.len(),
            rows <= nodes@.len() - start.len(),
            forall|c: int| 0 <= c < counts@.len() ==> #[trigger] counts@[c].1 <= nodes@.len() - start.len(),
            forall|j: int| start.len() <= j < nodes@.len() ==> #[trigger] nodes@[j].kind == Kind::Task,
            rows_apart(nodes@),
            nodes@.len() >= start.len(),
            forall|i: int| 0 <= i < start.len() ==> #[trigger] nodes@[i] == start[i],
            forall|i: int| 0 <= i < start.len() && (#[trigger] start[i]).kind == Kind::Task ==> start[i].under != Some(goal_node),
            rowg.len() == nodes@.len() - start.len(),
            forall|j: int|
                start.len() <= j < nodes@.len() ==> {
                    &&& (#[trigger] nodes@[j]).under == Some(goal_node)
                    &&& nodes@[j].source < ranks@.len()
                    &&& nodes@[j].top == top + ROW * rowg[j - start.len()]
                    &&& nodes@[j].height == ROW
                    &&& nodes@[j].y == nodes@[j].top + ROW / 2
                    &&& rowg[j - start.len()] < rows
                    &&& nodes@[j].x == gx + TASK_OFFSET + COL_STEP * ranks@[nodes@[j].source as int]
                    &&& 0 <= rowg[j - start.len()]
                    &&& row_entry(counts@, ranks@[nodes@[j].source as int], rowg[j - start.len()])
                },
            forall|c1: int, c2: int|
                0 <= c1 < counts@.len() && 0 <= c2 < counts@.len() && c1 != c2 ==> (#[trigger] counts@[c1]).0
                    != (#[trigger] counts@[c2]).0,
            rows == 0 || exists|j: int|
                start.len() <= j < nodes@.len() && (#[trigger] nodes@[j]).top == row_top(top as int, rows - 1),
            forall|u: int|
                0 <= u < t && #[trigger] tasks@[u].task.goal_id@ == gid@ ==> exists|j: int|
                    0 <= j < nodes@.len() && nodes@[j].kind == Kind::Task && nodes@[j].source == u
                        && nodes@[j].under == Some(goal_node),
        decreases tasks@.len() - t,
    {
        if same_text(tasks[t].task.goal_id.as_str(), gid.as_str()) {
            let column = ranks[t];
            let mut c: usize = 0;
            let mut row: u128 = 0;
            let mut at: Option<usize> = None;
            while c < counts.len()
                invariant
                    c <= counts@.len(),
                    row <= nodes@.len() - start.len(),
                    forall|k: int| 0 <= k < counts@.len() ==> #[trigger] counts@[k].1 <= nodes@.len() - start.len(),
                    at matches Some(a) ==> a < counts@.len() && counts@[a as int].0 == column && row
                        == counts@[a as int].1,
                    at is None ==> row == 0 && forall|k: int| 0 <= k < c ==> (#[trigger] counts@[k]).0 != column,
                decreases counts@.len() - c,
            {
                if at.is_none() && counts[c].0 == column {
                    row = counts[c].1;
                    at = Some(c);
                }
                c = c + 1;
            }
            let _len = nodes.len();
            let ghost old_counts = counts@;
            match at {
                Some(a) => counts.set(a, (column, row + 1)),
                None => counts.push((column, 1)),
            }
            proof {
                assert forall|j: int| start.len() <= j < nodes@.len() implies row_entry(
                    counts@,
                    ranks@[nodes@[j].source as int],
                    rowg[j - start.len()],
                ) by {
                    let col = ranks@[nodes@[j].source as int];
                    let c = choose|c: int|
                        0 <= c < old_counts.len() && (#[trigger] old_counts[c]).0 == col && rowg[j - start.len()]
                            < old_counts[c].1;
                    assert(counts@[c].0 == col && rowg[j - start.len()] < counts@[c].1);
                }
                let last: int = if at is Some {
                    at->0 as int
                } else {
                    old_counts.len() as int
                };
                assert(counts@[last].0 == column && (row as int) < counts@[last].1);
                assert(row_entry(counts@, column, row as int));
            }
            if row + 1 > rows {
                rows = row + 1;
            }
            let ghost old_rows = rows;
            let x = gx + TASK_OFFSET + COL_STEP * (column as u128);
            let row_top = top + ROW * row;
            let y = row_top + ROW / 2;
            let is_collapsed = contains_text(collapsed, tasks[t].task.id.as_str());
            let p = Placed {
                id: tasks[t].task.id.clone(),
                kind: Kind::Task,
                state: State::of_task(&tasks[t]),
                collapsed: is_collapsed,
                x,
                y,
                top: row_top,
                height: ROW,
                title: tasks[t].task.title.clone(),
                under: Some(goal_node),
                source: t,
            };
            let join = !rooted(tasks, &tasks[t].depends_on, gid.as_str());
            let ghost before = nodes@;
            proof {
                assert forall|j: int|
                    0 <= j < before.len() && (#[trigger] before[j]).kind == Kind::Task && before[j].under == p.under
                        && before[j].x == p.x implies apart(before[j].y as int, p.y as int) >= ROW by {
                    if j < start.len() {
                        assert(before[j] == start[j]);
                    } else {
                        let col = ranks@[before[j].source as int];
                        assert(COL_STEP * col == COL_STEP * column);
                        assert(col == column);
                        let c = choose|c: int|
                            0 <= c < old_counts.len() && (#[trigger] old_counts[c]).0 == col && rowg[j
                                - start.len()] < old_counts[c].1;
                        if let Some(a) = at {
                            assert(c == a as int);
                        } else {
                            assert(old_counts[c].0 != column);
                        }
                    }
                }
                lemma_rows_push(before, p);
                assert(node_ok(projects@, goals@, tasks@, ranks@, collapsed@, before.push(p), before.len() as int));
            }
            let node = push_node(projects, goals, tasks, ranks, collapsed, nodes, edges, p, join);
            proof {
                rowg = rowg.push(row as int);
                assert forall|j: int| start.len() <= j < nodes@.len() implies {
                    &&& (#[trigger] nodes@[j]).under == Some(goal_node)
                    &&& nodes@[j].source < ranks@.len()
                    &&& nodes@[j].top == top + ROW * rowg[j - start.len()]
                    &&& nodes@[j].height == ROW
                    &&& nodes@[j].y == nodes@[j].top + ROW / 2
                    &&& rowg[j - start.len()] < rows
                    &&& nodes@[j].x == gx + TASK_OFFSET + COL_STEP * ranks@[nodes@[j].source as int]
                    &&& 0 <= rowg[j - start.len()]
                    &&& row_entry(counts@, ranks@[nodes@[j].source as int], rowg[j - start.len()])
                } by {
                    if j < before.len() {
                        assert(nodes@[j] == before[j]);
                    }
                }
                assert forall|i: int| 0 <= i < start.len() implies #[trigger] nodes@[i] == start[i] by {
                    assert(nodes@[i] == before[i]);
                }
                assert forall|u: int|
                    0 <= u < t + 1 && #[trigger] tasks@[u].task.goal_id@ == gid@ implies exists|j: int|
                        0 <= j < nodes@.len() && nodes@[j].kind == Kind::Task && nodes@[j].source == u
                            && nodes@[j].under == Some(goal_node) by {
                    if u < t {
                        let j = choose|j: int|
                            0 <= j < before.len() && before[j].kind == Kind::Task && before[j].source == u
                                && before[j].under == Some(goal_node);
                        assert(nodes@[j] == before[j]);
                    } else {
                        assert(nodes@[node as int].source == u);
                    }
                }
            }
        }
        t = t + 1;
    }
    proof {
        assert forall|u: int|
            0 <= u < tasks@.len() && #[trigger] tasks@[u].task.goal_id@ == nodes@[goal_node as int].id@ implies exists|j: int|
                0 <= j < nodes@.len() && nodes@[j].kind == Kind::Task && nodes@[j].source == u
                    && nodes@[j].under == Some(goal_node) by {
            assert(same_but_y(start[goal_node as int], nodes@[goal_node as int]));
            assert(tasks@[u].task.goal_id@ == gid@);
        }
    }
    let _len = nodes.len();
    proof {
        assert forall|j: int| start.len() <= j < nodes@.len() implies #[trigger] band_ok(nodes@, j) by {
            reveal(band_ok);
        }
        assert forall|j: int| start.len() <= j < nodes@.len() implies {
            &&& top <= (#[trigger] nodes@[j]).top
            &&& band_end(nodes@[j]) <= top + ROW * rows
            &&& exists|r: int| 0 <= r && nodes@[j].top == #[trigger] row_top(top as int, r)
        } by {
            let r = rowg[j - start.len()];
            assert(nodes@[j].top == row_top(top as int, r));
            assert(ROW * r + ROW <= ROW * rows) by (nonlinear_arith)
                requires
                    r < rows,
            ;
        }
        if rows != 0 {
            let j = choose|j: int|
                start.len() <= j < nodes@.len() && (#[trigger] nodes@[j]).top == row_top(top as int, rows - 1);
            assert(band_end(nodes@[j]) == top + ROW * rows);
        }
    }
    ROW * rows
}

/// The top-level goals of the project shown at `project_node` are all shown beneath it.
pub open spec fn goals_shown(goals: Seq<Goal>, nodes: Seq<Placed>, project_node: int) -> bool {
    forall|g: int|
        0 <= g < goals.len() && #[trigger] goals[g].project_id@ == nodes[project_node].id@ && goals[g].parent_id
            is None ==> exists|j: int|
            0 <= j < nodes.len() && nodes[j].kind == Kind::Goal && nodes[j].source == g && nodes[j].under
                == Some(project_node as usize)
}

/// How many shapes of its own kind shape `i` sits beneath: a sub-goal's goal ancestors, a
/// sub-project's project ancestors.
pub open spec fn level(nodes: Seq<Placed>, i: int) -> nat
    decreases i,
{
    if 0 <= i < nodes.len() {
        match nodes[i].under {
            Some(u) => if 0 <= u < i && nodes[u as int].kind == nodes[i].kind {
                1 + level(nodes, u as int)
            } else {
                0
            },
            None => 0,
        }
    } else {
        0
    }
}

/// The sub-goals of the goal shown at `goal_node` are all shown beneath it.
pub open spec fn subgoals_shown(goals: Seq<Goal>, nodes: Seq<Placed>, goal_node: int) -> bool {
    forall|g: int|
        0 <= g < goals.len() && ((#[trigger] goals[g]).parent_id matches Some(pid) && pid@ == nodes[goal_node].id@)
            ==> exists|j: int|
            0 <= j < nodes.len() && nodes[j].kind == Kind::Goal && nodes[j].source == g && nodes[j].under
                == Some(goal_node as usize)
}

/// The sub-projects of the project shown at `project_node` are all shown beneath it.
pub open spec fn subprojects_shown(projects: Seq<Project>, nodes: Seq<Placed>, project_node: int) -> bool {
    forall|q: int|
        0 <= q < projects.len() && ((#[trigger] projects[q]).parent_id matches Some(pid) && pid@
            == nodes[project_node].id@) ==> exists|j: int|
            0 <= j < nodes.len() && nodes[j].kind == Kind::Project && nodes[j].source == q && nodes[j].under
                == Some(project_node as usize)
}

/// What is directly beneath shape `i` is shown, unless `i` is collapsed: a goal's tasks
/// and sub-goals, a project's top-level goals and sub-projects. Sub-goals and sub-projects
/// are looked for as many levels down as there are goals and projects; only a chain that
/// repeats an ID goes deeper.
pub open spec fn complete_at(
    projects: Seq<Project>,
    goals: Seq<Goal>,
    tasks: Seq<TaskDetail>,
    nodes: Seq<Placed>,
    i: int,
) -> bool {
    !nodes[i].collapsed ==> match nodes[i].kind {
        Kind::Goal => tasks_shown(tasks, nodes, i) && (level(nodes, i) < goals.len() ==> subgoals_shown(
            goals,
            nodes,
            i,
        )),
        Kind::Project => goals_shown(goals, nodes, i) && (level(nodes, i) < projects.len() ==> subprojects_shown(
            projects,
            nodes,
            i,
        )),
        Kind::Task => true,
    }
}

/// Growing the shapes keeps every level.
proof fn lemma_level_extends(short: Seq<Placed>, long: Seq<Placed>, i: int)
    requires
        short.len() <= long.len(),
        forall|k: int| 0 <= k < short.len() ==> same_but_y(#[trigger] short[k], long[k]),
        0 <= i < short.len(),
    ensures
        level(long, i) == level(short, i),
    decreases i,
{
    assert(same_but_y(short[i], long[i]));
    if let Some(u) = short[i].under {
        if 0 <= u < i {
            assert(same_but_y(short[u as int], long[u as int]));
            lemma_level_extends(short, long, u as int);
        }
    }
}

/// Growing the shapes keeps what was already shown.
proof fn lemma_complete_extends(
    projects: Seq<Project>,
    goals: Seq<Goal>,
    tasks: Seq<TaskDetail>,
    short: Seq<Placed>,
    long: Seq<Placed>,
    short_edges: Seq<Edge>,
    long_edges: Seq<Edge>,
    from: int,
)
    requires
        extends(short, long, short_edges, long_edges),
        0 <= from,
        forall|i: int| from <= i < short.len() ==> #[trigger] complete_at(projects, goals, tasks, short, i),
    ensures
        forall|i: int| from <= i < short.len() ==> #[trigger] complete_at(projects, goals, tasks, long, i),
{
    assert forall|i: int| from <= i < short.len() implies #[trigger] complete_at(projects, goals, tasks, long, i) by {
        assert(complete_at(projects, goals, tasks, short, i));
        assert(same_but_y(short[i], long[i]));
        lemma_level_extends(short, long, i);
        if !long[i].collapsed {
            if long[i].kind == Kind::Goal {
                assert forall|t: int|
                    0 <= t < tasks.len() && #[trigger] tasks[t].task.goal_id@ == long[i].id@ implies exists|j: int|
                        0 <= j < long.len() && long[j].kind == Kind::Task && long[j].source == t && long[j].under
                            == Some(i as usize) by {
                    assert(tasks[t].task.goal_id@ == short[i].id@);
                    let j = choose|j: int|
                        0 <= j < short.len() && short[j].kind == Kind::Task && short[j].source == t
                            && short[j].under == Some(i as usize);
                    assert(same_but_y(short[j], long[j]));
                }
                if level(long, i) < goals.len() {
                    assert forall|g: int|
                        0 <= g < goals.len() && ((#[trigger] goals[g]).parent_id matches Some(pid) && pid@
                            == long[i].id@) implies exists|j: int|
                            0 <= j < long.len() && long[j].kind == Kind::Goal && long[j].source == g
                                && long[j].under == Some(i as usize) by {
                        let j = choose|j: int|
                            0 <= j < short.len() && short[j].kind == Kind::Goal && short[j].source == g
                                && short[j].under == Some(i as usize);
                        assert(same_but_y(short[j], long[j]));
                    }
                }
            } else if long[i].kind == Kind::Project {
                assert forall|g: int|
                    0 <= g < goals.len() && #[trigger] goals[g].project_id@ == long[i].id@ && goals[g].parent_id
                        is None implies exists|j: int|
                        0 <= j < long.len() && long[j].kind == Kind::Goal && long[j].source == g && long[j].under
                            == Some(i as usize) by {
                    assert(goals[g].project_id@ == short[i].id@);
                    let j = choose|j: int|
                        0 <= j < short.len() && short[j].kind == Kind::Goal && short[j].source == g
                            && short[j].under == Some(i as usize);
                    assert(same_but_y(short[j], long[j]));
                }
                if level(long, i) < projects.len() {
                    assert forall|q: int|
                        0 <= q < projects.len() && ((#[trigger] projects[q]).parent_id matches Some(pid) && pid@
                            == long[i].id@) implies exists|j: int|
                            0 <= j < long.len() && long[j].kind == Kind::Project && long[j].source == q
                                && long[j].under == Some(i as usize) by {
                        let j = choose|j: int|
                            0 <= j < short.len() && short[j].kind == Kind::Project && short[j].source == q
                                && short[j].under == Some(i as usize);
                        assert(same_but_y(short[j], long[j]));
                    }
                }
            }
        }
    }
}

/// `long` extends `middle`, which extends `short`.
proof fn lemma_extends_chain(
    short: Seq<Placed>,
    middle: Seq<Placed>,
    long: Seq<Placed>,
    short_edges: Seq<Edge>,
    middle_edges: Seq<Edge>,
    long_edges: Seq<Edge>,
)
    requires
        extends(short, middle, short_edges, middle_edges),
        extends(middle, long, middle_edges, long_edges),
    ensures
        extends(short, long, short_edges, long_edges),
{
    assert forall|i: int| 0 <= i < short.len() implies same_but_y(#[trigger] short[i], long[i]) by {
        assert(same_but_y(short[i], middle[i]));
        assert(same_but_y(middle[i], long[i]));
    }
    assert forall|k: int| 0 <= k < short_edges.len() implies #[trigger] short_edges[k] == long_edges[k] by {
        assert(short_edges[k] == middle_edges[k]);
    }
}

/// Place a goal centred at `x` beneath shape `under`, and unless it is collapsed its tasks
/// and then its sub-goals, `fuel` levels deep, starting at `top`; return the height used.
fn goal_block(
    projects: &[Project],
    goals: &[Goal],
    tasks: &[TaskDetail],
    ranks: &Vec<usize>,
    collapsed: &Vec<String>,
    nodes: &mut Vec<Placed>,
    edges: &mut Vec<Edge>,
    goal: usize,
    under: usize,
    x: u128,
    top: u128,
    fuel: usize,
) -> (height: u128)
    requires
        placed_ok(projects@, goals@, tasks@, ranks@, collapsed@, old(nodes)@, old(edges)@),
        ranks@.len() == tasks@.len(),
        goal < goals@.len(),
        under < old(nodes)@.len(),
        !old(nodes)@[under as int].collapsed,
        ({
            let p = old(nodes)@[under as int];
            let g = goals@[goal as int];
            ||| p.kind == Kind::Project && g.project_id@ == p.id@ && g.parent_id is None && x == p.x + GOAL_OFFSET
            ||| p.kind == Kind::Goal && (g.parent_id matches Some(pid) && pid@ == p.id@) && x == p.x
                + SUBGOAL_OFFSET
        }),
        fuel + (if old(nodes)@[under as int].kind == Kind::Goal {
            level(old(nodes)@, under as int) + 1
        } else {
            0
        }) == goals@.len(),
        x + SUBGOAL_OFFSET * fuel <= X_LIMIT,
        top <= 512 * old(nodes)@.len(),
        rows_apart(old(nodes)@),
    ensures
        rows_apart(final(nodes)@),
        height + 48 <= 256 * (final(nodes)@.len() - old(nodes)@.len()),
        placed_ok(projects@, goals@, tasks@, ranks@, collapsed@, final(nodes)@, final(edges)@),
        extends(old(nodes)@, final(nodes)@, old(edges)@, final(edges)@),
        old(nodes)@.len() < final(nodes)@.len(),
        final(nodes)@[old(nodes)@.len() as int].kind == Kind::Goal,
        final(nodes)@[old(nodes)@.len() as int].source == goal,
        final(nodes)@[old(nodes)@.len() as int].under == Some(under),
        final(nodes)@[old(nodes)@.len() as int].top == top,
        final(nodes)@[old(nodes)@.len() as int].height == height,
        forall|i: int| 0 <= i < old(nodes)@.len() ==> #[trigger] final(nodes)@[i] == old(nodes)@[i],
        forall|j: int|
            old(nodes)@.len() < j < final(nodes)@.len() ==> ((#[trigger] final(nodes)@[j]).under matches Some(u)
                && old(nodes)@.len() <= u),
        forall|j: int| old(nodes)@.len() <= j < final(nodes)@.len() ==> #[trigger] band_ok(final(nodes)@, j),
        forall|i: int|
            old(nodes)@.len() <= i < final(nodes)@.len() ==> #[trigger] complete_at(
                projects@,
                goals@,
                tasks@,
                final(nodes)@,
                i,
            ),
    decreases fuel,
{
    let is_collapsed = contains_text(collapsed, goals[goal].id.as_str());
    let p = Placed {
        id: goals[goal].id.clone(),
        kind: Kind::Goal,
        state: State::from(goals[goal].status),
        collapsed: is_collapsed,
        x,
        y: top,
        top,
        height: 0,
        title: goals[goal].title.clone(),
        under: Some(under),
        source: goal,
    };
    proof {
        assert(node_ok(projects@, goals@, tasks@, ranks@, collapsed@, old(nodes)@.push(p), old(nodes)@.len() as int));
    }
    let ghost start = nodes@;
    let ghost start_edges = edges@;
    let ghost pg = p;
    let node = push_node(projects, goals, tasks, ranks, collapsed, nodes, edges, p, true);
    proof {
        lemma_rows_push(start, pg);
        lemma_level_extends(start, nodes@, under as int);
        assert(fuel + level(nodes@, node as int) == goals@.len());
        assert(block_open(nodes@, node as int, top as int, top as int));
    }
    let mut y = top;
    if !is_collapsed {
        let ghost before = nodes@;
        let ghost before_edges = edges@;
        let h = task_rows(projects, goals, tasks, ranks, collapsed, nodes, edges, node, y);
        let _len = nodes.len();
        proof {
            lemma_extends_chain(start, before, nodes@, start_edges, before_edges, edges@);
            assert(same_but_y(before[node as int], nodes@[node as int]));
            lemma_level_extends(before, nodes@, node as int);
            let after = nodes@;
            assert forall|c: int, d: int|
                #![trigger after[c], after[d]]
                node < c < d < after.len() && after[c].under == Some(node) && after[d].under == Some(node)
                    && after[d].kind != Kind::Task implies band_end(after[c]) + GOAL_GAP <= after[d].top by {
                assert(after[d].kind == Kind::Task);
            }
            if h != 0 {
                let w = choose|w: int| before.len() <= w < after.len() && band_end(#[trigger] after[w]) == top + h;
                assert(after[w].under == Some(node));
            }
            assert(block_open(after, node as int, top as int, (top + h) as int));
            assert forall|i: int| node < i < nodes@.len() implies #[trigger] complete_at(
                projects@,
                goals@,
                tasks@,
                nodes@,
                i,
            ) by {
                assert(nodes@[i].kind == Kind::Task);
            }
        }
        y = y + h;
        let mut j: usize = 0;
        if fuel > 0 {
            while j < goals.len()
                invariant
                    placed_ok(projects@, goals@, tasks@, ranks@, collapsed@, nodes@, edges@),
                    extends(start, nodes@, start_edges, edges@),
                    ranks@.len() == tasks@.len(),
                    node == start.len(),
                    node < nodes@.len(),
                    nodes@[node as int].kind == Kind::Goal,
                    nodes@[node as int].source == goal,
                    nodes@[node as int].under == Some(under),
                    !nodes@[node as int].collapsed,
                    nodes@[node as int].id@ == goals@[goal as int].id@,
                    nodes@[node as int].x == x,
                    fuel + level(nodes@, node as int) == goals@.len(),
                    goal < goals@.len(),
                    0 < fuel,
                    x + SUBGOAL_OFFSET * fuel <= X_LIMIT,
                    top <= y,
                    rows_apart(nodes@),
                    top <= 512 * start.len(),
                    y - top <= 256 * (nodes@.len() - start.len() - 1),
                    block_open(nodes@, node as int, top as int, y as int),
                    forall|i: int| 0 <= i < start.len() ==> #[trigger] nodes@[i] == start[i],
                    nodes@[node as int].top == top,
                    j <= goals@.len(),
                    tasks_shown(tasks@, nodes@, node as int),
                    forall|i: int| node < i < nodes@.len() ==> #[trigger] complete_at(projects@, goals@, tasks@, nodes@, i),
                    forall|g: int|
                        0 <= g < j && ((#[trigger] goals@[g]).parent_id matches Some(pid) && pid@ == nodes@[node as int].id@)
                            ==> exists|k: int|
                            0 <= k < nodes@.len() && nodes@[k].kind == Kind::Goal && nodes@[k].source == g
                                && nodes@[k].under == Some(node),
                decreases goals@.len() - j,
            {
                let is_child = match &goals[j].parent_id {
                    Some(pid) => same_text(pid.as_str(), goals[goal].id.as_str()),
                    None => false,
                };
                if is_child {
                    let _len = nodes.len();
                    let ghost y0 = y;
                    if y > top {
                        y = y + GOAL_GAP;
                    }
                    let ghost mid = nodes@;
                    let ghost mid_edges = edges@;
                    let h = goal_block(
                        projects,
                        goals,
                        tasks,
                        ranks,
                        collapsed,
                        nodes,
                        edges,
                        j,
                        node,
                        x + SUBGOAL_OFFSET,
                        y,
                        fuel - 1,
                    );
                    let _n = nodes.len();
                    proof {
                        lemma_extends_chain(start, mid, nodes@, start_edges, mid_edges, edges@);
                        lemma_complete_extends(projects@, goals@, tasks@, mid, nodes@, mid_edges, edges@, node + 1);
                        assert(same_but_y(mid[node as int], nodes@[node as int]));
                        lemma_level_extends(mid, nodes@, node as int);
                        lemma_block_child(mid, nodes@, node as int, top as int, y0 as int, y as int);
                        assert forall|i: int| 0 <= i < start.len() implies #[trigger] nodes@[i] == start[i] by {
                            assert(nodes@[i] == mid[i]);
                        }
                        assert(nodes@[node as int] == mid[node as int]);
                        assert forall|t: int|
                            0 <= t < tasks@.len() && #[trigger] tasks@[t].task.goal_id@ == nodes@[node as int].id@ implies exists|k: int|
                                0 <= k < nodes@.len() && nodes@[k].kind == Kind::Task && nodes@[k].source == t
                                    && nodes@[k].under == Some(node) by {
                            assert(tasks@[t].task.goal_id@ == mid[node as int].id@);
                            let k = choose|k: int|
                                0 <= k < mid.len() && mid[k].kind == Kind::Task && mid[k].source == t
                                    && mid[k].under == Some(node);
                            assert(same_but_y(mid[k], nodes@[k]));
                        }
                        assert forall|g: int|
                            0 <= g < j + 1 && ((#[trigger] goals@[g]).parent_id matches Some(pid) && pid@
                                == nodes@[node as int].id@) implies exists|k: int|
                                0 <= k < nodes@.len() && nodes@[k].kind == Kind::Goal && nodes@[k].source == g
                                    && nodes@[k].under == Some(node) by {
                            if g < j {
                                let k = choose|k: int|
                                    0 <= k < mid.len() && mid[k].kind == Kind::Goal && mid[k].source == g
                                        && mid[k].under == Some(node);
                                assert(same_but_y(mid[k], nodes@[k]));
                            } else {
                                assert(nodes@[mid.len() as int].source == g);
                            }
                        }
                    }
                    let _len = nodes.len();
                    y = y + h;
                }
                j = j + 1;
            }
        }
        proof {
            assert(complete_at(projects@, goals@, tasks@, nodes@, node as int));
        }
    }
    let used = y - top;
    let height = if used > 2 * GOAL_HH {
        used
    } else {
        2 * GOAL_HH
    };
    let ghost last = nodes@;
    let _len = nodes.len();
    proof {
        assert forall|c: int| 0 <= c < node implies (#[trigger] last[c]).under != Some(node) by {
            assert(node_ok(projects@, goals@, tasks@, ranks@, collapsed@, last, c));
        }
    }
    set_band(projects, goals, tasks, ranks, collapsed, nodes, edges, node, height);
    proof {
        lemma_block_close(last, nodes@, node as int, top as int, y as int);
        lemma_extends_chain(start, last, nodes@, start_edges, edges@, edges@);
        lemma_complete_extends(projects@, goals@, tasks@, last, nodes@, edges@, edges@, node as int);
    }
    height
}

/// Place a project centred at `x` (beneath shape `under`, or as a root), and unless it is
/// collapsed its top-level goals and then its sub-projects, `fuel` levels deep, starting at
/// `top`; return the height used.
fn project_block(
    projects: &[Project],
    goals: &[Goal],
    tasks: &[TaskDetail],
    ranks: &Vec<usize>,
    collapsed: &Vec<String>,
    nodes: &mut Vec<Placed>,
    edges: &mut Vec<Edge>,
    project: usize,
    under: Option<usize>,
    x: u128,
    top: u128,
    fuel: usize,
) -> (height: u128)
    requires
        placed_ok(projects@, goals@, tasks@, ranks@, collapsed@, old(nodes)@, old(edges)@),
        ranks@.len() == tasks@.len(),
        project < projects@.len(),
        match under {
            None => projects@[project as int].parent_id is None && x == 0 && fuel == projects@.len(),
            Some(u) => {
                &&& u < old(nodes)@.len()
                &&& old(nodes)@[u as int].kind == Kind::Project
                &&& !old(nodes)@[u as int].collapsed
                &&& projects@[project as int].parent_id matches Some(pid) && pid@ == old(nodes)@[u as int].id@
                &&& x == old(nodes)@[u as int].x + SUBPROJECT_OFFSET
                &&& fuel + level(old(nodes)@, u as int) + 1 == projects@.len()
            },
        },
        x + SUBPROJECT_OFFSET * fuel + GOAL_OFFSET + SUBGOAL_OFFSET * goals@.len() <= X_LIMIT,
        top <= 512 * old(nodes)@.len(),
        rows_apart(old(nodes)@),
    ensures
        rows_apart(final(nodes)@),
        height + 48 <= 256 * (final(nodes)@.len() - old(nodes)@.len()),
        placed_ok(projects@, goals@, tasks@, ranks@, collapsed@, final(nodes)@, final(edges)@),
        extends(old(nodes)@, final(nodes)@, old(edges)@, final(edges)@),
        old(nodes)@.len() < final(nodes)@.len(),
        final(nodes)@[old(nodes)@.len() as int].kind == Kind::Project,
        final(nodes)@[old(nodes)@.len() as int].source == project,
        final(nodes)@[old(nodes)@.len() as int].under == under,
        final(nodes)@[old(nodes)@.len() as int].top == top,
        final(nodes)@[old(nodes)@.len() as int].height == height,
        forall|i: int| 0 <= i < old(nodes)@.len() ==> #[trigger] final(nodes)@[i] == old(nodes)@[i],
        forall|j: int|
            old(nodes)@.len() < j < final(nodes)@.len() ==> ((#[trigger] final(nodes)@[j]).under matches Some(u)
                && old(nodes)@.len() <= u),
        forall|j: int| old(nodes)@.len() <= j < final(nodes)@.len() ==> #[trigger] band_ok(final(nodes)@, j),
        forall|i: int|
            old(nodes)@.len() <= i < final(nodes)@.len() ==> #[trigger] complete_at(
                projects@,
                goals@,
                tasks@,
                final(nodes)@,
                i,
            ),
    decreases fuel,
{
    let is_collapsed = contains_text(collapsed, projects[project].id.as_str());
    let p = Placed {
        id: projects[project].id.clone(),
        kind: Kind::Project,
        state: State::Open,
        collapsed: is_collapsed,
        x,
        y: top,
        top,
        height: 0,
        title: projects[project].name.clone(),
        under,
        source: project,
    };
    proof {
        assert(node_ok(projects@, goals@, tasks@, ranks@, collapsed@, old(nodes)@.push(p), old(nodes)@.len() as int));
    }
    let ghost start = nodes@;
    let ghost start_edges = edges@;
    let ghost pg = p;
    let node = push_node(projects, goals, tasks, ranks, collapsed, nodes, edges, p, under.is_some());
    proof {
        lemma_rows_push(start, pg);
        if let Some(u) = under {
            lemma_level_extends(start, nodes@, u as int);
        }
        assert(fuel + level(nodes@, node as int) == projects@.len());
        assert(block_open(nodes@, node as int, top as int, top as int));
    }
    let mut y = top;
    if !is_collapsed {
        let mut j: usize = 0;
        while j < goals.len()
            invariant
                placed_ok(projects@, goals@, tasks@, ranks@, collapsed@, nodes@, edges@),
                extends(start, nodes@, start_edges, edges@),
                ranks@.len() == tasks@.len(),
                node == start.len(),
                node < nodes@.len(),
                nodes@[node as int].kind == Kind::Project,
                nodes@[node as int].source == project,
                nodes@[node as int].under == under,
                !nodes@[node as int].collapsed,
                nodes@[node as int].id@ == projects@[project as int].id@,
                nodes@[node as int].x == x,
                fuel + level(nodes@, node as int) == projects@.len(),
                project < projects@.len(),
                x + SUBPROJECT_OFFSET * fuel + GOAL_OFFSET + SUBGOAL_OFFSET * goals@.len() <= X_LIMIT,
                top <= y,
                rows_apart(nodes@),
                top <= 512 * start.len(),
                y - top <= 256 * (nodes@.len() - start.len() - 1),
                block_open(nodes@, node as int, top as int, y as int),
                forall|i: int| 0 <= i < start.len() ==> #[trigger] nodes@[i] == start[i],
                nodes@[node as int].top == top,
                j <= goals@.len(),
                forall|i: int| node < i < nodes@.len() ==> #[trigger] complete_at(projects@, goals@, tasks@, nodes@, i),
                forall|g: int|
                    0 <= g < j && #[trigger] goals@[g].project_id@ == nodes@[node as int].id@ && goals@[g].parent_id
                        is None ==> exists|k: int|
                        0 <= k < nodes@.len() && nodes@[k].kind == Kind::Goal && nodes@[k].source == g
                            && nodes@[k].under == Some(node),
            decreases goals@.len() - j,
        {
            let is_top = goals[j].parent_id.is_none() && same_text(
                goals[j].project_id.as_str(),
                projects[project].id.as_str(),
            );
            if is_top {
                let _len = nodes.len();
                let ghost y0 = y;
                if y > top {
                    y = y + GOAL_GAP;
                }
                let ghost mid = nodes@;
                let ghost mid_edges = edges@;
                let h = goal_block(
                    projects,
                    goals,
                    tasks,
                    ranks,
                    collapsed,
                    nodes,
                    edges,
                    j,
                    node,
                    x + GOAL_OFFSET,
                    y,
                    goals.len(),
                );
                let _n = nodes.len();
                proof {
                    lemma_extends_chain(start, mid, nodes@, start_edges, mid_edges, edges@);
                    lemma_complete_extends(projects@, goals@, tasks@, mid, nodes@, mid_edges, edges@, node + 1);
                    assert(same_but_y(mid[node as int], nodes@[node as int]));
                    lemma_level_extends(mid, nodes@, node as int);
                    lemma_block_child(mid, nodes@, node as int, top as int, y0 as int, y as int);
                    assert forall|i: int| 0 <= i < start.len() implies #[trigger] nodes@[i] == start[i] by {
                        assert(nodes@[i] == mid[i]);
                    }
                    assert(nodes@[node as int] == mid[node as int]);
                    assert forall|g: int|
                        0 <= g < j + 1 && #[trigger] goals@[g].project_id@ == nodes@[node as int].id@
                            && goals@[g].parent_id is None implies exists|k: int|
                            0 <= k < nodes@.len() && nodes@[k].kind == Kind::Goal && nodes@[k].source == g
                                && nodes@[k].under == Some(node) by {
                        if g < j {
                            assert(goals@[g].project_id@ == mid[node as int].id@);
                            let k = choose|k: int|
                                0 <= k < mid.len() && mid[k].kind == Kind::Goal && mid[k].source == g
                                    && mid[k].under == Some(node);
                            assert(same_but_y(mid[k], nodes@[k]));
                        } else {
                            assert(nodes@[mid.len() as int].source == g);
                        }
                    }
                }
                let _len = nodes.len();
                y = y + h;
            }
            j = j + 1;
        }
        let mut k: usize = 0;
        if fuel > 0 {
            while k < projects.len()
                invariant
                    placed_ok(projects@, goals@, tasks@, ranks@, collapsed@, nodes@, edges@),
                    extends(start, nodes@, start_edges, edges@),
                    ranks@.len() == tasks@.len(),
                    node == start.len(),
                    node < nodes@.len(),
                    nodes@[node as int].kind == Kind::Project,
                    nodes@[node as int].source == project,
                    nodes@[node as int].under == under,
                    !nodes@[node as int].collapsed,
                    nodes@[node as int].id@ == projects@[project as int].id@,
                    nodes@[node as int].x == x,
                    fuel + level(nodes@, node as int) == projects@.len(),
                    project < projects@.len(),
                    0 < fuel,
                    x + SUBPROJECT_OFFSET * fuel + GOAL_OFFSET + SUBGOAL_OFFSET * goals@.len() <= X_LIMIT,
                    top <= y,
                    rows_apart(nodes@),
                    top <= 512 * start.len(),
                    y - top <= 256 * (nodes@.len() - start.len() - 1),
                    block_open(nodes@, node as int, top as int, y as int),
                    forall|i: int| 0 <= i < start.len() ==> #[trigger] nodes@[i] == start[i],
                    nodes@[node as int].top == top,
                    k <= projects@.len(),
                    goals_shown(goals@, nodes@, node as int),
                    forall|i: int| node < i < nodes@.len() ==> #[trigger] complete_at(projects@, goals@, tasks@, nodes@, i),
                    forall|q: int|
                        0 <= q < k && ((#[trigger] projects@[q]).parent_id matches Some(pid) && pid@
                            == nodes@[node as int].id@) ==> exists|w: int|
                            0 <= w < nodes@.len() && nodes@[w].kind == Kind::Project && nodes@[w].source == q
                                && nodes@[w].under == Some(node),
                decreases projects@.len() - k,
            {
                let is_child = match &projects[k].parent_id {
                    Some(pid) => same_text(pid.as_str(), projects[project].id.as_str()),
                    None => false,
                };
                if is_child {
                    let _len = nodes.len();
                    let ghost y0 = y;
                    if y > top {
                        y = y + GOAL_GAP;
                    }
                    let ghost mid = nodes@;
                    let ghost mid_edges = edges@;
                    let h = project_block(
                        projects,
                        goals,
                        tasks,
                        ranks,
                        collapsed,
                        nodes,
                        edges,
                        k,
                        Some(node),
                        x + SUBPROJECT_OFFSET,
                        y,
                        fuel - 1,
                    );
                    let _n = nodes.len();
                    proof {
                        lemma_extends_chain(start, mid, nodes@, start_edges, mid_edges, edges@);
                        lemma_complete_extends(projects@, goals@, tasks@, mid, nodes@, mid_edges, edges@, node + 1);
                        assert(same_but_y(mid[node as int], nodes@[node as int]));
                        lemma_level_extends(mid, nodes@, node as int);
                        lemma_block_child(mid, nodes@, node as int, top as int, y0 as int, y as int);
                        assert forall|i: int| 0 <= i < start.len() implies #[trigger] nodes@[i] == start[i] by {
                            assert(nodes@[i] == mid[i]);
                        }
                        assert(nodes@[node as int] == mid[node as int]);
                        assert forall|g: int|
                            0 <= g < goals@.len() && #[trigger] goals@[g].project_id@ == nodes@[node as int].id@
                                && goals@[g].parent_id is None implies exists|w: int|
                                0 <= w < nodes@.len() && nodes@[w].kind == Kind::Goal && nodes@[w].source == g
                                    && nodes@[w].under == Some(node) by {
                            assert(goals@[g].project_id@ == mid[node as int].id@);
                            let w = choose|w: int|
                                0 <= w < mid.len() && mid[w].kind == Kind::Goal && mid[w].source == g
                                    && mid[w].under == Some(node);
                            assert(same_but_y(mid[w], nodes@[w]));
                        }
                        assert forall|q: int|
                            0 <= q < k + 1 && ((#[trigger] projects@[q]).parent_id matches Some(pid) && pid@
                                == nodes@[node as int].id@) implies exists|w: int|
                                0 <= w < nodes@.len() && nodes@[w].kind == Kind::Project && nodes@[w].source == q
                                    && nodes@[w].under == Some(node) by {
                            if q < k {
                                let w = choose|w: int|
                                    0 <= w < mid.len() && mid[w].kind == Kind::Project && mid[w].source == q
                                        && mid[w].under == Some(node);
                                assert(same_but_y(mid[w], nodes@[w]));
                            } else {
                                assert(nodes@[mid.len() as int].source == q);
                            }
                        }
                    }
                    let _len = nodes.len();
                y = y + h;
                }
                k = k + 1;
            }
        }
        proof {
            assert(complete_at(projects@, goals@, tasks@, nodes@, node as int));
        }
    }
    let used = y - top;
    let height = if used > 2 * PROJECT_HH {
        used
    } else {
        2 * PROJECT_HH
    };
    let ghost last = nodes@;
    let _len = nodes.len();
    proof {
        assert forall|c: int| 0 <= c < node implies (#[trigger] last[c]).under != Some(node) by {
            assert(node_ok(projects@, goals@, tasks@, ranks@, collapsed@, last, c));
        }
    }
    set_band(projects, goals, tasks, ranks, collapsed, nodes, edges, node, height);
    proof {
        lemma_block_close(last, nodes@, node as int, top as int, y as int);
        lemma_extends_chain(start, last, nodes@, start_edges, edges@, edges@);
        lemma_complete_extends(projects@, goals@, tasks@, last, nodes@, edges@, edges@, node as int);
    }
    height
}

/// The last of the first `k` shapes that shows a task with this ID.
pub open spec fn shown_task(nodes: Seq<Placed>, id: Seq<char>, k: int) -> Option<int>
    decreases k,
{
    if k <= 0 {
        None
    } else if nodes[k - 1].kind == Kind::Task && nodes[k - 1].id@ == id {
        Some(k - 1)
    } else {
        shown_task(nodes, id, k - 1)
    }
}

/// When both the task `t` and its `m`-th prerequisite are shown, a dependency edge joins
/// the prerequisite's shape to the task's.
pub open spec fn dependency_drawn(tasks: Seq<TaskDetail>, nodes: Seq<Placed>, edges: Seq<Edge>, t: int, m: int) -> bool {
    match (
        shown_task(nodes, tasks[t].task.id@, nodes.len() as int),
        shown_task(nodes, tasks[t].depends_on@[m]@, nodes.len() as int),
    ) {
        (Some(to), Some(from)) => exists|k: int|
            0 <= k < edges.len() && #[trigger] edges[k] == (Edge {
                from: from as usize,
                to: to as usize,
                dependency: true,
            }),
        _ => true,
    }
}

/// The position of the last shape that shows a task with this ID.
fn find_shown(nodes: &Vec<Placed>, id: &str) -> (r: Option<usize>)
    ensures
        r matches Some(j) ==> j < nodes@.len() && nodes@[j as int].kind == Kind::Task && nodes@[j as int].id@
            == id@ && shown_task(nodes@, id@, nodes@.len() as int) == Some(j as int),
        r is None ==> shown_task(nodes@, id@, nodes@.len() as int) is None,
{
    let mut i: usize = nodes.len();
    while i > 0
        invariant
            i <= nodes@.len(),
            shown_task(nodes@, id@, nodes@.len() as int) == shown_task(nodes@, id@, i as int),
        decreases i,
    {
        if nodes[i - 1].kind == Kind::Task && same_text(nodes[i - 1].id.as_str(), id) {
            return Some(i - 1);
        }
        i = i - 1;
    }
    None
}

/// Join every shown task to each of its shown prerequisites.
fn dependencies(
    projects: &[Project],
    goals: &[Goal],
    tasks: &[TaskDetail],
    ranks: &Vec<usize>,
    collapsed: &Vec<String>,
    nodes: &Vec<Placed>,
    edges: &mut Vec<Edge>,
)
    requires
        placed_ok(projects@, goals@, tasks@, ranks@, collapsed@, nodes@, old(edges)@),
    ensures
        placed_ok(projects@, goals@, tasks@, ranks@, collapsed@, nodes@, final(edges)@),
        extends(nodes@, nodes@, old(edges)@, final(edges)@),
        forall|t: int, m: int|
            0 <= t < tasks@.len() && 0 <= m < tasks@[t].depends_on@.len() ==> #[trigger] dependency_drawn(
                tasks@,
                nodes@,
                final(edges)@,
                t,
                m,
            ),
{
    let ghost start_edges = edges@;
    let mut t: usize = 0;
    while t < tasks.len()
        invariant
            placed_ok(projects@, goals@, tasks@, ranks@, collapsed@, nodes@, edges@),
            extends(nodes@, nodes@, start_edges, edges@),
            t <= tasks@.len(),
            forall|u: int, m: int|
                0 <= u < t && 0 <= m < tasks@[u].depends_on@.len() ==> #[trigger] dependency_drawn(
                    tasks@,
                    nodes@,
                    edges@,
                    u,
                    m,
                ),
        decreases tasks@.len() - t,
    {
        match find_shown(nodes, tasks[t].task.id.as_str()) {
            Some(to) => {
                let deps = &tasks[t].depends_on;
                let mut m: usize = 0;
                while m < deps.len()
                    invariant
                        placed_ok(projects@, goals@, tasks@, ranks@, collapsed@, nodes@, edges@),
                        extends(nodes@, nodes@, start_edges, edges@),
                        t < tasks@.len(),
                        deps@ == tasks@[t as int].depends_on@,
                        m <= deps@.len(),
                        to < nodes@.len(),
                        nodes@[to as int].kind == Kind::Task,
                        nodes@[to as int].id@ == tasks@[t as int].task.id@,
                        shown_task(nodes@, tasks@[t as int].task.id@, nodes@.len() as int) == Some(to as int),
                        forall|u: int, n: int|
                            0 <= u < t && 0 <= n < tasks@[u].depends_on@.len() ==> #[trigger] dependency_drawn(
                                tasks@,
                                nodes@,
                                edges@,
                                u,
                                n,
                            ),
                        forall|n: int| 0 <= n < m ==> #[trigger] dependency_drawn(tasks@, nodes@, edges@, t as int, n),
                    decreases deps@.len() - m,
                {
                    match find_shown(nodes, deps[m].as_str()) {
                        Some(from) => {
                            let ghost before = edges@;
                            edges.push(Edge { from, to, dependency: true });
                            proof {
                                assert(extends(nodes@, nodes@, before, edges@));
                                lemma_extends(projects@, goals@, tasks@, ranks@, collapsed@, nodes@, nodes@, before, edges@);
                                let k = edges@.len() - 1;
                                assert(depends_pair(tasks@, nodes@[to as int].id@, nodes@[from as int].id@)) by {
                                    assert(tasks@[t as int].depends_on@[m as int]@ == nodes@[from as int].id@);
                                }
                                assert(edge_ok(tasks@, nodes@, edges@[k]));
                                assert forall|i: int| 0 <= i < nodes@.len() implies #[trigger] joined(tasks@, nodes@, edges@, i) by {
                                }
                                assert forall|j: int| 0 <= j < edges@.len() implies #[trigger] edge_ok(tasks@, nodes@, edges@[j]) by {
                                    if j < before.len() {
                                    }
                                }
                                assert forall|u: int, n: int|
                                    0 <= u < t && 0 <= n < tasks@[u].depends_on@.len() implies #[trigger] dependency_drawn(
                                        tasks@,
                                        nodes@,
                                        edges@,
                                        u,
                                        n,
                                    ) by {
                                    assert(dependency_drawn(tasks@, nodes@, before, u, n));
                                    if let (Some(a), Some(b)) = (
                                        shown_task(nodes@, tasks@[u].task.id@, nodes@.len() as int),
                                        shown_task(nodes@, tasks@[u].depends_on@[n]@, nodes@.len() as int),
                                    ) {
                                        let w = choose|w: int|
                                            0 <= w < before.len() && #[trigger] before[w] == (Edge {
                                                from: b as usize,
                                                to: a as usize,
                                                dependency: true,
                                            });
                                        assert(edges@[w] == before[w]);
                                    }
                                }
                                assert forall|n: int| 0 <= n < m + 1 implies #[trigger] dependency_drawn(
                                    tasks@,
                                    nodes@,
                                    edges@,
                                    t as int,
                                    n,
                                ) by {
                                    if n < m {
                                        assert(dependency_drawn(tasks@, nodes@, before, t as int, n));
                                        if let (Some(a), Some(b)) = (
                                            shown_task(nodes@, tasks@[t as int].task.id@, nodes@.len() as int),
                                            shown_task(nodes@, tasks@[t as int].depends_on@[n]@, nodes@.len() as int),
                                        ) {
                                            let w = choose|w: int|
                                                0 <= w < before.len() && #[trigger] before[w] == (Edge {
                                                    from: b as usize,
                                                    to: a as usize,
                                                    dependency: true,
                                                });
                                            assert(edges@[w] == before[w]);
                                        }
                                    } else {
                                        assert(edges@[k] == Edge { from, to, dependency: true });
                                    }
                                }
                            }
                        },
                        None => {},
                    }
                    m = m + 1;
                }
            },
            None => {},
        }
        t = t + 1;
    }
}

/// The left edge of a shape.
pub open spec fn left(n: Placed) -> int {
    n.x - half_width(n.kind)
}

/// The right edge of a shape.
pub open spec fn right(n: Placed) -> int {
    n.x + half_width(n.kind)
}

/// The top edge of a shape, or 0 above that.
pub open spec fn upper(n: Placed) -> int {
    if n.y >= half_height(n.kind) {
        n.y - half_height(n.kind)
    } else {
        0
    }
}

/// The bottom edge of a shape, or the largest height below that.
pub open spec fn lower(n: Placed) -> int {
    if n.y + half_height(n.kind) <= u128::MAX {
        n.y + half_height(n.kind)
    } else {
        u128::MAX as int
    }
}

/// `b` is the smallest rectangle that holds every shape; all zero when there is none.
pub open spec fn bounds_of(nodes: Seq<Placed>, b: Bounds) -> bool {
    if nodes.len() == 0 {
        b == Bounds { x: 0, y: 0, w: 0, h: 0 }
    } else {
        &&& forall|i: int|
            0 <= i < nodes.len() ==> b.x <= left(#[trigger] nodes[i]) && right(nodes[i]) <= b.x + b.w && b.y
                <= upper(nodes[i]) && lower(nodes[i]) <= b.y + b.h
        &&& exists|i: int| 0 <= i < nodes.len() && b.x == left(#[trigger] nodes[i])
        &&& exists|i: int| 0 <= i < nodes.len() && b.x + b.w == right(#[trigger] nodes[i])
        &&& exists|i: int| 0 <= i < nodes.len() && b.y == upper(#[trigger] nodes[i])
        &&& exists|i: int| 0 <= i < nodes.len() && b.y + b.h == lower(#[trigger] nodes[i])
    }
}

/// Half extents of a shape of this kind.
pub fn extents(kind: Kind) -> (r: (u128, u128))
    ensures
        r.0 == half_width(kind),
        r.1 == half_height(kind),
{
    match kind {
        Kind::Project => (PROJECT_HW, PROJECT_HH),
        Kind::Goal => (GOAL_HW, GOAL_HH),
        Kind::Task => (TASK_R, TASK_R),
    }
}

/// The smallest rectangle that holds every shape.
fn bounds(nodes: &Vec<Placed>) -> (b: Bounds)
    requires
        forall|i: int| 0 <= i < nodes@.len() ==> (#[trigger] nodes@[i]).x <= X_CAP,
    ensures
        bounds_of(nodes@, b),
{
    if nodes.len() == 0 {
        return Bounds { x: 0, y: 0, w: 0, h: 0 };
    }
    let (hw, hh) = extents(nodes[0].kind);
    let mut min_x: i128 = nodes[0].x as i128 - hw as i128;
    let mut max_x: i128 = nodes[0].x as i128 + hw as i128;
    let mut min_y: u128 = nodes[0].y.saturating_sub(hh);
    let mut max_y: u128 = nodes[0].y.saturating_add(hh);
    let ghost mut a: int = 0;
    let ghost mut b: int = 0;
    let ghost mut c: int = 0;
    let ghost mut d: int = 0;
    let mut i: usize = 1;
    while i < nodes.len()
        invariant
            forall|k: int| 0 <= k < nodes@.len() ==> (#[trigger] nodes@[k]).x <= X_CAP,
            1 <= i <= nodes@.len(),
            forall|k: int|
                0 <= k < i ==> min_x <= left(#[trigger] nodes@[k]) && right(nodes@[k]) <= max_x && min_y <= upper(
                    nodes@[k],
                ) && lower(nodes@[k]) <= max_y,
            0 <= a < i && min_x == left(nodes@[a]),
            0 <= b < i && max_x == right(nodes@[b]),
            0 <= c < i && min_y == upper(nodes@[c]),
            0 <= d < i && max_y == lower(nodes@[d]),
        decreases nodes@.len() - i,
    {
        let (hw, hh) = extents(nodes[i].kind);
        let l = nodes[i].x as i128 - hw as i128;
        let r = nodes[i].x as i128 + hw as i128;
        let u = nodes[i].y.saturating_sub(hh);
        let w = nodes[i].y.saturating_add(hh);
        if l < min_x {
            min_x = l;
            proof {
                a = i as int;
            }
        }
        if r > max_x {
            max_x = r;
            proof {
                b = i as int;
            }
        }
        if u < min_y {
            min_y = u;
            proof {
                c = i as int;
            }
        }
        if w > max_y {
            max_y = w;
            proof {
                d = i as int;
            }
        }
        i = i + 1;
    }
    proof {
        assert(min_x <= left(nodes@[b]) && left(nodes@[b]) < right(nodes@[b]));
        assert(min_y <= upper(nodes@[d]) && upper(nodes@[d]) <= lower(nodes@[d]));
    }
    let out = Bounds { x: min_x, y: min_y, w: (max_x - min_x) as u128, h: max_y - min_y };
    out
}

/// Shape `j` is a root project's.
pub open spec fn root_shape(nodes: Seq<Placed>, j: int) -> bool {
    nodes[j].under is None
}

/// Every band is closed, and the root projects' blocks stack down from 0 in the order
/// placed, a gap apart, the next one to start at `y`.
#[verifier::opaque]
spec fn roots_ok(nodes: Seq<Placed>, y: int) -> bool {
    &&& forall|i: int| 0 <= i < nodes.len() ==> #[trigger] band_ok(nodes, i)
    &&& forall|i: int|
        0 <= i < nodes.len() && (#[trigger] nodes[i]).under is None ==> band_end(nodes[i]) + PROJECT_GAP <= y
    &&& y == 0 || exists|i: int|
        0 <= i < nodes.len() && (#[trigger] nodes[i]).under is None && y == band_end(nodes[i]) + PROJECT_GAP
    &&& forall|i: int, j: int|
        #![trigger nodes[i], nodes[j]]
        0 <= i < j < nodes.len() && nodes[i].under is None && nodes[j].under is None ==> band_end(nodes[i])
            + PROJECT_GAP <= nodes[j].top
    &&& forall|j: int|
        0 <= j < nodes.len() && #[trigger] root_shape(nodes, j) ==> nodes[j].top == 0 || exists|i: int|
            0 <= i < j && (#[trigger] nodes[i]).under is None && nodes[j].top == band_end(nodes[i]) + PROJECT_GAP
}

/// What a root project's block placed from `y` adds after `before`: it comes first, closed,
/// and everything else it adds lies beneath it.
#[verifier::opaque]
spec fn root_added(before: Seq<Placed>, after: Seq<Placed>, y: int, h: int) -> bool {
    &&& before.len() < after.len() <= usize::MAX
    &&& forall|k: int| 0 <= k < before.len() ==> #[trigger] after[k] == before[k]
    &&& after[before.len() as int].under is None
    &&& after[before.len() as int].top == y
    &&& after[before.len() as int].height == h
    &&& forall|k: int|
        before.len() < k < after.len() ==> ((#[trigger] after[k]).under matches Some(u) && before.len() <= u)
    &&& forall|k: int| before.len() <= k < after.len() ==> #[trigger] band_ok(after, k)
}

/// The bands stay closed.
proof fn lemma_root_bands(before: Seq<Placed>, after: Seq<Placed>, y: int, h: int)
    requires
        root_added(before, after, y, h),
        forall|i: int| 0 <= i < before.len() ==> #[trigger] band_ok(before, i),
    ensures
        forall|i: int| 0 <= i < after.len() ==> #[trigger] band_ok(after, i),
{
    reveal(root_added);
    let mid = before.len() as int;
    assert forall|i: int| 0 <= i < after.len() implies #[trigger] band_ok(after, i) by {
        if i < mid {
            assert(band_ok(before, i));
            assert forall|q: int| mid <= q < after.len() implies (#[trigger] after[q]).under != Some(i as usize) by {
                if q > mid {
                    assert(after[q].under matches Some(u) && mid <= u);
                }
            }
            lemma_band_extends(before, after, i);
        }
    }
}

/// The roots stay stacked.
proof fn lemma_root_order(before: Seq<Placed>, after: Seq<Placed>, y: int, h: int)
    requires
        root_added(before, after, y, h),
        forall|i: int|
            0 <= i < before.len() && (#[trigger] before[i]).under is None ==> band_end(before[i]) + PROJECT_GAP <= y,
        forall|i: int, j: int|
            #![trigger before[i], before[j]]
            0 <= i < j < before.len() && before[i].under is None && before[j].under is None ==> band_end(before[i])
                + PROJECT_GAP <= before[j].top,
    ensures
        forall|i: int|
            0 <= i < after.len() && (#[trigger] after[i]).under is None ==> band_end(after[i]) + PROJECT_GAP <= y + h
                + PROJECT_GAP,
        forall|i: int, j: int|
            #![trigger after[i], after[j]]
            0 <= i < j < after.len() && after[i].under is None && after[j].under is None ==> band_end(after[i])
                + PROJECT_GAP <= after[j].top,
{
    reveal(root_added);
    let mid = before.len() as int;
    assert forall|i: int|
        0 <= i < after.len() && (#[trigger] after[i]).under is None implies band_end(after[i]) + PROJECT_GAP <= y + h
            + PROJECT_GAP by {
        if i < mid {
            assert(after[i] == before[i]);
        } else if i > mid {
            assert(after[i].under matches Some(u) && mid <= u);
        }
    }
    assert forall|i: int, j: int|
        #![trigger after[i], after[j]]
        0 <= i < j < after.len() && after[i].under is None && after[j].under is None implies band_end(after[i])
            + PROJECT_GAP <= after[j].top by {
        if j < mid {
            assert(after[i] == before[i] && after[j] == before[j]);
        } else if j == mid {
            assert(after[i] == before[i]);
        } else {
            assert(after[j].under matches Some(u) && mid <= u);
        }
    }
}

/// Each root starts at 0 or a gap below an earlier root.
proof fn lemma_root_starts(before: Seq<Placed>, after: Seq<Placed>, y: int, h: int)
    requires
        root_added(before, after, y, h),
        y == 0 || exists|i: int|
            0 <= i < before.len() && (#[trigger] before[i]).under is None && y == band_end(before[i]) + PROJECT_GAP,
        forall|j: int|
            0 <= j < before.len() && #[trigger] root_shape(before, j) ==> before[j].top == 0 || exists|i: int|
                0 <= i < j && (#[trigger] before[i]).under is None && before[j].top == band_end(before[i])
                    + PROJECT_GAP,
    ensures
        forall|j: int|
            0 <= j < after.len() && #[trigger] root_shape(after, j) ==> after[j].top == 0 || exists|i: int|
                0 <= i < j && (#[trigger] after[i]).under is None && after[j].top == band_end(after[i]) + PROJECT_GAP,
        exists|i: int|
            0 <= i < after.len() && (#[trigger] after[i]).under is None && y + h + PROJECT_GAP == band_end(after[i])
                + PROJECT_GAP,
{
    reveal(root_added);
    let mid = before.len() as int;
    assert forall|j: int|
        0 <= j < after.len() && #[trigger] root_shape(after, j) implies after[j].top == 0 || exists|i: int|
            0 <= i < j && (#[trigger] after[i]).under is None && after[j].top == band_end(after[i]) + PROJECT_GAP by {
        if j < mid {
            assert(after[j] == before[j]);
            assert(root_shape(before, j));
            if after[j].top != 0 {
                let i = choose|i: int|
                    0 <= i < j && (#[trigger] before[i]).under is None && before[j].top == band_end(before[i])
                        + PROJECT_GAP;
                assert(after[i] == before[i]);
            }
        } else if j == mid {
            if y != 0 {
                let i = choose|i: int|
                    0 <= i < before.len() && (#[trigger] before[i]).under is None && y == band_end(before[i])
                        + PROJECT_GAP;
                assert(after[i] == before[i]);
            }
        } else {
            assert(after[j].under matches Some(u) && mid <= u);
        }
    }
    assert(after[mid].under is None && band_end(after[mid]) == y + h);
}

/// A root project's block placed from `y` keeps the roots stacked.
proof fn lemma_root_block(before: Seq<Placed>, after: Seq<Placed>, y: int, h: int)
    requires
        roots_ok(before, y),
        root_added(before, after, y, h),
    ensures
        roots_ok(after, y + h + PROJECT_GAP),
{
    reveal(roots_ok);
    lemma_root_bands(before, after, y, h);
    lemma_root_order(before, after, y, h);
    lemma_root_starts(before, after, y, h);
}

/// `rk` is the dependency rank of each task, as `ui::ranks` gives them.
pub open spec fn is_rank_list(tasks: Seq<TaskDetail>, rk: Seq<usize>) -> bool {
    &&& rk.len() == tasks.len()
    &&& forall|k: int| 0 <= k < rk.len() ==> #[trigger] rk[k] == rank_at(tasks, rk, k)
}

/// Lay out every shown project, goal and task: the root projects in the order given, each
/// followed by its top-level goals (each with its tasks and then its sub-goals) and then
/// its sub-projects, everything beneath a collapsed shape left out; then the dependency
/// edges between shown tasks, and the rectangle that holds every shape. Tasks should come
/// in dependency order, prerequisites first, for their ranks to count whole chains.
pub fn plan(projects: &[Project], goals: &[Goal], tasks: &[TaskDetail], collapsed: &Vec<String>) -> (r: Plan)
    ensures
        exists|rk: Seq<usize>|
            #[trigger] is_rank_list(tasks@, rk) && placed_ok(projects@, goals@, tasks@, rk, collapsed@, r.nodes@, r.edges@),
        forall|k: int|
            0 <= k < projects@.len() && (#[trigger] projects@[k]).parent_id is None ==> exists|j: int|
                0 <= j < r.nodes@.len() && r.nodes@[j].kind == Kind::Project && r.nodes@[j].source == k
                    && r.nodes@[j].under is None,
        forall|i: int| 0 <= i < r.nodes@.len() ==> #[trigger] complete_at(projects@, goals@, tasks@, r.nodes@, i),
        forall|t: int, m: int|
            0 <= t < tasks@.len() && 0 <= m < tasks@[t].depends_on@.len() ==> #[trigger] dependency_drawn(
                tasks@,
                r.nodes@,
                r.edges@,
                t,
                m,
            ),
        forall|k: int|
            0 <= k < r.edges@.len() && !(#[trigger] r.edges@[k]).dependency ==> r.nodes@[r.edges@[k].from as int].x
                < r.nodes@[r.edges@[k].to as int].x,
        rows_apart(r.nodes@),
        forall|i: int| 0 <= i < r.nodes@.len() ==> #[trigger] band_ok(r.nodes@, i),
        forall|i: int, j: int|
            #![trigger r.nodes@[i], r.nodes@[j]]
            0 <= i < j < r.nodes@.len() && r.nodes@[i].under is None && r.nodes@[j].under is None ==> band_end(
                r.nodes@[i],
            ) + PROJECT_GAP <= r.nodes@[j].top,
        forall|j: int|
            0 <= j < r.nodes@.len() && #[trigger] root_shape(r.nodes@, j) ==> r.nodes@[j].top == 0 || exists|i: int|
                0 <= i < j && (#[trigger] r.nodes@[i]).under is None && r.nodes@[j].top == band_end(r.nodes@[i])
                    + PROJECT_GAP,
        bounds_of(r.nodes@, r.bounds),
{
    let rk = ranks(tasks);
    let mut nodes: Vec<Placed> = Vec::new();
    let mut edges: Vec<Edge> = Vec::new();
    let mut y: u128 = 0;
    let mut k: usize = 0;
    proof {
        reveal(roots_ok);
    }
    while k < projects.len()
        invariant
            placed_ok(projects@, goals@, tasks@, rk@, collapsed@, nodes@, edges@),
            rk@.len() == tasks@.len(),
            y <= 512 * nodes@.len(),
            rows_apart(nodes@),
            roots_ok(nodes@, y as int),
            k <= projects@.len(),
            forall|i: int| 0 <= i < nodes@.len() ==> #[trigger] complete_at(projects@, goals@, tasks@, nodes@, i),
            forall|q: int|
                0 <= q < k && (#[trigger] projects@[q]).parent_id is None ==> exists|j: int|
                    0 <= j < nodes@.len() && nodes@[j].kind == Kind::Project && nodes@[j].source == q
                        && nodes@[j].under is None,
        decreases projects@.len() - k,
    {
        if projects[k].parent_id.is_none() {
            let ghost before = nodes@;
            let ghost before_edges = edges@;
            let np = projects.len();
            let ng = goals.len();
            proof {
                assert(np <= 0xffff_ffff_ffff_ffff && ng <= 0xffff_ffff_ffff_ffff);
            }
            let h = project_block(
                projects,
                goals,
                tasks,
                &rk,
                collapsed,
                &mut nodes,
                &mut edges,
                k,
                None,
                0,
                y,
                projects.len(),
            );
            let _n = nodes.len();
            proof {
                assert(root_added(before, nodes@, y as int, h as int)) by {
                    reveal(root_added);
                }
                lemma_root_block(before, nodes@, y as int, h as int);
                lemma_complete_extends(projects@, goals@, tasks@, before, nodes@, before_edges, edges@, 0);
                assert forall|q: int|
                    0 <= q < k + 1 && (#[trigger] projects@[q]).parent_id is None implies exists|j: int|
                        0 <= j < nodes@.len() && nodes@[j].kind == Kind::Project && nodes@[j].source == q
                            && nodes@[j].under is None by {
                    if q < k {
                        let j = choose|j: int|
                            0 <= j < before.len() && before[j].kind == Kind::Project && before[j].source == q
                                && before[j].under is None;
                        assert(same_but_y(before[j], nodes@[j]));
                    } else {
                        assert(nodes@[before.len() as int].source == q);
                    }
                }
            }
            let _len = nodes.len();
            y = y + h + PROJECT_GAP;
        }
        k = k + 1;
    }
    proof {
        reveal(roots_ok);
    }
    let ghost placed = edges@;
    dependencies(projects, goals, tasks, &rk, collapsed, &nodes, &mut edges);
    proof {
        assert(is_rank_list(tasks@, rk@));
        assert forall|e: int|
            0 <= e < edges@.len() && !(#[trigger] edges@[e]).dependency implies nodes@[edges@[e].from as int].x
                < nodes@[edges@[e].to as int].x by {
            assert(edge_ok(tasks@, nodes@, edges@[e]));
            assert(node_ok(projects@, goals@, tasks@, rk@, collapsed@, nodes@, edges@[e].to as int));
        }
        assert forall|i: int| 0 <= i < nodes@.len() implies (#[trigger] nodes@[i]).x <= X_CAP by {
            assert(node_ok(projects@, goals@, tasks@, rk@, collapsed@, nodes@, i));
        }
    }
    let b = bounds(&nodes);
    Plan { nodes, edges, bounds: b }
}

/// How far apart two coordinates are.
pub open spec fn apart(a: int, b: int) -> int {
    if a >= b {
        a - b
    } else {
        b - a
    }
}

/// The point lies inside the shape: a project's diamond, a goal's rectangle, a task's
/// circle, edges included.
pub open spec fn inside(n: Placed, px: int, py: int) -> bool {
    let dx = apart(px, n.x as int);
    let dy = apart(py, n.y as int);
    match n.kind {
        Kind::Project => dx * PROJECT_HH + dy * PROJECT_HW <= PROJECT_HW * PROJECT_HH,
        Kind::Goal => dx <= GOAL_HW && dy <= GOAL_HH,
        Kind::Task => dx * dx + dy * dy <= TASK_R * TASK_R,
    }
}

impl Placed {
    /// Whether a point in world units lies inside the shape.
    pub fn contains(&self, px: u128, py: u128) -> (r: bool)
        ensures
            r == inside(*self, px as int, py as int),
    {
        let dx = if px >= self.x {
            px - self.x
        } else {
            self.x - px
        };
        let dy = if py >= self.y {
            py - self.y
        } else {
            self.y - py
        };
        match self.kind {
            Kind::Project => {
                if dx > PROJECT_HW || dy > PROJECT_HH {
                    false
                } else {
                    dx * PROJECT_HH + dy * PROJECT_HW <= PROJECT_HW * PROJECT_HH
                }
            },
            Kind::Goal => dx <= GOAL_HW && dy <= GOAL_HH,
            Kind::Task => {
                if dx > TASK_R || dy > TASK_R {
                    proof {
                        assert(dx > 64 ==> dx * dx > 4096) by (nonlinear_arith);
                        assert(dy > 64 ==> dy * dy > 4096) by (nonlinear_arith);
                        assert(dx * dx >= 0 && dy * dy >= 0) by (nonlinear_arith);
                    }
                    false
                } else {
                    proof {
                        assert(dx <= 64 && dy <= 64 ==> dx * dx <= 4096 && dy * dy <= 4096) by (nonlinear_arith);
                    }
                    dx * dx + dy * dy <= TASK_R * TASK_R
                }
            },
        }
    }
}

/// Shape `a` lies above shape `i`: it is `i`'s parent, or above the parent.
pub open spec fn beneath(nodes: Seq<Placed>, i: int, a: int) -> bool
    decreases i,
{
    if 0 <= i < nodes.len() {
        match nodes[i].under {
            Some(u) => 0 <= u < i && (u == a || beneath(nodes, u as int, a)),
            None => false,
        }
    } else {
        false
    }
}

/// Collapsing hides everything beneath: no shape of a layout lies beneath a collapsed
/// shape.
pub proof fn lemma_nothing_shown_beneath_collapsed(
    projects: Seq<Project>,
    goals: Seq<Goal>,
    tasks: Seq<TaskDetail>,
    rk: Seq<usize>,
    collapsed: Seq<String>,
    nodes: Seq<Placed>,
    edges: Seq<Edge>,
    i: int,
    a: int,
)
    requires
        placed_ok(projects, goals, tasks, rk, collapsed, nodes, edges),
        0 <= i < nodes.len(),
        beneath(nodes, i, a),
    ensures
        0 <= a < i,
        !nodes[a].collapsed,
    decreases i,
{
    assert(node_ok(projects, goals, tasks, rk, collapsed, nodes, i));
    let u = nodes[i].under->0 as int;
    if u != a {
        lemma_nothing_shown_beneath_collapsed(projects, goals, tasks, rk, collapsed, nodes, edges, u, a);
    }
}

} // verus!
