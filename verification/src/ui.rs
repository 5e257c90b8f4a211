//! The parts of the graph viewer's layout that involve no geometry: the state each shape is
//! filled by, what starts collapsed, and the dependency rank that places tasks in columns.

use crate::store::{texts, TaskDetail};
use crate::text::{concat3, same_text};
use crate::{Goal, GoalStatus, Project, TaskStatus};
use vstd::prelude::*;

verus! {

/// Where a goal or task is in its life, merged into one vocabulary so the same meaning
/// always gets the same fill. Projects have no lifecycle and count as `Open`.
#[derive(Debug, Clone, Copy, PartialEq, Eq, Structural)]
pub enum State {
    /// Not started and free to pick up.
    Open,
    /// Not started because a prerequisite is unfinished.
    Blocked,
    InWork,
    Validating,
    AwaitingMerge,
    Finished,
    Abandoned,
}

/// The state a goal status shows as.
pub open spec fn goal_state(status: GoalStatus) -> State {
    match status {
        GoalStatus::Draft => State::Open,
        GoalStatus::Active => State::InWork,
        GoalStatus::Complete => State::Finished,
        GoalStatus::Cancelled => State::Abandoned,
    }
}

impl From<GoalStatus> for State {
    fn from(status: GoalStatus) -> (r: Self) {
        match status {
            GoalStatus::Draft => State::Open,
            GoalStatus::Active => State::InWork,
            GoalStatus::Complete => State::Finished,
            GoalStatus::Cancelled => State::Abandoned,
        }
    }
}

impl vstd::std_specs::convert::FromSpecImpl<GoalStatus> for State {
    open spec fn obeys_from_spec() -> bool {
        true
    }

    open spec fn from_spec(status: GoalStatus) -> State {
        goal_state(status)
    }
}

/// The state a task shows as: todo splits into open when ready and blocked otherwise.
pub open spec fn task_state(status: TaskStatus, ready: bool) -> State {
    match status {
        TaskStatus::Todo => if ready {
            State::Open
        } else {
            State::Blocked
        },
        TaskStatus::InProgress => State::InWork,
        TaskStatus::Testing => State::Validating,
        TaskStatus::ReadyForMerge => State::AwaitingMerge,
        TaskStatus::Done => State::Finished,
        TaskStatus::Cancelled => State::Abandoned,
    }
}

impl State {
    /// A task's state, splitting todo into ready and blocked.
    pub fn of_task(task: &TaskDetail) -> (r: Self)
        ensures
            r == task_state(task.task.status, task.ready),
    {
        match task.task.status {
            TaskStatus::Todo => if task.ready {
                State::Open
            } else {
                State::Blocked
            },
            TaskStatus::InProgress => State::InWork,
            TaskStatus::Testing => State::Validating,
            TaskStatus::ReadyForMerge => State::AwaitingMerge,
            TaskStatus::Done => State::Finished,
            TaskStatus::Cancelled => State::Abandoned,
        }
    }
}

/// The goal belongs to the project.
pub open spec fn owns_goal(p: Project, g: Goal) -> bool {
    g.project_id@ == p.id@
}

/// The project sits directly inside `p`.
pub open spec fn child_of(p: Project, c: Project) -> bool {
    c.parent_id matches Some(id) && id@ == p.id@
}

/// A project with something beneath it, all of it complete: its own goals and,
/// recursively, its sub-projects, looking at most `depth` levels further down. A hierarchy
/// deeper than that counts as unfinished.
pub open spec fn finished(p: Project, projects: Seq<Project>, goals: Seq<Goal>, depth: nat) -> bool
    decreases depth,
{
    &&& (exists|i: int| 0 <= i < goals.len() && owns_goal(p, #[trigger] goals[i])) || (exists|j: int|
        0 <= j < projects.len() && child_of(p, #[trigger] projects[j]))
    &&& forall|i: int| 0 <= i < goals.len() && owns_goal(p, #[trigger] goals[i]) ==> goals[i].status
        == GoalStatus::Complete
    &&& forall|j: int|
        0 <= j < projects.len() && child_of(p, #[trigger] projects[j]) ==> depth > 0 && finished(
            projects[j],
            projects,
            goals,
            (depth - 1) as nat,
        )
}

/// `finished`, looking at most `depth` levels further down.
fn finished_within(project: &Project, projects: &[Project], goals: &[Goal], depth: usize) -> (r: bool)
    ensures
        r == finished(*project, projects@, goals@, depth as nat),
    decreases depth,
{
    let mut any = false;
    let mut all_complete = true;
    let mut i: usize = 0;
    while i < goals.len()
        invariant
            i <= goals@.len(),
            any == exists|k: int| 0 <= k < i && owns_goal(*project, #[trigger] goals@[k]),
            all_complete == forall|k: int|
                0 <= k < i && owns_goal(*project, #[trigger] goals@[k]) ==> goals@[k].status
                    == GoalStatus::Complete,
        decreases goals@.len() - i,
    {
        if same_text(goals[i].project_id.as_str(), project.id.as_str()) {
            any = true;
            if goals[i].status != GoalStatus::Complete {
                all_complete = false;
            }
        }
        i = i + 1;
    }
    let ghost own = any;
    let mut kids_done = true;
    let mut j: usize = 0;
    while j < projects.len()
        invariant
            j <= projects@.len(),
            any == (own || exists|k: int| 0 <= k < j && child_of(*project, #[trigger] projects@[k])),
            kids_done == forall|k: int|
                0 <= k < j && child_of(*project, #[trigger] projects@[k]) ==> depth > 0 && finished(
                    projects@[k],
                    projects@,
                    goals@,
                    (depth - 1) as nat,
                ),
        decreases projects@.len() - j,
    {
        let child = match &projects[j].parent_id {
            Some(parent) => same_text(parent.as_str(), project.id.as_str()),
            None => false,
        };
        if child {
            any = true;
            if depth == 0 || !finished_within(&projects[j], projects, goals, depth - 1) {
                kids_done = false;
            }
        }
        j = j + 1;
    }
    any && all_complete && kids_done
}

/// A project with something beneath it, all of it complete: its own goals and, recursively,
/// its sub-projects. Every level below a project holds another project of the list, so the
/// walk looks as many levels down as there are projects; a hierarchy that loops back on
/// itself counts as unfinished.
pub fn project_finished(project: &Project, projects: &[Project], goals: &[Goal]) -> (r: bool)
    ensures
        r == finished(*project, projects@, goals@, projects@.len()),
{
    finished_within(project, projects, goals, projects.len())
}

/// What starts collapsed, as IDs: the complete goals, then the finished projects, each in
/// the order given.
pub open spec fn collapsed_ids(projects: Seq<Project>, goals: Seq<Goal>) -> Seq<Seq<char>> {
    goals.filter(|g: Goal| g.status == GoalStatus::Complete).map_values(|g: Goal| g.id@) + projects.filter(
        |p: Project| finished(p, projects, goals, projects.len()),
    ).map_values(|p: Project| p.id@)
}

/// What starts collapsed: complete goals, and projects whose goals are all complete and
/// whose sub-projects would all start collapsed themselves.
pub fn default_collapsed(projects: &[Project], goals: &[Goal]) -> (r: Vec<String>)
    ensures
        texts(r@) == collapsed_ids(projects@, goals@),
{
    let ghost gpred = |g: Goal| g.status == GoalStatus::Complete;
    let ghost ppred = |p: Project| finished(p, projects@, goals@, projects@.len());
    let mut out: Vec<String> = Vec::new();
    let mut i: usize = 0;
    proof {
        assert(goals@.take(0) =~= Seq::<Goal>::empty());
    }
    while i < goals.len()
        invariant
            i <= goals@.len(),
            gpred == (|g: Goal| g.status == GoalStatus::Complete),
            texts(out@) == goals@.take(i as int).filter(gpred).map_values(|g: Goal| g.id@),
        decreases goals@.len() - i,
    {
        let g = &goals[i];
        let ghost before = goals@.take(i as int);
        proof {
            assert(goals@.take(i + 1) =~= before.push(*g));
            before.lemma_filter_push(*g, gpred);
        }
        if g.status == GoalStatus::Complete {
            let id = g.id.clone();
            proof {
                assert(texts(out@.push(id)) =~= texts(out@).push(id@));
                assert(before.filter(gpred).push(*g).map_values(|g: Goal| g.id@) =~= before.filter(
                    gpred,
                ).map_values(|g: Goal| g.id@).push(g.id@));
            }
            out.push(id);
        }
        i = i + 1;
    }
    proof {
        assert(goals@.take(i as int) =~= goals@);
    }
    let ghost first = texts(out@);
    let mut j: usize = 0;
    proof {
        assert(projects@.take(0) =~= Seq::<Project>::empty());
        assert(texts(out@) =~= first + projects@.take(0).filter(ppred).map_values(|p: Project| p.id@));
    }
    while j < projects.len()
        invariant
            j <= projects@.len(),
            ppred == (|p: Project| finished(p, projects@, goals@, projects@.len())),
            texts(out@) == first + projects@.take(j as int).filter(ppred).map_values(|p: Project| p.id@),
        decreases projects@.len() - j,
    {
        let p = &projects[j];
        let ghost before = projects@.take(j as int);
        proof {
            assert(projects@.take(j + 1) =~= before.push(*p));
            before.lemma_filter_push(*p, ppred);
        }
        if project_finished(p, projects, goals) {
            let id = p.id.clone();
            proof {
                assert(texts(out@.push(id)) =~= texts(out@).push(id@));
                assert(before.filter(ppred).push(*p).map_values(|p: Project| p.id@) =~= before.filter(
                    ppred,
                ).map_values(|p: Project| p.id@).push(p.id@));
            }
            out.push(id);
        }
        j = j + 1;
    }
    proof {
        assert(projects@.take(j as int) =~= projects@);
    }
    out
}

/// The rank recorded last for this ID among the first `k` tasks, if any.
pub open spec fn rank_recorded(tasks: Seq<TaskDetail>, ranks: Seq<usize>, k: int, id: Seq<char>) -> Option<usize>
    decreases k,
{
    if k <= 0 {
        None
    } else if tasks[k - 1].task.id@ == id {
        Some(ranks[k - 1])
    } else {
        rank_recorded(tasks, ranks, k - 1, id)
    }
}

/// The highest rank recorded before task `k` for any of the first `m` IDs it depends on.
pub open spec fn highest_prerequisite(tasks: Seq<TaskDetail>, ranks: Seq<usize>, k: int, m: int) -> Option<usize>
    decreases m,
{
    if m <= 0 {
        None
    } else {
        let rest = highest_prerequisite(tasks, ranks, k, m - 1);
        match rank_recorded(tasks, ranks, k, tasks[k].depends_on@[m - 1]@) {
            Some(x) => match rest {
                Some(y) => Some(if x >= y {
                    x
                } else {
                    y
                }),
                None => Some(x),
            },
            None => rest,
        }
    }
}

/// The rank of task `k`: one more than the highest rank of its prerequisites listed before
/// it, or 0 when there is none.
pub open spec fn rank_at(tasks: Seq<TaskDetail>, ranks: Seq<usize>, k: int) -> int {
    match highest_prerequisite(tasks, ranks, k, tasks[k].depends_on@.len() as int) {
        Some(x) => x + 1,
        None => 0,
    }
}

/// A recorded rank is one of the ranks before `k`.
proof fn lemma_recorded_bound(tasks: Seq<TaskDetail>, ranks: Seq<usize>, k: int, id: Seq<char>)
    requires
        0 <= k <= ranks.len(),
        forall|j: int| 0 <= j < k ==> ranks[j] <= j,
    ensures
        rank_recorded(tasks, ranks, k, id) matches Some(x) ==> x < k,
    decreases k,
{
    if k > 0 {
        lemma_recorded_bound(tasks, ranks, k - 1, id);
    }
}

/// The highest prerequisite rank is one of the ranks before `k`.
proof fn lemma_highest_bound(tasks: Seq<TaskDetail>, ranks: Seq<usize>, k: int, m: int)
    requires
        0 <= k <= ranks.len(),
        0 <= k < tasks.len(),
        m <= tasks[k].depends_on@.len(),
        forall|j: int| 0 <= j < k ==> ranks[j] <= j,
    ensures
        highest_prerequisite(tasks, ranks, k, m) matches Some(x) ==> x < k,
    decreases m,
{
    if m > 0 {
        lemma_highest_bound(tasks, ranks, k, m - 1);
        lemma_recorded_bound(tasks, ranks, k, tasks[k].depends_on@[m - 1]@);
    }
}

/// The rank recorded last for an ID among the first `k` tasks.
fn recorded(tasks: &[TaskDetail], ranks: &Vec<usize>, k: usize, id: &str) -> (r: Option<usize>)
    requires
        k <= tasks@.len(),
        k <= ranks@.len(),
    ensures
        r == rank_recorded(tasks@, ranks@, k as int, id@),
{
    let mut i: usize = k;
    while i > 0
        invariant
            i <= k,
            k <= tasks@.len(),
            k <= ranks@.len(),
            rank_recorded(tasks@, ranks@, k as int, id@) == rank_recorded(tasks@, ranks@, i as int, id@),
        decreases i,
    {
        if same_text(tasks[i - 1].task.id.as_str(), id) {
            return Some(ranks[i - 1]);
        }
        i = i - 1;
    }
    None
}

/// Dependency rank per task, in the order given: the longest chain of prerequisites listed
/// before it, so dependents sit right of prerequisites. A prerequisite ID is looked up
/// among the earlier tasks, the last one with that ID counting.
pub fn ranks(tasks: &[TaskDetail]) -> (r: Vec<usize>)
    ensures
        r@.len() == tasks@.len(),
        forall|k: int| 0 <= k < r@.len() ==> r@[k] == rank_at(tasks@, r@, k),
{
    let mut out: Vec<usize> = Vec::new();
    let mut k: usize = 0;
    while k < tasks.len()
        invariant
            k <= tasks@.len(),
            out@.len() == k,
            forall|j: int| 0 <= j < k ==> out@[j] <= j,
            forall|j: int| 0 <= j < k ==> #[trigger] out@[j] == rank_at(tasks@, out@, j),
        decreases tasks@.len() - k,
    {
        let deps = &tasks[k].depends_on;
        let mut best: Option<usize> = None;
        let mut m: usize = 0;
        while m < deps.len()
            invariant
                k < tasks@.len(),
                out@.len() == k,
                forall|j: int| 0 <= j < k ==> out@[j] <= j,
                deps@ == tasks@[k as int].depends_on@,
                m <= deps@.len(),
                best == highest_prerequisite(tasks@, out@, k as int, m as int),
            decreases deps@.len() - m,
        {
            let found = recorded(tasks, &out, k, deps[m].as_str());
            best = match found {
                Some(x) => match best {
                    Some(y) => Some(if x >= y {
                        x
                    } else {
                        y
                    }),
                    None => Some(x),
                },
                None => best,
            };
            m = m + 1;
        }
        proof {
            lemma_highest_bound(tasks@, out@, k as int, deps@.len() as int);
        }
        let rank = match best {
            Some(x) => x + 1,
            None => 0,
        };
        let ghost old_out = out@;
        out.push(rank);
        proof {
            assert forall|j: int| 0 <= j < k + 1 implies #[trigger] out@[j] == rank_at(tasks@, out@, j) by {
                lemma_prefix_rank(tasks@, old_out, out@, j);
            }
        }
        k = k + 1;
    }
    out
}

/// Ranks depend only on the ranks before them: extending the list keeps every rank.
proof fn lemma_prefix_rank(tasks: Seq<TaskDetail>, short: Seq<usize>, long: Seq<usize>, j: int)
    requires
        0 <= j < long.len(),
        j < tasks.len(),
        short.len() + 1 == long.len(),
        forall|i: int| 0 <= i < short.len() ==> short[i] == long[i],
        j < short.len() ==> short[j] == rank_at(tasks, short, j),
        j == short.len() ==> long[j] == rank_at(tasks, short, j),
    ensures
        long[j] == rank_at(tasks, long, j),
{
    lemma_highest_prefix(tasks, short, long, j, tasks[j].depends_on@.len() as int);
}

/// The highest prerequisite rank of task `j` reads only ranks before `j`.
proof fn lemma_highest_prefix(tasks: Seq<TaskDetail>, short: Seq<usize>, long: Seq<usize>, j: int, m: int)
    requires
        0 <= j <= short.len(),
        j < tasks.len(),
        short.len() <= long.len(),
        forall|i: int| 0 <= i < short.len() ==> short[i] == long[i],
        m <= tasks[j].depends_on@.len(),
    ensures
        highest_prerequisite(tasks, short, j, m) == highest_prerequisite(tasks, long, j, m),
    decreases m,
{
    if m > 0 {
        lemma_highest_prefix(tasks, short, long, j, m - 1);
        lemma_recorded_prefix(tasks, short, long, j, tasks[j].depends_on@[m - 1]@);
    }
}

/// The rank recorded among the first `k` tasks reads only ranks before `k`.
proof fn lemma_recorded_prefix(tasks: Seq<TaskDetail>, short: Seq<usize>, long: Seq<usize>, k: int, id: Seq<char>)
    requires
        0 <= k <= short.len(),
        short.len() <= long.len(),
        forall|i: int| 0 <= i < short.len() ==> short[i] == long[i],
    ensures
        rank_recorded(tasks, short, k, id) == rank_recorded(tasks, long, k, id),
    decreases k,
{
    if k > 0 {
        lemma_recorded_prefix(tasks, short, long, k - 1, id);
    }
}

/// A prerequisite's recorded rank is at most the highest one found.
proof fn lemma_highest_covers(tasks: Seq<TaskDetail>, ranks: Seq<usize>, k: int, m: int, i: int)
    requires
        0 <= i < m,
        k < tasks.len(),
        m <= tasks[k].depends_on@.len(),
        rank_recorded(tasks, ranks, k, tasks[k].depends_on@[i]@) is Some,
    ensures
        highest_prerequisite(tasks, ranks, k, m) matches Some(x) && rank_recorded(
            tasks,
            ranks,
            k,
            tasks[k].depends_on@[i]@,
        )->0 <= x,
    decreases m,
{
    if i < m - 1 {
        lemma_highest_covers(tasks, ranks, k, m - 1, i);
    }
}

/// Dependents sit right of their prerequisites: a task's rank exceeds the rank recorded
/// for each of its prerequisites listed before it.
pub proof fn lemma_dependents_rank_higher(tasks: Seq<TaskDetail>, ranks: Seq<usize>, k: int, i: int)
    requires
        ranks.len() == tasks.len(),
        forall|j: int| 0 <= j < ranks.len() ==> #[trigger] ranks[j] == rank_at(tasks, ranks, j),
        0 <= k < tasks.len(),
        0 <= i < tasks[k].depends_on@.len(),
        rank_recorded(tasks, ranks, k, tasks[k].depends_on@[i]@) is Some,
    ensures
        ranks[k] > rank_recorded(tasks, ranks, k, tasks[k].depends_on@[i]@)->0,
{
    lemma_highest_covers(tasks, ranks, k, tasks[k].depends_on@.len() as int, i);
    assert(ranks[k] == rank_at(tasks, ranks, k));
}

/// States that mean work is live on it right now, and so deserve a pulse.
pub fn pulses(state: State) -> (r: bool)
    ensures
        r == (state == State::InWork || state == State::Validating || state == State::AwaitingMerge),
{
    matches!(state, State::InWork | State::Validating | State::AwaitingMerge)
}

/// A status's text with underscores shown as spaces.
pub open spec fn spaced(text: Seq<char>) -> Seq<char> {
    text.map_values(|c: char| if c == '_' { ' ' } else { c })
}

/// Human wording for a task's state: todo splits into ready and blocked, and every other
/// status reads as its text form with spaces for underscores.
pub open spec fn state_label(status: TaskStatus, ready: bool) -> Seq<char> {
    if status == TaskStatus::Todo {
        if ready {
            "ready"@
        } else {
            "blocked"@
        }
    } else {
        spaced(status.text())
    }
}

/// Human wording for a status, with the ready/blocked split for todo tasks.
pub fn task_state_label(task: &TaskDetail) -> (r: String)
    ensures
        r@ == state_label(task.task.status, task.ready),
{
    proof {
        reveal_strlit("in_progress");
        reveal_strlit("in progress");
        reveal_strlit("testing");
        reveal_strlit("ready_for_merge");
        reveal_strlit("ready for merge");
        reveal_strlit("done");
        reveal_strlit("cancelled");
        assert(spaced("in_progress"@) =~= "in progress"@);
        assert(spaced("testing"@) =~= "testing"@);
        assert(spaced("ready_for_merge"@) =~= "ready for merge"@);
        assert(spaced("done"@) =~= "done"@);
        assert(spaced("cancelled"@) =~= "cancelled"@);
    }
    let text = match task.task.status {
        TaskStatus::Todo => if task.ready {
            "ready"
        } else {
            "blocked"
        },
        TaskStatus::InProgress => "in progress",
        TaskStatus::Testing => "testing",
        TaskStatus::ReadyForMerge => "ready for merge",
        TaskStatus::Done => "done",
        TaskStatus::Cancelled => "cancelled",
    };
    String::from_str(text)
}

/// The position of the first goal with this ID, if any.
pub open spec fn first_goal(goals: Seq<Goal>, id: Seq<char>) -> Option<int> {
    if exists|i: int| 0 <= i < goals.len() && #[trigger] goals[i].id@ == id {
        Some(
            choose|i: int|
                0 <= i < goals.len() && #[trigger] goals[i].id@ == id && forall|j: int|
                    0 <= j < i ==> goals[j].id@ != id,
        )
    } else {
        None
    }
}

/// The position of the first project with this ID, if any.
pub open spec fn first_project(projects: Seq<Project>, id: Seq<char>) -> Option<int> {
    if exists|i: int| 0 <= i < projects.len() && #[trigger] projects[i].id@ == id {
        Some(
            choose|i: int|
                0 <= i < projects.len() && #[trigger] projects[i].id@ == id && forall|j: int|
                    0 <= j < i ==> projects[j].id@ != id,
        )
    } else {
        None
    }
}

/// Where a task sits, as "project name › goal title": the first goal with the task's goal
/// ID and the first project with that goal's project ID, falling back to the slugs the
/// detail carries when either is missing.
pub open spec fn location_text(projects: Seq<Project>, goals: Seq<Goal>, task: TaskDetail) -> Seq<char> {
    let goal = first_goal(goals, task.task.goal_id@);
    let project = match goal {
        Some(g) => first_project(projects, goals[g].project_id@),
        None => None,
    };
    let project_text = match project {
        Some(p) => projects[p].name@,
        None => task.project@,
    };
    let goal_text = match goal {
        Some(g) => goals[g].title@,
        None => task.goal@,
    };
    project_text + " › "@ + goal_text
}

/// The first goal with this ID.
pub(crate) fn find_goal_index(goals: &[Goal], id: &str) -> (r: Option<usize>)
    ensures
        r matches Some(i) ==> i < goals@.len() && first_goal(goals@, id@) == Some(i as int) && goals@[i as int].id@
            == id@,
        r is None ==> first_goal(goals@, id@) is None,
{
    let mut i: usize = 0;
    while i < goals.len()
        invariant
            i <= goals@.len(),
            forall|j: int| 0 <= j < i ==> #[trigger] goals@[j].id@ != id@,
        decreases goals@.len() - i,
    {
        if same_text(goals[i].id.as_str(), id) {
            proof {
                let k = choose|k: int|
                    0 <= k < goals@.len() && #[trigger] goals@[k].id@ == id@ && forall|j: int|
                        0 <= j < k ==> goals@[j].id@ != id@;
                if k < i {
                    assert(goals@[k].id@ != id@);
                } else if k > i {
                    assert(goals@[i as int].id@ != id@);
                }
            }
            return Some(i);
        }
        i = i + 1;
    }
    None
}

/// The first project with this ID.
pub(crate) fn find_project_index(projects: &[Project], id: &str) -> (r: Option<usize>)
    ensures
        r matches Some(i) ==> i < projects@.len() && first_project(projects@, id@) == Some(i as int)
            && projects@[i as int].id@ == id@,
        r is None ==> first_project(projects@, id@) is None,
{
    let mut i: usize = 0;
    while i < projects.len()
        invariant
            i <= projects@.len(),
            forall|j: int| 0 <= j < i ==> #[trigger] projects@[j].id@ != id@,
        decreases projects@.len() - i,
    {
        if same_text(projects[i].id.as_str(), id) {
            proof {
                let k = choose|k: int|
                    0 <= k < projects@.len() && #[trigger] projects@[k].id@ == id@ && forall|j: int|
                        0 <= j < k ==> projects@[j].id@ != id@;
                if k < i {
                    assert(projects@[k].id@ != id@);
                } else if k > i {
                    assert(projects@[i as int].id@ != id@);
                }
            }
            return Some(i);
        }
        i = i + 1;
    }
    None
}

/// "Project name › Goal title" for a task, using titles rather than slugs.
pub fn location(projects: &[Project], goals: &[Goal], task: &TaskDetail) -> (r: String)
    ensures
        r@ == location_text(projects@, goals@, *task),
{
    let goal = find_goal_index(goals, task.task.goal_id.as_str());
    let project = match goal {
        Some(g) => find_project_index(projects, goals[g].project_id.as_str()),
        None => None,
    };
    let project_text = match project {
        Some(p) => projects[p].name.as_str(),
        None => task.project.as_str(),
    };
    let goal_text = match goal {
        Some(g) => goals[g].title.as_str(),
        None => task.goal.as_str(),
    };
    concat3(project_text, " › ", goal_text)
}

/// Every chain of sub-projects below `p` is at most `h` projects long.
pub open spec fn levels_below(p: Project, projects: Seq<Project>, h: nat) -> bool
    decreases h,
{
    forall|j: int|
        0 <= j < projects.len() && child_of(p, #[trigger] projects[j]) ==> h > 0 && levels_below(
            projects[j],
            projects,
            (h - 1) as nat,
        )
}

/// Once the depth bound reaches the hierarchy's depth below a project, a larger bound
/// never changes whether it counts as finished.
pub proof fn lemma_finished_settles(p: Project, projects: Seq<Project>, goals: Seq<Goal>, h: nat, d: nat, e: nat)
    requires
        levels_below(p, projects, h),
        h <= d,
        h <= e,
    ensures
        finished(p, projects, goals, d) == finished(p, projects, goals, e),
    decreases h,
{
    assert forall|j: int| 0 <= j < projects.len() && child_of(p, #[trigger] projects[j]) implies finished(
        projects[j],
        projects,
        goals,
        (d - 1) as nat,
    ) == finished(projects[j], projects, goals, (e - 1) as nat) by {
        lemma_finished_settles(projects[j], projects, goals, (h - 1) as nat, (d - 1) as nat, (e - 1) as nat);
    }
}

/// For a hierarchy no deeper than the depth bound, being finished is the fixed point of
/// its description: a project is finished exactly when something lies beneath it, all its
/// own goals are complete, and every sub-project is finished under the same bound. So a
/// project whose whole subtree is complete is finished however many levels it spans.
pub proof fn lemma_finished_whole_subtree(p: Project, projects: Seq<Project>, goals: Seq<Goal>, h: nat, d: nat)
    requires
        levels_below(p, projects, h),
        h < d,
    ensures
        finished(p, projects, goals, d) <==> {
            &&& (exists|i: int| 0 <= i < goals.len() && owns_goal(p, #[trigger] goals[i])) || (exists|j: int|
                0 <= j < projects.len() && child_of(p, #[trigger] projects[j]))
            &&& forall|i: int| 0 <= i < goals.len() && owns_goal(p, #[trigger] goals[i]) ==> goals[i].status
                == GoalStatus::Complete
            &&& forall|j: int|
                0 <= j < projects.len() && child_of(p, #[trigger] projects[j]) ==> finished(
                    projects[j],
                    projects,
                    goals,
                    d,
                )
        },
{
    assert forall|j: int| 0 <= j < projects.len() && child_of(p, #[trigger] projects[j]) implies finished(
        projects[j],
        projects,
        goals,
        (d - 1) as nat,
    ) == finished(projects[j], projects, goals, d) by {
        lemma_finished_settles(projects[j], projects, goals, (h - 1) as nat, (d - 1) as nat, d);
    }
}

} // verus!
