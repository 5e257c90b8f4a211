//! The dependency graph of a project's tasks: built once from stored rows, kept acyclic, and
//! asked which tasks are blocked, which are ready, and in which order work can proceed.

use crate::order::{
    idx_acyclic, idx_stuck, rank_order, rank_ordered, released_idx, row_contains, rows_wf,
};
use crate::order::lemma_distinct_indices;
use crate::task::task_refusal;
use crate::text::{
    concat2, concat3, concat4, concat5, id_before, id_lt, is_blank, lemma_id_lt_asymmetric,
    lemma_id_lt_irreflexive, lemma_id_lt_total, lemma_id_lt_transitive, same_text,
};
use crate::{
    blank_message, is_duplicate, is_invalid, is_not_found, Dependency, Error, Result, Task,
    TaskStatus,
};
use vstd::prelude::*;

verus! {

/// A dependency edge between task IDs: `(task, prerequisite)`.
pub type IdEdge = (Seq<char>, Seq<char>);

/// The edges a list of dependencies names.
pub open spec fn edge_set(edges: Seq<Dependency>) -> Set<IdEdge> {
    Set::new(
        |e: IdEdge|
            exists|k: int|
                0 <= k < edges.len() && e == (#[trigger] edges[k].task_id@, edges[k].depends_on_id@),
    )
}

/// A non-empty set of tasks in which every task waits on another task of the set: none of
/// them can ever start.
pub open spec fn stuck(edges: Set<IdEdge>, s: Set<Seq<char>>) -> bool {
    &&& exists|x: Seq<char>| s.contains(x)
    &&& forall|x: Seq<char>|
        s.contains(x) ==> exists|y: Seq<char>|
            #![trigger s.contains(y)]
            s.contains(y) && edges.contains((x, y))
}

/// No set of tasks is stuck. In particular no task waits on itself through a chain of
/// dependencies (see `lemma_cycle_is_stuck`).
pub open spec fn acyclic(edges: Set<IdEdge>) -> bool {
    forall|s: Set<Seq<char>>| !stuck(edges, s)
}

/// A chain of tasks, each requiring the next.
pub open spec fn is_chain(edges: Set<IdEdge>, p: Seq<Seq<char>>) -> bool {
    &&& p.len() >= 1
    &&& forall|i: int| 0 <= i < p.len() - 1 ==> edges.contains((#[trigger] p[i], p[i + 1]))
}

/// Task `a` transitively depends on task `b` (every task reaches itself).
pub open spec fn reaches(edges: Set<IdEdge>, a: Seq<char>, b: Seq<char>) -> bool {
    exists|p: Seq<Seq<char>>| #[trigger] is_chain(edges, p) && p[0] == a && p.last() == b
}

/// Tasks in strictly increasing ID order.
pub open spec fn sorted_by_id(tasks: Seq<Task>) -> bool {
    forall|i: int, j: int| 0 <= i < j < tasks.len() ==> id_lt(#[trigger] tasks[i].id@, #[trigger] tasks[j].id@)
}

/// No two of the first `k` tasks share an ID.
pub open spec fn unique_ids_upto(tasks: Seq<Task>, k: int) -> bool {
    forall|i: int, j: int| 0 <= i < j < k ==> #[trigger] tasks[i].id@ != #[trigger] tasks[j].id@
}

/// Index `k` holds the first task whose ID repeats an earlier one.
pub open spec fn first_repeat(tasks: Seq<Task>, k: int) -> bool {
    &&& 0 <= k < tasks.len()
    &&& unique_ids_upto(tasks, k)
    &&& exists|j: int| 0 <= j < k && #[trigger] tasks[j].id@ == tasks[k].id@
}

/// Some task in the list has this ID.
pub open spec fn has_id(tasks: Seq<Task>, id: Seq<char>) -> bool {
    exists|i: int| 0 <= i < tasks.len() && #[trigger] tasks[i].id@ == id
}

/// An edge joins two existing, different tasks.
pub open spec fn edge_fits(tasks: Seq<Task>, e: Dependency) -> bool {
    &&& has_id(tasks, e.task_id@)
    &&& has_id(tasks, e.depends_on_id@)
    &&& e.task_id@ != e.depends_on_id@
}

/// Every edge joins two existing, different tasks.
pub open spec fn edges_fit(tasks: Seq<Task>, edges: Seq<Dependency>) -> bool {
    forall|k: int| 0 <= k < edges.len() ==> edge_fits(tasks, #[trigger] edges[k])
}

/// Index `k` holds the first edge that does not fit.
pub open spec fn first_bad_edge(tasks: Seq<Task>, edges: Seq<Dependency>, k: int) -> bool {
    &&& 0 <= k < edges.len()
    &&& !edge_fits(tasks, edges[k])
    &&& forall|j: int| 0 <= j < k ==> edge_fits(tasks, #[trigger] edges[j])
}

/// The refusal that the first misfitting edge earns.
pub open spec fn bad_edge_refused<T>(r: Result<T>, tasks: Seq<Task>, e: Dependency) -> bool {
    if !has_id(tasks, e.task_id@) {
        is_not_found(r, "task "@ + e.task_id@)
    } else if !has_id(tasks, e.depends_on_id@) {
        is_not_found(r, "task "@ + e.depends_on_id@)
    } else {
        is_invalid(r, "task "@ + e.task_id@ + " depends on itself"@)
    }
}

/// What a graph holds: its tasks in ID order, and its edges between their IDs.
pub struct DagModel {
    pub tasks: Seq<Task>,
    pub edges: Set<IdEdge>,
}

/// Position `p` of an order of task IDs was released at position `k`: every prerequisite of
/// `ord[p]` sits at or before `k`, and `ord[k]` is one of them (`k == -1` when it has none).
pub open spec fn released_at(edges: Set<IdEdge>, ord: Seq<Seq<char>>, p: int, k: int) -> bool {
    &&& forall|q: int| 0 <= q < ord.len() && edges.contains((ord[p], #[trigger] ord[q])) ==> q <= k
    &&& (k == -1 || (0 <= k < p && edges.contains((ord[p], ord[k]))))
}

/// `rel` gives the position that released each position of `ord`, and the entries come in
/// order of that position, then of ID.
pub open spec fn released_in_order(edges: Set<IdEdge>, ord: Seq<Seq<char>>, rel: Seq<int>) -> bool {
    &&& rel.len() == ord.len()
    &&& forall|p: int| 0 <= p < ord.len() ==> released_at(edges, ord, p, #[trigger] rel[p])
    &&& forall|p: int, q: int|
        0 <= p < q < ord.len() ==> #[trigger] rel[p] < #[trigger] rel[q] || (rel[p] == rel[q] && id_lt(
            ord[p],
            ord[q],
        ))
}

impl DagModel {
    /// The tasks are in strictly increasing ID order, every edge joins two of them, and no
    /// set of tasks is stuck.
    pub open spec fn valid(self) -> bool {
        &&& sorted_by_id(self.tasks)
        &&& forall|e: IdEdge| #[trigger] self.edges.contains(e) ==> has_id(self.tasks, e.0) && has_id(self.tasks, e.1)
        &&& acyclic(self.edges)
    }

    /// The graph holds a task with this ID.
    pub open spec fn has(self, id: Seq<char>) -> bool {
        has_id(self.tasks, id)
    }

    /// The task with this ID, when the graph holds one.
    pub open spec fn task_named(self, id: Seq<char>) -> Task {
        self.tasks[choose|i: int| 0 <= i < self.tasks.len() && #[trigger] self.tasks[i].id@ == id]
    }

    /// `a` may gain a dependency on `b`: both exist, their IDs are not blank and differ, `a`
    /// is still todo, and `b` does not already depend on `a`, directly or not.
    pub open spec fn dependency_allowed(self, a: Seq<char>, b: Seq<char>) -> bool {
        &&& self.has(a)
        &&& self.has(b)
        &&& !is_blank(a)
        &&& !is_blank(b)
        &&& a != b
        &&& self.task_named(a).status == TaskStatus::Todo
        &&& !reaches(self.edges, b, a)
    }

    /// Task `a` requires task `b` directly.
    pub open spec fn depends_on(self, a: Seq<char>, b: Seq<char>) -> bool {
        self.edges.contains((a, b))
    }

    /// The direct prerequisites of a task, in ID order.
    pub open spec fn prerequisites(self, id: Seq<char>) -> Seq<Task> {
        self.tasks.filter(|t: Task| self.depends_on(id, t.id@))
    }

    /// The tasks that directly require a task, in ID order.
    pub open spec fn dependents(self, id: Seq<char>) -> Seq<Task> {
        self.tasks.filter(|t: Task| self.depends_on(t.id@, id))
    }

    /// The direct prerequisites of a task that are not done, in ID order.
    pub open spec fn blockers(self, id: Seq<char>) -> Seq<Task> {
        self.tasks.filter(|t: Task| self.depends_on(id, t.id@) && t.status != TaskStatus::Done)
    }

    /// Every direct prerequisite of the task is done.
    pub open spec fn prerequisites_done(self, id: Seq<char>) -> bool {
        forall|i: int|
            0 <= i < self.tasks.len() && self.depends_on(id, #[trigger] self.tasks[i].id@)
                ==> self.tasks[i].status == TaskStatus::Done
    }

    /// A task is ready when it is todo and every direct prerequisite is done.
    pub open spec fn ready_task(self, t: Task) -> bool {
        t.status == TaskStatus::Todo && self.prerequisites_done(t.id@)
    }

    /// The ready tasks, in ID order.
    pub open spec fn ready(self) -> Seq<Task> {
        self.tasks.filter(|t: Task| self.ready_task(t))
    }

    /// `ord` lists every task ID once, each after all its prerequisites: tasks come in order
    /// of the position of their last prerequisite (those with none first), and tasks
    /// released by the same prerequisite come in ID order. This is the order Kahn's
    /// algorithm yields when ties are broken by ID.
    pub open spec fn dependency_order(self, ord: Seq<Seq<char>>) -> bool {
        &&& ord.len() == self.tasks.len()
        &&& ord.no_duplicates()
        &&& forall|i: int| 0 <= i < ord.len() ==> self.has(#[trigger] ord[i])
        &&& exists|rel: Seq<int>| #[trigger] released_in_order(self.edges, ord, rel)
    }
}

/// `t` is linked to the task `id`: a prerequisite of it when `forward`, a task requiring it
/// otherwise; when `open_only`, only while `t` is not done.
pub open spec fn linked_to(m: DagModel, id: Seq<char>, forward: bool, open_only: bool, t: Task) -> bool {
    &&& if forward {
        m.depends_on(id, t.id@)
    } else {
        m.depends_on(t.id@, id)
    }
    &&& open_only ==> t.status != TaskStatus::Done
}

/// The refusal `check_new_dependency` gives when `a` may not gain a dependency on `b`: the
/// first failing check, in the order: `a` exists, `b` exists, neither ID is blank, they
/// differ, `a` is still todo, and `b` does not already depend on `a`.
pub open spec fn dependency_refused<T>(m: DagModel, a: Seq<char>, b: Seq<char>, r: Result<T>) -> bool {
    let status = m.task_named(a).status;
    &&& !m.has(a) ==> is_not_found(r, "task "@ + a)
    &&& m.has(a) && !m.has(b) ==> is_not_found(r, "task "@ + b)
    &&& m.has(a) && m.has(b) ==> {
        &&& is_blank(a) ==> is_invalid(r, blank_message("task id"@))
        &&& !is_blank(a) && is_blank(b) ==> is_invalid(r, blank_message("dependency id"@))
        &&& !is_blank(a) && !is_blank(b) && a == b ==> is_invalid(r, "a task cannot depend on itself"@)
        &&& !is_blank(a) && !is_blank(b) && a != b && status != TaskStatus::Todo ==> is_invalid(
            r,
            task_refusal(a, status, "given new dependencies"@),
        )
        &&& !is_blank(a) && !is_blank(b) && a != b && status == TaskStatus::Todo && reaches(m.edges, b, a)
            ==> is_invalid(r, "task "@ + a + " cannot depend on "@ + b + ": it would create a cycle"@)
    }
}

/// A validated, in-memory view of every task and dependency in a project.
///
/// Storage loads rows, builds a `Dag`, and asks it questions. All traversal is iterative and
/// ordered by task ID so results are deterministic.
pub struct Dag<'a> {
    /// Every task, in strictly increasing ID order.
    tasks: Vec<&'a Task>,
    /// Row `i` lists, without repeats, the positions of the tasks task `i` depends on.
    rows: Vec<Vec<usize>>,
    /// The edges between task IDs that the rows encode.
    edges: Ghost<Set<IdEdge>>,
}

/// The tasks behind a list of references.
pub open spec fn deref_tasks(s: Seq<&Task>) -> Seq<Task> {
    s.map_values(|t: &Task| *t)
}

/// The rows of an adjacency list.
pub open spec fn row_views(rows: Seq<Vec<usize>>) -> Seq<Seq<usize>> {
    rows.map_values(|r: Vec<usize>| r@)
}

impl<'a> View for Dag<'a> {
    type V = DagModel;

    closed spec fn view(&self) -> DagModel {
        DagModel { tasks: deref_tasks(self.tasks@), edges: self.edges@ }
    }
}

/// The rows encode exactly the edges between the listed tasks, and every edge joins two of
/// them.
pub open spec fn rows_encode(tasks: Seq<Task>, rows: Seq<Seq<usize>>, edges: Set<IdEdge>) -> bool {
    &&& rows.len() == tasks.len()
    &&& rows_wf(rows)
    &&& forall|i: int, j: int|
        0 <= i < tasks.len() && 0 <= j < tasks.len() ==> (#[trigger] rows[i].contains(j as usize)
            <==> edges.contains((tasks[i].id@, #[trigger] tasks[j].id@)))
    &&& forall|e: IdEdge|
        #[trigger] edges.contains(e) ==> has_id(tasks, e.0) && has_id(tasks, e.1)
}

impl<'a> Dag<'a> {
    #[verifier::type_invariant]
    closed spec fn wf(self) -> bool {
        &&& sorted_by_id(deref_tasks(self.tasks@))
        &&& rows_encode(deref_tasks(self.tasks@), row_views(self.rows@), self.edges@)
        &&& acyclic(self.edges@)
    }
}

/// `sorted` holds the same tasks as `tasks`, as many of them.
pub open spec fn same_tasks(sorted: Seq<Task>, tasks: Seq<Task>) -> bool {
    &&& sorted.len() == tasks.len()
    &&& forall|t: Task| #[trigger] sorted.contains(t) <==> tasks.contains(t)
}

/// The position of the task with this ID, if any.
fn position(tasks: &Vec<&Task>, id: &str) -> (r: Option<usize>)
    ensures
        r matches Some(i) ==> i < tasks@.len() && tasks@[i as int].id@ == id@,
        r is None ==> forall|i: int| 0 <= i < tasks@.len() ==> #[trigger] tasks@[i].id@ != id@,
{
    let mut i: usize = 0;
    while i < tasks.len()
        invariant
            i <= tasks@.len(),
            forall|k: int| 0 <= k < i ==> #[trigger] tasks@[k].id@ != id@,
        decreases tasks@.len() - i,
    {
        if same_text(tasks[i].id.as_str(), id) {
            return Some(i);
        }
        i = i + 1;
    }
    None
}

/// Inserting a key that sorts after everything before `p` and before everything from `p`
/// keeps a list sorted.
proof fn lemma_insert_sorted(s: Seq<Task>, p: int, x: Task)
    requires
        0 <= p <= s.len(),
        sorted_by_id(s),
        forall|i: int| 0 <= i < p ==> id_lt(#[trigger] s[i].id@, x.id@),
        forall|i: int| p <= i < s.len() ==> id_lt(x.id@, #[trigger] s[i].id@),
    ensures
        sorted_by_id(s.insert(p, x)),
{
    let t = s.insert(p, x);
    assert forall|i: int, j: int| 0 <= i < j < t.len() implies id_lt(#[trigger] t[i].id@, #[trigger] t[j].id@) by {
        if j < p {
            assert(t[i] == s[i] && t[j] == s[j]);
        } else if j == p {
            assert(t[i] == s[i]);
        } else if i < p {
            assert(t[i] == s[i] && t[j] == s[j - 1]);
        } else if i == p {
            assert(t[j] == s[j - 1]);
        } else {
            assert(t[i] == s[i - 1] && t[j] == s[j - 1]);
        }
    }
}

/// `s` matches the first `k` tasks: `perm` says where each entry came from, `pos` where
/// each task went.
pub open spec fn matched(tasks: Seq<Task>, k: int, s: Seq<Task>, perm: Seq<int>, pos: Seq<int>) -> bool {
    &&& s.len() == k
    &&& perm.len() == k
    &&& pos.len() == k
    &&& forall|i: int| 0 <= i < k ==> 0 <= #[trigger] perm[i] < k && s[i] == tasks[perm[i]]
    &&& forall|j: int| 0 <= j < k ==> 0 <= #[trigger] pos[j] < k && s[pos[j]] == tasks[j]
}

/// Finding a task's ID among the earlier tasks makes it the first repeat.
proof fn lemma_repeat_found(tasks: Seq<Task>, k: int, s: Seq<Task>, perm: Seq<int>, pos: Seq<int>, p: int)
    requires
        0 <= k < tasks.len(),
        unique_ids_upto(tasks, k),
        matched(tasks, k, s, perm, pos),
        0 <= p < s.len(),
        s[p].id@ == tasks[k].id@,
    ensures
        forall|k2: int| first_repeat(tasks, k2) <==> k2 == k,
        !unique_ids_upto(tasks, tasks.len() as int),
{
    let j = perm[p];
    assert(tasks[j].id@ == tasks[k].id@);
    assert(first_repeat(tasks, k));
    assert forall|k2: int| first_repeat(tasks, k2) implies k2 == k by {
        if k2 > k {
            assert(tasks[j].id@ == tasks[k].id@);
        } else if k2 < k {
            let j2 = choose|j2: int| 0 <= j2 < k2 && #[trigger] tasks[j2].id@ == tasks[k2].id@;
        }
    }
}

/// Inserting a new ID at its sorted place keeps the arrangement sorted, duplicate-free, and
/// matched with one more input task.
proof fn lemma_insert_step(tasks: Seq<Task>, k: int, s: Seq<Task>, perm: Seq<int>, pos: Seq<int>, p: int) -> (res: (Seq<int>, Seq<int>))
    requires
        0 <= k < tasks.len(),
        unique_ids_upto(tasks, k),
        sorted_by_id(s),
        matched(tasks, k, s, perm, pos),
        0 <= p <= s.len(),
        forall|i: int| 0 <= i < p ==> id_lt(#[trigger] s[i].id@, tasks[k].id@),
        p < s.len() ==> !id_lt(s[p].id@, tasks[k].id@) && s[p].id@ != tasks[k].id@,
    ensures
        sorted_by_id(s.insert(p, tasks[k])),
        unique_ids_upto(tasks, k + 1),
        matched(tasks, k + 1, s.insert(p, tasks[k]), res.0, res.1),
{
    let x = tasks[k];
    assert forall|i: int| p <= i < s.len() implies id_lt(x.id@, #[trigger] s[i].id@) by {
        lemma_id_lt_total(x.id@, s[p].id@);
        if i > p {
            lemma_id_lt_transitive(x.id@, s[p].id@, s[i].id@);
        }
    }
    lemma_insert_sorted(s, p, x);
    assert forall|i: int| 0 <= i < s.len() implies #[trigger] s[i].id@ != x.id@ by {
        lemma_id_lt_irreflexive(x.id@);
    }
    assert forall|i: int, j: int| 0 <= i < j < k + 1 implies #[trigger] tasks[i].id@
        != #[trigger] tasks[j].id@ by {
        if j == k {
            assert(s[pos[i]] == tasks[i]);
        }
    }
    let s2 = s.insert(p, x);
    let perm2 = perm.insert(p, k);
    let pos2 = Seq::new(
        (k + 1) as nat,
        |j: int|
            if j == k {
                p
            } else if pos[j] >= p {
                pos[j] + 1
            } else {
                pos[j]
            },
    );
    assert forall|i: int| 0 <= i < k + 1 implies 0 <= #[trigger] perm2[i] < k + 1 && s2[i] == tasks[perm2[i]] by {
        if i < p {
            assert(perm2[i] == perm[i] && s2[i] == s[i]);
        } else if i > p {
            assert(perm2[i] == perm[i - 1] && s2[i] == s[i - 1]);
        }
    }
    assert forall|j: int| 0 <= j < k + 1 implies 0 <= #[trigger] pos2[j] < k + 1 && s2[pos2[j]] == tasks[j] by {
        if j < k {
            if pos[j] >= p {
                assert(s2[pos[j] + 1] == s[pos[j]]);
            } else {
                assert(s2[pos[j]] == s[pos[j]]);
            }
        }
    }
    (perm2, pos2)
}

/// A full match is a rearrangement of the same tasks.
proof fn lemma_matched_same(tasks: Seq<Task>, s: Seq<Task>, perm: Seq<int>, pos: Seq<int>)
    requires
        matched(tasks, tasks.len() as int, s, perm, pos),
    ensures
        same_tasks(s, tasks),
{
    assert forall|t: Task| #[trigger] s.contains(t) <==> tasks.contains(t) by {
        if s.contains(t) {
            let i = choose|i: int| 0 <= i < s.len() && s[i] == t;
            assert(tasks[perm[i]] == t);
        }
        if tasks.contains(t) {
            let j = choose|j: int| 0 <= j < tasks.len() && tasks[j] == t;
            assert(s[pos[j]] == t);
        }
    }
}

/// The tasks in strictly increasing ID order.
///
/// # Errors
/// Returns a `Duplicate` error naming the first task whose ID repeats an earlier one.
fn arrange<'a>(tasks: &'a [Task]) -> (r: Result<Vec<&'a Task>>)
    ensures
        r is Ok <==> unique_ids_upto(tasks@, tasks@.len() as int),
        forall|k: int| first_repeat(tasks@, k) ==> is_duplicate(r, "task "@ + (#[trigger] tasks@[k]).id@),
        r matches Ok(sorted) ==> sorted_by_id(deref_tasks(sorted@)) && same_tasks(
            deref_tasks(sorted@),
            tasks@,
        ),
{
    let mut sorted: Vec<&'a Task> = Vec::new();
    let mut k: usize = 0;
    let ghost mut perm: Seq<int> = Seq::empty();
    let ghost mut pos: Seq<int> = Seq::empty();
    proof {
        assert(deref_tasks(sorted@) =~= Seq::<Task>::empty());
    }
    while k < tasks.len()
        invariant
            k <= tasks@.len(),
            unique_ids_upto(tasks@, k as int),
            sorted_by_id(deref_tasks(sorted@)),
            matched(tasks@, k as int, deref_tasks(sorted@), perm, pos),
        decreases tasks@.len() - k,
    {
        let task = &tasks[k];
        let ghost s = deref_tasks(sorted@);
        let mut p: usize = 0;
        while p < sorted.len() && id_before(sorted[p].id.as_str(), task.id.as_str())
            invariant
                p <= sorted@.len(),
                s == deref_tasks(sorted@),
                forall|i: int| 0 <= i < p ==> id_lt(#[trigger] s[i].id@, task.id@),
            decreases sorted@.len() - p,
        {
            p = p + 1;
        }
        if p < sorted.len() && same_text(sorted[p].id.as_str(), task.id.as_str()) {
            proof {
                lemma_repeat_found(tasks@, k as int, s, perm, pos, p as int);
            }
            return Err(Error::Duplicate(concat2("task ", task.id.as_str())));
        }
        proof {
            let (a, b) = lemma_insert_step(tasks@, k as int, s, perm, pos, p as int);
            perm = a;
            pos = b;
        }
        sorted.insert(p, task);
        proof {
            assert(deref_tasks(sorted@) =~= s.insert(p as int, *task));
        }
        k = k + 1;
    }
    proof {
        lemma_matched_same(tasks@, deref_tasks(sorted@), perm, pos);
        assert forall|k2: int| !first_repeat(tasks@, k2) by {
            if first_repeat(tasks@, k2) {
                let j2 = choose|j2: int| 0 <= j2 < k2 && #[trigger] tasks@[j2].id@ == tasks@[k2].id@;
            }
        }
    }
    Ok(sorted)
}

/// Tasks in strictly increasing ID order have distinct IDs.
proof fn lemma_sorted_unique(tasks: Seq<Task>, i: int, j: int)
    requires
        sorted_by_id(tasks),
        0 <= i < tasks.len(),
        0 <= j < tasks.len(),
        tasks[i].id@ == tasks[j].id@,
    ensures
        i == j,
{
    if i < j {
        assert(id_lt(tasks[i].id@, tasks[j].id@));
        lemma_id_lt_irreflexive(tasks[i].id@);
    } else if j < i {
        assert(id_lt(tasks[j].id@, tasks[i].id@));
        lemma_id_lt_irreflexive(tasks[i].id@);
    }
}

/// Two lists of the same tasks hold the same IDs.
proof fn lemma_same_ids(sorted: Seq<Task>, tasks: Seq<Task>, x: Seq<char>)
    requires
        same_tasks(sorted, tasks),
    ensures
        has_id(sorted, x) <==> has_id(tasks, x),
{
    if has_id(sorted, x) {
        let i = choose|i: int| 0 <= i < sorted.len() && #[trigger] sorted[i].id@ == x;
        assert(sorted.contains(sorted[i]));
        assert(tasks.contains(sorted[i]));
        let j = choose|j: int| 0 <= j < tasks.len() && tasks[j] == sorted[i];
        assert(tasks[j].id@ == x);
    }
    if has_id(tasks, x) {
        let j = choose|j: int| 0 <= j < tasks.len() && #[trigger] tasks[j].id@ == x;
        assert(tasks.contains(tasks[j]));
        assert(sorted.contains(tasks[j]));
        let i = choose|i: int| 0 <= i < sorted.len() && sorted[i] == tasks[j];
        assert(sorted[i].id@ == x);
    }
}

/// The positions that each edge joins.
///
/// # Errors
/// The first edge that names a missing task, or joins a task to itself, is refused.
fn edge_pairs(sorted: &Vec<&Task>, edges: &[Dependency], tasks: Ghost<Seq<Task>>) -> (r: Result<Vec<(usize, usize)>>)
    requires
        same_tasks(deref_tasks(sorted@), tasks@),
    ensures
        r is Ok <==> edges_fit(tasks@, edges@),
        forall|k: int| first_bad_edge(tasks@, edges@, k) ==> bad_edge_refused(r, tasks@, #[trigger] edges@[k]),
        r matches Ok(pairs) ==> {
            &&& pairs@.len() == edges@.len()
            &&& forall|m: int|
                0 <= m < pairs@.len() ==> {
                    &&& (#[trigger] pairs@[m]).0 < sorted@.len()
                    &&& pairs@[m].1 < sorted@.len()
                    &&& sorted@[pairs@[m].0 as int].id@ == edges@[m].task_id@
                    &&& sorted@[pairs@[m].1 as int].id@ == edges@[m].depends_on_id@
                }
        },
{
    let ghost s = deref_tasks(sorted@);
    let mut pairs: Vec<(usize, usize)> = Vec::new();
    let mut k: usize = 0;
    while k < edges.len()
        invariant
            s == deref_tasks(sorted@),
            same_tasks(s, tasks@),
            k <= edges@.len(),
            pairs@.len() == k,
            forall|j: int| 0 <= j < k ==> edge_fits(tasks@, #[trigger] edges@[j]),
            forall|m: int|
                0 <= m < k ==> {
                    &&& (#[trigger] pairs@[m]).0 < sorted@.len()
                    &&& pairs@[m].1 < sorted@.len()
                    &&& sorted@[pairs@[m].0 as int].id@ == edges@[m].task_id@
                    &&& sorted@[pairs@[m].1 as int].id@ == edges@[m].depends_on_id@
                },
        decreases edges@.len() - k,
    {
        let edge = &edges[k];
        proof {
            lemma_same_ids(s, tasks@, edge.task_id@);
            lemma_same_ids(s, tasks@, edge.depends_on_id@);
        }
        let a = match position(sorted, edge.task_id.as_str()) {
            Some(a) => a,
            None => {
                proof {
                    assert(!has_id(s, edge.task_id@)) by {
                        if has_id(s, edge.task_id@) {
                            let i = choose|i: int| 0 <= i < s.len() && #[trigger] s[i].id@ == edge.task_id@;
                            assert(sorted@[i].id@ != edge.task_id@);
                        }
                    }
                    lemma_first_bad_is(tasks@, edges@, k as int);
                }
                return Err(Error::NotFound(concat2("task ", edge.task_id.as_str())));
            },
        };
        let b = match position(sorted, edge.depends_on_id.as_str()) {
            Some(b) => b,
            None => {
                proof {
                    assert(s[a as int].id@ == edge.task_id@);
                    assert(!has_id(s, edge.depends_on_id@)) by {
                        if has_id(s, edge.depends_on_id@) {
                            let i = choose|i: int| 0 <= i < s.len() && #[trigger] s[i].id@ == edge.depends_on_id@;
                            assert(sorted@[i].id@ != edge.depends_on_id@);
                        }
                    }
                    lemma_first_bad_is(tasks@, edges@, k as int);
                }
                return Err(Error::NotFound(concat2("task ", edge.depends_on_id.as_str())));
            },
        };
        proof {
            assert(s[a as int].id@ == edge.task_id@);
            assert(s[b as int].id@ == edge.depends_on_id@);
        }
        if edge.task_id == edge.depends_on_id {
            proof {
                lemma_first_bad_is(tasks@, edges@, k as int);
            }
            return Err(
                Error::Invalid(concat3("task ", edge.task_id.as_str(), " depends on itself")),
            );
        }
        pairs.push((a, b));
        k = k + 1;
    }
    proof {
        assert forall|k2: int| !first_bad_edge(tasks@, edges@, k2) by {}
    }
    Ok(pairs)
}

/// When every edge before `k` fits and edge `k` does not, `k` is the first bad edge and the
/// list does not fit.
proof fn lemma_first_bad_is(tasks: Seq<Task>, edges: Seq<Dependency>, k: int)
    requires
        0 <= k < edges.len(),
        forall|j: int| 0 <= j < k ==> edge_fits(tasks, #[trigger] edges[j]),
        !edge_fits(tasks, edges[k]),
    ensures
        first_bad_edge(tasks, edges, k),
        forall|k2: int| #[trigger] first_bad_edge(tasks, edges, k2) ==> k2 == k,
        !edges_fit(tasks, edges),
{
    assert forall|k2: int| #[trigger] first_bad_edge(tasks, edges, k2) implies k2 == k by {
        if k2 < k {
            assert(edge_fits(tasks, edges[k2]));
        } else if k2 > k {
            assert(edge_fits(tasks, edges[k]));
        }
    }
}

/// Adjacency rows for `n` tasks: row `i` lists, once each, every `j` with `(i, j)` among
/// the pairs.
fn adjacency(n: usize, pairs: &Vec<(usize, usize)>) -> (rows: Vec<Vec<usize>>)
    requires
        forall|m: int| 0 <= m < pairs@.len() ==> (#[trigger] pairs@[m]).0 < n && pairs@[m].1 < n,
    ensures
        rows@.len() == n,
        rows_wf(row_views(rows@)),
        forall|i: int, j: int|
            0 <= i < n && 0 <= j < n ==> (#[trigger] rows@[i]@.contains(j as usize) <==> exists|m: int|
                0 <= m < pairs@.len() && #[trigger] pairs@[m] == (i as usize, j as usize)),
{
    let mut rows: Vec<Vec<usize>> = Vec::new();
    let mut i: usize = 0;
    while i < n
        invariant
            i <= n,
            rows@.len() == i,
            forall|m: int| 0 <= m < pairs@.len() ==> (#[trigger] pairs@[m]).0 < n && pairs@[m].1 < n,
            forall|r: int|
                0 <= r < i ==> {
                    &&& (#[trigger] rows@[r])@.no_duplicates()
                    &&& forall|k: int| 0 <= k < rows@[r]@.len() ==> (#[trigger] rows@[r]@[k]) < n
                    &&& forall|j: int|
                        #![trigger rows@[r]@.contains(j as usize)]
                        0 <= j < n ==> (rows@[r]@.contains(j as usize) <==> exists|m: int|
                            0 <= m < pairs@.len() && #[trigger] pairs@[m] == (r as usize, j as usize))
                },
        decreases n - i,
    {
        let mut row: Vec<usize> = Vec::new();
        let mut m: usize = 0;
        while m < pairs.len()
            invariant
                i < n,
                m <= pairs@.len(),
                forall|q: int| 0 <= q < pairs@.len() ==> (#[trigger] pairs@[q]).0 < n && pairs@[q].1 < n,
                row@.no_duplicates(),
                forall|k: int| 0 <= k < row@.len() ==> (#[trigger] row@[k]) < n,
                forall|j: int|
                    #![trigger row@.contains(j as usize)]
                    0 <= j < n ==> (row@.contains(j as usize) <==> exists|q: int|
                        0 <= q < m && #[trigger] pairs@[q] == (i, j as usize)),
            decreases pairs@.len() - m,
        {
            let (x, y) = pairs[m];
            let ghost old_row = row@;
            if x == i && !row_contains(&row, y) {
                row.push(y);
            }
            proof {
                assert forall|j: int| #![trigger row@.contains(j as usize)] 0 <= j < n implies (row@.contains(j as usize) <==> exists|q: int|
                    0 <= q < m + 1 && #[trigger] pairs@[q] == (i, j as usize)) by {
                    if row@.contains(j as usize) && !old_row.contains(j as usize) {
                        let k = choose|k: int| 0 <= k < row@.len() && row@[k] == j as usize;
                        assert(k == old_row.len());
                        assert(pairs@[m as int] == (i, j as usize));
                    }
                    if old_row.contains(j as usize) {
                        let k = choose|k: int| 0 <= k < old_row.len() && old_row[k] == j as usize;
                        assert(row@[k] == j as usize);
                    }
                    if exists|q: int| 0 <= q < m + 1 && #[trigger] pairs@[q] == (i, j as usize) {
                        let q = choose|q: int| 0 <= q < m + 1 && #[trigger] pairs@[q] == (i, j as usize);
                        if q == m && !old_row.contains(j as usize) {
                            assert(row@[old_row.len() as int] == j as usize);
                        }
                    }
                }
                assert(row@.no_duplicates()) by {
                    if row@.len() > old_row.len() {
                        assert forall|a: int, b: int| 0 <= a < b < row@.len() implies row@[a] != row@[b] by {
                            if b == old_row.len() {
                                assert(old_row[a] == row@[a]);
                            }
                        }
                    }
                }
            }
            m = m + 1;
        }
        rows.push(row);
        i = i + 1;
    }
    proof {
        let rv = row_views(rows@);
        assert forall|r: int| 0 <= r < rv.len() implies {
            &&& (#[trigger] rv[r]).no_duplicates()
            &&& forall|k: int| 0 <= k < rv[r].len() ==> (#[trigger] rv[r][k]) < rv.len()
        } by {
            assert(rv[r] == rows@[r]@);
        }
    }
    rows
}

/// Rows built from the edge pairs encode exactly the edges the list names.
proof fn lemma_rows_encode_edges(
    s: Seq<Task>,
    edges: Seq<Dependency>,
    pairs: Seq<(usize, usize)>,
    rows: Seq<Seq<usize>>,
)
    requires
        s.len() <= usize::MAX,
        sorted_by_id(s),
        pairs.len() == edges.len(),
        rows.len() == s.len(),
        rows_wf(rows),
        forall|m: int|
            0 <= m < pairs.len() ==> {
                &&& (#[trigger] pairs[m]).0 < s.len()
                &&& pairs[m].1 < s.len()
                &&& s[pairs[m].0 as int].id@ == edges[m].task_id@
                &&& s[pairs[m].1 as int].id@ == edges[m].depends_on_id@
            },
        forall|i: int, j: int|
            0 <= i < s.len() && 0 <= j < s.len() ==> (#[trigger] rows[i].contains(j as usize) <==> exists|m: int|
                0 <= m < pairs.len() && #[trigger] pairs[m] == (i as usize, j as usize)),
    ensures
        rows_encode(s, rows, edge_set(edges)),
{
    let e = edge_set(edges);
    assert forall|i: int, j: int| 0 <= i < s.len() && 0 <= j < s.len() implies (#[trigger] rows[i].contains(j as usize)
        <==> e.contains((s[i].id@, #[trigger] s[j].id@))) by {
        if rows[i].contains(j as usize) {
            let m = choose|m: int| 0 <= m < pairs.len() && #[trigger] pairs[m] == (i as usize, j as usize);
            assert(edges[m].task_id@ == s[i].id@);
        }
        if e.contains((s[i].id@, s[j].id@)) {
            let m = choose|m: int|
                0 <= m < edges.len() && (s[i].id@, s[j].id@) == (#[trigger] edges[m].task_id@, edges[m].depends_on_id@);
            let (a, b) = pairs[m];
            lemma_sorted_unique(s, a as int, i);
            lemma_sorted_unique(s, b as int, j);
            assert(pairs[m] == (i as usize, j as usize));
        }
    }
    assert forall|x: IdEdge| #[trigger] e.contains(x) implies has_id(s, x.0) && has_id(s, x.1) by {
        let m = choose|m: int| 0 <= m < edges.len() && x == (#[trigger] edges[m].task_id@, edges[m].depends_on_id@);
        let (a, b) = pairs[m];
        assert(s[a as int].id@ == x.0);
        assert(s[b as int].id@ == x.1);
    }
}

/// A stuck set of positions names a stuck set of IDs.
proof fn lemma_stuck_rows_give_stuck_ids(s: Seq<Task>, rows: Seq<Seq<usize>>, e: Set<IdEdge>, st: Set<usize>)
    requires
        s.len() <= usize::MAX,
        rows_encode(s, rows, e),
        idx_stuck(rows, st),
    ensures
        !acyclic(e),
{
    let ids = Set::new(|x: Seq<char>| exists|i: usize| st.contains(i) && i < s.len() && #[trigger] s[i as int].id@ == x);
    let x0 = choose|x: usize| st.contains(x);
    assert(ids.contains(s[x0 as int].id@));
    assert forall|x: Seq<char>| ids.contains(x) implies exists|y: Seq<char>|
        #![trigger ids.contains(y)]
        ids.contains(y) && e.contains((x, y)) by {
        let i = choose|i: usize| st.contains(i) && i < s.len() && #[trigger] s[i as int].id@ == x;
        let j = choose|j: usize| st.contains(j) && rows[i as int].contains(j);
        let k = choose|k: int| 0 <= k < rows[i as int].len() && rows[i as int][k] == j;
        assert(rows[i as int][k] < rows.len());
        assert(rows[i as int].contains((j as int) as usize));
        assert(e.contains((s[i as int].id@, s[j as int].id@)));
        assert(ids.contains(s[j as int].id@));
    }
    assert(stuck(e, ids));
}

/// A stuck set of IDs names a stuck set of positions.
proof fn lemma_stuck_ids_give_stuck_rows(s: Seq<Task>, rows: Seq<Seq<usize>>, e: Set<IdEdge>, ids: Set<Seq<char>>)
    requires
        s.len() <= usize::MAX,
        rows_encode(s, rows, e),
        stuck(e, ids),
    ensures
        !idx_acyclic(rows),
{
    let st = Set::new(|i: usize| i < s.len() && ids.contains(s[i as int].id@));
    let x0 = choose|x: Seq<char>| ids.contains(x);
    let y0 = choose|y: Seq<char>| ids.contains(y) && e.contains((x0, y));
    assert(e.contains((x0, y0)));
    assert(has_id(s, x0));
    let i0 = choose|i: int| 0 <= i < s.len() && #[trigger] s[i].id@ == x0;
    assert(st.contains(i0 as usize));
    assert forall|x: usize| st.contains(x) implies x < rows.len() && exists|y: usize|
        #![trigger st.contains(y)]
        st.contains(y) && rows[x as int].contains(y) by {
        let y = choose|y: Seq<char>| ids.contains(y) && e.contains((s[x as int].id@, y));
        assert(e.contains((s[x as int].id@, y)));
        assert(has_id(s, y));
        let j = choose|j: int| 0 <= j < s.len() && #[trigger] s[j].id@ == y;
        assert(rows[x as int].contains(j as usize));
        assert(st.contains(j as usize));
    }
    assert(idx_stuck(rows, st));
}

/// With rows that encode the edges, the rows are free of stuck sets just when the edges
/// are.
proof fn lemma_acyclic_rows(s: Seq<Task>, rows: Seq<Seq<usize>>, e: Set<IdEdge>)
    requires
        s.len() <= usize::MAX,
        rows_encode(s, rows, e),
    ensures
        idx_acyclic(rows) <==> acyclic(e),
{
    if !idx_acyclic(rows) {
        let st = choose|st: Set<usize>| idx_stuck(rows, st);
        lemma_stuck_rows_give_stuck_ids(s, rows, e, st);
    }
    if !acyclic(e) {
        let ids = choose|ids: Set<Seq<char>>| stuck(e, ids);
        lemma_stuck_ids_give_stuck_rows(s, rows, e, ids);
    }
}

impl<'a> Dag<'a> {
    /// Build a graph, checking that every edge joins two existing tasks and nothing is cyclic.
    ///
    /// # Errors
    /// Returns an error for duplicate task IDs, dangling or self edges, or a cycle: the first
    /// repeated ID, else the first bad edge, else the cycle.
    pub fn new(tasks: &'a [Task], edges: &'a [Dependency]) -> (r: Result<Self>)
        ensures
            r is Ok <==> unique_ids_upto(tasks@, tasks@.len() as int) && edges_fit(tasks@, edges@)
                && acyclic(edge_set(edges@)),
            forall|k: int| first_repeat(tasks@, k) ==> is_duplicate(r, "task "@ + (#[trigger] tasks@[k]).id@),
            unique_ids_upto(tasks@, tasks@.len() as int) ==> forall|k: int|
                first_bad_edge(tasks@, edges@, k) ==> bad_edge_refused(r, tasks@, #[trigger] edges@[k]),
            unique_ids_upto(tasks@, tasks@.len() as int) && edges_fit(tasks@, edges@) && !acyclic(
                edge_set(edges@),
            ) ==> is_invalid(r, "dependency graph contains a cycle"@),
            r matches Ok(dag) ==> {
                &&& sorted_by_id(dag@.tasks)
                &&& same_tasks(dag@.tasks, tasks@)
                &&& dag@.edges == edge_set(edges@)
            },
    {
        let sorted = arrange(tasks)?;
        let pairs = edge_pairs(&sorted, edges, Ghost(tasks@))?;
        let rows = adjacency(sorted.len(), &pairs);
        let ghost s = deref_tasks(sorted@);
        proof {
            assert forall|m: int| 0 <= m < pairs@.len() implies {
                &&& (#[trigger] pairs@[m]).0 < s.len()
                &&& pairs@[m].1 < s.len()
                &&& s[pairs@[m].0 as int].id@ == edges@[m].task_id@
                &&& s[pairs@[m].1 as int].id@ == edges@[m].depends_on_id@
            } by {}
            assert forall|i: int, j: int| 0 <= i < s.len() && 0 <= j < s.len() implies (#[trigger] row_views(rows@)[i].contains(j as usize) <==> exists|m: int|
                0 <= m < pairs@.len() && #[trigger] pairs@[m] == (i as usize, j as usize)) by {
                assert(row_views(rows@)[i] == rows@[i]@);
            }
            lemma_rows_encode_edges(s, edges@, pairs@, row_views(rows@));
            lemma_acyclic_rows(s, row_views(rows@), edge_set(edges@));
        }
        let (order, _) = rank_order(&rows);
        if order.len() != sorted.len() {
            return Err(Error::Invalid("dependency graph contains a cycle".to_string()));
        }
        Ok(Dag { tasks: sorted, rows, edges: Ghost(edge_set(edges@)) })
    }
}

impl<'a> Dag<'a> {
    /// The model satisfies what the graph keeps.
    proof fn lemma_view_valid(&self)
        requires
            self.wf(),
        ensures
            self@.valid(),
            self@.tasks.len() == self.tasks@.len(),
            forall|i: int| 0 <= i < self.tasks@.len() ==> #[trigger] self@.tasks[i] == *self.tasks@[i],
    {
    }

    /// Look up a task.
    ///
    /// # Errors
    /// Returns an error if the task does not exist.
    pub fn task(&self, id: &str) -> (r: Result<&'a Task>)
        ensures
            self@.valid(),
            r is Ok <==> self@.has(id@),
            r matches Ok(t) ==> t.id@ == id@ && self@.tasks.contains(*t) && *t == self@.task_named(id@),
            !self@.has(id@) ==> is_not_found(r, "task "@ + id@),
    {
        proof {
            use_type_invariant(self);
            self.lemma_view_valid();
        }
        match position(&self.tasks, id) {
            Some(i) => {
                proof {
                    let m = self@;
                    assert(m.tasks[i as int] == *self.tasks@[i as int]);
                    let j = choose|j: int| 0 <= j < m.tasks.len() && #[trigger] m.tasks[j].id@ == id@;
                    lemma_sorted_unique(m.tasks, i as int, j);
                }
                Ok(self.tasks[i])
            },
            None => {
                proof {
                    assert forall|i: int| 0 <= i < self@.tasks.len() implies #[trigger] self@.tasks[i].id@ != id@ by {
                        assert(self@.tasks[i] == *self.tasks@[i]);
                    }
                }
                Err(Error::NotFound(concat2("task ", id)))
            },
        }
    }

    /// Every task in ID order.
    pub fn tasks(&self) -> (r: Vec<&'a Task>)
        ensures
            self@.valid(),
            deref_tasks(r@) == self@.tasks,
    {
        proof {
            use_type_invariant(self);
            self.lemma_view_valid();
        }
        let mut out: Vec<&'a Task> = Vec::new();
        let mut j: usize = 0;
        while j < self.tasks.len()
            invariant
                j <= self.tasks@.len(),
                out@.len() == j,
                forall|i: int| 0 <= i < j ==> out@[i] == self.tasks@[i],
            decreases self.tasks@.len() - j,
        {
            out.push(self.tasks[j]);
            j = j + 1;
        }
        proof {
            assert(out@ =~= self.tasks@);
        }
        out
    }

    /// The tasks linked to the task `id`, in ID order: its prerequisites when `forward`,
    /// else the tasks that require it; when `open_only`, only those not done. A missing task
    /// has none.
    fn linked(&self, id: &str, forward: bool, open_only: bool) -> (r: Vec<&'a Task>)
        ensures
            self@.valid(),
            deref_tasks(r@) == self@.tasks.filter(|t: Task| linked_to(self@, id@, forward, open_only, t)),
    {
        proof {
            use_type_invariant(self);
            self.lemma_view_valid();
        }
        let ghost model = self@;
        let ghost pred = |t: Task| linked_to(model, id@, forward, open_only, t);
        let found = position(&self.tasks, id);
        let mut out: Vec<&'a Task> = Vec::new();
        let mut j: usize = 0;
        while j < self.tasks.len()
            invariant
                self.wf(),
                model == self@,
                model.valid(),
                pred == (|t: Task| linked_to(model, id@, forward, open_only, t)),
                found matches Some(i) ==> i < self.tasks@.len() && self.tasks@[i as int].id@ == id@,
                found is None ==> forall|i: int| 0 <= i < self.tasks@.len() ==> #[trigger] self.tasks@[i].id@ != id@,
                j <= self.tasks@.len(),
                deref_tasks(out@) == model.tasks.take(j as int).filter(pred),
            decreases self.tasks@.len() - j,
        {
            let t_ref = self.tasks[j];
            let joined = match found {
                Some(i) => if forward {
                    row_contains(&self.rows[i], j)
                } else {
                    row_contains(&self.rows[j], i)
                },
                None => false,
            };
            let take = joined && (!open_only || t_ref.status != TaskStatus::Done);
            proof {
                let t = model.tasks[j as int];
                assert(t == *self.tasks@[j as int]);
                assert(rows_encode(model.tasks, row_views(self.rows@), model.edges));
                assert(row_views(self.rows@)[j as int] == self.rows@[j as int]@);
                if let Some(i) = found {
                    assert(row_views(self.rows@)[i as int] == self.rows@[i as int]@);
                    assert(model.tasks[i as int].id@ == id@);
                    assert(row_views(self.rows@)[i as int].contains((j as int) as usize) <==> model.edges.contains(
                        (model.tasks[i as int].id@, model.tasks[j as int].id@),
                    ));
                    assert(row_views(self.rows@)[j as int].contains((i as int) as usize) <==> model.edges.contains(
                        (model.tasks[j as int].id@, model.tasks[i as int].id@),
                    ));
                } else {
                    if model.edges.contains((id@, t.id@)) || model.edges.contains((t.id@, id@)) {
                        assert(has_id(model.tasks, id@));
                        let i = choose|i: int| 0 <= i < model.tasks.len() && #[trigger] model.tasks[i].id@ == id@;
                        assert(model.tasks[i] == *self.tasks@[i]);
                    }
                }
                assert(take == pred(t));
                assert(model.tasks.take(j + 1) =~= model.tasks.take(j as int).push(t));
                model.tasks.take(j as int).lemma_filter_push(t, pred);
            }
            if take {
                out.push(t_ref);
            }
            proof {
                assert(deref_tasks(out@) =~= model.tasks.take(j + 1).filter(pred));
            }
            j = j + 1;
        }
        proof {
            assert(model.tasks.take(j as int) =~= model.tasks);
        }
        out
    }

    /// Direct prerequisites of a task, in ID order. A missing task has none.
    pub fn dependencies(&self, id: &str) -> (r: Vec<&'a Task>)
        ensures
            self@.valid(),
            deref_tasks(r@) == self@.prerequisites(id@),
    {
        let r = self.linked(id, true, false);
        proof {
            let m = self@;
            assert((|t: Task| linked_to(m, id@, true, false, t)) =~= (|t: Task| m.depends_on(id@, t.id@)));
        }
        r
    }

    /// Tasks that directly require the given task, in ID order.
    pub fn dependents(&self, id: &str) -> (r: Vec<&'a Task>)
        ensures
            self@.valid(),
            deref_tasks(r@) == self@.dependents(id@),
    {
        let r = self.linked(id, false, false);
        proof {
            let m = self@;
            assert((|t: Task| linked_to(m, id@, false, false, t)) =~= (|t: Task| m.depends_on(t.id@, id@)));
        }
        r
    }

    /// Direct dependencies that are not yet done, in ID order.
    pub fn blockers(&self, id: &str) -> (r: Vec<&'a Task>)
        ensures
            self@.valid(),
            deref_tasks(r@) == self@.blockers(id@),
    {
        let r = self.linked(id, true, true);
        proof {
            let m = self@;
            assert((|t: Task| linked_to(m, id@, true, true, t)) =~= (|t: Task|
                m.depends_on(id@, t.id@) && t.status != TaskStatus::Done));
        }
        r
    }
}

/// A task has no open prerequisites just when all its prerequisites are done.
pub proof fn lemma_no_blockers(m: DagModel, id: Seq<char>)
    ensures
        m.blockers(id).len() == 0 <==> m.prerequisites_done(id),
{
    let pred = |t: Task| m.depends_on(id, t.id@) && t.status != TaskStatus::Done;
    if m.prerequisites_done(id) {
        assert(m.tasks.all(|x: Task| !pred(x)));
        m.tasks.lemma_all_neg_filter_empty(pred);
    } else {
        let i = choose|i: int|
            0 <= i < m.tasks.len() && m.depends_on(id, #[trigger] m.tasks[i].id@) && m.tasks[i].status
                != TaskStatus::Done;
        m.tasks.lemma_filter_contains(pred, i);
    }
}

impl<'a> Dag<'a> {
    /// Whether every direct dependency of the task is done.
    ///
    /// # Errors
    /// Returns an error if the task does not exist.
    pub fn dependencies_done(&self, id: &str) -> (r: Result<bool>)
        ensures
            self@.valid(),
            r is Ok <==> self@.has(id@),
            !self@.has(id@) ==> is_not_found(r, "task "@ + id@),
            r matches Ok(b) ==> b == self@.prerequisites_done(id@),
    {
        self.task(id)?;
        let open = self.blockers(id);
        proof {
            lemma_no_blockers(self@, id@);
        }
        Ok(open.len() == 0)
    }

    /// Whether a task is todo with every dependency done. A task the graph does not hold
    /// has no dependencies.
    pub fn is_ready(&self, task: &Task) -> (r: bool)
        ensures
            self@.valid(),
            r == self@.ready_task(*task),
            r ==> task.status == TaskStatus::Todo,
    {
        let open = self.blockers(task.id.as_str());
        proof {
            lemma_no_blockers(self@, task.id@);
        }
        task.status == TaskStatus::Todo && open.len() == 0
    }

    /// Ready tasks in ID order.
    pub fn ready(&self) -> (r: Vec<&'a Task>)
        ensures
            self@.valid(),
            deref_tasks(r@) == self@.ready(),
            forall|k: int| 0 <= k < r@.len() ==> (#[trigger] r@[k]).status == TaskStatus::Todo,
    {
        proof {
            use_type_invariant(self);
            self.lemma_view_valid();
        }
        let ghost model = self@;
        let ghost pred = |t: Task| model.ready_task(t);
        let mut out: Vec<&'a Task> = Vec::new();
        let mut j: usize = 0;
        while j < self.tasks.len()
            invariant
                model == self@,
                model.tasks.len() == self.tasks@.len(),
                forall|i: int| 0 <= i < self.tasks@.len() ==> #[trigger] model.tasks[i] == *self.tasks@[i],
                pred == (|t: Task| model.ready_task(t)),
                j <= self.tasks@.len(),
                deref_tasks(out@) == model.tasks.take(j as int).filter(pred),
            decreases self.tasks@.len() - j,
        {
            let t_ref = self.tasks[j];
            let take = self.is_ready(t_ref);
            proof {
                let t = model.tasks[j as int];
                assert(t == *t_ref);
                assert(model.tasks.take(j + 1) =~= model.tasks.take(j as int).push(t));
                model.tasks.take(j as int).lemma_filter_push(t, pred);
            }
            if take {
                out.push(t_ref);
            }
            proof {
                assert(deref_tasks(out@) =~= model.tasks.take(j + 1).filter(pred));
            }
            j = j + 1;
        }
        proof {
            assert(model.tasks.take(j as int) =~= model.tasks);
            assert(pred =~= (|t: Task| model.ready_task(t)));
            assert forall|k: int| 0 <= k < out@.len() implies (#[trigger] out@[k]).status == TaskStatus::Todo by {
                assert(deref_tasks(out@)[k] == *out@[k]);
                model.tasks.lemma_filter_pred(pred, k);
            }
        }
        out
    }
}

/// The IDs of a list of tasks, in order.
pub open spec fn ids_of(s: Seq<Task>) -> Seq<Seq<char>> {
    s.map_values(|t: Task| t.id@)
}

/// An order of task positions found by Kahn's algorithm over rows that encode the edges
/// names the tasks in dependency order.
proof fn lemma_order_ids(m: DagModel, rs: Seq<Seq<usize>>, ord: Seq<usize>, rel: Seq<int>)
    requires
        m.valid(),
        m.tasks.len() <= usize::MAX,
        rows_encode(m.tasks, rs, m.edges),
        ord.len() == m.tasks.len(),
        ord.no_duplicates(),
        forall|i: int| 0 <= i < ord.len() ==> (#[trigger] ord[i]) < m.tasks.len(),
        rel.len() == ord.len(),
        forall|p: int| 0 <= p < ord.len() ==> released_idx(rs, ord, p, #[trigger] rel[p]),
        rank_ordered(ord, rel),
    ensures
        m.dependency_order(ord.map_values(|i: usize| m.tasks[i as int].id@)),
{
    let ids = ord.map_values(|i: usize| m.tasks[i as int].id@);
    assert forall|p: int, q: int| 0 <= p < ids.len() && 0 <= q < ids.len() && ids[p] == ids[q] implies p == q by {
        lemma_sorted_unique(m.tasks, ord[p] as int, ord[q] as int);
    }
    assert(ids.no_duplicates());
    assert forall|i: int| 0 <= i < ids.len() implies m.has(#[trigger] ids[i]) by {
        assert(m.tasks[ord[i] as int].id@ == ids[i]);
    }
    reveal(released_idx);
    reveal(rank_ordered);
    assert forall|p: int| 0 <= p < ids.len() implies released_at(m.edges, ids, p, #[trigger] rel[p]) by {
        let u = ord[p];
        assert forall|q: int| 0 <= q < ids.len() && m.edges.contains((ids[p], #[trigger] ids[q])) implies q <= rel[p] by {
            let v = ord[q];
            assert(rs[u as int].contains((v as int) as usize));
            assert(ord.take(rel[p] + 1).contains(v));
            let pre = ord.take(rel[p] + 1);
            let r = choose|r: int| 0 <= r < pre.len() && #[trigger] pre[r] == v;
            assert(ord[r] == ord[q]);
        }
        if rel[p] != -1 {
            let w = ord[rel[p]];
            assert(rs[u as int].contains(w));
            assert(rs[u as int].contains((w as int) as usize));
        }
    }
    assert forall|p: int, q: int|
        0 <= p < q < ids.len() implies #[trigger] rel[p] < #[trigger] rel[q] || (rel[p] == rel[q]
            && id_lt(ids[p], ids[q])) by {
        if rel[p] == rel[q] {
            assert(ord[p] < ord[q]);
        }
    }
    assert(released_in_order(m.edges, ids, rel));
}

impl<'a> Dag<'a> {
    /// Kahn's algorithm with ID-ordered tie breaking. Prerequisites come before dependents.
    /// Every task comes out, since `new` refuses a cyclic graph.
    pub fn topological_order(&self) -> (r: Vec<&'a Task>)
        ensures
            self@.valid(),
            r@.len() == self@.tasks.len(),
            forall|i: int| 0 <= i < r@.len() ==> self@.tasks.contains(*#[trigger] r@[i]),
            self@.dependency_order(ids_of(deref_tasks(r@))),
    {
        proof {
            use_type_invariant(self);
            self.lemma_view_valid();
        }
        let ghost model = self@;
        let ghost rs = row_views(self.rows@);
        let n = self.tasks.len();
        proof {
            assert(rs =~= self.rows@.map_values(|r: Vec<usize>| r@));
            lemma_acyclic_rows(model.tasks, rs, model.edges);
        }
        let (ord, rel) = rank_order(&self.rows);
        proof {
            assert(rs =~= self.rows@.map_values(|r: Vec<usize>| r@));
            lemma_order_ids(model, rs, ord@, rel@);
        }
        let mut out: Vec<&'a Task> = Vec::new();
        let mut k: usize = 0;
        while k < ord.len()
            invariant
                model == self@,
                model.tasks.len() == self.tasks@.len(),
                forall|i: int| 0 <= i < self.tasks@.len() ==> #[trigger] model.tasks[i] == *self.tasks@[i],
                ord@.len() == self.tasks@.len(),
                forall|i: int| 0 <= i < ord@.len() ==> (#[trigger] ord@[i]) < self.tasks@.len(),
                k <= ord@.len(),
                out@.len() == k,
                forall|i: int| 0 <= i < k ==> #[trigger] out@[i] == self.tasks@[ord@[i] as int],
            decreases ord@.len() - k,
        {
            out.push(self.tasks[ord[k]]);
            k = k + 1;
        }
        proof {
            assert(ids_of(deref_tasks(out@)) =~= ord@.map_values(|i: usize| model.tasks[i as int].id@));
            assert forall|i: int| 0 <= i < out@.len() implies model.tasks.contains(*#[trigger] out@[i]) by {
                assert(model.tasks[ord@[i] as int] == *out@[i]);
            }
        }
        out
    }
}

/// Every task reaches itself.
pub proof fn lemma_reaches_self(edges: Set<IdEdge>, a: Seq<char>)
    ensures
        reaches(edges, a, a),
{
    let p = seq![a];
    assert(is_chain(edges, p));
}

/// A chain extends by one more edge.
pub proof fn lemma_reaches_step(edges: Set<IdEdge>, a: Seq<char>, b: Seq<char>, c: Seq<char>)
    requires
        reaches(edges, a, b),
        edges.contains((b, c)),
    ensures
        reaches(edges, a, c),
{
    let p = choose|p: Seq<Seq<char>>| #[trigger] is_chain(edges, p) && p[0] == a && p.last() == b;
    let q = p.push(c);
    assert forall|i: int| 0 <= i < q.len() - 1 implies edges.contains((#[trigger] q[i], q[i + 1])) by {
        if i < p.len() - 1 {
            assert(q[i] == p[i] && q[i + 1] == p[i + 1]);
        }
    }
    assert(is_chain(edges, q));
}

/// Positions closed under the rows hold every task along a chain that starts at one of
/// them.
proof fn lemma_closed_holds_chain(
    ts: Seq<Task>,
    rs: Seq<Seq<usize>>,
    edges: Set<IdEdge>,
    q: Seq<usize>,
    p: Seq<Seq<char>>,
    i: int,
)
    requires
        ts.len() <= usize::MAX,
        rows_encode(ts, rs, edges),
        forall|k: int| 0 <= k < q.len() ==> (#[trigger] q[k]) < ts.len(),
        forall|u: usize, v: usize| q.contains(u) && #[trigger] rs[u as int].contains(v) ==> q.contains(v),
        is_chain(edges, p),
        exists|u: usize| q.contains(u) && #[trigger] ts[u as int].id@ == p[0],
        0 <= i < p.len(),
    ensures
        exists|u: usize| q.contains(u) && #[trigger] ts[u as int].id@ == p[i],
    decreases i,
{
    if i > 0 {
        lemma_closed_holds_chain(ts, rs, edges, q, p, i - 1);
        let u = choose|u: usize| q.contains(u) && #[trigger] ts[u as int].id@ == p[i - 1];
        let k = choose|k: int| 0 <= k < q.len() && q[k] == u;
        assert(u < ts.len());
        assert(edges.contains((p[i - 1], p[i])));
        assert(has_id(ts, p[i]));
        let v = choose|v: int| 0 <= v < ts.len() && #[trigger] ts[v].id@ == p[i];
        assert(rs[u as int].contains(v as usize));
        assert(q.contains(v as usize));
        assert(ts[(v as usize) as int].id@ == p[i]);
    }
}

impl<'a> Dag<'a> {
    /// Whether the task at `from` transitively depends on the task at `target`: a
    /// breadth-first search that marks each task once.
    #[verifier::spinoff_prover]
    #[verifier::rlimit(60)]
    fn reaches(&self, from: usize, target: usize) -> (r: bool)
        requires
            from < self@.tasks.len(),
            target < self@.tasks.len(),
        ensures
            r == reaches(self@.edges, self@.tasks[from as int].id@, self@.tasks[target as int].id@),
    {
        proof {
            use_type_invariant(self);
            self.lemma_view_valid();
        }
        let ghost m = self@;
        let ghost rs = row_views(self.rows@);
        let ghost a = m.tasks[from as int].id@;
        let n = self.tasks.len();
        proof {
            lemma_reaches_self(m.edges, a);
        }
        if from == target {
            return true;
        }
        let mut seen: Vec<bool> = Vec::new();
        let mut i: usize = 0;
        while i < n
            invariant
                i <= n,
                seen@.len() == i,
                forall|k: int| 0 <= k < i ==> !(#[trigger] seen@[k]),
            decreases n - i,
        {
            seen.push(false);
            i = i + 1;
        }
        seen.set(from, true);
        let mut queue: Vec<usize> = Vec::new();
        queue.push(from);
        proof {
            assert(queue@[0] == from);
            assert forall|v: int| 0 <= v < n implies (#[trigger] seen@[v] <==> queue@.contains(v as usize)) by {
                if queue@.contains(v as usize) {
                    let j = choose|j: int| 0 <= j < queue@.len() && queue@[j] == v as usize;
                }
            }
        }
        let mut head: usize = 0;
        while head < queue.len()
            invariant
                m == self@,
                n == m.tasks.len(),
                n == self.tasks@.len(),
                rs == row_views(self.rows@),
                rows_encode(m.tasks, rs, m.edges),
                sorted_by_id(m.tasks),
                from < n,
                target < n,
                from != target,
                a == m.tasks[from as int].id@,
                seen@.len() == n,
                queue@.no_duplicates(),
                forall|k: int| 0 <= k < queue@.len() ==> (#[trigger] queue@[k]) < n,
                forall|v: int| 0 <= v < n ==> (#[trigger] seen@[v] <==> queue@.contains(v as usize)),
                queue@.contains(from),
                !queue@.contains(target),
                forall|k: int| 0 <= k < queue@.len() ==> reaches(m.edges, a, #[trigger] m.tasks[queue@[k] as int].id@),
                head <= queue@.len(),
                forall|k: int, v: usize| 0 <= k < head && #[trigger] rs[queue@[k] as int].contains(v) ==> queue@.contains(v),
            decreases n - head,
        {
            proof {
                lemma_distinct_indices(queue@, n as int);
            }
            let u = queue[head];
            let row = &self.rows[u];
            proof {
                assert(rs[u as int] == row@);
                assert(reaches(m.edges, a, m.tasks[queue@[head as int] as int].id@));
            }
            let mut k: usize = 0;
            while k < row.len()
                invariant
                    m == self@,
                    n == m.tasks.len(),
                    n == self.tasks@.len(),
                    rs == row_views(self.rows@),
                    rows_encode(m.tasks, rs, m.edges),
                    from < n,
                    target < n,
                    a == m.tasks[from as int].id@,
                    seen@.len() == n,
                    queue@.no_duplicates(),
                    forall|k2: int| 0 <= k2 < queue@.len() ==> (#[trigger] queue@[k2]) < n,
                    forall|v: int| 0 <= v < n ==> (#[trigger] seen@[v] <==> queue@.contains(v as usize)),
                    queue@.contains(from),
                    !queue@.contains(target),
                    forall|k2: int| 0 <= k2 < queue@.len() ==> reaches(m.edges, a, #[trigger] m.tasks[queue@[k2] as int].id@),
                    head < queue@.len(),
                    queue@[head as int] == u,
                    u < n,
                    row@ == rs[u as int],
                    reaches(m.edges, a, m.tasks[u as int].id@),
                    k <= row@.len(),
                    forall|k2: int, v: usize| 0 <= k2 < head && #[trigger] rs[queue@[k2] as int].contains(v) ==> queue@.contains(v),
                    forall|k2: int| 0 <= k2 < k ==> queue@.contains(#[trigger] row@[k2]),
                decreases row@.len() - k,
            {
                let v = row[k];
                proof {
                    assert(rs[u as int].contains(v));
                    assert(v < n);
                }
                if !seen[v] {
                    proof {
                        assert(rs[u as int].contains((v as int) as usize));
                        assert(m.edges.contains((m.tasks[u as int].id@, m.tasks[v as int].id@)));
                        lemma_reaches_step(m.edges, a, m.tasks[u as int].id@, m.tasks[v as int].id@);
                    }
                    if v == target {
                        return true;
                    }
                    let ghost old_q = queue@;
                    seen.set(v, true);
                    queue.push(v);
                    proof {
                        assert forall|x: usize| old_q.contains(x) implies queue@.contains(x) by {
                            let j = choose|j: int| 0 <= j < old_q.len() && old_q[j] == x;
                            assert(queue@[j] == x);
                        }
                        assert(queue@[old_q.len() as int] == v);
                        assert forall|w: int| 0 <= w < n implies (#[trigger] seen@[w] <==> queue@.contains(w as usize)) by {
                            if queue@.contains(w as usize) && w != v {
                                let j = choose|j: int| 0 <= j < queue@.len() && queue@[j] == w as usize;
                                assert(j < old_q.len());
                                assert(old_q[j] == w as usize);
                            }
                        }
                        assert(!queue@.contains(target)) by {
                            if queue@.contains(target) {
                                let j = choose|j: int| 0 <= j < queue@.len() && queue@[j] == target;
                                assert(j < old_q.len());
                                assert(old_q[j] == target);
                            }
                        }
                        assert forall|a2: int, b2: int| 0 <= a2 < b2 < queue@.len() implies queue@[a2] != queue@[b2] by {
                            if b2 == old_q.len() {
                                assert(old_q.contains(queue@[a2]));
                            }
                        }
                        assert(queue@.contains(row@[k as int]));
                    }
                }
                k = k + 1;
            }
            proof {
                assert forall|k2: int, w: usize| 0 <= k2 < head + 1 && #[trigger] rs[queue@[k2] as int].contains(w) implies queue@.contains(w) by {
                    if k2 == head {
                        let j = choose|j: int| 0 <= j < row@.len() && row@[j] == w;
                    }
                }
            }
            head = head + 1;
        }
        proof {
            let ts = m.tasks;
            let q = queue@;
            assert forall|u: usize, v: usize| q.contains(u) && #[trigger] rs[u as int].contains(v) implies q.contains(v) by {
                let j = choose|j: int| 0 <= j < q.len() && q[j] == u;
            }
            if reaches(m.edges, a, ts[target as int].id@) {
                let p = choose|p: Seq<Seq<char>>| #[trigger] is_chain(m.edges, p) && p[0] == a && p.last() == ts[target as int].id@;
                assert(ts[(from as int) as usize as int].id@ == p[0]);
                lemma_closed_holds_chain(ts, rs, m.edges, q, p, p.len() - 1);
                let u = choose|u: usize| q.contains(u) && #[trigger] ts[u as int].id@ == p[p.len() - 1];
                let j = choose|j: int| 0 <= j < q.len() && q[j] == u;
                lemma_sorted_unique(ts, u as int, target as int);
            }
        }
        false
    }

    /// Check whether `task_id` may gain a dependency on `depends_on_id`.
    ///
    /// # Errors
    /// Returns an error if either task is missing, the edge is a self edge, the task has
    /// already started, or the edge would create a cycle; the first of these checks that
    /// fails decides the error.
    pub fn check_new_dependency(&self, task_id: &str, depends_on_id: &str) -> (r: Result<()>)
        ensures
            self@.valid(),
            r is Ok <==> self@.dependency_allowed(task_id@, depends_on_id@),
            dependency_refused(self@, task_id@, depends_on_id@, r),
    {
        proof {
            use_type_invariant(self);
            self.lemma_view_valid();
        }
        let task = self.task(task_id)?;
        self.task(depends_on_id)?;
        Dependency::new(task_id.to_owned(), depends_on_id.to_owned())?;
        task.require_editable_dependencies()?;
        let from = position(&self.tasks, depends_on_id);
        let target = position(&self.tasks, task_id);
        match (from, target) {
            (Some(f), Some(t)) => {
                proof {
                    assert(self@.tasks[f as int] == *self.tasks@[f as int]);
                    assert(self@.tasks[t as int] == *self.tasks@[t as int]);
                }
                if self.reaches(f, t) {
                    return Err(
                        Error::Invalid(
                            concat5(
                                "task ",
                                task_id,
                                " cannot depend on ",
                                depends_on_id,
                                ": it would create a cycle",
                            ),
                        ),
                    );
                }
                Ok(())
            },
            _ => {
                proof {
                    let m = self@;
                    let i = choose|i: int| 0 <= i < m.tasks.len() && #[trigger] m.tasks[i].id@ == depends_on_id@;
                    let j = choose|j: int| 0 <= j < m.tasks.len() && #[trigger] m.tasks[j].id@ == task_id@;
                    assert(m.tasks[i] == *self.tasks@[i]);
                    assert(m.tasks[j] == *self.tasks@[j]);
                }
                Ok(())
            },
        }
    }
}

/// A chain that comes back to where it started makes the graph cyclic: the tasks along it
/// form a stuck set.
pub proof fn lemma_cycle_is_stuck(edges: Set<IdEdge>, p: Seq<Seq<char>>)
    requires
        is_chain(edges, p),
        p.len() >= 2,
        p[0] == p.last(),
    ensures
        !acyclic(edges),
{
    let s = p.to_set();
    assert(s.contains(p[0]));
    assert forall|x: Seq<char>| s.contains(x) implies exists|y: Seq<char>|
        #![trigger s.contains(y)]
        s.contains(y) && edges.contains((x, y)) by {
        lemma_cycle_step(edges, p, x);
    }
    assert(stuck(edges, s));
}

/// Every task on a closed chain is followed on it by one it requires.
proof fn lemma_cycle_step(edges: Set<IdEdge>, p: Seq<Seq<char>>, x: Seq<char>)
    requires
        is_chain(edges, p),
        p.len() >= 2,
        p[0] == p.last(),
        p.to_set().contains(x),
    ensures
        exists|y: Seq<char>| #![trigger p.to_set().contains(y)] p.to_set().contains(y) && edges.contains((x, y)),
{
    let i = choose|i: int| 0 <= i < p.len() && p[i] == x;
    let j = if i < p.len() - 1 { i + 1 } else { 1 };
    if i < p.len() - 1 {
        assert(edges.contains((p[i], p[i + 1])));
    } else {
        assert(p[i] == p[0]);
        assert(edges.contains((p[0], p[1])));
    }
    assert(p.contains(p[j]));
    assert(p.to_set().contains(p[j]));
}

/// In a dependency order every prerequisite comes before the task that requires it.
pub proof fn lemma_prerequisites_come_first(m: DagModel, ord: Seq<Seq<char>>, p: int, q: int)
    requires
        m.dependency_order(ord),
        0 <= p < ord.len(),
        0 <= q < ord.len(),
        m.depends_on(ord[p], ord[q]),
    ensures
        q < p,
{
    let rel = choose|rel: Seq<int>| #[trigger] released_in_order(m.edges, ord, rel);
    assert(released_at(m.edges, ord, p, rel[p]));
}

/// Adding the edge `a -> b` to an acyclic graph keeps it acyclic unless `b` already
/// depends on `a`, directly or not.
pub proof fn lemma_new_edge_keeps_acyclic(edges: Set<IdEdge>, a: Seq<char>, b: Seq<char>)
    requires
        acyclic(edges),
        !reaches(edges, b, a),
    ensures
        acyclic(edges.insert((a, b))),
{
    let e2 = edges.insert((a, b));
    assert forall|s: Set<Seq<char>>| !stuck(e2, s) by {
        if stuck(e2, s) {
            assert(!stuck(edges, s));
            let x = choose|x: Seq<char>|
                s.contains(x) && !(exists|y: Seq<char>| #![trigger s.contains(y)] s.contains(y) && edges.contains((x, y)));
            let y = choose|y: Seq<char>| #![trigger s.contains(y)] s.contains(y) && e2.contains((x, y));
            assert(x == a && y == b);
            lemma_reaches_self(edges, b);
            let r = Set::new(|z: Seq<char>| s.contains(z) && reaches(edges, b, z));
            assert(r.contains(b));
            assert forall|u: Seq<char>| r.contains(u) implies exists|z: Seq<char>|
                #![trigger r.contains(z)]
                r.contains(z) && edges.contains((u, z)) by {
                let z = choose|z: Seq<char>| #![trigger s.contains(z)] s.contains(z) && e2.contains((u, z));
                assert(u != a);
                assert(edges.contains((u, z)));
                lemma_reaches_step(edges, b, u, z);
                assert(r.contains(z));
            }
            assert(stuck(edges, r));
        }
    }
}

/// Adding the edge `a -> b` when `b` already depends on `a`, directly or not, closes a
/// cycle.
pub proof fn lemma_new_edge_closes_cycle(edges: Set<IdEdge>, a: Seq<char>, b: Seq<char>)
    requires
        reaches(edges, b, a),
    ensures
        !acyclic(edges.insert((a, b))),
{
    let e2 = edges.insert((a, b));
    let p = choose|p: Seq<Seq<char>>| #[trigger] is_chain(edges, p) && p[0] == b && p.last() == a;
    let q = p.push(b);
    assert forall|i: int| 0 <= i < q.len() - 1 implies e2.contains((#[trigger] q[i], q[i + 1])) by {
        if i < p.len() - 1 {
            assert(q[i] == p[i] && q[i + 1] == p[i + 1]);
            assert(edges.contains((p[i], p[i + 1])));
        }
    }
    assert(is_chain(e2, q));
    lemma_cycle_is_stuck(e2, q);
}

/// A dependency that `check_new_dependency` accepts can be recorded: `Dag::new` accepts the
/// same tasks with the dependency added to the edges.
pub proof fn lemma_allowed_dependency_builds(
    m: DagModel,
    tasks: Seq<Task>,
    edges: Seq<Dependency>,
    dep: Dependency,
)
    requires
        m.valid(),
        same_tasks(m.tasks, tasks),
        m.edges == edge_set(edges),
        unique_ids_upto(tasks, tasks.len() as int),
        edges_fit(tasks, edges),
        m.dependency_allowed(dep.task_id@, dep.depends_on_id@),
    ensures
        unique_ids_upto(tasks, tasks.len() as int),
        edges_fit(tasks, edges.push(dep)),
        acyclic(edge_set(edges.push(dep))),
{
    let a = dep.task_id@;
    let b = dep.depends_on_id@;
    let e2 = edges.push(dep);
    assert forall|k: int| 0 <= k < e2.len() implies edge_fits(tasks, #[trigger] e2[k]) by {
        if k < edges.len() {
            assert(e2[k] == edges[k]);
        } else {
            lemma_same_ids(m.tasks, tasks, a);
            lemma_same_ids(m.tasks, tasks, b);
        }
    }
    lemma_edge_set_push(edges, dep);
    lemma_new_edge_keeps_acyclic(m.edges, a, b);
}

/// An order of distinct IDs of the graph's tasks, as long as its list of tasks, names every
/// task.
proof fn lemma_order_covers(m: DagModel, ord: Seq<Seq<char>>, id: Seq<char>)
    requires
        m.valid(),
        ord.len() == m.tasks.len(),
        ord.no_duplicates(),
        forall|i: int| 0 <= i < ord.len() ==> m.has(#[trigger] ord[i]),
        m.has(id),
    ensures
        ord.contains(id),
{
    broadcast use vstd::seq_lib::seq_to_set_is_finite;

    let ids = ids_of(m.tasks);
    let a = ord.to_set();
    let b = ids.to_set();
    ord.unique_seq_to_set();
    assert(ids.no_duplicates()) by {
        assert forall|i: int, j: int| 0 <= i < ids.len() && 0 <= j < ids.len() && i != j implies ids[i] != ids[j] by {
            if ids[i] == ids[j] {
                lemma_sorted_unique(m.tasks, i, j);
            }
        }
    }
    ids.unique_seq_to_set();
    assert forall|x: Seq<char>| a.contains(x) implies b.contains(x) by {
        let i = choose|i: int| 0 <= i < ord.len() && ord[i] == x;
        assert(m.has(ord[i]));
        let j = choose|j: int| 0 <= j < m.tasks.len() && #[trigger] m.tasks[j].id@ == x;
        assert(ids[j] == x);
    }
    vstd::set_lib::lemma_subset_equality(a, b);
    let j = choose|j: int| 0 <= j < m.tasks.len() && #[trigger] m.tasks[j].id@ == id;
    assert(ids[j] == id);
    assert(b.contains(id));
    assert(a.contains(id));
}

/// A task placed after the same prefix in two orders is released at the same position in
/// both, when in the first its prerequisites all lie within that prefix.
proof fn lemma_release_same(
    m: DagModel,
    o1: Seq<Seq<char>>,
    o2: Seq<Seq<char>>,
    k: int,
    p1: int,
    p2: int,
    r1: int,
    r2: int,
)
    requires
        m.valid(),
        m.dependency_order(o1),
        m.dependency_order(o2),
        0 <= k <= o1.len(),
        forall|t: int| 0 <= t < k ==> #[trigger] o1[t] == o2[t],
        0 <= p1 < o1.len(),
        0 <= p2 < o2.len(),
        o1[p1] == o2[p2],
        released_at(m.edges, o1, p1, r1),
        released_at(m.edges, o2, p2, r2),
        r1 < k,
    ensures
        r1 == r2,
{
    let x = o1[p1];
    if r2 != -1 {
        let y = o2[r2];
        assert(m.edges.contains((x, y)));
        assert(m.has(y));
        lemma_order_covers(m, o1, y);
        let q = choose|q: int| 0 <= q < o1.len() && o1[q] == y;
        assert(q <= r1);
        assert(o2[q] == o1[q]);
    }
    if r1 != -1 {
        assert(o2[r1] == o1[r1]);
        assert(m.edges.contains((o2[p2], o2[r1])));
    }
}

/// Two dependency orders agree on their first `k` entries.
proof fn lemma_order_prefix(m: DagModel, o1: Seq<Seq<char>>, o2: Seq<Seq<char>>, rel1: Seq<int>, rel2: Seq<int>, k: int)
    requires
        m.valid(),
        m.dependency_order(o1),
        m.dependency_order(o2),
        released_in_order(m.edges, o1, rel1),
        released_in_order(m.edges, o2, rel2),
        0 <= k <= o1.len(),
    ensures
        forall|t: int| 0 <= t < k ==> #[trigger] o1[t] == o2[t],
    decreases k,
{
    if k > 0 {
        lemma_order_prefix(m, o1, o2, rel1, rel2, k - 1);
        let t = k - 1;
        if o1[t] != o2[t] {
            let x = o1[t];
            let y = o2[t];
            lemma_order_covers(m, o2, x);
            lemma_order_covers(m, o1, y);
            let i = choose|i: int| 0 <= i < o2.len() && o2[i] == x;
            let j = choose|j: int| 0 <= j < o1.len() && o1[j] == y;
            if i < t {
                assert(o1[i] == o2[i]);
            }
            if j < t {
                assert(o1[j] == o2[j]);
            }
            assert(released_at(m.edges, o1, t, rel1[t]));
            assert(released_at(m.edges, o2, i, rel2[i]));
            assert(released_at(m.edges, o2, t, rel2[t]));
            assert(released_at(m.edges, o1, j, rel1[j]));
            lemma_release_same(m, o1, o2, t, t, i, rel1[t], rel2[i]);
            lemma_release_same(m, o2, o1, t, t, j, rel2[t], rel1[j]);
            assert(rel1[t] < rel1[j] || (rel1[t] == rel1[j] && id_lt(x, y)));
            assert(rel2[t] < rel2[i] || (rel2[t] == rel2[i] && id_lt(y, x)));
            lemma_id_lt_asymmetric(x, y);
        }
    }
}

/// The dependency order is unique: only one order lists the tasks each after its
/// prerequisites, in order of the position of the last prerequisite and then of ID. So
/// `topological_order` has one possible result.
pub proof fn lemma_dependency_order_unique(m: DagModel, o1: Seq<Seq<char>>, o2: Seq<Seq<char>>)
    requires
        m.valid(),
        m.dependency_order(o1),
        m.dependency_order(o2),
    ensures
        o1 == o2,
{
    let rel1 = choose|rel: Seq<int>| #[trigger] released_in_order(m.edges, o1, rel);
    let rel2 = choose|rel: Seq<int>| #[trigger] released_in_order(m.edges, o2, rel);
    lemma_order_prefix(m, o1, o2, rel1, rel2, o1.len() as int);
    assert(o1 =~= o2);
}

/// A dependency order lists every task of the graph exactly once.
pub proof fn lemma_order_lists_every_task(m: DagModel, ord: Seq<Seq<char>>, id: Seq<char>)
    requires
        m.valid(),
        m.dependency_order(ord),
    ensures
        ord.no_duplicates(),
        m.has(id) <==> ord.contains(id),
{
    if m.has(id) {
        lemma_order_covers(m, ord, id);
    }
    if ord.contains(id) {
        let i = choose|i: int| 0 <= i < ord.len() && ord[i] == id;
        assert(m.has(ord[i]));
    }
}

/// Adding a dependency to a list adds its edge to the edge set.
proof fn lemma_edge_set_push(edges: Seq<Dependency>, dep: Dependency)
    ensures
        edge_set(edges.push(dep)) == edge_set(edges).insert((dep.task_id@, dep.depends_on_id@)),
{
    let a = dep.task_id@;
    let b = dep.depends_on_id@;
    let e2 = edges.push(dep);
    assert forall|x: IdEdge| edge_set(e2).contains(x) implies edge_set(edges).insert((a, b)).contains(x) by {
        let k = choose|k: int| 0 <= k < e2.len() && x == (#[trigger] e2[k].task_id@, e2[k].depends_on_id@);
        if k < edges.len() {
            assert(e2[k] == edges[k]);
        }
    }
    assert forall|x: IdEdge| edge_set(edges).insert((a, b)).contains(x) implies edge_set(e2).contains(x) by {
        if x == (a, b) {
            assert(e2[edges.len() as int] == dep);
        } else {
            let k = choose|k: int| 0 <= k < edges.len() && x == (#[trigger] edges[k].task_id@, edges[k].depends_on_id@);
            assert(e2[k] == edges[k]);
        }
    }
    assert(edge_set(e2) =~= edge_set(edges).insert((a, b)));
}

/// The cycle refusal of `check_new_dependency` is never needless: when `b` already depends
/// on `a`, `Dag::new` refuses the edges with `a -> b` added.
pub proof fn lemma_cycle_refusal_needed(edges: Seq<Dependency>, dep: Dependency)
    requires
        reaches(edge_set(edges), dep.depends_on_id@, dep.task_id@),
    ensures
        !acyclic(edge_set(edges.push(dep))),
{
    lemma_edge_set_push(edges, dep);
    lemma_new_edge_closes_cycle(edge_set(edges), dep.task_id@, dep.depends_on_id@);
}

/// Two lists in strictly increasing ID order that hold the same tasks agree on their first
/// `k` entries.
proof fn lemma_sorted_prefix(a: Seq<Task>, b: Seq<Task>, k: int)
    requires
        sorted_by_id(a),
        sorted_by_id(b),
        same_tasks(a, b),
        0 <= k <= a.len(),
    ensures
        forall|i: int| 0 <= i < k ==> #[trigger] a[i] == b[i],
    decreases k,
{
    if k > 0 {
        lemma_sorted_prefix(a, b, k - 1);
        let i = k - 1;
        if a[i] != b[i] {
            assert(a.contains(a[i]));
            assert(b.contains(a[i]));
            let j = choose|j: int| 0 <= j < b.len() && b[j] == a[i];
            assert(b.contains(b[i]));
            assert(a.contains(b[i]));
            let j2 = choose|j2: int| 0 <= j2 < a.len() && a[j2] == b[i];
            if j < i {
                assert(a[j] == b[j]);
                lemma_sorted_unique(a, j, i);
            }
            if j2 < i {
                assert(a[j2] == b[j2]);
                lemma_sorted_unique(b, j2, i);
            }
            assert(id_lt(b[i].id@, b[j].id@));
            assert(id_lt(a[i].id@, a[j2].id@));
            lemma_id_lt_transitive(a[i].id@, a[j2].id@, a[i].id@);
            lemma_id_lt_irreflexive(a[i].id@);
        }
    }
}

/// A graph depends only on the sets of its tasks and edges: graphs built by `Dag::new` from
/// the same tasks in any order, and from edge lists naming the same edges in any order and
/// with any repeats, are equal, so every query and the dependency order agree.
pub proof fn lemma_graph_depends_only_on_sets(
    m1: DagModel,
    m2: DagModel,
    tasks1: Seq<Task>,
    tasks2: Seq<Task>,
    edges1: Seq<Dependency>,
    edges2: Seq<Dependency>,
)
    requires
        sorted_by_id(m1.tasks),
        same_tasks(m1.tasks, tasks1),
        m1.edges == edge_set(edges1),
        sorted_by_id(m2.tasks),
        same_tasks(m2.tasks, tasks2),
        m2.edges == edge_set(edges2),
        same_tasks(tasks1, tasks2),
        edge_set(edges1) == edge_set(edges2),
    ensures
        m1 == m2,
{
    assert(same_tasks(m1.tasks, m2.tasks));
    lemma_sorted_prefix(m1.tasks, m2.tasks, m1.tasks.len() as int);
    assert(m1.tasks =~= m2.tasks);
}

/// A task is ready exactly when the graph holds it, it is still todo, and every task it
/// directly depends on is done: a started, testing, finished or cancelled task is never
/// ready, whatever its prerequisites.
pub proof fn lemma_ready_is_todo_with_done_prerequisites(d: DagModel, t: Task)
    ensures
        d.ready().contains(t) <==> {
            &&& d.tasks.contains(t)
            &&& t.status == TaskStatus::Todo
            &&& forall|u: Task| #[trigger] d.tasks.contains(u) && d.edges.contains((t.id@, u.id@)) ==> u.status
                == TaskStatus::Done
        },
        d.ready_task(t) ==> t.status == TaskStatus::Todo,
{
    broadcast use vstd::seq_lib::group_filter_ensures;

    let pred = |x: Task| d.ready_task(x);
    if d.ready().contains(t) {
        let k = choose|k: int| 0 <= k < d.ready().len() && d.ready()[k] == t;
        d.tasks.lemma_filter_pred(pred, k);
        d.tasks.lemma_filter_contains_rev(pred, t);
        assert forall|u: Task| #[trigger] d.tasks.contains(u) && d.edges.contains((t.id@, u.id@)) implies u.status
            == TaskStatus::Done by {
            let i = choose|i: int| 0 <= i < d.tasks.len() && d.tasks[i] == u;
            assert(d.depends_on(t.id@, d.tasks[i].id@));
        }
    }
    if d.tasks.contains(t) && t.status == TaskStatus::Todo && forall|u: Task|
        #[trigger] d.tasks.contains(u) && d.edges.contains((t.id@, u.id@)) ==> u.status == TaskStatus::Done {
        let i = choose|i: int| 0 <= i < d.tasks.len() && d.tasks[i] == t;
        assert forall|j: int|
            0 <= j < d.tasks.len() && d.depends_on(t.id@, #[trigger] d.tasks[j].id@) implies d.tasks[j].status
                == TaskStatus::Done by {
            assert(d.tasks.contains(d.tasks[j]));
        }
        assert(pred(d.tasks[i]));
        d.tasks.lemma_filter_contains(pred, i);
    }
}

} // verus!
