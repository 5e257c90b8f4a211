//! What the storage layer decides between reading rows and writing them back: how a field
//! changes, which tasks a query keeps, how references resolve, and the totals and details
//! shown to a reader. Reading and writing the database itself happens outside this crate.

use crate::dag::{dependency_refused, deref_tasks, ids_of, Dag};
use crate::project::normalized;
use crate::text::{concat2, concat3, concat4, concat5, debug_text, is_slug, quoted, same_text};
use crate::tree::{is_project_under, project_under};
use crate::{
    is_ambiguous, is_duplicate, is_invalid, is_not_found, Dependency, Error, Goal, Project, Result,
    Task, TaskLink, TaskStatus,
};
use vstd::prelude::*;

verus! {

/// How one optional text field should change in an update.
#[derive(Debug, Clone, PartialEq, Eq)]
pub enum Change {
    /// Leave the field as it is.
    Keep,
    /// Remove the value.
    Clear,
    /// Store this value; blank text clears instead.
    SetTo(String),
}

impl Default for Change {
    fn default() -> (r: Self)
        ensures
            r == Change::Keep,
    {
        Change::Keep
    }
}

/// The change a command line asks for: a new value wins, else the clear flag, else keep.
pub fn change(value: Option<String>, clear: bool) -> (r: Change)
    ensures
        r == (match value {
            Some(v) => Change::SetTo(v),
            None => if clear {
                Change::Clear
            } else {
                Change::Keep
            },
        }),
{
    match value {
        Some(v) => Change::SetTo(v),
        None => if clear {
            Change::Clear
        } else {
            Change::Keep
        },
    }
}

/// The value an optional field holds after a change: kept, cleared, or set to the
/// normalized new text.
pub open spec fn changed(current: Option<String>, change: Change) -> Option<String> {
    match change {
        Change::Keep => current,
        Change::Clear => None,
        Change::SetTo(v) => normalized(Some(v)),
    }
}

/// Change the repository path and URL a project is tied to.
pub fn apply_repo_change(project: &mut Project, path: Change, url: Change)
    ensures
        final(project).repo_path == changed(old(project).repo_path, path),
        final(project).repo_url == changed(old(project).repo_url, url),
        final(project).id == old(project).id,
        final(project).parent_id == old(project).parent_id,
        final(project).slug == old(project).slug,
        final(project).name == old(project).name,
        final(project).created_at == old(project).created_at,
{
    match path {
        Change::Keep => {},
        Change::Clear => project.set_repo_path(None),
        Change::SetTo(value) => project.set_repo_path(Some(value)),
    }
    match url {
        Change::Keep => {},
        Change::Clear => project.set_repo_url(None),
        Change::SetTo(value) => project.set_repo_url(Some(value)),
    }
}

/// Which tasks a graph query should return. Both fields are references, resolved like on the
/// command line; a goal given alongside a project must belong to it.
#[derive(Debug, Clone)]
pub struct TaskScope {
    pub project: Option<String>,
    pub goal: Option<String>,
}

impl Default for TaskScope {
    fn default() -> (r: Self)
        ensures
            r.project is None,
            r.goal is None,
    {
        TaskScope { project: None, goal: None }
    }
}

/// Optional narrowing for task listings.
#[derive(Debug, Clone)]
pub struct TaskFilter {
    pub scope: TaskScope,
    pub status: Option<TaskStatus>,
}

impl Default for TaskFilter {
    fn default() -> (r: Self)
        ensures
            r.scope.project is None,
            r.scope.goal is None,
            r.status is None,
    {
        TaskFilter { scope: TaskScope::default(), status: None }
    }
}

/// How many of the tasks have this status.
pub open spec fn count_status(tasks: Seq<Task>, status: TaskStatus) -> nat
    decreases tasks.len(),
{
    if tasks.len() == 0 {
        0
    } else {
        count_status(tasks.drop_last(), status) + if tasks.last().status == status {
            1nat
        } else {
            0nat
        }
    }
}

/// No status is counted more often than there are tasks.
proof fn lemma_count_bounded(tasks: Seq<Task>, status: TaskStatus)
    ensures
        count_status(tasks, status) <= tasks.len(),
    decreases tasks.len(),
{
    if tasks.len() > 0 {
        lemma_count_bounded(tasks.drop_last(), status);
    }
}

/// Task totals by status.
#[derive(Debug, Clone, Copy, PartialEq, Eq, Structural)]
pub struct TaskCounts {
    pub todo: usize,
    pub in_progress: usize,
    pub testing: usize,
    pub ready_for_merge: usize,
    pub done: usize,
    pub cancelled: usize,
}

impl Default for TaskCounts {
    fn default() -> (r: Self)
        ensures
            r == (TaskCounts {
                todo: 0,
                in_progress: 0,
                testing: 0,
                ready_for_merge: 0,
                done: 0,
                cancelled: 0,
            }),
    {
        TaskCounts { todo: 0, in_progress: 0, testing: 0, ready_for_merge: 0, done: 0, cancelled: 0 }
    }
}

impl TaskCounts {
    /// The totals these counts should hold for a list of tasks.
    pub open spec fn counts(self, tasks: Seq<Task>) -> bool {
        &&& self.todo == count_status(tasks, TaskStatus::Todo)
        &&& self.in_progress == count_status(tasks, TaskStatus::InProgress)
        &&& self.testing == count_status(tasks, TaskStatus::Testing)
        &&& self.ready_for_merge == count_status(tasks, TaskStatus::ReadyForMerge)
        &&& self.done == count_status(tasks, TaskStatus::Done)
        &&& self.cancelled == count_status(tasks, TaskStatus::Cancelled)
    }

    /// Count tasks by status.
    pub fn of(tasks: &[Task]) -> (r: Self)
        ensures
            r.counts(tasks@),
    {
        let mut counts = TaskCounts::default();
        let mut j: usize = 0;
        proof {
            assert(tasks@.take(0) =~= Seq::<Task>::empty());
        }
        while j < tasks.len()
            invariant
                j <= tasks@.len(),
                counts.counts(tasks@.take(j as int)),
            decreases tasks@.len() - j,
        {
            proof {
                let next = tasks@.take(j + 1);
                assert(next.drop_last() =~= tasks@.take(j as int));
                assert(next.last() == tasks@[j as int]);
                lemma_count_bounded(next, tasks@[j as int].status);
            }
            match tasks[j].status {
                TaskStatus::Todo => counts.todo = counts.todo + 1,
                TaskStatus::InProgress => counts.in_progress = counts.in_progress + 1,
                TaskStatus::Testing => counts.testing = counts.testing + 1,
                TaskStatus::ReadyForMerge => counts.ready_for_merge = counts.ready_for_merge + 1,
                TaskStatus::Done => counts.done = counts.done + 1,
                TaskStatus::Cancelled => counts.cancelled = counts.cancelled + 1,
            }
            j = j + 1;
        }
        proof {
            assert(tasks@.take(j as int) =~= tasks@);
        }
        counts
    }
}

/// An ASCII letter or digit: what the Crockford base32 alphabet of IDs is drawn from.
pub open spec fn is_id_char(c: char) -> bool {
    let u = c as u32;
    ||| 0x30 <= u <= 0x39
    ||| 0x41 <= u <= 0x5a
    ||| 0x61 <= u <= 0x7a
}

/// A user-typed ID fragment: non-empty, ASCII letters and digits only.
pub open spec fn is_id_fragment(s: Seq<char>) -> bool {
    &&& s.len() > 0
    &&& forall|i: int| 0 <= i < s.len() ==> is_id_char(#[trigger] s[i])
}

/// A character in ASCII upper case: `a` to `z` become `A` to `Z`, anything else is kept.
pub open spec fn ascii_upper(c: char) -> char {
    if 'a' <= c <= 'z' {
        ((c as u32) - 32) as char
    } else {
        c
    }
}

/// Text in ASCII upper case.
pub open spec fn ascii_upper_text(s: Seq<char>) -> Seq<char> {
    s.map_values(|c: char| ascii_upper(c))
}

/// A lower-case ASCII letter in upper case, as text.
fn upper_letter(c: char) -> (r: &'static str)
    requires
        'a' <= c <= 'z',
    ensures
        r@ == seq![ascii_upper(c)],
{
    match c {
        'a' => {
            proof {
                reveal_strlit("A");
            }
            "A"
        },
        'b' => {
            proof {
                reveal_strlit("B");
            }
            "B"
        },
        'c' => {
            proof {
                reveal_strlit("C");
            }
            "C"
        },
        'd' => {
            proof {
                reveal_strlit("D");
            }
            "D"
        },
        'e' => {
            proof {
                reveal_strlit("E");
            }
            "E"
        },
        'f' => {
            proof {
                reveal_strlit("F");
            }
            "F"
        },
        'g' => {
            proof {
                reveal_strlit("G");
            }
            "G"
        },
        'h' => {
            proof {
                reveal_strlit("H");
            }
            "H"
        },
        'i' => {
            proof {
                reveal_strlit("I");
            }
            "I"
        },
        'j' => {
            proof {
                reveal_strlit("J");
            }
            "J"
        },
        'k' => {
            proof {
                reveal_strlit("K");
            }
            "K"
        },
        'l' => {
            proof {
                reveal_strlit("L");
            }
            "L"
        },
        'm' => {
            proof {
                reveal_strlit("M");
            }
            "M"
        },
        'n' => {
            proof {
                reveal_strlit("N");
            }
            "N"
        },
        'o' => {
            proof {
                reveal_strlit("O");
            }
            "O"
        },
        'p' => {
            proof {
                reveal_strlit("P");
            }
            "P"
        },
        'q' => {
            proof {
                reveal_strlit("Q");
            }
            "Q"
        },
        'r' => {
            proof {
                reveal_strlit("R");
            }
            "R"
        },
        's' => {
            proof {
                reveal_strlit("S");
            }
            "S"
        },
        't' => {
            proof {
                reveal_strlit("T");
            }
            "T"
        },
        'u' => {
            proof {
                reveal_strlit("U");
            }
            "U"
        },
        'v' => {
            proof {
                reveal_strlit("V");
            }
            "V"
        },
        'w' => {
            proof {
                reveal_strlit("W");
            }
            "W"
        },
        'x' => {
            proof {
                reveal_strlit("X");
            }
            "X"
        },
        'y' => {
            proof {
                reveal_strlit("Y");
            }
            "Y"
        },
        'z' => {
            proof {
                reveal_strlit("Z");
            }
            "Z"
        },
        _ => {
            proof {
                assert(false);
            }
            ""
        },
    }
}

/// Text in ASCII upper case: `a` to `z` become `A` to `Z`, every other character is kept.
fn ascii_uppercase(s: &str) -> (r: String)
    ensures
        r@ == ascii_upper_text(s@),
{
    let mut out = String::new();
    let n = s.unicode_len();
    let mut i: usize = 0;
    while i < n
        invariant
            n == s@.len(),
            i <= n,
            out@ == ascii_upper_text(s@.take(i as int)),
        decreases n - i,
    {
        let c = s.get_char(i);
        let ghost before = out@;
        if 'a' <= c && c <= 'z' {
            out.append(upper_letter(c));
        } else {
            out.append(s.substring_char(i, i + 1));
        }
        proof {
            assert(s@.take(i + 1) =~= s@.take(i as int).push(c));
            assert(ascii_upper_text(s@.take(i + 1)) =~= ascii_upper_text(s@.take(i as int)).push(ascii_upper(c)));
            assert(out@ =~= before.push(ascii_upper(c)));
        }
        i = i + 1;
    }
    proof {
        assert(s@.take(n as int) =~= s@);
    }
    out
}

/// Whether the text is a non-empty run of ASCII letters and digits.
fn id_fragment_ok(s: &str) -> (r: bool)
    ensures
        r == is_id_fragment(s@),
{
    let n = s.unicode_len();
    if n == 0 {
        return false;
    }
    let mut i: usize = 0;
    while i < n
        invariant
            n == s@.len(),
            i <= n,
            forall|k: int| 0 <= k < i ==> is_id_char(#[trigger] s@[k]),
        decreases n - i,
    {
        let u = s.get_char(i) as u32;
        if !((0x30 <= u && u <= 0x39) || (0x41 <= u && u <= 0x5a) || (0x61 <= u && u <= 0x7a)) {
            return false;
        }
        i = i + 1;
    }
    true
}

/// Normalize a user-typed ID fragment. ULIDs are Crockford base32, so anything else is a typo.
///
/// Returns `LIKE` patterns for a prefix and a suffix match. A ULID starts with a millisecond
/// timestamp, so IDs created close together share a long prefix; the random tail is what a
/// person can type to tell them apart.
///
/// # Errors
/// Returns an error if the fragment is empty or holds anything but ASCII letters and digits.
pub fn id_patterns(reference: &str) -> (r: Result<(String, String)>)
    ensures
        r is Ok <==> is_id_fragment(reference@),
        !is_id_fragment(reference@) ==> is_invalid(r, debug_text(reference@) + " is not an ID fragment"@),
        r matches Ok((prefix, suffix)) ==> {
            &&& prefix@ == ascii_upper_text(reference@) + "%"@
            &&& suffix@ == "%"@ + ascii_upper_text(reference@)
        },
{
    if !id_fragment_ok(reference) {
        let q = quoted(reference);
        return Err(Error::Invalid(concat2(q.as_str(), " is not an ID fragment")));
    }
    let fragment = ascii_uppercase(reference);
    Ok((concat2(fragment.as_str(), "%"), concat2("%", fragment.as_str())))
}

/// The one row a lookup found.
///
/// # Errors
/// Returns `NotFound` when there is none and `Ambiguous` when there are several.
pub fn single<T>(rows: Vec<T>, kind: &str, reference: &str) -> (r: Result<T>)
    ensures
        r is Ok <==> rows@.len() == 1,
        rows@.len() == 1 ==> r == Ok::<T, Error>(rows@[0]),
        rows@.len() == 0 ==> is_not_found(r, kind@ + " "@ + reference@),
        rows@.len() > 1 ==> is_ambiguous(r, kind@ + " "@ + reference@),
{
    let mut rows = rows;
    if rows.len() == 0 {
        Err(Error::NotFound(concat3(kind, " ", reference)))
    } else if rows.len() == 1 {
        Ok(rows.remove(0))
    } else {
        Err(Error::Ambiguous(concat3(kind, " ", reference)))
    }
}

/// Some entry of the list has this text.
pub open spec fn holds_text(list: Seq<String>, text: Seq<char>) -> bool {
    exists|i: int| 0 <= i < list.len() && #[trigger] list[i]@ == text
}

/// Whether a list of strings holds this text.
pub(crate) fn contains_text(list: &Vec<String>, text: &str) -> (r: bool)
    ensures
        r == holds_text(list@, text@),
{
    let mut i: usize = 0;
    while i < list.len()
        invariant
            i <= list@.len(),
            forall|k: int| 0 <= k < i ==> #[trigger] list@[k]@ != text@,
        decreases list@.len() - i,
    {
        if same_text(list[i].as_str(), text) {
            return true;
        }
        i = i + 1;
    }
    false
}

/// A task is kept by a goal set (`None` keeps every goal) and an optional status.
pub open spec fn kept(keep: Option<Vec<String>>, status: Option<TaskStatus>, t: Task) -> bool {
    &&& keep matches Some(ids) ==> holds_text(ids@, t.goal_id@)
    &&& status matches Some(s) ==> t.status == s
}

/// The tasks whose goal is among `keep` (every task when `keep` is `None`) and, when a
/// status is given, that have it; in the order given.
pub fn select_tasks(tasks: Vec<Task>, keep: &Option<Vec<String>>, status: Option<TaskStatus>) -> (r: Vec<Task>)
    ensures
        r@ == tasks@.filter(|t: Task| kept(*keep, status, t)),
        status matches Some(s) ==> forall|k: int| 0 <= k < r@.len() ==> (#[trigger] r@[k]).status == s,
{
    proof {
        if let Some(s) = status {
            lemma_status_filter_holds(tasks@, *keep, s);
        }
    }
    let ghost pred = |t: Task| kept(*keep, status, t);
    let ghost all = tasks@;
    let n = tasks.len();
    let mut rest = tasks;
    let mut out: Vec<Task> = Vec::new();
    let mut j: usize = 0;
    proof {
        assert(all.take(0) =~= Seq::<Task>::empty());
        assert(rest@ =~= all.skip(0));
    }
    while rest.len() > 0
        invariant
            n == all.len(),
            j <= all.len(),
            rest@ == all.skip(j as int),
            out@ == all.take(j as int).filter(pred),
            pred == (|t: Task| kept(*keep, status, t)),
        decreases rest@.len(),
    {
        let t = rest.remove(0);
        let in_scope = match keep {
            Some(ids) => contains_text(ids, t.goal_id.as_str()),
            None => true,
        };
        let wanted = match status {
            Some(s) => t.status == s,
            None => true,
        };
        proof {
            assert(t == all[j as int]);
            assert(all.take(j + 1) =~= all.take(j as int).push(t));
            all.take(j as int).lemma_filter_push(t, pred);
            assert(rest@ =~= all.skip(j + 1));
        }
        if in_scope && wanted {
            out.push(t);
        }
        j = j + 1;
    }
    proof {
        assert(all.take(j as int) =~= all);
    }
    out
}

/// The goals whose IDs are listed, in their original order.
pub fn select_goals(goals: Vec<Goal>, keep: &Vec<String>) -> (r: Vec<Goal>)
    ensures
        r@ == goals@.filter(|g: Goal| holds_text(keep@, g.id@)),
{
    let ghost pred = |g: Goal| holds_text(keep@, g.id@);
    let ghost all = goals@;
    let n = goals.len();
    let mut rest = goals;
    let mut out: Vec<Goal> = Vec::new();
    let mut j: usize = 0;
    proof {
        assert(all.take(0) =~= Seq::<Goal>::empty());
        assert(rest@ =~= all.skip(0));
    }
    while rest.len() > 0
        invariant
            n == all.len(),
            j <= all.len(),
            rest@ == all.skip(j as int),
            out@ == all.take(j as int).filter(pred),
            pred == (|g: Goal| holds_text(keep@, g.id@)),
        decreases rest@.len(),
    {
        let g = rest.remove(0);
        let wanted = contains_text(keep, g.id.as_str());
        proof {
            assert(g == all[j as int]);
            assert(all.take(j + 1) =~= all.take(j as int).push(g));
            all.take(j as int).lemma_filter_push(g, pred);
            assert(rest@ =~= all.skip(j + 1));
        }
        if wanted {
            out.push(g);
        }
        j = j + 1;
    }
    proof {
        assert(all.take(j as int) =~= all);
    }
    out
}

/// A goal found for a scope that also names a project must lie in that project or beneath
/// it.
///
/// # Errors
/// Returns `NotFound` naming the goal reference and the project's slug otherwise.
pub fn check_goal_scope(projects: &[Project], goal: &Goal, project: Option<&Project>, reference: &str) -> (r: Result<()>)
    ensures
        r is Ok <==> (project matches Some(p) ==> project_under(projects@, goal.project_id@, p.id@, projects@.len())),
        project matches Some(p) ==> (!project_under(projects@, goal.project_id@, p.id@, projects@.len())
            ==> is_not_found(r, "goal "@ + reference@ + " in project "@ + p.slug@)),
{
    if let Some(p) = project {
        if !is_project_under(projects, goal.project_id.as_str(), p.id.as_str()) {
            return Err(Error::NotFound(concat4("goal ", reference, " in project ", p.slug.as_str())));
        }
    }
    Ok(())
}

/// `k` is the position of the last `/` in `s`.
pub open spec fn last_slash(s: Seq<char>, k: int) -> bool {
    &&& 0 <= k < s.len()
    &&& s[k] == '/'
    &&& forall|j: int| k < j < s.len() ==> s[j] != '/'
}

/// A `project/slug` goal reference split at its last `/`, so that the project part may be a
/// path such as `app/mobile`; `None` when it holds no `/`.
pub fn split_goal_reference(reference: &str) -> (r: Option<(String, String)>)
    ensures
        r is None <==> !reference@.contains('/'),
        r matches Some((project, slug)) ==> exists|k: int|
            #[trigger] last_slash(reference@, k) && project@ == reference@.take(k) && slug@ == reference@.skip(k + 1),
{
    let n = reference.unicode_len();
    let mut k: usize = n;
    while k > 0
        invariant
            n == reference@.len(),
            k <= n,
            forall|j: int| k <= j < n ==> reference@[j] != '/',
        decreases k,
    {
        if reference.get_char(k - 1) == '/' {
            let project = reference.substring_char(0, k - 1);
            let slug = reference.substring_char(k, n);
            proof {
                assert(last_slash(reference@, k - 1));
                assert(reference@.subrange(0, k - 1) =~= reference@.take(k - 1));
                assert(reference@.subrange(k as int, n as int) =~= reference@.skip(k as int));
                assert(reference@.contains('/'));
            }
            return Some((String::from_str(project), String::from_str(slug)));
        }
        k = k - 1;
    }
    proof {
        assert(!reference@.contains('/')) by {
            if reference@.contains('/') {
                let j = choose|j: int| 0 <= j < reference@.len() && reference@[j] == '/';
            }
        }
    }
    None
}

/// The goal a bare slug names, from the goals that carry it: `None` when none does (the
/// reference may then be an ID), the goal when one does.
///
/// # Errors
/// Returns `Ambiguous` when the slug is used in more than one project.
pub fn resolve_goal_slug(matches: Vec<Goal>, reference: &str) -> (r: Option<Result<Goal>>)
    ensures
        r is None <==> matches@.len() == 0,
        matches@.len() == 1 ==> r == Some(Ok::<Goal, Error>(matches@[0])),
        matches@.len() > 1 ==> (r matches Some(e) && is_ambiguous(
            e,
            "goal "@ + reference@ + " exists in more than one project; use PROJECT/"@ + reference@,
        )),
{
    if matches.len() == 0 {
        return None;
    }
    if matches.len() > 1 {
        return Some(
            Err(
                Error::Ambiguous(
                    concat4("goal ", reference, " exists in more than one project; use PROJECT/", reference),
                ),
            ),
        );
    }
    Some(single(matches, "goal", reference))
}

/// A new project's slug must not be taken; `taken` is how many projects already use it.
///
/// # Errors
/// Returns `Duplicate` when the slug is taken.
pub fn project_slug_free(taken: i64, slug: &str) -> (r: Result<()>)
    ensures
        r is Ok <==> taken == 0,
        taken != 0 ==> is_duplicate(r, "project "@ + slug@),
{
    if taken != 0 {
        return Err(Error::Duplicate(concat2("project ", slug)));
    }
    Ok(())
}

/// A new goal's slug must not be taken within its project; `taken` is how many goals of the
/// project already use it.
///
/// # Errors
/// Returns `Duplicate` naming `project/slug` when the slug is taken.
pub fn goal_slug_free(taken: i64, project_slug: &str, slug: &str) -> (r: Result<()>)
    ensures
        r is Ok <==> taken == 0,
        taken != 0 ==> is_duplicate(r, "goal "@ + project_slug@ + "/"@ + slug@),
{
    if taken != 0 {
        return Err(Error::Duplicate(concat4("goal ", project_slug, "/", slug)));
    }
    Ok(())
}

/// The dependency to record when `task` gains `depends_on`: both must lie under the same
/// root project (`task_root` and `dependency_root` are the roots above their goals'
/// projects, see `tree::root_project_id`), sub-projects included, and the graph must accept
/// the edge.
///
/// # Errors
/// Returns an error if the root projects differ, or the graph refuses the edge as
/// `Dag::check_new_dependency` does.
pub fn new_dependency(
    dag: &Dag,
    task: &Task,
    depends_on: &Task,
    task_root: &str,
    dependency_root: &str,
) -> (r: Result<Dependency>)
    ensures
        task_root@ != dependency_root@ ==> is_invalid(
            r,
            "task "@ + task.id@ + " cannot depend on "@ + depends_on.id@
                + ": they belong to different projects"@,
        ),
        task_root@ == dependency_root@ ==> {
            &&& r is Ok <==> dag@.dependency_allowed(task.id@, depends_on.id@)
            &&& dependency_refused(dag@, task.id@, depends_on.id@, r)
        },
        r matches Ok(d) ==> d.task_id@ == task.id@ && d.depends_on_id@ == depends_on.id@,
{
    if !same_text(task_root, dependency_root) {
        return Err(
            Error::Invalid(
                concat5(
                    "task ",
                    task.id.as_str(),
                    " cannot depend on ",
                    depends_on.id.as_str(),
                    ": they belong to different projects",
                ),
            ),
        );
    }
    match dag.check_new_dependency(task.id.as_str(), depends_on.id.as_str()) {
        Ok(()) => {},
        Err(e) => return Err(e),
    }
    Dependency::new(task.id.clone(), depends_on.id.clone())
}

/// The text each string of a list holds.
pub open spec fn texts(list: Seq<String>) -> Seq<Seq<char>> {
    list.map_values(|s: String| s@)
}

/// The IDs of a list of tasks, as new strings.
fn id_list(tasks: &Vec<&Task>) -> (r: Vec<String>)
    ensures
        texts(r@) == ids_of(deref_tasks(tasks@)),
{
    let mut out: Vec<String> = Vec::new();
    let mut j: usize = 0;
    while j < tasks.len()
        invariant
            j <= tasks@.len(),
            texts(out@) == ids_of(deref_tasks(tasks@)).take(j as int),
        decreases tasks@.len() - j,
    {
        let id = tasks[j].id.clone();
        proof {
            assert(texts(out@.push(id)) =~= texts(out@).push(id@));
            assert(ids_of(deref_tasks(tasks@)).take(j + 1) =~= ids_of(deref_tasks(tasks@)).take(j as int).push(
                tasks@[j as int].id@,
            ));
        }
        out.push(id);
        j = j + 1;
    }
    proof {
        assert(ids_of(deref_tasks(tasks@)).take(j as int) =~= ids_of(deref_tasks(tasks@)));
    }
    out
}

/// A task with everything a reader needs to act on it.
#[derive(Debug, Clone)]
pub struct TaskDetail {
    pub task: Task,
    /// Project path.
    pub project: String,
    /// Goal slug.
    pub goal: String,
    pub ready: bool,
    pub depends_on: Vec<String>,
    pub blocked_by: Vec<String>,
    pub dependents: Vec<String>,
    pub links: Vec<TaskLink>,
}

impl TaskDetail {
    /// The detail of a task: whether it is ready, and the IDs of its prerequisites, of
    /// those not yet done, and of the tasks that require it, each in ID order, as the graph
    /// says.
    pub fn new(task: Task, project: String, goal: String, links: Vec<TaskLink>, dag: &Dag) -> (r: Self)
        ensures
            r.task == task,
            r.project == project,
            r.goal == goal,
            r.links == links,
            r.ready == dag@.ready_task(task),
            texts(r.depends_on@) == ids_of(dag@.prerequisites(task.id@)),
            texts(r.blocked_by@) == ids_of(dag@.blockers(task.id@)),
            texts(r.dependents@) == ids_of(dag@.dependents(task.id@)),
    {
        let ready = dag.is_ready(&task);
        let depends_on = id_list(&dag.dependencies(task.id.as_str()));
        let blocked_by = id_list(&dag.blockers(task.id.as_str()));
        let dependents = id_list(&dag.dependents(task.id.as_str()));
        TaskDetail { task, project, goal, ready, depends_on, blocked_by, dependents, links }
    }
}

/// The tasks whose goal is one of the listed IDs.
pub open spec fn tasks_in(tasks: Seq<Task>, scope: Seq<String>) -> Seq<Task> {
    tasks.filter(|t: Task| holds_text(scope, t.goal_id@))
}

/// Count, by status, the tasks whose goal is one of the listed IDs.
fn counts_in(tasks: &[Task], scope: &Vec<String>) -> (r: TaskCounts)
    ensures
        r.counts(tasks_in(tasks@, scope@)),
{
    let ghost pred = |t: Task| holds_text(scope@, t.goal_id@);
    let mut counts = TaskCounts::default();
    let mut j: usize = 0;
    proof {
        assert(tasks@.take(0) =~= Seq::<Task>::empty());
    }
    while j < tasks.len()
        invariant
            j <= tasks@.len(),
            pred == (|t: Task| holds_text(scope@, t.goal_id@)),
            counts.counts(tasks@.take(j as int).filter(pred)),
        decreases tasks@.len() - j,
    {
        let t = &tasks[j];
        let ghost before = tasks@.take(j as int);
        proof {
            assert(tasks@.take(j + 1) =~= before.push(*t));
            before.lemma_filter_push(*t, pred);
            before.lemma_filter_len(pred);
            lemma_count_bounded(before.filter(pred), t.status);
            assert(before.filter(pred).push(*t).drop_last() =~= before.filter(pred));
        }
        if contains_text(scope, t.goal_id.as_str()) {
            match t.status {
                TaskStatus::Todo => counts.todo = counts.todo + 1,
                TaskStatus::InProgress => counts.in_progress = counts.in_progress + 1,
                TaskStatus::Testing => counts.testing = counts.testing + 1,
                TaskStatus::ReadyForMerge => counts.ready_for_merge = counts.ready_for_merge + 1,
                TaskStatus::Done => counts.done = counts.done + 1,
                TaskStatus::Cancelled => counts.cancelled = counts.cancelled + 1,
            }
        }
        j = j + 1;
    }
    proof {
        assert(tasks@.take(j as int) =~= tasks@);
    }
    counts
}

/// The goal sits directly inside the goal with this ID.
pub open spec fn subgoal_of(parent: Seq<char>, g: Goal) -> bool {
    g.parent_id matches Some(p) && p@ == parent
}

/// How many goals sit directly inside the goal with this ID.
fn count_subgoals(goals: &[Goal], parent: &str) -> (r: usize)
    ensures
        r == goals@.filter(|g: Goal| subgoal_of(parent@, g)).len(),
{
    let ghost pred = |g: Goal| subgoal_of(parent@, g);
    let mut n: usize = 0;
    let mut i: usize = 0;
    proof {
        assert(goals@.take(0) =~= Seq::<Goal>::empty());
    }
    while i < goals.len()
        invariant
            i <= goals@.len(),
            pred == (|g: Goal| subgoal_of(parent@, g)),
            n == goals@.take(i as int).filter(pred).len(),
        decreases goals@.len() - i,
    {
        let ghost before = goals@.take(i as int);
        proof {
            assert(goals@.take(i + 1) =~= before.push(goals@[i as int]));
            before.lemma_filter_push(goals@[i as int], pred);
            before.lemma_filter_len(pred);
        }
        let inside = match &goals[i].parent_id {
            Some(p) => same_text(p.as_str(), parent),
            None => false,
        };
        if inside {
            n = n + 1;
        }
        i = i + 1;
    }
    proof {
        assert(goals@.take(i as int) =~= goals@);
    }
    n
}

/// A goal with its project path, how many sub-goals sit directly inside it, and the task
/// totals of its subtree.
#[derive(Debug, Clone)]
pub struct GoalDetail {
    pub goal: Goal,
    /// Project path.
    pub project: String,
    pub subgoals: usize,
    pub tasks: TaskCounts,
}

impl GoalDetail {
    /// The detail of a goal, given its project's path, every goal, any list of tasks, and
    /// the IDs of the goals in its subtree (see `tree::scope_goal_ids`): only the tasks of
    /// those goals are counted.
    pub fn new(goal: Goal, project: String, goals: &[Goal], tasks: &[Task], scope: &Vec<String>) -> (r: Self)
        ensures
            r.goal == goal,
            r.project == project,
            r.subgoals == goals@.filter(|g: Goal| subgoal_of(goal.id@, g)).len(),
            r.tasks.counts(tasks_in(tasks@, scope@)),
    {
        let subgoals = count_subgoals(goals, goal.id.as_str());
        let tasks = counts_in(tasks, scope);
        GoalDetail { goal, project, subgoals, tasks }
    }
}

/// A project with its path, how many sub-projects and goals sit directly inside it, and the
/// task totals of its subtree.
#[derive(Debug, Clone)]
pub struct ProjectDetail {
    pub project: Project,
    pub path: String,
    pub subprojects: usize,
    pub goals: usize,
    pub tasks: TaskCounts,
}

/// The project sits directly inside the project with this ID.
pub open spec fn subproject_of(parent: Seq<char>, p: Project) -> bool {
    p.parent_id matches Some(q) && q@ == parent
}

/// The goal belongs directly to the project with this ID.
pub open spec fn goal_of_project(project: Seq<char>, g: Goal) -> bool {
    g.project_id@ == project
}

impl ProjectDetail {
    /// The detail of a project, given its path, every project and goal, any list of tasks,
    /// and the IDs of the goals in its subtree (see `tree::scope_goal_ids`): only the tasks
    /// of those goals are counted.
    pub fn new(
        project: Project,
        path: String,
        projects: &[Project],
        goals: &[Goal],
        tasks: &[Task],
        scope: &Vec<String>,
    ) -> (r: Self)
        ensures
            r.project == project,
            r.path == path,
            r.subprojects == projects@.filter(|p: Project| subproject_of(project.id@, p)).len(),
            r.goals == goals@.filter(|g: Goal| goal_of_project(project.id@, g)).len(),
            r.tasks.counts(tasks_in(tasks@, scope@)),
    {
        let ghost ppred = |p: Project| subproject_of(project.id@, p);
        let mut subprojects: usize = 0;
        let mut i: usize = 0;
        proof {
            assert(projects@.take(0) =~= Seq::<Project>::empty());
        }
        while i < projects.len()
            invariant
                i <= projects@.len(),
                ppred == (|p: Project| subproject_of(project.id@, p)),
                subprojects == projects@.take(i as int).filter(ppred).len(),
            decreases projects@.len() - i,
        {
            let ghost before = projects@.take(i as int);
            proof {
                assert(projects@.take(i + 1) =~= before.push(projects@[i as int]));
                before.lemma_filter_push(projects@[i as int], ppred);
                before.lemma_filter_len(ppred);
            }
            let inside = match &projects[i].parent_id {
                Some(q) => same_text(q.as_str(), project.id.as_str()),
                None => false,
            };
            if inside {
                subprojects = subprojects + 1;
            }
            i = i + 1;
        }
        proof {
            assert(projects@.take(i as int) =~= projects@);
        }
        let ghost gpred = |g: Goal| goal_of_project(project.id@, g);
        let mut own: usize = 0;
        let mut k: usize = 0;
        proof {
            assert(goals@.take(0) =~= Seq::<Goal>::empty());
        }
        while k < goals.len()
            invariant
                k <= goals@.len(),
                gpred == (|g: Goal| goal_of_project(project.id@, g)),
                own == goals@.take(k as int).filter(gpred).len(),
            decreases goals@.len() - k,
        {
            let ghost before = goals@.take(k as int);
            proof {
                assert(goals@.take(k + 1) =~= before.push(goals@[k as int]));
                before.lemma_filter_push(goals@[k as int], gpred);
                before.lemma_filter_len(gpred);
            }
            if same_text(goals[k].project_id.as_str(), project.id.as_str()) {
                own = own + 1;
            }
            k = k + 1;
        }
        proof {
            assert(goals@.take(k as int) =~= goals@);
        }
        let tasks = counts_in(tasks, scope);
        ProjectDetail { project, path, subprojects, goals: own, tasks }
    }
}

/// Every task is counted under exactly one status: the totals add up to the number of
/// tasks.
pub proof fn lemma_counts_cover_all(tasks: Seq<Task>)
    ensures
        count_status(tasks, TaskStatus::Todo) + count_status(tasks, TaskStatus::InProgress)
            + count_status(tasks, TaskStatus::Testing) + count_status(tasks, TaskStatus::ReadyForMerge)
            + count_status(tasks, TaskStatus::Done) + count_status(tasks, TaskStatus::Cancelled)
            == tasks.len(),
    decreases tasks.len(),
{
    if tasks.len() > 0 {
        lemma_counts_cover_all(tasks.drop_last());
    }
}

/// A slug never contains `/`, so a `project/goal` reference built from a project path and a
/// goal slug splits back into the two: its last `/` is the one after the project path.
pub proof fn lemma_slug_reference_splits(project: Seq<char>, goal: Seq<char>)
    requires
        is_slug(goal),
    ensures
        forall|k: int| last_slash(project + "/"@ + goal, k) <==> k == project.len(),
        (project + "/"@ + goal).take(project.len() as int) == project,
        (project + "/"@ + goal).skip(project.len() as int + 1) == goal,
{
    let r = project + "/"@ + goal;
    reveal_strlit("/");
    assert(r[project.len() as int] == '/');
    assert forall|j: int| project.len() < j < r.len() implies r[j] != '/' by {
        assert(r[j] == goal[j - project.len() - 1]);
        assert(crate::text::is_slug_char(goal[j - project.len() - 1]));
    }
    assert forall|k: int| last_slash(r, k) <==> k == project.len() by {
        if last_slash(r, k) && k != project.len() {
            if k > project.len() {
                assert(r[k] != '/');
            } else {
                assert(r[project.len() as int] == '/');
            }
        }
    }
    assert(r.take(project.len() as int) =~= project);
    assert(r.skip(project.len() as int + 1) =~= goal);
}

/// The tasks of a list kept by a goal set and an optional status, in order.
pub open spec fn selected(tasks: Seq<Task>, keep: Option<Vec<String>>, status: Option<TaskStatus>) -> Seq<Task> {
    tasks.filter(|t: Task| kept(keep, status, t))
}

/// A status filter holds whatever the scope: every task selected with status `s` has
/// status `s`, and every task of the list in scope with status `s` is selected.
pub proof fn lemma_status_filter_holds(tasks: Seq<Task>, keep: Option<Vec<String>>, s: TaskStatus)
    ensures
        forall|k: int|
            0 <= k < selected(tasks, keep, Some(s)).len() ==> (#[trigger] selected(tasks, keep, Some(s))[k]).status
                == s,
        forall|t: Task|
            tasks.contains(t) && t.status == s && (keep matches Some(ids) ==> holds_text(ids@, t.goal_id@))
                ==> #[trigger] selected(tasks, keep, Some(s)).contains(t),
{
    broadcast use vstd::seq_lib::group_filter_ensures;

    let pred = |t: Task| kept(keep, Some(s), t);
    assert forall|k: int| 0 <= k < tasks.filter(pred).len() implies (#[trigger] tasks.filter(pred)[k]).status == s by {
        tasks.lemma_filter_pred(pred, k);
    }
    assert forall|t: Task|
        tasks.contains(t) && t.status == s && (keep matches Some(ids) ==> holds_text(ids@, t.goal_id@)) implies #[trigger] tasks.filter(
            pred,
        ).contains(t) by {
        let i = choose|i: int| 0 <= i < tasks.len() && tasks[i] == t;
        tasks.lemma_filter_contains(pred, i);
    }
}
} // verus!
