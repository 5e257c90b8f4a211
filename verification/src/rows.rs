//! Records as stored: every field as text, timestamps in RFC 3339. Reading a row back
//! checks the stored text; writing a record and reading it back gives the record.

use crate::status::{GoalStatus, LinkKind, TaskStatus};
use crate::text::{concat4, debug_text, quoted};
use crate::time::{parse_timestamp, parsed_timestamp, print_timestamp, timestamp_text};
use crate::{is_invalid, Dependency, Error, Goal, Project, Result, Task, TaskLink};
use vstd::prelude::*;

verus! {

/// The refusal a stored timestamp earns when it does not parse.
pub open spec fn time_refused<T>(r: Result<T>, field: Seq<char>, text: Seq<char>) -> bool {
    is_invalid(r, "invalid "@ + field + " timestamp "@ + debug_text(text))
}

/// Read a stored timestamp.
///
/// # Errors
/// Returns an error naming the field and the text when it does not parse.
fn parse_time(field: &str, value: &str) -> (r: Result<jiff::Timestamp>)
    ensures
        r is Ok <==> parsed_timestamp(value@) is Some,
        r matches Ok(t) ==> parsed_timestamp(value@) == Some(t),
        parsed_timestamp(value@) is None ==> time_refused(r, field@, value@),
{
    match parse_timestamp(value) {
        Some(t) => Ok(t),
        None => {
            let q = quoted(value);
            Err(Error::Invalid(concat4("invalid ", field, " timestamp ", q.as_str())))
        },
    }
}

/// An optional stored timestamp parses: absent, or present and well-formed.
pub open spec fn optional_time_parses(text: Option<String>) -> bool {
    text matches Some(s) ==> parsed_timestamp(s@) is Some
}

/// The instant an optional stored timestamp reads back as.
pub open spec fn optional_time(text: Option<String>) -> Option<jiff::Timestamp> {
    match text {
        Some(s) => parsed_timestamp(s@),
        None => None,
    }
}

/// Read an optional stored timestamp.
///
/// # Errors
/// Returns an error naming the field and the text when it is present and does not parse.
fn parse_optional_time(field: &str, value: &Option<String>) -> (r: Result<Option<jiff::Timestamp>>)
    ensures
        r is Ok <==> optional_time_parses(*value),
        r matches Ok(t) ==> t == optional_time(*value),
        value matches Some(s) ==> (parsed_timestamp(s@) is None ==> time_refused(r, field@, s@)),
{
    match value {
        Some(text) => {
            let t = parse_time(field, text.as_str())?;
            Ok(Some(t))
        },
        None => Ok(None),
    }
}

/// The stored text of an optional instant, and that it reads back as the instant.
pub open spec fn stores_optional_time(text: Option<String>, t: Option<jiff::Timestamp>) -> bool {
    match t {
        Some(i) => text matches Some(s) && s@ == timestamp_text(i) && parsed_timestamp(s@) == Some(i),
        None => text is None,
    }
}

/// Print an optional instant.
fn print_optional_time(t: Option<jiff::Timestamp>) -> (r: Option<String>)
    ensures
        stores_optional_time(r, t),
{
    match t {
        Some(i) => Some(print_timestamp(i)),
        None => None,
    }
}

/// A copy of an optional string.
fn copy_text(value: &Option<String>) -> (r: Option<String>)
    ensures
        r == *value,
{
    match value {
        Some(s) => Some(s.clone()),
        None => None,
    }
}

/// The status a stored goal status text names, if any.
pub open spec fn goal_status_named(text: Seq<char>) -> Option<GoalStatus> {
    if exists|s: GoalStatus| #[trigger] s.text() == text {
        Some(choose|s: GoalStatus| #[trigger] s.text() == text)
    } else {
        None
    }
}

/// The status a stored task status text names, if any.
pub open spec fn task_status_named(text: Seq<char>) -> Option<TaskStatus> {
    if exists|s: TaskStatus| #[trigger] s.text() == text {
        Some(choose|s: TaskStatus| #[trigger] s.text() == text)
    } else {
        None
    }
}

/// The link kind a stored text names, if any.
pub open spec fn link_kind_named(text: Seq<char>) -> Option<LinkKind> {
    if exists|k: LinkKind| #[trigger] k.text() == text {
        Some(choose|k: LinkKind| #[trigger] k.text() == text)
    } else {
        None
    }
}

/// A stored project.
#[derive(Debug, Clone)]
pub struct ProjectRow {
    pub id: String,
    pub parent_id: Option<String>,
    pub slug: String,
    pub name: String,
    pub repo_path: Option<String>,
    pub repo_url: Option<String>,
    pub created_at: String,
}

impl ProjectRow {
    /// The row stores this project.
    pub open spec fn stores(self, p: Project) -> bool {
        &&& self.id == p.id
        &&& self.parent_id == p.parent_id
        &&& self.slug == p.slug
        &&& self.name == p.name
        &&& self.repo_path == p.repo_path
        &&& self.repo_url == p.repo_url
        &&& self.created_at@ == timestamp_text(p.created_at)
        &&& parsed_timestamp(self.created_at@) == Some(p.created_at)
    }

    /// The project the row reads back as, when its timestamp parses.
    pub open spec fn project(self) -> Option<Project> {
        match parsed_timestamp(self.created_at@) {
            Some(t) => Some(
                Project {
                    id: self.id,
                    parent_id: self.parent_id,
                    slug: self.slug,
                    name: self.name,
                    repo_path: self.repo_path,
                    repo_url: self.repo_url,
                    created_at: t,
                },
            ),
            None => None,
        }
    }

    /// The row that stores a project.
    pub fn from_project(project: &Project) -> (r: Self)
        ensures
            r.stores(*project),
    {
        ProjectRow {
            id: project.id.clone(),
            parent_id: copy_text(&project.parent_id),
            slug: project.slug.clone(),
            name: project.name.clone(),
            repo_path: copy_text(&project.repo_path),
            repo_url: copy_text(&project.repo_url),
            created_at: print_timestamp(project.created_at),
        }
    }

    /// Read the project back.
    ///
    /// # Errors
    /// Returns an error if the creation time does not parse.
    pub fn into_project(self) -> (r: Result<Project>)
        ensures
            r is Ok <==> self.project() is Some,
            r matches Ok(p) ==> self.project() == Some(p),
            self.project() is None ==> time_refused(r, "created_at"@, self.created_at@),
    {
        let created_at = parse_time("created_at", self.created_at.as_str())?;
        Ok(
            Project {
                created_at,
                id: self.id,
                parent_id: self.parent_id,
                slug: self.slug,
                name: self.name,
                repo_path: self.repo_path,
                repo_url: self.repo_url,
            },
        )
    }
}

/// A stored goal.
#[derive(Debug, Clone)]
pub struct GoalRow {
    pub id: String,
    pub project_id: String,
    pub parent_id: Option<String>,
    pub slug: String,
    pub title: String,
    pub description: String,
    pub spec: Option<String>,
    pub status: String,
    pub created_at: String,
    pub updated_at: String,
    pub completed_at: Option<String>,
}

impl GoalRow {
    /// The row stores this goal.
    pub open spec fn stores(self, g: Goal) -> bool {
        &&& self.id == g.id
        &&& self.project_id == g.project_id
        &&& self.parent_id == g.parent_id
        &&& self.slug == g.slug
        &&& self.title == g.title
        &&& self.description == g.description
        &&& self.spec == g.spec
        &&& self.status@ == g.status.text()
        &&& self.created_at@ == timestamp_text(g.created_at)
        &&& parsed_timestamp(self.created_at@) == Some(g.created_at)
        &&& self.updated_at@ == timestamp_text(g.updated_at)
        &&& parsed_timestamp(self.updated_at@) == Some(g.updated_at)
        &&& stores_optional_time(self.completed_at, g.completed_at)
    }

    /// The stored text reads back: a known status and well-formed timestamps.
    pub open spec fn readable(self) -> bool {
        &&& goal_status_named(self.status@) is Some
        &&& parsed_timestamp(self.created_at@) is Some
        &&& parsed_timestamp(self.updated_at@) is Some
        &&& optional_time_parses(self.completed_at)
    }

    /// The goal a readable row reads back as.
    pub open spec fn goal(self) -> Goal {
        Goal {
            id: self.id,
            project_id: self.project_id,
            parent_id: self.parent_id,
            slug: self.slug,
            title: self.title,
            description: self.description,
            spec: self.spec,
            status: goal_status_named(self.status@).unwrap(),
            created_at: parsed_timestamp(self.created_at@).unwrap(),
            updated_at: parsed_timestamp(self.updated_at@).unwrap(),
            completed_at: optional_time(self.completed_at),
        }
    }

    /// The row that stores a goal.
    pub fn from_goal(goal: &Goal) -> (r: Self)
        ensures
            r.stores(*goal),
    {
        GoalRow {
            id: goal.id.clone(),
            project_id: goal.project_id.clone(),
            parent_id: copy_text(&goal.parent_id),
            slug: goal.slug.clone(),
            title: goal.title.clone(),
            description: goal.description.clone(),
            spec: copy_text(&goal.spec),
            status: String::from_str(goal.status.as_str()),
            created_at: print_timestamp(goal.created_at),
            updated_at: print_timestamp(goal.updated_at),
            completed_at: print_optional_time(goal.completed_at),
        }
    }

    /// Read the goal back.
    ///
    /// # Errors
    /// Returns an error for the first field that does not read back, in the order status,
    /// creation, update, and completion time.
    pub fn into_goal(self) -> (r: Result<Goal>)
        ensures
            r is Ok <==> self.readable(),
            r matches Ok(g) ==> g == self.goal(),
            goal_status_named(self.status@) is None ==> is_invalid(
                r,
                "unknown GoalStatus: "@ + debug_text(self.status@),
            ),
            goal_status_named(self.status@) is Some && parsed_timestamp(self.created_at@) is None
                ==> time_refused(r, "created_at"@, self.created_at@),
            goal_status_named(self.status@) is Some && parsed_timestamp(self.created_at@) is Some
                && parsed_timestamp(self.updated_at@) is None ==> time_refused(
                r,
                "updated_at"@,
                self.updated_at@,
            ),
            goal_status_named(self.status@) is Some && parsed_timestamp(self.created_at@) is Some
                && parsed_timestamp(self.updated_at@) is Some ==> (self.completed_at matches Some(s)
                ==> (parsed_timestamp(s@) is None ==> time_refused(r, "completed_at"@, s@))),
    {
        let status = GoalStatus::parse(self.status.as_str())?;
        proof {
            crate::status::lemma_goal_text_distinct(status, goal_status_named(self.status@).unwrap());
        }
        let created_at = parse_time("created_at", self.created_at.as_str())?;
        let updated_at = parse_time("updated_at", self.updated_at.as_str())?;
        let completed_at = parse_optional_time("completed_at", &self.completed_at)?;
        Ok(
            Goal {
                status,
                created_at,
                updated_at,
                completed_at,
                id: self.id,
                project_id: self.project_id,
                parent_id: self.parent_id,
                slug: self.slug,
                title: self.title,
                description: self.description,
                spec: self.spec,
            },
        )
    }
}

/// A stored task.
#[derive(Debug, Clone)]
pub struct TaskRow {
    pub id: String,
    pub goal_id: String,
    pub title: String,
    pub body: String,
    pub test_plan: String,
    pub pr: Option<String>,
    pub status: String,
    pub created_at: String,
    pub updated_at: String,
    pub completed_at: Option<String>,
}

impl TaskRow {
    /// The row holds the given task, field for field.
    pub open spec fn stores(self, t: Task) -> bool {
        &&& self.id == t.id
        &&& self.goal_id == t.goal_id
        &&& self.title == t.title
        &&& self.body == t.body
        &&& self.test_plan == t.test_plan
        &&& self.pr == t.pr
        &&& self.status@ == t.status.text()
        &&& self.created_at@ == timestamp_text(t.created_at)
        &&& parsed_timestamp(self.created_at@) == Some(t.created_at)
        &&& self.updated_at@ == timestamp_text(t.updated_at)
        &&& parsed_timestamp(self.updated_at@) == Some(t.updated_at)
        &&& stores_optional_time(self.completed_at, t.completed_at)
    }

    /// The stored text reads back: a known status and well-formed timestamps.
    pub open spec fn readable(self) -> bool {
        &&& task_status_named(self.status@) is Some
        &&& parsed_timestamp(self.created_at@) is Some
        &&& parsed_timestamp(self.updated_at@) is Some
        &&& optional_time_parses(self.completed_at)
    }

    /// The task a readable row reads back as.
    pub open spec fn task(self) -> Task {
        Task {
            id: self.id,
            goal_id: self.goal_id,
            title: self.title,
            body: self.body,
            test_plan: self.test_plan,
            pr: self.pr,
            status: task_status_named(self.status@).unwrap(),
            created_at: parsed_timestamp(self.created_at@).unwrap(),
            updated_at: parsed_timestamp(self.updated_at@).unwrap(),
            completed_at: optional_time(self.completed_at),
        }
    }

    /// The row that stores a task.
    pub fn from_task(task: &Task) -> (r: Self)
        ensures
            r.stores(*task),
    {
        TaskRow {
            id: task.id.clone(),
            goal_id: task.goal_id.clone(),
            title: task.title.clone(),
            body: task.body.clone(),
            test_plan: task.test_plan.clone(),
            pr: copy_text(&task.pr),
            status: String::from_str(task.status.as_str()),
            created_at: print_timestamp(task.created_at),
            updated_at: print_timestamp(task.updated_at),
            completed_at: print_optional_time(task.completed_at),
        }
    }

    /// Read the task back.
    ///
    /// # Errors
    /// Returns an error for the first field that does not read back, in the order status,
    /// creation, update, and completion time.
    pub fn into_task(self) -> (r: Result<Task>)
        ensures
            r is Ok <==> self.readable(),
            r matches Ok(t) ==> t == self.task(),
            task_status_named(self.status@) is None ==> is_invalid(
                r,
                "unknown TaskStatus: "@ + debug_text(self.status@),
            ),
            task_status_named(self.status@) is Some && parsed_timestamp(self.created_at@) is None
                ==> time_refused(r, "created_at"@, self.created_at@),
            task_status_named(self.status@) is Some && parsed_timestamp(self.created_at@) is Some
                && parsed_timestamp(self.updated_at@) is None ==> time_refused(
                r,
                "updated_at"@,
                self.updated_at@,
            ),
            task_status_named(self.status@) is Some && parsed_timestamp(self.created_at@) is Some
                && parsed_timestamp(self.updated_at@) is Some ==> (self.completed_at matches Some(s)
                ==> (parsed_timestamp(s@) is None ==> time_refused(r, "completed_at"@, s@))),
    {
        let status = TaskStatus::parse(self.status.as_str())?;
        proof {
            crate::status::lemma_task_text_distinct(status, task_status_named(self.status@).unwrap());
        }
        let created_at = parse_time("created_at", self.created_at.as_str())?;
        let updated_at = parse_time("updated_at", self.updated_at.as_str())?;
        let completed_at = parse_optional_time("completed_at", &self.completed_at)?;
        Ok(
            Task {
                status,
                created_at,
                updated_at,
                completed_at,
                id: self.id,
                goal_id: self.goal_id,
                title: self.title,
                body: self.body,
                test_plan: self.test_plan,
                pr: self.pr,
            },
        )
    }
}

/// A stored dependency.
#[derive(Debug, Clone)]
pub struct DependencyRow {
    pub task_id: String,
    pub depends_on_id: String,
}

impl DependencyRow {
    /// The row that stores a dependency.
    pub fn from_dependency(dependency: &Dependency) -> (r: Self)
        ensures
            r.task_id == dependency.task_id,
            r.depends_on_id == dependency.depends_on_id,
    {
        DependencyRow {
            task_id: dependency.task_id.clone(),
            depends_on_id: dependency.depends_on_id.clone(),
        }
    }

    /// Read the dependency back, checking it as `Dependency::new` does.
    ///
    /// # Errors
    /// Returns an error if either ID is blank or both are the same task.
    pub fn into_dependency(self) -> (r: Result<Dependency>)
        ensures
            r is Ok <==> crate::task::dependency_ids_ok(self.task_id@, self.depends_on_id@),
            r is Ok ==> r == Ok::<Dependency, Error>(
                Dependency { task_id: self.task_id, depends_on_id: self.depends_on_id },
            ),
            crate::task::dependency_ids_refused(self.task_id@, self.depends_on_id@, r),
    {
        Dependency::new(self.task_id, self.depends_on_id)
    }
}

/// A stored task link.
#[derive(Debug, Clone)]
pub struct LinkRow {
    pub id: String,
    pub task_id: String,
    pub kind: String,
    pub reference: String,
    pub created_at: String,
}

impl LinkRow {
    /// The row stores this link.
    pub open spec fn stores(self, l: TaskLink) -> bool {
        &&& self.id == l.id
        &&& self.task_id == l.task_id
        &&& self.kind@ == l.kind.text()
        &&& self.reference == l.reference
        &&& self.created_at@ == timestamp_text(l.created_at)
        &&& parsed_timestamp(self.created_at@) == Some(l.created_at)
    }

    /// The stored text reads back: a known kind and a well-formed timestamp.
    pub open spec fn readable(self) -> bool {
        &&& link_kind_named(self.kind@) is Some
        &&& parsed_timestamp(self.created_at@) is Some
    }

    /// The link a readable row reads back as.
    pub open spec fn link(self) -> TaskLink {
        TaskLink {
            id: self.id,
            task_id: self.task_id,
            kind: link_kind_named(self.kind@).unwrap(),
            reference: self.reference,
            created_at: parsed_timestamp(self.created_at@).unwrap(),
        }
    }

    /// The row that stores a link.
    pub fn from_link(link: &TaskLink) -> (r: Self)
        ensures
            r.stores(*link),
    {
        LinkRow {
            id: link.id.clone(),
            task_id: link.task_id.clone(),
            kind: String::from_str(link.kind.as_str()),
            reference: link.reference.clone(),
            created_at: print_timestamp(link.created_at),
        }
    }

    /// Read the link back.
    ///
    /// # Errors
    /// Returns an error if the kind is unknown or, failing that, the creation time does not
    /// parse.
    pub fn into_link(self) -> (r: Result<TaskLink>)
        ensures
            r is Ok <==> self.readable(),
            r matches Ok(l) ==> l == self.link(),
            link_kind_named(self.kind@) is None ==> is_invalid(r, "unknown LinkKind: "@ + debug_text(self.kind@)),
            link_kind_named(self.kind@) is Some && parsed_timestamp(self.created_at@) is None ==> time_refused(
                r,
                "created_at"@,
                self.created_at@,
            ),
    {
        let kind = LinkKind::parse(self.kind.as_str())?;
        proof {
            crate::status::lemma_link_text_distinct(kind, link_kind_named(self.kind@).unwrap());
        }
        let created_at = parse_time("created_at", self.created_at.as_str())?;
        Ok(
            TaskLink {
                kind,
                created_at,
                id: self.id,
                task_id: self.task_id,
                reference: self.reference,
            },
        )
    }
}

/// Writing a record and reading it back gives the record: a row that stores a project,
/// goal, task, or link reads back as exactly that record.
pub proof fn lemma_rows_round_trip(
    pr: ProjectRow,
    p: Project,
    gr: GoalRow,
    g: Goal,
    tr: TaskRow,
    t: Task,
    lr: LinkRow,
    l: TaskLink,
)
    requires
        pr.stores(p),
        gr.stores(g),
        tr.stores(t),
        lr.stores(l),
    ensures
        pr.project() == Some(p),
        gr.readable() && gr.goal() == g,
        tr.readable() && tr.task() == t,
        lr.readable() && lr.link() == l,
{
    crate::status::lemma_text_forms_round_trip(g.status, t.status, l.kind);
    assert(g.status.text() == gr.status@);
    assert(t.status.text() == tr.status@);
    assert(l.kind.text() == lr.kind@);
    match g.completed_at {
        Some(i) => {},
        None => {},
    }
    match t.completed_at {
        Some(i) => {},
        None => {},
    }
}

} // verus!
