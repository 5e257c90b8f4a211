//! Tasks, the edges between them, and the external references attached to them.

use crate::project::{normalize, normalized};
use crate::text::{concat3, concat6, is_blank};
use crate::{blank_message, is_invalid, require_nonblank, Error, LinkKind, Result, TaskStatus};
use vstd::prelude::*;

verus! {

/// The basic unit of work. Belongs to a goal and may depend on tasks anywhere in its project.
///
/// Lifecycle: `todo → in_progress ⇄ testing → ready_for_merge → done`, with `cancelled`
/// reachable from any non-terminal state.
#[derive(Debug, Clone, PartialEq, Eq)]
pub struct Task {
    pub id: String,
    pub goal_id: String,
    pub title: String,
    pub body: String,
    /// The validation steps that prove the task complete. Free text, may be empty.
    pub test_plan: String,
    /// Link to the pull request that delivers the task, once one exists.
    pub pr: Option<String>,
    pub status: TaskStatus,
    pub created_at: jiff::Timestamp,
    pub updated_at: jiff::Timestamp,
    pub completed_at: Option<jiff::Timestamp>,
}

/// `task_id` requires `depends_on_id` to be done first.
#[derive(Debug, Clone, PartialEq, Eq, Hash)]
pub struct Dependency {
    pub task_id: String,
    pub depends_on_id: String,
}

/// An external reference attached to a task: a commit or a URL. The pull request that
/// delivers a task is a field on the task itself.
#[derive(Debug, Clone, PartialEq, Eq)]
pub struct TaskLink {
    pub id: String,
    pub task_id: String,
    pub kind: LinkKind,
    pub reference: String,
    pub created_at: jiff::Timestamp,
}

/// The steps of the task lifecycle: `todo → in_progress ⇄ testing → ready_for_merge →
/// done`, and `cancelled` from any open state. Nothing else moves a task.
pub open spec fn task_step(from: TaskStatus, to: TaskStatus) -> bool {
    ||| from == TaskStatus::Todo && to == TaskStatus::InProgress
    ||| from == TaskStatus::InProgress && to == TaskStatus::Testing
    ||| from == TaskStatus::Testing && to == TaskStatus::InProgress
    ||| from == TaskStatus::Testing && to == TaskStatus::ReadyForMerge
    ||| from == TaskStatus::ReadyForMerge && to == TaskStatus::Done
    ||| from.open() && to == TaskStatus::Cancelled
}

/// The message given when a task in `status` is asked to be `verb`.
pub open spec fn task_refusal(id: Seq<char>, status: TaskStatus, verb: Seq<char>) -> Seq<char> {
    "task "@ + id + " is "@ + status.text() + " and cannot be "@ + verb
}

impl Task {
    /// The task with a new status and update time, everything else kept.
    pub open spec fn moved(self, status: TaskStatus, now: jiff::Timestamp) -> Task {
        Task { status, updated_at: now, ..self }
    }

    /// Create a todo task.
    ///
    /// # Errors
    /// Returns an error if an ID or the title is blank; the first blank field, in the order
    /// id, goal id, title, decides the message.
    pub fn new(
        id: String,
        goal_id: String,
        title: String,
        body: String,
        test_plan: String,
        now: jiff::Timestamp,
    ) -> (r: Result<Self>)
        ensures
            is_blank(id@) ==> is_invalid(r, blank_message("id"@)),
            !is_blank(id@) && is_blank(goal_id@) ==> is_invalid(r, blank_message("goal id"@)),
            !is_blank(id@) && !is_blank(goal_id@) && is_blank(title@) ==> is_invalid(
                r,
                blank_message("title"@),
            ),
            !is_blank(id@) && !is_blank(goal_id@) && !is_blank(title@) ==> r == Ok::<
                Self,
                Error,
            >(
                Task {
                    id,
                    goal_id,
                    title,
                    body,
                    test_plan,
                    pr: None,
                    status: TaskStatus::Todo,
                    created_at: now,
                    updated_at: now,
                    completed_at: None,
                },
            ),
    {
        require_nonblank("id", id.as_str())?;
        require_nonblank("goal id", goal_id.as_str())?;
        require_nonblank("title", title.as_str())?;
        Ok(
            Task {
                id,
                goal_id,
                title,
                body,
                test_plan,
                pr: None,
                status: TaskStatus::Todo,
                created_at: now,
                updated_at: now,
                completed_at: None,
            },
        )
    }

    /// Replace the title of an open task. The command line's `task title` needs this; a
    /// title may not be blank, as at creation.
    ///
    /// # Errors
    /// Returns an error if the task is done or cancelled, or else if the title is blank.
    pub fn set_title(&mut self, title: String, now: jiff::Timestamp) -> (r: Result<()>)
        ensures
            r is Ok <==> old(self).status.open() && !is_blank(title@),
            !old(self).status.open() ==> is_invalid(
                r,
                task_refusal(old(self).id@, old(self).status, "retitled"@),
            ),
            old(self).status.open() && is_blank(title@) ==> is_invalid(r, blank_message("title"@)),
            r is Err ==> *final(self) == *old(self),
            r is Ok ==> *final(self) == (Task { title, updated_at: now, ..*old(self) }),
    {
        self.require_open("retitled")?;
        require_nonblank("title", title.as_str())?;
        self.title = title;
        self.updated_at = now;
        Ok(())
    }

    /// Replace the body of an open task. The command line's `task body` needs this; a body
    /// may be empty, as at creation.
    ///
    /// # Errors
    /// Returns an error if the task is done or cancelled.
    pub fn set_body(&mut self, body: String, now: jiff::Timestamp) -> (r: Result<()>)
        ensures
            r is Ok <==> old(self).status.open(),
            !old(self).status.open() ==> is_invalid(
                r,
                task_refusal(old(self).id@, old(self).status, "given a new body"@),
            ) && *final(self) == *old(self),
            old(self).status.open() ==> *final(self) == (Task { body, updated_at: now, ..*old(self) }),
    {
        self.require_open("given a new body")?;
        self.body = body;
        self.updated_at = now;
        Ok(())
    }

    /// Replace the test plan of an open task.
    ///
    /// # Errors
    /// Returns an error if the task is done or cancelled.
    pub fn set_test_plan(&mut self, test_plan: String, now: jiff::Timestamp) -> (r: Result<()>)
        ensures
            *final(self) == after_call(*old(self), TaskCall::SetTestPlan(test_plan), now),
            r is Ok <==> old(self).status.open(),
            !old(self).status.open() ==> is_invalid(
                r,
                task_refusal(old(self).id@, old(self).status, "given a test plan"@),
            ) && *final(self) == *old(self),
            old(self).status.open() ==> *final(self) == (Task {
                test_plan,
                updated_at: now,
                ..*old(self)
            }),
    {
        self.require_open("given a test plan")?;
        self.test_plan = test_plan;
        self.updated_at = now;
        Ok(())
    }

    /// Set or clear the pull request link of an open task. Blank text clears it.
    ///
    /// # Errors
    /// Returns an error if the task is done or cancelled.
    pub fn set_pr(&mut self, pr: Option<String>, now: jiff::Timestamp) -> (r: Result<()>)
        ensures
            *final(self) == after_call(*old(self), TaskCall::SetPr(pr), now),
            r is Ok <==> old(self).status.open(),
            !old(self).status.open() ==> is_invalid(
                r,
                task_refusal(old(self).id@, old(self).status, "given a pull request"@),
            ) && *final(self) == *old(self),
            old(self).status.open() ==> *final(self) == (Task {
                pr: normalized(pr),
                updated_at: now,
                ..*old(self)
            }),
    {
        self.require_open("given a pull request")?;
        self.pr = normalize(pr);
        self.updated_at = now;
        Ok(())
    }

    /// Begin work on a todo task whose dependencies are all done.
    ///
    /// # Errors
    /// Returns an error if the task is not todo or a dependency is unfinished.
    pub fn start(&mut self, dependencies_done: bool, now: jiff::Timestamp) -> (r: Result<()>)
        ensures
            *final(self) == after_call(*old(self), TaskCall::Start(dependencies_done), now),
            r is Ok <==> old(self).status == TaskStatus::Todo && dependencies_done,
            old(self).status != TaskStatus::Todo ==> is_invalid(
                r,
                task_refusal(old(self).id@, old(self).status, "started"@),
            ),
            old(self).status == TaskStatus::Todo && !dependencies_done ==> is_invalid(
                r,
                "task "@ + old(self).id@ + " has unfinished dependencies"@,
            ),
            r is Err ==> *final(self) == *old(self),
            r is Ok ==> *final(self) == old(self).moved(TaskStatus::InProgress, now),
            r is Ok ==> task_step(old(self).status, final(self).status),
    {
        self.require_status(TaskStatus::Todo, "started")?;
        if !dependencies_done {
            return Err(
                Error::Invalid(
                    concat3("task ", self.id.as_str(), " has unfinished dependencies"),
                ),
            );
        }
        self.transition(TaskStatus::InProgress, now);
        Ok(())
    }

    /// Hand an in-progress task over to validation against its test plan.
    ///
    /// # Errors
    /// Returns an error if the task is not in progress.
    pub fn begin_testing(&mut self, now: jiff::Timestamp) -> (r: Result<()>)
        ensures
            *final(self) == after_call(*old(self), TaskCall::BeginTesting, now),
            r is Ok <==> old(self).status == TaskStatus::InProgress,
            r is Err ==> is_invalid(r, task_refusal(old(self).id@, old(self).status, "tested"@))
                && *final(self) == *old(self),
            r is Ok ==> *final(self) == old(self).moved(TaskStatus::Testing, now),
            r is Ok ==> task_step(old(self).status, final(self).status),
    {
        self.require_status(TaskStatus::InProgress, "tested")?;
        self.transition(TaskStatus::Testing, now);
        Ok(())
    }

    /// Send a task that failed validation back to in progress.
    ///
    /// # Errors
    /// Returns an error if the task is not testing.
    pub fn fail_testing(&mut self, now: jiff::Timestamp) -> (r: Result<()>)
        ensures
            *final(self) == after_call(*old(self), TaskCall::FailTesting, now),
            r is Ok <==> old(self).status == TaskStatus::Testing,
            r is Err ==> is_invalid(r, task_refusal(old(self).id@, old(self).status, "failed"@))
                && *final(self) == *old(self),
            r is Ok ==> *final(self) == old(self).moved(TaskStatus::InProgress, now),
            r is Ok ==> task_step(old(self).status, final(self).status),
    {
        self.require_status(TaskStatus::Testing, "failed")?;
        self.transition(TaskStatus::InProgress, now);
        Ok(())
    }

    /// Record that validation passed; the task now waits to be merged.
    ///
    /// # Errors
    /// Returns an error if the task is not testing.
    pub fn pass_testing(&mut self, now: jiff::Timestamp) -> (r: Result<()>)
        ensures
            *final(self) == after_call(*old(self), TaskCall::PassTesting, now),
            r is Ok <==> old(self).status == TaskStatus::Testing,
            r is Err ==> is_invalid(r, task_refusal(old(self).id@, old(self).status, "passed"@))
                && *final(self) == *old(self),
            r is Ok ==> *final(self) == old(self).moved(TaskStatus::ReadyForMerge, now),
            r is Ok ==> task_step(old(self).status, final(self).status),
    {
        self.require_status(TaskStatus::Testing, "passed")?;
        self.transition(TaskStatus::ReadyForMerge, now);
        Ok(())
    }

    /// Mark a merged task done. Only a task that is ready for merge can finish.
    ///
    /// # Errors
    /// Returns an error if the task is not ready for merge.
    pub fn finish(&mut self, now: jiff::Timestamp) -> (r: Result<()>)
        ensures
            *final(self) == after_call(*old(self), TaskCall::Finish, now),
            r is Ok <==> old(self).status == TaskStatus::ReadyForMerge,
            r is Err ==> is_invalid(
                r,
                task_refusal(old(self).id@, old(self).status, "finished"@),
            ) && *final(self) == *old(self),
            r is Ok ==> *final(self) == (Task {
                completed_at: Some(now),
                ..old(self).moved(TaskStatus::Done, now)
            }),
            r is Ok ==> task_step(old(self).status, final(self).status),
    {
        self.require_status(TaskStatus::ReadyForMerge, "finished")?;
        self.transition(TaskStatus::Done, now);
        self.completed_at = Some(now);
        Ok(())
    }

    /// Cancel an open task. Tasks that depend on it stay blocked until they drop the
    /// dependency.
    ///
    /// # Errors
    /// Returns an error if the task is already done or cancelled.
    pub fn cancel(&mut self, now: jiff::Timestamp) -> (r: Result<()>)
        ensures
            *final(self) == after_call(*old(self), TaskCall::Cancel, now),
            r is Ok <==> old(self).status.open(),
            r is Err ==> is_invalid(
                r,
                task_refusal(old(self).id@, old(self).status, "cancelled"@),
            ) && *final(self) == *old(self),
            r is Ok ==> *final(self) == old(self).moved(TaskStatus::Cancelled, now),
            r is Ok ==> task_step(old(self).status, final(self).status),
    {
        self.require_open("cancelled")?;
        self.transition(TaskStatus::Cancelled, now);
        Ok(())
    }

    /// Dependencies may only change while a task has not started.
    ///
    /// # Errors
    /// Returns an error if the task is not todo.
    pub fn require_editable_dependencies(&self) -> (r: Result<()>)
        ensures
            r is Ok <==> self.status == TaskStatus::Todo,
            r is Err ==> is_invalid(
                r,
                task_refusal(self.id@, self.status, "given new dependencies"@),
            ),
    {
        self.require_status(TaskStatus::Todo, "given new dependencies")
    }

    /// Move to a new status, stamping the update time.
    fn transition(&mut self, status: TaskStatus, now: jiff::Timestamp)
        ensures
            *final(self) == old(self).moved(status, now),
    {
        self.status = status;
        self.updated_at = now;
    }

    /// Refuse unless the task is in the expected status.
    fn require_status(&self, expected: TaskStatus, verb: &str) -> (r: Result<()>)
        ensures
            r is Ok <==> self.status == expected,
            r is Err ==> is_invalid(r, task_refusal(self.id@, self.status, verb@)),
    {
        if self.status != expected {
            return Err(
                Error::Invalid(
                    concat6(
                        "task ",
                        self.id.as_str(),
                        " is ",
                        self.status.as_str(),
                        " and cannot be ",
                        verb,
                    ),
                ),
            );
        }
        Ok(())
    }

    /// Refuse once the task is done or cancelled.
    fn require_open(&self, verb: &str) -> (r: Result<()>)
        ensures
            r is Ok <==> self.status.open(),
            r is Err ==> is_invalid(r, task_refusal(self.id@, self.status, verb@)),
    {
        if !self.status.is_open() {
            return Err(
                Error::Invalid(
                    concat6(
                        "task ",
                        self.id.as_str(),
                        " is ",
                        self.status.as_str(),
                        " and cannot be ",
                        verb,
                    ),
                ),
            );
        }
        Ok(())
    }
}

impl Dependency {
    /// Describe an edge. Self-dependencies are rejected here; cycles are checked by
    /// [`crate::Dag`].
    ///
    /// # Errors
    /// Returns an error if either ID is blank or both are the same task.
    pub fn new(task_id: String, depends_on_id: String) -> (r: Result<Self>)
        ensures
            r is Ok <==> dependency_ids_ok(task_id@, depends_on_id@),
            dependency_ids_ok(task_id@, depends_on_id@) ==> r == Ok::<Self, Error>(
                Dependency { task_id, depends_on_id },
            ),
            dependency_ids_refused(task_id@, depends_on_id@, r),
    {
        require_nonblank("task id", task_id.as_str())?;
        require_nonblank("dependency id", depends_on_id.as_str())?;
        if task_id == depends_on_id {
            return Err(Error::Invalid("a task cannot depend on itself".to_string()));
        }
        Ok(Dependency { task_id, depends_on_id })
    }
}

/// A dependency may join these IDs: neither is blank and they differ.
pub open spec fn dependency_ids_ok(task_id: Seq<char>, depends_on_id: Seq<char>) -> bool {
    !is_blank(task_id) && !is_blank(depends_on_id) && task_id != depends_on_id
}

/// The refusal `Dependency::new` gives for IDs that may not be joined: the first blank ID,
/// else the self edge.
pub open spec fn dependency_ids_refused<T>(task_id: Seq<char>, depends_on_id: Seq<char>, r: Result<T>) -> bool {
    &&& is_blank(task_id) ==> is_invalid(r, blank_message("task id"@))
    &&& !is_blank(task_id) && is_blank(depends_on_id) ==> is_invalid(r, blank_message("dependency id"@))
    &&& !is_blank(task_id) && !is_blank(depends_on_id) && task_id == depends_on_id ==> is_invalid(
        r,
        "a task cannot depend on itself"@,
    )
}

/// What a link given on the command line points at: the commit when one is given, else the
/// URL (empty when neither is).
pub fn link_target(commit: Option<String>, url: Option<String>) -> (r: (LinkKind, String))
    ensures
        commit matches Some(c) ==> r == (LinkKind::Commit, c),
        commit is None ==> r.0 == LinkKind::Url && r.1@ == (match url {
            Some(u) => u@,
            None => Seq::<char>::empty(),
        }),
{
    match commit {
        Some(c) => (LinkKind::Commit, c),
        None => match url {
            Some(u) => (LinkKind::Url, u),
            None => (LinkKind::Url, String::new()),
        },
    }
}

impl TaskLink {
    /// Attach an external reference to a task.
    ///
    /// # Errors
    /// Returns an error if an ID or the reference is blank; the first blank field, in the
    /// order id, task id, reference, decides the message.
    pub fn new(
        id: String,
        task_id: String,
        kind: LinkKind,
        reference: String,
        now: jiff::Timestamp,
    ) -> (r: Result<Self>)
        ensures
            is_blank(id@) ==> is_invalid(r, blank_message("id"@)),
            !is_blank(id@) && is_blank(task_id@) ==> is_invalid(r, blank_message("task id"@)),
            !is_blank(id@) && !is_blank(task_id@) && is_blank(reference@) ==> is_invalid(
                r,
                blank_message("reference"@),
            ),
            !is_blank(id@) && !is_blank(task_id@) && !is_blank(reference@) ==> r == Ok::<
                Self,
                Error,
            >(TaskLink { id, task_id, kind, reference, created_at: now }),
    {
        require_nonblank("id", id.as_str())?;
        require_nonblank("task id", task_id.as_str())?;
        require_nonblank("reference", reference.as_str())?;
        Ok(TaskLink { id, task_id, kind, reference, created_at: now })
    }
}

/// Done and cancelled are terminal: no lifecycle step leaves them, and `done` is reached
/// only from `ready_for_merge`.
pub proof fn lemma_closed_tasks_are_terminal(from: TaskStatus, to: TaskStatus)
    ensures
        !from.open() ==> !task_step(from, to),
        task_step(from, to) && to == TaskStatus::Done ==> from == TaskStatus::ReadyForMerge,
        task_step(from, to) && to == TaskStatus::Cancelled ==> from.open(),
{
}

/// A task carries a completion time exactly when it is done.
pub open spec fn completion_tracks_done(t: Task) -> bool {
    (t.status == TaskStatus::Done) == (t.completed_at is Some)
}

/// Completion times stay honest: a new task has none, and every lifecycle step keeps the
/// time set exactly when the task is done. A step to `done` records the time (as `finish`
/// does); every other step only moves the status (as `start`, `begin_testing`,
/// `fail_testing`, `pass_testing` and `cancel` do).
pub proof fn lemma_completion_tracks_done(t: Task, to: TaskStatus, now: jiff::Timestamp)
    requires
        completion_tracks_done(t),
        task_step(t.status, to),
    ensures
        completion_tracks_done(
            if to == TaskStatus::Done {
                Task { completed_at: Some(now), ..t.moved(to, now) }
            } else {
                t.moved(to, now)
            },
        ),
{
}

/// A lifecycle or field-editing call on a task, with its argument.
pub enum TaskCall {
    Start(bool),
    BeginTesting,
    FailTesting,
    PassTesting,
    Finish,
    Cancel,
    SetPr(Option<String>),
    SetTestPlan(String),
}

/// The task after a call made at `now`: moved or edited when the call succeeds, unchanged
/// when it is refused.
pub open spec fn after_call(t: Task, call: TaskCall, now: jiff::Timestamp) -> Task {
    match call {
        TaskCall::Start(done) => if t.status == TaskStatus::Todo && done {
            t.moved(TaskStatus::InProgress, now)
        } else {
            t
        },
        TaskCall::BeginTesting => if t.status == TaskStatus::InProgress {
            t.moved(TaskStatus::Testing, now)
        } else {
            t
        },
        TaskCall::FailTesting => if t.status == TaskStatus::Testing {
            t.moved(TaskStatus::InProgress, now)
        } else {
            t
        },
        TaskCall::PassTesting => if t.status == TaskStatus::Testing {
            t.moved(TaskStatus::ReadyForMerge, now)
        } else {
            t
        },
        TaskCall::Finish => if t.status == TaskStatus::ReadyForMerge {
            Task { completed_at: Some(now), ..t.moved(TaskStatus::Done, now) }
        } else {
            t
        },
        TaskCall::Cancel => if t.status.open() {
            t.moved(TaskStatus::Cancelled, now)
        } else {
            t
        },
        TaskCall::SetPr(pr) => if t.status.open() {
            Task { pr: normalized(pr), updated_at: now, ..t }
        } else {
            t
        },
        TaskCall::SetTestPlan(test_plan) => if t.status.open() {
            Task { test_plan, updated_at: now, ..t }
        } else {
            t
        },
    }
}

/// The task after a sequence of calls, each made at its own time.
pub open spec fn after_calls(t: Task, calls: Seq<(TaskCall, jiff::Timestamp)>) -> Task
    decreases calls.len(),
{
    if calls.len() == 0 {
        t
    } else {
        after_call(after_calls(t, calls.drop_last()), calls.last().0, calls.last().1)
    }
}

/// Along any sequence of calls, each succeeding or refused, a task that starts with an
/// honest completion time (as every new task does) keeps it honest: the time is set exactly
/// when the task is done. Its ID, goal, title, body and creation time never change, and its
/// update time is either the one it started with or the time of a call.
pub proof fn lemma_task_calls_keep_identity(t: Task, calls: Seq<(TaskCall, jiff::Timestamp)>)
    requires
        completion_tracks_done(t),
    ensures
        completion_tracks_done(after_calls(t, calls)),
        after_calls(t, calls).id == t.id,
        after_calls(t, calls).goal_id == t.goal_id,
        after_calls(t, calls).title == t.title,
        after_calls(t, calls).body == t.body,
        after_calls(t, calls).created_at == t.created_at,
        after_calls(t, calls).updated_at == t.updated_at || exists|k: int|
            0 <= k < calls.len() && after_calls(t, calls).updated_at == #[trigger] calls[k].1,
    decreases calls.len(),
{
    if calls.len() > 0 {
        let rest = calls.drop_last();
        lemma_task_calls_keep_identity(t, rest);
        let u = after_calls(t, rest);
        let k = calls.len() - 1;
        assert(calls[k] == calls.last());
        if u.updated_at != t.updated_at && after_calls(t, calls).updated_at == u.updated_at {
            let j = choose|j: int| 0 <= j < rest.len() && u.updated_at == #[trigger] rest[j].1;
            assert(calls[j] == rest[j]);
        }
    }
}

} // verus!
