//! Goals: the high-level outcomes a project is working towards.

use crate::project::{normalized, parent_blank};
use crate::text::{blank, concat5, concat6, is_blank, is_slug};
use crate::{
    blank_message, is_invalid, require_nonblank, slug_message, validate_slug, Error, GoalStatus,
    Result, Task,
};
use vstd::prelude::*;

verus! {

/// A high-level goal within a project. Tasks attach directly to it, and it may hold
/// sub-goals without limit. A spec is optional.
#[derive(Debug, Clone, PartialEq, Eq)]
pub struct Goal {
    pub id: String,
    pub project_id: String,
    /// The goal this one sits inside, if any. Always in the same project.
    pub parent_id: Option<String>,
    pub slug: String,
    pub title: String,
    pub description: String,
    /// A detailed specification of the goal, when one has been written.
    pub spec: Option<String>,
    pub status: GoalStatus,
    pub created_at: jiff::Timestamp,
    pub updated_at: jiff::Timestamp,
    pub completed_at: Option<jiff::Timestamp>,
}

/// Blank text means "no spec", so callers cannot store whitespace by accident.
fn normalize_spec(spec: Option<String>) -> (r: Option<String>)
    ensures
        r == normalized(spec),
{
    match spec {
        Some(text) => {
            if blank(text.as_str()) {
                None
            } else {
                Some(text)
            }
        },
        None => None,
    }
}

/// The steps of the goal lifecycle: `draft → active → complete`, `complete → active` when
/// more work turns up, and `cancelled` from draft or active.
pub open spec fn goal_step(from: GoalStatus, to: GoalStatus) -> bool {
    ||| from == GoalStatus::Draft && to == GoalStatus::Active
    ||| from == GoalStatus::Active && to == GoalStatus::Complete
    ||| from == GoalStatus::Complete && to == GoalStatus::Active
    ||| !from.closed() && to == GoalStatus::Cancelled
}

/// The message given when a goal in `status` is asked to be `verb`.
pub open spec fn goal_refusal(slug: Seq<char>, status: GoalStatus, verb: Seq<char>) -> Seq<
    char,
> {
    "goal "@ + slug + " is "@ + status.text() + " and cannot be "@ + verb
}

/// The message given when a closed goal is asked to change.
pub open spec fn goal_frozen(slug: Seq<char>, status: GoalStatus) -> Seq<char> {
    "goal "@ + slug + " is "@ + status.text() + " and cannot change"@
}

/// Index `k` holds the first task of the list that is still open.
pub open spec fn first_open_task(tasks: Seq<Task>, k: int) -> bool {
    &&& 0 <= k < tasks.len()
    &&& tasks[k].status.open()
    &&& forall|j: int| 0 <= j < k ==> !(#[trigger] tasks[j].status.open())
}

/// Index `k` holds the first goal of the list that is not closed.
pub open spec fn first_open_goal(goals: Seq<Goal>, k: int) -> bool {
    &&& 0 <= k < goals.len()
    &&& !goals[k].status.closed()
    &&& forall|j: int| 0 <= j < k ==> (#[trigger] goals[j].status).closed()
}

/// Every task in the list is done or cancelled.
pub open spec fn tasks_closed(tasks: Seq<Task>) -> bool {
    forall|i: int| 0 <= i < tasks.len() ==> !(#[trigger] tasks[i].status.open())
}

/// Every goal in the list is complete or cancelled.
pub open spec fn goals_closed(goals: Seq<Goal>) -> bool {
    forall|i: int| 0 <= i < goals.len() ==> (#[trigger] goals[i].status).closed()
}

/// The message naming a task that is still open.
pub open spec fn open_task_message(task: Task) -> Seq<char> {
    "task "@ + task.id@ + " ("@ + task.title@ + ") is still "@ + task.status.text()
}

/// The message naming a sub-goal that is still open.
pub open spec fn open_goal_message(goal: Goal) -> Seq<char> {
    "sub-goal "@ + goal.slug@ + " ("@ + goal.title@ + ") is still "@ + goal.status.text()
}

/// Whether a parent reference names the goal itself.
pub open spec fn parent_is(parent_id: Option<String>, id: String) -> bool {
    parent_id matches Some(p) && p@ == id@
}

impl Goal {
    /// The goal with a new status and update time, everything else kept.
    pub open spec fn moved(self, status: GoalStatus, now: jiff::Timestamp) -> Goal {
        Goal { status, updated_at: now, ..self }
    }

    /// Create a draft goal, optionally inside a parent goal of the same project.
    ///
    /// # Errors
    /// Returns an error if an ID is blank, the slug is malformed, the title is blank, or
    /// the parent is the goal itself. The first failing check, in the order id, project
    /// id, parent, slug, title, decides the message.
    #[allow(clippy::too_many_arguments)]
    pub fn new(
        id: String,
        project_id: String,
        parent_id: Option<String>,
        slug: String,
        title: String,
        description: String,
        spec: Option<String>,
        now: jiff::Timestamp,
    ) -> (r: Result<Self>)
        ensures
            is_blank(id@) ==> is_invalid(r, blank_message("id"@)),
            !is_blank(id@) && is_blank(project_id@) ==> is_invalid(
                r,
                blank_message("project id"@),
            ),
            !is_blank(id@) && !is_blank(project_id@) && parent_blank(parent_id) ==> is_invalid(
                r,
                blank_message("parent id"@),
            ),
            !is_blank(id@) && !is_blank(project_id@) && !parent_blank(parent_id) && parent_is(
                parent_id,
                id,
            ) ==> is_invalid(r, "a goal cannot be its own parent"@),
            !is_blank(id@) && !is_blank(project_id@) && !parent_blank(parent_id) && !parent_is(
                parent_id,
                id,
            ) && !is_slug(slug@) ==> is_invalid(r, slug_message(slug@)),
            !is_blank(id@) && !is_blank(project_id@) && !parent_blank(parent_id) && !parent_is(
                parent_id,
                id,
            ) && is_slug(slug@) && is_blank(title@) ==> is_invalid(r, blank_message("title"@)),
            !is_blank(id@) && !is_blank(project_id@) && !parent_blank(parent_id) && !parent_is(
                parent_id,
                id,
            ) && is_slug(slug@) && !is_blank(title@) ==> r == Ok::<Self, Error>(
                Goal {
                    id,
                    project_id,
                    parent_id,
                    slug,
                    title,
                    description,
                    spec: normalized(spec),
                    status: GoalStatus::Draft,
                    created_at: now,
                    updated_at: now,
                    completed_at: None,
                },
            ),
    {
        require_nonblank("id", id.as_str())?;
        require_nonblank("project id", project_id.as_str())?;
        if let Some(parent) = &parent_id {
            require_nonblank("parent id", parent.as_str())?;
            if *parent == id {
                return Err(Error::Invalid("a goal cannot be its own parent".to_string()));
            }
        }
        validate_slug(slug.as_str())?;
        require_nonblank("title", title.as_str())?;
        Ok(
            Goal {
                id,
                project_id,
                parent_id,
                slug,
                title,
                description,
                spec: normalize_spec(spec),
                status: GoalStatus::Draft,
                created_at: now,
                updated_at: now,
                completed_at: None,
            },
        )
    }

    /// Whether the goal can still change: gain tasks, sub-goals, a new spec, or a new status.
    ///
    /// # Errors
    /// Returns an error if the goal is complete or cancelled.
    pub fn require_open(&self) -> (r: Result<()>)
        ensures
            r is Ok <==> !self.status.closed(),
            r is Err ==> is_invalid(r, goal_frozen(self.slug@, self.status)),
    {
        match self.status {
            GoalStatus::Draft | GoalStatus::Active => Ok(()),
            status => Err(
                Error::Invalid(
                    concat5(
                        "goal ",
                        self.slug.as_str(),
                        " is ",
                        status.as_str(),
                        " and cannot change",
                    ),
                ),
            ),
        }
    }

    /// Replace or clear the spec of an open goal. Blank text clears it.
    ///
    /// # Errors
    /// Returns an error if the goal is complete or cancelled.
    pub fn set_spec(&mut self, spec: Option<String>, now: jiff::Timestamp) -> (r: Result<()>)
        ensures
            r is Ok <==> !old(self).status.closed(),
            r is Err ==> is_invalid(r, goal_frozen(old(self).slug@, old(self).status))
                && *final(self) == *old(self),
            r is Ok ==> *final(self) == (Goal {
                spec: normalized(spec),
                updated_at: now,
                ..*old(self)
            }),
    {
        self.require_open()?;
        self.spec = normalize_spec(spec);
        self.updated_at = now;
        Ok(())
    }

    /// Move a draft goal into active work.
    ///
    /// # Errors
    /// Returns an error if the goal is not draft.
    pub fn activate(&mut self, now: jiff::Timestamp) -> (r: Result<()>)
        ensures
            r is Ok <==> old(self).status == GoalStatus::Draft,
            r is Err ==> is_invalid(
                r,
                goal_refusal(old(self).slug@, old(self).status, "activated"@),
            ) && *final(self) == *old(self),
            r is Ok ==> *final(self) == old(self).moved(GoalStatus::Active, now),
            r is Ok ==> goal_step(old(self).status, final(self).status),
    {
        if self.status != GoalStatus::Draft {
            return Err(self.refusal("activated"));
        }
        self.status = GoalStatus::Active;
        self.updated_at = now;
        Ok(())
    }

    /// Complete an active goal whose own tasks are all finished and whose sub-goals are all
    /// closed. Because each sub-goal had to satisfy the same rule to close, this covers every
    /// task at any depth.
    ///
    /// # Errors
    /// Returns an error if the goal is not active, a task is still open, or a sub-goal is
    /// still open, checked in that order.
    pub fn complete(&mut self, tasks: &[Task], subgoals: &[Goal], now: jiff::Timestamp) -> (r:
        Result<()>)
        ensures
            r is Ok <==> old(self).status == GoalStatus::Active && tasks_closed(tasks@)
                && goals_closed(subgoals@),
            old(self).status != GoalStatus::Active ==> is_invalid(
                r,
                goal_refusal(old(self).slug@, old(self).status, "completed"@),
            ),
            forall|k: int|
                old(self).status == GoalStatus::Active && first_open_task(tasks@, k) ==> is_invalid(
                    r,
                    open_task_message(#[trigger] tasks@[k]),
                ),
            forall|k: int|
                old(self).status == GoalStatus::Active && tasks_closed(tasks@) && first_open_goal(
                    subgoals@,
                    k,
                ) ==> is_invalid(r, open_goal_message(#[trigger] subgoals@[k])),
            r is Err ==> *final(self) == *old(self),
            r is Ok ==> *final(self) == (Goal {
                completed_at: Some(now),
                ..old(self).moved(GoalStatus::Complete, now)
            }),
            r is Ok ==> goal_step(old(self).status, final(self).status),
    {
        if self.status != GoalStatus::Active {
            return Err(self.refusal("completed"));
        }
        require_children_closed(tasks, subgoals)?;
        self.status = GoalStatus::Complete;
        self.updated_at = now;
        self.completed_at = Some(now);
        Ok(())
    }

    /// Reopen a complete goal so more tasks can be added to it. The completion time is
    /// cleared; the goal completes again once the new work is finished.
    ///
    /// # Errors
    /// Returns an error if the goal is not complete.
    pub fn reopen(&mut self, now: jiff::Timestamp) -> (r: Result<()>)
        ensures
            r is Ok <==> old(self).status == GoalStatus::Complete,
            r is Err ==> is_invalid(
                r,
                goal_refusal(old(self).slug@, old(self).status, "reopened"@),
            ) && *final(self) == *old(self),
            r is Ok ==> *final(self) == (Goal {
                completed_at: None,
                ..old(self).moved(GoalStatus::Active, now)
            }),
            r is Ok ==> goal_step(old(self).status, final(self).status),
    {
        if self.status != GoalStatus::Complete {
            return Err(self.refusal("reopened"));
        }
        self.status = GoalStatus::Active;
        self.updated_at = now;
        self.completed_at = None;
        Ok(())
    }

    /// Cancel a draft or active goal whose sub-goals are all closed. Its own tasks may stay
    /// open; cancelling never invalidates finished work silently.
    ///
    /// # Errors
    /// Returns an error if the goal is already closed or a sub-goal is still open, checked
    /// in that order.
    pub fn cancel(&mut self, subgoals: &[Goal], now: jiff::Timestamp) -> (r: Result<()>)
        ensures
            r is Ok <==> !old(self).status.closed() && goals_closed(subgoals@),
            old(self).status.closed() ==> is_invalid(
                r,
                goal_frozen(old(self).slug@, old(self).status),
            ),
            forall|k: int|
                !old(self).status.closed() && first_open_goal(subgoals@, k) ==> is_invalid(
                    r,
                    open_goal_message(#[trigger] subgoals@[k]),
                ),
            r is Err ==> *final(self) == *old(self),
            r is Ok ==> *final(self) == old(self).moved(GoalStatus::Cancelled, now),
            r is Ok ==> goal_step(old(self).status, final(self).status),
    {
        self.require_open()?;
        require_subgoals_closed(subgoals)?;
        self.status = GoalStatus::Cancelled;
        self.updated_at = now;
        Ok(())
    }

    /// The refusal a goal in its current status gives when asked to be `verb`.
    fn refusal(&self, verb: &str) -> (e: Error)
        ensures
            is_invalid(Err::<(), Error>(e), goal_refusal(self.slug@, self.status, verb@)),
    {
        Error::Invalid(
            concat6("goal ", self.slug.as_str(), " is ", self.status.as_str(), " and cannot be ", verb),
        )
    }
}

/// Every task must be done or cancelled and every sub-goal complete or cancelled.
///
/// # Errors
/// Returns an error naming the first open task, or else the first open sub-goal.
pub fn require_children_closed(tasks: &[Task], subgoals: &[Goal]) -> (r: Result<()>)
    ensures
        r is Ok <==> tasks_closed(tasks@) && goals_closed(subgoals@),
        forall|k: int| first_open_task(tasks@, k) ==> is_invalid(r, open_task_message(#[trigger] tasks@[k])),
        forall|k: int|
            tasks_closed(tasks@) && first_open_goal(subgoals@, k) ==> is_invalid(
                r,
                open_goal_message(#[trigger] subgoals@[k]),
            ),
{
    let mut i: usize = 0;
    while i < tasks.len()
        invariant
            i <= tasks@.len(),
            forall|j: int| 0 <= j < i ==> !(#[trigger] tasks@[j].status.open()),
        decreases tasks@.len() - i,
    {
        let task = &tasks[i];
        if task.status.is_open() {
            assert(first_open_task(tasks@, i as int));
            assert forall|k: int| first_open_task(tasks@, k) implies k == i by {
                if k < i {
                } else if k > i {
                    assert(!tasks@[i as int].status.open());
                }
            }
            return Err(
                Error::Invalid(
                    concat6(
                        "task ",
                        task.id.as_str(),
                        " (",
                        task.title.as_str(),
                        ") is still ",
                        task.status.as_str(),
                    ),
                ),
            );
        }
        i = i + 1;
    }
    assert forall|k: int| !first_open_task(tasks@, k) by {
        if 0 <= k < tasks@.len() {
            assert(!tasks@[k].status.open());
        }
    }
    require_subgoals_closed(subgoals)
}

/// Every sub-goal must be complete or cancelled.
///
/// # Errors
/// Returns an error naming the first open sub-goal.
pub fn require_subgoals_closed(subgoals: &[Goal]) -> (r: Result<()>)
    ensures
        r is Ok <==> goals_closed(subgoals@),
        forall|k: int| first_open_goal(subgoals@, k) ==> is_invalid(r, open_goal_message(#[trigger] subgoals@[k])),
{
    let mut i: usize = 0;
    while i < subgoals.len()
        invariant
            i <= subgoals@.len(),
            forall|j: int| 0 <= j < i ==> (#[trigger] subgoals@[j].status).closed(),
        decreases subgoals@.len() - i,
    {
        let goal = &subgoals[i];
        if !goal.status.is_closed() {
            assert forall|k: int| first_open_goal(subgoals@, k) implies k == i by {
                if k > i {
                    assert(subgoals@[i as int].status.closed());
                }
            }
            return Err(
                Error::Invalid(
                    concat6(
                        "sub-goal ",
                        goal.slug.as_str(),
                        " (",
                        goal.title.as_str(),
                        ") is still ",
                        goal.status.as_str(),
                    ),
                ),
            );
        }
        i = i + 1;
    }
    Ok(())
}

/// Closed goals are nearly terminal: a cancelled goal takes no lifecycle step, a complete
/// one only the step back to active, and only an active goal completes.
pub proof fn lemma_closed_goals_only_reopen(from: GoalStatus, to: GoalStatus)
    ensures
        goal_step(from, to) && from == GoalStatus::Cancelled ==> false,
        goal_step(from, to) && from == GoalStatus::Complete ==> to == GoalStatus::Active,
        goal_step(from, to) && to == GoalStatus::Complete ==> from == GoalStatus::Active,
{
}

/// A goal carries a completion time exactly when it is complete.
pub open spec fn completion_tracks_complete(g: Goal) -> bool {
    (g.status == GoalStatus::Complete) == (g.completed_at is Some)
}

/// The goal a lifecycle step leaves: completing records the time, reopening clears it, and
/// activating or cancelling only moves the status, as `complete`, `reopen`, `activate` and
/// `cancel` do.
pub open spec fn after_step(g: Goal, to: GoalStatus, now: jiff::Timestamp) -> Goal {
    if to == GoalStatus::Complete {
        Goal { completed_at: Some(now), ..g.moved(to, now) }
    } else if g.status == GoalStatus::Complete {
        Goal { completed_at: None, ..g.moved(to, now) }
    } else {
        g.moved(to, now)
    }
}

/// Completion times stay honest: every lifecycle step keeps a goal's completion time set
/// exactly when the goal is complete.
pub proof fn lemma_completion_tracks_complete(g: Goal, to: GoalStatus, now: jiff::Timestamp)
    requires
        completion_tracks_complete(g),
        goal_step(g.status, to),
    ensures
        completion_tracks_complete(after_step(g, to, now)),
{
}

} // verus!
