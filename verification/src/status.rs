//! The lifecycles of goals and tasks, and the kinds of task links.

use crate::text::{concat2, debug_text, quoted, same_text};
use crate::{is_invalid, Error, Result};
use vstd::prelude::*;

verus! {

/// Lifecycle of a goal. Completion is explicit and requires finished tasks.
#[derive(Debug, Clone, Copy, PartialEq, Eq, Hash, Structural)]
pub enum GoalStatus {
    Draft,
    Active,
    Complete,
    Cancelled,
}

/// Lifecycle of a task: `todo → in_progress ⇄ testing → ready_for_merge → done`, or
/// `cancelled` from any open state. "Blocked" is derived from dependencies, never stored.
#[derive(Debug, Clone, Copy, PartialEq, Eq, Hash, Structural)]
pub enum TaskStatus {
    Todo,
    InProgress,
    Testing,
    ReadyForMerge,
    Done,
    Cancelled,
}

/// What an external reference attached to a task points at.
#[derive(Debug, Clone, Copy, PartialEq, Eq, Hash, Structural)]
pub enum LinkKind {
    Commit,
    Url,
}

impl GoalStatus {
    /// Every variant, in declaration order.
    pub const ALL: [Self; 4] = [Self::Draft, Self::Active, Self::Complete, Self::Cancelled];

    /// The stable text form used in storage and on the command line.
    pub open spec fn text(self) -> Seq<char> {
        match self {
            GoalStatus::Draft => "draft"@,
            GoalStatus::Active => "active"@,
            GoalStatus::Complete => "complete"@,
            GoalStatus::Cancelled => "cancelled"@,
        }
    }

    /// Whether the goal is finished for good: complete or cancelled.
    pub open spec fn closed(self) -> bool {
        self == GoalStatus::Complete || self == GoalStatus::Cancelled
    }

    /// The stable text form used in storage and on the command line.
    #[must_use]
    pub fn as_str(self) -> (r: &'static str)
        ensures
            r@ == self.text(),
    {
        match self {
            GoalStatus::Draft => "draft",
            GoalStatus::Active => "active",
            GoalStatus::Complete => "complete",
            GoalStatus::Cancelled => "cancelled",
        }
    }

    /// Whether the goal is finished for good: complete or cancelled.
    #[must_use]
    pub fn is_closed(self) -> (r: bool)
        ensures
            r == self.closed(),
    {
        matches!(self, GoalStatus::Complete | GoalStatus::Cancelled)
    }

    /// Read the text form back.
    ///
    /// # Errors
    /// Returns an error if the text names no status.
    pub fn parse(value: &str) -> (r: Result<Self>)
        ensures
            forall|s: Self| #[trigger] s.text() == value@ ==> r == Ok::<Self, Error>(s),
            (forall|s: Self| #[trigger] s.text() != value@) ==> is_invalid(
                r,
                "unknown GoalStatus: "@ + debug_text(value@),
            ),
    {
        proof {
            reveal_strlit("draft");
            reveal_strlit("active");
            reveal_strlit("complete");
            reveal_strlit("cancelled");
            assert(GoalStatus::Draft.text() == "draft"@);
            assert(GoalStatus::Active.text() == "active"@);
            assert(GoalStatus::Complete.text() == "complete"@);
            assert(GoalStatus::Cancelled.text() == "cancelled"@);
        }
        if same_text(value, "draft") {
            Ok(GoalStatus::Draft)
        } else if same_text(value, "active") {
            Ok(GoalStatus::Active)
        } else if same_text(value, "complete") {
            Ok(GoalStatus::Complete)
        } else if same_text(value, "cancelled") {
            Ok(GoalStatus::Cancelled)
        } else {
            let q = quoted(value);
            Err(Error::Invalid(concat2("unknown GoalStatus: ", q.as_str())))
        }
    }
}


impl TaskStatus {
    /// Every variant, in declaration order.
    pub const ALL: [Self; 6] = [
        Self::Todo,
        Self::InProgress,
        Self::Testing,
        Self::ReadyForMerge,
        Self::Done,
        Self::Cancelled,
    ];

    /// The stable text form used in storage and on the command line.
    pub open spec fn text(self) -> Seq<char> {
        match self {
            TaskStatus::Todo => "todo"@,
            TaskStatus::InProgress => "in_progress"@,
            TaskStatus::Testing => "testing"@,
            TaskStatus::ReadyForMerge => "ready_for_merge"@,
            TaskStatus::Done => "done"@,
            TaskStatus::Cancelled => "cancelled"@,
        }
    }

    /// Whether the task still has work outstanding: neither done nor cancelled.
    pub open spec fn open(self) -> bool {
        self != TaskStatus::Done && self != TaskStatus::Cancelled
    }

    /// The stable text form used in storage and on the command line.
    #[must_use]
    pub fn as_str(self) -> (r: &'static str)
        ensures
            r@ == self.text(),
    {
        match self {
            TaskStatus::Todo => "todo",
            TaskStatus::InProgress => "in_progress",
            TaskStatus::Testing => "testing",
            TaskStatus::ReadyForMerge => "ready_for_merge",
            TaskStatus::Done => "done",
            TaskStatus::Cancelled => "cancelled",
        }
    }

    /// Whether the task still has work outstanding, that is, it is neither done nor cancelled.
    #[must_use]
    pub fn is_open(self) -> (r: bool)
        ensures
            r == self.open(),
    {
        !matches!(self, TaskStatus::Done | TaskStatus::Cancelled)
    }

    /// Read the text form back.
    ///
    /// # Errors
    /// Returns an error if the text names no status.
    pub fn parse(value: &str) -> (r: Result<Self>)
        ensures
            forall|s: Self| #[trigger] s.text() == value@ ==> r == Ok::<Self, Error>(s),
            (forall|s: Self| #[trigger] s.text() != value@) ==> is_invalid(
                r,
                "unknown TaskStatus: "@ + debug_text(value@),
            ),
    {
        proof {
            reveal_strlit("todo");
            reveal_strlit("in_progress");
            reveal_strlit("testing");
            reveal_strlit("ready_for_merge");
            reveal_strlit("done");
            reveal_strlit("cancelled");
            assert(TaskStatus::Todo.text() == "todo"@);
            assert(TaskStatus::InProgress.text() == "in_progress"@);
            assert(TaskStatus::Testing.text() == "testing"@);
            assert(TaskStatus::ReadyForMerge.text() == "ready_for_merge"@);
            assert(TaskStatus::Done.text() == "done"@);
            assert(TaskStatus::Cancelled.text() == "cancelled"@);
            assert forall|a: TaskStatus, b: TaskStatus| a.text() == b.text() implies a == b by {
                lemma_task_text_distinct(a, b);
            }
        }
        if same_text(value, "todo") {
            Ok(TaskStatus::Todo)
        } else if same_text(value, "in_progress") {
            Ok(TaskStatus::InProgress)
        } else if same_text(value, "testing") {
            Ok(TaskStatus::Testing)
        } else if same_text(value, "ready_for_merge") {
            Ok(TaskStatus::ReadyForMerge)
        } else if same_text(value, "done") {
            Ok(TaskStatus::Done)
        } else if same_text(value, "cancelled") {
            Ok(TaskStatus::Cancelled)
        } else {
            let q = quoted(value);
            Err(Error::Invalid(concat2("unknown TaskStatus: ", q.as_str())))
        }
    }
}

impl LinkKind {
    /// Every variant, in declaration order.
    pub const ALL: [Self; 2] = [Self::Commit, Self::Url];

    /// The stable text form used in storage and on the command line.
    pub open spec fn text(self) -> Seq<char> {
        match self {
            LinkKind::Commit => "commit"@,
            LinkKind::Url => "url"@,
        }
    }

    /// The stable text form used in storage and on the command line.
    #[must_use]
    pub fn as_str(self) -> (r: &'static str)
        ensures
            r@ == self.text(),
    {
        match self {
            LinkKind::Commit => "commit",
            LinkKind::Url => "url",
        }
    }

    /// Read the text form back.
    ///
    /// # Errors
    /// Returns an error if the text names no kind.
    pub fn parse(value: &str) -> (r: Result<Self>)
        ensures
            forall|s: Self| #[trigger] s.text() == value@ ==> r == Ok::<Self, Error>(s),
            (forall|s: Self| #[trigger] s.text() != value@) ==> is_invalid(
                r,
                "unknown LinkKind: "@ + debug_text(value@),
            ),
    {
        proof {
            reveal_strlit("commit");
            reveal_strlit("url");
            assert(LinkKind::Commit.text() == "commit"@);
            assert(LinkKind::Url.text() == "url"@);
        }
        if same_text(value, "commit") {
            Ok(LinkKind::Commit)
        } else if same_text(value, "url") {
            Ok(LinkKind::Url)
        } else {
            let q = quoted(value);
            Err(Error::Invalid(concat2("unknown LinkKind: ", q.as_str())))
        }
    }
}

impl std::str::FromStr for GoalStatus {
    type Err = Error;

    /// Read the text form back, as `parse` does.
    fn from_str(value: &str) -> (r: Result<Self>)
        ensures
            forall|s: Self| #[trigger] s.text() == value@ ==> r == Ok::<Self, Error>(s),
            (forall|s: Self| #[trigger] s.text() != value@) ==> is_invalid(
                r,
                "unknown GoalStatus: "@ + debug_text(value@),
            ),
    {
        GoalStatus::parse(value)
    }
}

impl std::str::FromStr for TaskStatus {
    type Err = Error;

    /// Read the text form back, as `parse` does.
    fn from_str(value: &str) -> (r: Result<Self>)
        ensures
            forall|s: Self| #[trigger] s.text() == value@ ==> r == Ok::<Self, Error>(s),
            (forall|s: Self| #[trigger] s.text() != value@) ==> is_invalid(
                r,
                "unknown TaskStatus: "@ + debug_text(value@),
            ),
    {
        TaskStatus::parse(value)
    }
}

impl std::str::FromStr for LinkKind {
    type Err = Error;

    /// Read the text form back, as `parse` does.
    fn from_str(value: &str) -> (r: Result<Self>)
        ensures
            forall|k: Self| #[trigger] k.text() == value@ ==> r == Ok::<Self, Error>(k),
            (forall|k: Self| #[trigger] k.text() != value@) ==> is_invalid(
                r,
                "unknown LinkKind: "@ + debug_text(value@),
            ),
    {
        LinkKind::parse(value)
    }
}

/// Distinct goal statuses have distinct text forms.
pub proof fn lemma_goal_text_distinct(a: GoalStatus, b: GoalStatus)
    ensures
        a.text() == b.text() ==> a == b,
{
    reveal_strlit("draft");
    reveal_strlit("active");
    reveal_strlit("complete");
    reveal_strlit("cancelled");
    if a != b {
        assert(a.text().len() != b.text().len());
    }
}

/// Distinct task statuses have distinct text forms.
pub proof fn lemma_task_text_distinct(a: TaskStatus, b: TaskStatus)
    ensures
        a.text() == b.text() ==> a == b,
{
    reveal_strlit("todo");
    reveal_strlit("in_progress");
    reveal_strlit("testing");
    reveal_strlit("ready_for_merge");
    reveal_strlit("done");
    reveal_strlit("cancelled");
    if a != b {
        assert(a.text().len() != b.text().len() || a.text()[0] != b.text()[0]);
    }
}

/// Distinct link kinds have distinct text forms.
pub proof fn lemma_link_text_distinct(a: LinkKind, b: LinkKind)
    ensures
        a.text() == b.text() ==> a == b,
{
    reveal_strlit("commit");
    reveal_strlit("url");
    if a != b {
        assert(a.text().len() != b.text().len());
    }
}

/// Every status and link kind reads back from its own text form, so the text forms are a
/// faithful encoding: parsing `s.as_str()` gives `s`.
pub proof fn lemma_text_forms_round_trip(g: GoalStatus, t: TaskStatus, k: LinkKind)
    ensures
        forall|h: GoalStatus| #[trigger] h.text() == g.text() ==> h == g,
        forall|u: TaskStatus| #[trigger] u.text() == t.text() ==> u == t,
        forall|l: LinkKind| #[trigger] l.text() == k.text() ==> l == k,
{
    assert forall|h: GoalStatus| #[trigger] h.text() == g.text() implies h == g by {
        lemma_goal_text_distinct(h, g);
    }
    assert forall|u: TaskStatus| #[trigger] u.text() == t.text() implies u == t by {
        lemma_task_text_distinct(u, t);
    }
    assert forall|l: LinkKind| #[trigger] l.text() == k.text() implies l == k by {
        lemma_link_text_distinct(l, k);
    }
}

} // verus!
