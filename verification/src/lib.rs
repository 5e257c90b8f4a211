//! Domain model and rules for Tasky: projects, goals, tasks, and the dependency graph that
//! joins tasks. No filesystem, database, clock, or process execution: callers supply the
//! current time and generated IDs, and this crate enforces the rules.

pub mod text;
pub mod time;
pub mod status;
pub mod project;
pub mod goal;
pub mod task;
pub mod order;
pub mod dag;
pub mod store;
pub mod rows;
pub mod ui;
pub mod tree;
pub mod layout;

pub use dag::Dag;
pub use goal::Goal;
pub use project::Project;
pub use task::{Dependency, Task, TaskLink};
pub use status::{GoalStatus, LinkKind, TaskStatus};

use text::{blank, concat2, concat3, debug_text, is_blank, is_slug, quoted, slug_ok};
use vstd::prelude::*;

verus! {

/// Why an operation was refused. Each variant carries a human-readable message.
#[derive(Debug, Clone, PartialEq, Eq)]
pub enum Error {
    NotFound(String),
    Ambiguous(String),
    Duplicate(String),
    Invalid(String),
}

pub type Result<T> = std::result::Result<T, Error>;

/// The result is an `Invalid` error with exactly this message.
pub open spec fn is_invalid<T>(r: Result<T>, msg: Seq<char>) -> bool {
    r matches Err(Error::Invalid(m)) && m@ == msg
}

/// The result is a `NotFound` error with exactly this message.
pub open spec fn is_not_found<T>(r: Result<T>, msg: Seq<char>) -> bool {
    r matches Err(Error::NotFound(m)) && m@ == msg
}

/// The result is a `Duplicate` error with exactly this message.
pub open spec fn is_duplicate<T>(r: Result<T>, msg: Seq<char>) -> bool {
    r matches Err(Error::Duplicate(m)) && m@ == msg
}

/// The result is an `Ambiguous` error with exactly this message.
pub open spec fn is_ambiguous<T>(r: Result<T>, msg: Seq<char>) -> bool {
    r matches Err(Error::Ambiguous(m)) && m@ == msg
}

/// The message given when a required field is blank.
pub open spec fn blank_message(field: Seq<char>) -> Seq<char> {
    field + " must not be blank"@
}

/// The message given for a malformed slug.
pub open spec fn slug_message(slug: Seq<char>) -> Seq<char> {
    "slug "@ + debug_text(slug) + " must be lowercase letters, digits, and inner hyphens"@
}

/// Refuse blank text: empty, or white space only.
///
/// # Errors
/// Returns an error if the value is blank.
pub fn require_nonblank(field: &str, value: &str) -> (r: Result<()>)
    ensures
        r is Ok <==> !is_blank(value@),
        is_blank(value@) ==> is_invalid(r, blank_message(field@)),
{
    if blank(value) {
        return Err(Error::Invalid(concat2(field, " must not be blank")));
    }
    Ok(())
}

/// Slugs are what humans type, so keep them shell- and URL-safe. A slug never contains `/`,
/// which lets `project/goal` references be split unambiguously.
///
/// # Errors
/// Returns an error if the slug is empty, holds anything but lowercase letters, digits, and
/// hyphens, or starts or ends with a hyphen.
pub fn validate_slug(slug: &str) -> (r: Result<()>)
    ensures
        r is Ok <==> is_slug(slug@),
        !is_slug(slug@) ==> is_invalid(r, slug_message(slug@)),
{
    if !slug_ok(slug) {
        let q = quoted(slug);
        return Err(
            Error::Invalid(
                concat3("slug ", q.as_str(), " must be lowercase letters, digits, and inner hyphens"),
            ),
        );
    }
    Ok(())
}

} // verus!
