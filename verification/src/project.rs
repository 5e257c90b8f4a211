//! Projects: anything work is organized under.

use crate::text::{blank, is_blank, is_slug, is_white_space};
use crate::{
    blank_message, is_invalid, require_nonblank, slug_message, validate_slug, Error, Result,
};
use vstd::prelude::*;

verus! {

/// Anything work is organized under: a codebase, a research effort, a launch. One database
/// holds any number of projects, and a project may nest inside another without limit. A
/// coding project may point at its repository on disk, on a remote, or both; nothing
/// requires either.
#[derive(Debug, Clone, PartialEq, Eq)]
pub struct Project {
    pub id: String,
    /// The project this one sits inside, if any.
    pub parent_id: Option<String>,
    pub slug: String,
    pub name: String,
    /// Local checkout of the repository, when there is one.
    pub repo_path: Option<String>,
    /// Remote URL of the repository, when there is one.
    pub repo_url: Option<String>,
    pub created_at: jiff::Timestamp,
}

/// Blank text means "not set", so callers cannot store whitespace by accident.
pub open spec fn normalized(value: Option<String>) -> Option<String> {
    match value {
        Some(text) => if is_blank(text@) {
            None
        } else {
            Some(text)
        },
        None => None,
    }
}

/// Blank text means "not set", so callers cannot store whitespace by accident.
pub fn normalize(value: Option<String>) -> (r: Option<String>)
    ensures
        r == normalized(value),
{
    match value {
        Some(text) => {
            if blank(text.as_str()) {
                None
            } else {
                Some(text)
            }
        },
        None => None,
    }
}

/// Whether a parent reference is present and blank.
pub open spec fn parent_blank(parent_id: Option<String>) -> bool {
    parent_id matches Some(p) && is_blank(p@)
}

/// Whether a parent reference names the record itself.
pub open spec fn parent_is_self(parent_id: Option<String>, id: String) -> bool {
    parent_id matches Some(p) && p@ == id@
}

impl Project {
    /// Describe a project.
    ///
    /// # Errors
    /// Returns an error if the ID or name is blank, the parent is blank or the project
    /// itself, or the slug is malformed. The first failing check, in that order, decides
    /// the message.
    pub fn new(
        id: String,
        parent_id: Option<String>,
        slug: String,
        name: String,
        repo_path: Option<String>,
        repo_url: Option<String>,
        now: jiff::Timestamp,
    ) -> (r: Result<Self>)
        ensures
            is_blank(id@) ==> is_invalid(r, blank_message("id"@)),
            !is_blank(id@) && parent_blank(parent_id) ==> is_invalid(
                r,
                blank_message("parent id"@),
            ),
            !is_blank(id@) && !parent_blank(parent_id) && parent_is_self(parent_id, id)
                ==> is_invalid(r, "a project cannot be its own parent"@),
            !is_blank(id@) && !parent_blank(parent_id) && !parent_is_self(parent_id, id)
                && !is_slug(slug@) ==> is_invalid(r, slug_message(slug@)),
            !is_blank(id@) && !parent_blank(parent_id) && !parent_is_self(parent_id, id)
                && is_slug(slug@) && is_blank(name@) ==> is_invalid(
                r,
                blank_message("project name"@),
            ),
            !is_blank(id@) && !parent_blank(parent_id) && !parent_is_self(parent_id, id)
                && is_slug(slug@) && !is_blank(name@) ==> r == Ok::<Self, Error>(
                Project {
                    id,
                    parent_id,
                    slug,
                    name,
                    repo_path: normalized(repo_path),
                    repo_url: normalized(repo_url),
                    created_at: now,
                },
            ),
    {
        require_nonblank("id", id.as_str())?;
        if let Some(parent) = &parent_id {
            require_nonblank("parent id", parent.as_str())?;
            if *parent == id {
                return Err(Error::Invalid("a project cannot be its own parent".to_string()));
            }
        }
        validate_slug(slug.as_str())?;
        require_nonblank("project name", name.as_str())?;
        Ok(
            Project {
                id,
                parent_id,
                slug,
                name,
                repo_path: normalize(repo_path),
                repo_url: normalize(repo_url),
                created_at: now,
            },
        )
    }

    /// Set or clear the local checkout of the repository. Blank text clears it.
    pub fn set_repo_path(&mut self, path: Option<String>)
        ensures
            final(self).repo_path == normalized(path),
            final(self).id == old(self).id,
            final(self).parent_id == old(self).parent_id,
            final(self).slug == old(self).slug,
            final(self).name == old(self).name,
            final(self).repo_url == old(self).repo_url,
            final(self).created_at == old(self).created_at,
    {
        self.repo_path = normalize(path);
    }

    /// Set or clear the remote URL of the repository. Blank text clears it.
    pub fn set_repo_url(&mut self, url: Option<String>)
        ensures
            final(self).repo_url == normalized(url),
            final(self).id == old(self).id,
            final(self).parent_id == old(self).parent_id,
            final(self).slug == old(self).slug,
            final(self).name == old(self).name,
            final(self).repo_path == old(self).repo_path,
            final(self).created_at == old(self).created_at,
    {
        self.repo_url = normalize(url);
    }
}

/// Normalizing drops only blank text: text with some character that is not white space is
/// kept exactly as given (a trailing newline included), and text made only of white space,
/// the empty text among it, becomes `None`.
pub proof fn lemma_normalized_drops_only_blank(text: String)
    ensures
        (exists|i: int| 0 <= i < text@.len() && !is_white_space(#[trigger] text@[i])) ==> normalized(Some(text))
            == Some(text),
        (forall|i: int| 0 <= i < text@.len() ==> is_white_space(#[trigger] text@[i])) ==> normalized(Some(text))
            is None,
        normalized(None) is None,
{
}

} // verus!
