//! The hierarchy of projects and goals: root projects, project paths, and the goals a
//! scope covers. Parent links are followed at most as many steps as there are records, so a
//! hierarchy that loops back on itself is never walked without end.

use crate::store::texts;
use crate::text::{concat3, same_text};
use crate::ui::{find_goal_index, find_project_index, first_goal, first_project};
use crate::{Goal, Project};
use vstd::prelude::*;

verus! {

/// The ID of the root project above `id`, following parent links at most `fuel` times;
/// `None` when `id` names no project, a parent is missing, or the walk runs out.
pub open spec fn root_within(projects: Seq<Project>, id: Seq<char>, fuel: nat) -> Option<Seq<char>>
    decreases fuel,
{
    match first_project(projects, id) {
        None => None,
        Some(i) => match projects[i].parent_id {
            None => Some(id),
            Some(parent) => if fuel == 0 {
                None
            } else {
                root_within(projects, parent@, (fuel - 1) as nat)
            },
        },
    }
}

/// The root project above a project (the project itself when it has no parent). Every step
/// up reaches another project of the list, so the walk follows at most as many parent
/// links as there are projects.
pub fn root_project_id(projects: &[Project], project_id: &str) -> (r: Option<String>)
    ensures
        r is None <==> root_within(projects@, project_id@, projects@.len()) is None,
        r matches Some(root) ==> root_within(projects@, project_id@, projects@.len()) == Some(root@),
{
    let mut current: &str = project_id;
    let mut fuel: usize = projects.len();
    loop
        invariant
            root_within(projects@, project_id@, projects@.len()) == root_within(projects@, current@, fuel as nat),
        decreases fuel,
    {
        let i = match find_project_index(projects, current) {
            Some(i) => i,
            None => return None,
        };
        match &projects[i].parent_id {
            None => {
                return Some(projects[i].id.clone());
            },
            Some(parent) => {
                if fuel == 0 {
                    return None;
                }
                current = parent.as_str();
                fuel = fuel - 1;
            },
        }
    }
}

/// The path of a project: the slugs from its root down to it, joined by `/`, following
/// parent links at most `fuel` times.
pub open spec fn path_within(projects: Seq<Project>, id: Seq<char>, fuel: nat) -> Option<Seq<char>>
    decreases fuel,
{
    match first_project(projects, id) {
        None => None,
        Some(i) => match projects[i].parent_id {
            None => Some(projects[i].slug@),
            Some(parent) => if fuel == 0 {
                None
            } else {
                match path_within(projects, parent@, (fuel - 1) as nat) {
                    Some(above) => Some(above + "/"@ + projects[i].slug@),
                    None => None,
                }
            },
        },
    }
}

/// `path_within`, computed.
fn path_of(projects: &[Project], id: &str, fuel: usize) -> (r: Option<String>)
    ensures
        r is None <==> path_within(projects@, id@, fuel as nat) is None,
        r matches Some(p) ==> path_within(projects@, id@, fuel as nat) == Some(p@),
    decreases fuel,
{
    let i = match find_project_index(projects, id) {
        Some(i) => i,
        None => return None,
    };
    match &projects[i].parent_id {
        None => Some(projects[i].slug.clone()),
        Some(parent) => {
            if fuel == 0 {
                return None;
            }
            match path_of(projects, parent.as_str(), fuel - 1) {
                Some(above) => Some(concat3(above.as_str(), "/", projects[i].slug.as_str())),
                None => None,
            }
        },
    }
}

/// The path of a project, such as `app/mobile/ios`: the slugs from its root down to it.
pub fn project_path(projects: &[Project], project_id: &str) -> (r: Option<String>)
    ensures
        r is None <==> path_within(projects@, project_id@, projects@.len()) is None,
        r matches Some(p) ==> path_within(projects@, project_id@, projects@.len()) == Some(p@),
{
    path_of(projects, project_id, projects.len())
}

/// Position `i` holds the first project whose path is `path`.
pub open spec fn first_at_path(projects: Seq<Project>, path: Seq<char>, i: int) -> bool {
    &&& 0 <= i < projects.len()
    &&& path_within(projects, projects[i].id@, projects.len()) == Some(path)
    &&& forall|j: int| 0 <= j < i ==> path_within(projects, #[trigger] projects[j].id@, projects.len()) != Some(path)
}

/// The position of the project a path names, such as `app` or `app/mobile`: the first one
/// whose path it is.
pub fn find_by_path(projects: &[Project], path: &str) -> (r: Option<usize>)
    ensures
        r matches Some(i) ==> first_at_path(projects@, path@, i as int),
        r is None ==> forall|j: int|
            0 <= j < projects@.len() ==> path_within(projects@, #[trigger] projects@[j].id@, projects@.len()) != Some(path@),
{
    let mut i: usize = 0;
    while i < projects.len()
        invariant
            i <= projects@.len(),
            forall|j: int|
                0 <= j < i ==> path_within(projects@, #[trigger] projects@[j].id@, projects@.len()) != Some(path@),
        decreases projects@.len() - i,
    {
        if let Some(p) = path_of(projects, projects[i].id.as_str(), projects.len()) {
            if same_text(p.as_str(), path) {
                return Some(i);
            }
        }
        i = i + 1;
    }
    None
}

/// Project `id` is `ancestor` or lies beneath it, following parent links at most `fuel`
/// times.
pub open spec fn project_under(projects: Seq<Project>, id: Seq<char>, ancestor: Seq<char>, fuel: nat) -> bool
    decreases fuel,
{
    if id == ancestor {
        true
    } else {
        match first_project(projects, id) {
            None => false,
            Some(i) => match projects[i].parent_id {
                None => false,
                Some(parent) => fuel > 0 && project_under(projects, parent@, ancestor, (fuel - 1) as nat),
            },
        }
    }
}

/// Goal `id` is `ancestor` or lies beneath it, following parent links at most `fuel` times.
pub open spec fn goal_under(goals: Seq<Goal>, id: Seq<char>, ancestor: Seq<char>, fuel: nat) -> bool
    decreases fuel,
{
    if id == ancestor {
        true
    } else {
        match first_goal(goals, id) {
            None => false,
            Some(i) => match goals[i].parent_id {
                None => false,
                Some(parent) => fuel > 0 && goal_under(goals, parent@, ancestor, (fuel - 1) as nat),
            },
        }
    }
}

/// Whether project `id` is `ancestor` or lies beneath it.
pub fn is_project_under(projects: &[Project], id: &str, ancestor: &str) -> (r: bool)
    ensures
        r == project_under(projects@, id@, ancestor@, projects@.len()),
{
    let mut current: &str = id;
    let mut fuel: usize = projects.len();
    loop
        invariant
            project_under(projects@, id@, ancestor@, projects@.len()) == project_under(
                projects@,
                current@,
                ancestor@,
                fuel as nat,
            ),
        decreases fuel,
    {
        if same_text(current, ancestor) {
            return true;
        }
        let i = match find_project_index(projects, current) {
            Some(i) => i,
            None => return false,
        };
        match &projects[i].parent_id {
            None => {
                return false;
            },
            Some(parent) => {
                if fuel == 0 {
                    return false;
                }
                current = parent.as_str();
                fuel = fuel - 1;
            },
        }
    }
}

/// Whether goal `id` is `ancestor` or lies beneath it.
pub fn is_goal_under(goals: &[Goal], id: &str, ancestor: &str) -> (r: bool)
    ensures
        r == goal_under(goals@, id@, ancestor@, goals@.len()),
{
    let mut current: &str = id;
    let mut fuel: usize = goals.len();
    loop
        invariant
            goal_under(goals@, id@, ancestor@, goals@.len()) == goal_under(goals@, current@, ancestor@, fuel as nat),
        decreases fuel,
    {
        if same_text(current, ancestor) {
            return true;
        }
        let i = match find_goal_index(goals, current) {
            Some(i) => i,
            None => return false,
        };
        match &goals[i].parent_id {
            None => {
                return false;
            },
            Some(parent) => {
                if fuel == 0 {
                    return false;
                }
                current = parent.as_str();
                fuel = fuel - 1;
            },
        }
    }
}

/// The value an optional reference points at.
pub open spec fn deref_opt<T>(o: Option<&T>) -> Option<T> {
    match o {
        Some(x) => Some(*x),
        None => None,
    }
}

/// A goal lies in the scope: beneath the scoped goal when one is given, else in the scoped
/// project or beneath it.
pub open spec fn in_scope(
    projects: Seq<Project>,
    goals: Seq<Goal>,
    project: Option<Project>,
    goal: Option<Goal>,
    g: Goal,
) -> bool {
    match goal {
        Some(top) => goal_under(goals, g.id@, top.id@, goals.len()),
        None => match project {
            Some(p) => project_under(projects, g.project_id@, p.id@, projects.len()),
            None => true,
        },
    }
}

/// The IDs of the goals a scope keeps, in the order given: everything nested beneath the
/// scoped goal, or else beneath the scoped project. `None` keeps every goal.
pub fn scope_goal_ids(
    projects: &[Project],
    goals: &[Goal],
    project: Option<&Project>,
    goal: Option<&Goal>,
) -> (r: Option<Vec<String>>)
    ensures
        r is None <==> (project is None && goal is None),
        r matches Some(ids) ==> texts(ids@) == goals@.filter(
            |g: Goal| in_scope(projects@, goals@, deref_opt(project), deref_opt(goal), g),
        ).map_values(|g: Goal| g.id@),
{
    if project.is_none() && goal.is_none() {
        return None;
    }
    let ghost pred = |g: Goal| in_scope(projects@, goals@, deref_opt(project), deref_opt(goal), g);
    let mut out: Vec<String> = Vec::new();
    let mut i: usize = 0;
    proof {
        assert(goals@.take(0) =~= Seq::<Goal>::empty());
    }
    while i < goals.len()
        invariant
            i <= goals@.len(),
            pred == (|g: Goal| in_scope(projects@, goals@, deref_opt(project), deref_opt(goal), g)),
            texts(out@) == goals@.take(i as int).filter(pred).map_values(|g: Goal| g.id@),
        decreases goals@.len() - i,
    {
        let g = &goals[i];
        let keep = match goal {
            Some(top) => is_goal_under(goals, g.id.as_str(), top.id.as_str()),
            None => match project {
                Some(p) => is_project_under(projects, g.project_id.as_str(), p.id.as_str()),
                None => true,
            },
        };
        let ghost before = goals@.take(i as int);
        proof {
            assert(goals@.take(i + 1) =~= before.push(*g));
            before.lemma_filter_push(*g, pred);
            assert(keep == pred(*g));
        }
        if keep {
            let id = g.id.clone();
            proof {
                assert(texts(out@.push(id)) =~= texts(out@).push(id@));
                assert(before.filter(pred).push(*g).map_values(|g: Goal| g.id@) =~= before.filter(pred).map_values(
                    |g: Goal| g.id@,
                ).push(g.id@));
            }
            out.push(id);
        }
        i = i + 1;
    }
    proof {
        assert(goals@.take(i as int) =~= goals@);
    }
    Some(out)
}

/// Following more parent links never loses an ancestor.
pub proof fn lemma_project_under_more_fuel(projects: Seq<Project>, x: Seq<char>, z: Seq<char>, f: nat, g: nat)
    requires
        project_under(projects, x, z, f),
        f <= g,
    ensures
        project_under(projects, x, z, g),
    decreases f,
{
    if x != z {
        let i = first_project(projects, x)->0;
        let p = projects[i].parent_id->0;
        lemma_project_under_more_fuel(projects, p@, z, (f - 1) as nat, (g - 1) as nat);
    }
}

/// Lying beneath is transitive: if `x` lies beneath `y` within `f` parent links and `y`
/// beneath `z` within `g`, then `x` lies beneath `z` within `f + g`.
pub proof fn lemma_project_under_transitive(
    projects: Seq<Project>,
    x: Seq<char>,
    y: Seq<char>,
    z: Seq<char>,
    f: nat,
    g: nat,
)
    requires
        project_under(projects, x, y, f),
        project_under(projects, y, z, g),
    ensures
        project_under(projects, x, z, f + g),
    decreases f,
{
    if x == y {
        lemma_project_under_more_fuel(projects, y, z, g, f + g);
    } else if x != z {
        let i = first_project(projects, x)->0;
        let p = projects[i].parent_id->0;
        lemma_project_under_transitive(projects, p@, y, z, (f - 1) as nat, g);
        assert((f - 1) as nat + g == (f + g - 1) as nat);
    }
}

/// A project lies beneath every project its parent lies beneath: when project `k` (the
/// first with its ID) has parent `y`, and `y` lies beneath `z` within fewer parent links
/// than there are projects, `k` lies beneath `z` as the scope filters count it.
pub proof fn lemma_project_under_parent(projects: Seq<Project>, k: int, z: Seq<char>, f: nat)
    requires
        0 <= k < projects.len(),
        first_project(projects, projects[k].id@) == Some(k),
        projects[k].parent_id is Some,
        project_under(projects, projects[k].parent_id->0@, z, f),
        f < projects.len(),
    ensures
        project_under(projects, projects[k].id@, z, projects.len()),
{
    let y = projects[k].parent_id->0@;
    assert(project_under(projects, projects[k].id@, y, 1)) by {
        reveal_with_fuel(project_under, 2);
    }
    lemma_project_under_transitive(projects, projects[k].id@, y, z, 1, f);
    lemma_project_under_more_fuel(projects, projects[k].id@, z, 1 + f, projects.len());
}

/// Following more parent links never loses an ancestor goal.
pub proof fn lemma_goal_under_more_fuel(goals: Seq<Goal>, x: Seq<char>, z: Seq<char>, f: nat, g: nat)
    requires
        goal_under(goals, x, z, f),
        f <= g,
    ensures
        goal_under(goals, x, z, g),
    decreases f,
{
    if x != z {
        let i = first_goal(goals, x)->0;
        let p = goals[i].parent_id->0;
        lemma_goal_under_more_fuel(goals, p@, z, (f - 1) as nat, (g - 1) as nat);
    }
}

/// Lying beneath a goal is transitive: if `x` lies beneath `y` within `f` parent links and
/// `y` beneath `z` within `g`, then `x` lies beneath `z` within `f + g`.
pub proof fn lemma_goal_under_transitive(goals: Seq<Goal>, x: Seq<char>, y: Seq<char>, z: Seq<char>, f: nat, g: nat)
    requires
        goal_under(goals, x, y, f),
        goal_under(goals, y, z, g),
    ensures
        goal_under(goals, x, z, f + g),
    decreases f,
{
    if x == y {
        lemma_goal_under_more_fuel(goals, y, z, g, f + g);
    } else if x != z {
        let i = first_goal(goals, x)->0;
        let p = goals[i].parent_id->0;
        lemma_goal_under_transitive(goals, p@, y, z, (f - 1) as nat, g);
        assert((f - 1) as nat + g == (f + g - 1) as nat);
    }
}

} // verus!
