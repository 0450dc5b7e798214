//! Teaching agents that grove exists: where the skill is installed, and the name it
//! had before.
//!
//! The application writes the embedded skill and removes the old one; the places are
//! decided here.

use vstd::prelude::*;
use crate::text::{join, join_path};

verus! {

/// The project's name before 0.1.2. Its skill describes a binary that no longer
/// exists, and two skills for one tool is worse than none.
pub const FORMER_NAME: &'static str = "treeish";

/// What `grove skill install` did: where it wrote the skill, and the old skill it
/// removed, if there was one.
#[derive(Debug)]
pub struct Installed {
    pub path: String,
    pub removed: Option<String>,
}

/// The directory the skill is written into, the file written, and the former name's
/// directory, under the agent's global skills directory. Global rather than per-repo,
/// because grove is repo-agnostic and an agent in any checkout should be able to reach
/// for it.
pub fn skill_places(skills: &str) -> (r: (String, String, String))
    ensures
        r.0@ == join_path(skills@, "grove"@),
        r.1@ == join_path(join_path(skills@, "grove"@), "SKILL.md"@),
        r.2@ == join_path(skills@, FORMER_NAME@),
{
    let dir = join(skills, "grove");
    let path = join(dir.as_str(), "SKILL.md");
    let former = join(skills, FORMER_NAME);
    (dir, path, former)
}

} // verus!
