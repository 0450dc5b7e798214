//! The committed `.grove.toml` that tells grove how to run a repo.
//!
//! The application reads the TOML into these types; the rules the file must obey
//! beyond its shape are checked here.

use vstd::prelude::*;
use crate::text::{chars_of, owned, push_text, quote, quoted, texts};

verus! {

/// The file grove reads at the worktree root.
pub const FILENAME: &'static str = ".grove.toml";

#[derive(Debug)]
pub struct Config {
    pub version: u32,
    pub ports: Ports,
    pub secrets: Vec<Secrets>,
    pub resources: Vec<Resource>,
    pub services: Vec<Service>,
    pub seeds: Vec<Seed>,
}

/// Data an instance needs before it is useful — the organisation row a guarded route
/// looks up, a fixture dump. Distinct from a service's `setup`, which installs
/// dependencies: these have different failure modes and different reasons to re-run.
#[derive(Debug)]
pub struct Seed {
    pub name: String,
    /// Working directory, relative to the worktree root.
    pub cwd: Option<String>,
    pub command: String,
    /// Skip unless this path exists, relative to `cwd`. For fixtures that may not be
    /// present — an LFS dump nobody has pulled should mean "no sample data", not a
    /// failed `up`.
    pub if_exists: Option<String>,
}

#[derive(Debug)]
pub struct Ports {
    /// Port names this repo needs. grove assigns the numbers; templates reference
    /// them as `{{ port.<name> }}`.
    pub names: Vec<String>,
}

/// One env file: copied from the main checkout, overridden per instance, written into
/// the worktree. The main checkout is the source because a worktree never inherits
/// gitignored files.
#[derive(Debug)]
pub struct Secrets {
    /// Path, relative to the main worktree, of the file to read.
    pub from: String,
    /// Path, relative to this worktree, of the file to write.
    pub into: String,
    /// Keys to override after copying, in key order. Values are templates.
    pub set: Vec<(String, String)>,
}

#[derive(Debug)]
pub struct Resource {
    pub name: String,
    pub kind: ResourceKind,
    pub image: Option<String>,
    pub args: Vec<String>,
    pub port: u16,
    /// Command run once against a freshly started resource, e.g. `rs.initiate()`.
    pub init: Option<String>,
    /// Per-instance database name. A template.
    pub db_name: Option<String>,
}

#[derive(Debug, PartialEq, Eq, Structural)]
pub enum ResourceKind {
    /// One container shared by every instance; instances are isolated by database
    /// name. grove reuses anything already answering on `port` rather than starting
    /// its own.
    DockerShared,
}

#[derive(Debug)]
pub struct Service {
    pub name: String,
    /// Working directory, relative to the worktree root.
    pub cwd: Option<String>,
    /// Run once per worktree before the first start, e.g. `uv sync`, `npm install`.
    pub setup: Option<String>,
    /// Run on every `up`, before this service starts and after the services declared
    /// above it are answering — generated code has to track what it was generated
    /// from, so "once" is the wrong contract for it.
    pub prepare: Option<String>,
    pub command: String,
    pub ready: Option<Ready>,
}

#[derive(Debug)]
pub struct Ready {
    /// URL polled until it answers.
    pub http: String,
    /// How long to wait, e.g. `180s`.
    pub timeout: String,
}

/// A port name lands in `{{ port.<name> }}`, where a hyphen parses as subtraction,
/// and in `GROVE_PORT_<NAME>`, which must be a legal shell variable. Both corrupt
/// silently, so the name is held to lowercase letters, digits and underscores,
/// starting with a letter or underscore.
pub open spec fn legal_port_name(n: Seq<char>) -> bool {
    &&& n.len() > 0
    &&& forall|i: int| 0 <= i < n.len() ==> {
            let c = #[trigger] n[i];
            ('a' <= c && c <= 'z') || ('0' <= c && c <= '9') || c == '_'
        }
    &&& !('0' <= n[0] && n[0] <= '9')
}

pub fn is_legal_port_name(name: &str) -> (r: bool)
    ensures
        r == legal_port_name(name@),
{
    let cs = chars_of(name);
    if cs.len() == 0 {
        return false;
    }
    let mut i: usize = 0;
    while i < cs.len()
        invariant
            cs@ == name@,
            i <= cs.len(),
            forall|j: int| 0 <= j < i ==> {
                let c = #[trigger] cs@[j];
                ('a' <= c && c <= 'z') || ('0' <= c && c <= '9') || c == '_'
            },
        decreases cs.len() - i,
    {
        let c = cs[i];
        if !(('a' <= c && c <= 'z') || ('0' <= c && c <= '9') || c == '_') {
            return false;
        }
        i += 1;
    }
    !('0' <= cs[0] && cs[0] <= '9')
}

/// Why a config was refused.
#[derive(Debug)]
pub enum ConfigError {
    /// A declared port name that cannot stand in a template or a variable name.
    IllegalPortName { name: String },
    /// The worktree has no config file: the common case in a repo not yet set up, so
    /// the message says what to do about it rather than only what went wrong.
    Missing { worktree: String },
}

impl ConfigError {
    pub open spec fn message_of(&self) -> Seq<char> {
        match self {
            ConfigError::IllegalPortName { name } => "port name "@ + quoted(name@)
                + " must be lowercase letters, digits, and underscores, starting with a letter — it becomes both `{{ port."@
                + name@ + " }}` in templates and GROVE_PORT_<NAME> in the environment"@,
            ConfigError::Missing { worktree } => "no "@ + FILENAME@ + " in "@ + worktree@
                + "\nThis repo has not been set up for grove yet. Run `grove --llm` for the schema and worked examples, then write "@
                + FILENAME@ + " at the worktree root and commit it."@,
        }
    }

    pub fn message(&self) -> (m: String)
        ensures
            m@ == self.message_of(),
    {
        match self {
            ConfigError::IllegalPortName { name } => {
                let mut m = owned("port name ");
                let q = quote(name.as_str());
                push_text(&mut m, q.as_str());
                push_text(&mut m, " must be lowercase letters, digits, and underscores, starting with a letter — it becomes both `{{ port.");
                push_text(&mut m, name.as_str());
                push_text(&mut m, " }}` in templates and GROVE_PORT_<NAME> in the environment");
                m
            },
            ConfigError::Missing { worktree } => {
                let mut m = owned("no ");
                push_text(&mut m, FILENAME);
                push_text(&mut m, " in ");
                push_text(&mut m, worktree.as_str());
                push_text(&mut m, "\nThis repo has not been set up for grove yet. Run `grove --llm` for the schema and worked examples, then write ");
                push_text(&mut m, FILENAME);
                push_text(&mut m, " at the worktree root and commit it.");
                m
            },
        }
    }
}

impl Config {
    /// Every declared port name is legal; the first that is not is named.
    pub fn validate(&self) -> (r: Result<(), ConfigError>)
        ensures
            r is Ok <==> forall|i: int| 0 <= i < self.ports.names@.len() ==> legal_port_name(#[trigger] self.ports.names@[i]@),
            r is Err ==> r matches Err(ConfigError::IllegalPortName { .. }),
            r matches Err(ConfigError::IllegalPortName { name }) ==> exists|i: int| 0 <= i < self.ports.names@.len()
                && self.ports.names@[i]@ == name@ && !legal_port_name(name@)
                && forall|j: int| 0 <= j < i ==> legal_port_name(#[trigger] self.ports.names@[j]@),
    {
        let mut i: usize = 0;
        while i < self.ports.names.len()
            invariant
                i <= self.ports.names.len(),
                forall|j: int| 0 <= j < i ==> legal_port_name(#[trigger] self.ports.names@[j]@),
            decreases self.ports.names.len() - i,
        {
            if !is_legal_port_name(self.ports.names[i].as_str()) {
                return Err(ConfigError::IllegalPortName { name: self.ports.names[i].clone() });
            }
            i += 1;
        }
        Ok(())
    }
}

} // verus!
