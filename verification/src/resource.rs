//! Shared datastores: one per machine, not one per instance.
//!
//! grove asks the port, never the runtime. The same config has to work where Docker
//! is rootful, where it runs inside a VM, and where the port is simply forwarded from
//! another host — so "is something answering?" is the only question worth asking.
//! The application asks it, and runs Docker; the decisions are here.

use vstd::prelude::*;
use crate::config::Resource;
use crate::text::{owned, push_text, decimal, decimal_text, trim_text, trim, has_text, contains_text, copy_strings, texts, opt_text};

verus! {

/// The open-file limit a container grove starts is given, soft and hard.
pub const NOFILE_LIMIT: u64 = 64_000;

/// A container as `docker inspect` describes it.
#[derive(Debug, PartialEq, Eq)]
pub struct ContainerObservation {
    pub id: String,
    pub running: bool,
    pub exit_code: i64,
    pub nofile: Option<(u64, u64)>,
}

/// The port, and independently the container under grove's name.
#[derive(Debug)]
pub struct Observation {
    pub reachable: bool,
    pub container: Option<ContainerObservation>,
    pub docker_error: Option<String>,
}

#[derive(Debug)]
pub struct EnsureResult {
    pub started: bool,
    pub observation: Observation,
}

#[derive(Debug)]
pub enum Decision {
    /// Something already answers on the port. Use it and start nothing.
    Reuse { port: u16 },
    /// Nothing answers. These are the arguments to hand `docker`.
    Start(Vec<String>),
}

/// One element of `docker inspect`'s array, as far as grove reads it.
#[derive(Debug)]
pub struct Inspected {
    pub id: String,
    pub running: bool,
    pub exit_code: i64,
    /// `HostConfig.Ulimits`: name, soft, hard.
    pub ulimits: Vec<(String, u64, u64)>,
}

/// What running `docker inspect` came to.
#[derive(Debug)]
pub enum InspectRun {
    /// It succeeded, and its output read as these containers, or could not be read.
    Succeeded(Result<Vec<Inspected>, String>),
    /// It ran and failed, saying this on stderr.
    Failed { stderr: String },
    /// It could not be run at all.
    Unavailable { error: String },
}

pub open spec fn container_name_of(name: Seq<char>) -> Seq<char> {
    "grove-"@ + name
}

/// The name grove gives a container it starts for `resource`.
pub fn container_name(resource: &Resource) -> (n: String)
    ensures
        n@ == container_name_of(resource.name@),
{
    let mut n = owned("grove-");
    push_text(&mut n, resource.name.as_str());
    n
}

/// `nofile=64000:64000`.
pub open spec fn ulimit_arg() -> Seq<char> {
    "nofile="@ + decimal(NOFILE_LIMIT as nat) + ":"@ + decimal(NOFILE_LIMIT as nat)
}

/// `port:port`, publishing the datastore's port on the same host port.
pub open spec fn publish_arg(port: u16) -> Seq<char> {
    decimal(port as nat) + ":"@ + decimal(port as nat)
}

/// The arguments that start `resource`: detached, with the open-file limit, under
/// grove's name, publishing its port, then the image, then the container's own
/// arguments — after the image, because `--replSet rs0` is mongod's flag, not
/// docker's.
pub open spec fn start_argv(resource: &Resource) -> Seq<Seq<char>> {
    seq!["run"@, "-d"@, "--ulimit"@, ulimit_arg(), "--name"@, container_name_of(resource.name@), "-p"@, publish_arg(resource.port)]
        + (match resource.image { Some(i) => seq![i@], None => Seq::empty() })
        + texts(resource.args@)
}

fn ulimit_text() -> (s: String)
    ensures
        s@ == ulimit_arg(),
{
    let mut s = owned("nofile=");
    let n = decimal_text(NOFILE_LIMIT);
    push_text(&mut s, n.as_str());
    push_text(&mut s, ":");
    push_text(&mut s, n.as_str());
    s
}

fn publish_text(port: u16) -> (s: String)
    ensures
        s@ == publish_arg(port),
{
    let mut s = decimal_text(port as u64);
    push_text(&mut s, ":");
    let n = decimal_text(port as u64);
    push_text(&mut s, n.as_str());
    s
}

/// Reuse whatever answers on the port; otherwise the `docker` arguments that start
/// the datastore. `reachable` is whether anything answered there.
pub fn decide(resource: &Resource, reachable: bool) -> (d: Decision)
    ensures
        reachable ==> (d matches Decision::Reuse { port } && port == resource.port),
        !reachable ==> (d matches Decision::Start(argv) && texts(argv@) == start_argv(resource)),
{
    if reachable {
        return Decision::Reuse { port: resource.port };
    }
    let mut argv: Vec<String> = Vec::new();
    argv.push(owned("run"));
    argv.push(owned("-d"));
    argv.push(owned("--ulimit"));
    argv.push(ulimit_text());
    argv.push(owned("--name"));
    argv.push(container_name(resource));
    argv.push(owned("-p"));
    argv.push(publish_text(resource.port));
    let ghost head = texts(argv@);
    match &resource.image {
        Some(image) => argv.push(image.clone()),
        None => {},
    }
    let ghost with_image = texts(argv@);
    let mut i: usize = 0;
    while i < resource.args.len()
        invariant
            i <= resource.args.len(),
            texts(argv@) == with_image + texts(resource.args@).subrange(0, i as int),
        decreases resource.args.len() - i,
    {
        let a = resource.args[i].clone();
        assert(a@ == resource.args@[i as int]@);
        let ghost prev = texts(argv@);
        argv.push(a);
        assert(texts(argv@) =~= prev.push(resource.args@[i as int]@));
        assert(texts(resource.args@).subrange(0, i + 1) =~= texts(resource.args@).subrange(0, i as int).push(resource.args@[i as int]@));
        assert(texts(argv@) =~= with_image + texts(resource.args@).subrange(0, i + 1));
        i += 1;
    }
    assert(texts(resource.args@).subrange(0, resource.args@.len() as int) =~= texts(resource.args@));
    assert(texts(argv@) =~= start_argv(resource));
    Decision::Start(argv)
}

/// Docker's way of saying no container has that name.
pub open spec fn missing_container(error: Seq<char>) -> bool {
    contains_text(error, "No such object"@) || contains_text(error, "No such container"@)
}

pub fn is_missing_container(error: &str) -> (r: bool)
    ensures
        r == missing_container(error@),
{
    has_text(error, "No such object") || has_text(error, "No such container")
}

/// The container an inspection describes: the last element of the array, with its
/// `nofile` limit when one is set explicitly.
pub open spec fn nofile_of(limits: Seq<(String, u64, u64)>) -> Option<(u64, u64)>
    decreases limits.len(),
{
    if limits.len() == 0 {
        None
    } else if limits[0].0@ == "nofile"@ {
        Some((limits[0].1, limits[0].2))
    } else {
        nofile_of(limits.drop_first())
    }
}

/// The container that an inspection read as: the last element, if any, with its
/// identity, state, exit code and explicit `nofile` limit.
pub fn container_from(inspected: &Vec<Inspected>) -> (c: Option<ContainerObservation>)
    ensures
        inspected@.len() == 0 ==> c is None,
        inspected@.len() > 0 ==> match c {
            Some(o) => {
                let last = inspected@.last();
                o.id@ == last.id@ && o.running == last.running && o.exit_code == last.exit_code
                    && o.nofile == nofile_of(last.ulimits@)
            },
            None => false,
        },
{
    if inspected.len() == 0 {
        return None;
    }
    let last = &inspected[inspected.len() - 1];
    let mut nofile: Option<(u64, u64)> = None;
    let mut i: usize = 0;
    assert(last.ulimits@.subrange(0, last.ulimits@.len() as int) =~= last.ulimits@);
    while i < last.ulimits.len() && nofile.is_none()
        invariant
            i <= last.ulimits.len(),
            nofile is None ==> nofile_of(last.ulimits@) == nofile_of(last.ulimits@.subrange(i as int, last.ulimits@.len() as int)),
            nofile is Some ==> nofile == nofile_of(last.ulimits@),
        decreases last.ulimits.len() - i,
    {
        let ghost rest = last.ulimits@.subrange(i as int, last.ulimits@.len() as int);
        assert(rest.drop_first() =~= last.ulimits@.subrange(i + 1, last.ulimits@.len() as int));
        assert(rest[0] == last.ulimits@[i as int]);
        if crate::table::compare_text(last.ulimits[i].0.as_str(), "nofile") == 0 {
            nofile = Some((last.ulimits[i].1, last.ulimits[i].2));
        }
        i += 1;
    }
    if nofile.is_none() {
        assert(last.ulimits@.subrange(i as int, last.ulimits@.len() as int).len() == 0);
    }
    Some(ContainerObservation {
        id: last.id.clone(),
        running: last.running,
        exit_code: last.exit_code,
        nofile,
    })
}

/// What an observation concludes from the port and from `docker inspect`. Docker is
/// diagnostic here: an external resource stays valid when its port answers and no
/// container can be inspected, and a missing container is no error.
pub open spec fn observed(reachable: bool, run: InspectRun, o: Observation) -> bool {
    &&& o.reachable == reachable
    &&& match run {
        InspectRun::Succeeded(Ok(list)) => opt_text(o.docker_error) is None && match o.container {
            Some(c) => list@.len() > 0 && c.id@ == list@.last().id@ && c.running == list@.last().running
                && c.exit_code == list@.last().exit_code && c.nofile == nofile_of(list@.last().ulimits@),
            None => list@.len() == 0,
        },
        InspectRun::Succeeded(Err(e)) => o.container is None
            && opt_text(o.docker_error) == Some("reading docker inspect: "@ + e@),
        InspectRun::Failed { stderr } => o.container is None && if missing_container(trim(stderr@)) {
            o.docker_error is None
        } else {
            opt_text(o.docker_error) == Some(trim(stderr@))
        },
        InspectRun::Unavailable { error } => o.container is None && opt_text(o.docker_error) == Some(error@),
    }
}

/// Observe the port grove promises to reuse and, independently, the exact container
/// name grove claims when it starts this resource.
pub fn observe(reachable: bool, run: InspectRun) -> (o: Observation)
    ensures
        observed(reachable, run, o),
{
    match run {
        InspectRun::Succeeded(Ok(list)) => Observation {
            reachable,
            container: container_from(&list),
            docker_error: None,
        },
        InspectRun::Succeeded(Err(e)) => {
            let mut m = owned("reading docker inspect: ");
            push_text(&mut m, e.as_str());
            Observation { reachable, container: None, docker_error: Some(m) }
        },
        InspectRun::Failed { stderr } => {
            let error = trim_text(stderr.as_str());
            if is_missing_container(error.as_str()) {
                Observation { reachable, container: None, docker_error: None }
            } else {
                Observation { reachable, container: None, docker_error: Some(error) }
            }
        },
        InspectRun::Unavailable { error } => Observation { reachable, container: None, docker_error: Some(error) },
    }
}

/// The arguments for `docker inspect` of grove's container.
pub fn inspect_argv(resource: &Resource) -> (argv: Vec<String>)
    ensures
        texts(argv@) == seq!["inspect"@, container_name_of(resource.name@)],
{
    let mut argv: Vec<String> = Vec::new();
    argv.push(owned("inspect"));
    argv.push(container_name(resource));
    assert(texts(argv@) =~= seq!["inspect"@, container_name_of(resource.name@)]);
    argv
}

/// What `ensure` is to do about a resource.
#[derive(Debug)]
pub enum EnsurePlan {
    /// Something answers; start nothing.
    Reuse,
    /// Start the container with `run`, then, once it answers, run `init` (best
    /// effort: on a container already initialised it fails harmlessly).
    Start { run: Vec<String>, init: Option<Vec<String>> },
}

#[derive(Debug)]
pub enum ResourceError {
    /// Nothing answers and there is no image to start.
    NoImage { name: String, port: u16 },
}

impl ResourceError {
    pub open spec fn message_of(&self) -> Seq<char> {
        match self {
            ResourceError::NoImage { name, port } => "nothing is answering on port "@ + decimal(*port as nat)
                + " and resource `"@ + name@ + "` declares no image to start"@,
        }
    }

    pub fn message(&self) -> (m: String)
        ensures
            m@ == self.message_of(),
    {
        match self {
            ResourceError::NoImage { name, port } => {
                let mut m = owned("nothing is answering on port ");
                let p = decimal_text(*port as u64);
                push_text(&mut m, p.as_str());
                push_text(&mut m, " and resource `");
                push_text(&mut m, name.as_str());
                push_text(&mut m, "` declares no image to start");
                m
            },
        }
    }
}

/// `docker exec grove-<name> mongosh --quiet --eval <init>`.
pub open spec fn init_argv(resource: &Resource, init: Seq<char>) -> Seq<Seq<char>> {
    seq!["exec"@, container_name_of(resource.name@), "mongosh"@, "--quiet"@, "--eval"@, init]
}

/// Start the datastore if nothing is answering, then run its one-time init.
pub fn ensure(resource: &Resource, reachable: bool) -> (r: Result<EnsurePlan, ResourceError>)
    ensures
        reachable ==> r matches Ok(EnsurePlan::Reuse),
        !reachable && resource.image is None ==> (r matches Err(ResourceError::NoImage { name, port })
            && name@ == resource.name@ && port == resource.port),
        !reachable && resource.image is Some ==> match r {
            Ok(EnsurePlan::Start { run, init }) => texts(run@) == start_argv(resource) && match resource.init {
                Some(i) => init matches Some(a) && texts(a@) == init_argv(resource, i@),
                None => init is None,
            },
            _ => false,
        },
{
    match decide(resource, reachable) {
        Decision::Reuse { .. } => Ok(EnsurePlan::Reuse),
        Decision::Start(run) => {
            if resource.image.is_none() {
                return Err(ResourceError::NoImage { name: resource.name.clone(), port: resource.port });
            }
            let init = match &resource.init {
                None => None,
                Some(i) => {
                    let mut a: Vec<String> = Vec::new();
                    a.push(owned("exec"));
                    a.push(container_name(resource));
                    a.push(owned("mongosh"));
                    a.push(owned("--quiet"));
                    a.push(owned("--eval"));
                    a.push(i.clone());
                    assert(texts(a@) =~= init_argv(resource, i@));
                    Some(a)
                },
            };
            Ok(EnsurePlan::Start { run, init })
        },
    }
}

/// Why starting a resource failed, for the error that wraps Docker's own.
pub fn start_failure_context(resource: &Resource) -> (m: String)
    ensures
        m@ == "starting `"@ + resource.name@ + "` on port "@ + decimal(resource.port as nat) + ". If you provide "@
            + resource.name@ + " yourself, start it and run `grove up` again."@,
{
    let mut m = owned("starting `");
    push_text(&mut m, resource.name.as_str());
    push_text(&mut m, "` on port ");
    let p = decimal_text(resource.port as u64);
    push_text(&mut m, p.as_str());
    push_text(&mut m, ". If you provide ");
    push_text(&mut m, resource.name.as_str());
    push_text(&mut m, " yourself, start it and run `grove up` again.");
    m
}

/// A started container that never answered.
pub fn never_answered(resource: &Resource) -> (m: String)
    ensures
        m@ == "`"@ + resource.name@ + "` was started but never answered on port "@ + decimal(resource.port as nat),
{
    let mut m = owned("`");
    push_text(&mut m, resource.name.as_str());
    push_text(&mut m, "` was started but never answered on port ");
    let p = decimal_text(resource.port as u64);
    push_text(&mut m, p.as_str());
    m
}

pub open spec fn drop_eval(database: Seq<char>) -> Seq<char> {
    "db.getSiblingDB('"@ + database + "').dropDatabase()"@
}

pub open spec fn mongo_url(port: u16) -> Seq<char> {
    "mongodb://localhost:"@ + decimal(port as nat)
}

/// Arguments for a host `mongosh` addressed at the datastore's port. The port is the
/// one thing grove always knows: dropping has to work for a datastore grove never
/// started.
pub fn drop_database_command(resource: &Resource, database: &str) -> (argv: Vec<String>)
    ensures
        texts(argv@) == seq!["--quiet"@, mongo_url(resource.port), "--eval"@, drop_eval(database@)],
{
    let mut argv: Vec<String> = Vec::new();
    argv.push(owned("--quiet"));
    let mut url = owned("mongodb://localhost:");
    let p = decimal_text(resource.port as u64);
    push_text(&mut url, p.as_str());
    argv.push(url);
    argv.push(owned("--eval"));
    let mut eval = owned("db.getSiblingDB('");
    push_text(&mut eval, database);
    push_text(&mut eval, "').dropDatabase()");
    argv.push(eval);
    assert(texts(argv@) =~= seq!["--quiet"@, mongo_url(resource.port), "--eval"@, drop_eval(database@)]);
    argv
}

/// The same drop run inside a container grove started, for machines with no client
/// installed: `docker exec grove-<name> mongosh ...`.
pub fn drop_database_in_container(resource: &Resource, database: &str) -> (argv: Vec<String>)
    ensures
        texts(argv@) == seq!["exec"@, container_name_of(resource.name@), "mongosh"@]
            + seq!["--quiet"@, mongo_url(resource.port), "--eval"@, drop_eval(database@)],
{
    let mut argv: Vec<String> = Vec::new();
    argv.push(owned("exec"));
    argv.push(container_name(resource));
    argv.push(owned("mongosh"));
    let rest = drop_database_command(resource, database);
    let ghost head = texts(argv@);
    let mut i: usize = 0;
    while i < rest.len()
        invariant
            i <= rest.len(),
            texts(argv@) == head + texts(rest@).subrange(0, i as int),
        decreases rest.len() - i,
    {
        let a = rest[i].clone();
        assert(a@ == rest@[i as int]@);
        let ghost prev = texts(argv@);
        argv.push(a);
        assert(texts(argv@) =~= prev.push(rest@[i as int]@));
        assert(texts(rest@).subrange(0, i + 1) =~= texts(rest@).subrange(0, i as int).push(rest@[i as int]@));
        assert(texts(argv@) =~= head + texts(rest@).subrange(0, i + 1));
        i += 1;
    }
    assert(texts(rest@).subrange(0, rest@.len() as int) =~= texts(rest@));
    argv
}

/// What to say when neither way of dropping worked, with the command to run by hand.
pub fn drop_database_failure(resource: &Resource, database: &str) -> (m: String)
    ensures
        m@ == "could not drop `"@ + database@
            + "` automatically — no mongosh on PATH, and no container grove started to run one in. Drop it with:\n  mongosh mongodb://localhost:"@
            + decimal(resource.port as nat) + " --eval \"db.getSiblingDB('"@ + database@ + "').dropDatabase()\""@,
{
    let mut m = owned("could not drop `");
    push_text(&mut m, database);
    push_text(&mut m, "` automatically — no mongosh on PATH, and no container grove started to run one in. Drop it with:\n  mongosh mongodb://localhost:");
    let p = decimal_text(resource.port as u64);
    push_text(&mut m, p.as_str());
    push_text(&mut m, " --eval \"db.getSiblingDB('");
    push_text(&mut m, database);
    push_text(&mut m, "').dropDatabase()\"");
    m
}

/// The `docker` arguments for the last `lines` log lines of grove's container, used
/// only once doctor has found the managed container unusable.
pub fn logs(resource: &Resource, lines: usize) -> (argv: Vec<String>)
    ensures
        texts(argv@) == seq!["logs"@, "--tail"@, decimal(lines as nat), container_name_of(resource.name@)],
{
    let mut argv: Vec<String> = Vec::new();
    argv.push(owned("logs"));
    argv.push(owned("--tail"));
    argv.push(decimal_text(lines as u64));
    argv.push(container_name(resource));
    assert(texts(argv@) =~= seq!["logs"@, "--tail"@, decimal(lines as nat), container_name_of(resource.name@)]);
    argv
}

/// How many times a started datastore's port is tried before grove gives up on it.
pub const REACH_ATTEMPTS: u32 = 100;

/// The pause between two tries, in milliseconds: ten seconds in all.
pub const REACH_INTERVAL_MS: u64 = 100;

/// What to do after trying a started datastore's port.
#[derive(Debug)]
pub enum ReachStep {
    /// It answered.
    Reachable,
    /// Pause, then try again.
    Wait,
    /// Every try is spent: report that it never answered.
    GiveUp,
}

/// The decision after the try numbered `attempt`, counting from one.
pub fn reach_step(answered: bool, attempt: u32) -> (s: ReachStep)
    ensures
        answered ==> s is Reachable,
        !answered && attempt < REACH_ATTEMPTS ==> s is Wait,
        !answered && attempt >= REACH_ATTEMPTS ==> s is GiveUp,
{
    if answered {
        ReachStep::Reachable
    } else if attempt < REACH_ATTEMPTS {
        ReachStep::Wait
    } else {
        ReachStep::GiveUp
    }
}

} // verus!
