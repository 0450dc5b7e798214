//! Everything that has to be true before `up` can work, checked in one pass.
//!
//! Each failure states the fix. An agent that reads "X is missing" and nothing else
//! spends a round trip guessing; one that reads "X is missing, create it at Y" does
//! not. The application gathers the facts — which files exist, what the datastore
//! port and Docker say — and this module reaches the verdicts.

use vstd::prelude::*;
use crate::config::Resource;
use crate::instance::Instance;
use crate::resource::{Observation, ContainerObservation, NOFILE_LIMIT};
use crate::table::table_map;
use crate::text::{
    owned, push_text, decimal, decimal_text, signed_decimal, signed_text, join, join_path, chars_of,
    string_of, slice_chars, trim_text, trim, opt_text,
};

verus! {

#[derive(Debug)]
pub enum Verdict {
    Pass(String),
    Warn(String),
    Fail { what: String, fix: String },
}

/// A verdict with its texts as characters.
pub enum VerdictView {
    Pass(Seq<char>),
    Warn(Seq<char>),
    Fail(Seq<char>, Seq<char>),
}

impl View for Verdict {
    type V = VerdictView;

    open spec fn view(&self) -> VerdictView {
        match self {
            Verdict::Pass(w) => VerdictView::Pass(w@),
            Verdict::Warn(w) => VerdictView::Warn(w@),
            Verdict::Fail { what, fix } => VerdictView::Fail(what@, fix@),
        }
    }
}

impl Verdict {
    pub open spec fn line_of(&self) -> Seq<char> {
        match self {
            Verdict::Pass(w) => "  ok    "@ + w@,
            Verdict::Warn(w) => "  warn  "@ + w@,
            Verdict::Fail { what, fix } => "  FAIL  "@ + what@ + "\n        "@ + fix@,
        }
    }

    /// The verdict as the report prints it.
    pub fn line(&self) -> (s: String)
        ensures
            s@ == self.line_of(),
    {
        match self {
            Verdict::Pass(w) => {
                let mut s = owned("  ok    ");
                push_text(&mut s, w.as_str());
                s
            },
            Verdict::Warn(w) => {
                let mut s = owned("  warn  ");
                push_text(&mut s, w.as_str());
                s
            },
            Verdict::Fail { what, fix } => {
                let mut s = owned("  FAIL  ");
                push_text(&mut s, what.as_str());
                push_text(&mut s, "\n        ");
                push_text(&mut s, fix.as_str());
                s
            },
        }
    }
}

/// How many lines of an unusable managed container's log the report quotes.
pub const LOG_LINES: usize = 10;

/// Everything needed to start is in place: no verdict failed.
pub fn healthy(verdicts: &Vec<Verdict>) -> (r: bool)
    ensures
        r == forall|i: int| 0 <= i < verdicts@.len() ==> !(#[trigger] verdicts@[i] is Fail),
{
    let mut i: usize = 0;
    while i < verdicts.len()
        invariant
            i <= verdicts.len(),
            forall|j: int| 0 <= j < i ==> !(#[trigger] verdicts@[j] is Fail),
        decreases verdicts.len() - i,
    {
        if let Verdict::Fail { .. } = &verdicts[i] {
            return false;
        }
        i += 1;
    }
    true
}

/// The first twelve characters of a container id.
pub open spec fn short_id_of(id: Seq<char>) -> Seq<char> {
    if id.len() <= 12 { id } else { id.subrange(0, 12) }
}

pub fn short_id(id: &str) -> (s: String)
    ensures
        s@ == short_id_of(id@),
{
    let cs = chars_of(id);
    let n = if cs.len() <= 12 { cs.len() } else { 12 };
    let head = slice_chars(&cs, 0, n);
    assert(cs@.len() <= 12 ==> cs@.subrange(0, n as int) =~= cs@);
    string_of(&head)
}

pub open spec fn expected_limit() -> Seq<char> {
    decimal(NOFILE_LIMIT as nat) + ":"@ + decimal(NOFILE_LIMIT as nat)
}

/// `<name> answering on <port>`.
pub open spec fn answering(r: &Resource) -> Seq<char> {
    r.name@ + " answering on "@ + decimal(r.port as nat)
}

/// The limit a container was observed with, or that none was set.
pub open spec fn actual_limit(nofile: Option<(u64, u64)>) -> Seq<char> {
    match nofile {
        Some((soft, hard)) => decimal(soft as nat) + ":"@ + decimal(hard as nat),
        None => "not explicitly set"@,
    }
}

/// What the last resource log lines came to: the trimmed body, or why there is none.
pub open spec fn logs_text(logs: Result<String, String>) -> Seq<char> {
    match logs {
        Ok(body) => trim(body@),
        Err(e) => "resource logs unavailable: "@ + e@,
    }
}

/// The logs a verdict on this observation quotes are needed: the port is dead and
/// grove's container is there.
pub open spec fn wants_logs(observed: &Observation) -> bool {
    !observed.reachable && observed.container is Some
}

pub fn needs_logs(observed: &Observation) -> (r: bool)
    ensures
        r == wants_logs(observed),
{
    !observed.reachable && observed.container.is_some()
}

/// The verdict on one declared datastore, from what its port and Docker said.
pub open spec fn resource_verdict(declared: &Resource, observed: &Observation, logs: Result<String, String>) -> VerdictView {
    if observed.reachable {
        match observed.container {
            Some(c) => if c.running && c.nofile == Some((NOFILE_LIMIT, NOFILE_LIMIT)) {
                VerdictView::Pass(answering(declared) + ", container "@ + short_id_of(c.id@) + ", nofile="@ + expected_limit())
            } else if c.running {
                VerdictView::Warn(answering(declared) + ", container "@ + short_id_of(c.id@) + " has nofile observed "@
                    + actual_limit(c.nofile) + ", expected "@ + expected_limit()
                    + ". Preserve needed data, then deliberately remove and recreate it to adopt the limit."@)
            } else {
                VerdictView::Warn(declared.name@ + " answers on "@ + decimal(declared.port as nat) + ", but stopped container "@
                    + short_id_of(c.id@) + " (exit "@ + signed_decimal(c.exit_code as int)
                    + ") still owns Grove's name. Preserve needed data, then remove it before Grove ever needs to recreate the resource."@)
            },
            None => VerdictView::Pass(answering(declared) + " (external or unobserved; Docker launch limits unavailable"@
                + (match observed.docker_error { Some(e) => ": "@ + e@, None => Seq::empty() }) + ")"@),
        }
    } else {
        match observed.container {
            Some(c) => VerdictView::Fail(
                declared.name@ + " is not answering on "@ + decimal(declared.port as nat) + "; managed container "@
                    + short_id_of(c.id@) + " is "@ + (if c.running { "running"@ } else { "stopped"@ })
                    + " (exit "@ + signed_decimal(c.exit_code as int) + ")"@,
                "the existing container name blocks `grove up`; first preserve any needed data, then remove and recreate the container. Last resource log lines:\n"@
                    + logs_text(logs),
            ),
            None => if observed.docker_error is Some && declared.image is Some {
                VerdictView::Fail(
                    declared.name@ + " is not answering on "@ + decimal(declared.port as nat) + ", and Docker cannot inspect or start it"@,
                    "make Docker available, then run `grove up` again: "@ + observed.docker_error->0@,
                )
            } else if declared.image is Some {
                VerdictView::Warn(declared.name@ + " is not running; `grove up` will start "@ + declared.image->0@
                    + " on port "@ + decimal(declared.port as nat))
            } else {
                VerdictView::Fail(
                    declared.name@ + " is not answering on "@ + decimal(declared.port as nat),
                    "start it yourself — `"@ + declared.name@ + "` declares no image for grove to run"@,
                )
            },
        }
    }
}

fn answering_text(r: &Resource) -> (s: String)
    ensures
        s@ == answering(r),
{
    let mut s = r.name.clone();
    push_text(&mut s, " answering on ");
    let p = decimal_text(r.port as u64);
    push_text(&mut s, p.as_str());
    s
}

fn expected_text() -> (s: String)
    ensures
        s@ == expected_limit(),
{
    let mut s = decimal_text(NOFILE_LIMIT);
    push_text(&mut s, ":");
    let n = decimal_text(NOFILE_LIMIT);
    push_text(&mut s, n.as_str());
    s
}

/// The verdict on one datastore. `logs` is what `docker logs` gave for grove's
/// container, or why it gave nothing; it is read only when `needs_logs` holds.
pub fn check_resource(declared: &Resource, observed: &Observation, logs: Result<String, String>) -> (v: Verdict)
    ensures
        v@ == resource_verdict(declared, observed, logs),
{
    let port = decimal_text(declared.port as u64);
    if observed.reachable {
        match &observed.container {
            Some(c) => {
                let full = match c.nofile {
                    Some((soft, hard)) => soft == NOFILE_LIMIT && hard == NOFILE_LIMIT,
                    None => false,
                };
                assert(full == (c.nofile == Some((NOFILE_LIMIT, NOFILE_LIMIT))));
                if c.running && full {
                    let mut s = answering_text(declared);
                    push_text(&mut s, ", container ");
                    let id = short_id(c.id.as_str());
                    push_text(&mut s, id.as_str());
                    push_text(&mut s, ", nofile=");
                    let e = expected_text();
                    push_text(&mut s, e.as_str());
                    Verdict::Pass(s)
                } else if c.running {
                    let mut s = answering_text(declared);
                    push_text(&mut s, ", container ");
                    let id = short_id(c.id.as_str());
                    push_text(&mut s, id.as_str());
                    push_text(&mut s, " has nofile observed ");
                    let actual = match c.nofile {
                        Some((soft, hard)) => {
                            let mut a = decimal_text(soft);
                            push_text(&mut a, ":");
                            let h = decimal_text(hard);
                            push_text(&mut a, h.as_str());
                            a
                        },
                        None => owned("not explicitly set"),
                    };
                    push_text(&mut s, actual.as_str());
                    push_text(&mut s, ", expected ");
                    let e = expected_text();
                    push_text(&mut s, e.as_str());
                    push_text(&mut s, ". Preserve needed data, then deliberately remove and recreate it to adopt the limit.");
                    Verdict::Warn(s)
                } else {
                    let mut s = declared.name.clone();
                    push_text(&mut s, " answers on ");
                    push_text(&mut s, port.as_str());
                    push_text(&mut s, ", but stopped container ");
                    let id = short_id(c.id.as_str());
                    push_text(&mut s, id.as_str());
                    push_text(&mut s, " (exit ");
                    let x = signed_text(c.exit_code);
                    push_text(&mut s, x.as_str());
                    push_text(&mut s, ") still owns Grove's name. Preserve needed data, then remove it before Grove ever needs to recreate the resource.");
                    Verdict::Warn(s)
                }
            },
            None => {
                let mut s = answering_text(declared);
                push_text(&mut s, " (external or unobserved; Docker launch limits unavailable");
                match &observed.docker_error {
                    Some(e) => {
                        push_text(&mut s, ": ");
                        push_text(&mut s, e.as_str());
                    },
                    None => {},
                }
                push_text(&mut s, ")");
                proof {
                    if observed.docker_error is Some {
                        assert(s@ =~= answering(declared) + " (external or unobserved; Docker launch limits unavailable"@
                            + (": "@ + observed.docker_error->0@) + ")"@);
                    }
                    if observed.docker_error is None {
                        assert(s@ =~= answering(declared) + " (external or unobserved; Docker launch limits unavailable"@ + Seq::<char>::empty() + ")"@);
                    }
                }
                Verdict::Pass(s)
            },
        }
    } else {
        match &observed.container {
            Some(c) => {
                let body = match logs {
                    Ok(b) => trim_text(b.as_str()),
                    Err(e) => {
                        let mut m = owned("resource logs unavailable: ");
                        push_text(&mut m, e.as_str());
                        m
                    },
                };
                let mut what = declared.name.clone();
                push_text(&mut what, " is not answering on ");
                push_text(&mut what, port.as_str());
                push_text(&mut what, "; managed container ");
                let id = short_id(c.id.as_str());
                push_text(&mut what, id.as_str());
                push_text(&mut what, " is ");
                if c.running {
                    push_text(&mut what, "running");
                } else {
                    push_text(&mut what, "stopped");
                }
                push_text(&mut what, " (exit ");
                let x = signed_text(c.exit_code);
                push_text(&mut what, x.as_str());
                push_text(&mut what, ")");
                let mut fix = owned("the existing container name blocks `grove up`; first preserve any needed data, then remove and recreate the container. Last resource log lines:\n");
                push_text(&mut fix, body.as_str());
                Verdict::Fail { what, fix }
            },
            None => {
                if observed.docker_error.is_some() && declared.image.is_some() {
                    let mut what = declared.name.clone();
                    push_text(&mut what, " is not answering on ");
                    push_text(&mut what, port.as_str());
                    push_text(&mut what, ", and Docker cannot inspect or start it");
                    let mut fix = owned("make Docker available, then run `grove up` again: ");
                    match &observed.docker_error {
                        Some(e) => push_text(&mut fix, e.as_str()),
                        None => {},
                    }
                    Verdict::Fail { what, fix }
                } else {
                    match &declared.image {
                        Some(image) => {
                            let mut s = declared.name.clone();
                            push_text(&mut s, " is not running; `grove up` will start ");
                            push_text(&mut s, image.as_str());
                            push_text(&mut s, " on port ");
                            push_text(&mut s, port.as_str());
                            Verdict::Warn(s)
                        },
                        None => {
                            let mut what = declared.name.clone();
                            push_text(&mut what, " is not answering on ");
                            push_text(&mut what, port.as_str());
                            let mut fix = owned("start it yourself — `");
                            push_text(&mut fix, declared.name.as_str());
                            push_text(&mut fix, "` declares no image for grove to run");
                            Verdict::Fail { what, fix }
                        },
                    }
                }
            },
        }
    }
}

/// What the application found out for `check`.
#[derive(Debug)]
pub struct DoctorFacts {
    /// For each `[[secrets]]` block, whether its source file is in the main checkout.
    pub sources_present: Vec<bool>,
    /// For each `[[resource]]`, what its port and Docker said.
    pub observations: Vec<Observation>,
    /// For each `[[resource]]`, its container's last log lines or why there are none;
    /// read only where `needs_logs` holds.
    pub logs: Vec<Result<String, String>>,
}

pub open spec fn verdict_views(v: Seq<Verdict>) -> Seq<VerdictView> {
    Seq::new(v.len(), |i: int| v[i]@)
}

pub open spec fn place_verdict(inst: &Instance) -> VerdictView {
    if inst.resolved.worktree@ == inst.resolved.main_worktree@ {
        VerdictView::Fail(
            "this is the main worktree ("@ + inst.resolved.worktree@ + ")"@,
            "grove reads secrets from here, so it will not write over them. Run from a linked worktree."@,
        )
    } else {
        VerdictView::Pass("worktree "@ + inst.resolved.slug@ + " off "@ + inst.resolved.main_worktree@)
    }
}

pub open spec fn exposure_verdicts(inst: &Instance) -> Seq<VerdictView> {
    if inst.exposure is Exposed {
        seq![VerdictView::Warn("instance is exposed on all interfaces as "@ + inst.exposure.public_host_of()
            + "; development services and authentication bypasses may be reachable from other machines"@)]
    } else {
        Seq::empty()
    }
}

pub open spec fn secret_verdict(main: Seq<char>, from: Seq<char>, present: bool) -> VerdictView {
    if present {
        VerdictView::Pass(from + " in the main checkout"@)
    } else {
        VerdictView::Fail(
            from + " is missing from the main checkout"@,
            "create "@ + join_path(main, from)
                + " — a worktree never inherits gitignored files, so this is the only copy grove can read"@,
        )
    }
}

pub open spec fn port_verdict(name: Seq<char>, port: u16) -> VerdictView {
    VerdictView::Pass("port "@ + decimal(port as nat) + " reserved for "@ + name)
}

pub open spec fn services_verdicts(inst: &Instance) -> Seq<VerdictView> {
    if inst.config.services@.len() == 0 {
        seq![VerdictView::Warn("this config declares no services, so `up` will start nothing"@)]
    } else {
        Seq::empty()
    }
}

/// The whole report, in order: where we are, exposure, each env file's source, each
/// datastore, each reserved port, and whether anything would start at all.
pub open spec fn check_spec(inst: &Instance, facts: &DoctorFacts) -> Seq<VerdictView> {
    seq![place_verdict(inst)]
        + exposure_verdicts(inst)
        + Seq::new(inst.config.secrets@.len(), |i: int| secret_verdict(
            inst.resolved.main_worktree@, inst.config.secrets@[i].from@, facts.sources_present@[i]))
        + Seq::new(inst.config.resources@.len(), |i: int| resource_verdict(
            &inst.config.resources@[i], &facts.observations@[i], facts.logs@[i]))
        + Seq::new(inst.entry.ports@.len(), |i: int| port_verdict(inst.entry.ports@[i].0@, inst.entry.ports@[i].1))
        + services_verdicts(inst)
}

/// `doctor` and the commands that refuse the main worktree agree: the report opens
/// with a failure exactly where `refuse_in_main` refuses, so no worktree `doctor`
/// clears is one `up` turns away for being the main checkout.
pub proof fn law_doctor_and_up_agree_on_the_main_worktree(inst: &Instance, facts: &DoctorFacts)
    ensures
        check_spec(inst, facts)[0] is Fail <==> inst.resolved.worktree@ == inst.resolved.main_worktree@,
{
}

/// A `[[secrets]]` source missing from the main checkout makes the report unhealthy:
/// that file's verdict is a failure, so `doctor` never clears a worktree whose secrets
/// cannot be copied.
pub proof fn law_a_missing_secret_source_fails_the_report(inst: &Instance, facts: &DoctorFacts, i: int)
    requires
        facts.sources_present@.len() == inst.config.secrets@.len(),
        facts.observations@.len() == inst.config.resources@.len(),
        facts.logs@.len() == inst.config.resources@.len(),
        0 <= i < inst.config.secrets@.len(),
        !facts.sources_present@[i],
    ensures
        ({
            let j = 1 + exposure_verdicts(inst).len() + i;
            &&& j < check_spec(inst, facts).len()
            &&& check_spec(inst, facts)[j] is Fail
        }),
        exists|j: int| 0 <= j < check_spec(inst, facts).len() && #[trigger] check_spec(inst, facts)[j] is Fail,
{
    let head = seq![place_verdict(inst)] + exposure_verdicts(inst);
    let secrets = Seq::new(inst.config.secrets@.len(), |k: int| secret_verdict(
        inst.resolved.main_worktree@, inst.config.secrets@[k].from@, facts.sources_present@[k]));
    let j = 1 + exposure_verdicts(inst).len() + i;
    assert(head.len() == 1 + exposure_verdicts(inst).len());
    assert((head + secrets)[j] == secrets[i]);
    assert(secrets[i] is Fail);
    assert(check_spec(inst, facts)[j] == (head + secrets)[j]);
}

fn copy_result(r: &Result<String, String>) -> (c: Result<String, String>)
    ensures
        match (c, *r) {
            (Ok(a), Ok(b)) => a@ == b@,
            (Err(a), Err(b)) => a@ == b@,
            _ => false,
        },
{
    match r {
        Ok(a) => Ok(a.clone()),
        Err(e) => Err(e.clone()),
    }
}

proof fn lemma_logs_view(a: Result<String, String>, b: Result<String, String>)
    requires
        match (a, b) {
            (Ok(x), Ok(y)) => x@ == y@,
            (Err(x), Err(y)) => x@ == y@,
            _ => false,
        },
    ensures
        logs_text(a) == logs_text(b),
{
}

/// Check that this worktree can start.
pub fn check(instance: &Instance, facts: &DoctorFacts) -> (verdicts: Vec<Verdict>)
    requires
        facts.sources_present@.len() == instance.config.secrets@.len(),
        facts.observations@.len() == instance.config.resources@.len(),
        facts.logs@.len() == instance.config.resources@.len(),
    ensures
        verdict_views(verdicts@) == check_spec(instance, facts),
        (exists|i: int| 0 <= i < instance.config.secrets@.len() && !#[trigger] facts.sources_present@[i])
            ==> exists|j: int| 0 <= j < verdicts@.len() && #[trigger] verdicts@[j] is Fail,
{
    let mut verdicts: Vec<Verdict> = Vec::new();
    let r = &instance.resolved;
    if r.is_main() {
        let mut what = owned("this is the main worktree (");
        push_text(&mut what, r.worktree.as_str());
        push_text(&mut what, ")");
        verdicts.push(Verdict::Fail {
            what,
            fix: owned("grove reads secrets from here, so it will not write over them. Run from a linked worktree."),
        });
    } else {
        let mut s = owned("worktree ");
        push_text(&mut s, r.slug.as_str());
        push_text(&mut s, " off ");
        push_text(&mut s, r.main_worktree.as_str());
        verdicts.push(Verdict::Pass(s));
    }
    assert(verdict_views(verdicts@) =~= seq![place_verdict(instance)]);
    if instance.exposure.is_exposed() {
        let mut s = owned("instance is exposed on all interfaces as ");
        push_text(&mut s, instance.exposure.public_host());
        push_text(&mut s, "; development services and authentication bypasses may be reachable from other machines");
        verdicts.push(Verdict::Warn(s));
    }
    let ghost head = seq![place_verdict(instance)] + exposure_verdicts(instance);
    assert(verdict_views(verdicts@) =~= head);
    let secrets = &instance.config.secrets;
    let ghost secret_part = Seq::new(secrets@.len(), |i: int| secret_verdict(
        r.main_worktree@, secrets@[i].from@, facts.sources_present@[i]));
    let mut i: usize = 0;
    while i < secrets.len()
        invariant
            i <= secrets.len(),
            facts.sources_present@.len() == secrets@.len(),
            secrets == &instance.config.secrets,
            r == &instance.resolved,
            secret_part == Seq::new(secrets@.len(), |i: int| secret_verdict(
                r.main_worktree@, secrets@[i].from@, facts.sources_present@[i])),
            verdict_views(verdicts@) == head + secret_part.subrange(0, i as int),
        decreases secrets.len() - i,
    {
        let from = &secrets[i].from;
        let v = if facts.sources_present[i] {
            let mut s = from.clone();
            push_text(&mut s, " in the main checkout");
            Verdict::Pass(s)
        } else {
            let mut what = from.clone();
            push_text(&mut what, " is missing from the main checkout");
            let mut fix = owned("create ");
            let source = join(r.main_worktree.as_str(), from.as_str());
            push_text(&mut fix, source.as_str());
            push_text(&mut fix, " — a worktree never inherits gitignored files, so this is the only copy grove can read");
            Verdict::Fail { what, fix }
        };
        let ghost prev = verdict_views(verdicts@);
        verdicts.push(v);
        assert(verdict_views(verdicts@) =~= prev.push(secret_part[i as int]));
        assert(secret_part.subrange(0, i + 1) =~= secret_part.subrange(0, i as int).push(secret_part[i as int]));
        i += 1;
    }
    assert(secret_part.subrange(0, secrets@.len() as int) =~= secret_part);
    let ghost head2 = head + secret_part;
    let resources = &instance.config.resources;
    let ghost resource_part = Seq::new(resources@.len(), |i: int| resource_verdict(
        &resources@[i], &facts.observations@[i], facts.logs@[i]));
    let mut i: usize = 0;
    while i < resources.len()
        invariant
            i <= resources.len(),
            facts.observations@.len() == resources@.len(),
            facts.logs@.len() == resources@.len(),
            resources == &instance.config.resources,
            resource_part == Seq::new(resources@.len(), |i: int| resource_verdict(
                &resources@[i], &facts.observations@[i], facts.logs@[i])),
            verdict_views(verdicts@) == head2 + resource_part.subrange(0, i as int),
        decreases resources.len() - i,
    {
        let logs = copy_result(&facts.logs[i]);
        proof { lemma_logs_view(logs, facts.logs@[i as int]); }
        let v = check_resource(&resources[i], &facts.observations[i], logs);
        let ghost prev = verdict_views(verdicts@);
        verdicts.push(v);
        assert(verdict_views(verdicts@) =~= prev.push(resource_part[i as int]));
        assert(resource_part.subrange(0, i + 1) =~= resource_part.subrange(0, i as int).push(resource_part[i as int]));
        i += 1;
    }
    assert(resource_part.subrange(0, resources@.len() as int) =~= resource_part);
    let ghost head3 = head2 + resource_part;
    let ports = &instance.entry.ports;
    let ghost port_part = Seq::new(ports@.len(), |i: int| port_verdict(ports@[i].0@, ports@[i].1));
    let mut i: usize = 0;
    while i < ports.len()
        invariant
            i <= ports.len(),
            ports == &instance.entry.ports,
            port_part == Seq::new(ports@.len(), |i: int| port_verdict(ports@[i].0@, ports@[i].1)),
            verdict_views(verdicts@) == head3 + port_part.subrange(0, i as int),
        decreases ports.len() - i,
    {
        let mut s = owned("port ");
        let p = decimal_text(ports[i].1 as u64);
        push_text(&mut s, p.as_str());
        push_text(&mut s, " reserved for ");
        push_text(&mut s, ports[i].0.as_str());
        let ghost prev = verdict_views(verdicts@);
        verdicts.push(Verdict::Pass(s));
        assert(verdict_views(verdicts@) =~= prev.push(port_part[i as int]));
        assert(port_part.subrange(0, i + 1) =~= port_part.subrange(0, i as int).push(port_part[i as int]));
        i += 1;
    }
    assert(port_part.subrange(0, ports@.len() as int) =~= port_part);
    if instance.config.services.len() == 0 {
        verdicts.push(Verdict::Warn(owned("this config declares no services, so `up` will start nothing")));
    }
    assert(verdict_views(verdicts@) =~= check_spec(instance, facts));
    proof {
        if exists|i: int| 0 <= i < instance.config.secrets@.len() && !#[trigger] facts.sources_present@[i] {
            let i = choose|i: int| 0 <= i < instance.config.secrets@.len() && !#[trigger] facts.sources_present@[i];
            law_a_missing_secret_source_fails_the_report(instance, facts, i);
            let j = 1 + exposure_verdicts(instance).len() + i;
            assert(verdict_views(verdicts@)[j] == verdicts@[j]@);
            assert(verdicts@[j] is Fail);
        }
    }
    verdicts
}

} // verus!
