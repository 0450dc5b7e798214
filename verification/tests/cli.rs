//! The command-line scenarios, asked of the library: what each command decides and
//! says, given what the application would have found on the machine.

use grove::config::{Config, Ports, Ready, Secrets, Service};
use grove::doctor::{check, healthy, DoctorFacts};
use grove::exposure::Exposure;
use grove::instance::Instance;
use grove::machine::{
    ls_lines, ls_order, ls_row, prune_report, refuse_purging_a_sweep, run_note, survey, sweep_plan, sweep_report,
    up_warning, EntryFacts, LoadReading,
};
use grove::ports::default_range;
use grove::registry::{Entry, Registry};
use grove::resolve::Resolved;
use grove::supervise::{log_text, Handle, START_MARKER};

const MAIN: &str = "/work/app";

/// The config every scenario uses: one port, one env file with two overrides, and a
/// service that binds its port.
fn config() -> Config {
    Config {
        version: 1,
        ports: Ports { names: vec!["web".to_string()] },
        secrets: vec![Secrets {
            from: "backend/.env.local".to_string(),
            into: "backend/.env.local".to_string(),
            set: vec![
                ("API_URL".to_string(), "http://localhost:{{ port.web }}".to_string()),
                ("INSTANCE".to_string(), "{{ slug }}".to_string()),
            ],
        }],
        resources: vec![],
        services: vec![Service {
            name: "web".to_string(),
            cwd: None,
            setup: None,
            prepare: None,
            command: "python3 -u -m http.server {{ port.web }}".to_string(),
            ready: Some(Ready {
                http: "http://127.0.0.1:{{ port.web }}/".to_string(),
                timeout: "30s".to_string(),
            }),
        }],
        seeds: vec![],
    }
}

fn resolved(slug: &str) -> Resolved {
    let worktree = if slug.is_empty() { MAIN.to_string() } else { format!("/work/{slug}") };
    Resolved {
        worktree,
        main_worktree: MAIN.to_string(),
        slug: if slug.is_empty() { "app".to_string() } else { slug.to_string() },
    }
}

fn open(registry: &mut Registry, slug: &str) -> Instance {
    Instance::open(resolved(slug), config(), "/state", registry, default_range(), |_| true)
        .expect("open")
}

fn registry() -> Registry {
    grove::instance::registry("/state")
}

/// An instance that `up` has started: one live service, used just now.
fn running(registry: &mut Registry, slug: &str, now: u64) -> Entry {
    let mut inst = open(registry, slug);
    inst.started(registry, "web", Handle { pid: 100, started_at: now });
    inst.touch(registry, now);
    registry.get(&inst.resolved.worktree).expect("recorded")
}

fn live(now: u64) -> EntryFacts {
    EntryFacts { alive: vec![true], logs: vec![Some(now)], present: true }
}

fn reading(one: &str, cores: u64, oversubscribed: bool) -> LoadReading {
    LoadReading { one: one.to_string(), cores, oversubscribed }
}

fn env_value(env: &[(String, String)], key: &str) -> String {
    env.iter().find(|(k, _)| k == key).map(|(_, v)| v.clone()).expect("variable is set")
}

#[test]
fn help_names_the_shared_container_open_file_limit() {
    assert!(grove::commands::UP_ABOUT.contains("nofile=64000"), "{}", grove::commands::UP_ABOUT);
}

#[test]
fn logs_show_what_the_service_printed() {
    let body = format!("{START_MARKER}\nServing HTTP on 0.0.0.0 port 24310 (http://0.0.0.0:24310/) ...\n");

    let shown = log_text(&body, false, None);

    assert!(shown.contains("Serving HTTP"), "logs must surface the service's own output");
}

#[test]
fn doctor_passes_in_a_worktree_that_is_ready_to_start() {
    let mut reg = registry();
    let inst = open(&mut reg, "feat_search");
    let facts = DoctorFacts { sources_present: vec![true], observations: vec![], logs: vec![] };

    let verdicts = check(&inst, &facts);
    let stdout: String = verdicts.iter().map(|v| v.line() + "\n").collect();

    assert!(healthy(&verdicts), "{stdout}");
    assert!(stdout.contains("backend/.env.local"), "{stdout}");
    assert!(stdout.contains("feat_search"), "{stdout}");
}

#[test]
fn doctor_warns_that_the_main_worktree_cannot_be_started() {
    let mut reg = registry();
    let inst = open(&mut reg, "");
    let facts = DoctorFacts { sources_present: vec![true], observations: vec![], logs: vec![] };

    let verdicts = check(&inst, &facts);
    let stdout: String = verdicts.iter().map(|v| v.line() + "\n").collect();

    assert!(!healthy(&verdicts));
    assert!(stdout.contains("main worktree"), "must explain why this directory cannot host an instance: {stdout}");
}

#[test]
fn ls_lists_every_running_instance() {
    let now = 1_700_000_000;
    let mut reg = registry();
    let a = running(&mut reg, "fix_login", now);
    let b = running(&mut reg, "feat_search", now);
    let entries = vec![a, b];
    let facts = vec![live(now), live(now)];

    let order = ls_order(&entries, &facts, now);
    let machine = survey(&entries, &facts, None, now, Some(reading("0.3", 16, false)));
    let stdout = ls_lines(&entries, &facts, &order, now, &machine).join("\n");

    assert!(stdout.contains("fix_login"), "{stdout}");
    assert!(stdout.contains("feat_search"), "{stdout}");
}

#[test]
fn run_executes_a_command_with_the_instance_environment() {
    let mut reg = registry();
    let inst = open(&mut reg, "feat_search");

    let env = inst.environment(false).expect("environment");

    let printed = env_value(&env, "GROVE_PORT_WEB");
    assert!(printed.parse::<u16>().is_ok(), "run must export this instance's ports, got {printed:?}");
}

#[test]
fn ls_reports_a_stopped_instance_as_stopped() {
    let now = 1_700_000_000;
    let mut reg = registry();
    let up = running(&mut reg, "feat_search", now);

    let row = ls_row(&up, &live(now), now);
    assert!(row.contains("running"), "while up: {row}");

    let mut inst = open(&mut reg, "feat_search");
    inst.down(&mut reg);
    let down = reg.get(&inst.resolved.worktree).expect("still listed");
    let stopped = ls_row(&down, &EntryFacts { alive: vec![], logs: vec![], present: true }, now);

    assert!(!stopped.contains("running"), "after down, nothing is listening — ls must not claim otherwise: {stopped}");
    assert!(stopped.contains("stopped"), "the instance should still be listed, but as stopped: {stopped}");
}

#[test]
fn run_isolates_the_browser_session_per_instance() {
    let mut reg = registry();
    let inst = open(&mut reg, "feat_search");

    let env = inst.environment(false).expect("environment");

    assert_eq!(env_value(&env, "AGENT_BROWSER_SESSION"), "feat_search");
}

#[test]
fn the_instance_overrides_are_in_the_environment_not_only_the_file() {
    let mut reg = registry();
    let inst = open(&mut reg, "feat_search");

    let env = inst.environment(false).expect("environment");
    let printed = format!("{}:{}", env_value(&env, "INSTANCE"), env_value(&env, "API_URL"));

    assert!(printed.starts_with("feat_search:http://localhost:"), "{printed}");
}

#[test]
fn logs_can_show_only_this_run_and_only_the_tail() {
    let body = format!(
        "Resolved 12 packages\n{START_MARKER}\nServing HTTP on 0.0.0.0 port 24310\nGET / 200\n{START_MARKER}\nServing HTTP on 0.0.0.0 port 24310\nGET /health 200\n"
    );

    let all = log_text(&body, false, None);
    let since = log_text(&body, true, None);

    assert!(all.len() > since.len(), "--since-restart must drop earlier output");
    assert!(all.ends_with(&since), "--since-restart must be a suffix of the whole log");
    assert!(since.contains("Serving HTTP"), "and must still reach back to this run's startup: {since}");

    let tail = log_text(&body, false, Some(1));
    assert_eq!(tail.lines().count(), 1, "{tail}");
}

fn crowd(reg: &mut Registry, slugs: &[&str], now: u64) -> (Vec<Entry>, Vec<EntryFacts>) {
    let entries: Vec<Entry> = slugs.iter().map(|s| running(reg, s, now)).collect();
    let facts = slugs.iter().map(|_| live(now)).collect();
    (entries, facts)
}

#[test]
fn a_calm_machine_is_never_warned_about() {
    let now = 1_700_000_000;
    let mut reg = registry();
    let (entries, facts) = crowd(&mut reg, &["fix_login"], now);

    let machine = survey(&entries, &facts, Some("/work/feat_search"), now, Some(reading("0.4", 16, false)));
    let stderr = up_warning(&machine).join("\n");

    assert!(!stderr.contains("warning"), "two instances on an idle machine is not a pile-up: {stderr}");
}

#[test]
fn a_loaded_machine_with_few_instances_is_never_warned_about() {
    let now = 1_700_000_000;
    let mut reg = registry();
    let (entries, facts) = crowd(&mut reg, &["fix_login"], now);

    let machine = survey(&entries, &facts, Some("/work/feat_search"), now, Some(reading("40.0", 8, true)));
    let stderr = up_warning(&machine).join("\n");

    assert!(!stderr.contains("warning"), "a busy machine with nothing to reclaim is not grove's news to break: {stderr}");
}

#[test]
fn a_crowd_with_nothing_stale_is_warned_about_without_a_prescription() {
    let now = 1_700_000_000;
    let mut reg = registry();
    let (entries, facts) = crowd(&mut reg, &["one", "two", "three", "four"], now);

    let machine = survey(&entries, &facts, Some("/work/five"), now, Some(reading("30.0", 8, true)));
    let stderr = up_warning(&machine).join("\n");

    assert!(stderr.contains("warning"), "{stderr}");
    assert!(!stderr.contains("grove down --idle"), "every box is in use; there is nothing to propose: {stderr}");
}

#[test]
fn a_failing_run_on_a_buried_machine_says_so_and_a_passing_one_does_not() {
    let now = 1_700_000_000;
    let mut reg = registry();
    let (entries, facts) = crowd(&mut reg, &["one", "two", "three", "four"], now);

    let buried = survey(&entries, &facts, Some("/work/one"), now, Some(reading("30.0", 8, true)));
    let failed = run_note(false, &buried).join("\n");
    assert!(failed.contains("load 30"), "{failed}");
    assert!(failed.contains("may be the machine"), "the note has to name the alternative explanation: {failed}");

    let passed = run_note(true, &buried);
    assert!(passed.is_empty(), "a green run on a busy machine is not news");

    let quiet = survey(&entries, &facts, Some("/work/one"), now, Some(reading("0.2", 8, false)));
    assert!(run_note(false, &quiet).is_empty(), "an ordinary failure on an idle machine is the branch's fault");
}

#[test]
fn purging_a_whole_machine_is_refused_rather_than_half_done() {
    let refusal = refuse_purging_a_sweep(true, true, false).expect("refused");

    assert!(refusal.contains("--purge"), "the refusal has to name the flag it is refusing: {refusal}");
    assert!(
        refusal.contains("one instance") || refusal.contains("grove down --purge"),
        "and point at the form that does work: {refusal}"
    );
}

#[test]
fn a_sweep_that_matches_nothing_says_so() {
    let now = 1_700_000_000;
    let mut reg = registry();
    let (entries, facts) = crowd(&mut reg, &["feat_search"], now);

    let plan = sweep_plan(&entries, &facts, "/work/feat_search", Some(9 * 3600), now);
    let stdout = sweep_report(&entries, &plan, false).join("\n");

    assert!(stdout.contains("nothing to stop"), "{stdout}");
}

#[test]
fn prune_says_so_when_there_is_nothing_to_reclaim() {
    let now = 1_700_000_000;
    let mut reg = registry();
    let _ = crowd(&mut reg, &["feat_search"], now);

    // Every worktree is still there, so `prune` reaps nothing.
    let orphans = reg.reap(|_: &String| true);
    let stdout = prune_report(&orphans, false, false).join("\n");

    assert!(stdout.contains("nothing"), "{stdout}");
}

#[test]
fn work_advances_the_idle_clock_and_inspection_leaves_it_alone() {
    let now = 1_700_000_000;
    let mut reg = registry();
    let mut inst = open(&mut reg, "feat_search");
    inst.touch(&mut reg, now);
    let wt = inst.resolved.worktree.clone();
    assert!(reg.get(&wt).expect("recorded").last_used.is_some(), "up must mark the instance used");

    // Two hours without a grove command.
    for (w, e) in reg.instances.iter_mut() {
        if *w == wt {
            e.last_used = Some(now - 7200);
        }
    }
    let later = now + 10;

    // `status` and `ls` are reads: they take the registry as it is and write nothing.
    let before = reg.get(&wt).expect("recorded").last_used;
    inst.entry = reg.get(&wt).expect("recorded");
    let alive = vec![false; inst.entry.services.len()];
    let answered = vec![false; inst.config.services.len()];
    let _ = inst.status(&alive, &answered);
    let entries = reg.list();
    let facts: Vec<EntryFacts> = entries.iter().map(|e| EntryFacts { alive: vec![false; e.services.len()], logs: vec![], present: true }).collect();
    let order = ls_order(&entries, &facts, later);
    let machine = survey(&entries, &facts, None, later, None);
    let _ = ls_lines(&entries, &facts, &order, later, &machine);
    assert_eq!(reg.get(&wt).expect("recorded").last_used, before, "an inspection must not look like work");

    // `run`, `seed` and `logs` touch the instance, which reads as no time idle.
    inst.touch(&mut reg, later);
    let idle = later - reg.get(&wt).expect("used").last_used.expect("used");
    assert!(idle < 60, "work means someone is here, but it read as {idle}s idle");
}

#[test]
fn a_dry_run_names_the_casualties_without_creating_any() {
    let now = 1_700_000_000;
    let mut reg = registry();
    let here = running(&mut reg, "where_i_am_working", now);
    let stale = running(&mut reg, "forgotten", now - 3 * 3600);
    let entries = vec![here.copy(), stale.copy()];
    let facts = vec![
        EntryFacts { alive: vec![true], logs: vec![Some(now)], present: true },
        EntryFacts { alive: vec![true], logs: vec![Some(now - 3 * 3600)], present: true },
    ];

    let plan = sweep_plan(&entries, &facts, &here.worktree, Some(2 * 3600), now);
    let stdout = sweep_report(&entries, &plan, true).join("\n");

    assert!(stdout.contains("forgotten"), "{stdout}");
    assert!(stdout.contains("would stop"), "{stdout}");
    let still_up = reg.get(&stale.worktree).expect("recorded");
    assert!(!still_up.services.is_empty(), "a dry run that stopped something is not a dry run");
}

#[test]
fn all_but_this_stops_the_siblings_and_spares_the_one_you_are_in() {
    let now = 1_700_000_000;
    let mut reg = registry();
    let here = running(&mut reg, "where_i_am_working", now);
    let other = running(&mut reg, "someone_elses", now);
    let entries = vec![here.copy(), other.copy()];
    let facts = vec![live(now), live(now)];

    let plan = sweep_plan(&entries, &facts, &here.worktree, None, now);
    let stdout = sweep_report(&entries, &plan, false).join("\n");

    assert!(stdout.contains("someone_elses"), "{stdout}");
    assert!(!stdout.contains("where_i_am_working"), "{stdout}");
    assert!(plan.doomed.iter().all(|(i, _)| entries[*i].worktree != here.worktree), "--all-but-this must mean all but this");
}

#[test]
fn the_caller_is_spared_however_its_path_is_written() {
    let now = 1_700_000_000;
    let mut reg = registry();
    let here = running(&mut reg, "where_i_am_working", now);
    let other = running(&mut reg, "someone_elses", now);
    let entries = vec![here.copy(), other.copy()];
    let facts = vec![live(now), live(now)];

    let plan = sweep_plan(&entries, &facts, "/work/where_i_am_working/", None, now);
    assert!(plan.doomed.iter().all(|(i, _)| entries[*i].slug != "where_i_am_working"), "a trailing slash is the same directory");
    assert_eq!(plan.doomed.len(), 1);
}
