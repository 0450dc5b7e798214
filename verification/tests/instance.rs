use grove::config::{Config, Ports, Ready, Resource, ResourceKind, Secrets, Seed, Service};
use grove::exposure::Exposure;
use grove::instance::{
    parse_duration, duration_in_range, registry, seed_failed, service_lines, setup_failed, setup_tick, stale_lines, state_dir, tail, EnvError, Instance,
    InstanceError, Readiness, SeedOutcome, SeedStep, ServiceStatus, UpAction,
};
use grove::ports::default_range;
use grove::marker::{read_marker, MarkerRead, SeedMarker};
use grove::registry::Registry;
use grove::resolve::Resolved;
use grove::resource::{ContainerObservation, EnsurePlan, Observation};
use grove::supervise::Handle;

fn resolved(slug: &str) -> Resolved {
    Resolved { worktree: format!("/work/{slug}"), main_worktree: "/work/app".to_string(), slug: slug.to_string() }
}

fn service(name: &str, command: &str) -> Service {
    Service {
        name: name.to_string(),
        cwd: Some("backend".to_string()),
        setup: Some("uv sync".to_string()),
        prepare: None,
        command: command.to_string(),
        ready: Some(Ready { http: "http://localhost:{{ port.web }}/health".to_string(), timeout: "180s".to_string() }),
    }
}

fn mongo() -> Resource {
    Resource {
        name: "mongo".to_string(),
        kind: ResourceKind::DockerShared,
        image: Some("mongo:8".to_string()),
        args: vec![],
        port: 27017,
        init: None,
        db_name: Some("app_{{ slug }}".to_string()),
    }
}

fn config() -> Config {
    Config {
        version: 1,
        ports: Ports { names: vec!["web".to_string(), "api".to_string()] },
        secrets: vec![Secrets {
            from: "backend/.env.local".to_string(),
            into: "backend/.env.local".to_string(),
            set: vec![
                ("API_URL".to_string(), "http://{{ host.public }}:{{ port.api }}".to_string()),
                ("DATABASE_NAME".to_string(), "{{ db.name }}".to_string()),
            ],
        }],
        resources: vec![mongo()],
        services: vec![service("web", "npm run dev -- --port {{ port.web }}"), service("api", "uv run app --port {{ port.api }}")],
        seeds: vec![
            Seed { name: "org".to_string(), cwd: Some("backend".to_string()), command: "seed --db {{ db.name }}".to_string(), if_exists: None },
            Seed {
                name: "fixtures".to_string(),
                cwd: None,
                command: "restore".to_string(),
                if_exists: Some("fixtures/dump.archive".to_string()),
            },
        ],
    }
}

fn open_with(reg: &mut Registry, slug: &str, config: Config) -> Instance {
    Instance::open(resolved(slug), config, "/state", reg, default_range(), |_| true).expect("open")
}

fn env_value(env: &[(String, String)], key: &str) -> Option<String> {
    env.iter().find(|(k, _)| k == key).map(|(_, v)| v.clone())
}

#[test]
fn durations_read_the_way_they_are_written() {
    assert_eq!(parse_duration("180s").ok(), Some(180_000));
    assert_eq!(parse_duration("2m").ok(), Some(120_000));
    assert_eq!(parse_duration("6h").ok(), Some(21_600_000));
    assert_eq!(parse_duration("2d").ok(), Some(172_800_000));
    assert_eq!(parse_duration("500ms").ok(), Some(500), "ms is read before s");
    assert_eq!(parse_duration("45").ok(), Some(45_000), "a bare number is seconds");
    assert_eq!(parse_duration(" 30 s ").ok(), Some(30_000));
    match parse_duration("soon") {
        Err(e @ InstanceError::Duration { .. }) => assert_eq!(e.message(), "\"soon\" is not a duration like \"180s\""),
        _ => panic!("not a duration"),
    }
    assert!(parse_duration("-5s").is_err());
    assert!(duration_in_range("180s"));
    assert!(!duration_in_range("18446744073709551615d"), "that many days overflow milliseconds");
}

#[test]
fn a_tail_is_the_last_lines() {
    assert_eq!(tail("a\nb\nc\n", 2), "b\nc");
    assert_eq!(tail("a\nb\nc", 5), "a\nb\nc");
    assert_eq!(tail("", 3), "");
    assert_eq!(tail("one\r\ntwo\r\n", 1), "two");
}

#[test]
fn opening_records_where_the_logs_live() {
    let mut reg = registry("/state");
    let inst = open_with(&mut reg, "feat_search", config());

    let dir = inst.instance_dir();
    assert!(dir.starts_with("/state/app-"), "{dir}");
    assert!(dir.ends_with("/feat_search"), "{dir}");
    let entry = reg.get("/work/feat_search").expect("recorded");
    assert_eq!(entry.instance_dir, Some(dir.clone()));
    assert_eq!(inst.log_path("web"), format!("{dir}/web.log"));
    assert_eq!(reg.path, "/state/registry.json");
}

#[test]
fn the_main_worktree_is_refused_for_mutating_commands() {
    let mut reg = registry("/state");
    let mut r = resolved("app");
    r.worktree = "/work/app".to_string();
    let inst = Instance::open(r, config(), "/state", &mut reg, default_range(), |_| true).expect("open");

    let err = inst.refuse_in_main().err().expect("refused");
    let msg = err.message();
    assert!(msg.contains("main worktree"), "{msg}");
    assert!(msg.contains("/work/app"), "{msg}");
    assert!(open_with(&mut reg, "feat_search", config()).refuse_in_main().is_ok());
}

#[test]
fn the_database_name_is_settled_before_the_files_are_written() {
    let mut reg = registry("/state");
    let mut inst = open_with(&mut reg, "feat_search", config());
    let source = "AUTH__API_KEY=sk_live\nAPI_URL=http://localhost:8000\n# a comment\nexport DEBUG=1\n".to_string();

    let files = inst.render(&mut reg, &vec![source]).ok().expect("render");

    assert_eq!(inst.db_name(), Some("app_feat_search".to_string()));
    assert_eq!(reg.get("/work/feat_search").expect("entry").db_name, Some("app_feat_search".to_string()));
    assert_eq!(files.len(), 1);
    assert_eq!(files[0].0, "/work/feat_search/backend/.env.local");
    let api = inst.entry.ports.iter().find(|(n, _)| n == "api").expect("api").1;
    assert_eq!(
        files[0].1,
        format!(
            "AUTH__API_KEY=sk_live\nAPI_URL=http://localhost:{api}\n# a comment\nexport DEBUG=1\nDATABASE_NAME=app_feat_search\n"
        )
    );
}

#[test]
fn a_template_naming_an_unknown_port_is_refused_with_its_name() {
    let mut reg = registry("/state");
    let mut c = config();
    c.secrets[0].set = vec![("X".to_string(), "{{ port.nope }}".to_string())];
    let mut inst = open_with(&mut reg, "feat_search", c);

    let err = inst.render(&mut reg, &vec![String::new()]).err().expect("refused");

    let msg = err.message();
    assert!(msg.contains("no port named `nope`"), "{msg}");
    assert!(msg.starts_with("rendering backend/.env.local"), "{msg}");
}

#[test]
fn conflicting_overrides_are_refused_rather_than_picked() {
    let mut reg = registry("/state");
    let mut c = config();
    c.secrets.push(Secrets {
        from: "frontend/.env.local".to_string(),
        into: "frontend/.env.local".to_string(),
        set: vec![("API_URL".to_string(), "http://elsewhere".to_string())],
    });
    let mut inst = open_with(&mut reg, "feat_search", c);
    inst.render_db_name(&mut reg).ok().expect("db name");

    match inst.environment(true) {
        Err(e @ EnvError::Conflict { .. }) => {
            let msg = e.message();
            assert!(msg.starts_with("API_URL is set to two different values"), "{msg}");
            assert!(msg.contains("\"http://elsewhere\""), "{msg}");
        },
        _ => panic!("two blocks disagreeing must be refused"),
    }
}

#[test]
fn an_override_that_cannot_render_names_its_key() {
    let mut reg = registry("/state");
    let inst = open_with(&mut reg, "feat_search", config());

    match inst.environment(false) {
        Err(e @ EnvError::Render { .. }) => {
            assert_eq!(
                e.message(),
                "rendering DATABASE_NAME for the environment: `{{ db.name }}` is used, but no [[resource]] declares a db_name"
            )
        },
        _ => panic!("the database is not named until render"),
    }
}

#[test]
fn the_environment_carries_grove_variables_and_overrides() {
    let mut reg = registry("/state");
    let mut inst = open_with(&mut reg, "feat_search", config());
    inst.render_db_name(&mut reg).ok().expect("db name");

    let env = inst.environment(true).ok().expect("environment");

    assert_eq!(env_value(&env, "GROVE_SLUG").as_deref(), Some("feat_search"));
    assert_eq!(env_value(&env, "GROVE_WORKTREE").as_deref(), Some("/work/feat_search"));
    assert_eq!(env_value(&env, "GROVE_DB_NAME").as_deref(), Some("app_feat_search"));
    assert_eq!(env_value(&env, "DATABASE_NAME").as_deref(), Some("app_feat_search"));
    assert!(env_value(&env, "GROVE_PORT_WEB").is_some());
    assert!(env_value(&env, "GROVE_PORT_API").is_some());
    assert_eq!(env_value(&env, "AGENT_BROWSER_SESSION"), None, "an explicit browser session wins");
    let keys: Vec<&String> = env.iter().map(|(k, _)| k).collect();
    let mut sorted = keys.clone();
    sorted.sort();
    assert_eq!(keys, sorted, "the environment is in key order");
}

#[test]
fn restarting_an_undeclared_service_names_the_declared_ones() {
    let mut reg = registry("/state");
    let inst = open_with(&mut reg, "feat_search", config());

    let err = inst.stop_services(Some("worker")).err().expect("refused");

    assert_eq!(err.message(), "this repo declares no service named \"worker\"; it has [\"web\", \"api\"]");
}

#[test]
fn stopping_one_service_leaves_the_others_recorded() {
    let mut reg = registry("/state");
    let mut inst = open_with(&mut reg, "feat_search", config());
    inst.started(&mut reg, "web", Handle { pid: 10, started_at: 100 });
    inst.started(&mut reg, "api", Handle { pid: 11, started_at: 100 });

    let picked = inst.stop_services(Some("web")).ok().expect("declared");
    assert_eq!(picked.len(), 1);
    assert_eq!(picked[0].0, "web");
    assert_eq!(picked[0].1.pid, 10);
    inst.services_stopped(&mut reg, &picked);

    let entry = reg.get("/work/feat_search").expect("entry");
    let names: Vec<&str> = entry.services.iter().map(|(n, _)| n.as_str()).collect();
    assert_eq!(names, ["api"]);

    let all = inst.stop_services(None).ok().expect("all");
    assert_eq!(all.len(), 1);
    inst.down(&mut reg);
    assert!(reg.get("/work/feat_search").expect("entry").services.is_empty());
}

#[test]
fn status_asks_the_processes_not_the_record() {
    let mut reg = registry("/state");
    let mut inst = open_with(&mut reg, "feat_search", config());
    inst.started(&mut reg, "web", Handle { pid: 10, started_at: 100 });

    // Recorded services in name order: only `web`. Its process has died.
    let status = inst.status(&vec![false], &vec![true, true]);

    assert_eq!(status.len(), 2);
    assert_eq!(status[0].name, "web");
    assert!(!status[0].running);
    assert_eq!(status[0].pid, Some(10));
    assert_eq!(status[1].name, "api");
    assert_eq!(status[1].pid, None);
    assert_eq!(status[0].ready, Readiness::Unprobed, "a dead process is not probed");
    let up = inst.status(&vec![true], &vec![false, false]);
    assert!(up[0].running);
    assert_eq!(up[0].ready, Readiness::Silent, "running and not answering");
    assert_eq!(up[0].url.as_deref(), Some(format!("http://localhost:{}/health", port_of(&inst, "web")).as_str()));
    assert_eq!(inst.status(&vec![true], &vec![true, false])[0].ready, Readiness::Answering);
}

fn port_of(inst: &Instance, name: &str) -> u16 {
    inst.entry.ports.iter().find(|(n, _)| n == name).expect("port").1
}

#[test]
fn a_service_older_than_the_newest_edit_is_stale() {
    let mut reg = registry("/state");
    let mut inst = open_with(&mut reg, "feat_search", config());
    inst.started(&mut reg, "web", Handle { pid: 10, started_at: 100 });
    inst.started(&mut reg, "api", Handle { pid: 11, started_at: 300 });

    // In name order: api, web.
    assert_eq!(inst.stale_services(Some(200), &vec![true, true]), ["web"]);
    assert!(inst.stale_services(Some(200), &vec![true, false]).is_empty(), "a dead service serves nothing");
    assert!(inst.stale_services(None, &vec![true, true]).is_empty(), "without an edit time nothing is stale");
}

#[test]
fn purging_drops_the_instance_database_from_its_resource() {
    let mut reg = registry("/state");
    let mut inst = open_with(&mut reg, "feat_search", config());
    assert!(inst.purge_database().is_none(), "no database yet");
    inst.render_db_name(&mut reg).ok().expect("db name");

    assert_eq!(inst.purge_database(), Some((0, "app_feat_search".to_string())));
}

#[test]
fn seeds_run_once_and_say_why_they_did_not() {
    let mut reg = registry("/state");
    let mut inst = open_with(&mut reg, "feat_search", config());
    inst.render_db_name(&mut reg).ok().expect("db name");
    let seen = vec![mongo_seen("mongo-generation-a")];

    let record = match inst.seed(0, true, &MarkerRead::Absent, &seen, &vec![], false) {
        Ok(SeedStep::Run { name, cwd, command, marker, log, reason, record }) => {
            assert_eq!(name, "org");
            assert_eq!(cwd, "/work/feat_search/backend");
            assert_eq!(command, "seed --db app_feat_search");
            assert!(marker.ends_with("/feat_search/.seed-org"), "{marker}");
            assert!(log.ends_with("/feat_search/seed-org.log"), "{log}");
            assert_eq!(reason, None, "a seed that never ran needs no reason");
            assert_eq!(record.command, "seed --db app_feat_search");
            assert_eq!(record.resources, vec![("mongo".to_string(), "mongo-generation-a".to_string())]);
            record
        },
        _ => panic!("a fresh seed runs"),
    };
    let marker = MarkerRead::Structured(record);
    match inst.seed(0, true, &marker, &seen, &vec![], false) {
        Ok(SeedStep::Skip(o)) => assert_eq!(o.line(), "seed org ... skipped (already seeded)"),
        _ => panic!("a seed whose marker holds is skipped"),
    }
    match inst.seed(0, true, &marker, &seen, &vec![], true) {
        Ok(SeedStep::Run { reason, .. }) => assert_eq!(reason, None),
        _ => panic!("--force reruns"),
    }
    match inst.seed(1, false, &MarkerRead::Absent, &seen, &vec![], false) {
        Ok(SeedStep::Skip(o)) => assert_eq!(o.line(), "seed fixtures ... skipped (fixtures/dump.archive not present)"),
        _ => panic!("a seed whose fixture is absent is skipped"),
    }
    assert_eq!(SeedOutcome::Ran { name: "org".to_string(), reason: None }.line(), "seed org ... ok");
    assert_eq!(
        SeedOutcome::Ran { name: "org".to_string(), reason: Some("command changed".to_string()) }.line(),
        "seed org ... ok (command changed)"
    );
    let paths = inst.seed_paths(1);
    assert_eq!(paths.guard, Some("/work/feat_search/fixtures/dump.archive".to_string()));
}

fn mongo_seen(id: &str) -> Observation {
    Observation {
        reachable: true,
        container: Some(ContainerObservation { id: id.to_string(), running: true, exit_code: 0, nofile: Some((64_000, 64_000)) }),
        docker_error: None,
    }
}

fn unobservable() -> Observation {
    Observation { reachable: true, container: None, docker_error: Some("cannot connect to the Docker daemon".to_string()) }
}

fn seeded_instance(reg: &mut Registry) -> Instance {
    let mut inst = open_with(reg, "feat_search", config());
    inst.render_db_name(reg).ok().expect("db name");
    inst
}

fn marker_for(command: &str, id: &str) -> MarkerRead {
    MarkerRead::Structured(SeedMarker::new(command.to_string(), &vec![("mongo".to_string(), id.to_string())]))
}

#[test]
fn seed_marker_is_invalidated_when_a_managed_resource_is_recreated() {
    let mut reg = registry("/state");
    let inst = seeded_instance(&mut reg);
    let marker = marker_for("seed --db app_feat_search", "mongo-generation-a");

    assert!(matches!(inst.seed(0, true, &marker, &vec![mongo_seen("mongo-generation-a")], &vec![], false), Ok(SeedStep::Skip(_))));
    match inst.seed(0, true, &marker, &vec![mongo_seen("mongo-generation-b")], &vec![], false) {
        Ok(SeedStep::Run { name, reason, record, .. }) => {
            let line = SeedOutcome::Ran { name, reason }.line();
            assert!(line.contains("resource mongo was recreated"), "{line}");
            assert_eq!(record.resources, vec![("mongo".to_string(), "mongo-generation-b".to_string())]);
        },
        _ => panic!("a recreated datastore must be seeded again"),
    }
}

#[test]
fn a_matching_legacy_seed_marker_migrates_without_rerunning() {
    let mut reg = registry("/state");
    let inst = seeded_instance(&mut reg);
    let legacy = read_marker(Some("seed --db app_feat_search".to_string()), None);

    match inst.seed(0, true, &legacy, &vec![mongo_seen("mongo-generation-a")], &vec![], false) {
        Ok(SeedStep::Migrate { outcome, record, .. }) => {
            assert_eq!(outcome.line(), "seed org ... skipped (already seeded)");
            assert_eq!(record.command, "seed --db app_feat_search");
            assert_eq!(record.resources, vec![("mongo".to_string(), "mongo-generation-a".to_string())]);
        },
        _ => panic!("a matching legacy marker migrates"),
    }
    match inst.seed(0, true, &legacy, &vec![mongo_seen("mongo-generation-a")], &vec!["mongo".to_string()], false) {
        Ok(SeedStep::Run { reason, .. }) => assert_eq!(reason.as_deref(), Some("resource mongo was recreated")),
        _ => panic!("a datastore started by this command is empty, so a legacy marker does not hold"),
    }
}

#[test]
fn changing_a_seed_command_invalidates_its_marker() {
    let mut reg = registry("/state");
    let inst = seeded_instance(&mut reg);
    let marker = marker_for("seed --db somewhere_else", "mongo-generation-a");

    match inst.seed(0, true, &marker, &vec![mongo_seen("mongo-generation-a")], &vec![], false) {
        Ok(SeedStep::Run { reason, .. }) => assert_eq!(reason.as_deref(), Some("command changed")),
        _ => panic!("a changed command reruns"),
    }
}

#[test]
fn a_malformed_structured_seed_marker_is_not_trusted() {
    let mut reg = registry("/state");
    let inst = seeded_instance(&mut reg);
    let marker = read_marker(Some("{not valid json".to_string()), None);
    assert!(matches!(marker, MarkerRead::Malformed));

    match inst.seed(0, true, &marker, &vec![mongo_seen("mongo-generation-a")], &vec![], false) {
        Ok(SeedStep::Run { reason, .. }) => assert_eq!(reason.as_deref(), Some("seed marker was invalid")),
        _ => panic!("an invalid marker reruns"),
    }
    assert!(matches!(read_marker(None, None), MarkerRead::Absent));
}

#[test]
fn an_unobservable_resource_does_not_invalidate_a_seed_marker() {
    let mut reg = registry("/state");
    let inst = seeded_instance(&mut reg);
    let marker = marker_for("seed --db app_feat_search", "mongo-generation-a");

    match inst.seed(0, true, &marker, &vec![unobservable()], &vec![], false) {
        Ok(SeedStep::Skip(o)) => assert_eq!(o.line(), "seed org ... skipped (already seeded)"),
        _ => panic!("a Docker observation failure is not evidence that the datastore was recreated"),
    }
}

#[test]
fn up_starts_what_is_not_running_and_replaces_only_when_fresh() {
    let mut reg = registry("/state");
    let mut inst = open_with(&mut reg, "feat_search", config());
    assert!(matches!(inst.up(0, false, false), UpAction::Start));
    inst.started(&mut reg, "web", Handle { pid: 10, started_at: 100 });

    assert!(matches!(inst.up(0, false, true), UpAction::Keep));
    assert!(matches!(inst.up(0, false, false), UpAction::Start));
    match inst.up(0, true, true) {
        UpAction::Replace(h) => assert_eq!(h.pid, 10),
        _ => panic!("fresh replaces"),
    }
}

#[test]
fn a_launch_carries_the_rendered_command_and_readiness() {
    let mut reg = registry("/state");
    let inst = open_with(&mut reg, "feat_search", config());
    let web = inst.entry.ports.iter().find(|(n, _)| n == "web").expect("web").1;

    let launch = inst.launch(0).ok().expect("launch");

    assert_eq!(launch.command, format!("npm run dev -- --port {web}"));
    assert_eq!(launch.cwd, "/work/feat_search/backend");
    assert!(launch.log.ends_with("/feat_search/web.log"), "{}", launch.log);
    assert_eq!(launch.ready, Some((format!("http://localhost:{web}/health"), 180_000)));
    let (_, _, marker) = inst.service_paths(0);
    assert!(marker.ends_with("/feat_search/.setup-web"), "{marker}");
}

#[test]
fn resources_are_reused_when_they_answer_and_started_when_not() {
    let mut reg = registry("/state");
    let inst = open_with(&mut reg, "feat_search", config());

    assert!(matches!(inst.resources(&vec![true]).ok().expect("plans")[0], EnsurePlan::Reuse));
    assert!(matches!(inst.resources(&vec![false]).ok().expect("plans")[0], EnsurePlan::Start { .. }));
}

#[test]
fn the_state_directory_follows_the_environment() {
    assert_eq!(state_dir(Some("/custom"), Some("/xdg"), Some("/home/me")).ok(), Some("/custom".to_string()));
    assert_eq!(state_dir(Some(""), Some("/xdg"), Some("/home/me")).ok(), Some("/xdg/grove".to_string()), "an empty override is no override");
    assert_eq!(state_dir(None, Some(""), Some("/home/me")).ok(), Some("/home/me/.local/state/grove".to_string()));
    assert_eq!(state_dir(None, None, Some("/home/me/")).ok(), Some("/home/me/.local/state/grove".to_string()));
    match state_dir(None, None, None) {
        Err(e @ InstanceError::NoHome) => assert_eq!(e.message(), "HOME is not set"),
        _ => panic!("without HOME there is no state directory"),
    }
}

#[test]
fn the_summary_names_the_urls_the_database_and_what_to_run() {
    let mut reg = registry("/state");
    let inst = open_with(&mut reg, "feat_search", config());
    let lines = inst.summary();
    let web = inst.entry.ports.iter().find(|(n, _)| n == "web").expect("web").1;
    let api = inst.entry.ports.iter().find(|(n, _)| n == "api").expect("api").1;
    assert_eq!(lines[0], "instance  feat_search");
    assert!(lines.contains(&format!("web       http://localhost:{web}")), "{lines:?}");
    assert!(lines.contains(&format!("api       http://localhost:{api}")), "{lines:?}");
    assert!(!lines.iter().any(|l| l.starts_with("exposure")), "a local instance says nothing of exposure");
    let n = lines.len();
    assert_eq!(&lines[n - 3..], &["".to_string(), "  grove run -- <your test command>".to_string(), "  grove logs web -f".to_string()]);
}

#[test]
fn an_exposed_summary_says_where() {
    let mut reg = registry("/state");
    let mut cfg = config();
    cfg.services.clear();
    let exposure = Exposure::explicit("192.168.1.20").expect("reachable");
    let mut inst = Instance::open(resolved("feat_x"), cfg, "/state", &mut reg, default_range(), |_| true).expect("open");
    assert!(inst.set_exposure(&mut reg, exposure), "loopback to a host is a change");
    let lines = inst.summary();
    assert!(lines.contains(&"exposure  network (192.168.1.20)".to_string()), "{lines:?}");
    assert!(lines.iter().any(|l| l.starts_with("web       http://192.168.1.20:")), "{lines:?}");
    assert_eq!(lines.last().map(String::as_str), Some("  grove logs <service> -f"));
}

#[test]
fn the_services_block_lines_up_its_names() {
    assert!(service_lines(&vec![]).is_empty());
    let status = vec![
        row("web", true, Some(4242), Readiness::Unprobed, None),
        row("worker-long-name", false, Some(7), Readiness::Unprobed, None),
        row("api", true, None, Readiness::Unprobed, None),
    ];
    assert_eq!(
        service_lines(&status),
        vec![
            "".to_string(),
            "services".to_string(),
            "  web               running  pid 4242".to_string(),
            "  worker-long-name  stopped".to_string(),
            "  api               running".to_string(),
        ]
    );
    let short = vec![row("web", false, None, Readiness::Unprobed, None)];
    assert_eq!(service_lines(&short)[2], "  web       stopped", "names pad to at least eight");
}

fn row(name: &str, running: bool, pid: Option<u32>, ready: Readiness, url: Option<&str>) -> ServiceStatus {
    ServiceStatus { name: name.to_string(), running, pid, ready, url: url.map(str::to_string) }
}

#[test]
fn status_says_which_endpoints_answer_and_which_do_not() {
    let status = vec![
        row("web", true, Some(10), Readiness::Answering, Some("http://localhost:24310/")),
        row("api", true, Some(11), Readiness::Silent, Some("http://localhost:24311/health")),
    ];
    assert_eq!(
        service_lines(&status),
        vec![
            "".to_string(),
            "services".to_string(),
            "  web       running  pid 10  answering".to_string(),
            "  api       running  pid 11  NOT ANSWERING http://localhost:24311/health".to_string(),
            "            grove logs api --since-restart".to_string(),
        ]
    );
    assert_eq!(Readiness::Answering.as_str(), "answering");
}

#[test]
fn prepare_is_rendered_for_every_up_and_setup_runs_once() {
    let mut reg = registry("/state");
    let mut cfg = config();
    cfg.services[0].prepare = Some("npm run contracts:generate -- --port {{ port.api }}".to_string());
    let inst = open_with(&mut reg, "feat_search", cfg);
    let api = port_of(&inst, "api");
    assert_eq!(inst.prepare(0).ok(), Some(Some(format!("npm run contracts:generate -- --port {api}"))));
    assert_eq!(inst.prepare(1).ok(), Some(None));
    assert_eq!(inst.setup(0, false), Some("uv sync".to_string()));
    assert_eq!(inst.setup(0, true), None, "setup runs once per worktree");
    let e = grove::instance::prepare_failed("web", "npm run gen", "/state/web.log", "boom\n");
    assert_eq!(e.message(), "prepare for web failed: npm run gen\nfull output in /state/web.log\nboom");
}

#[test]
fn stale_services_are_named_with_the_restart_that_fixes_them() {
    assert!(stale_lines(&vec![]).is_empty());
    assert_eq!(
        stale_lines(&vec!["web".to_string(), "api".to_string()]),
        vec![
            "".to_string(),
            "web started before your newest edit and may be serving stale code".to_string(),
            "api started before your newest edit and may be serving stale code".to_string(),
            "  grove restart web api".to_string(),
        ]
    );
}

#[test]
fn a_failed_step_quotes_the_end_of_its_log() {
    let body: String = (1..=40).map(|i| format!("line {i}\n")).collect();
    let e = setup_failed("web", "npm ci", "/state/app/feat/web.log", &body);
    let expected_tail: Vec<String> = (11..=40).map(|i| format!("line {i}")).collect();
    assert_eq!(
        e.message(),
        format!("setup for web failed: npm ci\nfull output in /state/app/feat/web.log\n{}", expected_tail.join("\n"))
    );
    let e = seed_failed("org", "seed --db app", "/state/app/feat/seed-org.log", "boom\n");
    assert_eq!(e.message(), "seed org failed: seed --db app\nfull output in /state/app/feat/seed-org.log\nboom");
}

#[test]
fn a_long_setup_ticks_at_ten_seconds_then_every_fifteen() {
    assert_eq!(setup_tick(3, 10), None);
    assert_eq!(setup_tick(10, 10), Some(25));
    assert_eq!(setup_tick(24, 25), None);
    assert_eq!(setup_tick(26, 25), Some(41), "the next tick counts from when this one was said");
}

#[test]
fn the_default_registry_lives_under_the_xdg_state_directory() {
    assert_eq!(Registry::default_path(Some("/xdg"), Some("/home/me")).ok(), Some("/xdg/grove/registry.json".to_string()));
    assert_eq!(
        Registry::default_path(Some(""), Some("/home/me")).ok(),
        Some("/home/me/.local/state/grove/registry.json".to_string())
    );
    assert!(matches!(Registry::default_path(None, None), Err(InstanceError::NoHome)));
}

#[test]
fn prepare_waits_for_the_probed_services_above_it() {
    let mut reg = registry("/state");
    let mut cfg = config();
    cfg.services[1].ready = None;
    cfg.services.push(service("gen", "true"));
    let inst = open_with(&mut reg, "feat_search", cfg);
    assert_eq!(inst.prepare_waits_on(0), Vec::<usize>::new());
    assert_eq!(inst.prepare_waits_on(2), vec![0], "the unprobed service has nothing to wait for");
}

#[test]
fn each_port_variable_carries_its_own_port() {
    let mut reg = registry("/state");
    let inst = seeded_instance(&mut reg);
    let env = inst.environment(true).ok().expect("environment");
    assert_eq!(env_value(&env, "GROVE_PORT_WEB"), Some(port_of(&inst, "web").to_string()));
    assert_eq!(env_value(&env, "GROVE_PORT_API"), Some(port_of(&inst, "api").to_string()));
}

#[test]
fn a_marker_written_after_a_run_holds_on_the_next() {
    let mut reg = registry("/state");
    let inst = seeded_instance(&mut reg);
    let seen = vec![mongo_seen("mongo-generation-a")];
    let record = match inst.seed(0, true, &MarkerRead::Absent, &seen, &vec![], false) {
        Ok(SeedStep::Run { record, .. }) => record,
        _ => panic!("a fresh seed runs"),
    };
    let marker = MarkerRead::Structured(record);
    assert!(matches!(inst.seed(0, true, &marker, &seen, &vec!["mongo".to_string()], false), Ok(SeedStep::Skip(_))));
    match inst.seed(0, true, &marker, &vec![mongo_seen("mongo-generation-b")], &vec![], false) {
        Ok(SeedStep::Run { reason, .. }) => assert_eq!(reason.as_deref(), Some("resource mongo was recreated")),
        _ => panic!("a recreated datastore reruns the seed"),
    }
}
