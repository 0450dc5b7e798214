use grove::ports::{default_range, RANGE_END, RANGE_START};
use grove::exposure::Exposure;
use grove::registry::{human_age, Entry, Registry};
use grove::resolve::Resolved;
use grove::supervise::Handle;

fn names() -> Vec<String> {
    vec!["frontend".into(), "backend".into()]
}

fn resolved(slug: &str) -> Resolved {
    Resolved {
        worktree: format!("/work/{slug}"),
        main_worktree: "/work/app".to_string(),
        slug: slug.to_string(),
    }
}

fn registry() -> Registry {
    Registry::at("/state/registry.json")
}

fn reserve(reg: &mut Registry, r: &Resolved) -> Entry {
    reg.reserve(r, &names(), default_range(), |_| true).expect("reserve")
}

const NOW: u64 = 1_700_000_000;

#[test]
fn an_instance_keeps_its_ports_across_restarts() {
    let mut reg = registry();
    let r = resolved("feat_search");

    let first = reserve(&mut reg, &r);
    let second = reserve(&mut reg, &r);

    assert_eq!(first.ports, second.ports);
}

#[test]
fn a_second_worktree_never_gets_the_first_worktrees_ports() {
    let mut reg = registry();
    let a = reserve(&mut reg, &resolved("fix_login"));
    let b = reserve(&mut reg, &resolved("feat_search"));

    for (_, port) in &b.ports {
        assert!(!a.ports.iter().any(|(_, p)| p == port), "{port} was handed to both instances");
    }
}

#[test]
fn reserving_records_the_instance_so_it_can_be_looked_up() {
    let mut reg = registry();
    let r = resolved("feat_search");

    let reserved = reserve(&mut reg, &r);
    let found = reg.get(&r.worktree).expect("the instance must be recorded");

    assert_eq!(found.ports, reserved.ports);
    assert_eq!(found.slug, "feat_search");
}

#[test]
fn an_unknown_worktree_is_simply_absent() {
    let reg = registry();

    assert!(reg.get("/work/app").is_none());
}

#[test]
fn listing_reports_every_reserved_instance() {
    let mut reg = registry();
    reserve(&mut reg, &resolved("fix_login"));
    reserve(&mut reg, &resolved("feat_search"));

    let mut slugs: Vec<String> = reg.list().into_iter().map(|e| e.slug).collect();
    slugs.sort();

    assert_eq!(slugs, ["feat_search", "fix_login"]);
}

#[test]
fn releasing_frees_the_ports_for_the_next_instance() {
    let mut reg = registry();
    let a = resolved("fix_login");
    let reserved = reserve(&mut reg, &a);

    reg.release(&a.worktree);

    assert!(reg.get(&a.worktree).is_none());

    let b = reserve(&mut reg, &a);
    assert_eq!(b.ports.len(), reserved.ports.len());
    for (name, port) in &b.ports {
        assert!((RANGE_START..RANGE_END).contains(port), "{name} got {port}");
    }
    assert!(reg.get(&a.worktree).is_some());
}

#[test]
fn reaping_releases_the_ports_of_worktrees_that_are_gone() {
    let mut reg = registry();
    let alive = resolved("still_here");
    let doomed = resolved("deleted_later");
    reserve(&mut reg, &alive);
    reserve(&mut reg, &doomed);

    let gone = doomed.worktree.clone();
    let reaped = reg.reap(|w: &String| *w != gone);

    assert_eq!(reaped.len(), 1);
    assert_eq!(reaped[0].slug, "deleted_later");
    assert!(reg.get(&doomed.worktree).is_none());
    assert!(reg.get(&alive.worktree).is_some(), "reaping must not disturb a live instance");
}

#[test]
fn touching_records_that_someone_is_working_here() {
    let mut reg = registry();
    let r = resolved("feat_search");
    reserve(&mut reg, &r);

    reg.touch(&r.worktree, NOW);

    let entry = reg.get(&r.worktree).expect("entry");
    let idle = entry.idle_seconds(NOW, &vec![]).expect("a touched instance has an age");
    assert!(idle < 60, "just touched, but reads as {idle}s idle");
}

#[test]
fn an_instance_serving_traffic_is_not_idle_though_no_grove_command_ran() {
    let mut reg = registry();
    let r = resolved("feat_search");
    let mut entry = reserve(&mut reg, &r);
    entry.instance_dir = Some("/state/app/feat_search".to_string());
    entry.last_used = Some(NOW - 3600);
    entry.services.push(("backend".to_string(), Handle { pid: 1, started_at: NOW - 28_800 }));

    // The backend's log was written a moment ago.
    let idle = entry.idle_seconds(NOW, &vec![Some(NOW)]).expect("age");

    assert!(idle < 60, "an instance whose backend is still logging requests must not read as idle: {idle}s");
}

#[test]
fn a_stale_log_does_not_keep_an_instance_looking_busy() {
    let mut reg = registry();
    let r = resolved("feat_search");
    let mut entry = reserve(&mut reg, &r);
    entry.instance_dir = Some("/state/app/feat_search".to_string());
    entry.last_used = Some(NOW - 3600);
    entry.services.push(("backend".to_string(), Handle { pid: 1, started_at: NOW - 28_800 }));

    let idle = entry.idle_seconds(NOW, &vec![Some(NOW - 7200)]).expect("age");

    assert!((3500..3700).contains(&idle), "with an older log, the last grove command is the freshest evidence: {idle}s");
}

#[test]
fn an_instance_with_no_evidence_of_use_has_no_idle_age() {
    let mut reg = registry();
    let entry = reserve(&mut reg, &resolved("feat_search"));

    assert_eq!(entry.idle_seconds(NOW, &vec![]), None);
}

#[test]
fn ages_read_the_way_a_person_says_them() {
    assert_eq!(human_age(45), "45s");
    assert_eq!(human_age(12 * 60), "12m");
    assert_eq!(human_age(90 * 60), "1h30m");
    assert_eq!(human_age(6 * 3600), "6h");
    assert_eq!(human_age(50 * 3600), "2d2h");
}

#[test]
fn recording_a_stale_entry_does_not_roll_back_the_idle_clock() {
    let mut reg = registry();
    let r = resolved("feat_search");
    let read_before_working = reserve(&mut reg, &r);

    reg.touch(&r.worktree, NOW);
    reg.record(&read_before_working);

    let entry = reg.get(&r.worktree).expect("entry");
    assert_eq!(entry.last_used, Some(NOW), "recording an entry read before the touch must not undo it");
}

#[test]
fn a_reservation_stays_put_while_the_registry_holds_it() {
    let mut reg = registry();
    let r = resolved("feat_search");
    let first = reserve(&mut reg, &r);

    // Even a machine that now reports every port busy hands back the recorded block.
    let again = reg.reserve(&r, &names(), default_range(), |_| false).expect("reserve again");

    assert_eq!(first.ports, again.ports);
}

#[test]
fn a_registry_with_every_block_busy_says_so() {
    let mut reg = registry();
    let err = reg
        .reserve(&resolved("feat_search"), &names(), default_range(), |_| false)
        .expect_err("no block is free");

    assert!(err.message().contains("no free port block in 20000..30000"), "{}", err.message());
    assert!(reg.list().is_empty(), "a refused reservation writes nothing");
}

#[test]
fn ports_are_kept_in_name_order_and_one_block_apart() {
    let mut reg = registry();
    let e = reserve(&mut reg, &resolved("feat_search"));

    let keys: Vec<&str> = e.ports.iter().map(|(k, _)| k.as_str()).collect();
    assert_eq!(keys, ["backend", "frontend"]);
    let frontend = e.ports[1].1;
    let backend = e.ports[0].1;
    assert_eq!(backend, frontend + 1, "names take consecutive ports in the order they were declared");
    assert_eq!((frontend - RANGE_START) % 10, 0, "a block starts on a block boundary");
}

#[test]
fn recording_one_instance_leaves_its_siblings_alone() {
    let mut reg = registry();
    let a = reserve(&mut reg, &resolved("fix_login"));
    let mut b = reserve(&mut reg, &resolved("feat_search"));
    b.services.push(("web".to_string(), Handle { pid: 42, started_at: NOW }));
    b.db_name = Some("app_feat_search".to_string());
    reg.record(&b);
    let still = reg.get("/work/fix_login").expect("the sibling is still recorded");
    assert_eq!(still.ports, a.ports);
    assert!(still.services.is_empty());
    assert_eq!(still.db_name, None);
}

#[test]
fn exposure_is_updated_through_its_own_locked_registry_operation() {
    let mut reg = registry();
    let r = resolved("feat_search");
    reserve(&mut reg, &r);
    let exposed = Exposure::explicit("dev-mac.local").ok().expect("host");

    reg.set_exposure(&r.worktree, &exposed);

    let entry = reg.get(&r.worktree).expect("entry");
    assert_eq!(entry.exposure, exposed);
}

#[test]
fn recording_a_stale_entry_does_not_roll_back_exposure() {
    let mut reg = registry();
    let r = resolved("feat_search");
    let read_while_local = reserve(&mut reg, &r);
    let exposed = Exposure::explicit("dev-mac.local").ok().expect("host");
    reg.set_exposure(&r.worktree, &exposed);

    reg.record(&read_while_local);

    let entry = reg.get(&r.worktree).expect("entry");
    assert_eq!(
        entry.exposure, exposed,
        "an unrelated stale service/database write must not return the instance to loopback"
    );
}

#[test]
fn a_change_of_exposure_leaves_the_siblings_alone() {
    let mut reg = registry();
    let a = resolved("fix_login");
    let b = resolved("feat_search");
    reserve(&mut reg, &a);
    reserve(&mut reg, &b);
    reg.set_exposure(&b.worktree, &Exposure::explicit("10.0.0.7").ok().expect("host"));
    assert_eq!(reg.get(&a.worktree).expect("entry").exposure, Exposure::Local);
}

#[test]
fn reaping_returns_what_it_dropped_once_each_in_worktree_order() {
    let mut reg = registry();
    for slug in ["c_gone", "a_gone", "b_kept"] {
        reserve(&mut reg, &resolved(slug));
    }
    let gone = reg.reap(|w: &String| w.ends_with("_kept"));
    let names: Vec<&str> = gone.iter().map(|e| e.slug.as_str()).collect();
    assert_eq!(names, ["a_gone", "c_gone"]);
    assert!(reg.get("/work/b_kept").is_some());
    assert!(reg.get("/work/a_gone").is_none());
}
