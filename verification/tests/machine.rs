use grove::exposure::Exposure;
use grove::machine::{
    ls_lines, ls_order, ls_row, prune_report, survey, sweep_plan, sweep_report, sweep_summary, swept, EntryFacts, LoadReading,
    Machine,
};
use grove::registry::{Entry, Registry};
use grove::supervise::Handle;

const NOW: u64 = 1_700_000_000;

fn entry(slug: &str, last_used: Option<u64>) -> Entry {
    Entry {
        worktree: format!("/work/{slug}"),
        slug: slug.to_string(),
        ports: vec![("web".to_string(), 24310)],
        services: vec![("web".to_string(), Handle { pid: 1, started_at: 1 })],
        db_name: None,
        last_used,
        instance_dir: Some(format!("/state/app/{slug}")),
        exposure: Exposure::Local,
    }
}

fn facts(alive: bool) -> EntryFacts {
    EntryFacts { alive: vec![alive], logs: vec![None], present: true }
}

fn busy() -> Option<LoadReading> {
    Some(LoadReading { one: "30.0".to_string(), cores: 8, oversubscribed: true })
}

#[test]
fn joining_a_crowded_machine_names_what_can_be_reclaimed() {
    let entries = vec![
        entry("one", Some(NOW - 6 * 3600)),
        entry("two", Some(NOW)),
        entry("three", Some(NOW)),
        entry("four", Some(NOW)),
    ];
    let f: Vec<EntryFacts> = entries.iter().map(|_| facts(true)).collect();

    let m = survey(&entries, &f, Some("/work/five"), NOW, busy());
    let lines = grove::machine::up_warning(&m).join("\n");

    assert!(lines.contains("warning: load 30.0 on 8 cores, 4 instances running"), "{lines}");
    assert!(lines.contains("1 idle over 2h: one (6h)"), "{lines}");
    assert!(lines.contains("grove down --idle 2h   stops those, keeping their ports"), "{lines}");
}

#[test]
fn a_prescription_names_six_and_counts_the_rest() {
    let idle: Vec<(String, u64)> = (0..8).map(|i| (format!("box{i}"), 3 * 3600)).collect();
    let m = Machine { load: busy(), running: 8, idle };

    let lines = m.prescription().expect("something is stale");

    assert_eq!(
        lines[0],
        "  8 idle over 2h: box0 (3h), box1 (3h), box2 (3h), box3 (3h), box4 (3h), box5 (3h), and 2 more"
    );
    assert!(Machine { load: None, running: 3, idle: vec![] }.prescription().is_none());
    assert_eq!(Machine { load: None, running: 3, idle: vec![] }.headline(), "3 instances running");
}

#[test]
fn the_survey_offers_the_oldest_first_and_never_the_caller() {
    let entries = vec![
        entry("lunch", Some(NOW - 3 * 3600)),
        entry("here", Some(NOW - 9 * 3600)),
        entry("weekend", Some(NOW - 50 * 3600)),
        entry("fresh", Some(NOW - 60)),
        entry("stopped", Some(NOW - 90 * 3600)),
    ];
    let f = vec![facts(true), facts(true), facts(true), facts(true), facts(false)];

    let m = survey(&entries, &f, Some("/work/here"), NOW, None);

    assert_eq!(m.running, 4);
    let names: Vec<&str> = m.idle.iter().map(|(s, _)| s.as_str()).collect();
    assert_eq!(names, ["weekend", "lunch"]);
    assert_eq!(m.idle[0].1, 50 * 3600);
}

#[test]
fn ls_puts_the_most_neglected_instance_first() {
    let entries = vec![
        entry("worked_on_lately", Some(NOW - 60)),
        entry("stopped_long_ago", Some(NOW - 90 * 3600)),
        entry("forgotten_since_lunch", Some(NOW - 6 * 3600)),
    ];
    let f = vec![facts(true), facts(false), facts(true)];

    let order = ls_order(&entries, &f, NOW);

    assert_eq!(order, [2, 0, 1]);
    let m = survey(&entries, &f, None, NOW, Some(LoadReading { one: "0.3".to_string(), cores: 16, oversubscribed: false }));
    let lines = ls_lines(&entries, &f, &order, NOW, &m);
    assert!(lines[0].starts_with("forgotten_since_lunch "), "{}", lines[0]);
    assert!(lines[0].contains("running (1)"), "{}", lines[0]);
    assert!(lines[0].contains("idle 6h"), "{}", lines[0]);
    assert!(lines[0].ends_with("web=24310"), "{}", lines[0]);
    assert!(lines[2].contains("stopped"), "{}", lines[2]);
    assert_eq!(lines[lines.len() - 1], "load 0.3 on 16 cores, 2 instances running");
    assert_eq!(lines[lines.len() - 2], "");
}

#[test]
fn an_orphan_is_reported_rather_than_forgotten() {
    let entries = vec![entry("gone", Some(NOW))];
    let f = vec![EntryFacts { alive: vec![true], logs: vec![None], present: false }];

    let row = ls_row(&entries[0], &f[0], NOW);
    assert!(row.contains("orphaned (1)"), "{row}");
    let m = survey(&entries, &f, None, NOW, None);
    let lines = ls_lines(&entries, &f, &vec![0], NOW, &m).join("\n");
    assert!(lines.contains("1 orphaned — their worktree is gone. `grove prune` stops them."), "{lines}");
    assert_eq!(ls_lines(&vec![], &vec![], &vec![], NOW, &m), ["no instances"]);
}

#[test]
fn a_sweep_names_its_casualties_and_keeps_their_ports() {
    let entries = vec![
        entry("here", Some(NOW - 9 * 3600)),
        entry("weekend", Some(NOW - 50 * 3600)),
        entry("lunch", Some(NOW - 3 * 3600)),
        entry("no_evidence", None),
    ];
    let f: Vec<EntryFacts> = entries.iter().map(|_| facts(true)).collect();

    let plan = sweep_plan(&entries, &f, "/work/here", Some(2 * 3600), NOW);
    let dry = sweep_report(&entries, &plan, true);
    assert_eq!(dry, [
        "would stop weekend  (idle 2d2h)",
        "would stop lunch    (idle 3h)",
        "",
        "2 of 4 running. Nothing stopped (--dry-run).",
    ]);
    assert_eq!(sweep_summary(&plan), ["", "2 stopped, ports kept. 2 still running."]);

    let all_but_this = sweep_plan(&entries, &f, "/work/here", None, NOW);
    let names: Vec<&str> = all_but_this.doomed.iter().map(|(i, _)| entries[*i].slug.as_str()).collect();
    assert_eq!(names, ["weekend", "lunch", "no_evidence"], "without a window every sibling goes, evidence or not");

    let mut reg = Registry::at("/state/registry.json");
    reg.record(&entries[1]);
    swept(&mut reg, &entries[1]);
    let kept = reg.get("/work/weekend").expect("still recorded");
    assert!(kept.services.is_empty());
    assert_eq!(kept.ports, entries[1].ports, "a swept instance keeps its ports");
}

#[test]
fn prune_names_each_orphan_and_its_database() {
    assert_eq!(prune_report(&vec![], false, false), vec!["nothing to reclaim".to_string()]);
    let mut gone = entry("feat_old", None);
    gone.ports.push(("api".to_string(), 24311));
    gone.db_name = Some("app_feat_old".to_string());
    let plain = entry("spike", None);
    let orphans = vec![gone, plain];
    assert_eq!(
        prune_report(&orphans, true, false),
        vec![
            format!("would reclaim {:<28} web=24310 api=24311", "feat_old"),
            "  database app_feat_old left in place (--purge drops it)".to_string(),
            format!("would reclaim {:<28} web=24310", "spike"),
            "".to_string(),
            "2 orphaned. Nothing reclaimed (--dry-run).".to_string(),
        ]
    );
    let reaped = prune_report(&orphans, false, true);
    assert_eq!(reaped.len(), 3, "a real prune adds no dry-run footer");
    assert_eq!(reaped[0], format!("reclaimed {:<28} web=24310 api=24311", "feat_old"));
    assert_eq!(
        reaped[1],
        "  database app_feat_old left in place \u{2014} this instance predates grove recording its datastore, so grove cannot reach it"
    );
}

#[test]
fn ls_shows_the_host_an_exposed_instance_is_reached_at() {
    let mut e = entry("feat_qa", Some(NOW));
    e.exposure = Exposure::Exposed { public_host: "192.168.1.20".to_string() };
    let row = ls_row(&e, &facts(true), NOW);
    assert!(row.ends_with("web=24310 exposed 192.168.1.20"), "{row}");
    assert!(ls_row(&entry("feat_qa", Some(NOW)), &facts(true), NOW).ends_with("web=24310"));
}
