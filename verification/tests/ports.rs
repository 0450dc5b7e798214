use grove::ports::{allocate, allocate_avoiding, default_range, parse_range, range, RANGE_END, RANGE_START};
use std::collections::HashSet;

fn names() -> Vec<String> {
    vec!["frontend".into(), "backend".into()]
}

fn port(block: &[(String, u16)], name: &str) -> u16 {
    block.iter().find(|(n, _)| n == name).map(|(_, p)| *p).expect("named")
}

#[test]
fn allocation_is_stable_while_the_block_stays_free() {
    let a = allocate(default_range(), "repo-stable", "mon_2695", &names(), |_| true).expect("allocate");
    let b = allocate(default_range(), "repo-stable", "mon_2695", &names(), |_| true).expect("allocate");

    assert_eq!(a, b);
}

#[test]
fn ports_land_far_from_the_defaults_a_stale_config_falls_back_to() {
    let a = allocate(default_range(), "repo-range", "mon_2695", &names(), |_| true).expect("allocate");

    for (name, port) in &a {
        assert!((RANGE_START..RANGE_END).contains(port), "{name} got {port}, outside {RANGE_START}..{RANGE_END}");
    }
}

#[test]
fn two_worktrees_of_one_repo_get_different_ports() {
    let a = allocate(default_range(), "repo-distinct", "mon_2694", &names(), |_| true).expect("allocate");
    let b = allocate(default_range(), "repo-distinct", "mon_2695", &names(), |_| true).expect("allocate");

    assert_ne!(port(&a, "frontend"), port(&b, "frontend"));
    assert_ne!(port(&a, "backend"), port(&b, "backend"));
    assert_ne!(port(&a, "frontend"), port(&b, "backend"), "blocks must not overlap either");
}

#[test]
fn an_occupied_port_moves_the_whole_block() {
    let names = names();
    let first = allocate(default_range(), "repo-occupied", "t1", &names, |_| true).expect("allocate");
    let held: Vec<u16> = first.iter().map(|(_, p)| *p).collect();

    // Every port it wanted is now held, the way another process on this machine would.
    let second = allocate(default_range(), "repo-occupied", "t1", &names, |p| !held.contains(&p)).expect("allocate");

    for (name, port) in &second {
        assert!(!held.contains(port), "{name} was handed the occupied port {port}");
    }
}

#[test]
fn a_repo_needing_more_ports_than_a_block_holds_says_so() {
    let too_many: Vec<String> = (0..64).map(|i| format!("svc{i}")).collect();

    let err = allocate(default_range(), "repo-toomany", "t1", &too_many, |_| true).expect_err("must refuse");

    assert!(err.message().contains("block"), "{}", err.message());
    assert_eq!(err.message(), "t1 needs 64 ports but a block holds 10");
}

#[test]
fn a_promised_port_is_avoided_though_nothing_listens_on_it() {
    let first = allocate(default_range(), "repo-promised", "t1", &names(), |_| true).expect("allocate");
    let taken: HashSet<u16> = first.iter().map(|(_, p)| *p).collect();

    let second = allocate_avoiding(default_range(), "repo-promised", "t1", &names(), &taken, |_| true).expect("allocate");

    for (_, p) in &second {
        assert!(!taken.contains(p), "{p} was promised elsewhere");
    }
}

#[test]
fn no_names_need_no_ports() {
    let block = allocate(default_range(), "repo-empty", "t1", &vec![], |_| false).expect("nothing to do");
    assert!(block.is_empty());
}

#[test]
fn a_port_range_setting_is_read_or_ignored() {
    let r = range(Some("31000-31100"));
    assert_eq!((r.start, r.end), (31000, 31100));
    let r = range(Some(" 31000 - 31100 "));
    assert_eq!((r.start, r.end), (31000, 31100));
    let r = range(Some("31100-31000"));
    assert_eq!((r.start, r.end), (RANGE_START, RANGE_END), "a backwards range falls back to the default");
    let r = range(Some("nonsense"));
    assert_eq!((r.start, r.end), (RANGE_START, RANGE_END));
    let r = range(None);
    assert_eq!((r.start, r.end), (RANGE_START, RANGE_END));
    assert!(parse_range("70000-80000").is_none(), "ports stop at 65535");
}
