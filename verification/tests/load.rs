use grove::machine::{should_warn, LoadReading};

fn load(one: &str, cores: u64, oversubscribed: bool) -> LoadReading {
    LoadReading { one: one.to_string(), cores, oversubscribed }
}

#[test]
fn a_busy_machine_with_few_instances_is_not_worth_warning_about() {
    let hammered = load("30.0", 8, true);

    assert!(!should_warn(Some(&hammered), 1));
    assert!(!should_warn(Some(&hammered), 2));
    assert!(!should_warn(Some(&hammered), 3));
    assert!(should_warn(Some(&hammered), 4));
}

#[test]
fn a_crowd_on_an_idle_machine_is_not_worth_warning_about() {
    let calm = load("1.2", 16, false);
    assert!(!should_warn(Some(&calm), 13));
}

#[test]
fn an_unreadable_load_never_warns() {
    assert!(!should_warn(None, 13));
}
