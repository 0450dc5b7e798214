use grove::config::{Config, ConfigError, Ports};
use grove::llm;

fn with_ports(names: &[&str]) -> Config {
    Config {
        version: 1,
        ports: Ports { names: names.iter().map(|n| n.to_string()).collect() },
        secrets: vec![],
        resources: vec![],
        services: vec![],
        seeds: vec![],
    }
}

#[test]
fn llm_reference_explains_the_container_limit_and_existing_container_boundary() {
    let reference = llm::reference();

    assert!(reference.contains("nofile=64000:64000"), "{reference}");
    assert!(reference.contains("after the image"), "{reference}");
    assert!(reference.contains("preserve"), "{reference}");
    assert!(reference.contains("recreate"), "{reference}");
    assert!(reference.contains("dotenv"), "{reference}");
    assert!(reference.contains("disable dotenv loading"), "{reference}");
    assert!(reference.contains("process variables"), "{reference}");
    assert!(reference.contains("container incarnation"), "{reference}");
}

#[test]
fn llm_reference_routes_test_switches_and_browser_failures_to_their_owners() {
    let reference = llm::reference();

    assert!(reference.contains("repository-specific test switch"), "{reference}");
    assert!(reference.contains("[secrets.set]"), "{reference}");
    assert!(reference.contains("grove run"), "{reference}");
    assert!(reference.contains("grove status"), "{reference}");
    assert!(reference.contains("CDP"), "{reference}");
    assert!(reference.contains("agent-browser doctor --fix"), "{reference}");
}

#[test]
fn llm_reference_explains_opt_in_network_exposure() {
    let reference = llm::reference();

    for required in [
        "grove up --expose",
        "grove up --expose-host",
        "{{ host.public }}",
        "{{ host.bind }}",
        "plain `grove up`",
        "CORS",
        "all interfaces",
        "authentication bypass",
    ] {
        assert!(reference.contains(required), "the agent reference must explain {required:?}");
    }

    assert!(
        llm::EXAMPLE.contains("http://{{ host.public }}:{{ port.backend }}"),
        "the browser-facing API URL must opt in to the public host"
    );
    assert!(llm::EXAMPLE.contains("--host {{ host.bind }}"), "the service must opt in to binding all interfaces");
    assert!(
        llm::EXAMPLE.contains("CORS_ORIGINS = \"http://{{ host.public }}:{{ port.frontend }}\""),
        "the allowlist must opt in to the browser-visible origin"
    );
}

#[test]
fn the_reference_embeds_the_worked_example() {
    let reference = llm::reference();
    assert!(reference.starts_with("# grove\n"), "{reference}");
    assert!(reference.contains(llm::EXAMPLE));
    assert!(reference.contains("{{ slug }}"), "template variables are written as templates are");
}

#[test]
fn a_port_name_that_would_break_templates_is_refused() {
    let err = with_ports(&["my-port"]).validate().err().expect("must refuse a hyphenated port name");

    let msg = err.message();
    assert!(msg.contains("my-port"), "should name the offender: {msg}");
    assert!(matches!(err, ConfigError::IllegalPortName { .. }));
}

#[test]
fn legal_port_names_pass() {
    assert!(with_ports(&["frontend", "backend_2", "_x"]).validate().is_ok());
    assert!(with_ports(&["Web"]).validate().is_err(), "uppercase would not round-trip through GROVE_PORT_<NAME>");
    assert!(with_ports(&["2web"]).validate().is_err());
    assert!(with_ports(&[""]).validate().is_err());
}

#[test]
fn missing_config_routes_the_agent_to_the_schema() {
    let err = ConfigError::Missing { worktree: "/work/feat_search".to_string() };

    let msg = err.message();
    assert!(msg.contains(".grove.toml"), "should name the file: {msg}");
    assert!(msg.contains("grove --llm"), "should point at the schema so an agent can author one: {msg}");
    assert!(msg.starts_with("no .grove.toml in /work/feat_search\n"), "{msg}");
}
