use grove::resource::{reach_step, ReachStep, REACH_ATTEMPTS, REACH_INTERVAL_MS};
use grove::config::{Resource, ResourceKind};
use grove::resource::{
    container_from, decide, drop_database_command, ensure, is_missing_container, logs, observe, Decision,
    EnsurePlan, InspectRun, Inspected, ResourceError,
};

fn mongo(port: u16) -> Resource {
    Resource {
        name: "mongo".to_string(),
        kind: ResourceKind::DockerShared,
        image: Some("mongo:8.0.23".to_string()),
        args: vec!["--replSet".to_string(), "rs0".to_string()],
        port,
        init: Some("rs.initiate()".to_string()),
        db_name: Some("app_{{ slug }}".to_string()),
    }
}

#[test]
fn a_reachable_datastore_is_reused_rather_than_started() {
    let port = 27017;

    match decide(&mongo(port), true) {
        Decision::Reuse { port: found } => assert_eq!(found, port),
        Decision::Start(argv) => panic!("would have started a container: {argv:?}"),
    }
}

#[test]
fn an_absent_datastore_is_started_from_its_declared_image() {
    let port = 27123;

    let Decision::Start(argv) = decide(&mongo(port), false) else {
        panic!("should have decided to start a container");
    };

    let line = argv.join(" ");
    assert!(line.starts_with("run -d"), "{line}");
    assert!(line.contains("mongo:8.0.23"), "{line}");
    assert!(line.contains(&format!("{port}:{port}")), "must publish the declared port: {line}");
    assert!(line.contains("--replSet rs0"), "declared args must reach the container command: {line}");
    assert!(line.contains("grove-mongo"), "the container needs a stable name so a second run reuses it: {line}");
    assert!(line.contains("--ulimit nofile=64000:64000"), "{line}");
}

#[test]
fn container_arguments_come_after_the_image() {
    let Decision::Start(argv) = decide(&mongo(27123), false) else {
        panic!("should start");
    };

    let image = argv.iter().position(|a| a == "mongo:8.0.23").expect("image");
    let repl = argv.iter().position(|a| a == "--replSet").expect("replSet");
    let publish = argv.iter().position(|a| a == "-p").expect("publish");

    assert!(image < repl, "{argv:?}");
    assert!(publish < image, "{argv:?}");
}

#[test]
fn the_instance_database_name_is_reported_for_purging() {
    let command = drop_database_command(&mongo(27017), "app_feat_search");

    let line = command.join(" ");
    assert!(line.contains("app_feat_search"), "{line}");
    assert!(line.contains("dropDatabase"), "{line}");
}

#[test]
fn dropping_a_database_reaches_the_datastore_by_port() {
    let command = drop_database_command(&mongo(27017), "app_feat_search").join(" ");

    assert!(command.contains("27017"), "must address the port: {command}");
    assert!(command.contains("app_feat_search"), "{command}");
    assert!(command.contains("dropDatabase"), "{command}");
    assert!(!command.contains("exec"), "a `docker exec` only reaches a container grove started: {command}");
}

#[test]
fn inspect_reads_identity_state_exit_and_nofile() {
    let list = vec![Inspected {
        id: "abcdef0123456789".to_string(),
        running: false,
        exit_code: 133,
        ulimits: vec![("nofile".to_string(), 64000, 64000)],
    }];

    let c = container_from(&list).expect("container");

    assert_eq!(c.id, "abcdef0123456789");
    assert!(!c.running);
    assert_eq!(c.exit_code, 133);
    assert_eq!(c.nofile, Some((64000, 64000)));
}

#[test]
fn inspect_accepts_a_container_without_an_explicit_nofile() {
    let list = vec![Inspected { id: "old".to_string(), running: true, exit_code: 0, ulimits: vec![] }];

    let c = container_from(&list).expect("container");

    assert_eq!(c.id, "old");
    assert!(c.running);
    assert_eq!(c.nofile, None);
}

#[test]
fn a_missing_container_is_no_docker_error() {
    let o = observe(true, InspectRun::Failed { stderr: "Error: No such container: grove-mongo".to_string() });
    assert!(o.reachable);
    assert!(o.container.is_none());
    assert!(o.docker_error.is_none(), "a container that is not there is an answer, not a failure");
    assert!(is_missing_container("Error: No such object: grove-mongo"));

    let o = observe(false, InspectRun::Unavailable { error: "docker: not found".to_string() });
    assert!(o.docker_error.is_some());
}

#[test]
fn a_missing_datastore_without_an_image_cannot_be_started() {
    let mut r = mongo(27123);
    r.image = None;

    match ensure(&r, false) {
        Err(e @ ResourceError::NoImage { .. }) => {
            assert_eq!(e.message(), "nothing is answering on port 27123 and resource `mongo` declares no image to start")
        },
        _ => panic!("no image, nothing answering: there is nothing to start"),
    }
    assert!(matches!(ensure(&r, true), Ok(EnsurePlan::Reuse)));
}

#[test]
fn a_started_datastore_is_initialised_inside_its_container() {
    let Ok(EnsurePlan::Start { run, init }) = ensure(&mongo(27123), false) else {
        panic!("should start");
    };
    assert_eq!(run[0], "run");
    assert_eq!(init.expect("init").join(" "), "exec grove-mongo mongosh --quiet --eval rs.initiate()");
    assert_eq!(logs(&mongo(27123), 30).join(" "), "logs --tail 30 grove-mongo");
}

#[test]
fn a_started_datastore_is_given_ten_seconds_to_answer() {
    assert!(matches!(reach_step(true, 1), ReachStep::Reachable));
    assert!(matches!(reach_step(false, 1), ReachStep::Wait));
    assert!(matches!(reach_step(false, REACH_ATTEMPTS), ReachStep::GiveUp));
    assert_eq!(u64::from(REACH_ATTEMPTS) * REACH_INTERVAL_MS, 10_000);
}
