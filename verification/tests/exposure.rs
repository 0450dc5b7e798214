use grove::exposure::{Exposure, ExposureError};

#[test]
fn local_exposure_keeps_browser_and_bind_hosts_on_loopback() {
    let exposure = Exposure::local();

    assert!(!exposure.is_exposed());
    assert_eq!(exposure.public_host(), "localhost");
    assert_eq!(exposure.bind_host(), "127.0.0.1");
}

#[test]
fn explicit_exposure_uses_the_public_host_and_binds_every_interface() {
    for host in ["192.168.50.12", "dev-mac.local", "macbook.tailnet"] {
        let exposure = Exposure::explicit(host).ok().expect("valid public host");

        assert!(exposure.is_exposed());
        assert_eq!(exposure.public_host(), host);
        assert_eq!(exposure.bind_host(), "0.0.0.0");
    }
}

#[test]
fn explicit_exposure_rejects_values_that_are_not_remote_ipv4_or_hostnames() {
    for invalid in [
        "",
        "localhost",
        "127.0.0.1",
        "0.0.0.0",
        "::1",
        "2001:db8::1",
        "http://dev-mac.local",
        "dev-mac.local:8080",
        "dev/mac",
        "dev mac",
        "-dev.local",
        "dev-.local",
    ] {
        let error = match Exposure::explicit(invalid) {
            Ok(_) => panic!("local, wildcard, IPv6, or URL-shaped values must be rejected: {invalid:?}"),
            Err(e) => e,
        };
        let message = error.message();
        assert!(
            message.contains(invalid) || invalid.is_empty(),
            "the error should name the rejected value {invalid:?}: {message}"
        );
    }
}

#[test]
fn automatic_exposure_uses_the_default_routes_source_ipv4() {
    let exposure = Exposure::detect(Ok((192, 168, 50, 12))).ok().expect("detect");

    assert_eq!(exposure.public_host(), "192.168.50.12");
    assert_eq!(exposure.bind_host(), "0.0.0.0");
}

#[test]
fn automatic_exposure_explains_how_to_override_detection_failures() {
    let error = match Exposure::detect(Err("no route".to_string())) {
        Ok(_) => panic!("no default route should fail"),
        Err(e) => e,
    };

    let message = error.message();
    assert!(message.contains("--expose-host"), "{message}");
    assert!(message.contains("no route"), "{message}");
}

#[test]
fn automatic_exposure_rejects_a_loopback_route() {
    let error = match Exposure::detect(Ok((127, 0, 0, 1))) {
        Ok(_) => panic!("loopback is not remotely reachable"),
        Err(e) => e,
    };

    assert!(matches!(error, ExposureError::RouteUnreachable { .. }));
    assert!(error.message().contains("--expose-host"), "{}", error.message());
}

#[test]
fn loopback_and_wildcard_are_refused_as_unreachable_and_shapes_as_malformed() {
    assert!(matches!(Exposure::explicit("127.0.0.1"), Err(ExposureError::Unreachable { .. })));
    assert!(matches!(Exposure::explicit("127.5.5.5"), Err(ExposureError::Unreachable { .. })));
    assert!(matches!(Exposure::explicit("localhost"), Err(ExposureError::Malformed { .. })));
    assert!(matches!(Exposure::explicit("dev mac"), Err(ExposureError::Malformed { .. })));
    assert!(Exposure::explicit("dev-mac.local.").is_ok(), "a fully qualified name may end in a dot");
}

#[test]
fn a_detected_address_is_accepted_when_typed_in() {
    for a in [(192, 168, 50, 12), (10, 0, 0, 1), (172, 16, 254, 3), (8, 8, 8, 8)] {
        let detected = Exposure::detect(Ok(a)).ok().expect("detect");
        let named = Exposure::explicit(detected.public_host()).ok().expect("the same host by name");
        assert_eq!(named.public_host(), detected.public_host());
    }
    assert!(matches!(Exposure::explicit("0.0.0.0"), Err(ExposureError::Unreachable { .. })));
    assert!(matches!(Exposure::detect(Ok((0, 0, 0, 0))), Err(ExposureError::RouteUnreachable { .. })));
}
