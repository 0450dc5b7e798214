use grove::supervise::{millis_debug, ready_step, NotReady, ReadyStep};
use std::time::Duration;

#[test]
fn waiting_for_ready_gives_up_and_names_the_url() {
    // Nothing answered, the process is still up, and the deadline has passed.
    let step = ready_step(false, true, true, "http://127.0.0.1:1/openapi.json", 400);

    let err = match step {
        ReadyStep::Failed(e) => e,
        other => panic!("must time out, not {other:?}"),
    };
    let msg = err.message();
    assert!(msg.contains("127.0.0.1:1"), "should name the url: {msg}");
    assert_eq!(msg, "http://127.0.0.1:1/openapi.json never answered within 400ms");
}

#[test]
fn an_answer_counts_before_the_process_and_the_clock() {
    assert!(matches!(ready_step(true, false, true, "http://x", 1), ReadyStep::Ready));
    match ready_step(false, false, false, "http://localhost:24310/health", 5000) {
        ReadyStep::Failed(e @ NotReady::Exited { .. }) => {
            assert_eq!(e.message(), "the process exited before http://localhost:24310/health answered")
        },
        other => panic!("an exited process is not worth waiting on: {other:?}"),
    }
    assert!(matches!(ready_step(false, true, false, "http://x", 1), ReadyStep::Wait));
}

#[test]
fn timeouts_are_written_the_way_a_duration_debugs() {
    for ms in [0u64, 1, 400, 999, 1000, 1500, 1050, 1005, 1230, 1234, 180_000, 3_600_001, 86_399_999] {
        assert_eq!(millis_debug(ms), format!("{:?}", Duration::from_millis(ms)), "{ms} ms");
    }
}
