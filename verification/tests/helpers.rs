use pidmesh::access::{authorize, authorize_control, authorize_origin, AccessError, DashboardAccess};
use pidmesh::agents::compute_stale_cutoff;
use pidmesh::claims::compute_lease_expiry;
use pidmesh::codec::encode_recipient_data;
use pidmesh::mesh::MeshError;
use pidmesh::pacing::{check_wait, retry_step, wait_step, RetryStep, WaitStep};
use pidmesh::requests::{
    broadcast, default_event_limit, default_inbox_limit, default_kind, default_lease,
    default_recall_limit, validate_label, validate_resources, validate_text, InvalidRequest,
};
use pidmesh::search::{build_fts_expression, split_query};
use pidmesh::system::{liveness, new_session_id, probe_process, process_is_alive, workspace_id, Probe};
use pidmesh::text::decimal_text;

#[test]
fn lease_expiry_is_checked() {
    assert_eq!(compute_lease_expiry(1_000, 2), Ok(3_000));
    assert_eq!(compute_lease_expiry(0, 0), Err(MeshError::LeaseNotPositive));
    assert_eq!(compute_lease_expiry(0, u64::MAX), Err(MeshError::LeaseOutOfRange));
    assert_eq!(compute_lease_expiry(i64::MAX - 999, 1), Err(MeshError::LeaseTooLong));
    assert_eq!(compute_lease_expiry(i64::MAX - 1_000, 1), Ok(i64::MAX));
    assert_eq!(compute_lease_expiry(-5, i64::MAX as u64), Ok(i64::MAX - 5));
}

#[test]
fn stale_cutoff_saturates() {
    assert_eq!(compute_stale_cutoff(1_000, 300), Ok(700));
    assert_eq!(compute_stale_cutoff(i64::MIN + 1, 10), Ok(i64::MIN));
    assert_eq!(
        compute_stale_cutoff(0, i64::MAX as u128 + 1),
        Err(MeshError::StaleWindowTooLarge)
    );
}

#[test]
fn waits_are_bounded() {
    assert_eq!(check_wait(60_000_000_000, 10_000_000), Ok(()));
    assert_eq!(check_wait(60_000_000_001, 10_000_000), Err(MeshError::TimeoutTooLong));
    assert_eq!(check_wait(1, 9_999_999), Err(MeshError::PollIntervalOutOfRange));
    assert_eq!(check_wait(1, 5_000_000_001), Err(MeshError::PollIntervalOutOfRange));
    assert_eq!(wait_step(true, 0, 10, 5), WaitStep::Deliver);
    assert_eq!(wait_step(false, 10, 10, 5), WaitStep::GiveUp);
    assert_eq!(wait_step(false, 2, 10, 5), WaitStep::Sleep(5));
    assert_eq!(wait_step(false, 7, 10, 5), WaitStep::Sleep(3));
}

#[test]
fn busy_writes_are_retried_with_doubling_delays() {
    let mut delay = 10u64;
    let mut pauses = Vec::new();
    let mut attempt = 0u32;
    loop {
        match retry_step(attempt, true, delay) {
            RetryStep::Retry { pause_millis, next_delay_millis } => {
                pauses.push(pause_millis);
                delay = next_delay_millis;
                attempt += 1;
            }
            RetryStep::Fail => break,
        }
    }
    assert_eq!(pauses, vec![10, 20, 40, 80, 160, 320, 640]);
    assert_eq!(retry_step(0, false, 10), RetryStep::Fail);
    assert_eq!(
        retry_step(0, true, u64::MAX),
        RetryStep::Retry { pause_millis: u64::MAX, next_delay_millis: u64::MAX }
    );
}

#[test]
fn request_fields_are_validated() {
    assert!(validate_text("body", "hello").is_ok());
    assert!(validate_text("body", &"x".repeat(65_536)).is_ok());
    match validate_text("body", &"x".repeat(65_537)) {
        Err(InvalidRequest::Field(f)) => {
            assert_eq!(f.label, "body");
            assert_eq!(f.max_bytes, 65_536);
        }
        other => panic!("unexpected {:?}", other),
    }
    assert!(validate_text("body", " \n\t ").is_err());
    assert!(validate_text("body", "").is_err());
    assert!(validate_label("task", &"é".repeat(128)).is_ok());
    assert!(validate_label("task", &"é".repeat(129)).is_err());
    assert!(matches!(validate_resources(&[]), Err(InvalidRequest::ResourceCount)));
    let many: Vec<String> = (0..65).map(|i| format!("path:{i}")).collect();
    assert!(matches!(validate_resources(&many), Err(InvalidRequest::ResourceCount)));
    assert!(validate_resources(&many[..64]).is_ok());
    match validate_resources(&["path:src".to_string(), "  ".to_string()]) {
        Err(InvalidRequest::Field(f)) => assert_eq!(f.label, "resource"),
        other => panic!("unexpected {:?}", other),
    }
}

#[test]
fn request_defaults() {
    assert_eq!(default_kind(), "note");
    assert_eq!(broadcast(), "*");
    assert_eq!(default_recall_limit(), 10);
    assert_eq!(default_inbox_limit(), 50);
    assert_eq!(default_event_limit(), 100);
    assert_eq!(default_lease(), 300);
}

#[test]
fn queries_split_into_prefix_terms() {
    assert_eq!(
        split_query("SQLite, concurrent writers!! v1.2-beta_x"),
        vec!["SQLite", "concurrent", "writers", "v1.2-beta_x"]
    );
    assert!(split_query(" ,;!? ").is_empty());
    assert_eq!(split_query("über café"), vec!["über", "café"]);
    let terms = vec!["SQLite".to_string(), "writ".to_string()];
    assert_eq!(build_fts_expression(&terms), "\"SQLite\"* AND \"writ\"*");
    assert_eq!(build_fts_expression(&Vec::new()), "");
}

#[test]
fn identifiers_have_their_shape() {
    let a = workspace_id("/repo");
    assert_eq!(a, workspace_id("/repo"));
    assert_ne!(a, workspace_id("/other"));
    assert_eq!(a.len(), 32);
    assert_ne!(a, "/repo");
    let id = new_session_id("planner", 4101);
    assert!(id.starts_with("planner-4101-"));
    assert_eq!(id.len(), "planner-4101-".len() + 8);
    assert!(id["planner-4101-".len()..].chars().all(|c| c.is_ascii_hexdigit()));
    assert_ne!(new_session_id("planner", 4101), id);
}

#[test]
fn numbers_and_json_render() {
    assert_eq!(decimal_text(0), "0");
    assert_eq!(decimal_text(1234), "1234");
    assert_eq!(decimal_text(u64::MAX), u64::MAX.to_string());
    assert_eq!(encode_recipient_data("worker-1"), "{\"recipient\":\"worker-1\"}");
    assert_eq!(encode_recipient_data("a\"b"), "{\"recipient\":\"a\\\"b\"}");
    assert_eq!(
        encode_recipient_data("a\nb\u{1}/\\é"),
        "{\"recipient\":\"a\\nb\\u0001/\\\\é\"}"
    );
}

#[test]
fn probes_keep_the_probed_pid() {
    let init = probe_process(1);
    assert_eq!(init.pid(), 1);
    assert!(init.alive());
    let none = probe_process(u32::MAX);
    assert_eq!(none.pid(), u32::MAX);
    assert!(!none.alive());
}

#[test]
fn processes_are_probed() {
    assert!(process_is_alive(1));
    assert!(!process_is_alive(u32::MAX));
    assert!(liveness(Probe::Delivered));
    assert!(liveness(Probe::Denied));
    assert!(!liveness(Probe::Failed));
}

#[test]
fn dashboard_requests_need_the_token_and_origin() {
    let access = DashboardAccess {
        token: "abc123".to_string(),
        origin: "http://127.0.0.1:4399".to_string(),
    };
    let origin = Some("http://127.0.0.1:4399");
    assert_eq!(authorize(&access, Some("Bearer abc123"), None), Ok(()));
    assert_eq!(authorize(&access, Some("Bearer abc123"), origin), Ok(()));
    assert_eq!(authorize(&access, Some("abc123"), origin), Err(AccessError::Unauthorized));
    assert_eq!(authorize(&access, None, origin), Err(AccessError::Unauthorized));
    assert_eq!(
        authorize(&access, Some("Bearer abc123"), Some("http://evil.test")),
        Err(AccessError::Forbidden)
    );
    assert_eq!(authorize_origin(&access, None), Err(AccessError::Forbidden));
    assert_eq!(authorize_origin(&access, origin), Ok(()));
    assert_eq!(authorize_control(&access, Some("Bearer abc123"), None), Err(AccessError::Forbidden));
    assert_eq!(authorize_control(&access, Some("Bearer abc123"), origin), Ok(()));
    assert_eq!(authorize_control(&access, Some("Bearer nope"), origin), Err(AccessError::Unauthorized));
}

#[test]
fn clock_readings_become_milliseconds() {
    assert_eq!(pidmesh::system::epoch_millis(Some(1_700_000_000_000)), Ok(1_700_000_000_000));
    assert_eq!(pidmesh::system::epoch_millis(Some(0)), Ok(0));
    assert_eq!(
        pidmesh::system::epoch_millis(Some(i64::MAX as u128 + 1)),
        Err(MeshError::ClockOverflow)
    );
    assert_eq!(pidmesh::system::epoch_millis(None), Err(MeshError::ClockBeforeEpoch));
    assert!(pidmesh::system::now_ms().expect("clock") > 1_600_000_000_000);
}

#[test]
fn supervised_sessions_are_named_and_paced() {
    let id = pidmesh::system::new_supervised_id("child");
    assert!(id.starts_with("child-run-"));
    assert_eq!(id.len(), "child-run-".len() + 8);
    assert!(id["child-run-".len()..].chars().all(|c| c.is_ascii_hexdigit()));
    assert_eq!(pidmesh::pacing::check_heartbeat_interval(10_000_000), Ok(()));
    assert_eq!(
        pidmesh::pacing::check_heartbeat_interval(9_999_999),
        Err(MeshError::HeartbeatTooFrequent)
    );
}

#[test]
fn white_space_is_refused_and_text_accepted() {
    assert!(validate_text("body", "\u{3000}\u{a0}\u{2028}").is_err());
    assert!(validate_text("body", "x").is_ok());
    assert!(validate_text("body", " \u{200b} ").is_ok());
}

#[test]
fn supervisor_exit_status_follows_the_child() {
    assert_eq!(pidmesh::system::exit_status(Some(0)), 0);
    assert_eq!(pidmesh::system::exit_status(Some(42)), 42);
    assert_eq!(pidmesh::system::exit_status(Some(255)), 255);
    assert_eq!(pidmesh::system::exit_status(Some(256)), 1);
    assert_eq!(pidmesh::system::exit_status(Some(-1)), 1);
    assert_eq!(pidmesh::system::exit_status(None), 1);
}
