use pidmesh::mesh::{Mesh, MeshError};
use pidmesh::pacing::{check_wait, wait_step, WaitStep};
use pidmesh::records::AgentStatus;
use pidmesh::store::MeshStore;

fn register(store: &mut MeshStore, name: &str, root: &str) -> String {
    store
        .register_agent(name, 1, root, root, None, "test", &[], None)
        .expect("registration")
        .agent_id
}

fn join(mesh: &mut Mesh, id: &str, root: &str, now: i64) {
    let workspace = pidmesh::system::workspace_id(root);
    mesh.register(id, &workspace, root, root, None, id, 4242, None, "test", "[]", now)
        .expect("registration");
}

#[test]
fn memory_is_shared_and_workspace_scoped() {
    let mut store = MeshStore::new("mesh.db");
    let codex = register(&mut store, "codex", "/work/alpha");
    let cursor = register(&mut store, "cursor", "/work/alpha");
    let outsider = register(&mut store, "other", "/work/beta");
    store
        .remember(
            &codex,
            "Use SQLite WAL for concurrent writers",
            "decision",
            Some("storage"),
            0.9f64.to_bits(),
        )
        .expect("remember");
    store
        .remember(&outsider, "Use a hosted database", "decision", None, 0.5f64.to_bits())
        .expect("remember");

    let memories = store.recall(&cursor, "SQLite concurrent", 10).expect("recall");
    assert_eq!(memories.len(), 1);
    assert_eq!(memories[0].agent_name.as_deref(), Some("codex"));
}

#[test]
fn messages_have_independent_receipts() {
    let mut store = MeshStore::new("mesh.db");
    let root = "/work/project";
    let sender = register(&mut store, "planner", root);
    let worker = register(&mut store, "worker", root);
    let observer = register(&mut store, "observer", root);
    let direct = store.send(&sender, "implement parser", "worker", None).expect("direct");
    let broadcast = store.send(&sender, "tests are green", "*", None).expect("broadcast");

    let worker_inbox = store.inbox(&worker, true, 50).expect("worker inbox");
    let observer_inbox = store.inbox(&observer, true, 50).expect("observer inbox");
    assert_eq!(worker_inbox.len(), 2);
    assert_eq!(observer_inbox.len(), 1);
    let ids = [direct.message_id, broadcast.message_id];
    assert_eq!(store.acknowledge(&worker, &ids).expect("acknowledge"), 2);
    assert!(store.inbox(&worker, true, 50).expect("worker inbox").is_empty());
    assert_eq!(store.inbox(&observer, true, 50).expect("observer inbox").len(), 1);
}

#[test]
fn claims_are_exclusive_and_recover_after_expiry() {
    let mut mesh = Mesh::new();
    join(&mut mesh, "first", "/work/claims", 0);
    join(&mut mesh, "second", "/work/claims", 0);
    assert!(mesh.claim("first", "task", 1, None, 0).expect("first claim").acquired);
    assert!(!mesh.claim("second", "task", 10, None, 10).expect("second claim").acquired);
    let takeover = mesh.claim("second", "task", 10, None, 1_050).expect("takeover");
    assert!(takeover.acquired);
    assert_eq!(takeover.claim.agent_id, "second");
}

#[test]
fn wait_wakes_when_another_agent_sends() {
    let mut store = MeshStore::new("mesh.db");
    let root = "/work/wait";
    let receiver = register(&mut store, "receiver", root);
    let sender = register(&mut store, "sender", root);
    let existing = store.events(&receiver, 0, 100).expect("events");
    let after = existing.last().expect("missing sequence").event.sequence;
    let timeout: u128 = 1_000_000_000;
    let poll: u128 = 10_000_000;
    assert_eq!(check_wait(timeout, poll), Ok(()));
    let mut elapsed: u128 = 0;
    let mut sent = false;
    let events = loop {
        let events = store.events(&receiver, after, 100).expect("events");
        match wait_step(!events.is_empty(), elapsed, timeout, poll) {
            WaitStep::Deliver => break events,
            WaitStep::GiveUp => panic!("the wait gave up"),
            WaitStep::Sleep(nanos) => {
                elapsed += nanos;
                if !sent && elapsed >= 50_000_000 {
                    store.send(&sender, "wake up", "receiver", None).expect("send");
                    sent = true;
                }
            }
        }
    };
    assert_eq!(events[0].event.event_type, "message.sent");
}

#[test]
fn registration_reports_the_session() {
    let mut store = MeshStore::new("mesh.db");
    let reg = store
        .register_agent(
            "planner",
            77,
            "/work/reg",
            "/work/reg-feature",
            Some("feature"),
            "codex",
            &["plan".to_string()],
            None,
        )
        .expect("registration");
    assert_eq!(reg.name, "planner");
    assert_eq!(reg.pid, 77);
    assert_eq!(reg.provider, "codex");
    assert_eq!(reg.workspace, "/work/reg");
    assert_eq!(reg.workspace_id, pidmesh::system::workspace_id("/work/reg"));
    assert!(reg.agent_id.starts_with("planner-77-"));
    assert_eq!(reg.agent_id.len(), "planner-77-".len() + 8);
    let agent = &store.mesh().agents[0];
    assert_eq!(agent.capabilities_json, "[\"plan\"]");
    assert_eq!(agent.checkout, "/work/reg-feature");
    assert_eq!(agent.branch.as_deref(), Some("feature"));
    assert_eq!(agent.status, AgentStatus::Running);
}

#[test]
fn registration_with_explicit_id_is_refused_twice() {
    let mut store = MeshStore::new("mesh.db");
    store
        .register_agent("a", 1, "/work/dup", "/work/dup", None, "test", &[], Some("fixed-id"))
        .expect("registration");
    let again = store.register_agent("b", 2, "/work/dup", "/work/dup", None, "test", &[], Some("fixed-id"));
    assert_eq!(again.err(), Some(MeshError::AgentAlreadyRegistered));
}

#[test]
fn store_claim_with_zero_lease_is_refused() {
    let mut store = MeshStore::new("mesh.db");
    let agent = register(&mut store, "a", "/work/lease");
    assert_eq!(store.claim(&agent, "task", 0, None).err(), Some(MeshError::LeaseNotPositive));
    let granted = store.claim(&agent, "task", 60, Some("detail")).expect("claim");
    assert!(granted.acquired);
    assert_eq!(granted.claim.detail.as_deref(), Some("detail"));
    assert_eq!(granted.claim.lease_expires_at - granted.claim.claimed_at, 60_000);
    assert!(store.release(&agent, "task").expect("release"));
    assert!(!store.release(&agent, "task").expect("release"));
}

#[test]
fn store_stop_marks_session_stopped() {
    let mut store = MeshStore::new("mesh.db");
    let agent = register(&mut store, "a", "/work/stop");
    store.claim(&agent, "task", 60, None).expect("claim");
    assert!(store.stop_agent(&agent).expect("stop"));
    assert_eq!(store.mesh().agents[0].status, AgentStatus::Stopped);
    assert!(store.mesh().claims.is_empty());
    assert!(!store.stop_agent("nobody").expect("stop"));
    assert!(store.heartbeat(&agent).expect("heartbeat"));
    assert_eq!(store.mesh().agents[0].status, AgentStatus::Running);
}

#[test]
fn store_status_lists_sessions_and_claims() {
    let mut store = MeshStore::new("mesh.db");
    let agent = register(&mut store, "a", "/work/status");
    store.claim(&agent, "zeta", 60, None).expect("claim");
    store.claim(&agent, "alpha", 60, None).expect("claim");
    let report = store.status(Some(agent.as_str()), "/elsewhere").expect("status");
    assert_eq!(report.status.workspace, "/work/status");
    assert_eq!(report.status.agents.len(), 1);
    assert_eq!(report.pid_alive, vec![true]);
    assert_eq!(report.status.claims.len(), 2);
    assert_eq!(report.status.claims[0].claim.task_key, "alpha");
    assert_eq!(report.status.claims[1].claim.task_key, "zeta");
    assert_eq!(report.status.claims[0].agent_name, "a");
    let unknown = store.status(None, "/nowhere").expect("status");
    assert_eq!(unknown.status.workspace, "/nowhere");
    assert_eq!(unknown.status.workspace_id, None);
    assert!(unknown.status.agents.is_empty());
}

#[test]
fn store_read_inbox_acknowledges_what_it_returns() {
    let mut store = MeshStore::new("mesh.db");
    let root = "/work/read";
    let sender = register(&mut store, "sender", root);
    let reader = register(&mut store, "reader", root);
    store.send(&sender, "one", "reader", None).expect("send");
    store.send(&sender, "two", "*", Some("thread-1")).expect("send");
    let (entries, acknowledged) = store.read_inbox(&reader, true, 50, true).expect("read");
    assert_eq!(entries.len(), 2);
    assert_eq!(acknowledged, 2);
    assert_eq!(entries[0].body, "one");
    assert_eq!(entries[1].correlation_id.as_deref(), Some("thread-1"));
    assert_eq!(entries[0].sender_name, "sender");
    assert!(store.inbox(&reader, true, 50).expect("inbox").is_empty());
    let all = store.inbox(&reader, false, 50).expect("inbox");
    assert_eq!(all.len(), 2);
    assert!(all[0].acknowledged_at.is_some());
}

#[test]
fn store_collect_keeps_live_sessions() {
    let mut store = MeshStore::new("mesh.db");
    let agent = register(&mut store, "a", "/work/gc");
    let report = store.collect_stale(0).expect("collect");
    assert_eq!(report.dead_agents, 0);
    assert!(report.probes.iter().all(|p| p.alive() && p.pid() == store.mesh().agents[0].pid));
    assert_eq!(store.mesh().agents[0].status, AgentStatus::Running);
    assert!(store.heartbeat(&agent).expect("heartbeat"));
    assert_eq!(store.collect_stale(u128::MAX).err(), Some(MeshError::StaleWindowTooLarge));
}

#[test]
fn store_from_mesh_checks_the_tables() {
    let mut mesh = Mesh::new();
    join(&mut mesh, "a", "/work/check", 0);
    let store = MeshStore::from_mesh("mesh.db", mesh).expect("consistent");
    assert_eq!(store.path(), "mesh.db");
    let mut broken = store.into_mesh();
    let copy = pidmesh::agents::copy_agent(&broken.agents[0]);
    broken.agents.push(copy);
    assert_eq!(
        MeshStore::from_mesh("mesh.db", broken).err(),
        Some(MeshError::InconsistentTables)
    );
}
