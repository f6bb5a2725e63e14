use pidmesh::mesh::{Mesh, MeshError};
use pidmesh::records::AgentStatus;

fn join(mesh: &mut Mesh, id: &str, root: &str, now: i64) {
    let workspace = pidmesh::system::workspace_id(root);
    mesh.register(id, &workspace, root, root, Some("main"), id, 4242, Some(1), "test", "[]", now)
        .expect("registration");
}

#[test]
fn one_agent_wins_a_contended_claim() {
    let mut mesh = Mesh::new();
    join(&mut mesh, "first", "/w", 0);
    join(&mut mesh, "second", "/w", 0);
    let won = mesh.claim("first", "task", 30, None, 100).expect("claim");
    let lost = mesh.claim("second", "task", 30, None, 100).expect("claim");
    assert!(won.acquired);
    assert!(!lost.acquired);
    assert_eq!(lost.claim.agent_id, "first");
    assert_eq!(lost.agent_name, "first");
    assert_eq!(mesh.claims.len(), 1);
}

#[test]
fn holder_renews_its_lease() {
    let mut mesh = Mesh::new();
    join(&mut mesh, "a", "/w", 0);
    mesh.claim("a", "task", 10, None, 0).expect("claim");
    let renewed = mesh.claim("a", "task", 20, Some("again"), 5_000).expect("renew");
    assert!(renewed.acquired);
    assert_eq!(renewed.claim.claimed_at, 5_000);
    assert_eq!(renewed.claim.lease_expires_at, 25_000);
    assert_eq!(mesh.claims.len(), 1);
    assert_eq!(mesh.claims[0].detail.as_deref(), Some("again"));
}

#[test]
fn release_by_owner_frees_the_task() {
    let mut mesh = Mesh::new();
    join(&mut mesh, "a", "/w", 0);
    join(&mut mesh, "b", "/w", 0);
    mesh.claim("a", "task", 10, None, 0).expect("claim");
    assert!(!mesh.release("b", "task", 1).expect("release"));
    assert_eq!(mesh.claims.len(), 1);
    assert!(mesh.release("a", "task", 2).expect("release"));
    assert!(mesh.claims.is_empty());
    assert!(mesh.claim("b", "task", 10, None, 3).expect("claim").acquired);
    assert_eq!(mesh.release("ghost", "task", 4).err(), Some(MeshError::AgentNotFound));
}

#[test]
fn claims_stay_in_their_workspace() {
    let mut mesh = Mesh::new();
    join(&mut mesh, "a", "/alpha", 0);
    join(&mut mesh, "b", "/beta", 0);
    assert!(mesh.claim("a", "task", 10, None, 0).expect("claim").acquired);
    assert!(mesh.claim("b", "task", 10, None, 0).expect("claim").acquired);
    assert_eq!(mesh.claims.len(), 2);
    assert_eq!(mesh.claims[0].agent_id, "a");
    assert_eq!(mesh.claims[1].agent_id, "b");
}

#[test]
fn stop_releases_claims_of_the_session_only() {
    let mut mesh = Mesh::new();
    join(&mut mesh, "a", "/w", 0);
    join(&mut mesh, "b", "/w", 0);
    mesh.claim("a", "one", 10, None, 0).expect("claim");
    mesh.claim("b", "two", 10, None, 0).expect("claim");
    mesh.claim("a", "three", 10, None, 0).expect("claim");
    assert!(mesh.stop_agent("a", 50).expect("stop"));
    assert_eq!(mesh.claims.len(), 1);
    assert_eq!(mesh.claims[0].task_key, "two");
    assert_eq!(mesh.agents[0].status, AgentStatus::Stopped);
    assert_eq!(mesh.agents[0].stopped_at, Some(50));
    let last = mesh.events.last().expect("event");
    assert_eq!(last.event_type, "agent.stopped");
}

#[test]
fn collect_declares_dead_only_stale_sessions_without_process() {
    let mut mesh = Mesh::new();
    join(&mut mesh, "quiet-alive", "/w", 0);
    join(&mut mesh, "quiet-gone", "/w", 0);
    join(&mut mesh, "fresh", "/w", 0);
    assert!(mesh.heartbeat("fresh", 900));
    mesh.claim("quiet-gone", "held", 100, None, 0).expect("claim");
    mesh.claim("fresh", "expired", 1, None, 0).expect("claim");
    mesh.claim("quiet-alive", "kept", 100, None, 0).expect("claim");
    let stale = mesh.stale_positions(500);
    assert_eq!(stale, vec![0, 1]);
    let report = mesh.collect_stale(500, 1_000, &vec![true, false]).expect("collect");
    assert_eq!(report.dead_agents, 1);
    assert_eq!(report.expired_claims, 1);
    assert_eq!(mesh.agents[0].status, AgentStatus::Running);
    assert_eq!(mesh.agents[1].status, AgentStatus::Dead);
    assert_eq!(mesh.agents[2].status, AgentStatus::Running);
    assert_eq!(mesh.claims.len(), 1);
    assert_eq!(mesh.claims[0].task_key, "kept");
}

#[test]
fn acknowledgement_is_per_recipient() {
    let mut mesh = Mesh::new();
    join(&mut mesh, "sender", "/w", 0);
    join(&mut mesh, "x", "/w", 0);
    join(&mut mesh, "y", "/w", 0);
    let sent = mesh.send("sender", "hello", "*", None, 10).expect("send");
    assert_eq!(sent.recipient, "*");
    assert_eq!(mesh.acknowledge("x", &[sent.message_id, sent.message_id], 20).expect("ack"), 2);
    assert_eq!(mesh.receipts.len(), 1);
    assert_eq!(mesh.inbox("x", true, 10).expect("inbox").len(), 0);
    assert_eq!(mesh.inbox("y", true, 10).expect("inbox").len(), 1);
    assert_eq!(mesh.acknowledged_at(sent.message_id, "x"), Some(20));
    assert_eq!(mesh.acknowledged_at(sent.message_id, "y"), None);
    assert_eq!(mesh.acknowledge("ghost", &[], 30).expect("ack"), 0);
    assert_eq!(mesh.acknowledge("ghost", &[1], 30).err(), Some(MeshError::AgentNotFound));
    assert_eq!(mesh.acknowledge("x", &[999], 30).expect("ack"), 0);
}

#[test]
fn broadcast_skips_later_sessions() {
    let mut mesh = Mesh::new();
    join(&mut mesh, "sender", "/w", 0);
    join(&mut mesh, "early", "/w", 5);
    mesh.send("sender", "before", "*", None, 10).expect("send");
    join(&mut mesh, "late", "/w", 20);
    assert_eq!(mesh.inbox("early", false, 10).expect("inbox").len(), 1);
    assert_eq!(mesh.inbox("late", false, 10).expect("inbox").len(), 0);
    assert_eq!(mesh.inbox("sender", false, 10).expect("inbox").len(), 0);
}

#[test]
fn names_route_to_the_most_recent_session() {
    let mut mesh = Mesh::new();
    join(&mut mesh, "sender", "/w", 0);
    let workspace = pidmesh::system::workspace_id("/w");
    mesh.register("worker-old", &workspace, "/w", "/w", None, "worker", 1, None, "t", "[]", 0)
        .expect("registration");
    mesh.register("worker-new", &workspace, "/w", "/w", None, "worker", 2, None, "t", "[]", 0)
        .expect("registration");
    assert!(mesh.heartbeat("worker-new", 100));
    let sent = mesh.send("sender", "job", "worker", None, 200).expect("send");
    assert_eq!(sent.recipient, "worker-new");
    assert_eq!(mesh.messages[0].recipient_id.as_deref(), Some("worker-new"));
    assert_eq!(
        mesh.send("sender", "job", "nobody", None, 200).err(),
        Some(MeshError::RecipientNotFound)
    );
    let last = mesh.events.last().expect("event");
    assert_eq!(last.event_type, "message.sent");
    assert_eq!(last.subject.as_deref(), Some("1"));
    assert_eq!(last.data_json, "{\"recipient\":\"worker-new\"}");
}

#[test]
fn inbox_orders_oldest_first_and_respects_limit() {
    let mut mesh = Mesh::new();
    join(&mut mesh, "s", "/w", 0);
    join(&mut mesh, "r", "/w", 0);
    mesh.send("s", "late", "r", None, 30).expect("send");
    mesh.send("s", "early", "r", None, 10).expect("send");
    mesh.send("s", "middle", "*", None, 20).expect("send");
    let inbox = mesh.inbox("r", false, 2).expect("inbox");
    assert_eq!(inbox.len(), 2);
    assert_eq!(inbox[0].body, "early");
    assert_eq!(inbox[1].body, "middle");
    assert_eq!(inbox[1].recipient_id, None);
}

#[test]
fn events_follow_the_checkpoint_in_order() {
    let mut mesh = Mesh::new();
    join(&mut mesh, "a", "/w", 0);
    join(&mut mesh, "other", "/elsewhere", 0);
    let checkpoint = mesh.last_sequence;
    mesh.remember("a", "note", "note", None, 1, 5).expect("remember");
    mesh.claim("a", "task", 10, None, 6).expect("claim");
    mesh.remember("other", "foreign", "note", None, 1, 7).expect("remember");
    let events = mesh.events("a", checkpoint, 100).expect("events");
    assert_eq!(events.len(), 2);
    assert_eq!(events[0].event.event_type, "memory.created");
    assert_eq!(events[1].event.event_type, "task.claimed");
    assert!(events[0].event.sequence > checkpoint);
    assert!(events[0].event.sequence < events[1].event.sequence);
    assert_eq!(events[0].agent_name.as_deref(), Some("a"));
    let limited = mesh.events("a", checkpoint, 1).expect("events");
    assert_eq!(limited.len(), 1);
    assert_eq!(mesh.events("ghost", 0, 10).err(), Some(MeshError::AgentNotFound));
}

#[test]
fn memories_are_append_only() {
    let mut mesh = Mesh::new();
    join(&mut mesh, "a", "/w", 0);
    let first = mesh.remember("a", "one", "note", Some("k"), 3, 1).expect("remember");
    let second = mesh.remember("a", "two", "note", Some("k"), 4, 2).expect("remember");
    assert_eq!(first, 1);
    assert_eq!(second, 2);
    assert_eq!(mesh.memories.len(), 2);
    assert_eq!(mesh.memories[0].content, "one");
    assert_eq!(mesh.memories[1].content, "two");
    assert_eq!(mesh.memories[1].key.as_deref(), Some("k"));
}

#[test]
fn recall_without_terms_ranks_by_importance_then_recency() {
    let mut mesh = Mesh::new();
    join(&mut mesh, "a", "/w", 0);
    mesh.remember("a", "low", "note", None, 1, 1).expect("remember");
    mesh.remember("a", "high old", "note", None, 9, 2).expect("remember");
    mesh.remember("a", "high new", "note", None, 9, 3).expect("remember");
    let found = mesh.recall("a", "  ,; ", 10).expect("recall");
    let contents: Vec<&str> = found.iter().map(|m| m.memory.content.as_str()).collect();
    assert_eq!(contents, vec!["high new", "high old", "low"]);
    let top = mesh.recall("a", "", 1).expect("recall");
    assert_eq!(top.len(), 1);
    assert_eq!(top[0].agent_name.as_deref(), Some("a"));
}

#[test]
fn recall_matches_every_term_as_a_prefix() {
    let mut mesh = Mesh::new();
    join(&mut mesh, "a", "/w", 0);
    mesh.remember("a", "SQLite writers coordinate", "note", None, 1, 1).expect("remember");
    mesh.remember("a", "SQLite alone", "note", None, 1, 2).expect("remember");
    let found = mesh.recall("a", "sqlite writ", 10).expect("recall");
    assert_eq!(found.len(), 1);
    assert_eq!(found[0].memory.content, "SQLite writers coordinate");
    assert_eq!(mesh.recall("ghost", "x", 10).err(), Some(MeshError::AgentNotFound));
}

#[test]
fn recall_ranked_answers_each_engine_outcome() {
    let mut mesh = Mesh::new();
    join(&mut mesh, "a", "/w", 0);
    let first = mesh.remember("a", "alpha", "note", None, 1, 1).expect("remember");
    let second = mesh.remember("a", "beta", "note", None, 5, 2).expect("remember");
    assert_eq!(
        mesh.recall_ranked("a", "alpha", 10, None).err(),
        Some(MeshError::SearchFailed)
    );
    let ranked = mesh
        .recall_ranked("a", "alpha beta", 10, Some(vec![(second, 2), (first, 1), (second, 7)]))
        .expect("recall");
    let contents: Vec<&str> = ranked.iter().map(|m| m.memory.content.as_str()).collect();
    assert_eq!(contents, vec!["alpha", "beta"]);
    let none = mesh.recall_ranked("a", "gamma", 10, Some(Vec::new())).expect("recall");
    assert!(none.is_empty());
    let plain = mesh.recall_ranked("a", "", 10, None).expect("recall");
    let contents: Vec<&str> = plain.iter().map(|m| m.memory.content.as_str()).collect();
    assert_eq!(contents, vec!["beta", "alpha"]);
    assert_eq!(
        mesh.recall_ranked("ghost", "", 10, Some(Vec::new())).err(),
        Some(MeshError::AgentNotFound)
    );
}

#[test]
fn registration_errors() {
    let mut mesh = Mesh::new();
    join(&mut mesh, "a", "/w", 0);
    let workspace = pidmesh::system::workspace_id("/w");
    assert_eq!(
        mesh.register("a", &workspace, "/w", "/w", None, "a", 1, None, "t", "[]", 1).err(),
        Some(MeshError::AgentAlreadyRegistered)
    );
    assert_eq!(
        mesh.register("b", "another-id", "/w", "/w", None, "b", 1, None, "t", "[]", 1).err(),
        Some(MeshError::WorkspaceConflict)
    );
    assert_eq!(mesh.workspaces.len(), 1);
}

#[test]
fn exhausted_counters_are_reported() {
    let mut mesh = Mesh::new();
    join(&mut mesh, "a", "/w", 0);
    mesh.last_message_id = i64::MAX;
    assert_eq!(
        mesh.send("a", "x", "*", None, 1).err(),
        Some(MeshError::IdentifiersExhausted)
    );
    mesh.last_memory_id = i64::MAX;
    assert_eq!(
        mesh.remember("a", "x", "note", None, 0, 1).err(),
        Some(MeshError::IdentifiersExhausted)
    );
    mesh.last_sequence = i64::MAX;
    assert_eq!(mesh.claim("a", "t", 1, None, 1).err(), Some(MeshError::JournalFull));
    assert!(mesh.claims.is_empty());
}

#[test]
fn claim_lease_errors() {
    let mut mesh = Mesh::new();
    join(&mut mesh, "a", "/w", 0);
    assert_eq!(mesh.claim("a", "t", 0, None, 0).err(), Some(MeshError::LeaseNotPositive));
    assert_eq!(mesh.claim("a", "t", u64::MAX, None, 0).err(), Some(MeshError::LeaseOutOfRange));
    assert_eq!(mesh.claim("a", "t", 1, None, i64::MAX - 10).err(), Some(MeshError::LeaseTooLong));
    assert_eq!(mesh.claim("ghost", "t", 1, None, 0).err(), Some(MeshError::AgentNotFound));
}

#[test]
fn update_pid_and_heartbeat_touch_one_session() {
    let mut mesh = Mesh::new();
    join(&mut mesh, "a", "/w", 0);
    join(&mut mesh, "b", "/w", 0);
    assert!(mesh.update_agent_pid("a", 999, 40));
    assert_eq!(mesh.agents[0].pid, 999);
    assert_eq!(mesh.agents[0].heartbeat_at, 40);
    assert_eq!(mesh.agents[1].heartbeat_at, 0);
    assert!(!mesh.update_agent_pid("ghost", 1, 40));
    assert!(!mesh.heartbeat("ghost", 40));
}

#[test]
fn status_sorts_running_sessions_by_latest_heartbeat() {
    let mut mesh = Mesh::new();
    join(&mut mesh, "a", "/w", 0);
    join(&mut mesh, "b", "/w", 0);
    join(&mut mesh, "c", "/w", 0);
    assert!(mesh.heartbeat("b", 30));
    assert!(mesh.heartbeat("c", 20));
    assert!(mesh.stop_agent("b", 40).expect("stop"));
    let status = mesh.status(None, "/w", 100).expect("status");
    let names: Vec<&str> = status.agents.iter().map(|s| s.agent.name.as_str()).collect();
    assert_eq!(names, vec!["c", "a", "b"]);
    assert_eq!(status.agents[0].heartbeat_age_ms, 80);
    assert_eq!(status.agents[0].agent.checkout, "/w");
    assert_eq!(status.agents[0].agent.branch.as_deref(), Some("main"));
    assert_eq!(mesh.status(Some("ghost"), "/w", 100).err(), Some(MeshError::AgentNotFound));
}

#[test]
fn acknowledging_again_changes_nothing() {
    let mut mesh = Mesh::new();
    join(&mut mesh, "s", "/w", 0);
    join(&mut mesh, "r", "/w", 0);
    let sent = mesh.send("s", "hi", "r", None, 5).expect("send");
    assert_eq!(mesh.acknowledge("r", &[sent.message_id], 10).expect("ack"), 1);
    assert_eq!(mesh.acknowledge("r", &[sent.message_id], 20).expect("ack"), 1);
    assert_eq!(mesh.receipts.len(), 1);
    assert_eq!(mesh.acknowledged_at(sent.message_id, "r"), Some(10));
}

#[test]
fn events_page_without_gaps() {
    let mut mesh = Mesh::new();
    join(&mut mesh, "a", "/w", 0);
    for i in 0..5 {
        mesh.remember("a", "note", "note", None, 1, i).expect("remember");
    }
    let whole = mesh.events("a", 0, 4).expect("events");
    let first = mesh.events("a", 0, 2).expect("events");
    let rest = mesh.events("a", first[1].event.sequence, 2).expect("events");
    let paged: Vec<i64> = first.iter().chain(rest.iter()).map(|e| e.event.sequence).collect();
    let direct: Vec<i64> = whole.iter().map(|e| e.event.sequence).collect();
    assert_eq!(paged, direct);
}

#[test]
fn a_memory_reads_back_for_the_workspace() {
    let mut mesh = Mesh::new();
    join(&mut mesh, "writer", "/w", 0);
    join(&mut mesh, "reader", "/w", 0);
    let id = mesh.remember("writer", "keep this", "decision", Some("k"), 7, 3).expect("remember");
    let found = mesh.recall("reader", "", 10).expect("recall");
    let hits: Vec<_> = found.iter().filter(|e| e.memory.id == id).collect();
    assert_eq!(hits.len(), 1);
    assert_eq!(hits[0].memory.content, "keep this");
    assert_eq!(hits[0].memory.kind, "decision");
    assert_eq!(hits[0].memory.key.as_deref(), Some("k"));
    assert_eq!(hits[0].memory.importance, 7);
    assert_eq!(hits[0].memory.agent_id.as_deref(), Some("writer"));
    assert_eq!(hits[0].agent_name.as_deref(), Some("writer"));
}
