//! Properties of the coordination protocol that span operations.
use vstd::prelude::*;

use crate::agents::{
    dead_positions, is_stale, lemma_dead_positions, not_owned_by, positions, stale_at, unexpired_at,
};
use crate::claims::{lease_expiry, ClaimOutcomeView};
use crate::mesh::{MeshError, MeshView};
use crate::messaging::InboxEntryView;
use crate::pacing::{
    next_retry_step, next_wait_step, wait_admissible, RetryStep, WaitStep, MAX_WAIT_NANOS, WRITE_ATTEMPTS,
};
use crate::ranking::{is_top_ranked, is_top_text, lemma_top_ranked_covers, lemma_top_text_covers};
use crate::status::WorkspaceStatusView;
use crate::search::{query_terms, MemoryEntryView};
use crate::messaging::receipt_in;
use crate::records::{AgentStatus, ClaimView, MemoryView};
use crate::journal::EventEntryView;
use crate::ranking::{min_nat, ranks_before};
use crate::seqs::{
    lemma_filter_embedding, lemma_filter_keeps_all, lemma_filter_member, lemma_increasing_same_elements,
};

verus! {

/// At most one claim exists per workspace and task key.
pub proof fn law_one_claim_per_task(m: MeshView, i: int, j: int)
    requires
        m.wf(),
        0 <= i < m.claims.len(),
        0 <= j < m.claims.len(),
        m.claims[i].workspace_id == m.claims[j].workspace_id,
        m.claims[i].task_key == m.claims[j].task_key,
    ensures
        i == j,
{
    if i < j {
        assert(!(m.claims[i].workspace_id == m.claims[j].workspace_id && m.claims[i].task_key
            == m.claims[j].task_key));
    } else if j < i {
        assert(!(m.claims[j].workspace_id == m.claims[i].workspace_id && m.claims[j].task_key
            == m.claims[i].task_key));
    }
}

/// A free task key is granted to the agent that asks for it, with the
/// requested lease.
pub proof fn law_free_task_is_granted(
    m: MeshView,
    agent_id: Seq<char>,
    task_key: Seq<char>,
    lease_seconds: u64,
    detail: Option<Seq<char>>,
    now: i64,
    expires: i64,
)
    requires
        m.wf(),
        m.has_agent(agent_id),
        !m.has_claim(m.agent(agent_id).workspace_id, task_key),
        lease_expiry(now, lease_seconds) == Ok::<i64, MeshError>(expires),
        m.last_sequence < i64::MAX,
    ensures
        m.claim(agent_id, task_key, lease_seconds, detail, now) matches Ok((s, o)) && o.acquired
            && s.has_claim(m.agent(agent_id).workspace_id, task_key)
            && s.claims[s.claim_index(m.agent(agent_id).workspace_id, task_key)].agent_id == agent_id
            && s.claims[s.claim_index(m.agent(agent_id).workspace_id, task_key)].lease_expires_at == expires,
{
    let ws = m.agent(agent_id).workspace_id;
    let (s, o) = m.claim_step(agent_id, task_key, detail, now, expires);
    m.lemma_claim_step_wf(agent_id, task_key, detail, now, expires);
    let i = m.claims.len() as int;
    assert(s.claims[i].workspace_id == ws && s.claims[i].task_key == task_key);
    s.lemma_claim_index(ws, task_key, i);
}

/// While its lease runs, a claim is refused to every agent but its holder:
/// nothing changes and the answer names the holder.
pub proof fn law_held_task_is_refused(
    m: MeshView,
    agent_id: Seq<char>,
    task_key: Seq<char>,
    lease_seconds: u64,
    detail: Option<Seq<char>>,
    now: i64,
)
    requires
        m.wf(),
        m.has_agent(agent_id),
        m.has_claim(m.agent(agent_id).workspace_id, task_key),
        m.claims[m.claim_index(m.agent(agent_id).workspace_id, task_key)].agent_id != agent_id,
        m.claims[m.claim_index(m.agent(agent_id).workspace_id, task_key)].lease_expires_at > now,
        lease_expiry(now, lease_seconds) is Ok,
    ensures
        ({
            let held = m.claims[m.claim_index(m.agent(agent_id).workspace_id, task_key)];
            m.claim(agent_id, task_key, lease_seconds, detail, now) == Ok::<
                (MeshView, ClaimOutcomeView),
                MeshError,
            >((m, ClaimOutcomeView { claim: held, agent_name: m.agent(held.agent_id).name, acquired: false }))
        }),
{
}

/// Once its lease has ended, a claim passes to the next agent of the
/// workspace that asks for it, without any garbage collection.
pub proof fn law_expired_task_is_taken_over(
    m: MeshView,
    agent_id: Seq<char>,
    task_key: Seq<char>,
    lease_seconds: u64,
    detail: Option<Seq<char>>,
    now: i64,
    expires: i64,
)
    requires
        m.wf(),
        m.has_agent(agent_id),
        m.has_claim(m.agent(agent_id).workspace_id, task_key),
        m.claims[m.claim_index(m.agent(agent_id).workspace_id, task_key)].lease_expires_at <= now,
        lease_expiry(now, lease_seconds) == Ok::<i64, MeshError>(expires),
        m.last_sequence < i64::MAX,
    ensures
        m.claim(agent_id, task_key, lease_seconds, detail, now) matches Ok((s, o)) && o.acquired
            && o.claim.agent_id == agent_id
            && s.claims[m.claim_index(m.agent(agent_id).workspace_id, task_key)].agent_id == agent_id
            && s.claims[m.claim_index(m.agent(agent_id).workspace_id, task_key)].lease_expires_at == expires,
{
}

/// The holder of a claim renews it: the lease restarts at `now`.
pub proof fn law_holder_renews(
    m: MeshView,
    agent_id: Seq<char>,
    task_key: Seq<char>,
    lease_seconds: u64,
    detail: Option<Seq<char>>,
    now: i64,
    expires: i64,
)
    requires
        m.wf(),
        m.has_agent(agent_id),
        m.has_claim(m.agent(agent_id).workspace_id, task_key),
        m.claims[m.claim_index(m.agent(agent_id).workspace_id, task_key)].agent_id == agent_id,
        lease_expiry(now, lease_seconds) == Ok::<i64, MeshError>(expires),
        m.last_sequence < i64::MAX,
    ensures
        m.claim(agent_id, task_key, lease_seconds, detail, now) matches Ok((s, o)) && o.acquired
            && s.claims[m.claim_index(m.agent(agent_id).workspace_id, task_key)].lease_expires_at == expires
            && s.claims[m.claim_index(m.agent(agent_id).workspace_id, task_key)].claimed_at == now,
{
}

/// Of two agents of one workspace asking for the same free task at the
/// same time, the first wins and the second is told the first holds it.
pub proof fn law_one_winner(
    m: MeshView,
    first: Seq<char>,
    second: Seq<char>,
    task_key: Seq<char>,
    lease_seconds: u64,
    now: i64,
    expires: i64,
)
    requires
        m.wf(),
        m.has_agent(first),
        m.has_agent(second),
        first != second,
        m.agent(first).workspace_id == m.agent(second).workspace_id,
        !m.has_claim(m.agent(first).workspace_id, task_key),
        lease_expiry(now, lease_seconds) == Ok::<i64, MeshError>(expires),
        m.last_sequence < i64::MAX,
    ensures
        match m.claim(first, task_key, lease_seconds, None, now) {
            Ok((s, o)) => o.acquired && match s.claim(second, task_key, lease_seconds, None, now) {
                Ok((t, p)) => !p.acquired && p.claim.agent_id == first && t == s,
                Err(_) => false,
            },
            Err(_) => false,
        },
{
    law_free_task_is_granted(m, first, task_key, lease_seconds, None, now, expires);
    let (s, o) = m.claim_step(first, task_key, None, now, expires);
    m.lemma_claim_step_wf(first, task_key, None, now, expires);
    let ws = m.agent(first).workspace_id;
    assert(s.agents == m.agents);
    assert(s.agent(second) == m.agent(second));
    assert(s.agent(first) == m.agent(first));
    law_held_task_is_refused(s, second, task_key, lease_seconds, None, now);
}

/// The holder's release frees the task key; a release by any other agent
/// changes nothing.
pub proof fn law_release_frees_task(m: MeshView, agent_id: Seq<char>, task_key: Seq<char>, now: i64)
    requires
        m.wf(),
        m.has_agent(agent_id),
        m.last_sequence < i64::MAX,
    ensures
        ({
            let ws = m.agent(agent_id).workspace_id;
            let owns = m.has_claim(ws, task_key) && m.claims[m.claim_index(ws, task_key)].agent_id
                == agent_id;
            match m.release(agent_id, task_key, now) {
                Ok((s, released)) => released == owns && (owns ==> !s.has_claim(ws, task_key)) && (
                !owns ==> s == m),
                Err(_) => false,
            }
        }),
{
    let ws = m.agent(agent_id).workspace_id;
    if m.has_claim(ws, task_key) && m.claims[m.claim_index(ws, task_key)].agent_id == agent_id {
        let pos = m.claim_index(ws, task_key);
        let s = MeshView { claims: m.claims.remove(pos), ..m };
        if s.has_claim(ws, task_key) {
            let k = choose|k: int|
                0 <= k < s.claims.len() && s.claims[k].workspace_id == ws && s.claims[k].task_key
                    == task_key;
            let j = if k < pos { k } else { k + 1 };
            assert(s.claims[k] == m.claims[j]);
            law_one_claim_per_task(m, pos, j);
        }
    }
}

/// A claim request never touches the claims of another workspace.
pub proof fn law_claims_stay_in_their_workspace(
    m: MeshView,
    agent_id: Seq<char>,
    task_key: Seq<char>,
    lease_seconds: u64,
    detail: Option<Seq<char>>,
    now: i64,
    k: int,
)
    requires
        m.wf(),
        m.has_agent(agent_id),
        0 <= k < m.claims.len(),
        m.claims[k].workspace_id != m.agent(agent_id).workspace_id,
    ensures
        match m.claim(agent_id, task_key, lease_seconds, detail, now) {
            Ok((s, _)) => k < s.claims.len() && s.claims[k] == m.claims[k],
            Err(_) => true,
        },
{
}

/// A clean exit stops the session and releases every claim it held, and
/// only those.
pub proof fn law_stop_releases_claims(m: MeshView, agent_id: Seq<char>, now: i64)
    requires
        m.wf(),
        m.has_agent(agent_id),
        m.last_sequence < i64::MAX,
    ensures
        match m.stop_agent(agent_id, now) {
            Ok((s, found)) => {
                &&& found
                &&& s.has_agent(agent_id)
                &&& s.agent(agent_id).status == AgentStatus::Stopped
                &&& s.agent(agent_id).stopped_at == Some(now)
                &&& forall|k: int| 0 <= k < s.claims.len() ==> #[trigger] s.claims[k].agent_id != agent_id
                &&& forall|k: int|
                    0 <= k < m.claims.len() && m.claims[k].agent_id != agent_id ==> s.claims.contains(
                        #[trigger] m.claims[k],
                    )
            },
            Err(_) => false,
        },
{
    let i = m.agent_index(agent_id);
    assert(m.agents[i].id == agent_id);
    let s = m.end_session(i, AgentStatus::Stopped, "agent.stopped"@, now);
    m.lemma_end_session_wf(i, AgentStatus::Stopped, "agent.stopped"@, now);
    s.lemma_agent_index(agent_id, i);
    let pred = not_owned_by(agent_id);
    assert forall|k: int| 0 <= k < s.claims.len() implies #[trigger] s.claims[k].agent_id
        != agent_id by {
        m.claims.lemma_filter_pred(pred, k);
    }
    assert forall|k: int| 0 <= k < m.claims.len() && m.claims[k].agent_id != agent_id implies s.claims.contains(
        #[trigger] m.claims[k],
    ) by {
        m.claims.lemma_filter_contains(pred, k);
    }
}

/// Acknowledgements are kept per recipient: one agent's acknowledgement
/// never marks a message read for another agent.
pub proof fn law_acknowledgements_are_per_recipient(
    m: MeshView,
    agent_id: Seq<char>,
    ids: Seq<i64>,
    now: i64,
    other: Seq<char>,
    p: int,
)
    requires
        m.wf(),
        m.has_agent(other),
        other != agent_id,
        0 <= p < m.messages.len(),
    ensures
        match m.acknowledge(agent_id, ids, now) {
            Ok((s, _)) => {
                &&& s.messages == m.messages
                &&& s.agents == m.agents
                &&& s.has_receipt(m.messages[p].id, other) == m.has_receipt(m.messages[p].id, other)
                &&& s.in_inbox(s.agent(other), s.messages[p], true) == m.in_inbox(
                    m.agent(other),
                    m.messages[p],
                    true,
                )
            },
            Err(_) => true,
        },
{
    if ids.len() > 0 && m.has_agent(agent_id) {
        let a = m.agent(agent_id);
        assert(m.agents[m.agent_index(agent_id)].id == agent_id);
        let x = m.messages[p].id;
        m.lemma_ack_receipts(a, ids, now, x, other);
        let s = MeshView { receipts: m.ack_receipts(a, ids, now), ..m };
        assert(s.has_receipt(x, other) == receipt_in(s.receipts, x, other));
        assert(m.has_receipt(x, other) == receipt_in(m.receipts, x, other));
        assert(s.agent(other) == m.agent(other));
    }
}

/// A message that an agent acknowledges stays in its inbox but leaves its
/// unread inbox.
pub proof fn law_acknowledged_message_is_read(
    m: MeshView,
    agent_id: Seq<char>,
    ids: Seq<i64>,
    now: i64,
    p: int,
)
    requires
        m.wf(),
        m.has_agent(agent_id),
        0 <= p < m.messages.len(),
        ids.contains(m.messages[p].id),
        m.in_inbox(m.agent(agent_id), m.messages[p], false),
    ensures
        match m.acknowledge(agent_id, ids, now) {
            Ok((s, _)) => s.in_inbox(s.agent(agent_id), s.messages[p], false) && !s.in_inbox(
                s.agent(agent_id),
                s.messages[p],
                true,
            ),
            Err(_) => false,
        },
{
    let a = m.agent(agent_id);
    assert(m.agents[m.agent_index(agent_id)].id == agent_id);
    assert(m.ack_visible(a, m.messages[p].id));
    m.lemma_ack_receipts(a, ids, now, m.messages[p].id, agent_id);
    let s = MeshView { receipts: m.ack_receipts(a, ids, now), ..m };
    assert(s.agent(agent_id) == a);
    assert(a.id == agent_id);
    assert(receipt_in(s.receipts, m.messages[p].id, agent_id));
    let r = choose|r: int|
        0 <= r < s.receipts.len() && s.receipts[r].message_id == m.messages[p].id
            && s.receipts[r].agent_id == agent_id;
    assert(s.has_receipt(m.messages[p].id, agent_id));
}

/// Events come back in journal order, each later than the checkpoint the
/// reader gave and from the reader's own workspace.
pub proof fn law_events_follow_checkpoint(m: MeshView, agent_id: Seq<char>, after: i64, limit: nat)
    requires
        m.wf(),
        m.has_agent(agent_id),
    ensures
        match m.events_after(agent_id, after, limit) {
            Ok(out) => {
                &&& forall|k: int|
                    0 <= k < out.len() ==> #[trigger] out[k].event.sequence > after
                        && out[k].event.workspace_id == m.agent(agent_id).workspace_id
                &&& forall|k1: int, k2: int|
                    0 <= k1 < k2 < out.len() ==> #[trigger] out[k1].event.sequence
                        < #[trigger] out[k2].event.sequence
            },
            Err(_) => false,
        },
{
    let ws = m.agent(agent_id).workspace_id;
    let sel = m.event_selects(ws, after);
    let all = positions(m.events.len());
    let ps = m.event_positions(ws, after);
    let idx = lemma_filter_embedding(all, sel);
    assert forall|k: int| 0 <= k < ps.len() implies 0 <= #[trigger] ps[k] < m.events.len()
        && ps[k] == idx[k] && sel(ps[k]) by {
        all.lemma_filter_pred(sel, k);
        assert(all[idx[k]] == idx[k]);
    }
    let out = m.events_after(agent_id, after, limit)->Ok_0;
    assert forall|k: int| 0 <= k < out.len() implies #[trigger] out[k].event.sequence > after
        && out[k].event.workspace_id == ws by {
        assert(out[k] == m.event_entry(ps[k]));
    }
    assert forall|k1: int, k2: int| 0 <= k1 < k2 < out.len() implies #[trigger] out[k1].event.sequence
        < #[trigger] out[k2].event.sequence by {
        assert(out[k1] == m.event_entry(ps[k1]));
        assert(out[k2] == m.event_entry(ps[k2]));
        assert(idx[k1] < idx[k2]);
        assert(m.events[ps[k1]].sequence < m.events[ps[k2]].sequence);
    }
}

/// Every change is journaled above the last sequence: a reader of the
/// workspace that checkpointed the sequence before the change finds exactly
/// the new event after it.
pub proof fn law_checkpoint_sees_next_event(
    m: MeshView,
    workspace_id: Seq<char>,
    agent_id: Option<Seq<char>>,
    event_type: Seq<char>,
    subject: Option<Seq<char>>,
    data_json: Seq<char>,
    now: i64,
)
    requires
        m.wf(),
        m.last_sequence < i64::MAX,
    ensures
        ({
            let s = m.journal(workspace_id, agent_id, event_type, subject, data_json, now);
            &&& s.last_sequence > m.last_sequence
            &&& s.event_positions(workspace_id, m.last_sequence) == seq![m.events.len() as int]
        }),
{
    let s = m.journal(workspace_id, agent_id, event_type, subject, data_json, now);
    let sel = s.event_selects(workspace_id, m.last_sequence);
    let n = m.events.len();
    let old_positions = positions(n);
    assert(positions(n + 1) =~= old_positions.push(n as int));
    old_positions.lemma_filter_push(n as int, sel);
    assert(old_positions.all(|x: int| !sel(x))) by {
        assert forall|i: int| 0 <= i < old_positions.len() implies !sel(#[trigger] old_positions[i]) by {
            assert(s.events[i] == m.events[i]);
        }
    }
    old_positions.lemma_all_neg_filter_empty(sel);
    assert(old_positions.filter(sel) =~= Seq::<int>::empty());
    assert(s.event_positions(workspace_id, m.last_sequence) =~= seq![n as int]);
}

/// Memories are append-only: a new memory goes to the end with a fresh,
/// larger id, and every earlier record stays as it was.
pub proof fn law_memories_append_only(
    m: MeshView,
    agent_id: Seq<char>,
    content: Seq<char>,
    kind: Seq<char>,
    key: Option<Seq<char>>,
    importance: u64,
    now: i64,
)
    requires
        m.wf(),
    ensures
        match m.remember(agent_id, content, kind, key, importance, now) {
            Ok((s, id)) => {
                &&& s.memories.len() == m.memories.len() + 1
                &&& s.memories.take(m.memories.len() as int) == m.memories
                &&& s.memories.last().id == id
                &&& s.memories.last().content == content
                &&& forall|k: int| 0 <= k < m.memories.len() ==> #[trigger] m.memories[k].id < id
            },
            Err(_) => true,
        },
{
    if m.remember(agent_id, content, kind, key, importance, now) is Ok {
        let s = m.remember(agent_id, content, kind, key, importance, now)->Ok_0.0;
        assert(s.memories.take(m.memories.len() as int) =~= m.memories);
    }
}

/// A broadcast reaches only the sessions that existed when it was sent: a
/// session that joins later never finds it in its inbox.
pub proof fn law_broadcast_skips_later_sessions(
    m: MeshView,
    sender: Seq<char>,
    body: Seq<char>,
    correlation_id: Option<Seq<char>>,
    sent_at: i64,
    agent_id: Seq<char>,
    workspace_id: Seq<char>,
    root: Seq<char>,
    checkout: Seq<char>,
    branch: Option<Seq<char>>,
    name: Seq<char>,
    pid: u32,
    parent_pid: Option<i64>,
    provider: Seq<char>,
    capabilities_json: Seq<char>,
    joined_at: i64,
)
    requires
        m.wf(),
        sent_at < joined_at,
    ensures
        match m.send(sender, body, "*"@, correlation_id, sent_at) {
            Ok((s, _)) => match s.register(
                agent_id,
                workspace_id,
                root,
                checkout,
                branch,
                name,
                pid,
                parent_pid,
                provider,
                capabilities_json,
                joined_at,
            ) {
                Ok(u) => !u.in_inbox(u.agent(agent_id), u.messages[m.messages.len() as int], false),
                Err(_) => true,
            },
            Err(_) => true,
        },
{
    if m.send(sender, body, "*"@, correlation_id, sent_at) is Ok {
        let s = m.send(sender, body, "*"@, correlation_id, sent_at)->Ok_0.0;
        let r = s.register(
            agent_id,
            workspace_id,
            root,
            checkout,
            branch,
            name,
            pid,
            parent_pid,
            provider,
            capabilities_json,
            joined_at,
        );
        if r is Ok {
            let u = r->Ok_0;
            let i = u.agent_index(agent_id);
            let last = s.agents.len() as int;
            assert(u.agents[last].id == agent_id);
            if i != last {
                assert(u.agents[i] == s.agents[i]);
                assert(s.has_agent(agent_id));
            }
            assert(u.messages[m.messages.len() as int] == s.messages[m.messages.len() as int]);
        }
    }
}

/// Garbage collection declares a session dead only when it is stale and its
/// process was not found alive; it declares dead every such session; and it
/// leaves every other session as it was.
pub proof fn law_collect_reaps_only_dead_processes(
    m: MeshView,
    cutoff: i64,
    now: i64,
    alive: Seq<bool>,
    i: int,
)
    requires
        m.wf(),
        alive.len() == m.stale_positions(cutoff).len(),
        0 <= i < m.agents.len(),
    ensures
        match m.collect_stale(cutoff, now, alive) {
            Ok((s, _)) => {
                let stale = m.stale_positions(cutoff);
                let reaped = exists|k: int| 0 <= k < stale.len() && stale[k] == i && !alive[k];
                &&& reaped ==> is_stale(m.agents[i], cutoff) && s.agents[i].id == m.agents[i].id
                    && s.agents[i].status == AgentStatus::Dead && s.agents[i].stopped_at == Some(now)
                &&& !reaped ==> s.agents[i] == m.agents[i]
            },
            Err(_) => true,
        },
{
    let stale = m.stale_positions(cutoff);
    let dead = dead_positions(stale, alive);
    let all = positions(m.agents.len());
    let sel = stale_at(m.agents, cutoff);
    let idx = lemma_filter_embedding(all, sel);
    assert forall|k: int| 0 <= k < stale.len() implies 0 <= #[trigger] stale[k] < m.agents.len()
        && is_stale(m.agents[stale[k]], cutoff) by {
        all.lemma_filter_pred(sel, k);
        assert(all[idx[k]] == idx[k]);
    }
    lemma_dead_positions(stale, alive);
    assert forall|k: int| 0 <= k < dead.len() implies 0 <= #[trigger] dead[k] < m.agents.len() by {
        assert(dead.contains(dead[k]));
    }
    if m.collect_stale(cutoff, now, alive) is Ok {
        m.lemma_reap_all_effects(dead, now);
        let reaped = exists|k: int| 0 <= k < stale.len() && stale[k] == i && !alive[k];
        if reaped {
            let k = choose|k: int| 0 <= k < stale.len() && stale[k] == i && !alive[k];
            assert(dead.contains(stale[k]));
        }
        if dead.contains(i) {
            assert(reaped);
        }
    }
}

/// After garbage collection no claim has an ended lease, and no session it
/// declared dead holds a claim; every other claim is kept.
pub proof fn law_collect_releases_claims(m: MeshView, cutoff: i64, now: i64, alive: Seq<bool>)
    requires
        m.wf(),
        alive.len() == m.stale_positions(cutoff).len(),
    ensures
        match m.collect_stale(cutoff, now, alive) {
            Ok((s, _)) => {
                &&& forall|k: int| 0 <= k < s.claims.len() ==> (#[trigger] s.claims[k]).lease_expires_at > now
                &&& forall|k: int, i: int|
                    0 <= k < s.claims.len() && 0 <= i < m.agents.len() && s.agents[i].status
                        == AgentStatus::Dead && m.agents[i].status != AgentStatus::Dead
                        ==> #[trigger] s.claims[k].agent_id != #[trigger] m.agents[i].id
                &&& forall|k: int|
                    0 <= k < m.claims.len() && m.claims[k].lease_expires_at > now && (forall|i: int|
                        0 <= i < m.agents.len() && #[trigger] s.agents[i].status
                            == AgentStatus::Dead ==> m.claims[k].agent_id != m.agents[i].id
                            || m.agents[i].status == AgentStatus::Dead) ==> s.claims.contains(
                        #[trigger] m.claims[k],
                    )
            },
            Err(_) => true,
        },
{
    let stale = m.stale_positions(cutoff);
    let dead = dead_positions(stale, alive);
    let all = positions(m.agents.len());
    let sel = stale_at(m.agents, cutoff);
    let idx = lemma_filter_embedding(all, sel);
    assert forall|k: int| 0 <= k < stale.len() implies 0 <= #[trigger] stale[k] < m.agents.len()
        && is_stale(m.agents[stale[k]], cutoff) by {
        all.lemma_filter_pred(sel, k);
        assert(all[idx[k]] == idx[k]);
    }
    lemma_dead_positions(stale, alive);
    assert forall|k: int| 0 <= k < dead.len() implies 0 <= #[trigger] dead[k] < m.agents.len() by {
        assert(dead.contains(dead[k]));
    }
    if m.collect_stale(cutoff, now, alive) is Ok {
        m.lemma_reap_all_effects(dead, now);
        let r = m.reap_all(dead, now);
        let s = m.collect_stale(cutoff, now, alive)->Ok_0.0;
        let keep = unexpired_at(now);
        assert forall|k: int| 0 <= k < s.claims.len() implies (#[trigger] s.claims[k]).lease_expires_at
            > now by {
            r.claims.lemma_filter_pred(keep, k);
        }
        assert forall|k: int, i: int|
            0 <= k < s.claims.len() && 0 <= i < m.agents.len() && s.agents[i].status
                == AgentStatus::Dead && m.agents[i].status != AgentStatus::Dead implies #[trigger] s.claims[k].agent_id
            != #[trigger] m.agents[i].id by {
            let j = lemma_filter_member(r.claims, keep, k);
            assert(dead.contains(i));
            assert(r.claims[j].agent_id != m.agents[i].id);
        }
        assert forall|k: int|
            0 <= k < m.claims.len() && m.claims[k].lease_expires_at > now && (forall|i: int|
                0 <= i < m.agents.len() && #[trigger] s.agents[i].status == AgentStatus::Dead
                    ==> m.claims[k].agent_id != m.agents[i].id || m.agents[i].status
                    == AgentStatus::Dead) implies s.claims.contains(#[trigger] m.claims[k]) by {
            assert forall|i: int| dead.contains(i) implies m.claims[k].agent_id
                != #[trigger] m.agents[i].id by {
                assert(s.agents[i].status == AgentStatus::Dead);
                let q = choose|q: int| 0 <= q < stale.len() && stale[q] == i && !alive[q];
                assert(is_stale(m.agents[stale[q]], cutoff));
            }
            assert(r.claims.contains(m.claims[k]));
            let j = choose|j: int| 0 <= j < r.claims.len() && r.claims[j] == m.claims[k];
            r.claims.lemma_filter_contains(keep, j);
        }
    }
}

/// A recall returns only memories of the reader's workspace, and, when the
/// query has terms, only memories that the index matched.
pub proof fn law_recall_stays_in_workspace(
    m: MeshView,
    agent_id: Seq<char>,
    query: Seq<char>,
    limit: nat,
    out: Seq<MemoryEntryView>,
)
    requires
        m.wf(),
        m.has_agent(agent_id),
        m.is_recall(agent_id, query, limit, out),
    ensures
        forall|k: int|
            0 <= k < out.len() ==> (#[trigger] out[k]).memory.workspace_id == m.agent(
                agent_id,
            ).workspace_id && (query_terms(query).len() > 0 ==> m.recall_ranks(
                query_terms(query),
            ).contains_key(out[k].memory.id)),
{
    let ws = m.agent(agent_id).workspace_id;
    let terms = query_terms(query);
    let candidates = m.recall_candidates(ws, terms);
    let r = choose|r: Seq<int>|
        #[trigger] is_top_ranked(m.recall_keys(terms, candidates), limit, r) && out.len() == r.len()
            && forall|k: int| 0 <= k < r.len() ==> #[trigger] out[k] == m.memory_entry(candidates[r[k]]);
    let all = positions(m.memories.len());
    assert forall|k: int| 0 <= k < out.len() implies (#[trigger] out[k]).memory.workspace_id == ws
        && (terms.len() > 0 ==> m.recall_ranks(terms).contains_key(out[k].memory.id)) by {
        assert(0 <= r[k] < candidates.len());
        assert(out[k] == m.memory_entry(candidates[r[k]]));
        if terms.len() == 0 {
            all.lemma_filter_pred(m.in_workspace(ws), r[k]);
        } else {
            all.lemma_filter_pred(m.matched_in(ws, m.recall_ranks(terms)), r[k]);
        }
    }
}

/// Every inbox entry is a message that belongs in the reader's inbox: of
/// its workspace, from another agent, addressed to it or broadcast since it
/// joined, and unread when only unread messages were asked for.
pub proof fn law_inbox_holds_only_addressed_messages(
    m: MeshView,
    agent_id: Seq<char>,
    unread_only: bool,
    limit: nat,
    out: Seq<InboxEntryView>,
)
    requires
        m.wf(),
        m.has_agent(agent_id),
        m.is_inbox(agent_id, unread_only, limit, out),
    ensures
        forall|k: int|
            0 <= k < out.len() ==> exists|p: int|
                0 <= p < m.messages.len() && m.messages[p].id == (#[trigger] out[k]).id && m.in_inbox(
                    m.agent(agent_id),
                    m.messages[p],
                    unread_only,
                ),
{
    let a = m.agent(agent_id);
    let candidates = m.inbox_candidates(a, unread_only);
    let r = choose|r: Seq<int>|
        #[trigger] is_top_ranked(m.inbox_keys(candidates), limit, r) && out.len() == r.len()
            && forall|k: int| 0 <= k < r.len() ==> #[trigger] out[k] == m.inbox_entry(a, candidates[r[k]]);
    let all = positions(m.messages.len());
    let sel = m.inbox_selects(a, unread_only);
    let idx = lemma_filter_embedding(all, sel);
    assert forall|k: int| 0 <= k < out.len() implies exists|p: int|
        0 <= p < m.messages.len() && m.messages[p].id == (#[trigger] out[k]).id && m.in_inbox(
            a,
            m.messages[p],
            unread_only,
        ) by {
        assert(0 <= r[k] < candidates.len());
        let p = candidates[r[k]];
        all.lemma_filter_pred(sel, r[k]);
        assert(all[idx[r[k]]] == idx[r[k]]);
        assert(out[k] == m.inbox_entry(a, p));
        assert(0 <= p < m.messages.len());
    }
}

/// A wait never busy-loops and never sleeps past its deadline: while
/// nothing has arrived before the deadline it sleeps between one instant
/// and one poll interval, and at the deadline it gives up.
pub proof fn law_wait_is_bounded(elapsed_nanos: u128, timeout_nanos: u128, poll_nanos: u128)
    requires
        wait_admissible(timeout_nanos, poll_nanos) is Ok,
    ensures
        timeout_nanos <= MAX_WAIT_NANOS,
        match next_wait_step(false, elapsed_nanos, timeout_nanos, poll_nanos) {
            WaitStep::Sleep(n) => 0 < n <= poll_nanos && elapsed_nanos + n <= timeout_nanos,
            WaitStep::GiveUp => elapsed_nanos >= timeout_nanos,
            WaitStep::Deliver => false,
        },
{
}

/// A busy write is tried at most [`WRITE_ATTEMPTS`] times, each pause
/// doubling the one before, and any other failure is reported at once.
pub proof fn law_retries_are_bounded(attempt: u32, busy: bool, delay_millis: u64)
    ensures
        attempt + 1 >= WRITE_ATTEMPTS || !busy ==> next_retry_step(attempt, busy, delay_millis)
            == RetryStep::Fail,
        attempt + 1 < WRITE_ATTEMPTS && busy && delay_millis <= u64::MAX / 2 ==> next_retry_step(
            attempt,
            busy,
            delay_millis,
        ) == (RetryStep::Retry { pause_millis: delay_millis, next_delay_millis: (2 * delay_millis) as u64 }),
{
}

/// A direct message goes to the running session of the sender's workspace
/// that answers to the name or id and has the most recent heartbeat; a
/// broadcast names no recipient.  Either way the message is appended with
/// an id above every earlier one, and one `message.sent` event follows.
pub proof fn law_send_routes_to_freshest(
    m: MeshView,
    agent_id: Seq<char>,
    body: Seq<char>,
    recipient: Seq<char>,
    correlation_id: Option<Seq<char>>,
    now: i64,
)
    requires
        m.wf(),
        m.has_agent(agent_id),
        recipient == "*"@ || m.has_route(m.agent(agent_id).workspace_id, recipient),
        m.last_message_id < i64::MAX,
        m.last_sequence < i64::MAX,
    ensures
        match m.send(agent_id, body, recipient, correlation_id, now) {
            Ok((s, sent)) => {
                let ws = m.agent(agent_id).workspace_id;
                let message = s.messages.last();
                &&& s.messages.len() == m.messages.len() + 1
                &&& s.messages.take(m.messages.len() as int) == m.messages
                &&& message.id == sent.message_id
                &&& message.workspace_id == ws
                &&& message.sender_id == agent_id
                &&& forall|k: int| 0 <= k < m.messages.len() ==> #[trigger] m.messages[k].id < message.id
                &&& recipient == "*"@ ==> message.recipient_id is None && sent.recipient == "*"@
                &&& recipient != "*"@ ==> exists|i: int|
                    #[trigger] m.is_route(ws, recipient, i) && message.recipient_id == Some(
                        m.agents[i].id,
                    ) && sent.recipient == m.agents[i].id
                &&& s.events.len() == m.events.len() + 1
                &&& s.events.last().event_type == "message.sent"@
            },
            Err(_) => false,
        },
{
    let ws = m.agent(agent_id).workspace_id;
    if recipient != "*"@ {
        m.lemma_route_exists(ws, recipient);
    }
    let s = m.send(agent_id, body, recipient, correlation_id, now)->Ok_0.0;
    assert(s.messages.take(m.messages.len() as int) =~= m.messages);
}

/// A second collection at the same time, finding alive every process that
/// the first one spared, changes nothing and reports nothing.
pub proof fn law_collect_again_changes_nothing(
    m: MeshView,
    cutoff: i64,
    now: i64,
    alive: Seq<bool>,
    again: Seq<bool>,
)
    requires
        m.wf(),
        alive.len() == m.stale_positions(cutoff).len(),
        m.collect_stale(cutoff, now, alive) is Ok,
        again.len() == m.collect_stale(cutoff, now, alive)->Ok_0.0.stale_positions(cutoff).len(),
        forall|k: int| 0 <= k < again.len() ==> #[trigger] again[k],
    ensures
        ({
            let s = m.collect_stale(cutoff, now, alive)->Ok_0.0;
            s.collect_stale(cutoff, now, again) == Ok::<(MeshView, (nat, nat)), MeshError>(
                (s, (0nat, 0nat)),
            )
        }),
{
    let s = m.collect_stale(cutoff, now, alive)->Ok_0.0;
    law_collect_releases_claims(m, cutoff, now, alive);
    let stale = s.stale_positions(cutoff);
    let dead = dead_positions(stale, again);
    lemma_dead_positions(stale, again);
    if dead.len() > 0 {
        assert(dead.contains(dead[0]));
    }
    assert(dead.len() == 0);
    assert(s.reap_all(dead, now) == s);
    lemma_filter_keeps_all(s.claims, unexpired_at(now));
    assert(MeshView { claims: s.claims.filter(unexpired_at(now)), ..s } == s);
}

/// A status of a known workspace lists every session and every claim of
/// that workspace and nothing of another one.
pub proof fn law_status_lists_whole_workspace(
    m: MeshView,
    agent_id: Option<Seq<char>>,
    root: Seq<char>,
    now: i64,
    out: WorkspaceStatusView,
)
    requires
        m.wf(),
        m.status_workspace(agent_id, root) is Ok,
        m.status_workspace(agent_id, root)->Ok_0 is Some,
        m.is_status(agent_id, root, now, out),
    ensures
        ({
            let ws = m.workspaces[m.status_workspace(agent_id, root)->Ok_0->Some_0].id;
            &&& out.workspace_id == Some(ws)
            &&& forall|p: int|
                0 <= p < m.agents.len() && #[trigger] m.agents[p].workspace_id == ws ==> exists|k: int|
                    0 <= k < out.agents.len() && out.agents[k] == m.snapshot(p, now)
            &&& forall|p: int|
                0 <= p < m.claims.len() && #[trigger] m.claims[p].workspace_id == ws ==> exists|k: int|
                    0 <= k < out.claims.len() && out.claims[k] == m.claim_entry(p)
            &&& forall|k: int| 0 <= k < out.agents.len() ==> (#[trigger] out.agents[k]).agent.workspace_id == ws
            &&& forall|k: int| 0 <= k < out.claims.len() ==> (#[trigger] out.claims[k]).claim.workspace_id == ws
        }),
{
    let w = m.status_workspace(agent_id, root)->Ok_0->Some_0;
    let ws = m.workspaces[w].id;
    let sessions = positions(m.agents.len()).filter(m.agent_in(ws));
    let held = positions(m.claims.len()).filter(m.claim_in(ws));
    let r1 = choose|r: Seq<int>|
        #[trigger] is_top_ranked(m.session_keys(sessions), sessions.len(), r) && out.agents.len()
            == r.len() && forall|k: int| 0 <= k < r.len() ==> #[trigger] out.agents[k] == m.snapshot(sessions[r[k]], now);
    let r2 = choose|r: Seq<int>|
        #[trigger] is_top_text(m.task_keys(held), held.len(), r) && out.claims.len() == r.len()
            && forall|k: int| 0 <= k < r.len() ==> #[trigger] out.claims[k] == m.claim_entry(held[r[k]]);
    let all_a = positions(m.agents.len());
    let all_c = positions(m.claims.len());
    let ia = lemma_filter_embedding(all_a, m.agent_in(ws));
    let ic = lemma_filter_embedding(all_c, m.claim_in(ws));
    assert forall|x: int| 0 <= x < sessions.len() implies sessions[x] == ia[x] && 0 <= #[trigger] sessions[x]
        < m.agents.len() && m.agents[sessions[x]].workspace_id == ws by {
        all_a.lemma_filter_pred(m.agent_in(ws), x);
        assert(all_a[ia[x]] == ia[x]);
    }
    assert forall|x: int| 0 <= x < held.len() implies held[x] == ic[x] && 0 <= #[trigger] held[x]
        < m.claims.len() && m.claims[held[x]].workspace_id == ws by {
        all_c.lemma_filter_pred(m.claim_in(ws), x);
        assert(all_c[ic[x]] == ic[x]);
    }
    assert forall|p: int|
        0 <= p < m.agents.len() && #[trigger] m.agents[p].workspace_id == ws implies exists|k: int|
        0 <= k < out.agents.len() && out.agents[k] == m.snapshot(p, now) by {
        all_a.lemma_filter_contains(m.agent_in(ws), p);
        assert(all_a[p] == p);
        let x = choose|x: int| 0 <= x < sessions.len() && sessions[x] == p;
        lemma_top_ranked_covers(m.session_keys(sessions), r1, x);
        let k = choose|k: int| 0 <= k < r1.len() && r1[k] == x;
        assert(out.agents[k] == m.snapshot(sessions[r1[k]], now));
    }
    assert forall|p: int|
        0 <= p < m.claims.len() && #[trigger] m.claims[p].workspace_id == ws implies exists|k: int|
        0 <= k < out.claims.len() && out.claims[k] == m.claim_entry(p) by {
        all_c.lemma_filter_contains(m.claim_in(ws), p);
        assert(all_c[p] == p);
        let x = choose|x: int| 0 <= x < held.len() && held[x] == p;
        lemma_top_text_covers(m.task_keys(held), r2, x);
        let k = choose|k: int| 0 <= k < r2.len() && r2[k] == x;
        assert(out.claims[k] == m.claim_entry(held[r2[k]]));
    }
    assert forall|k: int| 0 <= k < out.agents.len() implies (#[trigger] out.agents[k]).agent.workspace_id
        == ws by {
        assert(out.agents[k] == m.snapshot(sessions[r1[k]], now));
        assert(0 <= r1[k] < sessions.len());
    }
    assert forall|k: int| 0 <= k < out.claims.len() implies (#[trigger] out.claims[k]).claim.workspace_id
        == ws by {
        assert(out.claims[k] == m.claim_entry(held[r2[k]]));
        assert(0 <= r2[k] < held.len());
    }
}

/// A claim request is granted exactly when the task is free, its lease has
/// ended, or the agent already holds it.  A grant stores the new lease for
/// the agent and journals one `task.claimed` event; a refusal changes
/// nothing and answers with the holder's claim.
pub proof fn law_claim_granted_exactly_when_open(
    m: MeshView,
    agent_id: Seq<char>,
    task_key: Seq<char>,
    lease_seconds: u64,
    detail: Option<Seq<char>>,
    now: i64,
    expires: i64,
)
    requires
        m.wf(),
        m.has_agent(agent_id),
        lease_expiry(now, lease_seconds) == Ok::<i64, MeshError>(expires),
        m.last_sequence < i64::MAX,
    ensures
        match m.claim(agent_id, task_key, lease_seconds, detail, now) {
            Ok((s, o)) => {
                let ws = m.agent(agent_id).workspace_id;
                let open = !m.has_claim(ws, task_key) || m.claim_open_to(
                    m.claim_index(ws, task_key),
                    agent_id,
                    now,
                );
                &&& o.acquired == open
                &&& open ==> s.has_claim(ws, task_key) && s.claims[s.claim_index(ws, task_key)] == (
                ClaimView {
                    workspace_id: ws,
                    task_key,
                    detail,
                    agent_id,
                    claimed_at: now,
                    lease_expires_at: expires,
                    updated_at: now,
                }) && s.events.len() == m.events.len() + 1 && s.events.last().event_type
                    == "task.claimed"@
                &&& !open ==> s == m && o.claim == m.claims[m.claim_index(ws, task_key)]
            },
            Err(_) => false,
        },
{
    let ws = m.agent(agent_id).workspace_id;
    m.lemma_claim_step_wf(agent_id, task_key, detail, now, expires);
    let s = m.claim_step(agent_id, task_key, detail, now, expires).0;
    if !m.has_claim(ws, task_key) {
        let i = m.claims.len() as int;
        assert(s.claims[i].workspace_id == ws && s.claims[i].task_key == task_key);
        s.lemma_claim_index(ws, task_key, i);
    } else {
        let pos = m.claim_index(ws, task_key);
        if m.claim_open_to(pos, agent_id, now) {
            assert(s.claims[pos].workspace_id == ws && s.claims[pos].task_key == task_key);
            s.lemma_claim_index(ws, task_key, pos);
        }
    }
}

/// Acknowledging the same messages again, at any time, answers the same
/// count and changes nothing: every message keeps its first receipt.
pub proof fn law_acknowledge_again_changes_nothing(
    m: MeshView,
    agent_id: Seq<char>,
    ids: Seq<i64>,
    now: i64,
    later: i64,
)
    requires
        m.wf(),
        m.acknowledge(agent_id, ids, now) is Ok,
    ensures
        ({
            let (s, n) = m.acknowledge(agent_id, ids, now)->Ok_0;
            s.acknowledge(agent_id, ids, later) == Ok::<(MeshView, nat), MeshError>((s, n))
        }),
{
    if ids.len() > 0 {
        let a = m.agent(agent_id);
        let s = MeshView { receipts: m.ack_receipts(a, ids, now), ..m };
        assert(s.agent(agent_id) == a);
        assert forall|x: i64|
            #![trigger ids.contains(x)]
            ids.contains(x) && s.ack_visible(a, x) implies receipt_in(s.receipts, x, a.id) by {
            m.lemma_ack_receipts(a, ids, now, x, a.id);
        }
        s.lemma_ack_receipts_settled(a, ids, later);
        m.lemma_ack_count_same_messages(s, a, ids);
        assert(MeshView { receipts: s.ack_receipts(a, ids, later), ..s } == s);
    }
}

/// Reading the journal in pages neither skips nor repeats an event: the
/// first `k + more` events after a checkpoint are the first `k` of them
/// followed by the first `more` after the last of those.
pub proof fn law_events_resume_without_gap(
    m: MeshView,
    agent_id: Seq<char>,
    after: i64,
    k: nat,
    more: nat,
)
    requires
        m.wf(),
        m.has_agent(agent_id),
        k >= 1,
        m.events_after(agent_id, after, k)->Ok_0.len() == k,
    ensures
        ({
            let first = m.events_after(agent_id, after, k)->Ok_0;
            m.events_after(agent_id, after, k + more) == Ok::<Seq<EventEntryView>, MeshError>(
                first + m.events_after(agent_id, first.last().event.sequence, more)->Ok_0,
            )
        }),
{
    let ws = m.agent(agent_id).workspace_id;
    let n = m.events.len();
    let all = positions(n);
    let ps = m.event_positions(ws, after);
    let sel = m.event_selects(ws, after);
    let idx = lemma_filter_embedding(all, sel);
    assert forall|x: int| 0 <= x < ps.len() implies ps[x] == idx[x] && 0 <= #[trigger] ps[x] < n
        && sel(ps[x]) by {
        all.lemma_filter_pred(sel, x);
        assert(all[idx[x]] == idx[x]);
    }
    let first = m.events_after(agent_id, after, k)->Ok_0;
    assert(k <= ps.len());
    let c = ps[k - 1];
    assert(first[k - 1] == m.event_entry(c));
    let last = m.events[c].sequence;
    let qs = m.event_positions(ws, last);
    let sel2 = m.event_selects(ws, last);
    let jdx = lemma_filter_embedding(all, sel2);
    assert forall|x: int| 0 <= x < qs.len() implies qs[x] == jdx[x] && 0 <= #[trigger] qs[x] < n
        && sel2(qs[x]) by {
        all.lemma_filter_pred(sel2, x);
        assert(all[jdx[x]] == jdx[x]);
    }
    let t = ps.skip(k as int);
    assert forall|x: int| qs.contains(x) <==> t.contains(x) by {
        if qs.contains(x) {
            let y = choose|y: int| 0 <= y < qs.len() && qs[y] == x;
            assert(sel2(qs[y]));
            assert(m.events[c].sequence > after);
            all.lemma_filter_contains(sel, x);
            assert(all[x] == x);
            let z = choose|z: int| 0 <= z < ps.len() && ps[z] == x;
            if z < k {
                if z < k - 1 {
                    assert(idx[z] < idx[k - 1]);
                    assert(m.events[ps[z]].sequence < m.events[c].sequence);
                }
                assert(false);
            }
            assert(t[z - k] == x);
        }
        if t.contains(x) {
            let y = choose|y: int| 0 <= y < t.len() && t[y] == x;
            let z = y + k;
            assert(ps[z] == x);
            assert(idx[k - 1] < idx[z]);
            assert(m.events[c].sequence < m.events[x].sequence);
            all.lemma_filter_contains(sel2, x);
            assert(all[x] == x);
        }
    }
    assert forall|i: int, j: int| 0 <= i < j < t.len() implies #[trigger] t[i] < #[trigger] t[j] by {
        assert(t[i] == ps[i + k] && t[j] == ps[j + k]);
        assert(idx[i + k] < idx[j + k]);
    }
    assert forall|i: int, j: int| 0 <= i < j < qs.len() implies #[trigger] qs[i] < #[trigger] qs[j] by {
        assert(jdx[i] < jdx[j]);
    }
    lemma_increasing_same_elements(qs, t);
    let entry = |p: int| m.event_entry(p);
    let whole = ps.take(min_nat(k + more, ps.len()) as int);
    let tail = t.take(min_nat(more, t.len()) as int);
    assert(whole =~= ps.take(k as int) + tail);
    assert(whole.map_values(entry) =~= ps.take(k as int).map_values(entry) + tail.map_values(entry));
}

/// A memory reads back unchanged for every agent of its workspace: once it
/// is written, a recall without terms whose limit covers the workspace's
/// memories returns it exactly once, with its content, kind, key,
/// importance, author and time.
pub proof fn law_memory_reads_back(
    m: MeshView,
    writer: Seq<char>,
    reader: Seq<char>,
    content: Seq<char>,
    kind: Seq<char>,
    key: Option<Seq<char>>,
    importance: u64,
    now: i64,
    query: Seq<char>,
    limit: nat,
    out: Seq<MemoryEntryView>,
)
    requires
        m.wf(),
        m.remember(writer, content, kind, key, importance, now) is Ok,
        ({
            let s = m.remember(writer, content, kind, key, importance, now)->Ok_0.0;
            &&& s.has_agent(reader)
            &&& s.agent(reader).workspace_id == m.agent(writer).workspace_id
            &&& limit >= positions(s.memories.len()).filter(
                s.in_workspace(m.agent(writer).workspace_id),
            ).len()
            &&& s.is_recall(reader, query, limit, out)
        }),
        query_terms(query).len() == 0,
    ensures
        ({
            let (s, id) = m.remember(writer, content, kind, key, importance, now)->Ok_0;
            let stored = MemoryView {
                id,
                workspace_id: m.agent(writer).workspace_id,
                agent_id: Some(writer),
                kind,
                key,
                content,
                importance,
                created_at: now,
            };
            exists|k: int|
                0 <= k < out.len() && out[k].memory == stored && forall|j: int|
                    0 <= j < out.len() && #[trigger] out[j].memory.id == id ==> j == k
        }),
{
    let (s, id) = m.remember(writer, content, kind, key, importance, now)->Ok_0;
    let ws = m.agent(writer).workspace_id;
    let terms = query_terms(query);
    let candidates = s.recall_candidates(ws, terms);
    let keys = s.recall_keys(terms, candidates);
    let r = choose|r: Seq<int>|
        #[trigger] is_top_ranked(keys, limit, r) && out.len() == r.len() && forall|k: int|
            0 <= k < r.len() ==> #[trigger] out[k] == s.memory_entry(candidates[r[k]]);
    let all = positions(s.memories.len());
    let sel = s.in_workspace(ws);
    let idx = lemma_filter_embedding(all, sel);
    assert forall|x: int| 0 <= x < candidates.len() implies candidates[x] == idx[x] && 0
        <= #[trigger] candidates[x] < s.memories.len() by {
        all.lemma_filter_pred(sel, x);
        assert(all[idx[x]] == idx[x]);
    }
    let p = m.memories.len() as int;
    all.lemma_filter_contains(sel, p);
    assert(all[p] == p);
    let x = choose|x: int| 0 <= x < candidates.len() && candidates[x] == p;
    assert(is_top_ranked(keys, keys.len(), r));
    lemma_top_ranked_covers(keys, r, x);
    let k = choose|k: int| 0 <= k < r.len() && r[k] == x;
    assert(out[k] == s.memory_entry(candidates[r[k]]));
    assert forall|j: int| 0 <= j < out.len() && #[trigger] out[j].memory.id == id implies j == k by {
        assert(out[j] == s.memory_entry(candidates[r[j]]));
        let q = candidates[r[j]];
        if q != p {
            assert(q < p);
            assert(s.memories[q] == m.memories[q]);
            assert(m.memories[q].id <= m.last_memory_id);
        }
        if r[j] != x {
            if r[j] < x {
                assert(idx[r[j]] < idx[x]);
            } else {
                assert(idx[x] < idx[r[j]]);
            }
        }
        if j != k {
            if j < k {
                assert(ranks_before(keys, r[j], r[k]));
            } else {
                assert(ranks_before(keys, r[k], r[j]));
            }
        }
    }
}

/// An inbox read with a limit that covers the stored messages lists every
/// message that belongs in it.
pub proof fn law_inbox_lists_every_addressed_message(
    m: MeshView,
    agent_id: Seq<char>,
    unread_only: bool,
    limit: nat,
    out: Seq<InboxEntryView>,
    p: int,
)
    requires
        m.wf(),
        m.has_agent(agent_id),
        limit >= m.messages.len(),
        m.is_inbox(agent_id, unread_only, limit, out),
        0 <= p < m.messages.len(),
        m.in_inbox(m.agent(agent_id), m.messages[p], unread_only),
    ensures
        exists|k: int| 0 <= k < out.len() && out[k] == m.inbox_entry(m.agent(agent_id), p),
{
    let a = m.agent(agent_id);
    let candidates = m.inbox_candidates(a, unread_only);
    let keys = m.inbox_keys(candidates);
    let r = choose|r: Seq<int>|
        #[trigger] is_top_ranked(keys, limit, r) && out.len() == r.len() && forall|k: int|
            0 <= k < r.len() ==> #[trigger] out[k] == m.inbox_entry(a, candidates[r[k]]);
    let all = positions(m.messages.len());
    let sel = m.inbox_selects(a, unread_only);
    all.lemma_filter_contains(sel, p);
    assert(all[p] == p);
    let x = choose|x: int| 0 <= x < candidates.len() && candidates[x] == p;
    all.lemma_filter_len(sel);
    assert(is_top_ranked(keys, keys.len(), r));
    lemma_top_ranked_covers(keys, r, x);
    let k = choose|k: int| 0 <= k < r.len() && r[k] == x;
    assert(out[k] == m.inbox_entry(a, candidates[r[k]]));
}

} // verus!
