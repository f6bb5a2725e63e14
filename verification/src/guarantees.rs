//! What each operation promises of its answer, stated over the fields of
//! the rows it reads and returns.
use vstd::prelude::*;

use crate::agents::{dead_positions, is_stale, lemma_dead_positions, positions, stale_at};
use crate::mesh::MeshView;
use crate::ranking::{is_top_ranked, lemma_top_ranked_covers, ranks_before};
use crate::records::{AgentStatus, AgentView, MemoryView};
use crate::seqs::{lemma_filter_embedding, lemma_increasing_same_elements};
use crate::search::{query_terms, MemoryEntryView};
use crate::journal::EventEntryView;
use crate::messaging::{receipt_in, InboxEntryView};
use crate::mesh::MeshError;
use crate::ranking::min_nat;
use crate::status::WorkspaceStatusView;

verus! {

/// Recall order when the query has terms: a better full-text rank (a
/// smaller one) first; at equal rank the more important memory; at equal
/// importance the newer one.
pub open spec fn relevance_order(ranks: Map<i64, i64>, a: MemoryView, b: MemoryView) -> bool {
    ||| ranks[a.id] < ranks[b.id]
    ||| ranks[a.id] == ranks[b.id] && a.importance > b.importance
    ||| ranks[a.id] == ranks[b.id] && a.importance == b.importance && a.created_at >= b.created_at
}

/// Recall order when the query has no terms: the more important memory
/// first; at equal importance the newer one.
pub open spec fn recency_order(a: MemoryView, b: MemoryView) -> bool {
    ||| a.importance > b.importance
    ||| a.importance == b.importance && a.created_at >= b.created_at
}

/// The order in which a recall of `terms` lists memories.
pub open spec fn recall_order(terms: nat, ranks: Map<i64, i64>, a: MemoryView, b: MemoryView) -> bool {
    if terms > 0 {
        relevance_order(ranks, a, b)
    } else {
        recency_order(a, b)
    }
}

/// A recall lists its memories in recall order: with terms, by full-text
/// rank, then importance (higher first), then time (newer first); without
/// terms, by importance, then time.  A memory of the reader's workspace
/// that the recall could have returned (one the index matched, when the
/// query has terms) but that the limit left out never comes before a
/// returned one in that order.
pub proof fn law_recall_follows_recall_order(
    m: MeshView,
    agent_id: Seq<char>,
    query: Seq<char>,
    limit: nat,
    out: Seq<MemoryEntryView>,
)
    requires
        m.wf(),
        m.has_agent(agent_id),
        m.is_recall(agent_id, query, limit, out),
    ensures
        ({
            let n = query_terms(query).len();
            let ranks = m.recall_ranks(query_terms(query));
            &&& forall|i: int, j: int|
                0 <= i < j < out.len() ==> recall_order(n, ranks, #[trigger] out[i].memory, #[trigger] out[j].memory)
            &&& forall|p: int, k: int|
                0 <= p < m.memories.len() && 0 <= k < out.len() && m.memories[p].workspace_id
                    == m.agent(agent_id).workspace_id && (n > 0 ==> ranks.contains_key(
                    m.memories[p].id,
                )) && (forall|x: int| 0 <= x < out.len() ==> out[x].memory.id != m.memories[p].id)
                    ==> recall_order(n, ranks, #[trigger] out[k].memory, #[trigger] m.memories[p])
        }),
{
    let ws = m.agent(agent_id).workspace_id;
    let terms = query_terms(query);
    let n = terms.len();
    let ranks = m.recall_ranks(terms);
    let candidates = m.recall_candidates(ws, terms);
    let keys = m.recall_keys(terms, candidates);
    let r = choose|r: Seq<int>|
        #[trigger] is_top_ranked(keys, limit, r) && out.len() == r.len() && forall|k: int|
            0 <= k < r.len() ==> #[trigger] out[k] == m.memory_entry(candidates[r[k]]);
    let all = positions(m.memories.len());
    let sel = if n == 0 {
        m.in_workspace(ws)
    } else {
        m.matched_in(ws, ranks)
    };
    assert(candidates == all.filter(sel));
    assert forall|x: int, y: int|
        0 <= x < candidates.len() && 0 <= y < candidates.len() && ranks_before(keys, x, y)
            implies recall_order(n, ranks, m.memories[candidates[x]], m.memories[candidates[y]]) by {
        let a = m.memories[candidates[x]];
        let b = m.memories[candidates[y]];
        assert(keys[x] == m.recall_key_by(terms, ranks, candidates[x]));
        assert(keys[y] == m.recall_key_by(terms, ranks, candidates[y]));
        if n > 0 {
            assert(keys[x].primary == ranks[a.id] as i128);
            assert(keys[y].primary == ranks[b.id] as i128);
            assert(keys[x].secondary == -(a.importance as int));
            assert(keys[y].secondary == -(b.importance as int));
            assert(keys[x].tertiary == -(a.created_at as int));
            assert(keys[y].tertiary == -(b.created_at as int));
        } else {
            assert(keys[x].primary == -(a.importance as int));
            assert(keys[y].primary == -(b.importance as int));
            assert(keys[x].secondary == -(a.created_at as int));
            assert(keys[y].secondary == -(b.created_at as int));
        }
    }
    assert forall|i: int, j: int| 0 <= i < j < out.len() implies recall_order(
        n,
        ranks,
        #[trigger] out[i].memory,
        #[trigger] out[j].memory,
    ) by {
        assert(ranks_before(keys, r[i], r[j]));
        assert(out[i] == m.memory_entry(candidates[r[i]]));
        assert(out[j] == m.memory_entry(candidates[r[j]]));
    }
    assert forall|p: int, k: int|
        0 <= p < m.memories.len() && 0 <= k < out.len() && m.memories[p].workspace_id == ws && (n
            > 0 ==> ranks.contains_key(m.memories[p].id)) && (forall|x: int|
            0 <= x < out.len() ==> out[x].memory.id != m.memories[p].id) implies recall_order(
        n,
        ranks,
        #[trigger] out[k].memory,
        #[trigger] m.memories[p],
    ) by {
        all.lemma_filter_contains(sel, p);
        assert(all[p] == p);
        let x = choose|x: int| 0 <= x < candidates.len() && candidates[x] == p;
        if r.contains(x) {
            let q = choose|q: int| 0 <= q < r.len() && r[q] == x;
            assert(out[q] == m.memory_entry(candidates[r[q]]));
            assert(out[q].memory.id == m.memories[p].id);
        }
        assert(ranks_before(keys, r[k], x));
        assert(out[k] == m.memory_entry(candidates[r[k]]));
    }
}

/// The stale sessions are exactly the sessions marked running whose last
/// heartbeat is before the cut-off, listed once each in table order.
pub proof fn law_stale_sessions_are_running_and_silent(m: MeshView, cutoff: i64)
    ensures
        ({
            let stale = m.stale_positions(cutoff);
            &&& forall|k: int|
                0 <= k < stale.len() ==> 0 <= #[trigger] stale[k] < m.agents.len()
                    && m.agents[stale[k]].status == AgentStatus::Running
                    && m.agents[stale[k]].heartbeat_at < cutoff
            &&& forall|i: int|
                0 <= i < m.agents.len() && #[trigger] m.agents[i].status == AgentStatus::Running
                    && m.agents[i].heartbeat_at < cutoff ==> stale.contains(i)
            &&& forall|k: int, l: int| 0 <= k < l < stale.len() ==> #[trigger] stale[k] < #[trigger] stale[l]
        }),
{
    let stale = m.stale_positions(cutoff);
    let all = positions(m.agents.len());
    let sel = stale_at(m.agents, cutoff);
    let idx = lemma_filter_embedding(all, sel);
    assert forall|k: int| 0 <= k < stale.len() implies stale[k] == idx[k] && is_stale(
        m.agents[stale[k]],
        cutoff,
    ) by {
        all.lemma_filter_pred(sel, k);
        assert(all[idx[k]] == idx[k]);
    }
    assert forall|i: int|
        0 <= i < m.agents.len() && #[trigger] m.agents[i].status == AgentStatus::Running
            && m.agents[i].heartbeat_at < cutoff implies stale.contains(i) by {
        all.lemma_filter_contains(sel, i);
        assert(all[i] == i);
    }
    assert forall|k: int, l: int| 0 <= k < l < stale.len() implies #[trigger] stale[k] < #[trigger] stale[l] by {
        assert(idx[k] < idx[l]);
    }
}

/// The candidates declared dead keep the order of the candidates.
proof fn lemma_dead_positions_increasing(candidates: Seq<int>, alive: Seq<bool>)
    requires
        candidates.len() == alive.len(),
        forall|k: int, l: int|
            0 <= k < l < candidates.len() ==> #[trigger] candidates[k] < #[trigger] candidates[l],
    ensures
        forall|k: int, l: int|
            0 <= k < l < dead_positions(candidates, alive).len() ==> #[trigger] dead_positions(
                candidates,
                alive,
            )[k] < #[trigger] dead_positions(candidates, alive)[l],
    decreases candidates.len(),
{
    if candidates.len() > 0 {
        let c0 = candidates.drop_last();
        let a0 = alive.drop_last();
        lemma_dead_positions_increasing(c0, a0);
        lemma_dead_positions(c0, a0);
        let rest = dead_positions(c0, a0);
        if !alive.last() {
            let d = dead_positions(candidates, alive);
            assert(d == rest.push(candidates.last()));
            assert forall|k: int| 0 <= k < rest.len() implies #[trigger] rest[k] < candidates.last() by {
                assert(rest.contains(rest[k]));
                let q = choose|q: int| 0 <= q < c0.len() && c0[q] == rest[k] && !a0[q];
                assert(candidates[q] == c0[q]);
            }
            assert forall|k: int, l: int| 0 <= k < l < d.len() implies #[trigger] d[k] < #[trigger] d[l] by {
                assert(d[k] == rest[k]);
                if l < rest.len() {
                    assert(d[l] == rest[l]);
                }
            }
        }
    }
}

/// Garbage collection changes only sessions that were marked running and
/// silent since before the cut-off: each of those it changes is declared
/// dead at `now`; every session not marked running (stopped or already
/// dead) is left exactly as it was; and the count of dead sessions it
/// reports is the number of sessions that went from running to dead.
pub proof fn law_collect_touches_only_running_sessions(
    m: MeshView,
    cutoff: i64,
    now: i64,
    alive: Seq<bool>,
)
    requires
        m.wf(),
        alive.len() == m.stale_positions(cutoff).len(),
    ensures
        match m.collect_stale(cutoff, now, alive) {
            Ok((s, (dead, _))) => {
                &&& s.agents.len() == m.agents.len()
                &&& forall|i: int|
                    0 <= i < m.agents.len() && #[trigger] m.agents[i].status != AgentStatus::Running
                        ==> s.agents[i] == m.agents[i]
                &&& forall|i: int|
                    0 <= i < m.agents.len() && #[trigger] s.agents[i] != m.agents[i]
                        ==> m.agents[i].status == AgentStatus::Running && m.agents[i].heartbeat_at
                        < cutoff && s.agents[i].status == AgentStatus::Dead && s.agents[i].stopped_at
                        == Some(now) && s.agents[i].id == m.agents[i].id
                &&& dead == positions(m.agents.len()).filter(
                    |i: int|
                        m.agents[i].status == AgentStatus::Running && s.agents[i].status
                            == AgentStatus::Dead,
                ).len()
            },
            Err(_) => true,
        },
{
    law_stale_sessions_are_running_and_silent(m, cutoff);
    let stale = m.stale_positions(cutoff);
    let dead = dead_positions(stale, alive);
    lemma_dead_positions(stale, alive);
    lemma_dead_positions_increasing(stale, alive);
    assert forall|k: int| 0 <= k < dead.len() implies 0 <= #[trigger] dead[k] < m.agents.len() by {
        assert(dead.contains(dead[k]));
    }
    if m.collect_stale(cutoff, now, alive) is Ok {
        m.lemma_reap_all_effects(dead, now);
        let s = m.collect_stale(cutoff, now, alive)->Ok_0.0;
        let all = positions(m.agents.len());
        let pred = |i: int|
            m.agents[i].status == AgentStatus::Running && s.agents[i].status == AgentStatus::Dead;
        let f = all.filter(pred);
        let idx = lemma_filter_embedding(all, pred);
        assert forall|i: int|
            0 <= i < m.agents.len() && #[trigger] m.agents[i].status != AgentStatus::Running
                implies s.agents[i] == m.agents[i] by {
            if dead.contains(i) {
                let q = choose|q: int| 0 <= q < stale.len() && stale[q] == i && !alive[q];
            }
        }
        assert forall|i: int|
            0 <= i < m.agents.len() && #[trigger] s.agents[i] != m.agents[i] implies m.agents[i].status
                == AgentStatus::Running && m.agents[i].heartbeat_at < cutoff && s.agents[i].status
                == AgentStatus::Dead && s.agents[i].stopped_at == Some(now) && s.agents[i].id
                == m.agents[i].id by {
            assert(dead.contains(i));
            let q = choose|q: int| 0 <= q < stale.len() && stale[q] == i && !alive[q];
        }
        assert forall|k: int| 0 <= k < f.len() implies f[k] == idx[k] && pred(#[trigger] f[k]) by {
            all.lemma_filter_pred(pred, k);
            assert(all[idx[k]] == idx[k]);
        }
        assert forall|k: int, l: int| 0 <= k < l < f.len() implies #[trigger] f[k] < #[trigger] f[l] by {
            assert(idx[k] < idx[l]);
        }
        assert forall|x: int| dead.contains(x) <==> f.contains(x) by {
            if dead.contains(x) {
                let q = choose|q: int| 0 <= q < stale.len() && stale[q] == x && !alive[q];
                all.lemma_filter_contains(pred, x);
                assert(all[x] == x);
            }
            if f.contains(x) {
                let k = choose|k: int| 0 <= k < f.len() && f[k] == x;
                assert(pred(f[k]));
                if !dead.contains(x) {
                    assert(s.agents[x] == m.agents[x]);
                }
            }
        }
        lemma_increasing_same_elements(dead, f);
    }
}

/// A direct message needs a running recipient: when no session of the
/// sender's workspace that answers to the name or id is marked running,
/// the send fails with `RecipientNotFound` and so stores nothing.
pub proof fn law_direct_send_needs_running_recipient(
    m: MeshView,
    agent_id: Seq<char>,
    body: Seq<char>,
    recipient: Seq<char>,
    correlation_id: Option<Seq<char>>,
    now: i64,
)
    requires
        m.wf(),
        m.has_agent(agent_id),
        recipient != "*"@,
        forall|i: int|
            0 <= i < m.agents.len() && #[trigger] m.agents[i].workspace_id == m.agent(agent_id).workspace_id
                && (m.agents[i].id == recipient || m.agents[i].name == recipient)
                ==> m.agents[i].status != AgentStatus::Running,
    ensures
        m.send(agent_id, body, recipient, correlation_id, now) == Err::<
            (MeshView, crate::messaging::SentMessageView),
            MeshError,
        >(MeshError::RecipientNotFound),
{
    let ws = m.agent(agent_id).workspace_id;
    if m.has_route(ws, recipient) {
        let i = choose|i: int| m.answers_to(ws, recipient, i);
        assert(m.agents[i].workspace_id == ws);
    }
}

/// Whether the session at `i` is a running session of workspace `ws`
/// with the name or id `recipient`.
pub open spec fn running_under(m: MeshView, ws: Seq<char>, recipient: Seq<char>, i: int) -> bool {
    &&& 0 <= i < m.agents.len()
    &&& m.agents[i].workspace_id == ws
    &&& m.agents[i].id == recipient || m.agents[i].name == recipient
    &&& m.agents[i].status == AgentStatus::Running
}

/// A direct message that is sent goes to a running session of the
/// sender's workspace with that name or id, one whose heartbeat is the
/// most recent among such sessions.
pub proof fn law_direct_send_reaches_freshest_running(
    m: MeshView,
    agent_id: Seq<char>,
    body: Seq<char>,
    recipient: Seq<char>,
    correlation_id: Option<Seq<char>>,
    now: i64,
)
    requires
        m.wf(),
        m.has_agent(agent_id),
        recipient != "*"@,
    ensures
        match m.send(agent_id, body, recipient, correlation_id, now) {
            Ok((s, sent)) => exists|i: int|
                #[trigger] running_under(m, m.agent(agent_id).workspace_id, recipient, i)
                    && s.messages.last().recipient_id == Some(m.agents[i].id) && sent.recipient
                    == m.agents[i].id && forall|j: int|
                    #[trigger] running_under(m, m.agent(agent_id).workspace_id, recipient, j)
                        ==> m.agents[j].heartbeat_at <= m.agents[i].heartbeat_at,
            Err(_) => true,
        },
{
    let ws = m.agent(agent_id).workspace_id;
    if m.send(agent_id, body, recipient, correlation_id, now) is Ok {
        assert(m.has_route(ws, recipient));
        m.lemma_route_exists(ws, recipient);
        let i = m.route(ws, recipient);
        assert(m.answers_to(ws, recipient, i));
        assert forall|j: int| #[trigger] running_under(m, ws, recipient, j) implies m.agents[j].heartbeat_at
            <= m.agents[i].heartbeat_at by {
            assert(m.answers_to(ws, recipient, j));
        }
        let (s, sent) = m.send(agent_id, body, recipient, correlation_id, now)->Ok_0;
        assert(s.messages.last().recipient_id == Some(m.agents[i].id));
        assert(sent.recipient == m.agents[i].id);
        assert(running_under(m, ws, recipient, i));
    }
}

/// Every inbox entry is a message of the reader's workspace, sent by
/// another session, and addressed to the reader or broadcast no earlier
/// than the reader joined; a message of another workspace never appears.
pub proof fn law_inbox_stays_in_workspace(
    m: MeshView,
    agent_id: Seq<char>,
    unread_only: bool,
    limit: nat,
    out: Seq<InboxEntryView>,
)
    requires
        m.wf(),
        m.has_agent(agent_id),
        m.is_inbox(agent_id, unread_only, limit, out),
    ensures
        forall|k: int, p: int|
            0 <= k < out.len() && 0 <= p < m.messages.len() && #[trigger] m.messages[p].id
                == #[trigger] out[k].id ==> {
                let msg = m.messages[p];
                &&& msg.workspace_id == m.agent(agent_id).workspace_id
                &&& msg.sender_id != agent_id
                &&& msg.recipient_id == Some(agent_id) || (msg.recipient_id is None
                    && msg.created_at >= m.agent(agent_id).started_at)
            },
        unread_only ==> forall|k: int, q: int|
            0 <= k < out.len() && 0 <= q < m.receipts.len() && #[trigger] m.receipts[q].message_id
                == #[trigger] out[k].id ==> m.receipts[q].agent_id != agent_id,
{
    crate::laws::law_inbox_holds_only_addressed_messages(m, agent_id, unread_only, limit, out);
    let a = m.agent(agent_id);
    assert(a.id == agent_id);
    assert forall|k: int, p: int|
        0 <= k < out.len() && 0 <= p < m.messages.len() && #[trigger] m.messages[p].id
            == #[trigger] out[k].id implies {
            let msg = m.messages[p];
            &&& msg.workspace_id == a.workspace_id
            &&& msg.sender_id != agent_id
            &&& msg.recipient_id == Some(agent_id) || (msg.recipient_id is None && msg.created_at
                >= a.started_at)
        } by {
        let q = choose|q: int|
            0 <= q < m.messages.len() && m.messages[q].id == out[k].id && m.in_inbox(
                a,
                m.messages[q],
                unread_only,
            );
        if q < p {
            assert(m.messages[q].id < m.messages[p].id);
        } else if p < q {
            assert(m.messages[p].id < m.messages[q].id);
        }
    }
    if unread_only {
        assert forall|k: int, q: int|
            0 <= k < out.len() && 0 <= q < m.receipts.len() && #[trigger] m.receipts[q].message_id
                == #[trigger] out[k].id implies m.receipts[q].agent_id != agent_id by {
            let p = choose|p: int|
                0 <= p < m.messages.len() && m.messages[p].id == out[k].id && m.in_inbox(
                    a,
                    m.messages[p],
                    unread_only,
                );
            if m.receipts[q].agent_id == agent_id {
                assert(m.has_receipt(m.messages[p].id, a.id));
            }
        }
    }
}

/// An inbox read whose limit covers the stored messages lists every
/// message of the reader's workspace sent by another session that is
/// addressed to the reader or broadcast since it joined (and, when only
/// unread messages are asked for, that the reader has not acknowledged).
pub proof fn law_inbox_is_complete(
    m: MeshView,
    agent_id: Seq<char>,
    unread_only: bool,
    limit: nat,
    out: Seq<InboxEntryView>,
    p: int,
)
    requires
        m.wf(),
        m.has_agent(agent_id),
        limit >= m.messages.len(),
        m.is_inbox(agent_id, unread_only, limit, out),
        0 <= p < m.messages.len(),
        m.messages[p].workspace_id == m.agent(agent_id).workspace_id,
        m.messages[p].sender_id != agent_id,
        m.messages[p].recipient_id == Some(agent_id) || (m.messages[p].recipient_id is None
            && m.messages[p].created_at >= m.agent(agent_id).started_at),
        unread_only ==> forall|q: int|
            0 <= q < m.receipts.len() && #[trigger] m.receipts[q].message_id == m.messages[p].id
                ==> m.receipts[q].agent_id != agent_id,
    ensures
        exists|k: int| 0 <= k < out.len() && out[k].id == m.messages[p].id,
{
    let a = m.agent(agent_id);
    assert(a.id == agent_id);
    if unread_only && m.has_receipt(m.messages[p].id, a.id) {
        let q = choose|q: int|
            0 <= q < m.receipts.len() && m.receipts[q].message_id == m.messages[p].id
                && m.receipts[q].agent_id == a.id;
        assert(m.receipts[q].agent_id != agent_id);
    }
    assert(m.in_inbox(a, m.messages[p], unread_only));
    crate::laws::law_inbox_lists_every_addressed_message(m, agent_id, unread_only, limit, out, p);
    let k = choose|k: int| 0 <= k < out.len() && out[k] == m.inbox_entry(a, p);
    assert(out[k].id == m.messages[p].id);
}

/// An acknowledgement records receipts only for the acknowledging session,
/// only for listed messages, and only for messages of its own workspace
/// that are addressed to it or broadcast.
pub proof fn law_acknowledge_stays_in_workspace(
    m: MeshView,
    agent_id: Seq<char>,
    ids: Seq<i64>,
    now: i64,
    message_id: i64,
    reader: Seq<char>,
)
    requires
        m.wf(),
        m.has_agent(agent_id),
    ensures
        m.acknowledge(agent_id, ids, now) matches Ok((s, _)) ==> (receipt_in(
            s.receipts,
            message_id,
            reader,
        ) && !receipt_in(m.receipts, message_id, reader) ==> reader == agent_id && ids.contains(
            message_id,
        ) && exists|p: int|
            0 <= p < m.messages.len() && m.messages[p].id == message_id
                && m.messages[p].workspace_id == m.agent(agent_id).workspace_id && (
            m.messages[p].recipient_id == Some(agent_id) || m.messages[p].recipient_id is None)),
{
    let a = m.agent(agent_id);
    assert(a.id == agent_id);
    if ids.len() > 0 {
        m.lemma_ack_receipts(a, ids, now, message_id, reader);
    }
}

/// Each event read from the journal carries the name of the session that
/// recorded it, when that session exists, and no name otherwise.
pub proof fn law_events_name_their_session(m: MeshView, agent_id: Seq<char>, after: i64, limit: nat)
    requires
        m.wf(),
        m.events_after(agent_id, after, limit) is Ok,
    ensures
        ({
            let v = m.events_after(agent_id, after, limit)->Ok_0;
            &&& forall|k: int, i: int|
                0 <= k < v.len() && 0 <= i < m.agents.len() && #[trigger] v[k].event.agent_id == Some(
                    #[trigger] m.agents[i].id,
                ) ==> v[k].agent_name == Some(m.agents[i].name)
            &&& forall|k: int|
                0 <= k < v.len() && (forall|i: int|
                    0 <= i < m.agents.len() ==> v[k].event.agent_id != Some(#[trigger] m.agents[i].id))
                    ==> (#[trigger] v[k]).agent_name is None
        }),
{
    let v = m.events_after(agent_id, after, limit)->Ok_0;
    let ps = m.event_positions(m.agent(agent_id).workspace_id, after);
    let t = ps.take(min_nat(limit, ps.len()) as int);
    assert(v == t.map_values(|p: int| m.event_entry(p)));
    assert forall|k: int, i: int|
        0 <= k < v.len() && 0 <= i < m.agents.len() && #[trigger] v[k].event.agent_id == Some(
            #[trigger] m.agents[i].id,
        ) implies v[k].agent_name == Some(m.agents[i].name) by {
        assert(v[k] == m.event_entry(t[k]));
        m.lemma_agent_index(m.agents[i].id, i);
    }
    assert forall|k: int|
        0 <= k < v.len() && (forall|i: int|
            0 <= i < m.agents.len() ==> v[k].event.agent_id != Some(#[trigger] m.agents[i].id))
            implies (#[trigger] v[k]).agent_name is None by {
        assert(v[k] == m.event_entry(t[k]));
        if v[k].event.agent_id is Some {
            let id = v[k].event.agent_id->Some_0;
            if m.has_agent(id) {
                let i = choose|i: int| 0 <= i < m.agents.len() && m.agents[i].id == id;
                assert(v[k].event.agent_id != Some(m.agents[i].id));
            }
        }
    }
}

/// Each recalled memory is a stored memory, given with the name of its
/// author when the author is a known session, and with no name otherwise.
pub proof fn law_recall_names_the_author(
    m: MeshView,
    agent_id: Seq<char>,
    query: Seq<char>,
    limit: nat,
    out: Seq<MemoryEntryView>,
)
    requires
        m.wf(),
        m.has_agent(agent_id),
        m.is_recall(agent_id, query, limit, out),
    ensures
        forall|k: int| 0 <= k < out.len() ==> #[trigger] m.memories.contains(out[k].memory),
        forall|k: int, i: int|
            0 <= k < out.len() && 0 <= i < m.agents.len() && #[trigger] out[k].memory.agent_id
                == Some(#[trigger] m.agents[i].id) ==> out[k].agent_name == Some(m.agents[i].name),
        forall|k: int|
            0 <= k < out.len() && (forall|i: int|
                0 <= i < m.agents.len() ==> out[k].memory.agent_id != Some(#[trigger] m.agents[i].id))
                ==> (#[trigger] out[k]).agent_name is None,
{
    let ws = m.agent(agent_id).workspace_id;
    let terms = query_terms(query);
    let candidates = m.recall_candidates(ws, terms);
    let keys = m.recall_keys(terms, candidates);
    let r = choose|r: Seq<int>|
        #[trigger] is_top_ranked(keys, limit, r) && out.len() == r.len() && forall|k: int|
            0 <= k < r.len() ==> #[trigger] out[k] == m.memory_entry(candidates[r[k]]);
    let all = positions(m.memories.len());
    let sel = if terms.len() == 0 {
        m.in_workspace(ws)
    } else {
        m.matched_in(ws, m.recall_ranks(terms))
    };
    let idx = lemma_filter_embedding(all, sel);
    assert forall|x: int| 0 <= x < candidates.len() implies 0 <= #[trigger] candidates[x]
        < m.memories.len() by {
        all.lemma_filter_pred(sel, x);
        assert(all[idx[x]] == idx[x]);
    }
    assert forall|k: int| 0 <= k < out.len() implies #[trigger] m.memories.contains(out[k].memory) by {
        assert(out[k] == m.memory_entry(candidates[r[k]]));
        assert(0 <= r[k] < candidates.len());
    }
    assert forall|k: int, i: int|
        0 <= k < out.len() && 0 <= i < m.agents.len() && #[trigger] out[k].memory.agent_id == Some(
            #[trigger] m.agents[i].id,
        ) implies out[k].agent_name == Some(m.agents[i].name) by {
        assert(out[k] == m.memory_entry(candidates[r[k]]));
        m.lemma_agent_index(m.agents[i].id, i);
    }
    assert forall|k: int|
        0 <= k < out.len() && (forall|i: int|
            0 <= i < m.agents.len() ==> out[k].memory.agent_id != Some(#[trigger] m.agents[i].id))
            implies (#[trigger] out[k]).agent_name is None by {
        assert(out[k] == m.memory_entry(candidates[r[k]]));
        if out[k].memory.agent_id is Some {
            let id = out[k].memory.agent_id->Some_0;
            if m.has_agent(id) {
                let i = choose|i: int| 0 <= i < m.agents.len() && m.agents[i].id == id;
                assert(out[k].memory.agent_id != Some(m.agents[i].id));
            }
        }
    }
}

/// An inbox lists its messages oldest first (by id among messages of the
/// same time), each with the name of its sender and the time the reader
/// acknowledged it, if it did.
pub proof fn law_inbox_order_and_fields(
    m: MeshView,
    agent_id: Seq<char>,
    unread_only: bool,
    limit: nat,
    out: Seq<InboxEntryView>,
)
    requires
        m.wf(),
        m.has_agent(agent_id),
        m.is_inbox(agent_id, unread_only, limit, out),
    ensures
        forall|i: int, j: int|
            0 <= i < j < out.len() ==> (#[trigger] out[i]).created_at < (#[trigger] out[j]).created_at
                || (out[i].created_at == out[j].created_at && out[i].id <= out[j].id),
        forall|k: int, i: int|
            0 <= k < out.len() && 0 <= i < m.agents.len() && #[trigger] out[k].sender_id
                == #[trigger] m.agents[i].id ==> out[k].sender_name == m.agents[i].name,
        forall|k: int, q: int|
            0 <= k < out.len() && 0 <= q < m.receipts.len() && #[trigger] m.receipts[q].message_id
                == #[trigger] out[k].id && m.receipts[q].agent_id == agent_id
                ==> out[k].acknowledged_at == Some(m.receipts[q].acknowledged_at),
        forall|k: int|
            0 <= k < out.len() && (forall|q: int|
                0 <= q < m.receipts.len() && #[trigger] m.receipts[q].message_id == out[k].id
                    ==> m.receipts[q].agent_id != agent_id) ==> (#[trigger] out[k]).acknowledged_at
                is None,
{
    let a = m.agent(agent_id);
    assert(a.id == agent_id);
    let candidates = m.inbox_candidates(a, unread_only);
    let keys = m.inbox_keys(candidates);
    let r = choose|r: Seq<int>|
        #[trigger] is_top_ranked(keys, limit, r) && out.len() == r.len() && forall|k: int|
            0 <= k < r.len() ==> #[trigger] out[k] == m.inbox_entry(a, candidates[r[k]]);
    assert forall|i: int, j: int| 0 <= i < j < out.len() implies (#[trigger] out[i]).created_at
        < (#[trigger] out[j]).created_at || (out[i].created_at == out[j].created_at && out[i].id
        <= out[j].id) by {
        assert(ranks_before(keys, r[i], r[j]));
        assert(out[i] == m.inbox_entry(a, candidates[r[i]]));
        assert(out[j] == m.inbox_entry(a, candidates[r[j]]));
        assert(keys[r[i]] == m.inbox_key(candidates[r[i]]));
        assert(keys[r[j]] == m.inbox_key(candidates[r[j]]));
    }
    assert forall|k: int, i: int|
        0 <= k < out.len() && 0 <= i < m.agents.len() && #[trigger] out[k].sender_id
            == #[trigger] m.agents[i].id implies out[k].sender_name == m.agents[i].name by {
        assert(out[k] == m.inbox_entry(a, candidates[r[k]]));
        m.lemma_agent_index(m.agents[i].id, i);
    }
    assert forall|k: int, q: int|
        0 <= k < out.len() && 0 <= q < m.receipts.len() && #[trigger] m.receipts[q].message_id
            == #[trigger] out[k].id && m.receipts[q].agent_id == agent_id implies out[k].acknowledged_at
        == Some(m.receipts[q].acknowledged_at) by {
        assert(out[k] == m.inbox_entry(a, candidates[r[k]]));
        m.lemma_receipt_index(out[k].id, agent_id, q);
    }
    assert forall|k: int|
        0 <= k < out.len() && (forall|q: int|
            0 <= q < m.receipts.len() && #[trigger] m.receipts[q].message_id == out[k].id
                ==> m.receipts[q].agent_id != agent_id) implies (#[trigger] out[k]).acknowledged_at
        is None by {
        assert(out[k] == m.inbox_entry(a, candidates[r[k]]));
        if m.has_receipt(out[k].id, agent_id) {
            let q = choose|q: int|
                0 <= q < m.receipts.len() && m.receipts[q].message_id == out[k].id
                    && m.receipts[q].agent_id == agent_id;
            assert(m.receipts[q].agent_id != agent_id);
        }
    }
}

/// A status lists running sessions before the others and, among sessions
/// of the same kind, the most recent heartbeat first; it gives each
/// session the time since its heartbeat (saturating at the bounds of
/// `i64`) and each claim the name of its holder.
pub proof fn law_status_orders_sessions(
    m: MeshView,
    agent_id: Option<Seq<char>>,
    root: Seq<char>,
    now: i64,
    out: WorkspaceStatusView,
)
    requires
        m.wf(),
        m.status_workspace(agent_id, root) is Ok,
        m.status_workspace(agent_id, root)->Ok_0 is Some,
        m.is_status(agent_id, root, now, out),
    ensures
        forall|i: int, j: int|
            0 <= i < j < out.agents.len() ==> {
                let a = (#[trigger] out.agents[i]).agent;
                let b = (#[trigger] out.agents[j]).agent;
                &&& a.status == AgentStatus::Running || b.status != AgentStatus::Running
                &&& (a.status == AgentStatus::Running) == (b.status == AgentStatus::Running)
                    ==> a.heartbeat_at >= b.heartbeat_at
            },
        forall|k: int|
            0 <= k < out.agents.len() ==> {
                let d = now - (#[trigger] out.agents[k]).agent.heartbeat_at;
                &&& i64::MIN <= d <= i64::MAX ==> out.agents[k].heartbeat_age_ms == d
                &&& d > i64::MAX ==> out.agents[k].heartbeat_age_ms == i64::MAX
                &&& d < i64::MIN ==> out.agents[k].heartbeat_age_ms == i64::MIN
            },
        forall|k: int, i: int|
            0 <= k < out.claims.len() && 0 <= i < m.agents.len() && #[trigger] out.claims[k].claim.agent_id
                == #[trigger] m.agents[i].id ==> out.claims[k].agent_name == m.agents[i].name,
{
    let w = m.status_workspace(agent_id, root)->Ok_0->Some_0;
    let ws = m.workspaces[w].id;
    let sessions = positions(m.agents.len()).filter(m.agent_in(ws));
    let held = positions(m.claims.len()).filter(m.claim_in(ws));
    let keys = m.session_keys(sessions);
    let r1 = choose|r: Seq<int>|
        #[trigger] is_top_ranked(keys, sessions.len(), r) && out.agents.len() == r.len()
            && forall|k: int| 0 <= k < r.len() ==> #[trigger] out.agents[k] == m.snapshot(sessions[r[k]], now);
    let r2 = choose|r: Seq<int>|
        #[trigger] crate::ranking::is_top_text(m.task_keys(held), held.len(), r) && out.claims.len()
            == r.len() && forall|k: int| 0 <= k < r.len() ==> #[trigger] out.claims[k] == m.claim_entry(held[r[k]]);
    assert forall|i: int, j: int| 0 <= i < j < out.agents.len() implies {
        let a = (#[trigger] out.agents[i]).agent;
        let b = (#[trigger] out.agents[j]).agent;
        &&& a.status == AgentStatus::Running || b.status != AgentStatus::Running
        &&& (a.status == AgentStatus::Running) == (b.status == AgentStatus::Running) ==> a.heartbeat_at
            >= b.heartbeat_at
    } by {
        assert(ranks_before(keys, r1[i], r1[j]));
        assert(out.agents[i] == m.snapshot(sessions[r1[i]], now));
        assert(out.agents[j] == m.snapshot(sessions[r1[j]], now));
        assert(keys[r1[i]] == m.session_key(sessions[r1[i]]));
        assert(keys[r1[j]] == m.session_key(sessions[r1[j]]));
    }
    assert forall|k: int| 0 <= k < out.agents.len() implies {
        let d = now - (#[trigger] out.agents[k]).agent.heartbeat_at;
        &&& i64::MIN <= d <= i64::MAX ==> out.agents[k].heartbeat_age_ms == d
        &&& d > i64::MAX ==> out.agents[k].heartbeat_age_ms == i64::MAX
        &&& d < i64::MIN ==> out.agents[k].heartbeat_age_ms == i64::MIN
    } by {
        assert(out.agents[k] == m.snapshot(sessions[r1[k]], now));
    }
    assert forall|k: int, i: int|
        0 <= k < out.claims.len() && 0 <= i < m.agents.len() && #[trigger] out.claims[k].claim.agent_id
            == #[trigger] m.agents[i].id implies out.claims[k].agent_name == m.agents[i].name by {
        assert(out.claims[k] == m.claim_entry(held[r2[k]]));
        m.lemma_agent_index(m.agents[i].id, i);
    }
}

/// A recall returns at most `limit` memories, and fewer only when it
/// returns every memory it could: every memory of the reader's workspace
/// (that the index matched, when the query has terms).
pub proof fn law_recall_respects_limit(
    m: MeshView,
    agent_id: Seq<char>,
    query: Seq<char>,
    limit: nat,
    out: Seq<MemoryEntryView>,
    p: int,
)
    requires
        m.wf(),
        m.has_agent(agent_id),
        m.is_recall(agent_id, query, limit, out),
    ensures
        out.len() <= limit,
        0 <= p < m.memories.len() && m.memories[p].workspace_id == m.agent(agent_id).workspace_id
            && (query_terms(query).len() > 0 ==> m.recall_ranks(query_terms(query)).contains_key(
            m.memories[p].id,
        )) && out.len() < limit ==> exists|k: int| 0 <= k < out.len() && out[k].memory.id == m.memories[p].id,
{
    let ws = m.agent(agent_id).workspace_id;
    let terms = query_terms(query);
    let n = terms.len();
    let ranks = m.recall_ranks(terms);
    let candidates = m.recall_candidates(ws, terms);
    let keys = m.recall_keys(terms, candidates);
    let r = choose|r: Seq<int>|
        #[trigger] is_top_ranked(keys, limit, r) && out.len() == r.len() && forall|k: int|
            0 <= k < r.len() ==> #[trigger] out[k] == m.memory_entry(candidates[r[k]]);
    let all = positions(m.memories.len());
    let sel = if n == 0 {
        m.in_workspace(ws)
    } else {
        m.matched_in(ws, ranks)
    };
    if 0 <= p < m.memories.len() && m.memories[p].workspace_id == ws && (n > 0 ==> ranks.contains_key(
        m.memories[p].id,
    )) && out.len() < limit {
        all.lemma_filter_contains(sel, p);
        assert(all[p] == p);
        let x = choose|x: int| 0 <= x < candidates.len() && candidates[x] == p;
        assert(is_top_ranked(keys, keys.len(), r));
        lemma_top_ranked_covers(keys, r, x);
        let k = choose|k: int| 0 <= k < r.len() && r[k] == x;
        assert(out[k] == m.memory_entry(candidates[r[k]]));
    }
}

/// Events are read earliest first: at most `limit` of them, and an event
/// of the reader's workspace after the checkpoint that is not returned
/// comes only when the limit is reached, after every returned event.
pub proof fn law_events_are_the_earliest_after_checkpoint(
    m: MeshView,
    agent_id: Seq<char>,
    after: i64,
    limit: nat,
    p: int,
)
    requires
        m.wf(),
        m.has_agent(agent_id),
    ensures
        m.events_after(agent_id, after, limit) matches Ok(v) && v.len() <= limit && (0 <= p
            < m.events.len() && m.events[p].workspace_id == m.agent(agent_id).workspace_id
            && m.events[p].sequence > after && (forall|k: int|
            0 <= k < v.len() ==> (#[trigger] v[k]).event != m.events[p]) ==> v.len() == limit
            && forall|k: int| 0 <= k < v.len() ==> (#[trigger] v[k]).event.sequence < m.events[p].sequence),
{
    let ws = m.agent(agent_id).workspace_id;
    let sel = m.event_selects(ws, after);
    let all = positions(m.events.len());
    let ps = m.event_positions(ws, after);
    let idx = lemma_filter_embedding(all, sel);
    assert forall|k: int| 0 <= k < ps.len() implies 0 <= #[trigger] ps[k] < m.events.len()
        && ps[k] == idx[k] by {
        all.lemma_filter_pred(sel, k);
        assert(all[idx[k]] == idx[k]);
    }
    let v = m.events_after(agent_id, after, limit)->Ok_0;
    let t = ps.take(min_nat(limit, ps.len()) as int);
    assert(v == t.map_values(|q: int| m.event_entry(q)));
    if 0 <= p < m.events.len() && m.events[p].workspace_id == ws && m.events[p].sequence > after
        && (forall|k: int| 0 <= k < v.len() ==> (#[trigger] v[k]).event != m.events[p]) {
        all.lemma_filter_contains(sel, p);
        assert(all[p] == p);
        let x = choose|x: int| 0 <= x < ps.len() && ps[x] == p;
        if x < v.len() {
            assert(v[x] == m.event_entry(t[x]));
            assert(v[x].event == m.events[p]);
        }
        assert forall|k: int| 0 <= k < v.len() implies (#[trigger] v[k]).event.sequence
            < m.events[p].sequence by {
            assert(v[k] == m.event_entry(t[k]));
            assert(idx[k] < idx[x]);
        }
    }
}

/// A heartbeat finds the session exactly when one has that id; it then
/// marks that session running again with its heartbeat at `now` and no
/// stop time, and changes nothing else.
pub proof fn law_heartbeat_revives_only_its_session(m: MeshView, agent_id: Seq<char>, now: i64)
    requires
        m.wf(),
    ensures
        ({
            let (s, found) = m.heartbeat(agent_id, now);
            &&& found == exists|i: int| 0 <= i < m.agents.len() && m.agents[i].id == agent_id
            &&& s.agents.len() == m.agents.len()
            &&& forall|i: int|
                0 <= i < m.agents.len() ==> #[trigger] s.agents[i] == if m.agents[i].id == agent_id {
                    AgentView {
                        heartbeat_at: now,
                        status: AgentStatus::Running,
                        stopped_at: None,
                        ..m.agents[i]
                    }
                } else {
                    m.agents[i]
                }
            &&& s == MeshView { agents: s.agents, ..m }
        }),
{
    if m.has_agent(agent_id) {
        let i = m.agent_index(agent_id);
        m.lemma_agent_index(agent_id, i);
        assert forall|j: int| 0 <= j < m.agents.len() && j != i implies m.agents[j].id != agent_id by {
            if j < i {
                assert(m.agents[j].id != m.agents[i].id);
            } else {
                assert(m.agents[i].id != m.agents[j].id);
            }
        }
    }
}

/// Recording a new process id finds the session exactly when one has that
/// id; it then sets that session's pid and heartbeat and changes nothing
/// else.
pub proof fn law_pid_update_touches_only_its_session(
    m: MeshView,
    agent_id: Seq<char>,
    pid: u32,
    now: i64,
)
    requires
        m.wf(),
    ensures
        ({
            let (s, found) = m.update_agent_pid(agent_id, pid, now);
            &&& found == exists|i: int| 0 <= i < m.agents.len() && m.agents[i].id == agent_id
            &&& s.agents.len() == m.agents.len()
            &&& forall|i: int|
                0 <= i < m.agents.len() ==> #[trigger] s.agents[i] == if m.agents[i].id == agent_id {
                    AgentView { pid, heartbeat_at: now, ..m.agents[i] }
                } else {
                    m.agents[i]
                }
            &&& s == MeshView { agents: s.agents, ..m }
        }),
{
    if m.has_agent(agent_id) {
        let i = m.agent_index(agent_id);
        m.lemma_agent_index(agent_id, i);
        assert forall|j: int| 0 <= j < m.agents.len() && j != i implies m.agents[j].id != agent_id by {
            if j < i {
                assert(m.agents[j].id != m.agents[i].id);
            } else {
                assert(m.agents[i].id != m.agents[j].id);
            }
        }
    }
}

} // verus!
