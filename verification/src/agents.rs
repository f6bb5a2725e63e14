//! Agent sessions: registration, liveness pulses, clean exits, and the
//! collection of stale sessions.
use vstd::prelude::*;

use crate::claims::copy_claim;
use crate::mesh::{claims_view, Mesh, MeshError, MeshView};
use crate::records::{AgentRecord, AgentStatus, AgentView, ClaimView, WorkspaceRecord, WorkspaceView};
use crate::seqs::{lemma_contains_last, lemma_filter_embedding, lemma_filter_member, lemma_filter_take_step};
use crate::text::{borrowed_opt_text, copy_opt_text, own_opt_text, same_text};

verus! {

/// Keeps the claims that `agent_id` does not own.
pub open spec fn not_owned_by(agent_id: Seq<char>) -> spec_fn(ClaimView) -> bool {
    |c: ClaimView| c.agent_id != agent_id
}

/// Keeps the claims whose lease is still running at `now`.
pub open spec fn unexpired_at(now: i64) -> spec_fn(ClaimView) -> bool {
    |c: ClaimView| c.lease_expires_at > now
}

/// Whether a session counts as stale: still marked running, with its last
/// heartbeat before `cutoff`.
pub open spec fn is_stale(a: AgentView, cutoff: i64) -> bool {
    a.status == AgentStatus::Running && a.heartbeat_at < cutoff
}

/// The positions of the candidates whose process was not found alive, in order.
pub open spec fn dead_positions(candidates: Seq<int>, alive: Seq<bool>) -> Seq<int>
    decreases candidates.len(),
{
    if candidates.len() == 0 || alive.len() == 0 {
        Seq::empty()
    } else {
        let rest = dead_positions(candidates.drop_last(), alive.drop_last());
        if alive.last() {
            rest
        } else {
            rest.push(candidates.last())
        }
    }
}

/// The positions `0 .. n` in order.
pub open spec fn positions(n: nat) -> Seq<int> {
    Seq::new(n, |i: int| i)
}

/// Selects the positions of stale sessions.
pub open spec fn stale_at(agents: Seq<AgentView>, cutoff: i64) -> spec_fn(int) -> bool {
    |i: int| is_stale(agents[i], cutoff)
}

/// The cut-off time for staleness: `now` minus the window, saturating.
pub open spec fn stale_cutoff(now: i64, stale_after_ms: u128) -> Result<i64, MeshError> {
    if stale_after_ms > i64::MAX {
        Err(MeshError::StaleWindowTooLarge)
    } else if now - stale_after_ms < i64::MIN {
        Ok(i64::MIN)
    } else {
        Ok((now - stale_after_ms) as i64)
    }
}

/// Counts of a garbage collection: sessions declared dead and expired
/// claims removed.
#[derive(Debug, Clone, Copy)]
pub struct CollectReport {
    pub dead_agents: usize,
    pub expired_claims: usize,
}

impl MeshView {
    pub open spec fn has_workspace_key(self, workspace_id: Seq<char>, root: Seq<char>) -> bool {
        exists|i: int|
            0 <= i < self.workspaces.len() && (self.workspaces[i].id == workspace_id
                || self.workspaces[i].root == root)
    }

    /// Registration of a new session `agent_id`, working in `checkout` on
    /// `branch`, in the workspace rooted at `root` whose id is
    /// `workspace_id`; the workspace row is added when
    /// neither its id nor its root is known yet.
    pub open spec fn register(
        self,
        agent_id: Seq<char>,
        workspace_id: Seq<char>,
        root: Seq<char>,
        checkout: Seq<char>,
        branch: Option<Seq<char>>,
        name: Seq<char>,
        pid: u32,
        parent_pid: Option<i64>,
        provider: Seq<char>,
        capabilities_json: Seq<char>,
        now: i64,
    ) -> Result<MeshView, MeshError> {
        let with_ws = if self.has_workspace_key(workspace_id, root) {
            self
        } else {
            MeshView {
                workspaces: self.workspaces.push(
                    WorkspaceView { id: workspace_id, root, created_at: now },
                ),
                ..self
            }
        };
        if self.has_agent(agent_id) {
            Err(MeshError::AgentAlreadyRegistered)
        } else if !with_ws.has_workspace(workspace_id) {
            Err(MeshError::WorkspaceConflict)
        } else if self.last_sequence == i64::MAX {
            Err(MeshError::JournalFull)
        } else {
            Ok(
                MeshView {
                    agents: with_ws.agents.push(
                        AgentView {
                            id: agent_id,
                            workspace_id,
                            checkout,
                            branch,
                            name,
                            pid,
                            parent_pid,
                            provider,
                            capabilities_json,
                            started_at: now,
                            heartbeat_at: now,
                            stopped_at: None,
                            status: AgentStatus::Running,
                        },
                    ),
                    ..with_ws
                }.journal(workspace_id, Some(agent_id), "agent.joined"@, Some(agent_id), "{}"@, now),
            )
        }
    }

    /// A liveness pulse: the session is marked running again.
    pub open spec fn heartbeat(self, agent_id: Seq<char>, now: i64) -> (MeshView, bool) {
        if self.has_agent(agent_id) {
            let i = self.agent_index(agent_id);
            (
                MeshView {
                    agents: self.agents.update(
                        i,
                        AgentView {
                            heartbeat_at: now,
                            status: AgentStatus::Running,
                            stopped_at: None,
                            ..self.agents[i]
                        },
                    ),
                    ..self
                },
                true,
            )
        } else {
            (self, false)
        }
    }

    /// Records the process id now behind a session.
    pub open spec fn update_agent_pid(self, agent_id: Seq<char>, pid: u32, now: i64) -> (
        MeshView,
        bool,
    ) {
        if self.has_agent(agent_id) {
            let i = self.agent_index(agent_id);
            (
                MeshView {
                    agents: self.agents.update(
                        i,
                        AgentView { pid, heartbeat_at: now, ..self.agents[i] },
                    ),
                    ..self
                },
                true,
            )
        } else {
            (self, false)
        }
    }

    /// Ends the session at position `i` with `status`: its claims are
    /// released and an event of `event_type` is journaled.
    pub open spec fn end_session(
        self,
        i: int,
        status: AgentStatus,
        event_type: Seq<char>,
        now: i64,
    ) -> MeshView {
        let a = self.agents[i];
        MeshView {
            agents: self.agents.update(i, AgentView { status, stopped_at: Some(now), ..a }),
            claims: self.claims.filter(not_owned_by(a.id)),
            ..self
        }.journal(a.workspace_id, Some(a.id), event_type, Some(a.id), "{}"@, now)
    }

    /// A clean exit: the session is stopped and its claims are released.
    pub open spec fn stop_agent(self, agent_id: Seq<char>, now: i64) -> Result<
        (MeshView, bool),
        MeshError,
    > {
        if !self.has_agent(agent_id) {
            Ok((self, false))
        } else if self.last_sequence == i64::MAX {
            Err(MeshError::JournalFull)
        } else {
            Ok(
                (
                    self.end_session(
                        self.agent_index(agent_id),
                        AgentStatus::Stopped,
                        "agent.stopped"@,
                        now,
                    ),
                    true,
                ),
            )
        }
    }

    /// Positions of the stale sessions, in table order.
    pub open spec fn stale_positions(self, cutoff: i64) -> Seq<int> {
        positions(self.agents.len()).filter(stale_at(self.agents, cutoff))
    }

    /// Declares the sessions at `dead` dead, one after the other.
    pub open spec fn reap_all(self, dead: Seq<int>, now: i64) -> MeshView
        decreases dead.len(),
    {
        if dead.len() == 0 {
            self
        } else {
            self.reap_all(dead.drop_last(), now).end_session(
                dead.last(),
                AgentStatus::Dead,
                "agent.dead"@,
                now,
            )
        }
    }

    /// Garbage collection at `now`: every stale session whose process was
    /// not found alive (`alive` answers for the stale sessions in order) is
    /// declared dead and loses its claims; then every claim whose lease has
    /// ended is removed.  The counts of both are returned.
    pub open spec fn collect_stale(self, cutoff: i64, now: i64, alive: Seq<bool>) -> Result<
        (MeshView, (nat, nat)),
        MeshError,
    > {
        let dead = dead_positions(self.stale_positions(cutoff), alive);
        if self.last_sequence + dead.len() > i64::MAX {
            Err(MeshError::JournalFull)
        } else {
            let reaped = self.reap_all(dead, now);
            let kept = reaped.claims.filter(unexpired_at(now));
            Ok(
                (
                    MeshView { claims: kept, ..reaped },
                    (dead.len(), (reaped.claims.len() - kept.len()) as nat),
                ),
            )
        }
    }

    /// Replacing a session row by one with the same id and workspace keeps
    /// the invariant.
    pub proof fn lemma_agent_update_wf(self, i: int, a: AgentView)
        requires
            self.wf(),
            0 <= i < self.agents.len(),
            a.id == self.agents[i].id,
            a.workspace_id == self.agents[i].workspace_id,
        ensures
            (MeshView { agents: self.agents.update(i, a), ..self }).wf(),
            forall|id: Seq<char>|
                (MeshView { agents: self.agents.update(i, a), ..self }).has_agent(id)
                    == self.has_agent(id),
    {
        let s = MeshView { agents: self.agents.update(i, a), ..self };
        assert forall|id: Seq<char>| s.has_agent(id) == self.has_agent(id) by {
            if s.has_agent(id) {
                let k = choose|k: int| 0 <= k < s.agents.len() && s.agents[k].id == id;
                assert(self.agents[k].id == id);
            }
            if self.has_agent(id) {
                let k = choose|k: int| 0 <= k < self.agents.len() && self.agents[k].id == id;
                assert(s.agents[k].id == id);
            }
        }
        assert forall|k: int| 0 <= k < s.agents.len() implies s.has_workspace(
            #[trigger] s.agents[k].workspace_id,
        ) by {
            assert(self.has_workspace(self.agents[k].workspace_id));
            let w = choose|w: int|
                0 <= w < self.workspaces.len() && self.workspaces[w].id
                    == self.agents[k].workspace_id;
            assert(s.workspaces[w].id == s.agents[k].workspace_id);
        }
        assert forall|k: int| 0 <= k < s.claims.len() implies s.has_agent(
            #[trigger] s.claims[k].agent_id,
        ) by {
            assert(self.has_agent(self.claims[k].agent_id));
        }
        assert forall|k: int| 0 <= k < s.messages.len() implies s.has_agent(
            #[trigger] s.messages[k].sender_id,
        ) by {
            assert(self.has_agent(self.messages[k].sender_id));
        }
    }

    /// Dropping claims keeps the invariant.
    pub proof fn lemma_claims_filter_wf(self, pred: spec_fn(ClaimView) -> bool)
        requires
            self.wf(),
        ensures
            (MeshView { claims: self.claims.filter(pred), ..self }).wf(),
    {
        let s = MeshView { claims: self.claims.filter(pred), ..self };
        let idx = lemma_filter_embedding(self.claims, pred);
        assert forall|k: int| 0 <= k < s.claims.len() implies s.has_agent(
            #[trigger] s.claims[k].agent_id,
        ) by {
            assert(s.claims[k] == self.claims[idx[k]]);
            assert(self.has_agent(self.claims[idx[k]].agent_id));
            let w = choose|w: int|
                0 <= w < self.agents.len() && self.agents[w].id == self.claims[idx[k]].agent_id;
            assert(s.agents[w].id == s.claims[k].agent_id);
        }
        assert forall|k1: int, k2: int|
            0 <= k1 < k2 < s.claims.len() implies !(#[trigger] s.claims[k1].workspace_id
            == #[trigger] s.claims[k2].workspace_id && s.claims[k1].task_key
            == s.claims[k2].task_key) by {
            assert(idx[k1] < idx[k2]);
            assert(s.claims[k1] == self.claims[idx[k1]]);
            assert(s.claims[k2] == self.claims[idx[k2]]);
        }
        assert forall|k: int| 0 <= k < s.agents.len() implies s.has_workspace(
            #[trigger] s.agents[k].workspace_id,
        ) by {
            assert(self.has_workspace(self.agents[k].workspace_id));
            let w = choose|w: int|
                0 <= w < self.workspaces.len() && self.workspaces[w].id
                    == self.agents[k].workspace_id;
            assert(s.workspaces[w].id == s.agents[k].workspace_id);
        }
        assert forall|k: int| 0 <= k < s.messages.len() implies s.has_agent(
            #[trigger] s.messages[k].sender_id,
        ) by {
            assert(self.has_agent(self.messages[k].sender_id));
            let w = choose|w: int|
                0 <= w < self.agents.len() && self.agents[w].id == self.messages[k].sender_id;
            assert(s.agents[w].id == s.messages[k].sender_id);
        }
    }

    /// Ending a session keeps the invariant.
    pub proof fn lemma_end_session_wf(
        self,
        i: int,
        status: AgentStatus,
        event_type: Seq<char>,
        now: i64,
    )
        requires
            self.wf(),
            0 <= i < self.agents.len(),
            self.last_sequence < i64::MAX,
        ensures
            self.end_session(i, status, event_type, now).wf(),
            self.end_session(i, status, event_type, now).agents.len() == self.agents.len(),
            self.end_session(i, status, event_type, now).last_sequence == self.last_sequence + 1,
    {
        let a = self.agents[i];
        let b = AgentView { status, stopped_at: Some(now), ..a };
        self.lemma_agent_update_wf(i, b);
        let s1 = MeshView { agents: self.agents.update(i, b), ..self };
        s1.lemma_claims_filter_wf(not_owned_by(a.id));
        let s2 = MeshView { claims: s1.claims.filter(not_owned_by(a.id)), ..s1 };
        assert(s2 == MeshView {
            agents: self.agents.update(i, b),
            claims: self.claims.filter(not_owned_by(a.id)),
            ..self
        });
        s2.lemma_journal_wf(a.workspace_id, Some(a.id), event_type, Some(a.id), "{}"@, now);
    }

    pub proof fn lemma_reap_all(self, dead: Seq<int>, now: i64)
        requires
            self.wf(),
            forall|k: int| 0 <= k < dead.len() ==> 0 <= #[trigger] dead[k] < self.agents.len(),
            self.last_sequence + dead.len() <= i64::MAX,
        ensures
            self.reap_all(dead, now).wf(),
            self.reap_all(dead, now).agents.len() == self.agents.len(),
            self.reap_all(dead, now).last_sequence == self.last_sequence + dead.len(),
        decreases dead.len(),
    {
        if dead.len() > 0 {
            self.lemma_reap_all(dead.drop_last(), now);
            let r = self.reap_all(dead.drop_last(), now);
            r.lemma_end_session_wf(dead.last(), AgentStatus::Dead, "agent.dead"@, now);
        }
    }
}

/// The positions declared dead are exactly the candidates whose process was
/// not found alive.
pub proof fn lemma_dead_positions(candidates: Seq<int>, alive: Seq<bool>)
    requires
        candidates.len() == alive.len(),
    ensures
        forall|j: int|
            #[trigger] dead_positions(candidates, alive).contains(j) ==> exists|k: int|
                0 <= k < candidates.len() && candidates[k] == j && !alive[k],
        forall|k: int|
            0 <= k < candidates.len() && !alive[k] ==> dead_positions(candidates, alive).contains(
                #[trigger] candidates[k],
            ),
    decreases candidates.len(),
{
    if candidates.len() > 0 {
        let c0 = candidates.drop_last();
        let a0 = alive.drop_last();
        lemma_dead_positions(c0, a0);
        let rest = dead_positions(c0, a0);
        let last = candidates.len() - 1;
        assert forall|j: int| #[trigger] dead_positions(candidates, alive).contains(j) implies exists|k: int|
            0 <= k < candidates.len() && candidates[k] == j && !alive[k] by {
            if !alive.last() {
                lemma_contains_last(rest.push(candidates.last()), j);
                assert(rest.push(candidates.last()).drop_last() =~= rest);
            }
            if rest.contains(j) {
                let k = choose|k: int| 0 <= k < c0.len() && c0[k] == j && !a0[k];
                assert(candidates[k] == j && !alive[k]);
            } else {
                assert(candidates[last] == j && !alive[last]);
            }
        }
        assert forall|k: int| 0 <= k < candidates.len() && !alive[k] implies dead_positions(
            candidates,
            alive,
        ).contains(#[trigger] candidates[k]) by {
            if k < last {
                assert(c0[k] == candidates[k] && !a0[k]);
                assert(rest.contains(c0[k]));
                if !alive.last() {
                    lemma_contains_last(rest.push(candidates.last()), candidates[k]);
                    assert(rest.push(candidates.last()).drop_last() =~= rest);
                }
            } else {
                lemma_contains_last(rest.push(candidates.last()), candidates[k]);
            }
        }
    }
}

impl MeshView {
    /// What declaring the sessions at `dead` dead does: those sessions are
    /// marked dead and lose their claims; every other session and claim is
    /// left as it was.
    pub proof fn lemma_reap_all_effects(self, dead: Seq<int>, now: i64)
        requires
            self.wf(),
            forall|k: int| 0 <= k < dead.len() ==> 0 <= #[trigger] dead[k] < self.agents.len(),
            self.last_sequence + dead.len() <= i64::MAX,
        ensures
            ({
                let r = self.reap_all(dead, now);
                &&& r.agents.len() == self.agents.len()
                &&& forall|i: int|
                    0 <= i < self.agents.len() ==> (#[trigger] r.agents[i]).id == self.agents[i].id
                &&& forall|i: int|
                    0 <= i < self.agents.len() && !dead.contains(i) ==> #[trigger] r.agents[i]
                        == self.agents[i]
                &&& forall|i: int|
                    #[trigger] dead.contains(i) ==> r.agents[i].status == AgentStatus::Dead
                        && r.agents[i].stopped_at == Some(now)
                &&& forall|k: int, i: int|
                    0 <= k < r.claims.len() && dead.contains(i) ==> #[trigger] r.claims[k].agent_id
                        != #[trigger] self.agents[i].id
                &&& forall|k: int|
                    0 <= k < self.claims.len() && (forall|i: int|
                        dead.contains(i) ==> self.claims[k].agent_id != #[trigger] self.agents[i].id)
                        ==> r.claims.contains(#[trigger] self.claims[k])
            }),
        decreases dead.len(),
    {
        if dead.len() > 0 {
            let d0 = dead.drop_last();
            let d = dead.last();
            self.lemma_reap_all_effects(d0, now);
            self.lemma_reap_all(d0, now);
            let r0 = self.reap_all(d0, now);
            let r = self.reap_all(dead, now);
            let pred = not_owned_by(r0.agents[d].id);
            assert(0 <= d < self.agents.len()) by {
                assert(dead[dead.len() - 1] == d);
            }
            assert forall|i: int| #![trigger dead.contains(i)] #![trigger d0.contains(i)]
                true implies dead.contains(i) == (d0.contains(i) || d == i) by {
                lemma_contains_last(dead, i);
            }
            assert forall|i: int|
                0 <= i < self.agents.len() implies (#[trigger] r.agents[i]).id == self.agents[i].id by {
                assert(r0.agents[i].id == self.agents[i].id);
            }
            assert forall|i: int|
                0 <= i < self.agents.len() && !dead.contains(i) implies #[trigger] r.agents[i]
                == self.agents[i] by {
                assert(!d0.contains(i));
            }
            assert forall|i: int| #[trigger] dead.contains(i) implies r.agents[i].status
                == AgentStatus::Dead && r.agents[i].stopped_at == Some(now) by {
                if i != d {
                    assert(d0.contains(i));
                }
            }
            assert forall|k: int, i: int|
                0 <= k < r.claims.len() && dead.contains(i) implies #[trigger] r.claims[k].agent_id
                != #[trigger] self.agents[i].id by {
                let j = lemma_filter_member(r0.claims, pred, k);
                if i != d {
                    assert(d0.contains(i));
                    assert(r0.claims[j].agent_id != self.agents[i].id);
                }
            }
            assert forall|k: int|
                0 <= k < self.claims.len() && (forall|i: int|
                    dead.contains(i) ==> self.claims[k].agent_id != #[trigger] self.agents[i].id)
                implies r.claims.contains(#[trigger] self.claims[k]) by {
                assert forall|i: int| d0.contains(i) implies self.claims[k].agent_id
                    != #[trigger] self.agents[i].id by {
                    assert(dead.contains(i));
                }
                assert(r0.claims.contains(self.claims[k]));
                let j = choose|j: int| 0 <= j < r0.claims.len() && r0.claims[j] == self.claims[k];
                assert(dead.contains(d));
                r0.claims.lemma_filter_contains(pred, j);
            }
        }
    }
}

impl Mesh {
    /// Removes every claim of `agent_id`.
    pub fn drop_claims_of(&mut self, agent_id: &str)
        ensures
            final(self)@ == (MeshView {
                claims: old(self)@.claims.filter(not_owned_by(agent_id@)),
                ..old(self)@
            }),
    {
        let ghost pred = not_owned_by(agent_id@);
        let mut kept: Vec<crate::records::ClaimRecord> = Vec::new();
        let mut i: usize = 0;
        while i < self.claims.len()
            invariant
                i <= self.claims.len(),
                claims_view(kept@) == claims_view(self.claims@).take(i as int).filter(pred),
                pred == not_owned_by(agent_id@),
            decreases self.claims.len() - i,
        {
            proof {
                lemma_filter_take_step(claims_view(self.claims@), pred, i as int);
            }
            if !same_text(self.claims[i].agent_id.as_str(), agent_id) {
                let ghost before = kept@;
                kept.push(copy_claim(&self.claims[i]));
                assert(claims_view(kept@) =~= claims_view(before).push(self@.claims[i as int]));
            }
            i += 1;
        }
        assert(claims_view(self.claims@).take(self.claims.len() as int) =~= claims_view(self.claims@));
        self.claims = kept;
    }

    /// Removes every claim whose lease has ended at `now`, returning how many.
    pub fn drop_expired_claims(&mut self, now: i64) -> (removed: usize)
        ensures
            final(self)@ == (MeshView {
                claims: old(self)@.claims.filter(unexpired_at(now)),
                ..old(self)@
            }),
            removed == old(self)@.claims.len() - final(self)@.claims.len(),
    {
        let ghost pred = unexpired_at(now);
        let mut kept: Vec<crate::records::ClaimRecord> = Vec::new();
        let mut i: usize = 0;
        while i < self.claims.len()
            invariant
                i <= self.claims.len(),
                claims_view(kept@) == claims_view(self.claims@).take(i as int).filter(pred),
                pred == unexpired_at(now),
            decreases self.claims.len() - i,
        {
            proof {
                lemma_filter_take_step(claims_view(self.claims@), pred, i as int);
                claims_view(self.claims@).take(i as int).lemma_filter_len(pred);
            }
            if self.claims[i].lease_expires_at > now {
                let ghost before = kept@;
                kept.push(copy_claim(&self.claims[i]));
                assert(claims_view(kept@) =~= claims_view(before).push(self@.claims[i as int]));
            }
            i += 1;
        }
        assert(claims_view(self.claims@).take(self.claims.len() as int) =~= claims_view(self.claims@));
        proof {
            claims_view(self.claims@).lemma_filter_len(pred);
        }
        let removed = self.claims.len() - kept.len();
        self.claims = kept;
        removed
    }
}

/// Copies a session row.
pub fn copy_agent(a: &AgentRecord) -> (r: AgentRecord)
    ensures
        r@ == a@,
{
    AgentRecord {
        id: a.id.clone(),
        workspace_id: a.workspace_id.clone(),
        checkout: a.checkout.clone(),
        branch: copy_opt_text(&a.branch),
        name: a.name.clone(),
        pid: a.pid,
        parent_pid: a.parent_pid,
        provider: a.provider.clone(),
        capabilities_json: a.capabilities_json.clone(),
        started_at: a.started_at,
        heartbeat_at: a.heartbeat_at,
        stopped_at: a.stopped_at,
        status: a.status,
    }
}

impl Mesh {
    /// Refreshes the heartbeat of `agent_id` and marks it running; see
    /// [`MeshView::heartbeat`].
    pub fn heartbeat(&mut self, agent_id: &str, now: i64) -> (found: bool)
        requires
            old(self)@.wf(),
        ensures
            final(self)@.wf(),
            (final(self)@, found) == old(self)@.heartbeat(agent_id@, now),
    {
        let i = match self.find_agent(agent_id) {
            Some(i) => i,
            None => return false,
        };
        let ghost before = self@;
        let mut a = copy_agent(&self.agents[i]);
        a.heartbeat_at = now;
        a.status = AgentStatus::Running;
        a.stopped_at = None;
        let ghost av = a@;
        self.agents.set(i, a);
        assert(self@.agents =~= before.agents.update(i as int, av));
        proof {
            before.lemma_agent_update_wf(i as int, av);
        }
        true
    }

    /// Records the process id behind `agent_id`; see
    /// [`MeshView::update_agent_pid`].
    pub fn update_agent_pid(&mut self, agent_id: &str, pid: u32, now: i64) -> (found: bool)
        requires
            old(self)@.wf(),
        ensures
            final(self)@.wf(),
            (final(self)@, found) == old(self)@.update_agent_pid(agent_id@, pid, now),
    {
        let i = match self.find_agent(agent_id) {
            Some(i) => i,
            None => return false,
        };
        let ghost before = self@;
        let mut a = copy_agent(&self.agents[i]);
        a.pid = pid;
        a.heartbeat_at = now;
        let ghost av = a@;
        self.agents.set(i, a);
        assert(self@.agents =~= before.agents.update(i as int, av));
        proof {
            before.lemma_agent_update_wf(i as int, av);
        }
        true
    }

    /// Ends the session at position `i`; see [`MeshView::end_session`].
    fn end_session(&mut self, i: usize, status: AgentStatus, event_type: &str, now: i64)
        requires
            old(self)@.wf(),
            i < old(self)@.agents.len(),
            old(self)@.last_sequence < i64::MAX,
        ensures
            final(self)@ == old(self)@.end_session(i as int, status, event_type@, now),
            final(self)@.wf(),
    {
        let ghost before = self@;
        proof {
            before.lemma_end_session_wf(i as int, status, event_type@, now);
        }
        let mut a = copy_agent(&self.agents[i]);
        a.status = status;
        a.stopped_at = Some(now);
        let id = a.id.clone();
        let ws = a.workspace_id.clone();
        let ghost av = a@;
        self.agents.set(i, a);
        assert(self@.agents =~= before.agents.update(i as int, av));
        self.drop_claims_of(id.as_str());
        self.append_event(
            ws,
            Some(id.clone()),
            String::from_str(event_type),
            Some(id),
            String::from_str("{}"),
            now,
        );
    }

    /// Stops `agent_id` after a clean exit; see [`MeshView::stop_agent`].
    pub fn stop_agent(&mut self, agent_id: &str, now: i64) -> (r: Result<bool, MeshError>)
        requires
            old(self)@.wf(),
        ensures
            final(self)@.wf(),
            old(self)@.stop_agent(agent_id@, now) == match r {
                Ok(b) => Ok((final(self)@, b)),
                Err(e) => Err(e),
            },
            r is Err ==> final(self)@ == old(self)@,
    {
        let i = match self.find_agent(agent_id) {
            Some(i) => i,
            None => return Ok(false),
        };
        if self.last_sequence == i64::MAX {
            return Err(MeshError::JournalFull);
        }
        self.end_session(i, AgentStatus::Stopped, "agent.stopped", now);
        Ok(true)
    }

    /// Registers the session `agent_id`; see [`MeshView::register`].
    pub fn register(
        &mut self,
        agent_id: &str,
        workspace_id: &str,
        root: &str,
        checkout: &str,
        branch: Option<&str>,
        name: &str,
        pid: u32,
        parent_pid: Option<i64>,
        provider: &str,
        capabilities_json: &str,
        now: i64,
    ) -> (r: Result<(), MeshError>)
        requires
            old(self)@.wf(),
        ensures
            final(self)@.wf(),
            old(self)@.register(
                agent_id@,
                workspace_id@,
                root@,
                checkout@,
                borrowed_opt_text(branch),
                name@,
                pid,
                parent_pid,
                provider@,
                capabilities_json@,
                now,
            ) == match r {
                Ok(()) => Ok(final(self)@),
                Err(e) => Err(e),
            },
            r is Err ==> final(self)@ == old(self)@,
    {
        let mut known = false;
        let mut has_id = false;
        let mut w: usize = 0;
        while w < self.workspaces.len()
            invariant
                w <= self.workspaces.len(),
                known == exists|k: int|
                    0 <= k < w && (self@.workspaces[k].id == workspace_id@
                        || self@.workspaces[k].root == root@),
                has_id == exists|k: int| 0 <= k < w && self@.workspaces[k].id == workspace_id@,
            decreases self.workspaces.len() - w,
        {
            let same_id = same_text(self.workspaces[w].id.as_str(), workspace_id);
            let same_root = same_text(self.workspaces[w].root.as_str(), root);
            if same_id || same_root {
                known = true;
            }
            if same_id {
                has_id = true;
            }
            proof {
                let wv = self@.workspaces[w as int];
                assert(wv == self.workspaces@[w as int]@);
                if same_id || same_root {
                    assert(0 <= w < w + 1 && (wv.id == workspace_id@ || wv.root == root@));
                }
                if same_id {
                    assert(0 <= w < w + 1 && wv.id == workspace_id@);
                }
            }
            w += 1;
        }
        assert(known == self@.has_workspace_key(workspace_id@, root@));
        assert(has_id == self@.has_workspace(workspace_id@));
        if self.find_agent(agent_id).is_some() {
            return Err(MeshError::AgentAlreadyRegistered);
        }
        if known && !has_id {
            return Err(MeshError::WorkspaceConflict);
        }
        if self.last_sequence == i64::MAX {
            proof {
                if !known {
                    let pushed = MeshView {
                        workspaces: self@.workspaces.push(
                            WorkspaceView { id: workspace_id@, root: root@, created_at: now },
                        ),
                        ..self@
                    };
                    assert(pushed.workspaces[pushed.workspaces.len() - 1].id == workspace_id@);
                }
            }
            return Err(MeshError::JournalFull);
        }
        let ghost before = self@;
        if !known {
            let record = WorkspaceRecord {
                id: workspace_id.to_owned(),
                root: root.to_owned(),
                created_at: now,
            };
            let ghost wv = record@;
            self.workspaces.push(record);
            assert(self@.workspaces =~= before.workspaces.push(wv));
        }
        let ghost with_ws = self@;
        let agent = AgentRecord {
            id: agent_id.to_owned(),
            workspace_id: workspace_id.to_owned(),
            checkout: checkout.to_owned(),
            branch: own_opt_text(branch),
            name: name.to_owned(),
            pid,
            parent_pid,
            provider: provider.to_owned(),
            capabilities_json: capabilities_json.to_owned(),
            started_at: now,
            heartbeat_at: now,
            stopped_at: None,
            status: AgentStatus::Running,
        };
        let ghost av = agent@;
        self.agents.push(agent);
        assert(self@.agents =~= with_ws.agents.push(av));
        let ghost mid = self@;
        proof {
            assert(with_ws.has_workspace(workspace_id@)) by {
                if !known {
                    assert(with_ws.workspaces[with_ws.workspaces.len() - 1].id == workspace_id@);
                } else {
                    let k = choose|k: int|
                        0 <= k < before.workspaces.len() && before.workspaces[k].id
                            == workspace_id@;
                    assert(with_ws.workspaces[k].id == workspace_id@);
                }
            }
            assert forall|k: int| 0 <= k < mid.agents.len() implies mid.has_workspace(
                #[trigger] mid.agents[k].workspace_id,
            ) by {
                let wid = mid.agents[k].workspace_id;
                if k < before.agents.len() {
                    assert(mid.agents[k] == before.agents[k]);
                    assert(before.has_workspace(wid));
                    let x = choose|x: int|
                        0 <= x < before.workspaces.len() && before.workspaces[x].id == wid;
                    assert(mid.workspaces[x].id == wid);
                } else {
                    let x = choose|x: int|
                        0 <= x < with_ws.workspaces.len() && with_ws.workspaces[x].id == wid;
                    assert(mid.workspaces[x].id == wid);
                }
            }
            assert forall|k: int| 0 <= k < mid.claims.len() implies mid.has_agent(
                #[trigger] mid.claims[k].agent_id,
            ) by {
                assert(before.has_agent(before.claims[k].agent_id));
                let x = choose|x: int|
                    0 <= x < before.agents.len() && before.agents[x].id == before.claims[k].agent_id;
                assert(mid.agents[x].id == mid.claims[k].agent_id);
            }
            assert forall|k: int| 0 <= k < mid.messages.len() implies mid.has_agent(
                #[trigger] mid.messages[k].sender_id,
            ) by {
                assert(before.has_agent(before.messages[k].sender_id));
                let x = choose|x: int|
                    0 <= x < before.agents.len() && before.agents[x].id
                        == before.messages[k].sender_id;
                assert(mid.agents[x].id == mid.messages[k].sender_id);
            }
            assert forall|k1: int, k2: int|
                0 <= k1 < k2 < mid.agents.len() implies #[trigger] mid.agents[k1].id
                != #[trigger] mid.agents[k2].id by {
                if k2 == before.agents.len() {
                    assert(mid.agents[k1] == before.agents[k1]);
                }
            }
            assert forall|k1: int, k2: int|
                0 <= k1 < k2 < mid.workspaces.len() implies #[trigger] mid.workspaces[k1].id
                != #[trigger] mid.workspaces[k2].id && mid.workspaces[k1].root
                != mid.workspaces[k2].root by {
                if k2 == before.workspaces.len() {
                    assert(mid.workspaces[k1] == before.workspaces[k1]);
                }
            }
            assert(mid.wf());
            mid.lemma_journal_wf(workspace_id@, Some(agent_id@), "agent.joined"@, Some(agent_id@), "{}"@, now);
        }
        self.append_event(
            workspace_id.to_owned(),
            Some(agent_id.to_owned()),
            String::from_str("agent.joined"),
            Some(agent_id.to_owned()),
            String::from_str("{}"),
            now,
        );
        Ok(())
    }
}

/// Computes the staleness cut-off; see [`stale_cutoff`].
pub fn compute_stale_cutoff(now: i64, stale_after_ms: u128) -> (r: Result<i64, MeshError>)
    ensures
        r == stale_cutoff(now, stale_after_ms),
{
    if stale_after_ms > i64::MAX as u128 {
        return Err(MeshError::StaleWindowTooLarge);
    }
    let window = stale_after_ms as i64;
    if now < i64::MIN + window {
        Ok(i64::MIN)
    } else {
        Ok(now - window)
    }
}

impl Mesh {
    /// The positions of the stale sessions, in table order.
    pub fn stale_positions(&self, cutoff: i64) -> (r: Vec<usize>)
        ensures
            r@.len() == self@.stale_positions(cutoff).len(),
            forall|k: int| 0 <= k < r@.len() ==> r@[k] as int == #[trigger] self@.stale_positions(cutoff)[k],
    {
        let ghost all = positions(self@.agents.len());
        let ghost pred = stale_at(self@.agents, cutoff);
        let mut r: Vec<usize> = Vec::new();
        let mut i: usize = 0;
        while i < self.agents.len()
            invariant
                i <= self.agents.len(),
                all == positions(self@.agents.len()),
                pred == stale_at(self@.agents, cutoff),
                r@.len() == all.take(i as int).filter(pred).len(),
                forall|k: int| 0 <= k < r@.len() ==> r@[k] as int == #[trigger] all.take(i as int).filter(pred)[k],
            decreases self.agents.len() - i,
        {
            proof {
                lemma_filter_take_step(all, pred, i as int);
            }
            let a = &self.agents[i];
            if a.status == AgentStatus::Running && a.heartbeat_at < cutoff {
                r.push(i);
            }
            i += 1;
        }
        assert(all.take(self.agents.len() as int) =~= all);
        r
    }

    /// Garbage collection at `now` given the liveness of the stale sessions;
    /// see [`MeshView::collect_stale`].
    pub fn collect_stale(&mut self, cutoff: i64, now: i64, alive: &Vec<bool>) -> (r: Result<
        CollectReport,
        MeshError,
    >)
        requires
            old(self)@.wf(),
            alive@.len() == old(self)@.stale_positions(cutoff).len(),
        ensures
            final(self)@.wf(),
            old(self)@.collect_stale(cutoff, now, alive@) == match r {
                Ok(rep) => Ok((final(self)@, (rep.dead_agents as nat, rep.expired_claims as nat))),
                Err(e) => Err(e),
            },
            r is Err ==> final(self)@ == old(self)@,
    {
        let candidates = self.stale_positions(cutoff);
        let ghost cands = self@.stale_positions(cutoff);
        proof {
            let idx = crate::seqs::lemma_filter_embedding(positions(self@.agents.len()), stale_at(self@.agents, cutoff));
            assert forall|k: int| 0 <= k < cands.len() implies 0 <= #[trigger] cands[k] < self@.agents.len() by {
                assert(cands[k] == positions(self@.agents.len())[idx[k]]);
            }
        }
        let mut dead: Vec<usize> = Vec::new();
        let mut k: usize = 0;
        while k < candidates.len()
            invariant
                k <= candidates.len(),
                candidates@.len() == cands.len(),
                alive@.len() == cands.len(),
                forall|j: int| 0 <= j < candidates@.len() ==> candidates@[j] as int == #[trigger] cands[j],
                forall|j: int| 0 <= j < cands.len() ==> 0 <= #[trigger] cands[j] < self@.agents.len(),
                dead@.len() == dead_positions(cands.take(k as int), alive@.take(k as int)).len(),
                forall|j: int| 0 <= j < dead@.len() ==> dead@[j] as int == #[trigger] dead_positions(cands.take(k as int), alive@.take(k as int))[j],
                forall|j: int| 0 <= j < dead@.len() ==> (#[trigger] dead@[j] as int) < self@.agents.len(),
                dead@.len() <= k,
            decreases candidates.len() - k,
        {
            proof {
                assert(cands.take(k + 1).drop_last() =~= cands.take(k as int));
                assert(alive@.take(k + 1).drop_last() =~= alive@.take(k as int));
                assert(cands.take(k + 1).last() == cands[k as int]);
                assert(alive@.take(k + 1).last() == alive@[k as int]);
            }
            if !alive[k] {
                dead.push(candidates[k]);
            }
            k += 1;
        }
        proof {
            assert(cands.take(cands.len() as int) =~= cands);
            assert(alive@.take(alive@.len() as int) =~= alive@);
        }
        let ghost dpos = dead_positions(cands, alive@);
        if dead.len() as i128 > i64::MAX as i128 - self.last_sequence as i128 {
            return Err(MeshError::JournalFull);
        }
        let ghost start = self@;
        proof {
            assert forall|j: int| 0 <= j < dpos.len() implies 0 <= #[trigger] dpos[j] < start.agents.len() by {
                assert(dead@[j] as int == dpos[j]);
            }
        }
        let mut j: usize = 0;
        while j < dead.len()
            invariant
                j <= dead.len(),
                dead@.len() == dpos.len(),
                forall|x: int| 0 <= x < dead@.len() ==> dead@[x] as int == #[trigger] dpos[x],
                forall|x: int| 0 <= x < dpos.len() ==> 0 <= #[trigger] dpos[x] < start.agents.len(),
                start.wf(),
                start.last_sequence + dpos.len() <= i64::MAX,
                self@ == start.reap_all(dpos.take(j as int), now),
                self@.wf(),
                self@.agents.len() == start.agents.len(),
                self@.last_sequence == start.last_sequence + j,
            decreases dead.len() - j,
        {
            proof {
                assert(dpos.take(j + 1).drop_last() =~= dpos.take(j as int));
                assert(dpos.take(j + 1).last() == dpos[j as int]);
            }
            self.end_session(dead[j], AgentStatus::Dead, "agent.dead", now);
            j += 1;
        }
        proof {
            assert(dpos.take(dpos.len() as int) =~= dpos);
            self@.lemma_claims_filter_wf(unexpired_at(now));
        }
        let removed = self.drop_expired_claims(now);
        Ok(CollectReport { dead_agents: dead.len(), expired_claims: removed })
    }
}

} // verus!
