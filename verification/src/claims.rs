//! Task leases: exclusive per workspace and task key until expiry or release.
use vstd::prelude::*;

use crate::mesh::{claims_view, Mesh, MeshError, MeshView};
use crate::records::{opt_text, ClaimRecord, ClaimView};
use crate::text::{borrowed_opt_text, copy_opt_text, own_opt_text, same_text};

verus! {

/// The end of a lease of `lease_seconds` seconds that starts at `now`
/// (milliseconds), or why no such lease can be granted.
pub open spec fn lease_expiry(now: i64, lease_seconds: u64) -> Result<i64, MeshError> {
    if lease_seconds == 0 {
        Err(MeshError::LeaseNotPositive)
    } else if lease_seconds > i64::MAX {
        Err(MeshError::LeaseOutOfRange)
    } else {
        let millis: int = if lease_seconds * 1000 > i64::MAX {
            i64::MAX as int
        } else {
            lease_seconds * 1000
        };
        if now + millis > i64::MAX {
            Err(MeshError::LeaseTooLong)
        } else {
            Ok((now + millis) as i64)
        }
    }
}

/// Computes the end of a lease; see [`lease_expiry`].
pub fn compute_lease_expiry(now: i64, lease_seconds: u64) -> (r: Result<i64, MeshError>)
    ensures
        r == lease_expiry(now, lease_seconds),
{
    if lease_seconds == 0 {
        return Err(MeshError::LeaseNotPositive);
    }
    if lease_seconds > i64::MAX as u64 {
        return Err(MeshError::LeaseOutOfRange);
    }
    let seconds = lease_seconds as i64;
    let millis = if seconds > i64::MAX / 1000 {
        i64::MAX
    } else {
        seconds * 1000
    };
    match now.checked_add(millis) {
        Some(end) => Ok(end),
        None => Err(MeshError::LeaseTooLong),
    }
}

/// The answer to a claim request: the claim as it stands afterwards, the
/// name of its owner, and whether the requesting agent holds it.
#[derive(Debug)]
pub struct ClaimOutcome {
    pub claim: ClaimRecord,
    pub agent_name: String,
    pub acquired: bool,
}

pub struct ClaimOutcomeView {
    pub claim: ClaimView,
    pub agent_name: Seq<char>,
    pub acquired: bool,
}

impl View for ClaimOutcome {
    type V = ClaimOutcomeView;

    open spec fn view(&self) -> ClaimOutcomeView {
        ClaimOutcomeView {
            claim: self.claim@,
            agent_name: self.agent_name@,
            acquired: self.acquired,
        }
    }
}

impl MeshView {
    /// Whether the claim at `pos` may be taken by `agent_id` at `now`: its
    /// lease has ended, or the agent already holds it.
    pub open spec fn claim_open_to(self, pos: int, agent_id: Seq<char>, now: i64) -> bool {
        self.claims[pos].lease_expires_at <= now || self.claims[pos].agent_id == agent_id
    }

    /// The acquisition or renewal of a task lease by an existing agent,
    /// before the journal entry is appended.
    pub open spec fn claim_step(
        self,
        agent_id: Seq<char>,
        task_key: Seq<char>,
        detail: Option<Seq<char>>,
        now: i64,
        expires: i64,
    ) -> (MeshView, ClaimOutcomeView) {
        let agent = self.agent(agent_id);
        let ws = agent.workspace_id;
        let fresh = ClaimView {
            workspace_id: ws,
            task_key,
            detail,
            agent_id,
            claimed_at: now,
            lease_expires_at: expires,
            updated_at: now,
        };
        let taken = ClaimOutcomeView { claim: fresh, agent_name: agent.name, acquired: true };
        if !self.has_claim(ws, task_key) {
            (
                MeshView { claims: self.claims.push(fresh), ..self }.journal(
                    ws,
                    Some(agent_id),
                    "task.claimed"@,
                    Some(task_key),
                    "{}"@,
                    now,
                ),
                taken,
            )
        } else {
            let pos = self.claim_index(ws, task_key);
            if self.claim_open_to(pos, agent_id, now) {
                (
                    MeshView { claims: self.claims.update(pos, fresh), ..self }.journal(
                        ws,
                        Some(agent_id),
                        "task.claimed"@,
                        Some(task_key),
                        "{}"@,
                        now,
                    ),
                    taken,
                )
            } else {
                let held = self.claims[pos];
                (
                    self,
                    ClaimOutcomeView {
                        claim: held,
                        agent_name: self.agent(held.agent_id).name,
                        acquired: false,
                    },
                )
            }
        }
    }

    /// A claim request by `agent_id` for `task_key` at `now`: inserted when
    /// the key is free, taken over when the lease has ended, renewed when the
    /// agent already owns it, and otherwise answered with the current owner.
    pub open spec fn claim(
        self,
        agent_id: Seq<char>,
        task_key: Seq<char>,
        lease_seconds: u64,
        detail: Option<Seq<char>>,
        now: i64,
    ) -> Result<(MeshView, ClaimOutcomeView), MeshError> {
        match lease_expiry(now, lease_seconds) {
            Err(e) => Err(e),
            Ok(expires) => if !self.has_agent(agent_id) {
                Err(MeshError::AgentNotFound)
            } else {
                let (next, outcome) = self.claim_step(agent_id, task_key, detail, now, expires);
                if outcome.acquired && self.last_sequence == i64::MAX {
                    Err(MeshError::JournalFull)
                } else {
                    Ok((next, outcome))
                }
            },
        }
    }

    /// Release of a task lease: only the owner's claim row is removed.
    pub open spec fn release(self, agent_id: Seq<char>, task_key: Seq<char>, now: i64) -> Result<
        (MeshView, bool),
        MeshError,
    > {
        if !self.has_agent(agent_id) {
            Err(MeshError::AgentNotFound)
        } else {
            let ws = self.agent(agent_id).workspace_id;
            if self.has_claim(ws, task_key) && self.claims[self.claim_index(
                ws,
                task_key,
            )].agent_id == agent_id {
                if self.last_sequence == i64::MAX {
                    Err(MeshError::JournalFull)
                } else {
                    Ok(
                        (
                            MeshView {
                                claims: self.claims.remove(self.claim_index(ws, task_key)),
                                ..self
                            }.journal(
                                ws,
                                Some(agent_id),
                                "task.released"@,
                                Some(task_key),
                                "{}"@,
                                now,
                            ),
                            true,
                        ),
                    )
                }
            } else {
                Ok((self, false))
            }
        }
    }
}

impl MeshView {
    /// A claim request keeps the invariant and the sessions.
    pub proof fn lemma_claim_step_wf(
        self,
        agent_id: Seq<char>,
        task_key: Seq<char>,
        detail: Option<Seq<char>>,
        now: i64,
        expires: i64,
    )
        requires
            self.wf(),
            self.has_agent(agent_id),
            self.last_sequence < i64::MAX,
        ensures
            self.claim_step(agent_id, task_key, detail, now, expires).0.wf(),
            self.claim_step(agent_id, task_key, detail, now, expires).0.agents == self.agents,
            self.claim_step(agent_id, task_key, detail, now, expires).0.workspaces
                == self.workspaces,
    {
        let ws = self.agent(agent_id).workspace_id;
        let fresh = ClaimView {
            workspace_id: ws,
            task_key,
            detail,
            agent_id,
            claimed_at: now,
            lease_expires_at: expires,
            updated_at: now,
        };
        let ai = self.agent_index(agent_id);
        assert(self.agents[ai].id == agent_id);
        if !self.has_claim(ws, task_key) {
            let mid = MeshView { claims: self.claims.push(fresh), ..self };
            assert forall|i: int| 0 <= i < mid.claims.len() implies mid.has_agent(
                #[trigger] mid.claims[i].agent_id,
            ) by {
                if i < self.claims.len() {
                    assert(mid.claims[i] == self.claims[i]);
                    assert(self.has_agent(self.claims[i].agent_id));
                    let k = choose|k: int|
                        0 <= k < self.agents.len() && self.agents[k].id == self.claims[i].agent_id;
                    assert(mid.agents[k].id == mid.claims[i].agent_id);
                } else {
                    assert(mid.agents[ai].id == mid.claims[i].agent_id);
                }
            }
            assert forall|i: int, j: int|
                0 <= i < j < mid.claims.len() implies !(#[trigger] mid.claims[i].workspace_id
                == #[trigger] mid.claims[j].workspace_id && mid.claims[i].task_key
                == mid.claims[j].task_key) by {
                if j == self.claims.len() {
                    assert(mid.claims[i] == self.claims[i]);
                } else {
                    assert(mid.claims[i] == self.claims[i]);
                    assert(mid.claims[j] == self.claims[j]);
                }
            }
            self.lemma_same_refs_but_claims(mid);
            assert(mid.wf());
            mid.lemma_journal_wf(ws, Some(agent_id), "task.claimed"@, Some(task_key), "{}"@, now);
        } else {
            let pos = self.claim_index(ws, task_key);
            if self.claim_open_to(pos, agent_id, now) {
                let mid = MeshView { claims: self.claims.update(pos, fresh), ..self };
                assert forall|i: int| 0 <= i < mid.claims.len() implies mid.has_agent(
                    #[trigger] mid.claims[i].agent_id,
                ) by {
                    if i != pos {
                        assert(mid.claims[i] == self.claims[i]);
                        assert(self.has_agent(self.claims[i].agent_id));
                        let k = choose|k: int|
                            0 <= k < self.agents.len() && self.agents[k].id
                                == self.claims[i].agent_id;
                        assert(mid.agents[k].id == mid.claims[i].agent_id);
                    } else {
                        assert(mid.agents[ai].id == mid.claims[i].agent_id);
                    }
                }
                assert forall|i: int, j: int|
                    0 <= i < j < mid.claims.len() implies !(#[trigger] mid.claims[i].workspace_id
                    == #[trigger] mid.claims[j].workspace_id && mid.claims[i].task_key
                    == mid.claims[j].task_key) by {
                    assert(self.claims[i].workspace_id == mid.claims[i].workspace_id);
                    assert(self.claims[i].task_key == mid.claims[i].task_key);
                    assert(self.claims[j].workspace_id == mid.claims[j].workspace_id);
                    assert(self.claims[j].task_key == mid.claims[j].task_key);
                }
                self.lemma_same_refs_but_claims(mid);
                assert(mid.wf());
                mid.lemma_journal_wf(
                    ws,
                    Some(agent_id),
                    "task.claimed"@,
                    Some(task_key),
                    "{}"@,
                    now,
                );
            }
        }
    }
}

/// Copies a claim row.
pub fn copy_claim(c: &ClaimRecord) -> (r: ClaimRecord)
    ensures
        r@ == c@,
{
    ClaimRecord {
        workspace_id: c.workspace_id.clone(),
        task_key: c.task_key.clone(),
        detail: copy_opt_text(&c.detail),
        agent_id: c.agent_id.clone(),
        claimed_at: c.claimed_at,
        lease_expires_at: c.lease_expires_at,
        updated_at: c.updated_at,
    }
}

impl Mesh {
    /// Acquires, takes over, or renews the lease on `task_key` for
    /// `agent_id`; see [`MeshView::claim`].
    pub fn claim(
        &mut self,
        agent_id: &str,
        task_key: &str,
        lease_seconds: u64,
        detail: Option<&str>,
        now: i64,
    ) -> (r: Result<ClaimOutcome, MeshError>)
        requires
            old(self)@.wf(),
        ensures
            final(self)@.wf(),
            old(self)@.claim(agent_id@, task_key@, lease_seconds, borrowed_opt_text(detail), now)
                == match r {
                Ok(o) => Ok((final(self)@, o@)),
                Err(e) => Err(e),
            },
            r is Err ==> final(self)@ == old(self)@,
    {
        let expires = match compute_lease_expiry(now, lease_seconds) {
            Ok(t) => t,
            Err(e) => return Err(e),
        };
        let ai = match self.find_agent(agent_id) {
            Some(i) => i,
            None => return Err(MeshError::AgentNotFound),
        };
        let ws = self.agents[ai].workspace_id.clone();
        let pos = self.find_claim(ws.as_str(), task_key);
        if let Some(p) = pos {
            if !(self.claims[p].lease_expires_at <= now || same_text(
                self.claims[p].agent_id.as_str(),
                agent_id,
            )) {
                let held = copy_claim(&self.claims[p]);
                let owner = match self.find_agent(held.agent_id.as_str()) {
                    Some(i) => i,
                    None => {
                        proof {
                            assert(self@.has_agent(self@.claims[p as int].agent_id));
                        }
                        return Err(MeshError::AgentNotFound);
                    },
                };
                return Ok(
                    ClaimOutcome { claim: held, agent_name: self.agents[owner].name.clone(), acquired: false },
                );
            }
        }
        if self.last_sequence == i64::MAX {
            return Err(MeshError::JournalFull);
        }
        let ghost before = self@;
        let record = ClaimRecord {
            workspace_id: ws.clone(),
            task_key: task_key.to_owned(),
            detail: own_opt_text(detail),
            agent_id: agent_id.to_owned(),
            claimed_at: now,
            lease_expires_at: expires,
            updated_at: now,
        };
        let copy = copy_claim(&record);
        let name = self.agents[ai].name.clone();
        match pos {
            Some(p) => {
                self.claims.set(p, record);
                assert(self@.claims =~= before.claims.update(p as int, copy@));
            },
            None => {
                self.claims.push(record);
                assert(self@.claims =~= before.claims.push(copy@));
            },
        }
        let ghost mid = self@;
        proof {
            assert(mid.agents == before.agents);
            assert forall|i: int| 0 <= i < mid.claims.len() implies mid.has_agent(
                #[trigger] mid.claims[i].agent_id,
            ) by {
                if mid.claims[i].agent_id == agent_id@ {
                    assert(mid.agents[ai as int].id == agent_id@);
                } else {
                    assert(before.claims.contains(mid.claims[i]) || mid.claims[i] == copy@);
                    if pos.is_some() && i == pos.unwrap() {
                    } else if pos.is_none() && i == before.claims.len() {
                    } else {
                        assert(mid.claims[i] == before.claims[i]);
                        assert(before.has_agent(before.claims[i].agent_id));
                    }
                }
            }
            assert forall|i: int, j: int|
                0 <= i < j < mid.claims.len() implies !(#[trigger] mid.claims[i].workspace_id
                == #[trigger] mid.claims[j].workspace_id && mid.claims[i].task_key
                == mid.claims[j].task_key) by {
                if pos.is_none() && j == before.claims.len() {
                    assert(mid.claims[i] == before.claims[i]);
                }
            }
            assert(mid.wf());
            mid.lemma_journal_wf(ws@, Some(agent_id@), "task.claimed"@, Some(task_key@), "{}"@, now);
        }
        self.append_event(
            ws,
            Some(agent_id.to_owned()),
            String::from_str("task.claimed"),
            Some(task_key.to_owned()),
            String::from_str("{}"),
            now,
        );
        Ok(ClaimOutcome { claim: copy, agent_name: name, acquired: true })
    }
}

impl Mesh {
    /// Releases the lease on `task_key` held by `agent_id`; see
    /// [`MeshView::release`].
    pub fn release(&mut self, agent_id: &str, task_key: &str, now: i64) -> (r: Result<
        bool,
        MeshError,
    >)
        requires
            old(self)@.wf(),
        ensures
            final(self)@.wf(),
            old(self)@.release(agent_id@, task_key@, now) == match r {
                Ok(b) => Ok((final(self)@, b)),
                Err(e) => Err(e),
            },
            r is Err ==> final(self)@ == old(self)@,
    {
        let ai = match self.find_agent(agent_id) {
            Some(i) => i,
            None => return Err(MeshError::AgentNotFound),
        };
        let ws = self.agents[ai].workspace_id.clone();
        let p = match self.find_claim(ws.as_str(), task_key) {
            Some(p) => p,
            None => return Ok(false),
        };
        if !same_text(self.claims[p].agent_id.as_str(), agent_id) {
            return Ok(false);
        }
        if self.last_sequence == i64::MAX {
            return Err(MeshError::JournalFull);
        }
        let ghost before = self@;
        let _removed = self.claims.remove(p);
        assert(self@.claims =~= before.claims.remove(p as int));
        let ghost mid = self@;
        proof {
            assert(mid.agents == before.agents);
            assert forall|i: int| 0 <= i < mid.claims.len() implies mid.has_agent(
                #[trigger] mid.claims[i].agent_id,
            ) by {
                if i < p {
                    assert(mid.claims[i] == before.claims[i]);
                    assert(before.has_agent(before.claims[i].agent_id));
                } else {
                    assert(mid.claims[i] == before.claims[i + 1]);
                    assert(before.has_agent(before.claims[i + 1].agent_id));
                }
            }
            assert forall|i: int, j: int|
                0 <= i < j < mid.claims.len() implies !(#[trigger] mid.claims[i].workspace_id
                == #[trigger] mid.claims[j].workspace_id && mid.claims[i].task_key
                == mid.claims[j].task_key) by {
                let bi = if i < p { i } else { i + 1 };
                let bj = if j < p { j } else { j + 1 };
                assert(mid.claims[i] == before.claims[bi]);
                assert(mid.claims[j] == before.claims[bj]);
                assert(!(before.claims[bi].workspace_id == before.claims[bj].workspace_id
                    && before.claims[bi].task_key == before.claims[bj].task_key));
            }
            assert(mid.wf());
            mid.lemma_journal_wf(
                ws@,
                Some(agent_id@),
                "task.released"@,
                Some(task_key@),
                "{}"@,
                now,
            );
        }
        self.append_event(
            ws,
            Some(agent_id.to_owned()),
            String::from_str("task.released"),
            Some(task_key.to_owned()),
            String::from_str("{}"),
            now,
        );
        Ok(true)
    }
}

} // verus!
