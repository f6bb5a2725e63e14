//! The status of a workspace: its sessions and its task claims.
use vstd::prelude::*;

use crate::agents::{copy_agent, positions};
use crate::claims::copy_claim;
use crate::mesh::{Mesh, MeshError, MeshView};
use crate::ranking::{as_ints, is_top_ranked, is_top_text, top_ranked, top_text, RankKey, TextKeys};
use crate::records::{opt_text, AgentRecord, AgentStatus, AgentView, ClaimRecord, ClaimView};
use crate::seqs::lemma_filter_take_step;
use crate::text::{same_text, texts};

verus! {

/// `now - then`, saturating at the bounds of `i64`.
pub open spec fn age(now: i64, then: i64) -> i64 {
    if now - then > i64::MAX {
        i64::MAX
    } else if now - then < i64::MIN {
        i64::MIN
    } else {
        (now - then) as i64
    }
}

/// Computes [`age`].
pub fn compute_age(now: i64, then: i64) -> (r: i64)
    ensures
        r == age(now, then),
{
    let d = now as i128 - then as i128;
    if d > i64::MAX as i128 {
        i64::MAX
    } else if d < i64::MIN as i128 {
        i64::MIN
    } else {
        d as i64
    }
}

/// A session as listed in a status, with the age of its last heartbeat.
#[derive(Debug)]
pub struct AgentSnapshot {
    pub agent: AgentRecord,
    pub heartbeat_age_ms: i64,
}

pub struct AgentSnapshotView {
    pub agent: AgentView,
    pub heartbeat_age_ms: i64,
}

impl View for AgentSnapshot {
    type V = AgentSnapshotView;

    open spec fn view(&self) -> AgentSnapshotView {
        AgentSnapshotView { agent: self.agent@, heartbeat_age_ms: self.heartbeat_age_ms }
    }
}

/// A claim as listed in a status, with its owner's name.
#[derive(Debug)]
pub struct ClaimEntry {
    pub claim: ClaimRecord,
    pub agent_name: String,
}

pub struct ClaimEntryView {
    pub claim: ClaimView,
    pub agent_name: Seq<char>,
}

impl View for ClaimEntry {
    type V = ClaimEntryView;

    open spec fn view(&self) -> ClaimEntryView {
        ClaimEntryView { claim: self.claim@, agent_name: self.agent_name@ }
    }
}

/// The status of one workspace.  `workspace_id` is absent when no
/// workspace has the requested root.
#[derive(Debug)]
pub struct WorkspaceStatus {
    pub workspace: String,
    pub workspace_id: Option<String>,
    pub agents: Vec<AgentSnapshot>,
    pub claims: Vec<ClaimEntry>,
}

pub struct WorkspaceStatusView {
    pub workspace: Seq<char>,
    pub workspace_id: Option<Seq<char>>,
    pub agents: Seq<AgentSnapshotView>,
    pub claims: Seq<ClaimEntryView>,
}

impl View for WorkspaceStatus {
    type V = WorkspaceStatusView;

    open spec fn view(&self) -> WorkspaceStatusView {
        WorkspaceStatusView {
            workspace: self.workspace@,
            workspace_id: opt_text(self.workspace_id),
            agents: self.agents@.map_values(|a: AgentSnapshot| a@),
            claims: self.claims@.map_values(|c: ClaimEntry| c@),
        }
    }
}

impl MeshView {
    pub open spec fn workspace_index(self, id: Seq<char>) -> int {
        choose|i: int| 0 <= i < self.workspaces.len() && self.workspaces[i].id == id
    }

    pub open spec fn has_root(self, root: Seq<char>) -> bool {
        exists|i: int| 0 <= i < self.workspaces.len() && self.workspaces[i].root == root
    }

    pub open spec fn root_index(self, root: Seq<char>) -> int {
        choose|i: int| 0 <= i < self.workspaces.len() && self.workspaces[i].root == root
    }

    /// The workspace a status request names: that of the agent when one is
    /// given, else the one with the given root, if any.
    pub open spec fn status_workspace(self, agent_id: Option<Seq<char>>, root: Seq<char>) -> Result<
        Option<int>,
        MeshError,
    > {
        match agent_id {
            Some(a) => if self.has_agent(a) {
                Ok(Some(self.workspace_index(self.agent(a).workspace_id)))
            } else {
                Err(MeshError::AgentNotFound)
            },
            None => if self.has_root(root) {
                Ok(Some(self.root_index(root)))
            } else {
                Ok(None)
            },
        }
    }

    pub open spec fn agent_in(self, ws: Seq<char>) -> spec_fn(int) -> bool {
        |p: int| self.agents[p].workspace_id == ws
    }

    pub open spec fn claim_in(self, ws: Seq<char>) -> spec_fn(int) -> bool {
        |p: int| self.claims[p].workspace_id == ws
    }

    /// Status order of sessions: running first, then latest heartbeat first.
    pub open spec fn session_key(self, p: int) -> RankKey {
        RankKey {
            primary: if self.agents[p].status == AgentStatus::Running {
                0
            } else {
                1
            },
            secondary: (-(self.agents[p].heartbeat_at as int)) as i128,
            tertiary: 0,
        }
    }

    pub open spec fn session_keys(self, candidates: Seq<int>) -> Seq<RankKey> {
        candidates.map_values(|p: int| self.session_key(p))
    }

    pub open spec fn task_keys(self, candidates: Seq<int>) -> Seq<Seq<char>> {
        candidates.map_values(|p: int| self.claims[p].task_key)
    }

    pub open spec fn snapshot(self, p: int, now: i64) -> AgentSnapshotView {
        AgentSnapshotView {
            agent: self.agents[p],
            heartbeat_age_ms: age(now, self.agents[p].heartbeat_at),
        }
    }

    pub open spec fn claim_entry(self, p: int) -> ClaimEntryView {
        ClaimEntryView {
            claim: self.claims[p],
            agent_name: self.agent(self.claims[p].agent_id).name,
        }
    }

    /// `out` is the status of the workspace at position `w` at `now`: its
    /// sessions in status order and its claims in task-key order.
    pub open spec fn is_workspace_status(self, w: int, now: i64, out: WorkspaceStatusView) -> bool {
        let ws = self.workspaces[w];
        let sessions = positions(self.agents.len()).filter(self.agent_in(ws.id));
        let claims = positions(self.claims.len()).filter(self.claim_in(ws.id));
        &&& out.workspace == ws.root
        &&& out.workspace_id == Some(ws.id)
        &&& exists|r: Seq<int>|
            #[trigger] is_top_ranked(self.session_keys(sessions), sessions.len(), r)
                && out.agents.len() == r.len() && forall|k: int|
                0 <= k < r.len() ==> #[trigger] out.agents[k] == self.snapshot(sessions[r[k]], now)
        &&& exists|r: Seq<int>|
            #[trigger] is_top_text(self.task_keys(claims), claims.len(), r) && out.claims.len()
                == r.len() && forall|k: int|
                0 <= k < r.len() ==> #[trigger] out.claims[k] == self.claim_entry(claims[r[k]])
    }

    /// `out` answers a status request at `now`.
    pub open spec fn is_status(
        self,
        agent_id: Option<Seq<char>>,
        root: Seq<char>,
        now: i64,
        out: WorkspaceStatusView,
    ) -> bool {
        match self.status_workspace(agent_id, root) {
            Ok(Some(w)) => self.is_workspace_status(w, now, out),
            Ok(None) => out.workspace == root && out.workspace_id is None && out.agents.len() == 0
                && out.claims.len() == 0,
            Err(_) => false,
        }
    }
}

impl Mesh {
    /// Finds the workspace with the given id.
    fn find_workspace(&self, id: &str) -> (r: Option<usize>)
        requires
            self@.wf(),
        ensures
            match r {
                Some(i) => i < self@.workspaces.len() && self@.workspaces[i as int].id == id@
                    && self@.workspace_index(id@) == i,
                None => !self@.has_workspace(id@),
            },
    {
        let mut i: usize = 0;
        while i < self.workspaces.len()
            invariant
                i <= self.workspaces.len(),
                self@.wf(),
                forall|j: int| 0 <= j < i ==> self@.workspaces[j].id != id@,
            decreases self.workspaces.len() - i,
        {
            if same_text(self.workspaces[i].id.as_str(), id) {
                proof {
                    assert(self@.workspaces[i as int].id == id@);
                    let j = self@.workspace_index(id@);
                    assert(self@.workspaces[j].id == id@);
                    if j < i {
                        assert(self@.workspaces[j].id != self@.workspaces[i as int].id);
                    } else if i < j {
                        assert(self@.workspaces[i as int].id != self@.workspaces[j].id);
                    }
                }
                return Some(i);
            }
            i += 1;
        }
        None
    }

    /// Finds the workspace with the given root.
    pub(crate) fn find_root(&self, root: &str) -> (r: Option<usize>)
        requires
            self@.wf(),
        ensures
            match r {
                Some(i) => i < self@.workspaces.len() && self@.has_root(root@)
                    && self@.root_index(root@) == i,
                None => !self@.has_root(root@),
            },
    {
        let mut i: usize = 0;
        while i < self.workspaces.len()
            invariant
                i <= self.workspaces.len(),
                self@.wf(),
                forall|j: int| 0 <= j < i ==> self@.workspaces[j].root != root@,
            decreases self.workspaces.len() - i,
        {
            if same_text(self.workspaces[i].root.as_str(), root) {
                proof {
                    assert(self@.workspaces[i as int].root == root@);
                    let j = self@.root_index(root@);
                    assert(self@.workspaces[j].root == root@);
                    if j < i {
                        assert(self@.workspaces[j].root != self@.workspaces[i as int].root);
                    } else if i < j {
                        assert(self@.workspaces[i as int].root != self@.workspaces[j].root);
                    }
                }
                return Some(i);
            }
            i += 1;
        }
        None
    }

    /// The status of the workspace at position `w`.
    fn workspace_status(&self, w: usize, now: i64) -> (out: WorkspaceStatus)
        requires
            self@.wf(),
            w < self@.workspaces.len(),
        ensures
            self@.is_workspace_status(w as int, now, out@),
    {
        let ws = self.workspaces[w].id.clone();
        let ghost wsv = self@.workspaces[w as int];
        // sessions of the workspace
        let ghost all_a = positions(self@.agents.len());
        let ghost pred_a = self@.agent_in(ws@);
        let mut sessions: Vec<usize> = Vec::new();
        let mut keys: Vec<RankKey> = Vec::new();
        let mut p: usize = 0;
        while p < self.agents.len()
            invariant
                p <= self.agents.len(),
                all_a == positions(self@.agents.len()),
                pred_a == self@.agent_in(ws@),
                as_ints(sessions@) == all_a.take(p as int).filter(pred_a),
                keys@ == self@.session_keys(as_ints(sessions@)),
            decreases self.agents.len() - p,
        {
            proof {
                lemma_filter_take_step(all_a, pred_a, p as int);
            }
            let a = &self.agents[p];
            assert(self@.agents[p as int] == a@);
            if same_text(a.workspace_id.as_str(), ws.as_str()) {
                let ghost before = as_ints(sessions@);
                sessions.push(p);
                keys.push(
                    RankKey {
                        primary: if a.status == AgentStatus::Running {
                            0
                        } else {
                            1
                        },
                        secondary: -(a.heartbeat_at as i128),
                        tertiary: 0,
                    },
                );
                assert(as_ints(sessions@) =~= before.push(p as int));
                assert(keys@ =~= self@.session_keys(as_ints(sessions@)));
            }
            p += 1;
        }
        assert(all_a.take(self.agents.len() as int) =~= all_a);
        let ghost sess = as_ints(sessions@);
        proof {
            let idx = crate::seqs::lemma_filter_embedding(all_a, pred_a);
            assert forall|x: int| 0 <= x < sess.len() implies 0 <= #[trigger] sess[x] < self@.agents.len() by {
                assert(sess[x] == all_a[idx[x]]);
            }
        }
        let order = top_ranked(&keys, sessions.len());
        let mut agents: Vec<AgentSnapshot> = Vec::new();
        let mut k: usize = 0;
        while k < order.len()
            invariant
                k <= order@.len(),
                sess == as_ints(sessions@),
                is_top_ranked(keys@, sessions@.len() as nat, as_ints(order@)),
                keys@.len() == sessions@.len(),
                forall|x: int| 0 <= x < sess.len() ==> 0 <= #[trigger] sess[x] < self@.agents.len(),
                agents@.len() == k,
                forall|x: int| 0 <= x < k ==> #[trigger] agents@[x]@ == self@.snapshot(sess[as_ints(order@)[x]], now),
            decreases order@.len() - k,
        {
            let ghost ok = as_ints(order@)[k as int];
            assert(order@[k as int] as int == ok);
            let p = sessions[order[k]];
            assert(p as int == sess[ok]);
            let a = &self.agents[p];
            assert(self@.agents[p as int] == a@);
            agents.push(AgentSnapshot { agent: copy_agent(a), heartbeat_age_ms: compute_age(now, a.heartbeat_at) });
            k += 1;
        }
        // claims of the workspace
        let ghost all_c = positions(self@.claims.len());
        let ghost pred_c = self@.claim_in(ws@);
        let mut owned: Vec<usize> = Vec::new();
        let mut names: Vec<String> = Vec::new();
        let mut p: usize = 0;
        while p < self.claims.len()
            invariant
                p <= self.claims.len(),
                all_c == positions(self@.claims.len()),
                pred_c == self@.claim_in(ws@),
                as_ints(owned@) == all_c.take(p as int).filter(pred_c),
                texts(names@) == self@.task_keys(as_ints(owned@)),
            decreases self.claims.len() - p,
        {
            proof {
                lemma_filter_take_step(all_c, pred_c, p as int);
            }
            let c = &self.claims[p];
            assert(self@.claims[p as int] == c@);
            if same_text(c.workspace_id.as_str(), ws.as_str()) {
                let ghost before = as_ints(owned@);
                let ghost before_names = texts(names@);
                owned.push(p);
                let tk = c.task_key.clone();
                assert(tk@ == self@.claims[p as int].task_key);
                names.push(tk);
                assert(texts(names@) =~= before_names.push(self@.claims[p as int].task_key));
                assert(as_ints(owned@) =~= before.push(p as int));
                assert(texts(names@) =~= self@.task_keys(as_ints(owned@)));
            }
            p += 1;
        }
        assert(all_c.take(self.claims.len() as int) =~= all_c);
        let ghost held = as_ints(owned@);
        proof {
            let idx = crate::seqs::lemma_filter_embedding(all_c, pred_c);
            assert forall|x: int| 0 <= x < held.len() implies 0 <= #[trigger] held[x] < self@.claims.len() by {
                assert(held[x] == all_c[idx[x]]);
            }
        }
        let text_keys = TextKeys { keys: names };
        let corder = top_text(&text_keys, owned.len());
        let mut claims: Vec<ClaimEntry> = Vec::new();
        let mut k: usize = 0;
        while k < corder.len()
            invariant
                k <= corder@.len(),
                self@.wf(),
                held == as_ints(owned@),
                is_top_text(texts(text_keys.keys@), owned@.len() as nat, as_ints(corder@)),
                texts(text_keys.keys@).len() == owned@.len(),
                forall|x: int| 0 <= x < held.len() ==> 0 <= #[trigger] held[x] < self@.claims.len(),
                claims@.len() == k,
                forall|x: int| 0 <= x < k ==> #[trigger] claims@[x]@ == self@.claim_entry(held[as_ints(corder@)[x]]),
            decreases corder@.len() - k,
        {
            let ghost ok = as_ints(corder@)[k as int];
            assert(corder@[k as int] as int == ok);
            let p = owned[corder[k]];
            assert(p as int == held[ok]);
            let c = &self.claims[p];
            assert(self@.claims[p as int] == c@);
            let owner = match self.find_agent(c.agent_id.as_str()) {
                Some(i) => i,
                None => {
                    proof {
                        assert(self@.has_agent(self@.claims[p as int].agent_id));
                    }
                    0
                },
            };
            claims.push(ClaimEntry { claim: copy_claim(c), agent_name: self.agents[owner].name.clone() });
            k += 1;
        }
        let out = WorkspaceStatus {
            workspace: self.workspaces[w].root.clone(),
            workspace_id: Some(ws),
            agents,
            claims,
        };
        proof {
            let sessions_s = positions(self@.agents.len()).filter(self@.agent_in(wsv.id));
            let claims_s = positions(self@.claims.len()).filter(self@.claim_in(wsv.id));
            assert(sess == sessions_s);
            assert(held == claims_s);
            assert(self@.task_keys(held) == texts(text_keys.keys@));
            let r1 = as_ints(order@);
            let r2 = as_ints(corder@);
            assert(is_top_ranked(self@.session_keys(sessions_s), sessions_s.len(), r1));
            assert(out@.agents.len() == r1.len());
            assert(forall|x: int| 0 <= x < r1.len() ==> #[trigger] out@.agents[x] == self@.snapshot(sessions_s[r1[x]], now));
            assert(is_top_text(self@.task_keys(claims_s), claims_s.len(), r2));
            assert(out@.claims.len() == r2.len());
            assert(forall|x: int| 0 <= x < r2.len() ==> #[trigger] out@.claims[x] == self@.claim_entry(claims_s[r2[x]]));
        }
        out
    }

    /// The status of the workspace of `agent_id`, or else of the workspace
    /// rooted at `root`; see [`MeshView::is_status`].
    pub fn status(&self, agent_id: Option<&str>, root: &str, now: i64) -> (r: Result<
        WorkspaceStatus,
        MeshError,
    >)
        requires
            self@.wf(),
        ensures
            match r {
                Ok(out) => self@.is_status(crate::text::borrowed_opt_text(agent_id), root@, now, out@),
                Err(e) => self@.status_workspace(crate::text::borrowed_opt_text(agent_id), root@) == Err::<Option<int>, MeshError>(e),
            },
    {
        let w = match agent_id {
            Some(a) => {
                let ai = match self.find_agent(a) {
                    Some(i) => i,
                    None => return Err(MeshError::AgentNotFound),
                };
                match self.find_workspace(self.agents[ai].workspace_id.as_str()) {
                    Some(w) => w,
                    None => {
                        proof {
                            assert(self@.has_workspace(self@.agents[ai as int].workspace_id));
                        }
                        return Err(MeshError::AgentNotFound);
                    },
                }
            },
            None => match self.find_root(root) {
                Some(w) => w,
                None => {
                    return Ok(
                        WorkspaceStatus {
                            workspace: root.to_owned(),
                            workspace_id: None,
                            agents: Vec::new(),
                            claims: Vec::new(),
                        },
                    );
                },
            },
        };
        Ok(self.workspace_status(w, now))
    }
}

} // verus!
