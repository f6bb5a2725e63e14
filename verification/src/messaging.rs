//! Direct and broadcast messages, per-recipient inboxes and receipts.
use vstd::prelude::*;

use crate::codec::{encode_recipient_data, recipient_data};
use crate::mesh::{messages_view, receipts_view, Mesh, MeshError, MeshView};
use crate::ranking::{as_ints, is_top_ranked, top_ranked, RankKey};
use crate::records::{opt_text, AgentStatus, AgentView, MessageRecord, MessageView, ReceiptRecord, ReceiptView};
use crate::text::{borrowed_opt_text, copy_opt_text, decimal, decimal_text, own_opt_text, same_text};

verus! {

/// The answer to a send: the new message id and where it was routed
/// (an agent id, or `*` for a broadcast).
#[derive(Debug)]
pub struct SentMessage {
    pub message_id: i64,
    pub recipient: String,
}

pub struct SentMessageView {
    pub message_id: i64,
    pub recipient: Seq<char>,
}

impl View for SentMessage {
    type V = SentMessageView;

    open spec fn view(&self) -> SentMessageView {
        SentMessageView { message_id: self.message_id, recipient: self.recipient@ }
    }
}

impl MeshView {
    /// Whether the session at `i` answers to `recipient` in workspace `ws`:
    /// running, and named so or with that id.
    pub open spec fn answers_to(self, ws: Seq<char>, recipient: Seq<char>, i: int) -> bool {
        0 <= i < self.agents.len() && self.agents[i].workspace_id == ws && (self.agents[i].id
            == recipient || self.agents[i].name == recipient) && self.agents[i].status
            == AgentStatus::Running
    }

    pub open spec fn has_route(self, ws: Seq<char>, recipient: Seq<char>) -> bool {
        exists|i: int| self.answers_to(ws, recipient, i)
    }

    /// The session at `i` is the one a message to `recipient` goes to: it
    /// answers to the name, has the most recent heartbeat, and comes first
    /// among sessions with that heartbeat.
    pub open spec fn is_route(self, ws: Seq<char>, recipient: Seq<char>, i: int) -> bool {
        &&& self.answers_to(ws, recipient, i)
        &&& forall|j: int|
            #[trigger] self.answers_to(ws, recipient, j) ==> self.agents[j].heartbeat_at
                <= self.agents[i].heartbeat_at && (j < i ==> self.agents[j].heartbeat_at
                < self.agents[i].heartbeat_at)
    }

    pub open spec fn route(self, ws: Seq<char>, recipient: Seq<char>) -> int {
        choose|i: int| self.is_route(ws, recipient, i)
    }

    /// Among the sessions before position `n` that answer to `recipient`,
    /// the one with the most recent heartbeat, the first of equals.
    proof fn lemma_route_upto(self, ws: Seq<char>, recipient: Seq<char>, n: int) -> (b: int)
        requires
            0 <= n <= self.agents.len(),
            exists|j: int| 0 <= j < n && self.answers_to(ws, recipient, j),
        ensures
            0 <= b < n,
            self.answers_to(ws, recipient, b),
            forall|j: int|
                0 <= j < n && #[trigger] self.answers_to(ws, recipient, j) ==> self.agents[j].heartbeat_at
                    <= self.agents[b].heartbeat_at && (j < b ==> self.agents[j].heartbeat_at
                    < self.agents[b].heartbeat_at),
        decreases n,
    {
        let k = n - 1;
        if exists|j: int| 0 <= j < k && self.answers_to(ws, recipient, j) {
            let b0 = self.lemma_route_upto(ws, recipient, k);
            if self.answers_to(ws, recipient, k) && self.agents[b0].heartbeat_at
                < self.agents[k].heartbeat_at {
                k
            } else {
                b0
            }
        } else {
            k
        }
    }

    /// Whenever some session answers to `recipient`, a message to it has a
    /// destination: [`MeshView::route`] picks one.
    pub proof fn lemma_route_exists(self, ws: Seq<char>, recipient: Seq<char>)
        requires
            self.has_route(ws, recipient),
        ensures
            self.is_route(ws, recipient, self.route(ws, recipient)),
    {
        let j = choose|j: int| self.answers_to(ws, recipient, j);
        let b = self.lemma_route_upto(ws, recipient, self.agents.len() as int);
        assert(self.is_route(ws, recipient, b));
    }

    pub proof fn lemma_route_unique(self, ws: Seq<char>, recipient: Seq<char>, i: int, k: int)
        requires
            self.is_route(ws, recipient, i),
            self.is_route(ws, recipient, k),
        ensures
            i == k,
    {
        assert(self.answers_to(ws, recipient, i));
        assert(self.answers_to(ws, recipient, k));
    }

    /// A message from `agent_id`: to the session that answers to
    /// `recipient`, or to the whole workspace when `recipient` is `*`.
    pub open spec fn send(
        self,
        agent_id: Seq<char>,
        body: Seq<char>,
        recipient: Seq<char>,
        correlation_id: Option<Seq<char>>,
        now: i64,
    ) -> Result<(MeshView, SentMessageView), MeshError> {
        if !self.has_agent(agent_id) {
            Err(MeshError::AgentNotFound)
        } else {
            let ws = self.agent(agent_id).workspace_id;
            if recipient != "*"@ && !self.has_route(ws, recipient) {
                Err(MeshError::RecipientNotFound)
            } else if self.last_message_id == i64::MAX {
                Err(MeshError::IdentifiersExhausted)
            } else if self.last_sequence == i64::MAX {
                Err(MeshError::JournalFull)
            } else {
                let target: Option<Seq<char>> = if recipient == "*"@ {
                    None
                } else {
                    Some(self.agents[self.route(ws, recipient)].id)
                };
                let routed = match target {
                    Some(t) => t,
                    None => "*"@,
                };
                let id = (self.last_message_id + 1) as i64;
                Ok(
                    (
                        MeshView {
                            messages: self.messages.push(
                                MessageView {
                                    id,
                                    workspace_id: ws,
                                    sender_id: agent_id,
                                    recipient_id: target,
                                    body,
                                    correlation_id,
                                    created_at: now,
                                },
                            ),
                            last_message_id: id,
                            ..self
                        }.journal(
                            ws,
                            Some(agent_id),
                            "message.sent"@,
                            Some(decimal(id as nat)),
                            recipient_data(routed),
                            now,
                        ),
                        SentMessageView { message_id: id, recipient: routed },
                    ),
                )
            }
        }
    }
}

impl Mesh {
    /// Finds the session a message to `recipient` in `ws` goes to.
    pub fn find_route(&self, ws: &str, recipient: &str) -> (r: Option<usize>)
        requires
            self@.wf(),
        ensures
            match r {
                Some(i) => self@.has_route(ws@, recipient@) && self@.route(ws@, recipient@) == i
                    && i < self@.agents.len(),
                None => !self@.has_route(ws@, recipient@),
            },
    {
        let mut best: Option<usize> = None;
        let mut i: usize = 0;
        while i < self.agents.len()
            invariant
                i <= self.agents.len(),
                match best {
                    Some(b) => b < i && self@.answers_to(ws@, recipient@, b as int) && forall|j: int|
                        0 <= j < i && #[trigger] self@.answers_to(ws@, recipient@, j)
                            ==> self@.agents[j].heartbeat_at <= self@.agents[b as int].heartbeat_at
                            && (j < b ==> self@.agents[j].heartbeat_at
                            < self@.agents[b as int].heartbeat_at),
                    None => forall|j: int| 0 <= j < i ==> !#[trigger] self@.answers_to(ws@, recipient@, j),
                },
            decreases self.agents.len() - i,
        {
            let a = &self.agents[i];
            let fits = same_text(a.workspace_id.as_str(), ws) && (same_text(a.id.as_str(), recipient)
                || same_text(a.name.as_str(), recipient)) && a.status == AgentStatus::Running;
            assert(fits == self@.answers_to(ws@, recipient@, i as int));
            if fits {
                match best {
                    Some(b) => {
                        if self.agents[b].heartbeat_at < a.heartbeat_at {
                            best = Some(i);
                        }
                    },
                    None => {
                        best = Some(i);
                    },
                }
            }
            i += 1;
        }
        match best {
            Some(b) => {
                proof {
                    assert forall|j: int| #[trigger] self@.answers_to(ws@, recipient@, j) implies self@.agents[j].heartbeat_at
                        <= self@.agents[b as int].heartbeat_at && (j < b ==> self@.agents[j].heartbeat_at
                        < self@.agents[b as int].heartbeat_at) by {}
                    assert(self@.is_route(ws@, recipient@, b as int));
                    let c = self@.route(ws@, recipient@);
                    self@.lemma_route_unique(ws@, recipient@, b as int, c);
                }
                Some(b)
            },
            None => None,
        }
    }

    /// Sends a message; see [`MeshView::send`].
    pub fn send(
        &mut self,
        agent_id: &str,
        body: &str,
        recipient: &str,
        correlation_id: Option<&str>,
        now: i64,
    ) -> (r: Result<SentMessage, MeshError>)
        requires
            old(self)@.wf(),
        ensures
            final(self)@.wf(),
            old(self)@.send(agent_id@, body@, recipient@, borrowed_opt_text(correlation_id), now)
                == match r {
                Ok(o) => Ok((final(self)@, o@)),
                Err(e) => Err(e),
            },
            r is Err ==> final(self)@ == old(self)@,
    {
        let ai = match self.find_agent(agent_id) {
            Some(i) => i,
            None => return Err(MeshError::AgentNotFound),
        };
        let ws = self.agents[ai].workspace_id.clone();
        let broadcast = same_text(recipient, "*");
        let target: Option<String> = if broadcast {
            None
        } else {
            match self.find_route(ws.as_str(), recipient) {
                Some(t) => Some(self.agents[t].id.clone()),
                None => return Err(MeshError::RecipientNotFound),
            }
        };
        if self.last_message_id == i64::MAX {
            return Err(MeshError::IdentifiersExhausted);
        }
        if self.last_sequence == i64::MAX {
            return Err(MeshError::JournalFull);
        }
        let ghost before = self@;
        let id = self.last_message_id + 1;
        let routed = match &target {
            Some(t) => t.clone(),
            None => String::from_str("*"),
        };
        let message = MessageRecord {
            id,
            workspace_id: ws.clone(),
            sender_id: agent_id.to_owned(),
            recipient_id: target,
            body: body.to_owned(),
            correlation_id: own_opt_text(correlation_id),
            created_at: now,
        };
        let ghost mv = message@;
        self.messages.push(message);
        self.last_message_id = id;
        assert(self@.messages =~= before.messages.push(mv));
        let ghost mid = self@;
        proof {
            assert forall|k: int| 0 <= k < mid.messages.len() implies mid.has_agent(
                #[trigger] mid.messages[k].sender_id,
            ) by {
                if k < before.messages.len() {
                    assert(mid.messages[k] == before.messages[k]);
                    assert(before.has_agent(before.messages[k].sender_id));
                } else {
                    assert(mid.agents[ai as int].id == agent_id@);
                }
            }
            assert forall|k: int| 0 <= k < mid.claims.len() implies mid.has_agent(
                #[trigger] mid.claims[k].agent_id,
            ) by {
                assert(before.has_agent(before.claims[k].agent_id));
            }
            assert forall|k: int| 0 <= k < mid.agents.len() implies mid.has_workspace(
                #[trigger] mid.agents[k].workspace_id,
            ) by {
                assert(before.has_workspace(before.agents[k].workspace_id));
            }
            assert forall|k1: int, k2: int|
                0 <= k1 < k2 < mid.messages.len() implies #[trigger] mid.messages[k1].id
                < #[trigger] mid.messages[k2].id by {
                if k2 == before.messages.len() {
                    assert(mid.messages[k1] == before.messages[k1]);
                }
            }
            assert(mid.wf());
            mid.lemma_journal_wf(ws@, Some(agent_id@), "message.sent"@, Some(decimal(id as nat)), recipient_data(routed@), now);
        }
        let subject = decimal_text(id as u64);
        let data = encode_recipient_data(routed.as_str());
        self.append_event(ws, Some(agent_id.to_owned()), String::from_str("message.sent"), Some(subject), data, now);
        Ok(SentMessage { message_id: id, recipient: routed })
    }
}

/// One message as seen from an inbox.
#[derive(Debug)]
pub struct InboxEntry {
    pub id: i64,
    pub body: String,
    pub correlation_id: Option<String>,
    pub created_at: i64,
    pub recipient_id: Option<String>,
    pub sender_id: String,
    pub sender_name: String,
    pub acknowledged_at: Option<i64>,
}

pub struct InboxEntryView {
    pub id: i64,
    pub body: Seq<char>,
    pub correlation_id: Option<Seq<char>>,
    pub created_at: i64,
    pub recipient_id: Option<Seq<char>>,
    pub sender_id: Seq<char>,
    pub sender_name: Seq<char>,
    pub acknowledged_at: Option<i64>,
}

impl View for InboxEntry {
    type V = InboxEntryView;

    open spec fn view(&self) -> InboxEntryView {
        InboxEntryView {
            id: self.id,
            body: self.body@,
            correlation_id: opt_text(self.correlation_id),
            created_at: self.created_at,
            recipient_id: opt_text(self.recipient_id),
            sender_id: self.sender_id@,
            sender_name: self.sender_name@,
            acknowledged_at: self.acknowledged_at,
        }
    }
}

pub open spec fn inbox_view(v: Seq<InboxEntry>) -> Seq<InboxEntryView> {
    v.map_values(|e: InboxEntry| e@)
}

impl MeshView {
    pub open spec fn has_receipt(self, message_id: i64, agent_id: Seq<char>) -> bool {
        exists|r: int|
            0 <= r < self.receipts.len() && self.receipts[r].message_id == message_id
                && self.receipts[r].agent_id == agent_id
    }

    pub open spec fn receipt_index(self, message_id: i64, agent_id: Seq<char>) -> int {
        choose|r: int|
            0 <= r < self.receipts.len() && self.receipts[r].message_id == message_id
                && self.receipts[r].agent_id == agent_id
    }

    /// When `agent_id` acknowledged the message, if it did.
    pub open spec fn acknowledged_at(self, message_id: i64, agent_id: Seq<char>) -> Option<i64> {
        if self.has_receipt(message_id, agent_id) {
            Some(self.receipts[self.receipt_index(message_id, agent_id)].acknowledged_at)
        } else {
            None
        }
    }

    /// Whether message `m` belongs in the inbox of agent `a`: in its
    /// workspace, not its own, and either addressed to it or broadcast no
    /// earlier than it joined; with `unread_only`, not yet acknowledged by it.
    pub open spec fn in_inbox(self, a: AgentView, m: MessageView, unread_only: bool) -> bool {
        &&& m.workspace_id == a.workspace_id
        &&& m.sender_id != a.id
        &&& (m.recipient_id == Some(a.id) || (m.recipient_id is None && m.created_at >= a.started_at))
        &&& (unread_only ==> !self.has_receipt(m.id, a.id))
    }

    pub open spec fn inbox_selects(self, a: AgentView, unread_only: bool) -> spec_fn(int) -> bool {
        |p: int| self.in_inbox(a, self.messages[p], unread_only)
    }

    /// Positions of the inbox messages of `a`, in table order.
    pub open spec fn inbox_candidates(self, a: AgentView, unread_only: bool) -> Seq<int> {
        crate::agents::positions(self.messages.len()).filter(self.inbox_selects(a, unread_only))
    }

    /// Inbox order: oldest first, then by id.
    pub open spec fn inbox_key(self, p: int) -> RankKey {
        RankKey {
            primary: self.messages[p].created_at as i128,
            secondary: self.messages[p].id as i128,
            tertiary: 0,
        }
    }

    pub open spec fn inbox_keys(self, candidates: Seq<int>) -> Seq<RankKey> {
        candidates.map_values(|p: int| self.inbox_key(p))
    }

    pub open spec fn inbox_entry(self, a: AgentView, p: int) -> InboxEntryView {
        let m = self.messages[p];
        InboxEntryView {
            id: m.id,
            body: m.body,
            correlation_id: m.correlation_id,
            created_at: m.created_at,
            recipient_id: m.recipient_id,
            sender_id: m.sender_id,
            sender_name: self.agent(m.sender_id).name,
            acknowledged_at: self.acknowledged_at(m.id, a.id),
        }
    }

    /// `out` is the inbox of `agent_id`: its first `limit` inbox messages in
    /// inbox order.
    pub open spec fn is_inbox(
        self,
        agent_id: Seq<char>,
        unread_only: bool,
        limit: nat,
        out: Seq<InboxEntryView>,
    ) -> bool {
        let a = self.agent(agent_id);
        let candidates = self.inbox_candidates(a, unread_only);
        exists|r: Seq<int>|
            #[trigger] is_top_ranked(self.inbox_keys(candidates), limit, r) && out.len() == r.len()
                && forall|k: int| 0 <= k < r.len() ==> #[trigger] out[k] == self.inbox_entry(a, candidates[r[k]])
    }

    pub proof fn lemma_receipt_index(self, message_id: i64, agent_id: Seq<char>, i: int)
        requires
            self.wf(),
            0 <= i < self.receipts.len(),
            self.receipts[i].message_id == message_id,
            self.receipts[i].agent_id == agent_id,
        ensures
            self.receipt_index(message_id, agent_id) == i,
            self.has_receipt(message_id, agent_id),
    {
        let j = self.receipt_index(message_id, agent_id);
        assert(self.receipts[j].message_id == message_id && self.receipts[j].agent_id == agent_id);
        if j < i {
            assert(!(self.receipts[j].message_id == self.receipts[i].message_id
                && self.receipts[j].agent_id == self.receipts[i].agent_id));
        } else if i < j {
            assert(!(self.receipts[i].message_id == self.receipts[j].message_id
                && self.receipts[i].agent_id == self.receipts[j].agent_id));
        }
    }
}

impl Mesh {
    /// Finds the receipt of `agent_id` for a message.
    pub fn find_receipt(&self, message_id: i64, agent_id: &str) -> (r: Option<usize>)
        requires
            self@.wf(),
        ensures
            match r {
                Some(i) => i < self@.receipts.len() && self@.has_receipt(message_id, agent_id@)
                    && self@.receipt_index(message_id, agent_id@) == i,
                None => !self@.has_receipt(message_id, agent_id@),
            },
    {
        let mut i: usize = 0;
        while i < self.receipts.len()
            invariant
                i <= self.receipts.len(),
                self@.wf(),
                forall|j: int|
                    0 <= j < i ==> !(self@.receipts[j].message_id == message_id
                        && self@.receipts[j].agent_id == agent_id@),
            decreases self.receipts.len() - i,
        {
            if self.receipts[i].message_id == message_id && same_text(
                self.receipts[i].agent_id.as_str(),
                agent_id,
            ) {
                proof {
                    self@.lemma_receipt_index(message_id, agent_id@, i as int);
                }
                return Some(i);
            }
            i += 1;
        }
        None
    }

    /// When `agent_id` acknowledged a message, if it did.
    pub fn acknowledged_at(&self, message_id: i64, agent_id: &str) -> (r: Option<i64>)
        requires
            self@.wf(),
        ensures
            r == self@.acknowledged_at(message_id, agent_id@),
    {
        match self.find_receipt(message_id, agent_id) {
            Some(i) => Some(self.receipts[i].acknowledged_at),
            None => None,
        }
    }

    /// Whether the message at `p` belongs in the inbox of the agent at `ai`.
    fn in_inbox(&self, ai: usize, p: usize, unread_only: bool) -> (b: bool)
        requires
            self@.wf(),
            ai < self@.agents.len(),
            p < self@.messages.len(),
        ensures
            b == self@.in_inbox(self@.agents[ai as int], self@.messages[p as int], unread_only),
    {
        let a = &self.agents[ai];
        let m = &self.messages[p];
        if !same_text(m.workspace_id.as_str(), a.workspace_id.as_str()) {
            return false;
        }
        if same_text(m.sender_id.as_str(), a.id.as_str()) {
            return false;
        }
        let addressed = match &m.recipient_id {
            Some(r) => same_text(r.as_str(), a.id.as_str()),
            None => m.created_at >= a.started_at,
        };
        if !addressed {
            return false;
        }
        if unread_only {
            return self.find_receipt(m.id, a.id.as_str()).is_none();
        }
        true
    }

    /// The inbox of `agent_id`; see [`MeshView::is_inbox`].
    pub fn inbox(&self, agent_id: &str, unread_only: bool, limit: u32) -> (r: Result<
        Vec<InboxEntry>,
        MeshError,
    >)
        requires
            self@.wf(),
        ensures
            match r {
                Ok(v) => self@.has_agent(agent_id@) && self@.is_inbox(
                    agent_id@,
                    unread_only,
                    limit as nat,
                    inbox_view(v@),
                ),
                Err(e) => e == MeshError::AgentNotFound && !self@.has_agent(agent_id@),
            },
    {
        let ai = match self.find_agent(agent_id) {
            Some(i) => i,
            None => return Err(MeshError::AgentNotFound),
        };
        let ghost a = self@.agents[ai as int];
        let ghost all = crate::agents::positions(self@.messages.len());
        let ghost pred = self@.inbox_selects(a, unread_only);
        let mut candidates: Vec<usize> = Vec::new();
        let mut keys: Vec<RankKey> = Vec::new();
        let mut p: usize = 0;
        while p < self.messages.len()
            invariant
                p <= self.messages.len(),
                self@.wf(),
                ai < self@.agents.len(),
                a == self@.agents[ai as int],
                all == crate::agents::positions(self@.messages.len()),
                pred == self@.inbox_selects(a, unread_only),
                as_ints(candidates@) == all.take(p as int).filter(pred),
                keys@ == self@.inbox_keys(as_ints(candidates@)),
                forall|k: int| 0 <= k < candidates@.len() ==> (#[trigger] candidates@[k] as int) < p,
            decreases self.messages.len() - p,
        {
            proof {
                crate::seqs::lemma_filter_take_step(all, pred, p as int);
            }
            if self.in_inbox(ai, p, unread_only) {
                let ghost before_c = as_ints(candidates@);
                let ghost before_k = keys@;
                candidates.push(p);
                keys.push(
                    RankKey {
                        primary: self.messages[p].created_at as i128,
                        secondary: self.messages[p].id as i128,
                        tertiary: 0,
                    },
                );
                assert(as_ints(candidates@) =~= before_c.push(p as int));
                assert(keys@ =~= self@.inbox_keys(as_ints(candidates@)));
            }
            p += 1;
        }
        assert(all.take(self.messages.len() as int) =~= all);
        let ghost cands = as_ints(candidates@);
        assert(cands == self@.inbox_candidates(a, unread_only));
        let order = top_ranked(&keys, limit as usize);
        let mut out: Vec<InboxEntry> = Vec::new();
        let mut k: usize = 0;
        while k < order.len()
            invariant
                k <= order@.len(),
                self@.wf(),
                ai < self@.agents.len(),
                a == self@.agents[ai as int],
                cands == as_ints(candidates@),
                a.id == agent_id@,
                is_top_ranked(keys@, limit as nat, as_ints(order@)),
                keys@.len() == candidates@.len(),
                forall|x: int| 0 <= x < candidates@.len() ==> (#[trigger] candidates@[x] as int) < self@.messages.len(),
                out@.len() == k,
                forall|x: int| 0 <= x < k ==> #[trigger] inbox_view(out@)[x] == self@.inbox_entry(a, cands[as_ints(order@)[x]]),
            decreases order@.len() - k,
        {
            let ghost ok = as_ints(order@)[k as int];
            assert(0 <= ok < keys@.len());
            let p = candidates[order[k]];
            let m = &self.messages[p];
            let sender = match self.find_agent(m.sender_id.as_str()) {
                Some(s) => s,
                None => {
                    proof {
                        assert(self@.has_agent(self@.messages[p as int].sender_id));
                    }
                    return Err(MeshError::AgentNotFound);
                },
            };
            let entry = InboxEntry {
                id: m.id,
                body: m.body.clone(),
                correlation_id: copy_opt_text(&m.correlation_id),
                created_at: m.created_at,
                recipient_id: copy_opt_text(&m.recipient_id),
                sender_id: m.sender_id.clone(),
                sender_name: self.agents[sender].name.clone(),
                acknowledged_at: self.acknowledged_at(m.id, agent_id),
            };
            proof {
                assert(order@[k as int] as int == ok);
                assert(p as int == cands[ok]);
                assert(a.id == agent_id@);
                assert(self@.messages[p as int] == self.messages@[p as int]@);
                assert(self@.agent(self@.messages[p as int].sender_id) == self@.agents[sender as int]);
                assert(entry@ == self@.inbox_entry(a, cands[ok]));
            }
            let ghost before = inbox_view(out@);
            out.push(entry);
            assert(inbox_view(out@) =~= before.push(self@.inbox_entry(a, cands[ok])));
            k += 1;
        }
        proof {
            let r = as_ints(order@);
            assert(is_top_ranked(self@.inbox_keys(self@.inbox_candidates(a, unread_only)), limit as nat, r));
            assert(forall|x: int| 0 <= x < r.len() ==> #[trigger] inbox_view(out@)[x] == self@.inbox_entry(a, self@.inbox_candidates(a, unread_only)[r[x]]));
            assert(self@.agent(agent_id@) == a);
        }
        Ok(out)
    }
}

impl MeshView {
    /// Whether agent `a` may acknowledge message `message_id`: it is in its
    /// workspace and addressed to it or broadcast.
    pub open spec fn ack_visible(self, a: AgentView, message_id: i64) -> bool {
        exists|m: int|
            0 <= m < self.messages.len() && #[trigger] self.messages[m].id == message_id
                && self.messages[m].workspace_id == a.workspace_id && (self.messages[m].recipient_id
                == Some(a.id) || self.messages[m].recipient_id is None)
    }

    /// The receipts after `a` acknowledges `ids` in order; a message already
    /// acknowledged by `a` keeps its first receipt.
    pub open spec fn ack_receipts(self, a: AgentView, ids: Seq<i64>, now: i64) -> Seq<ReceiptView>
        decreases ids.len(),
    {
        if ids.len() == 0 {
            self.receipts
        } else {
            let prev = self.ack_receipts(a, ids.drop_last(), now);
            let mid = ids.last();
            if self.ack_visible(a, mid) && !receipt_in(prev, mid, a.id) {
                prev.push(ReceiptView { message_id: mid, agent_id: a.id, acknowledged_at: now })
            } else {
                prev
            }
        }
    }

    /// How many of `ids` (counting repeats) `a` may acknowledge.
    pub open spec fn ack_count(self, a: AgentView, ids: Seq<i64>) -> nat
        decreases ids.len(),
    {
        if ids.len() == 0 {
            0
        } else {
            self.ack_count(a, ids.drop_last()) + if self.ack_visible(a, ids.last()) {
                1nat
            } else {
                0nat
            }
        }
    }

    /// Acknowledgement of `ids` by `agent_id`; the answer counts the ids the
    /// agent may acknowledge.  An empty list is answered with zero at once.
    pub open spec fn acknowledge(self, agent_id: Seq<char>, ids: Seq<i64>, now: i64) -> Result<
        (MeshView, nat),
        MeshError,
    > {
        if ids.len() == 0 {
            Ok((self, 0))
        } else if !self.has_agent(agent_id) {
            Err(MeshError::AgentNotFound)
        } else {
            let a = self.agent(agent_id);
            Ok((MeshView { receipts: self.ack_receipts(a, ids, now), ..self }, self.ack_count(a, ids)))
        }
    }
}

impl MeshView {
    /// Acknowledging adds receipts of the acknowledging agent only: one for
    /// each listed message it may acknowledge.
    pub proof fn lemma_ack_receipts(
        self,
        a: AgentView,
        ids: Seq<i64>,
        now: i64,
        message_id: i64,
        agent_id: Seq<char>,
    )
        ensures
            receipt_in(self.ack_receipts(a, ids, now), message_id, agent_id) == (receipt_in(
                self.receipts,
                message_id,
                agent_id,
            ) || (agent_id == a.id && ids.contains(message_id) && self.ack_visible(a, message_id))),
        decreases ids.len(),
    {
        if ids.len() > 0 {
            self.lemma_ack_receipts(a, ids.drop_last(), now, message_id, agent_id);
            let prev = self.ack_receipts(a, ids.drop_last(), now);
            let mid = ids.last();
            assert(ids =~= ids.drop_last().push(mid));
            assert(ids.contains(message_id) == (ids.drop_last().contains(message_id) || mid
                == message_id)) by {
                if ids.contains(message_id) {
                    let k = choose|k: int| 0 <= k < ids.len() && ids[k] == message_id;
                    if k < ids.len() - 1 {
                        assert(ids.drop_last()[k] == message_id);
                    }
                }
                if ids.drop_last().contains(message_id) {
                    let k = choose|k: int|
                        0 <= k < ids.drop_last().len() && ids.drop_last()[k] == message_id;
                    assert(ids[k] == message_id);
                }
            }
            if self.ack_visible(a, mid) && !receipt_in(prev, mid, a.id) {
                let r = ReceiptView { message_id: mid, agent_id: a.id, acknowledged_at: now };
                let next = prev.push(r);
                if receipt_in(next, message_id, agent_id) {
                    let k = choose|k: int|
                        0 <= k < next.len() && next[k].message_id == message_id && next[k].agent_id
                            == agent_id;
                    if k < prev.len() {
                        assert(prev[k] == next[k]);
                    }
                }
                if receipt_in(prev, message_id, agent_id) {
                    let k = choose|k: int|
                        0 <= k < prev.len() && prev[k].message_id == message_id && prev[k].agent_id
                            == agent_id;
                    assert(next[k] == prev[k]);
                }
                if agent_id == a.id && mid == message_id {
                    assert(next[prev.len() as int] == r);
                }
            }
        }
    }
}

impl MeshView {
    /// Acknowledging ids whose visible messages already have receipts of
    /// the agent adds nothing.
    pub proof fn lemma_ack_receipts_settled(self, a: AgentView, ids: Seq<i64>, now: i64)
        requires
            forall|x: i64|
                #![trigger ids.contains(x)]
                ids.contains(x) && self.ack_visible(a, x) ==> receipt_in(self.receipts, x, a.id),
        ensures
            self.ack_receipts(a, ids, now) == self.receipts,
        decreases ids.len(),
    {
        if ids.len() > 0 {
            let rest = ids.drop_last();
            assert forall|x: i64|
                #![trigger rest.contains(x)]
                rest.contains(x) && self.ack_visible(a, x) implies receipt_in(self.receipts, x, a.id) by {
                crate::seqs::lemma_contains_last(ids, x);
            }
            self.lemma_ack_receipts_settled(a, rest, now);
            crate::seqs::lemma_contains_last(ids, ids.last());
        }
    }

    /// The count of an acknowledgement depends on the messages alone.
    pub proof fn lemma_ack_count_same_messages(self, other: MeshView, a: AgentView, ids: Seq<i64>)
        requires
            other.messages == self.messages,
        ensures
            other.ack_count(a, ids) == self.ack_count(a, ids),
        decreases ids.len(),
    {
        if ids.len() > 0 {
            self.lemma_ack_count_same_messages(other, a, ids.drop_last());
        }
    }
}

pub open spec fn receipt_in(rs: Seq<ReceiptView>, message_id: i64, agent_id: Seq<char>) -> bool {
    exists|r: int| 0 <= r < rs.len() && rs[r].message_id == message_id && rs[r].agent_id == agent_id
}

impl Mesh {
    fn ack_visible(&self, ai: usize, message_id: i64) -> (b: bool)
        requires
            ai < self@.agents.len(),
        ensures
            b == self@.ack_visible(self@.agents[ai as int], message_id),
    {
        let mut m: usize = 0;
        while m < self.messages.len()
            invariant
                m <= self.messages.len(),
                ai < self@.agents.len(),
                forall|x: int|
                    0 <= x < m ==> !(#[trigger] self@.messages[x].id == message_id
                        && self@.messages[x].workspace_id == self@.agents[ai as int].workspace_id
                        && (self@.messages[x].recipient_id == Some(self@.agents[ai as int].id)
                        || self@.messages[x].recipient_id is None)),
            decreases self.messages.len() - m,
        {
            let msg = &self.messages[m];
            let a = &self.agents[ai];
            proof {
                assert(self@.messages[m as int] == msg@);
                assert(self@.agents[ai as int] == a@);
            }
            if msg.id == message_id && same_text(msg.workspace_id.as_str(), a.workspace_id.as_str()) {
                let addressed = match &msg.recipient_id {
                    Some(r) => same_text(r.as_str(), a.id.as_str()),
                    None => true,
                };
                if addressed {
                    assert(self@.messages[m as int].id == message_id);
                    return true;
                }
            }
            m += 1;
        }
        false
    }

    /// Acknowledges `message_ids` for `agent_id`; see
    /// [`MeshView::acknowledge`].
    pub fn acknowledge(&mut self, agent_id: &str, message_ids: &[i64], now: i64) -> (r: Result<
        usize,
        MeshError,
    >)
        requires
            old(self)@.wf(),
        ensures
            final(self)@.wf(),
            old(self)@.acknowledge(agent_id@, message_ids@, now) == match r {
                Ok(n) => Ok((final(self)@, n as nat)),
                Err(e) => Err(e),
            },
            r is Err ==> final(self)@ == old(self)@,
    {
        if message_ids.len() == 0 {
            return Ok(0);
        }
        let ai = match self.find_agent(agent_id) {
            Some(i) => i,
            None => return Err(MeshError::AgentNotFound),
        };
        let ghost start = self@;
        let ghost a = start.agents[ai as int];
        let ids = message_ids;
        let mut count: usize = 0;
        let mut i: usize = 0;
        while i < ids.len()
            invariant
                i <= ids@.len(),
                start.wf(),
                ai < start.agents.len(),
                a == start.agents[ai as int],
                a.id == agent_id@,
                self@.wf(),
                self@ == (MeshView { receipts: start.ack_receipts(a, ids@.take(i as int), now), ..start }),
                count as nat == start.ack_count(a, ids@.take(i as int)),
                count <= i,
            decreases ids@.len() - i,
        {
            proof {
                assert(ids@.take(i + 1).drop_last() =~= ids@.take(i as int));
                assert(ids@.take(i + 1).last() == ids@[i as int]);
            }
            let mid = ids[i];
            let visible = self.ack_visible(ai, mid);
            assert(self@.agents[ai as int] == a);
            if visible {
                count += 1;
                if self.find_receipt(mid, agent_id).is_none() {
                    let ghost before = self@;
                    let receipt = ReceiptRecord {
                        message_id: mid,
                        agent_id: agent_id.to_owned(),
                        acknowledged_at: now,
                    };
                    let ghost rv = receipt@;
                    self.receipts.push(receipt);
                    assert(self@.receipts =~= before.receipts.push(rv));
                    proof {
                        assert(!receipt_in(before.receipts, mid, a.id)) by {
                            if receipt_in(before.receipts, mid, a.id) {
                                let x = choose|x: int| 0 <= x < before.receipts.len()
                                    && before.receipts[x].message_id == mid && before.receipts[x].agent_id == a.id;
                                assert(before.has_receipt(mid, agent_id@));
                            }
                        }
                        assert forall|k1: int, k2: int|
                            0 <= k1 < k2 < self@.receipts.len() implies !(#[trigger] self@.receipts[k1].message_id
                            == #[trigger] self@.receipts[k2].message_id && self@.receipts[k1].agent_id
                            == self@.receipts[k2].agent_id) by {
                            if k2 == before.receipts.len() {
                                assert(self@.receipts[k1] == before.receipts[k1]);
                            }
                        }
                        before.lemma_same_refs(self@);
                    }
                } else {
                    proof {
                        let x = self@.receipt_index(mid, agent_id@);
                        assert(receipt_in(self@.receipts, mid, a.id));
                    }
                }
            } else {
                proof {
                    assert(!start.ack_visible(a, mid));
                }
            }
            i += 1;
        }
        assert(ids@.take(ids@.len() as int) =~= ids@);
        Ok(count)
    }
}

} // verus!
