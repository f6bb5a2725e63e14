//! The coordination tables of one mesh, their invariant, and lookups.
use vstd::prelude::*;

use crate::records::{
    opt_text, AgentRecord, AgentView, ClaimRecord, ClaimView, EventRecord, EventView, MemoryRecord,
    MemoryView, MessageRecord, MessageView, ReceiptRecord, ReceiptView, WorkspaceRecord,
    WorkspaceView,
};
use crate::text::same_text;

verus! {

/// Why an operation on the mesh was refused.
#[derive(Clone, Copy, PartialEq, Eq, Structural, Debug)]
pub enum MeshError {
    /// No agent session has the given id.
    AgentNotFound,
    /// An agent session with the requested id already exists.
    AgentAlreadyRegistered,
    /// The workspace id of the root belongs to no stored workspace.
    WorkspaceConflict,
    /// No running agent in the workspace answers to the recipient.
    RecipientNotFound,
    /// A lease of zero seconds was requested.
    LeaseNotPositive,
    /// The lease in seconds does not fit a signed 64-bit integer.
    LeaseOutOfRange,
    /// The lease would end after the largest representable time.
    LeaseTooLong,
    /// A table ran out of identifiers.
    IdentifiersExhausted,
    /// The event journal ran out of sequence numbers.
    JournalFull,
    /// The full-text search engine failed.
    SearchFailed,
    /// The system clock reads a time before the Unix epoch.
    ClockBeforeEpoch,
    /// The system clock reads a time that does not fit in milliseconds as `i64`.
    ClockOverflow,
    /// A supervised session asked for heartbeats more often than every ten
    /// milliseconds.
    HeartbeatTooFrequent,
    /// The staleness window does not fit in milliseconds as `i64`.
    StaleWindowTooLarge,
    /// A wait longer than sixty seconds was requested.
    TimeoutTooLong,
    /// A poll interval outside 10 ms ..= 5 s was requested.
    PollIntervalOutOfRange,
    /// Stored rows break the invariant of the tables.
    InconsistentTables,
}

pub open spec fn workspaces_view(v: Seq<WorkspaceRecord>) -> Seq<WorkspaceView> {
    v.map_values(|r: WorkspaceRecord| r@)
}

pub open spec fn agents_view(v: Seq<AgentRecord>) -> Seq<AgentView> {
    v.map_values(|r: AgentRecord| r@)
}

pub open spec fn memories_view(v: Seq<MemoryRecord>) -> Seq<MemoryView> {
    v.map_values(|r: MemoryRecord| r@)
}

pub open spec fn messages_view(v: Seq<MessageRecord>) -> Seq<MessageView> {
    v.map_values(|r: MessageRecord| r@)
}

pub open spec fn receipts_view(v: Seq<ReceiptRecord>) -> Seq<ReceiptView> {
    v.map_values(|r: ReceiptRecord| r@)
}

pub open spec fn claims_view(v: Seq<ClaimRecord>) -> Seq<ClaimView> {
    v.map_values(|r: ClaimRecord| r@)
}

pub open spec fn events_view(v: Seq<EventRecord>) -> Seq<EventView> {
    v.map_values(|r: EventRecord| r@)
}

/// All coordination state of one database: its tables in row order, and
/// the largest identifier ever handed out by each counted table.
#[derive(Debug)]
pub struct Mesh {
    pub workspaces: Vec<WorkspaceRecord>,
    pub agents: Vec<AgentRecord>,
    pub memories: Vec<MemoryRecord>,
    pub messages: Vec<MessageRecord>,
    pub receipts: Vec<ReceiptRecord>,
    pub claims: Vec<ClaimRecord>,
    pub events: Vec<EventRecord>,
    pub last_memory_id: i64,
    pub last_message_id: i64,
    pub last_sequence: i64,
}

#[verifier::ext_equal]
pub struct MeshView {
    pub workspaces: Seq<WorkspaceView>,
    pub agents: Seq<AgentView>,
    pub memories: Seq<MemoryView>,
    pub messages: Seq<MessageView>,
    pub receipts: Seq<ReceiptView>,
    pub claims: Seq<ClaimView>,
    pub events: Seq<EventView>,
    pub last_memory_id: i64,
    pub last_message_id: i64,
    pub last_sequence: i64,
}

impl View for Mesh {
    type V = MeshView;

    open spec fn view(&self) -> MeshView {
        MeshView {
            workspaces: workspaces_view(self.workspaces@),
            agents: agents_view(self.agents@),
            memories: memories_view(self.memories@),
            messages: messages_view(self.messages@),
            receipts: receipts_view(self.receipts@),
            claims: claims_view(self.claims@),
            events: events_view(self.events@),
            last_memory_id: self.last_memory_id,
            last_message_id: self.last_message_id,
            last_sequence: self.last_sequence,
        }
    }
}

impl MeshView {
    pub open spec fn has_workspace(self, id: Seq<char>) -> bool {
        exists|i: int| 0 <= i < self.workspaces.len() && self.workspaces[i].id == id
    }

    pub open spec fn has_agent(self, id: Seq<char>) -> bool {
        exists|i: int| 0 <= i < self.agents.len() && self.agents[i].id == id
    }

    /// Position of the agent with the given id.
    pub open spec fn agent_index(self, id: Seq<char>) -> int {
        choose|i: int| 0 <= i < self.agents.len() && self.agents[i].id == id
    }

    pub open spec fn agent(self, id: Seq<char>) -> AgentView {
        self.agents[self.agent_index(id)]
    }

    pub open spec fn has_claim(self, workspace_id: Seq<char>, task_key: Seq<char>) -> bool {
        exists|i: int|
            0 <= i < self.claims.len() && self.claims[i].workspace_id == workspace_id
                && self.claims[i].task_key == task_key
    }

    /// Position of the claim on a task of a workspace.
    pub open spec fn claim_index(self, workspace_id: Seq<char>, task_key: Seq<char>) -> int {
        choose|i: int|
            0 <= i < self.claims.len() && self.claims[i].workspace_id == workspace_id
                && self.claims[i].task_key == task_key
    }

    /// The invariant of the tables: keys are unique, every row refers to
    /// stored rows, and counted identifiers grow along each table.
    pub open spec fn wf(self) -> bool {
        &&& 0 <= self.last_memory_id
        &&& 0 <= self.last_message_id
        &&& 0 <= self.last_sequence
        &&& forall|i: int, j: int|
            #![trigger self.workspaces[i], self.workspaces[j]]
            0 <= i < j < self.workspaces.len() ==> self.workspaces[i].id != self.workspaces[j].id
                && self.workspaces[i].root != self.workspaces[j].root
        &&& forall|i: int, j: int|
            #![trigger self.agents[i], self.agents[j]]
            0 <= i < j < self.agents.len() ==> self.agents[i].id != self.agents[j].id
        &&& forall|i: int|
            0 <= i < self.agents.len() ==> self.has_workspace(#[trigger] self.agents[i].workspace_id)
        &&& forall|i: int, j: int|
            #![trigger self.claims[i], self.claims[j]]
            0 <= i < j < self.claims.len() ==> !(self.claims[i].workspace_id
                == self.claims[j].workspace_id && self.claims[i].task_key == self.claims[j].task_key)
        &&& forall|i: int| 0 <= i < self.claims.len() ==> self.has_agent(#[trigger] self.claims[i].agent_id)
        &&& forall|i: int|
            0 <= i < self.messages.len() ==> self.has_agent(#[trigger] self.messages[i].sender_id)
        &&& forall|i: int, j: int|
            #![trigger self.messages[i], self.messages[j]]
            0 <= i < j < self.messages.len() ==> self.messages[i].id < self.messages[j].id
        &&& forall|i: int|
            0 <= i < self.messages.len() ==> #[trigger] self.messages[i].id <= self.last_message_id
        &&& forall|i: int, j: int|
            #![trigger self.memories[i], self.memories[j]]
            0 <= i < j < self.memories.len() ==> self.memories[i].id < self.memories[j].id
        &&& forall|i: int|
            0 <= i < self.memories.len() ==> #[trigger] self.memories[i].id <= self.last_memory_id
        &&& forall|i: int, j: int|
            #![trigger self.events[i], self.events[j]]
            0 <= i < j < self.events.len() ==> self.events[i].sequence < self.events[j].sequence
        &&& forall|i: int|
            0 <= i < self.events.len() ==> #[trigger] self.events[i].sequence <= self.last_sequence
        &&& forall|i: int, j: int|
            #![trigger self.receipts[i], self.receipts[j]]
            0 <= i < j < self.receipts.len() ==> !(self.receipts[i].message_id
                == self.receipts[j].message_id && self.receipts[i].agent_id
                == self.receipts[j].agent_id)
    }

    /// Appends one event to the journal.
    pub open spec fn journal(
        self,
        workspace_id: Seq<char>,
        agent_id: Option<Seq<char>>,
        event_type: Seq<char>,
        subject: Option<Seq<char>>,
        data_json: Seq<char>,
        now: i64,
    ) -> MeshView {
        MeshView {
            events: self.events.push(
                EventView {
                    sequence: (self.last_sequence + 1) as i64,
                    workspace_id,
                    agent_id,
                    event_type,
                    subject,
                    data_json,
                    created_at: now,
                },
            ),
            last_sequence: (self.last_sequence + 1) as i64,
            ..self
        }
    }

    pub proof fn lemma_agent_index(self, id: Seq<char>, i: int)
        requires
            self.wf(),
            0 <= i < self.agents.len(),
            self.agents[i].id == id,
        ensures
            self.agent_index(id) == i,
            self.has_agent(id),
    {
        let j = self.agent_index(id);
        assert(self.agents[j].id == id);
        if j < i {
            assert(self.agents[j].id != self.agents[i].id);
        } else if i < j {
            assert(self.agents[i].id != self.agents[j].id);
        }
    }

    pub proof fn lemma_claim_index(self, workspace_id: Seq<char>, task_key: Seq<char>, i: int)
        requires
            self.wf(),
            0 <= i < self.claims.len(),
            self.claims[i].workspace_id == workspace_id,
            self.claims[i].task_key == task_key,
        ensures
            self.claim_index(workspace_id, task_key) == i,
            self.has_claim(workspace_id, task_key),
    {
        let j = self.claim_index(workspace_id, task_key);
        assert(self.claims[j].workspace_id == workspace_id && self.claims[j].task_key == task_key);
        if j < i {
            assert(!(self.claims[j].workspace_id == self.claims[i].workspace_id
                && self.claims[j].task_key == self.claims[i].task_key));
        } else if i < j {
            assert(!(self.claims[i].workspace_id == self.claims[j].workspace_id
                && self.claims[i].task_key == self.claims[j].task_key));
        }
    }

    /// Another state with the same workspaces, sessions, claims and messages
    /// has the same references.
    pub proof fn lemma_same_refs(self, other: MeshView)
        requires
            self.wf(),
            other.workspaces == self.workspaces,
            other.agents == self.agents,
            other.claims == self.claims,
            other.messages == self.messages,
        ensures
            forall|i: int|
                0 <= i < other.agents.len() ==> other.has_workspace(#[trigger] other.agents[i].workspace_id),
            forall|i: int| 0 <= i < other.claims.len() ==> other.has_agent(#[trigger] other.claims[i].agent_id),
            forall|i: int|
                0 <= i < other.messages.len() ==> other.has_agent(#[trigger] other.messages[i].sender_id),
            forall|id: Seq<char>| other.has_agent(id) == self.has_agent(id),
    {
        assert forall|i: int| 0 <= i < other.agents.len() implies other.has_workspace(
            #[trigger] other.agents[i].workspace_id,
        ) by {
            assert(self.has_workspace(self.agents[i].workspace_id));
            let k = choose|k: int|
                0 <= k < self.workspaces.len() && self.workspaces[k].id == self.agents[i].workspace_id;
            assert(other.workspaces[k].id == other.agents[i].workspace_id);
        }
        assert forall|i: int| 0 <= i < other.claims.len() implies other.has_agent(
            #[trigger] other.claims[i].agent_id,
        ) by {
            assert(self.has_agent(self.claims[i].agent_id));
            let k = choose|k: int| 0 <= k < self.agents.len() && self.agents[k].id == self.claims[i].agent_id;
            assert(other.agents[k].id == other.claims[i].agent_id);
        }
        assert forall|i: int| 0 <= i < other.messages.len() implies other.has_agent(
            #[trigger] other.messages[i].sender_id,
        ) by {
            assert(self.has_agent(self.messages[i].sender_id));
            let k = choose|k: int| 0 <= k < self.agents.len() && self.agents[k].id == self.messages[i].sender_id;
            assert(other.agents[k].id == other.messages[i].sender_id);
        }
        assert forall|id: Seq<char>| other.has_agent(id) == self.has_agent(id) by {
            if self.has_agent(id) {
                let k = choose|k: int| 0 <= k < self.agents.len() && self.agents[k].id == id;
                assert(other.agents[k].id == id);
            }
            if other.has_agent(id) {
                let k = choose|k: int| 0 <= k < other.agents.len() && other.agents[k].id == id;
                assert(self.agents[k].id == id);
            }
        }
    }

    /// Another state with the same workspaces, sessions and messages keeps
    /// the references of sessions and messages.
    pub proof fn lemma_same_refs_but_claims(self, other: MeshView)
        requires
            self.wf(),
            other.workspaces == self.workspaces,
            other.agents == self.agents,
            other.messages == self.messages,
        ensures
            forall|i: int|
                0 <= i < other.agents.len() ==> other.has_workspace(#[trigger] other.agents[i].workspace_id),
            forall|i: int|
                0 <= i < other.messages.len() ==> other.has_agent(#[trigger] other.messages[i].sender_id),
            forall|id: Seq<char>| other.has_agent(id) == self.has_agent(id),
    {
        let same = MeshView { claims: self.claims, ..other };
        self.lemma_same_refs(same);
        assert forall|id: Seq<char>| other.has_agent(id) == same.has_agent(id) by {}
        assert forall|i: int|
            0 <= i < other.agents.len() implies other.has_workspace(#[trigger] other.agents[i].workspace_id) by {
            assert(same.has_workspace(same.agents[i].workspace_id));
        }
        assert forall|i: int|
            0 <= i < other.messages.len() implies other.has_agent(#[trigger] other.messages[i].sender_id) by {
            assert(same.has_agent(same.messages[i].sender_id));
        }
    }

    /// Appending to the journal keeps the invariant.
    pub proof fn lemma_journal_wf(
        self,
        workspace_id: Seq<char>,
        agent_id: Option<Seq<char>>,
        event_type: Seq<char>,
        subject: Option<Seq<char>>,
        data_json: Seq<char>,
        now: i64,
    )
        requires
            self.wf(),
            self.last_sequence < i64::MAX,
        ensures
            self.journal(workspace_id, agent_id, event_type, subject, data_json, now).wf(),
    {
        let s = self.journal(workspace_id, agent_id, event_type, subject, data_json, now);
        assert forall|i: int| 0 <= i < s.agents.len() implies s.has_workspace(
            #[trigger] s.agents[i].workspace_id,
        ) by {
            assert(self.has_workspace(self.agents[i].workspace_id));
            let k = choose|k: int|
                0 <= k < self.workspaces.len() && self.workspaces[k].id
                    == self.agents[i].workspace_id;
            assert(s.workspaces[k].id == s.agents[i].workspace_id);
        }
        assert forall|i: int| 0 <= i < s.claims.len() implies s.has_agent(
            #[trigger] s.claims[i].agent_id,
        ) by {
            assert(self.has_agent(self.claims[i].agent_id));
            let k = choose|k: int|
                0 <= k < self.agents.len() && self.agents[k].id == self.claims[i].agent_id;
            assert(s.agents[k].id == s.claims[i].agent_id);
        }
        assert forall|i: int| 0 <= i < s.messages.len() implies s.has_agent(
            #[trigger] s.messages[i].sender_id,
        ) by {
            assert(self.has_agent(self.messages[i].sender_id));
            let k = choose|k: int|
                0 <= k < self.agents.len() && self.agents[k].id == self.messages[i].sender_id;
            assert(s.agents[k].id == s.messages[i].sender_id);
        }
    }
}

impl Mesh {
    /// The tables of a new database: all empty.
    pub open spec fn new_spec() -> MeshView {
        MeshView {
            workspaces: Seq::empty(),
            agents: Seq::empty(),
            memories: Seq::empty(),
            messages: Seq::empty(),
            receipts: Seq::empty(),
            claims: Seq::empty(),
            events: Seq::empty(),
            last_memory_id: 0,
            last_message_id: 0,
            last_sequence: 0,
        }
    }

    /// An empty mesh.
    pub fn new() -> (m: Mesh)
        ensures
            m@.wf(),
            m@ == Mesh::new_spec(),
    {
        let m = Mesh {
            workspaces: Vec::new(),
            agents: Vec::new(),
            memories: Vec::new(),
            messages: Vec::new(),
            receipts: Vec::new(),
            claims: Vec::new(),
            events: Vec::new(),
            last_memory_id: 0,
            last_message_id: 0,
            last_sequence: 0,
        };
        assert(m@ =~= Mesh::new_spec());
        m
    }

    /// Finds the agent with the given id.
    pub fn find_agent(&self, id: &str) -> (r: Option<usize>)
        requires
            self@.wf(),
        ensures
            match r {
                Some(i) => i < self@.agents.len() && self@.agents[i as int].id == id@
                    && self@.agent_index(id@) == i && self@.has_agent(id@),
                None => !self@.has_agent(id@),
            },
    {
        let mut i: usize = 0;
        while i < self.agents.len()
            invariant
                i <= self.agents.len(),
                self@.wf(),
                forall|j: int| 0 <= j < i ==> self@.agents[j].id != id@,
            decreases self.agents.len() - i,
        {
            if same_text(self.agents[i].id.as_str(), id) {
                proof {
                    self@.lemma_agent_index(id@, i as int);
                }
                return Some(i);
            }
            i += 1;
        }
        None
    }

    /// Finds the claim on a task of a workspace.
    pub fn find_claim(&self, workspace_id: &str, task_key: &str) -> (r: Option<usize>)
        requires
            self@.wf(),
        ensures
            match r {
                Some(i) => i < self@.claims.len() && self@.claims[i as int].workspace_id
                    == workspace_id@ && self@.claims[i as int].task_key == task_key@
                    && self@.claim_index(workspace_id@, task_key@) == i && self@.has_claim(
                    workspace_id@,
                    task_key@,
                ),
                None => !self@.has_claim(workspace_id@, task_key@),
            },
    {
        let mut i: usize = 0;
        while i < self.claims.len()
            invariant
                i <= self.claims.len(),
                self@.wf(),
                forall|j: int|
                    0 <= j < i ==> !(self@.claims[j].workspace_id == workspace_id@
                        && self@.claims[j].task_key == task_key@),
            decreases self.claims.len() - i,
        {
            if same_text(self.claims[i].workspace_id.as_str(), workspace_id) && same_text(
                self.claims[i].task_key.as_str(),
                task_key,
            ) {
                proof {
                    self@.lemma_claim_index(workspace_id@, task_key@, i as int);
                }
                return Some(i);
            }
            i += 1;
        }
        None
    }

    /// Appends one event to the journal.
    pub fn append_event(
        &mut self,
        workspace_id: String,
        agent_id: Option<String>,
        event_type: String,
        subject: Option<String>,
        data_json: String,
        now: i64,
    )
        requires
            old(self)@.last_sequence < i64::MAX,
        ensures
            final(self)@ == old(self)@.journal(
                workspace_id@,
                opt_text(agent_id),
                event_type@,
                opt_text(subject),
                data_json@,
                now,
            ),
    {
        let sequence = self.last_sequence + 1;
        let ghost before = self@;
        let ghost ev = EventRecord {
            sequence,
            workspace_id,
            agent_id,
            event_type,
            subject,
            data_json,
            created_at: now,
        };
        self.events.push(
            EventRecord {
                sequence,
                workspace_id,
                agent_id,
                event_type,
                subject,
                data_json,
                created_at: now,
            },
        );
        self.last_sequence = sequence;
        assert(self@.events =~= before.events.push(ev@));
        assert(self@ =~= before.journal(
            ev.workspace_id@,
            opt_text(ev.agent_id),
            ev.event_type@,
            opt_text(ev.subject),
            ev.data_json@,
            now,
        ));
    }
}

} // verus!
