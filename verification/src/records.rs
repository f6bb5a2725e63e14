//! Rows of the coordination tables and their mathematical views.
use vstd::prelude::*;

verus! {

/// The view of an optional text field.
pub open spec fn opt_text(o: Option<String>) -> Option<Seq<char>> {
    match o {
        Some(s) => Some(s@),
        None => None,
    }
}

/// Life-cycle state of an agent session.
#[derive(Clone, Copy, PartialEq, Eq, Structural, Debug)]
pub enum AgentStatus {
    Running,
    Stopped,
    Dead,
}

/// A logical project that scopes all coordination state.
#[derive(Debug)]
pub struct WorkspaceRecord {
    pub id: String,
    pub root: String,
    pub created_at: i64,
}

pub struct WorkspaceView {
    pub id: Seq<char>,
    pub root: Seq<char>,
    pub created_at: i64,
}

impl View for WorkspaceRecord {
    type V = WorkspaceView;

    open spec fn view(&self) -> WorkspaceView {
        WorkspaceView { id: self.id@, root: self.root@, created_at: self.created_at }
    }
}

/// One registered agent session: the process behind it, and the checkout
/// and branch it works in.
#[derive(Debug)]
pub struct AgentRecord {
    pub id: String,
    pub workspace_id: String,
    pub checkout: String,
    pub branch: Option<String>,
    pub name: String,
    pub pid: u32,
    pub parent_pid: Option<i64>,
    pub provider: String,
    pub capabilities_json: String,
    pub started_at: i64,
    pub heartbeat_at: i64,
    pub stopped_at: Option<i64>,
    pub status: AgentStatus,
}

pub struct AgentView {
    pub id: Seq<char>,
    pub workspace_id: Seq<char>,
    pub checkout: Seq<char>,
    pub branch: Option<Seq<char>>,
    pub name: Seq<char>,
    pub pid: u32,
    pub parent_pid: Option<i64>,
    pub provider: Seq<char>,
    pub capabilities_json: Seq<char>,
    pub started_at: i64,
    pub heartbeat_at: i64,
    pub stopped_at: Option<i64>,
    pub status: AgentStatus,
}

impl View for AgentRecord {
    type V = AgentView;

    open spec fn view(&self) -> AgentView {
        AgentView {
            id: self.id@,
            workspace_id: self.workspace_id@,
            checkout: self.checkout@,
            branch: opt_text(self.branch),
            name: self.name@,
            pid: self.pid,
            parent_pid: self.parent_pid,
            provider: self.provider@,
            capabilities_json: self.capabilities_json@,
            started_at: self.started_at,
            heartbeat_at: self.heartbeat_at,
            stopped_at: self.stopped_at,
            status: self.status,
        }
    }
}

/// An append-only memory.  `importance` is an order key: a larger key
/// means a more important memory.
#[derive(Debug)]
pub struct MemoryRecord {
    pub id: i64,
    pub workspace_id: String,
    pub agent_id: Option<String>,
    pub kind: String,
    pub key: Option<String>,
    pub content: String,
    pub importance: u64,
    pub created_at: i64,
}

pub struct MemoryView {
    pub id: i64,
    pub workspace_id: Seq<char>,
    pub agent_id: Option<Seq<char>>,
    pub kind: Seq<char>,
    pub key: Option<Seq<char>>,
    pub content: Seq<char>,
    pub importance: u64,
    pub created_at: i64,
}

impl View for MemoryRecord {
    type V = MemoryView;

    open spec fn view(&self) -> MemoryView {
        MemoryView {
            id: self.id,
            workspace_id: self.workspace_id@,
            agent_id: opt_text(self.agent_id),
            kind: self.kind@,
            key: opt_text(self.key),
            content: self.content@,
            importance: self.importance,
            created_at: self.created_at,
        }
    }
}

/// A direct (`recipient_id` set) or broadcast (`recipient_id` empty) message.
#[derive(Debug)]
pub struct MessageRecord {
    pub id: i64,
    pub workspace_id: String,
    pub sender_id: String,
    pub recipient_id: Option<String>,
    pub body: String,
    pub correlation_id: Option<String>,
    pub created_at: i64,
}

pub struct MessageView {
    pub id: i64,
    pub workspace_id: Seq<char>,
    pub sender_id: Seq<char>,
    pub recipient_id: Option<Seq<char>>,
    pub body: Seq<char>,
    pub correlation_id: Option<Seq<char>>,
    pub created_at: i64,
}

impl View for MessageRecord {
    type V = MessageView;

    open spec fn view(&self) -> MessageView {
        MessageView {
            id: self.id,
            workspace_id: self.workspace_id@,
            sender_id: self.sender_id@,
            recipient_id: opt_text(self.recipient_id),
            body: self.body@,
            correlation_id: opt_text(self.correlation_id),
            created_at: self.created_at,
        }
    }
}

/// One agent's acknowledgement of one message.
#[derive(Debug)]
pub struct ReceiptRecord {
    pub message_id: i64,
    pub agent_id: String,
    pub acknowledged_at: i64,
}

pub struct ReceiptView {
    pub message_id: i64,
    pub agent_id: Seq<char>,
    pub acknowledged_at: i64,
}

impl View for ReceiptRecord {
    type V = ReceiptView;

    open spec fn view(&self) -> ReceiptView {
        ReceiptView {
            message_id: self.message_id,
            agent_id: self.agent_id@,
            acknowledged_at: self.acknowledged_at,
        }
    }
}

/// A task lease, unique per workspace and task key.
#[derive(Debug)]
pub struct ClaimRecord {
    pub workspace_id: String,
    pub task_key: String,
    pub detail: Option<String>,
    pub agent_id: String,
    pub claimed_at: i64,
    pub lease_expires_at: i64,
    pub updated_at: i64,
}

pub struct ClaimView {
    pub workspace_id: Seq<char>,
    pub task_key: Seq<char>,
    pub detail: Option<Seq<char>>,
    pub agent_id: Seq<char>,
    pub claimed_at: i64,
    pub lease_expires_at: i64,
    pub updated_at: i64,
}

impl View for ClaimRecord {
    type V = ClaimView;

    open spec fn view(&self) -> ClaimView {
        ClaimView {
            workspace_id: self.workspace_id@,
            task_key: self.task_key@,
            detail: opt_text(self.detail),
            agent_id: self.agent_id@,
            claimed_at: self.claimed_at,
            lease_expires_at: self.lease_expires_at,
            updated_at: self.updated_at,
        }
    }
}

/// One entry of the ordered coordination journal.
#[derive(Debug)]
pub struct EventRecord {
    pub sequence: i64,
    pub workspace_id: String,
    pub agent_id: Option<String>,
    pub event_type: String,
    pub subject: Option<String>,
    pub data_json: String,
    pub created_at: i64,
}

pub struct EventView {
    pub sequence: i64,
    pub workspace_id: Seq<char>,
    pub agent_id: Option<Seq<char>>,
    pub event_type: Seq<char>,
    pub subject: Option<Seq<char>>,
    pub data_json: Seq<char>,
    pub created_at: i64,
}

impl View for EventRecord {
    type V = EventView;

    open spec fn view(&self) -> EventView {
        EventView {
            sequence: self.sequence,
            workspace_id: self.workspace_id@,
            agent_id: opt_text(self.agent_id),
            event_type: self.event_type@,
            subject: opt_text(self.subject),
            data_json: self.data_json@,
            created_at: self.created_at,
        }
    }
}

} // verus!
