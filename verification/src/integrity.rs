//! Checking stored tables against their invariant before they are used.
use vstd::prelude::*;

use crate::mesh::{Mesh, MeshView};
use crate::text::same_text;

verus! {

impl Mesh {
    fn workspaces_unique(&self) -> (b: bool)
        ensures
            b == forall|i: int, j: int|
                #![trigger self@.workspaces[i], self@.workspaces[j]]
                0 <= i < j < self@.workspaces.len() ==> self@.workspaces[i].id != self@.workspaces[j].id
                    && self@.workspaces[i].root != self@.workspaces[j].root,
    {
        let mut j: usize = 0;
        while j < self.workspaces.len()
            invariant
                j <= self.workspaces.len(),
                forall|a: int, b: int|
                    #![trigger self@.workspaces[a], self@.workspaces[b]]
                    0 <= a < b < j ==> self@.workspaces[a].id != self@.workspaces[b].id
                        && self@.workspaces[a].root != self@.workspaces[b].root,
            decreases self.workspaces.len() - j,
        {
            let mut i: usize = 0;
            while i < j
                invariant
                    i <= j < self.workspaces.len(),
                    forall|a: int|
                        #![trigger self@.workspaces[a]]
                        0 <= a < i ==> self@.workspaces[a].id != self@.workspaces[j as int].id
                            && self@.workspaces[a].root != self@.workspaces[j as int].root,
                decreases j - i,
            {
                let same_id = same_text(self.workspaces[i].id.as_str(), self.workspaces[j].id.as_str());
                let same_root = same_text(self.workspaces[i].root.as_str(), self.workspaces[j].root.as_str());
                if same_id || same_root {
                    assert(self@.workspaces[i as int] == self.workspaces@[i as int]@);
                    assert(self@.workspaces[j as int] == self.workspaces@[j as int]@);
                    return false;
                }
                assert(self@.workspaces[i as int] == self.workspaces@[i as int]@);
                assert(self@.workspaces[j as int] == self.workspaces@[j as int]@);
                assert(self@.workspaces[i as int].id != self@.workspaces[j as int].id);
                assert(self@.workspaces[i as int].root != self@.workspaces[j as int].root);
                i += 1;
            }
            j += 1;
        }
        true
    }

    fn agents_unique(&self) -> (b: bool)
        ensures
            b == forall|i: int, j: int|
                #![trigger self@.agents[i], self@.agents[j]]
                0 <= i < j < self@.agents.len() ==> self@.agents[i].id != self@.agents[j].id,
    {
        let mut j: usize = 0;
        while j < self.agents.len()
            invariant
                j <= self.agents.len(),
                forall|a: int, b: int|
                    #![trigger self@.agents[a], self@.agents[b]]
                    0 <= a < b < j ==> self@.agents[a].id != self@.agents[b].id,
            decreases self.agents.len() - j,
        {
            let mut i: usize = 0;
            while i < j
                invariant
                    i <= j < self.agents.len(),
                    forall|a: int| 0 <= a < i ==> #[trigger] self@.agents[a].id != self@.agents[j as int].id,
                decreases j - i,
            {
                if same_text(self.agents[i].id.as_str(), self.agents[j].id.as_str()) {
                    assert(self@.agents[i as int] == self.agents@[i as int]@);
                    assert(self@.agents[j as int] == self.agents@[j as int]@);
                    return false;
                }
                i += 1;
            }
            j += 1;
        }
        true
    }

    fn claims_unique(&self) -> (b: bool)
        ensures
            b == forall|i: int, j: int|
                #![trigger self@.claims[i], self@.claims[j]]
                0 <= i < j < self@.claims.len() ==> !(self@.claims[i].workspace_id
                    == self@.claims[j].workspace_id && self@.claims[i].task_key
                    == self@.claims[j].task_key),
    {
        let mut j: usize = 0;
        while j < self.claims.len()
            invariant
                j <= self.claims.len(),
                forall|a: int, b: int|
                    #![trigger self@.claims[a], self@.claims[b]]
                    0 <= a < b < j ==> !(self@.claims[a].workspace_id == self@.claims[b].workspace_id
                        && self@.claims[a].task_key == self@.claims[b].task_key),
            decreases self.claims.len() - j,
        {
            let mut i: usize = 0;
            while i < j
                invariant
                    i <= j < self.claims.len(),
                    forall|a: int|
                        0 <= a < i ==> !(#[trigger] self@.claims[a].workspace_id
                            == self@.claims[j as int].workspace_id && self@.claims[a].task_key
                            == self@.claims[j as int].task_key),
                decreases j - i,
            {
                if same_text(self.claims[i].workspace_id.as_str(), self.claims[j].workspace_id.as_str())
                    && same_text(self.claims[i].task_key.as_str(), self.claims[j].task_key.as_str()) {
                    assert(self@.claims[i as int] == self.claims@[i as int]@);
                    assert(self@.claims[j as int] == self.claims@[j as int]@);
                    return false;
                }
                i += 1;
            }
            j += 1;
        }
        true
    }

    fn receipts_unique(&self) -> (b: bool)
        ensures
            b == forall|i: int, j: int|
                #![trigger self@.receipts[i], self@.receipts[j]]
                0 <= i < j < self@.receipts.len() ==> !(self@.receipts[i].message_id
                    == self@.receipts[j].message_id && self@.receipts[i].agent_id
                    == self@.receipts[j].agent_id),
    {
        let mut j: usize = 0;
        while j < self.receipts.len()
            invariant
                j <= self.receipts.len(),
                forall|a: int, b: int|
                    #![trigger self@.receipts[a], self@.receipts[b]]
                    0 <= a < b < j ==> !(self@.receipts[a].message_id == self@.receipts[b].message_id
                        && self@.receipts[a].agent_id == self@.receipts[b].agent_id),
            decreases self.receipts.len() - j,
        {
            let mut i: usize = 0;
            while i < j
                invariant
                    i <= j < self.receipts.len(),
                    forall|a: int|
                        0 <= a < i ==> !(#[trigger] self@.receipts[a].message_id
                            == self@.receipts[j as int].message_id && self@.receipts[a].agent_id
                            == self@.receipts[j as int].agent_id),
                decreases j - i,
            {
                if self.receipts[i].message_id == self.receipts[j].message_id && same_text(
                    self.receipts[i].agent_id.as_str(),
                    self.receipts[j].agent_id.as_str(),
                ) {
                    assert(self@.receipts[i as int] == self.receipts@[i as int]@);
                    assert(self@.receipts[j as int] == self.receipts@[j as int]@);
                    return false;
                }
                i += 1;
            }
            j += 1;
        }
        true
    }

    /// Whether a workspace with this id is stored.
    fn holds_workspace(&self, id: &str) -> (b: bool)
        ensures
            b == self@.has_workspace(id@),
    {
        let mut i: usize = 0;
        while i < self.workspaces.len()
            invariant
                i <= self.workspaces.len(),
                forall|a: int| 0 <= a < i ==> self@.workspaces[a].id != id@,
            decreases self.workspaces.len() - i,
        {
            if same_text(self.workspaces[i].id.as_str(), id) {
                assert(self@.workspaces[i as int].id == id@);
                return true;
            }
            i += 1;
        }
        false
    }

    /// Whether a session with this id is stored.
    fn holds_agent(&self, id: &str) -> (b: bool)
        ensures
            b == self@.has_agent(id@),
    {
        let mut i: usize = 0;
        while i < self.agents.len()
            invariant
                i <= self.agents.len(),
                forall|a: int| 0 <= a < i ==> self@.agents[a].id != id@,
            decreases self.agents.len() - i,
        {
            if same_text(self.agents[i].id.as_str(), id) {
                assert(self@.agents[i as int].id == id@);
                return true;
            }
            i += 1;
        }
        false
    }

    fn references_resolve(&self) -> (b: bool)
        ensures
            b == ((forall|i: int|
                0 <= i < self@.agents.len() ==> self@.has_workspace(#[trigger] self@.agents[i].workspace_id))
                && (forall|i: int|
                0 <= i < self@.claims.len() ==> self@.has_agent(#[trigger] self@.claims[i].agent_id))
                && (forall|i: int|
                0 <= i < self@.messages.len() ==> self@.has_agent(#[trigger] self@.messages[i].sender_id))),
    {
        let mut i: usize = 0;
        while i < self.agents.len()
            invariant
                i <= self.agents.len(),
                forall|a: int| 0 <= a < i ==> self@.has_workspace(#[trigger] self@.agents[a].workspace_id),
            decreases self.agents.len() - i,
        {
            if !self.holds_workspace(self.agents[i].workspace_id.as_str()) {
                assert(!self@.has_workspace(self@.agents[i as int].workspace_id));
                return false;
            }
            i += 1;
        }
        let mut i: usize = 0;
        while i < self.claims.len()
            invariant
                i <= self.claims.len(),
                forall|a: int| 0 <= a < self@.agents.len() ==> self@.has_workspace(#[trigger] self@.agents[a].workspace_id),
                forall|a: int| 0 <= a < i ==> self@.has_agent(#[trigger] self@.claims[a].agent_id),
            decreases self.claims.len() - i,
        {
            if !self.holds_agent(self.claims[i].agent_id.as_str()) {
                assert(!self@.has_agent(self@.claims[i as int].agent_id));
                return false;
            }
            i += 1;
        }
        let mut i: usize = 0;
        while i < self.messages.len()
            invariant
                i <= self.messages.len(),
                forall|a: int| 0 <= a < self@.agents.len() ==> self@.has_workspace(#[trigger] self@.agents[a].workspace_id),
                forall|a: int| 0 <= a < self@.claims.len() ==> self@.has_agent(#[trigger] self@.claims[a].agent_id),
                forall|a: int| 0 <= a < i ==> self@.has_agent(#[trigger] self@.messages[a].sender_id),
            decreases self.messages.len() - i,
        {
            if !self.holds_agent(self.messages[i].sender_id.as_str()) {
                assert(!self@.has_agent(self@.messages[i as int].sender_id));
                return false;
            }
            i += 1;
        }
        true
    }

    fn counted_ids_grow(&self) -> (b: bool)
        ensures
            b == ((forall|i: int, j: int|
                #![trigger self@.messages[i], self@.messages[j]]
                0 <= i < j < self@.messages.len() ==> self@.messages[i].id < self@.messages[j].id)
                && (forall|i: int|
                0 <= i < self@.messages.len() ==> #[trigger] self@.messages[i].id <= self@.last_message_id)
                && (forall|i: int, j: int|
                #![trigger self@.memories[i], self@.memories[j]]
                0 <= i < j < self@.memories.len() ==> self@.memories[i].id < self@.memories[j].id)
                && (forall|i: int|
                0 <= i < self@.memories.len() ==> #[trigger] self@.memories[i].id <= self@.last_memory_id)
                && (forall|i: int, j: int|
                #![trigger self@.events[i], self@.events[j]]
                0 <= i < j < self@.events.len() ==> self@.events[i].sequence < self@.events[j].sequence)
                && (forall|i: int|
                0 <= i < self@.events.len() ==> #[trigger] self@.events[i].sequence <= self@.last_sequence)),
    {
        let mut j: usize = 0;
        while j < self.messages.len()
            invariant
                j <= self.messages.len(),
                forall|a: int, b: int|
                    #![trigger self@.messages[a], self@.messages[b]]
                    0 <= a < b < j ==> self@.messages[a].id < self@.messages[b].id,
                forall|a: int| 0 <= a < j ==> #[trigger] self@.messages[a].id <= self@.last_message_id,
            decreases self.messages.len() - j,
        {
            if self.messages[j].id > self.last_message_id {
                assert(self@.messages[j as int].id > self@.last_message_id);
                return false;
            }
            if j > 0 && self.messages[j - 1].id >= self.messages[j].id {
                assert(self@.messages[j - 1].id >= self@.messages[j as int].id);
                return false;
            }
            proof {
                assert forall|a: int, b: int|
                    #![trigger self@.messages[a], self@.messages[b]]
                    0 <= a < b < j + 1 implies self@.messages[a].id < self@.messages[b].id by {
                    if b == j && a < j - 1 {
                        assert(self@.messages[a].id < self@.messages[j - 1].id);
                    }
                }
            }
            j += 1;
        }
        let mut j: usize = 0;
        while j < self.memories.len()
            invariant
                j <= self.memories.len(),
                forall|a: int, b: int|
                    #![trigger self@.messages[a], self@.messages[b]]
                    0 <= a < b < self@.messages.len() ==> self@.messages[a].id < self@.messages[b].id,
                forall|a: int| 0 <= a < self@.messages.len() ==> #[trigger] self@.messages[a].id <= self@.last_message_id,
                forall|a: int, b: int|
                    #![trigger self@.memories[a], self@.memories[b]]
                    0 <= a < b < j ==> self@.memories[a].id < self@.memories[b].id,
                forall|a: int| 0 <= a < j ==> #[trigger] self@.memories[a].id <= self@.last_memory_id,
            decreases self.memories.len() - j,
        {
            if self.memories[j].id > self.last_memory_id {
                assert(self@.memories[j as int].id > self@.last_memory_id);
                return false;
            }
            if j > 0 && self.memories[j - 1].id >= self.memories[j].id {
                assert(self@.memories[j - 1].id >= self@.memories[j as int].id);
                return false;
            }
            proof {
                assert forall|a: int, b: int|
                    #![trigger self@.memories[a], self@.memories[b]]
                    0 <= a < b < j + 1 implies self@.memories[a].id < self@.memories[b].id by {
                    if b == j && a < j - 1 {
                        assert(self@.memories[a].id < self@.memories[j - 1].id);
                    }
                }
            }
            j += 1;
        }
        let mut j: usize = 0;
        while j < self.events.len()
            invariant
                j <= self.events.len(),
                forall|a: int, b: int|
                    #![trigger self@.messages[a], self@.messages[b]]
                    0 <= a < b < self@.messages.len() ==> self@.messages[a].id < self@.messages[b].id,
                forall|a: int| 0 <= a < self@.messages.len() ==> #[trigger] self@.messages[a].id <= self@.last_message_id,
                forall|a: int, b: int|
                    #![trigger self@.memories[a], self@.memories[b]]
                    0 <= a < b < self@.memories.len() ==> self@.memories[a].id < self@.memories[b].id,
                forall|a: int| 0 <= a < self@.memories.len() ==> #[trigger] self@.memories[a].id <= self@.last_memory_id,
                forall|a: int, b: int|
                    #![trigger self@.events[a], self@.events[b]]
                    0 <= a < b < j ==> self@.events[a].sequence < self@.events[b].sequence,
                forall|a: int| 0 <= a < j ==> #[trigger] self@.events[a].sequence <= self@.last_sequence,
            decreases self.events.len() - j,
        {
            if self.events[j].sequence > self.last_sequence {
                assert(self@.events[j as int].sequence > self@.last_sequence);
                return false;
            }
            if j > 0 && self.events[j - 1].sequence >= self.events[j].sequence {
                assert(self@.events[j - 1].sequence >= self@.events[j as int].sequence);
                return false;
            }
            proof {
                assert forall|a: int, b: int|
                    #![trigger self@.events[a], self@.events[b]]
                    0 <= a < b < j + 1 implies self@.events[a].sequence < self@.events[b].sequence by {
                    if b == j && a < j - 1 {
                        assert(self@.events[a].sequence < self@.events[j - 1].sequence);
                    }
                }
            }
            j += 1;
        }
        true
    }

    /// Whether the tables satisfy their invariant.
    pub fn check(&self) -> (b: bool)
        ensures
            b == self@.wf(),
    {
        self.last_memory_id >= 0 && self.last_message_id >= 0 && self.last_sequence >= 0
            && self.workspaces_unique() && self.agents_unique() && self.claims_unique()
            && self.receipts_unique() && self.references_resolve() && self.counted_ids_grow()
    }
}

} // verus!
