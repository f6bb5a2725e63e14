//! Memories and the ordered event journal.
use vstd::prelude::*;

use crate::agents::positions;
use crate::mesh::{events_view, memories_view, Mesh, MeshError, MeshView};
use crate::ranking::min_nat;
use crate::records::{opt_text, EventRecord, EventView, MemoryRecord, MemoryView};
use crate::seqs::lemma_filter_take_step;
use crate::text::{borrowed_opt_text, copy_opt_text, decimal, decimal_text, own_opt_text, same_text};

verus! {

/// One journal entry with the name of the agent that caused it, if that
/// agent is known.
#[derive(Debug)]
pub struct EventEntry {
    pub event: EventRecord,
    pub agent_name: Option<String>,
}

pub struct EventEntryView {
    pub event: EventView,
    pub agent_name: Option<Seq<char>>,
}

impl View for EventEntry {
    type V = EventEntryView;

    open spec fn view(&self) -> EventEntryView {
        EventEntryView { event: self.event@, agent_name: opt_text(self.agent_name) }
    }
}

pub open spec fn event_entries_view(v: Seq<EventEntry>) -> Seq<EventEntryView> {
    v.map_values(|e: EventEntry| e@)
}

impl MeshView {
    /// The name of the agent `id`, when such an agent exists.
    pub open spec fn name_of(self, id: Option<Seq<char>>) -> Option<Seq<char>> {
        match id {
            Some(i) => if self.has_agent(i) {
                Some(self.agent(i).name)
            } else {
                None
            },
            None => None,
        }
    }

    /// A new memory of `agent_id`, appended with the next memory id.
    pub open spec fn remember(
        self,
        agent_id: Seq<char>,
        content: Seq<char>,
        kind: Seq<char>,
        key: Option<Seq<char>>,
        importance: u64,
        now: i64,
    ) -> Result<(MeshView, i64), MeshError> {
        if !self.has_agent(agent_id) {
            Err(MeshError::AgentNotFound)
        } else if self.last_memory_id == i64::MAX {
            Err(MeshError::IdentifiersExhausted)
        } else if self.last_sequence == i64::MAX {
            Err(MeshError::JournalFull)
        } else {
            let ws = self.agent(agent_id).workspace_id;
            let id = (self.last_memory_id + 1) as i64;
            Ok(
                (
                    MeshView {
                        memories: self.memories.push(
                            MemoryView {
                                id,
                                workspace_id: ws,
                                agent_id: Some(agent_id),
                                kind,
                                key,
                                content,
                                importance,
                                created_at: now,
                            },
                        ),
                        last_memory_id: id,
                        ..self
                    }.journal(
                        ws,
                        Some(agent_id),
                        "memory.created"@,
                        Some(decimal(id as nat)),
                        "{}"@,
                        now,
                    ),
                    id,
                ),
            )
        }
    }

    pub open spec fn event_selects(self, ws: Seq<char>, after: i64) -> spec_fn(int) -> bool {
        |p: int| self.events[p].workspace_id == ws && self.events[p].sequence > after
    }

    /// Positions of the events of workspace `ws` after sequence `after`.
    pub open spec fn event_positions(self, ws: Seq<char>, after: i64) -> Seq<int> {
        positions(self.events.len()).filter(self.event_selects(ws, after))
    }

    pub open spec fn event_entry(self, p: int) -> EventEntryView {
        EventEntryView { event: self.events[p], agent_name: self.name_of(self.events[p].agent_id) }
    }

    /// The first `limit` events of the workspace of `agent_id` whose
    /// sequence is greater than `after`, in journal order.
    pub open spec fn events_after(self, agent_id: Seq<char>, after: i64, limit: nat) -> Result<
        Seq<EventEntryView>,
        MeshError,
    > {
        if !self.has_agent(agent_id) {
            Err(MeshError::AgentNotFound)
        } else {
            let ps = self.event_positions(self.agent(agent_id).workspace_id, after);
            Ok(ps.take(min_nat(limit, ps.len()) as int).map_values(|p: int| self.event_entry(p)))
        }
    }
}

impl Mesh {
    /// Appends a memory for `agent_id`; see [`MeshView::remember`].
    pub fn remember(
        &mut self,
        agent_id: &str,
        content: &str,
        kind: &str,
        key: Option<&str>,
        importance: u64,
        now: i64,
    ) -> (r: Result<i64, MeshError>)
        requires
            old(self)@.wf(),
        ensures
            final(self)@.wf(),
            old(self)@.remember(agent_id@, content@, kind@, borrowed_opt_text(key), importance, now)
                == match r {
                Ok(id) => Ok((final(self)@, id)),
                Err(e) => Err(e),
            },
            r is Err ==> final(self)@ == old(self)@,
    {
        let ai = match self.find_agent(agent_id) {
            Some(i) => i,
            None => return Err(MeshError::AgentNotFound),
        };
        if self.last_memory_id == i64::MAX {
            return Err(MeshError::IdentifiersExhausted);
        }
        if self.last_sequence == i64::MAX {
            return Err(MeshError::JournalFull);
        }
        let ws = self.agents[ai].workspace_id.clone();
        let ghost before = self@;
        let id = self.last_memory_id + 1;
        let memory = MemoryRecord {
            id,
            workspace_id: ws.clone(),
            agent_id: Some(agent_id.to_owned()),
            kind: kind.to_owned(),
            key: own_opt_text(key),
            content: content.to_owned(),
            importance,
            created_at: now,
        };
        let ghost mv = memory@;
        self.memories.push(memory);
        self.last_memory_id = id;
        assert(self@.memories =~= before.memories.push(mv));
        proof {
            before.lemma_same_refs(self@);
            assert forall|k1: int, k2: int|
                0 <= k1 < k2 < self@.memories.len() implies #[trigger] self@.memories[k1].id
                < #[trigger] self@.memories[k2].id by {
                if k2 == before.memories.len() {
                    assert(self@.memories[k1] == before.memories[k1]);
                }
            }
            assert(self@.wf());
            self@.lemma_journal_wf(ws@, Some(agent_id@), "memory.created"@, Some(decimal(id as nat)), "{}"@, now);
        }
        let subject = decimal_text(id as u64);
        self.append_event(
            ws,
            Some(agent_id.to_owned()),
            String::from_str("memory.created"),
            Some(subject),
            String::from_str("{}"),
            now,
        );
        Ok(id)
    }

    /// The name of the agent `id`, when such an agent exists.
    pub fn name_of(&self, id: &Option<String>) -> (r: Option<String>)
        requires
            self@.wf(),
        ensures
            opt_text(r) == self@.name_of(opt_text(*id)),
    {
        match id {
            Some(i) => match self.find_agent(i.as_str()) {
                Some(k) => Some(self.agents[k].name.clone()),
                None => None,
            },
            None => None,
        }
    }

    /// Events of the workspace of `agent_id` after `after`; see
    /// [`MeshView::events_after`].
    pub fn events(&self, agent_id: &str, after: i64, limit: u32) -> (r: Result<
        Vec<EventEntry>,
        MeshError,
    >)
        requires
            self@.wf(),
        ensures
            self@.events_after(agent_id@, after, limit as nat) == match r {
                Ok(v) => Ok(event_entries_view(v@)),
                Err(e) => Err(e),
            },
    {
        let ai = match self.find_agent(agent_id) {
            Some(i) => i,
            None => return Err(MeshError::AgentNotFound),
        };
        let ws = self.agents[ai].workspace_id.clone();
        let ghost all = positions(self@.events.len());
        let ghost pred = self@.event_selects(ws@, after);
        let ghost ps = self@.event_positions(ws@, after);
        let mut out: Vec<EventEntry> = Vec::new();
        let mut p: usize = 0;
        while p < self.events.len() && out.len() < limit as usize
            invariant
                p <= self.events.len(),
                self@.wf(),
                all == positions(self@.events.len()),
                pred == self@.event_selects(ws@, after),
                ps == all.filter(pred),
                out@.len() <= limit,
                out@.len() == all.take(p as int).filter(pred).len(),
                forall|k: int| 0 <= k < out@.len() ==> #[trigger] event_entries_view(out@)[k] == self@.event_entry(all.take(p as int).filter(pred)[k]),
            decreases self.events.len() - p,
        {
            proof {
                lemma_filter_take_step(all, pred, p as int);
            }
            let e = &self.events[p];
            if same_text(e.workspace_id.as_str(), ws.as_str()) && e.sequence > after {
                let entry = EventEntry {
                    event: EventRecord {
                        sequence: e.sequence,
                        workspace_id: e.workspace_id.clone(),
                        agent_id: copy_opt_text(&e.agent_id),
                        event_type: e.event_type.clone(),
                        subject: copy_opt_text(&e.subject),
                        data_json: e.data_json.clone(),
                        created_at: e.created_at,
                    },
                    agent_name: self.name_of(&e.agent_id),
                };
                let ghost before = event_entries_view(out@);
                assert(self@.events[p as int] == e@);
                out.push(entry);
                assert(event_entries_view(out@) =~= before.push(self@.event_entry(p as int)));
            }
            p += 1;
        }
        proof {
            // The selected prefix of positions is a prefix of all selected positions.
            let taken = all.take(p as int).filter(pred);
            assert(all.take(p as int) + all.skip(p as int) =~= all);
            Seq::filter_distributes_over_add(all.take(p as int), all.skip(p as int), pred);
            assert(ps == taken + all.skip(p as int).filter(pred));
            if out@.len() < limit {
                assert(p == self.events.len());
                assert(all.skip(p as int) =~= Seq::<int>::empty());
                assert(all.skip(p as int).filter(pred) =~= Seq::<int>::empty()) by {
                    reveal(Seq::filter);
                }
            }
            let n = min_nat(limit as nat, ps.len());
            assert(n == out@.len());
            assert(event_entries_view(out@) =~= ps.take(n as int).map_values(|q: int| self@.event_entry(q)));
        }
        Ok(out)
    }
}

} // verus!
