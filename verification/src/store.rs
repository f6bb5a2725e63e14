//! The coordination store: a mesh read and changed at the current time.
use vstd::prelude::*;

use crate::claims::ClaimOutcome;
use crate::codec::{encode_json_string_list, json_string_list};
use crate::journal::{event_entries_view, EventEntry};
use crate::mesh::{Mesh, MeshError, MeshView};
use crate::messaging::{inbox_view, InboxEntry, SentMessage};
use crate::search::{engine_may_refuse, fts_expression, memory_entries_view, query_terms, MemoryEntry};
use crate::status::WorkspaceStatus;
use crate::system::{
    new_session_id, now_ms, parent_pid, probe_process, session_id, session_suffix, workspace_id,
    workspace_id_of, ProcessProbe,
};
use crate::text::{borrowed_opt_text, same_text};

verus! {

/// Whether an error comes from reading the clock.
pub open spec fn clock_error(e: MeshError) -> bool {
    e == MeshError::ClockBeforeEpoch || e == MeshError::ClockOverflow
}

/// The id a registration uses: the given one, or else one generated from
/// the name and the process id.
pub open spec fn registered_id(agent_id: Option<&str>, name: Seq<char>, pid: u32, id: Seq<char>) -> bool {
    match agent_id {
        Some(given) => id == given@,
        None => exists|suffix: Seq<char>| session_suffix(suffix) && id == session_id(name, pid, suffix),
    }
}

/// The answer to a registration.
#[derive(Debug)]
pub struct Registration {
    pub agent_id: String,
    pub name: String,
    pub pid: u32,
    pub provider: String,
    pub workspace: String,
    pub workspace_id: String,
}

/// The answer to a new memory: its id and what it was filed under.
#[derive(Debug)]
pub struct MemoryReceipt {
    pub memory_id: i64,
    pub kind: String,
    pub key: Option<String>,
}

/// A status with the liveness of each listed session's process.
#[derive(Debug)]
pub struct StatusReport {
    pub status: WorkspaceStatus,
    pub pid_alive: Vec<bool>,
    /// The probe behind each liveness answer, in the order of the sessions.
    pub probes: Vec<ProcessProbe>,
}

/// The answer to a garbage collection: the sessions declared dead, the
/// claims removed, and the liveness probe of each stale session, in the
/// order of [`MeshView::stale_positions`].
#[derive(Debug)]
pub struct Collection {
    pub dead_agents: usize,
    pub expired_claims: usize,
    pub probes: Vec<ProcessProbe>,
}

/// The coordination state of one database file, changed at the current
/// time of the machine.
#[derive(Debug)]
pub struct MeshStore {
    path: String,
    mesh: Mesh,
}

impl MeshStore {
    pub closed spec fn wf(&self) -> bool {
        self.mesh@.wf()
    }

    pub closed spec fn state(&self) -> MeshView {
        self.mesh@
    }

    pub closed spec fn location(&self) -> Seq<char> {
        self.path@
    }

    /// A well-formed store holds well-formed tables: the laws stated over
    /// [`MeshView`] apply to its state.
    pub proof fn lemma_state_wf(&self)
        requires
            self.wf(),
        ensures
            self.state().wf(),
    {
    }

    /// An empty store for the database at `path`.
    pub fn new(path: &str) -> (s: MeshStore)
        ensures
            s.wf(),
            s.location() == path@,
            s.state() == Mesh::new_spec(),
    {
        let mesh = Mesh::new();
        assert(mesh@ == Mesh::new_spec());
        MeshStore { path: path.to_owned(), mesh }
    }

    /// A store over tables read back from the database at `path`; refused
    /// when the tables break their invariant.
    pub fn from_mesh(path: &str, mesh: Mesh) -> (r: Result<MeshStore, MeshError>)
        ensures
            match r {
                Ok(s) => s.wf() && s.state() == mesh@ && s.location() == path@,
                Err(e) => e == MeshError::InconsistentTables && !mesh@.wf(),
            },
    {
        if mesh.check() {
            Ok(MeshStore { path: path.to_owned(), mesh })
        } else {
            Err(MeshError::InconsistentTables)
        }
    }

    /// The path of the database file.
    pub fn path(&self) -> (p: &str)
        ensures
            p@ == self.location(),
    {
        self.path.as_str()
    }

    /// The tables of the store.
    pub fn mesh(&self) -> (m: &Mesh)
        ensures
            m@ == self.state(),
    {
        &self.mesh
    }

    /// Gives the tables back.
    pub fn into_mesh(self) -> (m: Mesh)
        ensures
            m@ == self.state(),
    {
        self.mesh
    }

    /// Registers a session of process `pid` in the workspace rooted at
    /// `root`, under `agent_id` or, when none is given, under a generated
    /// `<name>-<pid>-<suffix>` id.
    pub fn register_agent(
        &mut self,
        name: &str,
        pid: u32,
        root: &str,
        checkout: &str,
        branch: Option<&str>,
        provider: &str,
        capabilities: &[String],
        agent_id: Option<&str>,
    ) -> (r: Result<Registration, MeshError>)
        requires
            old(self).wf(),
        ensures
            final(self).wf(),
            final(self).location() == old(self).location(),
            match r {
                Ok(reg) => {
                    &&& reg.name@ == name@
                    &&& reg.pid == pid
                    &&& reg.provider@ == provider@
                    &&& reg.workspace@ == root@
                    &&& reg.workspace_id@ == workspace_id_of(root@)
                    &&& registered_id(agent_id, name@, pid, reg.agent_id@)
                    &&& exists|now: i64, ppid: i64|
                        now >= 0 && old(self).state().register(
                            reg.agent_id@,
                            workspace_id_of(root@),
                            root@,
                            checkout@,
                            borrowed_opt_text(branch),
                            name@,
                            pid,
                            Some(ppid),
                            provider@,
                            json_string_list(crate::text::texts(capabilities@)),
                            now,
                        ) == Ok::<MeshView, MeshError>(final(self).state())
                },
                Err(e) => final(self).state() == old(self).state() && (clock_error(e) || exists|
                    id: Seq<char>,
                    now: i64,
                    ppid: i64,
                | registered_id(agent_id, name@, pid, id) && old(self).state().register(
                    id,
                    workspace_id_of(root@),
                    root@,
                    checkout@,
                    borrowed_opt_text(branch),
                    name@,
                    pid,
                    Some(ppid),
                    provider@,
                    json_string_list(crate::text::texts(capabilities@)),
                    now,
                ) == Err::<MeshView, MeshError>(e)),
            },
    {
        let identifier = match agent_id {
            Some(id) => id.to_owned(),
            None => new_session_id(name, pid),
        };
        let now = match now_ms() {
            Ok(t) => t,
            Err(e) => return Err(e),
        };
        let wid = workspace_id(root);
        let capabilities_json = encode_json_string_list(capabilities);
        let ppid = parent_pid();
        let ghost before = self.mesh@;
        let registered = self.mesh.register(
            identifier.as_str(),
            wid.as_str(),
            root,
            checkout,
            branch,
            name,
            pid,
            Some(ppid),
            provider,
            capabilities_json.as_str(),
            now,
        );
        assert(before.register(
            identifier@,
            workspace_id_of(root@),
            root@,
            checkout@,
            borrowed_opt_text(branch),
            name@,
            pid,
            Some(ppid),
            provider@,
            json_string_list(crate::text::texts(capabilities@)),
            now,
        ) == match registered {
            Ok(()) => Ok(self.mesh@),
            Err(e) => Err(e),
        });
        assert(old(self).state() == before && self.state() == self.mesh@);
        proof {
            if registered is Ok {
                assert(exists|n: i64, p: i64|
                    n >= 0 && old(self).state().register(
                        identifier@,
                        workspace_id_of(root@),
                        root@,
                        checkout@,
                        borrowed_opt_text(branch),
                        name@,
                        pid,
                        Some(p),
                        provider@,
                        json_string_list(crate::text::texts(capabilities@)),
                        n,
                    ) == Ok::<MeshView, MeshError>(self.state()));
            }
        }
        match registered {
            Ok(()) => {
                let reg = Registration {
                    agent_id: identifier,
                    name: name.to_owned(),
                    pid,
                    provider: provider.to_owned(),
                    workspace: root.to_owned(),
                    workspace_id: wid,
                };
                assert(reg.name@ == name@);
                assert(reg.provider@ == provider@);
                assert(reg.workspace@ == root@);
                assert(reg.workspace_id@ == workspace_id_of(root@));
                assert(match agent_id {
                    Some(id) => reg.agent_id@ == id@,
                    None => exists|suffix: Seq<char>|
                        session_suffix(suffix) && reg.agent_id@ == session_id(name@, pid, suffix),
                });
                Ok(reg)
            },
            Err(e) => Err(e),
        }
    }

    /// Refreshes the heartbeat of a session; `false` when no session has
    /// that id.
    pub fn heartbeat(&mut self, agent_id: &str) -> (r: Result<bool, MeshError>)
        requires
            old(self).wf(),
        ensures
            final(self).wf(),
            final(self).location() == old(self).location(),
            match r {
                Ok(found) => exists|now: i64|
                    now >= 0 && old(self).state().heartbeat(agent_id@, now) == (final(self).state(), found),
                Err(e) => clock_error(e) && final(self).state() == old(self).state(),
            },
    {
        let now = match now_ms() {
            Ok(t) => t,
            Err(e) => return Err(e),
        };
        let ghost before = self.mesh@;
        let found = self.mesh.heartbeat(agent_id, now);
        assert(before.heartbeat(agent_id@, now) == (self.mesh@, found));
        assert(old(self).state() == before && self.state() == self.mesh@);
        Ok(found)
    }

    /// Records the process now behind a session; `false` when no session
    /// has that id.
    pub fn update_agent_pid(&mut self, agent_id: &str, pid: u32) -> (r: Result<bool, MeshError>)
        requires
            old(self).wf(),
        ensures
            final(self).wf(),
            final(self).location() == old(self).location(),
            match r {
                Ok(found) => exists|now: i64|
                    now >= 0 && old(self).state().update_agent_pid(agent_id@, pid, now) == (
                        final(self).state(),
                        found,
                    ),
                Err(e) => clock_error(e) && final(self).state() == old(self).state(),
            },
    {
        let now = match now_ms() {
            Ok(t) => t,
            Err(e) => return Err(e),
        };
        let ghost before = self.mesh@;
        let found = self.mesh.update_agent_pid(agent_id, pid, now);
        assert(before.update_agent_pid(agent_id@, pid, now) == (self.mesh@, found));
        assert(old(self).state() == before && self.state() == self.mesh@);
        Ok(found)
    }

    /// Stops a session and releases its claims; `false` when no session has
    /// that id.
    pub fn stop_agent(&mut self, agent_id: &str) -> (r: Result<bool, MeshError>)
        requires
            old(self).wf(),
        ensures
            final(self).wf(),
            final(self).location() == old(self).location(),
            r is Err ==> final(self).state() == old(self).state(),
            match r {
                Err(e) if clock_error(e) => true,
                _ => exists|now: i64|
                    now >= 0 && old(self).state().stop_agent(agent_id@, now) == match r {
                        Ok(b) => Ok((final(self).state(), b)),
                        Err(e) => Err(e),
                    },
            },
    {
        let now = match now_ms() {
            Ok(t) => t,
            Err(e) => return Err(e),
        };
        let ghost before = self.mesh@;
        let r = self.mesh.stop_agent(agent_id, now);
        assert(before.stop_agent(agent_id@, now) == match r {
            Ok(b) => Ok((self.mesh@, b)),
            Err(e) => Err(e),
        });
        assert(old(self).state() == before && self.state() == self.mesh@);
        r
    }

    /// Appends a memory; `importance` is the order key of its importance.
    pub fn remember(
        &mut self,
        agent_id: &str,
        content: &str,
        kind: &str,
        key: Option<&str>,
        importance: u64,
    ) -> (r: Result<MemoryReceipt, MeshError>)
        requires
            old(self).wf(),
        ensures
            final(self).wf(),
            final(self).location() == old(self).location(),
            r is Err ==> final(self).state() == old(self).state(),
            !old(self).state().has_agent(agent_id@) ==> r matches Err(MeshError::AgentNotFound),
            match r {
                Ok(m) => m.kind@ == kind@ && crate::records::opt_text(m.key) == borrowed_opt_text(key)
                    && exists|now: i64|
                    now >= 0 && old(self).state().remember(
                        agent_id@,
                        content@,
                        kind@,
                        borrowed_opt_text(key),
                        importance,
                        now,
                    ) == Ok::<(MeshView, i64), MeshError>((final(self).state(), m.memory_id)),
                Err(e) => (clock_error(e) && old(self).state().has_agent(agent_id@)) || exists|now: i64|
                    now >= 0 && old(self).state().remember(
                        agent_id@,
                        content@,
                        kind@,
                        borrowed_opt_text(key),
                        importance,
                        now,
                    ) == Err::<(MeshView, i64), MeshError>(e),
            },
    {
        if self.mesh.find_agent(agent_id).is_none() {
            assert(self.state().remember(agent_id@, content@, kind@, borrowed_opt_text(key), importance, 0)
                == Err::<(MeshView, i64), MeshError>(MeshError::AgentNotFound));
            return Err(MeshError::AgentNotFound);
        }
        let now = match now_ms() {
            Ok(t) => t,
            Err(e) => return Err(e),
        };
        let ghost before = self.mesh@;
        let stored = self.mesh.remember(agent_id, content, kind, key, importance, now);
        assert(before.remember(agent_id@, content@, kind@, borrowed_opt_text(key), importance, now)
            == match stored {
            Ok(id) => Ok((self.mesh@, id)),
            Err(e) => Err(e),
        });
        assert(old(self).state() == before && self.state() == self.mesh@);
        match stored {
            Ok(id) => Ok(
                MemoryReceipt {
                    memory_id: id,
                    kind: kind.to_owned(),
                    key: crate::text::own_opt_text(key),
                },
            ),
            Err(e) => Err(e),
        }
    }

    /// Recalls memories; see [`MeshView::is_recall`].
    pub fn recall(&self, agent_id: &str, query: &str, limit: u32) -> (r: Result<
        Vec<MemoryEntry>,
        MeshError,
    >)
        requires
            self.wf(),
        ensures
            match r {
                Ok(v) => self.state().has_agent(agent_id@) && self.state().is_recall(
                    agent_id@,
                    query@,
                    limit as nat,
                    memory_entries_view(v@),
                ),
                Err(e) => (e == MeshError::AgentNotFound && !self.state().has_agent(agent_id@)) || (e
                    == MeshError::SearchFailed && self.state().has_agent(agent_id@) && query_terms(
                    query@,
                ).len() > 0 && engine_may_refuse(
                    self.state().documents(),
                    fts_expression(query_terms(query@)),
                )),
            },
            self.state().has_agent(agent_id@) && query_terms(query@).len() == 0 ==> r is Ok,
    {
        self.mesh.recall(agent_id, query, limit)
    }

    /// Sends a message to the session that answers to `recipient`, or to
    /// the workspace when `recipient` is `*`.
    pub fn send(
        &mut self,
        agent_id: &str,
        body: &str,
        recipient: &str,
        correlation_id: Option<&str>,
    ) -> (r: Result<SentMessage, MeshError>)
        requires
            old(self).wf(),
        ensures
            final(self).wf(),
            final(self).location() == old(self).location(),
            r is Err ==> final(self).state() == old(self).state(),
            !old(self).state().has_agent(agent_id@) ==> r matches Err(MeshError::AgentNotFound),
            old(self).state().has_agent(agent_id@) && recipient@ != "*"@ && !old(self).state().has_route(
                old(self).state().agent(agent_id@).workspace_id,
                recipient@,
            ) ==> r matches Err(MeshError::RecipientNotFound),
            match r {
                Err(e) if clock_error(e) => old(self).state().has_agent(agent_id@) && (recipient@ == "*"@
                    || old(self).state().has_route(
                    old(self).state().agent(agent_id@).workspace_id,
                    recipient@,
                )),
                _ => exists|now: i64|
                    now >= 0 && old(self).state().send(
                        agent_id@,
                        body@,
                        recipient@,
                        borrowed_opt_text(correlation_id),
                        now,
                    ) == match r {
                        Ok(o) => Ok((final(self).state(), o@)),
                        Err(e) => Err(e),
                    },
            },
    {
        let ai = match self.mesh.find_agent(agent_id) {
            Some(i) => i,
            None => {
                assert(self.state().send(agent_id@, body@, recipient@, borrowed_opt_text(correlation_id), 0)
                    == Err::<(MeshView, crate::messaging::SentMessageView), MeshError>(MeshError::AgentNotFound));
                return Err(MeshError::AgentNotFound);
            },
        };
        if !same_text(recipient, "*") && self.mesh.find_route(
            self.mesh.agents[ai].workspace_id.as_str(),
            recipient,
        ).is_none() {
            assert(self.state().send(agent_id@, body@, recipient@, borrowed_opt_text(correlation_id), 0)
                == Err::<(MeshView, crate::messaging::SentMessageView), MeshError>(MeshError::RecipientNotFound));
            return Err(MeshError::RecipientNotFound);
        }
        let now = match now_ms() {
            Ok(t) => t,
            Err(e) => return Err(e),
        };
        let ghost before = self.mesh@;
        let r = self.mesh.send(agent_id, body, recipient, correlation_id, now);
        assert(before.send(agent_id@, body@, recipient@, borrowed_opt_text(correlation_id), now)
            == match r {
            Ok(o) => Ok((self.mesh@, o@)),
            Err(e) => Err(e),
        });
        assert(old(self).state() == before && self.state() == self.mesh@);
        r
    }

    /// The inbox of a session; see [`MeshView::is_inbox`].
    pub fn inbox(&self, agent_id: &str, unread_only: bool, limit: u32) -> (r: Result<
        Vec<InboxEntry>,
        MeshError,
    >)
        requires
            self.wf(),
        ensures
            match r {
                Ok(v) => self.state().has_agent(agent_id@) && self.state().is_inbox(
                    agent_id@,
                    unread_only,
                    limit as nat,
                    inbox_view(v@),
                ),
                Err(e) => e == MeshError::AgentNotFound && !self.state().has_agent(agent_id@),
            },
    {
        self.mesh.inbox(agent_id, unread_only, limit)
    }

    /// Acknowledges messages for a session, counting those it may
    /// acknowledge.
    pub fn acknowledge(&mut self, agent_id: &str, message_ids: &[i64]) -> (r: Result<
        usize,
        MeshError,
    >)
        requires
            old(self).wf(),
        ensures
            final(self).wf(),
            final(self).location() == old(self).location(),
            r is Err ==> final(self).state() == old(self).state(),
            message_ids@.len() > 0 && !old(self).state().has_agent(agent_id@) ==> r matches Err(
                MeshError::AgentNotFound,
            ),
            match r {
                Err(e) if clock_error(e) => message_ids@.len() > 0 && old(self).state().has_agent(
                    agent_id@,
                ),
                _ => exists|now: i64|
                    now >= 0 && old(self).state().acknowledge(agent_id@, message_ids@, now) == match r {
                        Ok(n) => Ok((final(self).state(), n as nat)),
                        Err(e) => Err(e),
                    },
            },
    {
        if message_ids.len() == 0 {
            assert(old(self).state().acknowledge(agent_id@, message_ids@, 0) == Ok::<
                (MeshView, nat),
                MeshError,
            >((self.state(), 0nat)));
            return Ok(0);
        }
        if self.mesh.find_agent(agent_id).is_none() {
            return Err(MeshError::AgentNotFound);
        }
        let now = match now_ms() {
            Ok(t) => t,
            Err(e) => return Err(e),
        };
        let ghost before = self.mesh@;
        let r = self.mesh.acknowledge(agent_id, message_ids, now);
        assert(before.acknowledge(agent_id@, message_ids@, now) == match r {
            Ok(n) => Ok((self.mesh@, n as nat)),
            Err(e) => Err(e),
        });
        assert(old(self).state() == before && self.state() == self.mesh@);
        r
    }

    /// Acquires, takes over, or renews a task lease of `lease_seconds`.
    pub fn claim(
        &mut self,
        agent_id: &str,
        task_key: &str,
        lease_seconds: u64,
        detail: Option<&str>,
    ) -> (r: Result<ClaimOutcome, MeshError>)
        requires
            old(self).wf(),
        ensures
            final(self).wf(),
            final(self).location() == old(self).location(),
            r is Err ==> final(self).state() == old(self).state(),
            lease_seconds == 0 ==> r == Err::<ClaimOutcome, MeshError>(MeshError::LeaseNotPositive),
            match r {
                Err(e) if clock_error(e) => true,
                _ => exists|now: i64|
                    now >= 0 && old(self).state().claim(
                        agent_id@,
                        task_key@,
                        lease_seconds,
                        borrowed_opt_text(detail),
                        now,
                    ) == match r {
                        Ok(o) => Ok((final(self).state(), o@)),
                        Err(e) => Err(e),
                    },
            },
    {
        if lease_seconds == 0 {
            assert(old(self).state().claim(agent_id@, task_key@, lease_seconds, borrowed_opt_text(detail), 0)
                == Err::<(MeshView, crate::claims::ClaimOutcomeView), MeshError>(MeshError::LeaseNotPositive));
            return Err(MeshError::LeaseNotPositive);
        }
        let now = match now_ms() {
            Ok(t) => t,
            Err(e) => return Err(e),
        };
        let ghost before = self.mesh@;
        let r = self.mesh.claim(agent_id, task_key, lease_seconds, detail, now);
        assert(before.claim(agent_id@, task_key@, lease_seconds, borrowed_opt_text(detail), now)
            == match r {
            Ok(o) => Ok((self.mesh@, o@)),
            Err(e) => Err(e),
        });
        assert(old(self).state() == before && self.state() == self.mesh@);
        r
    }

    /// Releases a task lease held by the session.
    pub fn release(&mut self, agent_id: &str, task_key: &str) -> (r: Result<bool, MeshError>)
        requires
            old(self).wf(),
        ensures
            final(self).wf(),
            final(self).location() == old(self).location(),
            r is Err ==> final(self).state() == old(self).state(),
            !old(self).state().has_agent(agent_id@) ==> r matches Err(MeshError::AgentNotFound),
            match r {
                Err(e) if clock_error(e) => old(self).state().has_agent(agent_id@),
                _ => exists|now: i64|
                    now >= 0 && old(self).state().release(agent_id@, task_key@, now) == match r {
                        Ok(b) => Ok((final(self).state(), b)),
                        Err(e) => Err(e),
                    },
            },
    {
        if self.mesh.find_agent(agent_id).is_none() {
            assert(self.state().release(agent_id@, task_key@, 0) == Err::<(MeshView, bool), MeshError>(
                MeshError::AgentNotFound,
            ));
            return Err(MeshError::AgentNotFound);
        }
        let now = match now_ms() {
            Ok(t) => t,
            Err(e) => return Err(e),
        };
        let ghost before = self.mesh@;
        let r = self.mesh.release(agent_id, task_key, now);
        assert(before.release(agent_id@, task_key@, now) == match r {
            Ok(b) => Ok((self.mesh@, b)),
            Err(e) => Err(e),
        });
        assert(old(self).state() == before && self.state() == self.mesh@);
        r
    }

    /// The status of the workspace of `agent_id`, or else of the workspace
    /// rooted at `root`, with the liveness of every listed process.
    pub fn status(&self, agent_id: Option<&str>, root: &str) -> (r: Result<StatusReport, MeshError>)
        requires
            self.wf(),
        ensures
            match r {
                Ok(rep) => {
                    &&& exists|now: i64|
                        now >= 0 && self.state().is_status(
                            borrowed_opt_text(agent_id),
                            root@,
                            now,
                            rep.status@,
                        )
                    &&& rep.pid_alive@.len() == rep.status.agents@.len()
                    &&& rep.probes@.len() == rep.status.agents@.len()
                    &&& forall|i: int|
                        0 <= i < rep.probes@.len() ==> (#[trigger] rep.probes@[i]).probed_pid()
                            == rep.status.agents@[i].agent.pid && rep.pid_alive@[i]
                            == rep.probes@[i].found_alive()
                    &&& forall|i: int|
                        0 <= i < rep.pid_alive@.len() && #[trigger] rep.pid_alive@[i]
                            ==> rep.status.agents@[i].agent.pid <= i32::MAX
                },
                Err(e) => (clock_error(e) && self.state().status_workspace(
                    borrowed_opt_text(agent_id),
                    root@,
                ) is Ok) || self.state().status_workspace(borrowed_opt_text(agent_id), root@)
                    == Err::<Option<int>, MeshError>(e),
            },
            agent_id matches Some(a) && !self.state().has_agent(a@) ==> r matches Err(
                MeshError::AgentNotFound,
            ),
            agent_id is None && !self.state().has_root(root@) ==> (r matches Ok(rep)
                && rep.status.workspace@ == root@ && rep.status.workspace_id is None
                && rep.status.agents@.len() == 0 && rep.status.claims@.len() == 0
                && rep.pid_alive@.len() == 0),
    {
        match agent_id {
            Some(a) => {
                if self.mesh.find_agent(a).is_none() {
                    return Err(MeshError::AgentNotFound);
                }
            },
            None => {
                if self.mesh.find_root(root).is_none() {
                    let status = match self.mesh.status(None, root, 0) {
                        Ok(s) => s,
                        Err(e) => return Err(e),
                    };
                    return Ok(StatusReport { status, pid_alive: Vec::new(), probes: Vec::new() });
                }
            },
        }
        let now = match now_ms() {
            Ok(t) => t,
            Err(e) => return Err(e),
        };
        let status = match self.mesh.status(agent_id, root, now) {
            Ok(s) => s,
            Err(e) => return Err(e),
        };
        let mut pid_alive: Vec<bool> = Vec::new();
        let mut probes: Vec<ProcessProbe> = Vec::new();
        let mut i: usize = 0;
        while i < status.agents.len()
            invariant
                i <= status.agents@.len(),
                pid_alive@.len() == i,
                probes@.len() == i,
                forall|k: int|
                    0 <= k < i && #[trigger] pid_alive@[k] ==> status.agents@[k].agent.pid <= i32::MAX,
                forall|k: int|
                    0 <= k < i ==> (#[trigger] probes@[k]).probed_pid() == status.agents@[k].agent.pid
                        && pid_alive@[k] == probes@[k].found_alive(),
            decreases status.agents@.len() - i,
        {
            let probe = probe_process(status.agents[i].agent.pid);
            pid_alive.push(probe.alive());
            probes.push(probe);
            i += 1;
        }
        Ok(StatusReport { status, pid_alive, probes })
    }

    /// The events of the session's workspace after sequence `after`.
    pub fn events(&self, agent_id: &str, after: i64, limit: u32) -> (r: Result<
        Vec<EventEntry>,
        MeshError,
    >)
        requires
            self.wf(),
        ensures
            self.state().events_after(agent_id@, after, limit as nat) == match r {
                Ok(v) => Ok(event_entries_view(v@)),
                Err(e) => Err(e),
            },
    {
        self.mesh.events(agent_id, after, limit)
    }

    /// Garbage collection: stale sessions whose process is gone are
    /// declared dead, and expired claims are removed.
    pub fn collect_stale(&mut self, stale_after_ms: u128) -> (r: Result<Collection, MeshError>)
        requires
            old(self).wf(),
        ensures
            final(self).wf(),
            final(self).location() == old(self).location(),
            r is Err ==> final(self).state() == old(self).state(),
            stale_after_ms > i64::MAX ==> r is Err,
            match r {
                Ok(rep) => exists|now: i64, alive: Seq<bool>|
                    #![trigger crate::agents::stale_cutoff(now, stale_after_ms), alive.len()]
                    {
                        &&& now >= 0
                        &&& crate::agents::stale_cutoff(now, stale_after_ms) matches Ok(cutoff)
                        &&& alive.len() == old(self).state().stale_positions(cutoff).len()
                        &&& forall|k: int|
                            0 <= k < alive.len() && #[trigger] alive[k] ==> old(self).state().agents[old(
                                self,
                            ).state().stale_positions(cutoff)[k]].pid <= i32::MAX
                        &&& rep.probes@.len() == alive.len()
                        &&& forall|k: int|
                            0 <= k < alive.len() ==> (#[trigger] rep.probes@[k]).probed_pid()
                                == old(self).state().agents[old(self).state().stale_positions(
                                cutoff,
                            )[k]].pid && alive[k] == rep.probes@[k].found_alive()
                        &&& old(self).state().collect_stale(cutoff, now, alive) == Ok::<
                            (MeshView, (nat, nat)),
                            MeshError,
                        >((final(self).state(), (rep.dead_agents as nat, rep.expired_claims as nat)))
                    },
                Err(e) => clock_error(e) || (e == MeshError::StaleWindowTooLarge && stale_after_ms
                    > i64::MAX) || (e == MeshError::JournalFull && exists|now: i64, alive: Seq<bool>|
                    #![trigger crate::agents::stale_cutoff(now, stale_after_ms), alive.len()]
                    {
                        &&& now >= 0
                        &&& crate::agents::stale_cutoff(now, stale_after_ms) matches Ok(cutoff)
                        &&& alive.len() == old(self).state().stale_positions(cutoff).len()
                        &&& forall|k: int|
                            0 <= k < alive.len() && #[trigger] alive[k] ==> old(self).state().agents[old(
                                self,
                            ).state().stale_positions(cutoff)[k]].pid <= i32::MAX
                        &&& old(self).state().collect_stale(cutoff, now, alive) == Err::<
                            (MeshView, (nat, nat)),
                            MeshError,
                        >(MeshError::JournalFull)
                    }),
            },
    {
        let now = match now_ms() {
            Ok(t) => t,
            Err(e) => return Err(e),
        };
        let cutoff = match crate::agents::compute_stale_cutoff(now, stale_after_ms) {
            Ok(c) => c,
            Err(e) => return Err(e),
        };
        let candidates = self.mesh.stale_positions(cutoff);
        let mut alive: Vec<bool> = Vec::new();
        let mut probes: Vec<ProcessProbe> = Vec::new();
        let mut k: usize = 0;
        while k < candidates.len()
            invariant
                k <= candidates@.len(),
                alive@.len() == k,
                probes@.len() == k,
                forall|j: int|
                    0 <= j < k ==> (#[trigger] probes@[j]).probed_pid() == self.mesh@.agents[self.mesh@.stale_positions(
                        cutoff,
                    )[j]].pid && alive@[j] == probes@[j].found_alive(),
                forall|j: int| 0 <= j < candidates@.len() ==> (#[trigger] candidates@[j] as int) == self.mesh@.stale_positions(cutoff)[j],
                candidates@.len() == self.mesh@.stale_positions(cutoff).len(),
                self.mesh@.wf(),
                forall|j: int|
                    0 <= j < k && #[trigger] alive@[j] ==> self.mesh@.agents[self.mesh@.stale_positions(
                        cutoff,
                    )[j]].pid <= i32::MAX,
            decreases candidates@.len() - k,
        {
            let pos = candidates[k];
            proof {
                let idx = crate::seqs::lemma_filter_embedding(crate::agents::positions(self.mesh@.agents.len()), crate::agents::stale_at(self.mesh@.agents, cutoff));
                assert(self.mesh@.stale_positions(cutoff)[k as int] == crate::agents::positions(self.mesh@.agents.len())[idx[k as int]]);
            }
            let probe = probe_process(self.mesh.agents[pos].pid);
            let alive_now = probe.alive();
            let ghost before = alive@;
            let ghost probed = probes@;
            alive.push(alive_now);
            probes.push(probe);
            assert(forall|j: int| 0 <= j < k ==> alive@[j] == before[j] && probes@[j] == probed[j]);
            k += 1;
        }
        let ghost start = self.mesh@;
        let r = self.mesh.collect_stale(cutoff, now, &alive);
        assert(old(self).state() == start);
        match r {
            Ok(report) => Ok(
                Collection {
                    dead_agents: report.dead_agents,
                    expired_claims: report.expired_claims,
                    probes,
                },
            ),
            Err(e) => Err(e),
        }
    }
}

/// The ids of inbox entries, in order.
pub open spec fn entry_ids(v: Seq<crate::messaging::InboxEntryView>) -> Seq<i64> {
    v.map_values(|e: crate::messaging::InboxEntryView| e.id)
}

impl MeshStore {
    /// Reads the inbox of a session and, when asked to, acknowledges every
    /// message read; the count of acknowledged messages is returned.
    pub fn read_inbox(&mut self, agent_id: &str, unread_only: bool, limit: u32, acknowledge: bool) -> (r:
        Result<(Vec<InboxEntry>, usize), MeshError>)
        requires
            old(self).wf(),
        ensures
            final(self).wf(),
            final(self).location() == old(self).location(),
            r is Err ==> final(self).state() == old(self).state(),
            !old(self).state().has_agent(agent_id@) ==> r matches Err(MeshError::AgentNotFound),
            match r {
                Ok((messages, n)) => {
                    &&& old(self).state().has_agent(agent_id@)
                    &&& old(self).state().is_inbox(agent_id@, unread_only, limit as nat, inbox_view(messages@))
                    &&& if acknowledge {
                        exists|now: i64|
                            now >= 0 && old(self).state().acknowledge(
                                agent_id@,
                                entry_ids(inbox_view(messages@)),
                                now,
                            ) == Ok::<(MeshView, nat), MeshError>((final(self).state(), n as nat))
                    } else {
                        n == 0 && final(self).state() == old(self).state()
                    }
                },
                Err(e) => (e == MeshError::AgentNotFound && !old(self).state().has_agent(agent_id@))
                    || (clock_error(e) && acknowledge && old(self).state().has_agent(agent_id@)),
            },
    {
        let messages = match self.inbox(agent_id, unread_only, limit) {
            Ok(m) => m,
            Err(e) => return Err(e),
        };
        if !acknowledge {
            return Ok((messages, 0));
        }
        let mut ids: Vec<i64> = Vec::new();
        let mut i: usize = 0;
        while i < messages.len()
            invariant
                i <= messages@.len(),
                ids@ == entry_ids(inbox_view(messages@)).take(i as int),
            decreases messages@.len() - i,
        {
            ids.push(messages[i].id);
            assert(ids@ =~= entry_ids(inbox_view(messages@)).take(i + 1));
            i += 1;
        }
        assert(ids@ =~= entry_ids(inbox_view(messages@)));
        let ghost before = self.state();
        let slice = ids.as_slice();
        assert(slice@ == entry_ids(inbox_view(messages@)));
        match self.acknowledge(agent_id, slice) {
            Ok(n) => {
                proof {
                    let now = choose|now: i64| now >= 0 && before.acknowledge(agent_id@, slice@, now) == Ok::<(MeshView, nat), MeshError>((self.state(), n as nat));
                    assert(before.acknowledge(agent_id@, entry_ids(inbox_view(messages@)), now) == Ok::<(MeshView, nat), MeshError>((self.state(), n as nat)));
                    assert(before == old(self).state());
                    assert(old(self).state().has_agent(agent_id@));
                    assert(old(self).state().is_inbox(agent_id@, unread_only, limit as nat, inbox_view(messages@)));
                }
                Ok((messages, n))
            },
            Err(e) => {
                proof {
                    if !clock_error(e) {
                        let now = choose|now: i64| now >= 0 && before.acknowledge(agent_id@, slice@, now) == Err::<(MeshView, nat), MeshError>(e);
                        assert(before.has_agent(agent_id@));
                    }
                }
                Err(e)
            },
        }
    }
}

} // verus!
