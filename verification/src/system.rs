//! What the coordination kernel learns from the machine: the clock,
//! process liveness, the parent process, and identifiers.
use vstd::prelude::*;

use crate::mesh::MeshError;

verus! {

/// Milliseconds since the Unix epoch read from `SystemTime::now`, or
/// `None` when the clock reads a time before the epoch.  Nothing is
/// claimed about the value: it depends on the machine's clock.
#[verifier::external_body]
fn unix_time_millis() -> (r: Option<u128>) {
    match std::time::SystemTime::now().duration_since(std::time::UNIX_EPOCH) {
        Ok(elapsed) => Some(elapsed.as_millis()),
        Err(_) => None,
    }
}

/// What a reading of the clock gives in milliseconds since the epoch:
/// refused before the epoch and beyond `i64::MAX`.
pub open spec fn clock_millis(reading: Option<u128>) -> Result<i64, MeshError> {
    match reading {
        Some(ms) => if ms > i64::MAX {
            Err(MeshError::ClockOverflow)
        } else {
            Ok(ms as i64)
        },
        None => Err(MeshError::ClockBeforeEpoch),
    }
}

/// Decides [`clock_millis`] for a reading of the clock.
pub fn epoch_millis(reading: Option<u128>) -> (r: Result<i64, MeshError>)
    ensures
        r == clock_millis(reading),
{
    match reading {
        Some(ms) => if ms > i64::MAX as u128 {
            Err(MeshError::ClockOverflow)
        } else {
            Ok(ms as i64)
        },
        None => Err(MeshError::ClockBeforeEpoch),
    }
}

/// The current time in milliseconds since the Unix epoch.  Which time is
/// read depends on the machine's clock; see [`epoch_millis`] for what is
/// made of a reading.
pub fn now_ms() -> (r: Result<i64, MeshError>)
    ensures
        r matches Ok(t) ==> t >= 0,
        r matches Err(e) ==> e == MeshError::ClockBeforeEpoch || e == MeshError::ClockOverflow,
{
    epoch_millis(unix_time_millis())
}

/// What a null signal sent to a process reported.
#[derive(Clone, Copy, PartialEq, Eq, Structural, Debug)]
pub enum Probe {
    /// The signal could be delivered.
    Delivered,
    /// The process exists but may not be signalled (`EPERM`).
    Denied,
    /// Any other error, such as `ESRCH` for a missing process.
    Failed,
}

/// Sends the null signal to `pid` with `nix::sys::signal::kill` and reports
/// the outcome.  Nothing is claimed about it: it depends on the processes
/// of the machine.
#[verifier::external_body]
fn signal_probe(pid: i32) -> (p: Probe) {
    match nix::sys::signal::kill(nix::unistd::Pid::from_raw(pid), None::<nix::sys::signal::Signal>) {
        Ok(()) => Probe::Delivered,
        Err(nix::errno::Errno::EPERM) => Probe::Denied,
        Err(_) => Probe::Failed,
    }
}

/// A process counts as alive when the null signal reached it or was
/// refused for lack of permission.
pub open spec fn alive_after(p: Probe) -> bool {
    p == Probe::Delivered || p == Probe::Denied
}

/// Decides [`alive_after`].
pub fn liveness(p: Probe) -> (alive: bool)
    ensures
        alive == alive_after(p),
{
    match p {
        Probe::Delivered => true,
        Probe::Denied => true,
        Probe::Failed => false,
    }
}

/// Whether a process with this id exists.  An id above `i32::MAX` names no
/// process; otherwise the null signal decides.
pub fn process_is_alive(pid: u32) -> (alive: bool)
    ensures
        pid > i32::MAX ==> !alive,
{
    if pid > i32::MAX as u32 {
        return false;
    }
    liveness(signal_probe(pid as i32))
}

/// What a liveness probe of one process found.  Its fields are private:
/// only [`probe_process`] makes one, so a probe in hand was sent to its pid.
#[derive(Debug, Clone, Copy)]
pub struct ProcessProbe {
    pid: u32,
    alive: bool,
}

impl ProcessProbe {
    /// The process id that was probed.
    pub closed spec fn probed_pid(self) -> u32 {
        self.pid
    }

    /// Whether the probe found the process alive.
    pub closed spec fn found_alive(self) -> bool {
        self.alive
    }

    pub fn pid(&self) -> (p: u32)
        ensures
            p == self.probed_pid(),
    {
        self.pid
    }

    pub fn alive(&self) -> (b: bool)
        ensures
            b == self.found_alive(),
    {
        self.alive
    }
}

/// Probes process `pid` with [`process_is_alive`] and keeps the answer
/// with the pid.
pub fn probe_process(pid: u32) -> (p: ProcessProbe)
    ensures
        p.probed_pid() == pid,
        p.found_alive() ==> pid <= i32::MAX,
{
    ProcessProbe { pid, alive: process_is_alive(pid) }
}

/// The parent process id from `nix::unistd::getppid`, which always
/// succeeds.  Nothing is claimed about the value.
#[verifier::external_body]
pub(crate) fn parent_pid() -> (ppid: i64) {
    nix::unistd::getppid().as_raw() as i64
}

pub open spec fn is_lower_hex(c: char) -> bool {
    ('0' <= c && c <= '9') || ('a' <= c && c <= 'f')
}

/// A fresh random identifier: `Uuid::new_v4` in its simple format, 32
/// lowercase hexadecimal digits.  Nothing else is claimed: it is random.
#[verifier::external_body]
fn random_token() -> (t: String)
    ensures
        t@.len() == 32,
        forall|i: int| 0 <= i < 32 ==> is_lower_hex(#[trigger] t@[i]),
{
    uuid::Uuid::new_v4().simple().to_string()
}

/// The simple format of the version 5 UUID of a name in the URL namespace.
pub uninterp spec fn url_uuid_v5(name: Seq<u8>) -> Seq<char>;

/// `Uuid::new_v5(&Uuid::NAMESPACE_URL, name)` in its simple format; the
/// result is named [`url_uuid_v5`] of the UTF-8 bytes of the name.
#[verifier::external_body]
fn name_uuid(name: &str) -> (id: String)
    ensures
        id@ == url_uuid_v5(crate::text::text_bytes(name@)),
{
    uuid::Uuid::new_v5(&uuid::Uuid::NAMESPACE_URL, name.as_bytes()).simple().to_string()
}

/// The id of the workspace rooted at `root`: the URL-namespace UUID of
/// `pidmesh:<root>`.
pub open spec fn workspace_id_of(root: Seq<char>) -> Seq<char> {
    url_uuid_v5(crate::text::text_bytes("pidmesh:"@ + root))
}

/// Computes [`workspace_id_of`].
pub fn workspace_id(root: &str) -> (id: String)
    ensures
        id@ == workspace_id_of(root@),
{
    let mut name = String::from_str("pidmesh:");
    name.append(root);
    name_uuid(name.as_str())
}

/// A random session suffix: eight lowercase hexadecimal digits.
pub open spec fn session_suffix(s: Seq<char>) -> bool {
    s.len() == 8 && forall|i: int| 0 <= i < 8 ==> is_lower_hex(#[trigger] s[i])
}

/// The generated id of a session: `<name>-<pid>-<suffix>`.
pub open spec fn session_id(name: Seq<char>, pid: u32, suffix: Seq<char>) -> Seq<char> {
    name + "-"@ + crate::text::decimal(pid as nat) + "-"@ + suffix
}

/// Generates a session id whose suffix is the first eight digits of a
/// fresh random token.
pub fn new_session_id(name: &str, pid: u32) -> (id: String)
    ensures
        exists|suffix: Seq<char>| session_suffix(suffix) && id@ == session_id(name@, pid, suffix),
{
    let token = random_token();
    let suffix = token.as_str().substring_char(0, 8);
    let mut id = String::from_str(name);
    id.append("-");
    let digits = crate::text::decimal_text(pid as u64);
    id.append(digits.as_str());
    id.append("-");
    id.append(suffix);
    assert(id@ == session_id(name@, pid, suffix@));
    assert(session_suffix(suffix@)) by {
        assert forall|i: int| 0 <= i < 8 implies is_lower_hex(#[trigger] suffix@[i]) by {
            assert(suffix@[i] == token@[i]);
        }
    }
    id
}

/// The id of a supervised session: `<name>-run-<suffix>`.
pub open spec fn supervised_id(name: Seq<char>, suffix: Seq<char>) -> Seq<char> {
    name + "-run-"@ + suffix
}

/// Generates the id of a supervised session whose suffix is the first
/// eight digits of a fresh random token.
pub fn new_supervised_id(name: &str) -> (id: String)
    ensures
        exists|suffix: Seq<char>| session_suffix(suffix) && id@ == supervised_id(name@, suffix),
{
    let token = random_token();
    let suffix = token.as_str().substring_char(0, 8);
    let mut id = String::from_str(name);
    id.append("-run-");
    id.append(suffix);
    assert(id@ == supervised_id(name@, suffix@));
    assert(session_suffix(suffix@)) by {
        assert forall|i: int| 0 <= i < 8 implies is_lower_hex(#[trigger] suffix@[i]) by {
            assert(suffix@[i] == token@[i]);
        }
    }
    id
}

/// The exit status a supervisor reports for its child: the child's exit
/// code when it has one that fits a byte, else 1 (no code: killed by a
/// signal).
pub fn exit_status(code: Option<i32>) -> (r: u8)
    ensures
        r == match code {
            Some(c) => if 0 <= c <= 255 {
                c as u8
            } else {
                1u8
            },
            None => 1u8,
        },
{
    match code {
        Some(c) => if 0 <= c && c <= 255 {
            c as u8
        } else {
            1
        },
        None => 1,
    }
}

} // verus!
