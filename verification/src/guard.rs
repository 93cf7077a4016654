//! Host-side guards: memory snapshots with tampering detection, process
//! and syscall policy enforcement, and per-process call counting. The
//! actual interception hooks live outside the library; these types hold
//! the policies and make the decisions.

use vstd::prelude::*;

use crate::clock::now_seconds;
use crate::kvmap::lemma_views_insert;
use crate::kvmap::views_of;
use crate::kvmap::StrMap;
use crate::strutil::contains_str;
use crate::strutil::vec_contains_str;

verus! {

use vstd::slice::slice_to_vec;
use vstd::string::StrSliceExecFns;
use vstd::string::StringExecFns;

/// Memory snapshots per process, and the processes cleared to touch
/// protected memory.
pub struct MemoryProtection {
    monitored_pages: StrMap<Vec<u8>>,
    access_control_list: Vec<String>,
}

impl MemoryProtection {
    /// The stored snapshots as a map from process to page bytes.
    pub closed spec fn snapshots(&self) -> Map<Seq<char>, Seq<u8>> {
        views_of(self.monitored_pages@)
    }

    /// The processes cleared for protected access.
    pub closed spec fn cleared(&self) -> Seq<Seq<char>> {
        self.access_control_list@.map_values(|s: String| s@)
    }

    /// Nothing monitored, nobody cleared.
    pub fn new() -> (r: MemoryProtection)
        ensures
            r.snapshots() == Map::<Seq<char>, Seq<u8>>::empty(),
            r.cleared().len() == 0,
    {
        let r = MemoryProtection { monitored_pages: StrMap::new(), access_control_list: Vec::new() };
        proof {
            assert(r.snapshots() =~= Map::<Seq<char>, Seq<u8>>::empty());
        }
        r
    }

    /// Stores the reference snapshot for a process.
    pub fn store_memory_snapshot(&mut self, process: &str, memory_page: &[u8])
        ensures
            final(self).snapshots() == old(self).snapshots().insert(process@, memory_page@),
            final(self).cleared() == old(self).cleared(),
    {
        let ghost before = self.monitored_pages@;
        self.monitored_pages.insert(process, slice_to_vec(memory_page));
        proof {
            lemma_views_insert(before, process@, self.monitored_pages@[process@]);
        }
    }

    /// Whether the page a process presents differs from its stored
    /// snapshot; an unmonitored process cannot be accused.
    pub fn detect_memory_tampering(&self, process: &str, page_data: &[u8]) -> (r: bool)
        ensures
            r == (self.snapshots().contains_key(process@) && self.snapshots()[process@]
                != page_data@),
    {
        match self.monitored_pages.get(process) {
            Some(stored) => {
                let same = bytes_eq(stored.as_slice(), page_data);
                !same
            },
            None => false,
        }
    }

    /// Clears a process for protected memory access.
    pub fn authorize_process(&mut self, process: &str)
        ensures
            final(self).cleared() == old(self).cleared() || final(self).cleared() == old(
                self,
            ).cleared().push(process@),
            final(self).cleared().contains(process@),
            final(self).snapshots() == old(self).snapshots(),
    {
        if !vec_contains_str(&self.access_control_list, process) {
            self.access_control_list.push(process.to_owned());
            proof {
                assert(self.cleared() =~= old(self).cleared().push(process@));
                assert(self.cleared()[self.cleared().len() - 1] == process@);
            }
        } else {
            proof {
                let k = choose|k: int|
                    0 <= k < self.access_control_list@.len() && (
                    #[trigger] self.access_control_list@[k])@ == process@;
                assert(self.cleared()[k] == process@);
            }
        }
    }

    /// Whether a process is cleared for protected memory access.
    pub fn enforce_memory_access_control(&self, process: &str) -> (r: bool)
        ensures
            r == self.cleared().contains(process@),
    {
        let r = vec_contains_str(&self.access_control_list, process);
        proof {
            if r {
                let k = choose|k: int|
                    0 <= k < self.access_control_list@.len() && (
                    #[trigger] self.access_control_list@[k])@ == process@;
                assert(self.cleared()[k] == process@);
            } else {
                if self.cleared().contains(process@) {
                    let k = choose|k: int|
                        0 <= k < self.cleared().len() && self.cleared()[k] == process@;
                    assert(self.access_control_list@[k]@ == process@);
                }
            }
        }
        r
    }
}

/// Whether two byte slices hold the same bytes.
pub fn bytes_eq(a: &[u8], b: &[u8]) -> (r: bool)
    ensures
        r == (a@ == b@),
{
    let na = a.len();
    if na != b.len() {
        return false;
    }
    let mut i: usize = 0;
    while i < na
        invariant
            i <= na == a@.len() == b@.len(),
            forall|j: int| 0 <= j < i ==> a@[j] == b@[j],
        decreases na - i,
    {
        if a[i] != b[i] {
            return false;
        }
        i += 1;
    }
    proof {
        assert(a@ =~= b@);
    }
    true
}

/// Per-process syscall counters.
pub struct SyscallMonitor {
    call_counts: StrMap<u64>,
}

impl SyscallMonitor {
    /// How many syscalls each process has made.
    pub closed spec fn counts(&self) -> Map<Seq<char>, u64> {
        self.call_counts@
    }

    /// Nothing observed yet.
    pub fn new() -> (r: SyscallMonitor)
        ensures
            r.counts() == Map::<Seq<char>, u64>::empty(),
    {
        SyscallMonitor { call_counts: StrMap::new() }
    }

    /// Counts one syscall by `process_name`.
    pub fn log_syscall(&mut self, process_name: &str)
        ensures
            final(self).counts() == old(self).counts().insert(
                process_name@,
                if old(self).counts().contains_key(process_name@) {
                    if old(self).counts()[process_name@] == u64::MAX {
                        old(self).counts()[process_name@]
                    } else {
                        (old(self).counts()[process_name@] + 1) as u64
                    }
                } else {
                    1
                },
            ),
    {
        let next: u64 = match self.call_counts.get(process_name) {
            Some(c) => {
                if *c == u64::MAX {
                    *c
                } else {
                    *c + 1
                }
            },
            None => 1,
        };
        self.call_counts.insert(process_name, next);
    }

    /// The current instant, read from the system clock.
    pub fn timestamp(&self) -> u64 {
        now_seconds()
    }
}

/// The syscall and process policies enforced host-wide.
pub struct ZeroTrustSecurity {
    blocked_syscalls: Vec<String>,
    privileged_processes: Vec<String>,
}

impl ZeroTrustSecurity {
    /// The syscalls no process may make.
    pub closed spec fn blocked(&self) -> Seq<String> {
        self.blocked_syscalls@
    }

    /// The processes that may act with privilege.
    pub closed spec fn privileged(&self) -> Seq<String> {
        self.privileged_processes@
    }

    /// The stock policy set.
    pub fn new() -> (r: ZeroTrustSecurity)
        ensures
            contains_str(r.blocked(), "ptrace"@),
            contains_str(r.blocked(), "chmod 777"@),
            contains_str(r.blocked(), "cap_setuid"@),
            contains_str(r.blocked(), "cap_setgid"@),
            contains_str(r.privileged(), "init"@),
            contains_str(r.privileged(), "systemd"@),
            contains_str(r.privileged(), "sshd"@),
    {
        let mut blocked_syscalls: Vec<String> = Vec::new();
        blocked_syscalls.push("ptrace".to_owned());
        blocked_syscalls.push("chmod 777".to_owned());
        blocked_syscalls.push("cap_setuid".to_owned());
        blocked_syscalls.push("cap_setgid".to_owned());
        let mut privileged_processes: Vec<String> = Vec::new();
        privileged_processes.push("init".to_owned());
        privileged_processes.push("systemd".to_owned());
        privileged_processes.push("sshd".to_owned());
        proof {
            assert(blocked_syscalls@[0]@ == "ptrace"@);
            assert(blocked_syscalls@[1]@ == "chmod 777"@);
            assert(blocked_syscalls@[2]@ == "cap_setuid"@);
            assert(blocked_syscalls@[3]@ == "cap_setgid"@);
            assert(privileged_processes@[0]@ == "init"@);
            assert(privileged_processes@[1]@ == "systemd"@);
            assert(privileged_processes@[2]@ == "sshd"@);
        }
        ZeroTrustSecurity { blocked_syscalls, privileged_processes }
    }

    /// Whether `syscall` may proceed: exactly when it is not on the
    /// blocked list.
    pub fn enforce_policy(&self, syscall: &str) -> (r: bool)
        ensures
            r == !contains_str(self.blocked(), syscall@),
    {
        !vec_contains_str(&self.blocked_syscalls, syscall)
    }

    /// Whether `process` may escalate privileges: exactly when it is on
    /// the privileged list, so an unknown process fails closed.
    pub fn prevent_privilege_escalation(&self, process: &str) -> (r: bool)
        ensures
            r == contains_str(self.privileged(), process@),
    {
        vec_contains_str(&self.privileged_processes, process)
    }
}

/// Processes observed by the host, with the stock block list.
pub struct ProcessMonitor {
    running_processes: StrMap<String>,
    blocked_processes: Vec<String>,
}

impl ProcessMonitor {
    /// The processes seen so far, each with its parent.
    pub closed spec fn running(&self) -> Map<Seq<char>, Seq<char>> {
        views_of(self.running_processes@)
    }

    /// The process names that must not run.
    pub closed spec fn blocked(&self) -> Seq<String> {
        self.blocked_processes@
    }

    /// The stock block list, with nothing running yet.
    pub fn new() -> (r: ProcessMonitor)
        ensures
            r.running() == Map::<Seq<char>, Seq<char>>::empty(),
            contains_str(r.blocked(), "malicious_binary"@),
            contains_str(r.blocked(), "unauthorized_script"@),
            contains_str(r.blocked(), "remote_shell"@),
            contains_str(r.blocked(), "keylogger"@),
    {
        let mut blocked_processes: Vec<String> = Vec::new();
        blocked_processes.push("malicious_binary".to_owned());
        blocked_processes.push("unauthorized_script".to_owned());
        blocked_processes.push("remote_shell".to_owned());
        blocked_processes.push("keylogger".to_owned());
        proof {
            assert(blocked_processes@[0]@ == "malicious_binary"@);
            assert(blocked_processes@[1]@ == "unauthorized_script"@);
            assert(blocked_processes@[2]@ == "remote_shell"@);
            assert(blocked_processes@[3]@ == "keylogger"@);
        }
        let r = ProcessMonitor { running_processes: StrMap::new(), blocked_processes };
        proof {
            assert(r.running() =~= Map::<Seq<char>, Seq<char>>::empty());
        }
        r
    }

    /// Records that `process` was started by `parent`.
    pub fn log_execution(&mut self, process: &str, parent: &str)
        ensures
            final(self).running() == old(self).running().insert(process@, parent@),
            final(self).blocked() == old(self).blocked(),
    {
        let ghost before = self.running_processes@;
        self.running_processes.insert(process, parent.to_owned());
        proof {
            lemma_views_insert(before, process@, self.running_processes@[process@]);
        }
    }

    /// Whether `process` may run: exactly when it is not on the block
    /// list.
    pub fn enforce_execution_policies(&self, process: &str) -> (r: bool)
        ensures
            r == !contains_str(self.blocked(), process@),
    {
        !vec_contains_str(&self.blocked_processes, process)
    }
}

/// Syscall interception policies and per-process counters.
pub struct SyscallInterceptor {
    call_counts: StrMap<u64>,
    blocked_syscalls: Vec<String>,
}

impl SyscallInterceptor {
    /// How many syscalls each process has made.
    pub closed spec fn counts(&self) -> Map<Seq<char>, u64> {
        self.call_counts@
    }

    /// The syscalls that are refused.
    pub closed spec fn blocked(&self) -> Seq<String> {
        self.blocked_syscalls@
    }

    /// The stock refusal list, with nothing counted yet.
    pub fn new() -> (r: SyscallInterceptor)
        ensures
            r.counts() == Map::<Seq<char>, u64>::empty(),
            contains_str(r.blocked(), "ptrace"@),
            contains_str(r.blocked(), "setuid"@),
            contains_str(r.blocked(), "setgid"@),
            contains_str(r.blocked(), "kill"@),
            contains_str(r.blocked(), "execve"@),
    {
        let mut blocked_syscalls: Vec<String> = Vec::new();
        blocked_syscalls.push("ptrace".to_owned());
        blocked_syscalls.push("chmod 777".to_owned());
        blocked_syscalls.push("setuid".to_owned());
        blocked_syscalls.push("setgid".to_owned());
        blocked_syscalls.push("kill".to_owned());
        blocked_syscalls.push("execve".to_owned());
        blocked_syscalls.push("cap_setuid".to_owned());
        blocked_syscalls.push("cap_setgid".to_owned());
        blocked_syscalls.push("sysctl".to_owned());
        proof {
            assert(blocked_syscalls@[0]@ == "ptrace"@);
            assert(blocked_syscalls@[2]@ == "setuid"@);
            assert(blocked_syscalls@[3]@ == "setgid"@);
            assert(blocked_syscalls@[4]@ == "kill"@);
            assert(blocked_syscalls@[5]@ == "execve"@);
        }
        SyscallInterceptor { call_counts: StrMap::new(), blocked_syscalls }
    }

    /// Counts one syscall by `process_name`.
    pub fn log_syscall(&mut self, process_name: &str)
        ensures
            final(self).counts() == old(self).counts().insert(
                process_name@,
                if old(self).counts().contains_key(process_name@) {
                    if old(self).counts()[process_name@] == u64::MAX {
                        old(self).counts()[process_name@]
                    } else {
                        (old(self).counts()[process_name@] + 1) as u64
                    }
                } else {
                    1
                },
            ),
            final(self).blocked() == old(self).blocked(),
    {
        let next: u64 = match self.call_counts.get(process_name) {
            Some(c) => {
                if *c == u64::MAX {
                    *c
                } else {
                    *c + 1
                }
            },
            None => 1,
        };
        self.call_counts.insert(process_name, next);
    }

    /// Whether `syscall` may proceed: exactly when it is not refused.
    pub fn enforce_syscall_policies(&self, syscall: &str) -> (r: bool)
        ensures
            r == !contains_str(self.blocked(), syscall@),
    {
        !vec_contains_str(&self.blocked_syscalls, syscall)
    }

    /// The current instant, read from the system clock.
    pub fn timestamp(&self) -> u64 {
        now_seconds()
    }
}

} // verus!
