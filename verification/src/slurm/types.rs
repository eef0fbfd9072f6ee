//! What collectors send to the coordinator.
//!
//! These types carry raw cumulative counters (not rates) with timestamps.
//! The coordinator computes rates from consecutive snapshots.

use vstd::prelude::*;
use crate::model::views;
use crate::process::types::{copy_text, ProcessState};
use crate::text::text_in;

verus! {

/// Protocol version for backwards compatibility checks
pub const PROTOCOL_VERSION: u32 = 1;

/// A process with raw cumulative counters (no rates).
///
/// Includes `starttime` for PID reuse detection: the coordinator matches
/// processes by (pid, starttime) tuple across snapshots.
#[derive(Debug)]
pub struct ProcessRaw {
    /// Process ID
    pub pid: u32,
    /// Parent process ID
    pub ppid: u32,
    /// Process start time (field 22 from /proc/[pid]/stat)
    /// Used together with PID to uniquely identify a process instance
    pub starttime: u64,
    /// Process name (comm or basename of cmdline)
    pub name: String,
    /// Full command line (from /proc/[pid]/cmdline)
    pub cmdline: Option<String>,
    /// Username of the process owner
    pub user: String,
    /// Process state
    pub state: ProcessState,
    /// Number of threads
    pub num_threads: u32,
    /// Resident set size in bytes
    pub rss: u64,
    /// Virtual memory size in bytes
    pub vsize: u64,
    /// User CPU time in clock ticks
    pub utime: u64,
    /// System CPU time in clock ticks
    pub stime: u64,
    /// Block I/O read bytes (from /proc/[pid]/io)
    pub io_read_bytes: u64,
    /// Block I/O write bytes (from /proc/[pid]/io)
    pub io_write_bytes: u64,
}

/// What a snapshot says of a process.
pub struct ProcessRawView {
    pub pid: u32,
    pub ppid: u32,
    pub starttime: u64,
    pub name: Seq<char>,
    pub cmdline: Option<Seq<char>>,
    pub user: Seq<char>,
    pub state: ProcessState,
    pub num_threads: u32,
    pub rss: u64,
    pub vsize: u64,
    pub utime: u64,
    pub stime: u64,
    pub io_read_bytes: u64,
    pub io_write_bytes: u64,
}

impl ProcessRawView {
    /// The CPU time in clock ticks, in both modes.
    pub open spec fn ticks(self) -> u64 {
        self.utime.wrapping_add(self.stime)
    }
}

impl View for ProcessRaw {
    type V = ProcessRawView;

    open spec fn view(&self) -> ProcessRawView {
        ProcessRawView {
            pid: self.pid,
            ppid: self.ppid,
            starttime: self.starttime,
            name: self.name@,
            cmdline: text_in(self.cmdline),
            user: self.user@,
            state: self.state,
            num_threads: self.num_threads,
            rss: self.rss,
            vsize: self.vsize,
            utime: self.utime,
            stime: self.stime,
            io_read_bytes: self.io_read_bytes,
            io_write_bytes: self.io_write_bytes,
        }
    }
}

impl Clone for ProcessRaw {
    fn clone(&self) -> (r: Self)
        ensures
            r@ == self@,
    {
        ProcessRaw {
            pid: self.pid,
            ppid: self.ppid,
            starttime: self.starttime,
            name: self.name.clone(),
            cmdline: copy_text(&self.cmdline),
            user: self.user.clone(),
            state: self.state,
            num_threads: self.num_threads,
            rss: self.rss,
            vsize: self.vsize,
            utime: self.utime,
            stime: self.stime,
            io_read_bytes: self.io_read_bytes,
            io_write_bytes: self.io_write_bytes,
        }
    }
}

/// A cgroup node with raw cumulative counters (no rates).
#[derive(Debug)]
pub struct CgroupNodeRaw {
    /// Full path to the cgroup directory
    pub path: String,
    /// Name of this cgroup (last path component)
    pub name: String,
    /// Child cgroups
    pub children: Vec<CgroupNodeRaw>,
    /// Processes directly in this cgroup
    pub processes: Vec<ProcessRaw>,
    /// Depth in the tree (0 = root of monitored subtree)
    pub depth: usize,
    /// Memory current usage in bytes (from memory.current)
    pub memory_current: Option<u64>,
    /// Memory limit in bytes (from memory.max, None if "max")
    pub memory_max: Option<u64>,
    /// CPU usage in microseconds (from cpu.stat usage_usec)
    pub cpu_usage_usec: Option<u64>,
    /// Number of processes (from pids.current)
    pub pids_current: Option<u32>,
    /// Block I/O read bytes (from io.stat)
    pub io_read_bytes: Option<u64>,
    /// Block I/O write bytes (from io.stat)
    pub io_write_bytes: Option<u64>,
}

/// What a snapshot says of a cgroup and those below it.
pub struct CgroupRawView {
    pub path: Seq<char>,
    pub name: Seq<char>,
    pub children: Seq<CgroupRawView>,
    pub processes: Seq<ProcessRawView>,
    pub depth: usize,
    pub memory_current: Option<u64>,
    pub memory_max: Option<u64>,
    pub cpu_usage_usec: Option<u64>,
    pub pids_current: Option<u32>,
    pub io_read_bytes: Option<u64>,
    pub io_write_bytes: Option<u64>,
}

impl CgroupNodeRaw {
    pub open spec fn model(self) -> CgroupRawView
        decreases self,
    {
        CgroupRawView {
            path: self.path@,
            name: self.name@,
            children: Seq::new(
                self.children@.len(),
                |i: int|
                    if 0 <= i < self.children@.len() {
                        self.children@[i].model()
                    } else {
                        arbitrary()
                    },
            ),
            processes: views(self.processes@),
            depth: self.depth,
            memory_current: self.memory_current,
            memory_max: self.memory_max,
            cpu_usage_usec: self.cpu_usage_usec,
            pids_current: self.pids_current,
            io_read_bytes: self.io_read_bytes,
            io_write_bytes: self.io_write_bytes,
        }
    }
}

impl View for CgroupNodeRaw {
    type V = CgroupRawView;

    open spec fn view(&self) -> CgroupRawView {
        self.model()
    }
}

/// What a cgroup's list of children stands for is the children of what it stands for.
pub proof fn lemma_raw_children(node: CgroupNodeRaw)
    ensures
        node@.children.len() == node.children@.len(),
        forall|i: int| 0 <= i < node.children@.len() ==> #[trigger] node.children@[i]@ == node@.children[i],
{
}

/// A cgroup of which nothing is known.
pub open spec fn no_cgroup() -> CgroupRawView {
    CgroupRawView {
        path: seq![],
        name: seq![],
        children: seq![],
        processes: seq![],
        depth: 0,
        memory_current: None,
        memory_max: None,
        cpu_usage_usec: None,
        pids_current: None,
        io_read_bytes: None,
        io_write_bytes: None,
    }
}

impl Default for CgroupNodeRaw {
    fn default() -> (r: Self)
        ensures
            r@ == no_cgroup(),
    {
        let r = CgroupNodeRaw {
            path: String::new(),
            name: String::new(),
            children: Vec::new(),
            processes: Vec::new(),
            depth: 0,
            memory_current: None,
            memory_max: None,
            cpu_usage_usec: None,
            pids_current: None,
            io_read_bytes: None,
            io_write_bytes: None,
        };
        assert(r@.children =~= seq![]);
        assert(r@.processes =~= seq![]);
        r
    }
}

impl Clone for CgroupNodeRaw {
    fn clone(&self) -> (r: Self)
        ensures
            r@ == self@,
        decreases self,
    {
        let mut children: Vec<CgroupNodeRaw> = Vec::new();
        let mut i: usize = 0;
        while i < self.children.len()
            invariant
                i <= self.children@.len(),
                children@.len() == i,
                forall|j: int| 0 <= j < i ==> (#[trigger] children@[j])@ == self.children@[j]@,
            decreases self.children@.len() - i,
        {
            children.push(self.children[i].clone());
            i += 1;
        }
        let mut processes: Vec<ProcessRaw> = Vec::new();
        let mut k: usize = 0;
        while k < self.processes.len()
            invariant
                k <= self.processes@.len(),
                processes@.len() == k,
                forall|j: int| 0 <= j < k ==> (#[trigger] processes@[j])@ == self.processes@[j]@,
            decreases self.processes@.len() - k,
        {
            processes.push(self.processes[k].clone());
            k += 1;
        }
        let r = CgroupNodeRaw {
            path: self.path.clone(),
            name: self.name.clone(),
            children,
            processes,
            depth: self.depth,
            memory_current: self.memory_current,
            memory_max: self.memory_max,
            cpu_usage_usec: self.cpu_usage_usec,
            pids_current: self.pids_current,
            io_read_bytes: self.io_read_bytes,
            io_write_bytes: self.io_write_bytes,
        };
        assert(r@.children =~= self@.children);
        assert(r@.processes =~= self@.processes);
        r
    }
}

/// A snapshot of metrics from a single node, sent as one line.
#[derive(Debug)]
pub struct NodeSnapshot {
    /// Message type discriminator (always "snapshot")
    pub msg_type: String,
    /// Hostname of the node sending this snapshot
    pub node: String,
    /// Unix timestamp in milliseconds when metrics were sampled (collector's clock).
    ///
    /// Precision: Milliseconds provide sufficient resolution for collection intervals
    /// >= 100ms. For sub-100ms intervals, consider using microseconds to avoid
    /// elapsed time calculation errors exceeding 1%.
    ///
    /// Important: This timestamp is captured BEFORE parsing the cgroup tree to ensure
    /// accurate rate calculations. The elapsed time between samples is used to convert
    /// cumulative counters to rates.
    pub timestamp: u64,
    /// The cgroup tree with raw metrics
    pub cgroup_tree: CgroupNodeRaw,
    /// Protocol version for compatibility checking
    pub version: u32,
    /// PID of the collector process (for filtering in compact mode)
    pub collector_pid: u32,
    /// If this is the final snapshot before exit, explains why
    /// Values: "completed" | "sigterm" | "error"
    pub final_reason: Option<String>,
}

/// What a snapshot says.
pub struct SnapshotView {
    pub msg_type: Seq<char>,
    pub node: Seq<char>,
    pub timestamp: u64,
    pub cgroup_tree: CgroupRawView,
    pub version: u32,
    pub collector_pid: u32,
    pub final_reason: Option<Seq<char>>,
}

impl View for NodeSnapshot {
    type V = SnapshotView;

    open spec fn view(&self) -> SnapshotView {
        SnapshotView {
            msg_type: self.msg_type@,
            node: self.node@,
            timestamp: self.timestamp,
            cgroup_tree: self.cgroup_tree@,
            version: self.version,
            collector_pid: self.collector_pid,
            final_reason: text_in(self.final_reason),
        }
    }
}

impl Clone for NodeSnapshot {
    fn clone(&self) -> (r: Self)
        ensures
            r@ == self@,
    {
        NodeSnapshot {
            msg_type: self.msg_type.clone(),
            node: self.node.clone(),
            timestamp: self.timestamp,
            cgroup_tree: self.cgroup_tree.clone(),
            version: self.version,
            collector_pid: self.collector_pid,
            final_reason: copy_text(&self.final_reason),
        }
    }
}

/// `SystemTime::elapsed` of the UNIX epoch: the time since the epoch, or none where the clock
/// stands before it. Nothing is claimed of the time.
#[verifier::external_body]
fn since_epoch() -> (r: Option<std::time::Duration>) {
    std::time::UNIX_EPOCH.elapsed().ok()
}

/// `Duration::as_millis` gives the whole milliseconds of a duration. As durations come only from
/// the clock here, nothing is claimed of the number.
pub assume_specification[ std::time::Duration::as_millis ](d: &std::time::Duration) -> (r: u128);

/// The time in milliseconds as it is sent: the low 64 bits, or zero where there is none.
pub fn timestamp_of(millis: Option<u128>) -> (r: u64)
    ensures
        r == (match millis {
            Some(n) => (n % 0x1_0000_0000_0000_0000) as u64,
            None => 0,
        }),
{
    match millis {
        Some(n) => (n % 0x1_0000_0000_0000_0000) as u64,
        None => 0,
    }
}

impl NodeSnapshot {
    /// Create a new snapshot with a pre-captured timestamp.
    /// The timestamp should reflect when metrics were sampled,
    /// not when the snapshot was constructed.
    pub fn with_timestamp(
        node: String,
        cgroup_tree: CgroupNodeRaw,
        collector_pid: u32,
        timestamp: u64,
    ) -> (r: Self)
        ensures
            r@ == (SnapshotView {
                msg_type: "snapshot"@,
                node: node@,
                timestamp,
                cgroup_tree: cgroup_tree@,
                version: PROTOCOL_VERSION,
                collector_pid,
                final_reason: None,
            }),
    {
        NodeSnapshot {
            msg_type: "snapshot".to_string(),
            node,
            timestamp,
            cgroup_tree,
            version: PROTOCOL_VERSION,
            collector_pid,
            final_reason: None,
        }
    }

    /// Get current time as milliseconds since UNIX epoch
    pub fn now() -> (r: u64) {
        let millis: Option<u128> = match since_epoch() {
            Some(d) => Some(d.as_millis()),
            None => None,
        };
        timestamp_of(millis)
    }

    /// Mark this as the final snapshot with a reason
    pub fn with_final_reason(self, reason: &str) -> (r: Self)
        ensures
            r@ == (SnapshotView { final_reason: Some(reason@), ..self@ }),
    {
        let mut r = self;
        r.final_reason = Some(reason.to_string());
        r
    }
}

}
