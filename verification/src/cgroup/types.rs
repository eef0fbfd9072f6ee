//! Control groups with their metrics, processes and children.

use vstd::prelude::*;
use crate::model::views;
use crate::path::{file_name, last_part};
use crate::process::types::{copy_processes, Process, ProcessView};
use crate::rate::{no_rate, Rate, PENDING};

verus! {

/// Metrics from cgroup controllers
#[derive(Debug, Clone, Copy)]
pub struct CgroupMetrics {
    /// Memory current usage in bytes (from memory.current)
    pub memory_current: Option<u64>,
    /// Memory limit in bytes (from memory.max, None if "max")
    pub memory_max: Option<u64>,
    /// CPU usage in microseconds (from cpu.stat usage_usec)
    pub cpu_usage_usec: Option<u64>,
    /// Number of processes (from pids.current)
    pub pids_current: Option<u32>,
    /// CPU percentage (calculated between samples, pending if no baseline yet)
    pub cpu_percent: Rate,
    /// Block I/O read bytes (from io.stat)
    pub io_read_bytes: Option<u64>,
    /// Block I/O write bytes (from io.stat)
    pub io_write_bytes: Option<u64>,
    /// Block I/O read rate in bytes/sec (calculated between samples, pending if no baseline)
    pub io_read_rate: Rate,
    /// Block I/O write rate in bytes/sec (calculated between samples, pending if no baseline)
    pub io_write_rate: Rate,
}

/// Nothing is known, and every rate is pending.
pub open spec fn no_metrics() -> CgroupMetrics {
    CgroupMetrics {
        memory_current: None,
        memory_max: None,
        cpu_usage_usec: None,
        pids_current: None,
        cpu_percent: no_rate(),
        io_read_bytes: None,
        io_write_bytes: None,
        io_read_rate: no_rate(),
        io_write_rate: no_rate(),
    }
}

impl Default for CgroupMetrics {
    fn default() -> (r: Self)
        ensures
            r == no_metrics(),
    {
        let pending = Rate { bits: PENDING };
        CgroupMetrics {
            memory_current: None,
            memory_max: None,
            cpu_usage_usec: None,
            pids_current: None,
            cpu_percent: pending,
            io_read_bytes: None,
            io_write_bytes: None,
            io_read_rate: pending,
            io_write_rate: pending,
        }
    }
}

/// A node in the cgroup hierarchy
#[derive(Debug)]
pub struct CgroupNode {
    /// Full path to the cgroup directory
    pub path: String,
    /// Name of this cgroup (last path component)
    pub name: String,
    /// Child cgroups
    pub children: Vec<CgroupNode>,
    /// Processes directly in this cgroup (from cgroup.procs)
    pub processes: Vec<Process>,
    /// Resource metrics from cgroup controllers
    pub metrics: CgroupMetrics,
    /// Depth in the tree (0 = root)
    pub depth: usize,
}

/// What is known of a cgroup and those below it.
pub struct CgroupView {
    pub path: Seq<char>,
    pub name: Seq<char>,
    pub children: Seq<CgroupView>,
    pub processes: Seq<ProcessView>,
    pub metrics: CgroupMetrics,
    pub depth: usize,
}

impl CgroupNode {
    pub open spec fn model(self) -> CgroupView
        decreases self,
    {
        CgroupView {
            path: self.path@,
            name: self.name@,
            children: Seq::new(
                self.children@.len(),
                |i: int|
                    if 0 <= i < self.children@.len() {
                        self.children@[i].model()
                    } else {
                        arbitrary()
                    },
            ),
            processes: views(self.processes@),
            metrics: self.metrics,
            depth: self.depth,
        }
    }
}

impl View for CgroupNode {
    type V = CgroupView;

    open spec fn view(&self) -> CgroupView {
        self.model()
    }
}

/// What a cgroup's list of children stands for is the children of what it stands for.
pub proof fn lemma_children(node: CgroupNode)
    ensures
        node@.children == views(node.children@),
        node@.children.len() == node.children@.len(),
        forall|i: int| 0 <= i < node.children@.len() ==> #[trigger] node.children@[i]@ == node@.children[i],
{
    assert(node@.children =~= views(node.children@));
}

/// The number of processes in a cgroup and below it.
pub open spec fn process_count(v: CgroupView) -> nat
    decreases v, v.children.len() + 1,
{
    v.processes.len() + process_count_in(v, v.children.len())
}

/// The number of processes in the first `n` children of a cgroup and below them.
pub open spec fn process_count_in(v: CgroupView, n: nat) -> nat
    decreases v, n,
{
    if n == 0 || n > v.children.len() {
        0
    } else {
        process_count_in(v, (n - 1) as nat) + process_count(v.children[n - 1])
    }
}

proof fn lemma_process_count_in(v: CgroupView, n: nat, m: nat)
    requires
        n <= m <= v.children.len(),
    ensures
        process_count_in(v, n) <= process_count_in(v, m),
    decreases m,
{
    if n < m {
        lemma_process_count_in(v, n, (m - 1) as nat);
    }
}

impl CgroupNode {
    /// A cgroup of which only the path is known.
    pub fn new(path: String, depth: usize) -> (r: Self)
        ensures
            r@ == (CgroupView {
                path: path@,
                name: match last_part(path@) {
                    Some(name) => name,
                    None => "/"@,
                },
                children: seq![],
                processes: seq![],
                metrics: no_metrics(),
                depth,
            }),
    {
        let name = match file_name(path.as_str()) {
            Some(name) => name,
            None => "/".to_string(),
        };
        let r = CgroupNode {
            path,
            name,
            children: Vec::new(),
            processes: Vec::new(),
            metrics: CgroupMetrics::default(),
            depth,
        };
        assert(r@.children =~= seq![]);
        assert(r@.processes =~= seq![]);
        r
    }

    /// Check if this is a leaf node (no child cgroups)
    pub fn is_leaf(&self) -> (r: bool)
        ensures
            r == (self@.children.len() == 0),
    {
        self.children.len() == 0
    }

    /// Total number of processes in this subtree
    pub fn total_processes(&self) -> (r: usize)
        requires
            process_count(self@) <= usize::MAX,
        ensures
            r == process_count(self@),
        decreases self,
    {
        let mut total: usize = 0;
        let mut i: usize = 0;
        proof {
            lemma_children(*self);
        }
        while i < self.children.len()
            invariant
                i <= self.children@.len(),
                self@.children.len() == self.children@.len(),
                forall|j: int|
                    0 <= j < self.children@.len() ==> #[trigger] self.children@[j]@ == self@.children[j],
                total == process_count_in(self@, i as nat),
                process_count(self@) <= usize::MAX,
            decreases self.children@.len() - i,
        {
            proof {
                lemma_process_count_in(self@, (i + 1) as nat, self@.children.len());
            }
            total = total + self.children[i].total_processes();
            i += 1;
        }
        total + self.processes.len()
    }
}

impl Clone for CgroupNode {
    fn clone(&self) -> (r: Self)
        ensures
            r@ == self@,
        decreases self,
    {
        let mut children: Vec<CgroupNode> = Vec::new();
        let mut i: usize = 0;
        while i < self.children.len()
            invariant
                i <= self.children@.len(),
                children@.len() == i,
                forall|j: int| 0 <= j < i ==> (#[trigger] children@[j])@ == self.children@[j]@,
            decreases self.children@.len() - i,
        {
            children.push(self.children[i].clone());
            i += 1;
        }
        let r = CgroupNode {
            path: self.path.clone(),
            name: self.name.clone(),
            children,
            processes: copy_processes(&self.processes),
            metrics: self.metrics,
            depth: self.depth,
        };
        assert(r@.children =~= self@.children);
        r
    }
}

}
