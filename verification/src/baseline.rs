//! Rates from one sample to the next: the counters of the last sample, and what they grew by.

use vstd::prelude::*;
use std::collections::HashMap;
use crate::cgroup::types::{lemma_children, CgroupMetrics, CgroupNode, CgroupView};
use crate::model::views;
use crate::path::{place_of, Place};
use crate::process::types::{Process, ProcessView};
use crate::rate::{byte_rate, cpu_share, growth, nanos_in_seconds, seconds_of_nanos, Rate};
use crate::table::PathMap;

verus! {

/// Clock ticks per second, in which the CPU time of processes is given.
pub const CLOCK_TICKS: u64 = 100;

/// Microseconds per second, in which the CPU time of cgroups is given.
pub const MICROS: u64 = 1_000_000;

/// Previous CPU time (for calculating CPU%)
#[derive(Debug, Clone, Copy)]
pub struct CpuMark {
    pub total_time: u64,
    /// When it was read, in nanoseconds
    pub timestamp: u64,
}

/// Previous I/O stats (for calculating I/O rates)
#[derive(Debug, Clone, Copy)]
pub struct IoMark {
    pub read_bytes: u64,
    pub write_bytes: u64,
    /// When they were read, in nanoseconds
    pub timestamp: u64,
}

/// The counters of the last sample: of processes by their ID, of cgroups by their path
#[derive(Debug)]
pub struct Baseline {
    cpu: HashMap<u32, CpuMark>,
    cgroup_cpu: PathMap<CpuMark>,
    io: HashMap<u32, IoMark>,
    cgroup_io: PathMap<IoMark>,
}

pub struct BaselineView {
    pub cpu: Map<u32, CpuMark>,
    pub cgroup_cpu: Map<Place, CpuMark>,
    pub io: Map<u32, IoMark>,
    pub cgroup_io: Map<Place, IoMark>,
}

impl View for Baseline {
    type V = BaselineView;

    closed spec fn view(&self) -> BaselineView {
        BaselineView {
            cpu: self.cpu@,
            cgroup_cpu: self.cgroup_cpu@,
            io: self.io@,
            cgroup_io: self.cgroup_io@,
        }
    }
}

/// Nothing was sampled yet.
pub open spec fn no_baseline() -> BaselineView {
    BaselineView {
        cpu: Map::empty(),
        cgroup_cpu: Map::empty(),
        io: Map::empty(),
        cgroup_io: Map::empty(),
    }
}

/// The CPU share since a mark; what is known stays where no time has passed since one.
pub open spec fn cpu_since(
    mark: Option<CpuMark>,
    total: u64,
    per_second: u64,
    now: u64,
    known: Rate,
) -> Rate {
    match mark {
        Some(m) => if now > m.timestamp {
            cpu_share(
                growth(total, m.total_time),
                per_second as nat,
                nanos_in_seconds((now - m.timestamp) as nat),
            )
        } else {
            known
        },
        None => known,
    }
}

/// The rates of bytes read and written since a mark.
pub open spec fn io_since(
    mark: Option<IoMark>,
    read_bytes: u64,
    write_bytes: u64,
    now: u64,
    known: (Rate, Rate),
) -> (Rate, Rate) {
    match mark {
        Some(m) => if now > m.timestamp {
            let seconds = nanos_in_seconds((now - m.timestamp) as nat);
            (
                byte_rate(growth(read_bytes, m.read_bytes), seconds),
                byte_rate(growth(write_bytes, m.write_bytes), seconds),
            )
        } else {
            known
        },
        None => known,
    }
}

/// What a table holds for a key.
pub open spec fn entry<K, V>(m: Map<K, V>, k: K) -> Option<V> {
    if m.contains_key(k) {
        Some(m[k])
    } else {
        None
    }
}

/// The bytes that a counter gives, none where it is missing.
pub open spec fn or_zero(n: Option<u64>) -> u64 {
    match n {
        Some(n) => n,
        None => 0,
    }
}

/// A process with its rates since the last sample, and the counters of this one.
pub open spec fn process_measured(b: BaselineView, p: ProcessView, now: u64) -> (
    BaselineView,
    ProcessView,
) {
    let cpu_percent = cpu_since(entry(b.cpu, p.pid), p.ticks(), CLOCK_TICKS, now, p.cpu_percent);
    let cpu = b.cpu.insert(p.pid, CpuMark { total_time: p.ticks(), timestamp: now });
    if p.io_read_bytes > 0 || p.io_write_bytes > 0 {
        let rates = io_since(
            entry(b.io, p.pid),
            p.io_read_bytes,
            p.io_write_bytes,
            now,
            (p.io_read_rate, p.io_write_rate),
        );
        let mark = IoMark {
            read_bytes: p.io_read_bytes,
            write_bytes: p.io_write_bytes,
            timestamp: now,
        };
        (
            BaselineView { cpu, io: b.io.insert(p.pid, mark), ..b },
            ProcessView { cpu_percent, io_read_rate: rates.0, io_write_rate: rates.1, ..p },
        )
    } else {
        (BaselineView { cpu, ..b }, ProcessView { cpu_percent, ..p })
    }
}

/// The first `n` processes with their rates, one after the other.
pub open spec fn processes_measured(
    b: BaselineView,
    list: Seq<ProcessView>,
    n: nat,
    now: u64,
) -> (BaselineView, Seq<ProcessView>)
    decreases n,
{
    if n == 0 {
        (b, seq![])
    } else {
        let before = processes_measured(b, list, (n - 1) as nat, now);
        let next = process_measured(before.0, list[n - 1], now);
        (next.0, before.1.push(next.1))
    }
}

/// The metrics of a cgroup with the CPU share since the last sample.
pub open spec fn cpu_measured(b: BaselineView, place: Place, m: CgroupMetrics, now: u64) -> (
    BaselineView,
    CgroupMetrics,
) {
    match m.cpu_usage_usec {
        Some(usage) => {
            let cpu_percent = cpu_since(
                entry(b.cgroup_cpu, place),
                usage,
                MICROS,
                now,
                m.cpu_percent,
            );
            let mark = CpuMark { total_time: usage, timestamp: now };
            (
                BaselineView { cgroup_cpu: b.cgroup_cpu.insert(place, mark), ..b },
                CgroupMetrics { cpu_percent, ..m },
            )
        },
        None => (b, m),
    }
}

/// The metrics of a cgroup with the I/O rates since the last sample.
pub open spec fn io_measured(b: BaselineView, place: Place, m: CgroupMetrics, now: u64) -> (
    BaselineView,
    CgroupMetrics,
) {
    let read_bytes = or_zero(m.io_read_bytes);
    let write_bytes = or_zero(m.io_write_bytes);
    if read_bytes > 0 || write_bytes > 0 {
        let rates = io_since(
            entry(b.cgroup_io, place),
            read_bytes,
            write_bytes,
            now,
            (m.io_read_rate, m.io_write_rate),
        );
        let mark = IoMark { read_bytes, write_bytes, timestamp: now };
        (
            BaselineView { cgroup_io: b.cgroup_io.insert(place, mark), ..b },
            CgroupMetrics { io_read_rate: rates.0, io_write_rate: rates.1, ..m },
        )
    } else {
        (b, m)
    }
}

/// A tree with its rates since the last sample, and the counters of this one: the cgroup itself,
/// its processes, then its children.
pub open spec fn tree_measured(b: BaselineView, v: CgroupView, now: u64) -> (
    BaselineView,
    CgroupView,
)
    decreases v, v.children.len() + 1,
{
    let place = place_of(v.path);
    let cpu = cpu_measured(b, place, v.metrics, now);
    let io = io_measured(cpu.0, place, cpu.1, now);
    let own = processes_measured(io.0, v.processes, v.processes.len(), now);
    let all = children_measured(own.0, v, v.children.len(), now);
    (all.0, CgroupView { metrics: io.1, processes: own.1, children: all.1, ..v })
}

/// The first `n` children of a cgroup with their rates, one after the other.
pub open spec fn children_measured(b: BaselineView, v: CgroupView, n: nat, now: u64) -> (
    BaselineView,
    Seq<CgroupView>,
)
    decreases v, n,
{
    if n == 0 || n > v.children.len() {
        (b, seq![])
    } else {
        let before = children_measured(b, v, (n - 1) as nat, now);
        let next = tree_measured(before.0, v.children[n - 1], now);
        (next.0, before.1.push(next.1))
    }
}

impl Baseline {
    pub closed spec fn wf(&self) -> bool {
        self.cgroup_cpu.wf() && self.cgroup_io.wf()
    }

    /// Nothing was sampled yet.
    pub fn new() -> (r: Self)
        ensures
            r.wf(),
            r@ == no_baseline(),
    {
        Baseline {
            cpu: HashMap::new(),
            cgroup_cpu: PathMap::new(),
            io: HashMap::new(),
            cgroup_io: PathMap::new(),
        }
    }

    /// Calculates the rates of a process.
    fn measure_process(&mut self, p: &mut Process, now: u64)
        requires
            old(self).wf(),
        ensures
            final(self).wf(),
            (final(self)@, final(p)@) == process_measured(old(self)@, old(p)@, now),
    {
        broadcast use vstd::std_specs::hash::group_hash_axioms;

        let total_time: u64 = p.total_time();
        p.cpu_percent = measure_cpu(self.cpu.get(&p.pid), total_time, CLOCK_TICKS, now, p.cpu_percent);
        self.cpu.insert(p.pid, CpuMark { total_time, timestamp: now });
        if p.io_read_bytes > 0 || p.io_write_bytes > 0 {
            let rates = measure_io(
                self.io.get(&p.pid),
                p.io_read_bytes,
                p.io_write_bytes,
                now,
                (p.io_read_rate, p.io_write_rate),
            );
            p.io_read_rate = rates.0;
            p.io_write_rate = rates.1;
            self.io.insert(
                p.pid,
                IoMark {
                    read_bytes: p.io_read_bytes,
                    write_bytes: p.io_write_bytes,
                    timestamp: now,
                },
            );
        }
    }
}

impl Baseline {
    /// Calculates the CPU share and the I/O rates of a cgroup itself.
    fn measure_metrics(&mut self, path: &str, metrics: &mut CgroupMetrics, now: u64)
        requires
            old(self).wf(),
        ensures
            final(self).wf(),
            ({
                let cpu = cpu_measured(old(self)@, place_of(path@), *old(metrics), now);
                (final(self)@, *final(metrics)) == io_measured(cpu.0, place_of(path@), cpu.1, now)
            }),
    {
        match metrics.cpu_usage_usec {
            Some(usage_usec) => {
                metrics.cpu_percent =
                measure_cpu(self.cgroup_cpu.get(path), usage_usec, MICROS, now, metrics.cpu_percent);
                self.cgroup_cpu.insert(path, CpuMark { total_time: usage_usec, timestamp: now });
            },
            None => {},
        }
        let io_read: u64 = match metrics.io_read_bytes {
            Some(n) => n,
            None => 0,
        };
        let io_write: u64 = match metrics.io_write_bytes {
            Some(n) => n,
            None => 0,
        };
        if io_read > 0 || io_write > 0 {
            let known = (metrics.io_read_rate, metrics.io_write_rate);
            let rates = measure_io(self.cgroup_io.get(path), io_read, io_write, now, known);
            metrics.io_read_rate = rates.0;
            metrics.io_write_rate = rates.1;
            self.cgroup_io.insert(
                path,
                IoMark { read_bytes: io_read, write_bytes: io_write, timestamp: now },
            );
        }
    }

    /// Calculate CPU% and I/O rates for all cgroups and processes in the tree
    pub fn calculate_cpu_percent(&mut self, node: &mut CgroupNode, now: u64)
        requires
            old(self).wf(),
        ensures
            final(self).wf(),
            (final(self)@, final(node)@) == tree_measured(old(self)@, old(node)@, now),
        decreases *old(node),
    {
        let ghost v = node@;
        let ghost before = *node;
        proof {
            lemma_children(before);
        }
        let ghost place = place_of(v.path);
        let ghost cpu = cpu_measured(self@, place, v.metrics, now);
        let ghost io = io_measured(cpu.0, place, cpu.1, now);
        self.measure_metrics(node.path.as_str(), &mut node.metrics, now);
        let mut i: usize = 0;
        let count: usize = node.processes.len();
        assert(node.processes == before.processes && node.children == before.children);
        while i < count
            invariant
                i <= count,
                self.wf(),
                v == before@,
                count == before.processes@.len(),
                node.processes@.len() == count,
                v.processes == views(before.processes@),
                node.path == before.path,
                node.name == before.name,
                node.depth == before.depth,
                node.children == before.children,
                node.metrics == io.1,
                self@ == processes_measured(io.0, v.processes, i as nat, now).0,
                processes_measured(io.0, v.processes, i as nat, now).1.len() == i,
                forall|j: int|
                    0 <= j < i ==> (#[trigger] node.processes@[j])@ == processes_measured(
                        io.0,
                        v.processes,
                        i as nat,
                        now,
                    ).1[j],
                forall|j: int| i <= j < count ==> #[trigger] node.processes@[j] == before.processes@[j],
            decreases count - i,
        {
            assert(node.processes@[i as int] == before.processes@[i as int]);
            assert(v.processes[i as int] == before.processes@[i as int]@);
            self.measure_process(&mut node.processes[i], now);
            i += 1;
        }
        let ghost own = processes_measured(io.0, v.processes, v.processes.len(), now);
        assert(views(node.processes@) =~= own.1);
        let mut k: usize = 0;
        let n: usize = node.children.len();
        while k < n
            invariant
                k <= n,
                self.wf(),
                v == before@,
                before == *old(node),
                v.children.len() == n,
                n == before.children@.len(),
                node.children@.len() == n,
                forall|j: int| 0 <= j < n ==> #[trigger] before.children@[j]@ == v.children[j],
                node.path == before.path,
                node.name == before.name,
                node.depth == before.depth,
                node.metrics == io.1,
                views(node.processes@) == own.1,
                self@ == children_measured(own.0, v, k as nat, now).0,
                children_measured(own.0, v, k as nat, now).1.len() == k,
                forall|j: int|
                    0 <= j < k ==> (#[trigger] node.children@[j])@ == children_measured(
                        own.0,
                        v,
                        k as nat,
                        now,
                    ).1[j],
                forall|j: int| k <= j < n ==> #[trigger] node.children@[j] == before.children@[j],
            decreases n - k,
        {
            assert(node.children@[k as int] == before.children@[k as int]);
            assert(before.children@[k as int]@ == v.children[k as int]);
            assert(decreases_to!(before => before.children@[k as int]));
            self.calculate_cpu_percent(&mut node.children[k], now);
            k += 1;
        }
        proof {
            lemma_children(*node);
            assert(node@.children =~= children_measured(own.0, v, v.children.len(), now).1);
        }
    }
}

pub open spec fn deref_mark<T>(mark: Option<&T>) -> Option<T> {
    match mark {
        Some(m) => Some(*m),
        None => None,
    }
}

/// The CPU share since a mark.
pub fn measure_cpu(
    mark: Option<&CpuMark>,
    total: u64,
    per_second: u64,
    now: u64,
    known: Rate,
) -> (r: Rate)
    requires
        per_second > 0,
    ensures
        r == cpu_since(deref_mark(mark), total, per_second, now, known),
{
    match mark {
        Some(m) => if now > m.timestamp {
            let used: u64 = total.saturating_sub(m.total_time);
            Rate::of_cpu(used, per_second, seconds_of_nanos(now - m.timestamp))
        } else {
            known
        },
        None => known,
    }
}

/// The rates of bytes read and written since a mark.
pub fn measure_io(
    mark: Option<&IoMark>,
    read_bytes: u64,
    write_bytes: u64,
    now: u64,
    known: (Rate, Rate),
) -> (r: (Rate, Rate))
    ensures
        r == io_since(deref_mark(mark), read_bytes, write_bytes, now, known),
{
    match mark {
        Some(m) => if now > m.timestamp {
            let seconds = seconds_of_nanos(now - m.timestamp);
            let read: u64 = read_bytes.saturating_sub(m.read_bytes);
            let written: u64 = write_bytes.saturating_sub(m.write_bytes);
            (Rate::of_bytes(read, seconds), Rate::of_bytes(written, seconds))
        } else {
            known
        },
        None => known,
    }
}

/// No mark is from before this time.
pub open spec fn none_before(b: BaselineView, now: u64) -> bool {
    &&& forall|k: u32| #[trigger] b.cpu.contains_key(k) ==> b.cpu[k].timestamp >= now
    &&& forall|k: Place| #[trigger] b.cgroup_cpu.contains_key(k) ==> b.cgroup_cpu[k].timestamp >= now
    &&& forall|k: u32| #[trigger] b.io.contains_key(k) ==> b.io[k].timestamp >= now
    &&& forall|k: Place| #[trigger] b.cgroup_io.contains_key(k) ==> b.cgroup_io[k].timestamp >= now
}

/// Without an earlier sample no rate is calculated: the tree stays as it was read, with its rates
/// pending.
pub proof fn first_sample_gives_no_rates(b: BaselineView, v: CgroupView, now: u64)
    requires
        none_before(b, now),
    ensures
        tree_measured(b, v, now).1 == v,
        none_before(tree_measured(b, v, now).0, now),
    decreases v, v.children.len() + 1,
{
    let place = place_of(v.path);
    let cpu = cpu_measured(b, place, v.metrics, now);
    let io = io_measured(cpu.0, place, cpu.1, now);
    assert(cpu.1 == v.metrics && none_before(cpu.0, now));
    assert(io.1 == v.metrics && none_before(io.0, now));
    lemma_first_processes(io.0, v.processes, v.processes.len(), now);
    assert(v.processes.take(v.processes.len() as int) =~= v.processes);
    let own = processes_measured(io.0, v.processes, v.processes.len(), now);
    lemma_first_children(own.0, v, v.children.len(), now);
    assert(v.children.take(v.children.len() as int) =~= v.children);
}

proof fn lemma_first_processes(b: BaselineView, list: Seq<ProcessView>, n: nat, now: u64)
    requires
        none_before(b, now),
        n <= list.len(),
    ensures
        processes_measured(b, list, n, now).1 == list.take(n as int),
        none_before(processes_measured(b, list, n, now).0, now),
    decreases n,
{
    if n > 0 {
        lemma_first_processes(b, list, (n - 1) as nat, now);
        assert(list.take(n as int) =~= list.take(n - 1).push(list[n - 1]));
    }
}

proof fn lemma_first_children(b: BaselineView, v: CgroupView, n: nat, now: u64)
    requires
        none_before(b, now),
        n <= v.children.len(),
    ensures
        children_measured(b, v, n, now).1 == v.children.take(n as int),
        none_before(children_measured(b, v, n, now).0, now),
    decreases v, n,
{
    if n > 0 {
        lemma_first_children(b, v, (n - 1) as nat, now);
        let before = children_measured(b, v, (n - 1) as nat, now);
        first_sample_gives_no_rates(before.0, v.children[n - 1], now);
        assert(v.children.take(n as int) =~= v.children.take(n - 1).push(v.children[n - 1]));
    }
}

}
