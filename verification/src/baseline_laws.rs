//! What a sample leaves behind for the next, and what the rates of the next are.

use vstd::prelude::*;
use crate::baseline::{
    children_measured, cpu_measured, cpu_since, entry, io_measured, io_since, or_zero,
    process_measured, processes_measured, tree_measured, BaselineView, CpuMark, IoMark, CLOCK_TICKS,
    MICROS,
};
use crate::cgroup::types::CgroupView;
use crate::path::{place_of, Place};
use crate::process::types::ProcessView;
use crate::rate::{byte_rate, cpu_share, growth, nanos_in_seconds};

verus! {

/// The CPU usage of a cgroup at a place.
pub open spec fn usage_at(place: Place) -> spec_fn(CgroupView) -> Option<u64> {
    |c: CgroupView|
        if place_of(c.path) == place {
            c.metrics.cpu_usage_usec
        } else {
            None
        }
}

/// The bytes that a cgroup at a place has read and written, where there are any.
pub open spec fn bytes_at(place: Place) -> spec_fn(CgroupView) -> Option<(u64, u64)> {
    |c: CgroupView|
        if place_of(c.path) == place && (or_zero(c.metrics.io_read_bytes) > 0 || or_zero(
            c.metrics.io_write_bytes,
        ) > 0) {
            Some((or_zero(c.metrics.io_read_bytes), or_zero(c.metrics.io_write_bytes)))
        } else {
            None
        }
}

/// The CPU time of a process with an ID.
pub open spec fn ticks_of(pid: u32) -> spec_fn(ProcessView) -> Option<u64> {
    |p: ProcessView|
        if p.pid == pid {
            Some(p.utime.wrapping_add(p.stime))
        } else {
            None
        }
}

/// The bytes that a process with an ID has read and written, where there are any.
pub open spec fn bytes_of(pid: u32) -> spec_fn(ProcessView) -> Option<(u64, u64)> {
    |p: ProcessView|
        if p.pid == pid && (p.io_read_bytes > 0 || p.io_write_bytes > 0) {
            Some((p.io_read_bytes, p.io_write_bytes))
        } else {
            None
        }
}

/// What the last cgroup of a tree gives, of those that give something.
pub open spec fn last_given<T>(v: CgroupView, f: spec_fn(CgroupView) -> Option<T>) -> Option<T>
    decreases v, v.children.len() + 1,
{
    match last_given_below(v, v.children.len(), f) {
        Some(x) => Some(x),
        None => f(v),
    }
}

/// What the last of the first `n` children and those below them gives.
pub open spec fn last_given_below<T>(
    v: CgroupView,
    n: nat,
    f: spec_fn(CgroupView) -> Option<T>,
) -> Option<T>
    decreases v, n,
{
    if n == 0 || n > v.children.len() {
        None
    } else {
        match last_given(v.children[n - 1], f) {
            Some(x) => Some(x),
            None => last_given_below(v, (n - 1) as nat, f),
        }
    }
}

/// What the last of the first `n` processes of a list gives, of those that give something.
pub open spec fn last_in<T>(
    list: Seq<ProcessView>,
    n: nat,
    g: spec_fn(ProcessView) -> Option<T>,
) -> Option<T>
    decreases n,
{
    if n == 0 {
        None
    } else {
        match g(list[n - 1]) {
            Some(x) => Some(x),
            None => last_in(list, (n - 1) as nat, g),
        }
    }
}

/// What the last process of a tree gives, of those that give something.
pub open spec fn last_run<T>(v: CgroupView, g: spec_fn(ProcessView) -> Option<T>) -> Option<T>
    decreases v, v.children.len() + 1,
{
    match last_run_below(v, v.children.len(), g) {
        Some(x) => Some(x),
        None => last_in(v.processes, v.processes.len(), g),
    }
}

/// What the last process in the first `n` children and below them gives.
pub open spec fn last_run_below<T>(
    v: CgroupView,
    n: nat,
    g: spec_fn(ProcessView) -> Option<T>,
) -> Option<T>
    decreases v, n,
{
    if n == 0 || n > v.children.len() {
        None
    } else {
        match last_run(v.children[n - 1], g) {
            Some(x) => Some(x),
            None => last_run_below(v, (n - 1) as nat, g),
        }
    }
}

/// The mark after a sample: that of the sample, or else the one before.
pub open spec fn cpu_after(before: Option<CpuMark>, given: Option<u64>, now: u64) -> Option<CpuMark> {
    match given {
        Some(total_time) => Some(CpuMark { total_time, timestamp: now }),
        None => before,
    }
}

/// The mark of bytes after a sample: that of the sample, or else the one before.
pub open spec fn io_after(before: Option<IoMark>, given: Option<(u64, u64)>, now: u64) -> Option<
    IoMark,
> {
    match given {
        Some(bytes) => Some(
            IoMark { read_bytes: bytes.0, write_bytes: bytes.1, timestamp: now },
        ),
        None => before,
    }
}

proof fn lemma_process_marks(b: BaselineView, list: Seq<ProcessView>, n: nat, now: u64, pid: u32)
    requires
        n <= list.len(),
    ensures
        ({
            let after = processes_measured(b, list, n, now).0;
            &&& entry(after.cpu, pid) == cpu_after(
                entry(b.cpu, pid),
                last_in(list, n, ticks_of(pid)),
                now,
            )
            &&& entry(after.io, pid) == io_after(
                entry(b.io, pid),
                last_in(list, n, bytes_of(pid)),
                now,
            )
            &&& after.cgroup_cpu == b.cgroup_cpu
            &&& after.cgroup_io == b.cgroup_io
        }),
    decreases n,
{
    if n > 0 {
        lemma_process_marks(b, list, (n - 1) as nat, now, pid);
    }
}

proof fn lemma_child_marks(b: BaselineView, v: CgroupView, n: nat, now: u64, place: Place, pid: u32)
    requires
        n <= v.children.len(),
    ensures
        ({
            let after = children_measured(b, v, n, now).0;
            &&& entry(after.cpu, pid) == cpu_after(
                entry(b.cpu, pid),
                last_run_below(v, n, ticks_of(pid)),
                now,
            )
            &&& entry(after.io, pid) == io_after(
                entry(b.io, pid),
                last_run_below(v, n, bytes_of(pid)),
                now,
            )
            &&& entry(after.cgroup_cpu, place) == cpu_after(
                entry(b.cgroup_cpu, place),
                last_given_below(v, n, usage_at(place)),
                now,
            )
            &&& entry(after.cgroup_io, place) == io_after(
                entry(b.cgroup_io, place),
                last_given_below(v, n, bytes_at(place)),
                now,
            )
        }),
    decreases v, n,
{
    if n > 0 {
        lemma_child_marks(b, v, (n - 1) as nat, now, place, pid);
        let before = children_measured(b, v, (n - 1) as nat, now);
        sample_is_a_baseline(before.0, v.children[n - 1], now, place, pid);
    }
}

/// A sample is a baseline for the next: after it every process and every cgroup of the tree has a
/// mark with its counters and the time of the sample, and the others keep the marks that they had.
/// Of two with one ID or at one place the later counts.
pub proof fn sample_is_a_baseline(b: BaselineView, v: CgroupView, now: u64, place: Place, pid: u32)
    ensures
        ({
            let after = tree_measured(b, v, now).0;
            &&& entry(after.cpu, pid) == cpu_after(
                entry(b.cpu, pid),
                last_run(v, ticks_of(pid)),
                now,
            )
            &&& entry(after.io, pid) == io_after(entry(b.io, pid), last_run(v, bytes_of(pid)), now)
            &&& entry(after.cgroup_cpu, place) == cpu_after(
                entry(b.cgroup_cpu, place),
                last_given(v, usage_at(place)),
                now,
            )
            &&& entry(after.cgroup_io, place) == io_after(
                entry(b.cgroup_io, place),
                last_given(v, bytes_at(place)),
                now,
            )
        }),
    decreases v, v.children.len() + 1,
{
    let here = place_of(v.path);
    let cpu = cpu_measured(b, here, v.metrics, now);
    let io = io_measured(cpu.0, here, cpu.1, now);
    let own = processes_measured(io.0, v.processes, v.processes.len(), now);
    lemma_process_marks(io.0, v.processes, v.processes.len(), now, pid);
    lemma_child_marks(own.0, v, v.children.len(), now, place, pid);
}

/// The cgroup that is reached from another by going down by some indices.
pub open spec fn node_at(v: CgroupView, at: Seq<int>) -> CgroupView
    decreases at.len(),
{
    if at.len() == 0 {
        v
    } else {
        node_at(v.children[at[0]], at.skip(1))
    }
}

/// There is a cgroup at the end of the way.
pub open spec fn leads_to(v: CgroupView, at: Seq<int>) -> bool
    decreases at.len(),
{
    at.len() == 0 || (0 <= at[0] < v.children.len() && leads_to(v.children[at[0]], at.skip(1)))
}

/// The number of cgroups of a tree that give something.
pub open spec fn how_many<T>(v: CgroupView, f: spec_fn(CgroupView) -> Option<T>) -> nat
    decreases v, v.children.len() + 1,
{
    (if f(v) is Some {
        1nat
    } else {
        0
    }) + how_many_below(v, v.children.len(), f)
}

/// The number of those in the first `n` children and below them.
pub open spec fn how_many_below<T>(
    v: CgroupView,
    n: nat,
    f: spec_fn(CgroupView) -> Option<T>,
) -> nat
    decreases v, n,
{
    if n == 0 || n > v.children.len() {
        0
    } else {
        how_many_below(v, (n - 1) as nat, f) + how_many(v.children[n - 1], f)
    }
}

/// The number of the first `n` processes of a list that give something.
pub open spec fn how_many_in<T>(
    list: Seq<ProcessView>,
    n: nat,
    g: spec_fn(ProcessView) -> Option<T>,
) -> nat
    decreases n,
{
    if n == 0 {
        0
    } else {
        how_many_in(list, (n - 1) as nat, g) + (if g(list[n - 1]) is Some {
            1nat
        } else {
            0
        })
    }
}

/// The number of processes of a tree that give something.
pub open spec fn how_many_run<T>(v: CgroupView, g: spec_fn(ProcessView) -> Option<T>) -> nat
    decreases v, v.children.len() + 1,
{
    how_many_in(v.processes, v.processes.len(), g) + how_many_run_below(v, v.children.len(), g)
}

/// The number of those in the first `n` children and below them.
pub open spec fn how_many_run_below<T>(
    v: CgroupView,
    n: nat,
    g: spec_fn(ProcessView) -> Option<T>,
) -> nat
    decreases v, n,
{
    if n == 0 || n > v.children.len() {
        0
    } else {
        how_many_run_below(v, (n - 1) as nat, g) + how_many_run(v.children[n - 1], g)
    }
}

/// Where none gives anything, the last does not.
proof fn lemma_none_given<T>(v: CgroupView, n: nat, f: spec_fn(CgroupView) -> Option<T>)
    requires
        n <= v.children.len(),
    ensures
        how_many_below(v, n, f) == 0 ==> last_given_below(v, n, f) is None,
    decreases v, n,
{
    if n > 0 {
        lemma_none_given(v, (n - 1) as nat, f);
        let child = v.children[n - 1];
        lemma_none_given(child, child.children.len(), f);
        assert(how_many(child, f) == 0 ==> last_given(child, f) is None);
    }
}

proof fn lemma_none_in<T>(list: Seq<ProcessView>, n: nat, g: spec_fn(ProcessView) -> Option<T>)
    requires
        n <= list.len(),
    ensures
        how_many_in(list, n, g) == 0 ==> last_in(list, n, g) is None,
    decreases n,
{
    if n > 0 {
        lemma_none_in(list, (n - 1) as nat, g);
    }
}

proof fn lemma_none_run<T>(v: CgroupView, n: nat, g: spec_fn(ProcessView) -> Option<T>)
    requires
        n <= v.children.len(),
    ensures
        how_many_run_below(v, n, g) == 0 ==> last_run_below(v, n, g) is None,
    decreases v, n,
{
    if n > 0 {
        lemma_none_run(v, (n - 1) as nat, g);
        let child = v.children[n - 1];
        lemma_none_run(child, child.children.len(), g);
        lemma_none_in(child.processes, child.processes.len(), g);
        assert(how_many_run(child, g) == 0 ==> last_run(child, g) is None);
    }
}

/// The children before one and the one itself are among all.
proof fn lemma_split_below<T>(v: CgroupView, n: nat, i: int, f: spec_fn(CgroupView) -> Option<T>)
    requires
        0 <= i < n <= v.children.len(),
    ensures
        how_many_below(v, i as nat, f) + how_many(v.children[i], f) <= how_many_below(v, n, f),
    decreases n,
{
    if i < n - 1 {
        lemma_split_below(v, (n - 1) as nat, i, f);
    }
}

proof fn lemma_split_run<T>(v: CgroupView, n: nat, i: int, g: spec_fn(ProcessView) -> Option<T>)
    requires
        0 <= i < n <= v.children.len(),
    ensures
        how_many_run_below(v, i as nat, g) + how_many_run(v.children[i], g) <= how_many_run_below(
            v,
            n,
            g,
        ),
    decreases n,
{
    if i < n - 1 {
        lemma_split_run(v, (n - 1) as nat, i, g);
    }
}

proof fn lemma_split_in<T>(
    list: Seq<ProcessView>,
    n: nat,
    j: int,
    g: spec_fn(ProcessView) -> Option<T>,
)
    requires
        0 <= j < n <= list.len(),
    ensures
        how_many_in(list, j as nat, g) + (if g(list[j]) is Some {
            1nat
        } else {
            0
        }) <= how_many_in(list, n, g),
    decreases n,
{
    if j < n - 1 {
        lemma_split_in(list, (n - 1) as nat, j, g);
    }
}

/// What a cgroup at the end of a way gives is given in the tree.
proof fn lemma_given_at<T>(v: CgroupView, at: Seq<int>, f: spec_fn(CgroupView) -> Option<T>)
    requires
        leads_to(v, at),
        f(node_at(v, at)) is Some,
    ensures
        how_many(v, f) > 0,
    decreases at.len(),
{
    if at.len() > 0 {
        lemma_given_at(v.children[at[0]], at.skip(1), f);
        lemma_split_below(v, v.children.len(), at[0], f);
    }
}

proof fn lemma_run_at<T>(
    v: CgroupView,
    at: Seq<int>,
    j: int,
    g: spec_fn(ProcessView) -> Option<T>,
)
    requires
        leads_to(v, at),
        0 <= j < node_at(v, at).processes.len(),
        g(node_at(v, at).processes[j]) is Some,
    ensures
        how_many_run(v, g) > 0,
    decreases at.len(),
{
    if at.len() > 0 {
        lemma_run_at(v.children[at[0]], at.skip(1), j, g);
        lemma_split_run(v, v.children.len(), at[0], g);
    } else {
        lemma_split_in(v.processes, v.processes.len(), j, g);
    }
}

/// A child is measured after those before it.
proof fn lemma_child_measured(b: BaselineView, v: CgroupView, n: nat, now: u64, i: int)
    requires
        0 <= i < n <= v.children.len(),
    ensures
        children_measured(b, v, n, now).1.len() == n,
        children_measured(b, v, n, now).1[i] == tree_measured(
            children_measured(b, v, i as nat, now).0,
            v.children[i],
            now,
        ).1,
    decreases n,
{
    if n > 1 {
        if i < n - 1 {
            lemma_child_measured(b, v, (n - 1) as nat, now, i);
        } else {
            lemma_child_measured(b, v, (n - 1) as nat, now, 0);
        }
    } else {
        assert(children_measured(b, v, 0, now).1.len() == 0);
    }
}

/// A process is measured after those before it.
proof fn lemma_process_measured(b: BaselineView, list: Seq<ProcessView>, n: nat, now: u64, j: int)
    requires
        0 <= j < n <= list.len(),
    ensures
        processes_measured(b, list, n, now).1.len() == n,
        processes_measured(b, list, n, now).1[j] == process_measured(
            processes_measured(b, list, j as nat, now).0,
            list[j],
            now,
        ).1,
    decreases n,
{
    if n > 1 {
        if j < n - 1 {
            lemma_process_measured(b, list, (n - 1) as nat, now, j);
        } else {
            lemma_process_measured(b, list, (n - 1) as nat, now, 0);
        }
    } else {
        assert(processes_measured(b, list, 0, now).1.len() == 0);
    }
}

/// The marks that a child is measured by.
pub open spec fn before_child(b: BaselineView, v: CgroupView, i: int, now: u64) -> BaselineView {
    let here = place_of(v.path);
    let cpu = cpu_measured(b, here, v.metrics, now);
    let io = io_measured(cpu.0, here, cpu.1, now);
    let own = processes_measured(io.0, v.processes, v.processes.len(), now);
    children_measured(own.0, v, i as nat, now).0
}

/// A child is measured by the marks from before the sample, but for those that the cgroup itself, its
/// processes and the children before it have renewed.
proof fn lemma_into_child(b: BaselineView, v: CgroupView, i: int, now: u64, place: Place, pid: u32)
    requires
        0 <= i < v.children.len(),
    ensures
        ({
            let next = before_child(b, v, i, now);
            &&& tree_measured(b, v, now).1.children.len() == v.children.len()
            &&& tree_measured(b, v, now).1.children[i] == tree_measured(next, v.children[i], now).1
            &&& usage_at(place)(v) is None && how_many_below(v, i as nat, usage_at(place)) == 0
                ==> entry(next.cgroup_cpu, place) == entry(b.cgroup_cpu, place)
            &&& bytes_at(place)(v) is None && how_many_below(v, i as nat, bytes_at(place)) == 0
                ==> entry(next.cgroup_io, place) == entry(b.cgroup_io, place)
            &&& how_many_in(v.processes, v.processes.len(), ticks_of(pid)) == 0
                && how_many_run_below(v, i as nat, ticks_of(pid)) == 0 ==> entry(next.cpu, pid)
                == entry(b.cpu, pid)
            &&& how_many_in(v.processes, v.processes.len(), bytes_of(pid)) == 0
                && how_many_run_below(v, i as nat, bytes_of(pid)) == 0 ==> entry(next.io, pid)
                == entry(b.io, pid)
        }),
{
    let here = place_of(v.path);
    let cpu = cpu_measured(b, here, v.metrics, now);
    let io = io_measured(cpu.0, here, cpu.1, now);
    let own = processes_measured(io.0, v.processes, v.processes.len(), now);
    lemma_child_measured(own.0, v, v.children.len(), now, i);
    lemma_process_marks(io.0, v.processes, v.processes.len(), now, pid);
    lemma_child_marks(own.0, v, i as nat, now, place, pid);
    lemma_none_given(v, i as nat, usage_at(place));
    lemma_none_given(v, i as nat, bytes_at(place));
    lemma_none_run(v, i as nat, ticks_of(pid));
    lemma_none_run(v, i as nat, bytes_of(pid));
    lemma_none_in(v.processes, v.processes.len(), ticks_of(pid));
    lemma_none_in(v.processes, v.processes.len(), bytes_of(pid));
}

/// The CPU share of every cgroup of a tree is measured by its mark from before the sample, where no
/// other cgroup of the tree at the same place gives its usage.
proof fn lemma_cgroup_cpu(b: BaselineView, v: CgroupView, now: u64, at: Seq<int>)
    requires
        leads_to(v, at),
        node_at(v, at).metrics.cpu_usage_usec is Some,
        how_many(v, usage_at(place_of(node_at(v, at).path))) == 1,
    ensures
        leads_to(tree_measured(b, v, now).1, at),
        ({
            let m = node_at(v, at).metrics;
            node_at(tree_measured(b, v, now).1, at).metrics.cpu_percent == cpu_since(
                entry(b.cgroup_cpu, place_of(node_at(v, at).path)),
                m.cpu_usage_usec->0,
                MICROS,
                now,
                m.cpu_percent,
            )
        }),
    decreases at.len(),
{
    if at.len() > 0 {
        let place = place_of(node_at(v, at).path);
        let f = usage_at(place);
        let i = at[0];
        lemma_given_at(v.children[i], at.skip(1), f);
        lemma_split_below(v, v.children.len(), i, f);
        lemma_into_child(b, v, i, now, place, 0);
        lemma_cgroup_cpu(before_child(b, v, i, now), v.children[i], now, at.skip(1));
    }
}

proof fn lemma_cgroup_io(b: BaselineView, v: CgroupView, now: u64, at: Seq<int>)
    requires
        leads_to(v, at),
        bytes_at(place_of(node_at(v, at).path))(node_at(v, at)) is Some,
        how_many(v, bytes_at(place_of(node_at(v, at).path))) == 1,
    ensures
        leads_to(tree_measured(b, v, now).1, at),
        ({
            let m = node_at(v, at).metrics;
            let r = node_at(tree_measured(b, v, now).1, at).metrics;
            (r.io_read_rate, r.io_write_rate) == io_since(
                entry(b.cgroup_io, place_of(node_at(v, at).path)),
                or_zero(m.io_read_bytes),
                or_zero(m.io_write_bytes),
                now,
                (m.io_read_rate, m.io_write_rate),
            )
        }),
    decreases at.len(),
{
    if at.len() > 0 {
        let place = place_of(node_at(v, at).path);
        let f = bytes_at(place);
        let i = at[0];
        lemma_given_at(v.children[i], at.skip(1), f);
        lemma_split_below(v, v.children.len(), i, f);
        lemma_into_child(b, v, i, now, place, 0);
        lemma_cgroup_io(before_child(b, v, i, now), v.children[i], now, at.skip(1));
    }
}

proof fn lemma_process_cpu(b: BaselineView, v: CgroupView, now: u64, at: Seq<int>, j: int)
    requires
        leads_to(v, at),
        0 <= j < node_at(v, at).processes.len(),
        how_many_run(v, ticks_of(node_at(v, at).processes[j].pid)) == 1,
    ensures
        leads_to(tree_measured(b, v, now).1, at),
        ({
            let p = node_at(v, at).processes[j];
            let r = node_at(tree_measured(b, v, now).1, at);
            &&& r.processes.len() == node_at(v, at).processes.len()
            &&& r.processes[j].cpu_percent == cpu_since(
                entry(b.cpu, p.pid),
                p.ticks(),
                CLOCK_TICKS,
                now,
                p.cpu_percent,
            )
        }),
    decreases at.len(),
{
    let pid = node_at(v, at).processes[j].pid;
    let g = ticks_of(pid);
    if at.len() > 0 {
        let i = at[0];
        lemma_run_at(v.children[i], at.skip(1), j, g);
        lemma_split_run(v, v.children.len(), i, g);
        lemma_into_child(b, v, i, now, place_of(v.path), pid);
        lemma_process_cpu(before_child(b, v, i, now), v.children[i], now, at.skip(1), j);
    } else {
        let here = place_of(v.path);
        let cpu = cpu_measured(b, here, v.metrics, now);
        let io = io_measured(cpu.0, here, cpu.1, now);
        lemma_split_in(v.processes, v.processes.len(), j, g);
        lemma_none_in(v.processes, j as nat, g);
        lemma_process_marks(io.0, v.processes, j as nat, now, pid);
        lemma_process_measured(io.0, v.processes, v.processes.len(), now, j);
    }
}

proof fn lemma_process_io(b: BaselineView, v: CgroupView, now: u64, at: Seq<int>, j: int)
    requires
        leads_to(v, at),
        0 <= j < node_at(v, at).processes.len(),
        ({
            let p = node_at(v, at).processes[j];
            bytes_of(p.pid)(p) is Some && how_many_run(v, bytes_of(p.pid)) == 1
        }),
    ensures
        leads_to(tree_measured(b, v, now).1, at),
        ({
            let p = node_at(v, at).processes[j];
            let r = node_at(tree_measured(b, v, now).1, at);
            &&& r.processes.len() == node_at(v, at).processes.len()
            &&& (r.processes[j].io_read_rate, r.processes[j].io_write_rate) == io_since(
                entry(b.io, p.pid),
                p.io_read_bytes,
                p.io_write_bytes,
                now,
                (p.io_read_rate, p.io_write_rate),
            )
        }),
    decreases at.len(),
{
    let pid = node_at(v, at).processes[j].pid;
    let g = bytes_of(pid);
    if at.len() > 0 {
        let i = at[0];
        lemma_run_at(v.children[i], at.skip(1), j, g);
        lemma_split_run(v, v.children.len(), i, g);
        lemma_into_child(b, v, i, now, place_of(v.path), pid);
        lemma_process_io(before_child(b, v, i, now), v.children[i], now, at.skip(1), j);
    } else {
        let here = place_of(v.path);
        let cpu = cpu_measured(b, here, v.metrics, now);
        let io = io_measured(cpu.0, here, cpu.1, now);
        lemma_split_in(v.processes, v.processes.len(), j, g);
        lemma_none_in(v.processes, j as nat, g);
        lemma_process_marks(io.0, v.processes, j as nat, now, pid);
        lemma_process_measured(io.0, v.processes, v.processes.len(), now, j);
    }
}

/// The CPU share of a cgroup at the second of two samples is what its usage grew by since the first,
/// over the time between them, whatever was sampled before. No other cgroup of the second tree gives
/// a usage at the same place.
pub proof fn cgroup_cpu_is_between_samples(
    b: BaselineView,
    first: CgroupView,
    then_at: u64,
    second: CgroupView,
    now: u64,
    at: Seq<int>,
)
    requires
        now > then_at,
        leads_to(second, at),
        node_at(second, at).metrics.cpu_usage_usec is Some,
        how_many(second, usage_at(place_of(node_at(second, at).path))) == 1,
        last_given(first, usage_at(place_of(node_at(second, at).path))) is Some,
    ensures
        ({
            let r = tree_measured(tree_measured(b, first, then_at).0, second, now).1;
            let place = place_of(node_at(second, at).path);
            &&& leads_to(r, at)
            &&& node_at(r, at).metrics.cpu_percent == cpu_share(
                growth(
                    node_at(second, at).metrics.cpu_usage_usec->0,
                    last_given(first, usage_at(place))->0,
                ),
                1_000_000,
                nanos_in_seconds((now - then_at) as nat),
            )
        }),
{
    let place = place_of(node_at(second, at).path);
    sample_is_a_baseline(b, first, then_at, place, 0);
    lemma_cgroup_cpu(tree_measured(b, first, then_at).0, second, now, at);
}

/// The I/O rates of a cgroup at the second of two samples are what its counters grew by since the
/// first, over the time between them.
pub proof fn cgroup_io_is_between_samples(
    b: BaselineView,
    first: CgroupView,
    then_at: u64,
    second: CgroupView,
    now: u64,
    at: Seq<int>,
)
    requires
        now > then_at,
        leads_to(second, at),
        bytes_at(place_of(node_at(second, at).path))(node_at(second, at)) is Some,
        how_many(second, bytes_at(place_of(node_at(second, at).path))) == 1,
        last_given(first, bytes_at(place_of(node_at(second, at).path))) is Some,
    ensures
        ({
            let r = tree_measured(tree_measured(b, first, then_at).0, second, now).1;
            let place = place_of(node_at(second, at).path);
            let m = node_at(second, at).metrics;
            let before = last_given(first, bytes_at(place))->0;
            let seconds = nanos_in_seconds((now - then_at) as nat);
            &&& leads_to(r, at)
            &&& node_at(r, at).metrics.io_read_rate == byte_rate(
                growth(or_zero(m.io_read_bytes), before.0),
                seconds,
            )
            &&& node_at(r, at).metrics.io_write_rate == byte_rate(
                growth(or_zero(m.io_write_bytes), before.1),
                seconds,
            )
        }),
{
    let place = place_of(node_at(second, at).path);
    sample_is_a_baseline(b, first, then_at, place, 0);
    lemma_cgroup_io(tree_measured(b, first, then_at).0, second, now, at);
}

/// The CPU share of a process at the second of two samples is what its CPU time grew by since the
/// first, over the time between them. No other process of the second tree has its ID.
pub proof fn process_cpu_is_between_samples(
    b: BaselineView,
    first: CgroupView,
    then_at: u64,
    second: CgroupView,
    now: u64,
    at: Seq<int>,
    j: int,
)
    requires
        now > then_at,
        leads_to(second, at),
        0 <= j < node_at(second, at).processes.len(),
        how_many_run(second, ticks_of(node_at(second, at).processes[j].pid)) == 1,
        last_run(first, ticks_of(node_at(second, at).processes[j].pid)) is Some,
    ensures
        ({
            let r = tree_measured(tree_measured(b, first, then_at).0, second, now).1;
            let p = node_at(second, at).processes[j];
            &&& leads_to(r, at)
            &&& node_at(r, at).processes[j].cpu_percent == cpu_share(
                growth(p.utime.wrapping_add(p.stime), last_run(first, ticks_of(p.pid))->0),
                100,
                nanos_in_seconds((now - then_at) as nat),
            )
        }),
{
    let pid = node_at(second, at).processes[j].pid;
    sample_is_a_baseline(b, first, then_at, place_of(first.path), pid);
    lemma_process_cpu(tree_measured(b, first, then_at).0, second, now, at, j);
}

/// The I/O rates of a process at the second of two samples are what its counters grew by since the
/// first, over the time between them.
pub proof fn process_io_is_between_samples(
    b: BaselineView,
    first: CgroupView,
    then_at: u64,
    second: CgroupView,
    now: u64,
    at: Seq<int>,
    j: int,
)
    requires
        now > then_at,
        leads_to(second, at),
        0 <= j < node_at(second, at).processes.len(),
        ({
            let p = node_at(second, at).processes[j];
            &&& bytes_of(p.pid)(p) is Some
            &&& how_many_run(second, bytes_of(p.pid)) == 1
            &&& last_run(first, bytes_of(p.pid)) is Some
        }),
    ensures
        ({
            let r = tree_measured(tree_measured(b, first, then_at).0, second, now).1;
            let p = node_at(second, at).processes[j];
            let before = last_run(first, bytes_of(p.pid))->0;
            let seconds = nanos_in_seconds((now - then_at) as nat);
            &&& leads_to(r, at)
            &&& node_at(r, at).processes[j].io_read_rate == byte_rate(
                growth(p.io_read_bytes, before.0),
                seconds,
            )
            &&& node_at(r, at).processes[j].io_write_rate == byte_rate(
                growth(p.io_write_bytes, before.1),
                seconds,
            )
        }),
{
    let pid = node_at(second, at).processes[j].pid;
    sample_is_a_baseline(b, first, then_at, place_of(first.path), pid);
    lemma_process_io(tree_measured(b, first, then_at).0, second, now, at, j);
}

/// Two processes differ at most in their rates.
pub open spec fn same_process_but_rates(p: ProcessView, q: ProcessView) -> bool {
    &&& p.pid == q.pid
    &&& p.ppid == q.ppid
    &&& p.starttime == q.starttime
    &&& p.name == q.name
    &&& p.cmdline == q.cmdline
    &&& p.user == q.user
    &&& p.state == q.state
    &&& p.utime == q.utime
    &&& p.stime == q.stime
    &&& p.rss == q.rss
    &&& p.vsize == q.vsize
    &&& p.num_threads == q.num_threads
    &&& p.io_read_bytes == q.io_read_bytes
    &&& p.io_write_bytes == q.io_write_bytes
}

/// Two trees differ at most in their rates.
pub open spec fn same_but_rates(v: CgroupView, w: CgroupView) -> bool
    decreases v,
{
    &&& v.path == w.path
    &&& v.name == w.name
    &&& v.depth == w.depth
    &&& v.metrics.memory_current == w.metrics.memory_current
    &&& v.metrics.memory_max == w.metrics.memory_max
    &&& v.metrics.cpu_usage_usec == w.metrics.cpu_usage_usec
    &&& v.metrics.pids_current == w.metrics.pids_current
    &&& v.metrics.io_read_bytes == w.metrics.io_read_bytes
    &&& v.metrics.io_write_bytes == w.metrics.io_write_bytes
    &&& v.processes.len() == w.processes.len()
    &&& forall|i: int|
        0 <= i < v.processes.len() ==> same_process_but_rates(
            #[trigger] v.processes[i],
            w.processes[i],
        )
    &&& v.children.len() == w.children.len()
    &&& forall|i: int|
        0 <= i < v.children.len() ==> same_but_rates(#[trigger] v.children[i], w.children[i])
}

proof fn lemma_processes_keep_values(b: BaselineView, list: Seq<ProcessView>, n: nat, now: u64)
    requires
        n <= list.len(),
    ensures
        ({
            let r = processes_measured(b, list, n, now).1;
            &&& r.len() == n
            &&& forall|i: int| 0 <= i < n ==> same_process_but_rates(#[trigger] list[i], r[i])
        }),
    decreases n,
{
    if n > 0 {
        lemma_processes_keep_values(b, list, (n - 1) as nat, now);
        let before = processes_measured(b, list, (n - 1) as nat, now);
        let r = processes_measured(b, list, n, now).1;
        assert forall|i: int| 0 <= i < n implies same_process_but_rates(#[trigger] list[i], r[i]) by {
            if i < n - 1 {
                assert(r[i] == before.1[i]);
            }
        }
    }
}

proof fn lemma_children_keep_values(b: BaselineView, v: CgroupView, n: nat, now: u64)
    requires
        n <= v.children.len(),
    ensures
        ({
            let r = children_measured(b, v, n, now).1;
            &&& r.len() == n
            &&& forall|i: int| 0 <= i < n ==> same_but_rates(#[trigger] v.children[i], r[i])
        }),
    decreases v, n,
{
    if n > 0 {
        lemma_children_keep_values(b, v, (n - 1) as nat, now);
        let before = children_measured(b, v, (n - 1) as nat, now);
        measuring_changes_rates_only(before.0, v.children[n - 1], now);
        let r = children_measured(b, v, n, now).1;
        assert forall|i: int| 0 <= i < n implies same_but_rates(#[trigger] v.children[i], r[i]) by {
            if i < n - 1 {
                assert(r[i] == before.1[i]);
            }
        }
    }
}

/// Measuring a tree gives it rates, and leaves all that was read as it is.
pub proof fn measuring_changes_rates_only(b: BaselineView, v: CgroupView, now: u64)
    ensures
        same_but_rates(v, tree_measured(b, v, now).1),
    decreases v, v.children.len() + 1,
{
    let place = place_of(v.path);
    let cpu = cpu_measured(b, place, v.metrics, now);
    let io = io_measured(cpu.0, place, cpu.1, now);
    let own = processes_measured(io.0, v.processes, v.processes.len(), now);
    lemma_processes_keep_values(io.0, v.processes, v.processes.len(), now);
    lemma_children_keep_values(own.0, v, v.children.len(), now);
}

/// The CPU time of a process is the sum of its times in both modes, and what a counter grew by is the
/// difference of its values; one that went back has not grown.
pub proof fn counters_grow_by_their_difference(p: ProcessView, n: u64, d: u64)
    ensures
        p.utime + p.stime <= u64::MAX ==> p.ticks() == p.utime + p.stime,
        n + d <= u64::MAX ==> growth((n + d) as u64, n) == d,
        n + d <= u64::MAX ==> growth(n, (n + d) as u64) == 0,
{
}

}
