//! From two snapshots of a machine to a tree with rates.

use vstd::prelude::*;
use crate::baseline::{CLOCK_TICKS, MICROS};
use crate::cgroup::types::{lemma_children, CgroupMetrics, CgroupNode, CgroupView};
use crate::float::{Float, Soft, DOUBLE};
use crate::model::views;
use crate::path::{place_of, same_path};
use crate::process::types::{copy_text, Process, ProcessView};
use crate::rate::{
    byte_rate, cpu_share, growth, millis_in_seconds, no_rate, seconds_of_millis, Rate, PENDING,
};
use crate::slurm::types::{
    lemma_raw_children, no_cgroup, CgroupNodeRaw, CgroupRawView, ProcessRaw, ProcessRawView,
};
use crate::text::text_in;

verus! {

/// The CPU share between two counters, pending where one of them or the time is missing.
pub open spec fn cpu_between(
    now: Option<u64>,
    before: Option<u64>,
    per_second: u64,
    seconds: Option<Float>,
) -> Rate {
    match (now, before, seconds) {
        (Some(n), Some(b), Some(s)) => cpu_share(growth(n, b), per_second as nat, s),
        _ => no_rate(),
    }
}

/// The rate between two counters, pending where one of them or the time is missing.
pub open spec fn rate_between(
    now: Option<u64>,
    before: Option<u64>,
    seconds: Option<Float>,
) -> Rate {
    match (now, before, seconds) {
        (Some(n), Some(b), Some(s)) => byte_rate(growth(n, b), s),
        _ => no_rate(),
    }
}

/// The last process of a list that is the same: with the same ID and start time.
pub open spec fn same_process(list: Seq<ProcessRawView>, pid: u32, starttime: u64) -> Option<
    ProcessRawView,
>
    decreases list.len(),
{
    if list.len() == 0 {
        None
    } else if list.last().pid == pid && list.last().starttime == starttime {
        Some(list.last())
    } else {
        same_process(list.drop_last(), pid, starttime)
    }
}

/// The last cgroup of a list at the same path.
pub open spec fn same_cgroup(list: Seq<CgroupRawView>, path: Seq<char>) -> Option<CgroupRawView>
    decreases list.len(),
{
    if list.len() == 0 {
        None
    } else if place_of(list.last().path) == place_of(path) {
        Some(list.last())
    } else {
        same_cgroup(list.drop_last(), path)
    }
}

/// What was known before of the cgroup at a path: nothing where it is new.
pub open spec fn cgroup_before(prev: CgroupRawView, path: Seq<char>) -> CgroupRawView {
    match same_cgroup(prev.children, path) {
        Some(c) => c,
        None => no_cgroup(),
    }
}

/// The metrics of a cgroup between two snapshots.
pub open spec fn metrics_between(
    raw: CgroupRawView,
    prev: CgroupRawView,
    seconds: Option<Float>,
) -> CgroupMetrics {
    CgroupMetrics {
        memory_current: raw.memory_current,
        memory_max: raw.memory_max,
        cpu_usage_usec: raw.cpu_usage_usec,
        pids_current: raw.pids_current,
        cpu_percent: cpu_between(raw.cpu_usage_usec, prev.cpu_usage_usec, MICROS, seconds),
        io_read_bytes: raw.io_read_bytes,
        io_write_bytes: raw.io_write_bytes,
        io_read_rate: rate_between(raw.io_read_bytes, prev.io_read_bytes, seconds),
        io_write_rate: rate_between(raw.io_write_bytes, prev.io_write_bytes, seconds),
    }
}

/// A process between two snapshots; its rates are pending where it was not in the first.
pub open spec fn process_between(
    raw: ProcessRawView,
    prev: Option<ProcessRawView>,
    seconds: Option<Float>,
) -> ProcessView {
    ProcessView {
        pid: raw.pid,
        ppid: raw.ppid,
        starttime: raw.starttime,
        name: raw.name,
        cmdline: raw.cmdline,
        user: raw.user,
        state: raw.state,
        utime: raw.utime,
        stime: raw.stime,
        rss: raw.rss,
        vsize: raw.vsize,
        num_threads: raw.num_threads,
        cpu_percent: match prev {
            Some(p) => cpu_between(Some(raw.ticks()), Some(p.ticks()), CLOCK_TICKS, seconds),
            None => no_rate(),
        },
        io_read_bytes: raw.io_read_bytes,
        io_write_bytes: raw.io_write_bytes,
        io_read_rate: match prev {
            Some(p) => rate_between(Some(raw.io_read_bytes), Some(p.io_read_bytes), seconds),
            None => no_rate(),
        },
        io_write_rate: match prev {
            Some(p) => rate_between(Some(raw.io_write_bytes), Some(p.io_write_bytes), seconds),
            None => no_rate(),
        },
    }
}

/// A tree between two snapshots: cgroups are matched by their path, processes by their ID and
/// start time.
pub open spec fn tree_between(
    raw: CgroupRawView,
    prev: CgroupRawView,
    seconds: Option<Float>,
) -> CgroupView
    decreases raw,
{
    CgroupView {
        path: raw.path,
        name: raw.name,
        children: Seq::new(
            raw.children.len(),
            |i: int|
                if 0 <= i < raw.children.len() {
                    tree_between(
                        raw.children[i],
                        cgroup_before(prev, raw.children[i].path),
                        seconds,
                    )
                } else {
                    arbitrary()
                },
        ),
        processes: raw.processes.map_values(
            |p: ProcessRawView|
                process_between(p, same_process(prev.processes, p.pid, p.starttime), seconds),
        ),
        metrics: metrics_between(raw, prev, seconds),
        depth: raw.depth,
    }
}

/// The time between two snapshots in seconds, where some has passed.
pub open spec fn time_between(now: u64, before: u64) -> Option<Float> {
    if now > before {
        Some(millis_in_seconds((now - before) as nat))
    } else {
        None
    }
}

/// A time that has passed, in seconds.
pub open spec fn seconds_in(seconds: Option<Soft>) -> Option<Float> {
    match seconds {
        Some(s) => Some(s@),
        None => None,
    }
}

/// A time by which rates can be computed.
pub open spec fn usable(seconds: Option<Soft>) -> bool {
    match seconds {
        Some(s) => s.ready(DOUBLE, 2000) && s.mant > 0,
        None => true,
    }
}

/// The time between two snapshots in seconds.
pub fn elapsed_between(now: u64, before: u64) -> (r: Option<Soft>)
    ensures
        usable(r),
        seconds_in(r) == time_between(now, before),
{
    if now > before {
        Some(seconds_of_millis(now - before))
    } else {
        None
    }
}

fn cpu_rate(now: Option<u64>, before: Option<u64>, per_second: u64, seconds: Option<Soft>) -> (r:
    Rate)
    requires
        per_second > 0,
        usable(seconds),
    ensures
        r == cpu_between(now, before, per_second, seconds_in(seconds)),
{
    match (now, before, seconds) {
        (Some(n), Some(b), Some(s)) => Rate::of_cpu(n.saturating_sub(b), per_second, s),
        _ => Rate { bits: PENDING },
    }
}

fn io_rate(now: Option<u64>, before: Option<u64>, seconds: Option<Soft>) -> (r: Rate)
    requires
        usable(seconds),
    ensures
        r == rate_between(now, before, seconds_in(seconds)),
{
    match (now, before, seconds) {
        (Some(n), Some(b), Some(s)) => Rate::of_bytes(n.saturating_sub(b), s),
        _ => Rate { bits: PENDING },
    }
}

pub open spec fn raw_process_in(p: Option<&ProcessRaw>) -> Option<ProcessRawView> {
    match p {
        Some(p) => Some(p@),
        None => None,
    }
}

fn find_process<'a>(list: &'a Vec<ProcessRaw>, pid: u32, starttime: u64) -> (r: Option<
    &'a ProcessRaw,
>)
    ensures
        raw_process_in(r) == same_process(views(list@), pid, starttime),
{
    let ghost all = views(list@);
    let mut n: usize = list.len();
    assert(all.take(n as int) =~= all);
    while n > 0
        invariant
            n <= list@.len(),
            all == views(list@),
            same_process(all.take(n as int), pid, starttime) == same_process(all, pid, starttime),
        decreases n,
    {
        assert(all.take(n as int).last() == list@[n - 1]@);
        if list[n - 1].pid == pid && list[n - 1].starttime == starttime {
            return Some(&list[n - 1]);
        }
        assert(all.take(n as int).drop_last() =~= all.take(n - 1));
        n -= 1;
    }
    None
}

pub open spec fn raw_cgroup_in(c: Option<&CgroupNodeRaw>) -> Option<CgroupRawView> {
    match c {
        Some(c) => Some(c@),
        None => None,
    }
}

fn find_cgroup<'a>(list: &'a Vec<CgroupNodeRaw>, path: &str) -> (r: Option<&'a CgroupNodeRaw>)
    ensures
        raw_cgroup_in(r) == same_cgroup(views(list@), path@),
{
    let ghost all = views(list@);
    let mut n: usize = list.len();
    assert(all.take(n as int) =~= all);
    while n > 0
        invariant
            n <= list@.len(),
            all == views(list@),
            same_cgroup(all.take(n as int), path@) == same_cgroup(all, path@),
        decreases n,
    {
        assert(all.take(n as int).last() == list@[n - 1]@);
        if same_path(list[n - 1].path.as_str(), path) {
            return Some(&list[n - 1]);
        }
        assert(all.take(n as int).drop_last() =~= all.take(n - 1));
        n -= 1;
    }
    None
}

/// A process between two snapshots.
pub fn convert_process(raw: &ProcessRaw, prev: Option<&ProcessRaw>, seconds: Option<Soft>) -> (r:
    Process)
    requires
        usable(seconds),
    ensures
        r@ == process_between(raw@, raw_process_in(prev), seconds_in(seconds)),
        r.pid == raw.pid,
        r.ppid == raw.ppid,
        r.starttime == raw.starttime,
        r.name@ == raw.name@,
        text_in(r.cmdline) == text_in(raw.cmdline),
        r.user@ == raw.user@,
        r.state == raw.state,
        r.num_threads == raw.num_threads,
        r.rss == raw.rss,
        r.vsize == raw.vsize,
        r.utime == raw.utime,
        r.stime == raw.stime,
        r.io_read_bytes == raw.io_read_bytes,
        r.io_write_bytes == raw.io_write_bytes,
        (prev matches Some(p) ==> seconds matches Some(s) ==> {
            &&& r.cpu_percent == cpu_share(
                growth(raw.utime.wrapping_add(raw.stime), p.utime.wrapping_add(p.stime)),
                100,
                s@,
            )
            &&& r.io_read_rate == byte_rate(growth(raw.io_read_bytes, p.io_read_bytes), s@)
            &&& r.io_write_rate == byte_rate(growth(raw.io_write_bytes, p.io_write_bytes), s@)
        }),
        prev is None || seconds is None ==> r.cpu_percent.bits == PENDING && r.io_read_rate.bits
            == PENDING && r.io_write_rate.bits == PENDING,
{
    let pending = Rate { bits: PENDING };
    let (cpu_percent, io_read_rate, io_write_rate) = match prev {
        Some(p) => {
            let curr_cpu: u64 = raw.utime.wrapping_add(raw.stime);
            let prev_cpu: u64 = p.utime.wrapping_add(p.stime);
            (
                cpu_rate(Some(curr_cpu), Some(prev_cpu), CLOCK_TICKS, seconds),
                io_rate(Some(raw.io_read_bytes), Some(p.io_read_bytes), seconds),
                io_rate(Some(raw.io_write_bytes), Some(p.io_write_bytes), seconds),
            )
        },
        None => (pending, pending, pending),
    };
    Process {
        pid: raw.pid,
        ppid: raw.ppid,
        starttime: raw.starttime,
        name: raw.name.clone(),
        cmdline: copy_text(&raw.cmdline),
        user: raw.user.clone(),
        state: raw.state,
        utime: raw.utime,
        stime: raw.stime,
        rss: raw.rss,
        vsize: raw.vsize,
        num_threads: raw.num_threads,
        cpu_percent,
        io_read_bytes: raw.io_read_bytes,
        io_write_bytes: raw.io_write_bytes,
        io_read_rate,
        io_write_rate,
    }
}

/// A tree between two snapshots.
pub fn convert_node(raw: &CgroupNodeRaw, prev: &CgroupNodeRaw, seconds: Option<Soft>) -> (r:
    CgroupNode)
    requires
        usable(seconds),
    ensures
        r@ == tree_between(raw@, prev@, seconds_in(seconds)),
    decreases raw,
{
    let ghost s = seconds_in(seconds);
    let metrics = CgroupMetrics {
        memory_current: raw.memory_current,
        memory_max: raw.memory_max,
        cpu_usage_usec: raw.cpu_usage_usec,
        pids_current: raw.pids_current,
        cpu_percent: cpu_rate(raw.cpu_usage_usec, prev.cpu_usage_usec, MICROS, seconds),
        io_read_bytes: raw.io_read_bytes,
        io_write_bytes: raw.io_write_bytes,
        io_read_rate: io_rate(raw.io_read_bytes, prev.io_read_bytes, seconds),
        io_write_rate: io_rate(raw.io_write_bytes, prev.io_write_bytes, seconds),
    };
    let mut processes: Vec<Process> = Vec::new();
    let mut i: usize = 0;
    while i < raw.processes.len()
        invariant
            i <= raw.processes@.len(),
            usable(seconds),
            s == seconds_in(seconds),
            raw@.processes == views(raw.processes@),
            prev@.processes == views(prev.processes@),
            processes@.len() == i,
            forall|j: int|
                0 <= j < i ==> (#[trigger] processes@[j])@ == process_between(
                    raw@.processes[j],
                    same_process(
                        prev@.processes,
                        raw@.processes[j].pid,
                        raw@.processes[j].starttime,
                    ),
                    s,
                ),
        decreases raw.processes@.len() - i,
    {
        let p = &raw.processes[i];
        assert(raw@.processes[i as int] == p@);
        let before = find_process(&prev.processes, p.pid, p.starttime);
        processes.push(convert_process(p, before, seconds));
        i += 1;
    }
    proof {
        lemma_raw_children(*raw);
        lemma_raw_children(*prev);
        assert(views(prev.children@) =~= prev@.children);
    }
    let default_cgroup = CgroupNodeRaw::default();
    let mut children: Vec<CgroupNode> = Vec::new();
    let mut k: usize = 0;
    while k < raw.children.len()
        invariant
            k <= raw.children@.len(),
            usable(seconds),
            s == seconds_in(seconds),
            default_cgroup@ == no_cgroup(),
            raw@.children.len() == raw.children@.len(),
            forall|j: int|
                0 <= j < raw.children@.len() ==> #[trigger] raw.children@[j]@ == raw@.children[j],
            views(prev.children@) == prev@.children,
            children@.len() == k,
            forall|j: int|
                0 <= j < k ==> (#[trigger] children@[j])@ == tree_between(
                    raw@.children[j],
                    cgroup_before(prev@, raw@.children[j].path),
                    s,
                ),
        decreases raw.children@.len() - k,
    {
        let child = &raw.children[k];
        assert(child@ == raw@.children[k as int]);
        let before = match find_cgroup(&prev.children, child.path.as_str()) {
            Some(c) => c,
            None => &default_cgroup,
        };
        children.push(convert_node(child, before, seconds));
        k += 1;
    }
    let r = CgroupNode {
        path: raw.path.clone(),
        name: raw.name.clone(),
        children,
        processes,
        metrics,
        depth: raw.depth,
    };
    proof {
        lemma_children(r);
        let want = tree_between(raw@, prev@, s);
        assert(r@.processes =~= want.processes);
        assert forall|j: int| 0 <= j < want.children.len() implies r@.children[j] == #[trigger] want.children[j] by {
            assert(children@[j]@ == r@.children[j]);
        }
        assert(r@.children =~= want.children);
    }
    r
}

/// No rate of a process is known.
pub open spec fn process_is_pending(p: ProcessView) -> bool {
    p.cpu_percent.pending() && p.io_read_rate.pending() && p.io_write_rate.pending()
}

/// No rate of a cgroup or of anything in it is known.
pub open spec fn tree_is_pending(v: CgroupView) -> bool
    decreases v,
{
    &&& v.metrics.cpu_percent.pending()
    &&& v.metrics.io_read_rate.pending()
    &&& v.metrics.io_write_rate.pending()
    &&& forall|i: int| 0 <= i < v.processes.len() ==> process_is_pending(#[trigger] v.processes[i])
    &&& forall|i: int| 0 <= i < v.children.len() ==> tree_is_pending(#[trigger] v.children[i])
}

/// Without an earlier snapshot, or where no time has passed since it, every rate is pending.
pub proof fn no_time_gives_no_rates(raw: CgroupRawView, prev: CgroupRawView)
    ensures
        tree_is_pending(tree_between(raw, prev, None)),
    decreases raw,
{
    let v = tree_between(raw, prev, None);
    assert forall|i: int| 0 <= i < v.children.len() implies tree_is_pending(#[trigger] v.children[i]) by {
        no_time_gives_no_rates(raw.children[i], cgroup_before(prev, raw.children[i].path));
    }
}

/// What is new in a snapshot, a cgroup at a path that was not there, has no rates yet, nor has
/// anything in it.
pub proof fn new_cgroup_has_no_rates(raw: CgroupRawView, seconds: Option<Float>)
    ensures
        tree_is_pending(tree_between(raw, no_cgroup(), seconds)),
    decreases raw,
{
    let v = tree_between(raw, no_cgroup(), seconds);
    assert forall|i: int| 0 <= i < v.children.len() implies tree_is_pending(#[trigger] v.children[i]) by {
        assert(cgroup_before(no_cgroup(), raw.children[i].path) == no_cgroup());
        new_cgroup_has_no_rates(raw.children[i], seconds);
    }
    assert forall|i: int| 0 <= i < v.processes.len() implies process_is_pending(
        #[trigger] v.processes[i],
    ) by {
        let p = raw.processes[i];
        assert(same_process(no_cgroup().processes, p.pid, p.starttime) is None);
    }
}

/// A process gets its rates only from an earlier sample of the same process: one with another
/// start time is another process, though it has the same ID.
pub proof fn reused_pid_has_no_rates(
    list: Seq<ProcessRawView>,
    raw: ProcessRawView,
    seconds: Option<Float>,
)
    requires
        forall|i: int|
            0 <= i < list.len() && (#[trigger] list[i]).pid == raw.pid ==> list[i].starttime
                != raw.starttime,
    ensures
        process_is_pending(
            process_between(raw, same_process(list, raw.pid, raw.starttime), seconds),
        ),
    decreases list.len(),
{
    if list.len() > 0 {
        let front = list.drop_last();
        assert(list.last() == list[list.len() - 1]);
        assert forall|i: int| 0 <= i < front.len() && (#[trigger] front[i]).pid == raw.pid implies front[i].starttime
            != raw.starttime by {
            assert(front[i] == list[i]);
        }
        reused_pid_has_no_rates(front, raw, seconds);
    }
}

}
