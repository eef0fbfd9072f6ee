//! What the rates between two snapshots of a machine are, from the counters in them.

use vstd::prelude::*;
use crate::cgroup::types::CgroupView;
use crate::float::Float;
use crate::path::place_of;
use crate::process::types::ProcessView;
use crate::rate::{byte_rate, cpu_share, millis_in_seconds, PENDING};
use crate::slurm::convert::{process_between, same_cgroup, same_process, time_between, tree_between};
use crate::slurm::coordinator::CoordinatorView;
use crate::slurm::types::{CgroupRawView, ProcessRawView, SnapshotView};

verus! {

/// A process is shown with all that was sampled of it.
pub proof fn process_keeps_its_sample(
    raw: ProcessRawView,
    prev: Option<ProcessRawView>,
    seconds: Option<Float>,
)
    ensures
        is_sampled(process_between(raw, prev, seconds), raw),
{
}

/// The process has the values of a sample.
pub open spec fn is_sampled(p: ProcessView, raw: ProcessRawView) -> bool {
    &&& p.pid == raw.pid
    &&& p.ppid == raw.ppid
    &&& p.starttime == raw.starttime
    &&& p.name == raw.name
    &&& p.cmdline == raw.cmdline
    &&& p.user == raw.user
    &&& p.state == raw.state
    &&& p.num_threads == raw.num_threads
    &&& p.rss == raw.rss
    &&& p.vsize == raw.vsize
    &&& p.utime == raw.utime
    &&& p.stime == raw.stime
    &&& p.io_read_bytes == raw.io_read_bytes
    &&& p.io_write_bytes == raw.io_write_bytes
}

/// The CPU share of a process between two samples is that of the ticks that it spent in both modes
/// in between, a hundred of them to a second. Counters that went back give no share.
pub proof fn share_is_of_both_modes(raw: ProcessRawView, p: ProcessRawView, seconds: Float)
    requires
        raw.utime + raw.stime <= u64::MAX,
        p.utime + p.stime <= u64::MAX,
    ensures
        raw.utime + raw.stime >= p.utime + p.stime ==> process_between(
            raw,
            Some(p),
            Some(seconds),
        ).cpu_percent == cpu_share(
            (raw.utime + raw.stime - p.utime - p.stime) as nat,
            100,
            seconds,
        ),
        raw.utime + raw.stime < p.utime + p.stime ==> process_between(
            raw,
            Some(p),
            Some(seconds),
        ).cpu_percent == cpu_share(0, 100, seconds),
{
}

/// Time in the kernel counts as much as time in user mode: a process that spent so many ticks in the
/// one has the share of one that spent as many in the other.
pub proof fn modes_count_alike(
    busy: ProcessRawView,
    busy_before: ProcessRawView,
    other: ProcessRawView,
    other_before: ProcessRawView,
    ticks: u64,
    seconds: Option<Float>,
)
    requires
        busy.utime + busy.stime <= u64::MAX,
        other.utime + other.stime <= u64::MAX,
        busy.utime == busy_before.utime + ticks,
        busy.stime == busy_before.stime,
        other.utime == other_before.utime,
        other.stime == other_before.stime + ticks,
    ensures
        process_between(busy, Some(busy_before), seconds).cpu_percent == process_between(
            other,
            Some(other_before),
            seconds,
        ).cpu_percent,
{
}

/// The rates of a process are of the bytes that it read and of those that it wrote between two
/// samples; a counter that went back gives zero.
pub proof fn process_rates_are_of_its_bytes(raw: ProcessRawView, p: ProcessRawView, seconds: Float)
    ensures
        ({
            let v = process_between(raw, Some(p), Some(seconds));
            &&& raw.io_read_bytes >= p.io_read_bytes ==> v.io_read_rate == byte_rate(
                (raw.io_read_bytes - p.io_read_bytes) as nat,
                seconds,
            )
            &&& raw.io_read_bytes < p.io_read_bytes ==> v.io_read_rate == byte_rate(0, seconds)
            &&& raw.io_write_bytes >= p.io_write_bytes ==> v.io_write_rate == byte_rate(
                (raw.io_write_bytes - p.io_write_bytes) as nat,
                seconds,
            )
            &&& raw.io_write_bytes < p.io_write_bytes ==> v.io_write_rate == byte_rate(0, seconds)
        }),
{
}

/// The two samples are of one process: they have the ID and the start time in common.
pub open spec fn is_same_process(a: ProcessRawView, b: ProcessRawView) -> bool {
    a.pid == b.pid && a.starttime == b.starttime
}

/// The earlier sample of a process is the last in the list with its ID and start time.
pub proof fn earlier_sample_is_of_the_process(list: Seq<ProcessRawView>, raw: ProcessRawView, j: int)
    requires
        0 <= j < list.len(),
        is_same_process(list[j], raw),
        forall|k: int| j < k < list.len() ==> !is_same_process(#[trigger] list[k], raw),
    ensures
        same_process(list, raw.pid, raw.starttime) == Some(list[j]),
    decreases list.len(),
{
    if j < list.len() - 1 {
        let front = list.drop_last();
        assert(!is_same_process(list[list.len() - 1], raw));
        assert forall|k: int| j < k < front.len() implies !is_same_process(
            #[trigger] front[k],
            raw,
        ) by {
            assert(front[k] == list[k]);
        }
        earlier_sample_is_of_the_process(front, raw, j);
    }
}

/// The earlier sample of a cgroup is the last in the list at its place.
pub proof fn earlier_sample_is_at_the_place(list: Seq<CgroupRawView>, path: Seq<char>, j: int)
    requires
        0 <= j < list.len(),
        place_of(list[j].path) == place_of(path),
        forall|k: int|
            j < k < list.len() ==> place_of((#[trigger] list[k]).path) != place_of(path),
    ensures
        same_cgroup(list, path) == Some(list[j]),
    decreases list.len(),
{
    if j < list.len() - 1 {
        let front = list.drop_last();
        assert(place_of(list[list.len() - 1].path) != place_of(path));
        assert forall|k: int| j < k < front.len() implies place_of((#[trigger] front[k]).path)
            != place_of(path) by {
            assert(front[k] == list[k]);
        }
        earlier_sample_is_at_the_place(front, path, j);
    }
}

/// A process that is in both samples of its cgroup has its values from the later one, and its rates
/// from the growth of its counters.
pub proof fn process_in_both_samples_has_rates(
    raw: CgroupRawView,
    prev: CgroupRawView,
    seconds: Float,
    i: int,
    j: int,
)
    requires
        0 <= i < raw.processes.len(),
        0 <= j < prev.processes.len(),
        is_same_process(prev.processes[j], raw.processes[i]),
        forall|k: int|
            j < k < prev.processes.len() ==> !is_same_process(
                #[trigger] prev.processes[k],
                raw.processes[i],
            ),
        prev.processes[j].utime <= raw.processes[i].utime,
        prev.processes[j].stime <= raw.processes[i].stime,
        raw.processes[i].utime + raw.processes[i].stime <= u64::MAX,
        prev.processes[j].io_read_bytes <= raw.processes[i].io_read_bytes,
        prev.processes[j].io_write_bytes <= raw.processes[i].io_write_bytes,
    ensures
        ({
            let list = tree_between(raw, prev, Some(seconds)).processes;
            let (now, before) = (raw.processes[i], prev.processes[j]);
            &&& list.len() == raw.processes.len()
            &&& is_sampled(list[i], now)
            &&& list[i].cpu_percent == cpu_share(
                ((now.utime - before.utime) + (now.stime - before.stime)) as nat,
                100,
                seconds,
            )
            &&& list[i].io_read_rate == byte_rate(
                (now.io_read_bytes - before.io_read_bytes) as nat,
                seconds,
            )
            &&& list[i].io_write_rate == byte_rate(
                (now.io_write_bytes - before.io_write_bytes) as nat,
                seconds,
            )
        }),
{
    earlier_sample_is_of_the_process(prev.processes, raw.processes[i], j);
    share_is_of_both_modes(raw.processes[i], prev.processes[j], seconds);
}

/// A process that was not in the earlier sample of its cgroup, or in none from which time has passed,
/// has its values and no rates.
pub proof fn new_process_has_no_rates(
    raw: CgroupRawView,
    prev: CgroupRawView,
    seconds: Option<Float>,
    i: int,
)
    requires
        0 <= i < raw.processes.len(),
        seconds is None || forall|k: int|
            0 <= k < prev.processes.len() ==> !is_same_process(
                #[trigger] prev.processes[k],
                raw.processes[i],
            ),
    ensures
        ({
            let p = tree_between(raw, prev, seconds).processes[i];
            &&& is_sampled(p, raw.processes[i])
            &&& p.cpu_percent.bits == PENDING
            &&& p.io_read_rate.bits == PENDING
            &&& p.io_write_rate.bits == PENDING
        }),
{
    if seconds is Some {
        lemma_no_earlier_sample(prev.processes, raw.processes[i]);
    }
}

proof fn lemma_no_earlier_sample(list: Seq<ProcessRawView>, raw: ProcessRawView)
    requires
        forall|k: int| 0 <= k < list.len() ==> !is_same_process(#[trigger] list[k], raw),
    ensures
        same_process(list, raw.pid, raw.starttime) is None,
    decreases list.len(),
{
    if list.len() > 0 {
        let front = list.drop_last();
        assert(!is_same_process(list[list.len() - 1], raw));
        assert forall|k: int| 0 <= k < front.len() implies !is_same_process(
            #[trigger] front[k],
            raw,
        ) by {
            assert(front[k] == list[k]);
        }
        lemma_no_earlier_sample(front, raw);
    }
}

/// The cgroup has the values of a sample.
pub open spec fn cgroup_is_sampled(v: CgroupView, raw: CgroupRawView) -> bool {
    &&& v.path == raw.path
    &&& v.name == raw.name
    &&& v.depth == raw.depth
    &&& v.metrics.memory_current == raw.memory_current
    &&& v.metrics.memory_max == raw.memory_max
    &&& v.metrics.cpu_usage_usec == raw.cpu_usage_usec
    &&& v.metrics.pids_current == raw.pids_current
    &&& v.metrics.io_read_bytes == raw.io_read_bytes
    &&& v.metrics.io_write_bytes == raw.io_write_bytes
    &&& v.children.len() == raw.children.len()
    &&& v.processes.len() == raw.processes.len()
}

/// A cgroup has its values from the later sample, and its rates from the growth of its counters: a
/// million units of CPU usage to a second. A counter that went back has not grown; one that is missing
/// in a sample gives no rate.
pub proof fn cgroup_rates_are_of_its_counters(
    raw: CgroupRawView,
    prev: CgroupRawView,
    seconds: Option<Float>,
)
    ensures
        ({
            let v = tree_between(raw, prev, seconds);
            &&& cgroup_is_sampled(v, raw)
            &&& raw.cpu_usage_usec is None || prev.cpu_usage_usec is None || seconds is None
                ==> v.metrics.cpu_percent.bits == PENDING
            &&& raw.io_read_bytes is None || prev.io_read_bytes is None || seconds is None
                ==> v.metrics.io_read_rate.bits == PENDING
            &&& raw.io_write_bytes is None || prev.io_write_bytes is None || seconds is None
                ==> v.metrics.io_write_rate.bits == PENDING
            &&& (raw.cpu_usage_usec matches Some(now) ==> prev.cpu_usage_usec matches Some(before)
                ==> seconds matches Some(s) ==> v.metrics.cpu_percent == cpu_share(
                if now >= before {
                    (now - before) as nat
                } else {
                    0
                },
                1_000_000,
                s,
            ))
            &&& (raw.io_read_bytes matches Some(now) ==> prev.io_read_bytes matches Some(before)
                ==> seconds matches Some(s) ==> v.metrics.io_read_rate == byte_rate(
                if now >= before {
                    (now - before) as nat
                } else {
                    0
                },
                s,
            ))
            &&& (raw.io_write_bytes matches Some(now) ==> prev.io_write_bytes matches Some(before)
                ==> seconds matches Some(s) ==> v.metrics.io_write_rate == byte_rate(
                if now >= before {
                    (now - before) as nat
                } else {
                    0
                },
                s,
            ))
        }),
{
}

/// The children of a cgroup stay in their order, and each gets its rates against the child at the same
/// place in the earlier sample.
pub proof fn child_is_rated_against_its_place(
    raw: CgroupRawView,
    prev: CgroupRawView,
    seconds: Option<Float>,
    i: int,
    j: int,
)
    requires
        0 <= i < raw.children.len(),
        0 <= j < prev.children.len(),
        place_of(prev.children[j].path) == place_of(raw.children[i].path),
        forall|k: int|
            j < k < prev.children.len() ==> place_of((#[trigger] prev.children[k]).path) != place_of(
                raw.children[i].path,
            ),
    ensures
        tree_between(raw, prev, seconds).children[i] == tree_between(
            raw.children[i],
            prev.children[j],
            seconds,
        ),
{
    earlier_sample_is_at_the_place(prev.children, raw.children[i].path, j);
}

/// The time between two snapshots is the difference of their stamps in milliseconds, over a thousand;
/// where the later stamp is not the greater, there is none.
pub proof fn time_is_between_the_stamps(now: u64, before: u64)
    ensures
        now > before ==> time_between(now, before) == Some(millis_in_seconds((now - before) as nat)),
        now <= before ==> time_between(now, before) is None,
{
}

/// A process of a machine that is in its two last snapshots, in the cgroup at the top, is rated by its
/// counters in both and by the collector's clock.
pub proof fn process_is_rated_between_snapshots(
    v: CoordinatorView,
    first: SnapshotView,
    second: SnapshotView,
    bytes: u64,
    other_bytes: u64,
    now: u64,
    other_now: u64,
    i: int,
    j: int,
)
    requires
        first.node == second.node,
        second.timestamp > first.timestamp,
        0 <= i < second.cgroup_tree.processes.len(),
        0 <= j < first.cgroup_tree.processes.len(),
        is_same_process(first.cgroup_tree.processes[j], second.cgroup_tree.processes[i]),
        forall|k: int|
            j < k < first.cgroup_tree.processes.len() ==> !is_same_process(
                #[trigger] first.cgroup_tree.processes[k],
                second.cgroup_tree.processes[i],
            ),
        first.cgroup_tree.processes[j].utime <= second.cgroup_tree.processes[i].utime,
        first.cgroup_tree.processes[j].stime <= second.cgroup_tree.processes[i].stime,
        second.cgroup_tree.processes[i].utime + second.cgroup_tree.processes[i].stime <= u64::MAX,
    ensures
        ({
            let w = v.received(first, bytes, now).received(second, other_bytes, other_now);
            let p = w.rated_tree(first.node).processes[i];
            let (a, b) = (first.cgroup_tree.processes[j], second.cgroup_tree.processes[i]);
            &&& is_sampled(p, b)
            &&& p.cpu_percent == cpu_share(
                ((b.utime - a.utime) + (b.stime - a.stime)) as nat,
                100,
                millis_in_seconds((second.timestamp - first.timestamp) as nat),
            )
        }),
{
    crate::slurm::laws::rates_are_between_consecutive_snapshots(
        v,
        first,
        second,
        bytes,
        other_bytes,
        now,
        other_now,
    );
    let seconds = millis_in_seconds((second.timestamp - first.timestamp) as nat);
    let (a, b) = (first.cgroup_tree.processes[j], second.cgroup_tree.processes[i]);
    earlier_sample_is_of_the_process(first.cgroup_tree.processes, b, j);
    share_is_of_both_modes(b, a, seconds);
}

}
