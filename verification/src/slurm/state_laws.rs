//! What the messages of collectors change in the state of the coordinator, and what they leave.

use vstd::prelude::*;
use crate::baseline::entry;
use crate::float::{of_int, SINGLE};
use crate::rate::{
    interval_in_seconds, millis_in_short_seconds, rate_quotient, rate_sum, smoothed,
};
use crate::slurm::coordinator::{stats_after, CoordinatorView, EventView, NodeStats, NodeStatus};
use crate::slurm::merge::Placed;
use crate::slurm::types::SnapshotView;

verus! {

/// A snapshot counts as one message of its size, and is remembered with its stamp and when it came.
pub proof fn snapshot_is_counted(
    stats: NodeStats,
    timestamp: u64,
    bytes: u64,
    interval: u64,
    now: u64,
)
    ensures
        ({
            let after = stats_after(stats, timestamp, bytes, interval, now);
            &&& stats.bytes_received + bytes <= u64::MAX ==> after.bytes_received
                == stats.bytes_received + bytes
            &&& stats.messages_received < u64::MAX ==> after.messages_received
                == stats.messages_received + 1
            &&& after.last_message == Some(now)
            &&& after.last_snapshot_ts == Some(timestamp)
        }),
{
}

/// The first snapshot gives the rates by the refresh interval; a later one is blended in by the time
/// since the one before, by the collector's clock; one that is not later leaves them as they are.
pub proof fn snapshot_rates_are_by_its_clock(
    stats: NodeStats,
    timestamp: u64,
    bytes: u64,
    interval: u64,
    now: u64,
)
    ensures
        ({
            let after = stats_after(stats, timestamp, bytes, interval, now);
            let one = of_int(1, SINGLE as nat);
            let size = of_int(bytes as nat, SINGLE as nat);
            &&& stats.last_snapshot_ts is None ==> after.msg_rate == rate_quotient(
                one,
                interval_in_seconds(interval as nat),
            ) && after.byte_rate == rate_quotient(size, interval_in_seconds(interval as nat))
            &&& (stats.last_snapshot_ts matches Some(last) ==> if timestamp > last {
                let seconds = millis_in_short_seconds((timestamp - last) as nat);
                &&& after.msg_rate == smoothed(rate_quotient(one, seconds), stats.msg_rate)
                &&& after.byte_rate == smoothed(rate_quotient(size, seconds), stats.byte_rate)
            } else {
                after.msg_rate == stats.msg_rate && after.byte_rate == stats.byte_rate
            })
        }),
{
}

/// Nothing but what is known of the machines differs.
pub open spec fn differ_in_machines_only(v: CoordinatorView, w: CoordinatorView) -> bool {
    &&& w.job_info == v.job_info
    &&& w.items == v.items
    &&& w.selected == v.selected
    &&& w.scroll == v.scroll
    &&& w.sort_column == v.sort_column
    &&& w.sort_direction == v.sort_direction
    &&& w.error == v.error
    &&& w.should_quit == v.should_quit
    &&& w.self_stats == v.self_stats
    &&& w.refresh_interval == v.refresh_interval
    &&& w.connected_count == v.connected_count
    &&& w.compact_mode == v.compact_mode
    &&& w.prev_self_cpu == v.prev_self_cpu
    &&& w.last_self_stats == v.last_self_stats
}

/// Of another machine nothing differs.
pub open spec fn agree_on(v: CoordinatorView, w: CoordinatorView, node: Seq<char>) -> bool {
    &&& entry(w.node_snapshots, node) == entry(v.node_snapshots, node)
    &&& entry(w.prev_snapshots, node) == entry(v.prev_snapshots, node)
    &&& entry(w.node_status, node) == entry(v.node_status, node)
    &&& entry(w.node_stats, node) == entry(v.node_stats, node)
    &&& entry(w.collector_pids, node) == entry(v.collector_pids, node)
}

/// A snapshot is the last of its machine from then on, and the one that was the last is the one before.
/// The machine is connected, and the rows are due. Of other machines nothing changes.
pub proof fn snapshot_takes_the_place_of_the_last(
    v: CoordinatorView,
    s: SnapshotView,
    bytes: u64,
    now: u64,
    other: Seq<char>,
)
    ensures
        ({
            let w = v.received(s, bytes, now);
            &&& differ_in_machines_only(v, w)
            &&& w.needs_rebuild
            &&& w.last_refresh == now
            &&& entry(w.node_snapshots, s.node) == Some(s)
            &&& (entry(v.node_snapshots, s.node) matches Some(last) ==> entry(
                w.prev_snapshots,
                s.node,
            ) == Some(last))
            &&& entry(v.node_snapshots, s.node) is None ==> entry(w.prev_snapshots, s.node) == entry(
                v.prev_snapshots,
                s.node,
            )
            &&& entry(w.node_status, s.node) == Some(NodeStatus::Connected)
            &&& entry(w.collector_pids, s.node) == Some(s.collector_pid)
            &&& entry(w.node_stats, s.node) is Some
            &&& (entry(v.node_stats, s.node) matches Some(stats) ==> entry(w.node_stats, s.node)
                == Some(stats_after(stats, s.timestamp, bytes, v.refresh_interval, now)))
            &&& entry(v.node_stats, s.node) is None ==> entry(w.node_stats, s.node)->0.bytes_received
                == bytes && entry(w.node_stats, s.node)->0.messages_received == 1
            &&& other != s.node ==> agree_on(v, w, other)
        }),
{
}

/// When a collector is gone, nothing is left of its machine but its counters, with rates of zero. Of
/// other machines nothing changes.
pub proof fn gone_collector_leaves_its_counters(
    v: CoordinatorView,
    node: Seq<char>,
    other: Seq<char>,
)
    ensures
        ({
            let w = v.disconnected(node);
            &&& differ_in_machines_only(v, w)
            &&& w.needs_rebuild
            &&& w.last_refresh == v.last_refresh
            &&& entry(w.node_snapshots, node) is None
            &&& entry(w.prev_snapshots, node) is None
            &&& entry(w.collector_pids, node) is None
            &&& entry(w.node_status, node) == Some(NodeStatus::Disconnected)
            &&& entry(v.node_stats, node) is None ==> entry(w.node_stats, node) is None
            &&& (entry(v.node_stats, node) matches Some(before) ==> entry(
                w.node_stats,
                node,
            ) matches Some(after) && after.bytes_received == before.bytes_received
                && after.messages_received == before.messages_received && after.last_message
                == before.last_message && after.last_snapshot_ts == before.last_snapshot_ts
                && after.msg_rate.bits == 0 && after.byte_rate.bits == 0)
            &&& other != node ==> agree_on(v, w, other)
        }),
{
}

/// A snapshot of the version in use is taken; a line that is none, or of another version, changes
/// nothing but the message to be shown; the end of a collector's output clears its machine.
pub proof fn message_is_taken_or_refused(
    v: CoordinatorView,
    node: Seq<char>,
    bytes: u64,
    parsed: Result<SnapshotView, Seq<char>>,
    now: u64,
)
    ensures
        ({
            let w = v.handled(EventView::Line { node, bytes, parsed }, now);
            &&& (parsed matches Ok(s) ==> s.version == 1 ==> w == v.received(s, bytes, now))
            &&& (parsed matches Ok(s) ==> s.version != 1 ==> w.error is Some && w
                == (CoordinatorView { error: w.error, ..v }))
            &&& (parsed matches Err(e) ==> w.error == Some(node + ": JSON parse error: "@ + e) && w
                == (CoordinatorView { error: w.error, ..v }))
            &&& v.handled(EventView::Gone { node }, now) == v.disconnected(node)
        }),
{
}

/// The machine's collector is connected.
pub open spec fn is_connected(v: CoordinatorView, node: Seq<char>) -> bool {
    entry(v.node_status, node) == Some(NodeStatus::Connected)
}

/// The machines that are counted as connected are those whose collector is.
pub proof fn connected_machines_are_counted(v: CoordinatorView, nodes: Seq<Seq<char>>)
    ensures
        v.connected_of(nodes) == nodes.filter(|n: Seq<char>| is_connected(v, n)).len(),
    decreases nodes.len(),
{
    reveal(Seq::filter);
    if nodes.len() > 0 {
        connected_machines_are_counted(v, nodes.drop_last());
    }
}

/// The rows show the machines of which a snapshot is there and whose collector is not gone, each with
/// its tree.
pub proof fn shown_machines_are_not_gone(v: CoordinatorView, nodes: Seq<Seq<char>>, node: Seq<char>)
    requires
        nodes.contains(node),
    ensures
        entry(v.node_status, node) != Some(NodeStatus::Disconnected) ==> v.trees_of(nodes).contains(
            Placed { node, cgroup: v.tree_of(node) },
        ),
        entry(v.node_status, node) == Some(NodeStatus::Disconnected) ==> forall|k: int|
            0 <= k < v.trees_of(nodes).len() ==> (#[trigger] v.trees_of(nodes)[k]).node != node,
    decreases nodes.len(),
{
    let list = v.trees_of(nodes);
    let front = nodes.drop_last();
    let before = v.trees_of(front);
    let want = Placed { node, cgroup: v.tree_of(node) };
    if entry(v.node_status, node) != Some(NodeStatus::Disconnected) {
        if nodes.last() == node {
            assert(list.last() == want);
        } else {
            let k = choose|k: int| 0 <= k < nodes.len() && nodes[k] == node;
            assert(front[k] == node);
            shown_machines_are_not_gone(v, front, node);
            let at = choose|at: int| 0 <= at < before.len() && before[at] == want;
            assert(list[at] == want);
        }
    } else {
        lemma_gone_is_not_shown(v, nodes, node);
    }
}

proof fn lemma_gone_is_not_shown(v: CoordinatorView, nodes: Seq<Seq<char>>, node: Seq<char>)
    requires
        entry(v.node_status, node) == Some(NodeStatus::Disconnected),
    ensures
        forall|k: int|
            0 <= k < v.trees_of(nodes).len() ==> (#[trigger] v.trees_of(nodes)[k]).node != node,
    decreases nodes.len(),
{
    if nodes.len() > 0 {
        let list = v.trees_of(nodes);
        let before = v.trees_of(nodes.drop_last());
        lemma_gone_is_not_shown(v, nodes.drop_last(), node);
        assert forall|k: int| 0 <= k < list.len() implies (#[trigger] list[k]).node != node by {
            if k < before.len() {
                assert(list[k] == before[k]);
            }
        }
    }
}

/// With one more machine the rate at which data comes grows by the rate of that machine; without any it
/// is zero.
pub proof fn one_more_machine_adds_its_data_rate(
    v: CoordinatorView,
    nodes: Seq<Seq<char>>,
    node: Seq<char>,
)
    ensures
        v.data_rate_of(nodes.push(node)) == rate_sum(
            v.data_rate_of(nodes),
            v.node_stats[node].byte_rate,
        ),
        v.data_rate_of(Seq::empty()).bits == 0,
{
    assert(nodes.push(node).drop_last() =~= nodes);
}

/// Building the rows changes nothing but the rows and the number of connected machines.
pub proof fn rebuilding_changes_the_rows_only(v: CoordinatorView)
    requires
        v.connected_of(v.nodes()) <= usize::MAX,
    ensures
        ({
            let w = v.rebuilt();
            &&& w.items == v.rows()
            &&& w.connected_count == v.connected_of(v.nodes())
            &&& w == (CoordinatorView {
                items: w.items,
                connected_count: w.connected_count,
                ..v
            })
        }),
{
}

/// In the whole form a machine's tree is shown as it is; the compact form leaves out the collector that
/// is known for the machine.
pub proof fn whole_form_shows_the_tree_as_it_is(v: CoordinatorView, node: Seq<char>)
    ensures
        !v.compact_mode ==> v.tree_of(node) == v.rated_tree(node),
        v.compact_mode ==> v.tree_of(node) == crate::slurm::compact::compacted(
            v.rated_tree(node),
            entry(v.collector_pids, node),
        ),
{
}

/// The own stats are measured once a quarter of a second has passed since the last time, and then
/// remembered with the time; nothing else changes, and before that nothing does.
pub proof fn own_stats_are_measured_when_due(v: CoordinatorView, now: u64, stat: Option<Seq<char>>)
    ensures
        ({
            let w = v.self_measured(now, stat);
            let own = crate::app::self_measured(v.self_stats, v.prev_self_cpu, stat, now);
            &&& now - v.last_self_stats < 250_000_000 ==> w == v
            &&& now - v.last_self_stats >= 250_000_000 ==> w == (CoordinatorView {
                self_stats: own.0,
                prev_self_cpu: own.1,
                last_self_stats: now,
                ..v
            })
        }),
{
}

}
