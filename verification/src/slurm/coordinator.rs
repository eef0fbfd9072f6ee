//! The state of the coordinator: the last snapshots of the machines of a job, and their rows.

use vstd::prelude::*;
use crate::app::{measure_self, no_self_stats, self_measured, self_stat_is_whole, SelfStats};
use crate::baseline::{entry, CpuMark};
use crate::cgroup::types::{CgroupNode, CgroupView};
use crate::float::{of_int, Soft, SINGLE};
use crate::model::views;
use crate::nav::{
    jump_last, last_row, leap_down, leap_up, row_down, row_up, rows_down, rows_up, step_down,
    step_up,
};
use crate::number::{decimal, decimal_text};
use crate::rate::{
    interval_in_seconds, millis_in_short_seconds, rate_quotient, rate_sum, seconds_of_interval,
    short_seconds_of_millis, smoothed, zero_rate, Rate,
};
use crate::rows::{TreeItem, TreeItemView};
use crate::slurm::compact::{apply_compact_filter, compacted};
use crate::slurm::convert::{convert_node, elapsed_between, time_between, tree_between};
use crate::slurm::flatten::{flatten_merged_tree, merged_rows};
use crate::slurm::merge::{merge_node_trees, merged_trees, placed_all, placed_of, Placed};
use crate::slurm::slurm::{JobInfo, JobInfoView};
use crate::slurm::types::{no_cgroup, CgroupNodeRaw, NodeSnapshot, SnapshotView, PROTOCOL_VERSION};
use crate::sort::{SortColumn, SortDirection};
use crate::table::{in_order, names_are_in_order, names_are_keys, NameMap};
use crate::text::{concat, text_in};

verus! {

/// Status of a node's collector
#[derive(Debug, Clone, Copy, PartialEq, Eq, Structural)]
pub enum NodeStatus {
    /// Collector is running and sending data
    Connected,
    /// Waiting for first snapshot
    Connecting,
    /// Collector has disconnected
    Disconnected,
}

/// Per-node statistics
#[derive(Debug, Clone, Copy)]
pub struct NodeStats {
    pub bytes_received: u64,
    pub messages_received: u64,
    /// When the last message came, in nanoseconds
    pub last_message: Option<u64>,
    pub last_snapshot_ts: Option<u64>,
    pub msg_rate: Rate,
    pub byte_rate: Rate,
}

/// Nothing was received yet.
pub open spec fn no_stats() -> NodeStats {
    NodeStats {
        bytes_received: 0,
        messages_received: 0,
        last_message: None,
        last_snapshot_ts: None,
        msg_rate: zero_rate(),
        byte_rate: zero_rate(),
    }
}

impl Default for NodeStats {
    fn default() -> (r: Self)
        ensures
            r == no_stats(),
    {
        let zero = Rate { bits: 0 };
        NodeStats {
            bytes_received: 0,
            messages_received: 0,
            last_message: None,
            last_snapshot_ts: None,
            msg_rate: zero,
            byte_rate: zero,
        }
    }
}

/// A rate in single precision: so many in this time.
pub open spec fn per_second(n: u64, seconds: crate::float::Float) -> Rate {
    rate_quotient(of_int(n as nat, SINGLE as nat), seconds)
}

/// The statistics of a node after a snapshot. The first one gives the rates by the refresh
/// interval; a later one is blended in by the time between the snapshots, where some has passed.
pub open spec fn stats_after(
    stats: NodeStats,
    timestamp: u64,
    bytes: u64,
    interval: u64,
    now: u64,
) -> NodeStats {
    let rates = match stats.last_snapshot_ts {
        Some(last) => if timestamp > last {
            let seconds = millis_in_short_seconds((timestamp - last) as nat);
            (
                smoothed(per_second(1, seconds), stats.msg_rate),
                smoothed(per_second(bytes, seconds), stats.byte_rate),
            )
        } else {
            (stats.msg_rate, stats.byte_rate)
        },
        None => {
            let seconds = interval_in_seconds(interval as nat);
            (per_second(1, seconds), per_second(bytes, seconds))
        },
    };
    NodeStats {
        bytes_received: stats.bytes_received.wrapping_add(bytes),
        messages_received: stats.messages_received.wrapping_add(1),
        last_message: Some(now),
        last_snapshot_ts: Some(timestamp),
        msg_rate: rates.0,
        byte_rate: rates.1,
    }
}

impl NodeStats {
    /// The statistics after a snapshot.
    pub fn receive(&self, timestamp: u64, bytes: u64, interval: u64, now: u64) -> (r: NodeStats)
        ensures
            r == stats_after(*self, timestamp, bytes, interval, now),
    {
        let one = Soft::of(1, SINGLE);
        let size = Soft::of(bytes, SINGLE);
        let (msg_rate, byte_rate) = match self.last_snapshot_ts {
            Some(last) => if timestamp > last {
                let seconds = short_seconds_of_millis(timestamp - last);
                (
                    self.msg_rate.blend(Rate::of_quotient(one, seconds)),
                    self.byte_rate.blend(Rate::of_quotient(size, seconds)),
                )
            } else {
                (self.msg_rate, self.byte_rate)
            },
            None => {
                let seconds = seconds_of_interval(interval);
                (Rate::of_quotient(one, seconds), Rate::of_quotient(size, seconds))
            },
        };
        NodeStats {
            bytes_received: self.bytes_received.wrapping_add(bytes),
            messages_received: self.messages_received.wrapping_add(1),
            last_message: Some(now),
            last_snapshot_ts: Some(timestamp),
            msg_rate,
            byte_rate,
        }
    }
}

/// Coordinator state
#[derive(Debug)]
pub struct CoordinatorState {
    pub job_info: JobInfo,
    pub node_snapshots: NameMap<NodeSnapshot>,
    pub prev_snapshots: NameMap<NodeSnapshot>,
    pub node_status: NameMap<NodeStatus>,
    pub node_stats: NameMap<NodeStats>,
    pub items: Vec<TreeItem>,
    pub selected: usize,
    pub scroll: usize,
    pub sort_column: SortColumn,
    pub sort_direction: SortDirection,
    pub error: Option<String>,
    pub should_quit: bool,
    pub self_stats: SelfStats,
    /// Refresh interval in milliseconds
    pub refresh_interval: u64,
    /// When the last snapshot came, in nanoseconds
    pub last_refresh: u64,
    pub connected_count: usize,
    pub needs_rebuild: bool,
    pub compact_mode: bool,
    pub collector_pids: NameMap<u32>,
    pub prev_self_cpu: Option<CpuMark>,
    /// When the own stats were last measured, in nanoseconds
    pub last_self_stats: u64,
}

/// The state of the coordinator.
pub struct CoordinatorView {
    pub job_info: JobInfoView,
    pub node_snapshots: Map<Seq<char>, SnapshotView>,
    pub prev_snapshots: Map<Seq<char>, SnapshotView>,
    pub node_status: Map<Seq<char>, NodeStatus>,
    pub node_stats: Map<Seq<char>, NodeStats>,
    pub items: Seq<TreeItemView>,
    pub selected: usize,
    pub scroll: usize,
    pub sort_column: SortColumn,
    pub sort_direction: SortDirection,
    pub error: Option<Seq<char>>,
    pub should_quit: bool,
    pub self_stats: SelfStats,
    pub refresh_interval: u64,
    pub last_refresh: u64,
    pub connected_count: usize,
    pub needs_rebuild: bool,
    pub compact_mode: bool,
    pub collector_pids: Map<Seq<char>, u32>,
    pub prev_self_cpu: Option<CpuMark>,
    pub last_self_stats: u64,
}

/// What the snapshots in a table say.
pub open spec fn snapshots_in(m: Map<Seq<char>, NodeSnapshot>) -> Map<Seq<char>, SnapshotView> {
    m.map_values(|s: NodeSnapshot| s@)
}

impl View for CoordinatorState {
    type V = CoordinatorView;

    open spec fn view(&self) -> CoordinatorView {
        CoordinatorView {
            job_info: self.job_info@,
            node_snapshots: snapshots_in(self.node_snapshots@),
            prev_snapshots: snapshots_in(self.prev_snapshots@),
            node_status: self.node_status@,
            node_stats: self.node_stats@,
            items: views(self.items@),
            selected: self.selected,
            scroll: self.scroll,
            sort_column: self.sort_column,
            sort_direction: self.sort_direction,
            error: text_in(self.error),
            should_quit: self.should_quit,
            self_stats: self.self_stats,
            refresh_interval: self.refresh_interval,
            last_refresh: self.last_refresh,
            connected_count: self.connected_count,
            needs_rebuild: self.needs_rebuild,
            compact_mode: self.compact_mode,
            collector_pids: self.collector_pids@,
            prev_self_cpu: self.prev_self_cpu,
            last_self_stats: self.last_self_stats,
        }
    }
}

impl CoordinatorState {
    pub open spec fn wf(&self) -> bool {
        &&& self.node_snapshots.wf()
        &&& self.prev_snapshots.wf()
        &&& self.node_status.wf()
        &&& self.node_stats.wf()
        &&& self.collector_pids.wf()
    }

    /// The coordinator of a job before its first snapshot.
    pub fn new(job_info: JobInfo, refresh_ms: u64, now: u64) -> (r: Self)
        ensures
            r.wf(),
            r@ == (CoordinatorView {
                job_info: job_info@,
                node_snapshots: Map::empty(),
                prev_snapshots: Map::empty(),
                node_status: Map::empty(),
                node_stats: Map::empty(),
                items: seq![],
                selected: 0,
                scroll: 0,
                sort_column: SortColumn::Cpu,
                sort_direction: SortDirection::Descending,
                error: None,
                should_quit: false,
                self_stats: no_self_stats(),
                refresh_interval: refresh_ms,
                last_refresh: now,
                connected_count: 0,
                needs_rebuild: false,
                compact_mode: true,
                collector_pids: Map::empty(),
                prev_self_cpu: None,
                last_self_stats: now,
            }),
    {
        let r = CoordinatorState {
            job_info,
            node_snapshots: NameMap::new(),
            prev_snapshots: NameMap::new(),
            node_status: NameMap::new(),
            node_stats: NameMap::new(),
            items: Vec::new(),
            selected: 0,
            scroll: 0,
            sort_column: SortColumn::Cpu,
            sort_direction: SortDirection::Descending,
            error: None,
            should_quit: false,
            self_stats: SelfStats::default(),
            refresh_interval: refresh_ms,
            last_refresh: now,
            connected_count: 0,
            needs_rebuild: false,
            compact_mode: true,
            collector_pids: NameMap::new(),
            prev_self_cpu: None,
            last_self_stats: now,
        };
        assert(r@.items =~= seq![]);
        assert(r@.node_snapshots =~= Map::empty());
        assert(r@.prev_snapshots =~= Map::empty());
        r
    }
}

/// A machine's collector is known to be gone.
pub open spec fn is_gone(status: Option<NodeStatus>) -> bool {
    status == Some(NodeStatus::Disconnected)
}

impl CoordinatorView {
    /// The state after a snapshot came. The one that it takes the place of is its baseline.
    pub open spec fn received(self, s: SnapshotView, bytes: u64, now: u64) -> CoordinatorView {
        let stats = match entry(self.node_stats, s.node) {
            Some(stats) => stats,
            None => no_stats(),
        };
        CoordinatorView {
            collector_pids: self.collector_pids.insert(s.node, s.collector_pid),
            node_status: self.node_status.insert(s.node, NodeStatus::Connected),
            node_stats: self.node_stats.insert(
                s.node,
                stats_after(stats, s.timestamp, bytes, self.refresh_interval, now),
            ),
            node_snapshots: self.node_snapshots.insert(s.node, s),
            prev_snapshots: match entry(self.node_snapshots, s.node) {
                Some(replaced) => self.prev_snapshots.insert(s.node, replaced),
                None => self.prev_snapshots,
            },
            needs_rebuild: true,
            last_refresh: now,
            ..self
        }
    }

    /// The tree of a machine with the rates since its snapshot before.
    pub open spec fn rated_tree(self, node: Seq<char>) -> CgroupView {
        let s = self.node_snapshots[node];
        match entry(self.prev_snapshots, node) {
            Some(prev) => match time_between(s.timestamp, prev.timestamp) {
                Some(seconds) => tree_between(s.cgroup_tree, prev.cgroup_tree, Some(seconds)),
                None => tree_between(s.cgroup_tree, no_cgroup(), None),
            },
            None => tree_between(s.cgroup_tree, no_cgroup(), None),
        }
    }

    /// The tree of a machine with its rates, in the form that is shown.
    pub open spec fn tree_of(self, node: Seq<char>) -> CgroupView {
        let tree = self.rated_tree(node);
        if self.compact_mode {
            compacted(tree, entry(self.collector_pids, node))
        } else {
            tree
        }
    }

    /// The trees of the machines of a list, but for those whose collector is gone.
    pub open spec fn trees_of(self, nodes: Seq<Seq<char>>) -> Seq<Placed>
        decreases nodes.len(),
    {
        if nodes.len() == 0 {
            seq![]
        } else {
            let before = self.trees_of(nodes.drop_last());
            if is_gone(entry(self.node_status, nodes.last())) {
                before
            } else {
                before.push(Placed { node: nodes.last(), cgroup: self.tree_of(nodes.last()) })
            }
        }
    }

    /// The number of machines of a list whose collector is connected.
    pub open spec fn connected_of(self, nodes: Seq<Seq<char>>) -> nat
        decreases nodes.len(),
    {
        if nodes.len() == 0 {
            0
        } else {
            let before = self.connected_of(nodes.drop_last());
            if entry(self.node_status, nodes.last()) == Some(NodeStatus::Connected) {
                before + 1
            } else {
                before
            }
        }
    }

    /// The machines with a snapshot, in the order of their names.
    pub open spec fn nodes(self) -> Seq<Seq<char>> {
        in_order(self.node_snapshots.dom())
    }

    /// The rows of all machines put together.
    pub open spec fn rows(self) -> Seq<TreeItemView> {
        merged_rows(
            merged_trees(self.trees_of(self.nodes())),
            self.sort_column,
            self.sort_direction,
            0,
            true,
            seq![],
        )
    }

    /// The state with its rows built anew.
    pub open spec fn rebuilt(self) -> CoordinatorView {
        CoordinatorView {
            items: self.rows(),
            connected_count: self.connected_of(self.nodes()) as usize,
            ..self
        }
    }

    /// The state after a collector is gone: of its machine only the counters are kept.
    pub open spec fn disconnected(self, node: Seq<char>) -> CoordinatorView {
        CoordinatorView {
            node_status: self.node_status.insert(node, NodeStatus::Disconnected),
            node_snapshots: self.node_snapshots.remove(node),
            prev_snapshots: self.prev_snapshots.remove(node),
            collector_pids: self.collector_pids.remove(node),
            node_stats: match entry(self.node_stats, node) {
                Some(stats) => self.node_stats.insert(
                    node,
                    NodeStats { byte_rate: zero_rate(), msg_rate: zero_rate(), ..stats },
                ),
                None => self.node_stats,
            },
            needs_rebuild: true,
            ..self
        }
    }

    /// The sum of the rates at which data comes from the first `n` machines of a list.
    pub open spec fn data_rate_of(self, nodes: Seq<Seq<char>>) -> Rate
        decreases nodes.len(),
    {
        if nodes.len() == 0 {
            zero_rate()
        } else {
            rate_sum(
                self.data_rate_of(nodes.drop_last()),
                self.node_stats[nodes.last()].byte_rate,
            )
        }
    }
}

proof fn lemma_snapshot_inserted(m: Map<Seq<char>, NodeSnapshot>, k: Seq<char>, s: NodeSnapshot)
    ensures
        snapshots_in(m.insert(k, s)) == snapshots_in(m).insert(k, s@),
{
    assert(snapshots_in(m.insert(k, s)) =~= snapshots_in(m).insert(k, s@));
}

proof fn lemma_snapshot_removed(m: Map<Seq<char>, NodeSnapshot>, k: Seq<char>)
    ensures
        snapshots_in(m.remove(k)) == snapshots_in(m).remove(k),
{
    assert(snapshots_in(m.remove(k)) =~= snapshots_in(m).remove(k));
}

proof fn lemma_connected_bound(v: CoordinatorView, nodes: Seq<Seq<char>>)
    ensures
        v.connected_of(nodes) <= nodes.len(),
    decreases nodes.len(),
{
    if nodes.len() > 0 {
        lemma_connected_bound(v, nodes.drop_last());
    }
}

impl CoordinatorState {
    /// Process an incoming snapshot
    pub fn process_snapshot(&mut self, snapshot: NodeSnapshot, byte_count: usize, now: u64)
        requires
            old(self).wf(),
        ensures
            final(self).wf(),
            final(self)@ == old(self)@.received(snapshot@, byte_count as u64, now),
    {
        let node = snapshot.node.clone();
        self.collector_pids.insert(node.clone(), snapshot.collector_pid);
        self.node_status.insert(node.clone(), NodeStatus::Connected);
        let stats = match self.node_stats.get(node.as_str()) {
            Some(stats) => *stats,
            None => NodeStats::default(),
        };
        let updated = stats.receive(
            snapshot.timestamp,
            byte_count as u64,
            self.refresh_interval,
            now,
        );
        self.node_stats.insert(node.clone(), updated);
        let replaced: Option<NodeSnapshot> = match self.node_snapshots.get(node.as_str()) {
            Some(replaced) => Some(replaced.clone()),
            None => None,
        };
        match replaced {
            Some(replaced) => {
                proof {
                    lemma_snapshot_inserted(self.prev_snapshots@, node@, replaced);
                }
                self.prev_snapshots.insert(node.clone(), replaced);
            },
            None => {},
        }
        proof {
            lemma_snapshot_inserted(self.node_snapshots@, node@, snapshot);
        }
        self.node_snapshots.insert(node, snapshot);
        self.needs_rebuild = true;
        self.last_refresh = now;
    }

    /// Builds the rows anew where something has changed.
    pub fn rebuild_if_needed(&mut self)
        requires
            old(self).wf(),
        ensures
            final(self).wf(),
            final(self)@ == (if old(self).needs_rebuild {
                CoordinatorView { needs_rebuild: false, ..old(self)@.rebuilt() }
            } else {
                old(self)@
            }),
    {
        if self.needs_rebuild {
            self.rebuild_items();
            self.needs_rebuild = false;
        }
    }

    /// The tree of a machine with its rates, in the form that is shown.
    fn display_tree(&self, node: &str, snapshot: &NodeSnapshot) -> (r: CgroupNode)
        requires
            self.wf(),
            self.node_snapshots@.contains_key(node@),
            *snapshot == self.node_snapshots@[node@],
        ensures
            r@ == self@.tree_of(node@),
    {
        let none = CgroupNodeRaw::default();
        let mut tree = match self.prev_snapshots.get(node) {
            Some(prev) => {
                let seconds = elapsed_between(snapshot.timestamp, prev.timestamp);
                if seconds.is_some() {
                    convert_node(&snapshot.cgroup_tree, &prev.cgroup_tree, seconds)
                } else {
                    convert_node(&snapshot.cgroup_tree, &none, None)
                }
            },
            None => convert_node(&snapshot.cgroup_tree, &none, None),
        };
        if self.compact_mode {
            let collector_pid: Option<u32> = match self.collector_pids.get(node) {
                Some(pid) => Some(*pid),
                None => None,
            };
            apply_compact_filter(&mut tree, collector_pid);
        }
        tree
    }

    /// Builds the rows anew.
    fn rebuild_items(&mut self)
        requires
            old(self).wf(),
        ensures
            final(self).wf(),
            final(self)@ == old(self)@.rebuilt(),
    {
        let ghost v = self@;
        let ghost nodes = self.node_snapshots.names();
        proof {
            names_are_keys(&self.node_snapshots);
            names_are_in_order(&self.node_snapshots);
            assert(v.node_snapshots.dom() =~= self.node_snapshots@.dom());
        }
        let mut connected: usize = 0;
        let mut node_trees: Vec<(String, CgroupNode)> = Vec::new();
        let mut i: usize = 0;
        let count: usize = self.node_snapshots.len();
        assert(placed_all(node_trees@) =~= v.trees_of(nodes.take(0)));
        while i < count
            invariant
                self.wf(),
                v == self@,
                nodes == self.node_snapshots.names(),
                i <= nodes.len(),
                nodes.len() == count,
                connected == v.connected_of(nodes.take(i as int)),
                placed_all(node_trees@) == v.trees_of(nodes.take(i as int)),
            decreases nodes.len() - i,
        {
            proof {
                assert(nodes.take(i + 1).drop_last() =~= nodes.take(i as int));
                assert(nodes.take(i + 1).last() == nodes[i as int]);
                lemma_connected_bound(v, nodes.take(i as int));
            }
            let node = self.node_snapshots.name_at(i);
            let status: Option<NodeStatus> = match self.node_status.get(node.as_str()) {
                Some(status) => Some(*status),
                None => None,
            };
            assert(status == entry(v.node_status, nodes[i as int]));
            let gone = match status {
                Some(NodeStatus::Disconnected) => true,
                _ => false,
            };
            if !gone {
                match status {
                    Some(NodeStatus::Connected) => {
                        connected += 1;
                    },
                    _ => {},
                }
                let tree = self.display_tree(node.as_str(), self.node_snapshots.value_at(i));
                let entry_at = (node.clone(), tree);
                let ghost before = node_trees@;
                node_trees.push(entry_at);
                assert(placed_all(node_trees@) =~= placed_all(before).push(placed_of(entry_at)));
            }
            i += 1;
        }
        assert(nodes.take(nodes.len() as int) =~= nodes);
        let merged = merge_node_trees(&node_trees);
        let mut items: Vec<TreeItem> = Vec::new();
        proof {
            reveal_strlit("");
            assert(""@ =~= seq![]);
        }
        flatten_merged_tree(
            &merged,
            self.sort_column,
            self.sort_direction,
            0,
            true,
            "",
            &mut items,
        );
        assert(views(items@) =~= v.rows());
        self.items = items;
        self.connected_count = connected;
    }
}

/// The time after which the own stats are measured again, in nanoseconds.
pub const SELF_STATS_INTERVAL: u64 = 250_000_000;

/// Message from a collector
#[derive(Debug)]
pub enum CollectorEvent {
    /// A line of so many bytes, with the snapshot in it or why there is none
    Line { node: String, bytes: usize, parsed: Result<NodeSnapshot, String> },
    /// The collector's output could not be read
    Error { node: String, error: String },
    /// The collector's output has ended
    Eof { node: String },
}

/// What a collector's message says.
pub enum EventView {
    Line { node: Seq<char>, bytes: u64, parsed: Result<SnapshotView, Seq<char>> },
    Gone { node: Seq<char> },
}

pub open spec fn event_of(event: CollectorEvent) -> EventView {
    match event {
        CollectorEvent::Line { node, bytes, parsed } => EventView::Line {
            node: node@,
            bytes: bytes as u64,
            parsed: match parsed {
                Ok(s) => Ok(s@),
                Err(e) => Err(e@),
            },
        },
        CollectorEvent::Error { node, error: _ } => EventView::Gone { node: node@ },
        CollectorEvent::Eof { node } => EventView::Gone { node: node@ },
    }
}

/// What is shown when a collector has another version of the protocol.
pub open spec fn version_error(node: Seq<char>, version: u32) -> Seq<char> {
    node + ": Protocol version mismatch (expected "@ + decimal(PROTOCOL_VERSION as nat) + ", got "@
        + decimal(version as nat) + ")"@
}

/// What is shown when a collector's line is no snapshot.
pub open spec fn parse_error(node: Seq<char>, error: Seq<char>) -> Seq<char> {
    node + ": JSON parse error: "@ + error
}

impl CoordinatorView {
    /// The state after a message from a collector.
    pub open spec fn handled(self, event: EventView, now: u64) -> CoordinatorView {
        match event {
            EventView::Line { node, bytes, parsed } => match parsed {
                Ok(s) => if s.version != PROTOCOL_VERSION {
                    CoordinatorView { error: Some(version_error(node, s.version)), ..self }
                } else {
                    self.received(s, bytes, now)
                },
                Err(e) => CoordinatorView { error: Some(parse_error(node, e)), ..self },
            },
            EventView::Gone { node } => self.disconnected(node),
        }
    }

    /// The state with the own stats, where it is time to measure them.
    pub open spec fn self_measured(self, now: u64, stat: Option<Seq<char>>) -> CoordinatorView {
        if now - self.last_self_stats >= SELF_STATS_INTERVAL {
            let own = self_measured(self.self_stats, self.prev_self_cpu, stat, now);
            CoordinatorView {
                self_stats: own.0,
                prev_self_cpu: own.1,
                last_self_stats: now,
                ..self
            }
        } else {
            self
        }
    }
}

impl CoordinatorState {
    /// Expects a collector on a machine.
    pub fn expect_node(&mut self, node: String)
        requires
            old(self).wf(),
        ensures
            final(self).wf(),
            final(self)@ == (CoordinatorView {
                node_status: old(self)@.node_status.insert(node@, NodeStatus::Connecting),
                ..old(self)@
            }),
    {
        self.node_status.insert(node, NodeStatus::Connecting);
    }

    /// Handles a message from a collector.
    pub fn handle_event(&mut self, event: CollectorEvent, now: u64)
        requires
            old(self).wf(),
        ensures
            final(self).wf(),
            final(self)@ == old(self)@.handled(event_of(event), now),
    {
        match event {
            CollectorEvent::Line { node, bytes, parsed } => match parsed {
                Ok(snapshot) => {
                    if snapshot.version != PROTOCOL_VERSION {
                        let start = concat(
                            node.as_str(),
                            ": Protocol version mismatch (expected ",
                        );
                        let wanted = decimal_text(PROTOCOL_VERSION as u128);
                        let middle = concat(concat(start.as_str(), wanted.as_str()).as_str(), ", got ");
                        let version = decimal_text(snapshot.version as u128);
                        let end = concat(concat(middle.as_str(), version.as_str()).as_str(), ")");
                        self.error = Some(end);
                    } else {
                        self.process_snapshot(snapshot, bytes, now);
                    }
                },
                Err(e) => {
                    let start = concat(node.as_str(), ": JSON parse error: ");
                    self.error = Some(concat(start.as_str(), e.as_str()));
                },
            },
            CollectorEvent::Error { node, error } => {
                self.mark_disconnected(node.as_str(), error.as_str());
            },
            CollectorEvent::Eof { node } => {
                self.mark_disconnected(node.as_str(), "Collector exited");
            },
        }
    }

    /// Tests whether it is time to measure the own stats.
    pub fn self_stats_due(&self, now: u64) -> (r: bool)
        ensures
            r == (now - self.last_self_stats >= SELF_STATS_INTERVAL),
    {
        now.saturating_sub(self.last_self_stats) >= SELF_STATS_INTERVAL
    }

    /// Measures the own stats, where it is time to.
    pub fn update_self_stats(&mut self, now: u64, self_stat: &Option<String>)
        requires
            self_stat_is_whole(text_in(*self_stat)),
        ensures
            final(self)@ == old(self)@.self_measured(now, text_in(*self_stat)),
            final(self).wf() == old(self).wf(),
    {
        if self.self_stats_due(now) {
            let own = measure_self(&self.self_stats, &self.prev_self_cpu, self_stat, now);
            self.self_stats = own.0;
            self.prev_self_cpu = own.1;
            self.last_self_stats = now;
        }
    }

    /// Toggles between the compact form and the whole.
    pub fn toggle_compact_mode(&mut self)
        ensures
            final(self)@ == (CoordinatorView {
                compact_mode: !old(self).compact_mode,
                needs_rebuild: true,
                ..old(self)@
            }),
            final(self).wf() == old(self).wf(),
    {
        self.compact_mode = !self.compact_mode;
        self.needs_rebuild = true;
    }

    /// The rate at which data comes from all machines, summed in the order of their names.
    pub fn total_data_rate(&self) -> (r: Rate)
        requires
            self.wf(),
        ensures
            r == self@.data_rate_of(in_order(self@.node_stats.dom())),
    {
        let ghost v = self@;
        let ghost nodes = self.node_stats.names();
        proof {
            names_are_in_order(&self.node_stats);
        }
        let mut total = Rate { bits: 0 };
        let mut i: usize = 0;
        while i < self.node_stats.len()
            invariant
                self.wf(),
                v == self@,
                nodes == self.node_stats.names(),
                i <= nodes.len(),
                total == v.data_rate_of(nodes.take(i as int)),
            decreases nodes.len() - i,
        {
            proof {
                assert(nodes.take(i + 1).drop_last() =~= nodes.take(i as int));
                assert(nodes.take(i + 1).last() == nodes[i as int]);
            }
            total = total.plus(self.node_stats.value_at(i).byte_rate);
            i += 1;
        }
        assert(nodes.take(nodes.len() as int) =~= nodes);
        total
    }

    /// Clears what is known of a machine whose collector is gone.
    pub fn mark_disconnected(&mut self, node: &str, _reason: &str)
        requires
            old(self).wf(),
        ensures
            final(self).wf(),
            final(self)@ == old(self)@.disconnected(node@),
    {
        self.node_status.insert(node.to_string(), NodeStatus::Disconnected);
        proof {
            lemma_snapshot_removed(self.node_snapshots@, node@);
            lemma_snapshot_removed(self.prev_snapshots@, node@);
        }
        self.node_snapshots.remove(node);
        self.prev_snapshots.remove(node);
        self.collector_pids.remove(node);
        let found: Option<NodeStats> = match self.node_stats.get(node) {
            Some(stats) => Some(*stats),
            None => None,
        };
        match found {
            Some(stats) => {
                let zero = Rate { bits: 0 };
                let kept = NodeStats {
                    bytes_received: stats.bytes_received,
                    messages_received: stats.messages_received,
                    last_message: stats.last_message,
                    last_snapshot_ts: stats.last_snapshot_ts,
                    msg_rate: zero,
                    byte_rate: zero,
                };
                self.node_stats.insert(node.to_string(), kept);
            },
            None => {},
        }
        self.needs_rebuild = true;
    }

    /// The number of machines whose collector was connected when the rows were built.
    pub fn connected_nodes(&self) -> (r: usize)
        ensures
            r == self@.connected_count,
    {
        self.connected_count
    }

    /// The number of machines.
    pub fn total_nodes(&self) -> (r: usize)
        requires
            self.wf(),
        ensures
            r == self@.node_status.len(),
    {
        self.node_status.len()
    }

    /// Move selection up
    pub fn select_prev(&mut self)
        ensures
            final(self)@ == (CoordinatorView { selected: row_up(old(self).selected), ..old(self)@ }),
            final(self).wf() == old(self).wf(),
    {
        self.selected = step_up(self.selected);
    }

    /// Move selection down
    pub fn select_next(&mut self)
        ensures
            final(self)@ == (CoordinatorView {
                selected: row_down(old(self).selected, old(self)@.items.len()),
                ..old(self)@
            }),
            final(self).wf() == old(self).wf(),
    {
        self.selected = step_down(self.selected, self.items.len());
    }

    /// Page up
    pub fn page_up(&mut self, page_size: usize)
        ensures
            final(self)@ == (CoordinatorView {
                selected: rows_up(old(self).selected, page_size),
                ..old(self)@
            }),
            final(self).wf() == old(self).wf(),
    {
        self.selected = leap_up(self.selected, page_size);
    }

    /// Page down
    pub fn page_down(&mut self, page_size: usize)
        ensures
            final(self)@ == (CoordinatorView {
                selected: rows_down(old(self).selected, page_size, old(self)@.items.len()),
                ..old(self)@
            }),
            final(self).wf() == old(self).wf(),
    {
        self.selected = leap_down(self.selected, page_size, self.items.len());
    }

    /// Jump to top
    pub fn select_first(&mut self)
        ensures
            final(self)@ == (CoordinatorView { selected: 0, ..old(self)@ }),
            final(self).wf() == old(self).wf(),
    {
        self.selected = 0;
    }

    /// Jump to bottom
    pub fn select_last(&mut self)
        ensures
            final(self)@ == (CoordinatorView {
                selected: last_row(old(self).selected, old(self)@.items.len()),
                ..old(self)@
            }),
            final(self).wf() == old(self).wf(),
    {
        self.selected = jump_last(self.selected, self.items.len());
    }

    /// Cycle to next sort column
    pub fn sort_next_column(&mut self)
        ensures
            final(self)@ == (CoordinatorView {
                sort_column: SortColumn::at((old(self).sort_column.place() + 1) % 9),
                needs_rebuild: true,
                ..old(self)@
            }),
            final(self).wf() == old(self).wf(),
    {
        self.sort_column = self.sort_column.next();
        self.needs_rebuild = true;
    }

    /// Cycle to previous sort column
    pub fn sort_prev_column(&mut self)
        ensures
            final(self)@ == (CoordinatorView {
                sort_column: SortColumn::at((old(self).sort_column.place() + 8) % 9),
                needs_rebuild: true,
                ..old(self)@
            }),
            final(self).wf() == old(self).wf(),
    {
        self.sort_column = self.sort_column.prev();
        self.needs_rebuild = true;
    }

    /// Toggle sort direction
    pub fn toggle_sort_direction(&mut self)
        ensures
            final(self)@ == (CoordinatorView {
                sort_direction: old(self).sort_direction.opposite(),
                needs_rebuild: true,
                ..old(self)@
            }),
            final(self).wf() == old(self).wf(),
    {
        self.sort_direction = self.sort_direction.toggle();
        self.needs_rebuild = true;
    }
}

}
