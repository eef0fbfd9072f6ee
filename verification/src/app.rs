//! The state of the monitor of one machine.

use vstd::prelude::*;
use crate::baseline::{
    cpu_since, measure_cpu, no_baseline, tree_measured, Baseline, BaselineView, CpuMark,
    CLOCK_TICKS,
};
use crate::cgroup::types::{CgroupNode, CgroupView};
use crate::float::{of_int, Soft, SINGLE};
use crate::model::views;
use crate::nav::{
    jump_last, last_row, leap_down, leap_up, row_down, row_up, rows_down, rows_up, step_down,
    step_up,
};
use crate::process::parser::{fields_follow, parse_self_stat, self_stat_read, PAGE_SIZE};
use crate::rate::{
    nanos_in_short_seconds, packed, rate_product, rate_quotient, short_seconds_of_nanos, zero_rate,
    Rate,
};
use crate::rows::{flatten_tree, tree_rows, LookView, TreeItem, TreeItemView};
use crate::sort::{SortColumn, SortDirection};
use crate::text::{concat, text_in};

verus! {

/// Self-monitoring stats for the jam process
#[derive(Debug, Clone, Copy)]
pub struct SelfStats {
    pub cpu_percent: Rate,
    pub memory_bytes: u64,
    pub fps: Rate,
    /// Time to collect all metrics in milliseconds
    pub refresh_time_ms: Rate,
}

/// Nothing was measured yet.
pub open spec fn no_self_stats() -> SelfStats {
    SelfStats {
        cpu_percent: zero_rate(),
        memory_bytes: 0,
        fps: zero_rate(),
        refresh_time_ms: zero_rate(),
    }
}

impl Default for SelfStats {
    fn default() -> (r: Self)
        ensures
            r == no_self_stats(),
    {
        let zero = Rate { bits: 0 };
        SelfStats { cpu_percent: zero, memory_bytes: 0, fps: zero, refresh_time_ms: zero }
    }
}

/// The stats with what /proc/self/stat says now, and the mark for the next time; a stat line that
/// is missing or cannot be read changes nothing.
pub open spec fn self_measured(
    stats: SelfStats,
    mark: Option<CpuMark>,
    stat: Option<Seq<char>>,
    now: u64,
) -> (SelfStats, Option<CpuMark>) {
    match stat {
        Some(text) => match self_stat_read(text) {
            Some((utime, stime, rss)) => {
                let total_time = utime.wrapping_add(stime);
                (
                    SelfStats {
                        cpu_percent: cpu_since(
                            mark,
                            total_time,
                            CLOCK_TICKS,
                            now,
                            stats.cpu_percent,
                        ),
                        memory_bytes: rss.wrapping_mul(PAGE_SIZE),
                        ..stats
                    },
                    Some(CpuMark { total_time, timestamp: now }),
                )
            },
            None => (stats, mark),
        },
        None => (stats, mark),
    }
}

/// The stat line of the process itself can be read, where it is there.
pub open spec fn self_stat_is_whole(stat: Option<Seq<char>>) -> bool {
    match stat {
        Some(text) => fields_follow(text),
        None => true,
    }
}

/// Update self-monitoring stats for the jam process
pub fn measure_self(
    stats: &SelfStats,
    mark: &Option<CpuMark>,
    stat: &Option<String>,
    now: u64,
) -> (r: (SelfStats, Option<CpuMark>))
    requires
        self_stat_is_whole(text_in(*stat)),
    ensures
        r == self_measured(*stats, *mark, text_in(*stat), now),
{
    match stat {
        Some(text) => match parse_self_stat(text.as_str()) {
            Some((utime, stime, rss)) => {
                let total_time: u64 = utime.wrapping_add(stime);
                let cpu_percent = measure_cpu(
                    mark.as_ref(),
                    total_time,
                    CLOCK_TICKS,
                    now,
                    stats.cpu_percent,
                );
                let memory_bytes: u64 = rss.wrapping_mul(PAGE_SIZE);
                (
                    SelfStats {
                        cpu_percent,
                        memory_bytes,
                        fps: stats.fps,
                        refresh_time_ms: stats.refresh_time_ms,
                    },
                    Some(CpuMark { total_time, timestamp: now }),
                )
            },
            None => (*stats, *mark),
        },
        None => (*stats, *mark),
    }
}

/// The frames per second over a time of at least one second.
pub open spec fn frame_rate(frames: u64, elapsed: u64) -> Option<Rate> {
    let seconds = nanos_in_short_seconds(elapsed as nat);
    if packed(seconds) >= 0x3f80_0000 {
        Some(rate_quotient(of_int(frames as nat, SINGLE as nat), seconds))
    } else {
        None
    }
}

/// The frames per second, once a second has passed.
pub fn measure_frames(frames: u64, elapsed: u64) -> (r: Option<Rate>)
    ensures
        r == frame_rate(frames, elapsed),
{
    let seconds = short_seconds_of_nanos(elapsed);
    if Rate::pack(seconds).bits >= 0x3f80_0000 {
        Some(Rate::of_quotient(Soft::of(frames, SINGLE), seconds))
    } else {
        None
    }
}

/// A time in milliseconds.
pub open spec fn millis_of(elapsed: u64) -> Rate {
    rate_product(
        Rate { bits: packed(nanos_in_short_seconds(elapsed as nat)) },
        Rate { bits: 0x447a_0000 },
    )
}

/// A time in nanoseconds in milliseconds.
pub fn measure_millis(elapsed: u64) -> (r: Rate)
    ensures
        r == millis_of(elapsed),
{
    Rate::pack(short_seconds_of_nanos(elapsed)).times(Rate { bits: 0x447a_0000 })
}

/// Application state
#[derive(Debug)]
pub struct App {
    /// The root cgroup node
    pub root: Option<CgroupNode>,
    /// Flattened tree items for display
    pub items: Vec<TreeItem>,
    /// Currently selected item index
    pub selected: usize,
    /// Scroll offset
    pub scroll: usize,
    /// Last refresh time in nanoseconds
    pub last_refresh: u64,
    /// Refresh interval in milliseconds
    pub refresh_interval: u64,
    /// Should quit
    pub should_quit: bool,
    /// Error message to display
    pub error: Option<String>,
    /// Counters of the last sample (for rates)
    pub baseline: Baseline,
    /// Current sort column
    pub sort_column: SortColumn,
    /// Current sort direction
    pub sort_direction: SortDirection,
    /// Self-monitoring stats for the jam process
    pub self_stats: SelfStats,
    /// Previous CPU time for self (for CPU% calculation)
    pub prev_self_cpu: Option<CpuMark>,
}

/// The state of the monitor.
pub struct AppView {
    pub root: Option<CgroupView>,
    pub items: Seq<TreeItemView>,
    pub selected: usize,
    pub scroll: usize,
    pub last_refresh: u64,
    pub refresh_interval: u64,
    pub should_quit: bool,
    pub error: Option<Seq<char>>,
    pub baseline: BaselineView,
    pub sort_column: SortColumn,
    pub sort_direction: SortDirection,
    pub self_stats: SelfStats,
    pub prev_self_cpu: Option<CpuMark>,
}

pub open spec fn root_in(root: Option<CgroupNode>) -> Option<CgroupView> {
    match root {
        Some(node) => Some(node@),
        None => None,
    }
}

impl View for App {
    type V = AppView;

    open spec fn view(&self) -> AppView {
        AppView {
            root: root_in(self.root),
            items: views(self.items@),
            selected: self.selected,
            scroll: self.scroll,
            last_refresh: self.last_refresh,
            refresh_interval: self.refresh_interval,
            should_quit: self.should_quit,
            error: text_in(self.error),
            baseline: self.baseline@,
            sort_column: self.sort_column,
            sort_direction: self.sort_direction,
            self_stats: self.self_stats,
            prev_self_cpu: self.prev_self_cpu,
        }
    }
}

/// The rows of a tree on this machine.
pub open spec fn local_rows(
    root: CgroupView,
    column: SortColumn,
    direction: SortDirection,
) -> Seq<TreeItemView> {
    tree_rows(root, LookView { node: None, column, direction })
}

impl AppView {
    /// The state with another order of rows.
    pub open spec fn resorted(self, column: SortColumn, direction: SortDirection) -> AppView {
        AppView {
            sort_column: column,
            sort_direction: direction,
            items: match self.root {
                Some(root) => local_rows(root, column, direction),
                None => self.items,
            },
            ..self
        }
    }

    /// The state after a refresh: the rows of the new tree with its rates, or an error.
    pub open spec fn refreshed(
        self,
        now: u64,
        stat: Option<Seq<char>>,
        tree: Result<CgroupView, Seq<char>>,
    ) -> AppView {
        let own = self_measured(self.self_stats, self.prev_self_cpu, stat, now);
        let base = AppView { error: None, self_stats: own.0, prev_self_cpu: own.1, ..self };
        match tree {
            Ok(root) => {
                let measured = tree_measured(self.baseline, root, now);
                AppView {
                    baseline: measured.0,
                    items: local_rows(measured.1, self.sort_column, self.sort_direction),
                    root: Some(measured.1),
                    last_refresh: now,
                    ..base
                }
            },
            Err(e) => AppView { error: Some("Failed to parse cgroup tree: "@ + e), ..base },
        }
    }
}

/// The tree that was read, or what kept it from being read.
pub open spec fn tree_in(tree: Result<CgroupNode, String>) -> Result<CgroupView, Seq<char>> {
    match tree {
        Ok(root) => Ok(root@),
        Err(e) => Err(e@),
    }
}

impl App {
    pub open spec fn wf(&self) -> bool {
        self.baseline.wf()
    }

    /// The monitor before its first refresh.
    pub fn new(refresh_ms: u64, now: u64) -> (r: Self)
        ensures
            r.wf(),
            r@ == (AppView {
                root: None,
                items: seq![],
                selected: 0,
                scroll: 0,
                last_refresh: now,
                refresh_interval: refresh_ms,
                should_quit: false,
                error: None,
                baseline: no_baseline(),
                sort_column: SortColumn::Cpu,
                sort_direction: SortDirection::Descending,
                self_stats: no_self_stats(),
                prev_self_cpu: None,
            }),
    {
        let r = App {
            root: None,
            items: Vec::new(),
            selected: 0,
            scroll: 0,
            last_refresh: now,
            refresh_interval: refresh_ms,
            should_quit: false,
            error: None,
            baseline: Baseline::new(),
            sort_column: SortColumn::Cpu,
            sort_direction: SortDirection::Descending,
            self_stats: SelfStats::default(),
            prev_self_cpu: None,
        };
        assert(r@.items =~= seq![]);
        r
    }

    /// Cycle to next sort column
    pub fn sort_next_column(&mut self)
        ensures
            final(self)@ == old(self)@.resorted(
                SortColumn::at((old(self).sort_column.place() + 1) % 9),
                old(self).sort_direction,
            ),
            final(self).wf() == old(self).wf(),
    {
        self.sort_column = self.sort_column.next();
        self.rebuild_items();
    }

    /// Cycle to previous sort column
    pub fn sort_prev_column(&mut self)
        ensures
            final(self)@ == old(self)@.resorted(
                SortColumn::at((old(self).sort_column.place() + 8) % 9),
                old(self).sort_direction,
            ),
            final(self).wf() == old(self).wf(),
    {
        self.sort_column = self.sort_column.prev();
        self.rebuild_items();
    }

    /// Toggle sort direction
    pub fn toggle_sort_direction(&mut self)
        ensures
            final(self)@ == old(self)@.resorted(
                old(self).sort_column,
                old(self).sort_direction.opposite(),
            ),
            final(self).wf() == old(self).wf(),
    {
        self.sort_direction = self.sort_direction.toggle();
        self.rebuild_items();
    }

    /// Rebuild items from current root with current sort settings
    fn rebuild_items(&mut self)
        ensures
            final(self)@ == old(self)@.resorted(old(self).sort_column, old(self).sort_direction),
            final(self).wf() == old(self).wf(),
    {
        match &self.root {
            Some(root) => {
                self.items = flatten_tree(root, self.sort_column, self.sort_direction);
            },
            None => {},
        }
    }

    /// Refresh the cgroup tree data
    pub fn refresh(&mut self, now: u64, self_stat: &Option<String>, tree: Result<CgroupNode, String>)
        requires
            old(self).wf(),
            self_stat_is_whole(text_in(*self_stat)),
        ensures
            final(self).wf(),
            final(self)@ == old(self)@.refreshed(now, text_in(*self_stat), tree_in(tree)),
    {
        self.error = None;
        self.update_self_stats(now, self_stat);
        match tree {
            Ok(mut root) => {
                self.baseline.calculate_cpu_percent(&mut root, now);
                self.items = flatten_tree(&root, self.sort_column, self.sort_direction);
                self.root = Some(root);
                self.last_refresh = now;
            },
            Err(e) => {
                self.error = Some(concat("Failed to parse cgroup tree: ", e.as_str()));
            },
        }
    }

    /// Update self-monitoring stats for the jam process
    fn update_self_stats(&mut self, now: u64, self_stat: &Option<String>)
        requires
            self_stat_is_whole(text_in(*self_stat)),
        ensures
            ({
                let own = self_measured(
                    old(self).self_stats,
                    old(self).prev_self_cpu,
                    text_in(*self_stat),
                    now,
                );
                final(self)@ == (AppView {
                    self_stats: own.0,
                    prev_self_cpu: own.1,
                    ..old(self)@
                })
            }),
            final(self).wf() == old(self).wf(),
    {
        let own = measure_self(&self.self_stats, &self.prev_self_cpu, self_stat, now);
        self.self_stats = own.0;
        self.prev_self_cpu = own.1;
    }

    /// Check if refresh is needed
    pub fn needs_refresh(&self, now: u64) -> (r: bool)
        ensures
            r == (now - self.last_refresh >= self.refresh_interval * 1_000_000
                || self.refresh_interval == 0),
    {
        let elapsed: u64 = now.saturating_sub(self.last_refresh);
        elapsed as u128 >= self.refresh_interval as u128 * 1_000_000
    }

    /// Move selection up
    pub fn select_prev(&mut self)
        ensures
            final(self)@ == (AppView { selected: row_up(old(self).selected), ..old(self)@ }),
            final(self).wf() == old(self).wf(),
    {
        self.selected = step_up(self.selected);
    }

    /// Move selection down
    pub fn select_next(&mut self)
        ensures
            final(self)@ == (AppView {
                selected: row_down(old(self).selected, old(self)@.items.len()),
                ..old(self)@
            }),
            final(self).wf() == old(self).wf(),
    {
        self.selected = step_down(self.selected, self.items.len());
    }

    /// Page up
    pub fn page_up(&mut self, page_size: usize)
        ensures
            final(self)@ == (AppView {
                selected: rows_up(old(self).selected, page_size),
                ..old(self)@
            }),
            final(self).wf() == old(self).wf(),
    {
        self.selected = leap_up(self.selected, page_size);
    }

    /// Page down
    pub fn page_down(&mut self, page_size: usize)
        ensures
            final(self)@ == (AppView {
                selected: rows_down(old(self).selected, page_size, old(self)@.items.len()),
                ..old(self)@
            }),
            final(self).wf() == old(self).wf(),
    {
        self.selected = leap_down(self.selected, page_size, self.items.len());
    }

    /// Jump to top
    pub fn select_first(&mut self)
        ensures
            final(self)@ == (AppView { selected: 0, ..old(self)@ }),
            final(self).wf() == old(self).wf(),
    {
        self.selected = 0;
    }

    /// Jump to bottom
    pub fn select_last(&mut self)
        ensures
            final(self)@ == (AppView {
                selected: last_row(old(self).selected, old(self)@.items.len()),
                ..old(self)@
            }),
            final(self).wf() == old(self).wf(),
    {
        self.selected = jump_last(self.selected, self.items.len());
    }
}

}
