//! What the monitor of one machine does over time.

use vstd::prelude::*;
use crate::app::{local_rows, self_measured, AppView, SelfStats};
use crate::baseline::{tree_measured, CpuMark};
use crate::cgroup::types::CgroupView;
use crate::process::parser::self_stat_read;
use crate::rate::{cpu_share, nanos_in_seconds};
use crate::sort::{SortColumn, SortDirection};

verus! {

/// The share of the monitor itself is of the time that it spent in both modes since the last time, and
/// its memory that of its resident pages; the other stats stay.
pub proof fn own_stats_are_of_the_stat_line(
    stats: SelfStats,
    mark: CpuMark,
    text: Seq<char>,
    utime: u64,
    stime: u64,
    pages: u64,
    now: u64,
)
    requires
        self_stat_read(text) == Some((utime, stime, pages)),
        utime + stime <= u64::MAX,
        pages * 4096 <= u64::MAX,
        mark.total_time <= utime + stime,
        mark.timestamp < now,
    ensures
        ({
            let after = self_measured(stats, Some(mark), Some(text), now);
            &&& after.0.cpu_percent == cpu_share(
                (utime + stime - mark.total_time) as nat,
                100,
                nanos_in_seconds((now - mark.timestamp) as nat),
            )
            &&& after.0.memory_bytes == pages * 4096
            &&& after.0.fps == stats.fps
            &&& after.0.refresh_time_ms == stats.refresh_time_ms
            &&& after.1 == Some(
                CpuMark { total_time: (utime + stime) as u64, timestamp: now },
            )
        }),
{
}

/// A stat line that is missing or cannot be read changes nothing.
pub proof fn unreadable_line_changes_nothing(
    stats: SelfStats,
    mark: Option<CpuMark>,
    text: Seq<char>,
    now: u64,
)
    ensures
        self_measured(stats, mark, None, now) == (stats, mark),
        self_stat_read(text) is None ==> self_measured(stats, mark, Some(text), now) == (stats, mark),
{
}

/// A refresh with a tree shows its rows in the order that was chosen, takes its time down, leaves the
/// selection and clears the error.
pub proof fn refresh_shows_the_tree(
    v: AppView,
    now: u64,
    stat: Option<Seq<char>>,
    tree: CgroupView,
)
    ensures
        ({
            let w = v.refreshed(now, stat, Ok(tree));
            let measured = tree_measured(v.baseline, tree, now);
            &&& w.root == Some(measured.1)
            &&& w.baseline == measured.0
            &&& w.items == local_rows(measured.1, v.sort_column, v.sort_direction)
            &&& w.error is None
            &&& w.last_refresh == now
            &&& w.selected == v.selected
            &&& w.scroll == v.scroll
            &&& w.refresh_interval == v.refresh_interval
            &&& w.should_quit == v.should_quit
            &&& w.sort_column == v.sort_column
            &&& w.sort_direction == v.sort_direction
        }),
{
}

/// A refresh without a tree leaves the last one with its rows and rates, and says why.
pub proof fn failed_refresh_keeps_the_tree(
    v: AppView,
    now: u64,
    stat: Option<Seq<char>>,
    reason: Seq<char>,
)
    ensures
        ({
            let w = v.refreshed(now, stat, Err(reason));
            &&& w.root == v.root
            &&& w.baseline == v.baseline
            &&& w.items == v.items
            &&& w.error == Some("Failed to parse cgroup tree: "@ + reason)
            &&& w.last_refresh == v.last_refresh
            &&& w.selected == v.selected
            &&& w.scroll == v.scroll
            &&& w.should_quit == v.should_quit
            &&& w.sort_column == v.sort_column
            &&& w.sort_direction == v.sort_direction
        }),
{
}

/// Another order changes the rows, and nothing else.
pub proof fn other_order_changes_the_rows_only(
    v: AppView,
    column: SortColumn,
    direction: SortDirection,
)
    ensures
        ({
            let w = v.resorted(column, direction);
            &&& w.sort_column == column
            &&& w.sort_direction == direction
            &&& (v.root matches Some(root) ==> w.items == local_rows(root, column, direction))
            &&& v.root is None ==> w.items == v.items
            &&& w == (AppView {
                sort_column: column,
                sort_direction: direction,
                items: w.items,
                ..v
            })
        }),
{
}

}
