//! The rows of the trees of several machines.

use vstd::prelude::*;
use crate::cgroup::types::CgroupNode;
use crate::model::{lemma_views_push, views};
use crate::process::types::{Process, ProcessView};
use crate::rate::{rate_sum, rate_sum_with_zero, zero_rate, Rate};
use crate::rows::{
    below_cgroup, cgroup_key, cgroup_prefix_below, cgroup_prefix_own, child_rows, flat_cgroup,
    flat_process, flatten_children, key_of_cgroup, key_of_process, make_flat_cgroup,
    make_flat_process, own_prefix, process_key, show_metrics, shown_of, Look, LookView, Shown,
    TreeItem, TreeItemView,
};
use crate::slurm::merge::{
    lemma_merged_children, placed_all, placed_of, MergedCgroup, MergedView, Placed,
};
use crate::sort::{
    indices, is_permutation, key_views, sort_keys, sorted, Key, SortColumn, SortDirection,
};

verus! {

/// A number added to a sum that starts with the first.
pub open spec fn add_u64(total: Option<u64>, n: Option<u64>) -> Option<u64> {
    match (total, n) {
        (Some(t), Some(n)) => Some(t.wrapping_add(n)),
        (None, n) => n,
        (t, None) => t,
    }
}

pub open spec fn add_u32(total: Option<u32>, n: Option<u32>) -> Option<u32> {
    match (total, n) {
        (Some(t), Some(n)) => Some(t.wrapping_add(n)),
        (None, n) => n,
        (t, None) => t,
    }
}

/// The sums of the metrics of a cgroup over its machines.
pub open spec fn aggregated(list: Seq<Placed>) -> Shown
    decreases list.len(),
{
    if list.len() == 0 {
        Shown {
            cpu_percent: zero_rate(),
            memory_current: None,
            pids_current: None,
            io_read_rate: zero_rate(),
            io_write_rate: zero_rate(),
        }
    } else {
        let total = aggregated(list.drop_last());
        let m = list.last().cgroup.metrics;
        Shown {
            cpu_percent: rate_sum(total.cpu_percent, m.cpu_percent),
            memory_current: add_u64(total.memory_current, m.memory_current),
            pids_current: add_u32(total.pids_current, m.pids_current),
            io_read_rate: rate_sum(total.io_read_rate, m.io_read_rate),
            io_write_rate: rate_sum(total.io_write_rate, m.io_write_rate),
        }
    }
}

/// The sums of the metrics of a cgroup over its machines.
pub fn aggregate_metrics(node_data: &Vec<(String, CgroupNode)>) -> (r: Shown)
    ensures
        r == aggregated(placed_all(node_data@)),
{
    let ghost all = placed_all(node_data@);
    let zero = Rate { bits: 0 };
    let mut total = Shown {
        cpu_percent: zero,
        memory_current: None,
        pids_current: None,
        io_read_rate: zero,
        io_write_rate: zero,
    };
    let mut i: usize = 0;
    while i < node_data.len()
        invariant
            i <= node_data@.len(),
            all == placed_all(node_data@),
            total == aggregated(all.take(i as int)),
        decreases node_data@.len() - i,
    {
        proof {
            assert(all.take(i + 1).drop_last() =~= all.take(i as int));
            assert(all.take(i + 1).last() == placed_of(node_data@[i as int]));
        }
        let m = node_data[i].1.metrics;
        total.cpu_percent = total.cpu_percent.plus(m.cpu_percent);
        total.memory_current =
        match (total.memory_current, m.memory_current) {
            (Some(t), Some(n)) => Some(t.wrapping_add(n)),
            (None, n) => n,
            (t, None) => t,
        };
        total.pids_current =
        match (total.pids_current, m.pids_current) {
            (Some(t), Some(n)) => Some(t.wrapping_add(n)),
            (None, n) => n,
            (t, None) => t,
        };
        total.io_read_rate = total.io_read_rate.plus(m.io_read_rate);
        total.io_write_rate = total.io_write_rate.plus(m.io_write_rate);
        i += 1;
    }
    assert(all.take(all.len() as int) =~= all);
    total
}

/// A process on a machine.
pub struct Running {
    pub node: Seq<char>,
    pub process: ProcessView,
}

/// The processes of a cgroup on all its machines.
pub open spec fn running_on(list: Seq<Placed>) -> Seq<Running>
    decreases list.len(),
{
    if list.len() == 0 {
        seq![]
    } else {
        running_on(list.drop_last()) + running_in(list.last())
    }
}

/// The processes of a cgroup on one machine.
pub open spec fn running_in(e: Placed) -> Seq<Running> {
    e.cgroup.processes.map_values(|p: ProcessView| Running { node: e.node, process: p })
}

/// The rows of processes of several machines, without their trees.
pub open spec fn running_rows(
    list: Seq<Running>,
    column: SortColumn,
    direction: SortDirection,
    cgroup_prefix: Seq<char>,
) -> Seq<TreeItemView> {
    let order = sorted(
        list.map_values(|e: Running| process_key(e.process, column)),
        direction,
    );
    Seq::new(
        order.len(),
        |k: int|
            TreeItemView::Process {
                data: flat_process(list[order[k]].process, Some(list[order[k]].node)),
                is_last: k == order.len() - 1,
                cgroup_prefix,
                process_prefix: seq![],
            },
    )
}

/// The order of the children of a cgroup on several machines.
pub open spec fn merged_order(m: MergedView, column: SortColumn, direction: SortDirection) -> Seq<
    int,
> {
    sorted(
        m.children.map_values(|c: MergedView| cgroup_key(c.name, aggregated(c.node_data), column)),
        direction,
    )
}

/// The rows of a cgroup on the first `n` of its machines, each on its own.
pub open spec fn separate_rows(
    m: MergedView,
    n: nat,
    column: SortColumn,
    direction: SortDirection,
    depth: usize,
    is_last: bool,
    parent_prefix: Seq<char>,
) -> Seq<TreeItemView>
    decreases n,
{
    if n == 0 {
        seq![]
    } else {
        let e = m.node_data[n - 1];
        let node_is_last = n == m.node_data.len() && is_last;
        let row = TreeItemView::Cgroup {
            data: flat_cgroup(m.name, Some(e.node), shown_of(e.cgroup.metrics)),
            depth,
            is_last: node_is_last,
            prefix: own_prefix(depth, parent_prefix),
        };
        let prefix = below_cgroup(depth, node_is_last, parent_prefix);
        let look = LookView { node: Some(e.node), column, direction };
        separate_rows(m, (n - 1) as nat, column, direction, depth, is_last, parent_prefix)
            + (seq![row] + child_rows(
            e.cgroup,
            e.cgroup.children.len(),
            look,
            depth.saturating_add(1),
            prefix,
        ) + running_rows(running_in(e), column, direction, prefix))
    }
}

/// The rows of a cgroup on its machines: together where all machines have it or only one, else
/// one after the other.
pub open spec fn merged_rows(
    m: MergedView,
    column: SortColumn,
    direction: SortDirection,
    depth: usize,
    is_last: bool,
    parent_prefix: Seq<char>,
) -> Seq<TreeItemView>
    decreases m, m.children.len() + 1,
{
    if m.node_data.len() == 0 {
        seq![]
    } else if m.is_shared || m.node_data.len() == 1 {
        let node = if m.node_data.len() == 1 { Some(m.node_data[0].node) } else { None };
        let row = TreeItemView::Cgroup {
            data: flat_cgroup(m.name, node, aggregated(m.node_data)),
            depth,
            is_last,
            prefix: own_prefix(depth, parent_prefix),
        };
        let prefix = below_cgroup(depth, is_last, parent_prefix);
        seq![row] + merged_child_rows(
            m,
            m.children.len(),
            column,
            direction,
            depth.saturating_add(1),
            prefix,
        ) + running_rows(running_on(m.node_data), column, direction, prefix)
    } else {
        separate_rows(
            m,
            m.node_data.len(),
            column,
            direction,
            depth,
            is_last,
            parent_prefix,
        )
    }
}

/// The rows of the first `n` children of a cgroup in their order.
pub open spec fn merged_child_rows(
    m: MergedView,
    n: nat,
    column: SortColumn,
    direction: SortDirection,
    depth: usize,
    prefix: Seq<char>,
) -> Seq<TreeItemView>
    decreases m, n,
{
    let order = merged_order(m, column, direction);
    if n == 0 || n > m.children.len() || !(0 <= order[n - 1] < m.children.len()) {
        seq![]
    } else {
        merged_child_rows(m, (n - 1) as nat, column, direction, depth, prefix) + merged_rows(
            m.children[order[n - 1]],
            column,
            direction,
            depth,
            n == m.children.len() && running_on(m.node_data).len() == 0,
            prefix,
        )
    }
}

pub open spec fn running_all(list: Seq<(String, &Process)>) -> Seq<Running> {
    list.map_values(|e: (String, &Process)| Running { node: e.0@, process: e.1@ })
}

/// Adds the processes of a cgroup on one machine.
fn push_running<'a>(node: &str, cgroup: &'a CgroupNode, out: &mut Vec<(String, &'a Process)>)
    ensures
        running_all(final(out)@) == running_all(old(out)@) + running_in(
            Placed { node: node@, cgroup: cgroup@ },
        ),
{
    let ghost start = running_all(out@);
    let ghost more = running_in(Placed { node: node@, cgroup: cgroup@ });
    let mut i: usize = 0;
    assert(start + more.take(0) =~= start);
    assert(more.len() == cgroup.processes@.len());
    while i < cgroup.processes.len()
        invariant
            i <= cgroup.processes@.len(),
            more == running_in(Placed { node: node@, cgroup: cgroup@ }),
            more.len() == cgroup.processes@.len(),
            running_all(out@) == start + more.take(i as int),
        decreases cgroup.processes@.len() - i,
    {
        let entry = (node.to_string(), &cgroup.processes[i]);
        let ghost before = out@;
        out.push(entry);
        proof {
            assert(cgroup@.processes[i as int] == cgroup.processes@[i as int]@);
            assert(more[i as int] == (Running { node: node@, process: entry.1@ }));
            assert(running_all(out@) =~= running_all(before).push(more[i as int]));
            assert(more.take(i + 1) =~= more.take(i as int).push(more[i as int]));
            assert((start + more.take(i as int)).push(more[i as int]) =~= start + more.take(i + 1));
        }
        i += 1;
    }
    assert(more.take(more.len() as int) =~= more);
}

/// The processes of a cgroup on all its machines.
fn collect_running<'a>(node_data: &'a Vec<(String, CgroupNode)>) -> (r: Vec<(String, &'a Process)>)
    ensures
        running_all(r@) == running_on(placed_all(node_data@)),
{
    let ghost all = placed_all(node_data@);
    let mut out: Vec<(String, &'a Process)> = Vec::new();
    let mut i: usize = 0;
    assert(running_all(out@) =~= running_on(all.take(0)));
    while i < node_data.len()
        invariant
            i <= node_data@.len(),
            all == placed_all(node_data@),
            running_all(out@) == running_on(all.take(i as int)),
        decreases node_data@.len() - i,
    {
        proof {
            assert(all.take(i + 1).drop_last() =~= all.take(i as int));
            assert(all.take(i + 1).last() == placed_of(node_data@[i as int]));
        }
        push_running(node_data[i].0.as_str(), &node_data[i].1, &mut out);
        i += 1;
    }
    assert(all.take(all.len() as int) =~= all);
    out
}

/// Adds the rows of processes of several machines.
fn flatten_processes_merged(
    processes: &Vec<(String, &Process)>,
    column: SortColumn,
    direction: SortDirection,
    cgroup_prefix: &str,
    items: &mut Vec<TreeItem>,
)
    ensures
        views(final(items)@) == views(old(items)@) + running_rows(
            running_all(processes@),
            column,
            direction,
            cgroup_prefix@,
        ),
{
    let ghost start = views(items@);
    let ghost all = running_all(processes@);
    let mut keys: Vec<Key> = Vec::new();
    let mut i: usize = 0;
    while i < processes.len()
        invariant
            i <= processes@.len(),
            all == running_all(processes@),
            keys@.len() == i,
            forall|j: int|
                0 <= j < i ==> (#[trigger] keys@[j])@ == process_key(all[j].process, column),
        decreases processes@.len() - i,
    {
        keys.push(key_of_process(processes[i].1, column));
        i += 1;
    }
    assert(key_views(keys@) =~= all.map_values(|e: Running| process_key(e.process, column)));
    let order = sort_keys(&keys, direction);
    let ghost rows = running_rows(all, column, direction, cgroup_prefix@);
    let mut k: usize = 0;
    assert(start + rows.take(0) =~= start);
    assert(rows.len() == order@.len()) by {
        assert(indices(order@).len() == order@.len());
    }
    while k < order.len()
        invariant
            k <= order@.len(),
            all == running_all(processes@),
            rows == running_rows(all, column, direction, cgroup_prefix@),
            rows.len() == order@.len(),
            indices(order@) == sorted(
                all.map_values(|e: Running| process_key(e.process, column)),
                direction,
            ),
            is_permutation(indices(order@), processes@.len()),
            views(items@) == start + rows.take(k as int),
        decreases order@.len() - k,
    {
        assert(0 <= indices(order@)[k as int] < processes@.len());
        let entry = &processes[order[k]];
        let node = Some(entry.0.clone());
        let row = TreeItem::Process {
            data: make_flat_process(entry.1, &node),
            is_last: k + 1 == order.len(),
            cgroup_prefix: cgroup_prefix.to_string(),
            process_prefix: String::new(),
        };
        proof {
            lemma_views_push(items@, row);
            assert(all[order@[k as int] as int] == (Running { node: entry.0@, process: entry.1@ }));
            assert(row@->process_prefix =~= seq![]);
            assert(row@ == rows[k as int]);
            assert(rows.take(k + 1) =~= rows.take(k as int).push(rows[k as int]));
            assert((start + rows.take(k as int)).push(rows[k as int]) =~= start + rows.take(k + 1));
        }
        items.push(row);
        k += 1;
    }
    assert(rows.take(rows.len() as int) =~= rows);
}

/// The order of the children of a cgroup on several machines.
fn sort_merged_cgroups(merged: &MergedCgroup, column: SortColumn, direction: SortDirection) -> (r:
    Vec<usize>)
    ensures
        indices(r@) == merged_order(merged@, column, direction),
        r@.len() == merged.children@.len(),
        forall|k: int| 0 <= k < r@.len() ==> (#[trigger] r@[k]) < merged.children@.len(),
{
    proof {
        lemma_merged_children(*merged);
    }
    let mut keys: Vec<Key> = Vec::new();
    let mut i: usize = 0;
    while i < merged.children.len()
        invariant
            i <= merged.children@.len(),
            merged@.children.len() == merged.children@.len(),
            forall|j: int|
                0 <= j < merged.children@.len() ==> #[trigger] merged.children@[j]@
                    == merged@.children[j],
            keys@.len() == i,
            forall|j: int|
                0 <= j < i ==> (#[trigger] keys@[j])@ == cgroup_key(
                    merged@.children[j].name,
                    aggregated(merged@.children[j].node_data),
                    column,
                ),
        decreases merged.children@.len() - i,
    {
        let child = &merged.children[i];
        assert(child@ == merged@.children[i as int]);
        let shown = aggregate_metrics(&child.node_data);
        keys.push(key_of_cgroup(child.name.as_str(), &shown, column));
        i += 1;
    }
    assert(key_views(keys@) =~= merged@.children.map_values(
        |c: MergedView| cgroup_key(c.name, aggregated(c.node_data), column),
    ));
    let order = sort_keys(&keys, direction);
    assert forall|k: int| 0 <= k < order@.len() implies (#[trigger] order@[k])
        < merged.children@.len() by {
        assert(indices(order@)[k] == order@[k]);
    }
    order
}

/// Adds the rows of a cgroup on each of its machines on its own.
fn flatten_separately(
    merged: &MergedCgroup,
    column: SortColumn,
    direction: SortDirection,
    depth: usize,
    is_last: bool,
    parent_prefix: &str,
    items: &mut Vec<TreeItem>,
)
    ensures
        views(final(items)@) == views(old(items)@) + separate_rows(
            merged@,
            merged@.node_data.len(),
            column,
            direction,
            depth,
            is_last,
            parent_prefix@,
        ),
{
    let ghost start = views(items@);
    let ghost m = merged@;
    let count: usize = merged.node_data.len();
    let mut n: usize = 0;
    assert(start + separate_rows(m, 0, column, direction, depth, is_last, parent_prefix@)
        =~= start);
    while n < count
        invariant
            n <= count,
            m == merged@,
            count == merged.node_data@.len(),
            m.node_data.len() == count,
            m.node_data == placed_all(merged.node_data@),
            views(items@) == start + separate_rows(
                m,
                n as nat,
                column,
                direction,
                depth,
                is_last,
                parent_prefix@,
            ),
        decreases count - n,
    {
        let ghost before = views(items@);
        let node_name = &merged.node_data[n].0;
        let cgroup = &merged.node_data[n].1;
        let ghost e = m.node_data[n as int];
        assert(e == (Placed { node: node_name@, cgroup: cgroup@ }));
        let node_is_last = n + 1 == count && is_last;
        let look = Look { node: Some(node_name.clone()), column, direction };
        let shown = show_metrics(&cgroup.metrics);
        let row = TreeItem::Cgroup {
            data: make_flat_cgroup(merged.name.clone(), &look.node, &shown),
            depth,
            is_last: node_is_last,
            prefix: cgroup_prefix_own(depth, parent_prefix),
        };
        proof {
            lemma_views_push(items@, row);
        }
        let ghost head = row@;
        items.push(row);
        let prefix = cgroup_prefix_below(depth, node_is_last, parent_prefix);
        let next: usize = depth.saturating_add(1);
        flatten_children(cgroup, &look, next, prefix.as_str(), items);
        let mut running: Vec<(String, &Process)> = Vec::new();
        assert(running_all(running@) =~= seq![]);
        push_running(node_name.as_str(), cgroup, &mut running);
        assert(running_all(running@) =~= running_in(e));
        flatten_processes_merged(&running, column, direction, prefix.as_str(), items);
        proof {
            let inner = child_rows(e.cgroup, e.cgroup.children.len(), look@, next, prefix@);
            let last = running_rows(running_in(e), column, direction, prefix@);
            let done = separate_rows(
                m,
                n as nat,
                column,
                direction,
                depth,
                is_last,
                parent_prefix@,
            );
            assert(((start + done).push(head) + inner) + last =~= start + (done + (seq![head]
                + inner + last)));
        }
        n += 1;
    }
}

/// Adds the rows of a cgroup on its machines.
pub fn flatten_merged_tree(
    merged: &MergedCgroup,
    column: SortColumn,
    direction: SortDirection,
    depth: usize,
    is_last: bool,
    parent_prefix: &str,
    items: &mut Vec<TreeItem>,
)
    ensures
        views(final(items)@) == views(old(items)@) + merged_rows(
            merged@,
            column,
            direction,
            depth,
            is_last,
            parent_prefix@,
        ),
    decreases merged,
{
    let ghost start = views(items@);
    let ghost m = merged@;
    proof {
        lemma_merged_children(*merged);
        assert(m.node_data.len() == merged.node_data@.len());
    }
    if merged.node_data.len() == 0 {
        assert(start + Seq::<TreeItemView>::empty() =~= start);
        return;
    }
    if !merged.is_shared && merged.node_data.len() != 1 {
        flatten_separately(merged, column, direction, depth, is_last, parent_prefix, items);
        return;
    }
    let node = if merged.node_data.len() == 1 {
        Some(merged.node_data[0].0.clone())
    } else {
        None
    };
    let shown = aggregate_metrics(&merged.node_data);
    let row = TreeItem::Cgroup {
        data: make_flat_cgroup(merged.name.clone(), &node, &shown),
        depth,
        is_last,
        prefix: cgroup_prefix_own(depth, parent_prefix),
    };
    proof {
        lemma_views_push(items@, row);
    }
    let ghost head = row@;
    items.push(row);
    let prefix = cgroup_prefix_below(depth, is_last, parent_prefix);
    let order = sort_merged_cgroups(merged, column, direction);
    let all_processes = collect_running(&merged.node_data);
    assert(running_all(all_processes@).len() == all_processes@.len());
    let next: usize = depth.saturating_add(1);
    let mut n: usize = 0;
    assert(start.push(head) + merged_child_rows(m, 0, column, direction, next, prefix@)
        =~= start.push(head));
    while n < order.len()
        invariant
            n <= order@.len(),
            m == merged@,
            m.children.len() == merged.children@.len(),
            forall|j: int|
                0 <= j < merged.children@.len() ==> #[trigger] merged.children@[j]@ == m.children[j],
            order@.len() == merged.children@.len(),
            indices(order@) == merged_order(m, column, direction),
            forall|k: int| 0 <= k < order@.len() ==> (#[trigger] order@[k]) < merged.children@.len(),
            running_on(m.node_data).len() == all_processes@.len(),
            views(items@) == start.push(head) + merged_child_rows(
                m,
                n as nat,
                column,
                direction,
                next,
                prefix@,
            ),
        decreases order@.len() - n,
    {
        assert(order@[n as int] < merged.children@.len());
        assert(indices(order@)[n as int] == order@[n as int]);
        let child = &merged.children[order[n]];
        assert(child@ == m.children[merged_order(m, column, direction)[n as int]]);
        let child_is_last = n + 1 == order.len() && all_processes.len() == 0;
        flatten_merged_tree(child, column, direction, next, child_is_last, prefix.as_str(), items);
        proof {
            let done = merged_child_rows(m, n as nat, column, direction, next, prefix@);
            let one = merged_rows(child@, column, direction, next, child_is_last, prefix@);
            assert((start.push(head) + done) + one =~= start.push(head) + (done + one));
        }
        n += 1;
    }
    flatten_processes_merged(&all_processes, column, direction, prefix.as_str(), items);
    proof {
        let inner = merged_child_rows(m, m.children.len(), column, direction, next, prefix@);
        let last = running_rows(running_on(m.node_data), column, direction, prefix@);
        assert((start.push(head) + inner) + last =~= start + (seq![head] + inner + last));
    }
}

/// A cgroup on one machine only is shown with its own metrics.
pub proof fn single_machine_shows_its_metrics(e: Placed)
    ensures
        ({
            let m = e.cgroup.metrics;
            let shown = aggregated(seq![e]);
            &&& shown.memory_current == m.memory_current
            &&& shown.pids_current == m.pids_current
            &&& !m.cpu_percent.pending() ==> shown.cpu_percent == m.cpu_percent
            &&& !m.io_read_rate.pending() ==> shown.io_read_rate == m.io_read_rate
            &&& !m.io_write_rate.pending() ==> shown.io_write_rate == m.io_write_rate
            &&& m.cpu_percent.pending() ==> shown.cpu_percent.pending()
            &&& m.io_read_rate.pending() ==> shown.io_read_rate.pending()
            &&& m.io_write_rate.pending() ==> shown.io_write_rate.pending()
        }),
{
    let m = e.cgroup.metrics;
    assert(seq![e].drop_last() =~= seq![]);
    reveal_with_fuel(aggregated, 2);
    rate_sum_with_zero(m.cpu_percent);
    rate_sum_with_zero(m.io_read_rate);
    rate_sum_with_zero(m.io_write_rate);
}

}
