//! What the rows of a job say, field by field, and how their values are ordered.

use vstd::prelude::*;
use crate::process::types::ProcessView;
use crate::rate::rate_sum;
use crate::row_fields::{
    has_process, in_column_order, is_known, is_known_metric, is_of_tree,
    lemma_cgroup_keys_to_fields, lemma_child_rows_say, lemma_keys_to_fields,
    lemma_known_cgroup_keys, lemma_known_keys, metrics_in_order, says, says_metrics,
};
use crate::rows::{
    below_cgroup, child_rows, FlatCgroupView, LookView, Shown, TreeItemView,
};
use crate::shape_laws::indent;
use crate::slurm::coordinator::CoordinatorView;
use crate::slurm::flatten::{
    aggregated, merged_child_rows, merged_order, merged_rows, running_in, running_on, running_rows,
    separate_rows, Running,
};
use crate::slurm::merge::{
    children_of, merged_children, merged_trees, merging_goes_all_the_way_down, named, names_of,
    MergedView, Placed,
};
use crate::slurm::shown::{merged_keys, running_keys};
use crate::sort::{
    comparable_is_consistent, precedes, sorted, sorted_is_in_order, sorted_is_permutation,
    SortColumn, SortDirection,
};

verus! {

/// With one more machine the shown metrics of a cgroup are those of the others plus those of that
/// machine: rates are added in single precision, memory and tasks as integers. What a machine does
/// not know it does not add to a count, but a rate that is not known makes the sum unknown.
pub proof fn one_more_machine_adds_its_metrics(list: Seq<Placed>, e: Placed)
    ensures
        ({
            let before = aggregated(list);
            let after = aggregated(list.push(e));
            let m = e.cgroup.metrics;
            &&& after.cpu_percent == rate_sum(before.cpu_percent, m.cpu_percent)
            &&& after.io_read_rate == rate_sum(before.io_read_rate, m.io_read_rate)
            &&& after.io_write_rate == rate_sum(before.io_write_rate, m.io_write_rate)
            &&& m.memory_current is None ==> after.memory_current == before.memory_current
            &&& before.memory_current is None ==> after.memory_current == m.memory_current
            &&& (before.memory_current matches Some(a) ==> m.memory_current matches Some(b) ==> a + b
                <= u64::MAX ==> after.memory_current == Some((a + b) as u64))
            &&& m.pids_current is None ==> after.pids_current == before.pids_current
            &&& before.pids_current is None ==> after.pids_current == m.pids_current
            &&& (before.pids_current matches Some(a) ==> m.pids_current matches Some(b) ==> a + b
                <= u32::MAX ==> after.pids_current == Some((a + b) as u32))
        }),
{
    assert(list.push(e).drop_last() =~= list);
}

/// Of two machines whose rates are known, the sums in single precision are shown.
pub proof fn two_machines_show_their_sums(a: Placed, b: Placed)
    requires
        !a.cgroup.metrics.cpu_percent.pending(),
        !a.cgroup.metrics.io_read_rate.pending(),
        !a.cgroup.metrics.io_write_rate.pending(),
    ensures
        ({
            let shown = aggregated(seq![a, b]);
            let (x, y) = (a.cgroup.metrics, b.cgroup.metrics);
            &&& shown.cpu_percent == rate_sum(x.cpu_percent, y.cpu_percent)
            &&& shown.io_read_rate == rate_sum(x.io_read_rate, y.io_read_rate)
            &&& shown.io_write_rate == rate_sum(x.io_write_rate, y.io_write_rate)
            &&& (x.memory_current matches Some(m) ==> y.memory_current matches Some(n) ==> m + n
                <= u64::MAX ==> shown.memory_current == Some((m + n) as u64))
            &&& (x.pids_current matches Some(m) ==> y.pids_current matches Some(n) ==> m + n
                <= u32::MAX ==> shown.pids_current == Some((m + n) as u32))
        }),
{
    crate::slurm::flatten::single_machine_shows_its_metrics(a);
    one_more_machine_adds_its_metrics(seq![a], b);
    assert(seq![a].push(b) =~= seq![a, b]);
}

/// The row says of a cgroup on several machines what its metrics are in all.
pub open spec fn says_sums(data: FlatCgroupView, m: Shown) -> bool {
    &&& data.cpu_percent == m.cpu_percent
    &&& data.memory_current == m.memory_current
    &&& data.pids_current == m.pids_current
    &&& data.io_read_rate == m.io_read_rate
    &&& data.io_write_rate == m.io_write_rate
}

/// The rows of a cgroup that is shown for all its machines together start with its own, under its
/// name, with the sums over the machines; it names the machine where there is only one.
pub proof fn shared_cgroup_shows_the_sums(
    m: MergedView,
    column: SortColumn,
    direction: SortDirection,
    depth: usize,
    is_last: bool,
    parent_prefix: Seq<char>,
)
    requires
        m.node_data.len() > 0,
        m.is_shared || m.node_data.len() == 1,
    ensures
        ({
            let rows = merged_rows(m, column, direction, depth, is_last, parent_prefix);
            &&& rows.len() > 0
            &&& rows[0] matches TreeItemView::Cgroup { data, depth: level, is_last: last, prefix }
                && data.name == m.name && says_sums(data, aggregated(m.node_data)) && level == depth
                && last == is_last && prefix == (if depth == 0 {
                seq![]
            } else {
                parent_prefix
            }) && data.node == (if m.node_data.len() == 1 {
                Some(m.node_data[0].node)
            } else {
                None
            })
        }),
{
}

/// Where the rows of a machine start.
pub open spec fn machine_start(
    m: MergedView,
    k: int,
    column: SortColumn,
    direction: SortDirection,
    depth: usize,
    is_last: bool,
    parent_prefix: Seq<char>,
) -> int {
    separate_rows(m, k as nat, column, direction, depth, is_last, parent_prefix).len() as int
}

/// The rows of a cgroup that is shown for each machine on its own have one for each, which names the
/// machine and says what the metrics are there.
pub proof fn separate_cgroup_shows_each_machine(
    m: MergedView,
    n: nat,
    k: int,
    column: SortColumn,
    direction: SortDirection,
    depth: usize,
    is_last: bool,
    parent_prefix: Seq<char>,
)
    requires
        0 <= k < n <= m.node_data.len(),
    ensures
        ({
            let rows = separate_rows(m, n, column, direction, depth, is_last, parent_prefix);
            let at = machine_start(m, k, column, direction, depth, is_last, parent_prefix);
            let e = m.node_data[k];
            &&& 0 <= at < rows.len()
            &&& rows[at] matches TreeItemView::Cgroup { data, depth: level, is_last: last, prefix }
                && data.name == m.name && says_metrics(data, e.cgroup) && data.node == Some(e.node)
                && level == depth && last == (k == m.node_data.len() - 1 && is_last) && prefix == (
            if depth == 0 {
                seq![]
            } else {
                parent_prefix
            })
        }),
    decreases n,
{
    let before = separate_rows(m, (n - 1) as nat, column, direction, depth, is_last, parent_prefix);
    let rows = separate_rows(m, n, column, direction, depth, is_last, parent_prefix);
    let at = machine_start(m, k, column, direction, depth, is_last, parent_prefix);
    if k < n - 1 {
        separate_cgroup_shows_each_machine(
            m,
            (n - 1) as nat,
            k,
            column,
            direction,
            depth,
            is_last,
            parent_prefix,
        );
        assert(rows[at] == before[at]);
    }
}

/// The rows of processes on several machines say what is known of them, field by field, and name the
/// machine; each process of the list has its row.
pub proof fn running_rows_say_what_is_known(
    list: Seq<Running>,
    column: SortColumn,
    direction: SortDirection,
    prefix: Seq<char>,
)
    ensures
        ({
            let rows = running_rows(list, column, direction, prefix);
            &&& rows.len() == list.len()
            &&& forall|k: int| 0 <= k < rows.len() ==> is_of_running(#[trigger] rows[k], list)
            &&& forall|i: int|
                0 <= i < list.len() ==> exists|k: int|
                    0 <= k < rows.len() && is_row_of_running(#[trigger] rows[k], #[trigger] list[i])
            &&& forall|k: int|
                0 <= k < rows.len() ==> (#[trigger] rows[k])->Process_is_last == (k == rows.len()
                    - 1) && rows[k]->Process_cgroup_prefix == prefix && rows[k]->Process_process_prefix
                    == Seq::<char>::empty()
        }),
{
    let keys = running_keys(list, column);
    let order = sorted(keys, direction);
    let rows = running_rows(list, column, direction, prefix);
    sorted_is_permutation(keys, direction);
    assert forall|k: int| 0 <= k < rows.len() implies is_of_running(#[trigger] rows[k], list) by {
        assert(0 <= order[k] < list.len());
        assert(is_row_of_running(rows[k], list[order[k]]));
    }
    assert forall|i: int| 0 <= i < list.len() implies exists|k: int|
        0 <= k < rows.len() && is_row_of_running(#[trigger] rows[k], #[trigger] list[i]) by {
        crate::sort::sorted_has_every_row(keys, direction, i);
        let k = choose|k: int| 0 <= k < order.len() && order[k] == i;
        assert(is_row_of_running(rows[k], list[i]));
    }
}

/// The row says what is known of a process on a machine.
pub open spec fn is_row_of_running(row: TreeItemView, e: Running) -> bool {
    match row {
        TreeItemView::Process { data, .. } => data.node == Some(e.node) && says(data, e.process),
        TreeItemView::Cgroup { .. } => false,
    }
}

/// The row says what is known of some process of a list.
pub open spec fn is_of_running(row: TreeItemView, list: Seq<Running>) -> bool {
    exists|i: int| 0 <= i < list.len() && is_row_of_running(row, #[trigger] list[i])
}

/// The rows of processes on several machines stand in the order of the column: what the upper one
/// shows in it is not behind what the lower one shows. Every value in the column is known.
pub proof fn running_rows_show_values_in_order(
    list: Seq<Running>,
    column: SortColumn,
    direction: SortDirection,
    prefix: Seq<char>,
    i: int,
    j: int,
)
    requires
        0 <= i < j < list.len(),
        forall|k: int| 0 <= k < list.len() ==> is_known((#[trigger] list[k]).process, column),
    ensures
        ({
            let rows = running_rows(list, column, direction, prefix);
            &&& rows.len() == list.len()
            &&& rows[i] is Process
            &&& rows[j] is Process
            &&& in_column_order(rows[i]->Process_data, rows[j]->Process_data, column, direction)
        }),
{
    let keys = running_keys(list, column);
    let order = sorted(keys, direction);
    let rows = running_rows(list, column, direction, prefix);
    let processes = list.map_values(|e: Running| e.process);
    assert forall|k: int| 0 <= k < processes.len() implies is_known(
        #[trigger] processes[k],
        column,
    ) by {
        assert(is_known(list[k].process, column));
    }
    lemma_known_keys(keys, processes, column);
    comparable_is_consistent(keys, direction);
    sorted_is_in_order(keys, direction);
    sorted_is_permutation(keys, direction);
    assert(0 <= order[i] < list.len() && 0 <= order[j] < list.len());
    assert(!precedes(keys[order[j]], keys[order[i]], direction));
    let p = list[order[i]].process;
    let q = list[order[j]].process;
    assert(is_known(p, column) && is_known(q, column));
    lemma_keys_to_fields(p, q, rows[i]->Process_data, rows[j]->Process_data, column, direction);
}

/// What a cgroup shows on several machines, as far as it is sorted by it.
pub open spec fn sums_shown(m: MergedView) -> FlatCgroupView {
    FlatCgroupView {
        name: m.name,
        node: None,
        cpu_percent: aggregated(m.node_data).cpu_percent,
        memory_current: aggregated(m.node_data).memory_current,
        pids_current: aggregated(m.node_data).pids_current,
        io_read_rate: aggregated(m.node_data).io_read_rate,
        io_write_rate: aggregated(m.node_data).io_write_rate,
    }
}

/// The rates of a cgroup on several machines that are shown in a column are known.
pub open spec fn sums_are_known(m: MergedView, column: SortColumn) -> bool {
    is_known_metric(
        aggregated(m.node_data).cpu_percent,
        aggregated(m.node_data).io_read_rate,
        aggregated(m.node_data).io_write_rate,
        column,
    )
}

/// The children of a cgroup on several machines are shown in the order of the column by their sums.
pub proof fn merged_children_show_sums_in_order(
    m: MergedView,
    column: SortColumn,
    direction: SortDirection,
    i: int,
    j: int,
)
    requires
        0 <= i < j < m.children.len(),
        forall|k: int| 0 <= k < m.children.len() ==> sums_are_known(#[trigger] m.children[k], column),
    ensures
        ({
            let order = merged_order(m, column, direction);
            &&& 0 <= order[i] < m.children.len()
            &&& 0 <= order[j] < m.children.len()
            &&& order[i] != order[j]
            &&& metrics_in_order(
                sums_shown(m.children[order[i]]),
                sums_shown(m.children[order[j]]),
                column,
                direction,
            )
        }),
{
    let keys = merged_keys(m, column);
    let order = merged_order(m, column, direction);
    assert(order == sorted(keys, direction));
    sorted_is_permutation(keys, direction);
    let names = m.children.map_values(|c: MergedView| c.name);
    let list = m.children.map_values(|c: MergedView| aggregated(c.node_data));
    assert forall|k: int| 0 <= k < list.len() implies is_known_metric(
        (#[trigger] list[k]).cpu_percent,
        list[k].io_read_rate,
        list[k].io_write_rate,
        column,
    ) by {
        assert(sums_are_known(m.children[k], column));
    }
    lemma_known_cgroup_keys(keys, names, list, column);
    comparable_is_consistent(keys, direction);
    sorted_is_in_order(keys, direction);
    assert(!precedes(keys[order[j]], keys[order[i]], direction));
    assert(sums_are_known(m.children[order[i]], column));
    assert(sums_are_known(m.children[order[j]], column));
    lemma_cgroup_keys_to_fields(
        list[order[i]],
        list[order[j]],
        sums_shown(m.children[order[i]]),
        sums_shown(m.children[order[j]]),
        column,
        direction,
    );
}

/// The row is what the view of a job may hold: the values of a process of the tree of the machine that
/// it names; or the metrics of a cgroup of that tree; or, without a machine, sums.
pub open spec fn is_of_job(row: TreeItemView, list: Seq<Placed>) -> bool {
    match row {
        TreeItemView::Process { data, .. } => exists|k: int, p: ProcessView|
            0 <= k < list.len() && data.node == Some(list[k].node) && #[trigger] has_process(
                list[k].cgroup,
                p,
            ) && says(data, p),
        TreeItemView::Cgroup { data, .. } => data.node is None || exists|k: int|
            0 <= k < list.len() && data.node == Some((#[trigger] list[k]).node),
    }
}

proof fn lemma_children_of_from(list: Seq<Placed>, k: int) -> (at: (int, int))
    requires
        0 <= k < children_of(list).len(),
    ensures
        0 <= at.0 < list.len(),
        0 <= at.1 < list[at.0].cgroup.children.len(),
        children_of(list)[k].node == list[at.0].node,
        children_of(list)[k].cgroup == list[at.0].cgroup.children[at.1],
    decreases list.len(),
{
    let front = list.drop_last();
    let before = children_of(front);
    if k < before.len() {
        let at = lemma_children_of_from(front, k);
        assert(children_of(list)[k] == before[k]);
        at
    } else {
        (list.len() - 1, k - before.len())
    }
}

/// A row of some cgroups among the children of others is one of those.
proof fn lemma_row_of_group(row: TreeItemView, list: Seq<Placed>, group: Seq<Placed>)
    requires
        is_of_job(row, group),
        forall|k: int| 0 <= k < group.len() ==> children_of(list).contains(#[trigger] group[k]),
    ensures
        is_of_job(row, list),
{
    match row {
        TreeItemView::Process { data, .. } => {
            let (k, p) = choose|k: int, p: ProcessView|
                0 <= k < group.len() && data.node == Some(group[k].node) && #[trigger] has_process(
                    group[k].cgroup,
                    p,
                ) && says(data, p);
            let e = group[k];
            assert(children_of(list).contains(e));
            let m = choose|m: int| 0 <= m < children_of(list).len() && children_of(list)[m] == e;
            let (a, b) = lemma_children_of_from(list, m);
            assert(has_process(list[a].cgroup.children[b], p));
            assert(has_process(list[a].cgroup, p));
        },
        TreeItemView::Cgroup { data, .. } => {
            if data.node is Some {
                let k = choose|k: int|
                    0 <= k < group.len() && data.node == Some((#[trigger] group[k]).node);
                let e = group[k];
                assert(children_of(list).contains(e));
                let m = choose|m: int| 0 <= m < children_of(list).len() && children_of(list)[m] == e;
                let (a, b) = lemma_children_of_from(list, m);
                assert(data.node == Some(list[a].node));
            }
        },
    }
}

proof fn lemma_running_of_job(list: Seq<Placed>, n: nat)
    requires
        n <= list.len(),
    ensures
        forall|i: int|
            0 <= i < running_on(list.take(n as int)).len() ==> exists|k: int|
                0 <= k < n && list[k].node == (#[trigger] running_on(list.take(n as int))[i]).node
                    && list[k].cgroup.processes.contains(
                    running_on(list.take(n as int))[i].process,
                ),
    decreases n,
{
    if n > 0 {
        lemma_running_of_job(list, (n - 1) as nat);
        let part = list.take(n as int);
        let all = running_on(part);
        let before = running_on(list.take(n - 1));
        assert(part.drop_last() =~= list.take(n - 1));
        assert forall|i: int| 0 <= i < all.len() implies exists|k: int|
            0 <= k < n && list[k].node == (#[trigger] all[i]).node
                && list[k].cgroup.processes.contains(all[i].process) by {
            if i < before.len() {
                assert(all[i] == before[i]);
                let k = choose|k: int|
                    0 <= k < n - 1 && list[k].node == before[i].node
                        && list[k].cgroup.processes.contains(before[i].process);
                assert(list[k].node == all[i].node);
            } else {
                let e = list[n - 1];
                assert(all[i] == running_in(e)[i - before.len()]);
                assert(e.cgroup.processes[i - before.len()] == all[i].process);
                assert(list[n - 1].cgroup.processes.contains(all[i].process));
            }
        }
    }
}

/// The rows of processes of some cgroups say what is known of them.
proof fn lemma_running_rows_of_job(
    list: Seq<Placed>,
    running: Seq<Running>,
    column: SortColumn,
    direction: SortDirection,
    prefix: Seq<char>,
)
    requires
        forall|i: int|
            0 <= i < running.len() ==> exists|k: int|
                0 <= k < list.len() && list[k].node == (#[trigger] running[i]).node
                    && list[k].cgroup.processes.contains(running[i].process),
    ensures
        ({
            let rows = running_rows(running, column, direction, prefix);
            forall|k: int| 0 <= k < rows.len() ==> is_of_job(#[trigger] rows[k], list)
        }),
{
    let rows = running_rows(running, column, direction, prefix);
    running_rows_say_what_is_known(running, column, direction, prefix);
    assert forall|k: int| 0 <= k < rows.len() implies is_of_job(#[trigger] rows[k], list) by {
        assert(is_of_running(rows[k], running));
        let i = choose|i: int|
            0 <= i < running.len() && is_row_of_running(rows[k], #[trigger] running[i]);
        let p = running[i].process;
        let m = choose|m: int|
            0 <= m < list.len() && list[m].node == running[i].node
                && list[m].cgroup.processes.contains(p);
        assert(has_process(list[m].cgroup, p));
    }
}

proof fn lemma_separate_of_job(
    m: MergedView,
    n: nat,
    column: SortColumn,
    direction: SortDirection,
    depth: usize,
    is_last: bool,
    parent_prefix: Seq<char>,
)
    requires
        n <= m.node_data.len(),
    ensures
        ({
            let rows = separate_rows(m, n, column, direction, depth, is_last, parent_prefix);
            forall|k: int| 0 <= k < rows.len() ==> is_of_job(#[trigger] rows[k], m.node_data)
        }),
    decreases n,
{
    if n > 0 {
        lemma_separate_of_job(
            m,
            (n - 1) as nat,
            column,
            direction,
            depth,
            is_last,
            parent_prefix,
        );
        let rows = separate_rows(m, n, column, direction, depth, is_last, parent_prefix);
        let before = separate_rows(
            m,
            (n - 1) as nat,
            column,
            direction,
            depth,
            is_last,
            parent_prefix,
        );
        let e = m.node_data[n - 1];
        let node_is_last = n == m.node_data.len() && is_last;
        let prefix = below_cgroup(depth, node_is_last, parent_prefix);
        let look = LookView { node: Some(e.node), column, direction };
        let next = depth.saturating_add(1);
        let inner = child_rows(e.cgroup, e.cgroup.children.len(), look, next, prefix);
        let own = running_rows(running_in(e), column, direction, prefix);
        lemma_child_rows_say(e.cgroup, e.cgroup.children.len(), look, next, prefix);
        assert forall|i: int| 0 <= i < running_in(e).len() implies exists|k: int|
            0 <= k < m.node_data.len() && m.node_data[k].node == (#[trigger] running_in(e)[i]).node
                && m.node_data[k].cgroup.processes.contains(running_in(e)[i].process) by {
            assert(e.cgroup.processes[i] == running_in(e)[i].process);
            assert(m.node_data[n - 1].cgroup.processes.contains(running_in(e)[i].process));
        }
        lemma_running_rows_of_job(m.node_data, running_in(e), column, direction, prefix);
        assert forall|k: int| 0 <= k < rows.len() implies is_of_job(#[trigger] rows[k], m.node_data) by {
            let at = k - before.len();
            if at < 0 {
                assert(rows[k] == before[k]);
            } else if at == 0 {
                assert(rows[k]->Cgroup_data.node == Some(m.node_data[n - 1].node));
            } else if at <= inner.len() {
                let row = inner[at - 1];
                assert(rows[k] == row);
                assert(is_of_tree(row, e.cgroup, look.node));
                match row {
                    TreeItemView::Process { data, .. } => {
                        let p = choose|p: ProcessView|
                            #[trigger] has_process(e.cgroup, p) && says(data, p);
                        assert(has_process(m.node_data[n - 1].cgroup, p));
                    },
                    TreeItemView::Cgroup { data, .. } => {
                        assert(data.node == Some(m.node_data[n - 1].node));
                    },
                }
            } else {
                assert(rows[k] == own[at - 1 - inner.len()]);
            }
        }
    }
}

proof fn lemma_merged_of_job(
    m: MergedView,
    column: SortColumn,
    direction: SortDirection,
    depth: usize,
    is_last: bool,
    parent_prefix: Seq<char>,
)
    requires
        m.children == merged_children(m.node_data),
    ensures
        ({
            let rows = merged_rows(m, column, direction, depth, is_last, parent_prefix);
            forall|k: int| 0 <= k < rows.len() ==> is_of_job(#[trigger] rows[k], m.node_data)
        }),
    decreases m, m.children.len() + 1,
{
    let rows = merged_rows(m, column, direction, depth, is_last, parent_prefix);
    if m.node_data.len() == 0 {
    } else if m.is_shared || m.node_data.len() == 1 {
        let prefix = below_cgroup(depth, is_last, parent_prefix);
        let next = depth.saturating_add(1);
        let inner = merged_child_rows(m, m.children.len(), column, direction, next, prefix);
        let own = running_rows(running_on(m.node_data), column, direction, prefix);
        lemma_merged_children_of_job(m, m.children.len(), column, direction, next, prefix);
        lemma_running_of_job(m.node_data, m.node_data.len());
        assert(m.node_data.take(m.node_data.len() as int) =~= m.node_data);
        lemma_running_rows_of_job(
            m.node_data,
            running_on(m.node_data),
            column,
            direction,
            prefix,
        );
        assert(rows == seq![rows[0]] + inner + own);
        assert forall|k: int| 0 <= k < rows.len() implies is_of_job(#[trigger] rows[k], m.node_data) by {
            if k == 0 {
                if m.node_data.len() == 1 {
                    assert(rows[0]->Cgroup_data.node == Some(m.node_data[0].node));
                }
            } else if k <= inner.len() {
                assert(rows[k] == inner[k - 1]);
            } else {
                assert(rows[k] == own[k - 1 - inner.len()]);
            }
        }
    } else {
        lemma_separate_of_job(
            m,
            m.node_data.len(),
            column,
            direction,
            depth,
            is_last,
            parent_prefix,
        );
    }
}

proof fn lemma_merged_children_of_job(
    m: MergedView,
    n: nat,
    column: SortColumn,
    direction: SortDirection,
    depth: usize,
    prefix: Seq<char>,
)
    requires
        m.children == merged_children(m.node_data),
        n <= m.children.len(),
    ensures
        ({
            let rows = merged_child_rows(m, n, column, direction, depth, prefix);
            forall|k: int| 0 <= k < rows.len() ==> is_of_job(#[trigger] rows[k], m.node_data)
        }),
    decreases m, n,
{
    let order = merged_order(m, column, direction);
    let keys = merged_keys(m, column);
    assert(order == sorted(keys, direction));
    sorted_is_permutation(keys, direction);
    if n > 0 {
        lemma_merged_children_of_job(m, (n - 1) as nat, column, direction, depth, prefix);
        let i = order[n - 1];
        assert(0 <= i < m.children.len());
        let child = m.children[i];
        let is_last = n == m.children.len() && running_on(m.node_data).len() == 0;
        merging_goes_all_the_way_down(m.node_data, i);
        lemma_merged_of_job(child, column, direction, depth, is_last, prefix);
        let before = merged_child_rows(m, (n - 1) as nat, column, direction, depth, prefix);
        let one = merged_rows(child, column, direction, depth, is_last, prefix);
        let rows = merged_child_rows(m, n, column, direction, depth, prefix);
        assert(rows == before + one);
        let below = children_of(m.node_data);
        let name = names_of(below)[i];
        assert(child.node_data == named(below, name));
        assert forall|k: int| 0 <= k < child.node_data.len() implies below.contains(
            #[trigger] child.node_data[k],
        ) by {
            below.lemma_filter_contains_rev(
                |e: Placed| e.cgroup.name == name,
                child.node_data[k],
            );
        }
        assert forall|k: int| 0 <= k < rows.len() implies is_of_job(#[trigger] rows[k], m.node_data) by {
            if k < before.len() {
                assert(rows[k] == before[k]);
            } else {
                assert(rows[k] == one[k - before.len()]);
                lemma_row_of_group(rows[k], m.node_data, child.node_data);
            }
        }
    }
}

/// Every row of a process in the view of a job says, field by field, what is known of a process in the
/// tree of the machine that it names.
pub proof fn job_rows_say_what_is_known(v: CoordinatorView, k: int)
    requires
        0 <= k < v.rows().len(),
    ensures
        is_of_job(v.rows()[k], v.trees_of(v.nodes())),
{
    let list = v.trees_of(v.nodes());
    if list.len() > 0 {
        lemma_merged_of_job(
            merged_trees(list),
            v.sort_column,
            v.sort_direction,
            0,
            true,
            seq![],
        );
    }
}

/// Below the row of a cgroup that is shown for all its machines together stand its children, and then
/// its processes on all machines, one level deeper and further in.
pub proof fn shared_cgroup_holds_what_is_below(
    m: MergedView,
    column: SortColumn,
    direction: SortDirection,
    depth: usize,
    is_last: bool,
    parent: Seq<char>,
)
    requires
        m.node_data.len() > 0,
        m.is_shared || m.node_data.len() == 1,
        depth < usize::MAX,
    ensures
        merged_rows(m, column, direction, depth, is_last, parent).skip(1) == merged_child_rows(
            m,
            m.children.len(),
            column,
            direction,
            (depth + 1) as usize,
            indent(depth, is_last, parent),
        ) + running_rows(
            running_on(m.node_data),
            column,
            direction,
            indent(depth, is_last, parent),
        ),
{
    let rows = merged_rows(m, column, direction, depth, is_last, parent);
    let prefix = indent(depth, is_last, parent);
    let inner = merged_child_rows(
        m,
        m.children.len(),
        column,
        direction,
        (depth + 1) as usize,
        prefix,
    );
    let own = running_rows(running_on(m.node_data), column, direction, prefix);
    assert(rows == seq![rows[0]] + inner + own);
    assert(rows.skip(1) =~= inner + own);
}

/// Where the rows of a child start.
pub open spec fn merged_start(
    m: MergedView,
    k: int,
    column: SortColumn,
    direction: SortDirection,
    depth: usize,
    prefix: Seq<char>,
) -> int {
    merged_child_rows(m, k as nat, column, direction, depth, prefix).len() as int
}

/// The children of a cgroup on several machines have their rows one after the other, in their order;
/// the last child is the last of all where no process follows.
pub proof fn merged_child_has_its_rows(
    m: MergedView,
    n: nat,
    k: int,
    column: SortColumn,
    direction: SortDirection,
    depth: usize,
    prefix: Seq<char>,
)
    requires
        0 <= k < n <= m.children.len(),
    ensures
        ({
            let rows = merged_child_rows(m, n, column, direction, depth, prefix);
            let at = merged_start(m, k, column, direction, depth, prefix);
            let next = merged_start(m, k + 1, column, direction, depth, prefix);
            let i = merged_order(m, column, direction)[k];
            &&& 0 <= i < m.children.len()
            &&& 0 <= at <= next <= rows.len()
            &&& rows.subrange(at, next) == merged_rows(
                m.children[i],
                column,
                direction,
                depth,
                k == m.children.len() - 1 && running_on(m.node_data).len() == 0,
                prefix,
            )
        }),
    decreases n,
{
    let order = merged_order(m, column, direction);
    let keys = merged_keys(m, column);
    assert(order == sorted(keys, direction));
    sorted_is_permutation(keys, direction);
    assert(0 <= order[n - 1] < m.children.len());
    let before = merged_child_rows(m, (n - 1) as nat, column, direction, depth, prefix);
    let one = merged_rows(
        m.children[order[n - 1]],
        column,
        direction,
        depth,
        n == m.children.len() && running_on(m.node_data).len() == 0,
        prefix,
    );
    let rows = merged_child_rows(m, n, column, direction, depth, prefix);
    let at = merged_start(m, k, column, direction, depth, prefix);
    let next = merged_start(m, k + 1, column, direction, depth, prefix);
    assert(rows == before + one);
    if k < n - 1 {
        merged_child_has_its_rows(m, (n - 1) as nat, k, column, direction, depth, prefix);
        assert(rows.subrange(at, next) =~= before.subrange(at, next));
    } else {
        assert(rows.subrange(at, next) =~= one);
    }
}

/// Below the row of a cgroup on one of its machines stand its children there, and then its processes
/// there, one level deeper and further in.
pub proof fn separate_cgroup_holds_what_is_below(
    m: MergedView,
    n: nat,
    column: SortColumn,
    direction: SortDirection,
    depth: usize,
    is_last: bool,
    parent: Seq<char>,
)
    requires
        0 < n <= m.node_data.len(),
        depth < usize::MAX,
    ensures
        ({
            let rows = separate_rows(m, n, column, direction, depth, is_last, parent);
            let at = machine_start(m, n - 1, column, direction, depth, is_last, parent);
            let e = m.node_data[n - 1];
            let prefix = indent(depth, n == m.node_data.len() && is_last, parent);
            rows.skip(at + 1) == child_rows(
                e.cgroup,
                e.cgroup.children.len(),
                LookView { node: Some(e.node), column, direction },
                (depth + 1) as usize,
                prefix,
            ) + running_rows(running_in(e), column, direction, prefix)
        }),
{
    let rows = separate_rows(m, n, column, direction, depth, is_last, parent);
    let at = machine_start(m, n - 1, column, direction, depth, is_last, parent);
    let e = m.node_data[n - 1];
    let prefix = indent(depth, n == m.node_data.len() && is_last, parent);
    let look = LookView { node: Some(e.node), column, direction };
    let inner = child_rows(e.cgroup, e.cgroup.children.len(), look, (depth + 1) as usize, prefix);
    let own = running_rows(running_in(e), column, direction, prefix);
    let before = separate_rows(m, (n - 1) as nat, column, direction, depth, is_last, parent);
    assert(rows == before + (seq![rows[at]] + inner + own));
    assert(rows.skip(at + 1) =~= inner + own);
}

}
