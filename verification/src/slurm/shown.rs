//! What the rows show of a job: every process of every machine once, in order.

use vstd::prelude::*;
use crate::baseline::entry;
use crate::cgroup::types::CgroupView;
use crate::row_laws::{
    every_process_below_has_its_row, is_tidy, lemma_count_add, lemma_count_none, lemma_count_one,
    occurrences, occurrences_below, occurrences_in, on, rows_on,
};
use crate::rows::{
    below_cgroup, child_rows, flat_cgroup, flat_process, own_prefix, process_key, shown_of,
    cgroup_key, LookView, TreeItemView,
};
use crate::slurm::coordinator::{is_gone, CoordinatorView};
use crate::slurm::flatten::{
    aggregated, merged_child_rows, merged_order, merged_rows, running_in, running_on, running_rows,
    separate_rows, Running,
};
use crate::slurm::laws::names_have_an_order;
use crate::slurm::merge::{
    children_of, lemma_names_of, merged_children, merged_trees, merging_goes_all_the_way_down,
    named, names_of, MergedView, Placed,
};
use crate::sort::{
    comparable, comparable_is_consistent, precedes, sorted, sorted_is_in_order,
    sorted_is_permutation, sorting_keeps_totals, total, total_below, KeyView, SortColumn,
    SortDirection,
};
use crate::text::lemma_text_before_irreflexive;

verus! {

/// The number of processes with an ID in a cgroup and below it, where it is on the machine.
pub open spec fn weight(e: Placed, node: Seq<char>, pid: u32) -> nat {
    if e.node == node {
        occurrences_in(e.cgroup, pid)
    } else {
        0
    }
}

/// The number of processes with an ID on a machine, in some cgroups and below them.
pub open spec fn load(list: Seq<Placed>, node: Seq<char>, pid: u32) -> nat
    decreases list.len(),
{
    if list.len() == 0 {
        0
    } else {
        load(list.drop_last(), node, pid) + weight(list.last(), node, pid)
    }
}

/// The number of processes with an ID on a machine, in some cgroups themselves.
pub open spec fn own_load(list: Seq<Placed>, node: Seq<char>, pid: u32) -> nat
    decreases list.len(),
{
    if list.len() == 0 {
        0
    } else {
        own_load(list.drop_last(), node, pid) + (if list.last().node == node {
            occurrences(list.last().cgroup.processes, pid)
        } else {
            0
        })
    }
}

proof fn lemma_load_add(a: Seq<Placed>, b: Seq<Placed>, node: Seq<char>, pid: u32)
    ensures
        load(a + b, node, pid) == load(a, node, pid) + load(b, node, pid),
    decreases b.len(),
{
    if b.len() == 0 {
        assert(a + b =~= a);
    } else {
        lemma_load_add(a, b.drop_last(), node, pid);
        assert((a + b).drop_last() =~= a + b.drop_last());
        assert((a + b).last() == b.last());
    }
}

/// The children of a cgroup on its machine.
pub open spec fn children_on(e: Placed) -> Seq<Placed> {
    e.cgroup.children.map_values(|c: CgroupView| Placed { node: e.node, cgroup: c })
}

proof fn lemma_load_of_children(e: Placed, n: nat, node: Seq<char>, pid: u32)
    requires
        n <= e.cgroup.children.len(),
    ensures
        load(children_on(e).take(n as int), node, pid) == (if e.node == node {
            occurrences_below(e.cgroup, n, pid)
        } else {
            0
        }),
    decreases n,
{
    let part = children_on(e).take(n as int);
    if n > 0 {
        lemma_load_of_children(e, (n - 1) as nat, node, pid);
        assert(part.drop_last() =~= children_on(e).take(n - 1));
        assert(part.last() == (Placed { node: e.node, cgroup: e.cgroup.children[n - 1] }));
    }
}

/// What is in some cgroups and below them is in them or in their children and below those.
proof fn lemma_load_split(list: Seq<Placed>, node: Seq<char>, pid: u32)
    ensures
        load(list, node, pid) == own_load(list, node, pid) + load(children_of(list), node, pid),
    decreases list.len(),
{
    if list.len() > 0 {
        let front = list.drop_last();
        let last = list.last();
        lemma_load_split(front, node, pid);
        assert(children_of(list) =~= children_of(front) + children_on(last));
        lemma_load_add(children_of(front), children_on(last), node, pid);
        let n = last.cgroup.children.len();
        lemma_load_of_children(last, n, node, pid);
        assert(children_on(last).take(n as int) =~= children_on(last));
    }
}

/// The loads of the groups with the first `n` names.
pub open spec fn group_load(
    list: Seq<Placed>,
    names: Seq<Seq<char>>,
    n: nat,
    node: Seq<char>,
    pid: u32,
) -> nat
    decreases n,
{
    if n == 0 {
        0
    } else {
        group_load(list, names, (n - 1) as nat, node, pid) + load(
            named(list, names[n - 1]),
            node,
            pid,
        )
    }
}

proof fn lemma_group_load_step(
    list: Seq<Placed>,
    names: Seq<Seq<char>>,
    n: nat,
    node: Seq<char>,
    pid: u32,
)
    requires
        list.len() > 0,
        n <= names.len(),
        names.no_duplicates(),
    ensures
        group_load(list, names, n, node, pid) == group_load(list.drop_last(), names, n, node, pid)
            + (if names.take(n as int).contains(list.last().cgroup.name) {
            weight(list.last(), node, pid)
        } else {
            0
        }),
    decreases n,
{
    let front = list.drop_last();
    let last = list.last();
    let name = last.cgroup.name;
    if n > 0 {
        lemma_group_load_step(list, names, (n - 1) as nat, node, pid);
        let own = names[n - 1];
        let part = names.take(n as int);
        let before = names.take(n - 1);
        reveal(Seq::filter);
        if own == name {
            assert(named(list, own) == named(front, own).push(last));
            assert(named(front, own).push(last).drop_last() =~= named(front, own));
            assert(part[n - 1] == name);
            if before.contains(name) {
                let i = choose|i: int| 0 <= i < before.len() && before[i] == name;
                assert(names[i] == names[n - 1]);
            }
        } else {
            assert(named(list, own) == named(front, own));
            if part.contains(name) {
                let i = choose|i: int| 0 <= i < part.len() && part[i] == name;
                assert(before[i] == name);
            }
            if before.contains(name) {
                let i = choose|i: int| 0 <= i < before.len() && before[i] == name;
                assert(part[i] == name);
            }
        }
    }
}

proof fn lemma_no_groups(names: Seq<Seq<char>>, n: nat, node: Seq<char>, pid: u32)
    ensures
        group_load(seq![], names, n, node, pid) == 0,
    decreases n,
{
    reveal(Seq::filter);
    if n > 0 {
        lemma_no_groups(names, (n - 1) as nat, node, pid);
        assert(named(seq![], names[n - 1]) =~= seq![]);
    }
}

/// The groups of all names hold what the list holds.
proof fn lemma_groups(list: Seq<Placed>, names: Seq<Seq<char>>, node: Seq<char>, pid: u32)
    requires
        names.no_duplicates(),
        forall|i: int| 0 <= i < list.len() ==> names.contains((#[trigger] list[i]).cgroup.name),
    ensures
        group_load(list, names, names.len(), node, pid) == load(list, node, pid),
    decreases list.len(),
{
    if list.len() == 0 {
        assert(list =~= seq![]);
        lemma_no_groups(names, names.len(), node, pid);
    } else {
        let front = list.drop_last();
        assert forall|i: int| 0 <= i < front.len() implies names.contains(
            (#[trigger] front[i]).cgroup.name,
        ) by {
            assert(front[i] == list[i]);
        }
        lemma_groups(front, names, node, pid);
        lemma_group_load_step(list, names, names.len(), node, pid);
        assert(names.take(names.len() as int) =~= names);
        assert(names.contains(list[list.len() - 1].cgroup.name));
    }
}

/// The process of a list counts where it has the ID and is on the machine.
pub open spec fn running_weight(list: Seq<Running>, node: Seq<char>, pid: u32) -> spec_fn(int) -> nat {
    |i: int|
        if list[i].node == node && list[i].process.pid == pid {
            1nat
        } else {
            0
        }
}

proof fn lemma_running_rows(
    list: Seq<Running>,
    column: SortColumn,
    direction: SortDirection,
    prefix: Seq<char>,
    n: nat,
    node: Seq<char>,
    pid: u32,
)
    requires
        n <= list.len(),
    ensures
        ({
            let keys = list.map_values(|e: Running| process_key(e.process, column));
            rows_on(running_rows(list, column, direction, prefix).take(n as int), Some(node), pid)
                == total(sorted(keys, direction).take(n as int), running_weight(list, node, pid))
        }),
    decreases n,
{
    let keys = list.map_values(|e: Running| process_key(e.process, column));
    let order = sorted(keys, direction);
    let rows = running_rows(list, column, direction, prefix);
    sorted_is_permutation(keys, direction);
    lemma_count_none(on(Some(node), pid));
    if n == 0 {
        assert(rows.take(0) =~= seq![]);
    } else {
        lemma_running_rows(list, column, direction, prefix, (n - 1) as nat, node, pid);
        let row = rows[n - 1];
        assert(rows.take(n as int) =~= rows.take(n - 1) + seq![row]);
        lemma_count_one(row, on(Some(node), pid));
        lemma_count_add(rows.take(n - 1), seq![row], on(Some(node), pid));
        assert(order.take(n as int).drop_last() =~= order.take(n - 1));
        assert(order.take(n as int).last() == order[n - 1]);
        let e = list[order[n - 1]];
        assert(row == TreeItemView::Process {
            data: flat_process(e.process, Some(e.node)),
            is_last: n - 1 == order.len() - 1,
            cgroup_prefix: prefix,
            process_prefix: seq![],
        });
    }
}

/// The number of processes of a list with an ID on a machine.
pub open spec fn running_count(list: Seq<Running>, node: Seq<char>, pid: u32) -> nat {
    total_below(list.len(), running_weight(list, node, pid))
}

/// Every process of a list has its row.
proof fn lemma_running_count(
    list: Seq<Running>,
    column: SortColumn,
    direction: SortDirection,
    prefix: Seq<char>,
    node: Seq<char>,
    pid: u32,
)
    ensures
        rows_on(running_rows(list, column, direction, prefix), Some(node), pid) == running_count(
            list,
            node,
            pid,
        ),
{
    let keys = list.map_values(|e: Running| process_key(e.process, column));
    let order = sorted(keys, direction);
    let rows = running_rows(list, column, direction, prefix);
    sorted_is_permutation(keys, direction);
    lemma_running_rows(list, column, direction, prefix, list.len(), node, pid);
    sorting_keeps_totals(keys, direction, running_weight(list, node, pid));
    assert(rows.take(list.len() as int) =~= rows);
    assert(order.take(list.len() as int) =~= order);
}

proof fn lemma_running_add(a: Seq<Running>, b: Seq<Running>, n: nat, node: Seq<char>, pid: u32)
    requires
        n <= b.len(),
    ensures
        total_below(a.len() + n, running_weight(a + b, node, pid)) == running_count(a, node, pid)
            + total_below(n, running_weight(b, node, pid)),
    decreases n,
{
    if n == 0 {
        lemma_running_prefix(a, b, a.len(), node, pid);
    } else {
        lemma_running_add(a, b, (n - 1) as nat, node, pid);
        assert((a + b)[a.len() + n - 1] == b[n - 1]);
    }
}

proof fn lemma_running_prefix(a: Seq<Running>, b: Seq<Running>, n: nat, node: Seq<char>, pid: u32)
    requires
        n <= a.len(),
    ensures
        total_below(n, running_weight(a + b, node, pid)) == total_below(
            n,
            running_weight(a, node, pid),
        ),
    decreases n,
{
    if n > 0 {
        lemma_running_prefix(a, b, (n - 1) as nat, node, pid);
        assert((a + b)[n - 1] == a[n - 1]);
    }
}

proof fn lemma_running_in(e: Placed, n: nat, node: Seq<char>, pid: u32)
    requires
        n <= e.cgroup.processes.len(),
    ensures
        total_below(n, running_weight(running_in(e), node, pid)) == (if e.node == node {
            occurrences(e.cgroup.processes.take(n as int), pid)
        } else {
            0
        }),
    decreases n,
{
    let list = e.cgroup.processes;
    reveal(Seq::filter);
    if n > 0 {
        lemma_running_in(e, (n - 1) as nat, node, pid);
        let part = list.take(n as int);
        assert(part.drop_last() =~= list.take(n - 1));
        assert(part.last() == list[n - 1]);
        assert(running_in(e)[n - 1] == (Running { node: e.node, process: list[n - 1] }));
    } else {
        assert(list.take(0) =~= seq![]);
    }
}

proof fn lemma_running_on(list: Seq<Placed>, node: Seq<char>, pid: u32)
    ensures
        running_count(running_on(list), node, pid) == own_load(list, node, pid),
    decreases list.len(),
{
    if list.len() > 0 {
        let front = list.drop_last();
        let last = list.last();
        lemma_running_on(front, node, pid);
        let a = running_on(front);
        let b = running_in(last);
        lemma_running_add(a, b, b.len(), node, pid);
        lemma_running_in(last, b.len(), node, pid);
        assert(last.cgroup.processes.take(b.len() as int) =~= last.cgroup.processes);
        assert((a + b).len() == a.len() + b.len());
    }
}

/// Where a cgroup is shown for each machine on its own, the processes below it are orderly.
pub open spec fn is_shown_tidily(m: MergedView) -> bool
    decreases m,
{
    if m.is_shared || m.node_data.len() == 1 {
        forall|i: int| 0 <= i < m.children.len() ==> is_shown_tidily(#[trigger] m.children[i])
    } else {
        forall|k: int| 0 <= k < m.node_data.len() ==> has_tidy_children((#[trigger] m.node_data[k]).cgroup)
    }
}

pub open spec fn has_tidy_children(v: CgroupView) -> bool {
    forall|i: int| 0 <= i < v.children.len() ==> is_tidy(#[trigger] v.children[i])
}

proof fn lemma_separate_count(
    m: MergedView,
    n: nat,
    column: SortColumn,
    direction: SortDirection,
    depth: usize,
    is_last: bool,
    parent_prefix: Seq<char>,
    node: Seq<char>,
    pid: u32,
)
    requires
        n <= m.node_data.len(),
        forall|k: int| 0 <= k < m.node_data.len() ==> has_tidy_children((#[trigger] m.node_data[k]).cgroup),
    ensures
        rows_on(
            separate_rows(m, n, column, direction, depth, is_last, parent_prefix),
            Some(node),
            pid,
        ) == load(m.node_data.take(n as int), node, pid),
    decreases n,
{
    let kind = on(Some(node), pid);
    lemma_count_none(kind);
    let part = m.node_data.take(n as int);
    if n > 0 {
        lemma_separate_count(
            m,
            (n - 1) as nat,
            column,
            direction,
            depth,
            is_last,
            parent_prefix,
            node,
            pid,
        );
        let e = m.node_data[n - 1];
        assert(has_tidy_children(e.cgroup));
        let node_is_last = n == m.node_data.len() && is_last;
        let row = TreeItemView::Cgroup {
            data: flat_cgroup(m.name, Some(e.node), shown_of(e.cgroup.metrics)),
            depth,
            is_last: node_is_last,
            prefix: own_prefix(depth, parent_prefix),
        };
        let prefix = below_cgroup(depth, node_is_last, parent_prefix);
        let look = LookView { node: Some(e.node), column, direction };
        let next = depth.saturating_add(1);
        let inner = child_rows(e.cgroup, e.cgroup.children.len(), look, next, prefix);
        let own = running_rows(running_in(e), column, direction, prefix);
        every_process_below_has_its_row(e.cgroup, look, next, prefix, Some(node), pid);
        lemma_running_count(running_in(e), column, direction, prefix, node, pid);
        let all = e.cgroup.processes.len();
        lemma_running_in(e, all, node, pid);
        assert(e.cgroup.processes.take(all as int) =~= e.cgroup.processes);
        lemma_count_one(row, kind);
        lemma_count_add(seq![row], inner, kind);
        lemma_count_add(seq![row] + inner, own, kind);
        lemma_count_add(
            separate_rows(m, (n - 1) as nat, column, direction, depth, is_last, parent_prefix),
            seq![row] + inner + own,
            kind,
        );
        assert(part.drop_last() =~= m.node_data.take(n - 1));
        assert(part.last() == e);
    }
}

pub open spec fn merged_weight(m: MergedView, node: Seq<char>, pid: u32) -> spec_fn(int) -> nat {
    |i: int| load(m.children[i].node_data, node, pid)
}

/// The children of a cgroup put together hold what its children on its machines hold.
proof fn lemma_merged_weights(m: MergedView, n: nat, node: Seq<char>, pid: u32)
    requires
        m.children == merged_children(m.node_data),
        n <= m.children.len(),
    ensures
        total_below(n, merged_weight(m, node, pid)) == group_load(
            children_of(m.node_data),
            names_of(children_of(m.node_data)),
            n,
            node,
            pid,
        ),
    decreases n,
{
    if n > 0 {
        lemma_merged_weights(m, (n - 1) as nat, node, pid);
        let below = children_of(m.node_data);
        assert(m.children[n - 1].node_data == named(below, names_of(below)[n - 1]));
    }
}

proof fn lemma_merged_child_count(
    m: MergedView,
    n: nat,
    column: SortColumn,
    direction: SortDirection,
    depth: usize,
    prefix: Seq<char>,
    node: Seq<char>,
    pid: u32,
)
    requires
        m.children == merged_children(m.node_data),
        n <= m.children.len(),
        forall|i: int| 0 <= i < m.children.len() ==> is_shown_tidily(#[trigger] m.children[i]),
    ensures
        rows_on(merged_child_rows(m, n, column, direction, depth, prefix), Some(node), pid) == total(
            merged_order(m, column, direction).take(n as int),
            merged_weight(m, node, pid),
        ),
    decreases m, n,
{
    let kind = on(Some(node), pid);
    let order = merged_order(m, column, direction);
    let keys = m.children.map_values(
        |c: MergedView| cgroup_key(c.name, aggregated(c.node_data), column),
    );
    sorted_is_permutation(keys, direction);
    lemma_count_none(kind);
    if n > 0 {
        lemma_merged_child_count(m, (n - 1) as nat, column, direction, depth, prefix, node, pid);
        let i = order[n - 1];
        assert(0 <= i < m.children.len());
        let child = m.children[i];
        let is_last = n == m.children.len() && running_on(m.node_data).len() == 0;
        merging_goes_all_the_way_down(m.node_data, i);
        lemma_merged_count(child, column, direction, depth, is_last, prefix, node, pid);
        lemma_count_add(
            merged_child_rows(m, (n - 1) as nat, column, direction, depth, prefix),
            merged_rows(child, column, direction, depth, is_last, prefix),
            kind,
        );
        assert(order.take(n as int).drop_last() =~= order.take(n - 1));
        assert(order.take(n as int).last() == i);
    }
}

/// The rows of a cgroup show every process in it and below it, on each of its machines, once.
proof fn lemma_merged_count(
    m: MergedView,
    column: SortColumn,
    direction: SortDirection,
    depth: usize,
    is_last: bool,
    parent_prefix: Seq<char>,
    node: Seq<char>,
    pid: u32,
)
    requires
        m.children == merged_children(m.node_data),
        is_shown_tidily(m),
    ensures
        rows_on(
            merged_rows(m, column, direction, depth, is_last, parent_prefix),
            Some(node),
            pid,
        ) == load(m.node_data, node, pid),
    decreases m, m.children.len() + 1,
{
    let kind = on(Some(node), pid);
    lemma_count_none(kind);
    if m.node_data.len() == 0 {
    } else if m.is_shared || m.node_data.len() == 1 {
        let shown = if m.node_data.len() == 1 { Some(m.node_data[0].node) } else { None };
        let row = TreeItemView::Cgroup {
            data: flat_cgroup(m.name, shown, aggregated(m.node_data)),
            depth,
            is_last,
            prefix: own_prefix(depth, parent_prefix),
        };
        let prefix = below_cgroup(depth, is_last, parent_prefix);
        let next = depth.saturating_add(1);
        let n = m.children.len();
        let inner = merged_child_rows(m, n, column, direction, next, prefix);
        let own = running_rows(running_on(m.node_data), column, direction, prefix);
        let keys = m.children.map_values(
            |c: MergedView| cgroup_key(c.name, aggregated(c.node_data), column),
        );
        let order = merged_order(m, column, direction);
        lemma_merged_child_count(m, n, column, direction, next, prefix, node, pid);
        sorted_is_permutation(keys, direction);
        sorting_keeps_totals(keys, direction, merged_weight(m, node, pid));
        assert(order.take(n as int) =~= order);
        let below = children_of(m.node_data);
        let names = names_of(below);
        lemma_merged_weights(m, n, node, pid);
        lemma_names_of(below);
        assert(names.no_duplicates()) by {
            assert forall|i: int, j: int| 0 <= i < j < names.len() implies names[i] != names[j] by {
                lemma_text_before_irreflexive(names[i]);
            }
        }
        lemma_groups(below, names, node, pid);
        lemma_load_split(m.node_data, node, pid);
        lemma_running_on(m.node_data, node, pid);
        lemma_running_count(running_on(m.node_data), column, direction, prefix, node, pid);
        lemma_count_one(row, kind);
        lemma_count_add(seq![row], inner, kind);
        lemma_count_add(seq![row] + inner, own, kind);
    } else {
        let n = m.node_data.len();
        lemma_separate_count(m, n, column, direction, depth, is_last, parent_prefix, node, pid);
        assert(m.node_data.take(n as int) =~= m.node_data);
    }
}

/// The rows of the trees of several machines show every process of every machine once.
pub proof fn every_process_of_the_trees_has_its_row(
    list: Seq<Placed>,
    column: SortColumn,
    direction: SortDirection,
    node: Seq<char>,
    pid: u32,
)
    requires
        is_shown_tidily(merged_trees(list)),
    ensures
        rows_on(
            merged_rows(merged_trees(list), column, direction, 0, true, seq![]),
            Some(node),
            pid,
        ) == load(list, node, pid),
{
    let m = merged_trees(list);
    lemma_count_none(on(Some(node), pid));
    if list.len() > 0 {
        lemma_merged_count(m, column, direction, 0, true, seq![], node, pid);
    }
}

proof fn lemma_trees_load(v: CoordinatorView, nodes: Seq<Seq<char>>, node: Seq<char>, pid: u32)
    requires
        nodes.no_duplicates(),
    ensures
        load(v.trees_of(nodes), node, pid) == (if nodes.contains(node) && !is_gone(
            entry(v.node_status, node),
        ) {
            occurrences_in(v.tree_of(node), pid)
        } else {
            0
        }),
    decreases nodes.len(),
{
    if nodes.len() > 0 {
        let front = nodes.drop_last();
        let last = nodes.last();
        lemma_trees_load(v, front, node, pid);
        let before = v.trees_of(front);
        let e = Placed { node: last, cgroup: v.tree_of(last) };
        assert(before.push(e).drop_last() =~= before);
        assert(nodes[nodes.len() - 1] == last);
        if front.contains(node) {
            let i = choose|i: int| 0 <= i < front.len() && front[i] == node;
            assert(nodes[i] == node);
        }
        if nodes.contains(node) && node != last {
            let i = choose|i: int| 0 <= i < nodes.len() && nodes[i] == node;
            assert(front[i] == node);
        }
    }
}

/// The rows of a job show every process of every machine once: as many rows name a machine and a
/// process ID as there are processes with that ID in the tree of the machine. A machine without a
/// snapshot, or whose collector is gone, has no rows.
pub proof fn every_process_of_the_job_has_its_row(
    v: CoordinatorView,
    node: Seq<char>,
    pid: u32,
)
    requires
        v.node_snapshots.dom().finite(),
        is_shown_tidily(merged_trees(v.trees_of(v.nodes()))),
    ensures
        rows_on(v.rows(), Some(node), pid) == (if v.node_snapshots.contains_key(node) && !is_gone(
            entry(v.node_status, node),
        ) {
            occurrences_in(v.tree_of(node), pid)
        } else {
            0
        }),
{
    let nodes = v.nodes();
    names_have_an_order(v.node_snapshots.dom());
    assert(nodes.no_duplicates()) by {
        assert forall|i: int, j: int| 0 <= i < j < nodes.len() implies nodes[i] != nodes[j] by {
            lemma_text_before_irreflexive(nodes[i]);
        }
    }
    assert(nodes.contains(node) == nodes.to_set().contains(node));
    lemma_trees_load(v, nodes, node, pid);
    every_process_of_the_trees_has_its_row(
        v.trees_of(nodes),
        v.sort_column,
        v.sort_direction,
        node,
        pid,
    );
}

/// The keys of the children of a cgroup on several machines.
pub open spec fn merged_keys(m: MergedView, column: SortColumn) -> Seq<KeyView> {
    m.children.map_values(|c: MergedView| cgroup_key(c.name, aggregated(c.node_data), column))
}

/// The children of a cgroup on several machines are shown in the order of the column, those with
/// the same key in the order of their names, unless a rate is pending.
pub proof fn merged_children_are_shown_in_order(
    m: MergedView,
    column: SortColumn,
    direction: SortDirection,
    i: int,
    j: int,
)
    requires
        comparable(merged_keys(m, column)),
        0 <= i < j < m.children.len(),
    ensures
        ({
            let keys = merged_keys(m, column);
            let order = merged_order(m, column, direction);
            &&& !precedes(keys[order[j]], keys[order[i]], direction)
            &&& !precedes(keys[order[i]], keys[order[j]], direction) ==> order[i] < order[j]
        }),
{
    let keys = merged_keys(m, column);
    comparable_is_consistent(keys, direction);
    sorted_is_in_order(keys, direction);
    let order = sorted(keys, direction);
    assert(order == merged_order(m, column, direction));
    assert(!precedes(keys[order[j]], keys[order[i]], direction));
}

/// The keys of processes on several machines.
pub open spec fn running_keys(list: Seq<Running>, column: SortColumn) -> Seq<KeyView> {
    list.map_values(|e: Running| process_key(e.process, column))
}

/// The processes of a cgroup on several machines are shown in the order of the column, unless a
/// rate is pending.
pub proof fn running_processes_are_shown_in_order(
    list: Seq<Running>,
    column: SortColumn,
    direction: SortDirection,
    prefix: Seq<char>,
    i: int,
    j: int,
) -> (at: (int, int))
    requires
        comparable(running_keys(list, column)),
        0 <= i < j < list.len(),
    ensures
        0 <= at.0 < list.len(),
        0 <= at.1 < list.len(),
        at.0 != at.1,
        ({
            let rows = running_rows(list, column, direction, prefix);
            let (a, b) = (list[at.0], list[at.1]);
            &&& rows.len() == list.len()
            &&& rows[i] matches TreeItemView::Process { data, .. } && data == flat_process(
                a.process,
                Some(a.node),
            )
            &&& rows[j] matches TreeItemView::Process { data, .. } && data == flat_process(
                b.process,
                Some(b.node),
            )
            &&& !precedes(
                process_key(b.process, column),
                process_key(a.process, column),
                direction,
            )
        }),
{
    let keys = running_keys(list, column);
    comparable_is_consistent(keys, direction);
    sorted_is_in_order(keys, direction);
    sorted_is_permutation(keys, direction);
    let order = sorted(keys, direction);
    assert(0 <= order[i] < list.len() && 0 <= order[j] < list.len());
    assert(!precedes(keys[order[j]], keys[order[i]], direction));
    (order[i], order[j])
}

}
