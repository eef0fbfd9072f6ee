//! What holds of the coordinator whatever comes in.

use vstd::prelude::*;
use crate::baseline::entry;
use crate::cgroup::types::CgroupView;
use crate::process::types::ProcessView;
use crate::rows::{
    below_cgroup, below_process, cgroup_rows, child_order, child_rows, family_rows, flat_cgroup,
    flat_process, forest_rows, own_prefix, process_key, process_rows, ranked_family, row_name,
    shown_of, LookView, TreeItemView,
};
use crate::slurm::convert::{time_between, tree_between};
use crate::slurm::coordinator::CoordinatorView;
use crate::slurm::flatten::{
    aggregated, merged_child_rows, merged_order, merged_rows, running_in, running_on, running_rows,
    separate_rows, Running,
};
use crate::slurm::merge::{
    children_of, lemma_with_name, merged_children, merged_trees, named, names_of, tallest,
    with_name, MergedView, Placed,
};
use crate::slurm::types::SnapshotView;
use crate::sort::{sorted, sorted_is_permutation, SortColumn, SortDirection};
use crate::table::{ascending, in_order};

verus! {

/// Both states show the same snapshots, in the same form.
pub open spec fn show_the_same(v: CoordinatorView, w: CoordinatorView) -> bool {
    &&& v.node_snapshots == w.node_snapshots
    &&& v.prev_snapshots == w.prev_snapshots
    &&& v.node_status == w.node_status
    &&& v.collector_pids == w.collector_pids
    &&& v.compact_mode == w.compact_mode
}

pub proof fn lemma_same_trees(v: CoordinatorView, w: CoordinatorView, nodes: Seq<Seq<char>>)
    requires
        show_the_same(v, w),
    ensures
        v.trees_of(nodes) == w.trees_of(nodes),
    decreases nodes.len(),
{
    if nodes.len() > 0 {
        lemma_same_trees(v, w, nodes.drop_last());
    }
}

/// The rows depend neither on when snapshots arrive nor on how they were sent: the rates go by the
/// collectors' clocks.
pub proof fn arrival_plays_no_part(
    v: CoordinatorView,
    s: SnapshotView,
    bytes: u64,
    now: u64,
    other_bytes: u64,
    other_now: u64,
)
    ensures
        v.received(s, bytes, now).rows() == v.received(s, other_bytes, other_now).rows(),
{
    let a = v.received(s, bytes, now);
    let b = v.received(s, other_bytes, other_now);
    lemma_same_trees(a, b, a.nodes());
}

/// A snapshot of one machine changes nothing in the tree of another.
pub proof fn machines_do_not_interfere(
    v: CoordinatorView,
    s: SnapshotView,
    bytes: u64,
    now: u64,
    other: Seq<char>,
)
    requires
        other != s.node,
    ensures
        v.received(s, bytes, now).tree_of(other) == v.tree_of(other),
        v.disconnected(s.node).tree_of(other) == v.tree_of(other),
{
}

/// Snapshots of two machines may arrive in either order.
pub proof fn snapshots_of_machines_commute(
    v: CoordinatorView,
    s: SnapshotView,
    t: SnapshotView,
    bytes: u64,
    other_bytes: u64,
    now: u64,
    other_now: u64,
)
    requires
        s.node != t.node,
    ensures
        v.received(s, bytes, now).received(t, other_bytes, other_now).rows() == v.received(
            t,
            other_bytes,
            now,
        ).received(s, bytes, other_now).rows(),
{
    let a = v.received(s, bytes, now).received(t, other_bytes, other_now);
    let b = v.received(t, other_bytes, now).received(s, bytes, other_now);
    assert(a.node_snapshots =~= b.node_snapshots);
    assert(a.prev_snapshots =~= b.prev_snapshots);
    assert(a.node_status =~= b.node_status);
    assert(a.collector_pids =~= b.collector_pids);
    lemma_same_trees(a, b, a.nodes());
}

/// The rates of a machine are those between its two last snapshots.
pub proof fn rates_are_between_consecutive_snapshots(
    v: CoordinatorView,
    first: SnapshotView,
    second: SnapshotView,
    bytes: u64,
    other_bytes: u64,
    now: u64,
    other_now: u64,
)
    requires
        first.node == second.node,
        second.timestamp > first.timestamp,
    ensures
        v.received(first, bytes, now).received(second, other_bytes, other_now).rated_tree(first.node)
            == tree_between(
            second.cgroup_tree,
            first.cgroup_tree,
            time_between(second.timestamp, first.timestamp),
        ),
{
    let one = v.received(first, bytes, now);
    assert(entry(one.node_snapshots, first.node) == Some(first));
    let two = one.received(second, other_bytes, other_now);
    assert(entry(two.prev_snapshots, first.node) == Some(first));
    assert(two.node_snapshots[first.node] == second);
}

/// Nothing but a snapshot of the machine itself, or the end of its collector, changes its rates:
/// neither building the rows, nor another order or form of them, nor what comes from another
/// machine.
pub proof fn rates_stay_until_the_next_snapshot(
    v: CoordinatorView,
    node: Seq<char>,
    column: SortColumn,
    direction: SortDirection,
    compact_mode: bool,
    other: SnapshotView,
    bytes: u64,
    now: u64,
)
    requires
        other.node != node,
    ensures
        v.rebuilt().rated_tree(node) == v.rated_tree(node),
        (CoordinatorView {
            sort_column: column,
            sort_direction: direction,
            compact_mode,
            needs_rebuild: true,
            ..v
        }).rated_tree(node) == v.rated_tree(node),
        v.received(other, bytes, now).rated_tree(node) == v.rated_tree(node),
        v.disconnected(other.node).rated_tree(node) == v.rated_tree(node),
{
}

/// Building the rows again without a change in between gives the same rows.
pub proof fn rebuilding_twice_changes_nothing(v: CoordinatorView)
    ensures
        v.rebuilt().rebuilt() == v.rebuilt(),
{
    lemma_same_trees(v, v.rebuilt(), v.nodes());
    lemma_same_connected(v, v.rebuilt(), v.nodes());
}

proof fn lemma_same_connected(v: CoordinatorView, w: CoordinatorView, nodes: Seq<Seq<char>>)
    requires
        v.node_status == w.node_status,
    ensures
        v.connected_of(nodes) == w.connected_of(nodes),
    decreases nodes.len(),
{
    if nodes.len() > 0 {
        lemma_same_connected(v, w, nodes.drop_last());
    }
}

/// The machines of a list whose collector is connected are machines that are known.
proof fn lemma_connected_known(v: CoordinatorView, nodes: Seq<Seq<char>>)
    requires
        nodes.no_duplicates(),
        v.node_status.dom().finite(),
    ensures
        v.connected_of(nodes) <= v.node_status.dom().intersect(nodes.to_set()).len(),
    decreases nodes.len(),
{
    let known = v.node_status.dom();
    if nodes.len() > 0 {
        let front = nodes.drop_last();
        let last = nodes.last();
        lemma_connected_known(v, front);
        let a = known.intersect(front.to_set());
        let b = known.intersect(nodes.to_set());
        assert(!front.contains(last));
        assert forall|k: Seq<char>| front.contains(k) implies nodes.contains(k) by {
            let i = choose|i: int| 0 <= i < front.len() && front[i] == k;
            assert(nodes[i] == k);
        }
        assert(a.subset_of(b));
        vstd::set_lib::lemma_len_subset(a, b);
        if known.contains(last) {
            assert(nodes.contains(last)) by {
                assert(nodes[nodes.len() - 1] == last);
            }
            assert(a.insert(last).subset_of(b));
            vstd::set_lib::lemma_len_subset(a.insert(last), b);
        }
    }
}

/// No more machines are connected than are known.
pub proof fn connected_are_among_all(v: CoordinatorView)
    requires
        v.node_snapshots.dom().finite(),
        v.node_status.dom().finite(),
    ensures
        v.connected_of(v.nodes()) <= v.node_status.len(),
{
    let nodes = v.nodes();
    names_have_an_order(v.node_snapshots.dom());
    assert(nodes.no_duplicates()) by {
        assert forall|i: int, j: int| 0 <= i < j < nodes.len() implies nodes[i] != nodes[j] by {
            crate::text::lemma_text_before_irreflexive(nodes[i]);
        }
    }
    lemma_connected_known(v, nodes);
    let known = v.node_status.dom();
    vstd::set_lib::lemma_len_subset(known.intersect(nodes.to_set()), known);
}

proof fn lemma_trees_of(v: CoordinatorView, nodes: Seq<Seq<char>>, k: int)
    requires
        0 <= k < v.trees_of(nodes).len(),
    ensures
        nodes.contains(v.trees_of(nodes)[k].node),
    decreases nodes.len(),
{
    let front = nodes.drop_last();
    let before = v.trees_of(front);
    if k < before.len() {
        lemma_trees_of(v, front, k);
        let i = choose|i: int| 0 <= i < front.len() && front[i] == before[k].node;
        assert(nodes[i] == before[k].node);
    } else {
        assert(nodes[nodes.len() - 1] == nodes.last());
    }
}

/// The machine that a row names.
pub open spec fn row_node(row: TreeItemView) -> Option<Seq<char>> {
    match row {
        TreeItemView::Cgroup { data, .. } => data.node,
        TreeItemView::Process { data, .. } => data.node,
    }
}

/// Every machine that a row names is one of these.
pub open spec fn name_only(rows: Seq<TreeItemView>, nodes: Set<Seq<char>>) -> bool {
    forall|i: int|
        0 <= i < rows.len() ==> (row_node(#[trigger] rows[i]) matches Some(node) ==> nodes.contains(node))
}

proof fn lemma_name_only_add(a: Seq<TreeItemView>, b: Seq<TreeItemView>, nodes: Set<Seq<char>>)
    requires
        name_only(a, nodes),
        name_only(b, nodes),
    ensures
        name_only(a + b, nodes),
{
    assert forall|i: int| 0 <= i < (a + b).len() implies (row_node(#[trigger] (a + b)[i]) matches Some(
        node,
    ) ==> nodes.contains(node)) by {
        if i < a.len() {
            assert((a + b)[i] == a[i]);
        } else {
            assert((a + b)[i] == b[i - a.len()]);
        }
    }
}

/// What is looked at is on one of these machines.
pub open spec fn looks_at(look: LookView, nodes: Set<Seq<char>>) -> bool {
    look.node matches Some(node) ==> nodes.contains(node)
}

proof fn lemma_family_nodes(
    list: Seq<ProcessView>,
    members: Seq<int>,
    n: nat,
    look: LookView,
    cgroup_prefix: Seq<char>,
    prefix: Seq<char>,
    levels: nat,
    nodes: Set<Seq<char>>,
)
    requires
        looks_at(look, nodes),
    ensures
        name_only(
            family_rows(list, members, n, look, cgroup_prefix, prefix, levels),
            nodes,
        ),
    decreases levels, n,
{
    if n > 0 && levels > 0 {
        let before = family_rows(
            list,
            members,
            (n - 1) as nat,
            look,
            cgroup_prefix,
            prefix,
            levels,
        );
        let i = members[n - 1];
        let is_last = n == members.len();
        let row = TreeItemView::Process {
            data: flat_process(list[i], look.node),
            is_last,
            cgroup_prefix,
            process_prefix: prefix,
        };
        let children = ranked_family(list, Some(list[i].pid), look);
        let below = family_rows(
            list,
            children,
            children.len(),
            look,
            cgroup_prefix,
            below_process(prefix, is_last),
            (levels - 1) as nat,
        );
        lemma_family_nodes(
            list,
            members,
            (n - 1) as nat,
            look,
            cgroup_prefix,
            prefix,
            levels,
            nodes,
        );
        lemma_family_nodes(
            list,
            children,
            children.len(),
            look,
            cgroup_prefix,
            below_process(prefix, is_last),
            (levels - 1) as nat,
            nodes,
        );
        let one = process_rows(
            list,
            i,
            look,
            cgroup_prefix,
            is_last,
            prefix,
            (levels - 1) as nat,
        );
        assert(one == seq![row] + below);
        lemma_name_only_add(seq![row], below, nodes);
        lemma_name_only_add(before, one, nodes);
    }
}

proof fn lemma_cgroup_nodes(
    v: CgroupView,
    look: LookView,
    depth: usize,
    is_last: bool,
    parent_prefix: Seq<char>,
    nodes: Set<Seq<char>>,
)
    requires
        looks_at(look, nodes),
    ensures
        name_only(cgroup_rows(v, look, depth, is_last, parent_prefix), nodes),
    decreases v, v.children.len() + 1,
{
    let prefix = below_cgroup(depth, is_last, parent_prefix);
    let next = depth.saturating_add(1);
    let row = TreeItemView::Cgroup {
        data: flat_cgroup(row_name(v.name, depth, look.node), look.node, shown_of(v.metrics)),
        depth,
        is_last,
        prefix: own_prefix(depth, parent_prefix),
    };
    let inner = child_rows(v, v.children.len(), look, next, prefix);
    lemma_child_nodes(v, v.children.len(), look, next, prefix, nodes);
    let roots = ranked_family(v.processes, None, look);
    lemma_family_nodes(
        v.processes,
        roots,
        roots.len(),
        look,
        prefix,
        seq![],
        v.processes.len(),
        nodes,
    );
    lemma_name_only_add(seq![row], inner, nodes);
    lemma_name_only_add(seq![row] + inner, forest_rows(v.processes, look, prefix), nodes);
}

proof fn lemma_child_nodes(
    v: CgroupView,
    n: nat,
    look: LookView,
    depth: usize,
    prefix: Seq<char>,
    nodes: Set<Seq<char>>,
)
    requires
        looks_at(look, nodes),
    ensures
        name_only(child_rows(v, n, look, depth, prefix), nodes),
    decreases v, n,
{
    let order = child_order(v, look);
    if n == 0 || n > v.children.len() || !(0 <= order[n - 1] < v.children.len()) {
    } else {
        let is_last = n == v.children.len() && v.processes.len() == 0;
        let child = v.children[order[n - 1]];
        lemma_child_nodes(v, (n - 1) as nat, look, depth, prefix, nodes);
        lemma_cgroup_nodes(child, look, depth, is_last, prefix, nodes);
        lemma_name_only_add(
            child_rows(v, (n - 1) as nat, look, depth, prefix),
            cgroup_rows(child, look, depth, is_last, prefix),
            nodes,
        );
    }
}

/// These cgroups are on these machines.
pub open spec fn all_on(list: Seq<Placed>, nodes: Set<Seq<char>>) -> bool {
    forall|i: int| 0 <= i < list.len() ==> nodes.contains((#[trigger] list[i]).node)
}

/// A cgroup and those below it are on these machines.
pub open spec fn merged_on(m: MergedView, nodes: Set<Seq<char>>) -> bool
    decreases m,
{
    &&& all_on(m.node_data, nodes)
    &&& forall|i: int| 0 <= i < m.children.len() ==> merged_on(#[trigger] m.children[i], nodes)
}

proof fn lemma_running_on(list: Seq<Placed>, nodes: Set<Seq<char>>, k: int)
    requires
        all_on(list, nodes),
        0 <= k < running_on(list).len(),
    ensures
        nodes.contains(running_on(list)[k].node),
    decreases list.len(),
{
    let front = list.drop_last();
    let before = running_on(front);
    assert forall|i: int| 0 <= i < front.len() implies nodes.contains((#[trigger] front[i]).node) by {
        assert(front[i] == list[i]);
    }
    if k < before.len() {
        lemma_running_on(front, nodes, k);
        assert(running_on(list)[k] == before[k]);
    } else {
        assert(list[list.len() - 1] == list.last());
        assert(running_on(list)[k] == running_in(list.last())[k - before.len()]);
    }
}

proof fn lemma_running_nodes(
    list: Seq<Running>,
    column: SortColumn,
    direction: SortDirection,
    prefix: Seq<char>,
    nodes: Set<Seq<char>>,
)
    requires
        forall|k: int| 0 <= k < list.len() ==> nodes.contains((#[trigger] list[k]).node),
    ensures
        name_only(running_rows(list, column, direction, prefix), nodes),
{
    let keys = list.map_values(|e: Running| process_key(e.process, column));
    sorted_is_permutation(keys, direction);
    let order = sorted(keys, direction);
    let rows = running_rows(list, column, direction, prefix);
    assert forall|i: int| 0 <= i < rows.len() implies (row_node(#[trigger] rows[i]) matches Some(node)
        ==> nodes.contains(node)) by {
        assert(0 <= order[i] < list.len());
        assert(nodes.contains(list[order[i]].node));
    }
}

proof fn lemma_separate_nodes(
    m: MergedView,
    n: nat,
    column: SortColumn,
    direction: SortDirection,
    depth: usize,
    is_last: bool,
    parent_prefix: Seq<char>,
    nodes: Set<Seq<char>>,
)
    requires
        all_on(m.node_data, nodes),
        n <= m.node_data.len(),
    ensures
        name_only(
            separate_rows(m, n, column, direction, depth, is_last, parent_prefix),
            nodes,
        ),
    decreases n,
{
    if n > 0 {
        let e = m.node_data[n - 1];
        assert(nodes.contains(e.node));
        let node_is_last = n == m.node_data.len() && is_last;
        let row = TreeItemView::Cgroup {
            data: flat_cgroup(m.name, Some(e.node), shown_of(e.cgroup.metrics)),
            depth,
            is_last: node_is_last,
            prefix: own_prefix(depth, parent_prefix),
        };
        let prefix = below_cgroup(depth, node_is_last, parent_prefix);
        let look = LookView { node: Some(e.node), column, direction };
        let next = depth.saturating_add(1);
        let before = separate_rows(
            m,
            (n - 1) as nat,
            column,
            direction,
            depth,
            is_last,
            parent_prefix,
        );
        let inner = child_rows(e.cgroup, e.cgroup.children.len(), look, next, prefix);
        let own = running_rows(running_in(e), column, direction, prefix);
        lemma_separate_nodes(
            m,
            (n - 1) as nat,
            column,
            direction,
            depth,
            is_last,
            parent_prefix,
            nodes,
        );
        lemma_child_nodes(e.cgroup, e.cgroup.children.len(), look, next, prefix, nodes);
        lemma_running_nodes(running_in(e), column, direction, prefix, nodes);
        lemma_name_only_add(seq![row], inner, nodes);
        lemma_name_only_add(seq![row] + inner, own, nodes);
        lemma_name_only_add(before, seq![row] + inner + own, nodes);
    }
}

proof fn lemma_merged_nodes(
    m: MergedView,
    column: SortColumn,
    direction: SortDirection,
    depth: usize,
    is_last: bool,
    parent_prefix: Seq<char>,
    nodes: Set<Seq<char>>,
)
    requires
        merged_on(m, nodes),
    ensures
        name_only(merged_rows(m, column, direction, depth, is_last, parent_prefix), nodes),
    decreases m, m.children.len() + 1,
{
    if m.node_data.len() == 0 {
    } else if m.is_shared || m.node_data.len() == 1 {
        assert(nodes.contains(m.node_data[0].node));
        let node = if m.node_data.len() == 1 { Some(m.node_data[0].node) } else { None };
        let row = TreeItemView::Cgroup {
            data: flat_cgroup(m.name, node, aggregated(m.node_data)),
            depth,
            is_last,
            prefix: own_prefix(depth, parent_prefix),
        };
        let prefix = below_cgroup(depth, is_last, parent_prefix);
        let next = depth.saturating_add(1);
        let inner = merged_child_rows(m, m.children.len(), column, direction, next, prefix);
        let own = running_rows(running_on(m.node_data), column, direction, prefix);
        lemma_merged_child_nodes(m, m.children.len(), column, direction, next, prefix, nodes);
        assert forall|k: int| 0 <= k < running_on(m.node_data).len() implies nodes.contains(
            (#[trigger] running_on(m.node_data)[k]).node,
        ) by {
            lemma_running_on(m.node_data, nodes, k);
        }
        lemma_running_nodes(running_on(m.node_data), column, direction, prefix, nodes);
        lemma_name_only_add(seq![row], inner, nodes);
        lemma_name_only_add(seq![row] + inner, own, nodes);
    } else {
        lemma_separate_nodes(
            m,
            m.node_data.len(),
            column,
            direction,
            depth,
            is_last,
            parent_prefix,
            nodes,
        );
    }
}

proof fn lemma_merged_child_nodes(
    m: MergedView,
    n: nat,
    column: SortColumn,
    direction: SortDirection,
    depth: usize,
    prefix: Seq<char>,
    nodes: Set<Seq<char>>,
)
    requires
        merged_on(m, nodes),
    ensures
        name_only(merged_child_rows(m, n, column, direction, depth, prefix), nodes),
    decreases m, n,
{
    let order = merged_order(m, column, direction);
    if n == 0 || n > m.children.len() || !(0 <= order[n - 1] < m.children.len()) {
    } else {
        let child = m.children[order[n - 1]];
        let is_last = n == m.children.len() && running_on(m.node_data).len() == 0;
        lemma_merged_child_nodes(m, (n - 1) as nat, column, direction, depth, prefix, nodes);
        lemma_merged_nodes(child, column, direction, depth, is_last, prefix, nodes);
        lemma_name_only_add(
            merged_child_rows(m, (n - 1) as nat, column, direction, depth, prefix),
            merged_rows(child, column, direction, depth, is_last, prefix),
            nodes,
        );
    }
}

proof fn lemma_children_on(list: Seq<Placed>, nodes: Set<Seq<char>>, k: int)
    requires
        all_on(list, nodes),
        0 <= k < children_of(list).len(),
    ensures
        nodes.contains(children_of(list)[k].node),
    decreases list.len(),
{
    let front = list.drop_last();
    let before = children_of(front);
    assert forall|i: int| 0 <= i < front.len() implies nodes.contains((#[trigger] front[i]).node) by {
        assert(front[i] == list[i]);
    }
    if k < before.len() {
        lemma_children_on(front, nodes, k);
        assert(children_of(list)[k] == before[k]);
    } else {
        assert(list[list.len() - 1] == list.last());
        assert(children_of(list)[k].node == list.last().node);
    }
}

proof fn lemma_merged_on(list: Seq<Placed>, nodes: Set<Seq<char>>, i: int)
    requires
        all_on(list, nodes),
        0 <= i < merged_children(list).len(),
    ensures
        merged_on(merged_children(list)[i], nodes),
    decreases tallest(list),
{
    let below = children_of(list);
    let name = names_of(below)[i];
    let group = named(below, name);
    assert forall|k: int| 0 <= k < group.len() implies nodes.contains((#[trigger] group[k]).node) by {
        below.lemma_filter_contains_rev(|e: Placed| e.cgroup.name == name, group[k]);
        let p = choose|p: int| 0 <= p < below.len() && below[p] == group[k];
        lemma_children_on(list, nodes, p);
    }
    let m = merged_children(list)[i];
    assert forall|k: int| 0 <= k < m.children.len() implies merged_on(#[trigger] m.children[k], nodes) by {
        if tallest(group) < tallest(list) {
            lemma_merged_on(group, nodes, k);
        }
    }
}

/// The rows name no machine but those whose trees they show.
pub proof fn rows_name_shown_machines(
    list: Seq<Placed>,
    column: SortColumn,
    direction: SortDirection,
    nodes: Set<Seq<char>>,
)
    requires
        all_on(list, nodes),
    ensures
        name_only(merged_rows(merged_trees(list), column, direction, 0, true, seq![]), nodes),
{
    let m = merged_trees(list);
    if list.len() > 0 {
        assert forall|i: int| 0 <= i < m.children.len() implies merged_on(
            #[trigger] m.children[i],
            nodes,
        ) by {
            lemma_merged_on(list, nodes, i);
        }
    }
    lemma_merged_nodes(m, column, direction, 0, true, seq![], nodes);
}

/// Finitely many names have an order.
pub proof fn names_have_an_order(names: Set<Seq<char>>)
    requires
        names.finite(),
    ensures
        ascending(in_order(names)),
        in_order(names).to_set() == names,
    decreases names.len(),
{
    if names.len() == 0 {
        let none = Seq::<Seq<char>>::empty();
        assert(names =~= Set::empty());
        assert(none.to_set() =~= names);
        assert(ascending(none));
    } else {
        let x = names.choose();
        let rest = names.remove(x);
        names_have_an_order(rest);
        let s = in_order(rest);
        lemma_with_name(s, x);
        let t = with_name(s, x);
        assert forall|k: Seq<char>| t.to_set().contains(k) == names.contains(k) by {
            assert(t.contains(k) == (s.contains(k) || k == x));
            assert(s.to_set().contains(k) == rest.contains(k));
        }
        assert(t.to_set() =~= names);
        assert(ascending(t));
    }
}

/// After a collector is gone, no row names its machine.
pub proof fn disconnected_machine_has_no_rows(v: CoordinatorView, node: Seq<char>)
    requires
        v.node_snapshots.dom().finite(),
    ensures
        forall|i: int|
            0 <= i < v.disconnected(node).rows().len() ==> row_node(
                #[trigger] v.disconnected(node).rows()[i],
            ) != Some(node),
{
    let w = v.disconnected(node);
    let list = w.trees_of(w.nodes());
    let others = w.node_snapshots.dom();
    names_have_an_order(others);
    assert forall|i: int| 0 <= i < list.len() implies others.contains((#[trigger] list[i]).node) by {
        lemma_trees_of(w, w.nodes(), i);
        assert(w.nodes().to_set().contains(list[i].node));
    }
    rows_name_shown_machines(list, w.sort_column, w.sort_direction, others);
    assert(!others.contains(node));
}

}
