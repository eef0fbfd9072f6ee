//! Another order of the rows of a job shows the same.

use vstd::prelude::*;
use crate::resorted::{lemma_all_children_contents, same_rows, showing, Contents};
use crate::row_laws::{count, lemma_count_add, lemma_count_none, lemma_count_one};
use crate::rows::{
    below_cgroup, child_rows, flat_cgroup, flat_process, own_prefix, shown_of, LookView,
    TreeItemView,
};
use crate::slurm::coordinator::CoordinatorView;
use crate::slurm::flatten::{
    aggregated, merged_child_rows, merged_order, merged_rows, running_in, running_on, running_rows,
    separate_rows, Running,
};
use crate::slurm::laws::lemma_same_trees;
use crate::slurm::merge::{merged_trees, MergedView};
use crate::slurm::shown::{merged_keys, running_keys};
use crate::sort::{
    sorted, sorted_is_permutation, sorting_keeps_totals, total, total_below, SortColumn,
    SortDirection,
};

verus! {

/// Whether a process of a list is what is shown.
pub open spec fn running_shows(list: Seq<Running>, c: Contents) -> spec_fn(int) -> nat {
    |i: int|
        if Contents::Process(flat_process(list[i].process, Some(list[i].node))) == c {
            1nat
        } else {
            0
        }
}

proof fn lemma_running_contents(
    list: Seq<Running>,
    column: SortColumn,
    direction: SortDirection,
    prefix: Seq<char>,
    n: nat,
    c: Contents,
)
    requires
        n <= list.len(),
    ensures
        count(running_rows(list, column, direction, prefix).take(n as int), showing(c)) == total(
            sorted(running_keys(list, column), direction).take(n as int),
            running_shows(list, c),
        ),
    decreases n,
{
    let keys = running_keys(list, column);
    let order = sorted(keys, direction);
    let rows = running_rows(list, column, direction, prefix);
    sorted_is_permutation(keys, direction);
    lemma_count_none(showing(c));
    if n == 0 {
        assert(rows.take(0) =~= seq![]);
    } else {
        lemma_running_contents(list, column, direction, prefix, (n - 1) as nat, c);
        let row = rows[n - 1];
        assert(rows.take(n as int) =~= rows.take(n - 1) + seq![row]);
        lemma_count_one(row, showing(c));
        lemma_count_add(rows.take(n - 1), seq![row], showing(c));
        assert(order.take(n as int).drop_last() =~= order.take(n - 1));
        assert(order.take(n as int).last() == order[n - 1]);
    }
}

proof fn lemma_all_running_contents(
    list: Seq<Running>,
    column: SortColumn,
    direction: SortDirection,
    prefix: Seq<char>,
    c: Contents,
)
    ensures
        count(running_rows(list, column, direction, prefix), showing(c)) == total_below(
            list.len(),
            running_shows(list, c),
        ),
{
    let keys = running_keys(list, column);
    let order = sorted(keys, direction);
    let rows = running_rows(list, column, direction, prefix);
    sorted_is_permutation(keys, direction);
    lemma_running_contents(list, column, direction, prefix, list.len(), c);
    sorting_keeps_totals(keys, direction, running_shows(list, c));
    assert(rows.take(list.len() as int) =~= rows);
    assert(order.take(list.len() as int) =~= order);
}

/// How rows are sorted and where they stand.
pub struct Frame {
    pub column: SortColumn,
    pub direction: SortDirection,
    pub is_last: bool,
    pub prefix: Seq<char>,
}

/// The order of the names, without branches.
pub open spec fn plain_frame() -> Frame {
    Frame {
        column: SortColumn::Name,
        direction: SortDirection::Ascending,
        is_last: false,
        prefix: seq![],
    }
}

proof fn lemma_separate_contents(
    m: MergedView,
    n: nat,
    depth: usize,
    a: Frame,
    b: Frame,
    c: Contents,
)
    requires
        n <= m.node_data.len(),
    ensures
        count(
            separate_rows(m, n, a.column, a.direction, depth, a.is_last, a.prefix),
            showing(c),
        ) == count(
            separate_rows(m, n, b.column, b.direction, depth, b.is_last, b.prefix),
            showing(c),
        ),
    decreases n,
{
    if n > 0 {
        lemma_separate_contents(m, (n - 1) as nat, depth, a, b, c);
        lemma_one_machine(m, n, depth, a, c);
        lemma_one_machine(m, n, depth, b, c);
    }
}

/// What the rows of a cgroup on one more machine show.
proof fn lemma_one_machine(m: MergedView, n: nat, depth: usize, a: Frame, c: Contents)
    requires
        0 < n <= m.node_data.len(),
    ensures
        ({
            let e = m.node_data[n - 1];
            let next = depth.saturating_add(1);
            let weight = crate::resorted::cgroup_weight(e.cgroup, Some(e.node), next, c);
            count(
                separate_rows(m, n, a.column, a.direction, depth, a.is_last, a.prefix),
                showing(c),
            ) == count(
                separate_rows(m, (n - 1) as nat, a.column, a.direction, depth, a.is_last, a.prefix),
                showing(c),
            ) + (if Contents::Cgroup(
                flat_cgroup(m.name, Some(e.node), shown_of(e.cgroup.metrics)),
                depth,
            ) == c {
                1nat
            } else {
                0
            }) + total_below(e.cgroup.children.len(), weight) + total_below(
                running_in(e).len(),
                running_shows(running_in(e), c),
            )
        }),
{
    let e = m.node_data[n - 1];
    let node_is_last = n == m.node_data.len() && a.is_last;
    let row = TreeItemView::Cgroup {
        data: flat_cgroup(m.name, Some(e.node), shown_of(e.cgroup.metrics)),
        depth,
        is_last: node_is_last,
        prefix: own_prefix(depth, a.prefix),
    };
    let prefix = below_cgroup(depth, node_is_last, a.prefix);
    let look = LookView { node: Some(e.node), column: a.column, direction: a.direction };
    let next = depth.saturating_add(1);
    let inner = child_rows(e.cgroup, e.cgroup.children.len(), look, next, prefix);
    let own = running_rows(running_in(e), a.column, a.direction, prefix);
    lemma_all_children_contents(e.cgroup, look, next, prefix, c);
    lemma_all_running_contents(running_in(e), a.column, a.direction, prefix, c);
    lemma_count_one(row, showing(c));
    lemma_count_add(seq![row], inner, showing(c));
    lemma_count_add(seq![row] + inner, own, showing(c));
    lemma_count_add(
        separate_rows(m, (n - 1) as nat, a.column, a.direction, depth, a.is_last, a.prefix),
        seq![row] + inner + own,
        showing(c),
    );
}

/// How often something is shown in the rows of a child on its machines.
pub open spec fn merged_shows(m: MergedView, depth: usize, c: Contents) -> spec_fn(int) -> nat {
    |i: int|
        count(
            merged_rows(
                m.children[i],
                plain_frame().column,
                plain_frame().direction,
                depth,
                plain_frame().is_last,
                plain_frame().prefix,
            ),
            showing(c),
        )
}

proof fn lemma_merged_child_contents(
    m: MergedView,
    n: nat,
    column: SortColumn,
    direction: SortDirection,
    depth: usize,
    prefix: Seq<char>,
    c: Contents,
)
    requires
        n <= m.children.len(),
    ensures
        count(merged_child_rows(m, n, column, direction, depth, prefix), showing(c)) == total(
            merged_order(m, column, direction).take(n as int),
            merged_shows(m, depth, c),
        ),
    decreases m, n,
{
    let order = merged_order(m, column, direction);
    let keys = merged_keys(m, column);
    assert(order == sorted(keys, direction));
    sorted_is_permutation(keys, direction);
    lemma_count_none(showing(c));
    if n > 0 {
        lemma_merged_child_contents(m, (n - 1) as nat, column, direction, depth, prefix, c);
        let i = order[n - 1];
        assert(0 <= i < m.children.len());
        let child = m.children[i];
        let is_last = n == m.children.len() && running_on(m.node_data).len() == 0;
        let here = Frame { column, direction, is_last, prefix };
        lemma_merged_contents(child, depth, here, plain_frame(), c);
        lemma_count_add(
            merged_child_rows(m, (n - 1) as nat, column, direction, depth, prefix),
            merged_rows(child, column, direction, depth, is_last, prefix),
            showing(c),
        );
        assert(order.take(n as int).drop_last() =~= order.take(n - 1));
        assert(order.take(n as int).last() == i);
    }
}

/// What the rows of a cgroup that is shown together show.
proof fn lemma_together_contents(m: MergedView, depth: usize, a: Frame, c: Contents)
    requires
        m.node_data.len() > 0,
        m.is_shared || m.node_data.len() == 1,
    ensures
        ({
            let node = if m.node_data.len() == 1 { Some(m.node_data[0].node) } else { None };
            let next = depth.saturating_add(1);
            let own = running_on(m.node_data);
            count(
                merged_rows(m, a.column, a.direction, depth, a.is_last, a.prefix),
                showing(c),
            ) == (if Contents::Cgroup(flat_cgroup(m.name, node, aggregated(m.node_data)), depth)
                == c {
                1nat
            } else {
                0
            }) + total_below(m.children.len(), merged_shows(m, next, c)) + total_below(
                own.len(),
                running_shows(own, c),
            )
        }),
    decreases m, m.children.len() + 1,
{
    let node = if m.node_data.len() == 1 { Some(m.node_data[0].node) } else { None };
    let row = TreeItemView::Cgroup {
        data: flat_cgroup(m.name, node, aggregated(m.node_data)),
        depth,
        is_last: a.is_last,
        prefix: own_prefix(depth, a.prefix),
    };
    let prefix = below_cgroup(depth, a.is_last, a.prefix);
    let next = depth.saturating_add(1);
    let n = m.children.len();
    let inner = merged_child_rows(m, n, a.column, a.direction, next, prefix);
    let own = running_rows(running_on(m.node_data), a.column, a.direction, prefix);
    let keys = merged_keys(m, a.column);
    let order = merged_order(m, a.column, a.direction);
    assert(order == sorted(keys, a.direction));
    lemma_merged_child_contents(m, n, a.column, a.direction, next, prefix, c);
    sorted_is_permutation(keys, a.direction);
    sorting_keeps_totals(keys, a.direction, merged_shows(m, next, c));
    assert(order.take(n as int) =~= order);
    lemma_all_running_contents(running_on(m.node_data), a.column, a.direction, prefix, c);
    lemma_count_one(row, showing(c));
    lemma_count_add(seq![row], inner, showing(c));
    lemma_count_add(seq![row] + inner, own, showing(c));
}

proof fn lemma_merged_contents(m: MergedView, depth: usize, a: Frame, b: Frame, c: Contents)
    ensures
        count(
            merged_rows(m, a.column, a.direction, depth, a.is_last, a.prefix),
            showing(c),
        ) == count(merged_rows(m, b.column, b.direction, depth, b.is_last, b.prefix), showing(c)),
    decreases m, m.children.len() + 2,
{
    if m.node_data.len() == 0 {
    } else if m.is_shared || m.node_data.len() == 1 {
        lemma_together_contents(m, depth, a, c);
        lemma_together_contents(m, depth, b, c);
    } else {
        lemma_separate_contents(m, m.node_data.len(), depth, a, b, c);
    }
}

/// Sorting the rows of a job by another column or in the other direction shows the same rows, with
/// the same rates: at most their order and their branches differ.
pub proof fn sorting_keeps_every_rate(
    v: CoordinatorView,
    column: SortColumn,
    direction: SortDirection,
)
    ensures
        ({
            let w = CoordinatorView {
                sort_column: column,
                sort_direction: direction,
                needs_rebuild: true,
                ..v.rebuilt()
            };
            same_rows(w.rebuilt().items, v.rebuilt().items)
        }),
{
    let w = CoordinatorView {
        sort_column: column,
        sort_direction: direction,
        needs_rebuild: true,
        ..v.rebuilt()
    };
    lemma_same_trees(w, v, v.nodes());
    let m = merged_trees(v.trees_of(v.nodes()));
    let a = Frame { column, direction, is_last: true, prefix: seq![] };
    let b = Frame {
        column: v.sort_column,
        direction: v.sort_direction,
        is_last: true,
        prefix: seq![],
    };
    assert forall|c: Contents| #[trigger] count(w.rebuilt().items, showing(c)) == count(
        v.rebuilt().items,
        showing(c),
    ) by {
        lemma_merged_contents(m, 0, a, b, c);
    }
}

}
