//! What the rows show of a tree: every cgroup once, and every process once.

use vstd::prelude::*;
use crate::cgroup::types::CgroupView;
use crate::process::forest::{distinct_pids, heights_can_be_low, lowered};
use crate::process::types::{descends, listed, ProcessView};
use crate::rows::{
    below_cgroup, below_process, cgroup_key, cgroup_rows, child_order, child_rows, family,
    family_keys, family_rows, flat_cgroup, flat_process, forest_rows, own_prefix, process_key,
    process_rows, ranked_family, row_name, shown_of, LookView, TreeItemView,
};
use crate::sort::{
    comparable, comparable_is_consistent, precedes, sorted, sorted_is_in_order,
    sorted_is_permutation, sorting_keeps_totals, total, total_below,
};

verus! {

/// The number of rows of some kind.
pub open spec fn count(rows: Seq<TreeItemView>, kind: spec_fn(TreeItemView) -> bool) -> nat {
    rows.filter(kind).len()
}

pub proof fn lemma_count_add(
    a: Seq<TreeItemView>,
    b: Seq<TreeItemView>,
    kind: spec_fn(TreeItemView) -> bool,
)
    ensures
        count(a + b, kind) == count(a, kind) + count(b, kind),
{
    Seq::filter_distributes_over_add(a, b, kind);
}

pub proof fn lemma_count_one(row: TreeItemView, kind: spec_fn(TreeItemView) -> bool)
    ensures
        count(seq![row], kind) == (if kind(row) {
            1nat
        } else {
            0
        }),
{
    reveal(Seq::filter);
    assert(seq![row].drop_last() =~= seq![]);
    assert(seq![row].drop_last().filter(kind) =~= seq![]);
}

pub proof fn lemma_count_none(kind: spec_fn(TreeItemView) -> bool)
    ensures
        count(seq![], kind) == 0,
{
    reveal(Seq::filter);
}

/// The row of a cgroup.
pub open spec fn is_cgroup_row(row: TreeItemView) -> bool {
    row is Cgroup
}

/// The row of the process with an ID.
pub open spec fn is_row_of(row: TreeItemView, pid: u32) -> bool {
    match row {
        TreeItemView::Process { data, .. } => data.pid == pid,
        TreeItemView::Cgroup { .. } => false,
    }
}

pub open spec fn rows_of(rows: Seq<TreeItemView>, pid: u32) -> nat {
    count(rows, |row: TreeItemView| is_row_of(row, pid))
}

pub open spec fn cgroup_row_count(rows: Seq<TreeItemView>) -> nat {
    count(rows, |row: TreeItemView| is_cgroup_row(row))
}

/// The number of cgroups in a tree.
pub open spec fn cgroup_count(v: CgroupView) -> nat
    decreases v, v.children.len() + 1,
{
    1 + cgroup_count_in(v, v.children.len())
}

/// The number of cgroups in the first `n` children of a cgroup and below them.
pub open spec fn cgroup_count_in(v: CgroupView, n: nat) -> nat
    decreases v, n,
{
    if n == 0 || n > v.children.len() {
        0
    } else {
        cgroup_count_in(v, (n - 1) as nat) + cgroup_count(v.children[n - 1])
    }
}

proof fn lemma_no_cgroup_rows(
    list: Seq<ProcessView>,
    members: Seq<int>,
    n: nat,
    look: LookView,
    cgroup_prefix: Seq<char>,
    prefix: Seq<char>,
    levels: nat,
)
    ensures
        cgroup_row_count(
            family_rows(list, members, n, look, cgroup_prefix, prefix, levels),
        ) == 0,
    decreases levels, n,
{
    let kind = |row: TreeItemView| is_cgroup_row(row);
    lemma_count_none(kind);
    if n > 0 && levels > 0 {
        let before = family_rows(
            list,
            members,
            (n - 1) as nat,
            look,
            cgroup_prefix,
            prefix,
            levels,
        );
        let i = members[n - 1];
        let is_last = n == members.len();
        let row = TreeItemView::Process {
            data: flat_process(list[i], look.node),
            is_last,
            cgroup_prefix,
            process_prefix: prefix,
        };
        let children = ranked_family(list, Some(list[i].pid), look);
        let below = family_rows(
            list,
            children,
            children.len(),
            look,
            cgroup_prefix,
            below_process(prefix, is_last),
            (levels - 1) as nat,
        );
        lemma_no_cgroup_rows(
            list,
            members,
            (n - 1) as nat,
            look,
            cgroup_prefix,
            prefix,
            levels,
        );
        lemma_no_cgroup_rows(
            list,
            children,
            children.len(),
            look,
            cgroup_prefix,
            below_process(prefix, is_last),
            (levels - 1) as nat,
        );
        let one = process_rows(
            list,
            i,
            look,
            cgroup_prefix,
            is_last,
            prefix,
            (levels - 1) as nat,
        );
        assert(one == seq![row] + below);
        lemma_count_one(row, kind);
        lemma_count_add(seq![row], below, kind);
        lemma_count_add(before, one, kind);
    }
}

proof fn lemma_child_row_count(
    v: CgroupView,
    n: nat,
    look: LookView,
    depth: usize,
    prefix: Seq<char>,
)
    requires
        n <= v.children.len(),
    ensures
        cgroup_row_count(child_rows(v, n, look, depth, prefix)) == total(
            child_order(v, look).take(n as int),
            |i: int| cgroup_count(v.children[i]),
        ),
    decreases v, n,
{
    let kind = |row: TreeItemView| is_cgroup_row(row);
    let f = |i: int| cgroup_count(v.children[i]);
    let order = child_order(v, look);
    let keys = v.children.map_values(
        |c: CgroupView| cgroup_key(c.name, shown_of(c.metrics), look.column),
    );
    sorted_is_permutation(keys, look.direction);
    lemma_count_none(kind);
    if n > 0 {
        lemma_child_row_count(v, (n - 1) as nat, look, depth, prefix);
        assert(0 <= order[n - 1] < v.children.len());
        let child = v.children[order[n - 1]];
        let is_last = n == v.children.len() && v.processes.len() == 0;
        every_cgroup_has_one_row(child, look, depth, is_last, prefix);
        lemma_count_add(
            child_rows(v, (n - 1) as nat, look, depth, prefix),
            cgroup_rows(child, look, depth, is_last, prefix),
            kind,
        );
        assert(order.take(n as int).drop_last() =~= order.take(n - 1));
        assert(order.take(n as int).last() == order[n - 1]);
    }
}

proof fn lemma_cgroup_total(v: CgroupView, n: nat)
    requires
        n <= v.children.len(),
    ensures
        total_below(n, |i: int| cgroup_count(v.children[i])) == cgroup_count_in(v, n),
    decreases n,
{
    if n > 0 {
        lemma_cgroup_total(v, (n - 1) as nat);
    }
}

/// The rows of a tree hold as many cgroups as the tree: whatever the order, each has its row.
pub proof fn every_cgroup_has_one_row(
    v: CgroupView,
    look: LookView,
    depth: usize,
    is_last: bool,
    parent_prefix: Seq<char>,
)
    ensures
        cgroup_row_count(cgroup_rows(v, look, depth, is_last, parent_prefix)) == cgroup_count(v),
    decreases v, v.children.len() + 1,
{
    let kind = |row: TreeItemView| is_cgroup_row(row);
    let prefix = below_cgroup(depth, is_last, parent_prefix);
    let next = depth.saturating_add(1);
    let row = TreeItemView::Cgroup {
        data: flat_cgroup(row_name(v.name, depth, look.node), look.node, shown_of(v.metrics)),
        depth,
        is_last,
        prefix: own_prefix(depth, parent_prefix),
    };
    let inner = child_rows(v, v.children.len(), look, next, prefix);
    let own = forest_rows(v.processes, look, prefix);
    lemma_child_row_count(v, v.children.len(), look, next, prefix);
    let order = child_order(v, look);
    let keys = v.children.map_values(
        |c: CgroupView| cgroup_key(c.name, shown_of(c.metrics), look.column),
    );
    let f = |i: int| cgroup_count(v.children[i]);
    sorted_is_permutation(keys, look.direction);
    sorting_keeps_totals(keys, look.direction, f);
    assert(order.take(v.children.len() as int) =~= order);
    lemma_cgroup_total(v, v.children.len());
    let roots = ranked_family(v.processes, None, look);
    lemma_no_cgroup_rows(
        v.processes,
        roots,
        roots.len(),
        look,
        prefix,
        seq![],
        v.processes.len(),
    );
    lemma_count_one(row, kind);
    lemma_count_add(seq![row], inner, kind);
    lemma_count_add(seq![row] + inner, own, kind);
}

/// One for an index, nothing for others.
pub open spec fn only(j: int) -> spec_fn(int) -> nat {
    |i: int| if i == j { 1nat } else { 0 }
}

/// The process at an index is a child of the parent, or has none in the list.
pub open spec fn in_family(list: Seq<ProcessView>, parent: Option<u32>, j: int) -> bool {
    match parent {
        Some(pid) => list[j].ppid == pid,
        None => !listed(list, list[j].ppid),
    }
}

proof fn lemma_family(list: Seq<ProcessView>, parent: Option<u32>, n: nat, j: int)
    requires
        n <= list.len(),
    ensures
        total(family(list, parent, n), only(j)) == (if 0 <= j < n && in_family(list, parent, j) {
            1nat
        } else {
            0
        }),
        forall|k: int|
            0 <= k < family(list, parent, n).len() ==> 0 <= #[trigger] family(list, parent, n)[k] < n
                && in_family(list, parent, family(list, parent, n)[k]),
    decreases n,
{
    if n > 0 {
        lemma_family(list, parent, (n - 1) as nat, j);
        let before = family(list, parent, (n - 1) as nat);
        if in_family(list, parent, n - 1) {
            assert(before.push(n - 1).drop_last() =~= before);
        }
    }
}

pub proof fn lemma_total_mapped(
    order: Seq<int>,
    members: Seq<int>,
    picked: Seq<int>,
    f: spec_fn(int) -> nat,
    g: spec_fn(int) -> nat,
)
    requires
        picked.len() == order.len(),
        forall|k: int| 0 <= k < order.len() ==> picked[k] == members[#[trigger] order[k]],
        forall|m: int| #[trigger] g(m) == f(members[m]),
    ensures
        total(picked, f) == total(order, g),
    decreases order.len(),
{
    if order.len() > 0 {
        assert forall|k: int| 0 <= k < order.len() - 1 implies picked.drop_last()[k]
            == members[#[trigger] order.drop_last()[k]] by {
            assert(order.drop_last()[k] == order[k]);
        }
        lemma_total_mapped(order.drop_last(), members, picked.drop_last(), f, g);
        assert(picked[order.len() - 1] == members[order[order.len() - 1]]);
    }
}

pub proof fn lemma_total_members(members: Seq<int>, n: nat, f: spec_fn(int) -> nat, g: spec_fn(int) -> nat)
    requires
        n <= members.len(),
        forall|m: int| #[trigger] g(m) == f(members[m]),
    ensures
        total_below(n, g) == total(members.take(n as int), f),
    decreases n,
{
    if n > 0 {
        lemma_total_members(members, (n - 1) as nat, f, g);
        assert(members.take(n as int).drop_last() =~= members.take(n - 1));
        assert(members.take(n as int).last() == members[n - 1]);
        assert(g(n - 1) == f(members[n - 1]));
    }
}

/// A family in the order of a column has each of its members once.
pub proof fn lemma_ranked_family(
    list: Seq<ProcessView>,
    parent: Option<u32>,
    look: LookView,
    j: int,
)
    ensures
        total(ranked_family(list, parent, look), only(j)) == (if 0 <= j < list.len() && in_family(
            list,
            parent,
            j,
        ) {
            1nat
        } else {
            0
        }),
        forall|k: int|
            0 <= k < ranked_family(list, parent, look).len() ==> 0 <= #[trigger] ranked_family(
                list,
                parent,
                look,
            )[k] < list.len() && in_family(list, parent, ranked_family(list, parent, look)[k]),
{
    let members = family(list, parent, list.len());
    let keys = family_keys(list, members, look.column);
    let order = sorted(keys, look.direction);
    let picked = ranked_family(list, parent, look);
    let f = only(j);
    let g = |m: int| f(members[m]);
    lemma_family(list, parent, list.len(), j);
    sorted_is_permutation(keys, look.direction);
    sorting_keeps_totals(keys, look.direction, g);
    lemma_total_mapped(order, members, picked, f, g);
    lemma_total_members(members, members.len(), f, g);
    assert(members.take(members.len() as int) =~= members);
    assert forall|k: int| 0 <= k < picked.len() implies 0 <= #[trigger] picked[k] < list.len()
        && in_family(list, parent, picked[k]) by {
        assert(0 <= order[k] < members.len());
        assert(picked[k] == members[order[k]]);
    }
}

/// Counts for the rows of the parent of a process, where it is in the list.
pub open spec fn parent_rows(list: Seq<ProcessView>, rows: Seq<TreeItemView>, j: int) -> nat {
    if listed(list, list[j].ppid) {
        rows_of(rows, list[j].ppid)
    } else {
        0
    }
}

/// A process has a row below every row of its parent, and besides only where its own tree starts.
proof fn lemma_process_rows(
    list: Seq<ProcessView>,
    height: Seq<nat>,
    i: int,
    look: LookView,
    cgroup_prefix: Seq<char>,
    is_last: bool,
    prefix: Seq<char>,
    levels: nat,
    j: int,
)
    requires
        distinct_pids(list),
        descends(list, height),
        0 <= i < list.len(),
        0 <= j < list.len(),
        height[i] <= levels,
    ensures
        ({
            let rows = process_rows(list, i, look, cgroup_prefix, is_last, prefix, levels);
            rows_of(rows, list[j].pid) == only(j)(i) + parent_rows(list, rows, j)
        }),
    decreases levels, 1nat, 0nat,
{
    let rows = process_rows(list, i, look, cgroup_prefix, is_last, prefix, levels);
    let row = TreeItemView::Process {
        data: flat_process(list[i], look.node),
        is_last,
        cgroup_prefix,
        process_prefix: prefix,
    };
    let parent = Some(list[i].pid);
    let children = ranked_family(list, parent, look);
    let inner = below_process(prefix, is_last);
    let below = family_rows(list, children, children.len(), look, cgroup_prefix, inner, levels);
    assert(rows == seq![row] + below);
    lemma_ranked_family(list, parent, look, j);
    assert forall|k: int| 0 <= k < children.len() implies 0 <= #[trigger] children[k] < list.len()
        && height[children[k]] < levels by {
        assert(list[children[k]].ppid == list[i].pid);
    }
    lemma_family_rows(
        list,
        height,
        children,
        children.len(),
        look,
        cgroup_prefix,
        inner,
        levels,
        j,
    );
    assert(children.take(children.len() as int) =~= children);
    let own = |r: TreeItemView| is_row_of(r, list[j].pid);
    let up = |r: TreeItemView| is_row_of(r, list[j].ppid);
    lemma_count_one(row, own);
    lemma_count_one(row, up);
    lemma_count_add(seq![row], below, own);
    lemma_count_add(seq![row], below, up);
    if list[j].ppid == list[i].pid {
        assert(listed(list, list[j].ppid));
    }
}

proof fn lemma_family_rows(
    list: Seq<ProcessView>,
    height: Seq<nat>,
    members: Seq<int>,
    n: nat,
    look: LookView,
    cgroup_prefix: Seq<char>,
    prefix: Seq<char>,
    levels: nat,
    j: int,
)
    requires
        distinct_pids(list),
        descends(list, height),
        0 <= j < list.len(),
        n <= members.len(),
        forall|k: int|
            0 <= k < members.len() ==> 0 <= #[trigger] members[k] < list.len() && height[members[k]]
                < levels,
    ensures
        ({
            let rows = family_rows(list, members, n, look, cgroup_prefix, prefix, levels);
            rows_of(rows, list[j].pid) == total(members.take(n as int), only(j)) + parent_rows(
                list,
                rows,
                j,
            )
        }),
    decreases levels, 0nat, n,
{
    let own = |r: TreeItemView| is_row_of(r, list[j].pid);
    let up = |r: TreeItemView| is_row_of(r, list[j].ppid);
    lemma_count_none(own);
    lemma_count_none(up);
    if n > 0 {
        let i = members[n - 1];
        assert(0 <= i < list.len() && height[i] < levels);
        lemma_family_rows(
            list,
            height,
            members,
            (n - 1) as nat,
            look,
            cgroup_prefix,
            prefix,
            levels,
            j,
        );
        let is_last = n == members.len();
        lemma_process_rows(
            list,
            height,
            i,
            look,
            cgroup_prefix,
            is_last,
            prefix,
            (levels - 1) as nat,
            j,
        );
        let before = family_rows(
            list,
            members,
            (n - 1) as nat,
            look,
            cgroup_prefix,
            prefix,
            levels,
        );
        let one = process_rows(
            list,
            i,
            look,
            cgroup_prefix,
            is_last,
            prefix,
            (levels - 1) as nat,
        );
        lemma_count_add(before, one, own);
        lemma_count_add(before, one, up);
        assert(members.take(n as int).drop_last() =~= members.take(n - 1));
        assert(members.take(n as int).last() == i);
    }
}

proof fn lemma_one_row(
    list: Seq<ProcessView>,
    height: Seq<nat>,
    look: LookView,
    cgroup_prefix: Seq<char>,
    j: int,
)
    requires
        distinct_pids(list),
        descends(list, height),
        forall|i: int| 0 <= i < list.len() ==> #[trigger] height[i] < list.len(),
        0 <= j < list.len(),
    ensures
        rows_of(forest_rows(list, look, cgroup_prefix), list[j].pid) == 1,
    decreases list.len() - height[j],
{
    let roots = ranked_family(list, None, look);
    lemma_ranked_family(list, None, look, j);
    assert forall|k: int| 0 <= k < roots.len() implies 0 <= #[trigger] roots[k] < list.len()
        && height[roots[k]] < list.len() by {
        assert(height[roots[k]] < list.len());
    }
    lemma_family_rows(
        list,
        height,
        roots,
        roots.len(),
        look,
        cgroup_prefix,
        seq![],
        list.len(),
        j,
    );
    assert(roots.take(roots.len() as int) =~= roots);
    if listed(list, list[j].ppid) {
        let p = choose|p: int| 0 <= p < list.len() && (#[trigger] list[p]).pid == list[j].ppid;
        assert(height[j] < height[p]);
        lemma_one_row(list, height, look, cgroup_prefix, p);
    }
}

/// The tree of the processes of a cgroup shows every process exactly once, where no two have the
/// same ID and none descends from itself.
pub proof fn every_process_has_one_row(
    list: Seq<ProcessView>,
    height: Seq<nat>,
    look: LookView,
    cgroup_prefix: Seq<char>,
    j: int,
)
    requires
        distinct_pids(list),
        descends(list, height),
        0 <= j < list.len(),
    ensures
        rows_of(forest_rows(list, look, cgroup_prefix), list[j].pid) == 1,
{
    heights_can_be_low(list, height);
    lemma_one_row(list, lowered(height), look, cgroup_prefix, j);
}

/// The keys of the children of a cgroup.
pub open spec fn child_keys(v: CgroupView, look: LookView) -> Seq<crate::sort::KeyView> {
    v.children.map_values(|c: CgroupView| cgroup_key(c.name, shown_of(c.metrics), look.column))
}

/// The children of a cgroup are shown in the order of the column, those with the same key in the
/// order in which they were read, unless a rate is pending.
pub proof fn children_are_shown_in_order(v: CgroupView, look: LookView, i: int, j: int)
    requires
        comparable(child_keys(v, look)),
        0 <= i < j < v.children.len(),
    ensures
        ({
            let keys = child_keys(v, look);
            let order = child_order(v, look);
            &&& !precedes(keys[order[j]], keys[order[i]], look.direction)
            &&& !precedes(keys[order[i]], keys[order[j]], look.direction) ==> order[i] < order[j]
        }),
{
    let keys = child_keys(v, look);
    comparable_is_consistent(keys, look.direction);
    sorted_is_in_order(keys, look.direction);
    let order = sorted(keys, look.direction);
    assert(order == child_order(v, look));
    assert(!precedes(keys[order[j]], keys[order[i]], look.direction));
}

/// The processes of a family are shown in the order of the column, those with the same key in the
/// order in which they were read, unless a rate is pending.
pub proof fn family_is_shown_in_order(
    list: Seq<ProcessView>,
    parent: Option<u32>,
    look: LookView,
    i: int,
    j: int,
)
    requires
        comparable(family_keys(list, family(list, parent, list.len()), look.column)),
        0 <= i < j < ranked_family(list, parent, look).len(),
    ensures
        ({
            let shown = ranked_family(list, parent, look);
            !precedes(
                process_key(list[shown[j]], look.column),
                process_key(list[shown[i]], look.column),
                look.direction,
            )
        }),
{
    let members = family(list, parent, list.len());
    let keys = family_keys(list, members, look.column);
    comparable_is_consistent(keys, look.direction);
    sorted_is_in_order(keys, look.direction);
    sorted_is_permutation(keys, look.direction);
    let order = sorted(keys, look.direction);
    assert(0 <= order[i] < members.len() && 0 <= order[j] < members.len());
    assert(!precedes(keys[order[j]], keys[order[i]], look.direction));
}

/// The row of the process with an ID on a machine.
pub open spec fn is_row_on(row: TreeItemView, node: Option<Seq<char>>, pid: u32) -> bool {
    match row {
        TreeItemView::Process { data, .. } => data.pid == pid && data.node == node,
        TreeItemView::Cgroup { .. } => false,
    }
}

pub open spec fn on(node: Option<Seq<char>>, pid: u32) -> spec_fn(TreeItemView) -> bool {
    |row: TreeItemView| is_row_on(row, node, pid)
}

/// The number of rows of the processes with an ID on a machine.
pub open spec fn rows_on(rows: Seq<TreeItemView>, node: Option<Seq<char>>, pid: u32) -> nat {
    count(rows, on(node, pid))
}

/// Two kinds of which every row is of both or of none have as many rows.
proof fn lemma_count_same(
    rows: Seq<TreeItemView>,
    a: spec_fn(TreeItemView) -> bool,
    b: spec_fn(TreeItemView) -> bool,
)
    requires
        forall|k: int| 0 <= k < rows.len() ==> a(#[trigger] rows[k]) == b(rows[k]),
    ensures
        count(rows, a) == count(rows, b),
    decreases rows.len(),
{
    reveal(Seq::filter);
    if rows.len() > 0 {
        let front = rows.drop_last();
        assert forall|k: int| 0 <= k < front.len() implies a(#[trigger] front[k]) == b(front[k]) by {
            assert(front[k] == rows[k]);
        }
        lemma_count_same(front, a, b);
        assert(a(rows[rows.len() - 1]) == b(rows[rows.len() - 1]));
    }
}

/// The row shows a process of the list, on the machine.
pub open spec fn is_row_from(
    row: TreeItemView,
    list: Seq<ProcessView>,
    node: Option<Seq<char>>,
) -> bool {
    match row {
        TreeItemView::Process { data, .. } => listed(list, data.pid) && data.node == node,
        TreeItemView::Cgroup { .. } => false,
    }
}

/// All rows of a family show processes of the list.
proof fn lemma_family_from(
    list: Seq<ProcessView>,
    members: Seq<int>,
    n: nat,
    look: LookView,
    cgroup_prefix: Seq<char>,
    prefix: Seq<char>,
    levels: nat,
)
    requires
        n <= members.len(),
        forall|k: int| 0 <= k < members.len() ==> 0 <= #[trigger] members[k] < list.len(),
    ensures
        ({
            let rows = family_rows(list, members, n, look, cgroup_prefix, prefix, levels);
            forall|k: int| 0 <= k < rows.len() ==> is_row_from(#[trigger] rows[k], list, look.node)
        }),
    decreases levels, n,
{
    if n > 0 && levels > 0 {
        lemma_family_from(list, members, (n - 1) as nat, look, cgroup_prefix, prefix, levels);
        let i = members[n - 1];
        let is_last = n == members.len();
        let children = ranked_family(list, Some(list[i].pid), look);
        lemma_ranked_family(list, Some(list[i].pid), look, 0);
        let inner = below_process(prefix, is_last);
        lemma_family_from(
            list,
            children,
            children.len(),
            look,
            cgroup_prefix,
            inner,
            (levels - 1) as nat,
        );
        let rows = family_rows(list, members, n, look, cgroup_prefix, prefix, levels);
        let before = family_rows(
            list,
            members,
            (n - 1) as nat,
            look,
            cgroup_prefix,
            prefix,
            levels,
        );
        let row = TreeItemView::Process {
            data: flat_process(list[i], look.node),
            is_last,
            cgroup_prefix,
            process_prefix: prefix,
        };
        let below = family_rows(
            list,
            children,
            children.len(),
            look,
            cgroup_prefix,
            inner,
            (levels - 1) as nat,
        );
        let one = process_rows(
            list,
            i,
            look,
            cgroup_prefix,
            is_last,
            prefix,
            (levels - 1) as nat,
        );
        assert(one == seq![row] + below);
        assert(rows == before + one);
        assert(listed(list, list[i].pid));
        assert forall|k: int| 0 <= k < rows.len() implies is_row_from(
            #[trigger] rows[k],
            list,
            look.node,
        ) by {
            if k < before.len() {
                assert(rows[k] == before[k]);
            } else if k == before.len() {
                assert(rows[k] == row);
            } else {
                assert(rows[k] == below[k - before.len() - 1]);
            }
        }
    }
}

/// The number of processes with an ID.
pub open spec fn occurrences(list: Seq<ProcessView>, pid: u32) -> nat {
    list.filter(|p: ProcessView| p.pid == pid).len()
}

proof fn lemma_occurrences(list: Seq<ProcessView>, pid: u32)
    requires
        distinct_pids(list),
    ensures
        occurrences(list, pid) == (if listed(list, pid) {
            1nat
        } else {
            0
        }),
    decreases list.len(),
{
    reveal(Seq::filter);
    if list.len() > 0 {
        let front = list.drop_last();
        assert forall|i: int, j: int|
            0 <= i < front.len() && 0 <= j < front.len() && #[trigger] front[i].pid
                == #[trigger] front[j].pid implies i == j by {
            assert(front[i] == list[i] && front[j] == list[j]);
        }
        lemma_occurrences(front, pid);
        let last = list[list.len() - 1];
        if listed(front, pid) {
            let i = choose|i: int| 0 <= i < front.len() && (#[trigger] front[i]).pid == pid;
            assert(list[i].pid == pid);
        }
        if listed(list, pid) && last.pid != pid {
            let i = choose|i: int| 0 <= i < list.len() && (#[trigger] list[i]).pid == pid;
            assert(front[i].pid == pid);
        }
    }
}

/// No two processes of the list have the same ID, and none descends from itself.
pub open spec fn is_orderly(list: Seq<ProcessView>) -> bool {
    &&& distinct_pids(list)
    &&& exists|height: Seq<nat>| #[trigger] descends(list, height)
}

/// The processes of every cgroup of the tree are orderly.
pub open spec fn is_tidy(v: CgroupView) -> bool
    decreases v,
{
    &&& is_orderly(v.processes)
    &&& forall|i: int| 0 <= i < v.children.len() ==> is_tidy(#[trigger] v.children[i])
}

/// What counts on a machine counts nowhere else.
pub open spec fn if_on(n: nat, here: Option<Seq<char>>, node: Option<Seq<char>>) -> nat {
    if here == node {
        n
    } else {
        0
    }
}

proof fn lemma_forest_count(
    list: Seq<ProcessView>,
    look: LookView,
    prefix: Seq<char>,
    node: Option<Seq<char>>,
    pid: u32,
)
    requires
        is_orderly(list),
    ensures
        rows_on(forest_rows(list, look, prefix), node, pid) == if_on(
            occurrences(list, pid),
            look.node,
            node,
        ),
{
    let rows = forest_rows(list, look, prefix);
    let roots = ranked_family(list, None, look);
    lemma_ranked_family(list, None, look, 0);
    lemma_family_from(list, roots, roots.len(), look, prefix, seq![], list.len());
    lemma_occurrences(list, pid);
    let none = |row: TreeItemView| false;
    if look.node == node && listed(list, pid) {
        let height = choose|height: Seq<nat>| #[trigger] descends(list, height);
        let j = choose|j: int| 0 <= j < list.len() && (#[trigger] list[j]).pid == pid;
        every_process_has_one_row(list, height, look, prefix, j);
        let of = |row: TreeItemView| is_row_of(row, pid);
        assert forall|k: int| 0 <= k < rows.len() implies on(node, pid)(#[trigger] rows[k]) == of(
            rows[k],
        ) by {
            assert(is_row_from(rows[k], list, look.node));
        }
        lemma_count_same(rows, on(node, pid), of);
    } else {
        assert forall|k: int| 0 <= k < rows.len() implies on(node, pid)(#[trigger] rows[k]) == none(
            rows[k],
        ) by {
            assert(is_row_from(rows[k], list, look.node));
        }
        lemma_count_same(rows, on(node, pid), none);
        lemma_count_nothing(rows);
    }
}

proof fn lemma_count_nothing(rows: Seq<TreeItemView>)
    ensures
        count(rows, |row: TreeItemView| false) == 0,
    decreases rows.len(),
{
    reveal(Seq::filter);
    if rows.len() > 0 {
        lemma_count_nothing(rows.drop_last());
    }
}

/// The number of processes with an ID in a cgroup and below it.
pub open spec fn occurrences_in(v: CgroupView, pid: u32) -> nat
    decreases v, v.children.len() + 1,
{
    occurrences(v.processes, pid) + occurrences_below(v, v.children.len(), pid)
}

/// The number of processes with an ID in the first `n` children of a cgroup and below them.
pub open spec fn occurrences_below(v: CgroupView, n: nat, pid: u32) -> nat
    decreases v, n,
{
    if n == 0 || n > v.children.len() {
        0
    } else {
        occurrences_below(v, (n - 1) as nat, pid) + occurrences_in(v.children[n - 1], pid)
    }
}

pub open spec fn child_weight(
    v: CgroupView,
    here: Option<Seq<char>>,
    node: Option<Seq<char>>,
    pid: u32,
) -> spec_fn(int) -> nat {
    |i: int| if_on(occurrences_in(v.children[i], pid), here, node)
}

proof fn lemma_child_weights(
    v: CgroupView,
    n: nat,
    here: Option<Seq<char>>,
    node: Option<Seq<char>>,
    pid: u32,
)
    requires
        n <= v.children.len(),
    ensures
        total_below(n, child_weight(v, here, node, pid)) == if_on(
            occurrences_below(v, n, pid),
            here,
            node,
        ),
    decreases n,
{
    if n > 0 {
        lemma_child_weights(v, (n - 1) as nat, here, node, pid);
    }
}

proof fn lemma_child_process_rows(
    v: CgroupView,
    n: nat,
    look: LookView,
    depth: usize,
    prefix: Seq<char>,
    node: Option<Seq<char>>,
    pid: u32,
)
    requires
        n <= v.children.len(),
        forall|i: int| 0 <= i < v.children.len() ==> is_tidy(#[trigger] v.children[i]),
    ensures
        rows_on(child_rows(v, n, look, depth, prefix), node, pid) == total(
            child_order(v, look).take(n as int),
            child_weight(v, look.node, node, pid),
        ),
    decreases v, n,
{
    let order = child_order(v, look);
    sorted_is_permutation(child_keys(v, look), look.direction);
    assert(order == sorted(child_keys(v, look), look.direction));
    lemma_count_none(on(node, pid));
    if n > 0 {
        lemma_child_process_rows(v, (n - 1) as nat, look, depth, prefix, node, pid);
        assert(0 <= order[n - 1] < v.children.len());
        let child = v.children[order[n - 1]];
        let is_last = n == v.children.len() && v.processes.len() == 0;
        every_process_in_the_tree_has_its_row(child, look, depth, is_last, prefix, node, pid);
        lemma_count_add(
            child_rows(v, (n - 1) as nat, look, depth, prefix),
            cgroup_rows(child, look, depth, is_last, prefix),
            on(node, pid),
        );
        assert(order.take(n as int).drop_last() =~= order.take(n - 1));
        assert(order.take(n as int).last() == order[n - 1]);
    }
}

/// The rows of the children of a cgroup show every process below it once.
pub proof fn every_process_below_has_its_row(
    v: CgroupView,
    look: LookView,
    depth: usize,
    prefix: Seq<char>,
    node: Option<Seq<char>>,
    pid: u32,
)
    requires
        forall|i: int| 0 <= i < v.children.len() ==> is_tidy(#[trigger] v.children[i]),
    ensures
        rows_on(child_rows(v, v.children.len(), look, depth, prefix), node, pid) == if_on(
            occurrences_below(v, v.children.len(), pid),
            look.node,
            node,
        ),
    decreases v, v.children.len() + 1,
{
    let n = v.children.len();
    let keys = child_keys(v, look);
    let order = child_order(v, look);
    assert(order == sorted(keys, look.direction));
    let f = child_weight(v, look.node, node, pid);
    lemma_child_process_rows(v, n, look, depth, prefix, node, pid);
    sorted_is_permutation(keys, look.direction);
    sorting_keeps_totals(keys, look.direction, f);
    assert(order.take(n as int) =~= order);
    lemma_child_weights(v, n, look.node, node, pid);
}

/// The rows of a tree show every process of it once, whatever the order.
pub proof fn every_process_in_the_tree_has_its_row(
    v: CgroupView,
    look: LookView,
    depth: usize,
    is_last: bool,
    parent_prefix: Seq<char>,
    node: Option<Seq<char>>,
    pid: u32,
)
    requires
        is_tidy(v),
    ensures
        rows_on(cgroup_rows(v, look, depth, is_last, parent_prefix), node, pid) == if_on(
            occurrences_in(v, pid),
            look.node,
            node,
        ),
    decreases v, v.children.len() + 2,
{
    let prefix = below_cgroup(depth, is_last, parent_prefix);
    let next = depth.saturating_add(1);
    let row = TreeItemView::Cgroup {
        data: flat_cgroup(row_name(v.name, depth, look.node), look.node, shown_of(v.metrics)),
        depth,
        is_last,
        prefix: own_prefix(depth, parent_prefix),
    };
    let inner = child_rows(v, v.children.len(), look, next, prefix);
    let own = forest_rows(v.processes, look, prefix);
    every_process_below_has_its_row(v, look, next, prefix, node, pid);
    lemma_forest_count(v.processes, look, prefix, node, pid);
    lemma_count_one(row, on(node, pid));
    lemma_count_add(seq![row], inner, on(node, pid));
    lemma_count_add(seq![row] + inner, own, on(node, pid));
}

}
