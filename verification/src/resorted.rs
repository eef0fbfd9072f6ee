//! Another order of the rows shows the same: only the branches before them differ.

use vstd::prelude::*;
use crate::cgroup::types::CgroupView;
use crate::process::types::ProcessView;
use crate::row_laws::{
    child_keys, count, lemma_count_add, lemma_count_none, lemma_count_one, lemma_total_mapped,
    lemma_total_members,
};
use crate::rows::{
    below_cgroup, below_process, cgroup_rows, child_order, child_rows, family, family_keys,
    family_rows, flat_cgroup, flat_process, forest_rows, own_prefix, process_rows, ranked_family,
    row_name, shown_of, tree_rows, FlatCgroupView, FlatProcessView, LookView, TreeItemView,
};
use crate::sort::{
    sorted, sorted_is_permutation, sorting_keeps_totals, total, total_below, SortColumn,
    SortDirection,
};

verus! {

/// What a row shows, but for its branches.
pub enum Contents {
    Cgroup(FlatCgroupView, usize),
    Process(FlatProcessView),
}

pub open spec fn contents(row: TreeItemView) -> Contents {
    match row {
        TreeItemView::Cgroup { data, depth, .. } => Contents::Cgroup(data, depth),
        TreeItemView::Process { data, .. } => Contents::Process(data),
    }
}

/// The rows that show something.
pub open spec fn showing(c: Contents) -> spec_fn(TreeItemView) -> bool {
    |row: TreeItemView| contents(row) == c
}

/// Both show the same, each as often; at most the order and the branches differ.
pub open spec fn same_rows(a: Seq<TreeItemView>, b: Seq<TreeItemView>) -> bool {
    forall|c: Contents| #[trigger] count(a, showing(c)) == count(b, showing(c))
}

/// The look at a machine in the order of the names.
pub open spec fn plain(node: Option<Seq<char>>) -> LookView {
    LookView { node, column: SortColumn::Name, direction: SortDirection::Ascending }
}

/// How often something is shown in the rows of a process and its descendants.
pub open spec fn process_weight(
    list: Seq<ProcessView>,
    node: Option<Seq<char>>,
    levels: nat,
    c: Contents,
) -> spec_fn(int) -> nat {
    |i: int| count(process_rows(list, i, plain(node), seq![], false, seq![], levels), showing(c))
}

/// How often something is shown in the rows of a family.
pub open spec fn family_weight(
    list: Seq<ProcessView>,
    parent: Option<u32>,
    node: Option<Seq<char>>,
    levels: nat,
    c: Contents,
) -> nat {
    if levels == 0 {
        0
    } else {
        total(
            family(list, parent, list.len()),
            process_weight(list, node, (levels - 1) as nat, c),
        )
    }
}

/// What a family counts for does not depend on its order.
proof fn lemma_ranked_total(
    list: Seq<ProcessView>,
    parent: Option<u32>,
    look: LookView,
    f: spec_fn(int) -> nat,
)
    ensures
        total(ranked_family(list, parent, look), f) == total(family(list, parent, list.len()), f),
{
    let members = family(list, parent, list.len());
    let keys = family_keys(list, members, look.column);
    let order = sorted(keys, look.direction);
    let picked = ranked_family(list, parent, look);
    let g = |m: int| f(members[m]);
    sorted_is_permutation(keys, look.direction);
    sorting_keeps_totals(keys, look.direction, g);
    lemma_total_mapped(order, members, picked, f, g);
    lemma_total_members(members, members.len(), f, g);
    assert(members.take(members.len() as int) =~= members);
}

proof fn lemma_process_contents(
    list: Seq<ProcessView>,
    i: int,
    look: LookView,
    cgroup_prefix: Seq<char>,
    is_last: bool,
    prefix: Seq<char>,
    levels: nat,
    c: Contents,
)
    ensures
        count(
            process_rows(list, i, look, cgroup_prefix, is_last, prefix, levels),
            showing(c),
        ) == (if Contents::Process(flat_process(list[i], look.node)) == c {
            1nat
        } else {
            0
        }) + family_weight(list, Some(list[i].pid), look.node, levels, c),
    decreases levels, 1nat, 0nat,
{
    let row = TreeItemView::Process {
        data: flat_process(list[i], look.node),
        is_last,
        cgroup_prefix,
        process_prefix: prefix,
    };
    let children = ranked_family(list, Some(list[i].pid), look);
    let inner = below_process(prefix, is_last);
    let below = family_rows(list, children, children.len(), look, cgroup_prefix, inner, levels);
    lemma_family_contents(
        list,
        children,
        children.len(),
        look,
        cgroup_prefix,
        inner,
        levels,
        c,
    );
    assert(children.take(children.len() as int) =~= children);
    if levels > 0 {
        lemma_ranked_total(
            list,
            Some(list[i].pid),
            look,
            process_weight(list, look.node, (levels - 1) as nat, c),
        );
    }
    lemma_count_one(row, showing(c));
    lemma_count_add(seq![row], below, showing(c));
}

proof fn lemma_family_contents(
    list: Seq<ProcessView>,
    members: Seq<int>,
    n: nat,
    look: LookView,
    cgroup_prefix: Seq<char>,
    prefix: Seq<char>,
    levels: nat,
    c: Contents,
)
    requires
        n <= members.len(),
    ensures
        count(
            family_rows(list, members, n, look, cgroup_prefix, prefix, levels),
            showing(c),
        ) == (if levels == 0 {
            0
        } else {
            total(
                members.take(n as int),
                process_weight(list, look.node, (levels - 1) as nat, c),
            )
        }),
    decreases levels, 0nat, n,
{
    lemma_count_none(showing(c));
    if n > 0 && levels > 0 {
        let i = members[n - 1];
        let less = (levels - 1) as nat;
        let is_last = n == members.len();
        lemma_family_contents(
            list,
            members,
            (n - 1) as nat,
            look,
            cgroup_prefix,
            prefix,
            levels,
            c,
        );
        lemma_process_contents(list, i, look, cgroup_prefix, is_last, prefix, less, c);
        lemma_process_contents(list, i, plain(look.node), seq![], false, seq![], less, c);
        lemma_count_add(
            family_rows(list, members, (n - 1) as nat, look, cgroup_prefix, prefix, levels),
            process_rows(list, i, look, cgroup_prefix, is_last, prefix, less),
            showing(c),
        );
        assert(members.take(n as int).drop_last() =~= members.take(n - 1));
        assert(members.take(n as int).last() == i);
    }
}

proof fn lemma_forest_contents(
    list: Seq<ProcessView>,
    look: LookView,
    prefix: Seq<char>,
    c: Contents,
)
    ensures
        count(forest_rows(list, look, prefix), showing(c)) == family_weight(
            list,
            None,
            look.node,
            list.len(),
            c,
        ),
{
    let roots = ranked_family(list, None, look);
    lemma_family_contents(list, roots, roots.len(), look, prefix, seq![], list.len(), c);
    assert(roots.take(roots.len() as int) =~= roots);
    if list.len() > 0 {
        lemma_ranked_total(
            list,
            None,
            look,
            process_weight(list, look.node, (list.len() - 1) as nat, c),
        );
    }
}

/// How often something is shown in the rows of a child.
pub open spec fn cgroup_weight(
    v: CgroupView,
    node: Option<Seq<char>>,
    depth: usize,
    c: Contents,
) -> spec_fn(int) -> nat {
    |i: int| count(cgroup_rows(v.children[i], plain(node), depth, false, seq![]), showing(c))
}

proof fn lemma_child_contents(
    v: CgroupView,
    n: nat,
    look: LookView,
    depth: usize,
    prefix: Seq<char>,
    c: Contents,
)
    requires
        n <= v.children.len(),
    ensures
        count(child_rows(v, n, look, depth, prefix), showing(c)) == total(
            child_order(v, look).take(n as int),
            cgroup_weight(v, look.node, depth, c),
        ),
    decreases v, n,
{
    let order = child_order(v, look);
    sorted_is_permutation(child_keys(v, look), look.direction);
    assert(order == sorted(child_keys(v, look), look.direction));
    lemma_count_none(showing(c));
    if n > 0 {
        lemma_child_contents(v, (n - 1) as nat, look, depth, prefix, c);
        assert(0 <= order[n - 1] < v.children.len());
        let child = v.children[order[n - 1]];
        let is_last = n == v.children.len() && v.processes.len() == 0;
        lemma_cgroup_contents(child, look, depth, is_last, prefix, c);
        lemma_cgroup_contents(child, plain(look.node), depth, false, seq![], c);
        lemma_count_add(
            child_rows(v, (n - 1) as nat, look, depth, prefix),
            cgroup_rows(child, look, depth, is_last, prefix),
            showing(c),
        );
        assert(order.take(n as int).drop_last() =~= order.take(n - 1));
        assert(order.take(n as int).last() == order[n - 1]);
    }
}

/// What the children of a cgroup show does not depend on their order.
pub proof fn lemma_all_children_contents(
    v: CgroupView,
    look: LookView,
    depth: usize,
    prefix: Seq<char>,
    c: Contents,
)
    ensures
        count(child_rows(v, v.children.len(), look, depth, prefix), showing(c)) == total_below(
            v.children.len(),
            cgroup_weight(v, look.node, depth, c),
        ),
    decreases v, v.children.len() + 1,
{
    let n = v.children.len();
    let keys = child_keys(v, look);
    let order = child_order(v, look);
    assert(order == sorted(keys, look.direction));
    lemma_child_contents(v, n, look, depth, prefix, c);
    sorted_is_permutation(keys, look.direction);
    sorting_keeps_totals(keys, look.direction, cgroup_weight(v, look.node, depth, c));
    assert(order.take(n as int) =~= order);
}

proof fn lemma_cgroup_contents(
    v: CgroupView,
    look: LookView,
    depth: usize,
    is_last: bool,
    parent_prefix: Seq<char>,
    c: Contents,
)
    ensures
        count(cgroup_rows(v, look, depth, is_last, parent_prefix), showing(c)) == (if Contents::Cgroup(
            flat_cgroup(row_name(v.name, depth, look.node), look.node, shown_of(v.metrics)),
            depth,
        ) == c {
            1nat
        } else {
            0
        }) + total_below(
            v.children.len(),
            cgroup_weight(v, look.node, depth.saturating_add(1), c),
        ) + family_weight(v.processes, None, look.node, v.processes.len(), c),
    decreases v, v.children.len() + 2,
{
    let prefix = below_cgroup(depth, is_last, parent_prefix);
    let next = depth.saturating_add(1);
    let row = TreeItemView::Cgroup {
        data: flat_cgroup(row_name(v.name, depth, look.node), look.node, shown_of(v.metrics)),
        depth,
        is_last,
        prefix: own_prefix(depth, parent_prefix),
    };
    let inner = child_rows(v, v.children.len(), look, next, prefix);
    let own = forest_rows(v.processes, look, prefix);
    lemma_all_children_contents(v, look, next, prefix, c);
    lemma_forest_contents(v.processes, look, prefix, c);
    lemma_count_one(row, showing(c));
    lemma_count_add(seq![row], inner, showing(c));
    lemma_count_add(seq![row] + inner, own, showing(c));
}

/// Sorting the tree of one machine by another column or in the other direction shows the same rows.
pub proof fn sorting_shows_the_same_rows(root: CgroupView, a: LookView, b: LookView)
    requires
        a.node == b.node,
    ensures
        same_rows(tree_rows(root, a), tree_rows(root, b)),
{
    assert forall|c: Contents| #[trigger] count(tree_rows(root, a), showing(c)) == count(
        tree_rows(root, b),
        showing(c),
    ) by {
        lemma_cgroup_contents(root, a, 0, true, seq![], c);
        lemma_cgroup_contents(root, b, 0, true, seq![], c);
    }
}

}
