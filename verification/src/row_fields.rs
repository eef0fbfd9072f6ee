//! What the rows of a tree say, field by field, and how their values are ordered.

use vstd::prelude::*;
use crate::cgroup::types::CgroupView;
use crate::process::types::ProcessView;
use crate::rate::Rate;
use crate::row_laws::{
    child_keys, every_process_in_the_tree_has_its_row, is_row_on, is_tidy, occurrences,
    occurrences_below, occurrences_in, on, rows_on,
};
use crate::rows::{
    below_cgroup, below_process, cgroup_key, cgroup_rows, child_order, child_rows, family,
    family_keys, family_rows, forest_rows, process_key, process_rows, ranked_family, tree_rows,
    FlatCgroupView, FlatProcessView, LookView, Shown, TreeItemView,
};
use crate::sort::{
    comparable_is_consistent, precedes, sorted, sorted_is_in_order, sorted_is_permutation, KeyView,
    SortColumn, SortDirection,
};
use crate::text::text_before;

verus! {

/// The row says of a process what is known of it.
pub open spec fn says(data: FlatProcessView, p: ProcessView) -> bool {
    &&& data.pid == p.pid
    &&& data.name == p.name
    &&& data.cmdline == p.cmdline
    &&& data.user == p.user
    &&& data.state == p.state
    &&& data.cpu_percent == p.cpu_percent
    &&& data.rss == p.rss
    &&& data.num_threads == p.num_threads
    &&& data.io_read_rate == p.io_read_rate
    &&& data.io_write_rate == p.io_write_rate
}

/// The row says of a cgroup what its metrics are.
pub open spec fn says_metrics(data: FlatCgroupView, c: CgroupView) -> bool {
    &&& data.cpu_percent == c.metrics.cpu_percent
    &&& data.memory_current == c.metrics.memory_current
    &&& data.pids_current == c.metrics.pids_current
    &&& data.io_read_rate == c.metrics.io_read_rate
    &&& data.io_write_rate == c.metrics.io_write_rate
}

/// The process is in the cgroup or below it.
pub open spec fn has_process(v: CgroupView, p: ProcessView) -> bool
    decreases v,
{
    v.processes.contains(p) || exists|i: int|
        0 <= i < v.children.len() && has_process(#[trigger] v.children[i], p)
}

/// The cgroup is this one or below it.
pub open spec fn has_cgroup(v: CgroupView, c: CgroupView) -> bool
    decreases v,
{
    v == c || exists|i: int| 0 <= i < v.children.len() && has_cgroup(#[trigger] v.children[i], c)
}

/// The row is of a process of the list, on the machine.
pub open spec fn is_of_list(
    row: TreeItemView,
    list: Seq<ProcessView>,
    node: Option<Seq<char>>,
) -> bool {
    match row {
        TreeItemView::Process { data, .. } => data.node == node && exists|i: int|
            0 <= i < list.len() && says(data, #[trigger] list[i]),
        TreeItemView::Cgroup { .. } => false,
    }
}

proof fn lemma_family_says(
    list: Seq<ProcessView>,
    members: Seq<int>,
    n: nat,
    look: LookView,
    cgroup_prefix: Seq<char>,
    prefix: Seq<char>,
    levels: nat,
)
    requires
        n <= members.len(),
        forall|k: int| 0 <= k < members.len() ==> 0 <= #[trigger] members[k] < list.len(),
    ensures
        ({
            let rows = family_rows(list, members, n, look, cgroup_prefix, prefix, levels);
            forall|k: int| 0 <= k < rows.len() ==> is_of_list(#[trigger] rows[k], list, look.node)
        }),
    decreases levels, 0nat, n,
{
    if n > 0 && levels > 0 {
        let less = (levels - 1) as nat;
        let before = family_rows(
            list,
            members,
            (n - 1) as nat,
            look,
            cgroup_prefix,
            prefix,
            levels,
        );
        let i = members[n - 1];
        let is_last = n == members.len();
        let one = process_rows(list, i, look, cgroup_prefix, is_last, prefix, less);
        let rows = family_rows(list, members, n, look, cgroup_prefix, prefix, levels);
        lemma_family_says(list, members, (n - 1) as nat, look, cgroup_prefix, prefix, levels);
        lemma_process_says(list, i, look, cgroup_prefix, is_last, prefix, less);
        assert(rows == before + one);
        assert forall|k: int| 0 <= k < rows.len() implies is_of_list(
            #[trigger] rows[k],
            list,
            look.node,
        ) by {
            if k < before.len() {
                assert(rows[k] == before[k]);
            } else {
                assert(rows[k] == one[k - before.len()]);
            }
        }
    }
}

/// The rows of a process start with its own, and all are of processes of the list.
proof fn lemma_process_says(
    list: Seq<ProcessView>,
    i: int,
    look: LookView,
    cgroup_prefix: Seq<char>,
    is_last: bool,
    prefix: Seq<char>,
    levels: nat,
)
    requires
        0 <= i < list.len(),
    ensures
        ({
            let rows = process_rows(list, i, look, cgroup_prefix, is_last, prefix, levels);
            &&& rows.len() > 0
            &&& rows[0] matches TreeItemView::Process {
                data,
                is_last: last,
                cgroup_prefix: outer,
                process_prefix: inner,
            } && says(data, list[i]) && data.node == look.node && last == is_last && outer
                == cgroup_prefix && inner == prefix
            &&& forall|k: int|
                0 <= k < rows.len() ==> is_of_list(#[trigger] rows[k], list, look.node)
        }),
    decreases levels, 1nat, 0nat,
{
    let rows = process_rows(list, i, look, cgroup_prefix, is_last, prefix, levels);
    let children = ranked_family(list, Some(list[i].pid), look);
    let inner = below_process(prefix, is_last);
    lemma_ranked_in_range(list, Some(list[i].pid), look);
    lemma_family_says(list, children, children.len(), look, cgroup_prefix, inner, levels);
    let below = family_rows(list, children, children.len(), look, cgroup_prefix, inner, levels);
    assert forall|k: int| 0 <= k < rows.len() implies is_of_list(#[trigger] rows[k], list, look.node) by {
        if k > 0 {
            assert(rows[k] == below[k - 1]);
        } else {
            assert(rows[0]->Process_data.pid == list[i].pid);
            assert(says(rows[0]->Process_data, list[i]));
        }
    }
}

proof fn lemma_family_in_range(list: Seq<ProcessView>, parent: Option<u32>, n: nat)
    requires
        n <= list.len(),
    ensures
        forall|k: int|
            0 <= k < family(list, parent, n).len() ==> 0 <= #[trigger] family(list, parent, n)[k] < n,
    decreases n,
{
    if n > 0 {
        lemma_family_in_range(list, parent, (n - 1) as nat);
        let before = family(list, parent, (n - 1) as nat);
        assert forall|k: int| 0 <= k < family(list, parent, n).len() implies 0 <= #[trigger] family(
            list,
            parent,
            n,
        )[k] < n by {
            if k < before.len() {
                assert(family(list, parent, n)[k] == before[k]);
            }
        }
    }
}

pub proof fn lemma_ranked_in_range(list: Seq<ProcessView>, parent: Option<u32>, look: LookView)
    ensures
        forall|k: int|
            0 <= k < ranked_family(list, parent, look).len() ==> 0 <= #[trigger] ranked_family(
                list,
                parent,
                look,
            )[k] < list.len(),
{
    let members = family(list, parent, list.len());
    let keys = family_keys(list, members, look.column);
    let order = sorted(keys, look.direction);
    lemma_family_in_range(list, parent, list.len());
    sorted_is_permutation(keys, look.direction);
    assert forall|k: int| 0 <= k < ranked_family(list, parent, look).len() implies 0
        <= #[trigger] ranked_family(list, parent, look)[k] < list.len() by {
        assert(0 <= order[k] < members.len());
        assert(ranked_family(list, parent, look)[k] == members[order[k]]);
    }
}

/// The row is what the view of a tree may hold: the values of a process of the tree, or those of a
/// cgroup of the tree under its name, the root of one machine's tree under that of the machine.
pub open spec fn is_of_tree(row: TreeItemView, v: CgroupView, node: Option<Seq<char>>) -> bool {
    match row {
        TreeItemView::Process { data, .. } => data.node == node && exists|p: ProcessView|
            #[trigger] has_process(v, p) && says(data, p),
        TreeItemView::Cgroup { data, depth, .. } => data.node == node && exists|c: CgroupView|
            #[trigger] has_cgroup(v, c) && says_metrics(data, c) && data.name == (if depth == 0
                && node is None {
                "localhost"@
            } else {
                c.name
            }),
    }
}

proof fn lemma_row_of_child(row: TreeItemView, v: CgroupView, i: int, node: Option<Seq<char>>)
    requires
        0 <= i < v.children.len(),
        is_of_tree(row, v.children[i], node),
    ensures
        is_of_tree(row, v, node),
{
    match row {
        TreeItemView::Process { data, .. } => {
            let p = choose|p: ProcessView|
                #[trigger] has_process(v.children[i], p) && says(data, p);
            assert(has_process(v, p));
        },
        TreeItemView::Cgroup { data, depth, .. } => {
            let c = choose|c: CgroupView|
                #[trigger] has_cgroup(v.children[i], c) && says_metrics(data, c) && data.name == (
                if depth == 0 && node is None {
                    "localhost"@
                } else {
                    c.name
                });
            assert(has_cgroup(v, c));
        },
    }
}

pub proof fn lemma_child_rows_say(
    v: CgroupView,
    n: nat,
    look: LookView,
    depth: usize,
    prefix: Seq<char>,
)
    requires
        n <= v.children.len(),
    ensures
        ({
            let rows = child_rows(v, n, look, depth, prefix);
            forall|k: int| 0 <= k < rows.len() ==> is_of_tree(#[trigger] rows[k], v, look.node)
        }),
    decreases v, n,
{
    let order = child_order(v, look);
    sorted_is_permutation(child_keys(v, look), look.direction);
    assert(order == sorted(child_keys(v, look), look.direction));
    if n > 0 {
        lemma_child_rows_say(v, (n - 1) as nat, look, depth, prefix);
        assert(0 <= order[n - 1] < v.children.len());
        let i = order[n - 1];
        let is_last = n == v.children.len() && v.processes.len() == 0;
        rows_say_what_is_known(v.children[i], look, depth, is_last, prefix);
        let before = child_rows(v, (n - 1) as nat, look, depth, prefix);
        let one = cgroup_rows(v.children[i], look, depth, is_last, prefix);
        let rows = child_rows(v, n, look, depth, prefix);
        assert(rows == before + one);
        assert forall|k: int| 0 <= k < rows.len() implies is_of_tree(#[trigger] rows[k], v, look.node) by {
            if k < before.len() {
                assert(rows[k] == before[k]);
            } else {
                assert(rows[k] == one[k - before.len()]);
                lemma_row_of_child(rows[k], v, i, look.node);
            }
        }
    }
}

/// Every row of a tree says, field by field, what is known of a process or a cgroup of the tree, and
/// the first is that of the cgroup itself.
pub proof fn rows_say_what_is_known(
    v: CgroupView,
    look: LookView,
    depth: usize,
    is_last: bool,
    parent_prefix: Seq<char>,
)
    ensures
        ({
            let rows = cgroup_rows(v, look, depth, is_last, parent_prefix);
            &&& rows.len() > 0
            &&& rows[0] matches TreeItemView::Cgroup {
                data,
                depth: level,
                is_last: last,
                prefix,
            } && says_metrics(data, v) && data.node == look.node && level == depth && last == is_last
                && prefix == (if depth == 0 {
                seq![]
            } else {
                parent_prefix
            }) && data.name == (if depth == 0 && look.node is None {
                "localhost"@
            } else {
                v.name
            })
            &&& forall|k: int| 0 <= k < rows.len() ==> is_of_tree(#[trigger] rows[k], v, look.node)
        }),
    decreases v, v.children.len() + 1,
{
    let rows = cgroup_rows(v, look, depth, is_last, parent_prefix);
    let prefix = below_cgroup(depth, is_last, parent_prefix);
    let next = depth.saturating_add(1);
    let inner = child_rows(v, v.children.len(), look, next, prefix);
    let own = forest_rows(v.processes, look, prefix);
    lemma_child_rows_say(v, v.children.len(), look, next, prefix);
    let roots = ranked_family(v.processes, None, look);
    lemma_ranked_in_range(v.processes, None, look);
    lemma_family_says(
        v.processes,
        roots,
        roots.len(),
        look,
        prefix,
        seq![],
        v.processes.len(),
    );
    assert(rows == seq![rows[0]] + inner + own);
    assert forall|k: int| 0 <= k < rows.len() implies is_of_tree(#[trigger] rows[k], v, look.node) by {
        if k == 0 {
            assert(has_cgroup(v, v));
        } else if k <= inner.len() {
            assert(rows[k] == inner[k - 1]);
        } else {
            let row = own[k - 1 - inner.len()];
            assert(rows[k] == row);
            assert(is_of_list(row, v.processes, look.node));
            let i = choose|i: int|
                0 <= i < v.processes.len() && says(row->Process_data, #[trigger] v.processes[i]);
            assert(has_process(v, v.processes[i]));
        }
    }
}

/// A count is at most another; a missing one is the least.
pub open spec fn at_most(a: Option<u64>, b: Option<u64>) -> bool {
    match (a, b) {
        (None, _) => true,
        (Some(_), None) => false,
        (Some(x), Some(y)) => x <= y,
    }
}

/// A count of 32 bits is at most another; a missing one is the least.
pub open spec fn at_most_small(a: Option<u32>, b: Option<u32>) -> bool {
    match (a, b) {
        (None, _) => true,
        (Some(_), None) => false,
        (Some(x), Some(y)) => x <= y,
    }
}

/// The values that two rows of processes show in a column ascend.
pub open spec fn ascend(a: FlatProcessView, b: FlatProcessView, column: SortColumn) -> bool {
    match column {
        SortColumn::Name => !text_before(b.name, a.name),
        SortColumn::Pid => a.pid <= b.pid,
        SortColumn::User => !text_before(b.user, a.user),
        SortColumn::State => a.state.letter() as int <= b.state.letter() as int,
        SortColumn::Cpu => a.cpu_percent.bits <= b.cpu_percent.bits,
        SortColumn::Memory => a.rss <= b.rss,
        SortColumn::Pids => a.num_threads <= b.num_threads,
        SortColumn::IoRead => a.io_read_rate.bits <= b.io_read_rate.bits,
        SortColumn::IoWrite => a.io_write_rate.bits <= b.io_write_rate.bits,
    }
}

/// The rows of two processes stand in the order of a column.
pub open spec fn in_column_order(
    a: FlatProcessView,
    b: FlatProcessView,
    column: SortColumn,
    direction: SortDirection,
) -> bool {
    match direction {
        SortDirection::Ascending => ascend(a, b, column),
        SortDirection::Descending => ascend(b, a, column),
    }
}

/// What a process shows in a column is known.
pub open spec fn is_known(p: ProcessView, column: SortColumn) -> bool {
    match column {
        SortColumn::Cpu => !p.cpu_percent.pending(),
        SortColumn::IoRead => !p.io_read_rate.pending(),
        SortColumn::IoWrite => !p.io_write_rate.pending(),
        _ => true,
    }
}

/// Processes whose keys stand in order show values that do.
pub proof fn lemma_keys_to_fields(
    p: ProcessView,
    q: ProcessView,
    a: FlatProcessView,
    b: FlatProcessView,
    column: SortColumn,
    direction: SortDirection,
)
    requires
        says(a, p),
        says(b, q),
        is_known(p, column),
        is_known(q, column),
        !precedes(process_key(q, column), process_key(p, column), direction),
    ensures
        in_column_order(a, b, column, direction),
{
}

/// Keys of processes whose values in a column are known can be compared.
pub proof fn lemma_known_keys(keys: Seq<KeyView>, list: Seq<ProcessView>, column: SortColumn)
    requires
        keys.len() == list.len(),
        forall|i: int| 0 <= i < list.len() ==> is_known(#[trigger] list[i], column),
        forall|i: int| 0 <= i < list.len() ==> #[trigger] keys[i] == process_key(list[i], column),
    ensures
        crate::sort::comparable(keys),
{
    assert forall|i: int| 0 <= i < keys.len() implies {
        ||| #[trigger] keys[i] is Text
        ||| keys[i] is Count
        ||| keys[i] is Speed && !keys[i]->Speed_0.pending()
    } by {
        assert(is_known(list[i], column));
    }
    match column {
        SortColumn::Name | SortColumn::User => {
            assert(forall|i: int| 0 <= i < keys.len() ==> #[trigger] keys[i] is Text);
        },
        SortColumn::Cpu | SortColumn::IoRead | SortColumn::IoWrite => {
            assert(forall|i: int|
                0 <= i < keys.len() ==> (#[trigger] keys[i] is Speed
                    && !keys[i]->Speed_0.pending()));
        },
        _ => {
            assert(forall|i: int| 0 <= i < keys.len() ==> #[trigger] keys[i] is Count);
        },
    }
}

/// Where the rows of a member of a family start.
pub open spec fn member_start(
    list: Seq<ProcessView>,
    members: Seq<int>,
    k: int,
    look: LookView,
    cgroup_prefix: Seq<char>,
    prefix: Seq<char>,
    levels: nat,
) -> int {
    family_rows(list, members, k as nat, look, cgroup_prefix, prefix, levels).len() as int
}

pub proof fn lemma_member_row(
    list: Seq<ProcessView>,
    members: Seq<int>,
    n: nat,
    k: int,
    look: LookView,
    cgroup_prefix: Seq<char>,
    prefix: Seq<char>,
    levels: nat,
)
    requires
        levels > 0,
        0 <= k < n <= members.len(),
        forall|i: int| 0 <= i < members.len() ==> 0 <= #[trigger] members[i] < list.len(),
    ensures
        ({
            let rows = family_rows(list, members, n, look, cgroup_prefix, prefix, levels);
            let at = member_start(list, members, k, look, cgroup_prefix, prefix, levels);
            &&& 0 <= at < rows.len()
            &&& rows[at] matches TreeItemView::Process {
                data,
                is_last,
                cgroup_prefix: outer,
                process_prefix: inner,
            } && says(data, list[members[k]]) && data.node == look.node && is_last == (k
                == members.len() - 1) && outer == cgroup_prefix && inner == prefix
            &&& k + 1 < n ==> at < member_start(
                list,
                members,
                k + 1,
                look,
                cgroup_prefix,
                prefix,
                levels,
            )
        }),
    decreases n,
{
    let before = family_rows(list, members, (n - 1) as nat, look, cgroup_prefix, prefix, levels);
    let less = (levels - 1) as nat;
    let is_last = n == members.len();
    let one = process_rows(list, members[n - 1], look, cgroup_prefix, is_last, prefix, less);
    let rows = family_rows(list, members, n, look, cgroup_prefix, prefix, levels);
    assert(0 <= members[n - 1] < list.len());
    lemma_process_says(list, members[n - 1], look, cgroup_prefix, is_last, prefix, less);
    assert(rows == before + one);
    if k < n - 1 {
        lemma_member_row(list, members, (n - 1) as nat, k, look, cgroup_prefix, prefix, levels);
        let at = member_start(list, members, k, look, cgroup_prefix, prefix, levels);
        assert(rows[at] == before[at]);
    } else {
        assert(rows[before.len() as int] == one[0]);
    }
}

proof fn lemma_starts_ascend(
    list: Seq<ProcessView>,
    members: Seq<int>,
    i: int,
    j: int,
    look: LookView,
    cgroup_prefix: Seq<char>,
    prefix: Seq<char>,
    levels: nat,
)
    requires
        levels > 0,
        0 <= i < j < members.len(),
        forall|k: int| 0 <= k < members.len() ==> 0 <= #[trigger] members[k] < list.len(),
    ensures
        member_start(list, members, i, look, cgroup_prefix, prefix, levels) < member_start(
            list,
            members,
            j,
            look,
            cgroup_prefix,
            prefix,
            levels,
        ),
    decreases j,
{
    lemma_member_row(
        list,
        members,
        members.len(),
        j - 1,
        look,
        cgroup_prefix,
        prefix,
        levels,
    );
    if i < j - 1 {
        lemma_starts_ascend(list, members, i, j - 1, look, cgroup_prefix, prefix, levels);
    }
}

/// The rows of siblings stand in the order of the column: what the upper one shows in it is not
/// behind what the lower one shows. Every value in the column is known.
pub proof fn siblings_show_values_in_order(
    list: Seq<ProcessView>,
    parent: Option<u32>,
    look: LookView,
    cgroup_prefix: Seq<char>,
    prefix: Seq<char>,
    levels: nat,
    i: int,
    j: int,
)
    requires
        levels > 0,
        0 <= i < j < ranked_family(list, parent, look).len(),
        forall|k: int| 0 <= k < list.len() ==> is_known(#[trigger] list[k], look.column),
    ensures
        ({
            let members = ranked_family(list, parent, look);
            let rows = family_rows(
                list,
                members,
                members.len(),
                look,
                cgroup_prefix,
                prefix,
                levels,
            );
            let a = member_start(list, members, i, look, cgroup_prefix, prefix, levels);
            let b = member_start(list, members, j, look, cgroup_prefix, prefix, levels);
            &&& 0 <= a < b < rows.len()
            &&& rows[a] is Process
            &&& rows[b] is Process
            &&& says(rows[a]->Process_data, list[members[i]])
            &&& says(rows[b]->Process_data, list[members[j]])
            &&& in_column_order(
                rows[a]->Process_data,
                rows[b]->Process_data,
                look.column,
                look.direction,
            )
        }),
{
    let members = ranked_family(list, parent, look);
    lemma_ranked_in_range(list, parent, look);
    lemma_member_row(list, members, members.len(), i, look, cgroup_prefix, prefix, levels);
    lemma_member_row(list, members, members.len(), j, look, cgroup_prefix, prefix, levels);
    lemma_starts_ascend(list, members, i, j, look, cgroup_prefix, prefix, levels);
    let unsorted = family(list, parent, list.len());
    let keys = family_keys(list, unsorted, look.column);
    let order = sorted(keys, look.direction);
    lemma_family_in_range(list, parent, list.len());
    let picked = Seq::new(unsorted.len(), |k: int| list[unsorted[k]]);
    assert forall|k: int| 0 <= k < picked.len() implies is_known(#[trigger] picked[k], look.column) by {
        assert(0 <= unsorted[k] < list.len());
        assert(is_known(list[unsorted[k]], look.column));
    }
    lemma_known_keys(keys, picked, look.column);
    comparable_is_consistent(keys, look.direction);
    sorted_is_in_order(keys, look.direction);
    sorted_is_permutation(keys, look.direction);
    assert(0 <= order[i] < unsorted.len() && 0 <= order[j] < unsorted.len());
    assert(members[i] == unsorted[order[i]] && members[j] == unsorted[order[j]]);
    assert(!precedes(keys[order[j]], keys[order[i]], look.direction));
    let p = list[members[i]];
    let q = list[members[j]];
    assert(is_known(p, look.column) && is_known(q, look.column));
    let rows = family_rows(list, members, members.len(), look, cgroup_prefix, prefix, levels);
    let a = member_start(list, members, i, look, cgroup_prefix, prefix, levels);
    let b = member_start(list, members, j, look, cgroup_prefix, prefix, levels);
    lemma_keys_to_fields(
        p,
        q,
        rows[a]->Process_data,
        rows[b]->Process_data,
        look.column,
        look.direction,
    );
}

/// The values that two cgroups show in a column ascend; those that have none in it go by name.
pub open spec fn metrics_ascend(
    a: FlatCgroupView,
    b: FlatCgroupView,
    column: SortColumn,
) -> bool {
    match column {
        SortColumn::Cpu => a.cpu_percent.bits <= b.cpu_percent.bits,
        SortColumn::Memory => at_most(a.memory_current, b.memory_current),
        SortColumn::Pids => at_most_small(a.pids_current, b.pids_current),
        SortColumn::IoRead => a.io_read_rate.bits <= b.io_read_rate.bits,
        SortColumn::IoWrite => a.io_write_rate.bits <= b.io_write_rate.bits,
        SortColumn::Name | SortColumn::Pid | SortColumn::User | SortColumn::State => !text_before(
            b.name,
            a.name,
        ),
    }
}

/// The rows of two cgroups stand in the order of a column.
pub open spec fn metrics_in_order(
    a: FlatCgroupView,
    b: FlatCgroupView,
    column: SortColumn,
    direction: SortDirection,
) -> bool {
    match direction {
        SortDirection::Ascending => metrics_ascend(a, b, column),
        SortDirection::Descending => metrics_ascend(b, a, column),
    }
}

/// The rate that is shown in a column is known, where one is.
pub open spec fn is_known_metric(cpu: Rate, read: Rate, write: Rate, column: SortColumn) -> bool {
    match column {
        SortColumn::Cpu => !cpu.pending(),
        SortColumn::IoRead => !read.pending(),
        SortColumn::IoWrite => !write.pending(),
        _ => true,
    }
}

/// Cgroups whose keys stand in order show values that do.
pub proof fn lemma_cgroup_keys_to_fields(
    x: Shown,
    y: Shown,
    a: FlatCgroupView,
    b: FlatCgroupView,
    column: SortColumn,
    direction: SortDirection,
)
    requires
        a.cpu_percent == x.cpu_percent && b.cpu_percent == y.cpu_percent,
        a.memory_current == x.memory_current && b.memory_current == y.memory_current,
        a.pids_current == x.pids_current && b.pids_current == y.pids_current,
        a.io_read_rate == x.io_read_rate && b.io_read_rate == y.io_read_rate,
        a.io_write_rate == x.io_write_rate && b.io_write_rate == y.io_write_rate,
        is_known_metric(x.cpu_percent, x.io_read_rate, x.io_write_rate, column),
        is_known_metric(y.cpu_percent, y.io_read_rate, y.io_write_rate, column),
        !precedes(cgroup_key(b.name, y, column), cgroup_key(a.name, x, column), direction),
    ensures
        metrics_in_order(a, b, column, direction),
{
}

/// Keys of cgroups whose rates in a column are known can be compared.
pub proof fn lemma_known_cgroup_keys(
    keys: Seq<KeyView>,
    names: Seq<Seq<char>>,
    list: Seq<Shown>,
    column: SortColumn,
)
    requires
        keys.len() == list.len() == names.len(),
        forall|i: int|
            0 <= i < list.len() ==> is_known_metric(
                (#[trigger] list[i]).cpu_percent,
                list[i].io_read_rate,
                list[i].io_write_rate,
                column,
            ),
        forall|i: int|
            0 <= i < list.len() ==> #[trigger] keys[i] == cgroup_key(names[i], list[i], column),
    ensures
        crate::sort::comparable(keys),
{
    match column {
        SortColumn::Cpu | SortColumn::IoRead | SortColumn::IoWrite => {
            assert forall|i: int| 0 <= i < keys.len() implies (#[trigger] keys[i] is Speed
                && !keys[i]->Speed_0.pending()) by {
                assert(is_known_metric(
                    list[i].cpu_percent,
                    list[i].io_read_rate,
                    list[i].io_write_rate,
                    column,
                ));
            }
        },
        SortColumn::Memory | SortColumn::Pids => {
            assert(forall|i: int| 0 <= i < keys.len() ==> #[trigger] keys[i] is Count);
        },
        _ => {
            assert(forall|i: int| 0 <= i < keys.len() ==> #[trigger] keys[i] is Text);
        },
    }
}

/// Where the rows of a child start.
pub open spec fn child_start(
    v: CgroupView,
    k: int,
    look: LookView,
    depth: usize,
    prefix: Seq<char>,
) -> int {
    child_rows(v, k as nat, look, depth, prefix).len() as int
}

pub proof fn lemma_child_row(
    v: CgroupView,
    n: nat,
    k: int,
    look: LookView,
    depth: usize,
    prefix: Seq<char>,
)
    requires
        0 <= k < n <= v.children.len(),
    ensures
        ({
            let rows = child_rows(v, n, look, depth, prefix);
            let at = child_start(v, k, look, depth, prefix);
            let child = v.children[child_order(v, look)[k]];
            &&& 0 <= child_order(v, look)[k] < v.children.len()
            &&& 0 <= at < rows.len()
            &&& rows[at] matches TreeItemView::Cgroup {
                data,
                depth: level,
                is_last,
                prefix: before,
            } && says_metrics(data, child) && data.node == look.node && level == depth && is_last == (k
                == v.children.len() - 1 && v.processes.len() == 0) && before == (if depth == 0 {
                seq![]
            } else {
                prefix
            }) && data.name == (if depth == 0 && look.node is None {
                "localhost"@
            } else {
                child.name
            })
            &&& k + 1 < n ==> at < child_start(v, k + 1, look, depth, prefix)
        }),
    decreases n,
{
    let order = child_order(v, look);
    sorted_is_permutation(child_keys(v, look), look.direction);
    assert(order == sorted(child_keys(v, look), look.direction));
    assert(0 <= order[n - 1] < v.children.len());
    let before = child_rows(v, (n - 1) as nat, look, depth, prefix);
    let is_last = n == v.children.len() && v.processes.len() == 0;
    let one = cgroup_rows(v.children[order[n - 1]], look, depth, is_last, prefix);
    let rows = child_rows(v, n, look, depth, prefix);
    rows_say_what_is_known(v.children[order[n - 1]], look, depth, is_last, prefix);
    assert(rows == before + one);
    if k < n - 1 {
        lemma_child_row(v, (n - 1) as nat, k, look, depth, prefix);
        let at = child_start(v, k, look, depth, prefix);
        assert(rows[at] == before[at]);
    } else {
        assert(rows[before.len() as int] == one[0]);
    }
}

proof fn lemma_child_starts_ascend(
    v: CgroupView,
    i: int,
    j: int,
    look: LookView,
    depth: usize,
    prefix: Seq<char>,
)
    requires
        0 <= i < j < v.children.len(),
    ensures
        child_start(v, i, look, depth, prefix) < child_start(v, j, look, depth, prefix),
    decreases j,
{
    lemma_child_row(v, v.children.len(), j - 1, look, depth, prefix);
    if i < j - 1 {
        lemma_child_starts_ascend(v, i, j - 1, look, depth, prefix);
    }
}

/// The rows of the children of a cgroup stand in the order of the column: what the upper one shows in
/// it is not behind what the lower one shows. Every rate in the column is known.
pub proof fn children_show_values_in_order(
    v: CgroupView,
    look: LookView,
    depth: usize,
    prefix: Seq<char>,
    i: int,
    j: int,
)
    requires
        depth > 0,
        0 <= i < j < v.children.len(),
        forall|k: int|
            0 <= k < v.children.len() ==> is_known_metric(
                (#[trigger] v.children[k]).metrics.cpu_percent,
                v.children[k].metrics.io_read_rate,
                v.children[k].metrics.io_write_rate,
                look.column,
            ),
    ensures
        ({
            let rows = child_rows(v, v.children.len(), look, depth, prefix);
            let a = child_start(v, i, look, depth, prefix);
            let b = child_start(v, j, look, depth, prefix);
            &&& 0 <= a < b < rows.len()
            &&& rows[a] is Cgroup
            &&& rows[b] is Cgroup
            &&& metrics_in_order(
                rows[a]->Cgroup_data,
                rows[b]->Cgroup_data,
                look.column,
                look.direction,
            )
        }),
{
    let n = v.children.len();
    let keys = child_keys(v, look);
    let order = child_order(v, look);
    lemma_child_row(v, n, i, look, depth, prefix);
    lemma_child_row(v, n, j, look, depth, prefix);
    lemma_child_starts_ascend(v, i, j, look, depth, prefix);
    let names = v.children.map_values(|c: CgroupView| c.name);
    let list = v.children.map_values(|c: CgroupView| crate::rows::shown_of(c.metrics));
    assert forall|k: int| 0 <= k < list.len() implies is_known_metric(
        (#[trigger] list[k]).cpu_percent,
        list[k].io_read_rate,
        list[k].io_write_rate,
        look.column,
    ) by {
        assert(is_known_metric(
            v.children[k].metrics.cpu_percent,
            v.children[k].metrics.io_read_rate,
            v.children[k].metrics.io_write_rate,
            look.column,
        ));
    }
    lemma_known_cgroup_keys(keys, names, list, look.column);
    comparable_is_consistent(keys, look.direction);
    sorted_is_in_order(keys, look.direction);
    assert(order == sorted(keys, look.direction));
    assert(!precedes(keys[order[j]], keys[order[i]], look.direction));
    let rows = child_rows(v, n, look, depth, prefix);
    let a = child_start(v, i, look, depth, prefix);
    let b = child_start(v, j, look, depth, prefix);
    assert(is_known_metric(
        list[order[i]].cpu_percent,
        list[order[i]].io_read_rate,
        list[order[i]].io_write_rate,
        look.column,
    ));
    assert(is_known_metric(
        list[order[j]].cpu_percent,
        list[order[j]].io_read_rate,
        list[order[j]].io_write_rate,
        look.column,
    ));
    lemma_cgroup_keys_to_fields(
        list[order[i]],
        list[order[j]],
        rows[a]->Cgroup_data,
        rows[b]->Cgroup_data,
        look.column,
        look.direction,
    );
}

/// The view of one machine shows what is known of its cgroups and processes, field by field.
pub proof fn tree_rows_say_what_is_known(root: CgroupView, look: LookView, k: int)
    requires
        0 <= k < tree_rows(root, look).len(),
    ensures
        is_of_tree(tree_rows(root, look)[k], root, look.node),
{
    rows_say_what_is_known(root, look, 0, true, seq![]);
}

proof fn lemma_occurs_in_list(list: Seq<ProcessView>, p: ProcessView, q: ProcessView)
    requires
        list.contains(p),
    ensures
        occurrences(list, p.pid) >= 1,
        list.contains(q) && q.pid == p.pid && occurrences(list, p.pid) == 1 ==> p == q,
{
    let kind = |r: ProcessView| r.pid == p.pid;
    let i = choose|i: int| 0 <= i < list.len() && list[i] == p;
    list.lemma_filter_contains(kind, i);
    let found = list.filter(kind);
    let k = choose|k: int| 0 <= k < found.len() && found[k] == p;
    if list.contains(q) && q.pid == p.pid {
        let j = choose|j: int| 0 <= j < list.len() && list[j] == q;
        list.lemma_filter_contains(kind, j);
        let m = choose|m: int| 0 <= m < found.len() && found[m] == q;
        assert(found.len() == 1 ==> k == 0 && m == 0);
    }
}

proof fn lemma_occurrences_of_children(v: CgroupView, n: nat, i: int, j: int, pid: u32)
    requires
        0 <= i < n <= v.children.len(),
        0 <= j < n,
    ensures
        occurrences_in(v.children[i], pid) <= occurrences_below(v, n, pid),
        i != j ==> occurrences_in(v.children[i], pid) + occurrences_in(v.children[j], pid)
            <= occurrences_below(v, n, pid),
    decreases n,
{
    if i < n - 1 && j < n - 1 {
        lemma_occurrences_of_children(v, (n - 1) as nat, i, j, pid);
    } else if i < n - 1 {
        lemma_occurrences_of_children(v, (n - 1) as nat, i, i, pid);
    } else if j < n - 1 {
        lemma_occurrences_of_children(v, (n - 1) as nat, j, j, pid);
    }
}

/// A process of a tree is counted in it, and where its ID occurs once no other has it.
proof fn lemma_occurs_in_tree(v: CgroupView, p: ProcessView, q: ProcessView)
    requires
        has_process(v, p),
    ensures
        occurrences_in(v, p.pid) >= 1,
        has_process(v, q) && q.pid == p.pid && occurrences_in(v, p.pid) == 1 ==> p == q,
    decreases v,
{
    let n = v.children.len();
    if v.processes.contains(p) {
        lemma_occurs_in_list(v.processes, p, q);
    } else {
        let i = choose|i: int| 0 <= i < n && has_process(#[trigger] v.children[i], p);
        lemma_occurs_in_tree(v.children[i], p, q);
        lemma_occurrences_of_children(v, n, i, i, p.pid);
    }
    if has_process(v, q) && q.pid == p.pid && occurrences_in(v, p.pid) == 1 {
        if v.processes.contains(q) {
            lemma_occurs_in_list(v.processes, q, p);
        } else {
            let j = choose|j: int| 0 <= j < n && has_process(#[trigger] v.children[j], q);
            lemma_occurs_in_tree(v.children[j], q, p);
            lemma_occurrences_of_children(v, n, j, j, p.pid);
            if !v.processes.contains(p) {
                let i = choose|i: int| 0 <= i < n && has_process(#[trigger] v.children[i], p);
                lemma_occurs_in_tree(v.children[i], p, q);
                lemma_occurrences_of_children(v, n, i, j, p.pid);
            }
        }
    }
}

proof fn lemma_row_is_there(rows: Seq<TreeItemView>, node: Option<Seq<char>>, pid: u32) -> (k: int)
    requires
        rows_on(rows, node, pid) > 0,
    ensures
        0 <= k < rows.len(),
        is_row_on(rows[k], node, pid),
{
    let found = rows.filter(on(node, pid));
    rows.lemma_filter_pred(on(node, pid), 0);
    assert(found.contains(found[0]));
    rows.lemma_filter_contains_rev(on(node, pid), found[0]);
    choose|k: int| 0 <= k < rows.len() && rows[k] == found[0]
}

/// Every process of a tree whose ID no other has is shown by a row that says what is known of it.
pub proof fn process_is_shown_as_it_is(v: CgroupView, look: LookView, p: ProcessView) -> (k: int)
    requires
        is_tidy(v),
        has_process(v, p),
        occurrences_in(v, p.pid) == 1,
    ensures
        0 <= k < tree_rows(v, look).len(),
        tree_rows(v, look)[k] matches TreeItemView::Process { data, .. } && says(data, p)
            && data.node == look.node,
        forall|m: int|
            0 <= m < tree_rows(v, look).len() && (#[trigger] tree_rows(v, look)[m]) is Process
                && tree_rows(v, look)[m]->Process_data.pid == p.pid ==> says(
                tree_rows(v, look)[m]->Process_data,
                p,
            ),
{
    let rows = tree_rows(v, look);
    every_process_in_the_tree_has_its_row(v, look, 0, true, seq![], look.node, p.pid);
    rows_say_what_is_known(v, look, 0, true, seq![]);
    assert forall|m: int|
        0 <= m < rows.len() && (#[trigger] rows[m]) is Process && rows[m]->Process_data.pid
            == p.pid implies says(rows[m]->Process_data, p) by {
        assert(is_of_tree(rows[m], v, look.node));
        let q = choose|q: ProcessView|
            #[trigger] has_process(v, q) && says(rows[m]->Process_data, q);
        lemma_occurs_in_tree(v, p, q);
    }
    let k = lemma_row_is_there(rows, look.node, p.pid);
    assert(is_of_tree(rows[k], v, look.node));
    k
}

}
