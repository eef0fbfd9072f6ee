//! Where the rows of a tree stand: under what they belong to, one level further in.

use vstd::prelude::*;
use crate::cgroup::types::CgroupView;
use crate::process::types::ProcessView;
use crate::row_fields::{
    child_start, lemma_child_row, lemma_member_row, lemma_ranked_in_range, member_start, says,
    says_metrics,
};
use crate::row_laws::lemma_ranked_family;
use crate::rows::{
    cgroup_rows, child_order, child_rows, family_rows, forest_rows, process_rows, ranked_family,
    LookView, TreeItemView,
};

verus! {

/// What stands before all that is below a cgroup: nothing below the top, else a line down to the next
/// sibling, or a gap below the last.
pub open spec fn indent(depth: usize, is_last: bool, parent: Seq<char>) -> Seq<char> {
    if depth == 0 {
        Seq::empty()
    } else if is_last {
        parent + "    "@
    } else {
        parent + "│   "@
    }
}

/// The children of a cgroup stand below it, one level deeper and further in; the last of them is the
/// last of all where there are no processes.
pub proof fn children_stand_below_their_cgroup(
    v: CgroupView,
    look: LookView,
    depth: usize,
    is_last: bool,
    parent: Seq<char>,
    k: int,
)
    requires
        0 <= k < v.children.len(),
        depth < usize::MAX,
    ensures
        ({
            let rows = cgroup_rows(v, look, depth, is_last, parent);
            let before = indent(depth, is_last, parent);
            let next = (depth + 1) as usize;
            let at = 1 + child_start(v, k, look, next, before);
            let child = v.children[child_order(v, look)[k]];
            &&& 0 < at < rows.len()
            &&& rows[at] matches TreeItemView::Cgroup { data, depth: level, is_last: last, prefix }
                && data.name == child.name && says_metrics(data, child) && level == depth + 1
                && prefix == before && last == (k == v.children.len() - 1 && v.processes.len() == 0)
        }),
{
    let rows = cgroup_rows(v, look, depth, is_last, parent);
    let before = indent(depth, is_last, parent);
    let next = (depth + 1) as usize;
    let inner = child_rows(v, v.children.len(), look, next, before);
    let own = forest_rows(v.processes, look, before);
    lemma_child_row(v, v.children.len(), k, look, next, before);
    assert(rows == seq![rows[0]] + inner + own);
    assert(rows[1 + child_start(v, k, look, next, before)] == inner[child_start(
        v,
        k,
        look,
        next,
        before,
    )]);
}

/// The processes of a cgroup stand below it and its children: first those whose parent is not in it,
/// with nothing before them but what stands before all that is below the cgroup.
pub proof fn processes_stand_below_their_cgroup(
    v: CgroupView,
    look: LookView,
    depth: usize,
    is_last: bool,
    parent: Seq<char>,
    k: int,
)
    requires
        0 <= k < ranked_family(v.processes, None, look).len(),
        depth < usize::MAX,
    ensures
        ({
            let rows = cgroup_rows(v, look, depth, is_last, parent);
            let before = indent(depth, is_last, parent);
            let roots = ranked_family(v.processes, None, look);
            let at = 1 + child_rows(v, v.children.len(), look, (depth + 1) as usize, before).len()
                + member_start(
                v.processes,
                roots,
                k,
                look,
                before,
                Seq::empty(),
                v.processes.len(),
            );
            let p = v.processes[roots[k]];
            &&& 0 < at < rows.len()
            &&& rows[at] matches TreeItemView::Process {
                data,
                is_last: last,
                cgroup_prefix,
                process_prefix,
            } && says(data, p) && cgroup_prefix == before && process_prefix == Seq::<char>::empty()
                && last == (k == roots.len() - 1)
            &&& forall|j: int|
                0 <= j < v.processes.len() ==> (#[trigger] v.processes[j]).pid != p.ppid
        }),
{
    let rows = cgroup_rows(v, look, depth, is_last, parent);
    let before = indent(depth, is_last, parent);
    let next = (depth + 1) as usize;
    let inner = child_rows(v, v.children.len(), look, next, before);
    let own = forest_rows(v.processes, look, before);
    let list = v.processes;
    let roots = ranked_family(list, None, look);
    lemma_ranked_in_range(list, None, look);
    assert(0 <= roots[k] < list.len());
    lemma_member_row(list, roots, roots.len(), k, look, before, Seq::empty(), list.len());
    lemma_ranked_family(list, None, look, k);
    let start = member_start(list, roots, k, look, before, Seq::empty(), list.len());
    assert(rows == seq![rows[0]] + inner + own);
    assert(rows[1 + inner.len() + start] == own[start]);
    assert forall|j: int| 0 <= j < list.len() implies (#[trigger] list[j]).pid != list[roots[k]].ppid by {
        assert(!crate::process::types::listed(list, list[roots[k]].ppid));
    }
}

/// The children of a process stand below it, further in: behind a line down to its next sibling, or
/// behind a gap below the last.
pub proof fn children_stand_below_their_process(
    list: Seq<ProcessView>,
    i: int,
    look: LookView,
    cgroup_prefix: Seq<char>,
    is_last: bool,
    prefix: Seq<char>,
    levels: nat,
    k: int,
)
    requires
        0 <= i < list.len(),
        levels > 0,
        0 <= k < ranked_family(list, Some(list[i].pid), look).len(),
    ensures
        ({
            let rows = process_rows(list, i, look, cgroup_prefix, is_last, prefix, levels);
            let children = ranked_family(list, Some(list[i].pid), look);
            let inner = prefix + (if is_last {
                "   "@
            } else {
                "│  "@
            });
            let at = 1 + member_start(list, children, k, look, cgroup_prefix, inner, levels);
            let child = list[children[k]];
            &&& child.ppid == list[i].pid
            &&& 0 < at < rows.len()
            &&& rows[at] matches TreeItemView::Process {
                data,
                is_last: last,
                cgroup_prefix: outer,
                process_prefix,
            } && says(data, child) && outer == cgroup_prefix && process_prefix == inner && last == (k
                == children.len() - 1)
        }),
{
    let rows = process_rows(list, i, look, cgroup_prefix, is_last, prefix, levels);
    let children = ranked_family(list, Some(list[i].pid), look);
    let inner = prefix + (if is_last {
        "   "@
    } else {
        "│  "@
    });
    lemma_ranked_in_range(list, Some(list[i].pid), look);
    lemma_member_row(list, children, children.len(), k, look, cgroup_prefix, inner, levels);
    lemma_ranked_family(list, Some(list[i].pid), look, k);
    let below = family_rows(list, children, children.len(), look, cgroup_prefix, inner, levels);
    let start = member_start(list, children, k, look, cgroup_prefix, inner, levels);
    assert(rows == seq![rows[0]] + below);
    assert(rows[1 + start] == below[start]);
}

}
