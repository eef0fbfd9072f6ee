//! The compact form of a tree: without what belongs to the workload manager itself.

use vstd::prelude::*;
use crate::cgroup::parser::{name_order, order_names};
use crate::cgroup::types::{lemma_children, CgroupNode, CgroupView};
use crate::model::views;
use crate::process::types::{Process, ProcessView};
use crate::sort::{
    comparable_is_consistent, indices, precedes, sorted, sorted_has_every_row, sorted_is_in_order,
    sorted_is_permutation, sorting_keeps_what_is_in_order, KeyView, SortDirection,
};
use crate::text::{same_text, text_before, texts};

verus! {

/// A 32-bit sum, with wrap-around.
pub open spec fn wrapped(n: int) -> int {
    if n > i32::MAX {
        n - 0x1_0000_0000
    } else if n < i32::MIN {
        n + 0x1_0000_0000
    } else {
        n
    }
}

/// A depth in the tree moved by some levels, not above the root.
pub open spec fn depth_moved(depth: usize, delta: int) -> usize {
    let low = depth as int % 0x1_0000_0000;
    let signed = if low < 0x8000_0000 { low } else { low - 0x1_0000_0000 };
    let moved = wrapped(signed + delta);
    if moved > 0 {
        moved as usize
    } else {
        0
    }
}

/// A tree with all its depths moved by some levels.
pub open spec fn moved(v: CgroupView, delta: int) -> CgroupView
    decreases v,
{
    CgroupView {
        depth: depth_moved(v.depth, delta),
        children: Seq::new(
            v.children.len(),
            |i: int|
                if 0 <= i < v.children.len() {
                    moved(v.children[i], delta)
                } else {
                    arbitrary()
                },
        ),
        ..v
    }
}

/// There is no process in the cgroup or below it.
pub open spec fn effectively_empty(v: CgroupView) -> bool
    decreases v,
{
    &&& v.processes.len() == 0
    &&& forall|i: int| 0 <= i < v.children.len() ==> effectively_empty(#[trigger] v.children[i])
}

/// The level that only groups the tasks of a step.
pub open spec fn is_user_level(v: CgroupView) -> bool {
    v.name == "user"@
}

/// What stays in the compact form: not the manager's own cgroup, and nothing without processes.
pub open spec fn stays(v: CgroupView) -> bool {
    v.name != "slurm"@ && !effectively_empty(v)
}

/// The cgroups below the user levels, one level up.
pub open spec fn promoted(list: Seq<CgroupView>) -> Seq<CgroupView>
    decreases list.len(),
{
    if list.len() == 0 {
        seq![]
    } else {
        let before = promoted(list.drop_last());
        if is_user_level(list.last()) {
            before + list.last().children.map_values(|c: CgroupView| moved(c, -1))
        } else {
            before
        }
    }
}

/// The cgroups in place of a list: those below a user level in place of it, and without what does
/// not stay.
pub open spec fn lifted(list: Seq<CgroupView>) -> Seq<CgroupView> {
    (list.filter(|c: CgroupView| !is_user_level(c)) + promoted(list)).filter(
        |c: CgroupView| stays(c),
    )
}

/// The cgroups in the order of their names.
pub open spec fn by_name(list: Seq<CgroupView>) -> Seq<CgroupView> {
    let order = name_order(list.map_values(|c: CgroupView| c.name));
    Seq::new(order.len(), |k: int| list[order[k]])
}

/// The processes but for the collector.
pub open spec fn without_collector(
    list: Seq<ProcessView>,
    collector_pid: Option<u32>,
) -> Seq<ProcessView> {
    match collector_pid {
        Some(pid) => list.filter(|p: ProcessView| p.pid != pid),
        None => list,
    }
}

/// The compact form of a tree.
pub open spec fn compacted(v: CgroupView, collector_pid: Option<u32>) -> CgroupView
    decreases v, 1nat,
{
    CgroupView {
        children: by_name(lifted(compacted_below(v, collector_pid))),
        processes: without_collector(v.processes, collector_pid),
        ..v
    }
}

/// The children of a cgroup, each in its compact form.
pub open spec fn compacted_below(v: CgroupView, collector_pid: Option<u32>) -> Seq<CgroupView>
    decreases v, 0nat,
{
    Seq::new(
        v.children.len(),
        |i: int|
            if 0 <= i < v.children.len() {
                compacted(v.children[i], collector_pid)
            } else {
                arbitrary()
            },
    )
}

fn move_depth(depth: usize, delta: i32) -> (r: usize)
    ensures
        r == depth_moved(depth, delta as int),
{
    let low: i64 = (depth as u64 % 0x1_0000_0000) as i64;
    let signed: i64 = if low < 0x8000_0000 {
        low
    } else {
        low - 0x1_0000_0000
    };
    let sum: i64 = signed + delta as i64;
    let moved: i64 = if sum > 0x7fff_ffff {
        sum - 0x1_0000_0000
    } else if sum < -0x8000_0000 {
        sum + 0x1_0000_0000
    } else {
        sum
    };
    if moved > 0 {
        moved as usize
    } else {
        0
    }
}

/// Moves all depths in a tree by some levels.
pub fn adjust_depth(node: &mut CgroupNode, delta: i32)
    ensures
        final(node)@ == moved(old(node)@, delta as int),
    decreases *old(node),
{
    let ghost before = *node;
    proof {
        lemma_children(before);
    }
    node.depth = move_depth(node.depth, delta);
    let n: usize = node.children.len();
    let mut i: usize = 0;
    while i < n
        invariant
            i <= n,
            before == *old(node),
            n == before.children@.len(),
            before@.children.len() == n,
            node.children@.len() == n,
            node.path == before.path,
            node.name == before.name,
            node.processes == before.processes,
            node.metrics == before.metrics,
            node.depth == depth_moved(before.depth, delta as int),
            forall|j: int| 0 <= j < n ==> #[trigger] before.children@[j]@ == before@.children[j],
            forall|j: int| i <= j < n ==> #[trigger] node.children@[j] == before.children@[j],
            forall|j: int|
                0 <= j < i ==> (#[trigger] node.children@[j])@ == moved(
                    before@.children[j],
                    delta as int,
                ),
        decreases n - i,
    {
        assert(node.children@[i as int] == before.children@[i as int]);
        assert(before.children@[i as int]@ == before@.children[i as int]);
        assert(decreases_to!(before => before.children@[i as int]));
        adjust_depth(&mut node.children[i], delta);
        i += 1;
    }
    proof {
        lemma_children(*node);
        assert(node@.children =~= moved(before@, delta as int).children);
    }
}

/// Tests whether there is no process in the cgroup or below it.
pub fn is_effectively_empty(node: &CgroupNode) -> (r: bool)
    ensures
        r == effectively_empty(node@),
    decreases node,
{
    proof {
        lemma_children(*node);
    }
    if node.processes.len() != 0 {
        assert(node@.processes.len() == node.processes@.len());
        return false;
    }
    let mut i: usize = 0;
    while i < node.children.len()
        invariant
            i <= node.children@.len(),
            node@.children.len() == node.children@.len(),
            node@.processes.len() == 0,
            forall|j: int|
                0 <= j < node.children@.len() ==> #[trigger] node.children@[j]@ == node@.children[j],
            forall|j: int| 0 <= j < i ==> effectively_empty(#[trigger] node@.children[j]),
        decreases node.children@.len() - i,
    {
        assert(node.children@[i as int]@ == node@.children[i as int]);
        if !is_effectively_empty(&node.children[i]) {
            return false;
        }
        i += 1;
    }
    true
}

fn drop_collector(list: &Vec<Process>, collector_pid: Option<u32>) -> (r: Vec<Process>)
    ensures
        views(r@) == without_collector(views(list@), collector_pid),
{
    match collector_pid {
        Some(pid) => {
            let ghost all = views(list@);
            let ghost keep = |p: ProcessView| p.pid != pid;
            let mut out: Vec<Process> = Vec::new();
            let mut i: usize = 0;
            proof {
                reveal(Seq::filter);
                assert(views(out@) =~= all.take(0).filter(keep));
            }
            while i < list.len()
                invariant
                    i <= list@.len(),
                    all == views(list@),
                    keep == (|p: ProcessView| p.pid != pid),
                    views(out@) == all.take(i as int).filter(keep),
                decreases list@.len() - i,
            {
                proof {
                    reveal(Seq::filter);
                    assert(all.take(i + 1).drop_last() =~= all.take(i as int));
                    assert(all.take(i + 1).last() == list@[i as int]@);
                }
                if list[i].pid != pid {
                    let p = list[i].clone();
                    let ghost before = out@;
                    out.push(p);
                    assert(views(out@) =~= views(before).push(p@));
                }
                i += 1;
            }
            assert(all.take(all.len() as int) =~= all);
            out
        },
        None => crate::process::types::copy_processes(list),
    }
}

/// The cgroups of a list that are no user level.
fn keep_levels(list: &Vec<CgroupNode>) -> (r: Vec<CgroupNode>)
    ensures
        views(r@) == views(list@).filter(|c: CgroupView| !is_user_level(c)),
{
    let ghost all = views(list@);
    let ghost keep = |c: CgroupView| !is_user_level(c);
    let mut out: Vec<CgroupNode> = Vec::new();
    let mut i: usize = 0;
    proof {
        reveal(Seq::filter);
        assert(views(out@) =~= all.take(0).filter(keep));
    }
    while i < list.len()
        invariant
            i <= list@.len(),
            all == views(list@),
            keep == (|c: CgroupView| !is_user_level(c)),
            views(out@) == all.take(i as int).filter(keep),
        decreases list@.len() - i,
    {
        proof {
            reveal(Seq::filter);
            assert(all.take(i + 1).drop_last() =~= all.take(i as int));
            assert(all.take(i + 1).last() == list@[i as int]@);
        }
        if !same_text(list[i].name.as_str(), "user") {
            let c = list[i].clone();
            let ghost before = out@;
            out.push(c);
            assert(views(out@) =~= views(before).push(c@));
        }
        i += 1;
    }
    assert(all.take(all.len() as int) =~= all);
    out
}

/// Adds the children of a user level, one level up.
fn promote(node: &CgroupNode, out: &mut Vec<CgroupNode>)
    ensures
        views(final(out)@) == views(old(out)@) + node@.children.map_values(
            |c: CgroupView| moved(c, -1),
        ),
{
    let ghost start = views(out@);
    let ghost up = node@.children.map_values(|c: CgroupView| moved(c, -1));
    proof {
        lemma_children(*node);
        assert(start + up.take(0) =~= start);
    }
    let mut i: usize = 0;
    while i < node.children.len()
        invariant
            i <= node.children@.len(),
            node@.children.len() == node.children@.len(),
            forall|j: int|
                0 <= j < node.children@.len() ==> #[trigger] node.children@[j]@ == node@.children[j],
            up == node@.children.map_values(|c: CgroupView| moved(c, -1)),
            views(out@) == start + up.take(i as int),
        decreases node.children@.len() - i,
    {
        assert(node.children@[i as int]@ == node@.children[i as int]);
        let mut child = node.children[i].clone();
        adjust_depth(&mut child, -1);
        let ghost before = out@;
        out.push(child);
        proof {
            assert(views(out@) =~= views(before).push(child@));
            assert(up.take(i + 1) =~= up.take(i as int).push(up[i as int]));
            assert((start + up.take(i as int)).push(up[i as int]) =~= start + up.take(i + 1));
        }
        i += 1;
    }
    assert(up.take(up.len() as int) =~= up);
}

/// The cgroups in place of a list.
fn lift(list: &Vec<CgroupNode>) -> (r: Vec<CgroupNode>)
    ensures
        views(r@) == lifted(views(list@)),
{
    let ghost all = views(list@);
    let mut levels = keep_levels(list);
    let ghost kept = views(levels@);
    let mut i: usize = 0;
    assert(kept + promoted(all.take(0)) =~= kept);
    while i < list.len()
        invariant
            i <= list@.len(),
            all == views(list@),
            views(levels@) == kept + promoted(all.take(i as int)),
        decreases list@.len() - i,
    {
        proof {
            assert(all.take(i + 1).drop_last() =~= all.take(i as int));
            assert(all.take(i + 1).last() == list@[i as int]@);
        }
        if same_text(list[i].name.as_str(), "user") {
            promote(&list[i], &mut levels);
            proof {
                let up = list@[i as int]@.children.map_values(|c: CgroupView| moved(c, -1));
                assert((kept + promoted(all.take(i as int))) + up =~= kept + (promoted(
                    all.take(i as int),
                ) + up));
            }
        }
        i += 1;
    }
    assert(all.take(all.len() as int) =~= all);
    let ghost whole = views(levels@);
    let ghost keep = |c: CgroupView| stays(c);
    let mut out: Vec<CgroupNode> = Vec::new();
    let mut k: usize = 0;
    proof {
        reveal(Seq::filter);
        assert(views(out@) =~= whole.take(0).filter(keep));
    }
    while k < levels.len()
        invariant
            k <= levels@.len(),
            whole == views(levels@),
            keep == (|c: CgroupView| stays(c)),
            views(out@) == whole.take(k as int).filter(keep),
        decreases levels@.len() - k,
    {
        proof {
            reveal(Seq::filter);
            assert(whole.take(k + 1).drop_last() =~= whole.take(k as int));
            assert(whole.take(k + 1).last() == levels@[k as int]@);
        }
        if !same_text(levels[k].name.as_str(), "slurm") && !is_effectively_empty(&levels[k]) {
            let c = levels[k].clone();
            let ghost before = out@;
            out.push(c);
            assert(views(out@) =~= views(before).push(c@));
        }
        k += 1;
    }
    assert(whole.take(whole.len() as int) =~= whole);
    out
}

/// The cgroups in the order of their names.
fn sort_by_name(list: &Vec<CgroupNode>) -> (r: Vec<CgroupNode>)
    ensures
        views(r@) == by_name(views(list@)),
{
    let mut names: Vec<String> = Vec::new();
    let mut i: usize = 0;
    while i < list.len()
        invariant
            i <= list@.len(),
            names@.len() == i,
            forall|j: int| 0 <= j < i ==> (#[trigger] names@[j])@ == list@[j]@.name,
        decreases list@.len() - i,
    {
        names.push(list[i].name.clone());
        i += 1;
    }
    assert(texts(names@) =~= views(list@).map_values(|c: CgroupView| c.name));
    let order = order_names(&names);
    let mut out: Vec<CgroupNode> = Vec::new();
    let mut k: usize = 0;
    while k < order.len()
        invariant
            k <= order@.len(),
            order@.len() == list@.len(),
            forall|j: int| 0 <= j < order@.len() ==> (#[trigger] order@[j]) < list@.len(),
            out@.len() == k,
            forall|j: int|
                0 <= j < k ==> (#[trigger] out@[j])@ == views(list@)[indices(order@)[j]],
        decreases order@.len() - k,
    {
        assert(order@[k as int] < list@.len());
        out.push(list[order[k]].clone());
        k += 1;
    }
    assert(views(out@) =~= by_name(views(list@)));
    out
}

/// Brings a tree into its compact form.
pub fn apply_compact_filter(tree: &mut CgroupNode, collector_pid: Option<u32>)
    ensures
        final(tree)@ == compacted(old(tree)@, collector_pid),
    decreases *old(tree),
{
    let ghost before = *tree;
    proof {
        lemma_children(before);
    }
    let n: usize = tree.children.len();
    let mut i: usize = 0;
    while i < n
        invariant
            i <= n,
            before == *old(tree),
            n == before.children@.len(),
            before@.children.len() == n,
            tree.children@.len() == n,
            tree.path == before.path,
            tree.name == before.name,
            tree.processes == before.processes,
            tree.metrics == before.metrics,
            tree.depth == before.depth,
            forall|j: int| 0 <= j < n ==> #[trigger] before.children@[j]@ == before@.children[j],
            forall|j: int| i <= j < n ==> #[trigger] tree.children@[j] == before.children@[j],
            forall|j: int|
                0 <= j < i ==> (#[trigger] tree.children@[j])@ == compacted(
                    before@.children[j],
                    collector_pid,
                ),
        decreases n - i,
    {
        assert(tree.children@[i as int] == before.children@[i as int]);
        assert(before.children@[i as int]@ == before@.children[i as int]);
        assert(decreases_to!(before => before.children@[i as int]));
        apply_compact_filter(&mut tree.children[i], collector_pid);
        i += 1;
    }
    let ghost inner = compacted_below(before@, collector_pid);
    assert(views(tree.children@) =~= inner);
    tree.processes = drop_collector(&tree.processes, collector_pid);
    let levels = lift(&tree.children);
    tree.children = sort_by_name(&levels);
    proof {
        lemma_children(*tree);
    }
}

/// Below the cgroup there is no user level, no cgroup of the workload manager and none without
/// processes, and the collector is nowhere.
pub open spec fn is_compact(v: CgroupView, collector_pid: Option<u32>) -> bool
    decreases v,
{
    &&& forall|i: int|
        0 <= i < v.processes.len() ==> collector_pid != Some((#[trigger] v.processes[i]).pid)
    &&& forall|i: int| 0 <= i < v.children.len() ==> belongs(#[trigger] v.children[i])
    &&& forall|i: int| 0 <= i < v.children.len() ==> is_compact(#[trigger] v.children[i], collector_pid)
}

/// A cgroup that may stand below another in the compact form.
pub open spec fn belongs(v: CgroupView) -> bool {
    v.name != "user"@ && v.name != "slurm"@ && !effectively_empty(v)
}

proof fn lemma_moved_empty(v: CgroupView, delta: int)
    ensures
        effectively_empty(moved(v, delta)) == effectively_empty(v),
    decreases v,
{
    let m = moved(v, delta);
    assert forall|i: int| 0 <= i < v.children.len() implies effectively_empty(
        #[trigger] v.children[i],
    ) == effectively_empty(m.children[i]) by {
        lemma_moved_empty(v.children[i], delta);
    }
    if effectively_empty(m) {
        assert forall|i: int| 0 <= i < v.children.len() implies effectively_empty(
            #[trigger] v.children[i],
        ) by {
            assert(effectively_empty(m.children[i]));
        }
    }
}

proof fn lemma_moved_compact(v: CgroupView, delta: int, collector_pid: Option<u32>)
    requires
        is_compact(v, collector_pid),
    ensures
        is_compact(moved(v, delta), collector_pid),
    decreases v,
{
    let m = moved(v, delta);
    assert forall|i: int| 0 <= i < m.children.len() implies belongs(#[trigger] m.children[i])
        && is_compact(m.children[i], collector_pid) by {
        let c = v.children[i];
        assert(belongs(c) && is_compact(c, collector_pid));
        lemma_moved_empty(c, delta);
        lemma_moved_compact(c, delta, collector_pid);
    }
}

/// Every cgroup below a user level belongs one level up.
proof fn lemma_promoted(list: Seq<CgroupView>, collector_pid: Option<u32>, k: int)
    requires
        forall|i: int| 0 <= i < list.len() ==> is_compact(#[trigger] list[i], collector_pid),
        0 <= k < promoted(list).len(),
    ensures
        belongs(promoted(list)[k]),
        is_compact(promoted(list)[k], collector_pid),
    decreases list.len(),
{
    let front = list.drop_last();
    let before = promoted(front);
    assert forall|i: int| 0 <= i < front.len() implies is_compact(#[trigger] front[i], collector_pid) by {
        assert(front[i] == list[i]);
    }
    if k < before.len() {
        lemma_promoted(front, collector_pid, k);
        assert(promoted(list)[k] == before[k]);
    } else {
        let last = list[list.len() - 1];
        assert(is_compact(last, collector_pid));
        let c = last.children[k - before.len()];
        assert(belongs(c) && is_compact(c, collector_pid));
        assert(promoted(list)[k] == moved(c, -1));
        lemma_moved_empty(c, -1);
        lemma_moved_compact(c, -1, collector_pid);
    }
}

proof fn lemma_lifted(list: Seq<CgroupView>, collector_pid: Option<u32>, k: int)
    requires
        forall|i: int| 0 <= i < list.len() ==> is_compact(#[trigger] list[i], collector_pid),
        0 <= k < lifted(list).len(),
    ensures
        belongs(lifted(list)[k]),
        is_compact(lifted(list)[k], collector_pid),
{
    let kept = list.filter(|c: CgroupView| !is_user_level(c));
    let all = kept + promoted(list);
    let c = lifted(list)[k];
    all.lemma_filter_contains_rev(|c: CgroupView| stays(c), c);
    let i = choose|i: int| 0 <= i < all.len() && all[i] == c;
    if i < kept.len() {
        assert(kept[i] == c);
        list.lemma_filter_contains_rev(|c: CgroupView| !is_user_level(c), c);
        let j = choose|j: int| 0 <= j < list.len() && list[j] == c;
        assert(is_compact(list[j], collector_pid));
    } else {
        lemma_promoted(list, collector_pid, i - kept.len());
    }
}

/// The compact form of a tree is compact: it shows no user level, no cgroup of the workload
/// manager, no cgroup without processes and no collector.
pub proof fn compacted_is_compact(v: CgroupView, collector_pid: Option<u32>)
    ensures
        is_compact(compacted(v, collector_pid), collector_pid),
    decreases v,
{
    let inner = compacted_below(v, collector_pid);
    let r = compacted(v, collector_pid);
    assert forall|i: int| 0 <= i < inner.len() implies is_compact(#[trigger] inner[i], collector_pid) by {
        compacted_is_compact(v.children[i], collector_pid);
    }
    let list = lifted(inner);
    let names = list.map_values(|c: CgroupView| c.name);
    sorted_is_permutation(
        names.map_values(|n: Seq<char>| KeyView::Text(n)),
        SortDirection::Ascending,
    );
    let order = name_order(names);
    assert forall|k: int| 0 <= k < r.children.len() implies belongs(#[trigger] r.children[k])
        && is_compact(r.children[k], collector_pid) by {
        assert(0 <= order[k] < list.len());
        lemma_lifted(inner, collector_pid, order[k]);
    }
    match collector_pid {
        Some(pid) => {
            assert forall|i: int| 0 <= i < r.processes.len() implies collector_pid != Some(
                (#[trigger] r.processes[i]).pid,
            ) by {
                v.processes.lemma_filter_pred(|p: ProcessView| p.pid != pid, i);
            }
        },
        None => {},
    }
}

/// At every level the cgroups are in the order of their names.
pub open spec fn is_in_name_order(v: CgroupView) -> bool
    decreases v,
{
    &&& forall|i: int, j: int|
        0 <= i < j < v.children.len() ==> !text_before(
            (#[trigger] v.children[j]).name,
            (#[trigger] v.children[i]).name,
        )
    &&& forall|i: int| 0 <= i < v.children.len() ==> is_in_name_order(#[trigger] v.children[i])
}

proof fn lemma_moved_order(v: CgroupView, delta: int)
    requires
        is_in_name_order(v),
    ensures
        is_in_name_order(moved(v, delta)),
    decreases v,
{
    let m = moved(v, delta);
    assert forall|i: int| 0 <= i < m.children.len() implies is_in_name_order(
        #[trigger] m.children[i],
    ) && m.children[i].name == v.children[i].name by {
        assert(is_in_name_order(v.children[i]));
        lemma_moved_order(v.children[i], delta);
    }
    assert forall|i: int, j: int| 0 <= i < j < m.children.len() implies !text_before(
        (#[trigger] m.children[j]).name,
        (#[trigger] m.children[i]).name,
    ) by {
        assert(!text_before(v.children[j].name, v.children[i].name));
    }
}

proof fn lemma_promoted_order(list: Seq<CgroupView>, k: int)
    requires
        forall|i: int| 0 <= i < list.len() ==> is_in_name_order(#[trigger] list[i]),
        0 <= k < promoted(list).len(),
    ensures
        is_in_name_order(promoted(list)[k]),
    decreases list.len(),
{
    let front = list.drop_last();
    let before = promoted(front);
    assert forall|i: int| 0 <= i < front.len() implies is_in_name_order(#[trigger] front[i]) by {
        assert(front[i] == list[i]);
    }
    if k < before.len() {
        lemma_promoted_order(front, k);
        assert(promoted(list)[k] == before[k]);
    } else {
        let last = list[list.len() - 1];
        assert(is_in_name_order(last));
        let c = last.children[k - before.len()];
        assert(is_in_name_order(c));
        assert(promoted(list)[k] == moved(c, -1));
        lemma_moved_order(c, -1);
    }
}

proof fn lemma_lifted_order(list: Seq<CgroupView>, k: int)
    requires
        forall|i: int| 0 <= i < list.len() ==> is_in_name_order(#[trigger] list[i]),
        0 <= k < lifted(list).len(),
    ensures
        is_in_name_order(lifted(list)[k]),
{
    let kept = list.filter(|c: CgroupView| !is_user_level(c));
    let all = kept + promoted(list);
    let c = lifted(list)[k];
    all.lemma_filter_contains_rev(|c: CgroupView| stays(c), c);
    let i = choose|i: int| 0 <= i < all.len() && all[i] == c;
    if i < kept.len() {
        assert(kept[i] == c);
        list.lemma_filter_contains_rev(|c: CgroupView| !is_user_level(c), c);
        let j = choose|j: int| 0 <= j < list.len() && list[j] == c;
        assert(is_in_name_order(list[j]));
    } else {
        lemma_promoted_order(list, i - kept.len());
    }
}

/// In the compact form the cgroups are in the order of their names, at every level.
pub proof fn compacted_is_in_name_order(v: CgroupView, collector_pid: Option<u32>)
    ensures
        is_in_name_order(compacted(v, collector_pid)),
    decreases v,
{
    let inner = compacted_below(v, collector_pid);
    let r = compacted(v, collector_pid);
    assert forall|i: int| 0 <= i < inner.len() implies is_in_name_order(#[trigger] inner[i]) by {
        compacted_is_in_name_order(v.children[i], collector_pid);
    }
    let list = lifted(inner);
    let names = list.map_values(|c: CgroupView| c.name);
    let keys = names.map_values(|n: Seq<char>| KeyView::Text(n));
    let order = sorted(keys, SortDirection::Ascending);
    assert(order == name_order(names));
    sorted_is_permutation(keys, SortDirection::Ascending);
    comparable_is_consistent(keys, SortDirection::Ascending);
    sorted_is_in_order(keys, SortDirection::Ascending);
    assert forall|k: int| 0 <= k < r.children.len() implies is_in_name_order(
        #[trigger] r.children[k],
    ) && r.children[k].name == names[order[k]] by {
        assert(0 <= order[k] < list.len());
        lemma_lifted_order(inner, order[k]);
    }
    assert forall|i: int, j: int| 0 <= i < j < r.children.len() implies !text_before(
        (#[trigger] r.children[j]).name,
        (#[trigger] r.children[i]).name,
    ) by {
        assert(0 <= order[i] < list.len() && 0 <= order[j] < list.len());
        assert(!precedes(keys[order[j]], keys[order[i]], SortDirection::Ascending));
    }
}

proof fn lemma_nothing_promoted(list: Seq<CgroupView>)
    requires
        forall|i: int| 0 <= i < list.len() ==> !is_user_level(#[trigger] list[i]),
    ensures
        promoted(list) == Seq::<CgroupView>::empty(),
    decreases list.len(),
{
    if list.len() > 0 {
        assert forall|i: int| 0 <= i < list.drop_last().len() implies !is_user_level(
            #[trigger] list.drop_last()[i],
        ) by {
            assert(list.drop_last()[i] == list[i]);
        }
        lemma_nothing_promoted(list.drop_last());
        assert(list[list.len() - 1] == list.last());
    }
}

proof fn lemma_filter_all<T>(list: Seq<T>, keep: spec_fn(T) -> bool)
    requires
        forall|i: int| 0 <= i < list.len() ==> keep(#[trigger] list[i]),
    ensures
        list.filter(keep) == list,
    decreases list.len(),
{
    reveal(Seq::filter);
    if list.len() > 0 {
        let front = list.drop_last();
        assert forall|i: int| 0 <= i < front.len() implies keep(#[trigger] front[i]) by {
            assert(front[i] == list[i]);
        }
        lemma_filter_all(front, keep);
        assert(keep(list[list.len() - 1]));
        assert(front.push(list.last()) =~= list);
    }
}

proof fn lemma_lifted_stays(list: Seq<CgroupView>)
    requires
        forall|i: int| 0 <= i < list.len() ==> belongs(#[trigger] list[i]),
    ensures
        lifted(list) == list,
{
    lemma_nothing_promoted(list);
    lemma_filter_all(list, |c: CgroupView| !is_user_level(c));
    assert(list + Seq::<CgroupView>::empty() =~= list);
    lemma_filter_all(list, |c: CgroupView| stays(c));
}

proof fn lemma_by_name_stays(list: Seq<CgroupView>)
    requires
        forall|i: int, j: int|
            0 <= i < j < list.len() ==> !text_before(
                (#[trigger] list[j]).name,
                (#[trigger] list[i]).name,
            ),
    ensures
        by_name(list) == list,
{
    let names = list.map_values(|c: CgroupView| c.name);
    let keys = names.map_values(|n: Seq<char>| KeyView::Text(n));
    assert forall|i: int, j: int| 0 <= i < j < keys.len() implies !precedes(
        #[trigger] keys[j],
        #[trigger] keys[i],
        SortDirection::Ascending,
    ) by {
        assert(!text_before(list[j].name, list[i].name));
    }
    sorting_keeps_what_is_in_order(keys, SortDirection::Ascending, keys.len());
    assert(by_name(list) =~= list);
}

proof fn lemma_collector_stays_out(list: Seq<ProcessView>, collector_pid: Option<u32>)
    requires
        forall|i: int| 0 <= i < list.len() ==> collector_pid != Some((#[trigger] list[i]).pid),
    ensures
        without_collector(list, collector_pid) == list,
{
    match collector_pid {
        Some(pid) => {
            lemma_filter_all(list, |p: ProcessView| p.pid != pid);
        },
        None => {},
    }
}

proof fn lemma_compact_stays(v: CgroupView, collector_pid: Option<u32>)
    requires
        is_compact(v, collector_pid),
        is_in_name_order(v),
    ensures
        compacted(v, collector_pid) == v,
    decreases v,
{
    assert(compacted_below(v, collector_pid) =~= v.children) by {
        assert forall|i: int| 0 <= i < v.children.len() implies #[trigger] compacted_below(
            v,
            collector_pid,
        )[i] == v.children[i] by {
            assert(is_compact(v.children[i], collector_pid));
            assert(is_in_name_order(v.children[i]));
            lemma_compact_stays(v.children[i], collector_pid);
        }
    }
    lemma_lifted_stays(v.children);
    lemma_by_name_stays(v.children);
    lemma_collector_stays_out(v.processes, collector_pid);
}

/// The compact form of the compact form is itself.
pub proof fn compacting_twice_changes_nothing(v: CgroupView, collector_pid: Option<u32>)
    ensures
        compacted(compacted(v, collector_pid), collector_pid) == compacted(v, collector_pid),
{
    compacted_is_compact(v, collector_pid);
    compacted_is_in_name_order(v, collector_pid);
    lemma_compact_stays(compacted(v, collector_pid), collector_pid);
}

/// The process is in the cgroup or below it.
pub open spec fn runs(v: CgroupView, p: ProcessView) -> bool
    decreases v, 1nat,
{
    v.processes.contains(p) || runs_below(v, p)
}

/// The process is below the cgroup.
pub open spec fn runs_below(v: CgroupView, p: ProcessView) -> bool
    decreases v, 0nat,
{
    exists|i: int| 0 <= i < v.children.len() && runs(#[trigger] v.children[i], p)
}

/// The process belongs to the work in a cgroup: it is in it, or in one below it that is neither a
/// cgroup of the workload manager nor below one, nor a user level itself.
pub open spec fn works(v: CgroupView, p: ProcessView) -> bool
    decreases v, 1nat,
{
    v.processes.contains(p) || works_below(v, p)
}

/// The process belongs to the work below a cgroup.
pub open spec fn works_below(v: CgroupView, p: ProcessView) -> bool
    decreases v, 0nat,
{
    exists|i: int|
        0 <= i < v.children.len() && (#[trigger] v.children[i]).name != "slurm"@ && (if is_user_level(
            v.children[i],
        ) {
            works_below(v.children[i], p)
        } else {
            works(v.children[i], p)
        })
}

proof fn lemma_moved_runs(v: CgroupView, delta: int, p: ProcessView)
    ensures
        runs(moved(v, delta), p) == runs(v, p),
    decreases v,
{
    let m = moved(v, delta);
    assert forall|i: int| 0 <= i < v.children.len() implies runs(#[trigger] m.children[i], p) == runs(
        v.children[i],
        p,
    ) by {
        lemma_moved_runs(v.children[i], delta, p);
    }
    if runs_below(v, p) {
        let i = choose|i: int| 0 <= i < v.children.len() && runs(#[trigger] v.children[i], p);
        assert(runs(m.children[i], p));
    }
    if runs_below(m, p) {
        let i = choose|i: int| 0 <= i < m.children.len() && runs(#[trigger] m.children[i], p);
        assert(runs(v.children[i], p));
    }
}

/// Where a process runs there is something.
proof fn lemma_runs_somewhere(v: CgroupView, p: ProcessView)
    requires
        runs(v, p),
    ensures
        !effectively_empty(v),
    decreases v,
{
    if !v.processes.contains(p) {
        let i = choose|i: int| 0 <= i < v.children.len() && runs(#[trigger] v.children[i], p);
        lemma_runs_somewhere(v.children[i], p);
    }
}

/// The cgroups that are lifted out of user levels, and where they were.
proof fn lemma_promoted_from(list: Seq<CgroupView>, k: int) -> (at: (int, int))
    requires
        0 <= k < promoted(list).len(),
    ensures
        0 <= at.0 < list.len(),
        is_user_level(list[at.0]),
        0 <= at.1 < list[at.0].children.len(),
        promoted(list)[k] == moved(list[at.0].children[at.1], -1),
    decreases list.len(),
{
    let front = list.drop_last();
    let before = promoted(front);
    if k < before.len() {
        let at = lemma_promoted_from(front, k);
        assert(promoted(list)[k] == before[k]);
        at
    } else {
        (list.len() - 1, k - before.len())
    }
}

proof fn lemma_promoted_has(list: Seq<CgroupView>, i: int, j: int)
    requires
        0 <= i < list.len(),
        is_user_level(list[i]),
        0 <= j < list[i].children.len(),
    ensures
        promoted(list).contains(moved(list[i].children[j], -1)),
    decreases list.len(),
{
    let front = list.drop_last();
    let before = promoted(front);
    let all = promoted(list);
    if i < front.len() {
        lemma_promoted_has(front, i, j);
        let k = choose|k: int| 0 <= k < before.len() && before[k] == moved(front[i].children[j], -1);
        assert(all[k] == before[k]);
    } else {
        assert(all[before.len() + j] == moved(list[i].children[j], -1));
    }
}

proof fn lemma_lifted_has(list: Seq<CgroupView>, c: CgroupView)
    requires
        stays(c),
        promoted(list).contains(c) || (list.contains(c) && !is_user_level(c)),
    ensures
        lifted(list).contains(c),
{
    let kept = list.filter(|c: CgroupView| !is_user_level(c));
    let all = kept + promoted(list);
    if promoted(list).contains(c) {
        let k = choose|k: int| 0 <= k < promoted(list).len() && promoted(list)[k] == c;
        assert(all[kept.len() + k] == c);
    } else {
        let i = choose|i: int| 0 <= i < list.len() && list[i] == c;
        list.lemma_filter_contains(|c: CgroupView| !is_user_level(c), i);
        let k = choose|k: int| 0 <= k < kept.len() && kept[k] == c;
        assert(all[k] == c);
    }
    let at = choose|at: int| 0 <= at < all.len() && all[at] == c;
    all.lemma_filter_contains(|c: CgroupView| stays(c), at);
}

/// A list holds the same cgroups in the order of their names.
proof fn lemma_by_name_has(list: Seq<CgroupView>, c: CgroupView)
    ensures
        by_name(list).contains(c) == list.contains(c),
{
    let names = list.map_values(|c: CgroupView| c.name);
    let keys = names.map_values(|n: Seq<char>| KeyView::Text(n));
    let order = sorted(keys, SortDirection::Ascending);
    assert(order == name_order(names));
    sorted_is_permutation(keys, SortDirection::Ascending);
    if by_name(list).contains(c) {
        let k = choose|k: int| 0 <= k < by_name(list).len() && by_name(list)[k] == c;
        assert(list[order[k]] == c);
    }
    if list.contains(c) {
        let i = choose|i: int| 0 <= i < list.len() && list[i] == c;
        sorted_has_every_row(keys, SortDirection::Ascending, i);
        let k = choose|k: int| 0 <= k < order.len() && order[k] == i;
        assert(by_name(list)[k] == c);
    }
}

/// What is lifted was in the list, or below a user level in it.
proof fn lemma_lifted_from(list: Seq<CgroupView>, c: CgroupView)
    requires
        lifted(list).contains(c),
    ensures
        stays(c),
        promoted(list).contains(c) || (list.contains(c) && !is_user_level(c)),
{
    let kept = list.filter(|c: CgroupView| !is_user_level(c));
    let all = kept + promoted(list);
    let m = choose|m: int| 0 <= m < lifted(list).len() && lifted(list)[m] == c;
    all.lemma_filter_pred(|c: CgroupView| stays(c), m);
    all.lemma_filter_contains_rev(|c: CgroupView| stays(c), c);
    let at = choose|at: int| 0 <= at < all.len() && all[at] == c;
    if at < kept.len() {
        assert(kept[at] == c);
        list.lemma_filter_pred(|c: CgroupView| !is_user_level(c), at);
        list.lemma_filter_contains_rev(|c: CgroupView| !is_user_level(c), c);
    } else {
        assert(promoted(list)[at - kept.len()] == c);
    }
}

proof fn lemma_user_is_no_manager(v: CgroupView)
    requires
        is_user_level(v),
    ensures
        v.name != "slurm"@,
{
    reveal_strlit("user");
    reveal_strlit("slurm");
    assert(v.name.len() == 4);
    assert("slurm"@.len() == 5);
}

/// What runs below a cgroup in the compact form belongs to the work below it.
proof fn lemma_work_from_compact(v: CgroupView, collector_pid: Option<u32>, p: ProcessView)
    requires
        runs_below(compacted(v, collector_pid), p),
    ensures
        works_below(v, p),
        collector_pid != Some(p.pid),
    decreases v,
{
    let r = compacted(v, collector_pid);
    let inner = compacted_below(v, collector_pid);
    let k = choose|k: int| 0 <= k < r.children.len() && runs(#[trigger] r.children[k], p);
    let c = r.children[k];
    assert(by_name(lifted(inner)).contains(c));
    lemma_by_name_has(lifted(inner), c);
    lemma_lifted_from(inner, c);
    if promoted(inner).contains(c) {
        let m = choose|m: int| 0 <= m < promoted(inner).len() && promoted(inner)[m] == c;
        let (i, j) = lemma_promoted_from(inner, m);
        let child = v.children[i];
        assert(inner[i] == compacted(child, collector_pid));
        lemma_moved_runs(inner[i].children[j], -1, p);
        assert(runs(inner[i].children[j], p));
        lemma_work_from_compact(child, collector_pid, p);
        lemma_user_is_no_manager(child);
    } else {
        let i = choose|i: int| 0 <= i < inner.len() && inner[i] == c;
        let child = v.children[i];
        assert(c == compacted(child, collector_pid));
        lemma_members_from_compact(child.processes, collector_pid, p);
        if runs_below(c, p) {
            lemma_work_from_compact(child, collector_pid, p);
        }
        assert(works(child, p));
        assert(child.name != "slurm"@);
    }
}

proof fn lemma_members_from_compact(
    list: Seq<ProcessView>,
    collector_pid: Option<u32>,
    p: ProcessView,
)
    ensures
        without_collector(list, collector_pid).contains(p) == (list.contains(p) && collector_pid
            != Some(p.pid)),
{
    match collector_pid {
        Some(pid) => {
            let keep = |p: ProcessView| p.pid != pid;
            if list.filter(keep).contains(p) {
                let k = choose|k: int| 0 <= k < list.filter(keep).len() && list.filter(keep)[k] == p;
                list.lemma_filter_pred(keep, k);
                list.lemma_filter_contains_rev(keep, p);
            }
            if list.contains(p) && p.pid != pid {
                let i = choose|i: int| 0 <= i < list.len() && list[i] == p;
                list.lemma_filter_contains(keep, i);
            }
        },
        None => {},
    }
}

/// What belongs to the work below a cgroup runs below it in the compact form.
proof fn lemma_work_in_compact(v: CgroupView, collector_pid: Option<u32>, p: ProcessView)
    requires
        works_below(v, p),
        collector_pid != Some(p.pid),
    ensures
        runs_below(compacted(v, collector_pid), p),
    decreases v,
{
    let r = compacted(v, collector_pid);
    let inner = compacted_below(v, collector_pid);
    let i = choose|i: int|
        0 <= i < v.children.len() && (#[trigger] v.children[i]).name != "slurm"@ && (if is_user_level(
            v.children[i],
        ) {
            works_below(v.children[i], p)
        } else {
            works(v.children[i], p)
        });
    let child = v.children[i];
    let own = compacted(child, collector_pid);
    assert(inner[i] == own);
    if works_below(child, p) {
        lemma_work_in_compact(child, collector_pid, p);
    }
    let c = if is_user_level(child) {
        let j = choose|j: int| 0 <= j < own.children.len() && runs(#[trigger] own.children[j], p);
        lemma_promoted_has(inner, i, j);
        compacted_is_compact(child, collector_pid);
        assert(belongs(own.children[j]));
        lemma_moved_runs(own.children[j], -1, p);
        moved(own.children[j], -1)
    } else {
        lemma_members_from_compact(child.processes, collector_pid, p);
        assert(inner.contains(own));
        own
    };
    assert(runs(c, p));
    lemma_runs_somewhere(c, p);
    lemma_lifted_has(inner, c);
    lemma_by_name_has(lifted(inner), c);
    let k = choose|k: int| 0 <= k < r.children.len() && r.children[k] == c;
    assert(runs(r.children[k], p));
}

/// The compact form shows exactly the work of the job: all processes but those in a cgroup of the
/// workload manager or below one, those in a user level itself, and the collector. What it shows
/// of a process is left as it was, its rates too.
pub proof fn compacting_keeps_the_work(v: CgroupView, collector_pid: Option<u32>, p: ProcessView)
    ensures
        runs(compacted(v, collector_pid), p) <==> works(v, p) && collector_pid != Some(p.pid),
{
    lemma_members_from_compact(v.processes, collector_pid, p);
    if runs_below(compacted(v, collector_pid), p) {
        lemma_work_from_compact(v, collector_pid, p);
    }
    if works_below(v, p) && collector_pid != Some(p.pid) {
        lemma_work_in_compact(v, collector_pid, p);
    }
}

/// Two trees differ in their depths only, which are one less in the second.
pub open spec fn is_one_level_up(v: CgroupView, w: CgroupView) -> bool
    decreases v,
{
    &&& w.path == v.path
    &&& w.name == v.name
    &&& w.metrics == v.metrics
    &&& w.processes == v.processes
    &&& 0 < v.depth <= i32::MAX ==> w.depth == v.depth - 1
    &&& v.depth == 0 ==> w.depth == 0
    &&& w.children.len() == v.children.len()
    &&& forall|i: int|
        0 <= i < v.children.len() ==> is_one_level_up(#[trigger] v.children[i], w.children[i])
}

/// What is lifted stays as it is, but for its depths.
pub proof fn lifting_changes_depths_only(v: CgroupView)
    ensures
        is_one_level_up(v, moved(v, -1)),
    decreases v,
{
    let w = moved(v, -1);
    assert forall|i: int| 0 <= i < v.children.len() implies is_one_level_up(
        #[trigger] v.children[i],
        w.children[i],
    ) by {
        lifting_changes_depths_only(v.children[i]);
    }
}

/// The cgroup at the top keeps its values in the compact form, and loses no process but the collector.
pub proof fn compact_form_keeps_the_top(v: CgroupView, collector_pid: Option<u32>, p: ProcessView)
    ensures
        ({
            let w = compacted(v, collector_pid);
            &&& w.path == v.path
            &&& w.name == v.name
            &&& w.metrics == v.metrics
            &&& w.depth == v.depth
            &&& w.processes.contains(p) <==> v.processes.contains(p) && collector_pid != Some(p.pid)
        }),
{
    match collector_pid {
        Some(pid) => {
            let keep = |p: ProcessView| p.pid != pid;
            let kept = v.processes.filter(keep);
            if v.processes.contains(p) && p.pid != pid {
                let k = choose|k: int| 0 <= k < v.processes.len() && v.processes[k] == p;
                v.processes.lemma_filter_contains(keep, k);
            }
            if kept.contains(p) {
                let k = choose|k: int| 0 <= k < kept.len() && kept[k] == p;
                v.processes.lemma_filter_pred(keep, k);
                v.processes.lemma_filter_contains_rev(keep, p);
            }
        },
        None => {},
    }
}

/// A child with work in it stays in the compact form, in its own compact form.
pub proof fn working_child_stays(v: CgroupView, collector_pid: Option<u32>, i: int)
    requires
        0 <= i < v.children.len(),
        v.children[i].name != "user"@,
        v.children[i].name != "slurm"@,
        !effectively_empty(compacted(v.children[i], collector_pid)),
    ensures
        compacted(v, collector_pid).children.contains(compacted(v.children[i], collector_pid)),
{
    let list = compacted_below(v, collector_pid);
    let c = compacted(v.children[i], collector_pid);
    assert(list[i] == c);
    lemma_lifted_has(list, c);
    lemma_by_name_has(lifted(list), c);
}

/// What is below a user level stands in its place in the compact form, one level up.
pub proof fn user_level_gives_way(v: CgroupView, collector_pid: Option<u32>, i: int, j: int)
    requires
        0 <= i < v.children.len(),
        v.children[i].name == "user"@,
        0 <= j < compacted(v.children[i], collector_pid).children.len(),
    ensures
        compacted(v, collector_pid).children.contains(
            moved(compacted(v.children[i], collector_pid).children[j], -1),
        ),
{
    let list = compacted_below(v, collector_pid);
    let c = compacted(v.children[i], collector_pid).children[j];
    let up = moved(c, -1);
    assert(list[i] == compacted(v.children[i], collector_pid));
    compacted_is_compact(v.children[i], collector_pid);
    assert(belongs(c));
    lemma_moved_empty(c, -1);
    lemma_promoted_has(list, i, j);
    lemma_lifted_has(list, up);
    lemma_by_name_has(lifted(list), up);
}

/// Nothing else is below a cgroup in the compact form.
pub proof fn compact_children_are_from_below(v: CgroupView, collector_pid: Option<u32>, k: int) -> (at: (
    int,
    int,
))
    requires
        0 <= k < compacted(v, collector_pid).children.len(),
    ensures
        ({
            let c = compacted(v, collector_pid).children[k];
            let inner = compacted(v.children[at.0], collector_pid);
            &&& 0 <= at.0 < v.children.len()
            &&& v.children[at.0].name != "user"@ ==> c == inner
            &&& v.children[at.0].name == "user"@ ==> 0 <= at.1 < inner.children.len() && c == moved(
                inner.children[at.1],
                -1,
            )
        }),
{
    let list = compacted_below(v, collector_pid);
    let c = compacted(v, collector_pid).children[k];
    lemma_by_name_has(lifted(list), c);
    lemma_lifted_from(list, c);
    if promoted(list).contains(c) {
        let m = choose|m: int| 0 <= m < promoted(list).len() && promoted(list)[m] == c;
        lemma_promoted_from(list, m)
    } else {
        let i = choose|i: int| 0 <= i < list.len() && list[i] == c;
        (i, 0)
    }
}

}
