//! What the trees of processes hold: every process once.

use vstd::prelude::*;
use crate::process::types::{
    descends, enlisted, grown, grown_roots, listed, offspring, process_forest, roster,
    roster_is_ascending, ProcessNodeView, ProcessView,
};

verus! {

/// No two processes of a list have the same ID.
pub open spec fn distinct_pids(list: Seq<ProcessView>) -> bool {
    forall|i: int, j: int|
        0 <= i < list.len() && 0 <= j < list.len() && #[trigger] list[i].pid == #[trigger] list[j].pid
            ==> i == j
}

/// The number of heights below one.
pub open spec fn rank(height: Seq<nat>, h: nat) -> nat
    decreases height.len(),
{
    if height.len() == 0 {
        0
    } else {
        rank(height.drop_last(), h) + (if height.last() < h {
            1nat
        } else {
            0
        })
    }
}

/// The heights in the same order, each below their number.
pub open spec fn lowered(height: Seq<nat>) -> Seq<nat> {
    height.map_values(|h: nat| rank(height, h))
}

proof fn lemma_rank_grows(height: Seq<nat>, a: nat, b: nat)
    requires
        a <= b,
    ensures
        rank(height, a) <= rank(height, b) <= height.len(),
        forall|i: int| 0 <= i < height.len() && a <= #[trigger] height[i] < b ==> rank(height, a)
            < rank(height, b),
        forall|i: int| 0 <= i < height.len() && b <= #[trigger] height[i] ==> rank(height, b)
            < height.len(),
    decreases height.len(),
{
    if height.len() > 0 {
        let front = height.drop_last();
        lemma_rank_grows(front, a, b);
        assert forall|i: int| 0 <= i < height.len() && a <= #[trigger] height[i] < b implies rank(
            height,
            a,
        ) < rank(height, b) by {
            if i < front.len() {
                assert(front[i] == height[i]);
            }
        }
        assert forall|i: int| 0 <= i < height.len() && b <= #[trigger] height[i] implies rank(
            height,
            b,
        ) < height.len() by {
            if i < front.len() {
                assert(front[i] == height[i]);
            }
        }
    }
}

/// Heights by which nothing descends from itself can be chosen below the number of processes.
pub proof fn heights_can_be_low(list: Seq<ProcessView>, height: Seq<nat>)
    requires
        descends(list, height),
    ensures
        descends(list, lowered(height)),
        forall|i: int| 0 <= i < list.len() ==> #[trigger] lowered(height)[i] < list.len(),
{
    let low = lowered(height);
    assert forall|i: int, j: int|
        0 <= i < list.len() && 0 <= j < list.len() && #[trigger] list[j].ppid
            == #[trigger] list[i].pid implies low[j] < low[i] by {
        lemma_rank_grows(height, height[j], height[i]);
        assert(height[j] <= height[j] < height[i]);
    }
    assert forall|i: int| 0 <= i < list.len() implies #[trigger] low[i] < list.len() by {
        lemma_rank_grows(height, height[i], height[i]);
        assert(height[i] <= height[i]);
    }
}

/// The number of processes of a kind in a tree.
pub open spec fn node_count(node: ProcessNodeView, kind: spec_fn(ProcessView) -> bool) -> nat
    decreases node, node.children.len() + 1,
{
    (if kind(node.process) {
        1nat
    } else {
        0
    }) + child_count(node, node.children.len(), kind)
}

/// The number of processes of a kind in the trees of the first `n` children.
pub open spec fn child_count(
    node: ProcessNodeView,
    n: nat,
    kind: spec_fn(ProcessView) -> bool,
) -> nat
    decreases node, n,
{
    if n == 0 || n > node.children.len() {
        0
    } else {
        child_count(node, (n - 1) as nat, kind) + node_count(node.children[n - 1], kind)
    }
}

/// The number of processes of a kind in some trees.
pub open spec fn forest_count(
    forest: Seq<ProcessNodeView>,
    kind: spec_fn(ProcessView) -> bool,
) -> nat
    decreases forest.len(),
{
    if forest.len() == 0 {
        0
    } else {
        forest_count(forest.drop_last(), kind) + node_count(forest.last(), kind)
    }
}

proof fn lemma_child_count(node: ProcessNodeView, n: nat, kind: spec_fn(ProcessView) -> bool)
    requires
        n <= node.children.len(),
    ensures
        child_count(node, n, kind) == forest_count(node.children.take(n as int), kind),
    decreases n,
{
    if n > 0 {
        lemma_child_count(node, (n - 1) as nat, kind);
        let part = node.children.take(n as int);
        assert(part.drop_last() =~= node.children.take(n - 1));
    }
}

proof fn lemma_node_count(node: ProcessNodeView, kind: spec_fn(ProcessView) -> bool)
    ensures
        node_count(node, kind) == (if kind(node.process) {
            1nat
        } else {
            0
        }) + forest_count(node.children, kind),
{
    lemma_child_count(node, node.children.len(), kind);
    assert(node.children.take(node.children.len() as int) =~= node.children);
}

proof fn lemma_forest_push(
    forest: Seq<ProcessNodeView>,
    node: ProcessNodeView,
    kind: spec_fn(ProcessView) -> bool,
)
    ensures
        forest_count(forest.push(node), kind) == forest_count(forest, kind) + node_count(node, kind),
{
    assert(forest.push(node).drop_last() =~= forest);
}

/// The processes with an ID.
pub open spec fn with_pid(pid: u32) -> spec_fn(ProcessView) -> bool {
    |p: ProcessView| p.pid == pid
}

/// What a process occurs by below its parent: as often as the parent does, where that is listed.
pub open spec fn by_parent(
    list: Seq<ProcessView>,
    forest: Seq<ProcessNodeView>,
    j: int,
) -> nat {
    if listed(list, list[j].ppid) {
        forest_count(forest, with_pid(list[j].ppid))
    } else {
        0
    }
}

/// One for the process itself.
pub open spec fn itself(i: int, j: int) -> nat {
    if i == j {
        1
    } else {
        0
    }
}

/// A process occurs in a tree once for each time that its parent does, and once where the tree is
/// its own.
proof fn lemma_grown_count(
    list: Seq<ProcessView>,
    height: Seq<nat>,
    i: int,
    levels: nat,
    j: int,
)
    requires
        distinct_pids(list),
        descends(list, height),
        0 <= i < list.len(),
        0 <= j < list.len(),
        height[i] <= levels,
    ensures
        node_count(grown(list, i, levels), with_pid(list[j].pid)) == itself(i, j) + (if listed(
            list,
            list[j].ppid,
        ) {
            node_count(grown(list, i, levels), with_pid(list[j].ppid))
        } else {
            0
        }),
    decreases levels, list.len() + 1,
{
    let node = grown(list, i, levels);
    let own = with_pid(list[j].pid);
    let up = with_pid(list[j].ppid);
    lemma_offspring_count(list, height, i, list.len(), levels, j);
    lemma_node_count(node, own);
    lemma_node_count(node, up);
    if list[j].ppid == list[i].pid {
        assert(listed(list, list[j].ppid));
    }
}

proof fn lemma_offspring_count(
    list: Seq<ProcessView>,
    height: Seq<nat>,
    i: int,
    n: nat,
    levels: nat,
    j: int,
)
    requires
        distinct_pids(list),
        descends(list, height),
        0 <= i < list.len(),
        0 <= j < list.len(),
        n <= list.len(),
        height[i] <= levels,
    ensures
        ({
            let children = offspring(list, list[i].pid, n, levels);
            forest_count(children, with_pid(list[j].pid)) == (if j < n && list[j].ppid
                == list[i].pid {
                1nat
            } else {
                0
            }) + by_parent(list, children, j)
        }),
    decreases levels, n,
{
    if n > 0 {
        if levels == 0 {
            if list[j].ppid == list[i].pid {
                assert(height[j] < height[i]);
            }
        } else {
            lemma_offspring_count(list, height, i, (n - 1) as nat, levels, j);
            if list[n - 1].ppid == list[i].pid {
                assert(height[n - 1] < height[i]);
                let node = grown(list, n - 1, (levels - 1) as nat);
                let before = offspring(list, list[i].pid, (n - 1) as nat, levels);
                lemma_grown_count(list, height, n - 1, (levels - 1) as nat, j);
                lemma_forest_push(before, node, with_pid(list[j].pid));
                lemma_forest_push(before, node, with_pid(list[j].ppid));
            }
        }
    }
}

proof fn lemma_roots_count(list: Seq<ProcessView>, height: Seq<nat>, n: nat, j: int)
    requires
        distinct_pids(list),
        descends(list, height),
        forall|i: int| 0 <= i < list.len() ==> #[trigger] height[i] < list.len(),
        0 <= j < list.len(),
        n <= list.len(),
    ensures
        forest_count(grown_roots(list, n), with_pid(list[j].pid)) == (if j < n && !listed(
            list,
            list[j].ppid,
        ) {
            1nat
        } else {
            0
        }) + by_parent(list, grown_roots(list, n), j),
    decreases n,
{
    if n > 0 {
        lemma_roots_count(list, height, (n - 1) as nat, j);
        if !listed(list, list[n - 1].ppid) {
            let node = grown(list, n - 1, list.len());
            let before = grown_roots(list, (n - 1) as nat);
            assert(height[n - 1] < list.len());
            lemma_grown_count(list, height, n - 1, list.len(), j);
            lemma_forest_push(before, node, with_pid(list[j].pid));
            lemma_forest_push(before, node, with_pid(list[j].ppid));
        }
    }
}

proof fn lemma_listed_once(list: Seq<ProcessView>, height: Seq<nat>, j: int)
    requires
        distinct_pids(list),
        descends(list, height),
        forall|i: int| 0 <= i < list.len() ==> #[trigger] height[i] < list.len(),
        0 <= j < list.len(),
    ensures
        forest_count(grown_roots(list, list.len()), with_pid(list[j].pid)) == 1,
    decreases list.len() - height[j],
{
    lemma_roots_count(list, height, list.len(), j);
    if listed(list, list[j].ppid) {
        let p = choose|p: int| 0 <= p < list.len() && (#[trigger] list[p]).pid == list[j].ppid;
        assert(height[j] < height[p]);
        assert(height[p] < list.len());
        lemma_listed_once(list, height, p);
    }
}

/// Two kinds of which every listed process is of both or of none occur as often in the trees of the
/// list.
pub open spec fn agree(
    list: Seq<ProcessView>,
    a: spec_fn(ProcessView) -> bool,
    b: spec_fn(ProcessView) -> bool,
) -> bool {
    forall|i: int| 0 <= i < list.len() ==> a(#[trigger] list[i]) == b(list[i])
}

proof fn lemma_grown_agree(
    list: Seq<ProcessView>,
    i: int,
    levels: nat,
    a: spec_fn(ProcessView) -> bool,
    b: spec_fn(ProcessView) -> bool,
)
    requires
        agree(list, a, b),
        0 <= i < list.len(),
    ensures
        node_count(grown(list, i, levels), a) == node_count(grown(list, i, levels), b),
    decreases levels, list.len() + 1,
{
    let node = grown(list, i, levels);
    lemma_offspring_agree(list, list[i].pid, list.len(), levels, a, b);
    lemma_node_count(node, a);
    lemma_node_count(node, b);
    assert(a(list[i]) == b(list[i]));
}

proof fn lemma_offspring_agree(
    list: Seq<ProcessView>,
    pid: u32,
    n: nat,
    levels: nat,
    a: spec_fn(ProcessView) -> bool,
    b: spec_fn(ProcessView) -> bool,
)
    requires
        agree(list, a, b),
        n <= list.len(),
    ensures
        forest_count(offspring(list, pid, n, levels), a) == forest_count(
            offspring(list, pid, n, levels),
            b,
        ),
    decreases levels, n,
{
    if n > 0 && levels > 0 {
        lemma_offspring_agree(list, pid, (n - 1) as nat, levels, a, b);
        let before = offspring(list, pid, (n - 1) as nat, levels);
        if list[n - 1].ppid == pid {
            let node = grown(list, n - 1, (levels - 1) as nat);
            lemma_grown_agree(list, n - 1, (levels - 1) as nat, a, b);
            lemma_forest_push(before, node, a);
            lemma_forest_push(before, node, b);
        }
    }
}

proof fn lemma_roots_agree(
    list: Seq<ProcessView>,
    n: nat,
    a: spec_fn(ProcessView) -> bool,
    b: spec_fn(ProcessView) -> bool,
)
    requires
        agree(list, a, b),
        n <= list.len(),
    ensures
        forest_count(grown_roots(list, n), a) == forest_count(grown_roots(list, n), b),
    decreases n,
{
    if n > 0 {
        lemma_roots_agree(list, (n - 1) as nat, a, b);
        let before = grown_roots(list, (n - 1) as nat);
        let node = grown(list, n - 1, list.len());
        lemma_grown_agree(list, n - 1, list.len(), a, b);
        lemma_forest_push(before, node, a);
        lemma_forest_push(before, node, b);
    }
}

proof fn lemma_no_kind(forest: Seq<ProcessNodeView>)
    ensures
        forest_count(forest, |p: ProcessView| false) == 0,
    decreases forest.len(),
{
    if forest.len() > 0 {
        lemma_no_kind(forest.drop_last());
        lemma_no_kind_in(forest.last(), forest.last().children.len());
    }
}

proof fn lemma_no_kind_in(node: ProcessNodeView, n: nat)
    requires
        n <= node.children.len(),
    ensures
        child_count(node, n, |p: ProcessView| false) == 0,
    decreases node, n,
{
    if n > 0 {
        lemma_no_kind_in(node, (n - 1) as nat);
        let child = node.children[n - 1];
        lemma_no_kind_in(child, child.children.len());
        assert(node_count(child, |p: ProcessView| false) == 0);
    }
}

/// Every process of a roster is one of those it was made of.
proof fn lemma_roster_from(processes: Seq<ProcessView>, i: int)
    requires
        0 <= i < roster(processes).len(),
    ensures
        processes.contains(roster(processes)[i]),
    decreases processes.len(),
{
    let front = processes.drop_last();
    let p = roster(processes)[i];
    lemma_enlisted_from(roster(front), processes.last(), i);
    if roster(front).contains(p) {
        let k = choose|k: int| 0 <= k < roster(front).len() && roster(front)[k] == p;
        lemma_roster_from(front, k);
        let m = choose|m: int| 0 <= m < front.len() && front[m] == p;
        assert(processes[m] == p);
    } else {
        assert(processes[processes.len() - 1] == p);
    }
}

proof fn lemma_enlisted_from(list: Seq<ProcessView>, p: ProcessView, i: int)
    requires
        0 <= i < enlisted(list, p).len(),
    ensures
        enlisted(list, p)[i] == p || list.contains(enlisted(list, p)[i]),
    decreases list.len(),
{
    let r = enlisted(list, p);
    if list.len() == 0 || list.last().pid < p.pid {
        if i < list.len() {
            assert(r[i] == list[i]);
        }
    } else if list.last().pid == p.pid {
        if i < list.len() - 1 {
            assert(r[i] == list[i]);
        }
    } else {
        let front = list.drop_last();
        let inner = enlisted(front, p);
        if i < inner.len() {
            lemma_enlisted_from(front, p, i);
            assert(r[i] == inner[i]);
            if r[i] != p {
                let k = choose|k: int| 0 <= k < front.len() && front[k] == r[i];
                assert(list[k] == r[i]);
            }
        } else {
            assert(list[list.len() - 1] == r[i]);
        }
    }
}

/// The place of a process among those that a roster was made of.
pub open spec fn origin(processes: Seq<ProcessView>, p: ProcessView) -> int {
    choose|k: int| 0 <= k < processes.len() && processes[k] == p
}

/// The trees of processes hold every process exactly once and no other, where no two have the same
/// ID and none is its own ancestor.
pub proof fn every_process_is_in_the_forest_once(
    processes: Seq<ProcessView>,
    height: Seq<nat>,
    p: ProcessView,
)
    requires
        distinct_pids(processes),
        descends(processes, height),
    ensures
        forest_count(process_forest(processes), |q: ProcessView| q == p) == (if processes.contains(p) {
            1nat
        } else {
            0
        }),
{
    let list = roster(processes);
    let kind = |q: ProcessView| q == p;
    roster_is_ascending(processes);
    assert forall|i: int| 0 <= i < list.len() implies processes.contains(#[trigger] list[i]) by {
        lemma_roster_from(processes, i);
    }
    assert(distinct_pids(list)) by {
        assert forall|i: int, j: int|
            0 <= i < list.len() && 0 <= j < list.len() && #[trigger] list[i].pid
                == #[trigger] list[j].pid implies i == j by {
            if i < j {
                assert(list[i].pid < list[j].pid);
            } else if j < i {
                assert(list[j].pid < list[i].pid);
            }
        }
    }
    if processes.contains(p) {
        let from = Seq::new(list.len(), |i: int| height[origin(processes, list[i])]);
        assert(descends(list, from)) by {
            assert forall|i: int, j: int|
                0 <= i < list.len() && 0 <= j < list.len() && #[trigger] list[j].ppid
                    == #[trigger] list[i].pid implies from[j] < from[i] by {
                assert(processes.contains(list[i]) && processes.contains(list[j]));
                let a = origin(processes, list[i]);
                let b = origin(processes, list[j]);
                assert(processes[b].ppid == processes[a].pid);
            }
        }
        heights_can_be_low(list, from);
        let m = choose|m: int| 0 <= m < processes.len() && processes[m] == p;
        assert(processes[m].pid == p.pid);
        assert(listed(processes, p.pid));
        assert(listed(list, p.pid));
        let j = choose|j: int| 0 <= j < list.len() && (#[trigger] list[j]).pid == p.pid;
        assert(processes.contains(list[j]));
        let o = origin(processes, list[j]);
        assert(processes[o].pid == processes[m].pid);
        assert(list[j] == p);
        lemma_listed_once(list, lowered(from), j);
        assert(agree(list, kind, with_pid(p.pid))) by {
            assert forall|i: int| 0 <= i < list.len() implies kind(#[trigger] list[i])
                == with_pid(p.pid)(list[i]) by {
                if list[i].pid == p.pid {
                    assert(list[i].pid == list[j].pid);
                }
            }
        }
        lemma_roots_agree(list, list.len(), kind, with_pid(p.pid));
    } else {
        let none = |q: ProcessView| false;
        assert(agree(list, kind, none));
        lemma_roots_agree(list, list.len(), kind, none);
        lemma_no_kind(grown_roots(list, list.len()));
    }
}

}
