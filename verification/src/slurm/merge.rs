//! The trees of several machines put together into one, and its rows.

use vstd::prelude::*;
use crate::cgroup::types::{lemma_children, CgroupNode, CgroupView};
use crate::model::views;
use crate::table::ascending;
use crate::text::{
    comes_before, lemma_text_before_irreflexive, lemma_text_before_total,
    lemma_text_before_transitive, same_text, text_before, texts,
};

verus! {

/// A cgroup on a machine.
pub struct Placed {
    pub node: Seq<char>,
    pub cgroup: CgroupView,
}

pub open spec fn placed_of(e: (String, CgroupNode)) -> Placed {
    Placed { node: e.0@, cgroup: e.1@ }
}

pub open spec fn placed_all(list: Seq<(String, CgroupNode)>) -> Seq<Placed> {
    list.map_values(|e: (String, CgroupNode)| placed_of(e))
}

/// A cgroup as it is on one or several machines
#[derive(Debug)]
pub struct MergedCgroup {
    pub name: String,
    pub node_data: Vec<(String, CgroupNode)>,
    pub children: Vec<MergedCgroup>,
    pub is_shared: bool,
}

pub struct MergedView {
    pub name: Seq<char>,
    pub node_data: Seq<Placed>,
    pub children: Seq<MergedView>,
    pub is_shared: bool,
}

impl MergedCgroup {
    pub open spec fn model(self) -> MergedView
        decreases self,
    {
        MergedView {
            name: self.name@,
            node_data: placed_all(self.node_data@),
            children: Seq::new(
                self.children@.len(),
                |i: int|
                    if 0 <= i < self.children@.len() {
                        self.children@[i].model()
                    } else {
                        arbitrary()
                    },
            ),
            is_shared: self.is_shared,
        }
    }
}

impl View for MergedCgroup {
    type V = MergedView;

    open spec fn view(&self) -> MergedView {
        self.model()
    }
}

/// What a cgroup's list of children stands for is the children of what it stands for.
pub proof fn lemma_merged_children(m: MergedCgroup)
    ensures
        m@.children.len() == m.children@.len(),
        m@.children == views(m.children@),
        forall|i: int| 0 <= i < m.children@.len() ==> #[trigger] m.children@[i]@ == m@.children[i],
{
    assert(m@.children =~= views(m.children@));
}

/// The number of levels of a tree.
pub open spec fn height(v: CgroupView) -> nat
    decreases v, v.children.len() + 1,
{
    1 + tallest_child(v, v.children.len())
}

/// The most levels of the first `n` children.
pub open spec fn tallest_child(v: CgroupView, n: nat) -> nat
    decreases v, n,
{
    if n == 0 || n > v.children.len() {
        0
    } else {
        let before = tallest_child(v, (n - 1) as nat);
        let h = height(v.children[n - 1]);
        if h > before {
            h
        } else {
            before
        }
    }
}

/// The most levels of some trees.
pub open spec fn tallest(list: Seq<Placed>) -> nat
    decreases list.len(),
{
    if list.len() == 0 {
        0
    } else {
        let before = tallest(list.drop_last());
        let h = height(list.last().cgroup);
        if h > before {
            h
        } else {
            before
        }
    }
}

/// The children of some cgroups, each on its machine.
pub open spec fn children_of(list: Seq<Placed>) -> Seq<Placed>
    decreases list.len(),
{
    if list.len() == 0 {
        seq![]
    } else {
        children_of(list.drop_last()) + list.last().cgroup.children.map_values(
            |c: CgroupView| Placed { node: list.last().node, cgroup: c },
        )
    }
}

/// Those of a name.
pub open spec fn named(list: Seq<Placed>, name: Seq<char>) -> Seq<Placed> {
    list.filter(|e: Placed| e.cgroup.name == name)
}

/// Names in their order with one more, unless it is there.
pub open spec fn with_name(names: Seq<Seq<char>>, name: Seq<char>) -> Seq<Seq<char>>
    decreases names.len(),
{
    if names.len() == 0 || text_before(names.last(), name) {
        names.push(name)
    } else if names.last() == name {
        names
    } else {
        with_name(names.drop_last(), name).push(names.last())
    }
}

/// The names of some cgroups in their order, each once.
pub open spec fn names_of(list: Seq<Placed>) -> Seq<Seq<char>>
    decreases list.len(),
{
    if list.len() == 0 {
        seq![]
    } else {
        with_name(names_of(list.drop_last()), list.last().cgroup.name)
    }
}

/// The children of some cgroups put together by name. One is shared where every cgroup has it.
pub open spec fn merged_children(list: Seq<Placed>) -> Seq<MergedView>
    decreases tallest(list),
{
    let below = children_of(list);
    let names = names_of(below);
    Seq::new(
        names.len(),
        |k: int|
            {
                let group = named(below, names[k]);
                MergedView {
                    name: names[k],
                    node_data: group,
                    children: if tallest(group) < tallest(list) {
                        merged_children(group)
                    } else {
                        seq![]
                    },
                    is_shared: group.len() == list.len(),
                }
            },
    )
}

/// The trees of several machines put together.
pub open spec fn merged_trees(list: Seq<Placed>) -> MergedView {
    if list.len() == 0 {
        MergedView { name: seq![], node_data: seq![], children: seq![], is_shared: true }
    } else {
        MergedView {
            name: list[0].cgroup.name,
            node_data: list,
            children: merged_children(list),
            is_shared: list.len() > 1,
        }
    }
}

proof fn lemma_tallest_child(v: CgroupView, i: int, n: nat)
    requires
        0 <= i < n <= v.children.len(),
    ensures
        height(v.children[i]) <= tallest_child(v, n),
    decreases n,
{
    if i < n - 1 {
        lemma_tallest_child(v, i, (n - 1) as nat);
    }
}

proof fn lemma_tallest_below(list: Seq<Placed>, h: nat)
    requires
        h > 0,
        forall|i: int| 0 <= i < list.len() ==> height((#[trigger] list[i]).cgroup) < h,
    ensures
        tallest(list) < h,
    decreases list.len(),
{
    if list.len() > 0 {
        let front = list.drop_last();
        assert forall|i: int| 0 <= i < front.len() implies height((#[trigger] front[i]).cgroup) < h by {
            assert(front[i] == list[i]);
        }
        lemma_tallest_below(front, h);
        assert(list[list.len() - 1] == list.last());
    }
}

/// The children of some cgroups have fewer levels than the tallest of them.
proof fn lemma_children_of(list: Seq<Placed>, k: int)
    requires
        0 <= k < children_of(list).len(),
    ensures
        height(children_of(list)[k].cgroup) < tallest(list),
    decreases list.len(),
{
    let front = list.drop_last();
    let before = children_of(front);
    if k < before.len() {
        lemma_children_of(front, k);
        assert(children_of(list)[k] == before[k]);
    } else {
        let v = list.last().cgroup;
        assert(children_of(list)[k].cgroup == v.children[k - before.len()]);
        lemma_tallest_child(v, k - before.len(), v.children.len());
    }
}

/// Those of a name have fewer levels than the cgroups above them.
proof fn lemma_group_is_shorter(list: Seq<Placed>, name: Seq<char>)
    requires
        children_of(list).len() > 0,
    ensures
        tallest(named(children_of(list), name)) < tallest(list),
{
    let below = children_of(list);
    let group = named(below, name);
    lemma_children_of(list, 0);
    assert forall|i: int| 0 <= i < group.len() implies height((#[trigger] group[i]).cgroup)
        < tallest(list) by {
        below.lemma_filter_contains_rev(|e: Placed| e.cgroup.name == name, group[i]);
        let k = choose|k: int| 0 <= k < below.len() && below[k] == group[i];
        lemma_children_of(list, k);
    }
    lemma_tallest_below(group, tallest(list));
}

proof fn lemma_with_name_at(names: Seq<Seq<char>>, name: Seq<char>, pos: int)
    requires
        0 <= pos <= names.len(),
        forall|j: int|
            pos <= j < names.len() ==> !text_before(#[trigger] names[j], name) && names[j] != name,
        pos > 0 ==> text_before(names[pos - 1], name) || names[pos - 1] == name,
    ensures
        with_name(names, name) == (if pos > 0 && names[pos - 1] == name {
            names
        } else {
            names.insert(pos, name)
        }),
    decreases names.len(),
{
    lemma_text_before_irreflexive(name);
    if pos == names.len() {
        assert(names.insert(pos, name) =~= names.push(name));
    } else {
        let front = names.drop_last();
        assert(names[names.len() - 1] == names.last());
        assert forall|j: int| pos <= j < front.len() implies !text_before(#[trigger] front[j], name)
            && front[j] != name by {
            assert(front[j] == names[j]);
        }
        lemma_with_name_at(front, name, pos);
        if pos > 0 && names[pos - 1] == name {
            assert(front.push(names.last()) =~= names);
        } else {
            assert(names.insert(pos, name) =~= front.insert(pos, name).push(names.last()));
        }
    }
}

fn add_name(names: &mut Vec<String>, name: &str)
    ensures
        texts(final(names)@) == with_name(texts(old(names)@), name@),
{
    let ghost before = texts(names@);
    let mut pos: usize = names.len();
    while pos > 0 && !comes_before(names[pos - 1].as_str(), name) && !same_text(
        names[pos - 1].as_str(),
        name,
    )
        invariant
            pos <= names@.len(),
            before == texts(names@),
            forall|j: int|
                pos <= j < names@.len() ==> !text_before(#[trigger] before[j], name@) && before[j]
                    != name@,
        ensures
            pos <= names@.len(),
            before == texts(names@),
            forall|j: int|
                pos <= j < names@.len() ==> !text_before(#[trigger] before[j], name@) && before[j]
                    != name@,
            pos > 0 ==> text_before(before[pos - 1], name@) || before[pos - 1] == name@,
        decreases pos,
    {
        assert(before[pos - 1] == names@[pos - 1]@);
        pos -= 1;
    }
    proof {
        lemma_with_name_at(before, name@, pos as int);
    }
    if pos > 0 && same_text(names[pos - 1].as_str(), name) {
        assert(before[pos - 1] == names@[pos - 1]@);
        return;
    }
    if pos > 0 {
        assert(before[pos - 1] == names@[pos - 1]@);
    }
    names.insert(pos, name.to_string());
    assert(texts(names@) =~= before.insert(pos as int, name@));
}

/// The names of some cgroups in their order, each once.
fn collect_names(list: &Vec<(String, CgroupNode)>) -> (r: Vec<String>)
    ensures
        texts(r@) == names_of(placed_all(list@)),
{
    let ghost all = placed_all(list@);
    let mut names: Vec<String> = Vec::new();
    let mut i: usize = 0;
    assert(texts(names@) =~= names_of(all.take(0)));
    while i < list.len()
        invariant
            i <= list@.len(),
            all == placed_all(list@),
            texts(names@) == names_of(all.take(i as int)),
        decreases list@.len() - i,
    {
        proof {
            assert(all.take(i + 1).drop_last() =~= all.take(i as int));
            assert(all.take(i + 1).last() == placed_of(list@[i as int]));
        }
        add_name(&mut names, list[i].1.name.as_str());
        i += 1;
    }
    assert(all.take(all.len() as int) =~= all);
    names
}

fn push_children(node: &str, cgroup: &CgroupNode, out: &mut Vec<(String, CgroupNode)>)
    ensures
        placed_all(final(out)@) == placed_all(old(out)@) + cgroup@.children.map_values(
            |c: CgroupView| Placed { node: node@, cgroup: c },
        ),
{
    let ghost start = placed_all(out@);
    let ghost more = cgroup@.children.map_values(|c: CgroupView| Placed { node: node@, cgroup: c });
    proof {
        lemma_children(*cgroup);
        assert(start + more.take(0) =~= start);
    }
    let mut i: usize = 0;
    while i < cgroup.children.len()
        invariant
            i <= cgroup.children@.len(),
            cgroup@.children.len() == cgroup.children@.len(),
            forall|j: int|
                0 <= j < cgroup.children@.len() ==> #[trigger] cgroup.children@[j]@
                    == cgroup@.children[j],
            more == cgroup@.children.map_values(|c: CgroupView| Placed { node: node@, cgroup: c }),
            placed_all(out@) == start + more.take(i as int),
        decreases cgroup.children@.len() - i,
    {
        assert(cgroup.children@[i as int]@ == cgroup@.children[i as int]);
        let entry = (node.to_string(), cgroup.children[i].clone());
        let ghost before = out@;
        out.push(entry);
        proof {
            assert(placed_all(out@) =~= placed_all(before).push(placed_of(entry)));
            assert(more.take(i + 1) =~= more.take(i as int).push(more[i as int]));
            assert((start + more.take(i as int)).push(more[i as int]) =~= start + more.take(i + 1));
        }
        i += 1;
    }
    assert(more.take(more.len() as int) =~= more);
}

/// The children of some cgroups, each on its machine.
fn collect_children(list: &Vec<(String, CgroupNode)>) -> (r: Vec<(String, CgroupNode)>)
    ensures
        placed_all(r@) == children_of(placed_all(list@)),
{
    let ghost all = placed_all(list@);
    let mut out: Vec<(String, CgroupNode)> = Vec::new();
    let mut i: usize = 0;
    assert(placed_all(out@) =~= children_of(all.take(0)));
    while i < list.len()
        invariant
            i <= list@.len(),
            all == placed_all(list@),
            placed_all(out@) == children_of(all.take(i as int)),
        decreases list@.len() - i,
    {
        let ghost last = placed_of(list@[i as int]);
        proof {
            assert(all.take(i + 1).drop_last() =~= all.take(i as int));
            assert(all.take(i + 1).last() == last);
        }
        push_children(list[i].0.as_str(), &list[i].1, &mut out);
        proof {
            assert(last.cgroup.children.map_values(
                |c: CgroupView| Placed { node: list@[i as int].0@, cgroup: c },
            ) =~= last.cgroup.children.map_values(
                |c: CgroupView| Placed { node: all.take(i + 1).last().node, cgroup: c },
            ));
        }
        i += 1;
    }
    assert(all.take(all.len() as int) =~= all);
    out
}

/// Those of a name.
fn gather(list: &Vec<(String, CgroupNode)>, name: &str) -> (r: Vec<(String, CgroupNode)>)
    ensures
        placed_all(r@) == named(placed_all(list@), name@),
{
    let ghost all = placed_all(list@);
    let ghost keep = |e: Placed| e.cgroup.name == name@;
    let mut out: Vec<(String, CgroupNode)> = Vec::new();
    let mut i: usize = 0;
    proof {
        reveal(Seq::filter);
        assert(placed_all(out@) =~= all.take(0).filter(keep));
    }
    while i < list.len()
        invariant
            i <= list@.len(),
            all == placed_all(list@),
            keep == (|e: Placed| e.cgroup.name == name@),
            placed_all(out@) == all.take(i as int).filter(keep),
        decreases list@.len() - i,
    {
        proof {
            reveal(Seq::filter);
            assert(all.take(i + 1).drop_last() =~= all.take(i as int));
            assert(all.take(i + 1).last() == placed_of(list@[i as int]));
        }
        if same_text(list[i].1.name.as_str(), name) {
            let entry = (list[i].0.clone(), list[i].1.clone());
            let ghost before = out@;
            out.push(entry);
            assert(placed_all(out@) =~= placed_all(before).push(placed_of(entry)));
        }
        i += 1;
    }
    assert(all.take(all.len() as int) =~= all);
    out
}

proof fn lemma_no_names(list: Seq<Placed>)
    requires
        names_of(list).len() > 0,
    ensures
        list.len() > 0,
{
}

/// The children of some cgroups put together by name.
pub fn merge_children(node_trees: &Vec<(String, CgroupNode)>) -> (r: Vec<MergedCgroup>)
    ensures
        views(r@) == merged_children(placed_all(node_trees@)),
    decreases tallest(placed_all(node_trees@)),
{
    let ghost list = placed_all(node_trees@);
    let below = collect_children(node_trees);
    let names = collect_names(&below);
    let ghost all_below = children_of(list);
    let ghost all_names = names_of(all_below);
    let mut out: Vec<MergedCgroup> = Vec::new();
    let mut k: usize = 0;
    assert(all_names.len() == names@.len());
    while k < names.len()
        invariant
            k <= names@.len(),
            list == placed_all(node_trees@),
            all_below == children_of(list),
            all_below == placed_all(below@),
            all_names == names_of(all_below),
            all_names == texts(names@),
            merged_children(list).len() == names@.len(),
            out@.len() == k,
            forall|j: int| 0 <= j < k ==> (#[trigger] out@[j])@ == merged_children(list)[j],
        decreases names@.len() - k,
    {
        assert(all_names[k as int] == names@[k as int]@);
        let group = gather(&below, names[k].as_str());
        proof {
            lemma_no_names(all_below);
            lemma_group_is_shorter(list, all_names[k as int]);
        }
        let children = merge_children(&group);
        let is_shared = group.len() == node_trees.len();
        let m = MergedCgroup { name: names[k].clone(), node_data: group, children, is_shared };
        proof {
            lemma_merged_children(m);
            assert(placed_all(m.node_data@).len() == m.node_data@.len());
            assert(list.len() == node_trees@.len());
            assert(m@ == merged_children(list)[k as int]);
        }
        out.push(m);
        k += 1;
    }
    assert(views(out@) =~= merged_children(list));
    out
}

fn copy_trees(list: &Vec<(String, CgroupNode)>) -> (r: Vec<(String, CgroupNode)>)
    ensures
        placed_all(r@) == placed_all(list@),
{
    let mut out: Vec<(String, CgroupNode)> = Vec::new();
    let mut i: usize = 0;
    while i < list.len()
        invariant
            i <= list@.len(),
            out@.len() == i,
            forall|j: int| 0 <= j < i ==> placed_of(#[trigger] out@[j]) == placed_of(list@[j]),
        decreases list@.len() - i,
    {
        out.push((list[i].0.clone(), list[i].1.clone()));
        i += 1;
    }
    assert(placed_all(out@) =~= placed_all(list@));
    out
}

/// Puts the trees of several machines together.
pub fn merge_node_trees(node_trees: &Vec<(String, CgroupNode)>) -> (r: MergedCgroup)
    ensures
        r@ == merged_trees(placed_all(node_trees@)),
{
    let ghost list = placed_all(node_trees@);
    assert(list.len() == node_trees@.len());
    if node_trees.len() == 0 {
        let r = MergedCgroup {
            name: String::new(),
            node_data: Vec::new(),
            children: Vec::new(),
            is_shared: true,
        };
        assert(r@.children =~= seq![]);
        assert(r@.node_data =~= seq![]);
        assert(r@.name =~= seq![]);
        return r;
    }
    let children = merge_children(node_trees);
    let r = MergedCgroup {
        name: node_trees[0].1.name.clone(),
        node_data: copy_trees(node_trees),
        children,
        is_shared: node_trees.len() > 1,
    };
    proof {
        lemma_merged_children(r);
    }
    r
}

/// One more name keeps the order.
pub proof fn lemma_with_name(names: Seq<Seq<char>>, name: Seq<char>)
    requires
        ascending(names),
    ensures
        ascending(with_name(names, name)),
        forall|k: Seq<char>|
            #[trigger] with_name(names, name).contains(k) == (names.contains(k) || k == name),
    decreases names.len(),
{
    let r = with_name(names, name);
    if names.len() > 0 {
        assert(names[names.len() - 1] == names.last());
    }
    if names.len() == 0 || text_before(names.last(), name) {
        assert forall|i: int, j: int| 0 <= i < j < r.len() implies text_before(
            #[trigger] r[i],
            #[trigger] r[j],
        ) by {
            if j == names.len() {
                if i < names.len() - 1 {
                    assert(text_before(names[i], names[names.len() - 1]));
                    lemma_text_before_transitive(names[i], names.last(), name);
                }
            } else {
                assert(text_before(names[i], names[j]));
            }
        }
        assert forall|k: Seq<char>| r.contains(k) == (names.contains(k) || k == name) by {
            if names.contains(k) {
                let i = choose|i: int| 0 <= i < names.len() && names[i] == k;
                assert(r[i] == k);
            }
            assert(r[names.len() as int] == name);
            if r.contains(k) {
                let i = choose|i: int| 0 <= i < r.len() && r[i] == k;
                if i < names.len() {
                    assert(names[i] == k);
                }
            }
        }
    } else if names.last() == name {
        assert(names.contains(name));
    } else {
        let front = names.drop_last();
        let t = with_name(front, name);
        assert forall|i: int, j: int| 0 <= i < j < front.len() implies text_before(
            #[trigger] front[i],
            #[trigger] front[j],
        ) by {
            assert(text_before(names[i], names[j]));
        }
        lemma_with_name(front, name);
        lemma_text_before_total(names.last(), name);
        assert(text_before(name, names.last()));
        assert forall|i: int, j: int| 0 <= i < j < r.len() implies text_before(
            #[trigger] r[i],
            #[trigger] r[j],
        ) by {
            if j == t.len() {
                assert(t.contains(t[i]));
                if front.contains(t[i]) {
                    let p = choose|p: int| 0 <= p < front.len() && front[p] == t[i];
                    assert(text_before(names[p], names[names.len() - 1]));
                }
            } else {
                assert(text_before(t[i], t[j]));
            }
        }
        assert forall|k: Seq<char>| r.contains(k) == (names.contains(k) || k == name) by {
            if t.contains(k) {
                let i = choose|i: int| 0 <= i < t.len() && t[i] == k;
                assert(r[i] == k);
            }
            if front.contains(k) {
                let i = choose|i: int| 0 <= i < front.len() && front[i] == k;
                assert(names[i] == k);
            }
            if names.contains(k) {
                let i = choose|i: int| 0 <= i < names.len() && names[i] == k;
                if i < front.len() {
                    assert(front[i] == k);
                }
            }
            if r.contains(k) {
                let i = choose|i: int| 0 <= i < r.len() && r[i] == k;
                if i < t.len() {
                    assert(t[i] == k);
                }
            }
            assert(r[t.len() as int] == names.last());
        }
    }
}

pub proof fn lemma_names_of(list: Seq<Placed>)
    ensures
        ascending(names_of(list)),
        forall|i: int| 0 <= i < list.len() ==> names_of(list).contains((#[trigger] list[i]).cgroup.name),
    decreases list.len(),
{
    if list.len() > 0 {
        let front = list.drop_last();
        lemma_names_of(front);
        lemma_with_name(names_of(front), list.last().cgroup.name);
        assert forall|i: int| 0 <= i < list.len() implies names_of(list).contains(
            (#[trigger] list[i]).cgroup.name,
        ) by {
            let r = with_name(names_of(front), list.last().cgroup.name);
            assert(names_of(list) == r);
            if i < front.len() {
                assert(front[i] == list[i]);
                assert(names_of(front).contains(front[i].cgroup.name));
            }
            assert(r.contains(list[i].cgroup.name));
        }
    }
}

/// Of the cgroups put together each name comes once, in the order of names.
pub proof fn merged_names_are_ascending(list: Seq<Placed>, i: int, j: int)
    requires
        0 <= i < j < merged_children(list).len(),
    ensures
        text_before(merged_children(list)[i].name, merged_children(list)[j].name),
{
    lemma_names_of(children_of(list));
}

/// Putting cgroups together loses none: every child is under its name, on its machine.
pub proof fn merging_keeps_every_child(list: Seq<Placed>, k: int) -> (i: int)
    requires
        0 <= k < children_of(list).len(),
    ensures
        0 <= i < merged_children(list).len(),
        merged_children(list)[i].name == children_of(list)[k].cgroup.name,
        merged_children(list)[i].node_data.contains(children_of(list)[k]),
{
    let below = children_of(list);
    let name = below[k].cgroup.name;
    lemma_names_of(below);
    assert(names_of(below).contains(below[k].cgroup.name));
    let i = choose|i: int| 0 <= i < names_of(below).len() && names_of(below)[i] == name;
    below.lemma_filter_contains(|e: Placed| e.cgroup.name == name, k);
    i
}

/// Cgroups are put together all the way down.
pub proof fn merging_goes_all_the_way_down(list: Seq<Placed>, i: int)
    requires
        0 <= i < merged_children(list).len(),
    ensures
        merged_children(list)[i].children == merged_children(merged_children(list)[i].node_data),
{
    lemma_no_names(children_of(list));
    lemma_group_is_shorter(list, names_of(children_of(list))[i]);
}

/// Under a name stand those of that name and no others; they count as shared where there are as many
/// as cgroups were put together.
pub proof fn merged_child_is_of_its_name(list: Seq<Placed>, i: int, j: int)
    requires
        0 <= i < merged_children(list).len(),
        0 <= j < merged_children(list)[i].node_data.len(),
    ensures
        ({
            let child = merged_children(list)[i];
            &&& child.node_data[j].cgroup.name == child.name
            &&& children_of(list).contains(child.node_data[j])
            &&& child.is_shared <==> child.node_data.len() == list.len()
        }),
{
    let below = children_of(list);
    let name = names_of(below)[i];
    let keep = |e: Placed| e.cgroup.name == name;
    below.lemma_filter_pred(keep, j);
    below.lemma_filter_contains_rev(keep, below.filter(keep)[j]);
}

/// Every child of the cgroups that are put together is among them, on the machine of its parent.
pub proof fn every_child_is_on_its_machine(list: Seq<Placed>, i: int, j: int) -> (k: int)
    requires
        0 <= i < list.len(),
        0 <= j < list[i].cgroup.children.len(),
    ensures
        0 <= k < children_of(list).len(),
        children_of(list)[k].node == list[i].node,
        children_of(list)[k].cgroup == list[i].cgroup.children[j],
    decreases list.len(),
{
    let front = list.drop_last();
    let before = children_of(front);
    if i < front.len() {
        let k = every_child_is_on_its_machine(front, i, j);
        assert(children_of(list)[k] == before[k]);
        k
    } else {
        let k = before.len() + j;
        assert(children_of(list)[k] == (Placed {
            node: list[i].node,
            cgroup: list[i].cgroup.children[j],
        }));
        k
    }
}

/// The trees of several machines are put together under the name of the first; with one machine only
/// nothing is shared.
pub proof fn merged_trees_are_all_there(list: Seq<Placed>)
    requires
        list.len() > 0,
    ensures
        ({
            let m = merged_trees(list);
            &&& m.name == list[0].cgroup.name
            &&& m.node_data == list
            &&& m.is_shared <==> list.len() > 1
            &&& m.children == merged_children(list)
        }),
{
}

}
