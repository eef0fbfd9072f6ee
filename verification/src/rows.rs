//! The rows of the tree view: cgroups and processes in the order in which they are shown.

use vstd::prelude::*;
use crate::cgroup::types::{lemma_children, CgroupMetrics, CgroupNode, CgroupView};
use crate::model::{lemma_views_push, views};
use crate::process::types::{copy_text, is_listed, listed, Process, ProcessState, ProcessView};
use crate::rate::Rate;
use crate::sort::{
    indices, is_permutation, key_views, sort_keys, sorted, Key, KeyView, SortColumn, SortDirection,
};
use crate::text::{concat, text_in};

verus! {

/// Flattened cgroup data for display
#[derive(Debug)]
pub struct FlatCgroup {
    pub name: String,
    pub node: Option<String>,
    pub cpu_percent: Rate,
    pub memory_current: Option<u64>,
    pub pids_current: Option<u32>,
    pub io_read_rate: Rate,
    pub io_write_rate: Rate,
}

/// What the row of a cgroup says.
pub struct FlatCgroupView {
    pub name: Seq<char>,
    pub node: Option<Seq<char>>,
    pub cpu_percent: Rate,
    pub memory_current: Option<u64>,
    pub pids_current: Option<u32>,
    pub io_read_rate: Rate,
    pub io_write_rate: Rate,
}

impl View for FlatCgroup {
    type V = FlatCgroupView;

    open spec fn view(&self) -> FlatCgroupView {
        FlatCgroupView {
            name: self.name@,
            node: text_in(self.node),
            cpu_percent: self.cpu_percent,
            memory_current: self.memory_current,
            pids_current: self.pids_current,
            io_read_rate: self.io_read_rate,
            io_write_rate: self.io_write_rate,
        }
    }
}

/// Flattened process data for display
#[derive(Debug)]
pub struct FlatProcess {
    pub pid: u32,
    pub name: String,
    pub cmdline: Option<String>,
    pub node: Option<String>,
    pub user: String,
    pub state: ProcessState,
    pub cpu_percent: Rate,
    pub rss: u64,
    pub num_threads: u32,
    pub io_read_rate: Rate,
    pub io_write_rate: Rate,
}

/// What the row of a process says.
pub struct FlatProcessView {
    pub pid: u32,
    pub name: Seq<char>,
    pub cmdline: Option<Seq<char>>,
    pub node: Option<Seq<char>>,
    pub user: Seq<char>,
    pub state: ProcessState,
    pub cpu_percent: Rate,
    pub rss: u64,
    pub num_threads: u32,
    pub io_read_rate: Rate,
    pub io_write_rate: Rate,
}

impl View for FlatProcess {
    type V = FlatProcessView;

    open spec fn view(&self) -> FlatProcessView {
        FlatProcessView {
            pid: self.pid,
            name: self.name@,
            cmdline: text_in(self.cmdline),
            node: text_in(self.node),
            user: self.user@,
            state: self.state,
            cpu_percent: self.cpu_percent,
            rss: self.rss,
            num_threads: self.num_threads,
            io_read_rate: self.io_read_rate,
            io_write_rate: self.io_write_rate,
        }
    }
}

/// Display item in the flattened tree view
#[derive(Debug)]
#[allow(inconsistent_fields)]
pub enum TreeItem {
    Cgroup {
        data: FlatCgroup,
        depth: usize,
        is_last: bool,
        prefix: String,
    },
    Process {
        data: FlatProcess,
        is_last: bool,
        /// Prefix from the cgroup tree (rendered in cgroup color)
        cgroup_prefix: String,
        /// Prefix from the process tree (rendered in process color)
        process_prefix: String,
    },
}

/// What a row says.
#[allow(inconsistent_fields)]
pub enum TreeItemView {
    Cgroup { data: FlatCgroupView, depth: usize, is_last: bool, prefix: Seq<char> },
    Process {
        data: FlatProcessView,
        is_last: bool,
        cgroup_prefix: Seq<char>,
        process_prefix: Seq<char>,
    },
}

impl View for TreeItem {
    type V = TreeItemView;

    open spec fn view(&self) -> TreeItemView {
        match self {
            TreeItem::Cgroup { data, depth, is_last, prefix } => TreeItemView::Cgroup {
                data: data@,
                depth: *depth,
                is_last: *is_last,
                prefix: prefix@,
            },
            TreeItem::Process { data, is_last, cgroup_prefix, process_prefix } => {
                TreeItemView::Process {
                    data: data@,
                    is_last: *is_last,
                    cgroup_prefix: cgroup_prefix@,
                    process_prefix: process_prefix@,
                }
            },
        }
    }
}

/// The metrics of a cgroup that are shown.
#[derive(Debug, Clone, Copy)]
pub struct Shown {
    pub cpu_percent: Rate,
    pub memory_current: Option<u64>,
    pub pids_current: Option<u32>,
    pub io_read_rate: Rate,
    pub io_write_rate: Rate,
}

pub open spec fn shown_of(m: CgroupMetrics) -> Shown {
    Shown {
        cpu_percent: m.cpu_percent,
        memory_current: m.memory_current,
        pids_current: m.pids_current,
        io_read_rate: m.io_read_rate,
        io_write_rate: m.io_write_rate,
    }
}

/// The metrics of a cgroup that are shown.
pub fn show_metrics(m: &CgroupMetrics) -> (r: Shown)
    ensures
        r == shown_of(*m),
        r.cpu_percent == m.cpu_percent,
        r.memory_current == m.memory_current,
        r.pids_current == m.pids_current,
        r.io_read_rate == m.io_read_rate,
        r.io_write_rate == m.io_write_rate,
{
    Shown {
        cpu_percent: m.cpu_percent,
        memory_current: m.memory_current,
        pids_current: m.pids_current,
        io_read_rate: m.io_read_rate,
        io_write_rate: m.io_write_rate,
    }
}

/// What a process is sorted by in a column.
pub open spec fn process_key(p: ProcessView, column: SortColumn) -> KeyView {
    match column {
        SortColumn::Name => KeyView::Text(p.name),
        SortColumn::Pid => KeyView::Count(Some(p.pid as u64)),
        SortColumn::User => KeyView::Text(p.user),
        SortColumn::State => KeyView::Count(Some(p.state.letter() as u64)),
        SortColumn::Cpu => KeyView::Speed(p.cpu_percent),
        SortColumn::Memory => KeyView::Count(Some(p.rss)),
        SortColumn::IoRead => KeyView::Speed(p.io_read_rate),
        SortColumn::IoWrite => KeyView::Speed(p.io_write_rate),
        SortColumn::Pids => KeyView::Count(Some(p.num_threads as u64)),
    }
}

/// What a cgroup is sorted by in a column; by its name where the column does not apply to it.
pub open spec fn cgroup_key(name: Seq<char>, m: Shown, column: SortColumn) -> KeyView {
    match column {
        SortColumn::Cpu => KeyView::Speed(m.cpu_percent),
        SortColumn::Memory => KeyView::Count(m.memory_current),
        SortColumn::Pids => KeyView::Count(
            match m.pids_current {
                Some(n) => Some(n as u64),
                None => None,
            },
        ),
        SortColumn::IoRead => KeyView::Speed(m.io_read_rate),
        SortColumn::IoWrite => KeyView::Speed(m.io_write_rate),
        SortColumn::Name | SortColumn::Pid | SortColumn::User | SortColumn::State => KeyView::Text(
            name,
        ),
    }
}

/// The key of a process in a column.
pub fn key_of_process(p: &Process, column: SortColumn) -> (r: Key)
    ensures
        r@ == process_key(p@, column),
{
    match column {
        SortColumn::Name => Key::Text(p.name.clone()),
        SortColumn::Pid => Key::Count(Some(p.pid as u64)),
        SortColumn::User => Key::Text(p.user.clone()),
        SortColumn::State => Key::Count(Some(p.state.as_char() as u64)),
        SortColumn::Cpu => Key::Speed(p.cpu_percent),
        SortColumn::Memory => Key::Count(Some(p.rss)),
        SortColumn::IoRead => Key::Speed(p.io_read_rate),
        SortColumn::IoWrite => Key::Speed(p.io_write_rate),
        SortColumn::Pids => Key::Count(Some(p.num_threads as u64)),
    }
}

/// The key of a cgroup in a column.
pub fn key_of_cgroup(name: &str, m: &Shown, column: SortColumn) -> (r: Key)
    ensures
        r@ == cgroup_key(name@, *m, column),
{
    match column {
        SortColumn::Cpu => Key::Speed(m.cpu_percent),
        SortColumn::Memory => Key::Count(m.memory_current),
        SortColumn::Pids => Key::Count(
            match m.pids_current {
                Some(n) => Some(n as u64),
                None => None,
            },
        ),
        SortColumn::IoRead => Key::Speed(m.io_read_rate),
        SortColumn::IoWrite => Key::Speed(m.io_write_rate),
        SortColumn::Name | SortColumn::Pid | SortColumn::User | SortColumn::State => Key::Text(
            name.to_string(),
        ),
    }
}

/// The row data of a cgroup.
pub open spec fn flat_cgroup(name: Seq<char>, node: Option<Seq<char>>, m: Shown) -> FlatCgroupView {
    FlatCgroupView {
        name,
        node,
        cpu_percent: m.cpu_percent,
        memory_current: m.memory_current,
        pids_current: m.pids_current,
        io_read_rate: m.io_read_rate,
        io_write_rate: m.io_write_rate,
    }
}

/// The row data of a process.
pub open spec fn flat_process(p: ProcessView, node: Option<Seq<char>>) -> FlatProcessView {
    FlatProcessView {
        pid: p.pid,
        name: p.name,
        cmdline: p.cmdline,
        node,
        user: p.user,
        state: p.state,
        cpu_percent: p.cpu_percent,
        rss: p.rss,
        num_threads: p.num_threads,
        io_read_rate: p.io_read_rate,
        io_write_rate: p.io_write_rate,
    }
}

/// The row data of a cgroup.
pub fn make_flat_cgroup(name: String, node: &Option<String>, m: &Shown) -> (r: FlatCgroup)
    ensures
        r@ == flat_cgroup(name@, text_in(*node), *m),
        r.name@ == name@,
        text_in(r.node) == text_in(*node),
        r.cpu_percent == m.cpu_percent,
        r.memory_current == m.memory_current,
        r.pids_current == m.pids_current,
        r.io_read_rate == m.io_read_rate,
        r.io_write_rate == m.io_write_rate,
{
    FlatCgroup {
        name,
        node: copy_text(node),
        cpu_percent: m.cpu_percent,
        memory_current: m.memory_current,
        pids_current: m.pids_current,
        io_read_rate: m.io_read_rate,
        io_write_rate: m.io_write_rate,
    }
}

/// The row data of a process.
pub fn make_flat_process(p: &Process, node: &Option<String>) -> (r: FlatProcess)
    ensures
        r@ == flat_process(p@, text_in(*node)),
        r.pid == p.pid,
        r.name@ == p.name@,
        text_in(r.cmdline) == text_in(p.cmdline),
        text_in(r.node) == text_in(*node),
        r.user@ == p.user@,
        r.state == p.state,
        r.cpu_percent == p.cpu_percent,
        r.rss == p.rss,
        r.num_threads == p.num_threads,
        r.io_read_rate == p.io_read_rate,
        r.io_write_rate == p.io_write_rate,
{
    FlatProcess {
        pid: p.pid,
        name: p.name.clone(),
        cmdline: copy_text(&p.cmdline),
        node: copy_text(node),
        user: p.user.clone(),
        state: p.state,
        cpu_percent: p.cpu_percent,
        rss: p.rss,
        num_threads: p.num_threads,
        io_read_rate: p.io_read_rate,
        io_write_rate: p.io_write_rate,
    }
}

/// How rows are shown: the machine they are from, and the column they are sorted by.
#[derive(Debug)]
pub struct Look {
    pub node: Option<String>,
    pub column: SortColumn,
    pub direction: SortDirection,
}

pub struct LookView {
    pub node: Option<Seq<char>>,
    pub column: SortColumn,
    pub direction: SortDirection,
}

impl View for Look {
    type V = LookView;

    open spec fn view(&self) -> LookView {
        LookView { node: text_in(self.node), column: self.column, direction: self.direction }
    }
}

/// The indices below `n` of the children of a process, or of the processes whose parent is not
/// in the list.
pub open spec fn family(list: Seq<ProcessView>, parent: Option<u32>, n: nat) -> Seq<int>
    decreases n,
{
    if n == 0 {
        seq![]
    } else {
        let before = family(list, parent, (n - 1) as nat);
        let belongs = match parent {
            Some(pid) => list[n - 1].ppid == pid,
            None => !listed(list, list[n - 1].ppid),
        };
        if belongs {
            before.push(n - 1)
        } else {
            before
        }
    }
}

/// The keys of the processes at some indices.
pub open spec fn family_keys(list: Seq<ProcessView>, members: Seq<int>, column: SortColumn) -> Seq<
    KeyView,
> {
    members.map_values(|i: int| process_key(list[i], column))
}

/// The indices of a family in the order of a column.
pub open spec fn ranked_family(list: Seq<ProcessView>, parent: Option<u32>, look: LookView) -> Seq<
    int,
> {
    let members = family(list, parent, list.len());
    let order = sorted(family_keys(list, members, look.column), look.direction);
    Seq::new(order.len(), |k: int| members[order[k]])
}

/// The prefix of the children of a process.
pub open spec fn below_process(prefix: Seq<char>, is_last: bool) -> Seq<char> {
    if is_last {
        prefix + "   "@
    } else {
        prefix + "│  "@
    }
}

/// The rows of a process and its descendants, down to a number of levels.
pub open spec fn process_rows(
    list: Seq<ProcessView>,
    i: int,
    look: LookView,
    cgroup_prefix: Seq<char>,
    is_last: bool,
    prefix: Seq<char>,
    levels: nat,
) -> Seq<TreeItemView>
    decreases levels, 1nat, 0nat,
{
    let row = TreeItemView::Process {
        data: flat_process(list[i], look.node),
        is_last,
        cgroup_prefix,
        process_prefix: prefix,
    };
    let children = ranked_family(list, Some(list[i].pid), look);
    seq![row] + family_rows(
        list,
        children,
        children.len(),
        look,
        cgroup_prefix,
        below_process(prefix, is_last),
        levels,
    )
}

/// The rows of the first `n` members of a family and of their descendants.
pub open spec fn family_rows(
    list: Seq<ProcessView>,
    members: Seq<int>,
    n: nat,
    look: LookView,
    cgroup_prefix: Seq<char>,
    prefix: Seq<char>,
    levels: nat,
) -> Seq<TreeItemView>
    decreases levels, 0nat, n,
{
    if n == 0 || levels == 0 {
        seq![]
    } else {
        family_rows(list, members, (n - 1) as nat, look, cgroup_prefix, prefix, levels)
            + process_rows(
            list,
            members[n - 1],
            look,
            cgroup_prefix,
            n == members.len(),
            prefix,
            (levels - 1) as nat,
        )
    }
}

/// The rows of all processes of a cgroup, as the trees that they form.
pub open spec fn forest_rows(
    list: Seq<ProcessView>,
    look: LookView,
    cgroup_prefix: Seq<char>,
) -> Seq<TreeItemView> {
    let roots = ranked_family(list, None, look);
    family_rows(list, roots, roots.len(), look, cgroup_prefix, seq![], list.len())
}

/// The prefix of a cgroup's own row.
pub open spec fn own_prefix(depth: usize, parent_prefix: Seq<char>) -> Seq<char> {
    if depth == 0 {
        seq![]
    } else {
        parent_prefix
    }
}

/// The prefix of what is below a cgroup.
pub open spec fn below_cgroup(depth: usize, is_last: bool, parent_prefix: Seq<char>) -> Seq<char> {
    if depth == 0 {
        seq![]
    } else if is_last {
        parent_prefix + "    "@
    } else {
        parent_prefix + "│   "@
    }
}

/// The name that is shown for a cgroup: in the view of one machine the root stands for it.
pub open spec fn row_name(name: Seq<char>, depth: usize, node: Option<Seq<char>>) -> Seq<char> {
    if depth == 0 && node is None {
        "localhost"@
    } else {
        name
    }
}

/// The order of the children of a cgroup.
pub open spec fn child_order(v: CgroupView, look: LookView) -> Seq<int> {
    sorted(
        v.children.map_values(
            |c: CgroupView| cgroup_key(c.name, shown_of(c.metrics), look.column),
        ),
        look.direction,
    )
}

/// The rows of a cgroup: its own, those of its children and those of its processes.
pub open spec fn cgroup_rows(
    v: CgroupView,
    look: LookView,
    depth: usize,
    is_last: bool,
    parent_prefix: Seq<char>,
) -> Seq<TreeItemView>
    decreases v, v.children.len() + 1,
{
    let row = TreeItemView::Cgroup {
        data: flat_cgroup(row_name(v.name, depth, look.node), look.node, shown_of(v.metrics)),
        depth,
        is_last,
        prefix: own_prefix(depth, parent_prefix),
    };
    let prefix = below_cgroup(depth, is_last, parent_prefix);
    seq![row] + child_rows(v, v.children.len(), look, depth.saturating_add(1), prefix)
        + forest_rows(v.processes, look, prefix)
}

/// The rows of the first `n` children of a cgroup in their order.
pub open spec fn child_rows(
    v: CgroupView,
    n: nat,
    look: LookView,
    depth: usize,
    prefix: Seq<char>,
) -> Seq<TreeItemView>
    decreases v, n,
{
    let order = child_order(v, look);
    if n == 0 || n > v.children.len() || !(0 <= order[n - 1] < v.children.len()) {
        seq![]
    } else {
        child_rows(v, (n - 1) as nat, look, depth, prefix) + cgroup_rows(
            v.children[order[n - 1]],
            look,
            depth,
            n == v.children.len() && v.processes.len() == 0,
            prefix,
        )
    }
}

/// The indices of a family.
fn find_family(list: &Vec<Process>, parent: Option<u32>) -> (r: Vec<usize>)
    ensures
        indices(r@) == family(views(list@), parent, list@.len()),
        forall|k: int| 0 <= k < r@.len() ==> (#[trigger] r@[k]) < list@.len(),
{
    let ghost all = views(list@);
    let mut out: Vec<usize> = Vec::new();
    let mut n: usize = 0;
    assert(indices(out@) =~= family(all, parent, 0));
    while n < list.len()
        invariant
            n <= list@.len(),
            all == views(list@),
            indices(out@) == family(all, parent, n as nat),
            forall|k: int| 0 <= k < out@.len() ==> (#[trigger] out@[k]) < list@.len(),
        decreases list@.len() - n,
    {
        let belongs = match parent {
            Some(pid) => list[n].ppid == pid,
            None => !is_listed(list, list[n].ppid),
        };
        if belongs {
            let ghost before = out@;
            out.push(n);
            assert(indices(out@) =~= indices(before).push(n as int));
        }
        n += 1;
    }
    out
}

/// The indices of a family in the order of a column.
fn rank_family(list: &Vec<Process>, parent: Option<u32>, look: &Look) -> (r: Vec<usize>)
    ensures
        indices(r@) == ranked_family(views(list@), parent, look@),
        forall|k: int| 0 <= k < r@.len() ==> (#[trigger] r@[k]) < list@.len(),
{
    let ghost all = views(list@);
    let members = find_family(list, parent);
    let mut keys: Vec<Key> = Vec::new();
    let mut i: usize = 0;
    while i < members.len()
        invariant
            i <= members@.len(),
            all == views(list@),
            forall|k: int| 0 <= k < members@.len() ==> (#[trigger] members@[k]) < list@.len(),
            keys@.len() == i,
            forall|k: int|
                0 <= k < i ==> (#[trigger] keys@[k])@ == process_key(
                    all[members@[k] as int],
                    look.column,
                ),
        decreases members@.len() - i,
    {
        assert(members@[i as int] < list@.len());
        keys.push(key_of_process(&list[members[i]], look.column));
        i += 1;
    }
    assert(key_views(keys@) =~= family_keys(all, indices(members@), look.column));
    let order = sort_keys(&keys, look.direction);
    let mut out: Vec<usize> = Vec::new();
    let mut k: usize = 0;
    while k < order.len()
        invariant
            k <= order@.len(),
            is_permutation(indices(order@), members@.len()),
            forall|j: int| 0 <= j < members@.len() ==> (#[trigger] members@[j]) < list@.len(),
            out@.len() == k,
            forall|j: int|
                0 <= j < k ==> (#[trigger] out@[j]) < list@.len() && out@[j]
                    == indices(members@)[indices(order@)[j]],
        decreases order@.len() - k,
    {
        assert(0 <= indices(order@)[k as int] < members@.len());
        assert(members@[order@[k as int] as int] < list@.len());
        out.push(members[order[k]]);
        k += 1;
    }
    assert(indices(out@) =~= ranked_family(all, parent, look@));
    out
}

fn process_prefix_below(prefix: &str, is_last: bool) -> (r: String)
    ensures
        r@ == below_process(prefix@, is_last),
{
    if is_last {
        concat(prefix, "   ")
    } else {
        concat(prefix, "│  ")
    }
}

/// Adds the rows of a process and its descendants.
fn flatten_process(
    list: &Vec<Process>,
    at: usize,
    look: &Look,
    cgroup_prefix: &str,
    is_last: bool,
    prefix: &str,
    levels: usize,
    items: &mut Vec<TreeItem>,
)
    requires
        at < list@.len(),
    ensures
        views(final(items)@) == views(old(items)@) + process_rows(
            views(list@),
            at as int,
            look@,
            cgroup_prefix@,
            is_last,
            prefix@,
            levels as nat,
        ),
    decreases levels, 1nat,
{
    let ghost start = views(items@);
    let ghost all = views(list@);
    let row = TreeItem::Process {
        data: make_flat_process(&list[at], &look.node),
        is_last,
        cgroup_prefix: cgroup_prefix.to_string(),
        process_prefix: prefix.to_string(),
    };
    proof {
        lemma_views_push(items@, row);
    }
    let ghost head = row@;
    items.push(row);
    let children = rank_family(list, Some(list[at].pid), look);
    let below = process_prefix_below(prefix, is_last);
    flatten_family(list, &children, look, cgroup_prefix, below.as_str(), levels, items);
    proof {
        assert(children@.len() == indices(children@).len());
        let rest = family_rows(
            all,
            indices(children@),
            children@.len(),
            look@,
            cgroup_prefix@,
            below@,
            levels as nat,
        );
        assert(start.push(head) + rest =~= start + (seq![head] + rest));
    }
}

/// Adds the rows of the members of a family and of their descendants.
fn flatten_family(
    list: &Vec<Process>,
    members: &Vec<usize>,
    look: &Look,
    cgroup_prefix: &str,
    prefix: &str,
    levels: usize,
    items: &mut Vec<TreeItem>,
)
    requires
        forall|k: int| 0 <= k < members@.len() ==> (#[trigger] members@[k]) < list@.len(),
    ensures
        views(final(items)@) == views(old(items)@) + family_rows(
            views(list@),
            indices(members@),
            members@.len(),
            look@,
            cgroup_prefix@,
            prefix@,
            levels as nat,
        ),
    decreases levels, 0nat,
{
    let ghost start = views(items@);
    let ghost all = views(list@);
    let ghost places = indices(members@);
    if levels == 0 {
        assert(start + Seq::<TreeItemView>::empty() =~= start);
        return;
    }
    let mut n: usize = 0;
    assert(start + family_rows(
        all,
        places,
        0,
        look@,
        cgroup_prefix@,
        prefix@,
        levels as nat,
    ) =~= start);
    while n < members.len()
        invariant
            n <= members@.len(),
            levels > 0,
            all == views(list@),
            places == indices(members@),
            forall|k: int| 0 <= k < members@.len() ==> (#[trigger] members@[k]) < list@.len(),
            views(items@) == start + family_rows(
                all,
                places,
                n as nat,
                look@,
                cgroup_prefix@,
                prefix@,
                levels as nat,
            ),
        decreases members@.len() - n,
    {
        assert(members@[n as int] < list@.len());
        let ghost before = views(items@);
        flatten_process(
            list,
            members[n],
            look,
            cgroup_prefix,
            n + 1 == members.len(),
            prefix,
            levels - 1,
            items,
        );
        proof {
            let one = process_rows(
                all,
                places[n as int],
                look@,
                cgroup_prefix@,
                n + 1 == members@.len(),
                prefix@,
                (levels - 1) as nat,
            );
            let done = family_rows(
                all,
                places,
                n as nat,
                look@,
                cgroup_prefix@,
                prefix@,
                levels as nat,
            );
            assert((start + done) + one =~= start + (done + one));
        }
        n += 1;
    }
}

/// Adds the rows of all processes of a cgroup, as the trees that they form.
pub fn flatten_processes_as_tree(
    processes: &Vec<Process>,
    look: &Look,
    cgroup_prefix: &str,
    items: &mut Vec<TreeItem>,
)
    ensures
        views(final(items)@) == views(old(items)@) + forest_rows(
            views(processes@),
            look@,
            cgroup_prefix@,
        ),
{
    let roots = rank_family(processes, None, look);
    proof {
        reveal_strlit("");
        assert(""@ =~= seq![]);
        assert(indices(roots@).len() == roots@.len());
    }
    flatten_family(processes, &roots, look, cgroup_prefix, "", processes.len(), items);
}

/// The order of the children of a cgroup.
fn order_children(node: &CgroupNode, look: &Look) -> (r: Vec<usize>)
    ensures
        indices(r@) == child_order(node@, look@),
        r@.len() == node.children@.len(),
        forall|k: int| 0 <= k < r@.len() ==> (#[trigger] r@[k]) < node.children@.len(),
{
    let mut keys: Vec<Key> = Vec::new();
    let mut i: usize = 0;
    proof {
        lemma_children(*node);
    }
    while i < node.children.len()
        invariant
            i <= node.children@.len(),
            node@.children.len() == node.children@.len(),
            forall|j: int|
                0 <= j < node.children@.len() ==> #[trigger] node.children@[j]@ == node@.children[j],
            keys@.len() == i,
            forall|k: int|
                0 <= k < i ==> (#[trigger] keys@[k])@ == cgroup_key(
                    node@.children[k].name,
                    shown_of(node@.children[k].metrics),
                    look.column,
                ),
        decreases node.children@.len() - i,
    {
        let child = &node.children[i];
        assert(child@ == node@.children[i as int]);
        let shown = show_metrics(&child.metrics);
        keys.push(key_of_cgroup(child.name.as_str(), &shown, look.column));
        i += 1;
    }
    assert(key_views(keys@) =~= node@.children.map_values(
        |c: CgroupView| cgroup_key(c.name, shown_of(c.metrics), look@.column),
    ));
    let order = sort_keys(&keys, look.direction);
    assert forall|k: int| 0 <= k < order@.len() implies (#[trigger] order@[k])
        < node.children@.len() by {
        assert(indices(order@)[k] == order@[k]);
    }
    order
}

/// The prefix of what is below a cgroup.
pub fn cgroup_prefix_below(depth: usize, is_last: bool, parent_prefix: &str) -> (r: String)
    ensures
        r@ == below_cgroup(depth, is_last, parent_prefix@),
{
    if depth == 0 {
        String::new()
    } else if is_last {
        concat(parent_prefix, "    ")
    } else {
        concat(parent_prefix, "│   ")
    }
}

/// The prefix of a cgroup's own row.
pub fn cgroup_prefix_own(depth: usize, parent_prefix: &str) -> (r: String)
    ensures
        r@ == own_prefix(depth, parent_prefix@),
{
    if depth == 0 {
        String::new()
    } else {
        parent_prefix.to_string()
    }
}

/// Adds the rows of the children of a cgroup in their order.
pub fn flatten_children(
    node: &CgroupNode,
    look: &Look,
    depth: usize,
    prefix: &str,
    items: &mut Vec<TreeItem>,
)
    ensures
        views(final(items)@) == views(old(items)@) + child_rows(
            node@,
            node@.children.len(),
            look@,
            depth,
            prefix@,
        ),
    decreases node, 0nat,
{
    let ghost start = views(items@);
    proof {
        lemma_children(*node);
    }
    let order = order_children(node, look);
    let mut n: usize = 0;
    assert(start + child_rows(node@, 0, look@, depth, prefix@) =~= start);
    while n < order.len()
        invariant
            n <= order@.len(),
            node@.children.len() == node.children@.len(),
            forall|j: int|
                0 <= j < node.children@.len() ==> #[trigger] node.children@[j]@ == node@.children[j],
            order@.len() == node.children@.len(),
            indices(order@) == child_order(node@, look@),
            forall|k: int| 0 <= k < order@.len() ==> (#[trigger] order@[k]) < node.children@.len(),
            views(node.processes@) == node@.processes,
            views(items@) == start + child_rows(node@, n as nat, look@, depth, prefix@),
        decreases order@.len() - n,
    {
        assert(order@[n as int] < node.children@.len());
        assert(indices(order@)[n as int] == order@[n as int]);
        let child = &node.children[order[n]];
        assert(child@ == node@.children[child_order(node@, look@)[n as int]]);
        let child_is_last = n + 1 == order.len() && node.processes.len() == 0;
        flatten_cgroup_node(child, look, depth, child_is_last, prefix, items);
        proof {
            let done = child_rows(node@, n as nat, look@, depth, prefix@);
            let one = cgroup_rows(child@, look@, depth, child_is_last, prefix@);
            assert((start + done) + one =~= start + (done + one));
            assert(node@.processes.len() == node.processes@.len());
        }
        n += 1;
    }
}

/// Adds the rows of a cgroup: its own, those of its children and those of its processes.
pub fn flatten_cgroup_node(
    node: &CgroupNode,
    look: &Look,
    depth: usize,
    is_last: bool,
    parent_prefix: &str,
    items: &mut Vec<TreeItem>,
)
    ensures
        views(final(items)@) == views(old(items)@) + cgroup_rows(
            node@,
            look@,
            depth,
            is_last,
            parent_prefix@,
        ),
    decreases node, 1nat,
{
    let ghost start = views(items@);
    proof {
        lemma_children(*node);
    }
    let name = if depth == 0 && look.node.is_none() {
        "localhost".to_string()
    } else {
        node.name.clone()
    };
    let shown = show_metrics(&node.metrics);
    let row = TreeItem::Cgroup {
        data: make_flat_cgroup(name, &look.node, &shown),
        depth,
        is_last,
        prefix: cgroup_prefix_own(depth, parent_prefix),
    };
    proof {
        lemma_views_push(items@, row);
    }
    let ghost head = row@;
    items.push(row);
    let prefix = cgroup_prefix_below(depth, is_last, parent_prefix);
    let next: usize = depth.saturating_add(1);
    flatten_children(node, look, next, prefix.as_str(), items);
    flatten_processes_as_tree(&node.processes, look, prefix.as_str(), items);
    proof {
        let inner = child_rows(node@, node@.children.len(), look@, next, prefix@);
        let last = forest_rows(node@.processes, look@, prefix@);
        assert((start.push(head) + inner) + last =~= start + (seq![head] + inner + last));
    }
}

/// The rows of a whole tree.
pub open spec fn tree_rows(root: CgroupView, look: LookView) -> Seq<TreeItemView> {
    cgroup_rows(root, look, 0, true, seq![])
}

/// Flatten the cgroup tree with embedded process trees into a list for display
pub fn flatten_tree(root: &CgroupNode, column: SortColumn, direction: SortDirection) -> (r: Vec<
    TreeItem,
>)
    ensures
        views(r@) == tree_rows(root@, (LookView { node: None, column, direction })),
{
    let look = Look { node: None, column, direction };
    let mut items: Vec<TreeItem> = Vec::new();
    proof {
        reveal_strlit("");
        assert(""@ =~= seq![]);
    }
    flatten_cgroup_node(root, &look, 0, true, "", &mut items);
    assert(views(items@) =~= tree_rows(root@, look@));
    items
}

}
