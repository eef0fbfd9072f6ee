//! Reading of cgroups from what the kernel says of them under the cgroup mount point.

use vstd::prelude::*;
use crate::cgroup::types::{lemma_children, no_metrics, CgroupMetrics, CgroupNode, CgroupView};
use crate::model::views;
use crate::number::{number_u32, number_u64, parse_u32, parse_u64};
use crate::path::{file_name, last_part, same_path, same_place};
use crate::process::parser::{
    all_whole, are_whole, parse_processes, processes_read, ProcFiles, ProcFilesView, Users,
};
use crate::process::types::{Process, ProcessView};
use crate::sort::{
    comparable_is_consistent, indices, is_permutation, key_views, precedes, sort_keys, sorted,
    sorted_is_in_order, sorted_is_permutation, Key, KeyView, SortDirection,
};
use crate::text::{
    after_prefix, lines, same_text, split_lines, split_words, strip, text_before, text_in, texts, trim,
    trimmed, words,
};

verus! {

/// Default cgroup v2 mount point
pub const CGROUP_ROOT: &'static str = "/sys/fs/cgroup";

/// What the files of a cgroup hold; a file that could not be read is missing.
#[derive(Debug)]
pub struct CgroupDir {
    /// Full path to the cgroup directory
    pub path: String,
    /// cpu.stat
    pub cpu_stat: Option<String>,
    /// memory.current
    pub memory_current: Option<String>,
    /// memory.max
    pub memory_max: Option<String>,
    /// io.stat
    pub io_stat: Option<String>,
    /// pids.current
    pub pids_current: Option<String>,
    /// The files of the processes in cgroup.procs
    pub processes: Vec<ProcFiles>,
    /// The cgroups below this one
    pub children: Vec<CgroupDir>,
}

/// The texts of the files of a cgroup and those below it.
pub struct CgroupDirView {
    pub path: Seq<char>,
    pub cpu_stat: Option<Seq<char>>,
    pub memory_current: Option<Seq<char>>,
    pub memory_max: Option<Seq<char>>,
    pub io_stat: Option<Seq<char>>,
    pub pids_current: Option<Seq<char>>,
    pub processes: Seq<ProcFilesView>,
    pub children: Seq<CgroupDirView>,
}

impl CgroupDir {
    pub open spec fn model(self) -> CgroupDirView
        decreases self,
    {
        CgroupDirView {
            path: self.path@,
            cpu_stat: text_in(self.cpu_stat),
            memory_current: text_in(self.memory_current),
            memory_max: text_in(self.memory_max),
            io_stat: text_in(self.io_stat),
            pids_current: text_in(self.pids_current),
            processes: views(self.processes@),
            children: Seq::new(
                self.children@.len(),
                |i: int|
                    if 0 <= i < self.children@.len() {
                        self.children@[i].model()
                    } else {
                        arbitrary()
                    },
            ),
        }
    }
}

impl View for CgroupDir {
    type V = CgroupDirView;

    open spec fn view(&self) -> CgroupDirView {
        self.model()
    }
}

/// The process IDs in the lines of cgroup.procs; other lines are passed over.
pub open spec fn pids_in(list: Seq<Seq<char>>) -> Seq<u32>
    decreases list.len(),
{
    if list.len() == 0 {
        seq![]
    } else {
        let before = pids_in(list.drop_last());
        match number_u32(trimmed(list.last())) {
            Some(pid) => before.push(pid),
            None => before,
        }
    }
}

/// Parse the process IDs out of cgroup.procs
pub fn parse_pids(content: &str) -> (r: Vec<u32>)
    ensures
        r@ == pids_in(lines(content@)),
{
    let list = split_lines(content);
    let ghost all = texts(list@);
    let mut out: Vec<u32> = Vec::new();
    let mut i: usize = 0;
    while i < list.len()
        invariant
            i <= list@.len(),
            all == texts(list@),
            out@ == pids_in(all.take(i as int)),
        decreases list@.len() - i,
    {
        proof {
            assert(all.take(i + 1).drop_last() =~= all.take(i as int));
            assert(all.take(i + 1).last() == list@[i as int]@);
        }
        let text = trim(list[i].as_str());
        match parse_u32(text.as_str()) {
            Some(pid) => out.push(pid),
            None => {},
        }
        i += 1;
    }
    assert(all.take(all.len() as int) =~= all);
    out
}

/// The CPU usage in the first line that gives it.
pub open spec fn usage_in(list: Seq<Seq<char>>) -> Option<u64>
    decreases list.len(),
{
    if list.len() == 0 {
        None
    } else {
        match after_prefix(list[0], "usage_usec "@) {
            Some(value) => number_u64(trimmed(value)),
            None => usage_in(list.skip(1)),
        }
    }
}

/// Parse the CPU usage out of cpu.stat
pub fn parse_cpu_stat(content: &str) -> (r: Option<u64>)
    ensures
        r == usage_in(lines(content@)),
{
    let list = split_lines(content);
    let ghost all = texts(list@);
    let mut i: usize = 0;
    assert(all.skip(0) =~= all);
    while i < list.len()
        invariant
            i <= list@.len(),
            all == texts(list@),
            all == lines(content@),
            usage_in(all.skip(i as int)) == usage_in(all),
        decreases list@.len() - i,
    {
        assert(all.skip(i as int)[0] == list@[i as int]@);
        match strip(list[i].as_str(), "usage_usec ") {
            Some(value) => {
                let text = trim(value.as_str());
                return parse_u64(text.as_str());
            },
            None => {},
        }
        assert(all.skip(i as int).skip(1) =~= all.skip(i + 1));
        i += 1;
    }
    None
}

/// The memory limit; there is none where it is `max`.
pub open spec fn limit_in(content: Seq<char>) -> Option<u64> {
    if trimmed(content) == "max"@ {
        None
    } else {
        number_u64(trimmed(content))
    }
}

/// Parse the limit out of memory.max
pub fn parse_memory_max(content: &str) -> (r: Option<u64>)
    ensures
        r == limit_in(content@),
{
    let text = trim(content);
    if same_text(text.as_str(), "max") {
        None
    } else {
        parse_u64(text.as_str())
    }
}

/// The number behind a label, zero where it is none; nothing behind another.
pub open spec fn labelled(word: Seq<char>, label: Seq<char>) -> u64 {
    match after_prefix(word, label) {
        Some(value) => match number_u64(value) {
            Some(n) => n,
            None => 0,
        },
        None => 0,
    }
}

/// The sum of the numbers behind a label.
pub open spec fn total_of(list: Seq<Seq<char>>, label: Seq<char>) -> u64
    decreases list.len(),
{
    if list.len() == 0 {
        0
    } else {
        total_of(list.drop_last(), label).wrapping_add(labelled(list.last(), label))
    }
}

/// A total, where there is something to count.
pub open spec fn unless_zero(n: u64) -> Option<u64> {
    if n > 0 {
        Some(n)
    } else {
        None
    }
}

fn read_labelled(word: &str, label: &str) -> (r: u64)
    ensures
        r == labelled(word@, label@),
{
    match strip(word, label) {
        Some(value) => match parse_u64(value.as_str()) {
            Some(n) => n,
            None => 0,
        },
        None => 0,
    }
}

/// Parse the bytes read and written, over all devices, out of io.stat
pub fn parse_io_stat(content: &str) -> (r: (Option<u64>, Option<u64>))
    ensures
        r.0 == unless_zero(total_of(words(content@), "rbytes="@)),
        r.1 == unless_zero(total_of(words(content@), "wbytes="@)),
{
    let list = split_words(content);
    let ghost all = texts(list@);
    let mut total_read: u64 = 0;
    let mut total_write: u64 = 0;
    let mut i: usize = 0;
    while i < list.len()
        invariant
            i <= list@.len(),
            all == texts(list@),
            total_read == total_of(all.take(i as int), "rbytes="@),
            total_write == total_of(all.take(i as int), "wbytes="@),
        decreases list@.len() - i,
    {
        proof {
            assert(all.take(i + 1).drop_last() =~= all.take(i as int));
            assert(all.take(i + 1).last() == list@[i as int]@);
        }
        total_read = total_read.wrapping_add(read_labelled(list[i].as_str(), "rbytes="));
        total_write = total_write.wrapping_add(read_labelled(list[i].as_str(), "wbytes="));
        i += 1;
    }
    assert(all.take(all.len() as int) =~= all);
    let io_read: Option<u64> = if total_read > 0 {
        Some(total_read)
    } else {
        None
    };
    let io_write: Option<u64> = if total_write > 0 {
        Some(total_write)
    } else {
        None
    };
    (io_read, io_write)
}

/// A kernel thread: kthreadd or one of its children.
pub open spec fn of_kernel(p: ProcessView) -> bool {
    p.pid == 2 || p.ppid == 2
}

/// The processes but for kernel threads.
pub open spec fn without_kernel(list: Seq<ProcessView>) -> Seq<ProcessView> {
    list.filter(|p: ProcessView| !of_kernel(p))
}

/// Check if a process is a kernel thread (kthreadd or its children)
pub fn is_kernel_thread(p: &Process) -> (r: bool)
    ensures
        r == of_kernel(p@),
{
    p.pid == 2 || p.ppid == 2
}

/// The processes of a cgroup: those that can be read, but for kernel threads.
pub fn parse_members(list: &Vec<ProcFiles>, users: &Users) -> (r: Vec<Process>)
    requires
        all_whole(views(list@)),
    ensures
        views(r@) == without_kernel(processes_read(views(list@), users@)),
{
    let found = parse_processes(list, users);
    let ghost all = views(found@);
    let mut out: Vec<Process> = Vec::new();
    let mut i: usize = 0;
    proof {
        reveal(Seq::filter);
        assert(views(out@) =~= without_kernel(all.take(0)));
    }
    while i < found.len()
        invariant
            i <= found@.len(),
            all == views(found@),
            views(out@) == without_kernel(all.take(i as int)),
        decreases found@.len() - i,
    {
        proof {
            reveal(Seq::filter);
            assert(all.take(i + 1).drop_last() =~= all.take(i as int));
            assert(all.take(i + 1).last() == found@[i as int]@);
        }
        if !is_kernel_thread(&found[i]) {
            let p = found[i].clone();
            let ghost before = out@;
            out.push(p);
            assert(views(out@) =~= views(before).push(p@));
        }
        i += 1;
    }
    assert(all.take(all.len() as int) =~= all);
    out
}

/// The number that a file holds.
pub open spec fn u64_in(content: Option<Seq<char>>) -> Option<u64> {
    match content {
        Some(text) => number_u64(trimmed(text)),
        None => None,
    }
}

/// The 32-bit number that a file holds.
pub open spec fn u32_in(content: Option<Seq<char>>) -> Option<u32> {
    match content {
        Some(text) => number_u32(trimmed(text)),
        None => None,
    }
}

/// The metrics that the files of a cgroup give.
pub open spec fn metrics_read(dir: CgroupDirView) -> CgroupMetrics {
    CgroupMetrics {
        memory_current: u64_in(dir.memory_current),
        memory_max: match dir.memory_max {
            Some(text) => limit_in(text),
            None => None,
        },
        cpu_usage_usec: match dir.cpu_stat {
            Some(text) => usage_in(lines(text)),
            None => None,
        },
        pids_current: u32_in(dir.pids_current),
        io_read_bytes: match dir.io_stat {
            Some(text) => unless_zero(total_of(words(text), "rbytes="@)),
            None => None,
        },
        io_write_bytes: match dir.io_stat {
            Some(text) => unless_zero(total_of(words(text), "wbytes="@)),
            None => None,
        },
        ..no_metrics()
    }
}

fn read_u64(content: &Option<String>) -> (r: Option<u64>)
    ensures
        r == u64_in(text_in(*content)),
{
    match content {
        Some(text) => {
            let value = trim(text.as_str());
            parse_u64(value.as_str())
        },
        None => None,
    }
}

fn read_u32(content: &Option<String>) -> (r: Option<u32>)
    ensures
        r == u32_in(text_in(*content)),
{
    match content {
        Some(text) => {
            let value = trim(text.as_str());
            parse_u32(value.as_str())
        },
        None => None,
    }
}

/// Parse the metrics of a cgroup
pub fn parse_metrics(dir: &CgroupDir) -> (r: CgroupMetrics)
    ensures
        r == metrics_read(dir@),
{
    let mut metrics = CgroupMetrics::default();
    metrics.memory_current = read_u64(&dir.memory_current);
    metrics.memory_max = match &dir.memory_max {
        Some(text) => parse_memory_max(text.as_str()),
        None => None,
    };
    metrics.cpu_usage_usec = match &dir.cpu_stat {
        Some(text) => parse_cpu_stat(text.as_str()),
        None => None,
    };
    metrics.pids_current = read_u32(&dir.pids_current);
    let io: (Option<u64>, Option<u64>) = match &dir.io_stat {
        Some(text) => parse_io_stat(text.as_str()),
        None => (None, None),
    };
    metrics.io_read_bytes = io.0;
    metrics.io_write_bytes = io.1;
    metrics
}

/// One level deeper in the tree.
pub open spec fn below(depth: usize) -> usize {
    depth.saturating_add(1)
}

/// The indices of some names in the order of the names.
pub open spec fn name_order(names: Seq<Seq<char>>) -> Seq<int> {
    sorted(names.map_values(|n: Seq<char>| KeyView::Text(n)), SortDirection::Ascending)
}

/// The order of a list of names.
pub fn order_names(names: &Vec<String>) -> (r: Vec<usize>)
    ensures
        indices(r@) == name_order(texts(names@)),
        is_permutation(indices(r@), names@.len()),
        r@.len() == names@.len(),
        forall|k: int| 0 <= k < r@.len() ==> (#[trigger] r@[k]) < names@.len(),
{
    let mut keys: Vec<Key> = Vec::new();
    let mut i: usize = 0;
    while i < names.len()
        invariant
            i <= names@.len(),
            keys@.len() == i,
            forall|j: int| 0 <= j < i ==> (#[trigger] keys@[j])@ == KeyView::Text(names@[j]@),
        decreases names@.len() - i,
    {
        keys.push(Key::Text(names[i].clone()));
        i += 1;
    }
    assert(key_views(keys@) =~= texts(names@).map_values(|n: Seq<char>| KeyView::Text(n)));
    let order = sort_keys(&keys, SortDirection::Ascending);
    assert forall|k: int| 0 <= k < order@.len() implies (#[trigger] order@[k]) < names@.len() by {
        assert(indices(order@)[k] == order@[k]);
    }
    order
}

/// The name of the cgroup at a path.
pub open spec fn cgroup_name(path: Seq<char>) -> Seq<char> {
    match last_part(path) {
        Some(name) => name,
        None => "/"@,
    }
}

/// The root cgroup has no files for its memory and processes of its own.
pub open spec fn own_metrics(dir: CgroupDirView) -> CgroupMetrics {
    let metrics = metrics_read(dir);
    if same_place(dir.path, CGROUP_ROOT@) {
        CgroupMetrics { memory_current: None, memory_max: None, pids_current: None, ..metrics }
    } else {
        metrics
    }
}

/// The names of the cgroups below one.
pub open spec fn child_names(dir: CgroupDirView) -> Seq<Seq<char>> {
    Seq::new(dir.children.len(), |i: int| cgroup_name(dir.children[i].path))
}

/// What the files of a cgroup say of it and of those below it, in the order of their names.
pub open spec fn node_read(
    dir: CgroupDirView,
    depth: usize,
    users: Seq<(u32, Seq<char>)>,
) -> CgroupView
    decreases dir,
{
    let order = name_order(child_names(dir));
    CgroupView {
        path: dir.path,
        name: cgroup_name(dir.path),
        children: Seq::new(
            order.len(),
            |k: int|
                if 0 <= k < order.len() && 0 <= order[k] < dir.children.len() {
                    node_read(dir.children[order[k]], below(depth), users)
                } else {
                    arbitrary()
                },
        ),
        processes: without_kernel(processes_read(dir.processes, users)),
        metrics: own_metrics(dir),
        depth,
    }
}

/// The stat lines of all processes in the cgroup and below it can be read.
pub open spec fn dir_is_whole(dir: CgroupDirView) -> bool
    decreases dir,
{
    &&& all_whole(dir.processes)
    &&& forall|i: int|
        0 <= i < dir.children.len() ==> dir_is_whole(#[trigger] dir.children[i])
}

proof fn lemma_dir_children(dir: CgroupDir)
    ensures
        dir@.children.len() == dir.children@.len(),
        forall|i: int| 0 <= i < dir.children@.len() ==> #[trigger] dir.children@[i]@ == dir@.children[i],
{
}

impl CgroupDir {
    /// Tests whether the stat lines of all processes in the cgroup and below it can be read.
    pub fn is_whole(&self) -> (r: bool)
        ensures
            r == dir_is_whole(self@),
        decreases self,
    {
        proof {
            lemma_dir_children(*self);
        }
        if !are_whole(&self.processes) {
            return false;
        }
        let mut i: usize = 0;
        while i < self.children.len()
            invariant
                i <= self.children@.len(),
                self@.children.len() == self.children@.len(),
                forall|j: int|
                    0 <= j < self.children@.len() ==> #[trigger] self.children@[j]@ == self@.children[j],
                forall|j: int| 0 <= j < i ==> dir_is_whole(#[trigger] self@.children[j]),
                all_whole(self@.processes),
            decreases self.children@.len() - i,
        {
            if !self.children[i].is_whole() {
                assert(!dir_is_whole(self@.children[i as int]));
                return false;
            }
            i += 1;
        }
        true
    }
}

fn name_of(path: &str) -> (r: String)
    ensures
        r@ == cgroup_name(path@),
{
    match file_name(path) {
        Some(name) => name,
        None => "/".to_string(),
    }
}

/// Parse a single cgroup node and its children recursively
fn parse_cgroup_node(dir: &CgroupDir, depth: usize, users: &Users) -> (r: CgroupNode)
    requires
        dir_is_whole(dir@),
    ensures
        r@ == node_read(dir@, depth, users@),
    decreases dir,
{
    proof {
        lemma_dir_children(*dir);
    }
    let mut metrics = parse_metrics(dir);
    if same_path(dir.path.as_str(), CGROUP_ROOT) {
        metrics.memory_current = None;
        metrics.memory_max = None;
        metrics.pids_current = None;
    }
    let processes = parse_members(&dir.processes, users);
    let mut names: Vec<String> = Vec::new();
    let mut i: usize = 0;
    while i < dir.children.len()
        invariant
            i <= dir.children@.len(),
            dir@.children.len() == dir.children@.len(),
            forall|j: int|
                0 <= j < dir.children@.len() ==> #[trigger] dir.children@[j]@ == dir@.children[j],
            names@.len() == i,
            forall|j: int| 0 <= j < i ==> (#[trigger] names@[j])@ == cgroup_name(dir@.children[j].path),
        decreases dir.children@.len() - i,
    {
        assert(dir.children@[i as int]@ == dir@.children[i as int]);
        names.push(name_of(dir.children[i].path.as_str()));
        i += 1;
    }
    assert(texts(names@) =~= child_names(dir@));
    let order = order_names(&names);
    let ghost places = name_order(child_names(dir@));
    let mut children: Vec<CgroupNode> = Vec::new();
    let mut k: usize = 0;
    while k < order.len()
        invariant
            k <= order@.len(),
            dir_is_whole(dir@),
            dir@.children.len() == dir.children@.len(),
            forall|j: int|
                0 <= j < dir.children@.len() ==> #[trigger] dir.children@[j]@ == dir@.children[j],
            order@.len() == dir.children@.len(),
            forall|j: int| 0 <= j < order@.len() ==> (#[trigger] order@[j]) < dir.children@.len(),
            children@.len() == k,
            forall|j: int|
                0 <= j < k ==> (#[trigger] children@[j])@ == node_read(
                    dir@.children[order@[j] as int],
                    below(depth),
                    users@,
                ),
        decreases order@.len() - k,
    {
        assert(order@[k as int] < dir.children@.len());
        children.push(parse_cgroup_node(&dir.children[order[k]], depth.saturating_add(1), users));
        k += 1;
    }
    let r = CgroupNode {
        path: dir.path.clone(),
        name: name_of(dir.path.as_str()),
        children,
        processes,
        metrics,
        depth,
    };
    proof {
        lemma_children(r);
        let want = node_read(dir@, depth, users@);
        assert forall|j: int| 0 <= j < places.len() implies r@.children[j] == #[trigger] want.children[j] by {
            assert(places[j] == order@[j] as int) by {
                assert(indices(order@)[j] == order@[j]);
            }
            assert(children@[j]@ == r@.children[j]);
        }
        assert(r@.children =~= want.children);
    }
    r
}

/// The sum of what is known.
pub open spec fn sum_known(list: Seq<Option<u64>>) -> u64
    decreases list.len(),
{
    if list.len() == 0 {
        0
    } else {
        let before = sum_known(list.drop_last());
        match list.last() {
            Some(n) => before.wrapping_add(n),
            None => before,
        }
    }
}

/// The sum of what is known, in 32 bits.
pub open spec fn sum_known_small(list: Seq<Option<u32>>) -> u32
    decreases list.len(),
{
    if list.len() == 0 {
        0
    } else {
        let before = sum_known_small(list.drop_last());
        match list.last() {
            Some(n) => before.wrapping_add(n),
            None => before,
        }
    }
}

/// A metric, or else the sum over the children where that is something.
pub open spec fn known_or_sum(own: Option<u64>, list: Seq<Option<u64>>) -> Option<u64> {
    match own {
        Some(n) => Some(n),
        None => unless_zero(sum_known(list)),
    }
}

/// A number of processes as a 32-bit number.
pub open spec fn small_count(n: nat) -> u32 {
    (n % 0x1_0000_0000) as u32
}

/// The number of tasks, or else those of the children and the processes of the cgroup itself.
pub open spec fn known_or_tasks(own: Option<u32>, list: Seq<Option<u32>>, processes: nat) -> Option<
    u32,
> {
    match own {
        Some(n) => Some(n),
        None => {
            let total = sum_known_small(list).wrapping_add(small_count(processes));
            if total > 0 {
                Some(total)
            } else {
                None
            }
        },
    }
}

/// The metrics of a cgroup with what is missing taken from its children.
pub open spec fn completed_metrics(
    own: CgroupMetrics,
    children: Seq<CgroupView>,
    processes: nat,
) -> CgroupMetrics {
    CgroupMetrics {
        memory_current: known_or_sum(
            own.memory_current,
            children.map_values(|c: CgroupView| c.metrics.memory_current),
        ),
        pids_current: known_or_tasks(
            own.pids_current,
            children.map_values(|c: CgroupView| c.metrics.pids_current),
            processes,
        ),
        io_read_bytes: known_or_sum(
            own.io_read_bytes,
            children.map_values(|c: CgroupView| c.metrics.io_read_bytes),
        ),
        io_write_bytes: known_or_sum(
            own.io_write_bytes,
            children.map_values(|c: CgroupView| c.metrics.io_write_bytes),
        ),
        ..own
    }
}

/// The tree with the metrics that are missing in a cgroup taken from its children.
pub open spec fn completed(v: CgroupView) -> CgroupView
    decreases v,
{
    let children = Seq::new(
        v.children.len(),
        |i: int|
            if 0 <= i < v.children.len() {
                completed(v.children[i])
            } else {
                arbitrary()
            },
    );
    CgroupView {
        children,
        metrics: completed_metrics(v.metrics, children, v.processes.len()),
        ..v
    }
}

fn add_known(total: u64, n: Option<u64>) -> (r: u64)
    ensures
        r == (match n {
            Some(n) => total.wrapping_add(n),
            None => total,
        }),
{
    match n {
        Some(n) => total.wrapping_add(n),
        None => total,
    }
}

/// Aggregate metrics from children for nodes that don't have direct values
pub fn aggregate_metrics(node: &mut CgroupNode)
    ensures
        final(node)@ == completed(old(node)@),
    decreases *old(node),
{
    let ghost before = *node;
    proof {
        lemma_children(before);
    }
    let mut memory: u64 = 0;
    let mut pids: u32 = 0;
    let mut io_read: u64 = 0;
    let mut io_write: u64 = 0;
    let mut i: usize = 0;
    let n: usize = node.children.len();
    let ghost done = completed(before@).children;
    let ghost memories = done.map_values(|c: CgroupView| c.metrics.memory_current);
    let ghost tasks = done.map_values(|c: CgroupView| c.metrics.pids_current);
    let ghost reads = done.map_values(|c: CgroupView| c.metrics.io_read_bytes);
    let ghost writes = done.map_values(|c: CgroupView| c.metrics.io_write_bytes);
    while i < n
        invariant
            i <= n,
            n == before.children@.len(),
            node.children@.len() == n,
            before@.children.len() == n,
            done == completed(before@).children,
            done.len() == n,
            memories == done.map_values(|c: CgroupView| c.metrics.memory_current),
            tasks == done.map_values(|c: CgroupView| c.metrics.pids_current),
            reads == done.map_values(|c: CgroupView| c.metrics.io_read_bytes),
            writes == done.map_values(|c: CgroupView| c.metrics.io_write_bytes),
            node.path == before.path,
            node.name == before.name,
            node.processes == before.processes,
            node.metrics == before.metrics,
            node.depth == before.depth,
            forall|j: int|
                0 <= j < n ==> #[trigger] before.children@[j]@ == before@.children[j],
            forall|j: int| i <= j < n ==> #[trigger] node.children@[j] == before.children@[j],
            forall|j: int| 0 <= j < i ==> (#[trigger] node.children@[j])@ == done[j],
            memory == sum_known(memories.take(i as int)),
            pids == sum_known_small(tasks.take(i as int)),
            io_read == sum_known(reads.take(i as int)),
            io_write == sum_known(writes.take(i as int)),
            before == *old(node),
        decreases n - i,
    {
        assert(node.children@[i as int] == before.children@[i as int]);
        assert(decreases_to!(before => before.children@[i as int]));
        aggregate_metrics(&mut node.children[i]);
        proof {
            assert(before.children@[i as int]@ == before@.children[i as int]);
            assert(node.children@[i as int]@ == done[i as int]);
            assert(memories.take(i + 1).drop_last() =~= memories.take(i as int));
            assert(tasks.take(i + 1).drop_last() =~= tasks.take(i as int));
            assert(reads.take(i + 1).drop_last() =~= reads.take(i as int));
            assert(writes.take(i + 1).drop_last() =~= writes.take(i as int));
        }
        let metrics = node.children[i].metrics;
        memory = add_known(memory, metrics.memory_current);
        pids = match metrics.pids_current {
            Some(count) => pids.wrapping_add(count),
            None => pids,
        };
        io_read = add_known(io_read, metrics.io_read_bytes);
        io_write = add_known(io_write, metrics.io_write_bytes);
        i += 1;
    }
    proof {
        assert(memories.take(n as int) =~= memories);
        assert(tasks.take(n as int) =~= tasks);
        assert(reads.take(n as int) =~= reads);
        assert(writes.take(n as int) =~= writes);
    }
    if node.metrics.memory_current.is_none() && memory > 0 {
        node.metrics.memory_current = Some(memory);
    }
    if node.metrics.pids_current.is_none() {
        let direct_pids: u32 = (node.processes.len() as u64 % 0x1_0000_0000) as u32;
        let total: u32 = pids.wrapping_add(direct_pids);
        if total > 0 {
            node.metrics.pids_current = Some(total);
        }
    }
    if node.metrics.io_read_bytes.is_none() && io_read > 0 {
        node.metrics.io_read_bytes = Some(io_read);
    }
    if node.metrics.io_write_bytes.is_none() && io_write > 0 {
        node.metrics.io_write_bytes = Some(io_write);
    }
    proof {
        lemma_children(*node);
        assert(node@.children =~= done);
    }
}

/// Parse the entire cgroup tree starting from the root
pub fn parse_cgroup_tree(root: &CgroupDir, users: &Users) -> (r: CgroupNode)
    requires
        dir_is_whole(root@),
    ensures
        r@ == completed(node_read(root@, 0, users@)),
{
    let mut tree = parse_cgroup_node(root, 0, users);
    aggregate_metrics(&mut tree);
    tree
}

/// No kernel thread is read into a cgroup.
pub proof fn kernel_threads_are_left_out(
    dir: CgroupDirView,
    depth: usize,
    users: Seq<(u32, Seq<char>)>,
    i: int,
)
    requires
        0 <= i < node_read(dir, depth, users).processes.len(),
    ensures
        node_read(dir, depth, users).processes[i].pid != 2,
        node_read(dir, depth, users).processes[i].ppid != 2,
{
    processes_read(dir.processes, users).lemma_filter_pred(|p: ProcessView| !of_kernel(p), i);
}

/// The children of a cgroup are read in the order of their names, and all of them are.
pub proof fn children_are_read_in_name_order(
    dir: CgroupDirView,
    depth: usize,
    users: Seq<(u32, Seq<char>)>,
    i: int,
    j: int,
)
    requires
        0 <= i < j < node_read(dir, depth, users).children.len(),
    ensures
        node_read(dir, depth, users).children.len() == dir.children.len(),
        !text_before(
            node_read(dir, depth, users).children[j].name,
            node_read(dir, depth, users).children[i].name,
        ),
{
    let names = child_names(dir);
    let keys = names.map_values(|n: Seq<char>| KeyView::Text(n));
    let order = sorted(keys, SortDirection::Ascending);
    sorted_is_permutation(keys, SortDirection::Ascending);
    comparable_is_consistent(keys, SortDirection::Ascending);
    sorted_is_in_order(keys, SortDirection::Ascending);
    assert(0 <= order[i] < keys.len() && 0 <= order[j] < keys.len());
    assert(!precedes(keys[order[j]], keys[order[i]], SortDirection::Ascending));
    let v = node_read(dir, depth, users);
    assert(v.children[i] == node_read(dir.children[order[i]], below(depth), users));
    assert(v.children[j] == node_read(dir.children[order[j]], below(depth), users));
}

/// Completing a tree changes no metric that is known, and nothing but metrics.
pub proof fn completing_keeps_what_is_known(v: CgroupView)
    ensures
        ({
            let r = completed(v);
            &&& r.path == v.path && r.name == v.name && r.processes == v.processes
            &&& r.depth == v.depth && r.children.len() == v.children.len()
            &&& r.metrics.cpu_usage_usec == v.metrics.cpu_usage_usec
            &&& r.metrics.memory_max == v.metrics.memory_max
            &&& v.metrics.memory_current is Some ==> r.metrics.memory_current
                == v.metrics.memory_current
            &&& v.metrics.pids_current is Some ==> r.metrics.pids_current == v.metrics.pids_current
            &&& v.metrics.io_read_bytes is Some ==> r.metrics.io_read_bytes
                == v.metrics.io_read_bytes
            &&& v.metrics.io_write_bytes is Some ==> r.metrics.io_write_bytes
                == v.metrics.io_write_bytes
        }),
{
}

/// The sum of what is known, whatever its size.
pub open spec fn whole_sum(list: Seq<Option<u64>>) -> nat
    decreases list.len(),
{
    if list.len() == 0 {
        0
    } else {
        whole_sum(list.drop_last()) + (match list.last() {
            Some(n) => n as nat,
            None => 0,
        })
    }
}

/// The 32-bit sum of what is known, whatever its size.
pub open spec fn whole_sum_small(list: Seq<Option<u32>>) -> nat
    decreases list.len(),
{
    if list.len() == 0 {
        0
    } else {
        whole_sum_small(list.drop_last()) + (match list.last() {
            Some(n) => n as nat,
            None => 0,
        })
    }
}

proof fn lemma_sum_fits(list: Seq<Option<u64>>)
    requires
        whole_sum(list) <= u64::MAX,
    ensures
        sum_known(list) == whole_sum(list),
    decreases list.len(),
{
    if list.len() > 0 {
        lemma_sum_fits(list.drop_last());
    }
}

proof fn lemma_small_sum_fits(list: Seq<Option<u32>>)
    requires
        whole_sum_small(list) <= u32::MAX,
    ensures
        sum_known_small(list) == whole_sum_small(list),
    decreases list.len(),
{
    if list.len() > 0 {
        lemma_small_sum_fits(list.drop_last());
    }
}

/// A metric that is known, or else a sum, where that is more than nothing.
pub open spec fn known_or(own: Option<u64>, total: nat) -> Option<u64> {
    match own {
        Some(n) => Some(n),
        None => if total > 0 {
            Some(total as u64)
        } else {
            None
        },
    }
}

/// A number of tasks that is known, or else a sum, where that is more than nothing.
pub open spec fn known_or_small(own: Option<u32>, total: nat) -> Option<u32> {
    match own {
        Some(n) => Some(n),
        None => if total > 0 {
            Some(total as u32)
        } else {
            None
        },
    }
}

/// The sums that stand in for missing metrics fit their types, in the whole tree.
pub open spec fn sums_fit(v: CgroupView) -> bool
    decreases v,
{
    let below = completed(v).children;
    &&& v.metrics.memory_current is None ==> whole_sum(
        below.map_values(|c: CgroupView| c.metrics.memory_current),
    ) <= u64::MAX
    &&& v.metrics.io_read_bytes is None ==> whole_sum(
        below.map_values(|c: CgroupView| c.metrics.io_read_bytes),
    ) <= u64::MAX
    &&& v.metrics.io_write_bytes is None ==> whole_sum(
        below.map_values(|c: CgroupView| c.metrics.io_write_bytes),
    ) <= u64::MAX
    &&& v.metrics.pids_current is None ==> whole_sum_small(
        below.map_values(|c: CgroupView| c.metrics.pids_current),
    ) + v.processes.len() <= u32::MAX
    &&& forall|i: int| 0 <= i < v.children.len() ==> sums_fit(#[trigger] v.children[i])
}

/// At every cgroup of the tree: what is known stays, what is missing is the sum over the children,
/// completed themselves, the number of tasks with the cgroup's own processes, and nothing else
/// changes.
pub open spec fn is_completion(v: CgroupView, r: CgroupView) -> bool
    decreases v,
{
    let memory = whole_sum(r.children.map_values(|c: CgroupView| c.metrics.memory_current));
    let read = whole_sum(r.children.map_values(|c: CgroupView| c.metrics.io_read_bytes));
    let write = whole_sum(r.children.map_values(|c: CgroupView| c.metrics.io_write_bytes));
    let tasks = whole_sum_small(r.children.map_values(|c: CgroupView| c.metrics.pids_current))
        + v.processes.len();
    &&& r.path == v.path && r.name == v.name && r.depth == v.depth && r.processes == v.processes
    &&& r.metrics == (CgroupMetrics {
        memory_current: known_or(v.metrics.memory_current, memory),
        io_read_bytes: known_or(v.metrics.io_read_bytes, read),
        io_write_bytes: known_or(v.metrics.io_write_bytes, write),
        pids_current: known_or_small(v.metrics.pids_current, tasks),
        ..v.metrics
    })
    &&& r.children.len() == v.children.len()
    &&& forall|i: int|
        0 <= i < v.children.len() ==> is_completion(#[trigger] v.children[i], r.children[i])
}

/// Completing a tree completes every cgroup of it.
pub proof fn missing_metrics_are_sums(v: CgroupView)
    requires
        sums_fit(v),
    ensures
        is_completion(v, completed(v)),
    decreases v,
{
    let r = completed(v);
    let memory = r.children.map_values(|c: CgroupView| c.metrics.memory_current);
    let read = r.children.map_values(|c: CgroupView| c.metrics.io_read_bytes);
    let write = r.children.map_values(|c: CgroupView| c.metrics.io_write_bytes);
    let tasks = r.children.map_values(|c: CgroupView| c.metrics.pids_current);
    if v.metrics.memory_current is None {
        lemma_sum_fits(memory);
    }
    if v.metrics.io_read_bytes is None {
        lemma_sum_fits(read);
    }
    if v.metrics.io_write_bytes is None {
        lemma_sum_fits(write);
    }
    if v.metrics.pids_current is None {
        lemma_small_sum_fits(tasks);
    }
    assert forall|i: int| 0 <= i < v.children.len() implies is_completion(
        #[trigger] v.children[i],
        r.children[i],
    ) by {
        assert(sums_fit(v.children[i]));
        missing_metrics_are_sums(v.children[i]);
    }
}

/// Completing a tree that is complete changes nothing.
pub proof fn completing_twice_changes_nothing(v: CgroupView)
    ensures
        completed(completed(v)) == completed(v),
    decreases v,
{
    let r = completed(v);
    assert forall|i: int| 0 <= i < v.children.len() implies #[trigger] completed(r).children[i]
        == r.children[i] by {
        completing_twice_changes_nothing(v.children[i]);
    }
    assert(completed(r).children =~= r.children);
}

}
