//! What a collector does on a compute node: finding the cgroup of its job, and reading it.

use vstd::prelude::*;
use crate::cgroup::parser::{
    below, dir_is_whole, metrics_read, name_order, of_kernel, order_names, parse_members,
    parse_metrics, without_kernel, CgroupDir, CgroupDirView, CGROUP_ROOT,
};
use crate::model::views;
use crate::path::{file_name, join_path, last_part, path_joined};
use crate::process::parser::{processes_read, Users};
use crate::process::types::{copy_text, Process, ProcessView};
use crate::slurm::types::{
    lemma_raw_children, CgroupNodeRaw, CgroupRawView, NodeSnapshot, ProcessRaw, ProcessRawView,
    SnapshotView, PROTOCOL_VERSION,
};
use crate::sort::{
    comparable_is_consistent, indices, precedes, sorted, sorted_has_every_row, sorted_is_in_order,
    sorted_is_permutation, KeyView, SortDirection,
};
use crate::text::{
    after_prefix, begins, begins_with, chars_of, contains, fields, holds, join, joined, lines,
    same_text, split_lines, split_on, split_words, strip, text_before, text_in, text_of, texts, words,
};

verus! {

/// Why a collector cannot start
#[derive(Debug, Clone, Copy, PartialEq, Eq, Structural)]
pub enum CollectorError {
    /// No line names a cgroup of a controller that is used
    NoController,
}

impl CollectorError {
    /// The error in words.
    pub fn message(&self) -> (r: String)
        ensures
            r@ == "No suitable cgroup controller found in /proc/self/cgroup"@,
    {
        "No suitable cgroup controller found in /proc/self/cgroup".to_string()
    }
}

/// What follows the prefix in the first line that begins with it.
pub open spec fn first_after(list: Seq<Seq<char>>, prefix: Seq<char>) -> Option<Seq<char>>
    decreases list.len(),
{
    if list.len() == 0 {
        None
    } else {
        match after_prefix(list[0], prefix) {
            Some(rest) => Some(rest),
            None => first_after(list.skip(1), prefix),
        }
    }
}

/// A line of the first version that names the memory controller, or one for the CPU; controllers
/// that are mounted together are named in one line.
pub open spec fn names_controller(line: Seq<char>) -> bool {
    holds(line, ":memory:"@) || holds(line, ":cpu"@)
}

/// The path in the first line that names such a controller.
pub open spec fn controller_path(list: Seq<Seq<char>>) -> Option<Seq<char>>
    decreases list.len(),
{
    if list.len() == 0 {
        None
    } else if names_controller(list[0]) && fields(list[0], ':').len() >= 3 {
        Some(fields(list[0], ':')[2])
    } else {
        controller_path(list.skip(1))
    }
}

/// The path of the process's own cgroup: in the unified hierarchy, or else in that of a
/// controller.
pub open spec fn own_cgroup(content: Seq<char>) -> Option<Seq<char>> {
    match first_after(lines(content), "0::"@) {
        Some(path) => Some(path),
        None => controller_path(lines(content)),
    }
}

/// What a result holds in place of a text.
pub open spec fn path_in(r: Result<String, CollectorError>) -> Option<Seq<char>> {
    match r {
        Ok(path) => Some(path@),
        Err(_) => None,
    }
}

/// Parse the cgroup path from /proc/self/cgroup content
pub fn parse_cgroup_path(content: &str) -> (r: Result<String, CollectorError>)
    ensures
        path_in(r) == own_cgroup(content@),
{
    let list = split_lines(content);
    let ghost all = texts(list@);
    let mut i: usize = 0;
    assert(all.skip(0) =~= all);
    while i < list.len()
        invariant
            i <= list@.len(),
            all == texts(list@),
            all == lines(content@),
            first_after(all.skip(i as int), "0::"@) == first_after(all, "0::"@),
        decreases list@.len() - i,
    {
        assert(all.skip(i as int)[0] == list@[i as int]@);
        match strip(list[i].as_str(), "0::") {
            Some(path) => {
                return Ok(path);
            },
            None => {},
        }
        assert(all.skip(i as int).skip(1) =~= all.skip(i + 1));
        i += 1;
    }
    let mut k: usize = 0;
    while k < list.len()
        invariant
            k <= list@.len(),
            all == texts(list@),
            all == lines(content@),
            first_after(all, "0::"@) is None,
            controller_path(all.skip(k as int)) == controller_path(all),
        decreases list@.len() - k,
    {
        let line = list[k].as_str();
        assert(all.skip(k as int)[0] == list@[k as int]@);
        if contains(line, ":memory:") || contains(line, ":cpu") {
            let parts = split_on(line, ':');
            assert(texts(parts@).len() == parts@.len());
            if parts.len() >= 3 {
                assert(texts(parts@)[2] == parts@[2]@);
                return Ok(parts[2].clone());
            }
        }
        assert(all.skip(k as int).skip(1) =~= all.skip(k + 1));
        k += 1;
    }
    Err(CollectorError::NoController)
}

/// The number of parts up to the first that names a job, or none where no part does.
pub open spec fn job_part(parts: Seq<Seq<char>>) -> Option<int>
    decreases parts.len(),
{
    if parts.len() == 0 {
        None
    } else if begins(parts[0], "job_"@) {
        Some(0)
    } else {
        match job_part(parts.skip(1)) {
            Some(i) => Some(i + 1),
            None => None,
        }
    }
}

/// The path of the job: up to the first part that names a job, or the whole path.
pub open spec fn job_path(path: Seq<char>) -> Seq<char> {
    let parts = fields(path, '/');
    match job_part(parts) {
        Some(i) => joined(parts.take(i + 1), "/"@),
        None => path,
    }
}

proof fn lemma_job_part(parts: Seq<Seq<char>>, k: int)
    requires
        0 <= k < parts.len(),
        begins(parts[k], "job_"@),
        forall|j: int| 0 <= j < k ==> !begins(#[trigger] parts[j], "job_"@),
    ensures
        job_part(parts) == Some(k),
    decreases parts.len(),
{
    if k > 0 {
        assert(!begins(parts[0], "job_"@));
        let rest = parts.skip(1);
        assert(rest[k - 1] == parts[k]);
        assert forall|j: int| 0 <= j < k - 1 implies !begins(#[trigger] rest[j], "job_"@) by {
            assert(rest[j] == parts[j + 1]);
        }
        lemma_job_part(rest, k - 1);
    }
}

proof fn lemma_no_job_part(parts: Seq<Seq<char>>)
    requires
        forall|j: int| 0 <= j < parts.len() ==> !begins(#[trigger] parts[j], "job_"@),
    ensures
        job_part(parts) is None,
    decreases parts.len(),
{
    if parts.len() > 0 {
        assert(!begins(parts[0], "job_"@));
        let rest = parts.skip(1);
        assert forall|j: int| 0 <= j < rest.len() implies !begins(#[trigger] rest[j], "job_"@) by {
            assert(rest[j] == parts[j + 1]);
        }
        lemma_no_job_part(rest);
    }
}

/// Extract the job-level cgroup path by stripping step/task suffixes
///
/// Typical Slurm hierarchy:
/// /system.slice/slurmstepd.scope/job_123/step_0/user/task_0
/// We want: /system.slice/slurmstepd.scope/job_123
pub fn extract_job_level_path(path: &str) -> (r: Result<String, CollectorError>)
    ensures
        path_in(r) == Some(job_path(path@)),
{
    let parts = split_on(path, '/');
    let ghost all = texts(parts@);
    let mut kept: Vec<String> = Vec::new();
    let mut i: usize = 0;
    while i < parts.len()
        invariant
            i <= parts@.len(),
            all == texts(parts@),
            all == fields(path@, '/'),
            texts(kept@) == all.take(i as int),
            forall|j: int| 0 <= j < i ==> !begins(#[trigger] all[j], "job_"@),
        decreases parts@.len() - i,
    {
        let ghost before = kept@;
        kept.push(parts[i].clone());
        proof {
            assert(texts(kept@) =~= texts(before).push(all[i as int]));
            assert(all.take(i + 1) =~= all.take(i as int).push(all[i as int]));
        }
        if begins_with(parts[i].as_str(), "job_") {
            proof {
                lemma_job_part(all, i as int);
            }
            return Ok(join(&kept, "/"));
        }
        i += 1;
    }
    proof {
        lemma_no_job_part(all);
    }
    Ok(path.to_string())
}

/// The mount point in the first line that is of the unified hierarchy.
pub open spec fn mounted_at(list: Seq<Seq<char>>) -> Option<Seq<char>>
    decreases list.len(),
{
    if list.len() == 0 {
        None
    } else if words(list[0]).len() >= 3 && words(list[0])[2] == "cgroup2"@ {
        Some(words(list[0])[1])
    } else {
        mounted_at(list.skip(1))
    }
}

/// Where the unified hierarchy is mounted: at the standard place if there is a cgroup there, else
/// where the mounts say, else at the standard place after all.
pub open spec fn mount_point(standard: bool, mounts: Seq<char>) -> Seq<char> {
    if standard {
        CGROUP_ROOT@
    } else {
        match mounted_at(lines(mounts)) {
            Some(path) => path,
            None => CGROUP_ROOT@,
        }
    }
}

/// Find the cgroup v2 mount point (usually /sys/fs/cgroup)
pub fn find_cgroup_mount_point(standard: bool, mounts: &str) -> (r: String)
    ensures
        r@ == mount_point(standard, mounts@),
{
    if standard {
        return CGROUP_ROOT.to_string();
    }
    let list = split_lines(mounts);
    let ghost all = texts(list@);
    let mut i: usize = 0;
    assert(all.skip(0) =~= all);
    while i < list.len()
        invariant
            i <= list@.len(),
            !standard,
            all == texts(list@),
            all == lines(mounts@),
            mounted_at(all.skip(i as int)) == mounted_at(all),
        decreases list@.len() - i,
    {
        assert(all.skip(i as int)[0] == list@[i as int]@);
        let parts = split_words(list[i].as_str());
        assert(texts(parts@).len() == parts@.len());
        if parts.len() >= 3 {
            assert(texts(parts@)[1] == parts@[1]@ && texts(parts@)[2] == parts@[2]@);
            if same_text(parts[2].as_str(), "cgroup2") {
                return parts[1].clone();
            }
        }
        assert(all.skip(i as int).skip(1) =~= all.skip(i + 1));
        i += 1;
    }
    CGROUP_ROOT.to_string()
}

/// The text without slashes at its start.
pub open spec fn without_slashes(s: Seq<char>) -> Seq<char>
    decreases s.len(),
{
    if s.len() > 0 && s[0] == '/' {
        without_slashes(s.skip(1))
    } else {
        s
    }
}

fn strip_slashes(s: &str) -> (r: String)
    ensures
        r@ == without_slashes(s@),
{
    let v = chars_of(s);
    let mut i: usize = 0;
    assert(v@.skip(0) =~= v@);
    while i < v.len() && v[i] == '/'
        invariant
            i <= v@.len(),
            without_slashes(v@.skip(i as int)) == without_slashes(v@),
        ensures
            i <= v@.len(),
            without_slashes(v@) == v@.skip(i as int),
        decreases v@.len() - i,
    {
        assert(v@.skip(i as int).skip(1) =~= v@.skip(i + 1));
        i += 1;
    }
    assert(v@.subrange(i as int, v@.len() as int) =~= v@.skip(i as int));
    text_of(&v, i, v.len())
}

/// The directory of the job's cgroup.
pub open spec fn job_directory(content: Seq<char>, standard: bool, mounts: Seq<char>) -> Option<
    Seq<char>,
> {
    match own_cgroup(content) {
        Some(path) => Some(
            path_joined(mount_point(standard, mounts), without_slashes(job_path(path))),
        ),
        None => None,
    }
}

/// Discover the job cgroup root via /proc/self/cgroup
///
/// For cgroup v2, takes the path from the "0::" line and finds the job-level cgroup.
pub fn discover_job_cgroup_root(cgroup_info: &str, standard: bool, mounts: &str) -> (r: Result<
    String,
    CollectorError,
>)
    ensures
        path_in(r) == job_directory(cgroup_info@, standard, mounts@),
{
    let path = match parse_cgroup_path(cgroup_info) {
        Ok(path) => path,
        Err(e) => {
            return Err(e);
        },
    };
    let job_root = match extract_job_level_path(path.as_str()) {
        Ok(job_root) => job_root,
        Err(e) => {
            return Err(e);
        },
    };
    let base = find_cgroup_mount_point(standard, mounts);
    let rest = strip_slashes(job_root.as_str());
    Ok(join_path(base.as_str(), rest.as_str()))
}

/// The name that a collector gives its machine.
pub fn collector_node(node_name: Option<String>, hostname: Option<String>) -> (r: String)
    ensures
        r@ == (match (text_in(node_name), text_in(hostname)) {
            (Some(name), _) => name,
            (None, Some(name)) => name,
            (None, None) => "unknown"@,
        }),
{
    match node_name {
        Some(name) => name,
        None => match hostname {
            Some(name) => name,
            None => "unknown".to_string(),
        },
    }
}

/// A process as it is sent: without its rates.
pub open spec fn raw_process(p: ProcessView) -> ProcessRawView {
    ProcessRawView {
        pid: p.pid,
        ppid: p.ppid,
        starttime: p.starttime,
        name: p.name,
        cmdline: p.cmdline,
        user: p.user,
        state: p.state,
        num_threads: p.num_threads,
        rss: p.rss,
        vsize: p.vsize,
        utime: p.utime,
        stime: p.stime,
        io_read_bytes: p.io_read_bytes,
        io_write_bytes: p.io_write_bytes,
    }
}

/// Convert Process to ProcessRaw for serialization
pub fn process_to_raw(p: &Process) -> (r: ProcessRaw)
    ensures
        r@ == raw_process(p@),
        r.pid == p.pid,
        r.ppid == p.ppid,
        r.starttime == p.starttime,
        r.name@ == p.name@,
        text_in(r.cmdline) == text_in(p.cmdline),
        r.user@ == p.user@,
        r.state == p.state,
        r.num_threads == p.num_threads,
        r.rss == p.rss,
        r.vsize == p.vsize,
        r.utime == p.utime,
        r.stime == p.stime,
        r.io_read_bytes == p.io_read_bytes,
        r.io_write_bytes == p.io_write_bytes,
{
    ProcessRaw {
        pid: p.pid,
        ppid: p.ppid,
        starttime: p.starttime,
        name: p.name.clone(),
        cmdline: copy_text(&p.cmdline),
        user: p.user.clone(),
        state: p.state,
        num_threads: p.num_threads,
        rss: p.rss,
        vsize: p.vsize,
        utime: p.utime,
        stime: p.stime,
        io_read_bytes: p.io_read_bytes,
        io_write_bytes: p.io_write_bytes,
    }
}

/// The name that is sent for the cgroup at a path.
pub open spec fn raw_name(path: Seq<char>) -> Seq<char> {
    match last_part(path) {
        Some(name) => name,
        None => path,
    }
}

pub open spec fn raw_names(dir: CgroupDirView) -> Seq<Seq<char>> {
    Seq::new(dir.children.len(), |i: int| raw_name(dir.children[i].path))
}

/// What is sent of a cgroup and those below it, in the order of their names.
pub open spec fn raw_read(
    dir: CgroupDirView,
    depth: usize,
    users: Seq<(u32, Seq<char>)>,
) -> CgroupRawView
    decreases dir,
{
    let order = name_order(raw_names(dir));
    let m = metrics_read(dir);
    CgroupRawView {
        path: dir.path,
        name: raw_name(dir.path),
        children: Seq::new(
            order.len(),
            |k: int|
                if 0 <= k < order.len() && 0 <= order[k] < dir.children.len() {
                    raw_read(dir.children[order[k]], below(depth), users)
                } else {
                    arbitrary()
                },
        ),
        processes: without_kernel(processes_read(dir.processes, users)).map_values(
            |p: ProcessView| raw_process(p),
        ),
        depth,
        memory_current: m.memory_current,
        memory_max: m.memory_max,
        cpu_usage_usec: m.cpu_usage_usec,
        pids_current: m.pids_current,
        io_read_bytes: m.io_read_bytes,
        io_write_bytes: m.io_write_bytes,
    }
}

fn raw_name_of(path: &str) -> (r: String)
    ensures
        r@ == raw_name(path@),
{
    match file_name(path) {
        Some(name) => name,
        None => path.to_string(),
    }
}

/// Parse a single cgroup node and its children recursively
fn parse_cgroup_node_raw(dir: &CgroupDir, depth: usize, users: &Users) -> (r: CgroupNodeRaw)
    requires
        dir_is_whole(dir@),
    ensures
        r@ == raw_read(dir@, depth, users@),
    decreases dir,
{
    let metrics = parse_metrics(dir);
    let members = parse_members(&dir.processes, users);
    let mut processes: Vec<ProcessRaw> = Vec::new();
    let mut i: usize = 0;
    while i < members.len()
        invariant
            i <= members@.len(),
            processes@.len() == i,
            forall|j: int| 0 <= j < i ==> (#[trigger] processes@[j])@ == raw_process(members@[j]@),
        decreases members@.len() - i,
    {
        processes.push(process_to_raw(&members[i]));
        i += 1;
    }
    assert(views(processes@) =~= views(members@).map_values(|p: ProcessView| raw_process(p)));
    let mut names: Vec<String> = Vec::new();
    let mut n: usize = 0;
    while n < dir.children.len()
        invariant
            n <= dir.children@.len(),
            dir@.children.len() == dir.children@.len(),
            names@.len() == n,
            forall|j: int| 0 <= j < n ==> (#[trigger] names@[j])@ == raw_name(dir@.children[j].path),
        decreases dir.children@.len() - n,
    {
        assert(dir.children@[n as int]@ == dir@.children[n as int]);
        names.push(raw_name_of(dir.children[n].path.as_str()));
        n += 1;
    }
    assert(texts(names@) =~= raw_names(dir@));
    let order = order_names(&names);
    let ghost places = name_order(raw_names(dir@));
    let mut children: Vec<CgroupNodeRaw> = Vec::new();
    let mut k: usize = 0;
    while k < order.len()
        invariant
            k <= order@.len(),
            dir_is_whole(dir@),
            dir@.children.len() == dir.children@.len(),
            order@.len() == dir.children@.len(),
            forall|j: int| 0 <= j < order@.len() ==> (#[trigger] order@[j]) < dir.children@.len(),
            children@.len() == k,
            forall|j: int|
                0 <= j < k ==> (#[trigger] children@[j])@ == raw_read(
                    dir@.children[order@[j] as int],
                    below(depth),
                    users@,
                ),
        decreases order@.len() - k,
    {
        assert(order@[k as int] < dir.children@.len());
        assert(dir.children@[order@[k as int] as int]@ == dir@.children[order@[k as int] as int]);
        children.push(
            parse_cgroup_node_raw(&dir.children[order[k]], depth.saturating_add(1), users),
        );
        k += 1;
    }
    let r = CgroupNodeRaw {
        path: dir.path.clone(),
        name: raw_name_of(dir.path.as_str()),
        children,
        processes,
        depth,
        memory_current: metrics.memory_current,
        memory_max: metrics.memory_max,
        cpu_usage_usec: metrics.cpu_usage_usec,
        pids_current: metrics.pids_current,
        io_read_bytes: metrics.io_read_bytes,
        io_write_bytes: metrics.io_write_bytes,
    };
    proof {
        lemma_raw_children(r);
        let want = raw_read(dir@, depth, users@);
        assert forall|j: int| 0 <= j < places.len() implies r@.children[j] == #[trigger] want.children[j] by {
            assert(places[j] == order@[j] as int) by {
                assert(indices(order@)[j] == order@[j]);
            }
            assert(children@[j]@ == r@.children[j]);
        }
        assert(r@.children =~= want.children);
    }
    r
}

/// Parse a cgroup tree starting from the given root, returning raw counters
pub fn parse_cgroup_tree_raw(root: &CgroupDir, users: &Users) -> (r: CgroupNodeRaw)
    requires
        dir_is_whole(root@),
    ensures
        r@ == raw_read(root@, 0, users@),
{
    parse_cgroup_node_raw(root, 0, users)
}

/// A snapshot as it is sent; the last one says that the collector was told to stop.
pub open spec fn snapshot_sent(
    node: Seq<char>,
    tree: CgroupRawView,
    collector_pid: u32,
    timestamp: u64,
    shutdown: bool,
) -> SnapshotView {
    SnapshotView {
        msg_type: "snapshot"@,
        node,
        timestamp,
        cgroup_tree: tree,
        version: PROTOCOL_VERSION,
        collector_pid,
        final_reason: if shutdown {
            Some("sigterm"@)
        } else {
            None
        },
    }
}

/// Takes a snapshot of the job's cgroup.
pub fn take_snapshot(
    node: &str,
    root: &CgroupDir,
    users: &Users,
    collector_pid: u32,
    timestamp: u64,
    shutdown: bool,
) -> (r: NodeSnapshot)
    requires
        dir_is_whole(root@),
    ensures
        r@ == snapshot_sent(
            node@,
            raw_read(root@, 0, users@),
            collector_pid,
            timestamp,
            shutdown,
        ),
{
    let tree = parse_cgroup_tree_raw(root, users);
    let snapshot = NodeSnapshot::with_timestamp(node.to_string(), tree, collector_pid, timestamp);
    if shutdown {
        snapshot.with_final_reason("sigterm")
    } else {
        snapshot
    }
}

/// The next part of the sleep between two snapshots, in milliseconds: at most 100, so that a
/// signal to stop is seen soon; none where the interval is over.
pub fn next_sleep(slept: u64, interval: u64) -> (r: Option<u64>)
    ensures
        r == (if slept < interval {
            Some(
                if interval - slept < 100 {
                    (interval - slept) as u64
                } else {
                    100
                },
            )
        } else {
            None
        }),
{
    if slept < interval {
        if interval - slept < 100 {
            Some(interval - slept)
        } else {
            Some(100)
        }
    } else {
        None
    }
}

proof fn lemma_job_part_found(parts: Seq<Seq<char>>)
    ensures
        match job_part(parts) {
            Some(i) => {
                &&& 0 <= i < parts.len()
                &&& begins(parts[i], "job_"@)
                &&& forall|j: int| 0 <= j < i ==> !begins(#[trigger] parts[j], "job_"@)
            },
            None => forall|j: int| 0 <= j < parts.len() ==> !begins(#[trigger] parts[j], "job_"@),
        },
    decreases parts.len(),
{
    if parts.len() > 0 && !begins(parts[0], "job_"@) {
        let rest = parts.skip(1);
        lemma_job_part_found(rest);
        match job_part(rest) {
            Some(i) => {
                assert(parts[i + 1] == rest[i]);
                assert forall|j: int| 0 <= j < i + 1 implies !begins(#[trigger] parts[j], "job_"@) by {
                    if j > 0 {
                        assert(rest[j - 1] == parts[j]);
                    }
                }
            },
            None => {
                assert forall|j: int| 0 <= j < parts.len() implies !begins(
                    #[trigger] parts[j],
                    "job_"@,
                ) by {
                    if j > 0 {
                        assert(rest[j - 1] == parts[j]);
                    }
                }
            },
        }
    }
}

/// The path of a job is the start of the path of every step and task in it: it ends with the first
/// part that names a job, at a slash or at the end. A path without such a part is kept.
pub proof fn job_path_is_where_the_path_starts(path: Seq<char>)
    ensures
        begins(path, job_path(path)),
        job_path(path).len() < path.len() ==> path[job_path(path).len() as int] == '/',
        job_part(fields(path, '/')) is None ==> job_path(path) == path,
        match job_part(fields(path, '/')) {
            Some(i) => {
                &&& 0 <= i < fields(path, '/').len()
                &&& begins(fields(path, '/')[i], "job_"@)
                &&& forall|j: int|
                    0 <= j < i ==> !begins(#[trigger] fields(path, '/')[j], "job_"@)
            },
            None => true,
        },
{
    let parts = fields(path, '/');
    lemma_job_part_found(parts);
    reveal_strlit("/");
    assert("/"@ =~= seq!['/']);
    match job_part(parts) {
        Some(i) => {
            crate::text::fields_join_back(path, '/', i + 1);
        },
        None => {
            assert(path.take(path.len() as int) =~= path);
        },
    }
}

/// The pieces of a job's path are those of the path up to the one that names the job.
proof fn lemma_job_path_parts(path: Seq<char>, i: int)
    requires
        job_part(fields(path, '/')) == Some(i),
    ensures
        0 <= i < fields(path, '/').len(),
        job_path(path) == joined(fields(path, '/').take(i + 1), "/"@),
        fields(job_path(path), '/') == fields(path, '/').take(i + 1),
{
    let parts = fields(path, '/');
    lemma_job_part_found(parts);
    reveal_strlit("/");
    assert("/"@ =~= seq!['/']);
    let head = parts.take(i + 1);
    assert forall|k: int| 0 <= k < head.len() implies !(#[trigger] head[k]).contains('/') by {
        crate::text::fields_hold_no_separator(path, '/', k);
    }
    crate::text::joined_splits_back(head, '/');
}

/// The path of a job is its own: it has no other job in it.
pub proof fn job_path_of_job_path(path: Seq<char>)
    ensures
        job_path(job_path(path)) == job_path(path),
{
    match job_part(fields(path, '/')) {
        Some(i) => {
            let parts = fields(path, '/');
            let head = parts.take(i + 1);
            lemma_job_path_parts(path, i);
            lemma_job_part_found(parts);
            assert forall|j: int| 0 <= j < i implies !begins(#[trigger] head[j], "job_"@) by {
                assert(head[j] == parts[j]);
            }
            lemma_job_part(head, i);
            assert(head.take(i + 1) =~= head);
        },
        None => {},
    }
}

/// Every path below the path of a job leads back to it, whatever the steps and tasks are called.
pub proof fn steps_lead_to_their_job(path: Seq<char>, rest: Seq<char>)
    requires
        job_part(fields(path, '/')) is Some,
    ensures
        job_path(job_path(path) + "/"@ + rest) == job_path(path),
{
    let i = job_part(fields(path, '/'))->0;
    let parts = fields(path, '/');
    let head = parts.take(i + 1);
    lemma_job_path_parts(path, i);
    lemma_job_part_found(parts);
    reveal_strlit("/");
    assert("/"@ =~= seq!['/']);
    crate::text::fields_at_separator(job_path(path), '/', rest);
    let all = head + fields(rest, '/');
    assert(fields(job_path(path) + "/"@ + rest, '/') == all);
    assert forall|j: int| 0 <= j < i implies !begins(#[trigger] all[j], "job_"@) by {
        assert(all[j] == parts[j]);
    }
    assert(all[i] == parts[i]);
    lemma_job_part(all, i);
    assert(all.take(i + 1) =~= head);
}

/// No kernel thread is sent.
pub proof fn kernel_threads_are_not_sent(
    dir: CgroupDirView,
    depth: usize,
    users: Seq<(u32, Seq<char>)>,
    i: int,
)
    requires
        0 <= i < raw_read(dir, depth, users).processes.len(),
    ensures
        ({
            let p = raw_read(dir, depth, users).processes[i];
            p.pid != 2 && p.ppid != 2
        }),
{
    processes_read(dir.processes, users).lemma_filter_pred(|p: ProcessView| !of_kernel(p), i);
}

/// All children of a cgroup are sent, in the order of their names and one level deeper.
pub proof fn children_are_sent_in_name_order(
    dir: CgroupDirView,
    depth: usize,
    users: Seq<(u32, Seq<char>)>,
)
    ensures
        ({
            let v = raw_read(dir, depth, users);
            &&& v.children.len() == dir.children.len()
            &&& v.depth == depth
            &&& forall|i: int| 0 <= i < v.children.len() ==> (#[trigger] v.children[i]).depth == below(
                depth,
            )
            &&& forall|i: int, j: int|
                0 <= i < j < v.children.len() ==> !text_before(
                    (#[trigger] v.children[j]).name,
                    (#[trigger] v.children[i]).name,
                )
            &&& forall|k: int|
                0 <= k < dir.children.len() ==> v.children.contains(
                    raw_read(#[trigger] dir.children[k], below(depth), users),
                )
        }),
{
    let names = raw_names(dir);
    let keys = names.map_values(|n: Seq<char>| KeyView::Text(n));
    let order = sorted(keys, SortDirection::Ascending);
    let v = raw_read(dir, depth, users);
    sorted_is_permutation(keys, SortDirection::Ascending);
    comparable_is_consistent(keys, SortDirection::Ascending);
    sorted_is_in_order(keys, SortDirection::Ascending);
    assert(order == name_order(names));
    assert forall|i: int| 0 <= i < v.children.len() implies (#[trigger] v.children[i]).depth == below(
        depth,
    ) && v.children[i].name == names[order[i]] by {
        assert(0 <= order[i] < keys.len());
        assert(v.children[i] == raw_read(dir.children[order[i]], below(depth), users));
    }
    assert forall|i: int, j: int| 0 <= i < j < v.children.len() implies !text_before(
        (#[trigger] v.children[j]).name,
        (#[trigger] v.children[i]).name,
    ) by {
        assert(0 <= order[i] < keys.len() && 0 <= order[j] < keys.len());
        assert(!precedes(keys[order[j]], keys[order[i]], SortDirection::Ascending));
    }
    assert forall|k: int| 0 <= k < dir.children.len() implies v.children.contains(
        raw_read(#[trigger] dir.children[k], below(depth), users),
    ) by {
        sorted_has_every_row(keys, SortDirection::Ascending, k);
        let m = choose|m: int| 0 <= m < order.len() && order[m] == k;
        assert(v.children[m] == raw_read(dir.children[k], below(depth), users));
    }
}

}
