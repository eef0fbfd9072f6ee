//! What a collector sends: where it finds the cgroup of its job, and what it reads there.

use vstd::prelude::*;
use crate::cgroup::parser::{metrics_read, of_kernel, CgroupDirView};
use crate::path::{is_rooted, last_part, path_joined};
use crate::process::parser::{process_read, processes_read};
use crate::process::types::ProcessView;
use crate::slurm::collector::{
    controller_path, first_after, job_directory, job_path, mount_point, mounted_at,
    own_cgroup, raw_process, raw_read, snapshot_sent, without_slashes,
};
use crate::slurm::types::{CgroupRawView, ProcessRawView};
use crate::text::{begins, fields, holds, lines, words};

verus! {

/// What is sent of a process is what is known of it.
pub open spec fn is_sent(raw: ProcessRawView, p: ProcessView) -> bool {
    &&& raw.pid == p.pid
    &&& raw.ppid == p.ppid
    &&& raw.starttime == p.starttime
    &&& raw.name == p.name
    &&& raw.cmdline == p.cmdline
    &&& raw.user == p.user
    &&& raw.state == p.state
    &&& raw.num_threads == p.num_threads
    &&& raw.rss == p.rss
    &&& raw.vsize == p.vsize
    &&& raw.utime == p.utime
    &&& raw.stime == p.stime
    &&& raw.io_read_bytes == p.io_read_bytes
    &&& raw.io_write_bytes == p.io_write_bytes
}

/// A process is sent with all its counters and values.
pub proof fn process_is_sent_as_it_is(p: ProcessView)
    ensures
        is_sent(raw_process(p), p),
{
}

/// A cgroup is sent with its path, its level, the last part of its path as its name, and the counters
/// in its files.
pub proof fn cgroup_is_sent_as_it_is(
    dir: CgroupDirView,
    depth: usize,
    users: Seq<(u32, Seq<char>)>,
)
    ensures
        ({
            let v = raw_read(dir, depth, users);
            let m = metrics_read(dir);
            &&& v.path == dir.path
            &&& v.depth == depth
            &&& (last_part(dir.path) matches Some(name) ==> v.name == name)
            &&& last_part(dir.path) is None ==> v.name == dir.path
            &&& v.memory_current == m.memory_current
            &&& v.memory_max == m.memory_max
            &&& v.cpu_usage_usec == m.cpu_usage_usec
            &&& v.pids_current == m.pids_current
            &&& v.io_read_bytes == m.io_read_bytes
            &&& v.io_write_bytes == m.io_write_bytes
        }),
{
}

/// Every process of a cgroup that can be read is sent as it is, but for the kernel's.
pub proof fn every_process_is_sent(
    dir: CgroupDirView,
    depth: usize,
    users: Seq<(u32, Seq<char>)>,
    i: int,
    p: ProcessView,
) -> (k: int)
    requires
        0 <= i < dir.processes.len(),
        process_read(dir.processes[i], users) == Some(p),
        p.pid != 2,
        p.ppid != 2,
    ensures
        0 <= k < raw_read(dir, depth, users).processes.len(),
        is_sent(raw_read(dir, depth, users).processes[k], p),
{
    let all = processes_read(dir.processes, users);
    let keep = |p: ProcessView| !of_kernel(p);
    crate::process::laws::every_readable_process_is_read(dir.processes, users, p);
    let at = choose|at: int| 0 <= at < all.len() && all[at] == p;
    all.lemma_filter_contains(keep, at);
    let kept = all.filter(keep);
    let k = choose|k: int| 0 <= k < kept.len() && kept[k] == p;
    assert(raw_read(dir, depth, users).processes[k] == raw_process(kept[k]));
    k
}

/// Nothing is sent but processes of the cgroup.
pub proof fn only_processes_of_the_cgroup_are_sent(
    dir: CgroupDirView,
    depth: usize,
    users: Seq<(u32, Seq<char>)>,
    k: int,
) -> (at: (int, ProcessView))
    requires
        0 <= k < raw_read(dir, depth, users).processes.len(),
    ensures
        0 <= at.0 < dir.processes.len(),
        process_read(dir.processes[at.0], users) == Some(at.1),
        is_sent(raw_read(dir, depth, users).processes[k], at.1),
{
    let all = processes_read(dir.processes, users);
    let keep = |p: ProcessView| !of_kernel(p);
    let p = all.filter(keep)[k];
    assert(raw_read(dir, depth, users).processes[k] == raw_process(p));
    all.lemma_filter_contains_rev(keep, p);
    crate::process::laws::every_readable_process_is_read(dir.processes, users, p);
    let i = choose|i: int|
        0 <= i < dir.processes.len() && process_read(#[trigger] dir.processes[i], users) == Some(p);
    (i, p)
}

/// A snapshot says which machine it is of, when it was taken and by which collector; only the last one
/// gives a reason for the end.
pub proof fn snapshot_says_where_it_is_from(
    node: Seq<char>,
    tree: CgroupRawView,
    collector_pid: u32,
    timestamp: u64,
    shutdown: bool,
)
    ensures
        ({
            let s = snapshot_sent(node, tree, collector_pid, timestamp, shutdown);
            &&& s.msg_type == "snapshot"@
            &&& s.node == node
            &&& s.timestamp == timestamp
            &&& s.cgroup_tree == tree
            &&& s.version == 1
            &&& s.collector_pid == collector_pid
            &&& shutdown ==> s.final_reason == Some("sigterm"@)
            &&& !shutdown ==> s.final_reason is None
        }),
{
}

/// The process's own cgroup is what follows the mark of the unified hierarchy in the first line that
/// starts with it.
pub proof fn unified_line_names_the_cgroup(content: Seq<char>, i: int, path: Seq<char>)
    requires
        0 <= i < lines(content).len(),
        lines(content)[i] == "0::"@ + path,
        forall|k: int| 0 <= k < i ==> !begins(#[trigger] lines(content)[k], "0::"@),
    ensures
        own_cgroup(content) == Some(path),
{
    lemma_first_after(lines(content), "0::"@, i, path);
}

proof fn lemma_first_after(list: Seq<Seq<char>>, prefix: Seq<char>, i: int, rest: Seq<char>)
    requires
        0 <= i < list.len(),
        list[i] == prefix + rest,
        forall|k: int| 0 <= k < i ==> !begins(#[trigger] list[k], prefix),
    ensures
        first_after(list, prefix) == Some(rest),
    decreases i,
{
    if i == 0 {
        assert(list[0].take(prefix.len() as int) =~= prefix);
        assert(list[0].skip(prefix.len() as int) =~= rest);
    } else {
        let tail = list.skip(1);
        assert(!begins(list[0], prefix));
        assert(tail[i - 1] == list[i]);
        assert forall|k: int| 0 <= k < i - 1 implies !begins(#[trigger] tail[k], prefix) by {
            assert(tail[k] == list[k + 1]);
        }
        lemma_first_after(tail, prefix, i - 1, rest);
    }
}

proof fn lemma_none_after(list: Seq<Seq<char>>, prefix: Seq<char>)
    requires
        forall|k: int| 0 <= k < list.len() ==> !begins(#[trigger] list[k], prefix),
    ensures
        first_after(list, prefix) is None,
    decreases list.len(),
{
    if list.len() > 0 {
        let tail = list.skip(1);
        assert(!begins(list[0], prefix));
        assert forall|k: int| 0 <= k < tail.len() implies !begins(#[trigger] tail[k], prefix) by {
            assert(tail[k] == list[k + 1]);
        }
        lemma_none_after(tail, prefix);
    }
}

/// The line names a cgroup of the memory or a CPU controller.
pub open spec fn has_controller(line: Seq<char>) -> bool {
    (holds(line, ":memory:"@) || holds(line, ":cpu"@)) && fields(line, ':').len() >= 3
}

/// Without a line of the unified hierarchy, the cgroup is the third field of the first line that names
/// the memory or a CPU controller; without one of those either, it is not known.
pub proof fn controller_line_names_the_cgroup(content: Seq<char>, i: int)
    requires
        forall|k: int|
            0 <= k < lines(content).len() ==> !begins(#[trigger] lines(content)[k], "0::"@),
    ensures
        0 <= i < lines(content).len() && has_controller(lines(content)[i]) && (forall|k: int|
            0 <= k < i ==> !has_controller(#[trigger] lines(content)[k])) ==> own_cgroup(content)
            == Some(fields(lines(content)[i], ':')[2]),
        (forall|k: int|
            0 <= k < lines(content).len() ==> !has_controller(#[trigger] lines(content)[k]))
            ==> own_cgroup(content) is None,
{
    let list = lines(content);
    lemma_none_after(list, "0::"@);
    if 0 <= i < list.len() && has_controller(list[i]) && (forall|k: int|
        0 <= k < i ==> !has_controller(#[trigger] list[k])) {
        lemma_controller(list, i);
    }
    if forall|k: int| 0 <= k < list.len() ==> !has_controller(#[trigger] list[k]) {
        lemma_no_controller(list);
    }
}

proof fn lemma_controller(list: Seq<Seq<char>>, i: int)
    requires
        0 <= i < list.len(),
        has_controller(list[i]),
        forall|k: int| 0 <= k < i ==> !has_controller(#[trigger] list[k]),
    ensures
        controller_path(list) == Some(fields(list[i], ':')[2]),
    decreases i,
{
    if i > 0 {
        let tail = list.skip(1);
        assert(!has_controller(list[0]));
        assert(tail[i - 1] == list[i]);
        assert forall|k: int| 0 <= k < i - 1 implies !has_controller(#[trigger] tail[k]) by {
            assert(tail[k] == list[k + 1]);
        }
        lemma_controller(tail, i - 1);
    }
}

proof fn lemma_no_controller(list: Seq<Seq<char>>)
    requires
        forall|k: int| 0 <= k < list.len() ==> !has_controller(#[trigger] list[k]),
    ensures
        controller_path(list) is None,
    decreases list.len(),
{
    if list.len() > 0 {
        let tail = list.skip(1);
        assert(!has_controller(list[0]));
        assert forall|k: int| 0 <= k < tail.len() implies !has_controller(#[trigger] tail[k]) by {
            assert(tail[k] == list[k + 1]);
        }
        lemma_no_controller(tail);
    }
}

/// The line of the mounts is of the unified hierarchy: its third word says so.
pub open spec fn is_unified(line: Seq<char>) -> bool {
    words(line).len() >= 3 && words(line)[2] == "cgroup2"@
}

/// The hierarchy is mounted at the standard place where there is a cgroup, else at the second word of
/// the first line of the mounts that is of it, and where there is none, at the standard place.
pub proof fn mounts_say_where_the_hierarchy_is(mounts: Seq<char>, i: int)
    ensures
        mount_point(true, mounts) == "/sys/fs/cgroup"@,
        0 <= i < lines(mounts).len() && is_unified(lines(mounts)[i]) && (forall|k: int|
            0 <= k < i ==> !is_unified(#[trigger] lines(mounts)[k])) ==> mount_point(false, mounts)
            == words(lines(mounts)[i])[1],
        (forall|k: int| 0 <= k < lines(mounts).len() ==> !is_unified(#[trigger] lines(mounts)[k]))
            ==> mount_point(false, mounts) == "/sys/fs/cgroup"@,
{
    let list = lines(mounts);
    if 0 <= i < list.len() && is_unified(list[i]) && (forall|k: int|
        0 <= k < i ==> !is_unified(#[trigger] list[k])) {
        lemma_mounted(list, i);
    }
    if forall|k: int| 0 <= k < list.len() ==> !is_unified(#[trigger] list[k]) {
        lemma_not_mounted(list);
    }
}

proof fn lemma_mounted(list: Seq<Seq<char>>, i: int)
    requires
        0 <= i < list.len(),
        is_unified(list[i]),
        forall|k: int| 0 <= k < i ==> !is_unified(#[trigger] list[k]),
    ensures
        mounted_at(list) == Some(words(list[i])[1]),
    decreases i,
{
    if i > 0 {
        let tail = list.skip(1);
        assert(!is_unified(list[0]));
        assert(tail[i - 1] == list[i]);
        assert forall|k: int| 0 <= k < i - 1 implies !is_unified(#[trigger] tail[k]) by {
            assert(tail[k] == list[k + 1]);
        }
        lemma_mounted(tail, i - 1);
    }
}

proof fn lemma_not_mounted(list: Seq<Seq<char>>)
    requires
        forall|k: int| 0 <= k < list.len() ==> !is_unified(#[trigger] list[k]),
    ensures
        mounted_at(list) is None,
    decreases list.len(),
{
    if list.len() > 0 {
        let tail = list.skip(1);
        assert(!is_unified(list[0]));
        assert forall|k: int| 0 <= k < tail.len() implies !is_unified(#[trigger] tail[k]) by {
            assert(tail[k] == list[k + 1]);
        }
        lemma_not_mounted(tail);
    }
}

proof fn lemma_without_slashes(s: Seq<char>) -> (n: int)
    ensures
        0 <= n <= s.len(),
        without_slashes(s) == s.skip(n),
        forall|k: int| 0 <= k < n ==> #[trigger] s[k] == '/',
        n < s.len() ==> s[n] != '/',
    decreases s.len(),
{
    if s.len() > 0 && s[0] == '/' {
        let rest = s.skip(1);
        let n = lemma_without_slashes(rest);
        assert(rest.skip(n) =~= s.skip(n + 1));
        assert forall|k: int| 0 <= k < n + 1 implies #[trigger] s[k] == '/' by {
            if k > 0 {
                assert(rest[k - 1] == s[k]);
            }
        }
        n + 1
    } else {
        assert(s.skip(0) =~= s);
        0
    }
}

pub open spec fn slashes_only(s: Seq<char>) -> bool {
    forall|k: int| 0 <= k < s.len() ==> #[trigger] s[k] == '/'
}

/// The text is the other one without the slashes at its start.
pub open spec fn is_without_slashes(s: Seq<char>, rest: Seq<char>) -> bool {
    &&& !is_rooted(rest)
    &&& exists|front: Seq<char>| #[trigger] slashes_only(front) && s == front + rest
}

/// The directory of the job is below the place where the hierarchy is mounted: its path starts there,
/// and goes on with that of the job without the slashes at its start. It is known just where the
/// process's own cgroup is.
pub proof fn job_directory_is_below_the_mount(
    content: Seq<char>,
    standard: bool,
    mounts: Seq<char>,
    path: Seq<char>,
)
    ensures
        own_cgroup(content) is None ==> job_directory(content, standard, mounts) is None,
        own_cgroup(content) == Some(path) ==> exists|rest: Seq<char>|
            {
                &&& #[trigger] is_without_slashes(job_path(path), rest)
                &&& job_directory(content, standard, mounts) == Some(
                    path_joined(mount_point(standard, mounts), rest),
                )
            },
{
    if own_cgroup(content) == Some(path) {
        let job = job_path(path);
        let n = lemma_without_slashes(job);
        let front = job.take(n);
        let rest = job.skip(n);
        assert(job =~= front + rest);
        assert(slashes_only(front));
        assert(is_without_slashes(job, rest));
    }
}

}
