//! What is read of a cgroup, from the lines of its files.

use vstd::prelude::*;
use crate::cgroup::parser::{
    child_names, metrics_read, name_order, node_read, of_kernel, pids_in, total_of, usage_in,
    CgroupDirView,
};
use crate::number::{decimal, decimal_reads_back, is_digit, number_u32};
use crate::path::{last_part, same_place};
use crate::process::parser::{process_read, processes_read};
use crate::process::types::ProcessView;
use crate::rate::PENDING;
use crate::sort::{sorted, sorted_has_every_row, sorted_is_permutation, KeyView, SortDirection};
use crate::text::{begins, is_space, lines, trim_back, trim_front, trimmed, words};

verus! {

/// The text of a file that holds one number in a line.
pub open spec fn number_line(n: nat) -> Seq<char> {
    decimal(n) + seq!['\n']
}

pub proof fn lemma_number_line(n: nat)
    ensures
        trimmed(number_line(n)) == decimal(n),
        trimmed(decimal(n)) == decimal(n),
{
    let s = decimal(n);
    let line = number_line(n);
    decimal_reads_back(n);
    assert(is_digit(s[0]));
    assert(is_digit(s[s.len() - 1]));
    assert(!is_space(s[0]));
    assert(!is_space(s.last()));
    assert(line[0] == s[0]);
    assert(trim_front(line) == line);
    assert(line.drop_last() =~= s);
    assert(trim_back(s) == s);
    assert(trim_front(s) == s);
}

/// The memory, its limit and the tasks of a cgroup are the numbers in its three files, each in its
/// own; a limit may be none.
pub proof fn numbers_are_in_their_files(dir: CgroupDirView, memory: u64, limit: u64, tasks: u32)
    ensures
        dir.memory_current == Some(number_line(memory as nat)) ==> metrics_read(dir).memory_current
            == Some(memory),
        dir.memory_current is None ==> metrics_read(dir).memory_current is None,
        dir.memory_max == Some(number_line(limit as nat)) ==> metrics_read(dir).memory_max == Some(
            limit,
        ),
        dir.memory_max == Some("max"@ + seq!['\n']) ==> metrics_read(dir).memory_max is None,
        dir.memory_max is None ==> metrics_read(dir).memory_max is None,
        dir.pids_current == Some(number_line(tasks as nat)) ==> metrics_read(dir).pids_current
            == Some(tasks),
        dir.pids_current is None ==> metrics_read(dir).pids_current is None,
{
    lemma_number_line(memory as nat);
    lemma_number_line(limit as nat);
    lemma_number_line(tasks as nat);
    decimal_reads_back(memory as nat);
    decimal_reads_back(limit as nat);
    decimal_reads_back(tasks as nat);
    reveal_strlit("max");
    assert("max"@.len() == 3 && "max"@[0] == 'm' && "max"@[2] == 'x');
    assert(is_digit(decimal(limit as nat)[0]));
    let line = "max"@ + seq!['\n'];
    assert(line[0] == 'm');
    assert(trim_front(line) == line);
    assert(line.drop_last() =~= "max"@);
    assert(trim_back("max"@) == "max"@);
}

/// The CPU usage is the number in the first line with its label.
pub proof fn usage_is_in_its_line(list: Seq<Seq<char>>, i: int, n: u64)
    requires
        0 <= i < list.len(),
        list[i] == "usage_usec "@ + decimal(n as nat),
        forall|k: int| 0 <= k < i ==> !begins(#[trigger] list[k], "usage_usec "@),
    ensures
        usage_in(list) == Some(n),
    decreases i,
{
    let label = "usage_usec "@;
    if i == 0 {
        decimal_reads_back(n as nat);
        lemma_number_line(n as nat);
        assert(list[0].take(label.len() as int) =~= label);
        assert(list[0].skip(label.len() as int) =~= decimal(n as nat));
    } else {
        let rest = list.skip(1);
        assert(!begins(list[0], label));
        assert(rest[i - 1] == list[i]);
        assert forall|k: int| 0 <= k < i - 1 implies !begins(#[trigger] rest[k], label) by {
            assert(rest[k] == list[k + 1]);
        }
        usage_is_in_its_line(rest, i - 1, n);
    }
}

/// The CPU usage of a cgroup is the number in the line of its cpu.stat.
pub proof fn usage_is_in_its_file(dir: CgroupDirView, text: Seq<char>, i: int, n: u64)
    requires
        dir.cpu_stat == Some(text),
        0 <= i < lines(text).len(),
        lines(text)[i] == "usage_usec "@ + decimal(n as nat),
        forall|k: int| 0 <= k < i ==> !begins(#[trigger] lines(text)[k], "usage_usec "@),
    ensures
        metrics_read(dir).cpu_usage_usec == Some(n),
{
    usage_is_in_its_line(lines(text), i, n);
}

/// What words give for a label is added up: those of two lists give what each of the two gives; a word
/// gives the number behind the label, and one without the label gives nothing.
pub proof fn labelled_numbers_are_added(
    a: Seq<Seq<char>>,
    b: Seq<Seq<char>>,
    label: Seq<char>,
    n: u64,
    other: Seq<char>,
)
    ensures
        total_of(a, label) + total_of(b, label) <= u64::MAX ==> total_of(a + b, label) == total_of(
            a,
            label,
        ) + total_of(b, label),
        total_of(seq![label + decimal(n as nat)], label) == n,
        !begins(other, label) ==> total_of(seq![other], label) == 0,
{
    lemma_total_of(a, b, label);
    let word = label + decimal(n as nat);
    decimal_reads_back(n as nat);
    assert(word.take(label.len() as int) =~= label);
    assert(word.skip(label.len() as int) =~= decimal(n as nat));
    assert(seq![word].drop_last() =~= seq![]);
    assert(seq![other].drop_last() =~= seq![]);
    assert(total_of(Seq::empty(), label) == 0);
    assert(total_of(seq![word].drop_last(), label) == 0);
    assert(total_of(seq![other].drop_last(), label) == 0);
}

proof fn lemma_total_of(a: Seq<Seq<char>>, b: Seq<Seq<char>>, label: Seq<char>)
    ensures
        total_of(a + b, label) == total_of(a, label).wrapping_add(total_of(b, label)),
    decreases b.len(),
{
    if b.len() == 0 {
        assert(a + b =~= a);
    } else {
        lemma_total_of(a, b.drop_last(), label);
        assert((a + b).drop_last() =~= a + b.drop_last());
        assert((a + b).last() == b.last());
    }
}

/// The bytes that a cgroup has read are the sum behind the one label in its io.stat, those that it has
/// written the sum behind the other; a sum of zero counts as not known.
pub proof fn bytes_are_summed_over_devices(dir: CgroupDirView, text: Seq<char>)
    requires
        dir.io_stat == Some(text),
    ensures
        ({
            let m = metrics_read(dir);
            let read = total_of(words(text), "rbytes="@);
            let written = total_of(words(text), "wbytes="@);
            &&& read > 0 ==> m.io_read_bytes == Some(read)
            &&& read == 0 ==> m.io_read_bytes is None
            &&& written > 0 ==> m.io_write_bytes == Some(written)
            &&& written == 0 ==> m.io_write_bytes is None
        }),
{
}

/// No rate is known from the files, and nothing that no file holds.
pub proof fn files_give_no_rates(dir: CgroupDirView)
    ensures
        ({
            let m = metrics_read(dir);
            &&& m.cpu_percent.bits == PENDING
            &&& m.io_read_rate.bits == PENDING
            &&& m.io_write_rate.bits == PENDING
            &&& dir.cpu_stat is None ==> m.cpu_usage_usec is None
            &&& dir.io_stat is None ==> m.io_read_bytes is None && m.io_write_bytes is None
        }),
{
}

/// The IDs in two lists of lines are those of the one and then those of the other; a line with a number
/// gives it, and one without gives none.
pub proof fn ids_are_in_their_lines(a: Seq<Seq<char>>, b: Seq<Seq<char>>, n: u32, other: Seq<char>)
    ensures
        pids_in(a + b) == pids_in(a) + pids_in(b),
        pids_in(seq![decimal(n as nat)]) == seq![n],
        number_u32(trimmed(other)) is None ==> pids_in(seq![other]) == Seq::<u32>::empty(),
    decreases b.len(),
{
    if b.len() == 0 {
        assert(a + b =~= a);
        assert(pids_in(a) + pids_in(b) =~= pids_in(a));
    } else {
        ids_are_in_their_lines(a, b.drop_last(), n, other);
        assert((a + b).drop_last() =~= a + b.drop_last());
        assert((a + b).last() == b.last());
        assert(pids_in(a + b) =~= pids_in(a) + pids_in(b));
    }
    let line = decimal(n as nat);
    decimal_reads_back(n as nat);
    lemma_number_line(n as nat);
    assert(seq![line].drop_last() =~= seq![]);
    assert(seq![other].drop_last() =~= seq![]);
    assert(pids_in(seq![line].drop_last()) =~= seq![]);
    assert(pids_in(seq![other].drop_last()) =~= seq![]);
    assert(pids_in(seq![line]) =~= seq![n]);
}

/// A cgroup has the metrics of its files; only at the top of the hierarchy its memory, limit and tasks
/// are left open, to be summed up from below.
pub proof fn only_the_root_lacks_metrics(
    dir: CgroupDirView,
    depth: usize,
    users: Seq<(u32, Seq<char>)>,
)
    ensures
        ({
            let v = node_read(dir, depth, users);
            let m = metrics_read(dir);
            let is_root = same_place(dir.path, "/sys/fs/cgroup"@);
            &&& v.metrics.cpu_usage_usec == m.cpu_usage_usec
            &&& v.metrics.io_read_bytes == m.io_read_bytes
            &&& v.metrics.io_write_bytes == m.io_write_bytes
            &&& !is_root ==> v.metrics == m
            &&& is_root ==> v.metrics.memory_current is None && v.metrics.memory_max is None
                && v.metrics.pids_current is None
            &&& v.metrics.cpu_percent.bits == PENDING
            &&& v.metrics.io_read_rate.bits == PENDING
            &&& v.metrics.io_write_rate.bits == PENDING
        }),
{
}

/// A cgroup is read with its path, its level and the last part of its path as its name; those below it
/// are all read, one level deeper.
pub proof fn cgroup_is_read_whole(
    dir: CgroupDirView,
    depth: usize,
    users: Seq<(u32, Seq<char>)>,
    k: int,
)
    ensures
        ({
            let v = node_read(dir, depth, users);
            &&& v.path == dir.path
            &&& v.depth == depth
            &&& (last_part(dir.path) matches Some(name) ==> v.name == name)
            &&& last_part(dir.path) is None ==> v.name == "/"@
            &&& v.children.len() == dir.children.len()
            &&& 0 <= k < dir.children.len() && depth < usize::MAX ==> v.children.contains(
                node_read(dir.children[k], (depth + 1) as usize, users),
            )
            &&& 0 <= k < dir.children.len() && depth < usize::MAX ==> v.children[k].depth == depth + 1
        }),
{
    let v = node_read(dir, depth, users);
    let keys = child_names(dir).map_values(|n: Seq<char>| KeyView::Text(n));
    let order = sorted(keys, SortDirection::Ascending);
    assert(order == name_order(child_names(dir)));
    sorted_is_permutation(keys, SortDirection::Ascending);
    if 0 <= k < dir.children.len() && depth < usize::MAX {
        sorted_has_every_row(keys, SortDirection::Ascending, k);
        let at = choose|at: int| 0 <= at < order.len() && order[at] == k;
        assert(v.children[at] == node_read(dir.children[k], (depth + 1) as usize, users));
        assert(0 <= order[k] < dir.children.len());
        assert(v.children[k] == node_read(dir.children[order[k]], (depth + 1) as usize, users));
    }
}

/// The processes of a cgroup are those whose files can be read, but for the kernel's, and no other.
pub proof fn processes_of_a_cgroup_are_its_own(
    dir: CgroupDirView,
    depth: usize,
    users: Seq<(u32, Seq<char>)>,
    p: ProcessView,
)
    ensures
        node_read(dir, depth, users).processes.contains(p) <==> p.pid != 2 && p.ppid != 2 && exists|
            i: int,
        |
            0 <= i < dir.processes.len() && process_read(#[trigger] dir.processes[i], users) == Some(p),
{
    let all = processes_read(dir.processes, users);
    let keep = |p: ProcessView| !of_kernel(p);
    crate::process::laws::every_readable_process_is_read(dir.processes, users, p);
    if all.contains(p) && keep(p) {
        let k = choose|k: int| 0 <= k < all.len() && all[k] == p;
        all.lemma_filter_contains(keep, k);
    }
    if all.filter(keep).contains(p) {
        all.lemma_filter_contains_rev(keep, p);
        let k = choose|k: int| 0 <= k < all.filter(keep).len() && all.filter(keep)[k] == p;
        all.lemma_filter_pred(keep, k);
    }
}

}
