//! What is read of a process, from the lines of its files.

use vstd::prelude::*;
use crate::number::{decimal, decimal_reads_back, is_digit, number_u32, number_u64};
use crate::process::parser::{
    counter_in, full_command, last_at, passwd_entries, passwd_entry, process_read, processes_read,
    self_stat_read, stat_read, uid_in, user_name, ProcFilesView,
};
use crate::process::types::{state_of, ProcessView};
use crate::rate::PENDING;
use crate::text::{
    begins, fields, fields_at_separator, is_space, joined, joined_splits_back, lemma_first_cut_at,
    lines, trim_back, trim_front, trimmed, words, Cut,
};

verus! {

/// The last such character of a text stands where only others follow it.
proof fn lemma_last_at(a: Seq<char>, c: char, b: Seq<char>)
    requires
        !b.contains(c),
    ensures
        last_at(a + seq![c] + b, c) == a.len(),
    decreases b.len(),
{
    let whole = a + seq![c] + b;
    if b.len() > 0 {
        let front = b.drop_last();
        assert(b.contains(b[b.len() - 1]));
        assert(!front.contains(c)) by {
            if front.contains(c) {
                let j = choose|j: int| 0 <= j < front.len() && front[j] == c;
                assert(b[j] == c);
            }
        }
        lemma_last_at(a, c, front);
        assert(whole.drop_last() =~= a + seq![c] + front);
        assert(whole.last() == b.last());
    } else {
        assert(whole.last() == c);
    }
}

/// A stat line as the kernel writes it: the ID, the name of the command in parentheses, a blank and
/// the fields. The name may hold parentheses and blanks itself.
pub open spec fn stat_line(id: Seq<char>, comm: Seq<char>, rest: Seq<char>) -> Seq<char> {
    id + seq!['('] + comm + seq![')', ' '] + rest
}

/// The name of the command is read whole, though it may hold parentheses and blanks, and so are the
/// fields behind it.
pub proof fn stat_line_is_read_whole(id: Seq<char>, comm: Seq<char>, rest: Seq<char>)
    requires
        !id.contains('('),
        !rest.contains(')'),
    ensures
        ({
            let f = words(rest);
            let read = stat_read(stat_line(id, comm, rest));
            &&& f.len() < 22 ==> read is None
            &&& read matches Some(stat) ==> stat.comm == comm && stat.state == f[0][0] && Some(
                stat.ppid,
            ) == number_u32(f[1]) && Some(stat.utime) == number_u64(f[11]) && Some(stat.stime)
                == number_u64(f[12]) && Some(stat.num_threads) == number_u32(f[17]) && Some(
                stat.starttime,
            ) == number_u64(f[19]) && Some(stat.vsize) == number_u64(f[20]) && Some(stat.rss)
                == number_u64(f[21])
        }),
{
    lemma_stat_line(id, comm, rest);
}

proof fn lemma_stat_line(id: Seq<char>, comm: Seq<char>, rest: Seq<char>)
    requires
        !id.contains('('),
        !rest.contains(')'),
    ensures
        stat_read(stat_line(id, comm, rest)) == crate::process::parser::stat_of(comm, words(rest)),
{
    let line = stat_line(id, comm, rest);
    let head = id + seq!['('] + comm;
    let tail = seq![' '] + rest;
    assert(line =~= head + seq![')'] + tail);
    assert(!tail.contains(')')) by {
        if tail.contains(')') {
            let j = choose|j: int| 0 <= j < tail.len() && tail[j] == ')';
            assert(rest[j - 1] == ')');
        }
    }
    lemma_last_at(head, ')', tail);
    assert forall|j: int| 0 <= j < id.len() implies !Cut::At('(').hits(#[trigger] line[j]) by {
        assert(line[j] == id[j]);
        assert(id.contains(id[j]));
    }
    assert(line[id.len() as int] == '(');
    lemma_first_cut_at(line, Cut::At('('), id.len() as int);
    assert(line.subrange(id.len() as int + 1, head.len() as int) =~= comm);
    assert(line.skip(head.len() as int + 2) =~= rest);
}

/// The values of a process are those that its stat line gives, each from its own field; the resident
/// pages are counted in bytes. No rate is known yet.
pub proof fn process_has_the_values_of_its_line(
    files: ProcFilesView,
    users: Seq<(u32, Seq<char>)>,
    id: Seq<char>,
    comm: Seq<char>,
    rest: Seq<char>,
    p: ProcessView,
    pages: u64,
)
    requires
        !id.contains('('),
        !rest.contains(')'),
        files.stat == Some(stat_line(id, comm, rest)),
        words(rest).len() >= 22,
        words(rest)[1] == decimal(p.ppid as nat),
        words(rest)[11] == decimal(p.utime as nat),
        words(rest)[12] == decimal(p.stime as nat),
        words(rest)[17] == decimal(p.num_threads as nat),
        words(rest)[19] == decimal(p.starttime as nat),
        words(rest)[20] == decimal(p.vsize as nat),
        words(rest)[21] == decimal(pages as nat),
        pages * 4096 <= u64::MAX,
    ensures
        process_read(files, users) matches Some(q) && q.pid == files.pid && q.ppid == p.ppid && q.utime
            == p.utime && q.stime == p.stime && q.num_threads == p.num_threads && q.starttime
            == p.starttime && q.vsize == p.vsize && q.rss == pages * 4096 && q.state == state_of(
            words(rest)[0][0],
        ) && q.cpu_percent.bits == PENDING && q.io_read_rate.bits == PENDING && q.io_write_rate.bits
            == PENDING && (files.cmdline is None ==> q.name == comm && q.cmdline is None),
{
    lemma_stat_line(id, comm, rest);
    decimal_reads_back(p.ppid as nat);
    decimal_reads_back(p.utime as nat);
    decimal_reads_back(p.stime as nat);
    decimal_reads_back(p.num_threads as nat);
    decimal_reads_back(p.starttime as nat);
    decimal_reads_back(p.vsize as nat);
    decimal_reads_back(pages as nat);
}

/// The times and pages of the monitor itself are those of its stat line, each from its own field.
pub proof fn own_line_has_times_and_pages(
    id: Seq<char>,
    comm: Seq<char>,
    rest: Seq<char>,
    utime: u64,
    stime: u64,
    pages: u64,
)
    requires
        !rest.contains(')'),
        words(rest).len() >= 22,
        words(rest)[11] == decimal(utime as nat),
        words(rest)[12] == decimal(stime as nat),
        words(rest)[21] == decimal(pages as nat),
    ensures
        self_stat_read(stat_line(id, comm, rest)) == Some((utime, stime, pages)),
{
    let line = stat_line(id, comm, rest);
    let head = id + seq!['('] + comm;
    let tail = seq![' '] + rest;
    assert(line =~= head + seq![')'] + tail);
    assert(!tail.contains(')')) by {
        if tail.contains(')') {
            let j = choose|j: int| 0 <= j < tail.len() && tail[j] == ')';
            assert(rest[j - 1] == ')');
        }
    }
    lemma_last_at(head, ')', tail);
    assert(line.skip(head.len() as int + 2) =~= rest);
    decimal_reads_back(utime as nat);
    decimal_reads_back(stime as nat);
    decimal_reads_back(pages as nat);
}

/// A process is named after the file of its command, whatever stands before it in the path, and its
/// command line is its arguments with blanks in between.
pub proof fn process_is_named_after_its_command(
    files: ProcFilesView,
    users: Seq<(u32, Seq<char>)>,
    base: Seq<char>,
    name: Seq<char>,
    rest: Seq<char>,
)
    requires
        process_read(files, users) is Some,
        crate::path::is_step(name),
        name != ".."@,
        !name.contains('/'),
        !crate::path::path_joined(base, name).contains('\0'),
        files.cmdline == Some(crate::path::path_joined(base, name) + seq!['\0'] + rest),
    ensures
        process_read(files, users) matches Some(p) && p.name == name && (rest.len() == 0 ==> p.cmdline
            == Some(crate::path::path_joined(base, name))),
{
    let path = crate::path::path_joined(base, name);
    let text = path + seq!['\0'] + rest;
    crate::path::last_part_is_the_name(base, name);
    fields_at_separator(path, '\0', rest);
    joined_splits_back(seq![path], '\0');
    assert(joined(seq![path], seq!['\0']) == path);
    assert(fields(text, '\0')[0] == path);
    assert(path.len() > 0);
    if rest.len() == 0 {
        let none = Seq::<char>::empty();
        assert(rest =~= none);
        assert(fields(rest, '\0') =~= seq![none]);
        let keep = |s: Seq<char>| s.len() > 0;
        let list = fields(text, '\0');
        assert(list =~= seq![path, none]);
        reveal(Seq::filter);
        assert(list.drop_last() =~= seq![path]);
        assert(seq![path].drop_last() =~= seq![]);
        assert(seq![path].last() == path && list.last() == none);
        assert(keep(path) && !keep(none));
        assert(seq![path].drop_last().filter(keep) =~= seq![]);
        assert(seq![path].filter(keep) =~= seq![path]);
        assert(list.filter(keep) =~= seq![path]);
    }
}

proof fn lemma_number_is_trimmed(n: nat)
    ensures
        trimmed(decimal(n)) == decimal(n),
{
    let s = decimal(n);
    decimal_reads_back(n);
    assert(is_digit(s[0]));
    assert(is_digit(s[s.len() - 1]));
    assert(!is_space(s[0]));
    assert(!is_space(s.last()));
    assert(trim_front(s) == s);
    assert(trim_back(s) == s);
}

/// A counter has the number that stands behind its label in the last line with it.
pub proof fn counter_is_in_its_line(list: Seq<Seq<char>>, label: Seq<char>, i: int, n: u64)
    requires
        0 <= i < list.len(),
        list[i] == label + decimal(n as nat),
        forall|k: int| i < k < list.len() ==> !begins(#[trigger] list[k], label),
    ensures
        counter_in(list, label) == n,
    decreases list.len(),
{
    if i == list.len() - 1 {
        decimal_reads_back(n as nat);
        lemma_number_is_trimmed(n as nat);
        assert(list.last() == list[i]);
        assert(list[i].take(label.len() as int) =~= label);
        assert(list[i].skip(label.len() as int) =~= decimal(n as nat));
    } else {
        let front = list.drop_last();
        assert(!begins(list[list.len() - 1], label));
        assert forall|k: int| i < k < front.len() implies !begins(#[trigger] front[k], label) by {
            assert(front[k] == list[k]);
        }
        assert(front[i] == list[i]);
        counter_is_in_its_line(front, label, i, n);
    }
}

/// A counter without a line is zero.
pub proof fn counter_without_a_line_is_zero(list: Seq<Seq<char>>, label: Seq<char>)
    requires
        forall|k: int| 0 <= k < list.len() ==> !begins(#[trigger] list[k], label),
    ensures
        counter_in(list, label) == 0,
    decreases list.len(),
{
    if list.len() > 0 {
        let front = list.drop_last();
        assert(!begins(list[list.len() - 1], label));
        assert forall|k: int| 0 <= k < front.len() implies !begins(#[trigger] front[k], label) by {
            assert(front[k] == list[k]);
        }
        counter_without_a_line_is_zero(front, label);
    }
}

/// The bytes that a process has read and written are those in the two lines of its io file, each from
/// its own.
pub proof fn bytes_are_in_their_lines(
    files: ProcFilesView,
    users: Seq<(u32, Seq<char>)>,
    text: Seq<char>,
    i: int,
    j: int,
    read: u64,
    written: u64,
)
    requires
        process_read(files, users) is Some,
        files.io == Some(text),
        0 <= i < lines(text).len(),
        0 <= j < lines(text).len(),
        lines(text)[i] == "read_bytes: "@ + decimal(read as nat),
        lines(text)[j] == "write_bytes: "@ + decimal(written as nat),
        forall|k: int| i < k < lines(text).len() ==> !begins(
            #[trigger] lines(text)[k],
            "read_bytes: "@,
        ),
        forall|k: int| j < k < lines(text).len() ==> !begins(
            #[trigger] lines(text)[k],
            "write_bytes: "@,
        ),
    ensures
        process_read(files, users) matches Some(p) && p.io_read_bytes == read && p.io_write_bytes
            == written,
{
    counter_is_in_its_line(lines(text), "read_bytes: "@, i, read);
    counter_is_in_its_line(lines(text), "write_bytes: "@, j, written);
}

/// Without an io file a process has read and written nothing.
pub proof fn unreadable_bytes_are_zero(files: ProcFilesView, users: Seq<(u32, Seq<char>)>)
    requires
        files.io is None,
    ensures
        process_read(files, users) matches Some(p) ==> p.io_read_bytes == 0 && p.io_write_bytes == 0,
{
}

/// The user ID is the first number in the first line with its label.
pub proof fn user_id_is_in_its_line(list: Seq<Seq<char>>, i: int, rest: Seq<char>, uid: u32)
    requires
        0 <= i < list.len(),
        list[i] == "Uid:"@ + rest,
        words(rest).len() > 0,
        words(rest)[0] == decimal(uid as nat),
        forall|k: int| 0 <= k < i ==> !begins(#[trigger] list[k], "Uid:"@),
    ensures
        uid_in(list) == Some(uid),
    decreases i,
{
    let label = "Uid:"@;
    if i == 0 {
        decimal_reads_back(uid as nat);
        assert(list[0].take(label.len() as int) =~= label);
        assert(list[0].skip(label.len() as int) =~= rest);
    } else {
        let tail = list.skip(1);
        assert(!begins(list[0], label));
        assert(tail[i - 1] == list[i]);
        assert forall|k: int| 0 <= k < i - 1 implies !begins(#[trigger] tail[k], label) by {
            assert(tail[k] == list[k + 1]);
        }
        user_id_is_in_its_line(tail, i - 1, rest, uid);
    }
}

/// A user has the name that was given last for the ID.
pub proof fn last_name_of_an_id_counts(users: Seq<(u32, Seq<char>)>, uid: u32, i: int)
    requires
        0 <= i < users.len(),
        users[i].0 == uid,
        forall|k: int| i < k < users.len() ==> (#[trigger] users[k]).0 != uid,
    ensures
        user_name(users, uid) == users[i].1,
    decreases users.len(),
{
    if i < users.len() - 1 {
        let front = users.drop_last();
        assert(users[users.len() - 1].0 != uid);
        assert forall|k: int| i < k < front.len() implies (#[trigger] front[k]).0 != uid by {
            assert(front[k] == users[k]);
        }
        last_name_of_an_id_counts(front, uid, i);
    }
}

/// A user without a name is shown by the ID.
pub proof fn unnamed_user_is_shown_by_the_id(users: Seq<(u32, Seq<char>)>, uid: u32)
    requires
        forall|k: int| 0 <= k < users.len() ==> (#[trigger] users[k]).0 != uid,
    ensures
        user_name(users, uid) == decimal(uid as nat),
    decreases users.len(),
{
    if users.len() > 0 {
        let front = users.drop_last();
        assert(users[users.len() - 1].0 != uid);
        assert forall|k: int| 0 <= k < front.len() implies (#[trigger] front[k]).0 != uid by {
            assert(front[k] == users[k]);
        }
        unnamed_user_is_shown_by_the_id(front, uid);
    }
}

/// A line of a password file names a user: the ID stands in the third field.
pub open spec fn names_user(line: Seq<char>, uid: u32) -> bool {
    fields(line, ':').len() >= 3 && number_u32(fields(line, ':')[2]) == Some(uid)
}

/// A user of a password file has the name at the start of the last line for the ID.
pub proof fn name_is_at_the_start_of_the_line(list: Seq<Seq<char>>, uid: u32, i: int)
    requires
        0 <= i < list.len(),
        names_user(list[i], uid),
        forall|k: int| i < k < list.len() ==> !names_user(#[trigger] list[k], uid),
    ensures
        user_name(passwd_entries(list), uid) == fields(list[i], ':')[0],
    decreases list.len(),
{
    let front = list.drop_last();
    let entries = passwd_entries(list);
    let before = passwd_entries(front);
    if i == list.len() - 1 {
        assert(entries.last() == (uid, fields(list[i], ':')[0]));
    } else {
        assert(!names_user(list[list.len() - 1], uid));
        assert forall|k: int| i < k < front.len() implies !names_user(#[trigger] front[k], uid) by {
            assert(front[k] == list[k]);
        }
        name_is_at_the_start_of_the_line(front, uid, i);
        if passwd_entry(list.last()) is Some {
            assert(entries.drop_last() =~= before);
        }
    }
}

/// The owner of a process is the user whose ID stands in its status file, by the name that is known.
pub proof fn owner_is_in_the_status_file(
    files: ProcFilesView,
    users: Seq<(u32, Seq<char>)>,
    text: Seq<char>,
    i: int,
    rest: Seq<char>,
    uid: u32,
    k: int,
)
    requires
        files.status == Some(text),
        0 <= i < lines(text).len(),
        lines(text)[i] == "Uid:"@ + rest,
        words(rest).len() > 0,
        words(rest)[0] == decimal(uid as nat),
        forall|j: int| 0 <= j < i ==> !begins(#[trigger] lines(text)[j], "Uid:"@),
        0 <= k < users.len(),
        users[k].0 == uid,
        forall|j: int| k < j < users.len() ==> (#[trigger] users[j]).0 != uid,
    ensures
        process_read(files, users) matches Some(p) ==> p.user == users[k].1,
{
    user_id_is_in_its_line(lines(text), i, rest, uid);
    last_name_of_an_id_counts(users, uid, k);
}

/// Every process whose files can be read is read, and no other.
pub proof fn every_readable_process_is_read(
    list: Seq<ProcFilesView>,
    users: Seq<(u32, Seq<char>)>,
    p: ProcessView,
)
    ensures
        processes_read(list, users).contains(p) <==> exists|i: int|
            0 <= i < list.len() && process_read(#[trigger] list[i], users) == Some(p),
{
    if processes_read(list, users).contains(p) {
        let k = choose|k: int|
            0 <= k < processes_read(list, users).len() && processes_read(list, users)[k] == p;
        lemma_read_from(list, users, k);
    }
    if exists|i: int| 0 <= i < list.len() && process_read(#[trigger] list[i], users) == Some(p) {
        let i = choose|i: int|
            0 <= i < list.len() && process_read(#[trigger] list[i], users) == Some(p);
        lemma_is_read(list, users, i);
    }
}

proof fn lemma_read_from(list: Seq<ProcFilesView>, users: Seq<(u32, Seq<char>)>, k: int) -> (i: int)
    requires
        0 <= k < processes_read(list, users).len(),
    ensures
        0 <= i < list.len(),
        process_read(list[i], users) == Some(processes_read(list, users)[k]),
    decreases list.len(),
{
    let front = list.drop_last();
    let before = processes_read(front, users);
    if k < before.len() {
        let i = lemma_read_from(front, users, k);
        assert(front[i] == list[i]);
        assert(processes_read(list, users)[k] == before[k]);
        i
    } else {
        list.len() - 1
    }
}

proof fn lemma_is_read(list: Seq<ProcFilesView>, users: Seq<(u32, Seq<char>)>, i: int) -> (k: int)
    requires
        0 <= i < list.len(),
        process_read(list[i], users) is Some,
    ensures
        0 <= k < processes_read(list, users).len(),
        process_read(list[i], users) == Some(processes_read(list, users)[k]),
    decreases list.len(),
{
    let front = list.drop_last();
    let before = processes_read(front, users);
    let all = processes_read(list, users);
    if i < front.len() {
        assert(front[i] == list[i]);
        let k = lemma_is_read(front, users, i);
        assert(all[k] == before[k]);
        k
    } else {
        assert(list.last() == list[i]);
        assert(all.len() == before.len() + 1);
        before.len() as int
    }
}

/// Processes that can all be read are read in the order of their files, one for each.
pub proof fn processes_are_read_in_order(
    list: Seq<ProcFilesView>,
    users: Seq<(u32, Seq<char>)>,
    i: int,
)
    requires
        forall|k: int| 0 <= k < list.len() ==> process_read(#[trigger] list[k], users) is Some,
    ensures
        processes_read(list, users).len() == list.len(),
        0 <= i < list.len() ==> process_read(list[i], users) == Some(processes_read(list, users)[i]),
    decreases list.len(),
{
    if list.len() > 0 {
        let front = list.drop_last();
        let before = processes_read(front, users);
        assert forall|k: int| 0 <= k < front.len() implies process_read(
            #[trigger] front[k],
            users,
        ) is Some by {
            assert(front[k] == list[k]);
        }
        processes_are_read_in_order(front, users, i);
        assert(process_read(list[list.len() - 1], users) is Some);
        if 0 <= i < front.len() {
            assert(front[i] == list[i]);
            assert(processes_read(list, users)[i] == before[i]);
        }
    }
}

proof fn lemma_all_kept(list: Seq<Seq<char>>)
    requires
        forall|k: int| 0 <= k < list.len() ==> (#[trigger] list[k]).len() > 0,
    ensures
        list.filter(|s: Seq<char>| s.len() > 0) == list,
    decreases list.len(),
{
    reveal(Seq::filter);
    let keep = |s: Seq<char>| s.len() > 0;
    if list.len() > 0 {
        let front = list.drop_last();
        assert forall|k: int| 0 <= k < front.len() implies (#[trigger] front[k]).len() > 0 by {
            assert(front[k] == list[k]);
        }
        lemma_all_kept(front);
        assert(list[list.len() - 1].len() > 0);
        assert(keep(list.last()));
        assert(front.push(list.last()) =~= list);
    } else {
        assert(list.filter(keep) =~= list);
    }
}

/// The command line of a process is its arguments with blanks in between, whether or not the last is
/// closed in the file.
pub proof fn command_line_is_its_arguments(args: Seq<Seq<char>>)
    requires
        args.len() > 0,
        forall|k: int| 0 <= k < args.len() ==> (#[trigger] args[k]).len() > 0 && !args[k].contains('\0'),
    ensures
        full_command(joined(args, seq!['\0'])) == Some(joined(args, " "@)),
        full_command(joined(args, seq!['\0']) + seq!['\0']) == Some(joined(args, " "@)),
{
    let text = joined(args, seq!['\0']);
    let none = Seq::<char>::empty();
    let keep = |s: Seq<char>| s.len() > 0;
    joined_splits_back(args, '\0');
    lemma_all_kept(args);
    fields_at_separator(text, '\0', none);
    assert(text + seq!['\0'] + none =~= text + seq!['\0']);
    assert(fields(none, '\0') =~= seq![none]);
    Seq::filter_distributes_over_add(args, seq![none], keep);
    reveal(Seq::filter);
    assert(seq![none].drop_last() =~= seq![]);
    assert(seq![none].last() == none);
    assert(!keep(none));
    assert(seq![none].drop_last().filter(keep) =~= seq![]);
    assert(seq![none].filter(keep) =~= seq![]);
    assert(args.filter(keep) + seq![none].filter(keep) =~= args);
}

}
