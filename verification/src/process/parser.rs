//! Reading of processes from what the kernel says of them under /proc.

use vstd::prelude::*;
use crate::model::views;
use crate::number::{decimal, decimal_text, number_u32, number_u64, parse_u32, parse_u64};
use crate::path::{file_name, last_part};
use crate::process::types::{state_of, Process, ProcessState, ProcessView};
use crate::rate::{no_rate, Rate, PENDING};
use crate::text::{
    after_prefix, chars_of, fields, first_cut, join, joined, lemma_first_cut_at, lines, same_text,
    split_lines, split_on, split_words, strip, text_in, text_of, texts, trim, trimmed, words, Cut,
};

verus! {

/// The size of a page of memory in bytes.
pub const PAGE_SIZE: u64 = 4096;

/// What the files of a process under /proc hold; a file that could not be read is missing.
#[derive(Debug)]
pub struct ProcFiles {
    /// Process ID
    pub pid: u32,
    /// /proc/[pid]/stat
    pub stat: Option<String>,
    /// /proc/[pid]/cmdline
    pub cmdline: Option<String>,
    /// /proc/[pid]/status
    pub status: Option<String>,
    /// /proc/[pid]/io
    pub io: Option<String>,
}

/// The texts of the files of a process.
pub struct ProcFilesView {
    pub pid: u32,
    pub stat: Option<Seq<char>>,
    pub cmdline: Option<Seq<char>>,
    pub status: Option<Seq<char>>,
    pub io: Option<Seq<char>>,
}

impl View for ProcFiles {
    type V = ProcFilesView;

    open spec fn view(&self) -> ProcFilesView {
        ProcFilesView {
            pid: self.pid,
            stat: text_in(self.stat),
            cmdline: text_in(self.cmdline),
            status: text_in(self.status),
            io: text_in(self.io),
        }
    }
}

/// The index of the last such character, or -1 where there is none.
pub open spec fn last_at(s: Seq<char>, c: char) -> int
    decreases s.len(),
{
    if s.len() == 0 {
        -1
    } else if s.last() == c {
        s.len() - 1
    } else {
        last_at(s.drop_last(), c)
    }
}

fn find_last(v: &Vec<char>, c: char) -> (r: Option<usize>)
    ensures
        match r {
            Some(i) => i < v@.len() && last_at(v@, c) == i,
            None => last_at(v@, c) == -1,
        },
{
    let mut n: usize = v.len();
    assert(v@.take(n as int) =~= v@);
    while n > 0
        invariant
            n <= v@.len(),
            last_at(v@.take(n as int), c) == last_at(v@, c),
        decreases n,
    {
        assert(v@.take(n as int).last() == v@[n - 1]);
        if v[n - 1] == c {
            return Some(n - 1);
        }
        assert(v@.take(n as int).drop_last() =~= v@.take(n - 1));
        n -= 1;
    }
    None
}

fn find_first(v: &Vec<char>, c: char) -> (r: usize)
    ensures
        r <= v@.len(),
        r == first_cut(v@, Cut::At(c)),
{
    let mut i: usize = 0;
    while i < v.len()
        invariant
            i <= v@.len(),
            forall|j: int| 0 <= j < i ==> !Cut::At(c).hits(#[trigger] v@[j]),
        decreases v@.len() - i,
    {
        if v[i] == c {
            proof {
                lemma_first_cut_at(v@, Cut::At(c), i as int);
            }
            return i;
        }
        i += 1;
    }
    proof {
        lemma_first_cut_at(v@, Cut::At(c), v@.len() as int);
    }
    i
}

/// One byte encodes the character.
pub open spec fn is_byte(c: char) -> bool {
    (c as int) < 0x80
}

/// The closing parenthesis, where there is one, is followed by a character of one byte.
pub open spec fn fields_follow(s: Seq<char>) -> bool {
    let end = last_at(s, ')');
    end >= 0 ==> end + 1 < s.len() && is_byte(s[end + 1])
}

/// What a stat line says of the name of the command is whole: where both parentheses are there,
/// they stand in order and the fields follow.
pub open spec fn stat_is_whole(s: Seq<char>) -> bool {
    let start = first_cut(s, Cut::At('('));
    let end = last_at(s, ')');
    0 <= start < s.len() && end >= 0 ==> start < end && fields_follow(s)
}

/// Tests whether the fields of a stat line can be read.
pub fn has_fields(content: &str) -> (r: bool)
    ensures
        r == fields_follow(content@),
{
    let v = chars_of(content);
    match find_last(&v, ')') {
        Some(end) => v.len() - end > 1 && v[end + 1] < '\u{80}',
        None => true,
    }
}

/// Tests whether a stat line can be read.
pub fn is_whole_stat(content: &str) -> (r: bool)
    ensures
        r == stat_is_whole(content@),
{
    let v = chars_of(content);
    let start = find_first(&v, '(');
    match find_last(&v, ')') {
        Some(end) => start >= v.len() || (start < end && has_fields(content)),
        None => true,
    }
}

/// What a stat line says.
pub struct StatView {
    pub comm: Seq<char>,
    pub state: char,
    pub ppid: u32,
    pub utime: u64,
    pub stime: u64,
    pub vsize: u64,
    pub rss: u64,
    pub num_threads: u32,
    pub starttime: u64,
}

/// What the fields of a stat line say; the fields are counted after the name of the command.
pub open spec fn stat_of(comm: Seq<char>, f: Seq<Seq<char>>) -> Option<StatView> {
    if f.len() < 22 {
        None
    } else {
        match (
            number_u32(f[1]),
            number_u64(f[11]),
            number_u64(f[12]),
            number_u32(f[17]),
            number_u64(f[19]),
            number_u64(f[20]),
            number_u64(f[21]),
        ) {
            (
                Some(ppid),
                Some(utime),
                Some(stime),
                Some(num_threads),
                Some(starttime),
                Some(vsize),
                Some(rss),
            ) => Some(
                StatView {
                    comm,
                    state: f[0][0],
                    ppid,
                    utime,
                    stime,
                    vsize,
                    rss,
                    num_threads,
                    starttime,
                },
            ),
            _ => None,
        }
    }
}

/// What a stat line says: the name of the command between its first opening and its last closing
/// parenthesis, and the fields behind that.
pub open spec fn stat_read(s: Seq<char>) -> Option<StatView> {
    let start = first_cut(s, Cut::At('('));
    let end = last_at(s, ')');
    if start >= s.len() || end < 0 {
        None
    } else {
        stat_of(s.subrange(start + 1, end), words(s.skip(end + 2)))
    }
}

/// The user time, system time and resident pages that a stat line gives.
pub open spec fn self_stat_read(s: Seq<char>) -> Option<(u64, u64, u64)> {
    let end = last_at(s, ')');
    let f = words(s.skip(end + 2));
    if end < 0 || f.len() < 22 {
        None
    } else {
        match (number_u64(f[11]), number_u64(f[12]), number_u64(f[21])) {
            (Some(utime), Some(stime), Some(rss)) => Some((utime, stime, rss)),
            _ => None,
        }
    }
}

/// The fields of /proc/[pid]/stat that are used.
#[derive(Debug)]
pub struct ProcStat {
    pub comm: String,
    pub state: char,
    pub ppid: u32,
    pub utime: u64,
    pub stime: u64,
    pub vsize: u64,
    pub rss: u64,
    pub num_threads: u32,
    pub starttime: u64,
}

impl View for ProcStat {
    type V = StatView;

    open spec fn view(&self) -> StatView {
        StatView {
            comm: self.comm@,
            state: self.state,
            ppid: self.ppid,
            utime: self.utime,
            stime: self.stime,
            vsize: self.vsize,
            rss: self.rss,
            num_threads: self.num_threads,
            starttime: self.starttime,
        }
    }
}

pub open spec fn stat_in(r: Option<ProcStat>) -> Option<StatView> {
    match r {
        Some(stat) => Some(stat@),
        None => None,
    }
}

proof fn lemma_words_not_empty(s: Seq<char>, k: int)
    requires
        0 <= k < words(s).len(),
    ensures
        words(s)[k].len() > 0,
    decreases s.len(),
{
    if s.len() > 0 {
        if crate::text::is_space(s[0]) {
            lemma_words_not_empty(s.skip(1), k);
        } else {
            let i = first_cut(s, Cut::Space);
            if 0 < i <= s.len() && k > 0 {
                lemma_words_not_empty(s.skip(i), k - 1);
            }
        }
    }
}

fn words_from(v: &Vec<char>, from: usize) -> (r: Vec<String>)
    requires
        from <= v@.len(),
    ensures
        texts(r@) == words(v@.skip(from as int)),
{
    let rest = text_of(v, from, v.len());
    assert(rest@ =~= v@.skip(from as int));
    split_words(rest.as_str())
}

/// Parse /proc/[pid]/stat
pub fn parse_proc_stat(content: &str) -> (r: Option<ProcStat>)
    requires
        stat_is_whole(content@),
    ensures
        stat_in(r) == stat_read(content@),
{
    let v = chars_of(content);
    let start = find_first(&v, '(');
    if start >= v.len() {
        return None;
    }
    let end = match find_last(&v, ')') {
        Some(end) => end,
        None => {
            return None;
        },
    };
    let comm = text_of(&v, start + 1, end);
    let f = words_from(&v, end + 2);
    let ghost all = texts(f@);
    assert(f@.len() == all.len());
    assert(forall|i: int| 0 <= i < all.len() ==> #[trigger] all[i] == f@[i]@);
    if f.len() < 22 {
        return None;
    }
    let first = chars_of(f[0].as_str());
    proof {
        lemma_words_not_empty(v@.skip(end + 2), 0);
    }
    match (
        parse_u32(f[1].as_str()),
        parse_u64(f[11].as_str()),
        parse_u64(f[12].as_str()),
        parse_u32(f[17].as_str()),
        parse_u64(f[19].as_str()),
        parse_u64(f[20].as_str()),
        parse_u64(f[21].as_str()),
    ) {
        (
            Some(ppid),
            Some(utime),
            Some(stime),
            Some(num_threads),
            Some(starttime),
            Some(vsize),
            Some(rss),
        ) => Some(
            ProcStat {
                comm,
                state: first[0],
                ppid,
                utime,
                stime,
                vsize,
                rss,
                num_threads,
                starttime,
            },
        ),
        _ => None,
    }
}

/// Parse /proc/self/stat to extract utime, stime, and rss
pub fn parse_self_stat(content: &str) -> (r: Option<(u64, u64, u64)>)
    requires
        fields_follow(content@),
    ensures
        r == self_stat_read(content@),
{
    let v = chars_of(content);
    let end = match find_last(&v, ')') {
        Some(end) => end,
        None => {
            return None;
        },
    };
    assert(end + 1 < v.len());
    let f = words_from(&v, end + 2);
    let ghost all = texts(f@);
    assert(f@.len() == all.len());
    assert(forall|i: int| 0 <= i < all.len() ==> #[trigger] all[i] == f@[i]@);
    if f.len() < 22 {
        return None;
    }
    match (parse_u64(f[11].as_str()), parse_u64(f[12].as_str()), parse_u64(f[21].as_str())) {
        (Some(utime), Some(stime), Some(rss)) => Some((utime, stime, rss)),
        _ => None,
    }
}

/// The name of a command: the last part of the path that its command line starts with.
pub open spec fn command_name(cmdline: Seq<char>) -> Option<Seq<char>> {
    let first = fields(cmdline, '\0')[0];
    if first.len() == 0 {
        None
    } else {
        last_part(first)
    }
}

/// The arguments of a command line that are not empty.
pub open spec fn arguments(cmdline: Seq<char>) -> Seq<Seq<char>> {
    fields(cmdline, '\0').filter(|s: Seq<char>| s.len() > 0)
}

/// A command line as one text.
pub open spec fn full_command(cmdline: Seq<char>) -> Option<Seq<char>> {
    if arguments(cmdline).len() == 0 {
        None
    } else {
        Some(joined(arguments(cmdline), " "@))
    }
}

/// Tests for the empty text.
pub fn is_blank(s: &str) -> (r: bool)
    ensures
        r == (s@.len() == 0),
{
    proof {
        reveal_strlit("");
        assert(s@.len() == 0 ==> s@ =~= ""@);
    }
    same_text(s, "")
}

/// The texts of a list that are not empty.
pub fn without_blanks(list: &Vec<String>) -> (r: Vec<String>)
    ensures
        texts(r@) == texts(list@).filter(|s: Seq<char>| s.len() > 0),
{
    let ghost all = texts(list@);
    let ghost keep = |s: Seq<char>| s.len() > 0;
    let mut out: Vec<String> = Vec::new();
    let mut i: usize = 0;
    proof {
        reveal(Seq::filter);
        assert(texts(out@) =~= all.take(0).filter(keep));
    }
    while i < list.len()
        invariant
            i <= list@.len(),
            all == texts(list@),
            keep == (|s: Seq<char>| s.len() > 0),
            texts(out@) == all.take(i as int).filter(keep),
        decreases list@.len() - i,
    {
        let ghost before = out@;
        proof {
            reveal(Seq::filter);
            assert(all.take(i + 1).drop_last() =~= all.take(i as int));
            assert(all.take(i + 1).last() == list@[i as int]@);
        }
        if !is_blank(list[i].as_str()) {
            out.push(list[i].clone());
            assert(texts(out@) =~= texts(before).push(list@[i as int]@));
        }
        i += 1;
    }
    assert(all.take(all.len() as int) =~= all);
    out
}

/// Parse the name of a process out of /proc/[pid]/cmdline
pub fn parse_cmdline_name(cmdline: &str) -> (r: Option<String>)
    ensures
        text_in(r) == command_name(cmdline@),
{
    let parts = split_on(cmdline, '\0');
    assert(texts(parts@).len() > 0 && texts(parts@)[0] == parts@[0]@);
    if is_blank(parts[0].as_str()) {
        None
    } else {
        file_name(parts[0].as_str())
    }
}

/// Parse the command line out of /proc/[pid]/cmdline
pub fn parse_full_cmdline(cmdline: &str) -> (r: Option<String>)
    ensures
        text_in(r) == full_command(cmdline@),
{
    let parts = split_on(cmdline, '\0');
    let args = without_blanks(&parts);
    assert(texts(args@).len() == args@.len());
    if args.len() == 0 {
        None
    } else {
        Some(join(&args, " "))
    }
}

/// The user ID in the first line that starts with its label.
pub open spec fn uid_in(list: Seq<Seq<char>>) -> Option<u32>
    decreases list.len(),
{
    if list.len() == 0 {
        None
    } else {
        match after_prefix(list[0], "Uid:"@) {
            Some(rest) => if words(rest).len() == 0 {
                None
            } else {
                number_u32(words(rest)[0])
            },
            None => uid_in(list.skip(1)),
        }
    }
}

/// Parse the user ID out of /proc/[pid]/status
pub fn parse_uid_from_status(content: &str) -> (r: Option<u32>)
    ensures
        r == uid_in(lines(content@)),
{
    let list = split_lines(content);
    let ghost all = texts(list@);
    let mut i: usize = 0;
    assert(all.skip(0) =~= all);
    while i < list.len()
        invariant
            i <= list@.len(),
            all == texts(list@),
            all == lines(content@),
            uid_in(all.skip(i as int)) == uid_in(all),
        decreases list@.len() - i,
    {
        assert(all.skip(i as int)[0] == list@[i as int]@);
        match strip(list[i].as_str(), "Uid:") {
            Some(rest) => {
                let parts = split_words(rest.as_str());
                assert(texts(parts@).len() == parts@.len());
                if parts.len() == 0 {
                    return None;
                }
                assert(texts(parts@)[0] == parts@[0]@);
                return parse_u32(parts[0].as_str());
            },
            None => {},
        }
        assert(all.skip(i as int).skip(1) =~= all.skip(i + 1));
        i += 1;
    }
    None
}

/// The number of bytes in the last line that starts with a label, zero where it is no number.
pub open spec fn counter_in(list: Seq<Seq<char>>, label: Seq<char>) -> u64
    decreases list.len(),
{
    if list.len() == 0 {
        0
    } else {
        match after_prefix(list.last(), label) {
            Some(value) => match number_u64(trimmed(value)) {
                Some(n) => n,
                None => 0,
            },
            None => counter_in(list.drop_last(), label),
        }
    }
}

fn read_counter(value: &str) -> (r: u64)
    ensures
        r == (match number_u64(trimmed(value@)) {
            Some(n) => n,
            None => 0,
        }),
{
    let text = trim(value);
    match parse_u64(text.as_str()) {
        Some(n) => n,
        None => 0,
    }
}

/// Parse the bytes read and written out of /proc/[pid]/io
pub fn parse_io_stats(content: &str) -> (r: (u64, u64))
    ensures
        r.0 == counter_in(lines(content@), "read_bytes: "@),
        r.1 == counter_in(lines(content@), "write_bytes: "@),
{
    let list = split_lines(content);
    let ghost all = texts(list@);
    let mut read_bytes: u64 = 0;
    let mut write_bytes: u64 = 0;
    let mut i: usize = 0;
    while i < list.len()
        invariant
            i <= list@.len(),
            all == texts(list@),
            read_bytes == counter_in(all.take(i as int), "read_bytes: "@),
            write_bytes == counter_in(all.take(i as int), "write_bytes: "@),
        decreases list@.len() - i,
    {
        proof {
            assert(all.take(i + 1).drop_last() =~= all.take(i as int));
            assert(all.take(i + 1).last() == list@[i as int]@);
        }
        match strip(list[i].as_str(), "read_bytes: ") {
            Some(value) => {
                read_bytes = read_counter(value.as_str());
            },
            None => {},
        }
        match strip(list[i].as_str(), "write_bytes: ") {
            Some(value) => {
                write_bytes = read_counter(value.as_str());
            },
            None => {},
        }
        i += 1;
    }
    assert(all.take(all.len() as int) =~= all);
    (read_bytes, write_bytes)
}

/// A user ID and the name that goes with it.
pub open spec fn passwd_entry(line: Seq<char>) -> Option<(u32, Seq<char>)> {
    let parts = fields(line, ':');
    if parts.len() < 3 {
        None
    } else {
        match number_u32(parts[2]) {
            Some(uid) => Some((uid, parts[0])),
            None => None,
        }
    }
}

/// The users that the lines of a password file name.
pub open spec fn passwd_entries(list: Seq<Seq<char>>) -> Seq<(u32, Seq<char>)>
    decreases list.len(),
{
    if list.len() == 0 {
        seq![]
    } else {
        let before = passwd_entries(list.drop_last());
        match passwd_entry(list.last()) {
            Some(entry) => before.push(entry),
            None => before,
        }
    }
}

/// The name of a user: the last that is given for the user ID, or else the ID in digits.
pub open spec fn user_name(users: Seq<(u32, Seq<char>)>, uid: u32) -> Seq<char>
    decreases users.len(),
{
    if users.len() == 0 {
        decimal(uid as nat)
    } else if users.last().0 == uid {
        users.last().1
    } else {
        user_name(users.drop_last(), uid)
    }
}

/// The names of users by their user IDs
#[derive(Debug)]
pub struct Users {
    entries: Vec<(u32, String)>,
}

impl View for Users {
    type V = Seq<(u32, Seq<char>)>;

    closed spec fn view(&self) -> Seq<(u32, Seq<char>)> {
        self.entries@.map_values(|e: (u32, String)| (e.0, e.1@))
    }
}

impl Users {
    /// The users that a password file names.
    pub fn parse(content: &str) -> (r: Self)
        ensures
            r@ == passwd_entries(lines(content@)),
    {
        let list = split_lines(content);
        let ghost all = texts(list@);
        let mut users = Users { entries: Vec::new() };
        let mut i: usize = 0;
        assert(users@ =~= passwd_entries(all.take(0)));
        while i < list.len()
            invariant
                i <= list@.len(),
                all == texts(list@),
                users@ == passwd_entries(all.take(i as int)),
            decreases list@.len() - i,
        {
            proof {
                assert(all.take(i + 1).drop_last() =~= all.take(i as int));
                assert(all.take(i + 1).last() == list@[i as int]@);
            }
            let parts = split_on(list[i].as_str(), ':');
            assert(texts(parts@).len() == parts@.len());
            if parts.len() >= 3 {
                assert(texts(parts@)[0] == parts@[0]@ && texts(parts@)[2] == parts@[2]@);
                match parse_u32(parts[2].as_str()) {
                    Some(uid) => {
                        let ghost before = users@;
                        users.entries.push((uid, parts[0].clone()));
                        assert(users@ =~= before.push((uid, parts@[0]@)));
                    },
                    None => {},
                }
            }
            i += 1;
        }
        assert(all.take(all.len() as int) =~= all);
        users
    }

    /// No user is known by name.
    pub fn none() -> (r: Self)
        ensures
            r@ == Seq::<(u32, Seq<char>)>::empty(),
    {
        let r = Users { entries: Vec::new() };
        assert(r@ =~= Seq::<(u32, Seq<char>)>::empty());
        r
    }

    /// Get username from UID
    pub fn get_username(&self, uid: u32) -> (r: String)
        ensures
            r@ == user_name(self@, uid),
    {
        let mut n: usize = self.entries.len();
        assert(self@.take(n as int) =~= self@);
        while n > 0
            invariant
                n <= self.entries@.len(),
                user_name(self@.take(n as int), uid) == user_name(self@, uid),
            decreases n,
        {
            assert(self@.take(n as int).last() == self@[n - 1]);
            if self.entries[n - 1].0 == uid {
                return self.entries[n - 1].1.clone();
            }
            assert(self@.take(n as int).drop_last() =~= self@.take(n - 1));
            n -= 1;
        }
        decimal_text(uid as u128)
    }
}

/// The name that is shown for a process.
pub open spec fn shown_name(cmdline: Option<Seq<char>>, comm: Seq<char>) -> Seq<char> {
    match cmdline {
        Some(text) => match command_name(text) {
            Some(name) => name,
            None => comm,
        },
        None => comm,
    }
}

/// The user ID that a status file gives, zero where it gives none.
pub open spec fn owner(status: Option<Seq<char>>) -> u32 {
    match status {
        Some(text) => match uid_in(lines(text)) {
            Some(uid) => uid,
            None => 0,
        },
        None => 0,
    }
}

/// The bytes read and written, zero where they could not be read.
pub open spec fn io_counters(io: Option<Seq<char>>) -> (u64, u64) {
    match io {
        Some(text) => (
            counter_in(lines(text), "read_bytes: "@),
            counter_in(lines(text), "write_bytes: "@),
        ),
        None => (0, 0),
    }
}

/// What the files of a process say of it; a process without a readable stat line is none.
pub open spec fn process_read(files: ProcFilesView, users: Seq<(u32, Seq<char>)>) -> Option<
    ProcessView,
> {
    match files.stat {
        None => None,
        Some(text) => match stat_read(text) {
            None => None,
            Some(stat) => Some(
                ProcessView {
                    pid: files.pid,
                    ppid: stat.ppid,
                    starttime: stat.starttime,
                    name: shown_name(files.cmdline, stat.comm),
                    cmdline: match files.cmdline {
                        Some(cmdline) => full_command(cmdline),
                        None => None,
                    },
                    user: user_name(users, owner(files.status)),
                    state: state_of(stat.state),
                    utime: stat.utime,
                    stime: stat.stime,
                    rss: stat.rss.wrapping_mul(PAGE_SIZE),
                    vsize: stat.vsize,
                    num_threads: stat.num_threads,
                    cpu_percent: no_rate(),
                    io_read_bytes: io_counters(files.io).0,
                    io_write_bytes: io_counters(files.io).1,
                    io_read_rate: no_rate(),
                    io_write_rate: no_rate(),
                },
            ),
        },
    }
}

/// The processes that a list of files describes.
pub open spec fn processes_read(
    list: Seq<ProcFilesView>,
    users: Seq<(u32, Seq<char>)>,
) -> Seq<ProcessView>
    decreases list.len(),
{
    if list.len() == 0 {
        seq![]
    } else {
        let before = processes_read(list.drop_last(), users);
        match process_read(list.last(), users) {
            Some(p) => before.push(p),
            None => before,
        }
    }
}

/// The stat line of a process can be read, where it is there.
pub open spec fn files_are_whole(files: ProcFilesView) -> bool {
    match files.stat {
        Some(text) => stat_is_whole(text),
        None => true,
    }
}

pub open spec fn all_whole(list: Seq<ProcFilesView>) -> bool {
    forall|i: int| 0 <= i < list.len() ==> #[trigger] files_are_whole(list[i])
}

/// Tests whether the stat lines of all processes can be read.
pub fn are_whole(list: &Vec<ProcFiles>) -> (r: bool)
    ensures
        r == all_whole(views(list@)),
{
    let mut i: usize = 0;
    while i < list.len()
        invariant
            i <= list@.len(),
            forall|j: int| 0 <= j < i ==> #[trigger] files_are_whole(views(list@)[j]),
        decreases list@.len() - i,
    {
        let whole = match &list[i].stat {
            Some(text) => is_whole_stat(text.as_str()),
            None => true,
        };
        assert(whole == files_are_whole(views(list@)[i as int]));
        if !whole {
            return false;
        }
        i += 1;
    }
    true
}

pub open spec fn process_in(r: Option<Process>) -> Option<ProcessView> {
    match r {
        Some(p) => Some(p@),
        None => None,
    }
}

/// Parse a single process from its files
pub fn parse_process(files: &ProcFiles, users: &Users) -> (r: Option<Process>)
    requires
        files_are_whole(files@),
    ensures
        process_in(r) == process_read(files@, users@),
{
    let stat = match &files.stat {
        Some(text) => match parse_proc_stat(text.as_str()) {
            Some(stat) => stat,
            None => {
                return None;
            },
        },
        None => {
            return None;
        },
    };
    let from_cmdline = match &files.cmdline {
        Some(text) => parse_cmdline_name(text.as_str()),
        None => None,
    };
    let name = match from_cmdline {
        Some(name) => name,
        None => stat.comm.clone(),
    };
    let cmdline = match &files.cmdline {
        Some(text) => parse_full_cmdline(text.as_str()),
        None => None,
    };
    let from_status: Option<u32> = match &files.status {
        Some(text) => parse_uid_from_status(text.as_str()),
        None => None,
    };
    let uid: u32 = match from_status {
        Some(uid) => uid,
        None => 0,
    };
    let user = users.get_username(uid);
    let io: (u64, u64) = match &files.io {
        Some(text) => parse_io_stats(text.as_str()),
        None => (0, 0),
    };
    let pending = Rate { bits: PENDING };
    Some(
        Process {
            pid: files.pid,
            ppid: stat.ppid,
            starttime: stat.starttime,
            name,
            cmdline,
            user,
            state: ProcessState::from(stat.state),
            utime: stat.utime,
            stime: stat.stime,
            rss: stat.rss.wrapping_mul(PAGE_SIZE),
            vsize: stat.vsize,
            num_threads: stat.num_threads,
            cpu_percent: pending,
            io_read_bytes: io.0,
            io_write_bytes: io.1,
            io_read_rate: pending,
            io_write_rate: pending,
        },
    )
}

/// Parse multiple processes given their files
pub fn parse_processes(list: &Vec<ProcFiles>, users: &Users) -> (r: Vec<Process>)
    requires
        all_whole(views(list@)),
    ensures
        views(r@) == processes_read(views(list@), users@),
{
    let ghost all = views(list@);
    let mut out: Vec<Process> = Vec::new();
    let mut i: usize = 0;
    assert(views(out@) =~= processes_read(all.take(0), users@));
    while i < list.len()
        invariant
            i <= list@.len(),
            all == views(list@),
            all_whole(all),
            views(out@) == processes_read(all.take(i as int), users@),
        decreases list@.len() - i,
    {
        proof {
            assert(all.take(i + 1).drop_last() =~= all.take(i as int));
            assert(all.take(i + 1).last() == list@[i as int]@);
            assert(files_are_whole(all[i as int]));
        }
        match parse_process(&list[i], users) {
            Some(p) => {
                let ghost before = out@;
                out.push(p);
                assert(views(out@) =~= views(before).push(p@));
            },
            None => {},
        }
        i += 1;
    }
    assert(all.take(all.len() as int) =~= all);
    out
}

}
