//! Processes and the trees that their parent relation makes of them.

use vstd::prelude::*;
use crate::model::views;
use crate::rate::Rate;
use crate::text::text_in;

verus! {

/// Process state as reported in /proc/[pid]/stat
#[derive(Debug, Clone, Copy, PartialEq, Eq, Structural)]
pub enum ProcessState {
    Running,
    Sleeping,
    DiskSleep,
    Stopped,
    Zombie,
    Dead,
    Idle,
    Unknown,
}

/// The state that a letter stands for.
pub open spec fn state_of(c: char) -> ProcessState {
    if c == 'R' {
        ProcessState::Running
    } else if c == 'S' {
        ProcessState::Sleeping
    } else if c == 'D' {
        ProcessState::DiskSleep
    } else if c == 'T' || c == 't' {
        ProcessState::Stopped
    } else if c == 'Z' {
        ProcessState::Zombie
    } else if c == 'X' || c == 'x' {
        ProcessState::Dead
    } else if c == 'I' {
        ProcessState::Idle
    } else {
        ProcessState::Unknown
    }
}

impl From<char> for ProcessState {
    fn from(c: char) -> (r: Self) {
        match c {
            'R' => ProcessState::Running,
            'S' => ProcessState::Sleeping,
            'D' => ProcessState::DiskSleep,
            'T' | 't' => ProcessState::Stopped,
            'Z' => ProcessState::Zombie,
            'X' | 'x' => ProcessState::Dead,
            'I' => ProcessState::Idle,
            _ => ProcessState::Unknown,
        }
    }
}

impl vstd::std_specs::convert::FromSpecImpl<char> for ProcessState {
    open spec fn obeys_from_spec() -> bool {
        true
    }

    open spec fn from_spec(c: char) -> ProcessState {
        state_of(c)
    }
}

impl ProcessState {
    /// The letter that is shown for the state.
    pub open spec fn letter(self) -> char {
        match self {
            ProcessState::Running => 'R',
            ProcessState::Sleeping => 'S',
            ProcessState::DiskSleep => 'D',
            ProcessState::Stopped => 'T',
            ProcessState::Zombie => 'Z',
            ProcessState::Dead => 'X',
            ProcessState::Idle => 'I',
            ProcessState::Unknown => '?',
        }
    }

    /// The letter of the state.
    pub fn as_char(&self) -> (c: char)
        ensures
            c == self.letter(),
    {
        match self {
            ProcessState::Running => 'R',
            ProcessState::Sleeping => 'S',
            ProcessState::DiskSleep => 'D',
            ProcessState::Stopped => 'T',
            ProcessState::Zombie => 'Z',
            ProcessState::Dead => 'X',
            ProcessState::Idle => 'I',
            ProcessState::Unknown => '?',
        }
    }
}

/// The letter of a state stands for that state.
pub proof fn state_letter_reads_back(s: ProcessState)
    ensures
        state_of(s.letter()) == s,
{
}

/// Each state has its letters, two of them a second one, and no other letter stands for any.
pub proof fn states_have_their_letters(c: char)
    ensures
        state_of(c) is Running <==> c == 'R',
        state_of(c) is Sleeping <==> c == 'S',
        state_of(c) is DiskSleep <==> c == 'D',
        state_of(c) is Stopped <==> c == 'T' || c == 't',
        state_of(c) is Zombie <==> c == 'Z',
        state_of(c) is Dead <==> c == 'X' || c == 'x',
        state_of(c) is Idle <==> c == 'I',
{
}

/// Information about a single process
#[derive(Debug)]
pub struct Process {
    /// Process ID
    pub pid: u32,
    /// Parent process ID
    pub ppid: u32,
    /// Start time of the process, in clock ticks after boot
    pub starttime: u64,
    /// Process name (comm or basename of the command)
    pub name: String,
    /// Full command line
    pub cmdline: Option<String>,
    /// Username of the process owner
    pub user: String,
    /// Process state
    pub state: ProcessState,
    /// User CPU time in clock ticks
    pub utime: u64,
    /// System CPU time in clock ticks
    pub stime: u64,
    /// Resident set size in bytes
    pub rss: u64,
    /// Virtual memory size in bytes
    pub vsize: u64,
    /// Number of threads
    pub num_threads: u32,
    /// CPU percentage (calculated between samples)
    pub cpu_percent: Rate,
    /// Block I/O read bytes (from /proc/[pid]/io)
    pub io_read_bytes: u64,
    /// Block I/O write bytes (from /proc/[pid]/io)
    pub io_write_bytes: u64,
    /// Block I/O read rate in bytes/sec (calculated between samples)
    pub io_read_rate: Rate,
    /// Block I/O write rate in bytes/sec (calculated between samples)
    pub io_write_rate: Rate,
}

/// What is known of a process.
pub struct ProcessView {
    pub pid: u32,
    pub ppid: u32,
    pub starttime: u64,
    pub name: Seq<char>,
    pub cmdline: Option<Seq<char>>,
    pub user: Seq<char>,
    pub state: ProcessState,
    pub utime: u64,
    pub stime: u64,
    pub rss: u64,
    pub vsize: u64,
    pub num_threads: u32,
    pub cpu_percent: Rate,
    pub io_read_bytes: u64,
    pub io_write_bytes: u64,
    pub io_read_rate: Rate,
    pub io_write_rate: Rate,
}

impl View for Process {
    type V = ProcessView;

    open spec fn view(&self) -> ProcessView {
        ProcessView {
            pid: self.pid,
            ppid: self.ppid,
            starttime: self.starttime,
            name: self.name@,
            cmdline: text_in(self.cmdline),
            user: self.user@,
            state: self.state,
            utime: self.utime,
            stime: self.stime,
            rss: self.rss,
            vsize: self.vsize,
            num_threads: self.num_threads,
            cpu_percent: self.cpu_percent,
            io_read_bytes: self.io_read_bytes,
            io_write_bytes: self.io_write_bytes,
            io_read_rate: self.io_read_rate,
            io_write_rate: self.io_write_rate,
        }
    }
}

/// A copy of an optional text.
pub fn copy_text(s: &Option<String>) -> (r: Option<String>)
    ensures
        text_in(r) == text_in(*s),
{
    match s {
        Some(t) => Some(t.clone()),
        None => None,
    }
}

impl Clone for Process {
    fn clone(&self) -> (r: Self)
        ensures
            r@ == self@,
    {
        Process {
            pid: self.pid,
            ppid: self.ppid,
            starttime: self.starttime,
            name: self.name.clone(),
            cmdline: copy_text(&self.cmdline),
            user: self.user.clone(),
            state: self.state,
            utime: self.utime,
            stime: self.stime,
            rss: self.rss,
            vsize: self.vsize,
            num_threads: self.num_threads,
            cpu_percent: self.cpu_percent,
            io_read_bytes: self.io_read_bytes,
            io_write_bytes: self.io_write_bytes,
            io_read_rate: self.io_read_rate,
            io_write_rate: self.io_write_rate,
        }
    }
}

impl ProcessView {
    /// The CPU time in clock ticks, in both modes.
    pub open spec fn ticks(self) -> u64 {
        self.utime.wrapping_add(self.stime)
    }
}

impl Process {
    /// Total CPU time in clock ticks
    pub fn total_time(&self) -> (r: u64)
        ensures
            r == self@.ticks(),
    {
        self.utime.wrapping_add(self.stime)
    }
}

/// A copy of a list of processes.
pub fn copy_processes(list: &Vec<Process>) -> (r: Vec<Process>)
    ensures
        views(r@) == views(list@),
{
    let mut out: Vec<Process> = Vec::new();
    let mut i: usize = 0;
    while i < list.len()
        invariant
            i <= list@.len(),
            out@.len() == i,
            forall|j: int| 0 <= j < i ==> (#[trigger] out@[j])@ == list@[j]@,
        decreases list@.len() - i,
    {
        out.push(list[i].clone());
        i += 1;
    }
    assert(views(out@) =~= views(list@));
    out
}

/// A node in the process tree (within a cgroup)
#[derive(Debug)]
pub struct ProcessNode {
    pub process: Process,
    pub children: Vec<ProcessNode>,
}

/// A process with those that it started.
pub struct ProcessNodeView {
    pub process: ProcessView,
    pub children: Seq<ProcessNodeView>,
}

impl ProcessNode {
    pub open spec fn model(self) -> ProcessNodeView
        decreases self,
    {
        ProcessNodeView {
            process: self.process@,
            children: Seq::new(
                self.children@.len(),
                |i: int|
                    if 0 <= i < self.children@.len() {
                        self.children@[i].model()
                    } else {
                        arbitrary()
                    },
            ),
        }
    }

    /// A process without children.
    pub fn new(process: Process) -> (r: Self)
        ensures
            r@ == (ProcessNodeView { process: process@, children: seq![] }),
    {
        let r = ProcessNode { process, children: Vec::new() };
        assert(r@.children =~= seq![]);
        r
    }
}

impl View for ProcessNode {
    type V = ProcessNodeView;

    open spec fn view(&self) -> ProcessNodeView {
        self.model()
    }
}

/// A tree of processes built from PPID relationships
#[derive(Debug)]
pub struct ProcessTree {
    /// Root processes (those whose PPID is not in this tree)
    pub roots: Vec<ProcessNode>,
}

impl View for ProcessTree {
    type V = Seq<ProcessNodeView>;

    open spec fn view(&self) -> Seq<ProcessNodeView> {
        views(self.roots@)
    }
}

/// A list in the order of the process IDs with one more process, in place of an earlier one
/// with the same process ID.
pub open spec fn enlisted(list: Seq<ProcessView>, p: ProcessView) -> Seq<ProcessView>
    decreases list.len(),
{
    if list.len() == 0 || list.last().pid < p.pid {
        list.push(p)
    } else if list.last().pid == p.pid {
        list.drop_last().push(p)
    } else {
        enlisted(list.drop_last(), p).push(list.last())
    }
}

/// The processes in the order of their process IDs, of those with the same ID the last.
pub open spec fn roster(processes: Seq<ProcessView>) -> Seq<ProcessView>
    decreases processes.len(),
{
    if processes.len() == 0 {
        seq![]
    } else {
        enlisted(roster(processes.drop_last()), processes.last())
    }
}

/// A process of the list has this process ID.
pub open spec fn listed(list: Seq<ProcessView>, pid: u32) -> bool {
    exists|i: int| 0 <= i < list.len() && (#[trigger] list[i]).pid == pid
}

/// The process at an index with its descendants, down to a number of levels.
pub open spec fn grown(list: Seq<ProcessView>, i: int, levels: nat) -> ProcessNodeView
    decreases levels, list.len() + 1,
{
    ProcessNodeView { process: list[i], children: offspring(list, list[i].pid, list.len(), levels) }
}

/// The children of a process among the first `n`, with their descendants.
pub open spec fn offspring(list: Seq<ProcessView>, pid: u32, n: nat, levels: nat) -> Seq<
    ProcessNodeView,
>
    decreases levels, n,
{
    if n == 0 || levels == 0 {
        seq![]
    } else {
        let before = offspring(list, pid, (n - 1) as nat, levels);
        if list[n - 1].ppid == pid {
            before.push(grown(list, n - 1, (levels - 1) as nat))
        } else {
            before
        }
    }
}

/// The trees of the first `n` processes whose parent is not in the list.
pub open spec fn grown_roots(list: Seq<ProcessView>, n: nat) -> Seq<ProcessNodeView>
    decreases n,
{
    if n == 0 {
        seq![]
    } else {
        let before = grown_roots(list, (n - 1) as nat);
        if listed(list, list[n - 1].ppid) {
            before
        } else {
            before.push(grown(list, n - 1, list.len()))
        }
    }
}

/// The trees that a list of processes forms.
pub open spec fn process_forest(processes: Seq<ProcessView>) -> Seq<ProcessNodeView> {
    let list = roster(processes);
    grown_roots(list, list.len())
}

/// The processes of a roster are in the order of their IDs, each ID once.
pub proof fn roster_is_ascending(processes: Seq<ProcessView>)
    ensures
        forall|i: int, j: int|
            0 <= i < j < roster(processes).len() ==> #[trigger] roster(processes)[i].pid
                < #[trigger] roster(processes)[j].pid,
        forall|pid: u32| listed(roster(processes), pid) == listed(processes, pid),
    decreases processes.len(),
{
    if processes.len() > 0 {
        let front = processes.drop_last();
        roster_is_ascending(front);
        lemma_enlisted(roster(front), processes.last());
        assert forall|pid: u32| listed(roster(processes), pid) == listed(processes, pid) by {
            if listed(front, pid) {
                let i = choose|i: int| 0 <= i < front.len() && (#[trigger] front[i]).pid == pid;
                assert(processes[i] == front[i]);
            }
            if listed(processes, pid) {
                let i = choose|i: int|
                    0 <= i < processes.len() && (#[trigger] processes[i]).pid == pid;
                if i < front.len() {
                    assert(front[i] == processes[i]);
                }
            }
            assert(processes[processes.len() - 1] == processes.last());
        }
    }
}

proof fn lemma_enlisted(list: Seq<ProcessView>, p: ProcessView)
    requires
        forall|i: int, j: int| 0 <= i < j < list.len() ==> #[trigger] list[i].pid < #[trigger] list[j].pid,
    ensures
        ({
            let r = enlisted(list, p);
            &&& forall|i: int, j: int| 0 <= i < j < r.len() ==> #[trigger] r[i].pid < #[trigger] r[j].pid
            &&& forall|pid: u32| listed(r, pid) == (listed(list, pid) || pid == p.pid)
        }),
    decreases list.len(),
{
    let r = enlisted(list, p);
    if list.len() > 0 {
        assert(list[list.len() - 1] == list.last());
    }
    if list.len() == 0 || list.last().pid < p.pid {
        assert forall|pid: u32| listed(r, pid) == (listed(list, pid) || pid == p.pid) by {
            if listed(list, pid) {
                let i = choose|i: int| 0 <= i < list.len() && (#[trigger] list[i]).pid == pid;
                assert(r[i] == list[i]);
            }
            assert(r[list.len() as int] == p);
        }
    } else if list.last().pid == p.pid {
        assert forall|pid: u32| listed(r, pid) == (listed(list, pid) || pid == p.pid) by {
            if listed(list, pid) {
                let i = choose|i: int| 0 <= i < list.len() && (#[trigger] list[i]).pid == pid;
                if i < list.len() - 1 {
                    assert(r[i] == list[i]);
                }
            }
            assert(r[list.len() - 1] == p);
            if listed(r, pid) {
                let i = choose|i: int| 0 <= i < r.len() && (#[trigger] r[i]).pid == pid;
                if i < list.len() - 1 {
                    assert(r[i] == list[i]);
                }
            }
        }
    } else {
        let front = list.drop_last();
        let s = enlisted(front, p);
        lemma_enlisted(front, p);
        assert(r == s.push(list.last()));
        assert forall|i: int, j: int| 0 <= i < j < r.len() implies #[trigger] r[i].pid
            < #[trigger] r[j].pid by {
            if j == s.len() {
                assert(s[i] == r[i]);
                assert(listed(s, s[i].pid));
                if listed(front, s[i].pid) {
                    let k = choose|k: int|
                        0 <= k < front.len() && (#[trigger] front[k]).pid == s[i].pid;
                    assert(list[k] == front[k]);
                }
            } else {
                assert(r[i] == s[i] && r[j] == s[j]);
            }
        }
        assert forall|pid: u32| listed(r, pid) == (listed(list, pid) || pid == p.pid) by {
            if listed(s, pid) {
                let i = choose|i: int| 0 <= i < s.len() && (#[trigger] s[i]).pid == pid;
                assert(r[i] == s[i]);
            }
            if listed(front, pid) {
                let i = choose|i: int| 0 <= i < front.len() && (#[trigger] front[i]).pid == pid;
                assert(list[i] == front[i]);
            }
            if listed(list, pid) {
                let i = choose|i: int| 0 <= i < list.len() && (#[trigger] list[i]).pid == pid;
                if i < front.len() {
                    assert(front[i] == list[i]);
                }
            }
            if listed(r, pid) {
                let i = choose|i: int| 0 <= i < r.len() && (#[trigger] r[i]).pid == pid;
                if i < s.len() {
                    assert(s[i] == r[i]);
                }
            }
            assert(r[s.len() as int] == list.last());
        }
    }
}

/// Where one more process goes in a list.
proof fn lemma_enlisted_at(list: Seq<ProcessView>, p: ProcessView, pos: int)
    requires
        0 <= pos <= list.len(),
        forall|j: int| pos <= j < list.len() ==> p.pid < (#[trigger] list[j]).pid,
        pos > 0 ==> list[pos - 1].pid <= p.pid,
    ensures
        enlisted(list, p) == (if pos > 0 && list[pos - 1].pid == p.pid {
            list.update(pos - 1, p)
        } else {
            list.insert(pos, p)
        }),
    decreases list.len(),
{
    if pos == list.len() {
        assert(list.insert(pos, p) =~= list.push(p));
        if pos > 0 && list[pos - 1].pid == p.pid {
            assert(list.update(pos - 1, p) =~= list.drop_last().push(p));
        }
    } else {
        let front = list.drop_last();
        assert(p.pid < list[list.len() - 1].pid);
        assert forall|j: int| pos <= j < front.len() implies p.pid < (#[trigger] front[j]).pid by {
            assert(front[j] == list[j]);
        }
        lemma_enlisted_at(front, p, pos);
        if pos > 0 && list[pos - 1].pid == p.pid {
            assert(list.update(pos - 1, p) =~= front.update(pos - 1, p).push(list.last()));
        } else {
            assert(list.insert(pos, p) =~= front.insert(pos, p).push(list.last()));
        }
    }
}

fn enlist(list: &mut Vec<Process>, p: Process)
    ensures
        views(final(list)@) == enlisted(views(old(list)@), p@),
{
    let ghost before = views(list@);
    let mut pos: usize = list.len();
    while pos > 0 && p.pid < list[pos - 1].pid
        invariant
            pos <= list@.len(),
            before == views(list@),
            forall|j: int| pos <= j < list@.len() ==> p.pid < (#[trigger] before[j]).pid,
        ensures
            pos <= list@.len(),
            before == views(list@),
            forall|j: int| pos <= j < list@.len() ==> p.pid < (#[trigger] before[j]).pid,
            pos > 0 ==> before[pos - 1].pid <= p.pid,
        decreases pos,
    {
        pos -= 1;
    }
    proof {
        lemma_enlisted_at(before, p@, pos as int);
    }
    let ghost held = list@;
    let ghost added = p;
    if pos > 0 && list[pos - 1].pid == p.pid {
        list.set(pos - 1, p);
        assert(views(list@) =~= before.update(pos - 1, added@));
    } else {
        list.insert(pos, p);
        assert(views(list@) =~= before.insert(pos as int, added@));
    }
}

/// Tests whether a process of the list has this process ID.
pub fn is_listed(list: &Vec<Process>, pid: u32) -> (r: bool)
    ensures
        r == listed(views(list@), pid),
{
    let mut i: usize = 0;
    while i < list.len()
        invariant
            i <= list@.len(),
            forall|j: int| 0 <= j < i ==> (#[trigger] views(list@)[j]).pid != pid,
        decreases list@.len() - i,
    {
        if list[i].pid == pid {
            assert(views(list@)[i as int].pid == pid);
            return true;
        }
        i += 1;
    }
    false
}

/// The process at an index with its descendants.
fn grow(list: &Vec<Process>, at: usize, levels: usize) -> (r: ProcessNode)
    requires
        at < list@.len(),
    ensures
        r@ == grown(views(list@), at as int, levels as nat),
    decreases levels,
{
    let ghost all = views(list@);
    let pid: u32 = list[at].pid;
    let mut children: Vec<ProcessNode> = Vec::new();
    if levels > 0 {
        let mut n: usize = 0;
        assert(views(children@) =~= offspring(all, pid, 0, levels as nat));
        while n < list.len()
            invariant
                n <= list@.len(),
                levels > 0,
                all == views(list@),
                views(children@) == offspring(all, pid, n as nat, levels as nat),
            decreases list@.len() - n,
        {
            if list[n].ppid == pid {
                let child = grow(list, n, levels - 1);
                let ghost held = children@;
                children.push(child);
                assert(views(children@) =~= views(held).push(child@));
            }
            n += 1;
        }
    } else {
        assert(views(children@) =~= offspring(all, pid, all.len(), 0));
    }
    let r = ProcessNode { process: list[at].clone(), children };
    assert(r@.children =~= views(children@));
    r
}

impl ProcessTree {
    /// Build a process tree from a flat list of processes
    pub fn from_processes(processes: Vec<Process>) -> (r: Self)
        ensures
            r@ == process_forest(views(processes@)),
    {
        let ghost all = views(processes@);
        let mut list: Vec<Process> = Vec::new();
        let mut i: usize = 0;
        assert(views(list@) =~= roster(all.take(0)));
        while i < processes.len()
            invariant
                i <= processes@.len(),
                all == views(processes@),
                views(list@) == roster(all.take(i as int)),
            decreases processes@.len() - i,
        {
            enlist(&mut list, processes[i].clone());
            assert(all.take(i + 1).drop_last() =~= all.take(i as int));
            i += 1;
        }
        assert(all.take(all.len() as int) =~= all);
        let ghost members = views(list@);
        let mut roots: Vec<ProcessNode> = Vec::new();
        let mut n: usize = 0;
        assert(views(roots@) =~= grown_roots(members, 0));
        while n < list.len()
            invariant
                n <= list@.len(),
                members == views(list@),
                views(roots@) == grown_roots(members, n as nat),
            decreases list@.len() - n,
        {
            if !is_listed(&list, list[n].ppid) {
                let root = grow(&list, n, list.len());
                let ghost held = roots@;
                roots.push(root);
                assert(views(roots@) =~= views(held).push(root@));
            }
            n += 1;
        }
        ProcessTree { roots }
    }
}

impl Default for ProcessTree {
    fn default() -> (r: Self)
        ensures
            r@ == Seq::<ProcessNodeView>::empty(),
    {
        let r = ProcessTree { roots: Vec::new() };
        assert(r@ =~= Seq::<ProcessNodeView>::empty());
        r
    }
}

/// In a tree of processes every child names its parent.
pub proof fn children_name_their_parent(
    list: Seq<ProcessView>,
    pid: u32,
    n: nat,
    levels: nat,
    k: int,
)
    requires
        n <= list.len(),
        0 <= k < offspring(list, pid, n, levels).len(),
    ensures
        offspring(list, pid, n, levels)[k].process.ppid == pid,
    decreases n,
{
    let before = offspring(list, pid, (n - 1) as nat, levels);
    if k < before.len() {
        children_name_their_parent(list, pid, (n - 1) as nat, levels, k);
    } else {
        assert(grown(list, n - 1, (levels - 1) as nat).process == list[n - 1]);
    }
}

/// The root of a tree of processes names a parent that is not in the list.
pub proof fn roots_have_no_parent(list: Seq<ProcessView>, n: nat, k: int)
    requires
        n <= list.len(),
        0 <= k < grown_roots(list, n).len(),
    ensures
        !listed(list, grown_roots(list, n)[k].process.ppid),
    decreases n,
{
    let before = grown_roots(list, (n - 1) as nat);
    if k < before.len() {
        roots_have_no_parent(list, (n - 1) as nat, k);
    }
}

/// Every child stands lower than its parent: nothing descends from itself.
pub open spec fn descends(list: Seq<ProcessView>, height: Seq<nat>) -> bool {
    &&& height.len() == list.len()
    &&& forall|i: int, j: int|
        0 <= i < list.len() && 0 <= j < list.len() && #[trigger] list[j].ppid == #[trigger] list[i].pid
            ==> height[j] < height[i]
}

/// Where nothing descends from itself, the levels above a process's height add nothing: all its
/// descendants are in its tree.
pub proof fn levels_above_height_add_nothing(
    list: Seq<ProcessView>,
    height: Seq<nat>,
    i: int,
    a: nat,
    b: nat,
)
    requires
        descends(list, height),
        0 <= i < list.len(),
        height[i] <= a,
        height[i] <= b,
    ensures
        grown(list, i, a) == grown(list, i, b),
    decreases height[i], list.len() + 1,
{
    lemma_offspring_levels(list, height, i, list.len(), a, b);
}

proof fn lemma_offspring_levels(
    list: Seq<ProcessView>,
    height: Seq<nat>,
    i: int,
    n: nat,
    a: nat,
    b: nat,
)
    requires
        descends(list, height),
        0 <= i < list.len(),
        n <= list.len(),
        height[i] <= a,
        height[i] <= b,
    ensures
        offspring(list, list[i].pid, n, a) == offspring(list, list[i].pid, n, b),
    decreases height[i], n,
{
    if n > 0 {
        lemma_offspring_levels(list, height, i, (n - 1) as nat, a, b);
        if list[n - 1].ppid == list[i].pid {
            assert(height[n - 1] < height[i]);
            levels_above_height_add_nothing(
                list,
                height,
                n - 1,
                (a - 1) as nat,
                (b - 1) as nat,
            );
        }
    }
}

}
