//! Slurm CLI integration: what scontrol is asked about a job, and what its answers say.

use vstd::prelude::*;
use crate::number::{
    decimal, decimal_text, number_i32, number_u32, parse_i32, parse_u32,
};
use crate::process::parser::{is_blank, without_blanks};
use crate::text::{
    concat, contains, fields, first_cut, holds, join, joined, lines, same_text, split_lines,
    split_on, split_words, texts, words, Cut,
};

verus! {

/// Job state as reported by Slurm
#[derive(Debug, PartialEq, Eq)]
pub enum JobState {
    Pending,
    Running,
    Suspended,
    Completing,
    Completed,
    Cancelled,
    Failed,
    Timeout,
    NodeFail,
    Unknown(String),
}

/// What a job state stands for.
pub enum JobStateView {
    Pending,
    Running,
    Suspended,
    Completing,
    Completed,
    Cancelled,
    Failed,
    Timeout,
    NodeFail,
    Unknown(Seq<char>),
}

impl View for JobState {
    type V = JobStateView;

    open spec fn view(&self) -> JobStateView {
        match self {
            JobState::Pending => JobStateView::Pending,
            JobState::Running => JobStateView::Running,
            JobState::Suspended => JobStateView::Suspended,
            JobState::Completing => JobStateView::Completing,
            JobState::Completed => JobStateView::Completed,
            JobState::Cancelled => JobStateView::Cancelled,
            JobState::Failed => JobStateView::Failed,
            JobState::Timeout => JobStateView::Timeout,
            JobState::NodeFail => JobStateView::NodeFail,
            JobState::Unknown(name) => JobStateView::Unknown(name@),
        }
    }
}

/// The text in upper case: what `str::to_uppercase` makes of it.
pub uninterp spec fn upper(s: Seq<char>) -> Seq<char>;

/// Every character is one of ASCII.
pub open spec fn is_ascii(s: Seq<char>) -> bool {
    forall|i: int| 0 <= i < s.len() ==> (#[trigger] s[i] as int) < 0x80
}

/// A letter of ASCII in upper case; any other character as it is.
pub open spec fn ascii_capital(c: char) -> char {
    if 'a' as int <= c as int <= 'z' as int {
        (c as int - 32) as char
    } else {
        c
    }
}

/// A letter of ASCII in lower case; any other character as it is.
pub open spec fn ascii_small(c: char) -> char {
    if 'A' as int <= c as int <= 'Z' as int {
        (c as int + 32) as char
    } else {
        c
    }
}

/// A text with its ASCII letters in upper case.
pub open spec fn ascii_upper(s: Seq<char>) -> Seq<char> {
    s.map_values(|c: char| ascii_capital(c))
}

/// A text with its ASCII letters in lower case.
pub open spec fn ascii_lower(s: Seq<char>) -> Seq<char> {
    s.map_values(|c: char| ascii_small(c))
}

/// `str::to_uppercase` gives the upper case of a text, by the rules of Unicode: it depends on the
/// text alone. Of a text in ASCII it is claimed that the letters `a` to `z` become `A` to `Z` and
/// all else stays; of other texts nothing more is claimed.
#[verifier::external_body]
fn to_upper(s: &str) -> (r: String)
    ensures
        r@ == upper(s@),
        is_ascii(s@) ==> r@ == ascii_upper(s@),
{
    s.to_uppercase()
}

/// The upper case of a text: letter by letter in ASCII, else by the rules of Unicode.
pub open spec fn capitals(s: Seq<char>) -> Seq<char> {
    if is_ascii(s) {
        ascii_upper(s)
    } else {
        upper(s)
    }
}

/// The state that a name in upper case stands for, in full or in short.
pub open spec fn state_named(name: Seq<char>) -> JobStateView {
    if name == "PENDING"@ || name == "PD"@ {
        JobStateView::Pending
    } else if name == "RUNNING"@ || name == "R"@ {
        JobStateView::Running
    } else if name == "SUSPENDED"@ || name == "S"@ {
        JobStateView::Suspended
    } else if name == "COMPLETING"@ || name == "CG"@ {
        JobStateView::Completing
    } else if name == "COMPLETED"@ || name == "CD"@ {
        JobStateView::Completed
    } else if name == "CANCELLED"@ || name == "CA"@ {
        JobStateView::Cancelled
    } else if name == "FAILED"@ || name == "F"@ {
        JobStateView::Failed
    } else if name == "TIMEOUT"@ || name == "TO"@ {
        JobStateView::Timeout
    } else if name == "NODE_FAIL"@ || name == "NF"@ {
        JobStateView::NodeFail
    } else {
        JobStateView::Unknown(name)
    }
}

impl From<&str> for JobState {
    fn from(s: &str) -> (r: Self)
        ensures
            r@ == state_named(capitals(s@)),
    {
        JobState::from_upper(to_upper(s))
    }
}

impl vstd::std_specs::convert::FromSpecImpl<&str> for JobState {
    open spec fn obeys_from_spec() -> bool {
        false
    }

    open spec fn from_spec(s: &str) -> JobState {
        arbitrary()
    }
}

impl JobStateView {
    pub open spec fn running(self) -> bool {
        self is Running || self is Completing
    }

    pub open spec fn finished(self) -> bool {
        self is Completed || self is Cancelled || self is Failed || self is Timeout || self is NodeFail
    }
}

/// The two names of a state, in full and in short.
pub open spec fn names_state(name: Seq<char>, long: Seq<char>, short: Seq<char>) -> bool {
    name == long || name == short
}

/// The states that have names, with both of them: the long and the short name stand for one state,
/// each pair for its own, and no other name stands for any of them.
pub proof fn states_have_two_names(name: Seq<char>)
    ensures
        state_named(name) is Pending <==> names_state(name, "PENDING"@, "PD"@),
        state_named(name) is Running <==> names_state(name, "RUNNING"@, "R"@),
        state_named(name) is Suspended <==> names_state(name, "SUSPENDED"@, "S"@),
        state_named(name) is Completing <==> names_state(name, "COMPLETING"@, "CG"@),
        state_named(name) is Completed <==> names_state(name, "COMPLETED"@, "CD"@),
        state_named(name) is Cancelled <==> names_state(name, "CANCELLED"@, "CA"@),
        state_named(name) is Failed <==> names_state(name, "FAILED"@, "F"@),
        state_named(name) is Timeout <==> names_state(name, "TIMEOUT"@, "TO"@),
        state_named(name) is NodeFail <==> names_state(name, "NODE_FAIL"@, "NF"@),
        state_named(name) is Unknown ==> state_named(name) == JobStateView::Unknown(name),
{
    reveal_strlit("PENDING");
    reveal_strlit("PD");
    reveal_strlit("RUNNING");
    reveal_strlit("R");
    reveal_strlit("SUSPENDED");
    reveal_strlit("S");
    reveal_strlit("COMPLETING");
    reveal_strlit("CG");
    reveal_strlit("COMPLETED");
    reveal_strlit("CD");
    reveal_strlit("CANCELLED");
    reveal_strlit("CA");
    reveal_strlit("FAILED");
    reveal_strlit("F");
    reveal_strlit("TIMEOUT");
    reveal_strlit("TO");
    reveal_strlit("NODE_FAIL");
    reveal_strlit("NF");
    assert("PENDING"@.len() == 7 && "PENDING"@[0] == 'P');
    assert("PD"@.len() == 2 && "PD"@[0] == 'P');
    assert("RUNNING"@.len() == 7 && "RUNNING"@[0] == 'R');
    assert("R"@.len() == 1 && "R"@[0] == 'R');
    assert("SUSPENDED"@.len() == 9 && "SUSPENDED"@[0] == 'S');
    assert("S"@.len() == 1 && "S"@[0] == 'S');
    assert("COMPLETING"@.len() == 10 && "COMPLETING"@[0] == 'C' && "COMPLETING"@[1] == 'O');
    assert("CG"@.len() == 2 && "CG"@[0] == 'C' && "CG"@[1] == 'G');
    assert("COMPLETED"@.len() == 9 && "COMPLETED"@[0] == 'C' && "COMPLETED"@[1] == 'O');
    assert("CD"@.len() == 2 && "CD"@[0] == 'C' && "CD"@[1] == 'D');
    assert("CANCELLED"@.len() == 9 && "CANCELLED"@[0] == 'C' && "CANCELLED"@[1] == 'A');
    assert("CA"@.len() == 2 && "CA"@[0] == 'C' && "CA"@[1] == 'A');
    assert("FAILED"@.len() == 6 && "FAILED"@[0] == 'F');
    assert("F"@.len() == 1 && "F"@[0] == 'F');
    assert("TIMEOUT"@.len() == 7 && "TIMEOUT"@[0] == 'T');
    assert("TO"@.len() == 2 && "TO"@[0] == 'T');
    assert("NODE_FAIL"@.len() == 9 && "NODE_FAIL"@[0] == 'N');
    assert("NF"@.len() == 2 && "NF"@[0] == 'N');
}

/// The case of a name in ASCII plays no part, and one that names no state is kept in upper case.
pub proof fn case_plays_no_part(s: Seq<char>)
    requires
        is_ascii(s),
    ensures
        capitals(s) == ascii_upper(s),
        state_named(capitals(ascii_lower(s))) == state_named(capitals(s)),
        state_named(capitals(ascii_upper(s))) == state_named(capitals(s)),
        state_named(capitals(s)) is Unknown ==> state_named(capitals(s)) == JobStateView::Unknown(
            ascii_upper(s),
        ),
{
    let low = ascii_lower(s);
    let high = ascii_upper(s);
    assert(is_ascii(low)) by {
        assert forall|i: int| 0 <= i < low.len() implies (#[trigger] low[i] as int) < 0x80 by {
            assert((s[i] as int) < 0x80);
        }
    }
    assert(is_ascii(high)) by {
        assert forall|i: int| 0 <= i < high.len() implies (#[trigger] high[i] as int) < 0x80 by {
            assert((s[i] as int) < 0x80);
        }
    }
    assert(ascii_upper(low) =~= high);
    assert(ascii_upper(high) =~= high);
}

/// No job is both running and finished.
pub proof fn running_is_not_finished(state: JobStateView)
    ensures
        !(state.running() && state.finished()),
{
}

impl JobState {
    /// The state that a name in upper case stands for.
    pub fn from_upper(name: String) -> (r: Self)
        ensures
            r@ == state_named(name@),
    {
        let s = name.as_str();
        if same_text(s, "PENDING") || same_text(s, "PD") {
            JobState::Pending
        } else if same_text(s, "RUNNING") || same_text(s, "R") {
            JobState::Running
        } else if same_text(s, "SUSPENDED") || same_text(s, "S") {
            JobState::Suspended
        } else if same_text(s, "COMPLETING") || same_text(s, "CG") {
            JobState::Completing
        } else if same_text(s, "COMPLETED") || same_text(s, "CD") {
            JobState::Completed
        } else if same_text(s, "CANCELLED") || same_text(s, "CA") {
            JobState::Cancelled
        } else if same_text(s, "FAILED") || same_text(s, "F") {
            JobState::Failed
        } else if same_text(s, "TIMEOUT") || same_text(s, "TO") {
            JobState::Timeout
        } else if same_text(s, "NODE_FAIL") || same_text(s, "NF") {
            JobState::NodeFail
        } else {
            JobState::Unknown(name)
        }
    }

    /// Check if the job is in a running state (can be monitored)
    pub fn is_running(&self) -> (r: bool)
        ensures
            r == self@.running(),
    {
        match self {
            JobState::Running | JobState::Completing => true,
            _ => false,
        }
    }

    /// Check if the job has finished
    pub fn is_finished(&self) -> (r: bool)
        ensures
            r == self@.finished(),
    {
        match self {
            JobState::Completed
            | JobState::Cancelled
            | JobState::Failed
            | JobState::Timeout
            | JobState::NodeFail => true,
            _ => false,
        }
    }
}

impl Clone for JobState {
    fn clone(&self) -> (r: Self)
        ensures
            r@ == self@,
    {
        match self {
            JobState::Pending => JobState::Pending,
            JobState::Running => JobState::Running,
            JobState::Suspended => JobState::Suspended,
            JobState::Completing => JobState::Completing,
            JobState::Completed => JobState::Completed,
            JobState::Cancelled => JobState::Cancelled,
            JobState::Failed => JobState::Failed,
            JobState::Timeout => JobState::Timeout,
            JobState::NodeFail => JobState::NodeFail,
            JobState::Unknown(name) => JobState::Unknown(name.clone()),
        }
    }
}

/// Information about a Slurm job
#[derive(Debug)]
pub struct JobInfo {
    /// Job ID
    pub job_id: u32,
    /// Job name
    pub name: String,
    /// Job state
    pub state: JobState,
    /// User who submitted the job
    pub user: String,
    /// Compact nodelist (e.g., "node[001-003]")
    pub nodelist: String,
    /// Number of nodes allocated
    pub num_nodes: u32,
    /// Partition
    pub partition: String,
    /// Exit code (if completed)
    pub exit_code: Option<i32>,
}

/// What is known of a job.
pub struct JobInfoView {
    pub job_id: u32,
    pub name: Seq<char>,
    pub state: JobStateView,
    pub user: Seq<char>,
    pub nodelist: Seq<char>,
    pub num_nodes: u32,
    pub partition: Seq<char>,
    pub exit_code: Option<i32>,
}

impl View for JobInfo {
    type V = JobInfoView;

    open spec fn view(&self) -> JobInfoView {
        JobInfoView {
            job_id: self.job_id,
            name: self.name@,
            state: self.state@,
            user: self.user@,
            nodelist: self.nodelist@,
            num_nodes: self.num_nodes,
            partition: self.partition@,
            exit_code: self.exit_code,
        }
    }
}

impl Clone for JobInfo {
    fn clone(&self) -> (r: Self)
        ensures
            r@ == self@,
    {
        JobInfo {
            job_id: self.job_id,
            name: self.name.clone(),
            state: self.state.clone(),
            user: self.user.clone(),
            nodelist: self.nodelist.clone(),
            num_nodes: self.num_nodes,
            partition: self.partition.clone(),
            exit_code: self.exit_code,
        }
    }
}

/// Why nothing is known of a job
#[derive(Debug, PartialEq, Eq)]
pub enum SlurmError {
    /// scontrol said nothing
    EmptyOutput,
    /// There is no job with this ID
    JobNotFound(u32),
    /// scontrol failed, with what it said
    ScontrolFailed(String),
    /// scontrol could not expand a nodelist, with what it said
    ExpandFailed(String, String),
}

/// What an error stands for.
pub enum SlurmErrorView {
    EmptyOutput,
    JobNotFound(u32),
    ScontrolFailed(Seq<char>),
    ExpandFailed(Seq<char>, Seq<char>),
}

impl View for SlurmError {
    type V = SlurmErrorView;

    open spec fn view(&self) -> SlurmErrorView {
        match self {
            SlurmError::EmptyOutput => SlurmErrorView::EmptyOutput,
            SlurmError::JobNotFound(jobid) => SlurmErrorView::JobNotFound(*jobid),
            SlurmError::ScontrolFailed(said) => SlurmErrorView::ScontrolFailed(said@),
            SlurmError::ExpandFailed(nodelist, said) => {
                SlurmErrorView::ExpandFailed(nodelist@, said@)
            },
        }
    }
}

/// An error in words.
pub open spec fn error_shown(e: SlurmErrorView) -> Seq<char> {
    match e {
        SlurmErrorView::EmptyOutput => "Empty scontrol output"@,
        SlurmErrorView::JobNotFound(jobid) => "Job "@ + decimal(jobid as nat) + " not found"@,
        SlurmErrorView::ScontrolFailed(said) => "scontrol failed: "@ + said,
        SlurmErrorView::ExpandFailed(nodelist, said) => "Failed to expand nodelist '"@ + nodelist
            + "': "@ + said,
    }
}

impl SlurmError {
    /// The error in words.
    pub fn message(&self) -> (r: String)
        ensures
            r@ == error_shown(self@),
    {
        match self {
            SlurmError::EmptyOutput => "Empty scontrol output".to_string(),
            SlurmError::JobNotFound(jobid) => {
                let id = decimal_text(*jobid as u128);
                let named = concat("Job ", id.as_str());
                concat(named.as_str(), " not found")
            },
            SlurmError::ScontrolFailed(said) => concat("scontrol failed: ", said.as_str()),
            SlurmError::ExpandFailed(nodelist, said) => {
                let quoted = concat("Failed to expand nodelist '", nodelist.as_str());
                let closed = concat(quoted.as_str(), "': ");
                concat(closed.as_str(), said.as_str())
            },
        }
    }
}

/// The part of a text before its first such character, and the part behind it.
pub open spec fn parted(s: Seq<char>, c: char) -> Option<(Seq<char>, Seq<char>)> {
    let i = first_cut(s, Cut::At(c));
    if i < s.len() {
        Some((s.take(i), s.skip(i + 1)))
    } else {
        None
    }
}

/// A number of nodes, zero where it is none.
pub open spec fn count_in(value: Seq<char>) -> u32 {
    match number_u32(value) {
        Some(n) => n,
        None => 0,
    }
}

/// A job with one more of its values.
pub open spec fn with_value(
    info: JobInfoView,
    key: Seq<char>,
    value: Seq<char>,
    jobid: u32,
) -> JobInfoView {
    if key == "JobId"@ {
        JobInfoView {
            job_id: match number_u32(value) {
                Some(id) => id,
                None => jobid,
            },
            ..info
        }
    } else if key == "JobName"@ || key == "Name"@ {
        JobInfoView { name: value, ..info }
    } else if key == "JobState"@ {
        JobInfoView { state: state_named(capitals(value)), ..info }
    } else if key == "UserId"@ {
        JobInfoView { user: fields(value, '(')[0], ..info }
    } else if key == "NodeList"@ {
        JobInfoView { nodelist: value, ..info }
    } else if key == "NumNodes"@ {
        JobInfoView { num_nodes: count_in(value), ..info }
    } else if key == "Partition"@ {
        JobInfoView { partition: value, ..info }
    } else if key == "ExitCode"@ {
        JobInfoView { exit_code: number_i32(fields(value, ':')[0]), ..info }
    } else {
        info
    }
}

/// A job with what one word of the answer says of it.
pub open spec fn with_word(info: JobInfoView, word: Seq<char>, jobid: u32) -> JobInfoView {
    match parted(word, '=') {
        Some((key, value)) => with_value(info, key, value, jobid),
        None => info,
    }
}

/// A job with what the words of an answer say of it, a later word in place of an earlier.
pub open spec fn with_words(list: Seq<Seq<char>>, jobid: u32) -> JobInfoView
    decreases list.len(),
{
    if list.len() == 0 {
        JobInfoView {
            job_id: jobid,
            name: seq![],
            state: JobStateView::Unknown(seq![]),
            user: seq![],
            nodelist: seq![],
            num_nodes: 0,
            partition: seq![],
            exit_code: None,
        }
    } else {
        with_word(with_words(list.drop_last(), jobid), list.last(), jobid)
    }
}

/// The first line that is not empty.
pub open spec fn first_line(list: Seq<Seq<char>>) -> Option<Seq<char>>
    decreases list.len(),
{
    if list.len() == 0 {
        None
    } else if list[0].len() > 0 {
        Some(list[0])
    } else {
        first_line(list.skip(1))
    }
}

/// What the answer of scontrol says of a job.
pub open spec fn job_read(output: Seq<char>, jobid: u32) -> Result<JobInfoView, SlurmErrorView> {
    match first_line(lines(output)) {
        Some(line) => Ok(with_words(words(line), jobid)),
        None => Err(SlurmErrorView::EmptyOutput),
    }
}

pub open spec fn job_in(r: Result<JobInfo, SlurmError>) -> Result<JobInfoView, SlurmErrorView> {
    match r {
        Ok(info) => Ok(info@),
        Err(e) => Err(e@),
    }
}

/// The part of a text before its first such character, and the part behind it.
fn part_at(s: &str, c: char) -> (r: Option<(String, String)>)
    ensures
        match r {
            Some(pair) => parted(s@, c) == Some((pair.0@, pair.1@)),
            None => parted(s@, c) is None,
        },
{
    let v = crate::text::chars_of(s);
    let mut i: usize = 0;
    while i < v.len() && v[i] != c
        invariant
            i <= v@.len(),
            forall|j: int| 0 <= j < i ==> !Cut::At(c).hits(#[trigger] v@[j]),
        ensures
            i <= v@.len(),
            forall|j: int| 0 <= j < i ==> !Cut::At(c).hits(#[trigger] v@[j]),
            i < v@.len() ==> v@[i as int] == c,
        decreases v@.len() - i,
    {
        i += 1;
    }
    proof {
        crate::text::lemma_first_cut_at(v@, Cut::At(c), i as int);
    }
    if i < v.len() {
        let key = crate::text::text_of(&v, 0, i);
        let value = crate::text::text_of(&v, i + 1, v.len());
        assert(key@ =~= v@.take(i as int));
        assert(value@ =~= v@.skip(i + 1));
        Some((key, value))
    } else {
        None
    }
}

fn first_field(s: &str, sep: char) -> (r: String)
    ensures
        r@ == fields(s@, sep)[0],
{
    let parts = split_on(s, sep);
    assert(texts(parts@).len() > 0 && texts(parts@)[0] == parts@[0]@);
    parts[0].clone()
}

fn set_value(info: &mut JobInfo, key: &str, value: &str, jobid: u32)
    ensures
        final(info)@ == with_value(old(info)@, key@, value@, jobid),
{
    if same_text(key, "JobId") {
        info.job_id = match parse_u32(value) {
            Some(id) => id,
            None => jobid,
        };
    } else if same_text(key, "JobName") || same_text(key, "Name") {
        info.name = value.to_string();
    } else if same_text(key, "JobState") {
        info.state = JobState::from(value);
    } else if same_text(key, "UserId") {
        info.user = first_field(value, '(');
    } else if same_text(key, "NodeList") {
        info.nodelist = value.to_string();
    } else if same_text(key, "NumNodes") {
        info.num_nodes = match parse_u32(value) {
            Some(n) => n,
            None => 0,
        };
    } else if same_text(key, "Partition") {
        info.partition = value.to_string();
    } else if same_text(key, "ExitCode") {
        let code = first_field(value, ':');
        info.exit_code = parse_i32(code.as_str());
    }
}

/// Parse scontrol show job output (oneliner format)
pub fn parse_scontrol_output(output: &str, jobid: u32) -> (r: Result<JobInfo, SlurmError>)
    ensures
        job_in(r) == job_read(output@, jobid),
{
    let list = split_lines(output);
    let ghost all = texts(list@);
    let mut n: usize = 0;
    assert(all.skip(0) =~= all);
    while n < list.len() && is_blank(list[n].as_str())
        invariant
            n <= list@.len(),
            all == texts(list@),
            first_line(all.skip(n as int)) == first_line(all),
        ensures
            n <= list@.len(),
            all == texts(list@),
            first_line(all.skip(n as int)) == first_line(all),
            n < list@.len() ==> list@[n as int]@.len() > 0,
        decreases list@.len() - n,
    {
        assert(all.skip(n as int)[0] == list@[n as int]@);
        assert(all.skip(n as int).skip(1) =~= all.skip(n + 1));
        n += 1;
    }
    if n >= list.len() {
        return Err(SlurmError::EmptyOutput);
    }
    assert(all.skip(n as int)[0] == list@[n as int]@);
    let parts = split_words(list[n].as_str());
    let ghost said = texts(parts@);
    let mut info = JobInfo {
        job_id: jobid,
        name: String::new(),
        state: JobState::Unknown(String::new()),
        user: String::new(),
        nodelist: String::new(),
        num_nodes: 0,
        partition: String::new(),
        exit_code: None,
    };
    let mut i: usize = 0;
    assert(info@ == with_words(said.take(0), jobid)) by {
        assert(info@.name =~= seq![] && info@.user =~= seq![] && info@.nodelist =~= seq![]
            && info@.partition =~= seq![]);
        assert(info@.state->Unknown_0 =~= seq![]);
    }
    while i < parts.len()
        invariant
            i <= parts@.len(),
            said == texts(parts@),
            info@ == with_words(said.take(i as int), jobid),
        decreases parts@.len() - i,
    {
        proof {
            assert(said.take(i + 1).drop_last() =~= said.take(i as int));
            assert(said.take(i + 1).last() == parts@[i as int]@);
        }
        match part_at(parts[i].as_str(), '=') {
            Some(pair) => {
                set_value(&mut info, pair.0.as_str(), pair.1.as_str(), jobid);
            },
            None => {},
        }
        i += 1;
    }
    assert(said.take(said.len() as int) =~= said);
    Ok(info)
}

/// What a command gave back
#[derive(Debug)]
pub struct CommandOutput {
    /// It exited with success
    pub success: bool,
    pub stdout: String,
    pub stderr: String,
}

/// What scontrol says of a job, or that it failed.
pub open spec fn job_answer(
    success: bool,
    stdout: Seq<char>,
    stderr: Seq<char>,
    jobid: u32,
) -> Result<JobInfoView, SlurmErrorView> {
    if success {
        job_read(stdout, jobid)
    } else if holds(stderr, "Invalid job id"@) || holds(stderr, "not found"@) {
        Err(SlurmErrorView::JobNotFound(jobid))
    } else {
        Err(SlurmErrorView::ScontrolFailed(stderr))
    }
}

/// Get job information from the answer of scontrol
pub fn get_job_info(jobid: u32, output: &CommandOutput) -> (r: Result<JobInfo, SlurmError>)
    ensures
        job_in(r) == job_answer(output.success, output.stdout@, output.stderr@, jobid),
{
    if !output.success {
        let stderr = output.stderr.as_str();
        if contains(stderr, "Invalid job id") || contains(stderr, "not found") {
            return Err(SlurmError::JobNotFound(jobid));
        }
        return Err(SlurmError::ScontrolFailed(output.stderr.clone()));
    }
    parse_scontrol_output(output.stdout.as_str(), jobid)
}

/// The arguments with which scontrol is asked about a job.
pub fn job_query(jobid: u32) -> (r: Vec<String>)
    ensures
        texts(r@) == seq!["show"@, "job"@, decimal(jobid as nat), "--oneliner"@],
{
    let r = vec![
        "show".to_string(),
        "job".to_string(),
        decimal_text(jobid as u128),
        "--oneliner".to_string(),
    ];
    assert(texts(r@) =~= seq!["show"@, "job"@, decimal(jobid as nat), "--oneliner"@]);
    r
}

/// The arguments with which scontrol is asked to expand a nodelist.
pub fn hostnames_query(nodelist: &str) -> (r: Vec<String>)
    ensures
        texts(r@) == seq!["show"@, "hostnames"@, nodelist@],
{
    let r = vec!["show".to_string(), "hostnames".to_string(), nodelist.to_string()];
    assert(texts(r@) =~= seq!["show"@, "hostnames"@, nodelist@]);
    r
}

/// A nodelist without nodes.
pub open spec fn names_no_nodes(nodelist: Seq<char>) -> bool {
    nodelist.len() == 0 || nodelist == "(null)"@
}

/// Tests whether a nodelist names no nodes, so that there is nothing to expand.
pub fn is_empty_nodelist(nodelist: &str) -> (r: bool)
    ensures
        r == names_no_nodes(nodelist@),
{
    is_blank(nodelist) || same_text(nodelist, "(null)")
}

/// The nodes of a nodelist.
pub open spec fn nodes_expanded(
    nodelist: Seq<char>,
    success: bool,
    stdout: Seq<char>,
    stderr: Seq<char>,
) -> Result<Seq<Seq<char>>, SlurmErrorView> {
    if names_no_nodes(nodelist) {
        Ok(seq![])
    } else if success {
        Ok(lines(stdout).filter(|s: Seq<char>| s.len() > 0))
    } else {
        Err(SlurmErrorView::ExpandFailed(nodelist, stderr))
    }
}

pub open spec fn nodes_in(r: Result<Vec<String>, SlurmError>) -> Result<
    Seq<Seq<char>>,
    SlurmErrorView,
> {
    match r {
        Ok(list) => Ok(texts(list@)),
        Err(e) => Err(e@),
    }
}

/// Expand a Slurm nodelist to individual hostnames
///
/// Takes the answer of `scontrol show hostnames`, which handles all Slurm nodelist formats.
pub fn expand_nodelist(nodelist: &str, output: &CommandOutput) -> (r: Result<
    Vec<String>,
    SlurmError,
>)
    ensures
        nodes_in(r) == nodes_expanded(
            nodelist@,
            output.success,
            output.stdout@,
            output.stderr@,
        ),
{
    if is_empty_nodelist(nodelist) {
        let none: Vec<String> = Vec::new();
        assert(texts(none@) =~= seq![]);
        return Ok(none);
    }
    if !output.success {
        return Err(SlurmError::ExpandFailed(nodelist.to_string(), output.stderr.clone()));
    }
    let list = split_lines(output.stdout.as_str());
    Ok(without_blanks(&list))
}

/// Whether a job can be monitored.
#[derive(Debug, Clone, Copy, PartialEq, Eq, Structural)]
pub enum Admission {
    Admitted,
    Finished,
    NotRunning,
}

/// Decides whether a job can be monitored.
pub fn check_job(info: &JobInfo) -> (r: Admission)
    ensures
        r == (if info@.state.running() {
            Admission::Admitted
        } else if info@.state.finished() {
            Admission::Finished
        } else {
            Admission::NotRunning
        }),
{
    if info.state.is_running() {
        Admission::Admitted
    } else if info.state.is_finished() {
        Admission::Finished
    } else {
        Admission::NotRunning
    }
}

/// The number of nodes above which monitoring may take much.
pub const MANY_NODES: usize = 100;

/// How many nodes there are to monitor.
#[derive(Debug, Clone, Copy, PartialEq, Eq, Structural)]
pub enum Allocation {
    Empty,
    Usual,
    Large,
}

/// Decides whether there are nodes to monitor, and whether there are many.
pub fn check_nodes(nodes: &Vec<String>) -> (r: Allocation)
    ensures
        r == (if nodes@.len() == 0 {
            Allocation::Empty
        } else if nodes@.len() > MANY_NODES {
            Allocation::Large
        } else {
            Allocation::Usual
        }),
{
    if nodes.len() == 0 {
        Allocation::Empty
    } else if nodes.len() > MANY_NODES {
        Allocation::Large
    } else {
        Allocation::Usual
    }
}

/// The arguments with which srun starts a collector on a node of a job.
pub open spec fn collector_command(
    jobid: u32,
    node: Seq<char>,
    jam_binary: Seq<char>,
    refresh_ms: u64,
) -> Seq<Seq<char>> {
    seq![
        "--jobid"@,
        decimal(jobid as nat),
        "--overlap"@,
        "--nodelist"@,
        node,
        "--ntasks=1"@,
        "--"@,
        jam_binary,
        "--collector"@,
        "--node-name"@,
        node,
        "--refresh"@,
        decimal(refresh_ms as nat),
    ]
}

/// The arguments with which srun starts a collector on a node of a job.
pub fn collector_args(jobid: u32, node: &str, jam_binary: &str, refresh_ms: u64) -> (r: Vec<String>)
    ensures
        texts(r@) == collector_command(jobid, node@, jam_binary@, refresh_ms),
{
    let r = vec![
        "--jobid".to_string(),
        decimal_text(jobid as u128),
        "--overlap".to_string(),
        "--nodelist".to_string(),
        node.to_string(),
        "--ntasks=1".to_string(),
        "--".to_string(),
        jam_binary.to_string(),
        "--collector".to_string(),
        "--node-name".to_string(),
        node.to_string(),
        "--refresh".to_string(),
        decimal_text(refresh_ms as u128),
    ];
    assert(texts(r@) =~= collector_command(jobid, node@, jam_binary@, refresh_ms));
    r
}

/// The nodes of a job as they are named at the start: all, or the first five of more.
pub open spec fn nodes_shown(nodes: Seq<Seq<char>>) -> Seq<char> {
    if nodes.len() <= 5 {
        joined(nodes, ", "@)
    } else {
        joined(nodes.take(5), ", "@) + "..."@
    }
}

/// The nodes of a job as they are named at the start.
pub fn nodes_summary(nodes: &Vec<String>) -> (r: String)
    ensures
        r@ == nodes_shown(texts(nodes@)),
{
    if nodes.len() <= 5 {
        return join(nodes, ", ");
    }
    let mut first: Vec<String> = Vec::new();
    let mut i: usize = 0;
    while i < 5
        invariant
            i <= 5 < nodes@.len(),
            texts(first@) == texts(nodes@).take(i as int),
        decreases 5 - i,
    {
        let ghost before = first@;
        first.push(nodes[i].clone());
        proof {
            assert(texts(first@) =~= texts(before).push(texts(nodes@)[i as int]));
            assert(texts(nodes@).take(i + 1) =~= texts(nodes@).take(i as int).push(
                texts(nodes@)[i as int],
            ));
        }
        i += 1;
    }
    concat(join(&first, ", ").as_str(), "...")
}

}
