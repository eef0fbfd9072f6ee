//! The texts on the screen: rows, column headers, title and footer.

use vstd::prelude::*;
use crate::app::App;
use crate::format::{bytes_shown, cpu_shown, format_bytes, format_cpu, format_rate, rate_shown};
use crate::model::views;
use crate::number::{decimal, decimal_text};
use crate::rows::{TreeItem, TreeItemView};
use crate::slurm::coordinator::CoordinatorState;
use crate::sort::{SortColumn, SortDirection};
use crate::text::{concat, text_in};
use crate::ui::layout::{
    align_left, align_middle, align_right, can_cut_user, cut_name, cut_user, name_cut, to_left,
    to_middle, to_right, user_is_cuttable, user_shown,
};

verus! {

/// Column widths
pub const COL_PID: usize = 8;

pub const COL_USER: usize = 6;

pub const COL_STATE: usize = 3;

pub const COL_NODE: usize = 12;

pub const COL_CPU: usize = 7;

pub const COL_MEM: usize = 9;

pub const COL_TASKS: usize = 6;

pub const COL_IO_R: usize = 8;

pub const COL_IO_W: usize = 8;

/// The cells of a row, as text
#[derive(Debug)]
pub struct RowCells {
    pub pid: String,
    pub user: String,
    pub state: String,
    pub node: String,
    pub cpu: String,
    pub memory: String,
    pub tasks: String,
    pub io_read: String,
    pub io_write: String,
    /// What stands before the name in the color of cgroups
    pub cgroup_branch: String,
    /// What stands before the name in the color of processes
    pub process_branch: String,
    pub name: String,
}

pub struct RowCellsView {
    pub pid: Seq<char>,
    pub user: Seq<char>,
    pub state: Seq<char>,
    pub node: Seq<char>,
    pub cpu: Seq<char>,
    pub memory: Seq<char>,
    pub tasks: Seq<char>,
    pub io_read: Seq<char>,
    pub io_write: Seq<char>,
    pub cgroup_branch: Seq<char>,
    pub process_branch: Seq<char>,
    pub name: Seq<char>,
}

impl View for RowCells {
    type V = RowCellsView;

    open spec fn view(&self) -> RowCellsView {
        RowCellsView {
            pid: self.pid@,
            user: self.user@,
            state: self.state@,
            node: self.node@,
            cpu: self.cpu@,
            memory: self.memory@,
            tasks: self.tasks@,
            io_read: self.io_read@,
            io_write: self.io_write@,
            cgroup_branch: self.cgroup_branch@,
            process_branch: self.process_branch@,
            name: self.name@,
        }
    }
}

/// The machine of a row, cut where its name is too long, or a dash.
pub open spec fn node_shown(node: Option<Seq<char>>) -> Seq<char> {
    match node {
        Some(name) => name_cut(name, COL_NODE as nat),
        None => "-"@,
    }
}

/// The branch to a cgroup.
pub open spec fn cgroup_branch(depth: usize, is_last: bool, prefix: Seq<char>) -> Seq<char> {
    if depth > 0 {
        prefix + (if is_last {
            "└── "@
        } else {
            "├── "@
        })
    } else {
        seq![]
    }
}

/// The cells of a row. The view of a job shows the whole command of a process in place of its
/// name.
pub open spec fn cells_of(item: TreeItemView, whole_command: bool) -> RowCellsView {
    match item {
        TreeItemView::Cgroup { data, depth, is_last, prefix } => RowCellsView {
            pid: to_right(seq![], COL_PID as nat),
            user: to_left("-"@, COL_USER as nat),
            state: to_middle("-"@, COL_STATE as nat),
            node: to_left(node_shown(data.node), COL_NODE as nat),
            cpu: to_right(cpu_shown(data.cpu_percent), COL_CPU as nat),
            memory: to_right(
                match data.memory_current {
                    Some(bytes) => bytes_shown(bytes),
                    None => seq![],
                },
                COL_MEM as nat,
            ),
            tasks: to_right(
                match data.pids_current {
                    Some(n) => decimal(n as nat),
                    None => seq![],
                },
                COL_TASKS as nat,
            ),
            io_read: to_right(rate_shown(data.io_read_rate), COL_IO_R as nat),
            io_write: to_right(rate_shown(data.io_write_rate), COL_IO_W as nat),
            cgroup_branch: cgroup_branch(depth, is_last, prefix),
            process_branch: seq![],
            name: data.name,
        },
        TreeItemView::Process { data, is_last, cgroup_prefix, process_prefix } => RowCellsView {
            pid: to_right(decimal(data.pid as nat), COL_PID as nat),
            user: to_left(user_shown(data.user), COL_USER as nat),
            state: to_middle(seq![data.state.letter()], COL_STATE as nat),
            node: to_left(node_shown(data.node), COL_NODE as nat),
            cpu: to_right(cpu_shown(data.cpu_percent), COL_CPU as nat),
            memory: to_right(bytes_shown(data.rss), COL_MEM as nat),
            tasks: to_right(decimal(data.num_threads as nat), COL_TASKS as nat),
            io_read: to_right(rate_shown(data.io_read_rate), COL_IO_R as nat),
            io_write: to_right(rate_shown(data.io_write_rate), COL_IO_W as nat),
            cgroup_branch: cgroup_prefix,
            process_branch: process_prefix + (if is_last {
                "└─ "@
            } else {
                "├─ "@
            }),
            name: match (whole_command, data.cmdline) {
                (true, Some(command)) => command,
                _ => data.name,
            },
        },
    }
}

/// The user of a row can be cut where the name is too long.
pub open spec fn row_is_cuttable(item: TreeItemView) -> bool {
    match item {
        TreeItemView::Cgroup { .. } => true,
        TreeItemView::Process { data, .. } => user_is_cuttable(data.user),
    }
}

/// Tests whether the user of a row can be cut where the name is too long.
pub fn can_render_row(item: &TreeItem) -> (r: bool)
    ensures
        r == row_is_cuttable(item@),
{
    match item {
        TreeItem::Cgroup { data: _, depth: _, is_last: _, prefix: _ } => true,
        TreeItem::Process { data, is_last: _, cgroup_prefix: _, process_prefix: _ } => can_cut_user(
            data.user.as_str(),
        ),
    }
}

fn node_text(node: &Option<String>) -> (r: String)
    ensures
        r@ == to_left(node_shown(text_in(*node)), COL_NODE as nat),
{
    match node {
        Some(name) => align_left(cut_name(name.as_str(), COL_NODE).as_str(), COL_NODE),
        None => align_left("-", COL_NODE),
    }
}

fn letter_text(c: char) -> (r: String)
    ensures
        r@ == seq![c],
{
    let mut s = String::new();
    s.push(c);
    assert(s@ =~= seq![c]);
    s
}

/// The cells of a row.
pub fn render_tree_row(item: &TreeItem, whole_command: bool) -> (r: RowCells)
    requires
        row_is_cuttable(item@),
    ensures
        r@ == cells_of(item@, whole_command),
{
    let empty = String::new();
    assert(empty@ =~= seq![]);
    match item {
        TreeItem::Cgroup { data, depth, is_last, prefix } => {
            let branch = if *depth > 0 {
                if *is_last {
                    concat(prefix.as_str(), "└── ")
                } else {
                    concat(prefix.as_str(), "├── ")
                }
            } else {
                String::new()
            };
            let memory = match data.memory_current {
                Some(bytes) => format_bytes(bytes),
                None => String::new(),
            };
            let tasks = match data.pids_current {
                Some(n) => decimal_text(n as u128),
                None => String::new(),
            };
            let process_branch = String::new();
            let r = RowCells {
                pid: align_right(empty.as_str(), COL_PID),
                user: align_left("-", COL_USER),
                state: align_middle("-", COL_STATE),
                node: node_text(&data.node),
                cpu: align_right(format_cpu(data.cpu_percent).as_str(), COL_CPU),
                memory: align_right(memory.as_str(), COL_MEM),
                tasks: align_right(tasks.as_str(), COL_TASKS),
                io_read: align_right(format_rate(data.io_read_rate).as_str(), COL_IO_R),
                io_write: align_right(format_rate(data.io_write_rate).as_str(), COL_IO_W),
                cgroup_branch: branch,
                process_branch,
                name: data.name.clone(),
            };
            proof {
                assert(data.memory_current is None ==> memory@ =~= seq![]);
                assert(data.pids_current is None ==> tasks@ =~= seq![]);
                assert(process_branch@ =~= seq![]);
                assert(*depth == 0 ==> branch@ =~= seq![]);
            }
            r
        },
        TreeItem::Process { data, is_last, cgroup_prefix, process_prefix } => {
            let process_branch = if *is_last {
                concat(process_prefix.as_str(), "└─ ")
            } else {
                concat(process_prefix.as_str(), "├─ ")
            };
            let name = match &data.cmdline {
                Some(command) => if whole_command {
                    command.clone()
                } else {
                    data.name.clone()
                },
                None => data.name.clone(),
            };
            RowCells {
                pid: align_right(decimal_text(data.pid as u128).as_str(), COL_PID),
                user: align_left(cut_user(data.user.as_str()).as_str(), COL_USER),
                state: align_middle(letter_text(data.state.as_char()).as_str(), COL_STATE),
                node: node_text(&data.node),
                cpu: align_right(format_cpu(data.cpu_percent).as_str(), COL_CPU),
                memory: align_right(format_bytes(data.rss).as_str(), COL_MEM),
                tasks: align_right(decimal_text(data.num_threads as u128).as_str(), COL_TASKS),
                io_read: align_right(format_rate(data.io_read_rate).as_str(), COL_IO_R),
                io_write: align_right(format_rate(data.io_write_rate).as_str(), COL_IO_W),
                cgroup_branch: cgroup_prefix.clone(),
                process_branch,
                name,
            }
        },
    }
}

/// The mark of a sort direction.
pub open spec fn indicator(direction: SortDirection) -> Seq<char> {
    match direction {
        SortDirection::Ascending => "▲"@,
        SortDirection::Descending => "▼"@,
    }
}

/// A column header; the one that is sorted by has the mark of the direction before it.
pub open spec fn header_of(
    name: Seq<char>,
    sorted: bool,
    direction: SortDirection,
    width: nat,
    right: bool,
) -> Seq<char> {
    let rest = if sorted { (width - 1) as nat } else { width };
    let text = if right { to_right(name, rest) } else { to_left(name, rest) };
    if sorted {
        indicator(direction) + text
    } else {
        text
    }
}

/// A column header
#[derive(Debug)]
pub struct HeaderCell {
    pub text: String,
    /// The rows are sorted by this column
    pub sorted: bool,
}

pub struct HeaderCellView {
    pub text: Seq<char>,
    pub sorted: bool,
}

impl View for HeaderCell {
    type V = HeaderCellView;

    open spec fn view(&self) -> HeaderCellView {
        HeaderCellView { text: self.text@, sorted: self.sorted }
    }
}

/// A column header as it is shown.
pub open spec fn header_cell(
    name: Seq<char>,
    column: SortColumn,
    by: SortColumn,
    direction: SortDirection,
    width: nat,
    right: bool,
) -> HeaderCellView {
    HeaderCellView {
        text: header_of(name, column == by, direction, width, right),
        sorted: column == by,
    }
}

fn fmt_header(
    name: &str,
    column: SortColumn,
    by: SortColumn,
    direction: SortDirection,
    width: usize,
    right: bool,
) -> (r: HeaderCell)
    requires
        width > 0 || column != by,
    ensures
        r@ == header_cell(name@, column, by, direction, width as nat, right),
{
    let sorted = column == by;
    let rest: usize = if sorted {
        width - 1
    } else {
        width
    };
    let text = if right {
        align_right(name, rest)
    } else {
        align_left(name, rest)
    };
    let full = if sorted {
        match direction {
            SortDirection::Ascending => concat("▲", text.as_str()),
            SortDirection::Descending => concat("▼", text.as_str()),
        }
    } else {
        text
    };
    HeaderCell { text: full, sorted }
}

/// The headers of the columns that have no place of their own in the order of a job's view.
pub open spec fn first_headers(by: SortColumn, direction: SortDirection) -> Seq<HeaderCellView> {
    seq![
        header_cell("PID"@, SortColumn::Pid, by, direction, COL_PID as nat, true),
        header_cell("USER"@, SortColumn::User, by, direction, COL_USER as nat, false),
        header_cell("S"@, SortColumn::State, by, direction, COL_STATE as nat, false),
    ]
}

pub open spec fn last_headers(
    by: SortColumn,
    direction: SortDirection,
    name_width: nat,
) -> Seq<HeaderCellView> {
    seq![
        header_cell("CPU%"@, SortColumn::Cpu, by, direction, COL_CPU as nat, true),
        header_cell("MEM"@, SortColumn::Memory, by, direction, COL_MEM as nat, true),
        header_cell("TASKS"@, SortColumn::Pids, by, direction, COL_TASKS as nat, true),
        header_cell("IO-R/s"@, SortColumn::IoRead, by, direction, COL_IO_R as nat, true),
        header_cell("IO-W/s"@, SortColumn::IoWrite, by, direction, COL_IO_W as nat, true),
        header_cell("NAME"@, SortColumn::Name, by, direction, name_width, false),
    ]
}

/// The column headers of one machine's view, or of a job's, which names the machine too.
pub open spec fn headers_of(
    by: SortColumn,
    direction: SortDirection,
    name_width: nat,
    with_node: bool,
) -> Seq<HeaderCellView> {
    let node = HeaderCellView { text: to_left("NODE"@, COL_NODE as nat), sorted: false };
    if with_node {
        first_headers(by, direction) + seq![node] + last_headers(by, direction, name_width)
    } else {
        first_headers(by, direction) + last_headers(by, direction, name_width)
    }
}

/// The column headers. There is room for the mark in the name column, where it is sorted by.
pub fn render_headers(
    by: SortColumn,
    direction: SortDirection,
    name_width: usize,
    with_node: bool,
) -> (r: Vec<HeaderCell>)
    requires
        name_width > 0 || by != SortColumn::Name,
    ensures
        views(r@) == headers_of(by, direction, name_width as nat, with_node),
{
    let mut r: Vec<HeaderCell> = Vec::new();
    r.push(fmt_header("PID", SortColumn::Pid, by, direction, COL_PID, true));
    r.push(fmt_header("USER", SortColumn::User, by, direction, COL_USER, false));
    r.push(fmt_header("S", SortColumn::State, by, direction, COL_STATE, false));
    if with_node {
        r.push(HeaderCell { text: align_left("NODE", COL_NODE), sorted: false });
    }
    r.push(fmt_header("CPU%", SortColumn::Cpu, by, direction, COL_CPU, true));
    r.push(fmt_header("MEM", SortColumn::Memory, by, direction, COL_MEM, true));
    r.push(fmt_header("TASKS", SortColumn::Pids, by, direction, COL_TASKS, true));
    r.push(fmt_header("IO-R/s", SortColumn::IoRead, by, direction, COL_IO_R, true));
    r.push(fmt_header("IO-W/s", SortColumn::IoWrite, by, direction, COL_IO_W, true));
    r.push(fmt_header("NAME", SortColumn::Name, by, direction, name_width, false));
    assert(views(r@) =~= headers_of(by, direction, name_width as nat, with_node));
    r
}

/// The width that is left for the name: what the other columns and the gaps between them leave.
pub open spec fn name_width_of(width: u16, with_node: bool) -> u16 {
    if with_node {
        width.saturating_sub(75)
    } else {
        width.saturating_sub(63)
    }
}

/// The width that is left for the name.
pub fn name_width(width: u16, with_node: bool) -> (r: u16)
    ensures
        r == name_width_of(width, with_node),
{
    if with_node {
        width.saturating_sub(75)
    } else {
        width.saturating_sub(63)
    }
}

/// The number of the selected row, from one on; zero where there are none.
pub open spec fn position(selected: usize, count: nat) -> nat {
    if count > 0 {
        (selected + 1) as nat
    } else {
        0
    }
}

/// The footer: an error, or where the selection is and what keys do.
pub open spec fn footer_of(
    error: Option<Seq<char>>,
    selected: usize,
    count: nat,
    hint: Seq<char>,
) -> Seq<char> {
    match error {
        Some(text) => " Error: "@ + text + " "@,
        None => " "@ + decimal(position(selected, count)) + "/"@ + decimal(count)
            + " | q:quit  j/k:nav  </> :sort  I:reverse  "@ + hint + " "@,
    }
}

/// The hint at the end of a job's footer: the form that is shown.
pub open spec fn mode_hint(compact: bool) -> Seq<char> {
    if compact {
        "c:compact"@
    } else {
        "c:detail"@
    }
}

fn footer_text(error: &Option<String>, selected: usize, count: usize, hint: &str) -> (r: String)
    ensures
        r@ == footer_of(text_in(*error), selected, count as nat, hint@),
{
    match error {
        Some(text) => concat(concat(" Error: ", text.as_str()).as_str(), " "),
        None => {
            let pos: u128 = if count > 0 {
                selected as u128 + 1
            } else {
                0
            };
            let place = concat(" ", decimal_text(pos).as_str());
            let whole = concat(
                concat(place.as_str(), "/").as_str(),
                decimal_text(count as u128).as_str(),
            );
            let keys = concat(whole.as_str(), " | q:quit  j/k:nav  </> :sort  I:reverse  ");
            concat(concat(keys.as_str(), hint).as_str(), " ")
        },
    }
}

/// The footer of one machine's view.
pub fn render_footer(app: &App) -> (r: String)
    ensures
        r@ == footer_of(app@.error, app@.selected, app@.items.len(), "r:refresh"@),
{
    footer_text(&app.error, app.selected, app.items.len(), "r:refresh")
}

/// The footer of a job's view.
pub fn render_job_footer(state: &CoordinatorState) -> (r: String)
    ensures
        r@ == footer_of(
            state@.error,
            state@.selected,
            state@.items.len(),
            mode_hint(state@.compact_mode),
        ),
{
    let hint = if state.compact_mode {
        "c:compact"
    } else {
        "c:detail"
    };
    footer_text(&state.error, state.selected, state.items.len(), hint)
}

/// The place of a column among the headers.
pub open spec fn header_place(column: SortColumn, with_node: bool) -> int {
    let shift: int = if with_node { 1 } else { 0 };
    match column {
        SortColumn::Pid => 0,
        SortColumn::User => 1,
        SortColumn::State => 2,
        SortColumn::Cpu => 3 + shift,
        SortColumn::Memory => 4 + shift,
        SortColumn::Pids => 5 + shift,
        SortColumn::IoRead => 6 + shift,
        SortColumn::IoWrite => 7 + shift,
        SortColumn::Name => 8 + shift,
    }
}

/// Exactly the column that is sorted by is marked among the headers.
pub proof fn one_header_is_marked(
    by: SortColumn,
    direction: SortDirection,
    name_width: nat,
    with_node: bool,
    i: int,
)
    requires
        0 <= i < headers_of(by, direction, name_width, with_node).len(),
    ensures
        headers_of(by, direction, name_width, with_node)[i].sorted <==> i == header_place(
            by,
            with_node,
        ),
        0 <= header_place(by, with_node) < headers_of(by, direction, name_width, with_node).len(),
{
}

}
