//! What the cells of a row show.

use vstd::prelude::*;
use crate::format::{bytes_shown, cpu_shown, rate_shown};
use crate::number::decimal;
use crate::rows::{FlatCgroupView, FlatProcessView, TreeItemView};
use crate::sort::{SortColumn, SortDirection};
use crate::ui::layout::{byte_len, user_shown};
use crate::ui::tree::{
    cells_of, footer_of, header_place, headers_of, name_width_of, RowCellsView,
};

verus! {

pub open spec fn is_blank_between(s: Seq<char>, from: int, to: int) -> bool {
    forall|i: int| from <= i < to ==> #[trigger] s[i] == ' '
}

/// The cell has the text at its right, and blanks before it up to its width.
pub open spec fn at_right(cell: Seq<char>, text: Seq<char>, width: int) -> bool {
    &&& cell.len() == (if text.len() < width { width } else { text.len() as int })
    &&& cell.skip(cell.len() - text.len()) == text
    &&& is_blank_between(cell, 0, cell.len() - text.len())
}

/// The cell has the text at its left, and blanks behind it up to its width.
pub open spec fn at_left(cell: Seq<char>, text: Seq<char>, width: int) -> bool {
    &&& cell.len() == (if text.len() < width { width } else { text.len() as int })
    &&& cell.take(text.len() as int) == text
    &&& is_blank_between(cell, text.len() as int, cell.len() as int)
}

proof fn lemma_at_right(text: Seq<char>, width: nat)
    ensures
        at_right(crate::ui::layout::to_right(text, width), text, width as int),
{
    let cell = crate::ui::layout::to_right(text, width);
    assert(cell.skip(cell.len() - text.len()) =~= text);
}

proof fn lemma_at_left(text: Seq<char>, width: nat)
    ensures
        at_left(crate::ui::layout::to_left(text, width), text, width as int),
{
    let cell = crate::ui::layout::to_left(text, width);
    assert(cell.take(text.len() as int) =~= text);
}

/// The cells of a process show its values, each in its own.
pub open spec fn show_process(cells: RowCellsView, data: FlatProcessView) -> bool {
    &&& at_right(cells.pid, decimal(data.pid as nat), 8)
    &&& at_left(cells.user, user_shown(data.user), 6)
    &&& cells.state == seq![' ', data.state.letter(), ' ']
    &&& at_right(cells.cpu, cpu_shown(data.cpu_percent), 7)
    &&& at_right(cells.memory, bytes_shown(data.rss), 9)
    &&& at_right(cells.tasks, decimal(data.num_threads as nat), 6)
    &&& at_right(cells.io_read, rate_shown(data.io_read_rate), 8)
    &&& at_right(cells.io_write, rate_shown(data.io_write_rate), 8)
}

/// The cells of a cgroup show its metrics, each in its own; what is not known is left blank, and there
/// is no user nor state.
pub open spec fn show_cgroup(cells: RowCellsView, data: FlatCgroupView) -> bool {
    &&& is_blank_between(cells.pid, 0, cells.pid.len() as int)
    &&& cells.pid.len() == 8
    &&& at_left(cells.user, seq!['-'], 6)
    &&& cells.state == seq![' ', '-', ' ']
    &&& at_right(cells.cpu, cpu_shown(data.cpu_percent), 7)
    &&& (data.memory_current matches Some(bytes) ==> at_right(cells.memory, bytes_shown(bytes), 9))
    &&& data.memory_current is None ==> at_right(cells.memory, seq![], 9)
    &&& (data.pids_current matches Some(n) ==> at_right(cells.tasks, decimal(n as nat), 6))
    &&& data.pids_current is None ==> at_right(cells.tasks, seq![], 6)
    &&& at_right(cells.io_read, rate_shown(data.io_read_rate), 8)
    &&& at_right(cells.io_write, rate_shown(data.io_write_rate), 8)
    &&& cells.name == data.name
}

/// The cell names the machine of a row, or has a dash where there is none; a name of more than twelve
/// characters is cut, with a mark.
pub open spec fn shows_node(cell: Seq<char>, node: Option<Seq<char>>) -> bool {
    match node {
        Some(name) => if name.len() <= 12 {
            at_left(cell, name, 12)
        } else {
            cell == name.take(11) + seq!['+']
        },
        None => at_left(cell, seq!['-'], 12),
    }
}

/// The cells of a row show the values of the row, each in its own cell and in its place.
pub proof fn cells_show_the_row(item: TreeItemView, whole_command: bool)
    ensures
        ({
            let cells = cells_of(item, whole_command);
            match item {
                TreeItemView::Process { data, is_last, cgroup_prefix, process_prefix } => {
                    &&& show_process(cells, data)
                    &&& shows_node(cells.node, data.node)
                    &&& !whole_command || data.cmdline is None ==> cells.name == data.name
                    &&& (data.cmdline matches Some(command) ==> whole_command ==> cells.name
                        == command)
                    &&& cells.cgroup_branch == cgroup_prefix
                    &&& is_last ==> cells.process_branch == process_prefix + "└─ "@
                    &&& !is_last ==> cells.process_branch == process_prefix + "├─ "@
                },
                TreeItemView::Cgroup { data, depth, is_last, prefix } => {
                    &&& show_cgroup(cells, data)
                    &&& shows_node(cells.node, data.node)
                    &&& depth == 0 ==> cells.cgroup_branch == Seq::<char>::empty()
                    &&& depth > 0 && is_last ==> cells.cgroup_branch == prefix + "└── "@
                    &&& depth > 0 && !is_last ==> cells.cgroup_branch == prefix + "├── "@
                    &&& cells.process_branch == Seq::<char>::empty()
                },
            }
        }),
{
    let cells = cells_of(item, whole_command);
    reveal_strlit("-");
    reveal_strlit("+");
    assert("-"@ =~= seq!['-']);
    assert("+"@ =~= seq!['+']);
    match item {
        TreeItemView::Process { data, .. } => {
            lemma_at_right(decimal(data.pid as nat), 8);
            lemma_at_left(user_shown(data.user), 6);
            assert(cells.state =~= seq![' ', data.state.letter(), ' ']);
            lemma_at_right(cpu_shown(data.cpu_percent), 7);
            lemma_at_right(bytes_shown(data.rss), 9);
            lemma_at_right(decimal(data.num_threads as nat), 6);
            lemma_at_right(rate_shown(data.io_read_rate), 8);
            lemma_at_right(rate_shown(data.io_write_rate), 8);
            lemma_node(data.node);
        },
        TreeItemView::Cgroup { data, .. } => {
            lemma_at_right(seq![], 8);
            lemma_at_left(seq!['-'], 6);
            assert(cells.state =~= seq![' ', '-', ' ']);
            lemma_at_right(cpu_shown(data.cpu_percent), 7);
            match data.memory_current {
                Some(bytes) => {
                    lemma_at_right(bytes_shown(bytes), 9);
                },
                None => {
                    lemma_at_right(seq![], 9);
                },
            }
            match data.pids_current {
                Some(n) => {
                    lemma_at_right(decimal(n as nat), 6);
                },
                None => {
                    lemma_at_right(seq![], 6);
                },
            }
            lemma_at_right(rate_shown(data.io_read_rate), 8);
            lemma_at_right(rate_shown(data.io_write_rate), 8);
            lemma_node(data.node);
        },
    }
}

proof fn lemma_node(node: Option<Seq<char>>)
    ensures
        shows_node(crate::ui::layout::to_left(crate::ui::tree::node_shown(node), 12), node),
{
    reveal_strlit("-");
    reveal_strlit("+");
    assert("-"@ =~= seq!['-']);
    assert("+"@ =~= seq!['+']);
    match node {
        Some(name) => {
            lemma_at_left(name, 12);
            if name.len() > 12 {
                let cut = name.take(11) + seq!['+'];
                assert(crate::ui::layout::to_left(cut, 12) =~= cut);
            }
        },
        None => {
            lemma_at_left(seq!['-'], 12);
        },
    }
}

/// The user of a row is shown whole in up to six bytes; of a longer name the first five bytes are
/// shown, and a mark.
pub proof fn user_is_cut_after_five_bytes(user: Seq<char>, k: int)
    requires
        0 <= k <= user.len(),
    ensures
        byte_len(user) <= 6 ==> user_shown(user) == user,
        byte_len(user) > 6 && byte_len(user.take(k)) == 5 ==> user_shown(user) == user.take(k) + seq![
            '+',
        ],
{
    reveal_strlit("+");
    assert("+"@ =~= seq!['+']);
    if byte_len(user) > 6 && byte_len(user.take(k)) == 5 {
        lemma_cut_found(user, 5, k);
    }
}

proof fn lemma_byte_len_grows(s: Seq<char>, k: int)
    requires
        0 <= k < s.len(),
    ensures
        byte_len(s.take(k)) < byte_len(s),
    decreases s.len(),
{
    if k < s.len() - 1 {
        lemma_byte_len_grows(s.drop_last(), k);
        assert(s.drop_last().take(k) =~= s.take(k));
    } else {
        assert(s.take(k) =~= s.drop_last());
    }
}

proof fn lemma_cut_found(s: Seq<char>, bytes: nat, k: int)
    requires
        0 <= k <= s.len(),
        byte_len(s.take(k)) == bytes,
    ensures
        crate::ui::layout::cut_at(s, bytes) == Some(k),
    decreases s.len(),
{
    if k == s.len() {
        assert(s.take(k) =~= s);
    } else {
        lemma_byte_len_grows(s, k);
        assert(s.drop_last().take(k) =~= s.take(k));
        lemma_cut_found(s.drop_last(), bytes, k);
    }
}

/// The header that is sorted by starts with the mark of the direction; the names of the columns stand
/// in their order.
pub proof fn headers_stand_in_their_order(
    by: SortColumn,
    direction: SortDirection,
    name_width: nat,
    with_node: bool,
)
    requires
        name_width > 0,
    ensures
        ({
            let list = headers_of(by, direction, name_width, with_node);
            let at = header_place(by, with_node);
            &&& list.len() == (if with_node { 10int } else { 9 })
            &&& direction == SortDirection::Ascending ==> list[at].text[0] == '▲'
            &&& direction == SortDirection::Descending ==> list[at].text[0] == '▼'
            &&& by != SortColumn::Pid ==> at_right(list[0].text, "PID"@, 8)
            &&& by != SortColumn::User ==> at_left(list[1].text, "USER"@, 6)
            &&& by != SortColumn::State ==> at_left(list[2].text, "S"@, 3)
            &&& with_node ==> at_left(list[3].text, "NODE"@, 12)
            &&& by != SortColumn::Cpu ==> at_right(list[list.len() - 6].text, "CPU%"@, 7)
            &&& by != SortColumn::Memory ==> at_right(list[list.len() - 5].text, "MEM"@, 9)
            &&& by != SortColumn::Pids ==> at_right(list[list.len() - 4].text, "TASKS"@, 6)
            &&& by != SortColumn::IoRead ==> at_right(list[list.len() - 3].text, "IO-R/s"@, 8)
            &&& by != SortColumn::IoWrite ==> at_right(list[list.len() - 2].text, "IO-W/s"@, 8)
            &&& by != SortColumn::Name ==> at_left(
                list[list.len() - 1].text,
                "NAME"@,
                name_width as int,
            )
        }),
{
    reveal_strlit("▲");
    reveal_strlit("▼");
    assert("▲"@.len() == 1 && "▲"@[0] == '▲');
    assert("▼"@.len() == 1 && "▼"@[0] == '▼');
    lemma_at_right("PID"@, 8);
    lemma_at_left("USER"@, 6);
    lemma_at_left("S"@, 3);
    lemma_at_left("NODE"@, 12);
    lemma_at_right("CPU%"@, 7);
    lemma_at_right("MEM"@, 9);
    lemma_at_right("TASKS"@, 6);
    lemma_at_right("IO-R/s"@, 8);
    lemma_at_right("IO-W/s"@, 8);
    lemma_at_left("NAME"@, name_width);
}

/// All columns and the gaps between them fill the line, where it is wide enough.
pub proof fn columns_fill_the_line(width: u16)
    ensures
        width >= 8 + 6 + 3 + 7 + 9 + 6 + 8 + 8 + 8 ==> name_width_of(width, false) + (8 + 6 + 3 + 7 + 9
            + 6 + 8 + 8 + 8) == width,
        width >= 75 ==> name_width_of(width, true) + 12 == name_width_of(width, false),
        width < 63 ==> name_width_of(width, false) == 0,
        width < 75 ==> name_width_of(width, true) == 0,
{
}

/// The footer shows the error, where there is one, and nothing else; without one it starts with the
/// number of the selected row, from one on, and the number of rows.
pub proof fn footer_shows_error_or_place(
    error: Option<Seq<char>>,
    selected: usize,
    count: nat,
    hint: Seq<char>,
)
    ensures
        (error matches Some(text) ==> footer_of(error, selected, count, hint) == " Error: "@ + text
            + " "@),
        error is None && count > 0 ==> crate::text::begins(
            footer_of(error, selected, count, hint),
            " "@ + decimal((selected + 1) as nat) + "/"@ + decimal(count) + " | "@,
        ),
        error is None && count == 0 ==> crate::text::begins(
            footer_of(error, selected, count, hint),
            " "@ + decimal(0) + "/"@ + decimal(0) + " | "@,
        ),
{
    reveal_strlit(" | q:quit  j/k:nav  </> :sort  I:reverse  ");
    reveal_strlit(" | ");
    let keys = " | q:quit  j/k:nav  </> :sort  I:reverse  "@;
    assert(keys.take(3) =~= " | "@);
    if error is None {
        let n: nat = if count > 0 { (selected + 1) as nat } else { 0 };
        let place = " "@ + decimal(n) + "/"@ + decimal(count);
        let text = footer_of(error, selected, count, hint);
        assert(text == place + keys + hint + " "@);
        let head = place + " | "@;
        assert(text.take(head.len() as int) =~= head) by {
            assert forall|i: int| 0 <= i < head.len() implies text[i] == head[i] by {
                if i >= place.len() {
                    assert(text[i] == keys[i - place.len()]);
                    assert(keys.take(3)[i - place.len()] == keys[i - place.len()]);
                }
            }
        }
    }
}

}
