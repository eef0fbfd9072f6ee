//! What keys do.

use vstd::prelude::*;
use crate::app::{App, AppView};
use crate::nav::{last_row, row_down, row_up, rows_down, rows_up};
use crate::slurm::coordinator::{CoordinatorState, CoordinatorView};
use crate::sort::SortColumn;
use crate::ui::tree::header_place;

verus! {

/// A key
#[derive(Debug, Clone, Copy, PartialEq, Eq, Structural)]
pub enum KeyCode {
    Char(char),
    Up,
    Down,
    PageUp,
    PageDown,
    Home,
    End,
    Other,
}

/// What is held down with a key
#[derive(Debug, Clone, Copy, PartialEq, Eq, Structural)]
pub enum Modifiers {
    Plain,
    Control,
    Other,
}

/// What a key does
#[derive(Debug, Clone, Copy, PartialEq, Eq, Structural)]
pub enum Action {
    Quit,
    SelectPrev,
    SelectNext,
    PageUp,
    PageDown,
    SelectFirst,
    SelectLast,
    Refresh,
    SortNext,
    SortPrev,
    Reverse,
    ToggleCompact,
    Nothing,
}

/// What a key does in both views.
pub open spec fn common_action(code: KeyCode, modifiers: Modifiers) -> Action {
    match code {
        KeyCode::Up => Action::SelectPrev,
        KeyCode::Down => Action::SelectNext,
        KeyCode::PageUp => Action::PageUp,
        KeyCode::PageDown => Action::PageDown,
        KeyCode::Home => Action::SelectFirst,
        KeyCode::End => Action::SelectLast,
        KeyCode::Other => Action::Nothing,
        KeyCode::Char(c) => if c == 'q' || (c == 'c' && modifiers == Modifiers::Control) {
            Action::Quit
        } else if c == 'k' {
            Action::SelectPrev
        } else if c == 'j' {
            Action::SelectNext
        } else if c == 'u' && modifiers != Modifiers::Other {
            Action::PageUp
        } else if c == 'd' && modifiers != Modifiers::Other {
            Action::PageDown
        } else if c == 'g' {
            Action::SelectFirst
        } else if c == 'G' {
            Action::SelectLast
        } else if c == '>' || c == '.' {
            Action::SortNext
        } else if c == '<' || c == ',' {
            Action::SortPrev
        } else if c == 'I' {
            Action::Reverse
        } else {
            Action::Nothing
        },
    }
}

/// What a key does in the view of one machine.
pub open spec fn local_action(code: KeyCode, modifiers: Modifiers) -> Action {
    if code == KeyCode::Char('r') {
        Action::Refresh
    } else {
        common_action(code, modifiers)
    }
}

/// What a key does in the view of a job.
pub open spec fn coordinator_action(code: KeyCode, modifiers: Modifiers) -> Action {
    if code == KeyCode::Char('c') && modifiers != Modifiers::Control {
        Action::ToggleCompact
    } else {
        common_action(code, modifiers)
    }
}

fn read_key(code: KeyCode, modifiers: Modifiers) -> (r: Action)
    ensures
        r == common_action(code, modifiers),
{
    match code {
        KeyCode::Up => Action::SelectPrev,
        KeyCode::Down => Action::SelectNext,
        KeyCode::PageUp => Action::PageUp,
        KeyCode::PageDown => Action::PageDown,
        KeyCode::Home => Action::SelectFirst,
        KeyCode::End => Action::SelectLast,
        KeyCode::Other => Action::Nothing,
        KeyCode::Char(c) => match (c, modifiers) {
            ('q', _) | ('c', Modifiers::Control) => Action::Quit,
            ('k', _) => Action::SelectPrev,
            ('j', _) => Action::SelectNext,
            ('u', Modifiers::Plain) | ('u', Modifiers::Control) => Action::PageUp,
            ('d', Modifiers::Plain) | ('d', Modifiers::Control) => Action::PageDown,
            ('g', _) => Action::SelectFirst,
            ('G', _) => Action::SelectLast,
            ('>', _) | ('.', _) => Action::SortNext,
            ('<', _) | (',', _) => Action::SortPrev,
            ('I', _) => Action::Reverse,
            _ => Action::Nothing,
        },
    }
}

/// What a key does in the view of one machine.
pub fn read_local_key(code: KeyCode, modifiers: Modifiers) -> (r: Action)
    ensures
        r == local_action(code, modifiers),
{
    if code == KeyCode::Char('r') {
        Action::Refresh
    } else {
        read_key(code, modifiers)
    }
}

/// What a key does in the view of a job.
pub fn read_coordinator_key(code: KeyCode, modifiers: Modifiers) -> (r: Action)
    ensures
        r == coordinator_action(code, modifiers),
{
    if code == KeyCode::Char('c') && modifiers != Modifiers::Control {
        Action::ToggleCompact
    } else {
        read_key(code, modifiers)
    }
}

/// The rows that a page moves by: those of the terminal but for the two above the tree.
pub open spec fn page_size(height: usize) -> usize {
    height.saturating_sub(2)
}

impl AppView {
    /// The state after an action; a refresh is left to what reads the tree.
    pub open spec fn acted(self, action: Action, height: usize) -> AppView {
        match action {
            Action::Quit => AppView { should_quit: true, ..self },
            Action::SelectPrev => AppView { selected: row_up(self.selected), ..self },
            Action::SelectNext => AppView {
                selected: row_down(self.selected, self.items.len()),
                ..self
            },
            Action::PageUp => AppView {
                selected: rows_up(self.selected, page_size(height)),
                ..self
            },
            Action::PageDown => AppView {
                selected: rows_down(self.selected, page_size(height), self.items.len()),
                ..self
            },
            Action::SelectFirst => AppView { selected: 0, ..self },
            Action::SelectLast => AppView {
                selected: last_row(self.selected, self.items.len()),
                ..self
            },
            Action::SortNext => self.resorted(
                SortColumn::at((self.sort_column.place() + 1) % 9),
                self.sort_direction,
            ),
            Action::SortPrev => self.resorted(
                SortColumn::at((self.sort_column.place() + 8) % 9),
                self.sort_direction,
            ),
            Action::Reverse => self.resorted(self.sort_column, self.sort_direction.opposite()),
            Action::Refresh | Action::ToggleCompact | Action::Nothing => self,
        }
    }
}

impl CoordinatorView {
    /// The state after an action.
    pub open spec fn acted(self, action: Action, height: usize) -> CoordinatorView {
        match action {
            Action::Quit => CoordinatorView { should_quit: true, ..self },
            Action::SelectPrev => CoordinatorView { selected: row_up(self.selected), ..self },
            Action::SelectNext => CoordinatorView {
                selected: row_down(self.selected, self.items.len()),
                ..self
            },
            Action::PageUp => CoordinatorView {
                selected: rows_up(self.selected, page_size(height)),
                ..self
            },
            Action::PageDown => CoordinatorView {
                selected: rows_down(self.selected, page_size(height), self.items.len()),
                ..self
            },
            Action::SelectFirst => CoordinatorView { selected: 0, ..self },
            Action::SelectLast => CoordinatorView {
                selected: last_row(self.selected, self.items.len()),
                ..self
            },
            Action::SortNext => CoordinatorView {
                sort_column: SortColumn::at((self.sort_column.place() + 1) % 9),
                needs_rebuild: true,
                ..self
            },
            Action::SortPrev => CoordinatorView {
                sort_column: SortColumn::at((self.sort_column.place() + 8) % 9),
                needs_rebuild: true,
                ..self
            },
            Action::Reverse => CoordinatorView {
                sort_direction: self.sort_direction.opposite(),
                needs_rebuild: true,
                ..self
            },
            Action::ToggleCompact => CoordinatorView {
                compact_mode: !self.compact_mode,
                needs_rebuild: true,
                ..self
            },
            Action::Refresh | Action::Nothing => self,
        }
    }
}

impl App {
    /// Does what a key asks for, in a terminal of this height.
    pub fn act(&mut self, action: Action, height: usize)
        ensures
            final(self)@ == old(self)@.acted(action, height),
            final(self).wf() == old(self).wf(),
    {
        match action {
            Action::Quit => {
                self.should_quit = true;
            },
            Action::SelectPrev => self.select_prev(),
            Action::SelectNext => self.select_next(),
            Action::PageUp => self.page_up(height.saturating_sub(2)),
            Action::PageDown => self.page_down(height.saturating_sub(2)),
            Action::SelectFirst => self.select_first(),
            Action::SelectLast => self.select_last(),
            Action::SortNext => self.sort_next_column(),
            Action::SortPrev => self.sort_prev_column(),
            Action::Reverse => self.toggle_sort_direction(),
            Action::Refresh | Action::ToggleCompact | Action::Nothing => {},
        }
    }
}

impl CoordinatorState {
    /// Does what a key asks for, in a terminal of this height.
    pub fn act(&mut self, action: Action, height: usize)
        ensures
            final(self)@ == old(self)@.acted(action, height),
            final(self).wf() == old(self).wf(),
    {
        match action {
            Action::Quit => {
                self.should_quit = true;
            },
            Action::SelectPrev => self.select_prev(),
            Action::SelectNext => self.select_next(),
            Action::PageUp => self.page_up(height.saturating_sub(2)),
            Action::PageDown => self.page_down(height.saturating_sub(2)),
            Action::SelectFirst => self.select_first(),
            Action::SelectLast => self.select_last(),
            Action::SortNext => self.sort_next_column(),
            Action::SortPrev => self.sort_prev_column(),
            Action::Reverse => self.toggle_sort_direction(),
            Action::ToggleCompact => self.toggle_compact_mode(),
            Action::Refresh | Action::Nothing => {},
        }
    }
}

/// Moving the selection moves nothing else: by a row, by a page of all rows of the terminal but two, or
/// to either end.
pub proof fn selection_moves_by_keys(v: AppView, height: usize)
    requires
        v.selected < v.items.len() <= usize::MAX,
        height >= 2,
    ensures
        ({
            let n = v.items.len();
            let page = height - 2;
            let at = |action: Action| v.acted(action, height).selected as int;
            &&& at(Action::SelectPrev) == (if v.selected > 0 { v.selected - 1 } else { 0 })
            &&& at(Action::SelectNext) == (if v.selected + 1 < n { v.selected + 1 } else { n - 1 })
            &&& at(Action::PageUp) == (if v.selected >= page { v.selected - page } else { 0 })
            &&& at(Action::PageDown) == (if v.selected + page < n { v.selected + page } else { n - 1 })
            &&& at(Action::SelectFirst) == 0
            &&& at(Action::SelectLast) == n - 1
        }),
        forall|action: Action|
            {
                let w = #[trigger] v.acted(action, height);
                &&& (action is SelectPrev || action is SelectNext || action is PageUp
                    || action is PageDown || action is SelectFirst || action is SelectLast) ==> w
                    == (AppView { selected: w.selected, ..v })
                &&& action is Quit ==> w == (AppView { should_quit: true, ..v })
                &&& action is Refresh || action is ToggleCompact || action is Nothing ==> w == v
            },
{
}

/// In the view of a job the keys move the selection in the same way.
pub proof fn job_selection_moves_by_keys(v: CoordinatorView, height: usize)
    requires
        v.selected < v.items.len() <= usize::MAX,
        height >= 2,
    ensures
        ({
            let n = v.items.len();
            let page = height - 2;
            let at = |action: Action| v.acted(action, height).selected as int;
            &&& at(Action::SelectPrev) == (if v.selected > 0 { v.selected - 1 } else { 0 })
            &&& at(Action::SelectNext) == (if v.selected + 1 < n { v.selected + 1 } else { n - 1 })
            &&& at(Action::PageUp) == (if v.selected >= page { v.selected - page } else { 0 })
            &&& at(Action::PageDown) == (if v.selected + page < n { v.selected + page } else { n - 1 })
            &&& at(Action::SelectFirst) == 0
            &&& at(Action::SelectLast) == n - 1
        }),
        forall|action: Action|
            {
                let w = #[trigger] v.acted(action, height);
                &&& (action is SelectPrev || action is SelectNext || action is PageUp
                    || action is PageDown || action is SelectFirst || action is SelectLast) ==> w
                    == (CoordinatorView { selected: w.selected, ..v })
                &&& action is Quit ==> w == (CoordinatorView { should_quit: true, ..v })
                &&& action is Refresh || action is Nothing ==> w == v
                &&& action is ToggleCompact ==> w == (CoordinatorView {
                    compact_mode: !v.compact_mode,
                    needs_rebuild: true,
                    ..v
                })
            },
{
}

/// The keys for the order go to the column to the right or to the left among the headers, round at the
/// ends, or to the other direction; in the view of a job the rows are then due.
pub proof fn order_changes_by_keys(v: AppView, w: CoordinatorView, height: usize)
    ensures
        header_place(v.acted(Action::SortNext, height).sort_column, false) == (header_place(
            v.sort_column,
            false,
        ) + 1) % 9,
        header_place(v.acted(Action::SortPrev, height).sort_column, false) == (header_place(
            v.sort_column,
            false,
        ) + 8) % 9,
        v.acted(Action::SortNext, height).sort_direction == v.sort_direction,
        v.acted(Action::SortPrev, height).sort_direction == v.sort_direction,
        v.acted(Action::Reverse, height).sort_column == v.sort_column,
        v.acted(Action::Reverse, height).sort_direction != v.sort_direction,
        header_place(w.acted(Action::SortNext, height).sort_column, false) == (header_place(
            w.sort_column,
            false,
        ) + 1) % 9,
        header_place(w.acted(Action::SortPrev, height).sort_column, false) == (header_place(
            w.sort_column,
            false,
        ) + 8) % 9,
        w.acted(Action::SortNext, height).sort_direction == w.sort_direction,
        w.acted(Action::SortPrev, height).sort_direction == w.sort_direction,
        w.acted(Action::Reverse, height).sort_column == w.sort_column,
        w.acted(Action::Reverse, height).sort_direction != w.sort_direction,
        w.acted(Action::SortNext, height).needs_rebuild,
        w.acted(Action::SortPrev, height).needs_rebuild,
        w.acted(Action::Reverse, height).needs_rebuild,
{
    assert(0 <= v.sort_column.place() < 9);
    assert(0 <= w.sort_column.place() < 9);
}

}
