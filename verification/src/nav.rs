//! Moving the selection through the rows, and keeping it in view.

use vstd::prelude::*;

verus! {

/// One row up.
pub open spec fn row_up(selected: usize) -> usize {
    if selected > 0 {
        (selected - 1) as usize
    } else {
        selected
    }
}

/// One row down, as long as there is one.
pub open spec fn row_down(selected: usize, count: nat) -> usize {
    if selected + 1 < count {
        (selected + 1) as usize
    } else {
        selected
    }
}

/// A page up, at most to the first row.
pub open spec fn rows_up(selected: usize, page_size: usize) -> usize {
    if selected >= page_size {
        (selected - page_size) as usize
    } else {
        0
    }
}

/// A page down, at most to the last row.
pub open spec fn rows_down(selected: usize, page_size: usize, count: nat) -> usize {
    if selected + page_size < count {
        (selected + page_size) as usize
    } else if count > 0 {
        (count - 1) as usize
    } else {
        0
    }
}

/// The last row, as long as there is one.
pub open spec fn last_row(selected: usize, count: nat) -> usize {
    if count > 0 {
        (count - 1) as usize
    } else {
        selected
    }
}

/// No move leaves the rows.
pub proof fn moves_stay_within_rows(selected: usize, page_size: usize, count: usize)
    requires
        selected < count,
    ensures
        row_up(selected) < count,
        row_down(selected, count as nat) < count,
        rows_up(selected, page_size) < count,
        rows_down(selected, page_size, count as nat) < count,
        last_row(selected, count as nat) == count - 1,
{
}

/// The steps up and down undo each other where both are possible.
pub proof fn row_down_then_up(selected: usize, count: usize)
    requires
        selected + 1 < count,
    ensures
        row_up(row_down(selected, count as nat)) == selected,
        row_down(row_up(row_down(selected, count as nat)), count as nat) == selected + 1,
{
}

/// Moves the selection one row up.
pub fn step_up(selected: usize) -> (r: usize)
    ensures
        r == row_up(selected),
{
    if selected > 0 {
        selected - 1
    } else {
        selected
    }
}

/// Moves the selection one row down.
pub fn step_down(selected: usize, count: usize) -> (r: usize)
    ensures
        r == row_down(selected, count as nat),
{
    if selected < count && count - selected > 1 {
        selected + 1
    } else {
        selected
    }
}

/// Moves the selection a page up.
pub fn leap_up(selected: usize, page_size: usize) -> (r: usize)
    ensures
        r == rows_up(selected, page_size),
{
    selected.saturating_sub(page_size)
}

/// Moves the selection a page down.
pub fn leap_down(selected: usize, page_size: usize, count: usize) -> (r: usize)
    ensures
        r == rows_down(selected, page_size, count as nat),
{
    if selected < count && page_size < count - selected {
        selected + page_size
    } else {
        count.saturating_sub(1)
    }
}

/// Moves the selection to the last row.
pub fn jump_last(selected: usize, count: usize) -> (r: usize)
    ensures
        r == last_row(selected, count as nat),
{
    if count > 0 {
        count - 1
    } else {
        selected
    }
}

/// The first row in view: where it was, or as near as shows the selection.
pub open spec fn first_in_view(selected: usize, scroll: usize, visible: usize) -> usize {
    if selected < scroll {
        selected
    } else if selected >= scroll + visible {
        ((selected - visible) as usize).saturating_add(1)
    } else {
        scroll
    }
}

/// The selection is in view, unless nothing is.
pub proof fn selection_is_in_view(selected: usize, scroll: usize, visible: usize)
    requires
        visible > 0,
    ensures
        first_in_view(selected, scroll, visible) <= selected,
        selected < first_in_view(selected, scroll, visible) + visible,
{
}

/// The first row in view.
pub fn scroll_to(selected: usize, scroll: usize, visible: usize) -> (r: usize)
    ensures
        r == first_in_view(selected, scroll, visible),
{
    if selected < scroll {
        selected
    } else if selected - scroll >= visible {
        (selected - visible).saturating_add(1)
    } else {
        scroll
    }
}

/// A page goes as far as it can: by its size, or to the first or last row.
pub proof fn page_goes_as_far_as_it_can(selected: usize, page_size: usize, count: usize)
    requires
        selected < count,
    ensures
        rows_up(selected, page_size) == (if page_size <= selected {
            selected - page_size
        } else {
            0
        }),
        rows_down(selected, page_size, count as nat) == (if selected + page_size <= count - 1 {
            selected + page_size
        } else {
            count - 1
        }),
        selected > 0 ==> row_up(selected) == selected - 1,
        row_up(0) == 0,
        selected == count - 1 ==> row_down(selected, count as nat) == selected,
        selected < count - 1 ==> row_down(selected, count as nat) == selected + 1,
        rows_up(selected, 1) == row_up(selected),
        rows_down(selected, 1, count as nat) == row_down(selected, count as nat),
{
}

/// The view moves only as far as it takes to show the selection.
pub proof fn view_moves_no_further_than_needed(selected: usize, scroll: usize, visible: usize)
    requires
        visible > 0,
    ensures
        scroll <= selected < scroll + visible ==> first_in_view(selected, scroll, visible) == scroll,
        selected < scroll ==> first_in_view(selected, scroll, visible) == selected,
        selected >= scroll + visible ==> first_in_view(selected, scroll, visible) + visible == selected
            + 1,
{
}

}
