//! Sorting, and moving through the rows.

use jam::nav::{jump_last, leap_down, leap_up, scroll_to, step_down, step_up};
use jam::rate::Rate;
use jam::sort::{sort_keys, Key, SortColumn, SortDirection};

const COLUMNS: [SortColumn; 9] = [
    SortColumn::Name, SortColumn::Pid, SortColumn::User, SortColumn::State, SortColumn::Cpu,
    SortColumn::Memory, SortColumn::Pids, SortColumn::IoRead, SortColumn::IoWrite,
];

#[test]
fn columns_are_cycled_through() {
    for (i, c) in COLUMNS.iter().enumerate() {
        assert_eq!(c.next(), COLUMNS[(i + 1) % 9]);
        assert_eq!(c.prev(), COLUMNS[(i + 8) % 9]);
        assert_eq!(c.next().prev(), *c);
        assert_eq!(c.prev().next(), *c);
    }
    assert_eq!(SortDirection::Ascending.toggle(), SortDirection::Descending);
    assert_eq!(SortDirection::Descending.toggle(), SortDirection::Ascending);
}

fn rate(x: f32) -> Rate {
    Rate::from_bits(x.to_bits())
}

#[test]
fn sorting_is_stable_in_both_directions() {
    let texts = ["b", "a", "b", "", "ab", "a"];
    let keys: Vec<Key> = texts.iter().map(|t| Key::Text(t.to_string())).collect();
    assert_eq!(sort_keys(&keys, SortDirection::Ascending), vec![3, 1, 5, 4, 0, 2]);
    assert_eq!(sort_keys(&keys, SortDirection::Descending), vec![0, 2, 4, 1, 5, 3]);
    let keys: Vec<Key> =
        [Some(3u64), None, Some(0), Some(3), None].iter().map(|n| Key::Count(*n)).collect();
    assert_eq!(sort_keys(&keys, SortDirection::Ascending), vec![1, 4, 2, 0, 3]);
    assert_eq!(sort_keys(&keys, SortDirection::Descending), vec![0, 3, 2, 1, 4]);
    let keys: Vec<Key> =
        [0.5f32, 1e10, 0.0, 0.5, f32::INFINITY].iter().map(|x| Key::Speed(rate(*x))).collect();
    assert_eq!(sort_keys(&keys, SortDirection::Descending), vec![4, 1, 0, 3, 2]);
}

#[test]
fn sorting_agrees_with_std() {
    let mut n: u64 = 7;
    for round in 0..50 {
        let mut values: Vec<u64> = Vec::new();
        for _ in 0..round {
            n = n.wrapping_mul(6364136223846793005).wrapping_add(1442695040888963407);
            values.push((n >> 33) % 20);
        }
        let keys: Vec<Key> = values.iter().map(|v| Key::Count(Some(*v))).collect();
        let mut up: Vec<usize> = (0..values.len()).collect();
        up.sort_by(|a, b| values[*a].cmp(&values[*b]));
        let mut down: Vec<usize> = (0..values.len()).collect();
        down.sort_by(|a, b| values[*a].cmp(&values[*b]).reverse());
        assert_eq!(sort_keys(&keys, SortDirection::Ascending), up);
        assert_eq!(sort_keys(&keys, SortDirection::Descending), down);
    }
}

#[test]
fn pending_rates_count_as_equal_to_all() {
    let keys = vec![Key::Speed(rate(f32::NAN)), Key::Speed(rate(1.0)), Key::Speed(rate(f32::NAN))];
    assert_eq!(sort_keys(&keys, SortDirection::Ascending), vec![0, 1, 2]);
    assert_eq!(sort_keys(&keys, SortDirection::Descending), vec![0, 1, 2]);
}

#[test]
fn the_selection_stays_within_the_rows() {
    assert_eq!(step_up(0), 0);
    assert_eq!(step_up(5), 4);
    assert_eq!(step_down(0, 0), 0);
    assert_eq!(step_down(1, 3), 2);
    assert_eq!(step_down(2, 3), 2);
    assert_eq!(step_down(usize::MAX, 3), usize::MAX);
    assert_eq!(leap_up(3, 10), 0);
    assert_eq!(leap_up(13, 10), 3);
    assert_eq!(leap_down(3, 10, 8), 7);
    assert_eq!(leap_down(3, 2, 8), 5);
    assert_eq!(leap_down(3, usize::MAX, 8), 7);
    assert_eq!(leap_down(3, 2, 0), 0);
    assert_eq!(leap_down(30, 2, 8), 7);
    assert_eq!(jump_last(3, 8), 7);
    assert_eq!(jump_last(3, 0), 3);
}

#[test]
fn the_selection_is_kept_in_view() {
    assert_eq!(scroll_to(0, 0, 10), 0);
    assert_eq!(scroll_to(9, 0, 10), 0);
    assert_eq!(scroll_to(10, 0, 10), 1);
    assert_eq!(scroll_to(3, 7, 10), 3);
    assert_eq!(scroll_to(12, 7, 10), 7);
    assert_eq!(scroll_to(5, 0, 0), 6);
    assert_eq!(scroll_to(usize::MAX, usize::MAX, 1), usize::MAX);
}
