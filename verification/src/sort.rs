//! Sorting of rows: the columns, the keys that rows have in them and the order of keys.

use vstd::prelude::*;
use crate::rate::{rate_less, Rate};
use crate::text::{
    comes_before, lemma_text_before_irreflexive, lemma_text_before_total,
    lemma_text_before_transitive, text_before,
};

verus! {

/// Column that can be sorted
#[derive(Debug, Clone, Copy, PartialEq, Eq, Structural)]
pub enum SortColumn {
    Name,
    Pid,
    User,
    State,
    Cpu,
    Memory,
    Pids,
    IoRead,
    IoWrite,
}

impl SortColumn {
    /// The place of the column in the cycle.
    pub open spec fn place(self) -> int {
        match self {
            SortColumn::Name => 0,
            SortColumn::Pid => 1,
            SortColumn::User => 2,
            SortColumn::State => 3,
            SortColumn::Cpu => 4,
            SortColumn::Memory => 5,
            SortColumn::Pids => 6,
            SortColumn::IoRead => 7,
            SortColumn::IoWrite => 8,
        }
    }

    /// The column at a place in the cycle.
    pub open spec fn at(place: int) -> SortColumn {
        if place == 0 {
            SortColumn::Name
        } else if place == 1 {
            SortColumn::Pid
        } else if place == 2 {
            SortColumn::User
        } else if place == 3 {
            SortColumn::State
        } else if place == 4 {
            SortColumn::Cpu
        } else if place == 5 {
            SortColumn::Memory
        } else if place == 6 {
            SortColumn::Pids
        } else if place == 7 {
            SortColumn::IoRead
        } else {
            SortColumn::IoWrite
        }
    }

    /// Get next column (for cycling with > key)
    pub fn next(self) -> (r: Self)
        ensures
            r == SortColumn::at((self.place() + 1) % 9),
    {
        match self {
            SortColumn::Name => SortColumn::Pid,
            SortColumn::Pid => SortColumn::User,
            SortColumn::User => SortColumn::State,
            SortColumn::State => SortColumn::Cpu,
            SortColumn::Cpu => SortColumn::Memory,
            SortColumn::Memory => SortColumn::Pids,
            SortColumn::Pids => SortColumn::IoRead,
            SortColumn::IoRead => SortColumn::IoWrite,
            SortColumn::IoWrite => SortColumn::Name,
        }
    }

    /// Get previous column (for cycling with < key)
    pub fn prev(self) -> (r: Self)
        ensures
            r == SortColumn::at((self.place() + 8) % 9),
    {
        match self {
            SortColumn::Name => SortColumn::IoWrite,
            SortColumn::Pid => SortColumn::Name,
            SortColumn::User => SortColumn::Pid,
            SortColumn::State => SortColumn::User,
            SortColumn::Cpu => SortColumn::State,
            SortColumn::Memory => SortColumn::Cpu,
            SortColumn::Pids => SortColumn::Memory,
            SortColumn::IoRead => SortColumn::Pids,
            SortColumn::IoWrite => SortColumn::IoRead,
        }
    }
}

/// The columns form one cycle: going on and going back undo each other, and nine steps on lead
/// back to the column but no fewer do.
pub proof fn columns_form_a_cycle(c: SortColumn, k: nat)
    ensures
        SortColumn::at((SortColumn::at((c.place() + 1) % 9).place() + 8) % 9) == c,
        SortColumn::at((SortColumn::at((c.place() + 8) % 9).place() + 1) % 9) == c,
        k <= 9 ==> (SortColumn::at((c.place() + k as int) % 9) == c <==> k == 0 || k == 9),
{
    assert(0 <= c.place() < 9);
}

/// Sort direction
#[derive(Debug, Clone, Copy, PartialEq, Eq, Structural)]
pub enum SortDirection {
    Ascending,
    Descending,
}

impl SortDirection {
    pub open spec fn opposite(self) -> SortDirection {
        match self {
            SortDirection::Ascending => SortDirection::Descending,
            SortDirection::Descending => SortDirection::Ascending,
        }
    }

    /// The other direction.
    pub fn toggle(self) -> (r: Self)
        ensures
            r == self.opposite(),
    {
        match self {
            SortDirection::Ascending => SortDirection::Descending,
            SortDirection::Descending => SortDirection::Ascending,
        }
    }
}

/// Reversing the direction twice restores it.
pub proof fn toggle_twice_restores(d: SortDirection)
    ensures
        d.opposite() != d,
        d.opposite().opposite() == d,
{
}

/// What a row is sorted by.
pub enum Key {
    Text(String),
    Count(Option<u64>),
    Speed(Rate),
}

/// What a key holds.
pub enum KeyView {
    Text(Seq<char>),
    Count(Option<u64>),
    Speed(Rate),
}

impl View for Key {
    type V = KeyView;

    open spec fn view(&self) -> KeyView {
        match self {
            Key::Text(s) => KeyView::Text(s@),
            Key::Count(n) => KeyView::Count(*n),
            Key::Speed(r) => KeyView::Speed(*r),
        }
    }
}

/// A missing count is less than any other.
pub open spec fn count_less(a: Option<u64>, b: Option<u64>) -> bool {
    match (a, b) {
        (Some(x), Some(y)) => x < y,
        (None, Some(_)) => true,
        _ => false,
    }
}

/// The order of keys. A pending rate is neither less nor greater than any other.
pub open spec fn key_less(a: KeyView, b: KeyView) -> bool {
    match (a, b) {
        (KeyView::Text(x), KeyView::Text(y)) => text_before(x, y),
        (KeyView::Count(x), KeyView::Count(y)) => count_less(x, y),
        (KeyView::Speed(x), KeyView::Speed(y)) => rate_less(x, y),
        _ => false,
    }
}

/// One key has to stand before the other.
pub open spec fn precedes(a: KeyView, b: KeyView, direction: SortDirection) -> bool {
    match direction {
        SortDirection::Ascending => key_less(a, b),
        SortDirection::Descending => key_less(b, a),
    }
}

pub open spec fn key_views(keys: Seq<Key>) -> Seq<KeyView> {
    keys.map_values(|k: Key| k@)
}

/// The order with one more index put behind all those it need not stand before.
pub open spec fn placed(
    order: Seq<int>,
    keys: Seq<KeyView>,
    x: int,
    direction: SortDirection,
) -> Seq<int>
    decreases order.len(),
{
    if order.len() > 0 && precedes(keys[x], keys[order.last()], direction) {
        placed(order.drop_last(), keys, x, direction).push(order.last())
    } else {
        order.push(x)
    }
}

/// The first `n` indices of the keys, in the order of the keys.
pub open spec fn ranked(keys: Seq<KeyView>, n: nat, direction: SortDirection) -> Seq<int>
    decreases n,
{
    if n == 0 {
        seq![]
    } else {
        placed(ranked(keys, (n - 1) as nat, direction), keys, n - 1, direction)
    }
}

/// The indices of the keys in sorted order, equal keys in the order they came in.
pub open spec fn sorted(keys: Seq<KeyView>, direction: SortDirection) -> Seq<int> {
    ranked(keys, keys.len(), direction)
}

/// Every index below `n` occurs exactly once.
pub open spec fn is_permutation(order: Seq<int>, n: nat) -> bool {
    &&& order.len() == n
    &&& forall|i: int| 0 <= i < n ==> 0 <= #[trigger] order[i] < n
    &&& forall|i: int, j: int| 0 <= i < j < n ==> order[i] != order[j]
}

/// No two keys are said to precede each other, and keys that need not precede one another
/// pass that on.
pub open spec fn consistent(keys: Seq<KeyView>, direction: SortDirection) -> bool {
    &&& forall|i: int, j: int|
        0 <= i < keys.len() && 0 <= j < keys.len() && #[trigger] precedes(keys[i], keys[j], direction)
            ==> !precedes(keys[j], keys[i], direction)
    &&& forall|i: int, j: int, k: int|
        0 <= i < keys.len() && 0 <= j < keys.len() && 0 <= k < keys.len()
            && !#[trigger] precedes(keys[i], keys[j], direction) && !#[trigger] precedes(
            keys[j],
            keys[k],
            direction,
        ) ==> !precedes(keys[i], keys[k], direction)
}

/// All keys are of one kind, and none is a pending rate.
pub open spec fn comparable(keys: Seq<KeyView>) -> bool {
    ||| forall|i: int| 0 <= i < keys.len() ==> #[trigger] keys[i] is Text
    ||| forall|i: int| 0 <= i < keys.len() ==> #[trigger] keys[i] is Count
    ||| forall|i: int|
        0 <= i < keys.len() ==> (#[trigger] keys[i] is Speed && !keys[i]->Speed_0.pending())
}

proof fn lemma_placed_at(
    order: Seq<int>,
    keys: Seq<KeyView>,
    x: int,
    direction: SortDirection,
    pos: int,
)
    requires
        0 <= pos <= order.len(),
        forall|j: int| pos <= j < order.len() ==> precedes(keys[x], keys[#[trigger] order[j]], direction),
        pos > 0 ==> !precedes(keys[x], keys[order[pos - 1]], direction),
    ensures
        placed(order, keys, x, direction) == order.insert(pos, x),
    decreases order.len(),
{
    if pos == order.len() {
        assert(order.insert(pos, x) =~= order.push(x));
    } else {
        let front = order.drop_last();
        assert(precedes(keys[x], keys[order[order.len() - 1]], direction));
        assert forall|j: int| pos <= j < front.len() implies precedes(
            keys[x],
            keys[#[trigger] front[j]],
            direction,
        ) by {
            assert(front[j] == order[j]);
        }
        lemma_placed_at(front, keys, x, direction, pos);
        assert(order.insert(pos, x) =~= front.insert(pos, x).push(order.last()));
    }
}

/// Where the index goes.
proof fn lemma_place(order: Seq<int>, keys: Seq<KeyView>, x: int, direction: SortDirection) -> (pos:
    int)
    ensures
        0 <= pos <= order.len(),
        forall|j: int| pos <= j < order.len() ==> precedes(keys[x], keys[#[trigger] order[j]], direction),
        pos > 0 ==> !precedes(keys[x], keys[order[pos - 1]], direction),
        placed(order, keys, x, direction) == order.insert(pos, x),
    decreases order.len(),
{
    if order.len() > 0 && precedes(keys[x], keys[order.last()], direction) {
        let pos = lemma_place(order.drop_last(), keys, x, direction);
        assert forall|j: int| pos <= j < order.len() implies precedes(
            keys[x],
            keys[#[trigger] order[j]],
            direction,
        ) by {
            if j < order.len() - 1 {
                assert(order[j] == order.drop_last()[j]);
            }
        }
        lemma_placed_at(order, keys, x, direction, pos);
        pos
    } else {
        lemma_placed_at(order, keys, x, direction, order.len() as int);
        order.len() as int
    }
}

proof fn lemma_ranked_permutation(keys: Seq<KeyView>, n: nat, direction: SortDirection)
    ensures
        is_permutation(ranked(keys, n, direction), n),
    decreases n,
{
    if n > 0 {
        let before = ranked(keys, (n - 1) as nat, direction);
        lemma_ranked_permutation(keys, (n - 1) as nat, direction);
        let pos = lemma_place(before, keys, n - 1, direction);
        let after = ranked(keys, n, direction);
        assert(after == before.insert(pos, n - 1));
        assert forall|i: int| 0 <= i < n implies 0 <= #[trigger] after[i] < n by {
            if i < pos {
                assert(after[i] == before[i]);
            } else if i > pos {
                assert(after[i] == before[i - 1]);
            }
        }
        assert forall|i: int, j: int| 0 <= i < j < n implies after[i] != after[j] by {
            let u = if i < pos { i } else { i - 1 };
            let v = if j < pos { j } else { j - 1 };
            if i != pos {
                assert(after[i] == before[u]);
            }
            if j != pos {
                assert(after[j] == before[v]);
            }
        }
    }
}

/// Sorting neither drops nor repeats a row.
pub proof fn sorted_is_permutation(keys: Seq<KeyView>, direction: SortDirection)
    ensures
        is_permutation(sorted(keys, direction), keys.len()),
{
    lemma_ranked_permutation(keys, keys.len(), direction);
}

proof fn lemma_ranked_has(keys: Seq<KeyView>, n: nat, direction: SortDirection, x: int)
    requires
        0 <= x < n,
    ensures
        ranked(keys, n, direction).contains(x),
    decreases n,
{
    let before = ranked(keys, (n - 1) as nat, direction);
    let pos = lemma_place(before, keys, n - 1, direction);
    let order = ranked(keys, n, direction);
    if x == n - 1 {
        assert(order[pos] == x);
    } else {
        lemma_ranked_has(keys, (n - 1) as nat, direction, x);
        let k = choose|k: int| 0 <= k < before.len() && before[k] == x;
        assert(order[if k < pos { k } else { k + 1 }] == x);
    }
}

/// Every row has its place in the sorted order.
pub proof fn sorted_has_every_row(keys: Seq<KeyView>, direction: SortDirection, x: int)
    requires
        0 <= x < keys.len(),
    ensures
        sorted(keys, direction).contains(x),
{
    lemma_ranked_has(keys, keys.len(), direction, x);
}

proof fn lemma_ranked_in_order(keys: Seq<KeyView>, n: nat, direction: SortDirection)
    requires
        n <= keys.len(),
        consistent(keys, direction),
    ensures
        ({
            let order = ranked(keys, n, direction);
            forall|i: int, j: int| #![trigger order[i], order[j]]
                0 <= i < j < n ==> {
                    &&& !precedes(keys[order[j]], keys[order[i]], direction)
                    &&& !precedes(keys[order[i]], keys[order[j]], direction) ==> order[i] < order[j]
                }
        }),
    decreases n,
{
    if n > 0 {
        let x = n - 1;
        let before = ranked(keys, (n - 1) as nat, direction);
        lemma_ranked_in_order(keys, (n - 1) as nat, direction);
        lemma_ranked_permutation(keys, (n - 1) as nat, direction);
        let pos = lemma_place(before, keys, x, direction);
        let after = ranked(keys, n, direction);
        assert(after == before.insert(pos, x));
        assert forall|i: int, j: int| #![trigger after[i], after[j]] 0 <= i < j < n implies {
            &&& !precedes(keys[after[j]], keys[after[i]], direction)
            &&& !precedes(keys[after[i]], keys[after[j]], direction) ==> after[i] < after[j]
        } by {
            let u = if i < pos { i } else { i - 1 };
            let v = if j < pos { j } else { j - 1 };
            if i != pos {
                assert(after[i] == before[u]);
                assert(0 <= before[u] < n - 1);
            }
            if j != pos {
                assert(after[j] == before[v]);
                assert(0 <= before[v] < n - 1);
            }
            if j == pos {
                assert(after[j] == x);
                assert(!precedes(keys[x], keys[before[pos - 1]], direction));
                if u < pos - 1 {
                    assert(0 <= before[pos - 1] < n - 1);
                    assert(!precedes(keys[before[pos - 1]], keys[before[u]], direction));
                }
            } else if i == pos {
                assert(after[i] == x);
                assert(precedes(keys[x], keys[before[v]], direction));
            }
        }
    }
}

/// Where the keys can be compared, no row stands before one that has to precede it, and rows
/// with equal keys keep the order they came in.
pub proof fn sorted_is_in_order(keys: Seq<KeyView>, direction: SortDirection)
    requires
        consistent(keys, direction),
    ensures
        ({
            let order = sorted(keys, direction);
            forall|i: int, j: int| #![trigger order[i], order[j]]
                0 <= i < j < keys.len() ==> {
                    &&& !precedes(keys[order[j]], keys[order[i]], direction)
                    &&& !precedes(keys[order[i]], keys[order[j]], direction) ==> order[i] < order[j]
                }
        }),
{
    lemma_ranked_in_order(keys, keys.len(), direction);
}

/// Keys of one kind can be compared unless one of them is a pending rate.
pub proof fn comparable_is_consistent(keys: Seq<KeyView>, direction: SortDirection)
    requires
        comparable(keys),
    ensures
        consistent(keys, direction),
{
    assert forall|i: int, j: int|
        0 <= i < keys.len() && 0 <= j < keys.len() && #[trigger] precedes(
            keys[i],
            keys[j],
            direction,
        ) implies !precedes(keys[j], keys[i], direction) by {
        lemma_key_less_asymmetric(keys[i], keys[j]);
        lemma_key_less_asymmetric(keys[j], keys[i]);
    }
    assert forall|i: int, j: int, k: int|
        0 <= i < keys.len() && 0 <= j < keys.len() && 0 <= k < keys.len()
            && !#[trigger] precedes(keys[i], keys[j], direction) && !#[trigger] precedes(
            keys[j],
            keys[k],
            direction,
        ) implies !precedes(keys[i], keys[k], direction) by {
        let (a, b, c) = (keys[i], keys[j], keys[k]);
        match (a, b, c) {
            (KeyView::Text(x), KeyView::Text(y), KeyView::Text(z)) => {
                lemma_text_not_before(x, y, z);
                lemma_text_not_before(z, y, x);
            },
            _ => {},
        }
    }
}

proof fn lemma_key_less_asymmetric(a: KeyView, b: KeyView)
    ensures
        key_less(a, b) ==> !key_less(b, a),
{
    match (a, b) {
        (KeyView::Text(x), KeyView::Text(y)) => {
            if text_before(x, y) && text_before(y, x) {
                lemma_text_before_transitive(x, y, x);
                lemma_text_before_irreflexive(x);
            }
        },
        _ => {},
    }
}

proof fn lemma_text_not_before(a: Seq<char>, b: Seq<char>, c: Seq<char>)
    ensures
        !text_before(a, b) && !text_before(b, c) ==> !text_before(a, c),
{
    if !text_before(a, b) && !text_before(b, c) && text_before(a, c) {
        lemma_text_before_total(a, b);
        lemma_text_before_total(b, c);
        if a != b && b != c {
            lemma_text_before_transitive(c, b, a);
            lemma_text_before_transitive(a, c, a);
            lemma_text_before_irreflexive(a);
        }
    }
}

/// Tests whether one key is less than the other.
pub fn is_less(a: &Key, b: &Key) -> (r: bool)
    ensures
        r == key_less(a@, b@),
{
    match (a, b) {
        (Key::Text(x), Key::Text(y)) => comes_before(x.as_str(), y.as_str()),
        (Key::Count(x), Key::Count(y)) => match (x, y) {
            (Some(m), Some(n)) => *m < *n,
            (None, Some(_)) => true,
            _ => false,
        },
        (Key::Speed(x), Key::Speed(y)) => !x.is_pending() && !y.is_pending() && x.bits < y.bits,
        _ => false,
    }
}

fn goes_first(a: &Key, b: &Key, direction: SortDirection) -> (r: bool)
    ensures
        r == precedes(a@, b@, direction),
{
    match direction {
        SortDirection::Ascending => is_less(a, b),
        SortDirection::Descending => is_less(b, a),
    }
}

/// What a list of indices holds.
pub open spec fn indices(list: Seq<usize>) -> Seq<int> {
    list.map_values(|i: usize| i as int)
}

/// The indices of the keys in sorted order.
pub fn sort_keys(keys: &Vec<Key>, direction: SortDirection) -> (r: Vec<usize>)
    ensures
        indices(r@) == sorted(key_views(keys@), direction),
        is_permutation(indices(r@), keys@.len()),
{
    let ghost views = key_views(keys@);
    let mut order: Vec<usize> = Vec::new();
    let mut x: usize = 0;
    assert(indices(order@) =~= ranked(views, 0, direction));
    while x < keys.len()
        invariant
            x <= keys@.len(),
            views == key_views(keys@),
            indices(order@) == ranked(views, x as nat, direction),
            order@.len() == x,
            forall|j: int| 0 <= j < x ==> #[trigger] order@[j] < x,
        decreases keys@.len() - x,
    {
        let mut pos: usize = order.len();
        while pos > 0 && goes_first(&keys[x], &keys[order[pos - 1]], direction)
            invariant
                x < keys@.len(),
                order@.len() == x,
                forall|j: int| 0 <= j < x ==> #[trigger] order@[j] < x,
                pos <= order@.len(),
                views == key_views(keys@),
                forall|j: int|
                    pos <= j < order@.len() ==> precedes(
                        views[x as int],
                        views[indices(order@)[j]],
                        direction,
                    ),
            ensures
                pos <= order@.len(),
                forall|j: int|
                    pos <= j < order@.len() ==> precedes(
                        views[x as int],
                        views[indices(order@)[j]],
                        direction,
                    ),
                pos > 0 ==> !precedes(views[x as int], views[indices(order@)[pos - 1]], direction),
            decreases pos,
        {
            pos -= 1;
        }
        let ghost before = order@;
        proof {
            lemma_placed_at(indices(before), views, x as int, direction, pos as int);
        }
        order.insert(pos, x);
        proof {
            assert(indices(order@) =~= indices(before).insert(pos as int, x as int));
            assert forall|j: int| 0 <= j < x + 1 implies #[trigger] order@[j] < x + 1 by {
                if j < pos {
                    assert(order@[j] == before[j]);
                } else if j > pos {
                    assert(order@[j] == before[j - 1]);
                }
            }
        }
        x += 1;
    }
    proof {
        sorted_is_permutation(views, direction);
    }
    order
}

/// The sum of what the indices of an order count for.
pub open spec fn total(order: Seq<int>, f: spec_fn(int) -> nat) -> nat
    decreases order.len(),
{
    if order.len() == 0 {
        0
    } else {
        total(order.drop_last(), f) + f(order.last())
    }
}

/// The sum of what the first `n` indices count for.
pub open spec fn total_below(n: nat, f: spec_fn(int) -> nat) -> nat
    decreases n,
{
    if n == 0 {
        0
    } else {
        total_below((n - 1) as nat, f) + f(n - 1)
    }
}

proof fn lemma_total_placed(
    order: Seq<int>,
    keys: Seq<KeyView>,
    x: int,
    direction: SortDirection,
    f: spec_fn(int) -> nat,
)
    ensures
        total(placed(order, keys, x, direction), f) == total(order, f) + f(x),
    decreases order.len(),
{
    if order.len() > 0 && precedes(keys[x], keys[order.last()], direction) {
        lemma_total_placed(order.drop_last(), keys, x, direction, f);
        let r = placed(order.drop_last(), keys, x, direction);
        assert(r.push(order.last()).drop_last() =~= r);
    } else {
        assert(order.push(x).drop_last() =~= order);
    }
}

proof fn lemma_total_ranked(
    keys: Seq<KeyView>,
    n: nat,
    direction: SortDirection,
    f: spec_fn(int) -> nat,
)
    ensures
        total(ranked(keys, n, direction), f) == total_below(n, f),
    decreases n,
{
    if n > 0 {
        lemma_total_ranked(keys, (n - 1) as nat, direction, f);
        lemma_total_placed(ranked(keys, (n - 1) as nat, direction), keys, n - 1, direction, f);
    }
}

/// What rows count for in all does not depend on their order.
pub proof fn sorting_keeps_totals(
    keys: Seq<KeyView>,
    direction: SortDirection,
    f: spec_fn(int) -> nat,
)
    ensures
        total(sorted(keys, direction), f) == total_below(keys.len(), f),
{
    lemma_total_ranked(keys, keys.len(), direction, f);
}

/// Keys that are in order already stay where they are.
pub proof fn sorting_keeps_what_is_in_order(keys: Seq<KeyView>, direction: SortDirection, n: nat)
    requires
        n <= keys.len(),
        forall|i: int, j: int|
            0 <= i < j < keys.len() ==> !precedes(#[trigger] keys[j], #[trigger] keys[i], direction),
    ensures
        ranked(keys, n, direction) == Seq::new(n, |i: int| i),
    decreases n,
{
    if n > 0 {
        sorting_keeps_what_is_in_order(keys, direction, (n - 1) as nat);
        let before = ranked(keys, (n - 1) as nat, direction);
        if n > 1 {
            assert(before.last() == n - 2);
            assert(!precedes(keys[n - 1], keys[n - 2], direction));
        }
        assert(before.push(n - 1) =~= Seq::new(n, |i: int| i));
    } else {
        assert(ranked(keys, 0, direction) =~= Seq::new(0, |i: int| i));
    }
}

}
