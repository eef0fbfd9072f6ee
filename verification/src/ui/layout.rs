//! Text in cells of a given width, and its length in bytes.

use vstd::prelude::*;
use crate::text::{chars_of, concat, text_of};

verus! {

pub open spec fn spaces(n: nat) -> Seq<char> {
    Seq::new(n, |i: int| ' ')
}

/// What a text lacks to a width.
pub open spec fn lacking(s: Seq<char>, width: nat) -> nat {
    if s.len() < width {
        (width - s.len()) as nat
    } else {
        0
    }
}

/// A text at the right of a cell.
pub open spec fn to_right(s: Seq<char>, width: nat) -> Seq<char> {
    spaces(lacking(s, width)) + s
}

/// A text at the left of a cell.
pub open spec fn to_left(s: Seq<char>, width: nat) -> Seq<char> {
    s + spaces(lacking(s, width))
}

/// A text in the middle of a cell, rather to the left.
pub open spec fn to_middle(s: Seq<char>, width: nat) -> Seq<char> {
    let n = lacking(s, width);
    spaces(n / 2) + s + spaces((n - n / 2) as nat)
}

/// A text of spaces.
pub fn blank(n: usize) -> (r: String)
    ensures
        r@ == spaces(n as nat),
{
    let mut out = String::new();
    let mut i: usize = 0;
    while i < n
        invariant
            i <= n,
            out@ == spaces(i as nat),
        decreases n - i,
    {
        out.push(' ');
        i += 1;
        assert(out@ =~= spaces(i as nat));
    }
    assert(out@ =~= spaces(n as nat));
    out
}

fn missing(s: &str, width: usize) -> (r: usize)
    ensures
        r == lacking(s@, width as nat),
{
    let v = chars_of(s);
    width.saturating_sub(v.len())
}

/// Puts a text at the right of a cell.
pub fn align_right(s: &str, width: usize) -> (r: String)
    ensures
        r@ == to_right(s@, width as nat),
{
    let pad = blank(missing(s, width));
    concat(pad.as_str(), s)
}

/// Puts a text at the left of a cell.
pub fn align_left(s: &str, width: usize) -> (r: String)
    ensures
        r@ == to_left(s@, width as nat),
{
    let pad = blank(missing(s, width));
    concat(s, pad.as_str())
}

/// Puts a text in the middle of a cell.
pub fn align_middle(s: &str, width: usize) -> (r: String)
    ensures
        r@ == to_middle(s@, width as nat),
{
    let n = missing(s, width);
    let left = blank(n / 2);
    let right = blank(n - n / 2);
    concat(concat(left.as_str(), s).as_str(), right.as_str())
}

/// The bytes that encode a character.
pub open spec fn char_bytes(c: char) -> nat {
    let n = c as int;
    if n < 0x80 {
        1
    } else if n < 0x800 {
        2
    } else if n < 0x1_0000 {
        3
    } else {
        4
    }
}

/// The bytes that encode a text.
pub open spec fn byte_len(s: Seq<char>) -> nat
    decreases s.len(),
{
    if s.len() == 0 {
        0
    } else {
        byte_len(s.drop_last()) + char_bytes(s.last())
    }
}

/// The number of characters that the first bytes of a text encode, where they end with one.
pub open spec fn cut_at(s: Seq<char>, bytes: nat) -> Option<int>
    decreases s.len(),
{
    if byte_len(s) == bytes {
        Some(s.len() as int)
    } else if s.len() == 0 {
        None
    } else {
        cut_at(s.drop_last(), bytes)
    }
}

fn width_of(c: char) -> (r: u64)
    ensures
        r == char_bytes(c),
{
    let n: u32 = c as u32;
    if n < 0x80 {
        1
    } else if n < 0x800 {
        2
    } else if n < 0x1_0000 {
        3
    } else {
        4
    }
}

proof fn lemma_byte_len(s: Seq<char>)
    ensures
        s.len() <= byte_len(s) <= 4 * s.len(),
    decreases s.len(),
{
    if s.len() > 0 {
        lemma_byte_len(s.drop_last());
    }
}

/// The bytes that encode a text.
pub fn count_bytes(s: &str) -> (r: u128)
    ensures
        r == byte_len(s@),
{
    let v = chars_of(s);
    let mut n: u128 = 0;
    let mut i: usize = 0;
    let count: usize = v.len();
    while i < count
        invariant
            i <= count,
            count == v@.len(),
            v@ == s@,
            n == byte_len(v@.take(i as int)),
        decreases count - i,
    {
        proof {
            assert(v@.take(i + 1).drop_last() =~= v@.take(i as int));
            lemma_byte_len(v@.take(i as int));
        }
        n = n + width_of(v[i]) as u128;
        i += 1;
    }
    assert(v@.take(v@.len() as int) =~= v@);
    n
}

/// A user name as it is shown: cut after five bytes, with a mark, where it has more than six.
pub open spec fn user_shown(user: Seq<char>) -> Seq<char> {
    if byte_len(user) > 6 {
        match cut_at(user, 5) {
            Some(k) => user.take(k) + "+"@,
            None => user,
        }
    } else {
        user
    }
}

/// A long user name has a character that ends with its fifth byte.
pub open spec fn user_is_cuttable(user: Seq<char>) -> bool {
    byte_len(user) > 6 ==> cut_at(user, 5) is Some
}

/// Where the first five bytes of a text end, where they end with a character.
fn cut_after_five(s: &str) -> (r: Option<usize>)
    ensures
        match r {
            Some(k) => cut_at(s@, 5) == Some(k as int) && k <= s@.len(),
            None => cut_at(s@, 5) is None,
        },
{
    let v = chars_of(s);
    let mut n: usize = v.len();
    assert(v@.take(n as int) =~= v@);
    while n > 0
        invariant
            n <= v@.len(),
            v@ == s@,
            cut_at(v@.take(n as int), 5) == cut_at(v@, 5),
        decreases n,
    {
        let head = text_of(&v, 0, n);
        assert(head@ =~= v@.take(n as int));
        if count_bytes(head.as_str()) == 5 {
            return Some(n);
        }
        assert(v@.take(n as int).drop_last() =~= v@.take(n - 1));
        n -= 1;
    }
    assert(v@.take(0) =~= seq![]);
    None
}

/// Tests whether a user name can be cut where it is too long.
pub fn can_cut_user(user: &str) -> (r: bool)
    ensures
        r == user_is_cuttable(user@),
{
    count_bytes(user) <= 6 || cut_after_five(user).is_some()
}

/// A user name as it is shown.
pub fn cut_user(user: &str) -> (r: String)
    requires
        user_is_cuttable(user@),
    ensures
        r@ == user_shown(user@),
{
    if count_bytes(user) <= 6 {
        return user.to_string();
    }
    match cut_after_five(user) {
        Some(k) => {
            let v = chars_of(user);
            let head = text_of(&v, 0, k);
            assert(head@ =~= user@.take(k as int));
            concat(head.as_str(), "+")
        },
        None => user.to_string(),
    }
}

/// A name as it is shown in a column: cut, with a mark, where it is wider.
pub open spec fn name_cut(name: Seq<char>, width: nat) -> Seq<char> {
    if name.len() > width {
        name.take(width - 1) + "+"@
    } else {
        name
    }
}

/// A name as it is shown in a column.
pub fn cut_name(name: &str, width: usize) -> (r: String)
    requires
        width > 0,
    ensures
        r@ == name_cut(name@, width as nat),
{
    let v = chars_of(name);
    if v.len() <= width {
        return name.to_string();
    }
    let head = text_of(&v, 0, width - 1);
    assert(head@ =~= name@.take(width - 1));
    concat(head.as_str(), "+")
}

/// A name is never shown wider than its column.
pub proof fn name_fits_its_column(name: Seq<char>, width: nat)
    requires
        width > 0,
    ensures
        name_cut(name, width).len() <= width,
        name.len() <= width ==> name_cut(name, width) == name,
        to_left(name_cut(name, width), width).len() == width,
{
    reveal_strlit("+");
}

proof fn lemma_cut(s: Seq<char>, bytes: nat)
    ensures
        match cut_at(s, bytes) {
            Some(k) => 0 <= k <= s.len() && byte_len(s.take(k)) == bytes,
            None => true,
        },
    decreases s.len(),
{
    if byte_len(s) == bytes {
        assert(s.take(s.len() as int) =~= s);
    } else if s.len() > 0 {
        lemma_cut(s.drop_last(), bytes);
        match cut_at(s.drop_last(), bytes) {
            Some(k) => {
                assert(s.drop_last().take(k) =~= s.take(k));
            },
            None => {},
        }
    }
}

/// A user name is never shown with more than six bytes.
pub proof fn user_fits_its_column(user: Seq<char>)
    requires
        user_is_cuttable(user),
    ensures
        byte_len(user_shown(user)) <= 6,
{
    lemma_cut(user, 5);
    if byte_len(user) > 6 {
        let k = cut_at(user, 5)->0;
        reveal_strlit("+");
        let shown = user.take(k) + "+"@;
        assert(shown.drop_last() =~= user.take(k));
        assert(shown.last() == '+');
    }
}

/// Each space is one byte.
pub proof fn lemma_space_bytes(n: nat)
    ensures
        byte_len(spaces(n)) == n,
    decreases n,
{
    if n > 0 {
        lemma_space_bytes((n - 1) as nat);
        assert(spaces(n).drop_last() =~= spaces((n - 1) as nat));
    }
}

/// A cell is as wide as its column, or as its text where that is wider.
pub proof fn cells_fill_their_columns(s: Seq<char>, width: nat)
    ensures
        to_right(s, width).len() == (if s.len() < width { width } else { s.len() }),
        to_left(s, width).len() == (if s.len() < width { width } else { s.len() }),
        to_middle(s, width).len() == (if s.len() < width { width } else { s.len() }),
{
}

}
