//! Paths: their parts, which of them name one place, and their last part.

use vstd::prelude::*;
use crate::text::{
    begins, begins_with, concat, fields, fields_at_separator, joined, joined_splits_back, same_text,
    split_on, text_in, texts,
};

verus! {

/// The parts of a path: what stands between its slashes, but for empty parts and dots.
pub open spec fn path_parts(path: Seq<char>) -> Seq<Seq<char>> {
    fields(path, '/').filter(|part: Seq<char>| is_step(part))
}

pub open spec fn is_step(part: Seq<char>) -> bool {
    part.len() > 0 && part != "."@
}

pub open spec fn is_rooted(path: Seq<char>) -> bool {
    path.len() > 0 && path[0] == '/'
}

/// A path that says that it starts where one stands.
pub open spec fn starts_with_dot(path: Seq<char>) -> bool {
    fields(path, '/')[0] == "."@
}

/// The place that a path names: its parts and where it starts.
pub struct Place {
    pub rooted: bool,
    pub dotted: bool,
    pub parts: Seq<Seq<char>>,
}

pub open spec fn place_of(path: Seq<char>) -> Place {
    Place { rooted: is_rooted(path), dotted: starts_with_dot(path), parts: path_parts(path) }
}

/// Both paths have the same parts from the same start.
pub open spec fn same_place(a: Seq<char>, b: Seq<char>) -> bool {
    place_of(a) == place_of(b)
}

/// The last part of a path, unless it has none or leads up.
pub open spec fn last_part(path: Seq<char>) -> Option<Seq<char>> {
    let parts = path_parts(path);
    if parts.len() == 0 || parts.last() == ".."@ {
        None
    } else {
        Some(parts.last())
    }
}

/// The path of `rest` seen from `base`.
pub open spec fn path_joined(base: Seq<char>, rest: Seq<char>) -> Seq<char> {
    if is_rooted(rest) {
        rest
    } else if base.len() == 0 || base.last() == '/' {
        base + rest
    } else {
        base + "/"@ + rest
    }
}

fn parts_of(pieces: &Vec<String>) -> (r: Vec<String>)
    ensures
        texts(r@) == texts(pieces@).filter(|part: Seq<char>| is_step(part)),
{
    let ghost all = texts(pieces@);
    let ghost keep = |part: Seq<char>| is_step(part);
    let mut out: Vec<String> = Vec::new();
    let mut i: usize = 0;
    proof {
        reveal(Seq::filter);
        assert(texts(out@) =~= all.take(0).filter(keep));
    }
    while i < pieces.len()
        invariant
            i <= pieces@.len(),
            all == texts(pieces@),
            keep == (|part: Seq<char>| is_step(part)),
            texts(out@) == all.take(i as int).filter(keep),
        decreases pieces@.len() - i,
    {
        let ghost before = out@;
        proof {
            reveal(Seq::filter);
            assert(all.take(i + 1).drop_last() =~= all.take(i as int));
            assert(all.take(i + 1).last() == all[i as int]);
            assert(all[i as int] == pieces@[i as int]@);
            reveal_strlit("");
            assert(all[i as int].len() == 0 ==> all[i as int] =~= ""@);
        }
        if !same_text(pieces[i].as_str(), "") && !same_text(pieces[i].as_str(), ".") {
            out.push(pieces[i].clone());
            assert(texts(out@) =~= texts(before).push(pieces@[i as int]@));
        }
        i += 1;
    }
    assert(all.take(all.len() as int) =~= all);
    out
}

/// The parts of a path.
pub fn split_path(path: &str) -> (r: Vec<String>)
    ensures
        texts(r@) == path_parts(path@),
{
    let pieces = split_on(path, '/');
    parts_of(&pieces)
}

fn has_root(path: &str) -> (r: bool)
    ensures
        r == is_rooted(path@),
{
    proof {
        reveal_strlit("/");
        assert(path@.len() > 0 ==> path@.take(1) =~= seq![path@[0]]);
        assert("/"@ =~= seq!['/']);
        assert(begins(path@, "/"@) ==> path@.take(1)[0] == '/');
    }
    begins_with(path, "/")
}

fn same_parts(a: &Vec<String>, b: &Vec<String>) -> (r: bool)
    ensures
        r == (texts(a@) == texts(b@)),
{
    if a.len() != b.len() {
        assert(texts(a@).len() != texts(b@).len());
        return false;
    }
    let mut i: usize = 0;
    while i < a.len()
        invariant
            i <= a@.len() == b@.len(),
            forall|j: int| 0 <= j < i ==> texts(a@)[j] == texts(b@)[j],
        decreases a@.len() - i,
    {
        if !same_text(a[i].as_str(), b[i].as_str()) {
            assert(texts(a@)[i as int] != texts(b@)[i as int]);
            return false;
        }
        i += 1;
    }
    assert(texts(a@) =~= texts(b@));
    true
}

/// Tests whether two paths name one place.
pub fn same_path(a: &str, b: &str) -> (r: bool)
    ensures
        r == same_place(a@, b@),
{
    let first = split_on(a, '/');
    let second = split_on(b, '/');
    proof {
        assert(texts(first@).len() > 0 && texts(first@)[0] == first@[0]@);
        assert(texts(second@).len() > 0 && texts(second@)[0] == second@[0]@);
    }
    has_root(a) == has_root(b) && same_text(first[0].as_str(), ".") == same_text(
        second[0].as_str(),
        ".",
    ) && same_parts(&parts_of(&first), &parts_of(&second))
}

/// The last part of a path.
pub fn file_name(path: &str) -> (r: Option<String>)
    ensures
        text_in(r) == last_part(path@),
{
    let parts = split_path(path);
    let n: usize = parts.len();
    assert(texts(parts@).len() == n);
    if n == 0 {
        None
    } else if same_text(parts[n - 1].as_str(), "..") {
        None
    } else {
        Some(parts[n - 1].clone())
    }
}

/// Joins two paths.
pub fn join_path(base: &str, rest: &str) -> (r: String)
    ensures
        r@ == path_joined(base@, rest@),
{
    if has_root(rest) {
        return rest.to_string();
    }
    let chars = crate::text::chars_of(base);
    if chars.len() == 0 || chars[chars.len() - 1] == '/' {
        concat(base, rest)
    } else {
        let with_slash = concat(base, "/");
        concat(with_slash.as_str(), rest)
    }
}

proof fn lemma_parts_at_slash(a: Seq<char>, b: Seq<char>)
    ensures
        path_parts(a + seq!['/'] + b) == path_parts(a) + path_parts(b),
{
    let keep = |part: Seq<char>| is_step(part);
    fields_at_separator(a, '/', b);
    Seq::filter_distributes_over_add(fields(a, '/'), fields(b, '/'), keep);
}

proof fn lemma_no_parts()
    ensures
        path_parts(Seq::empty()) == Seq::<Seq<char>>::empty(),
{
    let none = Seq::<char>::empty();
    let keep = |part: Seq<char>| is_step(part);
    let list = seq![none];
    assert(fields(none, '/') =~= list);
    reveal(Seq::filter);
    assert(list.drop_last() =~= seq![]);
    assert(list.last() == none);
    assert(!keep(none));
    assert(list.drop_last().filter(keep) =~= seq![]);
    assert(list.filter(keep) =~= seq![]);
}

/// The parts of a path below another are those of the other and then its own.
pub proof fn joined_path_has_the_parts_of_both(base: Seq<char>, rest: Seq<char>)
    requires
        !is_rooted(rest),
    ensures
        path_parts(path_joined(base, rest)) == path_parts(base) + path_parts(rest),
{
    reveal_strlit("/");
    assert("/"@ =~= seq!['/']);
    if base.len() == 0 {
        assert(base + rest =~= rest);
        assert(base =~= Seq::empty());
        lemma_no_parts();
        assert(path_parts(base) + path_parts(rest) =~= path_parts(rest));
    } else if base.last() == '/' {
        let front = base.drop_last();
        let none = Seq::<char>::empty();
        assert(base + rest =~= front + seq!['/'] + rest);
        assert(base =~= front + seq!['/'] + none);
        lemma_parts_at_slash(front, rest);
        lemma_parts_at_slash(front, none);
        lemma_no_parts();
        assert(path_parts(front) + path_parts(none) =~= path_parts(front));
    } else {
        lemma_parts_at_slash(base, rest);
    }
}

/// The last part of the path of a name below another path is the name.
pub proof fn last_part_is_the_name(base: Seq<char>, name: Seq<char>)
    requires
        is_step(name),
        name != ".."@,
        !name.contains('/'),
    ensures
        last_part(path_joined(base, name)) == Some(name),
{
    let keep = |part: Seq<char>| is_step(part);
    assert(name[0] != '/') by {
        assert(name.contains(name[0]));
    }
    joined_path_has_the_parts_of_both(base, name);
    joined_splits_back(seq![name], '/');
    assert(joined(seq![name], seq!['/']) == name);
    reveal(Seq::filter);
    assert(seq![name].drop_last() =~= seq![]);
    assert(seq![name].last() == name);
    assert(keep(name));
    assert(path_parts(name) =~= seq![name]);
}

/// A slash at the end of a path plays no part.
pub proof fn slash_at_the_end_plays_no_part(path: Seq<char>)
    requires
        path.len() > 0,
    ensures
        same_place(path + seq!['/'], path),
{
    let none = Seq::<char>::empty();
    let longer = path + seq!['/'];
    assert(longer =~= path + seq!['/'] + none);
    fields_at_separator(path, '/', none);
    lemma_parts_at_slash(path, none);
    lemma_no_parts();
    assert(path_parts(path) + path_parts(none) =~= path_parts(path));
    assert(longer[0] == path[0]);
    assert(fields(longer, '/')[0] == fields(path, '/')[0]);
}

/// A path that ends by leading up has no last part, nor has one without parts.
pub proof fn way_up_has_no_last_part(base: Seq<char>)
    ensures
        last_part(path_joined(base, ".."@)) is None,
        path_parts(base).len() == 0 ==> last_part(base) is None,
{
    let up = ".."@;
    let keep = |part: Seq<char>| is_step(part);
    reveal_strlit("..");
    reveal_strlit(".");
    assert(up.len() == 2 && up[0] == '.' && up[1] == '.');
    assert("."@.len() == 1);
    assert(!up.contains('/'));
    joined_path_has_the_parts_of_both(base, up);
    joined_splits_back(seq![up], '/');
    assert(joined(seq![up], seq!['/']) == up);
    reveal(Seq::filter);
    assert(seq![up].drop_last() =~= seq![]);
    assert(seq![up].last() == up);
    assert(keep(up));
    assert(path_parts(up) =~= seq![up]);
}

}
