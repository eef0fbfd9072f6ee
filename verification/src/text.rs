//! Text as sequences of characters: splitting, trimming, searching and order.

use vstd::prelude::*;

verus! {

/// `String::push` appends the given character to the end of the text.
pub assume_specification[ String::push ](s: &mut String, c: char)
    ensures
        final(s)@ == old(s)@.push(c),
;

/// What a list of texts holds.
pub open spec fn texts(list: Seq<String>) -> Seq<Seq<char>> {
    list.map_values(|s: String| s@)
}

/// What an optional text holds.
pub open spec fn text_in(s: Option<String>) -> Option<Seq<char>> {
    match s {
        Some(t) => Some(t@),
        None => None,
    }
}

/// A character with the Unicode property `White_Space`.
pub open spec fn is_space(c: char) -> bool {
    let n = c as u32;
    ||| 0x9 <= n <= 0xd
    ||| n == 0x20
    ||| n == 0x85
    ||| n == 0xa0
    ||| n == 0x1680
    ||| 0x2000 <= n <= 0x200a
    ||| n == 0x2028
    ||| n == 0x2029
    ||| n == 0x202f
    ||| n == 0x205f
    ||| n == 0x3000
}

/// The characters at which a text is cut.
pub enum Cut {
    At(char),
    Space,
}

impl Cut {
    pub open spec fn hits(self, c: char) -> bool {
        match self {
            Cut::At(x) => c == x,
            Cut::Space => is_space(c),
        }
    }
}

/// The index of the first character that is cut at, or the length where there is none.
pub open spec fn first_cut(s: Seq<char>, cut: Cut) -> int
    decreases s.len(),
{
    if s.len() == 0 || cut.hits(s[0]) {
        0
    } else {
        1 + first_cut(s.skip(1), cut)
    }
}

/// The pieces between the separators, empty ones included (`str::split`).
pub open spec fn fields(s: Seq<char>, sep: char) -> Seq<Seq<char>>
    decreases s.len(),
{
    let i = first_cut(s, Cut::At(sep));
    if 0 <= i < s.len() {
        seq![s.take(i)] + fields(s.skip(i + 1), sep)
    } else {
        seq![s]
    }
}

/// The maximal runs of characters that are no white space (`str::split_whitespace`).
pub open spec fn words(s: Seq<char>) -> Seq<Seq<char>>
    decreases s.len(),
{
    if s.len() == 0 {
        seq![]
    } else if is_space(s[0]) {
        words(s.skip(1))
    } else {
        let i = first_cut(s, Cut::Space);
        if 0 < i <= s.len() {
            seq![s.take(i)] + words(s.skip(i))
        } else {
            seq![]
        }
    }
}

/// A line without the carriage return of its line ending.
pub open spec fn without_return(s: Seq<char>) -> Seq<char> {
    if s.len() > 0 && s.last() == '\r' {
        s.drop_last()
    } else {
        s
    }
}

/// The lines of a text, without their line endings (`str::lines`).
pub open spec fn lines(s: Seq<char>) -> Seq<Seq<char>>
    decreases s.len(),
{
    if s.len() == 0 {
        seq![]
    } else {
        let i = first_cut(s, Cut::At('\n'));
        if 0 <= i < s.len() {
            seq![without_return(s.take(i))] + lines(s.skip(i + 1))
        } else {
            seq![s]
        }
    }
}

/// The text without white space at its start.
pub open spec fn trim_front(s: Seq<char>) -> Seq<char>
    decreases s.len(),
{
    if s.len() > 0 && is_space(s[0]) {
        trim_front(s.skip(1))
    } else {
        s
    }
}

/// The text without white space at its end.
pub open spec fn trim_back(s: Seq<char>) -> Seq<char>
    decreases s.len(),
{
    if s.len() > 0 && is_space(s.last()) {
        trim_back(s.drop_last())
    } else {
        s
    }
}

/// The text without white space at either end (`str::trim`).
pub open spec fn trimmed(s: Seq<char>) -> Seq<char> {
    trim_back(trim_front(s))
}

pub open spec fn begins(s: Seq<char>, prefix: Seq<char>) -> bool {
    prefix.len() <= s.len() && s.take(prefix.len() as int) == prefix
}

/// What follows the prefix, where the text begins with it (`str::strip_prefix`).
pub open spec fn after_prefix(s: Seq<char>, prefix: Seq<char>) -> Option<Seq<char>> {
    if begins(s, prefix) {
        Some(s.skip(prefix.len() as int))
    } else {
        None
    }
}

/// Some part of the text equals the pattern.
pub open spec fn holds(s: Seq<char>, pattern: Seq<char>) -> bool {
    exists|i: int| 0 <= i <= s.len() - pattern.len() && #[trigger] begins(s.skip(i), pattern)
}

/// The texts one after another with a separator between them.
pub open spec fn joined(list: Seq<Seq<char>>, sep: Seq<char>) -> Seq<char>
    decreases list.len(),
{
    if list.len() == 0 {
        seq![]
    } else if list.len() == 1 {
        list[0]
    } else {
        joined(list.drop_last(), sep) + sep + list.last()
    }
}

/// The order of texts: by their first differing character, a prefix first.
pub open spec fn text_before(a: Seq<char>, b: Seq<char>) -> bool
    decreases a.len(),
{
    if b.len() == 0 {
        false
    } else if a.len() == 0 {
        true
    } else if a[0] != b[0] {
        (a[0] as int) < (b[0] as int)
    } else {
        text_before(a.skip(1), b.skip(1))
    }
}

pub proof fn lemma_first_cut_bounds(s: Seq<char>, cut: Cut)
    ensures
        0 <= first_cut(s, cut) <= s.len(),
        first_cut(s, cut) < s.len() ==> cut.hits(s[first_cut(s, cut)]),
        forall|j: int| 0 <= j < first_cut(s, cut) ==> !cut.hits(#[trigger] s[j]),
    decreases s.len(),
{
    if s.len() != 0 && !cut.hits(s[0]) {
        let t = s.skip(1);
        lemma_first_cut_bounds(t, cut);
        assert forall|j: int| 0 <= j < first_cut(s, cut) implies !cut.hits(#[trigger] s[j]) by {
            if j > 0 {
                assert(s[j] == t[j - 1]);
            }
        }
    }
}

pub proof fn lemma_first_cut_at(s: Seq<char>, cut: Cut, k: int)
    requires
        0 <= k <= s.len(),
        forall|j: int| 0 <= j < k ==> !cut.hits(#[trigger] s[j]),
        k < s.len() ==> cut.hits(s[k]),
    ensures
        first_cut(s, cut) == k,
{
    lemma_first_cut_bounds(s, cut);
    let i = first_cut(s, cut);
    if i < k {
        assert(!cut.hits(s[i]));
    }
}

/// The characters of a text, in order.
pub fn chars_of(s: &str) -> (r: Vec<char>)
    ensures
        r@ == s@,
{
    let mut out: Vec<char> = Vec::new();
    for c in it: s.chars()
        invariant
            out@ == it.seq().take(it.index() as int),
            it.seq() == s@,
    {
        out.push(c);
    }
    out
}

/// The text made of a range of characters.
pub fn text_of(v: &Vec<char>, from: usize, to: usize) -> (r: String)
    requires
        from <= to <= v@.len(),
    ensures
        r@ == v@.subrange(from as int, to as int),
{
    let mut out = String::new();
    let mut i: usize = from;
    while i < to
        invariant
            from <= i <= to <= v@.len(),
            out@ == v@.subrange(from as int, i as int),
        decreases to - i,
    {
        out.push(v[i]);
        i += 1;
        assert(out@ =~= v@.subrange(from as int, i as int));
    }
    out
}

/// Tests for white space.
pub fn is_white(c: char) -> (r: bool)
    ensures
        r == is_space(c),
{
    let n: u32 = c as u32;
    (0x9 <= n && n <= 0xd) || n == 0x20 || n == 0x85 || n == 0xa0 || n == 0x1680 || (0x2000 <= n
        && n <= 0x200a) || n == 0x2028 || n == 0x2029 || n == 0x202f || n == 0x205f || n == 0x3000
}

/// The pieces of a text between separators.
pub fn split_on(s: &str, sep: char) -> (r: Vec<String>)
    ensures
        texts(r@) == fields(s@, sep),
{
    let v = chars_of(s);
    let mut out: Vec<String> = Vec::new();
    let mut start: usize = 0;
    let mut i: usize = 0;
    assert(v@.skip(0) =~= v@);
    assert(texts(out@) + fields(v@.skip(0), sep) =~= fields(v@, sep));
    while i < v.len()
        invariant
            v@ == s@,
            start <= i <= v@.len(),
            forall|j: int| start <= j < i ==> v@[j] != sep,
            texts(out@) + fields(v@.skip(start as int), sep) == fields(s@, sep),
        decreases v@.len() - i,
    {
        if v[i] == sep {
            let ghost rest = v@.skip(start as int);
            let ghost before = texts(out@);
            proof {
                assert forall|j: int| 0 <= j < i - start implies !Cut::At(sep).hits(#[trigger] rest[j]) by {
                    assert(rest[j] == v@[start + j]);
                }
                lemma_first_cut_at(rest, Cut::At(sep), i - start);
                assert(rest.take(i - start) =~= v@.subrange(start as int, i as int));
                assert(rest.skip(i - start + 1) =~= v@.skip(i + 1));
            }
            let ghost piece = rest.take(i - start);
            out.push(text_of(&v, start, i));
            start = i + 1;
            proof {
                assert(texts(out@) =~= before.push(piece));
                assert(texts(out@) + fields(v@.skip(start as int), sep) =~= before + fields(rest, sep));
            }
        }
        i += 1;
    }
    let ghost rest = v@.skip(start as int);
    let ghost before = texts(out@);
    proof {
        assert forall|j: int| 0 <= j < rest.len() implies !Cut::At(sep).hits(#[trigger] rest[j]) by {
            assert(rest[j] == v@[start + j]);
        }
        lemma_first_cut_at(rest, Cut::At(sep), rest.len() as int);
        assert(rest =~= v@.subrange(start as int, v@.len() as int));
    }
    out.push(text_of(&v, start, v.len()));
    assert(texts(out@) =~= before + seq![rest]);
    out
}

/// The words of a text.
pub fn split_words(s: &str) -> (r: Vec<String>)
    ensures
        texts(r@) == words(s@),
{
    let v = chars_of(s);
    let mut out: Vec<String> = Vec::new();
    let mut i: usize = 0;
    assert(v@.skip(0) =~= v@);
    assert(texts(out@) + words(v@.skip(0)) =~= words(v@));
    while i < v.len()
        invariant
            v@ == s@,
            i <= v@.len(),
            texts(out@) + words(v@.skip(i as int)) == words(s@),
        decreases v@.len() - i,
    {
        let ghost rest = v@.skip(i as int);
        assert(rest[0] == v@[i as int]);
        if is_white(v[i]) {
            assert(rest.skip(1) =~= v@.skip(i + 1));
            i += 1;
        } else {
            let start: usize = i;
            while i < v.len() && !is_white(v[i])
                invariant
                    start <= i <= v@.len(),
                    forall|j: int| start <= j < i ==> !is_space(#[trigger] v@[j]),
                ensures
                    start <= i <= v@.len(),
                    forall|j: int| start <= j < i ==> !is_space(#[trigger] v@[j]),
                    i < v@.len() ==> is_space(v@[i as int]),
                decreases v@.len() - i,
            {
                i += 1;
            }
            let ghost before = texts(out@);
            proof {
                assert forall|j: int| 0 <= j < i - start implies !Cut::Space.hits(#[trigger] rest[j]) by {
                    assert(rest[j] == v@[start + j]);
                }
                if i < v@.len() {
                    assert(rest[i - start] == v@[i as int]);
                }
                lemma_first_cut_at(rest, Cut::Space, i - start);
                if i == start {
                    assert(is_space(rest[0]));
                }
                assert(rest.take(i - start) =~= v@.subrange(start as int, i as int));
                assert(rest.skip(i - start) =~= v@.skip(i as int));
            }
            out.push(text_of(&v, start, i));
            proof {
                assert(texts(out@) =~= before.push(rest.take(i - start)));
                assert(texts(out@) + words(v@.skip(i as int)) =~= before + words(rest));
            }
        }
    }
    assert(v@.skip(i as int) =~= Seq::<char>::empty());
    assert(texts(out@) + words(v@.skip(i as int)) =~= texts(out@));
    out
}

/// The lines of a text.
pub fn split_lines(s: &str) -> (r: Vec<String>)
    ensures
        texts(r@) == lines(s@),
{
    let v = chars_of(s);
    let mut out: Vec<String> = Vec::new();
    let mut start: usize = 0;
    let mut i: usize = 0;
    assert(v@.skip(0) =~= v@);
    assert(texts(out@) + lines(v@.skip(0)) =~= lines(v@));
    while i < v.len()
        invariant
            v@ == s@,
            start <= i <= v@.len(),
            forall|j: int| start <= j < i ==> v@[j] != '\n',
            texts(out@) + lines(v@.skip(start as int)) == lines(s@),
        decreases v@.len() - i,
    {
        if v[i] == '\n' {
            let ghost rest = v@.skip(start as int);
            let ghost before = texts(out@);
            let ghost piece = without_return(rest.take(i - start));
            proof {
                assert forall|j: int| 0 <= j < i - start implies !Cut::At('\n').hits(#[trigger] rest[j]) by {
                    assert(rest[j] == v@[start + j]);
                }
                lemma_first_cut_at(rest, Cut::At('\n'), i - start);
                assert(rest.skip(i - start + 1) =~= v@.skip(i + 1));
            }
            let end: usize = if i > start && v[i - 1] == '\r' {
                i - 1
            } else {
                i
            };
            assert(v@.subrange(start as int, end as int) =~= piece);
            out.push(text_of(&v, start, end));
            start = i + 1;
            proof {
                assert(texts(out@) =~= before.push(piece));
                assert(texts(out@) + lines(v@.skip(start as int)) =~= before + lines(rest));
            }
        }
        i += 1;
    }
    let ghost rest = v@.skip(start as int);
    let ghost before = texts(out@);
    proof {
        assert forall|j: int| 0 <= j < rest.len() implies !Cut::At('\n').hits(#[trigger] rest[j]) by {
            assert(rest[j] == v@[start + j]);
        }
        lemma_first_cut_at(rest, Cut::At('\n'), rest.len() as int);
        assert(rest =~= v@.subrange(start as int, v@.len() as int));
    }
    if start < v.len() {
        out.push(text_of(&v, start, v.len()));
        assert(texts(out@) =~= before + seq![rest]);
    } else {
        assert(lines(rest) =~= seq![]);
        assert(texts(out@) =~= before + lines(rest));
    }
    out
}

/// The text without white space at either end.
pub fn trim(s: &str) -> (r: String)
    ensures
        r@ == trimmed(s@),
{
    let v = chars_of(s);
    let mut from: usize = 0;
    assert(v@.skip(0) =~= v@);
    while from < v.len() && is_white(v[from])
        invariant
            from <= v@.len(),
            trim_front(v@.skip(from as int)) == trim_front(v@),
        ensures
            from <= v@.len(),
            trim_front(v@) == v@.skip(from as int),
        decreases v@.len() - from,
    {
        assert(v@.skip(from as int).skip(1) =~= v@.skip(from + 1));
        from += 1;
    }
    let mut to: usize = v.len();
    assert(v@.subrange(from as int, to as int) =~= v@.skip(from as int));
    while to > from && is_white(v[to - 1])
        invariant
            from <= to <= v@.len(),
            trim_back(v@.subrange(from as int, to as int)) == trim_back(v@.skip(from as int)),
        ensures
            from <= to <= v@.len(),
            trim_back(v@.skip(from as int)) == v@.subrange(from as int, to as int),
        decreases to,
    {
        assert(v@.subrange(from as int, to as int).drop_last() =~= v@.subrange(
            from as int,
            to - 1,
        ));
        to -= 1;
    }
    text_of(&v, from, to)
}

/// What follows the prefix, where the text begins with it.
pub fn strip(s: &str, prefix: &str) -> (r: Option<String>)
    ensures
        text_in(r) == after_prefix(s@, prefix@),
{
    let v = chars_of(s);
    let p = chars_of(prefix);
    if p.len() > v.len() {
        return None;
    }
    let mut i: usize = 0;
    while i < p.len()
        invariant
            v@ == s@,
            p@ == prefix@,
            i <= p@.len() <= v@.len(),
            v@.take(i as int) == p@.take(i as int),
        decreases p@.len() - i,
    {
        if v[i] != p[i] {
            assert(v@.take(p@.len() as int)[i as int] != p@[i as int]);
            return None;
        }
        assert(v@.take(i + 1) =~= v@.take(i as int).push(v@[i as int]));
        assert(p@.take(i + 1) =~= p@.take(i as int).push(p@[i as int]));
        i += 1;
    }
    assert(p@.take(i as int) =~= p@);
    assert(v@.subrange(i as int, v@.len() as int) =~= v@.skip(i as int));
    Some(text_of(&v, i, v.len()))
}

/// Tests whether the text begins with the prefix.
pub fn begins_with(s: &str, prefix: &str) -> (r: bool)
    ensures
        r == begins(s@, prefix@),
{
    strip(s, prefix).is_some()
}

/// Tests whether some part of the text equals the pattern.
pub fn contains(s: &str, pattern: &str) -> (r: bool)
    ensures
        r == holds(s@, pattern@),
{
    let v = chars_of(s);
    let p = chars_of(pattern);
    if p.len() > v.len() {
        return false;
    }
    let mut i: usize = 0;
    while i <= v.len() - p.len()
        invariant
            v@ == s@,
            p@ == pattern@,
            p@.len() <= v@.len(),
            i <= v@.len() - p@.len() + 1,
            forall|j: int| 0 <= j < i ==> !#[trigger] begins(v@.skip(j), p@),
        decreases v@.len() + 1 - i,
    {
        let mut k: usize = 0;
        while k < p.len() && v[i + k] == p[k]
            invariant
                p@.len() <= v@.len() <= usize::MAX,
                i <= v@.len() - p@.len(),
                k <= p@.len(),
                forall|j: int| 0 <= j < k ==> v@[i + j] == p@[j],
            ensures
                k <= p@.len(),
                forall|j: int| 0 <= j < k ==> v@[i + j] == p@[j],
                k < p@.len() ==> v@[i + k] != p@[k as int],
            decreases p@.len() - k,
        {
            k += 1;
        }
        if k == p.len() {
            assert(v@.skip(i as int).take(p@.len() as int) =~= p@);
            assert(begins(v@.skip(i as int), p@));
            return true;
        }
        assert(v@.skip(i as int).take(p@.len() as int)[k as int] != p@[k as int]);
        i += 1;
    }
    false
}

/// Tests two texts for equality.
pub fn same_text(a: &str, b: &str) -> (r: bool)
    ensures
        r == (a@ == b@),
{
    let x = a.to_string();
    let y = b.to_string();
    x == y
}

/// The two texts one after the other.
pub fn concat(a: &str, b: &str) -> (r: String)
    ensures
        r@ == a@ + b@,
{
    let mut out = a.to_string();
    out.append(b);
    out
}

/// The texts one after another with a separator between them.
pub fn join(list: &Vec<String>, sep: &str) -> (r: String)
    ensures
        r@ == joined(texts(list@), sep@),
{
    let mut out = String::new();
    let mut i: usize = 0;
    let ghost all = texts(list@);
    assert(out@ =~= joined(all.take(0), sep@));
    while i < list.len()
        invariant
            all == texts(list@),
            i <= list@.len(),
            out@ == joined(all.take(i as int), sep@),
        decreases list@.len() - i,
    {
        if i > 0 {
            out.append(sep);
        }
        out.append(list[i].as_str());
        proof {
            let next = all.take(i + 1);
            assert(next.drop_last() =~= all.take(i as int));
            assert(next.last() == list@[i as int]@);
            if i == 0 {
                assert(all.take(0) =~= seq![]);
                assert(out@ =~= next[0]);
            }
        }
        i += 1;
    }
    assert(all.take(i as int) =~= all);
    out
}

/// Tests whether the first text comes before the second in their order.
pub fn comes_before(a: &str, b: &str) -> (r: bool)
    ensures
        r == text_before(a@, b@),
{
    let v = chars_of(a);
    let w = chars_of(b);
    let mut i: usize = 0;
    assert(v@.skip(0) =~= v@);
    assert(w@.skip(0) =~= w@);
    while i < v.len() && i < w.len()
        invariant
            v@ == a@,
            w@ == b@,
            i <= v@.len(),
            i <= w@.len(),
            text_before(v@.skip(i as int), w@.skip(i as int)) == text_before(a@, b@),
        decreases v@.len() - i,
    {
        if v[i] != w[i] {
            return v[i] < w[i];
        }
        assert(v@.skip(i as int).skip(1) =~= v@.skip(i + 1));
        assert(w@.skip(i as int).skip(1) =~= w@.skip(i + 1));
        i += 1;
    }
    i < w.len()
}

/// No text comes before itself.
pub proof fn lemma_text_before_irreflexive(a: Seq<char>)
    ensures
        !text_before(a, a),
    decreases a.len(),
{
    if a.len() > 0 {
        lemma_text_before_irreflexive(a.skip(1));
    }
}

/// The order of texts is transitive.
pub proof fn lemma_text_before_transitive(a: Seq<char>, b: Seq<char>, c: Seq<char>)
    requires
        text_before(a, b),
        text_before(b, c),
    ensures
        text_before(a, c),
    decreases a.len(),
{
    if a.len() > 0 && a[0] == b[0] && b[0] == c[0] {
        lemma_text_before_transitive(a.skip(1), b.skip(1), c.skip(1));
    }
}

/// Of two different texts one comes before the other.
pub proof fn lemma_text_before_total(a: Seq<char>, b: Seq<char>)
    ensures
        text_before(a, b) || a == b || text_before(b, a),
    decreases a.len(),
{
    if a.len() == 0 || b.len() == 0 {
        if a.len() == 0 && b.len() == 0 {
            assert(a =~= b);
        }
    } else if a[0] == b[0] {
        lemma_text_before_total(a.skip(1), b.skip(1));
        if a.skip(1) == b.skip(1) {
            assert(a =~= seq![a[0]] + a.skip(1));
            assert(b =~= seq![b[0]] + b.skip(1));
        }
    }
}

proof fn lemma_joined_front(list: Seq<Seq<char>>, sep: Seq<char>)
    requires
        list.len() >= 2,
    ensures
        joined(list, sep) == list[0] + sep + joined(list.skip(1), sep),
    decreases list.len(),
{
    let rest = list.skip(1);
    if list.len() == 2 {
        assert(list.drop_last().len() == 1);
        assert(rest.len() == 1 && rest[0] == list[1]);
        assert(joined(list.drop_last(), sep) == list[0]);
    } else {
        let front = list.drop_last();
        lemma_joined_front(front, sep);
        assert(rest.drop_last() =~= front.skip(1));
        assert(rest.last() == list.last());
        assert(list[0] + sep + joined(front.skip(1), sep) + sep + list.last() =~= list[0] + sep + (
        joined(front.skip(1), sep) + sep + list.last()));
    }
}

/// The first pieces of a text put together again are the start of the text, up to where the next
/// separator stands; all of them are the text.
pub proof fn fields_join_back(s: Seq<char>, sep: char, k: int)
    requires
        1 <= k <= fields(s, sep).len(),
    ensures
        ({
            let head = joined(fields(s, sep).take(k), seq![sep]);
            &&& begins(s, head)
            &&& k < fields(s, sep).len() ==> head.len() < s.len() && s[head.len() as int] == sep
            &&& k == fields(s, sep).len() ==> head == s
        }),
    decreases s.len(),
{
    let all = fields(s, sep);
    let i = first_cut(s, Cut::At(sep));
    lemma_first_cut_bounds(s, Cut::At(sep));
    if 0 <= i < s.len() {
        let rest = s.skip(i + 1);
        assert(all.len() == 1 + fields(rest, sep).len());
        if k == 1 {
            assert(all.take(1).len() == 1 && all.take(1)[0] == s.take(i));
            assert(s.take(s.take(i).len() as int) =~= s.take(i));
        } else {
            fields_join_back(rest, sep, k - 1);
            let part = all.take(k);
            lemma_joined_front(part, seq![sep]);
            assert(part.skip(1) =~= fields(rest, sep).take(k - 1));
            let tail = joined(fields(rest, sep).take(k - 1), seq![sep]);
            let head = s.take(i) + seq![sep] + tail;
            assert(joined(part, seq![sep]) == head);
            assert(rest.take(tail.len() as int) == tail);
            assert(s.take(head.len() as int) =~= head) by {
                assert forall|j: int| 0 <= j < head.len() implies s[j] == head[j] by {
                    if j > i {
                        assert(rest[j - i - 1] == s[j]);
                        assert(rest.take(tail.len() as int)[j - i - 1] == rest[j - i - 1]);
                    }
                }
            }
            if k < all.len() {
                assert(rest[tail.len() as int] == s[head.len() as int]);
            } else {
                assert(head =~= s);
            }
        }
    } else {
        assert(all.take(1).len() == 1 && all.take(1)[0] == s);
        assert(s.take(s.len() as int) =~= s);
    }
}

/// The pieces on both sides of a separator are the pieces of the whole.
pub proof fn fields_at_separator(a: Seq<char>, sep: char, b: Seq<char>)
    ensures
        fields(a + seq![sep] + b, sep) == fields(a, sep) + fields(b, sep),
    decreases a.len(),
{
    let cut = Cut::At(sep);
    let whole = a + seq![sep] + b;
    let i = first_cut(a, cut);
    lemma_first_cut_bounds(a, cut);
    assert forall|j: int| 0 <= j < i implies !cut.hits(#[trigger] whole[j]) by {
        assert(whole[j] == a[j]);
    }
    lemma_first_cut_at(whole, cut, i);
    assert(whole.take(i) =~= a.take(i));
    if i < a.len() {
        let rest = a.skip(i + 1);
        fields_at_separator(rest, sep, b);
        assert(whole.skip(i + 1) =~= rest + seq![sep] + b);
        assert(seq![a.take(i)] + (fields(rest, sep) + fields(b, sep)) =~= fields(a, sep) + fields(
            b,
            sep,
        ));
    } else {
        assert(a.take(i) =~= a);
        assert(whole.skip(i + 1) =~= b);
    }
}

/// No piece of a text holds the separator.
pub proof fn fields_hold_no_separator(s: Seq<char>, sep: char, k: int)
    requires
        0 <= k < fields(s, sep).len(),
    ensures
        !fields(s, sep)[k].contains(sep),
    decreases s.len(),
{
    let i = first_cut(s, Cut::At(sep));
    lemma_first_cut_bounds(s, Cut::At(sep));
    if k > 0 {
        fields_hold_no_separator(s.skip(i + 1), sep, k - 1);
    } else if fields(s, sep)[0].contains(sep) {
        let j = choose|j: int| 0 <= j < fields(s, sep)[0].len() && fields(s, sep)[0][j] == sep;
        assert(s[j] == sep);
        assert(!Cut::At(sep).hits(s[j]));
    }
}

/// Pieces without a separator in them, put together, are the pieces of the whole.
pub proof fn joined_splits_back(list: Seq<Seq<char>>, sep: char)
    requires
        list.len() > 0,
        forall|k: int| 0 <= k < list.len() ==> !(#[trigger] list[k]).contains(sep),
    ensures
        fields(joined(list, seq![sep]), sep) == list,
    decreases list.len(),
{
    let last = list.last();
    assert(!list[list.len() - 1].contains(sep));
    lemma_first_cut_bounds(last, Cut::At(sep));
    let i = first_cut(last, Cut::At(sep));
    if i < last.len() {
        assert(last.contains(last[i]));
    }
    assert(fields(last, sep) =~= seq![last]);
    if list.len() == 1 {
        assert(list =~= seq![last]);
    } else {
        let front = list.drop_last();
        assert forall|k: int| 0 <= k < front.len() implies !(#[trigger] front[k]).contains(sep) by {
            assert(front[k] == list[k]);
        }
        joined_splits_back(front, sep);
        fields_at_separator(joined(front, seq![sep]), sep, last);
        assert(front + seq![last] =~= list);
    }
}

/// White space parts words: those on both sides are the words of the whole.
pub proof fn words_at_space(a: Seq<char>, c: char, b: Seq<char>)
    requires
        is_space(c),
    ensures
        words(a + seq![c] + b) == words(a) + words(b),
    decreases a.len(),
{
    let whole = a + seq![c] + b;
    if a.len() == 0 {
        assert(whole.skip(1) =~= b);
        assert(words(a) + words(b) =~= words(b));
    } else if is_space(a[0]) {
        words_at_space(a.skip(1), c, b);
        assert(whole.skip(1) =~= a.skip(1) + seq![c] + b);
    } else {
        let i = first_cut(a, Cut::Space);
        lemma_first_cut_bounds(a, Cut::Space);
        assert forall|j: int| 0 <= j < i implies !Cut::Space.hits(#[trigger] whole[j]) by {
            assert(whole[j] == a[j]);
        }
        lemma_first_cut_at(whole, Cut::Space, i);
        assert(whole.take(i) =~= a.take(i));
        words_at_space(a.skip(i), c, b);
        assert(whole.skip(i) =~= a.skip(i) + seq![c] + b);
        assert(seq![a.take(i)] + (words(a.skip(i)) + words(b)) =~= words(a) + words(b));
    }
}

/// A text without white space is one word, whole.
pub proof fn word_stays_whole(s: Seq<char>)
    requires
        s.len() > 0,
        forall|i: int| 0 <= i < s.len() ==> !is_space(#[trigger] s[i]),
    ensures
        words(s) == seq![s],
{
    assert forall|j: int| 0 <= j < s.len() implies !Cut::Space.hits(#[trigger] s[j]) by {
        assert(!is_space(s[j]));
    }
    lemma_first_cut_at(s, Cut::Space, s.len() as int);
    assert(s.take(s.len() as int) =~= s);
    assert(!is_space(s[0]));
    assert(words(s.skip(s.len() as int)) =~= seq![]);
    assert(words(s) =~= seq![s]);
}

/// No printable character of ASCII but the blank is white space.
pub proof fn printable_is_no_space(c: char)
    requires
        '!' as int <= c as int <= '~' as int,
    ensures
        !is_space(c),
        is_space(' '),
        is_space('\t'),
        is_space('\n'),
{
}

/// A line break ends a line: those before it and those behind are the lines of the whole.
pub proof fn lines_at_break(a: Seq<char>, b: Seq<char>)
    requires
        !a.contains('\n'),
    ensures
        lines(a + seq!['\n'] + b) == seq![without_return(a)] + lines(b),
{
    let cut = Cut::At('\n');
    let whole = a + seq!['\n'] + b;
    assert forall|j: int| 0 <= j < a.len() implies !cut.hits(#[trigger] whole[j]) by {
        assert(whole[j] == a[j]);
        assert(a.contains(a[j]));
    }
    lemma_first_cut_at(whole, cut, a.len() as int);
    assert(whole.take(a.len() as int) =~= a);
    assert(whole.skip(a.len() as int + 1) =~= b);
}

/// A text without a line break is one line, whole.
pub proof fn line_stays_whole(s: Seq<char>)
    requires
        s.len() > 0,
        !s.contains('\n'),
    ensures
        lines(s) == seq![s],
{
    assert forall|j: int| 0 <= j < s.len() implies !Cut::At('\n').hits(#[trigger] s[j]) by {
        assert(s.contains(s[j]));
    }
    lemma_first_cut_at(s, Cut::At('\n'), s.len() as int);
}

/// Trimming takes the white space at both ends and nothing else.
pub proof fn trimmed_keeps_what_is_between(s: Seq<char>) -> (at: (int, int))
    ensures
        0 <= at.0 <= at.1 <= s.len(),
        trimmed(s) == s.subrange(at.0, at.1),
        forall|i: int| 0 <= i < at.0 ==> is_space(#[trigger] s[i]),
        forall|i: int| at.1 <= i < s.len() ==> is_space(#[trigger] s[i]),
        at.0 < at.1 ==> !is_space(s[at.0]) && !is_space(s[at.1 - 1]),
{
    let from = lemma_trim_front(s);
    let rest = s.skip(from);
    let to = lemma_trim_back(rest);
    assert(s.subrange(from, from + to) =~= rest.take(to));
    assert forall|i: int| from + to <= i < s.len() implies is_space(#[trigger] s[i]) by {
        assert(rest[i - from] == s[i]);
    }
    if to > 0 {
        assert(rest[to - 1] == s[from + to - 1]);
    }
    (from, from + to)
}

proof fn lemma_trim_front(s: Seq<char>) -> (from: int)
    ensures
        0 <= from <= s.len(),
        trim_front(s) == s.skip(from),
        forall|i: int| 0 <= i < from ==> is_space(#[trigger] s[i]),
        from < s.len() ==> !is_space(s[from]),
    decreases s.len(),
{
    if s.len() > 0 && is_space(s[0]) {
        let rest = s.skip(1);
        let from = lemma_trim_front(rest);
        assert(rest.skip(from) =~= s.skip(from + 1));
        assert forall|i: int| 0 <= i < from + 1 implies is_space(#[trigger] s[i]) by {
            if i > 0 {
                assert(rest[i - 1] == s[i]);
            }
        }
        from + 1
    } else {
        assert(s.skip(0) =~= s);
        0
    }
}

proof fn lemma_trim_back(s: Seq<char>) -> (to: int)
    ensures
        0 <= to <= s.len(),
        trim_back(s) == s.take(to),
        forall|i: int| to <= i < s.len() ==> is_space(#[trigger] s[i]),
        to > 0 ==> !is_space(s[to - 1]),
    decreases s.len(),
{
    if s.len() > 0 && is_space(s.last()) {
        let rest = s.drop_last();
        let to = lemma_trim_back(rest);
        assert(rest.take(to) =~= s.take(to));
        assert forall|i: int| to <= i < s.len() implies is_space(#[trigger] s[i]) by {
            if i < rest.len() {
                assert(rest[i] == s[i]);
            }
        }
        to
    } else {
        assert(s.take(s.len() as int) =~= s);
        s.len() as int
    }
}

/// A carriage return at the end of a line belongs to the line break; only one does.
pub proof fn one_carriage_return_is_left_out(a: Seq<char>)
    ensures
        without_return(a + seq!['\r']) == a,
        a.len() == 0 || a.last() != '\r' ==> without_return(a) == a,
{
    assert((a + seq!['\r']).drop_last() =~= a);
}

}
