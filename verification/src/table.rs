//! Tables: values by name, in the order of the names, and values by path.

use vstd::prelude::*;
use crate::path::{place_of, same_path, Place};
use crate::text::{
    comes_before, lemma_text_before_irreflexive, lemma_text_before_total,
    lemma_text_before_transitive, same_text, text_before,
};

verus! {

/// Values by name.
#[derive(Debug)]
pub struct NameMap<V> {
    entries: Vec<(String, V)>,
}

/// The names are in their order, each once.
pub open spec fn ascending(names: Seq<Seq<char>>) -> bool {
    forall|i: int, j: int| 0 <= i < j < names.len() ==> text_before(#[trigger] names[i], #[trigger] names[j])
}

/// The index of the entry with a name.
spec fn entry_index<V>(entries: Seq<(String, V)>, name: Seq<char>) -> int {
    choose|i: int| 0 <= i < entries.len() && (#[trigger] entries[i]).0@ == name
}

impl<V> NameMap<V> {
    /// The names in their order.
    pub closed spec fn names(&self) -> Seq<Seq<char>> {
        self.entries@.map_values(|e: (String, V)| e.0@)
    }

    pub closed spec fn wf(&self) -> bool {
        ascending(self.names())
    }
}

impl<V> View for NameMap<V> {
    type V = Map<Seq<char>, V>;

    closed spec fn view(&self) -> Map<Seq<char>, V> {
        Map::new(
            |name: Seq<char>| self.names().contains(name),
            |name: Seq<char>| self.entries@[entry_index(self.entries@, name)].1,
        )
    }
}

/// The names in their order are the names in the table.
pub proof fn names_are_keys<V>(m: &NameMap<V>)
    requires
        m.wf(),
    ensures
        ascending(m.names()),
        m.names().no_duplicates(),
        forall|name: Seq<char>| m@.contains_key(name) == m.names().contains(name),
        forall|i: int| 0 <= i < m.names().len() ==> m@.contains_key(#[trigger] m.names()[i]),
        m@.dom() == m.names().to_set(),
        m@.dom().finite(),
        m@.len() == m.names().len(),
{
    let names = m.names();
    assert forall|i: int, j: int| 0 <= i < names.len() && 0 <= j < names.len() && i != j implies names[i]
        != names[j] by {
        if i < j {
            lemma_text_before_irreflexive(names[i]);
        } else {
            assert(text_before(names[j], names[i]));
            lemma_text_before_irreflexive(names[i]);
        }
    }
    assert(m@.dom() =~= names.to_set());
    names.unique_seq_to_set();
}

/// Some names in their order.
pub open spec fn in_order(names: Set<Seq<char>>) -> Seq<Seq<char>> {
    choose|s: Seq<Seq<char>>| #[trigger] ascending(s) && s.to_set() == names
}

/// There is one order of names only.
pub proof fn order_is_unique(a: Seq<Seq<char>>, b: Seq<Seq<char>>)
    requires
        ascending(a),
        ascending(b),
        a.to_set() == b.to_set(),
    ensures
        a == b,
    decreases a.len(),
{
    if a.len() == 0 {
        if b.len() > 0 {
            assert(b.to_set().contains(b[0]));
            assert(a.to_set().contains(b[0]));
        }
        assert(a =~= b);
    } else {
        assert(a.to_set().contains(a[0]));
        assert(b.contains(a[0]));
        let j = choose|j: int| 0 <= j < b.len() && b[j] == a[0];
        assert(b.to_set().contains(b[0]));
        assert(a.contains(b[0]));
        let i = choose|i: int| 0 <= i < a.len() && a[i] == b[0];
        if j > 0 && i > 0 {
            assert(text_before(b[0], b[j]));
            assert(text_before(a[0], a[i]));
            lemma_text_before_transitive(a[0], b[0], a[0]);
            lemma_text_before_irreflexive(a[0]);
        }
        assert(a[0] == b[0]);
        let x = a.skip(1);
        let y = b.skip(1);
        assert forall|k: Seq<char>| x.to_set().contains(k) == y.to_set().contains(k) by {
            lemma_text_before_irreflexive(k);
            if x.contains(k) {
                let p = choose|p: int| 0 <= p < x.len() && x[p] == k;
                assert(a[p + 1] == k && text_before(a[0], a[p + 1]));
                assert(b.to_set().contains(k));
                let q = choose|q: int| 0 <= q < b.len() && b[q] == k;
                assert(y[q - 1] == k);
            }
            if y.contains(k) {
                let p = choose|p: int| 0 <= p < y.len() && y[p] == k;
                assert(b[p + 1] == k && text_before(b[0], b[p + 1]));
                assert(a.to_set().contains(k));
                let q = choose|q: int| 0 <= q < a.len() && a[q] == k;
                assert(x[q - 1] == k);
            }
        }
        assert(x.to_set() =~= y.to_set());
        assert forall|p: int, q: int| 0 <= p < q < x.len() implies text_before(
            #[trigger] x[p],
            #[trigger] x[q],
        ) by {
            assert(x[p] == a[p + 1] && x[q] == a[q + 1]);
        }
        assert forall|p: int, q: int| 0 <= p < q < y.len() implies text_before(
            #[trigger] y[p],
            #[trigger] y[q],
        ) by {
            assert(y[p] == b[p + 1] && y[q] == b[q + 1]);
        }
        order_is_unique(x, y);
        assert(a =~= seq![a[0]] + x);
        assert(b =~= seq![b[0]] + y);
    }
}

/// The names of a table are its keys in their order.
pub proof fn names_are_in_order<V>(m: &NameMap<V>)
    requires
        m.wf(),
    ensures
        m.names() == in_order(m@.dom()),
{
    names_are_keys(m);
    let s = in_order(m@.dom());
    assert(ascending(m.names()) && m.names().to_set() == m@.dom());
    order_is_unique(m.names(), s);
}

proof fn lemma_entry<V>(m: &NameMap<V>, i: int)
    requires
        m.wf(),
        0 <= i < m.entries@.len(),
    ensures
        m@.contains_key(m.entries@[i].0@),
        m@[m.entries@[i].0@] == m.entries@[i].1,
        m.names()[i] == m.entries@[i].0@,
{
    let name = m.entries@[i].0@;
    assert(m.names()[i] == name);
    let k = entry_index(m.entries@, name);
    names_are_keys(m);
    assert(m.names()[k] == name);
    assert(k == i);
}

impl<V> NameMap<V> {
    /// A table without entries.
    pub fn new() -> (r: Self)
        ensures
            r.wf(),
            r@ == Map::<Seq<char>, V>::empty(),
            r.names() == Seq::<Seq<char>>::empty(),
    {
        let r = NameMap { entries: Vec::new() };
        assert(r.names() =~= Seq::<Seq<char>>::empty());
        assert(r@ =~= Map::<Seq<char>, V>::empty());
        r
    }

    /// The number of names.
    pub fn len(&self) -> (r: usize)
        requires
            self.wf(),
        ensures
            r == self.names().len(),
            r == self@.len(),
    {
        proof {
            names_are_keys(self);
        }
        self.entries.len()
    }

    /// Where a name is or would go.
    fn place(&self, name: &str) -> (r: usize)
        requires
            self.wf(),
        ensures
            r <= self.entries@.len(),
            forall|j: int| 0 <= j < r ==> text_before(#[trigger] self.names()[j], name@),
            forall|j: int| r <= j < self.names().len() ==> !text_before(#[trigger] self.names()[j], name@),
    {
        let mut i: usize = 0;
        while i < self.entries.len() && comes_before(self.entries[i].0.as_str(), name)
            invariant
                i <= self.entries@.len(),
                self.wf(),
                forall|j: int| 0 <= j < i ==> text_before(#[trigger] self.names()[j], name@),
            ensures
                i <= self.entries@.len(),
                forall|j: int| 0 <= j < i ==> text_before(#[trigger] self.names()[j], name@),
                i < self.entries@.len() ==> !text_before(self.names()[i as int], name@),
            decreases self.entries@.len() - i,
        {
            i += 1;
        }
        proof {
            assert forall|j: int| i <= j < self.names().len() implies !text_before(
                #[trigger] self.names()[j],
                name@,
            ) by {
                if j > i && text_before(self.names()[j], name@) {
                    assert(text_before(self.names()[i as int], self.names()[j]));
                    lemma_text_before_transitive(self.names()[i as int], self.names()[j], name@);
                }
            }
        }
        i
    }

    /// The value that goes with a name.
    pub fn get(&self, name: &str) -> (r: Option<&V>)
        requires
            self.wf(),
        ensures
            match r {
                Some(v) => self@.contains_key(name@) && *v == self@[name@],
                None => !self@.contains_key(name@),
            },
    {
        let i = self.place(name);
        if i < self.entries.len() && same_text(self.entries[i].0.as_str(), name) {
            proof {
                lemma_entry(self, i as int);
            }
            Some(&self.entries[i].1)
        } else {
            proof {
                self.lemma_absent(name@, i as int);
            }
            None
        }
    }

    proof fn lemma_absent(&self, name: Seq<char>, i: int)
        requires
            self.wf(),
            0 <= i <= self.entries@.len(),
            forall|j: int| 0 <= j < i ==> text_before(#[trigger] self.names()[j], name),
            forall|j: int| i <= j < self.names().len() ==> !text_before(#[trigger] self.names()[j], name),
            i < self.entries@.len() ==> self.entries@[i].0@ != name,
        ensures
            !self@.contains_key(name),
            forall|j: int| i <= j < self.names().len() ==> text_before(name, #[trigger] self.names()[j]),
    {
        if i < self.entries@.len() {
            assert(self.names()[i] == self.entries@[i].0@);
            lemma_text_before_total(self.names()[i], name);
            assert(text_before(name, self.names()[i]));
        }
        assert forall|j: int| i <= j < self.names().len() implies text_before(
            name,
            #[trigger] self.names()[j],
        ) by {
            if j > i {
                assert(text_before(self.names()[i], self.names()[j]));
                lemma_text_before_transitive(name, self.names()[i], self.names()[j]);
            }
        }
        lemma_text_before_irreflexive(name);
        if self.names().contains(name) {
            let j = choose|j: int| 0 <= j < self.names().len() && self.names()[j] == name;
            assert(self.names()[j] == name);
        }
    }

    /// Tests whether the table has a name.
    pub fn contains_key(&self, name: &str) -> (r: bool)
        requires
            self.wf(),
        ensures
            r == self@.contains_key(name@),
    {
        self.get(name).is_some()
    }

    /// The name at an index in their order.
    pub fn name_at(&self, i: usize) -> (r: &String)
        requires
            self.wf(),
            i < self.names().len(),
        ensures
            r@ == self.names()[i as int],
            self@.contains_key(r@),
    {
        proof {
            lemma_entry(self, i as int);
        }
        &self.entries[i].0
    }

    /// The value at an index in the order of the names.
    pub fn value_at(&self, i: usize) -> (r: &V)
        requires
            self.wf(),
            i < self.names().len(),
        ensures
            *r == self@[self.names()[i as int]],
    {
        proof {
            lemma_entry(self, i as int);
        }
        &self.entries[i].1
    }

    /// Puts a value under a name, in place of an earlier one.
    pub fn insert(&mut self, name: String, value: V)
        requires
            old(self).wf(),
        ensures
            final(self).wf(),
            final(self)@ == old(self)@.insert(name@, value),
    {
        let ghost before = *self;
        let i = self.place(name.as_str());
        if i < self.entries.len() && same_text(self.entries[i].0.as_str(), name.as_str()) {
            self.entries.set(i, (name, value));
            assert(self.names() =~= before.names());
            proof {
                assert forall|k: Seq<char>| #[trigger] before@.contains_key(k) implies self@.contains_key(k)
                    && self@[k] == before@.insert(name@, value)[k] by {
                    let j = choose|j: int| 0 <= j < before.names().len() && before.names()[j] == k;
                    lemma_entry(&before, j);
                    lemma_entry(self, j);
                    lemma_entry(self, i as int);
                    names_are_keys(&before);
                }
                lemma_entry(&before, i as int);
                assert(self@ =~= before@.insert(name@, value));
            }
        } else {
            proof {
                before.lemma_absent(name@, i as int);
            }
            self.entries.insert(i, (name, value));
            proof {
                let names = self.names();
                assert(names =~= before.names().insert(i as int, name@));
                assert forall|a: int, b: int| 0 <= a < b < names.len() implies text_before(
                    #[trigger] names[a],
                    #[trigger] names[b],
                ) by {
                    let u = if a < i { a } else { a - 1 };
                    let v = if b < i { b } else { b - 1 };
                    if a != i {
                        assert(names[a] == before.names()[u]);
                    }
                    if b != i {
                        assert(names[b] == before.names()[v]);
                    }
                }
                assert forall|k: Seq<char>| #[trigger] before@.contains_key(k) implies self@.contains_key(k)
                    && self@[k] == before@.insert(name@, value)[k] by {
                    let j = choose|j: int| 0 <= j < before.names().len() && before.names()[j] == k;
                    lemma_entry(&before, j);
                    if j < i {
                        assert(self.entries@[j] == before.entries@[j]);
                        lemma_entry(self, j);
                    } else {
                        assert(self.entries@[j + 1] == before.entries@[j]);
                        lemma_entry(self, j + 1);
                    }
                }
                lemma_entry(self, i as int);
                assert forall|k: Seq<char>| #[trigger] self@.contains_key(k) implies k == name@
                    || before@.contains_key(k) by {
                    let j = choose|j: int| 0 <= j < names.len() && names[j] == k;
                    if j < i {
                        assert(before.names()[j] == k);
                    } else if j > i {
                        assert(before.names()[j - 1] == k);
                    }
                }
                assert(self@ =~= before@.insert(name@, value));
            }
        }
    }

    /// Takes a name and its value out.
    pub fn remove(&mut self, name: &str)
        requires
            old(self).wf(),
        ensures
            final(self).wf(),
            final(self)@ == old(self)@.remove(name@),
    {
        let ghost before = *self;
        let i = self.place(name);
        if i < self.entries.len() && same_text(self.entries[i].0.as_str(), name) {
            let _removed = self.entries.remove(i);
            proof {
                let names = self.names();
                assert(names =~= before.names().remove(i as int));
                assert forall|a: int, b: int| 0 <= a < b < names.len() implies text_before(
                    #[trigger] names[a],
                    #[trigger] names[b],
                ) by {
                    let u = if a < i { a } else { a + 1 };
                    let v = if b < i { b } else { b + 1 };
                    assert(names[a] == before.names()[u]);
                    assert(names[b] == before.names()[v]);
                }
                names_are_keys(&before);
                lemma_entry(&before, i as int);
                assert forall|k: Seq<char>| #[trigger] before@.remove(name@).contains_key(k) implies self@.contains_key(
                    k,
                ) && self@[k] == before@[k] by {
                    let j = choose|j: int| 0 <= j < before.names().len() && before.names()[j] == k;
                    lemma_entry(&before, j);
                    if j < i {
                        assert(self.entries@[j] == before.entries@[j]);
                        lemma_entry(self, j);
                    } else {
                        assert(j != i);
                        assert(self.entries@[j - 1] == before.entries@[j]);
                        lemma_entry(self, j - 1);
                    }
                }
                assert forall|k: Seq<char>| #[trigger] self@.contains_key(k) implies before@.remove(
                    name@,
                ).contains_key(k) by {
                    let j = choose|j: int| 0 <= j < names.len() && names[j] == k;
                    let u = if j < i { j } else { j + 1 };
                    assert(before.names()[u] == k);
                }
                assert(self@ =~= before@.remove(name@));
            }
        } else {
            proof {
                before.lemma_absent(name@, i as int);
                assert(self@ =~= before@.remove(name@));
            }
        }
    }
}

/// Values by path; paths that name one place have one value.
#[derive(Debug)]
pub struct PathMap<V> {
    entries: Vec<(String, V)>,
}

/// The index of the entry for a place.
spec fn place_index<V>(entries: Seq<(String, V)>, place: Place) -> int {
    choose|i: int| 0 <= i < entries.len() && place_of((#[trigger] entries[i]).0@) == place
}

impl<V> PathMap<V> {
    spec fn places(&self) -> Seq<Place> {
        self.entries@.map_values(|e: (String, V)| place_of(e.0@))
    }

    pub closed spec fn wf(&self) -> bool {
        self.places().no_duplicates()
    }
}

impl<V> View for PathMap<V> {
    type V = Map<Place, V>;

    closed spec fn view(&self) -> Map<Place, V> {
        Map::new(
            |place: Place| self.places().contains(place),
            |place: Place| self.entries@[place_index(self.entries@, place)].1,
        )
    }
}

impl<V> PathMap<V> {
    proof fn lemma_entry(&self, i: int)
        requires
            self.wf(),
            0 <= i < self.entries@.len(),
        ensures
            self@.contains_key(place_of(self.entries@[i].0@)),
            self@[place_of(self.entries@[i].0@)] == self.entries@[i].1,
            self.places()[i] == place_of(self.entries@[i].0@),
    {
        let place = place_of(self.entries@[i].0@);
        assert(self.places()[i] == place);
        let k = place_index(self.entries@, place);
        assert(self.places()[k] == place);
    }

    /// A table without entries.
    pub fn new() -> (r: Self)
        ensures
            r.wf(),
            r@ == Map::<Place, V>::empty(),
    {
        let r = PathMap { entries: Vec::new() };
        assert(r@ =~= Map::<Place, V>::empty());
        r
    }

    /// The index of the entry for a path, or the number of entries where there is none.
    fn find(&self, path: &str) -> (r: usize)
        ensures
            r <= self.entries@.len(),
            r < self.entries@.len() ==> place_of(self.entries@[r as int].0@) == place_of(path@),
            r == self.entries@.len() ==> !self.places().contains(place_of(path@)),
    {
        let mut i: usize = 0;
        while i < self.entries.len()
            invariant
                i <= self.entries@.len(),
                forall|j: int| 0 <= j < i ==> #[trigger] self.places()[j] != place_of(path@),
            decreases self.entries@.len() - i,
        {
            if same_path(self.entries[i].0.as_str(), path) {
                return i;
            }
            i += 1;
        }
        i
    }

    /// The value for a path.
    pub fn get(&self, path: &str) -> (r: Option<&V>)
        requires
            self.wf(),
        ensures
            match r {
                Some(v) => self@.contains_key(place_of(path@)) && *v == self@[place_of(path@)],
                None => !self@.contains_key(place_of(path@)),
            },
    {
        let i = self.find(path);
        if i < self.entries.len() {
            proof {
                self.lemma_entry(i as int);
            }
            Some(&self.entries[i].1)
        } else {
            None
        }
    }

    /// Puts a value under a path, in place of an earlier one.
    pub fn insert(&mut self, path: &str, value: V)
        requires
            old(self).wf(),
        ensures
            final(self).wf(),
            final(self)@ == old(self)@.insert(place_of(path@), value),
    {
        let ghost before = *self;
        let ghost place = place_of(path@);
        let i = self.find(path);
        let entry = (path.to_string(), value);
        if i < self.entries.len() {
            self.entries.set(i, entry);
            proof {
                assert(self.places() =~= before.places());
                assert forall|k: Place| #[trigger] before@.contains_key(k) implies self@[k]
                    == before@.insert(place, value)[k] by {
                    let j = choose|j: int| 0 <= j < before.places().len() && before.places()[j] == k;
                    before.lemma_entry(j);
                    self.lemma_entry(j);
                    self.lemma_entry(i as int);
                }
                before.lemma_entry(i as int);
                assert(self@ =~= before@.insert(place, value));
            }
        } else {
            self.entries.push(entry);
            proof {
                assert(self.places() =~= before.places().push(place));
                assert forall|k: Place| #[trigger] before@.contains_key(k) implies self@.contains_key(k)
                    && self@[k] == before@[k] by {
                    let j = choose|j: int| 0 <= j < before.places().len() && before.places()[j] == k;
                    before.lemma_entry(j);
                    assert(self.entries@[j] == before.entries@[j]);
                    self.lemma_entry(j);
                }
                self.lemma_entry(i as int);
                assert forall|k: Place| #[trigger] self@.contains_key(k) implies k == place
                    || before@.contains_key(k) by {
                    let j = choose|j: int| 0 <= j < self.places().len() && self.places()[j] == k;
                    if j < i {
                        assert(before.places()[j] == k);
                    }
                }
                assert(self@ =~= before@.insert(place, value));
            }
        }
    }
}

}
