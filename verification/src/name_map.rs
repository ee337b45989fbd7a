//! A map from names to values, kept in the order of the names.

use crate::text::{
    before, lemma_before_is_total, lemma_before_is_transitive, lemma_not_before_itself, precedes,
    same,
};
use vstd::prelude::*;

verus! {

/// Values by name. A name is listed once, whatever has been stored under it before.
#[derive(Debug)]
pub struct NameMap<V> {
    names: Vec<String>,
    values: Vec<V>,
}

/// What some names say.
pub open spec fn spelling(names: Seq<String>) -> Seq<Seq<char>> {
    Seq::new(names.len(), |i: int| names[i]@)
}

/// Whether names are in order and all different.
pub open spec fn ascending(names: Seq<Seq<char>>) -> bool {
    forall|i: int, j: int| #![trigger names[i], names[j]]
        0 <= i < j < names.len() ==> before(names[i], names[j])
}

/// The values stored under some names.
spec fn mapped<V>(names: Seq<Seq<char>>, values: Seq<V>) -> Map<Seq<char>, V> {
    Map::new(|name: Seq<char>| names.contains(name), |name: Seq<char>| values[names.index_of(name)])
}

impl<V> View for NameMap<V> {
    type V = Map<Seq<char>, V>;

    closed spec fn view(&self) -> Map<Seq<char>, V> {
        mapped(spelling(self.names@), self.values@)
    }
}

/// Names in order are all different, so a name stands where it is found.
proof fn lemma_place(names: Seq<Seq<char>>, at: int)
    requires
        ascending(names),
        0 <= at < names.len(),
    ensures
        names.contains(names[at]),
        names.index_of(names[at]) == at,
{
    let found = names.index_of(names[at]);
    assert(names.contains(names[at]));
    assert(names[found] == names[at]);
    lemma_not_before_itself(names[at]);
    if found < at {
        assert(before(names[found], names[at]));
    } else if at < found {
        assert(before(names[at], names[found]));
    }
}

/// A name between those before it and those after it is not among them.
proof fn lemma_absent(names: Seq<Seq<char>>, name: Seq<char>, at: int)
    requires
        0 <= at <= names.len(),
        forall|j: int| 0 <= j < at ==> before(#[trigger] names[j], name),
        forall|j: int| at <= j < names.len() ==> before(name, #[trigger] names[j]),
    ensures
        !names.contains(name),
{
    lemma_not_before_itself(name);
    if names.contains(name) {
        let j = names.index_of(name);
        assert(names[j] == name);
    }
}

/// Storing under a name that has a value replaces it.
proof fn lemma_replace<V>(names: Seq<Seq<char>>, values: Seq<V>, at: int, value: V)
    requires
        ascending(names),
        names.len() == values.len(),
        0 <= at < names.len(),
    ensures
        mapped(names, values.update(at, value)) == mapped(names, values).insert(names[at], value),
{
    lemma_place(names, at);
    let after = mapped(names, values.update(at, value));
    let wanted = mapped(names, values).insert(names[at], value);
    assert forall|name: Seq<char>| after.dom().contains(name) implies #[trigger] after[name]
        == wanted[name] by {
        let j = names.index_of(name);
        assert(names[j] == name);
        lemma_place(names, j);
    }
    assert(after.dom() =~= wanted.dom());
    assert(after =~= wanted);
}

/// Storing under a new name adds it, in its place.
proof fn lemma_add<V>(names: Seq<Seq<char>>, values: Seq<V>, at: int, name: Seq<char>, value: V)
    requires
        ascending(names),
        names.len() == values.len(),
        0 <= at <= names.len(),
        forall|j: int| 0 <= j < at ==> before(#[trigger] names[j], name),
        forall|j: int| at <= j < names.len() ==> before(name, #[trigger] names[j]),
    ensures
        ascending(names.insert(at, name)),
        mapped(names.insert(at, name), values.insert(at, value)) == mapped(names, values).insert(
            name,
            value,
        ),
        !mapped(names, values).dom().contains(name),
{
    let more = names.insert(at, name);
    let held = values.insert(at, value);
    lemma_absent(names, name, at);
    assert forall|i: int, j: int| #![trigger more[i], more[j]]
        0 <= i < j < more.len() implies before(more[i], more[j]) by {
        if i != at {
            assert(more[i] == names[if i < at {
                i
            } else {
                i - 1
            }]);
        }
        if j != at {
            assert(more[j] == names[if j < at {
                j
            } else {
                j - 1
            }]);
        }
    }
    assert(more[at] == name);
    lemma_place(more, at);
    let after = mapped(more, held);
    let wanted = mapped(names, values).insert(name, value);
    assert forall|other: Seq<char>| after.dom().contains(other) == wanted.dom().contains(other) by {
        if names.contains(other) {
            let j = names.index_of(other);
            assert(names[j] == other);
            assert(more[if j < at {
                j
            } else {
                j + 1
            }] == other);
        }
        if more.contains(other) && other != name {
            let j = more.index_of(other);
            assert(more[j] == other);
            assert(names[if j < at {
                j
            } else {
                j - 1
            }] == other);
        }
    }
    assert(after.dom() =~= wanted.dom());
    assert forall|other: Seq<char>| after.dom().contains(other) implies #[trigger] after[other]
        == wanted[other] by {
        if other != name {
            let j = names.index_of(other);
            assert(names[j] == other);
            lemma_place(names, j);
            let k = if j < at {
                j
            } else {
                j + 1
            };
            assert(more[k] == other);
            lemma_place(more, k);
        }
    }
    assert(after =~= wanted);
}

impl<V> NameMap<V> {
    /// Every name is listed once, in order, with its value beside it.
    pub closed spec fn wf(&self) -> bool {
        &&& ascending(spelling(self.names@))
        &&& self.names@.len() == self.values@.len()
    }

    /// A map with nothing in it.
    pub fn new() -> (r: NameMap<V>)
        ensures
            r.wf(),
            r@ == Map::<Seq<char>, V>::empty(),
    {
        let r: NameMap<V> = NameMap { names: Vec::new(), values: Vec::new() };
        assert(r@.dom() =~= Set::empty());
        assert(r@ =~= Map::empty());
        r
    }

    /// Where a name stands, or would stand.
    fn place(&self, name: &str) -> (at: usize)
        requires
            self.wf(),
        ensures
            at <= self.names@.len(),
            forall|j: int| 0 <= j < at ==> before(#[trigger] spelling(self.names@)[j], name@),
            forall|j: int|
                at <= j < self.names@.len() ==> !before(
                    #[trigger] spelling(self.names@)[j],
                    name@,
                ),
    {
        let ghost t = spelling(self.names@);
        let mut low: usize = 0;
        let mut high: usize = self.names.len();
        while low < high
            invariant
                t == spelling(self.names@),
                ascending(t),
                low <= high <= self.names@.len(),
                forall|j: int| 0 <= j < low ==> before(#[trigger] t[j], name@),
                forall|j: int| high <= j < t.len() ==> !before(#[trigger] t[j], name@),
            decreases high - low,
        {
            let middle: usize = low + (high - low) / 2;
            let ghost m = middle as int;
            assert(t[m] == self.names@[m]@);
            if precedes(self.names[middle].as_str(), name) {
                proof {
                    assert forall|j: int| 0 <= j < middle + 1 implies before(
                        #[trigger] t[j],
                        name@,
                    ) by {
                        if j < middle {
                            lemma_before_is_transitive(t[j], t[m], name@);
                        }
                    }
                }
                low = middle + 1;
            } else {
                proof {
                    assert forall|j: int| middle <= j < t.len() implies !before(
                        #[trigger] t[j],
                        name@,
                    ) by {
                        if j > middle && before(t[j], name@) {
                            lemma_before_is_transitive(t[m], t[j], name@);
                        }
                    }
                }
                high = middle;
            }
        }
        low
    }

    /// The value stored under a name.
    pub fn get(&self, name: &str) -> (r: Option<&V>)
        requires
            self.wf(),
        ensures
            match r {
                Some(value) => self@.dom().contains(name@) && self@[name@] == *value,
                None => !self@.dom().contains(name@),
            },
    {
        let at: usize = self.place(name);
        let ghost t = spelling(self.names@);
        if at < self.names.len() {
            assert(t[at as int] == self.names@[at as int]@);
            if same(self.names[at].as_str(), name) {
                proof {
                    lemma_place(t, at as int);
                }
                return Some(&self.values[at]);
            }
        }
        proof {
            lemma_after(t, name@, at as int);
            lemma_absent(t, name@, at as int);
        }
        None
    }

    /// Stores a value under a name, in place of what was there.
    pub fn insert(&mut self, name: &str, value: V)
        requires
            old(self).wf(),
        ensures
            final(self).wf(),
            final(self)@ == old(self)@.insert(name@, value),
    {
        let at: usize = self.place(name);
        let ghost t = spelling(self.names@);
        let ghost v = self.values@;
        if at < self.names.len() {
            assert(t[at as int] == self.names@[at as int]@);
            if same(self.names[at].as_str(), name) {
                self.values.set(at, value);
                proof {
                    lemma_replace(t, v, at as int, value);
                }
                return ;
            }
        }
        proof {
            lemma_after(t, name@, at as int);
            lemma_add(t, v, at as int, name@, value);
        }
        self.names.insert(at, name.to_owned());
        self.values.insert(at, value);
        assert(spelling(self.names@) =~= t.insert(at as int, name@));
    }

    /// How many names have a value.
    pub fn len(&self) -> (r: usize)
        requires
            self.wf(),
        ensures
            r == self@.dom().len(),
            self@.dom().finite(),
    {
        let ghost t = spelling(self.names@);
        proof {
            assert(t.no_duplicates()) by {
                assert forall|i: int, j: int|
                    0 <= i < t.len() && 0 <= j < t.len() && i != j implies t[i] != t[j] by {
                    lemma_place(t, i);
                    lemma_place(t, j);
                }
            }
            assert(self@.dom() =~= t.to_set());
            t.unique_seq_to_set();
        }
        self.names.len()
    }
}

/// A name that is not where it would stand sorts before everything from there on.
proof fn lemma_after(names: Seq<Seq<char>>, name: Seq<char>, at: int)
    requires
        ascending(names),
        0 <= at <= names.len(),
        at < names.len() ==> names[at] != name,
        forall|j: int| at <= j < names.len() ==> !before(#[trigger] names[j], name),
    ensures
        forall|j: int| at <= j < names.len() ==> before(name, #[trigger] names[j]),
{
    assert forall|j: int| at <= j < names.len() implies before(name, #[trigger] names[j]) by {
        lemma_before_is_total(name, names[at]);
        assert(!before(names[at], name));
        if j > at {
            assert(before(names[at], names[j]));
            lemma_before_is_transitive(name, names[at], names[j]);
        }
    }
}

} // verus!
