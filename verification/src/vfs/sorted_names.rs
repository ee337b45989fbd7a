//! Searching names kept in sorted order.

use super::normalized_path::NormalizedPath;
use crate::text::{
    before, lemma_before_is_asymmetric, lemma_before_is_total, lemma_before_is_transitive,
    lemma_not_before_itself, precedes,
};
use vstd::prelude::*;

verus! {

/// What some paths spell.
pub open spec fn texts(names: Seq<NormalizedPath>) -> Seq<Seq<char>> {
    Seq::new(names.len(), |i: int| names[i]@)
}

/// Whether names are in order; equal ones may stand beside each other.
pub open spec fn in_order(names: Seq<Seq<char>>) -> bool {
    forall|i: int, j: int| #![trigger names[i], names[j]]
        0 <= i < j < names.len() ==> !before(names[j], names[i])
}

/// Whether names are in order and all different.
pub open spec fn strictly_in_order(names: Seq<Seq<char>>) -> bool {
    forall|i: int, j: int| #![trigger names[i], names[j]]
        0 <= i < j < names.len() ==> before(names[i], names[j])
}

/// What sorts before a name sorts before every name that does not sort before that one.
proof fn lemma_before_at_least(name: Seq<char>, a: Seq<char>, b: Seq<char>)
    requires
        before(name, a),
        !before(b, a),
    ensures
        before(name, b),
{
    if a != b {
        lemma_before_is_total(a, b);
        lemma_before_is_transitive(name, a, b);
    }
}

/// Where a name goes among others in order: after everything it does not sort before.
pub fn find_slot(names: &Vec<NormalizedPath>, name: &NormalizedPath) -> (at: usize)
    requires
        in_order(texts(names@)),
    ensures
        at <= names@.len(),
        forall|j: int| 0 <= j < at ==> !before(name@, #[trigger] texts(names@)[j]),
        forall|j: int| at <= j < names@.len() ==> before(name@, #[trigger] texts(names@)[j]),
{
    let ghost t = texts(names@);
    let mut low: usize = 0;
    let mut high: usize = names.len();
    while low < high
        invariant
            t == texts(names@),
            in_order(t),
            low <= high <= names@.len(),
            forall|j: int| 0 <= j < low ==> !before(name@, #[trigger] t[j]),
            forall|j: int| high <= j < names@.len() ==> before(name@, #[trigger] t[j]),
        decreases high - low,
    {
        let middle: usize = low + (high - low) / 2;
        let ghost m = middle as int;
        assert(t[m] == names@[m]@);
        if precedes(name.as_str(), names[middle].as_str()) {
            proof {
                assert forall|j: int| middle <= j < names@.len() implies before(
                    name@,
                    #[trigger] t[j],
                ) by {
                    if j > middle {
                        assert(!before(t[j], t[m]));
                        lemma_before_at_least(name@, t[m], t[j]);
                    }
                }
            }
            high = middle;
        } else {
            proof {
                assert forall|j: int| 0 <= j < middle + 1 implies !before(
                    name@,
                    #[trigger] t[j],
                ) by {
                    if j < middle && before(name@, t[j]) {
                        assert(!before(t[m], t[j]));
                        lemma_before_at_least(name@, t[j], t[m]);
                    }
                }
            }
            low = middle + 1;
        }
    }
    low
}

/// Names that are strictly in order are in order.
pub proof fn lemma_strict_is_in_order(names: Seq<Seq<char>>)
    requires
        strictly_in_order(names),
    ensures
        in_order(names),
        names.no_duplicates(),
{
    assert forall|i: int, j: int| #![trigger names[i], names[j]]
        0 <= i < j < names.len() implies !before(names[j], names[i]) by {
        lemma_before_is_asymmetric(names[i], names[j]);
    }
    assert forall|i: int, j: int|
        0 <= i < names.len() && 0 <= j < names.len() && i != j implies names[i] != names[j] by {
        lemma_not_before_itself(names[i]);
        if i < j {
            assert(before(names[i], names[j]));
        } else {
            assert(before(names[j], names[i]));
        }
    }
}

} // verus!
