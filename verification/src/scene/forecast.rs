//! Which weathers can occur in a place, and finding one by name.

use super::ini::{cut_lowered, lowered, trim, trimmed};
use super::terrain_materials::names;
use super::weather::{weather_names, Weather};
use crate::text::{chars, same};
use vstd::prelude::*;

verus! {

/// Where a name is in an order, or past its end where it is not in it.
pub open spec fn position(order: Seq<Seq<char>>, name: Seq<char>, from: int) -> int
    decreases order.len() - from,
{
    if from >= order.len() || order[from] == name {
        from
    } else {
        position(order, name, from + 1)
    }
}

/// The key each name is ordered by.
pub open spec fn keys_of(table: Seq<Seq<char>>, order: Seq<Seq<char>>) -> Seq<int> {
    Seq::new(table.len(), |i: int| position(order, table[i], 0))
}

/// Where something of a key goes among the first `m` of some that are in order: after everything
/// whose key is not greater.
pub open spec fn place(sorted: Seq<int>, keys: Seq<int>, key: int, m: nat) -> nat
    decreases m,
{
    if m > 0 && keys[sorted[m - 1]] > key {
        place(sorted, keys, key, (m - 1) as nat)
    } else {
        m
    }
}

/// The first `n` places in the order of their keys, those of one key in the order they stood.
pub open spec fn arranged(keys: Seq<int>, n: nat) -> Seq<int>
    decreases n,
{
    if n == 0 {
        Seq::empty()
    } else {
        let before = arranged(keys, (n - 1) as nat);
        before.insert(place(before, keys, keys[n - 1], before.len()) as int, n - 1)
    }
}

/// Those of some places whose names are allowed.
pub open spec fn allowed_among(
    places: Seq<int>,
    table: Seq<Seq<char>>,
    allowed: Seq<Seq<char>>,
    n: nat,
) -> Seq<int>
    decreases n,
{
    if n == 0 {
        Seq::empty()
    } else {
        let before = allowed_among(places, table, allowed, (n - 1) as nat);
        if allowed.contains(table[places[n - 1]]) {
            before.push(places[n - 1])
        } else {
            before
        }
    }
}

/// The weathers that can occur in a place, in the game's own order: those its region allows, or all
/// of them where nothing narrows them, which a region that allows none of them does not.
pub open spec fn forecast_of(
    table: Seq<Seq<char>>,
    order: Seq<Seq<char>>,
    allowed: Option<Seq<Seq<char>>>,
) -> Seq<int> {
    let all = arranged(keys_of(table, order), table.len());
    match allowed {
        Some(allowed) => {
            let some = allowed_among(all, table, allowed, all.len());
            if some.len() > 0 {
                some
            } else {
                all
            }
        },
        None => all,
    }
}

/// Places as numbers.
pub open spec fn numbered(places: Seq<usize>) -> Seq<int> {
    Seq::new(places.len(), |i: int| places[i] as int)
}

/// Where a name is in an order.
fn find(order: &Vec<String>, name: &str) -> (r: usize)
    ensures
        r == position(names(order@), name@, 0),
{
    let ghost said = names(order@);
    let mut i: usize = 0;
    while i < order.len()
        invariant
            i <= order@.len(),
            said == names(order@),
            position(said, name@, 0) == position(said, name@, i as int),
        decreases order@.len() - i,
    {
        assert(said[i as int] == order@[i as int]@);
        if same(order[i].as_str(), name) {
            return i;
        }
        i = i + 1;
    }
    i
}

/// Every place is one of those arranged, once, and they stand in the order of their keys.
pub proof fn lemma_arranged(keys: Seq<int>, n: nat)
    requires
        n <= keys.len(),
    ensures
        arranged(keys, n).len() == n,
        forall|i: int| 0 <= i < n ==> 0 <= #[trigger] arranged(keys, n)[i] < n,
        forall|i: int, j: int| #![trigger arranged(keys, n)[i], arranged(keys, n)[j]]
            0 <= i < j < n ==> {
                let (a, b) = (arranged(keys, n)[i], arranged(keys, n)[j]);
                keys[a] < keys[b] || (keys[a] == keys[b] && a < b)
            },
    decreases n,
{
    if n > 0 {
        let m = (n - 1) as nat;
        lemma_arranged(keys, m);
        let before = arranged(keys, m);
        let key = keys[n - 1];
        let at = place(before, keys, key, m);
        lemma_place(before, keys, key, m);
        let after = arranged(keys, n);
        assert forall|i: int, j: int| #![trigger after[i], after[j]] 0 <= i < j < n implies {
            let (a, b) = (after[i], after[j]);
            keys[a] < keys[b] || (keys[a] == keys[b] && a < b)
        } by {
            let x = if i < at {
                i
            } else {
                i - 1
            };
            let y = if j < at {
                j
            } else {
                j - 1
            };
            if i == at {
                assert(after[j] == before[y]);
            } else if j == at {
                assert(after[i] == before[x]);
            } else {
                assert(after[i] == before[x] && after[j] == before[y]);
            }
        }
        assert forall|i: int| 0 <= i < n implies 0 <= #[trigger] after[i] < n by {
            if i < at {
                assert(after[i] == before[i]);
            } else if i > at {
                assert(after[i] == before[i - 1]);
            }
        }
    }
}

/// Everything before a place has no greater key, and everything from it on has a greater one.
proof fn lemma_place(sorted: Seq<int>, keys: Seq<int>, key: int, m: nat)
    requires
        m <= sorted.len(),
        forall|i: int, j: int| #![trigger sorted[i], sorted[j]]
            0 <= i < j < sorted.len() ==> keys[sorted[i]] <= keys[sorted[j]],
    ensures
        place(sorted, keys, key, m) <= m,
        forall|i: int|
            0 <= i < place(sorted, keys, key, m) ==> keys[#[trigger] sorted[i]] <= key,
        forall|i: int|
            place(sorted, keys, key, m) <= i < m ==> keys[#[trigger] sorted[i]] > key,
    decreases m,
{
    if m > 0 && keys[sorted[m - 1]] > key {
        lemma_place(sorted, keys, key, (m - 1) as nat);
    } else if m > 0 {
        assert forall|i: int| 0 <= i < m implies keys[#[trigger] sorted[i]] <= key by {
            if i < m - 1 {
                assert(keys[sorted[i]] <= keys[sorted[m - 1]]);
            }
        }
    }
}

/// The places of a table in the order of their keys.
fn arrange(keys: &Vec<usize>) -> (r: Vec<usize>)
    ensures
        numbered(r@) == arranged(numbered(keys@), keys@.len()),
{
    let ghost all = numbered(keys@);
    let mut r: Vec<usize> = Vec::new();
    let mut i: usize = 0;
    assert(numbered(r@) =~= Seq::<int>::empty());
    while i < keys.len()
        invariant
            i <= keys@.len(),
            all == numbered(keys@),
            numbered(r@) == arranged(all, i as nat),
        decreases keys@.len() - i,
    {
        proof {
            lemma_arranged(all, i as nat);
        }
        let ghost before = numbered(r@);
        assert forall|k: int| 0 <= k < r@.len() implies #[trigger] r@[k] < i by {
            assert(before[k] == r@[k] as int);
        }
        let mut at: usize = r.len();
        while at > 0 && keys[r[at - 1]] > keys[i]
            invariant
                i < keys@.len(),
                at <= r@.len(),
                r@.len() == i,
                all == numbered(keys@),
                before == numbered(r@),
                forall|k: int| 0 <= k < r@.len() ==> #[trigger] r@[k] < i,
                place(before, all, all[i as int], before.len()) == place(
                    before,
                    all,
                    all[i as int],
                    at as nat,
                ),
            decreases at,
        {
            assert(before[at - 1] == r@[at - 1] as int);
            at = at - 1;
        }
        assert(at > 0 ==> before[at - 1] == r@[at - 1] as int);
        r.insert(at, i);
        assert(numbered(r@) =~= before.insert(at as int, i as int));
        i = i + 1;
    }
    r
}

/// Which weathers can occur in a place, as places in the table, in the game's own order.
///
/// A region is the only thing that limits weather to a place. An interior names none, and neither
/// do a handful of exteriors; there the answer is everything, because a caller offering a choice
/// between none is worse than one offering a choice the game would not have made.
pub fn forecast(
    table: &Vec<Weather>,
    order: &Vec<String>,
    allowed: Option<&Vec<String>>,
) -> (r: Vec<usize>)
    ensures
        numbered(r@) == forecast_of(
            weather_names(table@),
            names(order@),
            match allowed {
                Some(allowed) => Some(names(allowed@)),
                None => None,
            },
        ),
{
    let ghost said = weather_names(table@);
    let mut keys: Vec<usize> = Vec::new();
    let mut i: usize = 0;
    while i < table.len()
        invariant
            i <= table@.len(),
            said == weather_names(table@),
            keys@.len() == i,
            forall|k: int|
                0 <= k < i ==> #[trigger] keys@[k] as int == position(names(order@), said[k], 0),
        decreases table@.len() - i,
    {
        assert(said[i as int] == table@[i as int].name@);
        keys.push(find(order, table[i].name.as_str()));
        i = i + 1;
    }
    assert(numbered(keys@) =~= keys_of(said, names(order@)));
    let all: Vec<usize> = arrange(&keys);
    let ghost places = numbered(all@);
    proof {
        lemma_arranged(numbered(keys@), keys@.len());
    }
    match allowed {
        Some(allowed) => {
            let mut some: Vec<usize> = Vec::new();
            let mut k: usize = 0;
            assert(numbered(some@) =~= Seq::<int>::empty());
            while k < all.len()
                invariant
                    k <= all@.len(),
                    all@.len() == table@.len(),
                    places == numbered(all@),
                    forall|j: int| 0 <= j < places.len() ==> #[trigger] places[j] < table@.len(),
                    said == weather_names(table@),
                    numbered(some@) == allowed_among(places, said, names(allowed@), k as nat),
                decreases all@.len() - k,
            {
                assert(places[k as int] == all@[k as int] as int);
                let name: &str = table[all[k]].name.as_str();
                assert(said[places[k as int]] == name@);
                let ghost before = numbered(some@);
                let at: usize = find(allowed, name);
                proof {
                    lemma_position(names(allowed@), name@, 0);
                }
                if at < allowed.len() {
                    some.push(all[k]);
                    assert(numbered(some@) =~= before.push(places[k as int]));
                }
                k = k + 1;
            }
            if some.len() > 0 {
                some
            } else {
                all
            }
        },
        None => all,
    }
}

/// A name is in an order where it is found before the end.
proof fn lemma_position(order: Seq<Seq<char>>, name: Seq<char>, from: int)
    requires
        0 <= from <= order.len(),
    ensures
        from <= position(order, name, from) <= order.len(),
        position(order, name, from) < order.len() ==> order.contains(name),
        from == 0 && order.contains(name) ==> position(order, name, from) < order.len(),
        forall|k: int| from <= k < position(order, name, from) ==> #[trigger] order[k] != name,
    decreases order.len() - from,
{
    if from < order.len() && order[from] != name {
        lemma_position(order, name, from + 1);
    }
}

/// Finds a weather by a name, written in any case and with white space around it.
///
/// A name the table does not hold is no error: a caller falls back to clear weather, which names
/// itself.
pub fn find_named(table: &Vec<Weather>, name: &str) -> (r: Option<usize>)
    ensures
        ({
            let at = position(weather_names(table@), lowered(trimmed(name@)), 0);
            match r {
                Some(i) => i == at && i < table@.len(),
                None => at >= table@.len(),
            }
        }),
{
    let all: Vec<char> = chars(name);
    let (from, to): (usize, usize) = trim(&all, 0, all.len());
    let wanted: String = cut_lowered(&all, from, to);
    assert(all@.subrange(0, all@.len() as int) =~= name@);
    let ghost said = weather_names(table@);
    let mut i: usize = 0;
    while i < table.len()
        invariant
            i <= table@.len(),
            said == weather_names(table@),
            wanted@ == lowered(trimmed(name@)),
            position(said, wanted@, 0) == position(said, wanted@, i as int),
        decreases table@.len() - i,
    {
        assert(said[i as int] == table@[i as int].name@);
        if same(table[i].name.as_str(), wanted.as_str()) {
            return Some(i);
        }
        i = i + 1;
    }
    None
}

/// **A forecast reads in the game's own order**, weathers it does not list last, and says nothing
/// twice.
pub proof fn law_a_forecast_is_in_order(
    table: Seq<Seq<char>>,
    order: Seq<Seq<char>>,
    i: int,
    j: int,
)
    requires
        0 <= i < j < table.len(),
    ensures
        ({
            let keys = keys_of(table, order);
            let all = forecast_of(table, order, None);
            &&& all.len() == table.len()
            &&& 0 <= all[i] < table.len()
            &&& all[i] != all[j]
            &&& keys[all[i]] <= keys[all[j]]
        }),
{
    lemma_arranged(keys_of(table, order), table.len());
}

/// **A place always has some weather**, whatever its region allows, where the game has any.
pub proof fn law_some_weather_always_occurs(
    table: Seq<Seq<char>>,
    order: Seq<Seq<char>>,
    allowed: Option<Seq<Seq<char>>>,
)
    requires
        table.len() > 0,
    ensures
        forecast_of(table, order, allowed).len() > 0,
{
    lemma_arranged(keys_of(table, order), table.len());
}

/// Everything allowed among some places is one of them, and is allowed.
proof fn lemma_allowed(
    places: Seq<int>,
    table: Seq<Seq<char>>,
    allowed: Seq<Seq<char>>,
    n: nat,
    i: int,
)
    requires
        n <= places.len(),
        0 <= i < allowed_among(places, table, allowed, n).len(),
    ensures
        allowed.contains(table[allowed_among(places, table, allowed, n)[i]]),
    decreases n,
{
    let before = allowed_among(places, table, allowed, (n - 1) as nat);
    if i < before.len() {
        lemma_allowed(places, table, allowed, (n - 1) as nat, i);
    }
}

/// **A region that allows any weather rules out what it does not allow.**
pub proof fn law_a_region_rules_weather_out(
    table: Seq<Seq<char>>,
    order: Seq<Seq<char>>,
    allowed: Seq<Seq<char>>,
    k: int,
    i: int,
)
    requires
        0 <= k < table.len(),
        allowed.contains(table[k]),
        0 <= i < forecast_of(table, order, Some(allowed)).len(),
    ensures
        allowed.contains(table[forecast_of(table, order, Some(allowed))[i]]),
{
    let keys = keys_of(table, order);
    let all = arranged(keys, table.len());
    lemma_arranged(keys, table.len());
    let at = lemma_everything_is_arranged(keys, table.len(), k);
    lemma_allowed_is_found(all, table, allowed, all.len(), at);
    lemma_allowed(all, table, allowed, all.len(), i);
}

/// Every place is arranged somewhere.
pub proof fn lemma_everything_is_arranged(keys: Seq<int>, n: nat, k: int) -> (at: int)
    requires
        0 <= k < n <= keys.len(),
    ensures
        0 <= at < n,
        arranged(keys, n)[at] == k,
    decreases n,
{
    let m = (n - 1) as nat;
    let before = arranged(keys, m);
    lemma_arranged(keys, m);
    lemma_place(before, keys, keys[n - 1], m);
    let slot = place(before, keys, keys[n - 1], m) as int;
    if k == n - 1 {
        slot
    } else {
        let at = lemma_everything_is_arranged(keys, m, k);
        if at < slot {
            at
        } else {
            at + 1
        }
    }
}

/// What is allowed is found.
proof fn lemma_allowed_is_found(
    places: Seq<int>,
    table: Seq<Seq<char>>,
    allowed: Seq<Seq<char>>,
    n: nat,
    at: int,
)
    requires
        0 <= at < n <= places.len(),
        allowed.contains(table[places[at]]),
    ensures
        allowed_among(places, table, allowed, n).len() > 0,
    decreases n,
{
    if at < n - 1 {
        lemma_allowed_is_found(places, table, allowed, (n - 1) as nat, at);
    }
}

} // verus!
