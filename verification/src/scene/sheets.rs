//! Telling sheets — cloth, a rug, a banner — from the skin of something solid.

use super::bits::{greater, is_greater, Bits};
use super::material::{AlphaMode, Material};
use super::material_table::MaterialTable;
use super::mesh::{Mesh, MeshModel, Submesh};
use super::rounding::{eighths, to_eighths};
use std::collections::HashMap;
use vstd::prelude::*;

verus! {

/// A mesh is open when more than one edge in this many is a border.
///
/// A closed box has none at all; a sheet has its whole perimeter. What the tolerance buys is room
/// for the odd crack in a solid that was never quite closed.
pub const BORDER_SHARE: u64 = 50;

/// What a run encloses, as a part of what a solid of its surface area would, below which it is a
/// sheet: 0.006, an order of magnitude under a cube, which scores 0.068.
pub const THIN_VOLUME: Bits = 0x3BC4_9BA6;

/// How many different things there are in a list: those that stand there for the first time.
pub open spec fn distinct_count<E>(s: Seq<E>) -> nat {
    first_places(s).len()
}

/// How many things stand in a list exactly once.
pub open spec fn lone_count<E>(s: Seq<E>) -> nat {
    lone_places(s).len()
}

/// Where things stand that stand in a list exactly once.
pub open spec fn lone_places<E>(s: Seq<E>) -> Set<int> {
    Set::new(|i: int| 0 <= i < s.len() && is_lone(s, i))
}

/// Whether what stands at `i` stands nowhere else.
pub open spec fn is_lone<E>(s: Seq<E>, i: int) -> bool {
    forall|j: int| 0 <= j < s.len() && j != i ==> #[trigger] s[j] != s[i]
}

/// Whether what stands at `i` stands nowhere before.
pub open spec fn is_first<E>(s: Seq<E>, i: int) -> bool {
    forall|j: int| 0 <= j < i ==> #[trigger] s[j] != s[i]
}

/// Where things stand that stand there for the first time.
pub open spec fn first_places<E>(s: Seq<E>) -> Set<int> {
    Set::new(|i: int| 0 <= i < s.len() && is_first(s, i))
}

/// The edge from corner `i % 3` of triangle `i / 3` to the next: the two places it joins, whichever
/// way it runs.
pub open spec fn edge_at(indices: Seq<u32>, keys: Seq<[i32; 3]>, i: int) -> Set<[i32; 3]> {
    let corner = i % 3;
    let next = if corner == 2 {
        i - 2
    } else {
        i + 1
    };
    set![keys[indices[i] as int], keys[indices[next] as int]]
}

/// Every edge of every triangle.
///
/// Edges are known by the places they join rather than by their vertices: vertices are split
/// wherever a seam or a crease needs two normals at one corner, so two triangles sharing an edge
/// routinely name four different vertices for it.
pub open spec fn edges(indices: Seq<u32>, keys: Seq<[i32; 3]>) -> Seq<Set<[i32; 3]>> {
    Seq::new((indices.len() / 3) * 3, |i: int| edge_at(indices, keys, i))
}

/// Whether a mesh has a border: enough of its edges have a triangle on one side and nothing on the
/// other.
pub open spec fn bordered(indices: Seq<u32>, keys: Seq<[i32; 3]>) -> bool {
    lone_count(edges(indices, keys)) * BORDER_SHARE > distinct_count(edges(indices, keys))
}

/// Two lists that repeat themselves in the same places have as many lone and first ones.
proof fn lemma_same_pattern<A, B>(s: Seq<A>, t: Seq<B>)
    requires
        s.len() == t.len(),
        forall|i: int, j: int|
            0 <= i < s.len() && 0 <= j < s.len() ==> (#[trigger] s[i] == #[trigger] s[j] <==> t[i]
                == t[j]),
    ensures
        lone_places(s) == lone_places(t),
        first_places(s) == first_places(t),
{
    assert forall|i: int| 0 <= i < s.len() implies is_lone(s, i) == is_lone(t, i) by {
        if is_lone(s, i) {
            assert forall|j: int| 0 <= j < t.len() && j != i implies #[trigger] t[j] != t[i] by {
                assert(s[j] != s[i]);
            }
        }
        if is_lone(t, i) {
            assert forall|j: int| 0 <= j < s.len() && j != i implies #[trigger] s[j] != s[i] by {
                assert(t[j] != t[i]);
            }
        }
    }
    assert forall|i: int| 0 <= i < s.len() implies is_first(s, i) == is_first(t, i) by {
        if is_first(s, i) {
            assert forall|j: int| 0 <= j < i implies #[trigger] t[j] != t[i] by {
                assert(s[j] != s[i]);
            }
        }
        if is_first(t, i) {
            assert forall|j: int| 0 <= j < i implies #[trigger] s[j] != s[i] by {
                assert(t[j] != t[i]);
            }
        }
    }
    assert(lone_places(s) =~= lone_places(t));
    assert(first_places(s) =~= first_places(t));
}

/// How often a number stands in a list.
spec fn times(s: Seq<u64>, c: u64) -> nat
    decreases s.len(),
{
    if s.len() == 0 {
        0
    } else {
        times(s.drop_last(), c) + if s.last() == c {
            1nat
        } else {
            0nat
        }
    }
}

/// A number that stands in a list stands there at least once, and one that does not, never.
proof fn lemma_times(s: Seq<u64>, c: u64)
    ensures
        times(s, c) == 0 <==> !s.contains(c),
        times(s, c) == 1 ==> exists|i: int| 0 <= i < s.len() && #[trigger] s[i] == c && is_lone(s, i),
        times(s, c) >= 2 ==> forall|i: int|
            0 <= i < s.len() && #[trigger] s[i] == c ==> !is_lone(s, i),
        times(s, c) <= s.len(),
    decreases s.len(),
{
    if s.len() > 0 {
        let rest = s.drop_last();
        let last = s.len() - 1;
        lemma_times(rest, c);
        if s.contains(c) && s[last] != c {
            let i = s.index_of(c);
            assert(rest[i] == c);
        }
        if rest.contains(c) {
            let i = rest.index_of(c);
            assert(s[i] == c);
        }
        if times(s, c) == 1 {
            if s[last] == c {
                assert(is_lone(s, last)) by {
                    assert forall|j: int| 0 <= j < s.len() && j != last implies #[trigger] s[j]
                        != s[last] by {
                        assert(rest[j] == s[j]);
                        assert(!rest.contains(c));
                    }
                }
            } else {
                let i = choose|i: int| 0 <= i < rest.len() && #[trigger] rest[i] == c && is_lone(rest, i);
                assert(s[i] == c);
                assert(is_lone(s, i)) by {
                    assert forall|j: int| 0 <= j < s.len() && j != i implies #[trigger] s[j]
                        != s[i] by {
                        if j < last {
                            assert(rest[j] == s[j]);
                        }
                    }
                }
            }
        }
        if times(s, c) >= 2 {
            assert forall|i: int| 0 <= i < s.len() && #[trigger] s[i] == c implies !is_lone(s, i) by {
                if s[last] == c {
                    assert(rest.contains(c));
                    let k = rest.index_of(c);
                    assert(s[k] == c && s[last] == c);
                    if i == k {
                        assert(s[last] == s[i]);
                    } else {
                        assert(s[k] == s[i]);
                    }
                } else {
                    assert(rest[i] == c);
                    assert(!is_lone(rest, i));
                    let j = choose|j: int|
                        0 <= j < rest.len() && j != i && #[trigger] rest[j] == rest[i];
                    assert(s[j] == s[i]);
                }
            }
        }
    } else {
        assert(!s.contains(c));
    }
}

/// What one more number does to how often each stands in a list.
proof fn lemma_push_times(s: Seq<u64>, c: u64)
    ensures
        times(s.push(c), c) == times(s, c) + 1,
        forall|d: u64| d != c ==> #[trigger] times(s.push(c), d) == times(s, d),
{
    assert(s.push(c).drop_last() =~= s);
}

/// What one more number does to how many are different.
proof fn lemma_push_first(s: Seq<u64>, c: u64)
    ensures
        first_places(s.push(c)).len() == first_places(s).len() + if s.contains(c) {
            0nat
        } else {
            1nat
        },
{
    let t = s.push(c);
    let n = s.len() as int;
    lemma_bounded(s);
    assert forall|i: int| 0 <= i < n implies is_first(t, i) == is_first(s, i) by {
        if is_first(s, i) {
            assert forall|j: int| 0 <= j < i implies #[trigger] t[j] != t[i] by {
                assert(s[j] != s[i]);
            }
        }
        if is_first(t, i) {
            assert forall|j: int| 0 <= j < i implies #[trigger] s[j] != s[i] by {
                assert(t[j] != t[i]);
            }
        }
    }
    if s.contains(c) {
        let k = s.index_of(c);
        assert(t[k] == t[n]);
        assert(!is_first(t, n));
        assert(first_places(t) =~= first_places(s));
    } else {
        assert forall|j: int| 0 <= j < n implies #[trigger] t[j] != t[n] by {
            assert(s.contains(s[j]));
        }
        assert(is_first(t, n));
        assert(first_places(t) =~= first_places(s).insert(n));
    }
}

/// A number already there does not stand alone once there is one more; others stand as they did.
proof fn lemma_push_lone_others(s: Seq<u64>, c: u64, i: int)
    requires
        0 <= i < s.len(),
    ensures
        is_lone(s.push(c), i) == (is_lone(s, i) && s[i] != c),
{
    let t = s.push(c);
    let n = s.len() as int;
    if s[i] == c {
        assert(t[n] == t[i]);
    } else {
        if is_lone(s, i) {
            assert forall|j: int| 0 <= j < t.len() && j != i implies #[trigger] t[j] != t[i] by {
                if j < n {
                    assert(s[j] != s[i]);
                }
            }
        }
        if is_lone(t, i) {
            assert forall|j: int| 0 <= j < n && j != i implies #[trigger] s[j] != s[i] by {
                assert(t[j] != t[i]);
            }
        }
    }
}

/// What one more number does to how many stand alone.
proof fn lemma_push_lone(s: Seq<u64>, c: u64)
    ensures
        times(s, c) == 0 ==> lone_places(s.push(c)).len() == lone_places(s).len() + 1,
        times(s, c) == 1 ==> lone_places(s.push(c)).len() + 1 == lone_places(s).len(),
        times(s, c) >= 2 ==> lone_places(s.push(c)).len() == lone_places(s).len(),
{
    let t = s.push(c);
    let n = s.len() as int;
    lemma_times(s, c);
    lemma_bounded(s);
    assert forall|i: int| 0 <= i < n implies #[trigger] is_lone(t, i) == (is_lone(s, i) && s[i]
        != c) by {
        lemma_push_lone_others(s, c, i);
    }
    if times(s, c) == 0 {
        assert forall|j: int| 0 <= j < n implies #[trigger] s[j] != c by {
            assert(s.contains(s[j]));
        }
        assert(is_lone(t, n));
        assert(lone_places(t) =~= lone_places(s).insert(n));
    } else {
        let k = s.index_of(c);
        assert(t[k] == t[n]);
        assert(!is_lone(t, n));
        if times(s, c) == 1 {
            let k = choose|i: int| 0 <= i < s.len() && #[trigger] s[i] == c && is_lone(s, i);
            assert forall|i: int| 0 <= i < n && i != k implies #[trigger] s[i] != c by {
                assert(s[i] != s[k]);
            }
            assert(lone_places(t) =~= lone_places(s).remove(k));
        } else {
            assert(lone_places(t) =~= lone_places(s));
        }
    }
}

/// Places in a list are finitely many.
pub(crate) proof fn lemma_bounded<E>(s: Seq<E>)
    ensures
        lone_places(s).finite(),
        first_places(s).finite(),
        lone_places(s).len() <= s.len(),
        first_places(s).len() <= s.len(),
{
    let all = vstd::set_lib::set_int_range(0, s.len() as int);
    vstd::set_lib::lemma_int_range(0, s.len() as int);
    assert(lone_places(s) =~= all.intersect(lone_places(s)));
    assert(first_places(s) =~= all.intersect(first_places(s)));
    vstd::set_lib::lemma_len_subset(lone_places(s), all);
    vstd::set_lib::lemma_len_subset(first_places(s), all);
}

/// A place as one number.
spec fn code_of(key: [i32; 3]) -> int {
    (key@[0] + 0x8000_0000) * 0x1_0000_0000_0000_0000 + (key@[1] + 0x8000_0000) * 0x1_0000_0000
        + (key@[2] + 0x8000_0000)
}

/// Three digits to a base of thirty-two bits are told from their sum.
proof fn lemma_digits(x: int, y: int, z: int, p: int, q: int, r: int)
    requires
        0 <= y < 0x1_0000_0000,
        0 <= z < 0x1_0000_0000,
        0 <= q < 0x1_0000_0000,
        0 <= r < 0x1_0000_0000,
        x * 0x1_0000_0000_0000_0000 + y * 0x1_0000_0000 + z == p * 0x1_0000_0000_0000_0000 + q
            * 0x1_0000_0000 + r,
    ensures
        x == p,
        y == q,
        z == r,
{
    let (high, other) = (x * 0x1_0000_0000 + y, p * 0x1_0000_0000 + q);
    assert(high * 0x1_0000_0000 + z == other * 0x1_0000_0000 + r);
    assert(high == other);
    assert(x == p);
}

/// Different places are different numbers.
proof fn lemma_codes_identify(a: [i32; 3], b: [i32; 3])
    requires
        code_of(a) == code_of(b),
    ensures
        a == b,
{
    lemma_digits(
        a@[0] + 0x8000_0000,
        a@[1] + 0x8000_0000,
        a@[2] + 0x8000_0000,
        b@[0] + 0x8000_0000,
        b@[1] + 0x8000_0000,
        b@[2] + 0x8000_0000,
    );
    assert(a@ =~= b@);
    assert(a =~= b);
}

/// A place as one number.
fn code(key: [i32; 3]) -> (r: u128)
    ensures
        r == code_of(key),
{
    let x: u128 = (key[0] as i64 + 0x8000_0000) as u128;
    let y: u128 = (key[1] as i64 + 0x8000_0000) as u128;
    let z: u128 = (key[2] as i64 + 0x8000_0000) as u128;
    x * 0x1_0000_0000_0000_0000 + y * 0x1_0000_0000 + z
}

/// For each vertex, the first vertex that stands where it does.
fn representatives(keys: &Vec<[i32; 3]>) -> (r: Vec<u32>)
    requires
        keys@.len() <= u32::MAX,
    ensures
        r@.len() == keys@.len(),
        forall|i: int| 0 <= i < r@.len() ==> #[trigger] r@[i] <= i && keys@[r@[i] as int] == keys@[i],
        forall|i: int, j: int|
            0 <= i < r@.len() && 0 <= j < r@.len() ==> (#[trigger] r@[i] == #[trigger] r@[j] <==> keys@[i]
                == keys@[j]),
{
    broadcast use vstd::std_specs::hash::group_hash_axioms;

    let mut seen: HashMap<u128, u32> = HashMap::new();
    let mut r: Vec<u32> = Vec::new();
    let mut i: usize = 0;
    while i < keys.len()
        invariant
            keys@.len() <= u32::MAX,
            i <= keys@.len(),
            r@.len() == i,
            forall|k: int| 0 <= k < i ==> #[trigger] r@[k] <= k && keys@[r@[k] as int] == keys@[k],
            forall|k: int|
                0 <= k < i ==> #[trigger] seen@.contains_key(code_of(keys@[k]) as u128)
                    && seen@[code_of(keys@[k]) as u128] == r@[k],
            forall|c: u128| #[trigger]
                seen@.contains_key(c) ==> exists|k: int|
                    0 <= k < i && #[trigger] code_of(keys@[k]) == c && r@[k] == k && seen@[c] == k,
        decreases keys@.len() - i,
    {
        let c: u128 = code(keys[i]);
        let ghost before = seen@;
        let ghost old_r = r@;
        match seen.get(&c) {
            Some(first) => {
                let first: u32 = *first;
                proof {
                    let k = choose|k: int|
                        0 <= k < i && #[trigger] code_of(keys@[k]) == c && old_r[k] == k && before[c]
                            == k;
                    lemma_codes_identify(keys@[k], keys@[i as int]);
                }
                r.push(first);
            },
            None => {
                seen.insert(c, i as u32);
                r.push(i as u32);
                proof {
                    assert forall|k: int| 0 <= k < i + 1 implies #[trigger] seen@.contains_key(
                        code_of(keys@[k]) as u128,
                    ) && seen@[code_of(keys@[k]) as u128] == r@[k] by {
                        if k < i {
                            assert(before.contains_key(code_of(keys@[k]) as u128));
                        }
                    }
                    assert forall|d: u128| #[trigger] seen@.contains_key(d) implies exists|k: int|
                        0 <= k < i + 1 && #[trigger] code_of(keys@[k]) == d && r@[k] == k && seen@[d]
                            == k by {
                        if d == c {
                            assert(code_of(keys@[i as int]) == d);
                        } else {
                            let k = choose|k: int|
                                0 <= k < i && #[trigger] code_of(keys@[k]) == d && old_r[k] == k
                                    && before[d] == k;
                            assert(code_of(keys@[k]) == d && r@[k] == k);
                        }
                    }
                }
            },
        }
        i = i + 1;
    }
    proof {
        assert forall|a: int, b: int| 0 <= a < r@.len() && 0 <= b < r@.len() implies (#[trigger] r@[a]
            == #[trigger] r@[b] <==> keys@[a] == keys@[b]) by {
            assert(seen@.contains_key(code_of(keys@[a]) as u128));
            assert(seen@.contains_key(code_of(keys@[b]) as u128));
        }
    }
    r
}

/// Two unordered pairs are one where their members are, one way round or the other.
proof fn lemma_pairs<A>(a: A, b: A, c: A, d: A)
    ensures
        set![a, b] == set![c, d] <==> (a == c && b == d) || (a == d && b == c),
{
    let (s, t) = (set![a, b], set![c, d]);
    if s == t {
        assert(s.contains(a) && s.contains(b) && t.contains(c) && t.contains(d));
        assert(t.contains(a) && t.contains(b) && s.contains(c) && s.contains(d));
    }
    if (a == c && b == d) || (a == d && b == c) {
        assert(s =~= t);
    }
}

/// The other end of the edge that starts at index `i`.
spec fn next_of(i: int) -> int {
    if i % 3 == 2 {
        i - 2
    } else {
        i + 1
    }
}

/// An edge between two vertices as one number, whichever way it runs.
spec fn edge_code(a: u32, b: u32) -> int {
    if a <= b {
        a * 0x1_0000_0000 + b
    } else {
        b * 0x1_0000_0000 + a
    }
}

/// Whether every index names a vertex.
pub open spec fn in_range(indices: Seq<u32>, vertices: int) -> bool {
    forall|i: int| 0 <= i < indices.len() ==> #[trigger] indices[i] < vertices
}

/// Edges repeat themselves where their numbers do.
proof fn lemma_edge_pattern(
    indices: Seq<u32>,
    keys: Seq<[i32; 3]>,
    r: Seq<u32>,
    i: int,
    j: int,
)
    requires
        in_range(indices, keys.len() as int),
        r.len() == keys.len(),
        forall|a: int, b: int|
            0 <= a < r.len() && 0 <= b < r.len() ==> (#[trigger] r[a] == #[trigger] r[b] <==> keys[a]
                == keys[b]),
        0 <= i < (indices.len() / 3) * 3,
        0 <= j < (indices.len() / 3) * 3,
    ensures
        edge_at(indices, keys, i) == edge_at(indices, keys, j) <==> edge_code(
            r[indices[i] as int],
            r[indices[next_of(i)] as int],
        ) == edge_code(r[indices[j] as int], r[indices[next_of(j)] as int]),
{
    assert(next_of(i) < indices.len() && next_of(j) < indices.len());
    let (a, b) = (indices[i] as int, indices[next_of(i)] as int);
    let (c, d) = (indices[j] as int, indices[next_of(j)] as int);
    lemma_pairs(keys[a], keys[b], keys[c], keys[d]);
    assert(r[a] == r[c] <==> keys[a] == keys[c]);
    assert(r[b] == r[d] <==> keys[b] == keys[d]);
    assert(r[a] == r[d] <==> keys[a] == keys[d]);
    assert(r[b] == r[c] <==> keys[b] == keys[c]);
}

/// The number of the edge that starts at index `i`.
fn edge_number(indices: &Vec<u32>, r: &Vec<u32>, i: usize) -> (code: u64)
    requires
        i < (indices@.len() / 3) * 3,
        in_range(indices@, r@.len() as int),
    ensures
        code == edge_code(r@[indices@[i as int] as int], r@[indices@[next_of(i as int)] as int]),
{
    assert(indices@.len() == indices.len());
    let next: usize = if i % 3 == 2 { i - 2 } else { i + 1 };
    assert(next == next_of(i as int));
    let (x, y): (u32, u32) = (indices[i], indices[next]);
    assert(indices@[i as int] < r@.len());
    assert(indices@[next as int] < r@.len());
    let (a, b): (u64, u64) = (r[x as usize] as u64, r[y as usize] as u64);
    if a <= b {
        a * 0x1_0000_0000 + b
    } else {
        b * 0x1_0000_0000 + a
    }
}

/// Whether some triangles have a border, their corners standing where `keys` says.
pub(crate) fn find_border(indices: &Vec<u32>, keys: &Vec<[i32; 3]>) -> (open: bool)
    requires
        keys@.len() <= u32::MAX,
        in_range(indices@, keys@.len() as int),
    ensures
        open == bordered(indices@, keys@),
{
    broadcast use vstd::std_specs::hash::group_hash_axioms;

    let r: Vec<u32> = representatives(keys);
    let total: usize = (indices.len() / 3) * 3;
    let mut seen: HashMap<u64, usize> = HashMap::new();
    let mut lone: usize = 0;
    let mut distinct: usize = 0;
    let ghost mut codes: Seq<u64> = Seq::empty();
    let mut i: usize = 0;
    proof {
        lemma_bounded(codes);
    }
    while i < total
        invariant
            i <= total,
            total == (indices@.len() / 3) * 3,
            r@.len() == keys@.len(),
            in_range(indices@, keys@.len() as int),
            codes.len() == i,
            forall|k: int|
                0 <= k < i ==> #[trigger] codes[k] == edge_code(
                    r@[indices@[k] as int],
                    r@[indices@[next_of(k)] as int],
                ),
            forall|c: u64| #[trigger]
                seen@.contains_key(c) ==> seen@[c] == times(codes, c) && seen@[c] >= 1,
            forall|c: u64| !(#[trigger] seen@.contains_key(c)) ==> times(codes, c) == 0,
            lone == lone_places(codes).len(),
            distinct == first_places(codes).len(),
            lone <= i,
            distinct <= i,
        decreases total - i,
    {
        let c: u64 = edge_number(indices, &r, i);
        let ghost before = codes;
        proof {
            lemma_times(before, c);
            lemma_push_times(before, c);
            lemma_push_first(before, c);
            lemma_push_lone(before, c);
            codes = codes.push(c);
            lemma_bounded(codes);
        }
        let times_before: usize = match seen.get(&c) {
            Some(count) => *count,
            None => 0,
        };
        assert(times_before == times(before, c));
        if times_before == 0 {
            lone = lone + 1;
            distinct = distinct + 1;
        } else if times_before == 1 {
            lone = lone - 1;
        }
        seen.insert(c, times_before + 1);
        i = i + 1;
    }
    proof {
        let all = edges(indices@, keys@);
        assert forall|a: int, b: int|
            0 <= a < all.len() && 0 <= b < all.len() implies (#[trigger] all[a] == #[trigger] all[b]
            <==> codes[a] == codes[b]) by {
            lemma_edge_pattern(indices@, keys@, r@, a, b);
        }
        lemma_same_pattern(all, codes);
    }
    lone as u128 * BORDER_SHARE as u128 > distinct as u128
}

/// **Splitting vertices makes no border**: only where the corners stand matters, not which vertices
/// name them.
pub proof fn law_split_vertices_make_no_border(
    indices: Seq<u32>,
    keys: Seq<[i32; 3]>,
    split: Seq<u32>,
    split_keys: Seq<[i32; 3]>,
)
    requires
        indices.len() == split.len(),
        in_range(indices, keys.len() as int),
        in_range(split, split_keys.len() as int),
        forall|i: int|
            0 <= i < indices.len() ==> keys[#[trigger] indices[i] as int] == split_keys[split[i] as int],
    ensures
        bordered(indices, keys) == bordered(split, split_keys),
{
    assert(edges(indices, keys) =~= edges(split, split_keys)) by {
        assert forall|i: int| 0 <= i < (indices.len() / 3) * 3 implies edge_at(indices, keys, i)
            == edge_at(split, split_keys, i) by {
            assert(next_of(i) < indices.len());
            assert(keys[indices[i] as int] == split_keys[split[i] as int]);
            assert(keys[indices[next_of(i)] as int] == split_keys[split[next_of(i)] as int]);
        }
    }
}

/// A run with its kind decided.
pub open spec fn sheet_run(run: Submesh, cut_out: bool, open: bool, hollow: bool) -> Submesh {
    Submesh { thin: cut_out || (open && hollow), ..run }
}

/// Whether a run's material is anything but opaque.
pub open spec fn is_cut_out(run: Submesh, materials: Seq<Material>) -> bool {
    materials[run.material as int].alpha != AlphaMode::Opaque
}

/// A mesh with its sheets told from its solids: a run is a sheet where its material is cut out, or
/// where the mesh is open and the run encloses next to nothing.
pub open spec fn told_apart(
    mesh: MeshModel,
    materials: Seq<Material>,
    volumes: Seq<Bits>,
) -> MeshModel {
    MeshModel {
        submeshes: Seq::new(
            mesh.submeshes.len(),
            |i: int|
                sheet_run(
                    mesh.submeshes[i],
                    is_cut_out(mesh.submeshes[i], materials),
                    bordered(mesh.indices, places_of(mesh.positions)),
                    greater(THIN_VOLUME, volumes[i]),
                ),
        ),
        ..mesh
    }
}

/// A place, to the nearest eighth of a unit: finely enough to separate real corners and coarsely
/// enough that two triangles meeting along an edge agree about where it is.
pub open spec fn place_of(position: [Bits; 3]) -> [i32; 3] {
    [
        eighths(position@[0]) as i32,
        eighths(position@[1]) as i32,
        eighths(position@[2]) as i32,
    ]
}

/// Where some vertices are, to the nearest eighth of a unit.
pub open spec fn places_of(positions: Seq<[Bits; 3]>) -> Seq<[i32; 3]> {
    Seq::new(positions.len(), |i: int| place_of(positions[i]))
}

/// Where some vertices are, to the nearest eighth of a unit.
pub(crate) fn quantised(positions: &Vec<[Bits; 3]>) -> (r: Vec<[i32; 3]>)
    ensures
        r@ == places_of(positions@),
{
    let mut r: Vec<[i32; 3]> = Vec::new();
    let mut i: usize = 0;
    while i < positions.len()
        invariant
            i <= positions@.len(),
            r@.len() == i,
            forall|k: int| 0 <= k < i ==> #[trigger] r@[k] == place_of(positions@[k]),
        decreases positions@.len() - i,
    {
        let position: [Bits; 3] = positions[i];
        r.push([to_eighths(position[0]), to_eighths(position[1]), to_eighths(position[2])]);
        i = i + 1;
    }
    assert(r@ =~= places_of(positions@));
    r
}

impl Mesh {
    /// Whether the mesh has a border — an edge with a triangle on one side and nothing on the
    /// other. Triangles meet where their corners are in one place, whatever their numbers.
    pub fn has_border(&self) -> (open: bool)
        requires
            self@.positions.len() <= u32::MAX,
            in_range(self@.indices, self@.positions.len() as int),
        ensures
            open == bordered(self@.indices, places_of(self@.positions)),
    {
        let keys: Vec<[i32; 3]> = quantised(&self.positions);
        find_border(&self.indices, &keys)
    }

    /// Marks every run that is a sheet rather than part of something solid.
    ///
    /// The material answers first: a run whose alpha is anything but opaque is a cutout, and there
    /// are no solid cutouts. For the rest two questions are asked, because either one alone gets it
    /// wrong: whether the whole mesh is open, which cannot be asked of a run because a run is only a
    /// material's boundary, and whether the run encloses next to nothing, which is what
    /// `volumes` says of each.
    pub fn classify_sheets(
        &mut self,
        materials: &MaterialTable,
        volumes: &Vec<Bits>,
    )
        requires
            old(self)@.positions.len() <= u32::MAX,
            in_range(old(self)@.indices, old(self)@.positions.len() as int),
            volumes@.len() == old(self)@.submeshes.len(),
            forall|i: int|
                0 <= i < old(self)@.submeshes.len() ==> (#[trigger] old(self)@.submeshes[i]).material
                    < materials@.materials.len(),
        ensures
            final(self)@ == told_apart(old(self)@, materials@.materials, volumes@),
    {
        let open: bool = self.has_border();
        let ghost before = self@;
        let mut i: usize = 0;
        while i < self.submeshes.len()
            invariant
                before == old(self)@,
                i <= self.submeshes@.len(),
                self.submeshes@.len() == before.submeshes.len(),
                volumes@.len() == before.submeshes.len(),
                open == bordered(before.indices, places_of(before.positions)),
                forall|k: int|
                    0 <= k < before.submeshes.len() ==> (#[trigger] before.submeshes[k]).material
                        < materials@.materials.len(),
                self@.positions == before.positions,
                self@.normals == before.normals,
                self@.uvs == before.uvs,
                self@.indices == before.indices,
                forall|k: int| i <= k < before.submeshes.len() ==> self.submeshes@[k]
                    == #[trigger] before.submeshes[k],
                forall|k: int|
                    0 <= k < i ==> #[trigger] self.submeshes@[k] == sheet_run(
                        before.submeshes[k],
                        is_cut_out(before.submeshes[k], materials@.materials),
                        open,
                        greater(THIN_VOLUME, volumes@[k]),
                    ),
            decreases self.submeshes@.len() - i,
        {
            let run: Submesh = self.submeshes[i];
            assert(run == before.submeshes[i as int]);
            let cut_out: bool = materials.materials()[run.material as usize].alpha
                != AlphaMode::Opaque;
            self.submeshes[i] = Submesh { thin: cut_out || (open && is_greater(THIN_VOLUME, volumes[i])), ..run };
            i = i + 1;
        }
        assert(self@ =~= told_apart(before, materials@.materials, volumes@));
    }
}

} // verus!
