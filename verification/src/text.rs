//! Strings as sequences of characters.

use vstd::prelude::*;
use vstd::utf8::encode_utf8;

verus! {

/// `String::push` appends one character.
pub assume_specification[ String::push ](s: &mut String, c: char)
    ensures
        final(s)@ == old(s)@.push(c),
;

/// The characters of a string.
pub fn chars(s: &str) -> (r: Vec<char>)
    ensures
        r@ == s@,
{
    broadcast use vstd::string::axiom_spec_iter;

    let mut r: Vec<char> = Vec::new();
    for c in it: s.chars()
        invariant
            it.seq() == s@,
            r@ == s@.take(it.index() as int),
    {
        r.push(c);
        assert(r@ =~= s@.take(it.index() + 1));
    }
    assert(r@ =~= s@);
    r
}

/// The string of some characters.
pub fn string_of(chars: &[char]) -> (r: String)
    ensures
        r@ == chars@,
{
    let mut r: String = String::new();
    let mut i: usize = 0;
    while i < chars.len()
        invariant
            i <= chars@.len(),
            r@ == chars@.take(i as int),
        decreases chars@.len() - i,
    {
        r.push(chars[i]);
        i = i + 1;
        assert(r@ =~= chars@.take(i as int));
    }
    assert(r@ =~= chars@);
    r
}

/// Whether two strings hold the same characters.
pub fn same(a: &str, b: &str) -> (r: bool)
    ensures
        r == (a@ == b@),
{
    let x: &[u8] = a.as_bytes();
    let y: &[u8] = b.as_bytes();
    proof {
        vstd::utf8::encode_utf8_decode_utf8(a@);
        vstd::utf8::encode_utf8_decode_utf8(b@);
    }
    if x.len() != y.len() {
        return false;
    }
    let mut i: usize = 0;
    while i < x.len()
        invariant
            i <= x@.len(),
            x@.len() == y@.len(),
            x@ == encode_utf8(a@),
            y@ == encode_utf8(b@),
            forall|k: int| 0 <= k < i ==> x@[k] == y@[k],
        decreases x@.len() - i,
    {
        if x[i] != y[i] {
            return false;
        }
        i = i + 1;
    }
    assert(x@ =~= y@);
    true
}

/// Whether `x` and `y` agree on their first `k` bytes.
pub open spec fn agree(x: Seq<u8>, y: Seq<u8>, k: int) -> bool {
    &&& 0 <= k <= x.len()
    &&& k <= y.len()
    &&& forall|j: int| 0 <= j < k ==> x[j] == y[j]
}

/// Whether `x` comes before `y` byte by byte: at the first place where they differ it has the
/// smaller byte, or it ends there.
pub open spec fn bytes_before(x: Seq<u8>, y: Seq<u8>) -> bool {
    exists|k: int| #[trigger]
        agree(x, y, k) && k < y.len() && (k == x.len() || (k < x.len() && x[k] < y[k]))
}

/// Whether string `a` sorts before string `b`: by their bytes, as strings do.
pub open spec fn before(a: Seq<char>, b: Seq<char>) -> bool {
    bytes_before(encode_utf8(a), encode_utf8(b))
}

/// Whether string `a` sorts before string `b`.
pub fn precedes(a: &str, b: &str) -> (r: bool)
    ensures
        r == before(a@, b@),
{
    let x: &[u8] = a.as_bytes();
    let y: &[u8] = b.as_bytes();
    let mut i: usize = 0;
    while i < x.len() && i < y.len()
        invariant
            x@ == encode_utf8(a@),
            y@ == encode_utf8(b@),
            agree(x@, y@, i as int),
        decreases x@.len() - i,
    {
        if x[i] != y[i] {
            assert forall|k: int| #[trigger] agree(x@, y@, k) implies k <= i by {
                if k > i {
                    assert(x@[i as int] == y@[i as int]);
                }
            }
            return x[i] < y[i];
        }
        i = i + 1;
    }
    i < y.len()
}

/// Strings with the same bytes are the same string.
pub proof fn lemma_bytes_identify(a: Seq<char>, b: Seq<char>)
    requires
        encode_utf8(a) == encode_utf8(b),
    ensures
        a == b,
{
    vstd::utf8::encode_utf8_decode_utf8(a);
    vstd::utf8::encode_utf8_decode_utf8(b);
}

/// Sorting is irreflexive.
pub proof fn lemma_not_before_itself(a: Seq<char>)
    ensures
        !before(a, a),
{
}

/// Sorting is transitive.
pub proof fn lemma_before_is_transitive(a: Seq<char>, b: Seq<char>, c: Seq<char>)
    requires
        before(a, b),
        before(b, c),
    ensures
        before(a, c),
{
    let (x, y, z) = (encode_utf8(a), encode_utf8(b), encode_utf8(c));
    let j = choose|k: int| #[trigger]
        agree(x, y, k) && k < y.len() && (k == x.len() || (k < x.len() && x[k] < y[k]));
    let l = choose|k: int| #[trigger]
        agree(y, z, k) && k < z.len() && (k == y.len() || (k < y.len() && y[k] < z[k]));
    let m = if j <= l {
        j
    } else {
        l
    };
    assert(agree(x, z, m));
}

/// How far two byte strings agree: to their first difference or the end of the shorter.
proof fn lemma_agreement(x: Seq<u8>, y: Seq<u8>, from: int) -> (k: int)
    requires
        agree(x, y, from),
    ensures
        agree(x, y, k),
        k == x.len() || k == y.len() || x[k] != y[k],
    decreases x.len() - from,
{
    if from < x.len() && from < y.len() && x[from] == y[from] {
        lemma_agreement(x, y, from + 1)
    } else {
        from
    }
}

/// Of two different strings one sorts before the other.
pub proof fn lemma_before_is_total(a: Seq<char>, b: Seq<char>)
    requires
        a != b,
    ensures
        before(a, b) || before(b, a),
{
    let (x, y) = (encode_utf8(a), encode_utf8(b));
    assert(agree(x, y, 0));
    let k = lemma_agreement(x, y, 0);
    assert(agree(y, x, k));
    if k == x.len() && k == y.len() {
        assert(x =~= y);
        lemma_bytes_identify(a, b);
    }
}

/// Of two strings not both sort before the other.
pub proof fn lemma_before_is_asymmetric(a: Seq<char>, b: Seq<char>)
    requires
        before(a, b),
    ensures
        !before(b, a),
        a != b,
{
    if before(b, a) {
        lemma_before_is_transitive(a, b, a);
    }
    lemma_not_before_itself(a);
}

} // verus!
