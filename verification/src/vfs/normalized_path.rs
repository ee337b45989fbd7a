//! Case- and separator-insensitive paths for archive lookup.

use crate::text::{chars, same, string_of};
use vstd::prelude::*;
use vstd::string::StrSliceExecFns;

verus! {

/// A path in the form used to index the virtual file system.
///
/// The game's data was authored on Windows: archive entries use `\`, and references to them appear
/// in any mixture of cases. Every lookup key is folded to one form — lowercase ASCII, `/`
/// separators, no leading separator, no repeated separators — so `Meshes\Base_Anim.NIF` and
/// `meshes/base_anim.nif` are the same file.
#[derive(Debug, Clone, PartialEq, Eq, Hash, PartialOrd, Ord)]
pub struct NormalizedPath(String);

/// One character folded: a backslash to a slash, an ASCII capital to its small letter.
pub open spec fn folded(c: char) -> char {
    if c == '\\' {
        '/'
    } else if 'A' <= c <= 'Z' {
        (c as u32 + 32) as char
    } else {
        c
    }
}

/// A raw path in normalized form: every character folded, without the separators that lead the path
/// or follow another one.
pub open spec fn normalized(raw: Seq<char>) -> Seq<char>
    decreases raw.len(),
{
    if raw.len() == 0 {
        raw
    } else {
        let before = normalized(raw.drop_last());
        let c = folded(raw.last());
        if c == '/' && (before.len() == 0 || before.last() == '/') {
            before
        } else {
            before.push(c)
        }
    }
}

/// Whether a path is in normalized form: nothing left to fold, no leading separator, no two
/// separators in a row.
pub open spec fn is_normal(path: Seq<char>) -> bool {
    &&& forall|i: int| 0 <= i < path.len() ==> folded(#[trigger] path[i]) == path[i]
    &&& path.len() > 0 ==> path[0] != '/'
    &&& forall|i: int| 0 < i < path.len() && #[trigger] path[i] == '/' ==> path[i - 1] != '/'
}

/// The index of the last `c` in `s`, or -1 where there is none.
pub open spec fn last_of(s: Seq<char>, c: char) -> int
    decreases s.len(),
{
    if s.len() == 0 {
        -1
    } else if s.last() == c {
        s.len() - 1
    } else {
        last_of(s.drop_last(), c)
    }
}

/// The last component of a path: what follows the last separator, and nothing of an empty path.
pub open spec fn final_component(path: Seq<char>) -> Option<Seq<char>> {
    if path.len() == 0 {
        None
    } else {
        Some(path.subrange(last_of(path, '/') + 1, path.len() as int))
    }
}

/// What follows the last dot of the last component, where it has one.
pub open spec fn final_extension(path: Seq<char>) -> Option<Seq<char>> {
    match final_component(path) {
        None => None,
        Some(name) => if last_of(name, '.') < 0 {
            None
        } else {
            Some(name.subrange(last_of(name, '.') + 1, name.len() as int))
        },
    }
}

/// Whether `path` lies inside `directory`: it continues `directory` with a separator. Everything
/// lies inside the empty directory, and nothing inside itself.
pub open spec fn lies_in(path: Seq<char>, directory: Seq<char>) -> bool {
    directory.len() == 0 || {
        &&& directory.len() < path.len()
        &&& path.subrange(0, directory.len() as int) == directory
        &&& path[directory.len() as int] == '/'
    }
}

/// The view of an optional borrowed string.
pub open spec fn viewed(s: Option<&str>) -> Option<Seq<char>> {
    match s {
        Some(s) => Some(s@),
        None => None,
    }
}

impl View for NormalizedPath {
    type V = Seq<char>;

    closed spec fn view(&self) -> Seq<char> {
        self.0@
    }
}

/// Folds one character.
fn fold(c: char) -> (r: char)
    ensures
        r == folded(c),
{
    if c == '\\' {
        '/'
    } else if 'A' <= c && c <= 'Z' {
        (c as u8 + 32) as char
    } else {
        c
    }
}

/// The index just past the last `c`, or zero where there is none.
fn past_last(s: &Vec<char>, c: char) -> (r: usize)
    ensures
        r == last_of(s@, c) + 1,
        r <= s@.len(),
{
    let mut end: usize = s.len();
    assert(s@.take(end as int) =~= s@);
    while end > 0
        invariant
            end <= s@.len(),
            last_of(s@, c) == last_of(s@.take(end as int), c),
        decreases end,
    {
        proof {
            assert(s@.take(end as int).last() == s@[end - 1]);
            assert(s@.take(end as int).drop_last() =~= s@.take(end - 1));
        }
        if s[end - 1] == c {
            return end;
        }
        end = end - 1;
    }
    0
}

impl NormalizedPath {
    /// Folds `raw` into normalized form.
    pub fn new(raw: &str) -> (r: NormalizedPath)
        ensures
            r@ == normalized(raw@),
            is_normal(r@),
    {
        let source: Vec<char> = chars(raw);
        let mut out: Vec<char> = Vec::new();
        let mut i: usize = 0;
        while i < source.len()
            invariant
                i <= source@.len(),
                out@ == normalized(source@.take(i as int)),
            decreases source@.len() - i,
        {
            let c: char = fold(source[i]);
            proof {
                assert(source@.take(i + 1).drop_last() =~= source@.take(i as int));
                assert(source@.take(i + 1).last() == source@[i as int]);
            }
            if c == '/' && (out.len() == 0 || out[out.len() - 1] == '/') {
            } else {
                out.push(c);
            }
            i = i + 1;
        }
        assert(source@.take(i as int) =~= raw@);
        proof {
            lemma_normalized_is_normal(raw@);
        }
        NormalizedPath(string_of(out.as_slice()))
    }

    /// Wraps a string that is already in normalized form.
    pub fn from_normalized(normal: &str) -> (r: NormalizedPath)
        requires
            is_normal(normal@),
        ensures
            r@ == normal@,
            r@ == normalized(normal@),
    {
        proof {
            law_normal_paths_stay(normal@);
        }
        NormalizedPath(normal.to_owned())
    }

    /// The normalized form.
    pub fn as_str(&self) -> (r: &str)
        ensures
            r@ == self@,
    {
        self.0.as_str()
    }

    /// The final path component.
    pub fn file_name(&self) -> (r: Option<&str>)
        ensures
            viewed(r) == final_component(self@),
    {
        let all: Vec<char> = chars(self.0.as_str());
        if all.len() == 0 {
            return None;
        }
        let start: usize = past_last(&all, '/');
        Some(self.0.as_str().substring_char(start, all.len()))
    }

    /// The extension without its dot, if the final component has one.
    pub fn extension(&self) -> (r: Option<&str>)
        ensures
            viewed(r) == final_extension(self@),
    {
        match self.file_name() {
            None => None,
            Some(name) => {
                let all: Vec<char> = chars(name);
                let start: usize = past_last(&all, '.');
                if start == 0 {
                    None
                } else {
                    Some(name.substring_char(start, all.len()))
                }
            },
        }
    }

    /// Whether this path is inside `directory`.
    pub fn starts_with_directory(&self, directory: &NormalizedPath) -> (r: bool)
        ensures
            r == lies_in(self@, directory@),
    {
        let path: Vec<char> = chars(self.0.as_str());
        let prefix: Vec<char> = chars(directory.0.as_str());
        if prefix.len() == 0 {
            return true;
        }
        if prefix.len() >= path.len() {
            return false;
        }
        let mut i: usize = 0;
        while i < prefix.len()
            invariant
                i <= prefix@.len() < path@.len(),
                path@ == self@,
                prefix@ == directory@,
                prefix@.len() > 0,
                forall|k: int| 0 <= k < i ==> path@[k] == prefix@[k],
            decreases prefix@.len() - i,
        {
            if path[i] != prefix[i] {
                assert(path@.subrange(0, prefix@.len() as int)[i as int] != prefix@[i as int]);
                return false;
            }
            i = i + 1;
        }
        assert(path@.subrange(0, prefix@.len() as int) =~= prefix@);
        path[prefix.len()] == '/'
    }

    /// Whether two paths are the same.
    pub fn is_same(&self, other: &NormalizedPath) -> (r: bool)
        ensures
            r == (self@ == other@),
    {
        same(self.0.as_str(), other.0.as_str())
    }
}

/// Folding twice folds no further.
pub proof fn lemma_folded_twice(c: char)
    ensures
        folded(folded(c)) == folded(c),
{
}

/// What normalizing gives is in normalized form.
pub proof fn lemma_normalized_is_normal(raw: Seq<char>)
    ensures
        is_normal(normalized(raw)),
    decreases raw.len(),
{
    if raw.len() > 0 {
        let before = normalized(raw.drop_last());
        lemma_normalized_is_normal(raw.drop_last());
        let c = folded(raw.last());
        lemma_folded_twice(raw.last());
        let after = normalized(raw);
        if after != before {
            assert forall|i: int| 0 <= i < after.len() implies folded(#[trigger] after[i])
                == after[i] by {
                if i < before.len() {
                    assert(after[i] == before[i]);
                }
            }
            assert forall|i: int| 0 < i < after.len() && #[trigger] after[i] == '/' implies after[i
                - 1] != '/' by {
                if i < before.len() {
                    assert(after[i] == before[i] && after[i - 1] == before[i - 1]);
                }
            }
        }
    }
}

/// **A path in normalized form normalizes to itself.**
pub proof fn law_normal_paths_stay(path: Seq<char>)
    requires
        is_normal(path),
    ensures
        normalized(path) == path,
    decreases path.len(),
{
    if path.len() > 0 {
        let before = path.drop_last();
        assert forall|i: int| 0 < i < before.len() && #[trigger] before[i] == '/' implies before[i
            - 1] != '/' by {
            assert(path[i] == before[i] && path[i - 1] == before[i - 1]);
        }
        assert forall|i: int| 0 <= i < before.len() implies folded(#[trigger] before[i])
            == before[i] by {
            assert(path[i] == before[i]);
        }
        law_normal_paths_stay(before);
        let last = path.len() - 1;
        assert(folded(path[last]) == path[last]);
        if last > 0 && path[last] == '/' {
            assert(before.last() == path[last - 1]);
        }
        assert(normalized(path) =~= path);
    }
}

/// **Normalizing is idempotent**: a normalized path normalizes to itself.
pub proof fn law_normalizing_is_idempotent(raw: Seq<char>)
    ensures
        normalized(normalized(raw)) == normalized(raw),
{
    lemma_normalized_is_normal(raw);
    law_normal_paths_stay(normalized(raw));
}

/// **Case and separator do not matter**: two spellings that fold to the same characters are the
/// same path.
pub proof fn law_spelling_does_not_matter(a: Seq<char>, b: Seq<char>)
    requires
        a.len() == b.len(),
        forall|i: int| 0 <= i < a.len() ==> folded(#[trigger] a[i]) == folded(b[i]),
    ensures
        normalized(a) == normalized(b),
    decreases a.len(),
{
    if a.len() > 0 {
        let (x, y) = (a.drop_last(), b.drop_last());
        assert forall|i: int| 0 <= i < x.len() implies folded(#[trigger] x[i]) == folded(y[i]) by {
            assert(x[i] == a[i] && y[i] == b[i]);
        }
        law_spelling_does_not_matter(x, y);
        assert(folded(a[a.len() - 1]) == folded(b[a.len() - 1]));
    }
}

/// Normalizing a path continues from wherever normalizing its start left off.
proof fn lemma_normalized_continues(a: Seq<char>, b: Seq<char>, rest: Seq<char>)
    requires
        normalized(a) == normalized(b),
    ensures
        normalized(a + rest) == normalized(b + rest),
    decreases rest.len(),
{
    if rest.len() == 0 {
        assert(a + rest =~= a);
        assert(b + rest =~= b);
    } else {
        lemma_normalized_continues(a, b, rest.drop_last());
        assert((a + rest).drop_last() =~= a + rest.drop_last());
        assert((b + rest).drop_last() =~= b + rest.drop_last());
        assert((a + rest).last() == rest.last());
        assert((b + rest).last() == rest.last());
    }
}

/// **A leading separator makes no difference.**
pub proof fn law_leading_separator_is_dropped(raw: Seq<char>, separator: char)
    requires
        folded(separator) == '/',
    ensures
        normalized(seq![separator] + raw) == normalized(raw),
{
    let empty = Seq::<char>::empty();
    reveal_with_fuel(normalized, 2);
    assert(seq![separator].drop_last() =~= empty);
    assert(normalized(seq![separator]) == normalized(empty));
    lemma_normalized_continues(seq![separator], empty, raw);
    assert(empty + raw =~= raw);
}

/// **A repeated separator makes no difference**, wherever in a path it stands.
pub proof fn law_repeated_separator_collapses(
    start: Seq<char>,
    one: char,
    two: char,
    rest: Seq<char>,
)
    requires
        folded(one) == '/',
        folded(two) == '/',
    ensures
        normalized(start.push(one).push(two) + rest) == normalized(start.push(one) + rest),
{
    let single = start.push(one);
    let double = single.push(two);
    assert(single.drop_last() =~= start);
    assert(double.drop_last() =~= single);
    assert(normalized(double) == normalized(single));
    lemma_normalized_continues(double, single, rest);
}

} // verus!
