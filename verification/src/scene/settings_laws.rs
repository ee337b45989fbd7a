//! What holds of every settings file: how its lines are told apart, and what of them does not matter.

use super::ini::{
    after_line, after_text, first_of, is_blank, lemma_first_is, line_of, lowered, parsed, trim_end,
    trim_start, trimmed, value_of, IniModel,
};
use vstd::prelude::*;

verus! {

/// White space at the end is cut off, whatever precedes it.
proof fn lemma_trim_end_push(s: Seq<char>, c: char)
    requires
        is_blank(c),
    ensures
        trim_end(s.push(c)) == trim_end(s),
{
    assert(s.push(c).drop_last() =~= s);
}

/// White space at the end does not change what is cut off at the start.
proof fn lemma_trimmed_push(s: Seq<char>, c: char)
    requires
        is_blank(c),
    ensures
        trimmed(s.push(c)) == trimmed(s),
    decreases s.len(),
{
    if s.len() == 0 {
        reveal_with_fuel(trim_start, 2);
        reveal_with_fuel(trim_end, 2);
        assert(s.push(c).skip(1) =~= s);
    } else if is_blank(s[0]) {
        assert(s.push(c).skip(1) =~= s.skip(1).push(c));
        assert(s.push(c)[0] == s[0]);
        lemma_trimmed_push(s.skip(1), c);
    } else {
        assert(s.push(c)[0] == s[0]);
        lemma_trim_end_push(s, c);
    }
}

/// **White space around a line does not matter.**
pub proof fn law_white_space_around_a_line_does_not_matter(line: Seq<char>, c: char)
    requires
        is_blank(c),
    ensures
        line_of(line.push(c)) == line_of(line),
        line_of(seq![c] + line) == line_of(line),
{
    lemma_trimmed_push(line, c);
    let longer = seq![c] + line;
    assert(longer[0] == c);
    assert(longer.skip(1) =~= line);
    assert(trim_start(longer) == trim_start(line));
}

/// **Trimming cuts off white space alone**: what is left neither begins nor ends with any, and is a
/// stretch of what was there.
pub proof fn law_trimming_cuts_off_white_space_alone(s: Seq<char>) -> (r: (int, int))
    ensures
        0 <= r.0 <= r.1 <= s.len(),
        trimmed(s) == s.subrange(r.0, r.1),
        forall|i: int| 0 <= i < r.0 || r.1 <= i < s.len() ==> is_blank(#[trigger] s[i]),
        r.0 < r.1 ==> !is_blank(s[r.0]) && !is_blank(s[r.1 - 1]),
{
    let from = lemma_trim_start(s);
    let rest = s.skip(from);
    let to = lemma_trim_end(rest);
    assert(trimmed(s) =~= s.subrange(from, from + to));
    assert forall|i: int| 0 <= i < from || from + to <= i < s.len() implies is_blank(
        #[trigger] s[i],
    ) by {
        if i >= from {
            assert(rest[i - from] == s[i]);
        }
    }
    if to > 0 {
        assert(rest[0] == s[from]);
        assert(rest[to - 1] == s[from + to - 1]);
    }
    (from, from + to)
}

/// Where trimming the start of a text stops.
proof fn lemma_trim_start(s: Seq<char>) -> (from: int)
    ensures
        0 <= from <= s.len(),
        trim_start(s) == s.skip(from),
        forall|i: int| 0 <= i < from ==> is_blank(#[trigger] s[i]),
        from < s.len() ==> !is_blank(s[from]),
    decreases s.len(),
{
    if s.len() > 0 && is_blank(s[0]) {
        let rest = s.skip(1);
        let from = lemma_trim_start(rest);
        assert(rest.skip(from) =~= s.skip(from + 1));
        assert forall|i: int| 0 <= i < from + 1 implies is_blank(#[trigger] s[i]) by {
            if i > 0 {
                assert(rest[i - 1] == s[i]);
            }
        }
        if from < rest.len() {
            assert(rest[from] == s[from + 1]);
        }
        from + 1
    } else {
        assert(s.skip(0) =~= s);
        0
    }
}

/// Where trimming the end of a text stops.
proof fn lemma_trim_end(s: Seq<char>) -> (to: int)
    ensures
        0 <= to <= s.len(),
        trim_end(s) == s.take(to),
        forall|i: int| to <= i < s.len() ==> is_blank(#[trigger] s[i]),
        to > 0 ==> !is_blank(s[to - 1]),
    decreases s.len(),
{
    if s.len() > 0 && is_blank(s.last()) {
        let rest = s.drop_last();
        let to = lemma_trim_end(rest);
        assert(rest.take(to) =~= s.take(to));
        assert forall|i: int| to <= i < s.len() implies is_blank(#[trigger] s[i]) by {
            if i < rest.len() {
                assert(rest[i] == s[i]);
            }
        }
        to
    } else {
        assert(s.take(s.len() as int) =~= s);
        s.len() as int
    }
}

/// **A comment says nothing, and neither does a line without an equals sign that is no section.**
pub proof fn law_a_comment_says_nothing(ini: IniModel, section: Seq<char>, rest: Seq<char>)
    ensures
        after_line((ini, section), seq![';'] + rest) == (ini, section),
        after_line((ini, section), Seq::empty()) == (ini, section),
        rest.len() > 0 && !is_blank(rest[0]) && !is_blank(rest.last()) && rest[0] != '['
            && !rest.contains('=') ==> after_line((ini, section), rest) == (ini, section),
{
    let comment = seq![';'] + rest;
    assert(comment[0] == ';');
    assert(!is_blank(';'));
    let _ = lemma_trim_start(comment);
    assert(trim_start(comment) == comment);
    let to = lemma_trim_end(comment);
    assert(to > 0);
    assert(trimmed(comment)[0] == ';');
    assert(trimmed(Seq::<char>::empty()) == Seq::<char>::empty());
    if rest.len() > 0 && !is_blank(rest[0]) && !is_blank(rest.last()) && !rest.contains('=') {
        assert(trimmed(rest) == rest);
        super::ini::lemma_first_of(rest, '=');
        if first_of(rest, '=') < rest.len() {
            assert(rest.contains(rest[first_of(rest, '=')]));
        }
    }
}

/// **A file is read line by line**: what a line leaves is what the next one starts from.
pub proof fn law_a_file_is_read_line_by_line(
    state: (IniModel, Seq<char>),
    line: Seq<char>,
    rest: Seq<char>,
)
    requires
        !line.contains('\n'),
    ensures
        after_text(state, line + seq!['\n'] + rest) == after_text(after_line(state, line), rest),
        line.len() > 0 ==> after_text(state, line) == after_line(state, line),
        after_text(state, Seq::empty()) == state,
{
    let whole = line + seq!['\n'] + rest;
    assert(whole[line.len() as int] == '\n');
    assert forall|k: int| 0 <= k < line.len() implies line[k] != '\n' by {
        assert(line.contains(line[k]));
    }
    assert forall|k: int| 0 <= k < line.len() implies whole[k] != '\n' by {
        assert(whole[k] == line[k]);
        assert(line.contains(line[k]));
    }
    lemma_first_is(whole, '\n', line.len() as int);
    assert(whole.take(line.len() as int) =~= line);
    assert(whole.skip(line.len() + 1int) =~= rest);
    lemma_first_is(line, '\n', line.len() as int);
    assert(line.take(line.len() as int) =~= line);
}

/// **A file begins outside every section, with nothing set.**
pub proof fn law_a_file_begins_with_nothing(text: Seq<char>, section: Seq<char>, key: Seq<char>)
    ensures
        parsed(Seq::empty()).settings.len() == 0,
        parsed(Seq::empty()).sections.len() == 0,
        value_of(parsed(Seq::empty()).settings, section, key) is None,
        parsed(text) == after_text(
            (IniModel { sections: Seq::empty(), settings: Seq::empty() }, Seq::empty()),
            text,
        ).0,
{
}

/// **ASCII capitals are made small one by one, and nothing else changes.**
pub proof fn law_only_ascii_capitals_are_made_small(s: Seq<char>, i: int)
    requires
        0 <= i < s.len(),
    ensures
        lowered(s).len() == s.len(),
        'A' <= s[i] <= 'Z' ==> lowered(s)[i] as u32 == s[i] as u32 + 32,
        !('A' <= s[i] <= 'Z') ==> lowered(s)[i] == s[i],
{
}

/// **White space is what Unicode says it is.**
pub proof fn law_white_space_is_white(c: char)
    ensures
        is_blank(c) <==> {
            let u = c as u32;
            ||| u == 0x09 || u == 0x0A || u == 0x0B || u == 0x0C || u == 0x0D || u == 0x20
            ||| u == 0x85 || u == 0xA0 || u == 0x1680
            ||| 0x2000 <= u <= 0x200A
            ||| u == 0x2028 || u == 0x2029 || u == 0x202F || u == 0x205F || u == 0x3000
        },
{
}

} // verus!
