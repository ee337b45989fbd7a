//! The game's ini file, which is where it keeps everything the content files do not.

use crate::vfs::sorted_names::strictly_in_order;
use crate::text::{
    before, chars, lemma_before_is_total, lemma_before_is_transitive, precedes, same, string_of,
};
use vstd::prelude::*;
use vstd::string::StrSliceExecFns;

verus! {

/// One parsed ini file.
///
/// Values are kept as they were written. Nothing here knows whether a line is a colour, a count or
/// a duration, so the reader that wants one says which.
#[derive(Debug)]
pub struct Ini {
    sections: Vec<String>,
    settings: Vec<Setting>,
}

/// One line that sets a key.
#[derive(Debug)]
pub struct Setting {
    section: String,
    key: String,
    value: String,
}

/// What a [`Setting`] says.
#[verifier::ext_equal]
pub struct SettingModel {
    pub section: Seq<char>,
    pub key: Seq<char>,
    pub value: Seq<char>,
}

/// What an [`Ini`] is: its sections as they first appear, and every line that sets a key, in order.
#[verifier::ext_equal]
pub struct IniModel {
    pub sections: Seq<Seq<char>>,
    pub settings: Seq<SettingModel>,
}

impl View for Setting {
    type V = SettingModel;

    closed spec fn view(&self) -> SettingModel {
        SettingModel { section: self.section@, key: self.key@, value: self.value@ }
    }
}

impl View for Ini {
    type V = IniModel;

    closed spec fn view(&self) -> IniModel {
        IniModel {
            sections: Seq::new(self.sections@.len(), |i: int| self.sections@[i]@),
            settings: Seq::new(self.settings@.len(), |i: int| self.settings@[i]@),
        }
    }
}

/// Whether a character is white space.
pub open spec fn is_blank(c: char) -> bool {
    let u = c as u32;
    ||| 0x09 <= u <= 0x0D
    ||| u == 0x20
    ||| u == 0x85
    ||| u == 0xA0
    ||| u == 0x1680
    ||| 0x2000 <= u <= 0x200A
    ||| 0x2028 <= u <= 0x2029
    ||| u == 0x202F
    ||| u == 0x205F
    ||| u == 0x3000
}

/// Text without the white space at its end.
pub open spec fn trim_end(s: Seq<char>) -> Seq<char>
    decreases s.len(),
{
    if s.len() > 0 && is_blank(s.last()) {
        trim_end(s.drop_last())
    } else {
        s
    }
}

/// Text without the white space at its start.
pub open spec fn trim_start(s: Seq<char>) -> Seq<char>
    decreases s.len(),
{
    if s.len() > 0 && is_blank(s[0]) {
        trim_start(s.skip(1))
    } else {
        s
    }
}

/// Text without the white space around it.
pub open spec fn trimmed(s: Seq<char>) -> Seq<char> {
    trim_end(trim_start(s))
}

/// The index of the first `c` in `s`, or the length where there is none.
pub open spec fn first_of(s: Seq<char>, c: char) -> int
    decreases s.len(),
{
    if s.len() == 0 {
        0
    } else if s[0] == c {
        0
    } else {
        1 + first_of(s.skip(1), c)
    }
}

/// One ASCII capital as its small letter, and any other character as it is.
pub open spec fn small(c: char) -> char {
    if 'A' <= c <= 'Z' {
        (c as u32 + 32) as char
    } else {
        c
    }
}

/// Text with its ASCII capitals made small.
pub open spec fn lowered(s: Seq<char>) -> Seq<char> {
    s.map_values(|c: char| small(c))
}

/// What one line is.
pub enum Line {
    /// Neither of the others: blank, a comment, or a stray word.
    Nothing,
    /// The start of a section.
    Section(Seq<char>),
    /// A key and its value.
    Pair(Seq<char>, Seq<char>),
}

/// What one line says: a name in square brackets starts a section, and anything else with an equals
/// sign in it sets a key, unless it is a comment.
pub open spec fn line_of(raw: Seq<char>) -> Line {
    let line = trimmed(raw);
    if line.len() == 0 || line[0] == ';' {
        Line::Nothing
    } else if line.len() >= 2 && line[0] == '[' && line.last() == ']' {
        Line::Section(lowered(line.subrange(1, line.len() - 1)))
    } else if first_of(line, '=') < line.len() {
        let at = first_of(line, '=');
        Line::Pair(
            lowered(trimmed(line.take(at))),
            trimmed(line.skip(at + 1)),
        )
    } else {
        Line::Nothing
    }
}

/// Sections with one more among them, where it is new.
pub open spec fn with_section(sections: Seq<Seq<char>>, name: Seq<char>) -> Seq<Seq<char>> {
    if sections.contains(name) {
        sections
    } else {
        sections.push(name)
    }
}

/// An ini and the section its next line belongs to, after one more line.
pub open spec fn after_line(state: (IniModel, Seq<char>), raw: Seq<char>) -> (IniModel, Seq<char>) {
    let (ini, current) = state;
    match line_of(raw) {
        Line::Nothing => state,
        Line::Section(name) => (
            IniModel { sections: with_section(ini.sections, name), settings: ini.settings },
            name,
        ),
        Line::Pair(key, value) => (
            IniModel {
                sections: with_section(ini.sections, current),
                settings: ini.settings.push(SettingModel { section: current, key, value }),
            },
            current,
        ),
    }
}

/// An ini after every line of `text`, starting from `state`.
pub open spec fn after_text(state: (IniModel, Seq<char>), text: Seq<char>) -> (IniModel, Seq<char>)
    decreases text.len(),
    via after_text_shrinks
{
    if text.len() == 0 {
        state
    } else {
        let end = first_of(text, '\n');
        let next = after_line(state, text.take(end));
        if end < text.len() {
            after_text(next, text.skip(end + 1))
        } else {
            next
        }
    }
}

#[via_fn]
proof fn after_text_shrinks(state: (IniModel, Seq<char>), text: Seq<char>) {
    lemma_first_of(text, '\n');
}

/// An ini with nothing in it.
pub open spec fn empty_ini() -> IniModel {
    IniModel { sections: Seq::empty(), settings: Seq::empty() }
}

/// What a whole file parses to.
pub open spec fn parsed(text: Seq<char>) -> IniModel {
    after_text((empty_ini(), Seq::empty()), text).0
}

/// Whether a setting is of `key` in `section`.
pub open spec fn sets(setting: SettingModel, section: Seq<char>, key: Seq<char>) -> bool {
    setting.section == section && setting.key == key
}

/// The value `key` has in `section`: what the last line to set it set it to.
pub open spec fn value_of(
    settings: Seq<SettingModel>,
    section: Seq<char>,
    key: Seq<char>,
) -> Option<Seq<char>>
    decreases settings.len(),
{
    if settings.len() == 0 {
        None
    } else if sets(settings.last(), section, key) {
        Some(settings.last().value)
    } else {
        value_of(settings.drop_last(), section, key)
    }
}

/// The first `c` in a text comes before nothing else that is one.
pub proof fn lemma_first_of(s: Seq<char>, c: char)
    ensures
        0 <= first_of(s, c) <= s.len(),
        first_of(s, c) < s.len() ==> s[first_of(s, c)] == c,
        forall|k: int| 0 <= k < first_of(s, c) ==> s[k] != c,
    decreases s.len(),
{
    if s.len() > 0 && s[0] != c {
        lemma_first_of(s.skip(1), c);
        assert forall|k: int| 0 <= k < first_of(s, c) implies s[k] != c by {
            if k > 0 {
                assert(s.skip(1)[k - 1] == s[k]);
            }
        }
    }
}

/// What comes before nothing else that is a `c` is the first.
pub proof fn lemma_first_is(s: Seq<char>, c: char, at: int)
    requires
        0 <= at <= s.len(),
        at < s.len() ==> s[at] == c,
        forall|k: int| 0 <= k < at ==> s[k] != c,
    ensures
        first_of(s, c) == at,
{
    lemma_first_of(s, c);
    let f = first_of(s, c);
    if f < at {
        assert(s[f] != c);
    } else if at < f {
        assert(s[at] != c);
    }
}

/// Whether a character is white space.
fn blank(c: char) -> (r: bool)
    ensures
        r == is_blank(c),
{
    let u: u32 = c as u32;
    (0x09 <= u && u <= 0x0D) || u == 0x20 || u == 0x85 || u == 0xA0 || u == 0x1680 || (0x2000 <= u
        && u <= 0x200A) || (0x2028 <= u && u <= 0x2029) || u == 0x202F || u == 0x205F || u
        == 0x3000
}

/// One ASCII capital as its small letter.
pub fn to_small(c: char) -> (r: char)
    ensures
        r == small(c),
{
    if 'A' <= c && c <= 'Z' {
        (c as u8 + 32) as char
    } else {
        c
    }
}

/// The part of some text that is left without the white space around it.
pub(crate) fn trim(text: &Vec<char>, from: usize, to: usize) -> (r: (usize, usize))
    requires
        from <= to <= text@.len(),
    ensures
        from <= r.0 <= r.1 <= to,
        text@.subrange(r.0 as int, r.1 as int) == trimmed(text@.subrange(from as int, to as int)),
{
    let mut start: usize = from;
    while start < to && blank(text[start])
        invariant
            from <= start <= to <= text@.len(),
            trim_start(text@.subrange(from as int, to as int)) == trim_start(
                text@.subrange(start as int, to as int),
            ),
        decreases to - start,
    {
        assert(text@.subrange(start as int, to as int).skip(1) =~= text@.subrange(
            start + 1,
            to as int,
        ));
        start = start + 1;
    }
    assert(trim_start(text@.subrange(start as int, to as int)) == text@.subrange(
        start as int,
        to as int,
    ));
    let mut end: usize = to;
    while end > start && blank(text[end - 1])
        invariant
            start <= end <= to <= text@.len(),
            trim_end(text@.subrange(start as int, to as int)) == trim_end(
                text@.subrange(start as int, end as int),
            ),
        decreases end,
    {
        assert(text@.subrange(start as int, end as int).drop_last() =~= text@.subrange(
            start as int,
            end - 1,
        ));
        end = end - 1;
    }
    (start, end)
}

/// The first `c` in a part of some text, or its end.
fn find(text: &Vec<char>, from: usize, to: usize, c: char) -> (r: usize)
    requires
        from <= to <= text@.len(),
    ensures
        from <= r <= to,
        r - from == first_of(text@.subrange(from as int, to as int), c),
{
    let ghost part = text@.subrange(from as int, to as int);
    let mut i: usize = from;
    while i < to && text[i] != c
        invariant
            from <= i <= to <= text@.len(),
            part == text@.subrange(from as int, to as int),
            forall|k: int| 0 <= k < i - from ==> part[k] != c,
        decreases to - i,
    {
        i = i + 1;
    }
    proof {
        lemma_first_is(part, c, i - from);
    }
    i
}

/// A part of some text as a string of its own.
fn cut(text: &Vec<char>, from: usize, to: usize) -> (r: String)
    requires
        from <= to <= text@.len(),
    ensures
        r@ == text@.subrange(from as int, to as int),
{
    string_of(vstd::slice::slice_subrange(text.as_slice(), from, to))
}

/// A part of some text, its ASCII capitals made small.
pub(crate) fn cut_lowered(text: &Vec<char>, from: usize, to: usize) -> (r: String)
    requires
        from <= to <= text@.len(),
    ensures
        r@ == lowered(text@.subrange(from as int, to as int)),
{
    let ghost part = text@.subrange(from as int, to as int);
    let mut r: String = String::new();
    let mut i: usize = from;
    while i < to
        invariant
            from <= i <= to <= text@.len(),
            part == text@.subrange(from as int, to as int),
            r@ == lowered(part).take(i - from),
        decreases to - i,
    {
        r.push(to_small(text[i]));
        i = i + 1;
        assert(r@ =~= lowered(part).take(i - from));
    }
    assert(r@ =~= lowered(part));
    r
}

/// A string with its ASCII capitals made small.
pub fn to_lowered(s: &str) -> (r: String)
    ensures
        r@ == lowered(s@),
{
    let all: Vec<char> = chars(s);
    let r: String = cut_lowered(&all, 0, all.len());
    assert(all@.subrange(0, all@.len() as int) =~= s@);
    r
}

/// What one line says.
enum Read {
    Nothing,
    Section(String),
    Pair(String, String),
}

/// Reads one line.
fn read_line(text: &Vec<char>, from: usize, to: usize) -> (r: Read)
    requires
        from <= to <= text@.len(),
    ensures
        match r {
            Read::Nothing => line_of(text@.subrange(from as int, to as int)) == Line::Nothing,
            Read::Section(name) => line_of(text@.subrange(from as int, to as int))
                == Line::Section(name@),
            Read::Pair(key, value) => line_of(text@.subrange(from as int, to as int))
                == Line::Pair(key@, value@),
        },
{
    let (start, end): (usize, usize) = trim(text, from, to);
    let ghost line = trimmed(text@.subrange(from as int, to as int));
    assert(line == text@.subrange(start as int, end as int));
    if start == end || text[start] == ';' {
        return Read::Nothing;
    }
    if end - start >= 2 && text[start] == '[' && text[end - 1] == ']' {
        assert(line.subrange(1, line.len() - 1) =~= text@.subrange(start + 1, end - 1));
        return Read::Section(cut_lowered(text, start + 1, end - 1));
    }
    let at: usize = find(text, start, end, '=');
    if at == end {
        return Read::Nothing;
    }
    let (key_from, key_to): (usize, usize) = trim(text, start, at);
    let (value_from, value_to): (usize, usize) = trim(text, at + 1, end);
    assert(line.take(at - start) =~= text@.subrange(start as int, at as int));
    assert(line.skip(at - start + 1) =~= text@.subrange(at + 1, end as int));
    Read::Pair(cut_lowered(text, key_from, key_to), cut(text, value_from, value_to))
}

/// Whether `name` is among some names.
fn holds(names: &Vec<String>, name: &str) -> (r: bool)
    ensures
        r == spelled(names@).contains(name@),
{
    let mut i: usize = 0;
    while i < names.len()
        invariant
            i <= names@.len(),
            forall|k: int| 0 <= k < i ==> #[trigger] names@[k]@ != name@,
        decreases names@.len() - i,
    {
        if same(names[i].as_str(), name) {
            assert(spelled(names@)[i as int] == name@);
            return true;
        }
        i = i + 1;
    }
    assert forall|k: int| 0 <= k < names@.len() implies spelled(names@)[k] != name@ by {
        assert(names@[k]@ != name@);
    }
    false
}

/// What some strings spell.
pub open spec fn spelled(names: Seq<String>) -> Seq<Seq<char>> {
    Seq::new(names.len(), |i: int| names[i]@)
}

/// What some settings say.
pub open spec fn said(settings: Seq<Setting>) -> Seq<SettingModel> {
    Seq::new(settings.len(), |i: int| settings[i]@)
}

impl Ini {
    /// No section is listed twice.
    pub open spec fn wf(&self) -> bool {
        self@.sections.no_duplicates()
    }

    /// Adds a section, where it is new.
    fn add_section(&mut self, name: &str)
        requires
            old(self).wf(),
        ensures
            final(self).wf(),
            final(self)@ == (IniModel {
                sections: with_section(old(self)@.sections, name@),
                settings: old(self)@.settings,
            }),
    {
        let ghost before_it = self@.sections;
        assert(spelled(self.sections@) =~= self@.sections);
        if !holds(&self.sections, name) {
            self.sections.push(name.to_owned());
            assert(self@.sections =~= before_it.push(name@));
        }
        assert(self@.settings =~= old(self)@.settings);
    }

    /// Parses the file's text.
    ///
    /// Nothing here fails. A section the game does not know is skipped, a key it does not know is
    /// ignored, and a line that is neither is neither; a reader that wants a value it cannot find
    /// says so at that point, where it knows what the value was for.
    pub fn parse(text: &str) -> (r: Ini)
        ensures
            r.wf(),
            r@ == parsed(text@),
    {
        let all: Vec<char> = chars(text);
        let mut ini: Ini = Ini { sections: Vec::new(), settings: Vec::new() };
        let mut current: String = String::new();
        let mut at: usize = 0;
        let ghost whole = after_text((empty_ini(), Seq::empty()), text@);
        assert(ini@ =~= empty_ini());
        assert(current@ =~= Seq::<char>::empty());
        assert(all@.skip(0) =~= text@);
        while at < all.len()
            invariant
                at <= all@.len(),
                ini.wf(),
                whole == after_text((ini@, current@), all@.skip(at as int)),
            decreases all@.len() - at,
        {
            let end: usize = find(&all, at, all.len(), '\n');
            let ghost rest = all@.skip(at as int);
            let ghost state = (ini@, current@);
            assert(all@.subrange(at as int, all@.len() as int) =~= rest);
            assert(rest.take(end - at) =~= all@.subrange(at as int, end as int));
            let ghost raw = all@.subrange(at as int, end as int);
            match read_line(&all, at, end) {
                Read::Nothing => {},
                Read::Section(name) => {
                    ini.add_section(name.as_str());
                    current = name;
                },
                Read::Pair(key, value) => {
                    ini.add_section(current.as_str());
                    let ghost settings = ini@.settings;
                    let ghost sections = ini@.sections;
                    let section: String = current.clone();
                    ini.settings.push(Setting { section, key, value });
                    proof {
                        assert(ini@.sections =~= sections);
                        assert(ini@.settings =~= settings.push(
                            SettingModel { section: current@, key: key@, value: value@ },
                        ));
                    }
                },
            }
            assert((ini@, current@) == after_line(state, raw));
            if end == all.len() {
                assert(whole == (ini@, current@));
                assert(all@.skip(all@.len() as int) =~= Seq::<char>::empty());
                at = end;
            } else {
                assert(rest.skip(end - at + 1) =~= all@.skip(end + 1));
                at = end + 1;
            }
        }
        assert(all@.skip(at as int) =~= Seq::<char>::empty());
        ini
    }

    /// The raw value of `key` in `section`, matched without regard to case.
    pub fn get(&self, section: &str, key: &str) -> (r: Option<&str>)
        ensures
            match r {
                Some(value) => value_of(self@.settings, lowered(section@), lowered(key@))
                    == Some(value@),
                None => value_of(self@.settings, lowered(section@), lowered(key@)) is None,
            },
    {
        let wanted_section: String = to_lowered(section);
        let wanted_key: String = to_lowered(key);
        let ghost all = said(self.settings@);
        assert(all =~= self@.settings);
        let mut end: usize = self.settings.len();
        assert(all.take(end as int) =~= all);
        while end > 0
            invariant
                end <= self.settings@.len(),
                all == said(self.settings@),
                all == self@.settings,
                wanted_section@ == lowered(section@),
                wanted_key@ == lowered(key@),
                value_of(all, wanted_section@, wanted_key@) == value_of(
                    all.take(end as int),
                    wanted_section@,
                    wanted_key@,
                ),
            decreases end,
        {
            let setting: &Setting = &self.settings[end - 1];
            proof {
                assert(all.take(end as int).last() == setting@);
                assert(all.take(end as int).drop_last() =~= all.take(end - 1));
            }
            if same(setting.section.as_str(), wanted_section.as_str()) && same(
                setting.key.as_str(),
                wanted_key.as_str(),
            ) {
                return Some(setting.value.as_str());
            }
            end = end - 1;
        }
        None
    }

    /// Every section whose name begins with `prefix`, and the rest of that name, in order.
    ///
    /// What reads the weathers: nothing states the list.
    pub fn sections_under(&self, prefix: &str) -> (r: Vec<&str>)
        requires
            self.wf(),
        ensures
            strictly_in_order(borrowed(r@)),
            forall|rest: Seq<char>|
                #![trigger borrowed(r@).contains(rest)]
                borrowed(r@).contains(rest) <==> rest.len() > 0 && self@.sections.contains(
                    lowered(prefix@) + rest,
                ),
    {
        let prefix_chars: Vec<char> = chars(to_lowered(prefix).as_str());
        let ghost low = lowered(prefix@);
        let ghost names = spelled(self.sections@);
        assert(names =~= self@.sections);
        let mut r: Vec<&str> = Vec::new();
        let mut i: usize = 0;
        assert(borrowed(r@) =~= Seq::<Seq<char>>::empty());
        while i < self.sections.len()
            invariant
                self.wf(),
                i <= self.sections@.len(),
                low == lowered(prefix@),
                prefix_chars@ == low,
                names == spelled(self.sections@),
                names == self@.sections,
                strictly_in_order(borrowed(r@)),
                forall|rest: Seq<char>|
                    #![trigger borrowed(r@).contains(rest)]
                    borrowed(r@).contains(rest) <==> rest.len() > 0 && names.take(
                        i as int,
                    ).contains(low + rest),
            decreases self.sections@.len() - i,
        {
            let name: &str = self.sections[i].as_str();
            let all: Vec<char> = chars(name);
            let ghost found = borrowed(r@);
            assert(names[i as int] == name@);
            proof {
                assert(names.take(i + 1) =~= names.take(i as int).push(name@));
            }
            if begins(&all, &prefix_chars) && all.len() > prefix_chars.len() {
                let rest: &str = name.substring_char(prefix_chars.len(), all.len());
                proof {
                    assert(name@ =~= low + rest@);
                    if found.contains(rest@) {
                        let k = names.take(i as int).index_of(low + rest@);
                        assert(names[k] == names[i as int]);
                    }
                }
                let at: usize = place_of(&r, rest);
                r.insert(at, rest);
                proof {
                    let after = borrowed(r@);
                    assert(after =~= found.insert(at as int, rest@));
                    lemma_insert_contains(found, at as int, rest@);
                    assert forall|other: Seq<char>| #[trigger]
                        after.contains(other) <==> other.len() > 0 && names.take(
                        i + 1,
                    ).contains(low + other) by {
                        lemma_push_contains(names.take(i as int), name@, low + other);
                        if low + other == name@ {
                            assert((low + other).skip(low.len() as int) =~= other);
                            assert((low + rest@).skip(low.len() as int) =~= rest@);
                        }
                        assert(after.contains(other) <==> found.contains(other) || other == rest@);
                    }
                }
            } else {
                proof {
                    assert forall|other: Seq<char>| #[trigger]
                        found.contains(other) <==> other.len() > 0 && names.take(
                        i + 1,
                    ).contains(low + other) by {
                        lemma_push_contains(names.take(i as int), name@, low + other);
                        if other.len() > 0 && low + other == name@ {
                            assert(name@.take(low.len() as int) =~= low);
                        }
                    }
                }
            }
            i = i + 1;
        }
        assert(names.take(i as int) =~= names);
        r
    }

    /// The value of `key` read as a `R,G,B` colour, its bytes as they are written.
    ///
    /// A fourth component is accepted and dropped.
    pub fn colour(&self, section: &str, key: &str) -> (r: Option<[u8; 3]>)
        ensures
            r == colour_of(self@.settings, section@, key@),
    {
        match self.get(section, key) {
            None => None,
            Some(value) => {
                let all: Vec<char> = chars(value);
                let red: Option<u8> = channel(&all, 0);
                let green: Option<u8> = channel(&all, 1);
                let blue: Option<u8> = channel(&all, 2);
                match (red, green, blue) {
                    (Some(r), Some(g), Some(b)) => Some([r, g, b]),
                    _ => None,
                }
            },
        }
    }
}

impl Default for Ini {
    fn default() -> (r: Ini)
        ensures
            r@ == empty_ini(),
            r.wf(),
    {
        let r: Ini = Ini { sections: Vec::new(), settings: Vec::new() };
        assert(r@ =~= empty_ini());
        assert(spelled(r.sections@) =~= Seq::<Seq<char>>::empty());
        r
    }
}

/// What some borrowed strings spell.
pub open spec fn borrowed(names: Seq<&str>) -> Seq<Seq<char>> {
    Seq::new(names.len(), |i: int| names[i]@)
}

/// What putting an element in gives.
proof fn lemma_insert_contains(s: Seq<Seq<char>>, at: int, x: Seq<char>)
    requires
        0 <= at <= s.len(),
    ensures
        forall|y: Seq<char>| #[trigger] s.insert(at, x).contains(y) <==> s.contains(y) || y == x,
{
    let t = s.insert(at, x);
    assert forall|y: Seq<char>| #[trigger] t.contains(y) <==> s.contains(y) || y == x by {
        if t.contains(y) {
            let k = t.index_of(y);
            if k < at {
                assert(s[k] == y);
            } else if k > at {
                assert(s[k - 1] == y);
            }
        }
        if s.contains(y) {
            let k = s.index_of(y);
            if k < at {
                assert(t[k] == y);
            } else {
                assert(t[k + 1] == y);
            }
        }
        assert(t[at] == x);
    }
}

/// What adding an element at the end gives.
proof fn lemma_push_contains(s: Seq<Seq<char>>, x: Seq<char>, y: Seq<char>)
    ensures
        s.push(x).contains(y) <==> s.contains(y) || y == x,
{
    let t = s.push(x);
    if t.contains(y) {
        let k = t.index_of(y);
        if k < s.len() {
            assert(s[k] == y);
        }
    }
    if s.contains(y) {
        let k = s.index_of(y);
        assert(t[k] == y);
    }
    assert(t[s.len() as int] == x);
}

/// Whether `all` begins with `start`.
fn begins(all: &Vec<char>, start: &Vec<char>) -> (r: bool)
    ensures
        r == (start@.len() <= all@.len() && all@.take(start@.len() as int) == start@),
{
    if start.len() > all.len() {
        return false;
    }
    let mut i: usize = 0;
    while i < start.len()
        invariant
            i <= start@.len() <= all@.len(),
            forall|k: int| 0 <= k < i ==> all@[k] == start@[k],
        decreases start@.len() - i,
    {
        if all[i] != start[i] {
            assert(all@.take(start@.len() as int)[i as int] != start@[i as int]);
            return false;
        }
        i = i + 1;
    }
    assert(all@.take(start@.len() as int) =~= start@);
    true
}

/// Where a name that is not among others in order goes.
fn place_of(names: &Vec<&str>, name: &str) -> (at: usize)
    requires
        strictly_in_order(borrowed(names@)),
        !borrowed(names@).contains(name@),
    ensures
        at <= names@.len(),
        strictly_in_order(borrowed(names@).insert(at as int, name@)),
{
    let ghost t = borrowed(names@);
    let mut at: usize = 0;
    while at < names.len() && precedes(names[at], name)
        invariant
            at <= names@.len(),
            t == borrowed(names@),
            forall|k: int| 0 <= k < at ==> before(#[trigger] t[k], name@),
        decreases names@.len() - at,
    {
        assert(t[at as int] == names@[at as int]@);
        at = at + 1;
    }
    proof {
        let after = t.insert(at as int, name@);
        assert forall|k: int| at <= k < t.len() implies before(name@, #[trigger] t[k]) by {
            let next = t[at as int];
            assert(next == names@[at as int]@);
            assert(t.contains(next));
            lemma_before_is_total(next, name@);
            if k > at {
                lemma_before_is_transitive(name@, next, t[k]);
            }
        }
        assert forall|i: int, j: int| #![trigger after[i], after[j]]
            0 <= i < j < after.len() implies before(after[i], after[j]) by {
            if i < at {
                assert(after[i] == t[i]);
            } else if i > at {
                assert(after[i] == t[i - 1]);
            }
            if j < at {
                assert(after[j] == t[j]);
            } else if j > at {
                assert(after[j] == t[j - 1]);
            }
        }
    }
    at
}

/// The part of some text between its commas numbered `n`, where it has so many.
pub open spec fn field(s: Seq<char>, n: nat) -> Option<Seq<char>>
    decreases n,
{
    let at = first_of(s, ',');
    if n == 0 {
        Some(s.take(at))
    } else if at < s.len() {
        field(s.skip(at + 1), (n - 1) as nat)
    } else {
        None
    }
}

/// Whether text is decimal digits and nothing else.
pub open spec fn all_digits(s: Seq<char>) -> bool {
    forall|i: int| 0 <= i < s.len() ==> '0' <= #[trigger] s[i] <= '9'
}

/// The number some digits write.
pub open spec fn decimal(s: Seq<char>) -> int
    decreases s.len(),
{
    if s.len() == 0 {
        0
    } else {
        decimal(s.drop_last()) * 10 + (s.last() as int - '0' as int)
    }
}

/// Text without the plus sign a number may start with.
pub open spec fn unsigned(s: Seq<char>) -> Seq<char> {
    if s.len() > 0 && s[0] == '+' {
        s.skip(1)
    } else {
        s
    }
}

/// The byte some text writes, where it writes one.
pub open spec fn byte_of(s: Seq<char>) -> Option<u8> {
    let digits = unsigned(s);
    if digits.len() > 0 && all_digits(digits) && decimal(digits) <= 255 {
        Some(decimal(digits) as u8)
    } else {
        None
    }
}

/// One channel of a colour: the byte between two commas, white space around it ignored.
pub open spec fn channel_of(value: Seq<char>, n: nat) -> Option<u8> {
    match field(value, n) {
        None => None,
        Some(part) => byte_of(trimmed(part)),
    }
}

/// The colour a key is set to: three bytes between commas, whatever follows them dropped.
pub open spec fn colour_of(
    settings: Seq<SettingModel>,
    section: Seq<char>,
    key: Seq<char>,
) -> Option<[u8; 3]> {
    match value_of(settings, lowered(section), lowered(key)) {
        None => None,
        Some(value) => match (channel_of(value, 0), channel_of(value, 1), channel_of(value, 2)) {
            (Some(red), Some(green), Some(blue)) => Some([red, green, blue]),
            _ => None,
        },
    }
}

/// A longer number is never smaller.
proof fn lemma_decimal_grows(s: Seq<char>, n: int)
    requires
        0 <= n <= s.len(),
        all_digits(s),
    ensures
        0 <= decimal(s.take(n)) <= decimal(s),
    decreases s.len() - n,
{
    if n < s.len() {
        lemma_decimal_grows(s, n + 1);
        assert(s.take(n + 1).drop_last() =~= s.take(n));
        assert(s.take(n + 1).last() == s[n]);
    } else {
        assert(s.take(n) =~= s);
    }
    lemma_decimal_nonnegative(s.take(n));
}

/// Digits never write a negative number.
proof fn lemma_decimal_nonnegative(s: Seq<char>)
    requires
        all_digits(s),
    ensures
        0 <= decimal(s),
    decreases s.len(),
{
    if s.len() > 0 {
        assert(forall|i: int| 0 <= i < s.drop_last().len() ==> s.drop_last()[i] == s[i]);
        lemma_decimal_nonnegative(s.drop_last());
        assert(s.last() == s[s.len() - 1]);
    }
}

/// The byte part of some text writes.
fn byte_in(text: &Vec<char>, from: usize, to: usize) -> (r: Option<u8>)
    requires
        from <= to <= text@.len(),
    ensures
        r == byte_of(text@.subrange(from as int, to as int)),
{
    let ghost part = text@.subrange(from as int, to as int);
    let start: usize = if from < to && text[from] == '+' { from + 1 } else { from };
    let ghost digits = text@.subrange(start as int, to as int);
    assert(unsigned(part) =~= digits);
    if start == to {
        return None;
    }
    let mut value: u32 = 0;
    let mut i: usize = start;
    while i < to
        invariant
            start <= i <= to <= text@.len(),
            start < to,
            part == text@.subrange(from as int, to as int),
            digits == text@.subrange(start as int, to as int),
            unsigned(part) == digits,
            value <= 255,
            value == decimal(digits.take(i - start)),
            forall|k: int| 0 <= k < i - start ==> '0' <= #[trigger] digits[k] <= '9',
        decreases to - i,
    {
        let c: char = text[i];
        assert(digits[i - start] == c);
        if !('0' <= c && c <= '9') {
            return None;
        }
        proof {
            assert(digits.take(i - start + 1).drop_last() =~= digits.take(i - start));
            assert(digits.take(i - start + 1).last() == c);
        }
        value = value * 10 + (c as u32 - '0' as u32);
        if value > 255 {
            proof {
                if all_digits(digits) {
                    lemma_decimal_grows(digits, i - start + 1);
                }
            }
            return None;
        }
        i = i + 1;
    }
    assert(digits.take(to - start) =~= digits);
    Some(value as u8)
}

/// One channel of a colour.
fn channel(value: &Vec<char>, n: usize) -> (r: Option<u8>)
    ensures
        r == channel_of(value@, n as nat),
{
    let mut from: usize = 0;
    let mut left: usize = n;
    assert(value@.skip(0) =~= value@);
    while left > 0
        invariant
            from <= value@.len(),
            field(value@, n as nat) == field(value@.skip(from as int), left as nat),
        decreases left,
    {
        let at: usize = find(value, from, value.len(), ',');
        assert(value@.subrange(from as int, value@.len() as int) =~= value@.skip(from as int));
        if at == value.len() {
            return None;
        }
        assert(value@.skip(from as int).skip(at - from + 1) =~= value@.skip(at + 1));
        from = at + 1;
        left = left - 1;
    }
    let at: usize = find(value, from, value.len(), ',');
    assert(value@.subrange(from as int, value@.len() as int) =~= value@.skip(from as int));
    assert(value@.skip(from as int).take(at - from) =~= value@.subrange(from as int, at as int));
    let (start, end): (usize, usize) = trim(value, from, at);
    byte_in(value, start, end)
}

/// **A key is found however it was capitalised**: two spellings that differ only in ASCII case are
/// the same key.
pub proof fn law_case_does_not_matter(
    settings: Seq<SettingModel>,
    section: Seq<char>,
    other_section: Seq<char>,
    key: Seq<char>,
    other_key: Seq<char>,
)
    requires
        lowered(section) == lowered(other_section),
        lowered(key) == lowered(other_key),
    ensures
        value_of(settings, lowered(section), lowered(key)) == value_of(
            settings,
            lowered(other_section),
            lowered(other_key),
        ),
{
}

/// **The last line to set a key wins**, and setting one key leaves every other as it was.
pub proof fn law_the_last_setting_wins(
    settings: Seq<SettingModel>,
    setting: SettingModel,
    section: Seq<char>,
    key: Seq<char>,
)
    ensures
        value_of(settings.push(setting), section, key) == (if sets(setting, section, key) {
            Some(setting.value)
        } else {
            value_of(settings, section, key)
        }),
{
    assert(settings.push(setting).drop_last() =~= settings);
}

} // verus!
