//! What holds of every weather: how it is written down, when it changes over and what falls in it.

use super::bits::{greater, not_a_number, Bits};
use super::decimal::digits;
use super::ini::{
    after_line, all_digits, byte_of, channel_of, colour_of, decimal, field, first_of, is_blank,
    lemma_first_is, lemma_first_of, line_of, lowered, trimmed, value_of, IniModel, Line,
    SettingModel,
};
use super::precipitation::{source_of, Fall, Falling, Source};
use super::weather::{
    as_dds, colour_key, schedule_of, weather_of, Between, Crossover, Key, Schedule,
};
use vstd::prelude::*;

verus! {

/// Whether hours are numbers, each later than the one before.
pub open spec fn in_turn(c: Crossover) -> bool {
    &&& greater(c.sunrise, c.opens)
    &&& greater(c.day, c.sunrise)
    &&& greater(c.turns, c.day)
    &&& greater(c.sunset, c.turns)
    &&& greater(c.night, c.sunset)
}

/// Whether an hour is neither before the start of a window nor after its end.
pub open spec fn is_within(hour: Bits, start: Bits, end: Bits) -> bool {
    !greater(start, hour) && !greater(hour, end)
}

/// **An hour lies in the window it is said to cross**: one that is held is held as it is, and one
/// that is crossing lies between the hours it crosses over.
pub proof fn law_an_hour_lies_in_its_window(c: Crossover, hour: Bits)
    requires
        in_turn(c),
        !not_a_number(hour),
    ensures
        ({
            let between = c.at(hour);
            &&& is_within(hour, between.start, between.end)
            &&& between.from == between.to ==> between.start == hour && between.end == hour
        }),
{
}

/// **Each window leads from one time of day to the next**: night to sunrise ends at sunrise, sunrise
/// to day begins there; day to sunset ends at sunset, sunset to night begins there.
pub proof fn law_windows_meet_at_sunrise_and_sunset(c: Crossover, hour: Bits)
    requires
        in_turn(c),
        !not_a_number(hour),
    ensures
        ({
            let between = c.at(hour);
            &&& greater(c.opens, hour) ==> between.from == Key::Night && between.to == Key::Night
            &&& is_within(hour, c.opens, c.sunrise) && greater(c.sunrise, hour) ==> between == (
            Between { from: Key::Night, to: Key::Sunrise, start: c.opens, end: c.sunrise })
            &&& is_within(hour, c.sunrise, c.day) && greater(c.day, hour) ==> between == (
            Between { from: Key::Sunrise, to: Key::Day, start: c.sunrise, end: c.day })
            &&& is_within(hour, c.day, c.turns) && greater(c.turns, hour) ==> between.from
                == Key::Day && between.to == Key::Day
            &&& is_within(hour, c.turns, c.sunset) && greater(c.sunset, hour) ==> between == (
            Between { from: Key::Day, to: Key::Sunset, start: c.turns, end: c.sunset })
            &&& is_within(hour, c.sunset, c.night) ==> between == (Between {
                from: Key::Sunset,
                to: Key::Night,
                start: c.sunset,
                end: c.night,
            })
            &&& greater(hour, c.night) ==> between.from == Key::Night && between.to == Key::Night
        }),
{
}

/// **A schedule gives each time of day its own colour.**
pub proof fn law_a_schedule_names_each_time_of_day(s: Schedule)
    ensures
        s.names(Key::Sunrise) == s.sunrise,
        s.names(Key::Day) == s.day,
        s.names(Key::Sunset) == s.sunset,
        s.names(Key::Night) == s.night,
{
}

/// A colour that settings give, or the one that is there without them.
pub open spec fn or_else(said: Option<[u8; 3]>, spare: [u8; 3]) -> [u8; 3] {
    match said {
        Some(colour) => colour,
        None => spare,
    }
}

/// A schedule has the four colours its family's keys name.
proof fn lemma_four_keys(
    settings: Seq<SettingModel>,
    section: Seq<char>,
    family: Seq<char>,
    spare: Schedule,
)
    ensures
        ({
            let read = schedule_of(settings, section, family, spare);
            let said = |which: Seq<char>| colour_of(settings, section, family + which);
            &&& read.sunrise == or_else(said(" Sunrise Color"@), spare.sunrise)
            &&& read.day == or_else(said(" Day Color"@), spare.day)
            &&& read.sunset == or_else(said(" Sunset Color"@), spare.sunset)
            &&& read.night == or_else(said(" Night Color"@), spare.night)
        }),
{
    reveal_strlit("Sunrise");
    reveal_strlit("Day");
    reveal_strlit("Sunset");
    reveal_strlit("Night");
    reveal_strlit(" Color");
    reveal_strlit(" Sunrise Color");
    reveal_strlit(" Day Color");
    reveal_strlit(" Sunset Color");
    reveal_strlit(" Night Color");
    assert(colour_key(family, "Sunrise"@) =~= family + " Sunrise Color"@);
    assert(colour_key(family, "Day"@) =~= family + " Day Color"@);
    assert(colour_key(family, "Sunset"@) =~= family + " Sunset Color"@);
    assert(colour_key(family, "Night"@) =~= family + " Night Color"@);
}

/// **A family's colour at a time of day is what the key of that name says**, and the spare one at
/// that time of day where it says nothing.
pub proof fn law_a_schedule_is_what_its_keys_say(
    settings: Seq<SettingModel>,
    section: Seq<char>,
    family: Seq<char>,
    spare: Schedule,
)
    ensures
        schedule_of(settings, section, family, spare).sunrise == or_else(
            colour_of(settings, section, family + " Sunrise Color"@),
            spare.sunrise,
        ),
        schedule_of(settings, section, family, spare).day == or_else(
            colour_of(settings, section, family + " Day Color"@),
            spare.day,
        ),
        schedule_of(settings, section, family, spare).sunset == or_else(
            colour_of(settings, section, family + " Sunset Color"@),
            spare.sunset,
        ),
        schedule_of(settings, section, family, spare).night == or_else(
            colour_of(settings, section, family + " Night Color"@),
            spare.night,
        ),
{
    lemma_four_keys(settings, section, family, spare);
}

/// **A weather's fog, sky, ambient light and sun are what its own section says of each**: under a
/// different family, and with clear weather's own to spare.
pub proof fn law_a_weather_is_what_its_section_says(settings: Seq<SettingModel>, name: Seq<char>)
    ensures
        ({
            let weather = weather_of(settings, name);
            let said = |key: Seq<char>| colour_of(settings, "weather "@ + name, key);
            &&& weather.name == name
            &&& weather.fog.sunrise == or_else(said("Fog"@ + " Sunrise Color"@), [255, 189, 157])
            &&& weather.fog.day == or_else(said("Fog"@ + " Day Color"@), [206, 227, 255])
            &&& weather.fog.sunset == or_else(said("Fog"@ + " Sunset Color"@), [255, 189, 157])
            &&& weather.fog.night == or_else(said("Fog"@ + " Night Color"@), [9, 10, 11])
            &&& weather.sky.sunrise == or_else(said("Sky"@ + " Sunrise Color"@), [117, 141, 164])
            &&& weather.sky.day == or_else(said("Sky"@ + " Day Color"@), [95, 135, 203])
            &&& weather.sky.sunset == or_else(said("Sky"@ + " Sunset Color"@), [56, 89, 129])
            &&& weather.sky.night == or_else(said("Sky"@ + " Night Color"@), [9, 10, 11])
            &&& weather.ambient.sunrise == or_else(
                said("Ambient"@ + " Sunrise Color"@),
                [47, 66, 96],
            )
            &&& weather.ambient.day == or_else(said("Ambient"@ + " Day Color"@), [137, 140, 160])
            &&& weather.ambient.sunset == or_else(said("Ambient"@ + " Sunset Color"@), [68, 75, 96])
            &&& weather.ambient.night == or_else(said("Ambient"@ + " Night Color"@), [32, 35, 42])
            &&& weather.sun.sunrise == or_else(said("Sun"@ + " Sunrise Color"@), [242, 159, 119])
            &&& weather.sun.day == or_else(said("Sun"@ + " Day Color"@), [255, 252, 238])
            &&& weather.sun.sunset == or_else(said("Sun"@ + " Sunset Color"@), [255, 114, 79])
            &&& weather.sun.night == or_else(said("Sun"@ + " Night Color"@), [59, 97, 176])
        }),
{
    let section = "weather "@ + name;
    lemma_four_keys(settings, section, "Fog"@, super::weather::clear_fog());
    lemma_four_keys(settings, section, "Sky"@, super::weather::clear_sky());
    lemma_four_keys(settings, section, "Ambient"@, super::weather::clear_ambient());
    lemma_four_keys(settings, section, "Sun"@, super::weather::clear_sun());
}

/// Whether `.tga` stands in a text at a place.
pub open spec fn has_tga_at(s: Seq<char>, j: int) -> bool {
    0 <= j && j + 4 <= s.len() && s[j] == '.' && s[j + 1] == 't' && s[j + 2] == 'g' && s[j + 3]
        == 'a'
}

/// **Every `.tga` becomes `.dds`, and nothing else changes.**
pub proof fn law_only_the_extension_changes(s: Seq<char>, i: int)
    requires
        0 <= i < s.len(),
    ensures
        as_dds(s).len() == s.len(),
        has_tga_at(s, i) ==> as_dds(s)[i] == '.' && as_dds(s)[i + 1] == 'd' && as_dds(s)[i + 2]
            == 'd' && as_dds(s)[i + 3] == 's',
        !has_tga_at(s, i) && !has_tga_at(s, i - 1) && !has_tga_at(s, i - 2) && !has_tga_at(s, i - 3)
            ==> as_dds(s)[i] == s[i],
    decreases s.len(),
{
    if s.len() >= 4 {
        let tga = seq!['.', 't', 'g', 'a'];
        assert(has_tga_at(s, 0) <==> s.take(4) == tga) by {
            if has_tga_at(s, 0) {
                assert(s.take(4) =~= tga);
            }
            if s.take(4) == tga {
                assert(s.take(4)[0] == s[0] && s.take(4)[1] == s[1] && s.take(4)[2] == s[2]
                    && s.take(4)[3] == s[3]);
            }
        }
        let step = if has_tga_at(s, 0) {
            4int
        } else {
            1int
        };
        let rest = s.skip(step);
        assert forall|j: int| #[trigger] has_tga_at(rest, j) implies has_tga_at(s, j + step) by {}
        assert forall|j: int| j >= step && #[trigger] has_tga_at(s, j) implies has_tga_at(
            rest,
            j - step,
        ) by {}
        if rest.len() > 0 {
            law_only_the_extension_changes(rest, if i >= step {
                i - step
            } else {
                0
            });
        }
        if i >= step {
            assert(has_tga_at(rest, i - step) == has_tga_at(s, i));
            if has_tga_at(rest, i - step - 1) {
                assert(has_tga_at(s, i - 1));
            }
            if has_tga_at(rest, i - step - 2) {
                assert(has_tga_at(s, i - 2));
            }
            if has_tga_at(rest, i - step - 3) {
                assert(has_tga_at(s, i - 3));
            }
        }
    }
}

/// **A weather's clouds are cut out of the sheet its section names**, and out of clear weather's
/// where it names none.
pub proof fn law_clouds_are_cut_out_of_the_sheet_named(
    settings: Seq<SettingModel>,
    name: Seq<char>,
)
    ensures
        weather_of(settings, name).cloud_texture == (match value_of(
            settings,
            lowered("weather "@ + name),
            lowered("Cloud Texture"@),
        ) {
            Some(value) => as_dds(lowered(value)),
            None => as_dds(lowered("Tx_Sky_Clear.tga"@)),
        }),
{
}

/// **A weather that flags precipitation rains as many drops as it counts, and one that does not
/// snows as many flakes as it counts.**
pub proof fn law_a_weather_drops_what_it_counts(
    own: Fall,
    sheet: Seq<char>,
    snow: Fall,
    storms: bool,
    flag: Bits,
    drops: Bits,
    flakes: Bits,
)
    requires
        own.max_raindrops == Some(drops),
        own.max_snowflakes == Some(flakes),
        greater(drops, 0),
        greater(flakes, 0),
    ensures
        own.using_precip == Some(flag) && greater(flag, 0) ==> source_of(own, sheet, snow, storms)
            == Source::Own(Falling::Rain, drops),
        own.using_precip is None || (own.using_precip == Some(flag) && !greater(flag, 0))
            ==> source_of(own, sheet, snow, storms) == Source::Own(Falling::Snow, flakes),
{
}

/// Whether a section counts nothing that falls.
pub open spec fn counts_nothing(fall: Fall) -> bool {
    if fall.using_precip matches Some(flag) && greater(flag, 0) {
        !(fall.max_raindrops matches Some(drops) && greater(drops, 0))
    } else {
        !(fall.max_snowflakes matches Some(flakes) && greater(flakes, 0))
    }
}

/// **A weather that counts nothing of its own takes snow's under a northern sheet, blows ash in a
/// storm, and is otherwise dry.**
pub proof fn law_what_counts_nothing_goes_by_its_sheet(
    own: Fall,
    rest: Seq<char>,
    snow: Fall,
    flakes: Bits,
    sheet: Seq<char>,
    storms: bool,
)
    requires
        counts_nothing(own),
        snow.using_precip is None,
        sheet.len() < 6 || sheet.take(6) != seq!['t', 'x', '_', 'b', 'm', '_'],
    ensures
        ({
            let northern = seq!['t', 'x', '_', 'b', 'm', '_'] + rest;
            &&& snow.max_snowflakes == Some(flakes) && greater(flakes, 0) ==> source_of(
                own,
                northern,
                snow,
                storms,
            ) == Source::Snow(Falling::Snow, flakes)
            &&& counts_nothing(snow) ==> source_of(own, northern, snow, storms) == Source::Nothing
            &&& source_of(own, sheet, snow, true) == Source::Ash
            &&& source_of(own, sheet, snow, false) == Source::Nothing
        }),
{
    reveal_strlit("tx_bm_");
    let northern = seq!['t', 'x', '_', 'b', 'm', '_'] + rest;
    assert("tx_bm_"@ =~= seq!['t', 'x', '_', 'b', 'm', '_']);
    assert(northern.take(6) =~= "tx_bm_"@);
}

/// Whether a text neither begins nor ends with white space.
pub open spec fn is_trim(s: Seq<char>) -> bool {
    s.len() > 0 ==> !is_blank(s[0]) && !is_blank(s.last())
}

/// What has no white space around it is left as it is.
proof fn lemma_trim(s: Seq<char>)
    requires
        is_trim(s),
    ensures
        trimmed(s) == s,
{
}

/// **A line that sets a key sets it in the section it stands in, to what follows the equals sign.**
pub proof fn law_a_written_setting_reads_back(
    ini: IniModel,
    section: Seq<char>,
    key: Seq<char>,
    value: Seq<char>,
)
    requires
        key.len() > 0,
        is_trim(key),
        is_trim(value),
        key[0] != ';',
        key[0] != '[',
        !key.contains('='),
        lowered(key) == key,
    ensures
        ({
            let (after, current) = after_line((ini, section), key + seq!['='] + value);
            &&& current == section
            &&& after.sections.contains(section)
            &&& value_of(after.settings, section, key) == Some(value)
            &&& forall|other: Seq<char>, name: Seq<char>|
                (other != section || name != key) ==> #[trigger] value_of(
                    after.settings,
                    other,
                    name,
                ) == value_of(ini.settings, other, name)
        }),
{
    let line = key + seq!['='] + value;
    assert(!is_blank('='));
    assert(line[0] == key[0]);
    if value.len() > 0 {
        assert(line.last() == value.last());
    } else {
        assert(line.last() == '=');
    }
    lemma_trim(line);
    lemma_trim(key);
    lemma_trim(value);
    assert(line[key.len() as int] == '=');
    assert forall|k: int| 0 <= k < key.len() implies line[k] != '=' by {
        assert(key.contains(key[k]));
        assert(line[k] == key[k]);
    }
    lemma_first_is(line, '=', key.len() as int);
    assert(line.take(key.len() as int) =~= key);
    assert(line.skip(key.len() + 1int) =~= value);
    assert(line_of(line) == Line::Pair(key, value));
    let (after, current) = after_line((ini, section), line);
    let setting = SettingModel { section, key, value };
    assert(after.settings == ini.settings.push(setting));
    assert(after.settings.drop_last() =~= ini.settings);
    assert(after.sections.contains(section)) by {
        if !ini.sections.contains(section) {
            assert(after.sections.last() == section);
        }
    }
}

/// **A line in square brackets begins a section**, named in small letters, and sets nothing.
pub proof fn law_a_written_section_is_entered(
    ini: IniModel,
    section: Seq<char>,
    name: Seq<char>,
)
    ensures
        ({
            let (after, current) = after_line((ini, section), seq!['['] + name + seq![']']);
            &&& current == lowered(name)
            &&& after.sections.contains(lowered(name))
            &&& after.settings == ini.settings
        }),
{
    let line = seq!['['] + name + seq![']'];
    assert(!is_blank('[') && !is_blank(']'));
    lemma_trim(line);
    assert(line.subrange(1, line.len() - 1) =~= name);
    assert(line_of(line) == Line::Section(lowered(name)));
    let (after, current) = after_line((ini, section), line);
    assert(after.sections.contains(lowered(name))) by {
        if !ini.sections.contains(lowered(name)) {
            assert(after.sections.last() == lowered(name));
        }
    }
}

/// A byte's digits are digits, and no more than three of them.
proof fn lemma_byte_digits(n: nat)
    requires
        n <= 255,
    ensures
        digits(n).len() > 0,
        all_digits(digits(n)),
        decimal(digits(n)) == n,
        is_trim(digits(n)),
        !digits(n).contains(','),
    decreases n,
{
    let s = digits(n);
    if n < 10 {
        assert(s.drop_last() =~= Seq::empty());
        assert(s.last() == (48 + n) as char);
        reveal_with_fuel(decimal, 2);
    } else {
        lemma_byte_digits(n / 10);
        assert(s.drop_last() =~= digits(n / 10));
        assert(s.last() == (48 + n % 10) as char);
        assert(s[0] == digits(n / 10)[0]);
    }
    assert forall|i: int| 0 <= i < s.len() implies '0' <= #[trigger] s[i] <= '9' by {
        if n >= 10 && i < s.len() - 1 {
            assert(s[i] == digits(n / 10)[i]);
        }
    }
    if s.contains(',') {
        let i = s.index_of(',');
        assert('0' <= s[i] <= '9');
    }
}

/// A byte written in decimal is read as that byte.
proof fn lemma_byte_reads_back(n: u8)
    ensures
        byte_of(trimmed(digits(n as nat))) == Some(n),
{
    lemma_byte_digits(n as nat);
    let s = digits(n as nat);
    assert('0' <= s[0] <= '9');
}

/// **A colour written as three numbers with commas between reads back as it was written**, its red
/// first.
pub proof fn law_a_written_colour_reads_back(
    settings: Seq<SettingModel>,
    section: Seq<char>,
    key: Seq<char>,
    colour: [u8; 3],
)
    ensures
        colour_of(
            settings.push(
                SettingModel {
                    section: lowered(section),
                    key: lowered(key),
                    value: digits(colour@[0] as nat) + seq![','] + digits(colour@[1] as nat)
                        + seq![','] + digits(colour@[2] as nat),
                },
            ),
            section,
            key,
        ) == Some(colour),
{
    let (r, g, b) = (
        digits(colour@[0] as nat),
        digits(colour@[1] as nat),
        digits(colour@[2] as nat),
    );
    lemma_byte_digits(colour@[0] as nat);
    lemma_byte_digits(colour@[1] as nat);
    lemma_byte_digits(colour@[2] as nat);
    lemma_byte_reads_back(colour@[0]);
    lemma_byte_reads_back(colour@[1]);
    lemma_byte_reads_back(colour@[2]);
    let value = r + seq![','] + g + seq![','] + b;
    let rest = g + seq![','] + b;
    lemma_comma(r, rest);
    assert(value =~= r + seq![','] + rest);
    lemma_comma(g, b);
    assert(first_of(b, ',') == b.len()) by {
        lemma_first_of(b, ',');
        if first_of(b, ',') < b.len() {
            assert(b.contains(','));
        }
    }
    assert(b.take(b.len() as int) =~= b);
    reveal_with_fuel(field, 3);
    assert(channel_of(value, 0) == Some(colour@[0]));
    assert(channel_of(value, 1) == Some(colour@[1]));
    assert(channel_of(value, 2) == Some(colour@[2]));
    let setting = SettingModel { section: lowered(section), key: lowered(key), value };
    assert(settings.push(setting).last() == setting);
    assert([colour@[0], colour@[1], colour@[2]]@ =~= colour@);
    assert([colour@[0], colour@[1], colour@[2]] =~= colour);
}

/// The first comma of a text without one, with a comma and more after it.
proof fn lemma_comma(a: Seq<char>, rest: Seq<char>)
    requires
        !a.contains(','),
    ensures
        ({
            let s = a + seq![','] + rest;
            &&& first_of(s, ',') == a.len()
            &&& s.take(a.len() as int) == a
            &&& s.skip(a.len() + 1int) == rest
            &&& a.len() < s.len()
        }),
{
    let s = a + seq![','] + rest;
    assert(s[a.len() as int] == ',');
    assert forall|k: int| 0 <= k < a.len() implies s[k] != ',' by {
        assert(a.contains(a[k]));
        assert(s[k] == a[k]);
    }
    lemma_first_is(s, ',', a.len() as int);
    assert(s.take(a.len() as int) =~= a);
    assert(s.skip(a.len() + 1int) =~= rest);
}

} // verus!
