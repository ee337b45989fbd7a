//! A game's weathers, as its settings describe them.

use super::bits::{greater, is_greater, Bits};
use super::ini::{borrowed, colour_of, empty_ini, lowered, to_small, value_of, Ini, SettingModel};
use super::mesh::push_all;
use crate::text::{chars, same, string_of};
use crate::vfs::sorted_names::strictly_in_order;
use vstd::prelude::*;

verus! {

/// One of the four times of day a weather names a colour for.
#[derive(Debug, Clone, Copy, PartialEq, Eq, Structural)]
pub enum Key {
    Sunrise,
    Day,
    Sunset,
    Night,
}

/// Which two of a family's four values an hour falls between, and the hours it crosses between them
/// over. Held where the two are the same.
#[derive(Debug, Clone, Copy, PartialEq, Eq, Structural)]
pub struct Between {
    pub from: Key,
    pub to: Key,
    pub start: Bits,
    pub end: Bits,
}

/// When one family of colours changes over: the hours its windows about sunrise and sunset open and
/// close at.
///
/// Every family has its own, which is why a dusk does not change all at once.
#[derive(Debug, Clone, Copy)]
pub struct Crossover {
    /// When the window before sunrise opens.
    pub opens: Bits,
    pub sunrise: Bits,
    /// When the window after sunrise closes.
    pub day: Bits,
    /// When the window before sunset opens.
    pub turns: Bits,
    pub sunset: Bits,
    /// When the window after sunset closes.
    pub night: Bits,
}

impl Crossover {
    /// Where an hour sits among the four.
    pub open spec fn at(self, hour: Bits) -> Between {
        if greater(self.opens, hour) || greater(hour, self.night) {
            Between { from: Key::Night, to: Key::Night, start: hour, end: hour }
        } else if greater(self.sunrise, hour) {
            Between { from: Key::Night, to: Key::Sunrise, start: self.opens, end: self.sunrise }
        } else if greater(self.day, hour) {
            Between { from: Key::Sunrise, to: Key::Day, start: self.sunrise, end: self.day }
        } else if greater(self.turns, hour) {
            Between { from: Key::Day, to: Key::Day, start: hour, end: hour }
        } else if greater(self.sunset, hour) {
            Between { from: Key::Day, to: Key::Sunset, start: self.turns, end: self.sunset }
        } else {
            Between { from: Key::Sunset, to: Key::Night, start: self.sunset, end: self.night }
        }
    }

    /// Where an hour sits among the four, on this family's own windows.
    ///
    /// Night until the window opens before sunrise, then night to sunrise to day across it; day
    /// until the window opens before sunset, then day to sunset to night across that.
    pub fn between(self, hour: Bits) -> (r: Between)
        ensures
            r == self.at(hour),
    {
        if is_greater(self.opens, hour) || is_greater(hour, self.night) {
            return Between { from: Key::Night, to: Key::Night, start: hour, end: hour };
        }
        if is_greater(self.sunrise, hour) {
            return Between {
                from: Key::Night,
                to: Key::Sunrise,
                start: self.opens,
                end: self.sunrise,
            };
        }
        if is_greater(self.day, hour) {
            return Between {
                from: Key::Sunrise,
                to: Key::Day,
                start: self.sunrise,
                end: self.day,
            };
        }
        if is_greater(self.turns, hour) {
            return Between { from: Key::Day, to: Key::Day, start: hour, end: hour };
        }
        if is_greater(self.sunset, hour) {
            return Between {
                from: Key::Day,
                to: Key::Sunset,
                start: self.turns,
                end: self.sunset,
            };
        }
        Between { from: Key::Sunset, to: Key::Night, start: self.sunset, end: self.night }
    }
}

/// One family's colour at each of the four times of day, as the settings write it: red, green and
/// blue encoded as sRGB.
#[derive(Debug, Clone, Copy)]
pub struct Schedule {
    pub sunrise: [u8; 3],
    pub day: [u8; 3],
    pub sunset: [u8; 3],
    pub night: [u8; 3],
}

/// A family's four colours where a weather names none: clear weather's own, rather than white,
/// because a schedule of white says that an opaque white medium fills the sky.
pub open spec fn clear_sky() -> Schedule {
    Schedule {
        sunrise: [117, 141, 164],
        day: [95, 135, 203],
        sunset: [56, 89, 129],
        night: [9, 10, 11],
    }
}

/// Clear weather's fog.
pub open spec fn clear_fog() -> Schedule {
    Schedule {
        sunrise: [255, 189, 157],
        day: [206, 227, 255],
        sunset: [255, 189, 157],
        night: [9, 10, 11],
    }
}

/// Clear weather's ambient light.
pub open spec fn clear_ambient() -> Schedule {
    Schedule {
        sunrise: [47, 66, 96],
        day: [137, 140, 160],
        sunset: [68, 75, 96],
        night: [32, 35, 42],
    }
}

/// Clear weather's sun.
pub open spec fn clear_sun() -> Schedule {
    Schedule {
        sunrise: [242, 159, 119],
        day: [255, 252, 238],
        sunset: [255, 114, 79],
        night: [59, 97, 176],
    }
}

/// The key a family's colour at one time of day is set under.
pub open spec fn colour_key(family: Seq<char>, which: Seq<char>) -> Seq<char> {
    family + seq![' '] + which + " Color"@
}

/// A family's colour at one time of day, or a spare one where the settings name none.
pub open spec fn named_colour(
    settings: Seq<SettingModel>,
    section: Seq<char>,
    family: Seq<char>,
    which: Seq<char>,
    spare: [u8; 3],
) -> [u8; 3] {
    match colour_of(settings, section, colour_key(family, which)) {
        Some(colour) => colour,
        None => spare,
    }
}

/// The four colours a section names for a family.
pub open spec fn schedule_of(
    settings: Seq<SettingModel>,
    section: Seq<char>,
    family: Seq<char>,
    fallback: Schedule,
) -> Schedule {
    Schedule {
        sunrise: named_colour(settings, section, family, "Sunrise"@, fallback.sunrise),
        day: named_colour(settings, section, family, "Day"@, fallback.day),
        sunset: named_colour(settings, section, family, "Sunset"@, fallback.sunset),
        night: named_colour(settings, section, family, "Night"@, fallback.night),
    }
}

/// Some text after other text.
fn joined(a: &str, b: &str) -> (r: String)
    ensures
        r@ == a@ + b@,
{
    let mut all: Vec<char> = chars(a);
    push_all(&mut all, &chars(b));
    string_of(all.as_slice())
}

impl Schedule {
    /// Whichever of the four a key names.
    pub open spec fn names(self, key: Key) -> [u8; 3] {
        match key {
            Key::Sunrise => self.sunrise,
            Key::Day => self.day,
            Key::Sunset => self.sunset,
            Key::Night => self.night,
        }
    }

    /// Whichever of the four `key` names.
    pub fn key(self, key: Key) -> (r: [u8; 3])
        ensures
            r == self.names(key),
    {
        match key {
            Key::Sunrise => self.sunrise,
            Key::Day => self.day,
            Key::Sunset => self.sunset,
            Key::Night => self.night,
        }
    }

    /// One colour of a family, or a spare one.
    fn read_one(ini: &Ini, section: &str, family: &str, which: &str, spare: [u8; 3]) -> (r: [u8; 3])
        ensures
            r == named_colour(ini@.settings, section@, family@, which@, spare),
    {
        let start: String = joined(family, " ");
        let middle: String = joined(start.as_str(), which);
        let key: String = joined(middle.as_str(), " Color");
        proof {
            reveal_strlit(" ");
            assert(key@ =~= colour_key(family@, which@));
        }
        match ini.colour(section, key.as_str()) {
            Some(colour) => colour,
            None => spare,
        }
    }

    /// The four colours a section names for `family`, each falling back to what `fallback` has.
    pub fn read(ini: &Ini, section: &str, family: &str, fallback: Schedule) -> (r: Schedule)
        ensures
            r == schedule_of(ini@.settings, section@, family@, fallback),
    {
        Schedule {
            sunrise: Schedule::read_one(ini, section, family, "Sunrise", fallback.sunrise),
            day: Schedule::read_one(ini, section, family, "Day", fallback.day),
            sunset: Schedule::read_one(ini, section, family, "Sunset", fallback.sunset),
            night: Schedule::read_one(ini, section, family, "Night", fallback.night),
        }
    }
}

/// Text with every `.tga` in it made `.dds`, from the left.
pub open spec fn as_dds(s: Seq<char>) -> Seq<char>
    decreases s.len(),
{
    if s.len() < 4 {
        s
    } else if s.take(4) == seq!['.', 't', 'g', 'a'] {
        seq!['.', 'd', 'd', 's'] + as_dds(s.skip(4))
    } else {
        seq![s[0]] + as_dds(s.skip(1))
    }
}

/// Text with every `.tga` in it made `.dds`, from the left.
fn to_dds(all: &Vec<char>) -> (r: Vec<char>)
    ensures
        r@ == as_dds(all@),
{
    let mut r: Vec<char> = Vec::new();
    let mut i: usize = 0;
    assert(all@.skip(0) =~= all@);
    while all.len() - i >= 4
        invariant
            i <= all@.len(),
            r@ + as_dds(all@.skip(i as int)) == as_dds(all@),
        decreases all@.len() - i,
    {
        let ghost rest = all@.skip(i as int);
        if all[i] == '.' && all[i + 1] == 't' && all[i + 2] == 'g' && all[i + 3] == 'a' {
            proof {
                assert(rest.take(4) =~= seq!['.', 't', 'g', 'a']);
                assert(rest.skip(4) =~= all@.skip(i + 4));
            }
            let ghost before = r@;
            r.push('.');
            r.push('d');
            r.push('d');
            r.push('s');
            i = i + 4;
            assert(r@ + as_dds(all@.skip(i as int)) =~= before + (seq!['.', 'd', 'd', 's'] + as_dds(
                all@.skip(i as int),
            )));
        } else {
            proof {
                if rest.take(4) == seq!['.', 't', 'g', 'a'] {
                    assert(rest.take(4)[0] == all@[i as int]);
                    assert(rest.take(4)[1] == all@[i + 1]);
                    assert(rest.take(4)[2] == all@[i + 2]);
                    assert(rest.take(4)[3] == all@[i + 3]);
                }
                assert(rest.skip(1) =~= all@.skip(i + 1));
            }
            let ghost before = r@;
            r.push(all[i]);
            i = i + 1;
            assert(r@ + as_dds(all@.skip(i as int)) =~= before + (seq![rest[0]] + as_dds(
                all@.skip(i as int),
            )));
        }
    }
    let ghost rest = all@.skip(i as int);
    while i < all.len()
        invariant
            i <= all@.len(),
            r@ + all@.skip(i as int) == as_dds(all@),
        decreases all@.len() - i,
    {
        let ghost before = r@;
        r.push(all[i]);
        i = i + 1;
        assert(r@ + all@.skip(i as int) =~= before + all@.skip(i - 1));
    }
    assert(r@ =~= r@ + all@.skip(i as int));
    r
}

/// One weather: its name, its colours through the day, and the sheet its clouds are cut out of.
#[derive(Debug)]
pub struct Weather {
    /// What the settings call it, in small letters.
    pub name: String,
    /// What the air scatters.
    pub fog: Schedule,
    /// What the whole sky averages to.
    pub sky: Schedule,
    /// What a surface receives.
    pub ambient: Schedule,
    /// What the beam is.
    pub sun: Schedule,
    /// Which painted sheet the cloud layer is cut out of.
    pub cloud_texture: String,
}

/// What a [`Weather`] is.
#[verifier::ext_equal]
pub struct WeatherModel {
    pub name: Seq<char>,
    pub fog: Schedule,
    pub sky: Schedule,
    pub ambient: Schedule,
    pub sun: Schedule,
    pub cloud_texture: Seq<char>,
}

impl View for Weather {
    type V = WeatherModel;

    open spec fn view(&self) -> WeatherModel {
        WeatherModel {
            name: self.name@,
            fog: self.fog,
            sky: self.sky,
            ambient: self.ambient,
            sun: self.sun,
            cloud_texture: self.cloud_texture@,
        }
    }
}

/// The section a weather is described in.
pub open spec fn section_of(name: Seq<char>) -> Seq<char> {
    "weather "@ + name
}

/// The sheet a weather's clouds are cut out of: the one it names, or clear weather's.
pub open spec fn sheet_of(settings: Seq<SettingModel>, section: Seq<char>) -> Seq<char> {
    match value_of(settings, lowered(section), lowered("Cloud Texture"@)) {
        Some(value) => as_dds(lowered(value)),
        None => as_dds(lowered("Tx_Sky_Clear.tga"@)),
    }
}

/// The weather some settings describe under a name.
pub open spec fn weather_of(settings: Seq<SettingModel>, name: Seq<char>) -> WeatherModel {
    let section = section_of(name);
    WeatherModel {
        name,
        fog: schedule_of(settings, section, "Fog"@, clear_fog()),
        sky: schedule_of(settings, section, "Sky"@, clear_sky()),
        ambient: schedule_of(settings, section, "Ambient"@, clear_ambient()),
        sun: schedule_of(settings, section, "Sun"@, clear_sun()),
        cloud_texture: sheet_of(settings, section),
    }
}

/// What some weathers are called.
pub open spec fn weather_names(table: Seq<Weather>) -> Seq<Seq<char>> {
    Seq::new(table.len(), |i: int| table[i].name@)
}

impl Weather {
    /// The weather some settings describe under a name.
    pub fn read(ini: &Ini, name: &str) -> (r: Weather)
        ensures
            r@ == weather_of(ini@.settings, name@),
    {
        let section: String = joined("weather ", name);
        let sheet: Vec<char> = match ini.get(section.as_str(), "Cloud Texture") {
            Some(value) => small_letters(value),
            None => small_letters("Tx_Sky_Clear.tga"),
        };
        let cloud_texture: String = string_of(to_dds(&sheet).as_slice());
        Weather {
            name: name.to_owned(),
            fog: Schedule::read(
                ini,
                section.as_str(),
                "Fog",
                Schedule {
                    sunrise: [255, 189, 157],
                    day: [206, 227, 255],
                    sunset: [255, 189, 157],
                    night: [9, 10, 11],
                },
            ),
            sky: Schedule::read(
                ini,
                section.as_str(),
                "Sky",
                Schedule {
                    sunrise: [117, 141, 164],
                    day: [95, 135, 203],
                    sunset: [56, 89, 129],
                    night: [9, 10, 11],
                },
            ),
            ambient: Schedule::read(
                ini,
                section.as_str(),
                "Ambient",
                Schedule {
                    sunrise: [47, 66, 96],
                    day: [137, 140, 160],
                    sunset: [68, 75, 96],
                    night: [32, 35, 42],
                },
            ),
            sun: Schedule::read(
                ini,
                section.as_str(),
                "Sun",
                Schedule {
                    sunrise: [242, 159, 119],
                    day: [255, 252, 238],
                    sunset: [255, 114, 79],
                    night: [59, 97, 176],
                },
            ),
            cloud_texture,
        }
    }

    /// Every weather some settings describe, in the order of their names.
    pub fn from_ini(ini: &Ini) -> (r: Vec<Weather>)
        requires
            ini.wf(),
        ensures
            strictly_in_order(weather_names(r@)),
            forall|name: Seq<char>|
                #![trigger weather_names(r@).contains(name)]
                weather_names(r@).contains(name) <==> name.len() > 0 && ini@.sections.contains(
                    lowered("weather "@) + name,
                ),
            forall|i: int|
                0 <= i < r@.len() ==> (#[trigger] r@[i])@ == weather_of(
                    ini@.settings,
                    r@[i].name@,
                ),
    {
        let names: Vec<&str> = ini.sections_under("weather ");
        let mut table: Vec<Weather> = Vec::new();
        let mut i: usize = 0;
        while i < names.len()
            invariant
                i <= names@.len(),
                table@.len() == i,
                forall|k: int|
                    0 <= k < i ==> (#[trigger] table@[k])@ == weather_of(
                        ini@.settings,
                        names@[k]@,
                    ),
            decreases names@.len() - i,
        {
            table.push(Weather::read(ini, names[i]));
            i = i + 1;
        }
        assert(weather_names(table@) =~= borrowed(names@)) by {
            assert forall|k: int| 0 <= k < table@.len() implies weather_names(table@)[k]
                == borrowed(names@)[k] by {
                assert(table@[k]@.name == names@[k]@);
            }
        }
        table
    }

    /// Clear weather as far as anything can know it without settings.
    pub fn clear() -> (r: Weather)
        ensures
            r@ == weather_of(empty_ini().settings, "clear"@),
    {
        let ini: Ini = Ini::default();
        Weather::read(&ini, "clear")
    }
}

/// Some text with its ASCII capitals made small.
fn small_letters(text: &str) -> (r: Vec<char>)
    ensures
        r@ == lowered(text@),
{
    let all: Vec<char> = chars(text);
    let mut r: Vec<char> = Vec::new();
    let mut i: usize = 0;
    while i < all.len()
        invariant
            i <= all@.len(),
            all@ == text@,
            r@ == lowered(text@).take(i as int),
        decreases all@.len() - i,
    {
        r.push(to_small(all[i]));
        i = i + 1;
        assert(r@ =~= lowered(text@).take(i as int));
    }
    assert(r@ =~= lowered(text@));
    r
}

/// **A day goes round**: an hour is held at one of the four, or lies between one and the next of
/// them.
pub proof fn law_the_four_follow_each_other(crossover: Crossover, hour: Bits)
    ensures
        ({
            let between = crossover.at(hour);
            ||| between.from == between.to
            ||| between.from == Key::Night && between.to == Key::Sunrise
            ||| between.from == Key::Sunrise && between.to == Key::Day
            ||| between.from == Key::Day && between.to == Key::Sunset
            ||| between.from == Key::Sunset && between.to == Key::Night
        }),
{
}

} // verus!
