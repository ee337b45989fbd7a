use rtxmw::scene::forecast::{find_named, forecast};
use rtxmw::scene::lightning::{hash, stage, Discharge, Drawing, Lightning};
use rtxmw::scene::precipitation::{Fall, Falling, Source};
use rtxmw::scene::weather::{Between, Crossover, Key, Schedule, Weather};
use rtxmw::scene::Ini;

/// One channel of linear light from its encoding.
fn to_linear(byte: u8) -> f32 {
    let encoded = byte as f32 / 255.0;
    if encoded <= 0.04045 {
        encoded / 12.92
    } else {
        ((encoded + 0.055) / 1.055).powf(2.4)
    }
}

#[test]
fn sections_and_keys_are_found_however_they_were_capitalised() {
    let ini = Ini::parse(
        "; a comment\n\
         [Weather Clear]\n\
         Sky Day Color=095,135,203\n\
         Cloud Speed=1.25\n\
         \n\
         [Weather Overcast]\n\
         Sky Day Color=143,146,149\n",
    );
    assert_eq!(ini.get("weather clear", "CLOUD SPEED"), Some("1.25"));
    assert_eq!(
        ini.get("Weather Clear", "Cloud Speed")
            .and_then(|v| v.parse::<f32>().ok()),
        Some(1.25)
    );
    assert_eq!(ini.get("Weather Clear", "no such key"), None);
    assert_eq!(ini.get("No Such Section", "Cloud Speed"), None);

    let sky = ini
        .colour("Weather Clear", "Sky Day Color")
        .unwrap()
        .map(to_linear);
    assert!((sky[0] - 0.1144).abs() < 1e-3, "{sky:?}");
    assert!(
        sky[2] > sky[1] && sky[1] > sky[0],
        "a day sky is blue: {sky:?}"
    );

    // And the weathers are found without a list of them written down anywhere.
    assert_eq!(ini.sections_under("weather "), vec!["clear", "overcast"]);
}

#[test]
fn a_line_that_is_neither_a_section_nor_a_pair_is_simply_not_one() {
    // The file has blank lines, comments and a stray word or two, and the game reads it anyway.
    let ini = Ini::parse("nonsense\n[A]\n; note\n\nk = v \nalso nonsense\n");
    assert_eq!(ini.get("a", "k"), Some("v"));
    assert_eq!(ini.get("a", "also nonsense"), None);
}

#[test]
fn the_last_value_of_a_key_is_the_one_that_counts() {
    let ini = Ini::parse("[A]\nk=1\n[B]\nk=2\n[a]\nK=3\n");
    assert_eq!(ini.get("A", "k"), Some("3"));
    assert_eq!(ini.get("b", "k"), Some("2"));
}

#[test]
fn blanks_and_line_ends_are_no_part_of_a_setting() {
    let ini = Ini::parse("[A]\r\n\tkey =\u{a0}one=two \r\n;key=three\n[ B]\nk=1\n=bare\n");
    assert_eq!(ini.get("a", "key"), Some("one=two"));
    // What stands inside the brackets is the name as it is written.
    assert_eq!(ini.get(" b", "k"), Some("1"));
    assert_eq!(ini.get("b", "k"), None);
    assert_eq!(ini.get(" B", ""), Some("bare"));
    // A pair before any section belongs to the one with no name.
    assert_eq!(Ini::parse("k=1").get("", "k"), Some("1"));
}

#[test]
fn a_colour_is_three_numbers_of_a_byte_each() {
    let ini = Ini::parse("[A]\nk=1, 2 ,003\nshort=1,2\nlong=1,2,3,4\nbig=1,2,256\nword=1,2,x\n");
    assert_eq!(ini.colour("a", "k"), Some([1, 2, 3]));
    assert_eq!(ini.colour("a", "long"), Some([1, 2, 3]));
    assert_eq!(Ini::parse("[A]\nk=+1,02,255").colour("A", "K"), Some([1, 2, 255]));
    assert_eq!(ini.colour("a", "short"), None);
    assert_eq!(ini.colour("a", "big"), None);
    assert_eq!(ini.colour("a", "word"), None);
    assert_eq!(ini.colour("a", "absent"), None);
}

/// When a family crosses over, from its windows about sunrise at six and sunset at eighteen.
fn crossover(pre_sunrise: f32, post_sunrise: f32, pre_sunset: f32, post_sunset: f32) -> Crossover {
    Crossover {
        opens: (6.0 - pre_sunrise).to_bits(),
        sunrise: 6.0f32.to_bits(),
        day: (6.0 + post_sunrise).to_bits(),
        turns: (18.0 - pre_sunset).to_bits(),
        sunset: 18.0f32.to_bits(),
        night: (18.0 + post_sunset).to_bits(),
    }
}

fn lerp(a: [f32; 3], b: [f32; 3], t: f32) -> [f32; 3] {
    [0, 1, 2].map(|i| a[i] + (b[i] - a[i]) * t)
}

fn apart(a: [f32; 3], b: [f32; 3]) -> f32 {
    [0, 1, 2].map(|i: usize| (a[i] - b[i]).powi(2)).iter().sum::<f32>().sqrt()
}

/// A schedule's colour at an hour.
fn at(schedule: Schedule, windows: Crossover, hour: f32) -> [f32; 3] {
    let between: Between = windows.between(hour.to_bits());
    let from = schedule.key(between.from).map(to_linear);
    let to = schedule.key(between.to).map(to_linear);
    if between.from == between.to {
        return from;
    }
    let (start, end) = (f32::from_bits(between.start), f32::from_bits(between.end));
    lerp(from, to, (hour - start) / (end - start))
}

#[test]
fn a_colour_holds_by_day_and_crosses_over_on_its_own_family_s_schedule() {
    // A synthetic weather, so the numbers under test are the ones written here.
    let ini = Ini::parse(
        "[Weather]\n\
         Sky Pre-Sunset Time=1.5\n\
         Sky Post-Sunset Time=.5\n\
         Sky Pre-Sunrise Time=.5\n\
         Sky Post-Sunrise Time=1\n\
         Ambient Pre-Sunset Time=1\n\
         Ambient Post-Sunset Time=1.25\n\
         Ambient Pre-Sunrise Time=.5\n\
         Ambient Post-Sunrise Time=2\n\
         [Weather Test]\n\
         Sky Sunrise Color=255,0,0\n\
         Sky Day Color=0,255,0\n\
         Sky Sunset Color=0,0,255\n\
         Sky Night Color=0,0,0\n\
         Ambient Sunrise Color=255,0,0\n\
         Ambient Day Color=0,255,0\n\
         Ambient Sunset Color=0,0,255\n\
         Ambient Night Color=0,0,0\n",
    );
    let table = Weather::from_ini(&ini);
    assert_eq!(table.len(), 1);
    let test = &table[0];
    assert_eq!(test.name, "test");
    let hours = |family: &str, key: &str| -> f32 {
        ini.get("Weather", &format!("{family} {key} Time"))
            .and_then(|v| v.parse().ok())
            .expect("every window is named")
    };
    let windows = |family: &str| {
        crossover(
            hours(family, "Pre-Sunrise"),
            hours(family, "Post-Sunrise"),
            hours(family, "Pre-Sunset"),
            hours(family, "Post-Sunset"),
        )
    };
    let sky_windows = windows("Sky");
    let sky = |h: f32| at(test.sky, sky_windows, h);
    let day = sky(12.0);
    let sunset = test.sky.sunset.map(to_linear);
    let night = test.sky.night.map(to_linear);

    // Flat through the middle of the day, right up to where the window opens.
    assert_eq!(sky(10.0), day);
    assert_eq!(sky(16.4), day, "the sky's window opens at 16:30");
    // Then day toward sunset across an hour and a half, half way at 17:15.
    let half = sky(17.25);
    assert!(apart(half, lerp(day, sunset, 0.5)) < 1e-5, "{half:?}");
    // Sunset exactly at eighteen, and out to night half an hour later.
    assert!(apart(sky(18.0), sunset) < 1e-5);
    assert_eq!(sky(18.5), night);
    assert_eq!(sky(23.0), night);

    // And the ambient is somewhere else at the same moment: it is only a quarter of the way.
    let ambient_windows = windows("Ambient");
    let ambient = at(test.ambient, ambient_windows, 17.25);
    let quarter = lerp(
        test.ambient.day.map(to_linear),
        test.ambient.sunset.map(to_linear),
        0.25,
    );
    assert!(apart(ambient, quarter) < 1e-5, "{ambient:?}");
    // And at half past six the sky has finished while the ambient has not.
    assert_eq!(sky(18.5), night);
    assert!(at(test.ambient, ambient_windows, 18.5) != test.ambient.night.map(to_linear));
}

#[test]
fn the_four_times_of_day_follow_each_other() {
    let windows = crossover(0.5, 1.0, 1.5, 0.5);
    let sits = |h: f32| {
        let between = windows.between(h.to_bits());
        (between.from, between.to)
    };
    assert_eq!(sits(0.0), (Key::Night, Key::Night));
    assert_eq!(sits(5.75), (Key::Night, Key::Sunrise));
    assert_eq!(sits(6.0), (Key::Sunrise, Key::Day));
    assert_eq!(sits(7.0), (Key::Day, Key::Day));
    assert_eq!(sits(17.0), (Key::Day, Key::Sunset));
    assert_eq!(sits(18.25), (Key::Sunset, Key::Night));
    assert_eq!(sits(18.75), (Key::Night, Key::Night));
}

#[test]
fn a_weather_names_its_sheet_and_borrows_clear_colours() {
    let ini = Ini::parse("[Weather Rain]\nCloud Texture=Tx_Sky_Rainy.TGA\nFog Day Color=1,2,3\n");
    let rain = Weather::read(&ini, "rain");
    assert_eq!(rain.cloud_texture, "tx_sky_rainy.dds");
    assert_eq!(rain.fog.day, [1, 2, 3]);
    assert_eq!(rain.sky.day, [95, 135, 203]);
    let clear = Weather::clear();
    assert_eq!(clear.name, "clear");
    assert_eq!(clear.cloud_texture, "tx_sky_clear.dds");
    assert_eq!(clear.fog.night, [9, 10, 11]);
    assert_eq!(clear.sun.day, [255, 252, 238]);
    assert_eq!(clear.ambient.sunset, [68, 75, 96]);
}

fn named(all: &[&str]) -> Vec<String> {
    all.iter().map(|name| name.to_string()).collect()
}

#[test]
fn a_forecast_is_read_in_the_game_s_own_order() {
    let ini = Ini::parse("[Weather Ash]\n[Weather Clear]\n[Weather Foggy]\n[Weather Odd]\n");
    let table = Weather::from_ini(&ini);
    let order = named(&["clear", "foggy", "ash"]);
    let said = |places: Vec<usize>| -> Vec<String> {
        places.iter().map(|i| table[*i].name.clone()).collect()
    };
    // Sections come out sorted, and a forecast does not. What the order does not name comes last.
    assert_eq!(
        said(forecast(&table, &order, None)),
        ["clear", "foggy", "ash", "odd"]
    );
    let wet = named(&["foggy", "clear"]);
    assert_eq!(said(forecast(&table, &order, Some(&wet))), ["clear", "foggy"]);
    // A region that allows none of what there is narrows nothing.
    let none = named(&["blizzard"]);
    assert_eq!(forecast(&table, &order, Some(&none)).len(), 4);
    assert_eq!(find_named(&table, " CLEAR "), Some(1));
    assert_eq!(find_named(&table, "snow"), None);
}

fn fall(precip: f32, drops: f32, flakes: f32) -> Fall {
    Fall {
        using_precip: Some(precip.to_bits()),
        max_raindrops: Some(drops.to_bits()),
        max_snowflakes: Some(flakes.to_bits()),
    }
}

#[test]
fn what_falls_is_what_a_weather_or_its_sheet_says() {
    let nothing = Fall {
        using_precip: None,
        max_raindrops: None,
        max_snowflakes: None,
    };
    let snow = fall(0.0, 0.0, 750.0);
    assert_eq!(
        fall(1.0, 450.0, 0.0).named(),
        Some((Falling::Rain, 450.0f32.to_bits()))
    );
    assert_eq!(snow.named(), Some((Falling::Snow, 750.0f32.to_bits())));
    assert_eq!(fall(1.0, 0.0, 750.0).named(), None);

    assert_eq!(
        Source::read(fall(1.0, 450.0, 0.0), "tx_sky_rainy.dds", snow, false),
        Source::Own(Falling::Rain, 450.0f32.to_bits())
    );
    assert_eq!(
        Source::read(nothing, "tx_bm_sky_blizzard.dds", snow, true),
        Source::Snow(Falling::Snow, 750.0f32.to_bits())
    );
    assert_eq!(
        Source::read(nothing, "tx_sky_ashstorm.dds", snow, true),
        Source::Ash
    );
    assert_eq!(
        Source::read(nothing, "tx_sky_clear.dds", snow, false),
        Source::Nothing
    );
    assert_eq!(
        Source::read(nothing, "tx_bm_sky_blizzard.dds", nothing, true),
        Source::Nothing
    );
}

fn storm() -> Lightning {
    Lightning::read(
        Some(0.4f32.to_bits()),
        Some(0.6f32.to_bits()),
        Some(4.0f32.to_bits()),
    )
}

/// Whether a storm burns at a moment: a flash opens each interval and lasts what its decrement buys.
fn burns(storm: Lightning, now: f32) -> bool {
    if !storm.strikes() {
        return false;
    }
    let interval = 1.0 / f32::from_bits(storm.frequency);
    now % interval < 1.0 / f32::from_bits(storm.decrement)
}

#[test]
fn a_weather_the_ini_gives_no_thunder_never_flashes() {
    assert!(!Lightning::none().strikes());
    assert!(!Lightning::read(None, None, None).strikes());
    assert!(!Lightning::read(Some(0), None, None).strikes());
    for second in 0..200 {
        assert!(
            !burns(Lightning::none(), second as f32 * 0.05),
            "clear weather flashed at {second}"
        );
    }
    assert!(storm().strikes());
    // A decrement is never so small that a flash outlasts its storm.
    let slow = Lightning::read(Some(0.4f32.to_bits()), None, Some(0));
    assert_eq!(f32::from_bits(slow.decrement), 0.1);
    assert_eq!(f32::from_bits(slow.threshold), 0.6);
}

#[test]
fn the_four_shapes_come_in_the_proportions_nature_gives_them() {
    let mut seen = [0; 4];
    for index in 0..1_000 {
        seen[match Drawing::of(index).kind {
            Discharge::ToGround => 0,
            Discharge::Crawler => 1,
            Discharge::InCloud => 2,
            Discharge::Sheet => 3,
        }] += 1;
    }
    let [ground, crawler, in_cloud, sheet] = seen;
    assert!(
        (180..=260).contains(&ground),
        "about a fifth should reach the ground, not {ground} of a thousand"
    );
    assert!(
        sheet > ground + crawler + in_cloud,
        "most should never leave the cloud — {sheet} against {ground}, {crawler}, {in_cloud}"
    );
    assert!(
        (70..=150).contains(&crawler),
        "about a tenth should crawl the deck, not {crawler}"
    );
}

#[test]
fn a_discharge_is_the_share_of_the_draw_it_falls_in() {
    assert_eq!(Discharge::of(0), Discharge::ToGround);
    assert_eq!(Discharge::of(3_690_987), Discharge::ToGround);
    assert_eq!(Discharge::of(3_690_988), Discharge::Crawler);
    assert_eq!(Discharge::of(5_536_482), Discharge::InCloud);
    assert_eq!(Discharge::of(7_549_747), Discharge::Sheet);
    assert_eq!(Discharge::of(u32::MAX), Discharge::Sheet);
    // The shares end at 0.22, 0.33 and 0.45 of a whole, compared as single-precision numbers.
    let draw = |roll: u32| roll as f32 / 16_777_216.0;
    assert!(draw(3_690_987) < 0.22 && draw(3_690_988) >= 0.22);
    assert!(draw(5_536_481) < 0.33 && draw(5_536_482) >= 0.33);
    assert!(draw(7_549_746) < 0.45 && draw(7_549_747) >= 0.45);
}

#[test]
fn the_first_flash_of_a_storm_is_no_different_from_any_other() {
    // A mixer that fixes nought would give the first flash a seed of all zeroes, and so a single
    // stroke every time.
    assert_ne!(hash(0), 0);
    assert!(
        Drawing::of(0).strokes > 1,
        "the first flash should re-strike like any other"
    );
}

#[test]
fn no_two_flashes_are_drawn_from_the_same_shape() {
    let seeds: std::collections::HashSet<u32> =
        (0..200).map(|index| Drawing::of(index).shape).collect();
    assert_eq!(
        seeds.len(),
        200,
        "two hundred flashes want two hundred shapes"
    );
}

#[test]
fn a_flash_stutters_as_many_times_as_it_draws() {
    let counted = (0..200).filter(|i| Drawing::of(*i).strokes > 1).count();
    assert!(counted > 120, "{counted} of 200");
    assert!((0..200).all(|i| (1..=4).contains(&Drawing::of(i).strokes)));
}

#[test]
fn asking_for_a_bolt_never_hands_back_one_with_no_channel() {
    for step in 0..400u64 {
        let kinds: Vec<Discharge> = (step..step + 24).map(|i| Drawing::of(i).kind).collect();
        // Every heading: what stands ahead is whatever is drawn in this half of the compass.
        let ahead: Vec<bool> = (step..step + 24)
            .map(|i| (Drawing::of(i).bearing as u64 / 8_388_608 + step) % 2 == 0)
            .collect();
        let staged = stage(&kinds, &ahead).expect("a minute of storm has a channel in it");
        assert_ne!(
            kinds[staged],
            Discharge::Sheet,
            "a bolt was asked for and a sheet flash came back, at {step}"
        );
    }
    // A channel behind you is worth more than no channel in front of you, and one in front more
    // than one behind.
    let kinds = vec![Discharge::Sheet, Discharge::InCloud, Discharge::ToGround];
    assert_eq!(stage(&kinds, &vec![true, false, false]), Some(1));
    assert_eq!(stage(&kinds, &vec![true, false, true]), Some(2));
    assert_eq!(stage(&vec![Discharge::Sheet], &vec![true]), None);
}

#[test]
fn the_same_second_draws_the_same_storm() {
    let index = (37.55f32 * f32::from_bits(storm().frequency)).floor() as u64;
    let once = Drawing::of(index);
    let again = Drawing::of(index);
    assert_eq!(once.kind, again.kind);
    assert_eq!(once.shape, again.shape);
    assert_eq!(once.bearing, again.bearing);
    assert_eq!(once.restrikes, again.restrikes);
    assert!(burns(storm(), 37.55), "37.55 should land inside a flash");
}
