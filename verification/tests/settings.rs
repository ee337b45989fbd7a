use rtxmw::name_map::NameMap;
use rtxmw::scene::decimal::push_decimal;
use rtxmw::vfs::game_data::{Configured, Entry, DATA_DIR_VAR};

#[test]
fn the_environment_says_before_any_file_does() {
    let said = Configured::find(Some("/games".into()), Some(b"MORROWIND_DATA_DIR=/elsewhere"));
    assert_eq!(said.directory.as_deref(), Some("/games"));
    assert!(said.unreadable.is_empty());
    assert!(Configured::find(None, None).directory.is_none());
}

#[test]
fn a_settings_file_is_read_for_its_own_key() {
    let file = b"# where things are\nOTHER=1\nMORROWIND_DATA_DIR=\"/opt/game data\"\n";
    let said = Configured::find(None, Some(file));
    assert_eq!(said.directory.as_deref(), Some("/opt/game data"));

    let said = Configured::find(None, Some(b"OTHER=1\n"));
    assert_eq!(said.directory, None);
    assert!(said.unreadable.is_empty());
}

#[test]
fn a_line_that_cannot_be_read_is_reported() {
    // A value with a space in it wants quotes.
    let said = Configured::find(None, Some(b"MORROWIND_DATA_DIR=/opt/game data\n"));
    assert_eq!(said.directory, None);
    assert_eq!(said.unreadable.len(), 1);
}

#[test]
fn what_could_not_be_read_before_the_key_is_told() {
    let file = b"A=b c\nB\nMORROWIND_DATA_DIR=/games\nD=e f\n";
    let said = Configured::find(None, Some(file));
    assert_eq!(said.directory.as_deref(), Some("/games"));
    assert_eq!(said.unreadable, ["b c", "B"]);

    // A line that is no text at all cannot be told, and stops nothing.
    let file = b"\xFF=1\nexport MORROWIND_DATA_DIR=/games\n";
    let said = Configured::find(None, Some(file));
    assert_eq!(said.directory.as_deref(), Some("/games"));
    assert!(said.unreadable.is_empty());
}

#[test]
fn only_a_file_that_sets_the_key_says_where_the_data_is() {
    for file in [
        b"".as_slice(),
        b"# MORROWIND_DATA_DIR=/games\n",
        b"OTHER=MORROWIND_DATA_DIR\n",
        b"MORROWIND_DATA_DIRECTORY=/games\n",
        b"morrowind_data_dir=/games\n",
    ] {
        assert_eq!(Configured::find(None, Some(file)).directory, None);
    }
    // Whatever the environment holds, a value that names a variable is a value.
    let file = b"MORROWIND_DATA_DIR=$NO_SUCH_VARIABLE_HERE\n";
    assert!(Configured::find(None, Some(file)).directory.is_some());
}

#[test]
fn the_first_value_of_the_key_is_taken() {
    let pair = |key: &str, value: &str| Entry::Pair(key.into(), value.into());
    let said = Configured::among(&vec![
        Entry::Lost,
        Entry::Unreadable("A=b c".into()),
        pair(DATA_DIR_VAR, "/first"),
        Entry::Unreadable("D=e f".into()),
        pair(DATA_DIR_VAR, "/second"),
    ]);
    assert_eq!(said.directory.as_deref(), Some("/first"));
    assert_eq!(said.unreadable, ["A=b c"]);
}

#[test]
fn a_name_holds_one_value() {
    let mut map: NameMap<u32> = NameMap::new();
    map.insert("b", 1);
    map.insert("a", 2);
    map.insert("b", 3);
    assert_eq!(map.get("b"), Some(&3));
    assert_eq!(map.get("a"), Some(&2));
    assert_eq!(map.get("c"), None);
    assert_eq!(map.len(), 2);
}

#[test]
fn a_number_is_written_in_decimal() {
    for n in [0, 7, -7, 10, -120, i32::MAX, i32::MIN] {
        let mut out: Vec<char> = vec!['='];
        push_decimal(&mut out, n);
        assert_eq!(out.iter().collect::<String>(), format!("={n}"));
    }
}
