use rtxmw::vfs::NormalizedPath;

#[test]
fn folds_case_and_separators() {
    assert_eq!(
        NormalizedPath::new(r"Meshes\Base_Anim.NIF").as_str(),
        "meshes/base_anim.nif"
    );
    assert_eq!(
        NormalizedPath::new("MESHES/BASE_ANIM.NIF"),
        NormalizedPath::new(r"meshes\base_anim.nif")
    );
}

#[test]
fn drops_leading_and_repeated_separators() {
    assert_eq!(
        NormalizedPath::new("/meshes//x.nif").as_str(),
        "meshes/x.nif"
    );
    assert_eq!(
        NormalizedPath::new(r"\\meshes\\\x.nif").as_str(),
        "meshes/x.nif"
    );
    assert_eq!(NormalizedPath::new("///").as_str(), "");
}

#[test]
fn folds_ascii_only_and_leaves_other_characters_untouched() {
    // Only ASCII is folded, matching the game. Unicode folding is not
    // round-trippable, so applying it would let two distinct archive names collide.
    let normalized = NormalizedPath::new("AÄB");
    assert_eq!(normalized.as_str(), "aÄb");
}

#[test]
fn extracts_file_name_and_extension() {
    let path = NormalizedPath::new(r"Textures\Tx_Wood_01.DDS");
    assert_eq!(path.file_name(), Some("tx_wood_01.dds"));
    assert_eq!(path.extension(), Some("dds"));

    let bare = NormalizedPath::new("readme");
    assert_eq!(bare.file_name(), Some("readme"));
    assert_eq!(bare.extension(), None);

    assert_eq!(NormalizedPath::new("").file_name(), None);
    assert_eq!(NormalizedPath::new("").extension(), None);
}

#[test]
fn directory_prefix_matches_whole_components_only() {
    let path = NormalizedPath::new("meshes/f/furn_ex.nif");
    assert!(path.starts_with_directory(&NormalizedPath::new("Meshes")));
    assert!(path.starts_with_directory(&NormalizedPath::new(r"meshes\f")));
    assert!(path.starts_with_directory(&NormalizedPath::new("")));

    // "mesh" is not a component of "meshes/..." and must not match.
    assert!(!path.starts_with_directory(&NormalizedPath::new("mesh")));
    assert!(!path.starts_with_directory(&NormalizedPath::new("textures")));
    // The file itself is not inside itself.
    assert!(!path.starts_with_directory(&NormalizedPath::new("meshes/f/furn_ex.nif")));
}

#[test]
fn from_normalized_agrees_with_new_for_already_normalized_input() {
    let normalized = NormalizedPath::new(r"Meshes\A.NIF");
    assert_eq!(
        NormalizedPath::from_normalized(normalized.as_str()),
        normalized
    );
}

#[test]
fn normalizing_a_normalized_path_changes_nothing() {
    let once = NormalizedPath::new(r"\Meshes\\X/Ä.NIF\");
    assert_eq!(once.as_str(), "meshes/x/Ä.nif/");
    let twice = NormalizedPath::new(once.as_str());
    assert!(once.is_same(&twice));
    assert!(!once.is_same(&NormalizedPath::new("meshes/x")));
}
