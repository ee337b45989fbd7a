use rtxmw::vfs::bsa_image::build_bsa;
use rtxmw::vfs::game_data::morrowind_archives;
use rtxmw::vfs::{
    ArchiveFault, ArchiveSource, BsaArchive, DirectoryArchive, FileLocation, FoundFile,
    NormalizedPath, Vfs, VfsError,
};

const FILES: &[(&str, &[u8])] = &[
    (r"meshes\a.nif", b"first"),
    (r"Textures\B.DDS", b"second contents"),
    ("readme.txt", b""),
];

fn open(image: &[u8]) -> BsaArchive {
    BsaArchive::open("test.bsa", image).expect("archive should open")
}

fn directory(root: &str, files: &[&str]) -> DirectoryArchive {
    let found: Vec<FoundFile> = files
        .iter()
        .map(|file| FoundFile {
            relative: file.to_string(),
            on_disk: format!("{root}/{file}"),
        })
        .collect();
    DirectoryArchive::open(root, &found)
}

/// Reads a path whose sources are archives held in memory.
fn read(vfs: &Vfs, images: &[&[u8]], path: &str) -> Vec<u8> {
    let at = vfs.locate(path).expect("should resolve");
    match vfs.source(at.source) {
        ArchiveSource::Bsa(archive) => archive.read(images[at.source as usize], at.entry as usize),
        ArchiveSource::Directory(_) => panic!("expected an archive"),
    }
}

/// Where a path's contents are.
#[derive(Debug, PartialEq)]
enum Contents {
    Packed(usize, usize),
    Loose(String),
}

fn contents(vfs: &Vfs, path: &str) -> Contents {
    let at = vfs.locate(path).expect("should resolve");
    let entry = at.entry as usize;
    match vfs.source(at.source) {
        ArchiveSource::Bsa(archive) => Contents::Packed(
            archive.entry_offset(entry) as usize,
            archive.entry_size(entry) as usize,
        ),
        ArchiveSource::Directory(directory) => {
            Contents::Loose(directory.entry_on_disk(entry).to_owned())
        }
    }
}

#[test]
fn reads_names_sizes_and_contents() {
    let image = build_bsa(FILES);
    let archive = open(&image);

    assert_eq!(archive.len(), 3);
    assert!(!archive.is_empty());

    let expected = [r"meshes\a.nif", r"Textures\B.DDS", "readme.txt"];
    for (index, want) in expected.iter().enumerate() {
        assert_eq!(archive.entry_name(index), NormalizedPath::new(want).as_str());
    }

    assert_eq!(archive.entry_size(0), 5);
    assert_eq!(archive.read(&image, 0), b"first");
    assert_eq!(archive.read(&image, 1), b"second contents");
    // A zero-length entry is legal and must read back as empty rather than failing.
    assert_eq!(archive.entry_size(2), 0);
    assert_eq!(archive.read(&image, 2), b"");
    assert_eq!(archive.path(), "test.bsa");
    // Header, three directory entries, the names, three hashes.
    assert_eq!(archive.entry_offset(0), 12 + 36 + 13 + 15 + 11 + 24);
}

#[test]
fn rejects_a_foreign_magic() {
    let mut image = build_bsa(FILES);
    // "BSA\0" — a later archive, which this reader must not attempt.
    image[0..4].copy_from_slice(&0x0041_5342u32.to_le_bytes());
    let error = BsaArchive::open("magic", &image).expect_err("foreign magic must be rejected");
    assert!(
        matches!(
            &error,
            VfsError::Malformed {
                archive,
                reason: ArchiveFault::ForeignMagic { found: 0x0041_5342 }
            } if archive == "magic"
        ),
        "expected Malformed, got {error:?}"
    );
}

#[test]
fn rejects_a_file_count_that_cannot_fit() {
    let mut image = build_bsa(FILES);
    image[8..12].copy_from_slice(&1_000_000u32.to_le_bytes());
    let error = BsaArchive::open("count", &image).expect_err("impossible file count must be rejected");
    assert!(matches!(
        error,
        VfsError::Malformed {
            reason: ArchiveFault::DirectoryDoesNotFit {
                file_count: 1_000_000,
                ..
            },
            ..
        }
    ));
}

#[test]
fn rejects_an_entry_pointing_past_the_end() {
    let mut image = build_bsa(FILES);
    // The first entry's data offset sits right after the 12-byte header.
    image[12 + 4..12 + 8].copy_from_slice(&0xFFFF_0000u32.to_le_bytes());
    let error = BsaArchive::open("offset", &image).expect_err("out-of-range offset must be rejected");
    assert!(matches!(
        error,
        VfsError::Malformed {
            reason: ArchiveFault::PastTheEnd { file: 0 },
            ..
        }
    ));
}

#[test]
fn rejects_a_truncated_archive() {
    let image = build_bsa(FILES);
    let error = BsaArchive::open("truncated", &image[..image.len() / 2])
        .expect_err("truncation must be rejected");
    assert!(
        matches!(error, VfsError::Malformed { .. } | VfsError::Io { .. }),
        "expected Malformed or Io, got {error:?}"
    );
    let error = BsaArchive::open("stub", &image[..8]).expect_err("a stub must be rejected");
    assert!(matches!(error, VfsError::Io { path, .. } if path == "stub"));
}

#[test]
fn rejects_a_name_outside_the_buffer_and_one_without_an_end() {
    let mut image = build_bsa(FILES);
    // The second name offset: after the header, three size-offset pairs and the first one.
    let at = 12 + 24 + 4;
    image[at..at + 4].copy_from_slice(&39u32.to_le_bytes());
    assert!(matches!(
        BsaArchive::open("name", &image),
        Err(VfsError::Malformed {
            reason: ArchiveFault::NameOutside { file: 1 },
            ..
        })
    ));

    let mut image = build_bsa(FILES);
    // The terminator of the last name, which is the last byte of the directory.
    image[12 + 36 + 13 + 15 + 10] = b'x';
    assert!(matches!(
        BsaArchive::open("name", &image),
        Err(VfsError::Malformed {
            reason: ArchiveFault::NameUnterminated { file: 2 },
            ..
        })
    ));
}

#[test]
fn a_name_that_is_not_utf8_is_read_with_replacements() {
    let mut image = build_bsa(&[("Ab.nif", b"x")]);
    image[12 + 12 + 1] = 0xFF;
    assert_eq!(open(&image).entry_name(0), "a\u{FFFD}.nif");
    let accented = build_bsa(&[(r"Meshes\Ä.NIF", b"x")]);
    assert_eq!(open(&accented).entry_name(0), "meshes/Ä.nif");
}

#[test]
fn indexes_nested_files_with_normalized_names() {
    let archive = directory("root", &["top.txt", "meshes/sub/B.nif", "Meshes/A.NIF"]);

    assert_eq!(archive.len(), 3);
    let names: Vec<_> = (0..archive.len()).map(|i| archive.entry_name(i)).collect();
    // Sorted and normalized.
    assert_eq!(names, ["meshes/a.nif", "meshes/sub/b.nif", "top.txt"]);
    assert_eq!(archive.path(), "root");
}

#[test]
fn reads_contents_through_the_original_on_disk_spelling() {
    let archive = directory("case", &["Meshes/A.NIF"]);

    // Indexed lowercase, but the file on disk is not — reading must still find it.
    assert_eq!(archive.entry_name(0), "meshes/a.nif");
    assert_eq!(archive.entry_on_disk(0), "case/Meshes/A.NIF");
}

#[test]
fn an_empty_directory_indexes_to_nothing() {
    let archive = directory("empty", &[]);

    assert!(archive.is_empty());
    assert_eq!(archive.len(), 0);
}

#[test]
fn files_are_in_one_order_however_they_were_found() {
    let arranged = ["root/A", "root/a", "root/b", "root/Z", "root/z"];
    for found in [["b", "A", "a", "Z", "z"], ["z", "a", "Z", "b", "A"], ["a", "A", "b", "z", "Z"]] {
        let archive = directory("root", &found);
        let files: Vec<_> = (0..archive.len()).map(|i| archive.entry_on_disk(i)).collect();
        assert_eq!(files, arranged);
    }
}

#[test]
fn a_duplicate_that_differs_only_in_case_resolves_the_same_way_on_every_run() {
    for found in [["Meshes/A.NIF", "meshes/a.nif"], ["meshes/a.nif", "Meshes/A.NIF"]] {
        let mut vfs = Vfs::new();
        vfs.add_directory(directory("root", &found));
        assert_eq!(contents(&vfs, "MESHES\\a.nif"), Contents::Loose("root/meshes/a.nif".to_owned()));
    }
}

#[test]
fn a_path_leads_to_the_contents_of_the_last_source_that_has_it() {
    let image = build_bsa(&[("a", b"first"), ("b", b"second"), ("A", b"third!")]);
    let mut vfs = Vfs::new();
    vfs.add_directory(directory("under", &["a", "c"]));
    vfs.add_bsa(open(&image));
    vfs.add_directory(directory("over", &["B"]));

    let Contents::Packed(offset, size) = contents(&vfs, "a") else {
        panic!("an archived file");
    };
    assert_eq!(&image[offset..offset + size], b"third!");
    assert_eq!(contents(&vfs, "b"), Contents::Loose("over/B".to_owned()));
    assert_eq!(contents(&vfs, "C"), Contents::Loose("under/c".to_owned()));
    assert!(vfs.locate("d").is_err());
    assert!(!vfs.contains("d"));
}

#[test]
fn resolves_regardless_of_case_or_separator() {
    let image = build_bsa(&[(r"Meshes\A.NIF", b"data")]);
    let mut vfs = Vfs::new();
    vfs.add_bsa(open(&image));

    assert!(vfs.contains(r"meshes\a.nif"));
    assert!(vfs.contains("MESHES/A.NIF"));
    assert!(vfs.contains("/meshes//a.nif"));
    assert_eq!(read(&vfs, &[&image], r"Meshes\A.NIF"), b"data");
}

#[test]
fn a_later_archive_overrides_an_earlier_one() {
    let first = build_bsa(&[("shared.txt", b"first")]);
    let second = build_bsa(&[("shared.txt", b"second"), ("only-second.txt", b"x")]);

    let mut vfs = Vfs::new();
    vfs.add_bsa(BsaArchive::open("first", &first).unwrap());
    vfs.add_bsa(BsaArchive::open("second", &second).unwrap());

    // Two archives, three entries, but only two distinct paths.
    assert_eq!(vfs.len(), 2);
    assert_eq!(read(&vfs, &[&first, &second], "shared.txt"), b"second");
    assert_eq!(vfs.source_of("shared.txt"), Some("second"));
    assert_eq!(vfs.source_of("absent.txt"), None);
}

#[test]
fn a_loose_file_overrides_an_archive_when_added_after_it() {
    let image = build_bsa(&[(r"textures\t.dds", b"packed")]);
    let mut vfs = Vfs::new();
    vfs.add_bsa(open(&image));
    vfs.add_directory(directory("loose", &["textures/T.DDS"]));

    assert_eq!(
        vfs.locate("textures/t.dds").unwrap(),
        FileLocation {
            source: 1,
            entry: 0
        }
    );
    assert_eq!(vfs.source_of("textures/t.dds"), Some("loose"));

    // Reversing the order reverses the winner — the rule is call order, not source kind.
    let mut reversed = Vfs::new();
    reversed.add_directory(directory("loose", &["textures/T.DDS"]));
    reversed.add_bsa(open(&image));
    assert_eq!(read(&reversed, &[&[], &image], "textures/t.dds"), b"packed");
}

#[test]
fn missing_paths_report_the_normalized_name() {
    let vfs = Vfs::new();
    assert!(vfs.is_empty());

    let error = vfs
        .locate(r"Meshes\Missing.NIF")
        .expect_err("should not resolve");
    match error {
        VfsError::NotFound(path) => assert_eq!(path, "meshes/missing.nif"),
        other => panic!("expected NotFound, got {other:?}"),
    }
}

#[test]
fn directory_listing_filters_to_whole_components() {
    let image = build_bsa(&[
        (r"meshes\a.nif", b"a"),
        (r"meshes\sub\b.nif", b"b"),
        (r"meshesx\c.nif", b"c"),
        (r"textures\d.dds", b"d"),
    ]);
    let mut vfs = Vfs::new();
    vfs.add_bsa(open(&image));

    let mut under: Vec<_> = vfs
        .paths_under("Meshes")
        .iter()
        .map(|p| p.as_str().to_string())
        .collect();
    under.sort();
    // "meshesx" must not match the "meshes" prefix.
    assert_eq!(under, ["meshes/a.nif", "meshes/sub/b.nif"]);

    assert_eq!(vfs.paths().len(), 4);
    assert!(!vfs.is_empty());
}

#[test]
fn of_two_entries_of_one_name_the_later_is_read() {
    let image = build_bsa(&[("A.txt", b"one"), ("b.txt", b"two"), ("a.TXT", b"three")]);
    let mut vfs = Vfs::new();
    vfs.push(ArchiveSource::Bsa(open(&image)));
    assert_eq!(vfs.len(), 2);
    assert_eq!(read(&vfs, &[&image], "a.txt"), b"three");
}

#[test]
fn a_loose_file_wins_over_every_installed_archive() {
    let base = build_bsa(&[("a.txt", b"base"), ("b.txt", b"base"), ("c.txt", b"base")]);
    let expansion = build_bsa(&[("B.txt", b"expansion"), ("c.txt", b"expansion")]);
    let vfs = morrowind_archives(
        Some(open(&base)),
        None,
        Some(open(&expansion)),
        directory("/data", &["C.txt"]),
    );
    assert_eq!(vfs.len(), 3);
    let source = |path: &str| vfs.locate(path).expect("should resolve").source;
    assert_eq!((source("a.txt"), source("b.txt"), source("c.txt")), (0, 1, 2));
    assert_eq!(vfs.source_of("c.txt"), Some("/data"));
}
