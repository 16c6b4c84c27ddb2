use exifmv::album::{album_from_components, album_from_name, album_from_path, is_container_folder};

fn album(path: &str) -> Option<String> {
    album_from_path(path.as_bytes())
}

#[test]
fn album_iphoto_exports() {
    let base = "Backups_Old/201903110930/Staging/2019-03-10/\
                iPhoto Exports/Album-0";
    for (dir, expected) in [
        ("2011-07-14--Iceland/Originals", "Iceland"),
        ("2012-03-09--Beach Weekend/Originals", "Beach Weekend"),
        ("2013-10-21--Garden", "Garden"),
        ("2014-06-02--Lake Cabin pics/Originals", "Lake Cabin pics"),
    ] {
        assert_eq!(album(&format!("{base}/{dir}")).as_deref(), Some(expected));
    }
}

#[test]
fn album_iphoto_library() {
    assert_eq!(
        album("Backups_Old/iPhoto Library/Modified/2011/Iceland").as_deref(),
        Some("Iceland")
    );
}

#[test]
fn album_skips_date_and_container_folders() {
    assert_eq!(album("Trips/2019/ORIGINALS").as_deref(), Some("Trips"));
    assert_eq!(album("Trips/2019-03-10").as_deref(), Some("Trips"));
    assert_eq!(album("Trips/201903110930").as_deref(), Some("Trips"));
    assert_eq!(album("2019/Originals"), None);
}

#[test]
fn album_date_prefix_variants() {
    assert_eq!(album("20110714 Iceland").as_deref(), Some("Iceland"));
    assert_eq!(album("2011_07_14_Iceland").as_deref(), Some("Iceland"));
    assert_eq!(album("2011.07.14 Iceland").as_deref(), Some("Iceland"));
    assert_eq!(album("Album-0").as_deref(), Some("Album-0"));
}

#[test]
fn album_container_names_any_case() {
    for name in ["Originals", "ORIGINAL", "modified", "MaStErS", "Previews", "THUMBNAILS", "Edited"] {
        assert_eq!(album_from_name(name), None, "{name}");
    }
    assert!(is_container_folder("originals"));
    assert!(!is_container_folder("Originals"));
    assert!(!is_container_folder("originalss"));
}

#[test]
fn album_trims_whitespace_and_skips_empty() {
    assert_eq!(album_from_name("  Summer \t").as_deref(), Some("Summer"));
    assert_eq!(album_from_name("2011-07-14 -  Summer  ").as_deref(), Some("Summer"));
    assert_eq!(album_from_name(""), None);
    assert_eq!(album_from_name("   "), None);
    assert_eq!(album_from_name("2011-07-14"), None);
    assert_eq!(album_from_name("12.5"), None);
}

#[test]
fn album_edge_paths() {
    assert_eq!(album(""), None);
    assert_eq!(album("a//b/./2011/"), Some("b".to_string()));
    assert_eq!(album("Holidays/.."), Some("Holidays".to_string()));
    // The root component stands for itself, as `Path::components` gives it.
    assert_eq!(album("/2019/Originals"), Some("/".to_string()));
}

#[test]
fn album_from_components_skips_non_unicode() {
    let parts = vec![Some("Trips".to_string()), None, Some("2019".to_string())];
    assert_eq!(album_from_components(&parts).as_deref(), Some("Trips"));
    let none: Vec<Option<String>> = vec![None, Some("Originals".to_string())];
    assert_eq!(album_from_components(&none), None);
}

#[test]
fn album_skips_components_that_are_not_unicode() {
    assert_eq!(album_from_path(b"Trips/\xff\xfe/2019").as_deref(), Some("Trips"));
    assert_eq!(album_from_path(b"\xffTrips"), None);
}

#[test]
fn album_same_path_spellings() {
    assert_eq!(album("Trips//2019/./Originals/"), album("Trips/2019/Originals"));
    assert_eq!(album("Trips//2019/./Originals/").as_deref(), Some("Trips"));
}

#[test]
fn album_joined_skipped_folder_keeps_album() {
    for dir in ["Trips", "/photos/2011-07-14--Iceland", "Trips/Beach", "2011"] {
        for skipped in ["2019", "2019-03-10", "Originals", "MODIFIED", "12.5"] {
            assert_eq!(album(&format!("{dir}/{skipped}")), album(dir), "{dir}/{skipped}");
        }
    }
    assert_eq!(album_from_path(b"Trips/\xff").as_deref(), Some("Trips"));
}
