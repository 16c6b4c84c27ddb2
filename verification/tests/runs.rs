use std::collections::HashMap;

use exifmv::claims::{placeholder_created, resolve_name, ClaimRegistry, NameResolution, PlaceholderOutcome};
use exifmv::hashing::hash_contents;
use exifmv::path::components;
use exifmv::placement::{DiscardAction, MoveAction, MoveFile, MoveOptions, Outcome};

type Disk = HashMap<Vec<Vec<u8>>, Vec<u8>>;

/// An outcome as the run reports it: what it is, where, and whether the
/// file is really moved or discarded.
#[derive(Debug, PartialEq)]
enum Report {
    InPlace(String),
    Duplicate(String, bool),
    Place(String, bool, bool),
}

fn key(p: &[u8]) -> Vec<Vec<u8>> {
    components(p)
}

fn text(p: &[u8]) -> String {
    String::from_utf8(p.to_vec()).unwrap()
}

fn lookup(disk: &mut Disk, claims: &mut ClaimRegistry, target: &[u8], source: &[u8], dry_run: bool) -> Option<Vec<u8>> {
    let mut on_disk = None;
    loop {
        match resolve_name(claims, target, source, dry_run, on_disk) {
            NameResolution::Wait => panic!("no move is in flight"),
            NameResolution::Occupied(p) => return Some(p),
            NameResolution::CheckDisk => on_disk = Some(disk.contains_key(&key(target))),
            NameResolution::Free => return None,
            NameResolution::CreatePlaceholder => {
                let outcome = if disk.contains_key(&key(target)) {
                    PlaceholderOutcome::AlreadyExists
                } else {
                    disk.insert(key(target), Vec::new());
                    PlaceholderOutcome::Created
                };
                match placeholder_created(claims, target, outcome) {
                    Ok(NameResolution::Free) => return None,
                    Ok(NameResolution::Occupied(p)) => return Some(p),
                    _ => panic!("unexpected placeholder result"),
                }
            }
        }
    }
}

fn move_one(disk: &mut Disk, claims: &mut ClaimRegistry, source: &[u8], dest: &[u8], options: MoveOptions) -> Report {
    let (mut m, mut action) = MoveFile::start(source, dest, options);
    loop {
        action = match action {
            MoveAction::ReadSourceSize => m.on_source_size(disk[&key(source)].len() as u64),
            MoveAction::ResolveName(t) => {
                let occupant = lookup(disk, claims, &t, source, options.dry_run);
                m.on_occupant(occupant.as_deref())
            }
            MoveAction::ReadOccupantSize(p) => m.on_occupant_size(disk[&key(&p)].len() as u64),
            MoveAction::HashFiles(p) => {
                m.on_hashes(hash_contents(&disk[&key(source)]), hash_contents(&disk[&key(&p)]))
            }
            MoveAction::Finish(o) => {
                return match o {
                    Outcome::AlreadyInPlace(p) => Report::InPlace(text(&p)),
                    Outcome::Duplicate { target, discard } => {
                        if discard != DiscardAction::Keep {
                            disk.remove(&key(source));
                        }
                        Report::Duplicate(text(&target), discard != DiscardAction::Keep)
                    }
                    Outcome::Place { target, renamed, perform_move } => {
                        if perform_move {
                            let data = disk.remove(&key(source)).unwrap();
                            disk.insert(key(&target), data);
                            claims.remove(&target);
                        }
                        Report::Place(text(&target), renamed, perform_move)
                    }
                };
            }
        };
    }
}

fn run(disk: &mut Disk, files: &[(&str, &str)], options: MoveOptions) -> Vec<Report> {
    let mut claims = ClaimRegistry::new();
    files
        .iter()
        .map(|(s, d)| move_one(disk, &mut claims, s.as_bytes(), d.as_bytes(), options))
        .collect()
}

fn start_disk() -> Disk {
    let mut disk = Disk::new();
    disk.insert(key(b"out/IMG.jpg"), b"AAAAA".to_vec());
    disk.insert(key(b"in/a/IMG.jpg"), b"BBB".to_vec());
    disk.insert(key(b"in/b/IMG.jpg"), b"BBB".to_vec());
    disk.insert(key(b"in/c/IMG.jpg"), b"CCCC".to_vec());
    disk.insert(key(b"in/d/IMG.jpg"), b"AAAAA".to_vec());
    disk
}

const FILES: [(&str, &str); 4] = [
    ("in/a/IMG.jpg", "out/IMG.jpg"),
    ("in/b/IMG.jpg", "out/IMG.jpg"),
    ("in/c/IMG.jpg", "out//IMG.jpg"),
    ("in/d/IMG.jpg", "out/./IMG.jpg"),
];

fn options(checksum: bool, dry_run: bool) -> MoveOptions {
    MoveOptions { checksum, dry_run, remove_source: true, trash_source: false }
}

fn erased(r: &Report) -> Report {
    match r {
        Report::InPlace(p) => Report::InPlace(p.clone()),
        Report::Duplicate(p, _) => Report::Duplicate(p.clone(), false),
        Report::Place(p, renamed, _) => Report::Place(p.clone(), *renamed, false),
    }
}

#[test]
fn real_run_numbers_collisions_and_finds_duplicates() {
    let mut disk = start_disk();
    let reports = run(&mut disk, &FILES, options(true, false));
    assert_eq!(
        reports,
        vec![
            Report::Place("out/IMG_1.jpg".to_string(), true, true),
            Report::Duplicate("out/IMG_1.jpg".to_string(), true),
            Report::Place("out/IMG_2.jpg".to_string(), true, true),
            Report::Duplicate("out/./IMG.jpg".to_string(), true),
        ]
    );
    assert_eq!(disk[&key(b"out/IMG_1.jpg")], b"BBB".to_vec());
    assert_eq!(disk[&key(b"out/IMG_2.jpg")], b"CCCC".to_vec());
    assert_eq!(disk.len(), 3);
}

#[test]
fn dry_run_reports_the_names_of_a_real_run() {
    for checksum in [false, true] {
        let mut real_disk = start_disk();
        let real = run(&mut real_disk, &FILES, options(checksum, false));
        let mut dry_disk = start_disk();
        let dry = run(&mut dry_disk, &FILES, options(checksum, true));
        assert_eq!(dry.len(), real.len());
        for (r, d) in real.iter().zip(dry.iter()) {
            assert_eq!(erased(r), erased(d));
        }
        assert_eq!(dry_disk, start_disk(), "a dry run changes nothing on disk");
    }
}

#[test]
fn existing_file_is_never_overwritten() {
    let mut disk = start_disk();
    run(&mut disk, &FILES, options(false, false));
    assert_eq!(disk[&key(b"out/IMG.jpg")], b"AAAAA".to_vec());
}

#[test]
fn rerun_adds_no_copies() {
    let mut disk = start_disk();
    run(&mut disk, &FILES, options(true, false));
    let before = disk.len();
    disk.insert(key(b"in/e/IMG.jpg"), b"CCCC".to_vec());
    let again = run(&mut disk, &[("in/e/IMG.jpg", "out/IMG.jpg")], options(true, false));
    assert_eq!(again, vec![Report::Duplicate("out/IMG_2.jpg".to_string(), true)]);
    assert_eq!(disk.len(), before);
}
