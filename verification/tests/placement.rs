use exifmv::placement::{
    discard_source, files_match, DiscardAction, MatchCheck, MoveAction, MoveFile, MoveOptions,
    Outcome,
};

fn opts(checksum: bool, dry_run: bool) -> MoveOptions {
    MoveOptions { checksum, dry_run, remove_source: false, trash_source: false }
}

fn resolve_name_of(a: &MoveAction) -> &[u8] {
    match a {
        MoveAction::ResolveName(t) => t.as_slice(),
        _ => panic!("expected a name to resolve"),
    }
}

#[test]
fn files_match_rules() {
    assert_eq!(files_match(10, 11, false), MatchCheck::Decided(false));
    assert_eq!(files_match(10, 11, true), MatchCheck::Decided(false));
    // Same-size different-content photos are taken for duplicates by default.
    assert_eq!(files_match(10, 10, false), MatchCheck::Decided(true));
    assert_eq!(files_match(10, 10, true), MatchCheck::CompareHashes);
}

#[test]
fn discard_source_rules() {
    assert_eq!(discard_source(true, true, true), DiscardAction::Keep);
    assert_eq!(discard_source(false, true, true), DiscardAction::Remove);
    assert_eq!(discard_source(false, false, true), DiscardAction::Trash);
    assert_eq!(discard_source(false, false, false), DiscardAction::Keep);
}

#[test]
fn move_already_in_place() {
    let (_, a) = MoveFile::start(b"x/a.jpg", b"x//a.jpg", opts(false, false));
    match a {
        MoveAction::Finish(Outcome::AlreadyInPlace(p)) => assert_eq!(p, b"x//a.jpg"),
        _ => panic!("expected in place"),
    }
}

#[test]
fn move_to_free_destination() {
    let (mut m, a) = MoveFile::start(b"in/a.jpg", b"out/a.jpg", opts(false, false));
    assert!(matches!(a, MoveAction::ReadSourceSize));
    let a = m.on_source_size(100);
    assert_eq!(resolve_name_of(&a), b"out/a.jpg");
    match m.on_occupant(None) {
        MoveAction::Finish(Outcome::Place { target, renamed, perform_move }) => {
            assert_eq!(target, b"out/a.jpg");
            assert!(!renamed);
            assert!(perform_move);
        }
        _ => panic!("expected placement"),
    }
}

#[test]
fn move_collision_gets_numbered_name() {
    let (mut m, _) = MoveFile::start(b"in/IMG_1234.jpg", b"out/IMG_1234.jpg", opts(false, true));
    m.on_source_size(100);
    let a = m.on_occupant(Some(&b"out/IMG_1234.jpg"[..]));
    match &a {
        MoveAction::ReadOccupantSize(p) => assert_eq!(p, b"out/IMG_1234.jpg"),
        _ => panic!("expected size read"),
    }
    let a = m.on_occupant_size(99);
    assert_eq!(resolve_name_of(&a), b"out/IMG_1234_1.jpg");
    m.on_occupant(Some(&b"out/IMG_1234_1.jpg"[..]));
    let a = m.on_occupant_size(98);
    assert_eq!(resolve_name_of(&a), b"out/IMG_1234_2.jpg");
    match m.on_occupant(None) {
        MoveAction::Finish(Outcome::Place { target, renamed, perform_move }) => {
            assert_eq!(target, b"out/IMG_1234_2.jpg");
            assert!(renamed);
            assert!(!perform_move);
        }
        _ => panic!("expected placement"),
    }
}

#[test]
fn move_duplicate_detected_by_size() {
    let options = MoveOptions { checksum: false, dry_run: false, remove_source: false, trash_source: true };
    let (mut m, _) = MoveFile::start(b"in/a.jpg", b"out/a.jpg", options);
    m.on_source_size(100);
    m.on_occupant(Some(&b"out/a.jpg"[..]));
    let a = m.on_occupant_size(99);
    assert_eq!(resolve_name_of(&a), b"out/a_1.jpg");
    m.on_occupant(Some(&b"out/a_1.jpg"[..]));
    match m.on_occupant_size(100) {
        MoveAction::Finish(Outcome::Duplicate { target, discard }) => {
            assert_eq!(target, b"out/a_1.jpg");
            assert_eq!(discard, DiscardAction::Trash);
        }
        _ => panic!("expected duplicate"),
    }
}

#[test]
fn move_duplicate_detected_by_checksum() {
    let (mut m, _) = MoveFile::start(b"in/a.jpg", b"out/a.jpg", opts(true, false));
    m.on_source_size(100);
    m.on_occupant(Some(&b"out/a.jpg"[..]));
    match m.on_occupant_size(100) {
        MoveAction::HashFiles(p) => assert_eq!(p, b"out/a.jpg"),
        _ => panic!("expected hashing"),
    }
    let a = m.on_hashes(1, 2);
    assert_eq!(resolve_name_of(&a), b"out/a_1.jpg");
    m.on_occupant(Some(&b"in/other.jpg"[..]));
    m.on_occupant_size(100);
    match m.on_hashes(5, 5) {
        MoveAction::Finish(Outcome::Duplicate { target, discard }) => {
            assert_eq!(target, b"out/a_1.jpg");
            assert_eq!(discard, DiscardAction::Keep);
        }
        _ => panic!("expected duplicate"),
    }
}

#[test]
fn move_numbering_walks_onto_source() {
    let (mut m, _) = MoveFile::start(b"out/a_1.jpg", b"out/a.jpg", opts(false, false));
    m.on_source_size(100);
    m.on_occupant(Some(&b"out/a.jpg"[..]));
    match m.on_occupant_size(5) {
        MoveAction::Finish(Outcome::AlreadyInPlace(p)) => assert_eq!(p, b"out/a_1.jpg"),
        _ => panic!("expected in place"),
    }
}

#[test]
fn move_counts_attempts() {
    let (mut m, _) = MoveFile::start(b"in/a.jpg", b"out/a.jpg", opts(false, false));
    assert_eq!(m.attempts(), 0);
    m.on_source_size(1);
    m.on_occupant(Some(&b"out/a.jpg"[..]));
    m.on_occupant_size(2);
    assert_eq!(m.attempts(), 1);
    m.on_occupant(Some(&b"out/a_1.jpg"[..]));
    m.on_occupant_size(3);
    assert_eq!(m.attempts(), 2);
}
