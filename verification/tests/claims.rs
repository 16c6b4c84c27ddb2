use exifmv::claims::{
    placeholder_created, resolve_name, Claim, ClaimRegistry, NameResolution, PlaceholderOutcome,
};
use exifmv::errors::{file_size, UtilError};

#[test]
fn dry_run_claims_are_remembered() {
    let mut claims = ClaimRegistry::new();
    assert!(matches!(resolve_name(&mut claims, b"out/a.jpg", b"in/1.jpg", true, None), NameResolution::CheckDisk));
    assert!(matches!(resolve_name(&mut claims, b"out/a.jpg", b"in/1.jpg", true, Some(false)), NameResolution::Free));
    match resolve_name(&mut claims, b"out//a.jpg", b"in/2.jpg", true, None) {
        NameResolution::Occupied(p) => assert_eq!(p, b"in/1.jpg"),
        _ => panic!("expected the first source"),
    }
    match claims.get(b"./out/a.jpg") {
        None => {}
        Some(_) => panic!("a leading `.` makes another path"),
    }
}

#[test]
fn existing_file_occupies_name() {
    let mut claims = ClaimRegistry::new();
    match resolve_name(&mut claims, b"out/a.jpg", b"in/1.jpg", false, Some(true)) {
        NameResolution::Occupied(p) => assert_eq!(p, b"out/a.jpg"),
        _ => panic!("expected occupied"),
    }
    assert!(claims.get(b"out/a.jpg").is_none());
}

#[test]
fn in_flight_claims_make_others_wait() {
    let mut claims = ClaimRegistry::new();
    assert!(matches!(
        resolve_name(&mut claims, b"out/a.jpg", b"in/1.jpg", false, Some(false)),
        NameResolution::CreatePlaceholder
    ));
    assert!(matches!(
        placeholder_created(&mut claims, b"out/a.jpg", PlaceholderOutcome::Created),
        Ok(NameResolution::Free)
    ));
    assert!(matches!(claims.get(b"out/a.jpg"), Some(Claim::InFlight)));
    assert!(matches!(resolve_name(&mut claims, b"out/./a.jpg", b"in/2.jpg", false, None), NameResolution::Wait));
    claims.remove(b"out/a.jpg");
    assert!(claims.get(b"out/a.jpg").is_none());
    assert!(matches!(resolve_name(&mut claims, b"out/a.jpg", b"in/2.jpg", false, None), NameResolution::CheckDisk));
}

#[test]
fn placeholder_outcomes() {
    let mut claims = ClaimRegistry::new();
    match placeholder_created(&mut claims, b"o/b.jpg", PlaceholderOutcome::AlreadyExists) {
        Ok(NameResolution::Occupied(p)) => assert_eq!(p, b"o/b.jpg"),
        _ => panic!("expected occupied"),
    }
    match placeholder_created(&mut claims, b"o/b.jpg", PlaceholderOutcome::Failed) {
        Err(e) => assert_eq!(e.message(), b"Unable to create 'o/b.jpg'."),
        _ => panic!("expected an error"),
    }
    assert!(claims.get(b"o/b.jpg").is_none());
}

#[test]
fn claims_replace_and_remove() {
    let mut claims = ClaimRegistry::new();
    claims.insert(b"a", Claim::InFlight);
    claims.insert(b"b", Claim::DryRun(b"s".to_vec()));
    claims.insert(b"a/", Claim::DryRun(b"t".to_vec()));
    match claims.get(b"a") {
        Some(Claim::DryRun(s)) => assert_eq!(s, b"t"),
        _ => panic!("expected the replaced claim"),
    }
    claims.remove(b"b");
    assert!(claims.get(b"b").is_none());
    assert!(claims.get(b"a").is_some());
}

#[test]
fn error_messages() {
    let m = |e: UtilError| String::from_utf8(e.message()).unwrap();
    assert_eq!(m(UtilError::SizeUnreadable { path: b"a b".to_vec() }), "Unable to read size of 'a b'.");
    assert_eq!(m(UtilError::HashOpen { path: b"x".to_vec() }), "Unable to open 'x' for hashing.");
    assert_eq!(m(UtilError::HashRead { path: b"x".to_vec() }), "Unable to read 'x' for hashing.");
    assert_eq!(m(UtilError::MoveFailed { source: b"s".to_vec(), target: b"t".to_vec() }), "Unable to move s to t.");
    assert_eq!(m(UtilError::RemoveFailed { path: b"x".to_vec() }), "Failed to remove x.");
    assert_eq!(m(UtilError::TrashFailed { path: b"x".to_vec() }), "Failed to trash x.");
}

#[test]
fn file_size_reports_errors() {
    assert!(matches!(file_size(b"a", Some(7)), Ok(7)));
    match file_size(b"dir/a.jpg", None) {
        Err(e) => assert_eq!(e.message(), b"Unable to read size of 'dir/a.jpg'."),
        Ok(_) => panic!("expected an error"),
    }
}
