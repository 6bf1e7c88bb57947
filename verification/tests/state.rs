use gloss::state::{hash, DerivedState};
use gloss::time::Timestamp;

#[test]
fn hash_is_lower_case_sha256() {
    assert_eq!(
        hash(b"abc"),
        "ba7816bf8f01cfea414140de5dae2223b00361a396177a9cb410ff61f20015ad"
    );
    assert_eq!(
        hash(b""),
        "e3b0c44298fc1c149afbf4c8996fb92427ae41e4649b934ca495991b7852b855"
    );
}

#[test]
fn recorded_files_read_back_and_can_be_removed() {
    let mut state = DerivedState::empty();
    let at = Timestamp::parse("2026-08-28T18:42:11Z").unwrap();
    assert!(state.file("src/a.rs").is_none());
    state.record_file("src/a.rs", b"one", at);
    let entry = state.file("src/a.rs").unwrap();
    assert_eq!(entry.source_hash, hash(b"one"));
    assert_eq!(entry.header_updated, at);
    let later = Timestamp::parse("2026-08-28T18:43:00Z").unwrap();
    state.record_file("src\\a.rs", b"two", later);
    assert_eq!(state.files.len(), 1);
    assert_eq!(state.file("src/a.rs").unwrap().source_hash, hash(b"two"));
    state.record_file("src/b.rs", b"three", at);
    state.remove_file("src/a.rs");
    assert!(state.file("src/a.rs").is_none());
    assert_eq!(state.file("src/b.rs").unwrap().header_updated, at);
}
