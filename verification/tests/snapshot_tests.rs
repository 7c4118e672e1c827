use base64::Engine;
use duprestore::dfileentry::{parse_dlist_entries, FileEntry, IEntry};
use duprestore::dfiletype::FileType;
use duprestore::errors::RestoreError;
use sha2::Digest;

fn b64(bytes: &[u8]) -> String {
    base64::engine::general_purpose::STANDARD.encode(bytes)
}

fn file_ientry() -> IEntry {
    let digest = sha2::Sha256::digest(b"payload");
    IEntry {
        filetype: String::from("File"),
        path: String::from("/home/u/a.bin"),
        hash: Some(b64(&digest)),
        size: Some(7),
        metablockhash: None,
        metahash: String::from("meta"),
        metasize: 10,
        time: Some(String::from("20240101T000000Z")),
        blocklists: None,
    }
}

#[test]
fn from_ientry_builds_a_file() {
    let ie = file_ientry();
    let e = FileEntry::from_ientry(&ie).unwrap();
    assert!(e.is_file());
    assert!(!e.is_folder());
    assert_eq!(e.path, "/home/u/a.bin");
    assert_eq!(e.metahash, "meta");
    assert_eq!(e.metasize, 10);
    match &e.file_type {
        FileType::File { hash, size, time } => {
            assert_eq!(hash.hash, sha2::Sha256::digest(b"payload").to_vec());
            assert_eq!(*size, 7);
            assert_eq!(time, "20240101T000000Z");
        },
        _ => panic!("expected a file"),
    }
    assert_eq!(e.block_lists.len(), 0);
}

#[test]
fn from_ientry_decodes_blocklists() {
    let mut ie = file_ientry();
    let d0 = sha2::Sha256::digest(b"list0").to_vec();
    let d1 = sha2::Sha256::digest(b"list1").to_vec();
    ie.blocklists = Some(vec![b64(&d0), b64(&d1)]);
    let e = FileEntry::from_ientry(&ie).unwrap();
    assert_eq!(e.block_lists.len(), 2);
    assert_eq!(e.block_lists[0].hash, d0);
    assert_eq!(e.block_lists[1].hash, d1);
}

#[test]
fn from_ientry_rejects_bad_blocklist_digest() {
    let mut ie = file_ientry();
    ie.blocklists = Some(vec![String::from("AAAA")]);
    assert_eq!(FileEntry::from_ientry(&ie).unwrap_err(), RestoreError::SnapshotInvalid);
}

#[test]
fn from_ientry_rejects_missing_hash_size_time() {
    let mut no_hash = file_ientry();
    no_hash.hash = None;
    assert_eq!(FileEntry::from_ientry(&no_hash).unwrap_err(), RestoreError::SnapshotInvalid);

    let mut no_size = file_ientry();
    no_size.size = None;
    assert_eq!(FileEntry::from_ientry(&no_size).unwrap_err(), RestoreError::SnapshotInvalid);

    let mut no_time = file_ientry();
    no_time.time = None;
    assert_eq!(FileEntry::from_ientry(&no_time).unwrap_err(), RestoreError::SnapshotInvalid);
}

#[test]
fn from_ientry_rejects_negative_size() {
    let mut ie = file_ientry();
    ie.size = Some(-1);
    assert_eq!(FileEntry::from_ientry(&ie).unwrap_err(), RestoreError::SnapshotInvalid);
}

#[test]
fn from_ientry_folder_needs_metablockhash() {
    let mut ie = file_ientry();
    ie.filetype = String::from("Folder");
    ie.hash = None;
    ie.size = None;
    ie.time = None;
    assert_eq!(FileEntry::from_ientry(&ie).unwrap_err(), RestoreError::SnapshotInvalid);
    ie.metablockhash = Some(String::from("m"));
    let e = FileEntry::from_ientry(&ie).unwrap();
    assert!(e.is_folder());
}

#[test]
fn from_ientry_maps_unknown_kind_to_symlink() {
    let mut ie = file_ientry();
    ie.filetype = String::from("Whatever");
    ie.hash = None;
    ie.size = None;
    ie.time = None;
    let e = FileEntry::from_ientry(&ie).unwrap();
    assert!(!e.is_file());
    assert!(!e.is_folder());
    assert!(matches!(e.file_type, FileType::SymLink));
}

#[test]
fn parse_dlist_entries_maps_rows_in_order() {
    let mut folder = file_ientry();
    folder.filetype = String::from("Folder");
    folder.metablockhash = Some(String::from("m"));
    let rows = vec![folder, file_ientry()];
    let parsed = parse_dlist_entries(&rows).unwrap();
    assert_eq!(parsed.entries.len(), 2);
    assert!(parsed.entries[0].is_folder());
    assert!(parsed.entries[1].is_file());
}

#[test]
fn parse_dlist_entries_fails_on_first_bad_row() {
    let mut bad = file_ientry();
    bad.hash = Some(String::from("not base64"));
    let rows = vec![file_ientry(), bad];
    assert_eq!(parse_dlist_entries(&rows).unwrap_err(), RestoreError::SnapshotInvalid);
}

#[test]
fn predicted_time_and_bytes_size() {
    let ie = file_ientry();
    let e = FileEntry::from_ientry(&ie).unwrap();
    assert_eq!(e.bytes_size(), 7);
    assert_eq!(e.predicted_time(), 4096 + 13 + 7);

    let mut folder = file_ientry();
    folder.filetype = String::from("Folder");
    folder.metablockhash = Some(String::from("m"));
    let f = FileEntry::from_ientry(&folder).unwrap();
    assert_eq!(f.bytes_size(), 0);
    assert_eq!(f.predicted_time(), 4096 + 13);
}

#[test]
fn error_messages_name_their_kind() {
    assert_eq!(
        RestoreError::HashMismatch.message(),
        "hash is invalid: expected != calculated"
    );
    assert_eq!(
        RestoreError::RepoNotFound.message(),
        "no dlist archive found in the backup directory"
    );
}
