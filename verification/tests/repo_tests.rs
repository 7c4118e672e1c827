use base64::Engine;
use duprestore::blockhash::BlockIdHash;
use duprestore::database::{DFileDatabase, HashToBlocks, HashToPath, Manifest};
use duprestore::dfileentry::{FileEntries, FileEntry};
use duprestore::dfiletype::FileType;
use duprestore::errors::RestoreError;
use duprestore::listing::{newest_dlist, path_is_dblock_zip, path_is_dlist_zip, read_filelist, read_manifest};
use duprestore::restoring::{
    calculate_path, calculate_summary, restore_all, restore_entry, RestoreAction, RestoreContext,
    RestoreParams, RestoreSummary,
};
use duprestore::sorting::{compare_fileentry, get_first_bytes_location, sort_files_sequentially};
use duprestore::ziparchive::{BlockLocation, ZipLocation};
use sha2::Digest;
use std::io::Write;

fn digest(data: &[u8]) -> Vec<u8> {
    sha2::Sha256::digest(data).to_vec()
}

fn urlsafe_name(d: &[u8]) -> String {
    base64::engine::general_purpose::URL_SAFE.encode(d)
}

fn build_zip(entries: &[(String, Vec<u8>)]) -> Vec<u8> {
    let mut w = zip::write::ZipWriter::new(std::io::Cursor::new(Vec::new()));
    let opts = zip::write::SimpleFileOptions::default();
    for (name, data) in entries {
        w.start_file(name.clone(), opts).unwrap();
        w.write_all(data).unwrap();
    }
    w.finish().unwrap().into_inner()
}

fn manifest(block_size: i64) -> Manifest {
    Manifest {
        version: 2,
        created: String::from("20240101T000000Z"),
        encoding: String::from("utf8"),
        block_size,
        block_hash: String::from("SHA-256"),
        file_hash: String::from("SHA-256"),
        app_version: String::from("2.0.0.0"),
    }
}

fn make_db(block_size: i64, indexed: bool, archives: &[(&str, Vec<(String, Vec<u8>)>)]) -> DFileDatabase {
    let mut db = DFileDatabase::new(manifest(block_size), indexed).unwrap();
    for (path, entries) in archives {
        db.import_from_zip(String::from(*path), build_zip(entries)).unwrap();
    }
    db
}

fn file_entry(path: &str, hash: Vec<u8>, size: i64, block_lists: Vec<Vec<u8>>) -> FileEntry {
    FileEntry {
        path: String::from(path),
        metahash: String::from("meta"),
        metasize: 0,
        file_type: FileType::File {
            hash: BlockIdHash::from_bytes(&hash).unwrap(),
            size,
            time: String::from("20240101T000000Z"),
        },
        block_lists: block_lists
            .into_iter()
            .map(|d| BlockIdHash::from_bytes(&d).unwrap())
            .collect(),
    }
}

fn folder_entry(path: &str) -> FileEntry {
    FileEntry {
        path: String::from(path),
        metahash: String::from("meta"),
        metasize: 0,
        file_type: FileType::Folder { metablockhash: String::from("m") },
        block_lists: Vec::new(),
    }
}

fn params(root: Option<&str>) -> RestoreParams {
    RestoreParams {
        restore_path: root.map(String::from),
        replace_backslash_to_slash: true,
        summary: RestoreSummary {
            file_count: 0,
            folder_count: 0,
            total_bytes: 0,
            predicted_bytes: 0,
        },
    }
}

fn written(action: RestoreAction) -> (Vec<u8>, Vec<u8>) {
    match action {
        RestoreAction::WriteFile { path, content } => (path, content),
        _ => panic!("expected a written file"),
    }
}

#[test]
fn scenario_empty_file() {
    let h = digest(b"");
    let db = make_db(16, true, &[("r/a-dblock.zip", vec![])]);
    let entry = file_entry("a.bin", h, 0, vec![]);
    let mut ctx = RestoreContext::new();
    let action = restore_entry(&entry, &params(Some("/tmp/r")), &mut ctx, &db).unwrap();
    let (path, content) = written(action);
    assert_eq!(path, b"/tmp/r/a.bin".to_vec());
    assert_eq!(content, Vec::<u8>::new());
}

#[test]
fn scenario_single_block_file() {
    let payload = b"HELLO WORLD!!!!".to_vec();
    let h = digest(&payload);
    let db = make_db(
        16,
        true,
        &[("r/a-dblock.zip", vec![(urlsafe_name(&h), payload.clone())])],
    );
    let entry = file_entry("a.bin", h, payload.len() as i64, vec![]);
    let mut ctx = RestoreContext::new();
    let action = restore_entry(&entry, &params(Some("/tmp/r")), &mut ctx, &db).unwrap();
    let (_, content) = written(action);
    assert_eq!(content, payload);
}

#[test]
fn scenario_multi_block_single_blocklist() {
    // 48 bytes = 3 blocks of 16; one block-list block names them all.
    let payload: Vec<u8> = (0u8..48).collect();
    let b0 = payload[0..16].to_vec();
    let b1 = payload[16..32].to_vec();
    let b2 = payload[32..48].to_vec();
    let (d0, d1, d2) = (digest(&b0), digest(&b1), digest(&b2));
    let mut list0 = Vec::new();
    list0.extend_from_slice(&d0);
    list0.extend_from_slice(&d1);
    list0.extend_from_slice(&d2);
    let l0 = digest(&list0);
    let h = digest(&payload);
    let db = make_db(
        16,
        true,
        &[(
            "r/a-dblock.zip",
            vec![
                (urlsafe_name(&d0), b0),
                (urlsafe_name(&d1), b1),
                (urlsafe_name(&d2), b2),
                (urlsafe_name(&l0), list0),
            ],
        )],
    );
    let entry = file_entry("a.bin", h, 48, vec![l0]);
    let mut ctx = RestoreContext::new();
    let action = restore_entry(&entry, &params(Some("/tmp/r")), &mut ctx, &db).unwrap();
    let (_, content) = written(action);
    assert_eq!(content, payload);
}

#[test]
fn scenario_multi_block_two_blocklists() {
    // B = 64, so one block-list block covers two content blocks; the payload
    // is three blocks, needing a second block-list block for the last one.
    let bsize = 64usize;
    let payload: Vec<u8> = (0..192u32).map(|x| (x % 251) as u8).collect();
    let b0 = payload[0..64].to_vec();
    let b1 = payload[64..128].to_vec();
    let b2 = payload[128..192].to_vec();
    let (d0, d1, d2) = (digest(&b0), digest(&b1), digest(&b2));
    let mut list0 = Vec::new();
    list0.extend_from_slice(&d0);
    list0.extend_from_slice(&d1);
    let list1 = d2.clone();
    let (l0, l1) = (digest(&list0), digest(&list1));
    let h = digest(&payload);
    let db = make_db(
        bsize as i64,
        false,
        &[(
            "r/a-dblock.zip",
            vec![
                (urlsafe_name(&d0), b0),
                (urlsafe_name(&d1), b1),
                (urlsafe_name(&d2), b2),
                (urlsafe_name(&l0), list0),
                (urlsafe_name(&l1), list1),
            ],
        )],
    );
    assert_eq!(db.block_size(), 64);
    assert_eq!(db.offset_size(), 128);
    assert_eq!(db.hash_size(), 32);
    let entry = file_entry("big.bin", h, 192, vec![l0, l1]);
    let mut ctx = RestoreContext::new();
    let action = restore_entry(&entry, &params(Some("/tmp/r")), &mut ctx, &db).unwrap();
    let (_, content) = written(action);
    assert_eq!(content, payload);
}

#[test]
fn scenario_short_nonfinal_block_fails() {
    // The middle block is one byte short: the strict-block check rejects it.
    let b0: Vec<u8> = vec![1; 16];
    let b1: Vec<u8> = vec![2; 15];
    let b2: Vec<u8> = vec![3; 16];
    let (d0, d1, d2) = (digest(&b0), digest(&b1), digest(&b2));
    let mut list0 = Vec::new();
    list0.extend_from_slice(&d0);
    list0.extend_from_slice(&d1);
    list0.extend_from_slice(&d2);
    let l0 = digest(&list0);
    let mut whole = Vec::new();
    whole.extend_from_slice(&b0);
    whole.extend_from_slice(&b1);
    whole.extend_from_slice(&b2);
    let h = digest(&whole);
    let db = make_db(
        16,
        true,
        &[(
            "r/a-dblock.zip",
            vec![
                (urlsafe_name(&d0), b0),
                (urlsafe_name(&d1), b1),
                (urlsafe_name(&d2), b2),
                (urlsafe_name(&l0), list0),
            ],
        )],
    );
    let entry = file_entry("a.bin", h, 47, vec![l0]);
    let mut ctx = RestoreContext::new();
    let err = restore_entry(&entry, &params(Some("/tmp/r")), &mut ctx, &db).unwrap_err();
    assert_eq!(err, RestoreError::ShortBlock);
}

#[test]
fn scenario_short_final_block_succeeds() {
    // Only the very last block of the very last block-list block may be
    // short.
    let b0: Vec<u8> = vec![1; 16];
    let b1: Vec<u8> = vec![2; 11];
    let (d0, d1) = (digest(&b0), digest(&b1));
    let mut list0 = Vec::new();
    list0.extend_from_slice(&d0);
    list0.extend_from_slice(&d1);
    let l0 = digest(&list0);
    let mut whole = Vec::new();
    whole.extend_from_slice(&b0);
    whole.extend_from_slice(&b1);
    let h = digest(&whole);
    let db = make_db(
        16,
        true,
        &[(
            "r/a-dblock.zip",
            vec![
                (urlsafe_name(&d0), b0),
                (urlsafe_name(&d1), b1),
                (urlsafe_name(&l0), list0),
            ],
        )],
    );
    let entry = file_entry("a.bin", h, 27, vec![l0]);
    let mut ctx = RestoreContext::new();
    let action = restore_entry(&entry, &params(Some("/tmp/r")), &mut ctx, &db).unwrap();
    let (_, content) = written(action);
    assert_eq!(content, whole);
}

#[test]
fn scenario_corrupted_block_fails_hash_check() {
    let payload = b"HELLO WORLD!!!!".to_vec();
    let h = digest(&payload);
    let mut corrupted = payload.clone();
    corrupted[0] ^= 0x01;
    let db = make_db(
        16,
        true,
        &[("r/a-dblock.zip", vec![(urlsafe_name(&h), corrupted)])],
    );
    let entry = file_entry("a.bin", h, payload.len() as i64, vec![]);
    let mut ctx = RestoreContext::new();
    let err = restore_entry(&entry, &params(Some("/tmp/r")), &mut ctx, &db).unwrap_err();
    assert_eq!(err, RestoreError::HashMismatch);
}

#[test]
fn scenario_missing_block_fails() {
    let payload = b"HELLO WORLD!!!!".to_vec();
    let h = digest(&payload);
    let db = make_db(16, true, &[("r/a-dblock.zip", vec![])]);
    let entry = file_entry("a.bin", h, payload.len() as i64, vec![]);
    let mut ctx = RestoreContext::new();
    let err = restore_entry(&entry, &params(Some("/tmp/r")), &mut ctx, &db).unwrap_err();
    assert_eq!(err, RestoreError::MissingBlock);
}

#[test]
fn scenario_missing_blocklist_fails() {
    let b0: Vec<u8> = vec![1; 16];
    let d0 = digest(&b0);
    let l0 = digest(&d0);
    let h = digest(&b0);
    let db = make_db(16, true, &[("r/a-dblock.zip", vec![(urlsafe_name(&d0), b0)])]);
    let entry = file_entry("a.bin", h, 16, vec![l0]);
    let mut ctx = RestoreContext::new();
    let err = restore_entry(&entry, &params(Some("/tmp/r")), &mut ctx, &db).unwrap_err();
    assert_eq!(err, RestoreError::MissingBlocklist);
}

#[test]
fn scenario_windows_path_on_unix() {
    let entry = file_entry("C:\\Users\\x\\a.bin", digest(b""), 0, vec![]);
    let (abs, rel) = calculate_path(&entry, &params(Some("/tmp/r"))).unwrap();
    assert_eq!(rel, b"C/Users/x/a.bin".to_vec());
    assert_eq!(abs, b"/tmp/r/C/Users/x/a.bin".to_vec());
}

#[test]
fn path_mapping_twice_equals_once() {
    // Apply the transformation, feed the result back in: nothing changes.
    let entry = file_entry("C:\\Users\\x\\a.bin", digest(b""), 0, vec![]);
    let (_, rel) = calculate_path(&entry, &params(Some("/tmp/r"))).unwrap();
    let again = file_entry(&String::from_utf8(rel.clone()).unwrap(), digest(b""), 0, vec![]);
    let (_, rel2) = calculate_path(&again, &params(Some("/tmp/r"))).unwrap();
    assert_eq!(rel, rel2);
}

#[test]
fn verify_only_checks_without_writing() {
    let payload = b"HELLO WORLD!!!!".to_vec();
    let h = digest(&payload);
    let db = make_db(
        16,
        true,
        &[("r/a-dblock.zip", vec![(urlsafe_name(&h), payload.clone())])],
    );
    let entry = file_entry("a.bin", h, payload.len() as i64, vec![]);
    let mut ctx = RestoreContext::new();
    let action = restore_entry(&entry, &params(None), &mut ctx, &db).unwrap();
    assert!(matches!(action, RestoreAction::Verified { content_len: 15 }));
}

#[test]
fn index_completeness_after_indexing() {
    // Every archive entry name can be looked up, and the location names the
    // archive that holds it.
    let b0: Vec<u8> = vec![1; 16];
    let b1: Vec<u8> = vec![2; 16];
    let (d0, d1) = (digest(&b0), digest(&b1));
    let db = make_db(
        16,
        true,
        &[
            ("r/a-dblock.zip", vec![(urlsafe_name(&d0), b0)]),
            ("r/b-dblock.zip", vec![(urlsafe_name(&d1), b1)]),
        ],
    );
    let loc0 = db.get_block_id_location(&BlockIdHash::from_bytes(&d0).unwrap()).unwrap();
    assert_eq!(loc0.archive_index, 0);
    assert_eq!(loc0.ziplocation.path, "r/a-dblock.zip");
    let loc1 = db.get_block_id_location(&BlockIdHash::from_bytes(&d1).unwrap()).unwrap();
    assert_eq!(loc1.archive_index, 1);
    assert_eq!(loc1.ziplocation.path, "r/b-dblock.zip");
    let absent = digest(b"not stored");
    assert!(db.get_block_id_location(&BlockIdHash::from_bytes(&absent).unwrap()).is_none());
}

#[test]
fn indexed_and_probing_agree_on_the_archive() {
    let b0: Vec<u8> = vec![1; 16];
    let b1: Vec<u8> = vec![2; 16];
    let (d0, d1) = (digest(&b0), digest(&b1));
    let archives = [
        ("r/a-dblock.zip", vec![(urlsafe_name(&d0), b0)]),
        ("r/b-dblock.zip", vec![(urlsafe_name(&d1), b1)]),
    ];
    let indexed = make_db(16, true, &archives);
    let probing = make_db(16, false, &archives);
    for d in [&d0, &d1] {
        let h = BlockIdHash::from_bytes(d).unwrap();
        let li = indexed.get_block_id_location(&h).unwrap();
        let lp = probing.get_block_id_location(&h).unwrap();
        assert_eq!(li.archive_index, lp.archive_index);
        assert_eq!(li.ziplocation.path, lp.ziplocation.path);
        assert_eq!(li.file_index, lp.file_index);
    }
}

#[test]
fn locality_sort_orders_by_first_block_location() {
    let b0: Vec<u8> = vec![1; 16];
    let b1: Vec<u8> = vec![2; 16];
    let (d0, d1) = (digest(&b0), digest(&b1));
    let db = make_db(
        16,
        true,
        &[
            ("r/a-dblock.zip", vec![(urlsafe_name(&d0), b0)]),
            ("r/b-dblock.zip", vec![(urlsafe_name(&d1), b1)]),
        ],
    );
    let e_late = file_entry("late.bin", d1.clone(), 16, vec![]);
    let e_early = file_entry("early.bin", d0.clone(), 16, vec![]);
    let e_folder = folder_entry("dir");
    let mut entries = vec![e_folder, e_late, e_early];
    sort_files_sequentially(&mut entries, &db);
    assert_eq!(entries[0].path, "early.bin");
    assert_eq!(entries[1].path, "late.bin");
    assert_eq!(entries[2].path, "dir");
    // The located pair is ordered by (archive, entry) as the comparator says.
    let l0 = get_first_bytes_location(&entries[0], &db).unwrap();
    let l1 = get_first_bytes_location(&entries[1], &db).unwrap();
    assert!(l0.le(&l1));
    assert!(get_first_bytes_location(&entries[2], &db).is_none());
    assert_eq!(
        compare_fileentry(&entries[0], &entries[1], &db),
        core::cmp::Ordering::Less
    );
}

#[test]
fn restore_all_runs_folder_pass_then_file_pass() {
    let payload = b"HELLO WORLD!!!!".to_vec();
    let h = digest(&payload);
    let db = make_db(
        16,
        true,
        &[("r/a-dblock.zip", vec![(urlsafe_name(&h), payload.clone())])],
    );
    let entries = FileEntries {
        entries: vec![
            file_entry("d/a.bin", h, payload.len() as i64, vec![]),
            folder_entry("d"),
        ],
    };
    let actions = restore_all(&db, &params(Some("/tmp/r")), entries).unwrap();
    assert_eq!(actions.len(), 2);
    match &actions[0] {
        RestoreAction::CreateDir { path } => assert_eq!(path, &b"/tmp/r/d".to_vec()),
        _ => panic!("expected the folder pass first"),
    }
    match &actions[1] {
        RestoreAction::WriteFile { path, content } => {
            assert_eq!(path, &b"/tmp/r/d/a.bin".to_vec());
            assert_eq!(content, &payload);
        },
        _ => panic!("expected the file pass second"),
    }
}

#[test]
fn summary_counts_files_folders_and_bytes() {
    let entries = vec![
        file_entry("a", digest(b""), 5, vec![]),
        file_entry("bb", digest(b""), 7, vec![]),
        folder_entry("d"),
    ];
    let s = calculate_summary(&entries);
    assert_eq!(s.file_count, 2);
    assert_eq!(s.folder_count, 1);
    assert_eq!(s.total_bytes, 12);
    assert_eq!(s.predicted_bytes, (4096 + 1 + 5) + (4096 + 2 + 7) + (4096 + 1));
}

#[test]
fn manifest_validation_rejects_bad_block_size() {
    assert!(matches!(
        DFileDatabase::new(manifest(0), true),
        Err(RestoreError::ManifestInvalid)
    ));
    assert!(matches!(
        DFileDatabase::new(manifest(-7), true),
        Err(RestoreError::ManifestInvalid)
    ));
    assert!(DFileDatabase::new(manifest(102400), true).is_ok());
}

#[test]
fn archive_names_select_dlist_and_dblock() {
    assert!(path_is_dlist_zip("backup/x-20240101-dlist.zip"));
    assert!(path_is_dlist_zip("x-dlist.zip"));
    assert!(!path_is_dlist_zip("backup/x-20240101-dblock.zip"));
    assert!(path_is_dblock_zip("backup/x-20240101-dblock.zip"));
    assert!(!path_is_dblock_zip("backup/dlist.zip.bak"));
}

#[test]
fn newest_dlist_picks_the_greatest_name() {
    let paths = vec![
        String::from("b/x-20240101-dlist.zip"),
        String::from("b/x-20240301-dlist.zip"),
        String::from("b/x-20240201-dlist.zip"),
        String::from("b/x-20249999-dblock.zip"),
    ];
    assert_eq!(newest_dlist(&paths).unwrap(), "b/x-20240301-dlist.zip");
    let none = vec![String::from("b/x-dblock.zip")];
    assert_eq!(newest_dlist(&none).unwrap_err(), RestoreError::RepoNotFound);
}

#[test]
fn read_manifest_strips_bom_and_trims() {
    let mut body = vec![0xEFu8, 0xBB, 0xBF];
    body.extend_from_slice(b"  {\"Blocksize\":16} \n");
    let dlist = build_zip(&[(String::from("manifest"), body)]);
    let m = read_manifest(dlist).unwrap();
    assert_eq!(m, b"{\"Blocksize\":16}".to_vec());
    let empty = build_zip(&[]);
    assert_eq!(read_manifest(empty).unwrap_err(), RestoreError::ManifestInvalid);
}

#[test]
fn read_filelist_strips_bom() {
    let mut body = vec![0xEFu8, 0xBB, 0xBF];
    body.extend_from_slice(b"[]");
    let dlist = build_zip(&[(String::from("filelist.json"), body)]);
    assert_eq!(read_filelist(dlist).unwrap(), b"[]".to_vec());
    let empty = build_zip(&[]);
    assert_eq!(read_filelist(empty).unwrap_err(), RestoreError::SnapshotInvalid);
}

#[test]
fn import_rejects_undecodable_entry_names() {
    // In indexed mode an entry name that is not URL-safe base64 fails the
    // archive; in probing mode nothing decodes names at import time.
    let bad = vec![(String::from("!!notbase64!!"), vec![1u8, 2, 3])];
    let mut db = DFileDatabase::new(manifest(16), true).unwrap();
    assert_eq!(
        db.import_from_zip(String::from("r/bad-dblock.zip"), build_zip(&bad)).unwrap_err(),
        RestoreError::ArchiveOpen
    );
    let mut db2 = DFileDatabase::new(manifest(16), false).unwrap();
    assert!(db2.import_from_zip(String::from("r/bad-dblock.zip"), build_zip(&bad)).is_ok());
}

#[test]
fn get_content_block_returns_block_bytes() {
    let payload = b"0123456789abcdef".to_vec();
    let d = digest(&payload);
    let db = make_db(
        16,
        false,
        &[("r/a-dblock.zip", vec![(urlsafe_name(&d), payload.clone())])],
    );
    let h = BlockIdHash::from_bytes(&d).unwrap();
    let mut buf = Vec::new();
    let n = db.get_content_block(&h, &mut buf).unwrap().unwrap();
    assert_eq!(n, payload.len());
    assert_eq!(buf, payload);
    let absent = BlockIdHash::from_bytes(&digest(b"other")).unwrap();
    let mut buf2 = Vec::new();
    assert!(db.get_content_block(&absent, &mut buf2).unwrap().is_none());
    assert!(buf2.is_empty());
}

#[test]
fn hash_to_blocks_probing_lookups() {
    let b0 = vec![1u8; 16];
    let d0 = digest(&b0);
    let mut htb = HashToBlocks::new(false);
    htb.import_from_zip(String::from("r/a-dblock.zip"), build_zip(&[(urlsafe_name(&d0), b0)]))
        .unwrap();
    let h = BlockIdHash::from_bytes(&d0).unwrap();
    let loc = htb.get_location_by_block_id_purezip(&h).unwrap();
    assert_eq!(loc.archive_index, 0);
    assert_eq!(htb.get_zip_by_block_id_purezip(&h), Some(0));
    assert_eq!(htb.get_zip_by_block_id(&h), Some(0));
    assert!(htb.get_zip_archive("r/a-dblock.zip").is_some());
    assert!(htb.get_zip_archive("r/missing.zip").is_none());
    let absent = BlockIdHash::from_bytes(&digest(b"absent")).unwrap();
    assert!(htb.get_location_by_block_id_purezip(&absent).is_none());
}

#[test]
fn hash_to_path_insert_and_lookup() {
    let d = digest(b"x");
    let h = BlockIdHash::from_bytes(&d).unwrap();
    let mut hp = HashToPath::new();
    assert!(hp.get_location_by_block_id(&h).is_none());
    hp.insert(
        h.clone(),
        BlockLocation {
            ziplocation: ZipLocation { path: String::from("a.zip") },
            archive_index: 0,
            file_index: 3,
        },
    );
    let loc = hp.get_location_by_block_id(&h).unwrap();
    assert_eq!(loc.file_index, 3);
    assert_eq!(hp.get_zip_path_by_block_id(&h).unwrap(), "a.zip");
    // A digest recorded twice keeps the later location.
    hp.insert(
        h.clone(),
        BlockLocation {
            ziplocation: ZipLocation { path: String::from("b.zip") },
            archive_index: 1,
            file_index: 9,
        },
    );
    assert_eq!(hp.get_zip_path_by_block_id(&h).unwrap(), "b.zip");
}

#[test]
fn block_location_orders_by_archive_path_then_entry() {
    // Paths decide first, whatever order the archives were registered in.
    let a = BlockLocation {
        ziplocation: ZipLocation { path: String::from("a.zip") },
        archive_index: 1,
        file_index: 9,
    };
    let b = BlockLocation {
        ziplocation: ZipLocation { path: String::from("b.zip") },
        archive_index: 0,
        file_index: 0,
    };
    assert_eq!(a.cmp(&b), core::cmp::Ordering::Less);
    assert_eq!(b.cmp(&a), core::cmp::Ordering::Greater);
    assert_eq!(a.cmp(&a.clone()), core::cmp::Ordering::Equal);
    assert!(a.le(&b));
    assert!(!b.le(&a));
    // Equal paths fall through to the entry index.
    let a2 = BlockLocation {
        ziplocation: ZipLocation { path: String::from("a.zip") },
        archive_index: 1,
        file_index: 10,
    };
    assert_eq!(a.cmp(&a2), core::cmp::Ordering::Less);
}

#[test]
fn locality_sort_follows_archive_paths_not_registration() {
    // The second-registered archive has the lexicographically smaller path;
    // its file must come first after the sort.
    let b0: Vec<u8> = vec![1; 16];
    let b1: Vec<u8> = vec![2; 16];
    let (d0, d1) = (digest(&b0), digest(&b1));
    let db = make_db(
        16,
        true,
        &[
            ("r/b-dblock.zip", vec![(urlsafe_name(&d0), b0)]),
            ("r/a-dblock.zip", vec![(urlsafe_name(&d1), b1)]),
        ],
    );
    let in_b = file_entry("in_b.bin", d0.clone(), 16, vec![]);
    let in_a = file_entry("in_a.bin", d1.clone(), 16, vec![]);
    let mut entries = vec![in_b, in_a];
    sort_files_sequentially(&mut entries, &db);
    assert_eq!(entries[0].path, "in_a.bin");
    assert_eq!(entries[1].path, "in_b.bin");
}

#[test]
fn scenario_short_block_across_blocklists_fails() {
    // The last block of a non-final block-list block must still be full.
    let b0: Vec<u8> = vec![1; 10];
    let b1: Vec<u8> = vec![2; 16];
    let (d0, d1) = (digest(&b0), digest(&b1));
    let (l0, l1) = (digest(&d0), digest(&d1));
    let mut whole = Vec::new();
    whole.extend_from_slice(&b0);
    whole.extend_from_slice(&b1);
    let h = digest(&whole);
    let db = make_db(
        16,
        true,
        &[(
            "r/a-dblock.zip",
            vec![
                (urlsafe_name(&d0), b0),
                (urlsafe_name(&d1), b1),
                (urlsafe_name(&l0), d0.clone()),
                (urlsafe_name(&l1), d1.clone()),
            ],
        )],
    );
    let entry = file_entry("a.bin", h, 26, vec![l0, l1]);
    let mut ctx = RestoreContext::new();
    let err = restore_entry(&entry, &params(Some("/tmp/r")), &mut ctx, &db).unwrap_err();
    assert_eq!(err, RestoreError::ShortBlock);
}

#[test]
fn scenario_unreadable_block_is_an_io_error() {
    // The archive's directory lists the entry, but its stored data is
    // corrupted, so reading it fails.
    let payload = b"0123456789abcdef".to_vec();
    let d = digest(&payload);
    let name = urlsafe_name(&d);
    let mut data = build_zip(&[(name.clone(), payload)]);
    // Flip bytes inside the first entry's stored data, which starts after
    // the 30-byte local header and the entry name.
    let start = 30 + name.len();
    for k in 0..4 {
        data[start + 2 + k] ^= 0xA5;
    }
    let mut db = DFileDatabase::new(manifest(16), false).unwrap();
    db.import_from_zip(String::from("r/a-dblock.zip"), data).unwrap();
    let h = BlockIdHash::from_bytes(&d).unwrap();
    let mut buf = Vec::new();
    assert!(matches!(db.get_content_block(&h, &mut buf), Err(RestoreError::Io)));
}

#[test]
fn restore_all_verify_only_writes_nothing() {
    let payload = b"HELLO WORLD!!!!".to_vec();
    let h = digest(&payload);
    let db = make_db(
        16,
        false,
        &[("r/a-dblock.zip", vec![(urlsafe_name(&h), payload.clone())])],
    );
    let entries = FileEntries {
        entries: vec![
            folder_entry("d"),
            file_entry("d/a.bin", h, payload.len() as i64, vec![]),
        ],
    };
    let actions = restore_all(&db, &params(None), entries).unwrap();
    assert_eq!(actions.len(), 2);
    assert!(matches!(actions[0], RestoreAction::Skip));
    assert!(matches!(actions[1], RestoreAction::Verified { content_len: 15 }));
}
