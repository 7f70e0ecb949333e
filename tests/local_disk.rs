use replibyte::catalog::{Backup, IndexFile, ReadOptions};
use replibyte::engine::LocalDisk;
use replibyte::error::DatastoreError;
use replibyte::retention::{parse_day_count, DeleteRequest, DAY_MILLIS};

const NOW: u64 = 1_700_000_000_000;

fn names(catalog: &IndexFile) -> Vec<String> {
    catalog.backups.iter().map(|b| b.directory_name.clone()).collect()
}

fn has(catalog: &IndexFile, name: &str) -> bool {
    catalog.backups.iter().any(|b| b.directory_name == name)
}

/// Writes one chunk of `payload` under `name`, as the write path does after the
/// chunk is stored.
fn write_chunk(disk: &mut LocalDisk, catalog: &mut IndexFile, name: &str, payload: &[u8], now: u64) {
    disk.set_dump_name(name.to_string());
    disk.record_chunk(catalog, payload.len() as u64, now);
}

fn three_dumps(created: [u64; 3]) -> (LocalDisk, IndexFile) {
    let mut disk = LocalDisk::new("/tmp/store".to_string());
    let (mut catalog, _) = disk.create_index_file(Err(DatastoreError::NotFound)).unwrap();
    assert!(catalog.backups.is_empty());
    write_chunk(&mut disk, &mut catalog, "dump-1", b"hello world from dump-1", created[0]);
    assert_eq!(catalog.backups.len(), 1);
    write_chunk(&mut disk, &mut catalog, "dump-2", b"hello world from dump-2", created[1]);
    assert_eq!(catalog.backups.len(), 2);
    write_chunk(&mut disk, &mut catalog, "dump-3", b"hello world from dump-3", created[2]);
    assert_eq!(catalog.backups.len(), 3);
    (disk, catalog)
}

#[test]
fn init_local_disk() {
    let disk = LocalDisk::new("/tmp/store".to_string());
    // executed twice: the second run finds the catalog that the first one made
    let (first, write_first) = disk.create_index_file(Err(DatastoreError::NotFound)).unwrap();
    assert!(write_first);
    assert!(first.backups.is_empty());
    let (second, write_second) = disk.create_index_file(Ok(first.clone())).unwrap();
    assert!(!write_second);
    assert!(second.backups.is_empty());
}

#[test]
fn init_passes_on_corrupt_catalog_without_writing() {
    let disk = LocalDisk::new("/tmp/store".to_string());
    // a corrupt catalog is reported, not replaced by an empty one
    assert_eq!(disk.create_index_file(Err(DatastoreError::Corrupt)).err(), Some(DatastoreError::Corrupt));
    assert_eq!(disk.create_index_file(Err(DatastoreError::StorageIo)).err(), Some(DatastoreError::StorageIo));
    // only an absent catalog is created
    let (created, must_write) = disk.create_index_file(Err(DatastoreError::NotFound)).unwrap();
    assert!(must_write);
    assert!(created.backups.is_empty());
}

#[test]
fn init_keeps_existing_catalog() {
    let disk = LocalDisk::new("/tmp/store".to_string());
    let existing = IndexFile {
        backups: vec![Backup {
            directory_name: "backup-1".to_string(),
            size: 12,
            created_at: NOW,
            compressed: true,
            encrypted: false,
        }],
    };
    let (catalog, must_write) = disk.create_index_file(Ok(existing)).unwrap();
    assert!(!must_write);
    assert_eq!(names(&catalog), vec!["backup-1".to_string()]);
    assert_eq!(catalog.backups[0].size, 12);
}

#[test]
fn test_backup_name() {
    let mut local_disk = LocalDisk::new("/tmp/store".to_string());
    local_disk.set_dump_name("custom-backup-name".to_string());
    assert_eq!(*local_disk.dump_name(), "custom-backup-name".to_string())
}

#[test]
fn default_backup_name_is_dump_and_time() {
    let disk = LocalDisk::new("/tmp/store".to_string());
    let name = disk.dump_name();
    assert!(name.starts_with("dump-"));
    assert!(name.len() > 5);
    assert!(name[5..].chars().all(|c| c.is_ascii_digit()));
    assert!(disk.compression_enabled());
    assert!(disk.encryption_key().is_none());
    assert_eq!(disk.dir(), "/tmp/store");
}

#[test]
fn test_write_and_read() {
    let mut disk = LocalDisk::new("/tmp/store".to_string());
    let (mut catalog, _) = disk.create_index_file(Err(DatastoreError::NotFound)).unwrap();
    let bytes: Vec<u8> = b"hello world".to_vec();
    let name = disk.dump_name().clone();
    write_chunk(&mut disk, &mut catalog, &name, &bytes, NOW);

    // the catalog holds one dump
    assert_eq!(catalog.backups.len(), 1);
    let dump = catalog.find_backup(&ReadOptions::Latest).unwrap();
    assert_eq!(dump.directory_name, name);
    assert_eq!(dump.size, 11);
    assert_eq!(LocalDisk::chunk_file_name(1), "1.dump");

    // the read reverses the write's transforms
    let written = disk.write_transforms();
    let read = disk.read_transforms(dump).unwrap();
    assert_eq!(read.compress, written.compress);
    assert_eq!(read.encryption_key, written.encryption_key);
}

#[test]
fn test_index_file() {
    let disk = LocalDisk::new("/tmp/store".to_string());
    let (mut index_file, _) = disk.create_index_file(Err(DatastoreError::NotFound)).unwrap();
    assert!(index_file.backups.is_empty());
    index_file.backups.push(Backup {
        directory_name: "backup-1".to_string(),
        size: 0,
        created_at: NOW,
        compressed: true,
        encrypted: false,
    });
    let (reloaded, must_write) = disk.create_index_file(Ok(index_file)).unwrap();
    assert!(!must_write);
    assert_eq!(reloaded.backups.len(), 1);
}

#[test]
fn test_delete_by_name() {
    let (_, mut catalog) = three_dumps([NOW - 2, NOW - 1, NOW]);
    catalog.backups.truncate(2);

    let removed = catalog.delete_selected(&DeleteRequest::ByName("dump-1".to_string()), NOW).unwrap();
    assert_eq!(removed, vec!["dump-1".to_string()]);
    assert_eq!(catalog.backups.len(), 1);
    assert!(!has(&catalog, "dump-1"));
    assert!(has(&catalog, "dump-2"));

    let removed = catalog.delete_selected(&DeleteRequest::ByName("dump-2".to_string()), NOW).unwrap();
    assert_eq!(removed, vec!["dump-2".to_string()]);
    assert_eq!(catalog.backups.len(), 0);
}

#[test]
fn delete_by_name_keeps_other_records() {
    let (_, mut catalog) = three_dumps([NOW - 2, NOW - 1, NOW]);
    let before = catalog.clone();
    catalog.delete_selected(&DeleteRequest::ByName("dump-2".to_string()), NOW).unwrap();
    assert_eq!(names(&catalog), vec!["dump-1".to_string(), "dump-3".to_string()]);
    assert_eq!(catalog.backups[0].size, before.backups[0].size);
    assert_eq!(catalog.backups[1].created_at, before.backups[2].created_at);
}

#[test]
fn delete_missing_name_is_not_found() {
    let (_, mut catalog) = three_dumps([NOW - 2, NOW - 1, NOW]);
    let r = catalog.delete_selected(&DeleteRequest::ByName("dump-9".to_string()), NOW);
    assert_eq!(r, Err(DatastoreError::NotFound));
    assert_eq!(catalog.backups.len(), 3);
}

#[test]
fn test_delete_keep_last() {
    let (_, mut catalog) = three_dumps([NOW - 2, NOW - 1, NOW]);

    let removed = catalog.delete_selected(&DeleteRequest::KeepLast(2), NOW).unwrap();
    assert_eq!(removed, vec!["dump-1".to_string()]);
    assert_eq!(catalog.backups.len(), 2);
    assert!(!has(&catalog, "dump-1"));
    assert!(has(&catalog, "dump-2"));
    assert!(has(&catalog, "dump-3"));

    let removed = catalog.delete_selected(&DeleteRequest::KeepLast(1), NOW).unwrap();
    assert_eq!(removed, vec!["dump-2".to_string()]);
    assert_eq!(catalog.backups.len(), 1);
    assert!(!has(&catalog, "dump-1"));
    assert!(!has(&catalog, "dump-2"));
    assert!(has(&catalog, "dump-3"));
}

#[test]
fn keep_last_goes_by_creation_time_not_position() {
    let (_, mut catalog) = three_dumps([NOW, NOW - 10, NOW - 5]);
    let removed = catalog.delete_selected(&DeleteRequest::KeepLast(1), NOW).unwrap();
    assert_eq!(removed, vec!["dump-2".to_string(), "dump-3".to_string()]);
    assert_eq!(names(&catalog), vec!["dump-1".to_string()]);
}

#[test]
fn keep_last_breaks_ties_by_catalog_position() {
    let (_, mut catalog) = three_dumps([NOW, NOW, NOW]);
    let removed = catalog.delete_selected(&DeleteRequest::KeepLast(2), NOW).unwrap();
    assert_eq!(removed, vec!["dump-1".to_string()]);
}

#[test]
fn keep_last_zero_removes_all() {
    let (_, mut catalog) = three_dumps([NOW - 2, NOW - 1, NOW]);
    let removed = catalog.delete_selected(&DeleteRequest::KeepLast(0), NOW).unwrap();
    assert_eq!(removed.len(), 3);
    assert!(catalog.backups.is_empty());
}

#[test]
fn keep_last_beyond_count_is_empty_success() {
    let (_, mut catalog) = three_dumps([NOW - 2, NOW - 1, NOW]);
    let removed = catalog.delete_selected(&DeleteRequest::KeepLast(3), NOW).unwrap();
    assert!(removed.is_empty());
    let removed = catalog.delete_selected(&DeleteRequest::KeepLast(10), NOW).unwrap();
    assert!(removed.is_empty());
    assert_eq!(catalog.backups.len(), 3);

    let mut empty = IndexFile { backups: vec![] };
    assert_eq!(empty.delete_selected(&DeleteRequest::KeepLast(1), NOW), Ok(vec![]));
    assert_eq!(empty.delete_selected(&DeleteRequest::OlderThan("1d".to_string()), NOW), Ok(vec![]));
}

#[test]
fn test_delete_older_than() {
    let (_, mut catalog) = three_dumps([NOW - 5 * DAY_MILLIS, NOW - 3 * DAY_MILLIS, NOW]);

    // older than 6 days removes nothing
    let removed = catalog.delete_selected(&DeleteRequest::OlderThan("6d".to_string()), NOW).unwrap();
    assert!(removed.is_empty());
    assert_eq!(catalog.backups.len(), 3);

    // older than 4 days removes dump-1
    let removed = catalog.delete_selected(&DeleteRequest::OlderThan("4d".to_string()), NOW).unwrap();
    assert_eq!(removed, vec!["dump-1".to_string()]);
    assert_eq!(catalog.backups.len(), 2);
    assert!(has(&catalog, "dump-2"));
    assert!(has(&catalog, "dump-3"));

    // older than 1 day removes dump-2
    let removed = catalog.delete_selected(&DeleteRequest::OlderThan("1d".to_string()), NOW).unwrap();
    assert_eq!(removed, vec!["dump-2".to_string()]);
    assert_eq!(catalog.backups.len(), 1);
    assert!(has(&catalog, "dump-3"));

    // older than 0 days, a moment later, removes dump-3
    let removed = catalog
        .delete_selected(&DeleteRequest::OlderThan("0d".to_string()), NOW + 1)
        .unwrap();
    assert_eq!(removed, vec!["dump-3".to_string()]);
    assert_eq!(catalog.backups.len(), 0);
}

#[test]
fn older_than_with_bad_age_fails_and_keeps_catalog() {
    let (_, mut catalog) = three_dumps([NOW - 5 * DAY_MILLIS, NOW - 3 * DAY_MILLIS, NOW]);
    for bad in ["", "d", "5", "5h", "x5d", "-5d", "99999999999999999999d"] {
        let r = catalog.delete_selected(&DeleteRequest::OlderThan(bad.to_string()), NOW);
        assert_eq!(r, Err(DatastoreError::InvalidDuration), "{}", bad);
    }
    assert_eq!(catalog.backups.len(), 3);
}

#[test]
fn parse_day_count_values() {
    assert_eq!(parse_day_count("6d"), Ok(6 * 86_400_000));
    assert_eq!(parse_day_count("0d"), Ok(0));
    assert_eq!(parse_day_count("10d"), Ok(864_000_000));
    assert_eq!(parse_day_count("213503982334d"), Ok(213_503_982_334 * 86_400_000));
    assert_eq!(parse_day_count("213503982335d"), Err(DatastoreError::InvalidDuration));
    assert_eq!(parse_day_count("1dd"), Err(DatastoreError::InvalidDuration));
}

#[test]
fn catalog_accounting_sums_chunk_lengths() {
    let mut disk = LocalDisk::new("/tmp/store".to_string());
    let (mut catalog, _) = disk.create_index_file(Err(DatastoreError::NotFound)).unwrap();
    write_chunk(&mut disk, &mut catalog, "other", b"abc", NOW - 100);
    write_chunk(&mut disk, &mut catalog, "dump-a", b"12345", NOW);
    write_chunk(&mut disk, &mut catalog, "dump-a", b"1234567", NOW + 1);
    write_chunk(&mut disk, &mut catalog, "dump-a", b"", NOW + 2);
    write_chunk(&mut disk, &mut catalog, "dump-a", b"12", NOW + 3);
    assert_eq!(catalog.backups.len(), 2);
    let b = catalog.find_backup(&ReadOptions::Backup { name: "dump-a".to_string() }).unwrap();
    assert_eq!(b.size, 14);
    assert_eq!(b.created_at, NOW);
    assert_eq!(catalog.backups[0].size, 3);
}

#[test]
fn flags_are_fixed_at_creation() {
    let mut disk = LocalDisk::new("/tmp/store".to_string());
    let (mut catalog, _) = disk.create_index_file(Err(DatastoreError::NotFound)).unwrap();
    disk.set_compression(false);
    write_chunk(&mut disk, &mut catalog, "dump-a", b"first", NOW);
    disk.set_compression(true);
    disk.set_encryption_key("SECRET-REDACTED".to_string());
    write_chunk(&mut disk, &mut catalog, "dump-a", b"second", NOW + 1);
    let b = &catalog.backups[0];
    assert!(!b.compressed);
    assert!(!b.encrypted);
    assert_eq!(b.size, 11);

    write_chunk(&mut disk, &mut catalog, "dump-b", b"third", NOW + 2);
    assert!(catalog.backups[1].compressed);
    assert!(catalog.backups[1].encrypted);
}

#[test]
fn read_of_encrypted_backup_without_key_is_misconfiguration() {
    let mut disk = LocalDisk::new("/tmp/store".to_string());
    let backup = Backup {
        directory_name: "dump-1".to_string(),
        size: 10,
        created_at: NOW,
        compressed: true,
        encrypted: true,
    };
    assert_eq!(disk.read_transforms(&backup).err(), Some(DatastoreError::Misconfiguration));
    disk.set_encryption_key("k1".to_string());
    disk.set_compression(false);
    let t = disk.read_transforms(&backup).unwrap();
    assert!(t.compress);
    assert_eq!(t.encryption_key, Some("k1".to_string()));
    disk.clear_encryption_key();
    assert!(disk.encryption_key().is_none());
    assert!(disk.read_transforms(&backup).is_err());
}

#[test]
fn read_of_plain_backup_ignores_key() {
    let mut disk = LocalDisk::new("/tmp/store".to_string());
    disk.set_encryption_key("k1".to_string());
    let backup = Backup {
        directory_name: "dump-1".to_string(),
        size: 10,
        created_at: NOW,
        compressed: false,
        encrypted: false,
    };
    let t = disk.read_transforms(&backup).unwrap();
    assert!(!t.compress);
    assert!(t.encryption_key.is_none());
    let w = disk.write_transforms();
    assert!(w.compress);
    assert_eq!(w.encryption_key, Some("k1".to_string()));
}

#[test]
fn find_backup_selects_latest_or_named() {
    let (_, catalog) = three_dumps([NOW - 2, NOW, NOW - 1]);
    assert_eq!(catalog.find_backup(&ReadOptions::Latest).unwrap().directory_name, "dump-2");
    let named = ReadOptions::Backup { name: "dump-3".to_string() };
    assert_eq!(catalog.find_backup(&named).unwrap().created_at, NOW - 1);
    let missing = ReadOptions::Backup { name: "nope".to_string() };
    assert_eq!(catalog.find_backup(&missing).err(), Some(DatastoreError::NotFound));
    let empty = IndexFile { backups: vec![] };
    assert_eq!(empty.find_backup(&ReadOptions::Latest).err(), Some(DatastoreError::NotFound));
}

#[test]
fn chunk_file_names() {
    assert_eq!(LocalDisk::chunk_file_name(0), "0.dump");
    assert_eq!(LocalDisk::chunk_file_name(42), "42.dump");
    assert_eq!(LocalDisk::chunk_file_name(65535), "65535.dump");
}

#[test]
fn remove_backup_by_name() {
    let (_, mut catalog) = three_dumps([NOW - 2, NOW - 1, NOW]);
    catalog.remove_backup(&"dump-2".to_string());
    assert_eq!(names(&catalog), vec!["dump-1".to_string(), "dump-3".to_string()]);
    catalog.remove_backup(&"dump-9".to_string());
    assert_eq!(catalog.backups.len(), 2);
    assert_eq!(catalog.position_of(&"dump-3".to_string()), Some(1));
    assert_eq!(catalog.position_of(&"dump-2".to_string()), None);
}
