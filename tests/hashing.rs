use backup_tool::config::{Config, ConfigError};
use backup_tool::entry::{drop_empty_files, FileEntry, FileNanoTime, PathBytes};
use backup_tool::hash;
use backup_tool::StreamHasher;

#[test]
fn hash_keeps_first_half_of_blake3() {
    let h = hash::Hash::of_bytes(b"");
    assert_eq!(h.to_hex(), "af1349b9f5f9a1a6a0404dea36dcc949");
    assert_eq!(h.0.len(), 16);
}

#[test]
fn hex_of_hash_has_two_digits_per_byte() {
    let h = hash::Hash([0x00, 0x01, 0x0f, 0x10, 0xff, 0xa5, 0, 0, 0, 0, 0, 0, 0, 0, 0, 0x7e]);
    assert_eq!(h.to_hex(), "00010f10ffa50000000000000000007e");
}

#[test]
fn streamed_hash_equals_hash_of_whole() {
    let data: Vec<u8> = (0..5000u32).map(|i| (i % 251) as u8).collect();
    let mut s = StreamHasher::new();
    for piece in data.chunks(333) {
        s.update(piece);
    }
    assert_eq!(s.finalize(), hash::Hash::of_bytes(&data));
}

#[test]
fn finalize_midway_does_not_stop_the_stream() {
    let mut s = StreamHasher::new();
    s.update(b"hello ");
    assert_eq!(s.finalize(), hash::Hash::of_bytes(b"hello "));
    s.update(b"world");
    assert_eq!(s.finalize(), hash::Hash::of_bytes(b"hello world"));
    assert_ne!(hash::Hash::of_bytes(b"hello "), hash::Hash::of_bytes(b"hello world"));
}

#[test]
fn default_sizes_parse() {
    let c = Config::parse("128MiB", "3GiB").unwrap();
    assert_eq!(c.chunk_size(), 134217728);
    assert_eq!(c.backup_size(), 3221225472);
}

#[test]
fn plain_byte_counts_parse() {
    let c = Config::parse("4", "10").unwrap();
    assert_eq!((c.chunk_size(), c.backup_size()), (4, 10));
}

#[test]
fn backup_size_below_chunk_size_is_refused() {
    assert_eq!(Config::parse("8", "7").unwrap_err(), ConfigError::BackupSmallerThanChunk);
    assert_eq!(Config::new(10, 9).unwrap_err(), ConfigError::BackupSmallerThanChunk);
}

#[test]
fn equal_sizes_are_accepted() {
    assert!(Config::new(8, 8).is_ok());
}

#[test]
fn zero_chunk_size_is_refused() {
    assert_eq!(Config::new(0, 9).unwrap_err(), ConfigError::ZeroChunkSize);
}

#[test]
fn unreadable_sizes_are_refused() {
    assert_eq!(Config::parse("lots", "3GiB").unwrap_err(), ConfigError::InvalidChunkSize);
    assert_eq!(Config::parse("1MiB", "huge").unwrap_err(), ConfigError::InvalidBackupSize);
}

#[test]
fn nano_time_combines_seconds_and_nanos() {
    assert_eq!(FileNanoTime::from_parts(1, 5), Some(FileNanoTime(1000000005)));
    assert_eq!(FileNanoTime::from_parts(0, 0), Some(FileNanoTime(0)));
    assert_eq!(FileNanoTime::from_parts(-1, 0), None);
    assert_eq!(FileNanoTime::from_parts(i64::MAX, 0), None);
}

#[test]
fn full_path_joins_with_one_separator() {
    let e = FileEntry { path: PathBytes(b"a/b.txt".to_vec()), size: 1, mtime: FileNanoTime(0) };
    assert_eq!(e.full_path(&PathBytes(b"/src".to_vec())).0, b"/src/a/b.txt".to_vec());
    assert_eq!(e.full_path(&PathBytes(b"/src/".to_vec())).0, b"/src/a/b.txt".to_vec());
    assert_eq!(e.full_path(&PathBytes(Vec::new())).0, b"a/b.txt".to_vec());
}

#[test]
fn empty_files_are_left_out() {
    let entries = vec![
        FileEntry { path: PathBytes(b"a".to_vec()), size: 5, mtime: FileNanoTime(1) },
        FileEntry { path: PathBytes(b"e".to_vec()), size: 0, mtime: FileNanoTime(2) },
        FileEntry { path: PathBytes(b"b".to_vec()), size: 7, mtime: FileNanoTime(3) },
    ];
    let kept = drop_empty_files(entries);
    let paths: Vec<Vec<u8>> = kept.iter().map(|e| e.path.0.clone()).collect();
    assert_eq!(paths, vec![b"a".to_vec(), b"b".to_vec()]);
}

#[test]
fn hash_key_reads_first_eight_bytes_little_endian() {
    let h = hash::Hash([1, 2, 3, 4, 5, 6, 7, 8, 9, 9, 9, 9, 9, 9, 9, 9]);
    assert_eq!(h.key(), 0x0807060504030201);
}
