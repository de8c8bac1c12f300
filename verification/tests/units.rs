// Unit tests of the comparator, the preprocessor, the traversal policy and
// the report helpers.

use rcompare::cmp::Comparator;
use rcompare::cmp::LockstepStep;
use rcompare::common::map_to_file_info;
use rcompare::common::preprocess;
use rcompare::common::ProcessedSerializationError;
use rcompare::config::Config;
use rcompare::config::HASH_BUF_SIZE;
use rcompare::config::MAX_FILE_SIZE;
use rcompare::config::READ_SIZE;
use rcompare::file::entry_action;
use rcompare::file::EntryAction;
use rcompare::file::EntryKind;
use rcompare::file::FileInfo;

fn info(inode: u64, size: u64, path: &str) -> FileInfo {
    FileInfo { inode, size, path: path.to_string() }
}

#[test]
fn full_comparison_decides_byte_equality() {
    let cmp = Comparator::new(4, 4, 1024);
    assert!(cmp.compare_file_full(b"abcdef", b"abcdef"));
    assert!(!cmp.compare_file_full(b"abcdef", b"abcdeg"));
    assert!(!cmp.compare_file_full(b"abc", b"abcd"));
    assert!(cmp.compare_file_full(b"", b""));
}

#[test]
fn lockstep_step_reports_each_outcome() {
    let cmp = Comparator::new(4, 4, 1024);
    assert_eq!(cmp.compare_file_seq(b"abcd", b"abcd"), LockstepStep::Advance);
    assert_eq!(cmp.compare_file_seq(b"abcd", b"abce"), LockstepStep::NotEqual);
    assert_eq!(cmp.compare_file_seq(b"abcd", b"abc"), LockstepStep::NotEqual);
    assert_eq!(cmp.compare_file_seq(b"", b""), LockstepStep::Equal);
}

#[test]
fn strategies_agree_on_equality() {
    // Full-buffer and sequential chunked comparison reach the same verdict,
    // whatever chunk size drives the sequential side.
    let cmp = Comparator::new(3, 4, 1024);
    let pairs: [(&[u8], &[u8]); 5] = [
        (b"identical content", b"identical content"),
        (b"identical content", b"identical contenT"),
        (b"short", b"longer than short"),
        (b"", b""),
        (b"x", b""),
    ];
    for (a, b) in pairs {
        assert_eq!(cmp.compare_file_full(a, b), cmp.compare_chunked(a, b));
    }
}

#[test]
fn partial_hash_covers_only_the_prefix() {
    // hash_size is 4: bytes past the fourth must not change the key, so a
    // wrapper that handed its argument through unhashed would fail here.
    let cmp = Comparator::new(64, 4, 1024);
    let k1 = cmp.hash_file(b"\x01\x02\x03\x04\x09\x09\x09");
    let k2 = cmp.hash_file(b"\x01\x02\x03\x04\x07");
    let k3 = cmp.hash_file(b"\x01\x02\x03\x04");
    assert_eq!(k1, k2);
    assert_eq!(k1, k3);
    let k4 = cmp.hash_file(b"\x01\x02\x03\x05");
    assert_ne!(k1, k4);
}

#[test]
fn strategy_threshold_brackets_the_size() {
    let cmp = Comparator::new(10, 4, 100);
    // full only when 2 * read_size < size < max_file_size and not chunks-only
    assert!(!cmp.uses_full(20, false));
    assert!(cmp.uses_full(21, false));
    assert!(cmp.uses_full(99, false));
    assert!(!cmp.uses_full(100, false));
    assert!(!cmp.uses_full(21, true));
}

#[test]
fn preprocess_partitions_by_size() {
    let records = vec![
        info(1, 5, "a"),
        info(2, 5, "b"),
        info(3, 0, "empty"),
        info(4, 7, "lone"),
        info(5, 5, "c"),
    ];
    let prep = preprocess(records);
    assert_eq!(prep.zero, vec![2usize]);
    assert_eq!(prep.unique, vec![3usize]);
    assert_eq!(prep.to_process.len(), 1);
    let mut bucket = prep.to_process[0].clone();
    bucket.sort();
    assert_eq!(bucket, vec![0usize, 1usize, 4usize]);
    assert!(prep.same.is_empty());
    assert_eq!(prep.info.len(), 5);
}

#[test]
fn preprocess_of_nothing_is_empty() {
    let prep = preprocess(Vec::new());
    assert!(prep.zero.is_empty());
    assert!(prep.unique.is_empty());
    assert!(prep.to_process.is_empty());
}

#[test]
fn traversal_policy_keeps_files_and_directories_only() {
    assert_eq!(entry_action(EntryKind::RegularFile), EntryAction::Emit);
    assert_eq!(entry_action(EntryKind::Directory), EntryAction::Descend);
    // a named pipe next to a regular file of the same size is excluded
    assert_eq!(entry_action(EntryKind::Fifo), EntryAction::Skip);
    assert_eq!(entry_action(EntryKind::BlockDevice), EntryAction::Skip);
    assert_eq!(entry_action(EntryKind::CharDevice), EntryAction::Skip);
    assert_eq!(entry_action(EntryKind::Other), EntryAction::Skip);
}

#[test]
fn map_to_file_info_resolves_indices() {
    let records = vec![info(1, 5, "a"), info(2, 6, "b")];
    let resolved = map_to_file_info(&[1usize, 0usize], &records).unwrap();
    assert_eq!(resolved.len(), 2);
    assert_eq!(resolved[0].path, "b");
    assert_eq!(resolved[1].path, "a");
}

#[test]
fn map_to_file_info_rejects_bad_index() {
    let records = vec![info(1, 5, "a")];
    let err = map_to_file_info(&[0usize, 3usize], &records).unwrap_err();
    assert!(matches!(err, ProcessedSerializationError::IndexError(3)));
}

#[test]
fn config_defaults_match_the_documented_sizes() {
    let c = Config::default();
    assert_eq!(c.read_size, READ_SIZE);
    assert_eq!(c.read_size, 64 * 1024);
    assert_eq!(c.hash_size, HASH_BUF_SIZE);
    assert_eq!(c.hash_size, 4 * 1024);
    assert_eq!(c.max_file_size, MAX_FILE_SIZE);
    assert_eq!(c.max_file_size, 1024 * 1024 * 1024);
    assert_eq!(c.lhs, ".");
    assert_eq!(c.rhs, ".");
    assert!(!c.chunks_only);
    assert!(!c.verbose);
    assert!(c.output.is_none());
}

#[test]
fn comparator_from_config_copies_the_sizes() {
    let mut c = Config::default();
    c.read_size = 8;
    c.hash_size = 2;
    c.max_file_size = 50;
    let cmp = Comparator::from_config(&c);
    assert_eq!(cmp.read_size, 8);
    assert_eq!(cmp.hash_size, 2);
    assert_eq!(cmp.max_file_size, 50);
    let direct = Comparator::new(8, 2, 50);
    assert_eq!(direct.read_size, cmp.read_size);
}
