// End-to-end runs of the grouping engine over in-memory file contents: the
// test driver answers the engine's hash and comparison requests exactly as
// the I/O layer would, reading from byte vectors instead of files.

use rcompare::cmp::Comparator;
use rcompare::common::preprocess;
use rcompare::common::Processed;
use rcompare::engine::Engine;
use rcompare::engine::Request;
use rcompare::file::FileInfo;

struct TestFile {
    inode: u64,
    content: Vec<u8>,
}

fn tf(inode: u64, content: &[u8]) -> TestFile {
    TestFile { inode, content: content.to_vec() }
}

fn run_engine(
    files: &[TestFile],
    chunks_only: bool,
    read_size: usize,
    hash_size: usize,
    max_file_size: u64,
) -> Processed {
    let mut infos: Vec<FileInfo> = Vec::new();
    for (i, f) in files.iter().enumerate() {
        infos.push(FileInfo {
            inode: f.inode,
            size: f.content.len() as u64,
            path: format!("file-{}", i),
        });
    }
    let prep = preprocess(infos);
    let cmp = Comparator::new(read_size, hash_size, max_file_size);
    let mut eng = Engine::new(prep, cmp, chunks_only);
    loop {
        match eng.request() {
            Request::Hash { idx } => {
                let key = cmp.hash_file(&files[idx].content);
                eng.provide_hash(key);
            },
            Request::Compare { idx, rep, full } => {
                let a = &files[idx].content;
                let b = &files[rep].content;
                let verdict = if full {
                    cmp.compare_file_full(a, b)
                } else {
                    cmp.compare_chunked(a, b)
                };
                eng.provide_compare(verdict);
            },
            Request::Done => break,
        }
    }
    let (res, _trace) = eng.finish();
    res
}

fn run_default(files: &[TestFile]) -> Processed {
    run_engine(files, false, 4, 4, 1024)
}

#[test]
fn two_equal_files_form_one_group() {
    // Two roots each holding one file with the content "hello".
    let files = [tf(1, b"hello"), tf(2, b"hello")];
    let res = run_default(&files);
    assert_eq!(res.same, vec![vec![0usize, 1usize]]);
    assert!(res.unique.is_empty());
    assert!(res.zero.is_empty());
}

#[test]
fn zero_length_files_are_reported_separately() {
    // Even two empty files are never grouped as duplicates of each other.
    let files = [tf(1, b""), tf(2, b""), tf(3, b"x")];
    let res = run_default(&files);
    assert_eq!(res.zero, vec![0usize, 1usize]);
    assert_eq!(res.unique, vec![2usize]);
    assert!(res.same.is_empty());
}

#[test]
fn equal_size_different_content_both_unique() {
    let files = [tf(1, b"aaaaaaaaaa"), tf(2, b"bbbbbbbbbb")];
    let res = run_default(&files);
    assert!(res.same.is_empty());
    assert_eq!(res.unique, vec![0usize, 1usize]);
    assert!(res.zero.is_empty());
}

#[test]
fn oversized_files_use_sequential_strategy_and_still_match() {
    // Files above max_file_size must never be read whole: the engine asks
    // for a chunked comparison and still detects the duplicate.
    let content = b"0123456789abcdef";
    let files = [tf(1, content), tf(2, content)];
    let mut infos: Vec<FileInfo> = Vec::new();
    for (i, f) in files.iter().enumerate() {
        infos.push(FileInfo {
            inode: f.inode,
            size: f.content.len() as u64,
            path: format!("big-{}", i),
        });
    }
    let prep = preprocess(infos);
    // max_file_size of 8 puts the 16-byte files above the full-read ceiling
    let cmp = Comparator::new(2, 4, 8);
    let mut eng = Engine::new(prep, cmp, false);
    let mut saw_full = false;
    loop {
        match eng.request() {
            Request::Hash { idx } => {
                let key = cmp.hash_file(&files[idx].content);
                eng.provide_hash(key);
            },
            Request::Compare { idx, rep, full } => {
                saw_full = saw_full || full;
                let verdict = cmp.compare_chunked(&files[idx].content, &files[rep].content);
                eng.provide_compare(verdict);
            },
            Request::Done => break,
        }
    }
    let (res, _trace) = eng.finish();
    assert!(!saw_full);
    assert_eq!(res.same, vec![vec![0usize, 1usize]]);
    assert!(res.unique.is_empty());
}

#[test]
fn midsized_files_use_the_full_buffer_strategy() {
    // 2 * read_size < size < max_file_size selects full-buffer comparison.
    let content = b"0123456789abcdef";
    let files = [tf(1, content), tf(2, content)];
    let mut infos: Vec<FileInfo> = Vec::new();
    for (i, f) in files.iter().enumerate() {
        infos.push(FileInfo {
            inode: f.inode,
            size: f.content.len() as u64,
            path: format!("mid-{}", i),
        });
    }
    let prep = preprocess(infos);
    let cmp = Comparator::new(2, 4, 1024);
    let mut eng = Engine::new(prep, cmp, false);
    let mut compares: usize = 0;
    loop {
        match eng.request() {
            Request::Hash { idx } => {
                let key = cmp.hash_file(&files[idx].content);
                eng.provide_hash(key);
            },
            Request::Compare { idx, rep, full } => {
                assert!(full);
                compares += 1;
                let verdict = cmp.compare_file_full(&files[idx].content, &files[rep].content);
                eng.provide_compare(verdict);
            },
            Request::Done => break,
        }
    }
    assert_eq!(compares, 1);
    let (res, _trace) = eng.finish();
    assert_eq!(res.same, vec![vec![0usize, 1usize]]);
}

#[test]
fn hash_collision_is_never_proof_of_equality() {
    // Equal size, identical first hash_size bytes (so identical partial
    // hashes), different remainder: the engine must report two singletons.
    let files = [tf(1, b"\x01\x02\x03\x04\x09\x09"), tf(2, b"\x01\x02\x03\x04\x07\x07")];
    let res = run_engine(&files, false, 64, 4, 1024);
    assert!(res.same.is_empty());
    assert_eq!(res.unique, vec![0usize, 1usize]);
}

#[test]
fn identity_token_skips_comparison() {
    // Two paths with the same inode name the same file: the engine groups
    // them without ever asking for a content comparison.
    let files = [tf(7, b"abcd"), tf(7, b"abcd")];
    let mut infos: Vec<FileInfo> = Vec::new();
    for (i, f) in files.iter().enumerate() {
        infos.push(FileInfo {
            inode: f.inode,
            size: f.content.len() as u64,
            path: format!("link-{}", i),
        });
    }
    let prep = preprocess(infos);
    let cmp = Comparator::new(4, 4, 1024);
    let mut eng = Engine::new(prep, cmp, false);
    loop {
        match eng.request() {
            Request::Hash { idx } => {
                let key = cmp.hash_file(&files[idx].content);
                eng.provide_hash(key);
            },
            Request::Compare { .. } => {
                panic!("identity shortcut must avoid content comparison");
            },
            Request::Done => break,
        }
    }
    let (res, _trace) = eng.finish();
    assert_eq!(res.same, vec![vec![0usize, 1usize]]);
}

#[test]
fn hash_error_drops_the_index_from_the_report() {
    let files = [tf(1, b"hello"), tf(2, b"hello"), tf(3, b"hello")];
    let mut infos: Vec<FileInfo> = Vec::new();
    for (i, f) in files.iter().enumerate() {
        infos.push(FileInfo {
            inode: f.inode,
            size: f.content.len() as u64,
            path: format!("file-{}", i),
        });
    }
    let prep = preprocess(infos);
    let cmp = Comparator::new(4, 4, 1024);
    let mut eng = Engine::new(prep, cmp, false);
    loop {
        match eng.request() {
            Request::Hash { idx } => {
                if idx == 1 {
                    // the file at index 1 cannot be opened
                    eng.provide_hash_error();
                } else {
                    let key = cmp.hash_file(&files[idx].content);
                    eng.provide_hash(key);
                }
            },
            Request::Compare { idx, rep, full: _ } => {
                let verdict = cmp.compare_file_full(&files[idx].content, &files[rep].content);
                eng.provide_compare(verdict);
            },
            Request::Done => break,
        }
    }
    assert_eq!(eng.errors, vec![1usize]);
    let (res, _trace) = eng.finish();
    assert_eq!(res.same, vec![vec![0usize, 2usize]]);
    assert!(res.unique.is_empty());
    assert!(res.zero.is_empty());
}

#[test]
fn compare_error_drops_only_the_candidate() {
    let files = [tf(1, b"hello"), tf(2, b"hello")];
    let mut infos: Vec<FileInfo> = Vec::new();
    for (i, f) in files.iter().enumerate() {
        infos.push(FileInfo {
            inode: f.inode,
            size: f.content.len() as u64,
            path: format!("file-{}", i),
        });
    }
    let prep = preprocess(infos);
    let cmp = Comparator::new(4, 4, 1024);
    let mut eng = Engine::new(prep, cmp, false);
    loop {
        match eng.request() {
            Request::Hash { idx } => {
                let key = cmp.hash_file(&files[idx].content);
                eng.provide_hash(key);
            },
            Request::Compare { .. } => {
                // mid-comparison read failure
                eng.provide_compare_error();
            },
            Request::Done => break,
        }
    }
    assert_eq!(eng.errors, vec![1usize]);
    let (res, _trace) = eng.finish();
    assert!(res.same.is_empty());
    // the representative is unaffected and stays as a singleton
    assert_eq!(res.unique, vec![0usize]);
}

#[test]
fn engine_run_is_idempotent() {
    // Running the engine twice on an unmodified tree produces identical
    // zero/unique/same partitions.
    let files = [
        tf(1, b"hello"),
        tf(2, b"world"),
        tf(3, b"hello"),
        tf(4, b""),
        tf(5, b"longer content here"),
        tf(6, b"\x01\x02\x03\x04\x09"),
        tf(7, b"\x01\x02\x03\x04\x08"),
    ];
    let first = run_default(&files);
    let second = run_default(&files);
    assert_eq!(first.zero, second.zero);
    assert_eq!(first.unique, second.unique);
    assert_eq!(first.same, second.same);
}

#[test]
fn progress_reaches_total() {
    let files = [tf(1, b"aa"), tf(2, b"aa"), tf(3, b"bb"), tf(4, b"ccc")];
    let mut infos: Vec<FileInfo> = Vec::new();
    for (i, f) in files.iter().enumerate() {
        infos.push(FileInfo {
            inode: f.inode,
            size: f.content.len() as u64,
            path: format!("file-{}", i),
        });
    }
    let prep = preprocess(infos);
    let cmp = Comparator::new(4, 4, 1024);
    let mut eng = Engine::new(prep, cmp, false);
    let (done0, total) = eng.progress();
    assert_eq!(done0, 0);
    // indices 0, 1 and 2 share size 2; index 3 is of unique size
    assert_eq!(total, 3);
    loop {
        match eng.request() {
            Request::Hash { idx } => {
                let key = cmp.hash_file(&files[idx].content);
                eng.provide_hash(key);
            },
            Request::Compare { idx, rep, full: _ } => {
                let verdict = cmp.compare_file_full(&files[idx].content, &files[rep].content);
                eng.provide_compare(verdict);
            },
            Request::Done => break,
        }
    }
    let (done, total_after) = eng.progress();
    assert_eq!(done, 3);
    assert_eq!(total_after, 3);
}

#[test]
fn partition_is_complete_and_disjoint() {
    // Every discovered index appears in exactly one of zero, unique, or
    // exactly one same group.
    let files = [
        tf(1, b"hello"),
        tf(2, b"world"),
        tf(3, b"hello"),
        tf(4, b""),
        tf(5, b"ten bytes!"),
        tf(6, b"ten bytes?"),
        tf(7, b"hello"),
    ];
    let res = run_default(&files);
    for idx in 0..files.len() {
        let in_zero = res.zero.iter().filter(|&&i| i == idx).count();
        let in_unique = res.unique.iter().filter(|&&i| i == idx).count();
        let in_same: usize = res.same.iter().map(|g| g.iter().filter(|&&i| i == idx).count()).sum();
        assert_eq!(in_zero + in_unique + in_same, 1, "index {} misplaced", idx);
    }
    assert_eq!(res.same, vec![vec![0usize, 2usize, 6usize]]);
    assert_eq!(res.unique, vec![1usize, 4usize, 5usize]);
    assert_eq!(res.zero, vec![3usize]);
}

#[test]
fn outputs_are_sorted() {
    let files = [
        tf(1, b"dddd"),
        tf(2, b"cc"),
        tf(3, b"cc"),
        tf(4, b"aaa"),
        tf(5, b"aaa"),
        tf(6, b""),
        tf(7, b"x"),
    ];
    let res = run_default(&files);
    assert_eq!(res.zero, vec![5usize]);
    assert_eq!(res.unique, vec![0usize, 6usize]);
    // groups sorted by first member
    assert_eq!(res.same, vec![vec![1usize, 2usize], vec![3usize, 4usize]]);
}
