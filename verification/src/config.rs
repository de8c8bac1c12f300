//! Run configuration: the two root paths and the size parameters that steer
//! hashing and comparison.

use vstd::prelude::*;

verus! {

/// The value type of a partial-content hash.
pub type Key = u64;

/// Default chunk size for sequential (lockstep) comparison.
pub const READ_SIZE: usize = 64 * 1024;

/// Default number of leading bytes fed to the partial hash.
pub const HASH_BUF_SIZE: usize = 4 * 1024;

/// Default ceiling above which a file is never read whole into memory.
pub const MAX_FILE_SIZE: u64 = 1024 * 1024 * 1024;

/// Shared configuration handed to the core by the caller.
pub struct Config {
    pub lhs: String,
    pub rhs: String,
    pub output: Option<String>,
    pub verbose: bool,
    pub read_size: usize,
    pub hash_size: usize,
    pub max_file_size: u64,
    pub chunks_only: bool,
}

impl Default for Config {
    /// Both roots default to the current directory; the caller canonicalizes
    /// the paths before any traversal.
    fn default() -> (c: Config)
        ensures
            c.lhs@ == "."@,
            c.rhs@ == "."@,
            c.output is None,
            !c.verbose,
            c.read_size == READ_SIZE,
            c.hash_size == HASH_BUF_SIZE,
            c.max_file_size == MAX_FILE_SIZE,
            !c.chunks_only,
    {
        Config {
            lhs: ".".to_string(),
            rhs: ".".to_string(),
            output: None,
            verbose: false,
            read_size: READ_SIZE,
            hash_size: HASH_BUF_SIZE,
            max_file_size: MAX_FILE_SIZE,
            chunks_only: false,
        }
    }
}

} // verus!
