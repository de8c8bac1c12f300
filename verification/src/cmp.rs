//! Content comparison: partial hashing of a file's leading bytes, full-buffer
//! byte comparison, and lockstep chunked comparison, together with the proof
//! that both comparison strategies decide exactly byte equality.

use vstd::prelude::*;

use crate::config::Config;
use crate::config::Key;

verus! {

/// The digest fasthash's MetroHash-64 assigns to a byte string.
pub uninterp spec fn metro_key(bytes: Seq<u8>) -> u64;

/// Relies on fasthash's `MetroHasher` (`metro::Hasher64_1`, unseeded): the
/// hasher buffers the written bytes and `finish` digests them, so the result
/// is a function of the written bytes alone.
#[verifier::external_body]
fn metro_hash(bytes: &[u8]) -> (k: u64)
    ensures
        k == metro_key(bytes@),
{
    let mut hasher = fasthash::MetroHasher::default();
    std::hash::Hasher::write(&mut hasher, bytes);
    std::hash::Hasher::finish(&hasher)
}

/// The prefix of `bytes` that the partial hash covers: at most `hash_size`
/// leading bytes.
pub open spec fn hash_prefix(bytes: Seq<u8>, hash_size: usize) -> Seq<u8> {
    if bytes.len() <= hash_size {
        bytes
    } else {
        bytes.take(hash_size as int)
    }
}

/// One step of the lockstep chunked comparison, reported to the read loop.
#[derive(Debug, Clone, Copy, PartialEq, Eq, Structural)]
pub enum LockstepStep {
    /// Chunks agree and hold data: read the next pair of chunks.
    Advance,
    /// Both sides reported end of file together: the files are equal.
    Equal,
    /// Chunk lengths or chunk contents differ: the files are not equal.
    NotEqual,
}

/// The chunk the lockstep comparison reads next from a remainder `s`:
/// `chunk` bytes, or all of `s` if fewer are left.
pub open spec fn lockstep_chunk(s: Seq<u8>, chunk: nat) -> Seq<u8> {
    if s.len() <= chunk {
        s
    } else {
        s.take(chunk as int)
    }
}

/// The verdict of the sequential strategy on remainders `a` and `b`: read a
/// chunk from each side in lockstep; unequal chunks end the run with "not
/// equal", two empty chunks end it with "equal".
pub open spec fn lockstep_equal(a: Seq<u8>, b: Seq<u8>, chunk: nat) -> bool
    decreases a.len(),
{
    let ca = lockstep_chunk(a, chunk);
    let cb = lockstep_chunk(b, chunk);
    if ca != cb {
        false
    } else if ca.len() == 0 {
        true
    } else {
        lockstep_equal(a.skip(ca.len() as int), b.skip(cb.len() as int), chunk)
    }
}

/// Strategy equivalence: for any pair of contents and any positive chunk
/// size, the sequential lockstep comparison reaches the same verdict as
/// whole-content byte comparison.
pub proof fn lemma_strategy_equivalence(a: Seq<u8>, b: Seq<u8>, chunk: nat)
    requires
        chunk > 0,
    ensures
        lockstep_equal(a, b, chunk) <==> a == b,
    decreases a.len(),
{
    let ca = lockstep_chunk(a, chunk);
    let cb = lockstep_chunk(b, chunk);
    if ca != cb {
        if a == b {
            assert(ca == cb);
        }
    } else if ca.len() == 0 {
        assert(a.len() == 0 && b.len() == 0);
        assert(a =~= b);
    } else {
        let m = ca.len() as int;
        lemma_strategy_equivalence(a.skip(m), b.skip(m), chunk);
        assert(a =~= ca + a.skip(m));
        assert(b =~= cb + b.skip(m));
        if a == b {
            assert(a.skip(m) == b.skip(m));
        }
        if lockstep_equal(a, b, chunk) {
            assert(lockstep_equal(a.skip(m), b.skip(m), chunk));
            assert(a =~= b);
        }
    }
}

/// The content comparator: the size parameters that steer hashing and
/// strategy selection, shared by every comparison of a run.
#[derive(Debug, Clone, Copy)]
pub struct Comparator {
    pub read_size: usize,
    pub hash_size: usize,
    pub max_file_size: u64,
}

/// Whether a bucket of files of length `size` is compared by reading each
/// file whole (full-buffer strategy) rather than in lockstep chunks.
pub open spec fn spec_uses_full(c: Comparator, size: u64, chunks_only: bool) -> bool {
    &&& !chunks_only
    &&& size > 2 * (c.read_size as int)
    &&& size < c.max_file_size
}

impl Comparator {
    pub fn new(read_size: usize, hash_size: usize, max_file_size: u64) -> (c: Comparator)
        ensures
            c.read_size == read_size,
            c.hash_size == hash_size,
            c.max_file_size == max_file_size,
    {
        Comparator { read_size, hash_size, max_file_size }
    }

    pub fn from_config(config: &Config) -> (c: Comparator)
        ensures
            c.read_size == config.read_size,
            c.hash_size == config.hash_size,
            c.max_file_size == config.max_file_size,
    {
        Comparator::new(config.read_size, config.hash_size, config.max_file_size)
    }

    /// Partial hash of a file: the digest of at most `hash_size` leading
    /// bytes. The caller supplies the bytes it read from the start of the
    /// file; anything past `hash_size` is ignored.
    pub fn hash_file(&self, prefix: &[u8]) -> (k: Key)
        ensures
            k == metro_key(hash_prefix(prefix@, self.hash_size)),
    {
        if prefix.len() <= self.hash_size {
            metro_hash(prefix)
        } else {
            let part = &prefix[0..self.hash_size];
            proof {
                assert(part@ =~= prefix@.take(self.hash_size as int));
            }
            metro_hash(part)
        }
    }

    /// Full-buffer strategy: compares two whole contents byte for byte.
    pub fn compare_file_full(&self, lhs: &[u8], rhs: &[u8]) -> (eq: bool)
        ensures
            eq <==> lhs@ == rhs@,
    {
        if lhs.len() != rhs.len() {
            return false;
        }
        let mut i: usize = 0;
        while i < lhs.len()
            invariant
                i <= lhs@.len(),
                lhs@.len() == rhs@.len(),
                forall|j: int| 0 <= j < i ==> lhs@[j] == rhs@[j],
            decreases lhs@.len() - i,
        {
            if lhs[i] != rhs[i] {
                return false;
            }
            i += 1;
        }
        proof {
            assert(lhs@ =~= rhs@);
        }
        true
    }

    /// One step of the sequential strategy. `lhs` and `rhs` are the chunks
    /// the two read loops produced in lockstep, each exactly the bytes read.
    pub fn compare_file_seq(&self, lhs: &[u8], rhs: &[u8]) -> (step: LockstepStep)
        ensures
            step == LockstepStep::NotEqual <==> lhs@ != rhs@,
            step == LockstepStep::Equal <==> lhs@ == rhs@ && lhs@.len() == 0,
            step == LockstepStep::Advance <==> lhs@ == rhs@ && lhs@.len() > 0,
    {
        if !self.compare_file_full(lhs, rhs) {
            LockstepStep::NotEqual
        } else if lhs.len() == 0 {
            LockstepStep::Equal
        } else {
            LockstepStep::Advance
        }
    }

    /// The sequential strategy run to completion over in-memory contents:
    /// chunks of `read_size` bytes are compared in lockstep until a mismatch
    /// or simultaneous end of data.
    pub fn compare_chunked(&self, lhs: &[u8], rhs: &[u8]) -> (eq: bool)
        requires
            self.read_size > 0,
        ensures
            eq == lockstep_equal(lhs@, rhs@, self.read_size as nat),
            eq <==> lhs@ == rhs@,
    {
        proof {
            lemma_strategy_equivalence(lhs@, rhs@, self.read_size as nat);
            assert(lhs@.skip(0) =~= lhs@);
            assert(rhs@.skip(0) =~= rhs@);
        }
        let ghost cs = self.read_size as nat;
        let mut oa: usize = 0;
        let mut ob: usize = 0;
        loop
            invariant
                self.read_size > 0,
                oa <= lhs@.len(),
                ob <= rhs@.len(),
                lockstep_equal(lhs@.skip(oa as int), rhs@.skip(ob as int), cs) == lockstep_equal(
                    lhs@,
                    rhs@,
                    cs,
                ),
                cs == self.read_size as nat,
                lockstep_equal(lhs@, rhs@, cs) == (lhs@ == rhs@),
            decreases lhs@.len() - oa,
        {
            let ra = lhs.len() - oa;
            let na = if ra < self.read_size {
                ra
            } else {
                self.read_size
            };
            let rb = rhs.len() - ob;
            let nb = if rb < self.read_size {
                rb
            } else {
                self.read_size
            };
            let ca = &lhs[oa..oa + na];
            let cb = &rhs[ob..ob + nb];
            proof {
                assert(ca@ =~= lockstep_chunk(lhs@.skip(oa as int), cs));
                assert(cb@ =~= lockstep_chunk(rhs@.skip(ob as int), cs));
            }
            match self.compare_file_seq(ca, cb) {
                LockstepStep::NotEqual => {
                    return false;
                },
                LockstepStep::Equal => {
                    return true;
                },
                LockstepStep::Advance => {
                    proof {
                        assert(lhs@.skip(oa as int).skip(na as int) =~= lhs@.skip(oa + na));
                        assert(rhs@.skip(ob as int).skip(nb as int) =~= rhs@.skip(ob + nb));
                    }
                    oa = oa + na;
                    ob = ob + nb;
                },
            }
        }
    }

    /// Strategy selection for one bucket, decided once from the bucket's
    /// shared file size.
    pub fn uses_full(&self, size: u64, chunks_only: bool) -> (b: bool)
        ensures
            b == spec_uses_full(*self, size, chunks_only),
    {
        if chunks_only {
            return false;
        }
        let double: u128 = (self.read_size as u128) * 2;
        (size as u128) > double && size < self.max_file_size
    }
}

} // verus!

