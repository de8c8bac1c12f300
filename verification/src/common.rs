//! The shared result structures of a run, and the size-bucketing
//! preprocessor that partitions record indices before any content is read.

use vstd::prelude::*;

use crate::counting::count_in;
use crate::counting::count_keyed;
use crate::counting::count_nested;
use crate::counting::lemma_count_in_contains;
use crate::counting::lemma_count_in_push;
use crate::counting::lemma_count_keyed_contains;
use crate::counting::lemma_count_keyed_drop_last;
use crate::counting::lemma_count_keyed_push;
use crate::counting::lemma_count_keyed_update;
use crate::counting::lemma_count_nested_contains;
use crate::counting::lemma_count_nested_push;
use crate::counting::sorted_indices;
use crate::counting::KeyedIndices;
use crate::file::FileInfo;

verus! {

/// The size of the record at index `x` of the flat record list.
pub open spec fn size_of_idx(info: Seq<FileInfo>, x: usize) -> u64 {
    info[x as int].size
}

/// Outcome of grouping one size bucket: confirmed duplicate groups, indices
/// with no match in the bucket, and indices that could not be processed.
#[derive(Debug, Default, Clone)]
pub struct FileSeparation {
    pub same: Vec<Vec<usize>>,
    pub unique: Vec<usize>,
    pub errors: Vec<usize>,
}

/// The preprocessor's partition of all discovered record indices: zero-length
/// files, indices of globally unique size, and one bucket per size value
/// shared by at least two candidates.
#[derive(Debug, Default, Clone)]
pub struct Preprocessed {
    pub info: Vec<FileInfo>,
    pub zero: Vec<usize>,
    pub unique: Vec<usize>,
    pub same: Vec<Vec<usize>>,
    pub to_process: Vec<Vec<usize>>,
}

/// The final report: the shared record list, zero-length files, indices with
/// no content duplicate, and the confirmed duplicate groups. Zero-length
/// files are a category of their own by design: they are never reported as
/// duplicates of each other, although their contents trivially agree.
#[derive(Debug, Default, Clone)]
pub struct Processed {
    pub info: Vec<FileInfo>,
    pub zero: Vec<usize>,
    pub unique: Vec<usize>,
    pub same: Vec<Vec<usize>>,
}

/// Errors raised while resolving a report's indices for serialization.
#[derive(Debug)]
#[non_exhaustive]
pub enum ProcessedSerializationError {
    Message(String),
    IndexError(usize),
}

impl Preprocessed {
    /// Well-formedness of a preprocessor result: the buckets, the unique list
    /// and the zero list exactly partition the indices of `info`, buckets
    /// hold at least two candidates of one shared nonzero size, sizes differ
    /// across buckets, unique indices share their size with nobody, and the
    /// zero list holds exactly the zero-length records.
    pub open spec fn wf(self) -> bool {
        let n = self.info@.len();
        &&& self.same@.len() == 0
        &&& forall|x: usize|
            #![trigger count_in(self.zero@, x)]
            count_in(self.zero@, x) + count_in(self.unique@, x) + count_nested(
                self.to_process@,
                x,
            ) == if (x as int) < n {
                1nat
            } else {
                0nat
            }
        &&& forall|i: int|
            0 <= i < self.zero@.len() ==> (#[trigger] self.zero@[i] as int) < n && size_of_idx(
                self.info@,
                self.zero@[i],
            ) == 0
        &&& forall|x: usize| #![trigger count_in(self.zero@, x)]
            (x as int) < n && size_of_idx(self.info@, x) == 0 ==> count_in(self.zero@, x) == 1
        &&& forall|i: int|
            0 <= i < self.unique@.len() ==> (#[trigger] self.unique@[i] as int) < n && size_of_idx(
                self.info@,
                self.unique@[i],
            ) != 0
        &&& forall|i: int, y: usize|
            #![trigger self.unique@[i], size_of_idx(self.info@, y)]
            0 <= i < self.unique@.len() && (y as int) < n && y != self.unique@[i]
                ==> size_of_idx(self.info@, y) != size_of_idx(self.info@, self.unique@[i])
        &&& forall|b: int| 0 <= b < self.to_process@.len() ==> (#[trigger] self.to_process@[b])@.len() >= 2
        &&& forall|b: int, i: int|
            #![trigger self.to_process@[b]@[i]]
            0 <= b < self.to_process@.len() && 0 <= i < self.to_process@[b]@.len() ==> (
            self.to_process@[b]@[i] as int) < n && size_of_idx(
                self.info@,
                self.to_process@[b]@[i],
            ) != 0
        &&& forall|b: int, i: int, j: int|
            #![trigger self.to_process@[b]@[i], self.to_process@[b]@[j]]
            0 <= b < self.to_process@.len() && 0 <= i < self.to_process@[b]@.len() && 0 <= j
                < self.to_process@[b]@.len() ==> size_of_idx(self.info@, self.to_process@[b]@[i])
                == size_of_idx(self.info@, self.to_process@[b]@[j])
        &&& forall|b1: int, i: int, b2: int, j: int|
            #![trigger self.to_process@[b1]@[i], self.to_process@[b2]@[j]]
            0 <= b1 < self.to_process@.len() && 0 <= b2 < self.to_process@.len() && b1 != b2 && 0
                <= i < self.to_process@[b1]@.len() && 0 <= j < self.to_process@[b2]@.len()
                ==> size_of_idx(self.info@, self.to_process@[b1]@[i]) != size_of_idx(
                self.info@,
                self.to_process@[b2]@[j],
            )
    }
}

/// Position of the first keyed list of `buckets` filed under `key`.
fn find_key(buckets: &Vec<KeyedIndices>, key: u64) -> (r: Option<usize>)
    ensures
        r matches Some(b) ==> (b as int) < buckets@.len() && buckets@[b as int].key == key,
        r is None ==> forall|b: int| 0 <= b < buckets@.len() ==> (#[trigger] buckets@[b]).key != key,
{
    let mut b: usize = 0;
    while b < buckets.len()
        invariant
            b <= buckets@.len(),
            forall|j: int| 0 <= j < b ==> (#[trigger] buckets@[j]).key != key,
        decreases buckets@.len() - b,
    {
        if buckets[b].key == key {
            return Some(b);
        }
        b += 1;
    }
    None
}

/// Single-pass size bucketing: assigns each record its index in discovery
/// order, sets zero-length files aside, turns sizes shared by no other
/// candidate into `unique`, and leaves one bucket per size shared by at
/// least two candidates. No content is read; this is the whole preprocessor.
pub fn preprocess(info: Vec<FileInfo>) -> (p: Preprocessed)
    ensures
        p.info@ == info@,
        p.wf(),
        sorted_indices(p.zero@),
{
    let n = info.len();
    let mut zero: Vec<usize> = Vec::new();
    let mut buckets: Vec<KeyedIndices> = Vec::new();
    let mut idx: usize = 0;
    while idx < n
        invariant
            n == info@.len(),
            idx <= n,
            forall|x: usize|
                #![trigger count_in(zero@, x)]
                count_in(zero@, x) + count_keyed(buckets@, x) == if (x as int) < idx {
                    1nat
                } else {
                    0nat
                },
            forall|i: int|
                0 <= i < zero@.len() ==> (#[trigger] zero@[i] as int) < n && size_of_idx(
                    info@,
                    zero@[i],
                ) == 0,
            forall|i: int| 0 <= i < zero@.len() ==> (#[trigger] zero@[i]) < idx,
            sorted_indices(zero@),
            forall|b: int|
                0 <= b < buckets@.len() ==> (#[trigger] buckets@[b]).key != 0
                    && buckets@[b].items@.len() >= 1,
            forall|b: int, i: int|
                #![trigger buckets@[b].items@[i]]
                0 <= b < buckets@.len() && 0 <= i < buckets@[b].items@.len() ==> (
                buckets@[b].items@[i] as int) < n && size_of_idx(info@, buckets@[b].items@[i])
                    == buckets@[b].key,
            forall|b1: int, b2: int|
                0 <= b1 < buckets@.len() && 0 <= b2 < buckets@.len() && b1 != b2 ==> (
                #[trigger] buckets@[b1]).key != (#[trigger] buckets@[b2]).key,
        decreases n - idx,
    {
        let size = info[idx].size;
        if size == 0 {
            proof {
                assert forall|x: usize| true implies count_in(zero@.push(idx), x) == count_in(
                    zero@,
                    x,
                ) + (if idx == x {
                    1nat
                } else {
                    0nat
                }) by {
                    lemma_count_in_push(zero@, idx, x);
                }
            }
            zero.push(idx);
        } else {
            match find_key(&buckets, size) {
                Some(b) => {
                    let ghost old_buckets = buckets@;
                    let mut kl = buckets.remove(b);
                    kl.items.push(idx);
                    let ghost new_kl = kl;
                    buckets.insert(b, kl);
                    proof {
                        assert(buckets@ =~= old_buckets.update(b as int, new_kl));
                        assert forall|x: usize| true implies count_keyed(buckets@, x)
                            == count_keyed(old_buckets, x) + (if idx == x {
                            1nat
                        } else {
                            0nat
                        }) by {
                            lemma_count_in_push(old_buckets[b as int].items@, idx, x);
                            lemma_count_keyed_update(old_buckets, b as int, new_kl, x);
                        }
                    }
                },
                None => {
                    let ghost old_buckets = buckets@;
                    let mut items: Vec<usize> = Vec::new();
                    items.push(idx);
                    let kl = KeyedIndices { key: size, items };
                    let ghost new_kl = kl;
                    buckets.push(kl);
                    proof {
                        assert forall|x: usize| true implies count_keyed(buckets@, x)
                            == count_keyed(old_buckets, x) + (if idx == x {
                            1nat
                        } else {
                            0nat
                        }) by {
                            assert(new_kl.items@.skip(1) =~= Seq::<usize>::empty());
                            assert(count_in(Seq::<usize>::empty(), x) == 0);
                            lemma_count_keyed_push(old_buckets, new_kl, x);
                        }
                    }
                },
            }
        }
        idx += 1;
    }
    drain_buckets(info, zero, buckets)
}

/// Drains the size map: buckets of one candidate become `unique`, buckets of
/// two or more stay to be content-compared.
fn drain_buckets(info: Vec<FileInfo>, zero: Vec<usize>, buckets: Vec<KeyedIndices>) -> (p:
    Preprocessed)
    requires
        forall|x: usize|
            #![trigger count_in(zero@, x)]
            count_in(zero@, x) + count_keyed(buckets@, x) == if (x as int) < info@.len() {
                1nat
            } else {
                0nat
            },
        forall|i: int|
            0 <= i < zero@.len() ==> (#[trigger] zero@[i] as int) < info@.len() && size_of_idx(
                info@,
                zero@[i],
            ) == 0,
        forall|b: int|
            0 <= b < buckets@.len() ==> (#[trigger] buckets@[b]).key != 0
                && buckets@[b].items@.len() >= 1,
        forall|b: int, i: int|
            #![trigger buckets@[b].items@[i]]
            0 <= b < buckets@.len() && 0 <= i < buckets@[b].items@.len() ==> (
            buckets@[b].items@[i] as int) < info@.len() && size_of_idx(
                info@,
                buckets@[b].items@[i],
            ) == buckets@[b].key,
        forall|b1: int, b2: int|
            0 <= b1 < buckets@.len() && 0 <= b2 < buckets@.len() && b1 != b2 ==> (
            #[trigger] buckets@[b1]).key != (#[trigger] buckets@[b2]).key,
    ensures
        p.info@ == info@,
        p.zero@ == zero@,
        p.wf(),
{
    let ghost n = info@.len();
    proof {
        assert forall|x: usize| (x as int) < n && size_of_idx(info@, x) == 0 implies count_in(
            zero@,
            x,
        ) == 1 by {
            if count_keyed(buckets@, x) > 0 {
                lemma_count_keyed_contains(buckets@, x);
            }
        }
    }
    let mut buckets = buckets;
    let mut unique: Vec<usize> = Vec::new();
    let mut to_process: Vec<Vec<usize>> = Vec::new();
    while buckets.len() > 0
        invariant
            n == info@.len(),
            forall|x: usize|
                #![trigger count_in(zero@, x)]
                count_in(zero@, x) + count_in(unique@, x) + count_nested(to_process@, x)
                    + count_keyed(buckets@, x) == if (x as int) < n {
                    1nat
                } else {
                    0nat
                },
            forall|i: int|
                0 <= i < zero@.len() ==> (#[trigger] zero@[i] as int) < n && size_of_idx(
                    info@,
                    zero@[i],
                ) == 0,
            forall|x: usize| #![trigger count_in(zero@, x)]
                (x as int) < n && size_of_idx(info@, x) == 0 ==> count_in(zero@, x) == 1,
            forall|b: int|
                0 <= b < buckets@.len() ==> (#[trigger] buckets@[b]).key != 0
                    && buckets@[b].items@.len() >= 1,
            forall|b: int, i: int|
                #![trigger buckets@[b].items@[i]]
                0 <= b < buckets@.len() && 0 <= i < buckets@[b].items@.len() ==> (
                buckets@[b].items@[i] as int) < n && size_of_idx(info@, buckets@[b].items@[i])
                    == buckets@[b].key,
            forall|b1: int, b2: int|
                0 <= b1 < buckets@.len() && 0 <= b2 < buckets@.len() && b1 != b2 ==> (
                #[trigger] buckets@[b1]).key != (#[trigger] buckets@[b2]).key,
            forall|i: int|
                0 <= i < unique@.len() ==> (#[trigger] unique@[i] as int) < n && size_of_idx(
                    info@,
                    unique@[i],
                ) != 0,
            forall|i: int, y: usize|
                #![trigger unique@[i], size_of_idx(info@, y)]
                0 <= i < unique@.len() && (y as int) < n && y != unique@[i] ==> size_of_idx(
                    info@,
                    y,
                ) != size_of_idx(info@, unique@[i]),
            forall|i: int, b: int|
                0 <= i < unique@.len() && 0 <= b < buckets@.len() ==> size_of_idx(
                    info@,
                    #[trigger] unique@[i],
                ) != (#[trigger] buckets@[b]).key,
            forall|b: int| 0 <= b < to_process@.len() ==> (#[trigger] to_process@[b])@.len() >= 2,
            forall|b: int, i: int|
                #![trigger to_process@[b]@[i]]
                0 <= b < to_process@.len() && 0 <= i < to_process@[b]@.len() ==> (
                to_process@[b]@[i] as int) < n && size_of_idx(info@, to_process@[b]@[i]) != 0,
            forall|b: int, i: int, j: int|
                #![trigger to_process@[b]@[i], to_process@[b]@[j]]
                0 <= b < to_process@.len() && 0 <= i < to_process@[b]@.len() && 0 <= j
                    < to_process@[b]@.len() ==> size_of_idx(info@, to_process@[b]@[i])
                    == size_of_idx(info@, to_process@[b]@[j]),
            forall|b1: int, i: int, b2: int, j: int|
                #![trigger to_process@[b1]@[i], to_process@[b2]@[j]]
                0 <= b1 < to_process@.len() && 0 <= b2 < to_process@.len() && b1 != b2 && 0 <= i
                    < to_process@[b1]@.len() && 0 <= j < to_process@[b2]@.len() ==> size_of_idx(
                    info@,
                    to_process@[b1]@[i],
                ) != size_of_idx(info@, to_process@[b2]@[j]),
            forall|b1: int, i: int, b: int|
                #![trigger to_process@[b1]@[i], buckets@[b]]
                0 <= b1 < to_process@.len() && 0 <= i < to_process@[b1]@.len() && 0 <= b
                    < buckets@.len() ==> size_of_idx(info@, to_process@[b1]@[i])
                    != buckets@[b].key,
        decreases buckets@.len(),
    {
        let ghost old_buckets = buckets@;
        let ghost last = old_buckets.len() - 1;
        let kl = buckets.pop().unwrap();
        proof {
            assert(buckets@ =~= old_buckets.drop_last());
            assert(kl == old_buckets[last]);
        }
        let ghost s = kl.key;
        if kl.items.len() == 1 {
            let x = kl.items[0];
            proof {
                assert(old_buckets[last].items@[0] == x);
                assert(size_of_idx(info@, x) == s);
                assert forall|y: usize| true implies count_in(kl.items@, y) == (if y == x {
                    1nat
                } else {
                    0nat
                }) by {
                    assert(kl.items@.skip(1) =~= Seq::<usize>::empty());
                    assert(count_in(Seq::<usize>::empty(), y) == 0);
                    assert(kl.items@[0] == x);
                }
                assert((x as int) < n);
                assert forall|y: usize| (y as int) < n && y != x implies size_of_idx(info@, y)
                    != s by {
                    if size_of_idx(info@, y) == s {
                        assert(count_in(zero@, y) + count_in(unique@, y) + count_nested(
                            to_process@,
                            y,
                        ) + count_keyed(old_buckets, y) == 1);
                        if count_in(zero@, y) > 0 {
                            lemma_count_in_contains(zero@, y);
                        }
                        if count_in(unique@, y) > 0 {
                            lemma_count_in_contains(unique@, y);
                        }
                        if count_nested(to_process@, y) > 0 {
                            lemma_count_nested_contains(to_process@, y);
                        }
                        if count_keyed(old_buckets, y) > 0 {
                            lemma_count_keyed_contains(old_buckets, y);
                            let (b, i) = choose|b: int, i: int|
                                0 <= b < old_buckets.len() && 0 <= i
                                    < old_buckets[b].items@.len() && old_buckets[b].items@[i] == y;
                            assert(old_buckets[b].key == s);
                            assert(b == last);
                        }
                    }
                }
                let ghost old_unique = unique@;
                assert forall|y: usize| true implies count_in(old_unique.push(x), y) == count_in(
                    old_unique,
                    y,
                ) + (if x == y {
                    1nat
                } else {
                    0nat
                }) by {
                    lemma_count_in_push(old_unique, x, y);
                }
                assert forall|y: usize| true implies count_keyed(old_buckets, y) == count_keyed(
                    buckets@,
                    y,
                ) + count_in(kl.items@, y) by {
                    lemma_count_keyed_drop_last(old_buckets, y);
                    assert(old_buckets.last() == old_buckets[last]);
                }
            }
            unique.push(x);
        } else {
            proof {
                assert forall|y: usize| true implies count_keyed(old_buckets, y) == count_keyed(
                    buckets@,
                    y,
                ) + count_in(kl.items@, y) by {
                    lemma_count_keyed_drop_last(old_buckets, y);
                }
                let ghost old_tp = to_process@;
                assert forall|y: usize| true implies count_nested(old_tp.push(kl.items), y)
                    == count_nested(old_tp, y) + count_in(kl.items@, y) by {
                    lemma_count_nested_push(old_tp, kl.items, y);
                }
                assert forall|i: int| 0 <= i < kl.items@.len() implies (
                #[trigger] kl.items@[i] as int) < n && size_of_idx(info@, kl.items@[i]) == s by {
                    assert(old_buckets[last].items@[i] == kl.items@[i]);
                }
            }
            to_process.push(kl.items);
        }
    }
    Preprocessed { info, zero, unique, same: Vec::new(), to_process }
}

/// Resolves a list of record indices to references into the shared record
/// list; fails on the first index that lies outside the list.
pub fn map_to_file_info<'f>(v: &[usize], info: &'f [FileInfo]) -> (r: Result<
    Vec<&'f FileInfo>,
    ProcessedSerializationError,
>)
    ensures
        r is Ok <==> (forall|i: int| 0 <= i < v@.len() ==> (#[trigger] v@[i] as int) < info@.len()),
        r matches Ok(out) ==> out@.len() == v@.len() && (forall|i: int|
            0 <= i < v@.len() ==> *(#[trigger] out@[i]) == info@[v@[i] as int]),
        r matches Err(e) ==> (exists|i: int|
            0 <= i < v@.len() && (#[trigger] v@[i] as int) >= info@.len() && (e matches
                ProcessedSerializationError::IndexError(u) && u == v@[i])),
{
    let mut inner: Vec<&'f FileInfo> = Vec::new();
    let mut k: usize = 0;
    while k < v.len()
        invariant
            0 <= k <= v@.len(),
            inner@.len() == k,
            forall|i: int| 0 <= i < k ==> (#[trigger] v@[i] as int) < info@.len(),
            forall|i: int| 0 <= i < k ==> *(#[trigger] inner@[i]) == info@[v@[i] as int],
        decreases v@.len() - k,
    {
        let idx = v[k];
        if idx >= info.len() {
            return Err(ProcessedSerializationError::IndexError(idx));
        }
        inner.push(&info[idx]);
        k += 1;
    }
    Ok(inner)
}

} // verus!
