//! The grouping engine: a step-driven comparator that turns size buckets
//! into verified equivalence groups.
//!
//! The engine owns every decision of the run — which file to hash next,
//! which representative to compare against, where a candidate is filed — and
//! asks its driver only for the outside observations it cannot make itself:
//! the partial hash of a file's leading bytes and the verdict of one content
//! comparison. The driver loop asks for the next [`Request`], performs the
//! read, and answers through `provide_hash`, `provide_compare` or their
//! error forms; `finish` then assembles the sorted report.

use vstd::prelude::*;

use crate::cmp::spec_uses_full;
use crate::cmp::Comparator;
use crate::common::size_of_idx;
use crate::common::Preprocessed;
use crate::common::Processed;
use crate::counting::count_in;
use crate::counting::count_keyed;
use crate::counting::count_nested;
use crate::counting::sorted_indices;
use crate::counting::KeyedIndices;
use crate::file::FileInfo;

verus! {

/// The outside observation the engine needs next.
#[derive(Debug, Clone, Copy, PartialEq, Eq, Structural)]
pub enum Request {
    /// Read up to `hash_size` leading bytes of the file at `idx` and answer
    /// with their partial hash.
    Hash { idx: usize },
    /// Compare the contents of the files at `idx` and `rep`, whose identity
    /// tokens differ; `full` selects the full-buffer strategy, otherwise
    /// chunked lockstep comparison.
    Compare { idx: usize, rep: usize, full: bool },
    /// Every bucket is resolved; call `finish`.
    Done,
}

/// An index whose placement waits for a comparison verdict.
#[derive(Debug, Clone, Copy)]
pub struct Pending {
    /// The index being placed.
    pub idx: usize,
    /// Its partial-hash key.
    pub key: u64,
    /// The group whose representative the requested comparison is against.
    pub gpos: usize,
}

/// The ghost trace of a run: which key each index hashed to, which
/// comparisons succeeded and which failed. The correctness laws are stated
/// over this trace.
pub struct EngineLog {
    /// Key recorded for each hashed index.
    pub hkeys: Map<usize, u64>,
    /// For every index filed so far, the representative of its cell: the
    /// first member of its group, or the index itself when it stands alone.
    pub heads: Map<usize, usize>,
    /// `(idx, rep)` pairs whose comparison (or identity shortcut) said equal.
    pub joins: Seq<(usize, usize)>,
    /// `(idx, rep)` pairs whose comparison said not equal.
    pub refusals: Seq<(usize, usize)>,
}

/// Total number of candidate indices over all buckets.
pub open spec fn sum_lens(bs: Seq<Vec<usize>>) -> nat
    decreases bs.len(),
{
    if bs.len() == 0 {
        0
    } else {
        bs[0]@.len() + sum_lens(bs.skip(1))
    }
}

pub proof fn lemma_sum_lens_skip_step(bs: Seq<Vec<usize>>, i: int)
    requires
        0 <= i < bs.len(),
    ensures
        sum_lens(bs.skip(i)) == bs[i]@.len() + sum_lens(bs.skip(i + 1)),
{
    assert(bs.skip(i).len() > 0);
    assert(bs.skip(i)[0] == bs[i]);
    assert(bs.skip(i).skip(1) =~= bs.skip(i + 1));
}

/// After an index joins an existing group (by identity token or by a
/// confirmed comparison), the head bookkeeping still holds: the newcomer's
/// representative is the group's first member, and every pair of indices
/// under different representatives keeps its separation evidence.
proof fn lemma_join_preserves_heads(pre: Engine, post: Engine, idx: usize, key: u64, g: int)
    requires
        pre.wf_static(),
        pre.wf_groups(),
        pre.wf_lists(),
        pre.wf_heads(),
        pre.in_run(),
        (pre.ipos as int) < pre.cur_bucket().len(),
        idx == pre.cur_idx(),
        pre.log@.hkeys.contains_key(idx) && pre.log@.hkeys[idx] == key,
        0 <= g < pre.groups@.len(),
        pre.groups@[g].key == key,
        count_in(pre.unique@, idx) == 0,
        count_nested(pre.same@, idx) == 0,
        count_keyed(pre.groups@, idx) == 0,
        post.info@ == pre.info@,
        post.zero@ == pre.zero@,
        post.unique@ == pre.unique@,
        post.same@ == pre.same@,
        post.buckets@ == pre.buckets@,
        post.bpos == pre.bpos,
        post.ipos == pre.ipos,
        post.groups@.len() == pre.groups@.len(),
        post.groups@[g].key == key,
        post.groups@[g].items@ == pre.groups@[g].items@.push(idx),
        forall|g2: int|
            0 <= g2 < pre.groups@.len() && g2 != g ==> post.groups@[g2] == (
            #[trigger] pre.groups@[g2]),
        post.log@.hkeys == pre.log@.hkeys,
        post.log@.heads == pre.log@.heads.insert(idx, pre.groups@[g].items@[0]),
        post.log@.joins == pre.log@.joins.push((idx, pre.groups@[g].items@[0])),
        post.log@.refusals == pre.log@.refusals,
    ensures
        post.wf_groups(),
        post.wf_heads(),
{
    let lg = pre.log@;
    let lg2 = post.log@;
    let rep = pre.groups@[g].items@[0];
    assert(!lg.heads.contains_key(idx));
    crate::counting::lemma_count_keyed_member(pre.groups@, g, 0, rep);
    assert(lg.heads.contains_key(rep));
    assert(lg.heads[rep] == rep);
    assert(rep != idx);
    assert(count_in(pre.cur_bucket(), rep) > 0);
    crate::counting::lemma_count_in_contains(pre.cur_bucket(), rep);
    let pz = choose|p: int| 0 <= p < pre.cur_bucket().len() && pre.cur_bucket()[p] == rep;
    assert(pre.buckets@[pre.bpos as int]@[pz] == rep);
    assert(pre.buckets@[pre.bpos as int]@[pre.ipos as int] == idx);
    assert(size_of_idx(pre.info@, idx) == size_of_idx(pre.info@, rep));
    assert(lg.hkeys[rep] == key);
    crate::counting::lemma_push_contains(lg.joins, (idx, rep));
    assert(post.groups@ =~= pre.groups@.update(g, post.groups@[g]));
    assert forall|x: usize| true implies count_keyed(post.groups@, x) == count_keyed(pre.groups@, x)
        + (if x == idx {
        1nat
    } else {
        0nat
    }) by {
        crate::counting::lemma_count_in_push(pre.groups@[g].items@, idx, x);
        crate::counting::lemma_count_keyed_update(pre.groups@, g, post.groups@[g], x);
    }
    assert forall|gg: int, i: int|
        #![trigger post.groups@[gg].items@[i]]
        0 <= gg < post.groups@.len() && 0 <= i < post.groups@[gg].items@.len() implies {
        let m = post.groups@[gg].items@[i];
        &&& (m as int) < post.n()
        &&& lg2.hkeys.contains_key(m) && lg2.hkeys[m] == post.groups@[gg].key
        &&& (1 <= i ==> lg2.joins.contains((m, post.groups@[gg].items@[0])))
        &&& count_in(post.cur_bucket(), m) > 0
        &&& lg2.heads[m] == post.groups@[gg].items@[0]
    } by {
        if gg == g && i == post.groups@[gg].items@.len() - 1 {
            assert(post.groups@[gg].items@[i] == idx);
            assert(post.groups@[gg].items@[0] == rep);
            assert((idx as int) < post.n());
            crate::counting::lemma_count_in_member(pre.cur_bucket(), pre.ipos as int, idx);
        } else {
            assert(post.groups@[gg].items@[i] == pre.groups@[gg].items@[i]);
            assert(post.groups@[gg].items@[0] == pre.groups@[gg].items@[0]);
            let m = pre.groups@[gg].items@[i];
            crate::counting::lemma_count_keyed_member(pre.groups@, gg, i, m);
            assert(m != idx);
        }
    }
    assert forall|x: usize|
        #![trigger lg2.heads.contains_key(x)]
        true implies (lg2.heads.contains_key(x) <==> count_in(post.unique@, x) + count_nested(
        post.same@,
        x,
    ) + count_keyed(post.groups@, x) > 0) by {
        assert(lg.heads.contains_key(x) <==> count_in(pre.unique@, x) + count_nested(pre.same@, x)
            + count_keyed(pre.groups@, x) > 0);
    }
    assert forall|sg: int, i: int|
        #![trigger post.same@[sg]@[i]]
        0 <= sg < post.same@.len() && 0 <= i < post.same@[sg]@.len() implies lg2.heads[post.same@[sg]@[i]]
        == post.same@[sg]@[0] by {
        let m = pre.same@[sg]@[i];
        crate::counting::lemma_count_nested_member(pre.same@, sg, i, m);
        assert(m != idx);
    }
    assert forall|i: int| 0 <= i < post.unique@.len() implies lg2.heads[(
    #[trigger] post.unique@[i])] == post.unique@[i] by {
        let m = pre.unique@[i];
        crate::counting::lemma_count_in_member(pre.unique@, i, m);
        assert(m != idx);
    }
    assert forall|x: usize| #[trigger]
        lg2.heads.contains_key(x) implies x == lg2.heads[x] || lg2.joins.contains(
        (x, lg2.heads[x]),
    ) by {
        if x == idx {
            assert(lg2.heads[idx] == rep);
            assert(lg2.joins.contains((idx, rep)));
        } else {
            assert(lg2.heads[x] == lg.heads[x]);
        }
    }
    assert forall|x: usize, y: usize|
        #![trigger lg2.heads[x], lg2.heads[y]]
        lg2.heads.contains_key(x) && lg2.heads.contains_key(y) && lg2.heads[x] != lg2.heads[y]
        implies separated(post.info@, lg2, x, y) by {
        if x != idx && y != idx {
            assert(lg.heads[x] == lg2.heads[x] && lg.heads[y] == lg2.heads[y]);
            assert(separated(pre.info@, lg, x, y));
        } else if x == idx {
            assert(lg2.heads[x] == rep);
            assert(lg.heads[y] == lg2.heads[y] && lg.heads[y] != rep);
            assert(lg.heads[rep] != lg.heads[y]);
            assert(separated(pre.info@, lg, rep, y));
            if size_of_idx(pre.info@, rep) != size_of_idx(pre.info@, y) {
                assert(size_of_idx(post.info@, x) != size_of_idx(post.info@, y));
            } else if lg.hkeys.contains_key(rep) && lg.hkeys.contains_key(y) && lg.hkeys[rep]
                != lg.hkeys[y] {
                assert(lg2.hkeys[x] == key && lg2.hkeys[rep] == key);
            } else {
                assert(lg.refusals.contains((lg.heads[rep], lg.heads[y])) || lg.refusals.contains(
                    (lg.heads[y], lg.heads[rep]),
                ));
                assert(lg2.heads[x] == lg.heads[rep] && lg2.heads[y] == lg.heads[y]);
            }
        } else {
            assert(lg2.heads[y] == rep);
            assert(lg.heads[x] == lg2.heads[x] && lg.heads[x] != rep);
            assert(lg.heads[rep] != lg.heads[x]);
            assert(separated(pre.info@, lg, rep, x));
            if size_of_idx(pre.info@, rep) != size_of_idx(pre.info@, x) {
                assert(size_of_idx(post.info@, x) != size_of_idx(post.info@, y));
            } else if lg.hkeys.contains_key(rep) && lg.hkeys.contains_key(x) && lg.hkeys[rep]
                != lg.hkeys[x] {
                assert(lg2.hkeys[y] == key && lg2.hkeys[rep] == key);
            } else {
                assert(lg.refusals.contains((lg.heads[rep], lg.heads[x])) || lg.refusals.contains(
                    (lg.heads[x], lg.heads[rep]),
                ));
                assert(lg2.heads[y] == lg.heads[rep] && lg2.heads[x] == lg.heads[x]);
            }
        }
    }
}

/// After an index opens a new singleton group — having refused every group
/// under its key — the head bookkeeping still holds: the newcomer is its own
/// representative, and each pair with an already filed index carries
/// evidence: a refused comparison for groups under the same key, a
/// different key otherwise, and a different file size for anything filed
/// from another bucket.
proof fn lemma_singleton_preserves_heads(pre: Engine, post: Engine, idx: usize, key: u64)
    requires
        pre.wf_static(),
        pre.wf_groups(),
        pre.wf_lists(),
        pre.wf_heads(),
        pre.in_run(),
        (pre.ipos as int) < pre.cur_bucket().len(),
        idx == pre.cur_idx(),
        pre.log@.hkeys.contains_key(idx) && pre.log@.hkeys[idx] == key,
        forall|g: int|
            0 <= g < pre.groups@.len() && (#[trigger] pre.groups@[g]).key == key
                ==> pre.log@.refusals.contains((idx, pre.groups@[g].items@[0])),
        forall|x: usize|
            #![trigger count_in(pre.zero@, x)]
            pre.acct_at(x, pre.ipos + 1) + (if x == idx {
                1nat
            } else {
                0nat
            }) == if (x as int) < pre.n() {
                1nat
            } else {
                0nat
            },
        forall|i: int|
            0 <= i < pre.ipos + 1 ==> count_in(pre.unique@, #[trigger] pre.cur_bucket()[i]) == 0
                && count_nested(pre.same@, pre.cur_bucket()[i]) == 0,
        post.info@ == pre.info@,
        post.zero@ == pre.zero@,
        post.unique@ == pre.unique@,
        post.same@ == pre.same@,
        post.buckets@ == pre.buckets@,
        post.bpos == pre.bpos,
        post.ipos == pre.ipos,
        post.groups@.len() == pre.groups@.len() + 1,
        post.groups@.last().key == key,
        post.groups@.last().items@ == seq![idx],
        forall|g2: int|
            0 <= g2 < pre.groups@.len() ==> post.groups@[g2] == (#[trigger] pre.groups@[g2]),
        post.log@.hkeys == pre.log@.hkeys,
        post.log@.heads == pre.log@.heads.insert(idx, idx),
        post.log@.joins == pre.log@.joins,
        post.log@.refusals == pre.log@.refusals,
        post.unique0 == pre.unique0,
    ensures
        post.wf_groups(),
        post.wf_heads(),
{
    let lg = pre.log@;
    let lg2 = post.log@;
    let n = pre.n();
    assert(!lg.heads.contains_key(idx)) by {
        assert(pre.acct_at(idx, pre.ipos + 1) + 1nat == 1nat);
    }
    assert(count_in(pre.unique@, idx) == 0 && count_nested(pre.same@, idx) == 0 && count_keyed(
        pre.groups@,
        idx,
    ) == 0) by {
        assert(pre.acct_at(idx, pre.ipos + 1) + 1nat == 1nat);
    }
    assert(pre.buckets@[pre.bpos as int]@[pre.ipos as int] == idx);
    assert((idx as int) < n && size_of_idx(pre.info@, idx) != 0);
    assert(post.groups@ =~= pre.groups@.push(post.groups@.last()));
    assert forall|x: usize| true implies count_keyed(post.groups@, x) == count_keyed(pre.groups@, x)
        + (if x == idx {
        1nat
    } else {
        0nat
    }) by {
        assert(post.groups@.last().items@.skip(1) =~= Seq::<usize>::empty());
        assert(count_in(Seq::<usize>::empty(), x) == 0);
        crate::counting::lemma_count_keyed_push(pre.groups@, post.groups@.last(), x);
    }
    assert forall|gg: int, i: int|
        #![trigger post.groups@[gg].items@[i]]
        0 <= gg < post.groups@.len() && 0 <= i < post.groups@[gg].items@.len() implies {
        let m = post.groups@[gg].items@[i];
        &&& (m as int) < n
        &&& lg2.hkeys.contains_key(m) && lg2.hkeys[m] == post.groups@[gg].key
        &&& (1 <= i ==> lg2.joins.contains((m, post.groups@[gg].items@[0])))
        &&& count_in(post.cur_bucket(), m) > 0
        &&& lg2.heads[m] == post.groups@[gg].items@[0]
    } by {
        if gg == post.groups@.len() - 1 {
            assert(post.groups@[gg].items@[i] == idx);
            crate::counting::lemma_count_in_member(pre.cur_bucket(), pre.ipos as int, idx);
        } else {
            assert(post.groups@[gg].items@[i] == pre.groups@[gg].items@[i]);
            assert(post.groups@[gg].items@[0] == pre.groups@[gg].items@[0]);
            let m = pre.groups@[gg].items@[i];
            crate::counting::lemma_count_keyed_member(pre.groups@, gg, i, m);
            assert(m != idx);
        }
    }
    assert forall|x: usize|
        #![trigger lg2.heads.contains_key(x)]
        true implies (lg2.heads.contains_key(x) <==> count_in(post.unique@, x) + count_nested(
        post.same@,
        x,
    ) + count_keyed(post.groups@, x) > 0) by {
        assert(lg.heads.contains_key(x) <==> count_in(pre.unique@, x) + count_nested(pre.same@, x)
            + count_keyed(pre.groups@, x) > 0);
    }
    assert forall|sg: int, i: int|
        #![trigger post.same@[sg]@[i]]
        0 <= sg < post.same@.len() && 0 <= i < post.same@[sg]@.len() implies lg2.heads[post.same@[sg]@[i]]
        == post.same@[sg]@[0] by {
        let m = pre.same@[sg]@[i];
        crate::counting::lemma_count_nested_member(pre.same@, sg, i, m);
        assert(m != idx);
    }
    assert forall|i: int| 0 <= i < post.unique@.len() implies lg2.heads[(
    #[trigger] post.unique@[i])] == post.unique@[i] by {
        let m = pre.unique@[i];
        crate::counting::lemma_count_in_member(pre.unique@, i, m);
        assert(m != idx);
    }
    assert forall|x: usize| #[trigger]
        lg2.heads.contains_key(x) implies x == lg2.heads[x] || lg2.joins.contains(
        (x, lg2.heads[x]),
    ) by {
        if x != idx {
            assert(lg2.heads[x] == lg.heads[x]);
        }
    }
    assert forall|x: usize, y: usize|
        #![trigger lg2.heads[x], lg2.heads[y]]
        lg2.heads.contains_key(x) && lg2.heads.contains_key(y) && lg2.heads[x] != lg2.heads[y]
        implies separated(post.info@, lg2, x, y) by {
        if x != idx && y != idx {
            assert(lg.heads[x] == lg2.heads[x] && lg.heads[y] == lg2.heads[y]);
            assert(separated(pre.info@, lg, x, y));
        } else if x == idx {
            lemma_singleton_pair(pre, idx, key, y);
            assert(lg2.heads[y] == lg.heads[y] && lg2.heads[x] == idx);
        } else {
            lemma_singleton_pair(pre, idx, key, x);
            assert(lg2.heads[x] == lg.heads[x] && lg2.heads[y] == idx);
        }
    }
}

/// One pair of the singleton argument: a freshly refused index `idx` and
/// any already filed index `y` carry separation evidence.
proof fn lemma_singleton_pair(pre: Engine, idx: usize, key: u64, y: usize)
    requires
        pre.wf_static(),
        pre.wf_groups(),
        pre.wf_lists(),
        pre.wf_heads(),
        pre.in_run(),
        (pre.ipos as int) < pre.cur_bucket().len(),
        idx == pre.cur_idx(),
        pre.log@.hkeys.contains_key(idx) && pre.log@.hkeys[idx] == key,
        forall|g: int|
            0 <= g < pre.groups@.len() && (#[trigger] pre.groups@[g]).key == key
                ==> pre.log@.refusals.contains((idx, pre.groups@[g].items@[0])),
        forall|x: usize|
            #![trigger count_in(pre.zero@, x)]
            pre.acct_at(x, pre.ipos + 1) + (if x == idx {
                1nat
            } else {
                0nat
            }) == if (x as int) < pre.n() {
                1nat
            } else {
                0nat
            },
        forall|i: int|
            0 <= i < pre.ipos + 1 ==> count_in(pre.unique@, #[trigger] pre.cur_bucket()[i]) == 0
                && count_nested(pre.same@, pre.cur_bucket()[i]) == 0,
        pre.log@.heads.contains_key(y),
        y != idx,
    ensures
        size_of_idx(pre.info@, idx) != size_of_idx(pre.info@, y) || (
        pre.log@.hkeys.contains_key(idx) && pre.log@.hkeys.contains_key(y) && pre.log@.hkeys[idx]
            != pre.log@.hkeys[y]) || pre.log@.refusals.contains((idx, pre.log@.heads[y]))
            || pre.log@.refusals.contains((pre.log@.heads[y], idx)),
{
    let lg = pre.log@;
    let n = pre.n();
    assert(pre.buckets@[pre.bpos as int]@[pre.ipos as int] == idx);
    assert((idx as int) < n && size_of_idx(pre.info@, idx) != 0);
    assert(count_in(pre.unique@, y) + count_nested(pre.same@, y) + count_keyed(pre.groups@, y)
        > 0);
    if count_keyed(pre.groups@, y) > 0 {
        crate::counting::lemma_count_keyed_contains(pre.groups@, y);
        let (g, i) = choose|g: int, i: int|
            #![trigger pre.groups@[g].items@[i]]
            0 <= g < pre.groups@.len() && 0 <= i < pre.groups@[g].items@.len()
                && pre.groups@[g].items@[i] == y;
        assert(lg.heads[y] == pre.groups@[g].items@[0]);
        if pre.groups@[g].key == key {
            assert(lg.refusals.contains((idx, pre.groups@[g].items@[0])));
        } else {
            assert(lg.hkeys[y] == pre.groups@[g].key);
            assert(lg.hkeys.contains_key(y));
            assert(lg.hkeys[idx] != lg.hkeys[y]);
        }
    } else {
        assert(count_in(pre.unique@, y) + count_nested(pre.same@, y) > 0);
        if size_of_idx(pre.info@, y) == size_of_idx(pre.info@, idx) {
            assert((y as int) < n) by {
                if count_in(pre.unique@, y) > 0 {
                    crate::counting::lemma_count_in_contains(pre.unique@, y);
                } else {
                    crate::counting::lemma_count_nested_contains(pre.same@, y);
                }
            }
            assert(count_in(pre.zero@, y) + count_in(pre.unique0@, y) + count_nested(
                pre.buckets@,
                y,
            ) == 1);
            if count_in(pre.zero@, y) > 0 {
                crate::counting::lemma_count_in_contains(pre.zero@, y);
                let i = choose|i: int| 0 <= i < pre.zero@.len() && pre.zero@[i] == y;
                assert(size_of_idx(pre.info@, pre.zero@[i]) == 0);
                assert(false);
            } else if count_in(pre.unique0@, y) > 0 {
                crate::counting::lemma_count_in_contains(pre.unique0@, y);
                let i = choose|i: int| 0 <= i < pre.unique0@.len() && pre.unique0@[i] == y;
                assert(pre.unique0@[i] == y);
                assert(size_of_idx(pre.info@, idx) != size_of_idx(pre.info@, pre.unique0@[i]));
                assert(false);
            } else {
                assert(count_nested(pre.buckets@, y) > 0);
                crate::counting::lemma_count_nested_contains(pre.buckets@, y);
                let (b, i) = choose|b: int, i: int|
                    #![trigger pre.buckets@[b]@[i]]
                    0 <= b < pre.buckets@.len() && 0 <= i < pre.buckets@[b]@.len()
                        && pre.buckets@[b]@[i] == y;
                if b != pre.bpos {
                    assert(size_of_idx(pre.info@, pre.buckets@[b]@[i]) != size_of_idx(
                        pre.info@,
                        pre.buckets@[pre.bpos as int]@[pre.ipos as int],
                    ));
                    assert(false);
                } else {
                    assert(pre.cur_bucket()[i] == y);
                    if i < pre.ipos + 1 {
                        assert(count_in(pre.unique@, y) == 0 && count_nested(pre.same@, y) == 0);
                        assert(false);
                    } else {
                        assert(pre.cur_bucket().skip(pre.ipos + 1)[i - (pre.ipos + 1)] == y);
                        crate::counting::lemma_count_in_member(
                            pre.cur_bucket().skip(pre.ipos + 1),
                            i - (pre.ipos + 1),
                            y,
                        );
                        assert(pre.acct_at(y, pre.ipos + 1) >= 2) by {
                            assert(pre.remaining_count_at(y, pre.ipos + 1) >= 1);
                        }
                        assert(false);
                    }
                }
            }
        }
    }
}

/// The grouping engine for one run. All fields are owned state of the step
/// machine; a value built by anything but [`Engine::new`] carries no
/// guarantees.
pub struct Engine {
    /// Size parameters of the run.
    pub cmp: Comparator,
    /// Disables the full-buffer strategy.
    pub chunks_only: bool,
    /// The shared flat record list, never changed.
    pub info: Vec<FileInfo>,
    /// Indices of zero-length files, taken from the preprocessor.
    pub zero: Vec<usize>,
    /// Indices with no duplicate, grown as buckets resolve.
    pub unique: Vec<usize>,
    /// Confirmed duplicate groups, grown as buckets resolve.
    pub same: Vec<Vec<usize>>,
    /// Indices dropped after a hash or comparison failure.
    pub errors: Vec<usize>,
    /// The size buckets still to be resolved, in order.
    pub buckets: Vec<Vec<usize>>,
    /// Current bucket.
    pub bpos: usize,
    /// Current position inside the current bucket.
    pub ipos: usize,
    /// The open hash groups of the current bucket.
    pub groups: Vec<KeyedIndices>,
    /// The placement waiting for a comparison verdict, if any.
    pub pending: Option<Pending>,
    /// Indices consumed so far.
    pub done_count: u128,
    /// Total indices over all buckets.
    pub total: u128,
    /// Ghost trace of hashes and verdicts.
    pub log: Ghost<EngineLog>,
    /// The preprocessor's unique list, kept for its no-size-sharer fact.
    pub unique0: Ghost<Seq<usize>>,
}

/// Evidence that two separately reported indices were rightly kept apart:
/// their sizes differ, their partial-hash keys differ, or a recorded
/// comparison refused one cell representative against the other.
pub open spec fn separated(info: Seq<FileInfo>, log: EngineLog, x: usize, y: usize) -> bool {
    ||| size_of_idx(info, x) != size_of_idx(info, y)
    ||| (log.hkeys.contains_key(x) && log.hkeys.contains_key(y) && log.hkeys[x] != log.hkeys[y])
    ||| log.refusals.contains((log.heads[x], log.heads[y]))
    ||| log.refusals.contains((log.heads[y], log.heads[x]))
}

impl Engine {
    /// Length of the record list; indices range below it.
    pub open spec fn n(self) -> int {
        self.info@.len() as int
    }

    /// Whether a bucket is still being resolved.
    pub open spec fn in_run(self) -> bool {
        (self.bpos as int) < self.buckets@.len()
    }

    /// The bucket currently being resolved.
    pub open spec fn cur_bucket(self) -> Seq<usize> {
        self.buckets@[self.bpos as int]@
    }

    /// The index currently being placed or about to be hashed.
    pub open spec fn cur_idx(self) -> usize {
        self.cur_bucket()[self.ipos as int]
    }

    /// 1 while an index waits for a comparison verdict.
    pub open spec fn pending01(self) -> nat {
        if self.pending is Some {
            1
        } else {
            0
        }
    }

    /// How often `x` occurs among the not-yet-consumed positions, counting
    /// from position `start` of the current bucket.
    pub open spec fn remaining_count_at(self, x: usize, start: int) -> nat {
        if !self.in_run() {
            0
        } else {
            count_in(self.cur_bucket().skip(start), x) + count_nested(
                self.buckets@.skip(self.bpos + 1),
                x,
            )
        }
    }

    /// How often `x` is accounted for across the engine's state, with the
    /// unconsumed region starting at `start` of the current bucket.
    pub open spec fn acct_at(self, x: usize, start: int) -> nat {
        count_in(self.zero@, x) + count_in(self.unique@, x) + count_nested(self.same@, x)
            + count_in(self.errors@, x) + count_keyed(self.groups@, x) + (if self.pending matches
            Some(p) && p.idx == x {
            1nat
        } else {
            0nat
        }) + self.remaining_count_at(x, start)
    }

    /// Where the unconsumed region starts: the current position, or one past
    /// it while that index waits as pending.
    pub open spec fn start(self) -> int {
        self.ipos + self.pending01()
    }

    /// Number of not-yet-consumed indices.
    pub open spec fn items_left(self) -> int {
        if self.in_run() {
            self.cur_bucket().len() - self.ipos - self.pending01() + sum_lens(
                self.buckets@.skip(self.bpos + 1),
            )
        } else {
            0
        }
    }

    /// The static facts inherited from the preprocessor: bucket members are
    /// valid indices of one shared nonzero size per bucket, sizes differ
    /// across buckets, every bucket holds at least two candidates, and the
    /// zero list holds exactly the zero-length records.
    pub open spec fn wf_static(self) -> bool {
        let n = self.n();
        &&& forall|i: int|
            0 <= i < self.zero@.len() ==> (#[trigger] self.zero@[i] as int) < n && size_of_idx(
                self.info@,
                self.zero@[i],
            ) == 0
        &&& forall|x: usize| #![trigger count_in(self.zero@, x)]
            (x as int) < n && size_of_idx(self.info@, x) == 0 ==> count_in(self.zero@, x) == 1
        &&& forall|b: int| 0 <= b < self.buckets@.len() ==> (#[trigger] self.buckets@[b])@.len() >= 2
        &&& forall|b: int, i: int|
            #![trigger self.buckets@[b]@[i]]
            0 <= b < self.buckets@.len() && 0 <= i < self.buckets@[b]@.len() ==> (
            self.buckets@[b]@[i] as int) < n && size_of_idx(self.info@, self.buckets@[b]@[i]) != 0
        &&& forall|b: int, i: int, j: int|
            #![trigger self.buckets@[b]@[i], self.buckets@[b]@[j]]
            0 <= b < self.buckets@.len() && 0 <= i < self.buckets@[b]@.len() && 0 <= j
                < self.buckets@[b]@.len() ==> size_of_idx(self.info@, self.buckets@[b]@[i])
                == size_of_idx(self.info@, self.buckets@[b]@[j])
        &&& forall|b1: int, i: int, b2: int, j: int|
            #![trigger self.buckets@[b1]@[i], self.buckets@[b2]@[j]]
            0 <= b1 < self.buckets@.len() && 0 <= b2 < self.buckets@.len() && b1 != b2 && 0 <= i
                < self.buckets@[b1]@.len() && 0 <= j < self.buckets@[b2]@.len() ==> size_of_idx(
                self.info@,
                self.buckets@[b1]@[i],
            ) != size_of_idx(self.info@, self.buckets@[b2]@[j])
        &&& forall|i: int| 0 <= i < self.unique0@.len() ==> (#[trigger] self.unique0@[i] as int) < n
        &&& forall|i: int, y: usize|
            #![trigger self.unique0@[i], size_of_idx(self.info@, y)]
            0 <= i < self.unique0@.len() && (y as int) < n && y != self.unique0@[i]
                ==> size_of_idx(self.info@, y) != size_of_idx(self.info@, self.unique0@[i])
        &&& forall|x: usize|
            #![trigger count_nested(self.buckets@, x)]
            count_in(self.zero@, x) + count_in(self.unique0@, x) + count_nested(self.buckets@, x)
                == if (x as int) < n {
                1nat
            } else {
                0nat
            }
    }

    /// The open groups of the current bucket: nonempty, in range, every
    /// member hashed to the group's key, and every later member joined
    /// against the group's first member (its representative).
    pub open spec fn wf_groups(self) -> bool {
        &&& forall|g: int|
            0 <= g < self.groups@.len() ==> (#[trigger] self.groups@[g]).items@.len() >= 1
        &&& forall|g: int, i: int|
            #![trigger self.groups@[g].items@[i]]
            0 <= g < self.groups@.len() && 0 <= i < self.groups@[g].items@.len() ==> (
            self.groups@[g].items@[i] as int) < self.n() && self.log@.hkeys.contains_key(
                self.groups@[g].items@[i],
            ) && self.log@.hkeys[self.groups@[g].items@[i]] == self.groups@[g].key
        &&& forall|g: int, i: int|
            #![trigger self.groups@[g].items@[i]]
            0 <= g < self.groups@.len() && 1 <= i < self.groups@[g].items@.len()
                ==> self.log@.joins.contains((self.groups@[g].items@[i], self.groups@[g].items@[0]))
        &&& forall|g: int, i: int|
            #![trigger self.groups@[g].items@[i]]
            0 <= g < self.groups@.len() && 0 <= i < self.groups@[g].items@.len() ==> count_in(
                self.cur_bucket(),
                self.groups@[g].items@[i],
            ) > 0
    }

    /// The head bookkeeping: the ghost trace assigns a cell representative
    /// to exactly the indices filed so far, every filed index was joined to
    /// its representative, and any two indices under different
    /// representatives carry evidence that they were rightly kept apart.
    pub open spec fn wf_heads(self) -> bool {
        let lg = self.log@;
        &&& forall|x: usize|
            #![trigger lg.heads.contains_key(x)]
            lg.heads.contains_key(x) <==> count_in(self.unique@, x) + count_nested(self.same@, x)
                + count_keyed(self.groups@, x) > 0
        &&& forall|s: int, i: int|
            #![trigger self.same@[s]@[i]]
            0 <= s < self.same@.len() && 0 <= i < self.same@[s]@.len() ==> lg.heads[self.same@[s]@[i]]
                == self.same@[s]@[0]
        &&& forall|i: int|
            0 <= i < self.unique@.len() ==> lg.heads[#[trigger] self.unique@[i]] == self.unique@[i]
        &&& forall|g: int, i: int|
            #![trigger self.groups@[g].items@[i]]
            0 <= g < self.groups@.len() && 0 <= i < self.groups@[g].items@.len() ==> lg.heads[self.groups@[g].items@[i]]
                == self.groups@[g].items@[0]
        &&& forall|x: usize|
            #[trigger] lg.heads.contains_key(x) ==> x == lg.heads[x] || lg.joins.contains(
                (x, lg.heads[x]),
            )
        &&& forall|x: usize, y: usize|
            #![trigger lg.heads[x], lg.heads[y]]
            lg.heads.contains_key(x) && lg.heads.contains_key(y) && lg.heads[x] != lg.heads[y]
                ==> separated(self.info@, lg, x, y)
        &&& forall|k: int|
            0 <= k < lg.refusals.len() ==> ((#[trigger] lg.refusals[k]).0 as int) < self.n() && (
            lg.refusals[k].1 as int) < self.n() && self.info@[lg.refusals[k].0 as int].inode
                != self.info@[lg.refusals[k].1 as int].inode
    }

    /// The accumulated outputs: all indices in range, every `same` group of
    /// at least two members, each joined against its representative.
    pub open spec fn wf_lists(self) -> bool {
        let n = self.n();
        &&& forall|i: int| 0 <= i < self.unique@.len() ==> (#[trigger] self.unique@[i] as int) < n
        &&& forall|i: int| 0 <= i < self.errors@.len() ==> (#[trigger] self.errors@[i] as int) < n
        &&& forall|s: int| 0 <= s < self.same@.len() ==> (#[trigger] self.same@[s])@.len() >= 2
        &&& forall|s: int, i: int|
            #![trigger self.same@[s]@[i]]
            0 <= s < self.same@.len() && 0 <= i < self.same@[s]@.len() ==> (
            self.same@[s]@[i] as int) < n
        &&& forall|s: int, i: int|
            #![trigger self.same@[s]@[i]]
            0 <= s < self.same@.len() && 1 <= i < self.same@[s]@.len() ==> self.log@.joins.contains(
                (self.same@[s]@[i], self.same@[s]@[0]),
            )
        &&& forall|s: int, i: int|
            #![trigger self.same@[s]@[i]]
            0 <= s < self.same@.len() && 0 <= i < self.same@[s]@.len()
                ==> self.log@.hkeys.contains_key(self.same@[s]@[i])
                && self.log@.hkeys[self.same@[s]@[i]] == self.log@.hkeys[self.same@[s]@[0]]
    }

    /// Position and pending bookkeeping.
    pub open spec fn wf_position(self) -> bool {
        &&& self.bpos <= self.buckets@.len()
        &&& self.in_run() ==> (self.ipos as int) < self.cur_bucket().len()
        &&& !self.in_run() ==> self.pending is None && self.groups@.len() == 0
        &&& self.pending matches Some(p) ==> {
            &&& (p.gpos as int) < self.groups@.len()
            &&& self.groups@[p.gpos as int].key == p.key
            &&& p.idx == self.cur_idx()
            &&& self.log@.hkeys.contains_key(p.idx) && self.log@.hkeys[p.idx] == p.key
            &&& self.info@[p.idx as int].inode != self.info@[self.groups@[p.gpos as int].items@[0] as int].inode
            &&& forall|g: int|
                0 <= g < p.gpos && (#[trigger] self.groups@[g]).key == p.key
                    ==> self.log@.refusals.contains((p.idx, self.groups@[g].items@[0]))
        }
        &&& self.total == sum_lens(self.buckets@)
        &&& self.done_count + self.items_left() == self.total
        &&& self.in_run() ==> forall|i: int|
            0 <= i < self.start() ==> count_in(self.unique@, #[trigger] self.cur_bucket()[i]) == 0
                && count_nested(self.same@, self.cur_bucket()[i]) == 0
    }

    /// The engine's invariant: established by [`Engine::new`] and preserved
    /// by every step. Its heart is exact accounting: every record index is
    /// accounted for exactly once across the zero list, the unique list, the
    /// duplicate groups, the error list, the open groups, the pending slot
    /// and the unconsumed region.
    pub open spec fn inv(self) -> bool {
        &&& self.wf_static()
        &&& self.wf_groups()
        &&& self.wf_lists()
        &&& self.wf_position()
        &&& self.wf_heads()
        &&& forall|x: usize|
            #![trigger count_in(self.zero@, x)]
            self.acct_at(x, self.start()) == if (x as int) < self.n() {
                1nat
            } else {
                0nat
            }
    }

    /// Builds the engine for one run over a preprocessed partition.
    pub fn new(prep: Preprocessed, cmp: Comparator, chunks_only: bool) -> (e: Engine)
        requires
            prep.wf(),
        ensures
            e.inv(),
            e.info@ == prep.info@,
            e.zero@ == prep.zero@,
            e.unique@ == prep.unique@,
            e.same@ == prep.same@,
            e.errors@.len() == 0,
            e.buckets@ == prep.to_process@,
            e.cmp == cmp,
            e.chunks_only == chunks_only,
            e.bpos == 0,
            e.ipos == 0,
            e.groups@.len() == 0,
            e.pending is None,
            e.done_count == 0,
            e.total == sum_lens(prep.to_process@),
            e.log@.joins.len() == 0,
            e.log@.refusals.len() == 0,
            e.log@.hkeys == Map::<usize, u64>::empty(),
    {
        let ghost whole = prep.to_process@;
        let mut total: u128 = 0;
        let mut b: usize = 0;
        proof {
            assert(whole.skip(0) =~= whole);
        }
        while b < prep.to_process.len()
            invariant
                b <= whole.len(),
                whole == prep.to_process@,
                total + sum_lens(whole.skip(b as int)) == sum_lens(whole),
                total <= (b as u128) * (usize::MAX as u128),
            decreases whole.len() - b,
        {
            let blen: usize = prep.to_process[b].len();
            proof {
                lemma_sum_lens_skip_step(whole, b as int);
                let bb = b as u128;
                let mm = usize::MAX as u128;
                let ln = blen as u128;
                assert(total + ln <= (bb + 1) * mm) by (nonlinear_arith)
                    requires
                        total <= bb * mm,
                        ln <= mm,
                ;
                assert((bb + 1) * mm <= 0x1_0000_0000_0000_0000u128 * 0xFFFF_FFFF_FFFF_FFFFu128)
                    by (nonlinear_arith)
                    requires
                        bb + 1 <= 0x1_0000_0000_0000_0000u128,
                        mm <= 0xFFFF_FFFF_FFFF_FFFFu128,
                ;
            }
            total = total + (blen as u128);
            b += 1;
        }
        proof {
            assert(whole.skip(whole.len() as int) =~= Seq::<Vec<usize>>::empty());
            assert(sum_lens(Seq::<Vec<usize>>::empty()) == 0);
        }
        let ghost prep_unique = prep.unique@;
        let e = Engine {
            cmp,
            chunks_only,
            info: prep.info,
            zero: prep.zero,
            unique: prep.unique,
            same: prep.same,
            errors: Vec::new(),
            buckets: prep.to_process,
            bpos: 0,
            ipos: 0,
            groups: Vec::new(),
            pending: None,
            done_count: 0,
            total,
            log: Ghost(
                EngineLog {
                    hkeys: Map::empty(),
                    heads: Map::new(
                        |u: usize| prep_unique.contains(u),
                        |u: usize| u,
                    ),
                    joins: Seq::empty(),
                    refusals: Seq::empty(),
                },
            ),
            unique0: Ghost(prep_unique),
        };
        proof {
            assert(e.buckets@.skip(0) =~= e.buckets@);
            if e.in_run() {
                lemma_sum_lens_skip_step(e.buckets@, 0);
                assert(e.cur_bucket().skip(0) =~= e.cur_bucket());
            }
            assert forall|x: usize| true implies e.acct_at(x, e.start()) == (if (x as int) < e.n() {
                1nat
            } else {
                0nat
            }) by {
                assert(count_in(Seq::<usize>::empty(), x) == 0);
                assert(count_keyed(Seq::<KeyedIndices>::empty(), x) == 0);
                assert(e.same@ =~= Seq::<Vec<usize>>::empty());
                assert(count_nested(Seq::<Vec<usize>>::empty(), x) == 0);
                if e.in_run() {
                    crate::counting::lemma_count_nested_skip_step(e.buckets@, 0, x);
                    assert(e.cur_bucket().skip(0) =~= e.cur_bucket());
                    assert(count_in(e.cur_bucket().skip(0), x) == count_in(e.cur_bucket(), x));
                }
            }
            assert forall|x: usize|
                #![trigger count_nested(e.buckets@, x)]
                true implies count_in(e.zero@, x) + count_in(e.unique0@, x) + count_nested(
                e.buckets@,
                x,
            ) == (if (x as int) < e.n() {
                1nat
            } else {
                0nat
            }) by {
                assert(count_in(prep.zero@, x) + count_in(prep.unique@, x) + count_nested(
                    prep.to_process@,
                    x,
                ) == if (x as int) < prep.info@.len() {
                    1nat
                } else {
                    0nat
                });
            }
            assert forall|x: usize|
                #![trigger e.log@.heads.contains_key(x)]
                true implies (e.log@.heads.contains_key(x) <==> count_in(e.unique@, x)
                + count_nested(e.same@, x) + count_keyed(e.groups@, x) > 0) by {
                crate::counting::lemma_count_in_contains(e.unique@, x);
                assert(count_nested(e.same@, x) == 0);
                assert(count_keyed(e.groups@, x) == 0);
            }
            assert forall|x: usize, y: usize|
                #![trigger e.log@.heads[x], e.log@.heads[y]]
                e.log@.heads.contains_key(x) && e.log@.heads.contains_key(y) && e.log@.heads[x]
                    != e.log@.heads[y] implies separated(e.info@, e.log@, x, y) by {
                assert(e.log@.heads[x] == x && e.log@.heads[y] == y);
                let i = choose|i: int| 0 <= i < prep_unique.len() && prep_unique[i] == y;
                assert(prep.unique@[i] == y);
                assert((x as int) < e.n());
                assert(size_of_idx(e.info@, x) != size_of_idx(e.info@, y));
            }
        }
        e
    }

    /// The next observation the engine needs; pure, and stable until the
    /// matching answer arrives.
    pub fn request(&self) -> (r: Request)
        requires
            self.inv(),
        ensures
            r == self.spec_request(),
    {
        if self.bpos >= self.buckets.len() {
            return Request::Done;
        }
        match self.pending {
            Some(p) => {
                let rep = self.groups[p.gpos].items[0];
                let b0 = self.buckets[self.bpos][0];
                let size = self.info[b0].size;
                let full = self.cmp.uses_full(size, self.chunks_only);
                Request::Compare { idx: p.idx, rep, full }
            },
            None => Request::Hash { idx: self.buckets[self.bpos][self.ipos] },
        }
    }

    /// Progress of the run: indices consumed so far against the total over
    /// all buckets.
    pub fn progress(&self) -> (r: (u128, u128))
        requires
            self.inv(),
        ensures
            r.0 == self.done_count,
            r.1 == self.total,
            r.0 <= r.1,
    {
        proof {
            if self.in_run() {
                assert(sum_lens(self.buckets@.skip(self.bpos + 1)) >= 0);
            }
        }
        (self.done_count, self.total)
    }

    /// Moves past the index just consumed: advances within the bucket, or —
    /// when the bucket is exhausted — classifies its groups (one candidate:
    /// `unique`; two or more: `same`) and steps to the next bucket.
    fn complete_index(&mut self)
        requires
            old(self).wf_static(),
            old(self).wf_groups(),
            old(self).wf_lists(),
            old(self).wf_heads(),
            old(self).in_run(),
            old(self).pending is None,
            old(self).bpos <= old(self).buckets@.len(),
            (old(self).ipos as int) < old(self).cur_bucket().len(),
            forall|i: int|
                0 <= i < old(self).ipos + 1 ==> count_in(
                    old(self).unique@,
                    #[trigger] old(self).cur_bucket()[i],
                ) == 0 && count_nested(old(self).same@, old(self).cur_bucket()[i]) == 0,
            old(self).total == sum_lens(old(self).buckets@),
            old(self).done_count + (old(self).cur_bucket().len() - old(self).ipos - 1) + sum_lens(
                old(self).buckets@.skip(old(self).bpos + 1),
            ) == old(self).total,
            forall|x: usize|
                #![trigger count_in(old(self).zero@, x)]
                old(self).acct_at(x, old(self).ipos + 1) == if (x as int) < old(self).n() {
                    1nat
                } else {
                    0nat
                },
        ensures
            final(self).inv(),
            final(self).info@ == old(self).info@,
            final(self).zero@ == old(self).zero@,
            final(self).errors@ == old(self).errors@,
            final(self).buckets@ == old(self).buckets@,
            final(self).cmp == old(self).cmp,
            final(self).chunks_only == old(self).chunks_only,
            final(self).total == old(self).total,
            final(self).done_count == old(self).done_count,
            final(self).log == old(self).log,
            final(self).pending is None,
            forall|x: usize|
                #![trigger count_in(final(self).unique@, x)]
                count_in(final(self).unique@, x) + count_nested(final(self).same@, x) + count_keyed(
                    final(self).groups@,
                    x,
                ) == count_in(old(self).unique@, x) + count_nested(old(self).same@, x)
                    + count_keyed(old(self).groups@, x),
    {
        let blen = self.buckets[self.bpos].len();
        if self.ipos + 1 < blen {
            self.ipos = self.ipos + 1;
        } else {
            let ghost u0 = self.unique@;
            let ghost s0 = self.same@;
            let ghost g0 = self.groups@;
            let ghost frozen = *self;
            while self.groups.len() > 0
                invariant
                    self.info@ == frozen.info@,
                    self.zero@ == frozen.zero@,
                    self.errors@ == frozen.errors@,
                    self.buckets@ == frozen.buckets@,
                    self.cmp == frozen.cmp,
                    self.chunks_only == frozen.chunks_only,
                    self.total == frozen.total,
                    self.done_count == frozen.done_count,
                    self.log == frozen.log,
                    self.pending == frozen.pending,
                    self.bpos == frozen.bpos,
                    self.ipos == frozen.ipos,
                    frozen.wf_static(),
                    frozen.in_run(),
                    (frozen.ipos as int) < frozen.cur_bucket().len(),
                    self.wf_static(),
                    self.wf_groups(),
                    self.wf_lists(),
                    self.wf_heads(),
                    forall|x: usize|
                        #![trigger count_in(self.unique@, x)]
                        count_in(self.unique@, x) + count_nested(self.same@, x) + count_keyed(
                            self.groups@,
                            x,
                        ) == count_in(u0, x) + count_nested(s0, x) + count_keyed(g0, x),
                decreases self.groups@.len(),
            {
                let ghost gpre = self.groups@;
                let kl = self.groups.pop().unwrap();
                proof {
                    assert(self.groups@ =~= gpre.drop_last());
                    assert(kl == gpre[gpre.len() - 1]);
                    assert forall|x: usize| true implies count_keyed(gpre, x) == count_keyed(
                        self.groups@,
                        x,
                    ) + count_in(kl.items@, x) by {
                        crate::counting::lemma_count_keyed_drop_last(gpre, x);
                    }
                }
                if kl.items.len() == 1 {
                    let x0 = kl.items[0];
                    let ghost upre = self.unique@;
                    proof {
                        assert(gpre[gpre.len() - 1].items@[0] == x0);
                        assert forall|x: usize| true implies count_in(upre.push(x0), x) == count_in(
                            upre,
                            x,
                        ) + count_in(kl.items@, x) by {
                            crate::counting::lemma_count_in_push(upre, x0, x);
                            assert(kl.items@.skip(1) =~= Seq::<usize>::empty());
                            assert(count_in(Seq::<usize>::empty(), x) == 0);
                            assert(kl.items@[0] == x0);
                        }
                    }
                    self.unique.push(x0);
                    proof {
                        assert(gpre[gpre.len() - 1].items@[0] == x0);
                        assert(self.log@.heads[x0] == x0);
                        assert forall|x: usize|
                            #![trigger self.log@.heads.contains_key(x)]
                            true implies (self.log@.heads.contains_key(x) <==> count_in(
                            self.unique@,
                            x,
                        ) + count_nested(self.same@, x) + count_keyed(self.groups@, x) > 0) by {
                            assert(count_in(self.unique@, x) + count_nested(self.same@, x)
                                + count_keyed(self.groups@, x) == count_in(u0, x) + count_nested(
                                s0,
                                x,
                            ) + count_keyed(g0, x));
                        }
                        assert forall|i: int| 0 <= i < self.unique@.len() implies self.log@.heads[(
                        #[trigger] self.unique@[i])] == self.unique@[i] by {
                            if i < self.unique@.len() - 1 {
                                assert(self.unique@[i] == upre[i]);
                            }
                        }
                    }
                } else {
                    let ghost spre = self.same@;
                    proof {
                        assert forall|x: usize| true implies count_nested(spre.push(kl.items), x)
                            == count_nested(spre, x) + count_in(kl.items@, x) by {
                            crate::counting::lemma_count_nested_push(spre, kl.items, x);
                        }
                        assert forall|i: int| 1 <= i < kl.items@.len() implies self.log@.joins.contains(
                            ((#[trigger] kl.items@[i]), kl.items@[0]),
                        ) by {
                            assert(gpre[gpre.len() - 1].items@[i] == kl.items@[i]);
                        }
                        assert forall|i: int| 0 <= i < kl.items@.len() implies (
                        #[trigger] kl.items@[i] as int) < self.n() by {
                            assert(gpre[gpre.len() - 1].items@[i] == kl.items@[i]);
                        }
                    }
                    self.same.push(kl.items);
                    proof {
                        assert forall|x: usize|
                            #![trigger self.log@.heads.contains_key(x)]
                            true implies (self.log@.heads.contains_key(x) <==> count_in(
                            self.unique@,
                            x,
                        ) + count_nested(self.same@, x) + count_keyed(self.groups@, x) > 0) by {
                            assert(count_in(self.unique@, x) + count_nested(self.same@, x)
                                + count_keyed(self.groups@, x) == count_in(u0, x) + count_nested(
                                s0,
                                x,
                            ) + count_keyed(g0, x));
                        }
                        assert forall|sg: int, i: int|
                            #![trigger self.same@[sg]@[i]]
                            0 <= sg < self.same@.len() && 0 <= i < self.same@[sg]@.len()
                                implies self.log@.heads[self.same@[sg]@[i]]
                            == self.same@[sg]@[0] by {
                            if sg < self.same@.len() - 1 {
                                assert(self.same@[sg]@[i] == spre[sg]@[i]);
                                assert(self.same@[sg]@[0] == spre[sg]@[0]);
                            } else {
                                assert(self.same@[sg]@[i] == gpre[gpre.len() - 1].items@[i]);
                                assert(self.same@[sg]@[0] == gpre[gpre.len() - 1].items@[0]);
                            }
                        }
                    }
                }
            }
            proof {
                assert(old(self).cur_bucket().skip(old(self).cur_bucket().len() as int)
                    =~= Seq::<usize>::empty());
                assert(count_in(Seq::<usize>::empty(), 0usize) == 0);
            }
            let nbuckets = self.buckets.len();
            proof {
                assert(self.bpos < nbuckets);
            }
            self.bpos = self.bpos + 1;
            self.ipos = 0;
            proof {
                if self.in_run() {
                    lemma_sum_lens_skip_step(self.buckets@, self.bpos as int);
                    assert(self.cur_bucket().skip(0) =~= self.cur_bucket());
                } else {
                    assert(self.buckets@.skip(self.bpos as int) =~= Seq::<Vec<usize>>::empty());
                    assert(sum_lens(Seq::<Vec<usize>>::empty()) == 0);
                }
            }
        }
        proof {
            let fin = *self;
            assert forall|x: usize| true implies fin.acct_at(x, fin.start()) == (if (x as int)
                < fin.n() {
                1nat
            } else {
                0nat
            }) by {
                assert(old(self).cur_bucket().skip(old(self).ipos + 1).len() >= 0);
                assert(count_in(Seq::<usize>::empty(), x) == 0);
                assert(count_nested(Seq::<Vec<usize>>::empty(), x) == 0);
                assert(count_keyed(Seq::<KeyedIndices>::empty(), x) == 0);
                if fin.bpos == old(self).bpos {
                    assert(fin.remaining_count_at(x, fin.start()) == old(self).remaining_count_at(
                        x,
                        old(self).ipos + 1,
                    ));
                } else {
                    assert(old(self).cur_bucket().skip(old(self).cur_bucket().len() as int)
                        =~= Seq::<usize>::empty());
                    if fin.in_run() {
                        crate::counting::lemma_count_nested_skip_step(
                            fin.buckets@,
                            fin.bpos as int,
                            x,
                        );
                        assert(fin.cur_bucket().skip(0) =~= fin.cur_bucket());
                    } else {
                        assert(fin.buckets@.skip(fin.bpos as int) =~= Seq::<Vec<usize>>::empty());
                    }
                }
            }
        }
    }

    /// Scans the open groups from position `from` for the first group filed
    /// under `key`: joins it outright when the identity tokens of `idx` and
    /// the group's representative agree, otherwise leaves `idx` pending a
    /// comparison against that representative; with no such group left,
    /// opens a new singleton group — a confirmed hash collision when other
    /// groups under `key` exist.
    fn advance_scan(&mut self, idx: usize, key: u64, from: usize)
        requires
            old(self).wf_static(),
            old(self).wf_groups(),
            old(self).wf_lists(),
            old(self).wf_heads(),
            old(self).in_run(),
            old(self).pending is None,
            (old(self).ipos as int) < old(self).cur_bucket().len(),
            forall|i: int|
                0 <= i < old(self).ipos + 1 ==> count_in(
                    old(self).unique@,
                    #[trigger] old(self).cur_bucket()[i],
                ) == 0 && count_nested(old(self).same@, old(self).cur_bucket()[i]) == 0,
            idx == old(self).cur_idx(),
            old(self).log@.hkeys.contains_key(idx) && old(self).log@.hkeys[idx] == key,
            from <= old(self).groups@.len(),
            forall|g: int|
                0 <= g < from && (#[trigger] old(self).groups@[g]).key == key ==> old(
                    self,
                ).log@.refusals.contains((idx, old(self).groups@[g].items@[0])),
            old(self).total == sum_lens(old(self).buckets@),
            old(self).done_count + (old(self).cur_bucket().len() - old(self).ipos - 1) + sum_lens(
                old(self).buckets@.skip(old(self).bpos + 1),
            ) == old(self).total,
            forall|x: usize|
                #![trigger count_in(old(self).zero@, x)]
                old(self).acct_at(x, old(self).ipos + 1) + (if x == idx {
                    1nat
                } else {
                    0nat
                }) == if (x as int) < old(self).n() {
                    1nat
                } else {
                    0nat
                },
        ensures
            final(self).inv(),
            final(self).info@ == old(self).info@,
            final(self).zero@ == old(self).zero@,
            final(self).errors@ == old(self).errors@,
            final(self).buckets@ == old(self).buckets@,
            final(self).cmp == old(self).cmp,
            final(self).chunks_only == old(self).chunks_only,
            final(self).total == old(self).total,
            final(self).done_count == old(self).done_count,
            final(self).log@.hkeys == old(self).log@.hkeys,
            final(self).log@.refusals == old(self).log@.refusals,
            final(self).pending matches Some(p) ==> {
                &&& p.idx == idx
                &&& p.key == key
                &&& final(self).log@.joins == old(self).log@.joins
                &&& final(self).groups@ == old(self).groups@
                &&& final(self).same@ == old(self).same@
                &&& final(self).unique@ == old(self).unique@
                &&& final(self).bpos == old(self).bpos
                &&& final(self).ipos == old(self).ipos
                &&& from <= p.gpos
                &&& (p.gpos as int) < old(self).groups@.len()
                &&& old(self).groups@[p.gpos as int].key == key
                &&& old(self).info@[idx as int].inode != old(self).info@[old(self).groups@[
                    p.gpos as int].items@[0] as int].inode
                &&& forall|j: int|
                    from <= j < p.gpos ==> (#[trigger] old(self).groups@[j]).key != key
            },
            final(self).pending is None ==> {
                &&& ({
                    ||| (final(self).log@.joins == old(self).log@.joins && (forall|j: int|
                        0 <= j < old(self).groups@.len() && (#[trigger] old(self).groups@[j]).key
                            == key ==> j < from && final(self).log@.refusals.contains(
                            (idx, old(self).groups@[j].items@[0]),
                        )))
                    ||| (exists|g: int|
                        {
                            &&& from <= g < old(self).groups@.len()
                            &&& (#[trigger] old(self).groups@[g]).key == key
                            &&& (forall|j: int|
                                from <= j < g ==> (#[trigger] old(self).groups@[j]).key != key)
                            &&& old(self).info@[idx as int].inode == old(self).info@[old(
                                self,
                            ).groups@[g].items@[0] as int].inode
                            &&& final(self).log@.joins == old(self).log@.joins.push(
                                (idx, old(self).groups@[g].items@[0]),
                            )
                        })
                })
                &&& forall|x: usize|
                    #![trigger count_in(final(self).unique@, x)]
                    count_in(final(self).unique@, x) + count_nested(final(self).same@, x)
                        + count_keyed(final(self).groups@, x) == count_in(old(self).unique@, x)
                        + count_nested(old(self).same@, x) + count_keyed(old(self).groups@, x) + (
                    if x == idx {
                        1nat
                    } else {
                        0nat
                    })
            },
    {
        let ghost pre = *self;
        let mut g = from;
        #[verifier::loop_isolation(false)]
        while g < self.groups.len()
            invariant
                *self == pre,
                from <= g,
                g <= self.groups@.len(),
                forall|j: int| from <= j < g ==> (#[trigger] self.groups@[j]).key != key,
            decreases self.groups@.len() - g,
        {
            let gkey = self.groups[g].key;
            if gkey == key {
                let rep = self.groups[g].items[0];
                let id_idx = self.info[idx].inode;
                let id_rep = self.info[rep].inode;
                if id_idx == id_rep {
                    self.log = Ghost(
                        EngineLog {
                            hkeys: self.log@.hkeys,
                            heads: self.log@.heads.insert(idx, rep),
                            joins: self.log@.joins.push((idx, rep)),
                            refusals: self.log@.refusals,
                        },
                    );
                    let ghost gpre = self.groups@;
                    let mut kl = self.groups.remove(g);
                    kl.items.push(idx);
                    let ghost klg = kl;
                    self.groups.insert(g, kl);
                    proof {
                        assert(self.groups@ =~= gpre.update(g as int, klg));
                        crate::counting::lemma_push_contains(pre.log@.joins, (idx, rep));
                        assert forall|x: usize| true implies count_keyed(self.groups@, x)
                            == count_keyed(gpre, x) + (if x == idx {
                            1nat
                        } else {
                            0nat
                        }) by {
                            crate::counting::lemma_count_in_push(gpre[g as int].items@, idx, x);
                            crate::counting::lemma_count_keyed_update(gpre, g as int, klg, x);
                        }
                        assert forall|gg: int, i: int|
                            #![trigger self.groups@[gg].items@[i]]
                            0 <= gg < self.groups@.len() && 1 <= i < self.groups@[gg].items@.len()
                                implies self.log@.joins.contains(
                            (self.groups@[gg].items@[i], self.groups@[gg].items@[0]),
                        ) by {
                            if gg == g && i == self.groups@[gg].items@.len() - 1 {
                                assert(self.groups@[gg].items@[i] == idx);
                                assert(self.groups@[gg].items@[0] == rep);
                            } else {
                                assert(pre.groups@[gg].items@[i] == self.groups@[gg].items@[i]);
                                assert(pre.groups@[gg].items@[0] == self.groups@[gg].items@[0]);
                            }
                        }
                        assert(self.buckets@[self.bpos as int]@[self.ipos as int] == idx);
                        assert((idx as int) < self.n());
                        assert forall|gg: int, i: int|
                            #![trigger self.groups@[gg].items@[i]]
                            0 <= gg < self.groups@.len() && 0 <= i < self.groups@[gg].items@.len()
                                implies (self.groups@[gg].items@[i] as int) < self.n()
                            && self.log@.hkeys.contains_key(self.groups@[gg].items@[i])
                            && self.log@.hkeys[self.groups@[gg].items@[i]]
                            == self.groups@[gg].key by {
                            if gg == g && i == self.groups@[gg].items@.len() - 1 {
                                assert(self.groups@[gg].items@[i] == idx);
                                assert(self.groups@[gg].key == key);
                            } else {
                                assert(pre.groups@[gg].items@[i] == self.groups@[gg].items@[i]);
                            }
                        }
                        assert forall|x: usize|
                            #![trigger count_in(self.zero@, x)]
                            true implies self.acct_at(x, self.ipos + 1) == (if (
                        x as int) < self.n() {
                            1nat
                        } else {
                            0nat
                        }) by {
                            assert(old(self).acct_at(x, old(self).ipos + 1) + (if x == idx {
                                1nat
                            } else {
                                0nat
                            }) == if (x as int) < old(self).n() {
                                1nat
                            } else {
                                0nat
                            });
                            assert(count_keyed(self.groups@, x) == count_keyed(pre.groups@, x) + (
                            if x == idx {
                                1nat
                            } else {
                                0nat
                            }));
                        }
                        assert(old(self).acct_at(idx, old(self).ipos + 1) + 1nat == 1nat);
                        assert(count_in(old(self).unique@, idx) == 0 && count_nested(
                            old(self).same@,
                            idx,
                        ) == 0 && count_keyed(old(self).groups@, idx) == 0);
                        lemma_join_preserves_heads(*old(self), *self, idx, key, g as int);
                        assert(old(self).groups@[g as int].items@[0] == rep);
                        assert(old(self).info@[idx as int].inode == old(self).info@[
                            rep as int].inode);
                        assert(self.log@.joins == old(self).log@.joins.push((idx, rep)));
                    }
                    self.complete_index();
                    return ;
                } else {
                    self.pending = Some(Pending { idx, key, gpos: g });
                    proof {
                        assert(old(self).info@[idx as int].inode != old(self).info@[
                            rep as int].inode);
                        let fin = *self;
                        assert forall|x: usize|
                            #![trigger count_in(fin.zero@, x)]
                            true implies fin.acct_at(x, fin.start()) == (if (
                        x as int) < fin.n() {
                            1nat
                        } else {
                            0nat
                        }) by {
                            assert(old(self).acct_at(x, old(self).ipos + 1) + (if x == idx {
                                1nat
                            } else {
                                0nat
                            }) == if (x as int) < old(self).n() {
                                1nat
                            } else {
                                0nat
                            });
                            assert(fin.remaining_count_at(x, fin.ipos + 1)
                                == old(self).remaining_count_at(x, old(self).ipos + 1));
                        }
                    }
                    return ;
                }
            }
            g += 1;
        }
        let mut items: Vec<usize> = Vec::new();
        items.push(idx);
        let kl = KeyedIndices { key, items };
        let ghost klg = kl;
        let ghost gpre = self.groups@;
        self.groups.push(kl);
        self.log = Ghost(
            EngineLog {
                hkeys: self.log@.hkeys,
                heads: self.log@.heads.insert(idx, idx),
                joins: self.log@.joins,
                refusals: self.log@.refusals,
            },
        );
        proof {
            assert(klg.items@.len() == 1 && klg.items@[0] == idx);
            assert forall|x: usize| true implies count_keyed(self.groups@, x) == count_keyed(
                gpre,
                x,
            ) + (if x == idx {
                1nat
            } else {
                0nat
            }) by {
                assert(klg.items@.skip(1) =~= Seq::<usize>::empty());
                assert(count_in(Seq::<usize>::empty(), x) == 0);
                crate::counting::lemma_count_keyed_push(gpre, klg, x);
            }
            assert(self.buckets@[self.bpos as int]@[self.ipos as int] == idx);
            assert((idx as int) < self.n());
            assert forall|gg: int, i: int|
                #![trigger self.groups@[gg].items@[i]]
                0 <= gg < self.groups@.len() && 0 <= i < self.groups@[gg].items@.len() implies (
            self.groups@[gg].items@[i] as int) < self.n() && self.log@.hkeys.contains_key(
                self.groups@[gg].items@[i],
            ) && self.log@.hkeys[self.groups@[gg].items@[i]] == self.groups@[gg].key by {
                if gg == self.groups@.len() - 1 {
                    assert(self.groups@[gg].items@[i] == idx);
                    assert(self.groups@[gg].key == key);
                } else {
                    assert(pre.groups@[gg].items@[i] == self.groups@[gg].items@[i]);
                }
            }
            assert forall|gg: int, i: int|
                #![trigger self.groups@[gg].items@[i]]
                0 <= gg < self.groups@.len() && 1 <= i < self.groups@[gg].items@.len()
                    implies self.log@.joins.contains(
                (self.groups@[gg].items@[i], self.groups@[gg].items@[0]),
            ) by {
                if gg < self.groups@.len() - 1 {
                    assert(pre.groups@[gg].items@[i] == self.groups@[gg].items@[i]);
                    assert(pre.groups@[gg].items@[0] == self.groups@[gg].items@[0]);
                }
            }
            assert forall|x: usize|
                #![trigger count_in(self.zero@, x)]
                true implies self.acct_at(x, self.ipos + 1) == (if (x as int)
                < self.n() {
                1nat
            } else {
                0nat
            }) by {
                assert(old(self).acct_at(x, old(self).ipos + 1) + (if x == idx {
                    1nat
                } else {
                    0nat
                }) == if (x as int) < old(self).n() {
                    1nat
                } else {
                    0nat
                });
                assert(count_keyed(self.groups@, x) == count_keyed(gpre, x) + (if x == idx {
                    1nat
                } else {
                    0nat
                }));
            }
            assert forall|g2: int|
                0 <= g2 < old(self).groups@.len() && (#[trigger] old(self).groups@[g2]).key == key
                    implies g2 < from && old(self).log@.refusals.contains(
                (idx, old(self).groups@[g2].items@[0]),
            ) by {
                assert(g2 < from);
            }
            assert(klg.items@ =~= seq![idx]);
            assert(self.groups@.last() == klg);
            lemma_singleton_preserves_heads(*old(self), *self, idx, key);
        }
        self.complete_index();
    }

    /// Answers a `Hash` request: files the current index under `key`. The
    /// index joins the first group under `key` whose representative shares
    /// its identity token, waits for a comparison against the first group
    /// under `key` otherwise, or opens a new group when no group under `key`
    /// exists. The contract pins the evidence for each outcome: a join
    /// recorded here names a group whose representative has the same
    /// identity token — hash-key equality alone never grants membership —
    /// and a comparison is requested only when the tokens differ.
    pub fn provide_hash(&mut self, key: u64)
        requires
            old(self).inv(),
            old(self).spec_request() matches Request::Hash { idx: _ },
        ensures
            final(self).inv(),
            final(self).info@ == old(self).info@,
            final(self).zero@ == old(self).zero@,
            final(self).errors@ == old(self).errors@,
            final(self).buckets@ == old(self).buckets@,
            final(self).cmp == old(self).cmp,
            final(self).chunks_only == old(self).chunks_only,
            final(self).total == old(self).total,
            final(self).done_count == old(self).done_count + 1,
            final(self).log@.hkeys == old(self).log@.hkeys.insert(old(self).cur_idx(), key),
            final(self).log@.refusals == old(self).log@.refusals,
            final(self).pending matches Some(p) ==> {
                &&& p.idx == old(self).cur_idx()
                &&& p.key == key
                &&& final(self).log@.joins == old(self).log@.joins
                &&& final(self).groups@ == old(self).groups@
                &&& final(self).same@ == old(self).same@
                &&& final(self).unique@ == old(self).unique@
                &&& (p.gpos as int) < old(self).groups@.len()
                &&& old(self).groups@[p.gpos as int].key == key
                &&& old(self).info@[old(self).cur_idx() as int].inode != old(self).info@[old(
                    self,
                ).groups@[p.gpos as int].items@[0] as int].inode
                &&& forall|j: int| 0 <= j < p.gpos ==> (#[trigger] old(self).groups@[j]).key != key
            },
            final(self).pending is None ==> {
                &&& ({
                    ||| (final(self).log@.joins == old(self).log@.joins && (forall|j: int|
                        0 <= j < old(self).groups@.len() ==> (#[trigger] old(self).groups@[
                            j]).key != key))
                    ||| (exists|g: int|
                        {
                            &&& 0 <= g < old(self).groups@.len()
                            &&& (#[trigger] old(self).groups@[g]).key == key
                            &&& (forall|j: int|
                                0 <= j < g ==> (#[trigger] old(self).groups@[j]).key != key)
                            &&& old(self).info@[old(self).cur_idx() as int].inode == old(
                                self,
                            ).info@[old(self).groups@[g].items@[0] as int].inode
                            &&& final(self).log@.joins == old(self).log@.joins.push(
                                (old(self).cur_idx(), old(self).groups@[g].items@[0]),
                            )
                        })
                })
                &&& forall|x: usize|
                    #![trigger count_in(final(self).unique@, x)]
                    count_in(final(self).unique@, x) + count_nested(final(self).same@, x)
                        + count_keyed(final(self).groups@, x) == count_in(old(self).unique@, x)
                        + count_nested(old(self).same@, x) + count_keyed(old(self).groups@, x) + (
                    if x == old(self).cur_idx() {
                        1nat
                    } else {
                        0nat
                    })
            },
    {
        let idx = self.buckets[self.bpos][self.ipos];
        proof {
            assert(sum_lens(old(self).buckets@.skip(old(self).bpos + 1)) >= 0);
            assert(self.items_left() >= 1);
        }
        self.done_count = self.done_count + 1;
        let ghost pre = *self;
        self.log = Ghost(
            EngineLog {
                hkeys: self.log@.hkeys.insert(idx, key),
                heads: self.log@.heads,
                joins: self.log@.joins,
                refusals: self.log@.refusals,
            },
        );
        proof {
            assert(old(self).cur_bucket().skip(old(self).ipos as int)[0] == idx);
            assert forall|gg: int, i: int|
                #![trigger self.groups@[gg].items@[i]]
                0 <= gg < self.groups@.len() && 0 <= i < self.groups@[gg].items@.len() implies (
            self.groups@[gg].items@[i] as int) < self.n() && self.log@.hkeys.contains_key(
                self.groups@[gg].items@[i],
            ) && self.log@.hkeys[self.groups@[gg].items@[i]] == self.groups@[gg].key by {
                assert(pre.groups@[gg].items@[i] == self.groups@[gg].items@[i]);
                let m = self.groups@[gg].items@[i];
                if m == idx {
                    crate::counting::lemma_count_keyed_member(pre.groups@, gg, i, idx);
                    crate::counting::lemma_count_in_member(
                        old(self).cur_bucket().skip(old(self).ipos as int),
                        0,
                        idx,
                    );
                    assert(old(self).acct_at(idx, old(self).start()) == 1);
                    assert(false);
                }
            }
            assert forall|x: usize|
                #![trigger count_in(self.zero@, x)]
                true implies self.acct_at(x, self.ipos + 1) + (if x == idx {
                1nat
            } else {
                0nat
            }) == (if (x as int) < self.n() {
                1nat
            } else {
                0nat
            }) by {
                assert(old(self).acct_at(x, old(self).start()) == if (x as int) < old(self).n() {
                    1nat
                } else {
                    0nat
                });
                crate::counting::lemma_count_in_skip_step(
                    old(self).cur_bucket(),
                    old(self).ipos as int,
                    x,
                );
            }
            assert forall|sg: int, i: int|
                #![trigger self.same@[sg]@[i]]
                0 <= sg < self.same@.len() && 0 <= i < self.same@[sg]@.len()
                    implies self.log@.hkeys.contains_key(self.same@[sg]@[i])
                && self.log@.hkeys[self.same@[sg]@[i]]
                == self.log@.hkeys[self.same@[sg]@[0]] by {
                let m = self.same@[sg]@[i];
                let m0 = self.same@[sg]@[0];
                crate::counting::lemma_count_nested_member(pre.same@, sg, i, m);
                crate::counting::lemma_count_nested_member(pre.same@, sg, 0, m0);
                crate::counting::lemma_count_in_member(
                    old(self).cur_bucket().skip(old(self).ipos as int),
                    0,
                    idx,
                );
                assert(old(self).acct_at(idx, old(self).start()) == 1);
                assert(m != idx && m0 != idx);
            }
        }
        self.advance_scan(idx, key, 0);
    }

    /// Answers a `Hash` request whose read failed: the current index is
    /// recorded as an error and takes no further part in the run.
    pub fn provide_hash_error(&mut self)
        requires
            old(self).inv(),
            old(self).spec_request() matches Request::Hash { idx: _ },
        ensures
            final(self).inv(),
            final(self).info@ == old(self).info@,
            final(self).zero@ == old(self).zero@,
            final(self).buckets@ == old(self).buckets@,
            final(self).cmp == old(self).cmp,
            final(self).chunks_only == old(self).chunks_only,
            final(self).total == old(self).total,
            final(self).done_count == old(self).done_count + 1,
            final(self).log == old(self).log,
            final(self).errors@ == old(self).errors@.push(old(self).cur_idx()),
            final(self).pending is None,
            forall|x: usize|
                #![trigger count_in(final(self).unique@, x)]
                count_in(final(self).unique@, x) + count_nested(final(self).same@, x) + count_keyed(
                    final(self).groups@,
                    x,
                ) == count_in(old(self).unique@, x) + count_nested(old(self).same@, x)
                    + count_keyed(old(self).groups@, x),
    {
        let idx = self.buckets[self.bpos][self.ipos];
        proof {
            assert(sum_lens(old(self).buckets@.skip(old(self).bpos + 1)) >= 0);
            assert(self.items_left() >= 1);
        }
        self.done_count = self.done_count + 1;
        let ghost pre = *self;
        self.errors.push(idx);
        proof {
            assert(old(self).cur_bucket().skip(old(self).ipos as int)[0] == idx);
            assert((idx as int) < self.n());
            assert forall|x: usize|
                #![trigger count_in(self.zero@, x)]
                true implies self.acct_at(x, self.ipos + 1) == (if (x as int) < self.n() {
                1nat
            } else {
                0nat
            }) by {
                assert(old(self).acct_at(x, old(self).start()) == if (x as int) < old(self).n() {
                    1nat
                } else {
                    0nat
                });
                crate::counting::lemma_count_in_skip_step(
                    old(self).cur_bucket(),
                    old(self).ipos as int,
                    x,
                );
                crate::counting::lemma_count_in_push(pre.errors@, idx, x);
            }
            assert forall|i: int| 0 <= i < self.ipos + 1 implies count_in(
                self.unique@,
                #[trigger] self.cur_bucket()[i],
            ) == 0 && count_nested(self.same@, self.cur_bucket()[i]) == 0 by {
                if i == self.ipos {
                    assert(self.cur_bucket()[i] == idx);
                    assert(old(self).acct_at(idx, old(self).start()) == 1);
                    crate::counting::lemma_count_in_member(
                        old(self).cur_bucket().skip(old(self).ipos as int),
                        0,
                        idx,
                    );
                }
            }
        }
        self.complete_index();
    }

    /// Answers a `Compare` request with the comparison's verdict. On
    /// "equal" the index joins exactly the group whose representative it was
    /// compared against; on "not equal" — a confirmed partial-hash
    /// collision if they shared one — the scan continues with the next
    /// group under the same key, and the contract again pins the evidence:
    /// the refusal is recorded, and any further join needs a fresh verdict
    /// or an identity-token match.
    pub fn provide_compare(&mut self, eq: bool)
        requires
            old(self).inv(),
            old(self).spec_request() matches Request::Compare { idx: _, rep: _, full: _ },
        ensures
            final(self).inv(),
            final(self).info@ == old(self).info@,
            final(self).zero@ == old(self).zero@,
            final(self).errors@ == old(self).errors@,
            final(self).buckets@ == old(self).buckets@,
            final(self).cmp == old(self).cmp,
            final(self).chunks_only == old(self).chunks_only,
            final(self).total == old(self).total,
            final(self).done_count == old(self).done_count,
            final(self).log@.hkeys == old(self).log@.hkeys,
            eq ==> final(self).log@.joins == old(self).log@.joins.push(
                (
                    old(self).pending->Some_0.idx,
                    old(self).groups@[old(self).pending->Some_0.gpos as int].items@[0],
                ),
            ) && final(self).log@.refusals == old(self).log@.refusals && final(self).pending
                is None && (forall|x: usize|
                #![trigger count_in(final(self).unique@, x)]
                count_in(final(self).unique@, x) + count_nested(final(self).same@, x) + count_keyed(
                    final(self).groups@,
                    x,
                ) == count_in(old(self).unique@, x) + count_nested(old(self).same@, x)
                    + count_keyed(old(self).groups@, x) + (if x == old(self).pending->Some_0.idx {
                    1nat
                } else {
                    0nat
                })),
            !eq ==> final(self).log@.refusals == old(self).log@.refusals.push(
                (
                    old(self).pending->Some_0.idx,
                    old(self).groups@[old(self).pending->Some_0.gpos as int].items@[0],
                ),
            ) && {
                ||| (final(self).pending matches Some(p2) && {
                    &&& p2.idx == old(self).pending->Some_0.idx
                    &&& p2.key == old(self).pending->Some_0.key
                    &&& final(self).log@.joins == old(self).log@.joins
                    &&& final(self).groups@ == old(self).groups@
                    &&& final(self).same@ == old(self).same@
                    &&& final(self).unique@ == old(self).unique@
                    &&& old(self).pending->Some_0.gpos < p2.gpos
                    &&& (p2.gpos as int) < old(self).groups@.len()
                    &&& old(self).groups@[p2.gpos as int].key == old(self).pending->Some_0.key
                    &&& old(self).info@[old(self).pending->Some_0.idx as int].inode != old(
                        self,
                    ).info@[old(self).groups@[p2.gpos as int].items@[0] as int].inode
                    &&& forall|j: int|
                        old(self).pending->Some_0.gpos < j < p2.gpos ==> (
                        #[trigger] old(self).groups@[j]).key != old(self).pending->Some_0.key
                })
                ||| (final(self).pending is None && ({
                    ||| (final(self).log@.joins == old(self).log@.joins && (forall|j: int|
                        0 <= j < old(self).groups@.len() && (#[trigger] old(self).groups@[
                            j]).key == old(self).pending->Some_0.key ==> j <= old(
                            self,
                        ).pending->Some_0.gpos && final(self).log@.refusals.contains(
                            (old(self).pending->Some_0.idx, old(self).groups@[j].items@[0]),
                        )))
                    ||| (exists|g: int|
                        {
                            &&& old(self).pending->Some_0.gpos < g < old(self).groups@.len()
                            &&& (#[trigger] old(self).groups@[g]).key == old(
                                self,
                            ).pending->Some_0.key
                            &&& (forall|j: int|
                                old(self).pending->Some_0.gpos < j < g ==> (
                                #[trigger] old(self).groups@[j]).key != old(
                                    self,
                                ).pending->Some_0.key)
                            &&& old(self).info@[old(self).pending->Some_0.idx as int].inode
                                == old(self).info@[old(self).groups@[g].items@[0] as int].inode
                            &&& final(self).log@.joins == old(self).log@.joins.push(
                                (
                                    old(self).pending->Some_0.idx,
                                    old(self).groups@[g].items@[0],
                                ),
                            )
                        })
                }) && (forall|x: usize|
                    #![trigger count_in(final(self).unique@, x)]
                    count_in(final(self).unique@, x) + count_nested(final(self).same@, x)
                        + count_keyed(final(self).groups@, x) == count_in(old(self).unique@, x)
                        + count_nested(old(self).same@, x) + count_keyed(old(self).groups@, x) + (
                    if x == old(self).pending->Some_0.idx {
                        1nat
                    } else {
                        0nat
                    })))
            },
    {
        let p = self.pending.unwrap();
        let rep = self.groups[p.gpos].items[0];
        self.pending = None;
        let ghost pre = *self;
        if eq {
            self.log = Ghost(
                EngineLog {
                    hkeys: self.log@.hkeys,
                    heads: self.log@.heads.insert(p.idx, rep),
                    joins: self.log@.joins.push((p.idx, rep)),
                    refusals: self.log@.refusals,
                },
            );
            let ghost gpre = self.groups@;
            let mut kl = self.groups.remove(p.gpos);
            kl.items.push(p.idx);
            let ghost klg = kl;
            self.groups.insert(p.gpos, kl);
            proof {
                assert(self.groups@ =~= gpre.update(p.gpos as int, klg));
                crate::counting::lemma_push_contains(pre.log@.joins, (p.idx, rep));
                assert forall|x: usize| true implies count_keyed(self.groups@, x) == count_keyed(
                    gpre,
                    x,
                ) + (if x == p.idx {
                    1nat
                } else {
                    0nat
                }) by {
                    crate::counting::lemma_count_in_push(gpre[p.gpos as int].items@, p.idx, x);
                    crate::counting::lemma_count_keyed_update(gpre, p.gpos as int, klg, x);
                }
                assert forall|gg: int, i: int|
                    #![trigger self.groups@[gg].items@[i]]
                    0 <= gg < self.groups@.len() && 0 <= i < self.groups@[gg].items@.len()
                        implies (self.groups@[gg].items@[i] as int) < self.n()
                    && self.log@.hkeys.contains_key(self.groups@[gg].items@[i])
                    && self.log@.hkeys[self.groups@[gg].items@[i]] == self.groups@[gg].key by {
                    if gg == p.gpos && i == self.groups@[gg].items@.len() - 1 {
                        assert(self.groups@[gg].items@[i] == p.idx);
                        assert(self.groups@[gg].key == p.key);
                        assert(old(self).buckets@[old(self).bpos as int]@[old(self).ipos as int]
                            == p.idx);
                    } else {
                        assert(old(self).groups@[gg].items@[i] == self.groups@[gg].items@[i]);
                    }
                }
                assert forall|gg: int, i: int|
                    #![trigger self.groups@[gg].items@[i]]
                    0 <= gg < self.groups@.len() && 1 <= i < self.groups@[gg].items@.len()
                        implies self.log@.joins.contains(
                    (self.groups@[gg].items@[i], self.groups@[gg].items@[0]),
                ) by {
                    if gg == p.gpos && i == self.groups@[gg].items@.len() - 1 {
                        assert(self.groups@[gg].items@[i] == p.idx);
                        assert(self.groups@[gg].items@[0] == rep);
                    } else {
                        assert(old(self).groups@[gg].items@[i] == self.groups@[gg].items@[i]);
                        assert(old(self).groups@[gg].items@[0] == self.groups@[gg].items@[0]);
                    }
                }
                assert forall|x: usize|
                    #![trigger count_in(self.zero@, x)]
                    true implies self.acct_at(x, self.ipos + 1) == (if (x as int) < self.n() {
                    1nat
                } else {
                    0nat
                }) by {
                    assert(old(self).acct_at(x, old(self).start()) == if (x as int) < old(
                        self,
                    ).n() {
                        1nat
                    } else {
                        0nat
                    });
                    assert(count_keyed(self.groups@, x) == count_keyed(gpre, x) + (if x == p.idx {
                        1nat
                    } else {
                        0nat
                    }));
                }
                assert(old(self).acct_at(p.idx, old(self).start()) == 1);
                assert(count_in(old(self).unique@, p.idx) == 0 && count_nested(
                    old(self).same@,
                    p.idx,
                ) == 0 && count_keyed(old(self).groups@, p.idx) == 0);
                lemma_join_preserves_heads(*old(self), *self, p.idx, p.key, p.gpos as int);
                assert forall|i: int| 0 <= i < self.ipos + 1 implies count_in(
                    self.unique@,
                    #[trigger] self.cur_bucket()[i],
                ) == 0 && count_nested(self.same@, self.cur_bucket()[i]) == 0 by {
                }
            }
            self.complete_index();
        } else {
            self.log = Ghost(
                EngineLog {
                    hkeys: self.log@.hkeys,
                    heads: self.log@.heads,
                    joins: self.log@.joins,
                    refusals: self.log@.refusals.push((p.idx, rep)),
                },
            );
            let glen = self.groups.len();
            proof {
                assert(p.gpos < glen);
                crate::counting::lemma_push_contains(pre.log@.refusals, (p.idx, rep));
                assert forall|g: int|
                    0 <= g < p.gpos + 1 && (#[trigger] self.groups@[g]).key == p.key
                        implies self.log@.refusals.contains(
                    (p.idx, self.groups@[g].items@[0]),
                ) by {
                    if g < p.gpos {
                        assert(old(self).log@.refusals.contains(
                            (p.idx, old(self).groups@[g].items@[0]),
                        ));
                    } else {
                        assert(self.groups@[g].items@[0] == rep);
                    }
                }
                assert forall|x: usize|
                    #![trigger count_in(self.zero@, x)]
                    true implies self.acct_at(x, self.ipos + 1) + (if x == p.idx {
                    1nat
                } else {
                    0nat
                }) == (if (x as int) < self.n() {
                    1nat
                } else {
                    0nat
                }) by {
                    assert(old(self).acct_at(x, old(self).start()) == if (x as int) < old(
                        self,
                    ).n() {
                        1nat
                    } else {
                        0nat
                    });
                }
            }
            self.advance_scan(p.idx, p.key, p.gpos + 1);
        }
    }

    /// Answers a `Compare` request whose reads failed: the index being
    /// placed is recorded as an error; the group it was compared against is
    /// unaffected.
    pub fn provide_compare_error(&mut self)
        requires
            old(self).inv(),
            old(self).spec_request() matches Request::Compare { idx: _, rep: _, full: _ },
        ensures
            final(self).inv(),
            final(self).info@ == old(self).info@,
            final(self).zero@ == old(self).zero@,
            final(self).buckets@ == old(self).buckets@,
            final(self).cmp == old(self).cmp,
            final(self).chunks_only == old(self).chunks_only,
            final(self).total == old(self).total,
            final(self).done_count == old(self).done_count,
            final(self).log == old(self).log,
            final(self).errors@ == old(self).errors@.push(old(self).pending->Some_0.idx),
            final(self).pending is None,
            forall|x: usize|
                #![trigger count_in(final(self).unique@, x)]
                count_in(final(self).unique@, x) + count_nested(final(self).same@, x) + count_keyed(
                    final(self).groups@,
                    x,
                ) == count_in(old(self).unique@, x) + count_nested(old(self).same@, x)
                    + count_keyed(old(self).groups@, x),
    {
        let p = self.pending.unwrap();
        self.pending = None;
        let ghost pre = *self;
        self.errors.push(p.idx);
        proof {
            assert(old(self).buckets@[old(self).bpos as int]@[old(self).ipos as int] == p.idx);
            assert((p.idx as int) < self.n());
            assert forall|x: usize|
                #![trigger count_in(self.zero@, x)]
                true implies self.acct_at(x, self.ipos + 1) == (if (x as int) < self.n() {
                1nat
            } else {
                0nat
            }) by {
                assert(old(self).acct_at(x, old(self).start()) == if (x as int) < old(self).n() {
                    1nat
                } else {
                    0nat
                });
                crate::counting::lemma_count_in_push(pre.errors@, p.idx, x);
            }
        }
        self.complete_index();
    }

    /// The observation the engine asks its driver for next.
    pub open spec fn spec_request(self) -> Request {
        if !self.in_run() {
            Request::Done
        } else if self.pending is Some {
            let p = self.pending->Some_0;
            Request::Compare {
                idx: p.idx,
                rep: self.groups@[p.gpos as int].items@[0],
                full: spec_uses_full(
                    self.cmp,
                    size_of_idx(self.info@, self.cur_bucket()[0]),
                    self.chunks_only,
                ),
            }
        } else {
            Request::Hash { idx: self.cur_idx() }
        }
    }
}

/// Sorts a list of indices in place (insertion sort), keeping exactly the
/// same occurrences.
fn sort_indices(v: &mut Vec<usize>)
    ensures
        sorted_indices(final(v)@),
        final(v)@.len() == old(v)@.len(),
        forall|x: usize| #[trigger] count_in(final(v)@, x) == count_in(old(v)@, x),
{
    let ghost v0 = v@;
    let mut i: usize = 1;
    while i < v.len()
        invariant
            1 <= i || v@.len() == 0,
            v@.len() == v0.len(),
            forall|a: int, b: int| 0 <= a < b < i ==> v@[a] <= v@[b],
            forall|x: usize| #[trigger] count_in(v@, x) == count_in(v0, x),
        decreases v@.len() - i,
    {
        let mut j = i;
        while j > 0 && v[j - 1] > v[j]
            invariant
                j <= i,
                i < v@.len(),
                v@.len() == v0.len(),
                forall|a: int, b: int| 0 <= a < b <= i && b != j ==> v@[a] <= v@[b],
                forall|x: usize| #[trigger] count_in(v@, x) == count_in(v0, x),
            decreases j,
        {
            let ghost vpre = v@;
            let a = v[j - 1];
            let b = v[j];
            v[j - 1] = b;
            v[j] = a;
            proof {
                assert(v@ =~= vpre.update(j - 1, b).update(j as int, a));
                assert forall|x: usize| #[trigger] count_in(v@, x) == count_in(v0, x) by {
                    crate::counting::lemma_count_in_update(vpre, j - 1, b, x);
                    crate::counting::lemma_count_in_update(vpre.update(j - 1, b), j as int, a, x);
                }
            }
            j = j - 1;
        }
        i = i + 1;
    }
}

/// Whether every group of `a` is one of the groups of `b`.
pub open spec fn groups_drawn_from(a: Seq<Vec<usize>>, b: Seq<Vec<usize>>) -> bool {
    forall|g: int| 0 <= g < a.len() ==> b.contains(#[trigger] a[g])
}

/// Sorts a list of nonempty groups in place by each group's first member
/// (insertion sort), keeping the same groups.
fn sort_groups(v: &mut Vec<Vec<usize>>)
    requires
        forall|g: int| 0 <= g < old(v)@.len() ==> (#[trigger] old(v)@[g])@.len() >= 1,
    ensures
        final(v)@.len() == old(v)@.len(),
        forall|a: int, b: int|
            0 <= a < b < final(v)@.len() ==> (#[trigger] final(v)@[a])@[0] <= (
            #[trigger] final(v)@[b])@[0],
        forall|x: usize| #[trigger] count_nested(final(v)@, x) == count_nested(old(v)@, x),
        groups_drawn_from(final(v)@, old(v)@),
{
    let ghost v0 = v@;
    proof {
        assert forall|g: int| 0 <= g < v@.len() implies v0.contains(#[trigger] v@[g]) by {
            assert(v0[g] == v@[g]);
        }
    }
    let mut i: usize = 1;
    while i < v.len()
        invariant
            1 <= i || v@.len() == 0,
            v@.len() == v0.len(),
            forall|g: int| 0 <= g < v@.len() ==> (#[trigger] v@[g])@.len() >= 1,
            forall|a: int, b: int|
                0 <= a < b < i ==> (#[trigger] v@[a])@[0] <= (#[trigger] v@[b])@[0],
            forall|x: usize| #[trigger] count_nested(v@, x) == count_nested(v0, x),
            groups_drawn_from(v@, v0),
        decreases v@.len() - i,
    {
        let mut j = i;
        while j > 0 && v[j - 1][0] > v[j][0]
            invariant
                j <= i,
                i < v@.len(),
                v@.len() == v0.len(),
                forall|g: int| 0 <= g < v@.len() ==> (#[trigger] v@[g])@.len() >= 1,
                forall|a: int, b: int|
                    0 <= a < b <= i && b != j ==> (#[trigger] v@[a])@[0] <= (#[trigger] v@[b])@[0],
                forall|x: usize| #[trigger] count_nested(v@, x) == count_nested(v0, x),
                groups_drawn_from(v@, v0),
            decreases j,
        {
            let ghost vpre = v@;
            let moved = v.remove(j);
            let ghost movedg = moved;
            v.insert(j - 1, moved);
            proof {
                assert(v@ =~= vpre.update(j - 1, vpre[j as int]).update(j as int, vpre[j - 1]));
                assert forall|x: usize| #[trigger] count_nested(v@, x) == count_nested(v0, x) by {
                    crate::counting::lemma_count_nested_remove(vpre, j as int, x);
                    crate::counting::lemma_count_nested_insert(
                        vpre.remove(j as int),
                        j - 1,
                        movedg,
                        x,
                    );
                    assert(v@ =~= vpre.remove(j as int).insert(j - 1, movedg));
                }
                assert forall|g: int| 0 <= g < v@.len() implies v0.contains(#[trigger] v@[g]) by {
                    let gp: int = if g == j - 1 {
                        j as int
                    } else if g == j {
                        j - 1
                    } else {
                        g
                    };
                    assert(v@[g] == vpre[gp]);
                    assert(v0.contains(vpre[gp]));
                }
            }
            j = j - 1;
        }
        i = i + 1;
    }
}

impl Engine {
    /// Assembles the final report once every bucket is resolved: the zero,
    /// unique and duplicate-group lists are sorted for deterministic output,
    /// and every discovered index is accounted for exactly once across the
    /// report and the dropped error indices. The returned ghost trace ties
    /// each duplicate group to the comparisons that built it.
    pub fn finish(self) -> (r: (Processed, Ghost<EngineLog>))
        requires
            self.inv(),
            self.spec_request() == Request::Done,
        ensures
            r.0.info@ == self.info@,
            r.1@ == self.log@,
            forall|x: usize|
                #![trigger count_in(r.0.zero@, x)]
                count_in(r.0.zero@, x) + count_in(r.0.unique@, x) + count_nested(r.0.same@, x)
                    + count_in(self.errors@, x) == if (x as int) < self.n() {
                    1nat
                } else {
                    0nat
                },
            sorted_indices(r.0.zero@),
            sorted_indices(r.0.unique@),
            forall|a: int, b: int|
                0 <= a < b < r.0.same@.len() ==> (#[trigger] r.0.same@[a])@[0] <= (
                #[trigger] r.0.same@[b])@[0],
            forall|x: usize| #![trigger count_in(r.0.zero@, x)]
                (x as int) < self.n() && size_of_idx(self.info@, x) == 0 ==> count_in(r.0.zero@, x)
                    == 1,
            forall|i: int|
                0 <= i < r.0.zero@.len() ==> (#[trigger] r.0.zero@[i] as int) < self.n()
                    && size_of_idx(self.info@, r.0.zero@[i]) == 0,
            forall|i: int| 0 <= i < r.0.unique@.len() ==> (#[trigger] r.0.unique@[i] as int) < self.n(),
            forall|s: int| 0 <= s < r.0.same@.len() ==> (#[trigger] r.0.same@[s])@.len() >= 2,
            forall|s: int, i: int|
                #![trigger r.0.same@[s]@[i]]
                0 <= s < r.0.same@.len() && 0 <= i < r.0.same@[s]@.len() ==> (
                r.0.same@[s]@[i] as int) < self.n(),
            forall|s: int, i: int|
                #![trigger r.0.same@[s]@[i]]
                0 <= s < r.0.same@.len() && 1 <= i < r.0.same@[s]@.len() ==> r.1@.joins.contains(
                    (r.0.same@[s]@[i], r.0.same@[s]@[0]),
                ),
            forall|s: int, i: int|
                #![trigger r.0.same@[s]@[i]]
                0 <= s < r.0.same@.len() && 0 <= i < r.0.same@[s]@.len() ==> r.1@.heads.contains_key(
                    r.0.same@[s]@[i],
                ) && r.1@.heads[r.0.same@[s]@[i]] == r.0.same@[s]@[0],
            forall|s: int, i: int|
                #![trigger r.0.same@[s]@[i]]
                0 <= s < r.0.same@.len() && 0 <= i < r.0.same@[s]@.len() ==> r.1@.hkeys.contains_key(
                    r.0.same@[s]@[i],
                ) && r.1@.hkeys[r.0.same@[s]@[i]] == r.1@.hkeys[r.0.same@[s]@[0]],
            forall|i: int|
                0 <= i < r.0.unique@.len() ==> r.1@.heads.contains_key(#[trigger] r.0.unique@[i])
                    && r.1@.heads[r.0.unique@[i]] == r.0.unique@[i],
            forall|x: usize| #[trigger]
                r.1@.heads.contains_key(x) ==> x == r.1@.heads[x] || r.1@.joins.contains(
                    (x, r.1@.heads[x]),
                ),
            forall|x: usize, y: usize|
                #![trigger r.1@.heads[x], r.1@.heads[y]]
                r.1@.heads.contains_key(x) && r.1@.heads.contains_key(y) && r.1@.heads[x]
                    != r.1@.heads[y] ==> separated(self.info@, r.1@, x, y),
            forall|k: int|
                0 <= k < r.1@.refusals.len() ==> ((#[trigger] r.1@.refusals[k]).0 as int)
                    < self.n() && (r.1@.refusals[k].1 as int) < self.n() && self.info@[
                    r.1@.refusals[k].0 as int].inode != self.info@[
                    r.1@.refusals[k].1 as int].inode,
    {
        let Engine { info, mut zero, mut unique, mut same, log, .. } = self;
        proof {
            assert forall|x: usize|
                #![trigger count_in(zero@, x)]
                true implies count_in(zero@, x) + count_in(unique@, x) + count_nested(same@, x)
                + count_in(self.errors@, x) == (if (x as int) < self.n() {
                1nat
            } else {
                0nat
            }) by {
                assert(self.acct_at(x, self.start()) == if (x as int) < self.n() {
                    1nat
                } else {
                    0nat
                });
                assert(self.groups@.len() == 0);
                assert(count_keyed(self.groups@, x) == 0);
            }
        }
        let ghost zero0 = zero@;
        let ghost unique0 = unique@;
        let ghost same0 = same@;
        sort_indices(&mut zero);
        sort_indices(&mut unique);
        sort_groups(&mut same);
        proof {
            assert forall|i: int| 0 <= i < zero@.len() implies (#[trigger] zero@[i] as int)
                < self.n() && size_of_idx(self.info@, zero@[i]) == 0 by {
                let x = zero@[i];
                crate::counting::lemma_count_in_member(zero@, i, x);
                assert(count_in(zero0, x) > 0);
                crate::counting::lemma_count_in_contains(zero0, x);
                let i0 = choose|i0: int| 0 <= i0 < zero0.len() && zero0[i0] == x;
                assert(self.zero@[i0] == x);
            }
            assert forall|i: int| 0 <= i < unique@.len() implies (#[trigger] unique@[i] as int)
                < self.n() by {
                let x = unique@[i];
                crate::counting::lemma_count_in_member(unique@, i, x);
                assert(count_in(unique0, x) > 0);
                crate::counting::lemma_count_in_contains(unique0, x);
                let i0 = choose|i0: int| 0 <= i0 < unique0.len() && unique0[i0] == x;
                assert(self.unique@[i0] == x);
            }
            assert forall|s: int, i: int|
                #![trigger same@[s]@[i]]
                0 <= s < same@.len() && 1 <= i < same@[s]@.len() implies log@.joins.contains(
                (same@[s]@[i], same@[s]@[0]),
            ) by {
                assert(groups_drawn_from(same@, same0));
                assert(same0.contains(same@[s as int]));
                let g2 = choose|g2: int| 0 <= g2 < same0.len() && same0[g2] == same@[s as int];
                assert(self.same@[g2]@[i] == same@[s]@[i]);
                assert(self.same@[g2]@[0] == same@[s]@[0]);
            }
            assert forall|s: int| 0 <= s < same@.len() implies (#[trigger] same@[s])@.len() >= 2 by {
                assert(groups_drawn_from(same@, same0));
                assert(same0.contains(same@[s as int]));
                let g2 = choose|g2: int| 0 <= g2 < same0.len() && same0[g2] == same@[s as int];
                assert(self.same@[g2]@.len() >= 2);
            }
            assert forall|s: int, i: int|
                #![trigger same@[s]@[i]]
                0 <= s < same@.len() && 0 <= i < same@[s]@.len() implies (same@[s]@[i] as int)
                < self.n() by {
                assert(groups_drawn_from(same@, same0));
                assert(same0.contains(same@[s as int]));
                let g2 = choose|g2: int| 0 <= g2 < same0.len() && same0[g2] == same@[s as int];
                assert(self.same@[g2]@[i] == same@[s]@[i]);
            }
            assert forall|s: int, i: int|
                #![trigger same@[s]@[i]]
                0 <= s < same@.len() && 0 <= i < same@[s]@.len() implies log@.heads.contains_key(
                same@[s]@[i],
            ) && log@.heads[same@[s]@[i]] == same@[s]@[0] by {
                assert(groups_drawn_from(same@, same0));
                assert(same0.contains(same@[s as int]));
                let g2 = choose|g2: int| 0 <= g2 < same0.len() && same0[g2] == same@[s as int];
                assert(self.same@[g2]@[i] == same@[s]@[i]);
                assert(self.same@[g2]@[0] == same@[s]@[0]);
                let m = self.same@[g2]@[i];
                crate::counting::lemma_count_nested_member(self.same@, g2, i, m);
            }
            assert forall|s: int, i: int|
                #![trigger same@[s]@[i]]
                0 <= s < same@.len() && 0 <= i < same@[s]@.len() implies log@.hkeys.contains_key(
                same@[s]@[i],
            ) && log@.hkeys[same@[s]@[i]] == log@.hkeys[same@[s]@[0]] by {
                assert(groups_drawn_from(same@, same0));
                assert(same0.contains(same@[s as int]));
                let g2 = choose|g2: int| 0 <= g2 < same0.len() && same0[g2] == same@[s as int];
                assert(self.same@[g2]@[i] == same@[s]@[i]);
                assert(self.same@[g2]@[0] == same@[s]@[0]);
            }
            assert forall|i: int| 0 <= i < unique@.len() implies log@.heads.contains_key(
                #[trigger] unique@[i],
            ) && log@.heads[unique@[i]] == unique@[i] by {
                let x = unique@[i];
                crate::counting::lemma_count_in_member(unique@, i, x);
                assert(count_in(unique0, x) > 0);
                crate::counting::lemma_count_in_contains(unique0, x);
                let i0 = choose|i0: int| 0 <= i0 < unique0.len() && unique0[i0] == x;
                assert(self.unique@[i0] == x);
                crate::counting::lemma_count_in_member(self.unique@, i0, x);
            }
        }
        (Processed { info, zero, unique, same }, log)
    }
}

} // verus!
