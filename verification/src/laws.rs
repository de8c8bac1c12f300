//! The correctness laws of the duplicate report, stated over the report and
//! the ghost trace that [`crate::engine::Engine::finish`] returns.
//!
//! Throughout, `eq` abstracts "same size and same content": the premises say
//! that every verdict the engine was given during the run was truthful — a
//! recorded join relates equal files, a recorded refusal unequal ones, an
//! identity-token match names one underlying file — and that `eq` is an
//! equivalence that determines a file's size and its partial-hash key. The
//! engine's step contracts make those premises dischargeable by whoever
//! drives a run with a correct comparison oracle: a pair enters the join
//! record only through a driver's "equal" verdict on exactly that pair, or
//! at hash time against a representative with the same identity token;
//! refusals record exactly the "not equal" verdicts; and keys are exactly
//! what the driver hashed. None of it depends on which comparison strategy
//! produced the verdicts.

use vstd::prelude::*;

use crate::common::size_of_idx;
use crate::counting::count_in;
use crate::counting::count_nested;
use crate::engine::separated;
use crate::counting::sorted_indices;
use crate::engine::EngineLog;
use crate::file::FileInfo;

verus! {

/// Group correctness: in any list of groups in which every later member was
/// joined to the group's first member (its representative) by a recorded
/// comparison — as [`crate::engine::Engine::finish`] guarantees of its `same` groups and
/// ghost trace — all members of one group are pairwise equal, for any
/// equivalence `eq` that every recorded join respects. Instantiating `eq`
/// with byte-equality of file contents: if every "equal" verdict the driver
/// reported was true (and identity-token matches name one underlying file),
/// then every reported duplicate group is an equivalence class sample —
/// comparing each candidate against the representative alone suffices, by
/// transitivity.
pub proof fn lemma_group_correctness(
    same: Seq<Vec<usize>>,
    joins: Seq<(usize, usize)>,
    eq: spec_fn(usize, usize) -> bool,
)
    requires
        forall|s: int, i: int|
            #![trigger same[s]@[i]]
            0 <= s < same.len() && 1 <= i < same[s]@.len() ==> joins.contains(
                (same[s]@[i], same[s]@[0]),
            ),
        forall|k: int| 0 <= k < joins.len() ==> eq((#[trigger] joins[k]).0, joins[k].1),
        forall|a: usize| #[trigger] eq(a, a),
        forall|a: usize, b: usize| #[trigger] eq(a, b) ==> eq(b, a),
        forall|a: usize, b: usize, c: usize|
            #[trigger] eq(a, b) && #[trigger] eq(b, c) ==> eq(a, c),
    ensures
        forall|s: int, i: int, j: int|
            #![trigger same[s]@[i], same[s]@[j]]
            0 <= s < same.len() && 0 <= i < same[s]@.len() && 0 <= j < same[s]@.len() ==> eq(
                same[s]@[i],
                same[s]@[j],
            ),
{
    assert forall|s: int, i: int|
        #![trigger same[s]@[i]]
        0 <= s < same.len() && 0 <= i < same[s]@.len() implies eq(same[s]@[i], same[s]@[0]) by {
        let m = same[s]@[i];
        let r = same[s]@[0];
        if i == 0 {
            assert(eq(m, m));
        } else {
            assert(joins.contains((m, r)));
            let k = choose|k: int| 0 <= k < joins.len() && joins[k] == (m, r);
            assert(eq(joins[k].0, joins[k].1));
        }
    }
    assert forall|s: int, i: int, j: int|
        #![trigger same[s]@[i], same[s]@[j]]
        0 <= s < same.len() && 0 <= i < same[s]@.len() && 0 <= j < same[s]@.len() implies eq(
        same[s]@[i],
        same[s]@[j],
    ) by {
        let r = same[s]@[0];
        assert(eq(same[s]@[i], r));
        assert(eq(same[s]@[j], r));
        assert(eq(r, same[s]@[j]));
    }
}

/// One pair of the size-precondition argument: two reported indices under
/// different representatives cannot be equal, given truthful verdicts.
proof fn lemma_pair_not_eq(
    info: Seq<FileInfo>,
    log: EngineLog,
    eq: spec_fn(usize, usize) -> bool,
    x: usize,
    y: usize,
)
    requires
        log.heads.contains_key(x),
        log.heads.contains_key(y),
        log.heads[x] != log.heads[y],
        separated(info, log, x, y),
        x == log.heads[x] || log.joins.contains((x, log.heads[x])),
        y == log.heads[y] || log.joins.contains((y, log.heads[y])),
        forall|k: int| 0 <= k < log.joins.len() ==> eq((#[trigger] log.joins[k]).0, log.joins[k].1),
        forall|k: int|
            0 <= k < log.refusals.len() ==> !eq(
                (#[trigger] log.refusals[k]).0,
                log.refusals[k].1,
            ),
        forall|a: usize| #[trigger] eq(a, a),
        forall|a: usize, b: usize| #[trigger] eq(a, b) ==> eq(b, a),
        forall|a: usize, b: usize, c: usize|
            #[trigger] eq(a, b) && #[trigger] eq(b, c) ==> eq(a, c),
        forall|a: usize, b: usize| #[trigger] eq(a, b) ==> size_of_idx(info, a) == size_of_idx(
            info,
            b,
        ),
        forall|a: usize, b: usize|
            log.hkeys.contains_key(a) && log.hkeys.contains_key(b) && #[trigger] eq(a, b)
                ==> log.hkeys[a] == log.hkeys[b],
    ensures
        !eq(x, y),
{
    let hx = log.heads[x];
    let hy = log.heads[y];
    if eq(x, y) {
        assert(eq(x, hx)) by {
            if x == hx {
                assert(eq(x, x));
            } else {
                assert(log.joins.contains((x, hx)));
                let k = choose|k: int| 0 <= k < log.joins.len() && log.joins[k] == (x, hx);
                assert(eq(log.joins[k].0, log.joins[k].1));
            }
        }
        assert(eq(y, hy)) by {
            if y == hy {
                assert(eq(y, y));
            } else {
                assert(log.joins.contains((y, hy)));
                let k = choose|k: int| 0 <= k < log.joins.len() && log.joins[k] == (y, hy);
                assert(eq(log.joins[k].0, log.joins[k].1));
            }
        }
        if size_of_idx(info, x) != size_of_idx(info, y) {
            assert(false);
        } else if log.hkeys.contains_key(x) && log.hkeys.contains_key(y) && log.hkeys[x]
            != log.hkeys[y] {
            assert(false);
        } else {
            assert(eq(hx, x) && eq(hy, y));
            assert(eq(hx, y));
            assert(eq(hx, hy));
            assert(eq(hy, hx));
            if log.refusals.contains((hx, hy)) {
                let k = choose|k: int| 0 <= k < log.refusals.len() && log.refusals[k] == (hx, hy);
                assert(!eq(log.refusals[k].0, log.refusals[k].1));
            } else {
                assert(log.refusals.contains((hy, hx)));
                let k = choose|k: int| 0 <= k < log.refusals.len() && log.refusals[k] == (hy, hx);
                assert(!eq(log.refusals[k].0, log.refusals[k].1));
            }
            assert(false);
        }
    }
}

/// Size precondition — no false negatives: two reported indices that are
/// separately reported (in two different duplicate groups, in a group and
/// the unique list, or both in the unique list) never share both size and
/// content. The facts required here are exactly what [`crate::engine::Engine::finish`]
/// ensures of its report and ghost trace; `eq` stands for "same size and
/// same content", so the premises say that every reported verdict was
/// truthful (a recorded join relates equal files, a recorded refusal
/// relates unequal ones), that equality of contents is an equivalence, and
/// that equal files have equal sizes and equal partial-hash keys.
pub proof fn lemma_size_precondition(
    info: Seq<FileInfo>,
    same: Seq<Vec<usize>>,
    unique: Seq<usize>,
    log: EngineLog,
    eq: spec_fn(usize, usize) -> bool,
)
    requires
        forall|s: int, i: int|
            #![trigger same[s]@[i]]
            0 <= s < same.len() && 0 <= i < same[s]@.len() ==> log.heads.contains_key(same[s]@[i])
                && log.heads[same[s]@[i]] == same[s]@[0],
        forall|i: int|
            0 <= i < unique.len() ==> log.heads.contains_key(#[trigger] unique[i])
                && log.heads[unique[i]] == unique[i],
        forall|x: usize| #[trigger]
            log.heads.contains_key(x) ==> x == log.heads[x] || log.joins.contains(
                (x, log.heads[x]),
            ),
        forall|x: usize, y: usize|
            #![trigger log.heads[x], log.heads[y]]
            log.heads.contains_key(x) && log.heads.contains_key(y) && log.heads[x] != log.heads[y]
                ==> separated(info, log, x, y),
        forall|x: usize|
            #![trigger count_in(unique, x)]
            count_in(unique, x) + count_nested(same, x) <= 1,
        forall|s: int| 0 <= s < same.len() ==> (#[trigger] same[s])@.len() >= 1,
        forall|k: int| 0 <= k < log.joins.len() ==> eq((#[trigger] log.joins[k]).0, log.joins[k].1),
        forall|k: int|
            0 <= k < log.refusals.len() ==> !eq(
                (#[trigger] log.refusals[k]).0,
                log.refusals[k].1,
            ),
        forall|a: usize| #[trigger] eq(a, a),
        forall|a: usize, b: usize| #[trigger] eq(a, b) ==> eq(b, a),
        forall|a: usize, b: usize, c: usize|
            #[trigger] eq(a, b) && #[trigger] eq(b, c) ==> eq(a, c),
        forall|a: usize, b: usize| #[trigger] eq(a, b) ==> size_of_idx(info, a) == size_of_idx(
            info,
            b,
        ),
        forall|a: usize, b: usize|
            log.hkeys.contains_key(a) && log.hkeys.contains_key(b) && #[trigger] eq(a, b)
                ==> log.hkeys[a] == log.hkeys[b],
    ensures
        forall|s1: int, i1: int, s2: int, i2: int|
            #![trigger same[s1]@[i1], same[s2]@[i2]]
            0 <= s1 < same.len() && 0 <= s2 < same.len() && s1 != s2 && 0 <= i1 < same[s1]@.len()
                && 0 <= i2 < same[s2]@.len() ==> !eq(same[s1]@[i1], same[s2]@[i2]),
        forall|s: int, i: int, u: int|
            #![trigger same[s]@[i], unique[u]]
            0 <= s < same.len() && 0 <= i < same[s]@.len() && 0 <= u < unique.len() ==> !eq(
                same[s]@[i],
                unique[u],
            ),
        forall|u1: int, u2: int|
            #![trigger unique[u1], unique[u2]]
            0 <= u1 < unique.len() && 0 <= u2 < unique.len() && u1 != u2 ==> !eq(
                unique[u1],
                unique[u2],
            ),
{
    assert forall|s1: int, i1: int, s2: int, i2: int|
        #![trigger same[s1]@[i1], same[s2]@[i2]]
        0 <= s1 < same.len() && 0 <= s2 < same.len() && s1 != s2 && 0 <= i1 < same[s1]@.len() && 0
            <= i2 < same[s2]@.len() implies !eq(same[s1]@[i1], same[s2]@[i2]) by {
        let x = same[s1]@[i1];
        let y = same[s2]@[i2];
        assert(same[s1]@[0] != same[s2]@[0]) by {
            if same[s1]@[0] == same[s2]@[0] {
                crate::counting::lemma_count_nested_two(same, s1, 0, s2, 0, same[s1]@[0]);
                assert(count_in(unique, same[s1]@[0]) + count_nested(same, same[s1]@[0]) <= 1);
            }
        }
        lemma_pair_not_eq(info, log, eq, x, y);
    }
    assert forall|s: int, i: int, u: int|
        #![trigger same[s]@[i], unique[u]]
        0 <= s < same.len() && 0 <= i < same[s]@.len() && 0 <= u < unique.len() implies !eq(
        same[s]@[i],
        unique[u],
    ) by {
        let x = same[s]@[i];
        let y = unique[u];
        assert(same[s]@[0] != unique[u]) by {
            if same[s]@[0] == unique[u] {
                crate::counting::lemma_count_nested_member(same, s, 0, same[s]@[0]);
                crate::counting::lemma_count_in_member(unique, u, unique[u]);
                assert(count_in(unique, unique[u]) + count_nested(same, unique[u]) <= 1);
            }
        }
        lemma_pair_not_eq(info, log, eq, x, y);
    }
    assert forall|u1: int, u2: int|
        #![trigger unique[u1], unique[u2]]
        0 <= u1 < unique.len() && 0 <= u2 < unique.len() && u1 != u2 implies !eq(
        unique[u1],
        unique[u2],
    ) by {
        assert(unique[u1] != unique[u2]) by {
            if unique[u1] == unique[u2] {
                if u1 < u2 {
                    crate::counting::lemma_count_in_two(unique, u1, u2, unique[u1]);
                } else {
                    crate::counting::lemma_count_in_two(unique, u2, u1, unique[u1]);
                }
                assert(count_in(unique, unique[u1]) + count_nested(same, unique[u1]) <= 1);
            }
        }
        lemma_pair_not_eq(info, log, eq, unique[u1], unique[u2]);
    }
}

/// Two sorted index lists with the same occurrence counts are the same list.
pub proof fn lemma_sorted_counts_equal(a: Seq<usize>, b: Seq<usize>)
    requires
        sorted_indices(a),
        sorted_indices(b),
        forall|x: usize| #![trigger count_in(a, x)] count_in(a, x) == count_in(b, x),
    ensures
        a == b,
    decreases a.len(),
{
    if a.len() == 0 {
        if b.len() > 0 {
            crate::counting::lemma_count_in_member(b, 0, b[0]);
            crate::counting::lemma_count_in_contains(a, b[0]);
            assert(false);
        }
        assert(a =~= b);
    } else if b.len() == 0 {
        crate::counting::lemma_count_in_member(a, 0, a[0]);
        assert(false);
    } else {
        assert(a[0] == b[0]) by {
            crate::counting::lemma_count_in_member(a, 0, a[0]);
            crate::counting::lemma_count_in_contains(b, a[0]);
            let j = choose|j: int| 0 <= j < b.len() && b[j] == a[0];
            assert(b[0] <= a[0]);
            crate::counting::lemma_count_in_member(b, 0, b[0]);
            crate::counting::lemma_count_in_contains(a, b[0]);
            let i = choose|i: int| 0 <= i < a.len() && a[i] == b[0];
            assert(a[0] <= b[0]);
        }
        assert forall|i: int, j: int| 0 <= i < j < a.skip(1).len() implies a.skip(1)[i] <= a.skip(
            1,
        )[j] by {
            assert(a.skip(1)[i] == a[i + 1] && a.skip(1)[j] == a[j + 1]);
        }
        assert forall|i: int, j: int| 0 <= i < j < b.skip(1).len() implies b.skip(1)[i] <= b.skip(
            1,
        )[j] by {
            assert(b.skip(1)[i] == b[i + 1] && b.skip(1)[j] == b[j + 1]);
        }
        assert forall|x: usize| #![trigger count_in(a.skip(1), x)] true implies count_in(
            a.skip(1),
            x,
        ) == count_in(b.skip(1), x) by {
            assert(count_in(a, x) == count_in(b, x));
        }
        lemma_sorted_counts_equal(a.skip(1), b.skip(1));
        assert forall|i: int| 0 <= i < a.len() implies a[i] == b[i] by {
            if i > 0 {
                assert(a.skip(1)[i - 1] == a[i]);
                assert(b.skip(1)[i - 1] == b[i]);
            }
        }
        assert(a.skip(1).len() == b.skip(1).len());
        assert(a =~= b);
    }
}

/// Idempotence of the zero report: any two runs over the same record list
/// report the same `zero` list, because the list is fully pinned — the
/// ascending indices of the zero-length records, each exactly once.
pub proof fn lemma_zero_deterministic(info: Seq<FileInfo>, za: Seq<usize>, zb: Seq<usize>)
    requires
        sorted_indices(za),
        sorted_indices(zb),
        forall|i: int|
            0 <= i < za.len() ==> ((#[trigger] za[i]) as int) < info.len() && size_of_idx(
                info,
                za[i],
            ) == 0,
        forall|x: usize| #![trigger count_in(za, x)]
            (x as int) < info.len() && size_of_idx(info, x) == 0 ==> count_in(za, x) == 1,
        forall|x: usize| #![trigger count_in(za, x)] count_in(za, x) <= 1,
        forall|i: int|
            0 <= i < zb.len() ==> ((#[trigger] zb[i]) as int) < info.len() && size_of_idx(
                info,
                zb[i],
            ) == 0,
        forall|x: usize| #![trigger count_in(zb, x)]
            (x as int) < info.len() && size_of_idx(info, x) == 0 ==> count_in(zb, x) == 1,
        forall|x: usize| #![trigger count_in(zb, x)] count_in(zb, x) <= 1,
    ensures
        za == zb,
{
    assert forall|x: usize| #![trigger count_in(za, x)] true implies count_in(za, x) == count_in(
        zb,
        x,
    ) by {
        if (x as int) < info.len() && size_of_idx(info, x) == 0 {
        } else {
            if count_in(za, x) > 0 {
                crate::counting::lemma_count_in_contains(za, x);
            }
            if count_in(zb, x) > 0 {
                crate::counting::lemma_count_in_contains(zb, x);
            }
        }
    }
    lemma_sorted_counts_equal(za, zb);
}

/// Whether some other record of the list equals the one at `x`.
pub open spec fn has_duplicate(
    info: Seq<FileInfo>,
    eq: spec_fn(usize, usize) -> bool,
    x: usize,
) -> bool {
    exists|y: usize| (y as int) < info.len() && y != x && #[trigger] eq(x, y)
}

/// The shape of a finished report: zero, unique and the duplicate groups
/// partition the record indices, the zero list holds exactly the zero-length
/// records, every group has at least two members, and the unique list is
/// sorted. [`crate::engine::Engine::finish`] ensures all of it of an error-free run.
pub open spec fn report_partitions(
    info: Seq<FileInfo>,
    zero: Seq<usize>,
    unique: Seq<usize>,
    same: Seq<Vec<usize>>,
) -> bool {
    &&& forall|x: usize|
        #![trigger count_in(zero, x)]
        count_in(zero, x) + count_in(unique, x) + count_nested(same, x) == if (x as int)
            < info.len() {
            1nat
        } else {
            0nat
        }
    &&& forall|i: int|
        0 <= i < zero.len() ==> ((#[trigger] zero[i]) as int) < info.len() && size_of_idx(
            info,
            zero[i],
        ) == 0
    &&& forall|x: usize| #![trigger count_in(zero, x)]
        (x as int) < info.len() && size_of_idx(info, x) == 0 ==> count_in(zero, x) == 1
    &&& forall|s: int| 0 <= s < same.len() ==> (#[trigger] same[s])@.len() >= 2
    &&& sorted_indices(unique)
}

/// The conclusions of the two correctness laws for one report: members of
/// one group are pairwise equal, and separately reported indices are not.
pub open spec fn report_respects(
    info: Seq<FileInfo>,
    unique: Seq<usize>,
    same: Seq<Vec<usize>>,
    eq: spec_fn(usize, usize) -> bool,
) -> bool {
    &&& forall|s: int, i: int, j: int|
        #![trigger same[s]@[i], same[s]@[j]]
        0 <= s < same.len() && 0 <= i < same[s]@.len() && 0 <= j < same[s]@.len() ==> eq(
            same[s]@[i],
            same[s]@[j],
        )
    &&& forall|s1: int, i1: int, s2: int, i2: int|
        #![trigger same[s1]@[i1], same[s2]@[i2]]
        0 <= s1 < same.len() && 0 <= s2 < same.len() && s1 != s2 && 0 <= i1 < same[s1]@.len() && 0
            <= i2 < same[s2]@.len() ==> !eq(same[s1]@[i1], same[s2]@[i2])
    &&& forall|s: int, i: int, u: int|
        #![trigger same[s]@[i], unique[u]]
        0 <= s < same.len() && 0 <= i < same[s]@.len() && 0 <= u < unique.len() ==> !eq(
            same[s]@[i],
            unique[u],
        )
    &&& forall|u1: int, u2: int|
        #![trigger unique[u1], unique[u2]]
        0 <= u1 < unique.len() && 0 <= u2 < unique.len() && u1 != u2 ==> !eq(
            unique[u1],
            unique[u2],
        )
}

/// What the unique list means: in an error-free report that satisfies the
/// two correctness laws, `unique` holds exactly the nonzero-length records
/// that have no duplicate anywhere in the record list.
pub proof fn lemma_unique_characterized(
    info: Seq<FileInfo>,
    zero: Seq<usize>,
    unique: Seq<usize>,
    same: Seq<Vec<usize>>,
    eq: spec_fn(usize, usize) -> bool,
    x: usize,
)
    requires
        report_partitions(info, zero, unique, same),
        report_respects(info, unique, same, eq),
        forall|a: usize| #[trigger] eq(a, a),
        forall|a: usize, b: usize| #[trigger] eq(a, b) ==> eq(b, a),
        forall|a: usize, b: usize| #[trigger] eq(a, b) ==> size_of_idx(info, a) == size_of_idx(
            info,
            b,
        ),
    ensures
        count_in(unique, x) == if (x as int) < info.len() && size_of_idx(info, x) != 0
            && !has_duplicate(info, eq, x) {
            1nat
        } else {
            0nat
        },
{
    let n = info.len() as int;
    if !((x as int) < n) {
        assert(count_in(zero, x) + count_in(unique, x) + count_nested(same, x) == 0);
    } else if size_of_idx(info, x) == 0 {
        assert(count_in(zero, x) == 1);
    } else if !has_duplicate(info, eq, x) {
        assert(count_in(zero, x) == 0) by {
            if count_in(zero, x) > 0 {
                crate::counting::lemma_count_in_contains(zero, x);
            }
        }
        assert(count_nested(same, x) == 0) by {
            if count_nested(same, x) > 0 {
                crate::counting::lemma_count_nested_contains(same, x);
                let (sg, i) = choose|sg: int, i: int|
                    #![trigger same[sg]@[i]]
                    0 <= sg < same.len() && 0 <= i < same[sg]@.len() && same[sg]@[i] == x;
                let i2: int = if i == 0 {
                    1
                } else {
                    0
                };
                let y = same[sg]@[i2];
                assert(y != x) by {
                    if y == x {
                        crate::counting::lemma_count_nested_two(same, sg, i, sg, i2, x);
                    }
                }
                assert((y as int) < n) by {
                    crate::counting::lemma_count_nested_member(same, sg, i2, y);
                    assert(count_in(zero, y) + count_in(unique, y) + count_nested(same, y) == (
                    if (y as int) < n {
                        1nat
                    } else {
                        0nat
                    }));
                }
                assert(eq(x, y));
                assert(has_duplicate(info, eq, x));
            }
        }
    } else {
        let y = choose|y: usize| (y as int) < info.len() && y != x && #[trigger] eq(x, y);
        if count_in(unique, x) > 0 {
            crate::counting::lemma_count_in_contains(unique, x);
            let u = choose|u: int| 0 <= u < unique.len() && unique[u] == x;
            assert(size_of_idx(info, y) == size_of_idx(info, x));
            assert(count_in(zero, y) + count_in(unique, y) + count_nested(same, y) == 1);
            assert(count_in(zero, y) == 0) by {
                if count_in(zero, y) > 0 {
                    crate::counting::lemma_count_in_contains(zero, y);
                }
            }
            if count_in(unique, y) > 0 {
                crate::counting::lemma_count_in_contains(unique, y);
                let u2 = choose|u2: int| 0 <= u2 < unique.len() && unique[u2] == y;
                assert(u != u2);
                assert(!eq(unique[u], unique[u2]));
            } else {
                assert(count_nested(same, y) > 0);
                crate::counting::lemma_count_nested_contains(same, y);
                let (sg, i) = choose|sg: int, i: int|
                    #![trigger same[sg]@[i]]
                    0 <= sg < same.len() && 0 <= i < same[sg]@.len() && same[sg]@[i] == y;
                assert(!eq(same[sg]@[i], unique[u]));
                assert(eq(y, x));
            }
            assert(false);
        }
    }
}

/// What membership in the duplicate groups means: in an error-free report
/// that satisfies the two correctness laws, the duplicate groups together
/// hold exactly the nonzero-length records that have a duplicate somewhere
/// in the record list — so that membership, too, is a function of the
/// records' sizes and contents alone.
pub proof fn lemma_grouped_characterized(
    info: Seq<FileInfo>,
    zero: Seq<usize>,
    unique: Seq<usize>,
    same: Seq<Vec<usize>>,
    eq: spec_fn(usize, usize) -> bool,
    x: usize,
)
    requires
        report_partitions(info, zero, unique, same),
        report_respects(info, unique, same, eq),
        forall|a: usize| #[trigger] eq(a, a),
        forall|a: usize, b: usize| #[trigger] eq(a, b) ==> eq(b, a),
        forall|a: usize, b: usize| #[trigger] eq(a, b) ==> size_of_idx(info, a) == size_of_idx(
            info,
            b,
        ),
    ensures
        count_nested(same, x) == if (x as int) < info.len() && size_of_idx(info, x) != 0
            && has_duplicate(info, eq, x) {
            1nat
        } else {
            0nat
        },
{
    lemma_unique_characterized(info, zero, unique, same, eq, x);
    assert(count_in(zero, x) + count_in(unique, x) + count_nested(same, x) == (if (x as int)
        < info.len() {
        1nat
    } else {
        0nat
    }));
    if (x as int) < info.len() {
        if size_of_idx(info, x) == 0 {
            assert(count_in(zero, x) == 1);
        } else {
            assert(count_in(zero, x) == 0) by {
                if count_in(zero, x) > 0 {
                    crate::counting::lemma_count_in_contains(zero, x);
                }
            }
        }
    }
}

/// Idempotence of the unique report: two error-free reports over the same
/// record list that both satisfy the correctness laws agree on `unique` —
/// the list is a function of the records' sizes and contents alone.
pub proof fn lemma_unique_deterministic(
    info: Seq<FileInfo>,
    zeroa: Seq<usize>,
    uniquea: Seq<usize>,
    samea: Seq<Vec<usize>>,
    zerob: Seq<usize>,
    uniqueb: Seq<usize>,
    sameb: Seq<Vec<usize>>,
    eq: spec_fn(usize, usize) -> bool,
)
    requires
        report_partitions(info, zeroa, uniquea, samea),
        report_respects(info, uniquea, samea, eq),
        report_partitions(info, zerob, uniqueb, sameb),
        report_respects(info, uniqueb, sameb, eq),
        forall|a: usize| #[trigger] eq(a, a),
        forall|a: usize, b: usize| #[trigger] eq(a, b) ==> eq(b, a),
        forall|a: usize, b: usize| #[trigger] eq(a, b) ==> size_of_idx(info, a) == size_of_idx(
            info,
            b,
        ),
    ensures
        uniquea == uniqueb,
{
    assert forall|x: usize| #![trigger count_in(uniquea, x)] true implies count_in(uniquea, x)
        == count_in(uniqueb, x) by {
        lemma_unique_characterized(info, zeroa, uniquea, samea, eq, x);
        lemma_unique_characterized(info, zerob, uniqueb, sameb, eq, x);
    }
    lemma_sorted_counts_equal(uniquea, uniqueb);
}

/// Whether one duplicate group holds both `x` and `y`.
pub open spec fn grouped_together(same: Seq<Vec<usize>>, x: usize, y: usize) -> bool {
    exists|s: int, i: int, j: int|
        #![trigger same[s]@[i], same[s]@[j]]
        0 <= s < same.len() && 0 <= i < same[s]@.len() && 0 <= j < same[s]@.len() && same[s]@[i]
            == x && same[s]@[j] == y
}

/// What being grouped together means: in an error-free report that satisfies
/// the correctness laws, one duplicate group holds `x` and `y` exactly when
/// they are equal records of nonzero length — with a duplicate to justify a
/// group at all. The right-hand side does not mention the report, so any two
/// such reports group the records identically; together with
/// [`lemma_zero_deterministic`] and [`lemma_unique_deterministic`] the whole
/// partition is a function of the records' sizes and contents alone.
pub proof fn lemma_grouping_deterministic(
    info: Seq<FileInfo>,
    zero: Seq<usize>,
    unique: Seq<usize>,
    same: Seq<Vec<usize>>,
    eq: spec_fn(usize, usize) -> bool,
    x: usize,
    y: usize,
)
    requires
        report_partitions(info, zero, unique, same),
        report_respects(info, unique, same, eq),
        forall|a: usize| #[trigger] eq(a, a),
        forall|a: usize, b: usize| #[trigger] eq(a, b) ==> eq(b, a),
        forall|a: usize, b: usize| #[trigger] eq(a, b) ==> size_of_idx(info, a) == size_of_idx(
            info,
            b,
        ),
    ensures
        grouped_together(same, x, y) <==> ((x as int) < info.len() && (y as int) < info.len()
            && size_of_idx(info, x) != 0 && eq(x, y) && has_duplicate(info, eq, x)),
{
    let n = info.len() as int;
    lemma_grouped_characterized(info, zero, unique, same, eq, x);
    lemma_grouped_characterized(info, zero, unique, same, eq, y);
    if grouped_together(same, x, y) {
        let (s, i, j) = choose|s: int, i: int, j: int|
            #![trigger same[s]@[i], same[s]@[j]]
            0 <= s < same.len() && 0 <= i < same[s]@.len() && 0 <= j < same[s]@.len()
                && same[s]@[i] == x && same[s]@[j] == y;
        crate::counting::lemma_count_nested_member(same, s, i, x);
        crate::counting::lemma_count_nested_member(same, s, j, y);
        assert((x as int) < n && (y as int) < n) by {
            assert(count_in(zero, x) + count_in(unique, x) + count_nested(same, x) == (if (
            x as int) < n {
                1nat
            } else {
                0nat
            }));
            assert(count_in(zero, y) + count_in(unique, y) + count_nested(same, y) == (if (
            y as int) < n {
                1nat
            } else {
                0nat
            }));
        }
        assert(eq(x, y));
        assert(size_of_idx(info, x) != 0 && has_duplicate(info, eq, x));
    }
    if (x as int) < n && (y as int) < n && size_of_idx(info, x) != 0 && eq(x, y) && has_duplicate(
        info,
        eq,
        x,
    ) {
        assert(count_nested(same, x) == 1);
        crate::counting::lemma_count_nested_contains(same, x);
        let (s, i) = choose|s: int, i: int|
            #![trigger same[s]@[i]]
            0 <= s < same.len() && 0 <= i < same[s]@.len() && same[s]@[i] == x;
        if y == x {
            assert(same[s]@[i] == x && same[s]@[i] == y);
            assert(grouped_together(same, x, y));
        } else {
            assert(size_of_idx(info, y) == size_of_idx(info, x));
            assert(has_duplicate(info, eq, y)) by {
                assert(eq(y, x));
            }
            assert(count_nested(same, y) == 1);
            crate::counting::lemma_count_nested_contains(same, y);
            let (s2, j) = choose|s2: int, j: int|
                #![trigger same[s2]@[j]]
                0 <= s2 < same.len() && 0 <= j < same[s2]@.len() && same[s2]@[j] == y;
            assert(s2 == s) by {
                if s2 != s {
                    assert(!eq(same[s]@[i], same[s2]@[j]));
                }
            }
            assert(same[s]@[i] == x && same[s]@[j] == y);
            assert(grouped_together(same, x, y));
        }
    }
}

} // verus!
