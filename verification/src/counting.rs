//! Occurrence counting over index sequences and over lists of index groups.
//!
//! The partition guarantees of this crate are stated as "each file index is
//! accounted for exactly once"; these spec functions count how often an index
//! occurs in a flat list and in a nested list, and the lemmas track how the
//! counts move under the sequence operations the executable code performs.

use vstd::prelude::*;

verus! {

/// An index sequence in ascending order.
pub open spec fn sorted_indices(s: Seq<usize>) -> bool {
    forall|a: int, b: int| 0 <= a < b < s.len() ==> s[a] <= s[b]
}

/// How many positions of `s` hold `x`.
pub open spec fn count_in(s: Seq<usize>, x: usize) -> nat
    decreases s.len(),
{
    if s.len() == 0 {
        0
    } else {
        (if s[0] == x {
            1nat
        } else {
            0nat
        }) + count_in(s.skip(1), x)
    }
}

/// How many positions of all groups of `gs` together hold `x`.
pub open spec fn count_nested(gs: Seq<Vec<usize>>, x: usize) -> nat
    decreases gs.len(),
{
    if gs.len() == 0 {
        0
    } else {
        count_in(gs[0]@, x) + count_nested(gs.skip(1), x)
    }
}

pub proof fn lemma_count_in_skip_step(s: Seq<usize>, i: int, x: usize)
    requires
        0 <= i < s.len(),
    ensures
        count_in(s.skip(i), x) == (if s[i] == x {
            1nat
        } else {
            0nat
        }) + count_in(s.skip(i + 1), x),
{
    assert(s.skip(i).len() > 0);
    assert(s.skip(i)[0] == s[i]);
    assert(s.skip(i).skip(1) =~= s.skip(i + 1));
}

pub proof fn lemma_count_in_push(s: Seq<usize>, y: usize, x: usize)
    ensures
        count_in(s.push(y), x) == count_in(s, x) + (if y == x {
            1nat
        } else {
            0nat
        }),
    decreases s.len(),
{
    if s.len() == 0 {
        assert(s.push(y).skip(1) =~= Seq::<usize>::empty());
        assert(count_in(Seq::<usize>::empty(), x) == 0);
        assert(s.push(y)[0] == y);
    } else {
        assert(s.push(y).skip(1) =~= s.skip(1).push(y));
        assert(s.push(y)[0] == s[0]);
        lemma_count_in_push(s.skip(1), y, x);
    }
}

pub proof fn lemma_count_in_update(s: Seq<usize>, i: int, y: usize, x: usize)
    requires
        0 <= i < s.len(),
    ensures
        count_in(s.update(i, y), x) + (if s[i] == x {
            1nat
        } else {
            0nat
        }) == count_in(s, x) + (if y == x {
            1nat
        } else {
            0nat
        }),
    decreases s.len(),
{
    if i == 0 {
        assert(s.update(0, y).skip(1) =~= s.skip(1));
    } else {
        assert(s.update(i, y).skip(1) =~= s.skip(1).update(i - 1, y));
        lemma_count_in_update(s.skip(1), i - 1, y, x);
    }
}

pub proof fn lemma_count_in_contains(s: Seq<usize>, x: usize)
    ensures
        count_in(s, x) > 0 <==> s.contains(x),
    decreases s.len(),
{
    if s.len() > 0 {
        lemma_count_in_contains(s.skip(1), x);
        if s.contains(x) {
            let i = choose|i: int| 0 <= i < s.len() && s[i] == x;
            if i > 0 {
                assert(s.skip(1)[i - 1] == x);
            }
        }
        if s.skip(1).contains(x) {
            let i = choose|i: int| 0 <= i < s.skip(1).len() && s.skip(1)[i] == x;
            assert(s[i + 1] == x);
        }
    }
}

pub proof fn lemma_count_nested_skip_step(gs: Seq<Vec<usize>>, i: int, x: usize)
    requires
        0 <= i < gs.len(),
    ensures
        count_nested(gs.skip(i), x) == count_in(gs[i]@, x) + count_nested(gs.skip(i + 1), x),
{
    assert(gs.skip(i).len() > 0);
    assert(gs.skip(i)[0] == gs[i]);
    assert(gs.skip(i).skip(1) =~= gs.skip(i + 1));
}

pub proof fn lemma_count_nested_push(gs: Seq<Vec<usize>>, g: Vec<usize>, x: usize)
    ensures
        count_nested(gs.push(g), x) == count_nested(gs, x) + count_in(g@, x),
    decreases gs.len(),
{
    if gs.len() == 0 {
        assert(gs.push(g).skip(1) =~= Seq::<Vec<usize>>::empty());
        assert(count_nested(Seq::<Vec<usize>>::empty(), x) == 0);
        assert(gs.push(g)[0] == g);
    } else {
        assert(gs.push(g).skip(1) =~= gs.skip(1).push(g));
        assert(gs.push(g)[0] == gs[0]);
        lemma_count_nested_push(gs.skip(1), g, x);
    }
}

pub proof fn lemma_count_nested_remove(gs: Seq<Vec<usize>>, i: int, x: usize)
    requires
        0 <= i < gs.len(),
    ensures
        count_nested(gs.remove(i), x) + count_in(gs[i]@, x) == count_nested(gs, x),
    decreases gs.len(),
{
    if i == 0 {
        assert(gs.remove(0) =~= gs.skip(1));
    } else {
        assert(gs.remove(i).skip(1) =~= gs.skip(1).remove(i - 1));
        lemma_count_nested_remove(gs.skip(1), i - 1, x);
    }
}

pub proof fn lemma_count_nested_insert(gs: Seq<Vec<usize>>, i: int, g: Vec<usize>, x: usize)
    requires
        0 <= i <= gs.len(),
    ensures
        count_nested(gs.insert(i, g), x) == count_nested(gs, x) + count_in(g@, x),
    decreases gs.len(),
{
    if i == 0 {
        assert(gs.insert(0, g).skip(1) =~= gs);
    } else {
        assert(gs.insert(i, g).skip(1) =~= gs.skip(1).insert(i - 1, g));
        lemma_count_nested_insert(gs.skip(1), i - 1, g, x);
    }
}

pub proof fn lemma_count_nested_member(gs: Seq<Vec<usize>>, i: int, j: int, x: usize)
    requires
        0 <= i < gs.len(),
        0 <= j < gs[i]@.len(),
        gs[i]@[j] == x,
    ensures
        count_nested(gs, x) > 0,
    decreases gs.len(),
{
    if i == 0 {
        lemma_count_in_member(gs[0]@, j, x);
    } else {
        lemma_count_nested_member(gs.skip(1), i - 1, j, x);
    }
}

pub proof fn lemma_count_in_two(s: Seq<usize>, i: int, j: int, x: usize)
    requires
        0 <= i < j < s.len(),
        s[i] == x,
        s[j] == x,
    ensures
        count_in(s, x) >= 2,
    decreases s.len(),
{
    if i == 0 {
        lemma_count_in_member(s.skip(1), j - 1, x);
    } else {
        lemma_count_in_two(s.skip(1), i - 1, j - 1, x);
    }
}

pub proof fn lemma_count_nested_two(gs: Seq<Vec<usize>>, a: int, i: int, b: int, j: int, x: usize)
    requires
        0 <= a < gs.len(),
        0 <= b < gs.len(),
        0 <= i < gs[a]@.len(),
        0 <= j < gs[b]@.len(),
        a != b || i != j,
        gs[a]@[i] == x,
        gs[b]@[j] == x,
    ensures
        count_nested(gs, x) >= 2,
    decreases gs.len(),
{
    if a == b {
        if a == 0 {
            if i < j {
                lemma_count_in_two(gs[0]@, i, j, x);
            } else {
                lemma_count_in_two(gs[0]@, j, i, x);
            }
        } else {
            lemma_count_nested_two(gs.skip(1), a - 1, i, b - 1, j, x);
        }
    } else if a == 0 {
        lemma_count_in_member(gs[0]@, i, x);
        lemma_count_nested_member(gs.skip(1), b - 1, j, x);
    } else if b == 0 {
        lemma_count_in_member(gs[0]@, j, x);
        lemma_count_nested_member(gs.skip(1), a - 1, i, x);
    } else {
        lemma_count_nested_two(gs.skip(1), a - 1, i, b - 1, j, x);
    }
}

pub proof fn lemma_push_contains<T>(s: Seq<T>, e: T)
    ensures
        forall|p: T| s.contains(p) ==> #[trigger] s.push(e).contains(p),
        s.push(e).contains(e),
{
    assert forall|p: T| s.contains(p) implies s.push(e).contains(p) by {
        let i = choose|i: int| 0 <= i < s.len() && s[i] == p;
        assert(s.push(e)[i] == p);
    }
    assert(s.push(e)[s.len() as int] == e);
}

/// A list of record indices filed under one `u64` key: a size bucket of the
/// preprocessor, or one equivalence group under a partial-hash value.
#[derive(Debug, Clone)]
pub struct KeyedIndices {
    pub key: u64,
    pub items: Vec<usize>,
}

/// How many positions of all keyed lists of `s` together hold `x`.
pub open spec fn count_keyed(s: Seq<KeyedIndices>, x: usize) -> nat
    decreases s.len(),
{
    if s.len() == 0 {
        0
    } else {
        count_in(s[0].items@, x) + count_keyed(s.skip(1), x)
    }
}

pub proof fn lemma_count_keyed_push(s: Seq<KeyedIndices>, k: KeyedIndices, x: usize)
    ensures
        count_keyed(s.push(k), x) == count_keyed(s, x) + count_in(k.items@, x),
    decreases s.len(),
{
    if s.len() == 0 {
        assert(s.push(k).skip(1) =~= Seq::<KeyedIndices>::empty());
        assert(count_keyed(Seq::<KeyedIndices>::empty(), x) == 0);
        assert(s.push(k)[0] == k);
    } else {
        assert(s.push(k).skip(1) =~= s.skip(1).push(k));
        assert(s.push(k)[0] == s[0]);
        lemma_count_keyed_push(s.skip(1), k, x);
    }
}

pub proof fn lemma_count_keyed_update(s: Seq<KeyedIndices>, i: int, k: KeyedIndices, x: usize)
    requires
        0 <= i < s.len(),
    ensures
        count_keyed(s.update(i, k), x) + count_in(s[i].items@, x) == count_keyed(s, x) + count_in(
            k.items@,
            x,
        ),
    decreases s.len(),
{
    if i == 0 {
        assert(s.update(0, k).skip(1) =~= s.skip(1));
    } else {
        assert(s.update(i, k).skip(1) =~= s.skip(1).update(i - 1, k));
        lemma_count_keyed_update(s.skip(1), i - 1, k, x);
    }
}

pub proof fn lemma_count_keyed_drop_last(s: Seq<KeyedIndices>, x: usize)
    requires
        s.len() > 0,
    ensures
        count_keyed(s, x) == count_keyed(s.drop_last(), x) + count_in(s.last().items@, x),
    decreases s.len(),
{
    if s.len() == 1 {
        assert(s.drop_last() =~= Seq::<KeyedIndices>::empty());
        assert(count_keyed(Seq::<KeyedIndices>::empty(), x) == 0);
        assert(s.skip(1) =~= Seq::<KeyedIndices>::empty());
        assert(s.last() == s[0]);
    } else {
        assert(s.drop_last().skip(1) =~= s.skip(1).drop_last());
        assert(s.drop_last()[0] == s[0]);
        assert(s.skip(1).last() == s.last());
        lemma_count_keyed_drop_last(s.skip(1), x);
    }
}

pub proof fn lemma_count_keyed_member(s: Seq<KeyedIndices>, b: int, i: int, x: usize)
    requires
        0 <= b < s.len(),
        0 <= i < s[b].items@.len(),
        s[b].items@[i] == x,
    ensures
        count_keyed(s, x) > 0,
    decreases s.len(),
{
    if b == 0 {
        lemma_count_in_member(s[0].items@, i, x);
    } else {
        lemma_count_keyed_member(s.skip(1), b - 1, i, x);
    }
}

pub proof fn lemma_count_keyed_contains(s: Seq<KeyedIndices>, x: usize)
    requires
        count_keyed(s, x) > 0,
    ensures
        exists|b: int, i: int|
            #![trigger s[b].items@[i]]
            0 <= b < s.len() && 0 <= i < s[b].items@.len() && s[b].items@[i] == x,
    decreases s.len(),
{
    if count_in(s[0].items@, x) > 0 {
        lemma_count_in_contains(s[0].items@, x);
        let i = choose|i: int| 0 <= i < s[0].items@.len() && s[0].items@[i] == x;
        assert(0 <= 0 < s.len() && 0 <= i < s[0].items@.len() && s[0].items@[i] == x);
    } else {
        lemma_count_keyed_contains(s.skip(1), x);
        let (b, i) = choose|b: int, i: int|
            0 <= b < s.skip(1).len() && 0 <= i < s.skip(1)[b].items@.len() && s.skip(
                1,
            )[b].items@[i] == x;
        assert(s[b + 1] == s.skip(1)[b]);
        assert(0 <= b + 1 < s.len() && 0 <= i < s[b + 1].items@.len() && s[b + 1].items@[i] == x);
    }
}

pub proof fn lemma_count_nested_contains(gs: Seq<Vec<usize>>, x: usize)
    requires
        count_nested(gs, x) > 0,
    ensures
        exists|b: int, i: int|
            #![trigger gs[b]@[i]]
            0 <= b < gs.len() && 0 <= i < gs[b]@.len() && gs[b]@[i] == x,
    decreases gs.len(),
{
    if count_in(gs[0]@, x) > 0 {
        lemma_count_in_contains(gs[0]@, x);
        let i = choose|i: int| 0 <= i < gs[0]@.len() && gs[0]@[i] == x;
        assert(0 <= 0 < gs.len() && 0 <= i < gs[0]@.len() && gs[0]@[i] == x);
    } else {
        lemma_count_nested_contains(gs.skip(1), x);
        let (b, i) = choose|b: int, i: int|
            0 <= b < gs.skip(1).len() && 0 <= i < gs.skip(1)[b]@.len() && gs.skip(1)[b]@[i] == x;
        assert(gs[b + 1] == gs.skip(1)[b]);
        assert(0 <= b + 1 < gs.len() && 0 <= i < gs[b + 1]@.len() && gs[b + 1]@[i] == x);
    }
}

pub proof fn lemma_count_in_member(s: Seq<usize>, j: int, x: usize)
    requires
        0 <= j < s.len(),
        s[j] == x,
    ensures
        count_in(s, x) > 0,
{
    lemma_count_in_contains(s, x);
}

} // verus!
