//! Arena regions: half-open byte ranges `[start, start + size)` and
//! the facts the allocators need about collections of pairwise
//! disjoint regions.

use vstd::prelude::*;

verus! {

/// The ranges `[a.0, a.0 + a.1)` and `[b.0, b.0 + b.1)` share no byte.
pub open spec fn region_disjoint(a: (int, int), b: (int, int)) -> bool {
    a.0 + a.1 <= b.0 || b.0 + b.1 <= a.0
}

/// Every two distinct regions of `s` are disjoint.
pub open spec fn pairwise_disjoint(s: Seq<(int, int)>) -> bool {
    forall|i: int, j: int|
        #![trigger s[i], s[j]]
        0 <= i < s.len() && 0 <= j < s.len() && i != j ==> region_disjoint(s[i], s[j])
}

/// Every region of `s` lies inside the arena `[0, cap)` and occupies
/// at least one byte.
pub open spec fn regions_within(s: Seq<(int, int)>, cap: int) -> bool {
    forall|i: int| #![trigger s[i]] 0 <= i < s.len()
        ==> 0 <= s[i].0 && 0 < s[i].1 && s[i].0 + s[i].1 <= cap
}

/// Total number of bytes covered by the regions of `s`.
pub open spec fn sum_sizes(s: Seq<(int, int)>) -> int
    decreases s.len(),
{
    if s.len() == 0 {
        0
    } else {
        s[0].1 + sum_sizes(s.drop_first())
    }
}

/// Extending a prefix of `s` by one region adds that region's size.
pub proof fn lemma_sum_take_succ(s: Seq<(int, int)>, j: int)
    requires
        0 <= j < s.len(),
    ensures
        sum_sizes(s.take(j + 1)) == sum_sizes(s.take(j)) + s[j].1,
    decreases j,
{
    if j == 0 {
        assert(s.take(1) =~= seq![s[0]]);
        assert(s.take(1).drop_first() =~= Seq::<(int, int)>::empty());
        assert(s.take(0) =~= Seq::<(int, int)>::empty());
    } else {
        lemma_sum_take_succ(s.drop_first(), j - 1);
        assert(s.take(j + 1).drop_first() =~= s.drop_first().take(j));
        assert(s.take(j).drop_first() =~= s.drop_first().take(j - 1));
    }
}

/// With no negative sizes, a prefix never covers more than the whole.
pub proof fn lemma_sum_take_le(s: Seq<(int, int)>, j: int)
    requires
        0 <= j <= s.len(),
        forall|i: int| #![trigger s[i]] 0 <= i < s.len() ==> 0 <= s[i].1,
    ensures
        sum_sizes(s.take(j)) <= sum_sizes(s),
    decreases s.len() - j,
{
    if j == s.len() {
        assert(s.take(j) =~= s);
    } else {
        lemma_sum_take_succ(s, j);
        lemma_sum_take_le(s, j + 1);
    }
}

/// Removing the region at index `i` removes exactly its size from the
/// total.
pub proof fn lemma_sum_remove(s: Seq<(int, int)>, i: int)
    requires
        0 <= i < s.len(),
    ensures
        sum_sizes(s) == sum_sizes(s.remove(i)) + s[i].1,
    decreases i,
{
    if i == 0 {
        assert(s.remove(0) =~= s.drop_first());
    } else {
        lemma_sum_remove(s.drop_first(), i - 1);
        assert(s.remove(i).drop_first() =~= s.drop_first().remove(i - 1));
    }
}

/// A range contained in `outer` is disjoint from whatever `outer` is
/// disjoint from.
pub proof fn lemma_disjoint_sub(outer: (int, int), sub: (int, int), other: (int, int))
    requires
        region_disjoint(outer, other),
        outer.0 <= sub.0,
        sub.0 + sub.1 <= outer.0 + outer.1,
        0 <= sub.1,
    ensures
        region_disjoint(sub, other),
{
}

/// In a pairwise-disjoint collection, the region at index `i` is
/// disjoint from everything that remains once it is removed.
pub proof fn lemma_remove_rest_disjoint(s: Seq<(int, int)>, i: int)
    requires
        pairwise_disjoint(s),
        0 <= i < s.len(),
    ensures
        forall|k: int| #![trigger s.remove(i)[k]] 0 <= k < s.remove(i).len()
            ==> region_disjoint(s[i], s.remove(i)[k]),
{
    assert forall|k: int| 0 <= k < s.remove(i).len()
        implies region_disjoint(s[i], #[trigger] s.remove(i)[k]) by {
        let k0 = if k < i { k } else { k + 1 };
        assert(s.remove(i)[k] == s[k0]);
    }
}

/// An index of a region whose start is maximal.
proof fn max_start_index(s: Seq<(int, int)>) -> (m: int)
    requires
        s.len() > 0,
    ensures
        0 <= m < s.len(),
        forall|k: int| #![trigger s[k]] 0 <= k < s.len() ==> s[k].0 <= s[m].0,
    decreases s.len(),
{
    if s.len() == 1 {
        0
    } else {
        let m0 = max_start_index(s.drop_first());
        assert(forall|k: int| #![trigger s.drop_first()[k]] 0 <= k < s.drop_first().len()
            ==> s.drop_first()[k] == s[k + 1]);
        if s[0].0 >= s[m0 + 1].0 {
            assert forall|k: int| 0 <= k < s.len() implies #[trigger] s[k].0 <= s[0].0 by {
                if k > 0 {
                    assert(s[k] == s.drop_first()[k - 1]);
                }
            }
            0
        } else {
            assert forall|k: int| 0 <= k < s.len() implies #[trigger] s[k].0 <= s[m0 + 1].0 by {
                if k > 0 {
                    assert(s[k] == s.drop_first()[k - 1]);
                }
            }
            m0 + 1
        }
    }
}

/// Pairwise-disjoint nonempty regions inside `[0, cap)` cover at most
/// `cap` bytes in total.
pub proof fn lemma_disjoint_sum_bounded(s: Seq<(int, int)>, cap: int)
    requires
        0 <= cap,
        regions_within(s, cap),
        pairwise_disjoint(s),
    ensures
        sum_sizes(s) <= cap,
    decreases s.len(),
{
    if s.len() > 0 {
        let m = max_start_index(s);
        let rest = s.remove(m);
        assert(forall|k: int| #![trigger rest[k]] 0 <= k < rest.len()
            ==> rest[k] == (if k < m { s[k] } else { s[k + 1] }));
        assert forall|k: int| 0 <= k < rest.len() implies 0 <= #[trigger] rest[k].0
            && 0 < rest[k].1 && rest[k].0 + rest[k].1 <= s[m].0 by {
            let k0 = if k < m { k } else { k + 1 };
            assert(rest[k] == s[k0]);
            assert(region_disjoint(s[k0], s[m]));
            assert(s[k0].0 <= s[m].0);
        }
        assert(pairwise_disjoint(rest)) by {
            assert forall|i: int, j: int|
                0 <= i < rest.len() && 0 <= j < rest.len() && i != j
                implies region_disjoint(#[trigger] rest[i], #[trigger] rest[j]) by {
                let i0 = if i < m { i } else { i + 1 };
                let j0 = if j < m { j } else { j + 1 };
                assert(rest[i] == s[i0]);
                assert(rest[j] == s[j0]);
            }
        }
        lemma_disjoint_sum_bounded(rest, s[m].0);
        lemma_sum_remove(s, m);
    }
}

} // verus!
