use vstd::prelude::*;

verus! {

/// Sum of a sequence of gap widths.
pub open spec fn sum_usize(s: Seq<usize>) -> int
    decreases s.len(),
{
    if s.len() == 0 {
        0
    } else {
        sum_usize(s.drop_last()) + s.last()
    }
}

/// Sum of a sequence of hints.
pub open spec fn sum_u8(s: Seq<u8>) -> int
    decreases s.len(),
{
    if s.len() == 0 {
        0
    } else {
        sum_u8(s.drop_last()) + s.last()
    }
}

pub proof fn lemma_sum_usize_nonneg(s: Seq<usize>)
    ensures
        sum_usize(s) >= 0,
    decreases s.len(),
{
    if s.len() > 0 {
        lemma_sum_usize_nonneg(s.drop_last());
    }
}

pub proof fn lemma_sum_usize_take_succ(s: Seq<usize>, j: int)
    requires
        0 <= j < s.len(),
    ensures
        sum_usize(s.take(j + 1)) == sum_usize(s.take(j)) + s[j],
{
    assert(s.take(j + 1).drop_last() =~= s.take(j));
    assert(s.take(j + 1).last() == s[j]);
}

pub proof fn lemma_sum_u8_take_succ(s: Seq<u8>, j: int)
    requires
        0 <= j < s.len(),
    ensures
        sum_u8(s.take(j + 1)) == sum_u8(s.take(j)) + s[j],
{
    assert(s.take(j + 1).drop_last() =~= s.take(j));
    assert(s.take(j + 1).last() == s[j]);
}

pub proof fn lemma_sum_u8_take_le(s: Seq<u8>, j: int)
    requires
        0 <= j <= s.len(),
    ensures
        sum_u8(s.take(j)) <= sum_u8(s),
    decreases s.len() - j,
{
    if j == s.len() {
        assert(s.take(j) =~= s);
    } else {
        lemma_sum_u8_take_succ(s, j);
        lemma_sum_u8_take_le(s, j + 1);
    }
}

pub proof fn lemma_sum_usize_drop_first(s: Seq<usize>)
    requires
        s.len() > 0,
    ensures
        sum_usize(s) == s[0] + sum_usize(s.drop_first()),
    decreases s.len(),
{
    if s.len() == 1 {
        assert(s.drop_last() =~= Seq::<usize>::empty());
        assert(s.drop_first() =~= Seq::<usize>::empty());
    } else {
        lemma_sum_usize_drop_first(s.drop_last());
        assert(s.drop_first().drop_last() =~= s.drop_last().drop_first());
        assert(s.drop_first().last() == s.last());
    }
}

/// When every hint is positive, the hints' sum is at least their count.
pub proof fn lemma_sum_u8_ge_len(s: Seq<u8>)
    requires
        forall|i: int| 0 <= i < s.len() ==> s[i] >= 1,
    ensures
        sum_u8(s) >= s.len(),
    decreases s.len(),
{
    if s.len() > 0 {
        lemma_sum_u8_ge_len(s.drop_last());
    }
}

} // verus!
