use vstd::prelude::*;
use crate::seqs::lemma_sum_usize_drop_first;
use crate::seqs::lemma_sum_usize_nonneg;
use crate::seqs::sum_usize;

verus! {

/// The least width of the gap at position `j` among `parts` gaps: the gap
/// before the first run and the gap after the last may be empty, while a gap
/// between two runs must hold at least one separating cell.
pub open spec fn gap_min(j: int, parts: int) -> int {
    if j == 0 || j == parts - 1 {
        0
    } else {
        1
    }
}

/// The last `parts - idx` widths of an assignment of `parts` gaps: they sum
/// to `rem` and each one respects the minimum of its absolute position.
pub open spec fn valid_gap_suffix(s: Seq<usize>, idx: int, parts: int, rem: int) -> bool {
    &&& s.len() == parts - idx
    &&& sum_usize(s) == rem
    &&& forall|j: int| 0 <= j < s.len() ==> #[trigger] s[j] >= gap_min(idx + j, parts)
}

/// A full assignment of `parts` gap widths summing to `total`, each at least
/// its mandatory minimum.
pub open spec fn valid_gap_tuple(g: Seq<usize>, parts: int, total: int) -> bool {
    valid_gap_suffix(g, 0, parts, total)
}

/// A valid suffix starts no higher than its sum: the rest is non-negative.
proof fn lemma_suffix_head_bounds(s: Seq<usize>, idx: int, parts: int, rem: int)
    requires
        valid_gap_suffix(s, idx, parts, rem),
        idx < parts,
    ensures
        gap_min(idx, parts) <= s[0] <= rem,
{
    lemma_sum_usize_drop_first(s);
    lemma_sum_usize_nonneg(s.drop_first());
    assert(s[0] >= gap_min(idx + 0, parts));
}

fn prepend(v: usize, t: &Vec<usize>) -> (r: Vec<usize>)
    ensures
        r@ == seq![v].add(t@),
{
    let mut r: Vec<usize> = Vec::new();
    r.push(v);
    let mut i: usize = 0;
    while i < t.len()
        invariant
            i <= t.len(),
            r@ == seq![v].add(t@.take(i as int)),
        decreases t.len() - i,
    {
        let ghost prev = r@;
        r.push(t[i]);
        proof {
            assert(prev.push(t@[i as int]) =~= seq![v].add(t@.take(i + 1)));
        }
        i += 1;
    }
    proof {
        assert(t@.take(t@.len() as int) =~= t@);
    }
    r
}

#[verifier::loop_isolation(false)]
fn gap_suffixes(idx: usize, parts: usize, rem: usize) -> (r: Vec<Vec<usize>>)
    requires
        idx < parts,
        idx + 1 < parts ==> rem < usize::MAX,
    ensures
        forall|k: int|
            0 <= k < r@.len() ==> valid_gap_suffix(
                #[trigger] r@[k]@,
                idx as int,
                parts as int,
                rem as int,
            ),
        forall|s: Seq<usize>|
            #[trigger] valid_gap_suffix(s, idx as int, parts as int, rem as int) ==> exists|k: int|
                0 <= k < r@.len() && r@[k]@ == s,
        forall|k1: int, k2: int| 0 <= k1 < k2 < r@.len() ==> r@[k1]@ != r@[k2]@,
    decreases parts - idx,
{
    if idx == parts - 1 {
        let mut single: Vec<usize> = Vec::new();
        single.push(rem);
        let mut r: Vec<Vec<usize>> = Vec::new();
        r.push(single);
        proof {
            assert(r@[0]@ =~= seq![rem]);
            assert(r@[0]@.drop_last() =~= Seq::<usize>::empty());
            assert(sum_usize(Seq::<usize>::empty()) == 0);
            assert(sum_usize(r@[0]@) == rem);
            assert forall|j: int| 0 <= j < r@[0]@.len() implies #[trigger] r@[0]@[j] >= gap_min(
                idx as int + j,
                parts as int,
            ) by {
                assert(r@[0]@[j] >= 0);
            }
            assert(valid_gap_suffix(r@[0]@, idx as int, parts as int, rem as int));
            assert forall|s: Seq<usize>|
                #[trigger] valid_gap_suffix(
                    s,
                    idx as int,
                    parts as int,
                    rem as int,
                ) implies exists|k: int| 0 <= k < r@.len() && r@[k]@ == s by {
                assert(s.drop_last() =~= Seq::<usize>::empty());
                assert(sum_usize(s) == s.last());
                assert(s =~= r@[0]@);
                assert(r@[0]@ == s);
            }
        }
        r
    } else {
        let lo: usize = if idx == 0 {
            0
        } else {
            1
        };
        let mut r: Vec<Vec<usize>> = Vec::new();
        if rem < lo {
            proof {
                assert forall|s: Seq<usize>|
                    #[trigger] valid_gap_suffix(
                        s,
                        idx as int,
                        parts as int,
                        rem as int,
                    ) implies exists|k: int| 0 <= k < r@.len() && r@[k]@ == s by {
                    lemma_suffix_head_bounds(s, idx as int, parts as int, rem as int);
                }
            }
            return r;
        }
        let mut v: usize = rem + 1;
        proof {
            assert forall|s: Seq<usize>|
                valid_gap_suffix(s, idx as int, parts as int, rem as int) && s[0]
                    >= v implies false by {
                lemma_suffix_head_bounds(s, idx as int, parts as int, rem as int);
            }
        }
        while v > lo
            invariant
                lo <= v <= rem + 1,
                forall|k: int|
                    0 <= k < r@.len() ==> valid_gap_suffix(
                        #[trigger] r@[k]@,
                        idx as int,
                        parts as int,
                        rem as int,
                    ),
                forall|k: int| 0 <= k < r@.len() ==> #[trigger] r@[k]@[0] >= v,
                forall|s: Seq<usize>|
                    #[trigger] valid_gap_suffix(s, idx as int, parts as int, rem as int) && s[0]
                        >= v ==> exists|k: int| 0 <= k < r@.len() && r@[k]@ == s,
                forall|k1: int, k2: int| 0 <= k1 < k2 < r@.len() ==> r@[k1]@ != r@[k2]@,
            decreases v,
        {
            let ghost r0 = r@;
            v = v - 1;
            proof {
                assert(forall|k: int|
                    0 <= k < r0.len() ==> valid_gap_suffix(
                        #[trigger] r0[k]@,
                        idx as int,
                        parts as int,
                        rem as int,
                    ));
                assert(forall|k: int| 0 <= k < r0.len() ==> #[trigger] r0[k]@[0] >= v + 1);
                assert(forall|s: Seq<usize>|
                    #[trigger] valid_gap_suffix(s, idx as int, parts as int, rem as int) && s[0]
                        >= v + 1 ==> exists|k: int| 0 <= k < r0.len() && r0[k]@ == s);
                assert(forall|k1: int, k2: int|
                    0 <= k1 < k2 < r0.len() ==> r0[k1]@ != r0[k2]@);
            }
            let sub = gap_suffixes(idx + 1, parts, rem - v);
            let mut j: usize = 0;
            while j < sub.len()
                invariant
                    j <= sub.len(),
                    r@.len() == r0.len() + j,
                    forall|k: int| 0 <= k < r0.len() ==> r@[k] == r0[k],
                    forall|k: int|
                        r0.len() <= k < r@.len() ==> #[trigger] r@[k]@ == seq![v].add(
                            sub@[k - r0.len()]@,
                        ),
                decreases sub.len() - j,
            {
                let nv = prepend(v, &sub[j]);
                r.push(nv);
                j += 1;
            }
            proof {
                // Every element is a valid suffix at `idx` and starts at `v` or above.
                assert forall|k: int|
                    0 <= k < r@.len() implies valid_gap_suffix(
                    #[trigger] r@[k]@,
                    idx as int,
                    parts as int,
                    rem as int,
                ) && r@[k]@[0] >= v by {
                    if k < r0.len() {
                        assert(r@[k] == r0[k]);
                        assert(valid_gap_suffix(r0[k]@, idx as int, parts as int, rem as int));
                        assert(r0[k]@[0] >= v + 1);
                    } else {
                        let t = sub@[k - r0.len()]@;
                        let s = r@[k]@;
                        assert(valid_gap_suffix(t, idx as int + 1, parts as int, rem - v));
                        assert(s == seq![v].add(t));
                        assert(s[0] == v);
                        assert(s.drop_first() =~= t);
                        lemma_sum_usize_drop_first(s);
                        assert forall|jj: int| 0 <= jj < s.len() implies #[trigger] s[jj]
                            >= gap_min(idx + jj, parts as int) by {
                            if jj > 0 {
                                assert(s[jj] == t[jj - 1]);
                                assert(t[jj - 1] >= gap_min(idx + 1 + (jj - 1), parts as int));
                            }
                        }
                    }
                }
                // Every valid suffix starting at `v` or above is in the result.
                assert forall|s: Seq<usize>|
                    #[trigger] valid_gap_suffix(s, idx as int, parts as int, rem as int) && s[0]
                        >= v implies exists|k: int| 0 <= k < r@.len() && r@[k]@ == s by {
                    lemma_suffix_head_bounds(s, idx as int, parts as int, rem as int);
                    if s[0] >= v + 1 {
                        let k = choose|k: int| 0 <= k < r0.len() && r0[k]@ == s;
                        assert(r@[k]@ == s);
                    } else {
                        assert(s[0] == v);
                        let t = s.drop_first();
                        lemma_sum_usize_drop_first(s);
                        assert forall|jj: int| 0 <= jj < t.len() implies #[trigger] t[jj]
                            >= gap_min(idx + 1 + jj, parts as int) by {
                            assert(s[jj + 1] >= gap_min(idx + (jj + 1), parts as int));
                        }
                        assert(valid_gap_suffix(t, idx as int + 1, parts as int, rem - v));
                        let kk = choose|kk: int| 0 <= kk < sub@.len() && sub@[kk]@ == t;
                        assert(r@[r0.len() + kk]@ == seq![v].add(t));
                        assert(seq![v].add(t) =~= s);
                    }
                }
                // No duplicates: new elements start lower than the old ones and
                // differ among themselves by their tails.
                assert forall|k1: int, k2: int| 0 <= k1 < k2 < r@.len() implies r@[k1]@
                    != r@[k2]@ by {
                    if k2 < r0.len() {
                        assert(r@[k1] == r0[k1]);
                        assert(r@[k2] == r0[k2]);
                        assert(r0[k1]@ != r0[k2]@);
                    } else if k1 < r0.len() {
                        assert(r@[k1] == r0[k1]);
                        assert(valid_gap_suffix(r0[k1]@, idx as int, parts as int, rem as int));
                        assert(r0[k1]@.len() > 0);
                        assert(r@[k1]@[0] >= v + 1);
                        assert(r@[k2]@ == seq![v].add(sub@[k2 - r0.len()]@));
                        assert(r@[k2]@[0] == v);
                    } else {
                        let t1 = sub@[k1 - r0.len()]@;
                        let t2 = sub@[k2 - r0.len()]@;
                        assert(t1 != t2);
                        assert(seq![v].add(t1).drop_first() =~= t1);
                        assert(seq![v].add(t2).drop_first() =~= t2);
                    }
                }
            }
        }
        r
    }
}

/// Every way to distribute `total` cells of free space into `parts` gaps
/// around the runs of one line: the first and last gap may be empty, each
/// internal gap keeps at least one separating cell. The result is exhaustive
/// and free of duplicates.
pub fn get_possible_gaps(total: usize, parts: usize) -> (r: Vec<Vec<usize>>)
    requires
        parts >= 1,
        parts >= 2 ==> total < usize::MAX,
    ensures
        forall|k: int|
            0 <= k < r@.len() ==> valid_gap_tuple(#[trigger] r@[k]@, parts as int, total as int),
        forall|s: Seq<usize>|
            #[trigger] valid_gap_tuple(s, parts as int, total as int) ==> exists|k: int|
                0 <= k < r@.len() && r@[k]@ == s,
        forall|k1: int, k2: int| 0 <= k1 < k2 < r@.len() ==> r@[k1]@ != r@[k2]@,
{
    gap_suffixes(0, parts, total)
}

} // verus!
