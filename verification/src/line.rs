use vstd::prelude::*;
use crate::bits::bits_of;
use crate::bits::bv_and;
use crate::bits::bv_clone;
use crate::bits::bv_eq;
use crate::bits::bv_from_elem;
use crate::bits::bv_negate;
use crate::bits::bv_or;
use crate::bits::bv_set;
use crate::cell::Cell;
use crate::cell::SolveError;
use crate::gaps::get_possible_gaps;
use crate::gaps::valid_gap_tuple;
use crate::seqs::lemma_sum_u8_ge_len;
use crate::seqs::lemma_sum_u8_take_le;
use crate::seqs::lemma_sum_u8_take_succ;
use crate::seqs::lemma_sum_usize_take_succ;
use crate::seqs::sum_u8;
use crate::seqs::sum_usize;

verus! {

/// Every hint is a positive run length.
pub open spec fn hints_positive(hints: Seq<u8>) -> bool {
    forall|i: int| 0 <= i < hints.len() ==> #[trigger] hints[i] >= 1
}

/// The hints fit the line: the runs plus one mandatory separator between
/// each adjacent pair leave no overhang.
pub open spec fn line_fits(hints: Seq<u8>, len: int) -> bool {
    sum_u8(hints) + hints.len() <= len + 1
}

/// Where the run with index `j` begins when the gaps before the runs have
/// the given widths: all earlier gaps plus all earlier runs.
pub open spec fn run_start(hints: Seq<u8>, gaps: Seq<usize>, j: int) -> int {
    sum_usize(gaps.take(j + 1)) + sum_u8(hints.take(j))
}

/// Position `i` falls inside one of the runs this gap assignment places.
pub open spec fn covered(hints: Seq<u8>, gaps: Seq<usize>, i: int) -> bool {
    exists|j: int|
        0 <= j < hints.len() && #[trigger] run_start(hints, gaps, j) <= i < run_start(
            hints,
            gaps,
            j,
        ) + hints[j]
}

/// The line a gap assignment paints: one bit per cell, set inside the runs.
pub open spec fn placement(hints: Seq<u8>, gaps: Seq<usize>) -> Seq<bool> {
    Seq::new((sum_u8(hints) + sum_usize(gaps)) as nat, |i: int| covered(hints, gaps, i))
}

/// A gap assignment for this line: hint count plus one gaps whose widths sum
/// to the line's free space.
pub open spec fn line_valid_gaps(hints: Seq<u8>, len: int, g: Seq<usize>) -> bool {
    valid_gap_tuple(g, hints.len() as int + 1, len - sum_u8(hints))
}

/// The placement does not contradict any already-known cell.
pub open spec fn bool_compat(p: Seq<bool>, cells: Seq<Cell>) -> bool {
    &&& p.len() == cells.len()
    &&& forall|i: int|
        0 <= i < cells.len() ==> ((#[trigger] cells[i] == Cell::Block ==> p[i]) && (cells[i]
            == Cell::Void ==> !p[i]))
}

/// The gap assignment survives the filter: it is well-formed for the line
/// and consistent with the known cells.
pub open spec fn retained(hints: Seq<u8>, cells: Seq<Cell>, g: Seq<usize>) -> bool {
    &&& line_valid_gaps(hints, cells.len() as int, g)
    &&& bool_compat(placement(hints, g), cells)
}

/// Position `i` is filled in every surviving placement.
pub open spec fn forced_block(hints: Seq<u8>, cells: Seq<Cell>, i: int) -> bool {
    forall|g: Seq<usize>| #[trigger] retained(hints, cells, g) ==> placement(hints, g)[i]
}

/// Position `i` is empty in every surviving placement.
pub open spec fn forced_void(hints: Seq<u8>, cells: Seq<Cell>, i: int) -> bool {
    forall|g: Seq<usize>| #[trigger] retained(hints, cells, g) ==> !placement(hints, g)[i]
}

/// What one line-solving pass deduces: a cell unanimously empty across the
/// surviving placements becomes Void, one unanimously filled becomes Block,
/// the rest stay Unknown.
pub open spec fn line_solve_spec(hints: Seq<u8>, cells: Seq<Cell>) -> Seq<Cell> {
    Seq::new(
        cells.len(),
        |i: int|
            if forced_void(hints, cells, i) {
                Cell::Void
            } else if forced_block(hints, cells, i) {
                Cell::Block
            } else {
                Cell::Unknown
            },
    )
}

/// The bits describe a completed line that satisfies the hints.
pub open spec fn is_line_solution(hints: Seq<u8>, bits: Seq<bool>) -> bool {
    exists|g: Seq<usize>|
        #[trigger] line_valid_gaps(hints, bits.len() as int, g) && placement(hints, g) == bits
}

pub proof fn lemma_run_start_zero(hints: Seq<u8>, gaps: Seq<usize>)
    requires
        gaps.len() >= 1,
    ensures
        run_start(hints, gaps, 0) == gaps[0],
{
    assert(gaps.take(1).drop_last() =~= Seq::<usize>::empty());
    assert(hints.take(0) =~= Seq::<u8>::empty());
    assert(sum_usize(Seq::<usize>::empty()) == 0);
    assert(sum_u8(Seq::<u8>::empty()) == 0);
    assert(gaps.take(1).last() == gaps[0]);
}

pub proof fn lemma_run_start_succ(hints: Seq<u8>, gaps: Seq<usize>, j: int)
    requires
        gaps.len() == hints.len() + 1,
        0 <= j < hints.len(),
    ensures
        run_start(hints, gaps, j + 1) == run_start(hints, gaps, j) + hints[j] + gaps[j + 1],
{
    lemma_sum_usize_take_succ(gaps, j + 1);
    lemma_sum_u8_take_succ(hints, j);
}

pub proof fn lemma_run_start_le(hints: Seq<u8>, gaps: Seq<usize>, j1: int, j2: int)
    requires
        gaps.len() == hints.len() + 1,
        0 <= j1 <= j2 <= hints.len(),
    ensures
        run_start(hints, gaps, j1) <= run_start(hints, gaps, j2),
    decreases j2 - j1,
{
    if j1 < j2 {
        lemma_run_start_succ(hints, gaps, j1);
        lemma_run_start_le(hints, gaps, j1 + 1, j2);
    }
}

pub proof fn lemma_run_start_full(hints: Seq<u8>, gaps: Seq<usize>)
    requires
        gaps.len() == hints.len() + 1,
    ensures
        run_start(hints, gaps, hints.len() as int) == sum_u8(hints) + sum_usize(gaps),
{
    assert(gaps.take(hints.len() as int + 1) =~= gaps);
    assert(hints.take(hints.len() as int) =~= hints);
}

/// A run never reaches past the end of the line.
pub proof fn lemma_run_end_le(hints: Seq<u8>, gaps: Seq<usize>, j: int)
    requires
        gaps.len() == hints.len() + 1,
        0 <= j < hints.len(),
    ensures
        run_start(hints, gaps, j) + hints[j] <= sum_u8(hints) + sum_usize(gaps),
{
    lemma_run_start_succ(hints, gaps, j);
    lemma_run_start_le(hints, gaps, j + 1, hints.len() as int);
    lemma_run_start_full(hints, gaps);
}

/// Builds the two masks of a line's known cells: the filled ones and the
/// empty ones.
#[verifier::loop_isolation(false)]
pub(crate) fn cell_vector_to_bitvecs(cells: &Vec<Cell>) -> (r: (bit_vec::BitVec<u32>, bit_vec::BitVec<
    u32,
>))
    ensures
        bits_of(r.0) == Seq::new(cells@.len(), |i: int| cells@[i] == Cell::Block),
        bits_of(r.1) == Seq::new(cells@.len(), |i: int| cells@[i] == Cell::Void),
{
    let n = cells.len();
    let mut blocks = bv_from_elem(n, false);
    let mut voids = bv_from_elem(n, false);
    let mut i: usize = 0;
    while i < n
        invariant
            i <= n,
            bits_of(blocks).len() == n as nat,
            bits_of(voids).len() == n as nat,
            forall|p: int|
                0 <= p < n ==> bits_of(blocks)[p] == (p < i && cells@[p] == Cell::Block),
            forall|p: int| 0 <= p < n ==> bits_of(voids)[p] == (p < i && cells@[p] == Cell::Void),
        decreases n - i,
    {
        match cells[i] {
            Cell::Block => bv_set(&mut blocks, i, true),
            Cell::Void => bv_set(&mut voids, i, true),
            Cell::Unknown => (),
        }
        i = i + 1;
    }
    proof {
        assert(bits_of(blocks) =~= Seq::new(cells@.len(), |p: int| cells@[p] == Cell::Block));
        assert(bits_of(voids) =~= Seq::new(cells@.len(), |p: int| cells@[p] == Cell::Void));
    }
    (blocks, voids)
}

/// Paints the line one gap assignment describes: bit `i` is set exactly when
/// position `i` falls inside a run.
#[verifier::loop_isolation(false)]
pub(crate) fn get_bit_vec(size: usize, hints: &Vec<u8>, gaps: &Vec<usize>) -> (r: bit_vec::BitVec<u32>)
    requires
        gaps@.len() == hints@.len() + 1,
        sum_u8(hints@) + sum_usize(gaps@) == size as int,
    ensures
        bits_of(r) == placement(hints@, gaps@),
{
    let mut bv = bv_from_elem(size, false);
    let mut idx: usize = gaps[0];
    proof {
        lemma_run_start_zero(hints@, gaps@);
        assert forall|p: int| 0 <= p < size implies bits_of(bv)[p] == (covered(hints@, gaps@, p)
            && p < run_start(hints@, gaps@, 0)) by {
            if covered(hints@, gaps@, p) {
                let jw = choose|jw: int|
                    0 <= jw < hints@.len() && #[trigger] run_start(hints@, gaps@, jw) <= p
                        < run_start(hints@, gaps@, jw) + hints@[jw];
                lemma_run_start_le(hints@, gaps@, 0, jw);
            }
        }
    }
    let mut j: usize = 0;
    while j < hints.len()
        invariant
            j <= hints@.len(),
            idx as int == run_start(hints@, gaps@, j as int),
            bits_of(bv).len() == size as nat,
            forall|p: int|
                0 <= p < size ==> bits_of(bv)[p] == (covered(hints@, gaps@, p) && p < run_start(
                    hints@,
                    gaps@,
                    j as int,
                )),
        decreases hints@.len() - j,
    {
        let h = hints[j];
        proof {
            lemma_run_start_succ(hints@, gaps@, j as int);
            lemma_run_start_le(hints@, gaps@, j as int + 1, hints@.len() as int);
            lemma_run_start_full(hints@, gaps@);
        }
        let ghost rs = run_start(hints@, gaps@, j as int);
        let mut t: u8 = 0;
        while t < h
            invariant
                t <= h,
                idx as int == rs + t as int,
                rs + h <= size,
                bits_of(bv).len() == size as nat,
                forall|p: int|
                    0 <= p < size ==> bits_of(bv)[p] == ((covered(hints@, gaps@, p) && p < rs) || (
                    rs <= p < rs + t)),
            decreases h - t,
        {
            bv_set(&mut bv, idx, true);
            idx = idx + 1;
            t = t + 1;
        }
        idx = idx + gaps[j + 1];
        j = j + 1;
        proof {
            let jp = j as int - 1;
            assert(idx as int == run_start(hints@, gaps@, j as int));
            assert forall|p: int| 0 <= p < size implies bits_of(bv)[p] == (covered(
                hints@,
                gaps@,
                p,
            ) && p < run_start(hints@, gaps@, j as int)) by {
                if rs <= p < rs + h {
                    assert(covered(hints@, gaps@, p));
                }
                if covered(hints@, gaps@, p) && p < run_start(hints@, gaps@, j as int) {
                    let jw = choose|jw: int|
                        0 <= jw < hints@.len() && #[trigger] run_start(hints@, gaps@, jw) <= p
                            < run_start(hints@, gaps@, jw) + hints@[jw];
                    if jw < jp {
                        lemma_run_start_succ(hints@, gaps@, jw);
                        lemma_run_start_le(hints@, gaps@, jw + 1, jp);
                    } else if jw > jp {
                        lemma_run_start_le(hints@, gaps@, jp + 1, jw);
                    }
                }
            }
        }
    }
    proof {
        lemma_run_start_full(hints@, gaps@);
        assert forall|p: int| 0 <= p < size implies bits_of(bv)[p] == covered(
            hints@,
            gaps@,
            p,
        ) by {
            if covered(hints@, gaps@, p) {
                let jw = choose|jw: int|
                    0 <= jw < hints@.len() && #[trigger] run_start(hints@, gaps@, jw) <= p
                        < run_start(hints@, gaps@, jw) + hints@[jw];
                lemma_run_end_le(hints@, gaps@, jw);
            }
        }
        assert(bits_of(bv) =~= placement(hints@, gaps@));
    }
    bv
}

/// Reads the two unanimity masks back into cells: empty wins, then filled,
/// the rest stay undetermined.
#[verifier::loop_isolation(false)]
pub(crate) fn bitvecs_to_cell_vector(
    new_blocks: &bit_vec::BitVec<u32>,
    new_voids: &bit_vec::BitVec<u32>,
) -> (r: Vec<Cell>)
    requires
        bits_of(*new_blocks).len() == bits_of(*new_voids).len(),
    ensures
        r@.len() == bits_of(*new_blocks).len(),
        forall|i: int|
            0 <= i < r@.len() ==> r@[i] == (if bits_of(*new_voids)[i] {
                Cell::Void
            } else if bits_of(*new_blocks)[i] {
                Cell::Block
            } else {
                Cell::Unknown
            }),
{
    let n = crate::bits::bv_len(new_blocks);
    let mut r: Vec<Cell> = Vec::new();
    let mut i: usize = 0;
    while i < n
        invariant
            i <= n,
            r@.len() == i as nat,
            forall|p: int|
                0 <= p < i ==> r@[p] == (if bits_of(*new_voids)[p] {
                    Cell::Void
                } else if bits_of(*new_blocks)[p] {
                    Cell::Block
                } else {
                    Cell::Unknown
                }),
        decreases n - i,
    {
        let v = crate::bits::bv_get(new_voids, i);
        let b = crate::bits::bv_get(new_blocks, i);
        if v {
            r.push(Cell::Void);
        } else if b {
            r.push(Cell::Block);
        } else {
            r.push(Cell::Unknown);
        }
        i = i + 1;
    }
    r
}

/// One retained assignment, taken to imply its bit: the building block of
/// the running conjunction.
pub open spec fn retained_implies_bit(
    hints: Seq<u8>,
    cells: Seq<Cell>,
    g: Seq<usize>,
    i: int,
) -> bool {
    retained(hints, cells, g) ==> placement(hints, g)[i]
}

spec fn and_upto(hints: Seq<u8>, cells: Seq<Cell>, gs: Seq<Vec<usize>>, t: int, i: int) -> bool {
    forall|k: int| 0 <= k < t ==> retained_implies_bit(hints, cells, (#[trigger] gs[k])@, i)
}

spec fn or_upto(hints: Seq<u8>, cells: Seq<Cell>, gs: Seq<Vec<usize>>, t: int, i: int) -> bool {
    exists|k: int|
        0 <= k < t && retained(hints, cells, (#[trigger] gs[k])@) && placement(hints, gs[k]@)[i]
}

/// Solves one line: enumerates every placement of the hinted runs, keeps the
/// ones consistent with the known cells, and forces each cell on which all
/// surviving placements agree. Fails exactly when the hints' runs alone hold
/// more cells than the line.
#[verifier::loop_isolation(false)]
pub fn solve_vector(hints: &Vec<u8>, cells: &Vec<Cell>) -> (r: Result<Vec<Cell>, SolveError>)
    requires
        hints_positive(hints@),
        cells@.len() < usize::MAX,
    ensures
        match r {
            Ok(out) => sum_u8(hints@) <= cells@.len() && out@ == line_solve_spec(hints@, cells@),
            Err(e) => e == SolveError::InconsistentPuzzle && sum_u8(hints@) > cells@.len(),
        },
{
    let n = cells.len();
    let mut s: usize = 0;
    let mut i: usize = 0;
    while i < hints.len()
        invariant
            i <= hints@.len(),
            s as int == sum_u8(hints@.take(i as int)),
            s <= n,
        decreases hints@.len() - i,
    {
        let h = hints[i] as usize;
        proof {
            lemma_sum_u8_take_succ(hints@, i as int);
            lemma_sum_u8_take_le(hints@, i as int + 1);
        }
        if h > n - s {
            return Err(SolveError::InconsistentPuzzle);
        }
        s = s + h;
        i = i + 1;
    }
    proof {
        assert(hints@.take(hints@.len() as int) =~= hints@);
        lemma_sum_u8_ge_len(hints@);
    }
    let total = n - s;
    let parts = hints.len() + 1;
    let tuples = get_possible_gaps(total, parts);
    let masks = cell_vector_to_bitvecs(cells);
    let kb = masks.0;
    let kv = masks.1;
    let mut and_acc = bv_from_elem(n, true);
    let mut or_acc = bv_from_elem(n, false);
    let mut t: usize = 0;
    while t < tuples.len()
        invariant
            t <= tuples@.len(),
            bits_of(and_acc).len() == n as nat,
            bits_of(or_acc).len() == n as nat,
            forall|p: int|
                0 <= p < n ==> bits_of(and_acc)[p] == and_upto(
                    hints@,
                    cells@,
                    tuples@,
                    t as int,
                    p,
                ),
            forall|p: int|
                0 <= p < n ==> bits_of(or_acc)[p] == or_upto(hints@, cells@, tuples@, t as int, p),
        decreases tuples@.len() - t,
    {
        let g = &tuples[t];
        proof {
            assert(valid_gap_tuple(g@, parts as int, total as int));
            assert(placement(hints@, g@).len() == n as nat);
        }
        let cand = get_bit_vec(n, hints, g);
        let mut tmp = bv_clone(&cand);
        bv_and(&mut tmp, &kb);
        let ok_b = bv_eq(&tmp, &kb);
        let mut tmp2 = bv_clone(&cand);
        bv_negate(&mut tmp2);
        bv_and(&mut tmp2, &kv);
        let ok_v = bv_eq(&tmp2, &kv);
        let ghost and0 = bits_of(and_acc);
        let ghost or0 = bits_of(or_acc);
        if ok_b && ok_v {
            proof {
                assert forall|p: int| 0 <= p < n implies (cells@[p] == Cell::Block ==> placement(
                    hints@,
                    g@,
                )[p]) && (cells@[p] == Cell::Void ==> !placement(hints@, g@)[p]) by {
                    assert(bits_of(tmp)[p] == bits_of(kb)[p]);
                    assert(bits_of(tmp2)[p] == bits_of(kv)[p]);
                }
                assert(bool_compat(placement(hints@, g@), cells@));
                assert(retained(hints@, cells@, g@));
            }
            bv_and(&mut and_acc, &cand);
            bv_or(&mut or_acc, &cand);
        } else {
            proof {
                if bool_compat(placement(hints@, g@), cells@) {
                    assert(bits_of(tmp) =~= bits_of(kb));
                    assert(bits_of(tmp2) =~= bits_of(kv));
                    assert(false);
                }
                assert(!retained(hints@, cells@, g@));
            }
        }
        t = t + 1;
        proof {
            assert forall|p: int| 0 <= p < n implies bits_of(and_acc)[p] == and_upto(
                hints@,
                cells@,
                tuples@,
                t as int,
                p,
            ) && bits_of(or_acc)[p] == or_upto(hints@, cells@, tuples@, t as int, p) by {
                let tp = t as int - 1;
                assert(and0[p] == and_upto(hints@, cells@, tuples@, tp, p));
                assert(or0[p] == or_upto(hints@, cells@, tuples@, tp, p));
                if bits_of(and_acc)[p] {
                    assert forall|k: int|
                        0 <= k < t implies retained_implies_bit(
                        hints@,
                        cells@,
                        (#[trigger] tuples@[k])@,
                        p,
                    ) by {
                        if k < tp {
                            assert(and_upto(hints@, cells@, tuples@, tp, p));
                        }
                    }
                } else {
                    if and_upto(hints@, cells@, tuples@, t as int, p) {
                        assert(retained_implies_bit(hints@, cells@, tuples@[tp]@, p));
                        assert(and_upto(hints@, cells@, tuples@, tp, p));
                    }
                }
                if bits_of(or_acc)[p] {
                    if or0[p] {
                        let k = choose|k: int|
                            0 <= k < tp && retained(hints@, cells@, (#[trigger] tuples@[k])@)
                                && placement(hints@, tuples@[k]@)[p];
                        assert(or_upto(hints@, cells@, tuples@, t as int, p));
                    } else {
                        assert(retained(hints@, cells@, tuples@[tp]@) && placement(
                            hints@,
                            tuples@[tp]@,
                        )[p]);
                    }
                } else {
                    if or_upto(hints@, cells@, tuples@, t as int, p) {
                        let k = choose|k: int|
                            0 <= k < t && retained(hints@, cells@, (#[trigger] tuples@[k])@)
                                && placement(hints@, tuples@[k]@)[p];
                        if k < tp {
                            assert(or_upto(hints@, cells@, tuples@, tp, p));
                        }
                    }
                }
            }
        }
    }
    proof {
        assert forall|p: int| 0 <= p < n implies bits_of(and_acc)[p] == forced_block(
            hints@,
            cells@,
            p,
        ) by {
            if bits_of(and_acc)[p] {
                assert forall|g: Seq<usize>|
                    #[trigger] retained(hints@, cells@, g) implies placement(hints@, g)[p] by {
                    assert(valid_gap_tuple(g, parts as int, total as int));
                    let k = choose|k: int| 0 <= k < tuples@.len() && tuples@[k]@ == g;
                    assert(retained_implies_bit(hints@, cells@, tuples@[k]@, p));
                }
            } else {
                let k = choose|k: int|
                    0 <= k < tuples@.len() && !retained_implies_bit(
                        hints@,
                        cells@,
                        (#[trigger] tuples@[k])@,
                        p,
                    );
                assert(retained(hints@, cells@, tuples@[k]@));
                assert(!placement(hints@, tuples@[k]@)[p]);
            }
        }
        assert forall|p: int| 0 <= p < n implies !bits_of(or_acc)[p] == forced_void(
            hints@,
            cells@,
            p,
        ) by {
            if bits_of(or_acc)[p] {
                let k = choose|k: int|
                    0 <= k < tuples@.len() && retained(hints@, cells@, (#[trigger] tuples@[k])@)
                        && placement(hints@, tuples@[k]@)[p];
                assert(!forced_void(hints@, cells@, p));
            } else {
                assert forall|g: Seq<usize>|
                    #[trigger] retained(hints@, cells@, g) implies !placement(hints@, g)[p] by {
                    assert(valid_gap_tuple(g, parts as int, total as int));
                    let k = choose|k: int| 0 <= k < tuples@.len() && tuples@[k]@ == g;
                    if placement(hints@, g)[p] {
                        assert(or_upto(hints@, cells@, tuples@, tuples@.len() as int, p));
                    }
                }
            }
        }
    }
    bv_negate(&mut or_acc);
    let out = bitvecs_to_cell_vector(&and_acc, &or_acc);
    proof {
        assert(out@ =~= line_solve_spec(hints@, cells@));
    }
    Ok(out)
}

/// A solving pass never downgrades a known cell back to Unknown, whatever
/// the line holds: a Void cell stays Void, and a Block cell stays decided.
pub proof fn lemma_line_solve_no_downgrade(hints: Seq<u8>, cells: Seq<Cell>)
    ensures
        forall|i: int|
            0 <= i < cells.len() && cells[i] == Cell::Void ==> line_solve_spec(hints, cells)[i]
                == Cell::Void,
        forall|i: int|
            0 <= i < cells.len() && cells[i] == Cell::Block ==> line_solve_spec(hints, cells)[i]
                != Cell::Unknown,
{
    assert forall|i: int| 0 <= i < cells.len() && cells[i] != Cell::Unknown implies (cells[i]
        == Cell::Void ==> line_solve_spec(hints, cells)[i] == Cell::Void) && (cells[i]
        == Cell::Block ==> line_solve_spec(hints, cells)[i] != Cell::Unknown) by {
        if cells[i] == Cell::Void {
            assert forall|g: Seq<usize>| #[trigger] retained(hints, cells, g) implies !placement(
                hints,
                g,
            )[i] by {
                assert(bool_compat(placement(hints, g), cells));
            }
            assert(forced_void(hints, cells, i));
        }
        if cells[i] == Cell::Block {
            assert forall|g: Seq<usize>| #[trigger] retained(hints, cells, g) implies placement(
                hints,
                g,
            )[i] by {
                assert(bool_compat(placement(hints, g), cells));
            }
            assert(forced_block(hints, cells, i));
        }
    }
}

/// Solving a line twice on the same hints and cells yields the same output
/// both times: what `solve_vector` returns is a function of its inputs alone.
pub proof fn lemma_line_solver_deterministic(
    hints: Seq<u8>,
    cells: Seq<Cell>,
    r1: Seq<Cell>,
    r2: Seq<Cell>,
)
    requires
        r1 == line_solve_spec(hints, cells),
        r2 == line_solve_spec(hints, cells),
    ensures
        r1 == r2,
{
}

/// Once a cell of a line is known, no solving pass changes it, and the pass
/// never contradicts a completed line that agrees with the known cells: the
/// deduction is monotone wherever the line still has a consistent placement.
pub proof fn lemma_line_solve_preserves_known(hints: Seq<u8>, cells: Seq<Cell>, p: Seq<bool>)
    requires
        p.len() == cells.len(),
        is_line_solution(hints, p),
        bool_compat(p, cells),
    ensures
        bool_compat(p, line_solve_spec(hints, cells)),
        forall|i: int|
            0 <= i < cells.len() && cells[i] != Cell::Unknown ==> line_solve_spec(hints, cells)[i]
                == cells[i],
{
    let g = choose|g: Seq<usize>|
        #[trigger] line_valid_gaps(hints, p.len() as int, g) && placement(hints, g) == p;
    assert(retained(hints, cells, g));
    let out = line_solve_spec(hints, cells);
    assert forall|i: int| 0 <= i < cells.len() implies ((out[i] == Cell::Block ==> p[i]) && (out[i]
        == Cell::Void ==> !p[i]) && (cells[i] != Cell::Unknown ==> out[i] == cells[i])) by {
        if forced_block(hints, cells, i) {
            assert(placement(hints, g)[i]);
        }
        if forced_void(hints, cells, i) {
            assert(!placement(hints, g)[i]);
        }
        if cells[i] == Cell::Block {
            assert(p[i]);
            assert forall|g2: Seq<usize>| #[trigger] retained(hints, cells, g2) implies placement(
                hints,
                g2,
            )[i] by {
                assert(bool_compat(placement(hints, g2), cells));
            }
            assert(forced_block(hints, cells, i));
            assert(!forced_void(hints, cells, i));
        }
        if cells[i] == Cell::Void {
            assert(!p[i]);
            assert forall|g2: Seq<usize>| #[trigger] retained(hints, cells, g2) implies !placement(
                hints,
                g2,
            )[i] by {
                assert(bool_compat(placement(hints, g2), cells));
            }
            assert(forced_void(hints, cells, i));
        }
    }
}

} // verus!
