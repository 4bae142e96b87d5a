use vstd::pervasive::unreached;
use vstd::prelude::*;

use crate::cells::SudokuCell;
use crate::cells::SudokuValue;
use crate::cells::SudokuValues;
use crate::constraints::in_same_unit;
use crate::constraints::lemma_box_pos_props;
use crate::constraints::lemma_clear_preserves_valid;
use crate::constraints::lemma_col_pos_props;
use crate::constraints::lemma_conflict_persists;
use crate::constraints::lemma_place_preserves_valid;
use crate::constraints::lemma_pos_decompose;
use crate::constraints::lemma_row_pos_props;
use crate::constraints::lemma_valid_equiv;
use crate::constraints::valid_pairwise;
use crate::constraints::value_used;
use crate::grid::box_of;
use crate::grid::box_pos;
use crate::grid::box_slot;
use crate::grid::col_of;
use crate::grid::col_pos;
use crate::grid::extends;
use crate::grid::flat_ix;
use crate::grid::grid_filled;
use crate::grid::grid_solved;
use crate::grid::grid_valid;
use crate::grid::grid_wf;
use crate::grid::is_solution;
use crate::grid::pos_ok;
use crate::grid::row_of;
use crate::grid::row_pos;
use crate::grid::Sudoku;
use crate::measure::digits_wf;
use crate::measure::lemma_phi_bounds;
use crate::measure::lemma_phi_push;
use crate::measure::lemma_phi_retry;
use crate::measure::phi;
use crate::solved::SolvedSudoku;

verus! {

/// Mark, in the digit table `used` (indexed `1..=9`), every digit that
/// appears in the given line of cells.
fn mark_used(used: &mut Vec<bool>, cells: &Vec<SudokuCell>)
    requires
        old(used)@.len() == 10,
        cells@.len() == 9,
        forall|k: int| 0 <= k < 9 ==> ((#[trigger] cells@[k])@ matches Some(d) ==> 1 <= d <= 9),
    ensures
        final(used)@.len() == 10,
        forall|v: int|
            0 <= v < 10 ==> final(used)@[v] == (old(used)@[v] || exists|k: int|
                0 <= k < 9 && (#[trigger] cells@[k])@ == Some(v as u8)),
{
    let mut k: usize = 0;
    while k < 9
        invariant
            used@.len() == 10,
            cells@.len() == 9,
            forall|j: int| 0 <= j < 9 ==> ((#[trigger] cells@[j])@ matches Some(d) ==> 1 <= d <= 9),
            k <= 9,
            forall|v: int|
                0 <= v < 10 ==> used@[v] == (old(used)@[v] || exists|j: int|
                    0 <= j < k && (#[trigger] cells@[j])@ == Some(v as u8)),
        decreases 9 - k,
    {
        let c = cells[k];
        match c.0 {
            Some(v) => {
                used[v.0 as usize] = true;
                proof {
                    assert(c@ == Some(v.0));
                    assert forall|w: int| 0 <= w < 10 implies used@[w] == (old(used)@[w]
                        || exists|j: int|
                        0 <= j < k + 1 && (#[trigger] cells@[j])@ == Some(w as u8)) by {
                        if w == v.0 as int {
                            assert((cells@[k as int])@ == Some(w as u8));
                        }
                    }
                }
            },
            None => {
                proof {
                    assert(c@ is None);
                    assert forall|w: int| 0 <= w < 10 implies used@[w] == (old(used)@[w]
                        || exists|j: int|
                        0 <= j < k + 1 && (#[trigger] cells@[j])@ == Some(w as u8)) by {
                        assert((cells@[k as int])@ is None);
                    }
                }
            },
        }
        k = k + 1;
    }
}

/// The constraint evaluator: the set of digits already committed along the
/// row, column, and box of position `ix`, as a table indexed `1..=9`.
pub fn all_affecting(sudoku: &Sudoku, ix: [usize; 2]) -> (used: Vec<bool>)
    requires
        sudoku.wf(),
        pos_ok(ix),
    ensures
        used@.len() == 10,
        forall|v: int| 1 <= v <= 9 ==> used@[v] == value_used(sudoku@, flat_ix(ix), v as u8),
{
    let ghost g = sudoku@;
    let ghost i = flat_ix(ix);
    proof {
        lemma_pos_decompose(i);
    }
    let mut used: Vec<bool> = Vec::new();
    let mut t: usize = 0;
    while t < 10
        invariant
            used@.len() == t,
            t <= 10,
            forall|v: int| 0 <= v < t ==> used@[v] == false,
        decreases 10 - t,
    {
        used.push(false);
        t = t + 1;
    }
    let u_row = Sudoku::row_from_ix(ix);
    let r = sudoku.row(u_row);
    proof {
        assert forall|k: int| 0 <= k < 9 implies ((#[trigger] r@[k])@ matches Some(d) ==> 1 <= d
            <= 9) by {
            lemma_row_pos_props(u_row as int, k);
        }
    }
    mark_used(&mut used, &r);
    let u_col = Sudoku::column_from_ix(ix);
    let c = sudoku.column(u_col);
    proof {
        assert forall|k: int| 0 <= k < 9 implies ((#[trigger] c@[k])@ matches Some(d) ==> 1 <= d
            <= 9) by {
            lemma_col_pos_props(u_col as int, k);
        }
    }
    mark_used(&mut used, &c);
    let u_box = Sudoku::cell_from_ix(ix);
    let bx = sudoku.cell(u_box);
    proof {
        assert forall|k: int| 0 <= k < 9 implies ((#[trigger] bx@[k])@ matches Some(d) ==> 1 <= d
            <= 9) by {
            lemma_box_pos_props(u_box as int, k);
        }
    }
    mark_used(&mut used, &bx);
    proof {
        assert forall|v: int| 1 <= v <= 9 implies used@[v] == value_used(g, i, v as u8) by {
            let w = v as u8;
            if used@[v] {
                if exists|k: int| 0 <= k < 9 && (#[trigger] r@[k])@ == Some(w) {
                    let k = choose|k: int| 0 <= k < 9 && (#[trigger] r@[k])@ == Some(w);
                    lemma_row_pos_props(row_of(i), k);
                    let j = row_pos(row_of(i), k);
                    assert(0 <= j < 81 && in_same_unit(i, j) && g[j] == Some(w));
                } else if exists|k: int| 0 <= k < 9 && (#[trigger] c@[k])@ == Some(w) {
                    let k = choose|k: int| 0 <= k < 9 && (#[trigger] c@[k])@ == Some(w);
                    lemma_col_pos_props(col_of(i), k);
                    let j = col_pos(col_of(i), k);
                    assert(0 <= j < 81 && in_same_unit(i, j) && g[j] == Some(w));
                } else {
                    let k = choose|k: int| 0 <= k < 9 && (#[trigger] bx@[k])@ == Some(w);
                    lemma_box_pos_props(box_of(i), k);
                    let j = box_pos(box_of(i), k);
                    assert(0 <= j < 81 && in_same_unit(i, j) && g[j] == Some(w));
                }
                assert(value_used(g, i, w));
            }
            if value_used(g, i, w) {
                let j = choose|j: int| 0 <= j < 81 && in_same_unit(i, j) && #[trigger] g[j]
                    == Some(w);
                lemma_pos_decompose(j);
                if row_of(j) == row_of(i) {
                    assert((r@[col_of(j)])@ == g[row_pos(row_of(i), col_of(j))]);
                    assert((r@[col_of(j)])@ == Some(w));
                } else if col_of(j) == col_of(i) {
                    assert((c@[row_of(j)])@ == g[col_pos(col_of(i), row_of(j))]);
                    assert((c@[row_of(j)])@ == Some(w));
                } else {
                    assert((bx@[box_slot(j)])@ == g[box_pos(box_of(i), box_slot(j))]);
                    assert((bx@[box_slot(j)])@ == Some(w));
                }
                assert(used@[v]);
            }
        }
    }
    used
}

/// Advance the cursor to the first digit it has not yet passed that is not
/// marked in `used`; `None` when every remaining digit is marked.
fn first_allowed(values: &mut SudokuValues, used: &Vec<bool>) -> (r: Option<SudokuValue>)
    requires
        used@.len() == 10,
        old(values).0 <= 9,
    ensures
        r matches Some(v) ==> {
            &&& old(values).0 < v.0 <= 9
            &&& !used@[v.0 as int]
            &&& forall|w: int| old(values).0 < w < v.0 ==> used@[w]
            &&& final(values).0 == v.0
        },
        r is None ==> forall|w: int| old(values).0 < w <= 9 ==> used@[w],
{
    loop
        invariant
            used@.len() == 10,
            old(values).0 <= values.0 <= 9,
            forall|w: int| old(values).0 < w <= values.0 ==> used@[w],
        decreases 9 - values.0,
    {
        match values.next() {
            None => {
                return None;
            },
            Some(v) => {
                if !used[v.0 as usize] {
                    return Some(v);
                }
            },
        }
    }
}

// ---------------------------------------------------------------------------
// The search state and its invariant.
// ---------------------------------------------------------------------------

/// The flat offsets of a sequence of positions.
pub open spec fn flats(ps: Seq<[usize; 2]>) -> Seq<int> {
    ps.map_values(|p: [usize; 2]| flat_ix(p))
}

/// Offset `i` appears among the frontier positions.
pub open spec fn idx_in(ec: Seq<[usize; 2]>, i: int) -> bool {
    exists|a: int| 0 <= a < ec.len() && flat_ix(#[trigger] ec[a]) == i
}

/// Offset `i` appears among the trail positions.
pub open spec fn tix_in(st: Seq<([usize; 2], SudokuValues)>, i: int) -> bool {
    exists|b: int| 0 <= b < st.len() && flat_ix((#[trigger] st[b]).0) == i
}

/// The digits the trail has placed, one per entry: each cursor sits exactly
/// on the digit written into its cell.
pub open spec fn trail_digits(st: Seq<([usize; 2], SudokuValues)>) -> Seq<u8> {
    st.map_values(|e: ([usize; 2], SudokuValues)| e.1.0)
}

/// The invariant of the backtracking search.
///
/// `orig` is the grid as handed to the solver, `g` the current grid, `ec`
/// the frontier of positions awaiting a digit, `st` the trail of tentative
/// assignments, and `n0` the number of originally-empty positions.
pub open spec fn search_inv(
    orig: Seq<Option<u8>>,
    g: Seq<Option<u8>>,
    ec: Seq<[usize; 2]>,
    st: Seq<([usize; 2], SudokuValues)>,
    n0: int,
) -> bool {
    // the grids are well-formed and the search never touches a given cell
    &&& grid_wf(orig)
    &&& grid_wf(g)
    &&& extends(orig, g)
    // every placement respected the constraints, so consistency is preserved
    &&& (valid_pairwise(orig) ==> valid_pairwise(g))
    // every empty cell is on the frontier: an empty frontier means a full grid
    &&& forall|i: int| 0 <= i < 81 && #[trigger] g[i] is None ==> idx_in(ec, i)
    // frontier entries are originally-empty positions, currently empty
    &&& forall|a: int|
        0 <= a < ec.len() ==> pos_ok(#[trigger] ec[a]) && orig[flat_ix(ec[a])] is None
            && g[flat_ix(ec[a])] is None
    &&& flats(ec).no_duplicates()
    // trail entries are originally-empty positions, filled with their cursor
    // digit, no two at the same position
    &&& forall|b: int|
        0 <= b < st.len() ==> pos_ok((#[trigger] st[b]).0) && orig[flat_ix(st[b].0)] is None
            && g[flat_ix(st[b].0)] == Some(st[b].1.0) && 1 <= st[b].1.0 <= 9
    &&& forall|b1: int, b2: int|
        0 <= b1 < b2 < st.len() ==> flat_ix((#[trigger] st[b1]).0) != flat_ix(
            (#[trigger] st[b2]).0,
        )
    // every departure from the original grid is recorded on the trail, so an
    // empty trail means the grid is fully backtracked
    &&& forall|i: int| 0 <= i < 81 && #[trigger] g[i] != orig[i] ==> tix_in(st, i)
    // the frontier and the trail partition the originally-empty positions
    &&& st.len() + ec.len() == n0
    &&& 0 <= n0 <= 81
}

// ---------------------------------------------------------------------------
// Completeness of the search: no solution is ever skipped.
//
// The search walks the assignments of the empty positions in a fixed order:
// digits ascend at each trail entry, and a digit is passed over only when it
// conflicts with the grid or when the whole subtree below it has been
// explored. `none_skipped` captures the first half as an invariant: where a
// solution first departs from the trail, its digit is at least the digit the
// trail tried. `no_sol_agreeing` captures the second half while backtracking:
// the subtree below the current trail holds no solution. Together they show
// that a search that empties its trail has refuted every solution.
// ---------------------------------------------------------------------------

/// `s` holds, at each of the first `b` trail positions, exactly the digit the
/// trail placed there.
pub open spec fn agrees(s: Seq<Option<u8>>, st: Seq<([usize; 2], SudokuValues)>, b: int) -> bool {
    forall|b2: int| 0 <= b2 < b ==> s[flat_ix((#[trigger] st[b2]).0)] == Some(st[b2].1.0)
}

/// No solution lies before the trail in exploration order: wherever a
/// solution first departs from the trail, its digit there is at least the
/// digit the trail holds.
pub open spec fn none_skipped(orig: Seq<Option<u8>>, st: Seq<([usize; 2], SudokuValues)>) -> bool {
    forall|s: Seq<Option<u8>>, b: int|
        is_solution(orig, s) && 0 <= b < st.len() && #[trigger] agrees(s, st, b) ==> (s[flat_ix(
            st[b].0,
        )] matches Some(d) && d >= st[b].1.0)
}

/// No solution agrees with the whole trail: its subtree is refuted.
pub open spec fn no_sol_agreeing(
    orig: Seq<Option<u8>>,
    st: Seq<([usize; 2], SudokuValues)>,
) -> bool {
    forall|s: Seq<Option<u8>>| #[trigger] is_solution(orig, s) ==> !agrees(s, st, st.len() as int)
}

/// A solution that agrees with the whole trail extends the current grid,
/// because the grid is exactly the original plus the trail's placements.
proof fn lemma_solution_extends(
    orig: Seq<Option<u8>>,
    g: Seq<Option<u8>>,
    st: Seq<([usize; 2], SudokuValues)>,
    s: Seq<Option<u8>>,
)
    requires
        grid_wf(g),
        extends(orig, g),
        forall|b: int|
            0 <= b < st.len() ==> pos_ok((#[trigger] st[b]).0) && g[flat_ix(st[b].0)] == Some(
                st[b].1.0,
            ),
        forall|i: int| 0 <= i < 81 && #[trigger] g[i] != orig[i] ==> tix_in(st, i),
        is_solution(orig, s),
        agrees(s, st, st.len() as int),
    ensures
        extends(g, s),
{
    assert forall|j: int| 0 <= j < g.len() && #[trigger] g[j] is Some implies s[j] == g[j] by {
        if g[j] == orig[j] {
            assert(orig[j] is Some);
        } else {
            let b = choose|b: int| 0 <= b < st.len() && flat_ix((#[trigger] st[b]).0) == j;
            assert(s[flat_ix(st[b].0)] == Some(st[b].1.0));
        }
    }
}

/// A grid extending the current one with digit `d` at a cell whose units
/// already hold `d` carries a duplicate: it is not valid.
proof fn lemma_used_digit_breaks_validity(g: Seq<Option<u8>>, s: Seq<Option<u8>>, x: int, d: u8)
    requires
        grid_wf(g),
        extends(g, s),
        s.len() == 81,
        0 <= x < 81,
        g[x] is None,
        s[x] == Some(d),
        value_used(g, x, d),
    ensures
        !grid_valid(s),
{
    let j = choose|j: int| 0 <= j < 81 && in_same_unit(x, j) && #[trigger] g[j] == Some(d);
    assert(s[j] == g[j]);
    assert(j != x);
    lemma_valid_equiv(s);
    assert(!valid_pairwise(s)) by {
        assert(s[x] is Some && s[x] == s[j]);
    }
}

/// Pushing a fresh trail entry skips nothing when every digit below the
/// placed one conflicts with the current grid.
proof fn lemma_comp_extend(
    orig: Seq<Option<u8>>,
    g: Seq<Option<u8>>,
    st: Seq<([usize; 2], SudokuValues)>,
    st2: Seq<([usize; 2], SudokuValues)>,
)
    requires
        grid_wf(orig),
        grid_wf(g),
        extends(orig, g),
        forall|b: int|
            0 <= b < st.len() ==> pos_ok((#[trigger] st[b]).0) && g[flat_ix(st[b].0)] == Some(
                st[b].1.0,
            ),
        forall|i: int| 0 <= i < 81 && #[trigger] g[i] != orig[i] ==> tix_in(st, i),
        none_skipped(orig, st),
        st2.len() == st.len() + 1,
        forall|b: int| 0 <= b < st.len() ==> st2[b] == #[trigger] st[b],
        pos_ok(st2[st.len() as int].0),
        g[flat_ix(st2[st.len() as int].0)] is None,
        forall|w: u8|
            1 <= w < st2[st.len() as int].1.0 ==> value_used(
                g,
                flat_ix(st2[st.len() as int].0),
                w,
            ),
    ensures
        none_skipped(orig, st2),
{
    let k = st.len() as int;
    let p = flat_ix(st2[k].0);
    let c = st2[k].1.0;
    assert forall|s: Seq<Option<u8>>, b: int|
        is_solution(orig, s) && 0 <= b < st2.len() && #[trigger] agrees(s, st2, b) implies (s[
    flat_ix(st2[b].0)] matches Some(d) && d >= st2[b].1.0) by {
        if b < k {
            assert(agrees(s, st, b)) by {
                assert forall|b2: int|
                    0 <= b2 < b implies s[flat_ix((#[trigger] st[b2]).0)] == Some(st[b2].1.0) by {
                    assert(st2[b2] == st[b2]);
                    assert(s[flat_ix((st2[b2]).0)] == Some(st2[b2].1.0));
                }
            }
            assert(st2[b] == st[b]);
            assert(s[flat_ix(st[b].0)] matches Some(d) && d >= st[b].1.0);
        } else {
            assert(s[p] is Some);
            let d = s[p]->Some_0;
            assert(1 <= d <= 9);
            if d < c {
                assert(agrees(s, st, k)) by {
                    assert forall|b2: int|
                        0 <= b2 < k implies s[flat_ix((#[trigger] st[b2]).0)] == Some(
                        st[b2].1.0,
                    ) by {
                        assert(st2[b2] == st[b2]);
                        assert(s[flat_ix((st2[b2]).0)] == Some(st2[b2].1.0));
                    }
                }
                lemma_solution_extends(orig, g, st, s);
                assert(value_used(g, p, d));
                lemma_used_digit_breaks_validity(g, s, p, d);
            }
        }
    }
}

/// Resuming a popped entry with the next digit its cursor allows skips
/// nothing: smaller digits were already passed, the entry's own digit heads a
/// refuted subtree, and the digits in between conflict with the grid.
proof fn lemma_comp_retry(
    orig: Seq<Option<u8>>,
    g: Seq<Option<u8>>,
    stp: Seq<([usize; 2], SudokuValues)>,
    st_in: Seq<([usize; 2], SudokuValues)>,
    st2: Seq<([usize; 2], SudokuValues)>,
)
    requires
        grid_wf(orig),
        grid_wf(g),
        extends(orig, g),
        stp.len() + 1 == st_in.len(),
        forall|b: int| 0 <= b < stp.len() ==> st_in[b] == #[trigger] stp[b],
        st2.len() == st_in.len(),
        forall|b: int| 0 <= b < stp.len() ==> st2[b] == #[trigger] stp[b],
        forall|b: int|
            0 <= b < stp.len() ==> pos_ok((#[trigger] stp[b]).0) && g[flat_ix(stp[b].0)] == Some(
                stp[b].1.0,
            ),
        forall|i: int| 0 <= i < 81 && #[trigger] g[i] != orig[i] ==> tix_in(stp, i),
        none_skipped(orig, st_in),
        no_sol_agreeing(orig, st_in),
        st2[stp.len() as int].0 == st_in[stp.len() as int].0,
        pos_ok(st2[stp.len() as int].0),
        g[flat_ix(st2[stp.len() as int].0)] is None,
        st_in[stp.len() as int].1.0 < st2[stp.len() as int].1.0,
        forall|w: u8|
            st_in[stp.len() as int].1.0 < w < st2[stp.len() as int].1.0 ==> value_used(
                g,
                flat_ix(st2[stp.len() as int].0),
                w,
            ),
    ensures
        none_skipped(orig, st2),
{
    let k = stp.len() as int;
    let p = flat_ix(st2[k].0);
    let c0 = st_in[k].1.0;
    let c = st2[k].1.0;
    assert forall|s: Seq<Option<u8>>, b: int|
        is_solution(orig, s) && 0 <= b < st2.len() && #[trigger] agrees(s, st2, b) implies (s[
    flat_ix(st2[b].0)] matches Some(d) && d >= st2[b].1.0) by {
        if b < k {
            assert(agrees(s, st_in, b)) by {
                assert forall|b2: int|
                    0 <= b2 < b implies s[flat_ix((#[trigger] st_in[b2]).0)] == Some(
                    st_in[b2].1.0,
                ) by {
                    assert(st_in[b2] == stp[b2] && st2[b2] == stp[b2]);
                    assert(s[flat_ix((st2[b2]).0)] == Some(st2[b2].1.0));
                }
            }
            assert(st2[b] == stp[b] && st_in[b] == stp[b]);
            assert(s[flat_ix(st_in[b].0)] matches Some(d) && d >= st_in[b].1.0);
        } else {
            assert(s[p] is Some);
            let d = s[p]->Some_0;
            assert(1 <= d <= 9);
            assert(agrees(s, st_in, k)) by {
                assert forall|b2: int|
                    0 <= b2 < k implies s[flat_ix((#[trigger] st_in[b2]).0)] == Some(
                    st_in[b2].1.0,
                ) by {
                    assert(st_in[b2] == stp[b2] && st2[b2] == stp[b2]);
                    assert(s[flat_ix((st2[b2]).0)] == Some(st2[b2].1.0));
                }
            }
            if d < c0 {
                assert(s[flat_ix(st_in[k].0)] matches Some(dd) && dd >= st_in[k].1.0);
                assert(false);
            } else if d == c0 {
                assert(agrees(s, st_in, st_in.len() as int)) by {
                    assert forall|b2: int|
                        0 <= b2 < st_in.len() implies s[flat_ix((#[trigger] st_in[b2]).0)] == Some(
                        st_in[b2].1.0,
                    ) by {
                        if b2 < k {
                            assert(st_in[b2] == stp[b2] && st2[b2] == stp[b2]);
                            assert(s[flat_ix((st2[b2]).0)] == Some(st2[b2].1.0));
                        } else {
                            assert(s[flat_ix(st_in[k].0)] == Some(c0));
                        }
                    }
                }
                assert(false);
            } else if d < c {
                assert(agrees(s, stp, stp.len() as int)) by {
                    assert forall|b2: int|
                        0 <= b2 < k implies s[flat_ix((#[trigger] stp[b2]).0)] == Some(
                        stp[b2].1.0,
                    ) by {
                        assert(st2[b2] == stp[b2]);
                        assert(s[flat_ix((st2[b2]).0)] == Some(st2[b2].1.0));
                    }
                }
                lemma_solution_extends(orig, g, stp, s);
                assert(value_used(g, p, d));
                lemma_used_digit_breaks_validity(g, s, p, d);
            }
        }
    }
}

/// Exhausting a popped entry refutes the shortened trail: every digit at the
/// popped position is either already passed, refuted, or in conflict.
proof fn lemma_comp_exhaust(
    orig: Seq<Option<u8>>,
    g: Seq<Option<u8>>,
    stp: Seq<([usize; 2], SudokuValues)>,
    st_in: Seq<([usize; 2], SudokuValues)>,
)
    requires
        grid_wf(orig),
        grid_wf(g),
        extends(orig, g),
        stp.len() + 1 == st_in.len(),
        forall|b: int| 0 <= b < stp.len() ==> st_in[b] == #[trigger] stp[b],
        forall|b: int|
            0 <= b < stp.len() ==> pos_ok((#[trigger] stp[b]).0) && g[flat_ix(stp[b].0)] == Some(
                stp[b].1.0,
            ),
        forall|i: int| 0 <= i < 81 && #[trigger] g[i] != orig[i] ==> tix_in(stp, i),
        none_skipped(orig, st_in),
        no_sol_agreeing(orig, st_in),
        pos_ok(st_in[stp.len() as int].0),
        g[flat_ix(st_in[stp.len() as int].0)] is None,
        forall|w: u8|
            st_in[stp.len() as int].1.0 < w <= 9 ==> value_used(
                g,
                flat_ix(st_in[stp.len() as int].0),
                w,
            ),
    ensures
        no_sol_agreeing(orig, stp),
        none_skipped(orig, stp),
{
    let k = stp.len() as int;
    let p = flat_ix(st_in[k].0);
    let c0 = st_in[k].1.0;
    assert forall|s: Seq<Option<u8>>, b: int|
        is_solution(orig, s) && 0 <= b < stp.len() && #[trigger] agrees(s, stp, b) implies (s[
    flat_ix(stp[b].0)] matches Some(d) && d >= stp[b].1.0) by {
        assert(agrees(s, st_in, b)) by {
            assert forall|b2: int|
                0 <= b2 < b implies s[flat_ix((#[trigger] st_in[b2]).0)] == Some(st_in[b2].1.0) by {
                assert(st_in[b2] == stp[b2]);
                assert(s[flat_ix((stp[b2]).0)] == Some(stp[b2].1.0));
            }
        }
        assert(stp[b] == st_in[b]);
        assert(s[flat_ix(st_in[b].0)] matches Some(d) && d >= st_in[b].1.0);
    }
    assert forall|s: Seq<Option<u8>>| #[trigger] is_solution(orig, s) implies !agrees(
        s,
        stp,
        stp.len() as int,
    ) by {
        if agrees(s, stp, k) {
            assert(s[p] is Some);
            let d = s[p]->Some_0;
            assert(1 <= d <= 9);
            assert(agrees(s, st_in, k)) by {
                assert forall|b2: int|
                    0 <= b2 < k implies s[flat_ix((#[trigger] st_in[b2]).0)] == Some(
                    st_in[b2].1.0,
                ) by {
                    assert(st_in[b2] == stp[b2]);
                    assert(s[flat_ix((stp[b2]).0)] == Some(stp[b2].1.0));
                }
            }
            if d < c0 {
                assert(s[flat_ix(st_in[k].0)] matches Some(dd) && dd >= st_in[k].1.0);
                assert(false);
            } else if d == c0 {
                assert(agrees(s, st_in, st_in.len() as int)) by {
                    assert forall|b2: int|
                        0 <= b2 < st_in.len() implies s[flat_ix((#[trigger] st_in[b2]).0)] == Some(
                        st_in[b2].1.0,
                    ) by {
                        if b2 < k {
                            assert(st_in[b2] == stp[b2]);
                            assert(s[flat_ix((stp[b2]).0)] == Some(stp[b2].1.0));
                        } else {
                            assert(s[flat_ix(st_in[k].0)] == Some(c0));
                        }
                    }
                }
                assert(false);
            } else {
                lemma_solution_extends(orig, g, stp, s);
                assert(value_used(g, p, d));
                lemma_used_digit_breaks_validity(g, s, p, d);
            }
        }
    }
}

/// When some empty cell admits no digit at all against the current grid, no
/// solution agrees with the whole trail.
proof fn lemma_comp_enter(
    orig: Seq<Option<u8>>,
    g: Seq<Option<u8>>,
    st: Seq<([usize; 2], SudokuValues)>,
    x: int,
)
    requires
        grid_wf(orig),
        grid_wf(g),
        extends(orig, g),
        forall|b: int|
            0 <= b < st.len() ==> pos_ok((#[trigger] st[b]).0) && g[flat_ix(st[b].0)] == Some(
                st[b].1.0,
            ),
        forall|i: int| 0 <= i < 81 && #[trigger] g[i] != orig[i] ==> tix_in(st, i),
        0 <= x < 81,
        g[x] is None,
        forall|w: u8| 1 <= w <= 9 ==> value_used(g, x, w),
    ensures
        no_sol_agreeing(orig, st),
{
    assert forall|s: Seq<Option<u8>>| #[trigger] is_solution(orig, s) implies !agrees(
        s,
        st,
        st.len() as int,
    ) by {
        if agrees(s, st, st.len() as int) {
            lemma_solution_extends(orig, g, st, s);
            assert(s[x] is Some);
            let d = s[x]->Some_0;
            assert(1 <= d <= 9);
            assert(value_used(g, x, d));
            lemma_used_digit_breaks_validity(g, s, x, d);
        }
    }
}

/// The failure of a search that exhausted every assignment: no filling of
/// the empty cells satisfies the row/column/box constraints. Carries the
/// fully-backtracked grid for diagnostics.
#[derive(Debug)]
pub struct ExhaustedAllPossibilities(pub Sudoku);

/// A strategy for solving a [`Sudoku`].
pub trait Solver {
    /// The failure value of [`Solver::try_solve`].
    type Error;

    /// Solve a [`Sudoku`], yielding `None` where [`Solver::try_solve`]
    /// reports its error.
    fn solve(&self, sudoku: Sudoku) -> (r: Option<SolvedSudoku>)
        requires
            sudoku.wf(),
        ensures
            r matches Some(s) ==> is_solution(sudoku@, s@),
            grid_solved(sudoku@) ==> (r matches Some(s) && s@ == sudoku@),
            !grid_valid(sudoku@) ==> r is None,
            forall|s: Seq<Option<u8>>| #[trigger] is_solution(sudoku@, s) ==> r is Some,
    {
        match self.try_solve(sudoku) {
            Ok(s) => Some(s),
            Err(_) => None,
        }
    }

    /// Solve a [`Sudoku`].
    ///
    /// The search is sound and complete: it succeeds exactly when the puzzle
    /// has a solution, and success yields a completely and correctly filled
    /// grid that retains every given of the input. In particular a grid whose
    /// givens already break a constraint is never solved, and an
    /// already-solved grid is returned as is.
    fn try_solve(&self, sudoku: Sudoku) -> (r: Result<SolvedSudoku, Self::Error>)
        requires
            sudoku.wf(),
        ensures
            r matches Ok(s) ==> is_solution(sudoku@, s@),
            grid_solved(sudoku@) ==> (r matches Ok(s) && s@ == sudoku@),
            !grid_valid(sudoku@) ==> r is Err,
            forall|s: Seq<Option<u8>>| #[trigger] is_solution(sudoku@, s) ==> r is Ok,
    ;
}

/// The iterative, backtracking depth-first solver: it tries digits in
/// ascending order at each frontier position, keeping a trail of resumable
/// cursors so that backtracking never repeats a digit.
#[derive(Debug, Clone, Copy)]
pub struct IterativeDFS;

impl Solver for IterativeDFS {
    type Error = ExhaustedAllPossibilities;

    #[verifier::loop_isolation(false)]
    #[verifier::rlimit(100)]
    fn try_solve(&self, sudoku: Sudoku) -> (r: Result<
        SolvedSudoku,
        ExhaustedAllPossibilities,
    >)
        ensures
            r matches Err(e) ==> {
                &&& e.0.wf()
                &&& extends(sudoku@, e.0@)
                &&& !grid_solved(e.0@)
                &&& (grid_valid(sudoku@) ==> e.0@ == sudoku@)
            },
    {
        let ghost orig = sudoku@;
        let mut sudoku = sudoku;
        // Collect the positions of all originally-empty cells; they form the
        // initial frontier, in row-major order, so the last is tried first.
        let all = sudoku.indexed_values();
        let mut empty_cells: Vec<[usize; 2]> = Vec::new();
        let mut k: usize = 0;
        while k < 81
            invariant
                grid_wf(orig),
                sudoku@ == orig,
                all@.len() == 81,
                forall|i: int|
                    0 <= i < 81 ==> pos_ok((#[trigger] all@[i]).0) && flat_ix(all@[i].0) == i && (
                    all@[i].1)@ == orig[i],
                k <= 81,
                empty_cells@.len() <= k,
                forall|a: int|
                    0 <= a < empty_cells@.len() ==> pos_ok(#[trigger] empty_cells@[a])
                        && orig[flat_ix(empty_cells@[a])] is None && flat_ix(empty_cells@[a]) < k,
                forall|a: int, b: int|
                    0 <= a < b < empty_cells@.len() ==> flat_ix(#[trigger] empty_cells@[a])
                        < flat_ix(#[trigger] empty_cells@[b]),
                forall|i: int| 0 <= i < k && #[trigger] orig[i] is None ==> idx_in(empty_cells@, i),
            decreases 81 - k,
        {
            let (ix, c) = all[k];
            let ghost ec_prev = empty_cells@;
            if c.is_empty() {
                empty_cells.push(ix);
            }
            proof {
                assert forall|i: int| 0 <= i < k + 1 && #[trigger] orig[i] is None implies idx_in(
                    empty_cells@,
                    i,
                ) by {
                    if i < k {
                        let a = choose|a: int|
                            0 <= a < ec_prev.len() && flat_ix(#[trigger] ec_prev[a]) == i;
                        assert(flat_ix(empty_cells@[a]) == i);
                    } else {
                        assert(flat_ix(empty_cells@[empty_cells@.len() - 1]) == i);
                    }
                }
            }
            k = k + 1;
        }
        let ghost n0 = empty_cells@.len() as int;
        let mut state: Vec<([usize; 2], SudokuValues)> = Vec::new();
        proof {
            assert(flats(empty_cells@).no_duplicates()) by {
                assert forall|a: int, b: int|
                    0 <= a < flats(empty_cells@).len() && 0 <= b < flats(empty_cells@).len() && a
                        != b implies flats(empty_cells@)[a] != flats(empty_cells@)[b] by {
                    assert(flats(empty_cells@)[a] == flat_ix(empty_cells@[a]));
                    assert(flats(empty_cells@)[b] == flat_ix(empty_cells@[b]));
                }
            }
            assert(search_inv(orig, sudoku@, empty_cells@, state@, n0));
            assert(none_skipped(orig, state@));
        }
        loop
            invariant
                search_inv(orig, sudoku@, empty_cells@, state@, n0),
                none_skipped(orig, state@),
            decreases phi(trail_digits(state@), 81),
        {
            let ghost st_top = state@;
            let ghost g_top = sudoku@;
            let ghost ec_top = empty_cells@;
            proof {
                assert(digits_wf(trail_digits(st_top)));
                lemma_phi_bounds(trail_digits(st_top), 81);
            }
            match empty_cells.pop() {
                Some(ix) => {
                    proof {
                        assert(ec_top[ec_top.len() - 1] == ix);
                        assert(pos_ok(ix) && orig[flat_ix(ix)] is None && g_top[flat_ix(
                            ix,
                        )] is None);
                    }
                    let used = all_affecting(&sudoku, ix);
                    let mut cursor = SudokuValue::all_values();
                    match first_allowed(&mut cursor, &used) {
                        Some(val) => {
                            // A fresh digit fits here: place it and push a
                            // resumable cursor onto the trail.
                            let ghost i = flat_ix(ix);
                            proof {
                                assert(!value_used(g_top, i, val.0));
                                if valid_pairwise(orig) {
                                    lemma_place_preserves_valid(g_top, i, val.0);
                                }
                            }
                            sudoku.set_cell(ix, SudokuCell::filled(val));
                            state.push((ix, cursor));
                            proof {
                                let g2 = sudoku@;
                                let ec2 = empty_cells@;
                                let st2 = state@;
                                assert forall|i2: int|
                                    0 <= i2 < 81 && #[trigger] g2[i2] is None implies idx_in(
                                    ec2,
                                    i2,
                                ) by {
                                    let a = choose|a: int|
                                        0 <= a < ec_top.len() && flat_ix(#[trigger] ec_top[a])
                                            == i2;
                                    assert(flats(ec_top)[a] == flat_ix(ec_top[a]));
                                    assert(flats(ec_top)[ec_top.len() - 1] == i);
                                    assert(a < ec_top.len() - 1);
                                    assert(flat_ix(ec2[a]) == i2);
                                }
                                assert forall|a: int| 0 <= a < ec2.len() implies pos_ok(
                                    #[trigger] ec2[a],
                                ) && orig[flat_ix(ec2[a])] is None && g2[flat_ix(
                                    ec2[a],
                                )] is None by {
                                    assert(ec2[a] == ec_top[a]);
                                    assert(flats(ec_top)[a] == flat_ix(ec_top[a]));
                                    assert(flats(ec_top)[ec_top.len() - 1] == i);
                                }
                                assert(flats(ec2) =~= flats(ec_top).subrange(
                                    0,
                                    ec_top.len() - 1,
                                ));
                                assert forall|i2: int|
                                    0 <= i2 < 81 && #[trigger] g2[i2] != orig[i2] implies tix_in(
                                    st2,
                                    i2,
                                ) by {
                                    if i2 != i {
                                        let b = choose|b: int|
                                            0 <= b < st_top.len() && flat_ix(
                                                (#[trigger] st_top[b]).0,
                                            ) == i2;
                                        assert(flat_ix(st2[b].0) == i2);
                                    } else {
                                        assert(flat_ix(st2[st2.len() - 1].0) == i2);
                                    }
                                }
                                assert(search_inv(orig, g2, ec2, st2, n0));
                                assert(trail_digits(st2) =~= trail_digits(st_top).push(val.0));
                                lemma_phi_push(trail_digits(st_top), val.0, 81);
                                lemma_phi_bounds(trail_digits(st2), 81);
                                assert forall|w: u8| 1 <= w < val.0 implies value_used(
                                    g_top,
                                    i,
                                    w,
                                ) by {
                                    assert(used@[w as int]);
                                }
                                lemma_comp_extend(orig, g_top, st_top, st2);
                            }
                        },
                        None => {
                            // No digit fits: return the position to the
                            // frontier and backtrack along the trail.
                            empty_cells.push(ix);
                            proof {
                                let ec2 = empty_cells@;
                                assert forall|i2: int|
                                    0 <= i2 < 81 && #[trigger] g_top[i2] is None implies idx_in(
                                    ec2,
                                    i2,
                                ) by {
                                    let a = choose|a: int|
                                        0 <= a < ec_top.len() && flat_ix(#[trigger] ec_top[a])
                                            == i2;
                                    assert(flat_ix(ec2[a]) == i2);
                                }
                                assert(flats(ec2) =~= flats(ec_top));
                                assert(search_inv(orig, sudoku@, ec2, state@, n0));
                            }
                            let ghost st0 = state@;
                            proof {
                                assert(st0.subrange(0, st0.len() as int) =~= st0);
                                assert forall|w: u8| 1 <= w <= 9 implies value_used(
                                    g_top,
                                    flat_ix(ix),
                                    w,
                                ) by {
                                    assert(used@[w as int]);
                                }
                                lemma_comp_enter(orig, g_top, st0, flat_ix(ix));
                            }
                            let mut resumed = false;
                            while !resumed
                                invariant
                                    search_inv(orig, sudoku@, empty_cells@, state@, n0),
                                    none_skipped(orig, state@),
                                    !resumed ==> no_sol_agreeing(orig, state@),
                                    !resumed ==> empty_cells@.len() >= 1,
                                    state@.len() <= st0.len(),
                                    !resumed ==> state@ == st0.subrange(
                                        0,
                                        state@.len() as int,
                                    ),
                                    st0.len() <= 81,
                                    digits_wf(trail_digits(st0)),
                                    resumed ==> phi(trail_digits(state@), 81) < phi(
                                        trail_digits(st0),
                                        81,
                                    ),
                                decreases (if resumed {
                                    0int
                                } else {
                                    state@.len() as int + 1
                                }),
                            {
                                let ghost st_in = state@;
                                let ghost g_in = sudoku@;
                                let ghost ec_in = empty_cells@;
                                match state.pop() {
                                    Some((bix, bcur)) => {
                                        let ghost p = flat_ix(bix);
                                        let ghost ll = st_in.len() - 1;
                                        proof {
                                            assert(st_in[ll] == (bix, bcur));
                                            assert(pos_ok(bix) && orig[p] is None && g_in[p]
                                                == Some(bcur.0) && 1 <= bcur.0 <= 9);
                                            // no frontier entry sits at p: their
                                            // cells are empty, p is filled
                                            assert forall|a: int|
                                                0 <= a < ec_in.len() implies flat_ix(
                                                #[trigger] ec_in[a],
                                            ) != p by {}
                                            // no other trail entry sits at p
                                            assert forall|b: int|
                                                0 <= b < ll implies flat_ix((#[trigger] st_in[b]).0)
                                                    != p by {}
                                            if valid_pairwise(orig) {
                                                lemma_clear_preserves_valid(g_in, p);
                                            }
                                        }
                                        // Undo the tentative digit, then resume
                                        // its cursor on the refreshed constraints.
                                        sudoku.set_cell(bix, SudokuCell::empty());
                                        let ghost g_cl = sudoku@;
                                        let ghost stp = state@;
                                        proof {
                                            assert(extends(orig, g_cl));
                                            assert forall|b: int| 0 <= b < stp.len() implies pos_ok(
                                                (#[trigger] stp[b]).0,
                                            ) && g_cl[flat_ix(stp[b].0)] == Some(stp[b].1.0) by {
                                                assert(stp[b] == st_in[b]);
                                                assert(flat_ix(st_in[b].0) != p);
                                            }
                                            assert forall|i2: int|
                                                0 <= i2 < 81 && #[trigger] g_cl[i2]
                                                    != orig[i2] implies tix_in(stp, i2) by {
                                                assert(i2 != p);
                                                assert(g_in[i2] != orig[i2]);
                                                let b = choose|b: int|
                                                    0 <= b < st_in.len() && flat_ix(
                                                        (#[trigger] st_in[b]).0,
                                                    ) == i2;
                                                assert(b < ll);
                                                assert(flat_ix(stp[b].0) == i2);
                                            }
                                        }
                                        let used = all_affecting(&sudoku, bix);
                                        let mut values = bcur;
                                        match first_allowed(&mut values, &used) {
                                            Some(val) => {
                                                proof {
                                                    assert(!value_used(g_cl, p, val.0));
                                                    if valid_pairwise(orig) {
                                                        lemma_place_preserves_valid(
                                                            g_cl,
                                                            p,
                                                            val.0,
                                                        );
                                                    }
                                                }
                                                sudoku.set_cell(bix, SudokuCell::filled(val));
                                                state.push((bix, values));
                                                proof {
                                                    let g2 = sudoku@;
                                                    let st2 = state@;
                                                    assert forall|i2: int|
                                                        0 <= i2 < 81 && #[trigger] g2[i2]
                                                            is None implies idx_in(ec_in, i2) by {
                                                        assert(g_in[i2] is None);
                                                    }
                                                    assert forall|i2: int|
                                                        0 <= i2 < 81 && #[trigger] g2[i2]
                                                            != orig[i2] implies tix_in(st2, i2) by {
                                                        if i2 != p {
                                                            let b = choose|b: int|
                                                                0 <= b < st_in.len() && flat_ix(
                                                                    (#[trigger] st_in[b]).0,
                                                                ) == i2;
                                                            assert(b < ll);
                                                            assert(flat_ix(st2[b].0) == i2);
                                                        } else {
                                                            assert(flat_ix(st2[st2.len() - 1].0)
                                                                == i2);
                                                        }
                                                    }
                                                    assert(search_inv(orig, g2, ec_in, st2, n0));
                                                    // the retried digit is strictly
                                                    // larger: the measure shrinks
                                                    assert(st_in == st0.subrange(0, ll + 1));
                                                    assert(st0[ll] == (bix, bcur));
                                                    assert(trail_digits(st0)[ll] == bcur.0);
                                                    assert(trail_digits(st2) =~= trail_digits(
                                                        st0,
                                                    ).subrange(0, ll).push(val.0)) by {
                                                        assert(st2 =~= st0.subrange(0, ll).push(
                                                            (bix, values),
                                                        ));
                                                    }
                                                    lemma_phi_retry(
                                                        trail_digits(st0),
                                                        ll,
                                                        val.0,
                                                        81,
                                                    );
                                                    assert forall|w: u8|
                                                        bcur.0 < w < val.0 implies value_used(
                                                        g_cl,
                                                        p,
                                                        w,
                                                    ) by {
                                                        assert(used@[w as int]);
                                                    }
                                                    lemma_comp_retry(orig, g_cl, stp, st_in, st2);
                                                }
                                                resumed = true;
                                            },
                                            None => {
                                                // This cursor is exhausted too:
                                                // the position returns to the
                                                // frontier and the search digs
                                                // one trail entry deeper.
                                                empty_cells.push(bix);
                                                proof {
                                                    let g2 = sudoku@;
                                                    let ec2 = empty_cells@;
                                                    let st2 = state@;
                                                    assert forall|i2: int|
                                                        0 <= i2 < 81 && #[trigger] g2[i2]
                                                            is None implies idx_in(ec2, i2) by {
                                                        if i2 == p {
                                                            assert(flat_ix(ec2[ec2.len() - 1])
                                                                == i2);
                                                        } else {
                                                            assert(g_in[i2] is None);
                                                            let a = choose|a: int|
                                                                0 <= a < ec_in.len() && flat_ix(
                                                                    #[trigger] ec_in[a],
                                                                ) == i2;
                                                            assert(flat_ix(ec2[a]) == i2);
                                                        }
                                                    }
                                                    assert(flats(ec2) =~= flats(ec_in).push(p));
                                                    assert forall|a1: int, a2: int|
                                                        0 <= a1 < flats(ec2).len() && 0 <= a2
                                                            < flats(ec2).len() && a1
                                                            != a2 implies flats(ec2)[a1] != flats(
                                                            ec2,
                                                        )[a2] by {
                                                        assert(forall|a: int|
                                                            0 <= a < ec_in.len()
                                                                ==> flats(ec_in)[a] == flat_ix(
                                                                #[trigger] ec_in[a],
                                                            ));
                                                    }
                                                    assert forall|i2: int|
                                                        0 <= i2 < 81 && #[trigger] g2[i2]
                                                            != orig[i2] implies tix_in(st2, i2) by {
                                                        assert(i2 != p);
                                                        assert(g_in[i2] != orig[i2]);
                                                        let b = choose|b: int|
                                                            0 <= b < st_in.len() && flat_ix(
                                                                (#[trigger] st_in[b]).0,
                                                            ) == i2;
                                                        assert(b < ll);
                                                        assert(flat_ix(st2[b].0) == i2);
                                                    }
                                                    assert(search_inv(orig, g2, ec2, st2, n0));
                                                    assert(st2 =~= st0.subrange(
                                                        0,
                                                        st2.len() as int,
                                                    ));
                                                    assert forall|w: u8|
                                                        bcur.0 < w <= 9 implies value_used(
                                                        g_cl,
                                                        p,
                                                        w,
                                                    ) by {
                                                        assert(used@[w as int]);
                                                    }
                                                    lemma_comp_exhaust(orig, g_cl, stp, st_in);
                                                }
                                            },
                                        }
                                    },
                                    None => {
                                        // The trail is empty: every assignment
                                        // has been tried and undone; the grid
                                        // is back to its original state.
                                        proof {
                                            assert forall|i2: int|
                                                0 <= i2 < 81 implies sudoku@[i2] == orig[i2] by {
                                                if sudoku@[i2] != orig[i2] {
                                                    assert(tix_in(state@, i2));
                                                }
                                            }
                                            assert(sudoku@ =~= orig);
                                            let p0 = flat_ix(empty_cells@[0]);
                                            assert(sudoku@[p0] is None);
                                            assert(0 <= p0 < 81);
                                            assert(!grid_filled(sudoku@));
                                            if grid_solved(orig) {
                                                assert(orig[p0] is Some);
                                                assert(false);
                                            }
                                            // the empty trail refutes every
                                            // solution: nothing agrees with it,
                                            // yet everything agrees vacuously
                                            assert forall|s: Seq<Option<u8>>| !#[trigger] is_solution(
                                                orig,
                                                s,
                                            ) by {
                                                if is_solution(orig, s) {
                                                    assert(agrees(s, state@, state@.len() as int));
                                                }
                                            }
                                        }
                                        return Err(ExhaustedAllPossibilities(sudoku));
                                    },
                                }
                            }
                            proof {
                                assert(st0 == st_top);
                                lemma_phi_bounds(trail_digits(state@), 81);
                            }
                        },
                    }
                },
                None => {
                    // The frontier is empty: every position holds a digit.
                    proof {
                        assert forall|i2: int| 0 <= i2 < 81 implies #[trigger] sudoku@[i2]
                            is Some by {
                            if sudoku@[i2] is None {
                                assert(idx_in(empty_cells@, i2));
                            }
                        }
                        assert(grid_filled(sudoku@));
                    }
                    if sudoku.solved() {
                        proof {
                            if !grid_valid(orig) {
                                lemma_valid_equiv(orig);
                                lemma_conflict_persists(orig, sudoku@);
                                lemma_valid_equiv(sudoku@);
                                assert(false);
                            }
                            if grid_solved(orig) {
                                assert forall|i2: int|
                                    0 <= i2 < 81 implies sudoku@[i2] == orig[i2] by {
                                    assert(orig[i2] is Some);
                                }
                                assert(sudoku@ =~= orig);
                            }
                        }
                        match SolvedSudoku::try_from(sudoku) {
                            Ok(s) => {
                                return Ok(s);
                            },
                            Err(_) => {
                                proof {
                                    assert(false);
                                }
                                return unreached();
                            },
                        }
                    } else {
                        // Filled but not solved: only inconsistent givens can
                        // reach here, and they admit no solution.
                        proof {
                            if grid_valid(orig) {
                                lemma_valid_equiv(orig);
                                lemma_valid_equiv(sudoku@);
                                assert(grid_solved(sudoku@));
                                assert(false);
                            }
                            // inconsistent givens survive into any extension,
                            // so no solution exists at all
                            assert forall|s: Seq<Option<u8>>| !#[trigger] is_solution(
                                orig,
                                s,
                            ) by {
                                if is_solution(orig, s) {
                                    lemma_valid_equiv(orig);
                                    lemma_conflict_persists(orig, s);
                                    lemma_valid_equiv(s);
                                }
                            }
                        }
                        return Err(ExhaustedAllPossibilities(sudoku));
                    }
                },
            }
        }
    }
}

} // verus!
