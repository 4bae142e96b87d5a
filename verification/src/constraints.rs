use vstd::arithmetic::div_mod::lemma_fundamental_div_mod;
use vstd::arithmetic::div_mod::lemma_fundamental_div_mod_converse;
use vstd::arithmetic::div_mod::lemma_mod_pos_bound;
use vstd::prelude::*;

use crate::grid::box_of;
use crate::grid::box_pos;
use crate::grid::box_seq;
use crate::grid::box_slot;
use crate::grid::col_of;
use crate::grid::col_pos;
use crate::grid::col_seq;
use crate::grid::extends;
use crate::grid::grid_valid;
use crate::grid::no_dup;
use crate::grid::row_of;
use crate::grid::row_pos;
use crate::grid::row_seq;

verus! {

// ---------------------------------------------------------------------------
// A pairwise reformulation of grid validity. The per-line form (`grid_valid`)
// matches how validity is checked; the pairwise form is what one placement or
// retraction touches, so the solver's invariants are stated over it.
// ---------------------------------------------------------------------------

/// The two flat offsets share a row, a column, or a box (true when `i == j`).
pub open spec fn in_same_unit(i: int, j: int) -> bool {
    row_of(i) == row_of(j) || col_of(i) == col_of(j) || box_of(i) == box_of(j)
}

/// No two distinct positions of a common unit hold the same digit.
pub open spec fn valid_pairwise(g: Seq<Option<u8>>) -> bool {
    forall|i: int, j: int|
        0 <= i < 81 && 0 <= j < 81 && i != j && in_same_unit(i, j) ==> !(#[trigger] g[i] is Some
            && g[i] == #[trigger] g[j])
}

/// Digit `v` appears somewhere in the row, column, or box of offset `i`.
pub open spec fn value_used(g: Seq<Option<u8>>, i: int, v: u8) -> bool {
    exists|j: int| 0 <= j < 81 && in_same_unit(i, j) && #[trigger] g[j] == Some(v)
}

/// Each in-range flat offset is reached by its row, column, and box
/// traversals, at the slots named by `col_of`, `row_of`, and `box_slot`.
pub proof fn lemma_pos_decompose(i: int)
    requires
        0 <= i < 81,
    ensures
        0 <= row_of(i) < 9,
        0 <= col_of(i) < 9,
        0 <= box_of(i) < 9,
        0 <= box_slot(i) < 9,
        i == row_pos(row_of(i), col_of(i)),
        i == col_pos(col_of(i), row_of(i)),
        i == box_pos(box_of(i), box_slot(i)),
{
    let r = i / 9;
    let c = i % 9;
    lemma_fundamental_div_mod(i, 9);
    lemma_mod_pos_bound(i, 9);
    assert(0 <= r < 9);
    lemma_fundamental_div_mod(r, 3);
    lemma_mod_pos_bound(r, 3);
    lemma_fundamental_div_mod(c, 3);
    lemma_mod_pos_bound(c, 3);
    lemma_fundamental_div_mod_converse(i, 27, r / 3, 9 * (r % 3) + c);
    lemma_fundamental_div_mod_converse(i, 3, 3 * r + c / 3, c % 3);
    let b = 3 * (r / 3) + c / 3;
    let s = 3 * (r % 3) + c % 3;
    lemma_fundamental_div_mod_converse(b, 3, r / 3, c / 3);
    lemma_fundamental_div_mod_converse(s, 3, r % 3, c % 3);
    assert(box_pos(b, s) == 27 * (r / 3) + 3 * (c / 3) + 9 * (r % 3) + c % 3);
    assert(i == 27 * (r / 3) + 9 * (r % 3) + 3 * (c / 3) + c % 3);
}

/// The `k`-th cell of row `u` lies in row `u` and column `k`.
pub proof fn lemma_row_pos_props(u: int, k: int)
    requires
        0 <= u < 9,
        0 <= k < 9,
    ensures
        0 <= row_pos(u, k) < 81,
        row_of(row_pos(u, k)) == u,
        col_of(row_pos(u, k)) == k,
{
    lemma_fundamental_div_mod_converse(row_pos(u, k), 9, u, k);
}

/// The `k`-th cell of column `u` lies in column `u` and row `k`.
pub proof fn lemma_col_pos_props(u: int, k: int)
    requires
        0 <= u < 9,
        0 <= k < 9,
    ensures
        0 <= col_pos(u, k) < 81,
        row_of(col_pos(u, k)) == k,
        col_of(col_pos(u, k)) == u,
{
    lemma_fundamental_div_mod_converse(col_pos(u, k), 9, k, u);
}

/// The `k`-th cell of box `u` lies in box `u`, at slot `k`.
pub proof fn lemma_box_pos_props(u: int, k: int)
    requires
        0 <= u < 9,
        0 <= k < 9,
    ensures
        0 <= box_pos(u, k) < 81,
        box_of(box_pos(u, k)) == u,
        box_slot(box_pos(u, k)) == k,
{
    let p = box_pos(u, k);
    lemma_fundamental_div_mod(u, 3);
    lemma_mod_pos_bound(u, 3);
    lemma_fundamental_div_mod(k, 3);
    lemma_mod_pos_bound(k, 3);
    lemma_fundamental_div_mod_converse(p, 9, 3 * (u / 3) + k / 3, 3 * (u % 3) + k % 3);
    lemma_fundamental_div_mod_converse(p, 27, u / 3, 3 * (u % 3) + 9 * (k / 3) + k % 3);
    lemma_fundamental_div_mod_converse(3 * (u % 3) + k % 3, 3, u % 3, k % 3);
    lemma_fundamental_div_mod_converse(p, 3, 3 * (3 * (u / 3) + k / 3) + u % 3, k % 3);
    lemma_fundamental_div_mod_converse(3 * (u / 3) + k / 3, 3, u / 3, k / 3);
}

/// The per-line and the pairwise statements of validity agree.
pub proof fn lemma_valid_equiv(g: Seq<Option<u8>>)
    requires
        g.len() == 81,
    ensures
        grid_valid(g) <==> valid_pairwise(g),
{
    if grid_valid(g) {
        assert forall|i: int, j: int|
            0 <= i < 81 && 0 <= j < 81 && i != j && in_same_unit(i, j) implies !(#[trigger] g[i]
            is Some && g[i] == #[trigger] g[j]) by {
            lemma_pos_decompose(i);
            lemma_pos_decompose(j);
            if row_of(i) == row_of(j) {
                let u = row_of(i);
                let k1 = col_of(i);
                let k2 = col_of(j);
                assert(no_dup(row_seq(g, u)));
                assert(row_seq(g, u)[k1] == g[i]);
                assert(row_seq(g, u)[k2] == g[j]);
            } else if col_of(i) == col_of(j) {
                let u = col_of(i);
                let k1 = row_of(i);
                let k2 = row_of(j);
                assert(no_dup(row_seq(g, u)));
                assert(no_dup(col_seq(g, u)));
                assert(col_seq(g, u)[k1] == g[i]);
                assert(col_seq(g, u)[k2] == g[j]);
            } else {
                let u = box_of(i);
                let k1 = box_slot(i);
                let k2 = box_slot(j);
                assert(no_dup(row_seq(g, u)));
                assert(no_dup(box_seq(g, u)));
                assert(box_seq(g, u)[k1] == g[i]);
                assert(box_seq(g, u)[k2] == g[j]);
            }
        }
    }
    if valid_pairwise(g) {
        assert forall|u: int| 0 <= u < 9 implies no_dup(#[trigger] row_seq(g, u)) && no_dup(
            col_seq(g, u),
        ) && no_dup(box_seq(g, u)) by {
            assert forall|k1: int, k2: int|
                0 <= k1 < k2 < 9 implies !(#[trigger] row_seq(g, u)[k1] is Some && row_seq(g, u)[k1]
                == #[trigger] row_seq(g, u)[k2]) by {
                lemma_row_pos_props(u, k1);
                lemma_row_pos_props(u, k2);
            }
            assert forall|k1: int, k2: int|
                0 <= k1 < k2 < 9 implies !(#[trigger] col_seq(g, u)[k1] is Some && col_seq(g, u)[k1]
                == #[trigger] col_seq(g, u)[k2]) by {
                lemma_col_pos_props(u, k1);
                lemma_col_pos_props(u, k2);
            }
            assert forall|k1: int, k2: int|
                0 <= k1 < k2 < 9 implies !(#[trigger] box_seq(g, u)[k1] is Some && box_seq(g, u)[k1]
                == #[trigger] box_seq(g, u)[k2]) by {
                lemma_box_pos_props(u, k1);
                lemma_box_pos_props(u, k2);
            }
        }
    }
}

/// Writing a digit that no cell of the position's units holds keeps the grid
/// free of pairwise conflicts.
pub proof fn lemma_place_preserves_valid(g: Seq<Option<u8>>, i: int, v: u8)
    requires
        g.len() == 81,
        0 <= i < 81,
        valid_pairwise(g),
        forall|j: int| 0 <= j < 81 && in_same_unit(i, j) ==> #[trigger] g[j] != Some(v),
    ensures
        valid_pairwise(g.update(i, Some(v))),
{
    let g2 = g.update(i, Some(v));
    assert forall|a: int, b: int|
        0 <= a < 81 && 0 <= b < 81 && a != b && in_same_unit(a, b) implies !(#[trigger] g2[a]
        is Some && g2[a] == #[trigger] g2[b]) by {
        if a != i && b != i {
            assert(g2[a] == g[a] && g2[b] == g[b]);
        } else if a == i {
            assert(g2[b] == g[b]);
        } else {
            assert(g2[a] == g[a]);
        }
    }
}

/// Emptying a cell keeps the grid free of pairwise conflicts.
pub proof fn lemma_clear_preserves_valid(g: Seq<Option<u8>>, i: int)
    requires
        g.len() == 81,
        0 <= i < 81,
        valid_pairwise(g),
    ensures
        valid_pairwise(g.update(i, None)),
{
    let g2 = g.update(i, None);
    assert forall|a: int, b: int|
        0 <= a < 81 && 0 <= b < 81 && a != b && in_same_unit(a, b) implies !(#[trigger] g2[a]
        is Some && g2[a] == #[trigger] g2[b]) by {
        if a != i && b != i {
            assert(g2[a] == g[a] && g2[b] == g[b]);
        }
    }
}

/// A grid that only adds digits keeps every pairwise conflict of the grid it
/// extends: inconsistent givens can never be solved away.
pub proof fn lemma_conflict_persists(g1: Seq<Option<u8>>, g2: Seq<Option<u8>>)
    requires
        g1.len() == 81,
        extends(g1, g2),
        !valid_pairwise(g1),
    ensures
        !valid_pairwise(g2),
{
    let (i, j) = choose|i: int, j: int|
        0 <= i < 81 && 0 <= j < 81 && i != j && in_same_unit(i, j) && #[trigger] g1[i] is Some
            && g1[i] == #[trigger] g1[j];
    assert(g2[i] == g1[i] && g2[j] == g1[j]);
    assert(g2[i] is Some && g2[i] == g2[j]);
}

} // verus!
