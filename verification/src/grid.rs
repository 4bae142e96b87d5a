use vstd::arithmetic::div_mod::lemma_fundamental_div_mod_converse;
use vstd::prelude::*;

use crate::cells::byte_of_cell;
use crate::cells::byte_ok;
use crate::cells::cell_of_byte;
use crate::cells::SudokuCell;

verus! {

// ---------------------------------------------------------------------------
// The mathematical model: a grid is a row-major sequence of 81 optional
// digits, addressed either flat (0..81) or by `[column, row]` pairs.
// ---------------------------------------------------------------------------

/// The digits of a sequence of cells.
pub open spec fn cells_view(s: Seq<SudokuCell>) -> Seq<Option<u8>> {
    s.map_values(|c: SudokuCell| c@)
}

/// The grid has exactly 81 cells and every digit held is in `[1, 9]`.
pub open spec fn grid_wf(g: Seq<Option<u8>>) -> bool {
    &&& g.len() == 81
    &&& forall|i: int| 0 <= i < 81 ==> (#[trigger] g[i] matches Some(d) ==> 1 <= d <= 9)
}

/// Whether `[column, row]` addresses a grid position.
pub open spec fn pos_ok(ix: [usize; 2]) -> bool {
    ix[0] < 9 && ix[1] < 9
}

/// The flat, row-major offset of position `[column, row]`.
pub open spec fn flat_ix(ix: [usize; 2]) -> int {
    ix[1] * 9 + ix[0]
}

/// The row of the cell at flat offset `i`.
pub open spec fn row_of(i: int) -> int {
    i / 9
}

/// The column of the cell at flat offset `i`.
pub open spec fn col_of(i: int) -> int {
    i % 9
}

/// The 3×3 box of the cell at flat offset `i`; box `b` covers columns
/// `3*(b%3)..3*(b%3)+3` and rows `3*(b/3)..3*(b/3)+3`.
pub open spec fn box_of(i: int) -> int {
    3 * (i / 27) + (i % 9) / 3
}

/// The position within its box (row-major) of the cell at flat offset `i`.
pub open spec fn box_slot(i: int) -> int {
    3 * ((i / 9) % 3) + i % 3
}

/// The flat offset of the `k`-th cell of row `u`, left to right.
pub open spec fn row_pos(u: int, k: int) -> int {
    u * 9 + k
}

/// The flat offset of the `k`-th cell of column `u`, top to bottom.
pub open spec fn col_pos(u: int, k: int) -> int {
    k * 9 + u
}

/// The flat offset of the `k`-th cell of box `u`, row-major within the box.
pub open spec fn box_pos(u: int, k: int) -> int {
    27 * (u / 3) + 3 * (u % 3) + 9 * (k / 3) + k % 3
}

/// The 9 cells of row `u`, in traversal order.
pub open spec fn row_seq(g: Seq<Option<u8>>, u: int) -> Seq<Option<u8>> {
    Seq::new(9, |k: int| g[row_pos(u, k)])
}

/// The 9 cells of column `u`, in traversal order.
pub open spec fn col_seq(g: Seq<Option<u8>>, u: int) -> Seq<Option<u8>> {
    Seq::new(9, |k: int| g[col_pos(u, k)])
}

/// The 9 cells of box `u`, in traversal order.
pub open spec fn box_seq(g: Seq<Option<u8>>, u: int) -> Seq<Option<u8>> {
    Seq::new(9, |k: int| g[box_pos(u, k)])
}

/// No two filled cells of the line hold the same digit.
pub open spec fn no_dup(s: Seq<Option<u8>>) -> bool {
    forall|k1: int, k2: int|
        0 <= k1 < k2 < s.len() ==> !(#[trigger] s[k1] is Some && s[k1] == #[trigger] s[k2])
}

/// Every row, column, and box holds no duplicate digit among its filled cells.
pub open spec fn grid_valid(g: Seq<Option<u8>>) -> bool {
    forall|u: int|
        0 <= u < 9 ==> no_dup(#[trigger] row_seq(g, u)) && no_dup(col_seq(g, u)) && no_dup(
            box_seq(g, u),
        )
}

/// Every cell holds a digit.
pub open spec fn grid_filled(g: Seq<Option<u8>>) -> bool {
    forall|i: int| 0 <= i < 81 ==> #[trigger] g[i] is Some
}

/// The grid is completely and correctly filled.
pub open spec fn grid_solved(g: Seq<Option<u8>>) -> bool {
    grid_filled(g) && grid_valid(g)
}

/// `g2` agrees with `g1` on every cell that `g1` fills: `g2` only adds digits.
pub open spec fn extends(g1: Seq<Option<u8>>, g2: Seq<Option<u8>>) -> bool {
    &&& g1.len() == g2.len()
    &&& forall|i: int| 0 <= i < g1.len() && #[trigger] g1[i] is Some ==> g2[i] == g1[i]
}

/// `s` solves the puzzle `g`: a well-formed, completely and correctly filled
/// grid that retains every digit `g` already held.
pub open spec fn is_solution(g: Seq<Option<u8>>, s: Seq<Option<u8>>) -> bool {
    grid_wf(s) && grid_solved(s) && extends(g, s)
}

// ---------------------------------------------------------------------------
// The textual puzzle format: 81 bytes, row-major, '.' or '1'..'9'.
// ---------------------------------------------------------------------------

/// The line is exactly 81 bytes, each `'.'` or `'1'..'9'`.
pub open spec fn line_wf(line: Seq<u8>) -> bool {
    &&& line.len() == 81
    &&& forall|i: int| 0 <= i < 81 ==> byte_ok(#[trigger] line[i])
}

/// The grid encoded by a well-formed line.
pub open spec fn parse_seq(line: Seq<u8>) -> Seq<Option<u8>> {
    Seq::new(81, |i: int| cell_of_byte(line[i]))
}

/// The line encoding a grid.
pub open spec fn encode_seq(g: Seq<Option<u8>>) -> Seq<u8> {
    Seq::new(g.len(), |i: int| byte_of_cell(g[i]))
}

/// Round-trip law: re-encoding a parsed line reproduces the line, byte for
/// byte, for every 81-character line over `{'.', '1'..'9'}`.
pub proof fn lemma_encode_parse_roundtrip(line: Seq<u8>)
    requires
        line_wf(line),
    ensures
        encode_seq(parse_seq(line)) == line,
{
    assert(encode_seq(parse_seq(line)) =~= line);
}

// ---------------------------------------------------------------------------
// The grid itself.
// ---------------------------------------------------------------------------

/// The 9×9 working puzzle state, held row-major.
#[derive(Debug, Clone)]
pub struct Sudoku(pub Vec<SudokuCell>);

impl View for Sudoku {
    type V = Seq<Option<u8>>;

    open spec fn view(&self) -> Seq<Option<u8>> {
        cells_view(self.0@)
    }
}

/// Report whether every filled cell of a line of cells holds a distinct digit.
pub fn unique(values: &Vec<SudokuCell>) -> (r: bool)
    ensures
        r == no_dup(cells_view(values@)),
{
    let ghost s = cells_view(values@);
    let n = values.len();
    let mut a: usize = 0;
    while a < n
        invariant
            s == cells_view(values@),
            n == values@.len(),
            a <= n,
            forall|k1: int, k2: int|
                0 <= k1 < k2 < s.len() && k1 < a ==> !(#[trigger] s[k1] is Some && s[k1]
                    == #[trigger] s[k2]),
        decreases n - a,
    {
        let mut b: usize = a + 1;
        while b < n
            invariant
                s == cells_view(values@),
                n == values@.len(),
                a < b || a + 1 == b,
                a < n,
                b <= n,
                forall|k2: int|
                    a < k2 < b ==> !(s[a as int] is Some && s[a as int] == #[trigger] s[k2]),
            decreases n - b,
        {
            match (values[a].0, values[b].0) {
                (Some(x), Some(y)) => {
                    if x.0 == y.0 {
                        proof {
                            assert(s[a as int] is Some && s[a as int] == s[b as int]);
                        }
                        return false;
                    }
                },
                _ => {},
            }
            b = b + 1;
        }
        a = a + 1;
    }
    true
}

impl Sudoku {
    /// The grid is well-formed: 81 cells, digits in range.
    pub open spec fn wf(&self) -> bool {
        grid_wf(self@)
    }

    /// Parse an 81-byte row-major line (`'.'` empty, `'1'..'9'` given) into a
    /// grid.
    pub fn from_line(line: &[u8]) -> (r: Sudoku)
        requires
            line_wf(line@),
        ensures
            r@ == parse_seq(line@),
            r.wf(),
    {
        let mut cells: Vec<SudokuCell> = Vec::new();
        let mut i: usize = 0;
        while i < 81
            invariant
                line_wf(line@),
                i <= 81,
                cells@.len() == i,
                forall|j: int|
                    0 <= j < i ==> (#[trigger] cells@[j])@ == cell_of_byte(line@[j])
                        && cells@[j].wf(),
            decreases 81 - i,
        {
            let b = line[i];
            match SudokuCell::from_ascci_char(b) {
                Some(c) => {
                    cells.push(c);
                },
                None => {
                    proof {
                        assert(false);
                    }
                },
            }
            i = i + 1;
        }
        let r = Sudoku(cells);
        proof {
            assert(r@ =~= parse_seq(line@));
        }
        r
    }

    /// The cell at position `ix` (`[column, row]`).
    pub fn at(&self, ix: [usize; 2]) -> (r: SudokuCell)
        requires
            self.wf(),
            pos_ok(ix),
        ensures
            r@ == self@[flat_ix(ix)],
    {
        self.0[ix[1] * 9 + ix[0]]
    }

    /// Replace the cell at position `ix` (`[column, row]`).
    pub fn set_cell(&mut self, ix: [usize; 2], c: SudokuCell)
        requires
            old(self).wf(),
            pos_ok(ix),
            c.wf(),
        ensures
            final(self)@ == old(self)@.update(flat_ix(ix), c@),
            final(self).wf(),
    {
        self.0[ix[1] * 9 + ix[0]] = c;
        proof {
            assert(self@ =~= old(self)@.update(flat_ix(ix), c@));
        }
    }

    /// Whether every cell holds a digit.
    pub fn filled(&self) -> (r: bool)
        requires
            self.wf(),
        ensures
            r == grid_filled(self@),
    {
        let mut i: usize = 0;
        while i < 81
            invariant
                self.wf(),
                i <= 81,
                forall|j: int| 0 <= j < i ==> #[trigger] self@[j] is Some,
            decreases 81 - i,
        {
            let c = self.0[i];
            proof {
                assert(c@ == self@[i as int]);
            }
            if c.is_empty() {
                return false;
            }
            i = i + 1;
        }
        true
    }

    /// Whether every row, column, and box holds no duplicate digit.
    pub fn valid(&self) -> (r: bool)
        requires
            self.wf(),
        ensures
            r == grid_valid(self@),
    {
        let mut u: u8 = 0;
        while u < 9
            invariant
                self.wf(),
                u <= 9,
                forall|w: int|
                    0 <= w < u ==> no_dup(#[trigger] row_seq(self@, w)) && no_dup(
                        col_seq(self@, w),
                    ) && no_dup(box_seq(self@, w)),
            decreases 9 - u,
        {
            let r = self.row(u);
            proof {
                assert(cells_view(r@) =~= row_seq(self@, u as int));
            }
            if !unique(&r) {
                return false;
            }
            let c = self.column(u);
            proof {
                assert(cells_view(c@) =~= col_seq(self@, u as int));
            }
            if !unique(&c) {
                return false;
            }
            let bx = self.cell(u);
            proof {
                assert(cells_view(bx@) =~= box_seq(self@, u as int));
            }
            if !unique(&bx) {
                return false;
            }
            u = u + 1;
        }
        true
    }

    /// Whether the grid is completely and correctly filled: `filled && valid`.
    pub fn solved(&self) -> (r: bool)
        requires
            self.wf(),
        ensures
            r == grid_solved(self@),
    {
        self.filled() && self.valid()
    }

    /// All 81 cells, in row-major order.
    pub fn values(&self) -> (r: Vec<SudokuCell>)
        requires
            self.wf(),
        ensures
            r@.len() == 81,
            forall|i: int| 0 <= i < 81 ==> (#[trigger] r@[i])@ == self@[i],
    {
        let mut out: Vec<SudokuCell> = Vec::new();
        let mut i: usize = 0;
        while i < 81
            invariant
                self.wf(),
                i <= 81,
                out@.len() == i,
                forall|j: int| 0 <= j < i ==> (#[trigger] out@[j])@ == self@[j],
            decreases 81 - i,
        {
            out.push(self.0[i]);
            i = i + 1;
        }
        out
    }

    /// All 81 cells with their `[column, row]` positions, row-major.
    pub fn indexed_values(&self) -> (r: Vec<([usize; 2], SudokuCell)>)
        requires
            self.wf(),
        ensures
            r@.len() == 81,
            forall|i: int|
                0 <= i < 81 ==> pos_ok((#[trigger] r@[i]).0) && flat_ix(r@[i].0) == i && (
                r@[i].1)@ == self@[i],
    {
        let mut out: Vec<([usize; 2], SudokuCell)> = Vec::new();
        let mut i: usize = 0;
        while i < 81
            invariant
                self.wf(),
                i <= 81,
                out@.len() == i,
                forall|j: int|
                    0 <= j < i ==> pos_ok((#[trigger] out@[j]).0) && flat_ix(out@[j].0) == j && (
                    out@[j].1)@ == self@[j],
            decreases 81 - i,
        {
            let ix = [i % 9, i / 9];
            proof {
                lemma_fundamental_div_mod_converse(i as int, 9, i as int / 9, i as int % 9);
            }
            out.push((ix, self.0[i]));
            i = i + 1;
        }
        out
    }

    /// The 9 cells of row `ix`, left to right.
    pub fn row(&self, ix: u8) -> (r: Vec<SudokuCell>)
        requires
            self.wf(),
            ix < 9,
        ensures
            r@.len() == 9,
            forall|k: int| 0 <= k < 9 ==> (#[trigger] r@[k])@ == self@[row_pos(ix as int, k)],
    {
        let mut out: Vec<SudokuCell> = Vec::new();
        let mut k: usize = 0;
        while k < 9
            invariant
                self.wf(),
                ix < 9,
                k <= 9,
                out@.len() == k,
                forall|j: int| 0 <= j < k ==> (#[trigger] out@[j])@ == self@[row_pos(ix as int, j)],
            decreases 9 - k,
        {
            out.push(self.0[(ix as usize) * 9 + k]);
            k = k + 1;
        }
        out
    }

    /// The 9 cells of column `ix`, top to bottom.
    pub fn column(&self, ix: u8) -> (r: Vec<SudokuCell>)
        requires
            self.wf(),
            ix < 9,
        ensures
            r@.len() == 9,
            forall|k: int| 0 <= k < 9 ==> (#[trigger] r@[k])@ == self@[col_pos(ix as int, k)],
    {
        let mut out: Vec<SudokuCell> = Vec::new();
        let mut k: usize = 0;
        while k < 9
            invariant
                self.wf(),
                ix < 9,
                k <= 9,
                out@.len() == k,
                forall|j: int| 0 <= j < k ==> (#[trigger] out@[j])@ == self@[col_pos(ix as int, j)],
            decreases 9 - k,
        {
            out.push(self.0[k * 9 + (ix as usize)]);
            k = k + 1;
        }
        out
    }

    /// The 9 cells of box `ix`, row-major within the 3×3 block.
    pub fn cell(&self, ix: u8) -> (r: Vec<SudokuCell>)
        requires
            self.wf(),
            ix < 9,
        ensures
            r@.len() == 9,
            forall|k: int| 0 <= k < 9 ==> (#[trigger] r@[k])@ == self@[box_pos(ix as int, k)],
    {
        let x0 = 3 * ((ix as usize) % 3);
        let y0 = 3 * ((ix as usize) / 3);
        let mut out: Vec<SudokuCell> = Vec::new();
        let mut k: usize = 0;
        while k < 9
            invariant
                self.wf(),
                ix < 9,
                x0 == 3 * ((ix as int) % 3),
                y0 == 3 * ((ix as int) / 3),
                k <= 9,
                out@.len() == k,
                forall|j: int| 0 <= j < k ==> (#[trigger] out@[j])@ == self@[box_pos(ix as int, j)],
            decreases 9 - k,
        {
            out.push(self.0[(y0 + k / 3) * 9 + x0 + k % 3]);
            k = k + 1;
        }
        out
    }

    /// The row index of a position (`[column, row]`).
    pub fn row_from_ix(ix: [usize; 2]) -> (r: u8)
        requires
            pos_ok(ix),
        ensures
            r == ix[1],
            r as int == row_of(flat_ix(ix)),
    {
        proof {
            lemma_fundamental_div_mod_converse(flat_ix(ix), 9, ix[1] as int, ix[0] as int);
        }
        ix[1] as u8
    }

    /// The column index of a position (`[column, row]`).
    pub fn column_from_ix(ix: [usize; 2]) -> (r: u8)
        requires
            pos_ok(ix),
        ensures
            r == ix[0],
            r as int == col_of(flat_ix(ix)),
    {
        proof {
            lemma_fundamental_div_mod_converse(flat_ix(ix), 9, ix[1] as int, ix[0] as int);
        }
        ix[0] as u8
    }

    /// The box index of a position (`[column, row]`).
    pub fn cell_from_ix(ix: [usize; 2]) -> (r: u8)
        requires
            pos_ok(ix),
        ensures
            r as int == box_of(flat_ix(ix)),
    {
        proof {
            let i = flat_ix(ix);
            lemma_fundamental_div_mod_converse(
                i,
                27,
                ix[1] as int / 3,
                9 * ((ix[1] as int) % 3) + ix[0] as int,
            );
            lemma_fundamental_div_mod_converse(i, 9, ix[1] as int, ix[0] as int);
        }
        (3 * (ix[1] / 3) + ix[0] / 3) as u8
    }

    /// Encode the grid back into its 81-byte row-major line.
    pub fn encode(&self) -> (r: Vec<u8>)
        requires
            self.wf(),
        ensures
            r@ == encode_seq(self@),
    {
        let mut out: Vec<u8> = Vec::new();
        let mut i: usize = 0;
        while i < 81
            invariant
                self.wf(),
                i <= 81,
                out@.len() == i,
                forall|j: int| 0 <= j < i ==> out@[j] == byte_of_cell(self@[j]),
            decreases 81 - i,
        {
            let c = self.0[i];
            proof {
                assert(c@ == self@[i as int]);
            }
            let b = match c.0 {
                Some(v) => v.0 + 0x30,
                None => 0x2e,
            };
            out.push(b);
            i = i + 1;
        }
        proof {
            assert(out@ =~= encode_seq(self@));
        }
        out
    }
}

} // verus!

