use vstd::prelude::*;

use crate::cells::SudokuCell;
use crate::cells::SudokuValue;
use crate::grid::flat_ix;
use crate::grid::grid_solved;
use crate::grid::grid_valid;
use crate::grid::pos_ok;
use crate::grid::Sudoku;

verus! {

/// A grid proven completely and correctly filled.
///
/// The only way to obtain one is [`SolvedSudoku::try_from`], which performs
/// the `solved` check; the type carries that proof as its invariant and is
/// never mutated afterward, so an in-progress grid can never be mistaken for
/// a final answer.
pub struct SolvedSudoku {
    values: Vec<SudokuValue>,
}

impl View for SolvedSudoku {
    type V = Seq<Option<u8>>;

    closed spec fn view(&self) -> Seq<Option<u8>> {
        self.values@.map_values(|v: SudokuValue| Some(v.0))
    }
}

impl SolvedSudoku {
    #[verifier::type_invariant]
    closed spec fn inv(&self) -> bool {
        &&& self.values@.len() == 81
        &&& forall|i: int| 0 <= i < 81 ==> (#[trigger] self.values@[i]).wf()
        &&& grid_valid(self@)
    }

    /// Validate a grid: succeeds, preserving every cell, exactly when the
    /// grid is completely and correctly filled.
    pub fn try_from(value: Sudoku) -> (r: Result<SolvedSudoku, ()>)
        requires
            value.wf(),
        ensures
            r is Ok <==> grid_solved(value@),
            r matches Ok(s) ==> s@ == value@,
    {
        if !value.solved() {
            return Err(());
        }
        let mut vals: Vec<SudokuValue> = Vec::new();
        let mut i: usize = 0;
        while i < 81
            invariant
                value.wf(),
                grid_solved(value@),
                i <= 81,
                vals@.len() == i,
                forall|j: int|
                    0 <= j < i ==> Some((#[trigger] vals@[j]).0) == value@[j] && vals@[j].wf(),
            decreases 81 - i,
        {
            let c = value.0[i];
            proof {
                assert(c@ == value@[i as int]);
            }
            match c.0 {
                Some(v) => {
                    vals.push(v);
                },
                None => {
                    proof {
                        assert(false);
                    }
                },
            }
            i = i + 1;
        }
        proof {
            assert(vals@.map_values(|v: SudokuValue| Some(v.0)) =~= value@);
        }
        Ok(SolvedSudoku { values: vals })
    }

    /// The value at position `ix` (`[column, row]`).
    pub fn value_at(&self, ix: [usize; 2]) -> (r: SudokuValue)
        requires
            pos_ok(ix),
        ensures
            self@[flat_ix(ix)] == Some(r.0),
            r.wf(),
    {
        proof {
            use_type_invariant(self);
        }
        self.values[ix[1] * 9 + ix[0]]
    }

    /// The same grid as an ordinary [`Sudoku`], for re-encoding or display.
    pub fn to_sudoku(&self) -> (r: Sudoku)
        ensures
            r@ == self@,
            r.wf(),
            grid_solved(r@),
    {
        proof {
            use_type_invariant(self);
        }
        let mut cells: Vec<SudokuCell> = Vec::new();
        let mut i: usize = 0;
        while i < 81
            invariant
                self.inv(),
                i <= 81,
                cells@.len() == i,
                forall|j: int| 0 <= j < i ==> (#[trigger] cells@[j])@ == self@[j],
            decreases 81 - i,
        {
            cells.push(SudokuCell::filled(self.values[i]));
            i = i + 1;
        }
        let r = Sudoku(cells);
        proof {
            assert(r@ =~= self@);
        }
        r
    }
}

} // verus!
