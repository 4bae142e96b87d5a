use vstd::prelude::*;

verus! {

/// A Sudoku digit, strictly in the range `[1, 9]`.
///
/// Values are meant to be obtained through [`SudokuValue::new`], which
/// rejects out-of-range digits; well-formedness is tracked by [`SudokuValue::wf`].
#[derive(Debug, Clone, Copy, PartialEq, Eq, Structural)]
pub struct SudokuValue(pub u8);

/// An ascending cursor over the Sudoku digits.
///
/// A cursor at position `c` yields the digits `c + 1..=9`, one per call to
/// [`SudokuValues::next`]. The solver keeps one cursor per tentative
/// assignment so that re-visiting a position never repeats a digit.
#[derive(Debug, Clone)]
pub struct SudokuValues(pub u8);

impl SudokuValue {
    /// The digit is in the legal range.
    pub open spec fn wf(self) -> bool {
        1 <= self.0 <= 9
    }

    /// Validating constructor: succeeds exactly on digits in `[1, 9]`.
    pub fn new(val: u8) -> (r: Option<SudokuValue>)
        ensures
            r is Some <==> 1 <= val <= 9,
            r matches Some(v) ==> v.0 == val,
    {
        if 1 <= val && val <= 9 {
            Some(SudokuValue(val))
        } else {
            None
        }
    }

    /// A cursor that yields every digit, `1` through `9`, in ascending order.
    pub fn all_values() -> (r: SudokuValues)
        ensures
            r.0 == 0,
    {
        SudokuValues(0)
    }

    /// A cursor that yields the digits strictly above `self`, in ascending order.
    pub fn remaining_values(self) -> (r: SudokuValues)
        ensures
            r.0 == self.0,
    {
        SudokuValues(self.0)
    }

    /// The raw digit.
    pub fn get(self) -> (r: u8)
        ensures
            r == self.0,
    {
        self.0
    }
}

impl SudokuValues {
    /// Advance the cursor and return the next digit, or `None` once the
    /// cursor has passed `9`.
    pub fn next(&mut self) -> (r: Option<SudokuValue>)
        ensures
            old(self).0 >= 9 ==> r is None && final(self).0 == old(self).0,
            old(self).0 < 9 ==> final(self).0 == old(self).0 + 1
                && (r matches Some(v) && v.0 == old(self).0 + 1),
    {
        if self.0 >= 9 {
            return None;
        }
        self.0 = self.0 + 1;
        Some(SudokuValue(self.0))
    }
}

/// The error of converting an empty [`SudokuCell`] into a [`SudokuValue`].
#[derive(Debug)]
pub struct EmptySudokuCell;

/// One grid position: either empty or holding a [`SudokuValue`].
#[derive(Debug, Clone, Copy)]
pub struct SudokuCell(pub Option<SudokuValue>);

impl View for SudokuCell {
    type V = Option<u8>;

    open spec fn view(&self) -> Option<u8> {
        match self.0 {
            Some(v) => Some(v.0),
            None => None,
        }
    }
}

impl SudokuCell {
    /// Any digit held is in the legal range.
    pub open spec fn wf(self) -> bool {
        self.0 matches Some(v) ==> v.wf()
    }

    /// A cell holding `val`.
    pub fn filled(val: SudokuValue) -> (r: SudokuCell)
        ensures
            r@ == Some(val.0),
    {
        SudokuCell(Some(val))
    }

    /// Whether the cell holds a digit.
    pub fn is_filled(&self) -> (r: bool)
        ensures
            r == (self@ is Some),
    {
        self.0.is_some()
    }

    /// A cell holding nothing.
    pub fn empty() -> (r: SudokuCell)
        ensures
            r@ is None,
    {
        SudokuCell(None)
    }

    /// Whether the cell holds nothing.
    pub fn is_empty(&self) -> (r: bool)
        ensures
            r == (self@ is None),
    {
        self.0.is_none()
    }

    /// The digit held, or [`EmptySudokuCell`] for an empty cell.
    pub fn try_value(&self) -> (r: Result<SudokuValue, EmptySudokuCell>)
        ensures
            r matches Ok(v) ==> self@ == Some(v.0),
            r is Err <==> self@ is None,
    {
        match self.0 {
            Some(v) => Ok(v),
            None => Err(EmptySudokuCell),
        }
    }

    /// Decode one byte of the textual puzzle format: `'.'` is an empty cell,
    /// `'1'`..`'9'` a given digit, and anything else is rejected.
    pub fn from_ascci_char(val: u8) -> (r: Option<SudokuCell>)
        ensures
            r is Some <==> byte_ok(val),
            r matches Some(c) ==> c@ == cell_of_byte(val) && c.wf(),
    {
        if val == 0x2e {
            Some(SudokuCell::empty())
        } else if val >= 0x30 {
            match SudokuValue::new(val - 0x30) {
                Some(v) => Some(SudokuCell::filled(v)),
                None => None,
            }
        } else {
            None
        }
    }
}

/// The bytes accepted by the textual puzzle format.
pub open spec fn byte_ok(b: u8) -> bool {
    b == 0x2e || 0x31 <= b <= 0x39
}

/// The cell encoded by one accepted byte.
pub open spec fn cell_of_byte(b: u8) -> Option<u8>
    recommends
        byte_ok(b),
{
    if b == 0x2e {
        None
    } else {
        Some((b - 0x30) as u8)
    }
}

/// The byte encoding one well-formed cell.
pub open spec fn byte_of_cell(c: Option<u8>) -> u8 {
    match c {
        None => 0x2e,
        Some(d) => (0x30 + d) as u8,
    }
}

} // verus!
