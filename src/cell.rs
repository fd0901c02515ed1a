//! The state of a single position of a grid.
use vstd::prelude::*;

verus! {

/// The candidate digit of a cell whose value is being searched for.
#[derive(Clone, Copy, Debug)]
pub struct DynCellOption {
    value: u8,
}

impl View for DynCellOption {
    type V = int;

    closed spec fn view(&self) -> int {
        self.value as int
    }
}

impl DynCellOption {
    /// A fresh candidate, starting at the lowest digit.
    pub fn new() -> (r: DynCellOption)
        ensures
            r@ == 1,
    {
        DynCellOption { value: 1 }
    }

    /// Advances the candidate by one; the result says whether it is still a digit.
    pub fn set_next_value(&mut self) -> (r: bool)
        requires
            old(self)@ <= 9,
        ensures
            final(self)@ == old(self)@ + 1,
            r == (final(self)@ <= 9),
    {
        self.value += 1;
        if self.value > 9 {
            return false;
        }
        true
    }

    /// The digit currently held.
    pub fn value(&self) -> (r: u8)
        ensures
            r as int == self@,
    {
        self.value
    }
}

impl Default for DynCellOption {
    fn default() -> (r: Self)
        ensures
            r@ == 1,
    {
        Self::new()
    }
}

/// One of the 81 positions of a grid.
#[derive(Clone, Copy, Debug)]
pub enum SudokuCell {
    /// No digit yet.
    NullCell,
    /// A digit given by the puzzle; the search never changes it.
    FixelCell(u8),
    /// A digit chosen by the search.
    DynCell(DynCellOption),
}

/// The digit a cell holds, 0 for an empty one.
pub open spec fn cell_value(c: SudokuCell) -> int {
    match c {
        SudokuCell::NullCell => 0,
        SudokuCell::FixelCell(n) => n as int,
        SudokuCell::DynCell(o) => o@,
    }
}

/// A cell at rest: empty, or holding a digit 1 to 9.
pub open spec fn cell_wf(c: SudokuCell) -> bool {
    match c {
        SudokuCell::NullCell => true,
        _ => 1 <= cell_value(c) <= 9,
    }
}

} // verus!
