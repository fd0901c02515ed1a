//! The 81-cell grid: reading it from text, writing it back, and checking its regions.
use vstd::prelude::*;

use crate::cell::{cell_value, cell_wf, DynCellOption, SudokuCell};
use crate::region::{
    box_cell, box_of, box_pos, col_cell, col_of, lemma_box_cell, lemma_col_cell,
    lemma_position_decomposes, lemma_row_cell, row_cell, row_of, same_region,
};

verus! {

/// Why a text is not a puzzle.
#[derive(Clone, Copy, Debug, PartialEq, Eq)]
pub enum FormatError {
    /// The text does not have exactly 81 characters.
    BadLength,
    /// The text has 81 characters, and one of them is not a decimal digit.
    BadChar,
}

/// A 9x9 grid of cells, stored row by row.
#[derive(Debug)]
pub struct SudokuGrid {
    grid: Vec<SudokuCell>,
}

impl View for SudokuGrid {
    type V = Seq<SudokuCell>;

    closed spec fn view(&self) -> Seq<SudokuCell> {
        self.grid@
    }
}

pub open spec fn is_digit_char(c: char) -> bool {
    48 <= c as u32 <= 57
}

/// A puzzle text: 81 decimal digits.
pub open spec fn valid_input(s: Seq<char>) -> bool {
    s.len() == 81 && forall|i: int| 0 <= i < 81 ==> is_digit_char(#[trigger] s[i])
}

/// The cell written as `c`: '0' is empty, any other digit is a given.
pub open spec fn parsed_cell(c: char) -> SudokuCell {
    if c == '0' {
        SudokuCell::NullCell
    } else {
        SudokuCell::FixelCell((c as u32 - 48) as u8)
    }
}

pub open spec fn parsed(s: Seq<char>) -> Seq<SudokuCell> {
    Seq::new(s.len(), |i: int| parsed_cell(s[i]))
}

pub open spec fn digit_char(n: int) -> char {
    ((n + 48) as u8) as char
}

/// The character a cell is written as: its digit, or '_' when empty.
pub open spec fn cell_char(c: SudokuCell) -> char {
    match c {
        SudokuCell::NullCell => '_',
        _ => digit_char(cell_value(c)),
    }
}

pub open spec fn serialized(g: Seq<SudokuCell>) -> Seq<char> {
    Seq::new(g.len(), |i: int| cell_char(g[i]))
}

/// 81 cells, each empty or holding a digit 1 to 9.
pub open spec fn grid_wf(g: Seq<SudokuCell>) -> bool {
    g.len() == 81 && forall|i: int| 0 <= i < 81 ==> cell_wf(#[trigger] g[i])
}

pub open spec fn row_region(g: Seq<SudokuCell>, r: int) -> Seq<SudokuCell> {
    Seq::new(9, |k: int| g[row_cell(r, k)])
}

pub open spec fn col_region(g: Seq<SudokuCell>, c: int) -> Seq<SudokuCell> {
    Seq::new(9, |k: int| g[col_cell(c, k)])
}

pub open spec fn box_region(g: Seq<SudokuCell>, b: int) -> Seq<SudokuCell> {
    Seq::new(9, |k: int| g[box_cell(b, k)])
}

/// No digit occurs twice among the cells; empty cells do not count.
pub open spec fn region_unique(s: Seq<SudokuCell>) -> bool {
    forall|a: int, b: int|
        0 <= a < b < s.len() && cell_value(#[trigger] s[a]) != 0 ==> cell_value(s[a])
            != cell_value(#[trigger] s[b])
}

/// The row, the column and the box of position `i` each repeat no digit.
pub open spec fn consistent_at(g: Seq<SudokuCell>, i: int) -> bool {
    &&& region_unique(row_region(g, row_of(i)))
    &&& region_unique(col_region(g, col_of(i)))
    &&& region_unique(box_region(g, box_of(i)))
}

/// The digits of the cells, 0 for the empty ones.
pub open spec fn values(g: Seq<SudokuCell>) -> Seq<int> {
    Seq::new(g.len(), |i: int| cell_value(g[i]))
}

/// No two positions sharing a region hold the same digit.
pub open spec fn no_conflict(v: Seq<int>) -> bool {
    forall|i: int, j: int|
        0 <= i < 81 && 0 <= j < 81 && i != j && same_region(i, j) && #[trigger] v[i] != 0
            ==> v[i] != #[trigger] v[j]
}

/// A filled-in grid: 81 digits 1 to 9, none repeated within a row, a column or a box.
pub open spec fn is_solution(v: Seq<int>) -> bool {
    &&& v.len() == 81
    &&& forall|i: int| 0 <= i < 81 ==> 1 <= #[trigger] v[i] <= 9
    &&& no_conflict(v)
}

/// `s` keeps every digit that the grid holds.
pub open spec fn agrees(s: Seq<int>, g: Seq<SudokuCell>) -> bool {
    forall|i: int| 0 <= i < 81 && cell_value(#[trigger] g[i]) != 0 ==> s[i] == cell_value(g[i])
}

/// Some solution keeps every digit that the grid holds.
pub open spec fn solvable(g: Seq<SudokuCell>) -> bool {
    exists|s: Seq<int>| is_solution(s) && agrees(s, g)
}

/// `a` equals `b`, or the first position where they differ holds less in `a`.
pub open spec fn lex_le(a: Seq<int>, b: Seq<int>) -> bool {
    a == b || exists|k: int|
        0 <= k < a.len() && k < b.len() && a[k] < b[k] && forall|j: int|
            0 <= j < k ==> #[trigger] a[j] == b[j]
}

/// The puzzle a grid was made from: its search cells blanked.
pub open spec fn given(g: Seq<SudokuCell>) -> Seq<SudokuCell> {
    Seq::new(
        g.len(),
        |i: int|
            match g[i] {
                SudokuCell::DynCell(_) => SudokuCell::NullCell,
                c => c,
            },
    )
}

/// `g` keeps every given of `puzzle` and fills each of its other cells by search.
pub open spec fn completes(puzzle: Seq<SudokuCell>, g: Seq<SudokuCell>) -> bool {
    &&& puzzle.len() == 81
    &&& g.len() == 81
    &&& forall|i: int|
        0 <= i < 81 ==> if puzzle[i] is FixelCell {
            #[trigger] g[i] == puzzle[i]
        } else {
            g[i] is DynCell
        }
}

/// No two positions below `n` that share a region hold the same digit.
spec fn conflict_free_below(g: Seq<SudokuCell>, n: int) -> bool {
    forall|i: int, j: int|
        0 <= i < n && 0 <= j < n && i != j && same_region(i, j) && cell_value(#[trigger] g[i])
            != 0 ==> cell_value(g[i]) != cell_value(#[trigger] g[j])
}

/// Two positions of one region that hold the same digit leave the grid without solution.
pub proof fn lemma_clash_unsolvable(g: Seq<SudokuCell>, p: int, q: int)
    requires
        g.len() == 81,
        0 <= p < 81,
        0 <= q < 81,
        p != q,
        same_region(p, q),
        cell_value(g[p]) != 0,
        cell_value(g[p]) == cell_value(g[q]),
    ensures
        !solvable(g),
{
    assert forall|s: Seq<int>| agrees(s, g) implies !is_solution(s) by {
        assert(s[p] == cell_value(g[p]));
        assert(s[q] == cell_value(g[q]));
    }
}

/// A region that repeats a digit at `i` leaves the grid without solution.
proof fn lemma_inconsistent_unsolvable(g: Seq<SudokuCell>, i: int)
    requires
        g.len() == 81,
        0 <= i < 81,
        !consistent_at(g, i),
    ensures
        !solvable(g),
{
    lemma_position_decomposes(i);
    if !region_unique(row_region(g, row_of(i))) {
        let r = row_of(i);
        let (a, b) = choose|a: int, b: int|
            0 <= a < b < 9 && cell_value(#[trigger] row_region(g, r)[a]) != 0 && cell_value(
                row_region(g, r)[a],
            ) == cell_value(#[trigger] row_region(g, r)[b]);
        lemma_row_cell(r, a);
        lemma_row_cell(r, b);
        lemma_clash_unsolvable(g, row_cell(r, a), row_cell(r, b));
    } else if !region_unique(col_region(g, col_of(i))) {
        let c = col_of(i);
        let (a, b) = choose|a: int, b: int|
            0 <= a < b < 9 && cell_value(#[trigger] col_region(g, c)[a]) != 0 && cell_value(
                col_region(g, c)[a],
            ) == cell_value(#[trigger] col_region(g, c)[b]);
        lemma_col_cell(c, a);
        lemma_col_cell(c, b);
        lemma_clash_unsolvable(g, col_cell(c, a), col_cell(c, b));
    } else {
        let x = box_of(i);
        let (a, b) = choose|a: int, b: int|
            0 <= a < b < 9 && cell_value(#[trigger] box_region(g, x)[a]) != 0 && cell_value(
                box_region(g, x)[a],
            ) == cell_value(#[trigger] box_region(g, x)[b]);
        lemma_box_cell(x, a);
        lemma_box_cell(x, b);
        lemma_clash_unsolvable(g, box_cell(x, a), box_cell(x, b));
    }
}

/// A filled position whose regions repeat no digit extends a conflict-free prefix by one.
proof fn lemma_consistent_extends(g: Seq<SudokuCell>, i: int)
    requires
        g.len() == 81,
        0 <= i < 81,
        cell_value(g[i]) != 0,
        consistent_at(g, i),
        conflict_free_below(g, i),
    ensures
        conflict_free_below(g, i + 1),
{
    lemma_position_decomposes(i);
    assert forall|j: int|
        0 <= j < 81 && j != i && same_region(i, j) implies cell_value(#[trigger] g[j]) != cell_value(
        g[i],
    ) by {
        lemma_position_decomposes(j);
        if row_of(i) == row_of(j) {
            let rg = row_region(g, row_of(i));
            assert(rg[col_of(i)] == g[i]);
            assert(rg[col_of(j)] == g[j]);
        } else if col_of(i) == col_of(j) {
            let cg = col_region(g, col_of(i));
            assert(cg[row_of(i)] == g[i]);
            assert(cg[row_of(j)] == g[j]);
        } else {
            let bg = box_region(g, box_of(i));
            assert(bg[box_pos(i)] == g[i]);
            assert(bg[box_pos(j)] == g[j]);
        }
    }
}

/// A solution that keeps the grid's digits and puts `d` at `i` keeps the grid with `d` placed.
proof fn lemma_agrees_update(s: Seq<int>, g: Seq<SudokuCell>, i: int, c: SudokuCell)
    requires
        g.len() == 81,
        0 <= i < 81,
        agrees(s, g),
        s[i] == cell_value(c),
    ensures
        agrees(s, g.update(i, c)),
{
    assert forall|j: int|
        0 <= j < 81 && cell_value(#[trigger] g.update(i, c)[j]) != 0 implies s[j] == cell_value(
        g.update(i, c)[j],
    ) by {
        if j != i {
            assert(g.update(i, c)[j] == g[j]);
        }
    }
}

/// Digit `d` placed at `i`, whose empty cell no solution fills with less than `d`:
/// a grid that is least among the solutions keeping `d` there is least among all.
proof fn lemma_first_solution(
    start: Seq<SudokuCell>,
    placed: Seq<SudokuCell>,
    done: Seq<SudokuCell>,
    i: int,
    d: int,
)
    requires
        grid_wf(start),
        0 <= i < 81,
        forall|j: int| 0 <= j < i ==> !(#[trigger] start[j] is NullCell),
        start[i] is NullCell,
        placed.len() == 81,
        forall|j: int| 0 <= j < 81 && j != i ==> #[trigger] placed[j] == start[j],
        cell_value(placed[i]) == d,
        done.len() == 81,
        forall|j: int| 0 <= j <= i ==> #[trigger] done[j] == placed[j],
        forall|s: Seq<int>| is_solution(s) && agrees(s, start) ==> #[trigger] s[i] >= d,
        forall|s: Seq<int>|
            is_solution(s) && agrees(s, placed) ==> lex_le(values(done), s),
    ensures
        forall|s: Seq<int>| is_solution(s) && agrees(s, start) ==> lex_le(values(done), s),
{
    assert forall|s: Seq<int>| is_solution(s) && agrees(s, start) implies lex_le(
        values(done),
        s,
    ) by {
        if s[i] == d {
            assert(placed =~= start.update(i, placed[i]));
            lemma_agrees_update(s, start, i, placed[i]);
        } else {
            assert forall|j: int| 0 <= j < i implies #[trigger] values(done)[j] == s[j] by {
                assert(cell_wf(start[j]));
            }
        }
    }
}

/// Relies on String::push: the character is appended at the end.
#[verifier::external_body]
fn push_char(s: &mut String, c: char)
    ensures
        final(s)@ == old(s)@.push(c),
{
    s.push(c);
}

impl SudokuGrid {
    pub open spec fn wf(&self) -> bool {
        grid_wf(self@)
    }

    /// Reads a puzzle from its 81 digits, row by row, '0' standing for an empty cell.
    pub fn from(serialized_format: &str) -> (r: Result<SudokuGrid, FormatError>)
        ensures
            r is Ok <==> valid_input(serialized_format@),
            r matches Ok(g) ==> g.wf() && g@ == parsed(serialized_format@),
            r == Err::<SudokuGrid, FormatError>(FormatError::BadLength) <==> serialized_format@.len()
                != 81,
            r == Err::<SudokuGrid, FormatError>(FormatError::BadChar) <==> (
            serialized_format@.len() == 81 && !valid_input(serialized_format@)),
    {
        let n = serialized_format.unicode_len();
        if n != 81 {
            return Err(FormatError::BadLength);
        }
        let mut grid: Vec<SudokuCell> = Vec::with_capacity(81);
        let mut i: usize = 0;
        while i < 81
            invariant
                n == 81,
                serialized_format@.len() == 81,
                i <= 81,
                grid@.len() == i,
                forall|j: int| 0 <= j < i ==> is_digit_char(#[trigger] serialized_format@[j]),
                forall|j: int| 0 <= j < i ==> #[trigger] grid@[j] == parsed_cell(serialized_format@[j]),
                forall|j: int| 0 <= j < i ==> cell_wf(#[trigger] grid@[j]),
            decreases 81 - i,
        {
            let c = serialized_format.get_char(i);
            let code = c as u32;
            if code < 48 || code > 57 {
                return Err(FormatError::BadChar);
            }
            let cell = if code == 48 {
                SudokuCell::NullCell
            } else {
                SudokuCell::FixelCell((code - 48) as u8)
            };
            grid.push(cell);
            i += 1;
        }
        let g = SudokuGrid { grid };
        assert(g@ =~= parsed(serialized_format@));
        Ok(g)
    }

    /// Writes the grid as 81 characters, row by row: a digit for each filled cell,
    /// '_' for each empty one.
    pub fn serialize(&self) -> (r: String)
        requires
            self.wf(),
        ensures
            r@ == serialized(self@),
    {
        let mut s = String::new();
        let mut i: usize = 0;
        while i < self.grid.len()
            invariant
                grid_wf(self@),
                i <= self@.len(),
                s@ =~= serialized(self@).take(i as int),
            decreases self@.len() - i,
        {
            let c = match self.grid[i] {
                SudokuCell::NullCell => '_',
                SudokuCell::FixelCell(n) => ((n + 48) as u8) as char,
                SudokuCell::DynCell(o) => ((o.value() + 48) as u8) as char,
            };
            push_char(&mut s, c);
            i += 1;
            assert(s@ =~= serialized(self@).take(i as int));
        }
        assert(serialized(self@).take(i as int) =~= serialized(self@));
        s
    }

    /// Fills the empty cells so that no row, column or box repeats a digit, trying
    /// the digits of each empty cell in increasing order and backtracking on a dead
    /// end. Cells put there by an earlier search are blanked first, and a puzzle
    /// whose givens already repeat a digit in a region fails at once. On success the
    /// grid holds the first solution that keeps every given, reading digits position
    /// by position; otherwise the puzzle has none, and the grid is left as given.
    pub fn solve(&mut self) -> (r: bool)
        requires
            old(self).wf(),
        ensures
            final(self).wf(),
            r == solvable(given(old(self)@)),
            r ==> completes(given(old(self)@), final(self)@),
            r ==> is_solution(values(final(self)@)),
            r ==> forall|s: Seq<int>|
                is_solution(s) && agrees(s, given(old(self)@)) ==> lex_le(values(final(self)@), s),
            !r ==> final(self)@ == given(old(self)@),
    {
        let mut i: usize = 0;
        while i < self.grid.len()
            invariant
                grid_wf(old(self)@),
                grid_wf(self@),
                i <= 81,
                forall|j: int| 0 <= j < i ==> #[trigger] self@[j] == given(old(self)@)[j],
                forall|j: int| i <= j < 81 ==> #[trigger] self@[j] == old(self)@[j],
            decreases 81 - i,
        {
            if let SudokuCell::DynCell(_) = self.grid[i] {
                self.grid.set(i, SudokuCell::NullCell);
            }
            i += 1;
        }
        assert(self@ =~= given(old(self)@));
        let ghost puzzle = self@;
        let mut k: usize = 0;
        while k < 81
            invariant
                grid_wf(self@),
                self@ == puzzle,
                puzzle == given(old(self)@),
                k <= 81,
            decreases 81 - k,
        {
            if let SudokuCell::FixelCell(_) = self.grid[k] {
                if !self.is_valid_at_index(k) {
                    proof {
                        lemma_inconsistent_unsolvable(self@, k as int);
                    }
                    return false;
                }
            }
            k += 1;
        }
        let r = self.solve_internal(0);
        proof {
            if r {
                assert(agrees(values(self@), puzzle));
            }
        }
        r
    }

    /// Searches the cells from `index` on, the ones before it being filled without conflict.
    fn solve_internal(&mut self, index: usize) -> (r: bool)
        requires
            index <= 81,
            grid_wf(old(self)@),
            forall|j: int| 0 <= j < index ==> !(#[trigger] old(self)@[j] is NullCell),
            forall|j: int| index <= j < 81 ==> !(#[trigger] old(self)@[j] is DynCell),
            conflict_free_below(old(self)@, index as int),
        ensures
            grid_wf(final(self)@),
            r ==> is_solution(values(final(self)@)),
            r ==> forall|s: Seq<int>|
                is_solution(s) && agrees(s, old(self)@) ==> lex_le(values(final(self)@), s),
            r ==> forall|j: int| 0 <= j < index ==> #[trigger] final(self)@[j] == old(self)@[j],
            r ==> forall|j: int|
                index <= j < 81 ==> if old(self)@[j] is FixelCell {
                    #[trigger] final(self)@[j] == old(self)@[j]
                } else {
                    final(self)@[j] is DynCell
                },
            !r ==> final(self)@ == old(self)@ && !solvable(old(self)@),
        decreases 81 - index,
    {
        if index >= 81 {
            assert forall|j: int| 0 <= j < 81 implies 1 <= #[trigger] values(self@)[j] <= 9 by {
                assert(cell_wf(self@[j]));
            }
            assert forall|s: Seq<int>| is_solution(s) && agrees(s, self@) implies lex_le(
                values(self@),
                s,
            ) by {
                assert forall|j: int| 0 <= j < 81 implies s[j] == #[trigger] values(self@)[j] by {
                    assert(cell_wf(self@[j]));
                }
                assert(s =~= values(self@));
            }
            return true;
        }
        if let SudokuCell::FixelCell(_) = self.grid[index] {
            assert(cell_wf(self@[index as int]));
            if !self.is_valid_at_index(index) {
                proof {
                    lemma_inconsistent_unsolvable(self@, index as int);
                }
                return false;
            }
            proof {
                lemma_consistent_extends(self@, index as int);
            }
            return self.solve_internal(index + 1);
        }
        let ghost start = self@;
        let mut cur = DynCellOption::new();
        self.grid.set(index, SudokuCell::DynCell(cur));
        loop
            invariant
                index < 81,
                grid_wf(start),
                start == old(self)@,
                start[index as int] is NullCell,
                forall|j: int| 0 <= j < index ==> !(#[trigger] start[j] is NullCell),
                forall|j: int| index <= j < 81 ==> !(#[trigger] start[j] is DynCell),
                conflict_free_below(start, index as int),
                1 <= cur@ <= 9,
                self@ == start.update(index as int, SudokuCell::DynCell(cur)),
                forall|s: Seq<int>|
                    is_solution(s) && agrees(s, start) ==> #[trigger] s[index as int] >= cur@,
            decreases 10 - cur@,
        {
            assert(grid_wf(self@));
            if self.is_valid_at_index(index) {
                proof {
                    assert(conflict_free_below(self@, index as int));
                    lemma_consistent_extends(self@, index as int);
                }
                let ghost placed = self@;
                if self.solve_internal(index + 1) {
                    proof {
                        lemma_first_solution(start, placed, self@, index as int, cur@);
                    }
                    return true;
                }
            } else {
                proof {
                    lemma_inconsistent_unsolvable(self@, index as int);
                }
            }
            assert forall|s: Seq<int>| is_solution(s) && agrees(s, start) implies #[trigger] s[index
                as int] >= cur@ + 1 by {
                if s[index as int] == cur@ {
                    lemma_agrees_update(s, start, index as int, SudokuCell::DynCell(cur));
                }
            }
            if !cur.set_next_value() {
                self.grid.set(index, SudokuCell::NullCell);
                assert(self@ =~= start);
                return false;
            }
            self.grid.set(index, SudokuCell::DynCell(cur));
        }
    }

    fn rows(&self, index: usize) -> (r: Vec<SudokuCell>)
        requires
            self.wf(),
            index < 9,
        ensures
            r@ == row_region(self@, index as int),
    {
        let mut arr: Vec<SudokuCell> = Vec::with_capacity(9);
        let mut k: usize = 0;
        while k < 9
            invariant
                self.wf(),
                index < 9,
                k <= 9,
                arr@ =~= row_region(self@, index as int).take(k as int),
            decreases 9 - k,
        {
            proof {
                lemma_row_cell(index as int, k as int);
            }
            arr.push(self.grid[index * 9 + k]);
            k += 1;
            assert(arr@ =~= row_region(self@, index as int).take(k as int));
        }
        assert(row_region(self@, index as int).take(9) =~= row_region(self@, index as int));
        arr
    }

    fn colls(&self, index: usize) -> (r: Vec<SudokuCell>)
        requires
            self.wf(),
            index < 9,
        ensures
            r@ == col_region(self@, index as int),
    {
        let mut arr: Vec<SudokuCell> = Vec::with_capacity(9);
        let mut k: usize = 0;
        while k < 9
            invariant
                self.wf(),
                index < 9,
                k <= 9,
                arr@ =~= col_region(self@, index as int).take(k as int),
            decreases 9 - k,
        {
            proof {
                lemma_col_cell(index as int, k as int);
            }
            arr.push(self.grid[k * 9 + index]);
            k += 1;
            assert(arr@ =~= col_region(self@, index as int).take(k as int));
        }
        assert(col_region(self@, index as int).take(9) =~= col_region(self@, index as int));
        arr
    }

    fn sub_grids(&self, index: usize) -> (r: Vec<SudokuCell>)
        requires
            self.wf(),
            index < 9,
        ensures
            r@ == box_region(self@, index as int),
    {
        let mut arr: Vec<SudokuCell> = Vec::with_capacity(9);
        let mut k: usize = 0;
        while k < 9
            invariant
                self.wf(),
                index < 9,
                k <= 9,
                arr@ =~= box_region(self@, index as int).take(k as int),
            decreases 9 - k,
        {
            proof {
                lemma_box_cell(index as int, k as int);
            }
            let at = ((index / 3) * 3 + k / 3) * 9 + (index % 3) * 3 + k % 3;
            arr.push(self.grid[at]);
            k += 1;
            assert(arr@ =~= box_region(self@, index as int).take(k as int));
        }
        assert(box_region(self@, index as int).take(9) =~= box_region(self@, index as int));
        arr
    }

    /// Whether no digit occurs twice in the region; empty cells are skipped.
    fn is_region_unique(region: &[SudokuCell]) -> (r: bool)
        requires
            forall|k: int| 0 <= k < region@.len() ==> cell_wf(#[trigger] region@[k]),
        ensures
            r == region_unique(region@),
    {
        let mut seen = [false; 9];
        let mut i: usize = 0;
        while i < region.len()
            invariant
                i <= region@.len(),
                forall|k: int| 0 <= k < region@.len() ==> cell_wf(#[trigger] region@[k]),
                forall|d: int|
                    0 <= d < 9 ==> (seen@[d] <==> exists|k: int|
                        0 <= k < i && cell_value(#[trigger] region@[k]) == d + 1),
                forall|a: int, b: int|
                    0 <= a < b < i && cell_value(#[trigger] region@[a]) != 0 ==> cell_value(
                        region@[a],
                    ) != cell_value(#[trigger] region@[b]),
            decreases region@.len() - i,
        {
            let n: u8 = match region[i] {
                SudokuCell::NullCell => 0,
                SudokuCell::FixelCell(n) => n,
                SudokuCell::DynCell(o) => o.value(),
            };
            assert(cell_wf(region@[i as int]));
            if n != 0 {
                let d: usize = (n - 1) as usize;
                if seen[d] {
                    proof {
                        let k = choose|k: int| 0 <= k < i && cell_value(#[trigger] region@[k]) == d + 1;
                        assert(cell_value(region@[k]) == cell_value(region@[i as int]));
                    }
                    return false;
                }
                seen[d] = true;
            }
            i += 1;
        }
        true
    }

    /// Whether the row, the column and the box through `index` each repeat no digit.
    fn is_valid_at_index(&self, index: usize) -> (r: bool)
        requires
            self.wf(),
            index < 81,
        ensures
            r == consistent_at(self@, index as int),
    {
        proof {
            lemma_position_decomposes(index as int);
        }
        let row = self.rows(index / 9);
        if !SudokuGrid::is_region_unique(row.as_slice()) {
            return false;
        }
        let coll = self.colls(index % 9);
        if !SudokuGrid::is_region_unique(coll.as_slice()) {
            return false;
        }
        let sub_grid = self.sub_grids((index / 27) * 3 + (index % 9) / 3);
        SudokuGrid::is_region_unique(sub_grid.as_slice())
    }
}

} // verus!
