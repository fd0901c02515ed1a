//! Facts about puzzles and their solutions, stated over the contracts of
//! `SudokuGrid::from`, `SudokuGrid::solve` and `SudokuGrid::serialize`.
use vstd::prelude::*;
use vstd::relations::injective_on;
use vstd::set_lib::{lemma_int_range, lemma_map_size, lemma_subset_equality, set_int_range};

use crate::cell::{cell_value, cell_wf, SudokuCell};
use crate::grid::{
    agrees, cell_char, completes, given, grid_wf, is_digit_char, is_solution, lemma_clash_unsolvable, no_conflict, parsed, parsed_cell,
    serialized, solvable, valid_input, values,
};
use crate::region::{
    box_cell, box_positions, col_cell, col_positions, lemma_box_cell, lemma_col_cell,
    lemma_row_cell, row_cell, row_positions, same_region,
};

verus! {

/// Digit `d` stands at exactly one of the positions.
pub open spec fn once_in(v: Seq<int>, pos: Seq<int>, d: int) -> bool {
    exists|k: int|
        0 <= k < pos.len() && v[pos[k]] == d && forall|m: int|
            0 <= m < pos.len() && m != k ==> v[#[trigger] pos[m]] != d
}

/// Nine pairwise distinct digits 1 to 9, at nine positions, use each digit exactly once.
proof fn lemma_nine_distinct_digits(v: Seq<int>, pos: Seq<int>)
    requires
        pos.len() == 9,
        forall|k: int| 0 <= k < 9 ==> 1 <= #[trigger] v[pos[k]] <= 9,
        forall|a: int, b: int|
            0 <= a < 9 && 0 <= b < 9 && a != b ==> #[trigger] v[pos[a]] != #[trigger] v[pos[b]],
    ensures
        forall|d: int| 1 <= d <= 9 ==> #[trigger] once_in(v, pos, d),
{
    let f = |k: int| v[pos[k]];
    let dom = set_int_range(0, 9);
    let digits = set_int_range(1, 10);
    lemma_int_range(0, 9);
    lemma_int_range(1, 10);
    assert(injective_on(f, dom));
    lemma_map_size(dom, dom.map(f), f);
    assert(dom.map(f).subset_of(digits));
    lemma_subset_equality(dom.map(f), digits);
    assert forall|d: int| 1 <= d <= 9 implies #[trigger] once_in(v, pos, d) by {
        assert(digits.contains(d));
        assert(dom.map(f).contains(d));
        let k = choose|k: int| dom.contains(k) && f(k) == d;
        assert(v[pos[k]] == d);
    }
}

/// In a solution every row, every column and every box holds each digit 1 to 9
/// exactly once.
pub proof fn lemma_solution_regions_complete(v: Seq<int>)
    requires
        is_solution(v),
    ensures
        forall|r: int, d: int|
            0 <= r < 9 && 1 <= d <= 9 ==> #[trigger] once_in(v, row_positions(r), d),
        forall|c: int, d: int|
            0 <= c < 9 && 1 <= d <= 9 ==> #[trigger] once_in(v, col_positions(c), d),
        forall|b: int, d: int|
            0 <= b < 9 && 1 <= d <= 9 ==> #[trigger] once_in(v, box_positions(b), d),
{
    assert forall|r: int, d: int| 0 <= r < 9 && 1 <= d <= 9 implies #[trigger] once_in(
        v,
        row_positions(r),
        d,
    ) by {
        let pos = row_positions(r);
        assert forall|a: int, b: int| 0 <= a < 9 && 0 <= b < 9 && a != b implies #[trigger] v[pos[a]]
            != #[trigger] v[pos[b]] by {
            lemma_row_cell(r, a);
            lemma_row_cell(r, b);
            assert(same_region(pos[a], pos[b]));
        }
        assert forall|k: int| 0 <= k < 9 implies 1 <= #[trigger] v[pos[k]] <= 9 by {
            lemma_row_cell(r, k);
        }
        lemma_nine_distinct_digits(v, pos);
    }
    assert forall|c: int, d: int| 0 <= c < 9 && 1 <= d <= 9 implies #[trigger] once_in(
        v,
        col_positions(c),
        d,
    ) by {
        let pos = col_positions(c);
        assert forall|a: int, b: int| 0 <= a < 9 && 0 <= b < 9 && a != b implies #[trigger] v[pos[a]]
            != #[trigger] v[pos[b]] by {
            lemma_col_cell(c, a);
            lemma_col_cell(c, b);
            assert(same_region(pos[a], pos[b]));
        }
        assert forall|k: int| 0 <= k < 9 implies 1 <= #[trigger] v[pos[k]] <= 9 by {
            lemma_col_cell(c, k);
        }
        lemma_nine_distinct_digits(v, pos);
    }
    assert forall|x: int, d: int| 0 <= x < 9 && 1 <= d <= 9 implies #[trigger] once_in(
        v,
        box_positions(x),
        d,
    ) by {
        let pos = box_positions(x);
        assert forall|a: int, b: int| 0 <= a < 9 && 0 <= b < 9 && a != b implies #[trigger] v[pos[a]]
            != #[trigger] v[pos[b]] by {
            lemma_box_cell(x, a);
            lemma_box_cell(x, b);
            assert(same_region(pos[a], pos[b]));
        }
        assert forall|k: int| 0 <= k < 9 implies 1 <= #[trigger] v[pos[k]] <= 9 by {
            lemma_box_cell(x, k);
        }
        lemma_nine_distinct_digits(v, pos);
    }
}

/// A digit 1 to 9 is written back as the character it was read from.
proof fn lemma_digit_char(c: char)
    requires
        is_digit_char(c),
        c != '0',
    ensures
        cell_char(parsed_cell(c)) == c,
{
    let n = (c as u32 - 48) as u8;
    assert(n as u32 + 48 == c as u32);
    assert(((n as int + 48) as u8) as char == c);
}

/// Reading a text of 81 digits 1 to 9 and writing the grid back gives the same text.
pub proof fn lemma_round_trip(s: Seq<char>)
    requires
        valid_input(s),
        forall|i: int| 0 <= i < 81 ==> #[trigger] s[i] != '0',
    ensures
        serialized(parsed(s)) == s,
{
    assert forall|i: int| 0 <= i < 81 implies #[trigger] serialized(parsed(s))[i] == s[i] by {
        lemma_digit_char(s[i]);
    }
    assert(serialized(parsed(s)) =~= s);
}

/// A grid whose 81 cells are all given, with no digit repeated in a region, is
/// solvable, and the only grid that completes it is itself: solving it succeeds
/// and leaves it unchanged.
pub proof fn lemma_full_grid_is_solved(g: Seq<SudokuCell>)
    requires
        grid_wf(g),
        forall|i: int| 0 <= i < 81 ==> #[trigger] g[i] is FixelCell,
        no_conflict(values(g)),
    ensures
        given(g) == g,
        solvable(given(g)),
        forall|h: Seq<SudokuCell>| completes(given(g), h) ==> h == g,
{
    assert(given(g) =~= g);
    assert forall|i: int| 0 <= i < 81 implies 1 <= #[trigger] values(g)[i] <= 9 by {
        assert(cell_wf(g[i]));
    }
    assert(is_solution(values(g)) && agrees(values(g), g));
    assert forall|h: Seq<SudokuCell>| completes(given(g), h) implies h == g by {
        assert(h =~= g);
    }
}

/// A puzzle text with exactly one solution, given as a text of 81 digits 1 to 9,
/// is solvable, and every grid that completes it without conflict is written back
/// as that text.
pub proof fn lemma_unique_solution_written(puzzle: Seq<char>, solution: Seq<char>)
    requires
        valid_input(puzzle),
        valid_input(solution),
        forall|i: int| 0 <= i < 81 ==> #[trigger] solution[i] != '0',
        is_solution(values(parsed(solution))),
        agrees(values(parsed(solution)), parsed(puzzle)),
        forall|t: Seq<int>|
            is_solution(t) && agrees(t, parsed(puzzle)) ==> t == values(parsed(solution)),
    ensures
        solvable(given(parsed(puzzle))),
        forall|g: Seq<SudokuCell>|
            completes(given(parsed(puzzle)), g) && is_solution(values(g)) ==> serialized(g)
                == solution,
{
    let p = parsed(puzzle);
    assert(given(p) =~= p);
    assert forall|g: Seq<SudokuCell>|
        completes(given(p), g) && is_solution(values(g)) implies serialized(g) == solution by {
        assert forall|i: int| 0 <= i < 81 && cell_value(#[trigger] p[i]) != 0 implies values(g)[i]
            == cell_value(p[i]) by {
            assert(is_digit_char(puzzle[i]));
        }
        assert(values(g) == values(parsed(solution)));
        assert forall|i: int| 0 <= i < 81 implies #[trigger] serialized(g)[i] == solution[i] by {
            lemma_digit_char(solution[i]);
            assert(values(g)[i] == values(parsed(solution))[i]);
            assert(!(g[i] is NullCell));
        }
        assert(serialized(g) =~= solution);
    }
}

/// Two givens of one region holding the same digit leave the puzzle without
/// solution: solving it reports failure.
pub proof fn lemma_clashing_givens_unsolvable(g: Seq<SudokuCell>, p: int, q: int)
    requires
        grid_wf(g),
        0 <= p < 81,
        0 <= q < 81,
        p != q,
        same_region(p, q),
        g[p] is FixelCell,
        g[q] is FixelCell,
        cell_value(g[p]) == cell_value(g[q]),
    ensures
        !solvable(given(g)),
{
    assert(cell_wf(g[p]));
    lemma_clash_unsolvable(given(g), p, q);
}

} // verus!
