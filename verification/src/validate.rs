//! Validation predicates: what it means for a grid to be full, consistent,
//! solved, and a faithful solution of a given puzzle.

use crate::grid::Sudoku;
use vstd::prelude::*;

verus! {

/// Some nonzero digit occurs at two different positions of `s`. Empty cells
/// (zeros) are never duplicates of each other.
pub open spec fn spec_has_dup(s: Seq<u8>) -> bool {
    exists|i: int, j: int| 0 <= i < j < s.len() && s[i] != 0 && s[i] == s[j]
}

/// Every one of the 81 cells holds a nonzero digit.
pub open spec fn spec_full(s: Sudoku) -> bool {
    forall|x: int, y: int| 0 <= x < 9 && 0 <= y < 9 ==> s.cell(x, y) != 0
}

/// No row, column, or region contains a duplicate nonzero digit, however many
/// cells are still empty.
pub open spec fn spec_consistent(s: Sudoku) -> bool {
    (forall|y: int| 0 <= y < 9 ==> !spec_has_dup(#[trigger] s.spec_row(y)))
        && (forall|x: int| 0 <= x < 9 ==> !spec_has_dup(#[trigger] s.spec_column(x)))
        && (forall|rx: int, ry: int|
        0 <= rx < 3 && 0 <= ry < 3 ==> !spec_has_dup(#[trigger] s.spec_region(rx, ry)))
}

/// Full and consistent.
pub open spec fn spec_solved(s: Sudoku) -> bool {
    spec_full(s) && spec_consistent(s)
}

/// `solution` never overwrites a clue of `source`: wherever `source` holds a
/// nonzero digit, `solution` holds the same digit.
pub open spec fn spec_faithful(source: Sudoku, solution: Sudoku) -> bool {
    forall|x: int, y: int|
        0 <= x < 9 && 0 <= y < 9 ==> source.cell(x, y) == 0 || source.cell(x, y) == solution.cell(
            x,
            y,
        )
}

/// `solution` is a solved grid that keeps every clue of `source`.
pub open spec fn spec_solution_to(source: Sudoku, solution: Sudoku) -> bool {
    spec_faithful(source, solution) && spec_solved(solution)
}

/// True iff some nonzero digit appears more than once in `slice`.
pub fn contains_dup(slice: &[u8]) -> (r: bool)
    ensures
        r == spec_has_dup(slice@),
{
    let len = slice.len();
    let mut i: usize = 0;
    while i < len
        invariant
            len == slice@.len(),
            i <= len,
            forall|a: int, b: int| 0 <= a < b < i ==> !(slice@[b] != 0 && slice@[a] == slice@[b]),
        decreases len - i,
    {
        if slice[i] != 0 {
            let mut j: usize = 0;
            while j < i
                invariant
                    len == slice@.len(),
                    i < len,
                    j <= i,
                    slice@[i as int] != 0,
                    forall|a: int| 0 <= a < j ==> slice@[a] != slice@[i as int],
                decreases i - j,
            {
                if slice[j] == slice[i] {
                    proof {
                        assert(0 <= j < i < slice@.len() && slice@[j as int] != 0 && slice@[j as int]
                            == slice@[i as int]);
                    }
                    return true;
                }
                j += 1;
            }
        }
        i += 1;
    }
    false
}

/// True iff every one of the 81 cells holds a nonzero digit.
pub fn is_full(sudoku: &Sudoku) -> (r: bool)
    ensures
        r == spec_full(*sudoku),
{
    let mut y: usize = 0;
    while y < 9
        invariant
            y <= 9,
            forall|x2: int, y2: int| 0 <= x2 < 9 && 0 <= y2 < y ==> sudoku.cell(x2, y2) != 0,
        decreases 9 - y,
    {
        let mut x: usize = 0;
        while x < 9
            invariant
                y < 9,
                x <= 9,
                forall|x2: int, y2: int| 0 <= x2 < 9 && 0 <= y2 < y ==> sudoku.cell(x2, y2) != 0,
                forall|x2: int| 0 <= x2 < x ==> sudoku.cell(x2, y as int) != 0,
            decreases 9 - x,
        {
            if sudoku.get(x, y) == 0 {
                return false;
            }
            x += 1;
        }
        y += 1;
    }
    true
}

/// True iff no row, column, or region of `sudoku` contains a duplicate
/// nonzero digit.
pub fn is_true(sudoku: &Sudoku) -> (r: bool)
    ensures
        r == spec_consistent(*sudoku),
{
    let mut i: usize = 0;
    while i < 9
        invariant
            i <= 9,
            forall|k: int| 0 <= k < i ==> !spec_has_dup(#[trigger] sudoku.spec_row(k)),
            forall|k: int| 0 <= k < i ==> !spec_has_dup(#[trigger] sudoku.spec_column(k)),
            forall|k: int|
                0 <= k < i ==> !spec_has_dup(#[trigger] sudoku.spec_region(k % 3, k / 3)),
        decreases 9 - i,
    {
        let row = sudoku.get_row(i);
        let col = sudoku.get_column(i);
        let reg = sudoku.get_region(i % 3, i / 3);
        if contains_dup(row.as_slice()) || contains_dup(col.as_slice()) || contains_dup(
            reg.as_slice(),
        ) {
            return false;
        }
        i += 1;
    }
    proof {
        assert forall|rx: int, ry: int| 0 <= rx < 3 && 0 <= ry < 3 implies !spec_has_dup(
            #[trigger] sudoku.spec_region(rx, ry),
        ) by {
            let k = ry * 3 + rx;
            assert(k % 3 == rx && k / 3 == ry);
            assert(!spec_has_dup(sudoku.spec_region(k % 3, k / 3)));
        }
    }
    true
}

/// True iff `sudoku` is fully filled and consistent.
pub fn is_solved(sudoku: &Sudoku) -> (r: bool)
    ensures
        r == spec_solved(*sudoku),
{
    is_full(sudoku) && is_true(sudoku)
}

/// True iff `solution` keeps every nonzero clue of `source`.
pub fn is_true_to_source(source: &Sudoku, solution: &Sudoku) -> (r: bool)
    ensures
        r == spec_faithful(*source, *solution),
{
    let mut y: usize = 0;
    while y < 9
        invariant
            y <= 9,
            forall|x2: int, y2: int|
                0 <= x2 < 9 && 0 <= y2 < y ==> source.cell(x2, y2) == 0 || source.cell(x2, y2)
                    == solution.cell(x2, y2),
        decreases 9 - y,
    {
        let mut x: usize = 0;
        while x < 9
            invariant
                y < 9,
                x <= 9,
                forall|x2: int, y2: int|
                    0 <= x2 < 9 && 0 <= y2 < y ==> source.cell(x2, y2) == 0 || source.cell(x2, y2)
                        == solution.cell(x2, y2),
                forall|x2: int|
                    0 <= x2 < x ==> source.cell(x2, y as int) == 0 || source.cell(x2, y as int)
                        == solution.cell(x2, y as int),
            decreases 9 - x,
        {
            let cell = source.get(x, y);
            if cell != 0 && cell != solution.get(x, y) {
                return false;
            }
            x += 1;
        }
        y += 1;
    }
    true
}

/// True iff `solution` solves the puzzle `source`: it is fully filled,
/// consistent, and keeps every clue.
pub fn is_solution_to(source: &Sudoku, solution: &Sudoku) -> (r: bool)
    ensures
        r == spec_solution_to(*source, *solution),
{
    is_true_to_source(source, solution) && is_solved(solution)
}

/// Overwriting any single cell of a grid — a solved one in particular — with
/// a digit that already stands elsewhere in the same row leaves the grid
/// inconsistent.
pub proof fn lemma_row_duplicate_breaks_consistency(
    s: Sudoku,
    s2: Sudoku,
    x: int,
    y: int,
    x2: int,
    d: u8,
)
    requires
        0 <= x < 9,
        0 <= y < 9,
        0 <= x2 < 9,
        x2 != x,
        d != 0,
        s.cell(x2, y) == d,
        s2.grid@ == s.grid@.update(y * 9 + x, d),
        s.grid@.len() == 81,
    ensures
        !spec_consistent(s2),
{
    assert(s2.cell(x, y) == d);
    assert(s2.cell(x2, y) == d);
    let row = s2.spec_row(y);
    assert(row[x] == d && row[x2] == d);
    if x < x2 {
        assert(0 <= x < x2 < 9 && row[x] != 0 && row[x] == row[x2]);
    } else {
        assert(0 <= x2 < x < 9 && row[x2] != 0 && row[x2] == row[x]);
    }
    assert(spec_has_dup(row));
}

} // verus!
