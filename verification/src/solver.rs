//! The backtracking solver: empty-cell scan, candidate generation, and the
//! recursive search, proved sound and complete.

use crate::grid::Sudoku;
use crate::validate::{
    spec_consistent, spec_faithful, spec_full, spec_has_dup, spec_solution_to,
};
use vstd::prelude::*;

verus! {

/// Every cell that comes strictly before column `x`, row `y` in row-major
/// scan order is filled.
pub open spec fn spec_empty_before(s: Sudoku, x: int, y: int) -> bool {
    forall|x2: int, y2: int|
        0 <= x2 < 9 && 0 <= y2 < 9 && y2 * 9 + x2 < y * 9 + x ==> s.cell(x2, y2) != 0
}

/// Digit `d` may be placed at column `x`, row `y`: it is a digit 1..=9 that
/// appears in neither the cell's row, nor its column, nor its region.
pub open spec fn spec_candidate(s: Sudoku, x: int, y: int, d: u8) -> bool {
    1 <= d <= 9 && !s.spec_row(y).contains(d) && !s.spec_column(x).contains(d) && !s.spec_region(
        x / 3,
        y / 3,
    ).contains(d)
}

/// The first empty cell in row-major scan order (row 0 first, and within a
/// row column 0 first), or `None` when the grid is full.
pub fn find_next_empty_cell(sudoku: &Sudoku) -> (r: Option<(usize, usize)>)
    ensures
        match r {
            Some(p) => p.0 < 9 && p.1 < 9 && sudoku.cell(p.0 as int, p.1 as int) == 0
                && spec_empty_before(*sudoku, p.0 as int, p.1 as int),
            None => spec_full(*sudoku),
        },
{
    let mut y: usize = 0;
    while y < 9
        invariant
            y <= 9,
            forall|x2: int, y2: int| 0 <= x2 < 9 && 0 <= y2 < y ==> sudoku.cell(x2, y2) != 0,
        decreases 9 - y,
    {
        let mut x: usize = 0;
        while x < 9
            invariant
                y < 9,
                x <= 9,
                forall|x2: int, y2: int| 0 <= x2 < 9 && 0 <= y2 < y ==> sudoku.cell(x2, y2) != 0,
                forall|x2: int| 0 <= x2 < x ==> sudoku.cell(x2, y as int) != 0,
            decreases 9 - x,
        {
            if sudoku.get(x, y) == 0 {
                return Some((x, y));
            }
            x += 1;
        }
        y += 1;
    }
    None
}

/// True iff `slice` holds the digit `d`.
fn slice_contains(slice: &[u8], d: u8) -> (r: bool)
    ensures
        r == slice@.contains(d),
{
    let len = slice.len();
    let mut i: usize = 0;
    while i < len
        invariant
            len == slice@.len(),
            i <= len,
            forall|a: int| 0 <= a < i ==> slice@[a] != d,
        decreases len - i,
    {
        if slice[i] == d {
            proof {
                assert(slice@[i as int] == d);
            }
            return true;
        }
        i += 1;
    }
    proof {
        assert(!slice@.contains(d));
    }
    false
}

/// The number of empty cells among the first `n` cells in row-major order.
pub open spec fn spec_empty_up_to(s: Sudoku, n: int) -> nat
    decreases n,
{
    if n <= 0 {
        0
    } else {
        spec_empty_up_to(s, n - 1) + (if s.grid@[n - 1] == 0 {
            1nat
        } else {
            0nat
        })
    }
}

/// The number of empty cells of the grid.
pub open spec fn spec_empty_count(s: Sudoku) -> nat {
    spec_empty_up_to(s, 81)
}

/// Filling one empty cell removes exactly one cell from the count of the
/// first `n` cells.
proof fn lemma_empty_up_to_update(s: Sudoku, s2: Sudoku, k: int, d: u8, n: int)
    requires
        0 <= k < 81,
        s.grid@.len() == 81,
        s2.grid@ == s.grid@.update(k, d),
        s.grid@[k] == 0,
        d != 0,
        0 <= n <= 81,
    ensures
        spec_empty_up_to(s2, n) + (if k < n {
            1nat
        } else {
            0nat
        }) == spec_empty_up_to(s, n),
    decreases n,
{
    if n > 0 {
        lemma_empty_up_to_update(s, s2, k, d, n - 1);
    }
}

/// Filling one empty cell strictly decreases the number of empty cells.
proof fn lemma_place_decreases(s: Sudoku, s2: Sudoku, k: int, d: u8)
    requires
        0 <= k < 81,
        s.grid@.len() == 81,
        s2.grid@ == s.grid@.update(k, d),
        s.grid@[k] == 0,
        d != 0,
    ensures
        spec_empty_count(s2) < spec_empty_count(s),
{
    lemma_empty_up_to_update(s, s2, k, d, 81);
}

/// Updating the one empty position of a duplicate-free sequence with a digit
/// the sequence does not hold keeps it duplicate-free.
proof fn lemma_update_no_dup(s: Seq<u8>, pos: int, d: u8)
    requires
        s.len() == 9,
        0 <= pos < 9,
        s[pos] == 0,
        !spec_has_dup(s),
        d != 0,
        !s.contains(d),
    ensures
        !spec_has_dup(s.update(pos, d)),
{
    let t = s.update(pos, d);
    assert forall|i: int, j: int| 0 <= i < j < 9 implies !(t[i] != 0 && t[i] == t[j]) by {
        if i == pos {
            if t[j] == d {
                assert(s.contains(d)) by {
                    assert(s[j] == d);
                }
            }
        } else if j == pos {
            if t[i] != 0 && t[i] == d {
                assert(s.contains(d)) by {
                    assert(s[i] == d);
                }
            }
        } else {
            if t[i] != 0 && t[i] == t[j] {
                assert(spec_has_dup(s)) by {
                    assert(0 <= i < j < 9 && s[i] != 0 && s[i] == s[j]);
                }
            }
        }
    }
}

/// Placing a candidate digit in an empty cell of a consistent grid leaves
/// the grid consistent.
proof fn lemma_place_preserves_consistent(s: Sudoku, s2: Sudoku, x: int, y: int, d: u8)
    requires
        0 <= x < 9,
        0 <= y < 9,
        s.cell(x, y) == 0,
        s2.cell(x, y) == d,
        forall|x2: int, y2: int|
            0 <= x2 < 9 && 0 <= y2 < 9 && !(x2 == x && y2 == y) ==> s2.cell(x2, y2) == s.cell(
                x2,
                y2,
            ),
        spec_consistent(s),
        spec_candidate(s, x, y, d),
    ensures
        spec_consistent(s2),
{
    // Rows: only row y changes, and only at position x.
    assert forall|y2: int| 0 <= y2 < 9 implies !spec_has_dup(#[trigger] s2.spec_row(y2)) by {
        if y2 == y {
            assert(s2.spec_row(y) =~= s.spec_row(y).update(x, d));
            lemma_update_no_dup(s.spec_row(y), x, d);
        } else {
            assert(s2.spec_row(y2) =~= s.spec_row(y2));
        }
    }
    // Columns: only column x changes, and only at position y.
    assert forall|x2: int| 0 <= x2 < 9 implies !spec_has_dup(#[trigger] s2.spec_column(x2)) by {
        if x2 == x {
            assert(s2.spec_column(x) =~= s.spec_column(x).update(y, d));
            lemma_update_no_dup(s.spec_column(x), y, d);
        } else {
            assert(s2.spec_column(x2) =~= s.spec_column(x2));
        }
    }
    // Regions: only the region of (x, y) changes, at its in-block position.
    let rx = x / 3;
    let ry = y / 3;
    let pos = (y % 3) * 3 + (x % 3);
    assert forall|rx2: int, ry2: int| 0 <= rx2 < 3 && 0 <= ry2 < 3 implies !spec_has_dup(
        #[trigger] s2.spec_region(rx2, ry2),
    ) by {
        if rx2 == rx && ry2 == ry {
            assert(rx * 3 + pos % 3 == x && ry * 3 + pos / 3 == y);
            assert forall|i: int| 0 <= i < 9 implies (#[trigger] s2.spec_region(rx, ry)[i])
                == s.spec_region(rx, ry).update(pos, d)[i] by {
                let cx = rx * 3 + i % 3;
                let cy = ry * 3 + i / 3;
                assert(0 <= cx < 9 && 0 <= cy < 9);
                if i == pos {
                    assert(cx == x && cy == y);
                } else {
                    assert(i == (i / 3) * 3 + i % 3);
                    assert(!(cx == x && cy == y));
                    assert(s2.cell(cx, cy) == s.cell(cx, cy));
                }
            }
            assert(s2.spec_region(rx, ry) =~= s.spec_region(rx, ry).update(pos, d));
            lemma_update_no_dup(s.spec_region(rx, ry), pos, d);
        } else {
            assert forall|i: int| 0 <= i < 9 implies (#[trigger] s2.spec_region(rx2, ry2)[i])
                == s.spec_region(rx2, ry2)[i] by {
                let cx = rx2 * 3 + i % 3;
                let cy = ry2 * 3 + i / 3;
                assert(0 <= cx < 9 && 0 <= cy < 9);
                assert(cx / 3 == rx2 && cy / 3 == ry2);
                assert(x / 3 == rx && y / 3 == ry);
                assert(!(cx == x && cy == y));
                assert(s2.cell(cx, cy) == s.cell(cx, cy));
            }
            assert(s2.spec_region(rx2, ry2) =~= s.spec_region(rx2, ry2));
        }
    }
}

/// In a grid that solves `s`, the digit standing where `s` has an empty cell
/// is a candidate of `s` at that cell.
proof fn lemma_solution_digit_is_candidate(s: Sudoku, g: Sudoku, x: int, y: int)
    requires
        0 <= x < 9,
        0 <= y < 9,
        s.cell(x, y) == 0,
        g.wf(),
        spec_solution_to(s, g),
    ensures
        spec_candidate(s, x, y, g.cell(x, y)),
{
    let d = g.cell(x, y);
    assert(d != 0);
    assert(d <= 9) by {
        assert(g.grid@[y * 9 + x] <= 9);
    }
    assert(!s.spec_row(y).contains(d)) by {
        if s.spec_row(y).contains(d) {
            let x2 = choose|x2: int| 0 <= x2 < 9 && s.spec_row(y)[x2] == d;
            assert(s.cell(x2, y) == d);
            assert(g.cell(x2, y) == d);
            assert(x2 != x);
            let row = g.spec_row(y);
            assert(row[x] == d && row[x2] == d);
            assert(spec_has_dup(row)) by {
                if x < x2 {
                    assert(0 <= x < x2 < 9 && row[x] != 0 && row[x] == row[x2]);
                } else {
                    assert(0 <= x2 < x < 9 && row[x2] != 0 && row[x2] == row[x]);
                }
            }
        }
    }
    assert(!s.spec_column(x).contains(d)) by {
        if s.spec_column(x).contains(d) {
            let y2 = choose|y2: int| 0 <= y2 < 9 && s.spec_column(x)[y2] == d;
            assert(s.cell(x, y2) == d);
            assert(g.cell(x, y2) == d);
            assert(y2 != y);
            let col = g.spec_column(x);
            assert(col[y] == d && col[y2] == d);
            assert(spec_has_dup(col)) by {
                if y < y2 {
                    assert(0 <= y < y2 < 9 && col[y] != 0 && col[y] == col[y2]);
                } else {
                    assert(0 <= y2 < y < 9 && col[y2] != 0 && col[y2] == col[y]);
                }
            }
        }
    }
    let rx = x / 3;
    let ry = y / 3;
    let pos = (y % 3) * 3 + (x % 3);
    assert(rx * 3 + pos % 3 == x && ry * 3 + pos / 3 == y);
    assert(!s.spec_region(rx, ry).contains(d)) by {
        if s.spec_region(rx, ry).contains(d) {
            let i = choose|i: int| 0 <= i < 9 && s.spec_region(rx, ry)[i] == d;
            let cx = rx * 3 + i % 3;
            let cy = ry * 3 + i / 3;
            assert(s.cell(cx, cy) == d);
            assert(0 <= cx < 9 && 0 <= cy < 9);
            assert(g.cell(cx, cy) == d);
            assert(!(cx == x && cy == y));
            assert(i != pos) by {
                assert(i == (i / 3) * 3 + i % 3);
            }
            let reg = g.spec_region(rx, ry);
            assert(reg[pos] == d && reg[i] == d);
            assert(spec_has_dup(reg)) by {
                if pos < i {
                    assert(0 <= pos < i < 9 && reg[pos] != 0 && reg[pos] == reg[i]);
                } else {
                    assert(0 <= i < pos < 9 && reg[i] != 0 && reg[i] == reg[pos]);
                }
            }
        }
    }
}

/// All digits that may be placed at column `x`, row `y`, in strictly
/// ascending order: exactly the complement, within 1..=9, of the digits
/// already present in the cell's row, column, and region.
pub fn find_valid_numbers(sudoku: &Sudoku, x: usize, y: usize) -> (r: Vec<u8>)
    requires
        x < 9,
        y < 9,
    ensures
        forall|i: int, j: int| 0 <= i < j < r@.len() ==> r@[i] < r@[j],
        forall|d: u8| #[trigger]
            r@.contains(d) <==> spec_candidate(*sudoku, x as int, y as int, d),
{
    let row = sudoku.get_row(y);
    let col = sudoku.get_column(x);
    let reg = sudoku.get_region_of(x, y);
    let mut r: Vec<u8> = Vec::new();
    let mut n: u8 = 1;
    while n <= 9
        invariant
            x < 9,
            y < 9,
            1 <= n <= 10,
            row@ == sudoku.spec_row(y as int),
            col@ == sudoku.spec_column(x as int),
            reg@ == sudoku.spec_region(x as int / 3, y as int / 3),
            forall|i: int|
                0 <= i < r@.len() ==> r@[i] < n && spec_candidate(
                    *sudoku,
                    x as int,
                    y as int,
                    #[trigger] r@[i],
                ),
            forall|i: int, j: int| 0 <= i < j < r@.len() ==> r@[i] < r@[j],
            forall|d: u8|
                spec_candidate(*sudoku, x as int, y as int, d) && d < n ==> #[trigger] r@.contains(
                    d,
                ),
        decreases 10 - n,
    {
        if !slice_contains(row.as_slice(), n) && !slice_contains(col.as_slice(), n)
            && !slice_contains(reg.as_slice(), n) {
            let ghost prev = r@;
            r.push(n);
            proof {
                assert forall|d: u8|
                    spec_candidate(*sudoku, x as int, y as int, d) && d < n + 1 implies #[trigger] r@.contains(
                    d,
                ) by {
                    if d < n {
                        assert(prev.contains(d));
                        let idx = choose|idx: int| 0 <= idx < prev.len() && prev[idx] == d;
                        assert(r@[idx] == d);
                    } else {
                        assert(r@[r@.len() - 1] == d);
                    }
                }
            }
        }
        n += 1;
    }
    proof {
        assert forall|d: u8| #[trigger]
            r@.contains(d) implies spec_candidate(*sudoku, x as int, y as int, d) by {
            let idx = choose|idx: int| 0 <= idx < r@.len() && r@[idx] == d;
            assert(spec_candidate(*sudoku, x as int, y as int, r@[idx]));
        }
    }
    r
}

/// Solves the puzzle by backtracking: scans for the first empty cell in
/// row-major order, tries its candidate digits in ascending order on an
/// independent copy of the grid, and recurses; the first success wins.
///
/// The result is sound and complete: a returned grid solves the puzzle, and
/// `None` comes back only when no well-formed grid solves it.
pub fn solve(sudoku: &Sudoku) -> (r: Option<Sudoku>)
    requires
        sudoku.wf(),
        spec_consistent(*sudoku),
    ensures
        match r {
            Some(sol) => sol.wf() && spec_solution_to(*sudoku, sol),
            None => forall|g: Sudoku| g.wf() ==> !spec_solution_to(*sudoku, g),
        },
    decreases spec_empty_count(*sudoku),
{
    match find_next_empty_cell(sudoku) {
        Some((x, y)) => {
            let nums = find_valid_numbers(sudoku, x, y);
            let mut k: usize = 0;
            while k < nums.len()
                invariant
                    x < 9,
                    y < 9,
                    sudoku.wf(),
                    spec_consistent(*sudoku),
                    sudoku.cell(x as int, y as int) == 0,
                    k <= nums@.len(),
                    forall|d: u8| #[trigger]
                        nums@.contains(d) <==> spec_candidate(*sudoku, x as int, y as int, d),
                    forall|g: Sudoku, i: int|
                        #![trigger spec_solution_to(*sudoku, g), nums@[i]]
                        g.wf() && spec_solution_to(*sudoku, g) && 0 <= i < k ==> nums@[i]
                            != g.cell(x as int, y as int),
                decreases nums@.len() - k,
            {
                let num = nums[k];
                proof {
                    assert(nums@.contains(num)) by {
                        assert(nums@[k as int] == num);
                    }
                    assert(spec_candidate(*sudoku, x as int, y as int, num));
                }
                let mut new_sudoku = sudoku.clone();
                new_sudoku.set(x, y, num);
                proof {
                    lemma_place_preserves_consistent(
                        *sudoku,
                        new_sudoku,
                        x as int,
                        y as int,
                        num,
                    );
                    lemma_place_decreases(*sudoku, new_sudoku, y * 9 + x, num);
                }
                match solve(&new_sudoku) {
                    Some(solved) => {
                        proof {
                            assert forall|x2: int, y2: int|
                                0 <= x2 < 9 && 0 <= y2 < 9 implies sudoku.cell(x2, y2) == 0
                                || sudoku.cell(x2, y2) == solved.cell(x2, y2) by {
                                if sudoku.cell(x2, y2) != 0 {
                                    assert(!(x2 == x && y2 == y));
                                    assert(new_sudoku.cell(x2, y2) == sudoku.cell(x2, y2));
                                }
                            }
                        }
                        return Some(solved);
                    },
                    None => {
                        proof {
                            assert forall|g: Sudoku|
                                g.wf() && spec_solution_to(*sudoku, g) implies nums@[k as int]
                                != g.cell(x as int, y as int) by {
                                if g.cell(x as int, y as int) == num {
                                    assert forall|x2: int, y2: int|
                                        0 <= x2 < 9 && 0 <= y2 < 9 implies new_sudoku.cell(x2, y2)
                                        == 0 || new_sudoku.cell(x2, y2) == g.cell(x2, y2) by {
                                        if !(x2 == x && y2 == y) {
                                            assert(new_sudoku.cell(x2, y2) == sudoku.cell(
                                                x2,
                                                y2,
                                            ));
                                        }
                                    }
                                    assert(spec_solution_to(new_sudoku, g));
                                }
                            }
                        }
                    },
                }
                k += 1;
            }
            proof {
                assert forall|g: Sudoku| g.wf() implies !spec_solution_to(*sudoku, g) by {
                    if spec_solution_to(*sudoku, g) {
                        lemma_solution_digit_is_candidate(*sudoku, g, x as int, y as int);
                        let d = g.cell(x as int, y as int);
                        assert(nums@.contains(d));
                        let i = choose|i: int| 0 <= i < nums@.len() && nums@[i] == d;
                        assert(nums@[i] != d);
                    }
                }
            }
            None
        },
        None => {
            proof {
                assert(spec_faithful(*sudoku, *sudoku));
            }
            Some(sudoku.clone())
        },
    }
}

} // verus!
