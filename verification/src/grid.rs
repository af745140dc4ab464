//! The 9x9 grid and its accessors.
//!
//! A cell holds a digit 0..=9, where 0 means "empty". Cells are addressed by
//! a column `x` and a row `y`, both in 0..9, and stored row-major in a flat
//! array of 81 digits.

use vstd::prelude::*;

verus! {

/// A 9x9 Sudoku board: 81 digits in row-major order, 0 for an empty cell.
#[derive(Clone, Copy)]
pub struct Sudoku {
    pub grid: [u8; 81],
}

impl Sudoku {
    /// The digit at column `x`, row `y`, as a mathematical value.
    pub open spec fn cell(self, x: int, y: int) -> u8 {
        self.grid@[y * 9 + x]
    }

    /// Every cell holds a digit 0..=9.
    pub open spec fn wf(self) -> bool {
        forall|i: int| 0 <= i < 81 ==> self.grid@[i] <= 9
    }

    /// Row `y`, left to right.
    pub open spec fn spec_row(self, y: int) -> Seq<u8> {
        Seq::new(9, |x: int| self.cell(x, y))
    }

    /// Column `x`, top to bottom.
    pub open spec fn spec_column(self, x: int) -> Seq<u8> {
        Seq::new(9, |y: int| self.cell(x, y))
    }

    /// The 3x3 region with region-coordinates `rx`, `ry`, in row-major order
    /// within the block.
    pub open spec fn spec_region(self, rx: int, ry: int) -> Seq<u8> {
        Seq::new(9, |i: int| self.cell(rx * 3 + i % 3, ry * 3 + i / 3))
    }

    /// An all-empty board.
    pub fn new() -> (s: Self)
        ensures
            s.wf(),
            forall|x: int, y: int| 0 <= x < 9 && 0 <= y < 9 ==> s.cell(x, y) == 0,
    {
        Sudoku { grid: [0u8; 81] }
    }

    /// The digit at column `x`, row `y`.
    pub fn get(&self, x: usize, y: usize) -> (d: u8)
        requires
            x < 9,
            y < 9,
        ensures
            d == self.cell(x as int, y as int),
    {
        self.grid[y * 9 + x]
    }

    /// Stores `num` at column `x`, row `y`. Only a real digit may be placed:
    /// clearing a cell is not supported through this entry point.
    pub fn set(&mut self, x: usize, y: usize, num: u8)
        requires
            x < 9,
            y < 9,
            1 <= num <= 9,
        ensures
            final(self).grid@ == old(self).grid@.update(y * 9 + x, num),
            final(self).cell(x as int, y as int) == num,
            forall|x2: int, y2: int|
                0 <= x2 < 9 && 0 <= y2 < 9 && !(x2 == x && y2 == y) ==> final(self).cell(x2, y2)
                    == old(self).cell(x2, y2),
            old(self).wf() ==> final(self).wf(),
    {
        self.grid[y * 9 + x] = num;
    }

    /// A mutable borrow of the cell at column `x`, row `y`.
    pub fn get_mut(&mut self, x: usize, y: usize) -> (cell: &mut u8)
        requires
            x < 9,
            y < 9,
        ensures
            *cell == old(self).cell(x as int, y as int),
            final(self).grid@ == old(self).grid@.update(y * 9 + x, *final(cell)),
    {
        &mut self.grid[y * 9 + x]
    }

    /// The nine digits of row `y`, left to right.
    pub fn get_row(&self, y: usize) -> (r: Vec<u8>)
        requires
            y < 9,
        ensures
            r@ == self.spec_row(y as int),
    {
        let mut r: Vec<u8> = Vec::new();
        let mut x: usize = 0;
        while x < 9
            invariant
                y < 9,
                x <= 9,
                r@.len() == x,
                forall|k: int| 0 <= k < x ==> r@[k] == self.cell(k, y as int),
            decreases 9 - x,
        {
            r.push(self.get(x, y));
            x += 1;
        }
        proof {
            assert(r@ =~= self.spec_row(y as int));
        }
        r
    }

    /// The nine digits of column `x`, top to bottom.
    pub fn get_column(&self, x: usize) -> (r: Vec<u8>)
        requires
            x < 9,
        ensures
            r@ == self.spec_column(x as int),
    {
        let mut r: Vec<u8> = Vec::new();
        let mut y: usize = 0;
        while y < 9
            invariant
                x < 9,
                y <= 9,
                r@.len() == y,
                forall|k: int| 0 <= k < y ==> r@[k] == self.cell(x as int, k),
            decreases 9 - y,
        {
            r.push(self.get(x, y));
            y += 1;
        }
        proof {
            assert(r@ =~= self.spec_column(x as int));
        }
        r
    }

    /// The nine digits of the 3x3 region with region-coordinates `rx`, `ry`,
    /// in row-major order within the block.
    pub fn get_region(&self, rx: usize, ry: usize) -> (r: Vec<u8>)
        requires
            rx < 3,
            ry < 3,
        ensures
            r@ == self.spec_region(rx as int, ry as int),
    {
        let x0 = rx * 3;
        let y0 = ry * 3;
        let mut r: Vec<u8> = Vec::new();
        let mut i: usize = 0;
        while i < 9
            invariant
                rx < 3,
                ry < 3,
                x0 == rx * 3,
                y0 == ry * 3,
                i <= 9,
                r@.len() == i,
                forall|k: int|
                    0 <= k < i ==> r@[k] == self.cell(rx * 3 + k % 3, ry * 3 + k / 3),
            decreases 9 - i,
        {
            r.push(self.get(x0 + i % 3, y0 + i / 3));
            i += 1;
        }
        proof {
            assert(r@ =~= self.spec_region(rx as int, ry as int));
        }
        r
    }

    /// The nine digits of the region containing the cell at column `x`,
    /// row `y`.
    pub fn get_region_of(&self, x: usize, y: usize) -> (r: Vec<u8>)
        requires
            x < 9,
            y < 9,
        ensures
            r@ == self.spec_region(x as int / 3, y as int / 3),
    {
        self.get_region(x / 3, y / 3)
    }
}

} // verus!
