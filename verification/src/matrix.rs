//! Board geometry: dimensions and lane walkers.
//!
//! A board is a flat array of `rows * cols` tile codes.  A strider walks one
//! row (across) or one column (down) and translates a position along the
//! lane into a flat board offset.

use vstd::prelude::*;

verus! {

/// Board dimensions.  Boards are square-ish and at most 21 cells a side.
#[derive(Clone, Copy, Debug, PartialEq, Eq, Structural)]
pub struct Dim {
    pub rows: u8,
    pub cols: u8,
}

/// A directed walk along one row or one column.
#[derive(Clone, Copy, Debug, PartialEq, Eq, Structural)]
pub struct Strider {
    /// Walk a column instead of a row.
    pub down: bool,
    /// The row (across) or column (down) being walked.
    pub lane: u8,
    pub dim: Dim,
}

impl Dim {
    pub open spec fn wf(&self) -> bool {
        1 <= self.rows <= 21 && 1 <= self.cols <= 21
    }

    /// Number of cells on the board.
    pub open spec fn area(&self) -> int {
        self.rows * self.cols
    }

    /// The strider of row `row`.
    pub fn across(&self, row: u8) -> (r: Strider)
        requires
            self.wf(),
            row < self.rows,
        ensures
            r == (Strider { down: false, lane: row, dim: *self }),
    {
        Strider { down: false, lane: row, dim: *self }
    }

    /// The strider of column `col`.
    pub fn down(&self, col: u8) -> (r: Strider)
        requires
            self.wf(),
            col < self.cols,
        ensures
            r == (Strider { down: true, lane: col, dim: *self }),
    {
        Strider { down: true, lane: col, dim: *self }
    }

    /// Row `i` when `down` is false, else column `i`.
    pub fn lane(&self, down: bool, i: u8) -> (r: Strider)
        requires
            self.wf(),
            down ==> i < self.cols,
            !down ==> i < self.rows,
        ensures
            r == (Strider { down, lane: i, dim: *self }),
    {
        Strider { down, lane: i, dim: *self }
    }
}

impl Strider {
    pub open spec fn wf(&self) -> bool {
        &&& self.dim.wf()
        &&& if self.down {
            self.lane < self.dim.cols
        } else {
            self.lane < self.dim.rows
        }
    }

    /// Number of cells along the lane.
    pub open spec fn len_spec(&self) -> int {
        if self.down {
            self.dim.rows as int
        } else {
            self.dim.cols as int
        }
    }

    /// Flat board offset of the `i`-th cell of the lane.
    pub open spec fn at_spec(&self, i: int) -> int {
        if self.down {
            i * self.dim.cols + self.lane
        } else {
            self.lane * self.dim.cols + i
        }
    }

    pub fn len(&self) -> (r: u8)
        requires
            self.wf(),
        ensures
            r as int == self.len_spec(),
    {
        if self.down {
            self.dim.rows
        } else {
            self.dim.cols
        }
    }

    /// Flat offset of cell `i`; always inside the board.
    pub fn at(&self, i: u8) -> (r: usize)
        requires
            self.wf(),
            (i as int) < self.len_spec(),
        ensures
            r == self.at_spec(i as int),
            r < self.dim.area(),
    {
        proof {
            lemma_at_in_area(*self, i as int);
            assert(self.dim.rows * self.dim.cols <= 441) by (nonlinear_arith)
                requires
                    0 <= self.dim.rows <= 21,
                    0 <= self.dim.cols <= 21,
            ;
            if self.down {
                assert((i as int) * (self.dim.cols as int) <= self.at_spec(i as int));
            } else {
                assert((self.lane as int) * (self.dim.cols as int) <= self.at_spec(i as int));
            }
        }
        if self.down {
            (i as usize) * (self.dim.cols as usize) + (self.lane as usize)
        } else {
            (self.lane as usize) * (self.dim.cols as usize) + (i as usize)
        }
    }
}

/// A lane cell's flat offset lies inside the board.
pub proof fn lemma_at_in_area(s: Strider, i: int)
    requires
        s.wf(),
        0 <= i < s.len_spec(),
    ensures
        0 <= s.at_spec(i) < s.dim.area(),
{
    if s.down {
        assert(i * s.dim.cols + s.lane < s.dim.rows * s.dim.cols) by (nonlinear_arith)
            requires
                0 <= i,
                i < s.dim.rows,
                s.lane < s.dim.cols,
                s.dim.cols >= 1,
        ;
        assert(0 <= i * s.dim.cols) by (nonlinear_arith)
            requires
                0 <= i,
                0 <= s.dim.cols,
        ;
    } else {
        assert(s.lane * s.dim.cols + i < s.dim.rows * s.dim.cols) by (nonlinear_arith)
            requires
                0 <= s.lane,
                s.lane < s.dim.rows,
                i < s.dim.cols,
                s.dim.cols >= 1,
        ;
        assert(0 <= s.lane * s.dim.cols) by (nonlinear_arith)
            requires
                0 <= s.lane,
                0 <= s.dim.cols,
        ;
    }
}

/// Two cells of one lane have distinct flat offsets.
pub proof fn lemma_at_injective(s: Strider, i: int, j: int)
    requires
        s.wf(),
        0 <= i < s.len_spec(),
        0 <= j < s.len_spec(),
        i != j,
    ensures
        s.at_spec(i) != s.at_spec(j),
{
    if s.down {
        assert(i * s.dim.cols != j * s.dim.cols) by (nonlinear_arith)
            requires
                i != j,
                s.dim.cols >= 1,
        ;
        assert(i * s.dim.cols + s.lane != j * s.dim.cols + s.lane) by (nonlinear_arith)
            requires
                i != j,
                s.dim.cols >= 1,
        ;
    }
}

} // verus!
