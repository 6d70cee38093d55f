//! The linear scan pointer that sequences the search: an index in
//! `0..81` plus a direction flag.

use vstd::prelude::*;

verus! {

/// The row of a cell index.
pub open spec fn row_of(i: int) -> int {
    i / 9
}

/// The column of a cell index.
pub open spec fn col_of(i: int) -> int {
    i % 9
}

/// The 3x3 block of a cell index.
pub open spec fn blk_of(i: int) -> int {
    (i / 9 / 3) * 3 + (i % 9) / 3
}

/// The house of kind `k` (row, column or block) that a cell belongs to.
pub open spec fn house_of(k: int, i: int) -> int {
    if k == 0 {
        row_of(i)
    } else if k == 1 {
        col_of(i)
    } else {
        blk_of(i)
    }
}

/// The scan pointer: a cell index and the direction of the last step.
#[derive(Clone, Copy, Debug)]
pub struct Cursor {
    pub index: usize,
    pub forward: bool,
}

/// A step over either conceptual end of the scan.
#[derive(Clone, Copy, Debug)]
pub enum CursorError {
    BeforeBegin,
    AfterEnd,
}

impl Cursor {
    /// The initial pointer: the first cell, moving forward.
    pub fn new() -> (c: Cursor)
        ensures
            c.index == 0,
            c.forward,
    {
        Cursor { index: 0, forward: true }
    }

    /// The row, column and block of the cell under the pointer.
    pub fn item(&self) -> (r: (usize, usize, usize))
        requires
            self.index < 81,
        ensures
            r.0 < 9 && r.0 as int == row_of(self.index as int),
            r.1 < 9 && r.1 as int == col_of(self.index as int),
            r.2 < 9 && r.2 as int == blk_of(self.index as int),
    {
        let row = self.index / 9;
        let col = self.index % 9;
        let blk = (row / 3) * 3 + col / 3;
        (row, col, blk)
    }

    /// One step forward. At the last cell the direction turns backward
    /// and the step fails, leaving the index unchanged.
    pub fn next(&mut self) -> (r: Result<(), CursorError>)
        requires
            old(self).index < 81,
        ensures
            old(self).index == 80 ==> r == Err::<(), CursorError>(CursorError::AfterEnd)
                && final(self).index == 80 && !final(self).forward,
            old(self).index < 80 ==> r == Ok::<(), CursorError>(())
                && final(self).index == old(self).index + 1 && final(self).forward,
    {
        if self.index == 80 {
            self.forward = false;
            return Err(CursorError::AfterEnd);
        }
        self.index = self.index + 1;
        self.forward = true;
        Ok(())
    }

    /// One step backward. At the first cell the direction turns forward
    /// and the step fails, leaving the index unchanged.
    pub fn prev(&mut self) -> (r: Result<(), CursorError>)
        ensures
            old(self).index == 0 ==> r == Err::<(), CursorError>(CursorError::BeforeBegin)
                && final(self).index == 0 && final(self).forward,
            old(self).index > 0 ==> r == Ok::<(), CursorError>(())
                && final(self).index == old(self).index - 1 && !final(self).forward,
    {
        if self.index == 0 {
            self.forward = true;
            return Err(CursorError::BeforeBegin);
        }
        self.index = self.index - 1;
        self.forward = false;
        Ok(())
    }

    /// One step in the current direction, used to pass over a given cell
    /// without disturbing the scan.
    pub fn skip(&mut self) -> (r: Result<(), CursorError>)
        requires
            old(self).index < 81,
        ensures
            old(self).forward && old(self).index == 80 ==> r == Err::<(), CursorError>(CursorError::AfterEnd)
                && final(self).index == 80 && !final(self).forward,
            old(self).forward && old(self).index < 80 ==> r == Ok::<(), CursorError>(())
                && final(self).index == old(self).index + 1 && final(self).forward,
            !old(self).forward && old(self).index == 0 ==> r == Err::<(), CursorError>(CursorError::BeforeBegin)
                && final(self).index == 0 && final(self).forward,
            !old(self).forward && old(self).index > 0 ==> r == Ok::<(), CursorError>(())
                && final(self).index == old(self).index - 1 && !final(self).forward,
    {
        if self.forward {
            self.next()
        } else {
            self.prev()
        }
    }
}

impl Default for Cursor {
    /// The initial pointer.
    fn default() -> (c: Cursor)
        ensures
            c.index == 0,
            c.forward,
    {
        Cursor::new()
    }
}

} // verus!
