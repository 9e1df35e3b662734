//! Dense two-dimensional occupancy table.
//!
//! Cells hold an agent identity (`u32`); the value 0 is the reserved "empty"
//! sentinel and never a valid identity.

use vstd::prelude::*;

verus! {

/// A dense `width x height` table of agent identities, stored row by row.
/// Cell value 0 means the cell is empty.
pub struct Grid2d {
    pub width: usize,
    pub height: usize,
    pub data: Vec<u32>,
}

impl Grid2d {
    /// The backing vector covers exactly the `width x height` cells.
    pub open spec fn wf(&self) -> bool {
        self.data@.len() == self.width * self.height
    }

    /// The value stored at in-bounds cell `(x, y)`.
    pub open spec fn cell(&self, x: int, y: int) -> u32 {
        self.data@[y * self.width + x]
    }

    /// An in-bounds cell that holds a non-zero identity.
    pub open spec fn occupied(&self, x: int, y: int) -> bool {
        0 <= x < self.width && 0 <= y < self.height && self.cell(x, y) != 0
    }

    pub fn new(width: usize, height: usize) -> (g: Self)
        requires
            width * height <= usize::MAX,
        ensures
            g.width == width,
            g.height == height,
            g.wf(),
            forall|x: int, y: int|
                0 <= x < width && 0 <= y < height ==> #[trigger] g.cell(x, y) == 0,
    {
        let n: usize = width * height;
        let mut data: Vec<u32> = Vec::new();
        let mut i: usize = 0;
        while i < n
            invariant
                i <= n,
                data@.len() == i,
                forall|k: int| 0 <= k < i ==> data@[k] == 0,
            decreases n - i,
        {
            data.push(0);
            i += 1;
        }
        let g = Grid2d { width, height, data };
        proof {
            assert forall|x: int, y: int|
                0 <= x < width && 0 <= y < height implies #[trigger] g.cell(x, y) == 0 by {
                lemma_index_in_range(x, y, width as int, height as int);
            }
        }
        g
    }

    pub fn get(&self, x: usize, y: usize) -> (r: Option<&u32>)
        requires
            self.wf(),
        ensures
            self.occupied(x as int, y as int) ==> (r matches Some(v) && *v == self.cell(
                x as int,
                y as int,
            )),
            !self.occupied(x as int, y as int) ==> r is None,
    {
        if x < self.width && y < self.height {
            // the table size fits a usize, so the row-major index cannot overflow
            let cell_count: usize = self.data.len();
            proof {
                lemma_index_in_range(x as int, y as int, self.width as int, self.height as int);
            }
            let idx: usize = y * self.width + x;
            let v: &u32 = &self.data[idx];
            if *v != 0 {
                Some(v)
            } else {
                None
            }
        } else {
            None
        }
    }

    pub fn get_mut(&mut self, x: usize, y: usize) -> (r: Option<&mut u32>)
        requires
            old(self).wf(),
        ensures
            x < old(self).width && y < old(self).height ==> (r matches Some(p) && *p == old(
                self,
            ).cell(x as int, y as int) && final(self).data@ == old(self).data@.update(
                y * old(self).width + x,
                *final(p),
            )),
            !(x < old(self).width && y < old(self).height) ==> r is None && *final(self) == *old(
                self,
            ),
            final(self).width == old(self).width,
            final(self).height == old(self).height,
    {
        if x < self.width && y < self.height {
            // the table size fits a usize, so the row-major index cannot overflow
            let cell_count: usize = self.data.len();
            proof {
                lemma_index_in_range(x as int, y as int, self.width as int, self.height as int);
            }
            let idx: usize = y * self.width + x;
            Some(&mut self.data[idx])
        } else {
            None
        }
    }

    /// Writes `value` into cell `(x, y)`; a write outside the table is ignored.
    pub fn set(&mut self, x: usize, y: usize, value: u32)
        requires
            old(self).wf(),
        ensures
            final(self).width == old(self).width,
            final(self).height == old(self).height,
            final(self).wf(),
            x < old(self).width && y < old(self).height ==> final(self).data@ == old(
                self,
            ).data@.update(y * old(self).width + x, value),
            !(x < old(self).width && y < old(self).height) ==> *final(self) == *old(self),
    {
        proof {
            if x < self.width && y < self.height {
                lemma_index_in_range(x as int, y as int, self.width as int, self.height as int);
            }
        }
        match self.get_mut(x, y) {
            Some(cell) => {
                *cell = value;
            },
            None => {},
        }
    }
}

/// Row-major indexing stays inside a `width x height` table.
pub proof fn lemma_index_in_range(x: int, y: int, width: int, height: int)
    requires
        0 <= x < width,
        0 <= y < height,
    ensures
        0 <= y * width + x < width * height,
{
    assert(0 <= y * width + x < width * height) by (nonlinear_arith)
        requires
            0 <= x < width,
            0 <= y < height,
    ;
}

} // verus!
