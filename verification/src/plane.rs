//! A grid of plain values held in one row-major vector.

use vstd::prelude::*;
use crate::grid::Grid;
use crate::grid::lemma_flat_in_range;
use crate::grid::lemma_from_flat_update;

verus! {

/// A `width` by `height` grid of `T`. Its view is the [`Grid`] of its values.
pub struct Plane<T> {
    width: u32,
    height: u32,
    cells: Vec<T>,
}

impl<T> View for Plane<T> {
    type V = Grid<T>;

    closed spec fn view(&self) -> Grid<T> {
        Grid::from_flat(self.width as int, self.height as int, self.cells@)
    }
}

impl<T> Plane<T> {
    #[verifier::type_invariant]
    spec fn inv(self) -> bool {
        &&& self.cells@.len() == self.width * self.height
        &&& self.cells@.len() <= usize::MAX
    }
}

impl<T: Copy> Plane<T> {
    /// The grid that holds `value` everywhere.
    pub fn filled(width: u32, height: u32, value: T) -> (p: Plane<T>)
        requires
            width * height <= usize::MAX,
        ensures
            p@ == Grid::build(width as int, height as int, |x: int, y: int| value),
    {
        assert(width * height <= 0xffff_ffff * 0xffff_ffff) by (nonlinear_arith)
            requires
                0 <= width <= 0xffff_ffff,
                0 <= height <= 0xffff_ffff,
        ;
        let total: u64 = (width as u64) * (height as u64);
        let mut cells: Vec<T> = Vec::new();
        let mut n: u64 = 0;
        while n < total
            invariant
                n <= total,
                cells@.len() == n,
                forall|i: int| 0 <= i < n ==> cells@[i] == value,
            decreases total - n,
        {
            cells.push(value);
            n = n + 1;
        }
        let p = Plane { width, height, cells };
        proof {
            let goal = Grid::build(width as int, height as int, |x: int, y: int| value);
            assert forall|j: int| 0 <= j < height implies #[trigger] p@.rows[j] =~= goal.rows[j] by {
                assert forall|i: int| 0 <= i < width implies p@.rows[j][i] == value by {
                    lemma_flat_in_range(width as int, height as int, i, j);
                }
            }
            assert(p@ =~~= goal);
        }
        p
    }

    /// Builds a grid from its values in row-major order; `None` unless there
    /// are exactly `width * height` of them.
    pub fn from_cells(width: u32, height: u32, cells: Vec<T>) -> (r: Option<Plane<T>>)
        ensures
            r.is_some() == (cells@.len() == width * height),
            r matches Some(p) ==> p@ == Grid::from_flat(width as int, height as int, cells@),
    {
        assert(width * height <= 0xffff_ffff * 0xffff_ffff) by (nonlinear_arith)
            requires
                0 <= width <= 0xffff_ffff,
                0 <= height <= 0xffff_ffff,
        ;
        let total: u64 = (width as u64) * (height as u64);
        if cells.len() as u64 != total {
            return None;
        }
        Some(Plane { width, height, cells })
    }

    /// The number of columns.
    pub fn width(&self) -> (w: u32)
        ensures
            w == self@.width,
            self@.wf(),
            self@.width * self@.height <= usize::MAX,
    {
        proof {
            use_type_invariant(self);
        }
        self.width
    }

    /// The number of rows.
    pub fn height(&self) -> (h: u32)
        ensures
            h == self@.height,
            self@.wf(),
            self@.width * self@.height <= usize::MAX,
    {
        proof {
            use_type_invariant(self);
        }
        self.height
    }

    /// The value at `(x, y)`.
    pub fn get(&self, x: u32, y: u32) -> (v: T)
        requires
            self@.contains(x as int, y as int),
        ensures
            v == self@.at(x as int, y as int),
    {
        proof {
            use_type_invariant(self);
            lemma_flat_in_range(self.width as int, self.height as int, x as int, y as int);
            assert(y * self.width <= self.width * self.height) by (nonlinear_arith)
                requires
                    0 <= y < self.height,
                    0 <= self.width,
            ;
        }
        let i: usize = (y as usize) * (self.width as usize) + (x as usize);
        self.cells[i]
    }

    /// Replaces the value at `(x, y)`.
    pub fn set(&mut self, x: u32, y: u32, v: T)
        requires
            old(self)@.contains(x as int, y as int),
        ensures
            final(self)@ == old(self)@.put(x as int, y as int, v),
    {
        proof {
            use_type_invariant(&*self);
            lemma_flat_in_range(self.width as int, self.height as int, x as int, y as int);
            lemma_from_flat_update(
                self.width as int,
                self.height as int,
                self.cells@,
                x as int,
                y as int,
                v,
            );
            assert(y * self.width <= self.width * self.height) by (nonlinear_arith)
                requires
                    0 <= y < self.height,
                    0 <= self.width,
            ;
        }
        let i: usize = (y as usize) * (self.width as usize) + (x as usize);
        self.cells[i] = v;
    }
}

} // verus!
