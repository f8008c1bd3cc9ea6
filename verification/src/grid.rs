//! The mathematical model shared by every image and field of this crate: a
//! rectangular grid addressed by column `x` and row `y`.

use vstd::prelude::*;
use vstd::set_lib::lemma_int_range;
use vstd::set_lib::lemma_len_subset;
use vstd::set_lib::set_int_range;

verus! {

/// A `width` by `height` grid of values; `rows[y][x]` is the value in column
/// `x` of row `y`.
#[verifier::ext_equal]
pub struct Grid<T> {
    pub width: int,
    pub height: int,
    pub rows: Seq<Seq<T>>,
}

impl<T> Grid<T> {
    /// There are `height` rows and each of them has `width` entries.
    pub open spec fn wf(self) -> bool {
        &&& 0 <= self.width
        &&& 0 <= self.height
        &&& self.rows.len() == self.height
        &&& forall|y: int| 0 <= y < self.height ==> (#[trigger] self.rows[y]).len() == self.width
    }

    /// `(x, y)` is a position of the grid.
    pub open spec fn contains(self, x: int, y: int) -> bool {
        0 <= x < self.width && 0 <= y < self.height
    }

    /// `(x, y)` is a position of the grid with all eight neighbours inside it.
    pub open spec fn interior(self, x: int, y: int) -> bool {
        1 <= x < self.width - 1 && 1 <= y < self.height - 1
    }

    /// The value at `(x, y)`.
    pub open spec fn at(self, x: int, y: int) -> T {
        self.rows[y][x]
    }

    /// The grid with the value at `(x, y)` replaced by `v`.
    pub open spec fn put(self, x: int, y: int, v: T) -> Grid<T> {
        Grid {
            width: self.width,
            height: self.height,
            rows: self.rows.update(y, self.rows[y].update(x, v)),
        }
    }

    /// The grid held by a row-major buffer of `width` columns.
    pub open spec fn from_flat(width: int, height: int, cells: Seq<T>) -> Grid<T> {
        Grid::build(width, height, |x: int, y: int| cells[flat(width, x, y)])
    }

    /// The grid whose value at `(x, y)` is `f(x, y)`.
    pub open spec fn build(width: int, height: int, f: spec_fn(int, int) -> T) -> Grid<T> {
        Grid {
            width,
            height,
            rows: Seq::new(height as nat, |y: int| Seq::new(width as nat, |x: int| f(x, y))),
        }
    }
}

/// Replacing one value keeps the shape of the grid and every other value.
pub proof fn lemma_put<T>(g: Grid<T>, x: int, y: int, v: T)
    requires
        g.wf(),
        g.contains(x, y),
    ensures
        g.put(x, y, v).wf(),
        g.put(x, y, v).width == g.width,
        g.put(x, y, v).height == g.height,
        g.put(x, y, v).at(x, y) == v,
        forall|i: int, j: int|
            g.contains(i, j) && (i != x || j != y) ==> #[trigger] g.put(x, y, v).at(i, j) == g.at(
                i,
                j,
            ),
{
    let p = g.put(x, y, v);
    assert forall|j: int| 0 <= j < p.height implies (#[trigger] p.rows[j]).len() == p.width by {
        assert(g.rows[j].len() == g.width);
    }
}

/// Replacing the entry of `(x, y)` in a row-major buffer replaces the value at
/// `(x, y)` in the grid that the buffer holds.
pub proof fn lemma_from_flat_update<T>(width: int, height: int, cells: Seq<T>, x: int, y: int, v: T)
    requires
        0 <= x < width,
        0 <= y < height,
        cells.len() == width * height,
    ensures
        Grid::from_flat(width, height, cells.update(flat(width, x, y), v)) == Grid::from_flat(
            width,
            height,
            cells,
        ).put(x, y, v),
{
    let before = Grid::from_flat(width, height, cells);
    let after = Grid::from_flat(width, height, cells.update(flat(width, x, y), v));
    let goal = before.put(x, y, v);
    lemma_flat_in_range(width, height, x, y);
    assert forall|j: int| 0 <= j < height implies #[trigger] after.rows[j] =~= goal.rows[j] by {
        assert forall|i: int| 0 <= i < width implies after.rows[j][i] == goal.rows[j][i] by {
            lemma_flat_in_range(width, height, i, j);
            if (i != x || j != y) && flat(width, i, j) == flat(width, x, y) {
                lemma_flat_injective(width, i, j, x, y);
            }
        }
    }
    assert(after =~~= goal);
}

/// The place of `(x, y)` in a row-major buffer of `width` columns.
pub open spec fn flat(width: int, x: int, y: int) -> int {
    y * width + x
}

/// A position inside a `width` by `height` grid has its place inside a buffer
/// of `width * height` entries.
pub proof fn lemma_flat_in_range(width: int, height: int, x: int, y: int)
    requires
        0 <= x < width,
        0 <= y < height,
    ensures
        0 <= flat(width, x, y) < width * height,
        0 <= width * height,
{
    assert(y * width + x < width * height && 0 <= y * width && 0 <= width * height)
        by (nonlinear_arith)
        requires
            0 <= x < width,
            0 <= y < height,
    ;
}

/// The place `i` of a row-major buffer of `width` columns belongs to column
/// `i % width` of row `i / width`.
pub proof fn lemma_flat_of_place(width: int, height: int, i: int)
    requires
        0 <= i < width * height,
        0 <= height,
    ensures
        0 <= i % width < width,
        0 <= i / width < height,
        flat(width, i % width, i / width) == i,
{
    assert(0 < width) by (nonlinear_arith)
        requires
            0 <= i < width * height,
            0 <= height,
    ;
    vstd::arithmetic::div_mod::lemma_fundamental_div_mod(i, width);
    vstd::arithmetic::div_mod::lemma_mod_pos_bound(i, width);
    vstd::arithmetic::div_mod::lemma_div_pos_is_pos(i, width);
    let q = i / width;
    assert(width * q == q * width) by (nonlinear_arith);
    assert(q < height) by (nonlinear_arith)
        requires
            0 < width,
            0 <= height,
            q * width <= i,
            i < width * height,
    ;
}

/// Two positions with the same place in the buffer are the same position.
pub proof fn lemma_flat_injective(width: int, x1: int, y1: int, x2: int, y2: int)
    requires
        0 <= x1 < width,
        0 <= x2 < width,
        flat(width, x1, y1) == flat(width, x2, y2),
    ensures
        x1 == x2,
        y1 == y2,
{
    assert(y1 == y2) by (nonlinear_arith)
        requires
            0 <= x1 < width,
            0 <= x2 < width,
            y1 * width + x1 == y2 * width + x2,
    ;
}

/// The positions of a `width` by `height` grid.
pub open spec fn positions(width: int, height: int) -> Set<(int, int)> {
    Set::new(|p: (int, int)| 0 <= p.0 < width && 0 <= p.1 < height)
}

/// A grid has finitely many positions.
pub proof fn lemma_positions_finite(width: int, height: int)
    requires
        0 <= width,
        0 <= height,
    ensures
        positions(width, height).finite(),
{
    assert(0 <= width * height) by (nonlinear_arith)
        requires
            0 <= width,
            0 <= height,
    ;
    let places = set_int_range(0, width * height);
    let position_of = |i: int| (i % width, i / width);
    lemma_int_range(0, width * height);
    places.lemma_map_finite(position_of);
    assert forall|p: (int, int)| positions(width, height).contains(p) implies places.map(
        position_of,
    ).contains(p) by {
        let i = flat(width, p.0, p.1);
        lemma_flat_in_range(width, height, p.0, p.1);
        lemma_flat_of_place(width, height, i);
        lemma_flat_injective(width, i % width, i / width, p.0, p.1);
        assert(places.contains(i) && p == position_of(i));
    }
    lemma_len_subset(positions(width, height), places.map(position_of));
}

} // verus!
