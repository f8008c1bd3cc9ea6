//! Non-maximum suppression: a pixel keeps its gradient only where it is at
//! least as strong as its two neighbours along the gradient's direction.

use vstd::prelude::*;
use crate::gradient::EdgeRecord;
use crate::gradient::GradientField;
use crate::gradient::zero_record;
use crate::grid::Grid;
use crate::grid::lemma_put;
use crate::plane::Plane;

verus! {

/// The four classes of gradient direction. The angle of the gradient is
/// taken modulo 180 degrees, so a gradient and its opposite are in one class.
#[derive(Clone, Copy, Debug, PartialEq, Eq, Structural)]
pub enum Direction {
    /// Within 22.5 degrees of the x axis.
    Horizontal,
    /// Between 22.5 and 67.5 degrees: both components have the same sign.
    Diagonal,
    /// Within 22.5 degrees of the y axis.
    Vertical,
    /// Between 112.5 and 157.5 degrees: the components have opposite signs.
    AntiDiagonal,
}

/// The absolute value of `v`.
pub open spec fn absolute(v: int) -> int {
    if v < 0 {
        -v
    } else {
        v
    }
}

/// The class of the gradient's direction.
///
/// With `ax` and `ay` the absolute values of the components, the angle is
/// within 22.5 degrees of the x axis exactly when `ay < tan(22.5) * ax`.
/// Since `tan(22.5)` is `sqrt(2) - 1`, that is `(ax + ay)^2 < 2 * ax^2`; no
/// integer gradient lies on a boundary. The zero gradient, whose angle is
/// zero by convention, is horizontal.
pub open spec fn direction_of(r: EdgeRecord) -> Direction {
    let ax = absolute(r.gx as int);
    let ay = absolute(r.gy as int);
    if (r.gx == 0 && r.gy == 0) || (ax + ay) * (ax + ay) < 2 * ax * ax {
        Direction::Horizontal
    } else if (ax + ay) * (ax + ay) < 2 * ay * ay {
        Direction::Vertical
    } else if (r.gx > 0) == (r.gy > 0) {
        Direction::Diagonal
    } else {
        Direction::AntiDiagonal
    }
}

/// The step from a pixel to one of its two neighbours along a direction; the
/// other neighbour is the opposite step away.
pub open spec fn step_of(d: Direction) -> (int, int) {
    match d {
        Direction::Horizontal => (1, 0),
        Direction::Diagonal => (1, 1),
        Direction::Vertical => (0, 1),
        Direction::AntiDiagonal => (-1, 1),
    }
}

/// The pixel at `(x, y)` is at least as strong as both neighbours along its
/// gradient's direction.
pub open spec fn is_local_maximum(f: Grid<EdgeRecord>, x: int, y: int) -> bool {
    let here = f.at(x, y);
    let (dx, dy) = step_of(direction_of(here));
    &&& here.spec_squared_length() >= f.at(x + dx, y + dy).spec_squared_length()
    &&& here.spec_squared_length() >= f.at(x - dx, y - dy).spec_squared_length()
}

/// What suppression leaves at `(x, y)`: the gradient of an interior local
/// maximum, and the zero gradient elsewhere.
pub open spec fn suppressed_at(f: Grid<EdgeRecord>, x: int, y: int) -> EdgeRecord {
    if f.interior(x, y) && is_local_maximum(f, x, y) {
        f.at(x, y)
    } else {
        zero_record()
    }
}

/// The suppressed field of a gradient field.
pub open spec fn suppressed(f: Grid<EdgeRecord>) -> Grid<EdgeRecord> {
    Grid::build(f.width, f.height, |x: int, y: int| suppressed_at(f, x, y))
}

/// Classifies the direction of a gradient.
pub fn direction(r: EdgeRecord) -> (d: Direction)
    ensures
        d == direction_of(r),
{
    let gx: i64 = r.gx as i64;
    let gy: i64 = r.gy as i64;
    let ax: i64 = if gx < 0 { -gx } else { gx };
    let ay: i64 = if gy < 0 { -gy } else { gy };
    assert(0 <= (ax + ay) * (ax + ay) <= 0x1_0000_0000 && 0 <= 2 * ax * ax <= 0x1_0000_0000 && 0
        <= 2 * ay * ay <= 0x1_0000_0000 && 2 * ax * ax == 2 * (ax * ax) && 2 * ay * ay == 2 * (ay
        * ay)) by (nonlinear_arith)
        requires
            0 <= ax <= 0x8000,
            0 <= ay <= 0x8000,
    ;
    let sum: i64 = (ax + ay) * (ax + ay);
    if (gx == 0 && gy == 0) || sum < 2 * (ax * ax) {
        Direction::Horizontal
    } else if sum < 2 * (ay * ay) {
        Direction::Vertical
    } else if (gx > 0) == (gy > 0) {
        Direction::Diagonal
    } else {
        Direction::AntiDiagonal
    }
}

/// Thins the edges of a gradient field: every pixel that is not an interior
/// local maximum along its gradient's direction gets the zero gradient.
pub fn non_maximum_suppression(g: &GradientField) -> (out: GradientField)
    ensures
        out@ == suppressed(g@),
{
    let width: u32 = g.width();
    let height: u32 = g.height();
    let mut out: GradientField = Plane::filled(width, height, EdgeRecord { gx: 0, gy: 0 });
    let ghost goal = suppressed(g@);
    if width >= 3 && height >= 3 {
        let mut y: u32 = 1;
        while y < height - 1
            invariant
                1 <= y <= height - 1,
                3 <= width == g@.width,
                3 <= height == g@.height,
                g@.wf(),
                out@.wf(),
                out@.width == width,
                out@.height == height,
                forall|i: int, j: int|
                    0 <= i < width && 0 <= j < height ==> out@.at(i, j) == (if j < y {
                        suppressed_at(g@, i, j)
                    } else {
                        zero_record()
                    }),
            decreases height - y,
        {
            let mut x: u32 = 1;
            while x < width - 1
                invariant
                    1 <= y < height - 1,
                    1 <= x <= width - 1,
                    3 <= width == g@.width,
                    3 <= height == g@.height,
                    g@.wf(),
                    out@.wf(),
                    out@.width == width,
                    out@.height == height,
                    forall|i: int, j: int|
                        0 <= i < width && 0 <= j < height ==> out@.at(i, j) == (if j < y || (j == y
                            && i < x) {
                            suppressed_at(g@, i, j)
                        } else {
                            zero_record()
                        }),
                decreases width - x,
            {
                let here = g.get(x, y);
                let (first, second) = match direction(here) {
                    Direction::Horizontal => (g.get(x + 1, y), g.get(x - 1, y)),
                    Direction::Diagonal => (g.get(x + 1, y + 1), g.get(x - 1, y - 1)),
                    Direction::Vertical => (g.get(x, y + 1), g.get(x, y - 1)),
                    Direction::AntiDiagonal => (g.get(x - 1, y + 1), g.get(x + 1, y - 1)),
                };
                let length: u32 = here.squared_length();
                if length >= first.squared_length() && length >= second.squared_length() {
                    proof {
                        lemma_put(out@, x as int, y as int, here);
                    }
                    out.set(x, y, here);
                }
                x = x + 1;
            }
            y = y + 1;
        }
    }
    proof {
        assert forall|j: int| 0 <= j < height implies #[trigger] out@.rows[j] =~= goal.rows[j] by {
            assert forall|i: int| 0 <= i < width implies out@.rows[j][i] == goal.rows[j][i] by {
                assert(out@.at(i, j) == goal.at(i, j));
            }
        }
        assert(out@ =~~= goal);
    }
    out
}

/// Suppression never lengthens a gradient.
proof fn lemma_suppressed_is_weaker(f: Grid<EdgeRecord>, x: int, y: int)
    ensures
        suppressed_at(f, x, y).spec_squared_length() <= f.at(x, y).spec_squared_length(),
        suppressed_at(f, x, y) == f.at(x, y) || suppressed_at(f, x, y) == zero_record(),
{
    let r = f.at(x, y);
    assert(0 <= r.gx * r.gx && 0 <= r.gy * r.gy) by (nonlinear_arith);
}

/// Suppressing a suppressed field changes nothing.
pub proof fn lemma_suppression_idempotent(f: Grid<EdgeRecord>)
    requires
        f.wf(),
    ensures
        suppressed(suppressed(f)) == suppressed(f),
{
    let once = suppressed(f);
    let twice = suppressed(once);
    assert forall|y: int| 0 <= y < f.height implies #[trigger] twice.rows[y] =~= once.rows[y] by {
        assert forall|x: int| 0 <= x < f.width implies twice.rows[y][x] == once.rows[y][x] by {
            assert(once.at(x, y) == suppressed_at(f, x, y));
            if f.interior(x, y) && is_local_maximum(f, x, y) {
                let (dx, dy) = step_of(direction_of(f.at(x, y)));
                lemma_suppressed_is_weaker(f, x + dx, y + dy);
                lemma_suppressed_is_weaker(f, x - dx, y - dy);
                assert(once.at(x + dx, y + dy) == suppressed_at(f, x + dx, y + dy));
                assert(once.at(x - dx, y - dy) == suppressed_at(f, x - dx, y - dy));
                assert(is_local_maximum(once, x, y));
            }
        }
    }
    assert(twice =~~= once);
}

} // verus!
