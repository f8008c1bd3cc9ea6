//! Painting the edges onto an RGBA image.

use vstd::prelude::*;
use crate::color::Color;
use crate::error::EdgeError;
use crate::gradient::EdgeRecord;
use crate::gradient::GradientField;
use crate::grid::Grid;
use crate::grid::lemma_put;
use crate::plane::Plane;
use crate::raster::RgbaImage;
use crate::suppress::Direction;
use crate::suppress::direction;
use crate::suppress::direction_of;
use crate::suppress::step_of;

verus! {

/// An edge at `(qx, qy)` colours the pixel `(x, y)`: the edge pixel itself
/// and, for a thick stroke, its two neighbours along the gradient's
/// direction, which lie across the edge.
pub open spec fn paints(f: Grid<EdgeRecord>, thick: bool, qx: int, qy: int, x: int, y: int) -> bool {
    let (dx, dy) = step_of(direction_of(f.at(qx, qy)));
    ||| (x == qx && y == qy)
    ||| (thick && x == qx + dx && y == qy + dy)
    ||| (thick && x == qx - dx && y == qy - dy)
}

/// Some marked pixel colours `(x, y)`.
pub open spec fn marks(m: Grid<bool>, f: Grid<EdgeRecord>, thick: bool, x: int, y: int) -> bool {
    exists|qx: int, qy: int|
        m.contains(qx, qy) && m.at(qx, qy) && #[trigger] paints(f, thick, qx, qy, x, y)
}

/// The image with every pixel that a marked pixel colours set to `color`.
pub open spec fn paint(
    img: Grid<Color>,
    m: Grid<bool>,
    f: Grid<EdgeRecord>,
    thick: bool,
    color: Color,
) -> Grid<Color> {
    Grid::build(
        img.width,
        img.height,
        |x: int, y: int|
            if marks(m, f, thick, x, y) {
                color
            } else {
                img.at(x, y)
            },
    )
}

/// `(qx, qy)` comes before `(x, y)` in row-major order.
spec fn before(qx: int, qy: int, x: int, y: int) -> bool {
    qy < y || (qy == y && qx < x)
}

/// Some marked pixel before `(px, py)` colours `(x, y)`.
spec fn covered(
    m: Grid<bool>,
    f: Grid<EdgeRecord>,
    thick: bool,
    px: int,
    py: int,
    x: int,
    y: int,
) -> bool {
    exists|qx: int, qy: int|
        m.contains(qx, qy) && before(qx, qy, px, py) && m.at(qx, qy) && #[trigger] paints(
            f,
            thick,
            qx,
            qy,
            x,
            y,
        )
}

/// What the pass has painted once it has handled `(px, py)`.
proof fn lemma_covered_step(
    m: Grid<bool>,
    f: Grid<EdgeRecord>,
    thick: bool,
    px: int,
    py: int,
    x: int,
    y: int,
)
    requires
        m.contains(px, py),
    ensures
        covered(m, f, thick, px + 1, py, x, y) == (covered(m, f, thick, px, py, x, y) || (m.at(
            px,
            py,
        ) && paints(f, thick, px, py, x, y))),
{
    if covered(m, f, thick, px + 1, py, x, y) {
        let (qx, qy) = choose|qx: int, qy: int|
            m.contains(qx, qy) && before(qx, qy, px + 1, py) && m.at(qx, qy) && #[trigger] paints(
                f,
                thick,
                qx,
                qy,
                x,
                y,
            );
        if qx != px || qy != py {
            assert(before(qx, qy, px, py));
        }
    }
    if covered(m, f, thick, px, py, x, y) {
        let (qx, qy) = choose|qx: int, qy: int|
            m.contains(qx, qy) && before(qx, qy, px, py) && m.at(qx, qy) && #[trigger] paints(
                f,
                thick,
                qx,
                qy,
                x,
                y,
            );
        assert(before(qx, qy, px + 1, py));
    }
    if m.at(px, py) && paints(f, thick, px, py, x, y) {
        assert(before(px, py, px + 1, py));
    }
}

/// The end of one row is the start of the next.
proof fn lemma_covered_row(m: Grid<bool>, f: Grid<EdgeRecord>, thick: bool, py: int, x: int, y: int)
    ensures
        covered(m, f, thick, m.width, py, x, y) == covered(m, f, thick, 0, py + 1, x, y),
{
    if covered(m, f, thick, m.width, py, x, y) {
        let (qx, qy) = choose|qx: int, qy: int|
            m.contains(qx, qy) && before(qx, qy, m.width, py) && m.at(qx, qy) && #[trigger] paints(
                f,
                thick,
                qx,
                qy,
                x,
                y,
            );
        assert(before(qx, qy, 0, py + 1));
    }
    if covered(m, f, thick, 0, py + 1, x, y) {
        let (qx, qy) = choose|qx: int, qy: int|
            m.contains(qx, qy) && before(qx, qy, 0, py + 1) && m.at(qx, qy) && #[trigger] paints(
                f,
                thick,
                qx,
                qy,
                x,
                y,
            );
        assert(before(qx, qy, m.width, py));
    }
}

/// Colours the pixel `(x, y)` if the image has it.
fn paint_pixel(out: &mut RgbaImage, x: i64, y: i64, color: Color)
    ensures
        final(out)@ == (if old(out)@.contains(x as int, y as int) {
            old(out)@.put(x as int, y as int, color)
        } else {
            old(out)@
        }),
{
    let width: u32 = out.width();
    let height: u32 = out.height();
    if 0 <= x && x < width as i64 && 0 <= y && y < height as i64 {
        out.put_pixel(x as u32, y as u32, color);
    }
}

/// The mask, the field and the image have the same shape.
pub open spec fn same_shape(m: Grid<bool>, f: Grid<EdgeRecord>, img: Grid<Color>) -> bool {
    &&& m.width == f.width == img.width
    &&& m.height == f.height == img.height
}

/// Sets every pixel that a marked pixel colours to `color` and leaves the
/// others as they are. Where the mask, the field and the image differ in
/// shape, nothing is painted.
pub fn paint_edges(
    mask: &Plane<bool>,
    field: &GradientField,
    out: &mut RgbaImage,
    color: Color,
    thick: bool,
) -> (r: Result<(), EdgeError>)
    ensures
        r.is_ok() == same_shape(mask@, field@, old(out)@),
        r matches Ok(_) ==> final(out)@ == paint(old(out)@, mask@, field@, thick, color),
        r matches Err(e) ==> e == EdgeError::BufferSizeMismatch && final(out)@ == old(out)@,
{
    let width: u32 = out.width();
    let height: u32 = out.height();
    if mask.width() != width || field.width() != width || mask.height() != height
        || field.height() != height {
        return Err(EdgeError::BufferSizeMismatch);
    }
    let ghost orig = out@;
    let ghost goal = paint(orig, mask@, field@, thick, color);
    let mut y: u32 = 0;
    while y < height
        invariant
            y <= height,
            width == mask@.width == field@.width == out@.width,
            height == mask@.height == field@.height == out@.height,
            out@.wf(),
            orig.wf(),
            orig.width == width,
            orig.height == height,
            forall|i: int, j: int|
                0 <= i < width && 0 <= j < height ==> #[trigger] out@.at(i, j) == (if covered(
                    mask@,
                    field@,
                    thick,
                    0,
                    y as int,
                    i,
                    j,
                ) {
                    color
                } else {
                    orig.at(i, j)
                }),
        decreases height - y,
    {
        let mut x: u32 = 0;
        while x < width
            invariant
                y < height,
                x <= width,
                width == mask@.width == field@.width == out@.width,
                height == mask@.height == field@.height == out@.height,
                out@.wf(),
                orig.wf(),
                orig.width == width,
                orig.height == height,
                forall|i: int, j: int|
                    0 <= i < width && 0 <= j < height ==> #[trigger] out@.at(i, j) == (if covered(
                        mask@,
                        field@,
                        thick,
                        x as int,
                        y as int,
                        i,
                        j,
                    ) {
                        color
                    } else {
                        orig.at(i, j)
                    }),
            decreases width - x,
        {
            let ghost start = out@;
            if mask.get(x, y) {
                out.put_pixel(x, y, color);
                let ghost one = out@;
                proof {
                    lemma_put(start, x as int, y as int, color);
                }
                if thick {
                    let (dx, dy): (i64, i64) = match direction(field.get(x, y)) {
                        Direction::Horizontal => (1, 0),
                        Direction::Diagonal => (1, 1),
                        Direction::Vertical => (0, 1),
                        Direction::AntiDiagonal => (-1, 1),
                    };
                    paint_pixel(out, x as i64 + dx, y as i64 + dy, color);
                    let ghost two = out@;
                    proof {
                        if one.contains(x + dx, y + dy) {
                            lemma_put(one, x + dx, y + dy, color);
                        }
                    }
                    paint_pixel(out, x as i64 - dx, y as i64 - dy, color);
                    proof {
                        if two.contains(x - dx, y - dy) {
                            lemma_put(two, x - dx, y - dy, color);
                        }
                    }
                }
            }
            proof {
                assert forall|i: int, j: int| 0 <= i < width && 0 <= j < height implies #[trigger] out@.at(
                    i,
                    j,
                ) == (if covered(mask@, field@, thick, x + 1, y as int, i, j) {
                    color
                } else {
                    orig.at(i, j)
                }) by {
                    lemma_covered_step(mask@, field@, thick, x as int, y as int, i, j);
                    assert(start.at(i, j) == (if covered(mask@, field@, thick, x as int, y as int, i, j) {
                        color
                    } else {
                        orig.at(i, j)
                    }));
                }
            }
            x = x + 1;
        }
        proof {
            assert forall|i: int, j: int| 0 <= i < width && 0 <= j < height implies #[trigger] out@.at(
                i,
                j,
            ) == (if covered(mask@, field@, thick, 0, y + 1, i, j) {
                color
            } else {
                orig.at(i, j)
            }) by {
                lemma_covered_row(mask@, field@, thick, y as int, i, j);
            }
        }
        y = y + 1;
    }
    proof {
        assert forall|j: int| 0 <= j < height implies #[trigger] out@.rows[j] =~= goal.rows[j] by {
            assert forall|i: int| 0 <= i < width implies out@.rows[j][i] == goal.rows[j][i] by {
                assert(out@.at(i, j) == out@.rows[j][i]);
                if covered(mask@, field@, thick, 0, height as int, i, j) {
                    let (qx, qy) = choose|qx: int, qy: int|
                        mask@.contains(qx, qy) && before(qx, qy, 0, height as int) && mask@.at(qx, qy)
                            && #[trigger] paints(field@, thick, qx, qy, i, j);
                    assert(marks(mask@, field@, thick, i, j));
                }
                if marks(mask@, field@, thick, i, j) {
                    let (qx, qy) = choose|qx: int, qy: int|
                        mask@.contains(qx, qy) && mask@.at(qx, qy) && #[trigger] paints(
                            field@,
                            thick,
                            qx,
                            qy,
                            i,
                            j,
                        );
                    assert(before(qx, qy, 0, height as int));
                    assert(covered(mask@, field@, thick, 0, height as int, i, j));
                }
            }
        }
        assert(out@ =~~= goal);
    }
    Ok(())
}

} // verus!
