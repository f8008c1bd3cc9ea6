//! Two-threshold hysteresis: a pixel is an edge when a chain of neighbouring
//! pixels, each at least weak, leads to it from a strong interior pixel.

use vstd::prelude::*;
use vstd::set_lib::lemma_int_range;
use vstd::set_lib::lemma_len_subset;
use vstd::set_lib::set_int_range;
use crate::gradient::EdgeRecord;
use crate::gradient::GradientField;
use crate::grid::Grid;
use crate::grid::flat;
use crate::grid::lemma_flat_in_range;
use crate::grid::lemma_flat_injective;
use crate::grid::lemma_flat_of_place;
use crate::grid::lemma_put;
use crate::plane::Plane;

verus! {

/// Two different pixels that touch by a side or a corner.
pub open spec fn adjacent(x1: int, y1: int, x2: int, y2: int) -> bool {
    &&& -1 <= x2 - x1 <= 1
    &&& -1 <= y2 - y1 <= 1
    &&& (x1 != x2 || y1 != y2)
}

/// The gradient is at least as long as `threshold`.
pub open spec fn reaches(r: EdgeRecord, threshold: int) -> bool {
    r.spec_squared_length() >= threshold * threshold
}

/// An interior pixel whose gradient reaches the strong threshold: a seed.
pub open spec fn is_strong(f: Grid<EdgeRecord>, strong: int, x: int, y: int) -> bool {
    f.interior(x, y) && reaches(f.at(x, y), strong)
}

/// A pixel of the field whose gradient reaches the weak threshold.
pub open spec fn is_weak(f: Grid<EdgeRecord>, weak: int, x: int, y: int) -> bool {
    f.contains(x, y) && reaches(f.at(x, y), weak)
}

/// Entry `i` of the path is at least weak and touches the entry before it.
pub open spec fn is_link(f: Grid<EdgeRecord>, weak: int, path: Seq<(int, int)>, i: int) -> bool {
    &&& is_weak(f, weak, path[i].0, path[i].1)
    &&& adjacent(path[i - 1].0, path[i - 1].1, path[i].0, path[i].1)
}

/// The path starts at a seed and every further entry is a link.
pub open spec fn is_chain(f: Grid<EdgeRecord>, weak: int, strong: int, path: Seq<(int, int)>) -> bool {
    &&& path.len() > 0
    &&& is_strong(f, strong, path[0].0, path[0].1)
    &&& forall|i: int| 0 < i < path.len() ==> #[trigger] is_link(f, weak, path, i)
}

/// The pixel at `(x, y)` is an edge: some chain ends at it.
pub open spec fn accepted(f: Grid<EdgeRecord>, weak: int, strong: int, x: int, y: int) -> bool {
    exists|path: Seq<(int, int)>| #[trigger] is_chain(f, weak, strong, path) && path.last() == (x, y)
}

/// The grid that tells for every pixel whether it is an edge.
pub open spec fn accepted_mask(f: Grid<EdgeRecord>, weak: int, strong: int) -> Grid<bool> {
    Grid::build(f.width, f.height, |x: int, y: int| accepted(f, weak, strong, x, y))
}

/// A seed is an edge.
pub proof fn lemma_seed_accepted(f: Grid<EdgeRecord>, weak: int, strong: int, x: int, y: int)
    requires
        is_strong(f, strong, x, y),
    ensures
        accepted(f, weak, strong, x, y),
{
    let path: Seq<(int, int)> = seq![(x, y)];
    assert(is_chain(f, weak, strong, path));
    assert(path.last() == (x, y));
}

/// A pixel that is at least weak and touches an edge is an edge.
pub proof fn lemma_neighbour_accepted(
    f: Grid<EdgeRecord>,
    weak: int,
    strong: int,
    x: int,
    y: int,
    nx: int,
    ny: int,
)
    requires
        accepted(f, weak, strong, x, y),
        adjacent(x, y, nx, ny),
        is_weak(f, weak, nx, ny),
    ensures
        accepted(f, weak, strong, nx, ny),
{
    let path = choose|path: Seq<(int, int)>| #[trigger]
        is_chain(f, weak, strong, path) && path.last() == (x, y);
    let longer = path.push((nx, ny));
    assert forall|i: int| 0 < i < longer.len() implies #[trigger] is_link(f, weak, longer, i) by {
        if i < path.len() {
            assert(is_link(f, weak, path, i));
        }
    }
    assert(is_chain(f, weak, strong, longer));
    assert(longer.last() == (nx, ny));
}

/// An edge is a seed, or it is at least weak and touches an edge.
pub proof fn lemma_accepted_cases(f: Grid<EdgeRecord>, weak: int, strong: int, x: int, y: int)
    requires
        accepted(f, weak, strong, x, y),
    ensures
        is_strong(f, strong, x, y) || (is_weak(f, weak, x, y) && exists|px: int, py: int|
            adjacent(px, py, x, y) && #[trigger] accepted(f, weak, strong, px, py)),
{
    let path = choose|path: Seq<(int, int)>| #[trigger]
        is_chain(f, weak, strong, path) && path.last() == (x, y);
    if path.len() > 1 {
        let shorter = path.drop_last();
        let (px, py) = shorter.last();
        assert forall|i: int| 0 < i < shorter.len() implies #[trigger] is_link(f, weak, shorter, i) by {
            assert(is_link(f, weak, path, i));
        }
        assert(is_chain(f, weak, strong, shorter));
        assert(is_link(f, weak, path, path.len() - 1));
        assert(accepted(f, weak, strong, px, py));
    }
}

/// A gradient that reaches a threshold reaches every lower one.
proof fn lemma_reaches_lower(r: EdgeRecord, lower: int, higher: int)
    requires
        0 <= lower <= higher,
        reaches(r, higher),
    ensures
        reaches(r, lower),
{
    assert(lower * lower <= higher * higher) by (nonlinear_arith)
        requires
            0 <= lower <= higher,
    ;
}

/// An edge under two thresholds is an edge under any lower two: lowering
/// the weak or the strong threshold never loses an edge.
pub proof fn lemma_accepted_monotone(
    f: Grid<EdgeRecord>,
    weak_lower: int,
    strong_lower: int,
    weak_higher: int,
    strong_higher: int,
    x: int,
    y: int,
)
    requires
        0 <= weak_lower <= weak_higher,
        0 <= strong_lower <= strong_higher,
        accepted(f, weak_higher, strong_higher, x, y),
    ensures
        accepted(f, weak_lower, strong_lower, x, y),
{
    let path = choose|path: Seq<(int, int)>| #[trigger]
        is_chain(f, weak_higher, strong_higher, path) && path.last() == (x, y);
    lemma_reaches_lower(f.at(path[0].0, path[0].1), strong_lower, strong_higher);
    assert forall|i: int| 0 < i < path.len() implies #[trigger] is_link(f, weak_lower, path, i) by {
        assert(is_link(f, weak_higher, path, i));
        lemma_reaches_lower(f.at(path[i].0, path[i].1), weak_lower, weak_higher);
    }
    assert(is_chain(f, weak_lower, strong_lower, path));
}

/// Every marked pixel is an edge.
spec fn sound(f: Grid<EdgeRecord>, weak: int, strong: int, m: Grid<bool>) -> bool {
    forall|x: int, y: int| m.contains(x, y) && #[trigger] m.at(x, y) ==> accepted(f, weak, strong, x, y)
}

/// Every neighbour of `(x, y)` that is at least weak is marked.
spec fn closed_at(f: Grid<EdgeRecord>, weak: int, m: Grid<bool>, x: int, y: int) -> bool {
    forall|nx: int, ny: int|
        adjacent(x, y, nx, ny) && #[trigger] is_weak(f, weak, nx, ny) ==> m.at(nx, ny)
}

/// The pixel `(x, y)` waits on the work list.
spec fn on_stack(stack: Seq<(u32, u32)>, x: int, y: int) -> bool {
    exists|i: int| 0 <= i < stack.len() && (#[trigger] stack[i]).0 == x && stack[i].1 == y
}

/// Every marked pixel has all its weak neighbours marked, unless it waits on
/// the work list or is the pixel `(cx, cy)` that is being expanded.
spec fn pending(
    f: Grid<EdgeRecord>,
    weak: int,
    m: Grid<bool>,
    stack: Seq<(u32, u32)>,
    cx: int,
    cy: int,
) -> bool {
    forall|x: int, y: int|
        m.contains(x, y) && #[trigger] m.at(x, y) ==> closed_at(f, weak, m, x, y) || on_stack(
            stack,
            x,
            y,
        ) || (x == cx && y == cy)
}

/// Every entry of the work list is a marked pixel.
spec fn stack_marked(m: Grid<bool>, stack: Seq<(u32, u32)>) -> bool {
    forall|i: int|
        0 <= i < stack.len() ==> m.contains((#[trigger] stack[i]).0 as int, stack[i].1 as int)
            && m.at(stack[i].0 as int, stack[i].1 as int)
}

/// What is marked in `m1` is marked in `m2`.
spec fn grows(m1: Grid<bool>, m2: Grid<bool>) -> bool {
    forall|x: int, y: int| m1.contains(x, y) && #[trigger] m1.at(x, y) ==> m2.at(x, y)
}

/// The places of the pixels that are not marked.
spec fn unmarked(m: Grid<bool>) -> Set<int> {
    Set::new(|i: int| 0 <= i < m.width * m.height && !m.at(i % m.width, i / m.width))
}

/// There are finitely many unmarked pixels.
proof fn lemma_unmarked_finite(m: Grid<bool>)
    requires
        m.wf(),
    ensures
        unmarked(m).finite(),
{
    assert(0 <= m.width * m.height) by (nonlinear_arith)
        requires
            0 <= m.width,
            0 <= m.height,
    ;
    lemma_int_range(0, m.width * m.height);
    assert(unmarked(m).subset_of(set_int_range(0, m.width * m.height)));
    lemma_len_subset(unmarked(m), set_int_range(0, m.width * m.height));
}

/// Marking an unmarked pixel leaves one unmarked pixel fewer.
proof fn lemma_mark_counts(m: Grid<bool>, x: int, y: int)
    requires
        m.wf(),
        m.contains(x, y),
        !m.at(x, y),
    ensures
        unmarked(m).finite(),
        unmarked(m.put(x, y, true)).finite(),
        unmarked(m.put(x, y, true)).len() + 1 == unmarked(m).len(),
{
    let after = m.put(x, y, true);
    let place = flat(m.width, x, y);
    lemma_put(m, x, y, true);
    lemma_unmarked_finite(m);
    lemma_unmarked_finite(after);
    lemma_flat_in_range(m.width, m.height, x, y);
    lemma_flat_of_place(m.width, m.height, place);
    lemma_flat_injective(m.width, place % m.width, place / m.width, x, y);
    assert(unmarked(m).contains(place));
    assert forall|i: int| unmarked(after).contains(i) == unmarked(m).remove(place).contains(i) by {
        if 0 <= i < m.width * m.height {
            lemma_flat_of_place(m.width, m.height, i);
            if i % m.width == x && i / m.width == y {
                assert(i == place);
            } else {
                assert(after.at(i % m.width, i / m.width) == m.at(i % m.width, i / m.width));
            }
        }
    }
    assert(unmarked(after) =~= unmarked(m).remove(place));
}

/// A pixel stays closed when more pixels are marked.
proof fn lemma_closed_stays(
    f: Grid<EdgeRecord>,
    weak: int,
    m1: Grid<bool>,
    m2: Grid<bool>,
    x: int,
    y: int,
)
    requires
        f.width == m1.width,
        f.height == m1.height,
        grows(m1, m2),
        closed_at(f, weak, m1, x, y),
    ensures
        closed_at(f, weak, m2, x, y),
{
    assert forall|nx: int, ny: int|
        adjacent(x, y, nx, ny) && #[trigger] is_weak(f, weak, nx, ny) implies m2.at(nx, ny) by {
        assert(m1.at(nx, ny));
    }
}

/// Where every marked pixel has its weak neighbours marked and every seed is
/// marked, every edge is marked.
proof fn lemma_chain_marked(
    f: Grid<EdgeRecord>,
    weak: int,
    strong: int,
    m: Grid<bool>,
    path: Seq<(int, int)>,
)
    requires
        f.width == m.width,
        f.height == m.height,
        is_chain(f, weak, strong, path),
        forall|x: int, y: int| m.contains(x, y) && #[trigger] m.at(x, y) ==> closed_at(f, weak, m, x, y),
        forall|x: int, y: int| #[trigger] is_strong(f, strong, x, y) ==> m.at(x, y),
    ensures
        m.contains(path.last().0, path.last().1),
        m.at(path.last().0, path.last().1),
    decreases path.len(),
{
    if path.len() == 1 {
        assert(is_strong(f, strong, path[0].0, path[0].1));
    } else {
        let shorter = path.drop_last();
        assert forall|i: int| 0 < i < shorter.len() implies #[trigger] is_link(f, weak, shorter, i) by {
            assert(is_link(f, weak, path, i));
        }
        lemma_chain_marked(f, weak, strong, m, shorter);
        let last = path.len() - 1;
        assert(is_link(f, weak, path, last));
        let (px, py) = shorter.last();
        assert(m.at(px, py));
        assert(closed_at(f, weak, m, px, py));
        assert(is_weak(f, weak, path[last].0, path[last].1));
    }
}

/// Neighbour `k` of `(cx, cy)`, counted row by row through the 3x3 window, is
/// marked if it is at least weak. Entry 4 is the pixel itself.
spec fn handled(f: Grid<EdgeRecord>, weak: int, m: Grid<bool>, cx: int, cy: int, k: int) -> bool {
    k != 4 && is_weak(f, weak, cx + k % 3 - 1, cy + k / 3 - 1) ==> m.at(cx + k % 3 - 1, cy + k / 3 - 1)
}

/// What marking the weak neighbour `(nx, ny)` of the marked pixel `(cx, cy)`
/// and putting it on the work list keeps true.
proof fn lemma_mark_neighbour(
    f: Grid<EdgeRecord>,
    weak: int,
    strong: int,
    m: Grid<bool>,
    stack: Seq<(u32, u32)>,
    cx: int,
    cy: int,
    nx: u32,
    ny: u32,
)
    requires
        m.wf(),
        f.width == m.width,
        f.height == m.height,
        m.contains(cx, cy),
        m.at(cx, cy),
        adjacent(cx, cy, nx as int, ny as int),
        is_weak(f, weak, nx as int, ny as int),
        !m.at(nx as int, ny as int),
        sound(f, weak, strong, m),
        stack_marked(m, stack),
        pending(f, weak, m, stack, cx, cy),
    ensures
        grows(m, m.put(nx as int, ny as int, true)),
        sound(f, weak, strong, m.put(nx as int, ny as int, true)),
        stack_marked(m.put(nx as int, ny as int, true), stack.push((nx, ny))),
        pending(f, weak, m.put(nx as int, ny as int, true), stack.push((nx, ny)), cx, cy),
        unmarked(m).finite(),
        unmarked(m.put(nx as int, ny as int, true)).finite(),
        unmarked(m.put(nx as int, ny as int, true)).len() + 1 == unmarked(m).len(),
{
    let after = m.put(nx as int, ny as int, true);
    let longer = stack.push((nx, ny));
    lemma_put(m, nx as int, ny as int, true);
    lemma_mark_counts(m, nx as int, ny as int);
    assert(grows(m, after)) by {
        assert forall|x: int, y: int| m.contains(x, y) && #[trigger] m.at(x, y) implies after.at(
            x,
            y,
        ) by {
            assert(x != nx || y != ny);
        }
    }
    assert(sound(f, weak, strong, after)) by {
        assert forall|x: int, y: int| after.contains(x, y) && #[trigger] after.at(x, y) implies accepted(
            f,
            weak,
            strong,
            x,
            y,
        ) by {
            if x == nx && y == ny {
                lemma_neighbour_accepted(f, weak, strong, cx, cy, nx as int, ny as int);
            } else {
                assert(m.at(x, y));
            }
        }
    }
    assert(stack_marked(after, longer)) by {
        assert forall|i: int| 0 <= i < longer.len() implies after.contains(
            (#[trigger] longer[i]).0 as int,
            longer[i].1 as int,
        ) && after.at(longer[i].0 as int, longer[i].1 as int) by {
            if i < stack.len() {
                assert(longer[i] == stack[i]);
                assert(m.at(stack[i].0 as int, stack[i].1 as int));
            }
        }
    }
    assert(pending(f, weak, after, longer, cx, cy)) by {
        assert forall|x: int, y: int| after.contains(x, y) && #[trigger] after.at(x, y) implies closed_at(
            f,
            weak,
            after,
            x,
            y,
        ) || on_stack(longer, x, y) || (x == cx && y == cy) by {
            if x == nx && y == ny {
                assert(longer[stack.len() as int].0 == x && longer[stack.len() as int].1 == y);
            } else {
                assert(m.at(x, y));
                if closed_at(f, weak, m, x, y) {
                    lemma_closed_stays(f, weak, m, after, x, y);
                } else if on_stack(stack, x, y) {
                    let i = choose|i: int|
                        0 <= i < stack.len() && (#[trigger] stack[i]).0 == x && stack[i].1 == y;
                    assert(longer[i] == stack[i]);
                }
            }
        }
    }
}

/// Tells whether the gradient is at least as long as `threshold`.
pub fn reaches_threshold(r: EdgeRecord, threshold: u32) -> (b: bool)
    ensures
        b == reaches(r, threshold as int),
{
    assert(threshold * threshold <= 0xffff_ffff * 0xffff_ffff) by (nonlinear_arith)
        requires
            0 <= threshold <= 0xffff_ffff,
    ;
    r.squared_length() as u64 >= (threshold as u64) * (threshold as u64)
}

/// Marks every unmarked neighbour of `(cx, cy)` that is at least weak and
/// puts it on the work list.
fn visit_neighbours(
    field: &GradientField,
    weak: u32,
    Ghost(strong): Ghost<int>,
    mask: &mut Plane<bool>,
    stack: &mut Vec<(u32, u32)>,
    cx: u32,
    cy: u32,
)
    requires
        field@.wf(),
        old(mask)@.wf(),
        field@.width == old(mask)@.width,
        field@.height == old(mask)@.height,
        old(mask)@.contains(cx as int, cy as int),
        old(mask)@.at(cx as int, cy as int),
        sound(field@, weak as int, strong, old(mask)@),
        stack_marked(old(mask)@, old(stack)@),
        pending(field@, weak as int, old(mask)@, old(stack)@, cx as int, cy as int),
    ensures
        final(mask)@.wf(),
        final(mask)@.width == old(mask)@.width,
        final(mask)@.height == old(mask)@.height,
        grows(old(mask)@, final(mask)@),
        sound(field@, weak as int, strong, final(mask)@),
        stack_marked(final(mask)@, final(stack)@),
        pending(field@, weak as int, final(mask)@, final(stack)@, -1, -1),
        unmarked(final(mask)@).finite(),
        unmarked(final(mask)@).len() + final(stack)@.len() == unmarked(old(mask)@).len() + old(
            stack,
        )@.len(),
{
    let width: u32 = field.width();
    let height: u32 = field.height();
    proof {
        lemma_unmarked_finite(mask@);
    }
    let mut k: u32 = 0;
    while k < 9
        invariant
            k <= 9,
            field@.wf(),
            mask@.wf(),
            width == field@.width == mask@.width,
            height == field@.height == mask@.height,
            mask@.width == old(mask)@.width,
            mask@.height == old(mask)@.height,
            mask@.contains(cx as int, cy as int),
            mask@.at(cx as int, cy as int),
            grows(old(mask)@, mask@),
            sound(field@, weak as int, strong, mask@),
            stack_marked(mask@, stack@),
            pending(field@, weak as int, mask@, stack@, cx as int, cy as int),
            forall|j: int|
                0 <= j < k ==> #[trigger] handled(field@, weak as int, mask@, cx as int, cy as int, j),
            unmarked(mask@).finite(),
            unmarked(mask@).len() + stack@.len() == unmarked(old(mask)@).len() + old(stack)@.len(),
        decreases 9 - k,
    {
        let nx: i64 = cx as i64 + (k % 3) as i64 - 1;
        let ny: i64 = cy as i64 + (k / 3) as i64 - 1;
        if k != 4 && 0 <= nx && nx < width as i64 && 0 <= ny && ny < height as i64 {
            let px: u32 = nx as u32;
            let py: u32 = ny as u32;
            if !mask.get(px, py) && reaches_threshold(field.get(px, py), weak) {
                proof {
                    lemma_mark_neighbour(
                        field@,
                        weak as int,
                        strong,
                        mask@,
                        stack@,
                        cx as int,
                        cy as int,
                        px,
                        py,
                    );
                    let after = mask@.put(px as int, py as int, true);
                    lemma_put(mask@, px as int, py as int, true);
                    assert forall|j: int| 0 <= j < k implies #[trigger] handled(
                        field@,
                        weak as int,
                        after,
                        cx as int,
                        cy as int,
                        j,
                    ) by {
                        assert(handled(field@, weak as int, mask@, cx as int, cy as int, j));
                    }
                    assert forall|x: int, y: int| old(mask)@.contains(x, y) && #[trigger] old(mask)@.at(
                        x,
                        y,
                    ) implies after.at(x, y) by {
                        assert(mask@.at(x, y));
                    }
                }
                mask.set(px, py, true);
                stack.push((px, py));
            }
        }
        k = k + 1;
    }
    proof {
        assert forall|nx: int, ny: int|
            adjacent(cx as int, cy as int, nx, ny) && #[trigger] is_weak(
                field@,
                weak as int,
                nx,
                ny,
            ) implies mask@.at(nx, ny) by {
            let j = (ny - cy + 1) * 3 + (nx - cx + 1);
            assert(handled(field@, weak as int, mask@, cx as int, cy as int, j));
        }
        assert(closed_at(field@, weak as int, mask@, cx as int, cy as int));
    }
}

/// Marks the seed `(x, y)` and every pixel that a chain of weak neighbours
/// joins to it. The work list is empty before and after.
fn grow(
    field: &GradientField,
    weak: u32,
    Ghost(strong): Ghost<int>,
    mask: &mut Plane<bool>,
    stack: &mut Vec<(u32, u32)>,
    x: u32,
    y: u32,
)
    requires
        field@.wf(),
        old(mask)@.wf(),
        field@.width == old(mask)@.width,
        field@.height == old(mask)@.height,
        is_strong(field@, strong, x as int, y as int),
        !old(mask)@.at(x as int, y as int),
        old(stack)@.len() == 0,
        sound(field@, weak as int, strong, old(mask)@),
        pending(field@, weak as int, old(mask)@, old(stack)@, -1, -1),
    ensures
        final(mask)@.wf(),
        final(mask)@.width == old(mask)@.width,
        final(mask)@.height == old(mask)@.height,
        final(stack)@.len() == 0,
        final(mask)@.at(x as int, y as int),
        grows(old(mask)@, final(mask)@),
        sound(field@, weak as int, strong, final(mask)@),
        pending(field@, weak as int, final(mask)@, final(stack)@, -1, -1),
{
    proof {
        let before = mask@;
        let after = mask@.put(x as int, y as int, true);
        let first = stack@.push((x, y));
        lemma_put(before, x as int, y as int, true);
        lemma_mark_counts(before, x as int, y as int);
        lemma_seed_accepted(field@, weak as int, strong, x as int, y as int);
        assert(grows(before, after)) by {
            assert forall|i: int, j: int| before.contains(i, j) && #[trigger] before.at(i, j) implies after.at(
                i,
                j,
            ) by {
                assert(i != x || j != y);
            }
        }
        assert(sound(field@, weak as int, strong, after)) by {
            assert forall|i: int, j: int| after.contains(i, j) && #[trigger] after.at(i, j) implies accepted(
                field@,
                weak as int,
                strong,
                i,
                j,
            ) by {
                if i != x || j != y {
                    assert(before.at(i, j));
                }
            }
        }
        assert(pending(field@, weak as int, after, first, -1, -1)) by {
            assert forall|i: int, j: int| after.contains(i, j) && #[trigger] after.at(i, j) implies closed_at(
                field@,
                weak as int,
                after,
                i,
                j,
            ) || on_stack(first, i, j) || (i == -1 && j == -1) by {
                if i == x && j == y {
                    assert(first[0].0 == i && first[0].1 == j);
                } else {
                    assert(before.at(i, j));
                    assert(!on_stack(stack@, i, j));
                    lemma_closed_stays(field@, weak as int, before, after, i, j);
                }
            }
        }
        assert(stack_marked(after, first)) by {
            assert(first[0] == (x, y));
        }
    }
    mask.set(x, y, true);
    stack.push((x, y));
    while stack.len() > 0
        invariant
            field@.wf(),
            mask@.wf(),
            field@.width == mask@.width,
            field@.height == mask@.height,
            mask@.width == old(mask)@.width,
            mask@.height == old(mask)@.height,
            mask@.contains(x as int, y as int),
            mask@.at(x as int, y as int),
            grows(old(mask)@, mask@),
            sound(field@, weak as int, strong, mask@),
            stack_marked(mask@, stack@),
            pending(field@, weak as int, mask@, stack@, -1, -1),
            unmarked(mask@).finite(),
        decreases unmarked(mask@).len() + stack@.len(),
    {
        let ghost waiting = stack@;
        let ghost marked = mask@;
        let top = stack.pop();
        let (cx, cy) = top.unwrap();
        proof {
            assert(waiting[waiting.len() - 1] == (cx, cy));
            assert(pending(field@, weak as int, mask@, stack@, cx as int, cy as int)) by {
                assert forall|i: int, j: int| mask@.contains(i, j) && #[trigger] mask@.at(i, j) implies closed_at(
                    field@,
                    weak as int,
                    mask@,
                    i,
                    j,
                ) || on_stack(stack@, i, j) || (i == cx && j == cy) by {
                    if !closed_at(field@, weak as int, mask@, i, j) && !(i == cx && j == cy) {
                        assert(on_stack(waiting, i, j));
                        let n = choose|n: int|
                            0 <= n < waiting.len() && (#[trigger] waiting[n]).0 == i && waiting[n].1
                                == j;
                        assert(stack@[n] == waiting[n]);
                    }
                }
            }
            assert(stack_marked(mask@, stack@)) by {
                assert forall|n: int| 0 <= n < stack@.len() implies mask@.contains(
                    (#[trigger] stack@[n]).0 as int,
                    stack@[n].1 as int,
                ) && mask@.at(stack@[n].0 as int, stack@[n].1 as int) by {
                    assert(stack@[n] == waiting[n]);
                }
            }
        }
        visit_neighbours(field, weak, Ghost(strong), mask, stack, cx, cy);
        proof {
            assert(grows(old(mask)@, mask@)) by {
                assert forall|i: int, j: int| old(mask)@.contains(i, j) && #[trigger] old(mask)@.at(
                    i,
                    j,
                ) implies mask@.at(i, j) by {
                    assert(marked.at(i, j));
                }
            }
            assert(marked.at(x as int, y as int));
        }
    }
    proof {
        assert(pending(field@, weak as int, mask@, stack@, -1, -1));
    }
}

/// Finds the edges of a suppressed field: the pixels to which a chain of
/// neighbouring pixels, each reaching `weak`, leads from an interior pixel
/// that reaches `strong`.
pub fn link_edges(field: &GradientField, weak: u32, strong: u32) -> (mask: Plane<bool>)
    ensures
        mask@ == accepted_mask(field@, weak as int, strong as int),
{
    let width: u32 = field.width();
    let height: u32 = field.height();
    let mut mask: Plane<bool> = Plane::filled(width, height, false);
    let mut stack: Vec<(u32, u32)> = Vec::new();
    let ghost goal = accepted_mask(field@, weak as int, strong as int);
    if width >= 3 && height >= 3 {
        let mut y: u32 = 1;
        while y < height - 1
            invariant
                1 <= y <= height - 1,
                3 <= width == field@.width,
                3 <= height == field@.height,
                field@.wf(),
                mask@.wf(),
                mask@.width == width,
                mask@.height == height,
                stack@.len() == 0,
                sound(field@, weak as int, strong as int, mask@),
                pending(field@, weak as int, mask@, stack@, -1, -1),
                forall|i: int, j: int|
                    j < y && #[trigger] is_strong(field@, strong as int, i, j) ==> mask@.at(i, j),
            decreases height - y,
        {
            let mut x: u32 = 1;
            while x < width - 1
                invariant
                    1 <= y < height - 1,
                    1 <= x <= width - 1,
                    3 <= width == field@.width,
                    3 <= height == field@.height,
                    field@.wf(),
                    mask@.wf(),
                    mask@.width == width,
                    mask@.height == height,
                    stack@.len() == 0,
                    sound(field@, weak as int, strong as int, mask@),
                    pending(field@, weak as int, mask@, stack@, -1, -1),
                    forall|i: int, j: int|
                        (j < y || (j == y && i < x)) && #[trigger] is_strong(
                            field@,
                            strong as int,
                            i,
                            j,
                        ) ==> mask@.at(i, j),
                decreases width - x,
            {
                if reaches_threshold(field.get(x, y), strong) && !mask.get(x, y) {
                    let ghost before = mask@;
                    grow(field, weak, Ghost(strong as int), &mut mask, &mut stack, x, y);
                    proof {
                        assert forall|i: int, j: int|
                            (j < y || (j == y && i < x + 1)) && #[trigger] is_strong(
                                field@,
                                strong as int,
                                i,
                                j,
                            ) implies mask@.at(i, j) by {
                            if i != x || j != y {
                                assert(before.at(i, j));
                            }
                        }
                    }
                }
                x = x + 1;
            }
            y = y + 1;
        }
    }
    proof {
        assert forall|i: int, j: int| mask@.contains(i, j) && #[trigger] mask@.at(i, j) implies closed_at(
            field@,
            weak as int,
            mask@,
            i,
            j,
        ) by {
            assert(!on_stack(stack@, i, j));
        }
        assert forall|j: int| 0 <= j < height implies #[trigger] mask@.rows[j] =~= goal.rows[j] by {
            assert forall|i: int| 0 <= i < width implies mask@.rows[j][i] == goal.rows[j][i] by {
                if accepted(field@, weak as int, strong as int, i, j) {
                    let path = choose|path: Seq<(int, int)>| #[trigger]
                        is_chain(field@, weak as int, strong as int, path) && path.last() == (i, j);
                    lemma_chain_marked(field@, weak as int, strong as int, mask@, path);
                }
                if mask@.at(i, j) {
                    assert(accepted(field@, weak as int, strong as int, i, j));
                }
            }
        }
        assert(mask@ =~~= goal);
    }
    mask
}

} // verus!
