//! The warp engine: routes points down the density pyramid, coarsest level
//! first, through nested boxes whose areas follow the measured density, and
//! maps each point into the texture cell where the measurements run out.

use vstd::arithmetic::div_mod::lemma_div_multiples_vanish_quotient;
use vstd::arithmetic::power2::{lemma2_to64, lemma_pow2_adds, lemma_pow2_pos, lemma_pow2_unfold, pow2};
use vstd::prelude::*;

use crate::laws::{lemma_positive_warp_succeeds, lemma_warp_conserves_points, positive_pyramid};
use crate::boxes::{
    child_box, lerp, lerp_spec, point_in_rect, rect_in_unit,
    remap_spec, warp_a_point, Box2, Rect, ONE,
};

verus! {

/// Deepest pyramid that the fixed-point resolution can address.
pub const MAX_LEVELS: usize = 31;

/// Why a warp could not be carried out.
#[derive(Debug, Clone, Copy, PartialEq, Eq)]
pub enum WarpError {
    /// Level `i` (coarsest first) is not a `2^(i+1)` square grid, there is no
    /// level, or there are more than `MAX_LEVELS`.
    MalformedPyramid,
    /// The 2×2 block at (`x`, `y`) of `level` has zero weighted mass, and
    /// `points` points were routed into it.
    DegenerateDensity { level: usize, x: usize, y: usize, points: usize },
}

/// Every row of `g` has `side` cells, and there are `side` rows.
pub open spec fn square_grid(g: Seq<Seq<u64>>, side: int) -> bool {
    g.len() == side && forall|r: int| 0 <= r < side ==> (#[trigger] g[r]).len() == side
}

/// A pyramid, coarsest level first, that the warp can walk: level `i` is a
/// `2^(i+1)`-square grid, and there are between 1 and `MAX_LEVELS` levels.
pub open spec fn pyramid_wf(pyr: Seq<Seq<Seq<u64>>>) -> bool {
    1 <= pyr.len() <= MAX_LEVELS && forall|l: int|
        0 <= l < pyr.len() ==> square_grid(#[trigger] pyr[l], pow2((l + 1) as nat) as int)
}

/// Side of a texture cell at `level`, in fixed-point units: `ONE / 2^(level+1)`.
pub open spec fn cell_unit(level: int) -> int {
    pow2((31 - level) as nat) as int
}

/// The texture-space box of the 2×2 block at (`x`, `y`) of `level`.
pub open spec fn texture_rect(level: int, x: int, y: int) -> Rect {
    let u = cell_unit(level);
    Rect { x0: x * u, y0: y * u, x1: (x + 2) * u, y1: (y + 2) * u }
}

/// The edge at fraction `num / den` of [a, b]; the middle when `den` is zero
/// (an empty row, whose split is never used for mass).
pub open spec fn split_at(a: int, b: int, num: int, den: int) -> int {
    if den == 0 {
        a + (b - a) / 2
    } else {
        lerp_spec(a, b, num, den)
    }
}

/// The three split edges of `b` for the weights (tl, tr, bl, br): the row
/// edge in y, then the column edges of the top and of the bottom row in x.
pub open spec fn split_edges(tl: int, tr: int, bl: int, br: int, b: Rect) -> (int, int, int) {
    (
        split_at(b.y0, b.y1, tl + tr, tl + tr + bl + br),
        split_at(b.x0, b.x1, tl, tl + tr),
        split_at(b.x0, b.x1, bl, bl + br),
    )
}

/// The child box `q` (0 top-left, 1 top-right, 2 bottom-left, 3 bottom-right).
pub open spec fn quad_rect(b: Rect, e: (int, int, int), q: int) -> Rect {
    if q == 0 {
        Rect { x0: b.x0, y0: b.y0, x1: e.1, y1: e.0 }
    } else if q == 1 {
        Rect { x0: e.1, y0: b.y0, x1: b.x1, y1: e.0 }
    } else if q == 2 {
        Rect { x0: b.x0, y0: e.0, x1: e.2, y1: b.y1 }
    } else {
        Rect { x0: e.2, y0: e.0, x1: b.x1, y1: b.y1 }
    }
}

/// The child a point is routed into: bottom when below the row edge, then
/// right when beyond that row's column edge.
pub open spec fn quadrant(p: (u32, u32), e: (int, int, int)) -> int {
    if p.1 > e.0 {
        if p.0 > e.2 {
            3
        } else {
            2
        }
    } else {
        if p.0 > e.1 {
            1
        } else {
            0
        }
    }
}

/// The points of `pts` routed into child `q`, in their order.
pub open spec fn bucket(pts: Seq<(u32, u32)>, e: (int, int, int), q: int) -> Seq<(u32, u32)>
    decreases pts.len(),
{
    if pts.len() == 0 {
        pts
    } else {
        let rest = bucket(pts.drop_last(), e, q);
        if quadrant(pts.last(), e) == q {
            rest.push(pts.last())
        } else {
            rest
        }
    }
}

/// The first error of the two, or both outputs one after the other.
pub open spec fn join(
    r: Result<Seq<(int, int)>, WarpError>,
    s: Result<Seq<(int, int)>, WarpError>,
) -> Result<Seq<(int, int)>, WarpError> {
    match r {
        Err(e) => Err(e),
        Ok(a) => match s {
            Err(e) => Err(e),
            Ok(b) => Ok(a + b),
        },
    }
}

/// Density of cell (`x`, `y`) of `level`.
pub open spec fn density(pyr: Seq<Seq<Seq<u64>>>, level: int, x: int, y: int) -> int {
    pyr[level][y][x] as int
}

/// Each point carried from the reference box `b` to the texture box of the
/// block (`x`, `y`) of `level`.
pub open spec fn remap_all(level: int, x: int, y: int, b: Rect, pts: Seq<(u32, u32)>) -> Seq<(int, int)> {
    pts.map_values(|p: (u32, u32)| remap_spec(p, texture_rect(level, x, y), b))
}

/// The outcome of warping `pts`, known to lie in the reference box `b`, from
/// the 2×2 block at (`x`, `y`) of `level`, where the parent gave the block the
/// mass `scale`.
pub open spec fn warp_cell(
    pyr: Seq<Seq<Seq<u64>>>,
    level: int,
    x: int,
    y: int,
    scale: int,
    b: Rect,
    pts: Seq<(u32, u32)>,
) -> Result<Seq<(int, int)>, WarpError>
    decreases pyr.len() - level,
{
    if pts.len() == 0 {
        Ok(Seq::empty())
    } else if level >= pyr.len() {
        Ok(remap_all(level, x, y, b, pts))
    } else {
        let tl = scale * density(pyr, level, x, y);
        let tr = scale * density(pyr, level, x + 1, y);
        let bl = scale * density(pyr, level, x, y + 1);
        let br = scale * density(pyr, level, x + 1, y + 1);
        if tl + tr + bl + br == 0 {
            Err(
                WarpError::DegenerateDensity {
                    level: level as usize,
                    x: x as usize,
                    y: y as usize,
                    points: pts.len() as usize,
                },
            )
        } else {
            let e = split_edges(tl, tr, bl, br, b);
            let l = level + 1;
            join(
                join(
                    join(
                        warp_cell(pyr, l, 2 * x, 2 * y, tl, quad_rect(b, e, 0), bucket(pts, e, 0)),
                        warp_cell(pyr, l, 2 * x + 2, 2 * y, tr, quad_rect(b, e, 1), bucket(pts, e, 1)),
                    ),
                    warp_cell(pyr, l, 2 * x, 2 * y + 2, bl, quad_rect(b, e, 2), bucket(pts, e, 2)),
                ),
                warp_cell(pyr, l, 2 * x + 2, 2 * y + 2, br, quad_rect(b, e, 3), bucket(pts, e, 3)),
            )
        }
    }
}

/// The whole unit square.
pub open spec fn unit_rect() -> Rect {
    Rect { x0: 0, y0: 0, x1: ONE as int, y1: ONE as int }
}

/// The outcome of warping `pts` through `pyr` (coarsest level first).
pub open spec fn warp_result(pyr: Seq<Seq<Seq<u64>>>, pts: Seq<(u32, u32)>) -> Result<Seq<(int, int)>, WarpError> {
    if !pyramid_wf(pyr) {
        Err(WarpError::MalformedPyramid)
    } else {
        warp_cell(pyr, 0, 0, 0, 1, unit_rect(), pts)
    }
}

/// The points of `s` as pairs of integers.
pub open spec fn coords(s: Seq<(u32, u32)>) -> Seq<(int, int)> {
    s.map_values(|p: (u32, u32)| (p.0 as int, p.1 as int))
}


proof fn lemma_split_at_scale(a: int, b: int, n: int, d: int, s: int)
    requires
        a <= b,
        0 <= n,
        0 <= d,
        0 < s,
    ensures
        split_at(a, b, s * n, s * d) == split_at(a, b, n, d),
{
    assert(s * d == 0 <==> d == 0) by (nonlinear_arith)
        requires
            0 < s,
            0 <= d,
    ;
    if d != 0 {
        let w = b - a;
        assert(w * (s * n) == s * (w * n)) by (nonlinear_arith);
        assert(0 <= w * n) by (nonlinear_arith)
            requires
                0 <= w,
                0 <= n,
        ;
        lemma_div_multiples_vanish_quotient(s, w * n, d);
    }
}

pub(crate) proof fn lemma_split_at_bounds(a: int, b: int, n: int, d: int)
    requires
        a <= b,
        0 <= n <= d,
    ensures
        a <= split_at(a, b, n, d) <= b,
{
    if d != 0 {
        crate::boxes::lemma_lerp_bounds(a, b, n, d);
    }
}

/// Scaling all four weights by the same positive mass leaves the split edges
/// as they were.
proof fn lemma_split_edges_scale(s: int, tl: int, tr: int, bl: int, br: int, b: Rect)
    requires
        0 < s,
        0 <= tl,
        0 <= tr,
        0 <= bl,
        0 <= br,
        b.x0 <= b.x1,
        b.y0 <= b.y1,
    ensures
        split_edges(s * tl, s * tr, s * bl, s * br, b) == split_edges(tl, tr, bl, br, b),
{
    assert(s * tl + s * tr == s * (tl + tr)) by (nonlinear_arith);
    assert(s * bl + s * br == s * (bl + br)) by (nonlinear_arith);
    assert(s * tl + s * tr + s * bl + s * br == s * (tl + tr + bl + br)) by (nonlinear_arith);
    lemma_split_at_scale(b.y0, b.y1, tl + tr, tl + tr + bl + br, s);
    lemma_split_at_scale(b.x0, b.x1, tl, tl + tr, s);
    lemma_split_at_scale(b.x0, b.x1, bl, bl + br, s);
}

fn split_x(b: &Box2, num: u128, den: u128) -> (r: u64)
    requires
        b.min.0 <= b.max.0 <= ONE,
        num <= den <= 2 * u64::MAX,
    ensures
        r == split_at(b.min.0 as int, b.max.0 as int, num as int, den as int),
{
    proof {
        assert((b.max.0 - b.min.0) * den <= u128::MAX) by (nonlinear_arith)
            requires
                0 <= b.max.0 - b.min.0 <= ONE,
                0 <= den <= 2 * u64::MAX,
        ;
    }
    if den == 0 {
        lerp(b.min.0, b.max.0, 1, 2)
    } else {
        lerp(b.min.0, b.max.0, num, den)
    }
}

/// Splits `b` into four boxes whose areas follow the weights `pdfs`
/// (top-left, top-right, bottom-left, bottom-right); `None` when all four
/// weights are zero.
pub fn split_cell(pdfs: [u64; 4], b: &Box2) -> (r: Option<[Box2; 4]>)
    requires
        rect_in_unit(b@),
    ensures
        r is None <==> pdfs[0] + pdfs[1] + pdfs[2] + pdfs[3] == 0,
        r matches Some(boxes) ==> forall|q: int|
            0 <= q < 4 ==> (#[trigger] boxes[q])@ == quad_rect(
                b@,
                split_edges(pdfs[0] as int, pdfs[1] as int, pdfs[2] as int, pdfs[3] as int, b@),
                q,
            ),
{
    let tl = pdfs[0] as u128;
    let tr = pdfs[1] as u128;
    let bl = pdfs[2] as u128;
    let br = pdfs[3] as u128;
    let sum = tl + tr + bl + br;
    if sum == 0 {
        return None;
    }
    proof {
        assert((b.max.1 - b.min.1) * sum <= u128::MAX) by (nonlinear_arith)
            requires
                0 <= b.max.1 - b.min.1 <= ONE,
                0 <= sum <= 4 * u64::MAX,
        ;
    }
    let row_y = lerp(b.min.1, b.max.1, tl + tr, sum);
    let top_x = split_x(b, tl, tl + tr);
    let bottom_x = split_x(b, bl, bl + br);
    let top_edge = [(b.min.0, b.min.1), (top_x, row_y), (b.max.0, b.max.1)];
    let bottom_edge = [(b.min.0, b.min.1), (bottom_x, row_y), (b.max.0, b.max.1)];
    let boxes = [
        child_box(0, top_edge),
        child_box(1, top_edge),
        child_box(2, bottom_edge),
        child_box(3, bottom_edge),
    ];
    proof {
        let e = split_edges(tl as int, tr as int, bl as int, br as int, b@);
        assert(boxes[0]@ == quad_rect(b@, e, 0));
        assert(boxes[1]@ == quad_rect(b@, e, 1));
        assert(boxes[2]@ == quad_rect(b@, e, 2));
        assert(boxes[3]@ == quad_rect(b@, e, 3));
    }
    Some(boxes)
}


/// Every point of a bucket stays in the box its source points were in, and
/// was routed into that bucket's child.
pub(crate) proof fn lemma_bucket_members(pts: Seq<(u32, u32)>, e: (int, int, int), q: int, r: Rect)
    requires
        forall|i: int| 0 <= i < pts.len() ==> point_in_rect(#[trigger] pts[i], r),
    ensures
        forall|j: int|
            0 <= j < bucket(pts, e, q).len() ==> point_in_rect(#[trigger] bucket(pts, e, q)[j], r)
                && quadrant(bucket(pts, e, q)[j], e) == q,
    decreases pts.len(),
{
    if pts.len() > 0 {
        let init = pts.drop_last();
        assert forall|i: int| 0 <= i < init.len() implies point_in_rect(#[trigger] init[i], r) by {
            assert(init[i] == pts[i]);
        }
        lemma_bucket_members(init, e, q, r);
        let rest = bucket(init, e, q);
        assert(point_in_rect(pts.last(), r));
        if quadrant(pts.last(), e) == q {
            assert forall|j: int| 0 <= j < rest.len() + 1 implies point_in_rect(
                #[trigger] rest.push(pts.last())[j],
                r,
            ) && quadrant(rest.push(pts.last())[j], e) == q by {
                if j < rest.len() {
                    assert(rest.push(pts.last())[j] == rest[j]);
                }
            }
        }
    }
}

/// A point routed into child `q` lies in that child's box.
proof fn lemma_quadrant_in_child(p: (u32, u32), b: Rect, e: (int, int, int), q: int)
    requires
        point_in_rect(p, b),
        quadrant(p, e) == q,
    ensures
        point_in_rect(p, quad_rect(b, e, q)),
{
}

/// Whether `mipmaps`, coarsest level first, is a pyramid the warp can walk.
fn pyramid_is_well_formed(mipmaps: &Vec<Vec<Vec<u64>>>) -> (r: bool)
    ensures
        r == pyramid_wf(mipmaps.deep_view()),
{
    let ghost pyr = mipmaps.deep_view();
    let n = mipmaps.len();
    if n < 1 || n > MAX_LEVELS {
        return false;
    }
    let mut side: u64 = 2;
    let mut l: usize = 0;
    proof {
        lemma2_to64();
    }
    while l < n
        invariant
            pyr == mipmaps.deep_view(),
            n == mipmaps.len(),
            pyr.len() == n,
            1 <= n <= MAX_LEVELS,
            l <= n,
            side == pow2((l + 1) as nat),
            forall|k: int| 0 <= k < l ==> square_grid(#[trigger] pyr[k], pow2((k + 1) as nat) as int),
        decreases n - l,
    {
        let g = &mipmaps[l];
        assert(pyr[l as int] == g.deep_view());
        if g.len() as u64 != side {
            assert(!square_grid(pyr[l as int], pow2((l + 1) as nat) as int));
            return false;
        }
        let mut r: usize = 0;
        while r < g.len()
            invariant
                pyr == mipmaps.deep_view(),
                pyr[l as int] == g.deep_view(),
                pyr.len() == n,
                l < n,
                side == pow2((l + 1) as nat),
                g.len() == side,
                r <= g.len(),
                forall|j: int| 0 <= j < r ==> (#[trigger] pyr[l as int][j]).len() == side,
            decreases g.len() - r,
        {
            assert(pyr[l as int][r as int] == g[r as int].deep_view());
            assert(pyr[l as int][r as int].len() == g[r as int].len());
            if g[r].len() as u64 != side {
                assert(!square_grid(pyr[l as int], pow2((l + 1) as nat) as int));
                return false;
            }
            r += 1;
        }
        assert(square_grid(pyr[l as int], side as int));
        proof {
            lemma2_to64();
            lemma_pow2_unfold((l + 2) as nat);
            assert(pow2((l + 1) as nat) <= pow2(31)) by {
                if l + 1 < 31 {
                    vstd::arithmetic::power2::lemma_pow2_strictly_increases((l + 1) as nat, 31);
                }
            }
        }
        side = side * 2;
        l += 1;
    }
    true
}


/// What the recursion keeps true of the block it stands at: the block is in
/// the grid of its level, and a block on the right or bottom border of the
/// grid has a reference box that reaches the border of the unit square.
pub open spec fn block_wf(pyr: Seq<Seq<Seq<u64>>>, level: int, x: int, y: int, b: Rect) -> bool {
    &&& pyramid_wf(pyr)
    &&& 0 <= level <= pyr.len()
    &&& 0 <= x && 0 <= y
    &&& x + 2 <= pow2((level + 1) as nat)
    &&& y + 2 <= pow2((level + 1) as nat)
    &&& rect_in_unit(b)
    &&& x + 2 == pow2((level + 1) as nat) ==> b.x1 == ONE
    &&& y + 2 == pow2((level + 1) as nat) ==> b.y1 == ONE
}

/// Every point of `pts` lies in `b`.
pub open spec fn all_in(pts: Seq<(u32, u32)>, b: Rect) -> bool {
    forall|i: int| 0 <= i < pts.len() ==> point_in_rect(#[trigger] pts[i], b)
}

/// Both coordinates lie in [0, ONE), the fixed-point form of [0,1).
pub open spec fn in_unit_square(p: (int, int)) -> bool {
    0 <= p.0 < ONE && 0 <= p.1 < ONE
}

/// The point lies in the closed rectangle.
pub open spec fn in_rect(p: (int, int), r: Rect) -> bool {
    r.x0 <= p.0 <= r.x1 && r.y0 <= p.1 <= r.y1
}

/// The texture box of a block of the grid at `level` lies in the unit
/// square, and reaches its right (bottom) border only where the block's
/// reference box does.
pub(crate) proof fn lemma_texture_rect_bounds(level: int, x: int, y: int, b: Rect)
    requires
        0 <= level <= 31,
        0 <= x && 0 <= y,
        x + 2 <= pow2((level + 1) as nat),
        y + 2 <= pow2((level + 1) as nat),
        x + 2 == pow2((level + 1) as nat) ==> b.x1 == ONE,
        y + 2 == pow2((level + 1) as nat) ==> b.y1 == ONE,
    ensures
        ({
            let t = texture_rect(level, x, y);
            &&& 0 <= t.x0 && t.x0 + 2 * cell_unit(level) == t.x1 && t.x1 <= ONE
            &&& 0 <= t.y0 && t.y0 + 2 * cell_unit(level) == t.y1 && t.y1 <= ONE
            &&& 0 < cell_unit(level)
            &&& t.x1 < ONE || b.x1 == ONE
            &&& t.y1 < ONE || b.y1 == ONE
        }),
{
    let u = cell_unit(level);
    let big = pow2((level + 1) as nat) as int;
    lemma2_to64();
    lemma_pow2_adds((level + 1) as nat, (31 - level) as nat);
    lemma_pow2_pos((31 - level) as nat);
    assert(big * u == ONE);
    assert(0 <= x * u && x * u + 2 * u == (x + 2) * u && (x + 2) * u <= big * u) by (nonlinear_arith)
        requires
            0 <= x,
            x + 2 <= big,
            0 < u,
    ;
    assert(0 <= y * u && y * u + 2 * u == (y + 2) * u && (y + 2) * u <= big * u) by (nonlinear_arith)
        requires
            0 <= y,
            y + 2 <= big,
            0 < u,
    ;
    if x + 2 < big {
        assert((x + 2) * u < big * u) by (nonlinear_arith)
            requires
                x + 2 < big,
                0 < u,
        ;
    }
    if y + 2 < big {
        assert((y + 2) * u < big * u) by (nonlinear_arith)
            requires
                y + 2 < big,
                0 < u,
        ;
    }
}

/// A point of a block's reference box lands in the block's texture box, and
/// in the unit square.
pub(crate) proof fn lemma_remap_in_texture(level: int, x: int, y: int, b: Rect, p: (u32, u32))
    requires
        0 <= level <= 31,
        0 <= x && 0 <= y,
        x + 2 <= pow2((level + 1) as nat),
        y + 2 <= pow2((level + 1) as nat),
        rect_in_unit(b),
        x + 2 == pow2((level + 1) as nat) ==> b.x1 == ONE,
        y + 2 == pow2((level + 1) as nat) ==> b.y1 == ONE,
        point_in_rect(p, b),
    ensures
        in_rect(remap_spec(p, texture_rect(level, x, y), b), texture_rect(level, x, y)),
        in_unit_square(remap_spec(p, texture_rect(level, x, y), b)),
{
    let t = texture_rect(level, x, y);
    lemma_texture_rect_bounds(level, x, y, b);
    if b.x0 != b.x1 {
        crate::boxes::lemma_lerp_bounds(t.x0, t.x1, p.0 - b.x0, b.x1 - b.x0);
    }
    if b.y0 != b.y1 {
        crate::boxes::lemma_lerp_bounds(t.y0, t.y1, p.1 - b.y0, b.y1 - b.y0);
    }
}

/// The terminal step: carries each point from `b` to the texture box of the
/// block at (`x`, `y`) of `level`.
fn remap_points(
    level: usize,
    x: usize,
    y: usize,
    unit: u64,
    b: &Box2,
    points: &[(u32, u32)],
    warped_points: &mut Vec<(u32, u32)>,
)
    requires
        level <= MAX_LEVELS,
        x + 2 <= pow2((level + 1) as nat),
        y + 2 <= pow2((level + 1) as nat),
        rect_in_unit(b@),
        x + 2 == pow2((level + 1) as nat) ==> b.max.0 == ONE,
        y + 2 == pow2((level + 1) as nat) ==> b.max.1 == ONE,
        unit == cell_unit(level as int),
        all_in(points@, b@),
    ensures
        coords(final(warped_points)@) == coords(old(warped_points)@) + remap_all(
            level as int,
            x as int,
            y as int,
            b@,
            points@,
        ),
{
    let ghost t = texture_rect(level as int, x as int, y as int);
    proof {
        lemma_texture_rect_bounds(level as int, x as int, y as int, b@);
        assert(t.x0 == x * unit && t.y0 == y * unit);
    }
    let x0 = x as u64 * unit;
    let y0 = y as u64 * unit;
    let texture_box = Box2 { min: (x0, y0), max: (x0 + 2 * unit, y0 + 2 * unit) };
    assert(texture_box@ == t);
    let ghost start = coords(warped_points@);
    let mut i: usize = 0;
    while i < points.len()
        invariant
            level <= MAX_LEVELS,
            x + 2 <= pow2((level + 1) as nat),
            y + 2 <= pow2((level + 1) as nat),
            rect_in_unit(b@),
            x + 2 == pow2((level + 1) as nat) ==> b.max.0 == ONE,
            y + 2 == pow2((level + 1) as nat) ==> b.max.1 == ONE,
            i <= points@.len(),
            t == texture_rect(level as int, x as int, y as int),
            texture_box@ == t,
            t.x0 <= t.x1 <= ONE && t.y0 <= t.y1 <= ONE,
            all_in(points@, b@),
            coords(warped_points@) == start + remap_all(
                level as int,
                x as int,
                y as int,
                b@,
                points@.subrange(0, i as int),
            ),
        decreases points@.len() - i,
    {
        let p = points[i];
        assert(point_in_rect(points@[i as int], b@));
        let q = warp_a_point(p, &texture_box, b);
        proof {
            lemma_remap_in_texture(level as int, x as int, y as int, b@, p);
        }
        let ghost before = warped_points@;
        warped_points.push((q.0 as u32, q.1 as u32));
        proof {
            assert(coords(warped_points@) =~= coords(before).push((q.0 as int, q.1 as int)));
            let done = points@.subrange(0, i as int);
            assert(points@.subrange(0, i + 1) =~= done.push(p));
            assert(remap_all(level as int, x as int, y as int, b@, done.push(p)) =~= remap_all(
                level as int,
                x as int,
                y as int,
                b@,
                done,
            ).push(remap_spec(p, t, b@)));
        }
        i += 1;
    }
    assert(points@.subrange(0, points@.len() as int) =~= points@);
}

/// Routes `points` into the four children of `b` according to the split edges
/// held by `boxes` (row edge and top column edge in child 0, bottom column
/// edge in child 2).
fn route_points(points: &[(u32, u32)], boxes: &[Box2; 4], Ghost(e): Ghost<(int, int, int)>) -> (r: (
    Vec<(u32, u32)>,
    Vec<(u32, u32)>,
    Vec<(u32, u32)>,
    Vec<(u32, u32)>,
))
    requires
        boxes[0].max.1 == e.0,
        boxes[0].max.0 == e.1,
        boxes[2].max.0 == e.2,
    ensures
        r.0@ == bucket(points@, e, 0),
        r.1@ == bucket(points@, e, 1),
        r.2@ == bucket(points@, e, 2),
        r.3@ == bucket(points@, e, 3),
{
    let mut c0: Vec<(u32, u32)> = Vec::new();
    let mut c1: Vec<(u32, u32)> = Vec::new();
    let mut c2: Vec<(u32, u32)> = Vec::new();
    let mut c3: Vec<(u32, u32)> = Vec::new();
    let mut i: usize = 0;
    while i < points.len()
        invariant
            i <= points@.len(),
            boxes[0].max.1 == e.0,
            boxes[0].max.0 == e.1,
            boxes[2].max.0 == e.2,
            c0@ == bucket(points@.subrange(0, i as int), e, 0),
            c1@ == bucket(points@.subrange(0, i as int), e, 1),
            c2@ == bucket(points@.subrange(0, i as int), e, 2),
            c3@ == bucket(points@.subrange(0, i as int), e, 3),
        decreases points@.len() - i,
    {
        let p = points[i];
        proof {
            assert(points@.subrange(0, i + 1).drop_last() =~= points@.subrange(0, i as int));
        }
        if p.1 as u64 > boxes[0].max.1 {
            if p.0 as u64 > boxes[2].max.0 {
                c3.push(p);
            } else {
                c2.push(p);
            }
        } else {
            if p.0 as u64 > boxes[0].max.0 {
                c1.push(p);
            } else {
                c0.push(p);
            }
        }
        i += 1;
    }
    assert(points@.subrange(0, points@.len() as int) =~= points@);
    (c0, c1, c2, c3)
}

/// The weights the recursion reads, `pdfs` (zero when the block has no
/// mass), scaled by `scale` are the block's weighted densities.
proof fn lemma_weights(scale: int, alive: bool, v: [u64; 4], pdfs: [u64; 4], w: (int, int, int, int))
    requires
        0 <= scale,
        alive == (scale > 0),
        alive ==> pdfs == v,
        !alive ==> pdfs[0] == 0 && pdfs[1] == 0 && pdfs[2] == 0 && pdfs[3] == 0,
        w.0 == scale * v[0],
        w.1 == scale * v[1],
        w.2 == scale * v[2],
        w.3 == scale * v[3],
    ensures
        w.0 == scale * pdfs[0] && w.1 == scale * pdfs[1] && w.2 == scale * pdfs[2] && w.3 == scale * pdfs[3],
        0 <= w.0 && 0 <= w.1 && 0 <= w.2 && 0 <= w.3,
        (w.0 > 0) == (pdfs[0] > 0) && (w.1 > 0) == (pdfs[1] > 0),
        (w.2 > 0) == (pdfs[2] > 0) && (w.3 > 0) == (pdfs[3] > 0),
        w.0 + w.1 + w.2 + w.3 == 0 <==> pdfs[0] + pdfs[1] + pdfs[2] + pdfs[3] == 0,
{
    let (d0, d1, d2, d3) = (pdfs[0] as int, pdfs[1] as int, pdfs[2] as int, pdfs[3] as int);
    if alive {
        assert(pdfs[0] == v[0] && pdfs[1] == v[1] && pdfs[2] == v[2] && pdfs[3] == v[3]);
    }
    assert(w.0 == scale * d0 && w.1 == scale * d1 && w.2 == scale * d2 && w.3 == scale * d3);
    assert(0 <= scale * d0 && 0 <= scale * d1 && 0 <= scale * d2 && 0 <= scale * d3) by (nonlinear_arith)
        requires
            0 <= scale,
            0 <= d0,
            0 <= d1,
            0 <= d2,
            0 <= d3,
    ;
    if alive {
        assert((scale * d0 > 0) == (d0 > 0) && (scale * d1 > 0) == (d1 > 0) && (scale * d2 > 0) == (d2 > 0)
            && (scale * d3 > 0) == (d3 > 0)) by (nonlinear_arith)
            requires
                scale > 0,
                0 <= d0,
                0 <= d1,
                0 <= d2,
                0 <= d3,
        ;
    }
}

/// The four children of a block satisfy what the recursion keeps true, and
/// each receives only points of its own box.
pub(crate) proof fn lemma_children(
    pyr: Seq<Seq<Seq<u64>>>,
    level: int,
    x: int,
    y: int,
    b: Rect,
    pts: Seq<(u32, u32)>,
    w: (int, int, int, int),
)
    requires
        block_wf(pyr, level, x, y, b),
        level < pyr.len(),
        all_in(pts, b),
        0 <= w.0 && 0 <= w.1 && 0 <= w.2 && 0 <= w.3,
        w.0 + w.1 + w.2 + w.3 > 0,
    ensures
        ({
            let e = split_edges(w.0, w.1, w.2, w.3, b);
            &&& block_wf(pyr, level + 1, 2 * x, 2 * y, quad_rect(b, e, 0))
            &&& block_wf(pyr, level + 1, 2 * x + 2, 2 * y, quad_rect(b, e, 1))
            &&& block_wf(pyr, level + 1, 2 * x, 2 * y + 2, quad_rect(b, e, 2))
            &&& block_wf(pyr, level + 1, 2 * x + 2, 2 * y + 2, quad_rect(b, e, 3))
            &&& all_in(bucket(pts, e, 0), quad_rect(b, e, 0))
            &&& all_in(bucket(pts, e, 1), quad_rect(b, e, 1))
            &&& all_in(bucket(pts, e, 2), quad_rect(b, e, 2))
            &&& all_in(bucket(pts, e, 3), quad_rect(b, e, 3))
        }),
        cell_unit(level + 1) == cell_unit(level) / 2,
{
    let (tl, tr, bl, br) = w;
    let e = split_edges(tl, tr, bl, br, b);
    lemma_split_at_bounds(b.y0, b.y1, tl + tr, tl + tr + bl + br);
    lemma_split_at_bounds(b.x0, b.x1, tl, tl + tr);
    lemma_split_at_bounds(b.x0, b.x1, bl, bl + br);
    lemma_pow2_unfold((level + 2) as nat);
    lemma_pow2_unfold((31 - level) as nat);
    assert forall|q: int| 0 <= q < 4 implies all_in(bucket(pts, e, q), #[trigger] quad_rect(b, e, q)) by {
        lemma_bucket_members(pts, e, q, b);
        assert forall|j: int| 0 <= j < bucket(pts, e, q).len() implies point_in_rect(
            #[trigger] bucket(pts, e, q)[j],
            quad_rect(b, e, q),
        ) by {
            lemma_quadrant_in_child(bucket(pts, e, q)[j], b, e, q);
        }
    }
}

/// Warps the points routed into each of the four children of a block, in
/// pre-order.
#[verifier::rlimit(100)]
fn warp_children(
    mipmaps: &Vec<Vec<Vec<u64>>>,
    level: usize,
    x: usize,
    y: usize,
    unit: u64,
    pdfs: [u64; 4],
    Ghost(w): Ghost<(int, int, int, int)>,
    Ghost(e): Ghost<(int, int, int)>,
    boxes: &[Box2; 4],
    points: &[(u32, u32)],
    c0: Vec<(u32, u32)>,
    c1: Vec<(u32, u32)>,
    c2: Vec<(u32, u32)>,
    c3: Vec<(u32, u32)>,
    warped_points: &mut Vec<(u32, u32)>,
) -> (res: Result<(), WarpError>)
    requires
        level < mipmaps.len(),
        unit == cell_unit(level as int),
        0 <= w.0 && 0 <= w.1 && 0 <= w.2 && 0 <= w.3,
        (w.0 > 0) == (pdfs[0] > 0) && (w.1 > 0) == (pdfs[1] > 0),
        (w.2 > 0) == (pdfs[2] > 0) && (w.3 > 0) == (pdfs[3] > 0),
        cell_unit(level + 1) == cell_unit(level as int) / 2,
        block_wf(mipmaps.deep_view(), level + 1, 2 * x, 2 * y, boxes[0]@),
        block_wf(mipmaps.deep_view(), level + 1, 2 * x + 2, 2 * y, boxes[1]@),
        block_wf(mipmaps.deep_view(), level + 1, 2 * x, 2 * y + 2, boxes[2]@),
        block_wf(mipmaps.deep_view(), level + 1, 2 * x + 2, 2 * y + 2, boxes[3]@),
        c0@ == bucket(points@, e, 0) && all_in(c0@, boxes[0]@),
        c1@ == bucket(points@, e, 1) && all_in(c1@, boxes[1]@),
        c2@ == bucket(points@, e, 2) && all_in(c2@, boxes[2]@),
        c3@ == bucket(points@, e, 3) && all_in(c3@, boxes[3]@),
    ensures
        ({
            let pyr = mipmaps.deep_view();
            let l = level + 1;
            match join(
                join(
                    join(
                        warp_cell(pyr, l, 2 * x, 2 * y, w.0, boxes[0]@, c0@),
                        warp_cell(pyr, l, 2 * x + 2, 2 * y, w.1, boxes[1]@, c1@),
                    ),
                    warp_cell(pyr, l, 2 * x, 2 * y + 2, w.2, boxes[2]@, c2@),
                ),
                warp_cell(pyr, l, 2 * x + 2, 2 * y + 2, w.3, boxes[3]@, c3@),
            ) {
                Ok(o) => res is Ok && coords(final(warped_points)@) == coords(old(warped_points)@) + o,
                Err(err) => res == Err::<(), WarpError>(err),
            }
        }),
    decreases mipmaps.len() - level, 0nat,
{
    proof {
        lemma2_to64();
        if level + 2 < 32 {
            vstd::arithmetic::power2::lemma_pow2_strictly_increases((level + 2) as nat, 32);
        }
    }
    let nl = level + 1;
    let nx = x * 2;
    let ny = y * 2;
    let nu = unit / 2;
    let ghost o = coords(warped_points@);
    let r = warp_recurse(mipmaps, nl, nx, ny, nu, pdfs[0] > 0, Ghost(w.0), &boxes[0], c0.as_slice(), warped_points);
    if r.is_err() {
        return r;
    }
    let r = warp_recurse(mipmaps, nl, nx + 2, ny, nu, pdfs[1] > 0, Ghost(w.1), &boxes[1], c1.as_slice(), warped_points);
    if r.is_err() {
        return r;
    }
    let r = warp_recurse(mipmaps, nl, nx, ny + 2, nu, pdfs[2] > 0, Ghost(w.2), &boxes[2], c2.as_slice(), warped_points);
    if r.is_err() {
        return r;
    }
    let r = warp_recurse(mipmaps, nl, nx + 2, ny + 2, nu, pdfs[3] > 0, Ghost(w.3), &boxes[3], c3.as_slice(), warped_points);
    if r.is_err() {
        return r;
    }
    proof {
        let pyr = mipmaps.deep_view();
        let l = level + 1;
        let o0 = warp_cell(pyr, l, 2 * x, 2 * y, w.0, boxes[0]@, c0@)->Ok_0;
        let o1 = warp_cell(pyr, l, 2 * x + 2, 2 * y, w.1, boxes[1]@, c1@)->Ok_0;
        let o2 = warp_cell(pyr, l, 2 * x, 2 * y + 2, w.2, boxes[2]@, c2@)->Ok_0;
        let o3 = warp_cell(pyr, l, 2 * x + 2, 2 * y + 2, w.3, boxes[3]@, c3@)->Ok_0;
        assert(o + (((o0 + o1) + o2) + o3) =~= ((o + o0 + o1) + o2) + o3);
    }
    Ok(())
}

/// Warps `points`, known to lie in the reference box `b`, from the 2×2 block
/// at (`x`, `y`) of `level`; `alive` tells whether the mass `scale` that the
/// parent gave the block is positive.
fn warp_recurse(
    mipmaps: &Vec<Vec<Vec<u64>>>,
    level: usize,
    x: usize,
    y: usize,
    unit: u64,
    alive: bool,
    Ghost(scale): Ghost<int>,
    b: &Box2,
    points: &[(u32, u32)],
    warped_points: &mut Vec<(u32, u32)>,
) -> (res: Result<(), WarpError>)
    requires
        block_wf(mipmaps.deep_view(), level as int, x as int, y as int, b@),
        unit == cell_unit(level as int),
        0 <= scale,
        alive == (scale > 0),
        all_in(points@, b@),
    ensures
        match warp_cell(mipmaps.deep_view(), level as int, x as int, y as int, scale, b@, points@) {
            Ok(o) => res is Ok && coords(final(warped_points)@) == coords(old(warped_points)@) + o,
            Err(e) => res == Err::<(), WarpError>(e),
        },
    decreases mipmaps.len() - level, 1nat,
{
    let ghost pyr = mipmaps.deep_view();
    if points.len() == 0 {
        assert(coords(warped_points@) =~= coords(warped_points@) + Seq::<(int, int)>::empty());
        return Ok(());
    }
    if level >= mipmaps.len() {
        remap_points(level, x, y, unit, b, points, warped_points);
        return Ok(());
    }
    let cur = &mipmaps[level];
    proof {
        lemma2_to64();
        if level + 1 < 31 {
            vstd::arithmetic::power2::lemma_pow2_strictly_increases((level + 1) as nat, 31);
        }
        assert(square_grid(pyr[level as int], pow2((level + 1) as nat) as int));
        assert(pyr[level as int] == cur.deep_view());
        assert(pyr[level as int][y as int] == cur[y as int].deep_view());
        assert(pyr[level as int][y + 1] == cur[y + 1].deep_view());
    }
    let top = &cur[y];
    let bottom = &cur[y + 1];
    let v = [top[x], top[x + 1], bottom[x], bottom[x + 1]];
    let ghost w = (
        scale * density(pyr, level as int, x as int, y as int),
        scale * density(pyr, level as int, x + 1, y as int),
        scale * density(pyr, level as int, x as int, y + 1),
        scale * density(pyr, level as int, x + 1, y + 1),
    );
    let pdfs: [u64; 4] = if alive {
        v
    } else {
        [0, 0, 0, 0]
    };
    proof {
        lemma_weights(scale, alive, v, pdfs, w);
        if alive {
            lemma_split_edges_scale(scale, pdfs[0] as int, pdfs[1] as int, pdfs[2] as int, pdfs[3] as int, b@);
        }
    }
    let boxes = match split_cell(pdfs, b) {
        Some(boxes) => boxes,
        None => {
            return Err(WarpError::DegenerateDensity { level, x, y, points: points.len() });
        },
    };
    let ghost e = split_edges(w.0, w.1, w.2, w.3, b@);
    assert(boxes[0]@ == quad_rect(b@, e, 0));
    assert(boxes[1]@ == quad_rect(b@, e, 1));
    assert(boxes[2]@ == quad_rect(b@, e, 2));
    assert(boxes[3]@ == quad_rect(b@, e, 3));
    let (c0, c1, c2, c3) = route_points(points, &boxes, Ghost(e));
    proof {
        lemma_children(pyr, level as int, x as int, y as int, b@, points@, w);
    }
    warp_children(mipmaps, level, x, y, unit, pdfs, Ghost(w), Ghost(e), &boxes, points, c0, c1, c2, c3, warped_points)
}


/// Warps `points` through the density pyramid `mipmaps`, given coarsest
/// level first, and appends the warped points to `warped_points`, grouped by
/// the cell each comes to rest in (pre-order: top-left, top-right,
/// bottom-left, bottom-right). On an error `warped_points` is left as it was.
/// Where rounding has flattened a point's last reference box on an axis,
/// the point goes to the middle of its texture cell on that axis.
pub fn warp(mipmaps: &Vec<Vec<Vec<u64>>>, points: &[(u32, u32)], warped_points: &mut Vec<(u32, u32)>) -> (res: Result<(), WarpError>)
    ensures
        match warp_result(mipmaps.deep_view(), points@) {
            Ok(o) => res is Ok && coords(final(warped_points)@) == coords(old(warped_points)@) + o,
            Err(e) => res == Err::<(), WarpError>(e) && final(warped_points)@ == old(warped_points)@,
        },
        pyramid_wf(mipmaps.deep_view()) && positive_pyramid(mipmaps.deep_view()) ==> res is Ok
            && final(warped_points)@.len() == old(warped_points)@.len() + points@.len(),
{
    proof {
        if pyramid_wf(mipmaps.deep_view()) && positive_pyramid(mipmaps.deep_view()) {
            lemma_positive_warp_succeeds(mipmaps.deep_view(), points@);
            lemma_warp_conserves_points(mipmaps.deep_view(), points@);
        }
    }
    if !pyramid_is_well_formed(mipmaps) {
        return Err(WarpError::MalformedPyramid);
    }
    let root = Box2 { min: (0, 0), max: (ONE, ONE) };
    proof {
        lemma2_to64();
        assert forall|i: int| 0 <= i < points@.len() implies point_in_rect(#[trigger] points@[i], root@) by {}
    }
    let mut out: Vec<(u32, u32)> = Vec::new();
    let r = warp_recurse(mipmaps, 0, 0, 0, 2147483648, true, Ghost(1), &root, points, &mut out);
    match r {
        Ok(()) => {
            let ghost before = warped_points@;
            let ghost produced = out@;
            warped_points.append(&mut out);
            assert(coords(warped_points@) =~= coords(before) + coords(produced));
            Ok(())
        },
        Err(e) => Err(e),
    }
}

} // verus!
