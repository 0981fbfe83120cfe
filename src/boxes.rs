//! Box algebra: interpolation at a rational fraction, its inverse, and
//! rectangles cut from a grid of split edges.

use vstd::prelude::*;

verus! {

/// Fixed-point unit: the coordinate `ONE` stands for the real number 1.
pub const ONE: u64 = 4294967296;

/// A rectangle over the integers, the mathematical value of a [`Box2`].
pub struct Rect {
    pub x0: int,
    pub y0: int,
    pub x1: int,
    pub y1: int,
}

/// The rectangle has its corners in order and lies within [0, ONE]².
pub open spec fn rect_in_unit(r: Rect) -> bool {
    0 <= r.x0 <= r.x1 <= ONE && 0 <= r.y0 <= r.y1 <= ONE
}

/// The point lies in the closed rectangle.
pub open spec fn point_in_rect(p: (u32, u32), r: Rect) -> bool {
    r.x0 <= p.0 <= r.x1 && r.y0 <= p.1 <= r.y1
}

/// An axis-aligned box with fixed-point corners.
#[derive(Debug, Clone, Copy, PartialEq, Eq)]
pub struct Box2 {
    pub min: (u64, u64),
    pub max: (u64, u64),
}

impl View for Box2 {
    type V = Rect;

    open spec fn view(&self) -> Rect {
        Rect {
            x0: self.min.0 as int,
            y0: self.min.1 as int,
            x1: self.max.0 as int,
            y1: self.max.1 as int,
        }
    }
}

/// `a + t * (b - a)` for the fraction `t = num / den`, rounded down.
pub open spec fn lerp_spec(a: int, b: int, num: int, den: int) -> int {
    a + (b - a) * num / den
}

pub(crate) proof fn lemma_lerp_bounds(a: int, b: int, num: int, den: int)
    requires
        a <= b,
        0 <= num <= den,
        0 < den,
    ensures
        a <= lerp_spec(a, b, num, den) <= b,
        num < den && a < b ==> lerp_spec(a, b, num, den) < b,
{
    let w = b - a;
    assert(0 <= w * num <= w * den) by (nonlinear_arith)
        requires
            0 <= w,
            0 <= num <= den,
    ;
    assert(0 <= (w * num) / den <= w) by (nonlinear_arith)
        requires
            0 <= w * num <= w * den,
            0 < den,
    ;
    if num < den && a < b {
        assert(w * num < w * den) by (nonlinear_arith)
            requires
                0 < w,
                0 <= num < den,
        ;
        assert((w * num) / den < w) by (nonlinear_arith)
            requires
                0 <= w * num < w * den,
                0 < den,
        ;
    }
}

/// Interpolates between `a` and `b` at the fraction `num / den`, rounding down.
/// The product `(b - a) * den` must fit in 128 bits.
pub fn lerp(a: u64, b: u64, num: u128, den: u128) -> (r: u64)
    requires
        a <= b,
        num <= den,
        0 < den,
        (b - a) * den <= u128::MAX,
    ensures
        r == lerp_spec(a as int, b as int, num as int, den as int),
        a <= r <= b,
{
    proof {
        lemma_lerp_bounds(a as int, b as int, num as int, den as int);
        assert((b - a) * num <= (b - a) * den) by (nonlinear_arith)
            requires
                0 <= b - a,
                0 <= num <= den,
        ;
    }
    let d: u128 = ((b - a) as u128 * num) / den;
    a + d as u64
}

/// The position of `m` between `a` and `b`, as the fraction
/// `(m - a) / (b - a)`; `None` when the interval is empty (`a == b`).
pub fn lerp_factor(a: u64, b: u64, m: u64) -> (r: Option<(u64, u64)>)
    requires
        a <= m <= b,
    ensures
        a == b <==> r is None,
        r matches Some(f) ==> f.0 == m - a && f.1 == b - a,
{
    if a == b {
        None
    } else {
        Some((m - a, b - a))
    }
}

/// The box of child `i` (bit 0: column, bit 1: row) of a 2×2 subdivision
/// whose edges are `edge[0..3]`, each holding an x and a y coordinate.
pub open spec fn child_box_spec(i: int, edge: Seq<(u64, u64)>) -> Rect {
    let ox = i % 2;
    let oy = i / 2;
    Rect {
        x0: edge[ox].0 as int,
        y0: edge[oy].1 as int,
        x1: edge[1 + ox].0 as int,
        y1: edge[1 + oy].1 as int,
    }
}

/// Cuts child `i` out of the 2×2 subdivision with edges `edge`.
pub fn child_box(i: usize, edge: [(u64, u64); 3]) -> (r: Box2)
    requires
        i < 4,
    ensures
        r@ == child_box_spec(i as int, edge@),
{
    let ox: usize = i % 2;
    let oy: usize = i / 2;
    Box2 { min: (edge[ox].0, edge[oy].1), max: (edge[1 + ox].0, edge[1 + oy].1) }
}

/// Where a coordinate `m` of the interval [a, b] lands in [t0, t1]: at the
/// same fraction of the way, rounded down; at the middle of [t0, t1] when
/// [a, b] is a single point (a box flattened by rounding on that axis).
pub open spec fn remap_axis(t0: int, t1: int, m: int, a: int, b: int) -> int {
    if a == b {
        t0 + (t1 - t0) / 2
    } else {
        lerp_spec(t0, t1, m - a, b - a)
    }
}

/// The point of `texture` at the position that `point` has in `warp`, each axis
/// on its own.
pub open spec fn remap_spec(point: (u32, u32), texture: Rect, warp: Rect) -> (int, int) {
    (
        remap_axis(texture.x0, texture.x1, point.0 as int, warp.x0, warp.x1),
        remap_axis(texture.y0, texture.y1, point.1 as int, warp.y0, warp.y1),
    )
}

fn remap_coordinate(t0: u64, t1: u64, m: u64, a: u64, b: u64) -> (r: u64)
    requires
        t0 <= t1 <= ONE,
        a <= m <= b,
    ensures
        r == remap_axis(t0 as int, t1 as int, m as int, a as int, b as int),
        t0 <= r <= t1,
{
    proof {
        assert((t1 - t0) * (b - a) <= u128::MAX) by (nonlinear_arith)
            requires
                0 <= t1 - t0 <= ONE,
                0 <= b - a <= u64::MAX,
        ;
    }
    match lerp_factor(a, b, m) {
        Some(f) => lerp(t0, t1, f.0 as u128, f.1 as u128),
        None => lerp(t0, t1, 1, 2),
    }
}

/// Carries `point` from the box `warp` to the box `texture_region`. An axis
/// on which `warp` has zero extent maps to the middle of `texture_region` on
/// that axis.
pub fn warp_a_point(point: (u32, u32), texture_region: &Box2, warp: &Box2) -> (r: (u64, u64))
    requires
        point_in_rect(point, warp@),
        texture_region.min.0 <= texture_region.max.0 <= ONE,
        texture_region.min.1 <= texture_region.max.1 <= ONE,
    ensures
        (r.0 as int, r.1 as int) == remap_spec(point, texture_region@, warp@),
        texture_region.min.0 <= r.0 <= texture_region.max.0,
        texture_region.min.1 <= r.1 <= texture_region.max.1,
{
    (
        remap_coordinate(texture_region.min.0, texture_region.max.0, point.0 as u64, warp.min.0, warp.max.0),
        remap_coordinate(texture_region.min.1, texture_region.max.1, point.1 as u64, warp.min.1, warp.max.1),
    )
}

} // verus!
