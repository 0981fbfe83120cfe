//! What holds of every warp: no point is lost or duplicated, every output
//! lies in the unit square, the outcome depends on the inputs alone, and a
//! uniform pyramid leaves the points where they are.

use vstd::arithmetic::div_mod::lemma_div_multiples_vanish_quotient;
use vstd::arithmetic::power2::{lemma2_to64, lemma_pow2_pos, lemma_pow2_unfold, pow2};
use vstd::prelude::*;
use vstd::seq_lib::lemma_multiset_commutative;

use crate::boxes::{point_in_rect, remap_spec, Rect, ONE};
use crate::warp::WarpError;
use crate::warp::{
    all_in, block_wf, bucket, lemma_bucket_members, in_rect, in_unit_square, lemma_remap_in_texture, square_grid, cell_unit, coords, density, lemma_children, pyramid_wf,
    quad_rect, quadrant, remap_all, split_edges, texture_rect, unit_rect, warp_cell, warp_result,
};

verus! {

broadcast use vstd::multiset::group_multiset_axioms, vstd::seq_lib::group_to_multiset_ensures;

/// The four buckets of `pts` share its points out among them, each exactly once.
proof fn lemma_buckets_partition(pts: Seq<(u32, u32)>, e: (int, int, int))
    ensures
        bucket(pts, e, 0).len() + bucket(pts, e, 1).len() + bucket(pts, e, 2).len() + bucket(pts, e, 3).len()
            == pts.len(),
        coords(bucket(pts, e, 0)).to_multiset().add(coords(bucket(pts, e, 1)).to_multiset()).add(
            coords(bucket(pts, e, 2)).to_multiset(),
        ).add(coords(bucket(pts, e, 3)).to_multiset()) == coords(pts).to_multiset(),
    decreases pts.len(),
{
    if pts.len() == 0 {
        assert(coords(pts) =~= Seq::<(int, int)>::empty());
    } else {
        let init = pts.drop_last();
        let p = pts.last();
        lemma_buckets_partition(init, e);
        assert(pts =~= init.push(p));
        assert(coords(pts) =~= coords(init).push((p.0 as int, p.1 as int)));
        let q = quadrant(p, e);
        assert(coords(bucket(pts, e, q)) =~= coords(bucket(init, e, q)).push((p.0 as int, p.1 as int)));
        assert forall|r: int| 0 <= r < 4 && r != q implies bucket(pts, e, r) == bucket(init, e, r) by {}
        assert(coords(bucket(pts, e, 0)).to_multiset().add(coords(bucket(pts, e, 1)).to_multiset()).add(
            coords(bucket(pts, e, 2)).to_multiset(),
        ).add(coords(bucket(pts, e, 3)).to_multiset()) =~= coords(pts).to_multiset());
    }
}

/// Every density of every level is positive.
pub open spec fn positive_pyramid(pyr: Seq<Seq<Seq<u64>>>) -> bool {
    forall|l: int, y: int, x: int|
        0 <= l < pyr.len() && 0 <= y < pyr[l].len() && 0 <= x < pyr[l][y].len() ==> #[trigger] pyr[l][y][x] > 0
}

/// `r` lies inside `s`.
pub open spec fn rect_within(r: Rect, s: Rect) -> bool {
    s.x0 <= r.x0 && r.x1 <= s.x1 && s.y0 <= r.y0 && r.y1 <= s.y1
}

/// The texture boxes of a block's four children lie in the block's own.
proof fn lemma_child_textures(level: int, x: int, y: int)
    requires
        0 <= level < 31,
    ensures
        forall|i: int, j: int|
            0 <= i < 2 && 0 <= j < 2 ==> rect_within(
                #[trigger] texture_rect(level + 1, 2 * x + 2 * i, 2 * y + 2 * j),
                texture_rect(level, x, y),
            ),
{
    let u = cell_unit(level);
    let h = cell_unit(level + 1);
    lemma_pow2_unfold((31 - level) as nat);
    lemma_pow2_pos((31 - level) as nat);
    assert(u == 2 * h);
    assert forall|i: int, j: int| 0 <= i < 2 && 0 <= j < 2 implies rect_within(
        #[trigger] texture_rect(level + 1, 2 * x + 2 * i, 2 * y + 2 * j),
        texture_rect(level, x, y),
    ) by {
        assert((2 * x + 2 * i) * h == x * u + i * u && (2 * x + 2 * i + 2) * h == x * u + i * u + u)
            by (nonlinear_arith)
            requires
                u == 2 * h,
        ;
        assert((2 * y + 2 * j) * h == y * u + j * u && (2 * y + 2 * j + 2) * h == y * u + j * u + u)
            by (nonlinear_arith)
            requires
                u == 2 * h,
        ;
        assert(x * u + 2 * u == (x + 2) * u && y * u + 2 * u == (y + 2) * u) by (nonlinear_arith);
        assert(0 <= i * u <= u && 0 <= j * u <= u) by (nonlinear_arith)
            requires
                0 <= i < 2,
                0 <= j < 2,
                0 < u,
        ;
    }
}

/// A warp from the 2×2 block at (`x`, `y`) of `level`, with points of its
/// reference box `b`: when it succeeds it yields one output for each input
/// point, every output in the block's texture box and in the unit square;
/// and it does succeed when every density is positive and so is the mass
/// `scale` the block was given.
pub proof fn lemma_cell_outputs(
    pyr: Seq<Seq<Seq<u64>>>,
    level: int,
    x: int,
    y: int,
    scale: int,
    b: Rect,
    pts: Seq<(u32, u32)>,
)
    requires
        block_wf(pyr, level, x, y, b),
        all_in(pts, b),
        0 <= scale,
    ensures
        positive_pyramid(pyr) && scale > 0 ==> warp_cell(pyr, level, x, y, scale, b, pts) is Ok,
        warp_cell(pyr, level, x, y, scale, b, pts) matches Ok(o) ==> o.len() == pts.len() && forall|i: int|
            0 <= i < o.len() ==> in_unit_square(#[trigger] o[i]) && in_rect(o[i], texture_rect(level, x, y)),
    decreases pyr.len() - level,
{
    if pts.len() == 0 {
    } else if level >= pyr.len() {
        let o = remap_all(level, x, y, b, pts);
        assert forall|i: int| 0 <= i < o.len() implies in_unit_square(#[trigger] o[i]) && in_rect(
            o[i],
            texture_rect(level, x, y),
        ) by {
            lemma_remap_in_texture(level, x, y, b, pts[i]);
        }
    } else {
        let d = (
            density(pyr, level, x, y),
            density(pyr, level, x + 1, y),
            density(pyr, level, x, y + 1),
            density(pyr, level, x + 1, y + 1),
        );
        let w = (scale * d.0, scale * d.1, scale * d.2, scale * d.3);
        assert(0 <= w.0 && 0 <= w.1 && 0 <= w.2 && 0 <= w.3) by (nonlinear_arith)
            requires
                0 <= scale,
                0 <= d.0 && 0 <= d.1 && 0 <= d.2 && 0 <= d.3,
                w == (scale * d.0, scale * d.1, scale * d.2, scale * d.3),
        ;
        if positive_pyramid(pyr) && scale > 0 {
            assert(square_grid(pyr[level], pow2((level + 1) as nat) as int));
            assert(pyr[level][y][x] > 0);
            assert(0 < w.0 && 0 < w.1 && 0 < w.2 && 0 < w.3) by (nonlinear_arith)
                requires
                    0 < scale,
                    0 < d.0 && 0 < d.1 && 0 < d.2 && 0 < d.3,
                    w == (scale * d.0, scale * d.1, scale * d.2, scale * d.3),
            ;
        }
        if w.0 + w.1 + w.2 + w.3 != 0 {
            let e = split_edges(w.0, w.1, w.2, w.3, b);
            let l = level + 1;
            lemma_children(pyr, level, x, y, b, pts, w);
            lemma_buckets_partition(pts, e);
            lemma_child_textures(level, x, y);
            assert(rect_within(texture_rect(l, 2 * x + 2 * 0, 2 * y + 2 * 0), texture_rect(level, x, y)));
            assert(rect_within(texture_rect(l, 2 * x + 2 * 1, 2 * y + 2 * 0), texture_rect(level, x, y)));
            assert(rect_within(texture_rect(l, 2 * x + 2 * 0, 2 * y + 2 * 1), texture_rect(level, x, y)));
            assert(rect_within(texture_rect(l, 2 * x + 2 * 1, 2 * y + 2 * 1), texture_rect(level, x, y)));
            lemma_cell_outputs(pyr, l, 2 * x, 2 * y, w.0, quad_rect(b, e, 0), bucket(pts, e, 0));
            lemma_cell_outputs(pyr, l, 2 * x + 2, 2 * y, w.1, quad_rect(b, e, 1), bucket(pts, e, 1));
            lemma_cell_outputs(pyr, l, 2 * x, 2 * y + 2, w.2, quad_rect(b, e, 2), bucket(pts, e, 2));
            lemma_cell_outputs(pyr, l, 2 * x + 2, 2 * y + 2, w.3, quad_rect(b, e, 3), bucket(pts, e, 3));
        }
    }
}

proof fn lemma_root_wf(pyr: Seq<Seq<Seq<u64>>>)
    requires
        pyramid_wf(pyr),
    ensures
        block_wf(pyr, 0, 0, 0, unit_rect()),
{
    lemma2_to64();
}

/// Point conservation: a warp that succeeds yields exactly one output point
/// for each input point.
pub proof fn lemma_warp_conserves_points(pyr: Seq<Seq<Seq<u64>>>, pts: Seq<(u32, u32)>)
    ensures
        warp_result(pyr, pts) matches Ok(o) ==> o.len() == pts.len(),
{
    if pyramid_wf(pyr) {
        lemma_root_wf(pyr);
        lemma2_to64();
        lemma_cell_outputs(pyr, 0, 0, 0, 1, unit_rect(), pts);
    }
}

/// A pyramid whose densities are all positive never makes a warp fail.
pub proof fn lemma_positive_warp_succeeds(pyr: Seq<Seq<Seq<u64>>>, pts: Seq<(u32, u32)>)
    requires
        pyramid_wf(pyr),
        positive_pyramid(pyr),
    ensures
        warp_result(pyr, pts) is Ok,
{
    lemma_root_wf(pyr);
    lemma2_to64();
    lemma_cell_outputs(pyr, 0, 0, 0, 1, unit_rect(), pts);
}

/// Degenerate-density detection: points routed into a block whose four
/// weighted densities are all zero make the warp report that block, at its
/// level and position, with the number of points routed there.
pub proof fn lemma_zero_mass_is_reported(
    pyr: Seq<Seq<Seq<u64>>>,
    level: int,
    x: int,
    y: int,
    scale: int,
    b: Rect,
    pts: Seq<(u32, u32)>,
)
    requires
        0 <= level < pyr.len(),
        pts.len() > 0,
        scale * density(pyr, level, x, y) + scale * density(pyr, level, x + 1, y) + scale * density(
            pyr,
            level,
            x,
            y + 1,
        ) + scale * density(pyr, level, x + 1, y + 1) == 0,
    ensures
        warp_cell(pyr, level, x, y, scale, b, pts) == Err::<Seq<(int, int)>, WarpError>(
            WarpError::DegenerateDensity {
                level: level as usize,
                x: x as usize,
                y: y as usize,
                points: pts.len() as usize,
            },
        ),
{
}

/// Range containment: every point that a warp yields lies in the unit
/// square [0,1)².
pub proof fn lemma_warp_in_unit_square(pyr: Seq<Seq<Seq<u64>>>, pts: Seq<(u32, u32)>)
    ensures
        warp_result(pyr, pts) matches Ok(o) ==> forall|i: int| 0 <= i < o.len() ==> in_unit_square(#[trigger] o[i]),
{
    if pyramid_wf(pyr) {
        lemma_root_wf(pyr);
        lemma2_to64();
        lemma_cell_outputs(pyr, 0, 0, 0, 1, unit_rect(), pts);
    }
}

/// Determinism: the same pyramid and the same points, in the same order,
/// give the same outcome, values and order alike.
pub proof fn lemma_warp_deterministic(
    pyr1: Seq<Seq<Seq<u64>>>,
    pts1: Seq<(u32, u32)>,
    pyr2: Seq<Seq<Seq<u64>>>,
    pts2: Seq<(u32, u32)>,
)
    requires
        pyr1 == pyr2,
        pts1 == pts2,
    ensures
        warp_result(pyr1, pts1) == warp_result(pyr2, pts2),
{
}


/// The 2×2 block of `g` at (`x`, `y`) holds four equal positive values.
pub open spec fn uniform_block(g: Seq<Seq<u64>>, x: int, y: int) -> bool {
    &&& g[y][x] > 0
    &&& g[y][x + 1] == g[y][x]
    &&& g[y + 1][x] == g[y][x]
    &&& g[y + 1][x + 1] == g[y][x]
}

/// At every level, every aligned 2×2 block holds four equal positive values:
/// the density is uniform at every resolution the pyramid measures.
pub open spec fn uniform_pyramid(pyr: Seq<Seq<Seq<u64>>>) -> bool {
    forall|l: int, x: int, y: int|
        0 <= l < pyr.len() && 0 <= x && 0 <= y && x % 2 == 0 && y % 2 == 0 && x + 1 < pyr[l].len() && y + 1
            < pyr[l].len() ==> #[trigger] uniform_block(pyr[l], x, y)
}

/// Under equal weights a box splits at its midpoints.
proof fn lemma_even_split(a: int, u: int, c: int)
    requires
        0 < c,
        0 < u,
    ensures
        split_at_half(a, u, c),
{
    assert((2 * u * (c + c)) / (c + c + c + c) == u) by {
        assert(2 * u * (c + c) == (2 * c) * (2 * u)) by (nonlinear_arith);
        assert(c + c + c + c == (2 * c) * 2) by (nonlinear_arith);
        lemma_div_multiples_vanish_quotient(2 * c, 2 * u, 2);
    }
    assert((2 * u * c) / (c + c) == u) by {
        assert(2 * u * c == c * (2 * u)) by (nonlinear_arith);
        assert(c + c == c * 2) by (nonlinear_arith);
        lemma_div_multiples_vanish_quotient(c, 2 * u, 2);
    }
}

spec fn split_at_half(a: int, u: int, c: int) -> bool {
    &&& crate::warp::split_at(a, a + 2 * u, c + c, c + c + c + c) == a + u
    &&& crate::warp::split_at(a, a + 2 * u, c, c + c) == a + u
}

/// From a block whose reference box is its own texture box, under a uniform
/// pyramid, the warp yields the very points it was given.
pub proof fn lemma_uniform_cell(pyr: Seq<Seq<Seq<u64>>>, level: int, x: int, y: int, scale: int, pts: Seq<(u32, u32)>)
    requires
        block_wf(pyr, level, x, y, texture_rect(level, x, y)),
        all_in(pts, texture_rect(level, x, y)),
        uniform_pyramid(pyr),
        x % 2 == 0,
        y % 2 == 0,
        0 < scale,
    ensures
        warp_cell(pyr, level, x, y, scale, texture_rect(level, x, y), pts) is Ok,
        warp_cell(pyr, level, x, y, scale, texture_rect(level, x, y), pts)->Ok_0.to_multiset() == coords(
            pts,
        ).to_multiset(),
    decreases pyr.len() - level,
{
    let t = texture_rect(level, x, y);
    let u = cell_unit(level);
    lemma_pow2_pos((31 - level) as nat);
    assert((x + 2) * u == x * u + 2 * u && (y + 2) * u == y * u + 2 * u) by (nonlinear_arith);
    if pts.len() == 0 {
        assert(coords(pts) =~= Seq::<(int, int)>::empty());
    } else if level >= pyr.len() {
        let o = remap_all(level, x, y, t, pts);
        assert forall|i: int| 0 <= i < o.len() implies o[i] == (pts[i].0 as int, pts[i].1 as int) by {
            let p = pts[i];
            vstd::arithmetic::div_mod::lemma_div_multiples_vanish(p.0 - t.x0, 2 * u);
            vstd::arithmetic::div_mod::lemma_div_multiples_vanish(p.1 - t.y0, 2 * u);
            assert((2 * u) * (p.0 - t.x0) == (t.x1 - t.x0) * (p.0 - t.x0));
        }
        assert(o =~= coords(pts));
    } else {
        let g = pyr[level];
        assert(uniform_block(g, x, y));
        let c = scale * density(pyr, level, x, y);
        assert(c > 0) by (nonlinear_arith)
            requires
                c == scale * density(pyr, level, x, y),
                scale > 0,
                density(pyr, level, x, y) > 0,
        ;
        let w = (c, c, c, c);
        let e = split_edges(c, c, c, c, t);
        lemma_even_split(t.y0, u, c);
        lemma_even_split(t.x0, u, c);
        assert(e == ((y + 1) * u, (x + 1) * u, (x + 1) * u)) by (nonlinear_arith)
            requires
                e.0 == y * u + u,
                e.1 == x * u + u,
                e.2 == x * u + u,
        {
        }
        lemma_children(pyr, level, x, y, t, pts, w);
        lemma_pow2_unfold((31 - level) as nat);
        let h = cell_unit(level + 1);
        assert(u == 2 * h);
        assert(2 * x * h == x * u && (2 * x + 2) * h == (x + 1) * u && (2 * x + 4) * h == (x + 2) * u)
            by (nonlinear_arith)
            requires
                u == 2 * h,
        ;
        assert(2 * y * h == y * u && (2 * y + 2) * h == (y + 1) * u && (2 * y + 4) * h == (y + 2) * u)
            by (nonlinear_arith)
            requires
                u == 2 * h,
        ;
        assert(quad_rect(t, e, 0) == texture_rect(level + 1, 2 * x, 2 * y));
        assert(quad_rect(t, e, 1) == texture_rect(level + 1, 2 * x + 2, 2 * y));
        assert(quad_rect(t, e, 2) == texture_rect(level + 1, 2 * x, 2 * y + 2));
        assert(quad_rect(t, e, 3) == texture_rect(level + 1, 2 * x + 2, 2 * y + 2));
        let l = level + 1;
        lemma_uniform_cell(pyr, l, 2 * x, 2 * y, c, bucket(pts, e, 0));
        lemma_uniform_cell(pyr, l, 2 * x + 2, 2 * y, c, bucket(pts, e, 1));
        lemma_uniform_cell(pyr, l, 2 * x, 2 * y + 2, c, bucket(pts, e, 2));
        lemma_uniform_cell(pyr, l, 2 * x + 2, 2 * y + 2, c, bucket(pts, e, 3));
        lemma_buckets_partition(pts, e);
        let o0 = warp_cell(pyr, l, 2 * x, 2 * y, c, quad_rect(t, e, 0), bucket(pts, e, 0))->Ok_0;
        let o1 = warp_cell(pyr, l, 2 * x + 2, 2 * y, c, quad_rect(t, e, 1), bucket(pts, e, 1))->Ok_0;
        let o2 = warp_cell(pyr, l, 2 * x, 2 * y + 2, c, quad_rect(t, e, 2), bucket(pts, e, 2))->Ok_0;
        let o3 = warp_cell(pyr, l, 2 * x + 2, 2 * y + 2, c, quad_rect(t, e, 3), bucket(pts, e, 3))->Ok_0;
        lemma_multiset_commutative(o0, o1);
        lemma_multiset_commutative(o0 + o1, o2);
        lemma_multiset_commutative(o0 + o1 + o2, o3);
    }
}

/// Uniform-density identity: under a pyramid whose density is uniform at
/// every level, every split falls at the middle, the nested boxes are the
/// plain quadtree cells, and the warp yields exactly the input points (in the
/// order of the cells they rest in).
pub proof fn lemma_uniform_warp_is_identity(pyr: Seq<Seq<Seq<u64>>>, pts: Seq<(u32, u32)>)
    requires
        pyramid_wf(pyr),
        uniform_pyramid(pyr),
    ensures
        warp_result(pyr, pts) is Ok,
        warp_result(pyr, pts)->Ok_0.to_multiset() == coords(pts).to_multiset(),
{
    lemma_root_wf(pyr);
    lemma2_to64();
    assert(texture_rect(0, 0, 0) == unit_rect());
    lemma_uniform_cell(pyr, 0, 0, 0, 1, pts);
}


/// Where the warp from the block at (`x`, `y`) of `level` sends the point
/// `p` on its own: down the one child it is routed into at every level,
/// then into the texture box of the block where the measurements run out.
pub open spec fn point_image(
    pyr: Seq<Seq<Seq<u64>>>,
    level: int,
    x: int,
    y: int,
    scale: int,
    b: Rect,
    p: (u32, u32),
) -> (int, int)
    decreases pyr.len() - level,
{
    if level >= pyr.len() {
        remap_spec(p, texture_rect(level, x, y), b)
    } else {
        let tl = scale * density(pyr, level, x, y);
        let tr = scale * density(pyr, level, x + 1, y);
        let bl = scale * density(pyr, level, x, y + 1);
        let br = scale * density(pyr, level, x + 1, y + 1);
        let e = split_edges(tl, tr, bl, br, b);
        let q = quadrant(p, e);
        let l = level + 1;
        if q == 0 {
            point_image(pyr, l, 2 * x, 2 * y, tl, quad_rect(b, e, 0), p)
        } else if q == 1 {
            point_image(pyr, l, 2 * x + 2, 2 * y, tr, quad_rect(b, e, 1), p)
        } else if q == 2 {
            point_image(pyr, l, 2 * x, 2 * y + 2, bl, quad_rect(b, e, 2), p)
        } else {
            point_image(pyr, l, 2 * x + 2, 2 * y + 2, br, quad_rect(b, e, 3), p)
        }
    }
}

/// Where a warp through `pyr` sends the point `p` on its own.
pub open spec fn warp_point(pyr: Seq<Seq<Seq<u64>>>, p: (u32, u32)) -> (int, int) {
    point_image(pyr, 0, 0, 0, 1, unit_rect(), p)
}

/// The images of the four buckets of `pts` under `f` are, together, the
/// images of `pts`.
proof fn lemma_buckets_partition_map(pts: Seq<(u32, u32)>, e: (int, int, int), f: spec_fn((u32, u32)) -> (int, int))
    ensures
        bucket(pts, e, 0).map_values(f).to_multiset().add(bucket(pts, e, 1).map_values(f).to_multiset()).add(
            bucket(pts, e, 2).map_values(f).to_multiset(),
        ).add(bucket(pts, e, 3).map_values(f).to_multiset()) == pts.map_values(f).to_multiset(),
    decreases pts.len(),
{
    if pts.len() == 0 {
        assert(pts.map_values(f) =~= Seq::<(int, int)>::empty());
        assert forall|r: int| 0 <= r < 4 implies #[trigger] bucket(pts, e, r).map_values(f) =~= Seq::<(int, int)>::empty() by {}
    } else {
        let init = pts.drop_last();
        let p = pts.last();
        lemma_buckets_partition_map(init, e, f);
        assert(pts =~= init.push(p));
        assert(pts.map_values(f) =~= init.map_values(f).push(f(p)));
        let q = quadrant(p, e);
        assert(bucket(pts, e, q).map_values(f) =~= bucket(init, e, q).map_values(f).push(f(p)));
        assert forall|r: int| 0 <= r < 4 && r != q implies bucket(pts, e, r) == bucket(init, e, r) by {}
        assert(bucket(pts, e, 0).map_values(f).to_multiset().add(bucket(pts, e, 1).map_values(f).to_multiset()).add(
            bucket(pts, e, 2).map_values(f).to_multiset(),
        ).add(bucket(pts, e, 3).map_values(f).to_multiset()) =~= pts.map_values(f).to_multiset());
    }
}

/// Every point is warped independently of the others: what a warp from a
/// block yields is, up to order, the image of each of its points on its own.
pub proof fn lemma_cell_pointwise(
    pyr: Seq<Seq<Seq<u64>>>,
    level: int,
    x: int,
    y: int,
    scale: int,
    b: Rect,
    pts: Seq<(u32, u32)>,
)
    ensures
        warp_cell(pyr, level, x, y, scale, b, pts) matches Ok(o) ==> o.to_multiset() == pts.map_values(
            |p: (u32, u32)| point_image(pyr, level, x, y, scale, b, p),
        ).to_multiset(),
    decreases pyr.len() - level,
{
    let f = |p: (u32, u32)| point_image(pyr, level, x, y, scale, b, p);
    if pts.len() == 0 {
        assert(pts.map_values(f) =~= Seq::<(int, int)>::empty());
    } else if level >= pyr.len() {
        assert(remap_all(level, x, y, b, pts) =~= pts.map_values(f));
    } else {
        let tl = scale * density(pyr, level, x, y);
        let tr = scale * density(pyr, level, x + 1, y);
        let bl = scale * density(pyr, level, x, y + 1);
        let br = scale * density(pyr, level, x + 1, y + 1);
        if tl + tr + bl + br != 0 {
            let e = split_edges(tl, tr, bl, br, b);
            let l = level + 1;
            let cx = seq![2 * x, 2 * x + 2, 2 * x, 2 * x + 2];
            let cy = seq![2 * y, 2 * y, 2 * y + 2, 2 * y + 2];
            let cw = seq![tl, tr, bl, br];
            let all = Rect { x0: 0, y0: 0, x1: u32::MAX as int, y1: u32::MAX as int };
            assert forall|q: int| 0 <= q < 4 implies #[trigger] bucket(pts, e, q).map_values(f) =~= bucket(pts, e, q).map_values(
                |p: (u32, u32)| point_image(pyr, l, cx[q], cy[q], cw[q], quad_rect(b, e, q), p),
            ) by {
                assert forall|i: int| 0 <= i < pts.len() implies point_in_rect(#[trigger] pts[i], all) by {}
                lemma_bucket_members(pts, e, q, all);
            }
            lemma_cell_pointwise(pyr, l, cx[0], cy[0], cw[0], quad_rect(b, e, 0), bucket(pts, e, 0));
            lemma_cell_pointwise(pyr, l, cx[1], cy[1], cw[1], quad_rect(b, e, 1), bucket(pts, e, 1));
            lemma_cell_pointwise(pyr, l, cx[2], cy[2], cw[2], quad_rect(b, e, 2), bucket(pts, e, 2));
            lemma_cell_pointwise(pyr, l, cx[3], cy[3], cw[3], quad_rect(b, e, 3), bucket(pts, e, 3));
            lemma_buckets_partition_map(pts, e, f);
            let r0 = warp_cell(pyr, l, 2 * x, 2 * y, tl, quad_rect(b, e, 0), bucket(pts, e, 0));
            let r1 = warp_cell(pyr, l, 2 * x + 2, 2 * y, tr, quad_rect(b, e, 1), bucket(pts, e, 1));
            let r2 = warp_cell(pyr, l, 2 * x, 2 * y + 2, bl, quad_rect(b, e, 2), bucket(pts, e, 2));
            let r3 = warp_cell(pyr, l, 2 * x + 2, 2 * y + 2, br, quad_rect(b, e, 3), bucket(pts, e, 3));
            if r0 is Ok && r1 is Ok && r2 is Ok && r3 is Ok {
                let (o0, o1, o2, o3) = (r0->Ok_0, r1->Ok_0, r2->Ok_0, r3->Ok_0);
                lemma_multiset_commutative(o0, o1);
                lemma_multiset_commutative(o0 + o1, o2);
                lemma_multiset_commutative(o0 + o1 + o2, o3);
            }
        }
    }
}

/// Per-point independence: a warp that succeeds yields, up to order, exactly
/// the image of each input point on its own; and a warp of one point yields
/// that point's image.
pub proof fn lemma_warp_pointwise(pyr: Seq<Seq<Seq<u64>>>, pts: Seq<(u32, u32)>, p: (u32, u32))
    ensures
        warp_result(pyr, pts) matches Ok(o) ==> o.to_multiset() == pts.map_values(
            |q: (u32, u32)| warp_point(pyr, q),
        ).to_multiset(),
        warp_result(pyr, seq![p]) matches Ok(o) ==> o == seq![warp_point(pyr, p)],
{
    if pyramid_wf(pyr) {
        lemma_cell_pointwise(pyr, 0, 0, 0, 1, unit_rect(), pts);
        assert(pts.map_values(|q: (u32, u32)| warp_point(pyr, q)) =~= pts.map_values(
            |q: (u32, u32)| point_image(pyr, 0, 0, 0, 1, unit_rect(), q),
        ));
        lemma_cell_pointwise(pyr, 0, 0, 0, 1, unit_rect(), seq![p]);
        let one = seq![p];
        assert(one.map_values(|q: (u32, u32)| point_image(pyr, 0, 0, 0, 1, unit_rect(), q)) =~= seq![warp_point(pyr, p)]);
        if warp_result(pyr, one) is Ok {
            let o = warp_result(pyr, one)->Ok_0;
            let s = seq![warp_point(pyr, p)];
            assert(o.to_multiset() == s.to_multiset());
            assert(o.len() == 1) by {
                assert(o.to_multiset().len() == o.len());
                assert(s.to_multiset().len() == s.len());
            }
            assert(o.contains(s[0])) by {
                assert(s.contains(s[0]));
                assert(s.to_multiset().count(s[0]) > 0);
            }
            assert(o =~= s);
        }
    }
}


/// The one-level pyramid with densities 3 and 1 in its top row and 0 in its
/// bottom row.
pub open spec fn top_heavy_pyramid() -> Seq<Seq<Seq<u64>>> {
    seq![seq![seq![3u64, 1u64], seq![0u64, 0u64]]]
}

/// Under densities 3, 1 (top row) and 0, 0 (bottom row) the whole square is
/// the top row, split at three quarters of its width: a point left of the
/// split goes from [0, 3/4] × [0, 1] to the texture cell [0, 1/2]², one right
/// of it from [3/4, 1] × [0, 1] to [1/2, 1] × [0, 1/2].
pub proof fn lemma_top_heavy_warp(p: (u32, u32))
    ensures
        warp_point(top_heavy_pyramid(), p) == (if p.0 <= 3221225472 {
            ((2147483648 * (p.0 as int)) / 3221225472, (2147483648 * (p.1 as int)) / 4294967296)
        } else {
            (
                2147483648 + (2147483648 * (p.0 - 3221225472)) / 1073741824,
                (2147483648 * (p.1 as int)) / 4294967296,
            )
        }),
{
    let pyr = top_heavy_pyramid();
    lemma2_to64();
    assert(density(pyr, 0, 0, 0) == 3 && density(pyr, 0, 1, 0) == 1);
    assert(density(pyr, 0, 0, 1) == 0 && density(pyr, 0, 1, 1) == 0);
    let e = split_edges(3, 1, 0, 0, unit_rect());
    assert(e.0 == 4294967296 && e.1 == 3221225472);
    assert(texture_rect(1, 0, 0) == Rect { x0: 0, y0: 0, x1: 2147483648, y1: 2147483648 });
    assert(texture_rect(1, 2, 0) == Rect { x0: 2147483648, y0: 0, x1: 4294967296, y1: 2147483648 });
    let b0 = quad_rect(unit_rect(), e, 0);
    let b1 = quad_rect(unit_rect(), e, 1);
    assert(b0 == Rect { x0: 0, y0: 0, x1: 3221225472, y1: 4294967296 });
    assert(b1 == Rect { x0: 3221225472, y0: 0, x1: 4294967296, y1: 4294967296 });
    assert(quadrant(p, e) == if p.0 <= 3221225472 { 0int } else { 1int });
    assert(1 * 3 == 3 && 1 * 1 == 1 && 1 * 0 == 0);
    assert(warp_point(pyr, p) == if p.0 <= 3221225472 {
        point_image(pyr, 1, 0, 0, 3, b0, p)
    } else {
        point_image(pyr, 1, 2, 0, 1, b1, p)
    });
    assert(point_image(pyr, 1, 0, 0, 3, b0, p) == remap_spec(p, texture_rect(1, 0, 0), b0));
    assert(point_image(pyr, 1, 2, 0, 1, b1, p) == remap_spec(p, texture_rect(1, 2, 0), b1));
}

} // verus!
