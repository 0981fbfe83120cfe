//! The pyramid builder: a base density grid and its successive 2×2
//! reductions, finest first. A coarser cell holds the exact sum of the four
//! cells below it, so level `i` holds `4^i` times the mean of the base cells
//! it covers: the ratios between cells of one level, which are all the warp
//! reads, are those of the exact means.

use vstd::arithmetic::power2::{lemma_pow2_unfold, pow2};
use vstd::prelude::*;

use crate::warp::WarpError;

verus! {

/// `g` has `h` rows of `w` cells each.
pub open spec fn is_grid<T>(g: Seq<Seq<T>>, w: int, h: int) -> bool {
    g.len() == h && forall|r: int| 0 <= r < h ==> (#[trigger] g[r]).len() == w
}

/// Sum of the 2×2 block of `g` whose top-left cell is (`2x`, `2y`).
pub open spec fn block_sum(g: Seq<Seq<u64>>, x: int, y: int) -> int {
    g[2 * y][2 * x] + g[2 * y][2 * x + 1] + g[2 * y + 1][2 * x] + g[2 * y + 1][2 * x + 1]
}

/// The `w` × `h` grid `g` reduced to half its size: each cell the sum of
/// the 2×2 block it covers.
pub open spec fn downsampled(g: Seq<Seq<u64>>, w: int, h: int) -> Seq<Seq<u64>> {
    Seq::new((h / 2) as nat, |y: int| Seq::new((w / 2) as nat, |x: int| block_sum(g, x, y) as u64))
}

/// The grid `g` with its cells widened to 64 bits.
pub open spec fn widened(g: Seq<Seq<u32>>) -> Seq<Seq<u64>> {
    Seq::new(g.len(), |y: int| Seq::new(g[y].len(), |x: int| g[y][x] as u64))
}

/// No cell of `g` exceeds `m`.
pub open spec fn bounded(g: Seq<Seq<u64>>, m: int) -> bool {
    forall|y: int, x: int| 0 <= y < g.len() && 0 <= x < g[y].len() ==> #[trigger] g[y][x] <= m
}

/// Luminance of an 8-bit colour, in thousandths of a channel step:
/// `299 r + 587 g + 114 b`.
pub open spec fn luminance_spec(r: u8, g: u8, b: u8) -> int {
    299 * r + 587 * g + 114 * b
}

/// The density a pixel contributes: its luminance, weighted as
/// `0.299 R + 0.587 G + 0.114 B` and scaled by 1000 to stay integral.
pub fn luminance(r: u8, g: u8, b: u8) -> (l: u32)
    ensures
        l == luminance_spec(r, g, b),
{
    299 * (r as u32) + 587 * (g as u32) + 114 * (b as u32)
}

/// `w` halved `i` times.
pub open spec fn dim_at(w: int, i: nat) -> int
    decreases i,
{
    if i == 0 {
        w
    } else {
        dim_at(w, (i - 1) as nat) / 2
    }
}

/// Level `i` of the pyramid over the `w` × `h` grid `g`, counted from the
/// finest (`g` itself).
pub open spec fn mip_level(g: Seq<Seq<u64>>, w: int, h: int, i: nat) -> Seq<Seq<u64>>
    decreases i,
{
    if i == 0 {
        g
    } else {
        downsampled(mip_level(g, w, h, (i - 1) as nat), dim_at(w, (i - 1) as nat), dim_at(h, (i - 1) as nat))
    }
}

/// The number of times `n` can be halved before it drops below 2.
pub open spec fn log2(n: nat) -> nat
    decreases n,
{
    if n >= 2 {
        1 + log2(n / 2)
    } else {
        0
    }
}

/// `n` is a power of two of at least 2.
pub open spec fn is_pow2_side(n: nat) -> bool {
    n >= 2 && pow2(log2(n)) == n
}

/// A base grid the builder accepts: rectangular, with power-of-two sides of
/// at least 2.
pub open spec fn base_ok(g: Seq<Seq<u32>>) -> bool {
    g.len() >= 1 && is_grid(g, g[0].len() as int, g.len() as int) && is_pow2_side(g[0].len())
        && is_pow2_side(g.len())
}

/// Number of levels built over a `w` × `h` base.
pub open spec fn level_count(w: nat, h: nat) -> nat {
    if log2(w) <= log2(h) {
        log2(w)
    } else {
        log2(h)
    }
}

proof fn lemma_log2_double(m: nat)
    requires
        m >= 1,
    ensures
        log2(2 * m) == 1 + log2(m),
{
    assert((2 * m) / 2 == m);
}

proof fn lemma_pow2_log2_odd(m: nat)
    requires
        m >= 2,
        m % 2 == 1,
    ensures
        pow2(log2(m)) != m,
{
    lemma_pow2_unfold(log2(m));
}

proof fn lemma_pow2_exceeds(k: nat)
    ensures
        pow2(k) >= k + 1,
    decreases k,
{
    if k == 0 {
        vstd::arithmetic::power2::lemma2_to64();
    } else {
        lemma_pow2_exceeds((k - 1) as nat);
        lemma_pow2_unfold(k);
    }
}

/// `log2(n)` when `n` is a power of two, `None` otherwise.
fn exact_log2(n: usize) -> (r: Option<usize>)
    ensures
        r is Some <==> n >= 1 && pow2(log2(n as nat)) == n,
        r matches Some(k) ==> k == log2(n as nat),
{
    if n == 0 {
        return None;
    }
    let mut m: usize = n;
    let mut k: usize = 0;
    proof {
        vstd::arithmetic::power2::lemma2_to64();
    }
    while m >= 2 && m % 2 == 0
        invariant
            1 <= m <= n,
            k <= n,
            n == m * pow2(k as nat),
            log2(n as nat) == k + log2(m as nat),
        decreases m,
    {
        proof {
            lemma_log2_double((m / 2) as nat);
            lemma_pow2_unfold((k + 1) as nat);
            assert(n == (m / 2) * pow2((k + 1) as nat)) by (nonlinear_arith)
                requires
                    n == m * pow2(k as nat),
                    m % 2 == 0,
                    pow2((k + 1) as nat) == 2 * pow2(k as nat),
            ;
            lemma_pow2_exceeds((k + 1) as nat);
            assert(k + 1 <= n) by (nonlinear_arith)
                requires
                    n == (m / 2) * pow2((k + 1) as nat),
                    m / 2 >= 1,
                    pow2((k + 1) as nat) >= k + 1,
            {
            }
        }
        m = m / 2;
        k = k + 1;
    }
    if m == 1 {
        assert(log2(1) == 0);
        assert(pow2(0) == 1) by {
            vstd::arithmetic::power2::lemma2_to64();
        }
        Some(k)
    } else {
        proof {
            lemma_pow2_log2_odd(m as nat);
            vstd::arithmetic::power2::lemma_pow2_adds(k as nat, log2(m as nat));
            assert(pow2(log2(n as nat)) == pow2(k as nat) * pow2(log2(m as nat)));
            vstd::arithmetic::power2::lemma_pow2_pos(k as nat);
            assert(pow2(k as nat) * pow2(log2(m as nat)) != m * pow2(k as nat)) by (nonlinear_arith)
                requires
                    pow2(log2(m as nat)) != m,
                    pow2(k as nat) > 0,
            ;
        }
        None
    }
}


proof fn lemma_dim_at_pow2(a: nat, i: nat)
    requires
        i <= a,
    ensures
        dim_at(pow2(a) as int, i) == pow2((a - i) as nat),
    decreases i,
{
    if i > 0 {
        lemma_dim_at_pow2(a, (i - 1) as nat);
        lemma_pow2_unfold((a - i + 1) as nat);
    }
}

proof fn lemma_mip_level_grid(g: Seq<Seq<u64>>, w: int, h: int, i: nat)
    requires
        is_grid(g, w, h),
        0 <= w,
        0 <= h,
    ensures
        is_grid(mip_level(g, w, h, i), dim_at(w, i), dim_at(h, i)),
        0 <= dim_at(w, i),
        0 <= dim_at(h, i),
    decreases i,
{
    if i > 0 {
        lemma_mip_level_grid(g, w, h, (i - 1) as nat);
    }
}

proof fn lemma_downsampled_bound(g: Seq<Seq<u64>>, w: int, h: int, m: int)
    requires
        is_grid(g, w, h),
        bounded(g, m),
        0 <= w,
        0 <= h,
    ensures
        bounded(downsampled(g, w, h), 4 * m),
{
    let d = downsampled(g, w, h);
    assert forall|y: int, x: int| 0 <= y < d.len() && 0 <= x < d[y].len() implies #[trigger] d[y][x] <= 4 * m by {
        assert(g[2 * y][2 * x] <= m && g[2 * y][2 * x + 1] <= m);
        assert(g[2 * y + 1][2 * x] <= m && g[2 * y + 1][2 * x + 1] <= m);
    }
}

/// Reduces the `w` × `h` grid `g` to half its size, each cell the sum of a
/// 2×2 block.
pub fn downsample(g: &Vec<Vec<u64>>, w: usize, h: usize) -> (r: Vec<Vec<u64>>)
    requires
        is_grid(g.deep_view(), w as int, h as int),
        bounded(g.deep_view(), (u64::MAX / 4) as int),
    ensures
        r.deep_view() == downsampled(g.deep_view(), w as int, h as int),
{
    let ghost gv = g.deep_view();
    let ghost d = downsampled(gv, w as int, h as int);
    let mut out: Vec<Vec<u64>> = Vec::new();
    let mut y: usize = 0;
    while y < h / 2
        invariant
            gv == g.deep_view(),
            d == downsampled(gv, w as int, h as int),
            is_grid(gv, w as int, h as int),
            bounded(gv, (u64::MAX / 4) as int),
            y <= h / 2,
            out@.len() == y,
            forall|i: int| 0 <= i < y ==> (#[trigger] out@[i])@ == d[i],
        decreases h / 2 - y,
    {
        let top = &g[2 * y];
        let bottom = &g[2 * y + 1];
        assert(gv[2 * y as int] == top.deep_view());
        assert(gv[2 * y + 1] == bottom.deep_view());
        assert(top@.len() == w && bottom@.len() == w);
        let mut row: Vec<u64> = Vec::new();
        let mut x: usize = 0;
        while x < w / 2
            invariant
                gv == g.deep_view(),
                is_grid(gv, w as int, h as int),
                bounded(gv, (u64::MAX / 4) as int),
                y < h / 2,
                gv[2 * y as int] == top.deep_view(),
                gv[2 * y + 1] == bottom.deep_view(),
                top@.len() == w,
                bottom@.len() == w,
                x <= w / 2,
                row@.len() == x,
                forall|i: int| 0 <= i < x ==> #[trigger] row@[i] == block_sum(gv, i, y as int) as u64,
            decreases w / 2 - x,
        {
            assert(top.deep_view()[2 * x as int] == top@[2 * x as int]);
            assert(top.deep_view()[2 * x + 1] == top@[2 * x + 1]);
            assert(bottom.deep_view()[2 * x as int] == bottom@[2 * x as int]);
            assert(bottom.deep_view()[2 * x + 1] == bottom@[2 * x + 1]);
            assert(gv[2 * y as int][2 * x as int] <= (u64::MAX / 4) as int);
            assert(gv[2 * y as int][2 * x + 1] <= (u64::MAX / 4) as int);
            assert(gv[2 * y + 1][2 * x as int] <= (u64::MAX / 4) as int);
            assert(gv[2 * y + 1][2 * x + 1] <= (u64::MAX / 4) as int);
            let sum: u64 = top[2 * x] + top[2 * x + 1] + bottom[2 * x] + bottom[2 * x + 1];
            row.push(sum);
            x += 1;
        }
        assert(row@ =~= d[y as int]);
        out.push(row);
        y += 1;
    }
    assert(out.deep_view() =~= d) by {
        assert forall|i: int| 0 <= i < d.len() implies out.deep_view()[i] == d[i] by {
            assert(out.deep_view()[i] =~= out@[i]@);
        }
    }
    out
}

/// The grid `g` with its cells widened to 64 bits.
fn widen(g: &Vec<Vec<u32>>) -> (r: Vec<Vec<u64>>)
    ensures
        r.deep_view() == widened(g.deep_view()),
{
    let ghost gv = g.deep_view();
    let mut out: Vec<Vec<u64>> = Vec::new();
    let mut y: usize = 0;
    while y < g.len()
        invariant
            gv == g.deep_view(),
            y <= g@.len(),
            out@.len() == y,
            forall|i: int| 0 <= i < y ==> (#[trigger] out@[i])@ == widened(gv)[i],
        decreases g@.len() - y,
    {
        let src = &g[y];
        assert(gv[y as int] == src.deep_view());
        let mut row: Vec<u64> = Vec::new();
        let mut x: usize = 0;
        while x < src.len()
            invariant
                gv[y as int] == src.deep_view(),
                x <= src@.len(),
                row@.len() == x,
                forall|i: int| 0 <= i < x ==> #[trigger] row@[i] == src@[i] as u64,
            decreases src@.len() - x,
        {
            row.push(src[x] as u64);
            x += 1;
        }
        assert(row@ =~= widened(gv)[y as int]) by {
            assert forall|i: int| 0 <= i < x implies row@[i] == widened(gv)[y as int][i] by {
                assert(src.deep_view()[i] == src@[i]);
            }
        }
        out.push(row);
        y += 1;
    }
    assert(out.deep_view() =~= widened(gv)) by {
        assert forall|i: int| 0 <= i < gv.len() implies out.deep_view()[i] == widened(gv)[i] by {
            assert(out.deep_view()[i] =~= out@[i]@);
        }
    }
    out
}

/// Largest number of rows the builder takes: with at most 17 levels, a cell
/// sums at most `4^16` base cells, which stays within 64 bits.
pub const MAX_ROWS: usize = 131072;

/// Builds the density pyramid over `full_res`, finest level first: level 0
/// is `full_res` itself, and each further level is the previous one reduced
/// by 2×2 sums, down to the first level with a side of 2. Fails with
/// `MalformedPyramid` unless `full_res` is a rectangular grid whose sides are
/// powers of two of at least 2.
pub fn generate_mipmaps(full_res: Vec<Vec<u32>>) -> (r: Result<Vec<Vec<Vec<u64>>>, WarpError>)
    requires
        full_res@.len() <= MAX_ROWS,
    ensures
        r is Ok <==> base_ok(full_res.deep_view()),
        r matches Err(e) ==> e == WarpError::MalformedPyramid,
        r matches Ok(levels) ==> ({
            let g = full_res.deep_view();
            let w = g[0].len();
            let h = g.len();
            &&& levels.deep_view().len() == level_count(w, h)
            &&& forall|i: int|
                0 <= i < levels.deep_view().len() ==> #[trigger] levels.deep_view()[i] == mip_level(
                    widened(g),
                    w as int,
                    h as int,
                    i as nat,
                )
            &&& forall|i: int|
                0 <= i < levels.deep_view().len() ==> #[trigger] grid_sum(levels.deep_view()[i]) == grid_sum(
                    widened(g),
                )
            &&& forall|i: int|
                0 <= i < levels.deep_view().len() ==> is_grid(
                    #[trigger] levels.deep_view()[i],
                    pow2((log2(w) - i) as nat) as int,
                    pow2((log2(h) - i) as nat) as int,
                )
        }),
{
    let ghost g = full_res.deep_view();
    let h = full_res.len();
    if h == 0 {
        return Err(WarpError::MalformedPyramid);
    }
    let w = full_res[0].len();
    assert(g[0] == full_res[0].deep_view());
    let mut r: usize = 0;
    while r < h
        invariant
            g == full_res.deep_view(),
            h == g.len(),
            w == g[0].len(),
            r <= h,
            forall|j: int| 0 <= j < r ==> (#[trigger] g[j]).len() == w,
        decreases h - r,
    {
        assert(g[r as int] == full_res[r as int].deep_view());
        if full_res[r].len() != w {
            return Err(WarpError::MalformedPyramid);
        }
        r += 1;
    }
    let kw = match exact_log2(w) {
        Some(k) => k,
        None => {
            return Err(WarpError::MalformedPyramid);
        },
    };
    let kh = match exact_log2(h) {
        Some(k) => k,
        None => {
            return Err(WarpError::MalformedPyramid);
        },
    };
    if w < 2 || h < 2 {
        return Err(WarpError::MalformedPyramid);
    }
    let k = if kw <= kh {
        kw
    } else {
        kh
    };
    let ghost g64 = widened(g);
    proof {
        lemma_pow2_unfold(kw as nat);
        lemma_pow2_unfold(kh as nat);
        vstd::arithmetic::power2::lemma2_to64();
        assert(kw >= 1 && kh >= 1);
        if kh > 17 {
            vstd::arithmetic::power2::lemma_pow2_strictly_increases(17, kh as nat);
        }
        assert(is_grid(g64, w as int, h as int));
        assert(bounded(g64, u32::MAX as int));
    }
    let mut cur = widen(&full_res);
    let mut levels: Vec<Vec<Vec<u64>>> = Vec::new();
    let mut cw: usize = w;
    let mut ch: usize = h;
    let mut i: usize = 0;
    proof {
        lemma_mip_level_grid(g64, w as int, h as int, 0);
    }
    while i + 1 < k
        invariant
            base_ok(g),
            g64 == widened(g),
            is_grid(g64, w as int, h as int),
            w == g[0].len(),
            h == g.len(),
            1 <= k <= kw,
            k <= kh <= 17,
            k == level_count(w as nat, h as nat),
            i < k,
            levels@.len() == i,
            forall|j: int| 0 <= j < i ==> (#[trigger] levels@[j]).deep_view() == mip_level(g64, w as int, h as int, j as nat),
            cur.deep_view() == mip_level(g64, w as int, h as int, i as nat),
            cw == dim_at(w as int, i as nat),
            ch == dim_at(h as int, i as nat),
            is_grid(cur.deep_view(), cw as int, ch as int),
            bounded(cur.deep_view(), u32::MAX * pow2((2 * i) as nat) as int),
        decreases k - i,
    {
        proof {
            vstd::arithmetic::power2::lemma2_to64();
            if 2 * i < 30 {
                vstd::arithmetic::power2::lemma_pow2_strictly_increases((2 * i) as nat, 30);
            }
            assert(u32::MAX * pow2((2 * i) as nat) <= (u64::MAX / 4) as int) by (nonlinear_arith)
                requires
                    pow2((2 * i) as nat) <= 1073741824,
            ;
            lemma_downsampled_bound(cur.deep_view(), cw as int, ch as int, u32::MAX * pow2((2 * i) as nat));
            lemma_pow2_unfold((2 * i + 2) as nat);
            lemma_pow2_unfold((2 * i + 1) as nat);
        }
        let next = downsample(&cur, cw, ch);
        levels.push(cur);
        cur = next;
        cw = cw / 2;
        ch = ch / 2;
        i += 1;
        proof {
            lemma_mip_level_grid(g64, w as int, h as int, i as nat);
        }
    }
    levels.push(cur);
    proof {
        let dv = levels.deep_view();
        assert forall|j: int| 0 <= j < dv.len() implies #[trigger] dv[j] == mip_level(g64, w as int, h as int, j as nat)
            && is_grid(dv[j], pow2((kw - j) as nat) as int, pow2((kh - j) as nat) as int) by {
            assert(dv[j] == levels@[j].deep_view());
            lemma_mip_level_grid(g64, w as int, h as int, j as nat);
            lemma_dim_at_pow2(kw as nat, j as nat);
            lemma_dim_at_pow2(kh as nat, j as nat);
        }
        assert forall|j: int| 0 <= j < dv.len() implies #[trigger] grid_sum(dv[j]) == grid_sum(g64) by {
            assert(dv[j] == levels@[j].deep_view());
            lemma_mip_level_mass(g64, kw as nat, kh as nat, j as nat);
        }
    }
    Ok(levels)
}


/// Sum of the cells of a row.
pub open spec fn row_sum(r: Seq<u64>) -> int
    decreases r.len(),
{
    if r.len() == 0 {
        0
    } else {
        row_sum(r.drop_last()) + r.last()
    }
}

/// Sum of the cells of a grid: its total mass.
pub open spec fn grid_sum(g: Seq<Seq<u64>>) -> int
    decreases g.len(),
{
    if g.len() == 0 {
        0
    } else {
        grid_sum(g.drop_last()) + row_sum(g.last())
    }
}

proof fn lemma_row_pairs(g: Seq<Seq<u64>>, w: int, h: int, y: int, n: int)
    requires
        bounded(g, (u64::MAX / 4) as int),
        is_grid(g, w, h),
        0 <= y < h / 2,
        0 <= n <= w / 2,
        0 <= w,
    ensures
        row_sum(downsampled(g, w, h)[y].take(n)) == row_sum(g[2 * y].take(2 * n)) + row_sum(
            g[2 * y + 1].take(2 * n),
        ),
    decreases n,
{
    let d = downsampled(g, w, h)[y];
    let top = g[2 * y];
    let bot = g[2 * y + 1];
    if n == 0 {
        assert(d.take(0) =~= Seq::<u64>::empty());
        assert(top.take(0) =~= Seq::<u64>::empty());
        assert(bot.take(0) =~= Seq::<u64>::empty());
        assert(row_sum(Seq::<u64>::empty()) == 0);
    } else {
        lemma_row_pairs(g, w, h, y, n - 1);
        assert(d.take(n).drop_last() =~= d.take(n - 1));
        assert(top.take(2 * n).drop_last() =~= top.take(2 * n - 1));
        assert(top.take(2 * n - 1).drop_last() =~= top.take(2 * n - 2));
        assert(bot.take(2 * n).drop_last() =~= bot.take(2 * n - 1));
        assert(bot.take(2 * n - 1).drop_last() =~= bot.take(2 * n - 2));
        let x = n - 1;
        assert(top[2 * x] <= u64::MAX / 4 && top[2 * x + 1] <= u64::MAX / 4);
        assert(bot[2 * x] <= u64::MAX / 4 && bot[2 * x + 1] <= u64::MAX / 4);
        assert(d[x] == block_sum(g, x, y));
        assert(top.len() == w && bot.len() == w && d.len() == w / 2);
        assert(row_sum(d.take(n)) == row_sum(d.take(n - 1)) + d[x]);
        assert(row_sum(top.take(2 * n)) == row_sum(top.take(2 * n - 1)) + top[2 * x + 1]);
        assert(row_sum(top.take(2 * n - 1)) == row_sum(top.take(2 * n - 2)) + top[2 * x]);
        assert(row_sum(bot.take(2 * n)) == row_sum(bot.take(2 * n - 1)) + bot[2 * x + 1]);
        assert(row_sum(bot.take(2 * n - 1)) == row_sum(bot.take(2 * n - 2)) + bot[2 * x]);
    }
}

proof fn lemma_grid_pairs(g: Seq<Seq<u64>>, w: int, h: int, m: int)
    requires
        bounded(g, (u64::MAX / 4) as int),
        is_grid(g, w, h),
        0 <= m <= h / 2,
        0 <= w,
        w % 2 == 0,
    ensures
        grid_sum(downsampled(g, w, h).take(m)) == grid_sum(g.take(2 * m)),
    decreases m,
{
    let d = downsampled(g, w, h);
    if m == 0 {
        assert(d.take(0) =~= Seq::<Seq<u64>>::empty());
        assert(g.take(0) =~= Seq::<Seq<u64>>::empty());
        assert(grid_sum(Seq::<Seq<u64>>::empty()) == 0);
    } else {
        lemma_grid_pairs(g, w, h, m - 1);
        assert(d.take(m).drop_last() =~= d.take(m - 1));
        assert(g.take(2 * m).drop_last() =~= g.take(2 * m - 1));
        assert(g.take(2 * m - 1).drop_last() =~= g.take(2 * m - 2));
        lemma_row_pairs(g, w, h, m - 1, w / 2);
        assert(d[m - 1].take(w / 2) =~= d[m - 1]);
        assert(g[2 * (m - 1)].take(w) =~= g[2 * (m - 1)]);
        assert(g[2 * (m - 1) + 1].take(w) =~= g[2 * (m - 1) + 1]);
        assert(grid_sum(d.take(m)) == grid_sum(d.take(m - 1)) + row_sum(d[m - 1]));
        assert(grid_sum(g.take(2 * m)) == grid_sum(g.take(2 * m - 1)) + row_sum(g[2 * m - 1]));
        assert(grid_sum(g.take(2 * m - 1)) == grid_sum(g.take(2 * m - 2)) + row_sum(g[2 * m - 2]));
    }
}

/// Reducing a grid of even sides by 2×2 sums keeps its total mass.
pub proof fn lemma_downsampled_keeps_mass(g: Seq<Seq<u64>>, w: int, h: int)
    requires
        bounded(g, (u64::MAX / 4) as int),
        is_grid(g, w, h),
        0 <= w,
        0 <= h,
        w % 2 == 0,
        h % 2 == 0,
    ensures
        grid_sum(downsampled(g, w, h)) == grid_sum(g),
{
    lemma_grid_pairs(g, w, h, h / 2);
    assert(downsampled(g, w, h).take(h / 2) =~= downsampled(g, w, h));
    assert(g.take(h) =~= g);
}


/// Every level of the pyramid over a base of 32-bit cells has the base's
/// total mass, and cells no larger than `4^i` base cells.
proof fn lemma_mip_level_mass(g: Seq<Seq<u64>>, a: nat, b: nat, i: nat)
    requires
        is_grid(g, pow2(a) as int, pow2(b) as int),
        bounded(g, u32::MAX as int),
        i < a,
        i < b,
        i <= 16,
    ensures
        grid_sum(mip_level(g, pow2(a) as int, pow2(b) as int, i)) == grid_sum(g),
        bounded(mip_level(g, pow2(a) as int, pow2(b) as int, i), u32::MAX * pow2(2 * i)),
    decreases i,
{
    let w = pow2(a) as int;
    let h = pow2(b) as int;
    vstd::arithmetic::power2::lemma2_to64();
    if i > 0 {
        let j = (i - 1) as nat;
        lemma_mip_level_mass(g, a, b, j);
        let prev = mip_level(g, w, h, j);
        lemma_mip_level_grid(g, w, h, j);
        lemma_dim_at_pow2(a, j);
        lemma_dim_at_pow2(b, j);
        lemma_pow2_unfold((a - j) as nat);
        lemma_pow2_unfold((b - j) as nat);
        if 2 * j < 30 {
            vstd::arithmetic::power2::lemma_pow2_strictly_increases(2 * j, 30);
        }
        assert(u32::MAX * pow2(2 * j) <= u64::MAX / 4) by (nonlinear_arith)
            requires
                pow2(2 * j) <= 1073741824,
        ;
        lemma_downsampled_keeps_mass(prev, dim_at(w, j), dim_at(h, j));
        lemma_downsampled_bound(prev, dim_at(w, j), dim_at(h, j), u32::MAX * pow2(2 * j));
        lemma_pow2_unfold(2 * i);
        lemma_pow2_unfold((2 * i - 1) as nat);
        assert(2 * i - 2 == 2 * j);
    }
}

} // verus!
