use warped_sampling::{
    child_box, downsample, generate_mipmaps, lerp, lerp_factor, luminance, split_cell, warp,
    warp_a_point, Box2, WarpError, ONE,
};

fn fixed(v: f64) -> u32 {
    (v * ONE as f64) as u32
}

fn coarsest_first(levels: Vec<Vec<Vec<u64>>>) -> Vec<Vec<Vec<u64>>> {
    levels.into_iter().rev().collect()
}

fn grid(side: usize, value: u32) -> Vec<Vec<u32>> {
    vec![vec![value; side]; side]
}

fn grid64(side: usize, value: u64) -> Vec<Vec<u64>> {
    vec![vec![value; side]; side]
}

fn sample_points() -> Vec<(u32, u32)> {
    let mut pts = Vec::new();
    let mut a: u64 = 12345;
    for _ in 0..200 {
        a = a.wrapping_mul(6364136223846793005).wrapping_add(1442695040888963407);
        let x = (a >> 32) as u32;
        a = a.wrapping_mul(6364136223846793005).wrapping_add(1442695040888963407);
        let y = (a >> 32) as u32;
        pts.push((x, y));
    }
    pts
}

fn ramp_pyramid() -> Vec<Vec<Vec<u64>>> {
    let mut base = Vec::new();
    for y in 0..8u32 {
        let mut row = Vec::new();
        for x in 0..8u32 {
            row.push(1 + x * 3 + y * 7);
        }
        base.push(row);
    }
    coarsest_first(generate_mipmaps(base).unwrap())
}

#[test]
fn uniform_single_level_is_identity() {
    let pyr = coarsest_first(generate_mipmaps(vec![vec![1, 1], vec![1, 1]]).unwrap());
    assert_eq!(pyr.len(), 1);
    let p = (fixed(0.2), fixed(0.7));
    let mut out = Vec::new();
    assert_eq!(warp(&pyr, &[p], &mut out), Ok(()));
    assert_eq!(out, vec![p]);
}

#[test]
fn top_heavy_split_boxes() {
    let unit = Box2 { min: (0, 0), max: (ONE, ONE) };
    let boxes = split_cell([3, 1, 0, 0], &unit).unwrap();
    let three_quarters = 3 * ONE / 4;
    assert_eq!(boxes[0], Box2 { min: (0, 0), max: (three_quarters, ONE) });
    assert_eq!(boxes[1], Box2 { min: (three_quarters, 0), max: (ONE, ONE) });
    assert_eq!(boxes[2].min.1, ONE);
    assert_eq!(boxes[3].min.1, ONE);
}

#[test]
fn top_heavy_routes_into_top_row() {
    let pyr = vec![vec![vec![3, 1], vec![0, 0]]];
    let mut out = Vec::new();
    let pts = [(fixed(0.5), fixed(0.5)), (fixed(0.9), fixed(0.99))];
    assert_eq!(warp(&pyr, &pts, &mut out), Ok(()));
    assert_eq!(out.len(), 2);
    // (0.5, 0.5) falls in the top-left box [0, 0.75] x [0, 1] and lands in
    // the texture cell [0, 0.5]².
    assert_eq!(out[0], (1431655765, 1073741824));
    // (0.9, 0.99) falls in the top-right box and lands in [0.5, 1] x [0, 0.5].
    assert!(out[1].0 >= fixed(0.5) && out[1].1 < fixed(0.5));
}

#[test]
fn zero_quadrant_reports_degenerate_density() {
    let mut fine = grid64(4, 1);
    fine[0][0] = 0;
    fine[0][1] = 0;
    fine[1][0] = 0;
    fine[1][1] = 0;
    let pyr = vec![grid64(2, 1), fine];
    let mut out = vec![(7, 7)];
    let r = warp(&pyr, &[(fixed(0.1), fixed(0.1))], &mut out);
    assert_eq!(r, Err(WarpError::DegenerateDensity { level: 1, x: 0, y: 0, points: 1 }));
    assert_eq!(out, vec![(7, 7)]);
    let mut out = Vec::new();
    assert_eq!(warp(&pyr, &[(fixed(0.9), fixed(0.9))], &mut out), Ok(()));
    assert_eq!(out.len(), 1);
}

#[test]
fn zero_width_box_maps_to_cell_centre() {
    let pyr = vec![vec![vec![0, 1], vec![1, 1]]];
    let mut out = Vec::new();
    assert_eq!(warp(&pyr, &[(0, 0)], &mut out), Ok(()));
    assert_eq!(out, vec![(1073741824, 0)]);
}

#[test]
fn high_contrast_positive_pyramid_keeps_every_point() {
    let fine = vec![
        vec![1, 65536, 65536, 65536],
        vec![1, 65536, 65536, 65536],
        vec![65536; 4],
        vec![65536; 4],
    ];
    let pyr = vec![vec![vec![1, 65536], vec![1, 65536]], fine];
    let mut out = Vec::new();
    assert_eq!(warp(&pyr, &[(0, 0)], &mut out), Ok(()));
    assert_eq!(out.len(), 1);
    let pts = sample_points();
    let mut out = Vec::new();
    assert_eq!(warp(&pyr, &pts, &mut out), Ok(()));
    assert_eq!(out.len(), pts.len());
}

#[test]
fn malformed_pyramids_are_rejected() {
    let mut out = vec![(1, 2)];
    assert_eq!(warp(&vec![], &[(0, 0)], &mut out), Err(WarpError::MalformedPyramid));
    assert_eq!(warp(&vec![grid64(4, 1)], &[(0, 0)], &mut out), Err(WarpError::MalformedPyramid));
    assert_eq!(warp(&vec![grid64(2, 1), grid64(2, 1)], &[], &mut out), Err(WarpError::MalformedPyramid));
    assert_eq!(out, vec![(1, 2)]);
}

#[test]
fn warp_conserves_points() {
    let pyr = ramp_pyramid();
    let pts = sample_points();
    let mut out = Vec::new();
    assert_eq!(warp(&pyr, &pts, &mut out), Ok(()));
    assert_eq!(out.len(), pts.len());
}

#[test]
fn warp_appends_after_existing_points() {
    let pyr = ramp_pyramid();
    let pts = sample_points();
    let mut out = vec![(5, 6)];
    assert_eq!(warp(&pyr, &pts, &mut out), Ok(()));
    assert_eq!(out.len(), pts.len() + 1);
    assert_eq!(out[0], (5, 6));
}

#[test]
fn warp_stays_in_unit_square_near_the_border() {
    let pyr = ramp_pyramid();
    let pts = vec![(u32::MAX, u32::MAX), (0, u32::MAX), (u32::MAX, 0), (0, 0)];
    let mut out = Vec::new();
    assert_eq!(warp(&pyr, &pts, &mut out), Ok(()));
    assert_eq!(out.len(), 4);
    assert!(out.contains(&(0, 0)));
}

#[test]
fn warp_is_deterministic() {
    let pyr = ramp_pyramid();
    let pts = sample_points();
    let mut a = Vec::new();
    let mut b = Vec::new();
    assert_eq!(warp(&pyr, &pts, &mut a), Ok(()));
    assert_eq!(warp(&pyr, &pts, &mut b), Ok(()));
    assert_eq!(a, b);
}

#[test]
fn uniform_pyramid_keeps_every_point() {
    let pyr = coarsest_first(generate_mipmaps(grid(16, 5)).unwrap());
    assert_eq!(pyr.len(), 4);
    let mut pts = sample_points();
    let mut out = Vec::new();
    assert_eq!(warp(&pyr, &pts, &mut out), Ok(()));
    pts.sort();
    out.sort();
    assert_eq!(out, pts);
}

#[test]
fn dense_region_attracts_points() {
    let mut base = grid(8, 1);
    for row in base.iter_mut().take(4) {
        for v in row.iter_mut().take(4) {
            *v = 100;
        }
    }
    let pyr = coarsest_first(generate_mipmaps(base).unwrap());
    let pts = sample_points();
    let mut out = Vec::new();
    assert_eq!(warp(&pyr, &pts, &mut out), Ok(()));
    let half = fixed(0.5);
    let inside = out.iter().filter(|p| p.0 < half && p.1 < half).count();
    assert!(inside > pts.len() / 2);
}

#[test]
fn output_grouped_by_cell_in_pre_order() {
    let pyr = vec![grid64(2, 1)];
    let pts = [(fixed(0.8), fixed(0.8)), (fixed(0.1), fixed(0.1)), (fixed(0.8), fixed(0.1))];
    let mut out = Vec::new();
    assert_eq!(warp(&pyr, &pts, &mut out), Ok(()));
    assert_eq!(out, vec![pts[1], pts[2], pts[0]]);
}

#[test]
fn pyramid_shape_of_square_base() {
    let levels = generate_mipmaps(grid(8, 2)).unwrap();
    assert_eq!(levels.len(), 3);
    for (i, side) in [8usize, 4, 2].iter().enumerate() {
        assert_eq!(levels[i].len(), *side);
        assert!(levels[i].iter().all(|r| r.len() == *side));
    }
    assert_eq!(levels[0], grid64(8, 2));
    assert_eq!(levels[1], grid64(4, 8));
    assert_eq!(levels[2], grid64(2, 32));
}

#[test]
fn pyramid_of_two_by_two_base_has_one_level() {
    let levels = generate_mipmaps(vec![vec![1, 2], vec![3, 4]]).unwrap();
    assert_eq!(levels, vec![vec![vec![1, 2], vec![3, 4]]]);
}

#[test]
fn pyramid_of_rectangular_base() {
    let base = vec![vec![4u32; 8]; 4];
    let levels = generate_mipmaps(base).unwrap();
    assert_eq!(levels.len(), 2);
    assert_eq!(levels[1], vec![vec![16u64; 4]; 2]);
}

#[test]
fn pyramid_rejects_bad_bases() {
    assert_eq!(generate_mipmaps(vec![]), Err(WarpError::MalformedPyramid));
    assert_eq!(generate_mipmaps(grid(3, 1)), Err(WarpError::MalformedPyramid));
    assert_eq!(generate_mipmaps(grid(6, 1)), Err(WarpError::MalformedPyramid));
    assert_eq!(generate_mipmaps(vec![vec![1]]), Err(WarpError::MalformedPyramid));
    assert_eq!(generate_mipmaps(vec![vec![1, 1], vec![1]]), Err(WarpError::MalformedPyramid));
    assert_eq!(generate_mipmaps(vec![vec![1; 4]; 1]), Err(WarpError::MalformedPyramid));
}

#[test]
fn pyramid_keeps_isolated_mass() {
    let mut base = grid(4, 0);
    base[0][0] = 1;
    let levels = generate_mipmaps(base).unwrap();
    assert_eq!(levels[1], vec![vec![1, 0], vec![0, 0]]);
}

#[test]
fn downsample_takes_block_sums() {
    let g: Vec<Vec<u64>> = vec![
        vec![1, 2, 3, 4],
        vec![5, 6, 7, 8],
        vec![9, 10, 11, 12],
        vec![13, 14, 15, 16],
    ];
    assert_eq!(downsample(&g, 4, 4), vec![vec![14, 22], vec![46, 54]]);
}

#[test]
fn luminance_weights() {
    assert_eq!(luminance(255, 255, 255), 255000);
    assert_eq!(luminance(1, 0, 0), 299);
    assert_eq!(luminance(0, 1, 0), 587);
    assert_eq!(luminance(0, 0, 1), 114);
    assert_eq!(luminance(0, 0, 0), 0);
}

#[test]
fn lerp_rounds_down() {
    assert_eq!(lerp(0, 100, 1, 4), 25);
    assert_eq!(lerp(10, 20, 1, 3), 13);
    assert_eq!(lerp(10, 20, 3, 3), 20);
    assert_eq!(lerp(0, ONE, 3, 4), 3221225472);
}

#[test]
fn lerp_factor_of_empty_interval() {
    assert_eq!(lerp_factor(5, 5, 5), None);
    assert_eq!(lerp_factor(2, 10, 6), Some((4, 8)));
}

#[test]
fn child_boxes_from_edges() {
    let edge = [(0, 0), (30, 60), (100, 100)];
    assert_eq!(child_box(0, edge), Box2 { min: (0, 0), max: (30, 60) });
    assert_eq!(child_box(1, edge), Box2 { min: (30, 0), max: (100, 60) });
    assert_eq!(child_box(2, edge), Box2 { min: (0, 60), max: (30, 100) });
    assert_eq!(child_box(3, edge), Box2 { min: (30, 60), max: (100, 100) });
}

#[test]
fn point_carried_between_boxes() {
    let texture = Box2 { min: (0, 0), max: (100, 200) };
    let reference = Box2 { min: (10, 10), max: (20, 30) };
    assert_eq!(warp_a_point((15, 20), &texture, &reference), (50, 100));
    let flat = Box2 { min: (10, 10), max: (10, 30) };
    assert_eq!(warp_a_point((10, 20), &texture, &flat), (50, 100));
}

#[test]
fn split_of_zero_mass_is_none() {
    let b = Box2 { min: (0, 0), max: (ONE, ONE) };
    assert_eq!(split_cell([0, 0, 0, 0], &b), None);
    let even = split_cell([2, 2, 2, 2], &b).unwrap();
    assert_eq!(even[3], Box2 { min: (ONE / 2, ONE / 2), max: (ONE, ONE) });
}

#[test]
fn each_point_is_warped_on_its_own() {
    let pyr = ramp_pyramid();
    let pts = sample_points();
    let mut together = Vec::new();
    assert_eq!(warp(&pyr, &pts, &mut together), Ok(()));
    let mut alone = Vec::new();
    for p in &pts {
        let mut one = Vec::new();
        assert_eq!(warp(&pyr, &[*p], &mut one), Ok(()));
        assert_eq!(one.len(), 1);
        alone.push(one[0]);
    }
    together.sort();
    alone.sort();
    assert_eq!(together, alone);
}

#[test]
fn top_heavy_closed_form() {
    let pyr = vec![vec![vec![3, 1], vec![0, 0]]];
    let split: u64 = 3221225472;
    for p in [(fixed(0.9), fixed(0.99)), (fixed(0.3), fixed(0.2)), (split as u32, 7), (split as u32 + 1, 7)] {
        let mut out = Vec::new();
        assert_eq!(warp(&pyr, &[p], &mut out), Ok(()));
        let y = (2147483648 * p.1 as u64) / ONE;
        let x = if (p.0 as u64) <= split {
            (2147483648 * p.0 as u64) / split
        } else {
            2147483648 + (2147483648 * (p.0 as u64 - split)) / 1073741824
        };
        assert_eq!(out, vec![(x as u32, y as u32)]);
    }
}

#[test]
fn every_level_keeps_the_base_mass() {
    let mut base = Vec::new();
    for y in 0..16u32 {
        base.push((0..16u32).map(|x| (x * 37 + y * 101) % 255).collect::<Vec<u32>>());
    }
    let total: u64 = base.iter().flatten().map(|v| *v as u64).sum();
    let levels = generate_mipmaps(base).unwrap();
    assert_eq!(levels.len(), 4);
    for level in &levels {
        assert_eq!(level.iter().flatten().sum::<u64>(), total);
    }
}
