use maploc::grid::{bresenham, GridConfig, OccupancyGrid, LO_HIT, LO_MAX, LO_MIN, LO_MISS};
use maploc::map_format::MapError;
use maploc::pose::Heading;
use maploc::single::Single;

fn single(v: f32) -> Single {
    Single { bits: v.to_bits() }
}

fn value(s: Single) -> f32 {
    f32::from_bits(s.bits)
}

fn trig(a: Single) -> Heading {
    let a = f32::from_bits(a.bits);
    Heading { cos: single(a.cos()), sin: single(a.sin()) }
}

fn config(x: (f32, f32), y: (f32, f32), cell: f32) -> GridConfig {
    GridConfig {
        x_range: (single(x.0), single(x.1)),
        y_range: (single(y.0), single(y.1)),
        cell: single(cell),
    }
}

fn ray(g: &mut OccupancyGrid, x0: f32, y0: f32, x1: f32, y1: f32, hit: bool) {
    g.integrate_ray(single(x0), single(y0), single(x1), single(y1), hit);
}

#[test]
fn distance_field_matches_hand_computed() {
    // 5x5 grid, single obstacle at (2, 2).
    let mut g = OccupancyGrid::new(config((0.0, 0.5), (0.0, 0.5), 0.10));
    for _ in 0..20 {
        ray(&mut g, 0.0, 0.0, 0.25, 0.25, true);
    }
    let field = g.distance_field(150).to_vec();
    let cell = value(g.cell());
    for &(i, j, expected_cells) in &[
        (2_usize, 2_usize, 0.0_f32),
        (2, 3, 1.0),
        (2, 0, 2.0),
        (0, 0, (2.0_f32 * 2.0 + 2.0 * 2.0).sqrt()),
        (4, 4, (2.0_f32 * 2.0 + 2.0 * 2.0).sqrt()),
    ] {
        let got = value(field[i * g.width() + j]);
        let want = expected_cells * cell;
        assert!(
            (got - want).abs() < 1e-4,
            "cell ({i},{j}): expected {want:.3} m, got {got:.3} m"
        );
    }
    // Cache hit: the second call gives the same values.
    let field2 = g.distance_field(150);
    assert_eq!(field2.len(), 25);
    assert_eq!(field2, &field[..]);
}

#[test]
fn distance_field_invalidates_on_mutation() {
    let mut g = OccupancyGrid::new(config((0.0, 0.5), (0.0, 0.5), 0.10));
    for _ in 0..20 {
        ray(&mut g, 0.0, 0.0, 0.25, 0.25, true);
    }
    let d_before = value(g.distance_field(150)[0]);
    // Add a much closer obstacle and confirm the cache rebuilt.
    for _ in 0..20 {
        ray(&mut g, 0.4, 0.4, 0.05, 0.05, true);
    }
    let d_after = value(g.distance_field(150)[0]);
    assert!(
        d_after < d_before,
        "cache must invalidate after integrate_ray: before={d_before}, after={d_after}"
    );
    assert_eq!(d_after, 0.0);
}

#[test]
fn world_to_idx_round_trip() {
    let g = OccupancyGrid::new(GridConfig::default());
    let (i, j) = g.world_to_idx(single(0.0), single(0.0)).unwrap();
    assert!(j > 0 && i > 0);
    assert_eq!((i, j), (70, 90));
    assert!(g.world_to_idx(single(-100.0), single(0.0)).is_none());
    assert!(g.world_to_idx(single(0.0), single(100.0)).is_none());
}

#[test]
fn points_below_a_range_are_out_of_bounds() {
    let g = OccupancyGrid::new(GridConfig::default());
    assert!(g.world_to_idx(single(-4.52), single(0.0)).is_none());
    assert!(g.world_to_idx(single(-4.51), single(-3.51)).is_none());
    assert!(g.world_to_idx(single(0.0), single(-3.500001)).is_none());
    assert_eq!(g.world_to_idx(single(-4.5), single(-3.5)), Some((0, 0)));
    assert!(g.world_to_idx(single(4.52), single(0.0)).is_none());
    assert_eq!(g.world_to_idx(single(f32::NAN), single(0.0)), Some((70, 0)));
    assert!(g.world_to_idx(single(0.0), single(f32::INFINITY)).is_none());
    assert!(g.world_to_idx(single(f32::NEG_INFINITY), single(0.0)).is_none());
    // a distance too small for a quotient is still below
    let wide = OccupancyGrid::new(config((0.0, 100.0), (0.0, 100.0), 10.0));
    assert!(wide.world_to_idx(single(-1e-45), single(5.0)).is_none());
    assert_eq!(wide.world_to_idx(single(-0.0), single(5.0)), Some((0, 0)));
    // nothing is added there, and a beam leaves no mark on the edge
    let mut g = OccupancyGrid::new(config((0.0, 0.5), (0.0, 0.5), 0.1));
    g.add_log_odds_at_world(single(-0.05), single(0.05), 100);
    assert!(g.log_raw().iter().all(|v| *v == 0));
    ray(&mut g, -0.05, 0.05, -0.05, 0.45, true);
    assert!(g.log_raw().iter().all(|v| *v == 0));
}

#[test]
fn one_miss_makes_a_cell_known_free() {
    let mut g = OccupancyGrid::new(config((0.0, 0.5), (0.0, 0.5), 0.1));
    assert!(!g.is_known_free(0, 0));
    ray(&mut g, 0.0, 0.0, 0.25, 0.25, true);
    assert_eq!(g.log_at(0, 0), LO_MISS);
    assert!(g.is_known_free(0, 0));
    // the end of the beam is occupied, the rest unobserved
    assert!(!g.is_known_free(2, 2));
    assert!(!g.is_known_free(4, 4));
}

#[test]
fn rays_are_capped_at_their_range() {
    let g = OccupancyGrid::new(GridConfig::default());
    for k in 1..200 {
        let max = single(0.0473 * k as f32);
        let r = value(g.cast_ray(single(0.0), single(0.0), single(0.3), max, &trig));
        assert!(r <= value(max), "{r} {}", value(max));
    }
}

#[test]
fn integrate_then_cast_ray_finds_obstacle() {
    let mut g = OccupancyGrid::new(GridConfig::default());
    // Repeatedly hit the same wall at (1.0, 0.0) from the origin.
    for _ in 0..10 {
        ray(&mut g, 0.0, 0.0, 1.0, 0.0, true);
    }
    let d = value(g.cast_ray(single(0.0), single(0.0), single(0.0), single(4.0), &trig));
    assert!((d - 1.0).abs() < value(g.cell()) * 2.0, "expected hit near 1.0 m, got {d}");
}

#[test]
fn save_load_round_trip() {
    let mut g = OccupancyGrid::new(GridConfig::default());
    for _ in 0..5 {
        ray(&mut g, 0.0, 0.0, 1.5, 0.7, true);
    }
    let bytes = g.save();
    let g2 = OccupancyGrid::load(&bytes, &GridConfig::default()).unwrap().unwrap();
    assert_eq!(g.log_raw(), g2.log_raw());
    assert_eq!(g.width(), g2.width());
    assert_eq!(g.height(), g2.height());
}

#[test]
fn sides_cover_the_ranges() {
    let g = OccupancyGrid::new(GridConfig::default());
    let w = ((4.5_f32 - -4.5) / 0.05).ceil() as usize;
    let h = ((3.5_f32 - -3.5) / 0.05).ceil() as usize;
    assert_eq!((g.width(), g.height()), (w, h));
    assert_eq!(g.log_raw().len(), w * h);
    // an empty and an upside-down range hold no cells
    let none = OccupancyGrid::new(config((1.0, 1.0), (0.0, 1.0), 0.1));
    assert_eq!((none.width(), none.height()), (0, 10));
    let none = OccupancyGrid::new(config((1.0, 0.0), (0.0, 1.0), 0.1));
    assert_eq!(none.width(), 0);
    assert!(none.log_raw().is_empty());
}

#[test]
fn a_beam_marks_its_way_and_its_end() {
    let mut g = OccupancyGrid::new(config((0.0, 1.0), (0.0, 1.0), 0.1));
    ray(&mut g, 0.05, 0.05, 0.55, 0.05, true);
    let row: Vec<i16> = (0..10).map(|j| g.log_at(0, j)).collect();
    assert_eq!(row, vec![LO_MISS, LO_MISS, LO_MISS, LO_MISS, LO_MISS, LO_HIT, 0, 0, 0, 0]);
    assert!(g.is_occupied(0, 5) && !g.is_occupied(0, 4));
    assert!(g.is_known_free(0, 4) && !g.is_known_free(0, 5) && !g.is_known_free(0, 6));
    ray(&mut g, 0.05, 0.05, 0.55, 0.05, false);
    assert!(g.is_known_free(0, 4));
    assert_eq!(g.log_at(0, 5), LO_HIT + LO_MISS);
    // updates stop at the clamps
    for _ in 0..20 {
        ray(&mut g, 0.05, 0.05, 0.55, 0.05, true);
    }
    assert_eq!((g.log_at(0, 0), g.log_at(0, 5)), (LO_MIN, LO_MAX));
}

#[test]
fn beams_outside_the_grid_are_skipped() {
    let mut g = OccupancyGrid::new(config((0.0, 1.0), (0.0, 1.0), 0.1));
    ray(&mut g, 5.0, 5.0, 7.0, 6.0, true);
    assert!(g.log_raw().iter().all(|v| *v == 0));
    // one that ends outside marks its way up to the edge
    ray(&mut g, 0.55, 0.05, 3.0, 0.05, true);
    assert_eq!(g.log_at(0, 9), LO_MISS);
    assert_eq!(g.log_at(0, 4), 0);
}

#[test]
fn added_log_odds_are_clamped() {
    let mut g = OccupancyGrid::new(config((0.0, 1.0), (0.0, 1.0), 0.1));
    g.add_log_odds_at_world(single(0.25), single(0.35), 300);
    assert_eq!(g.log_at(3, 2), 300);
    g.add_log_odds_at_world(single(0.25), single(0.35), 300);
    assert_eq!(g.log_at(3, 2), LO_MAX);
    g.add_log_odds_at_world(single(9.0), single(0.35), 300);
    assert_eq!(g.log_raw().iter().filter(|v| **v != 0).count(), 1);
}

#[test]
fn rays_stop_at_the_bound_or_run_their_length() {
    let g = OccupancyGrid::new(config((0.0, 1.0), (0.0, 1.0), 0.1));
    let out = value(g.cast_ray(single(0.5), single(0.5), single(0.0), single(4.0), &trig));
    assert!((out - 0.5).abs() < 0.1, "{out}");
    let free = g.cast_ray(single(0.5), single(0.5), single(0.0), single(0.3), &trig);
    assert_eq!(value(free), 0.3);
    // no step fits: the ray is not looked at
    let short = g.cast_ray(single(50.0), single(0.5), single(0.0), single(0.01), &trig);
    assert_eq!(value(short), 0.01);
}

#[test]
fn a_grid_without_obstacles_is_as_far_as_it_is_wide() {
    let mut g = OccupancyGrid::new(config((0.0, 0.5), (0.0, 0.3), 0.10));
    let w = g.width() as f32;
    let n = g.log_raw().len();
    let f = g.distance_field(0);
    assert_eq!(f.len(), n);
    assert!(f.iter().all(|d| value(*d) == w * 0.10));
}

#[test]
fn distances_are_exact_for_many_obstacles() {
    let mut g = OccupancyGrid::new(config((0.0, 2.0), (0.0, 1.5), 0.05));
    let (w, h) = (g.width(), g.height());
    let mut x: u32 = 7;
    let mut walls = Vec::new();
    for _ in 0..25 {
        x = x.wrapping_mul(1664525).wrapping_add(1013904223);
        let (i, j) = ((x >> 8) as usize % h, (x >> 16) as usize % w);
        let (cx, cy) = g.cfg().centre(i, j);
        g.add_log_odds_at_world(cx, cy, 200);
        walls.push((i, j));
    }
    let field = g.distance_field(100).to_vec();
    for i in 0..h {
        for j in 0..w {
            let best = walls
                .iter()
                .map(|(a, b)| {
                    let (di, dj) = (i as i64 - *a as i64, j as i64 - *b as i64);
                    di * di + dj * dj
                })
                .min()
                .unwrap();
            assert_eq!(value(field[i * w + j]), (best as f32).sqrt() * 0.05, "({i}, {j})");
        }
    }
}

#[test]
fn lines_visit_both_ends() {
    assert_eq!(bresenham(3, 4, 3, 4), vec![(3, 4, true)]);
    assert_eq!(bresenham(0, 0, 0, 2), vec![(0, 0, false), (0, 1, false), (0, 2, true)]);
    assert_eq!(
        bresenham(0, 0, 2, 4),
        vec![(0, 0, false), (0, 1, false), (1, 2, false), (1, 3, false), (2, 4, true)]
    );
    assert_eq!(
        bresenham(1, 1, -1, 0),
        vec![(1, 1, false), (0, 1, false), (-1, 0, true)]
    );
}

/// The walk as it is usually written.
fn walk(i0: i32, j0: i32, i1: i32, j1: i32) -> Vec<(i32, i32, bool)> {
    let di = (i1 - i0).abs();
    let dj = (j1 - j0).abs();
    let si = if i0 < i1 { 1 } else { -1 };
    let sj = if j0 < j1 { 1 } else { -1 };
    let (mut i, mut j) = (i0, j0);
    let mut err = di - dj;
    let mut out = Vec::new();
    loop {
        let at_end = i == i1 && j == j1;
        out.push((i, j, at_end));
        if at_end {
            return out;
        }
        let e2 = 2 * err;
        if e2 > -dj {
            err -= dj;
            i += si;
        }
        if e2 < di {
            err += di;
            j += sj;
        }
    }
}

#[test]
fn lines_are_those_of_the_usual_walk() {
    for i1 in -12..=12 {
        for j1 in -12..=12 {
            assert_eq!(bresenham(2, -3, i1, j1), walk(2, -3, i1, j1), "({i1}, {j1})");
        }
    }
}

#[test]
fn maps_of_another_geometry_are_not_taken() {
    let g = OccupancyGrid::new(GridConfig::default());
    let bytes = g.save();
    assert_eq!(&bytes[..8], &[b'M', b'D', b'L', b'M', 1, 0, 0, 0]);
    assert_eq!(bytes.len(), 36 + 2 * g.log_raw().len());
    let other = config((0.0, 1.0), (0.0, 1.0), 0.1);
    assert!(OccupancyGrid::load(&bytes, &other).unwrap().is_none());
    assert!(OccupancyGrid::decode(&bytes).is_ok());
}

#[test]
fn corrupt_maps_are_refused() {
    let g = OccupancyGrid::new(config((0.0, 1.0), (0.0, 1.0), 0.1));
    let bytes = g.save();
    let mut bad = bytes.clone();
    bad[3] = b'X';
    assert!(matches!(OccupancyGrid::decode(&bad), Err(MapError::BadMagic)));
    let mut newer = bytes.clone();
    newer[4] = 9;
    assert!(matches!(OccupancyGrid::decode(&newer), Err(MapError::UnsupportedVersion(9))));
    for n in [0, 3, 7, 35, 36, bytes.len() - 1] {
        assert!(matches!(OccupancyGrid::decode(&bytes[..n]), Err(MapError::UnexpectedEof)), "{n}");
    }
    // sides far beyond the bytes
    let mut huge = bytes.clone();
    huge[28..36].fill(0xff);
    assert!(matches!(OccupancyGrid::decode(&huge), Err(MapError::UnexpectedEof)));
}

#[test]
fn grids_are_put_together_from_parts() {
    let cfg = config((0.0, 0.2), (0.0, 0.1), 0.1);
    assert!(OccupancyGrid::from_parts(cfg, 2, 1, vec![5]).is_none());
    let g = OccupancyGrid::from_parts(cfg, 2, 1, vec![5, -60]).unwrap();
    assert_eq!((g.log_at(0, 0), g.log_at(0, 1)), (5, -60));
    assert!(g.is_known_free(0, 1));
    assert!(g.in_bounds(0, 1) && !g.in_bounds(0, 2) && !g.in_bounds(-1, 0));
}
