use meanshift::cluster::{cluster_points, refine_all};
use meanshift::kernel::{kernel, KERNEL_SCALE};
use meanshift::merger::merge_modes;
use meanshift::point::{coords_sq_dist, midpoint, squared_distance, Point};
use meanshift::seeker::{mean_shift_step, seek_mode, Params};

fn pt(label: &str, loc: &[i32]) -> Point {
    Point::new(label.to_string(), loc.to_vec())
}

fn pts(locs: &[&[i32]]) -> Vec<Point> {
    locs.iter().enumerate().map(|(i, l)| pt(&format!("p{}", i), l)).collect()
}

fn locs_of(ps: &[Point]) -> Vec<Vec<i32>> {
    ps.iter().map(|p| p.loc.clone()).collect()
}

fn params(bandwidth: u32, radius: u64, merge: u64, iters: u32, threshold: u64) -> Params {
    Params::new(bandwidth, radius, merge, iters, threshold)
}

#[test]
fn distance_to_self_is_zero() {
    let a = pt("a", &[7, -3, 12]);
    assert_eq!(squared_distance(&a, &a), 0);
}

#[test]
fn distance_is_symmetric_and_exact() {
    let a = pt("a", &[0, 0]);
    let b = pt("b", &[3, 4]);
    assert_eq!(squared_distance(&a, &b), 25);
    assert_eq!(squared_distance(&b, &a), 25);
}

#[test]
fn distance_at_coordinate_extremes() {
    let a = pt("a", &[i32::MIN, i32::MIN]);
    let b = pt("b", &[i32::MAX, i32::MAX]);
    let d: u128 = (u32::MAX as u128) * (u32::MAX as u128);
    assert_eq!(squared_distance(&a, &b), 2 * d);
    assert_eq!(coords_sq_dist(&b.loc, &a.loc), 2 * d);
}

#[test]
fn kernel_peak_is_scale() {
    assert_eq!(kernel(0, 1), KERNEL_SCALE);
    assert_eq!(kernel(0, 5000), KERNEL_SCALE);
}

#[test]
fn kernel_exact_value() {
    // With bandwidth 1 and squared distance 32 every step halves the weight.
    assert_eq!(kernel(32, 1), 65536);
}

#[test]
fn kernel_decreases_with_distance() {
    let mut last = kernel(0, 10);
    for d in 1..60u128 {
        let w = kernel(d * d, 10);
        assert!(w < KERNEL_SCALE);
        assert!(w <= last);
        last = w;
    }
    assert!(kernel(1, 10) < kernel(0, 10));
    assert!(kernel(400, 10) < kernel(100, 10));
}

#[test]
fn kernel_vanishes_far_away() {
    assert_eq!(kernel(u128::MAX, 1), 0);
    assert_eq!(kernel(u128::MAX, u32::MAX), 0);
}

#[test]
fn midpoint_rounds_toward_zero() {
    assert_eq!(midpoint(1, 4), 2);
    assert_eq!(midpoint(3, -6), -1);
    assert_eq!(midpoint(i32::MAX, i32::MAX), i32::MAX);
    assert_eq!(midpoint(i32::MIN, i32::MIN), i32::MIN);
}

#[test]
fn make_mean_folds_in_place() {
    let mut c = pt("c", &[1, 3]);
    let m = pt("m", &[4, -6]);
    c.make_mean(&m);
    assert_eq!(c.loc, vec![2, -1]);
    assert_eq!(c.label, "c");
}

#[test]
fn step_is_weighted_mean() {
    let ps = pts(&[&[0, 0], &[2, 0]]);
    assert_eq!(mean_shift_step(&ps, &vec![1, 0], 10, 1), Some(vec![1, 0]));
}

#[test]
fn step_leans_to_the_heavier_neighbour() {
    // The point itself weighs more than its neighbour, so the mean stays
    // nearer to it: (0 * w0 + 2 * w1) / (w0 + w1) rounds down to 0.
    let ps = pts(&[&[0, 0], &[2, 0]]);
    assert_eq!(mean_shift_step(&ps, &vec![0, 0], 10, 1), Some(vec![0, 0]));
}

#[test]
fn step_without_neighbours_is_none() {
    let ps = pts(&[&[0, 0], &[2, 0]]);
    assert_eq!(mean_shift_step(&ps, &vec![100, 100], 10, 1), None);
}

#[test]
fn isolated_point_is_its_own_mode() {
    let ps = pts(&[&[0, 0], &[100, 0]]);
    let p = params(1, 10, 2, 50, 0);
    let m = seek_mode(&ps, &ps[0], &p);
    assert_eq!(m.loc, vec![0, 0]);
    assert_eq!(m.label, "p0");
}

#[test]
fn iteration_cap_bounds_refinement() {
    let ps = pts(&[&[0], &[3]]);
    let one = seek_mode(&ps, &ps[0], &params(10, 10, 1, 1, 0));
    let step = mean_shift_step(&ps, &ps[0].loc, 10, 10).unwrap();
    assert_eq!(one.loc, step);
}

#[test]
fn refinement_is_deterministic() {
    let ps = pts(&[&[0, 0], &[100, 0], &[250, 30], &[90, 80]]);
    let p = params(100, 300, 50, 40, 0);
    for s in &ps {
        let a = seek_mode(&ps, s, &p);
        let b = seek_mode(&ps, s, &p);
        assert_eq!(a.loc, b.loc);
    }
    let all1 = refine_all(&ps, &p);
    let all2 = refine_all(&ps, &p);
    assert_eq!(locs_of(&all1), locs_of(&all2));
    for (i, s) in ps.iter().enumerate() {
        assert_eq!(all1[i].loc, seek_mode(&ps, s, &p).loc);
    }
}

#[test]
fn merge_folds_first_match_only() {
    let ms = pts(&[&[0], &[15], &[9]]);
    let cs = merge_modes(&ms, 10);
    assert_eq!(locs_of(&cs), vec![vec![4], vec![15]]);
}

#[test]
fn merge_keeps_separated_centers() {
    let ms = pts(&[&[0, 0], &[10, 0], &[0, 10]]);
    let cs = merge_modes(&ms, 10);
    assert_eq!(locs_of(&cs), locs_of(&ms));
    let again = merge_modes(&cs, 10);
    assert_eq!(locs_of(&again), locs_of(&cs));
}

#[test]
fn merge_can_pull_centers_together() {
    // Folding 8 into 0 moves that center to 4, within 10 of the center at 12,
    // so a second pass folds further.
    let ms = pts(&[&[0], &[12], &[8]]);
    let cs = merge_modes(&ms, 10);
    assert_eq!(locs_of(&cs), vec![vec![4], vec![12]]);
    let again = merge_modes(&cs, 10);
    assert_eq!(locs_of(&again), vec![vec![8]]);
}

#[test]
fn merge_of_nothing_is_empty() {
    let cs = merge_modes(&Vec::new(), 10);
    assert!(cs.is_empty());
}

#[test]
fn two_separated_pairs_give_two_clusters() {
    // Coordinates in thousandths: (0,0), (0.1,0), (100,100), (100.1,100).
    let ps = pts(&[&[0, 0], &[100, 0], &[100000, 100000], &[100100, 100000]]);
    let p = params(1000, 5000, 1000, 50, 0);
    let cs = cluster_points(&ps, &p);
    assert_eq!(cs.len(), 2);
    let near = |c: &Point, x: i32, y: i32| (c.loc[0] - x).abs() <= 2 && (c.loc[1] - y).abs() <= 2;
    assert!(cs.iter().any(|c| near(c, 50, 0)));
    assert!(cs.iter().any(|c| near(c, 100050, 100000)));
}

#[test]
fn single_point_is_one_cluster() {
    let ps = pts(&[&[5, 5]]);
    let cs = cluster_points(&ps, &params(1, 5, 1, 50, 0));
    assert_eq!(locs_of(&cs), vec![vec![5, 5]]);
}

#[test]
fn coincident_points_are_one_cluster() {
    for n in [1usize, 2, 7, 40] {
        let ps: Vec<Point> = (0..n).map(|i| pt(&format!("q{}", i), &[-3, 8, 21])).collect();
        let cs = cluster_points(&ps, &params(4, 20, 4, 10, 0));
        assert_eq!(locs_of(&cs), vec![vec![-3, 8, 21]]);
    }
}
