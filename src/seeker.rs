//! Per-point mode seeking: repeated kernel-weighted means of the neighbourhood.
use vstd::prelude::*;
use vstd::arithmetic::div_mod::lemma_multiply_divide_le;
use crate::kernel::{kernel, kernel_peaks_at_zero, kernel_weight, KERNEL_SCALE};
use crate::point::{
    all_of_dim, coords_sq_dist, copy_coords, lemma_sq_dist_self, lemma_trunc_div_exact, locs, sq_dist, trunc_div, Point,
};

verus! {

/// The tunable parameters of a clustering run, in the coordinates' fixed-point
/// units.
pub struct Params {
    /// Kernel scale: how quickly a neighbour's influence decays with distance.
    pub bandwidth: u32,
    /// Largest distance at which a point counts as a neighbour at all.
    pub radius_cutoff: u64,
    /// Two modes closer than this are folded into one cluster center.
    pub merge_radius: u64,
    /// Cap on the refinement iterations of one point.
    pub max_iterations: u32,
    /// A refinement stops once its centroid moves no farther than this.
    pub convergence_threshold: u64,
}

impl Params {
    /// All parameters are in their admitted ranges.
    pub open spec fn valid(&self) -> bool {
        &&& 0 < self.bandwidth
        &&& 0 < self.radius_cutoff
        &&& 0 < self.merge_radius
        &&& 1 <= self.max_iterations
    }

    pub fn new(
        bandwidth: u32,
        radius_cutoff: u64,
        merge_radius: u64,
        max_iterations: u32,
        convergence_threshold: u64,
    ) -> (r: Params)
        ensures
            r.bandwidth == bandwidth,
            r.radius_cutoff == radius_cutoff,
            r.merge_radius == merge_radius,
            r.max_iterations == max_iterations,
            r.convergence_threshold == convergence_threshold,
    {
        Params { bandwidth, radius_cutoff, merge_radius, max_iterations, convergence_threshold }
    }
}

/// The weight that `p` contributes to a weighted mean around `c`: its kernel
/// weight inside the cutoff radius, nothing outside it.
pub open spec fn weight_of(p: Seq<i32>, c: Seq<i32>, radius: int, bandwidth: int) -> int {
    if sq_dist(p, c) <= radius * radius {
        kernel_weight(sq_dist(p, c), bandwidth)
    } else {
        0
    }
}

/// Sum of the weights of `pts` around `c`.
pub open spec fn total_weight(pts: Seq<Seq<i32>>, c: Seq<i32>, radius: int, bandwidth: int) -> int
    decreases pts.len(),
{
    if pts.len() == 0 {
        0
    } else {
        total_weight(pts.drop_last(), c, radius, bandwidth) + weight_of(
            pts.last(),
            c,
            radius,
            bandwidth,
        )
    }
}

/// Sum over `pts` of weight times coordinate `i`.
pub open spec fn weighted_sum(
    pts: Seq<Seq<i32>>,
    c: Seq<i32>,
    radius: int,
    bandwidth: int,
    i: int,
) -> int
    decreases pts.len(),
{
    if pts.len() == 0 {
        0
    } else {
        weighted_sum(pts.drop_last(), c, radius, bandwidth, i) + weight_of(
            pts.last(),
            c,
            radius,
            bandwidth,
        ) * pts.last()[i]
    }
}

/// The weighted mean of `pts` around `c`, each coordinate rounded toward zero.
/// Meaningful where the total weight is positive.
pub open spec fn shift_step(pts: Seq<Seq<i32>>, c: Seq<i32>, radius: int, bandwidth: int) -> Seq<
    i32,
> {
    Seq::new(
        c.len(),
        |i: int|
            trunc_div(
                weighted_sum(pts, c, radius, bandwidth, i),
                total_weight(pts, c, radius, bandwidth),
            ) as i32,
    )
}

/// The centroid reached from `c` with at most `fuel` iterations left. An
/// iteration in which no point carries weight leaves the centroid as it is;
/// one that moves it no farther than the threshold is the last.
pub open spec fn seek(pts: Seq<Seq<i32>>, c: Seq<i32>, p: Params, fuel: nat) -> Seq<i32>
    decreases fuel,
{
    if fuel == 0 {
        c
    } else if total_weight(pts, c, p.radius_cutoff as int, p.bandwidth as int) == 0 {
        seek(pts, c, p, (fuel - 1) as nat)
    } else {
        let n = shift_step(pts, c, p.radius_cutoff as int, p.bandwidth as int);
        if sq_dist(c, n) <= p.convergence_threshold * p.convergence_threshold {
            n
        } else {
            seek(pts, n, p, (fuel - 1) as nat)
        }
    }
}

/// The mode that the refinement of `start` converges to (or stops at).
pub open spec fn mode_of(pts: Seq<Seq<i32>>, start: Seq<i32>, p: Params) -> Seq<i32> {
    seek(pts, start, p, p.max_iterations as nat)
}

proof fn lemma_accumulate(a: int, ot: int, w: int, x: int)
    requires
        -0x8000_0000 * ot <= a <= 0x7FFF_FFFF * ot,
        0 <= w,
        -0x8000_0000 <= x <= 0x7FFF_FFFF,
    ensures
        -0x8000_0000 * (ot + w) <= a + w * x <= 0x7FFF_FFFF * (ot + w),
{
    assert(-0x8000_0000 * w <= w * x <= 0x7FFF_FFFF * w) by (nonlinear_arith)
        requires
            0 <= w,
            -0x8000_0000 <= x <= 0x7FFF_FFFF,
    ;
    assert(-0x8000_0000 * (ot + w) == -0x8000_0000 * ot + -0x8000_0000 * w) by (nonlinear_arith);
    assert(0x7FFF_FFFF * (ot + w) == 0x7FFF_FFFF * ot + 0x7FFF_FFFF * w) by (nonlinear_arith);
}

/// One refinement step from `centroid`: the kernel-weighted mean of the points
/// within `radius` of it, or `None` where no point carries any weight.
pub fn mean_shift_step(points: &Vec<Point>, centroid: &Vec<i32>, radius: u64, bandwidth: u32) -> (r:
    Option<Vec<i32>>)
    requires
        0 < bandwidth,
        all_of_dim(locs(points@), centroid@.len()),
    ensures
        r is None <==> total_weight(locs(points@), centroid@, radius as int, bandwidth as int) == 0,
        r matches Some(v) ==> v@ == shift_step(
            locs(points@),
            centroid@,
            radius as int,
            bandwidth as int,
        ),
{
    let ghost pts = locs(points@);
    let ghost c = centroid@;
    let ghost ri = radius as int;
    let ghost bi = bandwidth as int;
    let d = centroid.len();
    assert(radius * radius <= 0xFFFF_FFFF_FFFF_FFFF * 0xFFFF_FFFF_FFFF_FFFF) by (nonlinear_arith)
        requires
            radius <= 0xFFFF_FFFF_FFFF_FFFF,
    ;
    let r2: u128 = radius as u128 * radius as u128;
    let mut acc: Vec<i128> = Vec::new();
    let mut k: usize = 0;
    while k < d
        invariant
            acc@.len() == k,
            k <= d,
            forall|q: int| 0 <= q < k ==> acc@[q] == 0,
        decreases d - k,
    {
        acc.push(0);
        k = k + 1;
    }
    assert(pts.take(0) =~= Seq::<Seq<i32>>::empty());
    let n = points.len();
    let mut tot: u128 = 0;
    let mut j: usize = 0;
    while j < n
        invariant
            n == points@.len(),
            pts == locs(points@),
            pts.len() == n,
            c == centroid@,
            ri == radius,
            bi == bandwidth,
            all_of_dim(pts, d as nat),
            d == c.len(),
            r2 == radius * radius,
            0 < bandwidth,
            j <= n,
            acc@.len() == d,
            tot == total_weight(pts.take(j as int), c, ri, bi),
            tot <= j * KERNEL_SCALE,
            forall|q: int|
                0 <= q < d ==> acc@[q] == weighted_sum(pts.take(j as int), c, ri, bi, q),
            forall|q: int|
                0 <= q < d ==> -0x8000_0000 * tot <= #[trigger] acc@[q] <= 0x7FFF_FFFF * tot,
        decreases n - j,
    {
        let p = &points[j];
        assert(pts[j as int] == p.loc@);
        assert(p.loc@.len() == d);
        let ds = coords_sq_dist(&p.loc, centroid);
        let w: u64 = if ds <= r2 {
            kernel(ds, bandwidth)
        } else {
            0
        };
        assert(w == weight_of(pts[j as int], c, ri, bi));
        assert(pts.take(j + 1).drop_last() =~= pts.take(j as int));
        assert(pts.take(j + 1).last() == pts[j as int]);
        let ghost old_acc = acc@;
        let ghost old_tot = tot as int;
        tot = tot + w as u128;
        let mut k: usize = 0;
        while k < d
            invariant
                acc@.len() == d,
                old_acc.len() == d,
                k <= d,
                p.loc@.len() == d,
                tot == old_tot + w,
                tot <= (j + 1) * KERNEL_SCALE,
                j < n,
                w <= KERNEL_SCALE,
                forall|q: int| 0 <= q < k ==> acc@[q] == old_acc[q] + w * p.loc@[q],
                forall|q: int| k <= q < d ==> acc@[q] == old_acc[q],
                forall|q: int|
                    0 <= q < d ==> -0x8000_0000 * old_tot <= #[trigger] old_acc[q] <= 0x7FFF_FFFF
                        * old_tot,
            decreases d - k,
        {
            proof {
                lemma_accumulate(old_acc[k as int] as int, old_tot, w as int, p.loc@[k as int] as int);
                assert(0x7FFF_FFFF * tot <= 0x7FFF_FFFF * 0x1_0000_0000_0000_0000 * KERNEL_SCALE)
                    by (nonlinear_arith)
                    requires
                        tot <= (j + 1) * KERNEL_SCALE,
                        j + 1 <= 0x1_0000_0000_0000_0000,
                ;
                assert(0x8000_0000 * tot <= 0x8000_0000 * 0x1_0000_0000_0000_0000 * KERNEL_SCALE)
                    by (nonlinear_arith)
                    requires
                        tot <= (j + 1) * KERNEL_SCALE,
                        j + 1 <= 0x1_0000_0000_0000_0000,
                ;
                assert(0 <= w * p.loc@[k as int] + 0x8000_0000 * w) by (nonlinear_arith)
                    requires
                        0 <= w,
                        -0x8000_0000 <= p.loc@[k as int],
                ;
                assert(w * p.loc@[k as int] <= 0x7FFF_FFFF * w) by (nonlinear_arith)
                    requires
                        0 <= w,
                        p.loc@[k as int] <= 0x7FFF_FFFF,
                ;
            }
            let v: i128 = acc[k] + (w as i128) * (p.loc[k] as i128);
            acc.set(k, v);
            k = k + 1;
        }
        proof {
            assert forall|q: int| 0 <= q < d implies -0x8000_0000 * tot <= #[trigger] acc@[q]
                <= 0x7FFF_FFFF * tot by {
                lemma_accumulate(old_acc[q] as int, old_tot, w as int, p.loc@[q] as int);
            }
            assert forall|q: int| 0 <= q < d implies acc@[q] == weighted_sum(
                pts.take(j + 1),
                c,
                ri,
                bi,
                q,
            ) by {
                assert(pts.take(j + 1).last()[q] == p.loc@[q]);
            }
        }
        j = j + 1;
    }
    assert(pts.take(n as int) =~= pts);
    if tot == 0 {
        return None;
    }
    let mut out: Vec<i32> = Vec::new();
    let mut k: usize = 0;
    while k < d
        invariant
            k <= d,
            d == c.len(),
            acc@.len() == d,
            0 < tot,
            tot <= n * KERNEL_SCALE,
            n < 0x1_0000_0000_0000_0000,
            tot == total_weight(pts, c, ri, bi),
            forall|q: int| 0 <= q < d ==> acc@[q] == weighted_sum(pts, c, ri, bi, q),
            forall|q: int|
                0 <= q < d ==> -0x8000_0000 * tot <= #[trigger] acc@[q] <= 0x7FFF_FFFF * tot,
            out@.len() == k,
            forall|q: int| 0 <= q < k ==> out@[q] == shift_step(pts, c, ri, bi)[q],
        decreases d - k,
    {
        let a: i128 = acc[k];
        let v: i32 = if a >= 0 {
            proof {
                lemma_multiply_divide_le(a as int, tot as int, 0x7FFF_FFFF);
            }
            (a as u128 / tot) as i32
        } else {
            proof {
                lemma_multiply_divide_le(-a, tot as int, 0x8000_0000);
                assert(0x8000_0000 * tot < 0x8000_0000 * 0x1_0000_0000_0000_0000 * KERNEL_SCALE)
                    by (nonlinear_arith)
                    requires
                        tot <= n * KERNEL_SCALE,
                        n < 0x1_0000_0000_0000_0000,
                ;
            }
            let m: u128 = (-a) as u128 / tot;
            (-(m as i64)) as i32
        };
        out.push(v);
        k = k + 1;
    }
    assert(out@ =~= shift_step(pts, c, ri, bi));
    Some(out)
}

/// Refines `start` against `points` until its centroid moves no farther than
/// the convergence threshold, or `max_iterations` are spent. The mode keeps
/// the starting point's label.
pub fn seek_mode(points: &Vec<Point>, start: &Point, params: &Params) -> (r: Point)
    requires
        0 < params.bandwidth,
        all_of_dim(locs(points@), start.loc@.len()),
    ensures
        r.loc@ == mode_of(locs(points@), start.loc@, *params),
        r.label@ == start.label@,
{
    let ghost pts = locs(points@);
    let ghost p = *params;
    let thr: u64 = params.convergence_threshold;
    assert(thr * thr <= 0xFFFF_FFFF_FFFF_FFFF * 0xFFFF_FFFF_FFFF_FFFF) by (nonlinear_arith)
        requires
            thr <= 0xFFFF_FFFF_FFFF_FFFF,
    ;
    let thr2: u128 = thr as u128 * thr as u128;
    let mut centroid: Vec<i32> = copy_coords(&start.loc);
    let mut done: bool = false;
    let mut it: u32 = 0;
    while it < params.max_iterations && !done
        invariant
            pts == locs(points@),
            p == *params,
            0 < params.bandwidth,
            thr2 == p.convergence_threshold * p.convergence_threshold,
            it <= p.max_iterations,
            centroid@.len() == start.loc@.len(),
            all_of_dim(pts, start.loc@.len()),
            done ==> centroid@ == mode_of(pts, start.loc@, p),
            !done ==> seek(pts, centroid@, p, (p.max_iterations - it) as nat) == mode_of(
                pts,
                start.loc@,
                p,
            ),
        decreases p.max_iterations - it,
    {
        match mean_shift_step(points, &centroid, params.radius_cutoff, params.bandwidth) {
            None => {},
            Some(next) => {
                let shift = coords_sq_dist(&centroid, &next);
                centroid = next;
                if shift <= thr2 {
                    done = true;
                }
            },
        }
        it = it + 1;
    }
    Point { label: start.label.clone(), loc: centroid }
}

/// Weights are never negative.
proof fn lemma_weight_nonneg(q: Seq<i32>, c: Seq<i32>, radius: int, bandwidth: int)
    requires
        0 < bandwidth,
    ensures
        0 <= weight_of(q, c, radius, bandwidth) <= KERNEL_SCALE,
{
    if sq_dist(q, c) <= radius * radius {
        crate::point::distance_laws(q, q);
        lemma_sq_dist_nonneg(q, c);
        kernel_peaks_at_zero(sq_dist(q, c), bandwidth);
    }
}

proof fn lemma_sq_dist_nonneg(q: Seq<i32>, c: Seq<i32>)
    ensures
        0 <= sq_dist(q, c),
{
    lemma_sq_dist_upto_nonneg(q, c, q.len() as int);
}

proof fn lemma_sq_dist_upto_nonneg(q: Seq<i32>, c: Seq<i32>, n: int)
    ensures
        0 <= crate::point::sq_dist_upto(q, c, n),
    decreases n,
{
    if n > 0 {
        lemma_sq_dist_upto_nonneg(q, c, n - 1);
        let x = q[n - 1] as int;
        let y = c[n - 1] as int;
        assert((x - y) * (x - y) >= 0) by (nonlinear_arith);
    }
}

/// The total weight is at least the weight of any one point.
proof fn lemma_total_ge(pts: Seq<Seq<i32>>, c: Seq<i32>, radius: int, bandwidth: int, j: int)
    requires
        0 < bandwidth,
        0 <= j < pts.len(),
    ensures
        weight_of(pts[j], c, radius, bandwidth) <= total_weight(pts, c, radius, bandwidth),
    decreases pts.len(),
{
    lemma_total_nonneg(pts.drop_last(), c, radius, bandwidth);
    lemma_weight_nonneg(pts.last(), c, radius, bandwidth);
    if j < pts.len() - 1 {
        lemma_total_ge(pts.drop_last(), c, radius, bandwidth, j);
    }
}

proof fn lemma_total_nonneg(pts: Seq<Seq<i32>>, c: Seq<i32>, radius: int, bandwidth: int)
    requires
        0 < bandwidth,
    ensures
        0 <= total_weight(pts, c, radius, bandwidth),
    decreases pts.len(),
{
    if pts.len() > 0 {
        lemma_total_nonneg(pts.drop_last(), c, radius, bandwidth);
        lemma_weight_nonneg(pts.last(), c, radius, bandwidth);
    }
}

/// Where every weighted point equals `c`, each weighted coordinate sum is the
/// total weight times that coordinate of `c`.
proof fn lemma_settled_sums(pts: Seq<Seq<i32>>, c: Seq<i32>, radius: int, bandwidth: int, i: int)
    requires
        forall|j: int|
            0 <= j < pts.len() ==> pts[j] == c || sq_dist(pts[j], c) > radius * radius,
    ensures
        weighted_sum(pts, c, radius, bandwidth, i) == total_weight(pts, c, radius, bandwidth)
            * c[i],
    decreases pts.len(),
{
    if pts.len() > 0 {
        let rest = pts.drop_last();
        assert forall|j: int|
            0 <= j < rest.len() implies rest[j] == c || sq_dist(rest[j], c) > radius * radius by {
            assert(rest[j] == pts[j]);
        }
        lemma_settled_sums(rest, c, radius, bandwidth, i);
        assert(pts.last() == pts[pts.len() - 1]);
        let t = total_weight(rest, c, radius, bandwidth);
        let w = weight_of(pts.last(), c, radius, bandwidth);
        if pts.last() == c {
            assert(t * c[i] + w * c[i] == (t + w) * c[i]) by (nonlinear_arith);
        } else {
            assert(w == 0);
        }
    }
}

/// A point with no other point within the cutoff radius is its own mode: the
/// first step carries positive weight and returns the point unchanged, so
/// refinement stops after one iteration.
pub proof fn isolated_point_is_fixed(pts: Seq<Seq<i32>>, start: Seq<i32>, p: Params)
    requires
        p.valid(),
        pts.contains(start),
        forall|j: int|
            0 <= j < pts.len() ==> pts[j] == start || sq_dist(pts[j], start) > p.radius_cutoff
                * p.radius_cutoff,
    ensures
        total_weight(pts, start, p.radius_cutoff as int, p.bandwidth as int) > 0,
        shift_step(pts, start, p.radius_cutoff as int, p.bandwidth as int) == start,
        mode_of(pts, start, p) == start,
{
    let r = p.radius_cutoff as int;
    let b = p.bandwidth as int;
    let j = choose|j: int| 0 <= j < pts.len() && pts[j] == start;
    lemma_sq_dist_self(start);
    assert(0 <= r * r) by (nonlinear_arith);
    kernel_peaks_at_zero(0, b);
    lemma_total_ge(pts, start, r, b, j);
    let t = total_weight(pts, start, r, b);
    assert forall|i: int| 0 <= i < start.len() implies #[trigger] shift_step(
        pts,
        start,
        r,
        b,
    )[i] == start[i] by {
        lemma_settled_sums(pts, start, r, b, i);
        lemma_trunc_div_exact(t, start[i] as int);
    }
    assert(shift_step(pts, start, r, b) =~= start);
    assert(0 <= p.convergence_threshold * p.convergence_threshold) by (nonlinear_arith);
}

} // verus!
