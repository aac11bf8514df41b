//! The whole run: every point refined in parallel, then the modes merged.
use vstd::prelude::*;
use rayon::iter::{IntoParallelRefIterator, ParallelIterator};
use crate::merger::{merge_all, merge_modes, merge_of_copies};
use crate::point::{all_of_dim, locs, uniform, Point};
use crate::seeker::{isolated_point_is_fixed, mode_of, seek_mode, Params};

verus! {

/// The mode of every point of `pts`, in the order of the points.
pub open spec fn modes_of(pts: Seq<Seq<i32>>, p: Params) -> Seq<Seq<i32>> {
    Seq::new(pts.len(), |i: int| mode_of(pts, pts[i], p))
}

/// The cluster centers of a run over `pts`.
pub open spec fn clusters_of(pts: Seq<Seq<i32>>, p: Params) -> Seq<Seq<i32>> {
    merge_all(modes_of(pts, p), p.merge_radius as int)
}

/// Relies on rayon's `par_iter().map(..).collect::<Vec<_>>()` over a slice:
/// an indexed parallel iterator collected into a `Vec` places the result for
/// the item at index `i` at index `i`. Each result is one `seek_mode` call
/// on a point of `points`, which the workers only read.
#[verifier::external_body]
fn par_seek_modes(points: &Vec<Point>, params: &Params) -> (r: Vec<Point>)
    requires
        0 < params.bandwidth,
        uniform(locs(points@)),
    ensures
        r@.len() == points@.len(),
        forall|i: int|
            0 <= i < points@.len() ==> (#[trigger] r@[i]).loc@ == mode_of(
                locs(points@),
                points@[i].loc@,
                *params,
            ),
{
    points.par_iter().map(|p| seek_mode(points, p, params)).collect()
}

/// Refines every point against the whole point set, the points in parallel.
/// Mode `i` is the mode of point `i`, whatever the number of workers.
pub fn refine_all(points: &Vec<Point>, params: &Params) -> (r: Vec<Point>)
    requires
        0 < params.bandwidth,
        uniform(locs(points@)),
    ensures
        locs(r@) == modes_of(locs(points@), *params),
{
    let r = par_seek_modes(points, params);
    assert(locs(r@) =~= modes_of(locs(points@), *params));
    r
}

/// Clusters a non-empty set of points of one positive dimension: refines
/// every point to its mode, then folds the modes into cluster centers.
pub fn cluster_points(points: &Vec<Point>, params: &Params) -> (r: Vec<Point>)
    requires
        params.valid(),
        0 < points@.len(),
        0 < points@[0].loc@.len(),
        uniform(locs(points@)),
    ensures
        locs(r@) == clusters_of(locs(points@), *params),
{
    let modes = refine_all(points, params);
    let ghost ms = locs(modes@);
    let ghost dim = points@[0].loc@.len();
    assert(locs(points@)[0] == points@[0].loc@);
    assert forall|j: int| 0 <= j < ms.len() implies #[trigger] ms[j].len() == dim by {
        assert(ms[j] == modes@[j].loc@);
        lemma_mode_dim(locs(points@), locs(points@)[j], *params, params.max_iterations as nat);
    }
    assert(ms.len() == 0 || all_of_dim(ms, ms[0].len()));
    merge_modes(&modes, params.merge_radius)
}

/// A mode has the dimension of its starting point.
proof fn lemma_mode_dim(pts: Seq<Seq<i32>>, c: Seq<i32>, p: Params, fuel: nat)
    ensures
        crate::seeker::seek(pts, c, p, fuel).len() == c.len(),
    decreases fuel,
{
    if fuel > 0 {
        let n = crate::seeker::shift_step(pts, c, p.radius_cutoff as int, p.bandwidth as int);
        lemma_mode_dim(pts, c, p, (fuel - 1) as nat);
        lemma_mode_dim(pts, n, p, (fuel - 1) as nat);
    }
}

/// Points that all sit at one location form exactly one cluster, centered
/// there, however many of them there are.
pub proof fn coincident_points_form_one_cluster(pts: Seq<Seq<i32>>, c: Seq<i32>, p: Params)
    requires
        p.valid(),
        0 < pts.len(),
        forall|j: int| 0 <= j < pts.len() ==> pts[j] == c,
    ensures
        clusters_of(pts, p) == seq![c],
{
    assert(pts[0] == c);
    isolated_point_is_fixed(pts, c, p);
    let ms = modes_of(pts, p);
    assert forall|j: int| 0 <= j < ms.len() implies ms[j] == c by {
        assert(pts[j] == c);
    }
    merge_of_copies(ms, c, p.merge_radius as int);
}

} // verus!
