//! Points, exact squared distances and the pairwise running mean.
use vstd::prelude::*;
use vstd::arithmetic::div_mod::lemma_div_multiples_vanish;

verus! {

/// The largest square of a difference of two `i32` values: `(2^32 - 1)^2`.
pub open spec fn max_sq_diff() -> int {
    0xFFFF_FFFE_0000_0001
}

/// Integer division rounding toward zero, as Rust's `/` does.
pub open spec fn trunc_div(s: int, t: int) -> int {
    if s >= 0 {
        s / t
    } else {
        -((-s) / t)
    }
}

/// Sum of the squared coordinate differences over the first `n` axes.
pub open spec fn sq_dist_upto(a: Seq<i32>, b: Seq<i32>, n: int) -> int
    decreases n,
{
    if n <= 0 {
        0
    } else {
        let d = a[n - 1] - b[n - 1];
        sq_dist_upto(a, b, n - 1) + d * d
    }
}

/// Squared Euclidean distance between two coordinate vectors of one length.
pub open spec fn sq_dist(a: Seq<i32>, b: Seq<i32>) -> int {
    sq_dist_upto(a, b, a.len() as int)
}

/// Midpoint of two coordinates, rounded toward zero.
pub open spec fn mid(a: i32, b: i32) -> i32 {
    trunc_div(a + b, 2) as i32
}

/// Elementwise midpoint of two coordinate vectors.
pub open spec fn halfway(a: Seq<i32>, b: Seq<i32>) -> Seq<i32> {
    Seq::new(a.len(), |i: int| mid(a[i], b[i]))
}

/// The coordinate vectors of a sequence of points.
pub open spec fn locs(ps: Seq<Point>) -> Seq<Seq<i32>> {
    ps.map_values(|p: Point| p.loc@)
}

/// Every vector of `vs` has `dim` coordinates.
pub open spec fn all_of_dim(vs: Seq<Seq<i32>>, dim: nat) -> bool {
    forall|j: int| 0 <= j < vs.len() ==> #[trigger] vs[j].len() == dim
}

/// A labelled point. The label is for diagnostics only: distances and means
/// read the coordinates alone.
pub struct Point {
    pub label: String,
    pub loc: Vec<i32>,
}

impl Point {
    pub fn new(label: String, loc: Vec<i32>) -> (r: Point)
        ensures
            r.label@ == label@,
            r.loc@ == loc@,
    {
        Point { label, loc }
    }

    /// Folds `point` into `self`: each coordinate becomes the midpoint of the
    /// two, rounded toward zero.
    pub fn make_mean(&mut self, point: &Point)
        requires
            old(self).loc@.len() == point.loc@.len(),
        ensures
            final(self).loc@ == halfway(old(self).loc@, point.loc@),
            final(self).label@ == old(self).label@,
    {
        let n = self.loc.len();
        let mut i: usize = 0;
        while i < n
            invariant
                n == self.loc@.len(),
                n == point.loc@.len(),
                i <= n,
                self.label@ == old(self).label@,
                forall|j: int| 0 <= j < i ==> self.loc@[j] == mid(old(self).loc@[j], point.loc@[j]),
                forall|j: int| i <= j < n ==> self.loc@[j] == old(self).loc@[j],
            decreases n - i,
        {
            let v = midpoint(self.loc[i], point.loc[i]);
            self.loc.set(i, v);
            i = i + 1;
        }
        assert(self.loc@ =~= halfway(old(self).loc@, point.loc@));
    }
}

/// Midpoint of two coordinates, rounded toward zero.
pub fn midpoint(a: i32, b: i32) -> (r: i32)
    ensures
        r == mid(a, b),
{
    let s: i64 = a as i64 + b as i64;
    if s >= 0 {
        (s / 2) as i32
    } else {
        let q: i64 = (-s) / 2;
        (-q) as i32
    }
}

/// Exact squared Euclidean distance between two points of one dimension.
pub fn squared_distance(a: &Point, b: &Point) -> (r: u128)
    requires
        a.loc@.len() == b.loc@.len(),
    ensures
        r == sq_dist(a.loc@, b.loc@),
{
    coords_sq_dist(&a.loc, &b.loc)
}

/// A copy of a coordinate vector.
pub fn copy_coords(v: &Vec<i32>) -> (r: Vec<i32>)
    ensures
        r@ == v@,
{
    let mut r: Vec<i32> = Vec::new();
    let mut i: usize = 0;
    while i < v.len()
        invariant
            i <= v@.len(),
            r@ == v@.take(i as int),
        decreases v@.len() - i,
    {
        r.push(v[i]);
        i = i + 1;
        assert(r@ =~= v@.take(i as int));
    }
    assert(v@.take(v@.len() as int) =~= v@);
    r
}

/// Exact squared Euclidean distance between two coordinate vectors of one
/// length.
pub fn coords_sq_dist(a: &Vec<i32>, b: &Vec<i32>) -> (r: u128)
    requires
        a@.len() == b@.len(),
    ensures
        r == sq_dist(a@, b@),
{
    let n = a.len();
    let mut acc: u128 = 0;
    let mut i: usize = 0;
    while i < n
        invariant
            n == a@.len(),
            n == b@.len(),
            i <= n,
            acc == sq_dist_upto(a@, b@, i as int),
            acc <= i * max_sq_diff(),
        decreases n - i,
    {
        let d: i64 = a[i] as i64 - b[i] as i64;
        assert(0 <= d * d <= max_sq_diff()) by (nonlinear_arith)
            requires
                -0xFFFF_FFFF <= d <= 0xFFFF_FFFF,
        ;
        let dd: i128 = d as i128 * d as i128;
        assert(acc + dd <= (i + 1) * max_sq_diff()) by (nonlinear_arith)
            requires
                acc <= i * max_sq_diff(),
                dd <= max_sq_diff(),
        ;
        assert((i + 1) * max_sq_diff() <= 0x1_0000_0000_0000_0000 * max_sq_diff()) by (nonlinear_arith)
            requires
                0 <= i < 0x1_0000_0000_0000_0000,
        ;
        acc = acc + dd as u128;
        i = i + 1;
    }
    acc
}

} // verus!

verus! {

/// A point is at squared distance zero from itself, and squared distance is
/// symmetric.
pub proof fn distance_laws(a: Seq<i32>, b: Seq<i32>)
    requires
        a.len() == b.len(),
    ensures
        sq_dist(a, a) == 0,
        sq_dist(a, b) == sq_dist(b, a),
        sq_dist(a, b) >= 0,
{
    lemma_sq_dist_upto(a, b, a.len() as int);
}

proof fn lemma_sq_dist_upto(a: Seq<i32>, b: Seq<i32>, n: int)
    ensures
        sq_dist_upto(a, a, n) == 0,
        sq_dist_upto(a, b, n) == sq_dist_upto(b, a, n),
        sq_dist_upto(a, b, n) >= 0,
    decreases n,
{
    if n > 0 {
        lemma_sq_dist_upto(a, b, n - 1);
        let x = a[n - 1] as int;
        let y = b[n - 1] as int;
        assert((x - y) * (x - y) == (y - x) * (y - x)) by (nonlinear_arith);
        assert((x - y) * (x - y) >= 0) by (nonlinear_arith);
    }
}

/// A vector is at squared distance zero from itself.
pub proof fn lemma_sq_dist_self(a: Seq<i32>)
    ensures
        sq_dist(a, a) == 0,
{
    lemma_sq_dist_upto(a, a, a.len() as int);
}

/// Dividing an exact multiple of `t` rounds nothing away.
pub proof fn lemma_trunc_div_exact(t: int, x: int)
    requires
        0 < t,
    ensures
        trunc_div(t * x, t) == x,
{
    if x >= 0 {
        assert(t * x >= 0) by (nonlinear_arith)
            requires
                0 < t,
                x >= 0,
        ;
        lemma_div_multiples_vanish(x, t);
    } else {
        assert(t * x < 0) by (nonlinear_arith)
            requires
                0 < t,
                x < 0,
        ;
        assert(-(t * x) == t * (-x)) by (nonlinear_arith);
        lemma_div_multiples_vanish(-x, t);
    }
}

/// Every vector of `vs` has the length of the first.
pub open spec fn uniform(vs: Seq<Seq<i32>>) -> bool {
    vs.len() == 0 || all_of_dim(vs, vs[0].len())
}

/// The midpoint of a vector and itself is that vector.
pub proof fn lemma_halfway_self(a: Seq<i32>)
    ensures
        halfway(a, a) == a,
{
    assert forall|i: int| 0 <= i < a.len() implies #[trigger] halfway(a, a)[i] == a[i] by {
        lemma_trunc_div_exact(2, a[i] as int);
        assert(a[i] + a[i] == 2 * a[i]);
    }
    assert(halfway(a, a) =~= a);
}

} // verus!
