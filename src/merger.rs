//! Greedy, order-sensitive folding of converged modes into cluster centers.
use vstd::prelude::*;
use crate::point::{
    all_of_dim, coords_sq_dist, copy_coords, halfway, lemma_halfway_self, lemma_sq_dist_self, locs,
    sq_dist, uniform, Point,
};

verus! {

/// `m` lies strictly within `merge_radius` of `c`.
pub open spec fn near(m: Seq<i32>, c: Seq<i32>, merge_radius: int) -> bool {
    sq_dist(m, c) < merge_radius * merge_radius
}

/// Index of the first center near `m`, or `cs.len()` if there is none.
pub open spec fn first_near(cs: Seq<Seq<i32>>, m: Seq<i32>, merge_radius: int) -> int
    decreases cs.len(),
{
    if cs.len() == 0 {
        0
    } else if near(m, cs[0], merge_radius) {
        0
    } else {
        1 + first_near(cs.drop_first(), m, merge_radius)
    }
}

/// Folds one mode into the centers: the first near center moves to its
/// midpoint with `m`; with no near center, `m` becomes a new one.
pub open spec fn merge_one(cs: Seq<Seq<i32>>, m: Seq<i32>, merge_radius: int) -> Seq<Seq<i32>> {
    let k = first_near(cs, m, merge_radius);
    if k < cs.len() {
        cs.update(k, halfway(cs[k], m))
    } else {
        cs.push(m)
    }
}

/// The centers left after folding the modes in `ms`, in order.
pub open spec fn merge_all(ms: Seq<Seq<i32>>, merge_radius: int) -> Seq<Seq<i32>>
    decreases ms.len(),
{
    if ms.len() == 0 {
        Seq::empty()
    } else {
        merge_one(merge_all(ms.drop_last(), merge_radius), ms.last(), merge_radius)
    }
}

/// No two distinct entries of `cs` are near each other.
pub open spec fn separated(cs: Seq<Seq<i32>>, merge_radius: int) -> bool {
    forall|i: int, j: int|
        0 <= i < cs.len() && 0 <= j < cs.len() && i != j ==> !near(
            #[trigger] cs[i],
            #[trigger] cs[j],
            merge_radius,
        )
}

/// `first_near` is the least index of a near center.
proof fn lemma_first_near(cs: Seq<Seq<i32>>, m: Seq<i32>, merge_radius: int, k: int)
    requires
        0 <= k <= cs.len(),
        forall|j: int| 0 <= j < k ==> !near(m, #[trigger] cs[j], merge_radius),
        k == cs.len() || near(m, cs[k], merge_radius),
    ensures
        first_near(cs, m, merge_radius) == k,
    decreases cs.len(),
{
    if cs.len() > 0 && k > 0 {
        let rest = cs.drop_first();
        assert forall|j: int| 0 <= j < k - 1 implies !near(m, #[trigger] rest[j], merge_radius) by {
            assert(rest[j] == cs[j + 1]);
        }
        if k < cs.len() {
            assert(rest[k - 1] == cs[k]);
        }
        assert(!near(m, cs[0], merge_radius));
        lemma_first_near(rest, m, merge_radius, k - 1);
    }
}

/// Folds the modes, in order, into cluster centers. Each mode joins the first
/// center strictly within `merge_radius` of it, which moves to the midpoint of
/// the two; a mode with no such center becomes a new center.
pub fn merge_modes(modes: &Vec<Point>, merge_radius: u64) -> (r: Vec<Point>)
    requires
        uniform(locs(modes@)),
    ensures
        locs(r@) == merge_all(locs(modes@), merge_radius as int),
{
    let ghost ms = locs(modes@);
    let ghost mr = merge_radius as int;
    let ghost dim: nat = if ms.len() > 0 {
        ms[0].len()
    } else {
        0
    };
    assert(merge_radius * merge_radius <= 0xFFFF_FFFF_FFFF_FFFF * 0xFFFF_FFFF_FFFF_FFFF)
        by (nonlinear_arith)
        requires
            merge_radius <= 0xFFFF_FFFF_FFFF_FFFF,
    ;
    let mr2: u128 = merge_radius as u128 * merge_radius as u128;
    let mut centers: Vec<Point> = Vec::new();
    let n = modes.len();
    let mut j: usize = 0;
    assert(ms.take(0) =~= Seq::<Seq<i32>>::empty());
    assert(locs(centers@) =~= Seq::<Seq<i32>>::empty());
    while j < n
        invariant
            n == modes@.len(),
            ms == locs(modes@),
            all_of_dim(ms, dim),
            mr == merge_radius,
            mr2 == merge_radius * merge_radius,
            j <= n,
            locs(centers@) == merge_all(ms.take(j as int), mr),
            all_of_dim(locs(centers@), dim),
        decreases n - j,
    {
        let m = &modes[j];
        assert(ms[j as int] == m.loc@);
        let ghost cs = locs(centers@);
        let nc = centers.len();
        let mut k: usize = 0;
        let mut hit: bool = false;
        while k < nc && !hit
            invariant
                nc == centers@.len(),
                cs == locs(centers@),
                all_of_dim(cs, dim),
                m.loc@.len() == dim,
                mr2 == mr * mr,
                k <= nc,
                hit ==> k < nc && near(m.loc@, cs[k as int], mr),
                forall|q: int| 0 <= q < k ==> !near(m.loc@, #[trigger] cs[q], mr),
            decreases nc - k + (if hit {
                0int
            } else {
                1int
            }),
        {
            assert(cs[k as int] == centers@[k as int].loc@);
            let dd = coords_sq_dist(&m.loc, &centers[k].loc);
            if dd < mr2 {
                hit = true;
            } else {
                k = k + 1;
            }
        }
        proof {
            lemma_first_near(cs, m.loc@, mr, k as int);
        }
        assert(ms.take(j + 1).drop_last() =~= ms.take(j as int));
        assert(ms.take(j + 1).last() == m.loc@);
        if hit {
            assert(cs[k as int] == centers@[k as int].loc@);
            let mut c = Point { label: centers[k].label.clone(), loc: copy_coords(&centers[k].loc) };
            c.make_mean(m);
            centers.set(k, c);
            assert(locs(centers@) =~= cs.update(k as int, halfway(cs[k as int], m.loc@)));
        } else {
            let c = Point { label: m.label.clone(), loc: copy_coords(&m.loc) };
            centers.push(c);
            assert(locs(centers@) =~= cs.push(m.loc@));
        }
        assert forall|q: int| 0 <= q < centers@.len() implies #[trigger] locs(centers@)[q].len()
            == dim by {
            if q != k {
                assert(q < cs.len() ==> locs(centers@)[q] == cs[q]);
            }
        }
        j = j + 1;
    }
    assert(ms.take(n as int) =~= ms);
    centers
}

/// Centers pairwise at least `merge_radius` apart are left as they are.
proof fn lemma_merge_separated(cs: Seq<Seq<i32>>, merge_radius: int)
    requires
        separated(cs, merge_radius),
    ensures
        merge_all(cs, merge_radius) == cs,
    decreases cs.len(),
{
    if cs.len() > 0 {
        let rest = cs.drop_last();
        let m = cs.last();
        assert(separated(rest, merge_radius)) by {
            assert forall|i: int, j: int|
                0 <= i < rest.len() && 0 <= j < rest.len() && i != j implies !near(
                #[trigger] rest[i],
                #[trigger] rest[j],
                merge_radius,
            ) by {
                assert(rest[i] == cs[i] && rest[j] == cs[j]);
            }
        }
        lemma_merge_separated(rest, merge_radius);
        assert forall|j: int| 0 <= j < rest.len() implies !near(m, #[trigger] rest[j], merge_radius) by {
            assert(rest[j] == cs[j]);
            assert(m == cs[cs.len() - 1]);
        }
        lemma_first_near(rest, m, merge_radius, rest.len() as int);
        assert(rest.push(m) =~= cs);
    }
}

/// Merging is idempotent on an output whose centers ended up pairwise at least
/// `merge_radius` apart: merging that output again folds nothing and returns
/// the same centers.
pub proof fn merge_is_idempotent_when_separated(ms: Seq<Seq<i32>>, merge_radius: int)
    requires
        separated(merge_all(ms, merge_radius), merge_radius),
    ensures
        merge_all(merge_all(ms, merge_radius), merge_radius) == merge_all(ms, merge_radius),
{
    lemma_merge_separated(merge_all(ms, merge_radius), merge_radius);
}

/// Any number of copies of one mode merge into a single center at that mode.
pub proof fn merge_of_copies(ms: Seq<Seq<i32>>, c: Seq<i32>, merge_radius: int)
    requires
        0 < merge_radius,
        0 < ms.len(),
        forall|j: int| 0 <= j < ms.len() ==> ms[j] == c,
    ensures
        merge_all(ms, merge_radius) == seq![c],
    decreases ms.len(),
{
    let rest = ms.drop_last();
    assert(ms.last() == ms[ms.len() - 1]);
    if rest.len() == 0 {
        assert(merge_all(rest, merge_radius) == Seq::<Seq<i32>>::empty());
        lemma_first_near(Seq::empty(), c, merge_radius, 0);
        assert(Seq::<Seq<i32>>::empty().push(c) =~= seq![c]);
        assert(merge_all(ms, merge_radius) == merge_one(Seq::empty(), c, merge_radius));
    } else {
        assert forall|j: int| 0 <= j < rest.len() implies rest[j] == c by {
            assert(rest[j] == ms[j]);
        }
        merge_of_copies(rest, c, merge_radius);
        lemma_sq_dist_self(c);
        assert(0 < merge_radius * merge_radius) by (nonlinear_arith)
            requires
                0 < merge_radius,
        ;
        lemma_first_near(seq![c], c, merge_radius, 0);
        lemma_halfway_self(c);
        assert(seq![c].update(0, halfway(c, c)) =~= seq![c]);
        assert(seq![c][0] == c);
        assert(merge_all(ms, merge_radius) == merge_one(seq![c], c, merge_radius));
    }
}

} // verus!
