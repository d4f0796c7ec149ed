//! Roads: the relative-neighborhood-graph rule over the points of a 3x3
//! chunk window.
//!
//! A segment `(a, b)` is kept iff every other point `c` of the window is
//! farther (in squared Euclidean distance) from `a` or from `b` than `a`
//! and `b` are from each other — strictly: equality discards the segment.
//! Only segments whose first endpoint lies in the center chunk's slice of
//! the window are produced, and `b` always comes later in the window than
//! `a`, so over a tiling of the plane every segment is owned by exactly one
//! chunk. Output order (part of the deterministic contract): the nested
//! loop order, `a` ascending over the center slice, `b` ascending behind it.

use vstd::prelude::*;

use crate::points::GenPoint;
use crate::vec2::Point2d;

verus! {

/// A road segment between the positions of two generated points.
#[derive(Clone, Copy, PartialEq, Eq, Structural, Debug)]
pub struct RoadSegment {
    pub a: Point2d,
    pub b: Point2d,
}

/// Squared Euclidean distance between two of the window's points.
pub open spec fn d2(ps: Seq<GenPoint>, m: int, n: int) -> int {
    ps[m].position.spec_dist_squared(ps[n].position)
}

/// The RNG predicate: keep the segment `(a, b)` iff no third point is
/// simultaneously at least as close to both endpoints.
pub open spec fn rng_kept(ps: Seq<GenPoint>, a: int, b: int) -> bool {
    forall|c: int|
        0 <= c < ps.len() && c != a && c != b ==> d2(ps, a, b) < #[trigger] d2(ps, a, c) || d2(ps, a, b) < d2(ps, c, b)
}

/// The kept segments with first endpoint `a`, second endpoint ranging over
/// `[b, ps.len())`.
pub open spec fn edges_row(ps: Seq<GenPoint>, a: int, b: int) -> Seq<RoadSegment>
    decreases ps.len() - b,
{
    if b < 0 || b >= ps.len() {
        Seq::empty()
    } else {
        (if rng_kept(ps, a, b) {
            seq![RoadSegment { a: ps[a].position, b: ps[b].position }]
        } else {
            Seq::<RoadSegment>::empty()
        }) + edges_row(ps, a, b + 1)
    }
}

/// The kept segments with first endpoint ranging over `[a, start + n)` —
/// the center slice of the window is `[start, start + n)` — in nested-loop
/// order.
pub open spec fn edges_from(ps: Seq<GenPoint>, start: int, n: int, a: int) -> Seq<RoadSegment>
    decreases start + n - a,
{
    if a < start || a >= start + n || a >= ps.len() {
        Seq::empty()
    } else {
        edges_row(ps, a, a + 1) + edges_from(ps, start, n, a + 1)
    }
}

/// All road segments of one chunk: `ps` is the window's point sequence and
/// `[start, start + n)` its center-chunk slice.
pub open spec fn rng_edges_spec(ps: Seq<GenPoint>, start: int, n: int) -> Seq<RoadSegment> {
    edges_from(ps, start, n, start)
}

/// Compute the road segments of the chunk whose points occupy
/// `[start, start + n)` of the window sequence `ps`.
pub fn rng_edges(ps: &Vec<GenPoint>, start: usize, n: usize) -> (r: Vec<RoadSegment>)
    requires
        start + n <= ps@.len(),
        forall|m: int| 0 <= m < ps@.len() ==> (#[trigger] ps@[m]).position.wf(),
    ensures
        r@ == rng_edges_spec(ps@, start as int, n as int),
{
    let mut r: Vec<RoadSegment> = Vec::new();
    let len = ps.len();
    let stop = start + n;
    let mut a = start;
    while a < stop
        invariant
            stop == start + n,
            start <= a <= start + n,
            start + n <= ps@.len(),
            forall|m: int| 0 <= m < ps@.len() ==> (#[trigger] ps@[m]).position.wf(),
            rng_edges_spec(ps@, start as int, n as int)
                == r@ + edges_from(ps@, start as int, n as int, a as int),
        decreases start + n - a,
    {
        let mut b = a + 1;
        proof {
            assert(edges_from(ps@, start as int, n as int, a as int)
                == edges_row(ps@, a as int, a as int + 1)
                    + edges_from(ps@, start as int, n as int, a as int + 1));
        }
        while b < ps.len()
            invariant
                a < b <= ps@.len() + 1,
                a < start + n <= ps@.len(),
                forall|m: int| 0 <= m < ps@.len() ==> (#[trigger] ps@[m]).position.wf(),
                rng_edges_spec(ps@, start as int, n as int)
                    == r@ + edges_row(ps@, a as int, b as int)
                        + edges_from(ps@, start as int, n as int, a as int + 1),
            decreases ps@.len() - b,
        {
            let dab = ps[a].position.dist_squared(&ps[b].position);
            let mut keep = true;
            let mut c: usize = 0;
            while c < ps.len()
                invariant
                    c <= ps@.len(),
                    a < b < ps@.len(),
                    forall|m: int| 0 <= m < ps@.len() ==> (#[trigger] ps@[m]).position.wf(),
                    dab as int == d2(ps@, a as int, b as int),
                    keep <==> forall|m: int|
                        0 <= m < c && m != a as int && m != b as int
                            ==> d2(ps@, a as int, b as int) < #[trigger] d2(ps@, a as int, m)
                                || d2(ps@, a as int, b as int) < d2(ps@, m, b as int),
                decreases ps@.len() - c,
            {
                if c != a && c != b {
                    let dac = ps[a].position.dist_squared(&ps[c].position);
                    let dcb = ps[c].position.dist_squared(&ps[b].position);
                    proof {
                        assert(dac as int == d2(ps@, a as int, c as int));
                        assert(dcb as int == d2(ps@, c as int, b as int));
                    }
                    if !(dab < dac || dab < dcb) {
                        keep = false;
                    }
                }
                c = c + 1;
            }
            let ghost pre = r@;
            if keep {
                r.push(RoadSegment { a: ps[a].position, b: ps[b].position });
            }
            proof {
                assert(edges_row(ps@, a as int, b as int)
                    == (if rng_kept(ps@, a as int, b as int) {
                        seq![RoadSegment { a: ps@[a as int].position, b: ps@[b as int].position }]
                    } else {
                        Seq::<RoadSegment>::empty()
                    }) + edges_row(ps@, a as int, b as int + 1));
                if keep {
                    assert(rng_kept(ps@, a as int, b as int));
                    assert(pre + edges_row(ps@, a as int, b as int)
                        =~= r@ + edges_row(ps@, a as int, b as int + 1));
                } else {
                    let m = choose|m: int|
                        !(0 <= m < ps@.len() && m != a as int && m != b as int
                            ==> d2(ps@, a as int, b as int) < #[trigger] d2(ps@, a as int, m)
                                || d2(ps@, a as int, b as int) < d2(ps@, m, b as int));
                    assert(!rng_kept(ps@, a as int, b as int));
                    assert(pre + edges_row(ps@, a as int, b as int)
                        =~= r@ + edges_row(ps@, a as int, b as int + 1));
                }
                assert(rng_edges_spec(ps@, start as int, n as int)
                    =~= r@ + edges_row(ps@, a as int, b as int + 1)
                        + edges_from(ps@, start as int, n as int, a as int + 1));
            }
            b = b + 1;
        }
        proof {
            assert(edges_row(ps@, a as int, b as int) =~= Seq::<RoadSegment>::empty());
            assert(rng_edges_spec(ps@, start as int, n as int)
                =~= r@ + edges_from(ps@, start as int, n as int, a as int + 1));
        }
        a = a + 1;
    }
    proof {
        assert(edges_from(ps@, start as int, n as int, (start + n) as int)
            =~= Seq::<RoadSegment>::empty());
        assert(rng_edges_spec(ps@, start as int, n as int) =~= r@);
    }
    r
}

/// The RNG predicate does not depend on which endpoint owns the segment:
/// swapping the roles of `a` and `b` keeps the decision. Together with the
/// lowest-endpoint-owner rule (`b` always lies strictly behind `a` in the
/// window) this makes the produced road set independent of the choice of
/// center chunk: whichever chunk owns a pair, it applies the same test.
pub proof fn lemma_rng_kept_symmetric(ps: Seq<GenPoint>, a: int, b: int)
    requires
        0 <= a < ps.len(),
        0 <= b < ps.len(),
    ensures
        rng_kept(ps, a, b) == rng_kept(ps, b, a),
{
    assert forall|m: int, n: int| 0 <= m < ps.len() && 0 <= n < ps.len()
        implies #[trigger] d2(ps, m, n) == d2(ps, n, m) by {
        let px = ps[m].position.x as int;
        let py = ps[m].position.y as int;
        let qx = ps[n].position.x as int;
        let qy = ps[n].position.y as int;
        assert((px - qx) * (px - qx) == (qx - px) * (qx - px)
            && (py - qy) * (py - qy) == (qy - py) * (qy - py)) by (nonlinear_arith);
    }
    if rng_kept(ps, a, b) {
        assert forall|c: int| 0 <= c < ps.len() && c != b && c != a
            implies d2(ps, b, a) < #[trigger] d2(ps, b, c) || d2(ps, b, a) < d2(ps, c, a) by {
            assert(d2(ps, a, b) < d2(ps, a, c) || d2(ps, a, b) < d2(ps, c, b));
        }
    }
    if rng_kept(ps, b, a) {
        assert forall|c: int| 0 <= c < ps.len() && c != a && c != b
            implies d2(ps, a, b) < #[trigger] d2(ps, a, c) || d2(ps, a, b) < d2(ps, c, b) by {
            assert(d2(ps, b, a) < d2(ps, b, c) || d2(ps, b, a) < d2(ps, c, a));
        }
    }
}

} // verus!
