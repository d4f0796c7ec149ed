//! Reduced points: removes candidate points that are too close to others.
//!
//! Of two overlapping points the one with the higher priority is kept; at
//! equal priority the higher x position wins, then the higher y position.
//! A candidate is compared against every point of the padded window that a
//! consumer chunk sees, so no two surviving points of the whole plane
//! overlap.

use vstd::prelude::*;

use crate::Layer;
use crate::points::{GenPoint, Reducible, point_vec_get, point_vec_len, point_vec_new, point_vec_push, point_vec_view};
use crate::uniform_points::UniformPointsLayer;
use crate::vec2::{MAX_RADIUS, Point2d, chunk_indices, index_ok, spec_covered};

verus! {

/// A point admissible to the reducer: in-range position and radius.
pub open spec fn point_ok(p: GenPoint) -> bool {
    &&& p.position.wf()
    &&& 0 <= p.radius <= MAX_RADIUS
}

/// `p` yields to `q`: `p` has the strictly lower `(priority, x, y)`.
pub open spec fn lower_priority(p: GenPoint, q: GenPoint) -> bool {
    ||| p.spec_priority() < q.spec_priority()
    ||| (p.spec_priority() == q.spec_priority() && p.position.x < q.position.x)
    ||| (p.spec_priority() == q.spec_priority() && p.position.x == q.position.x
        && p.position.y < q.position.y)
}

/// `q` drives `p` out: a different point whose exclusion circle overlaps
/// `p`'s (Manhattan distance below the sum of the radii) while `p` has the
/// lower priority.
pub open spec fn conflicts(p: GenPoint, q: GenPoint) -> bool {
    &&& q != p
    &&& q.position.spec_manhattan_dist(p.position) < p.spec_radius() + q.spec_radius()
    &&& lower_priority(p, q)
}

/// `p` survives the reduction against the window `pts`.
pub open spec fn survives(p: GenPoint, pts: Seq<GenPoint>) -> bool {
    forall|m: int| 0 <= m < pts.len() ==> !conflicts(p, #[trigger] pts[m])
}

/// The surviving candidates, in input order.
pub open spec fn reduce_spec(cands: Seq<GenPoint>, window: Seq<GenPoint>) -> Seq<GenPoint>
    decreases cands.len(),
{
    if cands.len() == 0 {
        Seq::empty()
    } else {
        reduce_spec(cands.drop_last(), window) + if survives(cands.last(), window) {
            seq![cands.last()]
        } else {
            Seq::empty()
        }
    }
}

/// Every survivor is one of the candidates and survives the window.
pub proof fn lemma_reduce_members(cands: Seq<GenPoint>, window: Seq<GenPoint>)
    ensures
        reduce_spec(cands, window).len() <= cands.len(),
        forall|n: int| 0 <= n < reduce_spec(cands, window).len() ==> {
            &&& cands.contains(#[trigger] reduce_spec(cands, window)[n])
            &&& survives(reduce_spec(cands, window)[n], window)
        },
    decreases cands.len(),
{
    if cands.len() > 0 {
        lemma_reduce_members(cands.drop_last(), window);
        assert forall|n: int| 0 <= n < reduce_spec(cands, window).len() implies {
            &&& cands.contains(#[trigger] reduce_spec(cands, window)[n])
            &&& survives(reduce_spec(cands, window)[n], window)
        } by {
            let pre = reduce_spec(cands.drop_last(), window);
            if n < pre.len() {
                assert(reduce_spec(cands, window)[n] == pre[n]);
                let m = choose|m: int| 0 <= m < cands.drop_last().len() && cands.drop_last()[m] == pre[n];
                assert(cands[m] == pre[n]);
            } else {
                assert(reduce_spec(cands, window)[n] == cands.last());
                assert(cands[cands.len() - 1] == cands.last());
            }
        }
    }
}

/// Reducer exclusion: two distinct survivors never overlap — their
/// Manhattan distance is at least the sum of their radii — provided the
/// window contains every candidate and no two candidates share a position.
pub proof fn lemma_reducer_exclusion(
    cands: Seq<GenPoint>,
    window: Seq<GenPoint>,
    a: int,
    b: int,
)
    requires
        forall|m: int| 0 <= m < cands.len() ==> window.contains(#[trigger] cands[m]),
        forall|m: int, n: int|
            0 <= m < n < cands.len() ==> (#[trigger] cands[m]).position != (#[trigger] cands[n]).position,
        0 <= a < reduce_spec(cands, window).len(),
        0 <= b < reduce_spec(cands, window).len(),
        reduce_spec(cands, window)[a] != reduce_spec(cands, window)[b],
    ensures
        reduce_spec(cands, window)[a].position.spec_manhattan_dist(
            reduce_spec(cands, window)[b].position)
            >= reduce_spec(cands, window)[a].spec_radius() + reduce_spec(cands, window)[b].spec_radius(),
{
    let p = reduce_spec(cands, window)[a];
    let q = reduce_spec(cands, window)[b];
    lemma_reduce_members(cands, window);
    let mp = choose|m: int| 0 <= m < cands.len() && cands[m] == p;
    let mq = choose|m: int| 0 <= m < cands.len() && cands[m] == q;
    let wq = choose|m: int| 0 <= m < window.len() && window[m] == q;
    let wp = choose|m: int| 0 <= m < window.len() && window[m] == p;
    assert(!conflicts(p, window[wq]));
    assert(!conflicts(q, window[wp]));
    if p.position.spec_manhattan_dist(q.position) < p.spec_radius() + q.spec_radius() {
        assert(q.position.spec_manhattan_dist(p.position) == p.position.spec_manhattan_dist(q.position));
        assert(!lower_priority(p, q));
        assert(!lower_priority(q, p));
        assert(p.position == q.position);
        assert(mp != mq);
        if mp < mq {
            assert(cands[mp].position != cands[mq].position);
        } else {
            assert(cands[mq].position != cands[mp].position);
        }
        assert(false);
    }
}

/// Collect every point of every resident chunk the region covers — the
/// window a reduction step scans. The caller must have loaded the region
/// first (a dependency handle with the reduction padding does just that),
/// so every covered chunk is resident; the result then holds exactly the
/// points of the covered chunks' deterministic payloads.
pub fn gather_window(layer: &UniformPointsLayer, region: &crate::vec2::Bounds) -> (r: Vec<GenPoint>)
    requires
        layer.wf(),
        layer.region_admissible(*region),
        forall|i: Point2d| #[trigger] spec_covered(i, *region, layer.size) ==> layer.entry(i) is Some,
    ensures
        forall|m: int| 0 <= m < r@.len() ==> point_ok(#[trigger] r@[m]),
        forall|i: Point2d, n: int|
            spec_covered(i, *region, layer.size) && 0 <= n < layer.payload_view(i).len()
                ==> r@.contains(#[trigger] layer.payload_view(i)[n]),
{
    let idxs = chunk_indices(region, layer.size);
    let mut r: Vec<GenPoint> = Vec::new();
    let mut k: usize = 0;
    while k < idxs.len()
        invariant
            k <= idxs@.len(),
            layer.wf(),
            forall|i: Point2d| idxs@.contains(i) <==> spec_covered(i, *region, layer.size),
            forall|m: int| 0 <= m < idxs@.len() ==> index_ok(#[trigger] idxs@[m], layer.size),
            forall|i: Point2d| #[trigger] spec_covered(i, *region, layer.size)
                ==> layer.entry(i) is Some,
            forall|m: int| 0 <= m < r@.len() ==> point_ok(#[trigger] r@[m]),
            forall|m: int, n: int|
                0 <= m < k && 0 <= n < layer.payload_view(idxs@[m]).len()
                    ==> r@.contains(#[trigger] layer.payload_view(idxs@[m])[n]),
        decreases idxs@.len() - k,
    {
        let idx = idxs[k];
        proof {
            assert(idxs@.contains(idx)) by {
                assert(idxs@[k as int] == idx);
            }
            assert(spec_covered(idx, *region, layer.size));
            crate::uniform_points::lemma_points_in_chunk(layer.salt, layer.size, layer.radius, idx);
        }
        let chunk = match layer.get(&idx) {
            Some(c) => c,
            None => {
                proof {
                    assert(false);
                }
                unreached()
            },
        };
        let n = point_vec_len(&chunk.points);
        let mut j: usize = 0;
        while j < n
            invariant
                j <= n,
                layer.wf(),
                spec_covered(idx, *region, layer.size),
                index_ok(idx, layer.size),
                n == point_vec_view(chunk.points).len(),
                point_vec_view(chunk.points) == layer.payload_view(idx),
                forall|m: int| 0 <= m < layer.payload_view(idx).len() ==> {
                    &&& crate::spec_chunk_bounds(idx, layer.size).spec_contains(
                        (#[trigger] layer.payload_view(idx)[m]).position)
                    &&& layer.payload_view(idx)[m].radius == layer.radius
                },
                0 <= layer.radius <= MAX_RADIUS,
                forall|m: int| 0 <= m < r@.len() ==> point_ok(#[trigger] r@[m]),
                forall|m: int| 0 <= m < j ==> r@.contains(#[trigger] layer.payload_view(idx)[m]),
                forall|m: int, n2: int|
                    0 <= m < k && 0 <= n2 < layer.payload_view(idxs@[m]).len()
                        ==> r@.contains(#[trigger] layer.payload_view(idxs@[m])[n2]),
            decreases n - j,
        {
            let p = point_vec_get(&chunk.points, j);
            let ghost pre = r@;
            r.push(p);
            proof {
                assert(r@[r@.len() - 1] == p);
                assert(point_ok(p)) by {
                    assert(layer.payload_view(idx)[j as int] == p);
                    assert(crate::spec_chunk_bounds(idx, layer.size).spec_contains(p.position));
                }
                assert(layer.payload_view(idx).contains(p)) by {
                    assert(layer.payload_view(idx)[j as int] == p);
                }
                assert forall|m: int| 0 <= m < pre.len() implies r@[m] == pre[m] by {}
                assert forall|v: GenPoint| pre.contains(v) implies r@.contains(v) by {
                    let m = choose|m: int| 0 <= m < pre.len() && pre[m] == v;
                    assert(r@[m] == v);
                }
                assert forall|m: int| 0 <= m < j + 1
                    implies r@.contains(#[trigger] layer.payload_view(idx)[m]) by {
                    if m < j {
                        assert(pre.contains(layer.payload_view(idx)[m]));
                    } else {
                        assert(r@.contains(p)) by {
                            assert(r@[r@.len() - 1] == p);
                        }
                    }
                }
                assert forall|m: int, n2: int|
                    0 <= m < k && 0 <= n2 < layer.payload_view(idxs@[m]).len()
                    implies r@.contains(#[trigger] layer.payload_view(idxs@[m])[n2]) by {
                    assert(pre.contains(layer.payload_view(idxs@[m])[n2]));
                }
            }
            j = j + 1;
        }
        proof {
            assert forall|m: int, n2: int|
                0 <= m < k + 1 && 0 <= n2 < layer.payload_view(idxs@[m]).len()
                implies r@.contains(#[trigger] layer.payload_view(idxs@[m])[n2]) by {
                if m == k {
                    assert(idxs@[m] == idx);
                }
            }
        }
        k = k + 1;
    }
    proof {
        assert forall|i: Point2d, n2: int|
            spec_covered(i, *region, layer.size) && 0 <= n2 < layer.payload_view(i).len()
            implies r@.contains(#[trigger] layer.payload_view(i)[n2]) by {
            assert(idxs@.contains(i));
            let m = choose|m: int| 0 <= m < idxs@.len() && idxs@[m] == i;
        }
    }
    r
}

/// A chunk of points remaining after the reduction.
pub struct ReducedUniformPoint {
    /// The points remaining after removing ones too close to others.
    pub points: arrayvec::ArrayVec<GenPoint, 7>,
}

impl View for ReducedUniformPoint {
    type V = Seq<GenPoint>;

    open spec fn view(&self) -> Seq<GenPoint> {
        point_vec_view(self.points)
    }
}

impl crate::Chunk for ReducedUniformPoint {
    fn bounds(index: &Point2d, size: Point2d) -> (r: crate::vec2::Bounds) {
        crate::chunk_bounds(index, size)
    }
}

impl Default for ReducedUniformPoint {
    /// An empty chunk: no surviving points.
    fn default() -> (r: ReducedUniformPoint)
        ensures
            r@ == Seq::<GenPoint>::empty(),
    {
        ReducedUniformPoint { points: point_vec_new() }
    }
}

impl ReducedUniformPoint {
    /// Reduce the candidate points of one chunk against all points of the
    /// padded window around it (the window includes the candidates
    /// themselves): keep exactly the survivors, in candidate order.
    pub fn compute(candidates: &arrayvec::ArrayVec<GenPoint, 7>, window: &Vec<GenPoint>) -> (r:
        ReducedUniformPoint)
        requires
            point_vec_view(*candidates).len() <= 7,
            forall|m: int| 0 <= m < point_vec_view(*candidates).len()
                ==> point_ok(#[trigger] point_vec_view(*candidates)[m]),
            forall|m: int| 0 <= m < window@.len() ==> point_ok(#[trigger] window@[m]),
        ensures
            r@ == reduce_spec(point_vec_view(*candidates), window@),
    {
        let ghost cands = point_vec_view(*candidates);
        let mut out = point_vec_new();
        let n = crate::points::point_vec_len(candidates);
        let mut k: usize = 0;
        while k < n
            invariant
                k <= n,
                n == cands.len() <= 7,
                cands == point_vec_view(*candidates),
                forall|m: int| 0 <= m < cands.len() ==> point_ok(#[trigger] cands[m]),
                forall|m: int| 0 <= m < window@.len() ==> point_ok(#[trigger] window@[m]),
                point_vec_view(out) == reduce_spec(cands.subrange(0, k as int), window@),
                point_vec_view(out).len() <= k,
            decreases n - k,
        {
            let p = crate::points::point_vec_get(candidates, k);
            let mut ok = true;
            let mut j: usize = 0;
            while j < window.len()
                invariant
                    j <= window@.len(),
                    p == cands[k as int],
                    0 <= k < cands.len(),
                    forall|m: int| 0 <= m < cands.len() ==> point_ok(#[trigger] cands[m]),
                    forall|m: int| 0 <= m < window@.len() ==> point_ok(#[trigger] window@[m]),
                    ok <==> forall|m: int| 0 <= m < j ==> !conflicts(p, #[trigger] window@[m]),
                decreases window@.len() - j,
            {
                let q = window[j];
                if q != p {
                    let dist = q.position.manhattan_dist(&p.position);
                    let lower = {
                        let pp = p.priority();
                        let qp = q.priority();
                        pp < qp
                            || (pp == qp && (p.position.x < q.position.x
                                || (p.position.x == q.position.x && p.position.y < q.position.y)))
                    };
                    if dist < p.radius() + q.radius() && lower {
                        ok = false;
                    }
                }
                j = j + 1;
            }
            let ghost pre = point_vec_view(out);
            if ok {
                point_vec_push(&mut out, p);
            }
            proof {
                assert(cands.subrange(0, k as int + 1).drop_last() =~= cands.subrange(0, k as int));
                assert(cands.subrange(0, k as int + 1).last() == p);
                if ok {
                    assert(survives(p, window@));
                    assert(point_vec_view(out) =~= reduce_spec(cands.subrange(0, k as int + 1), window@));
                } else {
                    let m = choose|m: int| !(0 <= m < window@.len() ==> !conflicts(p, #[trigger] window@[m]));
                    assert(conflicts(p, window@[m]));
                    assert(!survives(p, window@));
                    assert(point_vec_view(out) =~= reduce_spec(cands.subrange(0, k as int + 1), window@));
                }
            }
            k = k + 1;
        }
        proof {
            assert(cands.subrange(0, n as int) =~= cands);
        }
        ReducedUniformPoint { points: out }
    }
}

} // verus!
