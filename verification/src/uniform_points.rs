//! The base layer: uniformly placed candidate points.
//!
//! Every chunk holds three points drawn inside the chunk's world bounds
//! from a splitmix stream seeded by the chunk index and the layer salt.
//! Draw order (part of the deterministic contract): for each point in turn,
//! first its x offset, then its y offset.

use vstd::prelude::*;

use crate::{Chunk, Layer, LayerError, chunk_bounds, spec_chunk_bounds};
use crate::points::{GenPoint, point_vec_new, point_vec_push, point_vec_view};
use crate::rolling_grid::RollingGrid;
use crate::seeding::{SPLITMIX_GAMMA, draw, next_draw, seed_for, seed_for_exec, stream_state};
use crate::vec2::{
    Bounds, MAX_RADIUS, Point2d, chunk_indices, index_ok, lex_lt, region_ok, size_ok,
    sort_center_out, spec_covered,
};

verus! {

/// How many candidate points every chunk of the base layer holds.
pub const POINTS_PER_CHUNK: usize = 3;

/// The `n`-th deterministic point of chunk `index`: offsets inside the
/// chunk are the `2n`-th and `2n+1`-th draws of the chunk's stream.
pub open spec fn nth_point(salt: u64, size: Point2d, radius: i64, index: Point2d, n: nat) -> GenPoint {
    let seed = seed_for(index, salt);
    let cx = index.x as int * size.x as int;
    let cy = index.y as int * size.y as int;
    GenPoint {
        position: Point2d {
            x: (cx + draw(seed, 2 * n) as int % size.x as int) as i64,
            y: (cy + draw(seed, 2 * n + 1) as int % size.y as int) as i64,
        },
        radius,
    }
}

/// The full deterministic content of chunk `index`: a pure function of the
/// layer configuration and the index.
#[verifier::opaque]
pub open spec fn points_for(salt: u64, size: Point2d, radius: i64, index: Point2d) -> Seq<GenPoint> {
    seq![
        nth_point(salt, size, radius, index, 0),
        nth_point(salt, size, radius, index, 1),
        nth_point(salt, size, radius, index, 2),
    ]
}

/// Every generated point lies inside its chunk's world bounds and carries
/// the configured radius.
pub proof fn lemma_points_in_chunk(salt: u64, size: Point2d, radius: i64, index: Point2d)
    requires
        index_ok(index, size),
        size_ok(size),
    ensures
        points_for(salt, size, radius, index).len() == POINTS_PER_CHUNK,
        forall|n: int| 0 <= n < POINTS_PER_CHUNK ==> {
            &&& spec_chunk_bounds(index, size).spec_contains(
                #[trigger] points_for(salt, size, radius, index)[n].position)
            &&& points_for(salt, size, radius, index)[n].radius == radius
        },
{
    reveal(points_for);
    let seed = seed_for(index, salt);
    assert forall|n: int| 0 <= n < POINTS_PER_CHUNK implies {
        &&& spec_chunk_bounds(index, size).spec_contains(
            #[trigger] points_for(salt, size, radius, index)[n].position)
        &&& points_for(salt, size, radius, index)[n].radius == radius
    } by {
        vstd::arithmetic::div_mod::lemma_mod_bound(draw(seed, (2 * n) as nat) as int, size.x as int);
        vstd::arithmetic::div_mod::lemma_mod_bound(draw(seed, (2 * n + 1) as nat) as int, size.y as int);
    }
}

/// A chunk of uniformly placed candidate points.
pub struct UniformPointsChunk {
    pub points: arrayvec::ArrayVec<GenPoint, 7>,
}

impl View for UniformPointsChunk {
    type V = Seq<GenPoint>;

    open spec fn view(&self) -> Seq<GenPoint> {
        point_vec_view(self.points)
    }
}

impl Chunk for UniformPointsChunk {
    fn bounds(index: &Point2d, size: Point2d) -> (r: Bounds) {
        chunk_bounds(index, size)
    }
}

/// Compute the chunk at `index`: three points drawn inside the chunk from
/// the deterministic stream.
pub fn compute_uniform_chunk(salt: u64, size: Point2d, radius: i64, index: &Point2d) -> (r:
    UniformPointsChunk)
    requires
        index_ok(*index, size),
        size_ok(size),
    ensures
        r@ == points_for(salt, size, radius, *index),
{
    let corner = Point2d { x: index.x * size.x, y: index.y * size.y };
    let seed = seed_for_exec(index, salt);
    let mut state = seed;
    let mut points = point_vec_new();
    let ghost g_seed = seed;
    let sx = size.x as u64;
    let sy = size.y as u64;
    proof {
        assert(stream_state(g_seed, 0) == g_seed);
    }
    let d0 = next_draw(&mut state);
    let d1 = next_draw(&mut state);
    let d2 = next_draw(&mut state);
    let d3 = next_draw(&mut state);
    let d4 = next_draw(&mut state);
    let d5 = next_draw(&mut state);
    proof {
        assert(stream_state(g_seed, 1) == stream_state(g_seed, 0).wrapping_add(SPLITMIX_GAMMA));
        assert(stream_state(g_seed, 2) == stream_state(g_seed, 1).wrapping_add(SPLITMIX_GAMMA));
        assert(stream_state(g_seed, 3) == stream_state(g_seed, 2).wrapping_add(SPLITMIX_GAMMA));
        assert(stream_state(g_seed, 4) == stream_state(g_seed, 3).wrapping_add(SPLITMIX_GAMMA));
        assert(stream_state(g_seed, 5) == stream_state(g_seed, 4).wrapping_add(SPLITMIX_GAMMA));
        assert(stream_state(g_seed, 6) == stream_state(g_seed, 5).wrapping_add(SPLITMIX_GAMMA));
        assert(d0 == draw(g_seed, 0) && d1 == draw(g_seed, 1) && d2 == draw(g_seed, 2)
            && d3 == draw(g_seed, 3) && d4 == draw(g_seed, 4) && d5 == draw(g_seed, 5));
        vstd::arithmetic::div_mod::lemma_mod_bound(d0 as int, sx as int);
        vstd::arithmetic::div_mod::lemma_mod_bound(d2 as int, sx as int);
        vstd::arithmetic::div_mod::lemma_mod_bound(d4 as int, sx as int);
        vstd::arithmetic::div_mod::lemma_mod_bound(d1 as int, sy as int);
        vstd::arithmetic::div_mod::lemma_mod_bound(d3 as int, sy as int);
        vstd::arithmetic::div_mod::lemma_mod_bound(d5 as int, sy as int);
    }
    let p0 = GenPoint {
        position: Point2d { x: corner.x + (d0 % sx) as i64, y: corner.y + (d1 % sy) as i64 },
        radius,
    };
    let p1 = GenPoint {
        position: Point2d { x: corner.x + (d2 % sx) as i64, y: corner.y + (d3 % sy) as i64 },
        radius,
    };
    let p2 = GenPoint {
        position: Point2d { x: corner.x + (d4 % sx) as i64, y: corner.y + (d5 % sy) as i64 },
        radius,
    };
    point_vec_push(&mut points, p0);
    point_vec_push(&mut points, p1);
    point_vec_push(&mut points, p2);
    let r = UniformPointsChunk { points };
    proof {
        reveal(points_for);
        assert(p0 == nth_point(salt, size, radius, *index, 0));
        assert(p1 == nth_point(salt, size, radius, *index, 1));
        assert(p2 == nth_point(salt, size, radius, *index, 2));
        assert(r@ =~= points_for(salt, size, radius, *index));
    }
    r
}

/// The base layer: one rolling grid of [`UniformPointsChunk`]s plus the
/// immutable configuration (chunk extent, salt, point radius).
pub struct UniformPointsLayer {
    pub grid: RollingGrid<UniformPointsChunk>,
    pub size: Point2d,
    pub salt: u64,
    pub radius: i64,
}

impl UniformPointsLayer {
    /// Exactly when loading `region` succeeds: no covered chunk's ring slot
    /// is pinned by a foreign entry or a saturated refcount, and no two
    /// covered chunks collide in the ring.
    pub open spec fn load_compat(&self, region: Bounds) -> bool {
        &&& forall|i: Point2d| #[trigger] spec_covered(i, region, self.size)
            ==> match self.grid.raw_at(i) {
                None => true,
                Some(sc) => (sc.index == i && sc.refcount < u32::MAX) || sc.refcount == 0,
            }
        &&& forall|i: Point2d, j: Point2d|
            #![trigger spec_covered(i, region, self.size), spec_covered(j, region, self.size)]
            spec_covered(i, region, self.size) && spec_covered(j, region, self.size) && i != j
                ==> self.grid.slot_of(i) != self.grid.slot_of(j)
    }

    /// The chunk that the world position is in, together with the position
    /// within that chunk, if that chunk is currently resident.
    pub fn get_chunk_of_grid_point(&self, pos: &Point2d) -> (r: Option<(&UniformPointsChunk, Point2d)>)
        requires
            self.wf(),
            pos.wf(),
        ensures
            match r {
                Some((c, within)) => {
                    &&& self.entry(Point2d {
                        x: (pos.x as int / self.size.x as int) as i64,
                        y: (pos.y as int / self.size.y as int) as i64,
                    }) is Some
                    &&& c@ == self.entry(Point2d {
                        x: (pos.x as int / self.size.x as int) as i64,
                        y: (pos.y as int / self.size.y as int) as i64,
                    })->Some_0.0
                    &&& 0 <= within.x < self.size.x
                    &&& 0 <= within.y < self.size.y
                    &&& within.x as int == pos.x as int % self.size.x as int
                    &&& within.y as int == pos.y as int % self.size.y as int
                },
                None => self.entry(Point2d {
                    x: (pos.x as int / self.size.x as int) as i64,
                    y: (pos.y as int / self.size.y as int) as i64,
                }) is None,
            },
    {
        proof {
            crate::vec2::lemma_div_bounds(pos.x as int, self.size.x as int);
            crate::vec2::lemma_div_bounds(pos.y as int, self.size.y as int);
        }
        let ix = crate::vec2::div_floor(pos.x, self.size.x);
        let iy = crate::vec2::div_floor(pos.y, self.size.y);
        let wx = crate::vec2::rem_euclid(pos.x, self.size.x);
        let wy = crate::vec2::rem_euclid(pos.y, self.size.y);
        let index = Point2d { x: ix, y: iy };
        match self.grid.get(&index) {
            Some(c) => Some((c, Point2d { x: wx, y: wy })),
            None => None,
        }
    }

    /// A fresh layer: an empty ring of `grid_size * overlap` slots per axis.
    pub fn new(grid_size_x: u8, grid_size_y: u8, overlap: u8, size: Point2d, salt: u64, radius: i64)
        -> (r: UniformPointsLayer)
        requires
            1 <= grid_size_x,
            1 <= grid_size_y,
            1 <= overlap,
            size_ok(size),
            0 <= radius <= MAX_RADIUS,
        ensures
            r.wf(),
            r.size == size,
            r.salt == salt,
            r.radius == radius,
            forall|i: Point2d| r.entry(i) is None,
            forall|i: Point2d| r.grid.raw_at(i) is None,
            r.grid.spec_width_x() == grid_size_x as int * overlap as int,
            r.grid.spec_width_y() == grid_size_y as int * overlap as int,
    {
        let gx = grid_size_x as usize;
        let gy = grid_size_y as usize;
        let ov = overlap as usize;
        proof {
            assert(1 * 1 <= (gx as int) * (ov as int) <= 0xFF * 0xFF
                && 1 * 1 <= (gy as int) * (ov as int) <= 0xFF * 0xFF) by (nonlinear_arith)
                requires
                    1 <= (gx as int) <= 0xFF,
                    1 <= (gy as int) <= 0xFF,
                    1 <= (ov as int) <= 0xFF,
            {}
        }
        let wx = gx * ov;
        let wy = gy * ov;
        UniformPointsLayer { grid: RollingGrid::new(wx, wy), size, salt, radius }
    }
}

impl Layer for UniformPointsLayer {
    type Chunk = UniformPointsChunk;

    /// Well-formed: a well-formed ring, an admissible configuration, and
    /// cache consistency — every resident chunk holds exactly its
    /// deterministic payload.
    open spec fn wf(&self) -> bool {
        &&& self.grid.wf()
        &&& size_ok(self.size)
        &&& 0 <= self.radius <= MAX_RADIUS
        &&& forall|i: Point2d| (#[trigger] self.grid.stored(i)) is Some
            ==> self.grid.stored(i)->Some_0.payload@ == points_for(self.salt, self.size, self.radius, i)
    }

    open spec fn chunk_size(&self) -> Point2d {
        self.size
    }

    open spec fn payload_view(&self, index: Point2d) -> Seq<GenPoint> {
        points_for(self.salt, self.size, self.radius, index)
    }

    open spec fn entry(&self, index: Point2d) -> Option<(Seq<GenPoint>, u32)> {
        match self.grid.stored(index) {
            Some(sc) => Some((sc.payload@, sc.refcount)),
            None => None,
        }
    }

    /// The base layer has no dependencies: it accepts every quantizable
    /// region.
    open spec fn region_admissible(&self, region: Bounds) -> bool {
        region_ok(region, self.size)
    }

    open spec fn ensure_ok(&self, region: Bounds) -> bool {
        self.load_compat(region)
    }

    open spec fn release_ok(&self, region: Bounds) -> bool {
        forall|i: Point2d| #[trigger] spec_covered(i, region, self.size)
            ==> self.entry(i) is Some && self.entry(i)->Some_0.1 >= 1
    }

    fn chunk_size_runtime(&self) -> (s: Point2d) {
        self.size
    }

    #[verifier::rlimit(100)]
    #[verifier::loop_isolation(false)]
    fn ensure_loaded_in_bounds(&mut self, region: Bounds) -> (r: Result<(), LayerError>) {
        let center = region.center();
        let raster = chunk_indices(&region, self.size);
        proof {
            crate::vec2::lemma_center_out_total(center, self.size);
            assert forall|m: int, n: int| 0 <= m < n < raster@.len()
                implies raster@[m] != raster@[n] by {
                assert(lex_lt(raster@[m], raster@[n]));
            }
        }
        let idxs = sort_center_out(raster, &center, self.size);
        proof {
            assert forall|m: int, n: int| 0 <= m < n < idxs@.len()
                implies idxs@[m] != idxs@[n] by {
                assert(crate::vec2::center_out_lt(idxs@[m], idxs@[n], center, self.size));
            }
        }
        let ghost g_old = *self;
        proof {
            reveal(slot_evolved);
            assert(forall|i: Point2d| #[trigger] slot_evolved(g_old, *self, idxs@, 0, i));
        }
        let mut k: usize = 0;
        while k < idxs.len()
            invariant
                g_old == *old(self),
                k <= idxs@.len(),
                self.size == g_old.size,
                self.salt == g_old.salt,
                self.radius == g_old.radius,
                self.wf(),
                g_old.wf(),
                self.grid.spec_width_x() == g_old.grid.spec_width_x(),
                self.grid.spec_width_y() == g_old.grid.spec_width_y(),
                forall|i: Point2d| idxs@.contains(i) <==> spec_covered(i, region, g_old.size),
                forall|m: int| 0 <= m < idxs@.len() ==> index_ok(#[trigger] idxs@[m], g_old.size),
                forall|m: int, n: int| 0 <= m < n < idxs@.len() ==> idxs@[m] != idxs@[n],
                forall|m: int| 0 <= m < k ==> #[trigger] self.entry(idxs@[m]) == step_entry(g_old, idxs@[m]),
                forall|m: int| 0 <= m < k ==> #[trigger] old_slot_admits(g_old, idxs@[m]),
                forall|m: int, n: int| 0 <= m < n < k
                    ==> g_old.grid.slot_of(#[trigger] idxs@[m]) != g_old.grid.slot_of(#[trigger] idxs@[n]),
                forall|i: Point2d| #[trigger] slot_evolved(g_old, *self, idxs@, k as int, i),
            decreases idxs@.len() - k,
        {
            let idx = idxs[k];
            let ghost g_pre = *self;
            let rc_opt: Option<u32> = match self.grid.get_entry(&idx) {
                Some(e) => Some(e.refcount),
                None => None,
            };
            match rc_opt {
                Some(rc) => {
                    if rc < u32::MAX {
                        self.grid.incref(idx);
                        proof {
                            lemma_step_frame(g_old, g_pre, *self, idxs@, k as int, idx);
                        }
                    } else {
                        // a saturated refcount cannot take one more reference
                        proof {
                            lemma_step_blames_old(g_old, g_pre, idxs@, k as int, idx, region);
                            lemma_untouched_prefix(g_old, *self, idxs@, k as int, region);
                        }
                        return Err(LayerError::RingOverflow);
                    }
                },
                None => {
                    let payload = compute_uniform_chunk(self.salt, self.size, self.radius, &idx);
                    match self.grid.set(idx, payload) {
                        Ok(()) => {
                            proof {
                                lemma_step_frame(g_old, g_pre, *self, idxs@, k as int, idx);
                            }
                        },
                        Err(e) => {
                            proof {
                                lemma_step_blames_old(g_old, g_pre, idxs@, k as int, idx, region);
                                lemma_untouched_prefix(g_old, *self, idxs@, k as int, region);
                            }
                            return Err(e);
                        },
                    }
                },
            }
            k = k + 1;
        }
        proof {
            lemma_load_post(g_old, *self, idxs@, region);
        }
        Ok(())
    }
    #[verifier::rlimit(100)]
    fn release_bounds(&mut self, region: Bounds) {
        let raster = chunk_indices(&region, self.size);
        proof {
            assert forall|m: int, n: int| 0 <= m < n < raster@.len()
                implies raster@[m] != raster@[n] by {
                assert(lex_lt(raster@[m], raster@[n]));
            }
        }
        let ghost g_old = *self;
        proof {
            reveal(release_frame);
            assert(forall|i: Point2d| #[trigger] release_frame(g_old, *self, raster@, 0, i));
        }
        let mut k: usize = 0;
        while k < raster.len()
            invariant
                g_old == *old(self),
                k <= raster@.len(),
                self.size == g_old.size,
                self.salt == g_old.salt,
                self.radius == g_old.radius,
                self.wf(),
                g_old.wf(),
                g_old.release_ok(region),
                self.grid.spec_width_x() == g_old.grid.spec_width_x(),
                self.grid.spec_width_y() == g_old.grid.spec_width_y(),
                forall|i: Point2d| raster@.contains(i) <==> spec_covered(i, region, g_old.size),
                forall|m: int| 0 <= m < raster@.len() ==> index_ok(#[trigger] raster@[m], g_old.size),
                forall|m: int, n: int| 0 <= m < n < raster@.len() ==> raster@[m] != raster@[n],
                forall|i: Point2d| #[trigger] release_frame(g_old, *self, raster@, k as int, i),
            decreases raster@.len() - k,
        {
            let idx = raster[k];
            let ghost g_pre = *self;
            proof {
                reveal(release_frame);
                assert(release_frame(g_old, g_pre, raster@, k as int, idx));
                assert(!(exists|m: int| 0 <= m < k && raster@[m] == idx)) by {
                    if exists|m: int| 0 <= m < k && raster@[m] == idx {
                        let m = choose|m: int| 0 <= m < k && raster@[m] == idx;
                        assert(raster@[m] == raster@[k as int]);
                    }
                }
                assert(self.entry(idx) == g_old.entry(idx));
                assert(spec_covered(idx, region, g_old.size)) by {
                    assert(raster@.contains(idx)) by {
                        assert(raster@[k as int] == idx);
                    }
                }
                assert(g_old.entry(idx) is Some && g_old.entry(idx)->Some_0.1 >= 1);
            }
            self.grid.decref(idx);
            proof {
                reveal(release_frame);
                assert forall|i: Point2d| #[trigger] release_frame(g_old, *self, raster@, k as int + 1, i) by {
                    assert(release_frame(g_old, g_pre, raster@, k as int, i));
                    if i == idx {
                        assert(raster@[k as int] == idx);
                        assert(exists|m: int| 0 <= m < k + 1 && raster@[m] == i);
                    } else {
                        assert(self.grid.stored(i) == g_pre.grid.stored(i));
                        assert(self.entry(i) == g_pre.entry(i));
                        if exists|m: int| 0 <= m < k + 1 && raster@[m] == i {
                            let m = choose|m: int| 0 <= m < k + 1 && raster@[m] == i;
                            assert(m < k);
                            assert(exists|m: int| 0 <= m < k && raster@[m] == i);
                        }
                    }
                }
            }
            k = k + 1;
        }
        proof {
            reveal(release_frame);
            assert forall|i: Point2d| spec_covered(i, region, g_old.size)
                implies #[trigger] self.entry(i) == Some((g_old.entry(i)->Some_0.0,
                    (g_old.entry(i)->Some_0.1 - 1) as u32)) by {
                assert(raster@.contains(i));
                let m = choose|m: int| 0 <= m < raster@.len() && raster@[m] == i;
                assert(release_frame(g_old, *self, raster@, raster@.len() as int, i));
                assert(exists|n: int| 0 <= n < raster@.len() && raster@[n] == i);
            }
            assert forall|i: Point2d| !spec_covered(i, region, g_old.size)
                implies #[trigger] self.entry(i) == g_old.entry(i) by {
                assert(release_frame(g_old, *self, raster@, raster@.len() as int, i));
                if exists|n: int| 0 <= n < raster@.len() && raster@[n] == i {
                    let n = choose|n: int| 0 <= n < raster@.len() && raster@[n] == i;
                    assert(raster@.contains(i));
                }
            }
        }
    }

    fn get(&self, index: &Point2d) -> (r: Option<&UniformPointsChunk>) {
        self.grid.get(index)
    }

    fn get_range(&self, region: &Bounds) -> (r: Vec<Point2d>) {
        let raster = chunk_indices(region, self.size);
        let mut r: Vec<Point2d> = Vec::new();
        let mut k: usize = 0;
        while k < raster.len()
            invariant
                k <= raster@.len(),
                self.wf(),
                forall|i: Point2d| raster@.contains(i) <==> spec_covered(i, *region, self.size),
                forall|m: int| 0 <= m < raster@.len() ==> index_ok(#[trigger] raster@[m], self.size),
                forall|m: int, n: int| 0 <= m < n < raster@.len() ==> lex_lt(raster@[m], raster@[n]),
                forall|i: Point2d| r@.contains(i)
                    <==> (raster@.subrange(0, k as int).contains(i) && self.entry(i) is Some),
                forall|m: int, n: int| 0 <= m < n < r@.len() ==> lex_lt(r@[m], r@[n]),
                forall|m: int| 0 <= m < r@.len() ==> index_ok(#[trigger] r@[m], self.size),
                forall|m: int| 0 <= m < r@.len() ==> exists|n: int|
                    0 <= n < k && raster@[n] == #[trigger] r@[m],
            decreases raster@.len() - k,
        {
            let idx = raster[k];
            let present = match self.grid.get(&idx) {
                Some(_) => true,
                None => false,
            };
            let ghost old_r = r@;
            if present {
                r.push(idx);
            }
            proof {
                assert(raster@.subrange(0, k as int + 1) =~= raster@.subrange(0, k as int).push(idx));
                if present {
                    assert forall|i: Point2d| r@.contains(i) implies
                        (raster@.subrange(0, k as int + 1).contains(i) && self.entry(i) is Some) by {
                        if i == idx {
                            assert(raster@.subrange(0, k as int + 1)[k as int] == idx);
                        } else {
                            let n = choose|n: int| 0 <= n < old_r.len() && old_r[n] == i;
                            assert(old_r.contains(i));
                        }
                    }
                    assert forall|i: Point2d|
                        raster@.subrange(0, k as int + 1).contains(i) && self.entry(i) is Some
                        implies r@.contains(i) by {
                        if i == idx {
                            assert(r@[r@.len() - 1] == idx);
                        } else {
                            let n = choose|n: int|
                                0 <= n <= k && #[trigger] raster@.subrange(0, k as int + 1)[n] == i;
                            assert(raster@.subrange(0, k as int)[n] == i);
                            assert(old_r.contains(i));
                            let m = choose|m: int| 0 <= m < old_r.len() && old_r[m] == i;
                            assert(r@[m] == i);
                        }
                    }
                    assert forall|m: int, n: int| 0 <= m < n < r@.len()
                        implies lex_lt(r@[m], r@[n]) by {
                        if n == r@.len() - 1 {
                            let q = choose|q: int| 0 <= q < k && raster@[q] == r@[m];
                        }
                    }
                } else {
                    assert forall|i: Point2d| r@.contains(i) implies
                        (raster@.subrange(0, k as int + 1).contains(i) && self.entry(i) is Some) by {
                        let n = choose|n: int| 0 <= n < old_r.len() && old_r[n] == i;
                        assert(old_r.contains(i));
                    }
                    assert forall|i: Point2d|
                        raster@.subrange(0, k as int + 1).contains(i) && self.entry(i) is Some
                        implies r@.contains(i) by {
                        let n = choose|n: int|
                            0 <= n <= k && #[trigger] raster@.subrange(0, k as int + 1)[n] == i;
                        if n == k {
                            assert(i == idx);
                            assert(false);
                        } else {
                            assert(raster@.subrange(0, k as int)[n] == i);
                        }
                    }
                }
            }
            k = k + 1;
        }
        proof {
            assert(raster@.subrange(0, raster@.len() as int) =~= raster@);
        }
        r
    }
}

/// The per-chunk residency formula of a load: the deterministic payload
/// with a refcount one higher than before.
pub open spec fn step_entry(g_old: UniformPointsLayer, i: Point2d) -> Option<(Seq<GenPoint>, u32)> {
    Some((g_old.payload_view(i), match g_old.entry(i) {
        Some(e) => (e.1 + 1) as u32,
        None => 1u32,
    }))
}

/// The original state of the ring admits loading chunk `i`: its slot is
/// vacant, holds `i` itself with headroom, or holds an evictable entry.
pub open spec fn old_slot_admits(g_old: UniformPointsLayer, i: Point2d) -> bool {
    match g_old.grid.raw_at(i) {
        None => true,
        Some(sc) => (sc.index == i && sc.refcount < u32::MAX) || sc.refcount == 0,
    }
}

/// During a load, every ring slot either still holds what it held at the
/// start, or holds one of the first `k` loaded chunks with a live refcount
/// after evicting only refcount-zero content.
#[verifier::opaque]
pub open spec fn slot_evolved(
    g_old: UniformPointsLayer,
    g_new: UniformPointsLayer,
    idxs: Seq<Point2d>,
    k: int,
    i: Point2d,
) -> bool {
    g_new.grid.raw_at(i) == g_old.grid.raw_at(i) || {
        &&& g_new.grid.raw_at(i) is Some
        &&& exists|m: int| 0 <= m < k && idxs[m] == g_new.grid.raw_at(i)->Some_0.index
        &&& g_new.grid.raw_at(i)->Some_0.refcount >= 1
        &&& (g_old.grid.raw_at(i) is None || g_old.grid.raw_at(i)->Some_0.refcount == 0
            || g_old.grid.raw_at(i)->Some_0.index == g_new.grid.raw_at(i)->Some_0.index)
    }
}

/// During a release, the first `k` covered chunks have given up one
/// reference and everything else is untouched.
#[verifier::opaque]
pub open spec fn release_frame(
    g_old: UniformPointsLayer,
    g_new: UniformPointsLayer,
    raster: Seq<Point2d>,
    k: int,
    i: Point2d,
) -> bool {
    if exists|m: int| 0 <= m < k && raster[m] == i {
        g_new.entry(i) == Some((g_old.entry(i)->Some_0.0, (g_old.entry(i)->Some_0.1 - 1) as u32))
    } else {
        g_new.entry(i) == g_old.entry(i)
    }
}

/// A successful step for `idx` preserves the load-loop invariants and shows
/// that the original state admitted `idx`.
#[verifier::rlimit(100)]
proof fn lemma_step_frame(
    g_old: UniformPointsLayer,
    g_pre: UniformPointsLayer,
    g_post: UniformPointsLayer,
    idxs: Seq<Point2d>,
    k: int,
    idx: Point2d,
)
    requires
        0 <= k < idxs.len(),
        idxs[k] == idx,
        g_old.wf(),
        g_pre.wf(),
        g_pre.size == g_old.size && g_pre.salt == g_old.salt && g_pre.radius == g_old.radius,
        g_pre.grid.spec_width_x() == g_old.grid.spec_width_x(),
        g_pre.grid.spec_width_y() == g_old.grid.spec_width_y(),
        g_post.grid.spec_width_x() == g_pre.grid.spec_width_x(),
        g_post.grid.spec_width_y() == g_pre.grid.spec_width_y(),
        forall|m: int, n: int| 0 <= m < n < idxs.len() ==> idxs[m] != idxs[n],
        forall|m: int| 0 <= m < k ==> #[trigger] g_pre.entry(idxs[m]) == step_entry(g_old, idxs[m]),
        forall|m: int| 0 <= m < k ==> #[trigger] old_slot_admits(g_old, idxs[m]),
        forall|i: Point2d| #[trigger] slot_evolved(g_old, g_pre, idxs, k, i),
        // what the successful step saw and did
        (g_pre.grid.stored(idx) is Some && g_pre.grid.stored(idx)->Some_0.refcount < u32::MAX)
            || g_pre.grid.raw_at(idx) is None || g_pre.grid.raw_at(idx)->Some_0.refcount == 0,
        g_post.entry(idx) == step_entry(g_pre, idx),
        forall|j: Point2d|
            g_pre.grid.slot_of(j) != g_pre.grid.slot_of(idx)
                ==> #[trigger] g_post.grid.raw_at(j) == g_pre.grid.raw_at(j),
        g_post.grid.raw_at(idx) is Some,
        g_post.grid.raw_at(idx)->Some_0.index == idx,
        g_post.grid.raw_at(idx)->Some_0.refcount >= 1,
        g_post.grid.wf(),
        g_post.size == g_old.size && g_post.salt == g_old.salt && g_post.radius == g_old.radius,
    ensures
        g_post.wf(),
        forall|m: int| 0 <= m < k + 1 ==> #[trigger] g_post.entry(idxs[m]) == step_entry(g_old, idxs[m]),
        forall|m: int| 0 <= m < k + 1 ==> #[trigger] old_slot_admits(g_old, idxs[m]),
        forall|m: int, n: int| 0 <= m < n < k + 1
            ==> g_old.grid.slot_of(#[trigger] idxs[m]) != g_old.grid.slot_of(#[trigger] idxs[n]),
    forall|i: Point2d| #[trigger] slot_evolved(g_old, g_post, idxs, k + 1, i),
{
    reveal(slot_evolved);
    assert(slot_evolved(g_old, g_pre, idxs, k, idx));
    // the slot of idx still held its original content when the step ran:
    // had a previously loaded chunk pinned it, the step could not succeed
    assert(g_pre.grid.raw_at(idx) == g_old.grid.raw_at(idx)) by {
        if g_pre.grid.raw_at(idx) != g_old.grid.raw_at(idx) {
            let m = choose|m: int| 0 <= m < k && idxs[m] == g_pre.grid.raw_at(idx)->Some_0.index;
            assert(idxs[m] != idx);
            assert(g_pre.grid.stored(idx) is None);
            assert(g_pre.grid.raw_at(idx)->Some_0.refcount >= 1);
        }
    }
    assert(old_slot_admits(g_old, idx)) by {
        if g_pre.grid.stored(idx) is Some {
            assert(g_old.grid.raw_at(idx)->Some_0.index == idx);
        }
    }
    assert(g_pre.entry(idx) == g_old.entry(idx));
    // no previously loaded chunk shares the ring slot of idx
    assert forall|m: int| 0 <= m < k implies g_pre.grid.slot_of(#[trigger] idxs[m])
        != g_pre.grid.slot_of(idx) by {
        if g_pre.grid.slot_of(idxs[m]) == g_pre.grid.slot_of(idx) {
            assert(g_pre.entry(idxs[m]) == step_entry(g_old, idxs[m]));
            assert(g_pre.grid.stored(idxs[m]) is Some);
            assert(g_pre.grid.raw_at(idxs[m])->Some_0.index == idxs[m]);
            assert(g_pre.grid.raw_at(idx) == g_pre.grid.raw_at(idxs[m]));
            assert(idxs[m] != idx);
            assert(g_pre.grid.stored(idx) is None);
            assert(old_slot_admits(g_old, idxs[m]));
            assert(g_old.grid.raw_at(idxs[m]) == g_pre.grid.raw_at(idxs[m]));
            assert(g_pre.grid.raw_at(idxs[m])->Some_0.refcount >= 1) by {
                assert(g_pre.entry(idxs[m])->Some_0.1 >= 1);
            }
            assert(false);
        }
    }
    assert forall|m: int, n: int| 0 <= m < n < k + 1
        implies g_old.grid.slot_of(#[trigger] idxs[m]) != g_old.grid.slot_of(#[trigger] idxs[n]) by {
        if n == k {
            assert(g_pre.grid.slot_of(idxs[m]) != g_pre.grid.slot_of(idx));
        } else {
            assert(0 <= m < n < k);
            assert(slot_evolved(g_old, g_pre, idxs, k, idxs[m]));
            assert(g_pre.entry(idxs[m]) == step_entry(g_old, idxs[m]));
            assert(g_pre.entry(idxs[n]) == step_entry(g_old, idxs[n]));
            if g_pre.grid.slot_of(idxs[m]) == g_pre.grid.slot_of(idxs[n]) {
                assert(g_pre.grid.stored(idxs[m]) is Some);
                assert(g_pre.grid.stored(idxs[n]) is Some);
                g_pre.grid.lemma_address_unique(idxs[m], idxs[n]);
                assert(false);
            }
        }
    }
    assert forall|m: int| 0 <= m < k + 1 implies #[trigger] g_post.entry(idxs[m])
        == step_entry(g_old, idxs[m]) by {
        if m < k {
            assert(g_pre.grid.slot_of(idxs[m]) != g_pre.grid.slot_of(idx));
            assert(g_post.grid.raw_at(idxs[m]) == g_pre.grid.raw_at(idxs[m]));
            assert(g_pre.entry(idxs[m]) == step_entry(g_old, idxs[m]));
        } else {
            assert(g_post.entry(idx) == step_entry(g_pre, idx));
        }
    }
    assert forall|i: Point2d| #[trigger] slot_evolved(g_old, g_post, idxs, k + 1, i) by {
        if g_pre.grid.slot_of(i) == g_pre.grid.slot_of(idx) {
            assert(g_post.grid.raw_at(i) == g_post.grid.raw_at(idx));
            assert(g_old.grid.raw_at(i) == g_old.grid.raw_at(idx));
            assert(idxs[k] == g_post.grid.raw_at(i)->Some_0.index);
            assert(0 <= k < k + 1 && idxs[k] == g_post.grid.raw_at(i)->Some_0.index);
        } else {
            assert(g_post.grid.raw_at(i) == g_pre.grid.raw_at(i));
            assert(slot_evolved(g_old, g_pre, idxs, k, i));
            if g_pre.grid.raw_at(i) != g_old.grid.raw_at(i) {
                let m = choose|m: int| 0 <= m < k && idxs[m] == g_pre.grid.raw_at(i)->Some_0.index;
                assert(0 <= m < k + 1 && idxs[m] == g_post.grid.raw_at(i)->Some_0.index);
            }
        }
    }
    // cache consistency: every resident chunk still holds its payload
    assert forall|i: Point2d| (#[trigger] g_post.grid.stored(i)) is Some
        implies g_post.grid.stored(i)->Some_0.payload@
            == points_for(g_post.salt, g_post.size, g_post.radius, i) by {
        assert(slot_evolved(g_old, g_post, idxs, k + 1, i));
        if g_post.grid.raw_at(i) == g_old.grid.raw_at(i) {
            assert(g_old.grid.stored(i) is Some);
        } else {
            let m = choose|m: int|
                0 <= m < k + 1 && idxs[m] == g_post.grid.raw_at(i)->Some_0.index;
            assert(i == idxs[m]);
            assert(g_post.entry(idxs[m]) == step_entry(g_old, idxs[m]));
        }
    }
}

/// Even a failed load only ever evicted refcount-zero entries outside the
/// region: derived from the slot evolution invariant at any prefix.
proof fn lemma_untouched_prefix(
    g_old: UniformPointsLayer,
    g_now: UniformPointsLayer,
    idxs: Seq<Point2d>,
    k: int,
    region: Bounds,
)
    requires
        g_old.wf(),
        g_now.size == g_old.size,
        g_now.grid.spec_width_x() == g_old.grid.spec_width_x(),
        g_now.grid.spec_width_y() == g_old.grid.spec_width_y(),
        0 <= k <= idxs.len(),
        forall|i: Point2d| idxs.contains(i) <==> spec_covered(i, region, g_old.size),
        forall|i: Point2d| #[trigger] slot_evolved(g_old, g_now, idxs, k, i),
    ensures
        forall|i: Point2d| !spec_covered(i, region, g_old.size)
            ==> g_now.entry(i) == g_old.entry(i)
                || (g_now.entry(i) is None && g_old.entry(i)->Some_0.1 == 0),
{
    reveal(slot_evolved);
    assert forall|i: Point2d| !spec_covered(i, region, g_old.size)
        implies g_now.entry(i) == g_old.entry(i)
            || (g_now.entry(i) is None && g_old.entry(i)->Some_0.1 == 0) by {
        assert(slot_evolved(g_old, g_now, idxs, k, i));
        if g_now.grid.raw_at(i) != g_old.grid.raw_at(i) {
            let m = choose|m: int| 0 <= m < k && idxs[m] == g_now.grid.raw_at(i)->Some_0.index;
            assert(idxs.contains(idxs[m]));
            assert(spec_covered(idxs[m], region, g_old.size));
            assert(idxs[m] != i);
            assert(g_now.grid.stored(i) is None);
            if g_old.grid.raw_at(i) is Some && g_old.grid.raw_at(i)->Some_0.refcount != 0 {
                assert(g_old.grid.raw_at(i)->Some_0.index == idxs[m]);
                assert(g_old.grid.stored(i) is None);
            }
        }
    }
}

/// When a step for `idx` fails, the original state already refused the
/// load: the region was not compatible with the ring to begin with.
#[verifier::rlimit(100)]
proof fn lemma_step_blames_old(
    g_old: UniformPointsLayer,
    g_pre: UniformPointsLayer,
    idxs: Seq<Point2d>,
    k: int,
    idx: Point2d,
    region: Bounds,
)
    requires
        0 <= k < idxs.len(),
        idxs[k] == idx,
        g_old.wf(),
        g_pre.wf(),
        g_pre.size == g_old.size && g_pre.salt == g_old.salt && g_pre.radius == g_old.radius,
        g_pre.grid.spec_width_x() == g_old.grid.spec_width_x(),
        g_pre.grid.spec_width_y() == g_old.grid.spec_width_y(),
        forall|i: Point2d| idxs.contains(i) <==> spec_covered(i, region, g_old.size),
        forall|m: int, n: int| 0 <= m < n < idxs.len() ==> idxs[m] != idxs[n],
        forall|m: int| 0 <= m < k ==> #[trigger] g_pre.entry(idxs[m]) == step_entry(g_old, idxs[m]),
        forall|m: int| 0 <= m < k ==> #[trigger] old_slot_admits(g_old, idxs[m]),
        forall|i: Point2d| #[trigger] slot_evolved(g_old, g_pre, idxs, k, i),
        // what the failing step saw: a saturated resident entry, or a live
        // foreign occupant of the slot of idx
        (g_pre.grid.stored(idx) is Some && g_pre.grid.stored(idx)->Some_0.refcount == u32::MAX)
            || (g_pre.grid.stored(idx) is None && g_pre.grid.raw_at(idx) is Some
                && g_pre.grid.raw_at(idx)->Some_0.refcount > 0),
    ensures
        !g_old.load_compat(region),
{
    reveal(slot_evolved);
    assert(spec_covered(idx, region, g_old.size)) by {
        assert(idxs.contains(idx)) by {
            assert(idxs[k] == idx);
        }
    }
    assert(slot_evolved(g_old, g_pre, idxs, k, idx));
    if g_pre.grid.raw_at(idx) == g_old.grid.raw_at(idx) {
        assert(!old_slot_admits(g_old, idx)) by {
            if g_pre.grid.stored(idx) is Some {
                assert(g_old.grid.raw_at(idx)->Some_0.index == idx);
                assert(g_old.grid.raw_at(idx)->Some_0.refcount == u32::MAX);
            } else {
                assert(g_old.grid.raw_at(idx)->Some_0.index != idx);
                assert(g_old.grid.raw_at(idx)->Some_0.refcount > 0);
            }
        }
        assert(!g_old.load_compat(region));
    } else {
        // a previously loaded covered chunk pins the slot of idx: two
        // covered chunks collide in the ring
        let m = choose|m: int| 0 <= m < k && idxs[m] == g_pre.grid.raw_at(idx)->Some_0.index;
        assert(idxs[m] != idx);
        assert(spec_covered(idxs[m], region, g_old.size)) by {
            assert(idxs.contains(idxs[m]));
        }
        assert(g_pre.grid.stored(idxs[m]) is Some) by {
            assert(g_pre.entry(idxs[m]) == step_entry(g_old, idxs[m]));
        }
        assert(g_pre.grid.slot_of(idxs[m]) == g_pre.grid.slot_of(idx)) by {
            g_pre.grid.lemma_slot_in_range(idx);
        }
        assert(g_old.grid.slot_of(idxs[m]) == g_old.grid.slot_of(idx));
        assert(!g_old.load_compat(region));
    }
}

/// After the load loop has run to completion, the trait-level contract of
/// `ensure_loaded_in_bounds` holds: the original state was compatible,
/// every covered chunk is resident with one more reference, and chunks
/// outside the region were at most evicted from refcount-zero slots.
#[verifier::rlimit(100)]
proof fn lemma_load_post(
    g_old: UniformPointsLayer,
    g_post: UniformPointsLayer,
    idxs: Seq<Point2d>,
    region: Bounds,
)
    requires
        g_old.wf(),
        g_post.size == g_old.size,
        g_post.grid.spec_width_x() == g_old.grid.spec_width_x(),
        g_post.grid.spec_width_y() == g_old.grid.spec_width_y(),
        forall|i: Point2d| idxs.contains(i) <==> spec_covered(i, region, g_old.size),
        forall|m: int| 0 <= m < idxs.len() ==> #[trigger] g_post.entry(idxs[m]) == step_entry(g_old, idxs[m]),
        forall|m: int| 0 <= m < idxs.len() ==> #[trigger] old_slot_admits(g_old, idxs[m]),
        forall|m: int, n: int| 0 <= m < n < idxs.len()
            ==> g_old.grid.slot_of(#[trigger] idxs[m]) != g_old.grid.slot_of(#[trigger] idxs[n]),
        forall|i: Point2d| #[trigger] slot_evolved(g_old, g_post, idxs, idxs.len() as int, i),
    ensures
        g_old.load_compat(region),
        forall|i: Point2d| #[trigger] spec_covered(i, region, g_old.size)
            ==> g_post.entry(i) == step_entry(g_old, i),
        forall|i: Point2d| !spec_covered(i, region, g_old.size)
            ==> g_post.entry(i) == g_old.entry(i)
                || (g_post.entry(i) is None && g_old.entry(i)->Some_0.1 == 0),
{
    reveal(slot_evolved);
    assert forall|i: Point2d| #[trigger] spec_covered(i, region, g_old.size)
        implies old_slot_admits(g_old, i) && g_post.entry(i) == step_entry(g_old, i) by {
        assert(idxs.contains(i));
        let m = choose|m: int| 0 <= m < idxs.len() && idxs[m] == i;
    }
    assert forall|i: Point2d, j: Point2d|
        #![trigger spec_covered(i, region, g_old.size), spec_covered(j, region, g_old.size)]
        spec_covered(i, region, g_old.size) && spec_covered(j, region, g_old.size) && i != j
        implies g_old.grid.slot_of(i) != g_old.grid.slot_of(j) by {
        assert(idxs.contains(i) && idxs.contains(j));
        let m = choose|m: int| 0 <= m < idxs.len() && idxs[m] == i;
        let n = choose|n: int| 0 <= n < idxs.len() && idxs[n] == j;
        if m < n {
        } else {
            assert(n < m);
        }
    }
    assert forall|i: Point2d| #[trigger] spec_covered(i, region, g_old.size)
        implies match g_old.grid.raw_at(i) {
            None => true,
            Some(sc) => (sc.index == i && sc.refcount < u32::MAX) || sc.refcount == 0,
        } by {
        assert(old_slot_admits(g_old, i));
    }
    assert(g_old.load_compat(region));
    assert forall|i: Point2d| !spec_covered(i, region, g_old.size)
        implies g_post.entry(i) == g_old.entry(i)
            || (g_post.entry(i) is None && g_old.entry(i)->Some_0.1 == 0) by {
        assert(slot_evolved(g_old, g_post, idxs, idxs.len() as int, i));
        if g_post.grid.raw_at(i) != g_old.grid.raw_at(i) {
            let m = choose|m: int|
                0 <= m < idxs.len() && idxs[m] == g_post.grid.raw_at(i)->Some_0.index;
            assert(idxs.contains(idxs[m]));
            assert(spec_covered(idxs[m], region, g_old.size));
            assert(idxs[m] != i);
            assert(g_post.grid.stored(i) is None);
            if g_old.grid.raw_at(i) is Some && g_old.grid.raw_at(i)->Some_0.refcount != 0 {
                assert(g_old.grid.raw_at(i)->Some_0.index == idxs[m]);
                assert(g_old.grid.stored(i) is None);
            }
        }
    }
}


} // verus!
