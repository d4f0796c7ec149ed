//! Deterministic, layered procedural generation.
//!
//! The world is an unbounded integer plane tiled into fixed-size rectangular
//! chunks. Each layer owns a bounded ring-buffer cache of chunks
//! ([`rolling_grid::RollingGrid`]) and computes every chunk's payload as a
//! pure function of the chunk index and the layer's configuration, so the
//! same index always yields the same contents.

use vstd::prelude::*;

pub mod laws;
pub mod points;
pub mod reduced_points;
pub mod roads;
pub mod rolling_grid;
pub mod seeding;
pub mod uniform_points;
pub mod vec2;

use vec2::{Bounds, Point2d, coord_q, index_ok, size_ok, spec_covered};

verus! {

/// A fatal condition raised by the cache machinery: the working set of live
/// (reference-counted) chunks exceeded the ring capacity, so a new chunk
/// index collided with a slot whose refcount is still positive.
#[derive(Clone, Copy, PartialEq, Eq, Structural, Debug)]
pub enum LayerError {
    RingOverflow,
}

/// The world region covered by the chunk at `index`:
/// `[index * size, (index + 1) * size)`.
pub open spec fn spec_chunk_bounds(index: Point2d, size: Point2d) -> Bounds {
    Bounds {
        min: Point2d { x: (index.x * size.x) as i64, y: (index.y * size.y) as i64 },
        max: Point2d {
            x: (index.x * size.x + size.x) as i64,
            y: (index.y * size.y + size.y) as i64,
        },
    }
}

/// Compute the world bounds of the chunk at `index` for chunk extent `size`.
pub fn chunk_bounds(index: &Point2d, size: Point2d) -> (r: Bounds)
    requires
        index_ok(*index, size),
        size_ok(size),
    ensures
        r == spec_chunk_bounds(*index, size),
        r.wf(),
{
    let min = Point2d { x: index.x * size.x, y: index.y * size.y };
    Bounds { min, max: Point2d { x: min.x + size.x, y: min.y + size.y } }
}

/// The region of `size`-sized chunks covered by `region` is exactly the
/// singleton `{index}` when `region` is the chunk's own world bounds.
pub proof fn lemma_chunk_bounds_covered(index: Point2d, size: Point2d)
    requires
        index_ok(index, size),
        size_ok(size),
    ensures
        forall|j: Point2d| spec_covered(j, spec_chunk_bounds(index, size), size) <==> j == index,
{
    let b = spec_chunk_bounds(index, size);
    vstd::arithmetic::div_mod::lemma_fundamental_div_mod_converse(
        b.min.x as int, size.x as int, index.x as int, 0);
    vstd::arithmetic::div_mod::lemma_fundamental_div_mod_converse(
        b.spec_eff_max_x() - 1, size.x as int, index.x as int, size.x - 1);
    vstd::arithmetic::div_mod::lemma_fundamental_div_mod_converse(
        b.min.y as int, size.y as int, index.y as int, 0);
    vstd::arithmetic::div_mod::lemma_fundamental_div_mod_converse(
        b.spec_eff_max_y() - 1, size.y as int, index.y as int, size.y - 1);
}

/// A chunk: a rectangular tile of the world plane whose contents are a pure
/// function of its index and the owning layer's configuration. The view
/// (`@`) of a chunk is its mathematical payload; contracts speak of views.
pub trait Chunk: View + Sized {
    /// The world region the chunk at `index` covers, for chunk extent `size`.
    fn bounds(index: &Point2d, size: Point2d) -> (r: Bounds)
        requires
            index_ok(*index, size),
            size_ok(size),
        ensures
            r == spec_chunk_bounds(*index, size),
    ;
}

/// A layer: one chunk type together with the rolling-grid cache that stores
/// its chunks.
///
/// `payload_view(i)` is the (deterministic) content of chunk `i`: it depends
/// only on the layer's immutable configuration, never on the cache state.
/// `entry(i)` is what the cache currently stores for `i`: the payload view
/// and the refcount. `ensure_ok(region)` says exactly when a load of
/// `region` succeeds; on success every covered chunk is resident with its
/// deterministic payload and a refcount one higher than before.
pub trait Layer: Sized {
    type Chunk: Chunk;

    /// The invariant of the layer, including: every resident chunk's payload
    /// equals its deterministic `payload_view`.
    spec fn wf(&self) -> bool;

    /// World extent of one chunk of this layer.
    spec fn chunk_size(&self) -> Point2d;

    /// The deterministic content of chunk `index`: a pure function of the
    /// layer configuration and the index.
    spec fn payload_view(&self, index: Point2d) -> <Self::Chunk as View>::V;

    /// What the cache stores for `index`: payload view and refcount.
    spec fn entry(&self, index: Point2d) -> Option<(<Self::Chunk as View>::V, u32)>;

    /// Regions this layer accepts: well formed, within the coordinate
    /// margin (also after dependency padding), and of bounded chunk count.
    spec fn region_admissible(&self, region: Bounds) -> bool;

    /// Exactly when `ensure_loaded_in_bounds(region)` succeeds: no covered
    /// chunk collides with a live ring slot (here or, transitively, in any
    /// dependency layer), and no refcount can overflow.
    spec fn ensure_ok(&self, region: Bounds) -> bool;

    /// When `release_bounds(region)` is allowed: every covered chunk is
    /// resident with a positive refcount (here and transitively).
    spec fn release_ok(&self, region: Bounds) -> bool;

    /// Load all chunks covered by `region`, nearest to the region's center
    /// first: for each covered chunk, first materialize all dependency
    /// chunks its computation needs, then compute it (or bump its refcount
    /// if it is already resident).
    fn ensure_loaded_in_bounds(&mut self, region: Bounds) -> (r: Result<(), LayerError>)
        requires
            old(self).wf(),
            old(self).region_admissible(region),
        ensures
            final(self).wf(),
            final(self).chunk_size() == old(self).chunk_size(),
            forall|i: Point2d| final(self).payload_view(i) == old(self).payload_view(i),
            forall|b: Bounds| final(self).region_admissible(b) == old(self).region_admissible(b),
            r is Ok <==> old(self).ensure_ok(region),
            r is Ok ==> forall|i: Point2d|
                #[trigger] spec_covered(i, region, old(self).chunk_size()) ==> final(self).entry(i)
                    == Some((old(self).payload_view(i), match old(self).entry(i) {
                        Some(e) => (e.1 + 1) as u32,
                        None => 1u32,
                    })),
            forall|i: Point2d|
                !spec_covered(i, region, old(self).chunk_size())
                    ==> final(self).entry(i) == old(self).entry(i)
                        || (final(self).entry(i) is None && old(self).entry(i)->Some_0.1 == 0),
    ;

    /// The mirror of `ensure_loaded_in_bounds`: release one reference of
    /// every chunk covered by `region` (here and transitively in the
    /// dependency layers).
    fn release_bounds(&mut self, region: Bounds)
        requires
            old(self).wf(),
            old(self).region_admissible(region),
            old(self).release_ok(region),
        ensures
            final(self).wf(),
            final(self).chunk_size() == old(self).chunk_size(),
            forall|i: Point2d| final(self).payload_view(i) == old(self).payload_view(i),
            forall|b: Bounds| final(self).region_admissible(b) == old(self).region_admissible(b),
            forall|i: Point2d|
                #[trigger] spec_covered(i, region, old(self).chunk_size()) ==> final(self).entry(i)
                    == Some((old(self).entry(i)->Some_0.0, (old(self).entry(i)->Some_0.1 - 1) as u32)),
            forall|i: Point2d|
                !spec_covered(i, region, old(self).chunk_size())
                    ==> final(self).entry(i) == old(self).entry(i),
    ;

    /// World extent of one chunk, as a runtime value.
    fn chunk_size_runtime(&self) -> (s: Point2d)
        requires
            self.wf(),
        ensures
            s == self.chunk_size(),
    ;

    /// The chunk currently resident for `index`, without computing anything.
    fn get(&self, index: &Point2d) -> (r: Option<&Self::Chunk>)
        requires
            self.wf(),
            index.wf(),
        ensures
            match r {
                Some(c) => self.entry(*index) is Some && c@ == self.entry(*index)->Some_0.0,
                None => self.entry(*index) is None,
            },
    ;

    /// The chunk indices covered by `region` whose chunks are currently
    /// resident, in raster order. Never computes: the caller must have
    /// loaded the region first.
    fn get_range(&self, region: &Bounds) -> (r: Vec<Point2d>)
        requires
            self.wf(),
            self.region_admissible(*region),
        ensures
            forall|i: Point2d|
                r@.contains(i) <==> spec_covered(i, *region, self.chunk_size()) && self.entry(i) is Some,
            forall|m: int, n: int| 0 <= m < n < r@.len() ==> vec2::lex_lt(r@[m], r@[n]),
            forall|m: int| 0 <= m < r@.len() ==> index_ok(#[trigger] r@[m], self.chunk_size()),
    ;
}

/// The typed edge from a consumer layer to one producer layer, carrying the
/// padding (in world units) the consumer needs around its own chunks.
pub struct LayerDependency<L: Layer> {
    pub layer: L,
    pub padding: Point2d,
}

/// Largest admissible dependency padding per axis: enough for one chunk
/// extent or twice the largest exclusion radius.
pub const MAX_PADDING: i64 = 0x2_0000;

impl<L: Layer> LayerDependency<L> {
    pub open spec fn wf(&self) -> bool {
        &&& self.layer.wf()
        &&& 0 <= self.padding.x <= MAX_PADDING
        &&& 0 <= self.padding.y <= MAX_PADDING
    }

    /// Bind `layer` as a dependency seen through `padding` world units of
    /// slack around every consumer chunk.
    pub fn new(layer: L, padding: Point2d) -> (r: LayerDependency<L>)
        requires
            layer.wf(),
            0 <= padding.x <= MAX_PADDING,
            0 <= padding.y <= MAX_PADDING,
        ensures
            r.wf(),
            r.layer == layer,
            r.padding == padding,
    {
        LayerDependency { layer, padding }
    }

    /// The producer region a consumer region depends on.
    pub open spec fn spec_padded(&self, chunk_bounds: Bounds) -> Bounds {
        chunk_bounds.spec_pad(self.padding)
    }

    /// Load everything the consumer region `chunk_bounds` depends on:
    /// the producer's chunks covering the padded region.
    pub fn ensure_loaded_in_bounds(&mut self, chunk_bounds: Bounds) -> (r: Result<(), LayerError>)
        requires
            old(self).wf(),
            chunk_bounds.wf(),
            coord_q(chunk_bounds.min.x - old(self).padding.x),
            coord_q(chunk_bounds.min.y - old(self).padding.y),
            coord_q(chunk_bounds.max.x + old(self).padding.x),
            coord_q(chunk_bounds.max.y + old(self).padding.y),
            old(self).layer.region_admissible(old(self).spec_padded(chunk_bounds)),
        ensures
            final(self).padding == old(self).padding,
            final(self).layer.wf(),
            final(self).wf(),
            final(self).layer.chunk_size() == old(self).layer.chunk_size(),
            forall|i: Point2d| final(self).layer.payload_view(i) == old(self).layer.payload_view(i),
            forall|b: Bounds|
                final(self).layer.region_admissible(b) == old(self).layer.region_admissible(b),
            r is Ok <==> old(self).layer.ensure_ok(old(self).spec_padded(chunk_bounds)),
            r is Ok ==> forall|i: Point2d|
                #[trigger] spec_covered(i, old(self).spec_padded(chunk_bounds), old(self).layer.chunk_size())
                    ==> final(self).layer.entry(i)
                        == Some((old(self).layer.payload_view(i), match old(self).layer.entry(i) {
                            Some(e) => (e.1 + 1) as u32,
                            None => 1u32,
                        })),
            forall|i: Point2d|
                !spec_covered(i, old(self).spec_padded(chunk_bounds), old(self).layer.chunk_size())
                    ==> final(self).layer.entry(i) == old(self).layer.entry(i)
                        || (final(self).layer.entry(i) is None
                            && old(self).layer.entry(i)->Some_0.1 == 0),
    {
        let required = chunk_bounds.pad(self.padding);
        self.layer.ensure_loaded_in_bounds(required)
    }

    /// The mirror of `ensure_loaded_in_bounds` on the same consumer region.
    pub fn release_bounds(&mut self, chunk_bounds: Bounds)
        requires
            old(self).wf(),
            chunk_bounds.wf(),
            coord_q(chunk_bounds.min.x - old(self).padding.x),
            coord_q(chunk_bounds.min.y - old(self).padding.y),
            coord_q(chunk_bounds.max.x + old(self).padding.x),
            coord_q(chunk_bounds.max.y + old(self).padding.y),
            old(self).layer.region_admissible(old(self).spec_padded(chunk_bounds)),
            old(self).layer.release_ok(old(self).spec_padded(chunk_bounds)),
        ensures
            final(self).padding == old(self).padding,
            final(self).wf(),
            final(self).layer.chunk_size() == old(self).layer.chunk_size(),
            forall|i: Point2d| final(self).layer.payload_view(i) == old(self).layer.payload_view(i),
            forall|b: Bounds|
                final(self).layer.region_admissible(b) == old(self).layer.region_admissible(b),
            forall|i: Point2d|
                #[trigger] spec_covered(i, old(self).spec_padded(chunk_bounds), old(self).layer.chunk_size())
                    ==> final(self).layer.entry(i) == Some((old(self).layer.entry(i)->Some_0.0,
                        (old(self).layer.entry(i)->Some_0.1 - 1) as u32)),
            forall|i: Point2d|
                !spec_covered(i, old(self).spec_padded(chunk_bounds), old(self).layer.chunk_size())
                    ==> final(self).layer.entry(i) == old(self).layer.entry(i),
    {
        let required = chunk_bounds.pad(self.padding);
        self.layer.release_bounds(required)
    }

    /// The chunk currently resident for `index`, without computing anything.
    pub fn get(&self, index: &Point2d) -> (r: Option<&L::Chunk>)
        requires
            self.wf(),
            index.wf(),
        ensures
            match r {
                Some(c) => self.layer.entry(*index) is Some
                    && c@ == self.layer.entry(*index)->Some_0.0,
                None => self.layer.entry(*index) is None,
            },
    {
        self.layer.get(index)
    }

    /// The covered chunk indices whose chunks are currently resident.
    pub fn get_range(&self, region: &Bounds) -> (r: Vec<Point2d>)
        requires
            self.wf(),
            self.layer.region_admissible(*region),
        ensures
            forall|i: Point2d|
                r@.contains(i) <==> spec_covered(i, *region, self.layer.chunk_size())
                    && self.layer.entry(i) is Some,
            forall|m: int, n: int| 0 <= m < n < r@.len() ==> vec2::lex_lt(r@[m], r@[n]),
    {
        self.layer.get_range(region)
    }

    /// Force the single chunk `index` to be materialized (with one more
    /// reference): the single-chunk variant of `ensure_loaded_in_bounds`.
    pub fn get_or_compute(&mut self, index: &Point2d) -> (r: Result<(), LayerError>)
        requires
            old(self).wf(),
            index_ok(*index, old(self).layer.chunk_size()),
            size_ok(old(self).layer.chunk_size()),
            old(self).layer.region_admissible(
                spec_chunk_bounds(*index, old(self).layer.chunk_size())),
        ensures
            final(self).padding == old(self).padding,
            final(self).wf(),
            final(self).layer.chunk_size() == old(self).layer.chunk_size(),
            forall|i: Point2d| final(self).layer.payload_view(i) == old(self).layer.payload_view(i),
            forall|b: Bounds|
                final(self).layer.region_admissible(b) == old(self).layer.region_admissible(b),
            r is Ok <==> old(self).layer.ensure_ok(
                spec_chunk_bounds(*index, old(self).layer.chunk_size())),
            r is Ok ==> final(self).layer.entry(*index)
                == Some((old(self).layer.payload_view(*index), match old(self).layer.entry(*index) {
                    Some(e) => (e.1 + 1) as u32,
                    None => 1u32,
                })),
            forall|i: Point2d|
                i != *index ==> final(self).layer.entry(i) == old(self).layer.entry(i)
                    || (final(self).layer.entry(i) is None && old(self).layer.entry(i)->Some_0.1 == 0),
    {
        let size = self.layer.chunk_size_runtime();
        proof {
            lemma_chunk_bounds_covered(*index, old(self).layer.chunk_size());
        }
        let region = chunk_bounds(index, size);
        let r = self.layer.ensure_loaded_in_bounds(region);
        proof {
            assert(spec_covered(*index, spec_chunk_bounds(*index, old(self).layer.chunk_size()),
                old(self).layer.chunk_size()));
        }
        r
    }
}

} // verus!
