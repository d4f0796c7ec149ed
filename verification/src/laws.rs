//! The cross-function guarantees of the cache machinery, stated and proved
//! once and for all callers.

use vstd::prelude::*;

use crate::{Layer, LayerError};
use crate::uniform_points::{UniformPointsLayer, points_for};
use crate::vec2::{Bounds, Point2d, spec_covered};

verus! {

/// Determinism: the content of a chunk depends only on the layer
/// configuration and the chunk index, never on the cache state, so two
/// layers configured alike produce identical payloads for every index.
pub proof fn lemma_payload_deterministic(
    l1: UniformPointsLayer,
    l2: UniformPointsLayer,
    index: Point2d,
)
    requires
        l1.size == l2.size,
        l1.salt == l2.salt,
        l1.radius == l2.radius,
    ensures
        l1.payload_view(index) == l2.payload_view(index),
{
}

/// Idempotent load: loading the same region twice leaves every covered
/// chunk resident with its unchanged deterministic payload and a refcount
/// exactly two higher than before the first load.
pub fn ensure_loaded_twice<L: Layer>(layer: &mut L, region: Bounds) -> (r: Result<(), LayerError>)
    requires
        old(layer).wf(),
        old(layer).region_admissible(region),
    ensures
        final(layer).wf(),
        final(layer).chunk_size() == old(layer).chunk_size(),
        forall|i: Point2d| final(layer).payload_view(i) == old(layer).payload_view(i),
        r is Ok ==> forall|i: Point2d|
            #[trigger] spec_covered(i, region, old(layer).chunk_size()) ==> final(layer).entry(i)
                == Some((old(layer).payload_view(i), match old(layer).entry(i) {
                    Some(e) => (((e.1 + 1) as u32) + 1) as u32,
                    None => 2u32,
                })),
{
    let r1 = layer.ensure_loaded_in_bounds(region);
    match r1 {
        Err(e) => Err(e),
        Ok(()) => {
            let ghost mid = *layer;
            let r2 = layer.ensure_loaded_in_bounds(region);
            proof {
                if r2 is Ok {
                    assert forall|i: Point2d|
                        #[trigger] spec_covered(i, region, old(layer).chunk_size())
                        implies layer.entry(i)
                            == Some((old(layer).payload_view(i), match old(layer).entry(i) {
                                Some(e) => (((e.1 + 1) as u32) + 1) as u32,
                                None => 2u32,
                            })) by {
                        assert(spec_covered(i, region, mid.chunk_size()));
                        assert(mid.entry(i) == Some((old(layer).payload_view(i),
                            match old(layer).entry(i) {
                                Some(e) => (e.1 + 1) as u32,
                                None => 1u32,
                            })));
                    }
                }
            }
            r2
        },
    }
}

/// Paired release: a load of a region followed by a release of the same
/// region returns every covered chunk to its prior refcount (an evicted
/// refcount-zero occupant counts as refcount zero), with the deterministic
/// payload resident, and leaves any chunk outside the region untouched
/// except for such evictions.
pub fn ensure_then_release(layer: &mut UniformPointsLayer, region: Bounds) -> (r: Result<(),
    LayerError>)
    requires
        old(layer).wf(),
        old(layer).region_admissible(region),
    ensures
        final(layer).wf(),
        final(layer).size == old(layer).size,
        forall|i: Point2d| final(layer).payload_view(i) == old(layer).payload_view(i),
        r is Ok <==> old(layer).ensure_ok(region),
        r is Ok ==> forall|i: Point2d|
            #[trigger] spec_covered(i, region, old(layer).size) ==> final(layer).entry(i)
                == Some((old(layer).payload_view(i), match old(layer).entry(i) {
                    Some(e) => e.1,
                    None => 0u32,
                })),
        r is Ok ==> forall|i: Point2d|
            !spec_covered(i, region, old(layer).size)
                ==> final(layer).entry(i) == old(layer).entry(i)
                    || (final(layer).entry(i) is None && old(layer).entry(i)->Some_0.1 == 0),
{
    let r1 = layer.ensure_loaded_in_bounds(region);
    match r1 {
        Err(e) => Err(e),
        Ok(()) => {
            let ghost mid = *layer;
            proof {
                // every covered chunk is resident with a positive refcount,
                // because the load succeeded only on a compatible ring
                assert forall|i: Point2d| #[trigger] spec_covered(i, region, mid.size)
                    implies mid.entry(i) is Some && mid.entry(i)->Some_0.1 >= 1 by {
                    assert(spec_covered(i, region, old(layer).chunk_size()));
                    assert(old(layer).load_compat(region));
                    match old(layer).entry(i) {
                        Some(e) => {
                            assert(old(layer).grid.raw_at(i)->Some_0.index == i);
                            assert(e.1 < u32::MAX);
                        },
                        None => {},
                    }
                }
                assert(mid.release_ok(region));
            }
            layer.release_bounds(region);
            proof {
                assert forall|i: Point2d| #[trigger] spec_covered(i, region, old(layer).size)
                    implies layer.entry(i)
                        == Some((old(layer).payload_view(i), match old(layer).entry(i) {
                            Some(e) => e.1,
                            None => 0u32,
                        })) by {
                    assert(spec_covered(i, region, mid.chunk_size()));
                    assert(old(layer).load_compat(region));
                    match old(layer).entry(i) {
                        Some(e) => {
                            assert(old(layer).grid.raw_at(i)->Some_0.index == i);
                            assert(e.1 < u32::MAX);
                        },
                        None => {},
                    }
                }
            }
            Ok(())
        },
    }
}

/// Cache consistency, as a statement of its own: whatever is resident for
/// an index in a well-formed layer is exactly the deterministic payload.
pub proof fn lemma_cache_consistency(layer: UniformPointsLayer, index: Point2d)
    requires
        layer.wf(),
        layer.entry(index) is Some,
    ensures
        layer.entry(index)->Some_0.0 == points_for(layer.salt, layer.size, layer.radius, index),
{
}

} // verus!
