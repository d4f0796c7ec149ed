//! The rolling grid: a bounded 2D ring buffer of reference-counted chunk
//! slots, keyed by chunk index modulo the ring extents.
//!
//! Conceptually the grid is a sparse map from chunk index to stored chunk.
//! A chunk with index `i` can only ever live in the slot
//! `(i.x mod W, i.y mod H)` (Euclidean modulus, so negative indices have
//! stable addresses). A slot whose refcount is zero may be overwritten by a
//! colliding index; a slot with a positive refcount is never overwritten —
//! a colliding insert is refused and reported as a ring overflow.

use vstd::prelude::*;

use crate::LayerError;
use crate::vec2::{Point2d, rem_euclid};

verus! {

/// One occupied slot of the ring: the chunk's index, its payload, and the
/// number of live load/release pairs that pin it.
pub struct StoredChunk<C> {
    pub index: Point2d,
    pub payload: C,
    pub refcount: u32,
}

/// The ring buffer itself: `width_x * width_y` optional slots in row-major
/// order, where the widths are the nominal grid extents scaled by the
/// overlap factor.
pub struct RollingGrid<C> {
    pub slots: Vec<Option<StoredChunk<C>>>,
    pub width_x: usize,
    pub width_y: usize,
}

/// Largest admissible ring extent per axis (8-bit grid size times 8-bit
/// overlap).
pub open spec fn ring_extent_ok(w: int) -> bool {
    1 <= w <= 0xFE01
}

impl<C> RollingGrid<C> {
    pub open spec fn spec_width_x(self) -> int {
        self.width_x as int
    }

    pub open spec fn spec_width_y(self) -> int {
        self.width_y as int
    }

    /// Well-formed: admissible extents, a slot vector of exactly
    /// `width_x * width_y` entries, and every occupied slot sits at the ring
    /// address of its own index. The last point makes chunk addresses
    /// unique: at most one slot of the ring ever holds a given index.
    pub open spec fn wf(self) -> bool {
        &&& ring_extent_ok(self.spec_width_x())
        &&& ring_extent_ok(self.spec_width_y())
        &&& self.slots@.len() == self.spec_width_x() * self.spec_width_y()
        &&& forall|s: int|
            0 <= s < self.slots@.len() && (#[trigger] self.slots@[s]) is Some
                ==> self.slot_of(self.slots@[s]->Some_0.index) == s
    }

    /// The ring address of chunk index `i`.
    pub open spec fn slot_of(self, i: Point2d) -> int {
        (i.y as int % self.spec_width_y()) * self.spec_width_x() + i.x as int % self.spec_width_x()
    }

    /// What the slot addressed by `i` holds, whether or not it belongs to `i`.
    pub open spec fn raw_at(self, i: Point2d) -> Option<StoredChunk<C>> {
        self.slots@[self.slot_of(i)]
    }

    /// The entry stored for index `i`: the slot at its ring address, if that
    /// slot currently belongs to exactly this index.
    pub open spec fn stored(self, i: Point2d) -> Option<StoredChunk<C>> {
        match self.raw_at(i) {
            Some(sc) => if sc.index == i {
                Some(sc)
            } else {
                None
            },
            None => None,
        }
    }

    /// The ring address is always a valid slot number.
    pub proof fn lemma_slot_in_range(self, i: Point2d)
        requires
            ring_extent_ok(self.spec_width_x()),
            ring_extent_ok(self.spec_width_y()),
        ensures
            0 <= self.slot_of(i) < self.spec_width_x() * self.spec_width_y(),
    {
        let wx = self.spec_width_x();
        let wy = self.spec_width_y();
        let rx = i.x as int % wx;
        let ry = i.y as int % wy;
        vstd::arithmetic::div_mod::lemma_mod_bound(i.x as int, wx);
        vstd::arithmetic::div_mod::lemma_mod_bound(i.y as int, wy);
        assert(0 <= ry * wx + rx < wx * wy) by (nonlinear_arith)
            requires
                0 <= rx < wx,
                0 <= ry < wy,
                1 <= wx,
                1 <= wy,
        {}
    }

    /// Address uniqueness: two indices with the same ring address cannot
    /// both be stored unless they are the same index, so at any moment at
    /// most one slot of the ring holds a given chunk index.
    pub proof fn lemma_address_unique(self, i: Point2d, j: Point2d)
        requires
            self.wf(),
            self.stored(i) is Some,
            self.stored(j) is Some,
            self.slot_of(i) == self.slot_of(j),
        ensures
            i == j,
    {
    }

    /// An empty ring with the given extents; every slot is vacant.
    pub fn new(width_x: usize, width_y: usize) -> (r: RollingGrid<C>)
        requires
            ring_extent_ok(width_x as int),
            ring_extent_ok(width_y as int),
        ensures
            r.wf(),
            r.spec_width_x() == width_x,
            r.spec_width_y() == width_y,
            forall|i: Point2d| r.stored(i) is None,
            forall|i: Point2d| r.raw_at(i) is None,
    {
        proof {
            assert(1 * 1 <= width_x as int * width_y as int <= 0xFE01 * 0xFE01) by (nonlinear_arith)
                requires
                    1 <= width_x as int <= 0xFE01,
                    1 <= width_y as int <= 0xFE01,
            {}
        }
        let n = width_x * width_y;
        let mut slots: Vec<Option<StoredChunk<C>>> = Vec::new();
        let mut k: usize = 0;
        while k < n
            invariant
                k <= n,
                slots@.len() == k,
                forall|s: int| 0 <= s < k ==> (#[trigger] slots@[s]) is None,
            decreases n - k,
        {
            slots.push(None);
            k = k + 1;
        }
        let r = RollingGrid { slots, width_x, width_y };
        proof {
            assert forall|i: Point2d| r.raw_at(i) is None by {
                r.lemma_slot_in_range(i);
            }
        }
        r
    }

    fn slot_index(&self, i: &Point2d) -> (s: usize)
        requires
            self.wf(),
            i64::MIN < i.x,
            i64::MIN < i.y,
        ensures
            s as int == self.slot_of(*i),
            s < self.slots@.len(),
    {
        let rx = rem_euclid(i.x, self.width_x as i64);
        let ry = rem_euclid(i.y, self.width_y as i64);
        proof {
            self.lemma_slot_in_range(*i);
            assert((ry as int) * (self.width_x as int) + (rx as int) < 0xFE01 * 0xFE01) by (nonlinear_arith)
                requires
                    0 <= (rx as int) < (self.width_x as int) <= 0xFE01,
                    0 <= (ry as int) < (self.width_y as int) <= 0xFE01,
            {}
        }
        (ry as usize) * self.width_x + rx as usize
    }

    /// The payload stored for `i`, if the slot at its ring address currently
    /// belongs to `i`.
    pub fn get(&self, i: &Point2d) -> (r: Option<&C>)
        requires
            self.wf(),
            i64::MIN < i.x,
            i64::MIN < i.y,
        ensures
            match r {
                Some(c) => self.stored(*i) is Some && *c == self.stored(*i)->Some_0.payload,
                None => self.stored(*i) is None,
            },
    {
        let s = self.slot_index(i);
        match &self.slots[s] {
            Some(sc) => if sc.index.x == i.x && sc.index.y == i.y {
                Some(&sc.payload)
            } else {
                None
            },
            None => None,
        }
    }

    /// The whole stored entry for `i` (payload and refcount).
    pub fn get_entry(&self, i: &Point2d) -> (r: Option<&StoredChunk<C>>)
        requires
            self.wf(),
            i64::MIN < i.x,
            i64::MIN < i.y,
        ensures
            match r {
                Some(sc) => self.stored(*i) == Some(*sc),
                None => self.stored(*i) is None,
            },
    {
        let s = self.slot_index(i);
        match &self.slots[s] {
            Some(sc) => if sc.index.x == i.x && sc.index.y == i.y {
                Some(sc)
            } else {
                None
            },
            None => None,
        }
    }

    /// Insert a freshly computed chunk for `i` with refcount 1.
    ///
    /// The write goes to the ring address of `i`. If that slot holds an
    /// entry whose refcount is still positive, the insert is refused before
    /// any mutation and reported as a ring overflow; a vacant slot or one
    /// whose refcount reached zero is (re)used, evicting the old entry.
    pub fn set(&mut self, i: Point2d, payload: C) -> (r: Result<(), LayerError>)
        requires
            old(self).wf(),
            i64::MIN < i.x,
            i64::MIN < i.y,
        ensures
            final(self).wf(),
            final(self).spec_width_x() == old(self).spec_width_x(),
            final(self).spec_width_y() == old(self).spec_width_y(),
            match r {
                Ok(()) => {
                    &&& (old(self).raw_at(i) is None || old(self).raw_at(i)->Some_0.refcount == 0)
                    &&& final(self).stored(i) == Some(StoredChunk { index: i, payload, refcount: 1u32 })
                    &&& forall|j: Point2d|
                        old(self).slot_of(j) != old(self).slot_of(i)
                            ==> #[trigger] final(self).raw_at(j) == old(self).raw_at(j)
                    &&& forall|j: Point2d|
                        j != i && old(self).slot_of(j) == old(self).slot_of(i)
                            ==> #[trigger] final(self).stored(j) is None
                },
                Err(e) => {
                    &&& e == LayerError::RingOverflow
                    &&& old(self).raw_at(i) is Some
                    &&& old(self).raw_at(i)->Some_0.refcount > 0
                    &&& *final(self) == *old(self)
                },
            },
    {
        let s = self.slot_index(&i);
        let occupied_live = match &self.slots[s] {
            Some(sc) => sc.refcount > 0,
            None => false,
        };
        if occupied_live {
            return Err(LayerError::RingOverflow);
        }
        self.slots.set(s, Some(StoredChunk { index: i, payload, refcount: 1 }));
        proof {
            assert forall|j: Point2d| self.slot_of(j) != self.slot_of(i) implies #[trigger] self.raw_at(j)
                == old(self).raw_at(j) by {
                old(self).lemma_slot_in_range(j);
            }
        }
        Ok(())
    }

    /// Record one more live user of the chunk stored for `i`.
    pub fn incref(&mut self, i: Point2d)
        requires
            old(self).wf(),
            old(self).stored(i) is Some,
            old(self).stored(i)->Some_0.refcount < u32::MAX,
            i64::MIN < i.x,
            i64::MIN < i.y,
        ensures
            final(self).wf(),
            final(self).spec_width_x() == old(self).spec_width_x(),
            final(self).spec_width_y() == old(self).spec_width_y(),
            final(self).stored(i) == Some(StoredChunk {
                refcount: (old(self).stored(i)->Some_0.refcount + 1) as u32,
                ..old(self).stored(i)->Some_0
            }),
            forall|j: Point2d|
                old(self).slot_of(j) != old(self).slot_of(i)
                    ==> #[trigger] final(self).raw_at(j) == old(self).raw_at(j),
            forall|j: Point2d| j != i ==> #[trigger] final(self).stored(j) == old(self).stored(j),
    {
        let s = self.slot_index(&i);
        let entry = self.slots.remove(s);
        let ghost removed = entry;
        match entry {
            Some(sc) => {
                let new_entry = StoredChunk { refcount: sc.refcount + 1, ..sc };
                self.slots.insert(s, Some(new_entry));
                proof {
                    assert(self.slots@ =~= old(self).slots@.update(s as int, self.slots@[s as int]));
                    assert forall|j: Point2d| self.slot_of(j) != self.slot_of(i) implies #[trigger] self.raw_at(j)
                        == old(self).raw_at(j) by {
                        old(self).lemma_slot_in_range(j);
                    }
                    assert forall|j: Point2d| j != i implies #[trigger] self.stored(j) == old(self).stored(j) by {
                        old(self).lemma_slot_in_range(j);
                        if self.slot_of(j) == self.slot_of(i) {
                            assert(old(self).raw_at(j) == removed);
                        }
                    }
                }
            },
            None => {
                proof {
                    assert(false);
                }
            },
        }
    }

    /// Record that one live user of the chunk stored for `i` released it.
    /// At refcount zero the entry stays resident but becomes evictable.
    pub fn decref(&mut self, i: Point2d)
        requires
            old(self).wf(),
            old(self).stored(i) is Some,
            old(self).stored(i)->Some_0.refcount >= 1,
            i64::MIN < i.x,
            i64::MIN < i.y,
        ensures
            final(self).wf(),
            final(self).spec_width_x() == old(self).spec_width_x(),
            final(self).spec_width_y() == old(self).spec_width_y(),
            final(self).stored(i) == Some(StoredChunk {
                refcount: (old(self).stored(i)->Some_0.refcount - 1) as u32,
                ..old(self).stored(i)->Some_0
            }),
            forall|j: Point2d|
                old(self).slot_of(j) != old(self).slot_of(i)
                    ==> #[trigger] final(self).raw_at(j) == old(self).raw_at(j),
            forall|j: Point2d| j != i ==> #[trigger] final(self).stored(j) == old(self).stored(j),
    {
        let s = self.slot_index(&i);
        let entry = self.slots.remove(s);
        let ghost removed = entry;
        match entry {
            Some(sc) => {
                let new_entry = StoredChunk { refcount: sc.refcount - 1, ..sc };
                self.slots.insert(s, Some(new_entry));
                proof {
                    assert(self.slots@ =~= old(self).slots@.update(s as int, self.slots@[s as int]));
                    assert forall|j: Point2d| self.slot_of(j) != self.slot_of(i) implies #[trigger] self.raw_at(j)
                        == old(self).raw_at(j) by {
                        old(self).lemma_slot_in_range(j);
                    }
                    assert forall|j: Point2d| j != i implies #[trigger] self.stored(j) == old(self).stored(j) by {
                        old(self).lemma_slot_in_range(j);
                        if self.slot_of(j) == self.slot_of(i) {
                            assert(old(self).raw_at(j) == removed);
                        }
                    }
                }
            },
            None => {
                proof {
                    assert(false);
                }
            },
        }
    }
}

} // verus!
