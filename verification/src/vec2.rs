//! Integer vector and rectangle algebra for the chunked world plane.
//!
//! World coordinates are signed 64-bit integers. [`Bounds`] is a half-open
//! axis-aligned rectangle `[min, max)`. Chunk indices are derived from world
//! coordinates by Euclidean division, so negative coordinates map to stable
//! chunk indices (`(-1).div_euclid(w) == -1`, `(-1).rem_euclid(w) == w - 1`).

use vstd::prelude::*;

verus! {

/// Coordinates handed to the layer machinery must stay within this margin so
/// that padding, chunk-size and distance arithmetic cannot overflow `i64`.
pub const COORD_LIMIT: i64 = 0x100_0000_0000_0000;

/// The largest coordinate a region may reach after all dependency padding
/// has been applied; regions quantized into chunks stay within it.
pub const REGION_LIMIT: i64 = COORD_LIMIT + 0xD_0000;

/// The margin that well-formed points and rectangles stay within: room for
/// chunk corners of quantized regions plus one more padding step.
pub const QUANT_LIMIT: i64 = REGION_LIMIT + 0x3_0000;

/// Largest admissible chunk extent per axis (chunk sizes are 16-bit non-zero).
pub const MAX_CHUNK_SIZE: i64 = 0xFFFF;

/// Largest admissible exclusion radius of a point.
pub const MAX_RADIUS: i64 = 0xFFFF;

/// A point (or vector) of the integer world plane.
#[derive(Clone, Copy, PartialEq, Eq, Structural, Debug, Hash)]
pub struct Point2d {
    pub x: i64,
    pub y: i64,
}

/// True iff the coordinate is within the user-facing working margin.
pub open spec fn coord_ok(c: int) -> bool {
    -COORD_LIMIT <= c <= COORD_LIMIT
}

/// True iff the coordinate is admissible for chunk quantization.
pub open spec fn coord_r(c: int) -> bool {
    -REGION_LIMIT <= c <= REGION_LIMIT
}

/// True iff the coordinate is within the widest internal margin.
pub open spec fn coord_q(c: int) -> bool {
    -QUANT_LIMIT <= c <= QUANT_LIMIT
}

/// A slightly wider margin: coordinates of padded regions and of chunk
/// corners stay within it, and distance arithmetic still cannot overflow.
pub open spec fn coord_wide(c: int) -> bool {
    -2 * COORD_LIMIT <= c <= 2 * COORD_LIMIT
}

impl Point2d {
    pub open spec fn wf(self) -> bool {
        coord_q(self.x as int) && coord_q(self.y as int)
    }

    pub fn new(x: i64, y: i64) -> (r: Point2d)
        ensures
            r.x == x,
            r.y == y,
    {
        Point2d { x, y }
    }

    /// The point `(v, v)`.
    pub fn splat(v: i64) -> (r: Point2d)
        ensures
            r.x == v,
            r.y == v,
    {
        Point2d { x: v, y: v }
    }

    /// Manhattan distance between two points.
    pub open spec fn spec_manhattan_dist(self, other: Point2d) -> int {
        abs_int(self.x - other.x) + abs_int(self.y - other.y)
    }

    pub fn manhattan_dist(&self, other: &Point2d) -> (r: i64)
        requires
            coord_wide(self.x as int),
            coord_wide(self.y as int),
            coord_wide(other.x as int),
            coord_wide(other.y as int),
        ensures
            r as int == self.spec_manhattan_dist(*other),
    {
        abs_i64(self.x - other.x) + abs_i64(self.y - other.y)
    }

    /// Squared Euclidean distance, computed exactly in 128-bit arithmetic.
    pub open spec fn spec_dist_squared(self, other: Point2d) -> int {
        (self.x - other.x) * (self.x - other.x) + (self.y - other.y) * (self.y - other.y)
    }

    pub fn dist_squared(&self, other: &Point2d) -> (r: i128)
        requires
            coord_wide(self.x as int),
            coord_wide(self.y as int),
            coord_wide(other.x as int),
            coord_wide(other.y as int),
        ensures
            r as int == self.spec_dist_squared(*other),
    {
        let dx: i128 = self.x as i128 - other.x as i128;
        let dy: i128 = self.y as i128 - other.y as i128;
        assert(0 <= dx * dx <= 16 * (COORD_LIMIT as int) * (COORD_LIMIT as int)
            && 0 <= dy * dy <= 16 * (COORD_LIMIT as int) * (COORD_LIMIT as int)) by (nonlinear_arith)
            requires
                -4 * COORD_LIMIT <= dx <= 4 * COORD_LIMIT,
                -4 * COORD_LIMIT <= dy <= 4 * COORD_LIMIT,
        {}
        dx * dx + dy * dy
    }
}

pub open spec fn abs_int(v: int) -> int {
    if v < 0 {
        -v
    } else {
        v
    }
}

fn abs_i64(v: i64) -> (r: i64)
    requires
        i64::MIN < v,
    ensures
        r as int == abs_int(v as int),
{
    if v < 0 {
        -v
    } else {
        v
    }
}

/// A half-open axis-aligned rectangle `[min, max)` with `min <= max`
/// componentwise. A degenerate axis (`min == max`) is treated by the chunk
/// quantization as the single coordinate `min`, i.e. as `[min, min + 1)`.
#[derive(Clone, Copy, PartialEq, Eq, Structural, Debug)]
pub struct Bounds {
    pub min: Point2d,
    pub max: Point2d,
}

impl Bounds {
    pub open spec fn wf(self) -> bool {
        &&& self.min.wf()
        &&& self.max.wf()
        &&& self.min.x <= self.max.x
        &&& self.min.y <= self.max.y
    }

    pub fn new(min: Point2d, max: Point2d) -> (r: Bounds)
        ensures
            r.min == min,
            r.max == max,
    {
        Bounds { min, max }
    }

    /// The 1x1 region that contains exactly `p`.
    pub fn point(p: Point2d) -> (r: Bounds)
        ensures
            r.min == p,
            r.max == p,
    {
        Bounds { min: p, max: p }
    }

    /// The effective exclusive maximum on the x axis: a degenerate axis
    /// stands for the single coordinate `min`.
    pub open spec fn spec_eff_max_x(self) -> int {
        if self.min.x == self.max.x {
            self.min.x + 1
        } else {
            self.max.x as int
        }
    }

    pub open spec fn spec_eff_max_y(self) -> int {
        if self.min.y == self.max.y {
            self.min.y + 1
        } else {
            self.max.y as int
        }
    }

    /// True iff `p` lies inside the (effective) region.
    pub open spec fn spec_contains(self, p: Point2d) -> bool {
        &&& self.min.x <= p.x < self.spec_eff_max_x()
        &&& self.min.y <= p.y < self.spec_eff_max_y()
    }

    pub fn contains(&self, p: &Point2d) -> (r: bool)
        requires
            self.wf(),
            p.wf(),
        ensures
            r == self.spec_contains(*p),
    {
        let eff_x = if self.min.x == self.max.x { self.max.x + 1 } else { self.max.x };
        let eff_y = if self.min.y == self.max.y { self.max.y + 1 } else { self.max.y };
        self.min.x <= p.x && p.x < eff_x && self.min.y <= p.y && p.y < eff_y
    }

    /// Grow the region by `amount` world units on every side.
    pub open spec fn spec_pad(self, amount: Point2d) -> Bounds {
        Bounds {
            min: Point2d { x: (self.min.x - amount.x) as i64, y: (self.min.y - amount.y) as i64 },
            max: Point2d { x: (self.max.x + amount.x) as i64, y: (self.max.y + amount.y) as i64 },
        }
    }

    pub fn pad(&self, amount: Point2d) -> (r: Bounds)
        requires
            self.wf(),
            0 <= amount.x,
            0 <= amount.y,
            coord_q(self.min.x - amount.x),
            coord_q(self.max.x + amount.x),
            coord_q(self.min.y - amount.y),
            coord_q(self.max.y + amount.y),
        ensures
            r == self.spec_pad(amount),
            r.wf(),
    {
        Bounds {
            min: Point2d { x: self.min.x - amount.x, y: self.min.y - amount.y },
            max: Point2d { x: self.max.x + amount.x, y: self.max.y + amount.y },
        }
    }

    /// The midpoint of the region (componentwise, rounding down).
    pub open spec fn spec_center(self) -> Point2d {
        Point2d {
            x: (self.min.x + (self.spec_eff_max_x() - self.min.x) / 2) as i64,
            y: (self.min.y + (self.spec_eff_max_y() - self.min.y) / 2) as i64,
        }
    }

    pub fn center(&self) -> (r: Point2d)
        requires
            self.wf(),
        ensures
            r == self.spec_center(),
            r.wf(),
    {
        let eff_x = if self.min.x == self.max.x { self.max.x + 1 } else { self.max.x };
        let eff_y = if self.min.y == self.max.y { self.max.y + 1 } else { self.max.y };
        let dx = ((eff_x - self.min.x) as u64) / 2;
        let dy = ((eff_y - self.min.y) as u64) / 2;
        Point2d { x: self.min.x + dx as i64, y: self.min.y + dy as i64 }
    }
}

/// True iff `size` is an admissible chunk extent (non-zero, 16-bit).
pub open spec fn size_ok(size: Point2d) -> bool {
    &&& 1 <= size.x <= MAX_CHUNK_SIZE
    &&& 1 <= size.y <= MAX_CHUNK_SIZE
}

/// Floor division of a world coordinate by a chunk extent (Euclidean:
/// rounds toward negative infinity, so `-1 / w` is `-1`).
pub fn div_floor(a: i64, b: i64) -> (r: i64)
    requires
        1 <= b,
        i64::MIN < a,
    ensures
        r as int == a as int / b as int,
{
    proof {
        lemma_div_bounds(a as int, b as int);
    }
    let q = a.checked_div_euclid(b);
    q.unwrap()
}

/// Division by a positive number moves the value toward zero:
/// the quotient stays between `a` and `0`.
pub proof fn lemma_div_bounds(a: int, b: int)
    requires
        1 <= b,
    ensures
        a <= 0 ==> a <= a / b <= 0,
        0 <= a ==> 0 <= a / b <= a,
{
    vstd::arithmetic::div_mod::lemma_fundamental_div_mod(a, b);
    let q = a / b;
    let r = a % b;
    vstd::arithmetic::div_mod::lemma_mod_bound(a, b);
    assert((a <= 0 ==> a <= q <= 0) && (0 <= a ==> 0 <= q <= a)) by (nonlinear_arith)
        requires
            a == b * q + r,
            0 <= r < b,
            1 <= b,
    {}
}

/// Euclidean remainder of a chunk index by a ring extent: always in
/// `[0, b)`, so `(-1) mod b` is `b - 1`.
pub fn rem_euclid(a: i64, b: i64) -> (r: i64)
    requires
        1 <= b,
        i64::MIN < a,
    ensures
        r as int == a as int % b as int,
        0 <= r < b,
{
    let r = a.checked_rem_euclid(b);
    proof {
        vstd::arithmetic::div_mod::lemma_mod_bound(a as int, b as int);
    }
    r.unwrap()
}

/// First chunk index (inclusive) of the region on the x axis.
pub open spec fn covered_lo_x(region: Bounds, size: Point2d) -> int {
    region.min.x as int / size.x as int
}

/// Last chunk index (inclusive) of the region on the x axis: the chunk that
/// contains the region's last world column.
pub open spec fn covered_hi_x(region: Bounds, size: Point2d) -> int {
    (region.spec_eff_max_x() - 1) / size.x as int
}

pub open spec fn covered_lo_y(region: Bounds, size: Point2d) -> int {
    region.min.y as int / size.y as int
}

pub open spec fn covered_hi_y(region: Bounds, size: Point2d) -> int {
    (region.spec_eff_max_y() - 1) / size.y as int
}

/// True iff the world bounds of chunk `i` intersect the (effective) region:
/// the chunk indices whose chunks a load of the region must touch.
pub open spec fn spec_covered(i: Point2d, region: Bounds, size: Point2d) -> bool {
    &&& covered_lo_x(region, size) <= i.x as int <= covered_hi_x(region, size)
    &&& covered_lo_y(region, size) <= i.y as int <= covered_hi_y(region, size)
}

/// How many chunk columns the region touches.
pub open spec fn axis_count_x(region: Bounds, size: Point2d) -> int {
    covered_hi_x(region, size) - covered_lo_x(region, size) + 1
}

pub open spec fn axis_count_y(region: Bounds, size: Point2d) -> int {
    covered_hi_y(region, size) - covered_lo_y(region, size) + 1
}

/// A region a layer is willing to quantize: well formed, within the
/// region margin, and touching at most `0xFFFF` chunks per axis.
pub open spec fn region_ok(region: Bounds, size: Point2d) -> bool {
    &&& region.min.x <= region.max.x
    &&& region.min.y <= region.max.y
    &&& coord_r(region.min.x as int)
    &&& coord_r(region.min.y as int)
    &&& coord_r(region.max.x as int)
    &&& coord_r(region.max.y as int)
    &&& size_ok(size)
    &&& axis_count_x(region, size) <= 0xFFFF
    &&& axis_count_y(region, size) <= 0xFFFF
}

/// Strict lexicographic order on chunk indices, the tie-breaker of the
/// center-out load order.
pub open spec fn lex_lt(a: Point2d, b: Point2d) -> bool {
    a.y < b.y || (a.y == b.y && a.x < b.x)
}

/// A chunk index whose world corner arithmetic stays within the wide
/// coordinate margin. All indices a quantized region yields satisfy it.
pub open spec fn index_ok(i: Point2d, size: Point2d) -> bool {
    &&& i.wf()
    &&& -REGION_LIMIT - MAX_CHUNK_SIZE <= i.x as int * size.x as int
    &&& i.x as int * size.x as int + size.x as int <= REGION_LIMIT + MAX_CHUNK_SIZE
    &&& -REGION_LIMIT - MAX_CHUNK_SIZE <= i.y as int * size.y as int
    &&& i.y as int * size.y as int + size.y as int <= REGION_LIMIT + MAX_CHUNK_SIZE
}

/// Every chunk index a well-formed region touches is itself in range.
pub proof fn lemma_covered_range(region: Bounds, size: Point2d)
    requires
        region.min.x <= region.max.x,
        region.min.y <= region.max.y,
        coord_r(region.min.x as int),
        coord_r(region.min.y as int),
        coord_r(region.max.x as int),
        coord_r(region.max.y as int),
        size_ok(size),
    ensures
        covered_lo_x(region, size) <= covered_hi_x(region, size),
        covered_lo_y(region, size) <= covered_hi_y(region, size),
        -REGION_LIMIT <= covered_lo_x(region, size),
        covered_hi_x(region, size) <= REGION_LIMIT,
        -REGION_LIMIT <= covered_lo_y(region, size),
        covered_hi_y(region, size) <= REGION_LIMIT,
        forall|i: Point2d| #[trigger] spec_covered(i, region, size) ==> index_ok(i, size),
{
    let sx = size.x as int;
    let sy = size.y as int;
    vstd::arithmetic::div_mod::lemma_div_is_ordered(region.min.x as int, region.spec_eff_max_x() - 1, sx);
    vstd::arithmetic::div_mod::lemma_div_is_ordered(region.min.y as int, region.spec_eff_max_y() - 1, sy);
    lemma_div_bounds(region.min.x as int, sx);
    lemma_div_bounds(region.spec_eff_max_x() - 1, sx);
    lemma_div_bounds(region.min.y as int, sy);
    lemma_div_bounds(region.spec_eff_max_y() - 1, sy);
    let lox = covered_lo_x(region, size);
    let hix = covered_hi_x(region, size);
    let loy = covered_lo_y(region, size);
    let hiy = covered_hi_y(region, size);
    vstd::arithmetic::div_mod::lemma_fundamental_div_mod(region.min.x as int, sx);
    vstd::arithmetic::div_mod::lemma_mod_bound(region.min.x as int, sx);
    vstd::arithmetic::div_mod::lemma_fundamental_div_mod(region.spec_eff_max_x() - 1, sx);
    vstd::arithmetic::div_mod::lemma_mod_bound(region.spec_eff_max_x() - 1, sx);
    vstd::arithmetic::div_mod::lemma_fundamental_div_mod(region.min.y as int, sy);
    vstd::arithmetic::div_mod::lemma_mod_bound(region.min.y as int, sy);
    vstd::arithmetic::div_mod::lemma_fundamental_div_mod(region.spec_eff_max_y() - 1, sy);
    vstd::arithmetic::div_mod::lemma_mod_bound(region.spec_eff_max_y() - 1, sy);
    assert(lox * sx > region.min.x - sx);
    assert(hix * sx <= region.spec_eff_max_x() - 1);
    assert forall|i: Point2d| #[trigger] spec_covered(i, region, size) implies index_ok(i, size) by {
        vstd::arithmetic::mul::lemma_mul_inequality(lox, i.x as int, sx);
        vstd::arithmetic::mul::lemma_mul_inequality(i.x as int, hix, sx);
        vstd::arithmetic::mul::lemma_mul_inequality(loy, i.y as int, sy);
        vstd::arithmetic::mul::lemma_mul_inequality(i.y as int, hiy, sy);
    }
}

/// All chunk indices the region touches, in raster order (row by row,
/// ascending `y`, then ascending `x`): strictly sorted lexicographically,
/// hence free of duplicates.
pub fn chunk_indices(region: &Bounds, size: Point2d) -> (r: Vec<Point2d>)
    requires
        region_ok(*region, size),
    ensures
        forall|i: Point2d| r@.contains(i) <==> spec_covered(i, *region, size),
        forall|m: int, n: int| 0 <= m < n < r@.len() ==> lex_lt(r@[m], r@[n]),
        forall|m: int| 0 <= m < r@.len() ==> index_ok(#[trigger] r@[m], size),
{
    proof {
        lemma_covered_range(*region, size);
    }
    let eff_x = if region.min.x == region.max.x { region.max.x + 1 } else { region.max.x };
    let eff_y = if region.min.y == region.max.y { region.max.y + 1 } else { region.max.y };
    let lo_x = div_floor(region.min.x, size.x);
    let hi_x = div_floor(eff_x - 1, size.x);
    let lo_y = div_floor(region.min.y, size.y);
    let hi_y = div_floor(eff_y - 1, size.y);
    let mut r: Vec<Point2d> = Vec::new();
    let mut iy = lo_y;
    while iy <= hi_y
        invariant
            lo_y <= iy <= hi_y + 1,
            lo_x as int == covered_lo_x(*region, size),
            hi_x as int == covered_hi_x(*region, size),
            lo_y as int == covered_lo_y(*region, size),
            hi_y as int == covered_hi_y(*region, size),
            lo_x <= hi_x,
            -REGION_LIMIT <= lo_x,
            hi_x <= REGION_LIMIT,
            -REGION_LIMIT <= lo_y,
            hi_y <= REGION_LIMIT,
            forall|i: Point2d| spec_covered(i, *region, size) ==> index_ok(i, size),
            forall|i: Point2d| r@.contains(i) <==> (spec_covered(i, *region, size) && i.y < iy),
            forall|m: int, n: int| 0 <= m < n < r@.len() ==> lex_lt(r@[m], r@[n]),
            forall|m: int| 0 <= m < r@.len() ==> (#[trigger] r@[m]).y < iy,
            forall|m: int| 0 <= m < r@.len() ==> index_ok(#[trigger] r@[m], size),
        decreases hi_y - iy + 1,
    {
        let mut ix = lo_x;
        while ix <= hi_x
            invariant
                lo_x <= ix <= hi_x + 1,
                lo_y <= iy <= hi_y,
                lo_x as int == covered_lo_x(*region, size),
                hi_x as int == covered_hi_x(*region, size),
                lo_y as int == covered_lo_y(*region, size),
                hi_y as int == covered_hi_y(*region, size),
                -REGION_LIMIT <= lo_x,
                hi_x <= REGION_LIMIT,
                -REGION_LIMIT <= lo_y,
                hi_y <= REGION_LIMIT,
                forall|i: Point2d| spec_covered(i, *region, size) ==> index_ok(i, size),
                forall|i: Point2d| r@.contains(i) <==> (spec_covered(i, *region, size) && (i.y < iy || (i.y == iy && i.x < ix))),
                forall|m: int, n: int| 0 <= m < n < r@.len() ==> lex_lt(r@[m], r@[n]),
                forall|m: int| 0 <= m < r@.len() ==> ((#[trigger] r@[m]).y < iy || (r@[m].y == iy && r@[m].x < ix)),
                forall|m: int| 0 <= m < r@.len() ==> index_ok(#[trigger] r@[m], size),
            decreases hi_x - ix + 1,
        {
            let p = Point2d { x: ix, y: iy };
            let ghost old_r = r@;
            r.push(p);
            proof {
                assert(r@ == old_r.push(p));
                assert forall|i: Point2d| r@.contains(i) implies (spec_covered(i, *region, size) && (i.y < iy || (i.y == iy && i.x < ix + 1))) by {
                    if i != p {
                        let n = choose|n: int| 0 <= n < r@.len() && r@[n] == i;
                        assert(old_r[n] == i);
                        assert(old_r.contains(i));
                    }
                }
                assert forall|i: Point2d| (spec_covered(i, *region, size) && (i.y < iy || (i.y == iy && i.x < ix + 1))) implies r@.contains(i) by {
                    if i == p {
                        assert(r@[r@.len() - 1] == i);
                    } else {
                        assert(old_r.contains(i));
                        let n = choose|n: int| 0 <= n < old_r.len() && old_r[n] == i;
                        assert(r@[n] == i);
                    }
                }
            }
            ix = ix + 1;
        }
        iy = iy + 1;
    }
    r
}

/// The squared distance from the minimum corner of chunk `i` to `center`:
/// the primary key of the center-out load order.
pub open spec fn center_key(i: Point2d, center: Point2d, size: Point2d) -> int {
    let corner = Point2d { x: (i.x * size.x) as i64, y: (i.y * size.y) as i64 };
    corner.spec_dist_squared(center)
}

/// Strict center-out order: nearer chunks first, ties broken
/// lexicographically by index.
pub open spec fn center_out_lt(a: Point2d, b: Point2d, center: Point2d, size: Point2d) -> bool {
    center_key(a, center, size) < center_key(b, center, size)
        || (center_key(a, center, size) == center_key(b, center, size) && lex_lt(a, b))
}

/// Bounds that keep the corner arithmetic of `center_key` exact.
pub open spec fn sort_args_ok(center: Point2d, size: Point2d) -> bool {
    &&& size_ok(size)
    &&& coord_wide(center.x as int)
    &&& coord_wide(center.y as int)
}

fn center_out_less(a: &Point2d, b: &Point2d, center: &Point2d, size: Point2d) -> (r: bool)
    requires
        index_ok(*a, size),
        index_ok(*b, size),
        sort_args_ok(*center, size),
    ensures
        r == center_out_lt(*a, *b, *center, size),
{
    let ca = Point2d { x: a.x * size.x, y: a.y * size.y };
    let cb = Point2d { x: b.x * size.x, y: b.y * size.y };
    let da = ca.dist_squared(center);
    let db = cb.dist_squared(center);
    da < db || (da == db && (a.y < b.y || (a.y == b.y && a.x < b.x)))
}

/// Sort chunk indices center-out: by squared distance of the chunk's
/// minimum corner to `center`, ties broken lexicographically. The input must
/// be free of duplicates; the output then is strictly sorted, so the load
/// order of a region is unique and deterministic.
pub fn sort_center_out(v: Vec<Point2d>, center: &Point2d, size: Point2d) -> (r: Vec<Point2d>)
    requires
        sort_args_ok(*center, size),
        forall|m: int, n: int| 0 <= m < n < v@.len() ==> v@[m] != v@[n],
        forall|m: int| 0 <= m < v@.len() ==> index_ok(#[trigger] v@[m], size),
    ensures
        forall|i: Point2d| r@.contains(i) <==> v@.contains(i),
        forall|m: int, n: int| 0 <= m < n < r@.len() ==> center_out_lt(r@[m], r@[n], *center, size),
        forall|m: int| 0 <= m < r@.len() ==> index_ok(#[trigger] r@[m], size),
        r@.len() == v@.len(),
{
    let mut r: Vec<Point2d> = Vec::new();
    let mut k: usize = 0;
    while k < v.len()
        invariant
            k <= v@.len(),
            sort_args_ok(*center, size),
            forall|m: int, n: int| 0 <= m < n < v@.len() ==> v@[m] != v@[n],
            forall|m: int| 0 <= m < v@.len() ==> index_ok(#[trigger] v@[m], size),
            forall|i: Point2d| r@.contains(i) <==> v@.subrange(0, k as int).contains(i),
            forall|m: int, n: int| 0 <= m < n < r@.len() ==> center_out_lt(r@[m], r@[n], *center, size),
            forall|m: int| 0 <= m < r@.len() ==> index_ok(#[trigger] r@[m], size),
            r@.len() == k,
        decreases v@.len() - k,
    {
        let x = v[k];
        proof {
            assert(v@.subrange(0, k as int).contains(x) == r@.contains(x));
            assert(forall|n: int| 0 <= n < k ==> v@.subrange(0, k as int)[n] == v@[n]);
            assert(!v@.subrange(0, k as int).contains(x)) by {
                if v@.subrange(0, k as int).contains(x) {
                    let n = choose|n: int| 0 <= n < k && v@.subrange(0, k as int)[n] == x;
                    assert(v@[n] == v@[k as int]);
                }
            }
        }
        // find the insertion position: the first element greater than x
        let mut pos: usize = 0;
        while pos < r.len() && center_out_less(&r[pos], &x, center, size)
            invariant
                pos <= r@.len(),
                sort_args_ok(*center, size),
                index_ok(x, size),
                forall|m: int| 0 <= m < r@.len() ==> index_ok(#[trigger] r@[m], size),
                forall|m: int, n: int| 0 <= m < n < r@.len() ==> center_out_lt(r@[m], r@[n], *center, size),
                forall|m: int| 0 <= m < pos ==> center_out_lt(#[trigger] r@[m], x, *center, size),
            decreases r@.len() - pos,
        {
            pos = pos + 1;
        }
        let ghost old_r = r@;
        r.insert(pos, x);
        proof {
            assert(r@ == old_r.insert(pos as int, x));
            lemma_insert_contains(old_r, pos as int, x);
            assert(v@.subrange(0, k as int + 1) == v@.subrange(0, k as int).push(x));
            assert forall|i: Point2d| r@.contains(i) implies v@.subrange(0, k as int + 1).contains(i) by {
                if i == x {
                    assert(v@.subrange(0, k as int + 1)[k as int] == x);
                } else {
                    assert(old_r.contains(i));
                    let n = choose|n: int| 0 <= n < old_r.len() && old_r[n] == i;
                    assert(v@.subrange(0, k as int).contains(i));
                    let m = choose|m: int| 0 <= m < k && v@.subrange(0, k as int)[m] == i;
                    assert(v@.subrange(0, k as int + 1)[m] == i);
                }
            }
            assert forall|i: Point2d| v@.subrange(0, k as int + 1).contains(i) implies r@.contains(i) by {
                let m = choose|m: int| 0 <= m <= k && #[trigger] v@.subrange(0, k as int + 1)[m] == i;
                if m == k {
                } else {
                    assert(v@.subrange(0, k as int)[m] == i);
                    assert(old_r.contains(i));
                }
            }
            // sortedness after inserting at the first position not less than x
            assert forall|m: int, n: int| 0 <= m < n < r@.len() implies center_out_lt(r@[m], r@[n], *center, size) by {
                lemma_center_out_total(*center, size);
                if n < pos {
                } else if m > pos {
                    assert(r@[m] == old_r[m - 1] && r@[n] == old_r[n - 1]);
                } else if m < pos && n == pos {
                    assert(r@[m] == old_r[m]);
                } else if m == pos && n > pos {
                    assert(r@[n] == old_r[n - 1]);
                    if pos < old_r.len() {
                        assert(!center_out_lt(old_r[pos as int], x, *center, size));
                        assert(old_r[n - 1] != x) by {
                            assert(old_r.contains(old_r[n - 1]));
                            assert(v@.subrange(0, k as int).contains(old_r[n - 1]));
                        }
                        if pos < n - 1 {
                            assert(center_out_lt(old_r[pos as int], old_r[n - 1], *center, size));
                        }
                    }
                } else if m < pos && n > pos {
                    assert(r@[m] == old_r[m] && r@[n] == old_r[n - 1]);
                    if m < n - 1 {
                    } else {
                        assert(center_out_lt(old_r[m], x, *center, size));
                        assert(!center_out_lt(old_r[m], x, *center, size) || center_out_lt(old_r[m], old_r[m], *center, size) || true);
                    }
                }
            }
        }
        k = k + 1;
    }
    proof {
        assert(v@.subrange(0, v@.len() as int) == v@);
    }
    r
}

/// `center_out_lt` is a strict total order: exactly one of `a < b`,
/// `a == b`, `b < a` holds, and it is transitive.
pub proof fn lemma_center_out_total(center: Point2d, size: Point2d)
    ensures
        forall|a: Point2d, b: Point2d| a != b ==> #[trigger] center_out_lt(a, b, center, size) || center_out_lt(b, a, center, size),
        forall|a: Point2d, b: Point2d| #[trigger] center_out_lt(a, b, center, size) ==> !center_out_lt(b, a, center, size),
        forall|a: Point2d, b: Point2d, c: Point2d|
            #[trigger] center_out_lt(a, b, center, size) && #[trigger] center_out_lt(b, c, center, size)
                ==> center_out_lt(a, c, center, size),
{
}

proof fn lemma_insert_contains(s: Seq<Point2d>, pos: int, x: Point2d)
    requires
        0 <= pos <= s.len(),
    ensures
        forall|i: Point2d| s.insert(pos, x).contains(i) <==> (s.contains(i) || i == x),
{
    let t = s.insert(pos, x);
    assert forall|i: Point2d| t.contains(i) implies (s.contains(i) || i == x) by {
        let n = choose|n: int| 0 <= n < t.len() && t[n] == i;
        if n < pos {
            assert(s[n] == i);
        } else if n > pos {
            assert(s[n - 1] == i);
        }
    }
    assert forall|i: Point2d| (s.contains(i) || i == x) implies t.contains(i) by {
        if i == x {
            assert(t[pos] == i);
        } else {
            let n = choose|n: int| 0 <= n < s.len() && s[n] == i;
            if n < pos {
                assert(t[n] == i);
            } else {
                assert(t[n + 1] == i);
            }
        }
    }
}

} // verus!
