//! Tile-local geometry: integer 2D vectors, open paths and areas with
//! winding-order enforcement.
//!
//! Coordinates are kept in the raw integer grid of the tile they came from
//! (the tile's `extent` is carried alongside by the layer, so a point `p`
//! of a layer with extent `e` denotes the unit-square position
//! `(p.x / e, p.y / e)`). The sign of a ring's area does not depend on
//! that scaling, so winding is enforced on the grid coordinates
//! themselves.

use vstd::prelude::*;

verus! {

/// Coordinates of tile geometry stay in this range: the tile decoder
/// produces 32-bit values.
pub open spec fn coord_bounded(v: Vector) -> bool {
    -0x8000_0000 <= v.x <= 0x8000_0000 && -0x8000_0000 <= v.y <= 0x8000_0000
}

/// A 2D vector with integer coordinates.
#[derive(Clone, Copy, Debug, PartialEq, Eq, Structural)]
pub struct Vector {
    pub x: i64,
    pub y: i64,
}

impl Vector {
    pub fn new(x: i64, y: i64) -> (r: Self)
        ensures
            r == (Vector { x, y }),
    {
        Self { x, y }
    }

    pub fn zeros() -> (r: Self)
        ensures
            r == (Vector { x: 0i64, y: 0i64 }),
    {
        Self { x: 0, y: 0 }
    }

    /// Euclidean length, rounded down to an integer.
    pub fn norm(&self) -> (r: u64)
        ensures
            (r as int) * (r as int) <= self.x * self.x + self.y * self.y,
            self.x * self.x + self.y * self.y < (r as int + 1) * (r as int + 1),
    {
        let xi: i128 = self.x as i128;
        let yi: i128 = self.y as i128;
        let ax: i128 = if xi < 0 {
            -xi
        } else {
            xi
        };
        let ay: i128 = if yi < 0 {
            -yi
        } else {
            yi
        };
        proof {
            assert(ax * ax == self.x * self.x && ay * ay == self.y * self.y) by (nonlinear_arith)
                requires
                    xi == self.x,
                    yi == self.y,
                    ax == (if xi < 0 { -(xi as int) } else { xi as int }),
                    ay == (if yi < 0 { -(yi as int) } else { yi as int }),
            ;
            assert((ax as u128) * (ax as u128) <= 0x4000_0000_0000_0000_0000_0000_0000_0000u128
                && (ay as u128) * (ay as u128) <= 0x4000_0000_0000_0000_0000_0000_0000_0000u128)
                by (nonlinear_arith)
                requires
                    0 <= ax <= 0x8000_0000_0000_0000,
                    0 <= ay <= 0x8000_0000_0000_0000,
            ;
        }
        let sq: u128 = (ax as u128) * (ax as u128) + (ay as u128) * (ay as u128);
        isqrt_u128(sq)
    }
}

/// The square root of `n`, rounded down.
fn isqrt_u128(n: u128) -> (r: u64)
    ensures
        (r as int) * (r as int) <= n,
        n < (r as int + 1) * (r as int + 1),
{
    let mut lo: u64 = 0;
    let mut hi: u64 = u64::MAX;
    proof {
        assert((u64::MAX as int + 1) * (u64::MAX as int + 1) > u128::MAX) by (nonlinear_arith);
    }
    while lo < hi
        invariant
            (lo as int) * (lo as int) <= n,
            n < (hi as int + 1) * (hi as int + 1),
            lo <= hi,
        decreases hi - lo,
    {
        let mid: u64 = ((lo as u128 + hi as u128 + 1) / 2) as u64;
        proof {
            assert(lo < mid <= hi) by (nonlinear_arith)
                requires
                    lo < hi,
                    mid == ((lo as int + hi as int + 1) / 2) as int,
            ;
            assert((mid as int) * (mid as int) <= u128::MAX) by (nonlinear_arith)
                requires
                    0 <= mid as int <= 0xffff_ffff_ffff_ffff,
            ;
        }
        if (mid as u128) * (mid as u128) <= n {
            lo = mid;
        } else {
            hi = mid - 1;
        }
    }
    lo
}

/// The magnitude of an integer.
pub open spec fn abs_of(v: int) -> int {
    if v < 0 {
        -v
    } else {
        v
    }
}

/// The cross product term `a.x * b.y - b.x * a.y` of two points.
pub open spec fn cross(a: Vector, b: Vector) -> int {
    a.x * b.y - b.x * a.y
}

/// The ring successor of index `i` in a ring of `n` points.
pub open spec fn ring_next(i: int, n: int) -> int {
    if i + 1 == n {
        0
    } else {
        i + 1
    }
}

/// One term of the shoelace sum of a ring.
pub open spec fn ring_term(s: Seq<Vector>, i: int) -> int {
    cross(s[i], s[ring_next(i, s.len() as int)])
}

/// The first `k` terms of the shoelace sum.
pub open spec fn partial_ring_sum(s: Seq<Vector>, k: int) -> int
    decreases k,
{
    if k <= 0 {
        0
    } else {
        partial_ring_sum(s, k - 1) + ring_term(s, k - 1)
    }
}

/// Twice the signed area of a ring: the full shoelace sum, or 0 for a
/// degenerate ring of fewer than 3 points.
pub open spec fn ring_sum(s: Seq<Vector>) -> int {
    if s.len() < 3 {
        0
    } else {
        partial_ring_sum(s, s.len() as int)
    }
}

/// All points of a sequence lie in the decoder's coordinate range.
pub open spec fn points_bounded(s: Seq<Vector>) -> bool {
    forall|i: int| 0 <= i < s.len() ==> coord_bounded(#[trigger] s[i])
}

/// An ordered run of 2D points in tile-local grid coordinates, open or
/// implicitly closed.
#[derive(Debug, Clone)]
pub struct Path(pub Vec<Vector>);

impl Path {
    /// Every coordinate is in the range the tile decoder can produce.
    pub open spec fn wf(self) -> bool {
        points_bounded(self.0@)
    }

    /// Twice the signed area of this ring, exactly.
    pub fn get_signed_area_sum(&self) -> (r: i128)
        requires
            self.wf(),
        ensures
            r == ring_sum(self.0@),
    {
        let n = self.0.len();
        if n < 3 {
            return 0;
        }
        let mut acc: i128 = 0;
        let mut i: usize = 0;
        while i < n
            invariant
                i <= n,
                n == self.0.len(),
                3 <= n,
                points_bounded(self.0@),
                acc == partial_ring_sum(self.0@, i as int),
                -0x8000_0000_0000_0000i128 * (i as int) <= acc <= 0x8000_0000_0000_0000i128 * (
                i as int),
            decreases n - i,
        {
            let p_i = self.0[i];
            let ni = if i + 1 == n {
                0
            } else {
                i + 1
            };
            let p_next = self.0[ni];
            proof {
                assert(-0x4000_0000_0000_0000 <= p_i.x * p_next.y <= 0x4000_0000_0000_0000
                    && -0x4000_0000_0000_0000 <= p_next.x * p_i.y <= 0x4000_0000_0000_0000)
                    by (nonlinear_arith)
                    requires
                        coord_bounded(p_i),
                        coord_bounded(p_next),
                ;
                lemma_scaled_bound(i as int, n as int);
            }
            let term: i128 = (p_i.x as i128) * (p_next.y as i128) - (p_next.x as i128) * (
            p_i.y as i128);
            acc = acc + term;
            i = i + 1;
        }
        acc
    }

    /// Reverse the order of the points in place.
    pub fn reverse(&mut self)
        ensures
            final(self).0@ == old(self).0@.reverse(),
    {
        let n = self.0.len();
        let mut out: Vec<Vector> = Vec::new();
        let mut i: usize = 0;
        while i < n
            invariant
                i <= n,
                n == self.0.len(),
                self.0@ == old(self).0@,
                out@.len() == i as int,
                forall|j: int| 0 <= j < i ==> out@[j] == self.0@[n - 1 - j],
            decreases n - i,
        {
            out.push(self.0[n - 1 - i]);
            i = i + 1;
        }
        self.0 = out;
        assert(self.0@ =~= old(self).0@.reverse());
    }
}

/// Make a copy of a path.
fn copy_path(p: &Path) -> (r: Path)
    ensures
        r.0@ == p.0@,
{
    let n = p.0.len();
    let mut out: Vec<Vector> = Vec::new();
    let mut i: usize = 0;
    while i < n
        invariant
            i <= n,
            n == p.0.len(),
            out@.len() == i as int,
            forall|j: int| 0 <= j < i ==> out@[j] == p.0@[j],
        decreases n - i,
    {
        out.push(p.0[i]);
        i = i + 1;
    }
    assert(out@ =~= p.0@);
    Path(out)
}

/// Reversing a sequence keeps its points in bounds.
proof fn lemma_reverse_bounded(s: Seq<Vector>)
    requires
        points_bounded(s),
    ensures
        points_bounded(s.reverse()),
{
    assert forall|i: int| 0 <= i < s.reverse().len() implies coord_bounded(
        #[trigger] s.reverse()[i],
    ) by {
        assert(s.reverse()[i] == s[s.len() - 1 - i]);
    }
}

/// Reversing the first `k`-term prefix relation between a ring and its
/// reversal: the reversed ring's prefix sums run the original's terms
/// backwards and negated.
proof fn lemma_partial_ring_sum_reverse(s: Seq<Vector>, k: int)
    requires
        s.len() >= 3,
        0 <= k <= s.len() - 1,
    ensures
        partial_ring_sum(s.reverse(), k) == partial_ring_sum(s, s.len() - 1 - k)
            - partial_ring_sum(s, s.len() - 1),
    decreases k,
{
    let n = s.len() as int;
    let r = s.reverse();
    if k > 0 {
        lemma_partial_ring_sum_reverse(s, k - 1);
        assert(r[k - 1] == s[n - k]);
        assert(r[ring_next(k - 1, n)] == s[n - 1 - k]);
        assert(ring_next(n - 1 - k, n) == n - k);
        assert(ring_term(r, k - 1) == -ring_term(s, n - 1 - k));
        assert(partial_ring_sum(s, n - k) == partial_ring_sum(s, n - 1 - k) + ring_term(
            s,
            n - 1 - k,
        ));
    }
}

/// Reversing a ring negates its shoelace sum.
pub proof fn lemma_ring_sum_reverse(s: Seq<Vector>)
    ensures
        ring_sum(s.reverse()) == -ring_sum(s),
{
    if s.len() >= 3 {
        let n = s.len() as int;
        let r = s.reverse();
        lemma_partial_ring_sum_reverse(s, n - 1);
        assert(r[n - 1] == s[0]);
        assert(r[ring_next(n - 1, n)] == s[n - 1]);
        assert(ring_next(n - 1, n) == 0);
        assert(ring_term(r, n - 1) == -ring_term(s, n - 1));
        assert(partial_ring_sum(r, n) == partial_ring_sum(r, n - 1) + ring_term(r, n - 1));
        assert(partial_ring_sum(s, n) == partial_ring_sum(s, n - 1) + ring_term(s, n - 1));
    }
}

/// One filled region: an outer boundary ring plus zero or more hole rings.
///
/// The constructor-time repair `enforce_winding` makes the outer ring's
/// signed area nonnegative (counter-clockwise under the y-down fill
/// convention) and every hole ring's signed area nonpositive; degenerate
/// rings count as area zero and stay as they are.
#[derive(Debug)]
pub struct Area {
    pub outer: Path,
    pub inner: Vec<Path>,
}

impl Area {
    /// Every ring's coordinates are in the decoder's range.
    pub open spec fn wf(self) -> bool {
        &&& self.outer.wf()
        &&& forall|i: int| 0 <= i < self.inner@.len() ==> (#[trigger] self.inner@[i]).wf()
    }

    /// The winding invariant: the outer ring turns one way, holes turn the
    /// other (degenerate rings exempted as area zero).
    pub open spec fn well_wound(self) -> bool {
        &&& ring_sum(self.outer.0@) >= 0
        &&& forall|i: int|
            0 <= i < self.inner@.len() ==> ring_sum((#[trigger] self.inner@[i]).0@) <= 0
    }

    /// Enforce the winding rules, reversing rings that turn the wrong way.
    ///
    /// Returns true exactly when some ring had to be repaired, so callers
    /// can track data-quality regressions. Running it on an already
    /// well-wound area changes nothing and reports no repair, and after
    /// any run the area is well wound: a second run never flips anything.
    pub fn enforce_winding(&mut self) -> (flipped: bool)
        requires
            old(self).wf(),
        ensures
            final(self).wf(),
            final(self).well_wound(),
            final(self).outer.0@ == (if ring_sum(old(self).outer.0@) < 0 {
                old(self).outer.0@.reverse()
            } else {
                old(self).outer.0@
            }),
            final(self).inner@.len() == old(self).inner@.len(),
            forall|i: int|
                0 <= i < old(self).inner@.len() ==> (#[trigger] final(self).inner@[i]).0@ == (
                if ring_sum(old(self).inner@[i].0@) > 0 {
                    old(self).inner@[i].0@.reverse()
                } else {
                    old(self).inner@[i].0@
                }),
            flipped == (ring_sum(old(self).outer.0@) < 0 || exists|i: int|
                0 <= i < old(self).inner@.len() && ring_sum(
                    (#[trigger] old(self).inner@[i]).0@,
                ) > 0),
            old(self).well_wound() ==> !flipped,
            // The repair only reorients: afterwards the outer ring's area
            // is the magnitude of what it was - strictly positive unless
            // the ring was degenerate or flat - and each hole's is the
            // negated magnitude.
            ring_sum(final(self).outer.0@) == abs_of(ring_sum(old(self).outer.0@)),
            forall|i: int|
                0 <= i < old(self).inner@.len() ==> ring_sum(
                    (#[trigger] final(self).inner@[i]).0@,
                ) == -abs_of(ring_sum(old(self).inner@[i].0@)),
    {
        let mut flipped = false;
        let outer_sum = self.outer.get_signed_area_sum();
        if outer_sum < 0 {
            self.outer.reverse();
            flipped = true;
            proof {
                lemma_ring_sum_reverse(old(self).outer.0@);
                lemma_reverse_bounded(old(self).outer.0@);
            }
        }
        let n = self.inner.len();
        let mut new_inner: Vec<Path> = Vec::new();
        let mut k: usize = 0;
        while k < n
            invariant
                k <= n,
                n == self.inner.len(),
                self.inner@ == old(self).inner@,
                old(self).wf(),
                new_inner@.len() == k as int,
                forall|i: int|
                    0 <= i < k ==> (#[trigger] new_inner@[i]).0@ == (if ring_sum(
                        old(self).inner@[i].0@,
                    ) > 0 {
                        old(self).inner@[i].0@.reverse()
                    } else {
                        old(self).inner@[i].0@
                    }),
                forall|i: int|
                    0 <= i < k ==> ring_sum((#[trigger] new_inner@[i]).0@) == -abs_of(
                        ring_sum(old(self).inner@[i].0@),
                    ),
                forall|i: int| 0 <= i < k ==> (#[trigger] new_inner@[i]).wf(),
                flipped == (ring_sum(old(self).outer.0@) < 0 || exists|i: int|
                    0 <= i < k && ring_sum((#[trigger] old(self).inner@[i]).0@) > 0),
            decreases n - k,
        {
            let p = &self.inner[k];
            assert(p.wf());
            let s = p.get_signed_area_sum();
            if s > 0 {
                let mut q = copy_path(p);
                q.reverse();
                proof {
                    lemma_ring_sum_reverse(old(self).inner@[k as int].0@);
                    lemma_reverse_bounded(old(self).inner@[k as int].0@);
                }
                new_inner.push(q);
                flipped = true;
            } else {
                new_inner.push(copy_path(p));
            }
            k = k + 1;
        }
        self.inner = new_inner;
        flipped
    }
}

/// One ring after the winding repair: reversed exactly when its signed
/// area has the wrong sign for its role (`want_positive` for outer
/// rings, its negation for holes).
pub open spec fn wind_ring(r: Seq<Vector>, want_positive: bool) -> Seq<Vector> {
    if want_positive {
        if ring_sum(r) < 0 {
            r.reverse()
        } else {
            r
        }
    } else {
        if ring_sum(r) > 0 {
            r.reverse()
        } else {
            r
        }
    }
}

/// An area, as its bare rings: the outer ring and the hole rings.
pub open spec fn area_view(a: Area) -> (Seq<Vector>, Seq<Seq<Vector>>) {
    (a.outer.0@, a.inner@.map_values(|p: Path| p.0@))
}

/// The winding repair on an area's rings.
pub open spec fn wind_area(a: (Seq<Vector>, Seq<Seq<Vector>>)) -> (Seq<Vector>, Seq<Seq<Vector>>) {
    (wind_ring(a.0, true), a.1.map_values(|h: Seq<Vector>| wind_ring(h, false)))
}

/// Whether the winding repair changes anything of these rings.
pub open spec fn area_flipped(a: (Seq<Vector>, Seq<Seq<Vector>>)) -> bool {
    ring_sum(a.0) < 0 || exists|i: int| 0 <= i < a.1.len() && ring_sum(#[trigger] a.1[i]) > 0
}

/// `enforce_winding` computes exactly the view-level winding repair and
/// reports exactly whether it changed anything.
pub proof fn lemma_enforce_winding_is_wind_area(pre: Area, post: Area, flipped: bool)
    requires
        post.outer.0@ == (if ring_sum(pre.outer.0@) < 0 {
            pre.outer.0@.reverse()
        } else {
            pre.outer.0@
        }),
        post.inner@.len() == pre.inner@.len(),
        forall|i: int|
            0 <= i < pre.inner@.len() ==> (#[trigger] post.inner@[i]).0@ == (if ring_sum(
                pre.inner@[i].0@,
            ) > 0 {
                pre.inner@[i].0@.reverse()
            } else {
                pre.inner@[i].0@
            }),
        flipped == (ring_sum(pre.outer.0@) < 0 || exists|i: int|
            0 <= i < pre.inner@.len() && ring_sum((#[trigger] pre.inner@[i]).0@) > 0),
    ensures
        area_view(post) == wind_area(area_view(pre)),
        flipped == area_flipped(area_view(pre)),
{
    assert(area_view(post).1 =~= wind_area(area_view(pre)).1);
    assert(flipped == area_flipped(area_view(pre))) by {
        let prev = area_view(pre);
        if exists|i: int|
            0 <= i < pre.inner@.len() && ring_sum((#[trigger] pre.inner@[i]).0@) > 0 {
            let i = choose|i: int|
                0 <= i < pre.inner@.len() && ring_sum((#[trigger] pre.inner@[i]).0@) > 0;
            assert(prev.1[i] == pre.inner@[i].0@);
        }
        if exists|i: int| 0 <= i < prev.1.len() && ring_sum(#[trigger] prev.1[i]) > 0 {
            let i = choose|i: int| 0 <= i < prev.1.len() && ring_sum(#[trigger] prev.1[i]) > 0;
            assert(prev.1[i] == pre.inner@[i].0@);
        }
    }
}

/// Stepping the accumulator bound by one term stays within `i128`.
proof fn lemma_scaled_bound(i: int, n: int)
    requires
        0 <= i < n,
        n <= 0xffff_ffff_ffff_ffff,
    ensures
        0x8000_0000_0000_0000 * (i + 1) == 0x8000_0000_0000_0000 * i + 0x8000_0000_0000_0000,
        0x8000_0000_0000_0000 * (i + 1) <= 0x8000_0000_0000_0000 * 0xffff_ffff_ffff_ffff,
        0x8000_0000_0000_0000 * 0xffff_ffff_ffff_ffff < 0x8000_0000_0000_0000_0000_0000_0000_0000,
{
    assert(0x8000_0000_0000_0000 * (i + 1) == 0x8000_0000_0000_0000 * i
        + 0x8000_0000_0000_0000) by (nonlinear_arith);
    assert(0x8000_0000_0000_0000 * (i + 1) <= 0x8000_0000_0000_0000 * 0xffff_ffff_ffff_ffff)
        by (nonlinear_arith)
        requires
            i + 1 <= 0xffff_ffff_ffff_ffff,
    ;
}

} // verus!
