//! Resolution selection: which discrete zoom levels a continuous view
//! needs, the crossfade weight between them, and which tiles of a level
//! cover a world-space rectangle.
//!
//! Zoom is carried in thousandths of a level ("milli-zoom"), world
//! coordinates in 1/2^32 of the world square ("world units"), and fade
//! weights in units of 1/125000000 (`WEIGHT_ONE`): everything the selector
//! decides is exact integer arithmetic.
//!
//! The crossfade band is the fractional-zoom interval [0.25, 0.75). Below
//! it only the floor level is shown at full weight; above it only the next
//! level; inside it the higher level fades in along the cubic smoothstep
//! (zero slope at both band edges) and the lower level holds the exact
//! complement, so the two weights always sum to one.

use vstd::prelude::*;

use crate::tile::TileDescr;
use crate::tile::lemma_pow2_increases;
use crate::tile::pow2;
use crate::tile::pow2_u64;
use vstd::arithmetic::div_mod::lemma_div_is_ordered;
use vstd::arithmetic::div_mod::lemma_fundamental_div_mod_converse;

verus! {

/// The highest zoom level the tile source offers.
pub const MAX_ZOOM: u32 = 14;

/// Milli-zoom units per zoom level.
pub const ZOOM_UNIT: u32 = 1000;

/// Lower edge of the crossfade band, in milli-zoom within a level.
pub const FADE_MIN: u32 = 250;

/// Upper edge of the crossfade band, in milli-zoom within a level.
pub const FADE_MAX: u32 = 750;

/// A fade weight of exactly one, the denominator of all weights.
pub const WEIGHT_ONE: u32 = 125000000;

/// One value or two values of one kind.
pub enum OneOrTwo<T> {
    One(T),
    Two(T, T),
}

impl<T> OneOrTwo<T> {
    /// Apply one function to whichever values are present.
    pub fn map<S, F: Fn(T) -> S>(self, func: F) -> (r: OneOrTwo<S>)
        requires
            (self matches OneOrTwo::One(v) ==> call_requires(func, (v,))),
            (self matches OneOrTwo::Two(a, b) ==> call_requires(func, (a,)) && call_requires(
                func,
                (b,),
            )),
        ensures
            match (self, r) {
                (OneOrTwo::One(v), OneOrTwo::One(s)) => call_ensures(func, (v,), s),
                (OneOrTwo::Two(a, b), OneOrTwo::Two(sa, sb)) => call_ensures(func, (a,), sa)
                    && call_ensures(func, (b,), sb),
                _ => false,
            },
    {
        match self {
            OneOrTwo::One(val) => OneOrTwo::One(func(val)),
            OneOrTwo::Two(a, b) => OneOrTwo::Two(func(a), func(b)),
        }
    }

    /// The single value, if there is exactly one.
    pub fn one(self) -> (r: Option<T>)
        ensures
            match self {
                OneOrTwo::One(v) => r == Some(v),
                OneOrTwo::Two(_, _) => r is None,
            },
    {
        match self {
            OneOrTwo::One(val) => Some(val),
            OneOrTwo::Two(_, _) => None,
        }
    }

    /// The pair of values, if there are two.
    pub fn two(self) -> (r: Option<(T, T)>)
        ensures
            match self {
                OneOrTwo::One(_) => r is None,
                OneOrTwo::Two(a, b) => r == Some((a, b)),
            },
    {
        match self {
            OneOrTwo::One(_) => None,
            OneOrTwo::Two(a, b) => Some((a, b)),
        }
    }
}

impl<T> OneOrTwo<Option<T>> {
    /// Swap the option outward: present only if every held value is.
    pub fn as_opt(self) -> (r: Option<OneOrTwo<T>>)
        ensures
            match self {
                OneOrTwo::One(ov) => match ov {
                    Some(v) => r == Some(OneOrTwo::One(v)),
                    None => r is None,
                },
                OneOrTwo::Two(oa, ob) => match (oa, ob) {
                    (Some(a), Some(b)) => r == Some(OneOrTwo::Two(a, b)),
                    _ => r is None,
                },
            },
    {
        match self {
            OneOrTwo::One(Some(val)) => Some(OneOrTwo::One(val)),
            OneOrTwo::Two(Some(a), Some(b)) => Some(OneOrTwo::Two(a, b)),
            _ => None,
        }
    }
}

impl<T: Clone> OneOrTwo<T> {
    /// Always a pair: a single value is duplicated.
    pub fn splat(self) -> (r: (T, T))
        ensures
            match self {
                OneOrTwo::One(v) => vstd::pervasive::cloned(v, r.0) && r.1 == v,
                OneOrTwo::Two(a, b) => r == (a, b),
            },
    {
        match self {
            OneOrTwo::One(val) => (val.clone(), val),
            OneOrTwo::Two(a, b) => (a, b),
        }
    }
}

/// The numerator of the cubic smoothstep over the crossfade band:
/// `u` steps through the band in milli-zoom (0 through 500), and the
/// weight is `smooth_num(u) / WEIGHT_ONE`.
pub open spec fn smooth_num(u: int) -> int {
    u * u * (1500 - 2 * u)
}

/// The smoothstep numerator stays between 0 and `WEIGHT_ONE` on the band.
pub proof fn lemma_smooth_num_bounds(u: int)
    requires
        0 <= u <= 500,
    ensures
        0 <= smooth_num(u) <= WEIGHT_ONE,
{
    assert(125000000 - u * u * (1500 - 2 * u) == 2 * ((500 - u) * (500 - u)) * (u + 250))
        by (nonlinear_arith);
    assert(2 * ((500 - u) * (500 - u)) * (u + 250) >= 0) by (nonlinear_arith)
        requires
            0 <= u <= 500,
    ;
    assert(u * u * (1500 - 2 * u) >= 0) by (nonlinear_arith)
        requires
            0 <= u <= 500,
    ;
}

/// How strongly the higher-resolution level shows, for a fractional zoom
/// inside the crossfade band: the cubic smoothstep across the band, as a
/// numerator over `WEIGHT_ONE`.
pub fn fade_in_function(frac: u32) -> (w: u32)
    requires
        FADE_MIN <= frac <= FADE_MAX,
    ensures
        w == smooth_num(frac - FADE_MIN as int),
        w <= WEIGHT_ONE,
{
    let u: u64 = (frac - FADE_MIN) as u64;
    proof {
        lemma_smooth_num_bounds(frac - FADE_MIN as int);
        assert(u * u * (1500 - 2 * u) == smooth_num(frac - FADE_MIN as int)) by (nonlinear_arith)
            requires
                u == frac - FADE_MIN as int,
                0 <= u <= 500,
        ;
        assert(u * u <= 250000 && u * u * (1500 - 2 * u) <= 375000000) by (nonlinear_arith)
            requires
                0 <= u <= 500,
        ;
    }
    let num: u64 = u * u * (1500 - 2 * u);
    num as u32
}

/// How strongly the lower-resolution level still shows: the exact
/// complement of `fade_in_function`, so the two weights sum to one.
pub fn fade_out_function(frac: u32) -> (w: u32)
    requires
        FADE_MIN <= frac <= FADE_MAX,
    ensures
        w == WEIGHT_ONE - smooth_num(frac - FADE_MIN as int),
        w <= WEIGHT_ONE,
{
    proof {
        lemma_smooth_num_bounds(frac - FADE_MIN as int);
    }
    WEIGHT_ONE - fade_in_function(frac)
}

/// One discrete zoom level and the opacity its tiles get, as a numerator
/// over `WEIGHT_ONE`.
#[derive(Clone, Copy, Debug, PartialEq, Eq, Structural)]
pub struct LevelWeight {
    pub level: u32,
    pub weight: u32,
}

/// Which discrete zoom levels a continuous zoom needs, and their weights:
/// one full-weight level in the low and high sub-bands of the fraction,
/// two complementary-weighted levels in the crossfade band, and always the
/// single maximum level once the zoom reaches it.
pub open spec fn spec_zoom_levels(zm: u32) -> OneOrTwo<LevelWeight> {
    if zm >= MAX_ZOOM * ZOOM_UNIT {
        OneOrTwo::One(LevelWeight { level: MAX_ZOOM, weight: WEIGHT_ONE })
    } else {
        let fl = (zm / ZOOM_UNIT) as u32;
        let fr = (zm % ZOOM_UNIT) as u32;
        if fr < FADE_MIN {
            OneOrTwo::One(LevelWeight { level: fl, weight: WEIGHT_ONE })
        } else if fr < FADE_MAX {
            OneOrTwo::Two(
                LevelWeight {
                    level: fl,
                    weight: (WEIGHT_ONE - smooth_num(fr - FADE_MIN as int)) as u32,
                },
                LevelWeight { level: (fl + 1) as u32, weight: smooth_num(fr - FADE_MIN as int) as u32 },
            )
        } else {
            OneOrTwo::One(LevelWeight { level: (fl + 1) as u32, weight: WEIGHT_ONE })
        }
    }
}

/// Split a continuous zoom into the discrete levels to draw and the fade
/// weight of each.
pub fn zoom_levels(zm: u32) -> (r: OneOrTwo<LevelWeight>)
    ensures
        r == spec_zoom_levels(zm),
{
    if zm >= MAX_ZOOM * ZOOM_UNIT {
        return OneOrTwo::One(LevelWeight { level: MAX_ZOOM, weight: WEIGHT_ONE });
    }
    let fl = zm / ZOOM_UNIT;
    let fr = zm % ZOOM_UNIT;
    if fr < FADE_MIN {
        OneOrTwo::One(LevelWeight { level: fl, weight: WEIGHT_ONE })
    } else if fr < FADE_MAX {
        let win = fade_in_function(fr);
        let wout = fade_out_function(fr);
        OneOrTwo::Two(
            LevelWeight { level: fl, weight: wout },
            LevelWeight { level: fl + 1, weight: win },
        )
    } else {
        OneOrTwo::One(LevelWeight { level: fl + 1, weight: WEIGHT_ONE })
    }
}

/// A view's visible rectangle in world space, in units of 1/2^32 of the
/// world square (so 2^32 is the far edge of the world).
#[derive(Clone, Copy, Debug, PartialEq, Eq, Structural)]
pub struct WorldRect {
    pub min_x: u64,
    pub min_y: u64,
    pub max_x: u64,
    pub max_y: u64,
}

impl WorldRect {
    /// The rectangle is properly ordered.
    pub open spec fn wf(self) -> bool {
        self.min_x <= self.max_x && self.min_y <= self.max_y
    }
}

/// The tile index a world coordinate falls into at a zoom level, clamped
/// into the `0 .. 2^z` grid.
pub open spec fn clamp_idx(w: u64, z: u32) -> int {
    let i = w as int / pow2((32 - z) as nat) as int;
    let lim = pow2(z as nat) - 1;
    if i <= lim {
        i
    } else {
        lim
    }
}

/// The exact tile enumeration of a rectangle at one zoom level: row-major
/// within a column, columns ascending, each axis clamped to the grid.
pub open spec fn tiles_exact(s: Seq<TileDescr>, rect: WorldRect, z: u32) -> bool {
    let x0 = clamp_idx(rect.min_x, z);
    let x1 = clamp_idx(rect.max_x, z);
    let y0 = clamp_idx(rect.min_y, z);
    let y1 = clamp_idx(rect.max_y, z);
    let h = y1 - y0 + 1;
    &&& s.len() == (x1 - x0 + 1) * h
    &&& forall|k: int|
        0 <= k < s.len() ==> #[trigger] s[k] == (TileDescr {
            z,
            x: (x0 + k / h) as u32,
            y: (y0 + k % h) as u32,
        })
}

/// Every address of a sequence lies inside its zoom level's grid.
pub open spec fn tiles_valid(s: Seq<TileDescr>) -> bool {
    forall|k: int| 0 <= k < s.len() ==> (#[trigger] s[k]).spec_valid()
}

/// Enumerate the tiles of one zoom level whose footprint intersects the
/// rectangle: the integer range of tile indices spanned by the corners,
/// clamped to the grid. Every address returned is valid.
#[verifier::loop_isolation(false)]
pub fn get_tiles_fixed(rect: &WorldRect, zoom: u32) -> (r: Vec<TileDescr>)
    requires
        rect.wf(),
        zoom <= 30,
    ensures
        tiles_exact(r@, *rect, zoom),
        tiles_valid(r@),
{
    let div = pow2_u64(32 - zoom);
    let lim64 = pow2_u64(zoom) - 1;
    proof {
        lemma_pow2_increases(zoom as nat, 30);
        assert(pow2(30) == 0x4000_0000) by {
            reveal_with_fuel(pow2, 31);
        }
        lemma_div_is_ordered(rect.min_x as int, rect.max_x as int, div as int);
        lemma_div_is_ordered(rect.min_y as int, rect.max_y as int, div as int);
    }
    let qx0 = rect.min_x / div;
    let qx1 = rect.max_x / div;
    let qy0 = rect.min_y / div;
    let qy1 = rect.max_y / div;
    let x0: u32 = (if qx0 < lim64 {
        qx0
    } else {
        lim64
    }) as u32;
    let x1: u32 = (if qx1 < lim64 {
        qx1
    } else {
        lim64
    }) as u32;
    let y0: u32 = (if qy0 < lim64 {
        qy0
    } else {
        lim64
    }) as u32;
    let y1: u32 = (if qy1 < lim64 {
        qy1
    } else {
        lim64
    }) as u32;
    proof {
        assert(x0 == clamp_idx(rect.min_x, zoom) && x1 == clamp_idx(rect.max_x, zoom) && y0
            == clamp_idx(rect.min_y, zoom) && y1 == clamp_idx(rect.max_y, zoom));
        assert(x0 <= x1 && y0 <= y1);
    }
    let ghost h: int = y1 - y0 + 1;
    let mut tiles: Vec<TileDescr> = Vec::new();
    let mut x: u32 = x0;
    while x <= x1
        invariant
            x0 <= x <= x1 + 1,
            tiles@.len() == (x - x0) * h,
            forall|k: int|
                0 <= k < tiles@.len() ==> #[trigger] tiles@[k] == (TileDescr {
                    z: zoom,
                    x: (x0 + k / h) as u32,
                    y: (y0 + k % h) as u32,
                }),
            tiles_valid(tiles@),
        decreases x1 + 1 - x,
    {
        let mut y: u32 = y0;
        while y <= y1
            invariant
                x <= x1,
                y0 <= y <= y1 + 1,
                tiles@.len() == (x - x0) * h + (y - y0),
                forall|k: int|
                    0 <= k < tiles@.len() ==> #[trigger] tiles@[k] == (TileDescr {
                        z: zoom,
                        x: (x0 + k / h) as u32,
                        y: (y0 + k % h) as u32,
                    }),
                tiles_valid(tiles@),
            decreases y1 + 1 - y,
        {
            proof {
                lemma_fundamental_div_mod_converse(
                    (x - x0) * h + (y - y0),
                    h,
                    x - x0,
                    y - y0,
                );
            }
            let tile = TileDescr { z: zoom, x, y };
            assert(tile.spec_valid());
            tiles.push(tile);
            y = y + 1;
        }
        proof {
            assert((x + 1 - x0) * h == (x - x0) * h + h) by (nonlinear_arith);
        }
        x = x + 1;
    }
    proof {
        assert(tiles@.len() == (x1 - x0 + 1) * h);
    }
    tiles
}

/// Everything the renderer needs from the selector for one view: the one
/// or two zoom levels, each with its fade weight and its tile addresses.
pub fn get_tiles_at(rect: &WorldRect, zoom_milli: u32) -> (r: OneOrTwo<
    (LevelWeight, Vec<TileDescr>),
>)
    requires
        rect.wf(),
    ensures
        match r {
            OneOrTwo::One(lt) => spec_zoom_levels(zoom_milli) == OneOrTwo::One(lt.0)
                && tiles_exact(lt.1@, *rect, lt.0.level) && tiles_valid(lt.1@),
            OneOrTwo::Two(a, b) => spec_zoom_levels(zoom_milli) == OneOrTwo::Two(a.0, b.0)
                && tiles_exact(a.1@, *rect, a.0.level) && tiles_valid(a.1@) && tiles_exact(
                b.1@,
                *rect,
                b.0.level,
            ) && tiles_valid(b.1@),
        },
{
    proof {
        if zoom_milli < MAX_ZOOM * ZOOM_UNIT {
            lemma_div_is_ordered(zoom_milli as int, 13999, ZOOM_UNIT as int);
            assert(13999int / 1000 == 13);
        }
    }
    match zoom_levels(zoom_milli) {
        OneOrTwo::One(lw) => {
            let ts = get_tiles_fixed(rect, lw.level);
            OneOrTwo::One((lw, ts))
        },
        OneOrTwo::Two(lo, hi) => {
            let ta = get_tiles_fixed(rect, lo.level);
            let tb = get_tiles_fixed(rect, hi.level);
            OneOrTwo::Two((lo, ta), (hi, tb))
        },
    }
}

} // verus!
