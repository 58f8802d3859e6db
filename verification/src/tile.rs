//! Quadtree tile addresses.
//!
//! A tile address names one square tile of the map: a zoom level and a
//! column/row position inside the `2^zoom` by `2^zoom` grid of that level.
//! Addresses serve as cache keys, as disk file names and as the unit of
//! network fetch.

use vstd::prelude::*;

use crate::text::decimal_chars;
use crate::text::digit_val;
use crate::text::lemma_decimal_chars_value;
use crate::text::parse_u32;
use crate::text::push_decimal;

verus! {

/// `pow2(e)` is `2^e` as a mathematical integer.
pub open spec fn pow2(e: nat) -> nat
    decreases e,
{
    if e == 0 {
        1nat
    } else {
        2 * pow2((e - 1) as nat)
    }
}

/// Address of one tile: zoom level `z`, column `x`, row `y`.
///
/// Construction never fails; validity is a separate query (`valid`) so that
/// callers can reject an out-of-range address without a panic.
#[derive(Clone, Copy, Debug, PartialEq, Eq, Structural, Hash)]
pub struct TileDescr {
    pub z: u32,
    pub x: u32,
    pub y: u32,
}

impl TileDescr {
    /// The grid invariant: the column and the row both lie inside the
    /// `2^z` by `2^z` grid of zoom level `z`.
    pub open spec fn spec_valid(self) -> bool {
        self.x < pow2(self.z as nat) && self.y < pow2(self.z as nat)
    }

    /// Whether this address lies inside the tile grid of its zoom level.
    pub fn valid(&self) -> (r: bool)
        ensures
            r == self.spec_valid(),
    {
        if self.z >= 32 {
            // A u32 column or row is always below 2^32 <= 2^z.
            proof {
                lemma_pow2_increases(32, self.z as nat);
                lemma_pow2_32();
            }
            true
        } else {
            proof {
                lemma_pow2_u64_shift(self.z as u64);
            }
            let n_tiles: u64 = 1u64 << (self.z as u64);
            (self.x as u64) < n_tiles && (self.y as u64) < n_tiles
        }
    }
}

/// The characters of the remote locator for a tile: the fixed tile-server
/// template with zoom, column and row substituted in.
pub open spec fn url_chars(t: TileDescr) -> Seq<char> {
    "https://vector.openstreetmap.org/shortbread_v1/"@ + decimal_chars(t.z as nat) + "/"@
        + decimal_chars(t.x as nat) + "/"@ + decimal_chars(t.y as nat) + ".mvt"@
}

/// The characters of the cache file name for a tile: `{z}_{x}_{y}.mvt`.
pub open spec fn file_name_chars(t: TileDescr) -> Seq<char> {
    decimal_chars(t.z as nat) + "_"@ + decimal_chars(t.x as nat) + "_"@ + decimal_chars(
        t.y as nat,
    ) + ".mvt"@
}

impl TileDescr {
    /// The remote resource locator this tile is fetched from.
    pub fn to_url(&self) -> (r: String)
        ensures
            r@ == url_chars(*self),
    {
        let mut s = String::new();
        s.append("https://vector.openstreetmap.org/shortbread_v1/");
        push_decimal(&mut s, self.z as u64);
        s.append("/");
        push_decimal(&mut s, self.x as u64);
        s.append("/");
        push_decimal(&mut s, self.y as u64);
        s.append(".mvt");
        proof {
            assert(s@ =~= url_chars(*self));
        }
        s
    }

    /// The file name under which this tile is persisted in the cache
    /// directory.
    pub fn to_file_name(&self) -> (r: String)
        ensures
            r@ == file_name_chars(*self),
    {
        let mut s = String::new();
        push_decimal(&mut s, self.z as u64);
        s.append("_");
        push_decimal(&mut s, self.x as u64);
        s.append("_");
        push_decimal(&mut s, self.y as u64);
        s.append(".mvt");
        proof {
            assert(s@ =~= file_name_chars(*self));
        }
        s
    }

    /// Read a tile address back from a cache file name.
    ///
    /// Accepts exactly the names this module writes itself: a parsed
    /// address regenerates the given name, and a rejected name is the
    /// file name of no address at all. The startup scan of the cache
    /// directory uses this and silently skips malformed names.
    pub fn parse_file_name(name: &str) -> (r: Option<TileDescr>)
        ensures
            match r {
                Some(t) => name@ == file_name_chars(t),
                None => forall|t: TileDescr| name@ != file_name_chars(t),
            },
    {
        let len = name.unicode_len();
        let a = find_char_from(name, 0, '_');
        if a >= len {
            proof {
                assert forall|t: TileDescr| name@ != file_name_chars(t) by {
                    if name@ == file_name_chars(t) {
                        lemma_file_name_shape(name@, t);
                        let nz = decimal_chars(t.z as nat).len() as int;
                        assert(name@[nz] == '_');
                    }
                }
            }
            return None;
        }
        let b = find_char_from(name, a + 1, '_');
        proof {
            assert forall|t: TileDescr| name@ == file_name_chars(t) implies ({
                let nz = decimal_chars(t.z as nat).len() as int;
                let nx = decimal_chars(t.x as nat).len() as int;
                a == nz && b == nz + 1 + nx
            }) by {
                lemma_file_name_shape(name@, t);
                let nz = decimal_chars(t.z as nat).len() as int;
                let nx = decimal_chars(t.x as nat).len() as int;
                // The first underscore of the name is the one after the
                // zoom digits, and the next one follows the column digits.
                assert(name@[nz] == '_');
                assert(a as int == nz);
                assert(name@[nz + 1 + nx] == '_');
                assert(b as int == nz + 1 + nx);
            }
        }
        if b >= len {
            proof {
                assert forall|t: TileDescr| name@ != file_name_chars(t) by {
                    if name@ == file_name_chars(t) {
                        lemma_file_name_shape(name@, t);
                    }
                }
            }
            return None;
        }
        if len - b <= 5 {
            // Too short to hold a row number and the ".mvt" suffix.
            proof {
                assert forall|t: TileDescr| name@ != file_name_chars(t) by {
                    if name@ == file_name_chars(t) {
                        lemma_file_name_shape(name@, t);
                    }
                }
            }
            return None;
        }
        let suffix = name.substring_char(len - 4, len);
        if !str_eq(suffix, ".mvt") {
            proof {
                assert forall|t: TileDescr| name@ != file_name_chars(t) by {
                    if name@ == file_name_chars(t) {
                        lemma_file_name_shape(name@, t);
                    }
                }
            }
            return None;
        }
        let z = match parse_u32(name.substring_char(0, a)) {
            Some(v) => v,
            None => {
                proof {
                    assert forall|t: TileDescr| name@ != file_name_chars(t) by {
                        if name@ == file_name_chars(t) {
                            lemma_file_name_shape(name@, t);
                            assert(name@.subrange(0, a as int) == decimal_chars(t.z as nat));
                        }
                    }
                }
                return None
            },
        };
        let x = match parse_u32(name.substring_char(a + 1, b)) {
            Some(v) => v,
            None => {
                proof {
                    assert forall|t: TileDescr| name@ != file_name_chars(t) by {
                        if name@ == file_name_chars(t) {
                            lemma_file_name_shape(name@, t);
                            assert(name@.subrange(a as int + 1, b as int) == decimal_chars(
                                t.x as nat,
                            ));
                        }
                    }
                }
                return None
            },
        };
        let y = match parse_u32(name.substring_char(b + 1, len - 4)) {
            Some(v) => v,
            None => {
                proof {
                    assert forall|t: TileDescr| name@ != file_name_chars(t) by {
                        if name@ == file_name_chars(t) {
                            lemma_file_name_shape(name@, t);
                            assert(name@.subrange(b as int + 1, len - 4) == decimal_chars(
                                t.y as nat,
                            ));
                        }
                    }
                }
                return None
            },
        };
        let t = TileDescr { z, x, y };
        proof {
            reveal_strlit("_");
            assert(name@[a as int] == '_');
            assert(name@[b as int] == '_');
            assert("_"@ =~= seq!['_']);
            assert(name@ =~= name@.subrange(0, a as int) + "_"@ + name@.subrange(
                a as int + 1,
                b as int,
            ) + "_"@ + name@.subrange(b as int + 1, len - 4) + name@.subrange(
                len - 4,
                len as int,
            ));
            assert(name@ == file_name_chars(t));
        }
        Some(t)
    }
}

/// How a canonical cache file name is laid out: the digit runs of the
/// three numbers, the two underscores between them, and the suffix, at
/// fixed positions determined by the digit-run lengths.
proof fn lemma_file_name_shape(name: Seq<char>, t: TileDescr)
    requires
        name == file_name_chars(t),
    ensures
        ({
            let nz = decimal_chars(t.z as nat).len() as int;
            let nx = decimal_chars(t.x as nat).len() as int;
            let ny = decimal_chars(t.y as nat).len() as int;
            &&& nz >= 1 && nx >= 1 && ny >= 1
            &&& name.len() == nz + nx + ny + 6
            &&& (forall|j: int| 0 <= j < nz ==> #[trigger] name[j] != '_')
            &&& name[nz] == '_'
            &&& (forall|j: int| nz + 1 <= j < nz + 1 + nx ==> #[trigger] name[j] != '_')
            &&& name[nz + 1 + nx] == '_'
            &&& name.subrange(0, nz) == decimal_chars(t.z as nat)
            &&& name.subrange(nz + 1, nz + 1 + nx) == decimal_chars(t.x as nat)
            &&& name.subrange(nz + 2 + nx, nz + 2 + nx + ny) == decimal_chars(t.y as nat)
            &&& name.subrange(name.len() - 4, name.len() as int) == ".mvt"@
        }),
{
    reveal_strlit("_");
    reveal_strlit(".mvt");
    lemma_decimal_chars_value(t.z as nat);
    lemma_decimal_chars_value(t.x as nat);
    lemma_decimal_chars_value(t.y as nat);
    let dz = decimal_chars(t.z as nat);
    let dx = decimal_chars(t.x as nat);
    let dy = decimal_chars(t.y as nat);
    let nz = dz.len() as int;
    let nx = dx.len() as int;
    let ny = dy.len() as int;
    assert("_"@.len() == 1 && "_"@[0] == '_');
    assert(".mvt"@.len() == 4);
    assert(name.len() == nz + nx + ny + 6);
    assert forall|j: int| 0 <= j < nz implies #[trigger] name[j] != '_' by {
        assert(name[j] == dz[j]);
        assert(digit_val(dz[j]) >= 0);
    }
    assert forall|j: int| nz + 1 <= j < nz + 1 + nx implies #[trigger] name[j] != '_' by {
        assert(name[j] == dx[j - nz - 1]);
        assert(digit_val(dx[j - nz - 1]) >= 0);
    }
    assert(name[nz] == '_');
    assert(name[nz + 1 + nx] == '_');
    assert(name.subrange(0, nz) =~= dz);
    assert(name.subrange(nz + 1, nz + 1 + nx) =~= dx);
    assert(name.subrange(nz + 2 + nx, nz + 2 + nx + ny) =~= dy);
    assert(name.subrange(name.len() - 4, name.len() as int) =~= ".mvt"@);
}

/// Position of the first occurrence of `c` in `s` at or after `from`, or
/// the length of `s` if there is none.
pub fn find_char_from(s: &str, from: usize, c: char) -> (r: usize)
    requires
        from <= s@.len(),
    ensures
        from <= r <= s@.len(),
        r < s@.len() ==> s@[r as int] == c,
        forall|j: int| from <= j < r ==> s@[j] != c,
{
    let len = s.unicode_len();
    let mut i: usize = from;
    while i < len
        invariant
            from <= i <= len,
            len == s@.len(),
            forall|j: int| from <= j < i ==> s@[j] != c,
        decreases len - i,
    {
        if s.get_char(i) == c {
            return i;
        }
        i = i + 1;
    }
    len
}

/// Character-for-character string comparison.
pub fn str_eq(a: &str, b: &str) -> (r: bool)
    ensures
        r == (a@ == b@),
{
    let la = a.unicode_len();
    let lb = b.unicode_len();
    if la != lb {
        return false;
    }
    let mut i: usize = 0;
    while i < la
        invariant
            i <= la,
            la == a@.len(),
            la == b@.len(),
            forall|j: int| 0 <= j < i ==> a@[j] == b@[j],
        decreases la - i,
    {
        if a.get_char(i) != b.get_char(i) {
            return false;
        }
        i = i + 1;
    }
    proof {
        assert(a@ =~= b@);
    }
    true
}

/// `2^32` is what a u32 can never reach.
proof fn lemma_pow2_32()
    ensures
        pow2(32) == 0x1_0000_0000,
{
    reveal_with_fuel(pow2, 33);
}

/// `pow2` grows monotonically.
pub proof fn lemma_pow2_increases(a: nat, b: nat)
    requires
        a <= b,
    ensures
        pow2(a) <= pow2(b),
    decreases b,
{
    if a < b {
        lemma_pow2_increases(a, (b - 1) as nat);
    }
}

/// Shifting 1 left by `e` bits computes `pow2(e)` without overflow.
proof fn lemma_pow2_u64_shift(e: u64)
    requires
        e < 64,
    ensures
        (1u64 << e) == pow2(e as nat),
    decreases e,
{
    if e == 0 {
        assert((1u64 << 0u64) == 1) by (bit_vector);
    } else {
        let f = (e - 1) as u64;
        lemma_pow2_u64_shift(f);
        assert(f < 63 ==> (1u64 << (f + 1)) == 2 * (1u64 << f)) by (bit_vector);
    }
}

/// `2^e` as a machine integer.
pub fn pow2_u64(e: u32) -> (r: u64)
    requires
        e < 64,
    ensures
        r == pow2(e as nat),
        r >= 1,
{
    proof {
        lemma_pow2_u64_shift(e as u64);
        lemma_pow2_increases(0, e as nat);
    }
    1u64 << (e as u64)
}

} // verus!
