//! The two-tier tile cache: decoded tiles in memory, a set of addresses
//! known to have valid entries on disk, and the decision logic of the
//! load path.
//!
//! The cache itself holds no file handles and opens no sockets: it is the
//! decision half of the load path. For one address, `next_action` says
//! what the load path does next — nothing (already decoded), read the
//! known disk entry, or fetch from the network — and the driver reports
//! what happened back through `insert_from_disk`, `insert_fetched` and
//! `drop_disk_entry` (corrupt disk entries are evicted and fall through
//! to a fetch; a successful fetch re-persists the entry). Every decision
//! and every transition is exact, so the idempotence of loading — a
//! second load of a cached address performs no second fetch and yields
//! the identical tile — is a theorem here, not a convention.

use vstd::prelude::*;

use crate::decode::MapData;
use crate::tile::TileDescr;

verus! {

/// What the load path does next for one address.
#[derive(Clone, Copy, Debug, PartialEq, Eq, Structural)]
pub enum LoadAction {
    /// The tile is decoded in memory: nothing to do, in particular no
    /// network fetch and no disk read.
    Ready,
    /// The address has a known disk entry: read and decode that file.
    TryDisk,
    /// Fetch the raw payload from the network, persist it, decode it.
    Fetch,
}

/// Whether the in-memory tier holds an entry for `t`.
pub open spec fn mem_has(s: Seq<(TileDescr, MapData)>, t: TileDescr) -> bool {
    exists|i: int| 0 <= i < s.len() && (#[trigger] s[i]).0 == t
}

/// Whether the known-disk set holds `t`.
pub open spec fn disk_has(s: Seq<TileDescr>, t: TileDescr) -> bool {
    exists|i: int| 0 <= i < s.len() && #[trigger] s[i] == t
}

/// The two-tier cache state: decoded tiles by address, and the addresses
/// believed to have a valid serialized entry on disk.
pub struct MvtGetter {
    pub mem_cache: Vec<(TileDescr, MapData)>,
    pub file_cache: Vec<TileDescr>,
}

/// What the load path must do next for `t` in state `s`.
pub open spec fn spec_next_action(s: MvtGetter, t: TileDescr) -> LoadAction {
    if mem_has(s.mem_cache@, t) {
        LoadAction::Ready
    } else if disk_has(s.file_cache@, t) {
        LoadAction::TryDisk
    } else {
        LoadAction::Fetch
    }
}

impl MvtGetter {
    /// Each tier lists every address at most once.
    pub open spec fn wf(self) -> bool {
        &&& forall|i: int, j: int|
            0 <= i < j < self.mem_cache@.len() ==> (#[trigger] self.mem_cache@[i]).0 != (
            #[trigger] self.mem_cache@[j]).0
        &&& forall|i: int, j: int|
            0 <= i < j < self.file_cache@.len() ==> (#[trigger] self.file_cache@[i]) != (
            #[trigger] self.file_cache@[j])
    }

    /// An empty cache; the driver replays the startup directory scan
    /// through `note_disk_entry`.
    pub fn new() -> (r: Self)
        ensures
            r.mem_cache@.len() == 0,
            r.file_cache@.len() == 0,
            r.wf(),
    {
        MvtGetter { mem_cache: Vec::new(), file_cache: Vec::new() }
    }

    /// Non-blocking lookup in the in-memory tier only.
    pub fn get_tile(&self, tile: TileDescr) -> (r: Option<&MapData>)
        ensures
            match r {
                Some(m) => exists|i: int|
                    0 <= i < self.mem_cache@.len() && (#[trigger] self.mem_cache@[i]) == (
                    tile,
                    *m,
                ),
                None => !mem_has(self.mem_cache@, tile),
            },
    {
        let n = self.mem_cache.len();
        let mut i: usize = 0;
        while i < n
            invariant
                i <= n,
                n == self.mem_cache@.len(),
                forall|j: int| 0 <= j < i ==> (#[trigger] self.mem_cache@[j]).0 != tile,
            decreases n - i,
        {
            if self.mem_cache[i].0 == tile {
                proof {
                    assert((#[trigger] self.mem_cache@[i as int]).0 == tile);
                }
                return Some(&self.mem_cache[i].1);
            }
            i = i + 1;
        }
        None
    }

    /// The next step of `ensure loaded` for this address.
    pub fn next_action(&self, tile: TileDescr) -> (r: LoadAction)
        ensures
            r == spec_next_action(*self, tile),
    {
        if self.contains_mem(tile) {
            LoadAction::Ready
        } else if self.contains_disk(tile) {
            LoadAction::TryDisk
        } else {
            LoadAction::Fetch
        }
    }

    /// Whether the in-memory tier holds this address.
    pub fn contains_mem(&self, tile: TileDescr) -> (r: bool)
        ensures
            r == mem_has(self.mem_cache@, tile),
    {
        let n = self.mem_cache.len();
        let mut i: usize = 0;
        while i < n
            invariant
                i <= n,
                n == self.mem_cache@.len(),
                forall|j: int| 0 <= j < i ==> (#[trigger] self.mem_cache@[j]).0 != tile,
            decreases n - i,
        {
            if self.mem_cache[i].0 == tile {
                proof {
                    assert((#[trigger] self.mem_cache@[i as int]).0 == tile);
                }
                return true;
            }
            i = i + 1;
        }
        false
    }

    /// Whether the known-disk set holds this address.
    pub fn contains_disk(&self, tile: TileDescr) -> (r: bool)
        ensures
            r == disk_has(self.file_cache@, tile),
    {
        let n = self.file_cache.len();
        let mut i: usize = 0;
        while i < n
            invariant
                i <= n,
                n == self.file_cache@.len(),
                forall|j: int| 0 <= j < i ==> (#[trigger] self.file_cache@[j]) != tile,
            decreases n - i,
        {
            if self.file_cache[i] == tile {
                proof {
                    assert(#[trigger] self.file_cache@[i as int] == tile);
                }
                return true;
            }
            i = i + 1;
        }
        false
    }

    /// Record one address found by the startup scan of the cache
    /// directory (duplicates are ignored).
    pub fn note_disk_entry(&mut self, tile: TileDescr)
        requires
            old(self).wf(),
        ensures
            final(self).wf(),
            final(self).mem_cache@ == old(self).mem_cache@,
            final(self).file_cache@ == (if disk_has(old(self).file_cache@, tile) {
                old(self).file_cache@
            } else {
                old(self).file_cache@.push(tile)
            }),
            disk_has(final(self).file_cache@, tile),
    {
        if !self.contains_disk(tile) {
            self.file_cache.push(tile);
            proof {
                assert(#[trigger] self.file_cache@[self.file_cache@.len() - 1] == tile);
                assert forall|i: int, j: int|
                    0 <= i < j < self.file_cache@.len() implies (#[trigger] self.file_cache@[i])
                    != (#[trigger] self.file_cache@[j]) by {
                    if j < self.file_cache@.len() - 1 {
                        assert(self.file_cache@[i] == old(self).file_cache@[i]);
                    }
                }
            }
        }
    }

    /// Record a tile decoded from its known disk entry: it enters the
    /// in-memory tier, the disk set is untouched.
    pub fn insert_from_disk(&mut self, tile: TileDescr, data: MapData)
        requires
            old(self).wf(),
            !mem_has(old(self).mem_cache@, tile),
        ensures
            final(self).wf(),
            final(self).mem_cache@ == old(self).mem_cache@.push((tile, data)),
            final(self).file_cache@ == old(self).file_cache@,
            mem_has(final(self).mem_cache@, tile),
            spec_next_action(*final(self), tile) == LoadAction::Ready,
    {
        self.mem_cache.push((tile, data));
        proof {
            assert((#[trigger] self.mem_cache@[self.mem_cache@.len() - 1]).0 == tile);
            assert forall|i: int, j: int|
                0 <= i < j < self.mem_cache@.len() implies (#[trigger] self.mem_cache@[i]).0 != (
            #[trigger] self.mem_cache@[j]).0 by {
                if j < self.mem_cache@.len() - 1 {
                    assert(self.mem_cache@[i] == old(self).mem_cache@[i]);
                }
            }
        }
    }

    /// Record a tile fetched from the network and persisted to disk: it
    /// enters the in-memory tier and its address (re)enters the
    /// known-disk set.
    pub fn insert_fetched(&mut self, tile: TileDescr, data: MapData)
        requires
            old(self).wf(),
            !mem_has(old(self).mem_cache@, tile),
        ensures
            final(self).wf(),
            final(self).mem_cache@ == old(self).mem_cache@.push((tile, data)),
            final(self).file_cache@ == (if disk_has(old(self).file_cache@, tile) {
                old(self).file_cache@
            } else {
                old(self).file_cache@.push(tile)
            }),
            mem_has(final(self).mem_cache@, tile),
            disk_has(final(self).file_cache@, tile),
            spec_next_action(*final(self), tile) == LoadAction::Ready,
    {
        self.note_disk_entry(tile);
        self.insert_from_disk(tile, data);
    }

    /// Evict an address whose disk entry failed to deserialize: it leaves
    /// the known-disk set, so the load path falls through to a fetch.
    pub fn drop_disk_entry(&mut self, tile: TileDescr)
        requires
            old(self).wf(),
        ensures
            final(self).wf(),
            final(self).mem_cache@ == old(self).mem_cache@,
            !disk_has(final(self).file_cache@, tile),
            forall|u: TileDescr|
                u != tile ==> disk_has(final(self).file_cache@, u) == disk_has(
                    old(self).file_cache@,
                    u,
                ),
            !mem_has(old(self).mem_cache@, tile) ==> spec_next_action(*final(self), tile)
                == LoadAction::Fetch,
    {
        let n = self.file_cache.len();
        let mut i: usize = 0;
        while i < n
            invariant
                i <= n,
                n == self.file_cache@.len(),
                self.file_cache@ == old(self).file_cache@,
                self.mem_cache@ == old(self).mem_cache@,
                old(self).wf(),
                forall|j: int| 0 <= j < i ==> (#[trigger] self.file_cache@[j]) != tile,
            decreases n - i,
        {
            if self.file_cache[i] == tile {
                self.file_cache.remove(i);
                proof {
                    let pre = old(self).file_cache@;
                    let post = self.file_cache@;
                    assert(post =~= pre.subrange(0, i as int) + pre.subrange(
                        i as int + 1,
                        pre.len() as int,
                    ));
                    assert forall|k: int| 0 <= k < post.len() implies #[trigger] post[k] != tile
                    by {
                        if k < i as int {
                            assert(post[k] == pre[k]);
                        } else {
                            assert(post[k] == pre[k + 1]);
                        }
                    }
                    assert forall|u: TileDescr|
                        u != tile && disk_has(pre, u) implies disk_has(post, u) by {
                        let w = choose|w: int| 0 <= w < pre.len() && #[trigger] pre[w] == u;
                        if w < i as int {
                            assert(post[w] == u);
                        } else {
                            assert(w > i as int);
                            assert(post[w - 1] == u);
                        }
                    }
                    assert forall|u: TileDescr|
                        u != tile && disk_has(post, u) implies disk_has(pre, u) by {
                        let w = choose|w: int| 0 <= w < post.len() && #[trigger] post[w] == u;
                        if w < i as int {
                            assert(pre[w] == u);
                        } else {
                            assert(pre[w + 1] == u);
                        }
                    }
                    assert forall|a: int, b: int|
                        0 <= a < b < post.len() implies (#[trigger] post[a]) != (
                    #[trigger] post[b]) by {
                        let pa: int = if a < i as int {
                            a
                        } else {
                            a + 1
                        };
                        let pb: int = if b < i as int {
                            b
                        } else {
                            b + 1
                        };
                        assert(post[a] == pre[pa] && post[b] == pre[pb]);
                    }
                }
                return ;
            }
            i = i + 1;
        }
    }

    /// The addresses of a batch that are not in memory yet, in the order
    /// requested: what a batch load still has to drive through the load
    /// path.
    pub fn missing_tiles(&self, tiles: &Vec<TileDescr>) -> (r: Vec<TileDescr>)
        ensures
            r@ == missing_of(self.mem_cache@, tiles@),
    {
        let n = tiles.len();
        let mut out: Vec<TileDescr> = Vec::new();
        let mut i: usize = 0;
        while i < n
            invariant
                i <= n,
                n == tiles@.len(),
                out@ == missing_of(self.mem_cache@, tiles@.subrange(0, i as int)),
            decreases n - i,
        {
            let ghost pre = tiles@.subrange(0, i as int);
            if !self.contains_mem(tiles[i]) {
                out.push(tiles[i]);
            }
            proof {
                assert(tiles@.subrange(0, i as int + 1).drop_last() =~= pre);
            }
            i = i + 1;
        }
        proof {
            assert(tiles@.subrange(0, n as int) =~= tiles@);
        }
        out
    }
}

/// The subsequence of `tiles` whose addresses the in-memory tier lacks.
pub open spec fn missing_of(mem: Seq<(TileDescr, MapData)>, tiles: Seq<TileDescr>) -> Seq<
    TileDescr,
>
    decreases tiles.len(),
{
    if tiles.len() == 0 {
        Seq::empty()
    } else {
        missing_of(mem, tiles.drop_last()) + (if mem_has(mem, tiles.last()) {
            Seq::empty()
        } else {
            seq![tiles.last()]
        })
    }
}

// LAWS

/// Ensure-loaded is idempotent: once an address is decoded in memory, the
/// load path's next action for it is `Ready` — no disk read and no second
/// network fetch — and the in-memory tier holds exactly one entry for it,
/// so a repeated load observes the identical decoded tile.
pub proof fn lemma_ensure_loaded_idempotent(s: MvtGetter, t: TileDescr)
    requires
        s.wf(),
        mem_has(s.mem_cache@, t),
    ensures
        spec_next_action(s, t) == LoadAction::Ready,
        forall|i: int, j: int|
            0 <= i < s.mem_cache@.len() && 0 <= j < s.mem_cache@.len() && (
            #[trigger] s.mem_cache@[i]).0 == t && (#[trigger] s.mem_cache@[j]).0 == t ==> i == j,
{
    assert forall|i: int, j: int|
        0 <= i < s.mem_cache@.len() && 0 <= j < s.mem_cache@.len() && (
        #[trigger] s.mem_cache@[i]).0 == t && (#[trigger] s.mem_cache@[j]).0 == t implies i == j
    by {
        if i < j {
            assert(s.mem_cache@[i].0 != s.mem_cache@[j].0);
        } else if j < i {
            assert(s.mem_cache@[j].0 != s.mem_cache@[i].0);
        }
    }
}

} // verus!
