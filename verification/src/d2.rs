//! The two-dimensional level-of-detail grid.
//!
//! A square window of slots follows an integer anchor. Each slot owns a small
//! inner ring of optional chunk handles, one per level-of-detail transition
//! state; the handle at the ring's center index is the slot's current chunk.
//! When the anchor moves, whole rows and columns are shifted out of the
//! window one step at a time and their handles reported for despawning; a
//! second pass turns each slot's inner ring by the change in its Chebyshev
//! distance to the anchor and records the slot's offset in an invalidation
//! set until a rebuilt chunk is reported ready.

use vstd::prelude::*;

verus! {

use crate::ring::Ring;

broadcast use crate::ring::lemma_wf_nonempty;

/// An integer 2D coordinate: a world grid cell, or an offset from the anchor.
#[derive(Clone, Copy, PartialEq, Eq, Structural, Debug)]
pub struct IVec2 {
    pub x: i32,
    pub y: i32,
}

/// A handle to a chunk entity. The grid issues handles and tracks them; the
/// terrain-building collaborator owns the content behind them.
pub type ChunkId = u64;

/// Whether the renderer should draw a chunk.
#[derive(Clone, Copy, PartialEq, Eq, Structural, Debug)]
pub enum ChunkVisibility {
    Visible,
    Hidden,
}

/// The placeholder record emitted for a freshly requested chunk: the world
/// cell it covers and the level of detail it must be built at.
#[derive(Clone, Copy, PartialEq, Eq, Structural, Debug)]
pub struct Chunk {
    pub coord: IVec2,
    pub lod: u32,
}

/// One chunk request of the spawn pass: a fresh handle together with its
/// placeholder record. The chunk starts hidden until the swap pass promotes
/// it.
#[derive(Clone, Copy, PartialEq, Eq, Structural, Debug)]
pub struct ChunkRequest {
    pub id: ChunkId,
    pub chunk: Chunk,
}

/// The Chebyshev distance of the offset `(dx, dy)` from the origin: the ring
/// of cells around the anchor an offset belongs to.
pub open spec fn cheb(dx: int, dy: int) -> int {
    let ax = if dx < 0 {
        -dx
    } else {
        dx
    };
    let ay = if dy < 0 {
        -dy
    } else {
        dy
    };
    if ax < ay {
        ay
    } else {
        ax
    }
}

/// Chebyshev distance on machine integers.
fn cheb_i64(dx: i64, dy: i64) -> (r: i64)
    requires
        -0x7fff_ffff_ffff_ffff <= dx,
        -0x7fff_ffff_ffff_ffff <= dy,
    ensures
        r == cheb(dx as int, dy as int),
{
    let ax = if dx < 0 {
        -dx
    } else {
        dx
    };
    let ay = if dy < 0 {
        -dy
    } else {
        dy
    };
    if ax < ay {
        ay
    } else {
        ax
    }
}

/// An inner ring holding no handles at all.
pub open spec fn empty_entries(n: int) -> Seq<Option<ChunkId>> {
    Seq::new(n as nat, |k: int| None)
}

/// One grid cell: a small ring of optional chunk handles, one per
/// level-of-detail transition state. Only the handle at the ring's center
/// index is the slot's current chunk.
pub struct Slot(pub Ring<Option<ChunkId>>);

impl Slot {
    /// The handle bindings in logical ring order.
    pub open spec fn entries(&self) -> Seq<Option<ChunkId>> {
        self.0@
    }

    /// A slot ring always has the expected fixed number of bindings.
    pub open spec fn wf(&self, lod_len: int) -> bool {
        &&& self.0.wf()
        &&& self.0@.len() == lod_len
    }

    /// Builds a slot holding no handles.
    pub fn empty(lod_len: usize) -> (s: Slot)
        requires
            lod_len > 0,
        ensures
            s.wf(lod_len as int),
            s.entries() == empty_entries(lod_len as int),
    {
        let mut v: Vec<Option<ChunkId>> = Vec::new();
        while v.len() < lod_len
            invariant
                v@.len() <= lod_len,
                forall|k: int| 0 <= k < v@.len() ==> v@[k] is None,
            decreases lod_len - v@.len(),
        {
            v.push(None);
        }
        let s = Slot(Ring::from_vec(v));
        proof {
            assert(s.entries() =~= empty_entries(lod_len as int));
        }
        s
    }
}

/// An inner ring turned by `d` steps: the binding at index `k` afterwards is
/// the one that sat at `k + d`, and indices whose source fell outside the
/// ring are empty.
pub open spec fn inner_shifted(s: Seq<Option<ChunkId>>, d: int) -> Seq<Option<ChunkId>> {
    Seq::new(s.len(), |k: int| if 0 <= k + d < s.len() { s[k + d] } else { None })
}

/// The inner ring `s` binds `id` at an index that turning by `d` steps
/// pushes out of the ring.
pub open spec fn evicted_from(s: Seq<Option<ChunkId>>, d: int, id: ChunkId) -> bool {
    exists|k: int|
        0 <= k < s.len() && (#[trigger] s[k]) == Some(id) && !(0 <= k - d < s.len())
}

/// The set of window offsets whose required level of detail changed and whose
/// replacement chunk has not been reported ready yet.
pub struct InvalidSlots(pub Vec<IVec2>);

/// Default half-width of the slot window: the window is a square of side
/// `2 * LOD_GRID_EXTENT + 1` cells centered on the anchor.
pub const LOD_GRID_EXTENT: u32 = 2;

/// Default side length of the slot window: `2 * LOD_GRID_EXTENT + 1`.
pub const LOD_GRID_LEN: usize = 5;

/// Default half-width of a slot's inner ring of level-of-detail bindings.
pub const LOD_LEVELS_PER_CHUNK_EXTENT: u32 = 2;

/// Default length of a slot's inner ring: `2 * LOD_LEVELS_PER_CHUNK_EXTENT + 1`.
pub const LOD_LEVELS_PER_CHUNK: usize = 5;

/// The window of slots around the anchor, as a ring of rows each of which is
/// a ring of slots, together with the bookkeeping that aligns it: `pos` is
/// the anchor reported by the viewer for this tick, `prev_pos` the anchor the
/// grid is currently aligned to. `update_lod` shifts the grid until the two
/// agree.
pub struct Lod2dTree {
    /// Rows of slots; row index grows with the `y` offset, column index with
    /// the `x` offset, and the window center sits at index `extent` of both.
    pub map: Ring<Ring<Slot>>,
    /// The anchor requested for this tick, set from the viewer position.
    pub pos: IVec2,
    /// The anchor the slot window is aligned to.
    pub prev_pos: IVec2,
    /// The window half-width, fixed at construction.
    pub extent: u32,
    /// The inner ring half-width, fixed at construction.
    pub lod_extent: u32,
    /// The next chunk handle to issue.
    pub next_id: u64,
    /// The record issued for each handle, kept for reasoning only.
    pub meta: Ghost<Map<ChunkId, Chunk>>,
}

impl Lod2dTree {
    /// Side length of the slot window.
    pub open spec fn glen(&self) -> int {
        2 * (self.extent as int) + 1
    }

    /// Length of each slot's inner ring.
    pub open spec fn llen(&self) -> int {
        2 * (self.lod_extent as int) + 1
    }

    /// The window half-width.
    pub open spec fn spec_extent(&self) -> int {
        self.extent as int
    }

    /// The inner ring's center index, where a slot's current chunk lives.
    pub open spec fn center(&self) -> int {
        self.lod_extent as int
    }

    /// The slot at row `r`, column `c` of the window.
    pub open spec fn slot(&self, r: int, c: int) -> Slot {
        self.map@[r]@[c]
    }

    /// The offset of the slot at row `r`, column `c` from the window center.
    pub open spec fn offset_of(&self, r: int, c: int) -> IVec2 {
        IVec2 { x: (c - self.spec_extent()) as i32, y: (r - self.spec_extent()) as i32 }
    }

    /// Whether `o` is an offset inside the window.
    pub open spec fn in_window(&self, o: IVec2) -> bool {
        &&& -self.spec_extent() <= o.x as int <= self.spec_extent()
        &&& -self.spec_extent() <= o.y as int <= self.spec_extent()
    }

    /// The horizontal anchor move this tick still has to catch up with.
    pub open spec fn dx(&self) -> int {
        self.pos.x - self.prev_pos.x
    }

    /// The vertical anchor move this tick still has to catch up with.
    pub open spec fn dy(&self) -> int {
        self.pos.y - self.prev_pos.y
    }

    /// How far the slot at `(r, c)` must turn its inner ring after an anchor
    /// move of `(dx, dy)`: its Chebyshev distance from the new anchor minus
    /// the distance the content it now holds had from the old one.
    pub open spec fn dist_change(&self, r: int, c: int, dx: int, dy: int) -> int {
        cheb(c - self.spec_extent(), r - self.spec_extent()) - cheb(
            c - self.spec_extent() + dx,
            r - self.spec_extent() + dy,
        )
    }

    /// The record issued for a chunk handle when it was requested.
    pub open spec fn chunk_info(&self) -> Map<ChunkId, Chunk> {
        self.meta@
    }

    /// Handles issued so far; all live handles are below this bound.
    pub open spec fn issued(&self) -> u64 {
        self.next_id
    }

    /// What the slot at `(r, c)` holds once the window realigned after an
    /// anchor move of `(dx, dy)`: the entries of the slot that covered the
    /// same world cell, turned by the change in Chebyshev distance, or an
    /// empty ring where that cell lay outside the window.
    pub open spec fn entries_after(&self, r: int, c: int, dx: int, dy: int) -> Seq<
        Option<ChunkId>,
    > {
        let src = if 0 <= r + dy < self.glen() && 0 <= c + dx < self.glen() {
            self.slot(r + dy, c + dx).entries()
        } else {
            empty_entries(self.llen())
        };
        if dx == 0 && dy == 0 {
            src
        } else {
            inner_shifted(src, self.dist_change(r, c, dx, dy))
        }
    }

    /// The placeholder record for a fresh chunk at row `r`, column `c`: it
    /// covers the world cell at the anchor plus the slot's offset, at the
    /// level of detail given by the offset's Chebyshev distance.
    pub open spec fn chunk_at(&self, r: int, c: int) -> Chunk {
        Chunk {
            coord: IVec2 {
                x: (self.pos.x + c - self.spec_extent()) as i32,
                y: (self.pos.y + r - self.spec_extent()) as i32,
            },
            lod: cheb(c - self.spec_extent(), r - self.spec_extent()) as u32,
        }
    }

    /// Whether the offset `o` must stay pending after a swap pass: it still
    /// lies inside the window and its slot's current chunk is missing or not
    /// yet reported ready.
    pub open spec fn pending(&self, ready: Seq<ChunkId>, o: IVec2) -> bool {
        &&& self.in_window(o)
        &&& !(self.slot(
            o.y as int + self.spec_extent(),
            o.x as int + self.spec_extent(),
        ).entries()[self.center()] matches Some(id) && ready.contains(id))
    }

    /// `pair` is a visibility change that serving offset `o` of the
    /// invalidation set emits: some binding of the slot at `o` holds the
    /// handle, made visible exactly when it is the slot's current chunk.
    pub open spec fn swap_emits(
        &self,
        ready: Seq<ChunkId>,
        o: IVec2,
        pair: (ChunkId, ChunkVisibility),
    ) -> bool {
        &&& self.in_window(o)
        &&& !self.pending(ready, o)
        &&& exists|k: int|
            0 <= k < self.llen() && (#[trigger] self.slot(
                o.y as int + self.spec_extent(),
                o.x as int + self.spec_extent(),
            ).entries()[k]) == Some(pair.0) && pair.1 == (if k == self.center() {
                ChunkVisibility::Visible
            } else {
                ChunkVisibility::Hidden
            })
    }

    /// `pair` is a visibility change that serving some offset of `set`
    /// emits.
    pub open spec fn swap_emitted_by(
        &self,
        ready: Seq<ChunkId>,
        set: Seq<IVec2>,
        pair: (ChunkId, ChunkVisibility),
    ) -> bool {
        exists|j: int| 0 <= j < set.len() && self.swap_emits(ready, #[trigger] set[j], pair)
    }

    /// The window and every inner ring have their fixed dimensions.
    pub open spec fn wf_shape(&self) -> bool {
        &&& 0 <= self.spec_extent() <= 1000
        &&& 0 <= self.center() <= 1000
        &&& self.glen() == 2 * self.spec_extent() + 1
        &&& self.llen() == 2 * self.center() + 1
        &&& self.map.wf()
        &&& self.map@.len() == self.glen()
        &&& forall|r: int|
            0 <= r < self.glen() ==> (#[trigger] self.map@[r]).wf() && self.map@[r]@.len()
                == self.glen()
        &&& forall|r: int, c: int|
            0 <= r < self.glen() && 0 <= c < self.glen() ==> (#[trigger] self.slot(r, c)).wf(
                self.llen(),
            )
    }

    /// The handle `id` is bound at row `r`, column `c`, inner index `k`.
    pub open spec fn live_at(&self, r: int, c: int, k: int, id: ChunkId) -> bool {
        &&& 0 <= r < self.glen()
        &&& 0 <= c < self.glen()
        &&& 0 <= k < self.llen()
        &&& self.slot(r, c).entries()[k] == Some(id)
    }

    /// The handle `id` is bound somewhere in the window.
    pub open spec fn is_live(&self, id: ChunkId) -> bool {
        exists|r: int, c: int, k: int| self.live_at(r, c, k, id)
    }

    /// The grid binds `id` in a row that a vertical realignment by `dy`
    /// pushes out of the window.
    pub open spec fn row_evicts(&self, dy: int, id: ChunkId) -> bool {
        exists|r: int, c: int, k: int|
            #[trigger] self.live_at(r, c, k, id) && !(0 <= r - dy < self.glen())
    }

    /// The grid binds `id` in a column that a horizontal realignment by `dx`
    /// pushes out of the window.
    pub open spec fn col_evicts(&self, dx: int, id: ChunkId) -> bool {
        exists|r: int, c: int, k: int|
            #[trigger] self.live_at(r, c, k, id) && !(0 <= c - dx < self.glen())
    }

    /// The grid binds `id` at a position whose inner ring turn for an anchor
    /// move of `(dx, dy)` evicts it.
    pub open spec fn relod_evicts(&self, dx: int, dy: int, id: ChunkId) -> bool {
        exists|r: int, c: int|
            0 <= r < self.glen() && 0 <= c < self.glen() && evicted_from(
                (#[trigger] self.slot(r, c)).entries(),
                self.dist_change(r, c, dx, dy),
                id,
            )
    }

    /// Every live handle was issued with the record of the world cell it
    /// still sits in: its coordinate is the aligned anchor plus its window
    /// offset, and its level of detail differs from the Chebyshev distance of
    /// that offset exactly by its displacement from the inner ring's center.
    pub open spec fn wf_chunks(&self) -> bool {
        forall|r: int, c: int, k: int, id: ChunkId|
            #[trigger] self.live_at(r, c, k, id) ==> {
                &&& self.chunk_info().contains_key(id)
                &&& id < self.issued()
                &&& self.chunk_info()[id].coord.x == self.prev_pos.x + c - self.spec_extent()
                &&& self.chunk_info()[id].coord.y == self.prev_pos.y + r - self.spec_extent()
                &&& self.chunk_info()[id].lod == cheb(
                    c - self.spec_extent(),
                    r - self.spec_extent(),
                ) + k - self.center()
            }
    }

    /// Every recorded handle was issued: the issue counter never returns a
    /// handle that is already on record.
    pub open spec fn wf_meta(&self) -> bool {
        forall|id: ChunkId|
            #[trigger] self.chunk_info().contains_key(id) ==> id < self.issued()
    }

    /// The grid's invariant: well shaped, with every live handle aligned and
    /// every recorded handle already issued.
    pub open spec fn wf(&self) -> bool {
        &&& self.wf_shape()
        &&& self.wf_chunks()
        &&& self.wf_meta()
    }

    /// The shift pass has caught up with the anchor.
    pub open spec fn synced(&self) -> bool {
        self.prev_pos == self.pos
    }

    /// A row of `glen` empty slots.
    fn empty_row(glen: usize, lod_len: usize) -> (row: Ring<Slot>)
        requires
            glen > 0,
            lod_len > 0,
        ensures
            row.wf(),
            row@.len() == glen,
            forall|c: int|
                0 <= c < glen ==> (#[trigger] row@[c]).wf(lod_len as int) && row@[c].entries()
                    == empty_entries(lod_len as int),
    {
        let mut v: Vec<Slot> = Vec::new();
        while v.len() < glen
            invariant
                v@.len() <= glen,
                lod_len > 0,
                forall|c: int|
                    0 <= c < v@.len() ==> (#[trigger] v@[c]).wf(lod_len as int)
                        && v@[c].entries() == empty_entries(lod_len as int),
            decreases glen - v@.len(),
        {
            v.push(Slot::empty(lod_len));
        }
        Ring::from_vec(v)
    }

    /// All fields that the shift passes leave alone.
    pub open spec fn same_config(&self, other: &Lod2dTree) -> bool {
        &&& self.pos == other.pos
        &&& self.prev_pos == other.prev_pos
        &&& self.extent == other.extent
        &&& self.lod_extent == other.lod_extent
        &&& self.next_id == other.next_id
        &&& self.meta == other.meta
    }

    /// Shifts every row one step toward higher row indices: the slot window
    /// follows an anchor that moved one cell toward lower `y`. Returns the
    /// evicted outermost row.
    fn shift_up(&mut self) -> (evicted: Vec<Slot>)
        requires
            old(self).wf_shape(),
        ensures
            final(self).wf_shape(),
            final(self).same_config(old(self)),
            evicted@.len() == old(self).glen(),
            forall|c: int|
                0 <= c < old(self).glen() ==> evicted@[c] == old(self).slot(
                    old(self).glen() - 1,
                    c,
                ),
            forall|c: int|
                0 <= c < old(self).glen() ==> (#[trigger] final(self).slot(0, c)).entries()
                    == empty_entries(old(self).llen()),
            forall|r: int, c: int|
                1 <= r < old(self).glen() && 0 <= c < old(self).glen() ==> #[trigger] final(self).slot(r, c) == old(self).slot(r - 1, c),
    {
        let glen = self.map.len();
        let lod_len = 2 * (self.lod_extent as usize) + 1;
        let row = Self::empty_row(glen, lod_len);
        let ev = self.map.shift_right_with(row);
        proof {
            let g = old(self).glen();
            let ll = old(self).llen();
            assert forall|rr: int| 0 <= rr < g implies (#[trigger] self.map@[rr]).wf()
                && self.map@[rr]@.len() == g by {
                if rr == 0 {
                    assert(self.map@[0] == row);
                } else {
                    assert(self.map@[rr] == old(self).map@[rr - 1]);
                    assert(old(self).map@[rr - 1].wf() && old(self).map@[rr - 1]@.len() == g);
                }
            }
            assert forall|rr: int, c: int| 0 <= rr < g && 0 <= c < g implies (#[trigger] self.slot(
                rr,
                c,
            )).wf(ll) by {
                if rr == 0 {
                    assert(self.map@[0] == row);
                    assert(row@[c].wf(ll));
                } else {
                    assert(self.map@[rr] == old(self).map@[rr - 1]);
                    assert(old(self).slot(rr - 1, c).wf(ll));
                }
            }
        }
        ev.to_array()
    }

    /// Shifts every row one step toward lower row indices: the slot window
    /// follows an anchor that moved one cell toward higher `y`. Returns the
    /// evicted row that held offset `-extent`.
    fn shift_down(&mut self) -> (evicted: Vec<Slot>)
        requires
            old(self).wf_shape(),
        ensures
            final(self).wf_shape(),
            final(self).same_config(old(self)),
            evicted@.len() == old(self).glen(),
            forall|c: int| 0 <= c < old(self).glen() ==> evicted@[c] == old(self).slot(0, c),
            forall|c: int|
                0 <= c < old(self).glen() ==> (#[trigger] final(self).slot(
                    old(self).glen() - 1,
                    c,
                )).entries() == empty_entries(old(self).llen()),
            forall|r: int, c: int|
                0 <= r < old(self).glen() - 1 && 0 <= c < old(self).glen() ==> #[trigger] final(self).slot(r, c) == old(self).slot(r + 1, c),
    {
        let glen = self.map.len();
        let lod_len = 2 * (self.lod_extent as usize) + 1;
        let row = Self::empty_row(glen, lod_len);
        let ev = self.map.shift_left_with(row);
        proof {
            let g = old(self).glen();
            let ll = old(self).llen();
            assert forall|rr: int| 0 <= rr < g implies (#[trigger] self.map@[rr]).wf()
                && self.map@[rr]@.len() == g by {
                if rr == g - 1 {
                    assert(self.map@[g - 1] == row);
                } else {
                    assert(self.map@[rr] == old(self).map@[rr + 1]);
                    assert(old(self).map@[rr + 1].wf() && old(self).map@[rr + 1]@.len() == g);
                }
            }
            assert forall|rr: int, c: int| 0 <= rr < g && 0 <= c < g implies (#[trigger] self.slot(
                rr,
                c,
            )).wf(ll) by {
                if rr == g - 1 {
                    assert(self.map@[g - 1] == row);
                    assert(row@[c].wf(ll));
                } else {
                    assert(self.map@[rr] == old(self).map@[rr + 1]);
                    assert(old(self).slot(rr + 1, c).wf(ll));
                }
            }
        }
        ev.to_array()
    }

    /// Shifts every column one step toward higher column indices: the slot
    /// window follows an anchor that moved one cell toward lower `x`.
    /// Returns the evicted outermost column.
    fn shift_right(&mut self) -> (evicted: Vec<Slot>)
        requires
            old(self).wf_shape(),
        ensures
            final(self).wf_shape(),
            final(self).same_config(old(self)),
            evicted@.len() == old(self).glen(),
            forall|r: int|
                0 <= r < old(self).glen() ==> evicted@[r] == old(self).slot(
                    r,
                    old(self).glen() - 1,
                ),
            forall|r: int|
                0 <= r < old(self).glen() ==> (#[trigger] final(self).slot(r, 0)).entries()
                    == empty_entries(old(self).llen()),
            forall|r: int, c: int|
                0 <= r < old(self).glen() && 1 <= c < old(self).glen() ==> #[trigger] final(self).slot(r, c) == old(self).slot(r, c - 1),
    {
        let glen = self.map.len();
        let mut evicted: Vec<Slot> = Vec::new();
        let mut r: usize = 0;
        while r < glen
            invariant
                old(self).wf_shape(),
                glen == old(self).glen(),
                r <= glen,
                self.same_config(old(self)),
                self.map.wf(),
                self.map@.len() == glen,
                evicted@.len() == r,
                forall|i: int| r <= i < glen ==> self.map@[i] == old(self).map@[i],
                forall|i: int|
                    0 <= i < r ==> evicted@[i] == old(self).slot(i, glen - 1),
                forall|i: int|
                    0 <= i < r ==> (#[trigger] self.map@[i]).wf() && self.map@[i]@.len() == glen,
                forall|i: int|
                    0 <= i < r ==> (#[trigger] self.slot(i, 0)).entries() == empty_entries(
                        old(self).llen(),
                    ) && self.slot(i, 0).wf(old(self).llen()),
                forall|i: int, c: int|
                    0 <= i < r && 1 <= c < glen ==> #[trigger] self.slot(i, c) == old(self).slot(
                        i,
                        c - 1,
                    ),
            decreases glen - r,
        {
            let ghost s0 = *self;
            let lod_len = 2 * (self.lod_extent as usize) + 1;
            let filler = Slot::empty(lod_len);
            let row = self.map.get_mut(r);
            let ev = row.shift_right_with(filler);
            evicted.push(ev);
            proof {
                let ri = r as int;
                let ll = old(self).llen();
                assert forall|i: int| ri < i < glen implies self.map@[i] == old(self).map@[i] by {
                    assert(self.map@[i] == s0.map@[i]);
                    assert(s0.map@[i] == old(self).map@[i]);
                }
                assert forall|i: int| 0 <= i <= ri implies evicted@[i] == old(self).slot(
                    i,
                    glen - 1,
                ) by {
                    if i == ri {
                        assert(ev == s0.map@[ri]@[glen - 1]);
                        assert(s0.map@[ri] == old(self).map@[ri]);
                    }
                }
                assert forall|i: int| 0 <= i <= ri implies (#[trigger] self.map@[i]).wf()
                    && self.map@[i]@.len() == glen by {
                    if i < ri {
                        assert(self.map@[i] == s0.map@[i]);
                        assert(s0.map@[i].wf() && s0.map@[i]@.len() == glen);
                    }
                }
                assert forall|i: int| 0 <= i <= ri implies (#[trigger] self.slot(i, 0)).entries()
                    == empty_entries(ll) && self.slot(i, 0).wf(ll) by {
                    if i == ri {
                        assert(self.map@[ri]@[0] == filler);
                    } else {
                        assert(self.map@[i] == s0.map@[i]);
                        assert(s0.slot(i, 0).entries() == empty_entries(ll) && s0.slot(i, 0).wf(
                            ll,
                        ));
                    }
                }
                assert forall|i: int, c: int| 0 <= i <= ri && 1 <= c < glen implies #[trigger] self.slot(
                    i,
                    c,
                ) == old(self).slot(i, c - 1) by {
                    if i == ri {
                        assert(self.map@[ri]@[c] == s0.map@[ri]@[c - 1]);
                        assert(s0.map@[ri] == old(self).map@[ri]);
                    } else {
                        assert(self.map@[i] == s0.map@[i]);
                        assert(s0.slot(i, c) == old(self).slot(i, c - 1));
                    }
                }
            }
            r = r + 1;
        }
        proof {
            assert forall|rr: int, c: int|
                0 <= rr < old(self).glen() && 0 <= c < old(self).glen() implies (
            #[trigger] self.slot(rr, c)).wf(self.llen()) by {
                if c == 0 {
                    assert(self.slot(rr, 0).wf(old(self).llen()));
                } else {
                    assert(self.slot(rr, c) == old(self).slot(rr, c - 1));
                }
            }
        }
        evicted
    }

    /// Shifts every column one step toward lower column indices: the slot
    /// window follows an anchor that moved one cell toward higher `x`.
    /// Returns the evicted column that held offset `-extent`.
    fn shift_left(&mut self) -> (evicted: Vec<Slot>)
        requires
            old(self).wf_shape(),
        ensures
            final(self).wf_shape(),
            final(self).same_config(old(self)),
            evicted@.len() == old(self).glen(),
            forall|r: int| 0 <= r < old(self).glen() ==> evicted@[r] == old(self).slot(r, 0),
            forall|r: int|
                0 <= r < old(self).glen() ==> (#[trigger] final(self).slot(
                    r,
                    old(self).glen() - 1,
                )).entries() == empty_entries(old(self).llen()),
            forall|r: int, c: int|
                0 <= r < old(self).glen() && 0 <= c < old(self).glen() - 1 ==> #[trigger] final(self).slot(r, c) == old(self).slot(r, c + 1),
    {
        let glen = self.map.len();
        let mut evicted: Vec<Slot> = Vec::new();
        let mut r: usize = 0;
        while r < glen
            invariant
                old(self).wf_shape(),
                glen == old(self).glen(),
                r <= glen,
                self.same_config(old(self)),
                self.map.wf(),
                self.map@.len() == glen,
                evicted@.len() == r,
                forall|i: int| r <= i < glen ==> self.map@[i] == old(self).map@[i],
                forall|i: int| 0 <= i < r ==> evicted@[i] == old(self).slot(i, 0),
                forall|i: int|
                    0 <= i < r ==> (#[trigger] self.map@[i]).wf() && self.map@[i]@.len() == glen,
                forall|i: int|
                    0 <= i < r ==> (#[trigger] self.slot(i, glen - 1)).entries()
                        == empty_entries(old(self).llen()) && self.slot(i, glen - 1).wf(
                        old(self).llen(),
                    ),
                forall|i: int, c: int|
                    0 <= i < r && 0 <= c < glen - 1 ==> #[trigger] self.slot(i, c) == old(
                        self,
                    ).slot(i, c + 1),
            decreases glen - r,
        {
            let ghost s0 = *self;
            let lod_len = 2 * (self.lod_extent as usize) + 1;
            let filler = Slot::empty(lod_len);
            let row = self.map.get_mut(r);
            let ev = row.shift_left_with(filler);
            evicted.push(ev);
            proof {
                let ri = r as int;
                let ll = old(self).llen();
                assert forall|i: int| ri < i < glen implies self.map@[i] == old(self).map@[i] by {
                    assert(self.map@[i] == s0.map@[i]);
                    assert(s0.map@[i] == old(self).map@[i]);
                }
                assert forall|i: int| 0 <= i <= ri implies evicted@[i] == old(self).slot(i, 0) by {
                    if i == ri {
                        assert(ev == s0.map@[ri]@[0]);
                        assert(s0.map@[ri] == old(self).map@[ri]);
                    }
                }
                assert forall|i: int| 0 <= i <= ri implies (#[trigger] self.map@[i]).wf()
                    && self.map@[i]@.len() == glen by {
                    if i < ri {
                        assert(self.map@[i] == s0.map@[i]);
                        assert(s0.map@[i].wf() && s0.map@[i]@.len() == glen);
                    }
                }
                assert forall|i: int| 0 <= i <= ri implies (#[trigger] self.slot(
                    i,
                    glen - 1,
                )).entries() == empty_entries(ll) && self.slot(i, glen - 1).wf(ll) by {
                    if i == ri {
                        assert(self.map@[ri]@[glen - 1] == filler);
                    } else {
                        assert(self.map@[i] == s0.map@[i]);
                        assert(s0.slot(i, glen - 1).entries() == empty_entries(ll) && s0.slot(
                            i,
                            glen - 1,
                        ).wf(ll));
                    }
                }
                assert forall|i: int, c: int| 0 <= i <= ri && 0 <= c < glen - 1 implies #[trigger] self.slot(
                    i,
                    c,
                ) == old(self).slot(i, c + 1) by {
                    if i == ri {
                        assert(self.map@[ri]@[c] == s0.map@[ri]@[c + 1]);
                        assert(s0.map@[ri] == old(self).map@[ri]);
                    } else {
                        assert(self.map@[i] == s0.map@[i]);
                        assert(s0.slot(i, c) == old(self).slot(i, c + 1));
                    }
                }
            }
            r = r + 1;
        }
        proof {
            assert forall|rr: int, c: int|
                0 <= rr < old(self).glen() && 0 <= c < old(self).glen() implies (
            #[trigger] self.slot(rr, c)).wf(self.llen()) by {
                if c == old(self).glen() - 1 {
                    assert(self.slot(rr, c).wf(old(self).llen()));
                } else {
                    assert(self.slot(rr, c) == old(self).slot(rr, c + 1));
                }
            }
        }
        evicted
    }

    /// Appends every handle held by one evicted slot to `despawned`, in
    /// inner-ring order.
    fn despawn_slot(s: &Slot, despawned: &mut Vec<ChunkId>)
        requires
            s.0.wf(),
        ensures
            old(despawned)@.len() <= final(despawned)@.len(),
            forall|i: int|
                0 <= i < old(despawned)@.len() ==> final(despawned)@[i] == old(despawned)@[i],
            forall|k: int|
                0 <= k < s.entries().len() && (#[trigger] s.entries()[k]) is Some
                    ==> final(despawned)@.contains(s.entries()[k]->Some_0),
            forall|i: int|
                old(despawned)@.len() <= i < final(despawned)@.len() ==> s.entries().contains(
                    Some(#[trigger] final(despawned)@[i]),
                ),
    {
        broadcast use vstd::seq_lib::group_seq_properties;

        let n = s.0.len();
        let mut k: usize = 0;
        while k < n
            invariant
                s.0.wf(),
                n == s.entries().len(),
                k <= n,
                old(despawned)@.len() <= despawned@.len(),
                forall|i: int|
                    0 <= i < old(despawned)@.len() ==> despawned@[i] == old(despawned)@[i],
                forall|kk: int|
                    0 <= kk < k && (#[trigger] s.entries()[kk]) is Some ==> despawned@.contains(
                        s.entries()[kk]->Some_0,
                    ),
                forall|i: int|
                    old(despawned)@.len() <= i < despawned@.len() ==> s.entries().contains(
                        Some(#[trigger] despawned@[i]),
                    ),
            decreases n - k,
        {
            let ghost d0 = despawned@;
            let e = *s.0.get(k);
            if let Some(id) = e {
                despawned.push(id);
            }
            proof {
                assert forall|kk: int|
                    0 <= kk < k + 1 && (#[trigger] s.entries()[kk]) is Some implies despawned@.contains(
                    s.entries()[kk]->Some_0,
                ) by {
                    if kk < k {
                        assert(d0.contains(s.entries()[kk]->Some_0));
                        let j = choose|j: int| 0 <= j < d0.len() && d0[j] == s.entries()[kk]->Some_0;
                        assert(despawned@[j] == s.entries()[kk]->Some_0);
                    } else {
                        assert(despawned@[despawned@.len() - 1] == s.entries()[kk]->Some_0);
                    }
                }
                assert forall|i: int|
                    old(despawned)@.len() <= i < despawned@.len() implies s.entries().contains(
                    Some(#[trigger] despawned@[i]),
                ) by {
                    if i < d0.len() {
                        assert(despawned@[i] == d0[i]);
                        assert(s.entries().contains(Some(d0[i])));
                    } else {
                        assert(s.entries()[k as int] == Some(despawned@[i]));
                    }
                }
            }
            k = k + 1;
        }
    }

    /// Some slot among `slots` binds the handle `id`.
    pub open spec fn slots_hold(slots: Seq<Slot>, id: ChunkId) -> bool {
        exists|c: int|
            0 <= c < slots.len() && (#[trigger] slots[c]).entries().contains(Some(id))
    }

    /// Picks a position witnessing that `slots` hold `id`.
    proof fn lemma_slots_hold_position(slots: Seq<Slot>, id: ChunkId) -> (p: (int, int))
        requires
            Self::slots_hold(slots, id),
        ensures
            0 <= p.0 < slots.len(),
            0 <= p.1 < slots[p.0].entries().len(),
            slots[p.0].entries()[p.1] == Some(id),
    {
        let c = choose|c: int|
            0 <= c < slots.len() && (#[trigger] slots[c]).entries().contains(Some(id));
        let k = choose|k: int|
            0 <= k < slots[c].entries().len() && slots[c].entries()[k] == Some(id);
        (c, k)
    }

    /// Appends every handle held by the given evicted slots to `despawned`,
    /// in reading order: the despawn requests for one shifted-out row or
    /// column.
    fn despawn_slots(slots: &Vec<Slot>, despawned: &mut Vec<ChunkId>)
        requires
            forall|c: int| 0 <= c < slots@.len() ==> (#[trigger] slots@[c]).0.wf(),
        ensures
            old(despawned)@.len() <= final(despawned)@.len(),
            forall|i: int|
                0 <= i < old(despawned)@.len() ==> final(despawned)@[i] == old(despawned)@[i],
            forall|c: int, k: int|
                0 <= c < slots@.len() && 0 <= k < slots@[c].entries().len() && (
                #[trigger] slots@[c].entries()[k]) is Some ==> final(despawned)@.contains(
                    slots@[c].entries()[k]->Some_0,
                ),
            forall|i: int|
                old(despawned)@.len() <= i < final(despawned)@.len() ==> Self::slots_hold(
                    slots@,
                    #[trigger] final(despawned)@[i],
                ),
    {
        let mut c: usize = 0;
        while c < slots.len()
            invariant
                forall|cc: int| 0 <= cc < slots@.len() ==> (#[trigger] slots@[cc]).0.wf(),
                c <= slots@.len(),
                old(despawned)@.len() <= despawned@.len(),
                forall|i: int|
                    0 <= i < old(despawned)@.len() ==> despawned@[i] == old(despawned)@[i],
                forall|cc: int, k: int|
                    0 <= cc < c && 0 <= k < slots@[cc].entries().len() && (
                    #[trigger] slots@[cc].entries()[k]) is Some ==> despawned@.contains(
                        slots@[cc].entries()[k]->Some_0,
                    ),
                forall|i: int|
                    old(despawned)@.len() <= i < despawned@.len() ==> Self::slots_hold(
                        slots@,
                        #[trigger] despawned@[i],
                    ),
            decreases slots@.len() - c,
        {
            let ghost d0 = despawned@;
            Self::despawn_slot(&slots[c], despawned);
            proof {
                assert forall|cc: int, k: int|
                    0 <= cc < c + 1 && 0 <= k < slots@[cc].entries().len() && (
                #[trigger] slots@[cc].entries()[k]) is Some implies despawned@.contains(
                    slots@[cc].entries()[k]->Some_0,
                ) by {
                    if cc < c {
                        assert(d0.contains(slots@[cc].entries()[k]->Some_0));
                        let j = choose|j: int|
                            0 <= j < d0.len() && d0[j] == slots@[cc].entries()[k]->Some_0;
                        assert(despawned@[j] == slots@[cc].entries()[k]->Some_0);
                    }
                }
                assert forall|i: int|
                    old(despawned)@.len() <= i < despawned@.len() implies Self::slots_hold(
                    slots@,
                    #[trigger] despawned@[i],
                ) by {
                    if i < d0.len() {
                        assert(despawned@[i] == d0[i]);
                        assert(Self::slots_hold(slots@, d0[i]));
                    } else {
                        assert(slots@[c as int].entries().contains(Some(despawned@[i])));
                    }
                }
            }
            c = c + 1;
        }
    }

    /// Realigns the window after a whole vertical anchor move of `dy_m`
    /// cells, one row step at a time, appending every evicted handle to
    /// `despawned`.
    fn shift_rows(&mut self, dy_m: i64, despawned: &mut Vec<ChunkId>)
        requires
            old(self).wf_shape(),
            -0x1_0000_0000 <= dy_m <= 0x1_0000_0000,
        ensures
            final(self).wf_shape(),
            final(self).same_config(old(self)),
            forall|r: int, c: int|
                0 <= r < old(self).glen() && 0 <= c < old(self).glen() && 0 <= r + dy_m < old(
                    self,
                ).glen() ==> #[trigger] final(self).slot(r, c) == old(self).slot(r + dy_m, c),
            forall|r: int, c: int|
                0 <= r < old(self).glen() && 0 <= c < old(self).glen() && !(0 <= r + dy_m < old(
                    self,
                ).glen()) ==> (#[trigger] final(self).slot(r, c)).entries() == empty_entries(
                    old(self).llen(),
                ),
            old(despawned)@.len() <= final(despawned)@.len(),
            forall|i: int|
                0 <= i < old(despawned)@.len() ==> final(despawned)@[i] == old(despawned)@[i],
            forall|r: int, c: int, k: int, id: ChunkId|
                #[trigger] old(self).live_at(r, c, k, id) && !(0 <= r - dy_m < old(self).glen())
                    ==> final(despawned)@.contains(id),
            forall|i: int|
                old(despawned)@.len() <= i < final(despawned)@.len() ==> old(self).row_evicts(
                    dy_m as int,
                    #[trigger] final(despawned)@[i],
                ),
            dy_m == 0 ==> *final(self) == *old(self) && final(despawned)@ == old(despawned)@,
    {
        if dy_m < 0 {
            let steps: i64 = -dy_m;
            let mut j: i64 = 0;
            while j < steps
                invariant
                    old(self).wf_shape(),
                    self.wf_shape(),
                    self.same_config(old(self)),
                    0 <= j <= steps,
                    steps == -dy_m,
                    dy_m < 0,
                    -0x1_0000_0000 <= dy_m <= 0x1_0000_0000,
                    forall|r: int, c: int|
                        0 <= r < old(self).glen() && 0 <= c < old(self).glen() && 0 <= r - j
                            < old(self).glen() ==> #[trigger] self.slot(r, c) == old(self).slot(
                            r - j,
                            c,
                        ),
                    forall|r: int, c: int|
                        0 <= r < old(self).glen() && 0 <= c < old(self).glen() && !(0 <= r - j
                            < old(self).glen()) ==> (#[trigger] self.slot(r, c)).entries()
                            == empty_entries(old(self).llen()),
                    old(despawned)@.len() <= despawned@.len(),
                    forall|i: int|
                        0 <= i < old(despawned)@.len() ==> despawned@[i] == old(despawned)@[i],
                    forall|r: int, c: int, k: int, id: ChunkId|
                        #[trigger] old(self).live_at(r, c, k, id) && r >= old(self).glen() - j
                            ==> despawned@.contains(id),
                    forall|i: int|
                        old(despawned)@.len() <= i < despawned@.len() ==> old(self).row_evicts(
                            dy_m as int,
                            #[trigger] despawned@[i],
                        ),
                decreases steps - j,
            {
                let ghost s0 = *self;
                let ghost d0 = despawned@;
                let ev = self.shift_up();
                proof {
                    let g = old(self).glen();
                    assert forall|cc: int| 0 <= cc < ev@.len() implies (
                    #[trigger] ev@[cc]).0.wf() by {
                        assert(ev@[cc] == s0.slot(g - 1, cc));
                        if 0 <= g - 1 - j < g {
                            assert(s0.slot(g - 1, cc) == old(self).slot(g - 1 - j, cc));
                            assert(old(self).slot(g - 1 - j, cc).wf(old(self).llen()));
                        } else {
                            assert(s0.slot(g - 1, cc).entries() == empty_entries(
                                old(self).llen(),
                            ));
                        }
                    }
                }
                Self::despawn_slots(&ev, despawned);
                proof {
                    let g = old(self).glen();
                    let ll = old(self).llen();
                    assert forall|r: int, c: int|
                        0 <= r < g && 0 <= c < g && 0 <= r - (j + 1) < g implies #[trigger] self.slot(
                        r,
                        c,
                    ) == old(self).slot(r - (j + 1), c) by {
                        assert(self.slot(r, c) == s0.slot(r - 1, c));
                        assert(s0.slot(r - 1, c) == old(self).slot(r - 1 - j, c));
                    }
                    assert forall|r: int, c: int|
                        0 <= r < g && 0 <= c < g && !(0 <= r - (j + 1) < g) implies (
                    #[trigger] self.slot(r, c)).entries() == empty_entries(ll) by {
                        if r == 0 {
                            assert(self.slot(0, c).entries() == empty_entries(ll));
                        } else {
                            assert(self.slot(r, c) == s0.slot(r - 1, c));
                            assert(s0.slot(r - 1, c).entries() == empty_entries(ll));
                        }
                    }
                    assert forall|r: int, c: int, k: int, id: ChunkId|
                        #[trigger] old(self).live_at(r, c, k, id) && r >= g - (j + 1) implies despawned@.contains(
                        id,
                    ) by {
                        if r >= g - j {
                            assert(d0.contains(id));
                            let i = choose|i: int| 0 <= i < d0.len() && d0[i] == id;
                            assert(despawned@[i] == id);
                        } else {
                            // the row evicted by this step
                            assert(0 <= g - 1 - j < g);
                            assert(ev@[c] == s0.slot(g - 1, c));
                            assert(s0.slot(g - 1, c) == old(self).slot(r, c));
                            assert(ev@[c].entries()[k] == Some(id));
                        }
                    }
                    assert forall|i: int|
                        old(despawned)@.len() <= i < despawned@.len() implies old(
                        self,
                    ).row_evicts(dy_m as int, #[trigger] despawned@[i]) by {
                        if i < d0.len() {
                            assert(despawned@[i] == d0[i]);
                            assert(old(self).row_evicts(dy_m as int, d0[i]));
                        } else {
                            assert(Self::slots_hold(ev@, despawned@[i]));
                            let (cc, kk) = Self::lemma_slots_hold_position(ev@, despawned@[i]);
                            let g2 = old(self).glen();
                            assert(ev@[cc] == s0.slot(g2 - 1, cc));
                            if 0 <= g2 - 1 - j < g2 {
                                assert(s0.slot(g2 - 1, cc) == old(self).slot(g2 - 1 - j, cc));
                                assert(old(self).live_at(g2 - 1 - j, cc, kk, despawned@[i]));
                                assert((g2 - 1 - j) - dy_m >= g2);
                            } else {
                                assert(s0.slot(g2 - 1, cc).entries() == empty_entries(
                                    old(self).llen(),
                                ));
                            }
                        }
                    }
                }
                j = j + 1;
            }
        } else {
            let mut j: i64 = 0;
            while j < dy_m
                invariant
                    old(self).wf_shape(),
                    self.wf_shape(),
                    self.same_config(old(self)),
                    0 <= j,
                    j <= dy_m || j == 0,
                    0 <= dy_m <= 0x1_0000_0000,
                    j == 0 ==> *self == *old(self) && despawned@ == old(despawned)@,
                    forall|r: int, c: int|
                        0 <= r < old(self).glen() && 0 <= c < old(self).glen() && 0 <= r + j
                            < old(self).glen() ==> #[trigger] self.slot(r, c) == old(self).slot(
                            r + j,
                            c,
                        ),
                    forall|r: int, c: int|
                        0 <= r < old(self).glen() && 0 <= c < old(self).glen() && !(0 <= r + j
                            < old(self).glen()) ==> (#[trigger] self.slot(r, c)).entries()
                            == empty_entries(old(self).llen()),
                    old(despawned)@.len() <= despawned@.len(),
                    forall|i: int|
                        0 <= i < old(despawned)@.len() ==> despawned@[i] == old(despawned)@[i],
                    forall|r: int, c: int, k: int, id: ChunkId|
                        #[trigger] old(self).live_at(r, c, k, id) && r < j ==> despawned@.contains(
                            id,
                        ),
                    forall|i: int|
                        old(despawned)@.len() <= i < despawned@.len() ==> old(self).row_evicts(
                            dy_m as int,
                            #[trigger] despawned@[i],
                        ),
                decreases dy_m - j,
            {
                let ghost s0 = *self;
                let ghost d0 = despawned@;
                let ev = self.shift_down();
                proof {
                    let g = old(self).glen();
                    assert forall|cc: int| 0 <= cc < ev@.len() implies (
                    #[trigger] ev@[cc]).0.wf() by {
                        assert(ev@[cc] == s0.slot(0, cc));
                        if 0 <= j < g {
                            assert(s0.slot(0, cc) == old(self).slot(j as int, cc));
                            assert(old(self).slot(j as int, cc).wf(old(self).llen()));
                        } else {
                            assert(s0.slot(0, cc).entries() == empty_entries(old(self).llen()));
                        }
                    }
                }
                Self::despawn_slots(&ev, despawned);
                proof {
                    let g = old(self).glen();
                    let ll = old(self).llen();
                    assert forall|r: int, c: int|
                        0 <= r < g && 0 <= c < g && 0 <= r + (j + 1) < g implies #[trigger] self.slot(
                        r,
                        c,
                    ) == old(self).slot(r + (j + 1), c) by {
                        assert(self.slot(r, c) == s0.slot(r + 1, c));
                        assert(s0.slot(r + 1, c) == old(self).slot(r + 1 + j, c));
                    }
                    assert forall|r: int, c: int|
                        0 <= r < g && 0 <= c < g && !(0 <= r + (j + 1) < g) implies (
                    #[trigger] self.slot(r, c)).entries() == empty_entries(ll) by {
                        if r == g - 1 {
                            assert(self.slot(g - 1, c).entries() == empty_entries(ll));
                        } else {
                            assert(self.slot(r, c) == s0.slot(r + 1, c));
                            assert(s0.slot(r + 1, c).entries() == empty_entries(ll));
                        }
                    }
                    assert forall|r: int, c: int, k: int, id: ChunkId|
                        #[trigger] old(self).live_at(r, c, k, id) && r < j + 1 implies despawned@.contains(
                        id,
                    ) by {
                        if r < j {
                            assert(d0.contains(id));
                            let i = choose|i: int| 0 <= i < d0.len() && d0[i] == id;
                            assert(despawned@[i] == id);
                        } else {
                            assert(0 <= j < g);
                            assert(ev@[c] == s0.slot(0, c));
                            assert(s0.slot(0, c) == old(self).slot(r, c));
                            assert(ev@[c].entries()[k] == Some(id));
                        }
                    }
                    assert forall|i: int|
                        old(despawned)@.len() <= i < despawned@.len() implies old(
                        self,
                    ).row_evicts(dy_m as int, #[trigger] despawned@[i]) by {
                        if i < d0.len() {
                            assert(despawned@[i] == d0[i]);
                            assert(old(self).row_evicts(dy_m as int, d0[i]));
                        } else {
                            assert(Self::slots_hold(ev@, despawned@[i]));
                            let (cc, kk) = Self::lemma_slots_hold_position(ev@, despawned@[i]);
                            let g2 = old(self).glen();
                            assert(ev@[cc] == s0.slot(0, cc));
                            if 0 <= j < g2 {
                                assert(s0.slot(0, cc) == old(self).slot(j as int, cc));
                                assert(old(self).live_at(j as int, cc, kk, despawned@[i]));
                                assert(j - dy_m < 0);
                            } else {
                                assert(s0.slot(0, cc).entries() == empty_entries(
                                    old(self).llen(),
                                ));
                            }
                        }
                    }
                }
                j = j + 1;
            }
        }
    }

    /// Realigns the window after a whole horizontal anchor move of `dx_m`
    /// cells, one column step at a time, appending every evicted handle to
    /// `despawned`.
    fn shift_cols(&mut self, dx_m: i64, despawned: &mut Vec<ChunkId>)
        requires
            old(self).wf_shape(),
            -0x1_0000_0000 <= dx_m <= 0x1_0000_0000,
        ensures
            final(self).wf_shape(),
            final(self).same_config(old(self)),
            forall|r: int, c: int|
                0 <= r < old(self).glen() && 0 <= c < old(self).glen() && 0 <= c + dx_m < old(
                    self,
                ).glen() ==> #[trigger] final(self).slot(r, c) == old(self).slot(r, c + dx_m),
            forall|r: int, c: int|
                0 <= r < old(self).glen() && 0 <= c < old(self).glen() && !(0 <= c + dx_m < old(
                    self,
                ).glen()) ==> (#[trigger] final(self).slot(r, c)).entries() == empty_entries(
                    old(self).llen(),
                ),
            old(despawned)@.len() <= final(despawned)@.len(),
            forall|i: int|
                0 <= i < old(despawned)@.len() ==> final(despawned)@[i] == old(despawned)@[i],
            forall|r: int, c: int, k: int, id: ChunkId|
                #[trigger] old(self).live_at(r, c, k, id) && !(0 <= c - dx_m < old(self).glen())
                    ==> final(despawned)@.contains(id),
            forall|i: int|
                old(despawned)@.len() <= i < final(despawned)@.len() ==> old(self).col_evicts(
                    dx_m as int,
                    #[trigger] final(despawned)@[i],
                ),
            dx_m == 0 ==> *final(self) == *old(self) && final(despawned)@ == old(despawned)@,
    {
        if dx_m < 0 {
            let steps: i64 = -dx_m;
            let mut j: i64 = 0;
            while j < steps
                invariant
                    old(self).wf_shape(),
                    self.wf_shape(),
                    self.same_config(old(self)),
                    0 <= j <= steps,
                    steps == -dx_m,
                    dx_m < 0,
                    -0x1_0000_0000 <= dx_m <= 0x1_0000_0000,
                    forall|r: int, c: int|
                        0 <= r < old(self).glen() && 0 <= c < old(self).glen() && 0 <= c - j
                            < old(self).glen() ==> #[trigger] self.slot(r, c) == old(self).slot(
                            r,
                            c - j,
                        ),
                    forall|r: int, c: int|
                        0 <= r < old(self).glen() && 0 <= c < old(self).glen() && !(0 <= c - j
                            < old(self).glen()) ==> (#[trigger] self.slot(r, c)).entries()
                            == empty_entries(old(self).llen()),
                    old(despawned)@.len() <= despawned@.len(),
                    forall|i: int|
                        0 <= i < old(despawned)@.len() ==> despawned@[i] == old(despawned)@[i],
                    forall|r: int, c: int, k: int, id: ChunkId|
                        #[trigger] old(self).live_at(r, c, k, id) && c >= old(self).glen() - j
                            ==> despawned@.contains(id),
                    forall|i: int|
                        old(despawned)@.len() <= i < despawned@.len() ==> old(self).col_evicts(
                            dx_m as int,
                            #[trigger] despawned@[i],
                        ),
                decreases steps - j,
            {
                let ghost s0 = *self;
                let ghost d0 = despawned@;
                let ev = self.shift_right();
                proof {
                    let g = old(self).glen();
                    assert forall|rr: int| 0 <= rr < ev@.len() implies (
                    #[trigger] ev@[rr]).0.wf() by {
                        assert(ev@[rr] == s0.slot(rr, g - 1));
                        if 0 <= g - 1 - j < g {
                            assert(s0.slot(rr, g - 1) == old(self).slot(rr, g - 1 - j));
                            assert(old(self).slot(rr, g - 1 - j).wf(old(self).llen()));
                        } else {
                            assert(s0.slot(rr, g - 1).entries() == empty_entries(
                                old(self).llen(),
                            ));
                        }
                    }
                }
                Self::despawn_slots(&ev, despawned);
                proof {
                    let g = old(self).glen();
                    let ll = old(self).llen();
                    assert forall|r: int, c: int|
                        0 <= r < g && 0 <= c < g && 0 <= c - (j + 1) < g implies #[trigger] self.slot(
                        r,
                        c,
                    ) == old(self).slot(r, c - (j + 1)) by {
                        assert(self.slot(r, c) == s0.slot(r, c - 1));
                        assert(s0.slot(r, c - 1) == old(self).slot(r, c - 1 - j));
                    }
                    assert forall|r: int, c: int|
                        0 <= r < g && 0 <= c < g && !(0 <= c - (j + 1) < g) implies (
                    #[trigger] self.slot(r, c)).entries() == empty_entries(ll) by {
                        if c == 0 {
                            assert(self.slot(r, 0).entries() == empty_entries(ll));
                        } else {
                            assert(self.slot(r, c) == s0.slot(r, c - 1));
                            assert(s0.slot(r, c - 1).entries() == empty_entries(ll));
                        }
                    }
                    assert forall|r: int, c: int, k: int, id: ChunkId|
                        #[trigger] old(self).live_at(r, c, k, id) && c >= g - (j + 1) implies despawned@.contains(
                        id,
                    ) by {
                        if c >= g - j {
                            assert(d0.contains(id));
                            let i = choose|i: int| 0 <= i < d0.len() && d0[i] == id;
                            assert(despawned@[i] == id);
                        } else {
                            assert(0 <= g - 1 - j < g);
                            assert(ev@[r] == s0.slot(r, g - 1));
                            assert(s0.slot(r, g - 1) == old(self).slot(r, c));
                            assert(ev@[r].entries()[k] == Some(id));
                        }
                    }
                    assert forall|i: int|
                        old(despawned)@.len() <= i < despawned@.len() implies old(
                        self,
                    ).col_evicts(dx_m as int, #[trigger] despawned@[i]) by {
                        if i < d0.len() {
                            assert(despawned@[i] == d0[i]);
                            assert(old(self).col_evicts(dx_m as int, d0[i]));
                        } else {
                            assert(Self::slots_hold(ev@, despawned@[i]));
                            let (rr, kk) = Self::lemma_slots_hold_position(ev@, despawned@[i]);
                            let g2 = old(self).glen();
                            assert(ev@[rr] == s0.slot(rr, g2 - 1));
                            if 0 <= g2 - 1 - j < g2 {
                                assert(s0.slot(rr, g2 - 1) == old(self).slot(rr, g2 - 1 - j));
                                assert(old(self).live_at(rr, g2 - 1 - j, kk, despawned@[i]));
                                assert((g2 - 1 - j) - dx_m >= g2);
                            } else {
                                assert(s0.slot(rr, g2 - 1).entries() == empty_entries(
                                    old(self).llen(),
                                ));
                            }
                        }
                    }
                }
                j = j + 1;
            }
        } else {
            let mut j: i64 = 0;
            while j < dx_m
                invariant
                    old(self).wf_shape(),
                    self.wf_shape(),
                    self.same_config(old(self)),
                    0 <= j,
                    j <= dx_m || j == 0,
                    0 <= dx_m <= 0x1_0000_0000,
                    j == 0 ==> *self == *old(self) && despawned@ == old(despawned)@,
                    forall|r: int, c: int|
                        0 <= r < old(self).glen() && 0 <= c < old(self).glen() && 0 <= c + j
                            < old(self).glen() ==> #[trigger] self.slot(r, c) == old(self).slot(
                            r,
                            c + j,
                        ),
                    forall|r: int, c: int|
                        0 <= r < old(self).glen() && 0 <= c < old(self).glen() && !(0 <= c + j
                            < old(self).glen()) ==> (#[trigger] self.slot(r, c)).entries()
                            == empty_entries(old(self).llen()),
                    old(despawned)@.len() <= despawned@.len(),
                    forall|i: int|
                        0 <= i < old(despawned)@.len() ==> despawned@[i] == old(despawned)@[i],
                    forall|r: int, c: int, k: int, id: ChunkId|
                        #[trigger] old(self).live_at(r, c, k, id) && c < j ==> despawned@.contains(
                            id,
                        ),
                    forall|i: int|
                        old(despawned)@.len() <= i < despawned@.len() ==> old(self).col_evicts(
                            dx_m as int,
                            #[trigger] despawned@[i],
                        ),
                decreases dx_m - j,
            {
                let ghost s0 = *self;
                let ghost d0 = despawned@;
                let ev = self.shift_left();
                proof {
                    let g = old(self).glen();
                    assert forall|rr: int| 0 <= rr < ev@.len() implies (
                    #[trigger] ev@[rr]).0.wf() by {
                        assert(ev@[rr] == s0.slot(rr, 0));
                        if 0 <= j < g {
                            assert(s0.slot(rr, 0) == old(self).slot(rr, j as int));
                            assert(old(self).slot(rr, j as int).wf(old(self).llen()));
                        } else {
                            assert(s0.slot(rr, 0).entries() == empty_entries(old(self).llen()));
                        }
                    }
                }
                Self::despawn_slots(&ev, despawned);
                proof {
                    let g = old(self).glen();
                    let ll = old(self).llen();
                    assert forall|r: int, c: int|
                        0 <= r < g && 0 <= c < g && 0 <= c + (j + 1) < g implies #[trigger] self.slot(
                        r,
                        c,
                    ) == old(self).slot(r, c + (j + 1)) by {
                        assert(self.slot(r, c) == s0.slot(r, c + 1));
                        assert(s0.slot(r, c + 1) == old(self).slot(r, c + 1 + j));
                    }
                    assert forall|r: int, c: int|
                        0 <= r < g && 0 <= c < g && !(0 <= c + (j + 1) < g) implies (
                    #[trigger] self.slot(r, c)).entries() == empty_entries(ll) by {
                        if c == g - 1 {
                            assert(self.slot(r, g - 1).entries() == empty_entries(ll));
                        } else {
                            assert(self.slot(r, c) == s0.slot(r, c + 1));
                            assert(s0.slot(r, c + 1).entries() == empty_entries(ll));
                        }
                    }
                    assert forall|r: int, c: int, k: int, id: ChunkId|
                        #[trigger] old(self).live_at(r, c, k, id) && c < j + 1 implies despawned@.contains(
                        id,
                    ) by {
                        if c < j {
                            assert(d0.contains(id));
                            let i = choose|i: int| 0 <= i < d0.len() && d0[i] == id;
                            assert(despawned@[i] == id);
                        } else {
                            assert(0 <= j < g);
                            assert(ev@[r] == s0.slot(r, 0));
                            assert(s0.slot(r, 0) == old(self).slot(r, c));
                            assert(ev@[r].entries()[k] == Some(id));
                        }
                    }
                    assert forall|i: int|
                        old(despawned)@.len() <= i < despawned@.len() implies old(
                        self,
                    ).col_evicts(dx_m as int, #[trigger] despawned@[i]) by {
                        if i < d0.len() {
                            assert(despawned@[i] == d0[i]);
                            assert(old(self).col_evicts(dx_m as int, d0[i]));
                        } else {
                            assert(Self::slots_hold(ev@, despawned@[i]));
                            let (rr, kk) = Self::lemma_slots_hold_position(ev@, despawned@[i]);
                            let g2 = old(self).glen();
                            assert(ev@[rr] == s0.slot(rr, 0));
                            if 0 <= j < g2 {
                                assert(s0.slot(rr, 0) == old(self).slot(rr, j as int));
                                assert(old(self).live_at(rr, j as int, kk, despawned@[i]));
                                assert(j - dx_m < 0);
                            } else {
                                assert(s0.slot(rr, 0).entries() == empty_entries(
                                    old(self).llen(),
                                ));
                            }
                        }
                    }
                }
                j = j + 1;
            }
        }
    }

    /// Turns one slot's inner ring by `lod_off` steps, appending every
    /// evicted handle to `despawned`: the binding at index `k` afterwards is
    /// the one that sat at `k + lod_off`, and bindings with no index left to
    /// sit at are evicted.
    fn shift_slot(slot: &mut Slot, lod_off: i64, despawned: &mut Vec<ChunkId>)
        requires
            old(slot).0.wf(),
            -0x3_0000_0000 <= lod_off <= 0x3_0000_0000,
        ensures
            final(slot).0.wf(),
            final(slot).entries().len() == old(slot).entries().len(),
            final(slot).entries() == inner_shifted(old(slot).entries(), lod_off as int),
            old(despawned)@.len() <= final(despawned)@.len(),
            forall|i: int|
                0 <= i < old(despawned)@.len() ==> final(despawned)@[i] == old(despawned)@[i],
            forall|k: int|
                0 <= k < old(slot).entries().len() && (#[trigger] old(slot).entries()[k]) is Some
                    && !(0 <= k - lod_off < old(slot).entries().len())
                    ==> final(despawned)@.contains(old(slot).entries()[k]->Some_0),
            forall|i: int|
                old(despawned)@.len() <= i < final(despawned)@.len() ==> evicted_from(
                    old(slot).entries(),
                    lod_off as int,
                    #[trigger] final(despawned)@[i],
                ),
    {
        broadcast use vstd::seq_lib::group_seq_properties;

        let ghost start = old(slot).entries();
        let ghost n = start.len() as int;
        if lod_off >= 0 {
            let mut t: i64 = 0;
            while t < lod_off
                invariant
                    0 <= t,
                    t <= lod_off || t == 0,
                    0 <= lod_off <= 0x3_0000_0000,
                    slot.0.wf(),
                    n == start.len(),
                    slot.entries().len() == n,
                    forall|k: int|
                        0 <= k < n ==> #[trigger] slot.entries()[k] == (if k + t < n {
                            start[k + t]
                        } else {
                            None
                        }),
                    old(despawned)@.len() <= despawned@.len(),
                    forall|i: int|
                        0 <= i < old(despawned)@.len() ==> despawned@[i] == old(despawned)@[i],
                    forall|k: int|
                        0 <= k < n && (#[trigger] start[k]) is Some && k < t
                            ==> despawned@.contains(start[k]->Some_0),
                    forall|i: int|
                        #![trigger despawned@[i]]
                        old(despawned)@.len() <= i < despawned@.len() ==> exists|k: int|
                            0 <= k < n && (#[trigger] start[k]) == Some(despawned@[i]) && k < t,
                decreases lod_off - t,
            {
                let ghost d0 = despawned@;
                let ghost sb = slot.entries();
                let ev = slot.0.shift_left_with(None);
                if let Some(id) = ev {
                    despawned.push(id);
                }
                proof {
                    assert(ev == sb[0]);
                    if t < n {
                        assert(sb[0] == start[t as int]);
                        assert(ev == start[t as int]);
                    } else {
                        assert(sb[0] is None);
                        assert(ev is None);
                    }
                    assert forall|k: int|
                        0 <= k < n && (#[trigger] start[k]) is Some && k < t + 1 implies despawned@.contains(
                        start[k]->Some_0,
                    ) by {
                        if k < t {
                            assert(d0.contains(start[k]->Some_0));
                            let j = choose|j: int| 0 <= j < d0.len() && d0[j] == start[k]->Some_0;
                            assert(despawned@[j] == start[k]->Some_0);
                        } else {
                            assert(despawned@[despawned@.len() - 1] == start[k]->Some_0);
                        }
                    }
                    assert forall|i: int|
                        #![trigger despawned@[i]]
                        old(despawned)@.len() <= i < despawned@.len() implies exists|k: int|
                            0 <= k < n && (#[trigger] start[k]) == Some(despawned@[i]) && k < t
                                + 1 by {
                        if i < d0.len() {
                            assert(despawned@[i] == d0[i]);
                            let k = choose|k: int|
                                0 <= k < n && (#[trigger] start[k]) == Some(d0[i]) && k < t;
                            assert(start[k] == Some(despawned@[i]));
                        } else {
                            assert(start[t as int] == Some(despawned@[i]));
                        }
                    }
                }
                t = t + 1;
            }
            proof {
                assert forall|i: int|
                    old(despawned)@.len() <= i < despawned@.len() implies evicted_from(
                    start,
                    lod_off as int,
                    #[trigger] despawned@[i],
                ) by {
                    let k = choose|k: int|
                        0 <= k < n && (#[trigger] start[k]) == Some(despawned@[i]) && k < t;
                    assert(start[k] == Some(despawned@[i]) && !(0 <= k - lod_off < n));
                }
            }
        } else {
            let steps: i64 = -lod_off;
            let mut t: i64 = 0;
            while t < steps
                invariant
                    0 <= t <= steps,
                    steps == -lod_off,
                    0 < steps <= 0x3_0000_0000,
                    slot.0.wf(),
                    n == start.len(),
                    slot.entries().len() == n,
                    forall|k: int|
                        0 <= k < n ==> #[trigger] slot.entries()[k] == (if k - t >= 0 {
                            start[k - t]
                        } else {
                            None
                        }),
                    old(despawned)@.len() <= despawned@.len(),
                    forall|i: int|
                        0 <= i < old(despawned)@.len() ==> despawned@[i] == old(despawned)@[i],
                    forall|k: int|
                        0 <= k < n && (#[trigger] start[k]) is Some && k >= n - t
                            ==> despawned@.contains(start[k]->Some_0),
                    forall|i: int|
                        #![trigger despawned@[i]]
                        old(despawned)@.len() <= i < despawned@.len() ==> exists|k: int|
                            0 <= k < n && (#[trigger] start[k]) == Some(despawned@[i]) && k >= n
                                - t,
                decreases steps - t,
            {
                let ghost d0 = despawned@;
                let ghost sb = slot.entries();
                let ev = slot.0.shift_right_with(None);
                if let Some(id) = ev {
                    despawned.push(id);
                }
                proof {
                    assert(ev == sb[n - 1]);
                    if t < n {
                        assert(sb[n - 1] == start[n - 1 - t]);
                        assert(ev == start[n - 1 - t]);
                    } else {
                        assert(sb[n - 1] is None);
                        assert(ev is None);
                    }
                    assert forall|k: int|
                        0 <= k < n && (#[trigger] start[k]) is Some && k >= n - (t + 1) implies despawned@.contains(
                        start[k]->Some_0,
                    ) by {
                        if k >= n - t {
                            assert(d0.contains(start[k]->Some_0));
                            let j = choose|j: int| 0 <= j < d0.len() && d0[j] == start[k]->Some_0;
                            assert(despawned@[j] == start[k]->Some_0);
                        } else {
                            assert(despawned@[despawned@.len() - 1] == start[k]->Some_0);
                        }
                    }
                    assert forall|i: int|
                        #![trigger despawned@[i]]
                        old(despawned)@.len() <= i < despawned@.len() implies exists|k: int|
                            0 <= k < n && (#[trigger] start[k]) == Some(despawned@[i]) && k >= n
                                - (t + 1) by {
                        if i < d0.len() {
                            assert(despawned@[i] == d0[i]);
                            let k = choose|k: int|
                                0 <= k < n && (#[trigger] start[k]) == Some(d0[i]) && k >= n - t;
                            assert(start[k] == Some(despawned@[i]));
                        } else {
                            assert(start[n - 1 - t] == Some(despawned@[i]));
                        }
                    }
                }
                t = t + 1;
            }
            proof {
                assert forall|i: int|
                    old(despawned)@.len() <= i < despawned@.len() implies evicted_from(
                    start,
                    lod_off as int,
                    #[trigger] despawned@[i],
                ) by {
                    let k = choose|k: int|
                        0 <= k < n && (#[trigger] start[k]) == Some(despawned@[i]) && k >= n - t;
                    assert(start[k] == Some(despawned@[i]) && !(0 <= k - lod_off < n));
                }
            }
        }
        proof {
            assert(slot.entries() =~= inner_shifted(start, lod_off as int));
        }
    }

    /// Recomputes every slot's required level of detail after an anchor move
    /// of `(dx_m, dy_m)`, turns each slot's inner ring by the change,
    /// appends every evicted handle to `despawned`, and records the offset
    /// of every slot whose level changed in `invalid`.
    fn relod_slots(
        &mut self,
        dx_m: i64,
        dy_m: i64,
        invalid: &mut InvalidSlots,
        despawned: &mut Vec<ChunkId>,
    )
        requires
            old(self).wf_shape(),
            -0x1_0000_0000 <= dx_m <= 0x1_0000_0000,
            -0x1_0000_0000 <= dy_m <= 0x1_0000_0000,
        ensures
            final(self).wf_shape(),
            final(self).same_config(old(self)),
            forall|r: int, c: int|
                0 <= r < old(self).glen() && 0 <= c < old(self).glen()
                    ==> (#[trigger] final(self).slot(r, c)).entries() == inner_shifted(
                    old(self).slot(r, c).entries(),
                    old(self).dist_change(r, c, dx_m as int, dy_m as int),
                ),
            old(despawned)@.len() <= final(despawned)@.len(),
            forall|i: int|
                0 <= i < old(despawned)@.len() ==> final(despawned)@[i] == old(despawned)@[i],
            forall|r: int, c: int, k: int, id: ChunkId|
                #[trigger] old(self).live_at(r, c, k, id) && !(0 <= k - old(self).dist_change(
                    r,
                    c,
                    dx_m as int,
                    dy_m as int,
                ) < old(self).llen()) ==> final(despawned)@.contains(id),
            forall|i: int|
                old(despawned)@.len() <= i < final(despawned)@.len() ==> old(self).relod_evicts(
                    dx_m as int,
                    dy_m as int,
                    #[trigger] final(despawned)@[i],
                ),
            old(invalid).0@.len() <= final(invalid).0@.len(),
            forall|i: int|
                0 <= i < old(invalid).0@.len() ==> final(invalid).0@[i] == old(invalid).0@[i],
            forall|r: int, c: int|
                0 <= r < old(self).glen() && 0 <= c < old(self).glen() && old(self).dist_change(
                    r,
                    c,
                    dx_m as int,
                    dy_m as int,
                ) != 0 ==> final(invalid).0@.contains(#[trigger] old(self).offset_of(r, c)),
            forall|i: int|
                old(invalid).0@.len() <= i < final(invalid).0@.len() ==> old(self).in_window(
                    #[trigger] final(invalid).0@[i],
                ) && old(self).dist_change(
                    final(invalid).0@[i].y as int + old(self).spec_extent(),
                    final(invalid).0@[i].x as int + old(self).spec_extent(),
                    dx_m as int,
                    dy_m as int,
                ) != 0,
    {
        let ghost dxi = dx_m as int;
        let ghost dyi = dy_m as int;
        let ghost g = old(self).glen();
        let ghost ll = old(self).llen();
        let glen = self.map.len();
        let e_i = self.extent as i64;
        let mut r: usize = 0;
        while r < glen
            invariant
                old(self).wf_shape(),
                self.wf_shape(),
                self.same_config(old(self)),
                g == old(self).glen(),
                ll == old(self).llen(),
                glen == g,
                e_i == old(self).spec_extent(),
                -0x1_0000_0000 <= dx_m <= 0x1_0000_0000,
                -0x1_0000_0000 <= dy_m <= 0x1_0000_0000,
                dxi == dx_m as int,
                dyi == dy_m as int,
                r <= glen,
                forall|rr: int, cc: int|
                    0 <= rr < g && 0 <= cc < g && rr < r ==> (#[trigger] self.slot(
                        rr,
                        cc,
                    )).entries() == inner_shifted(
                        old(self).slot(rr, cc).entries(),
                        old(self).dist_change(rr, cc, dxi, dyi),
                    ),
                forall|rr: int, cc: int|
                    0 <= rr < g && 0 <= cc < g && rr >= r ==> #[trigger] self.slot(rr, cc)
                        == old(self).slot(rr, cc),
                old(despawned)@.len() <= despawned@.len(),
                forall|i: int|
                    0 <= i < old(despawned)@.len() ==> despawned@[i] == old(despawned)@[i],
                forall|rr: int, cc: int, k: int, id: ChunkId|
                    #[trigger] old(self).live_at(rr, cc, k, id) && rr < r
                        && !(0 <= k - old(self).dist_change(rr, cc, dxi, dyi) < ll)
                        ==> despawned@.contains(id),
                forall|i: int|
                    old(despawned)@.len() <= i < despawned@.len() ==> old(self).relod_evicts(
                        dxi,
                        dyi,
                        #[trigger] despawned@[i],
                    ),
                old(invalid).0@.len() <= invalid.0@.len(),
                forall|i: int|
                    0 <= i < old(invalid).0@.len() ==> invalid.0@[i] == old(invalid).0@[i],
                forall|rr: int, cc: int|
                    0 <= rr < g && 0 <= cc < g && rr < r
                        && old(self).dist_change(rr, cc, dxi, dyi) != 0
                        ==> invalid.0@.contains(#[trigger] old(self).offset_of(rr, cc)),
                forall|i: int|
                    old(invalid).0@.len() <= i < invalid.0@.len() ==> old(self).in_window(
                        #[trigger] invalid.0@[i],
                    ) && old(self).dist_change(
                        invalid.0@[i].y as int + old(self).spec_extent(),
                        invalid.0@[i].x as int + old(self).spec_extent(),
                        dxi,
                        dyi,
                    ) != 0,
            decreases glen - r,
        {
            let mut c: usize = 0;
            while c < glen
                invariant
                    old(self).wf_shape(),
                    self.wf_shape(),
                    self.same_config(old(self)),
                    g == old(self).glen(),
                    ll == old(self).llen(),
                    glen == g,
                    e_i == old(self).spec_extent(),
                    -0x1_0000_0000 <= dx_m <= 0x1_0000_0000,
                    -0x1_0000_0000 <= dy_m <= 0x1_0000_0000,
                    dxi == dx_m as int,
                    dyi == dy_m as int,
                    r < glen,
                    c <= glen,
                    forall|rr: int, cc: int|
                        0 <= rr < g && 0 <= cc < g && (rr < r || (rr == r && cc < c)) ==> (
                        #[trigger] self.slot(rr, cc)).entries() == inner_shifted(
                            old(self).slot(rr, cc).entries(),
                            old(self).dist_change(rr, cc, dxi, dyi),
                        ),
                    forall|rr: int, cc: int|
                        0 <= rr < g && 0 <= cc < g && (rr > r || (rr == r && cc >= c))
                            ==> #[trigger] self.slot(rr, cc) == old(self).slot(rr, cc),
                    old(despawned)@.len() <= despawned@.len(),
                    forall|i: int|
                        0 <= i < old(despawned)@.len() ==> despawned@[i] == old(despawned)@[i],
                    forall|rr: int, cc: int, k: int, id: ChunkId|
                        #[trigger] old(self).live_at(rr, cc, k, id) && (rr < r || (rr == r && cc
                            < c)) && !(0 <= k - old(self).dist_change(rr, cc, dxi, dyi) < ll)
                            ==> despawned@.contains(id),
                    forall|i: int|
                        old(despawned)@.len() <= i < despawned@.len() ==> old(self).relod_evicts(
                            dxi,
                            dyi,
                            #[trigger] despawned@[i],
                        ),
                    old(invalid).0@.len() <= invalid.0@.len(),
                    forall|i: int|
                        0 <= i < old(invalid).0@.len() ==> invalid.0@[i] == old(invalid).0@[i],
                    forall|rr: int, cc: int|
                        0 <= rr < g && 0 <= cc < g && (rr < r || (rr == r && cc < c))
                            && old(self).dist_change(rr, cc, dxi, dyi) != 0
                            ==> invalid.0@.contains(
                            #[trigger] old(self).offset_of(rr, cc),
                        ),
                    forall|i: int|
                        old(invalid).0@.len() <= i < invalid.0@.len() ==> old(self).in_window(
                            #[trigger] invalid.0@[i],
                        ) && old(self).dist_change(
                            invalid.0@[i].y as int + old(self).spec_extent(),
                            invalid.0@[i].x as int + old(self).spec_extent(),
                            dxi,
                            dyi,
                        ) != 0,
                decreases glen - c,
            {
                let ghost s0 = *self;
                let ghost d0 = despawned@;
                let ghost v0 = invalid.0@;
                let ghost ri = r as int;
                let ghost ci = c as int;
                let off_x: i64 = c as i64 - e_i;
                let off_y: i64 = r as i64 - e_i;
                let nd = cheb_i64(off_x, off_y);
                let pd = cheb_i64(off_x + dx_m, off_y + dy_m);
                proof {
                    assert(0 <= nd <= 0x1_0000_2000);
                    assert(0 <= pd <= 0x1_0000_2000);
                    assert(nd - pd == old(self).dist_change(ri, ci, dxi, dyi));
                }
                let lod_off = nd - pd;
                let ghost dc = old(self).dist_change(ri, ci, dxi, dyi);
                if lod_off != 0 {
                    let mut tmp = Slot::empty(1);
                    core::mem::swap(self.map.get_mut(r).get_mut(c), &mut tmp);
                    proof {
                        assert(tmp == s0.slot(ri, ci));
                        assert(tmp == old(self).slot(ri, ci));
                        assert(old(self).slot(ri, ci).wf(ll));
                    }
                    Self::shift_slot(&mut tmp, lod_off, despawned);
                    core::mem::swap(self.map.get_mut(r).get_mut(c), &mut tmp);
                    invalid.0.push(IVec2 { x: off_x as i32, y: off_y as i32 });
                    proof {
                        assert(self.slot(ri, ci).entries() == inner_shifted(
                            old(self).slot(ri, ci).entries(),
                            dc,
                        ));
                        assert(self.slot(ri, ci).wf(ll));
                        assert(invalid.0@[invalid.0@.len() - 1] == old(self).offset_of(ri, ci));
                        assert(old(self).in_window(old(self).offset_of(ri, ci)));
                    }
                } else {
                    proof {
                        assert(self.slot(ri, ci) == old(self).slot(ri, ci));
                        assert(self.slot(ri, ci).entries() =~= inner_shifted(
                            old(self).slot(ri, ci).entries(),
                            0,
                        ));
                    }
                }
                proof {
                    let oself = old(self);
                    assert forall|rr: int, cc: int|
                        0 <= rr < g && 0 <= cc < g && (rr < r || (rr == r && cc < c + 1)) implies (
                    #[trigger] self.slot(rr, cc)).entries() == inner_shifted(
                        oself.slot(rr, cc).entries(),
                        oself.dist_change(rr, cc, dxi, dyi),
                    ) by {
                        if rr == ri && cc == ci {
                        } else {
                            assert(self.slot(rr, cc) == s0.slot(rr, cc));
                            assert(s0.slot(rr, cc).entries() == inner_shifted(
                                oself.slot(rr, cc).entries(),
                                oself.dist_change(rr, cc, dxi, dyi),
                            ));
                        }
                    }
                    assert forall|rr: int, cc: int|
                        0 <= rr < g && 0 <= cc < g && (rr > r || (rr == r && cc >= c + 1)) implies #[trigger] self.slot(
                        rr,
                        cc,
                    ) == oself.slot(rr, cc) by {
                        assert(self.slot(rr, cc) == s0.slot(rr, cc));
                    }
                    assert forall|rr: int, cc: int|
                        0 <= rr < g && 0 <= cc < g implies (#[trigger] self.slot(rr, cc)).wf(
                        ll,
                    ) by {
                        if rr == ri && cc == ci {
                        } else {
                            assert(self.slot(rr, cc) == s0.slot(rr, cc));
                            assert(s0.slot(rr, cc).wf(ll));
                        }
                    }
                    assert forall|rr: int, cc: int, k: int, id: ChunkId|
                        #[trigger] oself.live_at(rr, cc, k, id) && (rr < r || (rr == r && cc < c
                            + 1)) && !(0 <= k - oself.dist_change(rr, cc, dxi, dyi) < ll) implies despawned@.contains(
                        id,
                    ) by {
                        if rr == ri && cc == ci {
                            assert(oself.slot(ri, ci).entries()[k] == Some(id));
                        } else {
                            assert(d0.contains(id));
                            let j = choose|j: int| 0 <= j < d0.len() && d0[j] == id;
                            assert(despawned@[j] == id);
                        }
                    }
                    assert forall|i: int|
                        old(despawned)@.len() <= i < despawned@.len() implies oself.relod_evicts(
                        dxi,
                        dyi,
                        #[trigger] despawned@[i],
                    ) by {
                        if i < d0.len() {
                            assert(despawned@[i] == d0[i]);
                            assert(oself.relod_evicts(dxi, dyi, d0[i]));
                        } else {
                            assert(evicted_from(
                                oself.slot(ri, ci).entries(),
                                dc,
                                despawned@[i],
                            ));
                        }
                    }
                    assert forall|rr: int, cc: int|
                        0 <= rr < g && 0 <= cc < g && (rr < r || (rr == r && cc < c + 1))
                            && oself.dist_change(rr, cc, dxi, dyi) != 0 implies invalid.0@.contains(
                        #[trigger] oself.offset_of(rr, cc),
                    ) by {
                        if rr == ri && cc == ci {
                            assert(invalid.0@[invalid.0@.len() - 1] == oself.offset_of(ri, ci));
                        } else {
                            assert(v0.contains(oself.offset_of(rr, cc)));
                            let j = choose|j: int|
                                0 <= j < v0.len() && v0[j] == oself.offset_of(rr, cc);
                            assert(invalid.0@[j] == oself.offset_of(rr, cc));
                        }
                    }
                    assert forall|i: int|
                        old(invalid).0@.len() <= i < invalid.0@.len() implies oself.in_window(
                        #[trigger] invalid.0@[i],
                    ) && oself.dist_change(
                        invalid.0@[i].y as int + oself.spec_extent(),
                        invalid.0@[i].x as int + oself.spec_extent(),
                        dxi,
                        dyi,
                    ) != 0 by {
                        if i < v0.len() {
                            assert(invalid.0@[i] == v0[i]);
                        } else {
                            assert(invalid.0@[i] == oself.offset_of(ri, ci));
                            assert(invalid.0@[i].y as int + oself.spec_extent() == ri);
                            assert(invalid.0@[i].x as int + oself.spec_extent() == ci);
                        }
                    }
                }
                c = c + 1;
            }
            r = r + 1;
        }
    }

    /// Points the grid at a new anchor cell, as computed from the viewer
    /// position; the next `update_lod` call realigns the window to it.
    pub fn set_anchor(&mut self, anchor: IVec2)
        requires
            old(self).wf(),
        ensures
            final(self).wf(),
            final(self).pos == anchor,
            final(self).prev_pos == old(self).prev_pos,
            final(self).map == old(self).map,
            final(self).extent == old(self).extent,
            final(self).lod_extent == old(self).lod_extent,
            final(self).next_id == old(self).next_id,
            final(self).chunk_info() == old(self).chunk_info(),
    {
        self.pos = anchor;
        proof {
            assert forall|r: int|
                0 <= r < self.glen() implies (#[trigger] self.map@[r]).wf() && self.map@[r]@.len()
                == self.glen() by {
                assert(old(self).map@[r].wf() && old(self).map@[r]@.len() == old(self).glen());
            }
            assert forall|r: int, c: int|
                0 <= r < self.glen() && 0 <= c < self.glen() implies (#[trigger] self.slot(
                r,
                c,
            )).wf(self.llen()) by {
                assert(old(self).slot(r, c).wf(old(self).llen()));
            }
            assert forall|r: int, c: int, k: int, id: ChunkId|
                #[trigger] self.live_at(r, c, k, id) implies {
                &&& self.chunk_info().contains_key(id)
                &&& id < self.issued()
                &&& self.chunk_info()[id].coord.x == self.prev_pos.x + c - self.spec_extent()
                &&& self.chunk_info()[id].coord.y == self.prev_pos.y + r - self.spec_extent()
                &&& self.chunk_info()[id].lod == cheb(
                    c - self.spec_extent(),
                    r - self.spec_extent(),
                ) + k - self.center()
            } by {
                assert(old(self).live_at(r, c, k, id));
            }
            assert forall|id: ChunkId| #[trigger] self.chunk_info().contains_key(
                id,
            ) implies id < self.issued() by {
                assert(old(self).chunk_info().contains_key(id));
            }
        }
    }

    /// Catches the slot window up with the anchor reported in `pos`. Rows
    /// and columns are shifted out one step at a time, trailing-edge slots
    /// are emptied and their handles reported for despawning; then, if the
    /// anchor moved at all, every slot's inner ring is turned by the change
    /// in its required level of detail and the offsets whose level changed
    /// are added to the invalidation set. Returns every despawned handle.
    pub fn update_lod(&mut self, invalid: &mut InvalidSlots) -> (despawned: Vec<ChunkId>)
        requires
            old(self).wf(),
        ensures
            final(self).wf(),
            final(self).synced(),
            final(self).pos == old(self).pos,
            final(self).extent == old(self).extent,
            final(self).lod_extent == old(self).lod_extent,
            final(self).next_id == old(self).next_id,
            final(self).chunk_info() == old(self).chunk_info(),
            forall|r: int, c: int|
                0 <= r < old(self).glen() && 0 <= c < old(self).glen()
                    ==> (#[trigger] final(self).slot(r, c)).entries() == old(self).entries_after(
                    r,
                    c,
                    old(self).dx(),
                    old(self).dy(),
                ),
            forall|id: ChunkId|
                #[trigger] despawned@.contains(id) ==> old(self).is_live(id)
                    && !final(self).is_live(id),
            forall|id: ChunkId|
                #[trigger] old(self).is_live(id) ==> final(self).is_live(id)
                    || despawned@.contains(id),
            old(invalid).0@.len() <= final(invalid).0@.len(),
            forall|i: int|
                0 <= i < old(invalid).0@.len() ==> final(invalid).0@[i] == old(invalid).0@[i],
            forall|o: IVec2|
                #[trigger] final(invalid).0@.contains(o) <==> old(invalid).0@.contains(o) || ((
                old(self).dx() != 0 || old(self).dy() != 0) && old(self).in_window(o) && cheb(
                    o.x as int,
                    o.y as int,
                ) != cheb(o.x as int + old(self).dx(), o.y as int + old(self).dy())),
            old(self).dx() == 0 && old(self).dy() == 0 ==> despawned@ == Seq::<ChunkId>::empty()
                && final(invalid).0@ == old(invalid).0@,
    {
        broadcast use vstd::seq_lib::group_seq_properties;

        let ghost pre = *old(self);
        let ghost g = pre.glen();
        let ghost ll = pre.llen();
        let ghost e = pre.spec_extent();
        let dy_m: i64 = self.pos.y as i64 - self.prev_pos.y as i64;
        let dx_m: i64 = self.pos.x as i64 - self.prev_pos.x as i64;
        let ghost dxi = dx_m as int;
        let ghost dyi = dy_m as int;
        let mut despawned: Vec<ChunkId> = Vec::new();
        self.shift_rows(dy_m, &mut despawned);
        let ghost mid1 = *self;
        let ghost d1 = despawned@;
        self.shift_cols(dx_m, &mut despawned);
        let ghost mid2 = *self;
        let ghost d2 = despawned@;
        let ghost v0 = invalid.0@;
        if dx_m != 0 || dy_m != 0 {
            self.relod_slots(dx_m, dy_m, invalid, &mut despawned);
        }
        let ghost mid3 = *self;
        self.prev_pos = self.pos;
        proof {
            assert(dxi == pre.dx() && dyi == pre.dy());
            assert forall|r: int, c: int| 0 <= r < g && 0 <= c < g implies #[trigger] self.slot(
                r,
                c,
            ) == mid3.slot(r, c) by {
                assert(self.map == mid3.map);
            }
            // the content of every slot, in terms of the starting state
            assert forall|r: int, c: int| 0 <= r < g && 0 <= c < g implies (
            #[trigger] self.slot(r, c)).entries() == pre.entries_after(r, c, dxi, dyi) by {
                if dxi == 0 && dyi == 0 {
                    assert(mid3 == mid2);
                    assert(self.slot(r, c) == pre.slot(r, c));
                } else {
                    assert(self.slot(r, c) == mid3.slot(r, c));
                    assert(mid3.slot(r, c).entries() == inner_shifted(
                        mid2.slot(r, c).entries(),
                        mid2.dist_change(r, c, dxi, dyi),
                    ));
                    assert(mid2.dist_change(r, c, dxi, dyi) == pre.dist_change(r, c, dxi, dyi));
                    if 0 <= c + dxi < g {
                        assert(mid2.slot(r, c) == mid1.slot(r, c + dxi));
                        if 0 <= r + dyi < g {
                            assert(mid1.slot(r, c + dxi) == pre.slot(r + dyi, c + dxi));
                        } else {
                            assert(mid1.slot(r, c + dxi).entries() == empty_entries(ll));
                        }
                    } else {
                        assert(mid2.slot(r, c).entries() == empty_entries(ll));
                    }
                }
            }
            // a handle that survived came from one well-determined position
            assert forall|rt: int, ct: int, kt: int, id: ChunkId|
                #[trigger] self.live_at(rt, ct, kt, id) implies pre.live_at(
                rt + dyi,
                ct + dxi,
                kt + pre.dist_change(rt, ct, dxi, dyi),
                id,
            ) by {
                assert(self.slot(rt, ct).entries() == pre.entries_after(rt, ct, dxi, dyi));
                if dxi == 0 && dyi == 0 {
                    assert(pre.live_at(rt, ct, kt, id));
                } else {
                    let dcc = pre.dist_change(rt, ct, dxi, dyi);
                    if 0 <= rt + dyi < g && 0 <= ct + dxi < g {
                        assert(pre.slot(rt + dyi, ct + dxi).entries()[kt + dcc] == Some(id));
                        assert(pre.live_at(rt + dyi, ct + dxi, kt + dcc, id));
                    } else {
                        assert(pre.entries_after(rt, ct, dxi, dyi)[kt] == None::<ChunkId>);
                    }
                }
            }
            // every reported handle was live at the start, at a position that
            // did not survive, so it is live nowhere afterwards
            assert forall|i: int| 0 <= i < despawned@.len() implies pre.is_live(despawned@[i])
                && !self.is_live(despawned@[i]) by {
                let id = despawned@[i];
                let (rp, cp, kp): (int, int, int) = if i < d1.len() {
                    assert(despawned@[i] == d1[i]);
                    assert(pre.row_evicts(dyi, id));
                    choose|r: int, c: int, k: int|
                        #[trigger] pre.live_at(r, c, k, id) && !(0 <= r - dyi < g)
                } else if i < d2.len() {
                    assert(despawned@[i] == d2[i]);
                    assert(mid1.col_evicts(dxi, id));
                    let (r, c, k) = choose|r: int, c: int, k: int|
                        #[trigger] mid1.live_at(r, c, k, id) && !(0 <= c - dxi < g);
                    if 0 <= r + dyi < g {
                        assert(mid1.slot(r, c) == pre.slot(r + dyi, c));
                        assert(pre.live_at(r + dyi, c, k, id));
                    } else {
                        assert(mid1.slot(r, c).entries() == empty_entries(ll));
                    }
                    (r + dyi, c, k)
                } else {
                    assert(mid2.relod_evicts(dxi, dyi, id));
                    let (r, c) = choose|r: int, c: int|
                        0 <= r < g && 0 <= c < g && evicted_from(
                            (#[trigger] mid2.slot(r, c)).entries(),
                            mid2.dist_change(r, c, dxi, dyi),
                            id,
                        );
                    let dcm = mid2.dist_change(r, c, dxi, dyi);
                    let k = choose|k: int|
                        0 <= k < mid2.slot(r, c).entries().len() && (#[trigger] mid2.slot(
                            r,
                            c,
                        ).entries()[k]) == Some(id) && !(0 <= k - dcm < mid2.slot(
                            r,
                            c,
                        ).entries().len());
                    if 0 <= c + dxi < g {
                        assert(mid2.slot(r, c) == mid1.slot(r, c + dxi));
                        if 0 <= r + dyi < g {
                            assert(mid1.slot(r, c + dxi) == pre.slot(r + dyi, c + dxi));
                            assert(pre.live_at(r + dyi, c + dxi, k, id));
                        } else {
                            assert(mid1.slot(r, c + dxi).entries() == empty_entries(ll));
                        }
                    } else {
                        assert(mid2.slot(r, c).entries() == empty_entries(ll));
                    }
                    (r + dyi, c + dxi, k)
                };
                assert(pre.live_at(rp, cp, kp, id));
                if self.is_live(id) {
                    let (rt, ct, kt) = choose|rt: int, ct: int, kt: int|
                        self.live_at(rt, ct, kt, id);
                    let dcc = pre.dist_change(rt, ct, dxi, dyi);
                    assert(pre.live_at(rt + dyi, ct + dxi, kt + dcc, id));
                    law_unique_binding(
                        &pre,
                        rp,
                        cp,
                        kp,
                        rt + dyi,
                        ct + dxi,
                        kt + dcc,
                        id,
                    );
                    if i < d1.len() {
                        assert(!(0 <= rp - dyi < g));
                        assert(rt == rp - dyi);
                        assert(false);
                    } else if i < d2.len() {
                        assert(ct == cp - dxi);
                        assert(false);
                    } else {
                        assert(kt == kp - pre.dist_change(rt, ct, dxi, dyi));
                        assert(false);
                    }
                }
            }
            assert forall|id: ChunkId| #[trigger] despawned@.contains(id) implies pre.is_live(
                id,
            ) && !self.is_live(id) by {
                let i = choose|i: int| 0 <= i < despawned@.len() && despawned@[i] == id;
                assert(pre.is_live(despawned@[i]) && !self.is_live(despawned@[i]));
            }
            // every handle live at the start either survived or was reported
            assert forall|id: ChunkId| #[trigger] pre.is_live(id) implies self.is_live(id)
                || despawned@.contains(id) by {
                let (r, c, k) = choose|r: int, c: int, k: int| pre.live_at(r, c, k, id);
                let rt = r - dyi;
                let ct = c - dxi;
                if !(0 <= rt < g) {
                    assert(d1.contains(id));
                    let j = choose|j: int| 0 <= j < d1.len() && d1[j] == id;
                    assert(despawned@[j] == id);
                } else if !(0 <= ct < g) {
                    assert(mid1.slot(rt, c) == pre.slot(r, c));
                    assert(mid1.live_at(rt, c, k, id));
                    assert(d2.contains(id));
                    let j = choose|j: int| 0 <= j < d2.len() && d2[j] == id;
                    assert(despawned@[j] == id);
                } else {
                    assert(mid1.slot(rt, c) == pre.slot(r, c));
                    assert(mid2.slot(rt, ct) == mid1.slot(rt, c));
                    let dc = pre.dist_change(rt, ct, dxi, dyi);
                    if dxi == 0 && dyi == 0 {
                        assert(self.slot(r, c).entries() == pre.entries_after(r, c, 0, 0));
                        assert(self.live_at(r, c, k, id));
                    } else if 0 <= k - dc < ll {
                        assert(self.slot(rt, ct).entries() == pre.entries_after(
                            rt,
                            ct,
                            dxi,
                            dyi,
                        ));
                        assert(pre.entries_after(rt, ct, dxi, dyi)[k - dc] == Some(id));
                        assert(self.live_at(rt, ct, k - dc, id));
                    } else {
                        assert(mid2.live_at(rt, ct, k, id));
                        assert(mid2.dist_change(rt, ct, dxi, dyi) == dc);
                        assert(despawned@.contains(id));
                    }
                }
            }
            // the invalidation set gained exactly the offsets whose level
            // changed
            assert forall|o: IVec2| #[trigger] invalid.0@.contains(o) <==> v0.contains(o) || ((
            dxi != 0 || dyi != 0) && pre.in_window(o) && cheb(o.x as int, o.y as int) != cheb(
                o.x as int + dxi,
                o.y as int + dyi,
            )) by {
                if invalid.0@.contains(o) {
                    let j = choose|j: int| 0 <= j < invalid.0@.len() && invalid.0@[j] == o;
                    if j < v0.len() {
                        assert(v0[j] == o);
                        assert(v0.contains(o));
                    } else {
                        assert(mid2.in_window(o));
                        assert(pre.in_window(o));
                        assert(mid2.dist_change(o.y as int + e, o.x as int + e, dxi, dyi) != 0);
                        assert(pre.dist_change(
                            o.y as int + e,
                            o.x as int + e,
                            dxi,
                            dyi,
                        ) != 0);
                    }
                }
                if v0.contains(o) {
                    let j = choose|j: int| 0 <= j < v0.len() && v0[j] == o;
                    assert(invalid.0@[j] == o);
                    assert(invalid.0@.contains(o));
                }
                if (dxi != 0 || dyi != 0) && pre.in_window(o) && cheb(o.x as int, o.y as int)
                    != cheb(o.x as int + dxi, o.y as int + dyi) {
                    let r = o.y as int + e;
                    let c = o.x as int + e;
                    assert(mid2.dist_change(r, c, dxi, dyi) == pre.dist_change(r, c, dxi, dyi));
                    assert(pre.dist_change(r, c, dxi, dyi) != 0);
                    assert(invalid.0@.contains(mid2.offset_of(r, c)));
                    assert(mid2.offset_of(r, c) == pre.offset_of(r, c));
                    assert(pre.offset_of(r, c) == o);
                }
            }
            assert forall|id: ChunkId| #[trigger] self.chunk_info().contains_key(
                id,
            ) implies id < self.issued() by {
                assert(pre.chunk_info().contains_key(id));
            }
            // the realigned grid satisfies the alignment invariant again
            assert forall|r: int, c: int, k: int, id: ChunkId|
                #[trigger] self.live_at(r, c, k, id) implies {
                &&& self.chunk_info().contains_key(id)
                &&& id < self.issued()
                &&& self.chunk_info()[id].coord.x == self.prev_pos.x + c - self.spec_extent()
                &&& self.chunk_info()[id].coord.y == self.prev_pos.y + r - self.spec_extent()
                &&& self.chunk_info()[id].lod == cheb(
                    c - self.spec_extent(),
                    r - self.spec_extent(),
                ) + k - self.center()
            } by {
                assert(self.slot(r, c).entries() == pre.entries_after(r, c, dxi, dyi));
                if dxi == 0 && dyi == 0 {
                    assert(pre.live_at(r, c, k, id));
                } else {
                    let dc = pre.dist_change(r, c, dxi, dyi);
                    if 0 <= r + dyi < g && 0 <= c + dxi < g {
                        assert(pre.slot(r + dyi, c + dxi).entries()[k + dc] == Some(id));
                        assert(pre.live_at(r + dyi, c + dxi, k + dc, id));
                    } else {
                        assert(pre.entries_after(r, c, dxi, dyi)[k] == None::<ChunkId>);
                    }
                }
            }
        }
        despawned
    }

    /// Requests a chunk for every slot whose current index is empty: issues a
    /// fresh handle, binds it at the inner ring's center, and emits the
    /// placeholder record the terrain builder must fill. Afterwards every
    /// slot holds exactly one pending-or-live current chunk.
    pub fn spawn_chunks(&mut self) -> (reqs: Vec<ChunkRequest>)
        requires
            old(self).wf(),
            old(self).synced(),
            -0x4000_0000 <= old(self).pos.x <= 0x4000_0000,
            -0x4000_0000 <= old(self).pos.y <= 0x4000_0000,
            old(self).next_id <= 0xffff_ffff_0000_0000u64,
        ensures
            final(self).wf(),
            final(self).synced(),
            final(self).pos == old(self).pos,
            final(self).prev_pos == old(self).prev_pos,
            final(self).extent == old(self).extent,
            final(self).lod_extent == old(self).lod_extent,
            old(self).issued() <= final(self).issued(),
            forall|id: ChunkId|
                #[trigger] old(self).chunk_info().contains_key(id)
                    ==> final(self).chunk_info().contains_key(id) && final(self).chunk_info()[id]
                    == old(self).chunk_info()[id],
            forall|r: int, c: int|
                0 <= r < old(self).glen() && 0 <= c < old(self).glen()
                    ==> (#[trigger] final(self).slot(r, c)).entries()[old(self).center()]
                    is Some,
            forall|r: int, c: int|
                0 <= r < old(self).glen() && 0 <= c < old(self).glen() && old(self).slot(
                    r,
                    c,
                ).entries()[old(self).center()] is Some
                    ==> #[trigger] final(self).slot(r, c) == old(self).slot(r, c),
            forall|r: int, c: int|
                0 <= r < old(self).glen() && 0 <= c < old(self).glen() && old(self).slot(
                    r,
                    c,
                ).entries()[old(self).center()] is None ==> {
                    let id = (#[trigger] final(self).slot(r, c)).entries()[old(self).center()]->Some_0;
                    &&& final(self).slot(r, c).entries() == old(self).slot(r, c).entries().update(
                        old(self).center(),
                        Some(id),
                    )
                    &&& old(self).issued() <= id < final(self).issued()
                    &&& final(self).chunk_info()[id] == old(self).chunk_at(r, c)
                    &&& reqs@.contains(
                        ChunkRequest { id, chunk: old(self).chunk_at(r, c) },
                    )
                },
            forall|i: int|
                0 <= i < reqs@.len() ==> old(self).issued() <= (#[trigger] reqs@[i]).id
                    < final(self).issued() && final(self).chunk_info().contains_key(reqs@[i].id)
                    && final(self).chunk_info()[reqs@[i].id] == reqs@[i].chunk,
            forall|i: int, j: int| 0 <= i < j < reqs@.len() ==> reqs@[i].id < reqs@[j].id,
    {
        broadcast use vstd::seq_lib::group_seq_properties;

        let ghost g = old(self).glen();
        let ghost ll = old(self).llen();
        let ghost ce = old(self).center();
        let glen = self.map.len();
        let le = self.lod_extent as usize;
        let e_32 = self.extent as i32;
        let e_i = self.extent as i64;
        let mut reqs: Vec<ChunkRequest> = Vec::new();
        let mut r: usize = 0;
        while r < glen
            invariant
                old(self).wf(),
                self.wf(),
                self.synced(),
                self.pos == old(self).pos,
                self.prev_pos == old(self).prev_pos,
                self.extent == old(self).extent,
                self.lod_extent == old(self).lod_extent,
                -0x4000_0000 <= old(self).pos.x <= 0x4000_0000,
                -0x4000_0000 <= old(self).pos.y <= 0x4000_0000,
                g == old(self).glen(),
                ll == old(self).llen(),
                ce == old(self).center(),
                glen == g,
                le as int == ce,
                e_32 as int == old(self).spec_extent(),
                e_i == old(self).spec_extent(),
                r <= glen,
                old(self).issued() <= self.issued(),
                self.issued() <= old(self).issued() + r * g,
                old(self).next_id <= 0xffff_ffff_0000_0000u64,
                forall|id: ChunkId|
                    #[trigger] old(self).chunk_info().contains_key(id) ==> self.chunk_info().contains_key(
                        id,
                    ) && self.chunk_info()[id] == old(self).chunk_info()[id],
                forall|rr: int, cc: int|
                    0 <= rr < g && 0 <= cc < g && rr >= r ==> #[trigger] self.slot(rr, cc) == old(
                        self,
                    ).slot(rr, cc),
                forall|rr: int, cc: int|
                    0 <= rr < g && 0 <= cc < g && rr < r ==> (#[trigger] self.slot(
                        rr,
                        cc,
                    )).entries()[ce] is Some,
                forall|rr: int, cc: int|
                    0 <= rr < g && 0 <= cc < g && rr < r && old(self).slot(rr, cc).entries()[ce]
                        is Some ==> #[trigger] self.slot(rr, cc) == old(self).slot(rr, cc),
                forall|rr: int, cc: int|
                    0 <= rr < g && 0 <= cc < g && rr < r && old(self).slot(rr, cc).entries()[ce]
                        is None ==> {
                        let id = (#[trigger] self.slot(rr, cc)).entries()[ce]->Some_0;
                        &&& self.slot(rr, cc).entries() == old(self).slot(rr, cc).entries().update(
                            ce,
                            Some(id),
                        )
                        &&& old(self).issued() <= id < self.issued()
                        &&& self.chunk_info()[id] == old(self).chunk_at(rr, cc)
                        &&& reqs@.contains(ChunkRequest { id, chunk: old(self).chunk_at(rr, cc) })
                    },
                forall|i: int|
                    0 <= i < reqs@.len() ==> old(self).issued() <= (#[trigger] reqs@[i]).id
                        < self.issued() && self.chunk_info().contains_key(reqs@[i].id)
                        && self.chunk_info()[reqs@[i].id] == reqs@[i].chunk,
                forall|i: int, j: int| 0 <= i < j < reqs@.len() ==> reqs@[i].id < reqs@[j].id,
            decreases glen - r,
        {
            let mut c: usize = 0;
            while c < glen
                invariant
                    old(self).wf(),
                    self.wf(),
                    self.synced(),
                    self.pos == old(self).pos,
                    self.prev_pos == old(self).prev_pos,
                    self.extent == old(self).extent,
                    self.lod_extent == old(self).lod_extent,
                    -0x4000_0000 <= old(self).pos.x <= 0x4000_0000,
                    -0x4000_0000 <= old(self).pos.y <= 0x4000_0000,
                    g == old(self).glen(),
                    ll == old(self).llen(),
                    ce == old(self).center(),
                    glen == g,
                    le as int == ce,
                    e_32 as int == old(self).spec_extent(),
                    e_i == old(self).spec_extent(),
                    r < glen,
                    c <= glen,
                    old(self).issued() <= self.issued(),
                    self.issued() <= old(self).issued() + r * g + c,
                    old(self).next_id <= 0xffff_ffff_0000_0000u64,
                    forall|id: ChunkId|
                        #[trigger] old(self).chunk_info().contains_key(id)
                            ==> self.chunk_info().contains_key(id) && self.chunk_info()[id]
                            == old(self).chunk_info()[id],
                    forall|rr: int, cc: int|
                        0 <= rr < g && 0 <= cc < g && (rr > r || (rr == r && cc >= c))
                            ==> #[trigger] self.slot(rr, cc) == old(self).slot(rr, cc),
                    forall|rr: int, cc: int|
                        0 <= rr < g && 0 <= cc < g && (rr < r || (rr == r && cc < c)) ==> (
                        #[trigger] self.slot(rr, cc)).entries()[ce] is Some,
                    forall|rr: int, cc: int|
                        0 <= rr < g && 0 <= cc < g && (rr < r || (rr == r && cc < c)) && old(
                            self,
                        ).slot(rr, cc).entries()[ce] is Some ==> #[trigger] self.slot(rr, cc)
                            == old(self).slot(rr, cc),
                    forall|rr: int, cc: int|
                        0 <= rr < g && 0 <= cc < g && (rr < r || (rr == r && cc < c)) && old(
                            self,
                        ).slot(rr, cc).entries()[ce] is None ==> {
                            let id = (#[trigger] self.slot(rr, cc)).entries()[ce]->Some_0;
                            &&& self.slot(rr, cc).entries() == old(self).slot(
                                rr,
                                cc,
                            ).entries().update(ce, Some(id))
                            &&& old(self).issued() <= id < self.issued()
                            &&& self.chunk_info()[id] == old(self).chunk_at(rr, cc)
                            &&& reqs@.contains(
                                ChunkRequest { id, chunk: old(self).chunk_at(rr, cc) },
                            )
                        },
                    forall|i: int|
                        0 <= i < reqs@.len() ==> old(self).issued() <= (#[trigger] reqs@[i]).id
                            < self.issued() && self.chunk_info().contains_key(reqs@[i].id)
                            && self.chunk_info()[reqs@[i].id] == reqs@[i].chunk,
                    forall|i: int, j: int| 0 <= i < j < reqs@.len() ==> reqs@[i].id < reqs@[j].id,
                decreases glen - c,
            {
                let ghost s0 = *self;
                let ghost q0 = reqs@;
                let ghost ri = r as int;
                let ghost ci = c as int;
                proof {
                    assert(self.map@[ri].wf() && self.map@[ri]@.len() == g);
                    assert(self.slot(ri, ci).wf(ll));
                    assert(ri * g + ci < 0x40_0000) by (nonlinear_arith)
                        requires
                            0 <= ri < g,
                            0 <= ci < g,
                            g <= 2001,
                    ;
                }
                let is_empty = self.map.get(r).get(c).0.get(le).is_none();
                if is_empty {
                    let id = self.next_id;
                    self.next_id = id + 1;
                    let coord = IVec2 {
                        x: self.pos.x + (c as i32 - e_32),
                        y: self.pos.y + (r as i32 - e_32),
                    };
                    let dist = cheb_i64(c as i64 - e_i, r as i64 - e_i);
                    proof {
                        assert(0 <= dist <= 1000);
                        assert(coord == old(self).chunk_at(ri, ci).coord);
                        assert(dist as u32 == old(self).chunk_at(ri, ci).lod);
                    }
                    let chunk = Chunk { coord, lod: dist as u32 };
                    reqs.push(ChunkRequest { id, chunk });
                    let cell = self.map.get_mut(r).get_mut(c);
                    let p = cell.0.get_mut(le);
                    *p = Some(id);
                    proof {
                        self.meta@ = self.meta@.insert(id, chunk);
                    }
                    proof {
                        assert(self.slot(ri, ci).entries() == s0.slot(ri, ci).entries().update(
                            ce,
                            Some(id),
                        ));
                        assert(self.slot(ri, ci).entries()[ce] == Some(id));
                        assert(reqs@[reqs@.len() - 1] == ChunkRequest {
                            id,
                            chunk: old(self).chunk_at(ri, ci),
                        });
                    }
                }
                proof {
                    let oself = old(self);
                    assert forall|rr: int, cc: int|
                        0 <= rr < g && 0 <= cc < g && !(rr == ri && cc == ci) implies #[trigger] self.slot(
                        rr,
                        cc,
                    ) == s0.slot(rr, cc) by {
                        assert(self.map@[rr] == s0.map@[rr] || rr == ri);
                        if rr == ri {
                            assert(self.map@[ri]@[cc] == s0.map@[ri]@[cc]);
                        }
                    }
                    assert(self.slot(ri, ci).entries()[ce] is Some);
                    assert forall|id2: ChunkId| #[trigger] self.chunk_info().contains_key(
                        id2,
                    ) implies id2 < self.issued() by {
                        if s0.chunk_info().contains_key(id2) {
                            assert(id2 < s0.issued());
                        }
                    }
                    assert forall|id2: ChunkId|
                        #[trigger] oself.chunk_info().contains_key(id2)
                            implies self.chunk_info().contains_key(id2) && self.chunk_info()[id2]
                            == oself.chunk_info()[id2] by {
                        assert(s0.chunk_info().contains_key(id2));
                        assert(id2 < s0.issued());
                    }
                    assert forall|i: int|
                        0 <= i < reqs@.len() implies oself.issued() <= (#[trigger] reqs@[i]).id
                            < self.issued() && self.chunk_info().contains_key(reqs@[i].id)
                            && self.chunk_info()[reqs@[i].id] == reqs@[i].chunk by {
                        if i < q0.len() {
                            assert(reqs@[i] == q0[i]);
                            assert(q0[i].id < s0.issued());
                        }
                    }
                    assert forall|rr: int, cc: int|
                        0 <= rr < g && 0 <= cc < g && (rr < r || (rr == r && cc < c + 1))
                            && oself.slot(rr, cc).entries()[ce] is None implies {
                        let id2 = (#[trigger] self.slot(rr, cc)).entries()[ce]->Some_0;
                        &&& self.slot(rr, cc).entries() == oself.slot(rr, cc).entries().update(
                            ce,
                            Some(id2),
                        )
                        &&& oself.issued() <= id2 < self.issued()
                        &&& self.chunk_info()[id2] == oself.chunk_at(rr, cc)
                        &&& reqs@.contains(ChunkRequest { id: id2, chunk: oself.chunk_at(rr, cc) })
                    } by {
                        if rr == ri && cc == ci {
                        } else {
                            assert(self.slot(rr, cc) == s0.slot(rr, cc));
                            let id2 = s0.slot(rr, cc).entries()[ce]->Some_0;
                            assert(id2 < s0.issued());
                            assert(q0.contains(
                                ChunkRequest { id: id2, chunk: oself.chunk_at(rr, cc) },
                            ));
                            let j = choose|j: int|
                                0 <= j < q0.len() && q0[j] == ChunkRequest {
                                    id: id2,
                                    chunk: oself.chunk_at(rr, cc),
                                };
                            assert(reqs@[j] == q0[j]);
                        }
                    }
                    assert forall|rr: int, cc: int, k: int, id2: ChunkId|
                        #[trigger] self.live_at(rr, cc, k, id2) implies {
                        &&& self.chunk_info().contains_key(id2)
                        &&& id2 < self.issued()
                        &&& self.chunk_info()[id2].coord.x == self.prev_pos.x + cc
                            - self.spec_extent()
                        &&& self.chunk_info()[id2].coord.y == self.prev_pos.y + rr
                            - self.spec_extent()
                        &&& self.chunk_info()[id2].lod == cheb(
                            cc - self.spec_extent(),
                            rr - self.spec_extent(),
                        ) + k - self.center()
                    } by {
                        if rr == ri && cc == ci && self.slot(ri, ci) != s0.slot(ri, ci) {
                            if k == ce {
                            } else {
                                assert(s0.live_at(rr, cc, k, id2));
                            }
                        } else {
                            assert(self.slot(rr, cc) == s0.slot(rr, cc));
                            assert(s0.live_at(rr, cc, k, id2));
                        }
                    }
                }
                c = c + 1;
            }
            proof {
                assert((r as int + 1) * g == r as int * g + g) by (nonlinear_arith);
            }
            r = r + 1;
        }
        reqs
    }

    /// Whether the collaborator has reported `id` ready.
    fn contains_id(ready: &Vec<ChunkId>, id: ChunkId) -> (b: bool)
        ensures
            b == ready@.contains(id),
    {
        let mut i: usize = 0;
        while i < ready.len()
            invariant
                i <= ready@.len(),
                forall|j: int| 0 <= j < i ==> ready@[j] != id,
            decreases ready@.len() - i,
        {
            if ready[i] == id {
                return true;
            }
            i = i + 1;
        }
        false
    }

    /// Serves the invalidation set against the collaborator's readiness
    /// reports: every offset whose slot has a ready current chunk is removed
    /// from the set, its current chunk made visible and every other chunk of
    /// that slot hidden; offsets that fell outside the window are dropped;
    /// the rest stay pending. Returns the visibility changes to apply.
    pub fn swap_chunks(&self, ready: &Vec<ChunkId>, invalid: &mut InvalidSlots) -> (vis: Vec<
        (ChunkId, ChunkVisibility),
    >)
        requires
            self.wf(),
        ensures
            final(invalid).0@ == old(invalid).0@.filter(
                |o: IVec2| self.pending(ready@, o),
            ),
            forall|i: int|
                0 <= i < vis@.len() ==> self.swap_emitted_by(
                    ready@,
                    old(invalid).0@,
                    #[trigger] vis@[i],
                ),
            forall|j: int, k: int|
                #![trigger self.slot(
                    old(invalid).0@[j].y as int + self.spec_extent(),
                    old(invalid).0@[j].x as int + self.spec_extent(),
                ).entries()[k]]
                (0 <= j < old(invalid).0@.len() && self.in_window(old(invalid).0@[j])
                    && !self.pending(ready@, old(invalid).0@[j]) && 0 <= k < self.llen()
                    && self.slot(
                    old(invalid).0@[j].y as int + self.spec_extent(),
                    old(invalid).0@[j].x as int + self.spec_extent(),
                ).entries()[k] is Some) ==> vis@.contains(
                    (
                        self.slot(
                            old(invalid).0@[j].y as int + self.spec_extent(),
                            old(invalid).0@[j].x as int + self.spec_extent(),
                        ).entries()[k]->Some_0,
                        if k == self.center() {
                            ChunkVisibility::Visible
                        } else {
                            ChunkVisibility::Hidden
                        },
                    ),
                ),
    {
        broadcast use vstd::seq_lib::group_seq_properties;

        let ghost v0 = old(invalid).0@;
        let ghost pred = |o: IVec2| self.pending(ready@, o);
        let ghost g = self.glen();
        let ghost e = self.spec_extent();
        let ghost ce = self.center();
        let ghost ll = self.llen();
        let glen = self.map.len();
        let le = self.lod_extent as usize;
        let e32 = self.extent as i32;
        let n = invalid.0.len();
        let mut kept: Vec<IVec2> = Vec::new();
        let mut vis: Vec<(ChunkId, ChunkVisibility)> = Vec::new();
        let mut j: usize = 0;
        while j < n
            invariant
                self.wf(),
                n == v0.len(),
                v0 == invalid.0@,
                pred == (|o: IVec2| self.pending(ready@, o)),
                g == self.glen(),
                e == self.spec_extent(),
                ce == self.center(),
                ll == self.llen(),
                glen == g,
                le as int == ce,
                e32 as int == e,
                j <= n,
                kept@ == v0.take(j as int).filter(pred),
                forall|i: int|
                    0 <= i < vis@.len() ==> self.swap_emitted_by(
                        ready@,
                        v0,
                        #[trigger] vis@[i],
                    ),
                forall|j2: int, k: int|
                    #![trigger self.slot(
                        v0[j2].y as int + e,
                        v0[j2].x as int + e,
                    ).entries()[k]]
                    (0 <= j2 < j && self.in_window(v0[j2]) && !self.pending(ready@, v0[j2]) && 0
                        <= k < ll && self.slot(
                        v0[j2].y as int + e,
                        v0[j2].x as int + e,
                    ).entries()[k] is Some) ==> vis@.contains(
                        (
                            self.slot(v0[j2].y as int + e, v0[j2].x as int + e).entries()[k]->Some_0,
                            if k == ce {
                                ChunkVisibility::Visible
                            } else {
                                ChunkVisibility::Hidden
                            },
                        ),
                    ),
            decreases n - j,
        {
            let o = invalid.0[j];
            let r64 = o.y as i64 + e32 as i64;
            let c64 = o.x as i64 + e32 as i64;
            let inw = 0 <= r64 && r64 < glen as i64 && 0 <= c64 && c64 < glen as i64;
            let mut cur_ready = false;
            if inw {
                let r = r64 as usize;
                let c = c64 as usize;
                proof {
                    assert(self.map@[r as int].wf() && self.map@[r as int]@.len() == g);
                    assert(self.slot(r as int, c as int).wf(ll));
                }
                let row = self.map.get(r);
                let sl = row.get(c);
                let cur = *sl.0.get(le);
                cur_ready = match cur {
                    Some(id) => Self::contains_id(ready, id),
                    None => false,
                };
                if cur_ready {
                    proof {
                        assert(self.in_window(o));
                        assert(!self.pending(ready@, o));
                    }
                    let lod_len = sl.0.len();
                    let mut k: usize = 0;
                    while k < lod_len
                        invariant
                            self.wf(),
                            n == v0.len(),
                            g == self.glen(),
                            e == self.spec_extent(),
                            ce == self.center(),
                            ll == self.llen(),
                            le as int == ce,
                            j < n,
                            o == v0[j as int],
                            self.in_window(o),
                            !self.pending(ready@, o),
                            r as int == o.y as int + e,
                            c as int == o.x as int + e,
                            *sl == self.slot(r as int, c as int),
                            sl.0.wf(),
                            lod_len as int == ll,
                            k <= lod_len,
                            forall|i: int|
                                0 <= i < vis@.len() ==> self.swap_emitted_by(
                                    ready@,
                                    v0,
                                    #[trigger] vis@[i],
                                ),
                            forall|j2: int, k2: int|
                                #![trigger self.slot(
                                    v0[j2].y as int + e,
                                    v0[j2].x as int + e,
                                ).entries()[k2]]
                                (0 <= j2 < j && self.in_window(v0[j2]) && !self.pending(
                                    ready@,
                                    v0[j2],
                                ) && 0 <= k2 < ll && self.slot(
                                    v0[j2].y as int + e,
                                    v0[j2].x as int + e,
                                ).entries()[k2] is Some) ==> vis@.contains(
                                    (
                                        self.slot(
                                            v0[j2].y as int + e,
                                            v0[j2].x as int + e,
                                        ).entries()[k2]->Some_0,
                                        if k2 == ce {
                                            ChunkVisibility::Visible
                                        } else {
                                            ChunkVisibility::Hidden
                                        },
                                    ),
                                ),
                            forall|k2: int|
                                #![trigger sl.entries()[k2]]
                                (0 <= k2 < k && sl.entries()[k2] is Some) ==> vis@.contains(
                                    (
                                        sl.entries()[k2]->Some_0,
                                        if k2 == ce {
                                            ChunkVisibility::Visible
                                        } else {
                                            ChunkVisibility::Hidden
                                        },
                                    ),
                                ),
                        decreases lod_len - k,
                    {
                        let ghost visk = vis@;
                        let entry = *sl.0.get(k);
                        if let Some(id) = entry {
                            let v = if k == le {
                                ChunkVisibility::Visible
                            } else {
                                ChunkVisibility::Hidden
                            };
                            vis.push((id, v));
                            proof {
                                assert(vis@[vis@.len() - 1] == (id, v));
                            }
                        }
                        proof {
                            assert forall|k2: int|
                                (0 <= k2 < k + 1 && (#[trigger] sl.entries()[k2]) is Some) implies vis@.contains(
                                (
                                    sl.entries()[k2]->Some_0,
                                    if k2 == ce {
                                        ChunkVisibility::Visible
                                    } else {
                                        ChunkVisibility::Hidden
                                    },
                                ),
                            ) by {
                                let pair = (
                                    sl.entries()[k2]->Some_0,
                                    if k2 == ce {
                                        ChunkVisibility::Visible
                                    } else {
                                        ChunkVisibility::Hidden
                                    },
                                );
                                if k2 < k {
                                    assert(visk.contains(pair));
                                    let i2 = choose|i2: int|
                                        0 <= i2 < visk.len() && visk[i2] == pair;
                                    assert(vis@[i2] == pair);
                                } else {
                                    assert(vis@[vis@.len() - 1] == pair);
                                }
                            }
                            assert forall|j2: int, k2: int|
                                (0 <= j2 < j && self.in_window(v0[j2]) && !self.pending(
                                    ready@,
                                    v0[j2],
                                ) && 0 <= k2 < ll && (#[trigger] self.slot(
                                    v0[j2].y as int + e,
                                    v0[j2].x as int + e,
                                ).entries()[k2]) is Some) implies vis@.contains(
                                (
                                    self.slot(
                                        v0[j2].y as int + e,
                                        v0[j2].x as int + e,
                                    ).entries()[k2]->Some_0,
                                    if k2 == ce {
                                        ChunkVisibility::Visible
                                    } else {
                                        ChunkVisibility::Hidden
                                    },
                                ),
                            ) by {
                                let pair = (
                                    self.slot(
                                        v0[j2].y as int + e,
                                        v0[j2].x as int + e,
                                    ).entries()[k2]->Some_0,
                                    if k2 == ce {
                                        ChunkVisibility::Visible
                                    } else {
                                        ChunkVisibility::Hidden
                                    },
                                );
                                assert(visk.contains(pair));
                                let i2 = choose|i2: int| 0 <= i2 < visk.len() && visk[i2] == pair;
                                assert(vis@[i2] == pair);
                            }
                            assert forall|i: int|
                                0 <= i < vis@.len() implies self.swap_emitted_by(
                                ready@,
                                v0,
                                #[trigger] vis@[i],
                            ) by {
                                if i < visk.len() {
                                    assert(vis@[i] == visk[i]);
                                    assert(self.swap_emitted_by(ready@, v0, visk[i]));
                                } else {
                                    assert(sl.entries()[k as int] == Some(vis@[i].0));
                                    assert(self.slot(
                                        v0[j as int].y as int + e,
                                        v0[j as int].x as int + e,
                                    ).entries()[k as int] == Some(vis@[i].0));
                                    assert(self.swap_emits(ready@, v0[j as int], vis@[i]));
                                }
                            }
                        }
                        k = k + 1;
                    }
                } else {
                    kept.push(o);
                }
            }
            proof {
                if !inw {
                    assert(!self.in_window(o));
                    assert(!pred(o));
                } else if !cur_ready {
                    assert(pred(o));
                } else {
                    assert(!pred(o));
                }
                assert(v0.take(j as int + 1) =~= v0.take(j as int).push(v0[j as int]));
                v0.take(j as int).lemma_filter_push(v0[j as int], pred);
            }
            j = j + 1;
        }
        proof {
            assert(v0.take(n as int) =~= v0);
            assert forall|i: int| 0 <= i < vis@.len() implies self.swap_emitted_by(
                ready@,
                old(invalid).0@,
                #[trigger] vis@[i],
            ) by {
                assert(self.swap_emitted_by(ready@, v0, vis@[i]));
            }
        }
        invalid.0 = kept;
        vis
    }

    /// Builds an empty grid aligned to `anchor`.
    pub fn new(extent: u32, lod_extent: u32, anchor: IVec2) -> (t: Lod2dTree)
        requires
            extent <= 1000,
            lod_extent <= 1000,
        ensures
            t.wf(),
            t.synced(),
            t.pos == anchor,
            t.glen() == 2 * extent + 1,
            t.llen() == 2 * lod_extent + 1,
            t.issued() == 0,
            t.chunk_info() == Map::<ChunkId, Chunk>::empty(),
            forall|r: int, c: int|
                0 <= r < t.glen() && 0 <= c < t.glen() ==> (#[trigger] t.slot(r, c)).entries()
                    == empty_entries(t.llen()),
    {
        let glen: usize = 2 * (extent as usize) + 1;
        let lod_len: usize = 2 * (lod_extent as usize) + 1;
        let mut rows: Vec<Ring<Slot>> = Vec::new();
        while rows.len() < glen
            invariant
                rows@.len() <= glen,
                glen > 0,
                lod_len > 0,
                forall|r: int|
                    0 <= r < rows@.len() ==> (#[trigger] rows@[r]).wf() && rows@[r]@.len()
                        == glen,
                forall|r: int, c: int|
                    0 <= r < rows@.len() && 0 <= c < glen ==> (#[trigger] rows@[r]@[c]).wf(
                        lod_len as int,
                    ) && rows@[r]@[c].entries() == empty_entries(lod_len as int),
            decreases glen - rows@.len(),
        {
            rows.push(Self::empty_row(glen, lod_len));
        }
        let t = Lod2dTree {
            map: Ring::from_vec(rows),
            pos: anchor,
            prev_pos: anchor,
            extent,
            lod_extent,
            next_id: 0,
            meta: Ghost(Map::empty()),
        };
        proof {
            assert forall|r: int, c: int, k: int, id: ChunkId|
                t.live_at(r, c, k, id) implies false by {
                assert(t.slot(r, c).entries() == empty_entries(t.llen()));
            }
        }
        t
    }
}

impl Default for Lod2dTree {
    /// An empty grid of the default dimensions, aligned to the origin.
    fn default() -> (t: Lod2dTree)
        ensures
            t.wf(),
            t.synced(),
            t.pos == (IVec2 { x: 0, y: 0 }),
            t.glen() == LOD_GRID_LEN,
            t.llen() == LOD_LEVELS_PER_CHUNK,
            t.issued() == 0,
            t.chunk_info() == Map::<ChunkId, Chunk>::empty(),
            forall|r: int, c: int|
                0 <= r < t.glen() && 0 <= c < t.glen() ==> (#[trigger] t.slot(r, c)).entries()
                    == empty_entries(t.llen()),
    {
        Lod2dTree::new(LOD_GRID_EXTENT, LOD_LEVELS_PER_CHUNK_EXTENT, IVec2 { x: 0, y: 0 })
    }
}


/// Fills the invalidation set with every offset of a window of half-width
/// `extent`, so that each slot's first chunk is promoted to visible as soon
/// as the collaborator reports it ready.
pub fn setup(invalid: &mut InvalidSlots, extent: u32)
    requires
        extent <= 1000,
    ensures
        final(invalid).0@.len() == old(invalid).0@.len() + (2 * extent + 1) * (2 * extent + 1),
        forall|i: int| 0 <= i < old(invalid).0@.len() ==> final(invalid).0@[i] == old(invalid).0@[i],
        forall|o: IVec2|
            #[trigger] final(invalid).0@.contains(o) <==> (old(invalid).0@.contains(o) || (-(
            extent as int) <= o.x as int <= extent as int && -(extent as int) <= o.y as int
                <= extent as int)),
{
    broadcast use vstd::seq_lib::group_seq_properties;

    let ghost e = extent as int;
    let ghost v0 = old(invalid).0@;
    let glen = 2 * (extent as usize) + 1;
    let e32 = extent as i32;
    let mut r: usize = 0;
    while r < glen
        invariant
            extent <= 1000,
            e == extent as int,
            glen == 2 * e + 1,
            e32 as int == e,
            r <= glen,
            invalid.0@.len() == v0.len() + r * (2 * e + 1),
            forall|i: int| 0 <= i < v0.len() ==> invalid.0@[i] == v0[i],
            forall|o: IVec2|
                -e <= o.x as int <= e && -e <= o.y as int <= e && o.y as int + e < r
                    ==> #[trigger] invalid.0@.contains(o),
            forall|i: int|
                v0.len() <= i < invalid.0@.len() ==> -e <= (#[trigger] invalid.0@[i]).x as int
                    <= e && -e <= invalid.0@[i].y as int <= e,
        decreases glen - r,
    {
        let mut c: usize = 0;
        while c < glen
            invariant
                extent <= 1000,
                e == extent as int,
                glen == 2 * e + 1,
                e32 as int == e,
                r < glen,
                c <= glen,
                invalid.0@.len() == v0.len() + r * (2 * e + 1) + c,
                forall|i: int| 0 <= i < v0.len() ==> invalid.0@[i] == v0[i],
                forall|o: IVec2|
                    -e <= o.x as int <= e && -e <= o.y as int <= e && (o.y as int + e < r || (
                    o.y as int + e == r && o.x as int + e < c)) ==> #[trigger] invalid.0@.contains(
                        o,
                    ),
                forall|i: int|
                    v0.len() <= i < invalid.0@.len() ==> -e <= (
                    #[trigger] invalid.0@[i]).x as int <= e && -e <= invalid.0@[i].y as int <= e,
            decreases glen - c,
        {
            let ghost w0 = invalid.0@;
            let o = IVec2 { x: c as i32 - e32, y: r as i32 - e32 };
            invalid.0.push(o);
            proof {
                assert(invalid.0@[invalid.0@.len() - 1] == o);
                assert forall|o2: IVec2|
                    -e <= o2.x as int <= e && -e <= o2.y as int <= e && (o2.y as int + e < r || (
                    o2.y as int + e == r && o2.x as int + e < c + 1)) implies #[trigger] invalid.0@.contains(
                    o2,
                ) by {
                    if o2 == o {
                    } else {
                        assert(w0.contains(o2));
                        let i2 = choose|i2: int| 0 <= i2 < w0.len() && w0[i2] == o2;
                        assert(invalid.0@[i2] == o2);
                    }
                }
            }
            c = c + 1;
        }
        proof {
            assert((r as int + 1) * (2 * e + 1) == r as int * (2 * e + 1) + (2 * e + 1))
                by (nonlinear_arith);
        }
        r = r + 1;
    }
    proof {
        assert((glen as int) * (2 * e + 1) == (2 * extent as int + 1) * (2 * extent as int + 1))
            by (nonlinear_arith)
            requires
                glen as int == 2 * e + 1,
                e == extent as int,
        ;
        assert forall|o: IVec2| #[trigger] invalid.0@.contains(o) implies (v0.contains(o) || (-e
            <= o.x as int <= e && -e <= o.y as int <= e)) by {
            let i = choose|i: int| 0 <= i < invalid.0@.len() && invalid.0@[i] == o;
            if i < v0.len() {
                assert(v0[i] == o);
            }
        }
        assert forall|o: IVec2| v0.contains(o) implies #[trigger] invalid.0@.contains(o) by {
            let i = choose|i: int| 0 <= i < v0.len() && v0[i] == o;
            assert(invalid.0@[i] == o);
        }
    }
}

/// Uniqueness of live bindings: under the grid invariant a handle is bound at
/// one window position and inner-ring index at most, so despawning a handle
/// that one position evicted never touches a chunk that another position
/// still tracks, and no slot index ever silently takes over a handle that is
/// live elsewhere.
pub proof fn law_unique_binding(
    t: &Lod2dTree,
    r1: int,
    c1: int,
    k1: int,
    r2: int,
    c2: int,
    k2: int,
    id: ChunkId,
)
    requires
        t.wf(),
        t.live_at(r1, c1, k1, id),
        t.live_at(r2, c2, k2, id),
    ensures
        r1 == r2,
        c1 == c2,
        k1 == k2,
{
}

/// The grid anchor invariant: once the shift pass has caught up with the
/// anchor, every live handle's record places it at the world cell of the
/// anchor plus its window offset; in particular any chunk bound by the slot
/// at offset `(0, 0)` carries the anchor itself as its coordinate.
pub proof fn law_anchor_alignment(t: &Lod2dTree, r: int, c: int, k: int, id: ChunkId)
    requires
        t.wf(),
        t.synced(),
        t.live_at(r, c, k, id),
    ensures
        t.chunk_info()[id].coord.x == t.pos.x + c - t.spec_extent(),
        t.chunk_info()[id].coord.y == t.pos.y + r - t.spec_extent(),
        r == t.spec_extent() && c == t.spec_extent() ==> t.chunk_info()[id].coord == t.pos,
{
}

/// Once aligned, the current chunk of every slot carries exactly the level
/// of detail that its offset's Chebyshev distance from the anchor requires.
pub proof fn law_current_lod(t: &Lod2dTree, r: int, c: int, id: ChunkId)
    requires
        t.wf(),
        t.live_at(r, c, t.center(), id),
    ensures
        t.chunk_info()[id].lod == cheb(c - t.spec_extent(), r - t.spec_extent()),
{
}

/// Convergence: when every slot of the window holds a current chunk and the
/// collaborator has reported every one of them ready, no offset is pending,
/// so a single swap pass empties any invalidation set, and by
/// `law_current_lod` every visible chunk then sits at the level of detail of
/// its distance from the anchor.
pub proof fn law_convergence(t: &Lod2dTree, ready: Seq<ChunkId>, set: Seq<IVec2>)
    requires
        t.wf(),
        forall|r: int, c: int|
            0 <= r < t.glen() && 0 <= c < t.glen() ==> (#[trigger] t.slot(r, c)).entries()[t.center()]
                is Some && ready.contains(t.slot(r, c).entries()[t.center()]->Some_0),
    ensures
        set.filter(|o: IVec2| t.pending(ready, o)) == Seq::<IVec2>::empty(),
    decreases set.len(),
{
    let pred = |o: IVec2| t.pending(ready, o);
    assert forall|o: IVec2| !(#[trigger] pred(o)) by {
        if t.in_window(o) {
            let r = o.y as int + t.spec_extent();
            let c = o.x as int + t.spec_extent();
            assert(t.slot(r, c).entries()[t.center()] is Some && ready.contains(
                t.slot(r, c).entries()[t.center()]->Some_0,
            ));
        }
    }
    if set.len() == 0 {
        reveal(Seq::filter);
        assert(set.filter(pred) =~= Seq::<IVec2>::empty());
    } else {
        law_convergence(t, ready, set.drop_last());
        set.drop_last().lemma_filter_push(set.last(), pred);
        assert(set.drop_last().push(set.last()) =~= set);
        assert(!pred(set.last()));
        assert(set.filter(pred) =~= Seq::<IVec2>::empty());
    }
}



} // verus!
