//! Segment layout of the NVMe tier: which block stands in which slot of which
//! segment. Freeing leaves holes, compaction packs a segment, and a move puts a
//! block next to another.

use vstd::prelude::*;
use vstd::string::*;

use crate::base::keys;
use crate::base::keys::{to_bytes, Dup};
use crate::base::table::Table;
use crate::base::text;
use crate::base::text::{decimal_text, text};

verus! {

/// Slot size used when the caller gives none.
pub const DEFAULT_SLOT_BYTES: u64 = 4096;

/// Where a block stands: a segment and a byte offset in it.
#[derive(Debug, Clone, Copy, PartialEq, Eq, Structural)]
pub struct Placement {
    pub segment_id: u64,
    pub offset: u64,
}

impl View for Placement {
    type V = Placement;

    open spec fn view(&self) -> Placement {
        *self
    }
}

impl Dup for Placement {
    fn dup(&self) -> (copy: Self) {
        *self
    }
}

/// A block that changed its placement.
#[derive(Debug, Clone, PartialEq, Eq)]
pub struct Relocate {
    pub hash: Vec<u8>,
    pub from: Placement,
    pub to: Placement,
}

/// What a relocation stands for.
pub struct RelocateView {
    pub hash: Seq<u8>,
    pub from: Placement,
    pub to: Placement,
}

impl View for Relocate {
    type V = RelocateView;

    open spec fn view(&self) -> RelocateView {
        RelocateView { hash: self.hash@, from: self.from, to: self.to }
    }
}

/// The slots of one segment; each holds at most one block.
pub type Slots = Seq<Option<Seq<u8>>>;

/// The first free slot at or after `from`.
pub open spec fn first_free(slots: Slots, from: int) -> Option<int>
    decreases slots.len() - from,
{
    if from < 0 || from >= slots.len() {
        None
    } else if slots[from] is None {
        Some(from)
    } else {
        first_free(slots, from + 1)
    }
}

/// The blocks of a segment in slot order.
pub open spec fn live(slots: Slots) -> Seq<Seq<u8>>
    decreases slots.len(),
{
    if slots.len() == 0 {
        Seq::empty()
    } else {
        match slots.last() {
            Some(h) => live(slots.drop_last()).push(h),
            None => live(slots.drop_last()),
        }
    }
}

/// The number of occupied slots before the first free one.
pub open spec fn dense_prefix(slots: Slots) -> int {
    match first_free(slots, 0) {
        Some(i) => i,
        None => slots.len() as int,
    }
}

/// A segment whose blocks, in slot order, stand at its front.
pub open spec fn packed(slots: Slots) -> Slots {
    Seq::new(
        slots.len(),
        |i: int|
            if i < live(slots).len() {
                Some(live(slots)[i])
            } else {
                None
            },
    )
}

/// The byte offset of a slot.
pub open spec fn offset_of(i: int, slot_bytes: u64) -> u64 {
    (i * slot_bytes) as u64
}

/// The relocations that pack `blocks` at the front of the segment: one for each
/// block that does not already stand there, in slot order.
pub open spec fn pack_moves(
    blocks: Seq<Seq<u8>>,
    placed: Map<Seq<u8>, Placement>,
    segment_id: u64,
    slot_bytes: u64,
) -> Seq<RelocateView>
    decreases blocks.len(),
{
    if blocks.len() == 0 {
        Seq::empty()
    } else {
        let rest = pack_moves(blocks.drop_last(), placed, segment_id, slot_bytes);
        let h = blocks.last();
        let to = Placement { segment_id, offset: offset_of(blocks.len() - 1, slot_bytes) };
        if placed[h] == to {
            rest
        } else {
            rest.push(RelocateView { hash: h, from: placed[h], to })
        }
    }
}

/// The placements after `blocks` were packed at the front of the segment.
pub open spec fn pack_placed(
    blocks: Seq<Seq<u8>>,
    placed: Map<Seq<u8>, Placement>,
    segment_id: u64,
    slot_bytes: u64,
) -> Map<Seq<u8>, Placement> {
    Map::new(
        |h: Seq<u8>| placed.contains_key(h) || blocks.contains(h),
        |h: Seq<u8>|
            if blocks.contains(h) {
                Placement { segment_id, offset: offset_of(blocks.index_of(h), slot_bytes) }
            } else {
                placed[h]
            },
    )
}

/// What an arena stands for: the slots of each segment and the placement of
/// each block.
#[verifier::ext_equal]
pub struct ArenaView {
    pub slot_bytes: u64,
    pub capacity: nat,
    pub segments: Map<u64, Slots>,
    pub next_seg: u64,
    pub placed: Map<Seq<u8>, Placement>,
}

impl ArenaView {
    /// The slot at which a placement points.
    pub open spec fn slot_at(self, p: Placement) -> int {
        p.offset as int / self.slot_bytes as int
    }

    /// Slots and placements tell the same story: a block is placed exactly where
    /// a slot holds it.
    pub open spec fn wf(self) -> bool {
        &&& self.slot_bytes > 0
        &&& self.capacity > 0
        &&& self.capacity * self.slot_bytes <= u64::MAX
        &&& self.segments.dom().finite()
        &&& forall|id: u64| #[trigger]
            self.segments.contains_key(id) ==> self.segments[id].len() == self.capacity && id
                < self.next_seg
        &&& forall|h: Seq<u8>| #[trigger] self.placed.contains_key(h) ==> self.is_at(h, self.placed[h])
        &&& forall|id: u64, i: int|
            self.segments.contains_key(id) && 0 <= i < self.capacity
                && #[trigger] self.segments[id][i] is Some ==> self.placed.contains_key(
                self.segments[id][i]->0,
            ) && self.placed[self.segments[id][i]->0] == (Placement {
                segment_id: id,
                offset: offset_of(i, self.slot_bytes),
            })
    }

    /// A slot of an existing segment holds the block at that placement.
    pub open spec fn is_at(self, h: Seq<u8>, p: Placement) -> bool {
        &&& self.segments.contains_key(p.segment_id)
        &&& p.offset as int % self.slot_bytes as int == 0
        &&& self.slot_at(p) < self.capacity
        &&& self.segments[p.segment_id][self.slot_at(p)] == Some(h)
    }

    /// An arena without segments.
    pub open spec fn fresh(slot_bytes: u64, capacity_slots: usize) -> ArenaView {
        ArenaView {
            slot_bytes: if slot_bytes == 0 {
                DEFAULT_SLOT_BYTES
            } else {
                slot_bytes
            },
            capacity: if capacity_slots == 0 {
                1
            } else {
                capacity_slots as nat
            },
            segments: Map::empty(),
            next_seg: 1,
            placed: Map::empty(),
        }
    }

    /// The segment exists, empty if it is new, and later ids lie above it.
    pub open spec fn ensure_seg(self, id: u64) -> ArenaView {
        ArenaView {
            segments: if self.segments.contains_key(id) {
                self.segments
            } else {
                self.segments.insert(id, Seq::new(self.capacity, |i: int| None))
            },
            next_seg: if id >= self.next_seg {
                (id + 1) as u64
            } else {
                self.next_seg
            },
            ..self
        }
    }

    /// Places a block at a given slot. Where the hash is free and the offset
    /// aligned the segment is created even if the slot is then refused.
    pub open spec fn place_at(self, h: Seq<u8>, id: u64, offset: u64) -> (
        ArenaView,
        Result<Placement, Seq<char>>,
    ) {
        let idx = offset as int / self.slot_bytes as int;
        if self.placed.contains_key(h) {
            (self, Err("place_at: hash already placed"@))
        } else if offset as int % self.slot_bytes as int != 0 {
            (self, Err("place_at: offset not slot-aligned"@))
        } else if idx >= self.capacity {
            (self.ensure_seg(id), Err("place_at: offset beyond segment capacity"@))
        } else if self.ensure_seg(id).segments[id][idx] is Some {
            (self.ensure_seg(id), Err("place_at: slot occupied"@))
        } else {
            (self.put(h, id, idx), Ok(Placement { segment_id: id, offset }))
        }
    }

    /// The arena with a block in a slot.
    pub open spec fn put(self, h: Seq<u8>, id: u64, idx: int) -> ArenaView {
        let a = self.ensure_seg(id);
        ArenaView {
            segments: a.segments.insert(id, a.segments[id].update(idx, Some(h))),
            placed: a.placed.insert(
                h,
                Placement { segment_id: id, offset: offset_of(idx, self.slot_bytes) },
            ),
            ..a
        }
    }

    /// A segment with a free slot.
    pub open spec fn is_open(self, id: u64) -> bool {
        self.segments.contains_key(id) && first_free(self.segments[id], 0) is Some
    }

    /// The lowest segment with a free slot.
    pub open spec fn lowest_open(self) -> Option<u64> {
        if exists|id: u64| self.is_open(id) {
            Some(
                choose|id: u64|
                    self.is_open(id) && forall|other: u64| #[trigger]
                        self.is_open(other) ==> id <= other,
            )
        } else {
            None
        }
    }

    /// Places a block in the first free slot of the lowest segment that has one,
    /// or at the front of a new segment.
    pub open spec fn allocate(self, h: Seq<u8>) -> (ArenaView, Result<Placement, Seq<char>>) {
        if self.placed.contains_key(h) {
            (self, Err("segment alloc: hash already placed"@))
        } else {
            match self.lowest_open() {
                Some(id) => {
                    let idx = first_free(self.segments[id], 0)->0;
                    (
                        self.put(h, id, idx),
                        Ok(Placement { segment_id: id, offset: offset_of(idx, self.slot_bytes) }),
                    )
                },
                None => (
                    self.put(h, self.next_seg, 0),
                    Ok(Placement { segment_id: self.next_seg, offset: 0 }),
                ),
            }
        }
    }

    /// Forgets a block and clears its slot.
    pub open spec fn free(self, h: Seq<u8>) -> ArenaView {
        if self.placed.contains_key(h) {
            let p = self.placed[h];
            ArenaView {
                segments: self.segments.insert(
                    p.segment_id,
                    self.segments[p.segment_id].update(self.slot_at(p), None),
                ),
                placed: self.placed.remove(h),
                ..self
            }
        } else {
            self
        }
    }

    /// Packs one segment.
    pub open spec fn compact(self, id: u64) -> ArenaView {
        if self.segments.contains_key(id) {
            ArenaView {
                segments: self.segments.insert(id, packed(self.segments[id])),
                placed: pack_placed(live(self.segments[id]), self.placed, id, self.slot_bytes),
                ..self
            }
        } else {
            self
        }
    }

    /// The relocations of a packed segment.
    pub open spec fn compact_moves(self, id: u64) -> Result<Seq<RelocateView>, Seq<char>> {
        if self.segments.contains_key(id) {
            Ok(pack_moves(live(self.segments[id]), self.placed, id, self.slot_bytes))
        } else {
            Err("compact: unknown segment "@ + text::decimal(id as nat))
        }
    }

    /// Moves a block to a free slot; a refused move leaves it where it was.
    pub open spec fn relocate(self, h: Seq<u8>, id: u64, offset: u64) -> (
        ArenaView,
        Result<RelocateView, Seq<char>>,
    ) {
        if !self.placed.contains_key(h) {
            (self, Err("relocate: unknown hash"@))
        } else {
            let from = self.placed[h];
            let dest = Placement { segment_id: id, offset };
            if from == dest {
                (self, Ok(RelocateView { hash: h, from, to: from }))
            } else {
                let (moved, r) = self.free(h).place_at(h, id, offset);
                match r {
                    Ok(to) => (moved, Ok(RelocateView { hash: h, from, to })),
                    Err(e) => (moved.put(h, from.segment_id, self.slot_at(from)), Err(e)),
                }
            }
        }
    }
}

proof fn lemma_offset(i: int, slot: u64, capacity: nat)
    requires
        0 <= i < capacity,
        slot > 0,
        capacity * slot <= u64::MAX,
    ensures
        0 <= i * slot <= u64::MAX,
        offset_of(i, slot) as int == i * slot,
        offset_of(i, slot) as int / slot as int == i,
        offset_of(i, slot) as int % slot as int == 0,
{
    assert(0 <= i * slot <= capacity * slot) by (nonlinear_arith)
        requires
            0 <= i < capacity,
            slot > 0,
    ;
    vstd::arithmetic::div_mod::lemma_div_multiples_vanish(i, slot as int);
    vstd::arithmetic::div_mod::lemma_mod_multiples_basic(i, slot as int);
    assert(slot as int * i == i * slot as int) by (nonlinear_arith);
}

proof fn lemma_aligned(offset: u64, slot: u64)
    requires
        slot > 0,
        offset as int % slot as int == 0,
    ensures
        offset as int / slot as int >= 0,
        (offset as int / slot as int) * slot == offset,
        offset_of(offset as int / slot as int, slot) == offset,
{
    vstd::arithmetic::div_mod::lemma_fundamental_div_mod(offset as int, slot as int);
    vstd::arithmetic::div_mod::lemma_div_pos_is_pos(offset as int, slot as int);
    assert((offset as int / slot as int) * slot == slot as int * (offset as int / slot as int))
        by (nonlinear_arith);
}

proof fn lemma_first_free(slots: Slots, from: int)
    requires
        0 <= from,
    ensures
        match first_free(slots, from) {
            Some(i) => from <= i < slots.len() && slots[i] is None && forall|j: int|
                from <= j < i ==> (#[trigger] slots[j]) is Some,
            None => forall|j: int| from <= j < slots.len() ==> (#[trigger] slots[j]) is Some,
        },
    decreases slots.len() - from,
{
    if from < slots.len() && slots[from] is Some {
        lemma_first_free(slots, from + 1);
    }
}

/// The lowest open segment is the least of them.
proof fn lemma_lowest_open(a: ArenaView, id: u64)
    requires
        a.is_open(id),
        forall|other: u64| #[trigger] a.is_open(other) ==> id <= other,
    ensures
        a.lowest_open() == Some(id),
{
    let least = choose|x: u64|
        a.is_open(x) && forall|other: u64| #[trigger] a.is_open(other) ==> x <= other;
    assert(a.is_open(least));
}

/// Where some segment is open, the lowest open one exists: segment ids are
/// numbers, so one of them is least.
pub proof fn lemma_lowest_open_exists(a: ArenaView)
    ensures
        a.lowest_open() matches Some(id) ==> a.is_open(id) && forall|other: u64| #[trigger]
            a.is_open(other) ==> id <= other,
{
    if a.lowest_open() is Some {
        let some = choose|id: u64| a.is_open(id);
        lemma_least_open(a, some);
    }
}

proof fn lemma_least_open(a: ArenaView, id: u64)
    requires
        a.is_open(id),
    ensures
        exists|low: u64|
            a.is_open(low) && forall|other: u64| #[trigger] a.is_open(other) ==> low <= other,
    decreases id,
{
    if exists|other: u64| a.is_open(other) && other < id {
        let other = choose|other: u64| a.is_open(other) && other < id;
        lemma_least_open(a, other);
    } else {
        assert(a.is_open(id) && forall|other: u64| #[trigger] a.is_open(other) ==> id <= other);
    }
}

proof fn lemma_live(slots: Slots)
    ensures
        live(slots).len() <= slots.len(),
        forall|h: Seq<u8>| #[trigger]
            live(slots).contains(h) ==> exists|i: int|
                0 <= i < slots.len() && slots[i] == Some(h),
        forall|i: int|
            0 <= i < slots.len() && (#[trigger] slots[i]) is Some ==> live(slots).contains(
                slots[i]->0,
            ),
    decreases slots.len(),
{
    if slots.len() > 0 {
        let init = slots.drop_last();
        lemma_live(init);
        assert forall|h: Seq<u8>| #[trigger] live(slots).contains(h) implies exists|i: int|
            0 <= i < slots.len() && slots[i] == Some(h) by {
            let k = choose|k: int| 0 <= k < live(slots).len() && live(slots)[k] == h;
            if k < live(init).len() {
                assert(live(init)[k] == h);
                assert(live(init).contains(h));
                let i = choose|i: int| 0 <= i < init.len() && init[i] == Some(h);
                assert(slots[i] == Some(h));
            } else {
                assert(slots[slots.len() - 1] == Some(h));
            }
        }
        assert forall|i: int| 0 <= i < slots.len() && (#[trigger] slots[i]) is Some implies live(
            slots,
        ).contains(slots[i]->0) by {
            if i < init.len() {
                assert(init[i] is Some);
                let k = choose|k: int| 0 <= k < live(init).len() && live(init)[k] == slots[i]->0;
                assert(live(slots)[k] == slots[i]->0);
            } else {
                assert(live(slots)[live(slots).len() - 1] == slots[i]->0);
            }
        }
    }
}

proof fn lemma_live_unique(slots: Slots)
    requires
        forall|i: int, j: int|
            0 <= i < slots.len() && 0 <= j < slots.len() && i != j && (#[trigger] slots[i]) is Some
                ==> slots[i] != #[trigger] slots[j],
    ensures
        live(slots).no_duplicates(),
    decreases slots.len(),
{
    if slots.len() > 0 {
        let init = slots.drop_last();
        assert forall|i: int, j: int|
            0 <= i < init.len() && 0 <= j < init.len() && i != j && (#[trigger] init[i]) is Some
                implies init[i] != #[trigger] init[j] by {
            assert(slots[i] != slots[j]);
        }
        lemma_live_unique(init);
        if slots.last() is Some {
            let h = slots.last()->0;
            lemma_live(init);
            assert(!live(init).contains(h)) by {
                if live(init).contains(h) {
                    let i = choose|i: int| 0 <= i < init.len() && init[i] == Some(h);
                    assert(slots[i] != slots[slots.len() - 1]);
                }
            }
            assert forall|x: int, y: int|
                0 <= x < live(slots).len() && 0 <= y < live(slots).len() && x != y implies live(
                slots,
            )[x] != live(slots)[y] by {
                if x == live(init).len() {
                    assert(live(init).contains(live(init)[y]));
                } else if y == live(init).len() {
                    assert(live(init).contains(live(init)[x]));
                }
            }
        }
    }
}

/// No block stands in two slots.
pub proof fn lemma_one_slot(a: ArenaView, id: u64, i: int, other: u64, j: int)
    requires
        a.wf(),
        a.segments.contains_key(id),
        a.segments.contains_key(other),
        0 <= i < a.capacity,
        0 <= j < a.capacity,
        a.segments[id][i] is Some,
        a.segments[id][i] == a.segments[other][j],
    ensures
        id == other,
        i == j,
{
    lemma_offset(i, a.slot_bytes, a.capacity);
    lemma_offset(j, a.slot_bytes, a.capacity);
}

proof fn lemma_segment_unique(a: ArenaView, id: u64)
    requires
        a.wf(),
        a.segments.contains_key(id),
    ensures
        live(a.segments[id]).no_duplicates(),
{
    let s = a.segments[id];
    assert forall|i: int, j: int|
        0 <= i < s.len() && 0 <= j < s.len() && i != j && (#[trigger] s[i]) is Some implies s[i]
        != #[trigger] s[j] by {
        if s[i] == s[j] {
            lemma_one_slot(a, id, i, id, j);
        }
    }
    lemma_live_unique(s);
}

proof fn lemma_ensure_seg(a: ArenaView, id: u64)
    requires
        a.wf(),
        id < u64::MAX,
    ensures
        a.ensure_seg(id).wf(),
        a.ensure_seg(id).segments.contains_key(id),
{
    let b = a.ensure_seg(id);
    assert forall|h: Seq<u8>| #[trigger] b.placed.contains_key(h) implies b.is_at(
        h,
        b.placed[h],
    ) by {
        assert(a.is_at(h, a.placed[h]));
    }
    assert forall|s: u64, i: int|
        b.segments.contains_key(s) && 0 <= i < b.capacity && #[trigger] b.segments[s][i] is Some
            implies b.placed.contains_key(b.segments[s][i]->0) && b.placed[b.segments[s][i]->0] == (
    Placement { segment_id: s, offset: offset_of(i, b.slot_bytes) }) by {
        assert(a.segments.contains_key(s));
        assert(a.segments[s][i] is Some);
    }
}

proof fn lemma_put(a: ArenaView, h: Seq<u8>, id: u64, idx: int)
    requires
        a.wf(),
        id < u64::MAX,
        !a.placed.contains_key(h),
        0 <= idx < a.capacity,
        a.ensure_seg(id).segments[id][idx] is None,
    ensures
        a.put(h, id, idx).wf(),
{
    lemma_ensure_seg(a, id);
    let e = a.ensure_seg(id);
    let b = a.put(h, id, idx);
    lemma_offset(idx, a.slot_bytes, a.capacity);
    assert forall|x: Seq<u8>| #[trigger] b.placed.contains_key(x) implies b.is_at(
        x,
        b.placed[x],
    ) by {
        if x != h {
            assert(e.placed.contains_key(x));
            assert(e.is_at(x, e.placed[x]));
        }
    }
    assert forall|s: u64, i: int|
        b.segments.contains_key(s) && 0 <= i < b.capacity && #[trigger] b.segments[s][i] is Some
            implies b.placed.contains_key(b.segments[s][i]->0) && b.placed[b.segments[s][i]->0] == (
    Placement { segment_id: s, offset: offset_of(i, b.slot_bytes) }) by {
        if !(s == id && i == idx) {
            assert(e.segments[s][i] is Some);
            assert(e.placed.contains_key(e.segments[s][i]->0));
        }
    }
}

pub proof fn lemma_free(a: ArenaView, h: Seq<u8>)
    requires
        a.wf(),
    ensures
        a.free(h).wf(),
        !a.free(h).placed.contains_key(h),
{
    if a.placed.contains_key(h) {
        let p = a.placed[h];
        assert(a.is_at(h, p));
        let idx = a.slot_at(p);
        let b = a.free(h);
        lemma_aligned(p.offset, a.slot_bytes);
        assert forall|x: Seq<u8>| #[trigger] b.placed.contains_key(x) implies b.is_at(
            x,
            b.placed[x],
        ) by {
            let q = a.placed[x];
            assert(a.is_at(x, q));
            lemma_aligned(q.offset, a.slot_bytes);
        }
        assert forall|s: u64, i: int|
            b.segments.contains_key(s) && 0 <= i < b.capacity && #[trigger] b.segments[s][i] is Some
                implies b.placed.contains_key(b.segments[s][i]->0) && b.placed[b.segments[s][i]->0]
            == (Placement { segment_id: s, offset: offset_of(i, b.slot_bytes) }) by {
            assert(a.segments[s][i] is Some);
            if a.segments[s][i] == Some(h) {
                lemma_one_slot(a, s, i, p.segment_id, idx);
            }
        }
    }
}

/// A block's position among the packed ones is its own.
proof fn lemma_index_of(blocks: Seq<Seq<u8>>, k: int)
    requires
        blocks.no_duplicates(),
        0 <= k < blocks.len(),
    ensures
        blocks.index_of(blocks[k]) == k,
{
    let i = blocks.index_of(blocks[k]);
    assert(0 <= k < blocks.len() && blocks[k] == blocks[k]);
    assert(0 <= i < blocks.len() && blocks[i] == blocks[k]);
}

proof fn lemma_compact(a: ArenaView, id: u64)
    requires
        a.wf(),
        a.segments.contains_key(id),
    ensures
        a.compact(id).wf(),
{
    let s = a.segments[id];
    let blocks = live(s);
    let b = a.compact(id);
    lemma_live(s);
    lemma_segment_unique(a, id);
    assert forall|x: Seq<u8>| #[trigger] b.placed.contains_key(x) implies b.is_at(
        x,
        b.placed[x],
    ) by {
        if blocks.contains(x) {
            let k = blocks.index_of(x);
            assert(blocks[k] == x);
            lemma_offset(k, a.slot_bytes, a.capacity);
            assert(packed(s)[k] == Some(x));
        } else {
            let q = a.placed[x];
            assert(a.is_at(x, q));
            if q.segment_id == id {
                lemma_aligned(q.offset, a.slot_bytes);
                assert(s[a.slot_at(q)] is Some);
                assert(false);
            }
        }
    }
    assert forall|t: u64, i: int|
        b.segments.contains_key(t) && 0 <= i < b.capacity && #[trigger] b.segments[t][i] is Some
            implies b.placed.contains_key(b.segments[t][i]->0) && b.placed[b.segments[t][i]->0] == (
    Placement { segment_id: t, offset: offset_of(i, b.slot_bytes) }) by {
        if t == id {
            assert(i < blocks.len());
            assert(blocks.contains(blocks[i]));
            lemma_index_of(blocks, i);
        } else {
            let h = a.segments[t][i]->0;
            assert(a.segments[t][i] is Some);
            if blocks.contains(h) {
                let j = choose|j: int| 0 <= j < s.len() && s[j] == Some(h);
                lemma_one_slot(a, t, i, id, j);
            }
        }
    }
}

/// Slots of one segment, as stored.
pub struct Segment {
    slots: Vec<Option<Vec<u8>>>,
}

impl View for Segment {
    type V = Slots;

    closed spec fn view(&self) -> Slots {
        self.slots@.map_values(|s: Option<Vec<u8>>| keys::opt(s))
    }
}

impl Segment {
    /// An empty segment; at least one slot.
    fn new(capacity_slots: usize) -> (s: Self)
        requires
            capacity_slots > 0,
        ensures
            s@ == Seq::new(capacity_slots as nat, |i: int| None::<Seq<u8>>),
    {
        let mut slots: Vec<Option<Vec<u8>>> = Vec::with_capacity(capacity_slots);
        let mut i: usize = 0;
        while i < capacity_slots
            invariant
                i <= capacity_slots,
                slots@.len() == i,
                forall|j: int| 0 <= j < i ==> (#[trigger] slots@[j]) is None,
            decreases capacity_slots - i,
        {
            slots.push(None);
            i += 1;
        }
        let s = Segment { slots };
        assert(s@ =~= Seq::new(capacity_slots as nat, |i: int| None::<Seq<u8>>));
        s
    }

    fn live_slots(&self) -> (n: usize)
        ensures
            n == live(self@).len(),
    {
        let mut n: usize = 0;
        let mut i: usize = 0;
        assert(self@.take(0) =~= Seq::empty());
        while i < self.slots.len()
            invariant
                i <= self.slots.len(),
                n <= i,
                self@.len() == self.slots@.len(),
                n == live(self@.take(i as int)).len(),
            decreases self.slots.len() - i,
        {
            assert(self@.take(i + 1).drop_last() =~= self@.take(i as int));
            assert(self@[i as int] == keys::opt(self.slots@[i as int]));
            if self.slots[i].is_some() {
                n += 1;
            }
            i += 1;
        }
        assert(self@.take(i as int) =~= self@);
        n
    }

    fn first_free(&self) -> (at: Option<usize>)
        ensures
            match at {
                Some(i) => first_free(self@, 0) == Some(i as int) && i < self@.len(),
                None => first_free(self@, 0) is None,
            },
    {
        let mut i: usize = 0;
        while i < self.slots.len()
            invariant
                i <= self.slots.len(),
                self@.len() == self.slots@.len(),
                first_free(self@, 0) == first_free(self@, i as int),
            decreases self.slots.len() - i,
        {
            assert(self@[i as int] == keys::opt(self.slots@[i as int]));
            if self.slots[i].is_none() {
                return Some(i);
            }
            i += 1;
        }
        None
    }

    /// The blocks in slot order.
    fn hashes(&self) -> (blocks: Vec<Vec<u8>>)
        ensures
            keys::views(blocks@) == live(self@),
    {
        let mut blocks: Vec<Vec<u8>> = Vec::new();
        let mut i: usize = 0;
        assert(self@.take(0) =~= Seq::empty());
        assert(keys::views(blocks@) =~= Seq::empty());
        while i < self.slots.len()
            invariant
                i <= self.slots.len(),
                self@.len() == self.slots@.len(),
                keys::views(blocks@) == live(self@.take(i as int)),
            decreases self.slots.len() - i,
        {
            assert(self@.take(i + 1).drop_last() =~= self@.take(i as int));
            assert(self@[i as int] == keys::opt(self.slots@[i as int]));
            let ghost before = keys::views(blocks@);
            if let Some(h) = &self.slots[i] {
                blocks.push(h.dup());
                assert(keys::views(blocks@) =~= before.push(h@));
            }
            i += 1;
        }
        assert(self@.take(i as int) =~= self@);
        blocks
    }
}

/// In-process segment arena: the layout only, no bytes.
pub struct SegmentArena {
    slot_bytes: u64,
    capacity_slots: usize,
    segments: Table<u64, Segment>,
    next_seg: u64,
    by_hash: Table<Vec<u8>, Placement>,
}

impl View for SegmentArena {
    type V = ArenaView;

    closed spec fn view(&self) -> ArenaView {
        ArenaView {
            slot_bytes: self.slot_bytes,
            capacity: self.capacity_slots as nat,
            segments: self.segments@,
            next_seg: self.next_seg,
            placed: self.by_hash@,
        }
    }
}

impl SegmentArena {
    /// An empty arena. A slot size of zero means the default, a segment has at
    /// least one slot, and its byte size must fit the offset type.
    pub fn new(slot_bytes: u64, capacity_slots: usize) -> (arena: Self)
        requires
            ArenaView::fresh(slot_bytes, capacity_slots).capacity * ArenaView::fresh(
                slot_bytes,
                capacity_slots,
            ).slot_bytes <= u64::MAX,
        ensures
            arena@ == ArenaView::fresh(slot_bytes, capacity_slots),
            arena@.wf(),
    {
        SegmentArena {
            slot_bytes: if slot_bytes == 0 {
                DEFAULT_SLOT_BYTES
            } else {
                slot_bytes
            },
            capacity_slots: if capacity_slots == 0 {
                1
            } else {
                capacity_slots
            },
            segments: Table::new(),
            next_seg: 1,
            by_hash: Table::new(),
        }
    }

    /// The size of a slot.
    pub fn slot_bytes(&self) -> (n: u64)
        ensures
            n == self@.slot_bytes,
    {
        self.slot_bytes
    }

    /// The number of slots of a segment.
    pub fn capacity_slots(&self) -> (n: usize)
        ensures
            n == self@.capacity,
    {
        self.capacity_slots
    }

    /// Where a block stands.
    pub fn placement(&self, hash: &[u8]) -> (p: Option<Placement>)
        ensures
            p == if self@.placed.contains_key(hash@) {
                Some(self@.placed[hash@])
            } else {
                None
            },
    {
        match self.by_hash.get(&to_bytes(hash)) {
            Some(p) => Some(*p),
            None => None,
        }
    }

    /// The number of occupied slots of a segment; none if it does not exist.
    pub fn live_slots(&self, segment_id: u64) -> (n: usize)
        ensures
            n == if self@.segments.contains_key(segment_id) {
                live(self@.segments[segment_id]).len()
            } else {
                0
            },
    {
        match self.segments.get(&segment_id) {
            Some(s) => s.live_slots(),
            None => 0,
        }
    }

    /// How many slots from the front of the segment are occupied without a hole.
    pub fn dense_prefix_slots(&self, segment_id: u64) -> (n: usize)
        ensures
            n == if self@.segments.contains_key(segment_id) {
                dense_prefix(self@.segments[segment_id])
            } else {
                0
            },
    {
        match self.segments.get(&segment_id) {
            Some(s) => match s.first_free() {
                Some(i) => i,
                None => s.slots.len(),
            },
            None => 0,
        }
    }

    /// The segment has blocks behind a hole.
    pub fn has_holes(&self, segment_id: u64) -> (holes: bool)
        ensures
            holes == (self@.segments.contains_key(segment_id) && dense_prefix(
                self@.segments[segment_id],
            ) < live(self@.segments[segment_id]).len()),
    {
        if self.segments.contains_key(&segment_id) {
            self.dense_prefix_slots(segment_id) < self.live_slots(segment_id)
        } else {
            false
        }
    }

    /// The ids of the segments, ascending.
    pub fn segment_ids(&self) -> (ids: Vec<u64>)
        ensures
            ids@.to_set() == self@.segments.dom(),
            forall|i: int, j: int| 0 <= i < j < ids@.len() ==> ids@[i] < ids@[j],
    {
        let keys = self.segments.keys();
        assert(keys::views(keys@) =~= keys@);
        let mut ids: Vec<u64> = Vec::new();
        let mut n: usize = 0;
        assert(keys@.take(0).to_set() =~= ids@.to_set());
        while n < keys.len()
            invariant
                n <= keys@.len(),
                keys@.no_duplicates(),
                ids@.to_set() == keys@.take(n as int).to_set(),
                forall|i: int, j: int| 0 <= i < j < ids@.len() ==> ids@[i] < ids@[j],
            decreases keys@.len() - n,
        {
            let id: u64 = keys[n];
            let ghost before = ids@;
            assert(!before.contains(id)) by {
                if before.contains(id) {
                    assert(before.to_set().contains(id));
                    assert(keys@.take(n as int).contains(id));
                }
            }
            let mut at: usize = ids.len();
            while at > 0 && ids[at - 1] > id
                invariant
                    at <= ids@.len(),
                    ids@ == before,
                    forall|j: int| at <= j < ids@.len() ==> ids@[j] > id,
                decreases at,
            {
                at -= 1;
            }
            proof {
                if at > 0 {
                    assert(before.contains(before[at - 1]));
                }
                before.insert_ensures(at as int, id);
            }
            ids.insert(at, id);
            assert(ids@.to_set() =~= before.to_set().insert(id)) by {
                assert forall|x: u64| ids@.contains(x) == (before.contains(x) || x == id) by {
                    if before.contains(x) {
                        let i = choose|i: int| 0 <= i < before.len() && before[i] == x;
                        assert(ids@[if i < at { i } else { i + 1 }] == x);
                    }
                    assert(ids@[at as int] == id);
                    if ids@.contains(x) && x != id {
                        let i = choose|i: int| 0 <= i < ids@.len() && ids@[i] == x;
                        assert(before[if i < at { i } else { i - 1 }] == x);
                    }
                }
            }
            assert(keys@.take(n + 1) =~= keys@.take(n as int).push(id));
            assert(keys@.take(n + 1).to_set() =~= keys@.take(n as int).to_set().insert(id)) by {
                vstd::seq_lib::seq_to_set_is_finite(keys@.take(n as int));
                keys@.take(n as int).lemma_push_to_set_commute(id);
            }
            n += 1;
        }
        assert(keys@.take(n as int) =~= keys@);
        ids
    }

    /// The blocks of a segment in slot order.
    pub fn hashes_in_segment(&self, segment_id: u64) -> (blocks: Vec<Vec<u8>>)
        ensures
            keys::views(blocks@) == if self@.segments.contains_key(segment_id) {
                live(self@.segments[segment_id])
            } else {
                Seq::empty()
            },
    {
        match self.segments.get(&segment_id) {
            Some(s) => s.hashes(),
            None => {
                let none: Vec<Vec<u8>> = Vec::new();
                assert(keys::views(none@) =~= Seq::empty());
                none
            },
        }
    }

    fn ensure_seg(&mut self, segment_id: u64)
        requires
            old(self)@.wf(),
            segment_id < u64::MAX,
        ensures
            final(self)@ == old(self)@.ensure_seg(segment_id),
            final(self)@.wf(),
            final(self)@.segments.contains_key(segment_id),
    {
        if !self.segments.contains_key(&segment_id) {
            self.segments.insert(segment_id, Segment::new(self.capacity_slots));
        }
        if segment_id >= self.next_seg {
            self.next_seg = segment_id + 1;
        }
        proof {
            lemma_ensure_seg(old(self)@, segment_id);
        }
        assert(self@ =~= old(self)@.ensure_seg(segment_id));
    }

    /// Puts a block into a free slot.
    fn put(&mut self, hash: Vec<u8>, segment_id: u64, idx: usize)
        requires
            old(self)@.wf(),
            segment_id < u64::MAX,
            !old(self)@.placed.contains_key(hash@),
            idx < old(self)@.capacity,
            old(self)@.ensure_seg(segment_id).segments[segment_id][idx as int] is None,
        ensures
            final(self)@ == old(self)@.put(hash@, segment_id, idx as int),
            final(self)@.wf(),
    {
        self.ensure_seg(segment_id);
        let ghost e = self@;
        proof {
            lemma_offset(idx as int, self.slot_bytes, self.capacity_slots as nat);
            lemma_put(old(self)@, hash@, segment_id, idx as int);
        }
        if let Some(mut seg) = self.segments.remove(&segment_id) {
            let ghost slots = seg@;
            seg.slots.set(idx, Some(hash.dup()));
            assert(seg@ =~= slots.update(idx as int, Some(hash@)));
            self.segments.insert(segment_id, seg);
        }
        let offset: u64 = (idx as u64) * self.slot_bytes;
        let ghost h = hash@;
        self.by_hash.insert(hash, Placement { segment_id, offset });
        assert(self@.segments =~= old(self)@.put(h, segment_id, idx as int).segments);
        assert(self@ =~= old(self)@.put(h, segment_id, idx as int));
    }

    /// Places a block in the first free slot of the lowest segment that has one,
    /// or in a new segment.
    pub fn allocate(&mut self, hash: &[u8]) -> (r: Result<Placement, String>)
        requires
            old(self)@.wf(),
            old(self)@.next_seg < u64::MAX,
        ensures
            final(self)@ == old(self)@.allocate(hash@).0,
            keys::told(r) == old(self)@.allocate(hash@).1,
            final(self)@.wf(),
    {
        let h = to_bytes(hash);
        if self.by_hash.contains_key(&h) {
            return Err(text("segment alloc: hash already placed"));
        }
        let n = self.segments.len();
        let mut best: Option<(u64, usize)> = None;
        let mut i: usize = 0;
        while i < n
            invariant
                i <= n == self.segments.order().len(),
                self@ == old(self)@,
                self@.wf(),
                match best {
                    Some((id, idx)) => self@.is_open(id) && first_free(self@.segments[id], 0)
                        == Some(idx as int) && idx < self@.capacity && forall|j: int|
                        0 <= j < i && self@.is_open(#[trigger] self.segments.order()[j]) ==> id
                            <= self.segments.order()[j],
                    None => forall|j: int|
                        0 <= j < i ==> !self@.is_open(#[trigger] self.segments.order()[j]),
                },
            decreases n - i,
        {
            let (id, seg) = self.segments.at(i);
            if let Some(idx) = seg.first_free() {
                let better = match best {
                    Some((low, _)) => *id < low,
                    None => true,
                };
                if better {
                    best = Some((*id, idx));
                }
            }
            i += 1;
        }
        let ghost a = self@;
        assert(forall|id: u64| #[trigger]
            a.segments.contains_key(id) ==> self.segments.order().to_set().contains(id));
        match best {
            Some((id, idx)) => {
                assert forall|other: u64| #[trigger] a.is_open(other) implies id <= other by {
                    assert(self.segments.order().to_set().contains(other));
                    let j = choose|j: int|
                        0 <= j < self.segments.order().len() && self.segments.order()[j] == other;
                    assert(a.is_open(self.segments.order()[j]));
                }
                proof {
                    lemma_lowest_open(a, id);
                    lemma_first_free(a.segments[id], 0);
                    lemma_offset(idx as int, a.slot_bytes, a.capacity);
                }
                let offset: u64 = (idx as u64) * self.slot_bytes;
                self.put(h, id, idx);
                Ok(Placement { segment_id: id, offset })
            },
            None => {
                assert forall|other: u64| !#[trigger] a.is_open(other) by {
                    if a.is_open(other) {
                        assert(self.segments.order().to_set().contains(other));
                        let j = choose|j: int|
                            0 <= j < self.segments.order().len() && self.segments.order()[j]
                                == other;
                        assert(a.is_open(self.segments.order()[j]));
                    }
                }
                let id = self.next_seg;
                assert(!a.segments.contains_key(id));
                proof {
                    lemma_offset(0, a.slot_bytes, a.capacity);
                }
                self.put(h, id, 0);
                Ok(Placement { segment_id: id, offset: 0 })
            },
        }
    }

    /// Places a block at a given slot. Fails if the block is already placed, the
    /// offset is not aligned, lies beyond the segment, or is taken.
    pub fn place_at(&mut self, hash: &[u8], segment_id: u64, offset: u64) -> (r: Result<
        Placement,
        String,
    >)
        requires
            old(self)@.wf(),
            segment_id < u64::MAX,
        ensures
            final(self)@ == old(self)@.place_at(hash@, segment_id, offset).0,
            keys::told(r) == old(self)@.place_at(hash@, segment_id, offset).1,
            final(self)@.wf(),
    {
        let h = to_bytes(hash);
        if self.by_hash.contains_key(&h) {
            return Err(text("place_at: hash already placed"));
        }
        if offset % self.slot_bytes != 0 {
            return Err(text("place_at: offset not slot-aligned"));
        }
        proof {
            lemma_aligned(offset, self.slot_bytes);
        }
        let idx: u64 = offset / self.slot_bytes;
        self.ensure_seg(segment_id);
        if idx >= self.capacity_slots as u64 {
            return Err(text("place_at: offset beyond segment capacity"));
        }
        let taken = match self.segments.get(&segment_id) {
            Some(seg) => {
                assert(seg@[idx as int] == keys::opt(seg.slots@[idx as int]));
                seg.slots[idx as usize].is_some()
            },
            None => true,
        };
        if taken {
            return Err(text("place_at: slot occupied"));
        }
        let ghost e = self@;
        assert(e.ensure_seg(segment_id) == e);
        self.put(h, segment_id, idx as usize);
        assert(e.put(hash@, segment_id, idx as int) == old(self)@.put(hash@, segment_id, idx as int));
        Ok(Placement { segment_id, offset })
    }

    /// Forgets a block and clears its slot; tells whether it was placed.
    pub fn free(&mut self, hash: &[u8]) -> (freed: bool)
        requires
            old(self)@.wf(),
        ensures
            final(self)@ == old(self)@.free(hash@),
            freed == old(self)@.placed.contains_key(hash@),
            final(self)@.wf(),
    {
        proof {
            lemma_free(self@, hash@);
        }
        let ghost a = self@;
        match self.by_hash.remove(&to_bytes(hash)) {
            None => {
                assert(self@ =~= a);
                false
            },
            Some(p) => {
                proof {
                    assert(a.is_at(hash@, a.placed[hash@]));
                    lemma_aligned(p.offset, a.slot_bytes);
                }
                if let Some(mut seg) = self.segments.remove(&p.segment_id) {
                    let ghost slots = seg@;
                    let idx: usize = (p.offset / self.slot_bytes) as usize;
                    seg.slots.set(idx, None);
                    assert(seg@ =~= slots.update(idx as int, None));
                    self.segments.insert(p.segment_id, seg);
                }
                assert(self@.segments =~= a.free(hash@).segments);
                assert(self@ =~= a.free(hash@));
                true
            },
        }
    }

    /// Packs the blocks of one segment at its front and returns the moves.
    pub fn compact(&mut self, segment_id: u64) -> (r: Result<Vec<Relocate>, String>)
        requires
            old(self)@.wf(),
        ensures
            final(self)@ == old(self)@.compact(segment_id),
            match r {
                Ok(moves) => old(self)@.compact_moves(segment_id) == Ok::<_, Seq<char>>(
                    keys::views(moves@),
                ),
                Err(e) => old(self)@.compact_moves(segment_id) == Err::<Seq<RelocateView>, _>(e@),
            },
            final(self)@.wf(),
    {
        let ghost a = self@;
        match self.segments.remove(&segment_id) {
            None => {
                assert(self@ =~= a);
                let mut e = text("compact: unknown segment ");
                e.append(decimal_text(segment_id).as_str());
                Err(e)
            },
            Some(seg) => {
                let ghost s = a.segments[segment_id];
                assert(seg@ == s);
                let mut moves: Vec<Relocate> = Vec::new();
                let mut slots: Vec<Option<Vec<u8>>> = Vec::with_capacity(seg.slots.len());
                let mut i: usize = 0;
                proof {
                    lemma_segment_unique(a, segment_id);
                    lemma_compact(a, segment_id);
                    assert(s.take(0) =~= Seq::empty());
                    assert(keys::views(moves@) =~= Seq::empty());
                    assert(self.by_hash@ =~= pack_placed(
                        Seq::empty(),
                        a.placed,
                        segment_id,
                        a.slot_bytes,
                    ));
                }
                while i < seg.slots.len()
                    invariant
                        i <= seg.slots@.len() == s.len() == a.capacity,
                        seg@ == s,
                        s == a.segments[segment_id],
                        a.wf(),
                        a.segments.contains_key(segment_id),
                        self.slot_bytes == a.slot_bytes,
                        self.capacity_slots == a.capacity,
                        self.next_seg == a.next_seg,
                        self.segments@ == a.segments.remove(segment_id),
                        slots@.len() == live(s.take(i as int)).len() <= i,
                        forall|k: int|
                            0 <= k < slots@.len() ==> keys::opt(#[trigger] slots@[k]) == Some(
                                live(s.take(i as int))[k],
                            ),
                        keys::views(moves@) == pack_moves(
                            live(s.take(i as int)),
                            a.placed,
                            segment_id,
                            a.slot_bytes,
                        ),
                        self.by_hash@ == pack_placed(
                            live(s.take(i as int)),
                            a.placed,
                            segment_id,
                            a.slot_bytes,
                        ),
                    decreases seg.slots@.len() - i,
                {
                    let ghost done = live(s.take(i as int));
                    let ghost next = live(s.take(i + 1));
                    assert(s.take(i + 1).drop_last() =~= s.take(i as int));
                    assert(s[i as int] == keys::opt(seg.slots@[i as int]));
                    if let Some(hash) = &seg.slots[i] {
                        let w: usize = slots.len();
                        proof {
                            lemma_offset(i as int, a.slot_bytes, a.capacity);
                            lemma_offset(w as int, a.slot_bytes, a.capacity);
                        }
                        let from = Placement {
                            segment_id,
                            offset: (i as u64) * self.slot_bytes,
                        };
                        let to = Placement { segment_id, offset: (w as u64) * self.slot_bytes };
                        assert(next == done.push(hash@));
                        assert(a.placed[hash@] == from);
                        proof {
                            lemma_pack_step(a, segment_id, i as int, hash@);
                        }
                        assert(next.drop_last() =~= done);
                        self.by_hash.insert(hash.dup(), to);
                        let ghost moved = keys::views(moves@);
                        if from.offset != to.offset {
                            let m = Relocate { hash: hash.dup(), from, to };
                            moves.push(m);
                            assert(keys::views(moves@) =~= moved.push(m@));
                        }
                        slots.push(Some(hash.dup()));
                    }
                    i += 1;
                }
                assert(s.take(i as int) =~= s);
                let ghost blocks = live(s);
                while slots.len() < seg.slots.len()
                    invariant
                        blocks.len() <= slots@.len() <= seg.slots@.len(),
                        forall|k: int|
                            0 <= k < slots@.len() ==> keys::opt(#[trigger] slots@[k]) == if k
                                < blocks.len() {
                                Some(blocks[k])
                            } else {
                                None
                            },
                    decreases seg.slots@.len() - slots@.len(),
                {
                    slots.push(None);
                }
                let seg = Segment { slots };
                assert(seg@ =~= packed(s));
                self.segments.insert(segment_id, seg);
                assert(self@.segments =~= a.compact(segment_id).segments);
                assert(self@ =~= a.compact(segment_id));
                Ok(moves)
            },
        }
    }

    /// Moves a block to a free slot.
    pub fn relocate(&mut self, hash: &[u8], dest_segment: u64, dest_offset: u64) -> (r: Result<
        Relocate,
        String,
    >)
        requires
            old(self)@.wf(),
            dest_segment < u64::MAX,
        ensures
            final(self)@ == old(self)@.relocate(hash@, dest_segment, dest_offset).0,
            match r {
                Ok(m) => old(self)@.relocate(hash@, dest_segment, dest_offset).1 == Ok::<
                    _,
                    Seq<char>,
                >(m@),
                Err(e) => old(self)@.relocate(hash@, dest_segment, dest_offset).1 == Err::<
                    RelocateView,
                    _,
                >(e@),
            },
            final(self)@.wf(),
    {
        let ghost a = self@;
        let from = match self.placement(hash) {
            Some(p) => p,
            None => {
                return Err(text("relocate: unknown hash"));
            },
        };
        if from.segment_id == dest_segment && from.offset == dest_offset {
            return Ok(Relocate { hash: to_bytes(hash), from, to: from });
        }
        self.free(hash);
        let ghost freed = self@;
        match self.place_at(hash, dest_segment, dest_offset) {
            Ok(to) => Ok(Relocate { hash: to_bytes(hash), from, to }),
            Err(e) => {
                let ghost refused = self@;
                proof {
                    assert(a.is_at(hash@, from));
                    lemma_aligned(from.offset, a.slot_bytes);
                    lemma_free(a, hash@);
                    assert(refused.ensure_seg(from.segment_id) == refused);
                }
                let idx: usize = (from.offset / self.slot_bytes) as usize;
                self.put(to_bytes(hash), from.segment_id, idx);
                Err(e)
            },
        }
    }
}

proof fn lemma_pack_step(a: ArenaView, id: u64, i: int, h: Seq<u8>)
    requires
        a.wf(),
        a.segments.contains_key(id),
        0 <= i < a.capacity,
        a.segments[id][i] == Some(h),
    ensures
        ({
            let s = a.segments[id];
            let done = live(s.take(i));
            let to = Placement { segment_id: id, offset: offset_of(done.len() as int, a.slot_bytes) };
            pack_placed(done.push(h), a.placed, id, a.slot_bytes) == pack_placed(
                done,
                a.placed,
                id,
                a.slot_bytes,
            ).insert(h, to)
        }),
{
    let s = a.segments[id];
    let done = live(s.take(i));
    let next = done.push(h);
    let to = Placement { segment_id: id, offset: offset_of(done.len() as int, a.slot_bytes) };
    let l = pack_placed(next, a.placed, id, a.slot_bytes);
    let r = pack_placed(done, a.placed, id, a.slot_bytes).insert(h, to);
    let t = s.take(i + 1);
    assert(t.drop_last() =~= s.take(i));
    assert(live(t) == next);
    assert forall|x: int, y: int|
        0 <= x < t.len() && 0 <= y < t.len() && x != y && (#[trigger] t[x]) is Some implies t[x]
        != #[trigger] t[y] by {
        if t[x] == t[y] {
            lemma_one_slot(a, id, x, id, y);
        }
    }
    lemma_live_unique(t);
    assert forall|x: Seq<u8>| next.contains(x) == (done.contains(x) || x == h) by {
        if done.contains(x) {
            let k = choose|k: int| 0 <= k < done.len() && done[k] == x;
            assert(next[k] == x);
        }
        assert(next[done.len() as int] == h);
        if next.contains(x) && x != h {
            let k = choose|k: int| 0 <= k < next.len() && next[k] == x;
            assert(done[k] == x);
        }
    }
    assert forall|x: Seq<u8>| l.contains_key(x) implies l[x] == r[x] by {
        if next.contains(x) {
            let k = choose|k: int| 0 <= k < next.len() && next[k] == x;
            lemma_index_of(next, k);
            if x != h {
                assert(done[k] == x);
                assert(done.no_duplicates()) by {
                    assert forall|p: int, q: int|
                        0 <= p < done.len() && 0 <= q < done.len() && p != q implies done[p]
                        != done[q] by {
                        assert(next[p] != next[q]);
                    }
                }
                lemma_index_of(done, k);
            } else {
                assert(next[done.len() as int] == h);
                lemma_index_of(next, done.len() as int);
            }
        }
    }
    assert(l =~= r);
}

/// The occupied bytes of a segment fit the offset type.
pub proof fn lemma_live_cost(a: ArenaView, id: u64)
    requires
        a.wf(),
    ensures
        a.segments.contains_key(id) ==> 0 <= live(a.segments[id]).len() * a.slot_bytes <= u64::MAX,
{
    if a.segments.contains_key(id) {
        lemma_live(a.segments[id]);
        let n = live(a.segments[id]).len();
        assert(0 <= n * a.slot_bytes <= a.capacity * a.slot_bytes) by (nonlinear_arith)
            requires
                n <= a.capacity,
        ;
    }
}

/// Placing a block keeps the arena sound.
pub proof fn allocate_keeps_wf(a: ArenaView, h: Seq<u8>)
    requires
        a.wf(),
        a.next_seg < u64::MAX,
    ensures
        a.allocate(h).0.wf(),
{
    if !a.placed.contains_key(h) {
        match a.lowest_open() {
            Some(id) => {
                lemma_lowest_open_exists(a);
                lemma_first_free(a.segments[id], 0);
                let idx = first_free(a.segments[id], 0)->0;
                assert(a.ensure_seg(id).segments[id] == a.segments[id]);
                lemma_put(a, h, id, idx);
            },
            None => {
                lemma_put(a, h, a.next_seg, 0);
            },
        }
    }
}

/// Compaction leaves no hole: the blocks of the segment, in their order, are a
/// dense prefix of it.
pub proof fn compact_is_dense(a: ArenaView, id: u64)
    requires
        a.wf(),
        a.segments.contains_key(id),
    ensures
        a.compact(id).wf(),
        live(a.compact(id).segments[id]) == live(a.segments[id]),
        dense_prefix(a.compact(id).segments[id]) == live(a.segments[id]).len(),
{
    lemma_compact(a, id);
    let s = a.segments[id];
    let blocks = live(s);
    lemma_live(s);
    lemma_live_packed(s, s.len() as int);
    assert(packed(s).take(s.len() as int) =~= packed(s));
    lemma_first_free(packed(s), 0);
    match first_free(packed(s), 0) {
        Some(i) => {
            if i < blocks.len() {
                assert(packed(s)[i] is Some);
            } else if i > blocks.len() {
                assert(packed(s)[blocks.len() as int] is None);
            }
        },
        None => {
            if blocks.len() < s.len() {
                assert(packed(s)[blocks.len() as int] is None);
            }
        },
    }
}

proof fn lemma_live_packed(s: Slots, n: int)
    requires
        0 <= n <= s.len(),
        live(s).len() <= s.len(),
    ensures
        live(packed(s).take(n)) == if n <= live(s).len() {
            live(s).take(n)
        } else {
            live(s)
        },
    decreases n,
{
    if n > 0 {
        lemma_live_packed(s, n - 1);
        assert(packed(s).take(n).drop_last() =~= packed(s).take(n - 1));
        if n <= live(s).len() {
            assert(live(s).take(n) =~= live(s).take(n - 1).push(live(s)[n - 1]));
        } else if n - 1 == live(s).len() {
            assert(live(s).take(n - 1) =~= live(s));
        }
    } else {
        assert(live(s).take(0) =~= Seq::empty());
    }
}

/// Placing a block and freeing it again restores the slots and placements of a
/// segment that was there.
pub proof fn free_undoes_place(a: ArenaView, h: Seq<u8>, id: u64, offset: u64)
    requires
        a.wf(),
        a.segments.contains_key(id),
        a.place_at(h, id, offset).1 is Ok,
    ensures
        a.place_at(h, id, offset).0.free(h) == a,
{
    lemma_aligned(offset, a.slot_bytes);
    let idx = offset as int / a.slot_bytes as int;
    let b = a.put(h, id, idx);
    lemma_offset(idx, a.slot_bytes, a.capacity);
    assert(b.free(h).segments[id] =~= a.segments[id]);
    assert(b.free(h).segments =~= a.segments);
    assert(b.free(h).placed =~= a.placed);
    assert(b.free(h) =~= a);
}

/// A refused move loses nothing: every placement is as before.
pub proof fn refused_relocate_keeps_placements(a: ArenaView, h: Seq<u8>, id: u64, offset: u64)
    requires
        a.wf(),
        a.relocate(h, id, offset).1 is Err,
    ensures
        a.relocate(h, id, offset).0.placed == a.placed,
{
    if a.placed.contains_key(h) {
        let from = a.placed[h];
        assert(a.is_at(h, from));
        lemma_aligned(from.offset, a.slot_bytes);
        assert(a.relocate(h, id, offset).0.placed =~= a.placed);
    }
}

/// Packing a segment and moving a block, refused or not, place the same blocks as
/// before.
pub proof fn moves_keep_blocks(a: ArenaView, h: Seq<u8>, id: u64, offset: u64)
    requires
        a.wf(),
    ensures
        a.compact(id).placed.dom() == a.placed.dom(),
        a.relocate(h, id, offset).0.placed.dom() == a.placed.dom(),
{
    if a.segments.contains_key(id) {
        let s = a.segments[id];
        lemma_live(s);
        assert forall|x: Seq<u8>| live(s).contains(x) implies a.placed.contains_key(x) by {
            let i = choose|i: int| 0 <= i < s.len() && s[i] == Some(x);
            assert(s[i] is Some);
        }
    }
    assert(a.compact(id).placed.dom() =~= a.placed.dom());
    assert(a.relocate(h, id, offset).0.placed.dom() =~= a.placed.dom());
}

proof fn lemma_pack_moves(
    blocks: Seq<Seq<u8>>,
    placed: Map<Seq<u8>, Placement>,
    segment_id: u64,
    slot_bytes: u64,
)
    ensures
        forall|i: int|
            0 <= i < blocks.len() && placed[#[trigger] blocks[i]] != (Placement {
                segment_id,
                offset: offset_of(i, slot_bytes),
            }) ==> pack_moves(blocks, placed, segment_id, slot_bytes).contains(
                RelocateView {
                    hash: blocks[i],
                    from: placed[blocks[i]],
                    to: Placement { segment_id, offset: offset_of(i, slot_bytes) },
                },
            ),
        forall|m: RelocateView| #[trigger]
            pack_moves(blocks, placed, segment_id, slot_bytes).contains(m) ==> m.from != m.to
                && m.from == placed[m.hash] && exists|i: int|
                0 <= i < blocks.len() && #[trigger] blocks[i] == m.hash && m.to == (Placement {
                    segment_id,
                    offset: offset_of(i, slot_bytes),
                }),
    decreases blocks.len(),
{
    let all = pack_moves(blocks, placed, segment_id, slot_bytes);
    if blocks.len() > 0 {
        let init = blocks.drop_last();
        let rest = pack_moves(init, placed, segment_id, slot_bytes);
        lemma_pack_moves(init, placed, segment_id, slot_bytes);
        let h = blocks.last();
        let to = Placement { segment_id, offset: offset_of(blocks.len() - 1, slot_bytes) };
        let last = RelocateView { hash: h, from: placed[h], to };
        if placed[h] != to {
            assert(all == rest.push(last));
            assert(all[rest.len() as int] == last);
            assert(forall|m: RelocateView| rest.contains(m) ==> #[trigger] all.contains(m)) by {
                assert forall|m: RelocateView| rest.contains(m) implies #[trigger] all.contains(
                    m,
                ) by {
                    let k = choose|k: int| 0 <= k < rest.len() && rest[k] == m;
                    assert(all[k] == m);
                }
            }
        }
        assert forall|i: int|
            0 <= i < blocks.len() && placed[#[trigger] blocks[i]] != (Placement {
                segment_id,
                offset: offset_of(i, slot_bytes),
            }) implies all.contains(
            RelocateView {
                hash: blocks[i],
                from: placed[blocks[i]],
                to: Placement { segment_id, offset: offset_of(i, slot_bytes) },
            },
        ) by {
            if i < init.len() {
                assert(init[i] == blocks[i]);
            }
        }
        assert forall|m: RelocateView| #[trigger] all.contains(m) implies m.from != m.to && m.from
            == placed[m.hash] && exists|i: int|
            0 <= i < blocks.len() && #[trigger] blocks[i] == m.hash && m.to == (Placement {
                segment_id,
                offset: offset_of(i, slot_bytes),
            }) by {
            let k = choose|k: int| 0 <= k < all.len() && all[k] == m;
            if k < rest.len() {
                assert(rest[k] == m);
                assert(rest.contains(m));
                let i = choose|i: int|
                    0 <= i < init.len() && #[trigger] init[i] == m.hash && m.to == (Placement {
                        segment_id,
                        offset: offset_of(i, slot_bytes),
                    });
                assert(blocks[i] == m.hash);
            } else {
                assert(blocks[blocks.len() - 1] == m.hash);
            }
        }
    }
}

/// Packing a segment tells its moves: a block that stands elsewhere than before is listed
/// with both places, and one that is listed moved so. Only blocks of the segment move, they
/// stay in it, and they stand one slot after the other from the front.
pub proof fn packing_tells_its_moves(a: ArenaView, id: u64, m: RelocateView)
    requires
        a.wf(),
        a.segments.contains_key(id),
    ensures
        a.compact_moves(id) is Ok,
        a.compact_moves(id)->Ok_0.contains(m) <==> a.placed.contains_key(m.hash) && m.from
            == a.placed[m.hash] && m.to == a.compact(id).placed[m.hash] && m.from != m.to,
        a.placed.contains_key(m.hash) && a.placed[m.hash].segment_id != id ==> a.compact(
            id,
        ).placed[m.hash] == a.placed[m.hash],
        a.placed.contains_key(m.hash) && a.placed[m.hash].segment_id == id ==> {
            let p = a.compact(id).placed[m.hash];
            p.segment_id == id && p.offset as int % a.slot_bytes as int == 0 && p.offset as int
                / a.slot_bytes as int <= a.placed[m.hash].offset as int / a.slot_bytes as int
        },
{
    let s = a.segments[id];
    let blocks = live(s);
    lemma_live(s);
    lemma_segment_unique(a, id);
    lemma_pack_moves(blocks, a.placed, id, a.slot_bytes);
    let moves = a.compact_moves(id)->Ok_0;
    let h = m.hash;
    if a.placed.contains_key(h) {
        assert(a.is_at(h, a.placed[h]));
    }
    if blocks.contains(h) {
        let k = choose|k: int| 0 <= k < s.len() && s[k] == Some(h);
        assert(s[k] is Some);
        let i = blocks.index_of(h);
        assert(blocks[i] == h);
        lemma_offset(i, a.slot_bytes, a.capacity);
        lemma_offset(k, a.slot_bytes, a.capacity);
        lemma_live_index(s, k);
        assert(blocks[live(s.take(k)).len() as int] == h);
        lemma_live(s.take(k));
        assert forall|j: int| 0 <= j < blocks.len() && blocks[j] == h implies j == i by {}
    }
    if moves.contains(m) {
        let i = choose|i: int|
            0 <= i < blocks.len() && #[trigger] blocks[i] == h && m.to == (Placement {
                segment_id: id,
                offset: offset_of(i, a.slot_bytes),
            });
        assert(blocks.contains(h));
    }
}

/// The block in a slot is listed after those in the slots before it.
proof fn lemma_live_index(slots: Slots, k: int)
    requires
        0 <= k < slots.len(),
        slots[k] is Some,
    ensures
        live(slots.take(k)).len() < live(slots).len(),
        live(slots)[live(slots.take(k)).len() as int] == slots[k]->0,
    decreases slots.len(),
{
    let init = slots.drop_last();
    if k == slots.len() - 1 {
        assert(slots.take(k) =~= init);
    } else {
        lemma_live_index(init, k);
        assert(init.take(k) =~= slots.take(k));
    }
}

/// A move succeeds for a placed block exactly where it stays put, or the slot is one of the
/// segment's and free. Then the block stands there, no other has moved, and the answer holds
/// both places.
pub proof fn moving_changes_one_place(a: ArenaView, h: Seq<u8>, id: u64, offset: u64, x: Seq<u8>)
    requires
        a.wf(),
    ensures
        ({
            let (b, r) = a.relocate(h, id, offset);
            let slot = offset as int / a.slot_bytes as int;
            let to = Placement { segment_id: id, offset };
            &&& r is Ok <==> a.placed.contains_key(h) && (a.placed[h] == to || (offset as int
                % a.slot_bytes as int == 0 && slot < a.capacity && (a.segments.contains_key(id)
                ==> a.segments[id][slot] is None)))
            &&& r is Ok ==> r->Ok_0 == (RelocateView { hash: h, from: a.placed[h], to })
                && b.placed.contains_key(h) && b.placed[h] == to
            &&& x != h ==> b.placed.contains_key(x) == a.placed.contains_key(x) && (
            a.placed.contains_key(x) ==> b.placed[x] == a.placed[x])
        }),
{
    if a.placed.contains_key(h) {
        let from = a.placed[h];
        assert(a.is_at(h, from));
        lemma_aligned(from.offset, a.slot_bytes);
        lemma_free(a, h);
        if offset as int % a.slot_bytes as int == 0 {
            lemma_aligned(offset, a.slot_bytes);
        }
        if a.segments.contains_key(id) && offset as int / a.slot_bytes as int == a.slot_at(from)
            && id == from.segment_id && offset as int % a.slot_bytes as int == 0 {
            assert(offset == from.offset);
        }
    }
}

/// A new block gets the first free slot of the lowest segment that has one; a segment is
/// opened only where every other is full. No other block moves.
pub proof fn new_block_fills_the_first_gap(a: ArenaView, h: Seq<u8>, x: Seq<u8>, id: u64, i: int)
    requires
        a.wf(),
    ensures
        ({
            let (b, r) = a.allocate(h);
            let p = r->Ok_0;
            &&& r is Ok <==> !a.placed.contains_key(h)
            &&& r is Err ==> b == a
            &&& r is Ok ==> b.placed.contains_key(h) && b.placed[h] == p
            &&& x != h ==> b.placed.contains_key(x) == a.placed.contains_key(x) && (
            a.placed.contains_key(x) ==> b.placed[x] == a.placed[x])
            &&& r is Ok && a.segments.contains_key(id) && 0 <= i < a.capacity
                && a.segments[id][i] is None ==> a.segments.contains_key(p.segment_id) && (
            p.segment_id < id || (p.segment_id == id && p.offset <= i * a.slot_bytes))
            &&& r is Ok && a.segments.contains_key(p.segment_id) ==> p.offset as int
                % a.slot_bytes as int == 0 && (p.offset as int / a.slot_bytes as int) < a.capacity
                && a.segments[p.segment_id][p.offset as int / a.slot_bytes as int] is None
            &&& r is Ok && !a.segments.contains_key(p.segment_id) ==> p == (Placement {
                segment_id: a.next_seg,
                offset: 0,
            })
        }),
{
    if a.segments.contains_key(id) && 0 <= i < a.capacity && a.segments[id][i] is None {
        lemma_first_free(a.segments[id], 0);
        assert(a.is_open(id));
    }
    lemma_lowest_open_exists(a);
    match a.lowest_open() {
        Some(low) => {
            lemma_first_free(a.segments[low], 0);
            let k = first_free(a.segments[low], 0)->0;
            lemma_offset(k, a.slot_bytes, a.capacity);
            if 0 <= i < a.capacity && id == low && a.segments[id][i] is None {
                assert(k <= i);
                assert(k * a.slot_bytes <= i * a.slot_bytes) by (nonlinear_arith)
                    requires
                        0 <= k <= i,
                ;
            }
        },
        None => {},
    }
}

/// A block that is moved, or that cannot be and stays, leaves the arena sound.
pub proof fn relocate_keeps_wf(a: ArenaView, h: Seq<u8>, id: u64, offset: u64)
    requires
        a.wf(),
        id < u64::MAX,
    ensures
        a.relocate(h, id, offset).0.wf(),
{
    if a.placed.contains_key(h) {
        let from = a.placed[h];
        assert(a.is_at(h, from));
        lemma_aligned(from.offset, a.slot_bytes);
        lemma_free(a, h);
        let freed = a.free(h);
        lemma_ensure_seg(freed, id);
        let idx = offset as int / a.slot_bytes as int;
        if offset as int % a.slot_bytes as int == 0 && 0 <= idx < a.capacity
            && freed.ensure_seg(id).segments[id][idx] is None {
            lemma_put(freed, h, id, idx);
        }
        let refused = freed.place_at(h, id, offset).0;
        if freed.place_at(h, id, offset).1 is Err {
            assert(refused.ensure_seg(from.segment_id) == refused);
            lemma_put(refused, h, from.segment_id, a.slot_at(from));
        }
    }
}

/// The blocks that stand in a segment.
pub open spec fn standing_in(a: ArenaView, id: u64) -> Set<Seq<u8>> {
    Set::new(|h: Seq<u8>| a.placed.contains_key(h) && a.placed[h].segment_id == id)
}

/// The live blocks of a segment are those that stand in it.
pub proof fn live_blocks_stand_in_their_segment(a: ArenaView, id: u64)
    requires
        a.wf(),
        a.segments.contains_key(id),
    ensures
        standing_in(a, id).finite(),
        standing_in(a, id).len() == live(a.segments[id]).len(),
{
    let blocks = live(a.segments[id]);
    lemma_live(a.segments[id]);
    lemma_segment_unique(a, id);
    blocks.unique_seq_to_set();
    assert forall|h: Seq<u8>| blocks.to_set().contains(h) == standing_in(a, id).contains(h) by {
        if blocks.contains(h) {
            let i = choose|i: int|
                0 <= i < a.segments[id].len() && a.segments[id][i] == Some(h);
            assert(a.segments[id][i] is Some);
        }
        if standing_in(a, id).contains(h) {
            assert(a.is_at(h, a.placed[h]));
            lemma_aligned(a.placed[h].offset, a.slot_bytes);
            assert(a.segments[id][a.slot_at(a.placed[h])] is Some);
        }
    }
    assert(blocks.to_set() =~= standing_in(a, id));
    vstd::seq_lib::seq_to_set_is_finite(blocks);
}

} // verus!
