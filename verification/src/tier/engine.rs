//! The local tier engine: block bytes in L0 (HBM), L1 (DRAM), L2 (NVMe) and L3
//! (object storage), with least-recently-used order, pins and admission.
//!
//! L2 and L3 are durable, L0 and L1 are caches: whatever a cache holds is also
//! held durably.

use std::collections::VecDeque;

use vstd::prelude::*;
use vstd::string::*;

use crate::base::keys;
use crate::base::keys::{to_bytes, Dup};
use crate::base::queue;
use crate::base::queue::{drop_key, position};
use crate::base::set::KeySet;
use crate::base::table::Table;
use crate::base::text;
use crate::base::text::{decimal_text, text};
use crate::tier::segment;
use crate::tier::segment::{
    ArenaView, Placement, Relocate, RelocateView, SegmentArena, DEFAULT_SLOT_BYTES,
};
use crate::tier::stats::{AccessKind, HitStats};

verus! {

/// Capacities in blocks; zero means unlimited.
#[derive(Debug, Clone, Copy, PartialEq, Eq, Structural)]
pub struct TierCaps {
    pub l0: usize,
    pub l1: usize,
    pub l2: usize,
}

impl Default for TierCaps {
    fn default() -> (caps: Self)
        ensures
            caps == (TierCaps { l0: 64, l1: 256, l2: 1024 }),
    {
        TierCaps { l0: 64, l1: 256, l2: 1024 }
    }
}

/// A local tier.
#[derive(Debug, Clone, Copy, PartialEq, Eq, Structural)]
pub enum LocalTier {
    L0,
    L1,
    L2,
    L3,
}

impl View for LocalTier {
    type V = LocalTier;

    open spec fn view(&self) -> LocalTier {
        *self
    }
}

/// The answer to the start of an asynchronous promotion.
#[derive(Debug, Clone, Copy, PartialEq, Eq, Structural)]
pub enum BeginPromote {
    /// Now in flight; no byte has moved.
    Started,
    /// The block was in flight already.
    AlreadyInFlight,
    /// The block is in L0.
    AlreadyL0,
    /// No tier holds the block.
    Missing,
}

/// Moves that an operation made besides the one asked for; the control plane's
/// view must learn of each.
#[derive(Debug, Clone, PartialEq, Eq)]
pub struct TierSideEffects {
    pub l0_demoted: Vec<Vec<u8>>,
    pub l2_demoted_to_l3: Vec<Vec<u8>>,
}

/// What side effects stand for.
#[verifier::ext_equal]
pub struct EffectsView {
    pub l0_demoted: Seq<Seq<u8>>,
    pub l2_demoted_to_l3: Seq<Seq<u8>>,
}

impl EffectsView {
    /// No side effect.
    pub open spec fn none() -> EffectsView {
        EffectsView { l0_demoted: Seq::empty(), l2_demoted_to_l3: Seq::empty() }
    }
}

impl View for TierSideEffects {
    type V = EffectsView;

    open spec fn view(&self) -> EffectsView {
        EffectsView {
            l0_demoted: keys::views(self.l0_demoted@),
            l2_demoted_to_l3: keys::views(self.l2_demoted_to_l3@),
        }
    }
}

impl Default for TierSideEffects {
    fn default() -> (fx: Self)
        ensures
            fx@ == EffectsView::none(),
    {
        let fx = TierSideEffects { l0_demoted: Vec::new(), l2_demoted_to_l3: Vec::new() };
        assert(fx@ =~= EffectsView::none());
        fx
    }
}

impl TierSideEffects {
    /// Appends the effects of a later step.
    pub fn merge(&mut self, other: TierSideEffects)
        ensures
            final(self)@ == (EffectsView {
                l0_demoted: old(self)@.l0_demoted + other@.l0_demoted,
                l2_demoted_to_l3: old(self)@.l2_demoted_to_l3 + other@.l2_demoted_to_l3,
            }),
    {
        let TierSideEffects { mut l0_demoted, mut l2_demoted_to_l3 } = other;
        self.l0_demoted.append(&mut l0_demoted);
        self.l2_demoted_to_l3.append(&mut l2_demoted_to_l3);
        assert(self@.l0_demoted =~= old(self)@.l0_demoted + other@.l0_demoted);
        assert(self@.l2_demoted_to_l3 =~= old(self)@.l2_demoted_to_l3 + other@.l2_demoted_to_l3);
    }

    /// Nothing happened besides what was asked for.
    pub fn is_empty(&self) -> (empty: bool)
        ensures
            empty == (self@ == EffectsView::none()),
    {
        let empty = self.l0_demoted.is_empty() && self.l2_demoted_to_l3.is_empty();
        assert(empty ==> self@ =~= EffectsView::none());
        assert(!empty ==> self@.l0_demoted.len() > 0 || self@.l2_demoted_to_l3.len() > 0);
        empty
    }
}

/// The bytes of each block of one tier.
pub type Tier = Map<Seq<u8>, Seq<u8>>;

/// Moves a block to the young end of the order.
pub open spec fn touched(order: Seq<Seq<u8>>, h: Seq<u8>) -> Seq<Seq<u8>> {
    queue::without(order, h).push(h)
}

/// The order lists exactly the blocks of the tier, each once.
pub open spec fn ordered(tier: Tier, order: Seq<Seq<u8>>) -> bool {
    &&& order.no_duplicates()
    &&& order.to_set() == tier.dom()
}

/// A tier whose blocks are small enough for the cost of three hops to fit.
pub open spec fn countable(tier: Tier) -> bool {
    forall|h: Seq<u8>| #[trigger] tier.contains_key(h) ==> tier[h].len() * 3 <= u64::MAX
}

/// What an engine stands for.
#[verifier::ext_equal]
pub struct EngineView {
    pub caps: TierCaps,
    pub l0: Tier,
    pub l1: Tier,
    pub l2: Tier,
    pub l3: Tier,
    pub l0_order: Seq<Seq<u8>>,
    pub l1_order: Seq<Seq<u8>>,
    pub l2_order: Seq<Seq<u8>>,
    pub pins: Map<Seq<u8>, u32>,
    pub hits: Map<Seq<u8>, u32>,
    pub admit_after: u32,
    pub one_shot: Set<Seq<u8>>,
    pub inflight: Set<Seq<u8>>,
    pub arena: ArenaView,
    pub stats: HitStats,
}

/// The arena after several blocks were freed.
pub open spec fn freed_all(a: ArenaView, blocks: Seq<Seq<u8>>) -> ArenaView
    decreases blocks.len(),
{
    if blocks.len() == 0 {
        a
    } else {
        freed_all(a, blocks.drop_last()).free(blocks.last())
    }
}

impl EngineView {
    /// The engine is sound, and L2 is within capacity.
    pub open spec fn wf(self) -> bool {
        self.sound() && (self.caps.l2 == 0 || self.l2_order.len() <= self.caps.l2)
    }

    /// Orders list their tiers, caches are within capacity and backed durably,
    /// pins are counts above zero, and one-shot blocks are in L0. This holds also
    /// while L2 has yet to make room for a block.
    pub open spec fn sound(self) -> bool {
        &&& ordered(self.l0, self.l0_order)
        &&& ordered(self.l1, self.l1_order)
        &&& ordered(self.l2, self.l2_order)
        &&& self.caps.l0 == 0 || self.l0_order.len() <= self.caps.l0
        &&& self.caps.l1 == 0 || self.l1_order.len() <= self.caps.l1
        &&& forall|h: Seq<u8>| #[trigger] self.l0.contains_key(h) ==> self.settled(h)
        &&& forall|h: Seq<u8>| #[trigger] self.l1.contains_key(h) ==> self.settled(h)
        &&& forall|h: Seq<u8>| #[trigger] self.pins.contains_key(h) ==> self.pins[h] > 0
        &&& self.one_shot.subset_of(self.l0.dom())
        &&& countable(self.l0)
        &&& countable(self.l1)
        &&& countable(self.l2)
        &&& countable(self.l3)
        &&& self.admit_after >= 1
        &&& self.arena.wf()
    }

    /// A block has a place in the arena exactly where L2 holds it. The operations
    /// of the engine keep this; whoever rearranges the arena itself may break it.
    pub open spec fn arena_matches(self) -> bool {
        self.arena.placed.dom() == self.l2.dom()
    }

    /// All tiers that hold the block hold the same bytes.
    pub open spec fn coherent(self, h: Seq<u8>) -> bool {
        &&& self.l0.contains_key(h) ==> Some(self.l0[h]) == self.read(h)
        &&& self.l1.contains_key(h) ==> Some(self.l1[h]) == self.read(h)
        &&& self.l2.contains_key(h) ==> Some(self.l2[h]) == self.read(h)
        &&& self.l3.contains_key(h) ==> Some(self.l3[h]) == self.read(h)
    }

    /// A durable tier holds the block.
    pub open spec fn settled(self, h: Seq<u8>) -> bool {
        self.l2.contains_key(h) || self.l3.contains_key(h)
    }

    /// How often the block is pinned.
    pub open spec fn pin_count(self, h: Seq<u8>) -> u32 {
        if self.pins.contains_key(h) {
            self.pins[h]
        } else {
            0
        }
    }

    /// How often a tier served the block.
    pub open spec fn hit_count(self, h: Seq<u8>) -> u32 {
        if self.hits.contains_key(h) {
            self.hits[h]
        } else {
            0
        }
    }

    /// The nearest tier that holds the block.
    pub open spec fn tier_of(self, h: Seq<u8>) -> Option<LocalTier> {
        if self.l0.contains_key(h) {
            Some(LocalTier::L0)
        } else if self.l1.contains_key(h) {
            Some(LocalTier::L1)
        } else if self.l2.contains_key(h) {
            Some(LocalTier::L2)
        } else if self.l3.contains_key(h) {
            Some(LocalTier::L3)
        } else {
            None
        }
    }

    /// The bytes that the nearest tier holds.
    pub open spec fn read(self, h: Seq<u8>) -> Option<Seq<u8>> {
        match self.tier_of(h) {
            Some(LocalTier::L0) => Some(self.l0[h]),
            Some(LocalTier::L1) => Some(self.l1[h]),
            Some(LocalTier::L2) => Some(self.l2[h]),
            Some(LocalTier::L3) => Some(self.l3[h]),
            None => None,
        }
    }

    /// How an access to the block is served.
    pub open spec fn access(self, h: Seq<u8>) -> AccessKind {
        match self.tier_of(h) {
            Some(LocalTier::L0) => AccessKind::L0Hit,
            Some(LocalTier::L1) => AccessKind::L1Hit,
            Some(LocalTier::L2) => AccessKind::L2Hit,
            Some(LocalTier::L3) => AccessKind::L3Hit,
            None => AccessKind::Miss,
        }
    }

    /// The engine after an access to the block.
    pub open spec fn probed(self, h: Seq<u8>) -> EngineView {
        let kind = self.access(h);
        let hits = if kind == AccessKind::Miss {
            self.hits
        } else {
            self.hits.insert(h, (self.hit_count(h) + 1) as u32)
        };
        EngineView {
            hits,
            one_shot: if kind == AccessKind::L0Hit && self.hit_count(h) + 1 >= self.admit_after {
                self.one_shot.remove(h)
            } else {
                self.one_shot
            },
            stats: self.stats.recorded(kind),
            ..self
        }
    }

    /// Byte moves that a promotion takes: one per tier that lacks the block on
    /// its way to L0, each of the block's size.
    pub open spec fn promote_cost(self, h: Seq<u8>) -> nat {
        match self.tier_of(h) {
            Some(LocalTier::L1) => if !self.l2.contains_key(h) && self.l3.contains_key(h) {
                self.l1[h].len() * 2
            } else {
                self.l1[h].len()
            },
            Some(LocalTier::L2) => self.l2[h].len() * 2,
            Some(LocalTier::L3) => self.l3[h].len() * 3,
            _ => 0,
        }
    }

    /// How many blocks L2 holds above its capacity.
    pub open spec fn l2_excess(self) -> int {
        if self.caps.l2 == 0 || self.l2.len() <= self.caps.l2 {
            0
        } else {
            self.l2.len() - self.caps.l2
        }
    }

    /// The blocks that are not pinned, in their order.
    pub open spec fn unpinned(self, blocks: Seq<Seq<u8>>) -> Seq<Seq<u8>> {
        blocks.filter(|h: Seq<u8>| self.pin_count(h) == 0)
    }

    /// The blocks that leave L2 to bring it within capacity: the oldest that are
    /// not pinned. Too many pinned ones are an error.
    pub open spec fn l2_victims(self) -> Result<Seq<Seq<u8>>, Seq<char>> {
        if self.l2_excess() > self.unpinned(self.l2_order).len() {
            Err(
                "l2 over cap ("@ + text::decimal(self.l2.len()) + ">"@ + text::decimal(self.caps.l2 as nat)
                    + "): all victims pinned — unpin before put"@,
            )
        } else {
            Ok(self.unpinned(self.l2_order).take(self.l2_excess()))
        }
    }

    /// The blocks move from L2 to L3; bytes that L3 already holds stay.
    pub open spec fn l2_to_l3(self, victims: Seq<Seq<u8>>) -> EngineView {
        EngineView {
            l2: self.l2.remove_keys(victims.to_set()),
            l3: self.l2.restrict(victims.to_set()).union_prefer_right(self.l3),
            l2_order: queue::except(self.l2_order, victims),
            ..self
        }
    }

    /// The block has a place in the arena.
    pub open spec fn laid_out(self, h: Seq<u8>) -> EngineView {
        EngineView {
            arena: if self.arena.placed.contains_key(h) {
                self.arena
            } else {
                self.arena.allocate(h).0
            },
            ..self
        }
    }

    /// The block in L2, youngest, with a place in the arena.
    pub open spec fn l2_with(self, h: Seq<u8>, bytes: Seq<u8>) -> EngineView {
        EngineView {
            l2: self.l2.insert(h, bytes),
            l2_order: touched(self.l2_order, h),
            ..self.laid_out(h)
        }
    }

    /// L2 brought within capacity, with the places of the blocks that left it.
    pub open spec fn l2_capped(self, victims: Seq<Seq<u8>>) -> EngineView {
        EngineView { arena: freed_all(self.arena, victims), ..self.l2_to_l3(victims) }
    }

    /// Write-back of a full block: it lands in L2 only, and L2 sheds its oldest
    /// blocks to L3. Where pins forbid that, nothing of the tiers changes.
    pub open spec fn put_durable(self, h: Seq<u8>, bytes: Seq<u8>) -> (
        EngineView,
        Result<(LocalTier, EffectsView), Seq<char>>,
    ) {
        let put = self.l2_with(h, bytes);
        match put.l2_victims() {
            Err(e) => (
                EngineView {
                    arena: if self.l2.contains_key(h) || self.arena.placed.contains_key(h) {
                        put.arena
                    } else {
                        put.arena.free(h)
                    },
                    ..self
                },
                Err(e),
            ),
            Ok(victims) => (
                put.l2_capped(victims),
                Ok(
                    (
                        if victims.contains(h) {
                            LocalTier::L3
                        } else {
                            LocalTier::L2
                        },
                        EffectsView { l0_demoted: Seq::empty(), l2_demoted_to_l3: victims },
                    ),
                ),
            ),
        }
    }

    /// How many blocks must leave L1 before another enters.
    pub open spec fn l1_excess(self) -> int {
        if self.caps.l1 == 0 || self.l1_order.len() < self.caps.l1 {
            0
        } else {
            self.l1_order.len() - self.caps.l1 + 1
        }
    }

    /// L1 with room for one more block: the oldest leave.
    pub open spec fn l1_roomy(self) -> EngineView {
        EngineView {
            l1: self.l1.remove_keys(self.l1_order.take(self.l1_excess()).to_set()),
            l1_order: self.l1_order.skip(self.l1_excess()),
            ..self
        }
    }

    /// The block is in L1.
    pub open spec fn l1_with(self, h: Seq<u8>, bytes: Seq<u8>) -> EngineView {
        if self.l1.contains_key(h) {
            self
        } else {
            let e = self.l1_roomy();
            EngineView {
                l1: e.l1.insert(h, bytes),
                l1_order: touched(e.l1_order, h),
                ..e
            }
        }
    }

    /// The blocks that may leave L0, in their order: not pinned and held durably;
    /// on request only the one-shot ones.
    pub open spec fn l0_loose(self, blocks: Seq<Seq<u8>>, one_shot_only: bool) -> Seq<Seq<u8>> {
        blocks.filter(
            |h: Seq<u8>|
                self.pin_count(h) == 0 && self.settled(h) && (one_shot_only
                    ==> self.one_shot.contains(h)),
        )
    }

    /// The block that leaves L0 next: the oldest one-shot block that may, else
    /// the oldest block that may.
    pub open spec fn l0_victim(self) -> Option<Seq<u8>> {
        if self.l0_loose(self.l0_order, true).len() > 0 {
            Some(self.l0_loose(self.l0_order, true)[0])
        } else if self.l0_loose(self.l0_order, false).len() > 0 {
            Some(self.l0_loose(self.l0_order, false)[0])
        } else {
            None
        }
    }

    /// L0 is at its capacity.
    pub open spec fn l0_full(self) -> bool {
        self.caps.l0 != 0 && self.l0_order.len() >= self.caps.l0
    }

    /// The block is no longer in L0.
    pub open spec fn l0_without(self, h: Seq<u8>) -> EngineView {
        EngineView {
            l0: self.l0.remove(h),
            l0_order: queue::without(self.l0_order, h),
            one_shot: self.one_shot.remove(h),
            ..self
        }
    }

    /// One block leaves L0 if it is full.
    pub open spec fn l0_evicted(self) -> (EngineView, Result<Option<Seq<u8>>, Seq<char>>) {
        if !self.l0_full() {
            (self, Ok(None))
        } else {
            match self.l0_victim() {
                Some(h) => (self.l0_without(h), Ok(Some(h))),
                None => (
                    self,
                    Err("evict_l0: no durable unpinned victim (pin/writeback first)"@),
                ),
            }
        }
    }

    /// The first part of a promotion: a block that only L3 holds durably is
    /// filled into L2.
    pub open spec fn l2_filled(self, h: Seq<u8>, bytes: Seq<u8>) -> (
        EngineView,
        Result<Seq<Seq<u8>>, Seq<char>>,
    ) {
        if self.l2.contains_key(h) || !self.l3.contains_key(h) {
            (self, Ok(Seq::empty()))
        } else {
            let put = self.l2_with(h, bytes);
            match put.l2_victims() {
                Ok(victims) => (put.l2_capped(victims), Ok(victims)),
                Err(e) => (EngineView { arena: put.arena.free(h), ..self }, Err(e)),
            }
        }
    }

    /// Promotion to L0 by way of L2 and L1. A block that is in L0 only becomes
    /// the youngest there. The answer is the cost and the side effects.
    pub open spec fn promoted(self, h: Seq<u8>) -> (
        EngineView,
        Result<(u64, EffectsView), Seq<char>>,
    ) {
        if self.l0.contains_key(h) {
            (
                EngineView { l0_order: touched(self.l0_order, h), ..self },
                Ok((0, EffectsView::none())),
            )
        } else {
            match self.read(h) {
                None => (self, Err("promote: block missing all tiers"@)),
                Some(bytes) => {
                    let cost = self.promote_cost(h) as u64;
                    let (filled, shed) = self.l2_filled(h, bytes);
                    match shed {
                        Err(e) => (filled, Err(e)),
                        Ok(l2_demoted_to_l3) => {
                            let (roomy, evicted) = filled.l1_with(h, bytes).l0_evicted();
                            match evicted {
                                Err(e) => (roomy, Err(e)),
                                Ok(gone) => (
                                    EngineView {
                                        l0: roomy.l0.insert(h, bytes),
                                        l0_order: touched(roomy.l0_order, h),
                                        ..roomy
                                    },
                                    Ok(
                                        (
                                            cost,
                                            EffectsView {
                                                l0_demoted: match gone {
                                                    Some(v) => seq![v],
                                                    None => Seq::empty(),
                                                },
                                                l2_demoted_to_l3,
                                            },
                                        ),
                                    ),
                                ),
                            }
                        },
                    }
                },
            }
        }
    }

    /// Promotion with admission: a block with too few hits enters L0 one-shot.
    pub open spec fn promoted_admitted(self, h: Seq<u8>) -> (
        EngineView,
        Result<(u64, EffectsView), Seq<char>>,
    ) {
        let (e, r) = self.promoted(h);
        if r is Err {
            (e, r)
        } else {
            (
                EngineView {
                    one_shot: if self.hit_count(h) >= self.admit_after {
                        e.one_shot.remove(h)
                    } else {
                        e.one_shot.insert(h)
                    },
                    ..e
                },
                r,
            )
        }
    }

    /// Demotion out of L0: refused for a pinned block and for one without a
    /// durable copy. The answer is the number of bytes that left.
    pub open spec fn demoted_l0(self, h: Seq<u8>) -> (EngineView, Result<u64, Seq<char>>) {
        if self.pin_count(h) > 0 {
            (self, Err("demote_l0: pinned (lock_ref)"@))
        } else if !self.settled(h) {
            (self, Err("demote_l0: need L2 or L3 durable backing"@))
        } else {
            (
                self.l0_without(h),
                Ok(
                    if self.l0.contains_key(h) {
                        self.l0[h].len() as u64
                    } else {
                        0
                    },
                ),
            )
        }
    }

    /// Demotion from L2 to L3: refused for a pinned block and for one that L2
    /// does not hold.
    pub open spec fn demoted_l2(self, h: Seq<u8>) -> (EngineView, Result<u64, Seq<char>>) {
        if self.pin_count(h) > 0 {
            (self, Err("demote_l2: pinned"@))
        } else if !self.l2.contains_key(h) {
            (self, Err("demote_l2: not on L2"@))
        } else {
            (
                EngineView {
                    l2: self.l2.remove(h),
                    l3: self.l3.insert(h, self.l2[h]),
                    l2_order: queue::without(self.l2_order, h),
                    arena: self.arena.free(h),
                    ..self
                },
                Ok(self.l2[h].len() as u64),
            )
        }
    }

    /// Nothing local is left of the block.
    pub open spec fn discarded(self, h: Seq<u8>) -> EngineView {
        EngineView {
            l0: self.l0.remove(h),
            l1: self.l1.remove(h),
            l2: self.l2.remove(h),
            l3: self.l3.remove(h),
            l0_order: queue::without(self.l0_order, h),
            l1_order: queue::without(self.l1_order, h),
            l2_order: queue::without(self.l2_order, h),
            pins: self.pins.remove(h),
            one_shot: self.one_shot.remove(h),
            inflight: self.inflight.remove(h),
            hits: self.hits.remove(h),
            arena: self.arena.free(h),
            ..self
        }
    }

    /// A pinned block stands in the segment.
    pub open spec fn segment_pinned(self, id: u64) -> bool {
        self.arena.segments.contains_key(id) && exists|i: int|
            0 <= i < segment::live(self.arena.segments[id]).len() && self.pin_count(
                #[trigger] segment::live(self.arena.segments[id])[i],
            ) > 0
    }

    /// Compaction of one L2 segment, refused while a block of it is pinned.
    pub open spec fn compacted(self, id: u64) -> (
        EngineView,
        Result<Seq<RelocateView>, Seq<char>>,
    ) {
        if self.segment_pinned(id) {
            (self, Err("compact: pinned block in segment"@))
        } else {
            (EngineView { arena: self.arena.compact(id), ..self }, self.arena.compact_moves(id))
        }
    }

    /// A move within the L2 layout, refused for a pinned block and for one that
    /// L2 does not hold.
    pub open spec fn colocated(self, h: Seq<u8>, id: u64, offset: u64) -> (
        EngineView,
        Result<RelocateView, Seq<char>>,
    ) {
        if self.pin_count(h) > 0 {
            (self, Err("colocate: pinned"@))
        } else if !self.l2.contains_key(h) {
            (self, Err("colocate: not on L2"@))
        } else {
            let (arena, r) = self.arena.relocate(h, id, offset);
            (EngineView { arena, ..self }, r)
        }
    }
}


proof fn lemma_ordered_len(tier: Tier, order: Seq<Seq<u8>>)
    requires
        ordered(tier, order),
    ensures
        tier.dom().finite(),
        tier.len() == order.len(),
{
    order.unique_seq_to_set();
    vstd::seq_lib::seq_to_set_is_finite(order);
}

proof fn lemma_touched(order: Seq<Seq<u8>>, h: Seq<u8>)
    requires
        order.no_duplicates(),
    ensures
        touched(order, h).no_duplicates(),
        touched(order, h).to_set() == order.to_set().insert(h),
        order.contains(h) ==> touched(order, h).len() == order.len(),
        !order.contains(h) ==> touched(order, h) == order.push(h),
{
    queue::lemma_without(order, h);
    let w = queue::without(order, h);
    let t = touched(order, h);
    vstd::seq_lib::seq_to_set_is_finite(w);
    assert forall|i: int, j: int| 0 <= i < t.len() && 0 <= j < t.len() && i != j implies t[i]
        != t[j] by {
        if i == w.len() {
            assert(w.contains(w[j]));
        } else if j == w.len() {
            assert(w.contains(w[i]));
        }
    }
    w.lemma_push_to_set_commute(h);
    assert(w.push(h).to_set() == w.to_set().insert(h));
    assert(t.to_set() =~= order.to_set().insert(h));
    if order.contains(h) {
        let i = choose|i: int| 0 <= i < order.len() && order[i] == h;
        queue::lemma_without_unique(order, i);
    } else {
        queue::lemma_without_absent(order, h);
    }
}

/// In-process byte maps of the four tiers with their orders, pins and counts.
pub struct LocalTierEngine {
    pub caps: TierCaps,
    pub l0: Table<Vec<u8>, Vec<u8>>,
    pub l1: Table<Vec<u8>, Vec<u8>>,
    pub l2: Table<Vec<u8>, Vec<u8>>,
    pub l3: Table<Vec<u8>, Vec<u8>>,
    pub l0_order: VecDeque<Vec<u8>>,
    pub l1_order: VecDeque<Vec<u8>>,
    pub l2_order: VecDeque<Vec<u8>>,
    /// Blocks that a request, a write-back or a transfer holds in place.
    pub pins: Table<Vec<u8>, u32>,
    /// Accesses that a tier served, per block.
    pub hit_counts: Table<Vec<u8>, u32>,
    /// Hits from which a promoted block counts as hot; one means always.
    pub promote_admit_after: u32,
    /// Blocks that entered L0 cold and leave it first.
    pub one_shot: KeySet<Vec<u8>>,
    /// Promotions that were started and not finished.
    pub promote_inflight: KeySet<Vec<u8>>,
    /// Layout of L2; the bytes are in `l2`.
    pub l2_arena: SegmentArena,
    pub stats: HitStats,
}

impl View for LocalTierEngine {
    type V = EngineView;

    open spec fn view(&self) -> EngineView {
        EngineView {
            caps: self.caps,
            l0: self.l0@,
            l1: self.l1@,
            l2: self.l2@,
            l3: self.l3@,
            l0_order: keys::views(self.l0_order@),
            l1_order: keys::views(self.l1_order@),
            l2_order: keys::views(self.l2_order@),
            pins: self.pins@,
            hits: self.hit_counts@,
            admit_after: self.promote_admit_after,
            one_shot: self.one_shot@,
            inflight: self.promote_inflight@,
            arena: self.l2_arena@,
            stats: self.stats,
        }
    }
}

impl EngineView {
    /// An engine without blocks.
    pub open spec fn fresh(caps: TierCaps, arena: ArenaView) -> EngineView {
        EngineView {
            caps,
            l0: Map::empty(),
            l1: Map::empty(),
            l2: Map::empty(),
            l3: Map::empty(),
            l0_order: Seq::empty(),
            l1_order: Seq::empty(),
            l2_order: Seq::empty(),
            pins: Map::empty(),
            hits: Map::empty(),
            admit_after: 2,
            one_shot: Set::empty(),
            inflight: Set::empty(),
            arena,
            stats: HitStats::zero(),
        }
    }
}

/// Moves a block to the young end of an order.
fn touch(order: &mut VecDeque<Vec<u8>>, h: &Vec<u8>)
    ensures
        keys::views(final(order)@) == touched(keys::views(old(order)@), h@),
{
    drop_key(order, h);
    let ghost kept = keys::views(order@);
    order.push_back(h.dup());
    assert(keys::views(order@) =~= kept.push(h@));
}

impl Default for LocalTierEngine {
    fn default() -> (e: Self)
        ensures
            e@ == EngineView::fresh(
                TierCaps { l0: 64, l1: 256, l2: 1024 },
                ArenaView::fresh(DEFAULT_SLOT_BYTES, 64),
            ),
            e@.wf(),
            e@.arena_matches(),
    {
        LocalTierEngine::with_caps(TierCaps::default())
    }
}

impl LocalTierEngine {
    /// An empty engine with the default capacities.
    pub fn new() -> (e: Self)
        ensures
            e@ == EngineView::fresh(
                TierCaps { l0: 64, l1: 256, l2: 1024 },
                ArenaView::fresh(DEFAULT_SLOT_BYTES, 64),
            ),
            e@.wf(),
            e@.arena_matches(),
    {
        LocalTierEngine::with_caps(TierCaps::default())
    }

    /// An empty engine with the default arena.
    pub fn with_caps(caps: TierCaps) -> (e: Self)
        ensures
            e@ == EngineView::fresh(caps, ArenaView::fresh(DEFAULT_SLOT_BYTES, 64)),
            e@.wf(),
            e@.arena_matches(),
    {
        LocalTierEngine::with_caps_arena(caps, SegmentArena::new(DEFAULT_SLOT_BYTES, 64))
    }

    /// An empty engine over an arena.
    pub fn with_caps_arena(caps: TierCaps, l2_arena: SegmentArena) -> (e: Self)
        requires
            l2_arena@.wf(),
        ensures
            e@ == EngineView::fresh(caps, l2_arena@),
            e@.wf(),
            e@.arena_matches() == (l2_arena@.placed.dom() == Set::<Seq<u8>>::empty()),
    {
        let e = LocalTierEngine {
            caps,
            l0: Table::new(),
            l1: Table::new(),
            l2: Table::new(),
            l3: Table::new(),
            l0_order: VecDeque::new(),
            l1_order: VecDeque::new(),
            l2_order: VecDeque::new(),
            pins: Table::new(),
            hit_counts: Table::new(),
            promote_admit_after: 2,
            one_shot: KeySet::new(),
            promote_inflight: KeySet::new(),
            l2_arena,
            stats: HitStats::default(),
        };
        assert(e@ =~= EngineView::fresh(caps, l2_arena@));
        assert(Seq::<Seq<u8>>::empty().to_set() =~= Set::empty());
        assert(Map::<Seq<u8>, Seq<u8>>::empty().dom() =~= Set::empty());
        e
    }

    /// Sets the number of hits from which a block counts as hot, at least one.
    pub fn with_promote_admit_after(self, n: u32) -> (e: Self)
        ensures
            e@ == (EngineView {
                admit_after: if n == 0 {
                    1
                } else {
                    n
                },
                ..self@
            }),
            self@.wf() ==> e@.wf(),
            self@.arena_matches() ==> e@.arena_matches(),
    {
        let mut e = self;
        e.promote_admit_after = if n == 0 {
            1
        } else {
            n
        };
        e
    }

    /// How often a tier served the block.
    pub fn hit_count(&self, h: &[u8]) -> (n: u32)
        ensures
            n == self@.hit_count(h@),
    {
        match self.hit_counts.get(&to_bytes(h)) {
            Some(n) => *n,
            None => 0,
        }
    }

    /// The block entered L0 cold and leaves it first.
    pub fn is_one_shot(&self, h: &[u8]) -> (b: bool)
        ensures
            b == self@.one_shot.contains(h@),
    {
        self.one_shot.contains(&to_bytes(h))
    }

    /// Where the block stands in the L2 layout.
    pub fn l2_placement(&self, h: &[u8]) -> (p: Option<Placement>)
        ensures
            p == if self@.arena.placed.contains_key(h@) {
                Some(self@.arena.placed[h@])
            } else {
                None
            },
    {
        self.l2_arena.placement(h)
    }

    fn note_l2_present(&mut self, h: &[u8])
        requires
            old(self)@.arena.wf(),
            old(self)@.arena.next_seg < u64::MAX,
        ensures
            final(self)@ == old(self)@.laid_out(h@),
            final(self)@.arena.wf(),
    {
        if self.l2_arena.placement(h).is_none() {
            let _ = self.l2_arena.allocate(h);
        }
        assert(self@ =~= old(self)@.laid_out(h@));
    }

    fn note_l2_absent(&mut self, h: &[u8])
        requires
            old(self)@.arena.wf(),
        ensures
            final(self)@ == (EngineView { arena: old(self)@.arena.free(h@), ..old(self)@ }),
            final(self)@.arena.wf(),
    {
        let _ = self.l2_arena.free(h);
        assert(self@ =~= (EngineView { arena: old(self)@.arena.free(h@), ..old(self)@ }));
    }

    /// The capacities.
    pub fn caps(&self) -> (caps: TierCaps)
        ensures
            caps == self@.caps,
    {
        self.caps
    }

    /// The number of blocks in L0.
    pub fn l0_len(&self) -> (n: usize)
        ensures
            n == self@.l0.len(),
    {
        self.l0.len()
    }

    /// The number of blocks in L1.
    pub fn l1_len(&self) -> (n: usize)
        ensures
            n == self@.l1.len(),
    {
        self.l1.len()
    }

    /// The number of blocks in L2.
    pub fn l2_len(&self) -> (n: usize)
        ensures
            n == self@.l2.len(),
    {
        self.l2.len()
    }

    /// The number of blocks in L3.
    pub fn l3_len(&self) -> (n: usize)
        ensures
            n == self@.l3.len(),
    {
        self.l3.len()
    }

    /// L2 holds the block.
    pub fn is_l2_durable(&self, h: &[u8]) -> (b: bool)
        ensures
            b == self@.l2.contains_key(h@),
    {
        self.l2.contains_key(&to_bytes(h))
    }

    /// L3 holds the block.
    pub fn l3_present(&self, h: &[u8]) -> (b: bool)
        ensures
            b == self@.l3.contains_key(h@),
    {
        self.l3.contains_key(&to_bytes(h))
    }

    /// A durable tier holds the block.
    pub fn is_settled(&self, h: &[u8]) -> (b: bool)
        ensures
            b == self@.settled(h@),
    {
        self.is_l2_durable(h) || self.l3_present(h)
    }

    /// A durable tier holds the block.
    pub fn has_durable_backing(&self, h: &[u8]) -> (b: bool)
        ensures
            b == self@.settled(h@),
    {
        self.is_settled(h)
    }

    /// How often the block is pinned.
    pub fn pin_count(&self, h: &[u8]) -> (n: u32)
        ensures
            n == self@.pin_count(h@),
    {
        match self.pins.get(&to_bytes(h)) {
            Some(n) => *n,
            None => 0,
        }
    }

    /// Holds the block in place once more.
    pub fn pin(&mut self, h: &[u8])
        requires
            old(self)@.pin_count(h@) < u32::MAX,
        ensures
            final(self)@ == (EngineView {
                pins: old(self)@.pins.insert(h@, (old(self)@.pin_count(h@) + 1) as u32),
                ..old(self)@
            }),
            old(self)@.wf() ==> final(self)@.wf(),
            old(self)@.arena_matches() ==> final(self)@.arena_matches(),
    {
        let n: u32 = self.pin_count(h);
        self.pins.insert(to_bytes(h), n + 1);
    }

    /// Undoes one pin.
    pub fn unpin(&mut self, h: &[u8]) -> (r: Result<(), String>)
        ensures
            match r {
                Ok(()) => {
                    &&& old(self)@.pins.contains_key(h@)
                    &&& final(self)@ == (EngineView {
                        pins: if old(self)@.pins[h@] <= 1 {
                            old(self)@.pins.remove(h@)
                        } else {
                            old(self)@.pins.insert(h@, (old(self)@.pins[h@] - 1) as u32)
                        },
                        ..old(self)@
                    })
                },
                Err(e) => {
                    &&& !old(self)@.pins.contains_key(h@)
                    &&& e@ == "unpin: not pinned"@
                    &&& final(self)@ == old(self)@
                },
            },
            old(self)@.wf() ==> final(self)@.wf(),
            old(self)@.arena_matches() ==> final(self)@.arena_matches(),
    {
        let k = to_bytes(h);
        let n: u32 = match self.pins.get(&k) {
            Some(n) => *n,
            None => {
                return Err(text("unpin: not pinned"));
            },
        };
        if n <= 1 {
            self.pins.remove(&k);
        } else {
            self.pins.insert(k, n - 1);
        }
        Ok(())
    }

    /// Size of the block in L0, or zero.
    pub fn l0_nbytes(&self, h: &[u8]) -> (n: u64)
        ensures
            n == if self@.l0.contains_key(h@) {
                self@.l0[h@].len()
            } else {
                0
            },
    {
        match self.l0.get(&to_bytes(h)) {
            Some(b) => b.len() as u64,
            None => 0,
        }
    }

    /// Size of the block in L2, or zero.
    pub fn l2_nbytes(&self, h: &[u8]) -> (n: u64)
        ensures
            n == if self@.l2.contains_key(h@) {
                self@.l2[h@].len()
            } else {
                0
            },
    {
        match self.l2.get(&to_bytes(h)) {
            Some(b) => b.len() as u64,
            None => 0,
        }
    }

    /// The bytes that the nearest tier holds.
    pub fn get(&self, h: &[u8]) -> (bytes: Option<&[u8]>)
        ensures
            match bytes {
                Some(b) => self@.read(h@) == Some(b@),
                None => self@.read(h@) is None,
            },
    {
        let k = to_bytes(h);
        if let Some(b) = self.l0.get(&k) {
            return Some(b.as_slice());
        }
        if let Some(b) = self.l1.get(&k) {
            return Some(b.as_slice());
        }
        if let Some(b) = self.l2.get(&k) {
            return Some(b.as_slice());
        }
        match self.l3.get(&k) {
            Some(b) => Some(b.as_slice()),
            None => None,
        }
    }

    /// The nearest tier that holds the block.
    pub fn local_tier(&self, h: &[u8]) -> (tier: Option<LocalTier>)
        ensures
            tier == self@.tier_of(h@),
    {
        let k = to_bytes(h);
        if self.l0.contains_key(&k) {
            Some(LocalTier::L0)
        } else if self.l1.contains_key(&k) {
            Some(LocalTier::L1)
        } else if self.l2.contains_key(&k) {
            Some(LocalTier::L2)
        } else if self.l3.contains_key(&k) {
            Some(LocalTier::L3)
        } else {
            None
        }
    }

    /// Counts an access and tells which tier served it. A one-shot block that
    /// L0 serves often enough becomes an ordinary one.
    pub fn probe(&mut self, h: &[u8]) -> (kind: AccessKind)
        requires
            old(self)@.stats.has_room(),
            old(self)@.hit_count(h@) < u32::MAX,
        ensures
            kind == old(self)@.access(h@),
            final(self)@ == old(self)@.probed(h@),
            old(self)@.wf() ==> final(self)@.wf(),
            old(self)@.arena_matches() ==> final(self)@.arena_matches(),
    {
        let kind = match self.local_tier(h) {
            Some(LocalTier::L0) => AccessKind::L0Hit,
            Some(LocalTier::L1) => AccessKind::L1Hit,
            Some(LocalTier::L2) => AccessKind::L2Hit,
            Some(LocalTier::L3) => AccessKind::L3Hit,
            None => AccessKind::Miss,
        };
        if kind != AccessKind::Miss {
            let n: u32 = self.hit_count(h) + 1;
            self.hit_counts.insert(to_bytes(h), n);
            if kind == AccessKind::L0Hit && n >= self.promote_admit_after {
                self.one_shot.remove(&to_bytes(h));
            }
        }
        self.stats.record(kind);
        assert(self@ =~= old(self)@.probed(h@));
        kind
    }

    /// The number of promotions in flight.
    pub fn promote_inflight_len(&self) -> (n: usize)
        ensures
            n == self@.inflight.len(),
    {
        self.promote_inflight.len()
    }

    /// Byte moves that a promotion would take.
    pub fn estimate_promote_cost(&self, h: &[u8]) -> (n: u64)
        requires
            countable(self@.l1),
            countable(self@.l2),
            countable(self@.l3),
        ensures
            n == self@.promote_cost(h@),
    {
        let bytes: u64 = match self.get(h) {
            Some(b) => b.len() as u64,
            None => {
                return 0;
            },
        };
        let k = to_bytes(h);
        if self.l0.contains_key(&k) {
            return 0;
        }
        let mut hops: u64 = 1;
        if !self.l1.contains_key(&k) {
            hops += 1;
        }
        if !self.l2.contains_key(&k) && self.l3.contains_key(&k) {
            hops += 1;
        }
        assert(hops == 1 || hops == 2 || hops == 3);
        assert(bytes * 3 <= u64::MAX);
        assert(bytes * hops <= bytes * 3) by (nonlinear_arith)
            requires
                hops <= 3,
        ;
        bytes * hops
    }
}


/// One block more leaves L2.
proof fn lemma_shed_step(e: EngineView, victims: Seq<Seq<u8>>, v: Seq<u8>)
    requires
        e.l2.contains_key(v),
        !victims.contains(v),
    ensures
        e.l2_to_l3(victims).l2.contains_key(v),
        e.l2_to_l3(victims).l2[v] == e.l2[v],
        e.l2_to_l3(victims.push(v)) == (EngineView {
            l2: e.l2_to_l3(victims).l2.remove(v),
            l3: if e.l2_to_l3(victims).l3.contains_key(v) {
                e.l2_to_l3(victims).l3
            } else {
                e.l2_to_l3(victims).l3.insert(v, e.l2[v])
            },
            l2_order: queue::without(e.l2_to_l3(victims).l2_order, v),
            ..e.l2_to_l3(victims)
        }),
{
    let a = e.l2_to_l3(victims);
    let b = e.l2_to_l3(victims.push(v));
    let more = victims.push(v);
    assert forall|x: Seq<u8>| more.contains(x) == (victims.contains(x) || x == v) by {
        if victims.contains(x) {
            let i = choose|i: int| 0 <= i < victims.len() && victims[i] == x;
            assert(more[i] == x);
        }
        assert(more[victims.len() as int] == v);
        if more.contains(x) && x != v {
            let i = choose|i: int| 0 <= i < more.len() && more[i] == x;
            assert(victims[i] == x);
        }
    }
    assert(b.l2 =~= a.l2.remove(v));
    let l3 = if a.l3.contains_key(v) {
        a.l3
    } else {
        a.l3.insert(v, e.l2[v])
    };
    assert(b.l3 =~= l3);
    queue::lemma_except_push(e.l2_order, victims, v);
    assert(b =~= EngineView {
        l2: a.l2.remove(v),
        l3,
        l2_order: queue::without(a.l2_order, v),
        ..a
    });
}

/// Shedding blocks from L2 keeps the engine well-formed, and durable what was.
proof fn lemma_shed(e: EngineView, victims: Seq<Seq<u8>>)
    requires
        e.sound(),
        forall|v: Seq<u8>| victims.contains(v) ==> e.l2.contains_key(v),
    ensures
        e.l2_to_l3(victims).sound(),
        forall|h: Seq<u8>| #[trigger] e.l2_to_l3(victims).settled(h) == e.settled(h),
{
    let a = e.l2_to_l3(victims);
    queue::lemma_except(e.l2_order, victims);
    assert(a.l2_order.to_set() =~= a.l2.dom());
    assert forall|h: Seq<u8>| #[trigger] a.settled(h) == e.settled(h) by {
        if victims.contains(h) {
            assert(victims.to_set().contains(h));
        }
    }
    assert forall|h: Seq<u8>| #[trigger] a.l2.contains_key(h) implies a.l2[h].len() * 3
        <= u64::MAX by {
        assert(e.l2.contains_key(h));
    }
    assert forall|h: Seq<u8>| #[trigger] a.l3.contains_key(h) implies a.l3[h].len() * 3
        <= u64::MAX by {
        if !e.l3.contains_key(h) {
            assert(e.l2.contains_key(h));
        } else {
            assert(e.l3.contains_key(h));
        }
    }
    assert forall|h: Seq<u8>| #[trigger] a.l0.contains_key(h) implies a.settled(h) by {
        assert(e.l0.contains_key(h));
    }
    assert forall|h: Seq<u8>| #[trigger] a.l1.contains_key(h) implies a.settled(h) by {
        assert(e.l1.contains_key(h));
    }
}

proof fn lemma_unpinned_split(e: EngineView, s: Seq<Seq<u8>>, i: int)
    requires
        0 <= i <= s.len(),
    ensures
        e.unpinned(s) == e.unpinned(s.take(i)) + e.unpinned(s.skip(i)),
        i < s.len() ==> e.unpinned(s.take(i + 1)) == if e.pin_count(s[i]) == 0 {
            e.unpinned(s.take(i)).push(s[i])
        } else {
            e.unpinned(s.take(i))
        },
        e.unpinned(s.take(0)) == Seq::<Seq<u8>>::empty(),
{
    let p = |h: Seq<u8>| e.pin_count(h) == 0;
    Seq::filter_distributes_over_add(s.take(i), s.skip(i), p);
    assert(s =~= s.take(i) + s.skip(i));
    reveal(Seq::filter);
    if i < s.len() {
        assert(s.take(i + 1).drop_last() =~= s.take(i));
    }
}

/// The victims are blocks of L2, each once, none pinned.
proof fn lemma_victims(e: EngineView)
    requires
        ordered(e.l2, e.l2_order),
        e.l2_victims() is Ok,
    ensures
        e.l2_victims()->Ok_0.len() == e.l2_excess(),
        e.l2_victims()->Ok_0.no_duplicates(),
        forall|v: Seq<u8>| #[trigger]
            e.l2_victims()->Ok_0.contains(v) ==> e.l2.contains_key(v) && e.pin_count(v) == 0,
{
    let loose = e.unpinned(e.l2_order);
    queue::lemma_filter(e.l2_order, |h: Seq<u8>| e.pin_count(h) == 0);
    lemma_ordered_len(e.l2, e.l2_order);
    let victims = loose.take(e.l2_excess());
    assert forall|v: Seq<u8>| #[trigger] victims.contains(v) implies e.l2.contains_key(v)
        && e.pin_count(v) == 0 by {
        let i = choose|i: int| 0 <= i < victims.len() && victims[i] == v;
        assert(loose[i] == v);
        assert(loose.contains(v));
        assert(e.l2_order.to_set().contains(v));
    }
}

/// Shedding the victims brings L2 within capacity.
proof fn lemma_capped(e: EngineView)
    requires
        ordered(e.l2, e.l2_order),
        e.l2_victims() is Ok,
    ensures
        ({
            let after = e.l2_to_l3(e.l2_victims()->Ok_0);
            e.caps.l2 == 0 || after.l2.len() <= e.caps.l2 && after.l2_order.len() <= e.caps.l2
        }),
{
    let victims = e.l2_victims()->Ok_0;
    let after = e.l2_to_l3(victims);
    lemma_victims(e);
    lemma_ordered_len(e.l2, e.l2_order);
    victims.unique_seq_to_set();
    assert(victims.to_set().subset_of(e.l2.dom())) by {
        assert forall|x: Seq<u8>| victims.to_set().contains(x) implies e.l2.dom().contains(x) by {
            assert(victims.contains(x));
        }
    }
    e.l2.lemma_remove_keys_len(victims.to_set());
    queue::lemma_except(e.l2_order, victims);
    assert(after.l2_order.to_set() =~= after.l2.dom());
    lemma_ordered_len(after.l2, after.l2_order);
}

proof fn lemma_l2_with(e: EngineView, h: Seq<u8>, bytes: Seq<u8>)
    requires
        e.sound(),
        bytes.len() * 3 <= u64::MAX,
        e.laid_out(h).arena.wf(),
    ensures
        e.l2_with(h, bytes).sound(),
{
    let a = e.l2_with(h, bytes);
    lemma_touched(e.l2_order, h);
    assert(a.l2_order.to_set() =~= a.l2.dom());
    assert forall|x: Seq<u8>| #[trigger] a.l0.contains_key(x) implies a.settled(x) by {
        assert(e.l0.contains_key(x));
        assert(e.settled(x));
    }
    assert forall|x: Seq<u8>| #[trigger] a.l1.contains_key(x) implies a.settled(x) by {
        assert(e.l1.contains_key(x));
        assert(e.settled(x));
    }
    assert forall|x: Seq<u8>| #[trigger] a.l2.contains_key(x) implies a.l2[x].len() * 3
        <= u64::MAX by {
        if x != h {
            assert(e.l2.contains_key(x));
        }
    }
}

impl LocalTierEngine {
    /// Brings L2 within capacity: the oldest blocks that are not pinned move to
    /// L3. Where too few are loose, nothing changes.
    fn ensure_l2_cap(&mut self) -> (r: Result<Vec<Vec<u8>>, String>)
        requires
            ordered(old(self)@.l2, old(self)@.l2_order),
        ensures
            match r {
                Ok(victims) => {
                    &&& old(self)@.l2_victims() == Ok::<_, Seq<char>>(keys::views(victims@))
                    &&& final(self)@ == old(self)@.l2_to_l3(keys::views(victims@))
                },
                Err(e) => {
                    &&& old(self)@.l2_victims() == Err::<Seq<Seq<u8>>, _>(e@)
                    &&& final(self)@ == old(self)@
                },
            },
    {
        let ghost e = self@;
        let cap: usize = self.caps.l2;
        let len: usize = self.l2.len();
        let excess: usize = if cap == 0 || len <= cap {
            0
        } else {
            len - cap
        };
        let mut victims: Vec<Vec<u8>> = Vec::new();
        let mut i: usize = 0;
        proof {
            lemma_ordered_len(e.l2, e.l2_order);
            lemma_unpinned_split(e, e.l2_order, 0);
            assert(keys::views(victims@) =~= Seq::empty());
        }
        while i < self.l2_order.len() && victims.len() < excess
            invariant
                self@ == e,
                i <= e.l2_order.len() == self.l2_order@.len(),
                excess == e.l2_excess(),
                victims@.len() <= excess,
                keys::views(victims@) == e.unpinned(e.l2_order.take(i as int)),
            decreases e.l2_order.len() - i,
        {
            let h = &self.l2_order[i];
            let ghost before = keys::views(victims@);
            proof {
                lemma_unpinned_split(e, e.l2_order, i as int);
                assert(e.l2_order[i as int] == h@);
            }
            if self.pin_count(h.as_slice()) == 0 {
                victims.push(h.dup());
                assert(keys::views(victims@) =~= before.push(h@));
            }
            i += 1;
        }
        proof {
            lemma_unpinned_split(e, e.l2_order, i as int);
            if i == e.l2_order.len() {
                assert(e.l2_order.take(i as int) =~= e.l2_order);
            }
        }
        if victims.len() < excess {
            let mut msg = text("l2 over cap (");
            msg.append(decimal_text(len as u64).as_str());
            msg.append(">");
            msg.append(decimal_text(cap as u64).as_str());
            msg.append("): all victims pinned — unpin before put");
            return Err(msg);
        }
        let ghost gone = keys::views(victims@);
        assert(gone =~= e.unpinned(e.l2_order).take(excess as int));
        proof {
            lemma_victims(e);
            queue::lemma_except_none(e.l2_order);
            assert(gone.take(0) =~= Seq::empty());
            assert(e.l2_to_l3(Seq::empty()).l2 =~= e.l2);
            assert(e.l2_to_l3(Seq::empty()).l3 =~= e.l3);
            assert(e.l2_to_l3(gone.take(0)) =~= e);
        }
        let mut k: usize = 0;
        while k < victims.len()
            invariant
                k <= victims@.len(),
                gone == keys::views(victims@),
                gone.no_duplicates(),
                forall|v: Seq<u8>| #[trigger] gone.contains(v) ==> e.l2.contains_key(v),
                self@ == e.l2_to_l3(gone.take(k as int)),
            decreases victims@.len() - k,
        {
            let v = &victims[k];
            proof {
                assert(gone[k as int] == v@);
                assert(gone.contains(v@));
                assert(!gone.take(k as int).contains(v@)) by {
                    if gone.take(k as int).contains(v@) {
                        let j = choose|j: int| 0 <= j < k && gone.take(k as int)[j] == v@;
                        assert(gone[j] == gone[k as int]);
                    }
                }
                lemma_shed_step(e, gone.take(k as int), v@);
                assert(gone.take(k + 1) =~= gone.take(k as int).push(v@));
            }
            if let Some(bytes) = self.l2.remove(v) {
                if !self.l3.contains_key(v) {
                    self.l3.insert(v.dup(), bytes);
                }
            }
            drop_key(&mut self.l2_order, v);
            assert(self@ =~= e.l2_to_l3(gone.take(k + 1)));
            k += 1;
        }
        assert(gone.take(k as int) =~= gone);
        Ok(victims)
    }

    /// Gives up the places of several blocks in the L2 layout.
    fn note_l2_all_absent(&mut self, blocks: &Vec<Vec<u8>>)
        requires
            old(self)@.arena.wf(),
        ensures
            final(self)@ == (EngineView {
                arena: freed_all(old(self)@.arena, keys::views(blocks@)),
                ..old(self)@
            }),
            final(self)@.arena.wf(),
    {
        let ghost e = self@;
        let ghost gone = keys::views(blocks@);
        let mut k: usize = 0;
        assert(gone.take(0) =~= Seq::empty());
        while k < blocks.len()
            invariant
                k <= blocks@.len(),
                gone == keys::views(blocks@),
                self@ == (EngineView { arena: freed_all(e.arena, gone.take(k as int)), ..e }),
                self@.arena.wf(),
            decreases blocks@.len() - k,
        {
            assert(gone.take(k + 1).drop_last() =~= gone.take(k as int));
            assert(gone.take(k + 1).last() == blocks@[k as int]@);
            self.note_l2_absent(blocks[k].as_slice());
            k += 1;
        }
        assert(gone.take(k as int) =~= gone);
    }

    /// Write-back of a full block to L2. Side effects name the blocks that L2
    /// shed to L3; the answer tells where the block itself stands.
    #[verifier::rlimit(60)]
    #[verifier::spinoff_prover]
    pub fn put_durable(&mut self, h: &[u8], bytes: &[u8]) -> (r: Result<
        (LocalTier, TierSideEffects),
        String,
    >)
        requires
            old(self)@.wf(),
            bytes@.len() * 3 <= u64::MAX,
            old(self)@.arena.next_seg < u64::MAX,
        ensures
            final(self)@ == old(self)@.put_durable(h@, bytes@).0,
            keys::seen(r) == old(self)@.put_durable(h@, bytes@).1,
            final(self)@.wf(),
            old(self)@.arena_matches() ==> final(self)@.arena_matches(),
    {
        proof {
            if self@.arena_matches() {
                put_keeps_places(self@, h@, bytes@);
            }
        }
        let ghost e = self@;
        let k = to_bytes(h);
        let prior: Option<Vec<u8>> = match self.l2.get(&k) {
            Some(b) => Some(b.dup()),
            None => None,
        };
        let prior_pos = position(&self.l2_order, &k);
        let had_placement = self.l2_arena.placement(h).is_some();
        self.l2.insert(to_bytes(h), to_bytes(bytes));
        touch(&mut self.l2_order, &k);
        if !had_placement {
            self.note_l2_present(h);
        }
        let ghost put = self@;
        assert(put =~= e.l2_with(h@, bytes@));
        proof {
            lemma_l2_with(e, h@, bytes@);
        }
        match self.ensure_l2_cap() {
            Err(msg) => {
                match prior {
                    Some(old_bytes) => {
                        self.l2.insert(to_bytes(h), old_bytes);
                    },
                    None => {
                        self.l2.remove(&k);
                        if !had_placement {
                            self.note_l2_absent(h);
                        }
                    },
                }
                assert(self@.l2 =~= e.l2);
                let ghost grown = self@.l2_order;
                assert(grown == touched(e.l2_order, h@));
                self.l2_order.pop_back();
                assert(keys::views(self.l2_order@) =~= grown.drop_last());
                assert(grown.drop_last() =~= queue::without(e.l2_order, h@));
                assert(keys::views(self.l2_order@) =~= queue::without(e.l2_order, h@));
                if let Some(pos) = prior_pos {
                    proof {
                        assert(e.l2_order[pos as int] == h@);
                        queue::lemma_without_unique(e.l2_order, pos as int);
                    }
                    let ghost kept = keys::views(self.l2_order@);
                    self.l2_order.insert(pos, to_bytes(h));
                    assert(keys::views(self.l2_order@) =~= kept.insert(pos as int, h@));
                    assert(self@.l2_order =~= e.l2_order);
                } else {
                    proof {
                        queue::lemma_without_absent(e.l2_order, h@);
                    }
                }
                assert(self@ =~= e.put_durable(h@, bytes@).0);
                Err(msg)
            },
            Ok(victims) => {
                let ghost gone = keys::views(victims@);
                proof {
                    lemma_victims(put);
                    lemma_shed(put, gone);
                    lemma_capped(put);
                }
                self.note_l2_all_absent(&victims);
                assert(self@ =~= put.l2_capped(gone));
                let tier = if self.l2.contains_key(&k) {
                    LocalTier::L2
                } else {
                    LocalTier::L3
                };
                assert(put.l2.contains_key(h@));
                assert(gone.to_set().contains(h@) == gone.contains(h@));
                let fx = TierSideEffects { l0_demoted: Vec::new(), l2_demoted_to_l3: victims };
                assert(fx@.l0_demoted =~= Seq::empty());
                Ok((tier, fx))
            },
        }
    }
}


proof fn lemma_loose_split(e: EngineView, s: Seq<Seq<u8>>, one_shot_only: bool, i: int)
    requires
        0 <= i < s.len(),
    ensures
        ({
            let passes = e.pin_count(s[i]) == 0 && e.settled(s[i]) && (one_shot_only
                ==> e.one_shot.contains(s[i]));
            &&& e.l0_loose(s.take(i + 1), one_shot_only) == if passes {
                e.l0_loose(s.take(i), one_shot_only).push(s[i])
            } else {
                e.l0_loose(s.take(i), one_shot_only)
            }
            &&& e.l0_loose(s, one_shot_only) == e.l0_loose(s.take(i + 1), one_shot_only)
                + e.l0_loose(s.skip(i + 1), one_shot_only)
        }),
{
    let p = |h: Seq<u8>|
        e.pin_count(h) == 0 && e.settled(h) && (one_shot_only ==> e.one_shot.contains(h));
    Seq::filter_distributes_over_add(s.take(i + 1), s.skip(i + 1), p);
    assert(s =~= s.take(i + 1) + s.skip(i + 1));
    reveal(Seq::filter);
    assert(s.take(i + 1).drop_last() =~= s.take(i));
}

proof fn lemma_l0_loose(e: EngineView, one_shot_only: bool)
    ensures
        forall|h: Seq<u8>| #[trigger]
            e.l0_loose(e.l0_order, one_shot_only).contains(h) ==> e.l0_order.contains(h)
                && e.pin_count(h) == 0 && e.settled(h),
{
    queue::lemma_filter(
        e.l0_order,
        |h: Seq<u8>|
            e.pin_count(h) == 0 && e.settled(h) && (one_shot_only ==> e.one_shot.contains(h)),
    );
}

/// Who leaves L0 is in it, is not pinned and stays durable.
proof fn lemma_l0_victim(e: EngineView)
    ensures
        e.l0_victim() matches Some(h) ==> e.l0_order.contains(h) && e.pin_count(h) == 0
            && e.settled(h),
{
    lemma_l0_loose(e, true);
    lemma_l0_loose(e, false);
    if e.l0_loose(e.l0_order, true).len() > 0 {
        assert(e.l0_loose(e.l0_order, true).contains(e.l0_loose(e.l0_order, true)[0]));
    } else if e.l0_loose(e.l0_order, false).len() > 0 {
        assert(e.l0_loose(e.l0_order, false).contains(e.l0_loose(e.l0_order, false)[0]));
    }
}

proof fn lemma_l0_without(e: EngineView, h: Seq<u8>)
    requires
        e.sound(),
    ensures
        e.l0_without(h).sound(),
        e.l0_order.contains(h) ==> e.l0_without(h).l0_order.len() == e.l0_order.len() - 1,
{
    let a = e.l0_without(h);
    queue::lemma_without(e.l0_order, h);
    assert(a.l0_order.to_set() =~= a.l0.dom());
    queue::lemma_filter(e.l0_order, |y: Seq<u8>| y != h);
    if e.l0_order.contains(h) {
        let i = choose|i: int| 0 <= i < e.l0_order.len() && e.l0_order[i] == h;
        queue::lemma_without_unique(e.l0_order, i);
    }
    assert forall|x: Seq<u8>| #[trigger] a.l0.contains_key(x) implies a.settled(x) by {
        assert(e.l0.contains_key(x));
        assert(e.settled(x));
    }
    assert forall|x: Seq<u8>| #[trigger] a.l1.contains_key(x) implies a.settled(x) by {
        assert(e.settled(x));
    }
}

proof fn lemma_l1_with(e: EngineView, h: Seq<u8>, bytes: Seq<u8>)
    requires
        e.sound(),
        bytes.len() * 3 <= u64::MAX,
        e.settled(h),
    ensures
        e.l1_with(h, bytes).sound(),
{
    lemma_roomy(e);
    let r = e.l1_roomy();
    if e.l1_excess() != 0 {
        assert forall|x: Seq<u8>| r.l1_order.contains(x) == (e.l1_order.contains(x) && x
            != e.l1_order[0]) by {
            if r.l1_order.contains(x) {
                let i = choose|i: int| 0 <= i < r.l1_order.len() && r.l1_order[i] == x;
                assert(e.l1_order[i + 1] == x);
            }
            if e.l1_order.contains(x) && x != e.l1_order[0] {
                let i = choose|i: int| 0 <= i < e.l1_order.len() && e.l1_order[i] == x;
                assert(r.l1_order[i - 1] == x);
            }
        }
        assert(r.l1_order.to_set() =~= r.l1.dom()) by {
            assert forall|x: Seq<u8>| r.l1_order.to_set().contains(x) == r.l1.dom().contains(
                x,
            ) by {
                assert(e.l1_order.to_set().contains(x) == e.l1.dom().contains(x));
            }
        }
    }
    let a = e.l1_with(h, bytes);
    if !e.l1.contains_key(h) {
        assert(ordered(r.l1, r.l1_order));
        lemma_touched(r.l1_order, h);
        assert(!r.l1_order.contains(h)) by {
            assert(r.l1_order.to_set().contains(h) == r.l1.dom().contains(h));
        }
        assert(a.l1_order.to_set() =~= a.l1.dom());
        assert forall|x: Seq<u8>| #[trigger] a.l1.contains_key(x) implies a.settled(x)
            && a.l1[x].len() * 3 <= u64::MAX by {
            if x != h {
                assert(e.l1.contains_key(x));
                assert(e.settled(x));
            } else {
                assert(e.settled(x));
            }
        }
        assert forall|x: Seq<u8>| #[trigger] a.l0.contains_key(x) implies a.settled(x) by {
            assert(e.settled(x));
        }
    }
}

proof fn lemma_l0_with(e: EngineView, h: Seq<u8>, bytes: Seq<u8>)
    requires
        e.sound(),
        !e.l0_full(),
        e.settled(h),
        !e.l0.contains_key(h),
        bytes.len() * 3 <= u64::MAX,
    ensures
        (EngineView {
            l0: e.l0.insert(h, bytes),
            l0_order: touched(e.l0_order, h),
            ..e
        }).sound(),
{
    let a = EngineView { l0: e.l0.insert(h, bytes), l0_order: touched(e.l0_order, h), ..e };
    lemma_touched(e.l0_order, h);
    assert(!e.l0_order.contains(h)) by {
        assert(e.l0_order.to_set().contains(h) == e.l0.dom().contains(h));
    }
    assert(a.l0_order.to_set() =~= a.l0.dom());
    assert forall|x: Seq<u8>| #[trigger] a.l0.contains_key(x) implies a.settled(x)
        && a.l0[x].len() * 3 <= u64::MAX by {
        if x != h {
            assert(e.l0.contains_key(x));
            assert(e.settled(x));
        } else {
            assert(e.settled(x));
        }
    }
    assert forall|x: Seq<u8>| #[trigger] a.l1.contains_key(x) implies a.settled(x) by {
        assert(e.settled(x));
    }
}

impl LocalTierEngine {
    /// The oldest block of L0 that may leave it.
    fn oldest_loose(&self, one_shot_only: bool) -> (found: Option<Vec<u8>>)
        ensures
            match found {
                Some(v) => self@.l0_loose(self@.l0_order, one_shot_only).len() > 0 && v@
                    == self@.l0_loose(self@.l0_order, one_shot_only)[0],
                None => self@.l0_loose(self@.l0_order, one_shot_only).len() == 0,
            },
    {
        let ghost order = self@.l0_order;
        let mut i: usize = 0;
        assert(self@.l0_loose(order.take(0), one_shot_only).len() == 0) by {
            reveal(Seq::filter);
        }
        while i < self.l0_order.len()
            invariant
                i <= order.len() == self.l0_order@.len(),
                order == self@.l0_order,
                self@.l0_loose(order.take(i as int), one_shot_only).len() == 0,
            decreases order.len() - i,
        {
            let h = &self.l0_order[i];
            proof {
                lemma_loose_split(self@, order, one_shot_only, i as int);
                assert(order[i as int] == h@);
            }
            if self.pin_count(h.as_slice()) == 0 && self.has_durable_backing(h.as_slice()) && (
            !one_shot_only || self.one_shot.contains(h)) {
                return Some(h.dup());
            }
            i += 1;
        }
        assert(order.take(i as int) =~= order);
        None
    }

    /// Demotes a block out of L0.
    pub fn demote_l0(&mut self, h: &[u8]) -> (r: Result<u64, String>)
        requires
            old(self)@.wf(),
        ensures
            final(self)@ == old(self)@.demoted_l0(h@).0,
            keys::told(r) == old(self)@.demoted_l0(h@).1,
            final(self)@.wf(),
            old(self)@.arena_matches() ==> final(self)@.arena_matches(),
    {
        if self.pin_count(h) > 0 {
            return Err(text("demote_l0: pinned (lock_ref)"));
        }
        if !self.has_durable_backing(h) {
            return Err(text("demote_l0: need L2 or L3 durable backing"));
        }
        proof {
            lemma_l0_without(self@, h@);
        }
        let k = to_bytes(h);
        let n: u64 = match self.l0.remove(&k) {
            Some(b) => b.len() as u64,
            None => 0,
        };
        drop_key(&mut self.l0_order, &k);
        self.one_shot.remove(&k);
        assert(self@ =~= old(self)@.l0_without(h@));
        Ok(n)
    }

    /// Takes one block out of L0 if it is full: a one-shot block first.
    pub fn evict_l0_pressure(&mut self) -> (r: Result<Option<Vec<u8>>, String>)
        requires
            old(self)@.wf(),
        ensures
            final(self)@ == old(self)@.l0_evicted().0,
            match r {
                Ok(gone) => old(self)@.l0_evicted().1 == Ok::<_, Seq<char>>(keys::opt(gone)),
                Err(e) => old(self)@.l0_evicted().1 == Err::<Option<Seq<u8>>, _>(e@),
            },
            final(self)@.wf(),
            old(self)@.arena_matches() ==> final(self)@.arena_matches(),
            r is Ok ==> !final(self)@.l0_full() || old(self)@.caps.l0 == 0,
            forall|h: Seq<u8>| #[trigger]
                final(self)@.l0.contains_key(h) ==> old(self)@.l0.contains_key(h),
    {
        proof {
            lemma_ordered_len(self@.l0, self@.l0_order);
            lemma_l0_victim(self@);
        }
        if self.caps.l0 == 0 || self.l0.len() < self.caps.l0 {
            return Ok(None);
        }
        let victim = match self.oldest_loose(true) {
            Some(v) => v,
            None => match self.oldest_loose(false) {
                Some(v) => v,
                None => {
                    return Err(text("evict_l0: no durable unpinned victim (pin/writeback first)"));
                },
            },
        };
        proof {
            lemma_l0_without(self@, victim@);
        }
        match self.demote_l0(victim.as_slice()) {
            Ok(_) => Ok(Some(victim)),
            Err(e) => Err(e),
        }
    }

    /// Makes room for one block in L1: the oldest leaves. L1 is never published,
    /// so its evictions are no side effects.
    fn ensure_l1_room(&mut self)
        requires
            old(self)@.wf(),
        ensures
            final(self)@ == old(self)@.l1_roomy(),
    {
        proof {
            lemma_ordered_len(self@.l1, self@.l1_order);
            lemma_roomy(self@);
        }
        let cap: usize = self.caps.l1;
        if cap != 0 && self.l1.len() >= cap {
            let ghost order = self@.l1_order;
            if let Some(v) = self.l1_order.pop_front() {
                assert(v@ == order[0]);
                self.l1.remove(&v);
            }
            assert(self@.l1_order =~= order.skip(1));
        }
        assert(self@ =~= old(self)@.l1_roomy());
    }

    /// Promotes a block to L0, by way of L2 if only L3 holds it durably, and of
    /// L1. Returns the byte moves and the side effects.
    pub fn promote_to_l0(&mut self, h: &[u8]) -> (r: Result<(u64, TierSideEffects), String>)
        requires
            old(self)@.wf(),
            old(self)@.arena.next_seg < u64::MAX,
        ensures
            final(self)@ == old(self)@.promoted(h@).0,
            keys::seen(r) == old(self)@.promoted(h@).1,
            final(self)@.wf(),
            old(self)@.arena_matches() ==> final(self)@.arena_matches(),
            r is Ok ==> final(self)@.l0.contains_key(h@),
    {
        proof {
            if self@.arena_matches() {
                promotion_keeps_places(self@, h@);
            }
        }
        let ghost e = self@;
        let k = to_bytes(h);
        let mut effects = TierSideEffects::default();
        if self.l0.contains_key(&k) {
            proof {
                lemma_touched(e.l0_order, h@);
                assert(e.l0_order.contains(h@)) by {
                    assert(e.l0_order.to_set().contains(h@) == e.l0.dom().contains(h@));
                }
            }
            touch(&mut self.l0_order, &k);
            assert(self@ =~= e.promoted(h@).0);
            assert(self@.l0_order.to_set() =~= self@.l0.dom());
            return Ok((0, effects));
        }
        let bytes: Vec<u8> = match self.get(h) {
            Some(b) => to_bytes(b),
            None => {
                return Err(text("promote: block missing all tiers"));
            },
        };
        assert(bytes@.len() * 3 <= u64::MAX);
        assert(e.settled(h@));
        let n: u64 = self.estimate_promote_cost(h);
        let ghost mut shed: Seq<Seq<u8>> = Seq::empty();
        if !self.l2.contains_key(&k) && self.l3.contains_key(&k) {
            proof {
                assert(!e.l2_order.contains(h@)) by {
                    assert(e.l2_order.to_set().contains(h@) == e.l2.dom().contains(h@));
                }
                queue::lemma_without_absent(e.l2_order, h@);
            }
            self.l2.insert(to_bytes(h), bytes.dup());
            touch(&mut self.l2_order, &k);
            self.note_l2_present(h);
            let ghost put = self@;
            assert(put =~= e.l2_with(h@, bytes@));
            proof {
                lemma_l2_with(e, h@, bytes@);
            }
            match self.ensure_l2_cap() {
                Ok(victims) => {
                    let ghost gone = keys::views(victims@);
                    proof {
                        shed = gone;
                        lemma_victims(put);
                        lemma_shed(put, gone);
                        lemma_capped(put);
                        assert(put.settled(h@));
                    }
                    self.note_l2_all_absent(&victims);
                    assert(self@ =~= put.l2_capped(gone));
                    effects.l2_demoted_to_l3 = victims;
                },
                Err(msg) => {
                    self.l2.remove(&k);
                    assert(self@.l2 =~= e.l2);
                    proof {
                        let t = put.l2_order;
                        assert(t == e.l2_order.push(h@));
                        reveal(Seq::filter);
                        assert(t.drop_last() =~= e.l2_order);
                        assert(queue::without(t, h@) == queue::without(e.l2_order, h@));
                    }
                    drop_key(&mut self.l2_order, &k);
                    self.note_l2_absent(h);
                    assert(self@ =~= e.promoted(h@).0);
                    return Err(msg);
                },
            }
        }
        let ghost filled = self@;
        assert(filled == e.l2_filled(h@, bytes@).0);
        assert(effects@.l2_demoted_to_l3 =~= shed);
        assert(effects@.l0_demoted =~= Seq::empty());
        assert(filled.wf());
        assert(filled.settled(h@));
        proof {
            lemma_l1_with(filled, h@, bytes@);
        }
        if !self.l1.contains_key(&k) {
            self.ensure_l1_room();
            self.l1.insert(to_bytes(h), bytes.dup());
            touch(&mut self.l1_order, &k);
        }
        let ghost warm = self@;
        assert(warm =~= filled.l1_with(h@, bytes@));
        match self.evict_l0_pressure() {
            Err(msg) => {
                return Err(msg);
            },
            Ok(gone) => {
                if let Some(v) = gone {
                    effects.l0_demoted.push(v);
                    assert(effects@.l0_demoted =~= seq![v@]);
                }
            },
        }
        let ghost roomy = self@;
        proof {
            assert(roomy.settled(h@));
            lemma_l0_with(roomy, h@, bytes@);
        }
        self.l0.insert(to_bytes(h), bytes);
        touch(&mut self.l0_order, &k);
        assert(self@ =~= e.promoted(h@).0);
        Ok((n, effects))
    }

    /// Fills a block into L0 on a read miss; one that is there becomes the
    /// youngest.
    pub fn fill_read_miss(&mut self, h: &[u8]) -> (r: Result<(u64, TierSideEffects), String>)
        requires
            old(self)@.wf(),
            old(self)@.arena.next_seg < u64::MAX,
        ensures
            final(self)@ == old(self)@.promoted(h@).0,
            keys::seen(r) == old(self)@.promoted(h@).1,
            final(self)@.wf(),
            old(self)@.arena_matches() ==> final(self)@.arena_matches(),
            r is Ok ==> final(self)@.l0.contains_key(h@),
    {
        self.promote_to_l0(h)
    }

    /// Promotes with admission: a block with too few hits enters L0 one-shot and
    /// leaves it first.
    pub fn promote_to_l0_admitted(&mut self, h: &[u8]) -> (r: Result<
        (u64, TierSideEffects),
        String,
    >)
        requires
            old(self)@.wf(),
            old(self)@.arena.next_seg < u64::MAX,
        ensures
            final(self)@ == old(self)@.promoted_admitted(h@).0,
            keys::seen(r) == old(self)@.promoted_admitted(h@).1,
            final(self)@.wf(),
            old(self)@.arena_matches() ==> final(self)@.arena_matches(),
            r is Ok ==> final(self)@.l0.contains_key(h@),
    {
        let hot = self.hit_count(h) >= self.promote_admit_after;
        match self.promote_to_l0(h) {
            Err(msg) => Err(msg),
            Ok(moved) => {
                let ghost e = self@;
                if hot {
                    self.one_shot.remove(&to_bytes(h));
                } else {
                    self.one_shot.insert(to_bytes(h));
                }
                assert(self@ =~= old(self)@.promoted_admitted(h@).0);
                assert(self@.wf());
                Ok(moved)
            },
        }
    }

    /// Registers a promotion; the bytes move when it is finished. A block that is
    /// in flight is not registered twice.
    pub fn begin_promote(&mut self, h: &[u8]) -> (r: BeginPromote)
        ensures
            r == if old(self)@.l0.contains_key(h@) {
                BeginPromote::AlreadyL0
            } else if old(self)@.tier_of(h@) is None {
                BeginPromote::Missing
            } else if old(self)@.inflight.contains(h@) {
                BeginPromote::AlreadyInFlight
            } else {
                BeginPromote::Started
            },
            final(self)@ == if r == BeginPromote::Started {
                EngineView { inflight: old(self)@.inflight.insert(h@), ..old(self)@ }
            } else {
                old(self)@
            },
            old(self)@.wf() ==> final(self)@.wf(),
            old(self)@.arena_matches() ==> final(self)@.arena_matches(),
    {
        let k = to_bytes(h);
        if self.l0.contains_key(&k) {
            return BeginPromote::AlreadyL0;
        }
        if self.get(h).is_none() {
            return BeginPromote::Missing;
        }
        if !self.promote_inflight.insert(k) {
            assert(self@.inflight =~= old(self)@.inflight);
            assert(self@ =~= old(self)@);
            return BeginPromote::AlreadyInFlight;
        }
        BeginPromote::Started
    }

    /// Finishes a promotion, registered or not: the bytes move, with admission.
    pub fn finish_promote(&mut self, h: &[u8]) -> (r: Result<(u64, TierSideEffects), String>)
        requires
            old(self)@.wf(),
            old(self)@.arena.next_seg < u64::MAX,
        ensures
            final(self)@ == (EngineView {
                inflight: old(self)@.inflight.remove(h@),
                ..old(self)@
            }).promoted_admitted(h@).0,
            keys::seen(r) == (EngineView {
                inflight: old(self)@.inflight.remove(h@),
                ..old(self)@
            }).promoted_admitted(h@).1,
            final(self)@.wf(),
            old(self)@.arena_matches() ==> final(self)@.arena_matches(),
    {
        self.promote_inflight.remove(&to_bytes(h));
        assert(self@ =~= (EngineView {
            inflight: old(self)@.inflight.remove(h@),
            ..old(self)@
        }));
        assert(self@.wf());
        self.promote_to_l0_admitted(h)
    }

    /// Moves a block from L2 to L3.
    pub fn demote_l2_to_l3(&mut self, h: &[u8]) -> (r: Result<u64, String>)
        requires
            old(self)@.wf(),
        ensures
            final(self)@ == old(self)@.demoted_l2(h@).0,
            keys::told(r) == old(self)@.demoted_l2(h@).1,
            final(self)@.wf(),
            old(self)@.arena_matches() ==> final(self)@.arena_matches(),
    {
        proof {
            if self@.arena_matches() {
                moves_keep_places(self@, h@, 0, 0);
            }
        }
        let ghost e = self@;
        if self.pin_count(h) > 0 {
            return Err(text("demote_l2: pinned"));
        }
        let k = to_bytes(h);
        let bytes: Vec<u8> = match self.l2.remove(&k) {
            Some(b) => b,
            None => {
                assert(self@.l2 =~= e.l2);
                return Err(text("demote_l2: not on L2"));
            },
        };
        let n: u64 = bytes.len() as u64;
        proof {
            queue::lemma_without(e.l2_order, h@);
            queue::lemma_filter(e.l2_order, |y: Seq<u8>| y != h@);
        }
        drop_key(&mut self.l2_order, &k);
        self.l3.insert(k, bytes);
        self.note_l2_absent(h);
        assert(self@ =~= e.demoted_l2(h@).0);
        proof {
            let a = self@;
            assert(a.l2_order.to_set() =~= a.l2.dom());
            assert forall|x: Seq<u8>| #[trigger] a.l0.contains_key(x) implies a.settled(x) by {
                assert(e.settled(x));
            }
            assert forall|x: Seq<u8>| #[trigger] a.l1.contains_key(x) implies a.settled(x) by {
                assert(e.settled(x));
            }
            assert forall|x: Seq<u8>| #[trigger] a.l3.contains_key(x) implies a.l3[x].len() * 3
                <= u64::MAX by {
                assert(e.l2.contains_key(h@));
            }
        }
        Ok(n)
    }

    /// Forgets a block in every local tier. Other blocks that were shed on its
    /// account stay where they are.
    pub fn discard_settled(&mut self, h: &[u8])
        requires
            old(self)@.wf(),
        ensures
            final(self)@ == old(self)@.discarded(h@),
            final(self)@.wf(),
            old(self)@.arena_matches() ==> final(self)@.arena_matches(),
    {
        proof {
            if self@.arena_matches() {
                moves_keep_places(self@, h@, 0, 0);
            }
        }
        let ghost e = self@;
        let k = to_bytes(h);
        self.l0.remove(&k);
        self.l1.remove(&k);
        self.l2.remove(&k);
        self.l3.remove(&k);
        drop_key(&mut self.l0_order, &k);
        drop_key(&mut self.l1_order, &k);
        drop_key(&mut self.l2_order, &k);
        self.pins.remove(&k);
        self.one_shot.remove(&k);
        self.promote_inflight.remove(&k);
        self.hit_counts.remove(&k);
        self.note_l2_absent(h);
        assert(self@ =~= e.discarded(h@));
        proof {
            let a = self@;
            queue::lemma_without(e.l0_order, h@);
            queue::lemma_without(e.l1_order, h@);
            queue::lemma_without(e.l2_order, h@);
            queue::lemma_filter(e.l0_order, |y: Seq<u8>| y != h@);
            queue::lemma_filter(e.l1_order, |y: Seq<u8>| y != h@);
            queue::lemma_filter(e.l2_order, |y: Seq<u8>| y != h@);
            assert(a.l0_order.to_set() =~= a.l0.dom());
            assert(a.l1_order.to_set() =~= a.l1.dom());
            assert(a.l2_order.to_set() =~= a.l2.dom());
            assert forall|x: Seq<u8>| #[trigger] a.l0.contains_key(x) implies a.settled(x) by {
                assert(e.settled(x));
            }
            assert forall|x: Seq<u8>| #[trigger] a.l1.contains_key(x) implies a.settled(x) by {
                assert(e.settled(x));
            }
        }
    }

    /// Packs one L2 segment; refused while a block of it is pinned.
    pub fn compact_l2_segment(&mut self, segment_id: u64) -> (r: Result<Vec<Relocate>, String>)
        requires
            old(self)@.wf(),
        ensures
            final(self)@ == old(self)@.compacted(segment_id).0,
            match r {
                Ok(moves) => old(self)@.compacted(segment_id).1 == Ok::<_, Seq<char>>(
                    keys::views(moves@),
                ),
                Err(e) => old(self)@.compacted(segment_id).1 == Err::<Seq<RelocateView>, _>(e@),
            },
            final(self)@.wf(),
            old(self)@.arena_matches() ==> final(self)@.arena_matches(),
    {
        proof {
            if self@.arena_matches() {
                moves_keep_places(self@, Seq::empty(), segment_id, 0);
            }
        }
        let ghost e = self@;
        let blocks = self.l2_arena.hashes_in_segment(segment_id);
        let ghost held = keys::views(blocks@);
        let mut i: usize = 0;
        while i < blocks.len()
            invariant
                self@ == e,
                e.wf(),
                i <= blocks@.len(),
                held == keys::views(blocks@),
                held == if e.arena.segments.contains_key(segment_id) {
                    segment::live(e.arena.segments[segment_id])
                } else {
                    Seq::empty()
                },
                forall|j: int| 0 <= j < i ==> e.pin_count(#[trigger] held[j]) == 0,
            decreases blocks@.len() - i,
        {
            assert(held.len() == blocks@.len());
            assert(held[i as int] == blocks@[i as int]@);
            if self.pin_count(blocks[i].as_slice()) > 0 {
                assert(e.segment_pinned(segment_id)) by {
                    assert(e.pin_count(segment::live(e.arena.segments[segment_id])[i as int]) > 0);
                }
                return Err(text("compact: pinned block in segment"));
            }
            i += 1;
        }
        assert(!e.segment_pinned(segment_id));
        let r = self.l2_arena.compact(segment_id);
        assert(self@ =~= e.compacted(segment_id).0);
        r
    }

    /// Moves a block within the L2 layout.
    pub fn colocate_l2_move(&mut self, hash: &[u8], dest_segment: u64, dest_offset: u64) -> (r:
        Result<Relocate, String>)
        requires
            old(self)@.wf(),
            dest_segment < u64::MAX,
        ensures
            final(self)@ == old(self)@.colocated(hash@, dest_segment, dest_offset).0,
            keys::seen(r) == old(self)@.colocated(hash@, dest_segment, dest_offset).1,
            final(self)@.wf(),
            old(self)@.arena_matches() ==> final(self)@.arena_matches(),
    {
        proof {
            if self@.arena_matches() {
                moves_keep_places(self@, hash@, dest_segment, dest_offset);
            }
        }
        if self.pin_count(hash) > 0 {
            return Err(text("colocate: pinned"));
        }
        if !self.is_l2_durable(hash) {
            return Err(text("colocate: not on L2"));
        }
        let r = self.l2_arena.relocate(hash, dest_segment, dest_offset);
        assert(self@ =~= old(self)@.colocated(hash@, dest_segment, dest_offset).0);
        r
    }
}

proof fn lemma_roomy(e: EngineView)
    requires
        e.sound(),
    ensures
        e.l1_excess() == 0 || e.l1_excess() == 1,
        e.l1_excess() == 1 ==> e.l1_order.len() > 0 && e.l1_roomy().l1 == e.l1.remove(
            e.l1_order[0],
        ),
        e.l1_excess() == 0 ==> e.l1_roomy() == e,
{
    let r = e.l1_roomy();
    let n = e.l1_excess();
    let gone = e.l1_order.take(n);
    if n == 0 {
        assert(gone =~= Seq::empty());
        assert(r.l1 =~= e.l1);
        assert(r.l1_order =~= e.l1_order);
        assert(r =~= e);
    } else {
        assert(gone =~= seq![e.l1_order[0]]);
        assert(gone[0] == e.l1_order[0]);
        assert(r.l1 =~= e.l1.remove(e.l1_order[0]));
    }
}


proof fn lemma_freed_all_seg(a: ArenaView, blocks: Seq<Seq<u8>>)
    ensures
        freed_all(a, blocks).next_seg == a.next_seg,
    decreases blocks.len(),
{
    if blocks.len() > 0 {
        lemma_freed_all_seg(a, blocks.drop_last());
    }
}

/// A write-back opens at most one segment.
pub proof fn put_opens_one_segment(e: EngineView, h: Seq<u8>, bytes: Seq<u8>)
    requires
        e.arena.next_seg < u64::MAX,
        e.wf(),
    ensures
        e.put_durable(h, bytes).0.arena.next_seg <= e.arena.next_seg + 1,
{
    match e.arena.lowest_open() {
        Some(id) => {
            segment::lemma_lowest_open_exists(e.arena);
            assert(e.arena.segments.contains_key(id));
        },
        None => {},
    }
    let put = e.l2_with(h, bytes);
    assert(put.arena.next_seg <= e.arena.next_seg + 1);
    if put.l2_victims() is Ok {
        lemma_freed_all_seg(put.arena, put.l2_victims()->Ok_0);
    }
}

/// Freeing places keeps the arena sound.
proof fn lemma_freed_all_wf(a: ArenaView, blocks: Seq<Seq<u8>>)
    requires
        a.wf(),
    ensures
        freed_all(a, blocks).wf(),
    decreases blocks.len(),
{
    if blocks.len() > 0 {
        lemma_freed_all_wf(a, blocks.drop_last());
        segment::lemma_free(freed_all(a, blocks.drop_last()), blocks.last());
    }
}

/// A write-back keeps the engine sound.
pub proof fn put_keeps_wf(e: EngineView, h: Seq<u8>, bytes: Seq<u8>)
    requires
        e.wf(),
        bytes.len() * 3 <= u64::MAX,
        e.arena.next_seg < u64::MAX,
    ensures
        e.put_durable(h, bytes).0.wf(),
{
    segment::allocate_keeps_wf(e.arena, h);
    lemma_l2_with(e, h, bytes);
    let put = e.l2_with(h, bytes);
    segment::lemma_free(put.arena, h);
    if put.l2_victims() is Ok {
        let gone = put.l2_victims()->Ok_0;
        lemma_victims(put);
        lemma_shed(put, gone);
        lemma_capped(put);
        lemma_freed_all_wf(put.arena, gone);
    }
}

/// Where nothing is pinned and L2 is within its capacity, a block finds room in L2, and
/// at most one leaves for it.
pub proof fn one_block_leaves_for_one(e: EngineView, h: Seq<u8>, bytes: Seq<u8>)
    requires
        ordered(e.l2, e.l2_order),
        forall|x: Seq<u8>| #[trigger] e.pin_count(x) == 0,
        e.caps.l2 == 0 || e.l2.len() <= e.caps.l2,
    ensures
        ({
            let put = e.l2_with(h, bytes);
            &&& put.l2_victims() is Ok
            &&& put.l2_victims()->Ok_0.len() <= 1
            &&& e.caps.l2 == 0 || put.l2_capped(put.l2_victims()->Ok_0).l2.len() <= e.caps.l2
        }),
{
    let put = e.l2_with(h, bytes);
    lemma_touched(e.l2_order, h);
    assert(put.l2_order.to_set() =~= put.l2.dom());
    lemma_ordered_len(e.l2, e.l2_order);
    lemma_ordered_len(put.l2, put.l2_order);
    assert forall|x: Seq<u8>| #[trigger] put.pin_count(x) == 0 by {
        assert(e.pin_count(x) == 0);
    }
    let f = |x: Seq<u8>| put.pin_count(x) == 0;
    assert forall|i: int| 0 <= i < put.l2_order.len() implies f(#[trigger] put.l2_order[i]) by {
    }
    queue::lemma_filter_all(put.l2_order, f);
    lemma_victims(put);
    lemma_capped(put);
}

/// A promotion opens at most one segment.
pub proof fn promotion_opens_one_segment(e: EngineView, h: Seq<u8>)
    requires
        e.arena.next_seg < u64::MAX,
        e.wf(),
    ensures
        e.promoted(h).0.arena.next_seg <= e.arena.next_seg + 1,
{
    let a = e.laid_out(h).arena;
    match e.arena.lowest_open() {
        Some(id) => {
            segment::lemma_lowest_open_exists(e.arena);
            assert(e.arena.segments.contains_key(id));
        },
        None => {},
    }
    assert(a.next_seg <= e.arena.next_seg + 1);
    if !e.l0.contains_key(h) && e.read(h) is Some {
        let bytes = e.read(h)->0;
        let put = e.l2_with(h, bytes);
        if put.l2_victims() is Ok {
            lemma_freed_all_seg(put.arena, put.l2_victims()->Ok_0);
        }
    }
}

/// A write-back that succeeds leaves the block durable: L2 holds the new bytes,
/// or L3 holds the block because L2 shed it at once.
pub proof fn put_is_durable(e: EngineView, h: Seq<u8>, bytes: Seq<u8>)
    requires
        e.wf(),
        e.put_durable(h, bytes).1 is Ok,
    ensures
        e.put_durable(h, bytes).0.settled(h),
        e.put_durable(h, bytes).1->Ok_0.0 == LocalTier::L2 ==> e.put_durable(h, bytes).0.l2[h]
            == bytes,
        e.put_durable(h, bytes).1->Ok_0.0 == LocalTier::L3 ==> e.put_durable(h, bytes).0.l3[h]
            == if e.l3.contains_key(h) {
            e.l3[h]
        } else {
            bytes
        },
{
    let put = e.l2_with(h, bytes);
    let victims = put.l2_victims()->Ok_0;
    assert(victims.to_set().contains(h) == victims.contains(h));
}

/// A write-back loses no other block: what was durable stays durable, what left L2
/// was not pinned, and bytes stay as they are. Only a block that L2 sheds, and of
/// which L3 had other bytes, is read differently from then on.
pub proof fn put_keeps_others_durable(e: EngineView, h: Seq<u8>, bytes: Seq<u8>, x: Seq<u8>)
    requires
        e.wf(),
        e.settled(x),
    ensures
        e.put_durable(h, bytes).0.settled(x),
        e.pin_count(x) > 0 && e.l2.contains_key(x) ==> e.put_durable(
            h,
            bytes,
        ).0.l2.contains_key(x),
        x != h && e.put_durable(h, bytes).0.tier_of(x) == e.tier_of(x) ==> e.put_durable(
            h,
            bytes,
        ).0.read(x) == e.read(x),
        x != h && e.coherent(x) ==> e.put_durable(h, bytes).0.read(x) == e.read(x)
            && e.put_durable(h, bytes).0.coherent(x),
{
    let put = e.l2_with(h, bytes);
    lemma_touched(e.l2_order, h);
    assert(put.l2_order.to_set() =~= put.l2.dom());
    if put.l2_victims() is Ok {
        lemma_victims(put);
        let victims = put.l2_victims()->Ok_0;
        assert(victims.to_set().contains(x) == victims.contains(x));
        assert(put.settled(x));
    }
}

/// A write-back that succeeds leaves L2 within its capacity.
pub proof fn put_respects_capacity(e: EngineView, h: Seq<u8>, bytes: Seq<u8>)
    requires
        e.wf(),
        e.put_durable(h, bytes).1 is Ok,
        e.caps.l2 != 0,
    ensures
        e.put_durable(h, bytes).0.l2.len() <= e.caps.l2,
{
    let put = e.l2_with(h, bytes);
    lemma_touched(e.l2_order, h);
    assert(put.l2_order.to_set() =~= put.l2.dom());
    lemma_capped(put);
}

/// A write-back that fails leaves every tier, order, pin and count as it was.
pub proof fn refused_put_changes_nothing(e: EngineView, h: Seq<u8>, bytes: Seq<u8>)
    requires
        e.put_durable(h, bytes).1 is Err,
    ensures
        (EngineView { arena: e.arena, ..e.put_durable(h, bytes).0 }) == e,
{
}

/// A promotion that succeeds puts the bytes that the engine served for the block
/// into L0, and never takes a pinned block out of it.
pub proof fn promotion_serves_same_bytes(e: EngineView, h: Seq<u8>, x: Seq<u8>)
    requires
        e.wf(),
        e.promoted(h).1 is Ok,
    ensures
        e.promoted(h).0.l0.contains_key(h),
        e.promoted(h).0.read(h) == e.read(h),
        e.pin_count(x) > 0 && e.l0.contains_key(x) ==> e.promoted(h).0.l0.contains_key(x),
{
    if !e.l0.contains_key(h) {
        let bytes = e.read(h)->0;
        let warm = e.l2_filled(h, bytes).0.l1_with(h, bytes);
        lemma_l0_victim(warm);
    }
}

/// A promotion, whether it succeeds or not, loses no block: what was durable stays
/// durable, a pinned block stays in L2, and bytes stay as they are. Only a block that
/// leaves its nearest tier, and of which another had other bytes, is read differently
/// from then on.
pub proof fn promotion_keeps_others_durable(e: EngineView, h: Seq<u8>, x: Seq<u8>)
    requires
        e.wf(),
        e.settled(x),
    ensures
        e.promoted(h).0.settled(x),
        e.pin_count(x) > 0 && e.l2.contains_key(x) ==> e.promoted(h).0.l2.contains_key(x),
        e.promoted(h).0.tier_of(x) == e.tier_of(x) ==> e.promoted(h).0.read(x) == e.read(x),
        e.coherent(x) ==> e.promoted(h).0.read(x) == e.read(x) && e.promoted(h).0.coherent(x),
{
    if !e.l0.contains_key(h) && e.read(h) is Some {
        let put = e.l2_with(h, e.read(h)->0);
        lemma_touched(e.l2_order, h);
        assert(put.l2_order.to_set() =~= put.l2.dom());
        if put.l2_victims() is Ok {
            lemma_victims(put);
            let victims = put.l2_victims()->Ok_0;
            assert(victims.to_set().contains(x) == victims.contains(x));
            assert(put.settled(x));
        }
    }
}

/// Outside a fill from L3 a block is durable in one tier only: a write-back of
/// a block that L3 does not hold and a demotion leave none in both.
pub proof fn durable_tiers_stay_apart(e: EngineView, h: Seq<u8>, bytes: Seq<u8>)
    requires
        e.l2.dom().disjoint(e.l3.dom()),
    ensures
        !e.l3.contains_key(h) ==> e.put_durable(h, bytes).0.l2.dom().disjoint(
            e.put_durable(h, bytes).0.l3.dom(),
        ),
        e.demoted_l2(h).0.l2.dom().disjoint(e.demoted_l2(h).0.l3.dom()),
{
    let put = e.l2_with(h, bytes);
    if !e.l3.contains_key(h) && put.l2_victims() is Ok {
        let gone = put.l2_victims()->Ok_0;
        let after = put.l2_capped(gone);
        assert forall|x: Seq<u8>| after.l2.dom().contains(x) implies !after.l3.dom().contains(x) by {
            assert(put.l2.dom().contains(x) && !gone.to_set().contains(x));
            assert(x == h || e.l2.dom().contains(x));
        }
    }
}

proof fn lemma_freed_all_placed(a: ArenaView, blocks: Seq<Seq<u8>>)
    ensures
        freed_all(a, blocks).placed.dom() == a.placed.dom().difference(blocks.to_set()),
    decreases blocks.len(),
{
    if blocks.len() == 0 {
        assert(a.placed.dom().difference(blocks.to_set()) =~= a.placed.dom());
    } else {
        let init = blocks.drop_last();
        lemma_freed_all_placed(a, init);
        assert(blocks =~= init.push(blocks.last()));
        init.lemma_push_to_set_commute(blocks.last());
        assert(blocks.to_set() == init.to_set().insert(blocks.last()));
        assert(freed_all(a, blocks).placed.dom() =~= a.placed.dom().difference(blocks.to_set()));
    }
}

/// Putting a block into L2 and capping L2 keeps places and blocks together.
proof fn lemma_capped_places(e: EngineView, h: Seq<u8>, bytes: Seq<u8>, gone: Seq<Seq<u8>>)
    requires
        e.arena_matches(),
    ensures
        e.l2_with(h, bytes).arena_matches(),
        e.l2_with(h, bytes).l2_capped(gone).arena_matches(),
{
    let put = e.l2_with(h, bytes);
    assert(put.arena.placed.dom() =~= put.l2.dom());
    lemma_freed_all_placed(put.arena, gone);
    assert(put.l2_capped(gone).arena.placed.dom() =~= put.l2_capped(gone).l2.dom());
}

/// A write-back keeps places and blocks of L2 together.
pub proof fn put_keeps_places(e: EngineView, h: Seq<u8>, bytes: Seq<u8>)
    requires
        e.arena_matches(),
    ensures
        e.put_durable(h, bytes).0.arena_matches(),
{
    let put = e.l2_with(h, bytes);
    assert(e.arena.placed.dom().contains(h) == e.l2.dom().contains(h));
    match put.l2_victims() {
        Ok(gone) => {
            lemma_capped_places(e, h, bytes, gone);
        },
        Err(_) => {
            assert(e.put_durable(h, bytes).0.arena.placed.dom() =~= e.l2.dom());
        },
    }
}

/// A promotion keeps places and blocks of L2 together.
pub proof fn promotion_keeps_places(e: EngineView, h: Seq<u8>)
    requires
        e.arena_matches(),
    ensures
        e.promoted(h).0.arena_matches(),
        e.promoted_admitted(h).0.arena_matches(),
{
    if !e.l0.contains_key(h) && e.read(h) is Some {
        let bytes = e.read(h)->0;
        let put = e.l2_with(h, bytes);
        let filled = e.l2_filled(h, bytes).0;
        assert(e.arena.placed.dom().contains(h) == e.l2.dom().contains(h));
        if !e.l2.contains_key(h) && e.l3.contains_key(h) {
            match put.l2_victims() {
                Ok(gone) => {
                    lemma_capped_places(e, h, bytes, gone);
                },
                Err(_) => {
                    assert(filled.arena.placed.dom() =~= e.l2.dom());
                },
            }
        }
        assert(filled.arena_matches());
    }
}

/// Demotion out of L2, discarding, packing and moves keep places and blocks of L2
/// together.
pub proof fn moves_keep_places(e: EngineView, h: Seq<u8>, id: u64, offset: u64)
    requires
        e.arena.wf(),
        e.arena_matches(),
    ensures
        e.demoted_l2(h).0.arena_matches(),
        e.discarded(h).arena_matches(),
        e.compacted(id).0.arena_matches(),
        e.colocated(h, id, offset).0.arena_matches(),
{
    assert(e.arena.placed.dom().contains(h) == e.l2.dom().contains(h));
    assert(e.arena.free(h).placed.dom() =~= e.l2.remove(h).dom());
    assert(e.demoted_l2(h).0.arena_matches());
    segment::moves_keep_blocks(e.arena, h, id, offset);
}

/// Finishing a promotion is the admitted promotion, whether it was begun or not: result,
/// tiers, bytes, pins, counts and marks are the same. Besides, the block is no longer
/// in flight, also where the promotion fails.
pub proof fn finishing_is_promoting(e: EngineView, h: Seq<u8>)
    ensures
        ({
            let landed = EngineView { inflight: e.inflight.remove(h), ..e };
            let (f, r) = landed.promoted_admitted(h);
            let (g, t) = e.promoted_admitted(h);
            &&& r == t
            &&& f == (EngineView { inflight: e.inflight.remove(h), ..g })
            &&& g.inflight == e.inflight
            &&& e.inflight.finite() ==> f.inflight.len() == if e.inflight.contains(h) {
                e.inflight.len() - 1
            } else {
                e.inflight.len() as int
            }
        }),
{
    let landed = EngineView { inflight: e.inflight.remove(h), ..e };
    if !e.inflight.contains(h) {
        assert(e.inflight.remove(h) =~= e.inflight);
    }
    if !e.l0.contains_key(h) && e.read(h) is Some {
        let bytes = e.read(h)->0;
        assert(landed.read(h) == e.read(h));
        let a = e.l2_with(h, bytes);
        let b = landed.l2_with(h, bytes);
        assert(b == EngineView { inflight: landed.inflight, ..a });
        lemma_flight_sheds_nothing(a, landed.inflight);
        let x = e.l2_filled(h, bytes).0;
        let y = landed.l2_filled(h, bytes).0;
        assert(y == EngineView { inflight: landed.inflight, ..x });
        let u = x.l1_with(h, bytes);
        let v = y.l1_with(h, bytes);
        assert(v == EngineView { inflight: landed.inflight, ..u });
        lemma_flight_sheds_nothing(u, landed.inflight);
    }
}

/// What is in flight bears on no victim.
proof fn lemma_flight_sheds_nothing(e: EngineView, inflight: Set<Seq<u8>>)
    ensures
        ({
            let f = EngineView { inflight, ..e };
            f.l2_victims() == e.l2_victims() && f.l0_victim() == e.l0_victim()
        }),
{
    let f = EngineView { inflight, ..e };
    queue::lemma_filter_agree(
        e.l2_order,
        |h: Seq<u8>| f.pin_count(h) == 0,
        |h: Seq<u8>| e.pin_count(h) == 0,
    );
    assert(f.unpinned(e.l2_order) == e.unpinned(e.l2_order));
    lemma_flight_loosens_nothing(e, inflight, true);
    lemma_flight_loosens_nothing(e, inflight, false);
}

proof fn lemma_flight_loosens_nothing(e: EngineView, inflight: Set<Seq<u8>>, one_shot_only: bool)
    ensures
        (EngineView { inflight, ..e }).l0_loose(e.l0_order, one_shot_only) == e.l0_loose(
            e.l0_order,
            one_shot_only,
        ),
{
    let f = EngineView { inflight, ..e };
    queue::lemma_filter_agree(
        e.l0_order,
        |h: Seq<u8>|
            f.pin_count(h) == 0 && f.settled(h) && (one_shot_only ==> f.one_shot.contains(h)),
        |h: Seq<u8>|
            e.pin_count(h) == 0 && e.settled(h) && (one_shot_only ==> e.one_shot.contains(h)),
    );
}

/// As long as some one-shot block may leave L0, none but a one-shot block does.
pub proof fn one_shot_leaves_first(e: EngineView, x: Seq<u8>)
    requires
        e.wf(),
        e.one_shot.contains(x),
        e.pin_count(x) == 0,
    ensures
        e.l0_victim() is Some,
        e.one_shot.contains(e.l0_victim()->0),
{
    assert(e.l0.dom().contains(x));
    assert(e.l0.contains_key(x));
    assert(e.l0_order.to_set().contains(x));
    let q = e.l0_loose(e.l0_order, true);
    queue::lemma_filter(
        e.l0_order,
        |h: Seq<u8>|
            e.pin_count(h) == 0 && e.settled(h) && (true ==> e.one_shot.contains(h)),
    );
    assert(q.contains(x));
    assert(q.contains(q[0]));
}

/// Undoing a pin restores the pins.
pub proof fn unpin_undoes_pin(e: EngineView, h: Seq<u8>)
    requires
        e.wf(),
        e.pin_count(h) < u32::MAX,
    ensures
        ({
            let pinned = e.pins.insert(h, (e.pin_count(h) + 1) as u32);
            (if pinned[h] <= 1 {
                pinned.remove(h)
            } else {
                pinned.insert(h, (pinned[h] - 1) as u32)
            }) == e.pins
        }),
{
    let pinned = e.pins.insert(h, (e.pin_count(h) + 1) as u32);
    if e.pins.contains_key(h) {
        assert(pinned.insert(h, (pinned[h] - 1) as u32) =~= e.pins);
    } else {
        assert(pinned.remove(h) =~= e.pins);
    }
}

/// A discarded block is in no tier, and every other block is where it was.
pub proof fn discard_is_total(e: EngineView, h: Seq<u8>, x: Seq<u8>)
    ensures
        e.discarded(h).tier_of(h) is None,
        e.discarded(h).pin_count(h) == 0,
        x != h ==> e.discarded(h).tier_of(x) == e.tier_of(x) && e.discarded(h).read(x) == e.read(x),
{
}

/// Blocks other than those freed keep their places.
proof fn lemma_freed_all_others(a: ArenaView, blocks: Seq<Seq<u8>>, x: Seq<u8>)
    ensures
        freed_all(a, blocks).placed.contains_key(x) ==> a.placed.contains_key(x)
            && freed_all(a, blocks).placed[x] == a.placed[x],
    decreases blocks.len(),
{
    if blocks.len() > 0 {
        lemma_freed_all_others(a, blocks.drop_last(), x);
    }
}

/// A promotion that succeeds tells what it did to the other blocks: a block left L0, or
/// left L2 for L3, exactly where the side effects list it. L0 gains the block itself and
/// no other, and no block that stays in the layout of L2 moves within it.
pub proof fn promotion_tells_its_effects(e: EngineView, h: Seq<u8>, x: Seq<u8>)
    requires
        e.wf(),
        e.promoted(h).1 is Ok,
    ensures
        ({
            let f = e.promoted(h).0;
            let fx = e.promoted(h).1->Ok_0.1;
            &&& f.l0.contains_key(x) <==> (x == h || (e.l0.contains_key(x)
                && !fx.l0_demoted.contains(x)))
            &&& fx.l0_demoted.contains(x) ==> e.l0.contains_key(x) && !f.l0.contains_key(x)
            &&& e.l2.contains_key(x) && !f.l2.contains_key(x) ==> fx.l2_demoted_to_l3.contains(x)
            &&& fx.l2_demoted_to_l3.contains(x) ==> !f.l2.contains_key(x) && f.l3.contains_key(x)
            &&& f.l2.contains_key(x) && !e.l2.contains_key(x) ==> x == h
            &&& f.l3.contains_key(x) && !e.l3.contains_key(x) ==> fx.l2_demoted_to_l3.contains(x)
            &&& e.l3.contains_key(x) ==> f.l3.contains_key(x) && f.l3[x] == e.l3[x]
            &&& e.arena.placed.contains_key(x) && f.arena.placed.contains_key(x)
                ==> f.arena.placed[x] == e.arena.placed[x]
        }),
{
    if e.l0.contains_key(h) {
        lemma_touched(e.l0_order, h);
    } else {
        let bytes = e.read(h)->0;
        let put = e.l2_with(h, bytes);
        lemma_touched(e.l2_order, h);
        assert(put.l2_order.to_set() =~= put.l2.dom());
        let filled = e.l2_filled(h, bytes).0;
        let warm = filled.l1_with(h, bytes);
        if !(e.l2.contains_key(h) || !e.l3.contains_key(h)) {
            let victims = put.l2_victims()->Ok_0;
            lemma_victims(put);
            assert(victims.to_set().contains(x) == victims.contains(x));
            lemma_freed_all_others(put.arena, victims, x);
            if victims.contains(x) {
                assert(put.l2.contains_key(x));
            }
        }
        lemma_l0_victim(warm);
        if warm.l0_victim() is Some {
            let v = warm.l0_victim()->0;
            assert(warm.l0_order.to_set().contains(v));
            assert(e.l0.contains_key(v));
            assert(seq![v].contains(x) == (v == x)) by {
                assert(seq![v][0] == v);
            }
        }
    }
}

/// A promotion costs the block's size once for each tier that gains it: all in all the
/// bytes that were written.
pub proof fn promotion_costs_what_it_writes(e: EngineView, h: Seq<u8>)
    requires
        e.wf(),
        e.promoted(h).1 is Ok,
        !e.promoted(h).1->Ok_0.1.l2_demoted_to_l3.contains(h),
    ensures
        ({
            let f = e.promoted(h).0;
            let gained_l0: nat = if !e.l0.contains_key(h) && f.l0.contains_key(h) {
                1
            } else {
                0
            };
            let gained_l1: nat = if !e.l1.contains_key(h) && f.l1.contains_key(h) {
                1
            } else {
                0
            };
            let gained_l2: nat = if !e.l2.contains_key(h) && f.l2.contains_key(h) {
                1
            } else {
                0
            };
            e.promoted(h).1->Ok_0.0 == (gained_l0 + gained_l1 + gained_l2) * e.read(h)->0.len()
        }),
{
    if !e.l0.contains_key(h) {
        let bytes = e.read(h)->0;
        let put = e.l2_with(h, bytes);
        let victims = put.l2_victims()->Ok_0;
        assert(victims.to_set().contains(h) == victims.contains(h));
        assert(e.l1.contains_key(h) ==> e.settled(h));
        assert(e.l1.contains_key(h) ==> e.l1[h].len() * 3 <= u64::MAX);
        assert(e.l2.contains_key(h) ==> e.l2[h].len() * 3 <= u64::MAX);
        assert(e.l3.contains_key(h) ==> e.l3[h].len() * 3 <= u64::MAX);
        let n = bytes.len();
        assert(1 * n == n && 2 * n == n * 2 && 3 * n == n * 3) by (nonlinear_arith);
    } else {
        assert(0 * e.read(h)->0.len() == 0) by (nonlinear_arith);
    }
}

/// A write-back changes L2 and L3 alone: the block is new in one of them, in the one that
/// the answer names, and the blocks listed as shed went from L2 to L3 with their bytes.
pub proof fn put_tells_its_effects(e: EngineView, h: Seq<u8>, bytes: Seq<u8>, x: Seq<u8>)
    requires
        e.wf(),
        e.put_durable(h, bytes).1 is Ok,
    ensures
        ({
            let f = e.put_durable(h, bytes).0;
            let (tier, fx) = e.put_durable(h, bytes).1->Ok_0;
            let was: Option<Seq<u8>> = if x == h {
                Some(bytes)
            } else if e.l2.contains_key(x) {
                Some(e.l2[x])
            } else {
                None
            };
            &&& f.l0 == e.l0 && f.l1 == e.l1 && f.pins == e.pins && f.hits == e.hits
            &&& fx.l0_demoted.len() == 0
            &&& f.l2.contains_key(x) <==> was is Some && !fx.l2_demoted_to_l3.contains(x)
            &&& f.l2.contains_key(x) ==> f.l2[x] == was->0
            &&& fx.l2_demoted_to_l3.contains(x) ==> was is Some && f.l3.contains_key(x) && f.l3[x]
                == (if e.l3.contains_key(x) {
                e.l3[x]
            } else {
                was->0
            })
            &&& !fx.l2_demoted_to_l3.contains(x) ==> (f.l3.contains_key(x) == e.l3.contains_key(x)
                && (e.l3.contains_key(x) ==> f.l3[x] == e.l3[x]))
            &&& tier == (if f.l2.contains_key(h) {
                LocalTier::L2
            } else {
                LocalTier::L3
            })
            &&& e.arena.placed.contains_key(x) && f.arena.placed.contains_key(x)
                ==> f.arena.placed[x] == e.arena.placed[x]
        }),
{
    let put = e.l2_with(h, bytes);
    lemma_touched(e.l2_order, h);
    assert(put.l2_order.to_set() =~= put.l2.dom());
    let victims = put.l2_victims()->Ok_0;
    lemma_victims(put);
    assert(victims.to_set().contains(x) == victims.contains(x));
    assert(victims.to_set().contains(h) == victims.contains(h));
    lemma_freed_all_others(put.arena, victims, x);
    if victims.contains(x) {
        assert(put.l2.contains_key(x));
    }
}

/// Of two blocks in an order that may leave L2, the one that goes first stands first.
proof fn lemma_oldest_first(e: EngineView, s: Seq<Seq<u8>>, n: int, i: int, j: int)
    requires
        s.no_duplicates(),
        0 <= n <= e.unpinned(s).len(),
        0 <= i < j < s.len(),
        e.pin_count(s[i]) == 0,
        e.unpinned(s).take(n).contains(s[j]),
    ensures
        e.unpinned(s).take(n).contains(s[i]),
{
    lemma_unpinned_split(e, s, i);
    lemma_unpinned_split(e, s, i + 1);
    lemma_unpinned_split(e, s, j);
    let p = |h: Seq<u8>| e.pin_count(h) == 0;
    let all = e.unpinned(s);
    let before = e.unpinned(s.take(i));
    assert(e.unpinned(s.take(i + 1)) == before.push(s[i]));
    assert(all[before.len() as int] == s[i]);
    let t = all.take(n);
    let b = choose|b: int| 0 <= b < t.len() && t[b] == s[j];
    assert(all[b] == s[j]);
    if b < before.len() {
        assert(before[b] == s[j]);
        queue::lemma_filter(s.take(i), p);
        assert(before.contains(s[j]));
        assert(s.take(i).contains(s[j]));
        let c = choose|c: int| 0 <= c < i && s.take(i)[c] == s[j];
        assert(s[c] == s[j]);
    }
    assert(t[before.len() as int] == s[i]);
}

/// L2 sheds its oldest blocks: where a block that was in L2 is shed, every older block
/// that is not pinned is shed with it, and no more than bring L2 within capacity.
pub proof fn oldest_blocks_are_shed(e: EngineView, h: Seq<u8>, bytes: Seq<u8>, i: int, j: int)
    requires
        e.wf(),
        e.put_durable(h, bytes).1 is Ok,
        0 <= i < j < e.l2_order.len(),
        e.l2_order[i] != h,
        e.pin_count(e.l2_order[i]) == 0,
        e.put_durable(h, bytes).1->Ok_0.1.l2_demoted_to_l3.contains(e.l2_order[j]),
    ensures
        e.put_durable(h, bytes).1->Ok_0.1.l2_demoted_to_l3.contains(e.l2_order[i]),
        e.caps.l2 > 0,
        e.put_durable(h, bytes).0.l2.len() == e.caps.l2,
{
    let put = e.l2_with(h, bytes);
    lemma_touched(e.l2_order, h);
    assert(put.l2_order.to_set() =~= put.l2.dom());
    lemma_victims(put);
    lemma_capped(put);
    let victims = put.l2_victims()->Ok_0;
    assert(victims.len() > 0);
    let s = put.l2_order;
    let rest = queue::without(e.l2_order, h);
    queue::lemma_without(e.l2_order, h);
    let (a, b) = lemma_without_keeps_order(e.l2_order, h, i, j);
    lemma_ordered_len(put.l2, put.l2_order);
    let f = put.l2_to_l3(victims);
    queue::lemma_except(put.l2_order, victims);
    victims.unique_seq_to_set();
    assert(victims.to_set().subset_of(put.l2.dom())) by {
        assert forall|x: Seq<u8>| victims.to_set().contains(x) implies put.l2.dom().contains(x) by {
            assert(victims.contains(x));
        }
    }
    put.l2.lemma_remove_keys_len(victims.to_set());
    assert(s[a] == e.l2_order[i]);
    if e.l2_order[j] == h {
        assert(s[s.len() - 1] == h);
        lemma_oldest_first(put, s, put.l2_excess(), a, s.len() - 1);
    } else {
        assert(s[b] == e.l2_order[j]);
        lemma_oldest_first(put, s, put.l2_excess(), a, b);
    }
}

/// Taking a block out of an order keeps the order of the others.
proof fn lemma_without_keeps_order(s: Seq<Seq<u8>>, h: Seq<u8>, i: int, j: int) -> (r: (int, int))
    requires
        s.no_duplicates(),
        0 <= i < j < s.len(),
        s[i] != h,
    ensures
        0 <= r.0 < queue::without(s, h).len(),
        queue::without(s, h)[r.0] == s[i],
        s[j] != h ==> r.0 < r.1 < queue::without(s, h).len() && queue::without(s, h)[r.1] == s[j],
{
    if s.contains(h) {
        let k = choose|k: int| 0 <= k < s.len() && s[k] == h;
        queue::lemma_without_unique(s, k);
        let a = if i < k {
            i
        } else {
            i - 1
        };
        let b = if j < k {
            j
        } else {
            j - 1
        };
        (a, b)
    } else {
        queue::lemma_without_absent(s, h);
        (i, j)
    }
}

/// A demotion out of L0 succeeds exactly where the block is not pinned and stays durable.
/// It takes the block, and no other, out of L0 and nothing out of another tier, and tells
/// how many bytes L0 got back.
pub proof fn leaving_l0_changes_one_block(e: EngineView, h: Seq<u8>, x: Seq<u8>)
    requires
        e.wf(),
    ensures
        ({
            let f = e.demoted_l0(h).0;
            let pinned = e.pins.contains_key(h) && e.pins[h] > 0;
            &&& e.demoted_l0(h).1 is Ok <==> !pinned && (e.l2.contains_key(h)
                || e.l3.contains_key(h))
            &&& e.demoted_l0(h).1 is Err ==> f == e
            &&& e.demoted_l0(h).1 is Ok ==> {
                &&& !f.l0.contains_key(h) && !f.one_shot.contains(h)
                &&& x != h ==> f.l0.contains_key(x) == e.l0.contains_key(x) && (
                e.l0.contains_key(x) ==> f.l0[x] == e.l0[x])
                &&& f.l1 == e.l1 && f.l2 == e.l2 && f.l3 == e.l3 && f.arena == e.arena
                &&& e.demoted_l0(h).1->Ok_0 == (if e.l0.contains_key(h) {
                    e.l0[h].len()
                } else {
                    0
                })
            }
        }),
{
    assert(e.l0.contains_key(h) ==> e.l0[h].len() * 3 <= u64::MAX);
}

/// A demotion from L2 succeeds exactly where L2 holds the block and it is not pinned. The
/// bytes go to L3, the place in the layout is free, and no other block is touched.
pub proof fn leaving_l2_changes_one_block(e: EngineView, h: Seq<u8>, x: Seq<u8>)
    requires
        e.wf(),
    ensures
        ({
            let f = e.demoted_l2(h).0;
            let pinned = e.pins.contains_key(h) && e.pins[h] > 0;
            &&& e.demoted_l2(h).1 is Ok <==> !pinned && e.l2.contains_key(h)
            &&& e.demoted_l2(h).1 is Err ==> f == e
            &&& e.demoted_l2(h).1 is Ok ==> {
                &&& !f.l2.contains_key(h) && !f.arena.placed.contains_key(h)
                &&& f.l3.contains_key(h) && f.l3[h] == e.l2[h]
                &&& e.demoted_l2(h).1->Ok_0 == e.l2[h].len()
                &&& x != h ==> f.l2.contains_key(x) == e.l2.contains_key(x) && (
                e.l2.contains_key(x) ==> f.l2[x] == e.l2[x])
                &&& x != h ==> f.l3.contains_key(x) == e.l3.contains_key(x) && (
                e.l3.contains_key(x) ==> f.l3[x] == e.l3[x])
                &&& x != h && e.arena.placed.contains_key(x) ==> f.arena.placed.contains_key(x)
                    && f.arena.placed[x] == e.arena.placed[x]
                &&& f.l0 == e.l0 && f.l1 == e.l1
            }
        }),
{
    assert(e.l2.contains_key(h) ==> e.l2[h].len() * 3 <= u64::MAX);
}

/// An access is served from the nearest tier that holds the block and moves nothing. Each
/// access that is served counts as one hit of the block, and an access that is not as none.
pub proof fn access_is_served_by_the_nearest(e: EngineView, h: Seq<u8>)
    ensures
        ({
            let f = e.probed(h);
            let k = e.access(h);
            &&& k is L0Hit <==> e.l0.contains_key(h)
            &&& k is L1Hit <==> e.l1.contains_key(h) && !e.l0.contains_key(h)
            &&& k is L2Hit <==> e.l2.contains_key(h) && !e.l1.contains_key(h) && !e.l0.contains_key(
                h,
            )
            &&& k is L3Hit <==> e.l3.contains_key(h) && !e.l2.contains_key(h) && !e.l1.contains_key(
                h,
            ) && !e.l0.contains_key(h)
            &&& f.l0 == e.l0 && f.l1 == e.l1 && f.l2 == e.l2 && f.l3 == e.l3 && f.l0_order
                == e.l0_order
            &&& (e.hit_count(h) < u32::MAX && !(k is Miss)) ==> f.hit_count(h) == e.hit_count(h) + 1
            &&& k is Miss ==> f.hits == e.hits
            &&& forall|x: Seq<u8>| x != h ==> #[trigger] f.hit_count(x) == e.hit_count(x)
        }),
{
}

/// Of two blocks in an order, the one that may leave first stands first.
proof fn lemma_first_loose(e: EngineView, s: Seq<Seq<u8>>, one_shot_only: bool, i: int, j: int)
    requires
        s.no_duplicates(),
        0 <= i < j < s.len(),
        e.pin_count(s[i]) == 0,
        e.settled(s[i]),
        one_shot_only ==> e.one_shot.contains(s[i]),
        e.l0_loose(s, one_shot_only).len() > 0,
    ensures
        e.l0_loose(s, one_shot_only)[0] != s[j],
{
    let p = |h: Seq<u8>|
        e.pin_count(h) == 0 && e.settled(h) && (one_shot_only ==> e.one_shot.contains(h));
    lemma_loose_split(e, s, one_shot_only, i);
    let front = e.l0_loose(s.take(i + 1), one_shot_only);
    let all = e.l0_loose(s, one_shot_only);
    assert(front.len() > 0);
    assert(all[0] == front[0]);
    queue::lemma_filter(s.take(i + 1), p);
    assert(front.contains(front[0]));
    assert(s.take(i + 1).contains(front[0]));
    let m = choose|m: int| 0 <= m < i + 1 && #[trigger] s.take(i + 1)[m] == front[0];
    assert(s[m] == front[0]);
}

/// The oldest block leaves L0: where one has to make room, it is the oldest that is neither
/// pinned nor without a durable copy, except that a one-shot block goes before all others.
pub proof fn oldest_leaves_l0(e: EngineView, i: int, j: int)
    requires
        e.wf(),
        0 <= i < j < e.l0_order.len(),
        e.l0_evicted().1 == Ok::<Option<Seq<u8>>, Seq<char>>(Some(e.l0_order[j])),
        !(e.pins.contains_key(e.l0_order[i]) && e.pins[e.l0_order[i]] > 0),
    ensures
        e.one_shot.contains(e.l0_order[j]),
        !e.one_shot.contains(e.l0_order[i]),
{
    let a = e.l0_order[i];
    let b = e.l0_order[j];
    assert(e.l0_order.to_set().contains(a));
    assert(e.l0.contains_key(a));
    assert(e.settled(a));
    let first = e.l0_loose(e.l0_order, true);
    let any = e.l0_loose(e.l0_order, false);
    if first.len() > 0 {
        queue::lemma_filter(
            e.l0_order,
            |h: Seq<u8>| e.pin_count(h) == 0 && e.settled(h) && (true ==> e.one_shot.contains(h)),
        );
        assert(first.contains(first[0]));
        if e.one_shot.contains(a) {
            lemma_first_loose(e, e.l0_order, true, i, j);
        }
    } else {
        assert(any.len() > 0);
        lemma_first_loose(e, e.l0_order, false, i, j);
    }
}

/// A promotion succeeds where some tier holds the block and there is room for it: L2 need not
/// take it or is below capacity, and L0 is below capacity or holds a block that is not pinned.
pub proof fn promotion_succeeds_with_room(e: EngineView, h: Seq<u8>, x: Seq<u8>)
    requires
        e.wf(),
        e.l0.contains_key(h) || e.l1.contains_key(h) || e.l2.contains_key(h) || e.l3.contains_key(
            h,
        ),
        e.l2.contains_key(h) || !e.l3.contains_key(h) || e.caps.l2 == 0 || e.l2.len()
            < e.caps.l2,
        e.caps.l0 == 0 || e.l0.len() < e.caps.l0 || (e.l0.contains_key(x) && !(
        e.pins.contains_key(x) && e.pins[x] > 0)),
    ensures
        e.promoted(h).1 is Ok,
        e.promoted(h).0.l0.contains_key(h),
{
    if !e.l0.contains_key(h) {
        let bytes = e.read(h)->0;
        let put = e.l2_with(h, bytes);
        lemma_touched(e.l2_order, h);
        assert(put.l2_order.to_set() =~= put.l2.dom());
        lemma_ordered_len(e.l2, e.l2_order);
        lemma_ordered_len(e.l0, e.l0_order);
        if !(e.l2.contains_key(h) || !e.l3.contains_key(h)) {
            assert(put.l2.len() == e.l2.len() + 1);
            assert(put.l2_excess() == 0);
            assert(put.l2_victims() is Ok);
            lemma_victims(put);
        }
        let filled = e.l2_filled(h, bytes).0;
        let warm = filled.l1_with(h, bytes);
        if warm.l0_full() {
            let all = warm.l0_loose(warm.l0_order, false);
            queue::lemma_filter(
                warm.l0_order,
                |y: Seq<u8>|
                    warm.pin_count(y) == 0 && warm.settled(y) && (false ==> warm.one_shot.contains(
                        y,
                    )),
            );
            assert(e.l0_order.to_set().contains(x));
            promotion_keeps_fill(e, h, x);
            assert(warm.l0_order.contains(x));
            assert(all.contains(x));
            assert(all.len() > 0);
        }
    }
}

/// Filling L2 for a promotion leaves every durable block durable.
proof fn promotion_keeps_fill(e: EngineView, h: Seq<u8>, x: Seq<u8>)
    requires
        e.wf(),
        e.read(h) is Some,
        e.l0.contains_key(x),
        e.l2_filled(h, e.read(h)->0).1 is Ok,
    ensures
        e.l2_filled(h, e.read(h)->0).0.l1_with(h, e.read(h)->0).settled(x),
{
    let put = e.l2_with(h, e.read(h)->0);
    assert(e.settled(x));
    if !(e.l2.contains_key(h) || !e.l3.contains_key(h)) {
        let victims = put.l2_victims()->Ok_0;
        assert(victims.to_set().contains(x) == victims.contains(x));
    }
}

/// A block that is promoted with admission is one-shot exactly where it has been hit fewer
/// times than admission takes.
pub proof fn rare_blocks_enter_one_shot(e: EngineView, h: Seq<u8>, x: Seq<u8>)
    requires
        e.wf(),
        e.promoted_admitted(h).1 is Ok,
    ensures
        ({
            let hits = if e.hits.contains_key(h) {
                e.hits[h] as int
            } else {
                0
            };
            let f = e.promoted_admitted(h).0;
            &&& f.one_shot.contains(h) <==> hits < e.admit_after
            &&& x != h && f.one_shot.contains(x) ==> e.one_shot.contains(x)
            &&& f.l0 == e.promoted(h).0.l0 && f.l2 == e.promoted(h).0.l2
        }),
{
}

/// A promotion leaves the engine sound, also where it fails.
pub proof fn promotion_keeps_wf(e: EngineView, h: Seq<u8>)
    requires
        e.wf(),
        e.arena.next_seg < u64::MAX,
    ensures
        e.promoted(h).0.wf(),
{
    if e.l0.contains_key(h) {
        lemma_touched(e.l0_order, h);
        assert(e.l0_order.to_set().contains(h));
        assert(touched(e.l0_order, h).to_set() =~= e.l0.dom());
    } else if e.read(h) is Some {
        let bytes = e.read(h)->0;
        lemma_fill_keeps_wf(e, h, bytes);
        let filled = e.l2_filled(h, bytes).0;
        if e.l2_filled(h, bytes).1 is Ok {
            assert(filled.settled(h));
            lemma_l1_with(filled, h, bytes);
            let warm = filled.l1_with(h, bytes);
            if warm.l0_full() {
                if warm.l0_victim() is Some {
                    lemma_l0_victim(warm);
                    lemma_l0_without(warm, warm.l0_victim()->0);
                    let roomy = warm.l0_evicted().0;
                    lemma_ordered_len(roomy.l0, roomy.l0_order);
                    lemma_l0_with(roomy, h, bytes);
                }
            } else {
                lemma_l0_with(warm, h, bytes);
            }
        }
    }
}

proof fn lemma_fill_keeps_wf(e: EngineView, h: Seq<u8>, bytes: Seq<u8>)
    requires
        e.wf(),
        bytes.len() * 3 <= u64::MAX,
        e.arena.next_seg < u64::MAX,
    ensures
        e.l2_filled(h, bytes).0.wf(),
{
    segment::allocate_keeps_wf(e.arena, h);
    lemma_l2_with(e, h, bytes);
    let put = e.l2_with(h, bytes);
    segment::lemma_free(put.arena, h);
    if put.l2_victims() is Ok {
        let gone = put.l2_victims()->Ok_0;
        lemma_victims(put);
        lemma_shed(put, gone);
        lemma_capped(put);
        lemma_freed_all_wf(put.arena, gone);
    }
}

/// Leaving a tier leaves the engine sound.
pub proof fn leaving_keeps_wf(e: EngineView, h: Seq<u8>)
    requires
        e.wf(),
    ensures
        e.demoted_l0(h).0.wf(),
        e.demoted_l2(h).0.wf(),
{
    lemma_l0_without(e, h);
    if e.l2.contains_key(h) {
        segment::lemma_free(e.arena, h);
        queue::lemma_without(e.l2_order, h);
        queue::lemma_filter(e.l2_order, |y: Seq<u8>| y != h);
        let a = e.demoted_l2(h).0;
        assert(a.l2_order.to_set() =~= a.l2.dom());
        assert forall|x: Seq<u8>| #[trigger] a.l0.contains_key(x) implies a.settled(x) by {
            assert(e.settled(x));
        }
        assert forall|x: Seq<u8>| #[trigger] a.l1.contains_key(x) implies a.settled(x) by {
            assert(e.settled(x));
        }
    }
}

/// A change of the layout of L2 leaves the engine sound.
pub proof fn moving_keeps_wf(e: EngineView, h: Seq<u8>, id: u64, offset: u64)
    requires
        e.wf(),
        id < u64::MAX,
    ensures
        e.colocated(h, id, offset).0.wf(),
{
    segment::relocate_keeps_wf(e.arena, h, id, offset);
    let a = e.colocated(h, id, offset).0;
    assert forall|x: Seq<u8>| #[trigger] a.l0.contains_key(x) implies a.settled(x) by {
        assert(e.settled(x));
    }
    assert forall|x: Seq<u8>| #[trigger] a.l1.contains_key(x) implies a.settled(x) by {
        assert(e.settled(x));
    }
}

/// A packed segment leaves the engine sound.
pub proof fn packing_keeps_wf(e: EngineView, id: u64)
    requires
        e.wf(),
    ensures
        e.compacted(id).0.wf(),
{
    if e.arena.segments.contains_key(id) {
        segment::compact_is_dense(e.arena, id);
    }
    let a = e.compacted(id).0;
    assert forall|x: Seq<u8>| #[trigger] a.l0.contains_key(x) implies a.settled(x) by {
        assert(e.settled(x));
    }
    assert forall|x: Seq<u8>| #[trigger] a.l1.contains_key(x) implies a.settled(x) by {
        assert(e.settled(x));
    }
}

/// A promotion that fails leaves L0 as it is.
pub proof fn failed_promotion_keeps_l0(e: EngineView, h: Seq<u8>)
    requires
        e.promoted(h).1 is Err,
    ensures
        e.promoted(h).0.l0 == e.l0,
        e.promoted(h).0.l0_order == e.l0_order,
{
    if e.read(h) is Some {
        let bytes = e.read(h)->0;
        let put = e.l2_with(h, bytes);
        assert(put.l0 == e.l0 && put.l0_order == e.l0_order);
        let filled = e.l2_filled(h, bytes).0;
        assert(filled.l0 == e.l0 && filled.l0_order == e.l0_order);
        let warm = filled.l1_with(h, bytes);
        assert(warm.l0 == filled.l0 && warm.l0_order == filled.l0_order);
    }
}

} // verus!
