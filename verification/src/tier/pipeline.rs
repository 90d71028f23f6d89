//! The background pipeline: promotions, demotions and layout moves, one after
//! another under the shared bandwidth budget. A failed action goes to the back of
//! the queue; an exhausted budget leaves the head where it is.

use std::collections::VecDeque;

use vstd::prelude::*;

use crate::base::keys;
use crate::base::keys::Dup;
use crate::tier::bandwidth::BandwidthPool;
use crate::tier::engine;
use crate::tier::engine::{EffectsView, EngineView, LocalTier, LocalTierEngine, TierSideEffects};
use crate::tier::segment;
use crate::tier::segment::{Relocate, RelocateView};

verus! {

/// Something for the pipeline to do.
#[derive(Debug, Clone, PartialEq, Eq)]
pub enum PipelineAction {
    Promote { hash: Vec<u8> },
    DemoteL0 { hash: Vec<u8> },
    DemoteL2 { hash: Vec<u8> },
    FillMiss { hash: Vec<u8> },
    /// Packs one L2 segment.
    CompactSegment { segment_id: u64 },
    /// Moves one L2 block to a given slot.
    CoLocateMove { hash: Vec<u8>, dest_segment: u64, dest_offset: u64 },
}

/// What an action stands for.
pub enum ActionView {
    Promote { hash: Seq<u8> },
    DemoteL0 { hash: Seq<u8> },
    DemoteL2 { hash: Seq<u8> },
    FillMiss { hash: Seq<u8> },
    CompactSegment { segment_id: u64 },
    CoLocateMove { hash: Seq<u8>, dest_segment: u64, dest_offset: u64 },
}

impl View for PipelineAction {
    type V = ActionView;

    open spec fn view(&self) -> ActionView {
        match *self {
            PipelineAction::Promote { hash } => ActionView::Promote { hash: hash@ },
            PipelineAction::DemoteL0 { hash } => ActionView::DemoteL0 { hash: hash@ },
            PipelineAction::DemoteL2 { hash } => ActionView::DemoteL2 { hash: hash@ },
            PipelineAction::FillMiss { hash } => ActionView::FillMiss { hash: hash@ },
            PipelineAction::CompactSegment { segment_id } => ActionView::CompactSegment {
                segment_id,
            },
            PipelineAction::CoLocateMove { hash, dest_segment, dest_offset } =>
                ActionView::CoLocateMove { hash: hash@, dest_segment, dest_offset },
        }
    }
}

/// A change of where a block is, for the control plane's view.
#[derive(Debug, Clone, PartialEq, Eq)]
pub enum LocationEvent {
    Present { hash: Vec<u8>, tier: LocalTier },
    Absent { hash: Vec<u8>, tier: LocalTier },
    /// The placement changed within a tier.
    Moved { hash: Vec<u8>, tier: LocalTier, segment_id: u64, offset: u64, node_id: String },
}

/// What an event stands for.
pub enum EventView {
    Present { hash: Seq<u8>, tier: LocalTier },
    Absent { hash: Seq<u8>, tier: LocalTier },
    Moved { hash: Seq<u8>, tier: LocalTier, segment_id: u64, offset: u64, node_id: Seq<char> },
}

impl View for LocationEvent {
    type V = EventView;

    open spec fn view(&self) -> EventView {
        match *self {
            LocationEvent::Present { hash, tier } => EventView::Present { hash: hash@, tier },
            LocationEvent::Absent { hash, tier } => EventView::Absent { hash: hash@, tier },
            LocationEvent::Moved { hash, tier, segment_id, offset, node_id } => EventView::Moved {
                hash: hash@,
                tier,
                segment_id,
                offset,
                node_id: node_id@,
            },
        }
    }
}

/// Blocks that left L0.
pub open spec fn l0_absent(blocks: Seq<Seq<u8>>) -> Seq<EventView> {
    blocks.map_values(|h: Seq<u8>| EventView::Absent { hash: h, tier: LocalTier::L0 })
}

/// Blocks that moved from L2 to L3: each is absent there and present here.
pub open spec fn l2_shed(blocks: Seq<Seq<u8>>) -> Seq<EventView>
    decreases blocks.len(),
{
    if blocks.len() == 0 {
        Seq::empty()
    } else {
        l2_shed(blocks.drop_last()) + l2_left(blocks.last())
    }
}

/// One block moved from L2 to L3.
pub open spec fn l2_left(h: Seq<u8>) -> Seq<EventView> {
    seq![
        EventView::Absent { hash: h, tier: LocalTier::L2 },
        EventView::Present { hash: h, tier: LocalTier::L3 },
    ]
}

/// The events of side effects.
pub open spec fn effect_events(fx: EffectsView) -> Seq<EventView> {
    l0_absent(fx.l0_demoted) + l2_shed(fx.l2_demoted_to_l3)
}

/// The events of relocations; a block that did not move has none.
pub open spec fn move_events(moves: Seq<RelocateView>, node_id: Seq<char>) -> Seq<EventView>
    decreases moves.len(),
{
    if moves.len() == 0 {
        Seq::empty()
    } else {
        let rest = move_events(moves.drop_last(), node_id);
        let m = moves.last();
        if m.from == m.to {
            rest
        } else {
            rest.push(
                EventView::Moved {
                    hash: m.hash,
                    tier: LocalTier::L2,
                    segment_id: m.to.segment_id,
                    offset: m.to.offset,
                    node_id,
                },
            )
        }
    }
}

fn events_from_effects(fx: &TierSideEffects) -> (events: Vec<LocationEvent>)
    ensures
        keys::views(events@) == effect_events(fx@),
{
    let mut events: Vec<LocationEvent> = Vec::new();
    let ghost l0 = fx@.l0_demoted;
    let ghost l2 = fx@.l2_demoted_to_l3;
    let mut i: usize = 0;
    assert(keys::views(events@) =~= l0_absent(l0.take(0)));
    while i < fx.l0_demoted.len()
        invariant
            i <= l0.len() == fx.l0_demoted@.len(),
            l0 == fx@.l0_demoted,
            keys::views(events@) == l0_absent(l0.take(i as int)),
        decreases l0.len() - i,
    {
        let ghost before = keys::views(events@);
        let ev = LocationEvent::Absent { hash: fx.l0_demoted[i].dup(), tier: LocalTier::L0 };
        events.push(ev);
        assert(keys::views(events@) =~= before.push(ev@));
        assert(l0_absent(l0.take(i + 1)) =~= l0_absent(l0.take(i as int)).push(ev@));
        i += 1;
    }
    assert(l0.take(i as int) =~= l0);
    let mut j: usize = 0;
    assert(l2.take(0) =~= Seq::empty());
    assert(keys::views(events@) =~= l0_absent(l0) + l2_shed(l2.take(0)));
    while j < fx.l2_demoted_to_l3.len()
        invariant
            j <= l2.len() == fx.l2_demoted_to_l3@.len(),
            l2 == fx@.l2_demoted_to_l3,
            keys::views(events@) == l0_absent(l0) + l2_shed(l2.take(j as int)),
        decreases l2.len() - j,
    {
        let ghost before = keys::views(events@);
        let gone = LocationEvent::Absent {
            hash: fx.l2_demoted_to_l3[j].dup(),
            tier: LocalTier::L2,
        };
        let came = LocationEvent::Present {
            hash: fx.l2_demoted_to_l3[j].dup(),
            tier: LocalTier::L3,
        };
        events.push(gone);
        events.push(came);
        assert(keys::views(events@) =~= before.push(gone@).push(came@));
        assert(l2.take(j + 1).drop_last() =~= l2.take(j as int));
        assert(keys::views(events@) =~= l0_absent(l0) + l2_shed(l2.take(j + 1)));
        j += 1;
    }
    assert(l2.take(j as int) =~= l2);
    events
}

fn events_from_relocs(relocs: &Vec<Relocate>, node_id: &String) -> (events: Vec<LocationEvent>)
    ensures
        keys::views(events@) == move_events(keys::views(relocs@), node_id@),
{
    let mut events: Vec<LocationEvent> = Vec::new();
    let ghost moves = keys::views(relocs@);
    let mut i: usize = 0;
    assert(moves.take(0) =~= Seq::empty());
    assert(keys::views(events@) =~= Seq::empty());
    while i < relocs.len()
        invariant
            i <= relocs@.len() == moves.len(),
            moves == keys::views(relocs@),
            keys::views(events@) == move_events(moves.take(i as int), node_id@),
        decreases relocs@.len() - i,
    {
        let r = &relocs[i];
        let ghost before = keys::views(events@);
        assert(moves.take(i + 1).drop_last() =~= moves.take(i as int));
        assert(moves.take(i + 1).last() == r@);
        if r.from != r.to {
            let ev = LocationEvent::Moved {
                hash: r.hash.dup(),
                tier: LocalTier::L2,
                segment_id: r.to.segment_id,
                offset: r.to.offset,
                node_id: node_id.dup(),
            };
            events.push(ev);
            assert(keys::views(events@) =~= before.push(ev@));
        }
        i += 1;
    }
    assert(moves.take(i as int) =~= moves);
    events
}

/// What a pipeline stands for.
#[verifier::ext_equal]
pub struct PipelineView {
    pub engine: EngineView,
    pub window_bytes: u64,
    pub remaining: u64,
    pub paused: bool,
    pub node_id: Seq<char>,
    pub queue: Seq<ActionView>,
}

impl PipelineView {
    /// What an action costs of the budget.
    #[verifier::opaque]
    pub open spec fn cost(self, action: ActionView) -> int {
        match action {
            ActionView::Promote { hash } => self.engine.promote_cost(hash) as int,
            ActionView::FillMiss { hash } => self.engine.promote_cost(hash) as int,
            ActionView::DemoteL0 { hash } => if self.engine.l0.contains_key(hash) {
                self.engine.l0[hash].len() as int
            } else {
                0
            },
            ActionView::DemoteL2 { hash } => if self.engine.l2.contains_key(hash) {
                self.engine.l2[hash].len() as int
            } else {
                0
            },
            ActionView::CompactSegment { segment_id } => if self.engine.arena.segments.contains_key(
                segment_id,
            ) {
                segment::live(self.engine.arena.segments[segment_id]).len() * self.engine.arena.slot_bytes
            } else {
                0
            },
            ActionView::CoLocateMove { hash, .. } => if self.engine.l2.contains_key(hash)
                && self.engine.l2[hash].len() > self.engine.arena.slot_bytes {
                self.engine.l2[hash].len() as int
            } else {
                self.engine.arena.slot_bytes as int
            },
        }
    }

    /// The engine after an action, and the events if it succeeded.
    #[verifier::opaque]
    pub open spec fn run(self, action: ActionView) -> (EngineView, Option<Seq<EventView>>) {
        match action {
            ActionView::Promote { hash } => self.run_promote(hash),
            ActionView::FillMiss { hash } => self.run_promote(hash),
            ActionView::DemoteL0 { hash } => {
                let (e, r) = self.engine.demoted_l0(hash);
                match r {
                    Ok(_) => (e, Some(l0_absent(seq![hash]))),
                    Err(_) => (e, None),
                }
            },
            ActionView::DemoteL2 { hash } => {
                let (e, r) = self.engine.demoted_l2(hash);
                match r {
                    Ok(_) => (e, Some(l2_left(hash))),
                    Err(_) => (e, None),
                }
            },
            ActionView::CompactSegment { segment_id } => {
                let (e, r) = self.engine.compacted(segment_id);
                match r {
                    Ok(moves) => (e, Some(move_events(moves, self.node_id))),
                    Err(_) => (e, None),
                }
            },
            ActionView::CoLocateMove { hash, dest_segment, dest_offset } => {
                let (e, r) = self.engine.colocated(hash, dest_segment, dest_offset);
                match r {
                    Ok(m) => (e, Some(move_events(seq![m], self.node_id))),
                    Err(_) => (e, None),
                }
            },
        }
    }

    /// A promotion: its side effects first, then the block itself.
    pub open spec fn run_promote(self, hash: Seq<u8>) -> (EngineView, Option<Seq<EventView>>) {
        let (e, r) = self.engine.promoted(hash);
        match r {
            Ok((_, fx)) => (
                e,
                Some(effect_events(fx).push(EventView::Present { hash, tier: LocalTier::L0 })),
            ),
            Err(_) => (e, None),
        }
    }

    /// The budget covers the action.
    pub open spec fn affords(self, action: ActionView) -> bool {
        self.cost(action) == 0 || !self.paused && self.cost(action) <= self.remaining
    }

    /// The pipeline after its affordable head was tried: the head is gone, or is
    /// at the back of the queue with its cost given back.
    #[verifier::opaque]
    pub open spec fn tried(self) -> PipelineView {
        let action = self.queue[0];
        let (engine, events) = self.run(action);
        let cost = self.cost(action);
        match events {
            Some(_) => PipelineView {
                engine,
                remaining: (self.remaining - cost) as u64,
                queue: self.queue.skip(1),
                ..self
            },
            None => PipelineView {
                engine,
                remaining: if cost == 0 || self.remaining <= self.window_bytes {
                    self.remaining
                } else {
                    self.window_bytes
                },
                queue: self.queue.skip(1).push(action),
                ..self
            },
        }
    }

    /// Up to `steps` attempts; ends early on an empty queue, an exhausted budget,
    /// or after `patience` failures in a row, of which `fails` have happened. The
    /// answer is the state, the number of successes and the events.
    pub open spec fn ticked(self, steps: nat, fails: nat, patience: nat) -> (
        PipelineView,
        nat,
        Seq<EventView>,
    )
        decreases steps,
    {
        if steps == 0 || self.queue.len() == 0 || !self.affords(self.queue[0]) {
            (self, 0, Seq::empty())
        } else {
            match self.run(self.queue[0]).1 {
                Some(events) => {
                    let (s, done, later) = self.tried().ticked((steps - 1) as nat, 0, patience);
                    (s, done + 1, events + later)
                },
                None => if fails + 1 >= patience {
                    (self.tried(), 0, Seq::empty())
                } else {
                    self.tried().ticked((steps - 1) as nat, fails + 1, patience)
                },
            }
        }
    }

    /// How many attempts can be made at most, of `steps` that may be: a success takes
    /// an action off the queue, and `patience` failures in a row end it all, of which
    /// `fails` have happened.
    pub open spec fn most_attempts(self, steps: nat, fails: nat, patience: nat) -> nat {
        let most = self.queue.len() * patience - fails;
        if most < 0 {
            0
        } else if most < steps {
            most as nat
        } else {
            steps
        }
    }

    /// No attempt of the next `steps` can run out of segment ids.
    pub open spec fn has_segments(self, steps: nat) -> bool {
        &&& self.engine.arena.next_seg + steps < u64::MAX
        &&& forall|i: int|
            0 <= i < self.queue.len() ==> match #[trigger] self.queue[i] {
                ActionView::CoLocateMove { dest_segment, .. } => dest_segment + 1 + steps
                    < u64::MAX,
                _ => true,
            }
    }

    /// The engine is well-formed and `steps` attempts can be made.
    #[verifier::opaque]
    pub open spec fn ready(self, steps: nat) -> bool {
        self.engine.wf() && self.has_segments(steps)
    }
}

/// The engine with its queue of background actions.
pub struct TierPipeline {
    pub engine: LocalTierEngine,
    pub bandwidth: BandwidthPool,
    /// The node that `Moved` events name.
    pub node_id: String,
    pub queue: VecDeque<PipelineAction>,
}

impl View for TierPipeline {
    type V = PipelineView;

    open spec fn view(&self) -> PipelineView {
        PipelineView {
            engine: self.engine@,
            window_bytes: self.bandwidth.window_bytes,
            remaining: self.bandwidth.remaining,
            paused: self.bandwidth.paused,
            node_id: self.node_id@,
            queue: keys::views(self.queue@),
        }
    }
}

/// An attempt takes at least one of those that can be made.
proof fn lemma_attempts(s: PipelineView, steps: nat, fails: nat, patience: nat)
    requires
        steps > 0,
        fails < patience,
    ensures
        s.queue.len() > 0 ==> s.most_attempts(steps, fails, patience) > 0,
        s.queue.len() > 0 && s.run(s.queue[0]).1 is Some ==> s.tried().most_attempts(
            (steps - 1) as nat,
            0,
            patience,
        ) <= s.most_attempts(steps, fails, patience) - 1,
        s.queue.len() > 0 && s.run(s.queue[0]).1 is None ==> s.tried().most_attempts(
            (steps - 1) as nat,
            fails + 1,
            patience,
        ) <= s.most_attempts(steps, fails, patience) - 1,
{
    reveal(PipelineView::tried);
    let n = s.queue.len();
    if n > 0 {
        assert(n * patience == (n - 1) * patience + patience && (n - 1) * patience >= 0)
            by (nonlinear_arith)
            requires
                n > 0,
        ;
    }
}

/// Fewer attempts need fewer segment ids.
proof fn lemma_ready_for_fewer(s: PipelineView, more: nat, fewer: nat)
    requires
        s.ready(more),
        fewer <= more,
    ensures
        s.ready(fewer),
{
    reveal(PipelineView::ready);
    assert forall|i: int| 0 <= i < s.queue.len() implies match #[trigger] s.queue[i] {
        ActionView::CoLocateMove { dest_segment, .. } => dest_segment + 1 + fewer < u64::MAX,
        _ => true,
    } by {}
}

proof fn lemma_seg_step(s: PipelineView, steps: nat)
    requires
        steps > 0,
        s.queue.len() > 0,
        s.engine.wf(),
        s.has_segments(steps),
    ensures
        s.tried().has_segments((steps - 1) as nat),
{
    reveal(PipelineView::tried);
    reveal(PipelineView::run);
    let t = s.tried();
    match s.queue[0] {
        ActionView::Promote { hash } => {
            engine::promotion_opens_one_segment(s.engine, hash);
        },
        ActionView::FillMiss { hash } => {
            engine::promotion_opens_one_segment(s.engine, hash);
        },
        _ => {},
    }
    assert forall|i: int| 0 <= i < t.queue.len() implies match #[trigger] t.queue[i] {
        ActionView::CoLocateMove { dest_segment, .. } => dest_segment + 1 + (steps - 1)
            < u64::MAX,
        _ => true,
    } by {
        if i < s.queue.len() - 1 {
            assert(t.queue[i] == s.queue[i + 1]);
        } else {
            assert(t.queue[i] == s.queue[0]);
        }
    }
}

impl TierPipeline {
    /// A pipeline with an empty queue, on the node "local".
    pub fn new(engine: LocalTierEngine, bandwidth: BandwidthPool) -> (p: Self)
        ensures
            p.engine == engine,
            p.bandwidth == bandwidth,
            p.node_id@ == "local"@,
            p@.queue == Seq::<ActionView>::empty(),
    {
        let p = TierPipeline {
            engine,
            bandwidth,
            node_id: "local".to_owned(),
            queue: VecDeque::new(),
        };
        assert(p@.queue =~= Seq::empty());
        p
    }

    /// Sets the node that `Moved` events name.
    pub fn with_node_id(self, node_id: &str) -> (p: Self)
        ensures
            p@ == (PipelineView { node_id: node_id@, ..self@ }),
    {
        let mut p = self;
        p.node_id = node_id.to_owned();
        p
    }

    /// Appends an action.
    pub fn enqueue(&mut self, action: PipelineAction)
        ensures
            final(self)@ == (PipelineView {
                queue: old(self)@.queue.push(action@),
                ..old(self)@
            }),
    {
        self.queue.push_back(action);
        assert(self@.queue =~= old(self)@.queue.push(action@));
    }

    /// The number of queued actions.
    pub fn pending(&self) -> (n: usize)
        ensures
            n == self@.queue.len(),
    {
        self.queue.len()
    }

    fn estimate_cost(&self, action: &PipelineAction) -> (cost: u64)
        requires
            self@.engine.wf(),
        ensures
            cost == self@.cost(action@),
    {
        reveal(PipelineView::cost);
        match action {
            PipelineAction::Promote { hash } => self.engine.estimate_promote_cost(hash.as_slice()),
            PipelineAction::FillMiss { hash } => self.engine.estimate_promote_cost(hash.as_slice()),
            PipelineAction::DemoteL0 { hash } => self.engine.l0_nbytes(hash.as_slice()),
            PipelineAction::DemoteL2 { hash } => self.engine.l2_nbytes(hash.as_slice()),
            PipelineAction::CompactSegment { segment_id } => {
                let n: usize = self.engine.l2_arena.live_slots(*segment_id);
                let slot: u64 = self.engine.l2_arena.slot_bytes();
                if n == 0 {
                    assert(0 * slot == 0) by (nonlinear_arith);
                    0
                } else {
                    proof {
                        segment::lemma_live_cost(self.engine.l2_arena@, *segment_id);
                    }
                    (n as u64) * slot
                }
            },
            PipelineAction::CoLocateMove { hash, .. } => {
                let n: u64 = self.engine.l2_nbytes(hash.as_slice());
                let slot: u64 = self.engine.l2_arena.slot_bytes();
                if n > slot {
                    n
                } else {
                    slot
                }
            },
        }
    }

    /// Runs one action on the engine; events if it succeeded.
    fn run(&mut self, action: &PipelineAction) -> (events: Option<Vec<LocationEvent>>)
        requires
            old(self)@.engine.wf(),
            old(self)@.engine.arena.next_seg < u64::MAX,
            action@ matches ActionView::CoLocateMove { dest_segment, .. } ==> dest_segment
                < u64::MAX,
        ensures
            final(self)@ == (PipelineView { engine: old(self)@.run(action@).0, ..old(self)@ }),
            final(self)@.engine.wf(),
            old(self)@.engine.arena_matches() ==> final(self)@.engine.arena_matches(),
            match events {
                Some(ev) => old(self)@.run(action@).1 == Some(keys::views(ev@)),
                None => old(self)@.run(action@).1 is None,
            },
    {
        reveal(PipelineView::run);
        match action {
            PipelineAction::Promote { hash } => {
                match self.engine.promote_to_l0(hash.as_slice()) {
                    Ok((_, fx)) => Some(promoted_events(&fx, hash)),
                    Err(_) => None,
                }
            },
            PipelineAction::FillMiss { hash } => {
                match self.engine.fill_read_miss(hash.as_slice()) {
                    Ok((_, fx)) => Some(promoted_events(&fx, hash)),
                    Err(_) => None,
                }
            },
            PipelineAction::DemoteL0 { hash } => {
                match self.engine.demote_l0(hash.as_slice()) {
                    Ok(_) => {
                        let mut events: Vec<LocationEvent> = Vec::new();
                        events.push(
                            LocationEvent::Absent { hash: hash.dup(), tier: LocalTier::L0 },
                        );
                        assert(keys::views(events@) =~= l0_absent(seq![hash@]));
                        Some(events)
                    },
                    Err(_) => None,
                }
            },
            PipelineAction::DemoteL2 { hash } => {
                match self.engine.demote_l2_to_l3(hash.as_slice()) {
                    Ok(_) => {
                        let mut events: Vec<LocationEvent> = Vec::new();
                        events.push(
                            LocationEvent::Absent { hash: hash.dup(), tier: LocalTier::L2 },
                        );
                        events.push(
                            LocationEvent::Present { hash: hash.dup(), tier: LocalTier::L3 },
                        );
                        assert(keys::views(events@) =~= l2_left(hash@));
                        Some(events)
                    },
                    Err(_) => None,
                }
            },
            PipelineAction::CompactSegment { segment_id } => {
                match self.engine.compact_l2_segment(*segment_id) {
                    Ok(relocs) => Some(events_from_relocs(&relocs, &self.node_id)),
                    Err(_) => None,
                }
            },
            PipelineAction::CoLocateMove { hash, dest_segment, dest_offset } => {
                match self.engine.colocate_l2_move(hash.as_slice(), *dest_segment, *dest_offset) {
                    Ok(r) => {
                        let mut relocs: Vec<Relocate> = Vec::new();
                        relocs.push(r);
                        assert(keys::views(relocs@) =~= seq![r@]);
                        Some(events_from_relocs(&relocs, &self.node_id))
                    },
                    Err(_) => None,
                }
            },
        }
    }

    /// Tries the head of the queue, if there is one and the budget covers it.
    #[verifier::rlimit(50)]
    #[verifier::spinoff_prover]
    fn attempt(&mut self, Ghost(steps): Ghost<nat>) -> (r: Option<Option<Vec<LocationEvent>>>)
        requires
            old(self)@.queue.len() > 0 ==> steps > 0,
            old(self)@.ready(steps),
        ensures
            match r {
                None => {
                    &&& old(self)@.queue.len() == 0 || !old(self)@.affords(old(self)@.queue[0])
                    &&& final(self)@ == old(self)@
                },
                Some(outcome) => {
                    &&& old(self)@.queue.len() > 0 && old(self)@.affords(old(self)@.queue[0])
                    &&& final(self)@ == old(self)@.tried()
                    &&& match outcome {
                        Some(ev) => old(self)@.run(old(self)@.queue[0]).1 == Some(
                            keys::views(ev@),
                        ),
                        None => old(self)@.run(old(self)@.queue[0]).1 is None,
                    }
                    &&& final(self)@.ready((steps - 1) as nat)
                },
            },
            final(self)@.engine.wf(),
            old(self)@.engine.arena_matches() ==> final(self)@.engine.arena_matches(),
    {
        reveal(PipelineView::ready);
        reveal(PipelineView::tried);
        let ghost s = self@;
        match self.queue.pop_front() {
            None => None,
            Some(action) => {
                assert(self@.queue =~= s.queue.skip(1));
                assert(s.queue[0] == action@);
                let cost: u64 = self.estimate_cost(&action);
                assert(cost == s.cost(action@)) by {
                    reveal(PipelineView::cost);
                }
                if cost > 0 && !self.bandwidth.try_consume(cost) {
                    self.queue.push_front(action);
                    assert(self@.queue =~= s.queue);
                    assert(self@ =~= s);
                    return None;
                }
                assert(s.run(action@) == self@.run(action@)) by {
                    reveal(PipelineView::run);
                }
                proof {
                    lemma_seg_step(s, steps);
                }
                match self.run(&action) {
                    Some(ev) => {
                        assert(self@ =~= s.tried());
                        Some(Some(ev))
                    },
                    None => {
                        if cost > 0 {
                            self.bandwidth.refund(cost);
                        }
                        self.queue.push_back(action);
                        assert(self@.queue =~= s.queue.skip(1).push(action@));
                        assert(self@ =~= s.tried());
                        Some(None)
                    },
                }
            },
        }
    }

    /// Tries up to `max_steps` actions and returns how many succeeded, with the
    /// events of all of them.
    pub fn tick(&mut self, max_steps: usize) -> (r: (usize, Vec<LocationEvent>))
        requires
            old(self)@.engine.wf(),
            old(self)@.has_segments(
                old(self)@.most_attempts(max_steps as nat, 0, old(self)@.queue.len()),
            ),
        ensures
            ({
                let patience = if old(self)@.queue.len() == 0 {
                    1
                } else {
                    old(self)@.queue.len()
                };
                let (s, done, events) = old(self)@.ticked(max_steps as nat, 0, patience);
                &&& final(self)@ == s
                &&& r.0 == done
                &&& keys::views(r.1@) == events
            }),
            final(self)@.engine.wf(),
            old(self)@.engine.arena_matches() ==> final(self)@.engine.arena_matches(),
    {
        let ghost start = self@;
        proof {
            reveal(PipelineView::ready);
        }
        let mut done: usize = 0;
        let mut events: Vec<LocationEvent> = Vec::new();
        let mut attempts: usize = 0;
        let mut fails: usize = 0;
        let patience: usize = if self.queue.len() == 0 {
            1
        } else {
            self.queue.len()
        };
        let ghost goal = start.ticked(max_steps as nat, 0, patience as nat);
        assert(keys::views(events@) =~= Seq::empty());
        assert(goal.2 =~= keys::views(events@) + goal.2);
        let mut going = true;
        while going && attempts < max_steps
            invariant
                attempts <= max_steps,
                done <= attempts,
                fails <= attempts,
                going ==> fails < patience,
                patience == if start.queue.len() == 0 {
                    1
                } else {
                    start.queue.len()
                },
                self@.engine.wf(),
                going ==> self@.ready(
                    self@.most_attempts(
                        (max_steps - attempts) as nat,
                        fails as nat,
                        patience as nat,
                    ),
                ),
                start.engine.arena_matches() ==> self@.engine.arena_matches(),
                start == old(self)@,
                going ==> ({
                    let rest = self@.ticked(
                        (max_steps - attempts) as nat,
                        fails as nat,
                        patience as nat,
                    );
                    &&& goal.0 == rest.0
                    &&& goal.1 == done + rest.1
                    &&& goal.2 == keys::views(events@) + rest.2
                }),
                !going ==> goal == (self@, done as nat, keys::views(events@)),
            decreases
                max_steps - attempts,
                (if going {
                    1int
                } else {
                    0int
                }),
        {
            let ghost s = self@;
            let ghost steps = (max_steps - attempts) as nat;
            let ghost so_far = keys::views(events@);
            let ghost most = s.most_attempts(steps, fails as nat, patience as nat);
            proof {
                lemma_attempts(s, steps, fails as nat, patience as nat);
            }
            match self.attempt(Ghost(most)) {
                None => {
                    assert(goal.2 =~= so_far);
                    going = false;
                },
                Some(outcome) => {
                    attempts += 1;
                    match outcome {
                        Some(ev) => {
                            let mut ev = ev;
                            let ghost now = keys::views(ev@);
                            events.append(&mut ev);
                            assert(keys::views(events@) =~= so_far + now);
                            done += 1;
                            proof {
                                lemma_ready_for_fewer(
                                    self@,
                                    (most - 1) as nat,
                                    self@.most_attempts((steps - 1) as nat, 0, patience as nat),
                                );
                            }
                            fails = 0;
                            assert(goal.2 =~= keys::views(events@) + self@.ticked(
                                (steps - 1) as nat,
                                0,
                                patience as nat,
                            ).2);
                        },
                        None => {
                            fails += 1;
                            if fails >= patience {
                                assert(goal.2 =~= so_far);
                                going = false;
                            } else {
                                proof {
                                    lemma_ready_for_fewer(
                                        self@,
                                        (most - 1) as nat,
                                        self@.most_attempts(
                                            (steps - 1) as nat,
                                            fails as nat,
                                            patience as nat,
                                        ),
                                    );
                                }
                            }
                        },
                    }
                },
            }
        }
        if going {
            assert(goal.2 =~= keys::views(events@));
        }
        proof {
            reveal(PipelineView::ready);
        }
        (done, events)
    }
}

fn promoted_events(fx: &TierSideEffects, hash: &Vec<u8>) -> (events: Vec<LocationEvent>)
    ensures
        keys::views(events@) == effect_events(fx@).push(
            EventView::Present { hash: hash@, tier: LocalTier::L0 },
        ),
{
    let mut events = events_from_effects(fx);
    let ghost before = keys::views(events@);
    let ev = LocationEvent::Present { hash: hash.dup(), tier: LocalTier::L0 };
    events.push(ev);
    assert(keys::views(events@) =~= before.push(ev@));
    events
}

/// A paused pipeline runs nothing that costs anything: the head stays.
pub proof fn paused_keeps_the_head(s: PipelineView, steps: nat, patience: nat)
    requires
        s.paused,
        s.queue.len() > 0,
        s.cost(s.queue[0]) > 0,
    ensures
        s.ticked(steps, 0, patience) == (s, 0nat, Seq::<EventView>::empty()),
{
}

/// No action is lost: each attempt ends in a success or with the action back in
/// the queue.
pub proof fn no_action_is_lost(s: PipelineView, steps: nat, fails: nat, patience: nat)
    ensures
        s.ticked(steps, fails, patience).0.queue.len() + s.ticked(steps, fails, patience).1
            == s.queue.len(),
        s.ticked(steps, fails, patience).1 <= steps,
    decreases steps,
{
    reveal(PipelineView::tried);
    if !(steps == 0 || s.queue.len() == 0 || !s.affords(s.queue[0])) {
        match s.run(s.queue[0]).1 {
            Some(_) => {
                no_action_is_lost(s.tried(), (steps - 1) as nat, 0, patience);
            },
            None => {
                if fails + 1 < patience {
                    no_action_is_lost(s.tried(), (steps - 1) as nat, fails + 1, patience);
                }
            },
        }
    }
}

proof fn lemma_cost_is_positive(s: PipelineView, action: ActionView)
    ensures
        s.cost(action) >= 0,
{
    reveal(PipelineView::cost);
    if let ActionView::CompactSegment { segment_id } = action {
        let n = segment::live(s.engine.arena.segments[segment_id]).len();
        assert(n * s.engine.arena.slot_bytes >= 0) by (nonlinear_arith);
    }
}

/// A window never moves more than its budget: what is left only shrinks, unless
/// it was above a full window to begin with.
pub proof fn budget_only_shrinks(s: PipelineView, steps: nat, fails: nat, patience: nat)
    ensures
        s.ticked(steps, fails, patience).0.remaining <= s.remaining,
    decreases steps,
{
    reveal(PipelineView::tried);
    if !(steps == 0 || s.queue.len() == 0 || !s.affords(s.queue[0])) {
        lemma_cost_is_positive(s, s.queue[0]);
        match s.run(s.queue[0]).1 {
            Some(_) => {
                budget_only_shrinks(s.tried(), (steps - 1) as nat, 0, patience);
            },
            None => {
                if fails + 1 < patience {
                    budget_only_shrinks(s.tried(), (steps - 1) as nat, fails + 1, patience);
                }
            },
        }
    }
}

proof fn lemma_l2_shed(blocks: Seq<Seq<u8>>, ev: EventView)
    ensures
        l2_shed(blocks).contains(ev) <==> exists|i: int|
            0 <= i < blocks.len() && (ev == EventView::Absent {
                hash: #[trigger] blocks[i],
                tier: LocalTier::L2,
            } || ev == EventView::Present { hash: blocks[i], tier: LocalTier::L3 }),
    decreases blocks.len(),
{
    let all = l2_shed(blocks);
    if blocks.len() > 0 {
        let init = blocks.drop_last();
        let rest = l2_shed(init);
        lemma_l2_shed(init, ev);
        let pair = l2_left(blocks.last());
        assert(all == rest + pair);
        assert(all[rest.len() as int] == pair[0] && all[rest.len() as int + 1] == pair[1]);
        if all.contains(ev) {
            let k = choose|k: int| 0 <= k < all.len() && all[k] == ev;
            if k < rest.len() {
                assert(rest[k] == ev);
                let i = choose|i: int|
                    0 <= i < init.len() && (ev == EventView::Absent {
                        hash: #[trigger] init[i],
                        tier: LocalTier::L2,
                    } || ev == EventView::Present { hash: init[i], tier: LocalTier::L3 });
                assert(blocks[i] == init[i]);
            } else {
                assert(ev == pair[k - rest.len()]);
                assert(blocks[blocks.len() - 1] == blocks.last());
            }
        }
        if rest.contains(ev) {
            let k = choose|k: int| 0 <= k < rest.len() && rest[k] == ev;
            assert(all[k] == ev);
        }
        if exists|i: int|
            0 <= i < blocks.len() && (ev == EventView::Absent {
                hash: #[trigger] blocks[i],
                tier: LocalTier::L2,
            } || ev == EventView::Present { hash: blocks[i], tier: LocalTier::L3 }) {
            let i = choose|i: int|
                0 <= i < blocks.len() && (ev == EventView::Absent {
                    hash: #[trigger] blocks[i],
                    tier: LocalTier::L2,
                } || ev == EventView::Present { hash: blocks[i], tier: LocalTier::L3 });
            if i < init.len() {
                assert(init[i] == blocks[i]);
            }
        }
    }
}

proof fn lemma_effect_events(fx: EffectsView, ev: EventView)
    ensures
        effect_events(fx).contains(ev) <==> (match ev {
            EventView::Absent { hash, tier } => tier == LocalTier::L0 && fx.l0_demoted.contains(
                hash,
            ) || tier == LocalTier::L2 && fx.l2_demoted_to_l3.contains(hash),
            EventView::Present { hash, tier } => tier == LocalTier::L3
                && fx.l2_demoted_to_l3.contains(hash),
            EventView::Moved { .. } => false,
        }),
{
    let a = l0_absent(fx.l0_demoted);
    let b = l2_shed(fx.l2_demoted_to_l3);
    let all = effect_events(fx);
    lemma_l2_shed(fx.l2_demoted_to_l3, ev);
    if all.contains(ev) {
        let k = choose|k: int| 0 <= k < all.len() && all[k] == ev;
        if k < a.len() {
            assert(a[k] == ev);
            assert(fx.l0_demoted.contains(fx.l0_demoted[k]));
        } else {
            assert(b[k - a.len()] == ev);
            assert(b.contains(ev));
        }
    }
    if b.contains(ev) {
        let k = choose|k: int| 0 <= k < b.len() && b[k] == ev;
        assert(all[a.len() + k] == ev);
    }
    match ev {
        EventView::Absent { hash, tier } => {
            if tier == LocalTier::L0 && fx.l0_demoted.contains(hash) {
                let k = choose|k: int| 0 <= k < fx.l0_demoted.len() && fx.l0_demoted[k] == hash;
                assert(a[k] == ev);
                assert(all[k] == ev);
            }
        },
        _ => {},
    }
}

proof fn lemma_move_events(moves: Seq<RelocateView>, node_id: Seq<char>, ev: EventView)
    ensures
        move_events(moves, node_id).contains(ev) <==> exists|i: int|
            0 <= i < moves.len() && (#[trigger] moves[i]).from != moves[i].to && ev
                == (EventView::Moved {
                hash: moves[i].hash,
                tier: LocalTier::L2,
                segment_id: moves[i].to.segment_id,
                offset: moves[i].to.offset,
                node_id,
            }),
    decreases moves.len(),
{
    let all = move_events(moves, node_id);
    if moves.len() > 0 {
        let init = moves.drop_last();
        let rest = move_events(init, node_id);
        lemma_move_events(init, node_id, ev);
        let m = moves.last();
        if m.from != m.to {
            assert(all == rest.push(all.last()));
        }
        if all.contains(ev) {
            let k = choose|k: int| 0 <= k < all.len() && all[k] == ev;
            if k < rest.len() {
                assert(rest[k] == ev);
                let i = choose|i: int|
                    0 <= i < init.len() && (#[trigger] init[i]).from != init[i].to && ev
                        == (EventView::Moved {
                        hash: init[i].hash,
                        tier: LocalTier::L2,
                        segment_id: init[i].to.segment_id,
                        offset: init[i].to.offset,
                        node_id,
                    });
                assert(moves[i] == init[i]);
            } else {
                assert(moves[moves.len() - 1] == m);
            }
        }
        if rest.contains(ev) {
            let k = choose|k: int| 0 <= k < rest.len() && rest[k] == ev;
            assert(all[k] == ev);
        }
        if exists|i: int|
            0 <= i < moves.len() && (#[trigger] moves[i]).from != moves[i].to && ev
                == (EventView::Moved {
                hash: moves[i].hash,
                tier: LocalTier::L2,
                segment_id: moves[i].to.segment_id,
                offset: moves[i].to.offset,
                node_id,
            }) {
            let i = choose|i: int|
                0 <= i < moves.len() && (#[trigger] moves[i]).from != moves[i].to && ev
                    == (EventView::Moved {
                    hash: moves[i].hash,
                    tier: LocalTier::L2,
                    segment_id: moves[i].to.segment_id,
                    offset: moves[i].to.offset,
                    node_id,
                });
            if i < init.len() {
                assert(init[i] == moves[i]);
            } else {
                assert(all[rest.len() as int] == ev);
            }
        }
    }
}

/// The events of an action that succeeds tell every change of where a block is: a block that
/// came into L0 or left it, one that left L2 for L3, and one that moved within the layout of
/// L2.
pub proof fn events_tell_every_move(s: PipelineView, action: ActionView, x: Seq<u8>)
    requires
        s.engine.wf(),
        s.run(action).1 is Some,
    ensures
        ({
            let before = s.engine;
            let after = s.run(action).0;
            let events = s.run(action).1->0;
            &&& before.l2.contains_key(x) && !after.l2.contains_key(x) ==> after.l3.contains_key(x)
                && events.contains(EventView::Absent { hash: x, tier: LocalTier::L2 })
                && events.contains(EventView::Present { hash: x, tier: LocalTier::L3 })
            &&& before.l0.contains_key(x) && !after.l0.contains_key(x) ==> events.contains(
                EventView::Absent { hash: x, tier: LocalTier::L0 },
            )
            &&& !before.l0.contains_key(x) && after.l0.contains_key(x) ==> events.contains(
                EventView::Present { hash: x, tier: LocalTier::L0 },
            )
            &&& !before.l3.contains_key(x) && after.l3.contains_key(x) ==> events.contains(
                EventView::Present { hash: x, tier: LocalTier::L3 },
            )
            &&& before.arena.placed.contains_key(x) && after.arena.placed.contains_key(x)
                && before.arena.placed[x] != after.arena.placed[x] ==> events.contains(
                EventView::Moved {
                    hash: x,
                    tier: LocalTier::L2,
                    segment_id: after.arena.placed[x].segment_id,
                    offset: after.arena.placed[x].offset,
                    node_id: s.node_id,
                },
            )
        }),
{
    reveal(PipelineView::run);
    let events = s.run(action).1->0;
    let e = s.engine;
    match action {
        ActionView::Promote { hash } | ActionView::FillMiss { hash } => {
            lemma_promotion_told(s, hash, x);
        },
        ActionView::DemoteL0 { hash } => {
            assert(events[0] == EventView::Absent { hash, tier: LocalTier::L0 });
        },
        ActionView::DemoteL2 { hash } => {
            assert(events[0] == EventView::Absent { hash, tier: LocalTier::L2 });
            assert(events[1] == EventView::Present { hash, tier: LocalTier::L3 });
        },
        ActionView::CompactSegment { segment_id } => {
            let to = e.arena.compact(segment_id).placed[x];
            let m = RelocateView { hash: x, from: e.arena.placed[x], to };
            let moves = e.arena.compact_moves(segment_id)->Ok_0;
            segment::packing_tells_its_moves(e.arena, segment_id, m);
            lemma_move_events(
                moves,
                s.node_id,
                EventView::Moved {
                    hash: x,
                    tier: LocalTier::L2,
                    segment_id: to.segment_id,
                    offset: to.offset,
                    node_id: s.node_id,
                },
            );
            if moves.contains(m) {
                let k = choose|k: int| 0 <= k < moves.len() && moves[k] == m;
                assert(moves[k].from != moves[k].to);
            }
        },
        ActionView::CoLocateMove { hash, dest_segment, dest_offset } => {
            segment::moving_changes_one_place(
                e.arena,
                hash,
                dest_segment,
                dest_offset,
                x,
            );
            let m = e.colocated(hash, dest_segment, dest_offset).1->Ok_0;
            lemma_move_events(
                seq![m],
                s.node_id,
                EventView::Moved {
                    hash: x,
                    tier: LocalTier::L2,
                    segment_id: m.to.segment_id,
                    offset: m.to.offset,
                    node_id: s.node_id,
                },
            );
            assert(seq![m][0] == m);
        },
    }
}

/// What a promotion tells of a block.
proof fn lemma_promotion_told(s: PipelineView, hash: Seq<u8>, x: Seq<u8>)
    requires
        s.engine.wf(),
        s.run_promote(hash).1 is Some,
    ensures
        ({
            let after = s.run_promote(hash).0;
            let events = s.run_promote(hash).1->0;
            &&& s.engine.l2.contains_key(x) && !after.l2.contains_key(x) ==> after.l3.contains_key(
                x,
            )
            &&& events.contains(EventView::Absent { hash: x, tier: LocalTier::L2 }) ==> !after.l2.contains_key(
                x,
            )
            &&& events.contains(EventView::Absent { hash: x, tier: LocalTier::L0 }) ==> !after.l0.contains_key(
                x,
            )
            &&& events.contains(EventView::Present { hash: x, tier: LocalTier::L3 }) ==> after.l3.contains_key(
                x,
            )
            &&& s.engine.l2.contains_key(x) && !after.l2.contains_key(x) ==> events.contains(
                EventView::Absent { hash: x, tier: LocalTier::L2 },
            ) && events.contains(EventView::Present { hash: x, tier: LocalTier::L3 })
            &&& s.engine.l0.contains_key(x) && !after.l0.contains_key(x) ==> events.contains(
                EventView::Absent { hash: x, tier: LocalTier::L0 },
            )
            &&& !s.engine.l3.contains_key(x) && after.l3.contains_key(x) ==> events.contains(
                EventView::Present { hash: x, tier: LocalTier::L3 },
            )
            &&& (x == hash) == events.contains(EventView::Present { hash: x, tier: LocalTier::L0 })
            &&& !s.engine.l0.contains_key(x) && after.l0.contains_key(x) ==> x == hash
            &&& after.l0.contains_key(hash)
            &&& s.engine.arena.placed.contains_key(x) && after.arena.placed.contains_key(x)
                ==> after.arena.placed[x] == s.engine.arena.placed[x]
            &&& forall|ev: EventView| #[trigger]
                events.contains(ev) ==> match ev {
                    EventView::Moved { .. } => false,
                    EventView::Present { tier, .. } => tier == LocalTier::L0 || tier
                        == LocalTier::L3,
                    EventView::Absent { tier, .. } => tier == LocalTier::L0 || tier
                        == LocalTier::L2,
                }
        }),
{
    let e = s.engine;
    let fx = e.promoted(hash).1->Ok_0.1;
    let events = s.run_promote(hash).1->0;
    let told = effect_events(fx);
    let here = EventView::Present { hash, tier: LocalTier::L0 };
    engine::promotion_tells_its_effects(e, hash, x);
    engine::promotion_serves_same_bytes(e, hash, x);
    assert(events[told.len() as int] == here);
    assert forall|ev: EventView| #[trigger] events.contains(ev) <==> ev == here || told.contains(
        ev,
    ) by {
        if events.contains(ev) {
            let k = choose|k: int| 0 <= k < events.len() && events[k] == ev;
            if k < told.len() {
                assert(told[k] == ev);
            }
        }
        if told.contains(ev) {
            let k = choose|k: int| 0 <= k < told.len() && told[k] == ev;
            assert(events[k] == ev);
        }
    }
    lemma_effect_events(fx, EventView::Absent { hash: x, tier: LocalTier::L2 });
    lemma_effect_events(fx, EventView::Present { hash: x, tier: LocalTier::L3 });
    lemma_effect_events(fx, EventView::Absent { hash: x, tier: LocalTier::L0 });
    lemma_effect_events(fx, EventView::Present { hash: x, tier: LocalTier::L0 });
    assert forall|ev: EventView| #[trigger] events.contains(ev) implies match ev {
        EventView::Moved { .. } => false,
        EventView::Present { tier, .. } => tier == LocalTier::L0 || tier == LocalTier::L3,
        EventView::Absent { tier, .. } => tier == LocalTier::L0 || tier == LocalTier::L2,
    } by {
        lemma_effect_events(fx, ev);
    }
}

/// The events of an action that succeeds are true: a block said to be in a tier is there
/// afterwards, one said to be gone is not, and one said to have moved stands where it is said
/// to.
pub proof fn events_are_true(s: PipelineView, action: ActionView, x: Seq<u8>)
    requires
        s.engine.wf(),
        s.run(action).1 is Some,
    ensures
        ({
            let after = s.run(action).0;
            let events = s.run(action).1->0;
            &&& events.contains(EventView::Present { hash: x, tier: LocalTier::L0 })
                ==> after.l0.contains_key(x)
            &&& events.contains(EventView::Absent { hash: x, tier: LocalTier::L0 })
                ==> !after.l0.contains_key(x)
            &&& events.contains(EventView::Absent { hash: x, tier: LocalTier::L2 })
                ==> !after.l2.contains_key(x)
            &&& events.contains(EventView::Present { hash: x, tier: LocalTier::L3 })
                ==> after.l3.contains_key(x)
            &&& forall|ev: EventView| #[trigger]
                events.contains(ev) ==> match ev {
                    EventView::Present { tier, .. } => tier == LocalTier::L0 || tier
                        == LocalTier::L3,
                    EventView::Absent { tier, .. } => tier == LocalTier::L0 || tier
                        == LocalTier::L2,
                    EventView::Moved { hash, tier, segment_id, offset, node_id } => tier
                        == LocalTier::L2 && node_id == s.node_id && after.arena.placed[hash]
                        == (segment::Placement { segment_id, offset })
                        && after.arena.placed[hash] != s.engine.arena.placed[hash],
                }
        }),
{
    reveal(PipelineView::run);
    let events = s.run(action).1->0;
    let after = s.run(action).0;
    let e = s.engine;
    match action {
        ActionView::Promote { hash } | ActionView::FillMiss { hash } => {
            lemma_promotion_told(s, hash, x);
        },
        ActionView::DemoteL0 { hash } => {},
        ActionView::DemoteL2 { hash } => {},
        ActionView::CompactSegment { segment_id } => {
            let moves = e.arena.compact_moves(segment_id)->Ok_0;
            assert forall|ev: EventView| #[trigger] events.contains(ev) implies match ev {
                EventView::Moved { hash, tier, segment_id, offset, node_id } => tier
                    == LocalTier::L2 && node_id == s.node_id && after.arena.placed[hash] == (
                segment::Placement { segment_id, offset }) && after.arena.placed[hash]
                    != s.engine.arena.placed[hash],
                _ => false,
            } by {
                lemma_move_events(moves, s.node_id, ev);
                let i = choose|i: int|
                    0 <= i < moves.len() && (#[trigger] moves[i]).from != moves[i].to && ev
                        == (EventView::Moved {
                        hash: moves[i].hash,
                        tier: LocalTier::L2,
                        segment_id: moves[i].to.segment_id,
                        offset: moves[i].to.offset,
                        node_id: s.node_id,
                    });
                assert(moves.contains(moves[i]));
                segment::packing_tells_its_moves(e.arena, segment_id, moves[i]);
            }
        },
        ActionView::CoLocateMove { hash, dest_segment, dest_offset } => {
            segment::moving_changes_one_place(
                e.arena,
                hash,
                dest_segment,
                dest_offset,
                x,
            );
            let m = e.colocated(hash, dest_segment, dest_offset).1->Ok_0;
            assert forall|ev: EventView| #[trigger] events.contains(ev) implies match ev {
                EventView::Moved { hash, tier, segment_id, offset, node_id } => tier
                    == LocalTier::L2 && node_id == s.node_id && after.arena.placed[hash] == (
                segment::Placement { segment_id, offset }) && after.arena.placed[hash]
                    != s.engine.arena.placed[hash],
                _ => false,
            } by {
                lemma_move_events(seq![m], s.node_id, ev);
            }
        },
    }
}

/// An action that succeeds takes from the budget what the engine says it moved, a slot for each
/// block of a segment that is packed and at least a slot for one that is moved within the
/// layout, and from the queue nothing but itself; one that fails goes to the back of the queue and costs nothing.
pub proof fn budget_pays_for_what_moves(s: PipelineView)
    requires
        s.engine.wf(),
        s.queue.len() > 0,
        s.affords(s.queue[0]),
        s.remaining <= s.window_bytes,
    ensures
        ({
            let t = s.tried();
            let e = s.engine;
            let done = s.run(s.queue[0]).1 is Some;
            &&& done ==> t.queue == s.queue.skip(1)
            &&& !done ==> t.queue == s.queue.skip(1).push(s.queue[0]) && t.remaining == s.remaining
            &&& done ==> match s.queue[0] {
                ActionView::Promote { hash } => t.remaining == s.remaining - e.promoted(
                    hash,
                ).1->Ok_0.0,
                ActionView::FillMiss { hash } => t.remaining == s.remaining - e.promoted(
                    hash,
                ).1->Ok_0.0,
                ActionView::DemoteL0 { hash } => t.remaining == s.remaining - e.demoted_l0(
                    hash,
                ).1->Ok_0,
                ActionView::DemoteL2 { hash } => t.remaining == s.remaining - e.demoted_l2(
                    hash,
                ).1->Ok_0,
                ActionView::CompactSegment { segment_id } => t.remaining == s.remaining
                    - segment::standing_in(e.arena, segment_id).len() * e.arena.slot_bytes,
                ActionView::CoLocateMove { hash, .. } => t.remaining == s.remaining - (if e.l2[hash].len()
                    > e.arena.slot_bytes {
                    e.l2[hash].len() as int
                } else {
                    e.arena.slot_bytes as int
                }),
            }
        }),
{
    reveal(PipelineView::tried);
    reveal(PipelineView::run);
    reveal(PipelineView::cost);
    lemma_cost_is_positive(s, s.queue[0]);
    let e = s.engine;
    match s.queue[0] {
        ActionView::Promote { hash } | ActionView::FillMiss { hash } => {
            assert(e.l1.contains_key(hash) ==> e.l1[hash].len() * 3 <= u64::MAX);
            assert(e.l2.contains_key(hash) ==> e.l2[hash].len() * 3 <= u64::MAX);
            assert(e.l3.contains_key(hash) ==> e.l3[hash].len() * 3 <= u64::MAX);
        },
        ActionView::DemoteL0 { hash } => {
            assert(e.l0.contains_key(hash) ==> e.l0[hash].len() * 3 <= u64::MAX);
        },
        ActionView::DemoteL2 { hash } => {
            assert(e.l2.contains_key(hash) ==> e.l2[hash].len() * 3 <= u64::MAX);
        },
        ActionView::CompactSegment { segment_id } => {
            if e.arena.segments.contains_key(segment_id) {
                segment::live_blocks_stand_in_their_segment(e.arena, segment_id);
            }
        },
        ActionView::CoLocateMove { .. } => {},
    }
}

/// What events say last of whether a block is in a tier.
pub open spec fn last_word(events: Seq<EventView>, x: Seq<u8>, tier: LocalTier) -> Option<bool>
    decreases events.len(),
{
    if events.len() == 0 {
        None
    } else if events.last() == (EventView::Present { hash: x, tier }) {
        Some(true)
    } else if events.last() == (EventView::Absent { hash: x, tier }) {
        Some(false)
    } else {
        last_word(events.drop_last(), x, tier)
    }
}

proof fn lemma_last_word(events: Seq<EventView>, x: Seq<u8>, tier: LocalTier)
    ensures
        match last_word(events, x, tier) {
            Some(true) => events.contains(EventView::Present { hash: x, tier }),
            Some(false) => events.contains(EventView::Absent { hash: x, tier }),
            None => !events.contains(EventView::Present { hash: x, tier }) && !events.contains(
                EventView::Absent { hash: x, tier },
            ),
        },
    decreases events.len(),
{
    if events.len() > 0 {
        let init = events.drop_last();
        lemma_last_word(init, x, tier);
        let here = EventView::Present { hash: x, tier };
        let gone = EventView::Absent { hash: x, tier };
        assert(events[events.len() - 1] == events.last());
        if init.contains(here) {
            let i = choose|i: int| 0 <= i < init.len() && init[i] == here;
            assert(events[i] == here);
        }
        if init.contains(gone) {
            let i = choose|i: int| 0 <= i < init.len() && init[i] == gone;
            assert(events[i] == gone);
        }
        if events.contains(here) {
            let i = choose|i: int| 0 <= i < events.len() && events[i] == here;
            if i < init.len() {
                assert(init[i] == here);
            }
        }
        if events.contains(gone) {
            let i = choose|i: int| 0 <= i < events.len() && events[i] == gone;
            if i < init.len() {
                assert(init[i] == gone);
            }
        }
    }
}

proof fn lemma_last_word_of_both(a: Seq<EventView>, b: Seq<EventView>, x: Seq<u8>, tier: LocalTier)
    ensures
        last_word(a + b, x, tier) == match last_word(b, x, tier) {
            Some(w) => Some(w),
            None => last_word(a, x, tier),
        },
    decreases b.len(),
{
    if b.len() == 0 {
        assert(a + b =~= a);
    } else {
        lemma_last_word_of_both(a, b.drop_last(), x, tier);
        assert((a + b).drop_last() =~= a + b.drop_last());
        assert((a + b).last() == b.last());
    }
}

/// The events of a tick tell what L0 holds: whoever starts from what it held before and goes
/// by the last event of each block knows what it holds afterwards.
pub proof fn events_of_a_tick_mirror_l0(
    s: PipelineView,
    steps: nat,
    fails: nat,
    patience: nat,
    x: Seq<u8>,
)
    requires
        s.ready(steps),
    ensures
        ({
            let (t, n, events) = s.ticked(steps, fails, patience);
            t.engine.l0.contains_key(x) == match last_word(events, x, LocalTier::L0) {
                Some(w) => w,
                None => s.engine.l0.contains_key(x),
            }
        }),
    decreases steps,
{
    reveal(PipelineView::ready);
    if !(steps == 0 || s.queue.len() == 0 || !s.affords(s.queue[0])) {
        let action = s.queue[0];
        let t = s.tried();
        lemma_tried_ready(s, steps);
        match s.run(action).1 {
            Some(events) => {
                events_of_a_tick_mirror_l0(t, (steps - 1) as nat, 0, patience, x);
                events_tell_every_move(s, action, x);
                events_are_true(s, action, x);
                lemma_last_word(events, x, LocalTier::L0);
                let later = t.ticked((steps - 1) as nat, 0, patience).2;
                lemma_last_word_of_both(events, later, x, LocalTier::L0);
                reveal(PipelineView::tried);
            },
            None => {
                lemma_failure_keeps_l0(s, action);
                if fails + 1 < patience {
                    events_of_a_tick_mirror_l0(t, (steps - 1) as nat, fails + 1, patience, x);
                }
                reveal(PipelineView::tried);
            },
        }
    }
}

/// An action that fails leaves L0 as it is.
proof fn lemma_failure_keeps_l0(s: PipelineView, action: ActionView)
    requires
        s.run(action).1 is None,
    ensures
        s.run(action).0.l0 == s.engine.l0,
{
    match action {
        ActionView::Promote { hash } => {
            lemma_failed_promotion(s, hash);
            assert(s.run(action) == s.run_promote(hash)) by {
                reveal(PipelineView::run);
            }
        },
        ActionView::FillMiss { hash } => {
            lemma_failed_promotion(s, hash);
            assert(s.run(action) == s.run_promote(hash)) by {
                reveal(PipelineView::run);
            }
        },
        _ => {
            reveal(PipelineView::run);
        },
    }
}

proof fn lemma_failed_promotion(s: PipelineView, hash: Seq<u8>)
    ensures
        s.run_promote(hash).1 is None ==> s.run_promote(hash).0.l0 == s.engine.l0,
{
    if s.engine.promoted(hash).1 is Err {
        engine::failed_promotion_keeps_l0(s.engine, hash);
    }
}

/// After an attempt the pipeline is ready for one fewer.
proof fn lemma_tried_ready(s: PipelineView, steps: nat)
    requires
        s.ready(steps),
        steps > 0,
        s.queue.len() > 0,
    ensures
        s.tried().ready((steps - 1) as nat),
{
    reveal(PipelineView::ready);
    lemma_seg_step(s, steps);
    lemma_run_keeps_wf(s, steps);
    reveal(PipelineView::tried);
}

proof fn lemma_run_keeps_wf(s: PipelineView, steps: nat)
    requires
        s.engine.wf(),
        s.has_segments(steps),
        steps > 0,
        s.queue.len() > 0,
    ensures
        s.run(s.queue[0]).0.wf(),
{
    reveal(PipelineView::run);
    match s.queue[0] {
        ActionView::Promote { hash } => {
            engine::promotion_keeps_wf(s.engine, hash);
        },
        ActionView::FillMiss { hash } => {
            engine::promotion_keeps_wf(s.engine, hash);
        },
        ActionView::DemoteL0 { hash } => {
            engine::leaving_keeps_wf(s.engine, hash);
        },
        ActionView::DemoteL2 { hash } => {
            engine::leaving_keeps_wf(s.engine, hash);
        },
        ActionView::CompactSegment { segment_id } => {
            engine::packing_keeps_wf(s.engine, segment_id);
        },
        ActionView::CoLocateMove { hash, dest_segment, dest_offset } => {
            engine::moving_keeps_wf(s.engine, hash, dest_segment, dest_offset);
        },
    }
}

} // verus!
