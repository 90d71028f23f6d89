//! What a node's pipeline did, told to the control plane; and what the control plane
//! planned, handed to the pipeline.

use vstd::prelude::*;
use vstd::string::*;

use crate::agent::port;
use crate::agent::port::{AuthorityPort, AuthorityPortView, ControlPlanePort, PortCall};
use crate::base::keys;
use crate::base::keys::Dup;
use crate::control::locations;
use crate::control::namespace::BlockKeyView;
use crate::control::upkeep;
use crate::proto::{DefragMove, DefragMoveView, LocationView, PoolKind, Tier};
use crate::tier::engine::LocalTier;
use crate::tier::pipeline::{
    ActionView, EventView, LocationEvent, PipelineAction, PipelineView, TierPipeline,
};

verus! {

/// Whose blocks the events are about.
#[verifier::ext_equal]
pub struct SourceView {
    pub ns: (Seq<char>, Seq<char>),
    pub pool_kind: i32,
    pub node_id: Seq<char>,
}

/// The tier of the wire.
pub open spec fn wire_tier(tier: LocalTier) -> Tier {
    match tier {
        LocalTier::L0 => Tier::L0,
        LocalTier::L1 => Tier::L1,
        LocalTier::L2 => Tier::L2,
        LocalTier::L3 => Tier::L3,
    }
}

/// How a coming or going is told: object storage is told of as such, the other tiers
/// by node.
pub open spec fn presence_call(
    src: SourceView,
    hash: Seq<u8>,
    tier: LocalTier,
    present: bool,
) -> PortCall {
    if tier == LocalTier::L3 {
        PortCall::L3 { ns: src.ns, pool_kind: src.pool_kind, flat: hash, present }
    } else {
        PortCall::Publish {
            ns: src.ns,
            pool_kind: src.pool_kind,
            flat: hash,
            tier: wire_tier(tier),
            node_id: src.node_id,
            present,
        }
    }
}

/// How an event is told. A move that names no node is this node's; object storage has
/// no places, so nothing is told of a move there.
pub open spec fn event_calls(src: SourceView, ev: EventView) -> Seq<PortCall> {
    match ev {
        EventView::Present { hash, tier } => seq![presence_call(src, hash, tier, true)],
        EventView::Absent { hash, tier } => seq![presence_call(src, hash, tier, false)],
        EventView::Moved { hash, tier, segment_id, offset, node_id } => if tier == LocalTier::L3 {
            Seq::empty()
        } else {
            seq![
                PortCall::Relocate {
                    ns: src.ns,
                    pool_kind: src.pool_kind,
                    flat: hash,
                    tier: wire_tier(tier),
                    node_id: if node_id.len() == 0 {
                        src.node_id
                    } else {
                        node_id
                    },
                    segment_id,
                    offset,
                },
            ]
        },
    }
}

/// How events are told, in order.
pub open spec fn events_calls(src: SourceView, events: Seq<EventView>) -> Seq<PortCall>
    decreases events.len(),
{
    if events.len() == 0 {
        Seq::empty()
    } else {
        events_calls(src, events.drop_last()) + event_calls(src, events.last())
    }
}

/// Later events add calls behind those of earlier ones.
proof fn lemma_events_split(src: SourceView, events: Seq<EventView>, i: int)
    requires
        0 <= i <= events.len(),
    ensures
        exists|rest: Seq<PortCall>| #[trigger]
            (events_calls(src, events.take(i)) + rest) == events_calls(src, events),
    decreases events.len() - i,
{
    if i == events.len() {
        assert(events.take(i) =~= events);
        assert(events_calls(src, events) + Seq::<PortCall>::empty() =~= events_calls(src, events));
    } else {
        lemma_events_split(src, events, i + 1);
        let a = events_calls(src, events.take(i));
        let b = event_calls(src, events[i]);
        assert(events.take(i + 1).drop_last() =~= events.take(i));
        let rest = choose|rest: Seq<PortCall>| #[trigger]
            (events_calls(src, events.take(i + 1)) + rest) == events_calls(src, events);
        assert(a + (b + rest) =~= (a + b) + rest);
    }
}

/// Where an event is refused, all that follows is left out.
proof fn lemma_events_stop<P: ControlPlanePort>(
    state: P::State,
    src: SourceView,
    events: Seq<EventView>,
    i: int,
)
    requires
        0 <= i <= events.len(),
        port::sent::<P>(state, events_calls(src, events.take(i))).1 is Err,
    ensures
        port::sent::<P>(state, events_calls(src, events)) == port::sent::<P>(
            state,
            events_calls(src, events.take(i)),
        ),
{
    lemma_events_split(src, events, i);
    let a = events_calls(src, events.take(i));
    let rest = choose|rest: Seq<PortCall>| #[trigger]
        (events_calls(src, events.take(i)) + rest) == events_calls(src, events);
    port::refusal_ends_sending::<P>(state, a, rest);
}

/// Tells a coming or going.
fn tell_presence<P: ControlPlanePort>(
    cp: &mut P,
    model_id: &str,
    revision: &str,
    pool_kind: i32,
    node_id: &str,
    hash: &Vec<u8>,
    tier: LocalTier,
    present: bool,
) -> (r: Result<(), String>)
    requires
        old(cp).ready(),
    ensures
        (final(cp).state(), keys::told(r)) == P::answer(
            old(cp).state(),
            presence_call(
                SourceView { ns: (model_id@, revision@), pool_kind, node_id: node_id@ },
                hash@,
                tier,
                present,
            ),
        ),
        final(cp).ready(),
{
    let flat = hash.as_slice();
    match tier {
        LocalTier::L0 => cp.publish_location(
            model_id,
            revision,
            pool_kind,
            flat,
            Tier::L0,
            node_id,
            present,
        ),
        LocalTier::L1 => cp.publish_location(
            model_id,
            revision,
            pool_kind,
            flat,
            Tier::L1,
            node_id,
            present,
        ),
        LocalTier::L2 => cp.publish_location(
            model_id,
            revision,
            pool_kind,
            flat,
            Tier::L2,
            node_id,
            present,
        ),
        LocalTier::L3 => cp.set_l3_present(model_id, revision, pool_kind, flat, present),
    }
}

/// Tells the control plane what the pipeline did, up to the first refusal.
pub fn apply_location_events<P: ControlPlanePort>(
    cp: &mut P,
    model_id: &str,
    revision: &str,
    pool_kind: i32,
    node_id: &str,
    events: &[LocationEvent],
) -> (r: Result<(), String>)
    requires
        old(cp).ready(),
    ensures
        (final(cp).state(), keys::told(r)) == port::sent::<P>(
            old(cp).state(),
            events_calls(
                SourceView { ns: (model_id@, revision@), pool_kind, node_id: node_id@ },
                keys::views(events@),
            ),
        ),
        final(cp).ready(),
{
    let ghost src = SourceView { ns: (model_id@, revision@), pool_kind, node_id: node_id@ };
    let ghost all = keys::views(events@);
    let ghost start = cp.state();
    let mut i: usize = 0;
    assert(all.take(0) =~= Seq::empty());
    while i < events.len()
        invariant
            i <= events@.len(),
            all == keys::views(events@),
            src == (SourceView { ns: (model_id@, revision@), pool_kind, node_id: node_id@ }),
            cp.ready(),
            start == old(cp).state(),
            (cp.state(), Ok::<(), Seq<char>>(())) == port::sent::<P>(
                start,
                events_calls(src, all.take(i as int)),
            ),
        decreases events.len() - i,
    {
        let ghost before = events_calls(src, all.take(i as int));
        let ghost now = events_calls(src, all.take(i + 1));
        proof {
            assert(all.take(i + 1).drop_last() =~= all.take(i as int));
            assert(all.take(i + 1).last() == events@[i as int]@);
        }
        let r = match &events[i] {
            LocationEvent::Present { hash, tier } => {
                proof {
                    let call = presence_call(src, hash@, *tier, true);
                    assert(now =~= before.push(call));
                    port::sent_then::<P>(start, before, call);
                }
                tell_presence(cp, model_id, revision, pool_kind, node_id, hash, *tier, true)
            },
            LocationEvent::Absent { hash, tier } => {
                proof {
                    let call = presence_call(src, hash@, *tier, false);
                    assert(now =~= before.push(call));
                    port::sent_then::<P>(start, before, call);
                }
                tell_presence(cp, model_id, revision, pool_kind, node_id, hash, *tier, false)
            },
            LocationEvent::Moved { hash, tier, segment_id, offset, node_id: moved_on } => {
                let n: &str = if moved_on.as_str().is_empty() {
                    node_id
                } else {
                    moved_on.as_str()
                };
                let wire = match tier {
                    LocalTier::L0 => Some(Tier::L0),
                    LocalTier::L1 => Some(Tier::L1),
                    LocalTier::L2 => Some(Tier::L2),
                    LocalTier::L3 => None,
                };
                match wire {
                    None => {
                        assert(now =~= before);
                        Ok(())
                    },
                    Some(wire) => {
                        proof {
                            let call = event_calls(src, all[i as int])[0];
                            assert(now =~= before.push(call));
                            port::sent_then::<P>(start, before, call);
                        }
                        cp.relocate_in_view(
                            model_id,
                            revision,
                            pool_kind,
                            hash.as_slice(),
                            wire,
                            n,
                            *segment_id,
                            *offset,
                        )
                    },
                }
            },
        };
        assert((cp.state(), keys::told(r)) == port::sent::<P>(start, now));
        match r {
            Err(e) => {
                proof {
                    lemma_events_stop::<P>(start, src, all, i + 1);
                }
                return Err(e);
            },
            Ok(_) => {},
        }
        i += 1;
    }
    assert(all.take(i as int) =~= all);
    Ok(())
}

/// What a planned move asks of the pipeline of a node: nothing where it is another
/// node's, or names no block.
pub open spec fn move_action(node_id: Seq<char>, m: DefragMoveView) -> Option<ActionView> {
    if m.node_id.len() > 0 && m.node_id != node_id {
        None
    } else if m.compact_segment {
        Some(ActionView::CompactSegment { segment_id: m.segment_id })
    } else {
        match m.id {
            Some(id) => Some(
                ActionView::CoLocateMove {
                    hash: id.block_hash,
                    dest_segment: m.to_segment,
                    dest_offset: m.to_offset,
                },
            ),
            None => None,
        }
    }
}

/// What planned moves ask of the pipeline, in order.
pub open spec fn move_actions(node_id: Seq<char>, moves: Seq<DefragMoveView>) -> Seq<ActionView>
    decreases moves.len(),
{
    if moves.len() == 0 {
        Seq::empty()
    } else {
        match move_action(node_id, moves.last()) {
            Some(a) => move_actions(node_id, moves.drop_last()).push(a),
            None => move_actions(node_id, moves.drop_last()),
        }
    }
}

/// Hands planned moves of this node to its pipeline.
pub fn enqueue_defrag_moves(pipe: &mut TierPipeline, moves: &[DefragMove])
    ensures
        final(pipe)@ == (PipelineView {
            queue: old(pipe)@.queue + move_actions(old(pipe)@.node_id, keys::views(moves@)),
            ..old(pipe)@
        }),
{
    let ghost all = keys::views(moves@);
    let ghost node = pipe@.node_id;
    let mut i: usize = 0;
    assert(all.take(0) =~= Seq::empty());
    assert(pipe@.queue + move_actions(node, all.take(0)) =~= pipe@.queue);
    while i < moves.len()
        invariant
            i <= moves@.len(),
            all == keys::views(moves@),
            node == old(pipe)@.node_id,
            pipe@ == (PipelineView {
                queue: old(pipe)@.queue + move_actions(node, all.take(i as int)),
                ..old(pipe)@
            }),
        decreases moves.len() - i,
    {
        let ghost before = move_actions(node, all.take(i as int));
        proof {
            assert(all.take(i + 1).drop_last() =~= all.take(i as int));
            assert(all.take(i + 1).last() == moves@[i as int]@);
        }
        let m = &moves[i];
        if m.node_id.as_str().is_empty() || m.node_id == pipe.node_id {
            if m.compact_segment {
                let action = PipelineAction::CompactSegment { segment_id: m.segment_id };
                proof {
                    assert(old(pipe)@.queue + before.push(action@) =~= (old(pipe)@.queue
                        + before).push(action@));
                }
                pipe.enqueue(action);
            } else if let Some(id) = &m.id {
                let action = PipelineAction::CoLocateMove {
                    hash: id.block_hash.dup(),
                    dest_segment: m.to_segment,
                    dest_offset: m.to_offset,
                };
                proof {
                    assert(old(pipe)@.queue + before.push(action@) =~= (old(pipe)@.queue
                        + before).push(action@));
                }
                pipe.enqueue(action);
            }
        }
        i += 1;
    }
    assert(all.take(i as int) =~= all);
}

/// Lets background work go on, or stops it.
pub fn sync_background_pause(pipe: &mut TierPipeline, paused: bool)
    ensures
        final(pipe)@ == (PipelineView { paused, ..old(pipe)@ }),
{
    if paused {
        pipe.bandwidth.pause();
    } else {
        pipe.bandwidth.resume();
    }
}

proof fn lemma_calls_in_parts(src: SourceView, a: Seq<EventView>, b: Seq<EventView>)
    ensures
        events_calls(src, a + b) == events_calls(src, a) + events_calls(src, b),
    decreases b.len(),
{
    if b.len() == 0 {
        assert(a + b =~= a);
        assert(events_calls(src, a) + events_calls(src, b) =~= events_calls(src, a));
    } else {
        lemma_calls_in_parts(src, a, b.drop_last());
        assert((a + b).drop_last() =~= a + b.drop_last());
        assert(events_calls(src, a + b) =~= events_calls(src, a) + events_calls(src, b));
    }
}

/// Events told one after the other are told as if at once, as long as none is refused.
pub proof fn events_are_told_in_parts<P: ControlPlanePort>(
    c: P::State,
    src: SourceView,
    a: Seq<EventView>,
    b: Seq<EventView>,
)
    requires
        port::sent::<P>(c, events_calls(src, a)).1 is Ok,
    ensures
        port::sent::<P>(c, events_calls(src, a + b)) == port::sent::<P>(
            port::sent::<P>(c, events_calls(src, a)).0,
            events_calls(src, b),
        ),
{
    lemma_calls_in_parts(src, a, b);
    port::sending_goes_on::<P>(c, events_calls(src, a), events_calls(src, b));
}

/// The block that an event is about.
pub open spec fn told_block(src: SourceView, ev: EventView) -> BlockKeyView {
    BlockKeyView {
        model_id: src.ns.0,
        revision: src.ns.1,
        pool_kind: src.pool_kind,
        flat: match ev {
            EventView::Present { hash, .. } => hash,
            EventView::Absent { hash, .. } => hash,
            EventView::Moved { hash, .. } => hash,
        },
    }
}

/// What is told is seen: after a block is said to have come to a tier of the node, the control
/// plane has a copy of it there; after it is said to have left, it has none; after a move, it
/// has the copy at the new place. Of object storage it knows whether it holds the block. Other
/// blocks are as they were.
pub proof fn told_events_are_seen(
    c: AuthorityPortView,
    src: SourceView,
    ev: EventView,
    y: BlockKeyView,
)
    requires
        src.pool_kind == PoolKind::Target.spec_number() || src.pool_kind
            == PoolKind::Draft.spec_number(),
        port::sent::<AuthorityPort>(c, events_calls(src, seq![ev])).1 is Ok,
        c.auth.has_block(y),
        y != told_block(src, ev),
    ensures
        ({
            let d = port::sent::<AuthorityPort>(c, events_calls(src, seq![ev])).0.auth;
            let x = told_block(src, ev);
            &&& d.has_block(y) && d.block(y) == c.auth.block(y)
            &&& match ev {
                EventView::Present { tier, .. } => d.has_block(x) && (match tier {
                    LocalTier::L0 => upkeep::lies_in(d, x, Tier::L0, src.node_id),
                    LocalTier::L1 => upkeep::lies_in(d, x, Tier::L1, src.node_id),
                    LocalTier::L2 => upkeep::lies_in(d, x, Tier::L2, src.node_id),
                    LocalTier::L3 => d.block(x).meta.l3_present,
                }),
                EventView::Absent { tier, .. } => d.has_block(x) && (match tier {
                    LocalTier::L0 => !upkeep::lies_in(d, x, Tier::L0, src.node_id),
                    LocalTier::L1 => !upkeep::lies_in(d, x, Tier::L1, src.node_id),
                    LocalTier::L2 => !upkeep::lies_in(d, x, Tier::L2, src.node_id),
                    LocalTier::L3 => !d.block(x).meta.l3_present,
                }),
                EventView::Moved { tier, segment_id, offset, node_id, .. } => tier == LocalTier::L2
                    ==> d.has_block(x) && d.block(x).meta.locations.contains(
                    LocationView {
                        tier: Tier::L2.spec_number(),
                        node_id: if node_id.len() == 0 {
                            src.node_id
                        } else {
                            node_id
                        },
                        segment_id,
                        offset,
                    },
                ),
            }
        }),
{
    let calls = events_calls(src, seq![ev]);
    assert(seq![ev].drop_last() =~= Seq::empty());
    assert(seq![ev].last() == ev);
    assert(events_calls(src, seq![ev].drop_last()) =~= Seq::empty());
    assert(calls =~= event_calls(src, ev));
    let x = told_block(src, ev);
    let far = LocationView { tier: 99, node_id: Seq::empty(), segment_id: 0, offset: 0 };
    if calls.len() > 0 {
        assert(calls.drop_last() =~= Seq::empty());
        assert(port::sent::<AuthorityPort>(c, calls.drop_last()) == (c, Ok::<(), Seq<char>>(())));
        let call = calls.last();
        match call {
            PortCall::Publish { ns, pool_kind, flat, tier, node_id, present } => {
                let l = LocationView {
                    tier: tier.spec_number(),
                    node_id,
                    segment_id: 1,
                    offset: 0,
                };
                upkeep::published_is_seen(c.auth, ns, pool_kind, flat, l, tier, present, far);
                upkeep::publishing_changes_one_block(c.auth, ns, pool_kind, flat, l, present, y);
            },
            PortCall::L3 { ns, pool_kind, flat, present } => {
                upkeep::publishing_changes_one_block(c.auth, ns, pool_kind, flat, far, present, y);
            },
            PortCall::Relocate { ns, pool_kind, flat, tier, node_id, segment_id, offset } => {
                let l = LocationView { tier: tier.spec_number(), node_id, segment_id, offset };
                upkeep::publishing_changes_one_block(c.auth, ns, pool_kind, flat, l, true, y);
                let was = c.auth.block(x).meta.locations;
                locations::lemma_first_on(was, l.tier, l.node_id, 0);
                let now = locations::placed_at(was, l);
                let at = locations::first_on(was, l.tier, l.node_id, 0);
                assert(now[at] == l);
            },
            _ => {},
        }
    }
}

/// A planned move is for one node: another node's asks nothing of the pipeline. One to pack a
/// segment asks to pack it, and one of a block asks to bring it to the place named.
pub proof fn planned_moves_reach_their_node(node_id: Seq<char>, m: DefragMoveView)
    ensures
        ({
            let actions = move_actions(node_id, seq![m]);
            let mine = m.node_id.len() == 0 || m.node_id == node_id;
            &&& !mine ==> actions.len() == 0
            &&& mine && m.compact_segment ==> actions == seq![
                ActionView::CompactSegment { segment_id: m.segment_id },
            ]
            &&& mine && !m.compact_segment && m.id is Some ==> actions == seq![
                ActionView::CoLocateMove {
                    hash: m.id->0.block_hash,
                    dest_segment: m.to_segment,
                    dest_offset: m.to_offset,
                },
            ]
            &&& mine && !m.compact_segment && m.id is None ==> actions.len() == 0
        }),
{
    assert(seq![m].drop_last() =~= Seq::empty());
    assert(seq![m].last() == m);
    assert(move_actions(node_id, seq![m].drop_last()) =~= Seq::empty());
    match move_action(node_id, m) {
        Some(a) => {
            assert(Seq::<ActionView>::empty().push(a) =~= seq![a]);
        },
        None => {},
    }
}

/// Planned moves are taken on in their order.
pub proof fn planned_moves_keep_their_order(
    node_id: Seq<char>,
    a: Seq<DefragMoveView>,
    b: Seq<DefragMoveView>,
)
    ensures
        move_actions(node_id, a + b) == move_actions(node_id, a) + move_actions(node_id, b),
    decreases b.len(),
{
    if b.len() == 0 {
        assert(a + b =~= a);
        assert(move_actions(node_id, a) + move_actions(node_id, b) =~= move_actions(node_id, a));
    } else {
        planned_moves_keep_their_order(node_id, a, b.drop_last());
        assert((a + b).drop_last() =~= a + b.drop_last());
        assert(move_actions(node_id, a + b) =~= move_actions(node_id, a) + move_actions(
            node_id,
            b,
        ));
    }
}

} // verus!
