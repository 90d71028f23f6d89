//! How a node's finished blocks become durable and known: they are admitted, written
//! to L2, held in place, registered, and held by a reference until the barrier.

use vstd::prelude::*;
use vstd::string::*;

use crate::agent::port;
use crate::agent::port::{AuthorityPort, AuthorityPortView, ControlPlanePort, PortCall};
use crate::base::keys;
use crate::base::keys::{contains_key_in, dup_all, Dup};
use crate::base::queue;
use crate::base::text::text;
use crate::control::admission::RegisterStatusView;
use crate::control::authority::AuthorityView;
use crate::control::hash_chain::MAX_CHAIN;
use crate::control::laws;
use crate::control::namespace::BlockKeyView;
use crate::control::register;
use crate::control::upkeep;
use crate::proto::{
    BackpressureSignalView, BlockKind, BlockMeta, BlockMetaView, KvBlockId, KvBlockIdView, Location,
    LocationView, PoolKind, RefDelta, RefDeltaView, RefKind, RegisterBlocksRequest,
    RegisterBlocksRequestView, RequestBarrierRequest, RequestBarrierRequestView, Tier,
};
use crate::tier::engine;
use crate::tier::engine::{EngineView, LocalTierEngine};

verus! {

/// A block that a session writes.
#[derive(Clone, Debug)]
pub struct PendingBlock {
    pub id: KvBlockId,
    pub bytes: Vec<u8>,
    pub durable: bool,
}

/// What a `PendingBlock` stands for.
#[verifier::ext_equal]
pub struct PendingView {
    pub id: KvBlockIdView,
    pub bytes: Seq<u8>,
    pub durable: bool,
}

impl View for PendingBlock {
    type V = PendingView;

    open spec fn view(&self) -> PendingView {
        PendingView { id: self.id@, bytes: self.bytes@, durable: self.durable }
    }
}

/// The blocks of one write, up to its barrier.
#[derive(Debug)]
pub struct PutEndSession {
    pub request_id: String,
    pub node_id: String,
    pub model_id: String,
    pub revision: String,
    pub prefix_hashes: Vec<Vec<u8>>,
    pub blocks: Vec<PendingBlock>,
    /// The blocks are held by a writeback reference.
    pub writeback_open: bool,
}

/// What a `PutEndSession` stands for.
#[verifier::ext_equal]
pub struct SessionView {
    pub request_id: Seq<char>,
    pub node_id: Seq<char>,
    pub model_id: Seq<char>,
    pub revision: Seq<char>,
    pub prefix_hashes: Seq<Seq<u8>>,
    pub blocks: Seq<PendingView>,
    pub writeback_open: bool,
}

impl View for PutEndSession {
    type V = SessionView;

    open spec fn view(&self) -> SessionView {
        SessionView {
            request_id: self.request_id@,
            node_id: self.node_id@,
            model_id: self.model_id@,
            revision: self.revision@,
            prefix_hashes: keys::views(self.prefix_hashes@),
            blocks: keys::views(self.blocks@),
            writeback_open: self.writeback_open,
        }
    }
}

/// The hashes of blocks.
pub open spec fn hashes(blocks: Seq<PendingView>) -> Seq<Seq<u8>> {
    blocks.map_values(|b: PendingView| b.id.block_hash)
}

/// The block is held once more.
pub open spec fn pinned(e: EngineView, h: Seq<u8>) -> EngineView {
    EngineView { pins: e.pins.insert(h, (e.pin_count(h) + 1) as u32), ..e }
}

/// The block is held once less, where it is held.
pub open spec fn unpinned(e: EngineView, h: Seq<u8>) -> EngineView {
    if !e.pins.contains_key(h) {
        e
    } else if e.pins[h] <= 1 {
        EngineView { pins: e.pins.remove(h), ..e }
    } else {
        EngineView { pins: e.pins.insert(h, (e.pins[h] - 1) as u32), ..e }
    }
}

/// All blocks are held once more.
pub open spec fn pinned_all(e: EngineView, hs: Seq<Seq<u8>>) -> EngineView
    decreases hs.len(),
{
    if hs.len() == 0 {
        e
    } else {
        pinned(pinned_all(e, hs.drop_last()), hs.last())
    }
}

/// All blocks are held once less.
pub open spec fn unpinned_all(e: EngineView, hs: Seq<Seq<u8>>) -> EngineView
    decreases hs.len(),
{
    if hs.len() == 0 {
        e
    } else {
        unpinned(unpinned_all(e, hs.drop_last()), hs.last())
    }
}

/// Nothing local is left of the blocks.
pub open spec fn discarded_all(e: EngineView, hs: Seq<Seq<u8>>) -> EngineView
    decreases hs.len(),
{
    if hs.len() == 0 {
        e
    } else {
        discarded_all(e, hs.drop_last()).discarded(hs.last())
    }
}

/// How a block is registered: where it stands in L2, if it does, and whether L3 holds
/// it.
pub open spec fn meta_of(id: KvBlockIdView, node_id: Seq<char>, e: EngineView) -> BlockMetaView {
    let h = id.block_hash;
    BlockMetaView {
        id: Some(id),
        block_kind: BlockKind::TType.spec_number(),
        locations: if e.l2.contains_key(h) {
            seq![
                LocationView {
                    tier: Tier::L2.spec_number(),
                    node_id,
                    segment_id: if e.arena.placed.contains_key(h) {
                        e.arena.placed[h].segment_id
                    } else {
                        1
                    },
                    offset: if e.arena.placed.contains_key(h) {
                        e.arena.placed[h].offset
                    } else {
                        0
                    },
                },
            ]
        } else {
            Seq::empty()
        },
        l3_present: e.l3.contains_key(h),
        ref_count: 0,
    }
}

/// The first `n` blocks are written back, up to the first that is refused: which
/// blocks are durable, the engine, and the blocks that L2 shed to L3.
pub open spec fn flushed(blocks: Seq<PendingView>, n: nat, e: EngineView) -> (
    Seq<PendingView>,
    EngineView,
    Result<Seq<Seq<u8>>, Seq<char>>,
)
    decreases n,
{
    if n == 0 {
        (blocks, e, Ok(Seq::empty()))
    } else {
        let (bs, e1, r) = flushed(blocks, (n - 1) as nat, e);
        match r {
            Err(x) => (bs, e1, Err(x)),
            Ok(shed) => {
                let b = blocks[n - 1];
                let (e2, put) = e1.put_durable(b.id.block_hash, b.bytes);
                match put {
                    Err(x) => (bs, e2, Err(x)),
                    Ok((_, fx)) => (
                        bs.update(n - 1, PendingView { durable: true, ..b }),
                        e2,
                        Ok(shed + fx.l2_demoted_to_l3),
                    ),
                }
            },
        }
    }
}

impl SessionView {
    /// The pool that the session writes to.
    pub open spec fn pool_kind(self) -> i32 {
        if self.blocks.len() > 0 {
            self.blocks[0].id.pool_kind
        } else {
            PoolKind::Target.spec_number()
        }
    }

    /// A session that has written nothing.
    pub open spec fn fresh(
        request_id: Seq<char>,
        node_id: Seq<char>,
        model_id: Seq<char>,
        revision: Seq<char>,
    ) -> SessionView {
        SessionView {
            request_id,
            node_id,
            model_id,
            revision,
            prefix_hashes: Seq::empty(),
            blocks: Seq::empty(),
            writeback_open: false,
        }
    }

    /// A block is added at the end of the chain.
    pub open spec fn started(self, hash: Seq<u8>, bytes: Seq<u8>) -> SessionView {
        SessionView {
            prefix_hashes: self.prefix_hashes.push(hash),
            blocks: self.blocks.push(
                PendingView {
                    id: KvBlockIdView {
                        model_id: self.model_id,
                        revision: self.revision,
                        pool_kind: PoolKind::Target.spec_number(),
                        block_hash: hash,
                        scope: "public"@,
                    },
                    bytes,
                    durable: false,
                },
            ),
            ..self
        }
    }

    /// The registration of the session's blocks as they stand.
    pub open spec fn request(self, e: EngineView) -> RegisterBlocksRequestView {
        RegisterBlocksRequestView {
            node_id: self.node_id,
            prefix_hashes: self.prefix_hashes,
            blocks: self.blocks.map_values(|b: PendingView| meta_of(b.id, self.node_id, e)),
        }
    }

    /// A change of the session's writeback references.
    pub open spec fn writeback(self, delta: i32) -> Seq<RefDeltaView> {
        self.blocks.map_values(
            |b: PendingView|
                RefDeltaView {
                    id: Some(b.id),
                    kind: RefKind::Writeback.spec_number(),
                    delta,
                    node_id: self.node_id,
                },
        )
    }

    /// Tells that a block left L2 of this node.
    pub open spec fn left_l2(self, h: Seq<u8>) -> PortCall {
        PortCall::Publish {
            ns: (self.model_id, self.revision),
            pool_kind: self.pool_kind(),
            flat: h,
            tier: Tier::L2,
            node_id: self.node_id,
            present: false,
        }
    }

    /// Tells that object storage holds a block.
    pub open spec fn in_l3(self, h: Seq<u8>) -> PortCall {
        PortCall::L3 {
            ns: (self.model_id, self.revision),
            pool_kind: self.pool_kind(),
            flat: h,
            present: true,
        }
    }

    /// Tells of a block that L2 shed; the session's own are not told of yet.
    pub open spec fn shed_call(self, h: Seq<u8>) -> Seq<PortCall> {
        if hashes(self.blocks).contains(h) {
            Seq::empty()
        } else {
            seq![self.left_l2(h), self.in_l3(h)]
        }
    }

    /// Tells of the blocks that L2 shed, in order.
    pub open spec fn shed_calls(self, shed: Seq<Seq<u8>>) -> Seq<PortCall>
        decreases shed.len(),
    {
        if shed.len() == 0 {
            Seq::empty()
        } else {
            self.shed_calls(shed.drop_last()) + self.shed_call(shed.last())
        }
    }

    /// Tells where a block of the session came to stand.
    pub open spec fn stand_call(self, e: EngineView, h: Seq<u8>) -> Seq<PortCall> {
        (if e.l3.contains_key(h) {
            seq![self.in_l3(h)]
        } else {
            Seq::empty()
        }) + (if e.l2.contains_key(h) {
            Seq::empty()
        } else {
            seq![self.left_l2(h)]
        })
    }

    /// Tells where the session's blocks came to stand, in order.
    pub open spec fn stand_calls(self, e: EngineView, hs: Seq<Seq<u8>>) -> Seq<PortCall>
        decreases hs.len(),
    {
        if hs.len() == 0 {
            Seq::empty()
        } else {
            self.stand_calls(e, hs.drop_last()) + self.stand_call(e, hs.last())
        }
    }

    /// No block of the session is durable.
    pub open spec fn rolled_back(self) -> SessionView {
        SessionView {
            blocks: self.blocks.map_values(
                |b: PendingView| PendingView { durable: false, ..b },
            ),
            ..self
        }
    }
}

/// The last step of a commit: the registered blocks are held by a reference from
/// before the barrier until after it, and then let go here too.
pub open spec fn completed<P: ControlPlanePort>(s: SessionView, e: EngineView, c: P::State) -> (
    SessionView,
    EngineView,
    P::State,
    Result<(), Seq<char>>,
) {
    let free = unpinned_all(e, hashes(s.blocks));
    let (c1, held) = P::answer(c, PortCall::Refs(s.writeback(1)));
    match held {
        Err(x) => (s, free, c1, Err(x)),
        Ok(_) => {
            let barrier = RequestBarrierRequestView {
                request_id: s.request_id,
                node_id: s.node_id,
            };
            let (c2, done) = P::answer(c1, PortCall::Barrier(barrier));
            let (c3, let_go) = P::answer(c2, PortCall::Refs(s.writeback((-1) as i32)));
            match done {
                Err(x) => (
                    SessionView { writeback_open: let_go is Err, ..s },
                    free,
                    c3,
                    Err(
                        match let_go {
                            Ok(_) => x,
                            Err(y) => x + "; writeback rollback failed after barrier error: "@ + y,
                        },
                    ),
                ),
                Ok(_) => (SessionView { writeback_open: false, ..s }, free, c3, let_go),
            }
        },
    }
}

/// The middle of a commit, from when the blocks are durable: they are held in place,
/// the control plane is told what L2 shed, and they are registered. Where that is
/// refused, nothing of them is left.
pub open spec fn announced<P: ControlPlanePort>(
    s: SessionView,
    e: EngineView,
    c: P::State,
    shed: Seq<Seq<u8>>,
) -> (SessionView, EngineView, P::State, Result<(), Seq<char>>) {
    let hs = hashes(s.blocks);
    let held = pinned_all(e, hs);
    let free = unpinned_all(held, hs);
    let (c1, r1) = port::sent::<P>(c, s.shed_calls(shed));
    match r1 {
        Err(x) => (s, free, c1, Err(x)),
        Ok(_) => {
            let (c2, r2) = P::answer(c1, PortCall::Register(s.request(held)));
            match r2 {
                Err(x) => (s.rolled_back(), discarded_all(held, hs), c2, Err(x)),
                Ok(_) => {
                    let (c3, r3) = port::sent::<P>(c2, s.stand_calls(held, hs));
                    match r3 {
                        Err(x) => (s, free, c3, Err(x)),
                        Ok(_) => completed::<P>(s, held, c3),
                    }
                },
            }
        },
    }
}

/// A commit: the session, the engine and the control plane after it, and its result.
/// Nothing is written before the blocks are admitted, and nothing is held or told
/// before all of them are durable.
pub open spec fn committed<P: ControlPlanePort>(s: SessionView, e: EngineView, c: P::State) -> (
    SessionView,
    EngineView,
    P::State,
    Result<(), Seq<char>>,
) {
    let (c1, admitted) = P::answer(c, PortCall::Admit(s.request(e)));
    match admitted {
        Err(x) => (s, e, c1, Err(x)),
        Ok(_) => {
            let (blocks, e1, r) = flushed(s.blocks, s.blocks.len(), e);
            let t = SessionView { blocks, ..s };
            match r {
                Err(x) => (t, e1, c1, Err(x)),
                Ok(shed) => announced::<P>(t, e1, c1, shed),
            }
        },
    }
}

/// Blocks that were shed later are told of later.
proof fn lemma_shed_split(s: SessionView, shed: Seq<Seq<u8>>, i: int)
    requires
        0 <= i <= shed.len(),
    ensures
        exists|rest: Seq<PortCall>| #[trigger]
            (s.shed_calls(shed.take(i)) + rest) == s.shed_calls(shed),
    decreases shed.len() - i,
{
    if i == shed.len() {
        assert(shed.take(i) =~= shed);
        assert(s.shed_calls(shed) + Seq::<PortCall>::empty() =~= s.shed_calls(shed));
    } else {
        lemma_shed_split(s, shed, i + 1);
        let a = s.shed_calls(shed.take(i));
        let b = s.shed_call(shed[i]);
        assert(shed.take(i + 1).drop_last() =~= shed.take(i));
        let rest = choose|rest: Seq<PortCall>| #[trigger]
            (s.shed_calls(shed.take(i + 1)) + rest) == s.shed_calls(shed);
        assert(a + (b + rest) =~= (a + b) + rest);
    }
}

/// Where a call about the `i`-th shed block is refused, it is the last.
proof fn lemma_shed_stops<P: ControlPlanePort>(
    c: P::State,
    s: SessionView,
    shed: Seq<Seq<u8>>,
    i: int,
    calls: Seq<PortCall>,
)
    requires
        0 <= i < shed.len(),
        calls.is_prefix_of(s.shed_call(shed[i])),
        port::sent::<P>(c, s.shed_calls(shed.take(i)) + calls).1 is Err,
    ensures
        port::sent::<P>(c, s.shed_calls(shed)) == port::sent::<P>(
            c,
            s.shed_calls(shed.take(i)) + calls,
        ),
{
    lemma_shed_split(s, shed, i + 1);
    let a = s.shed_calls(shed.take(i));
    let b = s.shed_call(shed[i]);
    assert(shed.take(i + 1).drop_last() =~= shed.take(i));
    let rest = choose|rest: Seq<PortCall>| #[trigger]
        (s.shed_calls(shed.take(i + 1)) + rest) == s.shed_calls(shed);
    let tail = b.skip(calls.len() as int) + rest;
    assert((a + b) + rest =~= (a + calls) + tail);
    port::refusal_ends_sending::<P>(c, a + calls, tail);
}

/// Later blocks are told of later.
proof fn lemma_stand_split(s: SessionView, e: EngineView, hs: Seq<Seq<u8>>, i: int)
    requires
        0 <= i <= hs.len(),
    ensures
        exists|rest: Seq<PortCall>| #[trigger]
            (s.stand_calls(e, hs.take(i)) + rest) == s.stand_calls(e, hs),
    decreases hs.len() - i,
{
    if i == hs.len() {
        assert(hs.take(i) =~= hs);
        assert(s.stand_calls(e, hs) + Seq::<PortCall>::empty() =~= s.stand_calls(e, hs));
    } else {
        lemma_stand_split(s, e, hs, i + 1);
        let a = s.stand_calls(e, hs.take(i));
        let b = s.stand_call(e, hs[i]);
        assert(hs.take(i + 1).drop_last() =~= hs.take(i));
        let rest = choose|rest: Seq<PortCall>| #[trigger]
            (s.stand_calls(e, hs.take(i + 1)) + rest) == s.stand_calls(e, hs);
        assert(a + (b + rest) =~= (a + b) + rest);
    }
}

/// Where a call about the `i`-th block is refused, it is the last.
proof fn lemma_stand_stops<P: ControlPlanePort>(
    c: P::State,
    s: SessionView,
    e: EngineView,
    hs: Seq<Seq<u8>>,
    i: int,
    calls: Seq<PortCall>,
)
    requires
        0 <= i < hs.len(),
        calls.is_prefix_of(s.stand_call(e, hs[i])),
        port::sent::<P>(c, s.stand_calls(e, hs.take(i)) + calls).1 is Err,
    ensures
        port::sent::<P>(c, s.stand_calls(e, hs)) == port::sent::<P>(
            c,
            s.stand_calls(e, hs.take(i)) + calls,
        ),
{
    lemma_stand_split(s, e, hs, i + 1);
    let a = s.stand_calls(e, hs.take(i));
    let b = s.stand_call(e, hs[i]);
    assert(hs.take(i + 1).drop_last() =~= hs.take(i));
    let rest = choose|rest: Seq<PortCall>| #[trigger]
        (s.stand_calls(e, hs.take(i + 1)) + rest) == s.stand_calls(e, hs);
    let tail = b.skip(calls.len() as int) + rest;
    assert((a + b) + rest =~= (a + calls) + tail);
    port::refusal_ends_sending::<P>(c, a + calls, tail);
}

/// How often a hash occurs.
pub open spec fn occurs(hs: Seq<Seq<u8>>, h: Seq<u8>) -> nat
    decreases hs.len(),
{
    if hs.len() == 0 {
        0
    } else {
        occurs(hs.drop_last(), h) + if hs.last() == h {
            1nat
        } else {
            0nat
        }
    }
}

/// A prefix holds a hash no more often than the whole.
proof fn lemma_occurs_grows(hs: Seq<Seq<u8>>, i: int, h: Seq<u8>)
    requires
        0 <= i <= hs.len(),
    ensures
        occurs(hs.take(i), h) <= occurs(hs, h),
        occurs(hs, h) <= hs.len(),
    decreases hs.len() - i,
{
    if i == hs.len() {
        assert(hs.take(i) =~= hs);
        lemma_occurs_bounded(hs, h);
    } else {
        assert(hs.take(i + 1).drop_last() =~= hs.take(i));
        lemma_occurs_grows(hs, i + 1, h);
    }
}

proof fn lemma_occurs_bounded(hs: Seq<Seq<u8>>, h: Seq<u8>)
    ensures
        occurs(hs, h) <= hs.len(),
    decreases hs.len(),
{
    if hs.len() > 0 {
        lemma_occurs_bounded(hs.drop_last(), h);
    }
}

/// The engine can hold every block once more, as often as it occurs.
pub open spec fn pinnable(e: EngineView, hs: Seq<Seq<u8>>) -> bool {
    forall|h: Seq<u8>| #[trigger] e.pin_count(h) + hs.len() <= u32::MAX || !hs.contains(h)
}

/// Holding blocks adds to their pins how often they occur.
proof fn lemma_pins_add(e: EngineView, hs: Seq<Seq<u8>>, n: int, h: Seq<u8>)
    requires
        0 <= n <= hs.len(),
        pinnable(e, hs),
    ensures
        hs.contains(h) || n == 0 ==> pinned_all(e, hs.take(n)).pin_count(h) == e.pin_count(h)
            + occurs(hs.take(n), h),
        !hs.contains(h) ==> pinned_all(e, hs.take(n)).pin_count(h) == e.pin_count(h) && occurs(
            hs.take(n),
            h,
        ) == 0,
        (EngineView { pins: e.pins, ..pinned_all(e, hs.take(n)) }) == e,
    decreases n,
{
    if n > 0 {
        assert(hs.take(n).drop_last() =~= hs.take(n - 1));
        lemma_pins_add(e, hs, n - 1, h);
        lemma_pins_add(e, hs, n - 1, hs[n - 1]);
        assert(hs.contains(hs[n - 1]));
        lemma_occurs_bounded(hs.take(n - 1), hs[n - 1]);
        assert(e.pin_count(hs[n - 1]) + hs.len() <= u32::MAX);
    }
}

/// While the blocks are let go one after the other, each of those to come is held.
proof fn lemma_pins_sub(e: EngineView, hs: Seq<Seq<u8>>, n: int, h: Seq<u8>)
    requires
        0 <= n <= hs.len(),
        pinnable(e, hs),
        forall|x: Seq<u8>| #[trigger] e.pins.contains_key(x) ==> e.pins[x] > 0,
    ensures
        ({
            let left = unpinned_all(pinned_all(e, hs), hs.take(n));
            &&& left.pin_count(h) == e.pin_count(h) + occurs(hs, h) - occurs(hs.take(n), h)
            &&& left.pins.contains_key(h) == (left.pin_count(h) > 0)
            &&& (EngineView { pins: e.pins, ..left }) == e
        }),
    decreases n,
{
    let held = pinned_all(e, hs);
    assert(hs.take(hs.len() as int) =~= hs);
    if n == 0 {
        lemma_pins_add(e, hs, hs.len() as int, h);
        assert(hs.take(0) =~= Seq::empty());
        lemma_pin_positive(e, hs, h);
    } else {
        assert(hs.take(n).drop_last() =~= hs.take(n - 1));
        lemma_pins_sub(e, hs, n - 1, h);
        lemma_pins_sub(e, hs, n - 1, hs[n - 1]);
        lemma_occurs_grows(hs, n, hs[n - 1]);
        lemma_occurs_grows(hs, n, h);
        let left = unpinned_all(held, hs.take(n - 1));
        assert(left.pin_count(hs[n - 1]) > 0);
    }
}

proof fn lemma_pin_positive(e: EngineView, hs: Seq<Seq<u8>>, h: Seq<u8>)
    requires
        pinnable(e, hs),
        forall|x: Seq<u8>| #[trigger] e.pins.contains_key(x) ==> e.pins[x] > 0,
    ensures
        pinned_all(e, hs).pins.contains_key(h) == (pinned_all(e, hs).pin_count(h) > 0),
    decreases hs.len(),
{
    if hs.len() > 0 {
        let before = hs.drop_last();
        assert(pinnable(e, before)) by {
            assert forall|x: Seq<u8>| #[trigger] e.pin_count(x) + before.len() <= u32::MAX
                || !before.contains(x) by {
                if before.contains(x) {
                    let k = choose|k: int| 0 <= k < before.len() && before[k] == x;
                    assert(hs[k] == x);
                    assert(hs.contains(x));
                }
            }
        }
        lemma_pin_positive(e, before, h);
        lemma_pins_add(e, hs, hs.len() - 1, hs.last());
        assert(hs.take(hs.len() - 1) =~= before);
        assert(hs[hs.len() - 1] == hs.last());
        assert(hs.contains(hs.last()));
        lemma_occurs_bounded(before, hs.last());
    }
}

/// Letting the blocks go undoes holding them: the engine is as it was before.
pub proof fn unpin_undoes_pin_all(e: EngineView, hs: Seq<Seq<u8>>)
    requires
        e.wf(),
        pinnable(e, hs),
    ensures
        unpinned_all(pinned_all(e, hs), hs) == e,
{
    let left = unpinned_all(pinned_all(e, hs), hs);
    assert(hs.take(hs.len() as int) =~= hs);
    assert forall|h: Seq<u8>| #[trigger] left.pins.contains_key(h) == e.pins.contains_key(h) && (
    e.pins.contains_key(h) ==> left.pins[h] == e.pins[h]) by {
        lemma_pins_sub(e, hs, hs.len() as int, h);
    }
    lemma_pins_sub(e, hs, hs.len() as int, Seq::empty());
    assert(left.pins =~= e.pins);
}

/// Writing the blocks back is within the machine's limits.
pub open spec fn flushable(blocks: Seq<PendingView>, e: EngineView) -> bool {
    &&& e.arena.next_seg + blocks.len() <= u64::MAX
    &&& forall|i: int| 0 <= i < blocks.len() ==> (#[trigger] blocks[i]).bytes.len() * 3 <= u64::MAX
}

/// Writing back keeps what the blocks are, and what is held.
proof fn lemma_flush_keeps(blocks: Seq<PendingView>, n: nat, e: EngineView)
    requires
        n <= blocks.len(),
    ensures
        flushed(blocks, n, e).0.len() == blocks.len(),
        forall|i: int|
            0 <= i < blocks.len() ==> (#[trigger] flushed(blocks, n, e).0[i]).id == blocks[i].id
                && flushed(blocks, n, e).0[i].bytes == blocks[i].bytes,
        flushed(blocks, n, e).2 is Ok ==> forall|i: int|
            0 <= i < n ==> (#[trigger] flushed(blocks, n, e).0[i]).durable,
        flushed(blocks, n, e).1.pins == e.pins,
    decreases n,
{
    if n > 0 {
        lemma_flush_keeps(blocks, (n - 1) as nat, e);
    }
}

/// Where a block is refused, those after it are not tried.
proof fn lemma_flush_stops(blocks: Seq<PendingView>, n: nat, m: nat, e: EngineView)
    requires
        n <= m,
        flushed(blocks, n, e).2 is Err,
    ensures
        flushed(blocks, m, e) == flushed(blocks, n, e),
    decreases m,
{
    if n < m {
        lemma_flush_stops(blocks, n, (m - 1) as nat, e);
    }
}

impl PutEndSession {
    /// A session of the default revision.
    pub fn new(request_id: &str, node_id: &str, model_id: &str) -> (s: Self)
        ensures
            s@ == SessionView::fresh(request_id@, node_id@, model_id@, Seq::empty()),
    {
        let s = PutEndSession::with_revision(request_id, node_id, model_id, "");
        proof {
            reveal_strlit("");
            assert(""@ =~= Seq::<char>::empty());
        }
        s
    }

    /// A session of a revision.
    pub fn with_revision(request_id: &str, node_id: &str, model_id: &str, revision: &str) -> (s:
        Self)
        ensures
            s@ == SessionView::fresh(request_id@, node_id@, model_id@, revision@),
    {
        let s = PutEndSession {
            request_id: text(request_id),
            node_id: text(node_id),
            model_id: text(model_id),
            revision: text(revision),
            prefix_hashes: Vec::new(),
            blocks: Vec::new(),
            writeback_open: false,
        };
        assert(s@ =~= SessionView::fresh(request_id@, node_id@, model_id@, revision@));
        s
    }

    /// Adds a block at the end of the chain.
    pub fn put_start(&mut self, block_hash: Vec<u8>, bytes: Vec<u8>)
        ensures
            final(self)@ == old(self)@.started(block_hash@, bytes@),
    {
        self.prefix_hashes.push(block_hash.dup());
        self.blocks.push(
            PendingBlock {
                id: KvBlockId {
                    model_id: self.model_id.dup(),
                    revision: self.revision.dup(),
                    pool_kind: PoolKind::Target.number(),
                    block_hash,
                    scope: text("public"),
                },
                bytes,
                durable: false,
            },
        );
        assert(self@ =~= old(self)@.started(block_hash@, bytes@));
    }

    /// The registration of the session's blocks as they stand in the store.
    pub fn register_request(&self, store: &LocalTierEngine) -> (req: RegisterBlocksRequest)
        ensures
            req@ == self@.request(store@),
    {
        let mut blocks: Vec<BlockMeta> = Vec::with_capacity(self.blocks.len());
        let mut i: usize = 0;
        while i < self.blocks.len()
            invariant
                i <= self.blocks@.len(),
                blocks@.len() == i,
                forall|j: int|
                    0 <= j < i ==> (#[trigger] blocks@[j])@ == meta_of(
                        self.blocks@[j].id@,
                        self.node_id@,
                        store@,
                    ),
            decreases self.blocks.len() - i,
        {
            let id = &self.blocks[i].id;
            let h = id.block_hash.as_slice();
            let mut locations: Vec<Location> = Vec::new();
            if store.is_l2_durable(h) {
                let (segment_id, offset): (u64, u64) = match store.l2_placement(h) {
                    Some(p) => (p.segment_id, p.offset),
                    None => (1, 0),
                };
                locations.push(
                    Location {
                        tier: Tier::L2.number(),
                        node_id: self.node_id.dup(),
                        segment_id,
                        offset,
                    },
                );
            }
            let meta = BlockMeta {
                id: Some(id.dup()),
                block_kind: BlockKind::TType.number(),
                locations,
                l3_present: store.l3_present(h),
                ref_count: 0,
            };
            assert(meta@.locations =~= meta_of(id@, self.node_id@, store@).locations);
            blocks.push(meta);
            i += 1;
        }
        let req = RegisterBlocksRequest {
            node_id: self.node_id.dup(),
            prefix_hashes: dup_all(&self.prefix_hashes),
            blocks,
        };
        assert(req@.blocks =~= self@.request(store@).blocks);
        req
    }

    fn writeback_deltas(&self, delta: i32) -> (deltas: Vec<RefDelta>)
        ensures
            keys::views(deltas@) == self@.writeback(delta),
    {
        let mut deltas: Vec<RefDelta> = Vec::with_capacity(self.blocks.len());
        let mut i: usize = 0;
        while i < self.blocks.len()
            invariant
                i <= self.blocks@.len(),
                deltas@.len() == i,
                forall|j: int|
                    0 <= j < i ==> (#[trigger] deltas@[j])@ == self@.writeback(delta)[j],
            decreases self.blocks.len() - i,
        {
            let d = RefDelta {
                id: Some(self.blocks[i].id.dup()),
                kind: RefKind::Writeback.number(),
                delta,
                node_id: self.node_id.dup(),
            };
            assert(d@ =~= self@.writeback(delta)[i as int]);
            deltas.push(d);
            i += 1;
        }
        assert(keys::views(deltas@) =~= self@.writeback(delta));
        deltas
    }

    /// Writes the session's blocks to L2, and tells which blocks L2 shed to L3.
    pub fn flush_durable(&mut self, store: &mut LocalTierEngine) -> (r: Result<
        Vec<Vec<u8>>,
        String,
    >)
        requires
            old(store)@.wf(),
            flushable(old(self)@.blocks, old(store)@),
        ensures
            ({
                let (blocks, e, shed) = flushed(
                    old(self)@.blocks,
                    old(self)@.blocks.len(),
                    old(store)@,
                );
                &&& final(self)@ == (SessionView { blocks, ..old(self)@ })
                &&& final(store)@ == e
                &&& match r {
                    Ok(s) => shed == Ok::<Seq<Seq<u8>>, Seq<char>>(keys::views(s@)),
                    Err(x) => shed == Err::<Seq<Seq<u8>>, Seq<char>>(x@),
                }
            }),
            final(store)@.wf(),
            old(store)@.arena_matches() ==> final(store)@.arena_matches(),
    {
        let ghost all = self@.blocks;
        let ghost start = store@;
        let mut demoted: Vec<Vec<u8>> = Vec::new();
        let mut i: usize = 0;
        assert(keys::views(demoted@) =~= Seq::empty());
        while i < self.blocks.len()
            invariant
                i <= self.blocks@.len(),
                all == old(self)@.blocks,
                start == old(store)@,
                all.len() == self.blocks@.len(),
                flushable(all, start),
                store@.wf(),
                start.arena_matches() ==> store@.arena_matches(),
                store@.arena.next_seg <= start.arena.next_seg + i,
                flushed(all, i as nat, start) == (
                    self@.blocks,
                    store@,
                    Ok::<Seq<Seq<u8>>, Seq<char>>(keys::views(demoted@)),
                ),
                self@ == (SessionView { blocks: self@.blocks, ..old(self)@ }),
            decreases self.blocks.len() - i,
        {
            let ghost e1 = store@;
            let ghost bs = self@.blocks;
            proof {
                lemma_flush_keeps(all, i as nat, start);
                assert(bs[i as int] == self.blocks@[i as int]@);
                assert(all[i as int].bytes.len() * 3 <= u64::MAX);
                engine::put_opens_one_segment(e1, all[i as int].id.block_hash, all[i as int].bytes);
            }
            let b = &self.blocks[i];
            match store.put_durable(b.id.block_hash.as_slice(), b.bytes.as_slice()) {
                Err(x) => {
                    proof {
                        lemma_flush_stops(all, (i + 1) as nat, all.len(), start);
                    }
                    return Err(x);
                },
                Ok((_, fx)) => {
                    proof {
                        engine::put_is_durable(
                            e1,
                            all[i as int].id.block_hash,
                            all[i as int].bytes,
                        );
                    }
                    let ghost before = keys::views(demoted@);
                    let mut shed = fx.l2_demoted_to_l3;
                    let ghost more = keys::views(shed@);
                    demoted.append(&mut shed);
                    assert(keys::views(demoted@) =~= before + more);
                    self.blocks[i].durable = true;
                    assert(self@.blocks =~= bs.update(
                        i as int,
                        PendingView { durable: true, ..all[i as int] },
                    ));
                },
            }
            i += 1;
        }
        Ok(demoted)
    }

    /// Tells whether all blocks of the session are durable.
    pub fn all_durable(&self) -> (b: bool)
        ensures
            b == (forall|i: int| 0 <= i < self@.blocks.len() ==> (#[trigger] self@.blocks[i]).durable),
    {
        let mut i: usize = 0;
        while i < self.blocks.len()
            invariant
                i <= self.blocks@.len(),
                forall|j: int| 0 <= j < i ==> (#[trigger] self@.blocks[j]).durable,
            decreases self.blocks.len() - i,
        {
            assert(self@.blocks[i as int] == self.blocks@[i as int]@);
            if !self.blocks[i].durable {
                return false;
            }
            i += 1;
        }
        true
    }

    fn pool_kind(&self) -> (kind: i32)
        ensures
            kind == self@.pool_kind(),
    {
        if self.blocks.len() > 0 {
            assert(self@.blocks[0] == self.blocks@[0]@);
            self.blocks[0].id.pool_kind
        } else {
            PoolKind::Target.number()
        }
    }

    fn block_hashes(&self) -> (hs: Vec<Vec<u8>>)
        ensures
            keys::views(hs@) == hashes(self@.blocks),
            hs@.len() == self@.blocks.len(),
    {
        let mut hs: Vec<Vec<u8>> = Vec::with_capacity(self.blocks.len());
        let mut i: usize = 0;
        while i < self.blocks.len()
            invariant
                i <= self.blocks@.len(),
                hs@.len() == i,
                forall|j: int| 0 <= j < i ==> (#[trigger] hs@[j])@ == hashes(self@.blocks)[j],
            decreases self.blocks.len() - i,
        {
            hs.push(self.blocks[i].id.block_hash.dup());
            i += 1;
        }
        assert(keys::views(hs@) =~= hashes(self@.blocks));
        hs
    }

    /// Forgets that the blocks were durable.
    fn roll_back(&mut self)
        ensures
            final(self)@ == old(self)@.rolled_back(),
    {
        let mut i: usize = 0;
        while i < self.blocks.len()
            invariant
                i <= self.blocks@.len(),
                self.blocks@.len() == old(self)@.blocks.len(),
                self@ == (SessionView { blocks: self@.blocks, ..old(self)@ }),
                forall|j: int|
                    0 <= j < i ==> (#[trigger] self@.blocks[j]) == old(
                        self,
                    )@.rolled_back().blocks[j],
                forall|j: int|
                    i <= j < self.blocks@.len() ==> (#[trigger] self@.blocks[j]) == old(
                        self,
                    )@.blocks[j],
            decreases self.blocks.len() - i,
        {
            let ghost bs = self@.blocks;
            assert(bs[i as int] == self.blocks@[i as int]@);
            self.blocks[i].durable = false;
            assert(self@.blocks =~= bs.update(
                i as int,
                PendingView { durable: false, ..bs[i as int] },
            ));
            i += 1;
        }
        assert(self@.blocks =~= old(self)@.rolled_back().blocks);
    }

    /// Tells the control plane of the blocks that L2 shed.
    fn tell_shed<P: ControlPlanePort>(&self, cp: &mut P, shed: &Vec<Vec<u8>>) -> (r: Result<
        (),
        String,
    >)
        requires
            old(cp).ready(),
        ensures
            (final(cp).state(), keys::told(r)) == port::sent::<P>(
                old(cp).state(),
                self@.shed_calls(keys::views(shed@)),
            ),
            final(cp).ready(),
    {
        let own = self.block_hashes();
        let pk = self.pool_kind();
        let ghost start = cp.state();
        let ghost all = keys::views(shed@);
        let mut i: usize = 0;
        assert(all.take(0) =~= Seq::empty());
        while i < shed.len()
            invariant
                i <= shed@.len(),
                all == keys::views(shed@),
                start == old(cp).state(),
                keys::views(own@) == hashes(self@.blocks),
                pk == self@.pool_kind(),
                cp.ready(),
                (cp.state(), Ok::<(), Seq<char>>(())) == port::sent::<P>(
                    start,
                    self@.shed_calls(all.take(i as int)),
                ),
            decreases shed.len() - i,
        {
            let ghost h = all[i as int];
            let ghost before = self@.shed_calls(all.take(i as int));
            let ghost one = seq![self@.left_l2(h)];
            let ghost two = seq![self@.left_l2(h), self@.in_l3(h)];
            proof {
                assert(all.take(i + 1).drop_last() =~= all.take(i as int));
                assert(all.take(i + 1).last() == h);
                assert(h == shed@[i as int]@);
            }
            if !contains_key_in(&own, &shed[i]) {
                proof {
                    assert(before + one =~= before.push(self@.left_l2(h)));
                    assert(before + two =~= (before + one).push(self@.in_l3(h)));
                    port::sent_then::<P>(start, before, self@.left_l2(h));
                    port::sent_then::<P>(start, before + one, self@.in_l3(h));
                }
                match cp.publish_location(
                    self.model_id.as_str(),
                    self.revision.as_str(),
                    pk,
                    shed[i].as_slice(),
                    Tier::L2,
                    self.node_id.as_str(),
                    false,
                ) {
                    Err(x) => {
                        proof {
                            assert(one.is_prefix_of(two));
                            lemma_shed_stops::<P>(start, self@, all, i as int, one);
                        }
                        return Err(x);
                    },
                    Ok(_) => {},
                }
                match cp.set_l3_present(
                    self.model_id.as_str(),
                    self.revision.as_str(),
                    pk,
                    shed[i].as_slice(),
                    true,
                ) {
                    Err(x) => {
                        proof {
                            lemma_shed_stops::<P>(start, self@, all, i as int, two);
                        }
                        return Err(x);
                    },
                    Ok(_) => {},
                }
            } else {
                assert(before + Seq::<PortCall>::empty() =~= before);
            }
            i += 1;
        }
        assert(all.take(i as int) =~= all);
        Ok(())
    }

    /// Tells the control plane where the session's blocks came to stand.
    fn tell_stand<P: ControlPlanePort>(&self, cp: &mut P, store: &LocalTierEngine) -> (r: Result<
        (),
        String,
    >)
        requires
            old(cp).ready(),
        ensures
            (final(cp).state(), keys::told(r)) == port::sent::<P>(
                old(cp).state(),
                self@.stand_calls(store@, hashes(self@.blocks)),
            ),
            final(cp).ready(),
    {
        let own = self.block_hashes();
        let pk = self.pool_kind();
        let ghost start = cp.state();
        let ghost e = store@;
        let ghost all = hashes(self@.blocks);
        let mut i: usize = 0;
        assert(all.take(0) =~= Seq::empty());
        while i < own.len()
            invariant
                i <= own@.len(),
                keys::views(own@) == all,
                all == hashes(self@.blocks),
                start == old(cp).state(),
                e == store@,
                pk == self@.pool_kind(),
                cp.ready(),
                (cp.state(), Ok::<(), Seq<char>>(())) == port::sent::<P>(
                    start,
                    self@.stand_calls(e, all.take(i as int)),
                ),
            decreases own.len() - i,
        {
            let ghost h = all[i as int];
            let ghost before = self@.stand_calls(e, all.take(i as int));
            let ghost one = if e.l3.contains_key(h) {
                seq![self@.in_l3(h)]
            } else {
                Seq::empty()
            };
            let ghost two = self@.stand_call(e, h);
            proof {
                assert(all.take(i + 1).drop_last() =~= all.take(i as int));
                assert(all.take(i + 1).last() == h);
                assert(h == own@[i as int]@);
                assert(before + Seq::<PortCall>::empty() =~= before);
            }
            let flat = own[i].as_slice();
            if store.l3_present(flat) {
                proof {
                    assert(before + one =~= before.push(self@.in_l3(h)));
                    port::sent_then::<P>(start, before, self@.in_l3(h));
                }
                match cp.set_l3_present(
                    self.model_id.as_str(),
                    self.revision.as_str(),
                    pk,
                    flat,
                    true,
                ) {
                    Err(x) => {
                        proof {
                            assert(one.is_prefix_of(two));
                            lemma_stand_stops::<P>(start, self@, e, all, i as int, one);
                        }
                        return Err(x);
                    },
                    Ok(_) => {},
                }
            }
            assert((cp.state(), Ok::<(), Seq<char>>(())) == port::sent::<P>(start, before + one));
            if !store.is_l2_durable(flat) {
                proof {
                    assert(before + two =~= (before + one).push(self@.left_l2(h)));
                    port::sent_then::<P>(start, before + one, self@.left_l2(h));
                }
                match cp.publish_location(
                    self.model_id.as_str(),
                    self.revision.as_str(),
                    pk,
                    flat,
                    Tier::L2,
                    self.node_id.as_str(),
                    false,
                ) {
                    Err(x) => {
                        proof {
                            lemma_stand_stops::<P>(start, self@, e, all, i as int, two);
                        }
                        return Err(x);
                    },
                    Ok(_) => {},
                }
            } else {
                assert(two =~= one);
            }
            i += 1;
        }
        assert(all.take(i as int) =~= all);
        Ok(())
    }

    /// Makes the session's blocks durable and known, up to the barrier. Where the
    /// control plane does not register them, nothing of them is left in the store.
    pub fn commit_through<P: ControlPlanePort>(
        &mut self,
        store: &mut LocalTierEngine,
        cp: &mut P,
    ) -> (r: Result<(), String>)
        requires
            old(cp).ready(),
            old(store)@.wf(),
            old(self)@.prefix_hashes.len() <= MAX_CHAIN,
            flushable(old(self)@.blocks, old(store)@),
            pinnable(old(store)@, hashes(old(self)@.blocks)),
        ensures
            (final(self)@, final(store)@, final(cp).state(), keys::told(r)) == committed::<P>(
                old(self)@,
                old(store)@,
                old(cp).state(),
            ),
            final(store)@.wf(),
            old(store)@.arena_matches() ==> final(store)@.arena_matches(),
            final(cp).ready(),
    {
        let asked = self.register_request(store);
        match cp.admit_register_blocks(&asked) {
            Err(x) => {
                return Err(x);
            },
            Ok(_) => {},
        }
        proof {
            lemma_flush_keeps(self@.blocks, self@.blocks.len(), store@);
        }
        let ghost s0 = self@;
        let ghost e0 = store@;
        let demoted = match self.flush_durable(store) {
            Err(x) => {
                return Err(x);
            },
            Ok(demoted) => demoted,
        };
        let own = self.block_hashes();
        let ghost s = self@;
        let ghost e = store@;
        let ghost hs = hashes(s.blocks);
        proof {
            assert(hs =~= hashes(s0.blocks));
            assert forall|h: Seq<u8>| #[trigger] e.pin_count(h) + hs.len() <= u32::MAX
                || !hs.contains(h) by {
                assert(e0.pin_count(h) == e.pin_count(h));
            }
        }
        pin_all(store, &own);
        let ghost held = store@;
        match self.tell_shed(cp, &demoted) {
            Err(x) => {
                unpin_all(store, &own);
                return Err(x);
            },
            Ok(_) => {},
        }
        let reg = self.register_request(store);
        match cp.register_blocks(reg) {
            Err(x) => {
                discard_all(store, &own);
                self.roll_back();
                return Err(x);
            },
            Ok(_) => {},
        }
        match self.tell_stand(cp, store) {
            Err(x) => {
                unpin_all(store, &own);
                return Err(x);
            },
            Ok(_) => {},
        }
        match cp.report_refs(self.writeback_deltas(1).as_slice()) {
            Err(x) => {
                unpin_all(store, &own);
                return Err(x);
            },
            Ok(_) => {},
        }
        self.writeback_open = true;
        let barrier = RequestBarrierRequest {
            request_id: self.request_id.dup(),
            node_id: self.node_id.dup(),
        };
        let done = cp.request_barrier(barrier);
        let ghost open = self@;
        assert(open.writeback((-1) as i32) =~= s.writeback((-1) as i32));
        let let_go = cp.report_refs(self.writeback_deltas(-1).as_slice());
        unpin_all(store, &own);
        match done {
            Err(x) => match let_go {
                Ok(_) => {
                    self.writeback_open = false;
                    Err(x)
                },
                Err(y) => {
                    let mut err = x;
                    err.append("; writeback rollback failed after barrier error: ");
                    err.append(y.as_str());
                    Err(err)
                },
            },
            Ok(_) => {
                self.writeback_open = false;
                let_go
            },
        }
    }
}

/// Holds all blocks once more.
fn pin_all(store: &mut LocalTierEngine, hs: &Vec<Vec<u8>>)
    requires
        old(store)@.wf(),
        pinnable(old(store)@, keys::views(hs@)),
    ensures
        final(store)@ == pinned_all(old(store)@, keys::views(hs@)),
        final(store)@.wf(),
        old(store)@.arena_matches() ==> final(store)@.arena_matches(),
{
    let ghost all = keys::views(hs@);
    let ghost start = store@;
    let mut i: usize = 0;
    assert(all.take(0) =~= Seq::empty());
    while i < hs.len()
        invariant
            i <= hs@.len(),
            all == keys::views(hs@),
            start == old(store)@,
            pinnable(start, all),
            store@ == pinned_all(start, all.take(i as int)),
            store@.wf(),
            start.arena_matches() ==> store@.arena_matches(),
        decreases hs.len() - i,
    {
        proof {
            assert(all.take(i + 1).drop_last() =~= all.take(i as int));
            assert(all.take(i + 1).last() == hs@[i as int]@);
            assert(all[i as int] == hs@[i as int]@);
            assert(all.contains(all[i as int]));
            lemma_pins_add(start, all, i as int, all[i as int]);
            lemma_occurs_bounded(all.take(i as int), all[i as int]);
        }
        store.pin(hs[i].as_slice());
        i += 1;
    }
    assert(all.take(i as int) =~= all);
}

/// Holds all blocks once less.
fn unpin_all(store: &mut LocalTierEngine, hs: &Vec<Vec<u8>>)
    requires
        old(store)@.wf(),
    ensures
        final(store)@ == unpinned_all(old(store)@, keys::views(hs@)),
        final(store)@.wf(),
        old(store)@.arena_matches() ==> final(store)@.arena_matches(),
{
    let ghost all = keys::views(hs@);
    let ghost start = store@;
    let mut i: usize = 0;
    assert(all.take(0) =~= Seq::empty());
    while i < hs.len()
        invariant
            i <= hs@.len(),
            all == keys::views(hs@),
            start == old(store)@,
            store@ == unpinned_all(start, all.take(i as int)),
            store@.wf(),
            start.arena_matches() ==> store@.arena_matches(),
        decreases hs.len() - i,
    {
        assert(all.take(i + 1).drop_last() =~= all.take(i as int));
        assert(all.take(i + 1).last() == hs@[i as int]@);
        let _ = store.unpin(hs[i].as_slice());
        i += 1;
    }
    assert(all.take(i as int) =~= all);
}

/// Forgets all blocks in every local tier.
fn discard_all(store: &mut LocalTierEngine, hs: &Vec<Vec<u8>>)
    requires
        old(store)@.wf(),
    ensures
        final(store)@ == discarded_all(old(store)@, keys::views(hs@)),
        final(store)@.wf(),
        old(store)@.arena_matches() ==> final(store)@.arena_matches(),
{
    let ghost all = keys::views(hs@);
    let ghost start = store@;
    let mut i: usize = 0;
    assert(all.take(0) =~= Seq::empty());
    while i < hs.len()
        invariant
            i <= hs@.len(),
            all == keys::views(hs@),
            start == old(store)@,
            store@ == discarded_all(start, all.take(i as int)),
            store@.wf(),
            start.arena_matches() ==> store@.arena_matches(),
        decreases hs.len() - i,
    {
        assert(all.take(i + 1).drop_last() =~= all.take(i as int));
        assert(all.take(i + 1).last() == hs@[i as int]@);
        store.discard_settled(hs[i].as_slice());
        i += 1;
    }
    assert(all.take(i as int) =~= all);
}

/// Blocks that are not admitted are not written: neither the session nor the store
/// changes, and the result is the control plane's.
pub proof fn unadmitted_writes_nothing<P: ControlPlanePort>(s: SessionView, e: EngineView, c: P::State)
    requires
        P::answer(c, PortCall::Admit(s.request(e))).1 is Err,
    ensures
        committed::<P>(s, e, c) == (
            s,
            e,
            P::answer(c, PortCall::Admit(s.request(e))).0,
            P::answer(c, PortCall::Admit(s.request(e))).1,
        ),
{
}

/// A write that a hard quota refuses changes nothing but the pressure that the port
/// reports.
pub proof fn hard_quota_writes_nothing(
    s: SessionView,
    e: EngineView,
    c: AuthorityPortView,
    signal: BackpressureSignalView,
)
    requires
        port::admission(c.auth, s.request(e)) == Ok::<RegisterStatusView, Seq<char>>(
            RegisterStatusView::RejectedHardQuota(signal),
        ),
    ensures
        ({
            let (t, f, d, r) = committed::<AuthorityPort>(s, e, c);
            &&& t == s
            &&& f == e
            &&& d == (AuthorityPortView { auth: c.auth, pressure: Some(signal) })
            &&& r == port::write_told(
                "AdmitRegister"@,
                Ok(RegisterStatusView::RejectedHardQuota(signal)),
            )
            &&& r is Err
        }),
{
    let call = PortCall::Admit(s.request(e));
    assert(AuthorityPort::answer(c, call).1 is Err);
}

/// Blocks that were written back are durable.
proof fn lemma_flush_settles(blocks: Seq<PendingView>, n: nat, e: EngineView, i: int)
    requires
        e.wf(),
        flushable(blocks, e),
        n <= blocks.len(),
        flushed(blocks, n, e).2 is Ok,
        0 <= i < n,
    ensures
        flushed(blocks, n, e).1.settled(blocks[i].id.block_hash),
    decreases n,
{
    let m = (n - 1) as nat;
    lemma_flush_wf(blocks, m, e);
    let e1 = flushed(blocks, m, e).1;
    let b = blocks[n - 1];
    if i == n - 1 {
        engine::put_is_durable(e1, b.id.block_hash, b.bytes);
    } else {
        lemma_flush_settles(blocks, m, e, i);
        engine::put_keeps_others_durable(e1, b.id.block_hash, b.bytes, blocks[i].id.block_hash);
    }
}

/// Writing back keeps the store sound.
proof fn lemma_flush_wf(blocks: Seq<PendingView>, n: nat, e: EngineView)
    requires
        e.wf(),
        flushable(blocks, e),
        n <= blocks.len(),
    ensures
        flushed(blocks, n, e).1.wf(),
        flushed(blocks, n, e).1.arena.next_seg <= e.arena.next_seg + n,
        flushed(blocks, n, e).1.caps == e.caps,
    decreases n,
{
    if n > 0 {
        let m = (n - 1) as nat;
        lemma_flush_wf(blocks, m, e);
        let e1 = flushed(blocks, m, e).1;
        let b = blocks[n - 1];
        assert(b.bytes.len() * 3 <= u64::MAX);
        engine::put_opens_one_segment(e1, b.id.block_hash, b.bytes);
        engine::put_keeps_wf(e1, b.id.block_hash, b.bytes);
    }
}

/// Holding and letting go moves no block.
proof fn lemma_pins_move_nothing(e: EngineView, hs: Seq<Seq<u8>>)
    ensures
        (EngineView { pins: e.pins, ..pinned_all(e, hs) }) == e,
        (EngineView { pins: e.pins, ..unpinned_all(e, hs) }) == e,
    decreases hs.len(),
{
    if hs.len() > 0 {
        lemma_pins_move_nothing(e, hs.drop_last());
    }
}

/// What a commit that succeeds leaves: every block of the session is durable and
/// marked so, no reference is held, and nothing is pinned that was not pinned before.
pub proof fn committed_is_durable<P: ControlPlanePort>(
    s: SessionView,
    e: EngineView,
    c: P::State,
    i: int,
)
    requires
        e.wf(),
        flushable(s.blocks, e),
        pinnable(e, hashes(s.blocks)),
        committed::<P>(s, e, c).3 is Ok,
        0 <= i < s.blocks.len(),
    ensures
        ({
            let (t, f, d, r) = committed::<P>(s, e, c);
            &&& f.settled(s.blocks[i].id.block_hash)
            &&& t.blocks[i] == (PendingView { durable: true, ..s.blocks[i] })
            &&& !t.writeback_open
            &&& f.pins == e.pins
        }),
{
    let n = s.blocks.len();
    lemma_flush_keeps(s.blocks, n, e);
    lemma_flush_wf(s.blocks, n, e);
    lemma_flush_settles(s.blocks, n, e, i);
    let (blocks, e1, shed) = flushed(s.blocks, n, e);
    let hs = hashes(blocks);
    assert(hs =~= hashes(s.blocks));
    lemma_pinnable_after_flush(s, e);
    unpin_undoes_pin_all(e1, hs);
}

proof fn lemma_pinnable_after_flush(s: SessionView, e: EngineView)
    requires
        pinnable(e, hashes(s.blocks)),
    ensures
        pinnable(flushed(s.blocks, s.blocks.len(), e).1, hashes(s.blocks)),
        hashes(flushed(s.blocks, s.blocks.len(), e).0) == hashes(s.blocks),
{
    let n = s.blocks.len();
    lemma_flush_keeps(s.blocks, n, e);
    let (blocks, e1, r) = flushed(s.blocks, n, e);
    assert(hashes(blocks) =~= hashes(s.blocks));
    assert forall|h: Seq<u8>| #[trigger] e1.pin_count(h) + hashes(s.blocks).len() <= u32::MAX
        || !hashes(s.blocks).contains(h) by {
        assert(e.pin_count(h) == e1.pin_count(h));
    }
}

/// However a commit ends, it leaves no block held in place by it: the pins are those
/// from before, but for the session's own blocks where they were not registered,
/// which are gone with their pins.
pub proof fn commit_holds_nothing<P: ControlPlanePort>(
    s: SessionView,
    e: EngineView,
    c: P::State,
    h: Seq<u8>,
)
    requires
        e.wf(),
        flushable(s.blocks, e),
        pinnable(e, hashes(s.blocks)),
    ensures
        ({
            let f = committed::<P>(s, e, c).1;
            ||| f.pin_count(h) == e.pin_count(h)
            ||| hashes(s.blocks).contains(h) && f.tier_of(h) is None && f.pin_count(h) == 0
        }),
{
    let n = s.blocks.len();
    lemma_flush_keeps(s.blocks, n, e);
    lemma_flush_wf(s.blocks, n, e);
    lemma_pinnable_after_flush(s, e);
    let (blocks, e1, shed) = flushed(s.blocks, n, e);
    let hs = hashes(blocks);
    unpin_undoes_pin_all(e1, hs);
    let held = pinned_all(e1, hs);
    assert(hs.take(hs.len() as int) =~= hs);
    lemma_pins_add(e1, hs, hs.len() as int, h);
    lemma_discarded_all(held, hs, h);
}

/// Blocks that are discarded are in no tier, and the others are where they were.
proof fn lemma_discarded_all(e: EngineView, hs: Seq<Seq<u8>>, h: Seq<u8>)
    ensures
        hs.contains(h) ==> discarded_all(e, hs).tier_of(h) is None && discarded_all(
            e,
            hs,
        ).pin_count(h) == 0,
        !hs.contains(h) ==> discarded_all(e, hs).tier_of(h) == e.tier_of(h) && discarded_all(
            e,
            hs,
        ).read(h) == e.read(h) && discarded_all(e, hs).pin_count(h) == e.pin_count(h),
    decreases hs.len(),
{
    if hs.len() > 0 {
        let before = hs.drop_last();
        lemma_discarded_all(e, before, h);
        engine::discard_is_total(discarded_all(e, before), hs.last(), h);
        if hs.contains(h) && hs.last() != h {
            let k = choose|k: int| 0 <= k < hs.len() && hs[k] == h;
            assert(before[k] == h);
        }
        if before.contains(h) {
            let k = choose|k: int| 0 <= k < before.len() && before[k] == h;
            assert(hs[k] == h);
        }
        if hs.last() == h {
            assert(hs[hs.len() - 1] == h);
        }
    }
}

/// Blocks that the control plane does not register are rolled back: nothing local is
/// left of them, none is marked durable, and every other block is where the write-back
/// left it.
pub proof fn unregistered_leaves_nothing<P: ControlPlanePort>(
    s: SessionView,
    e: EngineView,
    c: P::State,
    shed: Seq<Seq<u8>>,
    h: Seq<u8>,
)
    requires
        port::sent::<P>(c, s.shed_calls(shed)).1 is Ok,
        P::answer(
            port::sent::<P>(c, s.shed_calls(shed)).0,
            PortCall::Register(s.request(pinned_all(e, hashes(s.blocks)))),
        ).1 is Err,
    ensures
        ({
            let (t, f, d, r) = announced::<P>(s, e, c, shed);
            &&& r is Err
            &&& hashes(s.blocks).contains(h) ==> f.tier_of(h) is None && f.pin_count(h) == 0
            &&& !hashes(s.blocks).contains(h) ==> f.tier_of(h) == e.tier_of(h) && f.read(h)
                == e.read(h)
            &&& t.blocks.len() == s.blocks.len()
            &&& forall|i: int| 0 <= i < t.blocks.len() ==> !(#[trigger] t.blocks[i]).durable
        }),
{
    let hs = hashes(s.blocks);
    let held = pinned_all(e, hs);
    lemma_pins_move_nothing(e, hs);
    lemma_discarded_all(held, hs, h);
}

/// A commit that gets as far as writing leaves L2 within its capacity: the session's
/// own blocks can be shed too, as they are not held before all are written.
pub proof fn commit_respects_capacity<P: ControlPlanePort>(s: SessionView, e: EngineView, c: P::State)
    requires
        e.wf(),
        flushable(s.blocks, e),
        e.caps.l2 != 0,
        s.blocks.len() > 0,
        committed::<P>(s, e, c).3 is Ok,
    ensures
        committed::<P>(s, e, c).1.l2.len() <= e.caps.l2,
{
    let n = s.blocks.len();
    lemma_flush_wf(s.blocks, (n - 1) as nat, e);
    let b = s.blocks[n - 1];
    let e0 = flushed(s.blocks, (n - 1) as nat, e).1;
    engine::put_respects_capacity(e0, b.id.block_hash, b.bytes);
    let (blocks, e1, shed) = flushed(s.blocks, n, e);
    let hs = hashes(blocks);
    lemma_pins_move_nothing(e1, hs);
    lemma_pins_move_nothing(pinned_all(e1, hs), hs);
}

/// The writeback references of a commit are let go: where its barrier was set, what is
/// added before is what is taken back after.
pub proof fn writeback_is_balanced(s: SessionView, i: int)
    requires
        0 <= i < s.blocks.len(),
    ensures
        s.writeback(1).len() == s.writeback((-1) as i32).len() == s.blocks.len(),
        s.writeback(1)[i].delta + s.writeback((-1) as i32)[i].delta == 0,
        s.writeback(1)[i].id == s.writeback((-1) as i32)[i].id,
        s.writeback(1)[i].kind == s.writeback((-1) as i32)[i].kind,
        s.writeback(1)[i].node_id == s.writeback((-1) as i32)[i].node_id,
{
}

/// A call that tells of copies of a block.
spec fn tells_of(call: PortCall) -> bool {
    match call {
        PortCall::Publish { .. } => true,
        PortCall::L3 { .. } => true,
        _ => false,
    }
}

/// Telling of copies makes no model known and none unknown.
proof fn lemma_telling_keeps_models(c: AuthorityPortView, calls: Seq<PortCall>)
    requires
        forall|i: int| 0 <= i < calls.len() ==> tells_of(#[trigger] calls[i]),
    ensures
        port::sent::<AuthorityPort>(c, calls).0.auth.spaces.dom() == c.auth.spaces.dom(),
        port::sent::<AuthorityPort>(c, calls).0.auth.barriers == c.auth.barriers,
    decreases calls.len(),
{
    if calls.len() > 0 {
        let init = calls.drop_last();
        assert forall|i: int| 0 <= i < init.len() implies tells_of(#[trigger] init[i]) by {
            assert(init[i] == calls[i]);
        }
        lemma_telling_keeps_models(c, init);
        let d = port::sent::<AuthorityPort>(c, init).0;
        assert(tells_of(calls[calls.len() - 1]));
        let e = AuthorityPort::answer(d, calls.last()).0;
        assert(e.auth.spaces.dom() =~= d.auth.spaces.dom());
    }
}

proof fn lemma_shed_calls_tell(s: SessionView, shed: Seq<Seq<u8>>)
    ensures
        forall|i: int|
            0 <= i < s.shed_calls(shed).len() ==> tells_of(#[trigger] s.shed_calls(shed)[i]),
    decreases shed.len(),
{
    if shed.len() > 0 {
        lemma_shed_calls_tell(s, shed.drop_last());
        let a = s.shed_calls(shed.drop_last());
        let b = s.shed_call(shed.last());
        let all = s.shed_calls(shed);
        assert forall|i: int| 0 <= i < all.len() implies tells_of(#[trigger] all[i]) by {
            if i < a.len() {
                assert(all[i] == a[i]);
            } else {
                assert(all[i] == b[i - a.len()]);
            }
        }
    }
}

/// The session is as writing makes it: its chain is that of its blocks, each once, and they
/// are of its model.
pub open spec fn as_written(s: SessionView) -> bool {
    &&& s.blocks.len() > 0
    &&& s.prefix_hashes == hashes(s.blocks)
    &&& s.prefix_hashes.no_duplicates()
    &&& forall|i: int|
        0 <= i < s.blocks.len() ==> (#[trigger] s.blocks[i]).id.model_id == s.model_id
            && s.blocks[i].id.revision == s.revision && s.blocks[i].id.pool_kind
            == PoolKind::Target.spec_number()
}

/// A block of the session's model.
pub open spec fn key_in(s: SessionView, h: Seq<u8>) -> BlockKeyView {
    BlockKeyView {
        model_id: s.model_id,
        revision: s.revision,
        pool_kind: PoolKind::Target.spec_number(),
        flat: h,
    }
}

/// What the control plane knows of a block is where the store has it.
spec fn known_right(a: AuthorityView, s: SessionView, e: EngineView, h: Seq<u8>) -> bool {
    let x = key_in(s, h);
    &&& a.has_block(x)
    &&& a.block(x).meta.l3_present == e.l3.contains_key(h)
    &&& e.l2.contains_key(h) ==> a.block(x).meta.locations.len() == 1
        && a.block(x).meta.locations[0].tier == Tier::L2.spec_number()
        && a.block(x).meta.locations[0].node_id == s.node_id && (e.arena.placed.contains_key(h)
        ==> a.block(x).meta.locations[0].segment_id == e.arena.placed[h].segment_id
        && a.block(x).meta.locations[0].offset == e.arena.placed[h].offset)
    &&& !e.l2.contains_key(h) ==> a.block(x).meta.locations.len() == 0
}

/// Telling where blocks stand keeps what is known of a block right.
proof fn lemma_stand_call(c: AuthorityPortView, s: SessionView, e: EngineView, g: Seq<u8>, h: Seq<u8>)
    requires
        as_written(s),
        known_right(c.auth, s, e, h),
    ensures
        known_right(
            port::sent::<AuthorityPort>(c, s.stand_call(e, g)).0.auth,
            s,
            e,
            h,
        ),
{
    let k = (s.model_id, s.revision);
    let pk = PoolKind::Target.spec_number();
    assert(s.pool_kind() == pk) by {
        assert(s.blocks[0].id.pool_kind == pk);
    }
    let l = LocationView {
        tier: Tier::L2.spec_number(),
        node_id: s.node_id,
        segment_id: 1,
        offset: 0,
    };
    let calls = s.stand_call(e, g);
    let first = if e.l3.contains_key(g) {
        seq![s.in_l3(g)]
    } else {
        Seq::empty()
    };
    let c1 = port::sent::<AuthorityPort>(c, first).0;
    assert(known_right(c1.auth, s, e, h)) by {
        if e.l3.contains_key(g) {
            assert(first.drop_last() =~= Seq::empty());
            assert(port::sent::<AuthorityPort>(c, first.drop_last()) == (
                c,
                Ok::<(), Seq<char>>(()),
            ));
            if g != h {
                upkeep::publishing_changes_one_block(c.auth, k, pk, g, l, true, key_in(s, h));
            }
        }
    }
    if e.l2.contains_key(g) {
        assert(calls =~= first);
    } else {
        assert(calls =~= first.push(s.left_l2(g)));
        port::sent_then::<AuthorityPort>(c, first, s.left_l2(g));
        if port::sent::<AuthorityPort>(c, first).1 is Ok {
            if g != h {
                upkeep::publishing_changes_one_block(c1.auth, k, pk, g, l, false, key_in(s, h));
            } else {
                let was = c1.auth.block(key_in(s, h)).meta.locations;
                queue::lemma_filter(
                    was,
                    |m: LocationView| !(m.tier == l.tier && m.node_id == l.node_id),
                );
            }
        }
    }
}

#[verifier::rlimit(40)]
proof fn lemma_stand_calls(
    c: AuthorityPortView,
    s: SessionView,
    e: EngineView,
    hs: Seq<Seq<u8>>,
    h: Seq<u8>,
)
    requires
        as_written(s),
        known_right(c.auth, s, e, h),
    ensures
        known_right(port::sent::<AuthorityPort>(c, s.stand_calls(e, hs)).0.auth, s, e, h),
    decreases hs.len(),
{
    if hs.len() > 0 {
        lemma_stand_calls(c, s, e, hs.drop_last(), h);
        let before = s.stand_calls(e, hs.drop_last());
        let last = s.stand_call(e, hs.last());
        let (d, r) = port::sent::<AuthorityPort>(c, before);
        if r is Ok {
            port::sending_goes_on::<AuthorityPort>(c, before, last);
            lemma_stand_call(d, s, e, hs.last(), h);
        } else {
            port::refusal_ends_sending::<AuthorityPort>(c, before, last);
        }
    }
}

/// References change no record.
proof fn lemma_refs_keep_records(a: AuthorityView, ds: Seq<RefDeltaView>, x: BlockKeyView)
    requires
        a.refs_reported(ds) is Ok,
    ensures
        a.refs_reported(ds)->Ok_0.has_block(x) == a.has_block(x),
        a.has_block(x) ==> a.refs_reported(ds)->Ok_0.block(x) == a.block(x),
        a.refs_reported(ds)->Ok_0.barriers == a.barriers,
    decreases ds.len(),
{
    if ds.len() > 0 {
        lemma_refs_keep_records(a, ds.drop_last(), x);
    }
}

/// What is registered of a session is known right.
#[verifier::rlimit(40)]
proof fn lemma_registered_right(a: AuthorityView, t: SessionView, held: EngineView, i: int)
    requires
        as_written(t),
        a.spaces.dom().finite(),
        0 <= i < t.blocks.len(),
        ({
            let req = t.request(held);
            a.registered(req.node_id, req.prefix_hashes, req.blocks).1 == Ok::<
                RegisterStatusView,
                Seq<char>,
            >(RegisterStatusView::Accepted)
        }),
    ensures
        ({
            let req = t.request(held);
            known_right(
                a.registered(req.node_id, req.prefix_hashes, req.blocks).0,
                t,
                held,
                t.blocks[i].id.block_hash,
            )
        }),
{
    let req = t.request(held);
    let hs = hashes(t.blocks);
    let h = t.blocks[i].id.block_hash;
    let a3 = a.registered(req.node_id, req.prefix_hashes, req.blocks).0;
    assert(req.blocks[i] == meta_of(t.blocks[i].id, t.node_id, held));
    assert(hs[i] == h);
    assert forall|j: int| i < j < req.blocks.len() && (#[trigger] req.blocks[j]).id
        is Some implies req.blocks[j].id->0.block_hash != req.blocks[i].id->0.block_hash by {
        assert(hs[j] == t.blocks[j].id.block_hash);
        assert(hs[j] != hs[i]);
    }
    assert forall|j: int| i < j < req.prefix_hashes.len() implies #[trigger] req.prefix_hashes[j]
        != req.prefix_hashes[i] by {}
    laws::registered_record_is_kept(a, req.node_id, req.prefix_hashes, req.blocks, i, i);
    let x = key_in(t, h);
    assert(t.blocks[i].id.model_id == t.model_id);
    assert(a3.has_block(x));
    let kept = a3.block(x).meta;
    if held.l2.contains_key(h) {
        assert(req.blocks[i].locations.len() == 1);
        assert(kept.locations[0] == (if req.blocks[i].locations[0].node_id.len() == 0 {
            LocationView { node_id: req.node_id, ..req.blocks[i].locations[0] }
        } else {
            req.blocks[i].locations[0]
        }));
    }
}

/// After a commit that succeeds the control plane knows the session's blocks as the store has
/// them: a copy in L2 of the node exactly where L2 holds the block, at its place there, and in
/// object storage exactly where L3 does. The request is on record as done by the node.
#[verifier::rlimit(40)]
pub proof fn committed_is_known(s: SessionView, e: EngineView, c: AuthorityPortView, i: int)
    requires
        e.wf(),
        flushable(s.blocks, e),
        pinnable(e, hashes(s.blocks)),
        c.auth.spaces.dom().finite(),
        as_written(s),
        committed::<AuthorityPort>(s, e, c).3 is Ok,
        0 <= i < s.blocks.len(),
    ensures
        ({
            let f = committed::<AuthorityPort>(s, e, c).1;
            let d = committed::<AuthorityPort>(s, e, c).2.auth;
            let h = s.blocks[i].id.block_hash;
            let x = BlockKeyView {
                model_id: s.model_id,
                revision: s.revision,
                pool_kind: PoolKind::Target.spec_number(),
                flat: h,
            };
            let locations = d.block(x).meta.locations;
            &&& d.has_block(x)
            &&& d.block(x).meta.l3_present == f.l3.contains_key(h)
            &&& locations.len() == (if f.l2.contains_key(h) {
                1nat
            } else {
                0nat
            })
            &&& f.l2.contains_key(h) ==> locations[0].tier == Tier::L2.spec_number()
                && locations[0].node_id == s.node_id && (f.arena.placed.contains_key(h)
                ==> locations[0].segment_id == f.arena.placed[h].segment_id
                && locations[0].offset == f.arena.placed[h].offset)
            &&& d.barriers.contains_key(s.request_id) && d.barriers[s.request_id] == s.node_id
        }),
{
    let n = s.blocks.len();
    let h = s.blocks[i].id.block_hash;
    lemma_flush_keeps(s.blocks, n, e);
    let c1 = AuthorityPort::answer(c, PortCall::Admit(s.request(e))).0;
    assert(c1.auth == c.auth);
    let (blocks, e1, shed) = flushed(s.blocks, n, e);
    let t = SessionView { blocks, ..s };
    let hs = hashes(blocks);
    assert(hs =~= hashes(s.blocks));
    assert(as_written(t)) by {
        assert forall|j: int| 0 <= j < t.blocks.len() implies (#[trigger] t.blocks[j]).id.model_id
            == t.model_id && t.blocks[j].id.revision == t.revision && t.blocks[j].id.pool_kind
            == PoolKind::Target.spec_number() by {
            assert(s.blocks[j].id.model_id == s.model_id);
        }
    }
    assert(t.blocks[i].id.block_hash == h);
    lemma_announced_right(t, e1, c1, shed->Ok_0, i);
}

/// What is announced of a session is known right, and on record.
#[verifier::rlimit(40)]
proof fn lemma_announced_right(
    t: SessionView,
    e: EngineView,
    c: AuthorityPortView,
    shed: Seq<Seq<u8>>,
    i: int,
)
    requires
        as_written(t),
        c.auth.spaces.dom().finite(),
        0 <= i < t.blocks.len(),
        announced::<AuthorityPort>(t, e, c, shed).3 is Ok,
    ensures
        ({
            let (u, f, d, r) = announced::<AuthorityPort>(t, e, c, shed);
            &&& known_right(d.auth, t, f, t.blocks[i].id.block_hash)
            &&& d.auth.barriers.contains_key(t.request_id) && d.auth.barriers[t.request_id]
                == t.node_id
        }),
{
    let h = t.blocks[i].id.block_hash;
    let hs = hashes(t.blocks);
    let held = pinned_all(e, hs);
    lemma_pins_move_nothing(held, hs);
    lemma_shed_calls_tell(t, shed);
    lemma_telling_keeps_models(c, t.shed_calls(shed));
    let c2 = port::sent::<AuthorityPort>(c, t.shed_calls(shed)).0;
    let req = t.request(held);
    let c3 = AuthorityPort::answer(c2, PortCall::Register(req)).0;
    assert(c2.auth.registered(req.node_id, req.prefix_hashes, req.blocks).1 == Ok::<
        RegisterStatusView,
        Seq<char>,
    >(RegisterStatusView::Accepted));
    lemma_registered_right(c2.auth, t, held, i);
    assert(known_right(c3.auth, t, held, h));
    lemma_stand_calls(c3, t, held, hs, h);
    let c4 = port::sent::<AuthorityPort>(c3, t.stand_calls(held, hs)).0;
    lemma_completed_right(t, held, c4, h);
}

/// The last step of a commit keeps what is known of a block right, and puts it on record.
#[verifier::rlimit(40)]
proof fn lemma_completed_right(t: SessionView, e: EngineView, c: AuthorityPortView, h: Seq<u8>)
    requires
        known_right(c.auth, t, e, h),
        completed::<AuthorityPort>(t, e, c).3 is Ok,
    ensures
        ({
            let (u, f, d, r) = completed::<AuthorityPort>(t, e, c);
            &&& known_right(d.auth, t, f, h)
            &&& d.auth.barriers.contains_key(t.request_id) && d.auth.barriers[t.request_id]
                == t.node_id
        }),
{
    let x = key_in(t, h);
    lemma_pins_move_nothing(e, hashes(t.blocks));
    lemma_refs_keep_records(c.auth, t.writeback(1), x);
    let c5 = AuthorityPort::answer(c, PortCall::Refs(t.writeback(1))).0;
    let barrier = RequestBarrierRequestView { request_id: t.request_id, node_id: t.node_id };
    let c6 = AuthorityPort::answer(c5, PortCall::Barrier(barrier)).0;
    assert(c6.auth.has_block(x) && c6.auth.block(x) == c5.auth.block(x));
    lemma_refs_keep_records(c6.auth, t.writeback((-1) as i32), x);
}

/// The control plane knows of a block that it left L2 of the node for object storage.
pub open spec fn known_shed(a: AuthorityView, s: SessionView, h: Seq<u8>) -> bool {
    a.block(key_in(s, h)).meta.l3_present && !upkeep::lies_in(a, key_in(s, h), Tier::L2, s.node_id)
}

/// A block that was shed is told of; others are not touched.
#[verifier::rlimit(40)]
proof fn lemma_shed_call(c: AuthorityPortView, s: SessionView, g: Seq<u8>, h: Seq<u8>)
    requires
        as_written(s),
        !hashes(s.blocks).contains(h),
        port::sent::<AuthorityPort>(c, s.shed_call(g)).1 is Ok,
    ensures
        ({
            let d = port::sent::<AuthorityPort>(c, s.shed_call(g)).0.auth;
            let x = key_in(s, h);
            &&& g == h ==> d.has_block(x) && known_shed(d, s, h)
            &&& c.auth.has_block(x) && known_shed(c.auth, s, h) ==> d.has_block(x) && known_shed(
                d,
                s,
                h,
            )
        }),
{
    let k = (s.model_id, s.revision);
    let pk = PoolKind::Target.spec_number();
    assert(s.pool_kind() == pk) by {
        assert(s.blocks[0].id.pool_kind == pk);
    }
    let l = LocationView {
        tier: Tier::L2.spec_number(),
        node_id: s.node_id,
        segment_id: 1,
        offset: 0,
    };
    let far = LocationView { tier: 99, ..l };
    let x = key_in(s, h);
    let last = s.shed_call(g);
    if !hashes(s.blocks).contains(g) {
        let one = seq![s.left_l2(g)];
        assert(last.drop_last() =~= one);
        assert(one.drop_last() =~= Seq::empty());
        assert(port::sent::<AuthorityPort>(c, one.drop_last()) == (c, Ok::<(), Seq<char>>(())));
        let (b, q) = AuthorityPort::answer(c, s.left_l2(g));
        assert(port::sent::<AuthorityPort>(c, one) == (b, q));
        assert(q is Ok);
        if g == h {
            upkeep::published_is_seen(c.auth, k, pk, g, l, Tier::L2, false, far);
        } else {
            upkeep::publishing_changes_one_block(c.auth, k, pk, g, l, false, x);
            upkeep::publishing_changes_one_block(b.auth, k, pk, g, l, true, x);
        }
    }
}

/// The control plane has the block and knows that it was shed.
#[verifier::opaque]
spec fn told_shed(a: AuthorityView, s: SessionView, h: Seq<u8>) -> bool {
    a.has_block(key_in(s, h)) && known_shed(a, s, h)
}

#[verifier::rlimit(40)]
proof fn lemma_shed_call_told(c: AuthorityPortView, s: SessionView, g: Seq<u8>, h: Seq<u8>)
    requires
        as_written(s),
        !hashes(s.blocks).contains(h),
        port::sent::<AuthorityPort>(c, s.shed_call(g)).1 is Ok,
        g == h || told_shed(c.auth, s, h),
    ensures
        told_shed(port::sent::<AuthorityPort>(c, s.shed_call(g)).0.auth, s, h),
{
    reveal(told_shed);
    lemma_shed_call(c, s, g, h);
}

#[verifier::spinoff_prover]
#[verifier::rlimit(60)]
proof fn lemma_shed_told(c: AuthorityPortView, s: SessionView, shed: Seq<Seq<u8>>, h: Seq<u8>)
    requires
        as_written(s),
        shed.contains(h),
        !hashes(s.blocks).contains(h),
        port::sent::<AuthorityPort>(c, s.shed_calls(shed)).1 is Ok,
    ensures
        told_shed(port::sent::<AuthorityPort>(c, s.shed_calls(shed)).0.auth, s, h),
    decreases shed.len(),
{
    let before = s.shed_calls(shed.drop_last());
    let last = s.shed_call(shed.last());
    assert(s.shed_calls(shed) == before + last);
    lemma_sent_both::<AuthorityPort>(c, before, last);
    if shed.last() != h {
        let j = choose|j: int| 0 <= j < shed.len() && shed[j] == h;
        assert(shed.drop_last()[j] == h);
        lemma_shed_told(c, s, shed.drop_last(), h);
    }
    lemma_shed_call_told(port::sent::<AuthorityPort>(c, before).0, s, shed.last(), h);
}

/// Where calls all succeed the first of them do, and so do the others after them.
proof fn lemma_sent_both<P: ControlPlanePort>(c: P::State, a: Seq<PortCall>, b: Seq<PortCall>)
    requires
        port::sent::<P>(c, a + b).1 is Ok,
    ensures
        port::sent::<P>(c, a).1 is Ok,
        port::sent::<P>(c, a + b) == port::sent::<P>(port::sent::<P>(c, a).0, b),
{
    if port::sent::<P>(c, a).1 is Err {
        port::refusal_ends_sending::<P>(c, a, b);
    } else {
        port::sending_goes_on::<P>(c, a, b);
    }
}

/// Telling where the session's blocks stand changes nothing of others.
#[verifier::rlimit(40)]
proof fn lemma_stand_others(
    c: AuthorityPortView,
    s: SessionView,
    e: EngineView,
    hs: Seq<Seq<u8>>,
    h: Seq<u8>,
)
    requires
        as_written(s),
        !hs.contains(h),
    ensures
        ({
            let d = port::sent::<AuthorityPort>(c, s.stand_calls(e, hs)).0;
            let x = key_in(s, h);
            d.auth.has_block(x) == c.auth.has_block(x) && (c.auth.has_block(x) ==> d.auth.block(x)
                == c.auth.block(x))
        }),
    decreases hs.len(),
{
    if hs.len() > 0 {
        let init = hs.drop_last();
        let g = hs.last();
        assert(hs[hs.len() - 1] == g);
        assert(!init.contains(h)) by {
            if init.contains(h) {
                let j = choose|j: int| 0 <= j < init.len() && init[j] == h;
                assert(hs[j] == h);
            }
        }
        lemma_stand_others(c, s, e, init, h);
        let before = s.stand_calls(e, init);
        let last = s.stand_call(e, g);
        let (d, r) = port::sent::<AuthorityPort>(c, before);
        if r is Err {
            port::refusal_ends_sending::<AuthorityPort>(c, before, last);
        } else {
            port::sending_goes_on::<AuthorityPort>(c, before, last);
            lemma_stand_other(d, s, e, g, h);
        }
    }
}

#[verifier::rlimit(40)]
proof fn lemma_stand_other(
    c: AuthorityPortView,
    s: SessionView,
    e: EngineView,
    g: Seq<u8>,
    h: Seq<u8>,
)
    requires
        as_written(s),
        g != h,
    ensures
        ({
            let d = port::sent::<AuthorityPort>(c, s.stand_call(e, g)).0;
            let x = key_in(s, h);
            d.auth.has_block(x) == c.auth.has_block(x) && (c.auth.has_block(x) ==> d.auth.block(x)
                == c.auth.block(x))
        }),
{
    let k = (s.model_id, s.revision);
    let pk = PoolKind::Target.spec_number();
    assert(s.pool_kind() == pk) by {
        assert(s.blocks[0].id.pool_kind == pk);
    }
    let l = LocationView {
        tier: Tier::L2.spec_number(),
        node_id: s.node_id,
        segment_id: 1,
        offset: 0,
    };
    let x = key_in(s, h);
    let calls = s.stand_call(e, g);
    let first = if e.l3.contains_key(g) {
        seq![s.in_l3(g)]
    } else {
        Seq::empty()
    };
    let c1 = port::sent::<AuthorityPort>(c, first).0;
    if e.l3.contains_key(g) {
        assert(first.drop_last() =~= Seq::empty());
        assert(port::sent::<AuthorityPort>(c, first.drop_last()) == (c, Ok::<(), Seq<char>>(())));
        upkeep::publishing_changes_one_block(c.auth, k, pk, g, l, true, x);
    }
    if e.l2.contains_key(g) {
        assert(calls =~= first);
    } else {
        assert(calls =~= first.push(s.left_l2(g)));
        port::sent_then::<AuthorityPort>(c, first, s.left_l2(g));
        upkeep::publishing_changes_one_block(c1.auth, k, pk, g, l, false, x);
    }
}

/// What L2 sheds for a session is told: after a commit that succeeds, a block of another
/// session that was in L2 before and is not any more is known to be in object storage and not
/// in L2 of the node, where it is known at all.
#[verifier::rlimit(40)]
pub proof fn shed_blocks_are_told(s: SessionView, e: EngineView, c: AuthorityPortView, h: Seq<u8>)
    requires
        e.wf(),
        flushable(s.blocks, e),
        c.auth.spaces.dom().finite(),
        as_written(s),
        committed::<AuthorityPort>(s, e, c).3 is Ok,
        !hashes(s.blocks).contains(h),
        e.l2.contains_key(h),
        !committed::<AuthorityPort>(s, e, c).1.l2.contains_key(h),
    ensures
        ({
            let d = committed::<AuthorityPort>(s, e, c).2.auth;
            let x = BlockKeyView {
                model_id: s.model_id,
                revision: s.revision,
                pool_kind: PoolKind::Target.spec_number(),
                flat: h,
            };
            d.has_block(x) ==> d.block(x).meta.l3_present && !upkeep::lies_in(
                d,
                x,
                Tier::L2,
                s.node_id,
            )
        }),
{
    let n = s.blocks.len();
    lemma_flush_keeps(s.blocks, n, e);
    let c1 = AuthorityPort::answer(c, PortCall::Admit(s.request(e))).0;
    let (blocks, e1, r) = flushed(s.blocks, n, e);
    let shed = r->Ok_0;
    let t = SessionView { blocks, ..s };
    let hs = hashes(blocks);
    assert(hs =~= hashes(s.blocks));
    assert(as_written(t)) by {
        assert forall|j: int| 0 <= j < t.blocks.len() implies (#[trigger] t.blocks[j]).id.model_id
            == t.model_id && t.blocks[j].id.revision == t.revision && t.blocks[j].id.pool_kind
            == PoolKind::Target.spec_number() by {
            assert(s.blocks[j].id.model_id == s.model_id);
        }
    }
    assert(committed::<AuthorityPort>(s, e, c) == announced::<AuthorityPort>(t, e1, c1, shed));
    lemma_announced_store::<AuthorityPort>(t, e1, c1, shed);
    lemma_shed_listed(s.blocks, n, e, h);
    lemma_announced_shed(t, e1, c1, shed, h);
}

/// Announcing blocks moves none in the store, unless they are not registered.
proof fn lemma_announced_store<P: ControlPlanePort>(
    t: SessionView,
    e: EngineView,
    c: P::State,
    shed: Seq<Seq<u8>>,
)
    requires
        announced::<P>(t, e, c, shed).3 is Ok,
    ensures
        announced::<P>(t, e, c, shed).1.l2 == e.l2,
{
    let hs = hashes(t.blocks);
    lemma_pins_move_nothing(e, hs);
    lemma_pins_move_nothing(pinned_all(e, hs), hs);
}

/// A block that left L2 while blocks were written is listed.
proof fn lemma_shed_listed(blocks: Seq<PendingView>, n: nat, e: EngineView, h: Seq<u8>)
    requires
        e.wf(),
        n <= blocks.len(),
        flushable(blocks, e),
        flushed(blocks, n, e).2 is Ok,
        e.l2.contains_key(h),
        !flushed(blocks, n, e).1.l2.contains_key(h),
    ensures
        flushed(blocks, n, e).2->Ok_0.contains(h),
    decreases n,
{
    if n > 0 {
        let (bs, e1, r) = flushed(blocks, (n - 1) as nat, e);
        let b = blocks[n - 1];
        let shed = r->Ok_0;
        let more = e1.put_durable(b.id.block_hash, b.bytes).1->Ok_0.1.l2_demoted_to_l3;
        let all = shed + more;
        lemma_flush_wf(blocks, (n - 1) as nat, e);
        if e1.l2.contains_key(h) {
            engine::put_tells_its_effects(e1, b.id.block_hash, b.bytes, h);
            assert(more.contains(h));
            let j = choose|j: int| 0 <= j < more.len() && more[j] == h;
            assert(all[shed.len() + j] == h);
        } else {
            lemma_shed_listed(blocks, (n - 1) as nat, e, h);
            let j = choose|j: int| 0 <= j < shed.len() && shed[j] == h;
            assert(all[j] == h);
        }
    }
}

/// What a session sheds is told before it is registered, and stays told.
#[verifier::rlimit(40)]
proof fn lemma_announced_shed(
    t: SessionView,
    e: EngineView,
    c: AuthorityPortView,
    shed: Seq<Seq<u8>>,
    h: Seq<u8>,
)
    requires
        as_written(t),
        c.auth.spaces.dom().finite(),
        announced::<AuthorityPort>(t, e, c, shed).3 is Ok,
        shed.contains(h),
        !hashes(t.blocks).contains(h),
    ensures
        ({
            let d = announced::<AuthorityPort>(t, e, c, shed).2;
            d.auth.has_block(key_in(t, h)) ==> known_shed(d.auth, t, h)
        }),
{
    let hs = hashes(t.blocks);
    let held = pinned_all(e, hs);
    let x = key_in(t, h);
    lemma_shed_calls_tell(t, shed);
    lemma_telling_keeps_models(c, t.shed_calls(shed));
    lemma_shed_told(c, t, shed, h);
    reveal(told_shed);
    let c2 = port::sent::<AuthorityPort>(c, t.shed_calls(shed)).0;
    let req = t.request(held);
    let c3 = AuthorityPort::answer(c2, PortCall::Register(req)).0;
    assert(c3.auth.has_block(x) ==> c3.auth.block(x) == c2.auth.block(x)) by {
        if c3.auth.has_block(x) {
            lemma_not_named(t, held, h);
            laws::registration_adds_only_its_blocks(
                c2.auth,
                req.node_id,
                req.prefix_hashes,
                req.blocks,
                x,
            );
        }
    }
    lemma_stand_others(c3, t, held, hs, h);
    let c4 = port::sent::<AuthorityPort>(c3, t.stand_calls(held, hs)).0;
    lemma_completed_others(t, held, c4, x);
}

/// A request names the session's blocks and no other.
proof fn lemma_not_named(t: SessionView, e: EngineView, h: Seq<u8>)
    requires
        !hashes(t.blocks).contains(h),
    ensures
        !laws::names_block(t.request(e).blocks, h),
{
    let metas = t.request(e).blocks;
    let ids = register::ids_of(metas);
    let hs = register::hashes_of(ids);
    if hs.contains(h) {
        let i = choose|i: int| 0 <= i < hs.len() && hs[i] == h;
        lemma_ids_from(metas, i);
        let j = choose|j: int| 0 <= j < metas.len() && (#[trigger] metas[j]).id == Some(ids[i]);
        assert(metas[j] == meta_of(t.blocks[j].id, t.node_id, e));
        assert(hashes(t.blocks)[j] == h);
    }
}

proof fn lemma_ids_from(metas: Seq<BlockMetaView>, i: int)
    requires
        0 <= i < register::ids_of(metas).len(),
    ensures
        exists|j: int|
            0 <= j < metas.len() && (#[trigger] metas[j]).id == Some(register::ids_of(metas)[i]),
    decreases metas.len(),
{
    let init = metas.drop_last();
    let rest = register::ids_of(init);
    if i < rest.len() {
        lemma_ids_from(init, i);
        let j = choose|j: int| 0 <= j < init.len() && (#[trigger] init[j]).id == Some(rest[i]);
        assert(metas[j] == init[j]);
    } else {
        assert(metas[metas.len() - 1] == metas.last());
    }
}

/// The last step of a commit changes no record.
proof fn lemma_completed_others(t: SessionView, e: EngineView, c: AuthorityPortView, x: BlockKeyView)
    requires
        completed::<AuthorityPort>(t, e, c).3 is Ok,
    ensures
        ({
            let d = completed::<AuthorityPort>(t, e, c).2;
            d.auth.has_block(x) == c.auth.has_block(x) && (c.auth.has_block(x) ==> d.auth.block(x)
                == c.auth.block(x))
        }),
{
    lemma_refs_keep_records(c.auth, t.writeback(1), x);
    let c5 = AuthorityPort::answer(c, PortCall::Refs(t.writeback(1))).0;
    let barrier = RequestBarrierRequestView { request_id: t.request_id, node_id: t.node_id };
    let c6 = AuthorityPort::answer(c5, PortCall::Barrier(barrier)).0;
    assert(c6.auth.spaces == c5.auth.spaces);
    lemma_refs_keep_records(c6.auth, t.writeback((-1) as i32), x);
}

} // verus!
