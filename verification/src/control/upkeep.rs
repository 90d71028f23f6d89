//! What holds of the upkeep of the authority: locations, references, placement,
//! collection and lost nodes.

use vstd::prelude::*;

use crate::base::listing;
use crate::base::order;
use crate::base::order::Ranked;
use crate::base::queue;
use crate::control::authority::AuthorityView;
use crate::control::blocks;
use crate::control::hash_chain;
use crate::control::hash_chain::SequenceHash;
use crate::control::inactive;
use crate::control::inactive::{FrequencyView, Node};
use crate::control::laws;
use crate::control::locations;
use crate::control::migration;
use crate::control::migration::{Keyed, KeyedView};
use crate::control::mirror;
use crate::control::namespace::{BlockKey, BlockKeyView, NamespaceKey};
use crate::control::placement;
use crate::control::placement::{Candidate, CandidateView, Hot, HotView, StepView};
use crate::control::pool;
use crate::control::pool::{PoolView, RefAccounts};
use crate::control::reconcile;
use crate::control::reconcile::PeelView;
use crate::control::shard;
use crate::control::shard::Nodes;
use crate::control::tier;
use crate::proto::{
    BlockMetaView, KvBlockId, KvBlockIdView, LocationView, ModelDescriptorView, OrphanReportView,
    PoolKind, Quota, ReconcileOrphansRequestView, RefKind, ShardMigration, ShardMigrationView, Tier,
};

verus! {

/// A block at an address in parts.
pub open spec fn key_of(k: (Seq<char>, Seq<char>), pk: i32, flat: Seq<u8>) -> BlockKeyView {
    BlockKeyView { model_id: k.0, revision: k.1, pool_kind: pk, flat }
}

/// The place of the first location in a tier of a node.
proof fn lemma_first_on(locations: Seq<LocationView>, tier: i32, node_id: Seq<char>, i: int)
    requires
        0 <= i <= locations.len(),
    ensures
        i <= locations::first_on(locations, tier, node_id, i) <= locations.len(),
        locations::first_on(locations, tier, node_id, i) < locations.len() ==> ({
            let l = locations[locations::first_on(locations, tier, node_id, i)];
            l.tier == tier && l.node_id == node_id
        }),
        forall|j: int|
            i <= j < locations::first_on(locations, tier, node_id, i) ==> !((#[trigger] locations[j]).tier
                == tier && locations[j].node_id == node_id),
    decreases locations.len() - i,
{
    if i < locations.len() && !(locations[i].tier == tier && locations[i].node_id == node_id) {
        lemma_first_on(locations, tier, node_id, i + 1);
    }
}

/// Locations that were withdrawn are gone, and the others stay.
proof fn lemma_absent(locations: Seq<LocationView>, tier: i32, node_id: Seq<char>, l: LocationView)
    ensures
        locations::absent_from(locations, tier, node_id).contains(l) == (locations.contains(l) && !(l.tier
            == tier && l.node_id == node_id)),
{
    queue::lemma_filter(locations, |l: LocationView| !(l.tier == tier && l.node_id == node_id));
}

/// What is published is seen: after a block came to a tier of a node it is there, and
/// after it left it is not; every other location of the block stays.
pub proof fn published_is_seen(
    a: AuthorityView,
    k: (Seq<char>, Seq<char>),
    raw_kind: i32,
    flat: Seq<u8>,
    l: LocationView,
    tier: Tier,
    present: bool,
    other: LocationView,
)
    requires
        l.tier == tier.spec_number(),
        a.location_published(k, raw_kind, flat, l, present).1 is Ok,
        other.tier != l.tier || other.node_id != l.node_id,
    ensures
        ({
            let b = a.location_published(k, raw_kind, flat, l, present).0;
            let was = a.entry_at(k, raw_kind, flat)->0.meta.locations;
            let now = b.entry_at(k, raw_kind, flat)->0.meta.locations;
            &&& b.entry_at(k, raw_kind, flat) is Some
            &&& tier::on_tier_of(now, tier, l.node_id) == present
            &&& now.contains(other) == was.contains(other)
        }),
{
    let b = a.location_published(k, raw_kind, flat, l, present).0;
    let was = a.entry_at(k, raw_kind, flat)->0.meta.locations;
    let now = b.entry_at(k, raw_kind, flat)->0.meta.locations;
    if present {
        lemma_first_on(was, l.tier, l.node_id, 0);
        let i = locations::first_on(was, l.tier, l.node_id, 0);
        assert(now == locations::placed_at(was, l));
        if i < was.len() {
            assert(now[i] == l);
            if was.contains(other) {
                let j = choose|j: int| 0 <= j < was.len() && was[j] == other;
                assert(now[j] == other);
            }
            if now.contains(other) {
                let j = choose|j: int| 0 <= j < now.len() && now[j] == other;
                assert(was[j] == other);
            }
        } else {
            assert(now[was.len() as int] == l);
            if was.contains(other) {
                let j = choose|j: int| 0 <= j < was.len() && was[j] == other;
                assert(now[j] == other);
            }
            if now.contains(other) {
                let j = choose|j: int| 0 <= j < now.len() && now[j] == other;
                assert(was[j] == other);
            }
        }
    } else {
        lemma_absent(was, l.tier, l.node_id, other);
        if tier::on_tier_of(now, tier, l.node_id) {
            let j = choose|j: int|
                0 <= j < now.len() && (#[trigger] now[j]).tier == tier.spec_number()
                    && now[j].node_id == l.node_id;
            assert(now.contains(now[j]));
            lemma_absent(was, l.tier, l.node_id, now[j]);
        }
    }
}

/// A location of a block changes that block only.
pub proof fn publishing_changes_one_block(
    a: AuthorityView,
    k: (Seq<char>, Seq<char>),
    pk: i32,
    flat: Seq<u8>,
    l: LocationView,
    present: bool,
    x: BlockKeyView,
)
    requires
        pool::pool_kind_of(pk) == Ok::<i32, Seq<char>>(pk),
        x != key_of(k, pk, flat),
    ensures
        a.location_published(k, pk, flat, l, present).0.has_block(x) == a.has_block(x),
        a.has_block(x) ==> a.location_published(k, pk, flat, l, present).0.block(x) == a.block(x),
        a.l3_set(k, pk, flat, present).0.has_block(x) == a.has_block(x),
        a.has_block(x) ==> a.l3_set(k, pk, flat, present).0.block(x) == a.block(x),
        a.relocated_to(k, pk, flat, l).0.has_block(x) == a.has_block(x),
        a.has_block(x) ==> a.relocated_to(k, pk, flat, l).0.block(x) == a.block(x),
{
}

/// A whole chain is local exactly where every block of it is in L0 of the requester.
pub proof fn local_means_all_in_l0(p: PoolView, prefix: Seq<Seq<u8>>, requester: Seq<char>)
    requires
        locations::found(p, prefix, requester).1 == prefix.len(),
        prefix.len() > 0,
    ensures
        locations::found(p, prefix, requester).2 == (forall|i: int|
            0 <= i < prefix.len() ==> tier::on_tier_of(
                p.by_flat[#[trigger] prefix[i]].meta.locations,
                Tier::L0,
                requester,
            )),
{
    let (blocks, n, all) = locations::found(p, prefix, requester);
    if all {
        assert forall|i: int| 0 <= i < prefix.len() implies tier::on_tier_of(
            p.by_flat[#[trigger] prefix[i]].meta.locations,
            Tier::L0,
            requester,
        ) by {
            assert(blocks[i].local_hit);
        }
    }
    if forall|i: int|
        0 <= i < prefix.len() ==> tier::on_tier_of(
            p.by_flat[#[trigger] prefix[i]].meta.locations,
            Tier::L0,
            requester,
        ) {
        assert forall|i: int| 0 <= i < n implies (#[trigger] blocks[i]).local_hit by {
            assert(tier::on_tier_of(p.by_flat[prefix[i]].meta.locations, Tier::L0, requester));
        }
    }
}

/// Letting references go undoes taking them: the block is left with the references
/// that it had.
pub proof fn release_undoes_reference(
    a: AuthorityView,
    id: KvBlockIdView,
    kind: i32,
    n: int,
)
    requires
        a.wf(),
        n > 0,
        a.ref_moved(Some(id), kind, n, Seq::empty()) is Ok,
    ensures
        ({
            let b = a.ref_moved(Some(id), kind, n, Seq::empty())->Ok_0;
            let c = b.ref_moved(Some(id), kind, -n, Seq::empty());
            let t = a.ref_target(Some(id))->Ok_0;
            &&& c is Ok
            &&& c->Ok_0.accounts_at(t) == a.accounts_at(t)
            &&& b.accounts_at(t).total() == a.accounts_at(t).total() + n
        }),
{
    let t = a.ref_target(Some(id))->Ok_0;
    let b = a.ref_moved(Some(id), kind, n, Seq::empty())->Ok_0;
    assert(b.ref_target(Some(id)) == a.ref_target(Some(id)));
    let p = a.pool_at(t.key, t.pool_kind)->0;
    assert(a.spaces[t.key].wf());
    assert(p.accounts_of(t.seq).wf());
}

/// A block that a reference holds cannot be discarded, and the attempt changes
/// nothing; nor does a count that would go below zero.
pub proof fn referenced_is_not_discarded(a: AuthorityView, id: KvBlockIdView)
    requires
        pool::pool_kind_of(id.pool_kind) is Ok,
        a.pool_at((id.model_id, id.revision), pool::pool_kind_of(id.pool_kind)->Ok_0) is Some,
        laws::held(
            a.pool_at((id.model_id, id.revision), pool::pool_kind_of(id.pool_kind)->Ok_0)->0,
            id.block_hash,
        ),
    ensures
        a.discarded_one(id).1 is Err,
        a.discarded_one(id).0 == a,
{
}

/// A model that leaves takes its blocks along and no others.
pub proof fn deregistering_takes_all_its_blocks(
    a: AuthorityView,
    model_id: Seq<char>,
    revision: Seq<char>,
    x: BlockKeyView,
)
    requires
        a.model_deregistered(model_id, revision).1 is Ok,
    ensures
        ({
            let b = a.model_deregistered(model_id, revision).0;
            &&& x.space() == (model_id, revision) ==> !b.has_block(x)
            &&& x.space() != (model_id, revision) ==> b.has_block(x) == a.has_block(x)
            &&& x.space() != (model_id, revision) && a.has_block(x) ==> b.block(x) == a.block(x)
        }),
{
}

/// Registering a model again keeps its blocks: only its limits may change.
pub proof fn registering_again_keeps_blocks(a: AuthorityView, desc: ModelDescriptorView, x: BlockKeyView)
    ensures
        a.model_registered(desc).0.has_block(x) == a.has_block(x),
        a.has_block(x) ==> a.model_registered(desc).0.block(x) == a.block(x),
        a.model_registered(desc).1 is Err ==> a.model_registered(desc).0 == a,
{
}

/// Every block's record names the block by its hash, or not at all.
pub open spec fn well_named(p: PoolView) -> bool {
    forall|f: Seq<u8>| #[trigger]
        p.by_flat.contains_key(f) && p.by_flat[f].meta.id is Some
            ==> p.by_flat[f].meta.id->0.block_hash == f
}

/// The block is there, but neither on the node nor ordered there.
pub open spec fn lacking(p: PoolView, node_id: Seq<char>, flat: Seq<u8>) -> bool {
    p.by_flat.contains_key(flat) && !tier::on_tier_of(
        p.by_flat[flat].meta.locations,
        Tier::L0,
        node_id,
    ) && !p.marks.contains((flat, node_id))
}

proof fn lemma_marked(
    marks: Set<(Seq<u8>, Seq<char>)>,
    ids: Seq<KvBlockIdView>,
    node_id: Seq<char>,
    m: (Seq<u8>, Seq<char>),
)
    ensures
        marks.contains(m) ==> placement::marked(marks, ids, node_id).contains(m),
        m.1 == node_id && (exists|i: int| 0 <= i < ids.len() && (#[trigger] ids[i]).block_hash
            == m.0) ==> placement::marked(marks, ids, node_id).contains(m),
    decreases ids.len(),
{
    if ids.len() > 0 {
        lemma_marked(marks, ids.drop_last(), node_id, m);
        if exists|i: int| 0 <= i < ids.len() && (#[trigger] ids[i]).block_hash == m.0 {
            let i = choose|i: int| 0 <= i < ids.len() && (#[trigger] ids[i]).block_hash == m.0;
            if i < ids.len() - 1 {
                assert(ids.drop_last()[i].block_hash == m.0);
            }
        }
    }
}

proof fn lemma_missing(
    p: PoolView,
    k: (Seq<char>, Seq<char>),
    pk: i32,
    node_id: Seq<char>,
    prefix: Seq<Seq<u8>>,
    i: int,
)
    requires
        well_named(p),
        0 <= i < prefix.len(),
        lacking(p, node_id, prefix[i]),
    ensures
        exists|j: int|
            0 <= j < placement::missing_on(p, k, pk, node_id, prefix).len() && (
            #[trigger] placement::missing_on(p, k, pk, node_id, prefix)[j]).block_hash == prefix[i],
    decreases prefix.len(),
{
    let all = placement::missing_on(p, k, pk, node_id, prefix);
    let rest = placement::missing_on(p, k, pk, node_id, prefix.drop_last());
    if i == prefix.len() - 1 {
        assert(all[rest.len() as int].block_hash == prefix[i]);
    } else {
        assert(prefix.drop_last()[i] == prefix[i]);
        lemma_missing(p, k, pk, node_id, prefix.drop_last(), i);
        let j = choose|j: int|
            0 <= j < rest.len() && (#[trigger] rest[j]).block_hash == prefix.drop_last()[i];
        assert(all[j] == rest[j]);
    }
}

proof fn lemma_nothing_missing(
    p: PoolView,
    k: (Seq<char>, Seq<char>),
    pk: i32,
    node_id: Seq<char>,
    prefix: Seq<Seq<u8>>,
)
    requires
        forall|i: int| 0 <= i < prefix.len() ==> !lacking(p, node_id, #[trigger] prefix[i]),
    ensures
        placement::missing_on(p, k, pk, node_id, prefix).len() == 0,
    decreases prefix.len(),
{
    if prefix.len() > 0 {
        assert forall|i: int| 0 <= i < prefix.drop_last().len() implies !lacking(
            p,
            node_id,
            #[trigger] prefix.drop_last()[i],
        ) by {
            assert(prefix.drop_last()[i] == prefix[i]);
        }
        lemma_nothing_missing(p, k, pk, node_id, prefix.drop_last());
        assert(!lacking(p, node_id, prefix[prefix.len() - 1]));
    }
}

/// A chain is placed ahead once: what was ordered is not ordered again as long as it
/// is on its way.
pub proof fn placing_ahead_happens_once(
    a: AuthorityView,
    k: (Seq<char>, Seq<char>),
    raw_kind: i32,
    prefix: Seq<Seq<u8>>,
)
    requires
        pool::pool_kind_of(raw_kind) is Ok && a.pool_at(k, pool::pool_kind_of(raw_kind)->Ok_0)
            is Some ==> well_named(a.pool_at(k, pool::pool_kind_of(raw_kind)->Ok_0)->0),
    ensures
        a.preplaced(k, raw_kind, prefix).0.preplaced(k, raw_kind, prefix) == (
            a.preplaced(k, raw_kind, prefix).0,
            None::<(Seq<char>, Seq<KvBlockIdView>)>,
        ),
{
    let (b, plan) = a.preplaced(k, raw_kind, prefix);
    if plan is Some {
        let pk = pool::pool_kind_of(raw_kind)->Ok_0;
        let home = a.home_of(placement::anchor_of(prefix)->0);
        let p = a.pool_at(k, pk)->0;
        let ids = placement::missing_on(p, k, pk, home, prefix);
        let q = b.pool_at(k, pk)->0;
        assert(b.ready() == a.ready());
        assert forall|i: int| 0 <= i < prefix.len() implies !lacking(
            q,
            home,
            #[trigger] prefix[i],
        ) by {
            lemma_marked(p.marks, ids, home, (prefix[i], home));
            if lacking(p, home, prefix[i]) {
                lemma_missing(p, k, pk, home, prefix, i);
            }
        }
        lemma_nothing_missing(q, k, pk, home, prefix);
    }
}

/// A block that is ordered on a node in answer to hits is not wanted there again as
/// long as it is on its way.
pub proof fn following_happens_once(
    a: AuthorityView,
    node_id: Seq<char>,
    steps: Seq<StepView>,
    i: int,
)
    requires
        0 <= i < steps.len(),
        forall|j: int| 0 <= j < steps.len() ==> a.has_block((#[trigger] steps[j]).key),
    ensures
        !a.steps_marked(node_id, steps).wanted(node_id, steps[i].key),
{
    lemma_steps_marked(a, node_id, steps, steps[i].key);
    let b = a.steps_marked(node_id, steps);
    let x = steps[i].key;
    assert(a.has_block(x));
}

proof fn lemma_steps_marked(
    a: AuthorityView,
    node_id: Seq<char>,
    steps: Seq<StepView>,
    x: BlockKeyView,
)
    requires
        forall|j: int| 0 <= j < steps.len() ==> a.has_block((#[trigger] steps[j]).key),
    ensures
        forall|y: BlockKeyView| #[trigger]
            a.steps_marked(node_id, steps).has_block(y) == a.has_block(y),
        (exists|j: int| 0 <= j < steps.len() && (#[trigger] steps[j]).key == x)
            ==> a.steps_marked(node_id, steps).pool_at(
            x.space(),
            x.pool_kind,
        )->0.marks.contains((x.flat, node_id)),
    decreases steps.len(),
{
    if steps.len() > 0 {
        let before = steps.drop_last();
        assert forall|j: int| 0 <= j < before.len() implies a.has_block(
            (#[trigger] before[j]).key,
        ) by {
            assert(before[j] == steps[j]);
        }
        lemma_steps_marked(a, node_id, before, x);
        let b = a.steps_marked(node_id, before);
        let y = steps.last().key;
        assert(a.has_block(steps[steps.len() - 1].key));
        assert(b.has_block(y));
        let c = a.steps_marked(node_id, steps);
        assert forall|z: BlockKeyView| #[trigger] c.has_block(z) == a.has_block(z) by {
            assert(b.has_block(z) == a.has_block(z));
        }
        if exists|j: int| 0 <= j < steps.len() && (#[trigger] steps[j]).key == x {
            let j = choose|j: int| 0 <= j < steps.len() && (#[trigger] steps[j]).key == x;
            if j < steps.len() - 1 {
                assert(before[j].key == x);
            }
        }
    }
}

/// Both know the same blocks, with the same records.
pub open spec fn same_records(a: AuthorityView, b: AuthorityView) -> bool {
    &&& a.spaces.dom() == b.spaces.dom()
    &&& forall|k: (Seq<char>, Seq<char>), pk: i32|
        (#[trigger] a.pool_at(k, pk)) is Some == b.pool_at(k, pk) is Some
    &&& forall|k: (Seq<char>, Seq<char>), pk: i32|
        (#[trigger] a.pool_at(k, pk)) is Some ==> a.pool_at(k, pk)->0.by_flat == b.pool_at(
            k,
            pk,
        )->0.by_flat
    &&& a.node_refs == b.node_refs
}

proof fn lemma_released(a: AuthorityView, b: BlockKeyView, kind: RefKind, n: i64)
    ensures
        same_records(a, a.released(b, kind, n)),
{
    assert(a.released(b, kind, n).spaces.dom() =~= a.spaces.dom());
}

/// Letting go of what a dead node held takes as many references as it held, but never
/// more than the block has left; those of the other kind stay.
pub proof fn release_stops_at_none(a: AuthorityView, b: BlockKeyView, kind: RefKind, n: i64)
    requires
        kind == RefKind::Request || kind == RefKind::Writeback,
        n >= 0,
        a.refs_to(b, kind) >= 0,
    ensures
        a.released(b, kind, n).refs_to(b, kind) == if n < a.refs_to(b, kind) {
            a.refs_to(b, kind) - n
        } else {
            0
        },
        kind == RefKind::Request ==> a.released(b, kind, n).refs_to(b, RefKind::Writeback)
            == a.refs_to(b, RefKind::Writeback),
        kind == RefKind::Writeback ==> a.released(b, kind, n).refs_to(b, RefKind::Request)
            == a.refs_to(b, RefKind::Request),
{
    lemma_released(a, b, kind, n);
    let c = a.released(b, kind, n);
    if a.ref_target(Some(b.id())) is Ok {
        let t = a.ref_target(Some(b.id()))->Ok_0;
        assert(a.pool_at(t.key, t.pool_kind) is Some);
        assert(c.pool_at(t.key, t.pool_kind) is Some);
        assert(c.ref_target(Some(b.id())) == a.ref_target(Some(b.id())));
    } else {
        assert(c == a);
    }
}

/// Letting go of what a node held changes no record.
pub proof fn releasing_keeps_records(
    a: AuthorityView,
    held: Map<BlockKeyView, RefAccounts>,
    blocks: Seq<BlockKeyView>,
)
    ensures
        same_records(a, a.released_all(held, blocks)),
    decreases blocks.len(),
{
    if blocks.len() > 0 {
        let b = blocks.last();
        let c = a.released_all(held, blocks.drop_last());
        releasing_keeps_records(a, held, blocks.drop_last());
        lemma_released(c, b, RefKind::Request, held[b].request);
        let d = c.released(b, RefKind::Request, held[b].request);
        lemma_released(d, b, RefKind::Writeback, held[b].writeback);
        let e = d.released(b, RefKind::Writeback, held[b].writeback);
        lemma_same_trans(a, c, d);
        lemma_same_trans(a, d, e);
    }
}

proof fn lemma_same_trans(a: AuthorityView, b: AuthorityView, c: AuthorityView)
    requires
        same_records(a, b),
        same_records(b, c),
    ensures
        same_records(a, c),
{
    assert forall|k: (Seq<char>, Seq<char>), pk: i32|
        (#[trigger] a.pool_at(k, pk)) is Some == c.pool_at(k, pk) is Some by {
        assert(b.pool_at(k, pk) is Some == c.pool_at(k, pk) is Some);
    }
    assert forall|k: (Seq<char>, Seq<char>), pk: i32|
        (#[trigger] a.pool_at(k, pk)) is Some implies a.pool_at(k, pk)->0.by_flat == c.pool_at(
        k,
        pk,
    )->0.by_flat by {
        assert(b.pool_at(k, pk) is Some);
    }
}

proof fn lemma_taken_off(
    a: AuthorityView,
    node_id: Seq<char>,
    blocks: Seq<BlockKeyView>,
    x: BlockKeyView,
)
    requires
        forall|i: int| 0 <= i < blocks.len() ==> a.has_block(#[trigger] blocks[i]),
    ensures
        ({
            let b = a.taken_off(node_id, blocks).0;
            &&& forall|y: BlockKeyView| #[trigger] b.has_block(y) == a.has_block(y)
            &&& b.node_refs == a.node_refs
            &&& b.spaces.dom() == a.spaces.dom()
            &&& a.has_block(x) && tier::on_tier_of(b.block(x).meta.locations, Tier::L0, node_id)
                ==> tier::on_tier_of(a.block(x).meta.locations, Tier::L0, node_id)
            &&& a.has_block(x) && blocks.contains(x) ==> !tier::on_tier_of(
                b.block(x).meta.locations,
                Tier::L0,
                node_id,
            )
        }),
    decreases blocks.len(),
{
    if blocks.len() > 0 {
        let before = blocks.drop_last();
        assert forall|i: int| 0 <= i < before.len() implies a.has_block(#[trigger] before[i]) by {
            assert(before[i] == blocks[i]);
        }
        lemma_taken_off(a, node_id, before, x);
        let c = a.taken_off(node_id, before).0;
        let b = a.taken_off(node_id, blocks).0;
        let y = blocks.last();
        assert(a.has_block(blocks[blocks.len() - 1]));
        assert(c.has_block(y));
        assert(b.spaces.dom() =~= c.spaces.dom());
        assert forall|z: BlockKeyView| #[trigger] b.has_block(z) == a.has_block(z) by {
            assert(c.has_block(z) == a.has_block(z));
        }
        let was = c.block(y).meta.locations;
        let now = locations::absent_from(was, Tier::L0.spec_number(), node_id);
        assert(!tier::on_tier_of(now, Tier::L0, node_id)) by {
            if tier::on_tier_of(now, Tier::L0, node_id) {
                let j = choose|j: int|
                    0 <= j < now.len() && (#[trigger] now[j]).tier == Tier::L0.spec_number()
                        && now[j].node_id == node_id;
                assert(now.contains(now[j]));
                lemma_absent(was, Tier::L0.spec_number(), node_id, now[j]);
            }
        }
        if blocks.contains(x) && x != y {
            let j = choose|j: int| 0 <= j < blocks.len() && blocks[j] == x;
            assert(before[j] == x);
        }
    }
}

proof fn lemma_unmarked(
    a: AuthorityView,
    node_id: Seq<char>,
    names: Seq<(Seq<char>, Seq<char>)>,
    k: (Seq<char>, Seq<char>),
    pk: i32,
)
    requires
        forall|i: int| 0 <= i < names.len() ==> a.spaces.contains_key(#[trigger] names[i]),
    ensures
        same_records(a, a.unmarked_all(node_id, names)),
        names.contains(k) && a.pool_at(k, pk) is Some ==> forall|f: Seq<u8>|
            !(#[trigger] a.unmarked_all(node_id, names).pool_at(k, pk)->0.marks.contains(
                (f, node_id),
            )),
    decreases names.len(),
{
    if names.len() > 0 {
        let before = names.drop_last();
        assert forall|i: int| 0 <= i < before.len() implies a.spaces.contains_key(
            #[trigger] before[i],
        ) by {
            assert(before[i] == names[i]);
        }
        lemma_unmarked(a, node_id, before, k, pk);
        let c = a.unmarked_all(node_id, before);
        let b = a.unmarked_all(node_id, names);
        assert(a.spaces.contains_key(names[names.len() - 1]));
        assert(b.spaces.dom() =~= c.spaces.dom());
        assert(same_records(c, b));
        lemma_same_trans(a, c, b);
        if names.contains(k) && k != names.last() {
            let j = choose|j: int| 0 <= j < names.len() && names[j] == k;
            assert(before[j] == k);
        }
    }
}

/// Nothing is left of a node that is lost: it holds no reference, no block is in its
/// L0, and nothing is ordered on it. No block is forgotten on its account.
pub proof fn lost_node_leaves_nothing(
    a: AuthorityView,
    node_id: Seq<char>,
    x: BlockKeyView,
)
    requires
        a.finite(),
        node_id.len() > 0,
    ensures
        ({
            let b = a.node_lost(node_id).0;
            &&& a.node_lost(node_id).1 is Ok
            &&& !b.node_refs.contains_key(node_id)
            &&& b.has_block(x) == a.has_block(x)
            &&& b.has_block(x) ==> !tier::on_tier_of(
                b.block(x).meta.locations,
                Tier::L0,
                node_id,
            )
            &&& b.has_block(x) ==> !b.pool_at(x.space(), x.pool_kind)->0.marks.contains(
                (x.flat, node_id),
            )
        }),
{
    let held = if a.node_refs.contains_key(node_id) {
        a.node_refs[node_id]
    } else {
        Map::empty()
    };
    let a0 = AuthorityView { node_refs: a.node_refs.remove(node_id), ..a };
    let list = listing::listing::<BlockKey>(held.dom());
    let a1 = a0.released_all(held, list);
    releasing_keeps_records(a0, held, list);
    assert(a1.has_block(x) == a.has_block(x)) by {
        assert(a0.pool_at(x.space(), x.pool_kind) == a.pool_at(x.space(), x.pool_kind));
    }
    assert(a1.finite()) by {
        assert forall|k: (Seq<char>, Seq<char>), pk: i32|
            (#[trigger] a1.pool_at(k, pk)) is Some implies a1.pool_at(
            k,
            pk,
        )->0.by_flat.dom().finite() by {
            assert(a0.pool_at(k, pk) is Some);
            assert(a.pool_at(k, pk) is Some);
        }
    }
    let blocks = a1.all_blocks();
    assert forall|i: int| 0 <= i < blocks.len() implies a1.has_block(#[trigger] blocks[i]) by {
        blocks::all_blocks_known(a1, i);
    }
    lemma_taken_off(a1, node_id, blocks, x);
    let b1 = a1.taken_off(node_id, blocks).0;
    if a1.has_block(x) {
        blocks::known_blocks_listed(a1, x);
    }
    listing::listing_lists::<NamespaceKey>(b1.spaces.dom());
    assert forall|i: int| 0 <= i < b1.names().len() implies b1.spaces.contains_key(
        #[trigger] b1.names()[i],
    ) by {
        assert(b1.names().to_set().contains(b1.names()[i]));
    }
    lemma_unmarked(b1, node_id, b1.names(), x.space(), x.pool_kind);
    let b = b1.unmarked_all(node_id, b1.names());
    assert(b1.pool_at(x.space(), x.pool_kind) is Some == b.pool_at(x.space(), x.pool_kind) is Some);
    if b1.has_block(x) {
        assert(b1.names().to_set().contains(x.space()));
        assert(b1.names().contains(x.space()));
    }
}

/// The block has a durable copy.
pub open spec fn is_durable(m: BlockMetaView) -> bool {
    tier::on_tier(m.locations, Tier::L2) || m.l3_present
}

/// One record is another without copies in memory, or the same.
pub open spec fn cooler(m: BlockMetaView, n: BlockMetaView) -> bool {
    n == m || n == (BlockMetaView { locations: reconcile::cooled(m.locations), ..m })
}

/// Cooling twice is cooling once, and takes no durable copy.
pub proof fn cooling_keeps_durable(locations: Seq<LocationView>)
    ensures
        reconcile::cooled(reconcile::cooled(locations)) == reconcile::cooled(locations),
        tier::on_tier(reconcile::cooled(locations), Tier::L2) == tier::on_tier(
            locations,
            Tier::L2,
        ),
{
    let f = |l: LocationView|
        l.tier != Tier::L0.spec_number() && l.tier != Tier::L1.spec_number();
    let c = reconcile::cooled(locations);
    queue::lemma_filter(locations, f);
    assert forall|i: int| 0 <= i < c.len() implies f(#[trigger] c[i]) by {
        assert(c.contains(c[i]));
    }
    queue::lemma_filter_all(c, f);
    if tier::on_tier(c, Tier::L2) {
        let i = choose|i: int|
            0 <= i < c.len() && (#[trigger] c[i]).tier == Tier::L2.spec_number();
        assert(c.contains(c[i]));
        let j = choose|j: int| 0 <= j < locations.len() && locations[j] == c[i];
        assert(locations[j].tier == Tier::L2.spec_number());
    }
    if tier::on_tier(locations, Tier::L2) {
        let i = choose|i: int|
            0 <= i < locations.len() && (#[trigger] locations[i]).tier == Tier::L2.spec_number();
        assert(locations.contains(locations[i]));
        assert(c.contains(locations[i]));
        let j = choose|j: int| 0 <= j < c.len() && c[j] == locations[i];
        assert(c[j].tier == Tier::L2.spec_number());
    }
}

/// What peeling does to a pool, and what its outcome says.
pub open spec fn peels_from(p: PoolView, q: PoolView, peels: Seq<PeelView>) -> bool {
    &&& q.by_flat.dom() == p.by_flat.dom()
    &&& forall|f: Seq<u8>| #[trigger]
        p.by_flat.contains_key(f) ==> cooler(p.by_flat[f].meta, q.by_flat[f].meta)
            && q.by_flat[f].seq == p.by_flat[f].seq
    &&& forall|i: int|
        0 <= i < peels.len() ==> p.by_flat.contains_key((#[trigger] peels[i]).flat)
            && peels[i].durable == is_durable(p.by_flat[peels[i].flat].meta)
}

/// Peeling cools blocks and nothing else.
pub proof fn peeling_cools(
    p: PoolView,
    k: (Seq<char>, Seq<char>),
    pk: i32,
    victims: Seq<Node>,
)
    ensures
        peels_from(
            p,
            reconcile::peeled(p, k, pk, victims).0,
            reconcile::peeled(p, k, pk, victims).1,
        ),
    decreases victims.len(),
{
    if victims.len() > 0 {
        peeling_cools(p, k, pk, victims.drop_last());
        let (q, peels) = reconcile::peeled(p, k, pk, victims.drop_last());
        let (r, peel) = reconcile::peeled_one(q, k, pk, victims.last());
        match peel {
            Some(x) => {
                let was = q.by_flat[x.flat].meta;
                cooling_keeps_durable(p.by_flat[x.flat].meta.locations);
                assert(p.by_flat.contains_key(x.flat));
                assert(r.by_flat.dom() =~= p.by_flat.dom());
                assert(cooler(p.by_flat[x.flat].meta, was));
            },
            None => {},
        }
    }
}

proof fn lemma_cast_off(p: PoolView, peels: Seq<PeelView>, f: Seq<u8>)
    requires
        forall|i: int| 0 <= i < peels.len() && (#[trigger] peels[i]).flat == f ==> peels[i].durable,
    ensures
        reconcile::cast_off(p, peels).0.by_flat.contains_key(f) == p.by_flat.contains_key(f),
        p.by_flat.contains_key(f) ==> reconcile::cast_off(p, peels).0.by_flat[f] == p.by_flat[f],
    decreases peels.len(),
{
    if peels.len() > 0 {
        let before = peels.drop_last();
        assert forall|i: int|
            0 <= i < before.len() && (#[trigger] before[i]).flat == f implies before[i].durable by {
            assert(before[i] == peels[i]);
        }
        lemma_cast_off(p, before, f);
        assert(peels[peels.len() - 1] == peels.last());
    }
}

/// Letting blocks make room again changes no record.
pub proof fn reentering_keeps_records(p: PoolView, peels: Seq<PeelView>)
    ensures
        reconcile::reentered(p, peels).by_flat == p.by_flat,
    decreases peels.len(),
{
    if peels.len() > 0 {
        reentering_keeps_records(p, peels.drop_last());
    }
}

/// Collecting cold blocks loses no block that has a durable copy: such a block stays,
/// and it loses at most its copies in memory.
pub proof fn collection_keeps_durable_blocks(
    a: AuthorityView,
    k: (Seq<char>, Seq<char>),
    raw_kind: i32,
    n: nat,
    x: BlockKeyView,
)
    requires
        a.has_block(x),
        is_durable(a.block(x).meta),
    ensures
        a.collected(k, raw_kind, n).0.has_block(x),
        cooler(a.block(x).meta, a.collected(k, raw_kind, n).0.block(x).meta),
        is_durable(a.collected(k, raw_kind, n).0.block(x).meta),
{
    cooling_keeps_durable(a.block(x).meta.locations);
    if n > 0 && pool::pool_kind_of(raw_kind) is Ok && a.spaces.contains_key(k) {
        let pk = pool::pool_kind_of(raw_kind)->Ok_0;
        if a.spaces[k].pool(pk) is Some {
            let p = a.spaces[k].pool(pk)->0;
            let (inactive, victims) = p.inactive.allocated(n, p.freq);
            let p0 = PoolView { inactive, ..p };
            peeling_cools(p0, k, pk, victims);
            let (q, peels) = reconcile::peeled(p0, k, pk, victims);
            if x.space() == k && x.pool_kind == pk {
                assert(p0.by_flat.contains_key(x.flat));
                assert forall|i: int|
                    0 <= i < peels.len() && (#[trigger] peels[i]).flat
                        == x.flat implies peels[i].durable by {
                }
                lemma_cast_off(q, peels, x.flat);
                let r = reconcile::cast_off(q, peels).0;
                reentering_keeps_records(r, peels);
            }
        }
    }
}

proof fn lemma_placed_on(
    a: AuthorityView,
    node_id: Seq<char>,
    blocks: Seq<BlockKeyView>,
    x: BlockKeyView,
)
    requires
        blocks.contains(x),
        a.placed_on(node_id, blocks) == 0,
    ensures
        !migration::on_node(a.block(x).meta.locations, node_id),
    decreases blocks.len(),
{
    if x != blocks.last() {
        let j = choose|j: int| 0 <= j < blocks.len() && blocks[j] == x;
        assert(blocks.drop_last()[j] == x);
        lemma_placed_on(a, node_id, blocks.drop_last(), x);
    }
}

/// A node leaves the ring only once the view has no copy of any block on it; where it
/// may not leave nothing changes.
pub proof fn removed_node_holds_no_copy(
    a: AuthorityView,
    node_id: Seq<char>,
    x: BlockKeyView,
)
    requires
        a.finite(),
        a.has_block(x),
    ensures
        a.node_removed(node_id).1 is Ok ==> !migration::on_node(
            a.block(x).meta.locations,
            node_id,
        ),
        a.node_removed(node_id).0.spaces == a.spaces,
{
    blocks::known_blocks_listed(a, x);
    if a.node_removed(node_id).1 is Ok {
        lemma_placed_on(a, node_id, a.all_blocks(), x);
    }
}

/// Sorting lists the same values.
proof fn lemma_ranked_contains<T: Ranked>(s: Seq<T::V>, v: T::V)
    ensures
        order::ranked::<T>(s).contains(v) == s.contains(v),
{
    broadcast use vstd::seq_lib::group_to_multiset_ensures;

    let r = order::ranked::<T>(s);
    order::ranked_keeps_values::<T>(s);
    if s.contains(v) {
        assert(s.to_multiset().count(v) > 0);
        assert(r.to_multiset().count(v) > 0);
    }
    if r.contains(v) {
        assert(r.to_multiset().count(v) > 0);
        assert(s.to_multiset().count(v) > 0);
    }
}

/// A block's address leads to it.
proof fn lemma_address_leads_back(a: AuthorityView, x: BlockKeyView)
    requires
        mirror::addressed(a),
        a.has_block(x),
        x.pool_kind != 0,
    ensures
        BlockKeyView::of(a.block_id(x)) == x,
{
}

/// Known blocks lie in a pool of the target or the draft model.
proof fn lemma_pool_kind(a: AuthorityView, x: BlockKeyView)
    requires
        a.has_block(x),
    ensures
        x.pool_kind != 0,
{
}

/// Addresses of known blocks that name the same block are the same, and so are the blocks.
proof fn lemma_addresses_differ(a: AuthorityView, x: BlockKeyView, y: BlockKeyView)
    requires
        mirror::addressed(a),
        a.has_block(x),
        a.has_block(y),
        migration::same_block(a.block_id(x), a.block_id(y)),
    ensures
        x == y,
{
    lemma_pool_kind(a, x);
    lemma_pool_kind(a, y);
    lemma_address_leads_back(a, x);
    lemma_address_leads_back(a, y);
}

/// A block was hit on some node.
pub open spec fn was_hit(a: AuthorityView, x: BlockKeyView) -> bool {
    let hits = a.pool_at(x.space(), x.pool_kind)->0.hits;
    hits.contains_key(x.flat) && exists|n: Seq<char>|
        hits[x.flat].contains_key(n) && #[trigger] hits[x.flat][n] > 0
}

/// A copy of the block is in a tier of the node.
pub open spec fn lies_in(a: AuthorityView, x: BlockKeyView, tier: Tier, node_id: Seq<char>) -> bool {
    let locations = a.pool_at(x.space(), x.pool_kind)->0.by_flat[x.flat].meta.locations;
    exists|i: int|
        0 <= i < locations.len() && (#[trigger] locations[i]).tier == tier.spec_number()
            && locations[i].node_id == node_id
}

/// Counts of hits are kept for finitely many nodes.
pub open spec fn hits_are_finite(a: AuthorityView) -> bool {
    forall|x: BlockKeyView| #[trigger]
        a.has_block(x) && a.pool_at(x.space(), x.pool_kind)->0.hits.contains_key(x.flat) ==> a.pool_at(
            x.space(),
            x.pool_kind,
        )->0.hits[x.flat].dom().finite()
}

proof fn lemma_hits_sum(m: Map<Seq<char>, u32>, nodes: Seq<Seq<char>>)
    ensures
        placement::hits_sum(m, nodes) > 0 <==> exists|i: int|
            0 <= i < nodes.len() && m[#[trigger] nodes[i]] > 0,
    decreases nodes.len(),
{
    if nodes.len() > 0 {
        let init = nodes.drop_last();
        lemma_hits_sum(m, init);
        if exists|i: int| 0 <= i < nodes.len() && m[#[trigger] nodes[i]] > 0 {
            let i = choose|i: int| 0 <= i < nodes.len() && m[#[trigger] nodes[i]] > 0;
            if i < init.len() {
                assert(init[i] == nodes[i]);
            }
        }
        if exists|i: int| 0 <= i < init.len() && m[#[trigger] init[i]] > 0 {
            let i = choose|i: int| 0 <= i < init.len() && m[#[trigger] init[i]] > 0;
            assert(nodes[i] == init[i]);
        }
        if m[nodes.last()] > 0 {
            assert(m[nodes[nodes.len() - 1]] > 0);
        }
    }
}

proof fn lemma_hit_means_count(a: AuthorityView, x: BlockKeyView)
    requires
        a.has_block(x),
        hits_are_finite(a),
    ensures
        (a.pool_at(x.space(), x.pool_kind)->0.hits_all(x.flat) > 0) == was_hit(a, x),
{
    let p = a.pool_at(x.space(), x.pool_kind)->0;
    if p.hits.contains_key(x.flat) {
        let m = p.hits[x.flat];
        let nodes = listing::listing::<String>(m.dom());
        listing::listing_lists::<String>(m.dom());
        lemma_hits_sum(m, nodes);
        if exists|n: Seq<char>| m.contains_key(n) && #[trigger] m[n] > 0 {
            let n = choose|n: Seq<char>| m.contains_key(n) && #[trigger] m[n] > 0;
            assert(nodes.to_set().contains(n));
            let i = choose|i: int| 0 <= i < nodes.len() && nodes[i] == n;
            assert(m[nodes[i]] > 0);
        }
        if exists|i: int| 0 <= i < nodes.len() && m[#[trigger] nodes[i]] > 0 {
            let i = choose|i: int| 0 <= i < nodes.len() && m[#[trigger] nodes[i]] > 0;
            assert(nodes.to_set().contains(nodes[i]));
            assert(m.contains_key(nodes[i]));
        }
    }
}

proof fn lemma_hot_of(a: AuthorityView, node_id: Seq<char>, blocks: Seq<BlockKeyView>, h: HotView)
    ensures
        a.hot_of(node_id, blocks).len() <= blocks.len(),
        a.hot_of(node_id, blocks).contains(h) <==> exists|i: int|
            0 <= i < blocks.len() && ({
                let b = #[trigger] blocks[i];
                let n = a.pool_at(b.space(), b.pool_kind)->0.hits_all(b.flat);
                n > 0 && !tier::on_tier_of(a.block(b).meta.locations, Tier::L0, node_id) && h
                    == (HotView { count: n, id: a.block_id(b) })
            }),
    decreases blocks.len(),
{
    let all = a.hot_of(node_id, blocks);
    if blocks.len() > 0 {
        let init = blocks.drop_last();
        let rest = a.hot_of(node_id, init);
        lemma_hot_of(a, node_id, init, h);
        let b = blocks.last();
        let n = a.pool_at(b.space(), b.pool_kind)->0.hits_all(b.flat);
        if all.contains(h) {
            let k = choose|k: int| 0 <= k < all.len() && all[k] == h;
            if k < rest.len() {
                assert(rest[k] == h);
                let i = choose|i: int|
                    0 <= i < init.len() && ({
                        let b = #[trigger] init[i];
                        let n = a.pool_at(b.space(), b.pool_kind)->0.hits_all(b.flat);
                        n > 0 && !tier::on_tier_of(a.block(b).meta.locations, Tier::L0, node_id)
                            && h == (HotView { count: n, id: a.block_id(b) })
                    });
                assert(blocks[i] == init[i]);
            } else {
                assert(blocks[blocks.len() - 1] == b);
            }
        }
        if rest.contains(h) {
            let k = choose|k: int| 0 <= k < rest.len() && rest[k] == h;
            assert(all[k] == h);
        }
        if exists|i: int|
            0 <= i < blocks.len() && ({
                let b = #[trigger] blocks[i];
                let n = a.pool_at(b.space(), b.pool_kind)->0.hits_all(b.flat);
                n > 0 && !tier::on_tier_of(a.block(b).meta.locations, Tier::L0, node_id) && h
                    == (HotView { count: n, id: a.block_id(b) })
            }) {
            let i = choose|i: int|
                0 <= i < blocks.len() && ({
                    let b = #[trigger] blocks[i];
                    let n = a.pool_at(b.space(), b.pool_kind)->0.hits_all(b.flat);
                    n > 0 && !tier::on_tier_of(a.block(b).meta.locations, Tier::L0, node_id) && h
                        == (HotView { count: n, id: a.block_id(b) })
                });
            if i < init.len() {
                assert(init[i] == blocks[i]);
            } else {
                assert(all[rest.len() as int] == h);
            }
        }
    }
}

/// What a plan of a given size holds: of the hot blocks, in order of heat, the first.
proof fn lemma_warmup(a: AuthorityView, node_id: Seq<char>, k: nat, x: BlockKeyView) -> (i: int)
    requires
        a.finite(),
        mirror::addressed(a),
        hits_are_finite(a),
        a.has_block(x),
    ensures
        ({
            let hot = order::ranked::<Hot>(a.hot_of(node_id, a.all_blocks()));
            let listed = was_hit(a, x) && !lies_in(a, x, Tier::L0, node_id);
            &&& hot.len() <= a.all_blocks().len()
            &&& listed ==> 0 <= i < hot.len() && hot[i] == (HotView {
                count: a.pool_at(x.space(), x.pool_kind)->0.hits_all(x.flat),
                id: a.block_id(x),
            })
            &&& (exists|j: int| 0 <= j < hot.len() && (#[trigger] hot[j]).id == a.block_id(x))
                ==> listed
        }),
{
    let hot = order::ranked::<Hot>(a.hot_of(node_id, a.all_blocks()));
    let own = HotView {
        count: a.pool_at(x.space(), x.pool_kind)->0.hits_all(x.flat),
        id: a.block_id(x),
    };
    let listed = was_hit(a, x) && !lies_in(a, x, Tier::L0, node_id);
    order::ranked_keeps_values::<Hot>(a.hot_of(node_id, a.all_blocks()));
    lemma_hot_of(a, node_id, a.all_blocks(), own);
    lemma_hit_means_count(a, x);
    blocks::known_blocks_listed(a, x);
    lemma_ranked_contains::<Hot>(a.hot_of(node_id, a.all_blocks()), own);
    if exists|j: int| 0 <= j < hot.len() && (#[trigger] hot[j]).id == a.block_id(x) {
        let j = choose|j: int| 0 <= j < hot.len() && (#[trigger] hot[j]).id == a.block_id(x);
        assert(hot.contains(hot[j]));
        lemma_ranked_contains::<Hot>(a.hot_of(node_id, a.all_blocks()), hot[j]);
        lemma_hot_of(a, node_id, a.all_blocks(), hot[j]);
        let i = choose|i: int|
            0 <= i < a.all_blocks().len() && ({
                let b = #[trigger] a.all_blocks()[i];
                let n = a.pool_at(b.space(), b.pool_kind)->0.hits_all(b.flat);
                n > 0 && !tier::on_tier_of(a.block(b).meta.locations, Tier::L0, node_id) && hot[j]
                    == (HotView { count: n, id: a.block_id(b) })
            });
        blocks::all_blocks_known(a, i);
        lemma_addresses_differ(a, a.all_blocks()[i], x);
    }
    let i = choose|i: int| 0 <= i < hot.len() && hot[i] == own;
    if listed {
        let b = choose|b: int| 0 <= b < a.all_blocks().len() && a.all_blocks()[b] == x;
        assert(a.all_blocks()[b] == x);
        assert(hot.contains(own));
    }
    i
}

/// A node is warmed up with what it lacks: a plan with room for every known block lists a
/// block exactly where it was hit on some node and no copy of it is in L0 of this one.
pub proof fn warmup_lists_what_the_node_lacks(
    a: AuthorityView,
    node_id: Seq<char>,
    k: nat,
    x: BlockKeyView,
)
    requires
        a.finite(),
        mirror::addressed(a),
        hits_are_finite(a),
        a.has_block(x),
        k >= a.all_blocks().len(),
    ensures
        a.warmup(node_id, k).contains(a.block_id(x)) <==> was_hit(a, x) && !lies_in(
            a,
            x,
            Tier::L0,
            node_id,
        ),
{
    let hot = order::ranked::<Hot>(a.hot_of(node_id, a.all_blocks()));
    let i = lemma_warmup(a, node_id, k, x);
    let ids = hot.map_values(|h: HotView| h.id);
    assert(a.warmup(node_id, k) == ids);
    if was_hit(a, x) && !lies_in(a, x, Tier::L0, node_id) {
        assert(ids[i] == a.block_id(x));
    }
    if ids.contains(a.block_id(x)) {
        let j = choose|j: int| 0 <= j < ids.len() && ids[j] == a.block_id(x);
        assert(hot[j].id == a.block_id(x));
    }
}

/// The hottest blocks come first: a plan of any size is the beginning of every larger one,
/// has no more than its size, and lists no block before one that the node lacks and that was
/// hit more often.
pub proof fn warmup_takes_the_hottest(
    a: AuthorityView,
    node_id: Seq<char>,
    k: nat,
    more: nat,
    x: BlockKeyView,
    y: BlockKeyView,
)
    requires
        a.finite(),
        mirror::addressed(a),
        hits_are_finite(a),
        a.has_block(x),
        a.has_block(y),
        k <= more,
    ensures
        a.warmup(node_id, k).len() <= k,
        a.warmup(node_id, k).is_prefix_of(a.warmup(node_id, more)),
        ({
            let hotter = a.pool_at(x.space(), x.pool_kind)->0.hits_all(x.flat) > a.pool_at(
                y.space(),
                y.pool_kind,
            )->0.hits_all(y.flat);
            hotter && !lies_in(a, x, Tier::L0, node_id) && a.warmup(node_id, k).contains(
                a.block_id(y),
            ) ==> a.warmup(node_id, k).contains(a.block_id(x))
        }),
{
    let hot = order::ranked::<Hot>(a.hot_of(node_id, a.all_blocks()));
    let ids = hot.map_values(|h: HotView| h.id);
    assert(a.warmup(node_id, k) =~= a.warmup(node_id, more).take(
        a.warmup(node_id, k).len() as int,
    ));
    let i = lemma_warmup(a, node_id, k, x);
    let j = lemma_warmup(a, node_id, k, y);
    lemma_hit_means_count(a, x);
    lemma_hit_means_count(a, y);
    let px = a.pool_at(x.space(), x.pool_kind)->0.hits_all(x.flat);
    let py = a.pool_at(y.space(), y.pool_kind)->0.hits_all(y.flat);
    let plan = a.warmup(node_id, k);
    if px > py && !lies_in(a, x, Tier::L0, node_id) && plan.contains(a.block_id(y)) {
        let m = choose|m: int| 0 <= m < plan.len() && plan[m] == a.block_id(y);
        assert(hot[m].id == a.block_id(y));
        assert(was_hit(a, x));
        assert(hot[i].count == px);
        lemma_hot_count(a, node_id, y, m);
        lemma_hot_sorted(a.hot_of(node_id, a.all_blocks()));
        if i > m {
            assert(Hot::ranks(hot[m], hot[i]));
        }
        assert(plan[i] == a.block_id(x));
    }
}

/// A block in the order of heat stands there with its count.
proof fn lemma_hot_count(a: AuthorityView, node_id: Seq<char>, y: BlockKeyView, m: int)
    requires
        a.finite(),
        mirror::addressed(a),
        a.has_block(y),
        0 <= m < order::ranked::<Hot>(a.hot_of(node_id, a.all_blocks())).len(),
        order::ranked::<Hot>(a.hot_of(node_id, a.all_blocks()))[m].id == a.block_id(y),
    ensures
        order::ranked::<Hot>(a.hot_of(node_id, a.all_blocks()))[m].count == a.pool_at(
            y.space(),
            y.pool_kind,
        )->0.hits_all(y.flat),
{
    let hot = order::ranked::<Hot>(a.hot_of(node_id, a.all_blocks()));
    assert(hot.contains(hot[m]));
    lemma_ranked_contains::<Hot>(a.hot_of(node_id, a.all_blocks()), hot[m]);
    lemma_hot_of(a, node_id, a.all_blocks(), hot[m]);
    let i = choose|i: int|
        0 <= i < a.all_blocks().len() && ({
            let b = #[trigger] a.all_blocks()[i];
            let n = a.pool_at(b.space(), b.pool_kind)->0.hits_all(b.flat);
            n > 0 && !tier::on_tier_of(a.block(b).meta.locations, Tier::L0, node_id) && hot[m] == (
            HotView { count: n, id: a.block_id(b) })
        });
    blocks::all_blocks_known(a, i);
    lemma_addresses_differ(a, a.all_blocks()[i], y);
}

proof fn lemma_hot_sorted(s: Seq<HotView>)
    ensures
        forall|i: int, j: int|
            0 <= i < j < order::ranked::<Hot>(s).len() ==> Hot::ranks(
                #[trigger] order::ranked::<Hot>(s)[i],
                #[trigger] order::ranked::<Hot>(s)[j],
            ),
{
    assert forall|a: HotView, b: HotView| #[trigger] Hot::ranks(a, b) || Hot::ranks(b, a) by {
        order::bytes_le_total(a.id.block_hash, b.id.block_hash);
    }
    assert forall|a: HotView, b: HotView, c: HotView| #[trigger]
        Hot::ranks(a, b) && #[trigger] Hot::ranks(b, c) implies Hot::ranks(a, c) by {
        if a.count == b.count && b.count == c.count {
            order::bytes_le_transitive(a.id.block_hash, b.id.block_hash, c.id.block_hash);
        }
    }
    order::ranked_is_sorted::<Hot>(s);
}

/// The node owns a block of that address.
spec fn is_given(before: Nodes, node_id: Seq<char>, ks: Seq<KeyedView>, id: KvBlockIdView) -> bool {
    exists|i: int|
        0 <= i < ks.len() && (#[trigger] ks[i]).id == id && shard::owner(before, ks[i].key.flat)
            == Some(node_id)
}

/// The node owns the block that goes, and its next owner gets it.
spec fn is_sent(
    before: Nodes,
    after: Nodes,
    node_id: Seq<char>,
    ks: Seq<KeyedView>,
    m: ShardMigrationView,
) -> bool {
    exists|i: int|
        0 <= i < ks.len() && shard::owner(before, (#[trigger] ks[i]).key.flat) == Some(node_id)
            && shard::owner(after, ks[i].key.flat) is Some && m == moved_on(
            ks[i].id,
            node_id,
            shard::owner(after, ks[i].key.flat)->0,
        )
}

/// What a node gives up of the blocks listed.
proof fn lemma_given_up(before: Nodes, after: Nodes, node_id: Seq<char>, ks: Seq<KeyedView>)
    requires
        forall|i: int, j: int|
            0 <= i < ks.len() && 0 <= j < ks.len() && migration::same_block(
                #[trigger] ks[i].id,
                #[trigger] ks[j].id,
            ) ==> ks[i] == ks[j],
    ensures
        forall|i: int|
            0 <= i < ks.len() && shard::owner(before, (#[trigger] ks[i]).key.flat) == Some(node_id)
                ==> migration::given_up(before, after, node_id, ks).1.contains(ks[i].id) && (
            shard::owner(after, ks[i].key.flat) is Some && shard::owner(after, ks[i].key.flat)
                != Some(node_id) ==> migration::given_up(before, after, node_id, ks).0.contains(
                moved_on(ks[i].id, node_id, shard::owner(after, ks[i].key.flat)->0),
            )),
        forall|j: int|
            0 <= j < migration::given_up(before, after, node_id, ks).1.len() ==> is_given(
                before,
                node_id,
                ks,
                #[trigger] migration::given_up(before, after, node_id, ks).1[j],
            ),
        forall|j: int|
            0 <= j < migration::given_up(before, after, node_id, ks).0.len() ==> is_sent(
                before,
                after,
                node_id,
                ks,
                #[trigger] migration::given_up(before, after, node_id, ks).0[j],
            ),
    decreases ks.len(),
{
    if ks.len() > 0 {
        let init = ks.drop_last();
        assert forall|i: int, j: int|
            0 <= i < init.len() && 0 <= j < init.len() && migration::same_block(
                #[trigger] init[i].id,
                #[trigger] init[j].id,
            ) implies init[i] == init[j] by {
            assert(init[i] == ks[i] && init[j] == ks[j]);
        }
        lemma_given_up(before, after, node_id, init);
        let (moves0, push0) = migration::given_up(before, after, node_id, init);
        let (moves, push) = migration::given_up(before, after, node_id, ks);
        let x = ks.last();
        assert(ks[ks.len() - 1] == x);
        assert forall|id: KvBlockIdView| push0.contains(id) implies #[trigger] push.contains(id) by {
            let k = choose|k: int| 0 <= k < push0.len() && push0[k] == id;
            assert(push[k] == id);
        }
        assert forall|m: ShardMigrationView| moves0.contains(m) implies #[trigger] moves.contains(
            m,
        ) by {
            let k = choose|k: int| 0 <= k < moves0.len() && moves0[k] == m;
            assert(moves[k] == m);
        }
        assert forall|i: int|
            0 <= i < ks.len() && shard::owner(before, (#[trigger] ks[i]).key.flat) == Some(
                node_id,
            ) implies push.contains(ks[i].id) && (shard::owner(after, ks[i].key.flat) is Some
            && shard::owner(after, ks[i].key.flat) != Some(node_id) ==> moves.contains(
            moved_on(ks[i].id, node_id, shard::owner(after, ks[i].key.flat)->0),
        )) by {
            if i < init.len() {
                assert(init[i] == ks[i]);
            } else if migration::listed_in(push0, x.id) {
                let j = choose|j: int|
                    0 <= j < push0.len() && migration::same_block(#[trigger] push0[j], x.id);
                assert(is_given(before, node_id, init, push0[j]));
                let m = choose|m: int|
                    0 <= m < init.len() && (#[trigger] init[m]).id == push0[j] && shard::owner(
                        before,
                        init[m].key.flat,
                    ) == Some(node_id);
                assert(init[m] == ks[m]);
                assert(migration::same_block(ks[m].id, ks[i].id));
                assert(init[m] == x);
            } else {
                assert(push[push0.len() as int] == x.id);
                if shard::owner(after, x.key.flat) is Some && shard::owner(after, x.key.flat)
                    != Some(node_id) {
                    assert(moves[moves0.len() as int] == moved_on(
                        x.id,
                        node_id,
                        shard::owner(after, x.key.flat)->0,
                    ));
                }
            }
        }
        assert forall|j: int| 0 <= j < push.len() implies is_given(
            before,
            node_id,
            ks,
            #[trigger] push[j],
        ) by {
            if j < push0.len() {
                assert(push0[j] == push[j]);
                assert(is_given(before, node_id, init, push0[j]));
                let i = choose|i: int|
                    0 <= i < init.len() && (#[trigger] init[i]).id == push0[j] && shard::owner(
                        before,
                        init[i].key.flat,
                    ) == Some(node_id);
                assert(ks[i] == init[i]);
            }
        }
        assert forall|j: int| 0 <= j < moves.len() implies is_sent(
            before,
            after,
            node_id,
            ks,
            #[trigger] moves[j],
        ) by {
            if j < moves0.len() {
                assert(moves0[j] == moves[j]);
                assert(is_sent(before, after, node_id, init, moves0[j]));
                let i = choose|i: int|
                    0 <= i < init.len() && shard::owner(before, (#[trigger] init[i]).key.flat)
                        == Some(node_id) && shard::owner(after, init[i].key.flat) is Some
                        && moves0[j] == moved_on(
                        init[i].id,
                        node_id,
                        shard::owner(after, init[i].key.flat)->0,
                    );
                assert(ks[i] == init[i]);
            }
        }
    }
}

/// A block goes from a node that drains to another, and is pushed first.
pub open spec fn moved_on(id: KvBlockIdView, from: Seq<char>, to: Seq<char>) -> ShardMigrationView {
    ShardMigrationView { id: Some(id), from_node: from, to_node: to, push_l2_first: true }
}

/// The blocks by hash are the known blocks, each with its address.
proof fn lemma_keyed_blocks(a: AuthorityView)
    requires
        a.finite(),
        mirror::addressed(a),
    ensures
        ({
            let ks = a.keyed_blocks();
            &&& forall|x: BlockKeyView| #[trigger]
                a.has_block(x) ==> ks.contains(KeyedView { key: x, id: a.block_id(x) })
            &&& forall|i: int|
                0 <= i < ks.len() ==> a.has_block((#[trigger] ks[i]).key) && ks[i].id
                    == a.block_id(ks[i].key)
            &&& forall|i: int, j: int|
                0 <= i < ks.len() && 0 <= j < ks.len() && migration::same_block(
                    #[trigger] ks[i].id,
                    #[trigger] ks[j].id,
                ) ==> ks[i] == ks[j]
        }),
{
    let ks = a.keyed_blocks();
    let raw = a.all_blocks().map_values(
        |b: BlockKeyView| KeyedView { key: b, id: a.block_id(b) },
    );
    assert forall|x: BlockKeyView| #[trigger] a.has_block(x) implies ks.contains(
        KeyedView { key: x, id: a.block_id(x) },
    ) by {
        blocks::known_blocks_listed(a, x);
        let i = choose|i: int| 0 <= i < a.all_blocks().len() && a.all_blocks()[i] == x;
        assert(raw[i] == (KeyedView { key: x, id: a.block_id(x) }));
        lemma_ranked_contains::<Keyed>(raw, raw[i]);
    }
    assert forall|i: int| 0 <= i < ks.len() implies a.has_block((#[trigger] ks[i]).key)
        && ks[i].id == a.block_id(ks[i].key) by {
        assert(ks.contains(ks[i]));
        lemma_ranked_contains::<Keyed>(raw, ks[i]);
        let j = choose|j: int| 0 <= j < raw.len() && raw[j] == ks[i];
        blocks::all_blocks_known(a, j);
    }
    assert forall|i: int, j: int|
        0 <= i < ks.len() && 0 <= j < ks.len() && migration::same_block(
            #[trigger] ks[i].id,
            #[trigger] ks[j].id,
        ) implies ks[i] == ks[j] by {
        lemma_addresses_differ(a, ks[i].key, ks[j].key);
    }
}

/// Draining a node sends its blocks on: every known block that the node owned before and that
/// has an owner afterwards is to go from the node to that owner, to be pushed first; no other
/// block is to go anywhere.
pub proof fn drained_blocks_are_sent_on(a: AuthorityView, node_id: Seq<char>, x: BlockKeyView)
    requires
        a.finite(),
        mirror::addressed(a),
        a.has_block(x),
        a.node_drained(node_id).1 is Ok,
    ensures
        ({
            let moves = a.node_drained(node_id).1->Ok_0.0;
            let before = shard::owner(a.shard.nodes, x.flat);
            let after = shard::owner(a.node_drained(node_id).0.shard.nodes, x.flat);
            &&& before == Some(node_id) && after is Some ==> moves.contains(
                ShardMigrationView {
                    id: Some(a.block_id(x)),
                    from_node: node_id,
                    to_node: after->0,
                    push_l2_first: true,
                },
            )
            &&& forall|i: int|
                0 <= i < moves.len() && (#[trigger] moves[i]).id == Some(a.block_id(x)) ==> before
                    == Some(node_id) && after == Some(moves[i].to_node) && moves[i].from_node
                    == node_id && moves[i].push_l2_first
            &&& a.node_drained(node_id).0.spaces == a.spaces
        }),
{
    let b = a.node_drained(node_id).0;
    let ks = a.keyed_blocks();
    let raw = migration::given_up(a.shard.nodes, b.shard.nodes, node_id, ks).0;
    let moves = a.node_drained(node_id).1->Ok_0.0;
    lemma_keyed_blocks(a);
    lemma_given_up(a.shard.nodes, b.shard.nodes, node_id, ks);
    let own = KeyedView { key: x, id: a.block_id(x) };
    assert(ks.contains(own));
    let k = choose|k: int| 0 <= k < ks.len() && ks[k] == own;
    let after = shard::owner(b.shard.nodes, x.flat);
    if shard::owner(a.shard.nodes, x.flat) == Some(node_id) && after is Some {
        shard::owner_is_a_live_member(b.shard.nodes, x.flat);
        assert(ks[k].key.flat == x.flat);
        lemma_ranked_contains::<ShardMigration>(raw, moved_on(a.block_id(x), node_id, after->0));
    }
    assert forall|i: int|
        0 <= i < moves.len() && (#[trigger] moves[i]).id == Some(a.block_id(x)) implies shard::owner(
        a.shard.nodes,
        x.flat,
    ) == Some(node_id) && after == Some(moves[i].to_node) && moves[i].from_node == node_id
        && moves[i].push_l2_first by {
        assert(moves.contains(moves[i]));
        lemma_ranked_contains::<ShardMigration>(raw, moves[i]);
        let j = choose|j: int| 0 <= j < raw.len() && raw[j] == moves[i];
        assert(is_sent(a.shard.nodes, b.shard.nodes, node_id, ks, raw[j]));
        let m = choose|m: int|
            0 <= m < ks.len() && shard::owner(a.shard.nodes, (#[trigger] ks[m]).key.flat) == Some(
                node_id,
            ) && shard::owner(b.shard.nodes, ks[m].key.flat) is Some && raw[j] == moved_on(
                ks[m].id,
                node_id,
                shard::owner(b.shard.nodes, ks[m].key.flat)->0,
            );
        lemma_addresses_differ(a, ks[m].key, x);
    }
}

/// A block goes from its owner to a node that joined.
pub open spec fn taken_by(id: KvBlockIdView, from: Seq<char>, to: Seq<char>) -> ShardMigrationView {
    ShardMigrationView { id: Some(id), from_node: from, to_node: to, push_l2_first: false }
}

/// The block passes from another owner to the node.
pub open spec fn changes_hands(before: Nodes, after: Nodes, node_id: Seq<char>, flat: Seq<u8>) -> bool {
    &&& shard::owner(before, flat) is Some
    &&& shard::owner(before, flat) != Some(node_id)
    &&& shard::owner(after, flat) == Some(node_id)
}

proof fn lemma_taken_over(
    before: Nodes,
    after: Nodes,
    node_id: Seq<char>,
    ks: Seq<KeyedView>,
    m: ShardMigrationView,
)
    ensures
        migration::taken_over(before, after, node_id, ks).contains(m) <==> exists|i: int|
            0 <= i < ks.len() && changes_hands(
                before,
                after,
                node_id,
                (#[trigger] ks[i]).key.flat,
            ) && m == taken_by(ks[i].id, shard::owner(before, ks[i].key.flat)->0, node_id),
    decreases ks.len(),
{
    let all = migration::taken_over(before, after, node_id, ks);
    if ks.len() > 0 {
        let init = ks.drop_last();
        let rest = migration::taken_over(before, after, node_id, init);
        lemma_taken_over(before, after, node_id, init, m);
        let x = ks.last();
        assert(ks[ks.len() - 1] == x);
        if all.contains(m) {
            let k = choose|k: int| 0 <= k < all.len() && all[k] == m;
            if k < rest.len() {
                assert(rest[k] == m);
                let i = choose|i: int|
                    0 <= i < init.len() && changes_hands(
                        before,
                        after,
                        node_id,
                        (#[trigger] init[i]).key.flat,
                    ) && m == taken_by(
                        init[i].id,
                        shard::owner(before, init[i].key.flat)->0,
                        node_id,
                    );
                assert(ks[i] == init[i]);
            }
        }
        if rest.contains(m) {
            let k = choose|k: int| 0 <= k < rest.len() && rest[k] == m;
            assert(all[k] == m);
        }
        if exists|i: int|
            0 <= i < ks.len() && changes_hands(
                before,
                after,
                node_id,
                (#[trigger] ks[i]).key.flat,
            ) && m == taken_by(ks[i].id, shard::owner(before, ks[i].key.flat)->0, node_id) {
            let i = choose|i: int|
                0 <= i < ks.len() && changes_hands(
                    before,
                    after,
                    node_id,
                    (#[trigger] ks[i]).key.flat,
                ) && m == taken_by(ks[i].id, shard::owner(before, ks[i].key.flat)->0, node_id);
            if i < init.len() {
                assert(init[i] == ks[i]);
            } else {
                assert(all[rest.len() as int] == m);
            }
        }
    }
}

/// A node that joins takes over what it now owns: a known block is to go to it, from the
/// owner before, exactly where it had another owner and the node owns it afterwards.
pub proof fn joining_node_takes_over(
    a: AuthorityView,
    node_id: Seq<char>,
    count: u32,
    x: BlockKeyView,
)
    requires
        a.finite(),
        mirror::addressed(a),
        a.has_block(x),
        a.node_joined(node_id, count).1 is Ok,
    ensures
        ({
            let moves = a.node_joined(node_id, count).1->Ok_0;
            let before = shard::owner(a.shard.nodes, x.flat);
            let after = shard::owner(a.node_joined(node_id, count).0.shard.nodes, x.flat);
            &&& before is Some && after == Some(node_id) ==> moves.contains(
                ShardMigrationView {
                    id: Some(a.block_id(x)),
                    from_node: before->0,
                    to_node: node_id,
                    push_l2_first: false,
                },
            )
            &&& forall|i: int|
                0 <= i < moves.len() && (#[trigger] moves[i]).id == Some(a.block_id(x)) ==> before
                    == Some(moves[i].from_node) && after == Some(node_id) && moves[i].to_node
                    == node_id && !moves[i].push_l2_first
            &&& a.node_joined(node_id, count).0.spaces == a.spaces
        }),
{
    let b = a.node_joined(node_id, count).0;
    let ks = a.keyed_blocks();
    let raw = migration::taken_over(a.shard.nodes, b.shard.nodes, node_id, ks);
    let moves = a.node_joined(node_id, count).1->Ok_0;
    lemma_keyed_blocks(a);
    let own = KeyedView { key: x, id: a.block_id(x) };
    assert(ks.contains(own));
    let k = choose|k: int| 0 <= k < ks.len() && ks[k] == own;
    let before = shard::owner(a.shard.nodes, x.flat);
    let after = shard::owner(b.shard.nodes, x.flat);
    if before is Some && after == Some(node_id) {
        shard::owner_is_a_live_member(a.shard.nodes, x.flat);
        assert(changes_hands(a.shard.nodes, b.shard.nodes, node_id, ks[k].key.flat));
        let m = taken_by(a.block_id(x), before->0, node_id);
        lemma_taken_over(a.shard.nodes, b.shard.nodes, node_id, ks, m);
        lemma_ranked_contains::<ShardMigration>(raw, m);
    }
    assert forall|i: int|
        0 <= i < moves.len() && (#[trigger] moves[i]).id == Some(a.block_id(x)) implies before
        == Some(moves[i].from_node) && after == Some(node_id) && moves[i].to_node == node_id
        && !moves[i].push_l2_first by {
        assert(moves.contains(moves[i]));
        lemma_ranked_contains::<ShardMigration>(raw, moves[i]);
        lemma_taken_over(a.shard.nodes, b.shard.nodes, node_id, ks, moves[i]);
        let m = choose|m: int|
            0 <= m < ks.len() && changes_hands(
                a.shard.nodes,
                b.shard.nodes,
                node_id,
                (#[trigger] ks[m]).key.flat,
            ) && moves[i] == taken_by(
                ks[m].id,
                shard::owner(a.shard.nodes, ks[m].key.flat)->0,
                node_id,
            );
        lemma_addresses_differ(a, ks[m].key, x);
    }
}

/// The address is that of a known block.
spec fn is_named(a: AuthorityView, id: KvBlockIdView) -> bool {
    exists|y: BlockKeyView| a.has_block(y) && #[trigger] a.block_id(y) == id
}

/// The blocks with a copy in L2 of the node join those to push.
proof fn lemma_also_pushed(
    a: AuthorityView,
    node_id: Seq<char>,
    blocks: Seq<BlockKeyView>,
    push: Seq<KvBlockIdView>,
    x: BlockKeyView,
)
    requires
        mirror::addressed(a),
        a.has_block(x),
        forall|i: int| 0 <= i < blocks.len() ==> a.has_block(#[trigger] blocks[i]),
        forall|j: int| 0 <= j < push.len() ==> is_named(a, #[trigger] push[j]),
    ensures
        a.also_pushed(node_id, blocks, push).contains(a.block_id(x)) <==> push.contains(
            a.block_id(x),
        ) || (blocks.contains(x) && tier::on_tier_of(
            a.block(x).meta.locations,
            Tier::L2,
            node_id,
        )),
        forall|j: int|
            0 <= j < a.also_pushed(node_id, blocks, push).len() ==> is_named(
                a,
                #[trigger] a.also_pushed(node_id, blocks, push)[j],
            ),
    decreases blocks.len(),
{
    let all = a.also_pushed(node_id, blocks, push);
    if blocks.len() > 0 {
        let init = blocks.drop_last();
        assert forall|i: int| 0 <= i < init.len() implies a.has_block(#[trigger] init[i]) by {
            assert(init[i] == blocks[i]);
        }
        lemma_also_pushed(a, node_id, init, push, x);
        let rest = a.also_pushed(node_id, init, push);
        let b = blocks.last();
        assert(a.has_block(blocks[blocks.len() - 1]));
        assert(blocks.contains(x) == (init.contains(x) || b == x)) by {
            if init.contains(x) {
                let k = choose|k: int| 0 <= k < init.len() && init[k] == x;
                assert(blocks[k] == x);
            }
            if blocks.contains(x) {
                let k = choose|k: int| 0 <= k < blocks.len() && blocks[k] == x;
                if k < init.len() {
                    assert(init[k] == x);
                }
            }
            assert(blocks[blocks.len() - 1] == b);
        }
        let here = tier::on_tier_of(a.block(b).meta.locations, Tier::L2, node_id);
        if here && migration::listed_in(rest, a.block_id(b)) {
            let j = choose|j: int|
                0 <= j < rest.len() && migration::same_block(#[trigger] rest[j], a.block_id(b));
            assert(is_named(a, rest[j]));
            let y = choose|y: BlockKeyView| a.has_block(y) && #[trigger] a.block_id(y) == rest[j];
            lemma_addresses_differ(a, y, b);
            assert(rest.contains(a.block_id(b)));
            assert(all == rest);
        } else if here {
            assert(all == rest.push(a.block_id(b)));
            assert(all[rest.len() as int] == a.block_id(b));
            if all.contains(a.block_id(x)) {
                let k = choose|k: int| 0 <= k < all.len() && all[k] == a.block_id(x);
                if k < rest.len() {
                    assert(rest[k] == a.block_id(x));
                } else {
                    lemma_addresses_differ(a, b, x);
                }
            }
            if rest.contains(a.block_id(x)) {
                let k = choose|k: int| 0 <= k < rest.len() && rest[k] == a.block_id(x);
                assert(all[k] == a.block_id(x));
            }
            assert forall|j: int| 0 <= j < all.len() implies is_named(a, #[trigger] all[j]) by {
                if j < rest.len() {
                    assert(rest[j] == all[j]);
                } else {
                    assert(a.block_id(b) == all[j]);
                }
            }
        } else {
            assert(all == rest);
        }
    }
}

/// A node that drains has to push its blocks: a known block is listed to be pushed exactly
/// where the node owned it before or holds a copy of it in L2.
pub proof fn drained_blocks_are_pushed(a: AuthorityView, node_id: Seq<char>, x: BlockKeyView)
    requires
        a.finite(),
        mirror::addressed(a),
        a.has_block(x),
        a.node_drained(node_id).1 is Ok,
    ensures
        a.node_drained(node_id).1->Ok_0.1.contains(a.block_id(x)) <==> shard::owner(
            a.shard.nodes,
            x.flat,
        ) == Some(node_id) || lies_in(a, x, Tier::L2, node_id),
{
    let b = a.node_drained(node_id).0;
    let ks = a.keyed_blocks();
    let push = migration::given_up(a.shard.nodes, b.shard.nodes, node_id, ks).1;
    lemma_keyed_blocks(a);
    lemma_given_up(a.shard.nodes, b.shard.nodes, node_id, ks);
    let own = KeyedView { key: x, id: a.block_id(x) };
    assert(ks.contains(own));
    let k = choose|k: int| 0 <= k < ks.len() && ks[k] == own;
    assert(ks[k].key.flat == x.flat);
    assert forall|j: int| 0 <= j < push.len() implies is_named(a, #[trigger] push[j]) by {
        assert(is_given(a.shard.nodes, node_id, ks, push[j]));
        let i = choose|i: int|
            0 <= i < ks.len() && (#[trigger] ks[i]).id == push[j] && shard::owner(
                a.shard.nodes,
                ks[i].key.flat,
            ) == Some(node_id);
        assert(a.block_id(ks[i].key) == push[j]);
    }
    if push.contains(a.block_id(x)) {
        let j = choose|j: int| 0 <= j < push.len() && push[j] == a.block_id(x);
        assert(is_given(a.shard.nodes, node_id, ks, push[j]));
        let i = choose|i: int|
            0 <= i < ks.len() && (#[trigger] ks[i]).id == push[j] && shard::owner(
                a.shard.nodes,
                ks[i].key.flat,
            ) == Some(node_id);
        lemma_addresses_differ(a, ks[i].key, x);
    }
    assert forall|i: int| 0 <= i < a.all_blocks().len() implies a.has_block(
        #[trigger] a.all_blocks()[i],
    ) by {
        blocks::all_blocks_known(a, i);
    }
    blocks::known_blocks_listed(a, x);
    lemma_also_pushed(a, node_id, a.all_blocks(), push, x);
    lemma_ranked_contains::<KvBlockId>(
        a.also_pushed(node_id, a.all_blocks(), push),
        a.block_id(x),
    );
}

/// A node leaves the ring exactly where it is a member that drains, owns no known block and
/// holds no copy of one.
pub proof fn node_leaves_when_empty(a: AuthorityView, node_id: Seq<char>)
    requires
        a.finite(),
    ensures
        a.node_removed(node_id).1 is Ok <==> {
            &&& a.shard.nodes.contains_key(node_id)
            &&& a.shard.nodes[node_id].draining
            &&& forall|x: BlockKeyView| #[trigger]
                a.has_block(x) ==> shard::owner(a.shard.nodes, x.flat) != Some(node_id)
                    && forall|i: int|
                    0 <= i < a.block(x).meta.locations.len() ==> (
                    #[trigger] a.block(x).meta.locations[i]).node_id != node_id
        },
        a.node_removed(node_id).1 is Ok ==> !a.node_removed(node_id).0.shard.nodes.contains_key(
            node_id,
        ),
{
    let all = a.all_blocks();
    assert forall|x: BlockKeyView| #[trigger] a.has_block(x) implies all.contains(x) by {
        blocks::known_blocks_listed(a, x);
    }
    assert forall|i: int| 0 <= i < all.len() implies a.has_block(#[trigger] all[i]) by {
        blocks::all_blocks_known(a, i);
    }
    if a.placed_on(node_id, all) == 0 {
        assert forall|x: BlockKeyView| #[trigger] a.has_block(x) implies !migration::on_node(
            a.block(x).meta.locations,
            node_id,
        ) by {
            lemma_placed_on(a, node_id, all, x);
        }
    } else {
        lemma_placed_somewhere(a, node_id, all);
    }
    if !a.owns_some(node_id) {
        assert forall|x: BlockKeyView| #[trigger] a.has_block(x) implies shard::owner(
            a.shard.nodes,
            x.flat,
        ) != Some(node_id) by {
            let i = choose|i: int| 0 <= i < all.len() && all[i] == x;
            assert(all[i].flat == x.flat);
        }
    }
}

proof fn lemma_placed_somewhere(a: AuthorityView, node_id: Seq<char>, blocks: Seq<BlockKeyView>)
    requires
        a.placed_on(node_id, blocks) > 0,
    ensures
        exists|i: int|
            0 <= i < blocks.len() && migration::on_node(
                a.block(#[trigger] blocks[i]).meta.locations,
                node_id,
            ),
    decreases blocks.len(),
{
    let init = blocks.drop_last();
    if migration::on_node(a.block(blocks.last()).meta.locations, node_id) {
        assert(migration::on_node(a.block(blocks[blocks.len() - 1]).meta.locations, node_id));
    } else {
        lemma_placed_somewhere(a, node_id, init);
        let i = choose|i: int|
            0 <= i < init.len() && migration::on_node(
                a.block(#[trigger] init[i]).meta.locations,
                node_id,
            );
        assert(blocks[i] == init[i]);
    }
}

/// The address is that of the block; without a pool it means the target model's.
pub open spec fn addresses(id: KvBlockIdView, x: BlockKeyView) -> bool {
    &&& id.model_id == x.model_id
    &&& id.revision == x.revision
    &&& id.block_hash == x.flat
    &&& id.pool_kind == x.pool_kind || (id.pool_kind == 0 && x.pool_kind
        == PoolKind::Target.spec_number())
}

/// How many of the addresses are that of the block.
pub open spec fn times(ids: Seq<KvBlockIdView>, x: BlockKeyView) -> nat
    decreases ids.len(),
{
    if ids.len() == 0 {
        0
    } else {
        times(ids.drop_last(), x) + if addresses(ids.last(), x) {
            1nat
        } else {
            0nat
        }
    }
}

/// A report counts hits: each time that it names a known block is one more hit of the block
/// on the node, as far as numbers reach. Hits on other nodes, records, marks and references
/// stay as they are.
pub proof fn reported_hits_are_counted(
    a: AuthorityView,
    node_id: Seq<char>,
    ids: Seq<KvBlockIdView>,
    x: BlockKeyView,
    n: Seq<char>,
)
    requires
        a.has_block(x),
    ensures
        ({
            let b = a.hits_counted(node_id, ids);
            let was = a.pool_at(x.space(), x.pool_kind)->0;
            let is = b.pool_at(x.space(), x.pool_kind)->0;
            let sum = was.hits_on(x.flat, node_id) + times(ids, x);
            &&& b.has_block(x)
            &&& is.hits_on(x.flat, node_id) == (if sum > u32::MAX {
                u32::MAX as int
            } else {
                sum
            })
            &&& n != node_id ==> is.hits_on(x.flat, n) == was.hits_on(x.flat, n)
            &&& is.by_flat == was.by_flat && is.marks == was.marks && is.refs == was.refs
                && is.inactive == was.inactive
            &&& b.shard == a.shard && b.spaces.dom() == a.spaces.dom()
        }),
    decreases ids.len(),
{
    let b = a.hits_counted(node_id, ids);
    if ids.len() > 0 {
        reported_hits_are_counted(a, node_id, ids.drop_last(), x, n);
        let c = a.hits_counted(node_id, ids.drop_last());
        let id = ids.last();
        match c.resolved(id) {
            None => {
                assert(!addresses(id, x));
            },
            Some(y) => {
                assert(addresses(id, x) == (x == y));
                let p = c.pool_at(y.space(), y.pool_kind)->0;
                assert(b.pool_at(y.space(), y.pool_kind) == Some(p.hit(y.flat, node_id)));
                if !(x.space() == y.space() && x.pool_kind == y.pool_kind) {
                    assert(b.pool_at(x.space(), x.pool_kind) == c.pool_at(x.space(), x.pool_kind));
                }
                assert(b.spaces.dom() =~= c.spaces.dom());
            },
        }
    }
}

/// A block that traffic calls for on a node: it was reported, was hit there twice or more,
/// and is neither in L0 there nor ordered there.
pub open spec fn called_for(
    a: AuthorityView,
    node_id: Seq<char>,
    ids: Seq<KvBlockIdView>,
    x: BlockKeyView,
) -> bool {
    let p = a.pool_at(x.space(), x.pool_kind)->0;
    &&& a.has_block(x)
    &&& times(ids, x) > 0
    &&& p.hits_on(x.flat, node_id) >= 2
    &&& !p.marks.contains((x.flat, node_id))
    &&& !lies_in(a, x, Tier::L0, node_id)
}

proof fn lemma_candidates(
    a: AuthorityView,
    node_id: Seq<char>,
    ids: Seq<KvBlockIdView>,
    x: BlockKeyView,
)
    ensures
        a.candidates(node_id, ids).len() <= ids.len(),
        placement::nominated(a.candidates(node_id, ids), x) == called_for(a, node_id, ids, x),
    decreases ids.len(),
{
    let all = a.candidates(node_id, ids);
    if ids.len() > 0 {
        let init = ids.drop_last();
        let rest = a.candidates(node_id, init);
        lemma_candidates(a, node_id, init, x);
        let id = ids.last();
        match a.resolved(id) {
            None => {
                assert(a.has_block(x) ==> !addresses(id, x));
            },
            Some(y) => {
                assert(a.has_block(x) ==> addresses(id, x) == (x == y));
                lemma_candidates(a, node_id, init, y);
                if a.wanted(node_id, y) && !placement::nominated(rest, y) {
                    let last = all.last();
                    assert(all == rest.push(last));
                    assert(all[rest.len() as int].key == y);
                    assert(placement::nominated(all, x) == (placement::nominated(rest, x) || x
                        == y)) by {
                        if placement::nominated(rest, x) {
                            let i = choose|i: int|
                                0 <= i < rest.len() && (#[trigger] rest[i]).key == x;
                            assert(all[i].key == x);
                        }
                        if placement::nominated(all, x) {
                            let i = choose|i: int|
                                0 <= i < all.len() && (#[trigger] all[i]).key == x;
                            if i < rest.len() {
                                assert(rest[i].key == x);
                            }
                        }
                    }
                }
            },
        }
    }
}

/// The steps for a chain: those that were there, and each block of the chain that the node
/// lacks.
proof fn lemma_chain_steps(
    p: PoolView,
    key: BlockKeyView,
    node_id: Seq<char>,
    chain: Seq<Seq<u8>>,
    steps: Seq<StepView>,
)
    ensures
        ({
            let all = placement::chain_steps(p, key, node_id, chain, steps);
            &&& steps.is_prefix_of(all)
            &&& forall|i: int|
                0 <= i < chain.len() && p.by_flat.contains_key(#[trigger] chain[i])
                    && !tier::on_tier_of(
                    p.by_flat[chain[i]].meta.locations,
                    Tier::L0,
                    node_id,
                ) ==> placement::planned(all, chain[i])
            &&& forall|j: int|
                steps.len() <= j < all.len() ==> step_of(
                    p,
                    key,
                    node_id,
                    chain,
                    #[trigger] all[j],
                )
        }),
    decreases chain.len(),
{
    let all = placement::chain_steps(p, key, node_id, chain, steps);
    if chain.len() > 0 {
        let init = chain.drop_last();
        let rest = placement::chain_steps(p, key, node_id, init, steps);
        lemma_chain_steps(p, key, node_id, init, steps);
        let flat = chain.last();
        assert(chain[chain.len() - 1] == flat);
        assert forall|f: Seq<u8>| placement::planned(rest, f) implies #[trigger] placement::planned(
            all,
            f,
        ) by {
            let k = choose|k: int| 0 <= k < rest.len() && (#[trigger] rest[k]).key.flat == f;
            assert(all[k].key.flat == f);
        }
        assert(steps =~= all.take(steps.len() as int)) by {
            assert(steps == rest.take(steps.len() as int));
        }
        assert forall|i: int|
            0 <= i < chain.len() && p.by_flat.contains_key(#[trigger] chain[i]) && !tier::on_tier_of(
                p.by_flat[chain[i]].meta.locations,
                Tier::L0,
                node_id,
            ) implies placement::planned(all, chain[i]) by {
            if i < init.len() {
                assert(init[i] == chain[i]);
            } else if !placement::planned(rest, flat) {
                assert(all[rest.len() as int].key.flat == flat);
            }
        }
        assert forall|j: int| steps.len() <= j < all.len() implies step_of(
            p,
            key,
            node_id,
            chain,
            #[trigger] all[j],
        ) by {
            if j < rest.len() {
                assert(rest[j] == all[j]);
                assert(step_of(p, key, node_id, init, rest[j]));
                let i = choose|i: int| 0 <= i < init.len() && init[i] == rest[j].key.flat;
                assert(chain[i] == all[j].key.flat);
            }
        }
    }
}

/// A step is for a block of the chain that is there and not in L0 of the node.
pub open spec fn step_of(
    p: PoolView,
    key: BlockKeyView,
    node_id: Seq<char>,
    chain: Seq<Seq<u8>>,
    step: StepView,
) -> bool {
    &&& chain.contains(step.key.flat)
    &&& step.key.space() == key.space() && step.key.pool_kind == key.pool_kind
    &&& p.by_flat.contains_key(step.key.flat)
    &&& !tier::on_tier_of(p.by_flat[step.key.flat].meta.locations, Tier::L0, node_id)
    &&& step.id == pool::id_or(
        p.by_flat[step.key.flat].meta.id,
        key.model_id,
        key.revision,
        key.pool_kind,
        step.key.flat,
    )
}

/// A step is for a block of the chain of some candidate.
spec fn step_for_some(
    a: AuthorityView,
    node_id: Seq<char>,
    cands: Seq<CandidateView>,
    step: StepView,
) -> bool {
    exists|i: int|
        0 <= i < cands.len() && ({
            let b = (#[trigger] cands[i]).key;
            step_of(a.pool_at(b.space(), b.pool_kind)->0, b, node_id, a.block(b).chain, step)
        })
}

proof fn lemma_steps(a: AuthorityView, node_id: Seq<char>, cands: Seq<CandidateView>)
    ensures
        forall|i: int, j: int|
            0 <= i < cands.len() && 0 <= j < a.block(cands[i].key).chain.len() && ({
                let b = cands[i].key;
                let p = a.pool_at(b.space(), b.pool_kind)->0;
                let f = a.block(b).chain[j];
                p.by_flat.contains_key(f) && !tier::on_tier_of(
                    p.by_flat[f].meta.locations,
                    Tier::L0,
                    node_id,
                )
            }) ==> placement::planned(
                a.steps(node_id, cands),
                #[trigger] a.block(cands[i].key).chain[j],
            ),
        forall|j: int|
            0 <= j < a.steps(node_id, cands).len() ==> step_for_some(
                a,
                node_id,
                cands,
                #[trigger] a.steps(node_id, cands)[j],
            ),
    decreases cands.len(),
{
    if cands.len() > 0 {
        let init = cands.drop_last();
        let rest = a.steps(node_id, init);
        let all = a.steps(node_id, cands);
        let b = cands.last().key;
        let p = a.pool_at(b.space(), b.pool_kind)->0;
        lemma_steps(a, node_id, init);
        lemma_chain_steps(p, b, node_id, a.block(b).chain, rest);
        assert(cands[cands.len() - 1] == cands.last());
        assert(rest == all.take(rest.len() as int));
        assert forall|f: Seq<u8>| placement::planned(rest, f) implies #[trigger] placement::planned(
            all,
            f,
        ) by {
            let k = choose|k: int| 0 <= k < rest.len() && (#[trigger] rest[k]).key.flat == f;
            assert(all[k] == rest[k]);
        }
        assert forall|i: int, j: int|
            0 <= i < cands.len() && 0 <= j < a.block(cands[i].key).chain.len() && ({
                let b = cands[i].key;
                let p = a.pool_at(b.space(), b.pool_kind)->0;
                let f = a.block(b).chain[j];
                p.by_flat.contains_key(f) && !tier::on_tier_of(
                    p.by_flat[f].meta.locations,
                    Tier::L0,
                    node_id,
                )
            }) implies placement::planned(all, #[trigger] a.block(cands[i].key).chain[j]) by {
            if i < init.len() {
                assert(init[i] == cands[i]);
                assert(placement::planned(rest, a.block(init[i].key).chain[j]));
            }
        }
        assert forall|j: int| 0 <= j < all.len() implies step_for_some(
            a,
            node_id,
            cands,
            #[trigger] all[j],
        ) by {
            if j < rest.len() {
                assert(rest[j] == all[j]);
                assert(step_for_some(a, node_id, init, rest[j]));
                let i = choose|i: int|
                    0 <= i < init.len() && ({
                        let b = (#[trigger] init[i]).key;
                        step_of(
                            a.pool_at(b.space(), b.pool_kind)->0,
                            b,
                            node_id,
                            a.block(b).chain,
                            rest[j],
                        )
                    });
                assert(cands[i] == init[i]);
            } else {
                assert(step_of(p, b, node_id, a.block(b).chain, all[j]));
            }
        }
    }
}

/// Blocks follow the traffic: for a report of no more blocks than are looked at, each block
/// that it calls for is planned, together with every block of its chain that is known and not
/// in L0 of the node.
pub proof fn blocks_follow_the_traffic(
    a: AuthorityView,
    node_id: Seq<char>,
    ids: Seq<KvBlockIdView>,
    x: BlockKeyView,
    f: Seq<u8>,
)
    requires
        node_id.len() > 0,
        ids.len() <= 16,
        called_for(a, node_id, ids, x),
        a.block(x).chain.contains(f),
        a.has_block(BlockKeyView { flat: f, ..x }),
        !lies_in(a, BlockKeyView { flat: f, ..x }, Tier::L0, node_id),
    ensures
        exists|i: int|
            0 <= i < a.follow_steps(node_id, ids).len() && (#[trigger] a.follow_steps(
                node_id,
                ids,
            )[i]).key.flat == f,
{
    let raw = a.candidates(node_id, ids);
    let cands = order::ranked::<Candidate>(raw);
    lemma_candidates(a, node_id, ids, x);
    order::ranked_keeps_values::<Candidate>(raw);
    let r = choose|r: int| 0 <= r < raw.len() && (#[trigger] raw[r]).key == x;
    lemma_ranked_contains::<Candidate>(raw, raw[r]);
    let i = choose|i: int| 0 <= i < cands.len() && cands[i] == raw[r];
    lemma_steps(a, node_id, cands);
    let j = choose|j: int| 0 <= j < a.block(x).chain.len() && a.block(x).chain[j] == f;
    assert(cands[i].key == x);
    let steps = a.follow_steps(node_id, ids);
    assert(steps == a.steps(node_id, cands));
    assert(placement::planned(steps, a.block(cands[i].key).chain[j]));
    let s = choose|s: int| 0 <= s < steps.len() && (#[trigger] steps[s]).key.flat == f;
    assert(a.follow_steps(node_id, ids)[s].key.flat == f);
}

/// Nothing else follows: what is planned for a node is known, not in L0 there, and of the
/// chain of a block that was called for.
pub proof fn only_what_is_called_for_follows(
    a: AuthorityView,
    node_id: Seq<char>,
    ids: Seq<KvBlockIdView>,
    i: int,
)
    requires
        0 <= i < a.follow_steps(node_id, ids).len(),
    ensures
        ({
            let step = a.follow_steps(node_id, ids)[i];
            &&& node_id.len() > 0
            &&& a.has_block(step.key)
            &&& step.id == a.block_id(step.key)
            &&& !lies_in(a, step.key, Tier::L0, node_id)
            &&& exists|x: BlockKeyView| #[trigger]
                called_for(a, node_id, ids, x) && a.block(x).chain.contains(step.key.flat)
                    && x.space() == step.key.space() && x.pool_kind == step.key.pool_kind
        }),
{
    let raw = a.candidates(node_id, ids);
    let cands = placement::at_most(order::ranked::<Candidate>(raw), 16);
    let step = a.follow_steps(node_id, ids)[i];
    lemma_steps(a, node_id, cands);
    assert(step_for_some(a, node_id, cands, step));
    let c = choose|c: int|
        0 <= c < cands.len() && ({
            let b = (#[trigger] cands[c]).key;
            step_of(a.pool_at(b.space(), b.pool_kind)->0, b, node_id, a.block(b).chain, step)
        });
    assert(order::ranked::<Candidate>(raw).contains(cands[c])) by {
        assert(order::ranked::<Candidate>(raw)[c] == cands[c]);
    }
    lemma_ranked_contains::<Candidate>(raw, cands[c]);
    let r = choose|r: int| 0 <= r < raw.len() && raw[r] == cands[c];
    assert(raw[r].key == cands[c].key);
    let x = cands[c].key;
    lemma_candidates(a, node_id, ids, x);
    assert(called_for(a, node_id, ids, x));
}

/// What is missing of a prefix on a node, in the order of the prefix.
proof fn lemma_missing_on(
    p: PoolView,
    k: (Seq<char>, Seq<char>),
    pk: i32,
    node_id: Seq<char>,
    prefix: Seq<Seq<u8>>,
    id: KvBlockIdView,
)
    ensures
        placement::missing_on(p, k, pk, node_id, prefix).contains(id) <==> exists|i: int|
            0 <= i < prefix.len() && lacking(p, node_id, #[trigger] prefix[i]) && id
                == pool::id_or(p.by_flat[prefix[i]].meta.id, k.0, k.1, pk, prefix[i]),
    decreases prefix.len(),
{
    let all = placement::missing_on(p, k, pk, node_id, prefix);
    if prefix.len() > 0 {
        let init = prefix.drop_last();
        let rest = placement::missing_on(p, k, pk, node_id, init);
        lemma_missing_on(p, k, pk, node_id, init, id);
        assert(prefix[prefix.len() - 1] == prefix.last());
        if all.contains(id) {
            let j = choose|j: int| 0 <= j < all.len() && all[j] == id;
            if j < rest.len() {
                assert(rest[j] == id);
                let i = choose|i: int|
                    0 <= i < init.len() && lacking(p, node_id, #[trigger] init[i]) && id
                        == pool::id_or(p.by_flat[init[i]].meta.id, k.0, k.1, pk, init[i]);
                assert(prefix[i] == init[i]);
            }
        }
        if rest.contains(id) {
            let j = choose|j: int| 0 <= j < rest.len() && rest[j] == id;
            assert(all[j] == id);
        }
        if exists|i: int|
            0 <= i < prefix.len() && lacking(p, node_id, #[trigger] prefix[i]) && id
                == pool::id_or(p.by_flat[prefix[i]].meta.id, k.0, k.1, pk, prefix[i]) {
            let i = choose|i: int|
                0 <= i < prefix.len() && lacking(p, node_id, #[trigger] prefix[i]) && id
                    == pool::id_or(p.by_flat[prefix[i]].meta.id, k.0, k.1, pk, prefix[i]);
            if i < init.len() {
                assert(init[i] == prefix[i]);
            } else {
                assert(all[rest.len() as int] == id);
            }
        }
    }
}

/// A chain is placed ahead where it prefers: the plan names a member that does not drain and
/// that none such beats, and lists a block of the chain exactly where it is known, not in L0
/// of that member and not ordered there. There is no plan where nothing is to be placed.
pub proof fn chain_is_placed_where_it_prefers(
    a: AuthorityView,
    k: (Seq<char>, Seq<char>),
    pk: i32,
    prefix: Seq<Seq<u8>>,
    x: BlockKeyView,
)
    requires
        a.shard.nodes.dom().finite(),
        mirror::addressed(a),
        a.has_block(x),
        x.space() == k,
        x.pool_kind == pk,
        prefix.contains(x.flat),
    ensures
        ({
            let (b, plan) = a.preplaced(k, pk, prefix);
            let p = a.pool_at(k, pk)->0;
            let anchor = if prefix.len() < 8 {
                prefix[prefix.len() - 1]
            } else {
                prefix[7]
            };
            &&& plan is Some ==> {
                let (home, ids) = plan->0;
                &&& a.shard.nodes.contains_key(home) && !a.shard.nodes[home].draining
                &&& forall|n: Seq<char>|
                    a.shard.nodes.contains_key(n) && !(#[trigger] a.shard.nodes[n]).draining
                        ==> placement::score(anchor, n) <= placement::score(anchor, home)
                &&& ids.contains(a.block_id(x)) <==> !lies_in(a, x, Tier::L0, home)
                    && !p.marks.contains((x.flat, home))
                &&& ids.contains(a.block_id(x)) ==> b.pool_at(k, pk)->0.marks.contains(
                    (x.flat, home),
                )
            }
            &&& plan is None ==> b == a
            &&& plan is None && (exists|n: Seq<char>|
                a.shard.nodes.contains_key(n) && !(#[trigger] a.shard.nodes[n]).draining)
                ==> exists|home: Seq<char>|
                a.shard.nodes.contains_key(home) && !(#[trigger] a.shard.nodes[home]).draining && (
                lies_in(a, x, Tier::L0, home) || p.marks.contains((x.flat, home)))
        }),
{
    let (b, plan) = a.preplaced(k, pk, prefix);
    let p = a.pool_at(k, pk)->0;
    let anchor = placement::anchor_of(prefix)->0;
    let ready = a.ready();
    lemma_pool_kind(a, x);
    assert(ready.subset_of(a.shard.nodes.dom()));
    vstd::set_lib::lemma_set_subset_finite(a.shard.nodes.dom(), ready);
    if ready.len() > 0 {
        placement::some_home(anchor, ready);
        let home = a.home_of(anchor);
        assert(placement::is_home(anchor, ready, home));
        assert(ready.contains(home));
        assert forall|n: Seq<char>|
            a.shard.nodes.contains_key(n) && !(#[trigger] a.shard.nodes[n]).draining implies placement::score(
            anchor,
            n,
        ) <= placement::score(anchor, home) by {
            assert(ready.contains(n));
        }
        let ids = placement::missing_on(p, k, pk, home, prefix);
        lemma_missing_on(p, k, pk, home, prefix, a.block_id(x));
        let m = choose|m: int| 0 <= m < prefix.len() && prefix[m] == x.flat;
        if ids.contains(a.block_id(x)) {
            let i = choose|i: int|
                0 <= i < prefix.len() && lacking(p, home, #[trigger] prefix[i]) && a.block_id(x)
                    == pool::id_or(p.by_flat[prefix[i]].meta.id, k.0, k.1, pk, prefix[i]);
            let y = BlockKeyView { flat: prefix[i], ..x };
            assert(a.has_block(y));
            lemma_addresses_differ(a, x, y);
            let j = choose|j: int| 0 <= j < ids.len() && ids[j] == a.block_id(x);
            lemma_address_leads_back(a, x);
            assert(ids[j].block_hash == x.flat);
            lemma_marked(p.marks, ids, home, (x.flat, home));
        }
        if lacking(p, home, x.flat) {
            assert(lacking(p, home, prefix[m]));
            assert(ids.contains(a.block_id(x)));
            assert(ids.len() > 0);
        }
        if plan is None {
            assert(ids.len() == 0);
            assert(!lacking(p, home, x.flat));
        }
    } else {
        assert forall|n: Seq<char>| a.shard.nodes.contains_key(n) implies (
        #[trigger] a.shard.nodes[n]).draining by {
            if !a.shard.nodes[n].draining {
                assert(ready.contains(n));
                assert(ready.remove(n).len() == ready.len() - 1);
            }
        }
    }
}

/// References move by what is reported: of the kind named, the block's count changes by
/// the number reported, and so does the node's share where a node is named; the other kind,
/// other shares and other blocks' counts stay. A report is refused exactly where the block or
/// the kind is not known or a count would leave its range.
pub proof fn references_move_as_reported(
    a: AuthorityView,
    id: KvBlockIdView,
    kind: i32,
    delta: int,
    node_id: Seq<char>,
    x: BlockKeyView,
    y: BlockKeyView,
    other: Seq<char>,
)
    requires
        addresses(id, x),
        x.pool_kind == PoolKind::Target.spec_number() || x.pool_kind
            == PoolKind::Draft.spec_number(),
        a.has_block(y),
    ensures
        ({
            let r = a.ref_moved(Some(id), kind, delta, node_id);
            let writes = kind == RefKind::Writeback.spec_number();
            let was = a.pool_at(x.space(), x.pool_kind)->0.accounts_of(a.block(x).seq);
            let share = a.node_accounts(node_id, x);
            let count = if writes {
                was.writeback + delta
            } else {
                was.request + delta
            };
            let held = if writes {
                share.writeback + delta
            } else {
                share.request + delta
            };
            let shared = node_id.len() > 0 && delta != 0;
            &&& r is Ok <==> a.has_block(x) && (writes || kind == RefKind::Request.spec_number())
                && 0 <= count <= i64::MAX && (shared ==> 0 <= held <= i64::MAX)
            &&& r is Ok ==> {
                let b = r->Ok_0;
                let is = b.pool_at(x.space(), x.pool_kind)->0.accounts_of(a.block(x).seq);
                let now = b.node_accounts(node_id, x);
                &&& if writes {
                    is.writeback == count && is.request == was.request
                } else {
                    is.request == count && is.writeback == was.writeback
                }
                &&& shared ==> (if writes {
                    now.writeback == held && now.request == share.request
                } else {
                    now.request == held && now.writeback == share.writeback
                })
                &&& !shared ==> now == share
                &&& (other != node_id || y != x) ==> b.node_accounts(other, y) == a.node_accounts(
                    other,
                    y,
                )
                &&& b.has_block(y) && b.block(y) == a.block(y)
                &&& (y.space() != x.space() || y.pool_kind != x.pool_kind || a.block(y).seq
                    != a.block(x).seq) ==> b.pool_at(y.space(), y.pool_kind)->0.accounts_of(
                    a.block(y).seq,
                ) == a.pool_at(y.space(), y.pool_kind)->0.accounts_of(a.block(y).seq)
            }
        }),
{
    assert(BlockKeyView::of(id) == x);
}

/// The first reference to a block keeps it, and the last that goes lets it make room, where
/// there is space for it.
pub proof fn references_keep_blocks(
    a: AuthorityView,
    id: KvBlockIdView,
    kind: i32,
    delta: int,
    node_id: Seq<char>,
    x: BlockKeyView,
)
    requires
        addresses(id, x),
        a.has_block(x),
        a.ref_moved(Some(id), kind, delta, node_id) is Ok,
        a.pool_at(x.space(), x.pool_kind)->0.inactive.wf(),
    ensures
        ({
            let b = a.ref_moved(Some(id), kind, delta, node_id)->Ok_0;
            let p = a.pool_at(x.space(), x.pool_kind)->0;
            let q = b.pool_at(x.space(), x.pool_kind)->0;
            let seq = a.block(x).seq;
            let before = p.accounts_of(seq).request + p.accounts_of(seq).writeback;
            let after = q.accounts_of(seq).request + q.accounts_of(seq).writeback;
            &&& before <= 0 && after > 0 ==> !(exists|i: int|
                0 <= i < q.inactive.nodes.len() && (#[trigger] q.inactive.nodes[i]).seq == seq)
            &&& before > 0 && after == 0 && p.inactive.nodes.len() < p.cap ==> exists|i: int|
                0 <= i < q.inactive.nodes.len() && (#[trigger] q.inactive.nodes[i]).seq == seq
            &&& (before > 0) == (after > 0) ==> q.inactive == p.inactive
        }),
{
    let p = a.pool_at(x.space(), x.pool_kind)->0;
    let seq = a.block(x).seq;
    let b = a.ref_moved(Some(id), kind, delta, node_id)->Ok_0;
    let q = b.pool_at(x.space(), x.pool_kind)->0;
    inactive::remove_keeps_wf(p.inactive, seq, p.freq);
    inactive::insert_keeps_wf(p.inactive, seq, a.block(x).block_id, p.freq);
    if p.accounts_of(seq).total() <= 0 && q.accounts_of(seq).total() > 0 {
        assert(q.inactive == p.inactive.removed(seq, p.freq));
        assert(!inactive::holds(q.inactive.nodes, seq));
    }
    if p.accounts_of(seq).total() > 0 && q.accounts_of(seq).total() == 0 && p.inactive.nodes.len()
        < p.cap {
        assert(inactive::holds(q.inactive.nodes, seq));
    }
}

/// A block is discarded exactly where it is known and no reference holds it. Then it is gone,
/// with its references, and is charged no more; no other block is touched.
pub proof fn discarding_takes_one_block(a: AuthorityView, id: KvBlockIdView, x: BlockKeyView, y: BlockKeyView)
    requires
        addresses(id, x),
        x.pool_kind == PoolKind::Target.spec_number() || x.pool_kind
            == PoolKind::Draft.spec_number(),
        a.has_block(y),
        y != x,
    ensures
        ({
            let (b, r) = a.discarded_one(id);
            let seq = a.block(x).seq;
            let refs = a.pool_at(x.space(), x.pool_kind)->0.accounts_of(seq);
            let held = refs.request + refs.writeback > 0;
            &&& r is Err <==> a.has_block(x) && held
            &&& r is Err ==> b == a
            &&& r is Ok ==> (r->Ok_0 <==> a.has_block(x))
            &&& r is Ok ==> !b.has_block(x)
            &&& r is Ok ==> b.has_block(y) && b.block(y) == a.block(y)
            &&& r is Ok && r->Ok_0 ==> {
                let q = b.pool_at(x.space(), x.pool_kind)->0;
                &&& !q.refs.contains_key(seq)
                &&& !q.hits.contains_key(x.flat)
                &&& !b.orphans.contains_key(x)
                &&& b.node_accounts(x.model_id, x) == RefAccounts::none()
                &&& a.spaces[x.space()].used >= a.spaces[x.space()].block_bytes()
                    ==> b.spaces[x.space()].used == a.spaces[x.space()].used
                    - a.spaces[x.space()].block_bytes()
            }
        }),
{
    assert(BlockKeyView::of(id) == x);
    let per = a.spaces[x.space()].block_bytes();
    assert(1 * per == per) by (nonlinear_arith);
}

/// What object storage holds of a block is recorded for that block alone.
pub proof fn object_storage_is_recorded(
    a: AuthorityView,
    x: BlockKeyView,
    present: bool,
    y: BlockKeyView,
)
    requires
        x.pool_kind == PoolKind::Target.spec_number() || x.pool_kind
            == PoolKind::Draft.spec_number(),
        a.has_block(y),
    ensures
        ({
            let (b, r) = a.l3_set(x.space(), x.pool_kind, x.flat, present);
            &&& r is Ok <==> a.has_block(x)
            &&& r is Err ==> b == a
            &&& r is Ok ==> b.has_block(x) && b.block(x).meta.l3_present == present && (
            BlockMetaView { l3_present: a.block(x).meta.l3_present, ..b.block(x).meta })
                == a.block(x).meta && b.block(x).seq == a.block(x).seq
            &&& y != x ==> b.has_block(y) && b.block(y) == a.block(y)
        }),
{
}

/// The records that are located are those of the addresses that are known, in their order.
pub proof fn located_records_are_known(a: AuthorityView, ids: Seq<KvBlockIdView>, m: BlockMetaView)
    ensures
        a.metas_of(ids).len() <= ids.len(),
        a.metas_of(ids).contains(m) <==> exists|i: int, x: BlockKeyView|
            0 <= i < ids.len() && #[trigger] addresses(ids[i], x) && a.has_block(x) && a.block(
                x,
            ).meta == m,
    decreases ids.len(),
{
    let all = a.metas_of(ids);
    if ids.len() > 0 {
        let init = ids.drop_last();
        let rest = a.metas_of(init);
        located_records_are_known(a, init, m);
        let id = ids.last();
        assert(ids[ids.len() - 1] == id);
        let pk = pool::pool_kind_of(id.pool_kind);
        let own = BlockKeyView {
            model_id: id.model_id,
            revision: id.revision,
            pool_kind: pk->Ok_0,
            flat: id.block_hash,
        };
        if all.contains(m) {
            let j = choose|j: int| 0 <= j < all.len() && all[j] == m;
            if j < rest.len() {
                assert(rest[j] == m);
                let (i, x) = choose|i: int, x: BlockKeyView|
                    0 <= i < init.len() && #[trigger] addresses(init[i], x) && a.has_block(x)
                        && a.block(x).meta == m;
                assert(addresses(ids[i], x));
            } else {
                assert(addresses(ids[ids.len() - 1], own));
                assert(a.has_block(own));
            }
        }
        if rest.contains(m) {
            let j = choose|j: int| 0 <= j < rest.len() && rest[j] == m;
            assert(all[j] == m);
        }
        if exists|i: int, x: BlockKeyView|
            0 <= i < ids.len() && #[trigger] addresses(ids[i], x) && a.has_block(x) && a.block(
                x,
            ).meta == m {
            let (i, x) = choose|i: int, x: BlockKeyView|
                0 <= i < ids.len() && #[trigger] addresses(ids[i], x) && a.has_block(x) && a.block(
                    x,
                ).meta == m;
            if i < init.len() {
                assert(addresses(init[i], x));
            } else {
                assert(x == own);
                assert(all[rest.len() as int] == m);
            }
        }
    }
}

/// Limits are taken where the model is known and they make sense: none is negative, and a
/// hard limit is no lower than the soft one. What is read back is what was set, beside what
/// the model uses and what it borrows.
pub proof fn limits_are_read_back(
    a: AuthorityView,
    model_id: Seq<char>,
    revision: Seq<char>,
    q: Quota,
    other: (Seq<char>, Seq<char>),
)
    requires
        other != (model_id, revision),
    ensures
        ({
            let (b, r) = a.quota_set(model_id, revision, q);
            let k = (model_id, revision);
            &&& r is Ok <==> model_id.len() > 0 && a.spaces.contains_key(k) && q.soft_bytes >= 0
                && q.hard_bytes >= 0 && (q.hard_bytes > 0 ==> q.soft_bytes <= q.hard_bytes)
            &&& r is Err ==> b == a
            &&& b.spaces.contains_key(other) == a.spaces.contains_key(other) && (
            a.spaces.contains_key(other) ==> b.spaces[other] == a.spaces[other])
            &&& r is Ok ==> {
                let g = b.quota_report(model_id, revision);
                let used = a.spaces[k].used;
                &&& g is Ok
                &&& g->Ok_0.quota == Some(q)
                &&& g->Ok_0.used_bytes == used
                &&& q.soft_bytes > 0 && used > q.soft_bytes ==> g->Ok_0.borrowed_bytes == used
                    - q.soft_bytes
                &&& (q.soft_bytes == 0 || used <= q.soft_bytes) ==> g->Ok_0.borrowed_bytes == 0
                &&& g->Ok_0.backpressure is Some <==> q.hard_bytes > 0 && used > q.hard_bytes
                &&& g->Ok_0.backpressure is Some ==> g->Ok_0.backpressure->0.deficit_bytes == used
                    - q.hard_bytes && g->Ok_0.backpressure->0.used_bytes == used
                    && g->Ok_0.backpressure->0.reason == "HARD_QUOTA"@
                &&& b.spaces[k].target == a.spaces[k].target && b.spaces[k].draft
                    == a.spaces[k].draft
            }
        }),
{
}

/// A model is registered where it has a name, its limits make sense and, where it is known,
/// only its limits change. A new one has no block and uses nothing.
pub proof fn models_are_registered_once(
    a: AuthorityView,
    d: ModelDescriptorView,
    other: (Seq<char>, Seq<char>),
)
    requires
        other != (d.model_id, d.revision),
    ensures
        ({
            let (b, r) = a.model_registered(d);
            let k = (d.model_id, d.revision);
            let was = a.spaces[k];
            let sensible = d.quota is Some ==> d.quota->0.soft_bytes >= 0 && d.quota->0.hard_bytes
                >= 0 && (d.quota->0.hard_bytes > 0 ==> d.quota->0.soft_bytes
                <= d.quota->0.hard_bytes);
            let same = was.descriptor.model_id == d.model_id && was.descriptor.revision
                == d.revision && was.descriptor.num_layers == d.num_layers
                && was.descriptor.hash_algo == d.hash_algo && was.descriptor.block_spec
                == d.block_spec;
            &&& r is Ok <==> d.model_id.len() > 0 && sensible && (a.spaces.contains_key(k) ==> same)
            &&& r is Err ==> b == a
            &&& r is Ok && a.spaces.contains_key(k) ==> b.spaces[k].descriptor == (
            ModelDescriptorView { quota: d.quota, ..was.descriptor }) && b.spaces[k].used
                == was.used && b.spaces[k].target == was.target && b.spaces[k].draft == was.draft
            &&& r is Ok && !a.spaces.contains_key(k) ==> b.spaces.contains_key(k)
                && b.spaces[k].descriptor == d && b.spaces[k].used == 0 && (
            b.spaces[k].target is Some ==> b.spaces[k].target->0.by_flat.len() == 0) && (
            b.spaces[k].draft is Some ==> b.spaces[k].draft->0.by_flat.len() == 0)
            &&& b.spaces.contains_key(other) == a.spaces.contains_key(other) && (
            a.spaces.contains_key(other) ==> b.spaces[other] == a.spaces[other])
        }),
{
}

proof fn lemma_swept_exactly(a: AuthorityView, ttl: u64, blocks: Seq<BlockKeyView>, b: BlockKeyView)
    ensures
        a.swept(ttl, blocks).0.orphans.contains_key(b) == (a.orphans.contains_key(b) && !(
        blocks.contains(b) && a.expired(b, ttl))),
        a.swept(ttl, blocks).0.orphans.contains_key(b) ==> a.swept(ttl, blocks).0.orphans[b]
            == a.orphans[b],
        a.swept(ttl, blocks).1.contains(b.id()) <==> blocks.contains(b) && a.expired(b, ttl)
            && !a.in_view(b),
    decreases blocks.len(),
{
    if blocks.len() > 0 {
        let init = blocks.drop_last();
        lemma_swept_exactly(a, ttl, init, b);
        let (c, rest) = a.swept(ttl, init);
        let all = a.swept(ttl, blocks).1;
        let y = blocks.last();
        assert(blocks.contains(b) == (init.contains(b) || b == y)) by {
            if init.contains(b) {
                let j = choose|j: int| 0 <= j < init.len() && init[j] == b;
                assert(blocks[j] == b);
            }
            if blocks.contains(b) {
                let j = choose|j: int| 0 <= j < blocks.len() && blocks[j] == b;
                if j < init.len() {
                    assert(init[j] == b);
                }
            }
            assert(blocks[blocks.len() - 1] == y);
        }
        if rest.contains(b.id()) {
            let j = choose|j: int| 0 <= j < rest.len() && rest[j] == b.id();
            assert(all[j] == b.id());
        }
        if all.contains(b.id()) {
            let j = choose|j: int| 0 <= j < all.len() && all[j] == b.id();
            if j < rest.len() {
                assert(rest[j] == b.id());
            } else {
                assert(y.id() == b.id());
                assert(y == b);
            }
        }
        if a.expired(y, ttl) && !a.in_view(y) {
            assert(all[rest.len() as int] == y.id());
        }
    }
}

/// A sweep drops the writes that were given up: those marked at least as long ago as the time
/// to wait, thirty seconds where none is named. Of these it lists the ones that never came
/// into the view; the others stay marked as they are.
pub proof fn sweep_drops_what_was_given_up(a: AuthorityView, ttl_ms: u64, b: BlockKeyView)
    requires
        a.orphans.dom().finite(),
        a.orphans.contains_key(b),
        b.pool_kind == PoolKind::Target.spec_number() || b.pool_kind
            == PoolKind::Draft.spec_number(),
    ensures
        ({
            let (c, ids) = a.orphans_swept(ttl_ms);
            let wait: int = if ttl_ms == 0 {
                30_000
            } else {
                ttl_ms as int
            };
            let over = a.now_ms - a.orphans[b].marked_at_ms >= wait;
            &&& c.orphans.contains_key(b) <==> !over
            &&& !over ==> c.orphans[b] == a.orphans[b]
            &&& ids.contains(
                KvBlockIdView {
                    model_id: b.model_id,
                    revision: b.revision,
                    pool_kind: b.pool_kind,
                    block_hash: b.flat,
                    scope: "public"@,
                },
            ) <==> over && !a.has_block(b)
            &&& c.spaces == a.spaces && c.node_refs == a.node_refs
        }),
{
    let ttl = if ttl_ms == 0 {
        reconcile::DEFAULT_ORPHAN_TTL_MS
    } else {
        ttl_ms
    };
    let list = listing::listing::<BlockKey>(a.orphans.dom());
    listing::listing_lists::<BlockKey>(a.orphans.dom());
    assert(list.to_set().contains(b));
    lemma_swept_exactly(a, ttl, list, b);
    lemma_swept_rest(a, ttl, list);
}

proof fn lemma_swept_rest(a: AuthorityView, ttl: u64, blocks: Seq<BlockKeyView>)
    ensures
        ({
            let c = a.swept(ttl, blocks).0;
            (AuthorityView { orphans: a.orphans, ..c }) == a
        }),
    decreases blocks.len(),
{
    if blocks.len() > 0 {
        lemma_swept_rest(a, ttl, blocks.drop_last());
    }
}

/// Some address is that of the key.
pub open spec fn keyed_in(ids: Seq<KvBlockIdView>, b: BlockKeyView) -> bool {
    exists|i: int| 0 <= i < ids.len() && addresses(#[trigger] ids[i], b)
}

/// A report of incomplete writes marks what it names: a block that is not in the view is
/// marked with the node and the time of the report, or the present where it gives none; a
/// block that is in the view is not marked. Nothing else changes.
pub proof fn incomplete_writes_are_marked(
    a: AuthorityView,
    r: OrphanReportView,
    b: BlockKeyView,
)
    requires
        b.pool_kind == PoolKind::Target.spec_number() || b.pool_kind
            == PoolKind::Draft.spec_number(),
    ensures
        ({
            let c = a.orphans_reported(seq![r]);
            &&& keyed_in(r.ids, b) ==> (c.orphans.contains_key(b) <==> !a.has_block(b))
            &&& keyed_in(r.ids, b) && !a.has_block(b) ==> c.orphans[b].node_id == r.node_id
                && c.orphans[b].marked_at_ms == (if r.marked_at_ms == 0 {
                a.now_ms
            } else {
                r.marked_at_ms
            }) && addresses(c.orphans[b].id, b)
            &&& !keyed_in(r.ids, b) ==> c.orphans.contains_key(b) == a.orphans.contains_key(b)
                && (a.orphans.contains_key(b) ==> c.orphans[b] == a.orphans[b])
            &&& c.spaces == a.spaces
        }),
{
    let stamp = if r.marked_at_ms == 0 {
        a.now_ms
    } else {
        r.marked_at_ms
    };
    assert(seq![r].drop_last() =~= Seq::empty());
    assert(a.orphans_reported(seq![r].drop_last()) == a);
    assert(seq![r].last() == r);
    lemma_orphaned(a, r.ids, r.node_id, stamp, b);
}

proof fn lemma_orphaned(
    a: AuthorityView,
    ids: Seq<KvBlockIdView>,
    node_id: Seq<char>,
    stamp: u64,
    b: BlockKeyView,
)
    requires
        b.pool_kind == PoolKind::Target.spec_number() || b.pool_kind
            == PoolKind::Draft.spec_number(),
    ensures
        ({
            let c = a.orphaned(ids, node_id, stamp);
            &&& (AuthorityView { orphans: a.orphans, ..c }) == a
            &&& keyed_in(ids, b) ==> (c.orphans.contains_key(b) <==> !a.has_block(b))
            &&& keyed_in(ids, b) && !a.has_block(b) ==> c.orphans[b].node_id == node_id
                && c.orphans[b].marked_at_ms == stamp && addresses(c.orphans[b].id, b)
            &&& !keyed_in(ids, b) ==> c.orphans.contains_key(b) == a.orphans.contains_key(b) && (
            a.orphans.contains_key(b) ==> c.orphans[b] == a.orphans[b])
        }),
    decreases ids.len(),
{
    if ids.len() > 0 {
        let init = ids.drop_last();
        lemma_orphaned(a, init, node_id, stamp, b);
        let d = a.orphaned(init, node_id, stamp);
        let y = BlockKeyView::of(ids.last());
        assert(ids[ids.len() - 1] == ids.last());
        assert(addresses(ids.last(), b) == (y == b));
        if keyed_in(init, b) {
            let i = choose|i: int| 0 <= i < init.len() && addresses(#[trigger] init[i], b);
            assert(addresses(ids[i], b));
        }
        if keyed_in(ids, b) {
            let i = choose|i: int| 0 <= i < ids.len() && addresses(#[trigger] ids[i], b);
            if i < init.len() {
                assert(addresses(init[i], b));
            }
        }
        assert(d.in_view(b) == a.has_block(b)) by {
            assert(d.spaces == a.spaces);
        }
    }
}

/// Reports one after the other are one report of them all.
pub proof fn reports_come_in_parts(
    a: AuthorityView,
    r: Seq<OrphanReportView>,
    s: Seq<OrphanReportView>,
)
    ensures
        a.orphans_reported(r + s) == a.orphans_reported(r).orphans_reported(s),
    decreases s.len(),
{
    lemma_reports_keep_time(a, r);
    if s.len() == 0 {
        assert(r + s =~= r);
    } else {
        reports_come_in_parts(a, r, s.drop_last());
        assert((r + s).drop_last() =~= r + s.drop_last());
    }
}

proof fn lemma_reports_keep_time(a: AuthorityView, r: Seq<OrphanReportView>)
    ensures
        a.orphans_reported(r).now_ms == a.now_ms,
    decreases r.len(),
{
    if r.len() > 0 {
        lemma_reports_keep_time(a, r.drop_last());
        let c = a.orphans_reported(r.drop_last());
        lemma_orphaned(
            c,
            r.last().ids,
            r.last().node_id,
            if r.last().marked_at_ms == 0 {
                a.now_ms
            } else {
                r.last().marked_at_ms
            },
            BlockKeyView {
                model_id: Seq::empty(),
                revision: Seq::empty(),
                pool_kind: PoolKind::Target.spec_number(),
                flat: Seq::empty(),
            },
        );
    }
}

/// What blocks lose when a node is taken off them: their copies in its L0, and nothing else.
proof fn lemma_taken_off_exactly(
    a: AuthorityView,
    node_id: Seq<char>,
    blocks: Seq<BlockKeyView>,
    x: BlockKeyView,
    l: LocationView,
)
    requires
        a.has_block(x),
        forall|i: int| 0 <= i < blocks.len() ==> a.has_block(#[trigger] blocks[i]),
    ensures
        ({
            let (b, ids) = a.taken_off(node_id, blocks);
            &&& b.has_block(x)
            &&& b.block(x).meta.locations.contains(l) == (a.block(x).meta.locations.contains(l)
                && !(blocks.contains(x) && l.tier == Tier::L0.spec_number() && l.node_id
                == node_id))
            &&& b.block(x).meta.l3_present == a.block(x).meta.l3_present
            &&& b.block(x).seq == a.block(x).seq
            &&& ids.contains(x.id()) <==> blocks.contains(x) && tier::on_tier_of(
                a.block(x).meta.locations,
                Tier::L0,
                node_id,
            )
            &&& b.pool_at(x.space(), x.pool_kind)->0.refs == a.pool_at(
                x.space(),
                x.pool_kind,
            )->0.refs
        }),
    decreases blocks.len(),
{
    if blocks.len() > 0 {
        let init = blocks.drop_last();
        assert forall|i: int| 0 <= i < init.len() implies a.has_block(#[trigger] init[i]) by {
            assert(init[i] == blocks[i]);
        }
        lemma_taken_off_exactly(a, node_id, init, x, l);
        lemma_taken_off(a, node_id, init, x);
        let (c, rest) = a.taken_off(node_id, init);
        let (b, all) = a.taken_off(node_id, blocks);
        let y = blocks.last();
        assert(a.has_block(blocks[blocks.len() - 1]));
        assert(c.has_block(y));
        assert(blocks.contains(x) == (init.contains(x) || x == y)) by {
            if init.contains(x) {
                let j = choose|j: int| 0 <= j < init.len() && init[j] == x;
                assert(blocks[j] == x);
            }
            if blocks.contains(x) {
                let j = choose|j: int| 0 <= j < blocks.len() && blocks[j] == x;
                if j < init.len() {
                    assert(init[j] == x);
                }
            }
            assert(blocks[blocks.len() - 1] == y);
        }
        let was = c.block(y).meta.locations;
        lemma_absent(was, Tier::L0.spec_number(), node_id, l);
        lemma_l0_there(a, c, node_id, init, x);
        if rest.contains(x.id()) {
            let j = choose|j: int| 0 <= j < rest.len() && rest[j] == x.id();
            assert(all[j] == x.id());
        }
        if tier::on_tier_of(was, Tier::L0, node_id) {
            assert(all[rest.len() as int] == y.id());
            if all.contains(x.id()) {
                let j = choose|j: int| 0 <= j < all.len() && all[j] == x.id();
                if j < rest.len() {
                    assert(rest[j] == x.id());
                } else {
                    assert(y == x);
                }
            }
        } else if x == y && was.contains(l) && l.tier == Tier::L0.spec_number() && l.node_id
            == node_id {
            let j = choose|j: int| 0 <= j < was.len() && was[j] == l;
            assert(was[j].tier == Tier::L0.spec_number());
        }
    }
}

/// A block that was not taken off the node yet is in its L0 as before.
proof fn lemma_l0_there(
    a: AuthorityView,
    c: AuthorityView,
    node_id: Seq<char>,
    init: Seq<BlockKeyView>,
    x: BlockKeyView,
)
    requires
        c == a.taken_off(node_id, init).0,
        a.has_block(x),
        forall|i: int| 0 <= i < init.len() ==> a.has_block(#[trigger] init[i]),
    ensures
        !init.contains(x) ==> c.block(x).meta == a.block(x).meta,
    decreases init.len(),
{
    if init.len() > 0 {
        let less = init.drop_last();
        assert forall|i: int| 0 <= i < less.len() implies a.has_block(#[trigger] less[i]) by {
            assert(less[i] == init[i]);
        }
        let d = a.taken_off(node_id, less).0;
        lemma_l0_there(a, d, node_id, less, x);
        lemma_taken_off(a, node_id, less, x);
        let y = init.last();
        assert(a.has_block(init[init.len() - 1]));
        assert(d.has_block(y));
        if !init.contains(x) {
            assert(x != y) by {
                assert(init[init.len() - 1] == y);
            }
            if less.contains(x) {
                let j = choose|j: int| 0 <= j < less.len() && less[j] == x;
                assert(init[j] == x);
            }
        }
    }
}

/// A lost node takes only what was its own: of each known block exactly the copies in its L0
/// are gone, and the answer lists the blocks that had one. Copies elsewhere, in other tiers
/// and in object storage stay.
pub proof fn lost_node_takes_only_its_own(
    a: AuthorityView,
    node_id: Seq<char>,
    x: BlockKeyView,
    l: LocationView,
)
    requires
        a.finite(),
        node_id.len() > 0,
        a.has_block(x),
    ensures
        ({
            let b = a.node_lost(node_id).0;
            let ids = a.node_lost(node_id).1->Ok_0.1;
            &&& b.has_block(x)
            &&& b.block(x).meta.locations.contains(l) <==> a.block(x).meta.locations.contains(l)
                && !(l.tier == Tier::L0.spec_number() && l.node_id == node_id)
            &&& b.block(x).meta.l3_present == a.block(x).meta.l3_present
            &&& ids.contains(
                KvBlockIdView {
                    model_id: x.model_id,
                    revision: x.revision,
                    pool_kind: x.pool_kind,
                    block_hash: x.flat,
                    scope: "public"@,
                },
            ) <==> lies_in(a, x, Tier::L0, node_id)
        }),
{
    let held = if a.node_refs.contains_key(node_id) {
        a.node_refs[node_id]
    } else {
        Map::empty()
    };
    let a0 = AuthorityView { node_refs: a.node_refs.remove(node_id), ..a };
    let list = listing::listing::<BlockKey>(held.dom());
    let a1 = a0.released_all(held, list);
    releasing_keeps_records(a0, held, list);
    assert(a0.pool_at(x.space(), x.pool_kind) is Some);
    assert(a1.pool_at(x.space(), x.pool_kind)->0.by_flat == a.pool_at(
        x.space(),
        x.pool_kind,
    )->0.by_flat);
    assert(a1.finite()) by {
        assert forall|k: (Seq<char>, Seq<char>), pk: i32|
            (#[trigger] a1.pool_at(k, pk)) is Some implies a1.pool_at(
            k,
            pk,
        )->0.by_flat.dom().finite() by {
            assert(a0.pool_at(k, pk) is Some);
            assert(a.pool_at(k, pk) is Some);
        }
    }
    let blocks = a1.all_blocks();
    assert forall|i: int| 0 <= i < blocks.len() implies a1.has_block(#[trigger] blocks[i]) by {
        blocks::all_blocks_known(a1, i);
    }
    blocks::known_blocks_listed(a1, x);
    lemma_taken_off(a1, node_id, blocks, x);
    lemma_taken_off_exactly(a1, node_id, blocks, x, l);
    let b1 = a1.taken_off(node_id, blocks).0;
    listing::listing_lists::<NamespaceKey>(b1.spaces.dom());
    assert forall|i: int| 0 <= i < b1.names().len() implies b1.spaces.contains_key(
        #[trigger] b1.names()[i],
    ) by {
        assert(b1.names().to_set().contains(b1.names()[i]));
    }
    lemma_unmarked(b1, node_id, b1.names(), x.space(), x.pool_kind);
    let b = b1.unmarked_all(node_id, b1.names());
    assert(b1.pool_at(x.space(), x.pool_kind) is Some);
    assert(b.pool_at(x.space(), x.pool_kind)->0.by_flat == b1.pool_at(
        x.space(),
        x.pool_kind,
    )->0.by_flat);
}

/// Some victim is the block, and nothing holds it.
pub open spec fn is_picked(p: PoolView, victims: Seq<Node>, f: Seq<u8>) -> bool {
    exists|i: int|
        0 <= i < victims.len() && !p.holds((#[trigger] victims[i]).seq)
            && p.seq_to_flat.contains_key(victims[i].seq) && p.seq_to_flat[victims[i].seq] == f
}

/// The address under which a block is told of: its own, or the public one of its place.
pub open spec fn told_address(m: BlockMetaView, x: BlockKeyView) -> KvBlockIdView {
    match m.id {
        Some(id) => id,
        None => KvBlockIdView {
            model_id: x.model_id,
            revision: x.revision,
            pool_kind: x.pool_kind,
            block_hash: x.flat,
            scope: "public"@,
        },
    }
}

/// Collecting takes the blocks that leave the inactive index next: of these, one with a
/// durable copy loses its copies in memory and no other, and is listed to be stripped, while
/// one without leaves for good and is listed as gone. A block that is not picked stays as it
/// is.
pub proof fn collection_takes_the_cold(
    a: AuthorityView,
    k: (Seq<char>, Seq<char>),
    raw_kind: i32,
    n: nat,
    x: BlockKeyView,
    l: LocationView,
)
    requires
        n > 0,
        raw_kind == 0 || raw_kind == PoolKind::Target.spec_number() || raw_kind
            == PoolKind::Draft.spec_number(),
        x.model_id == k.0,
        x.revision == k.1,
        x.pool_kind == if raw_kind == 0 {
            PoolKind::Target.spec_number()
        } else {
            raw_kind
        },
        a.has_block(x),
    ensures
        a.collected(k, raw_kind, n).1 is Ok,
        ({
            let p = a.pool_at(x.space(), x.pool_kind)->0;
            let picked = is_picked(p, p.inactive.allocated(n, p.freq).1, x.flat);
            let b = a.collected(k, raw_kind, n).0;
            let (strip, gone) = a.collected(k, raw_kind, n).1->Ok_0;
            let was = a.block(x).meta;
            &&& picked && is_durable(was) ==> {
                &&& b.has_block(x)
                &&& b.block(x).meta.locations.contains(l) <==> was.locations.contains(l) && l.tier
                    != Tier::L0.spec_number() && l.tier != Tier::L1.spec_number()
                &&& b.block(x).meta == (BlockMetaView {
                    locations: b.block(x).meta.locations,
                    ..was
                })
                &&& strip.contains(told_address(was, x))
            }
            &&& picked && !is_durable(was) ==> !b.has_block(x) && gone.contains(
                told_address(was, x),
            )
            &&& !picked ==> b.has_block(x) && b.block(x) == a.block(x)
        }),
{
    let pk = x.pool_kind;
    let p = a.spaces[k].pool(pk)->0;
    let (inactive, victims) = p.inactive.allocated(n, p.freq);
    let p0 = PoolView { inactive, ..p };
    let (q, peels) = reconcile::peeled(p0, k, pk, victims);
    let was = p.by_flat[x.flat].meta;
    assert(a.block(x) == p.by_flat[x.flat]);
    peeling_cools(p0, k, pk, victims);
    lemma_picked(p0, k, pk, victims, x.flat);
    assert(is_picked(p0, victims, x.flat) == is_picked(p, victims, x.flat));
    let (r, gone, flats) = reconcile::cast_off(q, peels);
    reentering_keeps_records(r, peels);
    let f = |l: LocationView|
        l.tier != Tier::L0.spec_number() && l.tier != Tier::L1.spec_number();
    queue::lemma_filter(was.locations, f);
    if is_picked(p, victims, x.flat) {
        let m = choose|m: int| 0 <= m < peels.len() && (#[trigger] peels[m]).flat == x.flat;
        if is_durable(was) {
            assert forall|i: int|
                0 <= i < peels.len() && (#[trigger] peels[i]).flat == x.flat implies peels[i].durable by {
            }
            lemma_cast_off(q, peels, x.flat);
            lemma_stripped(peels, m);
        } else {
            lemma_thrown_out(q, peels, x.flat, m);
        }
    } else {
        lemma_cast_off(q, peels, x.flat);
    }
}

proof fn lemma_picked(p: PoolView, k: (Seq<char>, Seq<char>), pk: i32, victims: Seq<Node>, f: Seq<u8>)
    requires
        p.by_flat.contains_key(f),
    ensures
        ({
            let (q, peels) = reconcile::peeled(p, k, pk, victims);
            let was = p.by_flat[f].meta;
            &&& q.refs == p.refs
            &&& q.seq_to_flat == p.seq_to_flat
            &&& q.by_flat.dom() == p.by_flat.dom()
            &&& forall|i: int|
                0 <= i < peels.len() && (#[trigger] peels[i]).flat == f ==> peels[i].id
                    == pool::id_or(was.id, k.0, k.1, pk, f)
            &&& is_picked(p, victims, f) ==> {
                &&& exists|i: int| 0 <= i < peels.len() && (#[trigger] peels[i]).flat == f
                &&& q.by_flat[f].meta == (BlockMetaView {
                    locations: reconcile::cooled(was.locations),
                    ..was
                })
            }
            &&& !is_picked(p, victims, f) ==> {
                &&& forall|i: int| 0 <= i < peels.len() ==> (#[trigger] peels[i]).flat != f
                &&& q.by_flat[f] == p.by_flat[f]
            }
        }),
    decreases victims.len(),
{
    if victims.len() > 0 {
        let init = victims.drop_last();
        let node = victims.last();
        lemma_picked(p, k, pk, init, f);
        let (q, peels) = reconcile::peeled(p, k, pk, init);
        let (r, peel) = reconcile::peeled_one(q, k, pk, node);
        let all = reconcile::peeled(p, k, pk, victims).1;
        let hit = !p.holds(node.seq) && p.seq_to_flat.contains_key(node.seq)
            && p.seq_to_flat[node.seq] == f;
        assert(q.holds(node.seq) == p.holds(node.seq));
        assert(is_picked(p, victims, f) == (is_picked(p, init, f) || hit)) by {
            if is_picked(p, victims, f) {
                let i = choose|i: int|
                    0 <= i < victims.len() && !p.holds((#[trigger] victims[i]).seq)
                        && p.seq_to_flat.contains_key(victims[i].seq)
                        && p.seq_to_flat[victims[i].seq] == f;
                if i < init.len() {
                    assert(init[i] == victims[i]);
                }
            }
            if is_picked(p, init, f) {
                let i = choose|i: int|
                    0 <= i < init.len() && !p.holds((#[trigger] init[i]).seq)
                        && p.seq_to_flat.contains_key(init[i].seq)
                        && p.seq_to_flat[init[i].seq] == f;
                assert(init[i] == victims[i]);
            }
            if hit {
                assert(victims[victims.len() - 1] == node);
            }
        }
        cooling_keeps_durable(p.by_flat[f].meta.locations);
        if is_picked(p, init, f) {
            let m = choose|m: int| 0 <= m < peels.len() && (#[trigger] peels[m]).flat == f;
            assert(all[m] == peels[m]);
        }
        if hit {
            assert(q.by_flat.contains_key(f));
            assert(reconcile::victim_flat(q, node) == Some(f));
            assert(all[all.len() - 1].flat == f);
        }
        assert(r.by_flat.dom() =~= p.by_flat.dom());
        assert forall|i: int| 0 <= i < all.len() && (#[trigger] all[i]).flat == f implies all[i].id
            == pool::id_or(p.by_flat[f].meta.id, k.0, k.1, pk, f) by {
            if i < peels.len() {
                assert(all[i] == peels[i]);
            }
        }
        if !is_picked(p, victims, f) {
            assert forall|i: int| 0 <= i < all.len() implies (#[trigger] all[i]).flat != f by {
                if i < peels.len() {
                    assert(all[i] == peels[i]);
                }
            }
        }
    }
}

proof fn lemma_stripped(peels: Seq<PeelView>, m: int)
    requires
        0 <= m < peels.len(),
        peels[m].durable,
    ensures
        reconcile::durable_ids(peels).contains(peels[m].id),
    decreases peels.len(),
{
    let ids = reconcile::durable_ids(peels);
    if m == peels.len() - 1 {
        assert(ids[ids.len() - 1] == peels[m].id);
    } else {
        let init = peels.drop_last();
        assert(init[m] == peels[m]);
        lemma_stripped(init, m);
        let before = reconcile::durable_ids(init);
        let i = choose|i: int| 0 <= i < before.len() && before[i] == peels[m].id;
        assert(ids[i] == before[i]);
    }
}

proof fn lemma_thrown_out(p: PoolView, peels: Seq<PeelView>, f: Seq<u8>, m: int)
    requires
        0 <= m < peels.len(),
        peels[m].flat == f,
        p.by_flat.contains_key(f),
        forall|i: int|
            0 <= i < peels.len() && (#[trigger] peels[i]).flat == f ==> !peels[i].durable
                && peels[i].id == peels[m].id,
    ensures
        !reconcile::cast_off(p, peels).0.by_flat.contains_key(f),
        reconcile::cast_off(p, peels).1.contains(peels[m].id),
    decreases peels.len(),
{
    let init = peels.drop_last();
    let (q, ids, flats) = reconcile::cast_off(p, init);
    let (r, all, all_flats) = reconcile::cast_off(p, peels);
    assert(peels[peels.len() - 1] == peels.last());
    if exists|i: int| 0 <= i < init.len() && (#[trigger] init[i]).flat == f {
        let i = choose|i: int| 0 <= i < init.len() && (#[trigger] init[i]).flat == f;
        assert(init[i] == peels[i]);
        assert forall|j: int| 0 <= j < init.len() && (#[trigger] init[j]).flat == f implies
            !init[j].durable && init[j].id == init[i].id by {
            assert(init[j] == peels[j]);
        }
        lemma_thrown_out(p, init, f, i);
        let c = choose|c: int| 0 <= c < ids.len() && ids[c] == peels[m].id;
        assert(all[c] == ids[c]);
    } else {
        assert(m == peels.len() - 1) by {
            if m < peels.len() - 1 {
                assert(init[m] == peels[m]);
            }
        }
        lemma_cast_off(p, init, f);
        assert(all[all.len() - 1] == peels[m].id);
    }
}

/// What collecting lists was picked: an address to strip is that of a picked block with a
/// durable copy, and one that is gone is that of a picked block without.
pub proof fn collected_lists_name_picked_blocks(
    a: AuthorityView,
    k: (Seq<char>, Seq<char>),
    raw_kind: i32,
    n: nat,
    pk: i32,
    id: KvBlockIdView,
)
    requires
        raw_kind == 0 || raw_kind == PoolKind::Target.spec_number() || raw_kind
            == PoolKind::Draft.spec_number(),
        pk == if raw_kind == 0 {
            PoolKind::Target.spec_number()
        } else {
            raw_kind
        },
        a.collected(k, raw_kind, n).1 is Ok,
    ensures
        a.collected(k, raw_kind, n).1->Ok_0.0.contains(id) ==> names_picked(a, k, pk, n, id, true),
        a.collected(k, raw_kind, n).1->Ok_0.1.contains(id) ==> names_picked(a, k, pk, n, id, false),
{
    if n > 0 && a.spaces.contains_key(k) && a.spaces[k].pool(pk) is Some {
        let p = a.spaces[k].pool(pk)->0;
        let (inactive, victims) = p.inactive.allocated(n, p.freq);
        let p0 = PoolView { inactive, ..p };
        let (q, peels) = reconcile::peeled(p0, k, pk, victims);
        peeling_cools(p0, k, pk, victims);
        lemma_listed_peels(q, peels, id);
        let strip = reconcile::durable_ids(peels);
        let gone = reconcile::cast_off(q, peels).1;
        assert(a.pool_at(k, pk) == Some(p));
        if strip.contains(id) {
            let i = choose|i: int|
                0 <= i < peels.len() && (#[trigger] peels[i]).durable == true && peels[i].id == id;
            let f = peels[i].flat;
            lemma_picked(p0, k, pk, victims, f);
            let y = BlockKeyView { model_id: k.0, revision: k.1, pool_kind: pk, flat: f };
            assert(is_picked(p, victims, y.flat)) by {
                assert(is_picked(p0, victims, f) == is_picked(p, victims, f));
            }
            assert(a.has_block(y));
        }
        if gone.contains(id) {
            let i = choose|i: int|
                0 <= i < peels.len() && (#[trigger] peels[i]).durable == false && peels[i].id
                    == id;
            let f = peels[i].flat;
            lemma_picked(p0, k, pk, victims, f);
            let y = BlockKeyView { model_id: k.0, revision: k.1, pool_kind: pk, flat: f };
            assert(is_picked(p, victims, y.flat)) by {
                assert(is_picked(p0, victims, f) == is_picked(p, victims, f));
            }
            assert(a.has_block(y));
        }
    }
}

/// The address is that of a block of the pool that was picked, durable or not.
pub open spec fn names_picked(
    a: AuthorityView,
    k: (Seq<char>, Seq<char>),
    pk: i32,
    n: nat,
    id: KvBlockIdView,
    durable: bool,
) -> bool {
    exists|y: BlockKeyView|
        #![trigger a.has_block(y)]
        a.has_block(y) && y.space() == k && y.pool_kind == pk && is_picked(
            a.pool_at(k, pk)->0,
            a.pool_at(k, pk)->0.inactive.allocated(n, a.pool_at(k, pk)->0.freq).1,
            y.flat,
        ) && is_durable(a.block(y).meta) == durable && told_address(a.block(y).meta, y) == id
}

/// Some peel, durable or not, has the address.
spec fn peel_named(peels: Seq<PeelView>, id: KvBlockIdView, durable: bool) -> bool {
    exists|i: int|
        0 <= i < peels.len() && (#[trigger] peels[i]).durable == durable && peels[i].id == id
}

proof fn lemma_peel_named(peels: Seq<PeelView>, id: KvBlockIdView, durable: bool)
    requires
        peels.len() > 0,
        peel_named(peels.drop_last(), id, durable),
    ensures
        peel_named(peels, id, durable),
{
    let init = peels.drop_last();
    let i = choose|i: int|
        0 <= i < init.len() && (#[trigger] init[i]).durable == durable && init[i].id == id;
    assert(peels[i] == init[i]);
}

proof fn lemma_listed_peels(p: PoolView, peels: Seq<PeelView>, id: KvBlockIdView)
    ensures
        reconcile::durable_ids(peels).contains(id) ==> peel_named(peels, id, true),
        reconcile::cast_off(p, peels).1.contains(id) ==> peel_named(peels, id, false),
    decreases peels.len(),
{
    if peels.len() > 0 {
        let init = peels.drop_last();
        lemma_listed_peels(p, init, id);
        let strip = reconcile::durable_ids(peels);
        let gone = reconcile::cast_off(p, peels).1;
        let strip0 = reconcile::durable_ids(init);
        let gone0 = reconcile::cast_off(p, init).1;
        assert(peels[peels.len() - 1] == peels.last());
        if strip.contains(id) {
            let j = choose|j: int| 0 <= j < strip.len() && strip[j] == id;
            if j < strip0.len() {
                assert(strip0[j] == id);
                lemma_peel_named(peels, id, true);
            }
        }
        if gone.contains(id) {
            let j = choose|j: int| 0 <= j < gone.len() && gone[j] == id;
            if j < gone0.len() {
                assert(gone0[j] == id);
                lemma_peel_named(peels, id, false);
            }
        }
    }
}

/// What is left of a count once a share of it went, never below none.
pub open spec fn lessened(count: i64, share: i64) -> int {
    if count <= 0 || share <= 0 {
        count as int
    } else if share < count {
        count - share
    } else {
        0
    }
}

/// The pool is one of the two that there are.
pub open spec fn known_kind(pool_kind: i32) -> bool {
    pool_kind == PoolKind::Target.spec_number() || pool_kind == PoolKind::Draft.spec_number()
}

/// Two blocks do not share a lineage of one pool.
pub open spec fn counted_apart(a: AuthorityView, x: BlockKeyView, y: BlockKeyView) -> bool {
    a.has_block(x) && a.has_block(y) && x.space() == y.space() && x.pool_kind == y.pool_kind
        ==> a.block(x).seq != a.block(y).seq
}

/// The references to a block.
pub open spec fn counts_of(a: AuthorityView, x: BlockKeyView) -> RefAccounts {
    a.pool_at(x.space(), x.pool_kind)->0.accounts_of(a.block(x).seq)
}

proof fn lemma_released_exactly(
    a: AuthorityView,
    b: BlockKeyView,
    kind: RefKind,
    n: i64,
    x: BlockKeyView,
)
    requires
        a.has_block(x),
        known_kind(b.pool_kind),
        b != x ==> counted_apart(a, x, b),
    ensures
        same_records(a, a.released(b, kind, n)),
        ({
            let was = counts_of(a, x);
            let is = counts_of(a.released(b, kind, n), x);
            if b != x {
                is == was
            } else {
                match kind {
                    RefKind::Request => is.request == lessened(was.request, n) && is.writeback
                        == was.writeback,
                    RefKind::Writeback => is.writeback == lessened(was.writeback, n) && is.request
                        == was.request,
                    _ => true,
                }
            }
        }),
{
    lemma_released(a, b, kind, n);
    assert(addresses(b.id(), b));
    let taken: int = if n < a.refs_to(b, kind) {
        n as int
    } else {
        a.refs_to(b, kind) as int
    };
    references_move_as_reported(
        a,
        b.id(),
        kind.spec_number(),
        -taken,
        Seq::empty(),
        b,
        x,
        Seq::empty(),
    );
    if a.has_block(b) {
        assert(a.ref_target(Some(b.id())) is Ok);
    } else {
        assert(a.refs_to(b, kind) == 0);
    }
}

proof fn lemma_released_all_exactly(
    a: AuthorityView,
    held: Map<BlockKeyView, RefAccounts>,
    blocks: Seq<BlockKeyView>,
    x: BlockKeyView,
)
    requires
        a.has_block(x),
        blocks.no_duplicates(),
        forall|i: int|
            0 <= i < blocks.len() ==> known_kind((#[trigger] blocks[i]).pool_kind) && (blocks[i]
                != x ==> counted_apart(a, x, blocks[i])),
    ensures
        ({
            let was = counts_of(a, x);
            let is = counts_of(a.released_all(held, blocks), x);
            if blocks.contains(x) {
                is.request == lessened(was.request, held[x].request) && is.writeback == lessened(
                    was.writeback,
                    held[x].writeback,
                )
            } else {
                is == was
            }
        }),
    decreases blocks.len(),
{
    if blocks.len() > 0 {
        let init = blocks.drop_last();
        let b = blocks.last();
        assert(blocks[blocks.len() - 1] == b);
        assert forall|i: int| 0 <= i < init.len() implies known_kind(
            (#[trigger] init[i]).pool_kind,
        ) && (init[i] != x ==> counted_apart(a, x, init[i])) by {
            assert(init[i] == blocks[i]);
        }
        lemma_released_all_exactly(a, held, init, x);
        let c = a.released_all(held, init);
        releasing_keeps_records(a, held, init);
        assert(a.pool_at(x.space(), x.pool_kind) is Some);
        assert(c.has_block(x) && c.block(x) == a.block(x));
        assert(b != x ==> counted_apart(c, x, b)) by {
            assert(a.pool_at(b.space(), b.pool_kind) is Some == c.pool_at(
                b.space(),
                b.pool_kind,
            ) is Some);
        }
        lemma_released_exactly(c, b, RefKind::Request, held[b].request, x);
        let d = c.released(b, RefKind::Request, held[b].request);
        assert(c.pool_at(x.space(), x.pool_kind) is Some);
        assert(d.has_block(x) && d.block(x) == c.block(x));
        assert(b != x ==> counted_apart(d, x, b)) by {
            assert(c.pool_at(b.space(), b.pool_kind) is Some == d.pool_at(
                b.space(),
                b.pool_kind,
            ) is Some);
        }
        lemma_released_exactly(d, b, RefKind::Writeback, held[b].writeback, x);
        assert(blocks.contains(x) == (init.contains(x) || b == x)) by {
            if init.contains(x) {
                let j = choose|j: int| 0 <= j < init.len() && init[j] == x;
                assert(blocks[j] == x);
            }
            if blocks.contains(x) {
                let j = choose|j: int| 0 <= j < blocks.len() && blocks[j] == x;
                if j < init.len() {
                    assert(init[j] == x);
                }
            }
        }
        if init.contains(x) {
            let j = choose|j: int| 0 <= j < init.len() && init[j] == x;
            assert(blocks[j] == x);
            assert(b != x);
        }
    }
}

/// The references of a lost node go back: each block has as many fewer of either kind as the
/// node held of it, and never fewer than none; what other nodes hold stays. This is said of
/// blocks that share their lineage with no other block that the node referenced.
pub proof fn lost_node_gives_back_its_references(
    a: AuthorityView,
    node_id: Seq<char>,
    x: BlockKeyView,
    other: Seq<char>,
    y: BlockKeyView,
)
    requires
        a.finite(),
        node_id.len() > 0,
        a.has_block(x),
        other != node_id,
        a.node_refs.contains_key(node_id) ==> a.node_refs[node_id].dom().finite(),
        forall|z: BlockKeyView|
            a.node_refs.contains_key(node_id) && #[trigger] a.node_refs[node_id].contains_key(z)
                ==> known_kind(z.pool_kind) && (z != x ==> counted_apart(a, x, z)),
    ensures
        ({
            let b = a.node_lost(node_id).0;
            let was = counts_of(a, x);
            let is = counts_of(b, x);
            let share = a.node_accounts(node_id, x);
            &&& is.request == lessened(was.request, share.request)
            &&& is.writeback == lessened(was.writeback, share.writeback)
            &&& b.node_accounts(other, y) == a.node_accounts(other, y)
        }),
{
    let held = if a.node_refs.contains_key(node_id) {
        a.node_refs[node_id]
    } else {
        Map::empty()
    };
    let a0 = AuthorityView { node_refs: a.node_refs.remove(node_id), ..a };
    let list = listing::listing::<BlockKey>(held.dom());
    listing::listing_lists::<BlockKey>(held.dom());
    assert forall|i: int| 0 <= i < list.len() implies known_kind((#[trigger] list[i]).pool_kind)
        && (list[i] != x ==> counted_apart(a0, x, list[i])) by {
        assert(list.to_set().contains(list[i]));
        assert(held.contains_key(list[i]));
        assert(a.node_refs[node_id].contains_key(list[i]));
        assert(counted_apart(a, x, list[i]) == counted_apart(a0, x, list[i]));
    }
    lemma_released_all_exactly(a0, held, list, x);
    assert(list.contains(x) == held.contains_key(x)) by {
        assert(list.to_set().contains(x) == held.dom().contains(x));
    }
    let a1 = a0.released_all(held, list);
    lemma_rest_of_loss(a, a1, held, node_id, x);
}

proof fn lemma_rest_of_loss(
    a: AuthorityView,
    a1: AuthorityView,
    held: Map<BlockKeyView, RefAccounts>,
    node_id: Seq<char>,
    x: BlockKeyView,
)
    requires
        a.finite(),
        node_id.len() > 0,
        a.has_block(x),
        held == if a.node_refs.contains_key(node_id) {
            a.node_refs[node_id]
        } else {
            Map::empty()
        },
        a1 == (AuthorityView { node_refs: a.node_refs.remove(node_id), ..a }).released_all(
            held,
            listing::listing::<BlockKey>(held.dom()),
        ),
    ensures
        counts_of(a.node_lost(node_id).0, x) == counts_of(a1, x),
        a.node_lost(node_id).0.node_refs == a.node_refs.remove(node_id),
{
    let a0 = AuthorityView { node_refs: a.node_refs.remove(node_id), ..a };
    let list = listing::listing::<BlockKey>(held.dom());
    releasing_keeps_records(a0, held, list);
    assert(a0.pool_at(x.space(), x.pool_kind) is Some);
    assert(a1.has_block(x) && a1.block(x) == a.block(x));
    assert(a1.finite()) by {
        assert forall|k: (Seq<char>, Seq<char>), pk: i32|
            (#[trigger] a1.pool_at(k, pk)) is Some implies a1.pool_at(
            k,
            pk,
        )->0.by_flat.dom().finite() by {
            assert(a0.pool_at(k, pk) is Some);
            assert(a.pool_at(k, pk) is Some);
        }
    }
    let blocks = a1.all_blocks();
    assert forall|i: int| 0 <= i < blocks.len() implies a1.has_block(#[trigger] blocks[i]) by {
        blocks::all_blocks_known(a1, i);
    }
    let l = a.block(x).meta.locations[0];
    lemma_taken_off(a1, node_id, blocks, x);
    lemma_taken_off_exactly(a1, node_id, blocks, x, l);
    let b1 = a1.taken_off(node_id, blocks).0;
    listing::listing_lists::<NamespaceKey>(b1.spaces.dom());
    assert forall|i: int| 0 <= i < b1.names().len() implies b1.spaces.contains_key(
        #[trigger] b1.names()[i],
    ) by {
        assert(b1.names().to_set().contains(b1.names()[i]));
    }
    lemma_unmarked(b1, node_id, b1.names(), x.space(), x.pool_kind);
    lemma_unmarked_refs(b1, node_id, b1.names(), x.space(), x.pool_kind);
    let b = b1.unmarked_all(node_id, b1.names());
    assert(b1.pool_at(x.space(), x.pool_kind) is Some);
    assert(b.pool_at(x.space(), x.pool_kind)->0.by_flat == b1.pool_at(
        x.space(),
        x.pool_kind,
    )->0.by_flat);
}

proof fn lemma_unmarked_refs(
    a: AuthorityView,
    node_id: Seq<char>,
    names: Seq<(Seq<char>, Seq<char>)>,
    k: (Seq<char>, Seq<char>),
    pk: i32,
)
    requires
        forall|i: int| 0 <= i < names.len() ==> a.spaces.contains_key(#[trigger] names[i]),
        a.pool_at(k, pk) is Some,
    ensures
        a.unmarked_all(node_id, names).pool_at(k, pk) is Some,
        a.unmarked_all(node_id, names).pool_at(k, pk)->0.refs == a.pool_at(k, pk)->0.refs,
    decreases names.len(),
{
    if names.len() > 0 {
        let before = names.drop_last();
        assert forall|i: int| 0 <= i < before.len() implies a.spaces.contains_key(
            #[trigger] before[i],
        ) by {
            assert(before[i] == names[i]);
        }
        lemma_unmarked_refs(a, node_id, before, k, pk);
    }
}

/// A request that is done on a node is on record as such, and no other record changes; it
/// takes both names.
pub proof fn done_requests_are_on_record(
    a: AuthorityView,
    request_id: Seq<char>,
    node_id: Seq<char>,
    other: Seq<char>,
)
    ensures
        ({
            let (b, r) = a.barrier_set(request_id, node_id);
            &&& r is Ok <==> request_id.len() > 0 && node_id.len() > 0
            &&& r is Ok ==> b.barriers.contains_key(request_id) && b.barriers[request_id] == node_id
            &&& r is Err ==> b == a
            &&& other != request_id ==> b.barriers.contains_key(other) == a.barriers.contains_key(
                other,
            ) && b.barriers[other] == a.barriers[other]
            &&& b.spaces == a.spaces && b.log == a.log && b.pending == a.pending
        }),
{
}

/// Asking for blocks counts each of them once more, up to the most that is counted, and no
/// other block, as long as counts need not be halved.
proof fn lemma_asked_for(counts: FrequencyView, seqs: Seq<SequenceHash>, s: SequenceHash)
    requires
        counts.asked + seqs.len() < inactive::AGE_AFTER,
        inactive::count_of(counts, s) <= inactive::MAX_COUNT,
    ensures
        ({
            let after = locations::touched_all(counts, seqs);
            &&& after.asked == counts.asked + seqs.len()
            &&& inactive::count_of(after, s) <= inactive::MAX_COUNT
            &&& !seqs.contains(s) ==> inactive::count_of(after, s) == inactive::count_of(counts, s)
            &&& inactive::count_of(after, s) >= inactive::count_of(counts, s)
            &&& seqs.contains(s) ==> inactive::count_of(after, s) > inactive::count_of(counts, s)
                || inactive::count_of(after, s) == inactive::MAX_COUNT
            &&& seqs.no_duplicates() ==> inactive::count_of(after, s) <= inactive::count_of(
                counts,
                s,
            ) + 1
        }),
    decreases seqs.len(),
{
    if seqs.len() > 0 {
        let init = seqs.drop_last();
        lemma_asked_for(counts, init, s);
        assert(seqs[seqs.len() - 1] == seqs.last());
        if init.contains(s) {
            let i = choose|i: int| 0 <= i < init.len() && init[i] == s;
            assert(seqs[i] == s);
        }
        if seqs.contains(s) {
            let i = choose|i: int| 0 <= i < seqs.len() && seqs[i] == s;
            if i < init.len() {
                assert(init[i] == s);
            }
        }
    }
}

/// A lookup counts what it found, and nothing else: each block of the front that is there is
/// asked for once more, up to the most that is counted, as long as counts need not be halved.
/// It changes nothing but counts.
pub proof fn lookups_count_what_they_find(
    a: AuthorityView,
    k: (Seq<char>, Seq<char>),
    pk: i32,
    prefix: Seq<Seq<u8>>,
    requester: Seq<char>,
    s: SequenceHash,
)
    requires
        known_kind(pk),
        a.pool_at(k, pk) is Some,
        prefix.len() > 0,
        a.pool_at(k, pk)->0.freq.asked + prefix.len() < inactive::AGE_AFTER,
        inactive::count_of(a.pool_at(k, pk)->0.freq, s) <= inactive::MAX_COUNT,
    ensures
        ({
            let n = a.lookup(k, pk, prefix, requester).1;
            let front = hash_chain::lineage(prefix).take(n as int);
            let p = a.pool_at(k, pk)->0;
            let q = a.looked_up(k, pk, prefix).pool_at(k, pk)->0;
            let before = inactive::count_of(p.freq, s);
            let after = inactive::count_of(q.freq, s);
            &&& front.contains(s) ==> after > before || after == inactive::MAX_COUNT
            &&& !front.contains(s) ==> after == before
            &&& front.no_duplicates() ==> after <= before + 1
            &&& after >= before
            &&& q == (PoolView { freq: q.freq, ..p })
        }),
{
    let p = a.pool_at(k, pk)->0;
    let n = locations::run_from(p, prefix, 0);
    lemma_run_fits(p, prefix, 0);
    lemma_asked_for(p.freq, hash_chain::lineage(prefix).take(n as int), s);
}

proof fn lemma_run_fits(p: PoolView, prefix: Seq<Seq<u8>>, i: int)
    requires
        0 <= i <= prefix.len(),
    ensures
        locations::run_from(p, prefix, i) <= prefix.len() - i,
    decreases prefix.len() - i,
{
    if i < prefix.len() {
        lemma_run_fits(p, prefix, i + 1);
    }
}

/// Reconciling is reporting, sweeping, giving up a dead node where one is named, and
/// collecting where that is asked for, one after the other: what was swept or left for good is
/// listed as discarded, and what only left memory as stripped.
pub proof fn reconciling_does_all_its_parts(
    a: AuthorityView,
    req: ReconcileOrphansRequestView,
    id: KvBlockIdView,
)
    ensures
        ({
            let (b, swept) = a.orphans_reported(req.reports).orphans_swept(req.orphan_ttl_ms);
            let c = if req.dead_node_id.len() > 0 {
                b.node_lost(req.dead_node_id).0
            } else {
                b
            };
            let asked = req.gc_cold_limit > 0 && req.gc_model_id.len() > 0;
            let (d, r) = c.collected(
                (req.gc_model_id, req.gc_revision),
                req.gc_pool_kind,
                req.gc_cold_limit as nat,
            );
            let (e, answer) = a.reconciled(req);
            &&& !asked ==> e == c && answer is Ok
            &&& asked ==> e == d && (answer is Ok <==> r is Ok)
            &&& answer is Ok ==> answer->Ok_0.ok && answer->Ok_0.err.len() == 0
            &&& answer is Ok ==> (answer->Ok_0.discarded.contains(id) <==> swept.contains(id) || (
            asked && r->Ok_0.1.contains(id)))
            &&& answer is Ok ==> (answer->Ok_0.cold_stripped.contains(id) <==> asked
                && r->Ok_0.0.contains(id))
            &&& answer is Ok && req.dead_node_id.len() == 0 ==> answer->Ok_0.refs_cleared == 0
        }),
{
    let (b, swept) = a.orphans_reported(req.reports).orphans_swept(req.orphan_ttl_ms);
    let c = if req.dead_node_id.len() > 0 {
        b.node_lost(req.dead_node_id).0
    } else {
        b
    };
    let r = c.collected(
        (req.gc_model_id, req.gc_revision),
        req.gc_pool_kind,
        req.gc_cold_limit as nat,
    ).1;
    if r is Ok {
        let gone = r->Ok_0.1;
        let all = swept + gone;
        if swept.contains(id) {
            let i = choose|i: int| 0 <= i < swept.len() && swept[i] == id;
            assert(all[i] == id);
        }
        if gone.contains(id) {
            let i = choose|i: int| 0 <= i < gone.len() && gone[i] == id;
            assert(all[swept.len() + i] == id);
        }
        if all.contains(id) {
            let i = choose|i: int| 0 <= i < all.len() && all[i] == id;
            if i < swept.len() {
                assert(swept[i] == id);
            } else {
                assert(gone[i - swept.len()] == id);
            }
        }
    }
}

} // verus!
