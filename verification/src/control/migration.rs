//! Nodes that join, drain and leave: who owns which block from then on, and what
//! has to move for it.

use vstd::prelude::*;
use vstd::string::*;

use crate::base::keys;
use crate::base::keys::{Dup, Key};
use crate::base::order;
use crate::base::order::{bytes_leq, sort_ranked, Ranked};
use crate::base::text;
use crate::base::text::{decimal_text, joined, text};
use crate::control::authority::{Authority, AuthorityView};
use crate::control::namespace::{BlockKey, BlockKeyView};
use crate::control::pool::id_or_public;
use crate::control::shard;
use crate::control::shard::{Nodes, ShardRing};
use crate::control::tier;
use crate::control::tier::has_tier_on;
use crate::proto::{
    KvBlockId, KvBlockIdView, Location, LocationView, ShardMap, ShardMigration, ShardMigrationView,
    Tier,
};

verus! {

/// A block with its address.
pub struct Keyed {
    pub key: BlockKey,
    pub id: KvBlockId,
}

/// What a keyed block stands for.
#[verifier::ext_equal]
pub struct KeyedView {
    pub key: BlockKeyView,
    pub id: KvBlockIdView,
}

impl View for Keyed {
    type V = KeyedView;

    open spec fn view(&self) -> KeyedView {
        KeyedView { key: self.key@, id: self.id@ }
    }
}

impl Ranked for Keyed {
    open spec fn ranks(a: KeyedView, b: KeyedView) -> bool {
        order::bytes_le(a.key.flat, b.key.flat)
    }

    fn leq(&self, other: &Self) -> (le: bool) {
        bytes_leq(self.key.flat.as_slice(), other.key.flat.as_slice())
    }
}

/// The hash of what migrates.
pub open spec fn hash_moved(m: ShardMigrationView) -> Seq<u8> {
    match m.id {
        Some(id) => id.block_hash,
        None => Seq::empty(),
    }
}

impl Ranked for ShardMigration {
    open spec fn ranks(a: ShardMigrationView, b: ShardMigrationView) -> bool {
        a.id is None || (b.id is Some && order::bytes_le(hash_moved(a), hash_moved(b)))
    }

    fn leq(&self, other: &Self) -> (le: bool) {
        match (&self.id, &other.id) {
            (None, _) => true,
            (Some(_), None) => false,
            (Some(a), Some(b)) => bytes_leq(a.block_hash.as_slice(), b.block_hash.as_slice()),
        }
    }
}

impl Ranked for KvBlockId {
    open spec fn ranks(a: KvBlockIdView, b: KvBlockIdView) -> bool {
        order::bytes_le(a.block_hash, b.block_hash)
    }

    fn leq(&self, other: &Self) -> (le: bool) {
        bytes_leq(self.block_hash.as_slice(), other.block_hash.as_slice())
    }
}

/// Two addresses name the same block.
pub open spec fn same_block(a: KvBlockIdView, b: KvBlockIdView) -> bool {
    a.model_id == b.model_id && a.revision == b.revision && a.pool_kind == b.pool_kind
        && a.block_hash == b.block_hash
}

/// The block is among some.
pub open spec fn listed_in(ids: Seq<KvBlockIdView>, id: KvBlockIdView) -> bool {
    exists|i: int| 0 <= i < ids.len() && same_block(#[trigger] ids[i], id)
}

/// The blocks that a node takes over.
pub open spec fn taken_over(before: Nodes, after: Nodes, node_id: Seq<char>, ks: Seq<KeyedView>) -> Seq<
    ShardMigrationView,
>
    decreases ks.len(),
{
    if ks.len() == 0 {
        Seq::empty()
    } else {
        let rest = taken_over(before, after, node_id, ks.drop_last());
        let x = ks.last();
        match shard::owner(before, x.key.flat) {
            Some(from) => if shard::owner(after, x.key.flat) == Some(node_id) && from != node_id {
                rest.push(
                    ShardMigrationView {
                        id: Some(x.id),
                        from_node: from,
                        to_node: node_id,
                        push_l2_first: false,
                    },
                )
            } else {
                rest
            },
            None => rest,
        }
    }
}

/// The blocks that a node gives up, and where they go.
pub open spec fn given_up(before: Nodes, after: Nodes, node_id: Seq<char>, ks: Seq<KeyedView>) -> (
    Seq<ShardMigrationView>,
    Seq<KvBlockIdView>,
)
    decreases ks.len(),
{
    if ks.len() == 0 {
        (Seq::empty(), Seq::empty())
    } else {
        let (moves, push) = given_up(before, after, node_id, ks.drop_last());
        let x = ks.last();
        if shard::owner(before, x.key.flat) == Some(node_id) && !listed_in(push, x.id) {
            (
                match shard::owner(after, x.key.flat) {
                    Some(to) => if to != node_id {
                        moves.push(
                            ShardMigrationView {
                                id: Some(x.id),
                                from_node: node_id,
                                to_node: to,
                                push_l2_first: true,
                            },
                        )
                    } else {
                        moves
                    },
                    None => moves,
                },
                push.push(x.id),
            )
        } else {
            (moves, push)
        }
    }
}

/// Some copy is on the node.
pub open spec fn on_node(locations: Seq<LocationView>, node_id: Seq<char>) -> bool {
    exists|i: int| 0 <= i < locations.len() && (#[trigger] locations[i]).node_id == node_id
}

impl AuthorityView {
    /// Every block with its address, by hash.
    pub open spec fn keyed_blocks(self) -> Seq<KeyedView> {
        order::ranked::<Keyed>(
            self.all_blocks().map_values(
                |b: BlockKeyView| KeyedView { key: b, id: self.block_id(b) },
            ),
        )
    }

    /// The blocks to push, with those that sit in L2 of a node.
    pub open spec fn also_pushed(
        self,
        node_id: Seq<char>,
        blocks: Seq<BlockKeyView>,
        push: Seq<KvBlockIdView>,
    ) -> Seq<KvBlockIdView>
        decreases blocks.len(),
    {
        if blocks.len() == 0 {
            push
        } else {
            let rest = self.also_pushed(node_id, blocks.drop_last(), push);
            let b = blocks.last();
            if tier::on_tier_of(self.block(b).meta.locations, Tier::L2, node_id) && !listed_in(
                rest,
                self.block_id(b),
            ) {
                rest.push(self.block_id(b))
            } else {
                rest
            }
        }
    }

    /// How many of some blocks have a copy on a node.
    pub open spec fn placed_on(self, node_id: Seq<char>, blocks: Seq<BlockKeyView>) -> nat
        decreases blocks.len(),
    {
        if blocks.len() == 0 {
            0
        } else {
            let rest = self.placed_on(node_id, blocks.drop_last());
            if on_node(self.block(blocks.last()).meta.locations, node_id) {
                rest + 1
            } else {
                rest
            }
        }
    }

    /// The node owns a block.
    pub open spec fn owns_some(self, node_id: Seq<char>) -> bool {
        exists|i: int|
            0 <= i < self.all_blocks().len() && shard::owner(
                self.shard.nodes,
                (#[trigger] self.all_blocks()[i]).flat,
            ) == Some(node_id)
    }

    /// A node joins; with what it takes over.
    pub open spec fn node_joined(self, node_id: Seq<char>, vnode_count: u32) -> (
        AuthorityView,
        Result<Seq<ShardMigrationView>, Seq<char>>,
    ) {
        let (ring, r) = self.shard.joined(node_id, vnode_count);
        match r {
            Err(e) => (self, Err(e)),
            Ok(_) => (
                AuthorityView { shard: ring, ..self },
                Ok(
                    order::ranked::<ShardMigration>(
                        taken_over(self.shard.nodes, ring.nodes, node_id, self.keyed_blocks()),
                    ),
                ),
            ),
        }
    }

    /// A node drains; with what it gives up and what it has to push.
    pub open spec fn node_drained(self, node_id: Seq<char>) -> (
        AuthorityView,
        Result<(Seq<ShardMigrationView>, Seq<KvBlockIdView>), Seq<char>>,
    ) {
        let (ring, r) = self.shard.drained(node_id);
        match r {
            Err(e) => (self, Err(e)),
            Ok(_) => {
                let (moves, push) = given_up(
                    self.shard.nodes,
                    ring.nodes,
                    node_id,
                    self.keyed_blocks(),
                );
                (
                    AuthorityView { shard: ring, ..self },
                    Ok(
                        (
                            order::ranked::<ShardMigration>(moves),
                            order::ranked::<KvBlockId>(
                                self.also_pushed(node_id, self.all_blocks(), push),
                            ),
                        ),
                    ),
                )
            },
        }
    }

    /// A drained node leaves, once nothing is left on it.
    pub open spec fn node_removed(self, node_id: Seq<char>) -> (
        AuthorityView,
        Result<(), Seq<char>>,
    ) {
        let n = self.placed_on(node_id, self.all_blocks());
        if n > 0 {
            (
                self,
                Err(
                    "remove: node "@ + node_id + " still has "@ + text::decimal(n)
                        + " placement(s) in location view; complete migration/push_l2 first"@,
                ),
            )
        } else if self.owns_some(node_id) {
            (
                self,
                Err("remove: node "@ + node_id + " still owns blocks; drain incomplete"@),
            )
        } else {
            let (ring, r) = self.shard.left(node_id);
            (AuthorityView { shard: ring, ..self }, r)
        }
    }
}

fn is_listed(ids: &Vec<KvBlockId>, id: &KvBlockId) -> (b: bool)
    ensures
        b == listed_in(keys::views(ids@), id@),
{
    let ghost all = keys::views(ids@);
    let mut i: usize = 0;
    while i < ids.len()
        invariant
            i <= ids@.len() == all.len(),
            all == keys::views(ids@),
            forall|j: int| 0 <= j < i ==> !same_block(#[trigger] all[j], id@),
        decreases ids@.len() - i,
    {
        let x = &ids[i];
        assert(all[i as int] == x@);
        if x.model_id.same(&id.model_id) && x.revision.same(&id.revision) && x.pool_kind
            == id.pool_kind && x.block_hash.same(&id.block_hash) {
            return true;
        }
        i += 1;
    }
    false
}

fn has_node(locations: &Vec<Location>, node_id: &String) -> (b: bool)
    ensures
        b == on_node(keys::views(locations@), node_id@),
{
    let ghost all = keys::views(locations@);
    let mut i: usize = 0;
    while i < locations.len()
        invariant
            i <= locations@.len() == all.len(),
            all == keys::views(locations@),
            forall|j: int| 0 <= j < i ==> (#[trigger] all[j]).node_id != node_id@,
        decreases locations@.len() - i,
    {
        assert(all[i as int] == locations@[i as int]@);
        if locations[i].node_id.same(node_id) {
            return true;
        }
        i += 1;
    }
    false
}

/// Tells whether an owner is the node.
fn is_node(o: &Option<String>, node_id: &String) -> (b: bool)
    ensures
        b == (keys::opt(*o) == Some(node_id@)),
{
    match o {
        Some(n) => n.same(node_id),
        None => false,
    }
}

/// The owners of blocks.
fn owners_of(ring: &ShardRing, ks: &Vec<Keyed>) -> (r: Vec<Option<String>>)
    requires
        ring.wf(),
    ensures
        r@.len() == ks@.len(),
        forall|i: int|
            0 <= i < r@.len() ==> keys::opt(#[trigger] r@[i]) == shard::owner(
                ring@.nodes,
                keys::views(ks@)[i].key.flat,
            ),
{
    let mut r: Vec<Option<String>> = Vec::with_capacity(ks.len());
    let mut i: usize = 0;
    while i < ks.len()
        invariant
            i <= ks@.len(),
            ring.wf(),
            r@.len() == i,
            forall|j: int|
                0 <= j < i ==> keys::opt(#[trigger] r@[j]) == shard::owner(
                    ring@.nodes,
                    keys::views(ks@)[j].key.flat,
                ),
        decreases ks@.len() - i,
    {
        r.push(ring.owner_of(ks[i].key.flat.as_slice()));
        i += 1;
    }
    r
}

/// Collects what a node takes over.
fn collect_taken(
    before: &Vec<Option<String>>,
    after: &ShardRing,
    node_id: &String,
    ks: &Vec<Keyed>,
    Ghost(nodes): Ghost<Nodes>,
) -> (r: Vec<ShardMigration>)
    requires
        after.wf(),
        before@.len() == ks@.len(),
        forall|i: int|
            0 <= i < before@.len() ==> keys::opt(#[trigger] before@[i]) == shard::owner(
                nodes,
                keys::views(ks@)[i].key.flat,
            ),
    ensures
        keys::views(r@) == taken_over(nodes, after@.nodes, node_id@, keys::views(ks@)),
{
    let ghost all = keys::views(ks@);
    let mut r: Vec<ShardMigration> = Vec::new();
    let mut i: usize = 0;
    assert(all.take(0) =~= Seq::empty());
    assert(keys::views(r@) =~= Seq::empty());
    while i < ks.len()
        invariant
            i <= ks@.len() == all.len() == before@.len(),
            all == keys::views(ks@),
            after.wf(),
            forall|i: int|
                0 <= i < before@.len() ==> keys::opt(#[trigger] before@[i]) == shard::owner(
                    nodes,
                    all[i].key.flat,
                ),
            keys::views(r@) == taken_over(nodes, after@.nodes, node_id@, all.take(i as int)),
        decreases ks@.len() - i,
    {
        let x = &ks[i];
        proof {
            assert(all.take(i + 1).drop_last() =~= all.take(i as int));
            assert(all[i as int] == x@);
            assert(keys::opt(before@[i as int]) == shard::owner(nodes, x@.key.flat));
        }
        if let Some(from) = &before[i] {
            let new = after.owner_of(x.key.flat.as_slice());
            if is_node(&new, node_id) && !from.same(node_id) {
                let ghost sofar = keys::views(r@);
                let m = ShardMigration {
                    id: Some(x.id.dup()),
                    from_node: from.dup(),
                    to_node: node_id.dup(),
                    push_l2_first: false,
                };
                let ghost v = m@;
                r.push(m);
                assert(keys::views(r@) =~= sofar.push(v));
            }
        }
        i += 1;
    }
    assert(all.take(i as int) =~= all);
    r
}

/// Collects what a node gives up, and where it goes.
fn collect_given(
    before: &Vec<Option<String>>,
    after: &ShardRing,
    node_id: &String,
    ks: &Vec<Keyed>,
    Ghost(nodes): Ghost<Nodes>,
) -> (r: (Vec<ShardMigration>, Vec<KvBlockId>))
    requires
        after.wf(),
        before@.len() == ks@.len(),
        forall|i: int|
            0 <= i < before@.len() ==> keys::opt(#[trigger] before@[i]) == shard::owner(
                nodes,
                keys::views(ks@)[i].key.flat,
            ),
    ensures
        keys::views(r.0@) == given_up(nodes, after@.nodes, node_id@, keys::views(ks@)).0,
        keys::views(r.1@) == given_up(nodes, after@.nodes, node_id@, keys::views(ks@)).1,
{
    let ghost all = keys::views(ks@);
    let mut moves: Vec<ShardMigration> = Vec::new();
    let mut push: Vec<KvBlockId> = Vec::new();
    let mut i: usize = 0;
    assert(all.take(0) =~= Seq::empty());
    assert(keys::views(moves@) =~= Seq::empty());
    assert(keys::views(push@) =~= Seq::empty());
    while i < ks.len()
        invariant
            i <= ks@.len() == all.len() == before@.len(),
            all == keys::views(ks@),
            after.wf(),
            forall|i: int|
                0 <= i < before@.len() ==> keys::opt(#[trigger] before@[i]) == shard::owner(
                    nodes,
                    all[i].key.flat,
                ),
            keys::views(moves@) == given_up(nodes, after@.nodes, node_id@, all.take(i as int)).0,
            keys::views(push@) == given_up(nodes, after@.nodes, node_id@, all.take(i as int)).1,
        decreases ks@.len() - i,
    {
        let x = &ks[i];
        proof {
            assert(all.take(i + 1).drop_last() =~= all.take(i as int));
            assert(all[i as int] == x@);
            assert(keys::opt(before@[i as int]) == shard::owner(nodes, x@.key.flat));
        }
        if is_node(&before[i], node_id) && !is_listed(&push, &x.id) {
            let ghost (a, b) = (keys::views(moves@), keys::views(push@));
            if let Some(to) = after.owner_of(x.key.flat.as_slice()) {
                if !to.same(node_id) {
                    let m = ShardMigration {
                        id: Some(x.id.dup()),
                        from_node: node_id.dup(),
                        to_node: to,
                        push_l2_first: true,
                    };
                    let ghost v = m@;
                    moves.push(m);
                    assert(keys::views(moves@) =~= a.push(v));
                }
            }
            push.push(x.id.dup());
            assert(keys::views(push@) =~= b.push(x@.id));
        }
        i += 1;
    }
    assert(all.take(i as int) =~= all);
    (moves, push)
}

impl Authority {
    /// The ring as published.
    pub fn shard_map(&self) -> (map: ShardMap)
        ensures
            shard::publishes(map@, self@.shard),
    {
        self.shard.to_proto()
    }

    /// The node that owns a block.
    pub fn shard_owner(&self, block_hash: &[u8]) -> (r: Option<String>)
        requires
            self.wf(),
        ensures
            keys::opt(r) == shard::owner(self@.shard.nodes, block_hash@),
    {
        self.shard.owner_of(block_hash)
    }

    /// Every block with its address, by hash.
    fn all_block_keys(&self) -> (r: Vec<Keyed>)
        ensures
            keys::views(r@) == self@.keyed_blocks(),
    {
        let listed = self.block_keys();
        let ghost keys = keys::views(listed@);
        let ghost goal = keys.map_values(
            |b: BlockKeyView| KeyedView { key: b, id: self@.block_id(b) },
        );
        let mut r: Vec<Keyed> = Vec::new();
        let mut i: usize = 0;
        assert(keys::views(r@) =~= goal.take(0));
        while i < listed.len()
            invariant
                i <= listed@.len() == keys.len() == goal.len(),
                keys == keys::views(listed@),
                forall|i: int| 0 <= i < listed@.len() ==> self@.has_block((#[trigger] keys[i])),
                goal == keys.map_values(
                    |b: BlockKeyView| KeyedView { key: b, id: self@.block_id(b) },
                ),
                keys::views(r@) == goal.take(i as int),
            decreases listed@.len() - i,
        {
            let b = &listed[i];
            assert(keys[i as int] == b@);
            if let Some(e) = self.entry_by(b) {
                let ghost before = keys::views(r@);
                let x = Keyed {
                    key: b.dup(),
                    id: id_or_public(
                        &e.meta.id,
                        b.model_id.as_str(),
                        b.revision.as_str(),
                        b.pool_kind,
                        &b.flat,
                    ),
                };
                assert(x@ == goal[i as int]);
                r.push(x);
                assert(keys::views(r@) =~= before.push(goal[i as int]));
                assert(goal.take(i + 1) =~= before.push(goal[i as int]));
            }
            i += 1;
        }
        assert(goal.take(i as int) =~= goal);
        sort_ranked(r)
    }

    /// Has a node join; returns the ring and the blocks that it takes over.
    pub fn join_shard_node(&mut self, node_id: &str, vnode_count: u32) -> (r: Result<
        (ShardMap, Vec<ShardMigration>),
        String,
    >)
        requires
            old(self).wf(),
        ensures
            final(self)@ == old(self)@.node_joined(node_id@, vnode_count).0,
            match r {
                Ok((map, moves)) => shard::publishes(map@, final(self)@.shard) && old(self)@.node_joined(
                    node_id@,
                    vnode_count,
                ).1 == Ok::<Seq<ShardMigrationView>, Seq<char>>(keys::views(moves@)),
                Err(e) => old(self)@.node_joined(node_id@, vnode_count).1 == Err::<
                    Seq<ShardMigrationView>,
                    Seq<char>,
                >(e@),
            },
            final(self).wf(),
    {
        let ks = self.all_block_keys();
        let before = owners_of(&self.shard, &ks);
        let ghost nodes = self@.shard.nodes;
        if let Err(e) = self.shard.join(node_id, vnode_count) {
            assert(self@ =~= old(self)@);
            return Err(e);
        }
        let moves = collect_taken(&before, &self.shard, &text(node_id), &ks, Ghost(nodes));
        assert(self@ =~= old(self)@.node_joined(node_id@, vnode_count).0);
        Ok((self.shard.to_proto(), sort_ranked(moves)))
    }

    /// Adds the blocks that sit in L2 of a node to those to push.
    fn push_l2_on(&self, node_id: &str, push: Vec<KvBlockId>) -> (r: Vec<KvBlockId>)
        ensures
            keys::views(r@) == self@.also_pushed(node_id@, self@.all_blocks(), keys::views(push@)),
    {
        let listed = self.block_keys();
        let ghost all = keys::views(listed@);
        let ghost start = keys::views(push@);
        let mut r = push;
        let mut i: usize = 0;
        assert(all.take(0) =~= Seq::empty());
        while i < listed.len()
            invariant
                i <= listed@.len() == all.len(),
                all == keys::views(listed@),
                forall|i: int| 0 <= i < listed@.len() ==> self@.has_block((#[trigger] all[i])),
                keys::views(r@) == self@.also_pushed(node_id@, all.take(i as int), start),
            decreases listed@.len() - i,
        {
            let b = &listed[i];
            proof {
                assert(all.take(i + 1).drop_last() =~= all.take(i as int));
                assert(all[i as int] == b@);
            }
            if let Some(e) = self.entry_by(b) {
                if has_tier_on(&e.meta.locations, Tier::L2, node_id) {
                    let id = id_or_public(
                        &e.meta.id,
                        b.model_id.as_str(),
                        b.revision.as_str(),
                        b.pool_kind,
                        &b.flat,
                    );
                    let ghost v = id@;
                    let ghost sofar = keys::views(r@);
                    if !is_listed(&r, &id) {
                        r.push(id);
                        assert(keys::views(r@) =~= sofar.push(v));
                    }
                }
            }
            i += 1;
        }
        assert(all.take(i as int) =~= all);
        r
    }

    /// Has a node drain; returns the ring, the blocks that it gives up, and those
    /// that it has to push to L2 elsewhere.
    pub fn drain_shard_node(&mut self, node_id: &str) -> (r: Result<
        (ShardMap, Vec<ShardMigration>, Vec<KvBlockId>),
        String,
    >)
        requires
            old(self).wf(),
        ensures
            final(self)@ == old(self)@.node_drained(node_id@).0,
            match r {
                Ok((map, moves, push)) => shard::publishes(map@, final(self)@.shard) && old(
                    self,
                )@.node_drained(node_id@).1 == Ok::<
                    (Seq<ShardMigrationView>, Seq<KvBlockIdView>),
                    Seq<char>,
                >((keys::views(moves@), keys::views(push@))),
                Err(e) => old(self)@.node_drained(node_id@).1 == Err::<
                    (Seq<ShardMigrationView>, Seq<KvBlockIdView>),
                    Seq<char>,
                >(e@),
            },
            final(self).wf(),
    {
        let ks = self.all_block_keys();
        let before = owners_of(&self.shard, &ks);
        let ghost nodes = self@.shard.nodes;
        if let Err(e) = self.shard.mark_drain(node_id) {
            assert(self@ =~= old(self)@);
            return Err(e);
        }
        let (moves, owned) = collect_given(
            &before,
            &self.shard,
            &text(node_id),
            &ks,
            Ghost(nodes),
        );
        let ghost a = self@;
        let push = self.push_l2_on(node_id, owned);
        assert(self@ =~= old(self)@.node_drained(node_id@).0);
        proof {
            assert(a.all_blocks() == old(self)@.all_blocks());
            lemma_same_push(old(self)@, a, node_id@, a.all_blocks(), keys::views(owned@));
        }
        Ok((self.shard.to_proto(), sort_ranked(moves), sort_ranked(push)))
    }

    /// How many blocks have a copy on a node.
    fn count_placed(&self, node_id: &str) -> (n: usize)
        ensures
            n == self@.placed_on(node_id@, self@.all_blocks()),
    {
        let node = text(node_id);
        let listed = self.block_keys();
        let ghost all = keys::views(listed@);
        let mut n: usize = 0;
        let mut i: usize = 0;
        assert(all.take(0) =~= Seq::empty());
        while i < listed.len()
            invariant
                i <= listed@.len() == all.len(),
                all == keys::views(listed@),
                node@ == node_id@,
                forall|i: int| 0 <= i < listed@.len() ==> self@.has_block((#[trigger] all[i])),
                n <= i,
                n == self@.placed_on(node_id@, all.take(i as int)),
            decreases listed@.len() - i,
        {
            proof {
                assert(all.take(i + 1).drop_last() =~= all.take(i as int));
                assert(all[i as int] == listed@[i as int]@);
            }
            if let Some(e) = self.entry_by(&listed[i]) {
                if has_node(&e.meta.locations, &node) {
                    n += 1;
                }
            }
            i += 1;
        }
        assert(all.take(i as int) =~= all);
        n
    }

    /// Tells whether a node owns a block.
    fn owns_any(&self, node_id: &str) -> (b: bool)
        requires
            self.wf(),
        ensures
            b == self@.owns_some(node_id@),
    {
        let node = text(node_id);
        let listed = self.block_keys();
        let ghost all = keys::views(listed@);
        let mut i: usize = 0;
        while i < listed.len()
            invariant
                i <= listed@.len() == all.len(),
                self.wf(),
                all == keys::views(listed@),
                all == self@.all_blocks(),
                node@ == node_id@,
                forall|j: int|
                    0 <= j < i ==> shard::owner(self@.shard.nodes, (#[trigger] all[j]).flat) != Some(
                        node_id@,
                    ),
            decreases listed@.len() - i,
        {
            assert(all[i as int] == listed@[i as int]@);
            let o = self.shard.owner_of(listed[i].flat.as_slice());
            if is_node(&o, &node) {
                return true;
            }
            i += 1;
        }
        false
    }

    /// Takes a drained node off the ring, once no copy is left on it and it owns
    /// nothing.
    pub fn remove_shard_node(&mut self, node_id: &str) -> (r: Result<(), String>)
        requires
            old(self).wf(),
        ensures
            final(self)@ == old(self)@.node_removed(node_id@).0,
            keys::told(r) == old(self)@.node_removed(node_id@).1,
            final(self).wf(),
    {
        let stuck: usize = self.count_placed(node_id);
        if stuck > 0 {
            let mut e = joined("remove: node ", node_id);
            e.append(" still has ");
            e.append(decimal_text(stuck as u64).as_str());
            e.append(" placement(s) in location view; complete migration/push_l2 first");
            return Err(e);
        }
        if self.owns_any(node_id) {
            let mut e = joined("remove: node ", node_id);
            e.append(" still owns blocks; drain incomplete");
            return Err(e);
        }
        let r = self.shard.remove(node_id);
        assert(self@ =~= old(self)@.node_removed(node_id@).0);
        r
    }
}

proof fn lemma_same_push(
    a: AuthorityView,
    b: AuthorityView,
    node_id: Seq<char>,
    blocks: Seq<BlockKeyView>,
    push: Seq<KvBlockIdView>,
)
    requires
        a.spaces == b.spaces,
    ensures
        a.also_pushed(node_id, blocks, push) == b.also_pushed(node_id, blocks, push),
    decreases blocks.len(),
{
    if blocks.len() > 0 {
        lemma_same_push(a, b, node_id, blocks.drop_last(), push);
        let x = blocks.last();
        assert(a.block(x) == b.block(x));
        assert(a.block_id(x) == b.block_id(x));
    }
}

} // verus!
