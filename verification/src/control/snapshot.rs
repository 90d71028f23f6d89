//! Checkpoints: everything the authority needs to be rebuilt, and the rebuilding.

use vstd::prelude::*;
use vstd::string::*;

use crate::base::keys;
use crate::base::keys::{contains_key_in, dup_all, Dup};
use crate::base::listing;
use crate::base::listing::sorted_keys;
use crate::base::order;
use crate::base::order::{bytes_leq, sort_ranked, Ranked};
use crate::base::table::Table;
use crate::base::text;
use crate::base::text::{decimal_text, joined, signed_text, text};
use crate::control::admission::{RegisterStatus, RegisterStatusView};
use crate::control::authority::{Authority, AuthorityView};
use crate::control::hash_chain::MAX_CHAIN;
use crate::control::namespace::{BlockKeyView, NamespaceKey};
use crate::control::pool;
use crate::control::pool::{resolve_pool_kind, EntryView};
use crate::control::view::LogView;
use crate::proto::{
    BlockMeta, BlockMetaView, CheckpointBlock, CheckpointBlockView, CheckpointSnapshot,
    CheckpointSnapshotView, KvBlockIdView, Location, LocationView, ModelDescriptor,
    ModelDescriptorView, PoolKind, Tier,
};

verus! {

/// The hash of a checkpointed block; nothing where it has no address.
pub open spec fn hash_in(b: CheckpointBlockView) -> Seq<u8> {
    match b.meta {
        Some(m) => match m.id {
            Some(id) => id.block_hash,
            None => Seq::empty(),
        },
        None => Seq::empty(),
    }
}

fn hash_of(b: &CheckpointBlock) -> (h: Vec<u8>)
    ensures
        h@ == hash_in(b@),
{
    if let Some(m) = &b.meta {
        if let Some(id) = &m.id {
            return id.block_hash.dup();
        }
    }
    Vec::new()
}

impl Ranked for CheckpointBlock {
    /// Shorter chains first, so that ancestors come before their children.
    open spec fn ranks(a: CheckpointBlockView, b: CheckpointBlockView) -> bool {
        a.prefix_chain.len() < b.prefix_chain.len() || (a.prefix_chain.len()
            == b.prefix_chain.len() && order::bytes_le(hash_in(a), hash_in(b)))
    }

    fn leq(&self, other: &Self) -> (le: bool) {
        self.prefix_chain.len() < other.prefix_chain.len() || (self.prefix_chain.len()
            == other.prefix_chain.len() && bytes_leq(
            hash_of(self).as_slice(),
            hash_of(other).as_slice(),
        ))
    }
}

/// A checkpointed block by the length of its chain alone.
pub struct Row {
    pub block: CheckpointBlock,
}

impl View for Row {
    type V = CheckpointBlockView;

    open spec fn view(&self) -> CheckpointBlockView {
        self.block@
    }
}

impl Ranked for Row {
    open spec fn ranks(a: CheckpointBlockView, b: CheckpointBlockView) -> bool {
        a.prefix_chain.len() <= b.prefix_chain.len()
    }

    fn leq(&self, other: &Self) -> (le: bool) {
        self.block.prefix_chain.len() <= other.block.prefix_chain.len()
    }
}

/// A block as a checkpoint holds it; one without a chain is its own root.
pub open spec fn saved(e: EntryView) -> CheckpointBlockView {
    CheckpointBlockView {
        meta: Some(e.meta),
        prefix_chain: if e.chain.len() > 0 {
            e.chain
        } else {
            match e.meta.id {
                Some(id) => seq![id.block_hash],
                None => Seq::empty(),
            }
        },
    }
}

/// The node of the first location in L2.
pub open spec fn home_node(locations: Seq<LocationView>) -> Seq<char>
    decreases locations.len(),
{
    if locations.len() == 0 {
        "restore"@
    } else if locations[0].tier == Tier::L2.spec_number() {
        locations[0].node_id
    } else {
        home_node(locations.skip(1))
    }
}

impl AuthorityView {
    /// Everything a checkpoint holds.
    pub open spec fn exported(self, seq: u64) -> CheckpointSnapshotView {
        CheckpointSnapshotView {
            seq,
            models: self.names().map_values(
                |k: (Seq<char>, Seq<char>)| self.spaces[k].descriptor,
            ),
            blocks: order::ranked::<CheckpointBlock>(
                self.all_blocks().map_values(|b: BlockKeyView| saved(self.block(b))),
            ),
        }
    }

    /// Nothing is known, but for what outlives a rebuild.
    pub open spec fn cleared(self, checkpoint_seq: u64) -> AuthorityView {
        AuthorityView {
            spaces: Map::empty(),
            orphans: Map::empty(),
            node_refs: Map::empty(),
            barriers: Map::empty(),
            checkpoint_seq,
            ..self
        }
    }

    /// Earlier updates cannot be replayed, and nothing is left to tell.
    pub open spec fn unlogged(self) -> AuthorityView {
        AuthorityView {
            log: LogView { updates: Seq::empty(), ..self.log },
            pending: Seq::empty(),
            ..self
        }
    }

    /// Models are registered, up to the first that is refused.
    pub open spec fn models_imported(self, models: Seq<ModelDescriptorView>) -> (
        AuthorityView,
        Result<(), Seq<char>>,
    )
        decreases models.len(),
    {
        if models.len() == 0 {
            (self, Ok(()))
        } else {
            let (a, r) = self.models_imported(models.drop_last());
            match r {
                Err(e) => (a, Err(e)),
                Ok(_) => a.model_registered(models.last()),
            }
        }
    }

    /// A checkpointed block is registered with the chain that it had.
    pub open spec fn block_imported(self, b: CheckpointBlockView) -> (
        AuthorityView,
        Result<(), Seq<char>>,
    ) {
        if b.meta is None || b.meta->0.id is None {
            (self, Ok(()))
        } else {
            let id = b.meta->0.id->0;
            let pk = match pool::pool_kind_of(id.pool_kind) {
                Ok(pk) => pk,
                Err(_) => PoolKind::Target.spec_number(),
            };
            let chain = if b.prefix_chain.len() == 0 {
                seq![id.block_hash]
            } else {
                b.prefix_chain
            };
            if !chain.contains(id.block_hash) {
                (
                    self,
                    Err(
                        "import_snapshot: block hash not in prefix_chain (len="@ + text::decimal(
                            chain.len(),
                        ) + ")"@,
                    ),
                )
            } else {
                let meta = BlockMetaView {
                    id: Some(KvBlockIdView { pool_kind: pk, ..id }),
                    ..b.meta->0
                };
                let (a, r) = self.registered(home_node(meta.locations), chain, seq![meta]);
                (
                    a,
                    match r {
                        Ok(RegisterStatusView::Accepted) => Ok(()),
                        Ok(RegisterStatusView::RejectedHardQuota(s)) => Err(
                            "import_snapshot register rejected: reason="@ + s.reason
                                + " deficit="@ + text::signed(s.deficit_bytes as int),
                        ),
                        Err(e) => Err("import_snapshot register: "@ + e),
                    },
                )
            }
        }
    }

    /// Checkpointed blocks are registered, up to the first that is refused.
    pub open spec fn blocks_imported(self, rows: Seq<CheckpointBlockView>) -> (
        AuthorityView,
        Result<(), Seq<char>>,
    )
        decreases rows.len(),
    {
        if rows.len() == 0 {
            (self, Ok(()))
        } else {
            let (a, r) = self.blocks_imported(rows.drop_last());
            match r {
                Err(e) => (a, Err(e)),
                Ok(_) => a.block_imported(rows.last()),
            }
        }
    }

    /// The authority is rebuilt from a checkpoint. Once it is, nothing from before can
    /// be replayed; where a row is refused, updates and what is left to tell stay.
    pub open spec fn imported(self, snap: CheckpointSnapshotView) -> (
        AuthorityView,
        Result<(), Seq<char>>,
    ) {
        let (a, r) = self.cleared(snap.seq).models_imported(snap.models);
        let (b, s) = match r {
            Err(e) => (a, Err(e)),
            Ok(_) => a.blocks_imported(order::ranked::<Row>(snap.blocks)),
        };
        match s {
            Ok(_) => (b.unlogged(), s),
            Err(_) => (b, s),
        }
    }
}

fn find_home(locations: &Vec<Location>) -> (r: String)
    ensures
        r@ == home_node(keys::views(locations@)),
{
    let ghost all = keys::views(locations@);
    let mut i: usize = 0;
    assert(all.skip(0) =~= all);
    while i < locations.len()
        invariant
            i <= locations@.len() == all.len(),
            all == keys::views(locations@),
            home_node(all) == home_node(all.skip(i as int)),
        decreases locations@.len() - i,
    {
        assert(all.skip(i as int).skip(1) =~= all.skip(i + 1));
        assert(all.skip(i as int)[0] == locations@[i as int]@);
        if locations[i].tier == Tier::L2.number() {
            return locations[i].node_id.dup();
        }
        i += 1;
    }
    text("restore")
}

impl Authority {
    /// Writes everything down that a checkpoint holds.
    pub fn export_snapshot(&self, seq: u64) -> (snap: CheckpointSnapshot)
        ensures
            snap@ == self@.exported(seq),
    {
        let names = sorted_keys(&self.namespaces);
        let ghost all = keys::views(names@);
        let ghost goal = all.map_values(|k: (Seq<char>, Seq<char>)| self@.spaces[k].descriptor);
        let mut models: Vec<ModelDescriptor> = Vec::new();
        let mut i: usize = 0;
        assert(keys::views(models@) =~= goal.take(0));
        while i < names.len()
            invariant
                i <= names@.len() == all.len() == goal.len(),
                all == keys::views(names@),
                listing::lists::<NamespaceKey>(all, self@.spaces.dom()),
                goal == all.map_values(
                    |k: (Seq<char>, Seq<char>)| self@.spaces[k].descriptor,
                ),
                keys::views(models@) == goal.take(i as int),
            decreases names@.len() - i,
        {
            proof {
                assert(all[i as int] == names@[i as int]@);
                assert(all.to_set().contains(all[i as int]));
            }
            if let Some(ns) = self.namespaces.get(&names[i]) {
                let ghost before = keys::views(models@);
                models.push(ns.descriptor.dup());
                assert(keys::views(models@) =~= before.push(goal[i as int]));
                assert(goal.take(i + 1) =~= before.push(goal[i as int]));
            }
            i += 1;
        }
        assert(goal.take(i as int) =~= goal);
        let listed = self.block_keys();
        let ghost keys = keys::views(listed@);
        let ghost rows = keys.map_values(|b: BlockKeyView| saved(self@.block(b)));
        let mut blocks: Vec<CheckpointBlock> = Vec::new();
        let mut j: usize = 0;
        assert(keys::views(blocks@) =~= rows.take(0));
        while j < listed.len()
            invariant
                j <= listed@.len() == keys.len() == rows.len(),
                keys == keys::views(listed@),
                forall|i: int| 0 <= i < listed@.len() ==> self@.has_block((#[trigger] keys[i])),
                rows == keys.map_values(|b: BlockKeyView| saved(self@.block(b))),
                keys::views(blocks@) == rows.take(j as int),
            decreases listed@.len() - j,
        {
            proof {
                assert(keys[j as int] == listed@[j as int]@);
            }
            if let Some(e) = self.entry_by(&listed[j]) {
                let ghost before = keys::views(blocks@);
                let chain = if e.prefix_chain.len() > 0 {
                    dup_all(&e.prefix_chain)
                } else {
                    let mut c: Vec<Vec<u8>> = Vec::new();
                    if let Some(id) = &e.meta.id {
                        c.push(id.block_hash.dup());
                    }
                    c
                };
                let b = CheckpointBlock { meta: Some(e.meta.dup()), prefix_chain: chain };
                assert(b@ =~= saved(e@));
                blocks.push(b);
                assert(keys::views(blocks@) =~= before.push(rows[j as int]));
                assert(rows.take(j + 1) =~= before.push(rows[j as int]));
            }
            j += 1;
        }
        assert(rows.take(j as int) =~= rows);
        CheckpointSnapshot { seq, models, blocks: sort_ranked(blocks) }
    }

    fn import_models(&mut self, models: &Vec<ModelDescriptor>) -> (r: Result<(), String>)
        requires
            old(self).wf(),
        ensures
            final(self)@ == old(self)@.models_imported(keys::views(models@)).0,
            keys::told(r) == old(self)@.models_imported(keys::views(models@)).1,
            final(self).wf(),
    {
        let ghost all = keys::views(models@);
        let ghost start = self@;
        let mut i: usize = 0;
        assert(all.take(0) =~= Seq::empty());
        while i < models.len()
            invariant
                i <= models@.len() == all.len(),
                all == keys::views(models@),
                self.wf(),
                start == old(self)@,
                self@ == start.models_imported(all.take(i as int)).0,
                start.models_imported(all.take(i as int)).1 is Ok,
            decreases models@.len() - i,
        {
            proof {
                assert(all.take(i + 1).drop_last() =~= all.take(i as int));
                assert(all[i as int] == models@[i as int]@);
            }
            if let Err(e) = self.register_model(models[i].dup()) {
                proof {
                    lemma_models_stop(start, all, i + 1);
                }
                return Err(e);
            }
            i += 1;
        }
        assert(all.take(i as int) =~= all);
        Ok(())
    }

    fn import_block(&mut self, b: &CheckpointBlock) -> (r: Result<(), String>)
        requires
            old(self).wf(),
            b.prefix_chain@.len() <= MAX_CHAIN,
        ensures
            final(self)@ == old(self)@.block_imported(b@).0,
            keys::told(r) == old(self)@.block_imported(b@).1,
            final(self).wf(),
    {
        let mut meta = match &b.meta {
            Some(m) => m.dup(),
            None => return Ok(()),
        };
        let id = match &meta.id {
            Some(id) => id.dup(),
            None => return Ok(()),
        };
        let pk: i32 = match resolve_pool_kind(id.pool_kind) {
            Ok(pk) => pk,
            Err(_) => PoolKind::Target.number(),
        };
        let mut chain = dup_all(&b.prefix_chain);
        if chain.len() == 0 {
            chain.push(id.block_hash.dup());
            assert(keys::views(chain@) =~= seq![id@.block_hash]);
        }
        assert(keys::views(chain@).len() == chain@.len());
        if !contains_key_in(&chain, &id.block_hash) {
            let mut e = joined(
                "import_snapshot: block hash not in prefix_chain (len=",
                decimal_text(chain.len() as u64).as_str(),
            );
            e.append(")");
            return Err(e);
        }
        let node = find_home(&meta.locations);
        let mut id = id;
        id.pool_kind = pk;
        meta.id = Some(id);
        let mut metas: Vec<BlockMeta> = Vec::new();
        let ghost m = meta@;
        metas.push(meta);
        assert(keys::views(metas@) =~= seq![m]);
        match self.register(node.as_str(), chain.as_slice(), metas) {
            Ok(RegisterStatus::Accepted) => Ok(()),
            Ok(RegisterStatus::RejectedHardQuota(s)) => {
                let mut e = joined(
                    "import_snapshot register rejected: reason=",
                    s.reason.as_str(),
                );
                e.append(" deficit=");
                e.append(signed_text(s.deficit_bytes).as_str());
                Err(e)
            },
            Err(e) => Err(joined("import_snapshot register: ", e.as_str())),
        }
    }

    fn import_blocks(&mut self, rows: &Vec<Row>) -> (r: Result<(), String>)
        requires
            old(self).wf(),
            forall|i: int|
                0 <= i < rows@.len() ==> (#[trigger] keys::views(rows@)[i]).prefix_chain.len()
                    <= MAX_CHAIN,
        ensures
            final(self)@ == old(self)@.blocks_imported(keys::views(rows@)).0,
            keys::told(r) == old(self)@.blocks_imported(keys::views(rows@)).1,
            final(self).wf(),
    {
        let ghost all = keys::views(rows@);
        let ghost start = self@;
        let mut i: usize = 0;
        assert(all.take(0) =~= Seq::empty());
        while i < rows.len()
            invariant
                i <= rows@.len() == all.len(),
                all == keys::views(rows@),
                forall|i: int|
                    0 <= i < rows@.len() ==> (#[trigger] all[i]).prefix_chain.len() <= MAX_CHAIN,
                self.wf(),
                start == old(self)@,
                self@ == start.blocks_imported(all.take(i as int)).0,
                start.blocks_imported(all.take(i as int)).1 is Ok,
            decreases rows@.len() - i,
        {
            proof {
                assert(all.take(i + 1).drop_last() =~= all.take(i as int));
                assert(all[i as int] == rows@[i as int]@);
            }
            if let Err(e) = self.import_block(&rows[i].block) {
                proof {
                    lemma_blocks_stop(start, all, i + 1);
                }
                return Err(e);
            }
            i += 1;
        }
        assert(all.take(i as int) =~= all);
        Ok(())
    }

    /// Rebuilds the authority from a checkpoint: models first, then blocks from the
    /// roots on. Fails at the first that is refused, and then keeps the updates that
    /// can be replayed and what is left to tell.
    pub fn import_snapshot(&mut self, snap: &CheckpointSnapshot) -> (r: Result<(), String>)
        requires
            old(self).wf(),
            forall|i: int|
                0 <= i < snap.blocks@.len() ==> (#[trigger] snap@.blocks[i]).prefix_chain.len()
                    <= MAX_CHAIN,
        ensures
            final(self)@ == old(self)@.imported(snap@).0,
            keys::told(r) == old(self)@.imported(snap@).1,
            final(self).wf(),
    {
        self.namespaces = Table::new();
        self.orphans = Table::new();
        self.node_refs = Table::new();
        self.completed_barriers = Table::new();
        self.checkpoint_seq = snap.seq;
        assert(self@ =~= old(self)@.cleared(snap@.seq));
        let mut r = self.import_models(&snap.models);
        if r.is_ok() {
            let rows = depth_order(&snap.blocks);
            r = self.import_blocks(&rows);
        }
        if r.is_ok() {
            self.view_log.reset();
            self.pending_view_events = Vec::new();
            assert(keys::views(self.pending_view_events@) =~= Seq::empty());
        }
        r
    }
}

/// Sorts blocks by the length of their chains.
fn depth_order(blocks: &Vec<CheckpointBlock>) -> (r: Vec<Row>)
    requires
        forall|i: int|
            0 <= i < blocks@.len() ==> (#[trigger] keys::views(blocks@)[i]).prefix_chain.len()
                <= MAX_CHAIN,
    ensures
        keys::views(r@) == order::ranked::<Row>(keys::views(blocks@)),
        forall|i: int|
            0 <= i < r@.len() ==> (#[trigger] keys::views(r@)[i]).prefix_chain.len() <= MAX_CHAIN,
{
    let mut rows: Vec<Row> = Vec::with_capacity(blocks.len());
    let mut i: usize = 0;
    while i < blocks.len()
        invariant
            i <= blocks@.len(),
            rows@.len() == i,
            forall|j: int| 0 <= j < i ==> (#[trigger] rows@[j])@ == blocks@[j]@,
        decreases blocks@.len() - i,
    {
        rows.push(Row { block: blocks[i].dup() });
        i += 1;
    }
    assert(keys::views(rows@) =~= keys::views(blocks@));
    let r = sort_ranked(rows);
    proof {
        broadcast use vstd::seq_lib::group_to_multiset_ensures;

        let a = keys::views(blocks@);
        let b = keys::views(r@);
        crate::base::order::ranked_keeps_values::<Row>(a);
        assert forall|i: int| 0 <= i < r@.len() implies (#[trigger] b[i]).prefix_chain.len()
            <= MAX_CHAIN by {
            assert(b.contains(b[i]));
            assert(b.to_multiset().count(b[i]) > 0);
            assert(a.contains(b[i]));
            let j = choose|j: int| 0 <= j < a.len() && a[j] == b[i];
            assert(a[j].prefix_chain.len() <= MAX_CHAIN);
        }
    }
    r
}

proof fn lemma_models_stop(a: AuthorityView, models: Seq<ModelDescriptorView>, n: int)
    requires
        0 <= n <= models.len(),
        a.models_imported(models.take(n)).1 is Err,
    ensures
        a.models_imported(models) == a.models_imported(models.take(n)),
    decreases models.len(),
{
    if n == models.len() {
        assert(models.take(n) =~= models);
    } else {
        assert(models.drop_last().take(n) =~= models.take(n));
        lemma_models_stop(a, models.drop_last(), n);
    }
}

proof fn lemma_blocks_stop(a: AuthorityView, rows: Seq<CheckpointBlockView>, n: int)
    requires
        0 <= n <= rows.len(),
        a.blocks_imported(rows.take(n)).1 is Err,
    ensures
        a.blocks_imported(rows) == a.blocks_imported(rows.take(n)),
    decreases rows.len(),
{
    if n == rows.len() {
        assert(rows.take(n) =~= rows);
    } else {
        assert(rows.drop_last().take(n) =~= rows.take(n));
        lemma_blocks_stop(a, rows.drop_last(), n);
    }
}

} // verus!
