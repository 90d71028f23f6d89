//! Cleaning up: writes that were never completed, blocks that are cold, and what a
//! dead node held. Metadata goes before bytes do.

use vstd::prelude::*;
use vstd::string::*;

use crate::base::keys;
use crate::base::keys::{dup_all, Dup, Key};
use crate::base::listing;
use crate::base::listing::sorted_keys;
use crate::base::set::KeySet;
use crate::base::table::Table;
use crate::base::text;
use crate::base::text::{joined, ns_text, text};
use crate::control::authority;
use crate::control::authority::{Authority, AuthorityView, OrphanEntry, OrphanView};
use crate::control::hash_chain::SequenceHash;
use crate::control::inactive::Node;
use crate::control::locations;
use crate::control::locations::{tag_all, withdraw_location};
use crate::control::namespace;
use crate::control::namespace::{
    invalidated_events_for, BlockKey, BlockKeyView, NamespaceKey, NsView,
};
use crate::control::pool;
use crate::control::pool::{
    forget_node, id_or_public, public_id, resolve_pool_kind, Mark, Pool, PoolView, RefAccounts,
};
use crate::control::tier;
use crate::control::tier::{has_tier, has_tier_on};
use crate::control::view;
use crate::control::view::upsert_event;
use crate::proto::{
    BlockMeta, BlockMetaView, KvBlockId, KvBlockIdView, Location, LocationView, OrphanReport,
    OrphanReportView, PoolKind, ReconcileOrphansRequest, ReconcileOrphansRequestView,
    ReconcileOrphansResponse, ReconcileOrphansResponseView, RefDelta, RefKind, Tier, ViewEvent,
    ViewEventView, ViewKind,
};

verus! {

/// After this time an incomplete write is given up, by default.
pub const DEFAULT_ORPHAN_TTL_MS: u64 = 30_000;

/// Locations without those in memory.
pub open spec fn cooled(locations: Seq<LocationView>) -> Seq<LocationView> {
    locations.filter(
        |l: LocationView|
            l.tier != Tier::L0.spec_number() && l.tier != Tier::L1.spec_number(),
    )
}

/// Marks without those of a block for nodes whose L0 it left.
pub open spec fn marks_cooled(
    marks: Set<(Seq<u8>, Seq<char>)>,
    flat: Seq<u8>,
    locations: Seq<LocationView>,
) -> Set<(Seq<u8>, Seq<char>)> {
    marks.filter(
        |m: (Seq<u8>, Seq<char>)| !(m.0 == flat && tier::on_tier_of(locations, Tier::L0, m.1)),
    )
}

/// A cold block that was taken out of memory.
pub struct Peel {
    pub node: Node,
    pub flat: Vec<u8>,
    pub id: KvBlockId,
    pub durable: bool,
    pub meta: BlockMeta,
    pub changed: bool,
}

/// What a peel stands for.
#[verifier::ext_equal]
pub struct PeelView {
    pub node: Node,
    pub flat: Seq<u8>,
    pub id: KvBlockIdView,
    pub durable: bool,
    pub meta: BlockMetaView,
    pub changed: bool,
}

impl View for Peel {
    type V = PeelView;

    open spec fn view(&self) -> PeelView {
        PeelView {
            node: self.node,
            flat: self.flat@,
            id: self.id@,
            durable: self.durable,
            meta: self.meta@,
            changed: self.changed,
        }
    }
}

/// The block of a victim, where it is there and nothing holds it.
pub open spec fn victim_flat(p: PoolView, node: Node) -> Option<Seq<u8>> {
    if !p.holds(node.seq) && p.seq_to_flat.contains_key(node.seq) && p.by_flat.contains_key(
        p.seq_to_flat[node.seq],
    ) {
        Some(p.seq_to_flat[node.seq])
    } else {
        None
    }
}

/// A victim leaves memory.
pub open spec fn peeled_one(
    p: PoolView,
    k: (Seq<char>, Seq<char>),
    pool_kind: i32,
    node: Node,
) -> (PoolView, Option<PeelView>) {
    match victim_flat(p, node) {
        None => (p, None),
        Some(flat) => {
            let was = p.by_flat[flat].meta;
            let meta = BlockMetaView { locations: cooled(was.locations), ..was };
            (
                PoolView {
                    marks: marks_cooled(p.marks, flat, was.locations),
                    ..p.updated(flat, meta)
                },
                Some(
                    PeelView {
                        node,
                        flat,
                        id: pool::id_or(was.id, k.0, k.1, pool_kind, flat),
                        durable: tier::on_tier(was.locations, Tier::L2) || was.l3_present,
                        meta,
                        changed: tier::on_tier(was.locations, Tier::L0) || tier::on_tier(
                            was.locations,
                            Tier::L1,
                        ),
                    },
                ),
            )
        },
    }
}

/// Victims leave memory.
pub open spec fn peeled(
    p: PoolView,
    k: (Seq<char>, Seq<char>),
    pool_kind: i32,
    victims: Seq<Node>,
) -> (PoolView, Seq<PeelView>)
    decreases victims.len(),
{
    if victims.len() == 0 {
        (p, Seq::empty())
    } else {
        let (q, peels) = peeled(p, k, pool_kind, victims.drop_last());
        let (r, peel) = peeled_one(q, k, pool_kind, victims.last());
        (
            r,
            match peel {
                Some(x) => peels.push(x),
                None => peels,
            },
        )
    }
}

/// The addresses of the peels that are durable.
pub open spec fn durable_ids(peels: Seq<PeelView>) -> Seq<KvBlockIdView>
    decreases peels.len(),
{
    if peels.len() == 0 {
        Seq::empty()
    } else if peels.last().durable {
        durable_ids(peels.drop_last()).push(peels.last().id)
    } else {
        durable_ids(peels.drop_last())
    }
}

/// The events of the durable peels that moved.
pub open spec fn peel_events(
    k: (Seq<char>, Seq<char>),
    pool_kind: i32,
    peels: Seq<PeelView>,
) -> Seq<ViewEventView>
    decreases peels.len(),
{
    if peels.len() == 0 {
        Seq::empty()
    } else {
        let rest = peel_events(k, pool_kind, peels.drop_last());
        let x = peels.last();
        if x.durable && x.changed {
            rest.push(authority::moved(k.0, k.1, pool_kind, x.flat, x.meta))
        } else {
            rest
        }
    }
}

/// Peels that are not durable leave for good; with their addresses and hashes.
pub open spec fn cast_off(p: PoolView, peels: Seq<PeelView>) -> (
    PoolView,
    Seq<KvBlockIdView>,
    Seq<Seq<u8>>,
)
    decreases peels.len(),
{
    if peels.len() == 0 {
        (p, Seq::empty(), Seq::empty())
    } else {
        let (q, ids, flats) = cast_off(p, peels.drop_last());
        let x = peels.last();
        if !x.durable && q.by_flat.contains_key(x.flat) {
            (
                PoolView {
                    refs: q.refs.remove(x.node.seq),
                    seq_to_flat: q.seq_to_flat.remove(x.node.seq),
                    ..q
                }.left(x.node.seq).forgotten(x.flat),
                ids.push(x.id),
                flats.push(x.flat),
            )
        } else {
            (q, ids, flats)
        }
    }
}

/// Durable peels may make room again.
pub open spec fn reentered(p: PoolView, peels: Seq<PeelView>) -> PoolView
    decreases peels.len(),
{
    if peels.len() == 0 {
        p
    } else {
        let q = reentered(p, peels.drop_last());
        let x = peels.last();
        if x.durable && !q.holds(x.node.seq) {
            q.entered(x.node.seq, x.node.block_id)
        } else {
            q
        }
    }
}

/// Orphans without those at some addresses.
pub open spec fn orphans_minus(
    orphans: Map<BlockKeyView, OrphanView>,
    ids: Seq<KvBlockIdView>,
) -> Map<BlockKeyView, OrphanView>
    decreases ids.len(),
{
    if ids.len() == 0 {
        orphans
    } else {
        orphans_minus(orphans, ids.drop_last()).remove(BlockKeyView::of(ids.last()))
    }
}

/// What nodes hold, without a block.
pub open spec fn refs_without(
    node_refs: Map<Seq<char>, Map<BlockKeyView, RefAccounts>>,
    b: BlockKeyView,
) -> Map<Seq<char>, Map<BlockKeyView, RefAccounts>> {
    Map::new(|n: Seq<char>| node_refs.contains_key(n), |n: Seq<char>| node_refs[n].remove(b))
}

impl PoolView {
    /// A block leaves L0 of a node.
    pub open spec fn off_node(self, flat: Seq<u8>, node_id: Seq<char>) -> PoolView {
        let was = self.by_flat[flat].meta;
        self.updated(
            flat,
            BlockMetaView {
                locations: locations::absent_from(was.locations, Tier::L0.spec_number(), node_id),
                ..was
            },
        )
    }
}

/// A pool without marks for a node.
pub open spec fn pool_unmarked(p: Option<PoolView>, node_id: Seq<char>) -> Option<PoolView> {
    match p {
        Some(p) => Some(PoolView { marks: pool::marks_without_node(p.marks, node_id), ..p }),
        None => None,
    }
}

impl NsView {
    /// A namespace without marks for a node.
    pub open spec fn unmarked(self, node_id: Seq<char>) -> NsView {
        NsView {
            target: pool_unmarked(self.target, node_id),
            draft: pool_unmarked(self.draft, node_id),
            ..self
        }
    }
}

impl AuthorityView {
    /// The block is in the view; a pool that is not known counts as the target
    /// pool.
    pub open spec fn in_view(self, b: BlockKeyView) -> bool {
        self.has_block(
            BlockKeyView {
                pool_kind: match pool::pool_kind_of(b.pool_kind) {
                    Ok(pk) => pk,
                    Err(_) => PoolKind::Target.spec_number(),
                },
                ..b
            },
        )
    }

    /// Incomplete writes of a node are recorded; a block that is in the view is no
    /// orphan.
    pub open spec fn orphaned(
        self,
        ids: Seq<KvBlockIdView>,
        node_id: Seq<char>,
        stamp: u64,
    ) -> AuthorityView
        decreases ids.len(),
    {
        if ids.len() == 0 {
            self
        } else {
            let a = self.orphaned(ids.drop_last(), node_id, stamp);
            let b = BlockKeyView::of(ids.last());
            AuthorityView {
                orphans: if a.in_view(b) {
                    a.orphans.remove(b)
                } else {
                    a.orphans.insert(b, OrphanView { id: b.id(), node_id, marked_at_ms: stamp })
                },
                ..a
            }
        }
    }

    /// Reports of incomplete writes are recorded.
    pub open spec fn orphans_reported(self, reports: Seq<OrphanReportView>) -> AuthorityView
        decreases reports.len(),
    {
        if reports.len() == 0 {
            self
        } else {
            let a = self.orphans_reported(reports.drop_last());
            let r = reports.last();
            a.orphaned(
                r.ids,
                r.node_id,
                if r.marked_at_ms == 0 {
                    self.now_ms
                } else {
                    r.marked_at_ms
                },
            )
        }
    }

    /// A block is discarded unless something holds it; with whether it was there.
    pub open spec fn discarded_one(self, id: KvBlockIdView) -> (
        AuthorityView,
        Result<bool, Seq<char>>,
    ) {
        let k = (id.model_id, id.revision);
        match pool::pool_kind_of(id.pool_kind) {
            Err(e) => (self, Err(e)),
            Ok(pk) => match self.pool_at(k, pk) {
                None => (self, Ok(false)),
                Some(p) => {
                    let b = BlockKeyView::of(id);
                    let a = AuthorityView { orphans: self.orphans.remove(b), ..self };
                    if !p.by_flat.contains_key(id.block_hash) {
                        (a, Ok(false))
                    } else if p.holds(p.by_flat[id.block_hash].seq) {
                        (self, Err("DiscardBlocks: block has global_refs > 0"@))
                    } else {
                        (
                            AuthorityView {
                                node_refs: refs_without(a.node_refs, b),
                                ..a.with_ns(
                                    k,
                                    self.spaces[k].with_pool(
                                        pk,
                                        p.discarded(id.block_hash),
                                    ).credited(1),
                                ).with_events(
                                    seq![
                                        view::invalidated(
                                            pool::id_or(None, k.0, k.1, pk, id.block_hash),
                                        ),
                                    ],
                                )
                            },
                            Ok(true),
                        )
                    }
                },
            },
        }
    }

    /// Blocks are discarded, up to the first that cannot be; with those that were
    /// there.
    pub open spec fn discarded(self, ids: Seq<KvBlockIdView>) -> (
        AuthorityView,
        Result<Seq<KvBlockIdView>, Seq<char>>,
    )
        decreases ids.len(),
    {
        if ids.len() == 0 {
            (self, Ok(Seq::empty()))
        } else {
            let (a, r) = self.discarded(ids.drop_last());
            match r {
                Err(e) => (a, Err(e)),
                Ok(gone) => {
                    let (b, s) = a.discarded_one(ids.last());
                    (
                        b,
                        match s {
                            Err(e) => Err(e),
                            Ok(true) => Ok(gone.push(ids.last())),
                            Ok(false) => Ok(gone),
                        },
                    )
                },
            }
        }
    }

    /// Cold blocks of a pool leave memory, and those without a durable copy leave
    /// for good; with the addresses of both.
    pub open spec fn collected(self, k: (Seq<char>, Seq<char>), raw_kind: i32, n: nat) -> (
        AuthorityView,
        Result<(Seq<KvBlockIdView>, Seq<KvBlockIdView>), Seq<char>>,
    ) {
        if n == 0 {
            (self, Ok((Seq::empty(), Seq::empty())))
        } else {
            match pool::pool_kind_of(raw_kind) {
                Err(e) => (self, Err(e)),
                Ok(pk) => if !self.spaces.contains_key(k) {
                    (self, Err("gc_cold: unknown namespace "@ + text::ns_named(k.0, k.1)))
                } else {
                    match self.spaces[k].pool(pk) {
                        None => (self, Ok((Seq::empty(), Seq::empty()))),
                        Some(p) => {
                            let (inactive, victims) = p.inactive.allocated(n, p.freq);
                            let (q, peels) = peeled(PoolView { inactive, ..p }, k, pk, victims);
                            let (r, gone, flats) = cast_off(q, peels);
                            let a = self.with_ns(
                                k,
                                self.spaces[k].with_pool(pk, reentered(r, peels)).credited(
                                    gone.len(),
                                ),
                            ).with_events(
                                peel_events(k, pk, peels) + namespace::gone_events(k.0, k.1, namespace::tagged(pk, flats)),
                            );
                            (
                                AuthorityView { orphans: orphans_minus(a.orphans, gone), ..a },
                                Ok((durable_ids(peels), gone)),
                            )
                        },
                    }
                },
            }
        }
    }

    /// The references of one kind to a block; none where it is not there.
    pub open spec fn refs_to(self, b: BlockKeyView, kind: RefKind) -> i64 {
        match self.ref_target(Some(b.id())) {
            Ok(t) => self.accounts_at(t).of(kind),
            Err(_) => 0,
        }
    }

    /// References of one kind that a dead node held go, as far as the block has
    /// any left.
    pub open spec fn released(self, b: BlockKeyView, kind: RefKind, n: i64) -> AuthorityView {
        let taken = if n < self.refs_to(b, kind) {
            n
        } else {
            self.refs_to(b, kind)
        };
        if taken > 0 {
            match self.ref_moved(Some(b.id()), kind.spec_number(), -taken, Seq::empty()) {
                Ok(a) => a,
                Err(_) => self,
            }
        } else {
            self
        }
    }

    /// What a dead node held goes.
    pub open spec fn released_all(
        self,
        held: Map<BlockKeyView, RefAccounts>,
        blocks: Seq<BlockKeyView>,
    ) -> AuthorityView
        decreases blocks.len(),
    {
        if blocks.len() == 0 {
            self
        } else {
            let b = blocks.last();
            self.released_all(held, blocks.drop_last()).released(
                b,
                RefKind::Request,
                held[b].request,
            ).released(b, RefKind::Writeback, held[b].writeback)
        }
    }

    /// Blocks leave L0 of a node; with those that were there.
    pub open spec fn taken_off(self, node_id: Seq<char>, blocks: Seq<BlockKeyView>) -> (
        AuthorityView,
        Seq<KvBlockIdView>,
    )
        decreases blocks.len(),
    {
        if blocks.len() == 0 {
            (self, Seq::empty())
        } else {
            let (a, ids) = self.taken_off(node_id, blocks.drop_last());
            let b = blocks.last();
            if tier::on_tier_of(a.block(b).meta.locations, Tier::L0, node_id) {
                let p = a.pool_at(b.space(), b.pool_kind)->0.off_node(b.flat, node_id);
                (
                    a.with_pool_at(b.space(), b.pool_kind, p).with_events(
                        seq![
                            authority::moved(
                                b.model_id,
                                b.revision,
                                b.pool_kind,
                                b.flat,
                                p.by_flat[b.flat].meta,
                            ),
                        ],
                    ),
                    ids.push(b.id()),
                )
            } else {
                (a, ids)
            }
        }
    }

    /// Nothing is ordered on a node any more.
    pub open spec fn unmarked_all(
        self,
        node_id: Seq<char>,
        names: Seq<(Seq<char>, Seq<char>)>,
    ) -> AuthorityView
        decreases names.len(),
    {
        if names.len() == 0 {
            self
        } else {
            let a = self.unmarked_all(node_id, names.drop_last());
            a.with_ns(names.last(), a.spaces[names.last()].unmarked(node_id))
        }
    }

    /// A node is dead: its references go, and so do its copies in L0 and what was
    /// ordered on it. With how many blocks it referenced, and what it held in L0.
    pub open spec fn node_lost(self, node_id: Seq<char>) -> (
        AuthorityView,
        Result<(nat, Seq<KvBlockIdView>), Seq<char>>,
    ) {
        if node_id.len() == 0 {
            (self, Err("reconcile_dead_node: node_id required"@))
        } else {
            let held = if self.node_refs.contains_key(node_id) {
                self.node_refs[node_id]
            } else {
                Map::empty()
            };
            let blocks = listing::listing::<BlockKey>(held.dom());
            let a = AuthorityView {
                node_refs: self.node_refs.remove(node_id),
                ..self
            }.released_all(held, blocks);
            let (b, ids) = a.taken_off(node_id, a.all_blocks());
            (b.unmarked_all(node_id, b.names()), Ok((blocks.len(), ids)))
        }
    }

    /// The write was given up by now.
    pub open spec fn expired(self, b: BlockKeyView, ttl: u64) -> bool {
        self.now_ms - self.orphans[b].marked_at_ms >= ttl
    }

    /// Orphans past their time are dropped; those not in the view are given up.
    pub open spec fn swept(self, ttl: u64, blocks: Seq<BlockKeyView>) -> (
        AuthorityView,
        Seq<KvBlockIdView>,
    )
        decreases blocks.len(),
    {
        if blocks.len() == 0 {
            (self, Seq::empty())
        } else {
            let (a, ids) = self.swept(ttl, blocks.drop_last());
            let b = blocks.last();
            if self.expired(b, ttl) {
                (
                    AuthorityView { orphans: a.orphans.remove(b), ..a },
                    if self.in_view(b) {
                        ids
                    } else {
                        ids.push(b.id())
                    },
                )
            } else {
                (a, ids)
            }
        }
    }

    /// All orphans past their time are dropped.
    pub open spec fn orphans_swept(self, ttl_ms: u64) -> (AuthorityView, Seq<KvBlockIdView>) {
        self.swept(
            if ttl_ms == 0 {
                DEFAULT_ORPHAN_TTL_MS
            } else {
                ttl_ms
            },
            listing::listing::<BlockKey>(self.orphans.dom()),
        )
    }

    /// Reports, sweep, a dead node and cold blocks, in that order.
    pub open spec fn reconciled(self, req: ReconcileOrphansRequestView) -> (
        AuthorityView,
        Result<ReconcileOrphansResponseView, Seq<char>>,
    ) {
        let (a, swept) = self.orphans_reported(req.reports).orphans_swept(req.orphan_ttl_ms);
        let (b, cleared) = if req.dead_node_id.len() > 0 {
            (a.node_lost(req.dead_node_id).0, a.node_lost(req.dead_node_id).1->Ok_0.0)
        } else {
            (a, 0nat)
        };
        let refs_cleared = if cleared > u32::MAX {
            u32::MAX
        } else {
            cleared as u32
        };
        if req.gc_cold_limit > 0 && req.gc_model_id.len() > 0 {
            let (c, r) = b.collected(
                (req.gc_model_id, req.gc_revision),
                req.gc_pool_kind,
                req.gc_cold_limit as nat,
            );
            (
                c,
                match r {
                    Err(e) => Err(e),
                    Ok((strip, full)) => Ok(
                        ReconcileOrphansResponseView {
                            discarded: swept + full,
                            cold_stripped: strip,
                            refs_cleared,
                            ok: true,
                            err: Seq::empty(),
                        },
                    ),
                },
            )
        } else {
            (
                b,
                Ok(
                    ReconcileOrphansResponseView {
                        discarded: swept,
                        cold_stripped: Seq::empty(),
                        refs_cleared,
                        ok: true,
                        err: Seq::empty(),
                    },
                ),
            )
        }
    }
}

/// Takes the locations in memory out.
fn cool(locations: &Vec<Location>) -> (r: Vec<Location>)
    ensures
        keys::views(r@) == cooled(keys::views(locations@)),
{
    let ghost all = keys::views(locations@);
    let ghost p = |l: LocationView|
        l.tier != Tier::L0.spec_number() && l.tier != Tier::L1.spec_number();
    let mut r: Vec<Location> = Vec::new();
    let mut i: usize = 0;
    assert(keys::views(r@) =~= all.take(0).filter(p)) by {
        reveal(Seq::filter);
    }
    while i < locations.len()
        invariant
            i <= locations@.len(),
            all == keys::views(locations@),
            p == (|l: LocationView|
                l.tier != Tier::L0.spec_number() && l.tier != Tier::L1.spec_number()),
            keys::views(r@) == all.take(i as int).filter(p),
        decreases locations@.len() - i,
    {
        let l = &locations[i];
        proof {
            reveal(Seq::filter);
            assert(all.take(i + 1).drop_last() =~= all.take(i as int));
            assert(all[i as int] == l@);
        }
        let ghost before = keys::views(r@);
        if l.tier != Tier::L0.number() && l.tier != Tier::L1.number() {
            r.push(l.dup());
            assert(keys::views(r@) =~= before.push(l@));
        }
        i += 1;
    }
    assert(all.take(i as int) =~= all);
    r
}

/// Drops the marks of a block for nodes whose L0 it leaves.
fn cool_marks(marks: &KeySet<Mark>, flat: &Vec<u8>, locations: &Vec<Location>) -> (r: KeySet<Mark>)
    ensures
        r@ == marks_cooled(marks@, flat@, keys::views(locations@)),
{
    let all = marks.members();
    let ghost seen = keys::views(all@);
    let mut r: KeySet<Mark> = KeySet::new();
    let mut i: usize = 0;
    assert(r@ =~= marks_cooled(seen.take(0).to_set(), flat@, keys::views(locations@)));
    while i < all.len()
        invariant
            i <= all@.len(),
            seen == keys::views(all@),
            r@ == marks_cooled(seen.take(i as int).to_set(), flat@, keys::views(locations@)),
        decreases all@.len() - i,
    {
        let m = &all[i];
        assert(seen.take(i + 1) =~= seen.take(i as int).push(m@));
        if !(m.flat.same(flat) && has_tier_on(locations, Tier::L0, m.node_id.as_str())) {
            r.insert(m.dup());
        }
        proof {
            pool::lemma_push_to_set(seen.take(i as int), m@);
            assert(r@ =~= marks_cooled(seen.take(i + 1).to_set(), flat@, keys::views(locations@)));
        }
        i += 1;
    }
    assert(seen.take(i as int) =~= seen);
    r
}

/// Takes a victim out of memory.
fn peel_one(pool: &mut Pool, key: &NamespaceKey, pool_kind: i32, node: Node) -> (r: Option<Peel>)
    requires
        old(pool)@.wf(),
    ensures
        final(pool)@ == peeled_one(old(pool)@, key@, pool_kind, node).0,
        keys::opt(r) == peeled_one(old(pool)@, key@, pool_kind, node).1,
        final(pool)@.wf(),
{
    if pool.held(&node.seq) {
        return None;
    }
    let flat = match pool.seq_to_flat.get(&node.seq) {
        Some(f) => f.dup(),
        None => return None,
    };
    let was = match pool.by_flat.get(&flat) {
        Some(e) => e.meta.dup(),
        None => return None,
    };
    let durable = has_tier(&was.locations, Tier::L2) || was.l3_present;
    let changed = has_tier(&was.locations, Tier::L0) || has_tier(&was.locations, Tier::L1);
    let mut meta = was.dup();
    meta.locations = cool(&was.locations);
    let id = id_or_public(
        &was.id,
        key.model_id.as_str(),
        key.revision.as_str(),
        pool_kind,
        &flat,
    );
    pool.update(&flat, meta.dup());
    pool.marks = cool_marks(&pool.marks, &flat, &was.locations);
    assert(pool@ =~= peeled_one(old(pool)@, key@, pool_kind, node).0);
    assert(pool@.refs == old(pool)@.refs && pool@.inactive == old(pool)@.inactive);
    Some(Peel { node, flat, id, durable, meta, changed })
}

/// Takes victims out of memory.
fn peel_all(pool: &mut Pool, key: &NamespaceKey, pool_kind: i32, victims: &Vec<Node>) -> (r: Vec<
    Peel,
>)
    requires
        old(pool)@.wf(),
    ensures
        final(pool)@ == peeled(old(pool)@, key@, pool_kind, victims@).0,
        keys::views(r@) == peeled(old(pool)@, key@, pool_kind, victims@).1,
        final(pool)@.wf(),
{
    let ghost start = pool@;
    let mut r: Vec<Peel> = Vec::new();
    let mut i: usize = 0;
    assert(victims@.take(0) =~= Seq::empty());
    assert(keys::views(r@) =~= Seq::empty());
    while i < victims.len()
        invariant
            i <= victims@.len(),
            pool@.wf(),
            pool@ == peeled(start, key@, pool_kind, victims@.take(i as int)).0,
            keys::views(r@) == peeled(start, key@, pool_kind, victims@.take(i as int)).1,
        decreases victims@.len() - i,
    {
        assert(victims@.take(i + 1).drop_last() =~= victims@.take(i as int));
        let ghost before = keys::views(r@);
        if let Some(x) = peel_one(pool, key, pool_kind, victims[i]) {
            let ghost v = x@;
            r.push(x);
            assert(keys::views(r@) =~= before.push(v));
        }
        i += 1;
    }
    assert(victims@.take(i as int) =~= victims@);
    r
}

/// Takes out for good what is not durable; returns the addresses and hashes.
fn cast_all(pool: &mut Pool, peels: &Vec<Peel>) -> (r: (Vec<KvBlockId>, Vec<Vec<u8>>))
    requires
        old(pool)@.wf(),
    ensures
        final(pool)@ == cast_off(old(pool)@, keys::views(peels@)).0,
        keys::views(r.0@) == cast_off(old(pool)@, keys::views(peels@)).1,
        keys::views(r.1@) == cast_off(old(pool)@, keys::views(peels@)).2,
        r.0@.len() == r.1@.len(),
        final(pool)@.wf(),
{
    let ghost start = pool@;
    let ghost all = keys::views(peels@);
    let mut ids: Vec<KvBlockId> = Vec::new();
    let mut flats: Vec<Vec<u8>> = Vec::new();
    let mut i: usize = 0;
    assert(all.take(0) =~= Seq::empty());
    assert(keys::views(ids@) =~= Seq::empty());
    assert(keys::views(flats@) =~= Seq::empty());
    while i < peels.len()
        invariant
            i <= peels@.len() == all.len(),
            all == keys::views(peels@),
            pool@.wf(),
            pool@ == cast_off(start, all.take(i as int)).0,
            keys::views(ids@) == cast_off(start, all.take(i as int)).1,
            keys::views(flats@) == cast_off(start, all.take(i as int)).2,
            ids@.len() == flats@.len(),
        decreases peels@.len() - i,
    {
        let x = &peels[i];
        proof {
            assert(all.take(i + 1).drop_last() =~= all.take(i as int));
            assert(all[i as int] == x@);
        }
        if !x.durable && pool.by_flat.contains_key(&x.flat) {
            let ghost (a, b) = (keys::views(ids@), keys::views(flats@));
            pool.cast(&x.node.seq, &x.flat);
            ids.push(x.id.dup());
            flats.push(x.flat.dup());
            assert(keys::views(ids@) =~= a.push(x@.id));
            assert(keys::views(flats@) =~= b.push(x@.flat));
        }
        i += 1;
    }
    assert(all.take(i as int) =~= all);
    (ids, flats)
}

/// Lets what is durable make room again.
fn reenter_all(pool: &mut Pool, peels: &Vec<Peel>)
    requires
        old(pool)@.wf(),
    ensures
        final(pool)@ == reentered(old(pool)@, keys::views(peels@)),
        final(pool)@.wf(),
{
    let ghost start = pool@;
    let ghost all = keys::views(peels@);
    let mut i: usize = 0;
    assert(all.take(0) =~= Seq::empty());
    while i < peels.len()
        invariant
            i <= peels@.len() == all.len(),
            all == keys::views(peels@),
            pool@.wf(),
            pool@ == reentered(start, all.take(i as int)),
        decreases peels@.len() - i,
    {
        let x = &peels[i];
        proof {
            assert(all.take(i + 1).drop_last() =~= all.take(i as int));
            assert(all[i as int] == x@);
        }
        if x.durable && !pool.held(&x.node.seq) {
            pool.enter(x.node.seq, x.node.block_id);
        }
        i += 1;
    }
    assert(all.take(i as int) =~= all);
}

/// Collects the addresses of what is durable.
fn collect_durable(peels: &Vec<Peel>) -> (r: Vec<KvBlockId>)
    ensures
        keys::views(r@) == durable_ids(keys::views(peels@)),
{
    let ghost all = keys::views(peels@);
    let mut r: Vec<KvBlockId> = Vec::new();
    let mut i: usize = 0;
    assert(all.take(0) =~= Seq::empty());
    assert(keys::views(r@) =~= Seq::empty());
    while i < peels.len()
        invariant
            i <= peels@.len() == all.len(),
            all == keys::views(peels@),
            keys::views(r@) == durable_ids(all.take(i as int)),
        decreases peels@.len() - i,
    {
        let x = &peels[i];
        proof {
            assert(all.take(i + 1).drop_last() =~= all.take(i as int));
            assert(all[i as int] == x@);
        }
        let ghost before = keys::views(r@);
        if x.durable {
            r.push(x.id.dup());
            assert(keys::views(r@) =~= before.push(x@.id));
        }
        i += 1;
    }
    assert(all.take(i as int) =~= all);
    r
}

/// Tells of what moved.
fn collect_events(key: &NamespaceKey, pool_kind: i32, peels: &Vec<Peel>) -> (r: Vec<ViewEvent>)
    ensures
        keys::views(r@) == peel_events(key@, pool_kind, keys::views(peels@)),
{
    let ghost all = keys::views(peels@);
    let mut r: Vec<ViewEvent> = Vec::new();
    let mut i: usize = 0;
    assert(all.take(0) =~= Seq::empty());
    assert(keys::views(r@) =~= Seq::empty());
    while i < peels.len()
        invariant
            i <= peels@.len() == all.len(),
            all == keys::views(peels@),
            keys::views(r@) == peel_events(key@, pool_kind, all.take(i as int)),
        decreases peels@.len() - i,
    {
        let x = &peels[i];
        proof {
            assert(all.take(i + 1).drop_last() =~= all.take(i as int));
            assert(all[i as int] == x@);
        }
        let ghost before = keys::views(r@);
        if x.durable && x.changed {
            let e = moved_event(key, pool_kind, &x.flat, &x.meta);
            let ghost v = e@;
            r.push(e);
            assert(keys::views(r@) =~= before.push(v));
        }
        i += 1;
    }
    assert(all.take(i as int) =~= all);
    r
}

/// Tells of a block whose locations are now these.
pub(crate) fn moved_event(key: &NamespaceKey, pool_kind: i32, flat: &Vec<u8>, meta: &BlockMeta) -> (e:
    ViewEvent)
    ensures
        e@ == authority::moved(key@.0, key@.1, pool_kind, flat@, meta@),
{
    upsert_event(
        ViewKind::Moved,
        id_or_public(&meta.id, key.model_id.as_str(), key.revision.as_str(), pool_kind, flat),
        dup_all(&meta.locations),
        meta.l3_present,
        0,
    )
}

impl Pool {
    /// Takes a victim's block out for good.
    fn cast(&mut self, seq: &SequenceHash, flat: &Vec<u8>)
        requires
            old(self)@.wf(),
        ensures
            final(self)@ == (PoolView {
                refs: old(self)@.refs.remove(*seq),
                seq_to_flat: old(self)@.seq_to_flat.remove(*seq),
                ..old(self)@
            }).left(*seq).forgotten(flat@),
            final(self)@.wf(),
    {
        self.refs.remove(seq);
        self.seq_to_flat.remove(seq);
        assert(self@.refs == old(self)@.refs.remove(*seq));
        assert(self@.wf()) by {
            assert forall|s: SequenceHash| #[trigger]
                self@.refs.contains_key(s) implies self@.refs[s].wf() by {
                assert(old(self)@.refs.contains_key(s));
            }
        }
        self.leave(seq);
        self.forget(flat);
    }
}

fn unmark(p: &mut Option<Pool>, node_id: &String)
    requires
        *old(p) is Some ==> (*old(p))->0@.wf(),
    ensures
        keys::opt(*final(p)) == pool_unmarked(keys::opt(*old(p)), node_id@),
        *final(p) is Some ==> (*final(p))->0@.wf(),
{
    match p.take() {
        Some(mut pool) => {
            let ghost was = pool@;
            pool.marks = forget_node(&pool.marks, node_id);
            assert(pool@.refs == was.refs && pool@.inactive == was.inactive);
            *p = Some(pool);
        },
        None => {},
    }
}

impl Authority {
    /// Tells whether a block is in the view.
    fn block_in_view(&self, key: &BlockKey) -> (b: bool)
        ensures
            b == self@.in_view(key@),
    {
        let pk: i32 = match resolve_pool_kind(key.pool_kind) {
            Ok(pk) => pk,
            Err(_) => PoolKind::Target.number(),
        };
        let mut k = key.dup();
        k.pool_kind = pk;
        self.entry_by(&k).is_some()
    }

    fn mark_orphans(&mut self, ids: &Vec<KvBlockId>, node_id: &String, stamp: u64)
        ensures
            final(self)@ == old(self)@.orphaned(keys::views(ids@), node_id@, stamp),
            old(self).wf() ==> final(self).wf(),
    {
        let ghost all = keys::views(ids@);
        let ghost start = self@;
        let mut i: usize = 0;
        assert(all.take(0) =~= Seq::empty());
        while i < ids.len()
            invariant
                i <= ids@.len() == all.len(),
                all == keys::views(ids@),
                self@ == start.orphaned(all.take(i as int), node_id@, stamp),
                start.wf() ==> self@.wf(),
                self.shard == old(self).shard,
                start == old(self)@,
            decreases ids@.len() - i,
        {
            proof {
                assert(all.take(i + 1).drop_last() =~= all.take(i as int));
                assert(all[i as int] == ids@[i as int]@);
            }
            let ghost before = self@;
            let key = BlockKey::from_id(&ids[i]);
            if self.block_in_view(&key) {
                self.orphans.remove(&key);
            } else {
                let id = key.to_id();
                self.orphans.insert(
                    key,
                    OrphanEntry { id, node_id: node_id.dup(), marked_at_ms: stamp },
                );
            }
            assert(self@ =~= start.orphaned(all.take(i + 1), node_id@, stamp));
            i += 1;
        }
        assert(all.take(i as int) =~= all);
    }

    /// Records incomplete writes that agents report; blocks that are in the view
    /// are no orphans.
    pub fn report_orphans(&mut self, reports: &[OrphanReport]) -> (r: Result<(), String>)
        ensures
            final(self)@ == old(self)@.orphans_reported(keys::views(reports@)),
            r is Ok,
            old(self).wf() ==> final(self).wf(),
    {
        let now: u64 = self.now_ms();
        let ghost all = keys::views(reports@);
        let ghost start = self@;
        let mut i: usize = 0;
        assert(all.take(0) =~= Seq::empty());
        while i < reports.len()
            invariant
                i <= reports@.len() == all.len(),
                all == keys::views(reports@),
                now == start.now_ms,
                self@ == start.orphans_reported(all.take(i as int)),
                start == old(self)@,
                old(self).wf() ==> self.wf(),
            decreases reports@.len() - i,
        {
            proof {
                assert(all.take(i + 1).drop_last() =~= all.take(i as int));
                assert(all[i as int] == reports@[i as int]@);
            }
            let r = &reports[i];
            let stamp: u64 = if r.marked_at_ms == 0 {
                now
            } else {
                r.marked_at_ms
            };
            self.mark_orphans(&r.ids, &r.node_id, stamp);
            i += 1;
        }
        assert(all.take(i as int) =~= all);
        Ok(())
    }

    /// Drops what nodes hold of a block.
    fn forget_node_refs(&mut self, b: &BlockKey)
        requires
            old(self).wf(),
        ensures
            final(self)@ == (AuthorityView {
                node_refs: refs_without(old(self)@.node_refs, b@),
                ..old(self)@
            }),
            final(self).wf(),
    {
        let nodes = self.node_refs.keys();
        let ghost all = keys::views(nodes@);
        let ghost start = self@.node_refs;
        let mut i: usize = 0;
        while i < nodes.len()
            invariant
                i <= nodes@.len() == all.len(),
                all == keys::views(nodes@),
                all.no_duplicates(),
                all.to_set() == start.dom(),
                self.node_refs@.dom() == start.dom(),
                forall|j: int|
                    0 <= j < i ==> self.node_refs@[#[trigger] all[j]] == start[all[j]].remove(b@),
                forall|j: int|
                    i <= j < all.len() ==> self.node_refs@[#[trigger] all[j]] == start[all[j]],
                self@ == (AuthorityView { node_refs: self.node_refs@, ..old(self)@ }),
                self.shard == old(self).shard,
            decreases nodes@.len() - i,
        {
            let ghost before = self.node_refs@;
            let ghost n = all[i as int];
            proof {
                assert(n == nodes@[i as int]@);
                assert(all.to_set().contains(n));
            }
            if let Some(mut held) = self.node_refs.remove(&nodes[i]) {
                held.remove(b);
                self.node_refs.insert(nodes[i].dup(), held);
            }
            assert(self.node_refs@ =~= before.insert(n, start[n].remove(b@)));
            assert(self.node_refs@.dom() =~= start.dom());
            assert forall|j: int| 0 <= j < i + 1 implies self.node_refs@[#[trigger] all[j]]
                == start[all[j]].remove(b@) by {
                if j < i {
                    assert(all[j] != all[i as int]);
                }
            }
            assert forall|j: int| i + 1 <= j < all.len() implies self.node_refs@[#[trigger] all[j]]
                == start[all[j]] by {
                assert(all[j] != all[i as int]);
            }
            i += 1;
        }
        proof {
            let goal = refs_without(start, b@);
            assert forall|n: Seq<char>| start.contains_key(n) implies self.node_refs@[n]
                == goal[n] by {
                assert(all.to_set().contains(n));
                let j = choose|j: int| 0 <= j < all.len() && all[j] == n;
                assert(self.node_refs@[all[j]] == start[all[j]].remove(b@));
            }
            assert(self.node_refs@ =~= goal) by {
                assert forall|n: Seq<char>| self.node_refs@.contains_key(n) == goal.contains_key(
                    n,
                ) by {
                    assert(self.node_refs@.dom().contains(n) == start.dom().contains(n));
                }
            }
            assert forall|n: Seq<char>, x: BlockKeyView|
                self@.node_refs.contains_key(n)
                    && #[trigger] self@.node_refs[n].contains_key(x) implies self@.node_refs[n][x].wf() by {
                assert(start[n].contains_key(x));
                assert(old(self)@.node_refs[n].contains_key(x));
            }
        }
    }

    /// Discards a block unless something holds it; tells whether it was there.
    fn discard_one(&mut self, id: &KvBlockId) -> (r: Result<bool, String>)
        requires
            old(self).wf(),
        ensures
            final(self)@ == old(self)@.discarded_one(id@).0,
            keys::told(r) == old(self)@.discarded_one(id@).1,
            final(self).wf(),
    {
        let pk: i32 = match resolve_pool_kind(id.pool_kind) {
            Ok(pk) => pk,
            Err(e) => return Err(e),
        };
        let key = NamespaceKey::from_id(id);
        let b = BlockKey::from_id(id);
        let held = match self.namespaces.get(&key) {
            None => return Ok(false),
            Some(ns) => match ns.pool(pk) {
                None => return Ok(false),
                Some(p) => {
                    assert(p@.wf()) by {
                        assert(self@.spaces.contains_key(key@));
                        assert(ns@.wf());
                    }
                    match p.by_flat.get(&id.block_hash) {
                        None => None,
                        Some(e) => Some(p.held(&e.seq_hash)),
                    }
                },
            },
        };
        match held {
            None => {
                self.orphans.remove(&b);
                assert(self@ =~= old(self)@.discarded_one(id@).0);
                Ok(false)
            },
            Some(true) => Err(text("DiscardBlocks: block has global_refs > 0")),
            Some(false) => {
                if let Some(mut ns) = self.namespaces.remove(&key) {
                    let ghost was = ns@;
                    assert(was.wf());
                    if let Some(mut p) = ns.take_pool(pk) {
                        p.discard(&id.block_hash);
                        ns.put_pool(pk, p);
                    }
                    ns.credit(1);
                    let ghost now = ns@;
                    self.namespaces.insert(key, ns);
                    assert(self@ =~= old(self)@.with_ns((id@.model_id, id@.revision), now));
                }
                self.orphans.remove(&b);
                let event = crate::control::view::invalidated_event(
                    public_id(id.model_id.as_str(), id.revision.as_str(), pk, &id.block_hash),
                );
                self.note_one(event);
                self.forget_node_refs(&b);
                assert(self@ =~= old(self)@.discarded_one(id@).0);
                Ok(true)
            },
        }
    }

    /// Discards blocks, up to the first that something holds; returns those that
    /// were there.
    pub fn discard_blocks(&mut self, ids: &[KvBlockId]) -> (r: Result<Vec<KvBlockId>, String>)
        requires
            old(self).wf(),
        ensures
            final(self)@ == old(self)@.discarded(keys::views(ids@)).0,
            match r {
                Ok(gone) => old(self)@.discarded(keys::views(ids@)).1 == Ok::<
                    Seq<KvBlockIdView>,
                    Seq<char>,
                >(keys::views(gone@)),
                Err(e) => old(self)@.discarded(keys::views(ids@)).1 == Err::<
                    Seq<KvBlockIdView>,
                    Seq<char>,
                >(e@),
            },
            final(self).wf(),
    {
        let ghost all = keys::views(ids@);
        let ghost start = self@;
        let mut out: Vec<KvBlockId> = Vec::new();
        let mut i: usize = 0;
        assert(all.take(0) =~= Seq::empty());
        assert(keys::views(out@) =~= Seq::empty());
        while i < ids.len()
            invariant
                i <= ids@.len() == all.len(),
                all == keys::views(ids@),
                self.wf(),
                start == old(self)@,
                self@ == start.discarded(all.take(i as int)).0,
                start.discarded(all.take(i as int)).1 == Ok::<Seq<KvBlockIdView>, Seq<char>>(
                    keys::views(out@),
                ),
            decreases ids@.len() - i,
        {
            proof {
                assert(all.take(i + 1).drop_last() =~= all.take(i as int));
                assert(all[i as int] == ids@[i as int]@);
            }
            let ghost before = keys::views(out@);
            match self.discard_one(&ids[i]) {
                Err(e) => {
                    proof {
                        lemma_discard_stops(start, all, i + 1);
                    }
                    return Err(e);
                },
                Ok(true) => {
                    out.push(ids[i].dup());
                    assert(keys::views(out@) =~= before.push(all[i as int]));
                },
                Ok(false) => {},
            }
            i += 1;
        }
        assert(all.take(i as int) =~= all);
        Ok(out)
    }

    /// Takes cold blocks of a pool out of memory, and those without a durable copy
    /// out for good; returns the addresses of both.
    pub fn gc_cold(&mut self, model_id: &str, revision: &str, pool_kind: i32, n: usize) -> (r: Result<
        (Vec<KvBlockId>, Vec<KvBlockId>),
        String,
    >)
        requires
            old(self).wf(),
        ensures
            final(self)@ == old(self)@.collected((model_id@, revision@), pool_kind, n as nat).0,
            match r {
                Ok((strip, full)) => old(self)@.collected(
                    (model_id@, revision@),
                    pool_kind,
                    n as nat,
                ).1 == Ok::<(Seq<KvBlockIdView>, Seq<KvBlockIdView>), Seq<char>>(
                    (keys::views(strip@), keys::views(full@)),
                ),
                Err(e) => old(self)@.collected((model_id@, revision@), pool_kind, n as nat).1
                    == Err::<(Seq<KvBlockIdView>, Seq<KvBlockIdView>), Seq<char>>(e@),
            },
            final(self).wf(),
    {
        let none: (Vec<KvBlockId>, Vec<KvBlockId>) = (Vec::new(), Vec::new());
        assert(keys::views(none.0@) =~= Seq::empty() && keys::views(none.1@) =~= Seq::empty());
        if n == 0 {
            return Ok(none);
        }
        let pk: i32 = match resolve_pool_kind(pool_kind) {
            Ok(pk) => pk,
            Err(e) => return Err(e),
        };
        let key = NamespaceKey::new(model_id, revision);
        let mut ns = match self.namespaces.remove(&key) {
            None => {
                assert(self@ =~= old(self)@);
                return Err(
                    joined("gc_cold: unknown namespace ", ns_text(model_id, revision).as_str()),
                );
            },
            Some(ns) => ns,
        };
        let ghost was = ns@;
        assert(was.wf()) by {
            assert(old(self)@.spaces.contains_key(key@));
        }
        let mut pool = match ns.take_pool(pk) {
            None => {
                self.namespaces.insert(key, ns);
                assert(self@ =~= old(self)@);
                return Ok(none);
            },
            Some(p) => p,
        };
        let ghost p = pool@;
        proof {
            crate::control::inactive::allocation_is_complete(p.inactive, n as nat, p.freq);
        }
        let victims = pool.inactive.allocate(n as u64, &pool.freq);
        assert(pool@ =~= PoolView { inactive: p.inactive.allocated(n as nat, p.freq).0, ..p });
        let peels = peel_all(&mut pool, &key, pk, &victims);
        let (gone, flats) = cast_all(&mut pool, &peels);
        reenter_all(&mut pool, &peels);
        ns.put_pool(pk, pool);
        ns.credit(gone.len() as u64);
        let ghost now = ns@;
        let mut events = collect_events(&key, pk, &peels);
        let lost = invalidated_events_for(model_id, revision, &tag_all(pk, &flats));
        crate::control::authority::push_all(&mut events, lost);
        self.namespaces.insert(key, ns);
        assert(self@ =~= old(self)@.with_ns((model_id@, revision@), now));
        self.note(events);
        let ghost a = self@;
        let ghost ring = self.shard;
        let ghost all = keys::views(gone@);
        let mut i: usize = 0;
        assert(all.take(0) =~= Seq::empty());
        while i < gone.len()
            invariant
                i <= gone@.len() == all.len(),
                all == keys::views(gone@),
                self@ == (AuthorityView {
                    orphans: orphans_minus(a.orphans, all.take(i as int)),
                    ..a
                }),
                a.wf(),
                ring.wf(),
                self.shard == ring,
            decreases gone@.len() - i,
        {
            assert(all.take(i + 1).drop_last() =~= all.take(i as int));
            self.orphans.remove(&BlockKey::from_id(&gone[i]));
            i += 1;
        }
        assert(all.take(i as int) =~= all);
        Ok((collect_durable(&peels), gone))
    }

    /// Takes references of one kind back that a dead node held.
    fn release(&mut self, b: &BlockKey, kind: RefKind, n: i64)
        requires
            old(self).wf(),
            n >= 0,
        ensures
            final(self)@ == old(self)@.released(b@, kind, n),
            final(self).wf(),
    {
        let d = RefDelta {
            id: Some(b.to_id()),
            kind: kind.number(),
            delta: 0,
            node_id: String::new(),
        };
        assert(d@.node_id =~= Seq::empty());
        let left: i64 = match self.ref_target(&d) {
            Ok(t) => self.target_accounts(&t).bucket(kind),
            Err(_) => 0,
        };
        let taken: i64 = if n < left {
            n
        } else {
            left
        };
        if taken > 0 {
            let _ = self.report_ref_raw(&d, -taken);
        }
    }

    /// Takes blocks off L0 of a node; returns those that were there.
    fn take_off(&mut self, node_id: &str, blocks: &Vec<BlockKey>) -> (ids: Vec<KvBlockId>)
        requires
            old(self).wf(),
            forall|i: int| 0 <= i < blocks@.len() ==> old(self)@.has_block(
                (#[trigger] keys::views(blocks@)[i]),
            ),
        ensures
            final(self)@ == old(self)@.taken_off(node_id@, keys::views(blocks@)).0,
            keys::views(ids@) == old(self)@.taken_off(node_id@, keys::views(blocks@)).1,
            final(self).wf(),
    {
        let node = text(node_id);
        let ghost all = keys::views(blocks@);
        let ghost start = self@;
        let mut ids: Vec<KvBlockId> = Vec::new();
        let mut i: usize = 0;
        assert(all.take(0) =~= Seq::empty());
        assert(keys::views(ids@) =~= Seq::empty());
        while i < blocks.len()
            invariant
                i <= blocks@.len() == all.len(),
                all == keys::views(blocks@),
                node@ == node_id@,
                self.wf(),
                self@ == start.taken_off(node_id@, all.take(i as int)).0,
                keys::views(ids@) == start.taken_off(node_id@, all.take(i as int)).1,
                forall|b: BlockKeyView| #[trigger] self@.has_block(b) == start.has_block(b),
                forall|j: int| 0 <= j < all.len() ==> start.has_block((#[trigger] all[j])),
            decreases blocks@.len() - i,
        {
            let b = &blocks[i];
            proof {
                assert(all.take(i + 1).drop_last() =~= all.take(i as int));
                assert(all[i as int] == b@);
                assert(start.has_block(all[i as int]));
                assert(self@.has_block(b@));
            }
            let ghost before = self@;
            let on = match self.entry_by(b) {
                Some(e) => has_tier_on(&e.meta.locations, Tier::L0, node_id),
                None => false,
            };
            if on {
                let key = NamespaceKey::new(b.model_id.as_str(), b.revision.as_str());
                if let Some(mut pool) = self.take_pool(&key, b.pool_kind) {
                    let ghost p = pool@;
                    if let Some(e) = pool.by_flat.get(&b.flat) {
                        let mut meta = e.meta.dup();
                        meta.locations = withdraw_location(
                            &meta.locations,
                            Tier::L0.number(),
                            &node,
                        );
                        let event = moved_event(&key, b.pool_kind, &b.flat, &meta);
                        pool.update(&b.flat, meta);
                        assert(pool@ =~= p.off_node(b@.flat, node_id@));
                        let ghost q = pool@;
                        self.put_pool(&key, b.pool_kind, pool);
                        assert(self@ == before.with_pool_at(key@, b@.pool_kind, q));
                        self.note_one(event);
                        assert forall|x: BlockKeyView| #[trigger] self@.has_block(x)
                            == start.has_block(x) by {
                            assert(before.has_block(x) == start.has_block(x));
                        }
                    }
                }
                let ghost sofar = keys::views(ids@);
                ids.push(b.to_id());
                assert(keys::views(ids@) =~= sofar.push(b@.id()));
            }
            i += 1;
        }
        assert(all.take(i as int) =~= all);
        ids
    }

    /// Drops what is ordered on a node.
    fn unmark_all(&mut self, node_id: &str)
        requires
            old(self).wf(),
        ensures
            final(self)@ == old(self)@.unmarked_all(node_id@, old(self)@.names()),
            final(self).wf(),
    {
        let node = text(node_id);
        let names = sorted_keys(&self.namespaces);
        let ghost all = keys::views(names@);
        let ghost start = self@;
        let mut i: usize = 0;
        assert(all.take(0) =~= Seq::empty());
        while i < names.len()
            invariant
                i <= names@.len() == all.len(),
                all == keys::views(names@),
                node@ == node_id@,
                listing::lists::<NamespaceKey>(all, start.spaces.dom()),
                self@.spaces.dom() == start.spaces.dom(),
                self.wf(),
                self@ == start.unmarked_all(node_id@, all.take(i as int)),
            decreases names@.len() - i,
        {
            let k = &names[i];
            let ghost before = self@;
            proof {
                assert(all.take(i + 1).drop_last() =~= all.take(i as int));
                assert(all[i as int] == k@);
                assert(all.to_set().contains(k@));
                assert(self@.spaces.contains_key(k@));
            }
            if let Some(mut ns) = self.namespaces.remove(k) {
                let ghost was = ns@;
                assert(was.wf());
                unmark(&mut ns.target, &node);
                unmark(&mut ns.draft, &node);
                assert(ns@ =~= was.unmarked(node_id@));
                self.namespaces.insert(k.dup(), ns);
                assert(self@ =~= before.with_ns(k@, was.unmarked(node_id@)));
                assert(self@.spaces.dom() =~= start.spaces.dom());
            }
            i += 1;
        }
        assert(all.take(i as int) =~= all);
    }

    /// Cleans up after a dead node: takes its references back, and its copies in L0
    /// and what was ordered on it out. Returns how many blocks it referenced, and
    /// what it held in L0.
    pub fn reconcile_dead_node(&mut self, node_id: &str) -> (r: Result<(u32, Vec<KvBlockId>), String>)
        requires
            old(self).wf(),
        ensures
            final(self)@ == old(self)@.node_lost(node_id@).0,
            match r {
                Ok((n, ids)) => old(self)@.node_lost(node_id@).1 matches Ok((m, touched))
                    && touched == keys::views(ids@) && n == if m > u32::MAX {
                    u32::MAX as nat
                } else {
                    m
                },
                Err(e) => old(self)@.node_lost(node_id@).1 == Err::<
                    (nat, Seq<KvBlockIdView>),
                    Seq<char>,
                >(e@),
            },
            final(self).wf(),
    {
        if node_id.is_empty() {
            return Err(text("reconcile_dead_node: node_id required"));
        }
        let held = match self.node_refs.remove(&text(node_id)) {
            Some(h) => h,
            None => Table::new(),
        };
        let ghost start = AuthorityView {
            node_refs: old(self)@.node_refs.remove(node_id@),
            ..old(self)@
        };
        assert(self@ =~= start);
        let ghost rows = held@;
        proof {
            assert forall|b: BlockKeyView| #[trigger] rows.contains_key(b) implies rows[b].wf() by {
                assert(old(self)@.node_refs[node_id@].contains_key(b));
            }
            assert forall|n: Seq<char>, x: BlockKeyView|
                self@.node_refs.contains_key(n)
                    && #[trigger] self@.node_refs[n].contains_key(x) implies self@.node_refs[n][x].wf() by {
                assert(old(self)@.node_refs[n].contains_key(x));
            }
        }
        let blocks = sorted_keys(&held);
        let ghost all = keys::views(blocks@);
        let mut i: usize = 0;
        assert(all.take(0) =~= Seq::empty());
        while i < blocks.len()
            invariant
                i <= blocks@.len() == all.len(),
                all == keys::views(blocks@),
                rows == held@,
                listing::lists::<BlockKey>(all, rows.dom()),
                forall|b: BlockKeyView| #[trigger] rows.contains_key(b) ==> rows[b].wf(),
                self.wf(),
                self@ == start.released_all(rows, all.take(i as int)),
            decreases blocks@.len() - i,
        {
            let b = &blocks[i];
            proof {
                assert(all.take(i + 1).drop_last() =~= all.take(i as int));
                assert(all[i as int] == b@);
                assert(all.to_set().contains(b@));
                assert(rows.contains_key(b@));
            }
            if let Some(a) = held.get(b) {
                self.release(b, RefKind::Request, a.request);
                self.release(b, RefKind::Writeback, a.writeback);
            }
            i += 1;
        }
        assert(all.take(i as int) =~= all);
        let listed = self.block_keys();
        let ids = self.take_off(node_id, &listed);
        self.unmark_all(node_id);
        let n: u32 = if blocks.len() as u64 > 4_294_967_295 {
            u32::MAX
        } else {
            blocks.len() as u32
        };
        Ok((n, ids))
    }

    /// Drops orphans past their time; returns those that are given up.
    pub fn sweep_orphans(&mut self, ttl_ms: u64) -> (ids: Vec<KvBlockId>)
        requires
            old(self).wf(),
        ensures
            final(self)@ == old(self)@.orphans_swept(ttl_ms).0,
            keys::views(ids@) == old(self)@.orphans_swept(ttl_ms).1,
            final(self).wf(),
    {
        let ttl: u64 = if ttl_ms == 0 {
            DEFAULT_ORPHAN_TTL_MS
        } else {
            ttl_ms
        };
        let now: u64 = self.now_ms();
        let blocks = sorted_keys(&self.orphans);
        let ghost all = keys::views(blocks@);
        let ghost start = self@;
        let mut ids: Vec<KvBlockId> = Vec::new();
        let mut i: usize = 0;
        assert(all.take(0) =~= Seq::empty());
        assert(keys::views(ids@) =~= Seq::empty());
        while i < blocks.len()
            invariant
                i <= blocks@.len() == all.len(),
                all == keys::views(blocks@),
                all.no_duplicates(),
                all.to_set() == start.orphans.dom(),
                now == start.now_ms,
                ttl > 0,
                self@ == start.swept(ttl, all.take(i as int)).0,
                keys::views(ids@) == start.swept(ttl, all.take(i as int)).1,
                self@ == (AuthorityView { orphans: self.orphans@, ..start }),
                start.wf(),
                self.shard == old(self).shard,
                forall|j: int|
                    i <= j < all.len() ==> self.orphans@.contains_key(#[trigger] all[j])
                        && self.orphans@[all[j]] == start.orphans[all[j]],
            decreases blocks@.len() - i,
        {
            let b = &blocks[i];
            proof {
                assert(all.take(i + 1).drop_last() =~= all.take(i as int));
                assert(all[i as int] == b@);
                assert(self.orphans@.contains_key(all[i as int]));
            }
            let expired = match self.orphans.get(b) {
                Some(o) => o.marked_at_ms <= now && now - o.marked_at_ms >= ttl,
                None => false,
            };
            assert(expired == start.expired(b@, ttl));
            if expired {
                let there = self.block_in_view(b);
                assert(there == start.in_view(b@));
                self.orphans.remove(b);
                if !there {
                    let ghost sofar = keys::views(ids@);
                    ids.push(b.to_id());
                    assert(keys::views(ids@) =~= sofar.push(b@.id()));
                }
            }
            assert(self@ =~= start.swept(ttl, all.take(i + 1)).0);
            assert forall|j: int| i + 1 <= j < all.len() implies self.orphans@.contains_key(
                #[trigger] all[j],
            ) && self.orphans@[all[j]] == start.orphans[all[j]] by {
                assert(all[j] != all[i as int]);
            }
            i += 1;
        }
        assert(all.take(i as int) =~= all);
        ids
    }

    /// Takes reports, sweeps, cleans up after a dead node and collects cold blocks,
    /// as far as the request asks for it.
    pub fn reconcile_orphans(&mut self, req: &ReconcileOrphansRequest) -> (r: Result<
        ReconcileOrphansResponse,
        String,
    >)
        requires
            old(self).wf(),
        ensures
            final(self)@ == old(self)@.reconciled(req@).0,
            keys::seen(r) == old(self)@.reconciled(req@).1,
            final(self).wf(),
    {
        if let Err(e) = self.report_orphans(req.reports.as_slice()) {
            return Err(e);
        }
        let mut discarded = self.sweep_orphans(req.orphan_ttl_ms);
        let mut refs_cleared: u32 = 0;
        if !req.dead_node_id.as_str().is_empty() {
            match self.reconcile_dead_node(req.dead_node_id.as_str()) {
                Ok((n, _)) => {
                    refs_cleared = n;
                },
                Err(e) => return Err(e),
            }
        }
        let mut cold_stripped: Vec<KvBlockId> = Vec::new();
        assert(keys::views(cold_stripped@) =~= Seq::empty());
        if req.gc_cold_limit > 0 && !req.gc_model_id.as_str().is_empty() {
            match self.gc_cold(
                req.gc_model_id.as_str(),
                req.gc_revision.as_str(),
                req.gc_pool_kind,
                req.gc_cold_limit as usize,
            ) {
                Ok((strip, mut full)) => {
                    let ghost (a, b) = (discarded@, full@);
                    cold_stripped = strip;
                    discarded.append(&mut full);
                    assert(keys::views(discarded@) =~= keys::views(a) + keys::views(b));
                },
                Err(e) => return Err(e),
            }
        }
        let r = ReconcileOrphansResponse {
            discarded,
            cold_stripped,
            refs_cleared,
            ok: true,
            err: String::new(),
        };
        assert(r@.err =~= Seq::empty());
        Ok(r)
    }
}

proof fn lemma_discard_stops(a: AuthorityView, ids: Seq<KvBlockIdView>, n: int)
    requires
        0 <= n <= ids.len(),
        a.discarded(ids.take(n)).1 is Err,
    ensures
        a.discarded(ids) == a.discarded(ids.take(n)),
    decreases ids.len(),
{
    if n == ids.len() {
        assert(ids.take(n) =~= ids);
    } else {
        assert(ids.drop_last().take(n) =~= ids.take(n));
        lemma_discard_stops(a, ids.drop_last(), n);
    }
}

} // verus!
