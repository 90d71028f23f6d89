//! The authority on where blocks are: one namespace per model revision, and in it
//! a target and a draft pool. Every change is told as a view event.

use vstd::prelude::*;
use vstd::string::*;

use crate::base::keys;
use crate::base::keys::{dup_all, Dup, Key};
use crate::base::listing;
use crate::base::listing::sorted_keys;
use crate::base::table::Table;
use crate::base::text;
use crate::base::text::{joined, ns_text, text};
use crate::control::namespace;
use crate::control::namespace::{
    invalidated_events_for, BlockKey, BlockKeyView, Namespace, NamespaceKey, NsView,
};
use crate::control::pool;
use crate::control::pool::{id_or_public, EntryView, Pool, PoolView, RefAccounts};
use crate::control::quota;
use crate::control::quota::{borrowed_bytes, validate_quota};
use crate::control::shard::{RingView, ShardRing, DEFAULT_VNODE_COUNT};
use crate::control::view;
use crate::control::view::{upsert_event, LogView, ViewLog};
use crate::proto::{
    BackpressureSignal, BackpressureSignalView, BlockMetaView, GetModelQuotaResponse,
    GetModelQuotaResponseView, KvBlockId, KvBlockIdView, ModelDescriptor, ModelDescriptorView,
    PoolKind, Quota, ViewEvent, ViewEventView, ViewKind, ViewUpdate, ViewUpdateView,
};

verus! {

/// How many blocks per pool may wait to make room, by default.
pub const INACTIVE_CAP: usize = 4096;

/// A write that was never completed.
pub struct OrphanEntry {
    pub id: KvBlockId,
    pub node_id: String,
    pub marked_at_ms: u64,
}

/// What an orphan stands for.
#[verifier::ext_equal]
pub struct OrphanView {
    pub id: KvBlockIdView,
    pub node_id: Seq<char>,
    pub marked_at_ms: u64,
}

impl View for OrphanEntry {
    type V = OrphanView;

    open spec fn view(&self) -> OrphanView {
        OrphanView { id: self.id@, node_id: self.node_id@, marked_at_ms: self.marked_at_ms }
    }
}

/// The namespaces by name.
pub type Spaces = Map<(Seq<char>, Seq<char>), NsView>;

/// What the authority stands for.
#[verifier::ext_equal]
pub struct AuthorityView {
    pub spaces: Spaces,
    pub cap: nat,
    pub barriers: Map<Seq<char>, Seq<char>>,
    pub capacity: i64,
    pub orphans: Map<BlockKeyView, OrphanView>,
    pub node_refs: Map<Seq<char>, Map<BlockKeyView, RefAccounts>>,
    pub now_ms: u64,
    pub checkpoint_seq: u64,
    pub shard: RingView,
    pub log: LogView,
    pub pending: Seq<ViewEventView>,
}

/// The event of a block whose locations are now these.
pub open spec fn moved(
    model_id: Seq<char>,
    revision: Seq<char>,
    pool_kind: i32,
    flat: Seq<u8>,
    meta: BlockMetaView,
) -> ViewEventView {
    view::upserted(
        ViewKind::Moved,
        pool::id_or(meta.id, model_id, revision, pool_kind, flat),
        meta.locations,
        meta.l3_present,
        0,
    )
}

/// The event of a block that is there.
pub open spec fn present_event(
    k: (Seq<char>, Seq<char>),
    pool_kind: i32,
    flat: Seq<u8>,
    meta: BlockMetaView,
) -> ViewEventView {
    view::upserted(
        ViewKind::Registered,
        pool::id_or(meta.id, k.0, k.1, pool_kind, flat),
        meta.locations,
        meta.l3_present,
        meta.block_kind,
    )
}

/// The flat hashes of a pool in order.
pub open spec fn flats_of(p: Option<PoolView>) -> Seq<Seq<u8>> {
    match p {
        Some(p) => listing::listing::<Vec<u8>>(p.by_flat.dom()),
        None => Seq::empty(),
    }
}

/// The events of a pool's blocks.
pub open spec fn pool_events(
    k: (Seq<char>, Seq<char>),
    pool_kind: i32,
    p: Option<PoolView>,
) -> Seq<ViewEventView> {
    flats_of(p).map_values(
        |flat: Seq<u8>| present_event(k, pool_kind, flat, p->0.by_flat[flat].meta),
    )
}

/// The events of a namespace's blocks.
pub open spec fn ns_events(k: (Seq<char>, Seq<char>), ns: NsView) -> Seq<ViewEventView> {
    pool_events(k, PoolKind::Target.spec_number(), ns.target) + pool_events(
        k,
        PoolKind::Draft.spec_number(),
        ns.draft,
    )
}

/// The events of the blocks of some namespaces.
pub open spec fn spaces_events(spaces: Spaces, names: Seq<(Seq<char>, Seq<char>)>) -> Seq<
    ViewEventView,
>
    decreases names.len(),
{
    if names.len() == 0 {
        Seq::empty()
    } else {
        spaces_events(spaces, names.drop_last()) + ns_events(names.last(), spaces[names.last()])
    }
}

/// The blocks of a namespace.
pub open spec fn ns_blocks(ns: NsView) -> Seq<(i32, Seq<u8>)> {
    namespace::tagged(PoolKind::Target.spec_number(), flats_of(ns.target)) + namespace::tagged(
        PoolKind::Draft.spec_number(),
        flats_of(ns.draft),
    )
}

/// What may not change while a model stays registered.
pub open spec fn same_identity(a: ModelDescriptorView, b: ModelDescriptorView) -> bool {
    a.model_id == b.model_id && a.revision == b.revision && a.num_layers == b.num_layers
        && a.hash_algo == b.hash_algo && a.block_spec == b.block_spec
}

impl AuthorityView {
    /// An authority that knows no model.
    pub open spec fn fresh(cap: nat) -> AuthorityView {
        AuthorityView {
            spaces: Map::empty(),
            cap,
            barriers: Map::empty(),
            capacity: 0,
            orphans: Map::empty(),
            node_refs: Map::empty(),
            now_ms: 0,
            checkpoint_seq: 0,
            shard: RingView::fresh(DEFAULT_VNODE_COUNT),
            log: LogView::fresh(1024),
            pending: Seq::empty(),
        }
    }

    /// Every namespace is sound, the log has no gap, and no count is negative.
    pub open spec fn wf(self) -> bool {
        &&& forall|k: (Seq<char>, Seq<char>)| #[trigger]
            self.spaces.contains_key(k) ==> self.spaces[k].wf()
        &&& self.log.wf()
        &&& self.cap >= 1
        &&& self.capacity >= 0
        &&& forall|n: Seq<char>, b: BlockKeyView|
            self.node_refs.contains_key(n) && #[trigger] self.node_refs[n].contains_key(b)
                ==> self.node_refs[n][b].wf()
    }

    /// The authority with a namespace set.
    pub open spec fn with_ns(self, k: (Seq<char>, Seq<char>), ns: NsView) -> AuthorityView {
        AuthorityView { spaces: self.spaces.insert(k, ns), ..self }
    }

    /// The authority with more events to tell.
    pub open spec fn with_events(self, events: Seq<ViewEventView>) -> AuthorityView {
        AuthorityView { pending: self.pending + events, ..self }
    }

    /// A pool of a namespace.
    pub open spec fn pool_at(self, k: (Seq<char>, Seq<char>), pool_kind: i32) -> Option<PoolView> {
        if self.spaces.contains_key(k) {
            self.spaces[k].pool(pool_kind)
        } else {
            None
        }
    }

    /// The authority with a pool set.
    pub open spec fn with_pool_at(
        self,
        k: (Seq<char>, Seq<char>),
        pool_kind: i32,
        p: PoolView,
    ) -> AuthorityView {
        self.with_ns(k, self.spaces[k].with_pool(pool_kind, p))
    }

    /// A block, by its address in parts.
    pub open spec fn entry_at(
        self,
        k: (Seq<char>, Seq<char>),
        raw_kind: i32,
        flat: Seq<u8>,
    ) -> Option<EntryView> {
        match pool::pool_kind_of(raw_kind) {
            Ok(pk) => match self.pool_at(k, pk) {
                Some(p) => if p.by_flat.contains_key(flat) {
                    Some(p.by_flat[flat])
                } else {
                    None
                },
                None => None,
            },
            Err(_) => None,
        }
    }

    /// A model is registered: its limits may change later, nothing else.
    pub open spec fn model_registered(self, desc: ModelDescriptorView) -> (
        AuthorityView,
        Result<(), Seq<char>>,
    ) {
        let k = (desc.model_id, desc.revision);
        if desc.model_id.len() == 0 {
            (self, Err("RegisterModel: model_id required"@))
        } else if desc.quota is Some && quota::quota_verdict(desc.quota->0) is Err {
            (self, Err("RegisterModel: "@ + quota::quota_verdict(desc.quota->0)->Err_0))
        } else if self.spaces.contains_key(k) {
            if !same_identity(self.spaces[k].descriptor, desc) {
                (
                    self,
                    Err(
                        "RegisterModel: immutable fields changed for "@ + text::ns_named(
                            desc.model_id,
                            desc.revision,
                        )
                            + "; use a new revision (num_layers/block_spec/hash_algo must match)"@,
                    ),
                )
            } else {
                (self.with_ns(k, self.spaces[k].with_quota(desc.quota)), Ok(()))
            }
        } else {
            (self.with_ns(k, NsView::fresh(desc, self.cap)), Ok(()))
        }
    }

    /// A model leaves with all its blocks.
    pub open spec fn model_deregistered(self, model_id: Seq<char>, revision: Seq<char>) -> (
        AuthorityView,
        Result<(), Seq<char>>,
    ) {
        let k = (model_id, revision);
        if model_id.len() == 0 {
            (self, Err("DeregisterModel: model_id required"@))
        } else if !self.spaces.contains_key(k) {
            (self, Err("DeregisterModel: unknown namespace "@ + text::ns_named(model_id, revision)))
        } else {
            (
                AuthorityView { spaces: self.spaces.remove(k), ..self }.with_events(
                    namespace::gone_events(model_id, revision, ns_blocks(self.spaces[k])),
                ),
                Ok(()),
            )
        }
    }

    /// The limits of a model are set.
    pub open spec fn quota_set(self, model_id: Seq<char>, revision: Seq<char>, quota: Quota) -> (
        AuthorityView,
        Result<(), Seq<char>>,
    ) {
        let k = (model_id, revision);
        if model_id.len() == 0 {
            (self, Err("SetModelQuota: model_id required"@))
        } else if quota::quota_verdict(quota) is Err {
            (self, Err("SetModelQuota: "@ + quota::quota_verdict(quota)->Err_0))
        } else if !self.spaces.contains_key(k) {
            (self, Err("SetModelQuota: unknown namespace "@ + text::ns_named(model_id, revision)))
        } else {
            (self.with_ns(k, self.spaces[k].with_quota(Some(quota))), Ok(()))
        }
    }

    /// The limits of a model and what it uses.
    pub open spec fn quota_report(self, model_id: Seq<char>, revision: Seq<char>) -> Result<
        GetModelQuotaResponseView,
        Seq<char>,
    > {
        let k = (model_id, revision);
        if model_id.len() == 0 {
            Err("GetModelQuota: model_id required"@)
        } else if !self.spaces.contains_key(k) {
            Err("GetModelQuota: unknown namespace "@ + text::ns_named(model_id, revision))
        } else {
            let ns = self.spaces[k];
            let q = ns.quota();
            Ok(
                GetModelQuotaResponseView {
                    quota: Some(q),
                    used_bytes: ns.used,
                    borrowed_bytes: quota::borrowed(ns.used as int, q.soft_bytes as int) as i64,
                    backpressure: if q.hard_bytes > 0 && ns.used > q.hard_bytes {
                        Some(
                            BackpressureSignalView {
                                model_id,
                                revision,
                                used_bytes: ns.used,
                                soft_bytes: q.soft_bytes,
                                hard_bytes: q.hard_bytes,
                                deficit_bytes: (ns.used - q.hard_bytes) as i64,
                                reason: "HARD_QUOTA"@,
                            },
                        )
                    } else {
                        None
                    },
                    ok: true,
                    err: Seq::empty(),
                },
            )
        }
    }

    /// Every block that is there, as one update without a number.
    pub open spec fn snapshot(self) -> ViewUpdateView {
        ViewUpdateView {
            seq: 0,
            events: spaces_events(self.spaces, listing::listing::<NamespaceKey>(self.spaces.dom())),
        }
    }

    /// The events to tell are told under the next number.
    pub open spec fn told_events(self) -> (AuthorityView, Option<ViewUpdateView>) {
        if self.pending.len() == 0 {
            (self, None)
        } else {
            (
                AuthorityView {
                    log: self.log.committed(self.pending),
                    pending: Seq::empty(),
                    ..self
                },
                Some(self.log.next(self.pending)),
            )
        }
    }
}

/// The authority as stored.
pub struct Authority {
    pub namespaces: Table<NamespaceKey, Namespace>,
    pub inactive_cap: usize,
    pub completed_barriers: Table<String, String>,
    pub capacity_bytes: i64,
    pub orphans: Table<BlockKey, OrphanEntry>,
    pub node_refs: Table<String, Table<BlockKey, RefAccounts>>,
    pub now: u64,
    pub checkpoint_seq: u64,
    pub shard: ShardRing,
    pub view_log: ViewLog,
    pub pending_view_events: Vec<ViewEvent>,
}

impl View for Authority {
    type V = AuthorityView;

    open spec fn view(&self) -> AuthorityView {
        AuthorityView {
            spaces: self.namespaces@,
            cap: self.inactive_cap as nat,
            barriers: self.completed_barriers@,
            capacity: self.capacity_bytes,
            orphans: self.orphans@,
            node_refs: self.node_refs@,
            now_ms: self.now,
            checkpoint_seq: self.checkpoint_seq,
            shard: self.shard@,
            log: self.view_log@,
            pending: keys::views(self.pending_view_events@),
        }
    }
}

impl Default for Authority {
    fn default() -> (a: Self)
        ensures
            a@ == AuthorityView::fresh(4096),
            a.wf(),
    {
        Authority::with_inactive_cap(INACTIVE_CAP)
    }
}

/// Collects the flat hashes of a pool in order.
pub fn sorted_flats(p: &Option<Pool>) -> (r: Vec<Vec<u8>>)
    ensures
        keys::views(r@) == flats_of(keys::opt(*p)),
        *p is Some ==> listing::lists::<Vec<u8>>(keys::views(r@), p->0@.by_flat.dom()),
{
    match p {
        Some(p) => sorted_keys(&p.by_flat),
        None => {
            let r: Vec<Vec<u8>> = Vec::new();
            assert(keys::views(r@) =~= Seq::empty());
            r
        },
    }
}

fn push_tagged(out: &mut Vec<(i32, Vec<u8>)>, pool_kind: i32, flats: Vec<Vec<u8>>)
    ensures
        keys::views(final(out)@) == keys::views(old(out)@) + namespace::tagged(pool_kind, keys::views(flats@)),
{
    let ghost first = keys::views(out@);
    let ghost all = keys::views(flats@);
    let mut i: usize = 0;
    assert(first + namespace::tagged(pool_kind, all.take(0)) =~= first);
    while i < flats.len()
        invariant
            i <= flats@.len(),
            all == keys::views(flats@),
            keys::views(out@) == first + namespace::tagged(pool_kind, all.take(i as int)),
        decreases flats@.len() - i,
    {
        let ghost before = keys::views(out@);
        let g = (pool_kind, flats[i].dup());
        let ghost v = g@;
        out.push(g);
        assert(keys::views(out@) =~= before.push(v));
        assert(first + namespace::tagged(pool_kind, all.take(i + 1)) =~= before.push(v));
        i += 1;
    }
    assert(all.take(i as int) =~= all);
}

/// Collects the blocks of a namespace.
pub fn blocks_of(ns: &Namespace) -> (r: Vec<(i32, Vec<u8>)>)
    ensures
        keys::views(r@) == ns_blocks(ns@),
{
    let mut r: Vec<(i32, Vec<u8>)> = Vec::new();
    push_tagged(&mut r, PoolKind::Target.number(), sorted_flats(&ns.target));
    push_tagged(&mut r, PoolKind::Draft.number(), sorted_flats(&ns.draft));
    assert(keys::views(r@) =~= ns_blocks(ns@));
    r
}

fn push_pool_events(
    out: &mut Vec<ViewEvent>,
    k: &NamespaceKey,
    pool_kind: i32,
    pool: &Option<Pool>,
)
    ensures
        keys::views(final(out)@) == keys::views(old(out)@) + pool_events(k@, pool_kind, keys::opt(*pool)),
{
    let flats = sorted_flats(pool);
    let ghost first = keys::views(out@);
    let ghost all = pool_events(k@, pool_kind, keys::opt(*pool));
    let mut i: usize = 0;
    assert(first + all.take(0) =~= first);
    while i < flats.len()
        invariant
            i <= flats@.len() == all.len(),
            keys::views(flats@) == flats_of(keys::opt(*pool)),
            *pool is Some ==> listing::lists::<Vec<u8>>(keys::views(flats@), pool->0@.by_flat.dom()),
            all == pool_events(k@, pool_kind, keys::opt(*pool)),
            keys::views(out@) == first + all.take(i as int),
        decreases flats@.len() - i,
    {
        if let Some(p) = pool {
            proof {
                assert(keys::views(flats@)[i as int] == flats@[i as int]@);
                assert(keys::views(flats@).to_set().contains(flats@[i as int]@));
            }
            if let Some(e) = p.by_flat.get(&flats[i]) {
                let ghost before = keys::views(out@);
                let ev = upsert_event(
                    ViewKind::Registered,
                    id_or_public(
                        &e.meta.id,
                        k.model_id.as_str(),
                        k.revision.as_str(),
                        pool_kind,
                        &flats[i],
                    ),
                    dup_all(&e.meta.locations),
                    e.meta.l3_present,
                    e.meta.block_kind,
                );
                let ghost v = ev@;
                out.push(ev);
                assert(keys::views(out@) =~= before.push(v));
                assert(v == all[i as int]);
                assert(all.take(i + 1) =~= all.take(i as int).push(v));
                assert(first + all.take(i + 1) =~= before.push(v));
            }
        }
        i += 1;
    }
    assert(all.take(i as int) =~= all);
}

/// Appends events.
pub fn push_all(out: &mut Vec<ViewEvent>, mut more: Vec<ViewEvent>)
    ensures
        keys::views(final(out)@) == keys::views(old(out)@) + keys::views(more@),
{
    let ghost (a, b) = (out@, more@);
    out.append(&mut more);
    assert(keys::views(out@) =~= keys::views(a) + keys::views(b));
}

impl Authority {
    /// What the view holds is sound, and so is the ring.
    pub open spec fn wf(&self) -> bool {
        self@.wf() && self.shard.wf()
    }

    /// An authority that knows no model.
    pub fn with_inactive_cap(inactive_cap: usize) -> (a: Self)
        ensures
            a@ == AuthorityView::fresh(
                if inactive_cap == 0 {
                    1
                } else {
                    inactive_cap as nat
                },
            ),
            a.wf(),
    {
        let a = Authority {
            namespaces: Table::new(),
            inactive_cap: if inactive_cap == 0 {
                1
            } else {
                inactive_cap
            },
            completed_barriers: Table::new(),
            capacity_bytes: 0,
            orphans: Table::new(),
            node_refs: Table::new(),
            now: 0,
            checkpoint_seq: 0,
            shard: ShardRing::new(DEFAULT_VNODE_COUNT),
            view_log: ViewLog::default(),
            pending_view_events: Vec::new(),
        };
        assert(a@.pending =~= Seq::empty());
        a
    }

    /// Sets the capacity that namespaces borrow from; nothing means unlimited.
    pub fn set_pool_capacity_bytes(&mut self, bytes: i64)
        ensures
            final(self)@ == (AuthorityView {
                capacity: if bytes > 0 {
                    bytes
                } else {
                    0
                },
                ..old(self)@
            }),
            old(self).wf() ==> final(self).wf(),
    {
        self.capacity_bytes = if bytes > 0 {
            bytes
        } else {
            0
        };
    }

    /// The capacity that namespaces borrow from.
    pub fn pool_capacity_bytes(&self) -> (n: i64)
        ensures
            n == self@.capacity,
    {
        self.capacity_bytes
    }

    /// Sets the clock.
    pub fn set_now_ms(&mut self, now: u64)
        ensures
            final(self)@ == (AuthorityView { now_ms: now, ..old(self)@ }),
            old(self).wf() ==> final(self).wf(),
    {
        self.now = now;
    }

    /// The clock.
    pub fn now_ms(&self) -> (n: u64)
        ensures
            n == self@.now_ms,
    {
        self.now
    }

    /// Takes a pool out, to be put back with `put_pool`.
    pub(crate) fn take_pool(&mut self, key: &NamespaceKey, pool_kind: i32) -> (p: Option<Pool>)
        requires
            old(self).wf(),
        ensures
            match p {
                Some(p) => old(self)@.pool_at(key@, pool_kind) == Some(p@) && p@.wf(),
                None => old(self)@.pool_at(key@, pool_kind) is None && final(self)@ == old(self)@,
            },
            final(self).wf(),
            p is Some ==> final(self)@.spaces.contains_key(key@),
            p is Some ==> forall|q: PoolView|
                final(self)@.with_pool_at(key@, pool_kind, q) == #[trigger] old(
                    self,
                )@.with_pool_at(key@, pool_kind, q),
    {
        match self.namespaces.remove(key) {
            None => {
                assert(self@ =~= old(self)@);
                None
            },
            Some(mut ns) => {
                let ghost was = ns@;
                let p = ns.take_pool(pool_kind);
                let ghost now = ns@;
                self.namespaces.insert(key.dup(), ns);
                assert(self@ =~= old(self)@.with_ns(key@, now));
                proof {
                    if p is Some {
                        assert forall|q: PoolView|
                            self@.with_pool_at(key@, pool_kind, q) == #[trigger] old(
                                self,
                            )@.with_pool_at(key@, pool_kind, q) by {
                            assert(now.with_pool(pool_kind, q) == was.with_pool(pool_kind, q));
                            assert(self@.with_pool_at(key@, pool_kind, q) =~= old(
                                self,
                            )@.with_pool_at(key@, pool_kind, q));
                        }
                    } else {
                        assert(self@ =~= old(self)@);
                    }
                }
                p
            },
        }
    }

    /// Puts a pool back.
    pub(crate) fn put_pool(&mut self, key: &NamespaceKey, pool_kind: i32, p: Pool)
        requires
            old(self).wf(),
            old(self)@.spaces.contains_key(key@),
            p@.wf(),
        ensures
            final(self)@ == old(self)@.with_pool_at(key@, pool_kind, p@),
            final(self).wf(),
    {
        if let Some(mut ns) = self.namespaces.remove(key) {
            ns.put_pool(pool_kind, p);
            self.namespaces.insert(key.dup(), ns);
        }
        assert(self@ =~= old(self)@.with_pool_at(key@, pool_kind, p@));
    }

    /// Adds events to tell.
    pub(crate) fn note(&mut self, events: Vec<ViewEvent>)
        ensures
            final(self)@ == old(self)@.with_events(keys::views(events@)),
            old(self).wf() ==> final(self).wf(),
    {
        push_all(&mut self.pending_view_events, events);
        assert(self@ =~= old(self)@.with_events(keys::views(events@)));
    }

    /// Adds an event to tell.
    pub(crate) fn note_one(&mut self, event: ViewEvent)
        ensures
            final(self)@ == old(self)@.with_events(seq![event@]),
            old(self).wf() ==> final(self).wf(),
    {
        let ghost before = self.pending_view_events@;
        self.pending_view_events.push(event);
        assert(keys::views(self.pending_view_events@) =~= keys::views(before) + seq![event@]);
        assert(self@ =~= old(self)@.with_events(seq![event@]));
    }

    /// Tells the events of a write under the next number, if there are any.
    pub fn commit_view_events(&mut self) -> (u: Option<ViewUpdate>)
        requires
            old(self).wf(),
            old(self)@.log.next_seq < u64::MAX,
        ensures
            final(self)@ == old(self)@.told_events().0,
            keys::opt(u) == old(self)@.told_events().1,
            final(self).wf(),
    {
        if self.pending_view_events.len() == 0 {
            return None;
        }
        let mut events: Vec<ViewEvent> = Vec::new();
        std::mem::swap(&mut events, &mut self.pending_view_events);
        let u = self.view_log.commit(events);
        assert(self@.pending =~= Seq::empty());
        assert(self@ =~= old(self)@.told_events().0);
        Some(u)
    }

    /// Every block that is there, by namespace, pool and hash.
    pub fn view_snapshot(&self) -> (u: ViewUpdate)
        ensures
            u@ == self@.snapshot(),
    {
        let names = sorted_keys(&self.namespaces);
        let ghost all = keys::views(names@);
        let mut events: Vec<ViewEvent> = Vec::new();
        let mut i: usize = 0;
        assert(keys::views(events@) =~= spaces_events(self@.spaces, all.take(0)));
        while i < names.len()
            invariant
                i <= names@.len(),
                all == keys::views(names@),
                listing::lists::<NamespaceKey>(all, self@.spaces.dom()),
                keys::views(events@) == spaces_events(self@.spaces, all.take(i as int)),
            decreases names@.len() - i,
        {
            let k = &names[i];
            proof {
                assert(all[i as int] == k@);
                assert(all.to_set().contains(k@));
                assert(all.take(i + 1).drop_last() =~= all.take(i as int));
            }
            if let Some(ns) = self.namespaces.get(k) {
                let ghost before = keys::views(events@);
                push_pool_events(&mut events, k, PoolKind::Target.number(), &ns.target);
                push_pool_events(&mut events, k, PoolKind::Draft.number(), &ns.draft);
                assert(keys::views(events@) =~= before + ns_events(k@, ns@));
            }
            i += 1;
        }
        assert(all.take(i as int) =~= all);
        ViewUpdate { seq: 0, events }
    }

    /// The updates after a number, or nothing where only a snapshot will do.
    pub fn replay_view_after(&self, from_seq: u64) -> (r: Option<Vec<ViewUpdate>>)
        ensures
            match r {
                Some(ups) => self@.log.replay(from_seq) == Some(keys::views(ups@)),
                None => self@.log.replay(from_seq) is None,
            },
    {
        self.view_log.replay_after(from_seq)
    }

    /// The last number that was given out; zero before the first.
    pub fn view_last_seq(&self) -> (n: u64)
        requires
            self.wf(),
        ensures
            n == self@.log.next_seq - 1,
    {
        self.view_log.last_seq()
    }

    /// Registers a model, or changes the limits of a registered one.
    pub fn register_model(&mut self, desc: ModelDescriptor) -> (r: Result<(), String>)
        requires
            old(self).wf(),
        ensures
            final(self)@ == old(self)@.model_registered(desc@).0,
            keys::told(r) == old(self)@.model_registered(desc@).1,
            final(self).wf(),
    {
        if desc.model_id.as_str().is_empty() {
            return Err(text("RegisterModel: model_id required"));
        }
        if let Some(q) = &desc.quota {
            if let Err(e) = validate_quota(q) {
                return Err(joined("RegisterModel: ", e.as_str()));
            }
        }
        let key = NamespaceKey::new(desc.model_id.as_str(), desc.revision.as_str());
        match self.namespaces.remove(&key) {
            Some(mut ns) => {
                let ghost was = ns@;
                if !descriptor_identity_eq(&ns.descriptor, &desc) {
                    let mut e = joined(
                        "RegisterModel: immutable fields changed for ",
                        ns_text(desc.model_id.as_str(), desc.revision.as_str()).as_str(),
                    );
                    e.append("; use a new revision (num_layers/block_spec/hash_algo must match)");
                    self.namespaces.insert(key, ns);
                    assert(self@ =~= old(self)@);
                    return Err(e);
                }
                ns.descriptor.quota = desc.quota;
                assert(ns@ =~= was.with_quota(desc@.quota));
                self.namespaces.insert(key, ns);
                assert(self@ =~= old(self)@.model_registered(desc@).0);
            },
            None => {
                let ns = Namespace::new(desc, self.inactive_cap);
                self.namespaces.insert(key, ns);
                assert(self@ =~= old(self)@.model_registered(desc@).0);
            },
        }
        Ok(())
    }

    /// Takes a model and all its blocks out.
    pub fn deregister_model(&mut self, model_id: &str, revision: &str) -> (r: Result<(), String>)
        requires
            old(self).wf(),
        ensures
            final(self)@ == old(self)@.model_deregistered(model_id@, revision@).0,
            keys::told(r) == old(self)@.model_deregistered(model_id@, revision@).1,
            final(self).wf(),
    {
        if model_id.is_empty() {
            return Err(text("DeregisterModel: model_id required"));
        }
        let key = NamespaceKey::new(model_id, revision);
        match self.namespaces.remove(&key) {
            None => {
                assert(self@ =~= old(self)@);
                Err(
                    joined(
                        "DeregisterModel: unknown namespace ",
                        ns_text(model_id, revision).as_str(),
                    ),
                )
            },
            Some(ns) => {
                let gone = blocks_of(&ns);
                let ghost mid = AuthorityView { spaces: old(self)@.spaces.remove(key@), ..old(self)@ };
                assert(self@ =~= mid);
                assert(self@.wf());
                self.note(invalidated_events_for(model_id, revision, &gone));
                Ok(())
            },
        }
    }

    /// Sets the limits of a model.
    pub fn set_model_quota(&mut self, model_id: &str, revision: &str, quota: Quota) -> (r: Result<
        (),
        String,
    >)
        requires
            old(self).wf(),
        ensures
            final(self)@ == old(self)@.quota_set(model_id@, revision@, quota).0,
            keys::told(r) == old(self)@.quota_set(model_id@, revision@, quota).1,
            final(self).wf(),
    {
        if model_id.is_empty() {
            return Err(text("SetModelQuota: model_id required"));
        }
        if let Err(e) = validate_quota(&quota) {
            return Err(joined("SetModelQuota: ", e.as_str()));
        }
        let key = NamespaceKey::new(model_id, revision);
        match self.namespaces.remove(&key) {
            None => {
                assert(self@ =~= old(self)@);
                Err(
                    joined(
                        "SetModelQuota: unknown namespace ",
                        ns_text(model_id, revision).as_str(),
                    ),
                )
            },
            Some(mut ns) => {
                let ghost was = ns@;
                ns.descriptor.quota = Some(quota);
                assert(ns@ =~= was.with_quota(Some(quota)));
                self.namespaces.insert(key, ns);
                assert(self@ =~= old(self)@.quota_set(model_id@, revision@, quota).0);
                Ok(())
            },
        }
    }

    /// The limits of a model, what it uses, and a signal where it is over the hard
    /// limit.
    pub fn get_model_quota(&self, model_id: &str, revision: &str) -> (r: Result<
        GetModelQuotaResponse,
        String,
    >)
        requires
            self.wf(),
        ensures
            keys::seen(r) == self@.quota_report(model_id@, revision@),
    {
        if model_id.is_empty() {
            return Err(text("GetModelQuota: model_id required"));
        }
        match self.ns(model_id, revision) {
            None => Err(
                joined("GetModelQuota: unknown namespace ", ns_text(model_id, revision).as_str()),
            ),
            Some(ns) => {
                let q = ns.quota();
                let used: i64 = ns.used_bytes;
                let backpressure = if q.hard_bytes > 0 && used > q.hard_bytes {
                    Some(
                        BackpressureSignal {
                            model_id: text(model_id),
                            revision: text(revision),
                            used_bytes: used,
                            soft_bytes: q.soft_bytes,
                            hard_bytes: q.hard_bytes,
                            deficit_bytes: used - q.hard_bytes,
                            reason: text("HARD_QUOTA"),
                        },
                    )
                } else {
                    None
                };
                let r = GetModelQuotaResponse {
                    quota: Some(q),
                    used_bytes: used,
                    borrowed_bytes: borrowed_bytes(used, q.soft_bytes),
                    backpressure,
                    ok: true,
                    err: String::new(),
                };
                assert(r@.err =~= Seq::empty());
                assert(r@ =~= self@.quota_report(model_id@, revision@)->Ok_0);
                Ok(r)
            },
        }
    }

    /// The namespace of a model.
    pub(crate) fn ns(&self, model_id: &str, revision: &str) -> (r: Option<&Namespace>)
        ensures
            match r {
                Some(ns) => self@.spaces.contains_key((model_id@, revision@)) && ns@
                    == self@.spaces[(model_id@, revision@)],
                None => !self@.spaces.contains_key((model_id@, revision@)),
            },
    {
        self.namespaces.get(&NamespaceKey::new(model_id, revision))
    }

    /// The bytes that a model is charged; nothing for a stranger.
    pub fn used_bytes(&self, model_id: &str, revision: &str) -> (n: i64)
        ensures
            n == if self@.spaces.contains_key((model_id@, revision@)) {
                self@.spaces[(model_id@, revision@)].used
            } else {
                0
            },
    {
        match self.ns(model_id, revision) {
            Some(ns) => ns.used_bytes,
            None => 0,
        }
    }

    /// Tells whether a model is registered.
    pub fn has_namespace(&self, model_id: &str, revision: &str) -> (b: bool)
        ensures
            b == self@.spaces.contains_key((model_id@, revision@)),
    {
        self.ns(model_id, revision).is_some()
    }

    /// The descriptor of a model.
    pub fn model_descriptor(&self, model_id: &str, revision: &str) -> (r: Option<&ModelDescriptor>)
        ensures
            match r {
                Some(d) => self@.spaces.contains_key((model_id@, revision@)) && d@
                    == self@.spaces[(model_id@, revision@)].descriptor,
                None => !self@.spaces.contains_key((model_id@, revision@)),
            },
    {
        match self.ns(model_id, revision) {
            Some(ns) => Some(&ns.descriptor),
            None => None,
        }
    }

    /// How many blocks a model has; none for a stranger.
    pub fn block_count(&self, model_id: &str, revision: &str) -> (n: usize)
        requires
            self@.spaces.contains_key((model_id@, revision@)) ==> self@.spaces[(
                model_id@,
                revision@,
            )].block_count() <= usize::MAX,
        ensures
            n == if self@.spaces.contains_key((model_id@, revision@)) {
                self@.spaces[(model_id@, revision@)].block_count()
            } else {
                0
            },
    {
        match self.ns(model_id, revision) {
            Some(ns) => ns.block_count(),
            None => 0,
        }
    }
}

impl NsView {
    /// The namespace with other limits.
    pub open spec fn with_quota(self, quota: Option<Quota>) -> NsView {
        NsView { descriptor: ModelDescriptorView { quota, ..self.descriptor }, ..self }
    }
}

/// Tells whether nothing changed that may not change.
fn descriptor_identity_eq(a: &ModelDescriptor, b: &ModelDescriptor) -> (same: bool)
    ensures
        same == same_identity(a@, b@),
{
    let spec_same = match (a.block_spec, b.block_spec) {
        (Some(x), Some(y)) => x == y,
        (None, None) => true,
        _ => false,
    };
    a.model_id.same(&b.model_id) && a.revision.same(&b.revision) && a.num_layers == b.num_layers
        && a.hash_algo == b.hash_algo && spec_same
}

} // verus!
