//! The control plane as its clients see it: every request is answered, and every
//! write tells its events. Calls, locks and streams are made around it.

use vstd::prelude::*;
use vstd::string::*;

use crate::base::keys;
use crate::base::keys::Dup;
use crate::base::queue;
use crate::base::text;
use crate::base::text::{joined, signed_text, text};
use crate::control::admission::{RegisterStatus, RegisterStatusView};
use crate::control::authority::{Authority, AuthorityView};
use crate::control::blocks;
use crate::control::checkpoint::{CheckpointStore, MemoryCheckpointStore};
use crate::control::hash_chain::MAX_CHAIN;
use crate::control::namespace::BlockKeyView;
use crate::control::register;
use crate::control::register::{collect_hashes, collect_ids};
use crate::control::shard;
use crate::control::snapshot;
use crate::proto::{
    Ack, AckView, CheckpointBlock, CheckpointSnapshot, CheckpointSnapshotView, DefragMode,
    DefragMove, DefragMoveView, GetModelQuotaResponse, GetModelQuotaResponseView, KvBlockId,
    KvBlockIdView, ModelDescriptor, Quota, ReconcileOrphansRequest, ReconcileOrphansRequestView,
    ReconcileOrphansResponse, ReconcileOrphansResponseView, RefDelta, RegisterBlocksRequest,
    RegisterBlocksRequestView, ShardMap, ShardMigration, ShardMigrationView, ViewUpdate,
    ViewUpdateView,
};

verus! {

/// Updates that a slow reader may fall behind by.
pub const DEFAULT_VIEW_BROADCAST_CAP: usize = 256;

/// Blocks that a joining node is warmed with, at most.
pub const DEFAULT_WARMUP_K: usize = 256;

/// The answer to a request that was done or refused.
pub open spec fn acked(r: Result<(), Seq<char>>) -> AckView {
    match r {
        Ok(_) => AckView { ok: true, err: Seq::empty(), backpressure: None },
        Err(e) => AckView { ok: false, err: e, backpressure: None },
    }
}

/// The answer to a write.
pub open spec fn write_acked(who: Seq<char>, r: Result<RegisterStatusView, Seq<char>>) -> AckView {
    match r {
        Ok(RegisterStatusView::Accepted) => acked(Ok(())),
        Ok(RegisterStatusView::RejectedHardQuota(s)) => AckView {
            ok: false,
            err: who + ": admission rejected reason="@ + s.reason + " deficit="@ + text::signed(
                s.deficit_bytes as int,
            ),
            backpressure: Some(s),
        },
        Err(e) => acked(Err(e)),
    }
}

/// An update that only tells where the numbering stands.
pub open spec fn anchor(seq: u64) -> ViewUpdateView {
    ViewUpdateView { seq, events: Seq::empty() }
}

/// No chain of a checkpoint is too long.
pub open spec fn bounded(snap: CheckpointSnapshotView) -> bool {
    forall|i: int|
        0 <= i < snap.blocks.len() ==> (#[trigger] snap.blocks[i]).prefix_chain.len() <= MAX_CHAIN
}

/// The mode of a number on the wire; other numbers ask for both.
pub open spec fn mode_of(raw: i32) -> DefragMode {
    if raw == DefragMode::Unspecified.spec_number() {
        DefragMode::Unspecified
    } else if raw == DefragMode::Compact.spec_number() {
        DefragMode::Compact
    } else if raw == DefragMode::Colocate.spec_number() {
        DefragMode::Colocate
    } else {
        DefragMode::Both
    }
}

impl AuthorityView {
    /// What a subscriber is sent first, and the number from which on it is sent
    /// updates: what it missed, or a snapshot where that is not known any more.
    pub open spec fn catch_up(self, from_seq: u64) -> (Seq<ViewUpdateView>, u64) {
        match self.log.replay(from_seq) {
            Some(ups) => (
                ups,
                if ups.len() > 0 {
                    ups.last().seq
                } else {
                    from_seq
                },
            ),
            None => {
                let last = (self.log.next_seq - 1) as u64;
                (seq![self.snapshot(), anchor(last)], last)
            },
        }
    }

    /// Blocks are registered, and their chain is placed ahead of its use; with the
    /// answer, the update and the order.
    pub open spec fn blocks_taken(self, req: RegisterBlocksRequestView) -> (
        AuthorityView,
        AckView,
        Option<ViewUpdateView>,
        Option<(Seq<char>, Seq<KvBlockIdView>)>,
    ) {
        let (a, r) = self.registered(req.node_id, req.prefix_hashes, req.blocks);
        let ids = register::ids_of(req.blocks);
        let (b, plan) = if r == Ok::<RegisterStatusView, Seq<char>>(RegisterStatusView::Accepted)
            && ids.len() > 0 {
            a.preplaced((ids[0].model_id, ids[0].revision), ids[0].pool_kind, req.prefix_hashes)
        } else {
            (a, None)
        };
        let (c, u) = b.told_events();
        (c, write_acked("RegisterBlocks"@, r), u, plan)
    }

    /// The answer to whether blocks would be let in.
    pub open spec fn admission(self, req: RegisterBlocksRequestView) -> AckView {
        let ids = register::ids_of(req.blocks);
        if ids.len() == 0 {
            acked(Err("AdmitRegisterBlocks: no KVBlockID"@))
        } else {
            write_acked(
                "AdmitRegisterBlocks"@,
                self.preflight(
                    (ids[0].model_id, ids[0].revision),
                    ids[0].pool_kind,
                    register::hashes_of(ids),
                ),
            )
        }
    }
}

fn ack_of(r: Result<(), String>) -> (a: Ack)
    ensures
        a@ == acked(keys::told(r)),
{
    match r {
        Ok(_) => {
            let a = Ack { ok: true, err: String::new(), backpressure: None };
            assert(a@.err =~= Seq::empty());
            a
        },
        Err(e) => Ack { ok: false, err: e, backpressure: None },
    }
}

fn write_ack(who: &str, r: Result<RegisterStatus, String>) -> (a: Ack)
    ensures
        a@ == write_acked(who@, keys::seen(r)),
{
    match r {
        Ok(RegisterStatus::Accepted) => ack_of(Ok(())),
        Ok(RegisterStatus::RejectedHardQuota(s)) => {
            let mut err = joined(who, ": admission rejected reason=");
            err.append(s.reason.as_str());
            err.append(" deficit=");
            err.append(signed_text(s.deficit_bytes).as_str());
            Ack { ok: false, err, backpressure: Some(s) }
        },
        Err(e) => ack_of(Err(e)),
    }
}

/// Tells where the numbering stands.
pub fn anchor_update(seq: u64) -> (u: ViewUpdate)
    ensures
        u@ == anchor(seq),
{
    let u = ViewUpdate { seq, events: Vec::new() };
    assert(u@.events =~= Seq::empty());
    u
}

/// Tells whether an update is new to a subscriber that has seen all up to `last`.
pub fn is_news(last: u64, u: &ViewUpdate) -> (b: bool)
    ensures
        b == (u@.seq > last),
{
    u.seq > last
}

/// The control plane.
pub struct ControlPlane {
    pub authority: Authority,
    pub checkpoints: MemoryCheckpointStore,
    pub paused: bool,
}

impl Default for ControlPlane {
    fn default() -> (cp: Self)
        ensures
            cp.authority@ == AuthorityView::fresh(4096),
            cp.checkpoints.kept() is None,
            !cp.paused,
            cp.wf(),
    {
        ControlPlane {
            authority: Authority::default(),
            checkpoints: MemoryCheckpointStore::new(),
            paused: false,
        }
    }
}

impl ControlPlane {
    /// The authority is sound, and so is the checkpoint that is kept.
    pub open spec fn wf(&self) -> bool {
        &&& self.authority.wf()
        &&& self.checkpoints.kept() matches Some(snap) ==> bounded(snap)
    }

    /// More updates can be numbered.
    pub open spec fn numbered(&self) -> bool {
        self.authority@.log.next_seq < u64::MAX
    }

    /// Nothing but the authority changed.
    pub open spec fn only_authority(&self, was: &ControlPlane) -> bool {
        self.checkpoints == was.checkpoints && self.paused == was.paused
    }

    /// A control plane that knows no model.
    pub fn new() -> (cp: Self)
        ensures
            cp.authority@ == AuthorityView::fresh(4096),
            cp.checkpoints.kept() is None,
            !cp.paused,
            cp.wf(),
    {
        ControlPlane::default()
    }

    /// A control plane that knows no model, with the checkpoint that is kept.
    pub fn with_checkpoint_store(store: MemoryCheckpointStore) -> (cp: Self)
        requires
            store.kept() matches Some(snap) ==> bounded(snap),
        ensures
            cp.authority@ == AuthorityView::fresh(4096),
            cp.checkpoints == store,
            !cp.paused,
            cp.wf(),
    {
        ControlPlane { authority: Authority::default(), checkpoints: store, paused: false }
    }

    /// Tells whether background work is paused.
    pub fn background_paused(&self) -> (b: bool)
        ensures
            b == self.paused,
    {
        self.paused
    }

    /// Pauses background work, or lets it go on.
    pub fn set_background_paused(&mut self, paused: bool)
        ensures
            final(self).paused == paused,
            final(self).authority == old(self).authority,
            final(self).checkpoints == old(self).checkpoints,
    {
        self.paused = paused;
    }

    /// Pauses background work, or lets it go on, and says so.
    pub fn pause_background(&mut self, paused: bool) -> (a: Ack)
        ensures
            final(self).paused == paused,
            final(self).authority == old(self).authority,
            final(self).checkpoints == old(self).checkpoints,
            a@ == acked(Ok(())),
    {
        self.set_background_paused(paused);
        ack_of(Ok(()))
    }

    /// What a subscriber is sent first, and the number from which on it is sent
    /// updates.
    pub fn subscribe_view(&self, resume_from_seq: u64) -> (r: (Vec<ViewUpdate>, u64))
        requires
            self.wf(),
        ensures
            (keys::views(r.0@), r.1) == self.authority@.catch_up(resume_from_seq),
    {
        match self.authority.replay_view_after(resume_from_seq) {
            Some(ups) => {
                let last: u64 = if ups.len() > 0 {
                    ups[ups.len() - 1].seq
                } else {
                    resume_from_seq
                };
                assert(ups@.len() > 0 ==> keys::views(ups@).last() == ups@.last()@);
                (ups, last)
            },
            None => self.resync(),
        }
    }

    /// What a subscriber is sent that fell behind: a snapshot and where the
    /// numbering stands.
    pub fn resync(&self) -> (r: (Vec<ViewUpdate>, u64))
        requires
            self.wf(),
        ensures
            r.1 == self.authority@.log.next_seq - 1,
            keys::views(r.0@) == seq![self.authority@.snapshot(), anchor(r.1)],
    {
        let last: u64 = self.authority.view_last_seq();
        let mut ups: Vec<ViewUpdate> = Vec::new();
        ups.push(self.authority.view_snapshot());
        ups.push(anchor_update(last));
        assert(keys::views(ups@) =~= seq![self.authority@.snapshot(), anchor(last)]);
        (ups, last)
    }

    /// Tells whether blocks would be let in; changes nothing.
    pub fn admit_register_blocks(&self, req: &RegisterBlocksRequest) -> (a: Ack)
        requires
            self.wf(),
        ensures
            a@ == self.authority@.admission(req@),
    {
        let ids = collect_ids(&req.blocks);
        assert(keys::views(ids@).len() == ids@.len());
        if ids.len() == 0 {
            return ack_of(Err(text("AdmitRegisterBlocks: no KVBlockID")));
        }
        let hashes = collect_hashes(&ids);
        assert(keys::views(ids@)[0] == ids@[0]@);
        let r = self.authority.preflight_register(
            ids[0].model_id.as_str(),
            ids[0].revision.as_str(),
            ids[0].pool_kind,
            &hashes,
        );
        write_ack("AdmitRegisterBlocks", r)
    }

    /// Registers blocks; returns the answer, the update to tell, and what to place
    /// where.
    pub fn register_blocks(&mut self, req: RegisterBlocksRequest) -> (r: (
        Ack,
        Option<ViewUpdate>,
        Option<(String, Vec<KvBlockId>)>,
    ))
        requires
            old(self).wf(),
            old(self).numbered(),
            req.prefix_hashes@.len() <= MAX_CHAIN,
        ensures
            ({
                let (a, ack, u, plan) = old(self).authority@.blocks_taken(req@);
                &&& final(self).authority@ == a
                &&& r.0@ == ack
                &&& keys::opt(r.1) == u
                &&& match r.2 {
                    None => plan is None,
                    Some((home, ids)) => plan == Some((home@, keys::views(ids@))),
                }
            }),
            final(self).only_authority(old(self)),
            final(self).wf(),
    {
        let ids = collect_ids(&req.blocks);
        assert(keys::views(ids@).len() == ids@.len());
        let r = self.authority.register(
            req.node_id.as_str(),
            req.prefix_hashes.as_slice(),
            req.blocks,
        );
        let accepted = match &r {
            Ok(RegisterStatus::Accepted) => true,
            _ => false,
        };
        let plan = if accepted && ids.len() > 0 {
            assert(keys::views(ids@)[0] == ids@[0]@);
            self.authority.preplace_on_register(
                ids[0].model_id.as_str(),
                ids[0].revision.as_str(),
                ids[0].pool_kind,
                req.prefix_hashes.as_slice(),
            )
        } else {
            None
        };
        proof {
            lemma_register_keeps_log(
                old(self).authority@,
                req@.node_id,
                req@.prefix_hashes,
                req@.blocks,
            );
        }
        let u = self.authority.commit_view_events();
        (write_ack("RegisterBlocks", r), u, plan)
    }

    /// Applies a batch of reference changes, or refuses all of it.
    pub fn report_ref(&mut self, deltas: &[RefDelta]) -> (a: Ack)
        requires
            old(self).wf(),
        ensures
            ({
                let r = old(self).authority@.refs_reported(keys::views(deltas@));
                match r {
                    Ok(x) => final(self).authority@ == x && a@ == acked(Ok(())),
                    Err(e) => final(self).authority@ == old(self).authority@ && a@ == acked(
                        Err(e),
                    ),
                }
            }),
            final(self).only_authority(old(self)),
            final(self).wf(),
    {
        let r = self.authority.report_refs(deltas);
        ack_of(r)
    }

    /// Records that a request is done on a node.
    pub fn request_barrier(&mut self, request_id: &str, node_id: &str) -> (a: Ack)
        requires
            old(self).wf(),
        ensures
            final(self).authority@ == old(self).authority@.barrier_set(request_id@, node_id@).0,
            a@ == acked(old(self).authority@.barrier_set(request_id@, node_id@).1),
            final(self).only_authority(old(self)),
            final(self).wf(),
    {
        let r = self.authority.complete_barrier(request_id, node_id);
        ack_of(r)
    }

    /// Registers a model.
    pub fn register_model(&mut self, model: Option<ModelDescriptor>) -> (a: Ack)
        requires
            old(self).wf(),
        ensures
            match model {
                None => final(self).authority@ == old(self).authority@ && a@ == acked(
                    Err("RegisterModel: model required"@),
                ),
                Some(m) => final(self).authority@ == old(self).authority@.model_registered(m@).0
                    && a@ == acked(old(self).authority@.model_registered(m@).1),
            },
            final(self).only_authority(old(self)),
            final(self).wf(),
    {
        match model {
            None => ack_of(Err(text("RegisterModel: model required"))),
            Some(m) => {
                let r = self.authority.register_model(m);
                ack_of(r)
            },
        }
    }

    /// Takes a model out; returns the answer and the update to tell.
    pub fn deregister_model(&mut self, model_id: &str, revision: &str) -> (r: (
        Ack,
        Option<ViewUpdate>,
    ))
        requires
            old(self).wf(),
            old(self).numbered(),
        ensures
            ({
                let (a, e) = old(self).authority@.model_deregistered(model_id@, revision@);
                let (b, u) = a.told_events();
                final(self).authority@ == b && r.0@ == acked(e) && keys::opt(r.1) == u
            }),
            final(self).only_authority(old(self)),
            final(self).wf(),
    {
        let r = self.authority.deregister_model(model_id, revision);
        let u = self.authority.commit_view_events();
        (ack_of(r), u)
    }

    /// Sets the limits of a model.
    pub fn set_model_quota(&mut self, model_id: &str, revision: &str, quota: Option<Quota>) -> (a: Ack)
        requires
            old(self).wf(),
        ensures
            match quota {
                None => final(self).authority@ == old(self).authority@ && a@ == acked(
                    Err("SetModelQuota: quota required"@),
                ),
                Some(q) => final(self).authority@ == old(self).authority@.quota_set(
                    model_id@,
                    revision@,
                    q,
                ).0 && a@ == acked(
                    old(self).authority@.quota_set(model_id@, revision@, q).1,
                ),
            },
            final(self).only_authority(old(self)),
            final(self).wf(),
    {
        match quota {
            None => ack_of(Err(text("SetModelQuota: quota required"))),
            Some(q) => {
                let r = self.authority.set_model_quota(model_id, revision, q);
                ack_of(r)
            },
        }
    }

    /// The limits of a model and what it uses.
    pub fn get_model_quota(&self, model_id: &str, revision: &str) -> (r: GetModelQuotaResponse)
        requires
            self.wf(),
        ensures
            r@ == match self.authority@.quota_report(model_id@, revision@) {
                Ok(q) => q,
                Err(e) => GetModelQuotaResponseView {
                    quota: None,
                    used_bytes: 0,
                    borrowed_bytes: 0,
                    backpressure: None,
                    ok: false,
                    err: e,
                },
            },
    {
        match self.authority.get_model_quota(model_id, revision) {
            Ok(r) => r,
            Err(e) => GetModelQuotaResponse {
                quota: None,
                used_bytes: 0,
                borrowed_bytes: 0,
                backpressure: None,
                ok: false,
                err: e,
            },
        }
    }

    /// Cleans up; returns the answer and the update to tell.
    pub fn reconcile_orphans(&mut self, req: &ReconcileOrphansRequest) -> (r: (
        ReconcileOrphansResponse,
        Option<ViewUpdate>,
    ))
        requires
            old(self).wf(),
            old(self).numbered(),
        ensures
            ({
                let (a, e) = old(self).authority@.reconciled(req@);
                let (b, u) = a.told_events();
                &&& final(self).authority@ == b
                &&& keys::opt(r.1) == u
                &&& r.0@ == match e {
                    Ok(x) => x,
                    Err(e) => ReconcileOrphansResponseView {
                        discarded: Seq::empty(),
                        cold_stripped: Seq::empty(),
                        refs_cleared: 0,
                        ok: false,
                        err: e,
                    },
                }
            }),
            final(self).only_authority(old(self)),
            final(self).wf(),
    {
        let r = self.authority.reconcile_orphans(req);
        proof {
            lemma_reconcile_keeps_log(old(self).authority@, req@);
        }
        let u = self.authority.commit_view_events();
        let resp = match r {
            Ok(x) => x,
            Err(e) => {
                let x = ReconcileOrphansResponse {
                    discarded: Vec::new(),
                    cold_stripped: Vec::new(),
                    refs_cleared: 0,
                    ok: false,
                    err: e,
                };
                assert(x@.discarded =~= Seq::empty() && x@.cold_stripped =~= Seq::empty());
                x
            },
        };
        (resp, u)
    }

    /// Discards blocks; returns the answer and the update to tell.
    pub fn discard_blocks(&mut self, ids: &[KvBlockId]) -> (r: (Ack, Option<ViewUpdate>))
        requires
            old(self).wf(),
            old(self).numbered(),
        ensures
            ({
                let (a, e) = old(self).authority@.discarded(keys::views(ids@));
                let (b, u) = a.told_events();
                &&& final(self).authority@ == b
                &&& keys::opt(r.1) == u
                &&& r.0@ == acked(
                    match e {
                        Ok(_) => Ok(()),
                        Err(e) => Err(e),
                    },
                )
            }),
            final(self).only_authority(old(self)),
            final(self).wf(),
    {
        let r = self.authority.discard_blocks(ids);
        proof {
            lemma_discard_keeps_log(old(self).authority@, keys::views(ids@));
        }
        let u = self.authority.commit_view_events();
        let a = match r {
            Ok(_) => ack_of(Ok(())),
            Err(e) => ack_of(Err(e)),
        };
        (a, u)
    }

    /// Saves a checkpoint under the next number; returns it.
    pub fn save_checkpoint(&mut self) -> (r: Result<CheckpointSnapshot, String>)
        requires
            old(self).wf(),
        ensures
            ({
                let was = old(self).authority@;
                let n = if was.checkpoint_seq == u64::MAX {
                    was.checkpoint_seq
                } else {
                    (was.checkpoint_seq + 1) as u64
                };
                let a = AuthorityView { checkpoint_seq: n, ..was };
                &&& final(self).authority@ == a
                &&& r is Ok
                &&& r->Ok_0@ == a.exported(n)
                &&& final(self).checkpoints.kept() == Some(a.exported(n))
            }),
            final(self).paused == old(self).paused,
            final(self).wf(),
    {
        let n: u64 = if self.authority.checkpoint_seq < u64::MAX {
            self.authority.checkpoint_seq + 1
        } else {
            self.authority.checkpoint_seq
        };
        self.authority.checkpoint_seq = n;
        let snap = self.authority.export_snapshot(n);
        proof {
            blocks::known_is_finite(self.authority);
            lemma_export_bounded(self.authority@, n);
        }
        match self.checkpoints.save(snap.dup()) {
            Ok(_) => Ok(snap),
            Err(e) => Err(e),
        }
    }

    /// Rebuilds the authority from a checkpoint, the one that is kept where none is
    /// given; returns the answer and the updates to tell.
    pub fn restore_checkpoint(&mut self, snapshot: Option<CheckpointSnapshot>) -> (r: (
        Ack,
        Vec<ViewUpdate>,
    ))
        requires
            old(self).wf(),
            snapshot matches Some(s) ==> bounded(s@),
        ensures
            ({
                let given = match snapshot {
                    Some(s) => Some(s@),
                    None => old(self).checkpoints.kept(),
                };
                match given {
                    None => final(self).authority@ == old(self).authority@ && r.0@ == acked(
                        Err("RestoreCheckpoint: store empty"@),
                    ) && r.1@.len() == 0,
                    Some(snap) => {
                        let (a, e) = old(self).authority@.imported(snap);
                        &&& final(self).authority@ == a
                        &&& r.0@ == acked(e)
                        &&& e is Ok ==> keys::views(r.1@) == seq![
                            a.snapshot(),
                            anchor((a.log.next_seq - 1) as u64),
                        ]
                        &&& e is Err ==> r.1@.len() == 0
                    },
                }
            }),
            final(self).only_authority(old(self)),
            final(self).wf(),
    {
        let snap = match snapshot {
            Some(s) => s,
            None => match self.checkpoints.load() {
                Ok(Some(s)) => s,
                Ok(None) => {
                    return (ack_of(Err(text("RestoreCheckpoint: store empty"))), Vec::new());
                },
                Err(e) => return (ack_of(Err(e)), Vec::new()),
            },
        };
        assert(bounded(snap@));
        assert(snap@.blocks.len() == snap.blocks@.len());
        let r = self.authority.import_snapshot(&snap);
        let ups = if r.is_ok() {
            self.resync().0
        } else {
            Vec::new()
        };
        (ack_of(r), ups)
    }

    /// Plans the layout of a pool.
    pub fn trigger_defrag(
        &self,
        model_id: &str,
        revision: &str,
        pool_kind: i32,
        mode: i32,
        slot_bytes: u64,
    ) -> (r: Result<Vec<DefragMove>, String>)
        requires
            self.wf(),
        ensures
            match r {
                Ok(moves) => self.authority@.layout_plan(
                    (model_id@, revision@),
                    pool_kind,
                    mode_of(mode),
                    slot_bytes,
                ) == Ok::<Seq<DefragMoveView>, Seq<char>>(keys::views(moves@)),
                Err(e) => self.authority@.layout_plan(
                    (model_id@, revision@),
                    pool_kind,
                    mode_of(mode),
                    slot_bytes,
                ) == Err::<Seq<DefragMoveView>, Seq<char>>(e@),
            },
    {
        let m = if mode == DefragMode::Unspecified.number() {
            DefragMode::Unspecified
        } else if mode == DefragMode::Compact.number() {
            DefragMode::Compact
        } else if mode == DefragMode::Colocate.number() {
            DefragMode::Colocate
        } else {
            DefragMode::Both
        };
        self.authority.plan_defrag(model_id, revision, pool_kind, m, slot_bytes)
    }

    /// Has a node join; returns the ring, what it takes over, and the hot blocks to
    /// warm it with.
    pub fn join_shard_node(&mut self, node_id: &str, vnode_count: u32) -> (r: Result<
        (ShardMap, Vec<ShardMigration>, Vec<KvBlockId>),
        String,
    >)
        requires
            old(self).wf(),
        ensures
            ({
                let (a, e) = old(self).authority@.node_joined(node_id@, vnode_count);
                &&& final(self).authority@ == a
                &&& match r {
                    Ok((map, moves, hot)) => {
                        &&& shard::publishes(map@, a.shard)
                        &&& e == Ok::<Seq<ShardMigrationView>, Seq<char>>(keys::views(moves@))
                        &&& keys::views(hot@) == a.warmup(node_id@, DEFAULT_WARMUP_K as nat)
                    },
                    Err(x) => e == Err::<Seq<ShardMigrationView>, Seq<char>>(x@),
                }
            }),
            final(self).only_authority(old(self)),
            final(self).wf(),
    {
        match self.authority.join_shard_node(node_id, vnode_count) {
            Ok((map, moves)) => {
                let hot = self.authority.warmup_plan(node_id, DEFAULT_WARMUP_K);
                Ok((map, moves, hot))
            },
            Err(e) => Err(e),
        }
    }

    /// Takes a drained node off the ring.
    pub fn remove_shard_node(&mut self, node_id: &str) -> (a: Ack)
        requires
            old(self).wf(),
        ensures
            final(self).authority@ == old(self).authority@.node_removed(node_id@).0,
            a@ == acked(old(self).authority@.node_removed(node_id@).1),
            final(self).only_authority(old(self)),
            final(self).wf(),
    {
        let r = self.authority.remove_shard_node(node_id);
        ack_of(r)
    }
}

proof fn lemma_reclaim_keeps_log(
    a: AuthorityView,
    except: (Seq<char>, Seq<char>),
    want: int,
    names: Seq<(Seq<char>, Seq<char>)>,
)
    ensures
        a.reclaimed(except, want, names).0.log == a.log,
    decreases names.len(),
{
    if names.len() > 0 {
        lemma_reclaim_keeps_log(a, except, want, names.drop_last());
    }
}

proof fn lemma_register_keeps_log(
    a: AuthorityView,
    node_id: Seq<char>,
    prefix: Seq<Seq<u8>>,
    metas: Seq<crate::proto::BlockMetaView>,
)
    ensures
        a.registered(node_id, prefix, metas).0.log == a.log,
{
    assert forall|k: (Seq<char>, Seq<char>), plan: crate::control::admission::AdmitPlanView|
        #[trigger] a.admitted(k, plan).log == a.log by {
        if let crate::control::admission::AdmitPlanView::Accept { own, reclaim } = plan {
            let b = if own > 0 && a.spaces.contains_key(k) {
                a.ns_evicted(k, own)
            } else {
                a
            };
            lemma_reclaim_keeps_log(b, k, reclaim, b.names());
        }
    }
}

proof fn lemma_discard_keeps_log(a: AuthorityView, ids: Seq<KvBlockIdView>)
    ensures
        a.discarded(ids).0.log == a.log,
    decreases ids.len(),
{
    if ids.len() > 0 {
        lemma_discard_keeps_log(a, ids.drop_last());
    }
}

proof fn lemma_orphaned_keeps_log(
    a: AuthorityView,
    ids: Seq<KvBlockIdView>,
    node_id: Seq<char>,
    stamp: u64,
)
    ensures
        a.orphaned(ids, node_id, stamp).log == a.log,
    decreases ids.len(),
{
    if ids.len() > 0 {
        lemma_orphaned_keeps_log(a, ids.drop_last(), node_id, stamp);
    }
}

proof fn lemma_reported_keeps_log(a: AuthorityView, reports: Seq<crate::proto::OrphanReportView>)
    ensures
        a.orphans_reported(reports).log == a.log,
    decreases reports.len(),
{
    if reports.len() > 0 {
        lemma_reported_keeps_log(a, reports.drop_last());
        let r = reports.last();
        lemma_orphaned_keeps_log(
            a.orphans_reported(reports.drop_last()),
            r.ids,
            r.node_id,
            if r.marked_at_ms == 0 {
                a.now_ms
            } else {
                r.marked_at_ms
            },
        );
    }
}

proof fn lemma_swept_keeps_log(a: AuthorityView, ttl: u64, blocks: Seq<BlockKeyView>)
    ensures
        a.swept(ttl, blocks).0.log == a.log,
    decreases blocks.len(),
{
    if blocks.len() > 0 {
        lemma_swept_keeps_log(a, ttl, blocks.drop_last());
    }
}

proof fn lemma_released_keeps_log(
    a: AuthorityView,
    held: Map<BlockKeyView, crate::control::pool::RefAccounts>,
    blocks: Seq<BlockKeyView>,
)
    ensures
        a.released_all(held, blocks).log == a.log,
    decreases blocks.len(),
{
    if blocks.len() > 0 {
        lemma_released_keeps_log(a, held, blocks.drop_last());
    }
}

proof fn lemma_taken_off_keeps_log(a: AuthorityView, node_id: Seq<char>, blocks: Seq<BlockKeyView>)
    ensures
        a.taken_off(node_id, blocks).0.log == a.log,
    decreases blocks.len(),
{
    if blocks.len() > 0 {
        lemma_taken_off_keeps_log(a, node_id, blocks.drop_last());
    }
}

proof fn lemma_unmarked_keeps_log(
    a: AuthorityView,
    node_id: Seq<char>,
    names: Seq<(Seq<char>, Seq<char>)>,
)
    ensures
        a.unmarked_all(node_id, names).log == a.log,
    decreases names.len(),
{
    if names.len() > 0 {
        lemma_unmarked_keeps_log(a, node_id, names.drop_last());
    }
}

proof fn lemma_lost_keeps_log(a: AuthorityView, node_id: Seq<char>)
    ensures
        a.node_lost(node_id).0.log == a.log,
{
    if node_id.len() > 0 {
        let held = if a.node_refs.contains_key(node_id) {
            a.node_refs[node_id]
        } else {
            Map::empty()
        };
        let blocks = crate::base::listing::listing::<crate::control::namespace::BlockKey>(
            held.dom(),
        );
        let b = AuthorityView { node_refs: a.node_refs.remove(node_id), ..a };
        lemma_released_keeps_log(b, held, blocks);
        let c = b.released_all(held, blocks);
        lemma_taken_off_keeps_log(c, node_id, c.all_blocks());
        let d = c.taken_off(node_id, c.all_blocks()).0;
        lemma_unmarked_keeps_log(d, node_id, d.names());
    }
}

proof fn lemma_reconcile_keeps_log(a: AuthorityView, req: ReconcileOrphansRequestView)
    ensures
        a.reconciled(req).0.log == a.log,
{
    lemma_reported_keeps_log(a, req.reports);
    let b = a.orphans_reported(req.reports);
    let ttl = if req.orphan_ttl_ms == 0 {
        crate::control::reconcile::DEFAULT_ORPHAN_TTL_MS
    } else {
        req.orphan_ttl_ms
    };
    lemma_swept_keeps_log(
        b,
        ttl,
        crate::base::listing::listing::<crate::control::namespace::BlockKey>(b.orphans.dom()),
    );
    let c = b.orphans_swept(req.orphan_ttl_ms).0;
    lemma_lost_keeps_log(c, req.dead_node_id);
}

proof fn lemma_export_bounded(a: AuthorityView, seq: u64)
    requires
        a.wf(),
        a.finite(),
    ensures
        bounded(a.exported(seq)),
{
    broadcast use vstd::seq_lib::group_to_multiset_ensures;

    let rows = a.all_blocks().map_values(|b: BlockKeyView| snapshot::saved(a.block(b)));
    let sorted = crate::base::order::ranked::<CheckpointBlock>(rows);
    crate::base::order::ranked_keeps_values::<CheckpointBlock>(rows);
    assert forall|i: int| 0 <= i < sorted.len() implies (
    #[trigger] sorted[i]).prefix_chain.len() <= MAX_CHAIN by {
        assert(sorted.contains(sorted[i]));
        assert(sorted.to_multiset().count(sorted[i]) > 0);
        assert(rows.contains(sorted[i]));
        let j = choose|j: int| 0 <= j < rows.len() && rows[j] == sorted[i];
        let b = a.all_blocks()[j];
        blocks::all_blocks_known(a, j);
        let p = a.pool_at(b.space(), b.pool_kind)->0;
        assert(a.spaces.contains_key(b.space()));
        assert(a.spaces[b.space()].wf());
        assert(p.wf());
        assert(p.by_flat.contains_key(b.flat));
    }
}

/// Catching up reaches the present: the number that a subscriber is sent updates from
/// is the last that was given out, so that the next update, and no earlier one, is news
/// to it.
pub proof fn catching_up_reaches_the_present(a: AuthorityView, from_seq: u64)
    requires
        a.log.wf(),
    ensures
        a.catch_up(from_seq).1 == a.log.next_seq - 1,
        a.told_events().1 is Some ==> a.told_events().1->0.seq > a.catch_up(from_seq).1,
        forall|i: int|
            0 <= i < a.log.updates.len() ==> (#[trigger] a.log.updates[i]).seq <= a.catch_up(
                from_seq,
            ).1,
{
    if a.log.replay(from_seq) is Some {
        let ups = a.log.updates;
        let p = |u: ViewUpdateView| u.seq > from_seq;
        reveal(Seq::filter);
        if from_seq < a.log.next_seq - 1 {
            assert(ups.len() > 0);
            assert(ups[ups.len() - 1].seq == a.log.next_seq - 1);
            assert(ups.filter(p).last() == ups.last());
        } else {
            queue::lemma_filter(ups, p);
            assert(ups.filter(p).len() == 0) by {
                if ups.filter(p).len() > 0 {
                    let u = ups.filter(p)[0];
                    assert(ups.filter(p).contains(u));
                    let j = choose|j: int| 0 <= j < ups.len() && ups[j] == u;
                    assert(ups[j].seq <= a.log.next_seq - 1);
                }
            }
        }
    }
}

/// An answer to a write tells its outcome: it is yes exactly where the write was let in, with
/// no word against it, and carries the pressure exactly where there was no room.
pub proof fn answers_tell_the_outcome(
    who: Seq<char>,
    r: Result<RegisterStatusView, Seq<char>>,
)
    ensures
        ({
            let a = write_acked(who, r);
            &&& a.ok <==> r is Ok && r->Ok_0 is Accepted
            &&& a.ok ==> a.err.len() == 0
            &&& r is Err ==> a.err == r->Err_0
            &&& a.backpressure is Some <==> r is Ok && r->Ok_0 is RejectedHardQuota
            &&& a.backpressure is Some ==> a.backpressure->0 == r->Ok_0->RejectedHardQuota_0
        }),
{
}

} // verus!
