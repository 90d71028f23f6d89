//! The messages of the lake, as plain values.

use vstd::prelude::*;

use crate::base::keys;
use crate::base::keys::{dup_all, dup_opt, Dup};

verus! {

/// Which pool of a model.
#[derive(Debug, Clone, Copy, PartialEq, Eq, Structural)]
pub enum PoolKind {
    Unspecified,
    Target,
    Draft,
}

impl PoolKind {
    /// The number on the wire.
    pub open spec fn spec_number(self) -> i32 {
        match self {
            PoolKind::Unspecified => 0,
            PoolKind::Target => 1,
            PoolKind::Draft => 2,
        }
    }

    /// The number on the wire.
    pub fn number(self) -> (n: i32)
        ensures
            n == self.spec_number(),
    {
        match self {
            PoolKind::Unspecified => 0,
            PoolKind::Target => 1,
            PoolKind::Draft => 2,
        }
    }
}

/// A storage tier.
#[derive(Debug, Clone, Copy, PartialEq, Eq, Structural)]
pub enum Tier {
    Unspecified,
    L0,
    L1,
    L2,
    L3,
}

impl Tier {
    /// The number on the wire.
    pub open spec fn spec_number(self) -> i32 {
        match self {
            Tier::Unspecified => 0,
            Tier::L0 => 1,
            Tier::L1 => 2,
            Tier::L2 => 3,
            Tier::L3 => 4,
        }
    }

    /// The number on the wire.
    pub fn number(self) -> (n: i32)
        ensures
            n == self.spec_number(),
    {
        match self {
            Tier::Unspecified => 0,
            Tier::L0 => 1,
            Tier::L1 => 2,
            Tier::L2 => 3,
            Tier::L3 => 4,
        }
    }
}

/// Why a block is referenced.
#[derive(Debug, Clone, Copy, PartialEq, Eq, Structural)]
pub enum RefKind {
    Unspecified,
    Request,
    Writeback,
    InFlight,
}

impl RefKind {
    /// The number on the wire.
    pub open spec fn spec_number(self) -> i32 {
        match self {
            RefKind::Unspecified => 0,
            RefKind::Request => 1,
            RefKind::Writeback => 2,
            RefKind::InFlight => 3,
        }
    }

    /// The number on the wire.
    pub fn number(self) -> (n: i32)
        ensures
            n == self.spec_number(),
    {
        match self {
            RefKind::Unspecified => 0,
            RefKind::Request => 1,
            RefKind::Writeback => 2,
            RefKind::InFlight => 3,
        }
    }
}

/// Which layout work to plan.
#[derive(Debug, Clone, Copy, PartialEq, Eq, Structural)]
pub enum DefragMode {
    Unspecified,
    Compact,
    Colocate,
    Both,
}

impl DefragMode {
    /// The number on the wire.
    pub open spec fn spec_number(self) -> i32 {
        match self {
            DefragMode::Unspecified => 0,
            DefragMode::Compact => 1,
            DefragMode::Colocate => 2,
            DefragMode::Both => 3,
        }
    }

    /// The number on the wire.
    pub fn number(self) -> (n: i32)
        ensures
            n == self.spec_number(),
    {
        match self {
            DefragMode::Unspecified => 0,
            DefragMode::Compact => 1,
            DefragMode::Colocate => 2,
            DefragMode::Both => 3,
        }
    }
}

/// What a block holds.
#[derive(Debug, Clone, Copy, PartialEq, Eq, Structural)]
pub enum BlockKind {
    Unspecified,
    TType,
}

impl BlockKind {
    /// The number on the wire.
    pub open spec fn spec_number(self) -> i32 {
        match self {
            BlockKind::Unspecified => 0,
            BlockKind::TType => 1,
        }
    }

    /// The number on the wire.
    pub fn number(self) -> (n: i32)
        ensures
            n == self.spec_number(),
    {
        match self {
            BlockKind::Unspecified => 0,
            BlockKind::TType => 1,
        }
    }
}

/// How flat hashes are made.
#[derive(Debug, Clone, Copy, PartialEq, Eq, Structural)]
pub enum HashAlgo {
    Unspecified,
    HashSha256256,
}

impl HashAlgo {
    /// The number on the wire.
    pub open spec fn spec_number(self) -> i32 {
        match self {
            HashAlgo::Unspecified => 0,
            HashAlgo::HashSha256256 => 1,
        }
    }

    /// The number on the wire.
    pub fn number(self) -> (n: i32)
        ensures
            n == self.spec_number(),
    {
        match self {
            HashAlgo::Unspecified => 0,
            HashAlgo::HashSha256256 => 1,
        }
    }
}

/// What happened to a block.
#[derive(Debug, Clone, Copy, PartialEq, Eq, Structural)]
pub enum ViewKind {
    Unspecified,
    Registered,
    Moved,
    Invalidated,
}

impl ViewKind {
    /// The number on the wire.
    pub open spec fn spec_number(self) -> i32 {
        match self {
            ViewKind::Unspecified => 0,
            ViewKind::Registered => 1,
            ViewKind::Moved => 2,
            ViewKind::Invalidated => 3,
        }
    }

    /// The number on the wire.
    pub fn number(self) -> (n: i32)
        ensures
            n == self.spec_number(),
    {
        match self {
            ViewKind::Unspecified => 0,
            ViewKind::Registered => 1,
            ViewKind::Moved => 2,
            ViewKind::Invalidated => 3,
        }
    }
}

/// What a pull does about blocks that are missing.
#[derive(Debug, Clone, Copy, PartialEq, Eq, Structural)]
pub enum PullPolicy {
    PullBestEffort,
    PullWaitComplete,
    PullTimeout,
}

impl PullPolicy {
    /// The number on the wire.
    pub open spec fn spec_number(self) -> i32 {
        match self {
            PullPolicy::PullBestEffort => 0,
            PullPolicy::PullWaitComplete => 1,
            PullPolicy::PullTimeout => 2,
        }
    }

    /// The number on the wire.
    pub fn number(self) -> (n: i32)
        ensures
            n == self.spec_number(),
    {
        match self {
            PullPolicy::PullBestEffort => 0,
            PullPolicy::PullWaitComplete => 1,
            PullPolicy::PullTimeout => 2,
        }
    }
}

/// How far a transfer is.
#[derive(Debug, Clone, Copy, PartialEq, Eq, Structural)]
pub enum TransferState {
    Pending,
    InFlight,
    Done,
    Failed,
}

impl TransferState {
    /// The number on the wire.
    pub open spec fn spec_number(self) -> i32 {
        match self {
            TransferState::Pending => 0,
            TransferState::InFlight => 1,
            TransferState::Done => 2,
            TransferState::Failed => 3,
        }
    }

    /// The number on the wire.
    pub fn number(self) -> (n: i32)
        ensures
            n == self.spec_number(),
    {
        match self {
            TransferState::Pending => 0,
            TransferState::InFlight => 1,
            TransferState::Done => 2,
            TransferState::Failed => 3,
        }
    }
}

/// Limits of a namespace; zero means unlimited.
#[derive(Debug, Clone, Copy, PartialEq, Eq, Structural, Default)]
pub struct Quota {
    pub soft_bytes: i64,
    pub hard_bytes: i64,
    pub borrow_enabled: bool,
}

impl View for Quota {
    type V = Quota;

    open spec fn view(&self) -> Quota {
        *self
    }
}

/// The size of a block.
#[derive(Debug, Clone, Copy, PartialEq, Eq, Structural, Default)]
pub struct BlockSpec {
    pub block_tokens: u32,
    pub bytes_per_block: u64,
}

impl View for BlockSpec {
    type V = BlockSpec;

    open spec fn view(&self) -> BlockSpec {
        *self
    }
}

fn dup_u64s(v: &Vec<u64>) -> (copy: Vec<u64>)
    ensures
        copy@ == v@,
{
    let copy = v.clone();
    assert(copy@ =~= v@);
    copy
}

/// The address of a block.
#[derive(Debug, Clone, PartialEq, Eq, Default)]
pub struct KvBlockId {
    /// The model.
    pub model_id: String,
    /// Its revision.
    pub revision: String,
    /// The pool, by number; zero means the target pool.
    pub pool_kind: i32,
    /// The flat content hash.
    pub block_hash: Vec<u8>,
    /// Who may see it.
    pub scope: String,
}

/// What a `KvBlockId` stands for.
#[verifier::ext_equal]
pub struct KvBlockIdView {
    pub model_id: Seq<char>,
    pub revision: Seq<char>,
    pub pool_kind: i32,
    pub block_hash: Seq<u8>,
    pub scope: Seq<char>,
}

impl View for KvBlockId {
    type V = KvBlockIdView;

    open spec fn view(&self) -> KvBlockIdView {
        KvBlockIdView {
            model_id: self.model_id@,
            revision: self.revision@,
            pool_kind: self.pool_kind,
            block_hash: self.block_hash@,
            scope: self.scope@,
        }
    }
}

impl Dup for KvBlockId {
    fn dup(&self) -> (copy: Self) {
        KvBlockId {
            model_id: self.model_id.dup(),
            revision: self.revision.dup(),
            pool_kind: self.pool_kind,
            block_hash: self.block_hash.dup(),
            scope: self.scope.dup(),
        }
    }
}

/// A copy of a block: a tier of a node, and where in it.
#[derive(Debug, Clone, PartialEq, Eq, Default)]
pub struct Location {
    pub tier: i32,
    pub node_id: String,
    pub segment_id: u64,
    pub offset: u64,
}

/// What a `Location` stands for.
#[verifier::ext_equal]
pub struct LocationView {
    pub tier: i32,
    pub node_id: Seq<char>,
    pub segment_id: u64,
    pub offset: u64,
}

impl View for Location {
    type V = LocationView;

    open spec fn view(&self) -> LocationView {
        LocationView {
            tier: self.tier,
            node_id: self.node_id@,
            segment_id: self.segment_id,
            offset: self.offset,
        }
    }
}

impl Dup for Location {
    fn dup(&self) -> (copy: Self) {
        Location {
            tier: self.tier,
            node_id: self.node_id.dup(),
            segment_id: self.segment_id,
            offset: self.offset,
        }
    }
}

/// What the view holds of a block.
#[derive(Debug, Clone, PartialEq, Eq, Default)]
pub struct BlockMeta {
    pub id: Option<KvBlockId>,
    pub block_kind: i32,
    pub locations: Vec<Location>,
    /// Object storage holds it.
    pub l3_present: bool,
    pub ref_count: i32,
}

/// What a `BlockMeta` stands for.
#[verifier::ext_equal]
pub struct BlockMetaView {
    pub id: Option<KvBlockIdView>,
    pub block_kind: i32,
    pub locations: Seq<LocationView>,
    pub l3_present: bool,
    pub ref_count: i32,
}

impl View for BlockMeta {
    type V = BlockMetaView;

    open spec fn view(&self) -> BlockMetaView {
        BlockMetaView {
            id: keys::opt(self.id),
            block_kind: self.block_kind,
            locations: keys::views(self.locations@),
            l3_present: self.l3_present,
            ref_count: self.ref_count,
        }
    }
}

impl Dup for BlockMeta {
    fn dup(&self) -> (copy: Self) {
        BlockMeta {
            id: dup_opt(&self.id),
            block_kind: self.block_kind,
            locations: dup_all(&self.locations),
            l3_present: self.l3_present,
            ref_count: self.ref_count,
        }
    }
}

/// A registered model.
#[derive(Debug, Clone, PartialEq, Eq, Default)]
pub struct ModelDescriptor {
    pub model_id: String,
    pub revision: String,
    pub num_layers: u32,
    pub block_spec: Option<BlockSpec>,
    pub hash_algo: i32,
    pub quota: Option<Quota>,
}

/// What a `ModelDescriptor` stands for.
#[verifier::ext_equal]
pub struct ModelDescriptorView {
    pub model_id: Seq<char>,
    pub revision: Seq<char>,
    pub num_layers: u32,
    pub block_spec: Option<BlockSpec>,
    pub hash_algo: i32,
    pub quota: Option<Quota>,
}

impl View for ModelDescriptor {
    type V = ModelDescriptorView;

    open spec fn view(&self) -> ModelDescriptorView {
        ModelDescriptorView {
            model_id: self.model_id@,
            revision: self.revision@,
            num_layers: self.num_layers,
            block_spec: self.block_spec,
            hash_algo: self.hash_algo,
            quota: self.quota,
        }
    }
}

impl Dup for ModelDescriptor {
    fn dup(&self) -> (copy: Self) {
        ModelDescriptor {
            model_id: self.model_id.dup(),
            revision: self.revision.dup(),
            num_layers: self.num_layers,
            block_spec: self.block_spec,
            hash_algo: self.hash_algo,
            quota: self.quota,
        }
    }
}

/// Why a write was refused, and by how much it was too large.
#[derive(Debug, Clone, PartialEq, Eq, Default)]
pub struct BackpressureSignal {
    pub model_id: String,
    pub revision: String,
    pub used_bytes: i64,
    pub soft_bytes: i64,
    pub hard_bytes: i64,
    pub deficit_bytes: i64,
    pub reason: String,
}

/// What a `BackpressureSignal` stands for.
#[verifier::ext_equal]
pub struct BackpressureSignalView {
    pub model_id: Seq<char>,
    pub revision: Seq<char>,
    pub used_bytes: i64,
    pub soft_bytes: i64,
    pub hard_bytes: i64,
    pub deficit_bytes: i64,
    pub reason: Seq<char>,
}

impl View for BackpressureSignal {
    type V = BackpressureSignalView;

    open spec fn view(&self) -> BackpressureSignalView {
        BackpressureSignalView {
            model_id: self.model_id@,
            revision: self.revision@,
            used_bytes: self.used_bytes,
            soft_bytes: self.soft_bytes,
            hard_bytes: self.hard_bytes,
            deficit_bytes: self.deficit_bytes,
            reason: self.reason@,
        }
    }
}

impl Dup for BackpressureSignal {
    fn dup(&self) -> (copy: Self) {
        BackpressureSignal {
            model_id: self.model_id.dup(),
            revision: self.revision.dup(),
            used_bytes: self.used_bytes,
            soft_bytes: self.soft_bytes,
            hard_bytes: self.hard_bytes,
            deficit_bytes: self.deficit_bytes,
            reason: self.reason.dup(),
        }
    }
}

/// Quota and usage of a model.
#[derive(Debug, Clone, PartialEq, Eq, Default)]
pub struct GetModelQuotaResponse {
    pub quota: Option<Quota>,
    pub used_bytes: i64,
    pub borrowed_bytes: i64,
    pub backpressure: Option<BackpressureSignal>,
    pub ok: bool,
    pub err: String,
}

/// What a `GetModelQuotaResponse` stands for.
#[verifier::ext_equal]
pub struct GetModelQuotaResponseView {
    pub quota: Option<Quota>,
    pub used_bytes: i64,
    pub borrowed_bytes: i64,
    pub backpressure: Option<BackpressureSignalView>,
    pub ok: bool,
    pub err: Seq<char>,
}

impl View for GetModelQuotaResponse {
    type V = GetModelQuotaResponseView;

    open spec fn view(&self) -> GetModelQuotaResponseView {
        GetModelQuotaResponseView {
            quota: self.quota,
            used_bytes: self.used_bytes,
            borrowed_bytes: self.borrowed_bytes,
            backpressure: keys::opt(self.backpressure),
            ok: self.ok,
            err: self.err@,
        }
    }
}

impl Dup for GetModelQuotaResponse {
    fn dup(&self) -> (copy: Self) {
        GetModelQuotaResponse {
            quota: self.quota,
            used_bytes: self.used_bytes,
            borrowed_bytes: self.borrowed_bytes,
            backpressure: dup_opt(&self.backpressure),
            ok: self.ok,
            err: self.err.dup(),
        }
    }
}

/// A change of a reference count.
#[derive(Debug, Clone, PartialEq, Eq, Default)]
pub struct RefDelta {
    pub id: Option<KvBlockId>,
    pub kind: i32,
    pub delta: i32,
    pub node_id: String,
}

/// What a `RefDelta` stands for.
#[verifier::ext_equal]
pub struct RefDeltaView {
    pub id: Option<KvBlockIdView>,
    pub kind: i32,
    pub delta: i32,
    pub node_id: Seq<char>,
}

impl View for RefDelta {
    type V = RefDeltaView;

    open spec fn view(&self) -> RefDeltaView {
        RefDeltaView {
            id: keys::opt(self.id),
            kind: self.kind,
            delta: self.delta,
            node_id: self.node_id@,
        }
    }
}

impl Dup for RefDelta {
    fn dup(&self) -> (copy: Self) {
        RefDelta {
            id: dup_opt(&self.id),
            kind: self.kind,
            delta: self.delta,
            node_id: self.node_id.dup(),
        }
    }
}

/// A change of the location view.
#[derive(Debug, Clone, PartialEq, Eq, Default)]
pub struct ViewEvent {
    pub kind: i32,
    pub id: Option<KvBlockId>,
    pub locations: Vec<Location>,
    pub l3_present: bool,
    pub block_kind: i32,
}

/// What a `ViewEvent` stands for.
#[verifier::ext_equal]
pub struct ViewEventView {
    pub kind: i32,
    pub id: Option<KvBlockIdView>,
    pub locations: Seq<LocationView>,
    pub l3_present: bool,
    pub block_kind: i32,
}

impl View for ViewEvent {
    type V = ViewEventView;

    open spec fn view(&self) -> ViewEventView {
        ViewEventView {
            kind: self.kind,
            id: keys::opt(self.id),
            locations: keys::views(self.locations@),
            l3_present: self.l3_present,
            block_kind: self.block_kind,
        }
    }
}

impl Dup for ViewEvent {
    fn dup(&self) -> (copy: Self) {
        ViewEvent {
            kind: self.kind,
            id: dup_opt(&self.id),
            locations: dup_all(&self.locations),
            l3_present: self.l3_present,
            block_kind: self.block_kind,
        }
    }
}

/// Events under one sequence number; zero is a snapshot.
#[derive(Debug, Clone, PartialEq, Eq, Default)]
pub struct ViewUpdate {
    pub seq: u64,
    pub events: Vec<ViewEvent>,
}

/// What a `ViewUpdate` stands for.
#[verifier::ext_equal]
pub struct ViewUpdateView {
    pub seq: u64,
    pub events: Seq<ViewEventView>,
}

impl View for ViewUpdate {
    type V = ViewUpdateView;

    open spec fn view(&self) -> ViewUpdateView {
        ViewUpdateView {
            seq: self.seq,
            events: keys::views(self.events@),
        }
    }
}

impl Dup for ViewUpdate {
    fn dup(&self) -> (copy: Self) {
        ViewUpdate {
            seq: self.seq,
            events: dup_all(&self.events),
        }
    }
}

/// A block that a prefix lookup found.
#[derive(Debug, Clone, PartialEq, Eq, Default)]
pub struct ReusableBlock {
    pub id: Option<KvBlockId>,
    pub meta: Option<BlockMeta>,
    /// The requester holds it in L0.
    pub local_hit: bool,
}

/// What a `ReusableBlock` stands for.
#[verifier::ext_equal]
pub struct ReusableBlockView {
    pub id: Option<KvBlockIdView>,
    pub meta: Option<BlockMetaView>,
    pub local_hit: bool,
}

impl View for ReusableBlock {
    type V = ReusableBlockView;

    open spec fn view(&self) -> ReusableBlockView {
        ReusableBlockView {
            id: keys::opt(self.id),
            meta: keys::opt(self.meta),
            local_hit: self.local_hit,
        }
    }
}

impl Dup for ReusableBlock {
    fn dup(&self) -> (copy: Self) {
        ReusableBlock {
            id: dup_opt(&self.id),
            meta: dup_opt(&self.meta),
            local_hit: self.local_hit,
        }
    }
}

/// Incomplete writes of a node.
#[derive(Debug, Clone, PartialEq, Eq, Default)]
pub struct OrphanReport {
    pub node_id: String,
    pub ids: Vec<KvBlockId>,
    pub marked_at_ms: u64,
}

/// What a `OrphanReport` stands for.
#[verifier::ext_equal]
pub struct OrphanReportView {
    pub node_id: Seq<char>,
    pub ids: Seq<KvBlockIdView>,
    pub marked_at_ms: u64,
}

impl View for OrphanReport {
    type V = OrphanReportView;

    open spec fn view(&self) -> OrphanReportView {
        OrphanReportView {
            node_id: self.node_id@,
            ids: keys::views(self.ids@),
            marked_at_ms: self.marked_at_ms,
        }
    }
}

impl Dup for OrphanReport {
    fn dup(&self) -> (copy: Self) {
        OrphanReport {
            node_id: self.node_id.dup(),
            ids: dup_all(&self.ids),
            marked_at_ms: self.marked_at_ms,
        }
    }
}

/// What a reconciliation covers.
#[derive(Debug, Clone, PartialEq, Eq, Default)]
pub struct ReconcileOrphansRequest {
    pub reports: Vec<OrphanReport>,
    pub orphan_ttl_ms: u64,
    pub dead_node_id: String,
    pub gc_cold_limit: u32,
    pub gc_model_id: String,
    pub gc_revision: String,
    pub gc_pool_kind: i32,
}

/// What a `ReconcileOrphansRequest` stands for.
#[verifier::ext_equal]
pub struct ReconcileOrphansRequestView {
    pub reports: Seq<OrphanReportView>,
    pub orphan_ttl_ms: u64,
    pub dead_node_id: Seq<char>,
    pub gc_cold_limit: u32,
    pub gc_model_id: Seq<char>,
    pub gc_revision: Seq<char>,
    pub gc_pool_kind: i32,
}

impl View for ReconcileOrphansRequest {
    type V = ReconcileOrphansRequestView;

    open spec fn view(&self) -> ReconcileOrphansRequestView {
        ReconcileOrphansRequestView {
            reports: keys::views(self.reports@),
            orphan_ttl_ms: self.orphan_ttl_ms,
            dead_node_id: self.dead_node_id@,
            gc_cold_limit: self.gc_cold_limit,
            gc_model_id: self.gc_model_id@,
            gc_revision: self.gc_revision@,
            gc_pool_kind: self.gc_pool_kind,
        }
    }
}

impl Dup for ReconcileOrphansRequest {
    fn dup(&self) -> (copy: Self) {
        ReconcileOrphansRequest {
            reports: dup_all(&self.reports),
            orphan_ttl_ms: self.orphan_ttl_ms,
            dead_node_id: self.dead_node_id.dup(),
            gc_cold_limit: self.gc_cold_limit,
            gc_model_id: self.gc_model_id.dup(),
            gc_revision: self.gc_revision.dup(),
            gc_pool_kind: self.gc_pool_kind,
        }
    }
}

/// What a reconciliation did.
#[derive(Debug, Clone, PartialEq, Eq, Default)]
pub struct ReconcileOrphansResponse {
    pub discarded: Vec<KvBlockId>,
    pub cold_stripped: Vec<KvBlockId>,
    pub refs_cleared: u32,
    pub ok: bool,
    pub err: String,
}

/// What a `ReconcileOrphansResponse` stands for.
#[verifier::ext_equal]
pub struct ReconcileOrphansResponseView {
    pub discarded: Seq<KvBlockIdView>,
    pub cold_stripped: Seq<KvBlockIdView>,
    pub refs_cleared: u32,
    pub ok: bool,
    pub err: Seq<char>,
}

impl View for ReconcileOrphansResponse {
    type V = ReconcileOrphansResponseView;

    open spec fn view(&self) -> ReconcileOrphansResponseView {
        ReconcileOrphansResponseView {
            discarded: keys::views(self.discarded@),
            cold_stripped: keys::views(self.cold_stripped@),
            refs_cleared: self.refs_cleared,
            ok: self.ok,
            err: self.err@,
        }
    }
}

impl Dup for ReconcileOrphansResponse {
    fn dup(&self) -> (copy: Self) {
        ReconcileOrphansResponse {
            discarded: dup_all(&self.discarded),
            cold_stripped: dup_all(&self.cold_stripped),
            refs_cleared: self.refs_cleared,
            ok: self.ok,
            err: self.err.dup(),
        }
    }
}

/// A block of a checkpoint, with the chain from the root to it.
#[derive(Debug, Clone, PartialEq, Eq, Default)]
pub struct CheckpointBlock {
    pub meta: Option<BlockMeta>,
    pub prefix_chain: Vec<Vec<u8>>,
}

/// What a `CheckpointBlock` stands for.
#[verifier::ext_equal]
pub struct CheckpointBlockView {
    pub meta: Option<BlockMetaView>,
    pub prefix_chain: Seq<Seq<u8>>,
}

impl View for CheckpointBlock {
    type V = CheckpointBlockView;

    open spec fn view(&self) -> CheckpointBlockView {
        CheckpointBlockView {
            meta: keys::opt(self.meta),
            prefix_chain: keys::views(self.prefix_chain@),
        }
    }
}

impl Dup for CheckpointBlock {
    fn dup(&self) -> (copy: Self) {
        CheckpointBlock {
            meta: dup_opt(&self.meta),
            prefix_chain: dup_all(&self.prefix_chain),
        }
    }
}

/// Everything a checkpoint holds.
#[derive(Debug, Clone, PartialEq, Eq, Default)]
pub struct CheckpointSnapshot {
    pub seq: u64,
    pub models: Vec<ModelDescriptor>,
    pub blocks: Vec<CheckpointBlock>,
}

/// What a `CheckpointSnapshot` stands for.
#[verifier::ext_equal]
pub struct CheckpointSnapshotView {
    pub seq: u64,
    pub models: Seq<ModelDescriptorView>,
    pub blocks: Seq<CheckpointBlockView>,
}

impl View for CheckpointSnapshot {
    type V = CheckpointSnapshotView;

    open spec fn view(&self) -> CheckpointSnapshotView {
        CheckpointSnapshotView {
            seq: self.seq,
            models: keys::views(self.models@),
            blocks: keys::views(self.blocks@),
        }
    }
}

impl Dup for CheckpointSnapshot {
    fn dup(&self) -> (copy: Self) {
        CheckpointSnapshot {
            seq: self.seq,
            models: dup_all(&self.models),
            blocks: dup_all(&self.blocks),
        }
    }
}

/// A step of a layout plan.
#[derive(Debug, Clone, PartialEq, Eq, Default)]
pub struct DefragMove {
    pub id: Option<KvBlockId>,
    pub node_id: String,
    pub from_segment: u64,
    pub from_offset: u64,
    pub to_segment: u64,
    pub to_offset: u64,
    pub compact_segment: bool,
    pub segment_id: u64,
}

/// What a `DefragMove` stands for.
#[verifier::ext_equal]
pub struct DefragMoveView {
    pub id: Option<KvBlockIdView>,
    pub node_id: Seq<char>,
    pub from_segment: u64,
    pub from_offset: u64,
    pub to_segment: u64,
    pub to_offset: u64,
    pub compact_segment: bool,
    pub segment_id: u64,
}

impl View for DefragMove {
    type V = DefragMoveView;

    open spec fn view(&self) -> DefragMoveView {
        DefragMoveView {
            id: keys::opt(self.id),
            node_id: self.node_id@,
            from_segment: self.from_segment,
            from_offset: self.from_offset,
            to_segment: self.to_segment,
            to_offset: self.to_offset,
            compact_segment: self.compact_segment,
            segment_id: self.segment_id,
        }
    }
}

impl Dup for DefragMove {
    fn dup(&self) -> (copy: Self) {
        DefragMove {
            id: dup_opt(&self.id),
            node_id: self.node_id.dup(),
            from_segment: self.from_segment,
            from_offset: self.from_offset,
            to_segment: self.to_segment,
            to_offset: self.to_offset,
            compact_segment: self.compact_segment,
            segment_id: self.segment_id,
        }
    }
}

/// A node of the ring.
#[derive(Debug, Clone, PartialEq, Eq, Default)]
pub struct ShardEntry {
    pub node_id: String,
    pub vnode_count: u32,
    pub draining: bool,
    pub vnode_hashes: Vec<u64>,
}

/// What a `ShardEntry` stands for.
#[verifier::ext_equal]
pub struct ShardEntryView {
    pub node_id: Seq<char>,
    pub vnode_count: u32,
    pub draining: bool,
    pub vnode_hashes: Seq<u64>,
}

impl View for ShardEntry {
    type V = ShardEntryView;

    open spec fn view(&self) -> ShardEntryView {
        ShardEntryView {
            node_id: self.node_id@,
            vnode_count: self.vnode_count,
            draining: self.draining,
            vnode_hashes: self.vnode_hashes@,
        }
    }
}

impl Dup for ShardEntry {
    fn dup(&self) -> (copy: Self) {
        ShardEntry {
            node_id: self.node_id.dup(),
            vnode_count: self.vnode_count,
            draining: self.draining,
            vnode_hashes: dup_u64s(&self.vnode_hashes),
        }
    }
}

/// The ring as published.
#[derive(Debug, Clone, PartialEq, Eq, Default)]
pub struct ShardMap {
    pub generation: u64,
    pub default_vnode_count: u32,
    pub nodes: Vec<ShardEntry>,
}

/// What a `ShardMap` stands for.
#[verifier::ext_equal]
pub struct ShardMapView {
    pub generation: u64,
    pub default_vnode_count: u32,
    pub nodes: Seq<ShardEntryView>,
}

impl View for ShardMap {
    type V = ShardMapView;

    open spec fn view(&self) -> ShardMapView {
        ShardMapView {
            generation: self.generation,
            default_vnode_count: self.default_vnode_count,
            nodes: keys::views(self.nodes@),
        }
    }
}

impl Dup for ShardMap {
    fn dup(&self) -> (copy: Self) {
        ShardMap {
            generation: self.generation,
            default_vnode_count: self.default_vnode_count,
            nodes: dup_all(&self.nodes),
        }
    }
}

/// A block whose owner changes.
#[derive(Debug, Clone, PartialEq, Eq, Default)]
pub struct ShardMigration {
    pub id: Option<KvBlockId>,
    pub from_node: String,
    pub to_node: String,
    pub push_l2_first: bool,
}

/// What a `ShardMigration` stands for.
#[verifier::ext_equal]
pub struct ShardMigrationView {
    pub id: Option<KvBlockIdView>,
    pub from_node: Seq<char>,
    pub to_node: Seq<char>,
    pub push_l2_first: bool,
}

impl View for ShardMigration {
    type V = ShardMigrationView;

    open spec fn view(&self) -> ShardMigrationView {
        ShardMigrationView {
            id: keys::opt(self.id),
            from_node: self.from_node@,
            to_node: self.to_node@,
            push_l2_first: self.push_l2_first,
        }
    }
}

impl Dup for ShardMigration {
    fn dup(&self) -> (copy: Self) {
        ShardMigration {
            id: dup_opt(&self.id),
            from_node: self.from_node.dup(),
            to_node: self.to_node.dup(),
            push_l2_first: self.push_l2_first,
        }
    }
}

/// A registration of durable blocks.
#[derive(Debug, Clone, PartialEq, Eq, Default)]
pub struct RegisterBlocksRequest {
    pub node_id: String,
    pub prefix_hashes: Vec<Vec<u8>>,
    pub blocks: Vec<BlockMeta>,
}

/// What a `RegisterBlocksRequest` stands for.
#[verifier::ext_equal]
pub struct RegisterBlocksRequestView {
    pub node_id: Seq<char>,
    pub prefix_hashes: Seq<Seq<u8>>,
    pub blocks: Seq<BlockMetaView>,
}

impl View for RegisterBlocksRequest {
    type V = RegisterBlocksRequestView;

    open spec fn view(&self) -> RegisterBlocksRequestView {
        RegisterBlocksRequestView {
            node_id: self.node_id@,
            prefix_hashes: keys::views(self.prefix_hashes@),
            blocks: keys::views(self.blocks@),
        }
    }
}

impl Dup for RegisterBlocksRequest {
    fn dup(&self) -> (copy: Self) {
        RegisterBlocksRequest {
            node_id: self.node_id.dup(),
            prefix_hashes: dup_all(&self.prefix_hashes),
            blocks: dup_all(&self.blocks),
        }
    }
}

/// A copy of bytes from a placed block to a segment.
#[derive(Debug, Clone, PartialEq, Eq, Default)]
pub struct TransferRequest {
    pub source: Option<Location>,
    pub target_segment_id: u64,
    pub target_offset: u64,
    pub length: u64,
}

/// What a `TransferRequest` stands for.
#[verifier::ext_equal]
pub struct TransferRequestView {
    pub source: Option<LocationView>,
    pub target_segment_id: u64,
    pub target_offset: u64,
    pub length: u64,
}

impl View for TransferRequest {
    type V = TransferRequestView;

    open spec fn view(&self) -> TransferRequestView {
        TransferRequestView {
            source: keys::opt(self.source),
            target_segment_id: self.target_segment_id,
            target_offset: self.target_offset,
            length: self.length,
        }
    }
}

impl Dup for TransferRequest {
    fn dup(&self) -> (copy: Self) {
        TransferRequest {
            source: dup_opt(&self.source),
            target_segment_id: self.target_segment_id,
            target_offset: self.target_offset,
            length: self.length,
        }
    }
}

/// Copies that are made together.
#[derive(Debug, Clone, PartialEq, Eq, Default)]
pub struct TransferBatchRequest {
    pub reqs: Vec<TransferRequest>,
}

/// What a `TransferBatchRequest` stands for.
#[verifier::ext_equal]
pub struct TransferBatchRequestView {
    pub reqs: Seq<TransferRequestView>,
}

impl View for TransferBatchRequest {
    type V = TransferBatchRequestView;

    open spec fn view(&self) -> TransferBatchRequestView {
        TransferBatchRequestView {
            reqs: keys::views(self.reqs@),
        }
    }
}

impl Dup for TransferBatchRequest {
    fn dup(&self) -> (copy: Self) {
        TransferBatchRequest {
            reqs: dup_all(&self.reqs),
        }
    }
}

/// The number of a batch.
#[derive(Debug, Clone, PartialEq, Eq, Default)]
pub struct TransferBatchAck {
    pub batch_id: u64,
}

/// What a `TransferBatchAck` stands for.
#[verifier::ext_equal]
pub struct TransferBatchAckView {
    pub batch_id: u64,
}

impl View for TransferBatchAck {
    type V = TransferBatchAckView;

    open spec fn view(&self) -> TransferBatchAckView {
        TransferBatchAckView {
            batch_id: self.batch_id,
        }
    }
}

impl Dup for TransferBatchAck {
    fn dup(&self) -> (copy: Self) {
        TransferBatchAck {
            batch_id: self.batch_id,
        }
    }
}

/// Asks for a task of a batch.
#[derive(Debug, Clone, PartialEq, Eq, Default)]
pub struct TransferStatusRequest {
    pub batch_id: u64,
    pub task_id: u64,
}

/// What a `TransferStatusRequest` stands for.
#[verifier::ext_equal]
pub struct TransferStatusRequestView {
    pub batch_id: u64,
    pub task_id: u64,
}

impl View for TransferStatusRequest {
    type V = TransferStatusRequestView;

    open spec fn view(&self) -> TransferStatusRequestView {
        TransferStatusRequestView {
            batch_id: self.batch_id,
            task_id: self.task_id,
        }
    }
}

impl Dup for TransferStatusRequest {
    fn dup(&self) -> (copy: Self) {
        TransferStatusRequest {
            batch_id: self.batch_id,
            task_id: self.task_id,
        }
    }
}

/// How far a task is.
#[derive(Debug, Clone, PartialEq, Eq, Default)]
pub struct TransferStatusResponse {
    pub state: i32,
    pub bytes_done: u64,
}

/// What a `TransferStatusResponse` stands for.
#[verifier::ext_equal]
pub struct TransferStatusResponseView {
    pub state: i32,
    pub bytes_done: u64,
}

impl View for TransferStatusResponse {
    type V = TransferStatusResponseView;

    open spec fn view(&self) -> TransferStatusResponseView {
        TransferStatusResponseView {
            state: self.state,
            bytes_done: self.bytes_done,
        }
    }
}

impl Dup for TransferStatusResponse {
    fn dup(&self) -> (copy: Self) {
        TransferStatusResponse {
            state: self.state,
            bytes_done: self.bytes_done,
        }
    }
}

/// Gives a batch back.
#[derive(Debug, Clone, PartialEq, Eq, Default)]
pub struct FreeBatchRequest {
    pub batch_id: u64,
}

/// What a `FreeBatchRequest` stands for.
#[verifier::ext_equal]
pub struct FreeBatchRequestView {
    pub batch_id: u64,
}

impl View for FreeBatchRequest {
    type V = FreeBatchRequestView;

    open spec fn view(&self) -> FreeBatchRequestView {
        FreeBatchRequestView {
            batch_id: self.batch_id,
        }
    }
}

impl Dup for FreeBatchRequest {
    fn dup(&self) -> (copy: Self) {
        FreeBatchRequest {
            batch_id: self.batch_id,
        }
    }
}

/// Asks for blocks to be copied to the requester.
#[derive(Debug, Clone, PartialEq, Eq, Default)]
pub struct PullRequest {
    pub ids: Vec<KvBlockId>,
    pub policy: i32,
    /// How many blocks a timed pull may take; zero means any number.
    pub budget_ms: u32,
    pub requester_node_id: String,
}

/// What a `PullRequest` stands for.
#[verifier::ext_equal]
pub struct PullRequestView {
    pub ids: Seq<KvBlockIdView>,
    pub policy: i32,
    pub budget_ms: u32,
    pub requester_node_id: Seq<char>,
}

impl View for PullRequest {
    type V = PullRequestView;

    open spec fn view(&self) -> PullRequestView {
        PullRequestView {
            ids: keys::views(self.ids@),
            policy: self.policy,
            budget_ms: self.budget_ms,
            requester_node_id: self.requester_node_id@,
        }
    }
}

impl Dup for PullRequest {
    fn dup(&self) -> (copy: Self) {
        PullRequest {
            ids: dup_all(&self.ids),
            policy: self.policy,
            budget_ms: self.budget_ms,
            requester_node_id: self.requester_node_id.dup(),
        }
    }
}

/// What a pull gave.
#[derive(Debug, Clone, PartialEq, Eq, Default)]
pub struct PullResponse {
    pub handle: u64,
    pub pulled_length: u32,
    pub completed: bool,
}

/// What a `PullResponse` stands for.
#[verifier::ext_equal]
pub struct PullResponseView {
    pub handle: u64,
    pub pulled_length: u32,
    pub completed: bool,
}

impl View for PullResponse {
    type V = PullResponseView;

    open spec fn view(&self) -> PullResponseView {
        PullResponseView {
            handle: self.handle,
            pulled_length: self.pulled_length,
            completed: self.completed,
        }
    }
}

impl Dup for PullResponse {
    fn dup(&self) -> (copy: Self) {
        PullResponse {
            handle: self.handle,
            pulled_length: self.pulled_length,
            completed: self.completed,
        }
    }
}

/// Gives a pull back.
#[derive(Debug, Clone, PartialEq, Eq, Default)]
pub struct FreePullRequest {
    pub handle: u64,
}

/// What a `FreePullRequest` stands for.
#[verifier::ext_equal]
pub struct FreePullRequestView {
    pub handle: u64,
}

impl View for FreePullRequest {
    type V = FreePullRequestView;

    open spec fn view(&self) -> FreePullRequestView {
        FreePullRequestView {
            handle: self.handle,
        }
    }
}

impl Dup for FreePullRequest {
    fn dup(&self) -> (copy: Self) {
        FreePullRequest {
            handle: self.handle,
        }
    }
}

/// A part of a layer of a block.
#[derive(Debug, Clone, PartialEq, Eq, Default)]
pub struct LayerSlice {
    pub id: Option<KvBlockId>,
    pub layer_idx: u32,
    pub offset: u64,
    pub length: u64,
}

/// What a `LayerSlice` stands for.
#[verifier::ext_equal]
pub struct LayerSliceView {
    pub id: Option<KvBlockIdView>,
    pub layer_idx: u32,
    pub offset: u64,
    pub length: u64,
}

impl View for LayerSlice {
    type V = LayerSliceView;

    open spec fn view(&self) -> LayerSliceView {
        LayerSliceView {
            id: keys::opt(self.id),
            layer_idx: self.layer_idx,
            offset: self.offset,
            length: self.length,
        }
    }
}

impl Dup for LayerSlice {
    fn dup(&self) -> (copy: Self) {
        LayerSlice {
            id: dup_opt(&self.id),
            layer_idx: self.layer_idx,
            offset: self.offset,
            length: self.length,
        }
    }
}

/// Slices that a request has produced.
#[derive(Debug, Clone, PartialEq, Eq, Default)]
pub struct PublishRequest {
    pub request_id: String,
    pub seq: u32,
    pub slices: Vec<LayerSlice>,
}

/// What a `PublishRequest` stands for.
#[verifier::ext_equal]
pub struct PublishRequestView {
    pub request_id: Seq<char>,
    pub seq: u32,
    pub slices: Seq<LayerSliceView>,
}

impl View for PublishRequest {
    type V = PublishRequestView;

    open spec fn view(&self) -> PublishRequestView {
        PublishRequestView {
            request_id: self.request_id@,
            seq: self.seq,
            slices: keys::views(self.slices@),
        }
    }
}

impl Dup for PublishRequest {
    fn dup(&self) -> (copy: Self) {
        PublishRequest {
            request_id: self.request_id.dup(),
            seq: self.seq,
            slices: dup_all(&self.slices),
        }
    }
}

/// Gives the stream of a request back.
#[derive(Debug, Clone, PartialEq, Eq, Default)]
pub struct FreePublishRequest {
    pub request_id: String,
}

/// What a `FreePublishRequest` stands for.
#[verifier::ext_equal]
pub struct FreePublishRequestView {
    pub request_id: Seq<char>,
}

impl View for FreePublishRequest {
    type V = FreePublishRequestView;

    open spec fn view(&self) -> FreePublishRequestView {
        FreePublishRequestView {
            request_id: self.request_id@,
        }
    }
}

impl Dup for FreePublishRequest {
    fn dup(&self) -> (copy: Self) {
        FreePublishRequest {
            request_id: self.request_id.dup(),
        }
    }
}

/// A block with its bytes.
#[derive(Debug, Clone, PartialEq, Eq, Default)]
pub struct OpaqueBlock {
    pub id: Option<KvBlockId>,
    pub data: Vec<u8>,
}

/// What a `OpaqueBlock` stands for.
#[verifier::ext_equal]
pub struct OpaqueBlockView {
    pub id: Option<KvBlockIdView>,
    pub data: Seq<u8>,
}

impl View for OpaqueBlock {
    type V = OpaqueBlockView;

    open spec fn view(&self) -> OpaqueBlockView {
        OpaqueBlockView {
            id: keys::opt(self.id),
            data: self.data@,
        }
    }
}

impl Dup for OpaqueBlock {
    fn dup(&self) -> (copy: Self) {
        OpaqueBlock {
            id: dup_opt(&self.id),
            data: self.data.dup(),
        }
    }
}

/// Blocks to keep.
#[derive(Debug, Clone, PartialEq, Eq, Default)]
pub struct PutBlocksRequest {
    pub node_id: String,
    pub blocks: Vec<OpaqueBlock>,
}

/// What a `PutBlocksRequest` stands for.
#[verifier::ext_equal]
pub struct PutBlocksRequestView {
    pub node_id: Seq<char>,
    pub blocks: Seq<OpaqueBlockView>,
}

impl View for PutBlocksRequest {
    type V = PutBlocksRequestView;

    open spec fn view(&self) -> PutBlocksRequestView {
        PutBlocksRequestView {
            node_id: self.node_id@,
            blocks: keys::views(self.blocks@),
        }
    }
}

impl Dup for PutBlocksRequest {
    fn dup(&self) -> (copy: Self) {
        PutBlocksRequest {
            node_id: self.node_id.dup(),
            blocks: dup_all(&self.blocks),
        }
    }
}

/// Blocks to hand out.
#[derive(Debug, Clone, PartialEq, Eq, Default)]
pub struct GetBlocksRequest {
    pub ids: Vec<KvBlockId>,
}

/// What a `GetBlocksRequest` stands for.
#[verifier::ext_equal]
pub struct GetBlocksRequestView {
    pub ids: Seq<KvBlockIdView>,
}

impl View for GetBlocksRequest {
    type V = GetBlocksRequestView;

    open spec fn view(&self) -> GetBlocksRequestView {
        GetBlocksRequestView {
            ids: keys::views(self.ids@),
        }
    }
}

impl Dup for GetBlocksRequest {
    fn dup(&self) -> (copy: Self) {
        GetBlocksRequest {
            ids: dup_all(&self.ids),
        }
    }
}

/// The blocks that are kept.
#[derive(Debug, Clone, PartialEq, Eq, Default)]
pub struct GetBlocksResponse {
    pub blocks: Vec<OpaqueBlock>,
}

/// What a `GetBlocksResponse` stands for.
#[verifier::ext_equal]
pub struct GetBlocksResponseView {
    pub blocks: Seq<OpaqueBlockView>,
}

impl View for GetBlocksResponse {
    type V = GetBlocksResponseView;

    open spec fn view(&self) -> GetBlocksResponseView {
        GetBlocksResponseView {
            blocks: keys::views(self.blocks@),
        }
    }
}

impl Dup for GetBlocksResponse {
    fn dup(&self) -> (copy: Self) {
        GetBlocksResponse {
            blocks: dup_all(&self.blocks),
        }
    }
}

/// Asks that a write be taken as complete.
#[derive(Debug, Clone, PartialEq, Eq, Default)]
pub struct RequestBarrierRequest {
    pub request_id: String,
    pub node_id: String,
}

/// What a `RequestBarrierRequest` stands for.
#[verifier::ext_equal]
pub struct RequestBarrierRequestView {
    pub request_id: Seq<char>,
    pub node_id: Seq<char>,
}

impl View for RequestBarrierRequest {
    type V = RequestBarrierRequestView;

    open spec fn view(&self) -> RequestBarrierRequestView {
        RequestBarrierRequestView {
            request_id: self.request_id@,
            node_id: self.node_id@,
        }
    }
}

impl Dup for RequestBarrierRequest {
    fn dup(&self) -> (copy: Self) {
        RequestBarrierRequest {
            request_id: self.request_id.dup(),
            node_id: self.node_id.dup(),
        }
    }
}

/// Work for a node.
#[derive(Debug, Clone, PartialEq, Eq, Default)]
pub struct DispatchRequest {
    pub target_node_id: String,
}

/// What a `DispatchRequest` stands for.
#[verifier::ext_equal]
pub struct DispatchRequestView {
    pub target_node_id: Seq<char>,
}

impl View for DispatchRequest {
    type V = DispatchRequestView;

    open spec fn view(&self) -> DispatchRequestView {
        DispatchRequestView {
            target_node_id: self.target_node_id@,
        }
    }
}

impl Dup for DispatchRequest {
    fn dup(&self) -> (copy: Self) {
        DispatchRequest {
            target_node_id: self.target_node_id.dup(),
        }
    }
}

/// The load of a node.
#[derive(Debug, Clone, PartialEq, Eq, Default)]
pub struct LoadReport {
    pub node_id: String,
    pub queue_len: u32,
    pub in_flight: u32,
    pub remaining_cap: u32,
}

/// What a `LoadReport` stands for.
#[verifier::ext_equal]
pub struct LoadReportView {
    pub node_id: Seq<char>,
    pub queue_len: u32,
    pub in_flight: u32,
    pub remaining_cap: u32,
}

impl View for LoadReport {
    type V = LoadReportView;

    open spec fn view(&self) -> LoadReportView {
        LoadReportView {
            node_id: self.node_id@,
            queue_len: self.queue_len,
            in_flight: self.in_flight,
            remaining_cap: self.remaining_cap,
        }
    }
}

impl Dup for LoadReport {
    fn dup(&self) -> (copy: Self) {
        LoadReport {
            node_id: self.node_id.dup(),
            queue_len: self.queue_len,
            in_flight: self.in_flight,
            remaining_cap: self.remaining_cap,
        }
    }
}

/// An answer, with the reason if it is no.
#[derive(Debug, Clone, PartialEq, Eq, Default)]
pub struct Ack {
    pub ok: bool,
    pub err: String,
    pub backpressure: Option<BackpressureSignal>,
}

/// What a `Ack` stands for.
#[verifier::ext_equal]
pub struct AckView {
    pub ok: bool,
    pub err: Seq<char>,
    pub backpressure: Option<BackpressureSignalView>,
}

impl View for Ack {
    type V = AckView;

    open spec fn view(&self) -> AckView {
        AckView {
            ok: self.ok,
            err: self.err@,
            backpressure: keys::opt(self.backpressure),
        }
    }
}

impl Dup for Ack {
    fn dup(&self) -> (copy: Self) {
        Ack {
            ok: self.ok,
            err: self.err.dup(),
            backpressure: dup_opt(&self.backpressure),
        }
    }
}

} // verus!
