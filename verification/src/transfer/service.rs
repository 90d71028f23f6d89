//! Transfers as clients ask for them: batches of copies, pulls of blocks by address
//! and layers that are published while they are made. Calls and locks are made
//! around it.

use vstd::prelude::*;
use vstd::string::*;

use crate::base::keys;
use crate::base::keys::{Dup, Key};
use crate::base::set::KeySet;
use crate::base::table::Table;
use crate::base::text;
use crate::base::text::{decimal_text, joined, quoted_text, text};
use crate::proto::{
    Ack, AckView, FreeBatchRequest, FreePublishRequest, FreePullRequest, KvBlockId, KvBlockIdView,
    LayerSlice, LayerSliceView, PublishRequest, PublishRequestView, PullPolicy, PullRequest,
    PullRequestView, PullResponse, Tier, TransferBatchAck, TransferBatchRequest,
    TransferRequestView, TransferState, TransferStatusRequest, TransferStatusResponse,
};
use crate::transfer::bytes;
use crate::transfer::bytes::{ByteKeyView, Bytes, InMemoryByteStore};
use crate::transfer::error::{Code, Refusal, RefusalView, TransferError};
use crate::transfer::location;
use crate::transfer::location::validate_location_tier;
use crate::transfer::tcp;
use crate::transfer::tcp::{next_number, SegmentView, TcpTransport, TransportView};
use crate::transfer::transport::{OpView, TaskState, TransferOp, Transport};

verus! {

/// A pull that was not given back.
#[derive(Clone, Copy, Debug, PartialEq, Eq, Structural)]
pub struct PullHandle {
    pub pulled_length: u32,
    pub completed: bool,
    /// The segment that holds the blocks.
    pub dest_segment: u64,
}

impl View for PullHandle {
    type V = PullHandle;

    open spec fn view(&self) -> PullHandle {
        *self
    }
}

/// A layer of a block.
pub struct LayerKey {
    pub hash: Vec<u8>,
    pub layer: u32,
}

impl View for LayerKey {
    type V = (Seq<u8>, u32);

    open spec fn view(&self) -> (Seq<u8>, u32) {
        (self.hash@, self.layer)
    }
}

impl Dup for LayerKey {
    fn dup(&self) -> (copy: Self) {
        LayerKey { hash: self.hash.dup(), layer: self.layer }
    }
}

impl Key for LayerKey {
    fn same(&self, other: &Self) -> (same: bool) {
        self.layer == other.layer && self.hash.same(&other.hash)
    }
}

/// A part of a layer of a block.
pub struct SliceKey {
    pub hash: Vec<u8>,
    pub layer: u32,
    pub offset: u64,
}

impl View for SliceKey {
    type V = (Seq<u8>, u32, u64);

    open spec fn view(&self) -> (Seq<u8>, u32, u64) {
        (self.hash@, self.layer, self.offset)
    }
}

impl Dup for SliceKey {
    fn dup(&self) -> (copy: Self) {
        SliceKey { hash: self.hash.dup(), layer: self.layer, offset: self.offset }
    }
}

impl Key for SliceKey {
    fn same(&self, other: &Self) -> (same: bool) {
        self.layer == other.layer && self.offset == other.offset && self.hash.same(&other.hash)
    }
}

/// What a request has published.
pub struct PublishStream {
    pub last_seq: u32,
    /// Bytes by layer.
    pub layers: Table<LayerKey, u128>,
    /// The slices that are counted.
    pub seen: KeySet<SliceKey>,
}

/// What a `PublishStream` stands for.
#[verifier::ext_equal]
pub struct StreamView {
    pub last_seq: u32,
    pub layers: Map<(Seq<u8>, u32), u128>,
    pub seen: Set<(Seq<u8>, u32, u64)>,
}

impl View for PublishStream {
    type V = StreamView;

    open spec fn view(&self) -> StreamView {
        StreamView { last_seq: self.last_seq, layers: self.layers@, seen: self.seen@ }
    }
}

impl StreamView {
    /// A stream in which nothing was published.
    pub open spec fn fresh() -> StreamView {
        StreamView { last_seq: 0, layers: Map::empty(), seen: Set::empty() }
    }

    /// The bytes of a layer.
    pub open spec fn layer_bytes(self, layer: (Seq<u8>, u32)) -> u128 {
        if self.layers.contains_key(layer) {
            self.layers[layer]
        } else {
            0
        }
    }

    /// No layer counts more than its slices can.
    pub open spec fn wf(self) -> bool {
        &&& self.seen.finite()
        &&& forall|k: (Seq<u8>, u32)| #[trigger]
            self.layers.contains_key(k) ==> self.layers[k] <= self.seen.len() * u64::MAX
    }

    /// A slice is counted, unless it was before or names no block.
    pub open spec fn counted(self, s: LayerSliceView) -> StreamView {
        match s.id {
            None => self,
            Some(id) => if self.seen.contains((id.block_hash, s.layer_idx, s.offset)) {
                self
            } else {
                StreamView {
                    layers: self.layers.insert(
                        (id.block_hash, s.layer_idx),
                        (self.layer_bytes((id.block_hash, s.layer_idx)) + s.length) as u128,
                    ),
                    seen: self.seen.insert((id.block_hash, s.layer_idx, s.offset)),
                    ..self
                }
            },
        }
    }

    /// Slices are counted, in order.
    pub open spec fn counted_all(self, slices: Seq<LayerSliceView>) -> StreamView
        decreases slices.len(),
    {
        if slices.len() == 0 {
            self
        } else {
            self.counted_all(slices.drop_last()).counted(slices.last())
        }
    }
}

/// The stream of a request; requests without a name share one.
pub open spec fn scope_of(request_id: Seq<char>) -> Seq<char> {
    if request_id.len() == 0 {
        "_"@
    } else {
        request_id
    }
}

/// A plain yes.
pub open spec fn yes() -> AckView {
    AckView { ok: true, err: Seq::empty(), backpressure: None }
}

/// A no with a reason.
pub open spec fn no(err: Seq<char>) -> AckView {
    AckView { ok: false, err, backpressure: None }
}

/// The policy of a number on the wire; unknown numbers take what there is.
pub open spec fn policy_of(raw: i32) -> PullPolicy {
    if raw == PullPolicy::PullWaitComplete.spec_number() {
        PullPolicy::PullWaitComplete
    } else if raw == PullPolicy::PullTimeout.spec_number() {
        PullPolicy::PullTimeout
    } else {
        PullPolicy::PullBestEffort
    }
}

/// The bytes of those blocks that are kept, in order.
pub open spec fn found(store: Bytes, ids: Seq<KvBlockIdView>) -> Seq<Seq<u8>>
    decreases ids.len(),
{
    if ids.len() == 0 {
        Seq::empty()
    } else {
        match bytes::kept(store, ids.last()) {
            Some(d) => found(store, ids.drop_last()).push(d),
            None => found(store, ids.drop_last()),
        }
    }
}

/// The first block that is not kept.
pub open spec fn first_missing(store: Bytes, ids: Seq<KvBlockIdView>) -> Option<KvBlockIdView>
    decreases ids.len(),
{
    if ids.len() == 0 {
        None
    } else {
        match first_missing(store, ids.drop_last()) {
            Some(id) => Some(id),
            None => if bytes::kept(store, ids.last()) is None {
                Some(ids.last())
            } else {
                None
            },
        }
    }
}

/// The first so many.
pub open spec fn at_most<T>(s: Seq<T>, n: int) -> Seq<T> {
    if s.len() <= n {
        s
    } else {
        s.take(n)
    }
}

/// The blocks that a pull takes: all, or none where one is missing and all are
/// wanted; as many as the budget allows where it is timed.
pub open spec fn taken(store: Bytes, req: PullRequestView) -> Result<Seq<Seq<u8>>, RefusalView> {
    match policy_of(req.policy) {
        PullPolicy::PullWaitComplete => match first_missing(store, req.ids) {
            Some(id) => Err(
                RefusalView {
                    code: Code::NotFound,
                    message: "Pull WAIT_COMPLETE missing block hash_len="@ + text::decimal(
                        id.block_hash.len(),
                    ),
                },
            ),
            None => Ok(found(store, req.ids)),
        },
        PullPolicy::PullTimeout => Ok(
            if req.budget_ms > 0 {
                at_most(found(store, req.ids), req.budget_ms as int)
            } else {
                found(store, req.ids)
            },
        ),
        PullPolicy::PullBestEffort => Ok(found(store, req.ids)),
    }
}

/// The blocks one after the other.
pub open spec fn concat(blocks: Seq<Seq<u8>>) -> Seq<u8>
    decreases blocks.len(),
{
    if blocks.len() == 0 {
        Seq::empty()
    } else {
        concat(blocks.drop_last()) + blocks.last()
    }
}

/// What the segment of a pull holds: the blocks, or one zero where there is no byte.
pub open spec fn pulled_bytes(blocks: Seq<Seq<u8>>) -> Seq<u8> {
    if concat(blocks).len() == 0 {
        seq![0u8]
    } else {
        concat(blocks)
    }
}

/// Whether a pull counts as complete, by the number of blocks that it took.
pub open spec fn complete(policy: PullPolicy, pulled: u32, wanted: nat) -> bool {
    match policy {
        PullPolicy::PullWaitComplete => pulled == wanted,
        PullPolicy::PullTimeout => pulled >= wanted,
        PullPolicy::PullBestEffort => true,
    }
}

/// What is wrong with the first copy of a request that is not in order: a source is
/// needed, and it must lie on a tier with segments.
pub open spec fn request_verdict(reqs: Seq<TransferRequestView>) -> Option<RefusalView>
    decreases reqs.len(),
{
    if reqs.len() == 0 {
        None
    } else {
        match request_verdict(reqs.drop_last()) {
            Some(e) => Some(e),
            None => match reqs.last().source {
                None => Some(
                    RefusalView {
                        code: Code::InvalidArgument,
                        message: "TransferRequest.source required"@,
                    },
                ),
                Some(loc) => match location::tier_verdict(loc) {
                    Ok(_) => None,
                    Err(e) => Some(e.refused()),
                },
            },
        }
    }
}

/// The copies of a request.
pub open spec fn ops_of(reqs: Seq<TransferRequestView>) -> Seq<OpView> {
    Seq::new(
        reqs.len(),
        |i: int|
            OpView {
                source: reqs[i].source->0,
                target_segment_id: reqs[i].target_segment_id,
                target_offset: reqs[i].target_offset,
                length: reqs[i].length,
            },
    )
}

/// The number of a state on the wire.
pub open spec fn state_number(s: TaskState) -> i32 {
    match s {
        TaskState::Pending => TransferState::Pending.spec_number(),
        TaskState::InFlight => TransferState::InFlight.spec_number(),
        TaskState::Done => TransferState::Done.spec_number(),
        TaskState::Failed => TransferState::Failed.spec_number(),
    }
}

/// The state of a transfer server.
#[verifier::ext_equal]
pub struct ServerView {
    pub transport: TransportView,
    pub bytes: Bytes,
    pub pulls: Map<u64, PullHandle>,
    pub next_pull: u64,
    pub publish: Map<Seq<char>, StreamView>,
}

impl ServerView {
    /// A server that has done nothing yet.
    pub open spec fn fresh(transport: TransportView, bytes: Bytes) -> ServerView {
        ServerView {
            transport,
            bytes,
            pulls: Map::empty(),
            next_pull: 1,
            publish: Map::empty(),
        }
    }

    /// Every stream is sound.
    pub open spec fn wf(self) -> bool {
        forall|k: Seq<char>| #[trigger] self.publish.contains_key(k) ==> self.publish[k].wf()
    }

    /// Copies are made under a new batch, or refused; a refused batch is given back.
    pub open spec fn batch_submitted(self, reqs: Seq<TransferRequestView>) -> (
        ServerView,
        Result<u64, RefusalView>,
    ) {
        if reqs.len() == 0 {
            (self, Err(TransferError::EmptyBatch.refused()))
        } else if request_verdict(reqs) is Some {
            (self, Err(request_verdict(reqs)->0))
        } else {
            let id = self.transport.next_batch;
            let made = self.transport.batch_allocated(reqs.len()).0;
            let (t, r) = made.submitted(id, ops_of(reqs));
            match r {
                Ok(_) => (ServerView { transport: t, ..self }, Ok(id)),
                Err(e) => (
                    ServerView { transport: t.batch_freed(id).0, ..self },
                    Err(e.refused()),
                ),
            }
        }
    }

    /// A batch is given back.
    pub open spec fn batch_returned(self, id: u64) -> (ServerView, Result<AckView, RefusalView>) {
        let (t, r) = self.transport.batch_freed(id);
        (
            ServerView { transport: t, ..self },
            match r {
                Ok(_) => Ok(yes()),
                Err(e) => if !self.transport.batches.contains_key(id) {
                    Ok(no("unknown batch_id="@ + text::decimal(id as nat)))
                } else {
                    Err(e.refused())
                },
            },
        )
    }

    /// Blocks are pulled into a segment of their own, or the pull is refused.
    pub open spec fn pulled(self, req: PullRequestView) -> (
        ServerView,
        Result<(u64, u32, bool), RefusalView>,
    ) {
        match taken(self.bytes, req) {
            Err(e) => (self, Err(e)),
            Ok(blocks) => {
                let n = blocks.len() as u32;
                let all = complete(policy_of(req.policy), n, req.ids.len());
                (
                    ServerView {
                        transport: self.transport.opened(
                            "pull-"@ + req.requester_node_id,
                            pulled_bytes(blocks),
                        ),
                        pulls: self.pulls.insert(
                            self.next_pull,
                            PullHandle {
                                pulled_length: n,
                                completed: all,
                                dest_segment: self.transport.next_segment,
                            },
                        ),
                        next_pull: tcp::wrapping_next(self.next_pull),
                        ..self
                    },
                    Ok((self.next_pull, n, all)),
                )
            },
        }
    }

    /// A pull is given back, and its segment with it.
    pub open spec fn pull_returned(self, handle: u64) -> (ServerView, AckView) {
        if !self.pulls.contains_key(handle) {
            (self, no("unknown pull handle="@ + text::decimal(handle as nat)))
        } else {
            let seg = self.pulls[handle].dest_segment;
            let (t, r) = self.transport.segment_freed(seg);
            (
                ServerView { transport: t, pulls: self.pulls.remove(handle), ..self },
                match r {
                    Ok(_) => yes(),
                    Err(_) => AckView {
                        err: "pull handle="@ + text::decimal(handle as nat) + " freed; dest segment "@
                            + text::decimal(seg as nat) + " already gone"@,
                        ..yes()
                    },
                },
            )
        }
    }

    /// The stream of a request.
    pub open spec fn stream(self, scope: Seq<char>) -> StreamView {
        if self.publish.contains_key(scope) {
            self.publish[scope]
        } else {
            StreamView::fresh()
        }
    }

    /// Slices are published. A number below the last one of the same request is
    /// refused; one that repeats it counts only slices that are new.
    pub open spec fn published(self, req: PublishRequestView) -> (ServerView, AckView) {
        let scope = scope_of(req.request_id);
        let st = self.stream(scope);
        if 0 < req.seq < st.last_seq {
            (
                ServerView { publish: self.publish.insert(scope, st), ..self },
                no(
                    "Publish seq="@ + text::decimal(req.seq as nat) + " < last_seq="@ + text::decimal(
                        st.last_seq as nat,
                    ) + " (overlap fence, request_id="@ + text::quoted(scope) + ")"@,
                ),
            )
        } else {
            let moved = StreamView {
                last_seq: if req.seq > st.last_seq {
                    req.seq
                } else {
                    st.last_seq
                },
                ..st
            };
            (
                ServerView {
                    publish: self.publish.insert(scope, moved.counted_all(req.slices)),
                    ..self
                },
                yes(),
            )
        }
    }

    /// The stream of a request is given back.
    pub open spec fn publish_returned(self, request_id: Seq<char>) -> (ServerView, AckView) {
        let scope = scope_of(request_id);
        (
            ServerView { publish: self.publish.remove(scope), ..self },
            if self.publish.contains_key(scope) {
                yes()
            } else {
                no("unknown publish request_id="@ + text::quoted(scope))
            },
        )
    }
}

/// A result whose error is taken by its view.
pub open spec fn answered<T>(r: Result<T, Refusal>) -> Result<T, RefusalView> {
    match r {
        Ok(x) => Ok(x),
        Err(e) => Err(e@),
    }
}

fn ack_yes() -> (a: Ack)
    ensures
        a@ == yes(),
{
    let a = Ack { ok: true, err: String::new(), backpressure: None };
    assert(a@.err =~= Seq::empty());
    a
}

fn ack_no(err: String) -> (a: Ack)
    ensures
        a@ == no(err@),
{
    Ack { ok: false, err, backpressure: None }
}

fn publish_scope(request_id: &str) -> (s: String)
    ensures
        s@ == scope_of(request_id@),
{
    if request_id.is_empty() {
        text("_")
    } else {
        text(request_id)
    }
}

fn policy(raw: i32) -> (p: PullPolicy)
    ensures
        p == policy_of(raw),
{
    if raw == PullPolicy::PullWaitComplete.number() {
        PullPolicy::PullWaitComplete
    } else if raw == PullPolicy::PullTimeout.number() {
        PullPolicy::PullTimeout
    } else {
        PullPolicy::PullBestEffort
    }
}

fn task_state_to_proto(s: TaskState) -> (n: i32)
    ensures
        n == state_number(s),
{
    match s {
        TaskState::Pending => TransferState::Pending.number(),
        TaskState::InFlight => TransferState::InFlight.number(),
        TaskState::Done => TransferState::Done.number(),
        TaskState::Failed => TransferState::Failed.number(),
    }
}

impl PublishStream {
    fn new() -> (st: Self)
        ensures
            st@ == StreamView::fresh(),
            st@.wf(),
    {
        PublishStream { last_seq: 0, layers: Table::new(), seen: KeySet::new() }
    }

    /// Counts a slice, unless it was counted before or names no block.
    fn count(&mut self, s: &LayerSlice)
        requires
            old(self)@.wf(),
        ensures
            final(self)@ == old(self)@.counted(s@),
            final(self)@.wf(),
    {
        match &s.id {
            None => {},
            Some(id) => {
                let ghost before = self@;
                let added = self.seen.insert(
                    SliceKey { hash: id.block_hash.dup(), layer: s.layer_idx, offset: s.offset },
                );
                if added {
                    let size = self.seen.len();
                    let key = LayerKey { hash: id.block_hash.dup(), layer: s.layer_idx };
                    let sum: u128 = match self.layers.get(&key) {
                        Some(n) => *n,
                        None => 0,
                    };
                    proof {
                        assert(sum == before.layer_bytes(key@));
                        assert(before.seen.len() + 1 == size);
                        assert(sum <= before.seen.len() * u64::MAX);
                        assert(before.seen.len() * u64::MAX <= 0xffff_ffff_ffff_fffe * u64::MAX)
                            by (nonlinear_arith)
                            requires
                                before.seen.len() <= 0xffff_ffff_ffff_fffe,
                        ;
                    }
                    let _ = self.layers.insert(key, sum + s.length as u128);
                    proof {
                        assert forall|k: (Seq<u8>, u32)| #[trigger]
                            self@.layers.contains_key(k) implies self@.layers[k] <= self@.seen.len()
                            * u64::MAX by {
                            if before.layers.contains_key(k) {
                                assert(before.layers[k] <= before.seen.len() * u64::MAX);
                            }
                            assert((before.seen.len() + 1) * u64::MAX == before.seen.len()
                                * u64::MAX + u64::MAX) by (nonlinear_arith);
                        }
                    }
                } else {
                    assert(self@.seen =~= before.seen);
                }
                assert(self@ =~= before.counted(s@));
            },
        }
    }

    /// Counts slices, in order.
    fn count_all(&mut self, slices: &Vec<LayerSlice>)
        requires
            old(self)@.wf(),
        ensures
            final(self)@ == old(self)@.counted_all(keys::views(slices@)),
            final(self)@.wf(),
    {
        let ghost all = keys::views(slices@);
        let mut i: usize = 0;
        assert(all.take(0) =~= Seq::empty());
        while i < slices.len()
            invariant
                i <= slices@.len(),
                all == keys::views(slices@),
                self@ == old(self)@.counted_all(all.take(i as int)),
                self@.wf(),
            decreases slices.len() - i,
        {
            assert(all.take(i + 1).drop_last() =~= all.take(i as int));
            assert(all.take(i + 1).last() == slices@[i as int]@);
            self.count(&slices[i]);
            i += 1;
        }
        assert(all.take(i as int) =~= all);
    }
}

/// Transfers for clients.
pub struct TransferServer {
    pub transport: TcpTransport,
    pub bytes: InMemoryByteStore,
    pub pulls: Table<u64, PullHandle>,
    pub next_pull: u64,
    /// Streams by request; they do not affect one another.
    pub publish: Table<String, PublishStream>,
}

impl View for TransferServer {
    type V = ServerView;

    open spec fn view(&self) -> ServerView {
        ServerView {
            transport: self.transport@,
            bytes: self.bytes@,
            pulls: self.pulls@,
            next_pull: self.next_pull,
            publish: self.publish@,
        }
    }
}

/// A request is refused from the first copy on that is not in order.
proof fn lemma_request_stops(reqs: Seq<TransferRequestView>, i: int)
    requires
        0 <= i <= reqs.len(),
        request_verdict(reqs.take(i)) is Some,
    ensures
        request_verdict(reqs) == request_verdict(reqs.take(i)),
    decreases reqs.len() - i,
{
    if i == reqs.len() {
        assert(reqs.take(i) =~= reqs);
    } else {
        assert(reqs.take(i + 1).drop_last() =~= reqs.take(i));
        lemma_request_stops(reqs, i + 1);
    }
}

/// The first missing block stays the first.
proof fn lemma_missing_stays(store: Bytes, ids: Seq<KvBlockIdView>, i: int)
    requires
        0 <= i <= ids.len(),
        first_missing(store, ids.take(i)) is Some,
    ensures
        first_missing(store, ids) == first_missing(store, ids.take(i)),
    decreases ids.len() - i,
{
    if i == ids.len() {
        assert(ids.take(i) =~= ids);
    } else {
        assert(ids.take(i + 1).drop_last() =~= ids.take(i));
        lemma_missing_stays(store, ids, i + 1);
    }
}

/// Blocks that were found stay in front.
proof fn lemma_found_grows(store: Bytes, ids: Seq<KvBlockIdView>, i: int)
    requires
        0 <= i <= ids.len(),
    ensures
        found(store, ids.take(i)).len() <= found(store, ids).len(),
        found(store, ids).take(found(store, ids.take(i)).len() as int) == found(
            store,
            ids.take(i),
        ),
    decreases ids.len() - i,
{
    let f = found(store, ids.take(i));
    if i == ids.len() {
        assert(ids.take(i) =~= ids);
        assert(f.take(f.len() as int) =~= f);
    } else {
        assert(ids.take(i + 1).drop_last() =~= ids.take(i));
        lemma_found_grows(store, ids, i + 1);
        let g = found(store, ids.take(i + 1));
        assert(g.take(f.len() as int) =~= f);
        assert(found(store, ids).take(f.len() as int) =~= g.take(f.len() as int));
    }
}

/// No more blocks are found than asked for.
proof fn lemma_found_len(store: Bytes, ids: Seq<KvBlockIdView>)
    ensures
        found(store, ids).len() <= ids.len(),
    decreases ids.len(),
{
    if ids.len() > 0 {
        lemma_found_len(store, ids.drop_last());
    }
}

/// Putting blocks together keeps the front.
proof fn lemma_concat_grows(blocks: Seq<Seq<u8>>, i: int)
    requires
        0 <= i <= blocks.len(),
    ensures
        concat(blocks.take(i)).len() <= concat(blocks).len(),
    decreases blocks.len() - i,
{
    if i == blocks.len() {
        assert(blocks.take(i) =~= blocks);
    } else {
        assert(blocks.take(i + 1).drop_last() =~= blocks.take(i));
        lemma_concat_grows(blocks, i + 1);
    }
}

impl TransferServer {
    /// Every stream is sound.
    pub open spec fn wf(&self) -> bool {
        self@.wf()
    }

    /// A server that has done nothing yet.
    pub fn new(transport: TcpTransport, bytes: InMemoryByteStore) -> (s: Self)
        ensures
            s@ == ServerView::fresh(transport@, bytes@),
            s.wf(),
    {
        TransferServer {
            transport,
            bytes,
            pulls: Table::new(),
            next_pull: 1,
            publish: Table::new(),
        }
    }

    /// The segments and batches.
    pub fn transport(&self) -> (t: &TcpTransport)
        ensures
            t@ == self@.transport,
    {
        &self.transport
    }

    /// The bytes that pulls are served from.
    pub fn bytes(&self) -> (b: &InMemoryByteStore)
        ensures
            b@ == self@.bytes,
    {
        &self.bytes
    }

    /// The number of streams that were not given back.
    pub fn publish_stream_count(&self) -> (n: usize)
        ensures
            n == self@.publish.len(),
    {
        self.publish.len()
    }

    /// The number of pulls that were not given back.
    pub fn pull_handle_count(&self) -> (n: usize)
        ensures
            n == self@.pulls.len(),
    {
        self.pulls.len()
    }

    /// The bytes that a request has published of a layer.
    pub fn published_layer_bytes(&self, request_id: &str, id: &KvBlockId, layer_idx: u32) -> (r:
        Option<u128>)
        ensures
            r == ({
                let layer = (id.block_hash@, layer_idx);
                let st = self@.stream(scope_of(request_id@));
                if st.layers.contains_key(layer) {
                    Some(st.layers[layer])
                } else {
                    None
                }
            }),
    {
        match self.publish.get(&publish_scope(request_id)) {
            None => None,
            Some(st) => {
                let key = LayerKey { hash: id.block_hash.dup(), layer: layer_idx };
                match st.layers.get(&key) {
                    Some(n) => Some(*n),
                    None => None,
                }
            },
        }
    }

    /// Makes copies under a new batch and tells its number.
    pub fn submit_transfer(&mut self, req: &TransferBatchRequest) -> (r: Result<
        TransferBatchAck,
        Refusal,
    >)
        requires
            old(self).wf(),
        ensures
            final(self).wf(),
            final(self)@ == old(self)@.batch_submitted(keys::views(req.reqs@)).0,
            match r {
                Ok(ack) => old(self)@.batch_submitted(keys::views(req.reqs@)).1 == Ok::<
                    u64,
                    RefusalView,
                >(ack.batch_id),
                Err(e) => old(self)@.batch_submitted(keys::views(req.reqs@)).1 == Err::<
                    u64,
                    RefusalView,
                >(e@),
            },
    {
        let ghost all = keys::views(req.reqs@);
        if req.reqs.len() == 0 {
            return Err(TransferError::EmptyBatch.refusal());
        }
        let mut ops: Vec<TransferOp> = Vec::with_capacity(req.reqs.len());
        let mut i: usize = 0;
        assert(all.take(0) =~= Seq::empty());
        while i < req.reqs.len()
            invariant
                i <= req.reqs@.len(),
                all == keys::views(req.reqs@),
                all.len() > 0,
                self@ == old(self)@,
                self.wf(),
                request_verdict(all.take(i as int)) is None,
                ops@.len() == i,
                forall|j: int| 0 <= j < i ==> (#[trigger] ops@[j])@ == ops_of(all)[j],
            decreases req.reqs.len() - i,
        {
            assert(all.take(i + 1).drop_last() =~= all.take(i as int));
            assert(all.take(i + 1).last() == req.reqs@[i as int]@);
            assert(all[i as int] == req.reqs@[i as int]@);
            let one = &req.reqs[i];
            match &one.source {
                None => {
                    proof {
                        lemma_request_stops(all, i + 1);
                    }
                    return Err(
                        Refusal {
                            code: Code::InvalidArgument,
                            message: text("TransferRequest.source required"),
                        },
                    );
                },
                Some(loc) => {
                    match validate_location_tier(loc) {
                        Err(e) => {
                            proof {
                                lemma_request_stops(all, i + 1);
                            }
                            return Err(e.refusal());
                        },
                        Ok(_) => {},
                    }
                    ops.push(
                        TransferOp {
                            source: loc.dup(),
                            target_segment_id: one.target_segment_id,
                            target_offset: one.target_offset,
                            length: one.length,
                        },
                    );
                    assert(ops@[i as int]@ =~= ops_of(all)[i as int]);
                },
            }
            i += 1;
        }
        assert(all.take(i as int) =~= all);
        assert(keys::views(ops@) =~= ops_of(all));
        let batch_id = match self.transport.allocate_batch_id(ops.len()) {
            Ok(id) => id,
            Err(e) => { vstd::pervasive::unreached() },
        };
        match self.transport.submit_transfer(batch_id, ops.as_slice()) {
            Ok(_) => Ok(TransferBatchAck { batch_id }),
            Err(e) => {
                let _ = self.transport.free_batch_id(batch_id);
                Err(e.refusal())
            },
        }
    }

    /// Tells how far a task is.
    pub fn get_transfer_status(&self, req: &TransferStatusRequest) -> (r: Result<
        TransferStatusResponse,
        Refusal,
    >)
        ensures
            match r {
                Ok(st) => self@.transport.status(req.batch_id, req.task_id) is Ok && ({
                    let task = self@.transport.status(req.batch_id, req.task_id)->Ok_0;
                    st.state == state_number(task.state) && st.bytes_done == task.bytes_done
                }),
                Err(e) => self@.transport.status(req.batch_id, req.task_id) is Err && e@
                    == self@.transport.status(req.batch_id, req.task_id)->Err_0.refused(),
            },
    {
        match self.transport.get_transfer_status(req.batch_id, req.task_id) {
            Ok(st) => Ok(
                TransferStatusResponse {
                    state: task_state_to_proto(st.state),
                    bytes_done: st.bytes_done,
                },
            ),
            Err(e) => Err(e.refusal()),
        }
    }

    /// Gives a batch back.
    pub fn free_batch(&mut self, req: &FreeBatchRequest) -> (r: Result<Ack, Refusal>)
        requires
            old(self).wf(),
        ensures
            final(self).wf(),
            final(self)@ == old(self)@.batch_returned(req.batch_id).0,
            match r {
                Ok(a) => old(self)@.batch_returned(req.batch_id).1 == Ok::<AckView, RefusalView>(
                    a@,
                ),
                Err(e) => old(self)@.batch_returned(req.batch_id).1 == Err::<AckView, RefusalView>(
                    e@,
                ),
            },
    {
        match self.transport.free_batch_id(req.batch_id) {
            Ok(_) => Ok(ack_yes()),
            Err(TransferError::UnknownBatch(_)) => Ok(
                ack_no(joined("unknown batch_id=", decimal_text(req.batch_id).as_str())),
            ),
            Err(e) => Err(e.refusal()),
        }
    }

    /// Finds the blocks of a pull.
    fn take_blocks(&self, req: &PullRequest) -> (r: Result<Vec<Vec<u8>>, Refusal>)
        ensures
            match r {
                Ok(blocks) => taken(self@.bytes, req@) == Ok::<Seq<Seq<u8>>, RefusalView>(
                    keys::views(blocks@),
                ),
                Err(e) => taken(self@.bytes, req@) == Err::<Seq<Seq<u8>>, RefusalView>(e@),
            },
            r is Ok ==> r->Ok_0@.len() <= req.ids@.len(),
    {
        let p = policy(req.policy);
        let timed = p == PullPolicy::PullTimeout && req.budget_ms > 0;
        let ghost all = keys::views(req.ids@);
        let ghost store = self@.bytes;
        let mut blocks: Vec<Vec<u8>> = Vec::new();
        let mut i: usize = 0;
        assert(all.take(0) =~= Seq::empty());
        assert(keys::views(blocks@) =~= Seq::empty());
        while i < req.ids.len()
            invariant
                i <= req.ids@.len(),
                all == keys::views(req.ids@),
                store == self@.bytes,
                all == req@.ids,
                p == policy_of(req.policy),
                timed == (p == PullPolicy::PullTimeout && req.budget_ms > 0),
                keys::views(blocks@) == found(store, all.take(i as int)),
                blocks@.len() <= i,
                keys::views(blocks@).len() == blocks@.len(),
                timed ==> blocks@.len() <= req.budget_ms,
                p == PullPolicy::PullWaitComplete ==> first_missing(store, all.take(i as int))
                    is None,
            decreases req.ids.len() - i,
        {
            if timed && blocks.len() as u64 >= req.budget_ms as u64 {
                proof {
                    lemma_found_grows(store, all, i as int);
                }
                assert(keys::views(blocks@) =~= at_most(found(store, all), req.budget_ms as int));
                return Ok(blocks);
            }
            assert(all.take(i + 1).drop_last() =~= all.take(i as int));
            assert(all.take(i + 1).last() == req.ids@[i as int]@);
            let ghost before = keys::views(blocks@);
            match self.bytes.get(&req.ids[i]) {
                Some(d) => {
                    blocks.push(d);
                    assert(keys::views(blocks@) =~= before.push(d@));
                },
                None => {
                    if p == PullPolicy::PullWaitComplete {
                        proof {
                            lemma_missing_stays(store, all, i + 1);
                        }
                        return Err(
                            Refusal {
                                code: Code::NotFound,
                                message: joined(
                                    "Pull WAIT_COMPLETE missing block hash_len=",
                                    decimal_text(req.ids[i].block_hash.len() as u64).as_str(),
                                ),
                            },
                        );
                    }
                },
            }
            i += 1;
        }
        assert(all.take(i as int) =~= all);
        Ok(blocks)
    }

    /// The number of bytes that a pull would take; zero where it is refused.
    pub fn pull_size(&self, req: &PullRequest) -> (n: u128)
        ensures
            n == match taken(self@.bytes, req@) {
                Ok(blocks) => concat(blocks).len(),
                Err(_) => 0,
            },
    {
        match self.take_blocks(req) {
            Err(_) => 0,
            Ok(blocks) => total(&blocks),
        }
    }

    /// Pulls blocks into a new segment and tells how to give it back.
    pub fn pull(&mut self, req: &PullRequest) -> (r: Result<PullResponse, Refusal>)
        requires
            old(self).wf(),
            taken(old(self)@.bytes, req@) is Ok ==> concat(
                taken(old(self)@.bytes, req@)->Ok_0,
            ).len() <= isize::MAX,
        ensures
            final(self).wf(),
            final(self)@ == old(self)@.pulled(req@).0,
            match r {
                Ok(p) => old(self)@.pulled(req@).1 == Ok::<(u64, u32, bool), RefusalView>(
                    (p.handle, p.pulled_length, p.completed),
                ),
                Err(e) => old(self)@.pulled(req@).1 == Err::<(u64, u32, bool), RefusalView>(e@),
            },
    {
        let blocks = match self.take_blocks(req) {
            Err(e) => {
                return Err(e);
            },
            Ok(blocks) => blocks,
        };
        let ghost all = keys::views(blocks@);
        let n = total(&blocks);
        let capacity: usize = if n == 0 {
            1
        } else {
            n as usize
        };
        let name = joined("pull-", req.requester_node_id.as_str());
        assert(1 <= isize::MAX);
        let dest = match self.transport.open_segment(name.as_str(), capacity) {
            Ok(id) => id,
            Err(_) => { vstd::pervasive::unreached() },
        };
        let ghost opened = self.transport@;
        let ghost zeros = Seq::new(capacity as nat, |i: int| 0u8);
        let mut offset: u64 = 0;
        let mut i: usize = 0;
        assert(all.take(0) =~= Seq::empty());
        assert(zeros =~= concat(all.take(0)) + zeros.skip(0));
        assert(opened.segments =~= opened.segments.insert(
            dest,
            SegmentView { name: name@, buf: concat(all.take(0)) + zeros.skip(0) },
        ));
        while i < blocks.len()
            invariant
                i <= blocks@.len(),
                all == keys::views(blocks@),
                zeros.len() == capacity,
                offset == concat(all.take(i as int)).len(),
                concat(all).len() == n,
                n == 0 || n == capacity,
                capacity >= 1,
                self.transport@ == (TransportView {
                    segments: opened.segments.insert(
                        dest,
                        SegmentView {
                            name: name@,
                            buf: concat(all.take(i as int)) + zeros.skip(offset as int),
                        },
                    ),
                    ..opened
                }),
                self.bytes == old(self).bytes,
                self.pulls == old(self).pulls,
                self.next_pull == old(self).next_pull,
                self.publish == old(self).publish,
            decreases blocks.len() - i,
        {
            let ghost data = blocks@[i as int]@;
            let ghost before = self.transport@;
            proof {
                assert(all.take(i + 1).drop_last() =~= all.take(i as int));
                assert(all.take(i + 1).last() == data);
                lemma_concat_grows(all, i + 1);
            }
            let size = blocks[i].len();
            match self.transport.write_segment(dest, offset, blocks[i].as_slice()) {
                Ok(_) => {},
                Err(_) => { vstd::pervasive::unreached() },
            }
            proof {
                let buf = concat(all.take(i as int)) + zeros.skip(offset as int);
                assert(tcp::over(buf, offset as int, data) =~= concat(all.take(i + 1))
                    + zeros.skip(offset + data.len()));
                assert(self.transport@.segments =~= opened.segments.insert(
                    dest,
                    SegmentView {
                        name: name@,
                        buf: concat(all.take(i + 1)) + zeros.skip(offset + data.len()),
                    },
                ));
            }
            offset = offset + size as u64;
            i += 1;
        }
        proof {
            assert(all.take(i as int) =~= all);
            assert(concat(all) + zeros.skip(offset as int) =~= pulled_bytes(all));
            assert(self.transport@ =~= old(self)@.transport.opened(name@, pulled_bytes(all)));
        }

        let p = policy(req.policy);
        let pulled = blocks.len() as u32;
        let wanted = req.ids.len() as u64;
        let completed = match p {
            PullPolicy::PullWaitComplete => pulled as u64 == wanted,
            PullPolicy::PullTimeout => pulled as u64 >= wanted,
            PullPolicy::PullBestEffort => true,
        };
        let handle = self.next_pull;
        self.next_pull = next_number(handle);
        let _ = self.pulls.insert(
            handle,
            PullHandle { pulled_length: pulled, completed, dest_segment: dest },
        );
        Ok(PullResponse { handle, pulled_length: pulled, completed })
    }

    /// Gives a pull back, and its segment with it.
    pub fn free_pull(&mut self, req: &FreePullRequest) -> (a: Ack)
        requires
            old(self).wf(),
        ensures
            final(self).wf(),
            final(self)@ == old(self)@.pull_returned(req.handle).0,
            a@ == old(self)@.pull_returned(req.handle).1,
    {
        let a = match self.pulls.remove(&req.handle) {
            None => {
                assert(self@.pulls =~= old(self)@.pulls);
                ack_no(joined("unknown pull handle=", decimal_text(req.handle).as_str()))
            },
            Some(h) => match self.transport.free_segment(h.dest_segment) {
                Ok(_) => ack_yes(),
                Err(_) => {
                    let mut err = joined("pull handle=", decimal_text(req.handle).as_str());
                    err.append(" freed; dest segment ");
                    err.append(decimal_text(h.dest_segment).as_str());
                    err.append(" already gone");
                    Ack { ok: true, err, backpressure: None }
                },
            },
        };
        assert(self@.publish == old(self)@.publish);
        a
    }

    /// Publishes slices of layers.
    pub fn publish(&mut self, req: &PublishRequest) -> (a: Ack)
        requires
            old(self).wf(),
        ensures
            final(self).wf(),
            final(self)@ == old(self)@.published(req@).0,
            a@ == old(self)@.published(req@).1,
    {
        let scope = publish_scope(req.request_id.as_str());
        let ghost st0 = self@.stream(scope@);
        let mut st = match self.publish.remove(&scope) {
            Some(st) => st,
            None => PublishStream::new(),
        };
        assert(st@ == st0);
        assert(st@.wf());
        if req.seq > 0 && req.seq < st.last_seq {
            let mut err = joined("Publish seq=", decimal_text(req.seq as u64).as_str());
            err.append(" < last_seq=");
            err.append(decimal_text(st.last_seq as u64).as_str());
            err.append(" (overlap fence, request_id=");
            err.append(quoted_text(scope.as_str()).as_str());
            err.append(")");
            let _ = self.publish.insert(scope, st);
            assert(self@.publish =~= old(self)@.publish.insert(scope@, st0));
            return ack_no(err);
        }
        if req.seq > st.last_seq {
            st.last_seq = req.seq;
        }
        st.count_all(&req.slices);
        let ghost st1 = st@;
        let _ = self.publish.insert(scope, st);
        assert(self@.publish =~= old(self)@.publish.insert(scope@, st1));
        ack_yes()
    }

    /// Gives the stream of a request back.
    pub fn free_publish(&mut self, req: &FreePublishRequest) -> (a: Ack)
        requires
            old(self).wf(),
        ensures
            final(self).wf(),
            final(self)@ == old(self)@.publish_returned(req.request_id@).0,
            a@ == old(self)@.publish_returned(req.request_id@).1,
    {
        let scope = publish_scope(req.request_id.as_str());
        let a = match self.publish.remove(&scope) {
            Some(_) => ack_yes(),
            None => ack_no(
                joined("unknown publish request_id=", quoted_text(scope.as_str()).as_str()),
            ),
        };
        assert forall|k: Seq<char>| #[trigger] self@.publish.contains_key(k) implies self@.publish[k].wf() by {
            assert(old(self)@.publish.contains_key(k));
        }
        a
    }
}

/// The number of bytes of all blocks together.
fn total(blocks: &Vec<Vec<u8>>) -> (n: u128)
    ensures
        n == concat(keys::views(blocks@)).len(),
{
    let ghost all = keys::views(blocks@);
    let count = blocks.len();
    let mut n: u128 = 0;
    let mut i: usize = 0;
    assert(all.take(0) =~= Seq::empty());
    while i < count
        invariant
            i <= count,
            count == blocks@.len(),
            all == keys::views(blocks@),
            n == concat(all.take(i as int)).len(),
            n <= i * u64::MAX,
        decreases count - i,
    {
        assert(all.take(i + 1).drop_last() =~= all.take(i as int));
        assert(all.take(i + 1).last() == blocks@[i as int]@);
        proof {
            assert((i + 1) * u64::MAX == i * u64::MAX + u64::MAX) by (nonlinear_arith);
            assert(i * u64::MAX <= 0xffff_ffff_ffff_fffe * u64::MAX) by (nonlinear_arith)
                requires
                    i <= 0xffff_ffff_ffff_fffe,
            ;
        }
        n = n + blocks[i].len() as u128;
        i += 1;
    }
    assert(all.take(i as int) =~= all);
    n
}

/// Giving a pull back undoes it: the blocks' segment and the handle are gone, and
/// nothing else has changed but the numbers that were used up.
pub proof fn free_undoes_pull(s: ServerView, req: PullRequestView)
    requires
        tcp::numbered(s.transport),
        !s.pulls.contains_key(s.next_pull),
        s.pulled(req).1 is Ok,
    ensures
        ({
            let (t, a) = s.pulled(req).0.pull_returned(s.pulled(req).1->Ok_0.0);
            &&& a == yes()
            &&& t.pulls == s.pulls
            &&& t.transport.segments == s.transport.segments
            &&& t.transport.batches == s.transport.batches
            &&& t.bytes == s.bytes
            &&& t.publish == s.publish
        }),
{
    let (t, a) = s.pulled(req).0.pull_returned(s.pulled(req).1->Ok_0.0);
    assert(t.pulls =~= s.pulls);
    assert(t.transport.segments =~= s.transport.segments);
}

/// A pull that waits for all blocks takes every one of them, in order, or is refused;
/// where it is refused nothing changes.
pub proof fn waiting_pull_takes_all(s: ServerView, req: PullRequestView, i: int)
    requires
        policy_of(req.policy) == PullPolicy::PullWaitComplete,
        0 <= i < req.ids.len(),
    ensures
        match taken(s.bytes, req) {
            Ok(blocks) => {
                &&& blocks.len() == req.ids.len()
                &&& bytes::kept(s.bytes, req.ids[i]) == Some(blocks[i])
                &&& req.ids.len() <= u32::MAX ==> s.pulled(req).1 == Ok::<
                    (u64, u32, bool),
                    RefusalView,
                >((s.next_pull, req.ids.len() as u32, true))
            },
            Err(e) => s.pulled(req) == (s, Err::<(u64, u32, bool), RefusalView>(e)),
        },
{
    if first_missing(s.bytes, req.ids) is None {
        lemma_all_found(s.bytes, req.ids);
    }
}

proof fn lemma_all_found(store: Bytes, ids: Seq<KvBlockIdView>)
    requires
        first_missing(store, ids) is None,
    ensures
        found(store, ids).len() == ids.len(),
        forall|i: int|
            0 <= i < ids.len() ==> bytes::kept(store, #[trigger] ids[i]) == Some(
                found(store, ids)[i],
            ),
    decreases ids.len(),
{
    if ids.len() > 0 {
        lemma_all_found(store, ids.drop_last());
        assert forall|i: int| 0 <= i < ids.len() implies bytes::kept(store, #[trigger] ids[i])
            == Some(found(store, ids)[i]) by {
            if i < ids.len() - 1 {
                assert(ids.drop_last()[i] == ids[i]);
            }
        }
    }
}

/// A timed pull with a budget takes no more blocks than that.
pub proof fn budget_bounds_a_timed_pull(s: ServerView, req: PullRequestView)
    requires
        policy_of(req.policy) == PullPolicy::PullTimeout,
        req.budget_ms > 0,
    ensures
        taken(s.bytes, req) is Ok,
        taken(s.bytes, req)->Ok_0.len() <= req.budget_ms,
{
}

/// Every slice is counted.
pub open spec fn all_seen(st: StreamView, slices: Seq<LayerSliceView>) -> bool {
    forall|i: int|
        0 <= i < slices.len() && (#[trigger] slices[i]).id is Some ==> st.seen.contains(
            (slices[i].id->0.block_hash, slices[i].layer_idx, slices[i].offset),
        )
}

proof fn lemma_count_sees(st: StreamView, slices: Seq<LayerSliceView>)
    ensures
        all_seen(st.counted_all(slices), slices),
        st.seen.subset_of(st.counted_all(slices).seen),
        st.counted_all(slices).last_seq == st.last_seq,
    decreases slices.len(),
{
    if slices.len() > 0 {
        lemma_count_sees(st, slices.drop_last());
        let before = st.counted_all(slices.drop_last());
        assert forall|i: int|
            0 <= i < slices.len() && (#[trigger] slices[i]).id is Some implies st.counted_all(
            slices,
        ).seen.contains(
            (slices[i].id->0.block_hash, slices[i].layer_idx, slices[i].offset),
        ) by {
            if i < slices.len() - 1 {
                assert(slices.drop_last()[i] == slices[i]);
            }
        }
    }
}

proof fn lemma_seen_counts_nothing(st: StreamView, slices: Seq<LayerSliceView>)
    requires
        all_seen(st, slices),
    ensures
        st.counted_all(slices) == st,
    decreases slices.len(),
{
    if slices.len() > 0 {
        assert(all_seen(st, slices.drop_last())) by {
            assert forall|i: int|
                0 <= i < slices.drop_last().len() && (#[trigger] slices.drop_last()[i]).id
                    is Some implies st.seen.contains(
                (
                    slices.drop_last()[i].id->0.block_hash,
                    slices.drop_last()[i].layer_idx,
                    slices.drop_last()[i].offset,
                ),
            ) by {
                assert(slices.drop_last()[i] == slices[i]);
            }
        }
        lemma_seen_counts_nothing(st, slices.drop_last());
        assert(slices[slices.len() - 1] == slices.last());
    }
}

/// Sending the same slices again changes nothing: they are acknowledged, and no byte
/// is counted twice.
pub proof fn resending_counts_nothing(s: ServerView, req: PublishRequestView)
    requires
        s.published(req).1 == yes(),
    ensures
        s.published(req).0.published(req) == (s.published(req).0, yes()),
{
    let scope = scope_of(req.request_id);
    let st = s.stream(scope);
    let refused = "Publish seq="@ + text::decimal(req.seq as nat) + " < last_seq="@ + text::decimal(
        st.last_seq as nat,
    ) + " (overlap fence, request_id="@ + text::quoted(scope) + ")"@;
    assert(no(refused) != yes());
    let moved = StreamView {
        last_seq: if req.seq > st.last_seq {
            req.seq
        } else {
            st.last_seq
        },
        ..st
    };
    lemma_count_sees(moved, req.slices);
    let after = moved.counted_all(req.slices);
    lemma_seen_counts_nothing(after, req.slices);
    let t = s.published(req).0;
    assert(t.stream(scope) == after);
    assert((StreamView {
        last_seq: if req.seq > after.last_seq {
            req.seq
        } else {
            after.last_seq
        },
        ..after
    }) =~= after);
    assert(t.publish.insert(scope, after) =~= t.publish);
}

/// Once a request has published under a number, lower ones are refused, and a refused
/// publication changes nothing.
pub proof fn lower_numbers_are_fenced(
    s: ServerView,
    req: PublishRequestView,
    late: PublishRequestView,
)
    requires
        s.published(req).1 == yes(),
        scope_of(late.request_id) == scope_of(req.request_id),
        0 < late.seq < req.seq,
    ensures
        !s.published(req).0.published(late).1.ok,
        s.published(req).0.published(late).0 == s.published(req).0,
{
    let scope = scope_of(req.request_id);
    let st = s.stream(scope);
    let moved = StreamView {
        last_seq: if req.seq > st.last_seq {
            req.seq
        } else {
            st.last_seq
        },
        ..st
    };
    lemma_count_sees(moved, req.slices);
    let t = s.published(req).0;
    assert(t.stream(scope).last_seq >= req.seq);
    assert(t.publish.insert(scope, t.stream(scope)) =~= t.publish);
}

/// Requests do not affect one another's streams, nor does a stream outlive its return.
pub proof fn requests_publish_apart(
    s: ServerView,
    req: PublishRequestView,
    other: Seq<char>,
)
    ensures
        scope_of(other) != scope_of(req.request_id) ==> s.published(req).0.stream(scope_of(other))
            == s.stream(scope_of(other)),
        s.publish_returned(other).0.stream(scope_of(other)) == StreamView::fresh(),
        scope_of(other) != scope_of(req.request_id) ==> s.publish_returned(other).0.stream(
            scope_of(req.request_id),
        ) == s.stream(scope_of(req.request_id)),
{
}

/// A refused submission leaves no batch behind and no byte changed.
pub proof fn refused_batch_leaves_nothing(s: ServerView, reqs: Seq<TransferRequestView>)
    requires
        tcp::numbered(s.transport),
        s.batch_submitted(reqs).1 is Err,
    ensures
        s.batch_submitted(reqs).0.transport.segments == s.transport.segments,
        s.batch_submitted(reqs).0.transport.batches == s.transport.batches,
        s.batch_submitted(reqs).0.pulls == s.pulls,
        s.batch_submitted(reqs).0.publish == s.publish,
{
    assert(s.batch_submitted(reqs).0.transport.batches =~= s.transport.batches);
}

/// The store keeps bytes under the address of the block.
pub open spec fn has_bytes(store: Bytes, id: KvBlockIdView) -> bool {
    store.contains_key(
        ByteKeyView {
            model_id: id.model_id,
            revision: id.revision,
            pool_kind: id.pool_kind,
            block_hash: id.block_hash,
        },
    )
}

/// The bytes that the store keeps under the address of the block.
pub open spec fn bytes_of(store: Bytes, id: KvBlockIdView) -> Seq<u8> {
    store[
        ByteKeyView {
            model_id: id.model_id,
            revision: id.revision,
            pool_kind: id.pool_kind,
            block_hash: id.block_hash,
        }
    ]
}

/// How many of the first so many blocks the store keeps.
pub open spec fn kept_before(store: Bytes, ids: Seq<KvBlockIdView>, j: int) -> nat
    decreases j,
{
    if j <= 0 {
        0
    } else if has_bytes(store, ids[j - 1]) {
        kept_before(store, ids, j - 1) + 1
    } else {
        kept_before(store, ids, j - 1)
    }
}

/// How many bytes the store keeps of the first so many blocks.
pub open spec fn length_before(store: Bytes, ids: Seq<KvBlockIdView>, j: int) -> nat
    decreases j,
{
    if j <= 0 {
        0
    } else if has_bytes(store, ids[j - 1]) {
        length_before(store, ids, j - 1) + bytes_of(store, ids[j - 1]).len()
    } else {
        length_before(store, ids, j - 1)
    }
}

/// The blocks found of the first so many are the first of the blocks found.
proof fn lemma_found_before(store: Bytes, ids: Seq<KvBlockIdView>, j: int)
    requires
        0 <= j <= ids.len(),
    ensures
        found(store, ids.take(j)).len() == kept_before(store, ids, j),
        concat(found(store, ids.take(j))).len() == length_before(store, ids, j),
        j < ids.len() && has_bytes(store, ids[j]) ==> found(store, ids.take(j + 1)) == found(
            store,
            ids.take(j),
        ).push(bytes_of(store, ids[j])),
    decreases j,
{
    if j < ids.len() {
        assert(ids.take(j + 1).drop_last() =~= ids.take(j));
    }
    if j > 0 {
        lemma_found_before(store, ids, j - 1);
        assert(ids.take(j).drop_last() =~= ids.take(j - 1));
        let f = found(store, ids.take(j));
        if has_bytes(store, ids[j - 1]) {
            assert(f.drop_last() =~= found(store, ids.take(j - 1)));
        }
    }
}

/// What is found of more blocks begins with what is found of fewer.
proof fn lemma_found_begins(store: Bytes, ids: Seq<KvBlockIdView>, i: int, j: int)
    requires
        0 <= i <= j <= ids.len(),
    ensures
        found(store, ids.take(i)).len() <= found(store, ids.take(j)).len(),
        found(store, ids.take(j)).take(found(store, ids.take(i)).len() as int) == found(
            store,
            ids.take(i),
        ),
    decreases j - i,
{
    if i < j {
        lemma_found_begins(store, ids, i, j - 1);
        assert(ids.take(j).drop_last() =~= ids.take(j - 1));
        let a = found(store, ids.take(i));
        assert(found(store, ids.take(j)).take(a.len() as int) =~= found(
            store,
            ids.take(j - 1),
        ).take(a.len() as int));
    } else {
        assert(found(store, ids.take(j)).take(found(store, ids.take(i)).len() as int) =~= found(
            store,
            ids.take(i),
        ));
    }
}

/// One of the blocks put together stands after those before it.
proof fn lemma_concat_at(blocks: Seq<Seq<u8>>, k: int)
    requires
        0 <= k < blocks.len(),
    ensures
        concat(blocks.take(k)).len() + blocks[k].len() <= concat(blocks).len(),
        concat(blocks).subrange(
            concat(blocks.take(k)).len() as int,
            concat(blocks.take(k)).len() as int + blocks[k].len(),
        ) == blocks[k],
    decreases blocks.len(),
{
    let init = blocks.drop_last();
    let start = concat(blocks.take(k)).len() as int;
    if k == blocks.len() - 1 {
        assert(blocks.take(k) =~= init);
        assert(concat(blocks).subrange(start, start + blocks[k].len()) =~= blocks[k]);
    } else {
        lemma_concat_at(init, k);
        assert(init.take(k) =~= blocks.take(k));
        assert(concat(blocks).subrange(start, start + blocks[k].len()) =~= concat(init).subrange(
            start,
            start + blocks[k].len(),
        ));
    }
}

/// A pull hands over the bytes that the store keeps: after it, the segment of the pull, read
/// behind the bytes of the blocks before it, holds each block asked for and kept. A timed
/// pull with a budget does so for as many blocks as the budget allows.
pub proof fn pull_hands_over_the_bytes(s: ServerView, req: PullRequestView, j: int)
    requires
        s.pulled(req).1 is Ok,
        0 <= j < req.ids.len(),
        has_bytes(s.bytes, req.ids[j]),
        req.policy == PullPolicy::PullTimeout.spec_number() && req.budget_ms > 0 ==> kept_before(
            s.bytes,
            req.ids,
            j,
        ) < req.budget_ms,
    ensures
        ({
            let t = s.pulled(req).0;
            let handle = s.pulled(req).1->Ok_0.0;
            let seg = t.pulls[handle].dest_segment;
            let start = length_before(s.bytes, req.ids, j) as int;
            let end = start + bytes_of(s.bytes, req.ids[j]).len();
            &&& t.pulls.contains_key(handle)
            &&& t.transport.segments.contains_key(seg)
            &&& end <= t.transport.segments[seg].buf.len()
            &&& t.transport.segments[seg].buf.subrange(start, end) == bytes_of(s.bytes, req.ids[j])
        }),
{
    let ids = req.ids;
    let store = s.bytes;
    let blocks = taken(store, req)->Ok_0;
    let all = found(store, ids);
    assert(ids.take(ids.len() as int) =~= ids);
    lemma_found_before(store, ids, j);
    lemma_found_begins(store, ids, j, ids.len() as int);
    lemma_found_begins(store, ids, j + 1, ids.len() as int);
    let before = found(store, ids.take(j));
    let with = found(store, ids.take(j + 1));
    let k = before.len() as int;
    assert(with[k] == bytes_of(store, ids[j]));
    assert(all.take(with.len() as int)[k] == with[k]);
    assert(all[k] == bytes_of(store, ids[j]));
    assert(blocks.len() > k && blocks[k] == all[k] && blocks.take(k) =~= before) by {
        assert(all.take(k) == before);
        if policy_of(req.policy) == PullPolicy::PullTimeout && req.budget_ms > 0 {
            assert(at_most(all, req.budget_ms as int).take(k) =~= all.take(k));
        }
    }
    lemma_concat_at(blocks, k);
    let start = length_before(store, ids, j) as int;
    if concat(blocks).len() == 0 {
        assert(seq![0u8].subrange(start, start) =~= blocks[k]);
    }
}

/// What a pull answers: it is refused exactly where it waits for all blocks and one is not
/// kept, and then nothing has changed. Else it counts the blocks that were kept, within the
/// budget where it is timed with one, and is complete unless it is timed and took fewer than
/// were asked for. It leaves the bytes and everything handed out before as they are.
pub proof fn pull_answers_for_its_blocks(s: ServerView, req: PullRequestView)
    requires
        req.ids.len() <= u32::MAX,
        tcp::numbered(s.transport),
        !s.pulls.contains_key(s.next_pull),
    ensures
        ({
            let (t, r) = s.pulled(req);
            let n = kept_before(s.bytes, req.ids, req.ids.len() as int);
            let timed = req.policy == PullPolicy::PullTimeout.spec_number();
            let most = if timed && 0 < req.budget_ms && req.budget_ms < n {
                req.budget_ms as nat
            } else {
                n
            };
            &&& r is Err <==> req.policy == PullPolicy::PullWaitComplete.spec_number() && n
                < req.ids.len()
            &&& r is Err ==> t == s
            &&& r is Ok ==> r->Ok_0.1 == most && r->Ok_0.2 == (!timed || most == req.ids.len())
            &&& t.bytes == s.bytes && t.publish == s.publish && t.transport.batches
                == s.transport.batches
            &&& forall|h: u64| #[trigger]
                s.pulls.contains_key(h) ==> t.pulls.contains_key(h) && t.pulls[h] == s.pulls[h]
            &&& forall|k: u64| #[trigger]
                s.transport.segments.contains_key(k) ==> t.transport.segments.contains_key(k)
                    && t.transport.segments[k] == s.transport.segments[k]
        }),
{
    let ids = req.ids;
    assert(ids.take(ids.len() as int) =~= ids);
    lemma_found_before(s.bytes, ids, ids.len() as int);
    lemma_missing_counted(s.bytes, ids, ids.len() as int);
}

/// Some block is missing exactly where fewer are kept than there are.
proof fn lemma_missing_counted(store: Bytes, ids: Seq<KvBlockIdView>, j: int)
    requires
        0 <= j <= ids.len(),
    ensures
        kept_before(store, ids, j) <= j,
        first_missing(store, ids.take(j)) is Some <==> kept_before(store, ids, j) < j,
    decreases j,
{
    if j > 0 {
        lemma_missing_counted(store, ids, j - 1);
        assert(ids.take(j).drop_last() =~= ids.take(j - 1));
    }
}

/// Requests with names of their own have streams of their own; those without a name share
/// one.
pub proof fn named_requests_publish_apart(s: ServerView, req: PublishRequestView, other: Seq<char>)
    requires
        req.request_id.len() > 0,
        other.len() > 0,
        other != req.request_id,
    ensures
        s.published(req).0.publish.contains_key(req.request_id),
        s.published(req).0.publish.contains_key(other) == s.publish.contains_key(other),
        s.publish.contains_key(other) ==> s.published(req).0.publish[other] == s.publish[other],
        s.published(req).0.transport == s.transport,
        s.published(req).0.pulls == s.pulls,
        s.published(req).0.bytes == s.bytes,
{
}

/// A slice counts once: a request with one slice adds the slice's length to the bytes of its
/// layer where no slice was published at that offset before, and else nothing; no other
/// layer's bytes change.
pub proof fn slice_counts_once(s: ServerView, req: PublishRequestView, layer: (Seq<u8>, u32))
    requires
        s.wf(),
        s.published(req).1.ok,
        req.slices.len() == 1,
        req.slices[0].id is Some,
        s.stream(scope_of(req.request_id)).seen.len() < u64::MAX,
    ensures
        ({
            let slice = req.slices[0];
            let was = s.stream(scope_of(req.request_id));
            let is = s.published(req).0.stream(scope_of(req.request_id));
            let hash = slice.id->0.block_hash;
            let counts = layer == (hash, slice.layer_idx) && !was.seen.contains(
                (hash, slice.layer_idx, slice.offset),
            );
            is.layer_bytes(layer) == was.layer_bytes(layer) + (if counts {
                slice.length as int
            } else {
                0
            })
        }),
{
    let was = s.stream(scope_of(req.request_id));
    let slice = req.slices[0];
    let hash = slice.id->0.block_hash;
    let l = (hash, slice.layer_idx);
    assert(was.wf());
    let moved = StreamView {
        last_seq: if req.seq > was.last_seq {
            req.seq
        } else {
            was.last_seq
        },
        ..was
    };
    assert(req.slices.drop_last() =~= Seq::empty());
    assert(moved.counted_all(req.slices.drop_last()) == moved);
    assert(was.layer_bytes(l) + slice.length <= u128::MAX) by {
        let n = was.seen.len();
        assert(n * u64::MAX + u64::MAX <= u128::MAX) by (nonlinear_arith)
            requires
                n < u64::MAX,
        ;
        if was.layers.contains_key(l) {
            assert(was.layers[l] <= n * u64::MAX);
        } else {
            assert(0 <= n * u64::MAX) by (nonlinear_arith);
        }
    }
}

proof fn lemma_counted_in_parts(st: StreamView, a: Seq<LayerSliceView>, b: Seq<LayerSliceView>)
    ensures
        st.counted_all(a + b) == st.counted_all(a).counted_all(b),
    decreases b.len(),
{
    if b.len() == 0 {
        assert(a + b =~= a);
    } else {
        lemma_counted_in_parts(st, a, b.drop_last());
        assert((a + b).drop_last() =~= a + b.drop_last());
    }
}

/// Publishing slices in one request is publishing them in two.
pub proof fn publishing_in_parts(
    s: ServerView,
    req: PublishRequestView,
    a: Seq<LayerSliceView>,
    b: Seq<LayerSliceView>,
)
    requires
        req.slices == a + b,
        s.published(req).1.ok,
    ensures
        ({
            let first = PublishRequestView { slices: a, ..req };
            let second = PublishRequestView { slices: b, ..req };
            s.published(req) == s.published(first).0.published(second)
        }),
{
    let scope = scope_of(req.request_id);
    let st = s.stream(scope);
    let moved = StreamView {
        last_seq: if req.seq > st.last_seq {
            req.seq
        } else {
            st.last_seq
        },
        ..st
    };
    lemma_counted_in_parts(moved, a, b);
    lemma_count_sees(moved, a);
    let first = PublishRequestView { slices: a, ..req };
    let t = s.published(first).0;
    let half = moved.counted_all(a);
    assert(t.stream(scope) == half);
    assert((StreamView {
        last_seq: if req.seq > half.last_seq {
            req.seq
        } else {
            half.last_seq
        },
        ..half
    }) == half);
    assert(s.publish.insert(scope, half).insert(scope, half.counted_all(b)) =~= s.publish.insert(
        scope,
        half.counted_all(b),
    ));
}

/// The copy lies where blocks are kept in segments.
spec fn copyable(r: TransferRequestView) -> bool {
    r.source is Some && (r.source->0.tier == Tier::L0.spec_number() || r.source->0.tier
        == Tier::L1.spec_number() || r.source->0.tier == Tier::L2.spec_number())
}

proof fn lemma_all_copyable(reqs: Seq<TransferRequestView>)
    ensures
        request_verdict(reqs) is None <==> forall|i: int|
            0 <= i < reqs.len() ==> copyable(#[trigger] reqs[i]),
    decreases reqs.len(),
{
    if reqs.len() > 0 {
        let init = reqs.drop_last();
        lemma_all_copyable(init);
        assert(reqs[reqs.len() - 1] == reqs.last());
        if request_verdict(reqs) is None {
            assert forall|i: int| 0 <= i < reqs.len() implies copyable(#[trigger] reqs[i]) by {
                if i < init.len() {
                    assert(init[i] == reqs[i]);
                }
            }
        } else if forall|i: int| 0 <= i < reqs.len() ==> copyable(#[trigger] reqs[i]) {
            assert forall|i: int| 0 <= i < init.len() implies copyable(#[trigger] init[i]) by {
                assert(init[i] == reqs[i]);
            }
        }
    }
}

/// A batch of copies is handed on as it was asked for: each copy from its source to its
/// target, none left out, under a new number. It is refused where there is none, where a copy
/// has no source in L0, L1 or L2, and else only where the transport refuses it.
pub proof fn copies_are_handed_on(s: ServerView, reqs: Seq<TransferRequestView>, ops: Seq<OpView>)
    requires
        ops.len() == reqs.len(),
        forall|i: int|
            0 <= i < reqs.len() ==> (#[trigger] ops[i]).source == reqs[i].source->0
                && ops[i].target_segment_id == reqs[i].target_segment_id && ops[i].target_offset
                == reqs[i].target_offset && ops[i].length == reqs[i].length,
    ensures
        ({
            let (t, r) = s.batch_submitted(reqs);
            let id = s.transport.next_batch;
            let in_order = reqs.len() > 0 && forall|i: int|
                0 <= i < reqs.len() ==> (#[trigger] reqs[i]).source is Some && (
                reqs[i].source->0.tier == Tier::L0.spec_number() || reqs[i].source->0.tier
                    == Tier::L1.spec_number() || reqs[i].source->0.tier
                    == Tier::L2.spec_number());
            let done = s.transport.batch_allocated(reqs.len()).0.submitted(id, ops);
            &&& r is Ok <==> in_order && done.1 is Ok
            &&& r is Ok ==> r->Ok_0 == id && t.transport == done.0
            &&& !in_order ==> t == s
            &&& t.bytes == s.bytes && t.pulls == s.pulls && t.publish == s.publish
        }),
{
    lemma_all_copyable(reqs);
    assert(ops =~= ops_of(reqs)) by {
        assert forall|i: int| 0 <= i < reqs.len() implies ops[i] == #[trigger] ops_of(reqs)[i] by {
        }
    }
    assert((forall|i: int|
        0 <= i < reqs.len() ==> (#[trigger] reqs[i]).source is Some && (reqs[i].source->0.tier
            == Tier::L0.spec_number() || reqs[i].source->0.tier == Tier::L1.spec_number()
            || reqs[i].source->0.tier == Tier::L2.spec_number())) <==> (forall|i: int|
        0 <= i < reqs.len() ==> copyable(#[trigger] reqs[i])));
}

} // verus!
