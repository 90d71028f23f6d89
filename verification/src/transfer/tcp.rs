//! Copies between segments in memory, one after the other.

use vstd::prelude::*;

use crate::base::keys;
use crate::base::table::Table;
use crate::base::text::text;
use crate::proto::Tier;
use crate::transfer::error::TransferError;
use crate::transfer::location;
use crate::transfer::location::validate_location_tier;
use crate::transfer::transport::{
    BatchId, OpView, SegmentId, TaskState, TaskStatus, TransferOp, Transport,
};

verus! {

/// A segment: its name and its bytes.
pub struct Segment {
    pub name: String,
    pub buf: Vec<u8>,
}

/// What a `Segment` stands for.
#[verifier::ext_equal]
pub struct SegmentView {
    pub name: Seq<char>,
    pub buf: Seq<u8>,
}

impl View for Segment {
    type V = SegmentView;

    open spec fn view(&self) -> SegmentView {
        SegmentView { name: self.name@, buf: self.buf@ }
    }
}

/// A batch: its tasks, and whether it was submitted or is being worked on.
pub struct Batch {
    pub tasks: Vec<TaskStatus>,
    pub submitted: bool,
    pub in_flight: bool,
}

/// What a `Batch` stands for.
#[verifier::ext_equal]
pub struct BatchView {
    pub tasks: Seq<TaskStatus>,
    pub submitted: bool,
    pub in_flight: bool,
}

impl View for Batch {
    type V = BatchView;

    open spec fn view(&self) -> BatchView {
        BatchView { tasks: self.tasks@, submitted: self.submitted, in_flight: self.in_flight }
    }
}

/// Segments by number.
pub type Segments = Map<u64, SegmentView>;

/// A task that has not begun.
pub open spec fn pending() -> TaskStatus {
    TaskStatus { state: TaskState::Pending, bytes_done: 0 }
}

/// A task that has copied all its bytes.
pub open spec fn done(length: u64) -> TaskStatus {
    TaskStatus { state: TaskState::Done, bytes_done: length }
}

/// The bytes with some of them written over.
pub open spec fn over(buf: Seq<u8>, offset: int, data: Seq<u8>) -> Seq<u8> {
    buf.take(offset) + data + buf.skip(offset + data.len())
}

/// What is wrong with a range of a segment.
pub open spec fn range_verdict(segs: Segments, id: u64, offset: u64, length: u64) -> Result<
    (),
    TransferError,
> {
    if !segs.contains_key(id) {
        Err(TransferError::UnknownSegment(id))
    } else if offset + length > segs[id].buf.len() {
        Err(
            TransferError::OutOfRange {
                segment_id: id,
                offset,
                length,
                capacity: segs[id].buf.len() as usize,
            },
        )
    } else {
        Ok(())
    }
}

/// What is wrong with a copy: unknown segments come before ranges, and the source
/// comes before the target.
pub open spec fn op_verdict(segs: Segments, op: OpView) -> Result<(), TransferError> {
    if !segs.contains_key(op.source.segment_id) {
        Err(TransferError::UnknownSegment(op.source.segment_id))
    } else if !segs.contains_key(op.target_segment_id) {
        Err(TransferError::UnknownSegment(op.target_segment_id))
    } else if range_verdict(segs, op.source.segment_id, op.source.offset, op.length) is Err {
        range_verdict(segs, op.source.segment_id, op.source.offset, op.length)
    } else {
        range_verdict(segs, op.target_segment_id, op.target_offset, op.length)
    }
}

/// What is wrong with the first copy that is not in order.
pub open spec fn ops_verdict(segs: Segments, ops: Seq<OpView>) -> Result<(), TransferError>
    decreases ops.len(),
{
    if ops.len() == 0 {
        Ok(())
    } else {
        match ops_verdict(segs, ops.drop_last()) {
            Ok(_) => op_verdict(segs, ops.last()),
            Err(e) => Err(e),
        }
    }
}

/// What is wrong with the first source on a tier without segments.
pub open spec fn tiers_verdict(ops: Seq<OpView>) -> Result<(), TransferError>
    decreases ops.len(),
{
    if ops.len() == 0 {
        Ok(())
    } else {
        match tiers_verdict(ops.drop_last()) {
            Ok(_) => location::tier_verdict(ops.last().source),
            Err(e) => Err(e),
        }
    }
}

/// The bytes that a copy takes.
pub open spec fn payload(segs: Segments, op: OpView) -> Seq<u8> {
    segs[op.source.segment_id].buf.subrange(
        op.source.offset as int,
        op.source.offset + op.length,
    )
}

/// Bytes are written into a segment.
pub open spec fn written(segs: Segments, id: u64, offset: u64, data: Seq<u8>) -> Segments {
    segs.insert(id, SegmentView { buf: over(segs[id].buf, offset as int, data), ..segs[id] })
}

/// All copies are made, in order; every one takes the bytes as they were before the
/// first.
pub open spec fn copied(segs: Segments, ops: Seq<OpView>) -> Segments
    decreases ops.len(),
{
    if ops.len() == 0 {
        segs
    } else {
        written(
            copied(segs, ops.drop_last()),
            ops.last().target_segment_id,
            ops.last().target_offset,
            payload(segs, ops.last()),
        )
    }
}

/// The tasks after the copies: as many are done as there are copies.
pub open spec fn tasks_done(tasks: Seq<TaskStatus>, ops: Seq<OpView>) -> Seq<TaskStatus> {
    Seq::new(
        tasks.len(),
        |i: int|
            if i < ops.len() {
                done(ops[i].length)
            } else {
                tasks[i]
            },
    )
}

/// The state of a transport.
#[verifier::ext_equal]
pub struct TransportView {
    pub next_segment: u64,
    pub next_batch: u64,
    pub segments: Segments,
    pub batches: Map<u64, BatchView>,
}

impl TransportView {
    /// A transport without segments; numbers begin at one.
    pub open spec fn fresh() -> TransportView {
        TransportView {
            next_segment: 1,
            next_batch: 1,
            segments: Map::empty(),
            batches: Map::empty(),
        }
    }

    /// A segment is opened under the next number.
    pub open spec fn opened(self, name: Seq<char>, buf: Seq<u8>) -> TransportView {
        TransportView {
            next_segment: wrapping_next(self.next_segment),
            segments: self.segments.insert(self.next_segment, SegmentView { name, buf }),
            ..self
        }
    }

    /// A segment is given back.
    pub open spec fn segment_freed(self, id: u64) -> (TransportView, Result<(), TransferError>) {
        if self.segments.contains_key(id) {
            (TransportView { segments: self.segments.remove(id), ..self }, Ok(()))
        } else {
            (self, Err(TransferError::UnknownSegment(id)))
        }
    }

    /// Bytes are written, all or none.
    pub open spec fn segment_written(self, id: u64, offset: u64, data: Seq<u8>) -> (
        TransportView,
        Result<(), TransferError>,
    ) {
        match range_verdict(self.segments, id, offset, data.len() as u64) {
            Ok(_) => (
                TransportView { segments: written(self.segments, id, offset, data), ..self },
                Ok(()),
            ),
            Err(e) => (self, Err(e)),
        }
    }

    /// The bytes of a range.
    pub open spec fn segment_read(self, id: u64, offset: u64, length: usize) -> Result<
        Seq<u8>,
        TransferError,
    > {
        match range_verdict(self.segments, id, offset, length as u64) {
            Ok(_) => Ok(self.segments[id].buf.subrange(offset as int, offset + length)),
            Err(e) => Err(e),
        }
    }

    /// A batch is made, all its tasks pending.
    pub open spec fn batch_allocated(self, size: nat) -> (
        TransportView,
        Result<u64, TransferError>,
    ) {
        if size == 0 {
            (self, Err(TransferError::EmptyBatch))
        } else {
            (
                TransportView {
                    next_batch: wrapping_next(self.next_batch),
                    batches: self.batches.insert(
                        self.next_batch,
                        BatchView {
                            tasks: Seq::new(size, |i: int| pending()),
                            submitted: false,
                            in_flight: false,
                        },
                    ),
                    ..self
                },
                Ok(self.next_batch),
            )
        }
    }

    /// A batch is given back.
    pub open spec fn batch_freed(self, id: u64) -> (TransportView, Result<(), TransferError>) {
        if !self.batches.contains_key(id) {
            (self, Err(TransferError::UnknownBatch(id)))
        } else if self.batches[id].in_flight {
            (self, Err(TransferError::BatchInFlight(id)))
        } else {
            (TransportView { batches: self.batches.remove(id), ..self }, Ok(()))
        }
    }

    /// What is wrong with a submission: its copies' tiers, its batch, and last the
    /// ranges of its copies.
    pub open spec fn submit_verdict(self, id: u64, ops: Seq<OpView>) -> Result<
        (),
        TransferError,
    > {
        if ops.len() == 0 {
            Err(TransferError::EmptyBatch)
        } else if tiers_verdict(ops) is Err {
            tiers_verdict(ops)
        } else if !self.batches.contains_key(id) {
            Err(TransferError::UnknownBatch(id))
        } else if ops.len() > self.batches[id].tasks.len() {
            Err(TransferError::BatchFull)
        } else if self.batches[id].submitted {
            Err(TransferError::BatchSubmitted(id))
        } else if self.batches[id].in_flight {
            Err(TransferError::BatchInFlight(id))
        } else {
            ops_verdict(self.segments, ops)
        }
    }

    /// Copies are made, all or none.
    pub open spec fn submitted(self, id: u64, ops: Seq<OpView>) -> (
        TransportView,
        Result<(), TransferError>,
    ) {
        match self.submit_verdict(id, ops) {
            Err(e) => (self, Err(e)),
            Ok(_) => (
                TransportView {
                    segments: copied(self.segments, ops),
                    batches: self.batches.insert(
                        id,
                        BatchView {
                            tasks: tasks_done(self.batches[id].tasks, ops),
                            submitted: true,
                            in_flight: false,
                        },
                    ),
                    ..self
                },
                Ok(()),
            ),
        }
    }

    /// How far a task is.
    pub open spec fn status(self, batch_id: u64, task_id: u64) -> Result<
        TaskStatus,
        TransferError,
    > {
        if !self.batches.contains_key(batch_id) {
            Err(TransferError::UnknownBatch(batch_id))
        } else if task_id >= self.batches[batch_id].tasks.len() {
            Err(TransferError::UnknownTask { batch_id, task_id })
        } else {
            Ok(self.batches[batch_id].tasks[task_id as int])
        }
    }
}

/// The number after this one; after the last comes zero.
pub open spec fn wrapping_next(n: u64) -> u64 {
    if n == u64::MAX {
        0
    } else {
        (n + 1) as u64
    }
}

/// The number after this one; after the last comes zero.
pub fn next_number(n: u64) -> (m: u64)
    ensures
        m == wrapping_next(n),
{
    if n == u64::MAX {
        0
    } else {
        n + 1
    }
}

/// Segments and batches in memory.
pub struct TcpTransport {
    pub next_segment: u64,
    pub next_batch: u64,
    pub segments: Table<u64, Segment>,
    pub batches: Table<u64, Batch>,
}

impl View for TcpTransport {
    type V = TransportView;

    open spec fn view(&self) -> TransportView {
        TransportView {
            next_segment: self.next_segment,
            next_batch: self.next_batch,
            segments: self.segments@,
            batches: self.batches@,
        }
    }
}

impl Default for TcpTransport {
    fn default() -> (t: Self)
        ensures
            t@ == TransportView::fresh(),
    {
        TcpTransport::new()
    }
}

/// Tells whether a range ends within the capacity.
fn within(offset: u64, length: u64, capacity: usize) -> (b: bool)
    ensures
        b == (offset + length <= capacity),
{
    offset <= capacity as u64 && length <= capacity as u64 - offset
}

/// Copies a range.
fn slice_of(buf: &Vec<u8>, start: usize, length: usize) -> (out: Vec<u8>)
    requires
        start + length <= buf@.len(),
    ensures
        out@ == buf@.subrange(start as int, start + length),
{
    let size = buf.len();
    let mut out: Vec<u8> = Vec::with_capacity(length);
    let mut i: usize = 0;
    while i < length
        invariant
            i <= length,
            start + length <= size,
            size == buf@.len(),
            out@ == buf@.subrange(start as int, start + i),
        decreases length - i,
    {
        out.push(buf[start + i]);
        assert(out@ =~= buf@.subrange(start as int, start + i + 1));
        i += 1;
    }
    out
}

/// Writes over a range.
fn write_over(buf: &mut Vec<u8>, start: usize, data: &[u8])
    requires
        start + data@.len() <= old(buf)@.len(),
    ensures
        final(buf)@ == over(old(buf)@, start as int, data@),
        final(buf)@.len() == old(buf)@.len(),
{
    let ghost before = buf@;
    let size = buf.len();
    let mut i: usize = 0;
    assert(buf@ =~= over(before, start as int, data@.take(0)));
    while i < data.len()
        invariant
            i <= data@.len(),
            start + data@.len() <= size,
            buf@.len() == size,
            before.len() == size,
            buf@ == over(before, start as int, data@.take(i as int)),
        decreases data.len() - i,
    {
        buf.set(start + i, data[i]);
        assert(buf@ =~= over(before, start as int, data@.take(i + 1)));
        i += 1;
    }
    assert(data@.take(i as int) =~= data@);
}

fn zeros(n: usize) -> (buf: Vec<u8>)
    requires
        n <= isize::MAX,
    ensures
        buf@ == Seq::new(n as nat, |i: int| 0u8),
{
    let buf: Vec<u8> = vec![0u8; n];
    assert(buf@ =~= Seq::new(n as nat, |i: int| 0u8));
    buf
}

impl TcpTransport {
    /// A transport without segments.
    pub fn new() -> (t: Self)
        ensures
            t@ == TransportView::fresh(),
    {
        TcpTransport {
            next_segment: 1,
            next_batch: 1,
            segments: Table::new(),
            batches: Table::new(),
        }
    }

    /// The size of a segment.
    pub fn segment_capacity(&self, segment_id: SegmentId) -> (r: Result<usize, TransferError>)
        ensures
            r == if self@.segments.contains_key(segment_id) {
                Ok(self@.segments[segment_id].buf.len() as usize)
            } else {
                Err(TransferError::UnknownSegment(segment_id))
            },
    {
        match self.segments.get(&segment_id) {
            Some(s) => Ok(s.buf.len()),
            None => Err(TransferError::UnknownSegment(segment_id)),
        }
    }

    /// The number of batches that were not given back.
    pub fn batch_count(&self) -> (n: usize)
        ensures
            n == self@.batches.len(),
    {
        self.batches.len()
    }

    /// The number of segments that were not given back.
    pub fn segment_count(&self) -> (n: usize)
        ensures
            n == self@.segments.len(),
    {
        self.segments.len()
    }

    /// Checks a range of a segment.
    fn check_range(&self, id: u64, offset: u64, length: u64) -> (r: Result<(), TransferError>)
        ensures
            r == range_verdict(self@.segments, id, offset, length),
    {
        match self.segments.get(&id) {
            None => Err(TransferError::UnknownSegment(id)),
            Some(s) => if within(offset, length, s.buf.len()) {
                Ok(())
            } else {
                Err(
                    TransferError::OutOfRange {
                        segment_id: id,
                        offset,
                        length,
                        capacity: s.buf.len(),
                    },
                )
            },
        }
    }

    /// Checks the ranges of a copy.
    fn check_op(&self, op: &TransferOp) -> (r: Result<(), TransferError>)
        ensures
            r == op_verdict(self@.segments, op@),
    {
        if !self.segments.contains_key(&op.source.segment_id) {
            return Err(TransferError::UnknownSegment(op.source.segment_id));
        }
        if !self.segments.contains_key(&op.target_segment_id) {
            return Err(TransferError::UnknownSegment(op.target_segment_id));
        }
        match self.check_range(op.source.segment_id, op.source.offset, op.length) {
            Err(e) => Err(e),
            Ok(_) => self.check_range(op.target_segment_id, op.target_offset, op.length),
        }
    }

    /// Checks the ranges of all copies.
    fn check_ops(&self, ops: &[TransferOp]) -> (r: Result<(), TransferError>)
        ensures
            r == ops_verdict(self@.segments, keys::views(ops@)),
    {
        let ghost all = keys::views(ops@);
        let mut i: usize = 0;
        assert(all.take(0) =~= Seq::empty());
        while i < ops.len()
            invariant
                i <= ops@.len(),
                all == keys::views(ops@),
                ops_verdict(self@.segments, all.take(i as int)) == Ok::<(), TransferError>(()),
            decreases ops.len() - i,
        {
            assert(all.take(i + 1).drop_last() =~= all.take(i as int));
            assert(all.take(i + 1).last() == ops@[i as int]@);
            match self.check_op(&ops[i]) {
                Err(e) => {
                    proof {
                        lemma_ops_stop(self@.segments, all, i + 1);
                    }
                    return Err(e);
                },
                Ok(_) => {},
            }
            i += 1;
        }
        assert(all.take(i as int) =~= all);
        Ok(())
    }

    /// Takes the bytes of all copies.
    fn payloads(&self, ops: &[TransferOp]) -> (out: Vec<Vec<u8>>)
        requires
            ops_verdict(self@.segments, keys::views(ops@)) is Ok,
        ensures
            out@.len() == ops@.len(),
            forall|i: int|
                0 <= i < ops@.len() ==> (#[trigger] out@[i])@ == payload(
                    self@.segments,
                    ops@[i]@,
                ),
    {
        let ghost all = keys::views(ops@);
        let mut out: Vec<Vec<u8>> = Vec::with_capacity(ops.len());
        let mut i: usize = 0;
        while i < ops.len()
            invariant
                i <= ops@.len(),
                all == keys::views(ops@),
                ops_verdict(self@.segments, all) is Ok,
                out@.len() == i,
                forall|j: int|
                    0 <= j < i ==> (#[trigger] out@[j])@ == payload(self@.segments, ops@[j]@),
            decreases ops.len() - i,
        {
            proof {
                lemma_each_op(self@.segments, all, i as int);
                assert(all[i as int] == ops@[i as int]@);
            }
            match self.segments.get(&ops[i].source.segment_id) {
                Some(s) => {
                    let size = s.buf.len();
                    assert(ops@[i as int].source.offset + ops@[i as int].length <= size);
                    out.push(
                        slice_of(&s.buf, ops[i].source.offset as usize, ops[i].length as usize),
                    );
                },
                None => {
                    vstd::pervasive::unreached()
                },
            }
            i += 1;
        }
        out
    }

    /// Writes into a segment that has the room.
    fn write_in(&mut self, id: u64, offset: u64, data: &[u8])
        requires
            old(self)@.segments.contains_key(id),
            offset + data@.len() <= old(self)@.segments[id].buf.len(),
        ensures
            final(self)@ == (TransportView {
                segments: written(old(self)@.segments, id, offset, data@),
                ..old(self)@
            }),
            final(self).batches == old(self).batches,
    {
        match self.segments.remove(&id) {
            Some(s) => {
                let mut s = s;
                let size = s.buf.len();
                assert(offset <= size);
                write_over(&mut s.buf, offset as usize, data);
                let _ = self.segments.insert(id, s);
                assert(self@.segments =~= written(old(self)@.segments, id, offset, data@));
            },
            None => {
                vstd::pervasive::unreached()
            },
        }
    }
}

/// Once a copy is refused, later ones do not matter.
proof fn lemma_ops_stop(segs: Segments, ops: Seq<OpView>, i: int)
    requires
        0 <= i <= ops.len(),
        ops_verdict(segs, ops.take(i)) is Err,
    ensures
        ops_verdict(segs, ops) == ops_verdict(segs, ops.take(i)),
    decreases ops.len() - i,
{
    if i == ops.len() {
        assert(ops.take(i) =~= ops);
    } else {
        assert(ops.take(i + 1).drop_last() =~= ops.take(i));
        lemma_ops_stop(segs, ops, i + 1);
    }
}

/// Once a tier is refused, later copies do not matter.
proof fn lemma_tiers_stop(ops: Seq<OpView>, i: int)
    requires
        0 <= i <= ops.len(),
        tiers_verdict(ops.take(i)) is Err,
    ensures
        tiers_verdict(ops) == tiers_verdict(ops.take(i)),
    decreases ops.len() - i,
{
    if i == ops.len() {
        assert(ops.take(i) =~= ops);
    } else {
        assert(ops.take(i + 1).drop_last() =~= ops.take(i));
        lemma_tiers_stop(ops, i + 1);
    }
}

/// Where all copies are in order, each is.
proof fn lemma_each_op(segs: Segments, ops: Seq<OpView>, i: int)
    requires
        ops_verdict(segs, ops) is Ok,
        0 <= i < ops.len(),
    ensures
        op_verdict(segs, ops[i]) is Ok,
    decreases ops.len(),
{
    if i < ops.len() - 1 {
        lemma_each_op(segs, ops.drop_last(), i);
    }
}

/// Copies keep the segments, their names and their sizes.
proof fn lemma_copied_shape(segs: Segments, ops: Seq<OpView>)
    requires
        ops_verdict(segs, ops) is Ok,
    ensures
        copied(segs, ops).dom() == segs.dom(),
        forall|id: u64| #[trigger]
            segs.contains_key(id) ==> copied(segs, ops)[id].buf.len() == segs[id].buf.len()
                && copied(segs, ops)[id].name == segs[id].name,
    decreases ops.len(),
{
    if ops.len() > 0 {
        lemma_copied_shape(segs, ops.drop_last());
        lemma_each_op(segs, ops, ops.len() - 1);
        let before = copied(segs, ops.drop_last());
        assert(copied(segs, ops).dom() =~= segs.dom());
        assert forall|id: u64| #[trigger] segs.contains_key(id) implies copied(
            segs,
            ops,
        )[id].buf.len() == segs[id].buf.len() && copied(segs, ops)[id].name == segs[id].name by {
            assert(before.contains_key(id));
        }
    }
}

impl Transport for TcpTransport {
    fn open_segment(&mut self, name: &str, capacity: usize) -> (r: Result<
        SegmentId,
        TransferError,
    >)
        ensures
            final(self)@ == old(self)@.opened(name@, Seq::new(capacity as nat, |i: int| 0u8)),
            r == Ok::<SegmentId, TransferError>(old(self)@.next_segment),
    {
        let id = self.next_segment;
        self.next_segment = next_number(id);
        let _ = self.segments.insert(id, Segment { name: text(name), buf: zeros(capacity) });
        Ok(id)
    }

    fn free_segment(&mut self, segment_id: SegmentId) -> (r: Result<(), TransferError>)
        ensures
            final(self)@ == old(self)@.segment_freed(segment_id).0,
            r == old(self)@.segment_freed(segment_id).1,
    {
        match self.segments.remove(&segment_id) {
            Some(_) => Ok(()),
            None => {
                assert(self@.segments =~= old(self)@.segments);
                Err(TransferError::UnknownSegment(segment_id))
            },
        }
    }

    fn write_segment(&mut self, segment_id: SegmentId, offset: u64, data: &[u8]) -> (r: Result<
        (),
        TransferError,
    >)
        ensures
            final(self)@ == old(self)@.segment_written(segment_id, offset, data@).0,
            r == old(self)@.segment_written(segment_id, offset, data@).1,
    {
        match self.check_range(segment_id, offset, data.len() as u64) {
            Err(e) => Err(e),
            Ok(_) => {
                self.write_in(segment_id, offset, data);
                Ok(())
            },
        }
    }

    fn read_segment(&self, segment_id: SegmentId, offset: u64, length: usize) -> (r: Result<
        Vec<u8>,
        TransferError,
    >)
        ensures
            match r {
                Ok(d) => self@.segment_read(segment_id, offset, length) == Ok::<
                    Seq<u8>,
                    TransferError,
                >(d@),
                Err(e) => self@.segment_read(segment_id, offset, length) == Err::<
                    Seq<u8>,
                    TransferError,
                >(e),
            },
    {
        match self.check_range(segment_id, offset, length as u64) {
            Err(e) => Err(e),
            Ok(_) => match self.segments.get(&segment_id) {
                Some(s) => {
                    let size = s.buf.len();
                    assert(offset <= size);
                    Ok(slice_of(&s.buf, offset as usize, length))
                },
                None => Err(TransferError::UnknownSegment(segment_id)),
            },
        }
    }

    fn allocate_batch_id(&mut self, batch_size: usize) -> (r: Result<BatchId, TransferError>)
        ensures
            final(self)@ == old(self)@.batch_allocated(batch_size as nat).0,
            r == old(self)@.batch_allocated(batch_size as nat).1,
    {
        if batch_size == 0 {
            return Err(TransferError::EmptyBatch);
        }
        let mut tasks: Vec<TaskStatus> = Vec::new();
        let mut i: usize = 0;
        while i < batch_size
            invariant
                i <= batch_size,
                tasks@.len() == i,
                forall|j: int| 0 <= j < i ==> #[trigger] tasks@[j] == pending(),
            decreases batch_size - i,
        {
            tasks.push(TaskStatus { state: TaskState::Pending, bytes_done: 0 });
            i += 1;
        }
        assert(tasks@ =~= Seq::new(batch_size as nat, |i: int| pending()));
        let id = self.next_batch;
        self.next_batch = next_number(id);
        let _ = self.batches.insert(id, Batch { tasks, submitted: false, in_flight: false });
        Ok(id)
    }

    fn free_batch_id(&mut self, batch_id: BatchId) -> (r: Result<(), TransferError>)
        ensures
            final(self)@ == old(self)@.batch_freed(batch_id).0,
            r == old(self)@.batch_freed(batch_id).1,
    {
        match self.batches.get(&batch_id) {
            None => {
                return Err(TransferError::UnknownBatch(batch_id));
            },
            Some(b) => if b.in_flight {
                return Err(TransferError::BatchInFlight(batch_id));
            },
        }
        let _ = self.batches.remove(&batch_id);
        Ok(())
    }

    /// Nothing is written unless every copy can be made. The batch is held while the
    /// copies are made, and let go where one cannot.
    fn submit_transfer(&mut self, batch_id: BatchId, ops: &[TransferOp]) -> (r: Result<
        (),
        TransferError,
    >)
        ensures
            final(self)@ == old(self)@.submitted(batch_id, keys::views(ops@)).0,
            r == old(self)@.submitted(batch_id, keys::views(ops@)).1,
    {
        let ghost all = keys::views(ops@);
        if ops.len() == 0 {
            return Err(TransferError::EmptyBatch);
        }
        let mut i: usize = 0;
        assert(all.take(0) =~= Seq::empty());
        while i < ops.len()
            invariant
                i <= ops@.len(),
                all == keys::views(ops@),
                ops@.len() > 0,
                self@ == old(self)@,
                tiers_verdict(all.take(i as int)) == Ok::<(), TransferError>(()),
            decreases ops.len() - i,
        {
            assert(all.take(i + 1).drop_last() =~= all.take(i as int));
            assert(all.take(i + 1).last() == ops@[i as int]@);
            match validate_location_tier(&ops[i].source) {
                Err(e) => {
                    proof {
                        lemma_tiers_stop(all, i + 1);
                    }
                    return Err(e);
                },
                Ok(_) => {},
            }
            i += 1;
        }
        assert(all.take(i as int) =~= all);

        match self.batches.get(&batch_id) {
            None => {
                return Err(TransferError::UnknownBatch(batch_id));
            },
            Some(b) => {
                if ops.len() > b.tasks.len() {
                    return Err(TransferError::BatchFull);
                }
                if b.submitted {
                    return Err(TransferError::BatchSubmitted(batch_id));
                }
                if b.in_flight {
                    return Err(TransferError::BatchInFlight(batch_id));
                }
            },
        }
        let mut batch = match self.batches.remove(&batch_id) {
            Some(b) => b,
            None => { vstd::pervasive::unreached() },
        };
        batch.in_flight = true;

        match self.check_ops(ops) {
            Err(e) => {
                batch.in_flight = false;
                let _ = self.batches.insert(batch_id, batch);
                assert(self@.batches =~= old(self)@.batches);
                return Err(e);
            },
            Ok(_) => {},
        }
        let payloads = self.payloads(ops);
        let ghost segs = self@.segments;
        let ghost held = self.batches@;
        let mut k: usize = 0;
        assert(all.take(0) =~= Seq::empty());
        while k < ops.len()
            invariant
                k <= ops@.len(),
                all == keys::views(ops@),
                payloads@.len() == ops@.len(),
                forall|j: int|
                    0 <= j < ops@.len() ==> (#[trigger] payloads@[j])@ == payload(segs, ops@[j]@),
                ops_verdict(segs, all) is Ok,
                ops_verdict(segs, all.take(k as int)) is Ok,
                self.batches@ == held,
                self@.next_segment == old(self)@.next_segment,
                self@.next_batch == old(self)@.next_batch,
                self@.segments == copied(segs, all.take(k as int)),
            decreases ops.len() - k,
        {
            proof {
                lemma_each_op(segs, all, k as int);
                lemma_copied_shape(segs, all.take(k as int));
                assert(all.take(k + 1).drop_last() =~= all.take(k as int));
                assert(all.take(k + 1).last() == ops@[k as int]@);
                assert(segs.contains_key(all[k as int].target_segment_id));
                assert(payloads@[k as int]@ == payload(segs, ops@[k as int]@));
            }
            self.write_in(ops[k].target_segment_id, ops[k].target_offset, payloads[k].as_slice());
            k += 1;
        }
        assert(all.take(k as int) =~= all);

        let ghost tasks = batch.tasks@;
        let mut t: usize = 0;
        while t < ops.len()
            invariant
                t <= ops@.len(),
                all == keys::views(ops@),
                ops@.len() <= tasks.len(),
                batch.tasks@.len() == tasks.len(),
                forall|j: int| 0 <= j < t ==> #[trigger] batch.tasks@[j] == done(all[j].length),
                forall|j: int|
                    t <= j < tasks.len() ==> #[trigger] batch.tasks@[j] == tasks[j],
            decreases ops.len() - t,
        {
            assert(all[t as int] == ops@[t as int]@);
            batch.tasks.set(t, TaskStatus { state: TaskState::Done, bytes_done: ops[t].length });
            t += 1;
        }
        assert(batch.tasks@ =~= tasks_done(tasks, all));
        batch.submitted = true;
        batch.in_flight = false;
        let _ = self.batches.insert(batch_id, batch);
        assert(self@ =~= old(self)@.submitted(batch_id, all).0);
        Ok(())
    }

    fn get_transfer_status(&self, batch_id: BatchId, task_id: u64) -> (r: Result<
        TaskStatus,
        TransferError,
    >)
        ensures
            r == self@.status(batch_id, task_id),
    {
        match self.batches.get(&batch_id) {
            None => Err(TransferError::UnknownBatch(batch_id)),
            Some(b) => if task_id < b.tasks.len() as u64 {
                Ok(b.tasks[task_id as usize])
            } else {
                Err(TransferError::UnknownTask { batch_id, task_id })
            },
        }
    }
}

/// A submission that is refused changes nothing: no byte of a target, and not the
/// batch, which can still be given back or submitted again.
pub proof fn refused_submission_changes_nothing(t: TransportView, id: u64, ops: Seq<OpView>)
    requires
        t.submitted(id, ops).1 is Err,
    ensures
        t.submitted(id, ops).0 == t,
{
}

/// A batch is submitted once: after it was, every submission of it is refused.
pub proof fn submitted_once(t: TransportView, id: u64, ops: Seq<OpView>, again: Seq<OpView>)
    requires
        t.submitted(id, ops).1 is Ok,
    ensures
        t.submitted(id, ops).0.submitted(id, again).1 is Err,
        t.submitted(id, ops).0.submitted(id, again).0 == t.submitted(id, ops).0,
{
}

/// After a submission every copy's task is done, with the length of the copy, and
/// the other tasks are as they were.
pub proof fn submitted_tasks_are_done(t: TransportView, id: u64, ops: Seq<OpView>, task: u64)
    requires
        t.submitted(id, ops).1 is Ok,
        task < t.batches[id].tasks.len(),
    ensures
        task < ops.len() ==> t.submitted(id, ops).0.status(id, task) == Ok::<
            TaskStatus,
            TransferError,
        >(done(ops[task as int].length)),
        task >= ops.len() ==> t.submitted(id, ops).0.status(id, task) == t.status(id, task),
{
}

/// Two copies do not write to a common byte.
pub open spec fn apart(a: OpView, b: OpView) -> bool {
    ||| a.target_segment_id != b.target_segment_id
    ||| a.target_offset + a.length <= b.target_offset
    ||| b.target_offset + b.length <= a.target_offset
}

/// The bytes of a copy's target.
pub open spec fn landed(segs: Segments, op: OpView) -> Seq<u8> {
    segs[op.target_segment_id].buf.subrange(
        op.target_offset as int,
        op.target_offset + op.length,
    )
}

/// Every copy arrives: where no later copy of the submission writes over its target,
/// the target holds the bytes that the source held before the submission, also where
/// source and target lie in one segment.
pub proof fn copies_arrive(t: TransportView, id: u64, ops: Seq<OpView>, i: int)
    requires
        t.submitted(id, ops).1 is Ok,
        0 <= i < ops.len(),
        forall|j: int| i < j < ops.len() ==> apart(ops[i], #[trigger] ops[j]),
    ensures
        landed(t.submitted(id, ops).0.segments, ops[i]) == payload(t.segments, ops[i]),
{
    lemma_copy_arrives(t.segments, ops, i);
}

proof fn lemma_copy_arrives(segs: Segments, ops: Seq<OpView>, i: int)
    requires
        ops_verdict(segs, ops) is Ok,
        0 <= i < ops.len(),
        forall|j: int| i < j < ops.len() ==> apart(ops[i], #[trigger] ops[j]),
    ensures
        landed(copied(segs, ops), ops[i]) == payload(segs, ops[i]),
    decreases ops.len(),
{
    let op = ops[i];
    let last = ops.last();
    let before = copied(segs, ops.drop_last());
    lemma_each_op(segs, ops, i);
    lemma_each_op(segs, ops, ops.len() - 1);
    lemma_copied_shape(segs, ops.drop_last());
    assert(before.contains_key(op.target_segment_id));
    assert(before.contains_key(last.target_segment_id));
    assert(segs.contains_key(op.target_segment_id));
    assert(segs.contains_key(last.target_segment_id));
    if i == ops.len() - 1 {
        assert(landed(copied(segs, ops), op) =~= payload(segs, op));
    } else {
        lemma_copy_arrives(segs, ops.drop_last(), i);
        assert(apart(op, ops[ops.len() - 1]));
        assert(landed(copied(segs, ops), op) =~= landed(before, op));
    }
}

/// Copies write nothing but their targets: every other byte of every segment stays as
/// it was.
pub proof fn copies_write_only_targets(t: TransportView, id: u64, ops: Seq<OpView>, seg: u64, k: int)
    requires
        t.submitted(id, ops).1 is Ok,
        t.segments.contains_key(seg),
        0 <= k < t.segments[seg].buf.len(),
        forall|j: int|
            0 <= j < ops.len() && (#[trigger] ops[j]).target_segment_id == seg ==> !(
            ops[j].target_offset <= k < ops[j].target_offset + ops[j].length),
    ensures
        t.submitted(id, ops).0.segments.contains_key(seg),
        t.submitted(id, ops).0.segments[seg].buf.len() == t.segments[seg].buf.len(),
        t.submitted(id, ops).0.segments[seg].buf[k] == t.segments[seg].buf[k],
{
    lemma_copied_shape(t.segments, ops);
    lemma_untouched(t.segments, ops, seg, k);
}

proof fn lemma_untouched(segs: Segments, ops: Seq<OpView>, seg: u64, k: int)
    requires
        ops_verdict(segs, ops) is Ok,
        segs.contains_key(seg),
        0 <= k < segs[seg].buf.len(),
        forall|j: int|
            0 <= j < ops.len() && (#[trigger] ops[j]).target_segment_id == seg ==> !(
            ops[j].target_offset <= k < ops[j].target_offset + ops[j].length),
    ensures
        copied(segs, ops)[seg].buf[k] == segs[seg].buf[k],
    decreases ops.len(),
{
    if ops.len() > 0 {
        assert forall|j: int|
            0 <= j < ops.drop_last().len() && (#[trigger] ops.drop_last()[j]).target_segment_id
                == seg implies !(ops.drop_last()[j].target_offset <= k
            < ops.drop_last()[j].target_offset + ops.drop_last()[j].length) by {
            assert(ops.drop_last()[j] == ops[j]);
        }
        lemma_untouched(segs, ops.drop_last(), seg, k);
        lemma_copied_shape(segs, ops.drop_last());
        lemma_each_op(segs, ops, ops.len() - 1);
        assert(ops[ops.len() - 1] == ops.last());
        assert(segs.contains_key(ops.last().target_segment_id));
    }
}

/// What was written is read back, and the bytes beside it are as they were.
pub proof fn written_is_read(t: TransportView, id: u64, offset: u64, data: Seq<u8>, k: int)
    requires
        t.segment_written(id, offset, data).1 is Ok,
        data.len() <= usize::MAX,
        0 <= k < t.segments[id].buf.len(),
    ensures
        t.segment_written(id, offset, data).0.segment_read(id, offset, data.len() as usize) == Ok::<
            Seq<u8>,
            TransferError,
        >(data),
        !(offset <= k < offset + data.len()) ==> t.segment_written(id, offset, data).0.segments[id].buf[k]
            == t.segments[id].buf[k],
{
    let u = t.segment_written(id, offset, data).0;
    assert(u.segments[id].buf.subrange(offset as int, offset + data.len()) =~= data);
}

/// The numbers in use lie between one and the next one.
pub open spec fn numbered(t: TransportView) -> bool {
    &&& 0 < t.next_segment
    &&& 0 < t.next_batch
    &&& forall|id: u64| #[trigger] t.segments.contains_key(id) ==> 0 < id < t.next_segment
    &&& forall|id: u64| #[trigger] t.batches.contains_key(id) ==> 0 < id < t.next_batch
}

/// A new segment takes no one's place, and neither does a new batch: no number is in
/// use twice as long as numbers last, and zero is never one.
pub proof fn numbers_are_new(t: TransportView, name: Seq<char>, buf: Seq<u8>, size: nat)
    requires
        numbered(t),
        t.next_segment < u64::MAX,
        t.next_batch < u64::MAX,
    ensures
        numbered(TransportView::fresh()),
        !t.segments.contains_key(t.next_segment),
        numbered(t.opened(name, buf)),
        !t.batches.contains_key(t.next_batch),
        numbered(t.batch_allocated(size).0),
{
}

/// Freeing a segment undoes its opening, but for the number, which is used up.
pub proof fn free_undoes_open(t: TransportView, name: Seq<char>, buf: Seq<u8>)
    requires
        numbered(t),
    ensures
        t.opened(name, buf).segment_freed(t.next_segment).1 is Ok,
        t.opened(name, buf).segment_freed(t.next_segment).0.segments == t.segments,
        t.opened(name, buf).segment_freed(t.next_segment).0.batches == t.batches,
{
    assert(t.opened(name, buf).segment_freed(t.next_segment).0.segments =~= t.segments);
}

/// No batch is being worked on.
pub open spec fn quiet(t: TransportView) -> bool {
    forall|id: u64| #[trigger] t.batches.contains_key(id) ==> !t.batches[id].in_flight
}

/// No call leaves a batch held: where none is held before it, none is after it.
pub proof fn calls_hold_nothing(t: TransportView, id: u64, ops: Seq<OpView>, size: nat)
    requires
        quiet(t),
    ensures
        quiet(TransportView::fresh()),
        quiet(t.submitted(id, ops).0),
        quiet(t.batch_allocated(size).0),
        quiet(t.batch_freed(id).0),
{
}

/// A call that may change batches.
pub enum BatchCall {
    Allocate { size: nat },
    Free { id: u64 },
    Submit { id: u64, ops: Seq<OpView> },
}

impl TransportView {
    /// The transport after a call, and by how much the call changes what is owed: one
    /// more for a batch that is made, one less for one that is given back.
    pub open spec fn called(self, call: BatchCall) -> (TransportView, int) {
        match call {
            BatchCall::Allocate { size } => {
                let (t, r) = self.batch_allocated(size);
                (
                    t,
                    if r is Ok {
                        1
                    } else {
                        0
                    },
                )
            },
            BatchCall::Free { id } => {
                let (t, r) = self.batch_freed(id);
                (
                    t,
                    if r is Ok {
                        -1
                    } else {
                        0
                    },
                )
            },
            BatchCall::Submit { id, ops } => (self.submitted(id, ops).0, 0),
        }
    }

    /// The transport after some calls, and by how much they change what is owed.
    pub open spec fn called_all(self, calls: Seq<BatchCall>) -> (TransportView, int)
        decreases calls.len(),
    {
        if calls.len() == 0 {
            (self, 0)
        } else {
            let (t, n) = self.called_all(calls.drop_last());
            let (u, m) = t.called(calls.last());
            (u, n + m)
        }
    }
}

/// Batches are counted: after any calls on a new transport there are as many as were
/// made less those that were given back, and no other call changes their number. This
/// goes for as long as numbers last.
pub proof fn batches_are_counted(calls: Seq<BatchCall>)
    requires
        calls.len() < u64::MAX,
    ensures
        ({
            let (t, n) = TransportView::fresh().called_all(calls);
            t.batches.dom().finite() && t.batches.len() == n
        }),
{
    lemma_counted(calls);
}

proof fn lemma_counted(calls: Seq<BatchCall>)
    requires
        calls.len() < u64::MAX,
    ensures
        ({
            let (t, n) = TransportView::fresh().called_all(calls);
            &&& t.batches.dom().finite()
            &&& t.batches.len() == n
            &&& 0 < t.next_batch <= calls.len() + 1
            &&& forall|id: u64| #[trigger] t.batches.contains_key(id) ==> id < t.next_batch
        }),
    decreases calls.len(),
{
    if calls.len() > 0 {
        lemma_counted(calls.drop_last());
        let t = TransportView::fresh().called_all(calls.drop_last()).0;
        let u = t.called(calls.last()).0;
        match calls.last() {
            BatchCall::Allocate { size } => {
                assert(!t.batches.contains_key(t.next_batch));
            },
            BatchCall::Free { id } => {},
            BatchCall::Submit { id, ops } => {
                assert(u.batches.dom() =~= t.batches.dom());
            },
        }
    }
}

/// A submission that succeeds copies what its sources held before it: each target range
/// that no later copy writes holds the bytes of its source range, byte for byte.
pub proof fn targets_hold_their_sources(t: TransportView, id: u64, ops: Seq<OpView>, i: int, k: int)
    requires
        t.submitted(id, ops).1 is Ok,
        0 <= i < ops.len(),
        0 <= k < ops[i].length,
        forall|j: int|
            i < j < ops.len() && (#[trigger] ops[j]).target_segment_id == ops[i].target_segment_id
                ==> ops[j].target_offset + ops[j].length <= ops[i].target_offset
                || ops[i].target_offset + ops[i].length <= ops[j].target_offset,
    ensures
        t.segments.contains_key(ops[i].source.segment_id),
        t.segments.contains_key(ops[i].target_segment_id),
        ops[i].source.offset + ops[i].length <= t.segments[ops[i].source.segment_id].buf.len(),
        ops[i].target_offset + ops[i].length <= t.segments[ops[i].target_segment_id].buf.len(),
        t.submitted(id, ops).0.segments[ops[i].target_segment_id].buf[ops[i].target_offset + k]
            == t.segments[ops[i].source.segment_id].buf[ops[i].source.offset + k],
{
    let op = ops[i];
    copies_arrive(t, id, ops, i);
    lemma_op_in_order(t.segments, ops, i);
    lemma_copied_shape(t.segments, ops);
    let u = t.submitted(id, ops).0;
    assert(landed(u.segments, op)[k] == payload(t.segments, op)[k]);
}

proof fn lemma_op_in_order(segs: Segments, ops: Seq<OpView>, i: int)
    requires
        0 <= i < ops.len(),
    ensures
        ops_verdict(segs, ops) is Ok ==> op_verdict(segs, ops[i]) is Ok,
        tiers_verdict(ops) is Ok ==> location::tier_verdict(ops[i].source) is Ok,
    decreases ops.len(),
{
    if i < ops.len() - 1 {
        lemma_op_in_order(segs, ops.drop_last(), i);
        assert(ops.drop_last()[i] == ops[i]);
    }
}

proof fn lemma_ops_in_order(segs: Segments, ops: Seq<OpView>)
    requires
        forall|i: int|
            0 <= i < ops.len() ==> op_verdict(segs, #[trigger] ops[i]) is Ok
                && location::tier_verdict(ops[i].source) is Ok,
    ensures
        ops_verdict(segs, ops) is Ok,
        tiers_verdict(ops) is Ok,
    decreases ops.len(),
{
    if ops.len() > 0 {
        let init = ops.drop_last();
        assert forall|i: int| 0 <= i < init.len() implies op_verdict(segs, #[trigger] init[i]) is Ok
            && location::tier_verdict(init[i].source) is Ok by {
            assert(init[i] == ops[i]);
        }
        lemma_ops_in_order(segs, init);
        assert(op_verdict(segs, ops[ops.len() - 1]) is Ok);
    }
}

/// A submission succeeds exactly where there is a copy, the batch is known, free and large
/// enough, and every copy goes from a range on a tier with segments to a range, both within
/// open segments.
pub proof fn submission_is_taken_when_in_order(t: TransportView, id: u64, ops: Seq<OpView>)
    ensures
        t.submitted(id, ops).1 is Ok <==> {
            &&& ops.len() > 0
            &&& t.batches.contains_key(id)
            &&& ops.len() <= t.batches[id].tasks.len()
            &&& !t.batches[id].submitted && !t.batches[id].in_flight
            &&& forall|i: int|
                0 <= i < ops.len() ==> {
                    let op = #[trigger] ops[i];
                    let tier = op.source.tier;
                    &&& tier == Tier::L0.spec_number() || tier == Tier::L1.spec_number() || tier
                        == Tier::L2.spec_number()
                    &&& t.segments.contains_key(op.source.segment_id)
                    &&& t.segments.contains_key(op.target_segment_id)
                    &&& op.source.offset + op.length
                        <= t.segments[op.source.segment_id].buf.len()
                    &&& op.target_offset + op.length
                        <= t.segments[op.target_segment_id].buf.len()
                }
        },
        t.submitted(id, ops).1 is Ok ==> forall|i: int|
            0 <= i < ops.len() ==> {
                let task = t.submitted(id, ops).0.batches[id].tasks[i];
                task.state is Done && task.bytes_done == (#[trigger] ops[i]).length
            },
{
    if t.submitted(id, ops).1 is Ok {
        assert forall|i: int| 0 <= i < ops.len() implies op_verdict(t.segments, #[trigger] ops[i])
            is Ok && location::tier_verdict(ops[i].source) is Ok by {
            lemma_op_in_order(t.segments, ops, i);
        }
    }
    if forall|i: int|
        0 <= i < ops.len() ==> op_verdict(t.segments, #[trigger] ops[i]) is Ok
            && location::tier_verdict(ops[i].source) is Ok {
        lemma_ops_in_order(t.segments, ops);
    } else {
        let i = choose|i: int|
            0 <= i < ops.len() && !(op_verdict(t.segments, #[trigger] ops[i]) is Ok
                && location::tier_verdict(ops[i].source) is Ok);
        lemma_op_in_order(t.segments, ops, i);
        assert(ops[i].length >= 0);
    }
}

} // verus!
