//! The transports that copies go through.
//!
//! A segment is opened, a batch is allocated for a number of copies, the copies are
//! submitted, each task of the batch is asked for, and the batch is freed.

use vstd::prelude::*;

use crate::base::keys::Dup;
use crate::proto::{Location, LocationView};
use crate::transfer::error::TransferError;

verus! {

/// The number of a segment.
pub type SegmentId = u64;

/// The number of a batch.
pub type BatchId = u64;

/// A copy from a placed block to a segment.
#[derive(Clone, Debug)]
pub struct TransferOp {
    pub source: Location,
    pub target_segment_id: SegmentId,
    pub target_offset: u64,
    pub length: u64,
}

/// What a `TransferOp` stands for.
#[verifier::ext_equal]
pub struct OpView {
    pub source: LocationView,
    pub target_segment_id: u64,
    pub target_offset: u64,
    pub length: u64,
}

impl View for TransferOp {
    type V = OpView;

    open spec fn view(&self) -> OpView {
        OpView {
            source: self.source@,
            target_segment_id: self.target_segment_id,
            target_offset: self.target_offset,
            length: self.length,
        }
    }
}

/// How far a task is.
#[derive(Clone, Copy, Debug, PartialEq, Eq, Structural)]
pub enum TaskState {
    Pending,
    InFlight,
    Done,
    Failed,
}

/// How far a task is, and how many bytes it has copied.
#[derive(Clone, Copy, Debug, PartialEq, Eq, Structural)]
pub struct TaskStatus {
    pub state: TaskState,
    pub bytes_done: u64,
}

impl View for TaskStatus {
    type V = TaskStatus;

    open spec fn view(&self) -> TaskStatus {
        *self
    }
}

impl Dup for TaskStatus {
    fn dup(&self) -> (copy: Self) {
        *self
    }
}

/// A way to copy bytes between segments. What a call does is said by the transport
/// that makes it.
pub trait Transport {
    /// Opens a segment of zeros.
    fn open_segment(&mut self, name: &str, capacity: usize) -> Result<SegmentId, TransferError>
        requires
            capacity <= isize::MAX,
    ;

    /// Gives a segment back.
    fn free_segment(&mut self, segment_id: SegmentId) -> Result<(), TransferError>;

    /// Writes bytes into a segment.
    fn write_segment(&mut self, segment_id: SegmentId, offset: u64, data: &[u8]) -> Result<
        (),
        TransferError,
    >;

    /// Reads bytes of a segment.
    fn read_segment(&self, segment_id: SegmentId, offset: u64, length: usize) -> Result<
        Vec<u8>,
        TransferError,
    >;

    /// Makes a batch with room for a number of copies.
    fn allocate_batch_id(&mut self, batch_size: usize) -> Result<BatchId, TransferError>;

    /// Gives a batch back.
    fn free_batch_id(&mut self, batch_id: BatchId) -> Result<(), TransferError>;

    /// Submits copies.
    fn submit_transfer(&mut self, batch_id: BatchId, ops: &[TransferOp]) -> Result<
        (),
        TransferError,
    >;

    /// Asks how far a task is.
    fn get_transfer_status(&self, batch_id: BatchId, task_id: u64) -> Result<
        TaskStatus,
        TransferError,
    >;
}

} // verus!
