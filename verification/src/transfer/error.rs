//! Why a transfer is refused.

use vstd::prelude::*;
use vstd::string::*;

use crate::base::text;
use crate::base::text::{decimal_text, joined, signed_text, text};

verus! {

/// Why a transfer is refused.
#[derive(Debug, Clone, PartialEq, Eq)]
pub enum TransferError {
    /// A location on a tier without segments.
    InvalidTier(i32),
    /// No batch has this number.
    UnknownBatch(u64),
    /// The batch has no such task.
    UnknownTask { batch_id: u64, task_id: u64 },
    /// No segment has this number.
    UnknownSegment(u64),
    /// The range reaches past the segment's end.
    OutOfRange { segment_id: u64, offset: u64, length: u64, capacity: usize },
    /// More copies than the batch has tasks.
    BatchFull,
    /// The batch is being worked on.
    BatchInFlight(u64),
    /// The batch was submitted before.
    BatchSubmitted(u64),
    /// No copies at all.
    EmptyBatch,
    /// Anything else.
    Other(String),
}

/// What a client is told about the nature of a refusal.
#[derive(Debug, Clone, Copy, PartialEq, Eq, Structural)]
pub enum Code {
    InvalidArgument,
    NotFound,
    FailedPrecondition,
    Internal,
}

/// A refused call: its nature and a message.
#[derive(Debug, Clone, PartialEq, Eq)]
pub struct Refusal {
    pub code: Code,
    pub message: String,
}

/// What a `Refusal` stands for.
#[verifier::ext_equal]
pub struct RefusalView {
    pub code: Code,
    pub message: Seq<char>,
}

impl View for Refusal {
    type V = RefusalView;

    open spec fn view(&self) -> RefusalView {
        RefusalView { code: self.code, message: self.message@ }
    }
}

impl TransferError {
    /// The error in words.
    pub open spec fn words(self) -> Seq<char> {
        match self {
            TransferError::InvalidTier(t) => "Location.tier="@ + text::signed(t as int)
                + " rejected (hard constraint: L0/L1/L2 only; L3 uses l3_present)"@,
            TransferError::UnknownBatch(id) => "unknown batch_id="@ + text::decimal(id as nat),
            TransferError::UnknownTask { batch_id, task_id } => "unknown task batch_id="@ + text::decimal(
                batch_id as nat,
            ) + " task_id="@ + text::decimal(task_id as nat),
            TransferError::UnknownSegment(id) => "unknown segment_id="@ + text::decimal(id as nat),
            TransferError::OutOfRange { segment_id, offset, length, capacity } => "segment "@
                + text::decimal(segment_id as nat) + " OOB offset="@ + text::decimal(offset as nat)
                + " length="@ + text::decimal(length as nat) + " capacity="@ + text::decimal(capacity as nat),
            TransferError::BatchFull => "batch task slots exhausted"@,
            TransferError::BatchInFlight(id) => "batch_id="@ + text::decimal(id as nat)
                + " is in flight"@,
            TransferError::BatchSubmitted(id) => "batch_id="@ + text::decimal(id as nat)
                + " already submitted"@,
            TransferError::EmptyBatch => "empty transfer batch"@,
            TransferError::Other(s) => s@,
        }
    }

    /// The nature of the error.
    pub open spec fn nature(self) -> Code {
        match self {
            TransferError::InvalidTier(_) => Code::InvalidArgument,
            TransferError::UnknownBatch(_) => Code::NotFound,
            TransferError::UnknownTask { .. } => Code::NotFound,
            TransferError::UnknownSegment(_) => Code::NotFound,
            TransferError::OutOfRange { .. } => Code::FailedPrecondition,
            TransferError::BatchFull => Code::FailedPrecondition,
            TransferError::BatchInFlight(_) => Code::FailedPrecondition,
            TransferError::BatchSubmitted(_) => Code::FailedPrecondition,
            TransferError::EmptyBatch => Code::FailedPrecondition,
            TransferError::Other(_) => Code::Internal,
        }
    }

    /// The error as a client is told of it.
    pub open spec fn refused(self) -> RefusalView {
        RefusalView { code: self.nature(), message: self.words() }
    }

    /// Says the error in words.
    pub fn message(&self) -> (m: String)
        ensures
            m@ == self.words(),
    {
        match self {
            TransferError::InvalidTier(t) => {
                let mut m = joined("Location.tier=", signed_text(*t as i64).as_str());
                m.append(" rejected (hard constraint: L0/L1/L2 only; L3 uses l3_present)");
                m
            },
            TransferError::UnknownBatch(id) => joined(
                "unknown batch_id=",
                decimal_text(*id).as_str(),
            ),
            TransferError::UnknownTask { batch_id, task_id } => {
                let mut m = joined("unknown task batch_id=", decimal_text(*batch_id).as_str());
                m.append(" task_id=");
                m.append(decimal_text(*task_id).as_str());
                m
            },
            TransferError::UnknownSegment(id) => joined(
                "unknown segment_id=",
                decimal_text(*id).as_str(),
            ),
            TransferError::OutOfRange { segment_id, offset, length, capacity } => {
                let mut m = joined("segment ", decimal_text(*segment_id).as_str());
                m.append(" OOB offset=");
                m.append(decimal_text(*offset).as_str());
                m.append(" length=");
                m.append(decimal_text(*length).as_str());
                m.append(" capacity=");
                m.append(decimal_text(*capacity as u64).as_str());
                m
            },
            TransferError::BatchFull => text("batch task slots exhausted"),
            TransferError::BatchInFlight(id) => {
                let mut m = joined("batch_id=", decimal_text(*id).as_str());
                m.append(" is in flight");
                m
            },
            TransferError::BatchSubmitted(id) => {
                let mut m = joined("batch_id=", decimal_text(*id).as_str());
                m.append(" already submitted");
                m
            },
            TransferError::EmptyBatch => text("empty transfer batch"),
            TransferError::Other(s) => s.clone(),
        }
    }

    /// Tells the nature of the error.
    pub fn code(&self) -> (c: Code)
        ensures
            c == self.nature(),
    {
        match self {
            TransferError::InvalidTier(_) => Code::InvalidArgument,
            TransferError::UnknownBatch(_) => Code::NotFound,
            TransferError::UnknownTask { .. } => Code::NotFound,
            TransferError::UnknownSegment(_) => Code::NotFound,
            TransferError::OutOfRange { .. } => Code::FailedPrecondition,
            TransferError::BatchFull => Code::FailedPrecondition,
            TransferError::BatchInFlight(_) => Code::FailedPrecondition,
            TransferError::BatchSubmitted(_) => Code::FailedPrecondition,
            TransferError::EmptyBatch => Code::FailedPrecondition,
            TransferError::Other(_) => Code::Internal,
        }
    }

    /// Refuses a call for this reason.
    pub fn refusal(&self) -> (r: Refusal)
        ensures
            r@ == self.refused(),
    {
        Refusal { code: self.code(), message: self.message() }
    }
}

} // verus!
