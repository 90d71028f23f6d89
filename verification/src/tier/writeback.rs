//! Batching of full blocks on their way to durable storage: blocks gather until
//! a batch is full; a barrier takes whatever is left.

use vstd::prelude::*;

use crate::base::keys;

verus! {

/// What a batcher stands for.
pub struct BatcherView {
    pub flush_every_n: nat,
    pub pending: Seq<(Seq<u8>, Seq<u8>)>,
}

impl BatcherView {
    /// A full batch never stays behind.
    pub open spec fn wf(self) -> bool {
        &&& self.flush_every_n >= 1
        &&& self.pending.len() < self.flush_every_n
    }
}

/// Write-back buffer of full blocks: every `flush_every_n` blocks make a batch.
pub struct WritebackBatcher {
    flush_every_n: usize,
    pending: Vec<(Vec<u8>, Vec<u8>)>,
}

impl View for WritebackBatcher {
    type V = BatcherView;

    closed spec fn view(&self) -> BatcherView {
        BatcherView { flush_every_n: self.flush_every_n as nat, pending: keys::views(self.pending@) }
    }
}

impl WritebackBatcher {
    /// An empty buffer; a batch has at least one block.
    pub fn new(flush_every_n: usize) -> (b: Self)
        ensures
            b@.flush_every_n == if flush_every_n == 0 {
                1
            } else {
                flush_every_n as nat
            },
            b@.pending == Seq::<(Seq<u8>, Seq<u8>)>::empty(),
            b@.wf(),
    {
        let b = WritebackBatcher {
            flush_every_n: if flush_every_n == 0 {
                1
            } else {
                flush_every_n
            },
            pending: Vec::new(),
        };
        assert(b@.pending =~= Seq::empty());
        b
    }

    /// The batch size.
    pub fn flush_every_n(&self) -> (n: usize)
        ensures
            n == self@.flush_every_n,
    {
        self.flush_every_n
    }

    /// The number of buffered blocks.
    pub fn pending_len(&self) -> (n: usize)
        ensures
            n == self@.pending.len(),
    {
        self.pending.len()
    }

    /// Buffers a full block; the block that fills a batch returns the batch.
    pub fn push(&mut self, hash: Vec<u8>, bytes: Vec<u8>) -> (batch: Option<
        Vec<(Vec<u8>, Vec<u8>)>,
    >)
        requires
            old(self)@.wf(),
        ensures
            final(self)@.wf(),
            final(self)@.flush_every_n == old(self)@.flush_every_n,
            match batch {
                Some(b) => {
                    &&& old(self)@.pending.len() + 1 == old(self)@.flush_every_n
                    &&& keys::views(b@) == old(self)@.pending.push((hash@, bytes@))
                    &&& final(self)@.pending == Seq::<(Seq<u8>, Seq<u8>)>::empty()
                },
                None => {
                    &&& old(self)@.pending.len() + 1 < old(self)@.flush_every_n
                    &&& final(self)@.pending == old(self)@.pending.push((hash@, bytes@))
                },
            },
    {
        let ghost entry = (hash@, bytes@);
        self.pending.push((hash, bytes));
        assert(self@.pending =~= old(self)@.pending.push(entry));
        if self.pending.len() >= self.flush_every_n {
            Some(self.drain())
        } else {
            None
        }
    }

    /// Takes every buffered block, in the order in which they came.
    pub fn drain(&mut self) -> (rest: Vec<(Vec<u8>, Vec<u8>)>)
        requires
            old(self)@.flush_every_n >= 1,
        ensures
            keys::views(rest@) == old(self)@.pending,
            final(self)@.pending == Seq::<(Seq<u8>, Seq<u8>)>::empty(),
            final(self)@.flush_every_n == old(self)@.flush_every_n,
            final(self)@.wf(),
    {
        let mut rest: Vec<(Vec<u8>, Vec<u8>)> = Vec::new();
        std::mem::swap(&mut rest, &mut self.pending);
        assert(self@.pending =~= Seq::empty());
        rest
    }
}

} // verus!
