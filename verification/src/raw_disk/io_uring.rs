//! Settings of io_uring submission.

use vstd::prelude::*;
use super::RawDiskError;

verus! {

/// Settings of io_uring.
#[derive(Debug, Clone, Copy)]
pub struct IoUringConfig {
    /// Number of operations in flight.
    pub queue_depth: u32,
    /// Whether the kernel polls the submission queue.
    pub use_sqpoll: bool,
    /// Whether completions are polled.
    pub use_iopoll: bool,
    /// Alignment of buffers.
    pub block_size: usize,
}

impl Default for IoUringConfig {
    /// Depth 128, no polling, 4 KiB alignment.
    fn default() -> (c: IoUringConfig)
        ensures
            c.queue_depth == 128,
            !c.use_sqpoll,
            !c.use_iopoll,
            c.block_size == 4096,
    {
        IoUringConfig { queue_depth: 128, use_sqpoll: false, use_iopoll: false, block_size: 4096 }
    }
}

/// An I/O operation waiting to be submitted.
#[derive(Debug, Clone)]
pub enum PendingOp {
    /// Read `size` bytes at `offset`.
    Read { offset: u64, size: usize },
    /// Write `data` at `offset`.
    Write { offset: u64, data: Vec<u8> },
}

/// The outcome of one submitted operation.
#[derive(Debug)]
pub enum OpResult {
    /// The bytes read, or the error.
    Read(Result<Vec<u8>, RawDiskError>),
    /// Whether the write succeeded.
    Write(Result<(), RawDiskError>),
}

/// Operations queued for submission in one batch.
pub struct OpQueue {
    ops: Vec<PendingOp>,
    max_batch_size: usize,
}

impl OpQueue {
    /// The operations waiting, oldest first.
    pub closed spec fn pending(&self) -> Seq<PendingOp> {
        self.ops@
    }

    /// The batch size at which a flush is due.
    pub closed spec fn spec_max_batch(&self) -> nat {
        self.max_batch_size as nat
    }

    /// An empty queue that asks for a flush at `max_batch_size` operations.
    pub fn new(max_batch_size: usize) -> (q: OpQueue)
        ensures
            q.pending() == Seq::<PendingOp>::empty(),
            q.spec_max_batch() == max_batch_size,
    {
        OpQueue { ops: Vec::new(), max_batch_size }
    }

    /// Queues `op`; true when the queue has reached the batch size.
    pub fn push(&mut self, op: PendingOp) -> (flush: bool)
        ensures
            final(self).pending() == old(self).pending().push(op),
            final(self).spec_max_batch() == old(self).spec_max_batch(),
            flush == (final(self).pending().len() >= final(self).spec_max_batch()),
    {
        self.ops.push(op);
        self.ops.len() >= self.max_batch_size
    }

    /// Takes every queued operation, oldest first, and empties the queue.
    pub fn drain(&mut self) -> (ops: Vec<PendingOp>)
        ensures
            ops@ == old(self).pending(),
            final(self).pending() == Seq::<PendingOp>::empty(),
            final(self).spec_max_batch() == old(self).spec_max_batch(),
    {
        let mut ops: Vec<PendingOp> = Vec::new();
        std::mem::swap(&mut ops, &mut self.ops);
        ops
    }

    /// Number of queued operations.
    pub fn len(&self) -> (n: usize)
        ensures
            n == self.pending().len(),
    {
        self.ops.len()
    }
}

} // verus!
