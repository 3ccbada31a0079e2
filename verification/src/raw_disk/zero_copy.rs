//! Settings and counters of zero-copy reads (memory maps and `sendfile`).

use vstd::prelude::*;

verus! {

/// When zero-copy transfers are used.
#[derive(Debug, Clone, Copy)]
pub struct ZeroCopyConfig {
    /// Reads of at least this many bytes go through a memory map.
    pub mmap_threshold: usize,
    /// Whether `sendfile` is used for socket transfers.
    pub enable_sendfile: bool,
}

impl Default for ZeroCopyConfig {
    /// Memory maps from 64 KiB on, `sendfile` on.
    fn default() -> (c: ZeroCopyConfig)
        ensures
            c.mmap_threshold == 65536,
            c.enable_sendfile,
    {
        ZeroCopyConfig { mmap_threshold: 65536, enable_sendfile: true }
    }
}

impl ZeroCopyConfig {
    /// Whether a read of `size` bytes goes through a memory map.
    pub fn uses_mmap(&self, size: usize) -> (b: bool)
        ensures
            b == (size >= self.mmap_threshold),
    {
        size >= self.mmap_threshold
    }
}

/// Counters of zero-copy transfers.
#[derive(Debug, Clone, Copy)]
pub struct ZeroCopyStats {
    /// Reads through a memory map.
    pub mmap_reads: u64,
    /// Bytes read through memory maps.
    pub mmap_bytes: u64,
    /// Transfers by `sendfile`.
    pub sendfile_transfers: u64,
    /// Bytes sent by `sendfile`.
    pub sendfile_bytes: u64,
    /// Reads too small for a memory map.
    pub mmap_skipped: u64,
}

impl ZeroCopyStats {
    /// All counters zero.
    pub fn new() -> (s: ZeroCopyStats)
        ensures
            s.mmap_reads == 0 && s.mmap_bytes == 0 && s.sendfile_transfers == 0 && s.sendfile_bytes == 0
                && s.mmap_skipped == 0,
    {
        ZeroCopyStats { mmap_reads: 0, mmap_bytes: 0, sendfile_transfers: 0, sendfile_bytes: 0, mmap_skipped: 0 }
    }

    /// Counts a read of `bytes` bytes through a memory map.
    pub fn record_mmap_read(&mut self, bytes: usize)
        requires
            old(self).mmap_reads < u64::MAX,
            old(self).mmap_bytes + bytes <= u64::MAX,
        ensures
            *final(self) == (ZeroCopyStats {
                mmap_reads: (old(self).mmap_reads + 1) as u64,
                mmap_bytes: (old(self).mmap_bytes + bytes) as u64,
                ..*old(self)
            }),
    {
        self.mmap_reads = self.mmap_reads + 1;
        self.mmap_bytes = self.mmap_bytes + bytes as u64;
    }

    /// Counts a transfer of `bytes` bytes by `sendfile`.
    pub fn record_sendfile(&mut self, bytes: usize)
        requires
            old(self).sendfile_transfers < u64::MAX,
            old(self).sendfile_bytes + bytes <= u64::MAX,
        ensures
            *final(self) == (ZeroCopyStats {
                sendfile_transfers: (old(self).sendfile_transfers + 1) as u64,
                sendfile_bytes: (old(self).sendfile_bytes + bytes) as u64,
                ..*old(self)
            }),
    {
        self.sendfile_transfers = self.sendfile_transfers + 1;
        self.sendfile_bytes = self.sendfile_bytes + bytes as u64;
    }

    /// Counts a read too small for a memory map.
    pub fn record_mmap_skipped(&mut self)
        requires
            old(self).mmap_skipped < u64::MAX,
        ensures
            *final(self) == (ZeroCopyStats { mmap_skipped: (old(self).mmap_skipped + 1) as u64, ..*old(self) }),
    {
        self.mmap_skipped = self.mmap_skipped + 1;
    }
}

/// What to do after one `sendfile` call of a transfer.
#[derive(Debug, Clone, Copy, PartialEq, Eq)]
pub enum TransferStep {
    /// Send the `remaining` bytes; `total` have gone so far.
    Continue { remaining: usize, total: usize },
    /// The transfer is over, `total` bytes sent.
    Done { total: usize },
}

/// The next step of a transfer that had `remaining` bytes to send and had
/// sent `total`, after a call that sent `sent` bytes: the transfer stops
/// when nothing was sent or nothing is left.
pub fn after_send(remaining: usize, total: usize, sent: usize) -> (s: TransferStep)
    requires
        sent <= remaining,
        total + remaining <= usize::MAX,
    ensures
        sent == 0 ==> s == (TransferStep::Done { total }),
        sent > 0 && sent == remaining ==> s == (TransferStep::Done { total: (total + sent) as usize }),
        0 < sent < remaining ==> s == (TransferStep::Continue {
            remaining: (remaining - sent) as usize,
            total: (total + sent) as usize,
        }),
{
    if sent == 0 {
        TransferStep::Done { total }
    } else if sent == remaining {
        TransferStep::Done { total: total + sent }
    } else {
        TransferStep::Continue { remaining: remaining - sent, total: total + sent }
    }
}

} // verus!
