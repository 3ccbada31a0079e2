//! Counters of the raw disk cache and their Prometheus text form.

use vstd::prelude::*;
use std::time::Duration;
use crate::clock::{duration_micros_u64, duration_nanos};
use crate::text::{dec_digits, string_push_str, u64_to_string};

verus! {

/// Counters of the raw disk cache. Counters wrap around on overflow.
#[derive(Debug)]
pub struct RawDiskMetrics {
    /// Store operations.
    pub store_operations: u64,
    /// Lookup operations.
    pub lookup_operations: u64,
    /// Remove operations.
    pub remove_operations: u64,
    /// Stores that succeeded.
    pub store_successes: u64,
    /// Stores that failed.
    pub store_failures: u64,
    /// Lookups that found the key.
    pub lookup_hits: u64,
    /// Lookups that did not.
    pub lookup_misses: u64,
    /// Bytes written.
    pub bytes_written: u64,
    /// Bytes read.
    pub bytes_read: u64,
    /// Disk write operations.
    pub disk_writes: u64,
    /// Disk read operations.
    pub disk_reads: u64,
    /// Microseconds spent storing.
    pub total_store_duration_us: u64,
    /// Microseconds spent looking up.
    pub total_lookup_duration_us: u64,
    /// Microseconds spent removing.
    pub total_remove_duration_us: u64,
    /// Entries in the cache.
    pub current_entries: u64,
    /// Blocks in use.
    pub used_blocks: u64,
    /// Free blocks.
    pub free_blocks: u64,
    /// Garbage-collection runs.
    pub gc_runs: u64,
    /// Entries evicted by garbage collection.
    pub gc_entries_evicted: u64,
    /// Bytes freed by garbage collection.
    pub gc_bytes_freed: u64,
}

/// The counters at one point in time.
#[derive(Debug, Clone, Copy, PartialEq, Eq)]
pub struct RawDiskMetricsSnapshot {
    /// Store operations.
    pub store_operations: u64,
    /// Lookup operations.
    pub lookup_operations: u64,
    /// Remove operations.
    pub remove_operations: u64,
    /// Stores that succeeded.
    pub store_successes: u64,
    /// Stores that failed.
    pub store_failures: u64,
    /// Lookups that found the key.
    pub lookup_hits: u64,
    /// Lookups that did not.
    pub lookup_misses: u64,
    /// Bytes written.
    pub bytes_written: u64,
    /// Bytes read.
    pub bytes_read: u64,
    /// Disk write operations.
    pub disk_writes: u64,
    /// Disk read operations.
    pub disk_reads: u64,
    /// Microseconds spent storing.
    pub total_store_duration_us: u64,
    /// Microseconds spent looking up.
    pub total_lookup_duration_us: u64,
    /// Microseconds spent removing.
    pub total_remove_duration_us: u64,
    /// Entries in the cache.
    pub current_entries: u64,
    /// Blocks in use.
    pub used_blocks: u64,
    /// Free blocks.
    pub free_blocks: u64,
    /// Garbage-collection runs.
    pub gc_runs: u64,
    /// Entries evicted by garbage collection.
    pub gc_entries_evicted: u64,
    /// Bytes freed by garbage collection.
    pub gc_bytes_freed: u64,
}

/// `x + y`, wrapping around at 2^64.
pub open spec fn wadd(x: u64, y: u64) -> u64 {
    vstd::wrapping::u64_specs::wrapping_add(x, y)
}

/// Whole microseconds of a duration, as the counters take them.
pub open spec fn micros_of(d: Duration) -> u64 {
    (duration_nanos(d) / 1000) as u64
}

impl RawDiskMetrics {
    /// Counters all at zero.
    pub fn new() -> (m: RawDiskMetrics)
        ensures
            m.store_operations == 0,
            m.lookup_operations == 0,
            m.remove_operations == 0,
            m.store_successes == 0,
            m.store_failures == 0,
            m.lookup_hits == 0,
            m.lookup_misses == 0,
            m.bytes_written == 0,
            m.bytes_read == 0,
            m.disk_writes == 0,
            m.disk_reads == 0,
            m.total_store_duration_us == 0,
            m.total_lookup_duration_us == 0,
            m.total_remove_duration_us == 0,
            m.current_entries == 0,
            m.used_blocks == 0,
            m.free_blocks == 0,
            m.gc_runs == 0,
            m.gc_entries_evicted == 0,
            m.gc_bytes_freed == 0,
    {
        RawDiskMetrics {
            store_operations: 0,
            lookup_operations: 0,
            remove_operations: 0,
            store_successes: 0,
            store_failures: 0,
            lookup_hits: 0,
            lookup_misses: 0,
            bytes_written: 0,
            bytes_read: 0,
            disk_writes: 0,
            disk_reads: 0,
            total_store_duration_us: 0,
            total_lookup_duration_us: 0,
            total_remove_duration_us: 0,
            current_entries: 0,
            used_blocks: 0,
            free_blocks: 0,
            gc_runs: 0,
            gc_entries_evicted: 0,
            gc_bytes_freed: 0,
        }
    }

    /// Records a store operation that took `duration` and wrote `bytes`
    /// bytes when it succeeded.
    pub fn record_store(&mut self, success: bool, duration: Duration, bytes: u64)
        ensures
            final(self).store_operations == wadd(old(self).store_operations, 1),
            final(self).store_successes == if success { wadd(old(self).store_successes, 1) } else { old(self).store_successes },
            final(self).bytes_written == if success { wadd(old(self).bytes_written, bytes) } else { old(self).bytes_written },
            final(self).store_failures == if success { old(self).store_failures } else { wadd(old(self).store_failures, 1) },
            final(self).total_store_duration_us == wadd(old(self).total_store_duration_us, micros_of(duration)),
            final(self).lookup_operations == old(self).lookup_operations,
            final(self).remove_operations == old(self).remove_operations,
            final(self).lookup_hits == old(self).lookup_hits,
            final(self).lookup_misses == old(self).lookup_misses,
            final(self).bytes_read == old(self).bytes_read,
            final(self).disk_writes == old(self).disk_writes,
            final(self).disk_reads == old(self).disk_reads,
            final(self).total_lookup_duration_us == old(self).total_lookup_duration_us,
            final(self).total_remove_duration_us == old(self).total_remove_duration_us,
            final(self).current_entries == old(self).current_entries,
            final(self).used_blocks == old(self).used_blocks,
            final(self).free_blocks == old(self).free_blocks,
            final(self).gc_runs == old(self).gc_runs,
            final(self).gc_entries_evicted == old(self).gc_entries_evicted,
            final(self).gc_bytes_freed == old(self).gc_bytes_freed,
    {
        self.store_operations = self.store_operations.wrapping_add(1);
        if success {
            self.store_successes = self.store_successes.wrapping_add(1);
            self.bytes_written = self.bytes_written.wrapping_add(bytes);
        } else {
            self.store_failures = self.store_failures.wrapping_add(1);
        }
        self.total_store_duration_us = self.total_store_duration_us.wrapping_add(duration_micros_u64(&duration));
    }

    /// Records a lookup that took `duration` and, on a hit, read `bytes`
    /// bytes.
    pub fn record_lookup(&mut self, hit: bool, duration: Duration, bytes: u64)
        ensures
            final(self).lookup_operations == wadd(old(self).lookup_operations, 1),
            final(self).lookup_hits == if hit { wadd(old(self).lookup_hits, 1) } else { old(self).lookup_hits },
            final(self).bytes_read == if hit { wadd(old(self).bytes_read, bytes) } else { old(self).bytes_read },
            final(self).lookup_misses == if hit { old(self).lookup_misses } else { wadd(old(self).lookup_misses, 1) },
            final(self).total_lookup_duration_us == wadd(old(self).total_lookup_duration_us, micros_of(duration)),
            final(self).store_operations == old(self).store_operations,
            final(self).remove_operations == old(self).remove_operations,
            final(self).store_successes == old(self).store_successes,
            final(self).store_failures == old(self).store_failures,
            final(self).bytes_written == old(self).bytes_written,
            final(self).disk_writes == old(self).disk_writes,
            final(self).disk_reads == old(self).disk_reads,
            final(self).total_store_duration_us == old(self).total_store_duration_us,
            final(self).total_remove_duration_us == old(self).total_remove_duration_us,
            final(self).current_entries == old(self).current_entries,
            final(self).used_blocks == old(self).used_blocks,
            final(self).free_blocks == old(self).free_blocks,
            final(self).gc_runs == old(self).gc_runs,
            final(self).gc_entries_evicted == old(self).gc_entries_evicted,
            final(self).gc_bytes_freed == old(self).gc_bytes_freed,
    {
        self.lookup_operations = self.lookup_operations.wrapping_add(1);
        if hit {
            self.lookup_hits = self.lookup_hits.wrapping_add(1);
            self.bytes_read = self.bytes_read.wrapping_add(bytes);
        } else {
            self.lookup_misses = self.lookup_misses.wrapping_add(1);
        }
        self.total_lookup_duration_us = self.total_lookup_duration_us.wrapping_add(duration_micros_u64(&duration));
    }

    /// Records a remove operation that took `duration`.
    pub fn record_remove(&mut self, duration: Duration)
        ensures
            final(self).remove_operations == wadd(old(self).remove_operations, 1),
            final(self).total_remove_duration_us == wadd(old(self).total_remove_duration_us, micros_of(duration)),
            final(self).store_operations == old(self).store_operations,
            final(self).lookup_operations == old(self).lookup_operations,
            final(self).store_successes == old(self).store_successes,
            final(self).store_failures == old(self).store_failures,
            final(self).lookup_hits == old(self).lookup_hits,
            final(self).lookup_misses == old(self).lookup_misses,
            final(self).bytes_written == old(self).bytes_written,
            final(self).bytes_read == old(self).bytes_read,
            final(self).disk_writes == old(self).disk_writes,
            final(self).disk_reads == old(self).disk_reads,
            final(self).total_store_duration_us == old(self).total_store_duration_us,
            final(self).total_lookup_duration_us == old(self).total_lookup_duration_us,
            final(self).current_entries == old(self).current_entries,
            final(self).used_blocks == old(self).used_blocks,
            final(self).free_blocks == old(self).free_blocks,
            final(self).gc_runs == old(self).gc_runs,
            final(self).gc_entries_evicted == old(self).gc_entries_evicted,
            final(self).gc_bytes_freed == old(self).gc_bytes_freed,
    {
        self.remove_operations = self.remove_operations.wrapping_add(1);
        self.total_remove_duration_us = self.total_remove_duration_us.wrapping_add(duration_micros_u64(&duration));
    }

    /// Records a disk write of `bytes` bytes.
    pub fn record_disk_write(&mut self, bytes: u64)
        ensures
            final(self).disk_writes == wadd(old(self).disk_writes, 1),
            final(self).bytes_written == wadd(old(self).bytes_written, bytes),
            final(self).store_operations == old(self).store_operations,
            final(self).lookup_operations == old(self).lookup_operations,
            final(self).remove_operations == old(self).remove_operations,
            final(self).store_successes == old(self).store_successes,
            final(self).store_failures == old(self).store_failures,
            final(self).lookup_hits == old(self).lookup_hits,
            final(self).lookup_misses == old(self).lookup_misses,
            final(self).bytes_read == old(self).bytes_read,
            final(self).disk_reads == old(self).disk_reads,
            final(self).total_store_duration_us == old(self).total_store_duration_us,
            final(self).total_lookup_duration_us == old(self).total_lookup_duration_us,
            final(self).total_remove_duration_us == old(self).total_remove_duration_us,
            final(self).current_entries == old(self).current_entries,
            final(self).used_blocks == old(self).used_blocks,
            final(self).free_blocks == old(self).free_blocks,
            final(self).gc_runs == old(self).gc_runs,
            final(self).gc_entries_evicted == old(self).gc_entries_evicted,
            final(self).gc_bytes_freed == old(self).gc_bytes_freed,
    {
        self.disk_writes = self.disk_writes.wrapping_add(1);
        self.bytes_written = self.bytes_written.wrapping_add(bytes);
    }

    /// Records a disk read of `bytes` bytes.
    pub fn record_disk_read(&mut self, bytes: u64)
        ensures
            final(self).disk_reads == wadd(old(self).disk_reads, 1),
            final(self).bytes_read == wadd(old(self).bytes_read, bytes),
            final(self).store_operations == old(self).store_operations,
            final(self).lookup_operations == old(self).lookup_operations,
            final(self).remove_operations == old(self).remove_operations,
            final(self).store_successes == old(self).store_successes,
            final(self).store_failures == old(self).store_failures,
            final(self).lookup_hits == old(self).lookup_hits,
            final(self).lookup_misses == old(self).lookup_misses,
            final(self).bytes_written == old(self).bytes_written,
            final(self).disk_writes == old(self).disk_writes,
            final(self).total_store_duration_us == old(self).total_store_duration_us,
            final(self).total_lookup_duration_us == old(self).total_lookup_duration_us,
            final(self).total_remove_duration_us == old(self).total_remove_duration_us,
            final(self).current_entries == old(self).current_entries,
            final(self).used_blocks == old(self).used_blocks,
            final(self).free_blocks == old(self).free_blocks,
            final(self).gc_runs == old(self).gc_runs,
            final(self).gc_entries_evicted == old(self).gc_entries_evicted,
            final(self).gc_bytes_freed == old(self).gc_bytes_freed,
    {
        self.disk_reads = self.disk_reads.wrapping_add(1);
        self.bytes_read = self.bytes_read.wrapping_add(bytes);
    }

    /// Sets the cache state: entries, used blocks, free blocks.
    pub fn update_cache_state(&mut self, entries: u64, used_blocks: u64, free_blocks: u64)
        ensures
            final(self).current_entries == entries,
            final(self).used_blocks == used_blocks,
            final(self).free_blocks == free_blocks,
            final(self).store_operations == old(self).store_operations,
            final(self).lookup_operations == old(self).lookup_operations,
            final(self).remove_operations == old(self).remove_operations,
            final(self).store_successes == old(self).store_successes,
            final(self).store_failures == old(self).store_failures,
            final(self).lookup_hits == old(self).lookup_hits,
            final(self).lookup_misses == old(self).lookup_misses,
            final(self).bytes_written == old(self).bytes_written,
            final(self).bytes_read == old(self).bytes_read,
            final(self).disk_writes == old(self).disk_writes,
            final(self).disk_reads == old(self).disk_reads,
            final(self).total_store_duration_us == old(self).total_store_duration_us,
            final(self).total_lookup_duration_us == old(self).total_lookup_duration_us,
            final(self).total_remove_duration_us == old(self).total_remove_duration_us,
            final(self).gc_runs == old(self).gc_runs,
            final(self).gc_entries_evicted == old(self).gc_entries_evicted,
            final(self).gc_bytes_freed == old(self).gc_bytes_freed,
    {
        self.current_entries = entries;
        self.used_blocks = used_blocks;
        self.free_blocks = free_blocks;
    }

    /// Records a garbage-collection run.
    pub fn record_gc_run(&mut self, entries_evicted: u64, bytes_freed: u64)
        ensures
            final(self).gc_runs == wadd(old(self).gc_runs, 1),
            final(self).gc_entries_evicted == wadd(old(self).gc_entries_evicted, entries_evicted),
            final(self).gc_bytes_freed == wadd(old(self).gc_bytes_freed, bytes_freed),
            final(self).store_operations == old(self).store_operations,
            final(self).lookup_operations == old(self).lookup_operations,
            final(self).remove_operations == old(self).remove_operations,
            final(self).store_successes == old(self).store_successes,
            final(self).store_failures == old(self).store_failures,
            final(self).lookup_hits == old(self).lookup_hits,
            final(self).lookup_misses == old(self).lookup_misses,
            final(self).bytes_written == old(self).bytes_written,
            final(self).bytes_read == old(self).bytes_read,
            final(self).disk_writes == old(self).disk_writes,
            final(self).disk_reads == old(self).disk_reads,
            final(self).total_store_duration_us == old(self).total_store_duration_us,
            final(self).total_lookup_duration_us == old(self).total_lookup_duration_us,
            final(self).total_remove_duration_us == old(self).total_remove_duration_us,
            final(self).current_entries == old(self).current_entries,
            final(self).used_blocks == old(self).used_blocks,
            final(self).free_blocks == old(self).free_blocks,
    {
        self.gc_runs = self.gc_runs.wrapping_add(1);
        self.gc_entries_evicted = self.gc_entries_evicted.wrapping_add(entries_evicted);
        self.gc_bytes_freed = self.gc_bytes_freed.wrapping_add(bytes_freed);
    }

    /// The counters as they stand.
    pub fn get_stats(&self) -> (s: RawDiskMetricsSnapshot)
        ensures
            s.store_operations == self.store_operations,
            s.lookup_operations == self.lookup_operations,
            s.remove_operations == self.remove_operations,
            s.store_successes == self.store_successes,
            s.store_failures == self.store_failures,
            s.lookup_hits == self.lookup_hits,
            s.lookup_misses == self.lookup_misses,
            s.bytes_written == self.bytes_written,
            s.bytes_read == self.bytes_read,
            s.disk_writes == self.disk_writes,
            s.disk_reads == self.disk_reads,
            s.total_store_duration_us == self.total_store_duration_us,
            s.total_lookup_duration_us == self.total_lookup_duration_us,
            s.total_remove_duration_us == self.total_remove_duration_us,
            s.current_entries == self.current_entries,
            s.used_blocks == self.used_blocks,
            s.free_blocks == self.free_blocks,
            s.gc_runs == self.gc_runs,
            s.gc_entries_evicted == self.gc_entries_evicted,
            s.gc_bytes_freed == self.gc_bytes_freed,
    {
        RawDiskMetricsSnapshot {
            store_operations: self.store_operations,
            lookup_operations: self.lookup_operations,
            remove_operations: self.remove_operations,
            store_successes: self.store_successes,
            store_failures: self.store_failures,
            lookup_hits: self.lookup_hits,
            lookup_misses: self.lookup_misses,
            bytes_written: self.bytes_written,
            bytes_read: self.bytes_read,
            disk_writes: self.disk_writes,
            disk_reads: self.disk_reads,
            total_store_duration_us: self.total_store_duration_us,
            total_lookup_duration_us: self.total_lookup_duration_us,
            total_remove_duration_us: self.total_remove_duration_us,
            current_entries: self.current_entries,
            used_blocks: self.used_blocks,
            free_blocks: self.free_blocks,
            gc_runs: self.gc_runs,
            gc_entries_evicted: self.gc_entries_evicted,
            gc_bytes_freed: self.gc_bytes_freed,
        }
    }

    /// Sets every counter to zero.
    pub fn reset(&mut self)
        ensures
            final(self).store_operations == 0,
            final(self).lookup_operations == 0,
            final(self).remove_operations == 0,
            final(self).store_successes == 0,
            final(self).store_failures == 0,
            final(self).lookup_hits == 0,
            final(self).lookup_misses == 0,
            final(self).bytes_written == 0,
            final(self).bytes_read == 0,
            final(self).disk_writes == 0,
            final(self).disk_reads == 0,
            final(self).total_store_duration_us == 0,
            final(self).total_lookup_duration_us == 0,
            final(self).total_remove_duration_us == 0,
            final(self).current_entries == 0,
            final(self).used_blocks == 0,
            final(self).free_blocks == 0,
            final(self).gc_runs == 0,
            final(self).gc_entries_evicted == 0,
            final(self).gc_bytes_freed == 0,
    {
        self.store_operations = 0;
        self.lookup_operations = 0;
        self.remove_operations = 0;
        self.store_successes = 0;
        self.store_failures = 0;
        self.lookup_hits = 0;
        self.lookup_misses = 0;
        self.bytes_written = 0;
        self.bytes_read = 0;
        self.disk_writes = 0;
        self.disk_reads = 0;
        self.total_store_duration_us = 0;
        self.total_lookup_duration_us = 0;
        self.total_remove_duration_us = 0;
        self.current_entries = 0;
        self.used_blocks = 0;
        self.free_blocks = 0;
        self.gc_runs = 0;
        self.gc_entries_evicted = 0;
        self.gc_bytes_freed = 0;
    }
}

impl RawDiskMetricsSnapshot {
    /// Total number of blocks: used plus free.
    pub fn total_blocks(&self) -> (n: u64)
        requires
            self.used_blocks + self.free_blocks <= u64::MAX,
        ensures
            n == self.used_blocks + self.free_blocks,
    {
        self.used_blocks + self.free_blocks
    }
}

} // verus!

verus! {

/// The gauges that are ratios, already written as text (two decimals).
#[derive(Debug, Clone)]
pub struct MetricRates {
    /// Cache hit rate, percent.
    pub hit_rate: String,
    /// Store success rate, percent.
    pub store_success_rate: String,
    /// Average store time, milliseconds.
    pub avg_store_duration_ms: String,
    /// Average lookup time, milliseconds.
    pub avg_lookup_duration_ms: String,
    /// Average remove time, milliseconds.
    pub avg_remove_duration_ms: String,
    /// Space in use, percent.
    pub space_utilization: String,
}

/// One metric in the Prometheus exposition format, followed by a blank
/// line.
pub open spec fn metric_block(name: Seq<char>, help: Seq<char>, kind: Seq<char>, value: Seq<char>) -> Seq<char> {
    "# HELP "@ + name + " "@ + help + "\n# TYPE "@ + name + " "@ + kind + "\n"@ + name + " "@ + value + "\n\n"@
}

/// Appends one metric in the Prometheus exposition format.
fn push_block(out: &mut String, name: &str, help: &str, kind: &str, value: &str)
    ensures
        final(out)@ == old(out)@ + metric_block(name@, help@, kind@, value@),
{
    string_push_str(out, "# HELP ");
    string_push_str(out, name);
    string_push_str(out, " ");
    string_push_str(out, help);
    string_push_str(out, "\n# TYPE ");
    string_push_str(out, name);
    string_push_str(out, " ");
    string_push_str(out, kind);
    string_push_str(out, "\n");
    string_push_str(out, name);
    string_push_str(out, " ");
    string_push_str(out, value);
    string_push_str(out, "\n\n");
    assert(final(out)@ =~= old(out)@ + metric_block(name@, help@, kind@, value@));
}

/// The metrics text: each counter and gauge of the snapshot, in a fixed
/// order, with the ratio gauges taken from `r`.
pub open spec fn prometheus_text(s: RawDiskMetricsSnapshot, r: MetricRates) -> Seq<char> {
    metric_block("raw_disk_cache_store_operations_total"@, "Total number of store operations"@, "counter"@, dec_digits(s.store_operations as nat))
        + metric_block("raw_disk_cache_lookup_operations_total"@, "Total number of lookup operations"@, "counter"@, dec_digits(s.lookup_operations as nat))
        + metric_block("raw_disk_cache_remove_operations_total"@, "Total number of remove operations"@, "counter"@, dec_digits(s.remove_operations as nat))
        + metric_block("raw_disk_cache_store_successes_total"@, "Number of successful store operations"@, "counter"@, dec_digits(s.store_successes as nat))
        + metric_block("raw_disk_cache_store_failures_total"@, "Number of failed store operations"@, "counter"@, dec_digits(s.store_failures as nat))
        + metric_block("raw_disk_cache_lookup_hits_total"@, "Number of cache hits"@, "counter"@, dec_digits(s.lookup_hits as nat))
        + metric_block("raw_disk_cache_lookup_misses_total"@, "Number of cache misses"@, "counter"@, dec_digits(s.lookup_misses as nat))
        + metric_block("raw_disk_cache_hit_rate"@, "Cache hit rate percentage"@, "gauge"@, r.hit_rate@)
        + metric_block("raw_disk_cache_store_success_rate"@, "Store success rate percentage"@, "gauge"@, r.store_success_rate@)
        + metric_block("raw_disk_cache_bytes_written_total"@, "Total bytes written to disk"@, "counter"@, dec_digits(s.bytes_written as nat))
        + metric_block("raw_disk_cache_bytes_read_total"@, "Total bytes read from disk"@, "counter"@, dec_digits(s.bytes_read as nat))
        + metric_block("raw_disk_cache_disk_writes_total"@, "Total number of disk write operations"@, "counter"@, dec_digits(s.disk_writes as nat))
        + metric_block("raw_disk_cache_disk_reads_total"@, "Total number of disk read operations"@, "counter"@, dec_digits(s.disk_reads as nat))
        + metric_block("raw_disk_cache_store_duration_ms_avg"@, "Average store duration in milliseconds"@, "gauge"@, r.avg_store_duration_ms@)
        + metric_block("raw_disk_cache_lookup_duration_ms_avg"@, "Average lookup duration in milliseconds"@, "gauge"@, r.avg_lookup_duration_ms@)
        + metric_block("raw_disk_cache_remove_duration_ms_avg"@, "Average remove duration in milliseconds"@, "gauge"@, r.avg_remove_duration_ms@)
        + metric_block("raw_disk_cache_entries"@, "Current number of cache entries"@, "gauge"@, dec_digits(s.current_entries as nat))
        + metric_block("raw_disk_cache_used_blocks"@, "Number of used blocks"@, "gauge"@, dec_digits(s.used_blocks as nat))
        + metric_block("raw_disk_cache_free_blocks"@, "Number of free blocks"@, "gauge"@, dec_digits(s.free_blocks as nat))
        + metric_block("raw_disk_cache_space_utilization"@, "Space utilization percentage"@, "gauge"@, r.space_utilization@)
        + metric_block("raw_disk_cache_gc_runs_total"@, "Total number of GC runs"@, "counter"@, dec_digits(s.gc_runs as nat))
        + metric_block("raw_disk_cache_gc_entries_evicted_total"@, "Total entries evicted by GC"@, "counter"@, dec_digits(s.gc_entries_evicted as nat))
        + metric_block("raw_disk_cache_gc_bytes_freed_total"@, "Total bytes freed by GC"@, "counter"@, dec_digits(s.gc_bytes_freed as nat))
}

/// Formats the snapshot in the Prometheus exposition format; the ratio
/// gauges are given already formatted.
pub fn format_prometheus_metrics(snapshot: &RawDiskMetricsSnapshot, rates: &MetricRates) -> (out: String)
    ensures
        out@ == prometheus_text(*snapshot, *rates),
{
    let mut out = String::new();
    let value = u64_to_string(snapshot.store_operations);
    push_block(&mut out, "raw_disk_cache_store_operations_total", "Total number of store operations", "counter", value.as_str());
    let value = u64_to_string(snapshot.lookup_operations);
    push_block(&mut out, "raw_disk_cache_lookup_operations_total", "Total number of lookup operations", "counter", value.as_str());
    let value = u64_to_string(snapshot.remove_operations);
    push_block(&mut out, "raw_disk_cache_remove_operations_total", "Total number of remove operations", "counter", value.as_str());
    let value = u64_to_string(snapshot.store_successes);
    push_block(&mut out, "raw_disk_cache_store_successes_total", "Number of successful store operations", "counter", value.as_str());
    let value = u64_to_string(snapshot.store_failures);
    push_block(&mut out, "raw_disk_cache_store_failures_total", "Number of failed store operations", "counter", value.as_str());
    let value = u64_to_string(snapshot.lookup_hits);
    push_block(&mut out, "raw_disk_cache_lookup_hits_total", "Number of cache hits", "counter", value.as_str());
    let value = u64_to_string(snapshot.lookup_misses);
    push_block(&mut out, "raw_disk_cache_lookup_misses_total", "Number of cache misses", "counter", value.as_str());
    push_block(&mut out, "raw_disk_cache_hit_rate", "Cache hit rate percentage", "gauge", rates.hit_rate.as_str());
    push_block(&mut out, "raw_disk_cache_store_success_rate", "Store success rate percentage", "gauge", rates.store_success_rate.as_str());
    let value = u64_to_string(snapshot.bytes_written);
    push_block(&mut out, "raw_disk_cache_bytes_written_total", "Total bytes written to disk", "counter", value.as_str());
    let value = u64_to_string(snapshot.bytes_read);
    push_block(&mut out, "raw_disk_cache_bytes_read_total", "Total bytes read from disk", "counter", value.as_str());
    let value = u64_to_string(snapshot.disk_writes);
    push_block(&mut out, "raw_disk_cache_disk_writes_total", "Total number of disk write operations", "counter", value.as_str());
    let value = u64_to_string(snapshot.disk_reads);
    push_block(&mut out, "raw_disk_cache_disk_reads_total", "Total number of disk read operations", "counter", value.as_str());
    push_block(&mut out, "raw_disk_cache_store_duration_ms_avg", "Average store duration in milliseconds", "gauge", rates.avg_store_duration_ms.as_str());
    push_block(&mut out, "raw_disk_cache_lookup_duration_ms_avg", "Average lookup duration in milliseconds", "gauge", rates.avg_lookup_duration_ms.as_str());
    push_block(&mut out, "raw_disk_cache_remove_duration_ms_avg", "Average remove duration in milliseconds", "gauge", rates.avg_remove_duration_ms.as_str());
    let value = u64_to_string(snapshot.current_entries);
    push_block(&mut out, "raw_disk_cache_entries", "Current number of cache entries", "gauge", value.as_str());
    let value = u64_to_string(snapshot.used_blocks);
    push_block(&mut out, "raw_disk_cache_used_blocks", "Number of used blocks", "gauge", value.as_str());
    let value = u64_to_string(snapshot.free_blocks);
    push_block(&mut out, "raw_disk_cache_free_blocks", "Number of free blocks", "gauge", value.as_str());
    push_block(&mut out, "raw_disk_cache_space_utilization", "Space utilization percentage", "gauge", rates.space_utilization.as_str());
    let value = u64_to_string(snapshot.gc_runs);
    push_block(&mut out, "raw_disk_cache_gc_runs_total", "Total number of GC runs", "counter", value.as_str());
    let value = u64_to_string(snapshot.gc_entries_evicted);
    push_block(&mut out, "raw_disk_cache_gc_entries_evicted_total", "Total entries evicted by GC", "counter", value.as_str());
    let value = u64_to_string(snapshot.gc_bytes_freed);
    push_block(&mut out, "raw_disk_cache_gc_bytes_freed_total", "Total bytes freed by GC", "counter", value.as_str());
    assert(out@ =~= prometheus_text(*snapshot, *rates));
    out
}

} // verus!
