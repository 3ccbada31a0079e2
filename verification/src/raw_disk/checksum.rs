//! Checksums over stored data and the statistics of verification runs.

use vstd::prelude::*;
use std::time::Duration;

verus! {

/// The CRC32 (IEEE) of a byte sequence, as `crc32fast` computes it.
pub uninterp spec fn crc32_of(data: Seq<u8>) -> u32;

/// The 64-bit XXH3 hash of a byte sequence, as `xxhash_rust` computes it.
pub uninterp spec fn xxh3_64_of(data: Seq<u8>) -> u64;

/// The 64-bit XXH64 hash of a byte sequence with seed `seed`, as
/// `xxhash_rust` computes it.
pub uninterp spec fn xxh64_of(data: Seq<u8>, seed: u64) -> u64;

/// 64-bit XXH64 hash of `data` with seed `seed` (`xxhash_rust::xxh64::xxh64`).
#[verifier::external_body]
pub(crate) fn xxh64(data: &[u8], seed: u64) -> (h: u64)
    ensures
        h == xxh64_of(data@, seed),
{
    xxhash_rust::xxh64::xxh64(data, seed)
}

/// CRC32 of `data` (`crc32fast::hash`).
#[verifier::external_body]
pub(crate) fn crc32(data: &[u8]) -> (c: u32)
    ensures
        c == crc32_of(data@),
{
    crc32fast::hash(data)
}

/// 64-bit XXH3 hash of `data` (`xxhash_rust::xxh3::xxh3_64`).
#[verifier::external_body]
pub(crate) fn xxh3_64(data: &[u8]) -> (h: u64)
    ensures
        h == xxh3_64_of(data@),
{
    xxhash_rust::xxh3::xxh3_64(data)
}

/// Checksum algorithm.
#[derive(Debug, Clone, Copy, PartialEq, Eq)]
pub enum ChecksumAlgorithm {
    /// CRC32: fast, weaker against collisions.
    Crc32,
    /// XXH64: the 64-bit xxHash, seed 0.
    XxHash64,
    /// XXH3: fastest, strong against collisions.
    XxHash3,
}

/// The value that `algorithm` gives for `data`.
pub open spec fn checksum_value(algorithm: ChecksumAlgorithm, data: Seq<u8>) -> u64 {
    match algorithm {
        ChecksumAlgorithm::Crc32 => crc32_of(data) as u64,
        ChecksumAlgorithm::XxHash64 => xxh64_of(data, 0),
        ChecksumAlgorithm::XxHash3 => xxh3_64_of(data),
    }
}

impl ChecksumAlgorithm {
    /// The default algorithm: XXH3.
    pub fn default_algorithm() -> (a: ChecksumAlgorithm)
        ensures
            a == ChecksumAlgorithm::XxHash3,
    {
        ChecksumAlgorithm::XxHash3
    }

    /// The name of the algorithm, as it is displayed.
    pub fn name(&self) -> (s: &'static str)
        ensures
            *self is Crc32 ==> s@ == "CRC32"@,
            *self is XxHash64 ==> s@ == "XXHash64"@,
            *self is XxHash3 ==> s@ == "XXHash3"@,
    {
        match self {
            ChecksumAlgorithm::Crc32 => "CRC32",
            ChecksumAlgorithm::XxHash64 => "XXHash64",
            ChecksumAlgorithm::XxHash3 => "XXHash3",
        }
    }
}

/// A checksum value together with the algorithm that produced it.
#[derive(Debug, Clone, Copy, PartialEq, Eq)]
pub struct Checksum {
    algorithm: ChecksumAlgorithm,
    value: u64,
}

/// Value of `to_crc32` for a checksum that CRC32 did not produce.
pub const NOT_CRC32: u32 = 0xFFFF_FFFF;

impl Checksum {
    /// The algorithm of the checksum.
    pub closed spec fn spec_algorithm(&self) -> ChecksumAlgorithm {
        self.algorithm
    }

    /// The value of the checksum.
    pub closed spec fn spec_value(&self) -> u64 {
        self.value
    }

    /// A checksum with the given algorithm and value.
    pub fn new(algorithm: ChecksumAlgorithm, value: u64) -> (c: Checksum)
        ensures
            c.spec_algorithm() == algorithm,
            c.spec_value() == value,
    {
        Checksum { algorithm, value }
    }

    /// The checksum of `data` under `algorithm`.
    pub fn compute(algorithm: ChecksumAlgorithm, data: &[u8]) -> (c: Checksum)
        ensures
            c.spec_algorithm() == algorithm,
            c.spec_value() == checksum_value(algorithm, data@),
    {
        let value = match algorithm {
            ChecksumAlgorithm::Crc32 => crc32(data) as u64,
            ChecksumAlgorithm::XxHash64 => xxh64(data, 0),
            ChecksumAlgorithm::XxHash3 => xxh3_64(data),
        };
        Checksum { algorithm, value }
    }

    /// Whether `data` has this checksum.
    pub fn verify(&self, data: &[u8]) -> (b: bool)
        ensures
            b == (checksum_value(self.spec_algorithm(), data@) == self.spec_value()),
    {
        let computed = Self::compute(self.algorithm, data);
        computed.value == self.value
    }

    /// The algorithm used.
    pub fn algorithm(&self) -> (a: ChecksumAlgorithm)
        ensures
            a == self.spec_algorithm(),
    {
        self.algorithm
    }

    /// The checksum value.
    pub fn value(&self) -> (v: u64)
        ensures
            v == self.spec_value(),
    {
        self.value
    }

    /// The value as a 32-bit CRC; a checksum of another algorithm cannot be
    /// converted and gives `0xFFFFFFFF`.
    pub fn to_crc32(&self) -> (v: u32)
        ensures
            self.spec_algorithm() is Crc32 ==> v == self.spec_value() as u32,
            !(self.spec_algorithm() is Crc32) ==> v == NOT_CRC32,
    {
        match self.algorithm {
            ChecksumAlgorithm::Crc32 => #[verifier::truncate] (self.value as u32),
            _ => NOT_CRC32,
        }
    }

    /// A CRC32 checksum with the given value.
    pub fn from_crc32(value: u32) -> (c: Checksum)
        ensures
            c.spec_algorithm() is Crc32,
            c.spec_value() == value as u64,
    {
        Checksum { algorithm: ChecksumAlgorithm::Crc32, value: value as u64 }
    }
}

/// Configuration of data verification.
#[derive(Debug, Clone)]
pub struct VerificationConfig {
    /// Checksum algorithm to use.
    pub algorithm: ChecksumAlgorithm,
    /// Whether verification runs periodically.
    pub periodic_verification_enabled: bool,
    /// Seconds between verification runs.
    pub verification_interval_secs: u64,
    /// Most entries to verify in one run.
    pub max_entries_per_run: usize,
    /// Whether corrupted data is repaired automatically.
    pub auto_repair_enabled: bool,
    /// Whether data is backed up before a repair.
    pub keep_backup_on_repair: bool,
}

impl VerificationConfig {
    /// The default configuration: XXH3, no periodic runs, an hourly interval,
    /// 100 entries per run, no automatic repair, backups kept.
    pub fn default_config() -> (c: VerificationConfig)
        ensures
            c.algorithm == ChecksumAlgorithm::XxHash3,
            !c.periodic_verification_enabled,
            c.verification_interval_secs == 3600,
            c.max_entries_per_run == 100,
            !c.auto_repair_enabled,
            c.keep_backup_on_repair,
    {
        VerificationConfig {
            algorithm: ChecksumAlgorithm::XxHash3,
            periodic_verification_enabled: false,
            verification_interval_secs: 3600,
            max_entries_per_run: 100,
            auto_repair_enabled: false,
            keep_backup_on_repair: true,
        }
    }
}

/// Statistics of data verification.
#[derive(Debug, Clone, PartialEq, Eq)]
pub struct VerificationStats {
    /// Number of verification runs.
    pub total_runs: u64,
    /// Entries verified in all runs.
    pub total_verified: u64,
    /// Corrupted entries found.
    pub corrupted_found: u64,
    /// Entries repaired.
    pub repaired: u64,
    /// Entries whose repair failed.
    pub repair_failed: u64,
    /// Timestamp of the last run.
    pub last_verification: Option<u64>,
    /// Milliseconds spent verifying.
    pub total_verification_time_ms: u64,
}

impl VerificationStats {
    /// Statistics with every count at zero and no run yet.
    pub fn new() -> (s: VerificationStats)
        ensures
            s == (VerificationStats {
                total_runs: 0,
                total_verified: 0,
                corrupted_found: 0,
                repaired: 0,
                repair_failed: 0,
                last_verification: None,
                total_verification_time_ms: 0,
            }),
    {
        VerificationStats {
            total_runs: 0,
            total_verified: 0,
            corrupted_found: 0,
            repaired: 0,
            repair_failed: 0,
            last_verification: None,
            total_verification_time_ms: 0,
        }
    }

    /// Records a run that verified `verified` entries and found `corrupted`
    /// of them damaged, taking `duration_ms` milliseconds at `timestamp`.
    pub fn record_run(&mut self, verified: u64, corrupted: u64, duration_ms: u64, timestamp: u64)
        requires
            old(self).total_runs < u64::MAX,
            old(self).total_verified + verified <= u64::MAX,
            old(self).corrupted_found + corrupted <= u64::MAX,
            old(self).total_verification_time_ms + duration_ms <= u64::MAX,
        ensures
            *final(self) == (VerificationStats {
                total_runs: (old(self).total_runs + 1) as u64,
                total_verified: (old(self).total_verified + verified) as u64,
                corrupted_found: (old(self).corrupted_found + corrupted) as u64,
                last_verification: Some(timestamp),
                total_verification_time_ms: (old(self).total_verification_time_ms
                    + duration_ms) as u64,
                ..*old(self)
            }),
    {
        self.total_runs = self.total_runs + 1;
        self.total_verified = self.total_verified + verified;
        self.corrupted_found = self.corrupted_found + corrupted;
        self.last_verification = Some(timestamp);
        self.total_verification_time_ms = self.total_verification_time_ms + duration_ms;
    }

    /// Records a successful repair.
    pub fn record_repair_success(&mut self)
        requires
            old(self).repaired < u64::MAX,
        ensures
            *final(self) == (VerificationStats {
                repaired: (old(self).repaired + 1) as u64,
                ..*old(self)
            }),
    {
        self.repaired = self.repaired + 1;
    }

    /// Records a failed repair.
    pub fn record_repair_failure(&mut self)
        requires
            old(self).repair_failed < u64::MAX,
        ensures
            *final(self) == (VerificationStats {
                repair_failed: (old(self).repair_failed + 1) as u64,
                ..*old(self)
            }),
    {
        self.repair_failed = self.repair_failed + 1;
    }
}

/// What one verification run found.
#[derive(Debug, Clone, Copy)]
pub struct VerificationResult {
    /// Entries checked.
    pub verified: usize,
    /// Entries whose data did not match their checksum.
    pub corrupted: usize,
    /// Corrupted entries restored from a backup.
    pub repaired: usize,
    /// How long the run took.
    pub duration: Duration,
}

} // verus!
