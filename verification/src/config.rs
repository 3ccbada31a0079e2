//! Configuration of the slicing proxy.

use vstd::prelude::*;
use crate::error::SliceError;
use crate::text::string_push_str;

verus! {

/// Settings of the raw-disk backend of the second cache tier.
#[derive(Debug, Clone)]
pub struct RawDiskCacheConfig {
    /// Device or file that holds the cache.
    pub device_path: String,
    /// Bytes of the device used.
    pub total_size: u64,
    /// Size of an allocation block in bytes.
    pub block_size: usize,
    /// Whether `O_DIRECT` is used.
    pub use_direct_io: bool,
    /// Whether stored data is compressed.
    pub enable_compression: bool,
    /// Whether likely next keys are read ahead.
    pub enable_prefetch: bool,
    /// Whether lookups read through memory maps.
    pub enable_zero_copy: bool,
}

/// Configuration of the slicing proxy.
#[derive(Debug, Clone)]
pub struct SliceConfig {
    /// Size of each slice in bytes.
    pub slice_size: usize,
    /// Most subrequests in flight at once.
    pub max_concurrent_subrequests: usize,
    /// Most retries of a failed subrequest.
    pub max_retries: usize,
    /// URL patterns that are sliced (all URLs when empty).
    pub slice_patterns: Vec<String>,
    /// Whether responses are cached.
    pub enable_cache: bool,
    /// Time-to-live of cached data, in seconds.
    pub cache_ttl: u64,
    /// Size limit of the memory tier in bytes.
    pub l1_cache_size_bytes: usize,
    /// Directory of the file backend of the disk tier.
    pub l2_cache_dir: String,
    /// Whether the disk tier is used.
    pub enable_l2_cache: bool,
    /// Backend of the disk tier: `file` or `raw_disk`.
    pub l2_backend: String,
    /// Settings of the raw-disk backend.
    pub raw_disk_cache: Option<RawDiskCacheConfig>,
    /// Origin server, as `host` or `host:port`.
    pub upstream_address: String,
}

/// Smallest slice size accepted (64 KiB).
pub const MIN_SLICE_SIZE: usize = 65536;

/// Largest slice size accepted (10 MiB).
pub const MAX_SLICE_SIZE: usize = 10485760;

/// Whether a configuration keeps the rules that are checked on load: a slice
/// size from 64 KiB to 10 MiB, at least one concurrent subrequest, and a
/// positive time-to-live when caching is on.
pub open spec fn config_valid(c: SliceConfig) -> bool {
    &&& MIN_SLICE_SIZE <= c.slice_size <= MAX_SLICE_SIZE
    &&& c.max_concurrent_subrequests > 0
    &&& c.enable_cache ==> c.cache_ttl > 0
}

/// Where the disk tier keeps its data.
#[derive(Debug, Clone)]
pub enum CacheBackend {
    /// No disk tier.
    MemoryOnly,
    /// Files under a directory.
    File(String),
    /// A raw device.
    RawDisk(RawDiskCacheConfig),
}

fn config_error(msg: &str) -> (e: SliceError)
    ensures
        e is ConfigError,
{
    let mut m = String::new();
    string_push_str(&mut m, msg);
    SliceError::ConfigError(m)
}

impl SliceConfig {
    /// The default configuration: 1 MiB slices, 4 concurrent subrequests, 3
    /// retries, every URL sliced, caching on for an hour with a 100 MiB memory
    /// tier and a file disk tier under `/var/cache/pingora-slice`, origin at
    /// `127.0.0.1:8080`.
    pub fn default_config() -> (c: SliceConfig)
        ensures
            c.slice_size == 1048576,
            c.max_concurrent_subrequests == 4,
            c.max_retries == 3,
            c.slice_patterns@.len() == 0,
            c.enable_cache,
            c.cache_ttl == 3600,
            c.l1_cache_size_bytes == 104857600,
            c.l2_cache_dir@ == "/var/cache/pingora-slice"@,
            c.enable_l2_cache,
            c.l2_backend@ == "file"@,
            c.raw_disk_cache is None,
            c.upstream_address@ == "127.0.0.1:8080"@,
    {
        let mut upstream_address = String::new();
        string_push_str(&mut upstream_address, "127.0.0.1:8080");
        let mut l2_cache_dir = String::new();
        string_push_str(&mut l2_cache_dir, "/var/cache/pingora-slice");
        let mut l2_backend = String::new();
        string_push_str(&mut l2_backend, "file");
        SliceConfig {
            slice_size: 1048576,
            max_concurrent_subrequests: 4,
            max_retries: 3,
            slice_patterns: Vec::new(),
            enable_cache: true,
            cache_ttl: 3600,
            l1_cache_size_bytes: 104857600,
            l2_cache_dir,
            enable_l2_cache: true,
            l2_backend,
            raw_disk_cache: None,
            upstream_address,
        }
    }

    /// Checks the rules of a configuration; `ConfigError` names the first
    /// one broken.
    pub fn validate(&self) -> (r: Result<(), SliceError>)
        ensures
            r is Ok <==> config_valid(*self),
            r matches Err(e) ==> e is ConfigError,
    {
        if self.slice_size < MIN_SLICE_SIZE || self.slice_size > MAX_SLICE_SIZE {
            return Err(config_error("slice_size must be between 64KB and 10MB"));
        }
        if self.max_concurrent_subrequests == 0 {
            return Err(config_error("max_concurrent_subrequests must be greater than 0"));
        }
        if self.enable_cache && self.cache_ttl == 0 {
            return Err(config_error("cache_ttl must be greater than 0 when caching is enabled"));
        }
        Ok(())
    }

    /// The disk-tier backend that the configuration names: none when the
    /// disk tier is off, else `file` or `raw_disk` (which needs its
    /// settings); any other name is a `ConfigError`.
    pub fn cache_backend(&self) -> (r: Result<CacheBackend, SliceError>)
        ensures
            !self.enable_l2_cache ==> r matches Ok(CacheBackend::MemoryOnly),
            self.enable_l2_cache && self.l2_backend@ == "file"@ ==> (r matches Ok(CacheBackend::File(d)) && d@
                == self.l2_cache_dir@),
            self.enable_l2_cache && self.l2_backend@ == "raw_disk"@ ==> (match self.raw_disk_cache {
                Some(c) => (r matches Ok(CacheBackend::RawDisk(d)) && d.device_path@ == c.device_path@
                    && d.total_size == c.total_size && d.block_size == c.block_size && d.use_direct_io
                    == c.use_direct_io && d.enable_compression == c.enable_compression && d.enable_prefetch
                    == c.enable_prefetch && d.enable_zero_copy == c.enable_zero_copy),
                None => (r matches Err(e) && e is ConfigError),
            }),
            self.enable_l2_cache && self.l2_backend@ != "file"@ && self.l2_backend@ != "raw_disk"@ ==> (r matches Err(
                e,
            ) && e is ConfigError),
    {
        if !self.enable_l2_cache {
            return Ok(CacheBackend::MemoryOnly);
        }
        proof {
            reveal_strlit("file");
            reveal_strlit("raw_disk");
            assert("file"@.len() != "raw_disk"@.len());
        }
        if crate::assoc::str_eq(self.l2_backend.as_str(), "raw_disk") {
            match &self.raw_disk_cache {
                Some(c) => {
                    let mut device_path = String::new();
                    string_push_str(&mut device_path, c.device_path.as_str());
                    Ok(
                        CacheBackend::RawDisk(
                            RawDiskCacheConfig {
                                device_path,
                                total_size: c.total_size,
                                block_size: c.block_size,
                                use_direct_io: c.use_direct_io,
                                enable_compression: c.enable_compression,
                                enable_prefetch: c.enable_prefetch,
                                enable_zero_copy: c.enable_zero_copy,
                            },
                        ),
                    )
                },
                None => Err(config_error("raw disk backend selected but no raw_disk_cache settings given")),
            }
        } else if crate::assoc::str_eq(self.l2_backend.as_str(), "file") {
            let mut dir = String::new();
            string_push_str(&mut dir, self.l2_cache_dir.as_str());
            Ok(CacheBackend::File(dir))
        } else {
            Err(config_error("invalid L2 backend type"))
        }
    }
}

} // verus!
