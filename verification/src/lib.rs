//! Slicing proxy library: splits large file requests into range requests,
//! assembles the slices, and caches them in memory and on a raw disk.

pub mod assoc;
pub mod clock;
pub mod config;
pub mod error;
pub mod headers;
pub mod models;
pub mod slice_calculator;
pub mod streaming_proxy;
pub mod subrequest_manager;
pub mod raw_disk;
pub mod request_analyzer;
pub mod response_assembler;
pub mod text;
pub mod tiered_cache;

