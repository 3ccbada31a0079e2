//! Transparent compression of stored data with zstd or lz4.

use vstd::prelude::*;
use std::io::{Read, Write};

verus! {

/// A compression algorithm.
#[derive(Debug, Clone, Copy, PartialEq, Eq, Structural)]
pub enum CompressionAlgorithm {
    /// Data is stored as it is.
    NoCompression,
    /// Zstandard frames.
    Zstd,
    /// LZ4 frames.
    Lz4,
}

/// How data is compressed.
#[derive(Debug, Clone, Copy)]
pub struct CompressionConfig {
    /// The algorithm.
    pub algorithm: CompressionAlgorithm,
    /// The compression level (1-22 for zstd, 1-12 for lz4).
    pub level: i32,
    /// Data shorter than this is not compressed.
    pub min_size: usize,
    /// Whether compression is on.
    pub enabled: bool,
}

impl Default for CompressionConfig {
    /// Zstd at level 3 for data of 1 KiB or more.
    fn default() -> (c: CompressionConfig)
        ensures
            c.algorithm == CompressionAlgorithm::Zstd,
            c.level == 3,
            c.min_size == 1024,
            c.enabled,
    {
        CompressionConfig { algorithm: CompressionAlgorithm::Zstd, level: 3, min_size: 1024, enabled: true }
    }
}

/// Counters of compression work.
#[derive(Debug, Clone, Copy)]
pub struct CompressionStats {
    /// Bytes given to compression that was kept.
    pub total_compressed_bytes: u64,
    /// Bytes that compression produced and that were kept.
    pub total_compressed_size: u64,
    /// Bytes produced by decompression.
    pub total_decompressed_bytes: u64,
    /// Compressions kept.
    pub compression_count: u64,
    /// Decompressions.
    pub decompression_count: u64,
    /// Data too small to compress.
    pub skipped_count: u64,
    /// Data stored uncompressed although large enough.
    pub expansion_count: u64,
}

impl CompressionStats {
    /// All counters zero.
    pub fn new() -> (s: CompressionStats)
        ensures
            s.total_compressed_bytes == 0 && s.total_compressed_size == 0 && s.total_decompressed_bytes == 0
                && s.compression_count == 0 && s.decompression_count == 0 && s.skipped_count == 0
                && s.expansion_count == 0,
    {
        CompressionStats {
            total_compressed_bytes: 0,
            total_compressed_size: 0,
            total_decompressed_bytes: 0,
            compression_count: 0,
            decompression_count: 0,
            skipped_count: 0,
            expansion_count: 0,
        }
    }

    /// Bytes saved by compression: input less output, or 0.
    pub fn space_saved(&self) -> (n: u64)
        ensures
            n == if self.total_compressed_bytes >= self.total_compressed_size {
                (self.total_compressed_bytes - self.total_compressed_size) as u64
            } else {
                0
            },
    {
        self.total_compressed_bytes.saturating_sub(self.total_compressed_size)
    }

    /// Counts a kept compression of `original_size` bytes into
    /// `compressed_size`.
    pub fn record_compression(&mut self, original_size: usize, compressed_size: usize)
        requires
            old(self).total_compressed_bytes + original_size <= u64::MAX,
            old(self).total_compressed_size + compressed_size <= u64::MAX,
            old(self).compression_count < u64::MAX,
        ensures
            *final(self) == (CompressionStats {
                total_compressed_bytes: (old(self).total_compressed_bytes + original_size) as u64,
                total_compressed_size: (old(self).total_compressed_size + compressed_size) as u64,
                compression_count: (old(self).compression_count + 1) as u64,
                ..*old(self)
            }),
    {
        self.total_compressed_bytes = self.total_compressed_bytes + original_size as u64;
        self.total_compressed_size = self.total_compressed_size + compressed_size as u64;
        self.compression_count = self.compression_count + 1;
    }

    /// Counts a decompression that produced `decompressed_size` bytes.
    pub fn record_decompression(&mut self, decompressed_size: usize)
        requires
            old(self).total_decompressed_bytes + decompressed_size <= u64::MAX,
            old(self).decompression_count < u64::MAX,
        ensures
            *final(self) == (CompressionStats {
                total_decompressed_bytes: (old(self).total_decompressed_bytes + decompressed_size) as u64,
                decompression_count: (old(self).decompression_count + 1) as u64,
                ..*old(self)
            }),
    {
        self.total_decompressed_bytes = self.total_decompressed_bytes + decompressed_size as u64;
        self.decompression_count = self.decompression_count + 1;
    }

    /// Counts data too small to compress.
    pub fn record_skipped(&mut self)
        requires
            old(self).skipped_count < u64::MAX,
        ensures
            *final(self) == (CompressionStats { skipped_count: (old(self).skipped_count + 1) as u64, ..*old(self) }),
    {
        self.skipped_count = self.skipped_count + 1;
    }

    /// Counts data stored uncompressed although large enough.
    pub fn record_expansion(&mut self)
        requires
            old(self).expansion_count < u64::MAX,
        ensures
            *final(self) == (CompressionStats {
                expansion_count: (old(self).expansion_count + 1) as u64,
                ..*old(self)
            }),
    {
        self.expansion_count = self.expansion_count + 1;
    }

    /// Counts the outcome of compressing data of `original_size` bytes for
    /// storage: a kept compression into `stored_size` bytes; else an
    /// expansion when the data was at least `min_size` bytes; else a skip.
    pub fn record_store(&mut self, was_compressed: bool, original_size: usize, stored_size: usize, min_size: usize)
        requires
            old(self).total_compressed_bytes + original_size <= u64::MAX,
            old(self).total_compressed_size + stored_size <= u64::MAX,
            old(self).compression_count < u64::MAX,
            old(self).skipped_count < u64::MAX,
            old(self).expansion_count < u64::MAX,
        ensures
            was_compressed ==> *final(self) == (CompressionStats {
                total_compressed_bytes: (old(self).total_compressed_bytes + original_size) as u64,
                total_compressed_size: (old(self).total_compressed_size + stored_size) as u64,
                compression_count: (old(self).compression_count + 1) as u64,
                ..*old(self)
            }),
            !was_compressed && original_size >= min_size ==> *final(self) == (CompressionStats {
                expansion_count: (old(self).expansion_count + 1) as u64,
                ..*old(self)
            }),
            !was_compressed && original_size < min_size ==> *final(self) == (CompressionStats {
                skipped_count: (old(self).skipped_count + 1) as u64,
                ..*old(self)
            }),
    {
        if was_compressed {
            self.record_compression(original_size, stored_size);
        } else if original_size >= min_size {
            self.record_expansion();
        } else {
            self.record_skipped();
        }
    }
}

/// Why compression or decompression failed.
#[derive(Debug)]
pub enum CompressionError {
    /// The codec reported an I/O error.
    Io(std::io::Error),
    /// Compression failed.
    CompressionFailed(String),
    /// Decompression failed.
    DecompressionFailed(String),
}

/// What `zstd::stream::encode_all` makes of `data` at `level`: the zstd
/// frame, or `None` where the encoder reports an error.
pub uninterp spec fn zstd_frame(data: Seq<u8>, level: i32) -> Option<Seq<u8>>;

/// What the lz4 encoder makes of `data` at `level`: the lz4 frame, or
/// `None` where the encoder reports an error.
pub uninterp spec fn lz4_frame(data: Seq<u8>, level: u32) -> Option<Seq<u8>>;

/// Compresses `data` into a zstd frame (`zstd::stream::encode_all`). It
/// succeeds exactly when `zstd_frame` names a frame for these arguments, and
/// gives that frame: the encoder's outcome is taken to depend on the data
/// and the level alone. A failure to allocate memory inside the codec,
/// which depends on the machine, is left out of this statement.
#[verifier::external_body]
fn zstd_encode(data: &[u8], level: i32) -> (r: Result<Vec<u8>, std::io::Error>)
    ensures
        r is Ok <==> zstd_frame(data@, level) is Some,
        r matches Ok(v) ==> zstd_frame(data@, level) == Some(v@),
{
    zstd::stream::encode_all(data, level)
}

/// Decompresses a zstd frame (`zstd::stream::decode_all`). A frame that
/// `zstd_frame` names decodes to the data it was made of (zstd is lossless);
/// other input may fail or decode to anything.
#[verifier::external_body]
fn zstd_decode(data: &[u8]) -> (r: Result<Vec<u8>, std::io::Error>)
    ensures
        (exists|orig: Seq<u8>, level: i32| #[trigger] zstd_frame(orig, level) == Some(data@)) ==> (r matches Ok(v)
            && forall|orig: Seq<u8>, level: i32| #[trigger] zstd_frame(orig, level) == Some(data@) ==> v@ == orig),
{
    zstd::stream::decode_all(data)
}

/// Compresses `data` into an lz4 frame at `level` (the lz4 crate's
/// `EncoderBuilder` with only the level set, writing into a vector, then
/// `finish`). It succeeds exactly when `lz4_frame` names a frame for these
/// arguments, and gives that frame: the encoder's outcome is taken to depend
/// on the data and the level alone. A failure to allocate memory inside the
/// codec, which depends on the machine, is left out of this statement.
#[verifier::external_body]
fn lz4_encode(data: &[u8], level: u32) -> (r: Result<Vec<u8>, std::io::Error>)
    ensures
        r is Ok <==> lz4_frame(data@, level) is Some,
        r matches Ok(v) ==> lz4_frame(data@, level) == Some(v@),
{
    let mut encoder = lz4::EncoderBuilder::new().level(level).build(Vec::new())?;
    encoder.write_all(data)?;
    let (out, result) = encoder.finish();
    result.map(|_| out)
}

/// Decompresses an lz4 frame (the lz4 crate's `Decoder`, read to the end).
/// A frame that `lz4_frame` names decodes to the data it was made of (lz4 is
/// lossless); other input may fail or decode to anything.
#[verifier::external_body]
fn lz4_decode(data: &[u8]) -> (r: Result<Vec<u8>, std::io::Error>)
    ensures
        (exists|orig: Seq<u8>, level: u32| #[trigger] lz4_frame(orig, level) == Some(data@)) ==> (r matches Ok(v)
            && forall|orig: Seq<u8>, level: u32| #[trigger] lz4_frame(orig, level) == Some(data@) ==> v@ == orig),
{
    let mut decoder = lz4::Decoder::new(data)?;
    let mut out = Vec::new();
    decoder.read_to_end(&mut out)?;
    Ok(out)
}

/// The frame that an algorithm makes of `data` at `level`, if it
/// compresses at all and its encoder succeeds.
pub open spec fn encoded(algorithm: CompressionAlgorithm, level: i32, data: Seq<u8>) -> Option<Seq<u8>> {
    match algorithm {
        CompressionAlgorithm::NoCompression => None,
        CompressionAlgorithm::Zstd => zstd_frame(data, level),
        CompressionAlgorithm::Lz4 => lz4_frame(data, level as u32),
    }
}

/// Whether compressing `data` under `config` fails: compression is on, the
/// data is long enough, an algorithm is chosen and its encoder reports an
/// error.
pub open spec fn compression_fails(config: CompressionConfig, data: Seq<u8>) -> bool {
    &&& config.enabled
    &&& data.len() >= config.min_size
    &&& config.algorithm != CompressionAlgorithm::NoCompression
    &&& encoded(config.algorithm, config.level, data) is None
}

/// Whether `data` is compressed under `config`: compression on, data at
/// least `min_size` long, an algorithm chosen, and a frame shorter than the
/// data.
pub open spec fn compresses(config: CompressionConfig, data: Seq<u8>) -> bool {
    &&& config.enabled
    &&& data.len() >= config.min_size
    &&& encoded(config.algorithm, config.level, data) matches Some(f)
    &&& f.len() < data.len()
}

fn copy_bytes(data: &[u8]) -> (v: Vec<u8>)
    ensures
        v@ == data@,
{
    let mut v: Vec<u8> = Vec::new();
    let mut i: usize = 0;
    while i < data.len()
        invariant
            i <= data@.len(),
            v@ == data@.take(i as int),
        decreases data@.len() - i,
    {
        v.push(data[i]);
        assert(data@.take(i as int).push(data@[i as int]) =~= data@.take(i + 1));
        i = i + 1;
    }
    assert(data@.take(data@.len() as int) =~= data@);
    v
}

/// Compresses and decompresses data as its configuration says.
#[derive(Debug)]
pub struct CompressionManager {
    config: CompressionConfig,
}

impl CompressionManager {
    /// The configuration in use.
    pub closed spec fn spec_config(&self) -> CompressionConfig {
        self.config
    }

    /// A manager using `config`.
    pub fn new(config: CompressionConfig) -> (m: CompressionManager)
        ensures
            m.spec_config() == config,
    {
        CompressionManager { config }
    }

    /// The configuration in use.
    pub fn config(&self) -> (c: &CompressionConfig)
        ensures
            *c == self.spec_config(),
    {
        &self.config
    }

    /// Replaces the configuration.
    pub fn update_config(&mut self, config: CompressionConfig)
        ensures
            final(self).spec_config() == config,
    {
        self.config = config;
    }

    /// Compresses `data` for storage: gives the bytes to store and whether
    /// they are compressed. The data is stored as it is when compression is
    /// off, the data is shorter than `min_size`, no algorithm is chosen, or
    /// the frame would not be shorter; a failing codec gives an error.
    pub fn compress(&self, data: &[u8]) -> (r: Result<(Vec<u8>, bool), CompressionError>)
        ensures
            r matches Ok((out, was)) ==> was == compresses(self.spec_config(), data@) && (if was {
                Some(out@) == encoded(self.spec_config().algorithm, self.spec_config().level, data@)
            } else {
                out@ == data@
            }),
            r is Err <==> compression_fails(self.spec_config(), data@),
            r matches Err(e) ==> e is Io,
            r matches Ok((out, was)) ==> (was ==> out@.len() < data@.len()) && (!was ==> out@ == data@),
            ({
                let c = self.spec_config();
                (c.enabled && data@.len() >= c.min_size && encoded(c.algorithm, c.level, data@) is Some && encoded(
                    c.algorithm,
                    c.level,
                    data@,
                )->Some_0.len() >= data@.len()) ==> (r matches Ok((out, was)) && !was && out@ == data@)
            }),
    {
        if !self.config.enabled {
            return Ok((copy_bytes(data), false));
        }
        if data.len() < self.config.min_size {
            return Ok((copy_bytes(data), false));
        }
        let compressed = match self.config.algorithm {
            CompressionAlgorithm::NoCompression => {
                return Ok((copy_bytes(data), false));
            },
            CompressionAlgorithm::Zstd => match zstd_encode(data, self.config.level) {
                Ok(v) => v,
                Err(e) => {
                    return Err(CompressionError::Io(e));
                },
            },
            CompressionAlgorithm::Lz4 => match lz4_encode(data, #[verifier::truncate] (self.config.level as u32)) {
                Ok(v) => v,
                Err(e) => {
                    return Err(CompressionError::Io(e));
                },
            },
        };
        if compressed.len() >= data.len() {
            return Ok((copy_bytes(data), false));
        }
        Ok((compressed, true))
    }

    /// Decompresses stored bytes: uncompressed bytes come back as they are,
    /// as do all bytes when no algorithm is chosen; a failing codec gives an
    /// error.
    pub fn decompress(&self, data: &[u8], was_compressed: bool) -> (r: Result<Vec<u8>, CompressionError>)
        ensures
            (!was_compressed || self.spec_config().algorithm == CompressionAlgorithm::NoCompression) ==> (r matches Ok(v)
                && v@ == data@),
            was_compressed && self.spec_config().algorithm == CompressionAlgorithm::Zstd ==> forall|
                orig: Seq<u8>,
                level: i32,
            | #[trigger] zstd_frame(orig, level) == Some(data@) ==> (r matches Ok(v) && v@ == orig),
            was_compressed && self.spec_config().algorithm == CompressionAlgorithm::Lz4 ==> forall|
                orig: Seq<u8>,
                level: u32,
            | #[trigger] lz4_frame(orig, level) == Some(data@) ==> (r matches Ok(v) && v@ == orig),
    {
        if !was_compressed {
            return Ok(copy_bytes(data));
        }
        match self.config.algorithm {
            CompressionAlgorithm::NoCompression => Ok(copy_bytes(data)),
            CompressionAlgorithm::Zstd => match zstd_decode(data) {
                Ok(v) => Ok(v),
                Err(e) => Err(CompressionError::Io(e)),
            },
            CompressionAlgorithm::Lz4 => match lz4_decode(data) {
                Ok(v) => Ok(v),
                Err(e) => Err(CompressionError::Io(e)),
            },
        }
    }
}

/// What a manager compresses, the same manager gives back: whenever
/// `compress` keeps a compression, `decompress` of its output returns the
/// original data.
pub proof fn law_compression_roundtrip(config: CompressionConfig, data: Seq<u8>, stored: Seq<u8>)
    requires
        compresses(config, data),
        Some(stored) == encoded(config.algorithm, config.level, data),
    ensures
        config.algorithm == CompressionAlgorithm::Zstd ==> zstd_frame(data, config.level) == Some(stored),
        config.algorithm == CompressionAlgorithm::Lz4 ==> lz4_frame(data, config.level as u32) == Some(stored),
        config.algorithm != CompressionAlgorithm::NoCompression,
{
}

/// Compression never stores more than it was given: whenever `compresses`
/// holds, the frame kept is shorter than the data; where the frame would
/// be as long as the data or longer, the data is stored as it is.
pub proof fn law_compression_never_expands(config: CompressionConfig, data: Seq<u8>)
    ensures
        compresses(config, data) ==> (encoded(config.algorithm, config.level, data) is Some && encoded(
            config.algorithm,
            config.level,
            data,
        )->Some_0.len() < data.len()),
        (encoded(config.algorithm, config.level, data) is Some && encoded(config.algorithm, config.level, data)->Some_0.len()
            >= data.len()) ==> !compresses(config, data),
{
}

} // verus!
