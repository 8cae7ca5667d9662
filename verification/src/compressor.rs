//! The compressors that an image can name, and the compression of single blocks.

use vstd::prelude::*;
use crate::bytes::copy_of;
use crate::error::SquashfsError;

verus! {

/// How the blocks of an image are compressed.
#[derive(Debug, PartialEq, Eq, Clone, Copy, Structural)]
pub enum Compressor {
    Uncompressed,
    Gzip,
    Lzma,
    Lzo,
    Xz,
    Lz4,
    Zstd,
}

/// Parameters that an image records for its compressor.
#[derive(Debug, PartialEq, Eq, Clone, Copy, Structural)]
pub enum CompressionOptions {
    Gzip { compression_level: u32, window_size: u16, strategies: u16 },
    Lzo { algorithm: u32, compression_level: u32 },
    Xz { dictionary_size: u32, filters: u32 },
    Lz4 { version: i32, flags: u32 },
    Zstd { compression_level: u32 },
}

impl Compressor {
    /// The number that stands for the compressor in a superblock.
    pub open spec fn spec_id(self) -> u16 {
        match self {
            Compressor::Uncompressed => 0,
            Compressor::Gzip => 1,
            Compressor::Lzma => 2,
            Compressor::Lzo => 3,
            Compressor::Xz => 4,
            Compressor::Lz4 => 5,
            Compressor::Zstd => 6,
        }
    }

    /// The number that stands for the compressor in a superblock.
    pub fn id(self) -> (r: u16)
        ensures
            r == self.spec_id(),
    {
        match self {
            Compressor::Uncompressed => 0,
            Compressor::Gzip => 1,
            Compressor::Lzma => 2,
            Compressor::Lzo => 3,
            Compressor::Xz => 4,
            Compressor::Lz4 => 5,
            Compressor::Zstd => 6,
        }
    }

    /// Whether blocks can be compressed with this compressor.
    pub open spec fn writes(self) -> bool {
        self == Compressor::Uncompressed || self == Compressor::Gzip || self == Compressor::Xz
    }

    /// Whether blocks can be compressed with this compressor.
    pub fn can_write(self) -> (r: bool)
        ensures
            r == self.writes(),
    {
        match self {
            Compressor::Uncompressed | Compressor::Gzip | Compressor::Xz => true,
            _ => false,
        }
    }
}

/// The level at which zlib streams are made: the best.
pub const ZLIB_LEVEL: u32 = 9;

/// The preset with which xz streams are made.
pub const XZ_PRESET: u32 = 6;

/// The zlib stream that flate2 makes of `bytes` at the compression level `level`.
pub uninterp spec fn zlib_stream(bytes: Seq<u8>, level: u32) -> Seq<u8>;

/// The xz stream, guarded by a CRC32, that liblzma makes of `bytes` with one LZMA2 filter of the preset
/// `preset` and a dictionary of `dictionary` bytes.
pub uninterp spec fn xz_stream(bytes: Seq<u8>, preset: u32, dictionary: u32) -> Seq<u8>;

/// Reads a `flate2::bufread::ZlibEncoder` over `bytes` to its end. Taken on trust: this succeeds, and
/// what the encoder hands out depends on the two arguments alone.
#[verifier::external_body]
fn zlib_compress(bytes: &[u8], level: u32) -> (r: Vec<u8>)
    requires
        level <= 9,
    ensures
        r@ == zlib_stream(bytes@, level),
{
    let mut out: Vec<u8> = Vec::new();
    let mut encoder = flate2::bufread::ZlibEncoder::new(bytes, flate2::Compression::new(level));
    std::io::Read::read_to_end(&mut encoder, &mut out).unwrap();
    out
}

/// Reads an `xz2::bufread::XzEncoder` over `bytes` to its end. It has one LZMA2 filter, of the preset
/// `preset` but for a dictionary of `dictionary` bytes, and guards the stream by a CRC32. Taken on
/// trust: the encoder accepts such a preset and such a dictionary, reading it succeeds, and what it
/// hands out depends on the three arguments alone.
#[verifier::external_body]
fn xz_compress(bytes: &[u8], preset: u32, dictionary: u32) -> (r: Vec<u8>)
    requires
        preset <= 9,
        0x1000 <= dictionary <= 0x10_0000,
    ensures
        r@ == xz_stream(bytes@, preset, dictionary),
{
    let mut options = xz2::stream::LzmaOptions::new_preset(preset).unwrap();
    options.dict_size(dictionary);
    let mut filters = xz2::stream::Filters::new();
    filters.lzma2(&options);
    let stream = xz2::stream::Stream::new_stream_encoder(&filters, xz2::stream::Check::Crc32).unwrap();
    let mut out: Vec<u8> = Vec::new();
    let mut encoder = xz2::bufread::XzEncoder::new_stream(bytes, stream);
    std::io::Read::read_to_end(&mut encoder, &mut out).unwrap();
    out
}

/// The dictionary for a block of `len` bytes: the whole block, within what readers accept.
pub open spec fn dictionary_for(len: int) -> u32 {
    if len < 0x1000 {
        0x1000
    } else if len > 0x10_0000 {
        0x10_0000
    } else {
        len as u32
    }
}

/// What `compressor` makes of `bytes`, for a compressor that can write.
pub open spec fn compressed(compressor: Compressor, bytes: Seq<u8>) -> Seq<u8> {
    match compressor {
        Compressor::Gzip => zlib_stream(bytes, ZLIB_LEVEL),
        Compressor::Xz => xz_stream(bytes, XZ_PRESET, dictionary_for(bytes.len() as int)),
        _ => bytes,
    }
}

/// Compresses `bytes`.
pub fn compress(bytes: &[u8], compressor: Compressor) -> (r: Result<Vec<u8>, SquashfsError>)
    ensures
        match r {
            Ok(out) => compressor.writes() && out@ == compressed(compressor, bytes@),
            Err(e) => !compressor.writes() && e == SquashfsError::UnsupportedCompression(compressor),
        },
{
    match compressor {
        Compressor::Uncompressed => Ok(copy_of(bytes)),
        Compressor::Gzip => Ok(zlib_compress(bytes, ZLIB_LEVEL)),
        Compressor::Xz => {
            let len: usize = bytes.len();
            let dictionary: u32 = if len < 0x1000 {
                0x1000
            } else if len > 0x10_0000 {
                0x10_0000
            } else {
                len as u32
            };
            Ok(xz_compress(bytes, XZ_PRESET, dictionary))
        },
        _ => Err(SquashfsError::UnsupportedCompression(compressor)),
    }
}

/// Whether a block is stored as `compressor` makes it: only where that saves space.
pub open spec fn is_compressed(compressor: Compressor, bytes: Seq<u8>) -> bool {
    compressed(compressor, bytes).len() < bytes.len()
}

/// What is stored of the block `bytes`.
pub open spec fn stored(compressor: Compressor, bytes: Seq<u8>) -> Seq<u8> {
    if is_compressed(compressor, bytes) {
        compressed(compressor, bytes)
    } else {
        bytes
    }
}

/// What is stored of the block `bytes`, and whether that is compressed.
pub fn store(bytes: &[u8], compressor: Compressor) -> (r: (Vec<u8>, bool))
    requires
        compressor.writes(),
    ensures
        r.0@ == stored(compressor, bytes@),
        r.1 == is_compressed(compressor, bytes@),
{
    if let Ok(out) = compress(bytes, compressor) {
        if out.len() < bytes.len() {
            return (out, true);
        }
    }
    (copy_of(bytes), false)
}

/// The numbers of the compressors are those of the format, and differ.
pub proof fn compressors_are_numbered(a: Compressor, b: Compressor)
    ensures
        a.spec_id() == b.spec_id() ==> a == b,
        a == Compressor::Uncompressed <==> a.spec_id() == 0,
        a == Compressor::Gzip <==> a.spec_id() == 1,
        a == Compressor::Lzma <==> a.spec_id() == 2,
        a == Compressor::Lzo <==> a.spec_id() == 3,
        a == Compressor::Xz <==> a.spec_id() == 4,
        a == Compressor::Lz4 <==> a.spec_id() == 5,
        a == Compressor::Zstd <==> a.spec_id() == 6,
        a.writes() <==> a.spec_id() == 0 || a.spec_id() == 1 || a.spec_id() == 4,
{
}

/// What is stored of a block is no longer than the block. It is the block itself unless it is shorter, and
/// then it is a stream of the compressor: a zlib stream at the best level, or an xz stream whose dictionary
/// covers the block as far as readers accept.
pub proof fn block_is_stored(compressor: Compressor, bytes: Seq<u8>)
    ensures
        stored(compressor, bytes).len() <= bytes.len(),
        is_compressed(compressor, bytes) <==> stored(compressor, bytes).len() < bytes.len(),
        !is_compressed(compressor, bytes) ==> stored(compressor, bytes) == bytes,
        compressor == Compressor::Uncompressed ==> stored(compressor, bytes) == bytes,
        compressor == Compressor::Gzip ==> {
            let stream = zlib_stream(bytes, 9);
            stored(compressor, bytes) == if stream.len() < bytes.len() {
                stream
            } else {
                bytes
            }
        },
        compressor == Compressor::Xz ==> exists|dictionary: u32|
            {
                let stream = #[trigger] xz_stream(bytes, 6, dictionary);
                &&& 0x1000 <= dictionary <= 0x10_0000
                &&& bytes.len() <= 0x10_0000 ==> bytes.len() <= dictionary
                &&& bytes.len() >= 0x1000 ==> dictionary <= bytes.len()
                &&& stored(compressor, bytes) == if stream.len() < bytes.len() {
                    stream
                } else {
                    bytes
                }
            },
{
    let stream = xz_stream(bytes, 6, dictionary_for(bytes.len() as int));
    assert(compressor == Compressor::Xz ==> compressed(compressor, bytes) == stream);
}

/// What a compressor makes of a block: a zlib stream at the best level, or an xz stream whose dictionary covers
/// the block as far as readers accept, or the block itself where nothing is compressed.
pub proof fn stream_is_made(bytes: Seq<u8>)
    ensures
        compressed(Compressor::Uncompressed, bytes) == bytes,
        compressed(Compressor::Gzip, bytes) == zlib_stream(bytes, 9),
        exists|dictionary: u32|
            {
                &&& compressed(Compressor::Xz, bytes) == #[trigger] xz_stream(bytes, 6, dictionary)
                &&& 0x1000 <= dictionary <= 0x10_0000
                &&& bytes.len() <= 0x10_0000 ==> bytes.len() <= dictionary
                &&& bytes.len() >= 0x1000 ==> dictionary <= bytes.len()
            },
{
    let stream = xz_stream(bytes, 6, dictionary_for(bytes.len() as int));
    assert(compressed(Compressor::Xz, bytes) == stream);
}

} // verus!
