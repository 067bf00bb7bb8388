//! The two block compressors of a Bedrock database, over the `miniz_oxide` crate.

use vstd::prelude::*;

verus! {

/// What `miniz_oxide::deflate::compress_to_vec_zlib` makes of data at a level.
pub uninterp spec fn zlib_bytes(data: Seq<u8>, level: u8) -> Seq<u8>;

/// What `miniz_oxide::deflate::compress_to_vec` makes of data at a level.
pub uninterp spec fn deflate_bytes(data: Seq<u8>, level: u8) -> Seq<u8>;

/// What `miniz_oxide::inflate::decompress_to_vec_zlib` makes of data: the content, or the text
/// of an error.
pub uninterp spec fn unzlib_bytes(data: Seq<u8>) -> Result<Seq<u8>, Seq<char>>;

/// What `miniz_oxide::inflate::decompress_to_vec` makes of data: the content, or the text of an
/// error.
pub uninterp spec fn inflate_bytes(data: Seq<u8>) -> Result<Seq<u8>, Seq<char>>;

/// What a decompressor returned.
pub open spec fn content_view(r: Result<Vec<u8>, String>) -> Result<Seq<u8>, Seq<char>> {
    match r {
        Ok(v) => Ok(v@),
        Err(e) => Err(e@),
    }
}

/// Data that was restored.
pub open spec fn restored(data: Seq<u8>) -> Result<Seq<u8>, Seq<char>> {
    Ok(data)
}

/// `miniz_oxide::deflate::compress_to_vec_zlib`, for the levels that it knows. Decompression
/// with the zlib wrapper restores the data.
#[verifier::external_body]
pub(crate) fn compress_zlib(data: &[u8], level: u8) -> (r: Vec<u8>)
    requires
        level <= 10,
    ensures
        r@ == zlib_bytes(data@, level),
        unzlib_bytes(r@) == restored(data@),
{
    miniz_oxide::deflate::compress_to_vec_zlib(data, level)
}

/// `miniz_oxide::deflate::compress_to_vec`, for the levels that it knows. Decompression restores
/// the data.
#[verifier::external_body]
pub(crate) fn compress_deflate(data: &[u8], level: u8) -> (r: Vec<u8>)
    requires
        level <= 10,
    ensures
        r@ == deflate_bytes(data@, level),
        inflate_bytes(r@) == restored(data@),
{
    miniz_oxide::deflate::compress_to_vec(data, level)
}

/// `miniz_oxide::inflate::decompress_to_vec_zlib`, with an error as its text.
#[verifier::external_body]
pub(crate) fn decompress_zlib(data: &[u8]) -> (r: Result<Vec<u8>, String>)
    ensures
        content_view(r) == unzlib_bytes(data@),
{
    miniz_oxide::inflate::decompress_to_vec_zlib(data).map_err(|e| e.to_string())
}

/// `miniz_oxide::inflate::decompress_to_vec`, with an error as its text.
#[verifier::external_body]
pub(crate) fn decompress_deflate(data: &[u8]) -> (r: Result<Vec<u8>, String>)
    ensures
        content_view(r) == inflate_bytes(data@),
{
    miniz_oxide::inflate::decompress_to_vec(data).map_err(|e| e.to_string())
}

/// Compression with a zlib wrapper.
pub struct ZlibCompressor {
    level: u8,
}

impl ZlibCompressor {
    /// The level at which blocks are compressed.
    pub closed spec fn level(self) -> u8 {
        self.level
    }

    /// Whether the level is one that the compression knows.
    pub open spec fn wf(self) -> bool {
        self.level() <= 10
    }

    /// A compressor at a level.
    pub fn new(level: u8) -> (r: ZlibCompressor)
        requires
            level <= 10,
        ensures
            r.wf(),
            r.level() == level,
    {
        ZlibCompressor { level }
    }

    /// Compresses a block. Decoding restores it.
    pub fn encode(&self, block: Vec<u8>) -> (r: Vec<u8>)
        requires
            self.wf(),
        ensures
            r@ == zlib_bytes(block@, self.level()),
            unzlib_bytes(r@) == restored(block@),
    {
        compress_zlib(block.as_slice(), self.level)
    }

    /// Decompresses a block.
    pub fn decode(&self, block: Vec<u8>) -> (r: Result<Vec<u8>, String>)
        ensures
            content_view(r) == unzlib_bytes(block@),
    {
        decompress_zlib(block.as_slice())
    }
}

/// Compression without a wrapper.
pub struct RawZlibCompressor {
    level: u8,
}

impl RawZlibCompressor {
    /// The level at which blocks are compressed.
    pub closed spec fn level(self) -> u8 {
        self.level
    }

    /// Whether the level is one that the compression knows.
    pub open spec fn wf(self) -> bool {
        self.level() <= 10
    }

    /// A compressor at a level.
    pub fn new(level: u8) -> (r: RawZlibCompressor)
        requires
            level <= 10,
        ensures
            r.wf(),
            r.level() == level,
    {
        RawZlibCompressor { level }
    }

    /// Compresses a block. Decoding restores it.
    pub fn encode(&self, block: Vec<u8>) -> (r: Vec<u8>)
        requires
            self.wf(),
        ensures
            r@ == deflate_bytes(block@, self.level()),
            inflate_bytes(r@) == restored(block@),
    {
        compress_deflate(block.as_slice(), self.level)
    }

    /// Decompresses a block.
    pub fn decode(&self, block: Vec<u8>) -> (r: Result<Vec<u8>, String>)
        ensures
            content_view(r) == inflate_bytes(block@),
    {
        decompress_deflate(block.as_slice())
    }
}

} // verus!
