//! Transparent block compression: each stored block is framed by a one-byte
//! marker (0 = stored as is, 1 = Zstd, 2 = Lz4, 3 = Snappy) followed by its
//! payload. Framing, the size threshold and decoding are decided here; the
//! codecs are called.
use vstd::prelude::*;
use crate::error::{Error, ErrorKind};

verus! {

/// Compression algorithm.
#[derive(Debug, Clone, Copy, PartialEq, Eq, Structural)]
pub enum CompressionAlgorithm {
    /// Zstd compression (best ratio, fast decompression)
    Zstd,
    /// Lz4 compression (very fast, moderate ratio)
    Lz4,
    /// Snappy compression (fast, good for streaming)
    Snappy,
}

impl Default for CompressionAlgorithm {
    fn default() -> (r: Self)
        ensures r == CompressionAlgorithm::Zstd,
    {
        CompressionAlgorithm::Zstd
    }
}

/// The frame marker of an algorithm.
pub open spec fn marker_of(a: CompressionAlgorithm) -> u8 {
    match a {
        CompressionAlgorithm::Zstd => 1,
        CompressionAlgorithm::Lz4 => 2,
        CompressionAlgorithm::Snappy => 3,
    }
}

/// What `zstd::encode_all` makes of `data` at `level`: its output, or
/// `None` when it fails.
pub uninterp spec fn zstd_compressed(data: Seq<u8>, level: i32) -> Option<Seq<u8>>;
/// What `lz4::block::compress` (default mode, size prepended) makes of `data`.
pub uninterp spec fn lz4_compressed(data: Seq<u8>) -> Seq<u8>;
/// What `snap::raw::Encoder::compress_vec` makes of `data`.
pub uninterp spec fn snappy_compressed(data: Seq<u8>) -> Seq<u8>;
/// What `zstd::decode_all` makes of `data`.
pub uninterp spec fn zstd_decompressed(data: Seq<u8>) -> Seq<u8>;
/// What `lz4::block::decompress` (size read from the prefix) makes of `data`.
pub uninterp spec fn lz4_decompressed(data: Seq<u8>) -> Seq<u8>;
/// What `snap::raw::Decoder::decompress_vec` makes of `data`.
pub uninterp spec fn snappy_decompressed(data: Seq<u8>) -> Seq<u8>;

/// The bytes are some output of `zstd::encode_all`.
pub open spec fn zstd_output(p: Seq<u8>) -> bool {
    exists|d: Seq<u8>, l: i32| zstd_compressed(d, l) == Some(p)
}

/// The bytes are some output of `lz4::block::compress` with the size prepended.
pub open spec fn lz4_output(p: Seq<u8>) -> bool {
    exists|d: Seq<u8>| p == lz4_compressed(d)
}

/// The bytes are some output of the Snappy raw encoder.
pub open spec fn snappy_output(p: Seq<u8>) -> bool {
    exists|d: Seq<u8>| p == snappy_compressed(d)
}

/// Whether Lz4 accepts an input of `len` bytes: at most `LZ4_MAX_INPUT_SIZE`.
pub open spec fn lz4_fits(len: nat) -> bool {
    len <= 0x7E00_0000
}

/// Whether the Snappy raw encoder accepts an input of `len` bytes: its
/// worst-case output, 32 + len + len / 6, must stay within `u32::MAX`.
pub open spec fn snappy_fits(len: nat) -> bool {
    32 + len + len / 6 <= 0xFFFF_FFFF
}

/// `zstd::encode_all`: succeeds exactly when the named result is an output,
/// which it then is, and `decode_all` gives the data back from it (the
/// format is lossless). On which inputs the C library fails is left to the
/// name.
#[verifier::external_body]
fn zstd_encode(data: &[u8], level: i32) -> (r: Result<Vec<u8>, Error>)
    ensures
        r is Ok <==> zstd_compressed(data@, level) is Some,
        r matches Ok(v) ==> zstd_compressed(data@, level) == Some(v@) && zstd_decompressed(v@) == data@,
        r matches Err(e) ==> e.kind() == ErrorKind::Storage,
{
    zstd::encode_all(data, level).map_err(|e| Error::Storage(format!("Zstd compression failed: {e}")))
}

/// `lz4::block::compress(data, None, true)`: it fails exactly on inputs
/// longer than `LZ4_MAX_INPUT_SIZE` (its buffer is `LZ4_compressBound` long,
/// with which the C library guarantees success); on success the result is
/// named, and `decompress` gives the data back from it (the size is
/// prepended).
#[verifier::external_body]
fn lz4_encode(data: &[u8]) -> (r: Result<Vec<u8>, Error>)
    ensures
        r is Ok <==> lz4_fits(data@.len()),
        r matches Ok(v) ==> v@ == lz4_compressed(data@) && lz4_decompressed(v@) == data@,
        r matches Err(e) ==> e.kind() == ErrorKind::Storage,
{
    lz4::block::compress(data, None, true).map_err(|e| Error::Storage(format!("Lz4 compression failed: {e}")))
}

/// `snap::raw::Encoder::compress_vec`: it fails exactly when
/// `max_compress_len` of the input length is 0, that is when the input is
/// too big; on success the result is named, and the raw decoder gives the
/// data back from it.
#[verifier::external_body]
fn snappy_encode(data: &[u8]) -> (r: Result<Vec<u8>, Error>)
    ensures
        r is Ok <==> snappy_fits(data@.len()),
        r matches Ok(v) ==> v@ == snappy_compressed(data@) && snappy_decompressed(v@) == data@,
        r matches Err(e) ==> e.kind() == ErrorKind::Storage,
{
    snap::raw::Encoder::new().compress_vec(data).map_err(|e| Error::Storage(format!("Snappy compression failed: {e}")))
}

/// `zstd::decode_all`: on success the result is named; it succeeds on what
/// `encode_all` produced; on other input it may fail, which is not stated.
#[verifier::external_body]
fn zstd_decode(data: &[u8]) -> (r: Result<Vec<u8>, Error>)
    ensures
        r matches Ok(v) ==> v@ == zstd_decompressed(data@),
        zstd_output(data@) ==> r is Ok,
        r matches Err(e) ==> e.kind() == ErrorKind::Storage,
{
    zstd::decode_all(data).map_err(|e| Error::Storage(format!("Zstd decompression failed: {e}")))
}

/// `lz4::block::decompress(data, None)`: on success the result is named; it
/// succeeds on what `compress` produced with the size prepended; on other
/// input it may fail, which is not stated.
#[verifier::external_body]
fn lz4_decode(data: &[u8]) -> (r: Result<Vec<u8>, Error>)
    ensures
        r matches Ok(v) ==> v@ == lz4_decompressed(data@),
        lz4_output(data@) ==> r is Ok,
        r matches Err(e) ==> e.kind() == ErrorKind::Storage,
{
    lz4::block::decompress(data, None).map_err(|e| Error::Storage(format!("Lz4 decompression failed: {e}")))
}

/// `snap::raw::Decoder::decompress_vec`: on success the result is named; it
/// succeeds on what the raw encoder produced; on other input it may fail,
/// which is not stated.
#[verifier::external_body]
fn snappy_decode(data: &[u8]) -> (r: Result<Vec<u8>, Error>)
    ensures
        r matches Ok(v) ==> v@ == snappy_decompressed(data@),
        snappy_output(data@) ==> r is Ok,
        r matches Err(e) ==> e.kind() == ErrorKind::Storage,
{
    snap::raw::Decoder::new().decompress_vec(data).map_err(|e| Error::Storage(format!("Snappy decompression failed: {e}")))
}

/// What the algorithm's codec makes of `data`: its output, or `None` when
/// the codec refuses it.
pub open spec fn codec_output(a: CompressionAlgorithm, data: Seq<u8>, level: i32) -> Option<Seq<u8>> {
    match a {
        CompressionAlgorithm::Zstd => zstd_compressed(data, level),
        CompressionAlgorithm::Lz4 => if lz4_fits(data.len()) { Some(lz4_compressed(data)) } else { None },
        CompressionAlgorithm::Snappy => if snappy_fits(data.len()) { Some(snappy_compressed(data)) } else { None },
    }
}

/// The block a stored frame decodes to: nothing for an empty frame, the
/// payload for marker 0, the codec's output for markers 1 to 3; `None` for
/// any other marker.
pub open spec fn decoded(frame: Seq<u8>) -> Option<Seq<u8>> {
    if frame.len() == 0 {
        Some(Seq::empty())
    } else {
        let payload = frame.drop_first();
        if frame[0] == 0 {
            Some(payload)
        } else if frame[0] == 1 {
            Some(zstd_decompressed(payload))
        } else if frame[0] == 2 {
            Some(lz4_decompressed(payload))
        } else if frame[0] == 3 {
            Some(snappy_decompressed(payload))
        } else {
            None
        }
    }
}

/// The codec's decoder gives `data` back from the encoder's output.
pub open spec fn codec_inverts(a: CompressionAlgorithm, data: Seq<u8>, level: i32) -> bool {
    match codec_output(a, data, level) {
        Some(c) => match a {
            CompressionAlgorithm::Zstd => zstd_decompressed(c) == data,
            CompressionAlgorithm::Lz4 => lz4_decompressed(c) == data,
            CompressionAlgorithm::Snappy => snappy_decompressed(c) == data,
        },
        None => true,
    }
}

/// A frame the reader accepts: empty, stored as is, or holding an output of
/// the codec its marker names.
pub open spec fn decodable(frame: Seq<u8>) -> bool {
    frame.len() == 0 || frame[0] == 0
        || (frame[0] == 1 && zstd_output(frame.drop_first()))
        || (frame[0] == 2 && lz4_output(frame.drop_first()))
        || (frame[0] == 3 && snappy_output(frame.drop_first()))
}

/// The frame stored for `data`: the codec's output behind the algorithm's
/// marker when there is one and it was accepted, else `data` behind marker 0.
pub open spec fn framed(data: Seq<u8>, compressed: Option<Seq<u8>>, accepted: bool, a: CompressionAlgorithm) -> Seq<u8> {
    match compressed {
        Some(c) => if accepted { seq![marker_of(a)] + c } else { seq![0u8] + data },
        None => seq![0u8] + data,
    }
}

/// A marker byte followed by the bytes of `data`.
fn with_marker(marker: u8, data: &[u8]) -> (r: Vec<u8>)
    ensures r@ == seq![marker] + data@,
{
    let mut r: Vec<u8> = Vec::new();
    r.push(marker);
    let mut i: usize = 0;
    while i < data.len()
        invariant i <= data.len(), r@ == seq![marker] + data@.subrange(0, i as int),
        decreases data.len() - i,
    {
        r.push(data[i]);
        assert(r@ =~= seq![marker] + data@.subrange(0, i + 1));
        i += 1;
    }
    assert(data@.subrange(0, data.len() as int) =~= data@);
    r
}

/// Encode uncompressed data with marker 0.
pub fn encode_uncompressed(data: &[u8]) -> (r: Vec<u8>)
    ensures r@ == seq![0u8] + data@,
{
    with_marker(0, data)
}

/// Encode compressed data with the algorithm's marker.
pub fn encode_compressed(data: &[u8], algorithm: CompressionAlgorithm) -> (r: Vec<u8>)
    ensures r@ == seq![marker_of(algorithm)] + data@,
{
    let marker: u8 = match algorithm {
        CompressionAlgorithm::Zstd => 1,
        CompressionAlgorithm::Lz4 => 2,
        CompressionAlgorithm::Snappy => 3,
    };
    with_marker(marker, data)
}

/// The codec's output for a block larger than the size threshold; `None`
/// for a block of at most the threshold (such a block is stored as is); a
/// codec failure is returned.
pub fn compress_payload(algorithm: CompressionAlgorithm, level: i32, threshold: usize, data: &[u8])
    -> (r: Result<Option<Vec<u8>>, Error>)
    ensures
        (r matches Ok(None)) <==> data@.len() <= threshold,
        data@.len() > threshold ==> (r is Ok <==> codec_output(algorithm, data@, level) is Some),
        r matches Ok(Some(c)) ==> codec_output(algorithm, data@, level) == Some(c@)
            && codec_inverts(algorithm, data@, level),
        r matches Err(e) ==> e.kind() == ErrorKind::Storage,
{
    if data.len() <= threshold {
        return Ok(None);
    }
    let c = match algorithm {
        CompressionAlgorithm::Zstd => zstd_encode(data, level),
        CompressionAlgorithm::Lz4 => lz4_encode(data),
        CompressionAlgorithm::Snappy => snappy_encode(data),
    };
    match c {
        Ok(v) => Ok(Some(v)),
        Err(e) => Err(e),
    }
}

/// The frame to store for `data`, given the codec's output (if any) and
/// whether its size ratio was accepted.
pub fn frame_block(data: &[u8], compressed: Option<Vec<u8>>, accepted: bool, algorithm: CompressionAlgorithm) -> (r: Vec<u8>)
    ensures r@ == framed(data@, match compressed { Some(c) => Some(c@), None => None }, accepted, algorithm),
{
    match compressed {
        Some(c) => {
            if accepted {
                encode_compressed(c.as_slice(), algorithm)
            } else {
                encode_uncompressed(data)
            }
        },
        None => encode_uncompressed(data),
    }
}

/// Decompress a stored frame (see `decoded`): `Storage` for an unknown
/// marker, or when the codec fails.
pub fn decompress(data: &[u8]) -> (r: Result<Vec<u8>, Error>)
    ensures
        r matches Ok(v) ==> decoded(data@) == Some(v@),
        decoded(data@) is None ==> r is Err,
        decodable(data@) ==> r is Ok,
        r matches Err(e) ==> e.kind() == ErrorKind::Storage,
{
    if data.len() == 0 {
        return Ok(Vec::new());
    }
    let payload = vstd::slice::slice_subrange(data, 1, data.len());
    assert(payload@ =~= data@.drop_first());
    match data[0] {
        0 => {
            let mut r: Vec<u8> = Vec::new();
            let mut i: usize = 0;
            while i < payload.len()
                invariant i <= payload.len(), r@ == payload@.subrange(0, i as int),
                decreases payload.len() - i,
            {
                r.push(payload[i]);
                assert(r@ =~= payload@.subrange(0, i + 1));
                i += 1;
            }
            assert(payload@.subrange(0, payload.len() as int) =~= payload@);
            Ok(r)
        },
        1 => zstd_decode(payload),
        2 => lz4_decode(payload),
        3 => snappy_decode(payload),
        _ => Err(Error::Storage(String::from_str("Unknown compression marker"))),
    }
}

/// Reading back what was stored gives the block: a frame made from the
/// data and the codec's output (when there was one) is accepted by the
/// reader and decodes to the data.
pub proof fn lemma_frame_roundtrip(data: Seq<u8>, a: CompressionAlgorithm, level: i32, accepted: bool, compressed: Option<Seq<u8>>)
    requires
        compressed matches Some(c) ==> codec_output(a, data, level) == Some(c) && codec_inverts(a, data, level),
    ensures
        decodable(framed(data, compressed, accepted, a)),
        decoded(framed(data, compressed, accepted, a)) == Some(data),
{
    assert((seq![0u8] + data).drop_first() =~= data);
    if let Some(c) = compressed {
        assert((seq![marker_of(a)] + c).drop_first() =~= c);
        match a {
            CompressionAlgorithm::Zstd => { assert(zstd_output(c)); },
            CompressionAlgorithm::Lz4 => { assert(lz4_output(c)); },
            CompressionAlgorithm::Snappy => { assert(snappy_output(c)); },
        }
    }
}

/// Block compression statistics.
#[derive(Debug, Clone, Copy)]
pub struct BlockCompressionStats {
    /// Number of blocks compressed
    pub blocks_compressed: u64,
    /// Number of blocks stored uncompressed (below threshold or poor ratio)
    pub blocks_uncompressed: u64,
    /// Total bytes before compression
    pub bytes_original: u64,
    /// Total bytes after compression
    pub bytes_compressed: u64,
    /// Number of decompressions
    pub decompressions: u64,
}

impl Default for BlockCompressionStats {
    fn default() -> (r: Self)
        ensures
            r.blocks_compressed == 0, r.blocks_uncompressed == 0, r.bytes_original == 0,
            r.bytes_compressed == 0, r.decompressions == 0,
    {
        BlockCompressionStats { blocks_compressed: 0, blocks_uncompressed: 0, bytes_original: 0, bytes_compressed: 0, decompressions: 0 }
    }
}

impl BlockCompressionStats {
    /// Calculate space saved in bytes (zero when compression grew the data).
    pub fn bytes_saved(&self) -> (r: u64)
        ensures r == if self.bytes_original >= self.bytes_compressed { (self.bytes_original - self.bytes_compressed) as u64 } else { 0 },
    {
        self.bytes_original.saturating_sub(self.bytes_compressed)
    }

    /// Account for a stored block: its original size, its frame's size, and
    /// whether the frame holds it compressed (a marker other than 0).
    pub fn record_put(&mut self, original_size: usize, frame: &[u8])
        requires
            frame@.len() > 0,
            old(self).bytes_original + original_size <= u64::MAX,
            old(self).bytes_compressed + frame@.len() <= u64::MAX,
            old(self).blocks_compressed < u64::MAX, old(self).blocks_uncompressed < u64::MAX,
        ensures
            final(self).bytes_original == old(self).bytes_original + original_size,
            final(self).bytes_compressed == old(self).bytes_compressed + frame@.len(),
            frame@[0] == 0 ==> final(self).blocks_uncompressed == old(self).blocks_uncompressed + 1
                && final(self).blocks_compressed == old(self).blocks_compressed,
            frame@[0] != 0 ==> final(self).blocks_compressed == old(self).blocks_compressed + 1
                && final(self).blocks_uncompressed == old(self).blocks_uncompressed,
            final(self).decompressions == old(self).decompressions,
    {
        self.bytes_original = self.bytes_original + original_size as u64;
        self.bytes_compressed = self.bytes_compressed + frame.len() as u64;
        if frame[0] == 0 {
            self.blocks_uncompressed = self.blocks_uncompressed + 1;
        } else {
            self.blocks_compressed = self.blocks_compressed + 1;
        }
    }

    /// Account for `count` decompressions.
    pub fn record_decompressions(&mut self, count: u64)
        requires old(self).decompressions + count <= u64::MAX,
        ensures *final(self) == (BlockCompressionStats { decompressions: (old(self).decompressions + count) as u64, ..*old(self) }),
    {
        self.decompressions = self.decompressions + count;
    }
}

} // verus!
