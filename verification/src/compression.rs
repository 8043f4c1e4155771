//! The codecs that a block's payload may pass through.
use vstd::prelude::*;
use std::io::{Read, Write};
use crate::error::Error;

verus! {

/// The number that a machine which keeps the least significant byte first
/// reads out of the bytes 1 and 0.
pub const LEAST_FIRST: u16 = 1;

/// A codec, as the compression byte of a block header names it.
#[derive(Debug, Clone, Copy, PartialEq, Eq, Structural)]
pub enum Compression {
    Uncompressed,
    Snappy,
    Gzip,
    Lz4,
}

/// What `snap::raw::Encoder::compress_vec` returns for `input`.
pub uninterp spec fn snappy_compressed(input: Seq<u8>) -> Option<Seq<u8>>;

/// What `snap::raw::Decoder::decompress_vec` returns for `input`.
pub uninterp spec fn snappy_decompressed(input: Seq<u8>) -> Option<Seq<u8>>;

/// What a `flate2::write::GzEncoder` at the default level writes for `input`.
pub uninterp spec fn gzip_compressed(input: Seq<u8>) -> Option<Seq<u8>>;

/// What a `flate2::read::GzDecoder` yields from `input` before it ends.
pub uninterp spec fn gzip_decompressed(input: Seq<u8>) -> Option<Seq<u8>>;

/// What an `lz4_flex::frame::FrameEncoder` with default settings writes for
/// `input` on a machine whose addresses have `width` bits and which reads
/// the number `probe` out of the bytes 1 and 0. The encoder looks for
/// repetitions through a table that it fills by the width of an address and
/// by numbers read from the input in the byte order of the machine, so what
/// it writes depends on both.
pub uninterp spec fn lz4_compressed(input: Seq<u8>, width: u32, probe: u16) -> Option<Seq<u8>>;

/// What an `lz4_flex::frame::FrameDecoder` yields from `input` before it ends.
pub uninterp spec fn lz4_decompressed(input: Seq<u8>) -> Option<Seq<u8>>;

/// Calls `snap::raw::Encoder::compress_vec` on a fresh encoder. The result
/// depends on the input alone. Claimed beyond that: what the raw encoder
/// produces, the raw decoder turns back into the input.
#[verifier::external_body]
fn snappy_compress(input: &[u8]) -> (r: Option<Vec<u8>>)
    ensures
        r is None ==> snappy_compressed(input@) is None,
        r matches Some(v) ==> snappy_compressed(input@) == Some(v@) && snappy_decompressed(v@)
            == Some(input@),
{
    snap::raw::Encoder::new().compress_vec(input).ok()
}

/// Calls `snap::raw::Decoder::decompress_vec`. The result depends on the
/// input alone; nothing else is claimed of it.
#[verifier::external_body]
fn snappy_decompress(input: &[u8]) -> (r: Option<Vec<u8>>)
    ensures
        r is None ==> snappy_decompressed(input@) is None,
        r matches Some(v) ==> snappy_decompressed(input@) == Some(v@),
{
    snap::raw::Decoder::new().decompress_vec(input).ok()
}

/// Writes the input through a `flate2::write::GzEncoder` at the default
/// level and finishes it. The result depends on the input alone. Claimed
/// beyond that: what the encoder writes, `flate2::read::GzDecoder` reads back
/// as the input.
#[verifier::external_body]
fn gzip_compress(input: &[u8]) -> (r: Option<Vec<u8>>)
    ensures
        r is None ==> gzip_compressed(input@) is None,
        r matches Some(v) ==> gzip_compressed(input@) == Some(v@) && gzip_decompressed(v@)
            == Some(input@),
{
    let mut writer = flate2::write::GzEncoder::new(Vec::new(), Default::default());
    writer.write_all(input).ok()?;
    writer.finish().ok()
}

/// Reads a `flate2::read::GzDecoder` over the input to its end. The result
/// depends on the input alone; nothing else is claimed of it.
#[verifier::external_body]
fn gzip_decompress(input: &[u8]) -> (r: Option<Vec<u8>>)
    ensures
        r is None ==> gzip_decompressed(input@) is None,
        r matches Some(v) ==> gzip_decompressed(input@) == Some(v@),
{
    let mut out = Vec::new();
    flate2::read::GzDecoder::new(input).read_to_end(&mut out).ok()?;
    Some(out)
}

/// Writes the input through an `lz4_flex::frame::FrameEncoder` with default
/// settings and finishes it, and reads a number out of the bytes 1 and 0
/// with `u16::from_ne_bytes`. What was written depends on the input, the
/// width of an address and the byte order of the machine, which the number
/// tells. Claimed beyond that: what the encoder writes,
/// `lz4_flex::frame::FrameDecoder` reads back as the input, on whatever
/// machine.
#[verifier::external_body]
fn lz4_compress(input: &[u8]) -> (r: (Option<Vec<u8>>, u16))
    ensures
        r.0 is None ==> lz4_compressed(input@, usize::BITS, r.1) is None,
        r.0 matches Some(v) ==> lz4_compressed(input@, usize::BITS, r.1) == Some(v@)
            && lz4_decompressed(v@) == Some(input@),
{
    let mut writer = lz4_flex::frame::FrameEncoder::new(Vec::new());
    let written = match writer.write_all(input) {
        Ok(_) => writer.finish().ok(),
        Err(_) => None,
    };
    (written, u16::from_ne_bytes([1, 0]))
}

/// Reads an `lz4_flex::frame::FrameDecoder` over the input to its end. The
/// result depends on the input alone; nothing else is claimed of it.
#[verifier::external_body]
fn lz4_decompress(input: &[u8]) -> (r: Option<Vec<u8>>)
    ensures
        r is None ==> lz4_decompressed(input@) is None,
        r matches Some(v) ==> lz4_decompressed(input@) == Some(v@),
{
    let mut out = Vec::new();
    lz4_flex::frame::FrameDecoder::new(input).read_to_end(&mut out).ok()?;
    Some(out)
}

impl Default for Compression {
    /// No compression.
    fn default() -> (r: Self)
        ensures
            r == Compression::Uncompressed,
    {
        Compression::Uncompressed
    }
}

impl Compression {
    /// The compression byte of the codec.
    pub open spec fn byte(self) -> u8 {
        match self {
            Compression::Uncompressed => 0,
            Compression::Snappy => 1,
            Compression::Gzip => 2,
            Compression::Lz4 => 3,
        }
    }

    /// The codec that a compression byte names, if it names one.
    pub open spec fn of_byte(value: u8) -> Option<Compression> {
        if value == 0 {
            Some(Compression::Uncompressed)
        } else if value == 1 {
            Some(Compression::Snappy)
        } else if value == 2 {
            Some(Compression::Gzip)
        } else if value == 3 {
            Some(Compression::Lz4)
        } else {
            None
        }
    }

    /// What the codec makes of `input`, or `None` where it refuses. What
    /// LZ4 makes of it is told for a machine that keeps the least
    /// significant byte first.
    pub open spec fn compressed(self, input: Seq<u8>) -> Option<Seq<u8>> {
        match self {
            Compression::Uncompressed => Some(input),
            Compression::Snappy => snappy_compressed(input),
            Compression::Gzip => gzip_compressed(input),
            Compression::Lz4 => lz4_compressed(input, usize::BITS, LEAST_FIRST),
        }
    }

    /// What the codec reads out of `input`, or `None` where it fails.
    pub open spec fn decompressed(self, input: Seq<u8>) -> Option<Seq<u8>> {
        match self {
            Compression::Uncompressed => Some(input),
            Compression::Snappy => snappy_decompressed(input),
            Compression::Gzip => gzip_decompressed(input),
            Compression::Lz4 => lz4_decompressed(input),
        }
    }

    /// The error that a failure to compress is reported as.
    pub open spec fn compress_error(self) -> Error {
        match self {
            Compression::Uncompressed => Error::SnappyCompression,
            Compression::Snappy => Error::SnappyCompression,
            Compression::Gzip => Error::GzipCompression,
            Compression::Lz4 => Error::Lz4Compression,
        }
    }

    /// The error that a failure to decompress is reported as.
    pub open spec fn decompress_error(self) -> Error {
        match self {
            Compression::Uncompressed => Error::SnappyDecompression,
            Compression::Snappy => Error::SnappyDecompression,
            Compression::Gzip => Error::GzipDecompression,
            Compression::Lz4 => Error::Lz4Decompression,
        }
    }

    /// The compression byte of the codec.
    pub fn to_byte(self) -> (r: u8)
        ensures
            r == self.byte(),
            Compression::of_byte(r) == Some(self),
    {
        match self {
            Compression::Uncompressed => 0,
            Compression::Snappy => 1,
            Compression::Gzip => 2,
            Compression::Lz4 => 3,
        }
    }

    /// The codec that a compression byte names.
    pub fn try_from(value: u8) -> (r: Result<Compression, Error>)
        ensures
            match r {
                Ok(c) => Compression::of_byte(value) == Some(c) && c.byte() == value,
                Err(e) => Compression::of_byte(value) is None && e == Error::InvalidCompression(
                    value,
                ),
            },
    {
        if value == 0 {
            Ok(Compression::Uncompressed)
        } else if value == 1 {
            Ok(Compression::Snappy)
        } else if value == 2 {
            Ok(Compression::Gzip)
        } else if value == 3 {
            Ok(Compression::Lz4)
        } else {
            Err(Error::InvalidCompression(value))
        }
    }

    /// Whether `e` is the error with which the codec may refuse whatever
    /// it is handed. LZ4 writes by the byte order of the machine; on a
    /// machine that does not keep the least significant byte first it is
    /// not used to write, and every block is refused.
    pub open spec fn gives_up(self, e: Error) -> bool {
        self == Compression::Lz4 && e == Error::Lz4Compression
    }

    /// What becomes of what the LZ4 encoder wrote, on a machine that reads
    /// `probe` out of the bytes 1 and 0: it stands where the machine keeps
    /// the least significant byte first and the encoder wrote something,
    /// and is refused otherwise.
    pub fn lz4_outcome(written: Option<Vec<u8>>, probe: u16) -> (r: Result<Vec<u8>, Error>)
        ensures
            match r {
                Ok(v) => probe == LEAST_FIRST && written == Some(v),
                Err(e) => e == Error::Lz4Compression && (probe != LEAST_FIRST || written is None),
            },
    {
        if probe != LEAST_FIRST {
            return Err(Error::Lz4Compression);
        }
        match written {
            Some(v) => Ok(v),
            None => Err(Error::Lz4Compression),
        }
    }

    /// Passes `input` through the codec. What comes back reads back as
    /// `input` through `reader`. Snappy and gzip fail where their encoders
    /// do; of LZ4 no more is told than that it may fail.
    pub fn compress(&self, input: Vec<u8>) -> (r: Result<Vec<u8>, Error>)
        ensures
            match r {
                Ok(v) => self.compressed(input@) == Some(v@) && self.decompressed(v@) == Some(
                    input@,
                ),
                Err(e) => e == self.compress_error() && (self.compressed(input@) is None
                    || self.gives_up(e)),
            },
            *self == Compression::Uncompressed ==> r is Ok,
    {
        match self {
            Compression::Uncompressed => Ok(input),
            Compression::Snappy => match snappy_compress(input.as_slice()) {
                Some(v) => Ok(v),
                None => Err(Error::SnappyCompression),
            },
            Compression::Gzip => match gzip_compress(input.as_slice()) {
                Some(v) => Ok(v),
                None => Err(Error::GzipCompression),
            },
            Compression::Lz4 => {
                let (written, probe) = lz4_compress(input.as_slice());
                Self::lz4_outcome(written, probe)
            },
        }
    }

    /// Reads `r` through the codec to its end.
    pub fn reader(&self, r: &[u8]) -> (out: Result<Vec<u8>, Error>)
        ensures
            match out {
                Ok(v) => self.decompressed(r@) == Some(v@),
                Err(e) => self.decompressed(r@) is None && e == self.decompress_error(),
            },
    {
        match self {
            Compression::Uncompressed => Ok(vstd::slice::slice_to_vec(r)),
            Compression::Snappy => match snappy_decompress(r) {
                Some(v) => Ok(v),
                None => Err(Error::SnappyDecompression),
            },
            Compression::Gzip => match gzip_decompress(r) {
                Some(v) => Ok(v),
                None => Err(Error::GzipDecompression),
            },
            Compression::Lz4 => match lz4_decompress(r) {
                Some(v) => Ok(v),
                None => Err(Error::Lz4Decompression),
            },
        }
    }
}

} // verus!
