//! Per-block codec detection and decoding.
//!
//! A block of a compressed archive may still be stored verbatim, so the codec
//! is found anew for every block, from the block's first two bytes.

use std::io::Read;
use vstd::prelude::*;
use vstd::slice::slice_to_vec;
use flate2::bufread::ZlibDecoder;
use crate::bytes::be_u16;
use crate::bytes::be_value;
use crate::error::Error;
use crate::error::FormatError;
use crate::format::CompressionType;

verus! {

/// The plaintext that the zlib decoder produces from a byte sequence, or
/// nothing where it rejects the sequence or runs out of input.
pub uninterp spec fn zlib_inflated(input: Seq<u8>) -> Option<Seq<u8>>;

/// The plaintext that the LZMA decoder produces from a byte sequence, or
/// nothing where it rejects the sequence or runs out of input.
pub uninterp spec fn lzma_unpacked(input: Seq<u8>) -> Option<Seq<u8>>;

/// The bytes of an optional buffer.
pub open spec fn bytes_of(v: Option<Vec<u8>>) -> Option<Seq<u8>> {
    match v {
        Some(b) => Some(b@),
        None => None,
    }
}

/// The bytes of a buffer, or the error that stands in its place.
pub open spec fn outcome_of(r: Result<Vec<u8>, Error>) -> Result<Seq<u8>, Error> {
    match r {
        Ok(b) => Ok(b@),
        Err(e) => Err(e),
    }
}

/// `flate2::bufread::ZlibDecoder` read to its end over `input`: the whole
/// plaintext of the zlib stream that `input` starts with. Any failure of the
/// decoder, a truncated stream included, gives `None`. The plaintext depends
/// on the input bytes alone.
#[verifier::external_body]
fn zlib_decode(input: &[u8]) -> (r: Option<Vec<u8>>)
    ensures
        bytes_of(r) == zlib_inflated(input@),
{
    let mut out: Vec<u8> = Vec::new();
    match ZlibDecoder::new(input).read_to_end(&mut out) {
        Ok(_) => Some(out),
        Err(_) => None,
    }
}

/// `lzma_rs::lzma_decompress` over `input`: the whole plaintext of the LZMA
/// stream (header included) that `input` holds. Any failure of the decoder
/// gives `None`. The plaintext depends on the input bytes alone.
#[verifier::external_body]
fn lzma_decode(input: &[u8]) -> (r: Option<Vec<u8>>)
    ensures
        bytes_of(r) == lzma_unpacked(input@),
{
    let mut source: &[u8] = input;
    let mut out: Vec<u8> = Vec::new();
    match lzma_rs::lzma_decompress(&mut source, &mut out) {
        Ok(()) => Some(out),
        Err(_) => None,
    }
}

/// The codec that the first two bytes of a block announce: `78 DA` and
/// `78 01` start a zlib stream, `5D 00` an LZMA stream; anything else, and
/// anything shorter than two bytes, is stored data.
pub open spec fn sniff(window: Seq<u8>) -> CompressionType {
    if window.len() < 2 {
        CompressionType::Uncompressed
    } else {
        let head = be_value(window.subrange(0, 2));
        if head == 0x78DA || head == 0x7801 {
            CompressionType::ZLIB
        } else if head == 0x5D00 {
            CompressionType::LZMA
        } else {
            CompressionType::Uncompressed
        }
    }
}

/// Finds the codec of a block from its first two bytes.
pub fn detect(window: &[u8]) -> (c: CompressionType)
    ensures
        c == sniff(window@),
{
    if window.len() < 2 {
        CompressionType::Uncompressed
    } else {
        let head: u16 = be_u16(window);
        if head == 0x78DA || head == 0x7801 {
            CompressionType::ZLIB
        } else if head == 0x5D00 {
            CompressionType::LZMA
        } else {
            CompressionType::Uncompressed
        }
    }
}

/// The plaintext of a block, before its length is checked. `size` is the
/// block's element of the block-size table, `window` the bytes it occupies in
/// the archive. A size of zero marks a full block stored verbatim.
pub open spec fn spec_block_plain(size: u64, window: Seq<u8>) -> Option<Seq<u8>> {
    if size == 0 {
        Some(window)
    } else {
        match sniff(window) {
            CompressionType::Uncompressed => Some(window),
            CompressionType::ZLIB => zlib_inflated(window),
            CompressionType::LZMA => lzma_unpacked(window),
        }
    }
}

/// A block's plaintext is accepted when it has exactly the length that the
/// entry asks of that block. `block` is the block's index in the block-size
/// table and is reported with either error.
pub open spec fn spec_finish_block(plain: Option<Seq<u8>>, expected: nat, block: u64) -> Result<
    Seq<u8>,
    Error,
> {
    match plain {
        None => Err(Error::Format(FormatError::TruncatedBlock(block))),
        Some(p) => if p.len() == expected {
            Ok(p)
        } else {
            Err(Error::Format(FormatError::BlockLength(block)))
        },
    }
}

/// Accepts or rejects what a decoder made of a block.
pub fn finish_block(plain: Option<Vec<u8>>, expected: u64, block: u64) -> (r: Result<
    Vec<u8>,
    Error,
>)
    ensures
        outcome_of(r) == spec_finish_block(bytes_of(plain), expected as nat, block),
{
    match plain {
        None => Err(Error::Format(FormatError::TruncatedBlock(block))),
        Some(p) => {
            if p.len() as u64 == expected {
                Ok(p)
            } else {
                Err(Error::Format(FormatError::BlockLength(block)))
            }
        },
    }
}

/// Produces the plaintext of one block and checks its length.
pub fn decode_block(size: u64, window: &[u8], expected: u64, block: u64) -> (r: Result<
    Vec<u8>,
    Error,
>)
    ensures
        outcome_of(r) == spec_finish_block(
            spec_block_plain(size, window@),
            expected as nat,
            block,
        ),
{
    let plain = if size == 0 {
        Some(slice_to_vec(window))
    } else {
        match detect(window) {
            CompressionType::Uncompressed => Some(slice_to_vec(window)),
            CompressionType::ZLIB => zlib_decode(window),
            CompressionType::LZMA => lzma_decode(window),
        }
    };
    finish_block(plain, expected, block)
}

} // verus!
