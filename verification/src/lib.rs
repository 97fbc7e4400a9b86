//! A GZIP (RFC 1952) decoder whose core is an RFC 1951 DEFLATE inflater:
//! a bit-level reader, canonical Huffman decoding, LZ77 back-reference
//! expansion, a running CRC-32, and a decode trace that records the exact
//! input bits behind every emitted symbol.

use vstd::prelude::*;

pub mod bit_iterator;
pub mod config;
pub mod crc32;
pub mod deflate;
pub mod gzip;
pub mod huffman;

verus! {

/// A fatal condition met while decoding; the decoder surfaces the first one
/// and stops.
#[derive(Debug, Clone, Copy, PartialEq, Eq, Structural)]
pub enum GzipError {
    /// The first two bytes of the member are not `0x1f 0x8b`.
    WrongMagic,
    /// The compression method byte is not 8 (DEFLATE).
    UnsupportedCompression,
    /// The two-bit block encoding field holds the reserved value 3.
    ReservedBlockEncoding,
    /// A stored block whose `LEN` is not the complement of its `NLEN`.
    StoredLenMismatch,
    /// A Huffman decode walked to an absent edge.
    BadHuffmanWalk,
    /// A malformed dynamic-block table: a code length over 15 bits, an
    /// over-subscribed level, a run that misses or overruns its alphabet,
    /// or one distance code too many.
    BadHuffmanTree,
    /// The bit reader ran out of bytes in the middle of a field.
    UnexpectedEndOfStream,
    /// A literal/length symbol outside the range the block admits.
    BadLiteralLengthSymbol,
    /// A distance code outside 0..=29.
    BadDistanceCode,
    /// A back-reference that reaches before the start of the output.
    BadBackReference,
    /// An OS id byte outside the values RFC 1952 names.
    BadOsId,
}

} // verus!
