//! The GZIP (RFC 1952) member framer: parse the header, drive the DEFLATE
//! inflater over the body, and read the 8-byte trailer whose CRC-32 and
//! size the decoded data is checked against.

use vstd::prelude::*;
use vstd::arithmetic::power2::pow2;
use vstd::arithmetic::power2::lemma_pow2_adds;
use vstd::arithmetic::power2::lemma2_to64;
use vstd::bits::lemma_u32_shl_is_mul;
use vstd::string::StringExecFns;
use crate::GzipError;
use crate::crc32::crc32_of;
use crate::deflate::Block;
use crate::deflate::DecodeItem;
use crate::deflate::inflate_at;
use crate::deflate::item_block;
use crate::deflate::parse_body;
use crate::deflate::BodyParse;
use crate::deflate::items_match;
use crate::deflate::apply_items;
use crate::deflate::is_fixed_trie;
use crate::huffman::TrieNode;
use crate::bit_iterator::lsb_value;
use crate::bit_iterator::stream_of;

verus! {

/// The little-endian value of `size` bytes starting at `pos`.
pub open spec fn le_value(bytes: Seq<u8>, pos: int, size: nat) -> nat
    decreases size,
{
    if size == 0 {
        0
    } else {
        (bytes[pos] + 256 * le_value(bytes, pos + 1, (size - 1) as nat)) as nat
    }
}


/// Adding a byte at the top of a little-endian field adds its place value.
proof fn lemma_le_value_snoc(bytes: Seq<u8>, pos: int, k: nat)
    ensures
        le_value(bytes, pos, k + 1) == le_value(bytes, pos, k) + bytes[pos + k] * pow2(8 * k),
    decreases k,
{
    lemma2_to64();
    if k == 0 {
        assert(le_value(bytes, pos + 1, 0) == 0);
        assert(bytes[pos] * pow2(0) == bytes[pos] * 1);
    } else {
        lemma_le_value_snoc(bytes, pos + 1, (k - 1) as nat);
        lemma_pow2_adds(8, 8 * (k - 1) as nat);
        assert(8 * k == 8 + 8 * (k - 1));
        assert(pow2(8 * k) == 256 * pow2(8 * (k - 1) as nat));
        assert(256 * (le_value(bytes, pos + 1, (k - 1) as nat) + bytes[pos + k] * pow2(
            8 * (k - 1) as nat,
        )) == 256 * le_value(bytes, pos + 1, (k - 1) as nat) + bytes[pos + k] * (256 * pow2(
            8 * (k - 1) as nat,
        ))) by (nonlinear_arith);
    }
}

/// A little-endian field of `k` bytes stays under `2^(8k)`.
proof fn lemma_le_value_bound(bytes: Seq<u8>, pos: int, k: nat)
    ensures
        le_value(bytes, pos, k) < pow2(8 * k),
    decreases k,
{
    lemma2_to64();
    if k == 0 {
    } else {
        lemma_le_value_bound(bytes, pos + 1, (k - 1) as nat);
        lemma_pow2_adds(8, 8 * (k - 1) as nat);
        assert(8 * k == 8 + 8 * (k - 1));
        assert(bytes[pos] + 256 * le_value(bytes, pos + 1, (k - 1) as nat) < 256 * pow2(
            8 * (k - 1) as nat,
        )) by (nonlinear_arith)
            requires
                bytes[pos] < 256,
                le_value(bytes, pos + 1, (k - 1) as nat) + 1 <= pow2(8 * (k - 1) as nat),
        ;
    }
}

/// Read a little-endian integer of `size` bytes at the cursor.
pub fn read_int(bytes: &Vec<u8>, pos: &mut usize, size: usize) -> (r: u32)
    requires
        size <= 4,
        old(pos) + size <= bytes@.len(),
    ensures
        *final(pos) == *old(pos) + size,
        r == le_value(bytes@, *old(pos) as int, size as nat),
{
    let ghost p0 = *old(pos) as int;
    let n_total = bytes.len();
    let mut acc: u32 = 0;
    let mut i: usize = 0;
    proof {
        lemma2_to64();
    }
    while i < size
        invariant
            i <= size,
            size <= 4,
            p0 + size <= bytes@.len(),
            bytes@.len() == n_total,
            0 <= p0,
            *pos == p0 + i,
            acc == le_value(bytes@, p0, i as nat),
            acc < pow2((8 * i) as nat),
        decreases size - i,
    {
        let b = bytes[*pos];
        proof {
            lemma_le_value_snoc(bytes@, p0, i as nat);
            lemma_le_value_bound(bytes@, p0, (i + 1) as nat);
            lemma2_to64();
            vstd::bits::lemma_u32_pow2_no_overflow((8 * i) as nat);
            lemma_pow2_adds((8 * i) as nat, 8);
            let pw = pow2((8 * i) as nat);
            assert((b as nat) * pw <= 255 * pw && acc + 255 * pw < 256 * pw) by (nonlinear_arith)
                requires
                    b <= 255,
                    pw > 0,
                    acc < pw,
            ;
            assert(256 * pw == pow2((8 * (i + 1)) as nat));
            assert(pow2((8 * (i + 1)) as nat) <= pow2(32)) by {
                if 8 * (i + 1) < 32 {
                    vstd::arithmetic::power2::lemma_pow2_strictly_increases(
                        (8 * (i + 1)) as nat,
                        32,
                    );
                }
            }
            lemma_u32_shl_is_mul(b as u32, (8 * i) as u32);
            assert((b as u32) << ((8 * i) as u32) == (b as nat) * pw);
            assert(acc + (b as nat) * pw < 256 * pw);
            assert(256 * pw <= 0x1_0000_0000);
        }
        acc = acc + ((b as u32) << ((8 * i) as u32));
        *pos = *pos + 1;
        i = i + 1;
    }
    acc
}

/// The first NUL at or after `p`, or the end of the buffer.
pub open spec fn nul_end(bytes: Seq<u8>, p: int) -> int
    recommends
        0 <= p <= bytes.len(),
    decreases bytes.len() - p,
{
    if p < 0 || p >= bytes.len() {
        p
    } else if bytes[p] == 0 {
        p
    } else {
        nul_end(bytes, p + 1)
    }
}

/// A string with one more character at the end.
///
/// Relies on `String::push`: appends the given character to the end.
#[verifier::external_body]
fn push_char(s: String, c: char) -> (r: String)
    ensures
        r@ == s@.push(c),
{
    let mut s = s;
    s.push(c);
    s
}

/// What `String::from_utf8` decodes a byte sequence to, when it is valid
/// UTF-8.
pub uninterp spec fn utf8_decode(bytes: Seq<u8>) -> Option<Seq<char>>;

/// Relies on `String::from_utf8`: returns the decoded string exactly when
/// the bytes are valid UTF-8; ASCII bytes always are, and decode to
/// themselves.
#[verifier::external_body]
fn utf8_from_bytes(bytes: Vec<u8>) -> (r: Option<String>)
    ensures
        r is Some <==> utf8_decode(bytes@) is Some,
        r matches Some(st) ==> utf8_decode(bytes@) == Some(st@),
        r is Some <== forall|i: int| 0 <= i < bytes@.len() ==> bytes@[i] < 0x80,
        r is None || !(forall|i: int| 0 <= i < bytes@.len() ==> bytes@[i] < 0x80)
            || utf8_decode(bytes@) == Some(Seq::new(bytes@.len(), |i: int| bytes@[i] as char)),
{
    String::from_utf8(bytes).ok()
}

/// Read bytes as characters until a NUL or the end of the buffer; the NUL
/// is consumed but not kept.
pub fn read_ascii_string(bytes: &Vec<u8>, pos: &mut usize) -> (r: String)
    requires
        *old(pos) <= bytes@.len(),
    ensures
        *final(pos) <= bytes@.len(),
        ({
            let e = nul_end(bytes@, *old(pos) as int);
            &&& r@.len() == e - *old(pos)
            &&& (forall|i: int|
                0 <= i < r@.len() ==> r@[i] == (bytes@[*old(pos) + i] as char))
            &&& *final(pos) == (if e < bytes@.len() {
                e + 1
            } else {
                e
            })
        }),
{
    let ghost p0 = *old(pos) as int;
    let mut result = String::new();
    loop
        invariant
            p0 == *old(pos),
            0 <= p0 <= *pos <= bytes@.len(),
            nul_end(bytes@, p0) == nul_end(bytes@, *pos as int),
            result@.len() == *pos - p0,
            forall|i: int| 0 <= i < result@.len() ==> result@[i] == (bytes@[p0 + i] as char),
            forall|i: int| p0 <= i < *pos ==> bytes@[i] != 0,
        decreases bytes@.len() - *pos,
    {
        if *pos >= bytes.len() {
            proof {
                assert(nul_end(bytes@, *pos as int) == *pos as int);
            }
            return result;
        }
        let v = bytes[*pos];
        *pos = *pos + 1;
        if v == 0 {
            proof {
                assert(nul_end(bytes@, *pos - 1) == *pos - 1);
            }
            return result;
        }
        result = push_char(result, v as char);
    }
}

/// One subfield of the EXTRA header block: a two-character id and its
/// payload, both carried as text.
#[derive(Debug)]
pub struct ExtraField {
    pub id: String,
    pub data: String,
}

/// Read one EXTRA subfield: 2 id bytes, a 2-byte little-endian length,
/// then that many payload bytes. Returns how many bytes it consumed.
pub fn read_extra_data_field(bytes: &Vec<u8>, pos: &mut usize) -> (r: Result<
    (u32, ExtraField),
    GzipError,
>)
    requires
        *old(pos) <= bytes@.len(),
    ensures
        *final(pos) <= bytes@.len(),
        *final(pos) >= *old(pos),
        ({
            let p0 = *old(pos) as int;
            p0 + 4 <= bytes@.len() && p0 + 4 + le_value(bytes@, p0 + 2, 2) <= bytes@.len() ==> r
                is Ok
        }),
        r is Err ==> r == Err::<(u32, ExtraField), GzipError>(GzipError::UnexpectedEndOfStream),
        r is Ok ==> ({
            let p0 = *old(pos) as int;
            let flen = le_value(bytes@, p0 + 2, 2);
            &&& p0 + 4 + flen <= bytes@.len()
            &&& r->Ok_0.0 == flen + 4
            &&& *final(pos) == p0 + 4 + flen
            &&& r->Ok_0.1.id@.len() == 2
            &&& r->Ok_0.1.id@[0] == (bytes@[p0] as char)
            &&& r->Ok_0.1.id@[1] == (bytes@[p0 + 1] as char)
            &&& r->Ok_0.1.data@.len() == flen
            &&& (forall|i: int|
                0 <= i < flen ==> r->Ok_0.1.data@[i] == (bytes@[p0 + 4 + i] as char))
        }),
{
    let ghost p0 = *old(pos) as int;
    if bytes.len() - *pos < 4 {
        return Err(GzipError::UnexpectedEndOfStream);
    }
    let mut id = String::new();
    id = push_char(id, bytes[*pos] as char);
    id = push_char(id, bytes[*pos + 1] as char);
    *pos = *pos + 2;
    let len = read_int(bytes, pos, 2);
    proof {
        lemma_le_value_bound(bytes@, p0 + 2, 2);
        lemma2_to64();
    }
    if (bytes.len() - *pos) < (len as usize) {
        return Err(GzipError::UnexpectedEndOfStream);
    }
    let mut data = String::new();
    let mut i: usize = 0;
    while i < len as usize
        invariant
            p0 == *old(pos),
            i <= len,
            len <= 0xFFFF,
            len == le_value(bytes@, p0 + 2, 2),
            *pos == p0 + 4 + i,
            p0 + 4 + len <= bytes@.len(),
            bytes@.len() <= usize::MAX,
            0 <= p0,
            data@.len() == i,
            forall|j: int| 0 <= j < i ==> data@[j] == (bytes@[p0 + 4 + j] as char),
        decreases len - i,
    {
        data = push_char(data, bytes[*pos] as char);
        *pos = *pos + 1;
        i = i + 1;
    }
    Ok(((len + 4), ExtraField { id, data }))
}

/// The compression method of a member; RFC 1952 defines only DEFLATE.
#[derive(Debug, PartialEq, Eq, Structural, Clone, Copy)]
pub enum Compression {
    Deflate,
}

impl Compression {
    /// Parse the compression-method byte; only 8 (DEFLATE) is accepted.
    fn parse(byte: u8) -> (r: Result<Compression, GzipError>)
        ensures
            byte == 8 <==> r == Ok::<Compression, GzipError>(Compression::Deflate),
            byte != 8 <==> r == Err::<Compression, GzipError>(GzipError::UnsupportedCompression),
    {
        if byte == 8 {
            Ok(Compression::Deflate)
        } else {
            Err(GzipError::UnsupportedCompression)
        }
    }
}

/// The hint the extra-flags byte gives about the compressor's effort.
#[derive(Debug, PartialEq, Eq, Structural, Clone, Copy)]
pub enum CompressionInfo {
    MaximumCompressionSlowestAlgorithm,
    FastestAlgorithm,
}

impl CompressionInfo {
    /// Parse the extra-flags byte: 2 marks the slowest setting, 4 the
    /// fastest, anything else carries no information.
    fn parse(byte: u8) -> (r: Option<CompressionInfo>)
        ensures
            r == spec_compression_info(byte),
    {
        match byte {
            2 => Some(CompressionInfo::MaximumCompressionSlowestAlgorithm),
            4 => Some(CompressionInfo::FastestAlgorithm),
            _ => None,
        }
    }
}

pub open spec fn spec_compression_info(byte: u8) -> Option<CompressionInfo> {
    if byte == 2 {
        Some(CompressionInfo::MaximumCompressionSlowestAlgorithm)
    } else if byte == 4 {
        Some(CompressionInfo::FastestAlgorithm)
    } else {
        None
    }
}

/// The operating system id of the member's producer.
#[derive(Debug, PartialEq, Eq, Structural, Clone, Copy)]
pub enum Os {
    FATFilesystem,
    Amiga,
    VMS,
    Unix,
    VMcMS,
    AtaritOS,
    HPFS,
    Macintosh,
    Zsystem,
    CPm,
    TOPS20,
    NTFS,
    QDOS,
    Acorn,
    Unknown,
}

pub open spec fn spec_os(byte: u8) -> Option<Os> {
    if byte == 0 {
        Some(Os::FATFilesystem)
    } else if byte == 1 {
        Some(Os::Amiga)
    } else if byte == 2 {
        Some(Os::VMS)
    } else if byte == 3 {
        Some(Os::Unix)
    } else if byte == 4 {
        Some(Os::VMcMS)
    } else if byte == 5 {
        Some(Os::AtaritOS)
    } else if byte == 6 {
        Some(Os::HPFS)
    } else if byte == 7 {
        Some(Os::Macintosh)
    } else if byte == 8 {
        Some(Os::Zsystem)
    } else if byte == 9 {
        Some(Os::CPm)
    } else if byte == 10 {
        Some(Os::TOPS20)
    } else if byte == 11 {
        Some(Os::NTFS)
    } else if byte == 12 {
        Some(Os::QDOS)
    } else if byte == 13 {
        Some(Os::Acorn)
    } else if byte == 255 {
        Some(Os::Unknown)
    } else {
        None
    }
}

impl Os {
    /// Parse the OS id byte; values outside RFC 1952's table are rejected.
    fn parse(byte: u8) -> (r: Result<Os, GzipError>)
        ensures
            (spec_os(byte) matches Some(os) ==> r == Ok::<Os, GzipError>(os)),
            spec_os(byte) is None ==> r == Err::<Os, GzipError>(GzipError::BadOsId),
    {
        match byte {
            0 => Ok(Os::FATFilesystem),
            1 => Ok(Os::Amiga),
            2 => Ok(Os::VMS),
            3 => Ok(Os::Unix),
            4 => Ok(Os::VMcMS),
            5 => Ok(Os::AtaritOS),
            6 => Ok(Os::HPFS),
            7 => Ok(Os::Macintosh),
            8 => Ok(Os::Zsystem),
            9 => Ok(Os::CPm),
            10 => Ok(Os::TOPS20),
            11 => Ok(Os::NTFS),
            12 => Ok(Os::QDOS),
            13 => Ok(Os::Acorn),
            255 => Ok(Os::Unknown),
            _ => Err(GzipError::BadOsId),
        }
    }
}

/// Where the EXTRA block's subfields end: starting at `pos` with `len`
/// announced bytes left, each subfield takes 2 id bytes, a 2-byte length
/// and its payload; `None` when a subfield overruns the buffer or the
/// announced length.
pub open spec fn subfields_end(bytes: Seq<u8>, pos: int, len: nat) -> Option<int>
    decreases len,
{
    if len == 0 {
        Some(pos)
    } else if pos + 4 > bytes.len() {
        None
    } else {
        let fl = le_value(bytes, pos + 2, 2);
        if fl + 4 > len {
            None
        } else if pos + 4 + fl > bytes.len() {
            None
        } else {
            subfields_end(bytes, pos + 4 + fl, (len - fl - 4) as nat)
        }
    }
}

/// The parsed subfields carry exactly the EXTRA block's bytes: each one
/// its two id characters and its length-prefixed payload, in order.
pub open spec fn subfields_match(bytes: Seq<u8>, pos: int, len: nat, fields: Seq<ExtraField>) -> bool
    decreases len,
{
    if len == 0 {
        fields.len() == 0
    } else if pos + 4 > bytes.len() {
        false
    } else {
        let fl = le_value(bytes, pos + 2, 2);
        if fl + 4 > len || pos + 4 + fl > bytes.len() {
            false
        } else {
            &&& fields.len() >= 1
            &&& fields[0].id@.len() == 2
            &&& fields[0].id@[0] == (bytes[pos] as char)
            &&& fields[0].id@[1] == (bytes[pos + 1] as char)
            &&& fields[0].data@.len() == fl
            &&& (forall|i: int| 0 <= i < fl ==> fields[0].data@[i] == (bytes[pos + 4 + i] as char))
            &&& subfields_match(bytes, pos + 4 + fl, (len - fl - 4) as nat, fields.drop_first())
        }
    }
}

/// Where the member header that starts the byte sequence ends, or `None`
/// when it is malformed or truncated: after the ten fixed bytes come the
/// optional EXTRA, FNAME, FCOMMENT and HCRC16 sections that the flag
/// byte announces.
pub open spec fn member_header_end(bytes: Seq<u8>) -> Option<int> {
    let t = bytes.len() as int;
    if !(10 <= t && bytes[0] == 0x1f && bytes[1] == 0x8b && bytes[2] == 8 && spec_os(bytes[9])
        is Some) {
        None
    } else {
        let flags = bytes[3];
        let xe = if flags & 4 == 4 {
            if 12 <= t {
                subfields_end(bytes, 12, le_value(bytes, 10, 2))
            } else {
                None
            }
        } else {
            Some(10int)
        };
        match xe {
            None => None,
            Some(pe) => {
                let fn_end = nul_end(bytes, pe);
                let fe = if flags & 8 == 8 {
                    if fn_end < t {
                        fn_end + 1
                    } else {
                        fn_end
                    }
                } else {
                    pe
                };
                let cm_end = nul_end(bytes, fe);
                let ce = if flags & 16 == 16 {
                    if cm_end < t {
                        cm_end + 1
                    } else {
                        cm_end
                    }
                } else {
                    fe
                };
                if flags & 2 == 2 {
                    if ce + 2 > t {
                        None
                    } else {
                        Some(ce + 2)
                    }
                } else {
                    Some(ce)
                }
            },
        }
    }
}

/// Everything the member header carries.
#[derive(Debug)]
pub struct Headers {
    pub compression: Compression,
    pub mtime: u32,
    pub os: Os,
    pub filename: Option<String>,
    pub comment: Option<String>,
    pub crc16: Option<u32>,
    pub compression_info: Option<CompressionInfo>,
    pub is_text: bool,
    pub extra_fields: Vec<ExtraField>,
}

impl Headers {
    /// Parse the member header at the cursor: magic, method, flags, mtime,
    /// extra flags, OS, and the optional EXTRA, FNAME, FCOMMENT and HCRC16
    /// sections the flag bits announce.
    pub fn new(bytes: &Vec<u8>, pos: &mut usize) -> (r: Result<Headers, GzipError>)
        requires
            *old(pos) <= bytes@.len(),
        ensures
            *final(pos) <= bytes@.len(),
            *final(pos) >= *old(pos),
            ({
                let p0 = *old(pos) as int;
                let t = bytes@.len();
                &&& (p0 + 2 <= t && (bytes@[p0] != 0x1f || bytes@[p0 + 1] != 0x8b) ==> r
                    == Err::<Headers, GzipError>(GzipError::WrongMagic))
                &&& (p0 + 10 <= t && bytes@[p0] == 0x1f && bytes@[p0 + 1] == 0x8b && bytes@[p0 + 2]
                    != 8 ==> r == Err::<Headers, GzipError>(GzipError::UnsupportedCompression))
                &&& (r matches Ok(h) ==> {
                    &&& p0 + 10 <= t
                    &&& bytes@[p0] == 0x1f
                    &&& bytes@[p0 + 1] == 0x8b
                    &&& bytes@[p0 + 2] == 8
                    &&& h.compression == Compression::Deflate
                    &&& h.mtime == le_value(bytes@, p0 + 4, 4)
                    &&& h.is_text == (bytes@[p0 + 3] & 1 == 1)
                    &&& (h.crc16 is Some) == (bytes@[p0 + 3] & 2 == 2)
                    &&& (h.filename is Some) == (bytes@[p0 + 3] & 8 == 8)
                    &&& (h.comment is Some) == (bytes@[p0 + 3] & 16 == 16)
                    &&& (bytes@[p0 + 3] & 4 != 4 ==> h.extra_fields@.len() == 0)
                    &&& h.compression_info == spec_compression_info(bytes@[p0 + 8])
                    &&& Some(h.os) == spec_os(bytes@[p0 + 9])
                    &&& *final(pos) >= p0 + 10
                })
                &&& (p0 + 10 <= t && bytes@[p0] == 0x1f && bytes@[p0 + 1] == 0x8b && bytes@[p0 + 2]
                    == 8 && spec_os(bytes@[p0 + 9]) is Some ==> ({
                    let flags = bytes@[p0 + 3];
                    let xe = if flags & 4 == 4 {
                        if p0 + 12 <= t {
                            subfields_end(bytes@, p0 + 12, le_value(bytes@, p0 + 10, 2))
                        } else {
                            None
                        }
                    } else {
                        Some(p0 + 10)
                    };
                    match xe {
                        None => r == Err::<Headers, GzipError>(GzipError::UnexpectedEndOfStream),
                        Some(pe) => {
                            let fn_end = nul_end(bytes@, pe);
                            let fe = if flags & 8 == 8 {
                                if fn_end < t {
                                    fn_end + 1
                                } else {
                                    fn_end
                                }
                            } else {
                                pe
                            };
                            let cm_end = nul_end(bytes@, fe);
                            let ce = if flags & 16 == 16 {
                                if cm_end < t {
                                    cm_end + 1
                                } else {
                                    cm_end
                                }
                            } else {
                                fe
                            };
                            if flags & 2 == 2 && ce + 2 > t {
                                r == Err::<Headers, GzipError>(GzipError::UnexpectedEndOfStream)
                            } else {
                                &&& r is Ok
                                &&& *final(pos) == (if flags & 2 == 2 {
                                    ce + 2
                                } else {
                                    ce
                                })
                                &&& (flags & 8 == 8 ==> ({
                                    &&& r->Ok_0.filename matches Some(f)
                                    &&& f@.len() == fn_end - pe
                                    &&& (forall|i: int|
                                        0 <= i < f@.len() ==> f@[i] == (bytes@[pe + i] as char))
                                }))
                                &&& (flags & 16 == 16 ==> ({
                                    &&& r->Ok_0.comment matches Some(c)
                                    &&& c@.len() == cm_end - fe
                                    &&& (forall|i: int|
                                        0 <= i < c@.len() ==> c@[i] == (bytes@[fe + i] as char))
                                }))
                                &&& (flags & 2 == 2 ==> r->Ok_0.crc16 == Some(
                                    le_value(bytes@, ce, 2) as u32,
                                ))
                                &&& (flags & 4 == 4 ==> subfields_match(
                                    bytes@,
                                    p0 + 12,
                                    le_value(bytes@, p0 + 10, 2),
                                    r->Ok_0.extra_fields@,
                                ))
                            }
                        },
                    }
                }))
            }),
    {
        let ghost p0 = *old(pos) as int;
        if bytes.len() - *pos < 2 {
            return Err(GzipError::UnexpectedEndOfStream);
        }
        if bytes[*pos] != 0x1f || bytes[*pos + 1] != 0x8b {
            return Err(GzipError::WrongMagic);
        }
        if bytes.len() - *pos < 10 {
            return Err(GzipError::UnexpectedEndOfStream);
        }
        let method = bytes[*pos + 2];
        let compression = match Compression::parse(method) {
            Ok(c) => c,
            Err(e) => {
                return Err(e);
            },
        };
        let flags = bytes[*pos + 3];
        let extra_flag = bytes[*pos + 8];
        let compression_info = CompressionInfo::parse(extra_flag);
        let os_byte = bytes[*pos + 9];
        let os = match Os::parse(os_byte) {
            Ok(o) => o,
            Err(e) => {
                return Err(e);
            },
        };
        *pos = *pos + 4;
        let mtime = read_int(bytes, pos, 4);
        *pos = *pos + 2;
        let ghost flags_g = bytes@[p0 + 3];
        let extra_fields = if flags & 4 == 4 {
            if bytes.len() - *pos < 2 {
                return Err(GzipError::UnexpectedEndOfStream);
            }
            let mut len = read_int(bytes, pos, 2);
            let ghost xlen = len as nat;
            let mut result: Vec<ExtraField> = Vec::new();
            while len > 0
                invariant
                    p0 == *old(pos),
                    *pos <= bytes@.len(),
                    p0 + 10 <= *pos,
                    p0 + 12 <= bytes@.len(),
                    bytes@[p0] == 0x1f,
                    bytes@[p0 + 1] == 0x8b,
                    bytes@[p0 + 2] == 8,
                    flags_g == bytes@[p0 + 3],
                    flags == flags_g,
                    flags_g & 4 == 4,
                    spec_os(bytes@[p0 + 9]) is Some,
                    xlen == le_value(bytes@, p0 + 10, 2),
                    subfields_end(bytes@, p0 + 12, xlen) == subfields_end(
                        bytes@,
                        *pos as int,
                        len as nat,
                    ),
                    forall|rest: Seq<ExtraField>|
                        subfields_match(bytes@, *pos as int, len as nat, rest) ==> #[trigger]
                        subfields_match(bytes@, p0 + 12, xlen, result@ + rest),
                decreases len,
            {
                let ghost pos_f = *pos as int;
                let (bytes_read, field) = match read_extra_data_field(bytes, pos) {
                    Ok(v) => v,
                    Err(e) => {
                        proof {
                            assert(subfields_end(bytes@, pos_f, len as nat) is None);
                        }
                        return Err(e);
                    },
                };
                if bytes_read > len {
                    // the subfields overran the announced EXTRA length
                    proof {
                        assert(subfields_end(bytes@, pos_f, len as nat) is None);
                    }
                    return Err(GzipError::UnexpectedEndOfStream);
                }
                let ghost result_before = result@;
                let ghost field_g = field;
                len = len - bytes_read;
                result.push(field);
                proof {
                    assert(subfields_end(bytes@, pos_f, (len + bytes_read) as nat)
                        == subfields_end(bytes@, *pos as int, len as nat));
                    assert forall|rest: Seq<ExtraField>|
                        subfields_match(bytes@, *pos as int, len as nat, rest) implies #[trigger]
                        subfields_match(bytes@, p0 + 12, xlen, result@ + rest) by {
                        let rest1 = seq![field_g] + rest;
                        assert(rest1.drop_first() =~= rest);
                        assert(rest1[0] == field_g);
                        assert(subfields_match(
                            bytes@,
                            pos_f,
                            (len + bytes_read) as nat,
                            rest1,
                        ));
                        assert(result_before + rest1 =~= result@ + rest);
                    }
                }
            }
            result
        } else {
            Vec::new()
        };
        let ghost pe = *pos as int;
        proof {
            if flags_g & 4 == 4 {
                assert(subfields_end(bytes@, pe, 0) == Some(pe));
            }
        }
        proof {
            if flags & 4 == 4 {
                assert(subfields_match(bytes@, pe, 0, Seq::<ExtraField>::empty()));
                assert(extra_fields@ + Seq::<ExtraField>::empty() =~= extra_fields@);
            }
        }
        let filename = if flags & 8 == 8 {
            Some(read_ascii_string(bytes, pos))
        } else {
            None
        };
        let comment = if flags & 16 == 16 {
            Some(read_ascii_string(bytes, pos))
        } else {
            None
        };
        let is_text = flags & 1 == 1;
        let crc16 = if flags & 2 == 2 {
            if bytes.len() - *pos < 2 {
                return Err(GzipError::UnexpectedEndOfStream);
            }
            Some(read_int(bytes, pos, 2))
        } else {
            None
        };
        Ok(
            Headers {
                compression,
                mtime,
                os,
                filename,
                comment,
                crc16,
                compression_info,
                is_text,
                extra_fields,
            },
        )
    }
}

/// One decoded GZIP member: its header, the decoded blocks, trace and
/// data, and the trailer's CRC-32 and size next to the computed CRC-32.
#[derive(Debug)]
pub struct Gzip {
    pub headers: Headers,
    pub blocks: Vec<Block>,
    pub decode_items: Vec<DecodeItem>,
    pub data: Vec<u8>,
    pub crc32: u32,
    pub size: u32,
    pub calculated_crc32: u32,
}

impl Gzip {
    /// The CRC-32 this decode computed over the data it produced.
    pub open spec fn calculated(&self) -> u32 {
        self.calculated_crc32
    }

    /// Split the trailer: 4 bytes of CRC-32, 4 bytes of size, both
    /// little-endian.
    fn read_trailing_data(final_bytes: &Vec<u8>) -> (r: (u32, u32))
        requires
            final_bytes@.len() >= 8,
        ensures
            r.0 == le_value(final_bytes@, 0, 4),
            r.1 == le_value(final_bytes@, 4, 4),
    {
        let mut pos: usize = 0;
        let crc32 = read_int(final_bytes, &mut pos, 4);
        let size = read_int(final_bytes, &mut pos, 4);
        (crc32, size)
    }

    /// Decode one complete member: header, body, trailer.
    pub fn new(bytes: Vec<u8>) -> (r: Result<Gzip, GzipError>)
        requires
            bytes@.len() * 8 <= usize::MAX,
        ensures
            bytes@.len() < 8 ==> r == Err::<Gzip, GzipError>(GzipError::UnexpectedEndOfStream),
            bytes@.len() >= 8 && (bytes@[0] != 0x1f || bytes@[1] != 0x8b) ==> r == Err::<
                Gzip,
                GzipError,
            >(GzipError::WrongMagic),
            bytes@.len() >= 10 && bytes@[0] == 0x1f && bytes@[1] == 0x8b && bytes@[2] != 8 ==> r
                == Err::<Gzip, GzipError>(GzipError::UnsupportedCompression),
            r is Ok ==> ({
                let g = r->Ok_0;
                &&& g.crc32 == le_value(bytes@, bytes@.len() - 8, 4)
                &&& g.size == le_value(bytes@, bytes@.len() - 4, 4)
                &&& g.calculated() == crc32_of(g.data@)
                &&& g.blocks@.len() >= 1
                &&& g.blocks@.last().is_last
                &&& (forall|j: int| 0 <= j < g.blocks@.len() - 1 ==> !(#[trigger] g.blocks@[j]).is_last)
                &&& (forall|j: int|
                    0 <= j < g.decode_items@.len() ==> item_block(#[trigger] g.decode_items@[j])
                        < g.blocks@.len())
                &&& g.headers.compression == Compression::Deflate
                &&& bytes@.len() >= 10
                &&& bytes@[0] == 0x1f && bytes@[1] == 0x8b && bytes@[2] == 8
                &&& g.headers.mtime == le_value(bytes@, 4, 4)
                &&& g.headers.is_text == (bytes@[3] & 1 == 1)
                &&& (g.headers.crc16 is Some) == (bytes@[3] & 2 == 2)
                &&& (g.headers.filename is Some) == (bytes@[3] & 8 == 8)
                &&& (g.headers.comment is Some) == (bytes@[3] & 16 == 16)
                &&& (bytes@[3] & 4 != 4 ==> g.headers.extra_fields@.len() == 0)
                &&& g.headers.compression_info == spec_compression_info(bytes@[8])
                &&& Some(g.headers.os) == spec_os(bytes@[9])
                &&& crate::deflate::blocks_attributed(
                    g.blocks@,
                    g.decode_items@,
                    crate::bit_iterator::stream_of(bytes@),
                )
            }),
            ({
                let stream = stream_of(bytes@);
                let he = member_header_end(bytes@);
                let p1 = crate::bit_iterator::align8((8 * he->Some_0 + 3) as nat);
                let len_v = crate::deflate::stored_field16(stream, p1 as int);
                (bytes@.len() >= 8 && he is Some && 8 * he->Some_0 + 3 <= stream.len() && stream[8
                    * he->Some_0] == true && lsb_value(
                    stream.subrange(8 * he->Some_0 + 1, 8 * he->Some_0 + 3),
                ) == 0) ==> (if p1 + 32 > stream.len() {
                    r == Err::<Gzip, GzipError>(GzipError::UnexpectedEndOfStream)
                } else if len_v + crate::deflate::stored_field16(stream, p1 as int + 16) != 0xFFFF {
                    r == Err::<Gzip, GzipError>(GzipError::StoredLenMismatch)
                } else if p1 + 32 + 8 * len_v > stream.len() {
                    r == Err::<Gzip, GzipError>(GzipError::UnexpectedEndOfStream)
                } else {
                    &&& r is Ok
                    &&& r->Ok_0.data@ == crate::deflate::stored_body_bytes(
                        stream,
                        p1 as int + 32,
                        len_v,
                    )
                    &&& r->Ok_0.decode_items@.len() == 0
                })
            }),
            ({
                let stream = stream_of(bytes@);
                let he = member_header_end(bytes@);
                (bytes@.len() >= 8 && he is Some && 8 * he->Some_0 + 3 <= stream.len() && stream[8
                    * he->Some_0] == true && lsb_value(
                    stream.subrange(8 * he->Some_0 + 1, 8 * he->Some_0 + 3),
                ) == 1) ==> exists|tn: Seq<TrieNode>|
                    {
                        &&& #[trigger] is_fixed_trie(tn)
                        &&& (match parse_body(tn, None, stream, (8 * he->Some_0 + 3) as nat, 0nat) {
                            BodyParse::Done { items: sitems, end } => {
                                &&& r is Ok
                                &&& items_match(r->Ok_0.decode_items@, sitems)
                                &&& r->Ok_0.data@ == apply_items(
                                    Seq::<u8>::empty(),
                                    r->Ok_0.decode_items@,
                                )
                            },
                            BodyParse::Fail { err } => r == Err::<Gzip, GzipError>(err),
                        })
                    }
            }),
    {
        if bytes.len() < 8 {
            return Err(GzipError::UnexpectedEndOfStream);
        }
        let mut tail: Vec<u8> = Vec::new();
        let mut k = bytes.len() - 8;
        while k < bytes.len()
            invariant
                bytes@.len() >= 8,
                bytes@.len() - 8 <= k <= bytes@.len(),
                tail@.len() == k - (bytes@.len() - 8),
                forall|i: int| 0 <= i < tail@.len() ==> tail@[i] == bytes@[bytes@.len() - 8 + i],
            decreases bytes@.len() - k,
        {
            tail.push(bytes[k]);
            k = k + 1;
        }
        let (crc32, size) = Gzip::read_trailing_data(&tail);
        proof {
            lemma_le_value_slice(tail@, bytes@, bytes@.len() - 8, 0, 4);
            lemma_le_value_slice(tail@, bytes@, bytes@.len() - 8, 4, 4);
        }
        let ghost gb = bytes@;
        let mut pos: usize = 0;
        let headers = match Headers::new(&bytes, &mut pos) {
            Ok(h) => h,
            Err(e) => {
                proof {
                    if member_header_end(gb) is Some {
                        assert(false);
                    }
                }
                return Err(e);
            },
        };
        proof {
            if member_header_end(gb) is Some {
                assert(pos == member_header_end(gb)->Some_0);
            }
        }
        let inflate_result = match inflate_at(bytes, pos) {
            Ok(res) => res,
            Err(e) => {
                proof {
                    let stream = stream_of(gb);
                    let he = member_header_end(gb);
                    if gb.len() >= 8 && he is Some && 8 * he->Some_0 + 3 <= stream.len()
                        && stream[8 * he->Some_0] == true && lsb_value(
                        stream.subrange(8 * he->Some_0 + 1, 8 * he->Some_0 + 3),
                    ) == 1 {
                        let tn = choose|tn: Seq<TrieNode>|
                            #[trigger] is_fixed_trie(tn) && (match parse_body(
                                tn,
                                None,
                                stream,
                                (8 * he->Some_0 + 3) as nat,
                                0nat,
                            ) {
                                BodyParse::Done { items: sitems, end } => false,
                                BodyParse::Fail { err } => e == err,
                            });
                        assert(is_fixed_trie(tn));
                    }
                }
                return Err(e);
            },
        };
        proof {
            let stream = stream_of(gb);
            let he = member_header_end(gb);
            if gb.len() >= 8 && he is Some && 8 * he->Some_0 + 3 <= stream.len() && stream[8
                * he->Some_0] == true && lsb_value(
                stream.subrange(8 * he->Some_0 + 1, 8 * he->Some_0 + 3),
            ) == 1 {
                let tn = choose|tn: Seq<TrieNode>|
                    #[trigger] is_fixed_trie(tn) && (match parse_body(
                        tn,
                        None,
                        stream,
                        (8 * he->Some_0 + 3) as nat,
                        0nat,
                    ) {
                        BodyParse::Done { items: sitems, end } => items_match(
                            inflate_result.decode_items@,
                            sitems,
                        ) && inflate_result.data@ == apply_items(
                            Seq::<u8>::empty(),
                            inflate_result.decode_items@,
                        ),
                        BodyParse::Fail { err } => false,
                    });
                assert(is_fixed_trie(tn));
            }
        }
        Ok(
            Gzip {
                headers,
                blocks: inflate_result.blocks,
                data: inflate_result.data,
                decode_items: inflate_result.decode_items,
                crc32,
                calculated_crc32: inflate_result.crc32,
                size,
            },
        )
    }

    /// Whether the data length matches the trailer's size field, modulo
    /// `2^32`.
    pub fn size_is_valid(&self) -> (r: bool)
        ensures
            r == (self.data@.len() % 0x1_0000_0000 == self.size),
    {
        (self.data.len() as u64) % 0x1_0000_0000u64 == (self.size as u64)
    }

    /// Whether the computed CRC-32 matches the trailer's.
    pub fn crc_is_valid(&self) -> (r: bool)
        ensures
            r == (self.crc32 == self.calculated()),
    {
        self.crc32 == self.calculated_crc32
    }

    /// The decoded data as text, or a placeholder when it is not UTF-8.
    pub fn as_string(&self) -> (r: String)
        ensures
            (utf8_decode(self.data@) matches Some(cs) ==> r@ == cs),
            utf8_decode(self.data@) is None ==> r@ == "<binary data>"@,
    {
        let mut copy: Vec<u8> = Vec::new();
        let mut k: usize = 0;
        while k < self.data.len()
            invariant
                k <= self.data@.len(),
                copy@ == self.data@.take(k as int),
            decreases self.data@.len() - k,
        {
            copy.push(self.data[k]);
            proof {
                assert(copy@ =~= self.data@.take(k + 1));
            }
            k = k + 1;
        }
        proof {
            assert(copy@ =~= self.data@);
        }
        match utf8_from_bytes(copy) {
            Some(s) => s,
            None => String::from_str("<binary data>"),
        }
    }
}

/// A little-endian field read from a copied slice equals the field read in
/// place.
proof fn lemma_le_value_slice(tail: Seq<u8>, bytes: Seq<u8>, off: int, p: int, k: nat)
    requires
        0 <= p,
        0 <= off,
        p + k <= tail.len(),
        off + tail.len() <= bytes.len(),
        forall|i: int| 0 <= i < tail.len() ==> tail[i] == bytes[off + i],
    ensures
        le_value(tail, p, k) == le_value(bytes, off + p, k),
    decreases k,
{
    if k > 0 {
        lemma_le_value_slice(tail, bytes, off, p + 1, (k - 1) as nat);
    }
}

} // verus!
