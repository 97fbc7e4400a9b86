//! The DEFLATE inflater: a state machine over blocks that parses each
//! block header, dispatches to the stored, fixed-Huffman or dynamic-Huffman
//! path, and emits uncompressed bytes, a running CRC-32 and a decode trace.

use vstd::prelude::*;
use crate::GzipError;
use crate::bit_iterator::BitIterator;
use crate::bit_iterator::align8;
use crate::bit_iterator::stream_of;
use crate::bit_iterator::lsb_value;
use crate::bit_iterator::msb_value;
use crate::crc32;
use crate::crc32::crc32_fold;
use crate::crc32::crc32_of;
use crate::crc32::crc32_update;
use crate::crc32::lemma_crc32_fold_push;
use crate::huffman::HuffmanNode;
use crate::huffman::TrieNode;
use crate::huffman::WalkResult;
use crate::huffman::walk;
use crate::huffman::accepts_all_codes;
use crate::huffman::code_bits;
use crate::huffman::meta_lengths;
use crate::huffman::nodes_wf;
use crate::huffman::decodes_only_present;
use crate::huffman::one_leaf_per_symbol;
use crate::huffman::fixed_lengths;

verus! {

/// The three DEFLATE block encodings.
#[derive(Debug, PartialEq, Eq, Structural, Clone, Copy)]
pub enum BlockEncoding {
    HuffmanFixed,
    HuffmanDynamic,
    Stored,
}

/// One decoded block: whether it was the last, and how it was encoded.
#[derive(Debug, PartialEq, Eq, Structural, Clone, Copy)]
pub struct Block {
    pub is_last: bool,
    pub encoding: BlockEncoding,
}

/// The exact input bits behind one trace item, and the block it came from.
#[derive(Debug)]
pub struct DecodeData {
    pub bits: Vec<bool>,
    pub block_id: usize,
}

/// One entry of the decode trace: a literal byte, or a back-reference.
#[derive(Debug)]
pub enum DecodeItem {
    Literal { value: u8, data: DecodeData },
    Match { length: u32, distance: u32, data: DecodeData },
}

/// Everything one inflate run produces.
#[derive(Debug)]
pub struct InflateResult {
    pub blocks: Vec<Block>,
    pub decode_items: Vec<DecodeItem>,
    pub data: Vec<u8>,
    pub crc32: u32,
}

/// The input bits a trace item records.
pub open spec fn item_bits(it: DecodeItem) -> Seq<bool> {
    match it {
        DecodeItem::Literal { data, .. } => data.bits@,
        DecodeItem::Match { data, .. } => data.bits@,
    }
}

/// The block index a trace item carries.
pub open spec fn item_block(it: DecodeItem) -> usize {
    match it {
        DecodeItem::Literal { data, .. } => data.block_id,
        DecodeItem::Match { data, .. } => data.block_id,
    }
}

/// The bits of a run of trace items, concatenated in order.
pub open spec fn concat_bits(items: Seq<DecodeItem>) -> Seq<bool>
    decreases items.len(),
{
    if items.len() == 0 {
        Seq::<bool>::empty()
    } else {
        concat_bits(items.drop_last()) + item_bits(items.last())
    }
}

/// The output buffer after a back-reference copy: `length` bytes appended
/// one at a time, each read `distance` bytes behind the write position, so
/// the copy may reread bytes it has itself produced.
pub open spec fn match_expand(data: Seq<u8>, length: nat, distance: nat) -> Seq<u8>
    recommends
        1 <= distance <= data.len(),
    decreases length,
{
    if length == 0 {
        data
    } else {
        match_expand(data.push(data[data.len() - distance]), (length - 1) as nat, distance)
    }
}

/// The output buffer after replaying a run of trace items.
pub open spec fn apply_items(data: Seq<u8>, items: Seq<DecodeItem>) -> Seq<u8>
    decreases items.len(),
{
    if items.len() == 0 {
        data
    } else {
        let d = apply_items(data, items.drop_last());
        match items.last() {
            DecodeItem::Literal { value, .. } => d.push(value),
            DecodeItem::Match { length, distance, .. } => match_expand(
                d,
                length as nat,
                distance as nat,
            ),
        }
    }
}

/// What one step of a block body emits, at the specification level: a
/// literal byte or a back-reference, with how many input bits it took.
pub enum SpecItem {
    Lit { value: u8, nbits: nat },
    Rep { length: u32, distance: u32, nbits: nat },
}

/// The outcome of parsing a block body from the bit stream.
pub enum BodyParse {
    Done { items: Seq<SpecItem>, end: nat },
    Fail { err: GzipError },
}

/// Prepend already-parsed items to a parse outcome.
pub open spec fn body_prepend(its: Seq<SpecItem>, b: BodyParse) -> BodyParse {
    match b {
        BodyParse::Done { items, end } => BodyParse::Done { items: its + items, end },
        BodyParse::Fail { err } => BodyParse::Fail { err },
    }
}

/// The block body as a function of the bits alone: decode literal/length
/// symbols from `lit` until the end-of-block symbol 256, reading a length
/// and a distance after each match symbol; `produced` counts the output
/// bytes a back-reference may reach. The two impossible-looking failure
/// guards close the cases a malformed trie could reach; well-formed tries
/// never do.
pub open spec fn parse_body(
    lit: Seq<TrieNode>,
    droot: Option<Seq<TrieNode>>,
    stream: Seq<bool>,
    pos: nat,
    produced: nat,
) -> BodyParse
    decreases stream.len() - pos,
{
    if pos > stream.len() {
        BodyParse::Fail { err: GzipError::UnexpectedEndOfStream }
    } else {
        match walk(lit, 0, stream.subrange(pos as int, stream.len() as int)) {
            WalkResult::Short => BodyParse::Fail { err: GzipError::UnexpectedEndOfStream },
            WalkResult::Dead { .. } => BodyParse::Fail { err: GzipError::BadHuffmanWalk },
            WalkResult::Found { sym, used } => {
                if used == 0 || pos + used > stream.len() {
                    BodyParse::Fail { err: GzipError::BadHuffmanWalk }
                } else {
                    let p1 = pos + used;
                    if sym < 256 {
                        body_prepend(
                            seq![SpecItem::Lit { value: sym as u8, nbits: used }],
                            parse_body(lit, droot, stream, p1, produced + 1),
                        )
                    } else if sym == 256 {
                        BodyParse::Done { items: Seq::<SpecItem>::empty(), end: p1 }
                    } else if sym <= 285 {
                        let (lr, p2) = spec_decode_length(sym, stream, p1);
                        match lr {
                            Err(e) => BodyParse::Fail { err: e },
                            Ok(length) => {
                                let (dr, p3) = spec_decode_distance(droot, stream, p2);
                                match dr {
                                    Err(e) => BodyParse::Fail { err: e },
                                    Ok(distance) => {
                                        if distance > produced {
                                            BodyParse::Fail { err: GzipError::BadBackReference }
                                        } else if produced > usize::MAX - 258 {
                                            BodyParse::Fail { err: GzipError::BadBackReference }
                                        } else if p3 <= pos || p3 > stream.len() {
                                            BodyParse::Fail { err: GzipError::BadHuffmanWalk }
                                        } else {
                                            body_prepend(
                                                seq![
                                                    SpecItem::Rep {
                                                        length,
                                                        distance,
                                                        nbits: (p3 - pos) as nat,
                                                    },
                                                ],
                                                parse_body(
                                                    lit,
                                                    droot,
                                                    stream,
                                                    p3,
                                                    (produced + length) as nat,
                                                ),
                                            )
                                        }
                                    },
                                }
                            },
                        }
                    } else {
                        BodyParse::Fail { err: GzipError::BadLiteralLengthSymbol }
                    }
                }
            },
        }
    }
}

/// One emitted trace item carries what its specification item says.
pub open spec fn item_matches(it: DecodeItem, si: SpecItem) -> bool {
    match (it, si) {
        (
            DecodeItem::Literal { value, data },
            SpecItem::Lit { value: v2, nbits },
        ) => value == v2 && data.bits@.len() == nbits,
        (
            DecodeItem::Match { length, distance, data },
            SpecItem::Rep { length: l2, distance: d2, nbits },
        ) => length == l2 && distance == d2 && data.bits@.len() == nbits,
        _ => false,
    }
}

/// The emitted trace items carry exactly what the parse says, in order.
pub open spec fn items_match(added: Seq<DecodeItem>, sitems: Seq<SpecItem>) -> bool {
    &&& added.len() == sitems.len()
    &&& forall|j: int| 0 <= j < added.len() ==> item_matches(#[trigger] added[j], sitems[j])
}

/// Each block's trace items sit in one contiguous run, and their bits,
/// concatenated, are one contiguous stretch of the input bit stream (the
/// block header, any tree description, and the end-of-block code lie
/// outside the items' stretch).
pub open spec fn blocks_attributed(
    blocks: Seq<Block>,
    items: Seq<DecodeItem>,
    stream: Seq<bool>,
) -> bool {
    forall|b: int|
        #![trigger blocks[b]]
        0 <= b < blocks.len() ==> exists|lo: int, hi: int, td: int, te: int|
            #![trigger items.subrange(lo, hi), stream.subrange(td, te)]
            {
                &&& 0 <= lo <= hi <= items.len()
                &&& (forall|j: int|
                    0 <= j < items.len() ==> (lo <= j < hi <==> item_block(#[trigger] items[j])
                        == b))
                &&& (blocks[b].encoding == BlockEncoding::Stored ==> lo == hi)
                &&& 0 <= td <= te <= stream.len()
                &&& concat_bits(items.subrange(lo, hi)) == stream.subrange(td, te)
            }
}

/// Prepending composes by concatenation.
proof fn lemma_body_prepend_assoc(a: Seq<SpecItem>, b: Seq<SpecItem>, x: BodyParse)
    ensures
        body_prepend(a, body_prepend(b, x)) == body_prepend(a + b, x),
{
    match x {
        BodyParse::Done { items, end } => {
            assert(a + (b + items) =~= (a + b) + items);
        },
        BodyParse::Fail { .. } => {},
    }
}

proof fn lemma_apply_items_push(data: Seq<u8>, items: Seq<DecodeItem>, it: DecodeItem)
    ensures
        apply_items(data, items.push(it)) == (match it {
            DecodeItem::Literal { value, .. } => apply_items(data, items).push(value),
            DecodeItem::Match { length, distance, .. } => match_expand(
                apply_items(data, items),
                length as nat,
                distance as nat,
            ),
        }),
{
    assert(items.push(it).drop_last() =~= items);
    assert(items.push(it).last() == it);
}

/// A back-reference at distance 1 replicates the last byte of the buffer:
/// the copy keeps rereading the byte it has just written.
pub proof fn lemma_match_distance_one(data: Seq<u8>, length: nat)
    requires
        data.len() >= 1,
    ensures
        match_expand(data, length, 1).len() == data.len() + length,
        forall|j: int|
            0 <= j < data.len() ==> #[trigger] match_expand(data, length, 1)[j] == data[j],
        forall|j: int|
            data.len() <= j < data.len() + length ==> #[trigger] match_expand(data, length, 1)[j]
                == data.last(),
    decreases length,
{
    if length > 0 {
        let d2 = data.push(data.last());
        assert(data[data.len() - 1] == data.last());
        lemma_match_distance_one(d2, (length - 1) as nat);
        assert(d2.last() == data.last());
    }
}

/// The length of an expanded back-reference.
pub proof fn lemma_match_expand_len(data: Seq<u8>, length: nat, distance: nat)
    ensures
        match_expand(data, length, distance).len() == data.len() + length,
        forall|j: int|
            0 <= j < data.len() ==> #[trigger] match_expand(data, length, distance)[j] == data[j],
    decreases length,
{
    if length > 0 {
        lemma_match_expand_len(
            data.push(data[data.len() - distance]),
            (length - 1) as nat,
            distance,
        );
    }
}

/// Peeling one copied byte off the back of an expansion.
proof fn lemma_match_expand_step(data: Seq<u8>, k: nat, distance: nat)
    requires
        k >= 1,
    ensures
        match_expand(data, k, distance) == ({
            let d = match_expand(data, (k - 1) as nat, distance);
            d.push(d[d.len() - distance])
        }),
    decreases k,
{
    if k == 1 {
        assert(match_expand(data, 1, distance) == match_expand(
            data.push(data[data.len() - distance]),
            0,
            distance,
        ));
        assert(match_expand(data, 0, distance) == data);
    } else {
        let d1 = data.push(data[data.len() - distance]);
        lemma_match_expand_step(d1, (k - 1) as nat, distance);
        assert(match_expand(data, k, distance) == match_expand(d1, (k - 1) as nat, distance));
        assert(match_expand(data, (k - 1) as nat, distance) == match_expand(
            d1,
            (k - 2) as nat,
            distance,
        ));
    }
}

/// How many extra bits follow a length symbol.
pub open spec fn spec_length_extra_bits(code: u32) -> nat {
    if 265 <= code <= 284 {
        ((code - 261) / 4) as nat
    } else {
        0
    }
}

/// The base value added to the extra bits of a length symbol.
pub open spec fn spec_length_addend(i: int) -> nat {
    if i == 0 {
        11
    } else if i == 1 {
        13
    } else if i == 2 {
        15
    } else if i == 3 {
        17
    } else if i == 4 {
        19
    } else if i == 5 {
        23
    } else if i == 6 {
        27
    } else if i == 7 {
        31
    } else if i == 8 {
        35
    } else if i == 9 {
        43
    } else if i == 10 {
        51
    } else if i == 11 {
        59
    } else if i == 12 {
        67
    } else if i == 13 {
        83
    } else if i == 14 {
        99
    } else if i == 15 {
        115
    } else if i == 16 {
        131
    } else if i == 17 {
        163
    } else if i == 18 {
        195
    } else {
        227
    }
}

/// The match length a length symbol and its extra bits stand for.
pub open spec fn spec_length_value(code: u32, extra: nat) -> nat {
    if code <= 264 {
        (code - 254) as nat
    } else if code == 285 {
        258
    } else {
        extra + spec_length_addend(code - 265)
    }
}

/// How many extra bits follow a distance code.
pub open spec fn spec_dist_extra_bits(code: u32) -> nat {
    if code <= 3 {
        0
    } else {
        ((code - 2) / 2) as nat
    }
}

/// The base value added to the extra bits of a distance code.
pub open spec fn spec_dist_addend(i: int) -> nat {
    if i == 0 {
        5
    } else if i == 1 {
        7
    } else if i == 2 {
        9
    } else if i == 3 {
        13
    } else if i == 4 {
        17
    } else if i == 5 {
        25
    } else if i == 6 {
        33
    } else if i == 7 {
        49
    } else if i == 8 {
        65
    } else if i == 9 {
        97
    } else if i == 10 {
        129
    } else if i == 11 {
        193
    } else if i == 12 {
        257
    } else if i == 13 {
        385
    } else if i == 14 {
        513
    } else if i == 15 {
        769
    } else if i == 16 {
        1025
    } else if i == 17 {
        1537
    } else if i == 18 {
        2049
    } else if i == 19 {
        3073
    } else if i == 20 {
        4097
    } else if i == 21 {
        6145
    } else if i == 22 {
        8193
    } else if i == 23 {
        12289
    } else if i == 24 {
        16385
    } else {
        24577
    }
}

/// The look-back distance a distance code and its extra bits stand for.
pub open spec fn spec_dist_value(code: u32, extra: nat) -> nat {
    if code <= 3 {
        (code + 1) as nat
    } else {
        extra + spec_dist_addend(code - 4)
    }
}

/// What decoding a match length from the stream yields: the value and the
/// position after its extra bits, or a failure leaving the position put.
pub open spec fn spec_decode_length(code: u32, stream: Seq<bool>, pos: nat) -> (Result<
    u32,
    GzipError,
>, nat) {
    let eb = spec_length_extra_bits(code);
    if pos + eb > stream.len() {
        (Err(GzipError::UnexpectedEndOfStream), pos)
    } else {
        let extra = lsb_value(stream.subrange(pos as int, (pos + eb) as int));
        (Ok(spec_length_value(code, extra) as u32), pos + eb)
    }
}

/// What decoding the arithmetic part of a distance yields, once the 5-bit
/// code itself is in hand.
pub open spec fn spec_decode_dist_tail(code: u32, stream: Seq<bool>, pos: nat) -> (Result<
    u32,
    GzipError,
>, nat) {
    if code > 29 {
        (Err(GzipError::BadDistanceCode), pos)
    } else {
        let eb = spec_dist_extra_bits(code);
        if pos + eb > stream.len() {
            (Err(GzipError::UnexpectedEndOfStream), pos)
        } else {
            let extra = lsb_value(stream.subrange(pos as int, (pos + eb) as int));
            (Ok(spec_dist_value(code, extra) as u32), pos + eb)
        }
    }
}

/// What decoding a whole distance yields: the 5-bit code comes from the
/// distance tree in dynamic blocks, or from 5 raw MSB-first bits in fixed
/// blocks, then the extra bits follow.
pub open spec fn spec_decode_distance(
    droot: Option<Seq<TrieNode>>,
    stream: Seq<bool>,
    pos: nat,
) -> (Result<u32, GzipError>, nat) {
    match droot {
        None => {
            if pos + 5 > stream.len() {
                (Err(GzipError::UnexpectedEndOfStream), pos)
            } else {
                let code = msb_value(stream.subrange(pos as int, (pos + 5) as int));
                spec_decode_dist_tail(code as u32, stream, pos + 5)
            }
        },
        Some(nodes) => {
            match walk(nodes, 0, stream.subrange(pos as int, stream.len() as int)) {
                WalkResult::Found { sym, used } => spec_decode_dist_tail(sym, stream, pos + used),
                WalkResult::Dead { used } => (Err(GzipError::BadHuffmanWalk), pos + used),
                WalkResult::Short => (Err(GzipError::UnexpectedEndOfStream), stream.len()),
            }
        },
    }
}

/// The exec mirror of `spec_length_addend`.
fn length_addend_at(i: usize) -> (r: u32)
    requires
        i < 20,
    ensures
        r == spec_length_addend(i as int),
{
    if i == 0 {
        11
    } else if i == 1 {
        13
    } else if i == 2 {
        15
    } else if i == 3 {
        17
    } else if i == 4 {
        19
    } else if i == 5 {
        23
    } else if i == 6 {
        27
    } else if i == 7 {
        31
    } else if i == 8 {
        35
    } else if i == 9 {
        43
    } else if i == 10 {
        51
    } else if i == 11 {
        59
    } else if i == 12 {
        67
    } else if i == 13 {
        83
    } else if i == 14 {
        99
    } else if i == 15 {
        115
    } else if i == 16 {
        131
    } else if i == 17 {
        163
    } else if i == 18 {
        195
    } else {
        227
    }
}

/// The exec mirror of `spec_dist_addend`.
fn dist_addend_at(i: usize) -> (r: u32)
    requires
        i < 26,
    ensures
        r == spec_dist_addend(i as int),
{
    if i == 0 {
        5
    } else if i == 1 {
        7
    } else if i == 2 {
        9
    } else if i == 3 {
        13
    } else if i == 4 {
        17
    } else if i == 5 {
        25
    } else if i == 6 {
        33
    } else if i == 7 {
        49
    } else if i == 8 {
        65
    } else if i == 9 {
        97
    } else if i == 10 {
        129
    } else if i == 11 {
        193
    } else if i == 12 {
        257
    } else if i == 13 {
        385
    } else if i == 14 {
        513
    } else if i == 15 {
        769
    } else if i == 16 {
        1025
    } else if i == 17 {
        1537
    } else if i == 18 {
        2049
    } else if i == 19 {
        3073
    } else if i == 20 {
        4097
    } else if i == 21 {
        6145
    } else if i == 22 {
        8193
    } else if i == 23 {
        12289
    } else if i == 24 {
        16385
    } else {
        24577
    }
}

struct Inflate {
    result: InflateResult,
    bits: BitIterator,
    cur_block_index: usize,
}

/// The 16-bit little-endian field at bit position `p` of the stream.
pub open spec fn stored_field16(stream: Seq<bool>, p: int) -> nat {
    (lsb_value(stream.subrange(p, p + 8)) + 256 * lsb_value(
        stream.subrange(p + 8, p + 16),
    )) as nat
}

/// The raw bytes of a stored block body starting at bit position `p`.
/// A decoding trie that realizes the fixed code of RFC 1951: well
/// formed, decoding every symbol at exactly its canonical code over the
/// fixed lengths, and nothing else.
pub open spec fn is_fixed_trie(tn: Seq<TrieNode>) -> bool {
    &&& nodes_wf(tn)
    &&& accepts_all_codes(fixed_lengths(), tn)
    &&& decodes_only_present(fixed_lengths(), tn)
    &&& one_leaf_per_symbol(tn)
}

/// The `HCLEN + 4` transmitted three-bit code-length keys of a dynamic
/// block header, read LSB-first from bit position `ps`.
pub open spec fn dyn_header_keys(stream: Seq<bool>, ps: int, ncl: int) -> Seq<u8> {
    Seq::new(ncl as nat, |j: int| lsb_value(stream.subrange(ps + 3 * j, ps + 3 * j + 3)) as u8)
}

/// A dynamic block header whose first code-length symbol is the
/// run-length code 16: "repeat the previous length" arrives before any
/// length has been read. `p0` is the bit position of `HLIT`.
pub open spec fn dyn_header_starts_with_repeat(stream: Seq<bool>, p0: int) -> bool {
    let ncl = lsb_value(stream.subrange(p0 + 10, p0 + 14)) + 4;
    let ps = p0 + 14;
    let ml = meta_lengths(dyn_header_keys(stream, ps, ncl as int));
    let pd = ps + 3 * ncl;
    &&& p0 + 14 <= stream.len()
    &&& ml[16] > 0
    &&& pd + ml[16] <= stream.len()
    &&& stream.subrange(pd as int, pd + ml[16]) == code_bits(ml, 16)
}

pub open spec fn stored_body_bytes(stream: Seq<bool>, p: int, len_v: nat) -> Seq<u8> {
    Seq::new(len_v, |k: int| lsb_value(stream.subrange(p + 8 * k, p + 8 * k + 8)) as u8)
}

impl InflateResult {
    fn empty() -> (r: InflateResult)
        ensures
            r.blocks@ == Seq::<Block>::empty(),
            r.decode_items@ == Seq::<DecodeItem>::empty(),
            r.data@ == Seq::<u8>::empty(),
            r.crc32 == 0xFFFF_FFFFu32,
    {
        InflateResult {
            blocks: Vec::new(),
            data: Vec::new(),
            decode_items: Vec::new(),
            crc32: crc32::initial_value(),
        }
    }
}

impl Inflate {
    spec fn wf(&self) -> bool {
        &&& self.bits.wf()
        &&& self.result.crc32 == crc32_fold(0xFFFF_FFFFu32, self.result.data@)
    }

    fn new(bits: BitIterator) -> (r: Inflate)
        requires
            bits.wf(),
        ensures
            r.wf(),
            r.bits == bits,
            r.result.blocks@ == Seq::<Block>::empty(),
            r.result.decode_items@ == Seq::<DecodeItem>::empty(),
            r.result.data@ == Seq::<u8>::empty(),
            r.cur_block_index == 0,
    {
        Inflate { result: InflateResult::empty(), bits, cur_block_index: 0 }
    }

    fn update_crc32(&mut self, byte: u8)
        ensures
            final(self).result.crc32 == crc32_update(old(self).result.crc32, byte),
            final(self).result.data == old(self).result.data,
            final(self).result.blocks == old(self).result.blocks,
            final(self).result.decode_items == old(self).result.decode_items,
            final(self).bits == old(self).bits,
            final(self).cur_block_index == old(self).cur_block_index,
    {
        self.result.crc32 = crc32::update(self.result.crc32, byte);
    }

    fn append_data(&mut self, byte: u8)
        requires
            old(self).wf(),
        ensures
            final(self).wf(),
            final(self).result.data@ == old(self).result.data@.push(byte),
            final(self).result.blocks == old(self).result.blocks,
            final(self).result.decode_items == old(self).result.decode_items,
            final(self).bits == old(self).bits,
            final(self).cur_block_index == old(self).cur_block_index,
    {
        proof {
            lemma_crc32_fold_push(0xFFFF_FFFFu32, self.result.data@, byte);
        }
        self.result.data.push(byte);
        self.update_crc32(byte);
    }

    /// Append a literal byte and record the bits that produced it.
    fn push_literal(&mut self, byte: u8)
        requires
            old(self).wf(),
        ensures
            final(self).wf(),
            final(self).bits.bits() == old(self).bits.bits(),
            final(self).bits.position() == old(self).bits.position(),
            final(self).bits.buffer() == Seq::<bool>::empty(),
            final(self).result.data@ == old(self).result.data@.push(byte),
            final(self).result.blocks == old(self).result.blocks,
            final(self).cur_block_index == old(self).cur_block_index,
            final(self).result.decode_items@.len() == old(self).result.decode_items@.len() + 1,
            final(self).result.decode_items@.drop_last() == old(self).result.decode_items@,
            (final(self).result.decode_items@.last() matches DecodeItem::Literal {
                value,
                data,
            } && value == byte && data.bits@ == old(self).bits.buffer() && data.block_id == old(
                self,
            ).cur_block_index),
    {
        let flushed = self.bits.flush_buffer();
        let data = DecodeData { bits: flushed, block_id: self.cur_block_index };
        self.result.decode_items.push(DecodeItem::Literal { value: byte, data });
        self.append_data(byte);
        proof {
            assert(final(self).result.decode_items@.drop_last() =~= old(
                self,
            ).result.decode_items@);
        }
    }

    /// Copy a back-reference into the output byte by byte (the source may
    /// overlap the bytes this very copy writes) and record its bits.
    fn push_match(&mut self, length: u32, distance: u32)
        requires
            old(self).wf(),
            1 <= distance,
            distance as nat <= old(self).result.data@.len(),
            length as nat + old(self).result.data@.len() <= usize::MAX,
        ensures
            final(self).wf(),
            final(self).bits.bits() == old(self).bits.bits(),
            final(self).bits.position() == old(self).bits.position(),
            final(self).bits.buffer() == Seq::<bool>::empty(),
            final(self).result.data@ == match_expand(
                old(self).result.data@,
                length as nat,
                distance as nat,
            ),
            final(self).result.blocks == old(self).result.blocks,
            final(self).cur_block_index == old(self).cur_block_index,
            final(self).result.decode_items@.len() == old(self).result.decode_items@.len() + 1,
            final(self).result.decode_items@.drop_last() == old(self).result.decode_items@,
            (final(self).result.decode_items@.last() matches DecodeItem::Match {
                length: l,
                distance: d,
                data,
            } && l == length && d == distance && data.bits@ == old(self).bits.buffer()
                && data.block_id == old(self).cur_block_index),
    {
        let ghost data0 = self.result.data@;
        let v_idx = self.result.data.len() - (distance as usize);
        let mut i: usize = 0;
        while i < length as usize
            invariant
                self.wf(),
                i <= length,
                1 <= distance,
                v_idx == data0.len() - distance as nat,
                data0.len() + length <= usize::MAX,
                self.result.data@.len() == data0.len() + i,
                self.result.data@ == match_expand(data0, i as nat, distance as nat),
                match_expand(data0, length as nat, distance as nat) == match_expand(
                    self.result.data@,
                    (length - i) as nat,
                    distance as nat,
                ),
                self.result.blocks == old(self).result.blocks,
                self.result.decode_items == old(self).result.decode_items,
                self.bits == old(self).bits,
                self.cur_block_index == old(self).cur_block_index,
            decreases length - i,
        {
            let ghost before = self.result.data@;
            let val = self.result.data[v_idx + i];
            proof {
                assert(before[v_idx + i] == before[before.len() - distance as nat]);
            }
            self.append_data(val);
            proof {
                assert(self.result.data@ == before.push(before[before.len() - distance as nat]));
                assert(match_expand(before, (length - i) as nat, distance as nat) == match_expand(
                    self.result.data@,
                    (length - i - 1) as nat,
                    distance as nat,
                ));
                assert(self.result.data@ == match_expand(data0, (i + 1) as nat, distance as nat))
                    by {
                    lemma_match_expand_step(data0, i as nat + 1, distance as nat);
                }
            }
            i = i + 1;
        }
        let flushed = self.bits.flush_buffer();
        let data = DecodeData { bits: flushed, block_id: self.cur_block_index };
        self.result.decode_items.push(DecodeItem::Match { length, distance, data });
        proof {
            assert(final(self).result.decode_items@.drop_last() =~= old(
                self,
            ).result.decode_items@);
        }
    }

    /// Decode the match length a literal/length symbol in 257..=285 stands
    /// for, reading its extra bits.
    fn decode_length(&mut self, code: u32) -> (r: Result<u32, GzipError>)
        requires
            old(self).wf(),
            257 <= code <= 285,
        ensures
            final(self).wf(),
            final(self).bits.bits() == old(self).bits.bits(),
            final(self).result == old(self).result,
            final(self).cur_block_index == old(self).cur_block_index,
            ({
                let (rr, p2) = spec_decode_length(
                    code,
                    old(self).bits.bits(),
                    old(self).bits.position(),
                );
                r == rr && final(self).bits.position() == p2
            }),
            final(self).bits.buffer() == old(self).bits.buffer() + old(self).bits.bits().subrange(
                old(self).bits.position() as int,
                final(self).bits.position() as int,
            ),
            final(self).bits.position() >= old(self).bits.position(),
            r is Ok ==> 3 <= r->Ok_0 <= 258,
    {
        proof {
            old(self).bits.lemma_wf();
            assert(old(self).bits.bits().subrange(
                old(self).bits.position() as int,
                old(self).bits.position() as int,
            ) =~= Seq::<bool>::empty());
        }
        if code <= 264 {
            proof {
                assert(self.bits.buffer() =~= old(self).bits.buffer() + old(
                    self,
                ).bits.bits().subrange(
                    old(self).bits.position() as int,
                    old(self).bits.position() as int,
                ));
            }
            return Ok(code - 257 + 3);
        }
        if code == 285 {
            proof {
                assert(self.bits.buffer() =~= old(self).bits.buffer() + old(
                    self,
                ).bits.bits().subrange(
                    old(self).bits.position() as int,
                    old(self).bits.position() as int,
                ));
            }
            return Ok(258);
        }
        let extra_bits = ((code - 261) / 4) as u8;
        if self.bits.remaining() < extra_bits as usize {
            proof {
                assert(self.bits.buffer() =~= old(self).bits.buffer() + old(
                    self,
                ).bits.bits().subrange(
                    old(self).bits.position() as int,
                    old(self).bits.position() as int,
                ));
            }
            return Err(GzipError::UnexpectedEndOfStream);
        }
        let length = self.bits.read_bits_inv(extra_bits);
        proof {
            vstd::arithmetic::power2::lemma2_to64();
            assert(length < vstd::arithmetic::power2::pow2(extra_bits as nat));
        }
        Ok(length + length_addend_at((code - 265) as usize))
    }

    /// Decode a whole distance: the 5-bit distance code (from the distance
    /// tree in dynamic blocks, from 5 raw MSB-first bits in fixed blocks)
    /// followed by its extra bits.
    fn decode_distance(&mut self, distances_root: &Option<HuffmanNode>) -> (r: Result<
        u32,
        GzipError,
    >)
        requires
            old(self).wf(),
            (old(self).spec_droot(*distances_root) matches Some(nodes) ==> crate::huffman::nodes_wf(
                nodes,
            )),
        ensures
            final(self).wf(),
            final(self).bits.bits() == old(self).bits.bits(),
            final(self).result == old(self).result,
            final(self).cur_block_index == old(self).cur_block_index,
            ({
                let (rr, p2) = spec_decode_distance(
                    old(self).spec_droot(*distances_root),
                    old(self).bits.bits(),
                    old(self).bits.position(),
                );
                r == rr && final(self).bits.position() == p2
            }),
            final(self).bits.buffer() == old(self).bits.buffer() + old(self).bits.bits().subrange(
                old(self).bits.position() as int,
                final(self).bits.position() as int,
            ),
            final(self).bits.position() >= old(self).bits.position(),
            r is Ok ==> 1 <= r->Ok_0 <= 32768,
    {
        let ghost all = old(self).bits.bits();
        let ghost p0 = old(self).bits.position();
        let ghost droot = old(self).spec_droot(*distances_root);
        proof {
            old(self).bits.lemma_wf();
        }
        let code: u32 = match distances_root {
            Some(node) => {
                let ghost rem = all.subrange(p0 as int, all.len() as int);
                match node.decode_stream(&mut self.bits) {
                    Ok(c) => {
                        proof {
                            self.bits.lemma_wf();
                            let w = walk(node@, 0, rem);
                            assert(w matches WalkResult::Found { sym, used } && sym == c
                                && self.bits.position() == p0 + used);
                            assert(rem.take((self.bits.position() - p0) as int) =~= all.subrange(
                                p0 as int,
                                self.bits.position() as int,
                            ));
                        }
                        c
                    },
                    Err(e) => {
                        proof {
                            self.bits.lemma_wf();
                            match walk(node@, 0, rem) {
                                WalkResult::Found { .. } => {},
                                WalkResult::Dead { used } => {
                                    assert(rem.take(used as int) =~= all.subrange(
                                        p0 as int,
                                        (p0 + used) as int,
                                    ));
                                },
                                WalkResult::Short => {
                                    assert(rem =~= all.subrange(
                                        p0 as int,
                                        self.bits.position() as int,
                                    ));
                                },
                            }
                        }
                        return Err(e);
                    },
                }
            },
            None => {
                if self.bits.remaining() < 5 {
                    proof {
                        assert(self.bits.buffer() =~= old(self).bits.buffer() + all.subrange(
                            p0 as int,
                            p0 as int,
                        ));
                    }
                    return Err(GzipError::UnexpectedEndOfStream);
                }
                self.bits.read_bits(5)
            },
        };
        let ghost mid = self.bits.position();
        proof {
            self.bits.lemma_wf();
            assert(self.bits.buffer() == old(self).bits.buffer() + all.subrange(
                p0 as int,
                mid as int,
            ));
            assert(spec_decode_distance(droot, all, p0) == spec_decode_dist_tail(code, all, mid));
        }
        if code > 29 {
            return Err(GzipError::BadDistanceCode);
        }
        if code <= 3 {
            proof {
                assert(all.subrange(mid as int, mid as int) =~= Seq::<bool>::empty());
                assert(lsb_value(all.subrange(mid as int, mid as int)) == 0);
            }
            return Ok(code + 1);
        }
        let extra_bits_to_read = ((code - 2) / 2) as u8;
        if self.bits.remaining() < extra_bits_to_read as usize {
            return Err(GzipError::UnexpectedEndOfStream);
        }
        let extra_dist = self.bits.read_bits_inv(extra_bits_to_read);
        proof {
            vstd::arithmetic::power2::lemma2_to64();
            assert(extra_bits_to_read <= 13);
            assert(vstd::arithmetic::power2::pow2(extra_bits_to_read as nat) <= vstd::arithmetic::power2::pow2(13)) by {
                if (extra_bits_to_read as nat) < 13 {
                    vstd::arithmetic::power2::lemma_pow2_strictly_increases(
                        extra_bits_to_read as nat,
                        13,
                    );
                }
            }
            assert(extra_dist < 8192);
            lemma_buffer_chain(old(self).bits.buffer(), all, p0 as int, mid as int, self.bits.position() as int);
        }
        Ok(extra_dist + dist_addend_at((code - 4) as usize))
    }

    /// The decoding view of an optional distance tree.
    spec fn spec_droot(&self, droot: Option<HuffmanNode>) -> Option<Seq<TrieNode>> {
        match droot {
            Some(t) => Some(t@),
            None => None,
        }
    }

    /// Decode a stored block: skip to the byte boundary, read `LEN` and its
    /// complement `NLEN`, then copy `LEN` raw bytes to the output.
    fn read_stored_block(&mut self) -> (r: Result<(), GzipError>)
        requires
            old(self).wf(),
        ensures
            final(self).wf(),
            final(self).bits.bits() == old(self).bits.bits(),
            final(self).result.blocks == old(self).result.blocks,
            final(self).result.decode_items == old(self).result.decode_items,
            final(self).cur_block_index == old(self).cur_block_index,
            final(self).bits.position() >= align8(old(self).bits.position()),
            final(self).result.data@.len() >= old(self).result.data@.len(),
            final(self).result.data@.take(old(self).result.data@.len() as int) == old(
                self,
            ).result.data@,
            ({
                let stream = old(self).bits.bits();
                let p1 = align8(old(self).bits.position());
                let t = stream.len();
                if p1 + 32 > t {
                    r == Err::<(), GzipError>(GzipError::UnexpectedEndOfStream)
                } else {
                    let len_v = stored_field16(stream, p1 as int);
                    let nlen_v = stored_field16(stream, p1 as int + 16);
                    if len_v + nlen_v != 0xFFFF {
                        r == Err::<(), GzipError>(GzipError::StoredLenMismatch)
                    } else if p1 + 32 + 8 * len_v > t {
                        r == Err::<(), GzipError>(GzipError::UnexpectedEndOfStream)
                    } else {
                        &&& r == Ok::<(), GzipError>(())
                        &&& final(self).bits.position() == p1 + 32 + 8 * len_v
                        &&& final(self).result.data@ == old(self).result.data@
                            + stored_body_bytes(stream, p1 as int + 32, len_v)
                    }
                }
            }),
    {
        let ghost stream = old(self).bits.bits();
        let ghost data0 = old(self).result.data@;
        proof {
            old(self).bits.lemma_wf();
        }
        self.bits.discard_extra_bits();
        let ghost p1 = self.bits.position();
        proof {
            self.bits.lemma_wf();
        }
        if self.bits.remaining() < 32 {
            proof {
                assert(final(self).result.data@.take(data0.len() as int) =~= data0);
            }
            return Err(GzipError::UnexpectedEndOfStream);
        }
        proof {
            vstd::arithmetic::power2::lemma2_to64();
        }
        let le = self.bits.read_bits_inv(8);
        let be = self.bits.read_bits_inv(8);
        let len: u32 = (be << 8u32) | le;
        proof {
            lemma_or_shl8(be, le);
        }
        let le2 = self.bits.read_bits_inv(8);
        let be2 = self.bits.read_bits_inv(8);
        let nlen: u32 = (be2 << 8u32) | le2;
        proof {
            lemma_or_shl8(be2, le2);
        }
        if len != (!nlen & 0xFFFF) {
            proof {
                lemma_complement16(len, nlen);
                assert(final(self).result.data@.take(data0.len() as int) =~= data0);
            }
            return Err(GzipError::StoredLenMismatch);
        }
        proof {
            lemma_complement16(len, nlen);
        }
        if (self.bits.remaining() as u64) < 8u64 * (len as u64) {
            proof {
                assert(final(self).result.data@.take(data0.len() as int) =~= data0);
            }
            return Err(GzipError::UnexpectedEndOfStream);
        }
        let mut k: u32 = 0;
        while k < len
            invariant
                self.wf(),
                k <= len,
                self.bits.bits() == stream,
                p1 + 32 + 8 * len <= stream.len(),
                self.bits.position() == p1 + 32 + 8 * k,
                self.result.blocks == old(self).result.blocks,
                self.result.decode_items == old(self).result.decode_items,
                self.cur_block_index == old(self).cur_block_index,
                self.result.data@ == data0 + Seq::new(
                    k as nat,
                    |j: int|
                        lsb_value(
                            stream.subrange(p1 as int + 32 + 8 * j, p1 as int + 32 + 8 * j + 8),
                        ) as u8,
                ),
            decreases len - k,
        {
            let ghost before = self.result.data@;
            let byte = self.bits.read_bits_inv(8);
            proof {
                vstd::arithmetic::power2::lemma2_to64();
            }
            self.append_data(byte as u8);
            proof {
                assert(self.result.data@ =~= data0 + Seq::new(
                    (k + 1) as nat,
                    |j: int|
                        lsb_value(
                            stream.subrange(p1 as int + 32 + 8 * j, p1 as int + 32 + 8 * j + 8),
                        ) as u8,
                ));
            }
            k = k + 1;
        }
        proof {
            assert(self.result.data@.take(data0.len() as int) =~= data0);
        }
        Ok(())
    }

    /// Decode the body of a fixed or dynamic block: literal/length symbols
    /// until the end-of-block symbol 256, with back-references expanded
    /// byte by byte. Every consumed bit lands, in order, either in a trace
    /// item or in the trailing end-of-block bits left in the trace buffer.
    #[verifier::rlimit(80)]
    fn decode_block_data(
        &mut self,
        literals_root: &HuffmanNode,
        distances_root: &Option<HuffmanNode>,
    ) -> (r: Result<(), GzipError>)
        requires
            old(self).wf(),
            literals_root.wf(),
            (old(self).spec_droot(*distances_root) matches Some(nodes) ==> crate::huffman::nodes_wf(
                nodes,
            )),
        ensures
            final(self).wf(),
            final(self).bits.bits() == old(self).bits.bits(),
            final(self).result.blocks == old(self).result.blocks,
            final(self).cur_block_index == old(self).cur_block_index,
            final(self).bits.position() >= old(self).bits.position(),
            final(self).result.decode_items@.len() >= old(self).result.decode_items@.len(),
            final(self).result.decode_items@.take(old(self).result.decode_items@.len() as int)
                == old(self).result.decode_items@,
            final(self).result.data@ == apply_items(
                old(self).result.data@,
                final(self).result.decode_items@.skip(old(self).result.decode_items@.len() as int),
            ),
            forall|j: int|
                old(self).result.decode_items@.len() <= j < final(self).result.decode_items@.len()
                    ==> item_block(#[trigger] final(self).result.decode_items@[j]) == old(
                    self,
                ).cur_block_index,
            concat_bits(
                final(self).result.decode_items@.skip(old(self).result.decode_items@.len() as int),
            ) + final(self).bits.buffer() == old(self).bits.bits().subrange(
                old(self).bits.position() as int,
                final(self).bits.position() as int,
            ),
            ({
                let pb = parse_body(
                    literals_root@,
                    old(self).spec_droot(*distances_root),
                    old(self).bits.bits(),
                    old(self).bits.position(),
                    old(self).result.data@.len(),
                );
                match pb {
                    BodyParse::Done { items: sitems, end } => {
                        &&& r == Ok::<(), GzipError>(())
                        &&& final(self).bits.position() == end
                        &&& items_match(
                            final(self).result.decode_items@.skip(
                                old(self).result.decode_items@.len() as int,
                            ),
                            sitems,
                        )
                    },
                    BodyParse::Fail { err } => r == Err::<(), GzipError>(err),
                }
            }),
    {
        let ghost stream = old(self).bits.bits();
        let ghost p0 = old(self).bits.position();
        let ghost data0 = old(self).result.data@;
        let ghost items0 = old(self).result.decode_items@;
        let ghost droot_v = old(self).spec_droot(*distances_root);
        let ghost mut sitems_acc: Seq<SpecItem> = Seq::empty();
        proof {
            old(self).bits.lemma_wf();
        }
        self.bits.flush_buffer();
        proof {
            assert(self.result.decode_items@.skip(items0.len() as int)
                =~= Seq::<DecodeItem>::empty());
            assert(self.result.decode_items@.take(items0.len() as int) =~= items0);
            assert(concat_bits(Seq::<DecodeItem>::empty()) + self.bits.buffer() =~= stream.subrange(
                p0 as int,
                p0 as int,
            ));
            assert(items_match(Seq::<DecodeItem>::empty(), Seq::<SpecItem>::empty()));
            assert(parse_body(literals_root@, droot_v, stream, p0, data0.len()) == body_prepend(
                sitems_acc,
                parse_body(literals_root@, droot_v, stream, p0, data0.len()),
            )) by {
                assert(sitems_acc + Seq::<SpecItem>::empty() =~= Seq::<SpecItem>::empty());
                match parse_body(literals_root@, droot_v, stream, p0, data0.len()) {
                    BodyParse::Done { items, end } => {
                        assert(sitems_acc + items =~= items);
                    },
                    BodyParse::Fail { .. } => {},
                }
            }
        }
        loop
            invariant
                self.wf(),
                literals_root.wf(),
                (old(self).spec_droot(*distances_root) matches Some(nodes)
                    ==> crate::huffman::nodes_wf(nodes)),
                stream == old(self).bits.bits(),
                p0 == old(self).bits.position(),
                data0 == old(self).result.data@,
                items0 == old(self).result.decode_items@,
                self.bits.bits() == stream,
                p0 <= self.bits.position() <= stream.len(),
                self.result.blocks == old(self).result.blocks,
                self.cur_block_index == old(self).cur_block_index,
                self.result.decode_items@.len() >= items0.len(),
                self.result.decode_items@.take(items0.len() as int) == items0,
                self.result.data@ == apply_items(
                    data0,
                    self.result.decode_items@.skip(items0.len() as int),
                ),
                forall|j: int|
                    items0.len() <= j < self.result.decode_items@.len() ==> item_block(
                        #[trigger] self.result.decode_items@[j],
                    ) == old(self).cur_block_index,
                concat_bits(self.result.decode_items@.skip(items0.len() as int))
                    + self.bits.buffer() == stream.subrange(p0 as int, self.bits.position() as int),
                self.bits.buffer() == Seq::<bool>::empty(),
                droot_v == old(self).spec_droot(*distances_root),
                self.result.data@.len() >= data0.len(),
                parse_body(literals_root@, droot_v, stream, p0, data0.len()) == body_prepend(
                    sitems_acc,
                    parse_body(
                        literals_root@,
                        droot_v,
                        stream,
                        self.bits.position(),
                        self.result.data@.len(),
                    ),
                ),
                items_match(self.result.decode_items@.skip(items0.len() as int), sitems_acc),
            decreases stream.len() - self.bits.position(),
        {
            let ghost pos_sym = self.bits.position();
            let ghost buf_sym = self.bits.buffer();
            let ghost cbits = concat_bits(self.result.decode_items@.skip(items0.len() as int));
            let ghost prod = self.result.data@.len();
            let ghost pb_here = parse_body(literals_root@, droot_v, stream, pos_sym, prod);
            let x = match literals_root.decode_stream(&mut self.bits) {
                Ok(x) => {
                    proof {
                        self.bits.lemma_wf();
                        proof_walk_slices(
                            literals_root@,
                            stream,
                            pos_sym as int,
                            self.bits.position() as int,
                        );
                        lemma_sym_read_chain(
                            stream,
                            p0 as int,
                            pos_sym as int,
                            self.bits.position() as int,
                            cbits,
                            buf_sym,
                        );
                    }
                    x
                },
                Err(e) => {
                    proof {
                        self.bits.lemma_wf();
                        proof_walk_slices(
                            literals_root@,
                            stream,
                            pos_sym as int,
                            self.bits.position() as int,
                        );
                        lemma_sym_read_chain(
                            stream,
                            p0 as int,
                            pos_sym as int,
                            self.bits.position() as int,
                            cbits,
                            buf_sym,
                        );
                        assert(pb_here == (BodyParse::Fail { err: e }));
                    }
                    return Err(e);
                },
            };
            if x < 256 {
                let ghost buf_before = self.bits.buffer();
                let ghost items_before = self.result.decode_items@;
                let ghost used = (self.bits.position() - pos_sym) as nat;
                proof {
                    assert(buf_before.len() == used);
                    assert(pb_here == body_prepend(
                        seq![SpecItem::Lit { value: x as u8, nbits: used }],
                        parse_body(
                            literals_root@,
                            droot_v,
                            stream,
                            self.bits.position() as nat,
                            prod + 1,
                        ),
                    ));
                }
                self.push_literal(x as u8);
                proof {
                    lemma_body_prepend_assoc(
                        sitems_acc,
                        seq![SpecItem::Lit { value: x as u8, nbits: used }],
                        parse_body(
                            literals_root@,
                            droot_v,
                            stream,
                            self.bits.position() as nat,
                            self.result.data@.len(),
                        ),
                    );
                    sitems_acc = sitems_acc + seq![SpecItem::Lit { value: x as u8, nbits: used }];
                    lemma_trace_step(
                        stream,
                        p0 as int,
                        self.bits.position() as int,
                        items0,
                        items_before,
                        self.result.decode_items@,
                        buf_before,
                        data0,
                    );
                    let k = items0.len() as int;
                    let it = self.result.decode_items@.last();
                    assert(self.result.decode_items@.skip(k) =~= items_before.skip(k).push(it));
                    lemma_apply_items_push(data0, items_before.skip(k), it);
                    assert forall|j: int|
                        items0.len() <= j < self.result.decode_items@.len() implies item_block(
                        #[trigger] self.result.decode_items@[j],
                    ) == old(self).cur_block_index by {
                        if j < self.result.decode_items@.len() - 1 {
                            assert(self.result.decode_items@[j] == items_before[j]);
                        } else {
                            assert(self.result.decode_items@[j] == it);
                        }
                    }
                    let added = self.result.decode_items@.skip(k);
                    let si = SpecItem::Lit { value: x as u8, nbits: used };
                    assert forall|j: int| 0 <= j < added.len() implies item_matches(
                        #[trigger] added[j],
                        sitems_acc[j],
                    ) by {
                        if j < added.len() - 1 {
                            assert(added[j] == items_before.skip(k)[j]);
                        } else {
                            assert(added[j] == it);
                            assert(sitems_acc[j] == si);
                        }
                    }
                }
            } else if x == 256 {
                proof {
                    assert(pb_here == (BodyParse::Done {
                        items: Seq::<SpecItem>::empty(),
                        end: self.bits.position(),
                    }));
                    assert(sitems_acc + Seq::<SpecItem>::empty() =~= sitems_acc);
                }
                return Ok(());
            } else if x <= 285 {
                let ghost pos_l = self.bits.position();
                let ghost buf_l = self.bits.buffer();
                let length = match self.decode_length(x) {
                    Ok(l) => {
                        proof {
                            self.bits.lemma_wf();
                            lemma_sym_read_chain(
                                stream,
                                p0 as int,
                                pos_l as int,
                                self.bits.position() as int,
                                cbits,
                                buf_l,
                            );
                        }
                        l
                    },
                    Err(e) => {
                        proof {
                            self.bits.lemma_wf();
                            lemma_sym_read_chain(
                                stream,
                                p0 as int,
                                pos_l as int,
                                self.bits.position() as int,
                                cbits,
                                buf_l,
                            );
                            assert(pb_here == (BodyParse::Fail { err: e }));
                        }
                        return Err(e);
                    },
                };
                let ghost pos_d = self.bits.position();
                let ghost buf_d = self.bits.buffer();
                let distance = match self.decode_distance(distances_root) {
                    Ok(d) => {
                        proof {
                            self.bits.lemma_wf();
                            lemma_sym_read_chain(
                                stream,
                                p0 as int,
                                pos_d as int,
                                self.bits.position() as int,
                                cbits,
                                buf_d,
                            );
                        }
                        d
                    },
                    Err(e) => {
                        proof {
                            self.bits.lemma_wf();
                            lemma_sym_read_chain(
                                stream,
                                p0 as int,
                                pos_d as int,
                                self.bits.position() as int,
                                cbits,
                                buf_d,
                            );
                            assert(pb_here == (BodyParse::Fail { err: e }));
                        }
                        return Err(e);
                    },
                };
                if (distance as usize) > self.result.data.len() {
                    proof {
                        assert(pb_here == (BodyParse::Fail { err: GzipError::BadBackReference }));
                    }
                    return Err(GzipError::BadBackReference);
                }
                if self.result.data.len() > usize::MAX - 258 {
                    // the output buffer cannot grow past the address space
                    proof {
                        assert(pb_here == (BodyParse::Fail { err: GzipError::BadBackReference }));
                    }
                    return Err(GzipError::BadBackReference);
                }
                let ghost buf_before = self.bits.buffer();
                let ghost items_before = self.result.decode_items@;
                let ghost p3 = self.bits.position();
                let ghost nbits = (p3 - pos_sym) as nat;
                proof {
                    assert(cbits =~= stream.subrange(p0 as int, pos_sym as int)) by {
                        assert(cbits + Seq::<bool>::empty() =~= cbits);
                    }
                    assert(buf_before.len() == nbits);
                    assert(pb_here == body_prepend(
                        seq![SpecItem::Rep { length, distance, nbits }],
                        parse_body(literals_root@, droot_v, stream, p3 as nat, (prod + length) as nat),
                    ));
                }
                self.push_match(length, distance);
                proof {
                    lemma_match_expand_len(data0, length as nat, distance as nat);
                    lemma_match_expand_len(
                        apply_items(data0, items_before.skip(items0.len() as int)),
                        length as nat,
                        distance as nat,
                    );
                    lemma_body_prepend_assoc(
                        sitems_acc,
                        seq![SpecItem::Rep { length, distance, nbits }],
                        parse_body(
                            literals_root@,
                            droot_v,
                            stream,
                            p3 as nat,
                            self.result.data@.len(),
                        ),
                    );
                    sitems_acc = sitems_acc + seq![SpecItem::Rep { length, distance, nbits }];
                    lemma_trace_step(
                        stream,
                        p0 as int,
                        self.bits.position() as int,
                        items0,
                        items_before,
                        self.result.decode_items@,
                        buf_before,
                        data0,
                    );
                    let k = items0.len() as int;
                    let it = self.result.decode_items@.last();
                    assert(self.result.decode_items@.skip(k) =~= items_before.skip(k).push(it));
                    lemma_apply_items_push(data0, items_before.skip(k), it);
                    assert forall|j: int|
                        items0.len() <= j < self.result.decode_items@.len() implies item_block(
                        #[trigger] self.result.decode_items@[j],
                    ) == old(self).cur_block_index by {
                        if j < self.result.decode_items@.len() - 1 {
                            assert(self.result.decode_items@[j] == items_before[j]);
                        } else {
                            assert(self.result.decode_items@[j] == it);
                        }
                    }
                    let added = self.result.decode_items@.skip(k);
                    let si = SpecItem::Rep { length, distance, nbits };
                    assert forall|j: int| 0 <= j < added.len() implies item_matches(
                        #[trigger] added[j],
                        sitems_acc[j],
                    ) by {
                        if j < added.len() - 1 {
                            assert(added[j] == items_before.skip(k)[j]);
                        } else {
                            assert(added[j] == it);
                            assert(sitems_acc[j] == si);
                        }
                    }
                }
            } else {
                proof {
                    assert(pb_here == (BodyParse::Fail {
                        err: GzipError::BadLiteralLengthSymbol,
                    }));
                }
                return Err(GzipError::BadLiteralLengthSymbol);
            }
        }
    }
}

impl Inflate {
    /// Parse the dynamic-block header: HLIT, HDIST and HCLEN, the
    /// meta-tree built from HCLEN+4 three-bit lengths, then HLIT+HDIST+258
    /// code lengths decoded through the meta-tree with its run-length
    /// codes, split into the literal/length and distance trees.
    fn decode_dynamic_data(&mut self) -> (r: Result<(HuffmanNode, HuffmanNode), GzipError>)
        requires
            old(self).wf(),
        ensures
            final(self).wf(),
            final(self).bits.bits() == old(self).bits.bits(),
            final(self).result == old(self).result,
            final(self).cur_block_index == old(self).cur_block_index,
            final(self).bits.position() >= old(self).bits.position(),
            ({
                let stream = old(self).bits.bits();
                let p0 = old(self).bits.position();
                p0 + 14 > stream.len() ==> r == Err::<(HuffmanNode, HuffmanNode), GzipError>(
                    GzipError::UnexpectedEndOfStream,
                )
            }),
            ({
                let stream = old(self).bits.bits();
                let p0 = old(self).bits.position();
                p0 + 14 <= stream.len() && lsb_value(stream.subrange(p0 as int + 5, p0 as int + 10))
                    >= 30 ==> r == Err::<(HuffmanNode, HuffmanNode), GzipError>(
                    GzipError::BadHuffmanTree,
                )
            }),
            ({
                let stream = old(self).bits.bits();
                let p0 = old(self).bits.position();
                dyn_header_starts_with_repeat(stream, p0 as int) ==> r == Err::<
                    (HuffmanNode, HuffmanNode),
                    GzipError,
                >(GzipError::BadHuffmanTree)
            }),
            r is Ok ==> ({
                let stream = old(self).bits.bits();
                let p0 = old(self).bits.position();
                &&& r->Ok_0.0.wf()
                &&& r->Ok_0.1.wf()
                &&& p0 + 14 <= stream.len()
                &&& exists|la: Seq<u8>, ld: Seq<u8>|
                    {
                        &&& accepts_all_codes(la, r->Ok_0.0@)
                        &&& accepts_all_codes(ld, r->Ok_0.1@)
                        &&& la.len() == lsb_value(stream.subrange(p0 as int, p0 as int + 5)) + 257
                        &&& ld.len() == lsb_value(
                            stream.subrange(p0 as int + 5, p0 as int + 10),
                        ) + 1
                    }
            }),
    {
        proof {
            old(self).bits.lemma_wf();
        }
        let ghost stream = old(self).bits.bits();
        let ghost p0 = old(self).bits.position();
        if self.bits.remaining() < 14 {
            return Err(GzipError::UnexpectedEndOfStream);
        }
        let hlit = self.bits.read_bits_inv(5) as usize;
        let hdist = self.bits.read_bits_inv(5) as usize;
        let hclen = self.bits.read_bits_inv(4) as usize;
        let ghost ncl: int = hclen as int + 4;
        if hdist >= 30 {
            // the distance alphabet has at most 30 codes
            return Err(GzipError::BadHuffmanTree);
        }
        let mut code_length_code_lengths: Vec<u8> = Vec::new();
        let mut j: usize = 0;
        proof {
            vstd::arithmetic::power2::lemma2_to64();
        }
        while j < hclen + 4
            invariant
                old(self).bits.position() + 14 <= old(self).bits.bits().len(),
                lsb_value(
                    old(self).bits.bits().subrange(
                        old(self).bits.position() as int + 5,
                        old(self).bits.position() as int + 10,
                    ),
                ) <= 29,
                self.wf(),
                j <= hclen + 4,
                hclen <= 15,
                stream == old(self).bits.bits(),
                p0 == old(self).bits.position(),
                ncl == hclen + 4,
                hclen == lsb_value(stream.subrange(p0 as int + 10, p0 as int + 14)),
                self.bits.bits() == old(self).bits.bits(),
                self.bits.position() == old(self).bits.position() + 14 + 3 * j,
                self.result == old(self).result,
                self.cur_block_index == old(self).cur_block_index,
                code_length_code_lengths@.len() == j,
                forall|j2: int|
                    0 <= j2 < j ==> (#[trigger] code_length_code_lengths@[j2]) == lsb_value(
                        stream.subrange(p0 as int + 14 + 3 * j2, p0 as int + 14 + 3 * j2 + 3),
                    ) as u8,
            decreases hclen + 4 - j,
        {
            proof {
                self.bits.lemma_wf();
            }
            if self.bits.remaining() < 3 {
                proof {
                    if dyn_header_starts_with_repeat(stream, p0 as int) {
                        let ml = meta_lengths(dyn_header_keys(stream, p0 as int + 14, ncl));
                        assert(p0 + 14 + 3 * ncl + ml[16] <= stream.len());
                        assert(false);
                    }
                }
                return Err(GzipError::UnexpectedEndOfStream);
            }
            let code = self.bits.read_bits_inv(3);
            code_length_code_lengths.push(code as u8);
            j = j + 1;
        }
        let ghost gkeys = code_length_code_lengths@;
        proof {
            assert(gkeys =~= dyn_header_keys(stream, p0 as int + 14, ncl));
        }
        let code_lengths_tree = match HuffmanNode::from_header_code_lengths(
            code_length_code_lengths,
        ) {
            Ok(t) => t,
            Err(e) => {
                return Err(e);
            },
        };
        let total = hlit + hdist + 258;
        let mut alphabet_lens: Vec<u8> = vec![0; total];
        let mut i: usize = 0;
        while i < total
            invariant
                old(self).bits.position() + 14 <= old(self).bits.bits().len(),
                lsb_value(
                    old(self).bits.bits().subrange(
                        old(self).bits.position() as int + 5,
                        old(self).bits.position() as int + 10,
                    ),
                ) <= 29,
                self.wf(),
                code_lengths_tree.wf(),
                i <= total,
                total == hlit + hdist + 258,
                self.bits.bits() == old(self).bits.bits(),
                self.bits.position() >= old(self).bits.position(),
                self.result == old(self).result,
                self.cur_block_index == old(self).cur_block_index,
                alphabet_lens@.len() == total,
                stream == old(self).bits.bits(),
                p0 == old(self).bits.position(),
                ncl == hclen + 4,
                hclen == lsb_value(stream.subrange(p0 as int + 10, p0 as int + 14)),
                gkeys == dyn_header_keys(stream, p0 as int + 14, ncl),
                accepts_all_codes(meta_lengths(gkeys), code_lengths_tree@),
                dyn_header_starts_with_repeat(stream, p0 as int) ==> i == 0
                    && self.bits.position() == p0 + 14 + 3 * ncl,
            decreases total - i,
        {
            proof {
                if dyn_header_starts_with_repeat(stream, p0 as int) {
                    let ml = meta_lengths(dyn_header_keys(stream, p0 as int + 14, ncl));
                    let pd: int = p0 as int + 14 + 3 * ncl;
                    let rem = stream.subrange(pd, stream.len() as int);
                    assert(ml == meta_lengths(gkeys));
                    assert(code_bits(ml, 16).len() == ml[16]);
                    assert(code_bits(ml, 16) + rem.skip(ml[16] as int) =~= rem);
                    assert(walk(
                        code_lengths_tree@,
                        0,
                        code_bits(ml, 16) + rem.skip(ml[16] as int),
                    ) == (WalkResult::Found { sym: 16u32, used: ml[16] as nat }));
                    assert(walk(code_lengths_tree@, 0, rem) == (WalkResult::Found {
                        sym: 16u32,
                        used: ml[16] as nat,
                    }));
                }
            }
            let code = match code_lengths_tree.decode_stream(&mut self.bits) {
                Ok(c) => c,
                Err(e) => {
                    return Err(e);
                },
            };
            proof {
                self.bits.lemma_wf();
            }
            if code <= 15 {
                alphabet_lens.set(i, code as u8);
                i = i + 1;
            } else if code <= 18 {
                proof {
                    vstd::arithmetic::power2::lemma2_to64();
                }
                let repeat_len: u32 = if code == 16 {
                    if i == 0 {
                        // the run-length code 16 repeats the previous
                        // length, and there is none at position 0
                        return Err(GzipError::BadHuffmanTree);
                    }
                    if self.bits.remaining() < 2 {
                        return Err(GzipError::UnexpectedEndOfStream);
                    }
                    self.bits.read_bits_inv(2) + 3
                } else if code == 17 {
                    if self.bits.remaining() < 3 {
                        return Err(GzipError::UnexpectedEndOfStream);
                    }
                    self.bits.read_bits_inv(3) + 3
                } else {
                    if self.bits.remaining() < 7 {
                        return Err(GzipError::UnexpectedEndOfStream);
                    }
                    self.bits.read_bits_inv(7) + 11
                };
                let ghost i_entry = i;
                let mut repeat: u32 = repeat_len;
                while repeat > 0
                    invariant
                        old(self).bits.position() + 14 <= old(self).bits.bits().len(),
                        lsb_value(
                            old(self).bits.bits().subrange(
                                old(self).bits.position() as int + 5,
                                old(self).bits.position() as int + 10,
                            ),
                        ) <= 29,
                        self.wf(),
                        i <= total,
                        1 <= i || code != 16,
                        code <= 18,
                        repeat <= 141,
                        i + repeat == i_entry + repeat_len,
                        repeat_len >= 3,
                        self.bits.bits() == old(self).bits.bits(),
                        self.bits.position() >= old(self).bits.position(),
                        self.result == old(self).result,
                        self.cur_block_index == old(self).cur_block_index,
                        alphabet_lens@.len() == total,
                    decreases repeat,
                {
                    if i >= total {
                        // the run would spill past the two alphabets
                        return Err(GzipError::BadHuffmanTree);
                    }
                    let v = if code == 16 {
                        alphabet_lens[i - 1]
                    } else {
                        0
                    };
                    alphabet_lens.set(i, v);
                    i = i + 1;
                    repeat = repeat - 1;
                }
                proof {
                    assert(i > i_entry);
                }
            } else {
                return Err(GzipError::BadHuffmanTree);
            }
        }
        let lit_count = hlit + 257;
        let mut lit_lengths: Vec<u8> = Vec::new();
        let mut k: usize = 0;
        while k < lit_count
            invariant
                k <= lit_count,
                lit_count <= total,
                alphabet_lens@.len() == total,
                lit_lengths@.len() == k,
            decreases lit_count - k,
        {
            lit_lengths.push(alphabet_lens[k]);
            k = k + 1;
        }
        let mut dist_lengths: Vec<u8> = Vec::new();
        let mut k: usize = lit_count;
        while k < total
            invariant
                lit_count <= k <= total,
                alphabet_lens@.len() == total,
                dist_lengths@.len() == k - lit_count,
            decreases total - k,
        {
            dist_lengths.push(alphabet_lens[k]);
            k = k + 1;
        }
        let literals_tree = match HuffmanNode::from_code_lengths(&lit_lengths) {
            Ok(t) => t,
            Err(e) => {
                return Err(e);
            },
        };
        let distance_tree = match HuffmanNode::from_code_lengths(&dist_lengths) {
            Ok(t) => t,
            Err(e) => {
                return Err(e);
            },
        };
        proof {
            assert(lit_lengths@.len() == lsb_value(
                old(self).bits.bits().subrange(
                    old(self).bits.position() as int,
                    old(self).bits.position() as int + 5,
                ),
            ) + 257);
            assert(dist_lengths@.len() == lsb_value(
                old(self).bits.bits().subrange(
                    old(self).bits.position() as int + 5,
                    old(self).bits.position() as int + 10,
                ),
            ) + 1);
        }
        Ok((literals_tree, distance_tree))
    }

    /// Decode one block: the `is_last` bit, the two-bit encoding field,
    /// then the stored, fixed or dynamic body.
    fn read_block(&mut self) -> (r: Result<Block, GzipError>)
        requires
            old(self).wf(),
        ensures
            final(self).wf(),
            final(self).bits.bits() == old(self).bits.bits(),
            final(self).result.blocks == old(self).result.blocks,
            final(self).cur_block_index == old(self).cur_block_index,
            final(self).bits.position() >= old(self).bits.position(),
            r is Ok ==> final(self).bits.position() >= old(self).bits.position() + 3,
            final(self).result.decode_items@.len() >= old(self).result.decode_items@.len(),
            final(self).result.decode_items@.take(old(self).result.decode_items@.len() as int)
                == old(self).result.decode_items@,
            final(self).result.data@.len() >= old(self).result.data@.len(),
            final(self).result.data@.take(old(self).result.data@.len() as int) == old(
                self,
            ).result.data@,
            forall|j: int|
                old(self).result.decode_items@.len() <= j < final(self).result.decode_items@.len()
                    ==> item_block(#[trigger] final(self).result.decode_items@[j]) == old(
                    self,
                ).cur_block_index,
            ({
                let stream = old(self).bits.bits();
                let p0 = old(self).bits.position();
                p0 + 3 <= stream.len() && lsb_value(stream.subrange(p0 as int + 1, p0 as int + 3))
                    == 3 ==> r == Err::<Block, GzipError>(GzipError::ReservedBlockEncoding)
            }),
            ({
                let stream = old(self).bits.bits();
                let p0 = old(self).bits.position();
                p0 + 3 > stream.len() ==> r == Err::<Block, GzipError>(
                    GzipError::UnexpectedEndOfStream,
                )
            }),
            ({
                let stream = old(self).bits.bits();
                let p0 = old(self).bits.position();
                let t = stream.len();
                let p1 = align8((p0 + 3) as nat);
                let len_v = stored_field16(stream, p1 as int);
                let nlen_v = stored_field16(stream, p1 as int + 16);
                p0 + 3 <= t && lsb_value(stream.subrange(p0 as int + 1, p0 as int + 3)) == 0 ==> (
                if p1 + 32 > t {
                    r == Err::<Block, GzipError>(GzipError::UnexpectedEndOfStream)
                } else if len_v + nlen_v != 0xFFFF {
                    r == Err::<Block, GzipError>(GzipError::StoredLenMismatch)
                } else if p1 + 32 + 8 * len_v > t {
                    r == Err::<Block, GzipError>(GzipError::UnexpectedEndOfStream)
                } else {
                    r is Ok
                })
            }),
            r is Ok ==> ({
                let stream = old(self).bits.bits();
                let p0 = old(self).bits.position();
                &&& p0 + 3 <= stream.len()
                &&& lsb_value(stream.subrange(p0 as int + 1, p0 as int + 3)) <= 2
                &&& r->Ok_0.is_last == stream[p0 as int]
                &&& r->Ok_0.encoding == (if lsb_value(stream.subrange(p0 as int + 1, p0 as int + 3))
                    == 0 {
                    BlockEncoding::Stored
                } else if lsb_value(stream.subrange(p0 as int + 1, p0 as int + 3)) == 1 {
                    BlockEncoding::HuffmanFixed
                } else {
                    BlockEncoding::HuffmanDynamic
                })
                &&& (r->Ok_0.encoding == BlockEncoding::Stored ==> final(self).result.decode_items
                    == old(self).result.decode_items)
                &&& (r->Ok_0.encoding == BlockEncoding::Stored ==> ({
                    let p1 = align8((p0 + 3) as nat);
                    let len_v = stored_field16(stream, p1 as int);
                    &&& p1 + 32 + 8 * len_v <= stream.len()
                    &&& len_v + stored_field16(stream, p1 as int + 16) == 0xFFFF
                    &&& final(self).result.data@ == old(self).result.data@ + stored_body_bytes(
                        stream,
                        p1 as int + 32,
                        len_v,
                    )
                }))
                &&& (r->Ok_0.encoding != BlockEncoding::Stored ==> final(self).result.data@
                    == apply_items(
                    old(self).result.data@,
                    final(self).result.decode_items@.skip(
                        old(self).result.decode_items@.len() as int,
                    ),
                ))
                &&& (r->Ok_0.encoding != BlockEncoding::Stored ==> exists|td: int|
                    {
                        &&& p0 + 3 <= td <= final(self).bits.position()
                        &&& concat_bits(
                            final(self).result.decode_items@.skip(
                                old(self).result.decode_items@.len() as int,
                            ),
                        ) + final(self).bits.buffer() == stream.subrange(
                            td,
                            final(self).bits.position() as int,
                        )
                    })
            }),
            ({
                let stream = old(self).bits.bits();
                let p0 = old(self).bits.position();
                p0 + 3 <= stream.len() && lsb_value(stream.subrange(p0 as int + 1, p0 as int + 3))
                    == 1 ==> exists|tn: Seq<TrieNode>|
                    {
                        &&& #[trigger] is_fixed_trie(tn)
                        &&& (match parse_body(
                            tn,
                            None,
                            stream,
                            (p0 + 3) as nat,
                            old(self).result.data@.len(),
                        ) {
                            BodyParse::Done { items: sitems, end } => {
                                &&& r is Ok
                                &&& final(self).bits.position() == end
                                &&& items_match(
                                    final(self).result.decode_items@.skip(
                                        old(self).result.decode_items@.len() as int,
                                    ),
                                    sitems,
                                )
                            },
                            BodyParse::Fail { err } => r == Err::<Block, GzipError>(err),
                        })
                    }
            }),
    {
        proof {
            old(self).bits.lemma_wf();
        }
        if self.bits.remaining() < 3 {
            proof {
                lemma_take_self(self.result.decode_items@, self.result.data@);
            }
            return Err(GzipError::UnexpectedEndOfStream);
        }
        let is_last = self.bits.read_bits_inv(1) == 1;
        let ghost stream = old(self).bits.bits();
        let ghost p0 = old(self).bits.position();
        proof {
            let s1 = stream.subrange(p0 as int, p0 as int + 1);
            assert(s1.len() == 1);
            assert(s1[0] == stream[p0 as int]);
            assert(s1.drop_first() =~= Seq::<bool>::empty());
            assert(lsb_value(s1) == (if s1[0] {
                1nat
            } else {
                0nat
            }) + 2 * lsb_value(s1.drop_first()));
            assert(lsb_value(s1.drop_first()) == 0);
        }
        let encoding_bits = self.bits.read_bits_inv(2);
        proof {
            vstd::arithmetic::power2::lemma2_to64();
        }
        let encoding = if encoding_bits == 0 {
            BlockEncoding::Stored
        } else if encoding_bits == 1 {
            BlockEncoding::HuffmanFixed
        } else if encoding_bits == 2 {
            BlockEncoding::HuffmanDynamic
        } else {
            proof {
                lemma_take_self(self.result.decode_items@, self.result.data@);
            }
            return Err(GzipError::ReservedBlockEncoding);
        };
        match encoding {
            BlockEncoding::HuffmanFixed => {
                let tree = match HuffmanNode::fixed() {
                    Ok(t) => t,
                    Err(e) => {
                        proof {
                            lemma_take_self(self.result.decode_items@, self.result.data@);
                        }
                        return Err(e);
                    },
                };
                let ghost td_pos = self.bits.position();
                match self.decode_block_data(&tree, &None) {
                    Ok(()) => {
                        proof {
                            assert(p0 + 3 <= td_pos);
                            assert(is_fixed_trie(tree@));
                            lemma_apply_items_prefix(
                                old(self).result.data@,
                                self.result.decode_items@.skip(
                                    old(self).result.decode_items@.len() as int,
                                ),
                            );
                        }
                    },
                    Err(e) => {
                        proof {
                            assert(is_fixed_trie(tree@));
                            lemma_apply_items_prefix(
                                old(self).result.data@,
                                self.result.decode_items@.skip(
                                    old(self).result.decode_items@.len() as int,
                                ),
                            );
                        }
                        return Err(e);
                    },
                }
            },
            BlockEncoding::HuffmanDynamic => {
                let (literals_root, distances_root) = match self.decode_dynamic_data() {
                    Ok(ts) => ts,
                    Err(e) => {
                        proof {
                            lemma_take_self(self.result.decode_items@, self.result.data@);
                        }
                        return Err(e);
                    },
                };
                let droot = Some(distances_root);
                let ghost td_pos = self.bits.position();
                match self.decode_block_data(&literals_root, &droot) {
                    Ok(()) => {
                        proof {
                            assert(p0 + 3 <= td_pos);
                            lemma_apply_items_prefix(
                                old(self).result.data@,
                                self.result.decode_items@.skip(
                                    old(self).result.decode_items@.len() as int,
                                ),
                            );
                        }
                    },
                    Err(e) => {
                        proof {
                            lemma_apply_items_prefix(
                                old(self).result.data@,
                                self.result.decode_items@.skip(
                                    old(self).result.decode_items@.len() as int,
                                ),
                            );
                        }
                        return Err(e);
                    },
                }
            },
            BlockEncoding::Stored => {
                match self.read_stored_block() {
                    Ok(()) => {},
                    Err(e) => {
                        return Err(e);
                    },
                }
            },
        }
        Ok(Block { is_last, encoding })
    }

    /// Decode blocks until one carries the final-block flag, then close
    /// the running CRC.
    fn inflate(&mut self) -> (r: Result<(), GzipError>)
        requires
            old(self).wf(),
            old(self).result.blocks@.len() == 0,
            old(self).result.decode_items@.len() == 0,
            old(self).cur_block_index == 0,
        ensures
            final(self).bits.bits() == old(self).bits.bits(),
            r is Ok ==> ({
                &&& final(self).result.crc32 == crc32_of(final(self).result.data@)
                &&& final(self).result.blocks@.len() >= 1
                &&& final(self).result.blocks@.last().is_last
                &&& forall|j: int|
                    0 <= j < final(self).result.blocks@.len() - 1 ==> !(
                    #[trigger] final(self).result.blocks@[j]).is_last
                &&& forall|j: int|
                    0 <= j < final(self).result.decode_items@.len() ==> item_block(
                        #[trigger] final(self).result.decode_items@[j],
                    ) < final(self).result.blocks@.len()
                &&& forall|j1: int, j2: int|
                    0 <= j1 <= j2 < final(self).result.decode_items@.len() ==> item_block(
                        #[trigger] final(self).result.decode_items@[j1],
                    ) <= item_block(#[trigger] final(self).result.decode_items@[j2])
                &&& blocks_attributed(
                    final(self).result.blocks@,
                    final(self).result.decode_items@,
                    old(self).bits.bits(),
                )
            }),
            ({
                let stream = old(self).bits.bits();
                let p0 = old(self).bits.position();
                let p1 = align8((p0 + 3) as nat);
                let len_v = stored_field16(stream, p1 as int);
                (p0 + 3 <= stream.len() && stream[p0 as int] == true && lsb_value(
                    stream.subrange(p0 as int + 1, p0 as int + 3),
                ) == 0 && old(self).result.data@.len() == 0) ==> (if p1 + 32 > stream.len() {
                    r == Err::<(), GzipError>(GzipError::UnexpectedEndOfStream)
                } else if len_v + stored_field16(stream, p1 as int + 16) != 0xFFFF {
                    r == Err::<(), GzipError>(GzipError::StoredLenMismatch)
                } else if p1 + 32 + 8 * len_v > stream.len() {
                    r == Err::<(), GzipError>(GzipError::UnexpectedEndOfStream)
                } else {
                    &&& r == Ok::<(), GzipError>(())
                    &&& final(self).result.data@ == stored_body_bytes(stream, p1 as int + 32, len_v)
                    &&& final(self).result.decode_items@.len() == 0
                })
            }),
            ({
                let stream = old(self).bits.bits();
                let p0 = old(self).bits.position();
                (p0 + 3 <= stream.len() && stream[p0 as int] == true && lsb_value(
                    stream.subrange(p0 as int + 1, p0 as int + 3),
                ) == 1 && old(self).result.data@.len() == 0) ==> exists|tn: Seq<TrieNode>|
                    {
                        &&& #[trigger] is_fixed_trie(tn)
                        &&& (match parse_body(tn, None, stream, (p0 + 3) as nat, 0nat) {
                            BodyParse::Done { items: sitems, end } => {
                                &&& r == Ok::<(), GzipError>(())
                                &&& items_match(final(self).result.decode_items@, sitems)
                                &&& final(self).result.data@ == apply_items(
                                    Seq::<u8>::empty(),
                                    final(self).result.decode_items@,
                                )
                            },
                            BodyParse::Fail { err } => r == Err::<(), GzipError>(err),
                        })
                    }
            }),
    {
        let ghost stream = old(self).bits.bits();
        let ghost p0 = old(self).bits.position();
        let ghost single_fixed: bool = p0 + 3 <= stream.len() && stream[p0 as int] == true
            && lsb_value(stream.subrange(p0 as int + 1, p0 as int + 3)) == 1 && old(
            self,
        ).result.data@.len() == 0;
        let ghost single_stored: bool = p0 + 3 <= stream.len() && stream[p0 as int] == true
            && lsb_value(stream.subrange(p0 as int + 1, p0 as int + 3)) == 0 && old(
            self,
        ).result.data@.len() == 0;
        loop
            invariant
                stream == old(self).bits.bits(),
                p0 == old(self).bits.position(),
                single_fixed == (p0 + 3 <= stream.len() && stream[p0 as int] == true && lsb_value(
                    stream.subrange(p0 as int + 1, p0 as int + 3),
                ) == 1 && old(self).result.data@.len() == 0),
                single_fixed ==> self.result.blocks@.len() == 0
                    && self.result.decode_items@.len() == 0 && self.result.data@.len() == 0
                    && self.bits.position() == p0,
                single_stored == (p0 + 3 <= stream.len() && stream[p0 as int] == true && lsb_value(
                    stream.subrange(p0 as int + 1, p0 as int + 3),
                ) == 0 && old(self).result.data@.len() == 0),
                single_stored ==> self.result.blocks@.len() == 0
                    && self.result.decode_items@.len() == 0 && self.result.data@.len() == 0
                    && self.bits.position() == p0,
                self.wf(),
                self.bits.bits() == old(self).bits.bits(),
                self.cur_block_index == self.result.blocks@.len(),
                self.cur_block_index <= usize::MAX - 1,
                forall|j: int|
                    0 <= j < self.result.blocks@.len() ==> !(
                    #[trigger] self.result.blocks@[j]).is_last,
                forall|j: int|
                    0 <= j < self.result.decode_items@.len() ==> item_block(
                        #[trigger] self.result.decode_items@[j],
                    ) < self.result.blocks@.len(),
                forall|j1: int, j2: int|
                    0 <= j1 <= j2 < self.result.decode_items@.len() ==> item_block(
                        #[trigger] self.result.decode_items@[j1],
                    ) <= item_block(#[trigger] self.result.decode_items@[j2]),
                blocks_attributed(
                    self.result.blocks@,
                    self.result.decode_items@,
                    old(self).bits.bits(),
                ),
            decreases self.bits.bits().len() - self.bits.position(),
        {
            proof {
                self.bits.lemma_wf();
            }
            let ghost blocks_before = self.result.blocks@;
            let ghost items_before = self.result.decode_items@;
            let ghost items_len_before = self.result.decode_items@.len();
            let ghost data_before = self.result.data@;
            let ghost pos_rb = self.bits.position();
            let block = match self.read_block() {
                Ok(b) => b,
                Err(e) => {
                    proof {
                        if single_fixed {
                            let tn = choose|tn: Seq<TrieNode>|
                                #[trigger] is_fixed_trie(tn) && (match parse_body(
                                    tn,
                                    None,
                                    stream,
                                    (p0 + 3) as nat,
                                    0nat,
                                ) {
                                    BodyParse::Done { items: sitems, end } => false,
                                    BodyParse::Fail { err } => e == err,
                                });
                            assert(is_fixed_trie(tn));
                        }
                    }
                    return Err(e);
                },
            };
            let ghost pos_end = self.bits.position();
            let ghost buf_end = self.bits.buffer();
            proof {
                self.bits.lemma_wf();
            }
            let is_last = block.is_last;
            if self.cur_block_index == usize::MAX - 1 {
                // no real stream reaches this many blocks: each one costs
                // at least three bits of input
                return Err(GzipError::UnexpectedEndOfStream);
            }
            self.cur_block_index = self.cur_block_index + 1;
            self.result.blocks.push(block);
            proof {
                assert forall|j: int|
                    0 <= j < self.result.decode_items@.len() implies item_block(
                    #[trigger] self.result.decode_items@[j],
                ) < self.result.blocks@.len() by {
                    if j < items_len_before {
                        assert(self.result.decode_items@[j] == self.result.decode_items@.take(
                            items_len_before as int,
                        )[j]);
                    }
                }
                assert forall|j1: int, j2: int|
                    0 <= j1 <= j2 < self.result.decode_items@.len() implies item_block(
                    #[trigger] self.result.decode_items@[j1],
                ) <= item_block(#[trigger] self.result.decode_items@[j2]) by {
                    if j1 < items_len_before {
                        assert(self.result.decode_items@[j1] == self.result.decode_items@.take(
                            items_len_before as int,
                        )[j1]);
                    }
                    if j2 < items_len_before {
                        assert(self.result.decode_items@[j2] == self.result.decode_items@.take(
                            items_len_before as int,
                        )[j2]);
                    }
                }
                let stream = old(self).bits.bits();
                let items_new = self.result.decode_items@;
                let blocks_new = self.result.blocks@;
                self.bits.lemma_wf();
                assert forall|j: int| 0 <= j < items_len_before implies #[trigger] items_new[j]
                    == items_before[j] by {
                    assert(items_new[j] == items_new.take(items_len_before as int)[j]);
                }
                assert forall|b: int|
                    #![trigger blocks_new[b]]
                    0 <= b < blocks_new.len() implies exists|lo: int, hi: int, td: int, te: int|
                    #![trigger items_new.subrange(lo, hi), stream.subrange(td, te)]
                    {
                        &&& 0 <= lo <= hi <= items_new.len()
                        &&& (forall|j: int|
                            0 <= j < items_new.len() ==> (lo <= j < hi <==> item_block(
                                #[trigger] items_new[j],
                            ) == b))
                        &&& (blocks_new[b].encoding == BlockEncoding::Stored ==> lo == hi)
                        &&& 0 <= td <= te <= stream.len()
                        &&& concat_bits(items_new.subrange(lo, hi)) == stream.subrange(td, te)
                    } by {
                    if b < blocks_before.len() {
                        assert(blocks_before[b] == blocks_new[b]);
                        let (lo, hi, td, te): (int, int, int, int) = choose|
                            lo: int,
                            hi: int,
                            td: int,
                            te: int,
                        |
                            #![trigger items_before.subrange(lo, hi), stream.subrange(td, te)]
                            {
                                &&& 0 <= lo <= hi <= items_before.len()
                                &&& (forall|j: int|
                                    0 <= j < items_before.len() ==> (lo <= j < hi <==> item_block(
                                        #[trigger] items_before[j],
                                    ) == b))
                                &&& (blocks_before[b].encoding == BlockEncoding::Stored ==> lo
                                    == hi)
                                &&& 0 <= td <= te <= stream.len()
                                &&& concat_bits(items_before.subrange(lo, hi)) == stream.subrange(
                                    td,
                                    te,
                                )
                            };
                        assert(items_new.subrange(lo, hi) =~= items_before.subrange(lo, hi));
                        assert forall|j: int|
                            0 <= j < items_new.len() implies (lo <= j < hi <==> item_block(
                            #[trigger] items_new[j],
                        ) == b) by {
                            if j < items_len_before {
                                assert(items_new[j] == items_before[j]);
                            } else {
                                assert(item_block(items_new[j]) == blocks_before.len());
                            }
                        }
                    } else {
                        let lo = items_len_before as int;
                        let hi = items_new.len() as int;
                        let added = items_new.skip(lo);
                        assert forall|j: int|
                            0 <= j < items_new.len() implies (lo <= j < hi <==> item_block(
                            #[trigger] items_new[j],
                        ) == b) by {
                            if j < items_len_before {
                                assert(items_new[j] == items_before[j]);
                                assert(item_block(items_before[j]) < blocks_before.len());
                            }
                        }
                        if block.encoding == BlockEncoding::Stored {
                            assert(items_new == items_before);
                            assert(lo == hi);
                            assert(items_new.subrange(lo, hi) =~= Seq::<DecodeItem>::empty());
                            assert(stream.subrange(0, 0) =~= Seq::<bool>::empty());
                            assert({
                                &&& 0 <= lo <= hi <= items_new.len()
                                &&& (forall|j: int|
                                    0 <= j < items_new.len() ==> (lo <= j < hi <==> item_block(
                                        #[trigger] items_new[j],
                                    ) == b))
                                &&& (blocks_new[b].encoding == BlockEncoding::Stored ==> lo == hi)
                                &&& 0 <= 0 <= 0 <= stream.len()
                                &&& concat_bits(items_new.subrange(lo, hi)) == stream.subrange(
                                    0,
                                    0,
                                )
                            });
                        } else {
                            let cb = concat_bits(added);
                            assert(added =~= items_new.skip(items_len_before as int));
                            assert(items_new.subrange(lo, hi) =~= added);
                            assert forall|td: int|
                                (0 <= td && td <= pos_end && concat_bits(
                                    items_new.skip(items_len_before as int),
                                ) + buf_end == stream.subrange(
                                    td,
                                    pos_end as int,
                                )) implies exists|lo2: int, hi2: int, td2: int, te2: int|
                                #![trigger items_new.subrange(lo2, hi2), stream.subrange(td2, te2)]
                                {
                                    &&& 0 <= lo2 <= hi2 <= items_new.len()
                                    &&& (forall|j: int|
                                        0 <= j < items_new.len() ==> (lo2 <= j < hi2
                                            <==> item_block(#[trigger] items_new[j]) == b))
                                    &&& (blocks_new[b].encoding == BlockEncoding::Stored ==> lo2
                                        == hi2)
                                    &&& 0 <= td2 <= te2 <= stream.len()
                                    &&& concat_bits(items_new.subrange(lo2, hi2))
                                        == stream.subrange(td2, te2)
                                } by {
                                assert(0 <= td && td <= pos_end);
                                assert(cb == concat_bits(
                                    items_new.skip(items_len_before as int),
                                ));
                                assert(cb + buf_end == stream.subrange(td, pos_end as int));
                                assert(pos_end <= stream.len());
                                assert(stream.subrange(td, pos_end as int).len() == pos_end - td);
                                assert((cb + buf_end).len() == cb.len() + buf_end.len());
                                assert(cb.len() + buf_end.len() == pos_end - td);
                                let te = td + cb.len();
                                assert(cb =~= stream.subrange(td, te)) by {
                                    assert forall|i: int| 0 <= i < cb.len() implies cb[i]
                                        == stream.subrange(td, te)[i] by {
                                        assert(cb[i] == (cb + buf_end)[i]);
                                        assert(stream.subrange(td, pos_end as int)[i] == stream[td
                                            + i]);
                                    }
                                }
                                assert({
                                    &&& 0 <= lo <= hi <= items_new.len()
                                    &&& 0 <= td <= te <= stream.len()
                                    &&& concat_bits(items_new.subrange(lo, hi)) == stream.subrange(
                                        td,
                                        te,
                                    )
                                });
                            }
                        }
                    }
                }
            }
            if is_last {
                proof {
                    assert(self.result.blocks@.last().is_last);
                    assert forall|j: int|
                        0 <= j < self.result.blocks@.len() - 1 implies !(
                    #[trigger] self.result.blocks@[j]).is_last by {
                        assert(self.result.blocks@[j] == blocks_before[j]);
                    }
                    if single_fixed {
                        assert(self.result.decode_items@.skip(0) =~= self.result.decode_items@);
                        assert(pos_rb == p0);
                        assert(items_len_before == 0);
                        assert(lsb_value(stream.subrange(pos_rb as int + 1, pos_rb as int + 3))
                            == 1);
                        let tn = choose|tn: Seq<TrieNode>|
                            #[trigger] is_fixed_trie(tn) && (match parse_body(
                                tn,
                                None,
                                stream,
                                (pos_rb + 3) as nat,
                                0nat,
                            ) {
                                BodyParse::Done { items: sitems, end } => pos_end == end
                                    && items_match(
                                    self.result.decode_items@.skip(items_len_before as int),
                                    sitems,
                                ),
                                BodyParse::Fail { err } => false,
                            });
                        assert(is_fixed_trie(tn));
                        assert(parse_body(tn, None, stream, (p0 + 3) as nat, 0nat) is Done);
                        assert((match parse_body(tn, None, stream, (p0 + 3) as nat, 0nat) {
                            BodyParse::Done { items: sitems, end } => self.bits.position() == end
                                && items_match(self.result.decode_items@, sitems),
                            BodyParse::Fail { err } => false,
                        }));
                        assert(block.encoding == BlockEncoding::HuffmanFixed);
                        assert(data_before =~= Seq::<u8>::empty());
                        assert(self.result.data@ == apply_items(
                            Seq::<u8>::empty(),
                            self.result.decode_items@,
                        ));
                    }
                    if single_stored {
                        assert(block.encoding == BlockEncoding::Stored);
                        assert(data_before =~= Seq::<u8>::empty());
                        let p1 = align8((p0 + 3) as nat);
                        let len_v = stored_field16(stream, p1 as int);
                        assert(Seq::<u8>::empty() + stored_body_bytes(stream, p1 as int + 32, len_v)
                            =~= stored_body_bytes(stream, p1 as int + 32, len_v));
                        assert(self.result.data@ == stored_body_bytes(
                            stream,
                            p1 as int + 32,
                            len_v,
                        ));
                    }
                }
                self.result.crc32 = crc32::finalize(self.result.crc32);
                return Ok(());
            }
            proof {
                assert forall|j: int|
                    0 <= j < self.result.blocks@.len() implies !(
                #[trigger] self.result.blocks@[j]).is_last by {
                    if j < blocks_before.len() {
                        assert(self.result.blocks@[j] == blocks_before[j]);
                    }
                }
            }
        }
    }
}

/// Decode one whole DEFLATE stream held in `bytes`, starting at the byte
/// `start`: its blocks, the uncompressed data, the decode trace, and the
/// finished CRC-32 of the data.
pub fn inflate_at(bytes: Vec<u8>, start: usize) -> (r: Result<InflateResult, GzipError>)
    requires
        bytes@.len() * 8 <= usize::MAX,
        start <= bytes@.len(),
    ensures
        r is Ok ==> ({
            &&& r->Ok_0.crc32 == crc32_of(r->Ok_0.data@)
            &&& r->Ok_0.blocks@.len() >= 1
            &&& r->Ok_0.blocks@.last().is_last
            &&& forall|j: int|
                0 <= j < r->Ok_0.blocks@.len() - 1 ==> !(#[trigger] r->Ok_0.blocks@[j]).is_last
            &&& forall|j: int|
                0 <= j < r->Ok_0.decode_items@.len() ==> item_block(
                    #[trigger] r->Ok_0.decode_items@[j],
                ) < r->Ok_0.blocks@.len()
            &&& forall|j1: int, j2: int|
                0 <= j1 <= j2 < r->Ok_0.decode_items@.len() ==> item_block(
                    #[trigger] r->Ok_0.decode_items@[j1],
                ) <= item_block(#[trigger] r->Ok_0.decode_items@[j2])
            &&& blocks_attributed(r->Ok_0.blocks@, r->Ok_0.decode_items@, stream_of(bytes@))
        }),
        ({
            let stream = stream_of(bytes@);
            let p0 = start * 8;
            let p1 = align8((p0 + 3) as nat);
            let len_v = stored_field16(stream, p1 as int);
            (p0 + 3 <= stream.len() && stream[p0 as int] == true && lsb_value(
                stream.subrange(p0 as int + 1, p0 as int + 3),
            ) == 0) ==> (if p1 + 32 > stream.len() {
                r == Err::<InflateResult, GzipError>(GzipError::UnexpectedEndOfStream)
            } else if len_v + stored_field16(stream, p1 as int + 16) != 0xFFFF {
                r == Err::<InflateResult, GzipError>(GzipError::StoredLenMismatch)
            } else if p1 + 32 + 8 * len_v > stream.len() {
                r == Err::<InflateResult, GzipError>(GzipError::UnexpectedEndOfStream)
            } else {
                &&& r is Ok
                &&& r->Ok_0.data@ == stored_body_bytes(stream, p1 as int + 32, len_v)
                &&& r->Ok_0.decode_items@.len() == 0
            })
        }),
        ({
            let stream = stream_of(bytes@);
            let p0 = start * 8;
            (p0 + 3 <= stream.len() && stream[p0 as int] == true && lsb_value(
                stream.subrange(p0 as int + 1, p0 as int + 3),
            ) == 1) ==> exists|tn: Seq<TrieNode>|
                {
                    &&& #[trigger] is_fixed_trie(tn)
                    &&& (match parse_body(tn, None, stream, (p0 + 3) as nat, 0nat) {
                        BodyParse::Done { items: sitems, end } => {
                            &&& r is Ok
                            &&& items_match(r->Ok_0.decode_items@, sitems)
                            &&& r->Ok_0.data@ == apply_items(
                                Seq::<u8>::empty(),
                                r->Ok_0.decode_items@,
                            )
                        },
                        BodyParse::Fail { err } => r == Err::<InflateResult, GzipError>(err),
                    })
                }
        }),
{
    let ghost gstream = stream_of(bytes@);
    let ghost gp0: nat = (start * 8) as nat;
    let bits = BitIterator::new_at(bytes, start);
    let mut inflator = Inflate::new(bits);
    match inflator.inflate() {
        Ok(()) => {
            proof {
                if gp0 + 3 <= gstream.len() && gstream[gp0 as int] == true && lsb_value(
                    gstream.subrange(gp0 as int + 1, gp0 as int + 3),
                ) == 1 {
                    let tn = choose|tn: Seq<TrieNode>|
                        #[trigger] is_fixed_trie(tn) && (match parse_body(
                            tn,
                            None,
                            gstream,
                            (gp0 + 3) as nat,
                            0nat,
                        ) {
                            BodyParse::Done { items: sitems, end } => items_match(
                                inflator.result.decode_items@,
                                sitems,
                            ) && inflator.result.data@ == apply_items(
                                Seq::<u8>::empty(),
                                inflator.result.decode_items@,
                            ),
                            BodyParse::Fail { err } => false,
                        });
                    assert(is_fixed_trie(tn));
                }
            }
            Ok(inflator.result)
        },
        Err(e) => {
            proof {
                if gp0 + 3 <= gstream.len() && gstream[gp0 as int] == true && lsb_value(
                    gstream.subrange(gp0 as int + 1, gp0 as int + 3),
                ) == 1 {
                    let tn = choose|tn: Seq<TrieNode>|
                        #[trigger] is_fixed_trie(tn) && (match parse_body(
                            tn,
                            None,
                            gstream,
                            (gp0 + 3) as nat,
                            0nat,
                        ) {
                            BodyParse::Done { items: sitems, end } => false,
                            BodyParse::Fail { err } => e == err,
                        });
                    assert(is_fixed_trie(tn));
                }
            }
            Err(e)
        },
    }
}

/// Decode one whole DEFLATE stream.
pub fn inflate(bytes: Vec<u8>) -> (r: Result<InflateResult, GzipError>)
    requires
        bytes@.len() * 8 <= usize::MAX,
    ensures
        r is Ok ==> ({
            &&& r->Ok_0.crc32 == crc32_of(r->Ok_0.data@)
            &&& r->Ok_0.blocks@.len() >= 1
            &&& r->Ok_0.blocks@.last().is_last
            &&& forall|j: int|
                0 <= j < r->Ok_0.blocks@.len() - 1 ==> !(#[trigger] r->Ok_0.blocks@[j]).is_last
            &&& forall|j: int|
                0 <= j < r->Ok_0.decode_items@.len() ==> item_block(
                    #[trigger] r->Ok_0.decode_items@[j],
                ) < r->Ok_0.blocks@.len()
            &&& forall|j1: int, j2: int|
                0 <= j1 <= j2 < r->Ok_0.decode_items@.len() ==> item_block(
                    #[trigger] r->Ok_0.decode_items@[j1],
                ) <= item_block(#[trigger] r->Ok_0.decode_items@[j2])
            &&& blocks_attributed(r->Ok_0.blocks@, r->Ok_0.decode_items@, stream_of(bytes@))
        }),
        ({
            let stream = stream_of(bytes@);
            let p1 = align8(3);
            let len_v = stored_field16(stream, p1 as int);
            (3 <= stream.len() && stream[0] == true && lsb_value(stream.subrange(1, 3)) == 0)
                ==> (if p1 + 32 > stream.len() {
                r == Err::<InflateResult, GzipError>(GzipError::UnexpectedEndOfStream)
            } else if len_v + stored_field16(stream, p1 as int + 16) != 0xFFFF {
                r == Err::<InflateResult, GzipError>(GzipError::StoredLenMismatch)
            } else if p1 + 32 + 8 * len_v > stream.len() {
                r == Err::<InflateResult, GzipError>(GzipError::UnexpectedEndOfStream)
            } else {
                &&& r is Ok
                &&& r->Ok_0.data@ == stored_body_bytes(stream, p1 as int + 32, len_v)
                &&& r->Ok_0.decode_items@.len() == 0
            })
        }),
        ({
            let stream = stream_of(bytes@);
            (3 <= stream.len() && stream[0] == true && lsb_value(stream.subrange(1, 3)) == 1)
                ==> exists|tn: Seq<TrieNode>|
                {
                    &&& #[trigger] is_fixed_trie(tn)
                    &&& (match parse_body(tn, None, stream, 3nat, 0nat) {
                        BodyParse::Done { items: sitems, end } => {
                            &&& r is Ok
                            &&& items_match(r->Ok_0.decode_items@, sitems)
                            &&& r->Ok_0.data@ == apply_items(
                                Seq::<u8>::empty(),
                                r->Ok_0.decode_items@,
                            )
                        },
                        BodyParse::Fail { err } => r == Err::<InflateResult, GzipError>(err),
                    })
                }
        }),
{
    inflate_at(bytes, 0)
}

/// Replaying trace items only appends: the prior output stays a prefix.
proof fn lemma_apply_items_prefix(data: Seq<u8>, items: Seq<DecodeItem>)
    ensures
        apply_items(data, items).len() >= data.len(),
        apply_items(data, items).take(data.len() as int) == data,
    decreases items.len(),
{
    if items.len() == 0 {
        assert(apply_items(data, items).take(data.len() as int) =~= data);
    } else {
        lemma_apply_items_prefix(data, items.drop_last());
        let d = apply_items(data, items.drop_last());
        match items.last() {
            DecodeItem::Literal { value, .. } => {
                assert(d.push(value).take(data.len() as int) =~= d.take(data.len() as int));
            },
            DecodeItem::Match { length, distance, .. } => {
                lemma_match_expand_len(d, length as nat, distance as nat);
                assert(match_expand(d, length as nat, distance as nat).take(data.len() as int)
                    =~= d.take(data.len() as int));
            },
        }
    }
}

/// A sequence prefix of itself is itself.
proof fn lemma_take_self(items: Seq<DecodeItem>, data: Seq<u8>)
    ensures
        items.take(items.len() as int) == items,
        data.take(data.len() as int) == data,
        items.skip(items.len() as int) == Seq::<DecodeItem>::empty(),
{
    assert(items.take(items.len() as int) =~= items);
    assert(data.take(data.len() as int) =~= data);
    assert(items.skip(items.len() as int) =~= Seq::<DecodeItem>::empty());
}

/// The bits a trie walk consumed are the stream stretch between the
/// positions before and after it.
proof fn proof_walk_slices(nodes: Seq<TrieNode>, stream: Seq<bool>, p1: int, p2: int)
    requires
        0 <= p1 <= p2 <= stream.len(),
    ensures
        stream.subrange(p1, stream.len() as int).take(p2 - p1) == stream.subrange(p1, p2),
        stream.subrange(p1, stream.len() as int) == stream.subrange(p1, stream.len() as int),
{
    assert(stream.subrange(p1, stream.len() as int).take(p2 - p1) =~= stream.subrange(p1, p2));
}

/// Two flush-free read stretches under an item prefix concatenate.
proof fn lemma_sym_read_chain(
    stream: Seq<bool>,
    p0: int,
    p1: int,
    p2: int,
    c: Seq<bool>,
    buf: Seq<bool>,
)
    requires
        0 <= p0 <= p1 <= p2 <= stream.len(),
        c + buf == stream.subrange(p0, p1),
    ensures
        c + (buf + stream.subrange(p1, p2)) == stream.subrange(p0, p2),
{
    assert(c + (buf + stream.subrange(p1, p2)) =~= (c + buf) + stream.subrange(p1, p2));
    assert((c + buf) + stream.subrange(p1, p2) =~= stream.subrange(p0, p2));
}

/// Pushing a trace item moves the buffered bits into the item: the
/// accounted stretch of the stream is unchanged, and the replayed output
/// tracks the push.
proof fn lemma_trace_step(
    stream: Seq<bool>,
    p0: int,
    p2: int,
    items0: Seq<DecodeItem>,
    items_before: Seq<DecodeItem>,
    items_after: Seq<DecodeItem>,
    buf_before: Seq<bool>,
    data0: Seq<u8>,
)
    requires
        items_after.len() == items_before.len() + 1,
        items_after.drop_last() == items_before,
        items_before.len() >= items0.len(),
        items_before.take(items0.len() as int) == items0,
        item_bits(items_after.last()) == buf_before,
        concat_bits(items_before.skip(items0.len() as int)) + buf_before == stream.subrange(
            p0,
            p2,
        ),
    ensures
        items_after.take(items0.len() as int) == items0,
        items_after.skip(items0.len() as int).drop_last() == items_before.skip(
            items0.len() as int,
        ),
        items_after.last() == items_after.skip(items0.len() as int).last(),
        concat_bits(items_after.skip(items0.len() as int)) + Seq::<bool>::empty()
            == stream.subrange(p0, p2),
{
    let k = items0.len() as int;
    assert(items_after.take(k) =~= items_before.take(k));
    assert(items_after.skip(k).drop_last() =~= items_before.skip(k));
    assert(items_after.skip(k).last() == items_after.last());
    assert(items_after.skip(k).len() == items_before.skip(k).len() + 1);
    assert(concat_bits(items_after.skip(k)) == concat_bits(items_before.skip(k)) + buf_before);
    assert(concat_bits(items_after.skip(k)) + Seq::<bool>::empty() =~= concat_bits(
        items_after.skip(k),
    ));
}

/// Recombining the two bytes of a little-endian 16-bit field.
proof fn lemma_or_shl8(be: u32, le: u32)
    by (bit_vector)
    requires
        be < 256,
        le < 256,
    ensures
        (be << 8u32) | le == le + 256 * be,
        (be << 8u32) | le < 0x10000,
{
}

/// The stored-block complement check, as 16-bit arithmetic.
proof fn lemma_complement16(len: u32, nlen: u32)
    by (bit_vector)
    requires
        len < 0x10000,
        nlen < 0x10000,
    ensures
        (len == (!nlen & 0xFFFF)) == (len + nlen == 0xFFFF),
{
}

/// Two consecutive flush-free read stretches concatenate.
proof fn lemma_buffer_chain(base: Seq<bool>, stream: Seq<bool>, p0: int, p1: int, p2: int)
    requires
        0 <= p0 <= p1 <= p2 <= stream.len(),
    ensures
        (base + stream.subrange(p0, p1)) + stream.subrange(p1, p2) == base + stream.subrange(
            p0,
            p2,
        ),
{
    assert((base + stream.subrange(p0, p1)) + stream.subrange(p1, p2) =~= base + stream.subrange(
        p0,
        p2,
    ));
}

} // verus!
