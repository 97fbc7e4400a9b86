//! A bit-level reader over a byte buffer. Bits come LSB-first within each
//! byte; two read disciplines pack them into an integer, and every bit read
//! is also appended to an internal trace buffer that the decoder drains to
//! attribute bits to the symbol they produced.

use vstd::prelude::*;
use vstd::arithmetic::power2::pow2;
use vstd::arithmetic::power2::lemma_pow2_adds;
use vstd::arithmetic::power2::lemma_pow2_pos;
use vstd::arithmetic::power2::lemma2_to64;
use vstd::bits::lemma_u32_shl_is_mul;
use vstd::bits::lemma_u32_pow2_no_overflow;

verus! {

/// Bit `i` (0 = least significant) of a byte.
pub open spec fn byte_bit(b: u8, i: int) -> bool
    recommends
        0 <= i < 8,
{
    (b >> (i as u8)) & 1u8 == 1u8
}

/// The bit stream of a byte sequence: each byte contributes its eight bits
/// LSB-first, in byte order.
pub open spec fn stream_of(bytes: Seq<u8>) -> Seq<bool> {
    Seq::new(bytes.len() * 8, |k: int| byte_bit(bytes[k / 8], k % 8))
}

/// The LSB-first value of a bit sequence: bit `i` contributes `2^i`.
pub open spec fn lsb_value(bits: Seq<bool>) -> nat
    decreases bits.len(),
{
    if bits.len() == 0 {
        0
    } else {
        (if bits[0] {
            1nat
        } else {
            0nat
        }) + 2 * lsb_value(bits.drop_first())
    }
}

/// The MSB-first value of a bit sequence: bit `i` contributes `2^(n-1-i)`.
pub open spec fn msb_value(bits: Seq<bool>) -> nat
    decreases bits.len(),
{
    if bits.len() == 0 {
        0
    } else {
        2 * msb_value(bits.drop_last()) + (if bits.last() {
            1nat
        } else {
            0nat
        })
    }
}

/// The next whole-byte boundary at or after bit position `p`.
pub open spec fn align8(p: nat) -> nat {
    if p % 8 == 0 {
        p
    } else {
        (p + (8 - p % 8)) as nat
    }
}

/// A cursor over the bit stream of a byte buffer.
pub struct BitIterator {
    bytes: Vec<u8>,
    cur: usize,
    bit_buffer: Vec<bool>,
}

impl BitIterator {
    /// The whole underlying bit stream (consumed and unconsumed alike).
    pub closed spec fn bits(&self) -> Seq<bool> {
        stream_of(self.bytes@)
    }

    /// How many bits have been consumed so far.
    pub closed spec fn position(&self) -> nat {
        self.cur as nat
    }

    /// The bits read since the last flush.
    pub closed spec fn buffer(&self) -> Seq<bool> {
        self.bit_buffer@
    }

    pub closed spec fn wf(&self) -> bool {
        &&& self.cur <= self.bytes@.len() * 8
        &&& self.bytes@.len() * 8 <= usize::MAX
    }

    /// A well-formed reader's position never passes the end of its stream.
    pub proof fn lemma_wf(&self)
        requires
            self.wf(),
        ensures
            self.position() <= self.bits().len(),
    {
    }

    pub fn new(bytes: Vec<u8>) -> (r: BitIterator)
        requires
            bytes@.len() * 8 <= usize::MAX,
        ensures
            r.wf(),
            r.bits() == stream_of(bytes@),
            r.position() == 0,
            r.buffer() == Seq::<bool>::empty(),
    {
        BitIterator { bytes, cur: 0, bit_buffer: Vec::new() }
    }

    /// Like `new`, but with the cursor already at the start of byte
    /// `byte_pos`; the framer uses it to hand the inflater the bytes that
    /// follow the member header.
    pub fn new_at(bytes: Vec<u8>, byte_pos: usize) -> (r: BitIterator)
        requires
            bytes@.len() * 8 <= usize::MAX,
            byte_pos <= bytes@.len(),
        ensures
            r.wf(),
            r.bits() == stream_of(bytes@),
            r.position() == byte_pos * 8,
            r.buffer() == Seq::<bool>::empty(),
    {
        let cur = byte_pos * 8;
        BitIterator { bytes, cur, bit_buffer: Vec::new() }
    }

    /// How many bits remain to be consumed.
    pub fn remaining(&self) -> (n: usize)
        requires
            self.wf(),
        ensures
            n == self.bits().len() - self.position(),
    {
        self.bytes.len() * 8 - self.cur
    }

    /// Consume and return the next bit, or `None` at the end of the stream.
    /// A consumed bit is appended to the trace buffer.
    pub fn next(&mut self) -> (r: Option<bool>)
        requires
            old(self).wf(),
        ensures
            final(self).wf(),
            final(self).bits() == old(self).bits(),
            old(self).position() < old(self).bits().len() ==> {
                &&& r == Some(old(self).bits()[old(self).position() as int])
                &&& final(self).position() == old(self).position() + 1
                &&& final(self).buffer() == old(self).buffer().push(
                    old(self).bits()[old(self).position() as int],
                )
            },
            old(self).position() >= old(self).bits().len() ==> {
                &&& r is None
                &&& final(self).position() == old(self).position()
                &&& final(self).buffer() == old(self).buffer()
            },
    {
        if self.cur < self.bytes.len() * 8 {
            let byte = self.bytes[self.cur / 8];
            let sh = (self.cur % 8) as u8;
            let bit = (byte >> sh) & 1u8 == 1u8;
            assert(bit == self.bits()[self.cur as int]);
            self.bit_buffer.push(bit);
            self.cur = self.cur + 1;
            Some(bit)
        } else {
            None
        }
    }

    /// Consume `count` bits; bit `i` of the input lands in bit position `i`
    /// of the result (LSB-first packing).
    pub fn read_bits_inv(&mut self, count: u8) -> (value: u32)
        requires
            old(self).wf(),
            count <= 32,
            old(self).position() + count <= old(self).bits().len(),
        ensures
            final(self).wf(),
            final(self).bits() == old(self).bits(),
            final(self).position() == old(self).position() + count,
            final(self).buffer() == old(self).buffer() + old(self).bits().subrange(
                old(self).position() as int,
                old(self).position() + count,
            ),
            value == lsb_value(
                old(self).bits().subrange(
                    old(self).position() as int,
                    old(self).position() + count,
                ),
            ),
            value < pow2(count as nat),
    {
        let ghost p0 = old(self).position() as int;
        let mut value: u32 = 0;
        let mut i: u8 = 0;
        proof {
            assert(old(self).bits().subrange(p0, p0) =~= Seq::<bool>::empty());
            assert(self.buffer() =~= old(self).buffer() + old(self).bits().subrange(p0, p0));
            lemma_pow2_pos(0);
        }
        while i < count
            invariant
                self.wf(),
                i <= count,
                count <= 32,
                self.bits() == old(self).bits(),
                p0 == old(self).position(),
                p0 + count <= self.bits().len(),
                self.position() == p0 + i,
                self.buffer() == old(self).buffer() + self.bits().subrange(p0, p0 + i),
                value == lsb_value(self.bits().subrange(p0, p0 + i)),
                value < pow2(i as nat),
            decreases count - i,
        {
            let bit_b = self.next().unwrap();
            let bit: u32 = if bit_b {
                1
            } else {
                0
            };
            proof {
                let taken = self.bits().subrange(p0, p0 + i);
                let taken1 = self.bits().subrange(p0, p0 + i + 1);
                assert(taken1 =~= taken.push(self.bits()[p0 + i]));
                assert(self.buffer() =~= old(self).buffer() + taken1);
                lemma_lsb_value_push(taken, bit_b);
                lemma_u32_pow2_no_overflow(i as nat);
                lemma_u32_shl_is_mul(1u32, i as u32);
                lemma_or_shl(value, bit, i as u32);
                lemma_pow2_adds(i as nat, 1);
                lemma2_to64();
            }
            value = value | (bit << (i as u32));
            i = i + 1;
        }
        value
    }

    /// Consume `count` bits; bit `i` of the input lands in bit position
    /// `count - 1 - i` of the result (MSB-first packing).
    pub fn read_bits(&mut self, count: u8) -> (value: u32)
        requires
            old(self).wf(),
            count <= 32,
            old(self).position() + count <= old(self).bits().len(),
        ensures
            final(self).wf(),
            final(self).bits() == old(self).bits(),
            final(self).position() == old(self).position() + count,
            final(self).buffer() == old(self).buffer() + old(self).bits().subrange(
                old(self).position() as int,
                old(self).position() + count,
            ),
            value == msb_value(
                old(self).bits().subrange(
                    old(self).position() as int,
                    old(self).position() + count,
                ),
            ),
            value < pow2(count as nat),
    {
        let ghost p0 = old(self).position() as int;
        let mut value: u32 = 0;
        let mut i: u8 = 0;
        proof {
            assert(old(self).bits().subrange(p0, p0) =~= Seq::<bool>::empty());
            assert(self.buffer() =~= old(self).buffer() + old(self).bits().subrange(p0, p0));
            lemma_pow2_pos(0);
            lemma_pow2_pos(count as nat);
            assert(msb_value(Seq::<bool>::empty()) == 0);
            assert(0nat * pow2(count as nat) == 0) by (nonlinear_arith);
        }
        while i < count
            invariant
                self.wf(),
                i <= count,
                count <= 32,
                self.bits() == old(self).bits(),
                p0 == old(self).position(),
                p0 + count <= self.bits().len(),
                self.position() == p0 + i,
                self.buffer() == old(self).buffer() + self.bits().subrange(p0, p0 + i),
                value == msb_value(self.bits().subrange(p0, p0 + i)) * pow2((count - i) as nat),
                msb_value(self.bits().subrange(p0, p0 + i)) < pow2(i as nat),
            decreases count - i,
        {
            let bit_b = self.next().unwrap();
            let bit: u32 = if bit_b {
                1
            } else {
                0
            };
            let sh: u8 = count - 1 - i;
            proof {
                let taken = self.bits().subrange(p0, p0 + i);
                let taken1 = self.bits().subrange(p0, p0 + i + 1);
                assert(taken1 =~= taken.push(self.bits()[p0 + i]));
                assert(self.buffer() =~= old(self).buffer() + taken1);
                lemma_msb_value_push(taken, bit_b);
                lemma_msb_step(taken, bit_b, value, bit, i as nat, count as nat, sh as nat);
            }
            value = value | (bit << (sh as u32));
            i = i + 1;
        }
        proof {
            let taken = self.bits().subrange(p0, p0 + count);
            assert(pow2(0) == 1) by {
                lemma2_to64();
            }
            assert(i == count);
            assert(value == msb_value(taken) * pow2(0));
            assert(msb_value(taken) * 1 == msb_value(taken));
            assert(value == msb_value(taken));
            assert(msb_value(taken) < pow2(count as nat));
        }
        value
    }

    /// Advance to the next whole-byte boundary; a no-op when already there.
    /// Discarded bits do not enter the trace buffer.
    pub fn discard_extra_bits(&mut self)
        requires
            old(self).wf(),
        ensures
            final(self).wf(),
            final(self).bits() == old(self).bits(),
            final(self).buffer() == old(self).buffer(),
            final(self).position() == align8(old(self).position()),
    {
        let rem = self.cur % 8;
        if rem != 0 {
            proof {
                lemma_align8_in_range(self.cur as nat, self.bytes@.len());
            }
            self.cur = self.cur + (8 - rem);
        }
    }

    /// Return the bits read since the last flush and clear the buffer.
    pub fn flush_buffer(&mut self) -> (r: Vec<bool>)
        requires
            old(self).wf(),
        ensures
            final(self).wf(),
            final(self).bits() == old(self).bits(),
            final(self).position() == old(self).position(),
            r@ == old(self).buffer(),
            final(self).buffer() == Seq::<bool>::empty(),
    {
        let mut result: Vec<bool> = Vec::new();
        core::mem::swap(&mut result, &mut self.bit_buffer);
        result
    }

    /// A rendering of the eight bits of the byte under the cursor, most
    /// significant first, with `<` marking off the bits already read from
    /// those still to come; empty at the end of the stream.
    pub fn debug(&self) -> (r: Vec<char>)
        requires
            self.wf(),
        ensures
            self.position() >= self.bits().len() ==> r@.len() == 0,
            self.position() < self.bits().len() ==> ({
                let base = 8 * (self.position() / 8) as int;
                let marker = 8 - (self.position() - base);
                &&& r@.len() == 9
                &&& r@[marker as int] == '<'
                &&& (forall|i: int|
                    0 <= i < marker ==> r@[i] == (if self.bits()[base + 7 - i] {
                        '1'
                    } else {
                        '0'
                    }))
                &&& (forall|i: int|
                    marker < i <= 8 ==> r@[i] == (if self.bits()[base + 8 - i] {
                        '1'
                    } else {
                        '0'
                    }))
            }),
    {
        let mut details: Vec<char> = Vec::new();
        if self.cur < self.bytes.len() * 8 {
            let byte = self.bytes[self.cur / 8];
            let next_idx = (self.cur % 8) as u8;
            proof {
                assert forall|j: int| 0 <= j < 8 implies self.bits()[8 * ((self.cur as int) / 8)
                    + j] == byte_bit(byte, j) by {
                    let q = (self.cur as int) / 8;
                    assert((8 * q + j) / 8 == q && (8 * q + j) % 8 == j) by (nonlinear_arith)
                        requires
                            0 <= j < 8,
                            0 <= q,
                    ;
                }
            }
            let mut k: u8 = 8;
            while k > 0
                invariant
                    k <= 8,
                    next_idx < 8,
                    next_idx == self.position() - 8 * (self.position() / 8),
                    byte_bit_facts(byte, self.bits(), 8 * (self.position() / 8) as int),
                    details@.len() == 8 - k + (if next_idx > k { 1int } else { 0int }),
                    forall|i: int|
                        0 <= i < details@.len() && i < 8 - next_idx ==> details@[i] == (if
                        byte_bit(byte, 7 - i) {
                            '1'
                        } else {
                            '0'
                        }),
                    next_idx > k ==> details@[8 - next_idx] == '<',
                    forall|i: int|
                        8 - next_idx < i < details@.len() ==> details@[i] == (if byte_bit(
                            byte,
                            8 - i,
                        ) {
                            '1'
                        } else {
                            '0'
                        }),
                decreases k,
            {
                k = k - 1;
                if k + 1 == next_idx {
                    details.push('<');
                }
                if (byte >> k) & 1u8 == 1u8 {
                    details.push('1');
                } else {
                    details.push('0');
                }
            }
            if next_idx == 0 {
                details.push('<');
            }
        }
        details
    }
}

/// The bits of `byte` are the stream's bits at the aligned base.
pub open spec fn byte_bit_facts(byte: u8, bits: Seq<bool>, base: int) -> bool {
    forall|j: int| 0 <= j < 8 ==> bits[base + j] == byte_bit(byte, j)
}

/// The eight bits of a byte, most significant first.
pub fn byte_to_bits(byte: u8) -> (r: [bool; 8])
    ensures
        r@.len() == 8,
        forall|i: int| 0 <= i < 8 ==> r@[i] == byte_bit(byte, 7 - i),
{
    let r = [
        byte & (1u8 << 7u8) != 0,
        byte & (1u8 << 6u8) != 0,
        byte & (1u8 << 5u8) != 0,
        byte & (1u8 << 4u8) != 0,
        byte & (1u8 << 3u8) != 0,
        byte & (1u8 << 2u8) != 0,
        byte & (1u8 << 1u8) != 0,
        byte & 1u8 != 0,
    ];
    proof {
        lemma_mask_is_shift(byte);
        assert forall|i: int| 0 <= i < 8 implies r@[i] == byte_bit(byte, 7 - i) by {
            if i == 0 {
                assert(r@[0] == (byte & (1u8 << 7u8) != 0));
            } else if i == 1 {
                assert(r@[1] == (byte & (1u8 << 6u8) != 0));
            } else if i == 2 {
                assert(r@[2] == (byte & (1u8 << 5u8) != 0));
            } else if i == 3 {
                assert(r@[3] == (byte & (1u8 << 4u8) != 0));
            } else if i == 4 {
                assert(r@[4] == (byte & (1u8 << 3u8) != 0));
            } else if i == 5 {
                assert(r@[5] == (byte & (1u8 << 2u8) != 0));
            } else if i == 6 {
                assert(r@[6] == (byte & (1u8 << 1u8) != 0));
            } else {
                assert(r@[7] == (byte & 1u8 != 0));
            }
        }
    }
    r
}

proof fn lemma_mask_is_shift(b: u8)
    by (bit_vector)
    ensures
        (b & (1u8 << 7u8) != 0) == ((b >> 7u8) & 1u8 == 1u8),
        (b & (1u8 << 6u8) != 0) == ((b >> 6u8) & 1u8 == 1u8),
        (b & (1u8 << 5u8) != 0) == ((b >> 5u8) & 1u8 == 1u8),
        (b & (1u8 << 4u8) != 0) == ((b >> 4u8) & 1u8 == 1u8),
        (b & (1u8 << 3u8) != 0) == ((b >> 3u8) & 1u8 == 1u8),
        (b & (1u8 << 2u8) != 0) == ((b >> 2u8) & 1u8 == 1u8),
        (b & (1u8 << 1u8) != 0) == ((b >> 1u8) & 1u8 == 1u8),
        (b & 1u8 != 0) == ((b >> 0u8) & 1u8 == 1u8),
{
}

/// Packing one more bit above the top of an LSB-first field adds its place
/// value.
pub proof fn lemma_lsb_value_push(s: Seq<bool>, b: bool)
    ensures
        lsb_value(s.push(b)) == lsb_value(s) + (if b {
            1nat
        } else {
            0nat
        }) * pow2(s.len()),
    decreases s.len(),
{
    lemma2_to64();
    let bit: nat = if b {
        1nat
    } else {
        0nat
    };
    if s.len() == 0 {
        assert(s.push(b)[0] == b);
        assert(s.push(b).drop_first() =~= Seq::<bool>::empty());
        assert(lsb_value(s.push(b)) == bit + 2 * lsb_value(Seq::<bool>::empty()));
        assert(bit * pow2(0) == bit);
    } else {
        assert(s.push(b)[0] == s[0]);
        assert(s.push(b).drop_first() =~= s.drop_first().push(b));
        lemma_lsb_value_push(s.drop_first(), b);
        lemma_pow2_adds(1, (s.len() - 1) as nat);
        assert(pow2(s.len()) == 2 * pow2((s.len() - 1) as nat));
        assert(2 * (lsb_value(s.drop_first()) + bit * pow2((s.len() - 1) as nat)) == 2
            * lsb_value(s.drop_first()) + bit * pow2(s.len())) by (nonlinear_arith)
            requires
                pow2(s.len()) == 2 * pow2((s.len() - 1) as nat),
        ;
    }
}

/// Appending a bit to an MSB-first field shifts the field up by one place.
pub proof fn lemma_msb_value_push(s: Seq<bool>, b: bool)
    ensures
        msb_value(s.push(b)) == 2 * msb_value(s) + (if b {
            1nat
        } else {
            0nat
        }),
{
    assert(s.push(b).drop_last() =~= s);
    assert(s.push(b).last() == b);
}

/// The arithmetic step of `read_bits`: oring the next bit into its place
/// below an already-aligned field.
proof fn lemma_msb_step(
    taken: Seq<bool>,
    b: bool,
    value: u32,
    bit: u32,
    i: nat,
    count: nat,
    sh: nat,
)
    requires
        i < count,
        count <= 32,
        sh == count - 1 - i,
        bit == (if b {
            1nat
        } else {
            0nat
        }),
        taken.len() == i,
        value == msb_value(taken) * pow2((count - i) as nat),
        msb_value(taken) < pow2(i),
    ensures
        value | (bit << (sh as u32)) == msb_value(taken.push(b)) * pow2((count - i - 1) as nat),
        msb_value(taken.push(b)) < pow2(i + 1),
{
    lemma_msb_value_push(taken, b);
    let m = msb_value(taken);
    let mb = msb_value(taken.push(b));
    lemma_pow2_adds((count - i - 1) as nat, 1);
    lemma2_to64();
    assert(pow2((count - i) as nat) == pow2((count - i - 1) as nat) * 2);
    lemma_pow2_adds(i, 1);
    assert(mb == 2 * m + bit);
    assert(mb < pow2(i + 1));
    lemma_pow2_adds(i, (count - i - 1) as nat);
    assert(mb * pow2((count - i - 1) as nat) < pow2(i + 1) * pow2((count - i - 1) as nat))
        by (nonlinear_arith)
        requires
            mb < pow2(i + 1),
            pow2((count - i - 1) as nat) > 0,
    ;
    lemma_pow2_pos((count - i - 1) as nat);
    assert(pow2(i + 1) * pow2((count - i - 1) as nat) == pow2(count)) by {
        lemma_pow2_adds(i + 1, (count - i - 1) as nat);
    }
    lemma_u32_pow2_no_overflow(sh);
    assert(mb * pow2((count - i - 1) as nat) == m * pow2((count - i) as nat) + bit * pow2(sh))
        by (nonlinear_arith)
        requires
            mb == 2 * m + bit,
            sh == count - i - 1,
            pow2((count - i) as nat) == pow2((count - i - 1) as nat) * 2,
    ;
    let shu = sh as u32;
    lemma_u32_shl_is_mul(1u32, shu);
    assert(bit << shu == bit * pow2(sh)) by {
        if bit == 1 {
            assert((1u32 << shu) == pow2(sh));
        } else {
            assert((0u32 << shu) == 0) by (bit_vector);
        }
    }
    if count - i == 32 {
        assert(m == 0);
        assert(value == 0) by (nonlinear_arith)
            requires
                value == m * pow2((count - i) as nat),
                m == 0,
        ;
        assert(0u32 | (bit << shu) == 0 + (bit << shu)) by (bit_vector);
    } else {
        lemma_u32_pow2_no_overflow((count - i) as nat);
        let p = pow2((count - i) as nat) as u32;
        assert(value % p == 0) by (nonlinear_arith)
            requires
                value == m * p,
                p > 0,
        ;
        assert(2u32 << shu == p) by {
            assert(p == pow2(sh) * 2);
            assert(1u32 << shu == pow2(sh));
            assert(2u32 << shu == (1u32 << shu) * 2) by (bit_vector)
                requires
                    shu < 31,
            ;
        }
        assert(value | (bit << shu) == value + (bit << shu)) by (bit_vector)
            requires
                shu < 31,
                bit <= 1,
                value % (2u32 << shu) == 0,
        ;
    }
}

/// Oring a low bit into a value that is zero below position `i` adds its
/// place value.
proof fn lemma_or_shl(value: u32, bit: u32, i: u32)
    by (bit_vector)
    requires
        i < 32,
        bit <= 1,
        value < (1u32 << i),
    ensures
        value | (bit << i) == value + bit * (1u32 << i),
        value + bit * (1u32 << i) < (1u32 << i) * 2,
{
}

proof fn lemma_align8_in_range(p: nat, len: nat)
    requires
        p <= len * 8,
        p % 8 != 0,
    ensures
        align8(p) <= len * 8,
        align8(p) == p + (8 - p % 8),
{
    assert(align8(p) == (p / 8 + 1) * 8);
    assert(len * 8 % 8 == 0) by (nonlinear_arith);
    assert(p < len * 8);
    assert(p / 8 < len) by (nonlinear_arith)
        requires
            p < len * 8,
    ;
    assert((p / 8 + 1) * 8 <= len * 8) by (nonlinear_arith)
        requires
            p / 8 + 1 <= len,
    ;
}

/// Reading `n` bits and then `m` bits LSB-first from a position splits a
/// single `n + m`-bit LSB-first read into its two sub-fields: the first
/// field is the low part, the second is scaled by `2^n`.
pub proof fn lemma_read_bits_inv_split(bits: Seq<bool>, p: int, n: nat, m: nat)
    requires
        0 <= p,
        p + n + m <= bits.len(),
    ensures
        lsb_value(bits.subrange(p, p + n + m)) == lsb_value(bits.subrange(p, p + n)) + pow2(n)
            * lsb_value(bits.subrange(p + n, p + n + m)),
{
    let s = bits.subrange(p, p + n);
    let t = bits.subrange(p + n, p + n + m);
    assert(bits.subrange(p, p + n + m) =~= s + t);
    lemma_lsb_value_concat(s, t);
}

/// The LSB-first value of a concatenation: the left part is the low field,
/// the right part sits above it.
pub proof fn lemma_lsb_value_concat(s: Seq<bool>, t: Seq<bool>)
    ensures
        lsb_value(s + t) == lsb_value(s) + pow2(s.len()) * lsb_value(t),
    decreases s.len(),
{
    lemma2_to64();
    if s.len() == 0 {
        assert(s + t =~= t);
    } else {
        assert((s + t)[0] == s[0]);
        assert((s + t).drop_first() =~= s.drop_first() + t);
        lemma_lsb_value_concat(s.drop_first(), t);
        lemma_pow2_adds(1, (s.len() - 1) as nat);
        assert(lsb_value(s + t) == (if s[0] {
            1nat
        } else {
            0nat
        }) + 2 * lsb_value(s.drop_first() + t));
        assert(2 * (pow2((s.len() - 1) as nat) * lsb_value(t)) == pow2(s.len()) * lsb_value(t))
            by (nonlinear_arith)
            requires
                pow2(s.len()) == 2 * pow2((s.len() - 1) as nat),
        ;
    }
}

/// An aligned eight-bit LSB-first field of the stream is exactly the
/// underlying byte.
pub proof fn lemma_byte_slice(bytes: Seq<u8>, j: int)
    requires
        0 <= j < bytes.len(),
    ensures
        lsb_value(stream_of(bytes).subrange(8 * j, 8 * j + 8)) == bytes[j],
{
    let s = stream_of(bytes).subrange(8 * j, 8 * j + 8);
    let b = bytes[j];
    assert forall|i: int| 0 <= i < 8 implies s[i] == byte_bit(b, i) by {
        assert((8 * j + i) / 8 == j && (8 * j + i) % 8 == i) by (nonlinear_arith)
            requires
                0 <= i < 8,
                0 <= j,
        ;
    }
    lemma_lsb8(s, b);
}

/// An eight-bit LSB-first field whose bits are those of a byte has that
/// byte's value.
proof fn lemma_lsb8(s: Seq<bool>, b: u8)
    requires
        s.len() == 8,
        forall|i: int| 0 <= i < 8 ==> s[i] == byte_bit(b, i),
    ensures
        lsb_value(s) == b,
{
    let s1 = s.drop_first();
    let s2 = s1.drop_first();
    let s3 = s2.drop_first();
    let s4 = s3.drop_first();
    let s5 = s4.drop_first();
    let s6 = s5.drop_first();
    let s7 = s6.drop_first();
    assert(s7.drop_first() =~= Seq::<bool>::empty());
    let c0: nat = if (b >> 0u8) & 1u8 == 1u8 {
        1
    } else {
        0
    };
    let c1: nat = if (b >> 1u8) & 1u8 == 1u8 {
        1
    } else {
        0
    };
    let c2: nat = if (b >> 2u8) & 1u8 == 1u8 {
        1
    } else {
        0
    };
    let c3: nat = if (b >> 3u8) & 1u8 == 1u8 {
        1
    } else {
        0
    };
    let c4: nat = if (b >> 4u8) & 1u8 == 1u8 {
        1
    } else {
        0
    };
    let c5: nat = if (b >> 5u8) & 1u8 == 1u8 {
        1
    } else {
        0
    };
    let c6: nat = if (b >> 6u8) & 1u8 == 1u8 {
        1
    } else {
        0
    };
    let c7: nat = if (b >> 7u8) & 1u8 == 1u8 {
        1
    } else {
        0
    };
    assert(s1[0] == s[1]);
    assert(s2[0] == s1[1] && s1[1] == s[2]);
    assert(s3[0] == s2[1] && s2[1] == s1[2] && s1[2] == s[3]);
    assert(s4[0] == s3[1] && s3[1] == s2[2] && s2[2] == s1[3] && s1[3] == s[4]);
    assert(s5[0] == s4[1] && s4[1] == s3[2] && s3[2] == s2[3] && s2[3] == s1[4] && s1[4] == s[5]);
    assert(s6[0] == s5[1] && s5[1] == s4[2] && s4[2] == s3[3] && s3[3] == s2[4] && s2[4] == s1[5]
        && s1[5] == s[6]);
    assert(s7[0] == s6[1] && s6[1] == s5[2] && s5[2] == s4[3] && s4[3] == s3[4] && s3[4] == s2[5]
        && s2[5] == s1[6] && s1[6] == s[7]);
    assert(s[0] == byte_bit(b, 0) && s[1] == byte_bit(b, 1) && s[2] == byte_bit(b, 2) && s[3]
        == byte_bit(b, 3) && s[4] == byte_bit(b, 4) && s[5] == byte_bit(b, 5) && s[6] == byte_bit(
        b,
        6,
    ) && s[7] == byte_bit(b, 7));
    assert(lsb_value(s7.drop_first()) == 0);
    assert(lsb_value(s7) == c7);
    assert(lsb_value(s6) == c6 + 2 * c7);
    assert(lsb_value(s5) == c5 + 2 * (c6 + 2 * c7));
    assert(lsb_value(s4) == c4 + 2 * (c5 + 2 * (c6 + 2 * c7)));
    assert(lsb_value(s3) == c3 + 2 * (c4 + 2 * (c5 + 2 * (c6 + 2 * c7))));
    assert(lsb_value(s2) == c2 + 2 * (c3 + 2 * (c4 + 2 * (c5 + 2 * (c6 + 2 * c7)))));
    assert(lsb_value(s1) == c1 + 2 * (c2 + 2 * (c3 + 2 * (c4 + 2 * (c5 + 2 * (c6 + 2 * c7))))));
    assert(lsb_value(s) == c0 + 2 * (c1 + 2 * (c2 + 2 * (c3 + 2 * (c4 + 2 * (c5 + 2 * (c6 + 2
        * c7)))))));
    assert(((b >> 0u8) & 1u8) <= 1 && ((b >> 1u8) & 1u8) <= 1 && ((b >> 2u8) & 1u8) <= 1 && ((b
        >> 3u8) & 1u8) <= 1 && ((b >> 4u8) & 1u8) <= 1 && ((b >> 5u8) & 1u8) <= 1 && ((b >> 6u8)
        & 1u8) <= 1 && ((b >> 7u8) & 1u8) <= 1) by (bit_vector);
    assert(b == ((b >> 0u8) & 1u8) + 2 * ((b >> 1u8) & 1u8) + 4 * ((b >> 2u8) & 1u8) + 8 * ((b
        >> 3u8) & 1u8) + 16 * ((b >> 4u8) & 1u8) + 32 * ((b >> 5u8) & 1u8) + 64 * ((b >> 6u8)
        & 1u8) + 128 * ((b >> 7u8) & 1u8)) by (bit_vector);
}

/// Aligning to a byte boundary is idempotent, and a no-op when the position
/// is already on a boundary.
pub proof fn lemma_discard_extra_bits_idempotent(p: nat)
    ensures
        align8(align8(p)) == align8(p),
        p % 8 == 0 ==> align8(p) == p,
{
    if p % 8 != 0 {
        assert(align8(p) == (p / 8 + 1) * 8);
        assert(((p / 8 + 1) * 8) % 8 == 0) by (nonlinear_arith);
    }
}

} // verus!
