//! Running IEEE/GZIP CRC-32: reflected polynomial `0xEDB88320`, initial
//! value `0xFFFF_FFFF`, final XOR with `0xFFFF_FFFF`, updated byte by byte.

use vstd::prelude::*;

verus! {

/// One shift-and-conditionally-xor round of the reflected CRC-32 polynomial.
pub open spec fn crc32_round(c: u32) -> u32 {
    if c & 1 == 1 {
        (c >> 1u32) ^ 0xEDB8_8320u32
    } else {
        c >> 1u32
    }
}

/// `k` rounds of `crc32_round`.
pub open spec fn crc32_rounds(c: u32, k: nat) -> u32
    decreases k,
{
    if k == 0 {
        c
    } else {
        crc32_rounds(crc32_round(c), (k - 1) as nat)
    }
}

/// The running CRC after absorbing one byte.
pub open spec fn crc32_update(c: u32, byte: u8) -> u32 {
    crc32_rounds(c ^ (byte as u32), 8)
}

/// The running CRC after absorbing a byte sequence, starting from `c`.
pub open spec fn crc32_fold(c: u32, s: Seq<u8>) -> u32
    decreases s.len(),
{
    if s.len() == 0 {
        c
    } else {
        crc32_fold(crc32_update(c, s[0]), s.drop_first())
    }
}

/// The finished CRC-32 of a byte sequence.
pub open spec fn crc32_of(s: Seq<u8>) -> u32 {
    crc32_fold(0xFFFF_FFFFu32, s) ^ 0xFFFF_FFFFu32
}

/// The initial value of the running CRC register.
pub fn initial_value() -> (c: u32)
    ensures
        c == 0xFFFF_FFFFu32,
{
    0xFFFF_FFFF
}

/// Absorb one byte into the running CRC.
pub fn update(crc: u32, byte: u8) -> (c: u32)
    ensures
        c == crc32_update(crc, byte),
{
    let mut c: u32 = crc ^ (byte as u32);
    let mut k: usize = 0;
    while k < 8
        invariant
            k <= 8,
            c == crc32_rounds(crc ^ (byte as u32), k as nat),
        decreases 8 - k,
    {
        proof {
            lemma_crc32_rounds_step(crc ^ (byte as u32), k as nat);
        }
        if c & 1 == 1 {
            c = (c >> 1u32) ^ 0xEDB8_8320;
        } else {
            c = c >> 1u32;
        }
        k = k + 1;
    }
    c
}

/// Close the running CRC into the value the GZIP trailer reports.
pub fn finalize(crc: u32) -> (c: u32)
    ensures
        c == crc ^ 0xFFFF_FFFFu32,
{
    crc ^ 0xFFFF_FFFF
}

/// Absorbing a byte sequence one round at a time appends rounds at the end:
/// `k + 1` rounds are `k` rounds followed by one more.
proof fn lemma_crc32_rounds_step(c: u32, k: nat)
    ensures
        crc32_rounds(c, k + 1) == crc32_round(crc32_rounds(c, k)),
    decreases k,
{
    if k == 0 {
        assert(crc32_rounds(c, 1) == crc32_rounds(crc32_round(c), 0));
    } else {
        lemma_crc32_rounds_step(crc32_round(c), (k - 1) as nat);
        assert(crc32_rounds(c, k + 1) == crc32_rounds(crc32_round(c), k));
        assert(crc32_rounds(c, k) == crc32_rounds(crc32_round(c), (k - 1) as nat));
    }
}

/// Folding a sequence with one more byte at the end absorbs that byte last.
pub proof fn lemma_crc32_fold_push(c: u32, s: Seq<u8>, byte: u8)
    ensures
        crc32_fold(c, s.push(byte)) == crc32_update(crc32_fold(c, s), byte),
    decreases s.len(),
{
    let t = s.push(byte);
    if s.len() == 0 {
        assert(t[0] == byte);
        assert(t.drop_first() =~= Seq::<u8>::empty());
        assert(crc32_fold(c, t) == crc32_fold(crc32_update(c, byte), t.drop_first()));
        assert(crc32_fold(crc32_update(c, byte), Seq::<u8>::empty()) == crc32_update(c, byte));
        assert(crc32_fold(c, s) == c);
    } else {
        assert(t[0] == s[0]);
        assert(t.drop_first() =~= s.drop_first().push(byte));
        lemma_crc32_fold_push(crc32_update(c, s[0]), s.drop_first(), byte);
        assert(crc32_fold(c, t) == crc32_fold(crc32_update(c, s[0]), t.drop_first()));
        assert(crc32_fold(c, s) == crc32_fold(crc32_update(c, s[0]), s.drop_first()));
    }
}

} // verus!
