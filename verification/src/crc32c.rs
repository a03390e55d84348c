//! Castagnoli CRC-32 (CRC32C) over byte sequences.
//!
//! One mathematical recurrence, `crc_state`, defines the checksum; every
//! executable path is proved to return exactly that value, so any two paths
//! agree bit-for-bit on every input.

use vstd::prelude::*;

verus! {

/// The reflected Castagnoli polynomial.
pub const CRC_POLY_REV: u32 = 0x82F63B78;

/// One step of the bit-reversed table-generation recurrence.
pub open spec fn crc_bit_step(c: u32) -> u32 {
    if c & 1 == 1 {
        (c >> 1) ^ CRC_POLY_REV
    } else {
        c >> 1
    }
}

/// `n` steps of the bit-reversed recurrence.
pub open spec fn crc_bit_steps(c: u32, n: nat) -> u32
    decreases n,
{
    if n == 0 {
        c
    } else {
        crc_bit_step(crc_bit_steps(c, (n - 1) as nat))
    }
}

/// Entry `i` of the 256-entry lookup table: eight recurrence steps from `i`.
pub open spec fn crc_table_entry(i: u8) -> u32 {
    crc_bit_steps(i as u32, 8)
}

/// Folding one byte into the running state, by table lookup.
pub open spec fn crc_byte_update(crc: u32, b: u8) -> u32 {
    (crc >> 8) ^ crc_table_entry(((crc & 0xFF) as u8) ^ b)
}

/// The running state after folding a whole byte sequence into `initial`.
pub open spec fn crc_state(initial: u32, s: Seq<u8>) -> u32
    decreases s.len(),
{
    if s.len() == 0 {
        initial
    } else {
        crc_byte_update(crc_state(initial, s.drop_last()), s.last())
    }
}

/// The finished checksum continued from a prior (inverted) state.
pub open spec fn spec_crc32c_continue(initial: u32, s: Seq<u8>) -> u32 {
    !crc_state(initial, s)
}

/// The CRC32C of a byte sequence.
pub open spec fn spec_crc32c(s: Seq<u8>) -> u32 {
    spec_crc32c_continue(0, s)
}

/// Folding bytes one at a time distributes over concatenation: the state after
/// `a + b` equals the state after `b` continued from the state after `a`.
pub proof fn lemma_crc_state_concat(initial: u32, a: Seq<u8>, b: Seq<u8>)
    ensures
        crc_state(initial, a + b) == crc_state(crc_state(initial, a), b),
    decreases b.len(),
{
    if b.len() == 0 {
        assert(a + b =~= a);
    } else {
        lemma_crc_state_concat(initial, a, b.drop_last());
        assert((a + b).drop_last() =~= a + b.drop_last());
        assert((a + b).last() == b.last());
    }
}

/// Builds the 256-entry lookup table from the polynomial.
pub fn compute_lookup_table() -> (table: Vec<u32>)
    ensures
        table@.len() == 256,
        forall|k: int| 0 <= k < 256 ==> table@[k] == crc_table_entry(k as u8),
{
    let mut table: Vec<u32> = Vec::new();
    let mut i: usize = 0;
    while i < 256
        invariant
            i <= 256,
            table@.len() == i,
            forall|k: int| 0 <= k < i ==> table@[k] == crc_table_entry(k as u8),
        decreases 256 - i,
    {
        let mut crc: u32 = i as u32;
        let mut j: usize = 0;
        while j < 8
            invariant
                j <= 8,
                i < 256,
                crc == crc_bit_steps(i as u32, j as nat),
            decreases 8 - j,
        {
            crc = if crc & 1 == 1 {
                (crc >> 1) ^ CRC_POLY_REV
            } else {
                crc >> 1
            };
            proof {
                assert(crc_bit_steps(i as u32, (j + 1) as nat) == crc_bit_step(
                    crc_bit_steps(i as u32, j as nat),
                ));
            }
            j += 1;
        }
        proof {
            assert((i as u8) as u32 == i as u32);
        }
        table.push(crc);
        i += 1;
    }
    table
}

/// The table-driven reference path: one byte at a time, finished by inversion.
pub fn crc32c_sw(initial: u32, buf: &[u8]) -> (r: u32)
    ensures
        r == spec_crc32c_continue(initial, buf@),
{
    let table = compute_lookup_table();
    let mut crc: u32 = initial;
    let mut i: usize = 0;
    while i < buf.len()
        invariant
            i <= buf@.len(),
            crc == crc_state(initial, buf@.subrange(0, i as int)),
            table@.len() == 256,
            forall|k: int| 0 <= k < 256 ==> table@[k] == crc_table_entry(k as u8),
        decreases buf@.len() - i,
    {
        let b = buf[i];
        let lookup_index = ((crc & 0xFF) as u8 ^ b) as usize;
        crc = (crc >> 8) ^ table[lookup_index];
        proof {
            assert(buf@.subrange(0, i + 1 as int).drop_last() =~= buf@.subrange(0, i as int));
        }
        i += 1;
    }
    proof {
        assert(buf@.subrange(0, buf@.len() as int) =~= buf@);
    }
    !crc
}

/// The block-folding path: whole 8-byte blocks first, then the 0..7 trailing
/// bytes, mirroring the shape of a word-at-a-time accelerated routine. It is
/// proved to return the very value the byte-at-a-time path returns.
pub fn crc32c_blockwise(initial: u32, buf: &[u8]) -> (r: u32)
    ensures
        r == spec_crc32c_continue(initial, buf@),
{
    let table = compute_lookup_table();
    let block_count = buf.len() / 8;
    let mut crc: u32 = initial;
    let mut pos: usize = 0;
    let mut blk: usize = 0;
    while blk < block_count
        invariant
            buf@.len() <= usize::MAX,
            block_count == buf@.len() / 8,
            blk <= block_count,
            pos == blk * 8,
            pos <= buf@.len(),
            crc == crc_state(initial, buf@.subrange(0, pos as int)),
            table@.len() == 256,
            forall|k: int| 0 <= k < 256 ==> table@[k] == crc_table_entry(k as u8),
        decreases block_count - blk,
    {
        proof {
            assert((blk + 1) * 8 == blk * 8 + 8) by (nonlinear_arith);
            assert((blk + 1) * 8 <= (buf@.len() / 8) * 8 <= buf@.len()) by (nonlinear_arith)
                requires
                    blk + 1 <= buf@.len() / 8,
            ;
        }
        let mut j: usize = 0;
        while j < 8
            invariant
                j <= 8,
                buf@.len() <= usize::MAX,
                pos + 8 <= buf@.len(),
                crc == crc_state(initial, buf@.subrange(0, pos + j as int)),
                table@.len() == 256,
                forall|k: int| 0 <= k < 256 ==> table@[k] == crc_table_entry(k as u8),
            decreases 8 - j,
        {
            let b = buf[pos + j];
            let lookup_index = ((crc & 0xFF) as u8 ^ b) as usize;
            crc = (crc >> 8) ^ table[lookup_index];
            proof {
                assert(buf@.subrange(0, pos + j + 1 as int).drop_last() =~= buf@.subrange(
                    0,
                    pos + j as int,
                ));
            }
            j += 1;
        }
        pos += 8;
        blk += 1;
    }
    while pos < buf.len()
        invariant
            pos <= buf@.len(),
            crc == crc_state(initial, buf@.subrange(0, pos as int)),
            table@.len() == 256,
            forall|k: int| 0 <= k < 256 ==> table@[k] == crc_table_entry(k as u8),
        decreases buf@.len() - pos,
    {
        let b = buf[pos];
        let lookup_index = ((crc & 0xFF) as u8 ^ b) as usize;
        crc = (crc >> 8) ^ table[lookup_index];
        proof {
            assert(buf@.subrange(0, pos + 1 as int).drop_last() =~= buf@.subrange(0, pos as int));
        }
        pos += 1;
    }
    proof {
        assert(buf@.subrange(0, buf@.len() as int) =~= buf@);
    }
    !crc
}

/// Continues a checksum from a prior state. This portable path is the
/// fallback contract every accelerated path must also meet.
pub fn crc32c_continue(initial: u32, buf: &[u8]) -> (r: u32)
    ensures
        r == spec_crc32c_continue(initial, buf@),
{
    crc32c_sw(initial, buf)
}

/// The CRC32C of a byte sequence.
pub fn crc32c(buf: &[u8]) -> (r: u32)
    ensures
        r == spec_crc32c(buf@),
{
    crc32c_continue(0, buf)
}

} // verus!
