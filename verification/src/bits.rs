//! Bitboard primitives: a 64-bit word whose bit `i` stands for square `i`
//! (file `i % 8`, rank `i / 8`, little-endian rank-file mapping), and the
//! lemmas that relate the bitwise operators to single squares.
use vstd::prelude::*;
use vstd::std_specs::bits::u64_trailing_zeros;

verus! {

/// Square `i` is occupied in the word `b`.
pub open spec fn bit64(b: u64, i: u64) -> bool {
    b & (1u64 << i) != 0
}

pub proof fn lemma_bit_and(x: u64, y: u64, j: u64)
    by (bit_vector)
    requires
        j < 64,
    ensures
        bit64(x & y, j) == (bit64(x, j) && bit64(y, j)),
{
}

pub proof fn lemma_bit_or(x: u64, y: u64, j: u64)
    by (bit_vector)
    requires
        j < 64,
    ensures
        bit64(x | y, j) == (bit64(x, j) || bit64(y, j)),
{
}

pub proof fn lemma_bit_xor(x: u64, y: u64, j: u64)
    by (bit_vector)
    requires
        j < 64,
    ensures
        bit64(x ^ y, j) == (bit64(x, j) != bit64(y, j)),
{
}

pub proof fn lemma_bit_not(x: u64, j: u64)
    by (bit_vector)
    requires
        j < 64,
    ensures
        bit64(!x, j) == !bit64(x, j),
{
}

pub proof fn lemma_bit_single(i: u64, j: u64)
    by (bit_vector)
    requires
        i < 64,
        j < 64,
    ensures
        bit64(1u64 << i, j) == (i == j),
{
}

pub proof fn lemma_bit_shl(x: u64, k: u64, j: u64)
    by (bit_vector)
    requires
        k < 64,
        j < 64,
    ensures
        bit64(x << k, j) == (j >= k && bit64(x, (j - k) as u64)),
{
}

pub proof fn lemma_bit_shr(x: u64, k: u64, j: u64)
    by (bit_vector)
    requires
        k < 64,
        j < 64,
    ensures
        bit64(x >> k, j) == (j + k < 64 && bit64(x, (j + k) as u64)),
{
}

pub proof fn lemma_bit_zero(j: u64)
    by (bit_vector)
    requires
        j < 64,
    ensures
        !bit64(0u64, j),
{
}

/// Clearing a set bit makes the word strictly smaller; this drives the
/// termination of every loop that peels bits off a board.
pub proof fn lemma_clear_bit_decreases(b: u64, i: u64)
    by (bit_vector)
    requires
        i < 64,
        bit64(b, i),
    ensures
        b ^ (1u64 << i) < b,
{
}

/// The low bit as tested by a right shift agrees with `bit64`.
pub proof fn lemma_shr_low_bit(b: u64, j: u64)
    by (bit_vector)
    requires
        j < 64,
    ensures
        ((b >> j) & 1u64 == 1u64) == bit64(b, j),
{
}

/// The mask `0xFF << 8 * r` holds exactly the squares of rank `r`.
pub proof fn lemma_rank_mask(r: u64, j: u64)
    by (bit_vector)
    requires
        r < 8,
        j < 64,
    ensures
        bit64(0xFFu64 << (8 * r), j) == (j / 8 == r),
{
}

/// The mask `0x0101.. << f` holds exactly the squares of file `f`.
pub proof fn lemma_file_mask(f: u64, j: u64)
    by (bit_vector)
    requires
        f < 8,
        j < 64,
    ensures
        bit64(0x0101010101010101u64 << f, j) == (j % 8 == f),
{
}

/// Index of the lowest set bit.
pub fn lsb(b: u64) -> (r: u32)
    requires
        b != 0,
    ensures
        r == u64_trailing_zeros(b),
        r < 64,
        bit64(b, r as u64),
{
    proof {
        vstd::std_specs::bits::axiom_u64_trailing_zeros(b);
        lemma_shr_low_bit(b, u64_trailing_zeros(b) as u64);
    }
    b.trailing_zeros()
}

} // verus!
