//! Attack sets. A slider's attacks extend along each ray until the first
//! occupied square, which is included (the caller masks friend from foe);
//! knight and king attacks are fixed patterns clipped at the board edge.
use vstd::prelude::*;
use crate::bits::bit64;

verus! {

/// The single-square board of `(f, r)`, or 0 when that square is off the
/// board.
pub open spec fn sq_bit(f: int, r: int) -> u64 {
    if 0 <= f < 8 && 0 <= r < 8 {
        1u64 << ((r * 8 + f) as u64)
    } else {
        0
    }
}

/// The squares a slider on `(f, r)` attacks along direction `(df, dr)`:
/// each square stepped onto in turn, stopping on (and including) the first
/// occupied one or the board edge. `fuel` bounds the walk; 7 steps reach
/// across the whole board.
pub open spec fn ray_att(f: int, r: int, df: int, dr: int, occ: u64, fuel: nat) -> u64
    decreases fuel,
{
    if fuel == 0 || !(0 <= f + df < 8) || !(0 <= r + dr < 8) {
        0
    } else {
        let s = ((r + dr) * 8 + (f + df)) as u64;
        (1u64 << s) | (if bit64(occ, s) {
            0
        } else {
            ray_att(f + df, r + dr, df, dr, occ, (fuel - 1) as nat)
        })
    }
}

pub open spec fn rook_att(sq: int, occ: u64) -> u64 {
    let f = sq % 8;
    let r = sq / 8;
    ray_att(f, r, 1, 0, occ, 8) | ray_att(f, r, -1, 0, occ, 8) | ray_att(f, r, 0, 1, occ, 8)
        | ray_att(f, r, 0, -1, occ, 8)
}

pub open spec fn bishop_att(sq: int, occ: u64) -> u64 {
    let f = sq % 8;
    let r = sq / 8;
    ray_att(f, r, 1, 1, occ, 8) | ray_att(f, r, 1, -1, occ, 8) | ray_att(f, r, -1, 1, occ, 8)
        | ray_att(f, r, -1, -1, occ, 8)
}

pub open spec fn queen_att(sq: int, occ: u64) -> u64 {
    rook_att(sq, occ) | bishop_att(sq, occ)
}

pub open spec fn knight_att(sq: int) -> u64 {
    let f = sq % 8;
    let r = sq / 8;
    sq_bit(f + 1, r + 2) | sq_bit(f + 2, r + 1) | sq_bit(f + 2, r - 1) | sq_bit(f + 1, r - 2)
        | sq_bit(f - 1, r - 2) | sq_bit(f - 2, r - 1) | sq_bit(f - 2, r + 1) | sq_bit(f - 1, r + 2)
}

pub open spec fn king_att(sq: int) -> u64 {
    let f = sq % 8;
    let r = sq / 8;
    sq_bit(f + 1, r) | sq_bit(f + 1, r + 1) | sq_bit(f, r + 1) | sq_bit(f - 1, r + 1) | sq_bit(
        f - 1,
        r,
    ) | sq_bit(f - 1, r - 1) | sq_bit(f, r - 1) | sq_bit(f + 1, r - 1)
}

/// One step of a ray walk; mirrors `ray_att` exactly.
fn ray_walk(f: i32, r: i32, df: i32, dr: i32, occ: u64, fuel: u32) -> (a: u64)
    requires
        0 <= f < 8,
        0 <= r < 8,
        -2 <= df <= 2,
        -2 <= dr <= 2,
        fuel <= 8,
    ensures
        a == ray_att(f as int, r as int, df as int, dr as int, occ, fuel as nat),
    decreases fuel,
{
    let nf = f + df;
    let nr = r + dr;
    if fuel == 0 || nf < 0 || nf > 7 || nr < 0 || nr > 7 {
        0
    } else {
        let s = (nr * 8 + nf) as u64;
        let here = 1u64 << s;
        if occ & here != 0 {
            proof {
                assert(here | 0u64 == here) by (bit_vector);
            }
            here
        } else {
            here | ray_walk(nf, nr, df, dr, occ, fuel - 1)
        }
    }
}

/// The single-square board of `(f, r)`, 0 off the board.
fn one_bit(f: i32, r: i32) -> (a: u64)
    requires
        -3 <= f <= 10,
        -3 <= r <= 10,
    ensures
        a == sq_bit(f as int, r as int),
{
    if 0 <= f && f < 8 && 0 <= r && r < 8 {
        1u64 << ((r * 8 + f) as u64)
    } else {
        0
    }
}

pub fn rook_moves(sq: u32, occ: u64) -> (a: u64)
    requires
        sq < 64,
    ensures
        a == rook_att(sq as int, occ),
{
    let f = (sq % 8) as i32;
    let r = (sq / 8) as i32;
    ray_walk(f, r, 1, 0, occ, 8) | ray_walk(f, r, -1, 0, occ, 8) | ray_walk(f, r, 0, 1, occ, 8)
        | ray_walk(f, r, 0, -1, occ, 8)
}

pub fn bishop_moves(sq: u32, occ: u64) -> (a: u64)
    requires
        sq < 64,
    ensures
        a == bishop_att(sq as int, occ),
{
    let f = (sq % 8) as i32;
    let r = (sq / 8) as i32;
    ray_walk(f, r, 1, 1, occ, 8) | ray_walk(f, r, 1, -1, occ, 8) | ray_walk(f, r, -1, 1, occ, 8)
        | ray_walk(f, r, -1, -1, occ, 8)
}

pub fn queen_moves(sq: u32, occ: u64) -> (a: u64)
    requires
        sq < 64,
    ensures
        a == queen_att(sq as int, occ),
{
    rook_moves(sq, occ) | bishop_moves(sq, occ)
}

pub fn knight_moves(sq: u32) -> (a: u64)
    requires
        sq < 64,
    ensures
        a == knight_att(sq as int),
{
    let f = (sq % 8) as i32;
    let r = (sq / 8) as i32;
    one_bit(f + 1, r + 2) | one_bit(f + 2, r + 1) | one_bit(f + 2, r - 1) | one_bit(f + 1, r - 2)
        | one_bit(f - 1, r - 2) | one_bit(f - 2, r - 1) | one_bit(f - 2, r + 1) | one_bit(
        f - 1,
        r + 2,
    )
}

pub fn king_moves(sq: u32) -> (a: u64)
    requires
        sq < 64,
    ensures
        a == king_att(sq as int),
{
    let f = (sq % 8) as i32;
    let r = (sq / 8) as i32;
    one_bit(f + 1, r) | one_bit(f + 1, r + 1) | one_bit(f, r + 1) | one_bit(f - 1, r + 1) | one_bit(
        f - 1,
        r,
    ) | one_bit(f - 1, r - 1) | one_bit(f, r - 1) | one_bit(f + 1, r - 1)
}

} // verus!
