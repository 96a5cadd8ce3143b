//! A move packed into one integer: `from` in bits 0..6, `to` in bits 6..12,
//! flags in bits 12 and up. Bitwise equality of two moves is equality of the
//! packed words, which is what hint and killer matching relies on.
use vstd::prelude::*;

verus! {

pub const IS_CAPTURE: u32 = 1;
pub const DOUBLE_PAWN_PUSH: u32 = 2;
pub const EN_PASSANT: u32 = 4;
pub const CASTLES_KING: u32 = 8;
pub const CASTLES_QUEEN: u32 = 16;

/// The promotion kind sits in bits 5..8 of the flags, so it can be combined
/// with `IS_CAPTURE` by `|` and read back as one field.
pub const QUEEN_PROM: u32 = 32;
pub const ROOK_PROM: u32 = 64;
pub const BISHOP_PROM: u32 = 96;
pub const KNIGHT_PROM: u32 = 128;
pub const PROMOTION: u32 = 224;

#[derive(Clone, Copy, PartialEq, Eq, Structural, Debug)]
pub struct Move {
    pub data: u32,
}

/// The two killer-move slots the search keeps per ply.
#[derive(Clone, Copy, PartialEq, Eq, Structural, Debug)]
pub struct Killer(pub Move, pub Move);

/// The packed word for a move, as the constructor builds it.
pub open spec fn mk_move(from: u64, to: u64, flags: u32) -> Move {
    Move { data: (from as u32) | ((to as u32) << 6) | (flags << 12) }
}

pub open spec fn mv_from(m: Move) -> u64 {
    (m.data & 63) as u64
}

pub open spec fn mv_to(m: Move) -> u64 {
    ((m.data >> 6) & 63) as u64
}

pub open spec fn mv_flags(m: Move) -> u32 {
    m.data >> 12
}

proof fn lemma_pack(from: u64, to: u64, flags: u32)
    by (bit_vector)
    requires
        from < 64,
        to < 64,
        flags < 256,
    ensures
        (((from as u32) | ((to as u32) << 6) | (flags << 12)) & 63) as u64 == from,
        ((((from as u32) | ((to as u32) << 6) | (flags << 12)) >> 6) & 63) as u64 == to,
        (((from as u32) | ((to as u32) << 6) | (flags << 12)) >> 12) == flags,
{
}

proof fn lemma_flag_fields(f: u32)
    by (bit_vector)
    ensures
        f < 256 ==> (f & 224) <= 224,
        (f & 63) < 64,
        ((f >> 6) & 63) < 64,
{
}

impl Move {
    pub fn new(from: u32, to: u32, flags: u32) -> (r: Move)
        requires
            from < 64,
            to < 64,
            flags < 256,
        ensures
            r == mk_move(from as u64, to as u64, flags),
            mv_from(r) == from,
            mv_to(r) == to,
            mv_flags(r) == flags,
    {
        proof {
            lemma_pack(from as u64, to as u64, flags);
        }
        Move { data: from | (to << 6) | (flags << 12) }
    }

    pub fn from(&self) -> (r: u32)
        ensures
            r == mv_from(*self),
            r < 64,
    {
        proof {
            lemma_flag_fields(self.data);
        }
        self.data & 63
    }

    pub fn to(&self) -> (r: u32)
        ensures
            r == mv_to(*self),
            r < 64,
    {
        proof {
            lemma_flag_fields(self.data >> 6);
        }
        (self.data >> 6) & 63
    }

    pub fn flags(&self) -> (r: u32)
        ensures
            r == mv_flags(*self),
    {
        self.data >> 12
    }

    /// The promotion field: 0, or one of the four promotion codes.
    pub fn promotion(&self) -> (r: u32)
        ensures
            r == spec_promotion(*self),
    {
        (self.data >> 12) & PROMOTION
    }

    pub fn is_capture(&self) -> (r: bool)
        ensures
            r == spec_is_capture(*self),
    {
        (self.data >> 12) & IS_CAPTURE != 0
    }

    pub fn is_double_push(&self) -> (r: bool)
        ensures
            r == spec_is_double_push(*self),
    {
        (self.data >> 12) & DOUBLE_PAWN_PUSH != 0
    }

    pub fn is_en_passant(&self) -> (r: bool)
        ensures
            r == spec_is_en_passant(*self),
    {
        (self.data >> 12) & EN_PASSANT != 0
    }

    pub fn king_castle(&self) -> (r: bool)
        ensures
            r == spec_king_castle(*self),
    {
        (self.data >> 12) & CASTLES_KING != 0
    }

    pub fn queen_castle(&self) -> (r: bool)
        ensures
            r == spec_queen_castle(*self),
    {
        (self.data >> 12) & CASTLES_QUEEN != 0
    }
}

pub open spec fn spec_promotion(m: Move) -> u32 {
    mv_flags(m) & PROMOTION
}

pub open spec fn spec_is_capture(m: Move) -> bool {
    mv_flags(m) & IS_CAPTURE != 0
}

pub open spec fn spec_is_double_push(m: Move) -> bool {
    mv_flags(m) & DOUBLE_PAWN_PUSH != 0
}

pub open spec fn spec_is_en_passant(m: Move) -> bool {
    mv_flags(m) & EN_PASSANT != 0
}

pub open spec fn spec_king_castle(m: Move) -> bool {
    mv_flags(m) & CASTLES_KING != 0
}

pub open spec fn spec_queen_castle(m: Move) -> bool {
    mv_flags(m) & CASTLES_QUEEN != 0
}

/// A constructed move reads back its fields.
pub proof fn lemma_mk(from: u64, to: u64, flags: u32)
    requires
        from < 64,
        to < 64,
        flags < 256,
    ensures
        mv_from(mk_move(from, to, flags)) == from,
        mv_to(mk_move(from, to, flags)) == to,
        mv_flags(mk_move(from, to, flags)) == flags,
{
    lemma_pack(from, to, flags);
}

/// The packed square fields are six bits wide.
pub proof fn lemma_mv_bounds(m: Move)
    ensures
        mv_from(m) < 64,
        mv_to(m) < 64,
{
    let d = m.data;
    assert((d & 63) < 64 && ((d >> 6) & 63) < 64) by (bit_vector);
}

/// Which flag bits a packed flag word turns on; used to discharge the
/// flag-dependent clauses of a move built with known flags.
pub proof fn lemma_flags_of(f: u32)
    by (bit_vector)
    ensures
        (f & 4 != 0) == (f / 4 % 2 == 1),
        (f & 2 != 0) == (f / 2 % 2 == 1),
        (f & 1 != 0) == (f % 2 == 1),
        (f & 8 != 0) == (f / 8 % 2 == 1),
        (f & 16 != 0) == (f / 16 % 2 == 1),
        (f & 224) == f / 32 % 8 * 32,
{
}

} // verus!
