//! Piece codes, colors, castling-rights bits, and square utilities.
//!
//! A piece code packs `kind | color`: the kind occupies the high bits
//! (masked by `PIECE`), the color is the low bit (masked by `COLOR`).
//! `EMPTY` is the distinct sentinel 0, and `ALL | color` names the
//! aggregate-occupancy slot of a bitboard.
use vstd::prelude::*;

verus! {

pub const WHITE: u8 = 0;
pub const BLACK: u8 = 1;

pub const EMPTY: u8 = 0;
pub const PAWN: u8 = 2;
pub const KNIGHT: u8 = 4;
pub const BISHOP: u8 = 6;
pub const ROOK: u8 = 8;
pub const QUEEN: u8 = 10;
pub const KING: u8 = 12;
pub const ALL: u8 = 14;

/// Mask extracting the kind from a piece code.
pub const PIECE: u8 = 0b1110;
/// Mask extracting the color from a piece code.
pub const COLOR: u8 = 0b0001;

/// White rights sit in the low two bits, black rights two bits above,
/// so that `WK_CASTLE << (2 * color)` selects the king-side right of `color`.
pub const WK_CASTLE: u8 = 1;
pub const WQ_CASTLE: u8 = 2;
pub const BK_CASTLE: u8 = 4;
pub const BQ_CASTLE: u8 = 8;

/// A color is the integer 0 (white) or 1 (black).
pub open spec fn is_color(c: u8) -> bool {
    c == WHITE || c == BLACK
}

/// A non-empty piece code: one of the six kinds, tagged with a color.
pub open spec fn is_piece(pc: u8) -> bool {
    PAWN <= pc <= KING + 1
}

/// A square's content: empty, or a piece.
pub open spec fn is_square_code(pc: u8) -> bool {
    pc == EMPTY || is_piece(pc)
}

pub fn flip(c: u8) -> (r: u8)
    requires
        is_color(c),
    ensures
        r == flip_color(c),
{
    if c == WHITE {
        BLACK
    } else {
        WHITE
    }
}

pub open spec fn flip_color(c: u8) -> u8 {
    if c == WHITE {
        BLACK
    } else {
        WHITE
    }
}

/// Kind of a piece code, i.e. the code with its color bit cleared.
pub open spec fn kind_of(pc: u8) -> u8 {
    pc & PIECE
}

/// Color bit of a piece code.
pub open spec fn color_of(pc: u8) -> u8 {
    pc & COLOR
}

/// A piece code built from a kind and a color; the kinds are even, so
/// `kind | color` is `kind + color`.
pub open spec fn piece(kind: u8, color: u8) -> u8 {
    (kind + color) as u8
}

pub proof fn lemma_piece_fields(k: u8, c: u8)
    by (bit_vector)
    requires
        k == 2 || k == 4 || k == 6 || k == 8 || k == 10 || k == 12 || k == 14,
        c == 0 || c == 1,
    ensures
        (k | c) & 0b1110u8 == k,
        (k | c) & 0b0001u8 == c,
        k <= (k | c) <= k + 1,
        (k | c) == k + c,
{
}

/// Piece codes of every kind and color, as `kind | color` equalities.
pub proof fn lemma_all_pieces()
    ensures
        forall|k: u8, c: u8|
            (k == 2 || k == 4 || k == 6 || k == 8 || k == 10 || k == 12 || k == 14) && (c == 0 || c
                == 1) ==> #[trigger] (k | c) == piece(k, c) && piece(k, c) % 2 == c && is_piece(
                (k + c) as u8,
            ) == (k != 14),
{
    assert forall|k: u8, c: u8|
        (k == 2 || k == 4 || k == 6 || k == 8 || k == 10 || k == 12 || k == 14) && (c == 0 || c
            == 1) implies #[trigger] (k | c) == piece(k, c) && piece(k, c) % 2 == c && is_piece(
        (k + c) as u8,
    ) == (k != 14) by {
        lemma_piece_fields(k, c);
    }
}

/// Material value of the piece standing in a square code; an empty
/// square counts 0. The king's value is a sentinel larger than any
/// combination of the others, so no exchange ever trades it off.
pub open spec fn piece_value(pc: u8) -> i32 {
    if kind_of(pc) == PAWN {
        100
    } else if kind_of(pc) == KNIGHT {
        320
    } else if kind_of(pc) == BISHOP {
        330
    } else if kind_of(pc) == ROOK {
        500
    } else if kind_of(pc) == QUEEN {
        900
    } else if kind_of(pc) == KING {
        350000
    } else {
        0
    }
}

pub fn p_val(pc: u8) -> (r: i32)
    ensures
        r == piece_value(pc),
        0 <= r <= 350000,
{
    let kind = pc & PIECE;
    if kind == PAWN {
        100
    } else if kind == KNIGHT {
        320
    } else if kind == BISHOP {
        330
    } else if kind == ROOK {
        500
    } else if kind == QUEEN {
        900
    } else if kind == KING {
        350000
    } else {
        0
    }
}

} // verus!
