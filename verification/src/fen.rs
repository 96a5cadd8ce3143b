//! FEN text: parsing the four fields the engine uses (placement, side,
//! castling, en-passant target; the two clock fields are accepted and
//! ignored) and emitting a position back to text.
use vstd::prelude::*;
use crate::types::{EMPTY, WHITE, BLACK, PAWN, KNIGHT, BISHOP, ROOK, QUEEN, KING, WK_CASTLE,
    WQ_CASTLE, BK_CASTLE, BQ_CASTLE, is_square_code, piece, lemma_all_pieces};

verus! {

/// A malformed piece-placement field, or an en-passant or move token
/// that does not name a square.
#[derive(Clone, Copy, Debug, PartialEq, Eq, Structural)]
pub enum ParseError {
    Placement,
    EnPassant,
    MoveSyntax,
}

/// The piece code a FEN letter names; EMPTY for any other byte.
pub open spec fn spec_piece_of(c: u8) -> u8 {
    if c == 80 {  // P
        piece(PAWN, WHITE)
    } else if c == 78 {  // N
        piece(KNIGHT, WHITE)
    } else if c == 66 {  // B
        piece(BISHOP, WHITE)
    } else if c == 82 {  // R
        piece(ROOK, WHITE)
    } else if c == 81 {  // Q
        piece(QUEEN, WHITE)
    } else if c == 75 {  // K
        piece(KING, WHITE)
    } else if c == 112 {  // p
        piece(PAWN, BLACK)
    } else if c == 110 {  // n
        piece(KNIGHT, BLACK)
    } else if c == 98 {  // b
        piece(BISHOP, BLACK)
    } else if c == 114 {  // r
        piece(ROOK, BLACK)
    } else if c == 113 {  // q
        piece(QUEEN, BLACK)
    } else if c == 107 {  // k
        piece(KING, BLACK)
    } else {
        EMPTY
    }
}

pub fn piece_of(c: u8) -> (r: u8)
    ensures
        r == spec_piece_of(c),
        is_square_code(r),
{
    proof {
        lemma_all_pieces();
    }
    if c == 80u8 {
        PAWN | WHITE
    } else if c == 78u8 {
        KNIGHT | WHITE
    } else if c == 66u8 {
        BISHOP | WHITE
    } else if c == 82u8 {
        ROOK | WHITE
    } else if c == 81u8 {
        QUEEN | WHITE
    } else if c == 75u8 {
        KING | WHITE
    } else if c == 112u8 {
        PAWN | BLACK
    } else if c == 110u8 {
        KNIGHT | BLACK
    } else if c == 98u8 {
        BISHOP | BLACK
    } else if c == 114u8 {
        ROOK | BLACK
    } else if c == 113u8 {
        QUEEN | BLACK
    } else if c == 107u8 {
        KING | BLACK
    } else {
        EMPTY
    }
}

/// The FEN letter of a non-empty piece code.
pub open spec fn spec_char_of(pc: u8) -> u8 {
    if pc == piece(PAWN, WHITE) {
        80
    } else if pc == piece(KNIGHT, WHITE) {
        78
    } else if pc == piece(BISHOP, WHITE) {
        66
    } else if pc == piece(ROOK, WHITE) {
        82
    } else if pc == piece(QUEEN, WHITE) {
        81
    } else if pc == piece(KING, WHITE) {
        75
    } else if pc == piece(PAWN, BLACK) {
        112
    } else if pc == piece(KNIGHT, BLACK) {
        110
    } else if pc == piece(BISHOP, BLACK) {
        98
    } else if pc == piece(ROOK, BLACK) {
        114
    } else if pc == piece(QUEEN, BLACK) {
        113
    } else if pc == piece(KING, BLACK) {
        107
    } else {
        63  // ?
    }
}

pub fn char_of(pc: u8) -> (r: u8)
    ensures
        r == spec_char_of(pc),
{
    proof {
        lemma_all_pieces();
    }
    if pc == PAWN | WHITE {
        80u8
    } else if pc == KNIGHT | WHITE {
        78u8
    } else if pc == BISHOP | WHITE {
        66u8
    } else if pc == ROOK | WHITE {
        82u8
    } else if pc == QUEEN | WHITE {
        81u8
    } else if pc == KING | WHITE {
        75u8
    } else if pc == PAWN | BLACK {
        112u8
    } else if pc == KNIGHT | BLACK {
        110u8
    } else if pc == BISHOP | BLACK {
        98u8
    } else if pc == ROOK | BLACK {
        114u8
    } else if pc == QUEEN | BLACK {
        113u8
    } else if pc == KING | BLACK {
        107u8
    } else {
        63u8
    }
}

/// The placement field, read from the top rank down: letters place a
/// piece, digits skip files, `/` ends a rank; every rank must span
/// exactly eight files. Returns the square array (rank 1 first) and the
/// index just past the field.
pub open spec fn sp_place(s: Seq<u8>, i: int, rank: int, file: int, sqs: Seq<u8>) -> Option<
    (Seq<u8>, int),
>
    decreases s.len() - i,
{
    if file == 8 && rank == 0 {
        Some((sqs, i))
    } else if i < 0 || i >= s.len() {
        None
    } else {
        let c = s[i];
        if file == 8 {
            if c == 47 {  // /
                sp_place(s, i + 1, rank - 1, 0, sqs)
            } else {
                None
            }
        } else if 49 <= c <= 56 {  // 1..8
            if file + (c - 48) <= 8 {
                sp_place(s, i + 1, rank, file + (c - 48), sqs)
            } else {
                None
            }
        } else if spec_piece_of(c) != EMPTY {
            sp_place(s, i + 1, rank, file + 1, sqs.update(rank * 8 + file, spec_piece_of(c)))
        } else {
            None
        }
    }
}

/// The index of the first non-space byte at or after `i`.
pub open spec fn sp_skip(s: Seq<u8>, i: int) -> int
    decreases s.len() - i,
{
    if 0 <= i < s.len() && s[i] == 32 {
        sp_skip(s, i + 1)
    } else {
        i
    }
}

/// The castling field: each of `KQkq` sets its right, anything else
/// (including `-`) sets none; the field ends at a space or the end.
pub open spec fn sp_castle(s: Seq<u8>, i: int, acc: u8) -> (u8, int)
    decreases s.len() - i,
{
    if 0 <= i < s.len() && s[i] != 32 {
        let c = s[i];
        let acc2 = if c == 75 {
            acc | WK_CASTLE
        } else if c == 81 {
            acc | WQ_CASTLE
        } else if c == 107 {
            acc | BK_CASTLE
        } else if c == 113 {
            acc | BQ_CASTLE
        } else {
            acc
        };
        sp_castle(s, i + 1, acc2)
    } else {
        (acc, i)
    }
}

/// The four fields a position is built from: squares, side to move,
/// castling rights and en-passant target word. `None` when the placement
/// is malformed, a field is missing, or the en-passant token is illegal:
/// not `-` or a square on rank 3 or 6, on the wrong side's half, or with
/// no freshly double-pushed pawn standing behind the target.
pub open spec fn spec_fen_fields(s: Seq<u8>) -> Option<(Seq<u8>, u8, u8, u64)> {
    let sqs0 = Seq::new(64, |j: int| EMPTY);
    match sp_place(s, 0, 7, 0, sqs0) {
        None => None,
        Some((sqs, i1)) => {
            let i2 = sp_skip(s, i1);
            if i2 >= s.len() {
                None
            } else {
                let side: u8 = if s[i2] == 119 {
                    WHITE
                } else {
                    BLACK
                };
                let i3 = sp_skip(s, i2 + 1);
                let (castling, i4) = sp_castle(s, i3, 0);
                let i5 = sp_skip(s, i4);
                if i5 >= s.len() {
                    None
                } else if s[i5] == 45 {  // -
                    Some((sqs, side, castling, 0))
                } else if 97 <= s[i5] <= 104 && i5 + 1 < s.len() && (s[i5 + 1] == 51 || s[i5 + 1]
                    == 54) {
                    let f = s[i5] - 97;
                    if s[i5 + 1] == 51 {
                        if side == BLACK && sqs[24 + f] == piece(PAWN, WHITE) {
                            Some((sqs, side, castling, 1u64 << ((16 + f) as u64)))
                        } else {
                            None
                        }
                    } else {
                        if side == WHITE && sqs[32 + f] == piece(PAWN, BLACK) {
                            Some((sqs, side, castling, 1u64 << ((40 + f) as u64)))
                        } else {
                            None
                        }
                    }
                } else {
                    None
                }
            }
        },
    }
}

/// Exec mirror of `sp_place`.
#[allow(unused_parens)]
pub fn parse_place(s: &[u8], i: usize, rank: u32, file: u32, sqs: Vec<u8>) -> (r: Result<
    (Vec<u8>, usize),
    ParseError,
>)
    requires
        sqs@.len() == 64,
        rank < 8,
        file <= 8,
        i <= s@.len(),
        forall|j: int| 0 <= j < 64 ==> is_square_code(#[trigger] sqs@[j]),
    ensures
        (r is Ok) <==> sp_place(s@, i as int, rank as int, file as int, sqs@) is Some,
        r matches Ok(p) ==> {
            &&& Some((p.0@, p.1 as int)) == sp_place(s@, i as int, rank as int, file as int, sqs@)
            &&& p.0@.len() == 64
            &&& p.1 <= s@.len()
            &&& forall|j: int| 0 <= j < 64 ==> is_square_code(#[trigger] p.0@[j])
        },
    decreases s@.len() - i,
{
    if file == 8 && rank == 0 {
        return Ok((sqs, i));
    }
    if i >= s.len() {
        return Err(ParseError::Placement);
    }
    let c = s[i];
    if file == 8 {
        if c == 47u8 {
            parse_place(s, i + 1, rank - 1, 0, sqs)
        } else {
            Err(ParseError::Placement)
        }
    } else if 49u8 <= c && c <= 56u8 {
        let d = (c - 48u8) as u32;
        if file + d <= 8 {
            parse_place(s, i + 1, rank, file + d, sqs)
        } else {
            Err(ParseError::Placement)
        }
    } else {
        let pc = piece_of(c);
        if pc != EMPTY {
            let mut sqs2 = sqs;
            let idx = (rank * 8 + file) as usize;
            sqs2[idx] = pc;
            parse_place(s, i + 1, rank, file + 1, sqs2)
        } else {
            Err(ParseError::Placement)
        }
    }
}

/// Exec mirror of `sp_skip`.
pub fn skip_sp(s: &[u8], i: usize) -> (r: usize)
    requires
        i <= s@.len(),
    ensures
        r == sp_skip(s@, i as int),
        i <= r <= s@.len(),
    decreases s@.len() - i,
{
    if i < s.len() && s[i] == 32u8 {
        skip_sp(s, i + 1)
    } else {
        i
    }
}

/// Exec mirror of `sp_castle`.
pub fn parse_castle(s: &[u8], i: usize, acc: u8) -> (r: (u8, usize))
    requires
        i <= s@.len(),
        acc < 16,
    ensures
        (r.0, r.1 as int) == sp_castle(s@, i as int, acc),
        r.0 < 16,
        i <= r.1 <= s@.len(),
    decreases s@.len() - i,
{
    if i < s.len() && s[i] != 32u8 {
        let c = s[i];
        let acc2 = if c == 75u8 {
            acc | WK_CASTLE
        } else if c == 81u8 {
            acc | WQ_CASTLE
        } else if c == 107u8 {
            acc | BK_CASTLE
        } else if c == 113u8 {
            acc | BQ_CASTLE
        } else {
            acc
        };
        proof {
            assert(acc < 16 ==> (acc | 1u8) < 16 && (acc | 2u8) < 16 && (acc | 4u8) < 16 && (acc
                | 8u8) < 16) by (bit_vector);
        }
        parse_castle(s, i + 1, acc2)
    } else {
        (acc, i)
    }
}

/// One rank of the placement field, emitted with run-length digits for
/// empty squares, appended to `acc`.
pub open spec fn sp_emit_row(sqs: Seq<u8>, rank: int, file: int, run: int, acc: Seq<u8>) -> Seq<u8>
    decreases 8 - file,
{
    if file >= 8 {
        if run > 0 {
            acc.push((48 + run) as u8)
        } else {
            acc
        }
    } else if sqs[rank * 8 + file] == EMPTY {
        sp_emit_row(sqs, rank, file + 1, run + 1, acc)
    } else {
        let acc2 = if run > 0 {
            acc.push((48 + run) as u8)
        } else {
            acc
        };
        sp_emit_row(sqs, rank, file + 1, 0, acc2.push(spec_char_of(sqs[rank * 8 + file])))
    }
}

/// The whole placement field, top rank first.
pub open spec fn sp_emit_place(sqs: Seq<u8>, rank: int, acc: Seq<u8>) -> Seq<u8>
    decreases rank,
{
    let acc2 = sp_emit_row(sqs, rank, 0, 0, acc);
    if rank <= 0 {
        acc2
    } else {
        sp_emit_place(sqs, rank - 1, acc2.push(47))
    }
}

/// Exec mirror of `sp_emit_row`.
pub fn emit_row(sqs: &Vec<u8>, rank: u32, file: u32, run: u32, acc: Vec<u8>) -> (r: Vec<u8>)
    requires
        sqs@.len() == 64,
        rank < 8,
        file <= 8,
        run <= file,
    ensures
        r@ == sp_emit_row(sqs@, rank as int, file as int, run as int, acc@),
    decreases 8 - file,
{
    if file >= 8 {
        if run > 0 {
            let mut acc2 = acc;
            acc2.push((48 + run) as u8);
            acc2
        } else {
            acc
        }
    } else if sqs[(rank * 8 + file) as usize] == EMPTY {
        emit_row(sqs, rank, file + 1, run + 1, acc)
    } else {
        let mut acc2 = acc;
        if run > 0 {
            acc2.push((48 + run) as u8);
        }
        acc2.push(char_of(sqs[(rank * 8 + file) as usize]));
        emit_row(sqs, rank, file + 1, 0, acc2)
    }
}

/// Exec mirror of `sp_emit_place`.
pub fn emit_place(sqs: &Vec<u8>, rank: u32, acc: Vec<u8>) -> (r: Vec<u8>)
    requires
        sqs@.len() == 64,
        rank < 8,
    ensures
        r@ == sp_emit_place(sqs@, rank as int, acc@),
    decreases rank,
{
    let acc2 = emit_row(sqs, rank, 0, 0, acc);
    if rank == 0 {
        acc2
    } else {
        let mut acc3 = acc2;
        acc3.push(47u8);
        emit_place(sqs, rank - 1, acc3)
    }
}

} // verus!
