//! The position: bitboards, the redundant square array, side to move,
//! castling rights, en-passant target and the incrementally maintained
//! Zobrist hash, together with move application, attacker enumeration,
//! move generation, static exchange evaluation and move ordering.
use vstd::prelude::*;
use vstd::string::StringSliceAdditionalSpecFns;
use vstd::std_specs::bits::u64_trailing_zeros;
use crate::bits::{
    bit64, lsb, lemma_bit_and, lemma_bit_or, lemma_bit_xor, lemma_bit_not, lemma_bit_single,
    lemma_bit_shl, lemma_bit_shr, lemma_bit_zero, lemma_clear_bit_decreases, lemma_rank_mask,
    lemma_file_mask,
};
use crate::moves::{
    Move, Killer, mk_move, mv_from, mv_to, mv_flags, spec_promotion, spec_is_capture,
    spec_is_double_push, spec_is_en_passant, spec_king_castle, spec_queen_castle, lemma_flags_of,
    lemma_mv_bounds, lemma_mk,
    IS_CAPTURE, DOUBLE_PAWN_PUSH, EN_PASSANT, CASTLES_KING, CASTLES_QUEEN, QUEEN_PROM, ROOK_PROM,
    BISHOP_PROM, KNIGHT_PROM, PROMOTION,
};
use crate::types::{
    WHITE, BLACK, EMPTY, PAWN, KNIGHT, BISHOP, ROOK, QUEEN, KING, ALL, PIECE, COLOR, WK_CASTLE,
    WQ_CASTLE, BK_CASTLE, BQ_CASTLE, is_color, is_piece, is_square_code, flip, flip_color, kind_of,
    color_of, piece, piece_value, p_val, lemma_piece_fields, lemma_all_pieces,
};
use crate::zobrist::{
    zobrist_word, piece_word, sq_hash, castle_hash, ep_hash, side_hash, hash_of,
    lemma_sq_hash_update, lemma_sq_hash_agree, Zobrist, zobrist_ok,
};
use crate::fen::{
    ParseError, spec_fen_fields, spec_piece_of, parse_place, skip_sp, parse_castle, emit_place,
    sp_emit_place, char_of,
};
use crate::attacks::{
    rook_att, bishop_att, queen_att, knight_att, king_att, rook_moves, bishop_moves, queen_moves,
    knight_moves, king_moves,
};

verus! {

pub const START_FEN: &'static str = "rnbqkbnr/pppppppp/8/8/8/8/PPPPPPPP/RNBQKBNR w KQkq - 0 1";

pub struct Board {
    /// One occupancy word per piece code; slots `ALL | color` hold the
    /// aggregate occupancy of that color.
    pub bb: Vec<u64>,
    /// Square-to-piece map, kept in sync with the bitboards.
    pub sqs: Vec<u8>,
    /// Half-moves since the game started.
    pub ply: usize,
    pub to_move: u8,
    pub hash: u64,
    /// The four castling rights: white king-side, white queen-side,
    /// black king-side, black queen-side, in the low four bits.
    pub castling: u8,
    /// The en-passant target: one bit, or zero when there is none.
    pub en_passant: u64,
    /// The Zobrist word table this position hashes with.
    pub zobrist: Zobrist,
}

/// The abstract value of a position: the five fields the move rules
/// read, with the vectors as sequences. Spec-level recursions (the
/// perft recurrence) walk these records, since a `Board` itself cannot
/// be built in spec code.
#[verifier::ext_equal]
pub struct Pos {
    pub sqs: Seq<u8>,
    pub bb: Seq<u64>,
    pub to_move: u8,
    pub castling: u8,
    pub en_passant: u64,
}

/// The abstract value of a board.
pub open spec fn pos_of(b: Board) -> Pos {
    Pos {
        sqs: b.sqs@,
        bb: b.bb@,
        to_move: b.to_move,
        castling: b.castling,
        en_passant: b.en_passant,
    }
}

/// Square `sq` is set in the board of piece code `pc`.
pub open spec fn board_bit(b: Board, pc: u8, sq: int) -> bool {
    bit64(b.bb@[pc as int], sq as u64)
}

/// The square array and the per-piece bitboards describe the same
/// position: a piece's board holds exactly the squares that name it.
/// This single equivalence also makes distinct piece boards disjoint.
pub open spec fn sync_ok(b: Board) -> bool {
    &&& b.sqs@.len() == 64
    &&& b.bb@.len() == 16
    &&& b.bb@[0] == 0
    &&& b.bb@[1] == 0
    &&& forall|sq: int| 0 <= sq < 64 ==> is_square_code(#[trigger] b.sqs@[sq])
    &&& forall|pc: u8, sq: int|
        is_piece(pc) && 0 <= sq < 64 ==> (#[trigger] board_bit(b, pc, sq) <==> b.sqs@[sq] == pc)
}

/// The aggregate slots hold the union of the same-color piece boards:
/// a square is set in `ALL | c` exactly when a piece of color `c` is on it.
pub open spec fn aggs_ok(b: Board) -> bool {
    &&& forall|sq: int|
        0 <= sq < 64 ==> (#[trigger] board_bit(b, ALL, sq) <==> (b.sqs@[sq] != EMPTY && b.sqs@[sq]
            % 2 == 0))
    &&& forall|sq: int|
        0 <= sq < 64 ==> (#[trigger] board_bit(b, (ALL + 1) as u8, sq) <==> (b.sqs@[sq] != EMPTY
            && b.sqs@[sq] % 2 == 1))
}

/// The en-passant word is empty or a single bit on rank 3 or rank 6.
pub open spec fn ep_ok(ep: u64) -> bool {
    ep != 0 ==> {
        let e = u64_trailing_zeros(ep);
        &&& ep == 1u64 << (e as u64)
        &&& (e / 8 == 2 || e / 8 == 5)
    }
}

pub open spec fn misc_ok(b: Board) -> bool {
    &&& is_color(b.to_move)
    &&& b.castling < 16
    &&& ep_ok(b.en_passant)
}

/// The incrementally maintained hash equals the hash recomputed from
/// scratch over squares, castling rights, en-passant file and side.
pub open spec fn hash_ok(b: Board) -> bool {
    b.hash == hash_of(b.sqs@, b.castling, b.en_passant, b.to_move)
}

/// What every operation needs: representation sync, sane scalar fields,
/// and the word table.
pub open spec fn wf_base(b: Board) -> bool {
    &&& sync_ok(b)
    &&& misc_ok(b)
    &&& zobrist_ok(b.zobrist)
}

/// The full position invariant.
pub open spec fn board_ok(b: Board) -> bool {
    &&& wf_base(b)
    &&& aggs_ok(b)
    &&& hash_ok(b)
}

/// A set en-passant target really sits behind an enemy pawn that just
/// double-pushed: the pawn stands one rank beyond the target, and the
/// side to move is the one entitled to capture it.
pub open spec fn ep_sound(b: Board) -> bool {
    b.en_passant != 0 ==> {
        let e = u64_trailing_zeros(b.en_passant) as int;
        &&& (e / 8 == 2 ==> b.to_move == BLACK && b.sqs@[e + 8] == piece(PAWN, WHITE))
        &&& (e / 8 == 5 ==> b.to_move == WHITE && b.sqs@[e - 8] == piece(PAWN, BLACK))
    }
}

/// Two positions with the same abstract contents.
pub open spec fn same_board(a: Board, b: Board) -> bool {
    &&& a.bb@ == b.bb@
    &&& a.sqs@ == b.sqs@
    &&& a.ply == b.ply
    &&& a.to_move == b.to_move
    &&& a.hash == b.hash
    &&& a.castling == b.castling
    &&& a.en_passant == b.en_passant
    &&& a.zobrist.keys@ == b.zobrist.keys@
}

/// The back-rank offset of a color: 0 for white, 56 for black.
pub open spec fn offset(us: u8) -> int {
    if us == WHITE {
        0
    } else {
        56
    }
}

/// The king-side castling-right bit of a color.
pub open spec fn kingside_right(us: u8) -> u8 {
    if us == WHITE {
        WK_CASTLE
    } else {
        BK_CASTLE
    }
}

/// The queen-side castling-right bit of a color.
pub open spec fn queenside_right(us: u8) -> u8 {
    if us == WHITE {
        WQ_CASTLE
    } else {
        BQ_CASTLE
    }
}

/// What `make_move` assumes of a move, per the contract that moves come
/// from the generator: distinct squares, and for the two flag kinds that
/// touch squares besides `from` and `to`, the facts their updates rely on.
pub open spec fn valid_move(b: Board, m: Move) -> bool {
    let from = mv_from(m) as int;
    let to = mv_to(m) as int;
    &&& from != to
    &&& (spec_is_en_passant(m) ==> {
        let behind = if b.to_move == WHITE {
            to - 8
        } else {
            to + 8
        };
        &&& 0 <= behind < 64
        &&& behind != from
        &&& b.sqs@[behind] == piece(PAWN, flip_color(b.to_move))
        &&& !spec_king_castle(m)
        &&& !spec_queen_castle(m)
    })
    &&& (spec_is_double_push(m) ==> {
        &&& spec_promotion(m) == 0
        &&& b.sqs@[from] == piece(PAWN, b.to_move)
        &&& (b.to_move == WHITE ==> from / 8 == 1 && to == from + 16)
        &&& (b.to_move == BLACK ==> from / 8 == 6 && to == from - 16)
    })
}

/// The piece that ends up on the destination square: the promotion piece
/// if the move promotes, otherwise whatever stands on `from`.
pub open spec fn moved_piece(b: Board, m: Move) -> u8 {
    p_moved_piece(pos_of(b), m)
}

pub open spec fn p_moved_piece(p: Pos, m: Move) -> u8 {
    if spec_promotion(m) == QUEEN_PROM {
        piece(QUEEN, p.to_move)
    } else if spec_promotion(m) == ROOK_PROM {
        piece(ROOK, p.to_move)
    } else if spec_promotion(m) == BISHOP_PROM {
        piece(BISHOP, p.to_move)
    } else if spec_promotion(m) == KNIGHT_PROM {
        piece(KNIGHT, p.to_move)
    } else {
        p.sqs[mv_from(m) as int]
    }
}

/// The square array after a move: the mover (or its promotion) lands on
/// `to`, a castle also relocates the rook, en-passant clears the square
/// behind the target.
pub open spec fn make_move_sqs(b: Board, m: Move) -> Seq<u8> {
    p_sqs_after(pos_of(b), m)
}

pub open spec fn p_sqs_after(p: Pos, m: Move) -> Seq<u8> {
    let us = p.to_move;
    let from = mv_from(m) as int;
    let to = mv_to(m) as int;
    let off = offset(us);
    let s1 = p.sqs.update(from, EMPTY).update(to, p_moved_piece(p, m));
    let s2 = if spec_king_castle(m) {
        s1.update(off + 7, EMPTY).update(off + 5, piece(ROOK, us))
    } else {
        s1
    };
    let s3 = if spec_queen_castle(m) {
        s2.update(off, EMPTY).update(off + 3, piece(ROOK, us))
    } else {
        s2
    };
    if spec_is_en_passant(m) {
        let behind = if us == WHITE {
            to - 8
        } else {
            to + 8
        };
        s3.update(behind, EMPTY)
    } else {
        s3
    }
}

/// The castling rights after a move from `src` to `dest` by `us`: a right
/// is cleared when its king or rook leaves its home square, or when the
/// opponent's rook home square is captured.
pub open spec fn new_castling(c: u8, us: u8, src: int, dest: int) -> u8 {
    let opp = flip_color(us);
    let c1 = if c & kingside_right(us) != 0 && (src == offset(us) + 4 || src == offset(us) + 7) {
        c ^ kingside_right(us)
    } else {
        c
    };
    let c2 = if c1 & kingside_right(opp) != 0 && dest == offset(opp) + 7 {
        c1 ^ kingside_right(opp)
    } else {
        c1
    };
    let c3 = if c2 & queenside_right(us) != 0 && (src == offset(us) + 4 || src == offset(us)) {
        c2 ^ queenside_right(us)
    } else {
        c2
    };
    if c3 & queenside_right(opp) != 0 && dest == offset(opp) {
        c3 ^ queenside_right(opp)
    } else {
        c3
    }
}

/// One XOR at a time against the four-component hash shape.
proof fn lemma_hash4(s: u64, c: u64, e: u64, d: u64, w: u64, x: u64)
    by (bit_vector)
    ensures
        (((s ^ c) ^ e) ^ d) ^ w == (((s ^ w) ^ c) ^ e) ^ d,
        (((s ^ c) ^ e) ^ d) ^ (c ^ w) == ((s ^ w) ^ e) ^ d,
        (((s ^ c) ^ e) ^ d) ^ (e ^ w) == ((s ^ c) ^ w) ^ d,
        (((s ^ c) ^ e) ^ d) ^ (d ^ w) == ((s ^ c) ^ e) ^ w,
        (x ^ w) ^ s == x ^ (w ^ s),
        x ^ 0u64 == x,
        0u64 ^ x == x,
{
}

proof fn lemma_xor_small(c: u8, r: u8)
    by (bit_vector)
    requires
        c < 16,
        r < 16,
    ensures
        (c ^ r) < 16,
{
}

impl Board {
    /// An explicit deep copy; search layers copy the position before
    /// descending instead of unmaking moves.
    pub fn duplicate(&self) -> (r: Board)
        requires
            zobrist_ok(self.zobrist),
        ensures
            same_board(*self, r),
            zobrist_ok(r.zobrist),
    {
        let r = Board {
            bb: copy_words(&self.bb),
            sqs: copy_bytes(&self.sqs),
            ply: self.ply,
            to_move: self.to_move,
            hash: self.hash,
            castling: self.castling,
            en_passant: self.en_passant,
            zobrist: self.zobrist.duplicate(),
        };
        proof {
            assert(r.zobrist.keys@ =~= self.zobrist.keys@);
        }
        r
    }

    /// The back-rank offset used by castling updates.
    pub fn color_offset(us: u8) -> (r: usize)
        requires
            is_color(us),
        ensures
            r == offset(us),
    {
        if us == WHITE {
            0
        } else {
            56
        }
    }

    pub fn is_white(&self) -> (r: bool)
        ensures
            r == (self.to_move == WHITE),
    {
        self.to_move == WHITE
    }

    /// The side that made the previous move.
    pub fn prev_move(&self) -> (r: u8)
        requires
            is_color(self.to_move),
        ensures
            r == flip_color(self.to_move),
    {
        flip(self.to_move)
    }

    /// Toggle one castling right, maintaining the hash.
    pub fn set_castle(&mut self, castle: u8)
        requires
            zobrist_ok(old(self).zobrist),
            castle < 16,
            old(self).castling < 16,
        ensures
            final(self).castling == old(self).castling ^ castle,
            final(self).castling < 16,
            final(self).hash == old(self).hash ^ castle_hash(old(self).castling) ^ castle_hash(
                final(self).castling,
            ),
            hash_ok(*old(self)) ==> hash_ok(*final(self)),
            final(self).bb@ == old(self).bb@,
            final(self).sqs@ == old(self).sqs@,
            final(self).ply == old(self).ply,
            final(self).to_move == old(self).to_move,
            final(self).en_passant == old(self).en_passant,
            final(self).zobrist == old(self).zobrist,
            sync_ok(*old(self)) ==> sync_ok(*final(self)),
            aggs_ok(*old(self)) ==> aggs_ok(*final(self)),
    {
        let w_old = self.zobrist.castle_key(self.castling);
        self.hash = self.hash ^ w_old;
        self.castling = self.castling ^ castle;
        let w_new = self.zobrist.castle_key(self.castling);
        self.hash = self.hash ^ w_new;
        proof {
            lemma_xor_small(old(self).castling, castle);
            let s = sq_hash(old(self).sqs@, 64);
            let c = castle_hash(old(self).castling);
            let e = ep_hash(old(self).en_passant);
            let d = side_hash(old(self).to_move);
            let c2 = castle_hash(self.castling);
            lemma_hash4(c2, 0, 0, 0, c, old(self).hash);
            lemma_hash4(s, c, e, d, c2, 0);
            lemma_same_bits(*old(self), *self);
        }
    }

    /// Pass the turn: flip the side, advance the ply, clear the
    /// en-passant target, and update the hash for all three.
    pub fn do_null_move(&mut self)
        requires
            wf_base(*old(self)),
            old(self).ply < usize::MAX,
        ensures
            wf_base(*final(self)),
            final(self).to_move == flip_color(old(self).to_move),
            final(self).ply == old(self).ply + 1,
            final(self).en_passant == 0,
            final(self).castling == old(self).castling,
            final(self).sqs@ == old(self).sqs@,
            final(self).bb@ == old(self).bb@,
            final(self).zobrist == old(self).zobrist,
            final(self).hash == old(self).hash ^ zobrist_word(780) ^ ep_hash(
                old(self).en_passant,
            ),
            hash_ok(*old(self)) ==> hash_ok(*final(self)),
            ep_sound(*final(self)),
            aggs_ok(*old(self)) ==> aggs_ok(*final(self)),
    {
        self.ply = self.ply + 1;
        self.to_move = flip(self.to_move);
        let wd = self.zobrist.side_key();
        self.hash = self.hash ^ wd;
        let we = self.zobrist.ep_key(self.en_passant);
        self.hash = self.hash ^ we;
        self.en_passant = 0;
        proof {
            if hash_ok(*old(self)) {
                let t = sq_hash(old(self).sqs@, 64) ^ castle_hash(old(self).castling);
                let e = ep_hash(old(self).en_passant);
                let w = zobrist_word(780);
                lemma_null_hash(t, e, w);
            }
            lemma_same_bits(*old(self), *self);
        }
    }

    /// Move `piece` from `src` to `dest`, removing whatever stood on
    /// `dest`; `piece` may differ from the source piece when promoting.
    /// Hash and per-piece boards are updated; the aggregates are not, the
    /// caller recomputes them.
    pub fn move_piece(&mut self, src: usize, dest: usize, piece: u8)
        requires
            wf_base(*old(self)),
            src < 64,
            dest < 64,
            src != dest,
            piece == EMPTY || is_piece(piece),
        ensures
            wf_base(*final(self)),
            final(self).sqs@ == old(self).sqs@.update(src as int, EMPTY).update(
                dest as int,
                piece,
            ),
            final(self).hash == old(self).hash ^ piece_word(
                old(self).sqs@[src as int],
                src as int,
            ) ^ piece_word(old(self).sqs@[dest as int], dest as int) ^ piece_word(
                piece,
                dest as int,
            ),
            final(self).bb@[ALL as int] == old(self).bb@[ALL as int],
            final(self).bb@[ALL as int + 1] == old(self).bb@[ALL as int + 1],
            final(self).bb@ == moved_bb(
                old(self).bb@,
                old(self).sqs@[src as int],
                old(self).sqs@[dest as int],
                piece,
                src as int,
                dest as int,
            ),
            final(self).castling == old(self).castling,
            final(self).en_passant == old(self).en_passant,
            final(self).to_move == old(self).to_move,
            final(self).ply == old(self).ply,
            final(self).zobrist == old(self).zobrist,
            hash_ok(*old(self)) ==> hash_ok(*final(self)),
    {
        let src_pc = self.sqs[src];
        let dest_pc = self.sqs[dest];
        let ghost sqs0 = self.sqs@;

        let w1 = self.zobrist.piece_key(src_pc, src);
        self.hash = self.hash ^ w1;
        if src_pc != EMPTY {
            let b0 = self.bb[src_pc as usize];
            self.bb[src_pc as usize] = b0 ^ (1u64 << (src as u64));
        }
        let mut w2: u64 = 0;
        if dest_pc != EMPTY {
            w2 = self.zobrist.piece_key(dest_pc, dest);
            self.hash = self.hash ^ w2;
            let b0 = self.bb[dest_pc as usize];
            self.bb[dest_pc as usize] = b0 ^ (1u64 << (dest as u64));
        }
        self.sqs[src] = EMPTY;
        self.sqs[dest] = piece;
        let w3 = self.zobrist.piece_key(piece, dest);
        self.hash = self.hash ^ w3;
        if piece != EMPTY {
            let b0 = self.bb[piece as usize];
            self.bb[piece as usize] = b0 ^ (1u64 << (dest as u64));
        }

        proof {
            let b_old = *old(self);
            let b_new = *self;
            let wa = piece_word(sqs0[src as int], src as int);
            let wb = piece_word(sqs0[dest as int], dest as int);
            let wc = piece_word(piece, dest as int);
            // sync: every tracked bit agrees with the updated square array
            assert forall|pc: u8, sq: int| is_piece(pc) && 0 <= sq < 64 implies (#[trigger]
            board_bit(b_new, pc, sq) <==> b_new.sqs@[sq] == pc) by {
                lemma_move_bits(
                    b_old,
                    b_new,
                    src_pc,
                    dest_pc,
                    piece,
                    src as int,
                    dest as int,
                    pc,
                    sq,
                );
            }
            assert(b_new.bb@ =~= moved_bb(
                b_old.bb@,
                sqs0[src as int],
                sqs0[dest as int],
                piece,
                src as int,
                dest as int,
            ));
            // hash delta: the two square updates shift the fold by the
            // three piece words
            if dest_pc == EMPTY {
                lemma_xor_zero(old(self).hash ^ w1);
            }
            assert(self.hash == ((old(self).hash ^ wa) ^ wb) ^ wc);
            if hash_ok(b_old) {
                let s = sq_hash(sqs0, 64);
                let c = castle_hash(b_old.castling);
                let e = ep_hash(b_old.en_passant);
                let d = side_hash(b_old.to_move);
                let s1 = sqs0.update(src as int, EMPTY);
                let s2 = s1.update(dest as int, piece);
                lemma_sq_hash_update(sqs0, 64, src as int, EMPTY);
                lemma_sq_hash_update(s1, 64, dest as int, piece);
                assert(s1[dest as int] == sqs0[dest as int]);
                lemma_xor_zero(s ^ wa);
                assert(sq_hash(s2, 64) == ((s ^ wa) ^ wb) ^ wc);
                lemma_hash4(s, c, e, d, wa, 0);
                lemma_hash4(s ^ wa, c, e, d, wb, 0);
                lemma_hash4((s ^ wa) ^ wb, c, e, d, wc, 0);
            }
        }
    }
}

/// How one surgical move rewrites each tracked bitboard bit, against the
/// two square updates it performs.
proof fn lemma_move_bits(
    b_old: Board,
    b_new: Board,
    src_pc: u8,
    dest_pc: u8,
    piece: u8,
    src: int,
    dest: int,
    pc: u8,
    sq: int,
)
    requires
        sync_ok(b_old),
        0 <= src < 64,
        0 <= dest < 64,
        src != dest,
        piece == EMPTY || is_piece(piece),
        src_pc == b_old.sqs@[src],
        dest_pc == b_old.sqs@[dest],
        b_new.sqs@ == b_old.sqs@.update(src, EMPTY).update(dest, piece),
        b_new.bb@.len() == 16,
        // the boards the body wrote, expressed as conditional xors
        forall|k: int|
            0 <= k < 16 ==> b_new.bb@[k] == xor_if(
                xor_if(
                    xor_if(b_old.bb@[k], src_pc != EMPTY && k == src_pc, src),
                    dest_pc != EMPTY && k == dest_pc,
                    dest,
                ),
                piece != EMPTY && k == piece,
                dest,
            ),
        is_piece(pc),
        0 <= sq < 64,
    ensures
        board_bit(b_new, pc, sq) <==> b_new.sqs@[sq] == pc,
{
    let w0 = b_old.bb@[pc as int];
    let w1 = xor_if(w0, src_pc != EMPTY && pc == src_pc, src);
    let w2 = xor_if(w1, dest_pc != EMPTY && pc == dest_pc, dest);
    let w3 = xor_if(w2, piece != EMPTY && pc == piece, dest);
    lemma_xor_if(w0, src_pc != EMPTY && pc == src_pc, src, sq);
    lemma_xor_if(w1, dest_pc != EMPTY && pc == dest_pc, dest, sq);
    lemma_xor_if(w2, piece != EMPTY && pc == piece, dest, sq);
    assert(board_bit(b_old, pc, sq) <==> b_old.sqs@[sq] == pc);
    if sq == dest {
        if dest_pc != EMPTY {
            assert(board_bit(b_old, dest_pc, dest) <==> b_old.sqs@[dest] == dest_pc);
        }
    } else if sq == src {
        if src_pc != EMPTY {
            assert(board_bit(b_old, src_pc, src) <==> b_old.sqs@[src] == src_pc);
        }
    }
}

/// A castling-right bit is one of the four low bits.
fn kingside_bit(us: u8) -> (r: u8)
    requires
        is_color(us),
    ensures
        r == kingside_right(us),
        r == 1 || r == 4,
{
    if us == WHITE {
        WK_CASTLE
    } else {
        BK_CASTLE
    }
}

fn queenside_bit(us: u8) -> (r: u8)
    requires
        is_color(us),
    ensures
        r == queenside_right(us),
        r == 2 || r == 8,
{
    if us == WHITE {
        WQ_CASTLE
    } else {
        BQ_CASTLE
    }
}

proof fn lemma_tz_single(m: u64)
    requires
        m < 64,
    ensures
        u64_trailing_zeros(1u64 << m) == m,
{
    assert(1u64 << m != 0) by (bit_vector)
        requires
            m < 64,
    ;
    let b = 1u64 << m;
    vstd::std_specs::bits::axiom_u64_trailing_zeros(b);
    let t = u64_trailing_zeros(b) as u64;
    crate::bits::lemma_shr_low_bit(b, t);
    lemma_bit_single(m, t);
}

impl Board {
    /// Recompute the two aggregate-occupancy slots as the union of the
    /// same-color piece boards.
    pub fn set_all(&mut self)
        requires
            wf_base(*old(self)),
        ensures
            wf_base(*final(self)),
            aggs_ok(*final(self)),
            final(self).sqs@ == old(self).sqs@,
            forall|k: int| 0 <= k < 14 ==> final(self).bb@[k] == old(self).bb@[k],
            final(self).bb@ == with_aggregates(old(self).bb@),
            final(self).hash == old(self).hash,
            final(self).castling == old(self).castling,
            final(self).en_passant == old(self).en_passant,
            final(self).to_move == old(self).to_move,
            final(self).ply == old(self).ply,
            final(self).zobrist == old(self).zobrist,
            hash_ok(*old(self)) ==> hash_ok(*final(self)),
    {
        let white = self.bb[2] | self.bb[4] | self.bb[6] | self.bb[8] | self.bb[10] | self.bb[12];
        let black = self.bb[3] | self.bb[5] | self.bb[7] | self.bb[9] | self.bb[11] | self.bb[13];
        self.bb[14] = white;
        self.bb[15] = black;
        proof {
            let b_old = *old(self);
            let b_new = *self;
            assert forall|pc: u8, sq: int| is_piece(pc) && 0 <= sq < 64 implies (#[trigger]
            board_bit(b_new, pc, sq) <==> b_new.sqs@[sq] == pc) by {
                assert(board_bit(b_new, pc, sq) == board_bit(b_old, pc, sq));
            }
            assert(b_new.bb@ =~= with_aggregates(b_old.bb@));
            assert forall|sq: int| 0 <= sq < 64 implies (#[trigger] board_bit(b_new, ALL, sq) <==> (
            b_new.sqs@[sq] != EMPTY && b_new.sqs@[sq] % 2 == 0)) by {
                lemma_union_bit(b_old, white, 2, sq);
                assert(board_bit(b_new, ALL, sq) == bit64(white, sq as u64));
            }
            assert forall|sq: int| 0 <= sq < 64 implies (#[trigger] board_bit(
                b_new,
                (ALL + 1) as u8,
                sq,
            ) <==> (b_new.sqs@[sq] != EMPTY && b_new.sqs@[sq] % 2 == 1)) by {
                lemma_union_bit(b_old, black, 3, sq);
                assert(board_bit(b_new, (ALL + 1) as u8, sq) == bit64(black, sq as u64));
            }
        }
    }

    /// The piece relocations of a move: pass the turn, land the mover
    /// (or its promotion) on the destination, relocate a castling rook,
    /// and lift an en-passant-captured pawn, keeping hash and boards
    /// in sync. Rights, the new target and the aggregates follow in
    /// `make_move`.
    #[verifier::rlimit(100)]
    #[verifier::spinoff_prover]
    fn apply_pieces(&mut self, mv: Move)
        requires
            board_ok(*old(self)),
            valid_move(*old(self), mv),
            old(self).ply < usize::MAX,
        ensures
            wf_base(*final(self)),
            hash_ok(*final(self)),
            final(self).sqs@ == make_move_sqs(*old(self), mv),
            final(self).bb@ == apply_bb(*old(self), mv),
            final(self).to_move == flip_color(old(self).to_move),
            final(self).ply == old(self).ply + 1,
            final(self).en_passant == 0,
            final(self).castling == old(self).castling,
            final(self).zobrist == old(self).zobrist,
    {
        let ghost b0 = *old(self);
        let src = mv.from() as usize;
        let dest = mv.to() as usize;
        let color = self.to_move;
        let opp = flip(color);
        let off = Board::color_offset(color);

        self.do_null_move();

        let promo = mv.promotion();
        let dest_piece = if promo == QUEEN_PROM {
            QUEEN | color
        } else if promo == ROOK_PROM {
            ROOK | color
        } else if promo == BISHOP_PROM {
            BISHOP | color
        } else if promo == KNIGHT_PROM {
            KNIGHT | color
        } else {
            self.sqs[src]
        };
        proof {
            lemma_piece_fields(QUEEN, color);
            lemma_piece_fields(ROOK, color);
            lemma_piece_fields(BISHOP, color);
            lemma_piece_fields(KNIGHT, color);
            assert(dest_piece == moved_piece(b0, mv));
        }
        self.move_piece(src, dest, dest_piece);
        let ghost s1v = b0.sqs@.update(src as int, EMPTY).update(dest as int, dest_piece);
        let ghost bb1v = moved_bb(
            b0.bb@,
            b0.sqs@[src as int],
            b0.sqs@[dest as int],
            dest_piece,
            src as int,
            dest as int,
        );
        proof {
            assert(self.sqs@ == s1v);
            assert(self.bb@ == bb1v);
        }

        if mv.king_castle() {
            proof {
                lemma_piece_fields(ROOK, color);
            }
            self.move_piece(off + 7, off + 5, ROOK | color);
        }
        let ghost s2v = if spec_king_castle(mv) {
            s1v.update(offset(b0.to_move) + 7, EMPTY).update(
                offset(b0.to_move) + 5,
                piece(ROOK, b0.to_move),
            )
        } else {
            s1v
        };
        let ghost bb2v = if spec_king_castle(mv) {
            moved_bb(
                bb1v,
                s1v[offset(b0.to_move) + 7],
                s1v[offset(b0.to_move) + 5],
                piece(ROOK, b0.to_move),
                offset(b0.to_move) + 7,
                offset(b0.to_move) + 5,
            )
        } else {
            bb1v
        };
        proof {
            assert(self.sqs@ == s2v);
            assert(self.bb@ == bb2v);
        }
        if mv.queen_castle() {
            proof {
                lemma_piece_fields(ROOK, color);
            }
            self.move_piece(off, off + 3, ROOK | color);
        }
        let ghost s3v = if spec_queen_castle(mv) {
            s2v.update(offset(b0.to_move), EMPTY).update(
                offset(b0.to_move) + 3,
                piece(ROOK, b0.to_move),
            )
        } else {
            s2v
        };
        let ghost bb3v = if spec_queen_castle(mv) {
            moved_bb(
                bb2v,
                s2v[offset(b0.to_move)],
                s2v[offset(b0.to_move) + 3],
                piece(ROOK, b0.to_move),
                offset(b0.to_move),
                offset(b0.to_move) + 3,
            )
        } else {
            bb2v
        };
        proof {
            assert(self.sqs@ == s3v);
            assert(self.bb@ == bb3v);
        }

        if mv.is_en_passant() {
            let ep_pawn = if color == WHITE {
                dest - 8
            } else {
                dest + 8
            };
            proof {
                lemma_piece_fields(PAWN, opp);
            }
            let pc = self.sqs[ep_pawn];
            let ghost before = *self;
            let w = self.zobrist.piece_key(pc, ep_pawn);
            self.hash = self.hash ^ w;
            let bpc = self.bb[pc as usize];
            self.bb[pc as usize] = bpc ^ (1u64 << (ep_pawn as u64));
            self.sqs[ep_pawn] = EMPTY;
            proof {
                assert(pc == piece(PAWN, opp));
                lemma_ep_removal(before, *self, pc, ep_pawn as int, w);
            }
        }
        proof {
            let s4v = if spec_is_en_passant(mv) {
                s3v.update(
                    if b0.to_move == WHITE {
                        mv_to(mv) as int - 8
                    } else {
                        mv_to(mv) as int + 8
                    },
                    EMPTY,
                )
            } else {
                s3v
            };
            assert(self.sqs@ == s4v);
            assert(s4v == make_move_sqs(b0, mv));
            if spec_is_en_passant(mv) {
                let behind = if b0.to_move == WHITE {
                    mv_to(mv) as int - 8
                } else {
                    mv_to(mv) as int + 8
                };
                let pp = piece(PAWN, flip_color(b0.to_move)) as int;
                assert(self.bb@ =~= bb3v.update(pp, bb3v[pp] ^ (1u64 << (behind as u64))));
            }
            assert(self.bb@ == apply_bb(b0, mv));
        }
    }

    /// Apply a move of the side to move: advance side, ply, en-passant
    /// target and hash, relocate the pieces the move names, and maintain
    /// the castling rights and the aggregate boards.
    #[verifier::rlimit(100)]
    #[verifier::spinoff_prover]
    pub fn make_move(&mut self, mv: Move)
        requires
            board_ok(*old(self)),
            valid_move(*old(self), mv),
            old(self).ply < usize::MAX,
        ensures
            board_ok(*final(self)),
            ep_sound(*final(self)),
            final(self).to_move == flip_color(old(self).to_move),
            final(self).ply == old(self).ply + 1,
            final(self).sqs@ == make_move_sqs(*old(self), mv),
            final(self).castling == new_castling(
                old(self).castling,
                old(self).to_move,
                mv_from(mv) as int,
                mv_to(mv) as int,
            ),
            final(self).en_passant == if spec_is_double_push(mv) {
                1u64 << (((mv_from(mv) + mv_to(mv)) / 2) as u64)
            } else {
                0u64
            },
            final(self).bb@ == make_move_bb(*old(self), mv),
            final(self).zobrist == old(self).zobrist,
    {
        let ghost b0 = *old(self);
        let src = mv.from() as usize;
        let dest = mv.to() as usize;
        let color = self.to_move;
        let opp = flip(color);
        let off = Board::color_offset(color);

        self.apply_pieces(mv);

        if mv.is_double_push() {
            let mid = (src + dest) / 2;
            let ghost before = *self;
            self.en_passant = 1u64 << (mid as u64);
            let we = self.zobrist.ep_key(self.en_passant);
            self.hash = self.hash ^ we;
            proof {
                lemma_set_ep(before, *self, mid as int, we);
                lemma_piece_fields(PAWN, color);
            }
        }

        let k_us = kingside_bit(color);
        let k_opp = kingside_bit(opp);
        let q_us = queenside_bit(color);
        let q_opp = queenside_bit(opp);
        let off_opp = Board::color_offset(opp);

        if self.castling & k_us != 0 && (src == off + 4 || src == off + 7) {
            self.set_castle(k_us);
        }
        if self.castling & k_opp != 0 && dest == off_opp + 7 {
            self.set_castle(k_opp);
        }
        if self.castling & q_us != 0 && (src == off + 4 || src == off) {
            self.set_castle(q_us);
        }
        if self.castling & q_opp != 0 && dest == off_opp {
            self.set_castle(q_opp);
        }

        self.set_all();

        proof {
            assert(self.sqs@ == make_move_sqs(b0, mv));
            assert(self.bb@ == make_move_bb(b0, mv));
            if spec_is_double_push(mv) {
                lemma_piece_fields(PAWN, b0.to_move);
            }
            assert(ep_sound(*self));
        }
    }
}

/// Number of occupied squares other than `except` among the first `n`.
pub open spec fn cnt_occ(sqs: Seq<u8>, except: int, n: int) -> int
    decreases n,
{
    if n <= 0 {
        0
    } else {
        cnt_occ(sqs, except, n - 1) + if n - 1 != except && sqs[n - 1] != EMPTY {
            1int
        } else {
            0int
        }
    }
}

proof fn lemma_cnt_nonneg(sqs: Seq<u8>, except: int, n: int)
    ensures
        cnt_occ(sqs, except, n) >= 0,
    decreases n,
{
    if n > 0 {
        lemma_cnt_nonneg(sqs, except, n - 1);
    }
}

proof fn lemma_cnt_update(sqs: Seq<u8>, n: int, except: int, i: int, v: u8)
    requires
        0 <= i < n <= sqs.len(),
    ensures
        cnt_occ(sqs.update(i, v), except, n) == cnt_occ(sqs, except, n) - (if i != except && sqs[i]
            != EMPTY {
            1int
        } else {
            0int
        }) + (if i != except && v != EMPTY {
            1int
        } else {
            0int
        }),
    decreases n,
{
    if n - 1 == i {
        lemma_cnt_agree(sqs, sqs.update(i, v), except, n - 1);
    } else {
        lemma_cnt_update(sqs, n - 1, except, i, v);
    }
}

proof fn lemma_cnt_agree(a: Seq<u8>, b: Seq<u8>, except: int, n: int)
    requires
        n <= a.len(),
        n <= b.len(),
        forall|j: int| 0 <= j < n ==> a[j] == b[j],
    ensures
        cnt_occ(a, except, n) == cnt_occ(b, except, n),
    decreases n,
{
    if n > 0 {
        lemma_cnt_agree(a, b, except, n - 1);
    }
}

/// The file mask containing square `sq`.
pub open spec fn spec_file(sq: int) -> u64 {
    0x0101010101010101u64 << ((sq % 8) as u64)
}

/// The rank mask containing square `sq`.
pub open spec fn spec_row(sq: int) -> u64 {
    0xFFu64 << ((sq / 8 * 8) as u64)
}

fn file(sq: u32) -> (r: u64)
    requires
        sq < 64,
    ensures
        r == spec_file(sq as int),
{
    0x0101010101010101u64 << ((sq % 8) as u64)
}

fn row(sq: u32) -> (r: u64)
    requires
        sq < 64,
    ensures
        r == spec_row(sq as int),
{
    0xFFu64 << ((sq / 8 * 8) as u64)
}

/// The lowest-valued enemy attacker of a square, probed in the order
/// pawn, knight, bishop, rook, queen, king; `(EMPTY, !0)` when none.
/// The occupancy used for the sliders is whatever the aggregate slots
/// hold, which is what static exchange evaluation relies on.
pub open spec fn spec_attacker(b: Board, pos: int, us: u8) -> (u8, u32) {
    attacker_of(b.bb@, pos, us)
}

/// The same probe over the bare bitboard words; static exchange
/// evaluation recurses on these views directly.
pub open spec fn attacker_of(bb: Seq<u64>, pos: int, us: u8) -> (u8, u32) {
    let opp = flip_color(us);
    let l_file = if pos % 8 > 0 {
        spec_file(pos - 1)
    } else {
        0
    };
    let r_file = if pos % 8 < 7 {
        spec_file(pos + 1)
    } else {
        0
    };
    let attacking_row = if opp == WHITE && pos / 8 > 1 {
        spec_row(pos - 8)
    } else if opp == BLACK && pos / 8 < 6 {
        spec_row(pos + 8)
    } else {
        0
    };
    let pawns = bb[piece(PAWN, opp) as int] & attacking_row & (l_file | r_file);
    if pawns != 0 {
        (piece(PAWN, opp), u64_trailing_zeros(pawns))
    } else {
        let knights = knight_att(pos) & bb[piece(KNIGHT, opp) as int];
        if knights != 0 {
            (piece(KNIGHT, opp), u64_trailing_zeros(knights))
        } else {
            let occ = bb[(ALL + us) as int] | bb[(ALL + opp) as int];
            let bishops = bishop_att(pos, occ) & bb[piece(BISHOP, opp) as int];
            if bishops != 0 {
                (piece(BISHOP, opp), u64_trailing_zeros(bishops))
            } else {
                let rooks = rook_att(pos, occ) & bb[piece(ROOK, opp) as int];
                if rooks != 0 {
                    (piece(ROOK, opp), u64_trailing_zeros(rooks))
                } else {
                    let queens = queen_att(pos, occ) & bb[piece(QUEEN, opp) as int];
                    if queens != 0 {
                        (piece(QUEEN, opp), u64_trailing_zeros(queens))
                    } else {
                        let king = king_att(pos) & bb[piece(KING, opp) as int];
                        if king != 0 {
                            (piece(KING, opp), u64_trailing_zeros(king))
                        } else {
                            (EMPTY, !0u32)
                        }
                    }
                }
            }
        }
    }
}

/// A found attacker stands on the returned square with the returned code.
proof fn lemma_attacker_found(b: Board, pos: int, us: u8, masked: u64, pc: u8)
    requires
        sync_ok(b),
        is_piece(pc),
        masked != 0,
        forall|t: u64| t < 64 ==> (bit64(masked, t) ==> bit64(b.bb@[pc as int], t)),
    ensures
        u64_trailing_zeros(masked) < 64,
        b.sqs@[u64_trailing_zeros(masked) as int] == pc,
{
    vstd::std_specs::bits::axiom_u64_trailing_zeros(masked);
    let t = u64_trailing_zeros(masked) as u64;
    crate::bits::lemma_shr_low_bit(masked, t);
    assert(bit64(b.bb@[pc as int], t));
    assert(board_bit(b, pc, t as int) <==> b.sqs@[t as int] == pc);
}

/// The running exchange at `pos`: take with the
/// least-valuable attacker, let the opponent answer on the same square,
/// and never stand worse than declining, with value 0 once no attacker
/// remains. The guard conditions always hold of a synchronised board,
/// where a found attacker stands on its own occupied square.
pub open spec fn spec_see(sqs: Seq<u8>, bb: Seq<u64>, pos: int, us: u8) -> int
    decreases cnt_occ(sqs, pos, 64),
    via spec_see_decreases
{
    let att = attacker_of(bb, pos, us).0;
    let from = attacker_of(bb, pos, us).1 as int;
    if att != EMPTY && 0 <= from < 64 && 0 <= pos < 64 && from != pos && sqs.len() == 64
        && sqs[from] != EMPTY {
        let rest = spec_see(
            sqs.update(from, EMPTY).update(pos, att),
            moved_bb(bb, sqs[from], sqs[pos], att, from, pos),
            pos,
            flip_color(us),
        );
        if piece_value(sqs[pos]) - rest > 0 {
            piece_value(sqs[pos]) - rest
        } else {
            0
        }
    } else {
        0
    }
}

/// The expected balance of a move: 0 for a quiet move, and
/// for a capture the captured piece's value less the opponent's running
/// exchange on the destination after the move is applied.
pub open spec fn spec_see_move(b: Board, m: Move) -> int {
    if !spec_is_capture(m) {
        0
    } else {
        piece_value(b.sqs@[mv_to(m) as int]) - spec_see(
            make_move_sqs(b, m),
            make_move_bb(b, m),
            mv_to(m) as int,
            b.to_move,
        )
    }
}

/// The score-move pairs the quiescence filter keeps: exactly the moves
/// whose exchange wins material, each with its exchange value, in input
/// order.
pub open spec fn winning_pairs(b: Board, s: Seq<Move>) -> Seq<(i32, Move)>
    decreases s.len(),
{
    if s.len() == 0 {
        Seq::empty()
    } else {
        (if spec_see_move(b, s[0]) > 0 {
            seq![(spec_see_move(b, s[0]) as i32, s[0])]
        } else {
            Seq::empty()
        }) + winning_pairs(b, s.drop_first())
    }
}

/// Filtering one more move appends its pair when it wins material.
proof fn lemma_winning_push(b: Board, s: Seq<Move>, m: Move)
    ensures
        winning_pairs(b, s.push(m)) == winning_pairs(b, s) + (if spec_see_move(b, m) > 0 {
            seq![(spec_see_move(b, m) as i32, m)]
        } else {
            Seq::<(i32, Move)>::empty()
        }),
    decreases s.len(),
{
    if s.len() == 0 {
        assert(s.push(m).drop_first() =~= s);
        assert(s.push(m)[0] == m);
        assert(winning_pairs(b, s.push(m)) =~= winning_pairs(b, s) + (if spec_see_move(b, m) > 0 {
            seq![(spec_see_move(b, m) as i32, m)]
        } else {
            Seq::<(i32, Move)>::empty()
        }));
    } else {
        assert(s.push(m).drop_first() =~= s.drop_first().push(m));
        assert(s.push(m)[0] == s[0]);
        lemma_winning_push(b, s.drop_first(), m);
        assert(winning_pairs(b, s.push(m)) =~= winning_pairs(b, s) + (if spec_see_move(b, m) > 0 {
            seq![(spec_see_move(b, m) as i32, m)]
        } else {
            Seq::<(i32, Move)>::empty()
        }));
    }
}

/// The ordering score of a move: a sentinel for the hint, small positive
/// ties for the killer slots, the exchange balance otherwise.
pub open spec fn spec_sort_score(b: Board, m: Move, best: Move, killer: Killer) -> int {
    if m == best {
        10_000_000
    } else if m == killer.0 {
        2
    } else if m == killer.1 {
        1
    } else {
        spec_see_move(b, m)
    }
}

#[via_fn]
proof fn spec_see_decreases(sqs: Seq<u8>, bb: Seq<u64>, pos: int, us: u8) {
    let att = attacker_of(bb, pos, us).0;
    let from = attacker_of(bb, pos, us).1 as int;
    if att != EMPTY && 0 <= from < 64 && 0 <= pos < 64 && from != pos && sqs.len() == 64
        && sqs[from] != EMPTY {
        lemma_cnt_update(sqs, 64, pos, from, EMPTY);
        lemma_cnt_update(sqs.update(from, EMPTY), 64, pos, pos, att);
        lemma_cnt_nonneg(sqs.update(from, EMPTY).update(pos, att), pos, 64);
    }
}

/// The king-square of a color, per the king's bitboard.
pub open spec fn spec_in_check(b: Board, us: u8) -> bool {
    p_in_check(pos_of(b), us)
}

pub open spec fn p_in_check(p: Pos, us: u8) -> bool {
    let kb = p.bb[piece(KING, us) as int];
    kb != 0 && attacker_of(p.bb, u64_trailing_zeros(kb) as int, us).0 != EMPTY
}

impl Board {
    /// The lowest-valued enemy attacker of `pos` and its square.
    #[verifier::rlimit(60)]
    pub fn attacker(&self, pos: u32, us: u8) -> (r: (u8, u32))
        requires
            sync_ok(*self),
            pos < 64,
            is_color(us),
        ensures
            r == spec_attacker(*self, pos as int, us),
            r.0 != EMPTY ==> {
                &&& is_piece(r.0)
                &&& r.0 % 2 == flip_color(us)
                &&& r.1 < 64
                &&& self.sqs@[r.1 as int] == r.0
            },
    {
        let opp = flip(us);
        proof {
            lemma_piece_fields(PAWN, opp);
            lemma_piece_fields(KNIGHT, opp);
            lemma_piece_fields(BISHOP, opp);
            lemma_piece_fields(ROOK, opp);
            lemma_piece_fields(QUEEN, opp);
            lemma_piece_fields(KING, opp);
            lemma_piece_fields(ALL, us);
            lemma_piece_fields(ALL, opp);
        }
        let l_file = if pos % 8 > 0 {
            file(pos - 1)
        } else {
            0
        };
        let r_file = if pos % 8 < 7 {
            file(pos + 1)
        } else {
            0
        };
        let row_n = pos / 8;
        let attacking_row = if opp == WHITE && row_n > 1 {
            row(pos - 8)
        } else if opp == BLACK && row_n < 6 {
            row(pos + 8)
        } else {
            0
        };

        let pawns = self.bb[(PAWN | opp) as usize] & attacking_row & (l_file | r_file);
        if pawns != 0 {
            proof {
                lemma_and_subset(self.bb@[piece(PAWN, opp) as int] & attacking_row, l_file
                    | r_file);
                lemma_and_subset(self.bb@[piece(PAWN, opp) as int], attacking_row);
                lemma_attacker_found(*self, pos as int, us, pawns, piece(PAWN, opp));
            }
            return (PAWN | opp, crate::bits::lsb(pawns));
        }
        let knights = knight_moves(pos) & self.bb[(KNIGHT | opp) as usize];
        if knights != 0 {
            proof {
                lemma_and_subset(knight_att(pos as int), self.bb@[piece(KNIGHT, opp) as int]);
                lemma_attacker_found(*self, pos as int, us, knights, piece(KNIGHT, opp));
            }
            return (KNIGHT | opp, crate::bits::lsb(knights));
        }
        let occ = self.bb[(ALL | us) as usize] | self.bb[(ALL | opp) as usize];
        let bishops = bishop_moves(pos, occ) & self.bb[(BISHOP | opp) as usize];
        if bishops != 0 {
            proof {
                lemma_and_subset(bishop_att(pos as int, occ), self.bb@[piece(BISHOP, opp) as int]);
                lemma_attacker_found(*self, pos as int, us, bishops, piece(BISHOP, opp));
            }
            return (BISHOP | opp, crate::bits::lsb(bishops));
        }
        let rooks = rook_moves(pos, occ) & self.bb[(ROOK | opp) as usize];
        if rooks != 0 {
            proof {
                lemma_and_subset(rook_att(pos as int, occ), self.bb@[piece(ROOK, opp) as int]);
                lemma_attacker_found(*self, pos as int, us, rooks, piece(ROOK, opp));
            }
            return (ROOK | opp, crate::bits::lsb(rooks));
        }
        let queens = queen_moves(pos, occ) & self.bb[(QUEEN | opp) as usize];
        if queens != 0 {
            proof {
                lemma_and_subset(queen_att(pos as int, occ), self.bb@[piece(QUEEN, opp) as int]);
                lemma_attacker_found(*self, pos as int, us, queens, piece(QUEEN, opp));
            }
            return (QUEEN | opp, crate::bits::lsb(queens));
        }
        let king = king_moves(pos) & self.bb[(KING | opp) as usize];
        if king != 0 {
            proof {
                lemma_and_subset(king_att(pos as int), self.bb@[piece(KING, opp) as int]);
                lemma_attacker_found(*self, pos as int, us, king, piece(KING, opp));
            }
            return (KING | opp, crate::bits::lsb(king));
        }
        (EMPTY, !0u32)
    }

    /// Whether the king of `us` stands attacked; a board with no such
    /// king counts as not in check.
    pub fn player_in_check(&self, us: u8) -> (r: bool)
        requires
            sync_ok(*self),
            is_color(us),
        ensures
            r == spec_in_check(*self, us),
    {
        proof {
            lemma_piece_fields(KING, us);
        }
        let kb = self.bb[(KING | us) as usize];
        if kb == 0 {
            return false;
        }
        let king_pos = crate::bits::lsb(kb);
        self.attacker(king_pos, us).0 != EMPTY
    }

    pub fn is_in_check(&self) -> (r: bool)
        requires
            sync_ok(*self),
            is_color(self.to_move),
        ensures
            r == spec_in_check(*self, self.to_move),
    {
        self.player_in_check(self.to_move)
    }

    /// Pawn moves, captures and castles reset the repetition horizon.
    pub fn is_irreversible(&self, mv: Move) -> (r: bool)
        requires
            sync_ok(*self),
        ensures
            r == (spec_is_capture(mv) || kind_of(self.sqs@[mv_from(mv) as int]) == PAWN
                || spec_king_castle(mv) || spec_queen_castle(mv)),
    {
        mv.is_capture() || self.sqs[mv.from() as usize] & PIECE == PAWN || mv.king_castle()
            || mv.queen_castle()
    }

    /// The running exchange at `pos`: capture with the least-valuable
    /// attacker of `us`, then let the opponent answer, never standing
    /// worse than not capturing at all.
    pub fn see(&mut self, pos: u32, us: u8) -> (r: i32)
        requires
            wf_base(*old(self)),
            pos < 64,
            is_color(us),
            old(self).sqs@[pos as int] == EMPTY || old(self).sqs@[pos as int] % 2 == us,
        ensures
            wf_base(*final(self)),
            r == spec_see(old(self).sqs@, old(self).bb@, pos as int, us),
            0 <= r <= piece_value(old(self).sqs@[pos as int]),
        decreases cnt_occ(self.sqs@, pos as int, 64),
    {
        let captured = self.sqs[pos as usize];
        let (att, from) = self.attacker(pos, us);
        if att != EMPTY {
            let ghost pre = self.sqs@;
            let ghost preb = self.bb@;
            proof {
                assert(from != pos);
                lemma_cnt_update(pre, 64, pos as int, from as int, EMPTY);
                lemma_cnt_update(pre.update(from as int, EMPTY), 64, pos as int, pos as int, att);
            }
            self.move_piece(from as usize, pos as usize, att);
            proof {
                lemma_cnt_nonneg(self.sqs@, pos as int, 64);
                assert(cnt_occ(self.sqs@, pos as int, 64) < cnt_occ(pre, pos as int, 64));
            }
            let rec = self.see(pos, flip(us));
            let diff = p_val(captured) - rec;
            if diff > 0 {
                diff
            } else {
                0
            }
        } else {
            0
        }
    }

    /// The expected material balance of playing the capture `mv`: the
    /// captured piece's value less the opponent's best running exchange
    /// on the destination square. 0 for a quiet move.
    pub fn see_move(&self, mv: &Move) -> (r: i32)
        requires
            board_ok(*self),
            valid_move(*self, *mv),
            self.ply < usize::MAX,
            spec_is_capture(*mv) ==> (self.sqs@[mv_from(*mv) as int] == EMPTY || self.sqs@[mv_from(
                *mv,
            ) as int] % 2 == self.to_move),
        ensures
            r == spec_see_move(*self, *mv),
            !spec_is_capture(*mv) ==> r == 0,
            spec_is_capture(*mv) ==> r <= piece_value(self.sqs@[mv_to(*mv) as int]),
            spec_is_capture(*mv) && !spec_king_castle(*mv) && !spec_queen_castle(*mv) ==> r
                >= piece_value(self.sqs@[mv_to(*mv) as int]) - piece_value(
                moved_piece(*self, *mv),
            ),
            spec_is_capture(*mv) && !spec_king_castle(*mv) && !spec_queen_castle(*mv)
                && spec_promotion(*mv) == 0 ==> r >= piece_value(self.sqs@[mv_to(*mv) as int])
                - piece_value(self.sqs@[mv_from(*mv) as int]),
    {
        if !mv.is_capture() {
            return 0;
        }
        let captured = self.sqs[mv.to() as usize];
        let mut scratch = self.duplicate();
        proof {
            lemma_same_board_preds(*self, scratch, *mv);
        }
        scratch.make_move(*mv);
        proof {
            lemma_mv_bounds(*mv);
            assert(scratch.bb@ == make_move_bb(*self, *mv));
            let from = mv_from(*mv) as int;
            let to = mv_to(*mv) as int;
            let us = self.to_move;
            let off = offset(us);
            let mp = moved_piece(*self, *mv);
            assert(mp == EMPTY || mp % 2 == us);
            assert(scratch.sqs@ == make_move_sqs(*self, *mv));
            let s1 = self.sqs@.update(from, EMPTY).update(to, mp);
            assert(s1[to] == mp);
            let s2 = if spec_king_castle(*mv) {
                s1.update(off + 7, EMPTY).update(off + 5, piece(ROOK, us))
            } else {
                s1
            };
            assert(s2[to] == EMPTY || s2[to] % 2 == us);
            let s3 = if spec_queen_castle(*mv) {
                s2.update(off, EMPTY).update(off + 3, piece(ROOK, us))
            } else {
                s2
            };
            assert(s3[to] == EMPTY || s3[to] % 2 == us);
            if spec_is_en_passant(*mv) {
                let behind = if us == WHITE {
                    to - 8
                } else {
                    to + 8
                };
                assert(behind != to);
                assert(scratch.sqs@ == s3.update(behind, EMPTY));
            } else {
                assert(scratch.sqs@ == s3);
            }
            assert(scratch.sqs@[to] == s3[to]);
            if !spec_king_castle(*mv) && !spec_queen_castle(*mv) {
                assert(scratch.sqs@[to] == mp);
            }
        }
        let rec = scratch.see(mv.to(), self.to_move);
        p_val(captured) - rec
    }
}

/// The moves emitted for the set squares of `bits`, lowest square
/// first, all from one source square.
pub open spec fn moves_from_bits(from: u64, bits: u64, flags: u32) -> Seq<Move>
    decreases bits,
    via moves_from_bits_dec
{
    if bits == 0 {
        Seq::empty()
    } else {
        let t = u64_trailing_zeros(bits) as u64;
        seq![mk_move(from, t, flags)] + moves_from_bits(from, bits ^ (1u64 << t), flags)
    }
}

#[via_fn]
proof fn moves_from_bits_dec(from: u64, bits: u64, flags: u32) {
    lemma_bits_shrink(bits);
}

/// The moves emitted for the set squares of `bits`, lowest first, the
/// source standing `shift` squares below each destination.
pub open spec fn moves_of_bits(bits: u64, shift: int, flags: u32) -> Seq<Move>
    decreases bits,
    via moves_of_bits_dec
{
    if bits == 0 {
        Seq::empty()
    } else {
        let t = u64_trailing_zeros(bits) as u64;
        seq![mk_move((t - shift) as u64, t, flags)] + moves_of_bits(
            bits ^ (1u64 << t),
            shift,
            flags,
        )
    }
}

#[via_fn]
proof fn moves_of_bits_dec(bits: u64, shift: int, flags: u32) {
    lemma_bits_shrink(bits);
}

/// The four promotion expansions for each set square, lowest first.
pub open spec fn prom_moves_of_bits(bits: u64, shift: int, flags: u32) -> Seq<Move>
    decreases bits,
    via prom_moves_of_bits_dec
{
    if bits == 0 {
        Seq::empty()
    } else {
        let t = u64_trailing_zeros(bits) as u64;
        let f = (t - shift) as u64;
        seq![
            mk_move(f, t, flags | QUEEN_PROM),
            mk_move(f, t, flags | ROOK_PROM),
            mk_move(f, t, flags | BISHOP_PROM),
            mk_move(f, t, flags | KNIGHT_PROM),
        ] + prom_moves_of_bits(bits ^ (1u64 << t), shift, flags)
    }
}

#[via_fn]
proof fn prom_moves_of_bits_dec(bits: u64, shift: int, flags: u32) {
    lemma_bits_shrink(bits);
}

/// Clearing the lowest set bit shrinks the word.
proof fn lemma_bits_shrink(bits: u64)
    ensures
        bits != 0 ==> bits ^ (1u64 << (u64_trailing_zeros(bits) as u64)) < bits,
{
    if bits != 0 {
        vstd::std_specs::bits::axiom_u64_trailing_zeros(bits);
        let t = u64_trailing_zeros(bits) as u64;
        crate::bits::lemma_shr_low_bit(bits, t);
        lemma_clear_bit_decreases(bits, t);
    }
}

/// The shifted source square stays on the board.
pub open spec fn src_in_range(t: u64, shift: i32) -> bool {
    let f = t as int - shift as int;
    0 <= f < 64
}

/// What the generator guarantees of every move it emits: the facts
/// `make_move` relies on, and for captures that the mover is a piece of
/// the side to move.
pub open spec fn gen_ok(b: Board, m: Move) -> bool {
    &&& valid_move(b, m)
    &&& (!spec_king_castle(m) && !spec_queen_castle(m) ==> b.sqs@[mv_from(m) as int] != EMPTY
        && b.sqs@[mv_from(m) as int] % 2 == b.to_move)
    &&& (spec_king_castle(m) ==> mv_from(m) == offset(b.to_move) + 4 && mv_to(m) == offset(
        b.to_move,
    ) + 6 && b.sqs@[offset(b.to_move) + 5] == EMPTY && b.sqs@[offset(b.to_move) + 6] == EMPTY
        && !spec_is_en_passant(m) && !spec_is_capture(m))
    &&& (spec_queen_castle(m) ==> mv_from(m) == offset(b.to_move) + 4 && mv_to(m) == offset(
        b.to_move,
    ) + 2 && b.sqs@[offset(b.to_move) + 3] == EMPTY && b.sqs@[offset(b.to_move) + 2] == EMPTY
        && b.sqs@[offset(b.to_move) + 1] == EMPTY && !spec_is_en_passant(m) && !spec_is_capture(
        m,
    ))
}

/// Append one move per set square of `bits`, each from the fixed square
/// `from`.
fn add_moves_from(moves: &mut Vec<Move>, from: u32, bits: u64, flags: u32, Ghost(b): Ghost<Board>)
    requires
        from < 64,
        flags < 256,
        forall|t: u64|
            t < 64 && bit64(bits, t) ==> gen_ok(b, mk_move(from as u64, t, flags)),
    ensures
        final(moves)@ == old(moves)@ + moves_from_bits(from as u64, bits, flags),
        final(moves)@.len() >= old(moves)@.len(),
        forall|i: int| 0 <= i < old(moves)@.len() ==> final(moves)@[i] == old(moves)@[i],
        forall|i: int|
            old(moves)@.len() <= i < final(moves)@.len() ==> gen_ok(b, final(moves)@[i]),
{
    let mut rest = bits;
    while rest != 0
        invariant
            from < 64,
            flags < 256,
            forall|t: u64| t < 64 && bit64(rest, t) ==> gen_ok(b, mk_move(from as u64, t, flags)),
            moves@.len() >= old(moves)@.len(),
            old(moves)@ + moves_from_bits(from as u64, bits, flags) == moves@ + moves_from_bits(
                from as u64,
                rest,
                flags,
            ),
            forall|i: int| 0 <= i < old(moves)@.len() ==> moves@[i] == old(moves)@[i],
            forall|i: int| old(moves)@.len() <= i < moves@.len() ==> gen_ok(b, moves@[i]),
        decreases rest,
    {
        let t = crate::bits::lsb(rest);
        let ghost pre = moves@;
        let ghost rest0 = rest;
        proof {
            lemma_clear_bit_decreases(rest, t as u64);
            let cleared = rest ^ (1u64 << (t as u64));
            assert forall|u: u64| u < 64 && bit64(cleared, u) implies bit64(rest, u) by {
                lemma_bit_xor(rest, 1u64 << (t as u64), u);
                lemma_bit_single(t as u64, u);
            }
        }
        rest = rest ^ (1u64 << (t as u64));
        moves.push(Move::new(from, t, flags));
        proof {
            assert(pre + (seq![mk_move(from as u64, t as u64, flags)] + moves_from_bits(
                from as u64,
                rest,
                flags,
            )) =~= moves@ + moves_from_bits(from as u64, rest, flags));
        }
    }
    proof {
        assert(old(moves)@ + moves_from_bits(from as u64, bits, flags) =~= moves@);
    }
}

/// Append one move per set square of `bits`, the source standing `shift`
/// squares below the destination.
fn add_moves(moves: &mut Vec<Move>, bits: u64, shift: i32, flags: u32, Ghost(b): Ghost<Board>)
    requires
        -16 <= shift <= 16,
        flags < 256,
        forall|t: u64|
            t < 64 && bit64(bits, t) ==> src_in_range(t, shift) && gen_ok(
                b,
                mk_move((t as int - shift as int) as u64, t, flags),
            ),
    ensures
        final(moves)@ == old(moves)@ + moves_of_bits(bits, shift as int, flags),
        final(moves)@.len() >= old(moves)@.len(),
        forall|i: int| 0 <= i < old(moves)@.len() ==> final(moves)@[i] == old(moves)@[i],
        forall|i: int|
            old(moves)@.len() <= i < final(moves)@.len() ==> gen_ok(b, final(moves)@[i]),
{
    let mut rest = bits;
    while rest != 0
        invariant
            -16 <= shift <= 16,
            flags < 256,
            forall|t: u64|
                t < 64 && bit64(rest, t) ==> src_in_range(t, shift) && gen_ok(
                    b,
                    mk_move((t as int - shift as int) as u64, t, flags),
                ),
            moves@.len() >= old(moves)@.len(),
            old(moves)@ + moves_of_bits(bits, shift as int, flags) == moves@ + moves_of_bits(
                rest,
                shift as int,
                flags,
            ),
            forall|i: int| 0 <= i < old(moves)@.len() ==> moves@[i] == old(moves)@[i],
            forall|i: int| old(moves)@.len() <= i < moves@.len() ==> gen_ok(b, moves@[i]),
        decreases rest,
    {
        let t = crate::bits::lsb(rest);
        let ghost pre = moves@;
        proof {
            lemma_clear_bit_decreases(rest, t as u64);
            let cleared = rest ^ (1u64 << (t as u64));
            assert forall|u: u64| u < 64 && bit64(cleared, u) implies bit64(rest, u) by {
                lemma_bit_xor(rest, 1u64 << (t as u64), u);
                lemma_bit_single(t as u64, u);
            }
        }
        rest = rest ^ (1u64 << (t as u64));
        let from = (t as i32 - shift) as u32;
        moves.push(Move::new(from, t, flags));
        proof {
            assert(pre + (seq![mk_move((t as int - shift as int) as u64, t as u64, flags)]
                + moves_of_bits(rest, shift as int, flags)) =~= moves@ + moves_of_bits(
                rest,
                shift as int,
                flags,
            ));
        }
    }
    proof {
        assert(old(moves)@ + moves_of_bits(bits, shift as int, flags) =~= moves@);
    }
}

/// Append the four promotion expansions of each move.
fn add_prom_moves(moves: &mut Vec<Move>, bits: u64, shift: i32, flags: u32, Ghost(b): Ghost<Board>)
    requires
        -16 <= shift <= 16,
        flags < 16,
        forall|t: u64|
            t < 64 && bit64(bits, t) ==> src_in_range(t, shift) && gen_ok(
                b,
                mk_move((t as int - shift as int) as u64, t, flags | QUEEN_PROM),
            ) && gen_ok(b, mk_move((t as int - shift as int) as u64, t, flags | ROOK_PROM))
                && gen_ok(b, mk_move((t as int - shift as int) as u64, t, flags | BISHOP_PROM))
                && gen_ok(b, mk_move((t as int - shift as int) as u64, t, flags | KNIGHT_PROM)),
    ensures
        final(moves)@ == old(moves)@ + prom_moves_of_bits(bits, shift as int, flags),
        final(moves)@.len() >= old(moves)@.len(),
        forall|i: int| 0 <= i < old(moves)@.len() ==> final(moves)@[i] == old(moves)@[i],
        forall|i: int|
            old(moves)@.len() <= i < final(moves)@.len() ==> gen_ok(b, final(moves)@[i]),
{
    let mut rest = bits;
    while rest != 0
        invariant
            -16 <= shift <= 16,
            flags < 16,
            forall|t: u64|
                t < 64 && bit64(rest, t) ==> src_in_range(t, shift) && gen_ok(
                    b,
                    mk_move((t as int - shift as int) as u64, t, flags | QUEEN_PROM),
                ) && gen_ok(b, mk_move((t as int - shift as int) as u64, t, flags | ROOK_PROM))
                    && gen_ok(b, mk_move((t as int - shift as int) as u64, t, flags | BISHOP_PROM))
                    && gen_ok(b, mk_move((t as int - shift as int) as u64, t, flags | KNIGHT_PROM)),
            moves@.len() >= old(moves)@.len(),
            old(moves)@ + prom_moves_of_bits(bits, shift as int, flags) == moves@
                + prom_moves_of_bits(rest, shift as int, flags),
            forall|i: int| 0 <= i < old(moves)@.len() ==> moves@[i] == old(moves)@[i],
            forall|i: int| old(moves)@.len() <= i < moves@.len() ==> gen_ok(b, moves@[i]),
        decreases rest,
    {
        let t = crate::bits::lsb(rest);
        proof {
            lemma_clear_bit_decreases(rest, t as u64);
            let cleared = rest ^ (1u64 << (t as u64));
            assert forall|u: u64| u < 64 && bit64(cleared, u) implies bit64(rest, u) by {
                lemma_bit_xor(rest, 1u64 << (t as u64), u);
                lemma_bit_single(t as u64, u);
            }
        }
        rest = rest ^ (1u64 << (t as u64));
        proof {
            assert((flags | 32u32) < 256 && (flags | 64u32) < 256 && (flags | 96u32) < 256 && (
            flags | 128u32) < 256) by (bit_vector)
                requires
                    flags < 16,
            ;
        }
        let from = (t as i32 - shift) as u32;
        let ghost pre = moves@;
        moves.push(Move::new(from, t, flags | QUEEN_PROM));
        moves.push(Move::new(from, t, flags | ROOK_PROM));
        moves.push(Move::new(from, t, flags | BISHOP_PROM));
        moves.push(Move::new(from, t, flags | KNIGHT_PROM));
        proof {
            let f = (t as int - shift as int) as u64;
            assert(pre + (seq![
                mk_move(f, t as u64, flags | QUEEN_PROM),
                mk_move(f, t as u64, flags | ROOK_PROM),
                mk_move(f, t as u64, flags | BISHOP_PROM),
                mk_move(f, t as u64, flags | KNIGHT_PROM),
            ] + prom_moves_of_bits(rest, shift as int, flags)) =~= moves@ + prom_moves_of_bits(
                rest,
                shift as int,
                flags,
            ));
        }
    }
    proof {
        assert(old(moves)@ + prom_moves_of_bits(bits, shift as int, flags) =~= moves@);
    }
}

/// The full-board occupancy as `get_moves` computes it.
pub open spec fn occ_of(b: Board) -> u64 {
    p_occ(pos_of(b))
}

pub open spec fn p_occ(p: Pos) -> u64 {
    p.bb[(14 + p.to_move) as int] | p.bb[(14 + flip_color(p.to_move)) as int]
}

/// The enemy occupancy as `get_moves` computes it.
pub open spec fn enemies_of(b: Board) -> u64 {
    p_enemies(pos_of(b))
}

pub open spec fn p_enemies(p: Pos) -> u64 {
    p.bb[(14 + flip_color(p.to_move)) as int]
}

/// The moves of the pieces of one kind still listed in `pieces`, lowest
/// square first: each piece's quiet moves, then its captures.
pub open spec fn kind_moves(b: Board, kind: u8, pieces: u64) -> Seq<Move> {
    p_kind_moves(pos_of(b), kind, pieces)
}

pub open spec fn p_kind_moves(p: Pos, kind: u8, pieces: u64) -> Seq<Move>
    decreases pieces,
    via p_kind_moves_dec
{
    if pieces == 0 {
        Seq::empty()
    } else {
        let from = u64_trailing_zeros(pieces) as u64;
        let att = if kind == QUEEN {
            queen_att(from as int, p_occ(p))
        } else if kind == ROOK {
            rook_att(from as int, p_occ(p))
        } else if kind == BISHOP {
            bishop_att(from as int, p_occ(p))
        } else {
            knight_att(from as int)
        };
        moves_from_bits(from, att & !p_occ(p), 0) + moves_from_bits(
            from,
            att & p_enemies(p),
            IS_CAPTURE,
        ) + p_kind_moves(p, kind, pieces ^ (1u64 << from))
    }
}

#[via_fn]
proof fn p_kind_moves_dec(p: Pos, kind: u8, pieces: u64) {
    lemma_bits_shrink(pieces);
}

/// The king's quiet moves and captures, when a king is on the board.
pub open spec fn king_moves_list(b: Board) -> Seq<Move> {
    p_king_list(pos_of(b))
}

pub open spec fn p_king_list(p: Pos) -> Seq<Move> {
    let kb = p.bb[piece(KING, p.to_move) as int];
    if kb != 0 {
        let from = u64_trailing_zeros(kb) as u64;
        moves_from_bits(from, king_att(from as int) & !p_occ(p), 0) + moves_from_bits(
            from,
            king_att(from as int) & p_enemies(p),
            IS_CAPTURE,
        )
    } else {
        Seq::empty()
    }
}

/// Every pawn move, in the emission order of the generator: plain and
/// double pushes, plain captures each way, en-passant captures, and the
/// promotion expansions.
pub open spec fn pawn_moves_list(b: Board) -> Seq<Move> {
    p_pawn_list(pos_of(b))
}

pub open spec fn p_pawn_list(p: Pos) -> Seq<Move> {
    let us = p.to_move;
    let pawns = p.bb[piece(PAWN, us) as int];
    let ep = p.en_passant;
    let occ = p_occ(p);
    let enemies = p_enemies(p);
    let file_a = 0x0101010101010101u64;
    let file_h = file_a << 7;
    if us == WHITE {
        let row_3 = 0xFFu64 << 16;
        let row_8 = 0xFFu64 << 56;
        let pushes = (pawns << 8) & !occ;
        let double_pushes = ((pushes & row_3) << 8) & !occ;
        let left_attacks = (pawns << 7) & (enemies | ep) & !file_h;
        let right_attacks = (pawns << 9) & (enemies | ep) & !file_a;
        let l_ep = left_attacks & ep;
        let r_ep = right_attacks & ep;
        let prom_pushes = pushes & row_8;
        let prom_l = left_attacks & row_8;
        let prom_r = right_attacks & row_8;
        moves_of_bits(pushes ^ prom_pushes, 8, 0) + moves_of_bits(double_pushes, 16, DOUBLE_PAWN_PUSH)
            + moves_of_bits(left_attacks ^ l_ep ^ prom_l, 7, IS_CAPTURE) + moves_of_bits(
            right_attacks ^ r_ep ^ prom_r,
            9,
            IS_CAPTURE,
        ) + moves_of_bits(l_ep, 7, EN_PASSANT | IS_CAPTURE) + moves_of_bits(
            r_ep,
            9,
            EN_PASSANT | IS_CAPTURE,
        ) + prom_moves_of_bits(prom_pushes, 8, 0) + prom_moves_of_bits(prom_l, 7, IS_CAPTURE)
            + prom_moves_of_bits(prom_r, 9, IS_CAPTURE)
    } else {
        let row_3 = 0xFFu64 << 40;
        let row_8 = 0xFFu64;
        let pushes = (pawns >> 8) & !occ;
        let double_pushes = ((pushes & row_3) >> 8) & !occ;
        let left_attacks = (pawns >> 9) & (enemies | ep) & !file_h;
        let right_attacks = (pawns >> 7) & (enemies | ep) & !file_a;
        let l_ep = left_attacks & ep;
        let r_ep = right_attacks & ep;
        let prom_pushes = pushes & row_8;
        let prom_l = left_attacks & row_8;
        let prom_r = right_attacks & row_8;
        moves_of_bits(pushes ^ prom_pushes, -8, 0) + moves_of_bits(
            double_pushes,
            -16,
            DOUBLE_PAWN_PUSH,
        ) + moves_of_bits(left_attacks ^ l_ep ^ prom_l, -9, IS_CAPTURE) + moves_of_bits(
            right_attacks ^ r_ep ^ prom_r,
            -7,
            IS_CAPTURE,
        ) + moves_of_bits(l_ep, -9, EN_PASSANT | IS_CAPTURE) + moves_of_bits(
            r_ep,
            -7,
            EN_PASSANT | IS_CAPTURE,
        ) + prom_moves_of_bits(prom_pushes, -8, 0) + prom_moves_of_bits(prom_l, -9, IS_CAPTURE)
            + prom_moves_of_bits(prom_r, -7, IS_CAPTURE)
    }
}

/// The castle moves whose right is held, whose path is clear and whose
/// king path stands unattacked.
pub open spec fn castle_moves_list(b: Board) -> Seq<Move> {
    p_castle_list(pos_of(b))
}

pub open spec fn p_castle_list(p: Pos) -> Seq<Move> {
    let us = p.to_move;
    let off = offset(us);
    let ks = p.castling & kingside_right(us) != 0 && p.sqs[off + 5] == EMPTY && p.sqs[off + 6]
        == EMPTY && attacker_of(p.bb, off + 5, us).0 == EMPTY && attacker_of(p.bb, off + 6, us).0
        == EMPTY && attacker_of(p.bb, off + 4, us).0 == EMPTY;
    let qs = p.castling & queenside_right(us) != 0 && p.sqs[off + 3] == EMPTY && p.sqs[off + 2]
        == EMPTY && p.sqs[off + 1] == EMPTY && attacker_of(p.bb, off + 3, us).0 == EMPTY
        && attacker_of(p.bb, off + 2, us).0 == EMPTY && attacker_of(p.bb, off + 4, us).0 == EMPTY;
    (if ks {
        moves_of_bits(1u64 << ((off + 6) as u64), 2, CASTLES_KING)
    } else {
        Seq::empty()
    }) + (if qs {
        moves_of_bits(1u64 << ((off + 2) as u64), -2, CASTLES_QUEEN)
    } else {
        Seq::empty()
    })
}

/// The whole pseudo-legal move list, in emission order: queens, rooks,
/// bishops, knights, the king, the pawns, the castles.
pub open spec fn spec_get_moves(b: Board) -> Seq<Move> {
    p_moves(pos_of(b))
}

pub open spec fn p_moves(p: Pos) -> Seq<Move> {
    p_kind_moves(p, QUEEN, p.bb[piece(QUEEN, p.to_move) as int]) + p_kind_moves(
        p,
        ROOK,
        p.bb[piece(ROOK, p.to_move) as int],
    ) + p_kind_moves(p, BISHOP, p.bb[piece(BISHOP, p.to_move) as int]) + p_kind_moves(
        p,
        KNIGHT,
        p.bb[piece(KNIGHT, p.to_move) as int],
    ) + p_king_list(p) + p_pawn_list(p) + p_castle_list(p)
}

/// The abstract position after a move of the side to move: relocated
/// pieces and recomputed aggregates, updated rights, the new target of
/// a double push, and the turn passed.
pub open spec fn next_pos(p: Pos, m: Move) -> Pos {
    Pos {
        sqs: p_sqs_after(p, m),
        bb: p_bb_after(p, m),
        to_move: flip_color(p.to_move),
        castling: new_castling(p.castling, p.to_move, mv_from(m) as int, mv_to(m) as int),
        en_passant: if spec_is_double_push(m) {
            1u64 << (((mv_from(m) + mv_to(m)) / 2) as u64)
        } else {
            0u64
        },
    }
}

/// The perft recurrence: a position whose previous mover stands in
/// check counts zero, a leaf counts one, and otherwise the counts of
/// the successors of every generated move are summed.
pub open spec fn spec_perft(p: Pos, depth: nat) -> nat
    decreases depth, 0int, 0int,
{
    if p_in_check(p, flip_color(p.to_move)) {
        0
    } else if depth == 0 {
        1
    } else {
        perft_sum(p, p_moves(p), (depth - 1) as nat)
    }
}

/// The sum of the perft counts of the successors of the listed moves.
pub open spec fn perft_sum(p: Pos, moves: Seq<Move>, depth: nat) -> nat
    decreases depth, 1int, moves.len(),
{
    if moves.len() == 0 {
        0
    } else {
        spec_perft(next_pos(p, moves[0]), depth) + perft_sum(p, moves.drop_first(), depth)
    }
}

/// A node count clipped at the machine's limit, as the saturating sum
/// computes it.
pub open spec fn cap_count(n: nat) -> usize {
    if n > usize::MAX {
        usize::MAX
    } else {
        n as usize
    }
}

/// Summing one more successor adds its count.
proof fn lemma_perft_sum_push(p: Pos, moves: Seq<Move>, m: Move, depth: nat)
    ensures
        perft_sum(p, moves.push(m), depth) == perft_sum(p, moves, depth) + spec_perft(
            next_pos(p, m),
            depth,
        ),
    decreases moves.len(),
{
    if moves.len() == 0 {
        assert(moves.push(m).drop_first() =~= moves);
        assert(moves.push(m)[0] == m);
    } else {
        assert(moves.push(m).drop_first() =~= moves.drop_first().push(m));
        assert(moves.push(m)[0] == moves[0]);
        lemma_perft_sum_push(p, moves.drop_first(), m, depth);
    }
}

/// Saturating addition composes to the saturated exact sum.
proof fn lemma_sat_min(a: nat, b: nat, m: nat)
    ensures
        (if (if a > m {
            m
        } else {
            a
        }) + (if b > m {
            m
        } else {
            b
        }) > m {
            m
        } else {
            (if a > m {
                m
            } else {
                a
            }) + (if b > m {
                m
            } else {
                b
            })
        }) == (if a + b > m {
            m
        } else {
            a + b
        }),
{
}

impl Board {
    /// Bulk moves of one non-pawn, non-king piece kind: the attack set of
    /// each such piece, split into quiet moves and captures.
    #[verifier::rlimit(60)]
    fn gen_for_kind(&self, moves: &mut Vec<Move>, kind: u8, occ: u64, enemies: u64)
        requires
            board_ok(*self),
            kind == QUEEN || kind == ROOK || kind == BISHOP || kind == KNIGHT,
            occ == occ_of(*self),
            enemies == enemies_of(*self),
            forall|t: u64| t < 64 ==> (bit64(occ, t) <==> self.sqs@[t as int] != EMPTY),
            forall|t: u64|
                t < 64 && bit64(enemies, t) ==> (self.sqs@[t as int] != EMPTY && self.sqs@[t as int] % 2 == flip_color(self.to_move)),
        ensures
            final(moves)@ == old(moves)@ + kind_moves(
                *self,
                kind,
                self.bb@[piece(kind, self.to_move) as int],
            ),
            final(moves)@.len() >= old(moves)@.len(),
            forall|i: int| 0 <= i < old(moves)@.len() ==> final(moves)@[i] == old(moves)@[i],
            forall|i: int|
                old(moves)@.len() <= i < final(moves)@.len() ==> gen_ok(*self, final(moves)@[i]),
    {
        let us = self.to_move;
        proof {
            lemma_piece_fields(kind, us);
        }
        let mut pieces = self.bb[(kind | us) as usize];
        while pieces != 0
            invariant
                board_ok(*self),
                kind == QUEEN || kind == ROOK || kind == BISHOP || kind == KNIGHT,
                us == self.to_move,
                occ == occ_of(*self),
                enemies == enemies_of(*self),
                forall|t: u64| t < 64 ==> (bit64(occ, t) <==> self.sqs@[t as int] != EMPTY),
                forall|t: u64|
                    t < 64 && bit64(enemies, t) ==> (self.sqs@[t as int] != EMPTY && self.sqs@[t as int] % 2 == flip_color(us)),
                forall|t: u64|
                    t < 64 && bit64(pieces, t) ==> bit64(
                        self.bb@[piece(kind, us) as int],
                        t,
                    ),
                moves@.len() >= old(moves)@.len(),
                old(moves)@ + kind_moves(*self, kind, self.bb@[piece(kind, us) as int]) == moves@
                    + kind_moves(*self, kind, pieces),
                forall|i: int| 0 <= i < old(moves)@.len() ==> moves@[i] == old(moves)@[i],
                forall|i: int|
                    old(moves)@.len() <= i < moves@.len() ==> gen_ok(*self, moves@[i]),
            decreases pieces,
        {
            let from = crate::bits::lsb(pieces);
            proof {
                lemma_clear_bit_decreases(pieces, from as u64);
                let cleared = pieces ^ (1u64 << (from as u64));
                assert forall|u: u64| u < 64 && bit64(cleared, u) implies bit64(pieces, u) by {
                    lemma_bit_xor(pieces, 1u64 << (from as u64), u);
                    lemma_bit_single(from as u64, u);
                }
                assert(board_bit(*self, piece(kind, us), from as int));
                assert(self.sqs@[from as int] == piece(kind, us));
            }
            let ghost pieces0 = pieces;
            let ghost pre = moves@;
            pieces = pieces ^ (1u64 << (from as u64));
            let mvs = if kind == QUEEN {
                queen_moves(from, occ)
            } else if kind == ROOK {
                rook_moves(from, occ)
            } else if kind == BISHOP {
                bishop_moves(from, occ)
            } else {
                knight_moves(from)
            };
            proof {
                lemma_flags_of(0);
                lemma_flags_of(1);
                assert forall|t: u64| t < 64 && bit64(mvs & !occ, t) implies gen_ok(
                    *self,
                    mk_move(from as u64, t, 0),
                ) by {
                    lemma_bit_and(mvs, !occ, t);
                    lemma_bit_not(occ, t);
                    lemma_mk(from as u64, t, 0);
                }
                assert forall|t: u64| t < 64 && bit64(mvs & enemies, t) implies gen_ok(
                    *self,
                    mk_move(from as u64, t, IS_CAPTURE),
                ) by {
                    lemma_bit_and(mvs, enemies, t);
                    lemma_mk(from as u64, t, IS_CAPTURE);
                }
            }
            add_moves_from(moves, from, mvs & !occ, 0, Ghost(*self));
            add_moves_from(moves, from, mvs & enemies, IS_CAPTURE, Ghost(*self));
            proof {
                let c1 = moves_from_bits(from as u64, mvs & !occ, 0);
                let c2 = moves_from_bits(from as u64, mvs & enemies, IS_CAPTURE);
                assert(kind_moves(*self, kind, pieces0) == c1 + c2 + kind_moves(
                    *self,
                    kind,
                    pieces,
                ));
                assert(pre + ((c1 + c2) + kind_moves(*self, kind, pieces)) =~= ((pre + c1) + c2)
                    + kind_moves(*self, kind, pieces));
            }
        }
        proof {
            assert(old(moves)@ + kind_moves(*self, kind, self.bb@[piece(kind, us) as int])
                =~= moves@);
        }
    }

    /// Every pawn move at once, by shifting the pawn board: single and
    /// double pushes onto empty squares, diagonal captures clipped at the
    /// board edge, en-passant captures onto the target, and promotions
    /// expanded four ways.
    #[verifier::rlimit(100)]
    #[verifier::spinoff_prover]
    fn gen_pawn_moves(&self, moves: &mut Vec<Move>, occ: u64, enemies: u64)
        requires
            board_ok(*self),
            ep_sound(*self),
            occ == occ_of(*self),
            enemies == enemies_of(*self),
            forall|t: u64| t < 64 ==> (bit64(occ, t) <==> self.sqs@[t as int] != EMPTY),
            forall|t: u64|
                t < 64 && bit64(enemies, t) ==> (self.sqs@[t as int] != EMPTY && self.sqs@[t as int] % 2 == flip_color(self.to_move)),
        ensures
            final(moves)@ == old(moves)@ + pawn_moves_list(*self),
            final(moves)@.len() >= old(moves)@.len(),
            forall|i: int| 0 <= i < old(moves)@.len() ==> final(moves)@[i] == old(moves)@[i],
            forall|i: int|
                old(moves)@.len() <= i < final(moves)@.len() ==> gen_ok(*self, final(moves)@[i]),
    {
        let us = self.to_move;
        let opp = flip(us);
        proof {
            lemma_piece_fields(PAWN, us);
            lemma_piece_fields(PAWN, opp);
            lemma_flags_of(0);
            lemma_flags_of(1);
            lemma_flags_of(2);
            lemma_flags_of(5);
            assert(EN_PASSANT | IS_CAPTURE == 5u32) by (bit_vector);
            if self.en_passant != 0 {
                vstd::std_specs::bits::axiom_u64_trailing_zeros(self.en_passant);
            }
        }
        let pawns = self.bb[(PAWN | us) as usize];
        let ep = self.en_passant;
        let file_a = 0x0101010101010101u64;
        let file_h = file_a << 7;
        let ghost b = *self;
        proof {
            assert forall|t: u64| t < 64 && bit64(pawns, t) implies b.sqs@[t as int] == piece(
                PAWN,
                us,
            ) by {
                assert(board_bit(b, piece(PAWN, us), t as int));
            }
            assert forall|t: u64| t < 64 && bit64(ep, t) implies t
                == u64_trailing_zeros(ep) as u64 by {
                lemma_bit_zero(t);
                lemma_bit_single(u64_trailing_zeros(ep) as u64, t);
            }
        }
        if us == WHITE {
            let row_3 = 0xFFu64 << 16;
            let row_8 = 0xFFu64 << 56;
            let pushes = (pawns << 8) & !occ;
            let double_pushes = ((pushes & row_3) << 8) & !occ;
            let left_attacks = (pawns << 7) & (enemies | ep) & !file_h;
            let right_attacks = (pawns << 9) & (enemies | ep) & !file_a;
            let l_ep = left_attacks & ep;
            let r_ep = right_attacks & ep;
            let prom_pushes = pushes & row_8;
            let prom_l = left_attacks & row_8;
            let prom_r = right_attacks & row_8;
            proof {
                assert forall|t: u64| t < 64 && bit64(pushes, t) implies t >= 8 && bit64(
                    pawns,
                    (t - 8) as u64,
                ) && b.sqs@[t as int] == EMPTY by {
                    lemma_bit_and(pawns << 8, !occ, t);
                    lemma_bit_not(occ, t);
                    lemma_bit_shl(pawns, 8, t);
                }
                assert forall|t: u64| t < 64 && bit64(left_attacks, t) implies t >= 7 && bit64(
                    pawns,
                    (t - 7) as u64,
                ) && t % 8 != 7 by {
                    lemma_bit_and((pawns << 7) & (enemies | ep), !file_h, t);
                    lemma_bit_and(pawns << 7, enemies | ep, t);
                    lemma_bit_not(file_h, t);
                    lemma_bit_shl(pawns, 7, t);
                    lemma_file_mask(7, t);
                }
                assert forall|t: u64| t < 64 && bit64(right_attacks, t) implies t >= 9 && bit64(
                    pawns,
                    (t - 9) as u64,
                ) && t % 8 != 0 by {
                    lemma_bit_and((pawns << 9) & (enemies | ep), !file_a, t);
                    lemma_bit_and(pawns << 9, enemies | ep, t);
                    lemma_bit_not(file_a, t);
                    lemma_bit_shl(pawns, 9, t);
                    assert(0x0101010101010101u64 == 0x0101010101010101u64 << 0) by (bit_vector);
                    lemma_file_mask(0, t);
                }
                // quiet pushes below the last rank
                assert forall|t: u64| t < 64 && bit64(pushes ^ prom_pushes, t) implies
                    src_in_range(t, 8) && gen_ok(b, mk_move((t - 8) as u64, t, 0)) by {
                    lemma_bit_xor(pushes, prom_pushes, t);
                    lemma_bit_and(pushes, row_8, t);
                    lemma_mk((t - 8) as u64, t, 0);
                }
                // double pushes: from the home rank, over an empty square
                assert forall|t: u64| t < 64 && bit64(double_pushes, t) implies src_in_range(
                    t,
                    16,
                ) && gen_ok(b, mk_move((t - 16) as u64, t, DOUBLE_PAWN_PUSH)) by {
                    lemma_bit_and((pushes & row_3) << 8, !occ, t);
                    lemma_bit_shl(pushes & row_3, 8, t);
                    lemma_bit_and(pushes, row_3, (t - 8) as u64);
                    lemma_rank_mask(2, (t - 8) as u64);
                    lemma_mk((t - 16) as u64, t, DOUBLE_PAWN_PUSH);
                    assert(bit64(pawns, (t - 16) as u64));
                }
                // plain captures: not onto the target, not promoting
                assert forall|t: u64| t < 64 && bit64(left_attacks ^ l_ep ^ prom_l, t) implies
                    src_in_range(t, 7) && gen_ok(b, mk_move((t - 7) as u64, t, IS_CAPTURE)) by {
                    lemma_bit_xor(left_attacks ^ l_ep, prom_l, t);
                    lemma_bit_xor(left_attacks, l_ep, t);
                    lemma_bit_and(left_attacks, ep, t);
                    lemma_bit_and(left_attacks, row_8, t);
                    lemma_mk((t - 7) as u64, t, IS_CAPTURE);
                }
                assert forall|t: u64| t < 64 && bit64(right_attacks ^ r_ep ^ prom_r, t) implies
                    src_in_range(t, 9) && gen_ok(b, mk_move((t - 9) as u64, t, IS_CAPTURE)) by {
                    lemma_bit_xor(right_attacks ^ r_ep, prom_r, t);
                    lemma_bit_xor(right_attacks, r_ep, t);
                    lemma_bit_and(right_attacks, ep, t);
                    lemma_bit_and(right_attacks, row_8, t);
                    lemma_mk((t - 9) as u64, t, IS_CAPTURE);
                }
                // en-passant captures onto the target square
                assert forall|t: u64| t < 64 && bit64(l_ep, t) implies src_in_range(t, 7) && gen_ok(
                    b,
                    mk_move((t - 7) as u64, t, 5),
                ) by {
                    lemma_bit_and(left_attacks, ep, t);
                    lemma_mk((t - 7) as u64, t, 5);
                }
                assert forall|t: u64| t < 64 && bit64(r_ep, t) implies src_in_range(t, 9) && gen_ok(
                    b,
                    mk_move((t - 9) as u64, t, 5),
                ) by {
                    lemma_bit_and(right_attacks, ep, t);
                    lemma_mk((t - 9) as u64, t, 5);
                }
                // promotions
                assert forall|t: u64| t < 64 && bit64(prom_pushes, t) implies src_in_range(t, 8)
                    && prom_gen_ok(b, (t - 8) as u64, t, 0) by {
                    lemma_bit_and(pushes, row_8, t);
                    lemma_proms(b, (t - 8) as u64, t, 0);
                }
                assert forall|t: u64| t < 64 && bit64(prom_l, t) implies src_in_range(t, 7)
                    && prom_gen_ok(b, (t - 7) as u64, t, 1) by {
                    lemma_bit_and(left_attacks, row_8, t);
                    lemma_proms(b, (t - 7) as u64, t, 1);
                }
                assert forall|t: u64| t < 64 && bit64(prom_r, t) implies src_in_range(t, 9)
                    && prom_gen_ok(b, (t - 9) as u64, t, 1) by {
                    lemma_bit_and(right_attacks, row_8, t);
                    lemma_proms(b, (t - 9) as u64, t, 1);
                }
            }
            let ghost pre = moves@;
            add_moves(moves, pushes ^ prom_pushes, 8, 0, Ghost(b));
            add_moves(moves, double_pushes, 16, DOUBLE_PAWN_PUSH, Ghost(b));
            add_moves(moves, left_attacks ^ l_ep ^ prom_l, 7, IS_CAPTURE, Ghost(b));
            add_moves(moves, right_attacks ^ r_ep ^ prom_r, 9, IS_CAPTURE, Ghost(b));
            add_moves(moves, l_ep, 7, EN_PASSANT | IS_CAPTURE, Ghost(b));
            add_moves(moves, r_ep, 9, EN_PASSANT | IS_CAPTURE, Ghost(b));
            add_prom_moves(moves, prom_pushes, 8, 0, Ghost(b));
            add_prom_moves(moves, prom_l, 7, IS_CAPTURE, Ghost(b));
            add_prom_moves(moves, prom_r, 9, IS_CAPTURE, Ghost(b));
            proof {
                assert(moves@ =~= pre + pawn_moves_list(b));
            }
        } else {
            let row_3 = 0xFFu64 << 40;
            let row_8 = 0xFFu64;
            let pushes = (pawns >> 8) & !occ;
            let double_pushes = ((pushes & row_3) >> 8) & !occ;
            let left_attacks = (pawns >> 9) & (enemies | ep) & !file_h;
            let right_attacks = (pawns >> 7) & (enemies | ep) & !file_a;
            let l_ep = left_attacks & ep;
            let r_ep = right_attacks & ep;
            let prom_pushes = pushes & row_8;
            let prom_l = left_attacks & row_8;
            let prom_r = right_attacks & row_8;
            proof {
                assert forall|t: u64| t < 64 && bit64(pushes, t) implies t + 8 < 64 && bit64(
                    pawns,
                    (t + 8) as u64,
                ) && b.sqs@[t as int] == EMPTY by {
                    lemma_bit_and(pawns >> 8, !occ, t);
                    lemma_bit_not(occ, t);
                    lemma_bit_shr(pawns, 8, t);
                }
                assert forall|t: u64| t < 64 && bit64(left_attacks, t) implies t + 9 < 64 && bit64(
                    pawns,
                    (t + 9) as u64,
                ) && t % 8 != 7 by {
                    lemma_bit_and((pawns >> 9) & (enemies | ep), !file_h, t);
                    lemma_bit_and(pawns >> 9, enemies | ep, t);
                    lemma_bit_not(file_h, t);
                    lemma_bit_shr(pawns, 9, t);
                    lemma_file_mask(7, t);
                }
                assert forall|t: u64| t < 64 && bit64(right_attacks, t) implies t + 7 < 64 && bit64(
                    pawns,
                    (t + 7) as u64,
                ) && t % 8 != 0 by {
                    lemma_bit_and((pawns >> 7) & (enemies | ep), !file_a, t);
                    lemma_bit_and(pawns >> 7, enemies | ep, t);
                    lemma_bit_not(file_a, t);
                    lemma_bit_shr(pawns, 7, t);
                    assert(0x0101010101010101u64 == 0x0101010101010101u64 << 0) by (bit_vector);
                    lemma_file_mask(0, t);
                }
                assert forall|t: u64| t < 64 && bit64(pushes ^ prom_pushes, t) implies
                    src_in_range(t, -8i32) && gen_ok(b, mk_move((t + 8) as u64, t, 0)) by {
                    lemma_bit_xor(pushes, prom_pushes, t);
                    lemma_bit_and(pushes, row_8, t);
                    lemma_mk((t + 8) as u64, t, 0);
                }
                assert forall|t: u64| t < 64 && bit64(double_pushes, t) implies src_in_range(
                    t,
                    -16i32,
                ) && gen_ok(b, mk_move((t + 16) as u64, t, DOUBLE_PAWN_PUSH)) by {
                    lemma_bit_and((pushes & row_3) >> 8, !occ, t);
                    lemma_bit_shr(pushes & row_3, 8, t);
                    lemma_bit_and(pushes, row_3, (t + 8) as u64);
                    lemma_rank_mask(5, (t + 8) as u64);
                    lemma_mk((t + 16) as u64, t, DOUBLE_PAWN_PUSH);
                    assert(bit64(pawns, (t + 16) as u64));
                }
                assert forall|t: u64| t < 64 && bit64(left_attacks ^ l_ep ^ prom_l, t) implies
                    src_in_range(t, -9i32) && gen_ok(b, mk_move((t + 9) as u64, t, IS_CAPTURE)) by {
                    lemma_bit_xor(left_attacks ^ l_ep, prom_l, t);
                    lemma_bit_xor(left_attacks, l_ep, t);
                    lemma_bit_and(left_attacks, ep, t);
                    lemma_bit_and(left_attacks, row_8, t);
                    lemma_mk((t + 9) as u64, t, IS_CAPTURE);
                }
                assert forall|t: u64| t < 64 && bit64(right_attacks ^ r_ep ^ prom_r, t) implies
                    src_in_range(t, -7i32) && gen_ok(b, mk_move((t + 7) as u64, t, IS_CAPTURE)) by {
                    lemma_bit_xor(right_attacks ^ r_ep, prom_r, t);
                    lemma_bit_xor(right_attacks, r_ep, t);
                    lemma_bit_and(right_attacks, ep, t);
                    lemma_bit_and(right_attacks, row_8, t);
                    lemma_mk((t + 7) as u64, t, IS_CAPTURE);
                }
                assert forall|t: u64| t < 64 && bit64(l_ep, t) implies src_in_range(t, -9i32)
                    && gen_ok(b, mk_move((t + 9) as u64, t, 5)) by {
                    lemma_bit_and(left_attacks, ep, t);
                    lemma_mk((t + 9) as u64, t, 5);
                }
                assert forall|t: u64| t < 64 && bit64(r_ep, t) implies src_in_range(t, -7i32)
                    && gen_ok(b, mk_move((t + 7) as u64, t, 5)) by {
                    lemma_bit_and(right_attacks, ep, t);
                    lemma_mk((t + 7) as u64, t, 5);
                }
                assert forall|t: u64| t < 64 && bit64(prom_pushes, t) implies src_in_range(t, -8i32)
                    && prom_gen_ok(b, (t + 8) as u64, t, 0) by {
                    lemma_bit_and(pushes, row_8, t);
                    lemma_proms(b, (t + 8) as u64, t, 0);
                }
                assert forall|t: u64| t < 64 && bit64(prom_l, t) implies src_in_range(t, -9i32)
                    && prom_gen_ok(b, (t + 9) as u64, t, 1) by {
                    lemma_bit_and(left_attacks, row_8, t);
                    lemma_proms(b, (t + 9) as u64, t, 1);
                }
                assert forall|t: u64| t < 64 && bit64(prom_r, t) implies src_in_range(t, -7i32)
                    && prom_gen_ok(b, (t + 7) as u64, t, 1) by {
                    lemma_bit_and(right_attacks, row_8, t);
                    lemma_proms(b, (t + 7) as u64, t, 1);
                }
            }
            let ghost pre = moves@;
            add_moves(moves, pushes ^ prom_pushes, -8, 0, Ghost(b));
            add_moves(moves, double_pushes, -16, DOUBLE_PAWN_PUSH, Ghost(b));
            add_moves(moves, left_attacks ^ l_ep ^ prom_l, -9, IS_CAPTURE, Ghost(b));
            add_moves(moves, right_attacks ^ r_ep ^ prom_r, -7, IS_CAPTURE, Ghost(b));
            add_moves(moves, l_ep, -9, EN_PASSANT | IS_CAPTURE, Ghost(b));
            add_moves(moves, r_ep, -7, EN_PASSANT | IS_CAPTURE, Ghost(b));
            add_prom_moves(moves, prom_pushes, -8, 0, Ghost(b));
            add_prom_moves(moves, prom_l, -9, IS_CAPTURE, Ghost(b));
            add_prom_moves(moves, prom_r, -7, IS_CAPTURE, Ghost(b));
            proof {
                assert(moves@ =~= pre + pawn_moves_list(b));
            }
        }
    }

    /// Pseudo-legal moves of the side to move: bulk piece moves, the
    /// king's, every pawn move, and the castles whose path is clear and
    /// unattacked. Self-check is not filtered here; the caller tests the
    /// resulting position.
    #[verifier::rlimit(100)]
    #[verifier::spinoff_prover]
    pub fn get_moves(&self) -> (r: Vec<Move>)
        requires
            board_ok(*self),
            ep_sound(*self),
        ensures
            r@ == spec_get_moves(*self),
            forall|i: int| 0 <= i < r@.len() ==> gen_ok(*self, r@[i]),
    {
        let us = self.to_move;
        let opp = flip(us);
        proof {
            lemma_piece_fields(ALL, us);
            lemma_piece_fields(ALL, opp);
            lemma_piece_fields(KING, us);
        }
        let enemies = self.bb[(ALL | opp) as usize];
        let occ = self.bb[(ALL | us) as usize] | enemies;
        proof {
            assert(occ == occ_of(*self));
            assert(enemies == enemies_of(*self));
            assert forall|t: u64| t < 64 implies (bit64(occ, t) <==> self.sqs@[t as int]
                != EMPTY) by {
                lemma_bit_or(self.bb@[(14 + us) as int], self.bb@[(14 + opp) as int], t);
                assert(board_bit(*self, ALL, t as int) == bit64(self.bb@[14], t));
                assert(board_bit(*self, (ALL + 1) as u8, t as int) == bit64(self.bb@[15], t));
            }
            assert forall|t: u64| t < 64 && bit64(enemies, t) implies (self.sqs@[t as int] != EMPTY
                && self.sqs@[t as int] % 2 == flip_color(us)) by {
                assert(board_bit(*self, ALL, t as int) == bit64(self.bb@[14], t));
                assert(board_bit(*self, (ALL + 1) as u8, t as int) == bit64(self.bb@[15], t));
            }
        }
        let mut moves: Vec<Move> = Vec::new();

        self.gen_for_kind(&mut moves, QUEEN, occ, enemies);
        self.gen_for_kind(&mut moves, ROOK, occ, enemies);
        self.gen_for_kind(&mut moves, BISHOP, occ, enemies);
        self.gen_for_kind(&mut moves, KNIGHT, occ, enemies);
        let ghost pieces_part = kind_moves(*self, QUEEN, self.bb@[piece(QUEEN, us) as int])
            + kind_moves(*self, ROOK, self.bb@[piece(ROOK, us) as int]) + kind_moves(
            *self,
            BISHOP,
            self.bb@[piece(BISHOP, us) as int],
        ) + kind_moves(*self, KNIGHT, self.bb@[piece(KNIGHT, us) as int]);
        proof {
            assert(moves@ =~= pieces_part);
        }

        let kb = self.bb[(KING | us) as usize];
        let ghost pre_king = moves@;
        if kb != 0 {
            let from = crate::bits::lsb(kb);
            let mvs = king_moves(from);
            proof {
                assert(board_bit(*self, piece(KING, us), from as int));
                lemma_flags_of(0);
                lemma_flags_of(1);
                assert forall|t: u64| t < 64 && bit64(mvs & !occ, t) implies gen_ok(
                    *self,
                    mk_move(from as u64, t, 0),
                ) by {
                    lemma_bit_and(mvs, !occ, t);
                    lemma_bit_not(occ, t);
                    lemma_mk(from as u64, t, 0);
                }
                assert forall|t: u64| t < 64 && bit64(mvs & enemies, t) implies gen_ok(
                    *self,
                    mk_move(from as u64, t, IS_CAPTURE),
                ) by {
                    lemma_bit_and(mvs, enemies, t);
                    lemma_mk(from as u64, t, IS_CAPTURE);
                }
            }
            add_moves_from(&mut moves, from, mvs & !occ, 0, Ghost(*self));
            add_moves_from(&mut moves, from, mvs & enemies, IS_CAPTURE, Ghost(*self));
        }
        proof {
            assert(moves@ =~= pre_king + king_moves_list(*self));
            assert(moves@ =~= pieces_part + king_moves_list(*self));
        }

        self.gen_pawn_moves(&mut moves, occ, enemies);
        proof {
            assert(moves@ =~= (pieces_part + king_moves_list(*self)) + pawn_moves_list(*self));
        }

        let off = Board::color_offset(us);
        let k_right = kingside_bit(us);
        let q_right = queenside_bit(us);

        if self.castling & k_right != 0 && self.sqs[off + 5] == EMPTY && self.sqs[off + 6] == EMPTY
            && self.attacker((off + 5) as u32, us).0 == EMPTY && self.attacker(
            (off + 6) as u32,
            us,
        ).0 == EMPTY && self.attacker((off + 4) as u32, us).0 == EMPTY {
            proof {
                lemma_flags_of(CASTLES_KING);
                let t = (off + 6) as u64;
                lemma_mk((off + 4) as u64, t, CASTLES_KING);
                assert forall|u: u64| u < 64 && bit64(1u64 << t, u) implies u == t by {
                    lemma_bit_single(t, u);
                }
            }
            add_moves(&mut moves, 1u64 << ((off + 6) as u64), 2, CASTLES_KING, Ghost(*self));
        }
        let ghost pre_qs = moves@;
        if self.castling & q_right != 0 && self.sqs[off + 3] == EMPTY && self.sqs[off + 2] == EMPTY
            && self.sqs[off + 1] == EMPTY && self.attacker((off + 3) as u32, us).0 == EMPTY
            && self.attacker((off + 2) as u32, us).0 == EMPTY && self.attacker(
            (off + 4) as u32,
            us,
        ).0 == EMPTY {
            proof {
                lemma_flags_of(CASTLES_QUEEN);
                let t = (off + 2) as u64;
                lemma_mk((off + 4) as u64, t, CASTLES_QUEEN);
                assert forall|u: u64| u < 64 && bit64(1u64 << t, u) implies u == t by {
                    lemma_bit_single(t, u);
                }
            }
            add_moves(&mut moves, 1u64 << ((off + 2) as u64), -2, CASTLES_QUEEN, Ghost(*self));
        }
        proof {
            assert(moves@ =~= ((pieces_part + king_moves_list(*self)) + pawn_moves_list(*self))
                + castle_moves_list(*self));
            assert(moves@ =~= spec_get_moves(*self));
        }
        moves
    }
}

impl Board {
    /// Assemble a position from its parsed fields: derive the bitboards
    /// by a full scan of the squares and the hash from scratch.
    fn from_parts(sqs: Vec<u8>, to_move: u8, castling: u8, ep: u64) -> (b: Board)
        requires
            sqs@.len() == 64,
            forall|j: int| 0 <= j < 64 ==> is_square_code(#[trigger] sqs@[j]),
            is_color(to_move),
            castling < 16,
            ep_ok(ep),
        ensures
            board_ok(b),
            b.sqs@ == sqs@,
            b.to_move == to_move,
            b.castling == castling,
            b.en_passant == ep,
            b.ply == 0,
            ep == 0 ==> ep_sound(b),
    {
        let ghost sqv = sqs@;
        let mut bbv: Vec<u64> = Vec::new();
        let mut k: usize = 0;
        while k < 16
            invariant
                bbv@.len() == k,
                k <= 16,
                forall|p: int| 0 <= p < k ==> bbv@[p] == 0,
            decreases 16 - k,
        {
            bbv.push(0);
            k = k + 1;
        }
        proof {
            assert forall|p: u8, j: u64| is_piece(p) && j < 64 implies !(#[trigger] bit64(
                bbv@[p as int],
                j,
            )) by {
                lemma_bit_zero(j);
            }
        }
        let mut sq: usize = 0;
        let mut h: u64 = 0;
        let zobrist = Zobrist::new();
        while sq < 64
            invariant
                zobrist_ok(zobrist),
                sq <= 64,
                sqs@ == sqv,
                sqs@.len() == 64,
                forall|j: int| 0 <= j < 64 ==> is_square_code(#[trigger] sqs@[j]),
                bbv@.len() == 16,
                bbv@[0] == 0,
                bbv@[1] == 0,
                h == sq_hash(sqv, sq as int),
                forall|p: u8, j: u64|
                    is_piece(p) && j < 64 ==> (#[trigger] bit64(bbv@[p as int], j) <==> (j < sq
                        && sqv[j as int] == p)),
            decreases 64 - sq,
        {
            let pc = sqs[sq];
            let ghost prev = bbv@;
            if pc != EMPTY {
                let w = bbv[pc as usize];
                bbv[pc as usize] = w | (1u64 << (sq as u64));
                h = h ^ zobrist.piece_key(pc, sq);
            }
            proof {
                assert forall|p: u8, j: u64| is_piece(p) && j < 64 implies (#[trigger] bit64(
                    bbv@[p as int],
                    j,
                ) <==> (j < sq + 1 && sqv[j as int] == p)) by {
                    if pc != EMPTY && p == pc {
                        lemma_bit_or(prev[p as int], 1u64 << (sq as u64), j);
                        lemma_bit_single(sq as u64, j);
                    }
                }
                if pc == EMPTY {
                    assert(piece_word(sqv[sq as int], sq as int) == 0);
                    lemma_xor_zero(h);
                    assert(h ^ 0u64 == sq_hash(sqv, sq as int + 1));
                }
            }
            sq = sq + 1;
        }
        let ck = zobrist.castle_key(castling);
        h = h ^ ck;
        let ek = zobrist.ep_key(ep);
        h = h ^ ek;
        if to_move == BLACK {
            let dk = zobrist.side_key();
            h = h ^ dk;
        }
        proof {
            if to_move != BLACK {
                lemma_xor_zero((sq_hash(sqv, 64) ^ castle_hash(castling)) ^ ep_hash(ep));
            }
        }
        let mut b = Board {
            bb: bbv,
            sqs,
            ply: 0,
            to_move,
            hash: h,
            castling,
            en_passant: ep,
            zobrist,
        };
        proof {
            assert forall|p: u8, j: int| is_piece(p) && 0 <= j < 64 implies (#[trigger] board_bit(
                b,
                p,
                j,
            ) <==> b.sqs@[j] == p) by {
                assert(bit64(b.bb@[p as int], j as u64) <==> (j < 64 && sqv[j] == p));
            }
        }
        b.set_all();
        b
    }

    /// The standard initial position.
    pub fn start_position() -> (b: Board)
        ensures
            board_ok(b),
            ep_sound(b),
            b.sqs@ == start_sqs(),
            b.to_move == WHITE,
            b.castling == 15,
            b.en_passant == 0,
            b.ply == 0,
    {
        proof {
            lemma_all_pieces();
        }
        let mut sqs: Vec<u8> = Vec::new();
        sqs.push(ROOK | WHITE);
        sqs.push(KNIGHT | WHITE);
        sqs.push(BISHOP | WHITE);
        sqs.push(QUEEN | WHITE);
        sqs.push(KING | WHITE);
        sqs.push(BISHOP | WHITE);
        sqs.push(KNIGHT | WHITE);
        sqs.push(ROOK | WHITE);
        let ghost back = sqs@;
        let mut i: usize = 0;
        while i < 8
            invariant
                i <= 8,
                sqs@.len() == 8 + i,
                sqs@.take(8) == back,
                forall|t: int| 8 <= t < sqs@.len() ==> sqs@[t] == piece(PAWN, WHITE),
            decreases 8 - i,
        {
            proof {
                lemma_all_pieces();
            }
            sqs.push(PAWN | WHITE);
            proof {
                assert(sqs@.take(8) =~= back);
            }
            i = i + 1;
        }
        let mut j: usize = 0;
        while j < 32
            invariant
                j <= 32,
                sqs@.len() == 16 + j,
                sqs@.take(8) == back,
                forall|t: int| 8 <= t < 16 ==> sqs@[t] == piece(PAWN, WHITE),
                forall|t: int| 16 <= t < sqs@.len() ==> sqs@[t] == EMPTY,
            decreases 32 - j,
        {
            sqs.push(EMPTY);
            proof {
                assert(sqs@.take(8) =~= back);
            }
            j = j + 1;
        }
        let mut i2: usize = 0;
        while i2 < 8
            invariant
                i2 <= 8,
                sqs@.len() == 48 + i2,
                sqs@.take(8) == back,
                forall|t: int| 8 <= t < 16 ==> sqs@[t] == piece(PAWN, WHITE),
                forall|t: int| 16 <= t < 48 ==> sqs@[t] == EMPTY,
                forall|t: int| 48 <= t < sqs@.len() ==> sqs@[t] == piece(PAWN, BLACK),
            decreases 8 - i2,
        {
            proof {
                lemma_all_pieces();
            }
            sqs.push(PAWN | BLACK);
            proof {
                assert(sqs@.take(8) =~= back);
            }
            i2 = i2 + 1;
        }
        sqs.push(ROOK | BLACK);
        sqs.push(KNIGHT | BLACK);
        sqs.push(BISHOP | BLACK);
        sqs.push(QUEEN | BLACK);
        sqs.push(KING | BLACK);
        sqs.push(BISHOP | BLACK);
        sqs.push(KNIGHT | BLACK);
        sqs.push(ROOK | BLACK);
        proof {
            assert((1u8 | 2u8 | 4u8 | 8u8) == 15u8) by (bit_vector);
            assert forall|t: int| 0 <= t < 8 implies sqs@[t] == start_sqs()[t] by {
                assert(sqs@[t] == back[t]);
            }
            assert(sqs@ =~= start_sqs());
        }
        Board::from_parts(sqs, WHITE, WK_CASTLE | WQ_CASTLE | BK_CASTLE | BQ_CASTLE, 0)
    }

    /// Parse a FEN string. The placement, side, castling and en-passant
    /// fields must be present; the clock fields are ignored. An
    /// en-passant token naming a square that no enemy pawn just
    /// double-pushed past is an illegal token and is rejected.
    pub fn from_fen(fen: &str) -> (r: Result<Board, ParseError>)
        ensures
            (r is Ok) <==> (spec_fen_fields(fen.spec_bytes()) is Some),
            r matches Ok(b) ==> {
                let (sqv, side, castling, ep) = spec_fen_fields(fen.spec_bytes()).unwrap();
                &&& board_ok(b)
                &&& b.sqs@ == sqv
                &&& b.to_move == side
                &&& b.castling == castling
                &&& b.en_passant == ep
                &&& b.ply == 0
                &&& ep_sound(b)
            },
    {
        let s = fen.as_bytes();
        let mut sqs0: Vec<u8> = Vec::new();
        let mut k: usize = 0;
        while k < 64
            invariant
                k <= 64,
                sqs0@.len() == k,
                forall|j: int| 0 <= j < k ==> sqs0@[j] == EMPTY,
            decreases 64 - k,
        {
            sqs0.push(EMPTY);
            k = k + 1;
        }
        proof {
            assert(sqs0@ =~= Seq::new(64, |j: int| EMPTY));
        }
        let placed = parse_place(s, 0, 7, 0, sqs0);
        let (sqs, i1) = match placed {
            Ok(p) => p,
            Err(e) => {
                return Err(e);
            },
        };
        let i2 = skip_sp(s, i1);
        if i2 >= s.len() {
            return Err(ParseError::Placement);
        }
        let side = if s[i2] == 119 {
            WHITE
        } else {
            BLACK
        };
        let i3 = skip_sp(s, i2 + 1);
        let (castling, i4) = parse_castle(s, i3, 0);
        let i5 = skip_sp(s, i4);
        if i5 >= s.len() {
            return Err(ParseError::EnPassant);
        }
        if s[i5] == 45 {
            return Ok(Board::from_parts(sqs, side, castling, 0));
        }
        if 97 <= s[i5] && s[i5] <= 104 && i5 + 1 < s.len() && (s[i5 + 1] == 51 || s[i5 + 1] == 54) {
            let f = s[i5] - 97;
            if s[i5 + 1] == 51 {
                if side == BLACK && sqs[24 + f as usize] == PAWN | WHITE {
                    let e = (16 + f) as u64;
                    proof {
                        lemma_tz_single(e);
                        lemma_all_pieces();
                    }
                    Ok(Board::from_parts(sqs, side, castling, 1u64 << e))
                } else {
                    proof {
                        lemma_all_pieces();
                    }
                    Err(ParseError::EnPassant)
                }
            } else {
                if side == WHITE && sqs[32 + f as usize] == PAWN | BLACK {
                    let e = (40 + f) as u64;
                    proof {
                        lemma_tz_single(e);
                        lemma_all_pieces();
                    }
                    Ok(Board::from_parts(sqs, side, castling, 1u64 << e))
                } else {
                    proof {
                        lemma_all_pieces();
                    }
                    Err(ParseError::EnPassant)
                }
            }
        } else {
            Err(ParseError::EnPassant)
        }
    }

    /// The FEN text of the position, with zeroed clock fields.
    pub fn to_fen(&self) -> (r: Vec<u8>)
        requires
            wf_base(*self),
        ensures
            r@ == spec_to_fen(*self),
    {
        let acc: Vec<u8> = Vec::new();
        let mut out = emit_place(&self.sqs, 7, acc);
        out.push(32);
        out.push(
            if self.to_move == WHITE {
                119
            } else {
                98
            },
        );
        out.push(32);
        if self.castling == 0 {
            out.push(45);
        } else {
            if self.castling & WK_CASTLE != 0 {
                out.push(75);
            }
            if self.castling & WQ_CASTLE != 0 {
                out.push(81);
            }
            if self.castling & BK_CASTLE != 0 {
                out.push(107);
            }
            if self.castling & BQ_CASTLE != 0 {
                out.push(113);
            }
        }
        out.push(32);
        if self.en_passant == 0 {
            out.push(45);
        } else {
            let e = crate::bits::lsb(self.en_passant);
            out.push(97 + (e % 8) as u8);
            out.push(49 + (e / 8) as u8);
        }
        out.push(32);
        out.push(48);
        out.push(32);
        out.push(49);
        proof {
            assert(out@ =~= spec_to_fen(*self));
        }
        out
    }

    /// The node count of the pseudo-legal move tree to the given depth,
    /// counting only positions where the side that just moved is not left
    /// in check; a position reached illegally counts zero. The count
    /// saturates at the machine's limit rather than overflowing.
    pub fn perft(&self, depth: u8) -> (r: usize)
        requires
            board_ok(*self),
            ep_sound(*self),
            self.ply + depth as int <= usize::MAX,
        ensures
            r == cap_count(spec_perft(pos_of(*self), depth as nat)),
            spec_in_check(*self, flip_color(self.to_move)) ==> r == 0,
            !spec_in_check(*self, flip_color(self.to_move)) && depth == 0 ==> r == 1,
        decreases depth,
    {
        let ghost p = pos_of(*self);
        if self.player_in_check(self.prev_move()) {
            return 0;
        }
        if depth == 0 {
            return 1;
        }
        let ghost d2 = (depth - 1) as nat;
        let moves = self.get_moves();
        let mut count: usize = 0;
        let mut i: usize = 0;
        while i < moves.len()
            invariant
                board_ok(*self),
                ep_sound(*self),
                self.ply + depth as int <= usize::MAX,
                depth >= 1,
                d2 == (depth - 1) as nat,
                p == pos_of(*self),
                moves@ == spec_get_moves(*self),
                i <= moves@.len(),
                count == cap_count(perft_sum(p, moves@.take(i as int), d2)),
                forall|j: int| 0 <= j < moves@.len() ==> gen_ok(*self, moves@[j]),
            decreases moves@.len() - i,
        {
            let mv = moves[i];
            let mut nb = self.duplicate();
            proof {
                lemma_same_board_preds(*self, nb, mv);
            }
            nb.make_move(mv);
            let n = nb.perft(depth - 1);
            proof {
                assert(pos_of(nb) =~= next_pos(p, mv));
                lemma_perft_sum_push(p, moves@.take(i as int), mv, d2);
                assert(moves@.take(i as int).push(mv) =~= moves@.take(i as int + 1));
                lemma_sat_min(
                    perft_sum(p, moves@.take(i as int), d2),
                    spec_perft(next_pos(p, mv), d2),
                    usize::MAX as nat,
                );
            }
            count = count.saturating_add(n);
            i = i + 1;
        }
        proof {
            assert(moves@.take(moves@.len() as int) =~= moves@);
        }
        count
    }

    /// Sort scored moves so the best stands first: the hint move gets a
    /// sentinel score, the two killers small positive ones, every other
    /// move its static exchange value.
    pub fn sort_with(&self, moves: Vec<Move>, best: Move, killer: &Killer) -> (r: Vec<(i32, Move)>)
        requires
            board_ok(*self),
            self.ply < usize::MAX,
            forall|i: int| 0 <= i < moves@.len() ==> gen_ok(*self, moves@[i]),
        ensures
            r@.len() == moves@.len(),
            r@.map_values(|p: (i32, Move)| p.1).to_multiset() == moves@.to_multiset(),
            forall|i: int, j: int| 0 <= i <= j < r@.len() ==> r@[i].0 >= r@[j].0,
            forall|i: int|
                0 <= i < r@.len() ==> (#[trigger] r@[i]).0 == spec_sort_score(
                    *self,
                    r@[i].1,
                    best,
                    *killer,
                ),
    {
        broadcast use vstd::seq_lib::group_to_multiset_ensures;

        let mut scored: Vec<(i32, Move)> = Vec::new();
        let mut i: usize = 0;
        while i < moves.len()
            invariant
                board_ok(*self),
                self.ply < usize::MAX,
                forall|j: int| 0 <= j < moves@.len() ==> gen_ok(*self, moves@[j]),
                i <= moves@.len(),
                scored@.len() == i,
                scored@.map_values(|p: (i32, Move)| p.1) == moves@.take(i as int),
                forall|k: int|
                    0 <= k < scored@.len() ==> (#[trigger] scored@[k]).0 == spec_sort_score(
                        *self,
                        scored@[k].1,
                        best,
                        *killer,
                    ),
            decreases moves@.len() - i,
        {
            let mv = moves[i];
            let sc = if mv == best {
                10_000_000
            } else if mv == killer.0 {
                2
            } else if mv == killer.1 {
                1
            } else {
                self.see_move(&mv)
            };
            scored.push((sc, mv));
            proof {
                assert(scored@.map_values(|p: (i32, Move)| p.1) =~= moves@.take(i as int + 1));
            }
            i = i + 1;
        }
        proof {
            assert(moves@.take(moves@.len() as int) =~= moves@);
        }
        let r = sorted_desc(scored);
        proof {
            assert forall|i: int| 0 <= i < r@.len() implies (#[trigger] r@[i]).0 == spec_sort_score(
                *self,
                r@[i].1,
                best,
                *killer,
            ) by {
                assert(r@.to_multiset().count(r@[i]) > 0);
                assert(scored@.to_multiset().count(r@[i]) > 0);
                assert(scored@.contains(r@[i]));
            }
        }
        r
    }

    /// Keep only the moves whose exchange wins material, best first; used
    /// by the quiescence search.
    pub fn qsort(&self, moves: &[Move]) -> (r: Vec<(i32, Move)>)
        requires
            board_ok(*self),
            self.ply < usize::MAX,
            forall|i: int| 0 <= i < moves@.len() ==> gen_ok(*self, moves@[i]),
        ensures
            r@.to_multiset() == winning_pairs(*self, moves@).to_multiset(),
            forall|i: int, j: int| 0 <= i <= j < r@.len() ==> r@[i].0 >= r@[j].0,
            forall|i: int|
                0 <= i < r@.len() ==> (#[trigger] r@[i]).0 > 0 && moves@.contains(r@[i].1)
                    && r@[i].0 == spec_see_move(*self, r@[i].1),
            forall|j: int|
                0 <= j < moves@.len() && spec_see_move(*self, #[trigger] moves@[j]) > 0
                    ==> r@.map_values(|p: (i32, Move)| p.1).contains(moves@[j]),
    {
        broadcast use vstd::seq_lib::group_to_multiset_ensures;

        let mut scored: Vec<(i32, Move)> = Vec::new();
        let mut i: usize = 0;
        while i < moves.len()
            invariant
                board_ok(*self),
                self.ply < usize::MAX,
                forall|j: int| 0 <= j < moves@.len() ==> gen_ok(*self, moves@[j]),
                i <= moves@.len(),
                scored@ == winning_pairs(*self, moves@.take(i as int)),
                forall|k: int|
                    0 <= k < scored@.len() ==> (#[trigger] scored@[k]).0 > 0 && moves@.contains(
                        scored@[k].1,
                    ) && scored@[k].0 == spec_see_move(*self, scored@[k].1),
                forall|j: int|
                    0 <= j < i && spec_see_move(*self, #[trigger] moves@[j]) > 0
                        ==> scored@.map_values(|p: (i32, Move)| p.1).contains(moves@[j]),
            decreases moves@.len() - i,
        {
            let mv = moves[i];
            let sc = self.see_move(&mv);
            let ghost pre = scored@;
            if sc > 0 {
                scored.push((sc, mv));
            }
            proof {
                lemma_winning_push(*self, moves@.take(i as int), mv);
                assert(moves@.take(i as int).push(mv) =~= moves@.take(i as int + 1));
                assert(scored@ =~= winning_pairs(*self, moves@.take(i as int + 1)));
                let pm = pre.map_values(|p: (i32, Move)| p.1);
                let sm = scored@.map_values(|p: (i32, Move)| p.1);
                if sc > 0 {
                    assert(sm =~= pm.push(mv));
                    assert(sm[pre.len() as int] == mv);
                }
                assert forall|j: int|
                    0 <= j < i + 1 && spec_see_move(*self, #[trigger] moves@[j]) > 0 implies sm
                    .contains(moves@[j]) by {
                    if j < i {
                        let k = choose|k: int| 0 <= k < pm.len() && pm[k] == moves@[j];
                        assert(sm[k] == moves@[j]);
                    } else {
                        assert(sm[pre.len() as int] == moves@[j]);
                    }
                }
            }
            i = i + 1;
        }
        let r = sorted_desc(scored);
        proof {
            assert(moves@.take(moves@.len() as int) =~= moves@);
            assert forall|i: int| 0 <= i < r@.len() implies (#[trigger] r@[i]).0 > 0
                && moves@.contains(r@[i].1) && r@[i].0 == spec_see_move(*self, r@[i].1) by {
                assert(r@.to_multiset().count(r@[i]) > 0);
                assert(scored@.to_multiset().count(r@[i]) > 0);
                assert(scored@.contains(r@[i]));
            }
            assert forall|j: int|
                0 <= j < moves@.len() && spec_see_move(*self, #[trigger] moves@[j]) > 0 implies r@
                .map_values(|p: (i32, Move)| p.1).contains(moves@[j]) by {
                let sm = scored@.map_values(|p: (i32, Move)| p.1);
                let rm = r@.map_values(|p: (i32, Move)| p.1);
                assert(sm.contains(moves@[j]));
                assert(sm.to_multiset().count(moves@[j]) > 0);
                assert(rm.to_multiset().count(moves@[j]) > 0);
            }
        }
        r
    }

    /// Decode a long-algebraic move string against this position: four
    /// squares characters and an optional promotion letter, with castling
    /// recognised by the king's two-file trip while the right is held, and
    /// the double-push and en-passant flags read off the board.
    pub fn move_from_str(&self, mv: &str) -> (r: Result<Move, ParseError>)
        requires
            wf_base(*self),
        ensures
            r matches Ok(m) ==> Some(m) == spec_move_from_str(*self, mv.spec_bytes()),
            (r is Ok) <==> (spec_move_from_str(*self, mv.spec_bytes()) is Some),
    {
        let s = mv.as_bytes();
        if s.len() < 4 || s.len() > 5 {
            return Err(ParseError::MoveSyntax);
        }
        if !(97 <= s[0] && s[0] <= 104 && 49 <= s[1] && s[1] <= 56 && 97 <= s[2] && s[2] <= 104
            && 49 <= s[3] && s[3] <= 56) {
            return Err(ParseError::MoveSyntax);
        }
        let src = ((s[1] - 49) as u32) * 8 + ((s[0] - 97) as u32);
        let dest = ((s[3] - 49) as u32) * 8 + ((s[2] - 97) as u32);
        let mut flags: u32 = 0;
        if s.len() == 5 {
            flags = if s[4] == 113 {
                QUEEN_PROM
            } else if s[4] == 114 {
                ROOK_PROM
            } else if s[4] == 98 {
                BISHOP_PROM
            } else if s[4] == 110 {
                KNIGHT_PROM
            } else {
                0
            };
        }
        proof {
            lemma_move_flag_bounds(flags);
        }
        if src == 4 && dest == 6 && self.castling & WK_CASTLE != 0 {
            flags = flags | CASTLES_KING;
        } else if src == 60 && dest == 62 && self.castling & BK_CASTLE != 0 {
            flags = flags | CASTLES_KING;
        } else if src == 4 && dest == 2 && self.castling & WQ_CASTLE != 0 {
            flags = flags | CASTLES_QUEEN;
        } else if src == 60 && dest == 58 && self.castling & BQ_CASTLE != 0 {
            flags = flags | CASTLES_QUEEN;
        }
        proof {
            lemma_move_flag_bounds(flags);
        }
        if self.sqs[src as usize] & PIECE == PAWN {
            let diff = if src > dest {
                src - dest
            } else {
                dest - src
            };
            if diff == 16 {
                flags = flags | DOUBLE_PAWN_PUSH;
            }
            proof {
                lemma_move_flag_bounds(flags);
            }
            if self.en_passant != 0 && dest == crate::bits::lsb(self.en_passant) {
                flags = flags | EN_PASSANT;
            }
        }
        proof {
            lemma_move_flag_bounds(flags);
        }
        Ok(Move::new(src, dest, flags))
    }
}

/// The move a long-algebraic string denotes on a given position, or
/// `None` when it is not four or five bytes naming two squares.
pub open spec fn spec_move_from_str(b: Board, s: Seq<u8>) -> Option<Move> {
    if !(s.len() == 4 || s.len() == 5) {
        None
    } else if !(97 <= s[0] <= 104 && 49 <= s[1] <= 56 && 97 <= s[2] <= 104 && 49 <= s[3] <= 56) {
        None
    } else {
        let src = ((s[1] - 49) * 8 + (s[0] - 97)) as u32;
        let dest = ((s[3] - 49) * 8 + (s[2] - 97)) as u32;
        let f0: u32 = if s.len() == 5 {
            if s[4] == 113 {
                QUEEN_PROM
            } else if s[4] == 114 {
                ROOK_PROM
            } else if s[4] == 98 {
                BISHOP_PROM
            } else if s[4] == 110 {
                KNIGHT_PROM
            } else {
                0
            }
        } else {
            0
        };
        let f1: u32 = if src == 4 && dest == 6 && b.castling & WK_CASTLE != 0 {
            f0 | CASTLES_KING
        } else if src == 60 && dest == 62 && b.castling & BK_CASTLE != 0 {
            f0 | CASTLES_KING
        } else if src == 4 && dest == 2 && b.castling & WQ_CASTLE != 0 {
            f0 | CASTLES_QUEEN
        } else if src == 60 && dest == 58 && b.castling & BQ_CASTLE != 0 {
            f0 | CASTLES_QUEEN
        } else {
            f0
        };
        let f2: u32 = if kind_of(b.sqs@[src as int]) == PAWN {
            let fa = if (if src > dest {
                src - dest
            } else {
                dest - src
            }) == 16 {
                f1 | DOUBLE_PAWN_PUSH
            } else {
                f1
            };
            if b.en_passant != 0 && dest == u64_trailing_zeros(b.en_passant) {
                fa | EN_PASSANT
            } else {
                fa
            }
        } else {
            f1
        };
        Some(mk_move(src as u64, dest as u64, f2))
    }
}

/// Flag words built from the promotion, castling, double-push and
/// en-passant bits stay below the packing bound.
proof fn lemma_move_flag_bounds(f: u32)
    by (bit_vector)
    ensures
        f < 256 ==> (f | 8u32) < 256 && (f | 16u32) < 256 && (f | 2u32) < 256 && (f | 4u32) < 256,
{
}

/// The FEN text of a position: placement from the top rank, side letter,
/// held rights or `-`, the en-passant square or `-`, and zeroed clocks.
pub open spec fn spec_to_fen(b: Board) -> Seq<u8> {
    let p = sp_emit_place(b.sqs@, 7, Seq::empty());
    let p2 = p.push(32).push(
        if b.to_move == WHITE {
            119
        } else {
            98
        },
    ).push(32);
    let p3 = if b.castling == 0 {
        p2.push(45)
    } else {
        let a = if b.castling & WK_CASTLE != 0 {
            p2.push(75)
        } else {
            p2
        };
        let c = if b.castling & WQ_CASTLE != 0 {
            a.push(81)
        } else {
            a
        };
        let d = if b.castling & BK_CASTLE != 0 {
            c.push(107)
        } else {
            c
        };
        if b.castling & BQ_CASTLE != 0 {
            d.push(113)
        } else {
            d
        }
    };
    let p4 = p3.push(32);
    let p5 = if b.en_passant == 0 {
        p4.push(45)
    } else {
        let e = u64_trailing_zeros(b.en_passant);
        p4.push((97 + e % 8) as u8).push((49 + e / 8) as u8)
    };
    p5.push(32).push(48).push(32).push(49)
}

/// Sorts score-move pairs so scores descend. Relies on
/// `itertools::Itertools::sorted_by`, which collects the items and sorts
/// them with the comparator (`Vec::sort_by`): the result holds exactly
/// the input items, ordered as the comparator directs.
#[verifier::external_body]
fn sorted_desc(v: Vec<(i32, Move)>) -> (r: Vec<(i32, Move)>)
    ensures
        r@.len() == v@.len(),
        r@.to_multiset() == v@.to_multiset(),
        r@.map_values(|p: (i32, Move)| p.1).to_multiset() == v@.map_values(
            |p: (i32, Move)| p.1,
        ).to_multiset(),
        forall|i: int, j: int| 0 <= i <= j < r@.len() ==> r@[i].0 >= r@[j].0,
{
    itertools::Itertools::sorted_by(v.into_iter(), |a, b| cmp_desc(a, b)).collect()
}

/// The total order `sorted_desc` sorts by: descending on the score.
fn cmp_desc(a: &(i32, Move), b: &(i32, Move)) -> (r: core::cmp::Ordering)
    ensures
        (r == core::cmp::Ordering::Less) <==> a.0 > b.0,
        (r == core::cmp::Ordering::Equal) <==> a.0 == b.0,
        (r == core::cmp::Ordering::Greater) <==> a.0 < b.0,
{
    b.0.cmp(&a.0)
}

/// The incrementally maintained hash of any well-formed position equals
/// the hash recomputed from scratch from its squares, castling rights,
/// en-passant file and side to move.
pub proof fn lemma_hash_incremental(b: Board)
    requires
        board_ok(b),
    ensures
        b.hash == hash_of(b.sqs@, b.castling, b.en_passant, b.to_move),
{
}

/// How many squares of the first `n` hold the piece code `pc`.
pub open spec fn count_code(sqs: Seq<u8>, pc: u8, n: int) -> int
    decreases n,
{
    if n <= 0 {
        0
    } else {
        count_code(sqs, pc, n - 1) + if sqs[n - 1] == pc {
            1int
        } else {
            0int
        }
    }
}

proof fn lemma_count_agree(a: Seq<u8>, b: Seq<u8>, pc: u8, n: int)
    requires
        n <= a.len(),
        n <= b.len(),
        forall|j: int| 0 <= j < n ==> a[j] == b[j],
    ensures
        count_code(a, pc, n) == count_code(b, pc, n),
    decreases n,
{
    if n > 0 {
        lemma_count_agree(a, b, pc, n - 1);
    }
}

proof fn lemma_count_update(sqs: Seq<u8>, n: int, pc: u8, i: int, v: u8)
    requires
        0 <= i < n <= sqs.len(),
    ensures
        count_code(sqs.update(i, v), pc, n) == count_code(sqs, pc, n) - (if sqs[i] == pc {
            1int
        } else {
            0int
        }) + (if v == pc {
            1int
        } else {
            0int
        }),
    decreases n,
{
    if n - 1 == i {
        lemma_count_agree(sqs, sqs.update(i, v), pc, n - 1);
    } else {
        lemma_count_update(sqs, n - 1, pc, i, v);
    }
}

/// A move that does not capture a king leaves each color with exactly as
/// many kings as before. Along a legal game this covers every move: a
/// move that could capture the enemy king only exists when the opponent
/// was left in check, and such positions are discarded before any reply
/// is generated. The castle hypotheses say the move has the generator's
/// shape and that no king sits on the rook's two squares, which also
/// holds whenever the castling right is genuine.
pub proof fn lemma_kings_preserved(b: Board, m: Move, c: u8)
    requires
        b.sqs@.len() == 64,
        is_color(b.to_move),
        is_color(c),
        valid_move(b, m),
        kind_of(b.sqs@[mv_to(m) as int]) != KING,
        spec_promotion(m) != 0 ==> kind_of(b.sqs@[mv_from(m) as int]) != KING,
        spec_is_en_passant(m) ==> !spec_king_castle(m) && !spec_queen_castle(m),
        spec_king_castle(m) ==> mv_from(m) == offset(b.to_move) + 4 && mv_to(m) == offset(
            b.to_move,
        ) + 6 && kind_of(b.sqs@[offset(b.to_move) + 7]) != KING && kind_of(
            b.sqs@[offset(b.to_move) + 5],
        ) != KING,
        spec_queen_castle(m) ==> mv_from(m) == offset(b.to_move) + 4 && mv_to(m) == offset(
            b.to_move,
        ) + 2 && kind_of(b.sqs@[offset(b.to_move)]) != KING && kind_of(
            b.sqs@[offset(b.to_move) + 3],
        ) != KING,
    ensures
        count_code(make_move_sqs(b, m), piece(KING, c), 64) == count_code(
            b.sqs@,
            piece(KING, c),
            64,
        ),
{
    lemma_mv_bounds(m);
    lemma_all_pieces();
    lemma_piece_fields(KING, c);
    let us = b.to_move;
    let k = piece(KING, c);
    let from = mv_from(m) as int;
    let to = mv_to(m) as int;
    let off = offset(us);
    let mp = moved_piece(b, m);
    let s0 = b.sqs@;
    let sa = s0.update(from, EMPTY);
    let s1 = sa.update(to, mp);
    lemma_count_update(s0, 64, k, from, EMPTY);
    lemma_count_update(sa, 64, k, to, mp);
    assert(sa[to] == s0[to]);
    assert(kind_of(k) == KING);
    assert(s0[to] != k);
    if spec_promotion(m) == QUEEN_PROM || spec_promotion(m) == ROOK_PROM || spec_promotion(m)
        == BISHOP_PROM || spec_promotion(m) == KNIGHT_PROM {
        assert(mp != k);
        assert(s0[from] != k);
    }
    assert(count_code(s1, k, 64) == count_code(s0, k, 64));
    let s2 = if spec_king_castle(m) {
        s1.update(off + 7, EMPTY).update(off + 5, piece(ROOK, us))
    } else {
        s1
    };
    if spec_king_castle(m) {
        let sb = s1.update(off + 7, EMPTY);
        lemma_count_update(s1, 64, k, off + 7, EMPTY);
        lemma_count_update(sb, 64, k, off + 5, piece(ROOK, us));
        assert(s1[off + 7] == s0[off + 7]);
        assert(sb[off + 5] != k);
        assert(piece(ROOK, us) != k);
    }
    assert(count_code(s2, k, 64) == count_code(s0, k, 64));
    let s3 = if spec_queen_castle(m) {
        s2.update(off, EMPTY).update(off + 3, piece(ROOK, us))
    } else {
        s2
    };
    if spec_queen_castle(m) {
        let sb = s2.update(off, EMPTY);
        lemma_count_update(s2, 64, k, off, EMPTY);
        lemma_count_update(sb, 64, k, off + 3, piece(ROOK, us));
        assert(s2[off] == s0[off]);
        assert(sb[off + 3] != k);
        assert(piece(ROOK, us) != k);
    }
    assert(count_code(s3, k, 64) == count_code(s0, k, 64));
    if spec_is_en_passant(m) {
        let behind = if us == WHITE {
            to - 8
        } else {
            to + 8
        };
        lemma_count_update(s3, 64, k, behind, EMPTY);
        assert(s3[behind] == s0[behind]);
        assert(s0[behind] == piece(PAWN, flip_color(us)));
        assert(s0[behind] != k);
    }
}

/// The standard initial arrangement: white's back rank on squares 0..8,
/// its pawns on 8..16, black's pawns on 48..56 and back rank on 56..64.
pub open spec fn start_sqs() -> Seq<u8> {
    Seq::new(
        64,
        |j: int|
            if j == 0 || j == 7 {
                piece(ROOK, WHITE)
            } else if j == 1 || j == 6 {
                piece(KNIGHT, WHITE)
            } else if j == 2 || j == 5 {
                piece(BISHOP, WHITE)
            } else if j == 3 {
                piece(QUEEN, WHITE)
            } else if j == 4 {
                piece(KING, WHITE)
            } else if 8 <= j < 16 {
                piece(PAWN, WHITE)
            } else if 48 <= j < 56 {
                piece(PAWN, BLACK)
            } else if j == 56 || j == 63 {
                piece(ROOK, BLACK)
            } else if j == 57 || j == 62 {
                piece(KNIGHT, BLACK)
            } else if j == 58 || j == 61 {
                piece(BISHOP, BLACK)
            } else if j == 59 {
                piece(QUEEN, BLACK)
            } else if j == 60 {
                piece(KING, BLACK)
            } else {
                EMPTY
            },
    )
}

/// How one null move transforms a position.
pub open spec fn null_rel(pre: Board, post: Board) -> bool {
    &&& post.to_move == flip_color(pre.to_move)
    &&& post.ply == pre.ply + 1
    &&& post.en_passant == 0
    &&& post.castling == pre.castling
    &&& post.sqs@ == pre.sqs@
    &&& post.bb@ == pre.bb@
    &&& post.hash == pre.hash ^ zobrist_word(780) ^ ep_hash(pre.en_passant)
}

/// Two null moves in a row restore the side to move and the castling
/// rights, and when no en-passant target was set, the hash as well. (With
/// a target set the first null move clears it for good, so the hash moves
/// to the target-free position's.)
pub proof fn lemma_null_null(b0: Board, b1: Board, b2: Board)
    requires
        is_color(b0.to_move),
        null_rel(b0, b1),
        null_rel(b1, b2),
    ensures
        b2.to_move == b0.to_move,
        b2.castling == b0.castling,
        b0.en_passant == 0 ==> b2.hash == b0.hash,
{
    if b0.en_passant == 0 {
        let h = b0.hash;
        let w = zobrist_word(780);
        assert((((h ^ w) ^ 0u64) ^ w) ^ 0u64 == h) by (bit_vector);
    }
}

/// All four promotion expansions of a source-destination pair are sound.
pub open spec fn prom_gen_ok(b: Board, from: u64, to: u64, flags: u32) -> bool {
    &&& gen_ok(b, mk_move(from, to, flags | QUEEN_PROM))
    &&& gen_ok(b, mk_move(from, to, flags | ROOK_PROM))
    &&& gen_ok(b, mk_move(from, to, flags | BISHOP_PROM))
    &&& gen_ok(b, mk_move(from, to, flags | KNIGHT_PROM))
}

/// A promotion move with a sound source and destination is sound with
/// every promotion kind.
proof fn lemma_proms(b: Board, from: u64, to: u64, flags: u32)
    requires
        from < 64,
        to < 64,
        flags == 0 || flags == 1,
        from != to,
        b.sqs@.len() == 64,
        b.sqs@[from as int] != EMPTY,
        b.sqs@[from as int] % 2 == b.to_move,
    ensures
        prom_gen_ok(b, from, to, flags),
{
    assert(flags | 32u32 == flags + 32 && flags | 64u32 == flags + 64 && flags | 96u32 == flags
        + 96 && flags | 128u32 == flags + 128) by (bit_vector)
        requires
            flags == 0 || flags == 1,
    ;
    lemma_mk(from, to, (flags + 32) as u32);
    lemma_mk(from, to, (flags + 64) as u32);
    lemma_mk(from, to, (flags + 96) as u32);
    lemma_mk(from, to, (flags + 128) as u32);
    lemma_flags_of((flags + 32) as u32);
    lemma_flags_of((flags + 64) as u32);
    lemma_flags_of((flags + 96) as u32);
    lemma_flags_of((flags + 128) as u32);
}

/// A masked board only keeps squares of both operands.
proof fn lemma_and_subset(x: u64, y: u64)
    ensures
        forall|t: u64| t < 64 ==> (bit64(x & y, t) ==> bit64(x, t) && bit64(y, t)),
{
    assert forall|t: u64| t < 64 && bit64(x & y, t) implies bit64(x, t) && bit64(y, t) by {
        lemma_bit_and(x, y, t);
    }
}

/// Predicates carry across an exact copy of a position.
proof fn lemma_same_board_preds(a: Board, b: Board, m: Move)
    requires
        same_board(a, b),
    ensures
        board_ok(a) ==> board_ok(b),
        valid_move(a, m) == valid_move(b, m),
        ep_sound(a) ==> ep_sound(b),
{
    lemma_same_bits(a, b);
}

/// A square of the union word is a square of one of the six piece slots.
proof fn lemma_union_bit(b: Board, w: u64, first: int, sq: int)
    requires
        sync_ok(b),
        first == 2 || first == 3,
        0 <= sq < 64,
        w == b.bb@[first] | b.bb@[first + 2] | b.bb@[first + 4] | b.bb@[first + 6] | b.bb@[first
            + 8] | b.bb@[first + 10],
    ensures
        bit64(w, sq as u64) <==> (b.sqs@[sq] != EMPTY && b.sqs@[sq] % 2 == (first - 2) % 2),
{
    let b1 = b.bb@[first];
    let b2 = b1 | b.bb@[first + 2];
    let b3 = b2 | b.bb@[first + 4];
    let b4 = b3 | b.bb@[first + 6];
    let b5 = b4 | b.bb@[first + 8];
    lemma_bit_or(b1, b.bb@[first + 2], sq as u64);
    lemma_bit_or(b2, b.bb@[first + 4], sq as u64);
    lemma_bit_or(b3, b.bb@[first + 6], sq as u64);
    lemma_bit_or(b4, b.bb@[first + 8], sq as u64);
    lemma_bit_or(b5, b.bb@[first + 10], sq as u64);
    assert(board_bit(b, first as u8, sq) <==> b.sqs@[sq] == first as u8);
    assert(board_bit(b, (first + 2) as u8, sq) <==> b.sqs@[sq] == (first + 2) as u8);
    assert(board_bit(b, (first + 4) as u8, sq) <==> b.sqs@[sq] == (first + 4) as u8);
    assert(board_bit(b, (first + 6) as u8, sq) <==> b.sqs@[sq] == (first + 6) as u8);
    assert(board_bit(b, (first + 8) as u8, sq) <==> b.sqs@[sq] == (first + 8) as u8);
    assert(board_bit(b, (first + 10) as u8, sq) <==> b.sqs@[sq] == (first + 10) as u8);
}

/// An exact copy of a word vector.
fn copy_words(v: &Vec<u64>) -> (r: Vec<u64>)
    ensures
        r@ == v@,
{
    let mut r: Vec<u64> = Vec::new();
    let mut i: usize = 0;
    while i < v.len()
        invariant
            i <= v@.len(),
            r@ == v@.take(i as int),
        decreases v@.len() - i,
    {
        r.push(v[i]);
        proof {
            assert(r@ =~= v@.take(i as int + 1));
        }
        i += 1;
    }
    proof {
        assert(v@.take(v@.len() as int) =~= v@);
    }
    r
}

/// An exact copy of a byte vector.
fn copy_bytes(v: &Vec<u8>) -> (r: Vec<u8>)
    ensures
        r@ == v@,
{
    let mut r: Vec<u8> = Vec::new();
    let mut i: usize = 0;
    while i < v.len()
        invariant
            i <= v@.len(),
            r@ == v@.take(i as int),
        decreases v@.len() - i,
    {
        r.push(v[i]);
        proof {
            assert(r@ =~= v@.take(i as int + 1));
        }
        i += 1;
    }
    proof {
        assert(v@.take(v@.len() as int) =~= v@);
    }
    r
}

proof fn lemma_xor_zero(a: u64)
    by (bit_vector)
    ensures
        a ^ 0u64 == a,
        0u64 ^ a == a,
{
}

/// Passing the turn rewrites the four-component hash by the side word and
/// the old en-passant word, whichever side was to move.
proof fn lemma_null_hash(t: u64, e: u64, w: u64)
    by (bit_vector)
    ensures
        ((((t ^ e) ^ 0u64) ^ w) ^ e) == ((t ^ 0u64) ^ w),
        ((((t ^ e) ^ w) ^ w) ^ e) == ((t ^ 0u64) ^ 0u64),
{
}

/// Removing the piece on one square, with its board bit and hash word,
/// keeps the representation in sync and the hash exact.
proof fn lemma_ep_removal(before: Board, after: Board, pc: u8, ep_pawn: int, w: u64)
    requires
        wf_base(before),
        hash_ok(before),
        0 <= ep_pawn < 64,
        pc == before.sqs@[ep_pawn],
        is_piece(pc),
        w == piece_word(pc, ep_pawn),
        after.sqs@ == before.sqs@.update(ep_pawn, EMPTY),
        after.bb@ == before.bb@.update(
            pc as int,
            before.bb@[pc as int] ^ (1u64 << (ep_pawn as u64)),
        ),
        after.hash == before.hash ^ w,
        after.castling == before.castling,
        after.en_passant == before.en_passant,
        after.to_move == before.to_move,
        after.zobrist == before.zobrist,
        after.ply == before.ply,
    ensures
        wf_base(after),
        hash_ok(after),
{
    assert forall|pc2: u8, sq: int| is_piece(pc2) && 0 <= sq < 64 implies (#[trigger] board_bit(
        after,
        pc2,
        sq,
    ) <==> after.sqs@[sq] == pc2) by {
        lemma_xor_if(before.bb@[pc as int], true, ep_pawn, sq);
        if !(pc2 == pc) {
            assert(after.bb@[pc2 as int] == before.bb@[pc2 as int]);
        }
        assert(board_bit(before, pc2, sq) <==> before.sqs@[sq] == pc2);
    }
    let s = sq_hash(before.sqs@, 64);
    let c = castle_hash(before.castling);
    let e = ep_hash(before.en_passant);
    let d = side_hash(before.to_move);
    lemma_sq_hash_update(before.sqs@, 64, ep_pawn, EMPTY);
    lemma_xor_zero(s ^ w);
    lemma_hash4(s, c, e, d, w, 0);
}

/// Setting a fresh en-passant target on an empty-target position XORs
/// exactly its file word into the hash.
proof fn lemma_set_ep(before: Board, after: Board, mid: int, we: u64)
    requires
        wf_base(before),
        hash_ok(before),
        before.en_passant == 0,
        0 <= mid < 64,
        mid / 8 == 2 || mid / 8 == 5,
        after.en_passant == 1u64 << (mid as u64),
        we == ep_hash(after.en_passant),
        after.hash == before.hash ^ we,
        after.sqs@ == before.sqs@,
        after.bb@ == before.bb@,
        after.castling == before.castling,
        after.to_move == before.to_move,
        after.zobrist == before.zobrist,
        after.ply == before.ply,
    ensures
        wf_base(after),
        hash_ok(after),
        u64_trailing_zeros(after.en_passant) == mid,
{
    lemma_tz_single(mid as u64);
    let s = sq_hash(before.sqs@, 64);
    let c = castle_hash(before.castling);
    let d = side_hash(before.to_move);
    lemma_hash4(s, c, 0, d, we, 0);
    lemma_xor_zero(we);
    assert((((s ^ c) ^ 0u64) ^ d) ^ (0u64 ^ we) == ((s ^ c) ^ we) ^ d);
    lemma_same_bits(before, after);
}

/// Two boards with the same bitboards and squares satisfy the same
/// synchronisation and aggregate predicates.
proof fn lemma_same_bits(a: Board, b: Board)
    requires
        a.bb@ == b.bb@,
        a.sqs@ == b.sqs@,
    ensures
        sync_ok(a) ==> sync_ok(b),
        aggs_ok(a) ==> aggs_ok(b),
{
    if sync_ok(a) {
        assert forall|pc: u8, sq: int| is_piece(pc) && 0 <= sq < 64 implies (#[trigger] board_bit(
            b,
            pc,
            sq,
        ) <==> b.sqs@[sq] == pc) by {
            assert(board_bit(b, pc, sq) == board_bit(a, pc, sq));
        }
    }
    if aggs_ok(a) {
        assert forall|sq: int| 0 <= sq < 64 implies (#[trigger] board_bit(b, ALL, sq) <==> (
        b.sqs@[sq] != EMPTY && b.sqs@[sq] % 2 == 0)) by {
            assert(board_bit(b, ALL, sq) == board_bit(a, ALL, sq));
        }
        assert forall|sq: int| 0 <= sq < 64 implies (#[trigger] board_bit(b, (ALL + 1) as u8, sq)
            <==> (b.sqs@[sq] != EMPTY && b.sqs@[sq] % 2 == 1)) by {
            assert(board_bit(b, (ALL + 1) as u8, sq) == board_bit(a, (ALL + 1) as u8, sq));
        }
    }
}

/// The two aggregate slots recomputed as the unions of the same-color
/// piece slots.
pub open spec fn with_aggregates(bb: Seq<u64>) -> Seq<u64> {
    bb.update(14, bb[2] | bb[4] | bb[6] | bb[8] | bb[10] | bb[12]).update(
        15,
        bb[3] | bb[5] | bb[7] | bb[9] | bb[11] | bb[13],
    )
}

/// The per-piece bitboards after the piece relocations of a move, before
/// the aggregates are recomputed.
pub open spec fn apply_bb(b: Board, m: Move) -> Seq<u64> {
    p_apply_bb(pos_of(b), m)
}

pub open spec fn p_apply_bb(p: Pos, m: Move) -> Seq<u64> {
    let us = p.to_move;
    let from = mv_from(m) as int;
    let to = mv_to(m) as int;
    let off = offset(us);
    let mp = p_moved_piece(p, m);
    let s0 = p.sqs;
    let bb1 = moved_bb(p.bb, s0[from], s0[to], mp, from, to);
    let s1 = s0.update(from, EMPTY).update(to, mp);
    let bb2 = if spec_king_castle(m) {
        moved_bb(bb1, s1[off + 7], s1[off + 5], piece(ROOK, us), off + 7, off + 5)
    } else {
        bb1
    };
    let s2 = if spec_king_castle(m) {
        s1.update(off + 7, EMPTY).update(off + 5, piece(ROOK, us))
    } else {
        s1
    };
    let bb3 = if spec_queen_castle(m) {
        moved_bb(bb2, s2[off], s2[off + 3], piece(ROOK, us), off, off + 3)
    } else {
        bb2
    };
    if spec_is_en_passant(m) {
        let behind = if us == WHITE {
            to - 8
        } else {
            to + 8
        };
        let pp = piece(PAWN, flip_color(us)) as int;
        bb3.update(pp, bb3[pp] ^ (1u64 << (behind as u64)))
    } else {
        bb3
    }
}

/// The bitboards after a whole move: the relocations, then the
/// aggregates.
pub open spec fn make_move_bb(b: Board, m: Move) -> Seq<u64> {
    p_bb_after(pos_of(b), m)
}

pub open spec fn p_bb_after(p: Pos, m: Move) -> Seq<u64> {
    with_aggregates(p_apply_bb(p, m))
}

/// The bitboards after `move_piece`: the source piece's board loses its
/// source square, a captured piece's board loses the destination, and
/// the placed piece's board gains it; the aggregates are untouched.
pub open spec fn moved_bb(
    bb: Seq<u64>,
    src_pc: u8,
    dest_pc: u8,
    pc: u8,
    src: int,
    dest: int,
) -> Seq<u64> {
    Seq::new(
        16,
        |k: int|
            xor_if(
                xor_if(
                    xor_if(bb[k], src_pc != EMPTY && k == src_pc, src),
                    dest_pc != EMPTY && k == dest_pc,
                    dest,
                ),
                pc != EMPTY && k == pc,
                dest,
            ),
    )
}

/// Conditionally toggle square `i` in the word `b`.
pub open spec fn xor_if(b: u64, cond: bool, i: int) -> u64 {
    if cond {
        b ^ (1u64 << (i as u64))
    } else {
        b
    }
}

proof fn lemma_xor_if(b: u64, cond: bool, i: int, j: int)
    requires
        0 <= i < 64,
        0 <= j < 64,
    ensures
        bit64(xor_if(b, cond, i), j as u64) == if cond && i == j {
            !bit64(b, j as u64)
        } else {
            bit64(b, j as u64)
        },
{
    if cond {
        lemma_bit_xor(b, 1u64 << (i as u64), j as u64);
        lemma_bit_single(i as u64, j as u64);
    }
}

} // verus!
