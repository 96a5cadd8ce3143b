use crabby::board::{Board, START_FEN};
use crabby::moves::{Killer, Move, DOUBLE_PAWN_PUSH, EN_PASSANT, IS_CAPTURE};
use crabby::types::{BLACK, EMPTY, KING, PAWN, PIECE, ROOK, WHITE};

fn sq(name: &str) -> usize {
    let b = name.as_bytes();
    ((b[1] - b'1') as usize) * 8 + ((b[0] - b'a') as usize)
}

fn play(board: &mut Board, mv: &str) {
    let m = board.move_from_str(mv).unwrap();
    board.make_move(m);
}

#[test]
fn start_position_matches_start_fen() {
    let a = Board::start_position();
    let b = Board::from_fen(START_FEN).unwrap();
    assert_eq!(a.sqs, b.sqs);
    assert_eq!(a.to_move, b.to_move);
    assert_eq!(a.castling, b.castling);
    assert_eq!(a.en_passant, b.en_passant);
    assert_eq!(a.hash, b.hash);
    assert_eq!(a.sqs[sq("e1")], KING | WHITE);
    assert_eq!(a.sqs[sq("e8")], KING | BLACK);
    assert_eq!(a.sqs[sq("a2")], PAWN | WHITE);
}

#[test]
fn double_push_sets_ep_target_and_exact_hash_delta() {
    let mut b = Board::start_position();
    let h0 = b.hash;
    let k = &b.zobrist.keys;
    let wp = (PAWN | WHITE) as usize - 2;
    let expected = h0
        ^ k[wp * 64 + sq("e2")]
        ^ k[wp * 64 + sq("e4")]
        ^ k[772 + 4]
        ^ k[780];
    play(&mut b, "e2e4");
    assert_eq!(b.en_passant, 1u64 << sq("e3"));
    assert_eq!(b.hash, expected);
    assert_ne!(b.hash, h0);
}

#[test]
fn quiet_king_walk_keeps_zero_castling() {
    let mut b = Board::from_fen("4k3/8/8/8/8/8/4P3/4K3 w - -").unwrap();
    assert_eq!(b.castling, 0);
    play(&mut b, "e2e4");
    play(&mut b, "e8d8");
    play(&mut b, "e1e2");
    assert_eq!(b.castling, 0);
    assert_eq!(b.sqs[sq("e2")], KING | WHITE);
    assert_eq!(b.sqs[sq("d8")], KING | BLACK);
}

#[test]
fn kingside_castle_moves_rook_and_clears_white_rights() {
    let mut b = Board::from_fen("r3k2r/8/8/8/8/8/8/R3K2R w KQkq -").unwrap();
    let m = b.move_from_str("e1g1").unwrap();
    assert!(m.king_castle());
    b.make_move(m);
    assert_eq!(b.sqs[sq("g1")], KING | WHITE);
    assert_eq!(b.sqs[sq("f1")], ROOK | WHITE);
    assert_eq!(b.sqs[sq("e1")], EMPTY);
    assert_eq!(b.sqs[sq("h1")], EMPTY);
    assert_eq!(b.castling & 0b0011, 0);
    assert_eq!(b.castling & 0b1100, 0b1100);
}

#[test]
fn en_passant_capture_removes_the_passed_pawn() {
    let mut b = Board::from_fen("8/8/8/3pP3/8/8/8/k6K w - d6").unwrap();
    let m = b.move_from_str("e5d6").unwrap();
    assert!(m.is_en_passant());
    assert_eq!(b.sqs[sq("d5")], PAWN | BLACK);
    b.make_move(m);
    assert_eq!(b.sqs[sq("d6")], PAWN | WHITE);
    assert_eq!(b.sqs[sq("d5")], EMPTY);
    assert_eq!(b.sqs[sq("e5")], EMPTY);
}

#[test]
fn see_simple_pawn_capture_wins_a_pawn() {
    let b = Board::from_fen("4k3/8/8/3p4/4P3/8/8/4K3 w - -").unwrap();
    let m = Move::new(sq("e4") as u32, sq("d5") as u32, IS_CAPTURE);
    assert_eq!(b.see_move(&m), 100);
}

#[test]
fn see_defended_pawn_capture_breaks_even() {
    let b = Board::from_fen("4k3/8/4p3/3p4/4P3/8/8/4K3 w - -").unwrap();
    let m = Move::new(sq("e4") as u32, sq("d5") as u32, IS_CAPTURE);
    assert_eq!(b.see_move(&m), 0);
}

#[test]
fn see_ignores_a_pawn_that_does_not_guard_the_square() {
    let b = Board::from_fen("4k3/3p4/8/3p4/4P3/8/8/4K3 w - -").unwrap();
    let m = Move::new(sq("e4") as u32, sq("d5") as u32, IS_CAPTURE);
    assert_eq!(b.see_move(&m), 100);
}

#[test]
fn null_move_twice_restores_side_castling_and_hash() {
    let mut b = Board::from_fen("r3k2r/8/8/8/8/8/8/R3K2R w KQkq -").unwrap();
    let (side0, castle0, hash0) = (b.to_move, b.castling, b.hash);
    b.do_null_move();
    assert_ne!(b.to_move, side0);
    assert_ne!(b.hash, hash0);
    b.do_null_move();
    assert_eq!(b.to_move, side0);
    assert_eq!(b.castling, castle0);
    assert_eq!(b.hash, hash0);
}

#[test]
fn fen_round_trips_over_a_corpus() {
    let corpus = [
        START_FEN,
        "r3k2r/p1ppqpb1/bn2pnp1/3PN3/1p2P3/2N2Q1p/PPPBBPPP/R3K2R w KQkq -",
        "n1n5/PPPk4/8/8/8/8/4Kppp/5N1N b - -",
        "8/8/8/3pP3/8/8/8/k6K w - d6",
        "4k3/8/8/3p4/4P3/8/8/4K3 w - -",
        "8/2p5/3p4/KP5r/1R3p1k/8/4P1P1/8 w - -",
    ];
    for fen in corpus {
        let a = Board::from_fen(fen).unwrap();
        let text = String::from_utf8(a.to_fen()).unwrap();
        let b = Board::from_fen(&text).unwrap();
        assert_eq!(a.sqs, b.sqs, "squares for {fen}");
        assert_eq!(a.to_move, b.to_move);
        assert_eq!(a.castling, b.castling);
        assert_eq!(a.en_passant, b.en_passant);
        assert_eq!(a.hash, b.hash);
        let again = String::from_utf8(b.to_fen()).unwrap();
        assert_eq!(text, again);
    }
}

#[test]
fn incremental_hash_matches_hash_from_scratch_after_moves() {
    let mut b = Board::start_position();
    for mv in ["e2e4", "d7d5", "e4d5", "d8d5", "b1c3", "d5a5", "g1f3"] {
        play(&mut b, mv);
        let text = String::from_utf8(b.to_fen()).unwrap();
        let again = Board::from_fen(&text).unwrap();
        assert_eq!(b.hash, again.hash, "after {mv}");
    }
}

#[test]
fn from_fen_rejects_a_target_with_no_pawn_behind_it() {
    // A legal-looking en-passant token is still illegal when no enemy
    // pawn just double-pushed past the named square.
    assert!(Board::from_fen("rnbqkbnr/pppppppp/8/8/8/8/PPPPPPPP/RNBQKBNR w KQkq e3").is_err());
    assert!(Board::from_fen("rnbqkbnr/pppppppp/8/8/8/8/PPPPPPPP/RNBQKBNR b KQkq e6").is_err());
    // The same squares are accepted right after the matching double push.
    assert!(Board::from_fen("rnbqkbnr/pppppppp/8/8/4P3/8/PPPP1PPP/RNBQKBNR b KQkq e3").is_ok());
}

#[test]
fn from_fen_rejects_bad_text() {
    assert!(Board::from_fen("not a position").is_err());
    assert!(Board::from_fen("rnbqkbnr/pppppppp/8/8/8/8/PPPPPPPP w KQkq -").is_err());
    assert!(Board::from_fen("rnbqkbnr/pppppppp/8/8/8/8/PPPPPPPP/RNBQKBNR w KQkq z9").is_err());
    assert!(Board::from_fen("rnbqkbnr/pppppppp/9/8/8/8/PPPPPPPP/RNBQKBNR w KQkq -").is_err());
}

#[test]
fn move_from_str_rejects_bad_text() {
    let b = Board::start_position();
    assert!(b.move_from_str("e2").is_err());
    assert!(b.move_from_str("zz9x").is_err());
    assert!(b.move_from_str("").is_err());
    let m = b.move_from_str("e2e4").unwrap();
    assert_eq!(m.from(), sq("e2") as u32);
    assert_eq!(m.to(), sq("e4") as u32);
    assert!(m.is_double_push());
    let p = b.move_from_str("a7a8q").unwrap();
    assert_eq!(p.promotion(), crabby::moves::QUEEN_PROM);
}

#[test]
fn start_position_has_twenty_moves_and_no_check() {
    let b = Board::start_position();
    assert_eq!(b.perft(1), 20);
    assert!(!b.is_in_check());
    assert!(!b.player_in_check(WHITE));
    assert!(!b.player_in_check(BLACK));
    assert!(b.is_white());
    assert_eq!(b.prev_move(), BLACK);
}

#[test]
fn perft_start_shallow() {
    let b = Board::start_position();
    assert_eq!(b.perft(2), 400);
    assert_eq!(b.perft(3), 8902);
}

#[test]
fn perft_start_depth_four() {
    let b = Board::start_position();
    assert_eq!(b.perft(4), 197281);
}

#[test]
fn perft_start_depth_five() {
    let b = Board::start_position();
    assert_eq!(b.perft(5), 4865609);
}

#[test]
fn perft_kiwipete_depth_three() {
    let b =
        Board::from_fen("r3k2r/p1ppqpb1/bn2pnp1/3PN3/1p2P3/2N2Q1p/PPPBBPPP/R3K2R w KQkq -")
            .unwrap();
    assert_eq!(b.perft(3), 97862);
}

#[test]
fn perft_promotions_depth_four() {
    let b = Board::from_fen("n1n5/PPPk4/8/8/8/8/4Kppp/5N1N b - -").unwrap();
    assert_eq!(b.perft(4), 182838);
}

#[test]
fn is_irreversible_flags_pawn_moves_captures_and_castles() {
    let b = Board::start_position();
    let pawn = b.move_from_str("e2e4").unwrap();
    assert!(b.is_irreversible(pawn));
    let knight = b.move_from_str("g1f3").unwrap();
    assert!(!b.is_irreversible(knight));
    let c = Board::from_fen("r3k2r/8/8/8/8/8/8/R3K2R w KQkq -").unwrap();
    let castle = c.move_from_str("e1g1").unwrap();
    assert!(c.is_irreversible(castle));
}

#[test]
fn sort_with_puts_hint_then_killers_then_see_order() {
    let b = Board::from_fen("4k3/3p4/8/3p4/4P3/8/8/4K3 w - -").unwrap();
    let moves = b.get_moves();
    assert!(!moves.is_empty());
    let best = moves[moves.len() - 1];
    let killer = Killer(moves[0], moves[0]);
    let ranked = b.sort_with(moves.clone(), best, &killer);
    assert_eq!(ranked.len(), moves.len());
    assert_eq!(ranked[0].1, best);
    assert_eq!(ranked[0].0, 10_000_000);
    for w in ranked.windows(2) {
        assert!(w[0].0 >= w[1].0);
    }
}

#[test]
fn qsort_keeps_only_winning_captures() {
    let b = Board::from_fen("4k3/8/8/3p4/4P3/8/8/4K3 w - -").unwrap();
    let moves = b.get_moves();
    let ranked = b.qsort(&moves);
    assert_eq!(ranked.len(), 1);
    assert_eq!(ranked[0].0, 100);
    assert_eq!(ranked[0].1.to(), sq("d5") as u32);
}

#[test]
fn get_moves_flags_double_pushes_and_captures() {
    let b = Board::start_position();
    let moves = b.get_moves();
    assert_eq!(moves.len(), 20);
    let doubles = moves.iter().filter(|m| m.is_double_push()).count();
    assert_eq!(doubles, 8);
    let captures = moves.iter().filter(|m| m.is_capture()).count();
    assert_eq!(captures, 0);
}

#[test]
fn promotion_moves_expand_four_ways() {
    let b = Board::from_fen("8/P7/8/8/8/8/k6K/8 w - -").unwrap();
    let moves = b.get_moves();
    let proms: Vec<&Move> = moves
        .iter()
        .filter(|m| m.promotion() != 0 && m.from() == sq("a7") as u32)
        .collect();
    assert_eq!(proms.len(), 4);
}

#[test]
fn pawn_kind_mask_reads_through_color() {
    assert_eq!((PAWN | WHITE) & PIECE, PAWN);
    assert_eq!((PAWN | BLACK) & PIECE, PAWN);
    let m = Move::new(12, 28, DOUBLE_PAWN_PUSH | EN_PASSANT);
    assert!(m.is_double_push());
    assert!(m.is_en_passant());
    assert!(!m.is_capture());
}
