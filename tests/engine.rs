use siegfried::bitboard::{Bitboard, BitboardMethods};
use siegfried::evaluate::PositionEvaluation;
use siegfried::maps::{load_maps, AttackTables};
use siegfried::position::{Move, Position};
use siegfried::types::{GameState, GameStateConstants, PAWN, ROOK, KING};

const START: &str = "rnbqkbnr/pppppppp/8/8/8/8/PPPPPPPP/RNBQKBNR w KQkq - 0 1";

fn position(fen: &str) -> Position {
    Position::from_fen(fen).expect("valid FEN")
}

fn texts(eval: &PositionEvaluation) -> Vec<String> {
    let mut v: Vec<String> = eval.moves.iter().map(|m| m.get_tstring()).collect();
    v.sort();
    v
}

fn find(eval: &PositionEvaluation, text: &str) -> Move {
    *eval.moves.iter().find(|m| m.get_tstring() == text).expect("move present")
}

fn perft(tables: &AttackTables, p: &Position, depth: u32) -> u64 {
    let mut q = *p;
    let eval = q.evaluate(tables);
    if depth == 1 {
        return eval.moves.len() as u64;
    }
    let mut total = 0;
    for m in eval.moves.iter() {
        total += perft(tables, &q.make_move(*m), depth - 1);
    }
    total
}

#[test]
fn start_position_has_twenty_moves() {
    let tables = load_maps();
    let mut p = position(START);
    let eval = p.evaluate(&tables);
    assert_eq!(eval.moves.len(), 20);
    assert!(eval.game_state == GameState::ongoing());
    let score = eval.score.unwrap();
    assert!(-5 <= score && score <= 5);
}

#[test]
fn perft_from_start() {
    let tables = load_maps();
    let p = Position::new_game();
    assert_eq!(perft(&tables, &p, 1), 20);
    assert_eq!(perft(&tables, &p, 2), 400);
    assert_eq!(perft(&tables, &p, 3), 8902);
}

#[test]
fn king_and_pawn_is_not_insufficient() {
    let tables = load_maps();
    let mut p = position("4k3/8/8/8/8/8/4P3/4K3 w - - 0 1");
    let eval = p.evaluate(&tables);
    assert!(eval.game_state == GameState::ongoing());
    let mut bare = position("4k3/8/8/8/8/8/8/4K3 w - - 0 1");
    let eval = bare.evaluate(&tables);
    assert!(eval.game_state == GameState::draw());
    assert_eq!(eval.state_note.unwrap(), "insufficient material");
    assert!(eval.moves.is_empty());
}

#[test]
fn king_with_free_squares_is_not_stalemated() {
    let tables = load_maps();
    let mut p = position("7k/8/8/8/8/8/5PPP/4R2K b - - 0 1");
    let eval = p.evaluate(&tables);
    assert!(eval.game_state == GameState::ongoing());
    assert_eq!(texts(&eval), vec!["h8g7", "h8g8", "h8h7"]);
}

#[test]
fn stalemate_is_a_draw_with_no_moves() {
    let tables = load_maps();
    let mut p = position("7k/5Q2/6K1/8/8/8/8/8 b - - 0 1");
    let eval = p.evaluate(&tables);
    assert!(eval.game_state == GameState::draw());
    assert_eq!(eval.state_note.unwrap(), "no moves");
    assert_eq!(eval.score, Some(0));
    assert!(eval.moves.is_empty());
}

#[test]
fn en_passant_capture_removes_the_pawn() {
    let tables = load_maps();
    let mut p = position("rnbqkbnr/ppp2ppp/8/3pP3/8/8/PPPP1PPP/RNBQKBNR w KQkq d6 0 3");
    let eval = p.evaluate(&tables);
    let m = find(&eval, "e5d6");
    assert_eq!(m.capture, Some(PAWN));
    assert_eq!(m.en_passant, Some(43));
    let after = p.make_move(m);
    assert!(!after.pieces[1][PAWN].get_squares().contains(&35));
    assert!(after.pieces[0][PAWN].get_squares().contains(&43));
    assert_eq!(after.halfmove_clock, 0);
}

#[test]
fn castling_both_ways() {
    let tables = load_maps();
    let mut p = position("r3k2r/pppppppp/8/8/8/8/PPPPPPPP/R3K2R w KQkq - 0 1");
    let eval = p.evaluate(&tables);
    let short = find(&eval, "e1g1");
    let _long = find(&eval, "e1c1");
    let after = p.make_move(short);
    let rooks: Bitboard = after.pieces[0][ROOK];
    assert!(!rooks.get_squares().contains(&7));
    assert!(rooks.get_squares().contains(&5));
    assert_eq!(after.pieces[0][KING].to_square(), 6);
    assert!(!after.castling_rights.white_king_side);
    assert!(!after.castling_rights.white_queen_side);
    assert!(after.castling_rights.black_king_side);
    assert_eq!(after.halfmove_clock, 1);
}

#[test]
fn rook_check_leaves_only_evasions() {
    let tables = load_maps();
    let mut p = position("8/8/8/2k5/8/2K5/8/R7 w - - 0 1");
    let eval = p.evaluate(&tables);
    let m = find(&eval, "a1a5");
    let mut after = p.make_move(m);
    let reply = after.evaluate(&tables);
    assert!(reply.game_state == GameState::check());
    assert_eq!(texts(&reply), vec!["c5b6", "c5c6", "c5d6"]);
}

#[test]
fn back_rank_mate_is_checkmate() {
    let tables = load_maps();
    let mut p = position("6k1/5ppp/8/8/8/8/8/R5K1 w - - 0 1");
    let eval = p.evaluate(&tables);
    let m = find(&eval, "a1a8");
    let mut after = p.make_move(m);
    let reply = after.evaluate(&tables);
    assert!(reply.game_state == GameState::checkmate());
    assert!(reply.moves.is_empty());
    assert_eq!(reply.score, Some(1000000));
}

#[test]
fn double_check_allows_only_king_moves() {
    let tables = load_maps();
    let mut p = position("4r1k1/8/8/8/1b6/8/8/4K3 w - - 0 1");
    let eval = p.evaluate(&tables);
    assert!(eval.game_state == GameState::check());
    for m in eval.moves.iter() {
        assert_eq!(m.translation.unwrap().from, 4);
    }
    assert_eq!(texts(&eval), vec!["e1d1", "e1f1", "e1f2"]);
}

#[test]
fn threefold_repetition_is_a_draw() {
    let tables = load_maps();
    let mut p = position("4k3/8/8/8/8/8/8/R3K3 w - - 0 1");
    let h = p.hasher.hash_position(&p);
    p.zobrist_stack.add(h);
    p.zobrist_stack.add(h);
    let eval = p.evaluate(&tables);
    assert!(eval.game_state == GameState::draw());
    assert_eq!(eval.state_note.unwrap(), "threefold repetition");
    assert_eq!(eval.score, Some(0));
}

#[test]
fn fifty_move_rule_is_a_draw() {
    let tables = load_maps();
    let mut p = position("4k3/8/8/8/8/8/8/R3K3 w - - 100 80");
    let eval = p.evaluate(&tables);
    assert!(eval.game_state == GameState::draw());
    assert_eq!(eval.state_note.unwrap(), "fifty-move rule");
}

#[test]
fn quiet_move_counts_and_pawn_move_resets() {
    let tables = load_maps();
    let mut p = position("4k3/8/8/8/8/8/4P3/R3K3 w - - 7 10");
    let eval = p.evaluate(&tables);
    let quiet = p.make_move(find(&eval, "a1a2"));
    assert_eq!(quiet.halfmove_clock, 8);
    assert_eq!(quiet.fullmove_number, 10);
    let push = p.make_move(find(&eval, "e2e4"));
    assert_eq!(push.halfmove_clock, 0);
    assert_eq!(push.en_passant_square, None);
}

#[test]
fn fen_round_trip() {
    let fens = [
        START,
        "rnbqkbnr/ppp2ppp/8/3pP3/8/8/PPPP1PPP/RNBQKBNR w KQkq d6 0 3",
        "r3k2r/pppppppp/8/8/8/8/PPPPPPPP/R3K2R b Kq - 12 40",
    ];
    for fen in fens.iter() {
        let p = position(fen);
        assert_eq!(p.to_fen(), *fen);
        let q = position(&p.to_fen());
        assert_eq!(q.pieces, p.pieces);
        assert_eq!(q.castling_rights, p.castling_rights);
    }
}

#[test]
fn malformed_fen_is_rejected() {
    assert!(Position::from_fen("").is_none());
    assert!(Position::from_fen("8/8/8/8/8/8/8/8 w - - 0 1").is_none());
    assert!(Position::from_fen("rnbqkbnr/pppppppp/8/8/8/8/PPPPPPPP/RNBQKBNR x KQkq - 0 1").is_none());
    assert!(Position::from_fen("rnbqkbnr/pppppppp/9/8/8/8/PPPPPPPP/RNBQKBNR w KQkq - 0 1").is_none());
}

#[test]
fn en_passant_that_uncovers_the_king_is_left_out() {
    let tables = load_maps();
    let mut p = position("8/8/8/K2pP2r/8/8/8/7k w - d6 0 1");
    let eval = p.evaluate(&tables);
    assert!(!texts(&eval).contains(&"e5d6".to_string()));
    assert!(texts(&eval).contains(&"e5e6".to_string()));
}

#[test]
fn perft_four_plies_from_start() {
    let tables = load_maps();
    let p = Position::new_game();
    assert_eq!(perft(&tables, &p, 4), 197281);
}

#[test]
fn moves_as_display_text() {
    let tables = load_maps();
    let mut p = position("4k3/P7/8/3p4/4P3/8/8/4K3 w - - 0 1");
    let eval = p.evaluate(&tables);
    assert_eq!(find(&eval, "e4d5").display_text(), "e4xd5");
    assert_eq!(find(&eval, "a7a8q").display_text(), "a7a8=Q");
    assert_eq!(find(&eval, "e1d1").display_text(), "e1d1");
}
