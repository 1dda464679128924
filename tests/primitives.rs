use siegfried::bitboard::{count_squares, Bitboard, BitboardConstants, BitboardMethods};
use siegfried::display::get_rank_string;
use siegfried::game::Game;
use siegfried::maps::{
    get_bishop_attacks, get_king_attacks, get_knight_attacks, get_pawn_attacks, get_pawn_moves,
    get_queen_attacks, get_ray_between_squares, get_rook_attacks, load_maps,
};
use siegfried::masks::{
    get_diagonal_ascending_mask, get_diagonal_descending_mask, get_file_mask, get_rank_mask,
    mask_bishop_attacks, mask_king_attacks, mask_knight_attacks, mask_pawn_attacks,
    mask_rook_attacks,
};
use siegfried::position::{Castling, Position, ZobristMoveStack};
use siegfried::types::{PieceMethods, Side, SquareConstants, SquareMethods, Square};

fn board(squares: &[u8]) -> Bitboard {
    let mut b: Bitboard = 0;
    for s in squares {
        b = b.set_bit(*s);
    }
    b
}

#[test]
fn bitboard_set_pop_and_list() {
    let mut b = board(&[3, 17, 63]);
    assert_eq!(b.get_squares(), vec![3, 17, 63]);
    assert_eq!(b.to_square(), 3);
    assert_eq!(b.pop_lsb(), 1 << 3);
    assert_eq!(b.get_squares(), vec![17, 63]);
    assert_eq!(b.unset_bit(63), 1 << 17);
    assert_eq!(count_squares(b), 2);
    let mut empty: Bitboard = 0;
    assert_eq!(empty.pop_lsb(), 0);
    assert_eq!(empty.to_square(), 64);
}

#[test]
fn line_masks() {
    assert_eq!(get_file_mask(0), 0x0101010101010100);
    assert_eq!(get_rank_mask(0), 0xFE);
    assert_eq!(get_diagonal_ascending_mask(0), 0x8040201008040200);
    assert_eq!(get_diagonal_descending_mask(7), 0x0102040810204000);
}

#[test]
fn leaper_masks() {
    assert_eq!(mask_knight_attacks(0), board(&[10, 17]));
    assert_eq!(mask_king_attacks(0), board(&[1, 8, 9]));
    assert_eq!(mask_pawn_attacks(Side(0), 12), board(&[19, 21]));
    assert_eq!(mask_pawn_attacks(Side(1), 8), board(&[1]));
}

#[test]
fn slider_masks_stop_at_blockers() {
    let occupancy = board(&[3, 24]);
    assert_eq!(mask_rook_attacks(0, occupancy), board(&[1, 2, 3, 8, 16, 24]));
    assert_eq!(mask_bishop_attacks(0, board(&[27])), board(&[9, 18, 27]));
}

#[test]
fn table_lookups_match_the_masks() {
    let tables = load_maps();
    let occupancy = board(&[3, 24, 27, 50, 12]);
    for s in 0..64u8 {
        assert_eq!(get_rook_attacks(&tables, s, occupancy), mask_rook_attacks(s, occupancy));
        assert_eq!(get_bishop_attacks(&tables, s, occupancy), mask_bishop_attacks(s, occupancy));
        assert_eq!(
            get_queen_attacks(&tables, s, occupancy),
            mask_rook_attacks(s, occupancy) | mask_bishop_attacks(s, occupancy)
        );
        assert_eq!(get_knight_attacks(&tables, s), mask_knight_attacks(s));
        assert_eq!(get_king_attacks(&tables, s), mask_king_attacks(s));
        assert_eq!(get_pawn_attacks(&tables, Side(1), s), mask_pawn_attacks(Side(1), s));
    }
    assert_eq!(get_rook_attacks(&tables, 0, board(&[3, 24])), board(&[1, 2, 3, 8, 16, 24]));
}

#[test]
fn pawn_pushes() {
    assert_eq!(get_pawn_moves(Side(0), 12, 0), board(&[20, 28]));
    assert_eq!(get_pawn_moves(Side(0), 12, board(&[28])), board(&[20]));
    assert_eq!(get_pawn_moves(Side(0), 12, board(&[20])), 0);
    assert_eq!(get_pawn_moves(Side(1), 52, 0), board(&[44, 36]));
}

#[test]
fn rays_between_squares() {
    assert_eq!(get_ray_between_squares(0, 63), board(&[9, 18, 27, 36, 45, 54]));
    assert_eq!(get_ray_between_squares(4, 0), board(&[1, 2, 3]));
    assert_eq!(get_ray_between_squares(0, 17), 0);
    assert_eq!(get_ray_between_squares(5, 5), 0);
}

#[test]
fn squares_and_pieces_as_text() {
    let e4: Square = 28;
    assert_eq!(e4.as_string(), "e4");
    assert_eq!(Square::from_string("e4"), Some(28));
    assert_eq!(Square::from_string("i9"), None);
    assert_eq!(<usize as PieceMethods>::from_char_board('n').map(|(p, s)| (p, s.0)), Some((1, 1)));
    assert_eq!(3usize.to_char_board(Side(0)), 'R');
    assert_eq!(get_rank_string(0b0000_0101), " 1  .  1  .  .  .  .  . ");
}

#[test]
fn castling_index_and_repetitions() {
    let mut c = Castling::new_game();
    assert_eq!(c.get_zobrist_index(), 15);
    c.white_queen_side = false;
    assert_eq!(c.get_zobrist_index(), 13);
    let mut stack = ZobristMoveStack::new();
    stack.add(7);
    stack.add(9);
    stack.add(7);
    assert_eq!(stack.get_repetitions(7), 2);
    assert_eq!(stack.get_repetitions(9), 1);
    assert_eq!(stack.get_repetitions(0), 0);
    for _ in 0..120 {
        stack.add(5);
    }
    assert_eq!(stack.get_repetitions(5), 100);
    assert_eq!(stack.get_repetitions(7), 0);
}

#[test]
fn game_record() {
    let tables = load_maps();
    let mut game = Game::new();
    let m = game.parse_move("e2e4", &tables).unwrap();
    game.make_move(m);
    let m = game.parse_move("e7e5", &tables).unwrap();
    game.make_move(m);
    let m = game.parse_move("g1f3", &tables).unwrap();
    game.make_move(m);
    assert!(game.parse_move("e1e3", &tables).is_none());
    assert_eq!(game.get_pgn(), "1. e2e4 e7e5 2. g1f3 ");
    assert_eq!(game.get_move_history().len(), 3);
}

#[test]
fn named_squares_and_boards() {
    assert_eq!(Square::A1, 0);
    assert_eq!(Square::E4, 28);
    assert_eq!(Square::H8, 63);
    assert_eq!(Square::NONE, 64);
    assert_eq!(Bitboard::EMPTY, 0);
    assert_eq!(Bitboard::FULL.get_squares().len(), 64);
    assert_eq!(Square::E4.to_bitboard(), 1 << 28);
}

#[test]
fn game_evaluates_its_own_position() {
    let tables = load_maps();
    let mut game = Game::new();
    let eval = game.evaluate(&tables);
    assert_eq!(eval.moves.len(), 20);
    let m = Game::find_move(&eval.moves, "g1f3").unwrap();
    assert_eq!(m.get_tstring(), "g1f3");
    assert!(Game::find_move(&eval.moves, "g1g3").is_none());
    game.make_move(m);
    let start_hash = game.get_position().hasher.hash_position(&Position::new_game());
    assert_eq!(game.get_position().zobrist_stack.get_repetitions(start_hash), 1);
}
