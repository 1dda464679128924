use siegfried::maps::load_maps;
use siegfried::position::Position;
use siegfried::tree::{ExpandStyle, PositionTree};
use siegfried::types::Side;

#[test]
fn search_returns_ranked_root_moves() {
    let tables = load_maps();
    let p = Position::new_game();
    let mut tree = PositionTree::new(p, &tables);
    let moves = tree.expand_to_depth(2, ExpandStyle::default_style(), Side(0), &tables);
    assert!(!moves.is_empty());
    assert!(moves.len() <= 16);
    let mut q = p;
    let eval = q.evaluate(&tables);
    for m in moves.iter() {
        assert!(eval.moves.contains(m));
    }
    assert_eq!(tree.get_children(0).len(), 20);
    assert_eq!(tree.get_parent(1), Some(0));
}

#[test]
fn search_finds_mate_in_one() {
    let tables = load_maps();
    let p = Position::from_fen("6k1/5ppp/8/8/8/8/8/R5K1 w - - 0 1").unwrap();
    let mut tree = PositionTree::new(p, &tables);
    let moves = tree.expand_to_depth(1, ExpandStyle::default_style(), Side(0), &tables);
    assert_eq!(moves[0].get_tstring(), "a1a8");
}

#[test]
fn second_search_pairs_moves_with_scores() {
    let tables = load_maps();
    let p = Position::new_game();
    let mut tree = PositionTree::new(p, &tables);
    let scored = tree.expand_to_depth_v2(2, ExpandStyle::random(), Side(0), &tables);
    assert!(!scored.is_empty());
    for pair in scored.windows(2) {
        assert!(pair[0].1 >= pair[1].1);
    }
}
