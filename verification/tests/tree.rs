//! Tests of the variation tree: recording, navigation, branch
//! reordering, deletion, persistence, and the move-list text.

use chess_core::board::Step;
use chess_core::fen::{read_fen, write_fen, INITIAL_FEN};
use chess_core::game_tree::GameTree;

fn start_tree() -> GameTree {
    GameTree::new(read_fen(INITIAL_FEN.to_string()))
}

fn step(fx: usize, fy: usize, tx: usize, ty: usize) -> Step {
    Step { from: (fx, fy), to: (tx, ty) }
}

fn node_count(tree: &GameTree) -> usize {
    let text = tree.to_string();
    let lines: Vec<&str> = text.lines().collect();
    lines[2].parse().unwrap()
}

#[test]
fn new_tree_sits_at_root() {
    let tree = start_tree();
    assert!(tree.is_first_board());
    assert!(tree.is_last_board());
    assert_eq!(write_fen(tree.board()), INITIAL_FEN.to_string());
}

#[test]
fn try_move_records_and_advances() {
    let mut tree = start_tree();
    assert!(tree.try_move(step(4, 1, 4, 3)));
    assert!(!tree.is_first_board());
    assert!(tree.is_last_board());
    assert_eq!(node_count(&tree), 2);
    assert_eq!(tree.board().en_passant_target, Some((4, 2)));
}

#[test]
fn illegal_move_changes_nothing() {
    let mut tree = start_tree();
    assert!(!tree.try_move(step(0, 0, 7, 7)));
    assert!(tree.is_first_board());
    assert_eq!(node_count(&tree), 1);
}

#[test]
fn replaying_a_recorded_move_reuses_the_node() {
    let mut tree = start_tree();
    assert!(tree.try_move(step(4, 1, 4, 3)));
    tree.move_backward();
    assert!(tree.try_move(step(4, 1, 4, 3)));
    assert_eq!(node_count(&tree), 2);
}

#[test]
fn navigation_walks_the_mainline() {
    let mut tree = start_tree();
    assert!(tree.try_move(step(4, 1, 4, 3)));
    assert!(tree.try_move(step(4, 6, 4, 4)));
    tree.move_to_start();
    assert!(tree.is_first_board());
    tree.move_forward();
    assert_eq!(tree.board().en_passant_target, Some((4, 2)));
    tree.move_to_end();
    assert!(tree.is_last_board());
    assert_eq!(tree.board().fullmove, 2);
    tree.move_backward();
    tree.move_backward();
    assert!(tree.is_first_board());
    tree.move_backward();
    assert!(tree.is_first_board());
}

#[test]
fn pgn_lists_the_line() {
    let mut tree = start_tree();
    assert!(tree.try_move(step(4, 1, 4, 3)));
    assert!(tree.try_move(step(4, 6, 4, 4)));
    assert!(tree.try_move(step(6, 0, 5, 2)));
    assert_eq!(tree.pgn(3), "1.e4 e5 2.Nf3".to_string());
    assert_eq!(tree.pgn(1), "1.e4".to_string());
    assert_eq!(tree.pgn(0), "".to_string());
}

#[test]
fn from_pgn_replays_tokens() {
    let tokens = vec!["e4".to_string(), "e5".to_string(), "Nf3".to_string()];
    let mut tree = GameTree::from_pgn(tokens);
    assert!(tree.is_last_board());
    assert_eq!(node_count(&tree), 4);
    tree.move_to_start();
    assert_eq!(write_fen(tree.board()), INITIAL_FEN.to_string());
}

#[test]
fn from_pgn_skips_undecodable_tokens() {
    let tokens = vec!["e4".to_string(), "nonsense".to_string(), "e5".to_string()];
    let tree = GameTree::from_pgn(tokens);
    assert_eq!(node_count(&tree), 3);
}

#[test]
fn tree_text_round_trip() {
    let mut tree = start_tree();
    assert!(tree.try_move(step(4, 1, 4, 3)));
    assert!(tree.try_move(step(4, 6, 4, 4)));
    tree.move_to_start();
    assert!(tree.try_move(step(3, 1, 3, 3)));
    let text = tree.to_string();
    let reloaded = GameTree::from_string(text.clone()).unwrap();
    assert_eq!(reloaded.to_string(), text);
}

#[test]
fn tree_text_layout() {
    let mut tree = start_tree();
    assert!(tree.try_move(step(4, 1, 4, 3)));
    let text = tree.to_string();
    let lines: Vec<&str> = text.lines().collect();
    assert_eq!(lines[0], "[chess game tree]");
    assert_eq!(lines[1], INITIAL_FEN);
    assert_eq!(lines[2], "2");
    assert_eq!(lines[3], "(1, e4)");
}

#[test]
fn from_string_rejects_bad_header() {
    assert!(GameTree::from_string("nonsense".to_string()).is_none());
    assert!(GameTree::from_string("".to_string()).is_none());
    let text = format!("[not a tree]\n{}\n1\n", INITIAL_FEN);
    assert!(GameTree::from_string(text).is_none());
}

#[test]
fn from_string_rejects_bad_child_index() {
    let text = format!("[chess game tree]\n{}\n2\n(7, e4)", INITIAL_FEN);
    assert!(GameTree::from_string(text).is_none());
}

#[test]
fn from_string_rejects_bad_san() {
    let text = format!("[chess game tree]\n{}\n2\n(1, e6)", INITIAL_FEN);
    assert!(GameTree::from_string(text).is_none());
}

#[test]
fn from_string_rejects_unconnected_nodes() {
    let text = format!("[chess game tree]\n{}\n3\n(1, e4)", INITIAL_FEN);
    assert!(GameTree::from_string(text).is_none());
}

#[test]
fn delete_variation_removes_subtree() {
    let mut tree = start_tree();
    assert!(tree.try_move(step(4, 1, 4, 3)));
    assert!(tree.try_move(step(4, 6, 4, 4)));
    tree.move_to_start();
    assert!(tree.try_move(step(3, 1, 3, 3)));
    assert_eq!(node_count(&tree), 4);
    // The focus sits on the variation being deleted, so it falls back
    // to the root; exactly the one-node subtree disappears.
    let reset = tree.handle_delete_variation(3);
    assert!(reset);
    assert_eq!(node_count(&tree), 3);
    assert!(tree.is_first_board());
    assert_eq!(write_fen(tree.board()), INITIAL_FEN.to_string());
}

#[test]
fn delete_variation_removes_whole_subtree() {
    let mut tree = start_tree();
    assert!(tree.try_move(step(4, 1, 4, 3)));
    assert!(tree.try_move(step(4, 6, 4, 4)));
    tree.move_to_start();
    assert!(tree.try_move(step(3, 1, 3, 3)));
    // Deleting the e4 branch removes both of its nodes; the focus on
    // the d4 branch survives under its new number.
    let reset = tree.handle_delete_variation(1);
    assert!(!reset);
    assert_eq!(node_count(&tree), 2);
    assert_eq!(tree.board().en_passant_target, Some((3, 2)));
}

#[test]
fn delete_variation_keeps_outside_focus() {
    let mut tree = start_tree();
    assert!(tree.try_move(step(4, 1, 4, 3)));
    tree.move_to_start();
    assert!(tree.try_move(step(3, 1, 3, 3)));
    tree.move_to_start();
    // Deleting the d4 branch while focused at the root keeps the focus.
    let reset = tree.handle_delete_variation(2);
    assert!(!reset);
    assert_eq!(node_count(&tree), 2);
    assert!(tree.is_first_board());
}

#[test]
fn delete_root_is_refused() {
    let mut tree = start_tree();
    assert!(tree.try_move(step(4, 1, 4, 3)));
    let reset = tree.handle_delete_variation(0);
    assert!(!reset);
    assert_eq!(node_count(&tree), 2);
}

#[test]
fn promote_variation_reorders_children() {
    let mut tree = start_tree();
    assert!(tree.try_move(step(4, 1, 4, 3)));
    tree.move_to_start();
    assert!(tree.try_move(step(3, 1, 3, 3)));
    tree.move_to_start();
    tree.move_forward();
    assert_eq!(tree.board().en_passant_target, Some((4, 2)));
    tree.move_to_start();
    tree.promote_variation(2);
    tree.move_forward();
    assert_eq!(tree.board().en_passant_target, Some((3, 2)));
}

#[test]
fn set_as_mainline_promotes_the_whole_path() {
    let mut tree = start_tree();
    assert!(tree.try_move(step(4, 1, 4, 3)));
    assert!(tree.try_move(step(4, 6, 4, 4)));
    tree.move_to_start();
    assert!(tree.try_move(step(3, 1, 3, 3)));
    assert!(tree.try_move(step(3, 6, 3, 4)));
    tree.set_as_mainline(4);
    tree.move_to_start();
    tree.move_to_end();
    assert_eq!(tree.board().en_passant_target, Some((3, 5)));
}
