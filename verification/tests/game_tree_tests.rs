use fastgo::game_tree::GameTree;
use fastgo::go_move::GoMove;
use fastgo::sgf::{Parse, SgfReader, SgfToken};

fn sample_sgf() -> String {
    String::from(
        "(;GM[1]FF[4]CA[utf-8]AP[fastgo]KM[7.5]SZ[19]DT[2024-01-01 00:00:00]PB[a]PW[b];B[pd];W[dd];B[pq](;W[qo];B[np])(;W[qp];B[np]))",
    )
}

#[test]
pub fn test_scan_sgf() {
    let sgf_reader = SgfReader::new(sample_sgf());
    let sgf_tokens = sgf_reader.parse();
    let game_tree = GameTree::from_sgf_tokens(&sgf_tokens, 0, sgf_tokens.len() - 1, true, true);
    let json = match game_tree {
        Some(game_tree) => Some(game_tree.to_json()),
        None => None,
    };
    println!("json={}", json::stringify(json));
}

#[test]
pub fn create_new_sgf() {
    let game_tree = GameTree::create(
        String::from("7.5"),
        19,
        String::from("a"),
        String::from("b"),
    );
    println!("{:?}", json::stringify(game_tree.to_json().unwrap()));
    assert!(matches!(game_tree.nodes[0].node_key, SgfToken::GM));
    assert_eq!(game_tree.nodes[0].node_val, String::from("1"));
    assert!(matches!(game_tree.nodes[1].node_key, SgfToken::FF));
    assert_eq!(game_tree.nodes[1].node_val, String::from("4"));
    assert_eq!(game_tree.nodes[2].node_val, String::from("utf-8"));
    assert_eq!(game_tree.nodes[3].node_val, String::from("fastgo"));
    assert_eq!(game_tree.nodes[4].node_val, String::from("7.5"));
    assert_eq!(game_tree.nodes[5].node_val, String::from("19"));
    assert_eq!(game_tree.nodes.len(), 9);
    assert!(game_tree.is_root);
    assert!(game_tree.sub_game_trees.is_empty());
}

#[test]
pub fn test_record_move() {
    let sgf_reader = SgfReader::new(sample_sgf());
    let sgf_tokens = sgf_reader.parse();
    let mut game_tree = GameTree::from_sgf_tokens(&sgf_tokens, 0, sgf_tokens.len(), true, true)
        .unwrap();
    println!("before={}", json::stringify(game_tree.to_json()));
    GameTree::record_move(&mut game_tree, 5, GoMove::new(9, 3, 10, -1));
    println!("after={}", json::stringify(game_tree.to_json()));
    let _ = game_tree._to_string().unwrap();
}

#[test]
pub fn test_to_string() {
    let sgf_reader = SgfReader::new(sample_sgf());
    let sgf_tokens = sgf_reader.parse();
    let game_tree = GameTree::from_sgf_tokens(&sgf_tokens, 0, sgf_tokens.len() - 1, true, true)
        .unwrap();
    println!("{}", game_tree._to_string().unwrap());
}

#[test]
fn round_trip_reproduces_structure() {
    let text = sample_sgf();
    let reader = SgfReader::new(text);
    let tokens = reader.parse_tokens();
    let tree1 = GameTree::from_sgf_tokens(&tokens, 0, tokens.len() - 1, true, true).unwrap();
    let text2 = tree1._to_string().unwrap();
    let reader2 = SgfReader::new(text2.clone());
    let tokens2 = reader2.parse_tokens();
    let tree2 = GameTree::from_sgf_tokens(&tokens2, 0, tokens2.len() - 1, true, true).unwrap();
    // structurally equal trees serialize to the same text
    assert_eq!(text2, tree2._to_string().unwrap());
    assert_eq!(
        json::stringify(tree1.to_json().unwrap()),
        json::stringify(tree2.to_json().unwrap())
    );
    assert_eq!(tree1.nodes.len(), tree2.nodes.len());
    assert_eq!(tree1.sub_game_trees.len(), tree2.sub_game_trees.len());
}

#[test]
fn record_move_twice_is_idempotent() {
    let reader = SgfReader::new(sample_sgf());
    let tokens = reader.parse_tokens();
    let mut tree = GameTree::from_sgf_tokens(&tokens, 0, tokens.len() - 1, true, true).unwrap();
    // append a fourth move at the end of the main line's continuation
    let mv = GoMove::new(3, 3, 15, -1);
    assert!(GameTree::record_move(&mut tree, 3, mv));
    let once = tree._to_string().unwrap();
    let node_count = tree.nodes.len();
    let sub_count = tree.sub_game_trees.len();
    let mv_again = GoMove::new(3, 3, 15, -1);
    assert!(GameTree::record_move(&mut tree, 3, mv_again));
    assert_eq!(tree.nodes.len(), node_count);
    assert_eq!(tree.sub_game_trees.len(), sub_count);
    assert_eq!(tree._to_string().unwrap(), once);
}

#[test]
fn mid_segment_insertion_branches() {
    let reader = SgfReader::new(String::from(
        "(;GM[1]FF[4]SZ[19];B[aa];W[bb];B[cc];W[dd])",
    ));
    let tokens = reader.parse_tokens();
    let mut tree = GameTree::from_sgf_tokens(&tokens, 0, tokens.len() - 1, true, true).unwrap();
    assert_eq!(tree.sub_game_trees.len(), 0);
    let nodes_before = tree.nodes.len();
    // replace the third move (index 2) with a different one: splits history
    let mv = GoMove::new(2, 5, 5, 1);
    assert!(GameTree::record_move(&mut tree, 2, mv));
    assert_eq!(tree.sub_game_trees.len(), 2);
    assert!(tree.sub_game_trees[0].selected);
    assert!(!tree.sub_game_trees[1].selected);
    assert_eq!(tree.sub_game_trees[0].nodes.len(), 1);
    assert_eq!(tree.sub_game_trees[0].nodes[0].node_val, String::from("ff"));
    // the old remainder kept both replaced moves
    assert_eq!(tree.sub_game_trees[1].nodes.len(), 2);
    assert_eq!(tree.nodes.len() + 2, nodes_before);
}

#[test]
fn get_moves_reads_recorded_moves() {
    let reader = SgfReader::new(String::from("(;GM[1]FF[4]SZ[19];B[ab];W[cd];B[ef])"));
    let tokens = reader.parse_tokens();
    let tree = GameTree::from_sgf_tokens(&tokens, 0, tokens.len() - 1, true, true).unwrap();
    let first = GameTree::get_moves(&tree, 0).unwrap();
    assert_eq!(first.len(), 1);
    assert_eq!(first[0].0.move_pos(), (0, 1, 1));
    assert!(first[0].1);
    let second = GameTree::get_moves(&tree, 1).unwrap();
    assert_eq!(second[0].0.move_pos(), (2, 3, -1));
    let third = GameTree::get_moves(&tree, 2).unwrap();
    assert_eq!(third[0].0.move_pos(), (4, 5, 1));
    // past the final move of a line with no variations: nothing to offer
    assert!(GameTree::get_moves(&tree, 3).is_none());
    // negative index is rejected
    assert!(GameTree::get_moves(&tree, -1).is_none());
}

#[test]
fn get_moves_offers_variations() {
    let reader = SgfReader::new(String::from(
        "(;GM[1]FF[4]SZ[19];B[pd](;W[qo];B[np])(;W[qp]))",
    ));
    let tokens = reader.parse_tokens();
    let tree = GameTree::from_sgf_tokens(&tokens, 0, tokens.len() - 1, true, true).unwrap();
    let cands = GameTree::get_moves(&tree, 1).unwrap();
    assert_eq!(cands.len(), 2);
    assert_eq!(cands[0].0.move_pos(), (16, 14, -1));
    assert!(cands[0].1);
    assert_eq!(cands[1].0.move_pos(), (16, 15, -1));
    assert!(!cands[1].1);
}

#[test]
fn rejected_inputs_change_nothing() {
    let reader = SgfReader::new(String::from("(;GM[1];B[aa])"));
    let tokens = reader.parse_tokens();
    // a range past the token sequence is the one rejected build input
    assert!(GameTree::from_sgf_tokens(&tokens, 0, tokens.len() + 1, true, true).is_none());
    let mut tree = GameTree::from_sgf_tokens(&tokens, 0, tokens.len() - 1, true, true).unwrap();
    let before = tree._to_string().unwrap();
    // a negative index is the one rejected input and records nothing
    assert!(!GameTree::record_move(&mut tree, -1, GoMove::new(0, 1, 1, 1)));
    // an index past the line with no variation to follow succeeds as a no-op
    assert!(GameTree::record_move(&mut tree, 7, GoMove::new(7, 1, 1, 1)));
    assert_eq!(tree._to_string().unwrap(), before);
}

#[test]
fn navigation_descends_the_selected_line() {
    let reader = SgfReader::new(String::from(
        "(;GM[1]FF[4]SZ[19];B[aa](;W[bb];B[cc];W[dd])(;W[ee]))",
    ));
    let tokens = reader.parse_tokens();
    let tree = GameTree::from_sgf_tokens(&tokens, 0, tokens.len() - 1, true, true).unwrap();
    // indexes past the root segment's single move resolve inside the first
    // (selected) variation; the returned index is segment-relative
    let second = GameTree::get_moves(&tree, 2).unwrap();
    assert_eq!(second.len(), 1);
    assert_eq!(second[0].0.move_pos(), (2, 2, 1));
    assert_eq!(second[0].0.move_id(), 1);
    let third = GameTree::get_moves(&tree, 3).unwrap();
    assert_eq!(third[0].0.move_pos(), (3, 3, -1));
}

#[test]
fn create_seeds_the_date_header() {
    let tree = GameTree::create(String::from("6.5"), 13, String::from("p1"), String::from("p2"));
    assert!(matches!(tree.nodes[6].node_key, SgfToken::DT));
    for c in tree.nodes[6].node_val.chars() {
        assert!(c.is_ascii_digit() || c == '-' || c == '+' || c == ':' || c == ' ');
    }
    assert!(matches!(tree.nodes[7].node_key, SgfToken::PB));
    assert_eq!(tree.nodes[7].node_val, String::from("p1"));
    assert_eq!(tree.nodes[8].node_val, String::from("p2"));
    assert_eq!(tree.nodes[5].node_val, String::from("13"));
}

#[test]
fn reselection_marks_only_the_first_matching_line() {
    // two variations begin with the identical move
    let reader = SgfReader::new(String::from("(;GM[1]SZ[19];B[aa](;W[cd])(;W[cd]))"));
    let tokens = reader.parse_tokens();
    let mut tree = GameTree::from_sgf_tokens(&tokens, 0, tokens.len() - 1, true, true).unwrap();
    assert!(tree.sub_game_trees[0].selected);
    assert!(!tree.sub_game_trees[1].selected);
    // re-navigating onto that move keeps exactly one line selected
    assert!(GameTree::record_move(&mut tree, 1, GoMove::new(1, 2, 3, -1)));
    assert!(tree.sub_game_trees[0].selected);
    assert!(!tree.sub_game_trees[1].selected);
    assert_eq!(tree.sub_game_trees.len(), 2);
}

#[test]
fn json_export_carries_the_tree_shape() {
    let reader = SgfReader::new(String::from("(;GM[1];B[ab](;W[cd]))"));
    let tokens = reader.parse_tokens();
    let tree = GameTree::from_sgf_tokens(&tokens, 0, tokens.len() - 1, true, true).unwrap();
    let text = json::stringify(tree.to_json().unwrap());
    assert!(text.contains("\"selected\":true"));
    assert!(text.contains("\"nodes\""));
    assert!(text.contains("\"GM\":\"1\""));
    assert!(text.contains("\"B\":\"ab\""));
    assert!(text.contains("\"sub_trees\""));
    assert!(text.contains("\"W\":\"cd\""));
}
