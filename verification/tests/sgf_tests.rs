use fastgo::sgf::{is_sgf_filename, Parse, SgfNode, SgfReader, SgfToken};

#[test]
fn lexer_produces_expected_tokens() {
    let reader = SgfReader::new(String::from("(;B[pd]ZZ)"));
    let tokens = reader.parse_tokens();
    // the trait entry point scans to the very same sequence
    assert_eq!(reader.parse(), tokens);
    assert_eq!(tokens.len(), 7);
    assert!(matches!(tokens[0], SgfToken::SEGSTART));
    assert!(matches!(tokens[1], SgfToken::SPLIT));
    assert!(matches!(tokens[2], SgfToken::B));
    assert!(matches!(tokens[3], SgfToken::VALSTART));
    assert_eq!(tokens[4], SgfToken::VAL(String::from("pd")));
    assert!(matches!(tokens[5], SgfToken::VALEND));
    assert!(matches!(tokens[6], SgfToken::SEGEND));
}

#[test]
fn lexer_skips_unknown_keys_and_tolerates_open_values() {
    // the unknown run QQ produces no token; an unterminated value still
    // closes with a value-end token
    let reader = SgfReader::new(String::from("QQ[ab"));
    let tokens = reader.parse_tokens();
    assert_eq!(tokens.len(), 3);
    assert!(matches!(tokens[0], SgfToken::VALSTART));
    assert_eq!(tokens[1], SgfToken::VAL(String::from("ab")));
    assert!(matches!(tokens[2], SgfToken::VALEND));
}

#[test]
fn token_equality_follows_content() {
    assert_eq!(SgfToken::KM, SgfToken::KM);
    assert_ne!(SgfToken::KM, SgfToken::SZ);
    assert_eq!(
        SgfToken::VAL(String::from("ab")),
        SgfToken::VAL(String::from("ab"))
    );
    assert_ne!(
        SgfToken::VAL(String::from("ab")),
        SgfToken::VAL(String::from("ba"))
    );
}

#[test]
fn node_serialization_and_coordinates() {
    let node = SgfNode::new(SgfToken::B, String::from("pd"));
    assert_eq!(SgfNode::_to_string(node), String::from("B[pd]"));
    assert_eq!(SgfNode::convert_pos_to_mark(0), 'a');
    assert_eq!(SgfNode::convert_pos_to_mark(18), 's');
    assert_eq!(SgfNode::convert_pos_to_mark(19), ' ');
    assert_eq!(SgfNode::convert_mark_to_pos('a'), 0);
    assert_eq!(SgfNode::convert_mark_to_pos('s'), 18);
    assert_eq!(SgfNode::convert_mark_to_pos('z'), 0);
}

#[test]
fn move_encoding_uses_mover_key() {
    let black = fastgo::go_move::GoMove::new(0, 3, 15, 1);
    let node = SgfNode::from_go_move(&black);
    assert!(matches!(node.node_key, SgfToken::B));
    assert_eq!(node.node_val, String::from("dp"));
    let white = fastgo::go_move::GoMove::new(1, 0, 18, -1);
    let node = SgfNode::from_go_move(&white);
    assert!(matches!(node.node_key, SgfToken::W));
    assert_eq!(node.node_val, String::from("as"));
}

#[test]
fn sgf_filename_suffix_is_checked() {
    assert!(is_sgf_filename("game.sgf"));
    assert!(is_sgf_filename(".sgf"));
    assert!(!is_sgf_filename("game.sg"));
    assert!(!is_sgf_filename("gamesgf"));
    assert!(!is_sgf_filename(""));
}
