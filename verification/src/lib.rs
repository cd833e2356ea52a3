//! A Go (Weiqi) move engine and game-record handler: a lexer and serializer
//! for the SGF record text format, a branching game-record tree with
//! addressed move insertion and navigation, and a board engine that applies
//! moves, detects captured groups and enforces suicide and
//! single-stone-recapture legality.
pub mod game_tree;
pub mod go_band;
pub mod go_move;
pub mod sgf;

pub use go_move::GoMove;
