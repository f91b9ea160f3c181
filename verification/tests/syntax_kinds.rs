//! Token and syntax kinds.

use dice::syntax::{SyntaxKind, TokenKind};

#[test]
fn token_trivia() {
    assert!(TokenKind::Whitespace.is_trivia());
    assert!(!TokenKind::Dice.is_trivia());
}

#[test]
fn syntax_trivia() {
    assert!(SyntaxKind::Whitespace.is_trivia());
    assert!(!SyntaxKind::Root.is_trivia());
}

#[test]
fn token_kinds_map_over() {
    assert_eq!(SyntaxKind::from(TokenKind::Reroll), SyntaxKind::Reroll);
    assert_eq!(SyntaxKind::from(TokenKind::Percent), SyntaxKind::Percent);
    assert_eq!(SyntaxKind::from(TokenKind::Error), SyntaxKind::Error);
}
