//! Parse-failure messages and kind renderings.

use dice::syntax::{ParseError, SyntaxKind, TokenKind};

fn check(expected: Vec<SyntaxKind>, found: Option<SyntaxKind>, range: (u32, u32), output: &str) {
    let error = ParseError { expected, found, range };
    assert_eq!(error.message(), output);
}

#[test]
fn one_expected_did_find() {
    check(
        vec![SyntaxKind::Number],
        Some(SyntaxKind::Slash),
        (13, 14),
        "error at 13..14: expected number, but found '/'",
    );
}

#[test]
fn one_expected_did_not_find() {
    check(
        vec![SyntaxKind::RParen],
        None,
        (5, 6),
        "error at 5..6: expected ')'",
    );
}

#[test]
fn multiple_expected_did_find() {
    check(
        vec![
            SyntaxKind::Number,
            SyntaxKind::Dice,
            SyntaxKind::Minus,
            SyntaxKind::LParen,
        ],
        Some(SyntaxKind::Reroll),
        (100, 102),
        "error at 100..102: expected number, dice, '-', or '(', but found 'rr'",
    );
}

#[test]
fn two_expected_did_find() {
    check(
        vec![SyntaxKind::Plus, SyntaxKind::Minus],
        Some(SyntaxKind::Greater),
        (0, 1),
        "error at 0..1: expected '+' or '-', but found '>'",
    );
}

#[test]
fn token_text_reads_like_kind_text() {
    assert_eq!(TokenKind::Reroll.text(), "'rr'");
    assert_eq!(TokenKind::Error.text(), "an unrecognized token");
    assert_eq!(SyntaxKind::Whitespace.text(), "whitespace");
}
