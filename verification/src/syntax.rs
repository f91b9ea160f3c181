//! The token and syntax kinds a front end produces for this notation, and
//! the mapping between them. A lexer outside this crate tags text with
//! `TokenKind`; a parser arranges tokens under the composite `SyntaxKind`
//! nodes.

use vstd::prelude::*;

verus! {

/// The kind of one lexed token.
#[derive(Debug, Copy, Clone, PartialEq, Eq, Structural)]
pub enum TokenKind {
    Whitespace,
    Dice,
    Number,
    Plus,
    Minus,
    Star,
    Slash,
    Percent,
    LParen,
    RParen,
    Comma,
    Keep,
    Drop,
    Reroll,
    RerollOnce,
    RerollAdd,
    Explode,
    Min,
    Max,
    Highest,
    Lowest,
    Greater,
    Less,
    Error,
}

impl TokenKind {
    /// Whether the token carries no meaning of its own.
    pub fn is_trivia(self) -> (r: bool)
        ensures
            r == (self == TokenKind::Whitespace),
    {
        matches!(self, TokenKind::Whitespace)
    }
}

/// The kind of one syntax node or token of the parsed tree: every token
/// kind, plus the composite nodes the parser builds.
#[derive(Debug, Copy, Clone, PartialEq, Eq, Structural)]
pub enum SyntaxKind {
    Whitespace,
    Dice,
    Number,
    Plus,
    Minus,
    Star,
    Slash,
    Percent,
    LParen,
    RParen,
    Comma,
    Keep,
    Drop,
    Reroll,
    RerollOnce,
    RerollAdd,
    Explode,
    Min,
    Max,
    Highest,
    Lowest,
    Greater,
    Less,
    Error,
    Root,
    DiceExpr,
    InfixExpr,
    Literal,
    ParenExpr,
    PrefixExpr,
    SetOpExpr,
    SetItems,
}

/// The syntax kind a token kind maps to.
pub open spec fn kind_of_token(t: TokenKind) -> SyntaxKind {
    match t {
        TokenKind::Whitespace => SyntaxKind::Whitespace,
        TokenKind::Dice => SyntaxKind::Dice,
        TokenKind::Number => SyntaxKind::Number,
        TokenKind::Plus => SyntaxKind::Plus,
        TokenKind::Minus => SyntaxKind::Minus,
        TokenKind::Star => SyntaxKind::Star,
        TokenKind::Slash => SyntaxKind::Slash,
        TokenKind::Percent => SyntaxKind::Percent,
        TokenKind::LParen => SyntaxKind::LParen,
        TokenKind::RParen => SyntaxKind::RParen,
        TokenKind::Comma => SyntaxKind::Comma,
        TokenKind::Keep => SyntaxKind::Keep,
        TokenKind::Drop => SyntaxKind::Drop,
        TokenKind::Reroll => SyntaxKind::Reroll,
        TokenKind::RerollOnce => SyntaxKind::RerollOnce,
        TokenKind::RerollAdd => SyntaxKind::RerollAdd,
        TokenKind::Explode => SyntaxKind::Explode,
        TokenKind::Min => SyntaxKind::Min,
        TokenKind::Max => SyntaxKind::Max,
        TokenKind::Highest => SyntaxKind::Highest,
        TokenKind::Lowest => SyntaxKind::Lowest,
        TokenKind::Greater => SyntaxKind::Greater,
        TokenKind::Less => SyntaxKind::Less,
        TokenKind::Error => SyntaxKind::Error,
    }
}

impl SyntaxKind {
    /// Whether the kind carries no meaning of its own.
    pub fn is_trivia(self) -> (r: bool)
        ensures
            r == (self == SyntaxKind::Whitespace),
    {
        matches!(self, SyntaxKind::Whitespace)
    }
}

impl From<TokenKind> for SyntaxKind {
    /// Every token kind is also a syntax kind.
    fn from(token_kind: TokenKind) -> (r: SyntaxKind)
        ensures
            r == kind_of_token(token_kind),
    {
        match token_kind {
            TokenKind::Whitespace => SyntaxKind::Whitespace,
            TokenKind::Dice => SyntaxKind::Dice,
            TokenKind::Number => SyntaxKind::Number,
            TokenKind::Plus => SyntaxKind::Plus,
            TokenKind::Minus => SyntaxKind::Minus,
            TokenKind::Star => SyntaxKind::Star,
            TokenKind::Slash => SyntaxKind::Slash,
            TokenKind::Percent => SyntaxKind::Percent,
            TokenKind::LParen => SyntaxKind::LParen,
            TokenKind::RParen => SyntaxKind::RParen,
            TokenKind::Comma => SyntaxKind::Comma,
            TokenKind::Keep => SyntaxKind::Keep,
            TokenKind::Drop => SyntaxKind::Drop,
            TokenKind::Reroll => SyntaxKind::Reroll,
            TokenKind::RerollOnce => SyntaxKind::RerollOnce,
            TokenKind::RerollAdd => SyntaxKind::RerollAdd,
            TokenKind::Explode => SyntaxKind::Explode,
            TokenKind::Min => SyntaxKind::Min,
            TokenKind::Max => SyntaxKind::Max,
            TokenKind::Highest => SyntaxKind::Highest,
            TokenKind::Lowest => SyntaxKind::Lowest,
            TokenKind::Greater => SyntaxKind::Greater,
            TokenKind::Less => SyntaxKind::Less,
            TokenKind::Error => SyntaxKind::Error,
        }
    }
}

impl vstd::std_specs::convert::FromSpecImpl<TokenKind> for SyntaxKind {
    open spec fn obeys_from_spec() -> bool {
        true
    }

    open spec fn from_spec(t: TokenKind) -> SyntaxKind {
        kind_of_token(t)
    }
}

/// How a syntax kind reads in a message. Composite kinds never appear in
/// messages and read as nothing.
pub open spec fn kind_text(k: SyntaxKind) -> Seq<char> {
    match k {
        SyntaxKind::Whitespace => "whitespace"@,
        SyntaxKind::Dice => "dice"@,
        SyntaxKind::Number => "number"@,
        SyntaxKind::Plus => "'+'"@,
        SyntaxKind::Minus => "'-'"@,
        SyntaxKind::Star => "'*'"@,
        SyntaxKind::Slash => "'/'"@,
        SyntaxKind::Percent => "'%'"@,
        SyntaxKind::LParen => "'('"@,
        SyntaxKind::RParen => "')'"@,
        SyntaxKind::Comma => "','"@,
        SyntaxKind::Keep => "'k'"@,
        SyntaxKind::Drop => "'p'"@,
        SyntaxKind::Reroll => "'rr'"@,
        SyntaxKind::RerollOnce => "'ro'"@,
        SyntaxKind::RerollAdd => "'ra'"@,
        SyntaxKind::Explode => "'e'"@,
        SyntaxKind::Min => "'mi'"@,
        SyntaxKind::Max => "'ma'"@,
        SyntaxKind::Highest => "'h'"@,
        SyntaxKind::Lowest => "'l'"@,
        SyntaxKind::Greater => "'>'"@,
        SyntaxKind::Less => "'<'"@,
        SyntaxKind::Error => "an unrecognized token"@,
        _ => ""@,
    }
}

impl SyntaxKind {
    /// Renders the kind for a message.
    pub fn text(self) -> (r: &'static str)
        ensures
            r@ == kind_text(self),
    {
        match self {
            SyntaxKind::Whitespace => "whitespace",
            SyntaxKind::Dice => "dice",
            SyntaxKind::Number => "number",
            SyntaxKind::Plus => "'+'",
            SyntaxKind::Minus => "'-'",
            SyntaxKind::Star => "'*'",
            SyntaxKind::Slash => "'/'",
            SyntaxKind::Percent => "'%'",
            SyntaxKind::LParen => "'('",
            SyntaxKind::RParen => "')'",
            SyntaxKind::Comma => "','",
            SyntaxKind::Keep => "'k'",
            SyntaxKind::Drop => "'p'",
            SyntaxKind::Reroll => "'rr'",
            SyntaxKind::RerollOnce => "'ro'",
            SyntaxKind::RerollAdd => "'ra'",
            SyntaxKind::Explode => "'e'",
            SyntaxKind::Min => "'mi'",
            SyntaxKind::Max => "'ma'",
            SyntaxKind::Highest => "'h'",
            SyntaxKind::Lowest => "'l'",
            SyntaxKind::Greater => "'>'",
            SyntaxKind::Less => "'<'",
            SyntaxKind::Error => "an unrecognized token",
            _ => "",
        }
    }
}

impl TokenKind {
    /// Renders the token kind for a message: the same reading as the
    /// syntax kind it maps to.
    pub fn text(self) -> (r: &'static str)
        ensures
            r@ == kind_text(kind_of_token(self)),
    {
        SyntaxKind::from(self).text()
    }
}

/// A parse failure: the kinds that would have been accepted, what stood
/// there instead (nothing at the end of input), and the byte range.
#[derive(Debug, PartialEq)]
pub struct ParseError {
    pub expected: Vec<SyntaxKind>,
    pub found: Option<SyntaxKind>,
    pub range: (u32, u32),
}

/// The expected kinds joined with commas, everything but the last.
pub open spec fn expected_init(s: Seq<SyntaxKind>) -> Seq<char>
    decreases s.len(),
{
    if s.len() == 0 {
        ""@
    } else if s.len() == 1 {
        kind_text(s[0])
    } else {
        expected_init(s.drop_last()) + ", "@ + kind_text(s.last())
    }
}

/// The expected kinds joined as a message reads them: commas between,
/// "or" before the last.
pub open spec fn expected_text(s: Seq<SyntaxKind>) -> Seq<char> {
    if s.len() <= 1 {
        expected_init(s)
    } else if s.len() == 2 {
        expected_init(s.drop_last()) + " or "@ + kind_text(s.last())
    } else {
        expected_init(s.drop_last()) + ", or "@ + kind_text(s.last())
    }
}

/// The whole message of a parse failure.
pub open spec fn error_text(e: ParseError) -> Seq<char> {
    "error at "@ + crate::numeral::dec_nat(e.range.0 as int) + ".."@ + crate::numeral::dec_nat(
        e.range.1 as int,
    ) + ": expected "@ + expected_text(e.expected@) + (match e.found {
        Some(f) => ", but found "@ + kind_text(f),
        None => ""@,
    })
}

impl ParseError {
    /// Renders the failure, exactly as `error_text` prescribes.
    pub fn message(&self) -> (r: String)
        ensures
            r@ == error_text(*self),
    {
        let mut s = "error at ".to_owned();
        let start = crate::numeral::nat_str(self.range.0 as i64);
        s.append(start.as_str());
        s.append("..");
        let end = crate::numeral::nat_str(self.range.1 as i64);
        s.append(end.as_str());
        s.append(": expected ");
        let ghost prefix = s@;
        proof {
            reveal_strlit("");
        }
        let n = self.expected.len();
        let mut k: usize = 0;
        while k < n
            invariant
                k <= n,
                n == self.expected@.len(),
                s@ == prefix + (if k == n {
                    expected_text(self.expected@)
                } else {
                    expected_init(self.expected@.take(k as int))
                }),
            decreases n - k,
        {
            if k > 0 {
                if k + 1 == n {
                    if n == 2 {
                        s.append(" or ");
                    } else {
                        s.append(", or ");
                    }
                } else {
                    s.append(", ");
                }
            }
            s.append(self.expected[k].text());
            proof {
                reveal_strlit("");
                assert(self.expected@.take(k + 1).drop_last() =~= self.expected@.take(k as int));
                assert(self.expected@.take(k + 1).last() == self.expected@[k as int]);
                if k + 1 == n {
                    assert(self.expected@.take(n as int) =~= self.expected@);
                }
                assert(s@ =~= prefix + (if k + 1 == n {
                    expected_text(self.expected@)
                } else {
                    expected_init(self.expected@.take(k + 1))
                }));
            }
            k = k + 1;
        }
        proof {
            reveal_strlit("");
            if n == 0 {
                assert(self.expected@.take(0) =~= self.expected@);
                assert(expected_text(self.expected@) == ""@);
                assert(s@ =~= prefix + expected_text(self.expected@));
            }
        }
        match self.found {
            Some(f) => {
                s.append(", but found ");
                s.append(f.text());
            },
            None => {},
        }
        proof {
            reveal_strlit("");
            assert(s@ =~= error_text(*self));
        }
        s
    }
}

} // verus!
