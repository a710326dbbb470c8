//! Lexical scanning: raw source bytes to an ordered token stream, and the
//! stack-free loop-bracket balance check that must pass before parsing.

use vstd::prelude::*;

verus! {

/// Error reported when the loop brackets of a program do not balance.
#[derive(Debug, PartialEq, Eq, Clone, Copy)]
pub enum LexerError {
    BracketsInvalidError,
}

/// One recognized command character of the source language.
#[derive(Debug, PartialEq, Eq, Structural, Clone, Copy)]
pub enum Token {
    PlusToken,
    MinusToken,
    LeftBracketToken,
    RightBracketToken,
    GreaterThanToken,
    SmallerThanToken,
    DotToken,
}

/// The token, if any, that a single source byte stands for. Every byte is
/// classified independently; a byte that maps to `None` is silently dropped.
pub open spec fn token_of(b: u8) -> Option<Token> {
    if b == 43 {
        Some(Token::PlusToken)
    } else if b == 45 {
        Some(Token::MinusToken)
    } else if b == 46 {
        Some(Token::DotToken)
    } else if b == 91 {
        Some(Token::LeftBracketToken)
    } else if b == 93 {
        Some(Token::RightBracketToken)
    } else if b == 60 {
        Some(Token::SmallerThanToken)
    } else if b == 62 {
        Some(Token::GreaterThanToken)
    } else {
        None
    }
}

/// The token stream of a byte sequence: recognized command bytes map one to
/// one onto tokens in source order, all other bytes are dropped.
pub open spec fn lex_spec(bytes: Seq<u8>) -> Seq<Token>
    decreases bytes.len(),
{
    if bytes.len() == 0 {
        Seq::empty()
    } else {
        match token_of(bytes.last()) {
            Some(t) => lex_spec(bytes.drop_last()).push(t),
            None => lex_spec(bytes.drop_last()),
        }
    }
}

/// How one token changes the loop nesting depth.
pub open spec fn bracket_delta(t: Token) -> int {
    match t {
        Token::LeftBracketToken => 1,
        Token::RightBracketToken => -1,
        _ => 0,
    }
}

/// Number of opened minus number of closed loops over a whole token sequence.
pub open spec fn bracket_sum(toks: Seq<Token>) -> int
    decreases toks.len(),
{
    if toks.len() == 0 {
        0
    } else {
        bracket_sum(toks.drop_last()) + bracket_delta(toks.last())
    }
}

/// A token sequence is well bracketed when no prefix closes a loop that is
/// not open and the whole sequence closes every loop it opens.
pub open spec fn balanced(toks: Seq<Token>) -> bool {
    &&& bracket_sum(toks) == 0
    &&& forall|i: int| 0 <= i <= toks.len() ==> bracket_sum(#[trigger] toks.take(i)) >= 0
}

/// The bracket sum of a concatenation is the sum of the parts.
pub proof fn lemma_bracket_sum_concat(a: Seq<Token>, b: Seq<Token>)
    ensures
        bracket_sum(a + b) == bracket_sum(a) + bracket_sum(b),
    decreases b.len(),
{
    if b.len() == 0 {
        assert(a + b =~= a);
    } else {
        lemma_bracket_sum_concat(a, b.drop_last());
        assert((a + b).drop_last() =~= a + b.drop_last());
    }
}

/// A bracket sum never exceeds the length of the sequence.
pub proof fn lemma_bracket_sum_le_len(toks: Seq<Token>)
    ensures
        bracket_sum(toks) <= toks.len(),
    decreases toks.len(),
{
    if toks.len() > 0 {
        lemma_bracket_sum_le_len(toks.drop_last());
    }
}

/// Splitting a span of tokens at any point splits its bracket sum.
pub proof fn lemma_bracket_sum_split(t: Seq<Token>, a: int, b: int, c: int)
    requires
        0 <= a <= b <= c <= t.len(),
    ensures
        bracket_sum(t.subrange(a, c)) == bracket_sum(t.subrange(a, b)) + bracket_sum(
            t.subrange(b, c),
        ),
{
    lemma_bracket_sum_concat(t.subrange(a, b), t.subrange(b, c));
    assert(t.subrange(a, b) + t.subrange(b, c) =~= t.subrange(a, c));
}

/// The bracket sum of a single token is its depth change.
pub proof fn lemma_bracket_sum_singleton(t: Seq<Token>, a: int)
    requires
        0 <= a < t.len(),
    ensures
        bracket_sum(t.subrange(a, a + 1)) == bracket_delta(t[a]),
{
    assert(bracket_sum(Seq::<Token>::empty()) == 0);
    assert(t.subrange(a, a + 1).drop_last() =~= Seq::<Token>::empty());
    assert(t.subrange(a, a + 1).last() == t[a]);
}

/// Inside a balanced span, every span that starts at the left end has a
/// non-negative bracket sum, and the whole span sums to zero.
pub proof fn lemma_balanced_span_prefixes(t: Seq<Token>, a: int, b: int)
    requires
        0 <= a <= b <= t.len(),
        balanced(t.subrange(a, b)),
    ensures
        bracket_sum(t.subrange(a, b)) == 0,
        forall|x: int| a <= x <= b ==> bracket_sum(#[trigger] t.subrange(a, x)) >= 0,
{
    assert forall|x: int| a <= x <= b implies bracket_sum(#[trigger] t.subrange(a, x)) >= 0 by {
        assert(t.subrange(a, b).take(x - a) =~= t.subrange(a, x));
    }
}

/// Holds the token stream of one source file.
pub struct Lexer {
    pub tokens: Vec<Token>,
}

impl Lexer {
    /// Scan the raw bytes of a program. Recognized command bytes become
    /// tokens in source order; every other byte is dropped by design.
    pub fn new(source: &[u8]) -> (lx: Lexer)
        ensures
            lx.tokens@ == lex_spec(source@),
    {
        let mut tokens: Vec<Token> = Vec::new();
        let n: usize = source.len();
        let mut i: usize = 0;
        while i < n
            invariant
                i <= n,
                n == source@.len(),
                tokens@ == lex_spec(source@.take(i as int)),
            decreases n - i,
        {
            proof {
                assert(source@.take(i + 1).drop_last() =~= source@.take(i as int));
                assert(source@.take(i + 1).last() == source@[i as int]);
            }
            let b = source[i];
            if b == 43 {
                tokens.push(Token::PlusToken);
            } else if b == 45 {
                tokens.push(Token::MinusToken);
            } else if b == 46 {
                tokens.push(Token::DotToken);
            } else if b == 91 {
                tokens.push(Token::LeftBracketToken);
            } else if b == 93 {
                tokens.push(Token::RightBracketToken);
            } else if b == 60 {
                tokens.push(Token::SmallerThanToken);
            } else if b == 62 {
                tokens.push(Token::GreaterThanToken);
            }
            i = i + 1;
        }
        proof {
            assert(source@.take(n as int) =~= source@);
        }
        Lexer { tokens }
    }

    /// One left-to-right scan that checks loop-bracket balance. Succeeds if
    /// and only if the token stream is well bracketed; a close without an
    /// open and an open left unclosed fail with the same error kind.
    pub fn check_loops(&self) -> (r: Result<(), LexerError>)
        ensures
            r is Ok <==> balanced(self.tokens@),
            r is Err ==> r == Err::<(), LexerError>(LexerError::BracketsInvalidError),
    {
        let n: usize = self.tokens.len();
        let mut depth: usize = 0;
        let mut i: usize = 0;
        while i < n
            invariant
                i <= n,
                n == self.tokens@.len(),
                depth <= i,
                depth == bracket_sum(self.tokens@.take(i as int)),
                forall|j: int| 0 <= j <= i ==> bracket_sum(#[trigger] self.tokens@.take(j)) >= 0,
            decreases n - i,
        {
            proof {
                assert(self.tokens@.take(i + 1).drop_last() =~= self.tokens@.take(i as int));
                assert(self.tokens@.take(i + 1).last() == self.tokens@[i as int]);
            }
            match self.tokens[i] {
                Token::LeftBracketToken => {
                    depth = depth + 1;
                }
                Token::RightBracketToken => {
                    if depth == 0 {
                        proof {
                            assert(bracket_sum(self.tokens@.take(i + 1)) == -1);
                            assert(!balanced(self.tokens@));
                        }
                        return Err(LexerError::BracketsInvalidError);
                    }
                    depth = depth - 1;
                }
                _ => {}
            }
            i = i + 1;
        }
        proof {
            assert(self.tokens@.take(n as int) =~= self.tokens@);
        }
        if depth != 0 {
            return Err(LexerError::BracketsInvalidError);
        }
        Ok(())
    }

    /// A copy of the token stream.
    pub fn get_tokens(&self) -> (r: Vec<Token>)
        ensures
            r@ == self.tokens@,
    {
        let mut out: Vec<Token> = Vec::new();
        let n: usize = self.tokens.len();
        let mut i: usize = 0;
        while i < n
            invariant
                i <= n,
                n == self.tokens@.len(),
                out@ == self.tokens@.take(i as int),
            decreases n - i,
        {
            proof {
                assert(self.tokens@.take(i + 1).drop_last() =~= self.tokens@.take(i as int));
                assert(self.tokens@.take(i + 1).last() == self.tokens@[i as int]);
            }
            out.push(self.tokens[i]);
            i = i + 1;
        }
        proof {
            assert(self.tokens@.take(n as int) =~= self.tokens@);
        }
        out
    }
}

} // verus!
