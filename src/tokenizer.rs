use vstd::prelude::*;
use vstd::string::StrSliceExecFns;
use crate::lexer::{self, ScanError, check, all_single, symbols_of};

verus! {

/// One symbol of an expression, as the standalone tokenizer gives it.
#[derive(Clone, Copy, Debug, PartialEq, Eq, Structural)]
pub enum Token {
    Value(char),
    OpeningBracket,
    ClosingBracket,
    Operator(char),
    Negation,
}

/// Why the tokenizer refused a symbol sequence.
#[derive(Clone, Debug, PartialEq, Eq)]
pub enum ErrorType {
    SymbolTooLong(String),
    TokensHasNoElements,
    NoOperatorBetweenValues,
    AmbiguousExpression,
    ValueBeforeOpeningBracket,
    OperatorBeforeClosingBracket,
    NegationBeforeClosingBracket,
    NoOpeningBracketToMatchClosing,
    NoValueBeforeOperator,
    MissingOpeningOrClosingBracket,
    NoOperatorBeforeNegation,
    DoesNotEnd,
}

/// The same token in the lexer's vocabulary.
pub open spec fn as_lexer_token(t: Token) -> lexer::Token {
    match t {
        Token::Value(c) => lexer::Token::Value(c),
        Token::OpeningBracket => lexer::Token::OpeningBracket,
        Token::ClosingBracket => lexer::Token::ClosingBracket,
        Token::Operator(c) => lexer::Token::Operator(c),
        Token::Negation => lexer::Token::Negation,
    }
}

/// The token that a symbol stands for; `f` and `c` are both the constant false.
pub open spec fn token_of(c: char) -> Token {
    if c == '[' {
        Token::OpeningBracket
    } else if c == ']' {
        Token::ClosingBracket
    } else if c == '+' || c == '.' {
        Token::Operator(c)
    } else if c == '-' {
        Token::Negation
    } else if c == 'f' {
        Token::Value('c')
    } else {
        Token::Value(c)
    }
}

/// A structural error in the tokenizer's vocabulary.
pub open spec fn error_type_of(e: ScanError) -> ErrorType {
    match e {
        ScanError::TokensHasNoElements => ErrorType::TokensHasNoElements,
        ScanError::NoOperatorBetweenValues => ErrorType::NoOperatorBetweenValues,
        ScanError::AmbiguousExpression => ErrorType::AmbiguousExpression,
        ScanError::ValueBeforeOpeningBracket => ErrorType::ValueBeforeOpeningBracket,
        ScanError::OperatorBeforeClosingBracket => ErrorType::OperatorBeforeClosingBracket,
        ScanError::NoOpeningBracketToMatchClosing => ErrorType::NoOpeningBracketToMatchClosing,
        ScanError::NoValueBeforeOperator => ErrorType::NoValueBeforeOperator,
        ScanError::MissingOpeningOrClosingBracket => ErrorType::MissingOpeningOrClosingBracket,
        ScanError::NoOperatorBeforeNegation => ErrorType::NoOperatorBeforeNegation,
        ScanError::DoesNotEnd => ErrorType::DoesNotEnd,
    }
}

/// A structural error in the tokenizer's vocabulary.
fn error_type(e: ScanError) -> (r: ErrorType)
    ensures
        r == error_type_of(e),
{
    match e {
        ScanError::TokensHasNoElements => ErrorType::TokensHasNoElements,
        ScanError::NoOperatorBetweenValues => ErrorType::NoOperatorBetweenValues,
        ScanError::AmbiguousExpression => ErrorType::AmbiguousExpression,
        ScanError::ValueBeforeOpeningBracket => ErrorType::ValueBeforeOpeningBracket,
        ScanError::OperatorBeforeClosingBracket => ErrorType::OperatorBeforeClosingBracket,
        ScanError::NoOpeningBracketToMatchClosing => ErrorType::NoOpeningBracketToMatchClosing,
        ScanError::NoValueBeforeOperator => ErrorType::NoValueBeforeOperator,
        ScanError::MissingOpeningOrClosingBracket => ErrorType::MissingOpeningOrClosingBracket,
        ScanError::NoOperatorBeforeNegation => ErrorType::NoOperatorBeforeNegation,
        ScanError::DoesNotEnd => ErrorType::DoesNotEnd,
    }
}

impl Token {
    /// Turns single-character symbols into tokens, without validating them.
    pub fn tokenize(text: &Vec<String>) -> (r: Result<Vec<Token>, ErrorType>)
        ensures
            !all_single(text@) <==> r matches Err(ErrorType::SymbolTooLong(_)),
            r matches Err(ErrorType::SymbolTooLong(s)) ==> exists|i: int|
                0 <= i < text@.len() && (#[trigger] text@[i])@.len() != 1 && s@ == text@[i]@
                    && all_single(text@.take(i)),
            all_single(text@) ==> (r matches Ok(t) && t@ == symbols_of(text@).map_values(
                |c: char| token_of(c),
            )),
    {
        let mut tokens: Vec<Token> = Vec::new();
        let mut i: usize = 0;
        while i < text.len()
            invariant
                i <= text@.len(),
                all_single(text@.take(i as int)),
                tokens@ == symbols_of(text@.take(i as int)).map_values(|c: char| token_of(c)),
            decreases text@.len() - i,
        {
            let item = &text[i];
            if item.as_str().unicode_len() != 1 {
                let long = item.clone();
                proof {
                    assert(text@[i as int] == *item);
                    assert(!all_single(text@));
                }
                return Err(ErrorType::SymbolTooLong(long));
            }
            let symbol = item.as_str().get_char(0);
            let token = match symbol {
                '[' => Token::OpeningBracket,
                ']' => Token::ClosingBracket,
                '+' | '.' => Token::Operator(symbol),
                '-' => Token::Negation,
                'f' => Token::Value('c'),
                _ => Token::Value(symbol),
            };
            tokens.push(token);
            proof {
                let cur = symbols_of(text@.take(i + 1));
                assert(text@.take(i + 1).drop_last() == text@.take(i as int));
                assert(cur.drop_last() == symbols_of(text@.take(i as int)));
                assert(cur.last() == symbol);
                assert forall|j: int| 0 <= j < i + 1 implies (#[trigger] text@.take(i + 1)[j])@.len()
                    == 1 by {
                    if j < i {
                        assert(text@.take(i + 1)[j] == text@.take(i as int)[j]);
                    }
                }
                assert(tokens@ == cur.map_values(|c: char| token_of(c)));
            }
            i = i + 1;
        }
        assert(text@.take(i as int) == text@);
        Ok(tokens)
    }

    /// Validates the structure of a token sequence by the same rules as the
    /// lexer's `verify`.
    pub fn verify(tokens: &Vec<Token>) -> (r: Result<(), ErrorType>)
        ensures
            r == match check(tokens@.map_values(|t: Token| as_lexer_token(t)), true) {
                Ok(()) => Ok(()),
                Err(e) => Err(error_type_of(e)),
            },
    {
        let mut converted: Vec<lexer::Token> = Vec::new();
        let mut i: usize = 0;
        while i < tokens.len()
            invariant
                i <= tokens@.len(),
                converted@ == tokens@.take(i as int).map_values(|t: Token| as_lexer_token(t)),
            decreases tokens@.len() - i,
        {
            let t = match tokens[i] {
                Token::Value(c) => lexer::Token::Value(c),
                Token::OpeningBracket => lexer::Token::OpeningBracket,
                Token::ClosingBracket => lexer::Token::ClosingBracket,
                Token::Operator(c) => lexer::Token::Operator(c),
                Token::Negation => lexer::Token::Negation,
            };
            converted.push(t);
            assert(tokens@.take(i + 1).drop_last() == tokens@.take(i as int));
            assert(converted@ == tokens@.take(i + 1).map_values(|t: Token| as_lexer_token(t)));
            i = i + 1;
        }
        assert(tokens@.take(i as int) == tokens@);
        match lexer::check_tokens(&converted, true) {
            Ok(()) => Ok(()),
            Err(e) => Err(error_type(e)),
        }
    }
}

} // verus!
