use vstd::prelude::*;
use vstd::string::StrSliceExecFns;

verus! {

/// One symbol of an expression.
#[derive(Clone, Copy, Debug, PartialEq, Eq, Structural)]
pub enum Token {
    Value(char),
    OpeningBracket,
    ClosingBracket,
    Operator(char),
    Negation,
}

/// Why a symbol sequence is not an expression.
#[derive(Clone, Debug, PartialEq, Eq)]
pub enum LexerError {
    SymbolTooLong(String),
    TokensHasNoElements,
    NoOperatorBetweenValues,
    AmbiguousExpression,
    ValueBeforeOpeningBracket,
    OperatorBeforeClosingBracket,
    NoOpeningBracketToMatchClosing,
    NoValueBeforeOperator,
    MissingOpeningOrClosingBracket,
    NoOperatorBeforeNegation,
    DoesNotEnd,
    NoVariables,
}

/// The structural errors, those that a token sequence alone can show.
pub enum ScanError {
    TokensHasNoElements,
    NoOperatorBetweenValues,
    AmbiguousExpression,
    ValueBeforeOpeningBracket,
    OperatorBeforeClosingBracket,
    NoOpeningBracketToMatchClosing,
    NoValueBeforeOperator,
    MissingOpeningOrClosingBracket,
    NoOperatorBeforeNegation,
    DoesNotEnd,
}

/// What a left-to-right scan of tokens remembers: the last token, the number
/// of operands seen in each open bracket scope (outermost first), and the
/// number of open brackets.
pub struct ScanState {
    pub last: Token,
    pub scopes: Seq<int>,
    pub open: nat,
}

/// The scan after the first token.
pub open spec fn scan_start(t: Token) -> Result<ScanState, ScanError> {
    match t {
        Token::Value(_) => Ok(ScanState { last: t, scopes: seq![1int], open: 0 }),
        Token::OpeningBracket => Ok(ScanState { last: t, scopes: seq![0int, 0int], open: 1 }),
        Token::ClosingBracket => Err(ScanError::NoOpeningBracketToMatchClosing),
        _ => Ok(ScanState { last: t, scopes: seq![0int], open: 0 }),
    }
}

/// The innermost scope gains one operand; a third one is ambiguous.
pub open spec fn add_operand(st: ScanState, last: Token) -> Result<ScanState, ScanError> {
    let n = st.scopes.last() + 1;
    if n > 2 {
        Err(ScanError::AmbiguousExpression)
    } else {
        Ok(ScanState { last, scopes: st.scopes.drop_last().push(n), open: st.open })
    }
}

/// One step of the scan. `negation_after_bracket` says whether a negation may
/// directly follow an opening bracket.
pub open spec fn scan_step(st: ScanState, t: Token, negation_after_bracket: bool) -> Result<
    ScanState,
    ScanError,
> {
    match t {
        Token::Value(_) => if st.last is Value {
            Err(ScanError::NoOperatorBetweenValues)
        } else {
            add_operand(st, t)
        },
        Token::OpeningBracket => if st.last is Value {
            Err(ScanError::ValueBeforeOpeningBracket)
        } else {
            Ok(ScanState { last: t, scopes: st.scopes.push(0), open: st.open + 1 })
        },
        Token::ClosingBracket => if st.last is Operator {
            Err(ScanError::OperatorBeforeClosingBracket)
        } else if st.open == 0 {
            Err(ScanError::NoOpeningBracketToMatchClosing)
        } else {
            add_operand(
                ScanState { last: t, scopes: st.scopes.drop_last(), open: (st.open - 1) as nat },
                t,
            )
        },
        Token::Operator(_) => if st.last is Operator || st.last is Negation {
            Err(ScanError::NoValueBeforeOperator)
        } else {
            Ok(ScanState { last: t, ..st })
        },
        Token::Negation => if st.last is Operator || st.last is Negation || (negation_after_bracket
            && st.last is OpeningBracket) {
            Ok(ScanState { last: t, ..st })
        } else {
            Err(ScanError::NoOperatorBeforeNegation)
        },
    }
}

/// The scan of a non-empty token sequence, from left to right; the first error stops it.
pub open spec fn scan(s: Seq<Token>, negation_after_bracket: bool) -> Result<ScanState, ScanError>
    decreases s.len(),
{
    if s.len() <= 1 {
        scan_start(s[0])
    } else {
        match scan(s.drop_last(), negation_after_bracket) {
            Ok(st) => scan_step(st, s.last(), negation_after_bracket),
            Err(e) => Err(e),
        }
    }
}

/// Whether a well-formed expression cannot stop at this token.
pub open spec fn is_dangling(t: Token) -> bool {
    t is Operator || t is Negation || t is OpeningBracket
}

/// The verdict on a token sequence.
pub open spec fn check(s: Seq<Token>, negation_after_bracket: bool) -> Result<(), ScanError> {
    if s.len() == 0 {
        Err(ScanError::TokensHasNoElements)
    } else {
        match scan(s, negation_after_bracket) {
            Err(e) => Err(e),
            Ok(st) => if st.open != 0 {
                Err(ScanError::MissingOpeningOrClosingBracket)
            } else if is_dangling(s.last()) {
                Err(ScanError::DoesNotEnd)
            } else {
                Ok(())
            },
        }
    }
}

/// A structural error as a lexer error.
pub open spec fn lexer_error_of(e: ScanError) -> LexerError {
    match e {
        ScanError::TokensHasNoElements => LexerError::TokensHasNoElements,
        ScanError::NoOperatorBetweenValues => LexerError::NoOperatorBetweenValues,
        ScanError::AmbiguousExpression => LexerError::AmbiguousExpression,
        ScanError::ValueBeforeOpeningBracket => LexerError::ValueBeforeOpeningBracket,
        ScanError::OperatorBeforeClosingBracket => LexerError::OperatorBeforeClosingBracket,
        ScanError::NoOpeningBracketToMatchClosing => LexerError::NoOpeningBracketToMatchClosing,
        ScanError::NoValueBeforeOperator => LexerError::NoValueBeforeOperator,
        ScanError::MissingOpeningOrClosingBracket => LexerError::MissingOpeningOrClosingBracket,
        ScanError::NoOperatorBeforeNegation => LexerError::NoOperatorBeforeNegation,
        ScanError::DoesNotEnd => LexerError::DoesNotEnd,
    }
}

/// Whether the counters of a running scan stand for `st`.
pub open spec fn mirrors(last: Token, scopes: Seq<u8>, open: usize, st: ScanState) -> bool {
    &&& st.last == last
    &&& st.open == open as nat
    &&& scopes.len() == st.scopes.len()
    &&& forall|k: int| 0 <= k < scopes.len() ==> #[trigger] scopes[k] as int == st.scopes[k]
}

/// Every scan state has one operand count per open scope, none above two.
pub proof fn lemma_scan_shape(s: Seq<Token>, negation_after_bracket: bool)
    requires
        s.len() >= 1,
        scan(s, negation_after_bracket) is Ok,
    ensures
        ({
            let st = scan(s, negation_after_bracket)->Ok_0;
            &&& st.scopes.len() == st.open + 1
            &&& st.open <= s.len()
            &&& st.last == s.last()
            &&& forall|k: int| 0 <= k < st.scopes.len() ==> 0 <= #[trigger] st.scopes[k] <= 2
        }),
    decreases s.len(),
{
    if s.len() > 1 {
        let p = s.drop_last();
        lemma_scan_shape(p, negation_after_bracket);
        let st = scan(p, negation_after_bracket)->Ok_0;
        let st2 = scan(s, negation_after_bracket)->Ok_0;
        assert(st.scopes.last() == st.scopes[st.scopes.len() - 1]);
        match s.last() {
            Token::ClosingBracket => {
                let inner = st.scopes.drop_last();
                assert(inner.last() == st.scopes[st.scopes.len() - 2]);
                assert forall|k: int| 0 <= k < st2.scopes.len() implies 0 <= #[trigger] st2.scopes[k]
                    <= 2 by {
                    if k < st2.scopes.len() - 1 {
                        assert(st2.scopes[k] == st.scopes[k]);
                    }
                }
            },
            Token::Value(_) => {
                assert forall|k: int| 0 <= k < st2.scopes.len() implies 0 <= #[trigger] st2.scopes[k]
                    <= 2 by {
                    if k < st2.scopes.len() - 1 {
                        assert(st2.scopes[k] == st.scopes[k]);
                    }
                }
            },
            Token::OpeningBracket => {
                assert forall|k: int| 0 <= k < st2.scopes.len() implies 0 <= #[trigger] st2.scopes[k]
                    <= 2 by {
                    if k < st2.scopes.len() - 1 {
                        assert(st2.scopes[k] == st.scopes[k]);
                    }
                }
            },
            _ => {},
        }
    } else {
        assert(s.last() == s[0]);
        let st = scan(s, negation_after_bracket)->Ok_0;
        assert forall|k: int| 0 <= k < st.scopes.len() implies 0 <= #[trigger] st.scopes[k] <= 2 by {
            if s[0] is OpeningBracket {
                assert(st.scopes == seq![0int, 0int]);
            }
        }
    }
}

/// Once the scan of a prefix fails, the scan of the whole sequence fails the same way.
pub proof fn lemma_error_sticks(s: Seq<Token>, j: int, negation_after_bracket: bool)
    requires
        1 <= j <= s.len(),
        scan(s.take(j), negation_after_bracket) is Err,
    ensures
        scan(s, negation_after_bracket) == scan(s.take(j), negation_after_bracket),
    decreases s.len(),
{
    if j < s.len() {
        let p = s.drop_last();
        assert(p.take(j) == s.take(j));
        lemma_error_sticks(p, j, negation_after_bracket);
    } else {
        assert(s.take(j) == s);
    }
}

/// Runs the scan over `tokens` and gives its verdict.
pub(crate) fn check_tokens(tokens: &Vec<Token>, negation_after_bracket: bool) -> (r: Result<(), ScanError>)
    ensures
        r == check(tokens@, negation_after_bracket),
{
    let n = tokens.len();
    if n == 0 {
        return Err(ScanError::TokensHasNoElements);
    }
    let first = tokens[0];
    let mut last: Token = first;
    let mut scopes: Vec<u8> = Vec::new();
    let mut open: usize = 0;
    match first {
        Token::Value(_) => {
            scopes.push(1);
        },
        Token::OpeningBracket => {
            scopes.push(0);
            scopes.push(0);
            open = 1;
        },
        Token::ClosingBracket => {
            assert(tokens@.take(1)[0] == first);
            proof {
                lemma_error_sticks(tokens@, 1, negation_after_bracket);
            }
            return Err(ScanError::NoOpeningBracketToMatchClosing);
        },
        _ => {
            scopes.push(0);
        },
    }
    assert(tokens@.take(1)[0] == first);
    let mut i: usize = 1;
    while i < n
        invariant
            1 <= i <= n,
            n == tokens@.len(),
            scan(tokens@.take(i as int), negation_after_bracket) is Ok,
            mirrors(last, scopes@, open, scan(tokens@.take(i as int), negation_after_bracket)->Ok_0),
        decreases n - i,
    {
        let ghost prefix = tokens@.take(i as int);
        let ghost st = scan(prefix, negation_after_bracket)->Ok_0;
        proof {
            lemma_scan_shape(prefix, negation_after_bracket);
            assert(tokens@.take(i + 1).drop_last() == prefix);
        }
        let t = tokens[i];
        proof {
            if scan(tokens@.take(i + 1), negation_after_bracket) is Err {
                lemma_error_sticks(tokens@, i + 1, negation_after_bracket);
            }
        }
        let top = scopes.len() - 1;
        match t {
            Token::Value(_) => {
                if let Token::Value(_) = last {
                    return Err(ScanError::NoOperatorBetweenValues);
                }
                let n_values = scopes[top] + 1;
                if n_values > 2 {
                    return Err(ScanError::AmbiguousExpression);
                }
                scopes.set(top, n_values);
            },
            Token::OpeningBracket => {
                if let Token::Value(_) = last {
                    return Err(ScanError::ValueBeforeOpeningBracket);
                }
                scopes.push(0);
                open = open + 1;
            },
            Token::ClosingBracket => {
                if let Token::Operator(_) = last {
                    return Err(ScanError::OperatorBeforeClosingBracket);
                }
                if open == 0 {
                    return Err(ScanError::NoOpeningBracketToMatchClosing);
                }
                open = open - 1;
                scopes.pop();
                let outer = scopes.len() - 1;
                let n_values = scopes[outer] + 1;
                if n_values > 2 {
                    return Err(ScanError::AmbiguousExpression);
                }
                scopes.set(outer, n_values);
            },
            Token::Operator(_) => {
                match last {
                    Token::Operator(_) | Token::Negation => {
                        return Err(ScanError::NoValueBeforeOperator);
                    },
                    _ => {},
                }
            },
            Token::Negation => {
                match last {
                    Token::Operator(_) | Token::Negation => {},
                    Token::OpeningBracket if negation_after_bracket => {},
                    _ => {
                        return Err(ScanError::NoOperatorBeforeNegation);
                    },
                }
            },
        }
        last = t;
        i = i + 1;
        proof {
            let st2 = scan(tokens@.take(i as int), negation_after_bracket)->Ok_0;
            assert forall|k: int| 0 <= k < scopes@.len() implies #[trigger] scopes@[k] as int
                == st2.scopes[k] by {
                if k < st.scopes.len() {
                    assert(scopes@[k] as int == st.scopes[k] || k >= st2.scopes.len() - 1);
                }
            }
        }
    }
    assert(tokens@.take(n as int) == tokens@);
    if open != 0 {
        return Err(ScanError::MissingOpeningOrClosingBracket);
    }
    match tokens[n - 1] {
        Token::Operator(_) | Token::Negation | Token::OpeningBracket => Err(ScanError::DoesNotEnd),
        _ => Ok(()),
    }
}

/// Validates the structure of a token sequence: brackets match, operators stand
/// between operands, no scope holds more than two operands, and the sequence
/// does not stop on an operator, a negation or an opening bracket.
pub fn verify(tokens: &Vec<Token>) -> (r: Result<(), LexerError>)
    ensures
        r == match check(tokens@, true) {
            Ok(()) => Ok(()),
            Err(e) => Err(lexer_error_of(e)),
        },
{
    match check_tokens(tokens, true) {
        Ok(()) => Ok(()),
        Err(e) => Err(error_of(e)),
    }
}

/// A structural error as a lexer error.
fn error_of(e: ScanError) -> (r: LexerError)
    ensures
        r == lexer_error_of(e),
{
    match e {
        ScanError::TokensHasNoElements => LexerError::TokensHasNoElements,
        ScanError::NoOperatorBetweenValues => LexerError::NoOperatorBetweenValues,
        ScanError::AmbiguousExpression => LexerError::AmbiguousExpression,
        ScanError::ValueBeforeOpeningBracket => LexerError::ValueBeforeOpeningBracket,
        ScanError::OperatorBeforeClosingBracket => LexerError::OperatorBeforeClosingBracket,
        ScanError::NoOpeningBracketToMatchClosing => LexerError::NoOpeningBracketToMatchClosing,
        ScanError::NoValueBeforeOperator => LexerError::NoValueBeforeOperator,
        ScanError::MissingOpeningOrClosingBracket => LexerError::MissingOpeningOrClosingBracket,
        ScanError::NoOperatorBeforeNegation => LexerError::NoOperatorBeforeNegation,
        ScanError::DoesNotEnd => LexerError::DoesNotEnd,
    }
}

/// Whether a symbol names a variable rather than a bracket, operator or constant.
pub open spec fn is_variable(c: char) -> bool {
    !(c == '[' || c == ']' || c == '+' || c == '.' || c == '-' || c == 't' || c == 'f' || c
        == 'c')
}

/// The token that a symbol stands for; `f` and `c` are both the constant false.
pub open spec fn token_of(c: char) -> Token {
    if c == '[' {
        Token::OpeningBracket
    } else if c == ']' {
        Token::ClosingBracket
    } else if c == '+' || c == '.' {
        Token::Operator(c)
    } else if c == '-' {
        Token::Negation
    } else if c == 'f' {
        Token::Value('c')
    } else {
        Token::Value(c)
    }
}

/// The distinct variables among the symbols, in order of first occurrence.
pub open spec fn variables_of(cs: Seq<char>) -> Seq<char>
    decreases cs.len(),
{
    if cs.len() == 0 {
        Seq::empty()
    } else {
        let v = variables_of(cs.drop_last());
        if is_variable(cs.last()) && !v.contains(cs.last()) {
            v.push(cs.last())
        } else {
            v
        }
    }
}

/// The first position, from `from` on, where a bracket pair wraps exactly one token.
pub open spec fn first_wrapped(s: Seq<Token>, from: int) -> Option<int>
    decreases s.len() - from,
{
    if from < 0 || from + 2 >= s.len() {
        None
    } else if s[from] is OpeningBracket && s[from + 2] is ClosingBracket {
        Some(from)
    } else {
        first_wrapped(s, from + 1)
    }
}

/// The sequence with the brackets at `p` and `p + 2` taken out.
pub open spec fn unwrap_at(s: Seq<Token>, p: int) -> Seq<Token> {
    s.take(p) + s.subrange(p + 1, p + 2) + s.skip(p + 3)
}

/// The sequence once every bracket pair around a single token has been dropped,
/// leftmost first, until none is left.
pub open spec fn collapsed(s: Seq<Token>) -> Seq<Token>
    decreases s.len(),
{
    match first_wrapped(s, 0) {
        Some(p) => if 0 <= p && p + 2 < s.len() {
            collapsed(unwrap_at(s, p))
        } else {
            s
        },
        None => s,
    }
}

/// A position that `first_wrapped` finds holds a bracket pair around one token.
proof fn lemma_first_wrapped_in_range(s: Seq<Token>, from: int)
    ensures
        first_wrapped(s, from) matches Some(p) ==> from <= p && p + 2 < s.len() && s[p] is OpeningBracket
            && s[p + 2] is ClosingBracket,
    decreases s.len() - from,
{
    if !(from < 0 || from + 2 >= s.len()) && !(s[from] is OpeningBracket && s[from + 2] is ClosingBracket) {
        lemma_first_wrapped_in_range(s, from + 1);
    }
}

/// Drops every bracket pair that wraps exactly one token.
fn collapse(tokens: &mut Vec<Token>)
    ensures
        final(tokens)@ == collapsed(old(tokens)@),
{
    loop
        invariant
            collapsed(tokens@) == collapsed(old(tokens)@),
        ensures
            tokens@ == collapsed(old(tokens)@),
        decreases tokens@.len(),
    {
        let n = tokens.len();
        let mut p: usize = 0;
        let mut found = false;
        while !found && p < n && n - p > 2
            invariant
                n == tokens@.len(),
                first_wrapped(tokens@, 0) == first_wrapped(tokens@, p as int),
                found ==> p + 2 < n && tokens@[p as int] is OpeningBracket && tokens@[p + 2] is ClosingBracket,
            decreases n - p, if found { 0int } else { 1int },
        {
            if let Token::OpeningBracket = tokens[p] {
                if let Token::ClosingBracket = tokens[p + 2] {
                    found = true;
                }
            }
            if !found {
                p = p + 1;
            }
        }
        if !found {
            assert(first_wrapped(tokens@, p as int) is None);
            assert(collapsed(tokens@) == tokens@);
            break;
        }
        let ghost before = tokens@;
        assert(first_wrapped(before, 0) == Some(p as int));
        tokens.remove(p);
        tokens.remove(p + 1);
        assert(tokens@ == unwrap_at(before, p as int));
    }
}

/// Whether `c` occurs in `v`.
fn contains_char(v: &Vec<char>, c: char) -> (r: bool)
    ensures
        r == v@.contains(c),
{
    let mut i: usize = 0;
    while i < v.len()
        invariant
            i <= v@.len(),
            forall|j: int| 0 <= j < i ==> v@[j] != c,
        decreases v@.len() - i,
    {
        if v[i] == c {
            return true;
        }
        i = i + 1;
    }
    false
}

/// The first symbol of each item.
pub open spec fn symbols_of(text: Seq<String>) -> Seq<char> {
    text.map_values(|s: String| s@[0])
}

/// Whether every item is a single character.
pub open spec fn all_single(text: Seq<String>) -> bool {
    forall|i: int| 0 <= i < text.len() ==> (#[trigger] text[i])@.len() == 1
}

/// What lexing a sequence of single-character symbols yields: the collapsed
/// tokens and the variables, or the first error found.
pub open spec fn lexed(cs: Seq<char>) -> Result<(Seq<Token>, Seq<char>), LexerError> {
    let tokens = cs.map_values(|c: char| token_of(c));
    if variables_of(cs).len() == 0 {
        Err(LexerError::NoVariables)
    } else if check(tokens, true) is Err {
        Err(lexer_error_of(check(tokens, true)->Err_0))
    } else if check(collapsed(tokens), true) is Err {
        Err(lexer_error_of(check(collapsed(tokens), true)->Err_0))
    } else {
        Ok((collapsed(tokens), variables_of(cs)))
    }
}

/// Turns single-character symbols into validated tokens, and lists the variables.
pub fn lexer(text: &Vec<String>) -> (r: Result<(Vec<Token>, Vec<char>), LexerError>)
    ensures
        !all_single(text@) <==> r matches Err(LexerError::SymbolTooLong(_)),
        r matches Err(LexerError::SymbolTooLong(s)) ==> exists|i: int|
            0 <= i < text@.len() && (#[trigger] text@[i])@.len() != 1 && s@ == text@[i]@
                && all_single(text@.take(i)),
        all_single(text@) ==> match r {
            Ok((t, v)) => lexed(symbols_of(text@)) == Ok::<_, LexerError>((t@, v@)),
            Err(e) => lexed(symbols_of(text@)) == Err::<(Seq<Token>, Seq<char>), _>(e),
        },
{
    let mut tokens: Vec<Token> = Vec::new();
    let mut variables: Vec<char> = Vec::new();
    let mut i: usize = 0;
    while i < text.len()
        invariant
            i <= text@.len(),
            all_single(text@.take(i as int)),
            tokens@ == symbols_of(text@.take(i as int)).map_values(|c: char| token_of(c)),
            variables@ == variables_of(symbols_of(text@.take(i as int))),
        decreases text@.len() - i,
    {
        let item = &text[i];
        if item.as_str().unicode_len() != 1 {
            let long = item.clone();
            proof {
                assert(text@[i as int] == *item);
                assert(!all_single(text@));
            }
            return Err(LexerError::SymbolTooLong(long));
        }
        let symbol = item.as_str().get_char(0);
        let token = match symbol {
            '[' => Token::OpeningBracket,
            ']' => Token::ClosingBracket,
            '+' | '.' => Token::Operator(symbol),
            '-' => Token::Negation,
            'f' => Token::Value('c'),
            _ => Token::Value(symbol),
        };
        if !(symbol == '[' || symbol == ']' || symbol == '+' || symbol == '.' || symbol == '-'
            || symbol == 't' || symbol == 'f' || symbol == 'c') && !contains_char(&variables, symbol) {
            variables.push(symbol);
        }
        tokens.push(token);
        proof {
            let prev = symbols_of(text@.take(i as int));
            let cur = symbols_of(text@.take(i + 1));
            assert(text@.take(i + 1).drop_last() == text@.take(i as int));
            assert(cur.drop_last() == prev);
            assert(cur.last() == symbol);
            assert forall|j: int| 0 <= j < i + 1 implies (#[trigger] text@.take(i + 1)[j])@.len() == 1 by {
                if j < i {
                    assert(text@.take(i + 1)[j] == text@.take(i as int)[j]);
                }
            }
            assert(tokens@ == cur.map_values(|c: char| token_of(c)));
        }
        i = i + 1;
    }
    assert(text@.take(i as int) == text@);
    if variables.len() == 0 {
        return Err(LexerError::NoVariables);
    }
    verify(&tokens)?;
    collapse(&mut tokens);
    verify(&tokens)?;
    Ok((tokens, variables))
}

/// A value directly followed by another value is rejected for want of an
/// operator between them, unless the tokens before that pair already failed.
pub proof fn lemma_adjacent_values_rejected(s: Seq<Token>, i: int, negation_after_bracket: bool)
    requires
        0 <= i,
        i + 1 < s.len(),
        s[i] is Value,
        s[i + 1] is Value,
        scan(s.take(i + 1), negation_after_bracket) is Ok,
    ensures
        check(s, negation_after_bracket) == Err::<(), ScanError>(ScanError::NoOperatorBetweenValues),
{
    lemma_scan_shape(s.take(i + 1), negation_after_bracket);
    assert(s.take(i + 2).drop_last() == s.take(i + 1));
    assert(s.take(i + 2).last() == s[i + 1]);
    assert(s.take(i + 1).last() == s[i]);
    lemma_error_sticks(s, i + 2, negation_after_bracket);
}

/// Whether a bracket pair at `i` wraps exactly one token.
pub open spec fn wraps_one(s: Seq<Token>, i: int) -> bool {
    0 <= i && i + 2 < s.len() && s[i] is OpeningBracket && s[i + 2] is ClosingBracket
}

/// Whether the token after a closing bracket at `i`, if any, is an operator,
/// a negation or another closing bracket.
pub open spec fn closes_cleanly(s: Seq<Token>, i: int) -> bool {
    s[i] is ClosingBracket && i + 1 < s.len() ==> !(s[i + 1] is Value || s[i + 1] is OpeningBracket)
}

/// Every bracket pair around a single token wraps a value, and no bracket
/// group is directly followed by an operand.
pub open spec fn operands_separated(s: Seq<Token>) -> bool {
    &&& forall|i: int| #[trigger] wraps_one(s, i) ==> s[i + 1] is Value
    &&& forall|i: int| 0 <= i < s.len() ==> #[trigger] closes_cleanly(s, i)
}

/// The scan of every prefix of an accepted sequence succeeds.
pub proof fn lemma_accepted_prefix(s: Seq<Token>, j: int, negation_after_bracket: bool)
    requires
        check(s, negation_after_bracket) is Ok,
        1 <= j <= s.len(),
    ensures
        scan(s.take(j), negation_after_bracket) is Ok,
{
    if scan(s.take(j), negation_after_bracket) is Err {
        lemma_error_sticks(s, j, negation_after_bracket);
    }
}

/// Past a bracket pair around one value, the scan of the sequence without the
/// pair runs as the scan with it; right after the value it differs only in
/// the last token.
proof fn lemma_unwrap_scan(s: Seq<Token>, p: int, j: int, negation_after_bracket: bool)
    requires
        wraps_one(s, p),
        s[p + 1] is Value,
        scan(s.take(p + 3), negation_after_bracket) is Ok,
        closes_cleanly(s, p + 2),
        p + 1 <= j <= s.len() - 2,
    ensures
        j == p + 1 ==> scan(unwrap_at(s, p).take(j), negation_after_bracket) == Ok::<_, ScanError>(
            ScanState { last: s[p + 1], ..scan(s.take(p + 3), negation_after_bracket)->Ok_0 },
        ),
        j > p + 1 ==> scan(unwrap_at(s, p).take(j), negation_after_bracket) == scan(
            s.take(j + 2),
            negation_after_bracket,
        ),
    decreases j,
{
    let u = unwrap_at(s, p);
    let f = negation_after_bracket;
    assert(u.len() == s.len() - 2);
    if j == p + 1 {
        let v = s[p + 1];
        let w3 = s.take(p + 3);
        assert(w3.drop_last() == s.take(p + 2));
        assert(s.take(p + 2).drop_last() == s.take(p + 1));
        assert(s.take(p + 1).drop_last() == s.take(p));
        assert(u.take(p + 1).drop_last() == s.take(p));
        assert(u.take(p + 1).last() == v);
        if scan(s.take(p + 2), f) is Err {
            assert(scan(w3, f) is Err);
        }
        if scan(s.take(p + 1), f) is Err {
            assert(scan(s.take(p + 2), f) is Err);
        }
        if p == 0 {
            assert(s.take(1)[0] == s[0]);
            assert(u.take(1)[0] == v);
            let st = scan(w3, f)->Ok_0;
            assert(st.scopes == seq![0int, 1int].drop_last().drop_last().push(1int));
            assert(st.scopes =~= seq![1int]);
        } else {
            if scan(s.take(p), f) is Err {
                assert(scan(s.take(p + 1), f) is Err);
            }
            lemma_scan_shape(s.take(p), f);
            let st0 = scan(s.take(p), f)->Ok_0;
            let pushed = st0.scopes.push(0);
            assert(pushed.drop_last().push(1).drop_last() == st0.scopes);
            assert(pushed.drop_last().push(1int).last() == 1int);
        }
    } else {
        lemma_unwrap_scan(s, p, j - 1, f);
        assert(u.take(j).drop_last() == u.take(j - 1));
        assert(s.take(j + 2).drop_last() == s.take(j + 1));
        assert(u.take(j).last() == s.take(j + 2).last());
        if j == p + 2 {
            assert(s.take(j + 2).last() == s[p + 3]);
        }
    }
}

/// Dropping one bracket pair around a value keeps an accepted sequence accepted,
/// when no operand directly follows the pair.
proof fn lemma_unwrap_keeps_check(s: Seq<Token>, p: int, negation_after_bracket: bool)
    requires
        wraps_one(s, p),
        s[p + 1] is Value,
        closes_cleanly(s, p + 2),
        check(s, negation_after_bracket) is Ok,
    ensures
        check(unwrap_at(s, p), negation_after_bracket) is Ok,
{
    let u = unwrap_at(s, p);
    let f = negation_after_bracket;
    lemma_accepted_prefix(s, p + 3, f);
    let j = u.len() as int;
    lemma_unwrap_scan(s, p, j, f);
    assert(u.take(j) == u);
    assert(s.take(j + 2) == s);
    assert(s.last() == s[s.len() - 1]);
    if j > p + 1 {
        assert(u.last() == s.last());
    } else {
        assert(s.take(p + 3) == s);
        assert(u.last() == s[p + 1]);
    }
}

/// Dropping one bracket pair around a value keeps the operands separated.
proof fn lemma_unwrap_keeps_separated(s: Seq<Token>, p: int)
    requires
        wraps_one(s, p),
        operands_separated(s),
    ensures
        operands_separated(unwrap_at(s, p)),
{
    let u = unwrap_at(s, p);
    assert(u.len() == s.len() - 2);
    assert forall|i: int| 0 <= i < p implies #[trigger] u[i] == s[i] by {}
    assert(u[p] == s[p + 1]);
    assert forall|i: int| p < i < u.len() implies #[trigger] u[i] == s[i + 2] by {}
    assert forall|i: int| #[trigger] wraps_one(u, i) implies u[i + 1] is Value by {
        if i + 2 < p {
            assert(wraps_one(s, i));
        } else if i == p - 1 {
        } else if i > p {
            assert(wraps_one(s, i + 2));
        }
    }
    assert forall|i: int| 0 <= i < u.len() implies #[trigger] closes_cleanly(u, i) by {
        if i + 1 < p {
            assert(closes_cleanly(s, i));
        } else if i == p - 1 {
            assert(closes_cleanly(s, i));
        } else if i > p {
            assert(closes_cleanly(s, i + 2));
        }
    }
}

/// Dropping every bracket pair around a single value keeps an accepted
/// sequence accepted, provided each such pair wraps a value and no bracket
/// group is directly followed by an operand.
pub proof fn lemma_collapse_keeps_valid(s: Seq<Token>, negation_after_bracket: bool)
    requires
        check(s, negation_after_bracket) is Ok,
        operands_separated(s),
    ensures
        check(collapsed(s), negation_after_bracket) is Ok,
    decreases s.len(),
{
    lemma_first_wrapped_in_range(s, 0);
    if let Some(p) = first_wrapped(s, 0) {
        assert(wraps_one(s, p));
        assert(closes_cleanly(s, p + 2));
        lemma_unwrap_keeps_check(s, p, negation_after_bracket);
        lemma_unwrap_keeps_separated(s, p);
        lemma_collapse_keeps_valid(unwrap_at(s, p), negation_after_bracket);
    }
}

} // verus!
