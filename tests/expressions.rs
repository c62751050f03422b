use truth_table::ast::{Grammar, AST};
use truth_table::lexer::{lexer, verify, LexerError, Token};
use truth_table::table::truth_table;
use truth_table::tokenizer;
use truth_table::tokenizer::ErrorType;
use truth_table::tree::Tree;

fn words(text: &str) -> Vec<String> {
    text.split(' ').map(|w| w.to_string()).collect()
}

fn table_of(text: &str) -> (Vec<char>, Vec<(Vec<bool>, bool)>) {
    let (tokens, variables) = lexer(&words(text)).unwrap();
    let mut ast = Tree::new(Grammar::Root);
    ast.create_ast(&tokens);
    (variables.clone(), truth_table(&ast, &variables).unwrap())
}

fn evaluate_tokens(tokens: &[Token]) -> bool {
    let mut ast = Tree::new(Grammar::Root);
    ast.create_ast(tokens);
    ast.evaluate(0)
}

#[test]
fn and_of_true_and_false_is_false() {
    let tokens = vec![Token::Value('t'), Token::Operator('.'), Token::Value('c')];
    assert!(!evaluate_tokens(&tokens));
}

#[test]
fn or_of_true_and_false_is_true() {
    let tokens = vec![Token::Value('t'), Token::Operator('+'), Token::Value('c')];
    assert!(evaluate_tokens(&tokens));
}

#[test]
fn negation_of_true_is_false() {
    let tokens = vec![Token::Negation, Token::Value('t')];
    assert!(!evaluate_tokens(&tokens));
}

#[test]
fn double_negation_keeps_value() {
    let tokens = vec![Token::Negation, Token::Negation, Token::Value('c')];
    assert!(!evaluate_tokens(&tokens));
}

#[test]
fn or_table_of_two_variables() {
    let (variables, rows) = table_of("p + q");
    assert_eq!(variables, vec!['p', 'q']);
    assert_eq!(
        rows,
        vec![
            (vec![true, true], true),
            (vec![false, true], true),
            (vec![true, false], true),
            (vec![false, false], false),
        ]
    );
}

#[test]
fn bracketed_or_and_variable() {
    let (variables, rows) = table_of("[ p + q ] . r");
    assert_eq!(variables, vec!['p', 'q', 'r']);
    assert_eq!(rows.len(), 8);
    for (index, (cells, result)) in rows.iter().enumerate() {
        let p = index & 1 == 0;
        let q = (index >> 1) & 1 == 0;
        let r = (index >> 2) & 1 == 0;
        assert_eq!(cells, &vec![p, q, r]);
        assert_eq!(*result, r && (p || q));
    }
}

#[test]
fn rows_cover_every_pattern_once() {
    let (_, rows) = table_of("[ p . - q ] + r");
    assert_eq!(rows.len(), 8);
    for i in 0..rows.len() {
        for j in 0..rows.len() {
            if i != j {
                assert_ne!(rows[i].0, rows[j].0);
            }
        }
    }
}

#[test]
fn negated_bracket_group() {
    let (_, rows) = table_of("- [ p . q ]");
    let results: Vec<bool> = rows.iter().map(|row| row.1).collect();
    assert_eq!(results, vec![false, true, true, true]);
}

#[test]
fn dangling_operator_does_not_end() {
    assert_eq!(lexer(&words("p +")), Err(LexerError::DoesNotEnd));
}

#[test]
fn unbalanced_bracket_is_missing() {
    assert_eq!(lexer(&words("[ p + q")), Err(LexerError::MissingOpeningOrClosingBracket));
}

#[test]
fn adjacent_values_need_an_operator() {
    assert_eq!(lexer(&words("p q")), Err(LexerError::NoOperatorBetweenValues));
    assert_eq!(lexer(&words("p + q t")), Err(LexerError::NoOperatorBetweenValues));
}

#[test]
fn long_symbol_is_refused() {
    assert_eq!(
        lexer(&words("p + qq")),
        Err(LexerError::SymbolTooLong("qq".to_string()))
    );
}

#[test]
fn one_character_beyond_ascii_is_a_variable() {
    let (_, variables) = lexer(&words("é + p")).unwrap();
    assert_eq!(variables, vec!['é', 'p']);
}

#[test]
fn constants_alone_have_no_variables() {
    assert_eq!(lexer(&words("t + f")), Err(LexerError::NoVariables));
}

#[test]
fn variables_are_listed_once() {
    let (tokens, variables) = lexer(&words("p . - p")).unwrap();
    assert_eq!(variables, vec!['p']);
    assert_eq!(
        tokens,
        vec![Token::Value('p'), Token::Operator('.'), Token::Negation, Token::Value('p')]
    );
}

#[test]
fn false_is_written_c() {
    let (tokens, _) = lexer(&words("p + f")).unwrap();
    assert_eq!(tokens, vec![Token::Value('p'), Token::Operator('+'), Token::Value('c')]);
}

#[test]
fn single_value_brackets_collapse() {
    let (tokens, _) = lexer(&words("[ [ p ] ] + q")).unwrap();
    assert_eq!(tokens, vec![Token::Value('p'), Token::Operator('+'), Token::Value('q')]);
}

#[test]
fn each_structural_error() {
    assert_eq!(verify(&vec![]), Err(LexerError::TokensHasNoElements));
    assert_eq!(lexer(&words("p + q + r")), Err(LexerError::AmbiguousExpression));
    assert_eq!(lexer(&words("[ p ] [ q ] [ r ]")), Err(LexerError::AmbiguousExpression));
    assert_eq!(lexer(&words("p [ q ]")), Err(LexerError::ValueBeforeOpeningBracket));
    assert_eq!(lexer(&words("[ p + ] q")), Err(LexerError::OperatorBeforeClosingBracket));
    assert_eq!(lexer(&words("p ] + q")), Err(LexerError::NoOpeningBracketToMatchClosing));
    assert_eq!(lexer(&words("] p")), Err(LexerError::NoOpeningBracketToMatchClosing));
    assert_eq!(lexer(&words("p + + q")), Err(LexerError::NoValueBeforeOperator));
    assert_eq!(lexer(&words("p + - . q")), Err(LexerError::NoValueBeforeOperator));
    assert_eq!(lexer(&words("p - q")), Err(LexerError::NoOperatorBeforeNegation));
    assert_eq!(lexer(&words("p + q ]")), Err(LexerError::NoOpeningBracketToMatchClosing));
    assert_eq!(lexer(&words("p . -")), Err(LexerError::DoesNotEnd));
}

#[test]
fn negation_may_open_a_bracket_scope() {
    assert!(lexer(&words("[ - p ] + q")).is_ok());
}

#[test]
fn tokenizer_maps_symbols() {
    let tokens = tokenizer::Token::tokenize(&words("[ p . f ] + - c")).unwrap();
    assert_eq!(
        tokens,
        vec![
            tokenizer::Token::OpeningBracket,
            tokenizer::Token::Value('p'),
            tokenizer::Token::Operator('.'),
            tokenizer::Token::Value('c'),
            tokenizer::Token::ClosingBracket,
            tokenizer::Token::Operator('+'),
            tokenizer::Token::Negation,
            tokenizer::Token::Value('c'),
        ]
    );
    assert_eq!(tokenizer::Token::verify(&tokens), Ok(()));
}

#[test]
fn tokenizer_errors() {
    assert_eq!(
        tokenizer::Token::tokenize(&words("p + ab")),
        Err(ErrorType::SymbolTooLong("ab".to_string()))
    );
    let adjacent = tokenizer::Token::tokenize(&words("p q")).unwrap();
    assert_eq!(tokenizer::Token::verify(&adjacent), Err(ErrorType::NoOperatorBetweenValues));
    let negated = tokenizer::Token::tokenize(&words("p - q")).unwrap();
    assert_eq!(tokenizer::Token::verify(&negated), Err(ErrorType::NoOperatorBeforeNegation));
    let bracketed = tokenizer::Token::tokenize(&words("[ - p ]")).unwrap();
    assert_eq!(tokenizer::Token::verify(&bracketed), Ok(()));
    assert_eq!(tokenizer::Token::verify(&vec![]), Err(ErrorType::TokensHasNoElements));
}

#[test]
fn tree_grows_and_reparents() {
    let mut tree = Tree::new(Grammar::Root);
    let a = tree.add_child(0, Grammar::Value('p'));
    let op = tree.add_child(0, Grammar::Operator('+'));
    assert_eq!((a, op), (1, 2));
    tree.reparent(a, op);
    assert_eq!(tree.get_edges(), &vec![(2, 1), (0, 2)]);
    assert_eq!(
        tree.get_vertices(),
        &vec![Grammar::Root, Grammar::Value('p'), Grammar::Operator('+')]
    );
    assert_eq!(tree.children(2), vec![1]);
}

#[test]
fn find_replace_makes_a_leaf() {
    let mut tree = Tree::new(Grammar::Root);
    let v = tree.add_child(0, Grammar::Value('p'));
    tree.add_child(v, Grammar::Value('q'));
    tree.find_replace(Grammar::Value('p'), Grammar::Value('t'));
    assert_eq!(
        tree.get_vertices(),
        &vec![Grammar::Root, Grammar::Value('t'), Grammar::Value('q')]
    );
    assert_eq!(tree.get_edges(), &vec![(0, 1)]);
}

#[test]
fn replacing_an_absent_variable_changes_nothing() {
    let (tokens, _) = lexer(&words("p + - q")).unwrap();
    let mut ast = Tree::new(Grammar::Root);
    ast.create_ast(&tokens);
    let before = ast.clone();
    ast.find_replace(Grammar::Value('z'), Grammar::Value('t'));
    assert_eq!(ast.get_vertices(), before.get_vertices());
    assert_eq!(ast.get_edges(), before.get_edges());
}

#[test]
fn built_tree_shape() {
    let (tokens, _) = lexer(&words("p . q")).unwrap();
    let mut ast = Tree::new(Grammar::Root);
    let top = ast.create_ast(&tokens);
    assert_eq!(top, 2);
    assert_eq!(
        ast.get_vertices(),
        &vec![Grammar::Root, Grammar::Value('p'), Grammar::Operator('.'), Grammar::Value('q')]
    );
    assert_eq!(ast.get_edges(), &vec![(2, 1), (0, 2), (2, 3)]);
}

#[test]
fn bracketed_tree_shape() {
    let tokens = vec![
        Token::OpeningBracket,
        Token::Value('p'),
        Token::Operator('+'),
        Token::Value('q'),
        Token::ClosingBracket,
        Token::Operator('.'),
        Token::Value('r'),
    ];
    let mut ast = Tree::new(Grammar::Root);
    let top = ast.create_ast(&tokens);
    assert_eq!(top, 4);
    assert_eq!(
        ast.get_vertices(),
        &vec![
            Grammar::Root,
            Grammar::Value('p'),
            Grammar::Operator('+'),
            Grammar::Value('q'),
            Grammar::Operator('.'),
            Grammar::Value('r'),
        ]
    );
    assert_eq!(ast.get_edges(), &vec![(2, 1), (4, 2), (2, 3), (0, 4), (4, 5)]);
}

#[test]
fn single_operand_returns_root() {
    let tokens = vec![Token::Negation, Token::Value('p')];
    let mut ast = Tree::new(Grammar::Root);
    assert_eq!(ast.create_ast(&tokens), 0);
    assert_eq!(ast.get_edges(), &vec![(0, 1), (1, 2)]);
}

#[test]
fn negated_operand_in_brackets() {
    let (_, rows) = table_of("[ - p ] + q");
    let results: Vec<bool> = rows.iter().map(|row| row.1).collect();
    assert_eq!(results, vec![true, true, false, true]);
}

#[test]
fn tokens_outside_the_grammar_build_no_expression() {
    let tokens = vec![Token::Value('p'), Token::Value('q')];
    let mut ast = Tree::new(Grammar::Root);
    assert_eq!(ast.create_ast(&tokens), 0);
}
