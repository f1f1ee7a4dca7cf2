use math_parser::Parser;
use math_parser::ShuntError;
use math_parser::Token;

#[test]
fn print_shunting_yard() {
    let p = Parser::new("1 + 2 * 3".to_string());
    let result = p.tokens();
    let result = Parser::shunting_yard(result.unwrap());
    println!("{:?}", result);
}

#[test]
fn precedence_orders_the_postfix() {
    let p = Parser::new("1 + 2 * 3".to_string());
    let postfix = Parser::shunting_yard(p.tokens().unwrap()).unwrap();
    let symbols: Vec<String> = postfix
        .iter()
        .map(|t| match t {
            Token::Number(lit) => lit.iter().collect(),
            Token::Operator(op) => op.symbol.to_string(),
            other => format!("{:?}", other),
        })
        .collect();
    assert_eq!(symbols, vec!["1", "2", "3", "*", "+"]);
}

#[test]
fn unmatched_right_paren_is_reported() {
    let p = Parser::new("4+2)".to_string());
    let result = Parser::shunting_yard(p.tokens().unwrap());
    assert_eq!(result, Err(ShuntError::UnmatchedRightParen));
    assert_eq!(ShuntError::UnmatchedRightParen.message(), "Mismatched ')'");
}

#[test]
fn unmatched_left_paren_is_reported() {
    let p = Parser::new("(4+2".to_string());
    let result = Parser::shunting_yard(p.tokens().unwrap());
    assert_eq!(result, Err(ShuntError::UnmatchedLeftParen));
    assert_eq!(ShuntError::UnmatchedLeftParen.message(), "Mismatched '('");
}

#[test]
fn mismatched_parens_never_reach_a_result() {
    assert_eq!(Parser::new("(4+2".to_string()).evaluate(), None);
    assert_eq!(Parser::new("4+2)".to_string()).evaluate(), None);
    assert_eq!(Parser::new(")(".to_string()).evaluate(), None);
}

#[test]
fn token_helpers_classify() {
    let p = Parser::new("1+x".to_string());
    let tokens = p.tokens().unwrap();
    assert!(!tokens[0].is_operator());
    assert!(tokens[1].is_operator());
    assert!(tokens[2].is_variable());
    let op = tokens[1].operator().unwrap();
    assert_eq!(op.symbol, '+');
    assert_eq!(op.precedence, 2);
    assert!(op.is_left_associative);
    assert_eq!(tokens[0].operator(), None);
}
