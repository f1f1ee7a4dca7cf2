use math_parser::Function;
use math_parser::Parser;
use math_parser::Token;
use math_parser::Variable;
use math_parser::tokens_to_text;

#[test]
fn test_float() {
    let p = Parser::new("1.2".to_string());
    let result = p.tokens();
    assert_eq!(result.unwrap(), vec![Token::Number(vec!['1', '.', '2'])]);
    let lit: String = vec!['1', '.', '2'].into_iter().collect();
    assert_eq!(lit.parse::<f64>().unwrap(), 1.2);
}

#[test]
fn test_int() {
    let p = Parser::new("1".to_string());
    let result = p.tokens();
    assert_eq!(result.unwrap(), vec![Token::Number(vec!['1'])]);
    let lit: String = vec!['1'].into_iter().collect();
    assert_eq!(lit.parse::<f64>().unwrap(), 1.0);
}

#[test]
fn test_variable() {
    let p = Parser::new("x".to_string());
    let result = p.tokens();
    assert_eq!(result.unwrap(), vec![Token::Variable(Variable::X)]);
}

#[test]
fn test_trig() {
    let p = Parser::new("sin(x)".to_string());
    let result = p.tokens();
    assert_eq!(
        result.unwrap(),
        vec![
            Token::Function(Function::Sin),
            Token::LeftParen,
            Token::Variable(Variable::X),
            Token::RightParen
        ]
    );
}

#[test]
fn whitespace_is_stripped_before_scanning() {
    let spaced = Parser::new(" 4 +\t2 \n".to_string());
    let tight = Parser::new("4+2".to_string());
    assert_eq!(spaced.tokens().unwrap(), tight.tokens().unwrap());
}

#[test]
fn double_minus_fails_to_scan() {
    let p = Parser::new("--1".to_string());
    assert_eq!(p.tokens(), None);
}

#[test]
fn unknown_text_fails_to_scan() {
    let p = Parser::new("not an exp".to_string());
    assert_eq!(p.tokens(), None);
}

#[test]
fn partial_function_name_fails_to_scan() {
    let p = Parser::new("si".to_string());
    assert_eq!(p.tokens(), None);
}

#[test]
fn invalid_literal_fails_to_scan() {
    assert_eq!(Parser::new("1..2".to_string()).tokens(), None);
    assert_eq!(Parser::new(".".to_string()).tokens(), None);
    assert_eq!(Parser::new("1.2.3".to_string()).tokens(), None);
    assert_eq!(Parser::new("1..2".to_string()).evaluate(), None);
}

#[test]
fn dot_edged_literals_scan_and_parse() {
    let p = Parser::new("1.".to_string());
    assert_eq!(p.tokens().unwrap(), vec![Token::Number(vec!['1', '.'])]);
    assert_eq!("1.".parse::<f64>().unwrap(), 1.0);
    let q = Parser::new(".5".to_string());
    assert_eq!(q.tokens().unwrap(), vec![Token::Number(vec!['.', '5'])]);
    assert_eq!(".5".parse::<f64>().unwrap(), 0.5);
}

#[test]
fn number_literal_scans_to_one_token() {
    let p = Parser::new("123.5".to_string());
    let result = p.tokens();
    assert_eq!(result.unwrap(), vec![Token::Number(vec!['1', '2', '3', '.', '5'])]);
}

#[test]
fn round_trip_keeps_symbols_in_order() {
    let p = Parser::new("4*(2+3)-sin(x)^2".to_string());
    let tokens = p.tokens().unwrap();
    let text = tokens_to_text(&tokens);
    let rendered: String = text.iter().collect();
    assert_eq!(rendered, "4 * ( 2 + 3 ) - sin ( x ) ^ 2");
    let despaced: String = rendered.chars().filter(|c| *c != ' ').collect();
    assert_eq!(despaced, "4*(2+3)-sin(x)^2");
}

#[test]
fn negate_lookahead_renders_back() {
    let p = Parser::new("-1".to_string());
    let tokens = p.tokens().unwrap();
    assert_eq!(tokens, vec![Token::Negate, Token::Number(vec!['1'])]);
    let text = tokens_to_text(&tokens);
    let rendered: String = text.iter().collect();
    assert_eq!(rendered, "- 1");
}
