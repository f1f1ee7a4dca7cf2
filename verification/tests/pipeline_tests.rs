use math_parser::CalcError;
use math_parser::Expr;
use math_parser::Function;
use math_parser::Operator;
use math_parser::Parser;
use math_parser::Token;

/// Folds the symbolic expression with the f64 interpretation: literals parse
/// as f64, the operators are the usual arithmetic with `^` as powf, and the
/// functions are the radian trigonometric ones.
fn fold(e: &Expr) -> Option<f64> {
    match e {
        Expr::Num(lit) => {
            let text: String = lit.iter().collect();
            text.parse::<f64>().ok()
        }
        Expr::Neg(inner) => Some(-fold(inner)?),
        Expr::Apply(f, inner) => {
            let v = fold(inner)?;
            Some(match f {
                Function::Sin => v.sin(),
                Function::Cos => v.cos(),
                Function::Tan => v.tan(),
            })
        }
        Expr::Bin(symbol, a, b) => {
            let x = fold(a)?;
            let y = fold(b)?;
            match symbol {
                '+' => Some(x + y),
                '*' => Some(x * y),
                '/' => Some(x / y),
                '^' => Some(x.powf(y)),
                _ => None,
            }
        }
    }
}

fn eval_str(input: &str) -> Option<f64> {
    let p = Parser::new(input.to_string());
    let e = p.evaluate()?;
    fold(&e)
}

#[test]
fn test_calculate_4_plus_2_times_3() {
    let p = Parser::new("4 + 2 * 3".to_string());
    let result = p.tokens();
    let result = Parser::shunting_yard(result.unwrap());
    let result = Parser::calculate(result.unwrap());
    assert_eq!(fold(&result.unwrap()).unwrap(), 10.0);
}

#[test]
fn test_calculate_4_dot_5_plus_2_times_3() {
    let p = Parser::new("4.5 + 2 * 3".to_string());
    let result = p.tokens();
    let result = Parser::shunting_yard(result.unwrap());
    let result = Parser::calculate(result.unwrap());
    assert_eq!(fold(&result.unwrap()).unwrap(), 10.5);
}

#[test]
fn test_calculate_4_leftparen_2_plus_3_rightparen() {
    let p = Parser::new("4 * (2 + 3)".to_string());
    let result = p.tokens();
    let result = Parser::shunting_yard(result.unwrap());
    let result = Parser::calculate(result.unwrap());
    assert_eq!(fold(&result.unwrap()).unwrap(), 20.0);
}

#[test]
fn test_negative_number() {
    let p = Parser::new("-1".to_string());
    let result = p.tokens();
    let result = Parser::shunting_yard(result.unwrap());
    println!("{:?}", result);
    let result = Parser::calculate(result.unwrap());
    assert_eq!(fold(&result.unwrap()).unwrap(), -1.0);
}

#[test]
fn parse_5_x() {
    let p = Parser::new("5x".to_string());
    let result = p.tokens();
    let result = Parser::shunting_yard(result.unwrap());
    let result = Parser::calculate(result.unwrap());
    assert_eq!(fold(&result.unwrap()).unwrap(), 5.0);
}

#[test]
fn not_a_math_expression() {
    let p = Parser::new("not an exp".to_string());
    assert_eq!(p.evaluate(), None);
}

#[test]
fn power_is_right_associative() {
    assert_eq!(eval_str("2^3^2").unwrap(), 512.0);
    let p = Parser::new("2^3^2".to_string());
    let expected = Expr::Bin(
        '^',
        Box::new(Expr::Num(vec!['2'])),
        Box::new(Expr::Bin(
            '^',
            Box::new(Expr::Num(vec!['3'])),
            Box::new(Expr::Num(vec!['2'])),
        )),
    );
    assert_eq!(p.evaluate().unwrap(), expected);
}

#[test]
fn unary_negation_evaluates() {
    assert_eq!(eval_str("-1").unwrap(), -1.0);
}

#[test]
fn sin_of_zero_is_zero() {
    assert_eq!(eval_str("sin(0)").unwrap(), 0.0);
}

#[test]
fn function_applies_to_single_preceding_value() {
    let p = Parser::new("cos(0)".to_string());
    let expected = Expr::Apply(Function::Cos, Box::new(Expr::Num(vec!['0'])));
    assert_eq!(p.evaluate().unwrap(), expected);
    assert_eq!(eval_str("cos(0)").unwrap(), 1.0);
}

#[test]
fn lone_operator_reports_missing_operand() {
    let postfix = vec![Operator::new('+', 2, true)];
    assert_eq!(Parser::calculate(postfix), Err(CalcError::MissingOperand('+')));
}

#[test]
fn leftover_operands_report_stack_size() {
    let postfix = vec![Token::Number(vec!['1']), Token::Number(vec!['2'])];
    assert_eq!(Parser::calculate(postfix), Err(CalcError::StackSize(2)));
    assert_eq!(Parser::calculate(Vec::new()), Err(CalcError::StackSize(0)));
}

#[test]
fn missing_operand_message_names_the_symbol() {
    let postfix = vec![Operator::new('*', 3, true)];
    let err = Parser::calculate(postfix).unwrap_err();
    let text: String = err.message().iter().collect();
    assert_eq!(text, "Missing operand for operator '*'");
}

#[test]
fn stack_size_message_reports_the_count() {
    let text: String = CalcError::StackSize(0).message().iter().collect();
    assert_eq!(text, "Expected 1 value on stack, found 0");
    let text12: String = CalcError::StackSize(12).message().iter().collect();
    assert_eq!(text12, "Expected 1 value on stack, found 12");
}

#[test]
fn variable_alone_leaves_nothing_on_the_stack() {
    let p = Parser::new("x".to_string());
    assert_eq!(p.evaluate(), None);
}

#[test]
fn evaluate_twice_agrees() {
    let first = eval_str("4 + 2 * 3");
    let second = eval_str("4 + 2 * 3");
    assert_eq!(first, second);
    let missing_first = eval_str("not an exp");
    let missing_second = eval_str("not an exp");
    assert_eq!(missing_first, None);
    assert_eq!(missing_first, missing_second);
}
