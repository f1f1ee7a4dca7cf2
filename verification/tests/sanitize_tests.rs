use math_parser::Sanitize;

#[test]
fn sanitize_inserts_multiplication_after_digit() {
    let text = "5x".to_string();
    let out: String = text.sanitize().iter().collect();
    assert_eq!(out, "5*x");
}

#[test]
fn sanitize_inserts_multiplication_after_closing_paren() {
    let text = "(2)x".to_string();
    let out: String = text.sanitize().iter().collect();
    assert_eq!(out, "(2)*x");
}

#[test]
fn sanitize_splits_adjacent_digits() {
    let text = "52".to_string();
    let out: String = text.sanitize().iter().collect();
    assert_eq!(out, "5*2");
}

#[test]
fn sanitize_leaves_operators_alone() {
    let text = "a+b".to_string();
    let out: String = text.sanitize().iter().collect();
    assert_eq!(out, "a+b");
}
