//! A verified arithmetic-expression pipeline: a tokenizer for numbers,
//! variables, operators, parentheses and trigonometric functions; the
//! shunting-yard reordering from infix to postfix; and a postfix reduction
//! that builds the expression to compute. Numbers travel as their literal
//! text, so a caller can apply any numeric interpretation to the result.

pub mod calculate;
pub mod evaluate;
pub mod sanitize;
pub mod shunting;
pub mod tokenize;
pub mod tokens;

pub use calculate::CalcError;
pub use calculate::Expr;
pub use calculate::SpecExpr;
pub use sanitize::Sanitize;
pub use shunting::ShuntError;
pub use tokenize::Parser;
pub use tokens::Function;
pub use tokens::Operator;
pub use tokens::SpecToken;
pub use tokens::Token;
pub use tokens::Variable;
pub use tokens::tokens_to_text;
