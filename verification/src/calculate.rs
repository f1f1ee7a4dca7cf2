use vstd::prelude::*;
use vstd::pervasive::unreached;

use crate::tokens::Function;
use crate::tokens::SpecToken;
use crate::tokens::Token;
use crate::tokenize::Parser;

verus! {

/// The computation a postfix sequence stands for, kept symbolic: a number is
/// its literal text, and every reduction records which operation applies to
/// which operands. A caller folds this tree with its numeric interpretation.
#[derive(Debug, PartialEq)]
pub enum Expr {
    Num(Vec<char>),
    Neg(Box<Expr>),
    Apply(Function, Box<Expr>),
    Bin(char, Box<Expr>, Box<Expr>),
}

/// The mathematical model of an expression tree, with number literals
/// abstracted to character sequences.
pub enum SpecExpr {
    Num(Seq<char>),
    Neg(Box<SpecExpr>),
    Apply(Function, Box<SpecExpr>),
    Bin(char, Box<SpecExpr>, Box<SpecExpr>),
}

impl Expr {
    /// The model of this tree, literal texts abstracted to sequences.
    pub open spec fn model(&self) -> SpecExpr
        decreases self,
    {
        match self {
            Expr::Num(lit) => SpecExpr::Num(lit@),
            Expr::Neg(e) => SpecExpr::Neg(Box::new(e.model())),
            Expr::Apply(f, e) => SpecExpr::Apply(*f, Box::new(e.model())),
            Expr::Bin(sym, a, b) => SpecExpr::Bin(*sym, Box::new(a.model()), Box::new(b.model())),
        }
    }
}

impl DeepView for Expr {
    type V = SpecExpr;

    open spec fn deep_view(&self) -> SpecExpr {
        self.model()
    }
}

/// The two ways a postfix reduction can fail: a binary operator with fewer
/// than two operands below it, or a pass that does not end with exactly one
/// value on the stack.
#[derive(Debug, Clone, Copy, PartialEq, Eq)]
pub enum CalcError {
    MissingOperand(char),
    StackSize(usize),
}

/// The digit character for a value below ten.
pub open spec fn digit_char(d: int) -> char {
    if d == 0 {
        '0'
    } else if d == 1 {
        '1'
    } else if d == 2 {
        '2'
    } else if d == 3 {
        '3'
    } else if d == 4 {
        '4'
    } else if d == 5 {
        '5'
    } else if d == 6 {
        '6'
    } else if d == 7 {
        '7'
    } else if d == 8 {
        '8'
    } else {
        '9'
    }
}

/// The decimal rendering of a count, most significant digit first.
pub open spec fn dec_digits(n: int) -> Seq<char>
    decreases n,
{
    if n < 10 {
        seq![digit_char(n)]
    } else {
        dec_digits(n / 10).push(digit_char(n % 10))
    }
}

fn push_digit(out: &mut Vec<char>, d: usize)
    requires
        d < 10,
    ensures
        final(out)@ == old(out)@ + seq![digit_char(d as int)],
{
    let c: char = if d == 0 {
        '0'
    } else if d == 1 {
        '1'
    } else if d == 2 {
        '2'
    } else if d == 3 {
        '3'
    } else if d == 4 {
        '4'
    } else if d == 5 {
        '5'
    } else if d == 6 {
        '6'
    } else if d == 7 {
        '7'
    } else if d == 8 {
        '8'
    } else {
        '9'
    };
    out.push(c);
    proof {
        assert(out@ =~= old(out)@ + seq![digit_char(d as int)]);
    }
}

fn push_decimal(out: &mut Vec<char>, n: usize)
    ensures
        final(out)@ == old(out)@ + dec_digits(n as int),
    decreases n,
{
    if n < 10 {
        push_digit(out, n);
    } else {
        push_decimal(out, n / 10);
        push_digit(out, n % 10);
        proof {
            assert(out@ =~= old(out)@ + dec_digits(n as int / 10).push(
                digit_char(n as int % 10),
            ));
        }
    }
}

impl CalcError {
    /// The failure description: the operator whose operand is missing with
    /// its symbol, or the count of values the stack held at the end.
    pub fn message(&self) -> (m: Vec<char>)
        ensures
            match *self {
                CalcError::MissingOperand(symbol) => m@ == "Missing operand for operator '"@
                    + seq![symbol] + seq!['\''],
                CalcError::StackSize(n) => m@ == "Expected 1 value on stack, found "@ + dec_digits(
                    n as int,
                ),
            },
    {
        match self {
            CalcError::MissingOperand(symbol) => {
                let mut m = crate::tokenize::to_chars("Missing operand for operator '");
                m.push(*symbol);
                m.push('\'');
                proof {
                    assert(m@ =~= "Missing operand for operator '"@ + seq![*symbol] + seq![
                        '\'',
                    ]);
                }
                m
            }
            CalcError::StackSize(n) => {
                let mut m = crate::tokenize::to_chars("Expected 1 value on stack, found ");
                push_decimal(&mut m, *n);
                m
            }
        }
    }
}

/// Whether a token may appear in a postfix sequence: parentheses are resolved
/// by the reordering pass and never reach the reduction.
pub open spec fn postfix_token(t: SpecToken) -> bool {
    !(t is LeftParen) && !(t is RightParen)
}

/// One token of the reduction. A number pushes its literal; a variable pops
/// and pushes the top back unchanged; a function or the negation marker wraps
/// the top value, silently doing nothing on an empty stack; a binary operator
/// takes the right then the left operand, failing if either is missing.
pub open spec fn spec_calc_step(stack: Seq<SpecExpr>, t: SpecToken) -> Result<
    Seq<SpecExpr>,
    CalcError,
> {
    match t {
        SpecToken::Number(lit) => Ok(stack.push(SpecExpr::Num(lit))),
        SpecToken::Variable(_) => Ok(stack),
        SpecToken::Function(f) => if stack.len() == 0 {
            Ok(stack)
        } else {
            Ok(stack.drop_last().push(SpecExpr::Apply(f, Box::new(stack.last()))))
        },
        SpecToken::Negate => if stack.len() == 0 {
            Ok(stack)
        } else {
            Ok(stack.drop_last().push(SpecExpr::Neg(Box::new(stack.last()))))
        },
        SpecToken::Operator(op) => if stack.len() < 2 {
            Err(CalcError::MissingOperand(op.symbol))
        } else {
            Ok(stack.drop_last().drop_last().push(SpecExpr::Bin(
                op.symbol,
                Box::new(stack[stack.len() - 2]),
                Box::new(stack.last()),
            )))
        },
        _ => Ok(stack),
    }
}

/// The reduction pass over a whole postfix sequence, left to right.
pub open spec fn spec_calc_fold(ts: Seq<SpecToken>) -> Result<Seq<SpecExpr>, CalcError>
    decreases ts.len(),
{
    if ts.len() == 0 {
        Ok(Seq::empty())
    } else {
        match spec_calc_fold(ts.drop_last()) {
            Err(e) => Err(e),
            Ok(stack) => spec_calc_step(stack, ts.last()),
        }
    }
}

/// The value of a postfix sequence: the reduction pass must end with exactly
/// one value on the stack, which is the result; any other final count is
/// reported.
pub open spec fn spec_calculate(ts: Seq<SpecToken>) -> Result<SpecExpr, CalcError> {
    match spec_calc_fold(ts) {
        Err(e) => Err(e),
        Ok(stack) => if stack.len() == 1 {
            Ok(stack[0])
        } else {
            Err(CalcError::StackSize(stack.len() as usize))
        },
    }
}

/// Once the reduction has failed on a prefix, the whole pass fails the same
/// way.
proof fn lemma_calc_err_prefix(ts: Seq<SpecToken>, i: int)
    requires
        0 <= i <= ts.len(),
        spec_calc_fold(ts.take(i)) is Err,
    ensures
        spec_calc_fold(ts) == spec_calc_fold(ts.take(i)),
    decreases ts.len() - i,
{
    if i == ts.len() {
        assert(ts.take(i) =~= ts);
    } else {
        assert(ts.take(i + 1).drop_last() =~= ts.take(i));
        lemma_calc_err_prefix(ts, i + 1);
    }
}

impl Parser {
    /// Reduces a postfix token sequence to the expression it computes, by an
    /// explicit operand stack, or reports the missing operand or the final
    /// stack count that is not one. Parenthesis tokens never appear in
    /// postfix order and are outside this function's domain.
    pub fn calculate(postfix_tokens: Vec<Token>) -> (r: Result<Expr, CalcError>)
        requires
            forall|k: int|
                0 <= k < postfix_tokens.deep_view().len() ==> postfix_token(
                    #[trigger] postfix_tokens.deep_view()[k],
                ),
        ensures
            ({
                let s = spec_calculate(postfix_tokens.deep_view());
                match r {
                    Ok(e) => s == Ok::<SpecExpr, CalcError>(e.deep_view()),
                    Err(e) => s == Err::<SpecExpr, CalcError>(e),
                }
            }),
    {
        let ghost ts = postfix_tokens.deep_view();
        let mut stack: Vec<Expr> = Vec::new();
        let mut i: usize = 0;
        proof {
            assert(ts.take(0) =~= Seq::<SpecToken>::empty());
            assert(stack.deep_view() =~= Seq::<SpecExpr>::empty());
        }
        while i < postfix_tokens.len()
            invariant
                i <= postfix_tokens.len(),
                ts == postfix_tokens.deep_view(),
                forall|k: int| 0 <= k < ts.len() ==> postfix_token(#[trigger] ts[k]),
                spec_calc_fold(ts.take(i as int)) == Ok::<Seq<SpecExpr>, CalcError>(
                    stack.deep_view(),
                ),
            decreases postfix_tokens.len() - i,
        {
            proof {
                assert(ts.take(i as int + 1).drop_last() =~= ts.take(i as int));
                assert(ts.take(i as int + 1).last() == ts[i as int]);
            }
            let ghost st0 = stack.deep_view();
            match &postfix_tokens[i] {
                Token::Number(lit) => {
                    stack.push(Expr::Num(lit.clone()));
                    proof {
                        assert(stack.deep_view() =~= st0.push(SpecExpr::Num(lit@)));
                    }
                }
                Token::Variable(_) => {
                    if stack.len() > 0 {
                        match stack.pop() {
                            None => {
                                proof {
                                    assert(false);
                                }
                            }
                            Some(x) => {
                                stack.push(x);
                                proof {
                                    assert(stack.deep_view() =~= st0);
                                }
                            }
                        }
                    }
                }
                Token::Function(f) => {
                    if stack.len() > 0 {
                        match stack.pop() {
                            None => {
                                proof {
                                    assert(false);
                                }
                            }
                            Some(x) => {
                                stack.push(Expr::Apply(*f, Box::new(x)));
                                proof {
                                    assert(stack.deep_view() =~= st0.drop_last().push(
                                        SpecExpr::Apply(*f, Box::new(st0.last())),
                                    ));
                                }
                            }
                        }
                    }
                }
                Token::Negate => {
                    if stack.len() > 0 {
                        match stack.pop() {
                            None => {
                                proof {
                                    assert(false);
                                }
                            }
                            Some(x) => {
                                stack.push(Expr::Neg(Box::new(x)));
                                proof {
                                    assert(stack.deep_view() =~= st0.drop_last().push(
                                        SpecExpr::Neg(Box::new(st0.last())),
                                    ));
                                }
                            }
                        }
                    }
                }
                Token::Operator(op) => {
                    let symbol = op.symbol;
                    if stack.len() < 2 {
                        proof {
                            assert(spec_calc_fold(ts.take(i as int + 1)) == Err::<
                                Seq<SpecExpr>,
                                CalcError,
                            >(CalcError::MissingOperand(symbol)));
                            lemma_calc_err_prefix(ts, i as int + 1);
                        }
                        return Err(CalcError::MissingOperand(symbol));
                    }
                    let y = match stack.pop() {
                        Some(v) => v,
                        None => unreached(),
                    };
                    let x = match stack.pop() {
                        Some(v) => v,
                        None => unreached(),
                    };
                    stack.push(Expr::Bin(symbol, Box::new(x), Box::new(y)));
                    proof {
                        assert(st0.drop_last().last() == st0[st0.len() - 2]);
                        assert(stack.deep_view() =~= st0.drop_last().drop_last().push(
                            SpecExpr::Bin(
                                symbol,
                                Box::new(st0[st0.len() - 2]),
                                Box::new(st0.last()),
                            ),
                        ));
                    }
                }
                Token::LeftParen => {
                    proof {
                        assert(postfix_token(ts[i as int]));
                        assert(false);
                    }
                }
                Token::RightParen => {
                    proof {
                        assert(postfix_token(ts[i as int]));
                        assert(false);
                    }
                }
            }
            i = i + 1;
        }
        proof {
            assert(ts.take(postfix_tokens.len() as int) =~= ts);
        }
        if stack.len() != 1 {
            return Err(CalcError::StackSize(stack.len()));
        }
        match stack.pop() {
            Some(e) => Ok(e),
            None => unreached(),
        }
    }
}

/// A function token consumes exactly the single value preceding it: the rest
/// of the stack is untouched, and the top value alone becomes the function's
/// argument. On an empty stack it silently changes nothing.
pub proof fn lemma_function_applies_to_top(stack: Seq<SpecExpr>, f: Function)
    ensures
        stack.len() > 0 ==> spec_calc_step(stack, SpecToken::Function(f)) == Ok::<
            Seq<SpecExpr>,
            CalcError,
        >(stack.drop_last().push(SpecExpr::Apply(f, Box::new(stack.last())))),
        stack.len() == 0 ==> spec_calc_step(stack, SpecToken::Function(f)) == Ok::<
            Seq<SpecExpr>,
            CalcError,
        >(stack),
{
}

/// A postfix sequence holding one binary operator and nothing else fails for
/// want of its operands, naming the operator's symbol.
pub proof fn lemma_lone_operator_underflows(op: crate::tokens::Operator)
    ensures
        spec_calculate(seq![SpecToken::Operator(op)]) == Err::<SpecExpr, CalcError>(
            CalcError::MissingOperand(op.symbol),
        ),
{
    let ts = seq![SpecToken::Operator(op)];
    assert(ts.drop_last() =~= Seq::<SpecToken>::empty());
    assert(spec_calc_fold(ts.drop_last()) == Ok::<Seq<SpecExpr>, CalcError>(Seq::empty()));
}

} // verus!
