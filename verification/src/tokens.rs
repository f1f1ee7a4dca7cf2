use vstd::prelude::*;

verus! {

/// The variables the grammar accepts: exactly the letters `x`, `y` and `z`.
#[derive(Debug, Clone, Copy, PartialEq, Eq)]
pub enum Variable {
    X,
    Y,
    Z,
}

/// The functions the grammar accepts: `sin`, `cos` and `tan`.
#[derive(Debug, Clone, Copy, PartialEq, Eq)]
pub enum Function {
    Sin,
    Cos,
    Tan,
}

/// A binary operator: its symbol, its precedence, and whether it groups to
/// the left when precedences tie. The reduction a symbol stands for is fixed,
/// so it is resolved by matching on the symbol at apply time.
#[derive(Debug, Clone, Copy, PartialEq, Eq)]
pub struct Operator {
    pub symbol: char,
    pub precedence: u8,
    pub is_left_associative: bool,
}

/// One lexical token. A number carries the literal text it was scanned from,
/// so that no numeric rounding enters the token stream.
#[derive(Debug, PartialEq)]
pub enum Token {
    Number(Vec<char>),
    Variable(Variable),
    Operator(Operator),
    LeftParen,
    RightParen,
    Negate,
    Function(Function),
}

/// The mathematical model of a token: the same shape as `Token`, with the
/// number literal abstracted to a sequence of characters.
pub enum SpecToken {
    Number(Seq<char>),
    Variable(Variable),
    Operator(Operator),
    LeftParen,
    RightParen,
    Negate,
    Function(Function),
}

impl View for Token {
    type V = SpecToken;

    open spec fn view(&self) -> SpecToken {
        match self {
            Token::Number(lit) => SpecToken::Number(lit@),
            Token::Variable(v) => SpecToken::Variable(*v),
            Token::Operator(op) => SpecToken::Operator(*op),
            Token::LeftParen => SpecToken::LeftParen,
            Token::RightParen => SpecToken::RightParen,
            Token::Negate => SpecToken::Negate,
            Token::Function(f) => SpecToken::Function(*f),
        }
    }
}

impl DeepView for Token {
    type V = SpecToken;

    open spec fn deep_view(&self) -> SpecToken {
        self.view()
    }
}

impl Clone for Token {
    fn clone(&self) -> (r: Self)
        ensures
            r@ == self@,
    {
        match self {
            Token::Number(lit) => Token::Number(lit.clone()),
            Token::Variable(v) => Token::Variable(*v),
            Token::Operator(op) => Token::Operator(*op),
            Token::LeftParen => Token::LeftParen,
            Token::RightParen => Token::RightParen,
            Token::Negate => Token::Negate,
            Token::Function(f) => Token::Function(*f),
        }
    }
}

impl Operator {
    /// Builds the operator token for a symbol with the given precedence and
    /// associativity.
    pub fn new(symbol: char, precedence: u8, is_left_associative: bool) -> (t: Token)
        ensures
            t@ == SpecToken::Operator(Operator { symbol, precedence, is_left_associative }),
    {
        Token::Operator(Operator { symbol, precedence, is_left_associative })
    }
}

impl Token {
    pub fn is_operator(&self) -> (r: bool)
        ensures
            r == (self@ is Operator),
    {
        match self {
            Token::Operator(_) => true,
            _ => false,
        }
    }

    pub fn is_variable(&self) -> (r: bool)
        ensures
            r == (self@ is Variable),
    {
        match self {
            Token::Variable(_) => true,
            _ => false,
        }
    }

    pub fn operator(&self) -> (r: Option<&Operator>)
        ensures
            match r {
                Some(op) => self@ == SpecToken::Operator(*op),
                None => !(self@ is Operator),
            },
    {
        match self {
            Token::Operator(op) => Some(op),
            _ => None,
        }
    }
}

/// The textual symbol form of one token: a number prints as its literal, every
/// other token as the symbol it was scanned from.
pub open spec fn spec_token_text(t: SpecToken) -> Seq<char> {
    match t {
        SpecToken::Number(lit) => lit,
        SpecToken::Variable(v) => match v {
            Variable::X => seq!['x'],
            Variable::Y => seq!['y'],
            Variable::Z => seq!['z'],
        },
        SpecToken::Operator(op) => seq![op.symbol],
        SpecToken::LeftParen => seq!['('],
        SpecToken::RightParen => seq![')'],
        SpecToken::Negate => seq!['-'],
        SpecToken::Function(f) => match f {
            Function::Sin => seq!['s', 'i', 'n'],
            Function::Cos => seq!['c', 'o', 's'],
            Function::Tan => seq!['t', 'a', 'n'],
        },
    }
}

/// The symbol forms of a token sequence, joined by single spaces.
pub open spec fn spec_tokens_text(ts: Seq<SpecToken>) -> Seq<char>
    decreases ts.len(),
{
    if ts.len() == 0 {
        Seq::empty()
    } else if ts.len() == 1 {
        spec_token_text(ts[0])
    } else {
        spec_token_text(ts[0]) + seq![' '] + spec_tokens_text(ts.drop_first())
    }
}

fn token_text(t: &Token) -> (r: Vec<char>)
    ensures
        r@ == spec_token_text(t@),
{
    match t {
        Token::Number(lit) => lit.clone(),
        Token::Variable(v) => {
            let mut r: Vec<char> = Vec::new();
            match v {
                Variable::X => r.push('x'),
                Variable::Y => r.push('y'),
                Variable::Z => r.push('z'),
            }
            assert(r@ =~= spec_token_text(t@));
            r
        }
        Token::Operator(op) => {
            let mut r: Vec<char> = Vec::new();
            r.push(op.symbol);
            assert(r@ =~= spec_token_text(t@));
            r
        }
        Token::LeftParen => {
            let mut r: Vec<char> = Vec::new();
            r.push('(');
            assert(r@ =~= spec_token_text(t@));
            r
        }
        Token::RightParen => {
            let mut r: Vec<char> = Vec::new();
            r.push(')');
            assert(r@ =~= spec_token_text(t@));
            r
        }
        Token::Negate => {
            let mut r: Vec<char> = Vec::new();
            r.push('-');
            assert(r@ =~= spec_token_text(t@));
            r
        }
        Token::Function(f) => {
            let mut r: Vec<char> = Vec::new();
            match f {
                Function::Sin => {
                    r.push('s');
                    r.push('i');
                    r.push('n');
                }
                Function::Cos => {
                    r.push('c');
                    r.push('o');
                    r.push('s');
                }
                Function::Tan => {
                    r.push('t');
                    r.push('a');
                    r.push('n');
                }
            }
            assert(r@ =~= spec_token_text(t@));
            r
        }
    }
}

/// Renders a token sequence back to text: the symbol forms in order, separated
/// by single spaces.
pub fn tokens_to_text(tokens: &Vec<Token>) -> (r: Vec<char>)
    ensures
        r@ == spec_tokens_text(tokens.deep_view()),
{
    let r = tokens_text_from(tokens, 0);
    proof {
        assert(tokens.deep_view().skip(0) =~= tokens.deep_view());
    }
    r
}

fn tokens_text_from(tokens: &Vec<Token>, i: usize) -> (r: Vec<char>)
    requires
        i <= tokens.len(),
    ensures
        r@ == spec_tokens_text(tokens.deep_view().skip(i as int)),
    decreases tokens.len() - i,
{
    let ghost ts = tokens.deep_view();
    if i == tokens.len() {
        let r: Vec<char> = Vec::new();
        proof {
            assert(ts.skip(i as int).len() == 0);
        }
        r
    } else {
        let mut r = token_text(&tokens[i]);
        proof {
            assert(ts.skip(i as int)[0] == ts[i as int]);
        }
        if i + 1 < tokens.len() {
            r.push(' ');
            let mut rest = tokens_text_from(tokens, i + 1);
            r.append(&mut rest);
            proof {
                assert(ts.skip(i as int).drop_first() =~= ts.skip(i as int + 1));
                assert(r@ =~= spec_token_text(ts[i as int]) + seq![' '] + spec_tokens_text(
                    ts.skip(i as int + 1),
                ));
            }
        } else {
            proof {
                assert(ts.skip(i as int).len() == 1);
            }
        }
        r
    }
}

} // verus!
