use vstd::prelude::*;
use vstd::std_specs::iter::IteratorSpec;

use crate::tokens::Function;
use crate::tokens::Operator;
use crate::tokens::SpecToken;
use crate::tokens::Token;
use crate::tokens::Variable;

verus! {

broadcast use vstd::string::axiom_spec_iter, vstd::string::next_postcondition;

/// Whether a character counts as whitespace and is stripped from the input
/// before scanning.
pub uninterp spec fn is_space_char(c: char) -> bool;

/// Relies on char::is_whitespace: true exactly for characters with the
/// Unicode White_Space property; the result depends on the character alone.
/// The property is documented to hold for the ASCII whitespace characters,
/// and to fail for letters, digits and punctuation, which covers the whole
/// alphabet of this grammar.
#[verifier::external_body]
fn is_space(c: char) -> (r: bool)
    ensures
        r == is_space_char(c),
        c == ' ' || c == '\t' || c == '\n' || c == '\r' ==> r,
        (48 <= c as u32 && c as u32 <= 57) || (65 <= c as u32 && c as u32 <= 90) || (97 <= c as u32
            && c as u32 <= 122) ==> !r,
        c == '.' || c == '+' || c == '-' || c == '*' || c == '/' || c == '^' || c == '(' || c == ')'
            ==> !r,
{
    c.is_whitespace()
}

/// A decimal digit.
pub open spec fn is_digit_char(c: char) -> bool {
    48 <= c as u32 && c as u32 <= 57
}

/// A character that may appear in a number literal: a digit or the decimal
/// point.
pub open spec fn is_num_char(c: char) -> bool {
    is_digit_char(c) || c == '.'
}

fn is_num(c: char) -> (r: bool)
    ensures
        r == is_num_char(c),
{
    let u = c as u32;
    (48 <= u && u <= 57) || u == 46
}

fn is_digit(c: char) -> (r: bool)
    ensures
        r == is_digit_char(c),
{
    let u = c as u32;
    48 <= u && u <= 57
}

/// The length of the longest prefix of number characters.
pub open spec fn num_len(s: Seq<char>) -> nat
    decreases s.len(),
{
    if s.len() == 0 || !is_num_char(s[0]) {
        0
    } else {
        1 + num_len(s.drop_first())
    }
}

proof fn lemma_num_len_le(s: Seq<char>)
    ensures
        num_len(s) <= s.len(),
    decreases s.len(),
{
    if s.len() != 0 && is_num_char(s[0]) {
        lemma_num_len_le(s.drop_first());
    }
}

proof fn lemma_num_len_eq(s: Seq<char>, m: int)
    requires
        0 <= m <= s.len(),
        forall|k: int| 0 <= k < m ==> is_num_char(s[k]),
        m == s.len() || !is_num_char(s[m]),
    ensures
        num_len(s) == m,
    decreases m,
{
    if m == 0 {
    } else {
        assert(is_num_char(s[0]));
        lemma_num_len_eq(s.drop_first(), m - 1);
    }
}

/// The operator table: symbol, precedence, associativity.
pub open spec fn plus_op() -> Operator {
    Operator { symbol: '+', precedence: 2, is_left_associative: true }
}

pub open spec fn times_op() -> Operator {
    Operator { symbol: '*', precedence: 3, is_left_associative: true }
}

pub open spec fn divide_op() -> Operator {
    Operator { symbol: '/', precedence: 3, is_left_associative: true }
}

pub open spec fn power_op() -> Operator {
    Operator { symbol: '^', precedence: 4, is_left_associative: false }
}

/// How many decimal digits a text holds.
pub open spec fn digit_count(s: Seq<char>) -> nat
    decreases s.len(),
{
    if s.len() == 0 {
        0
    } else if is_digit_char(s.last()) {
        digit_count(s.drop_last()) + 1
    } else {
        digit_count(s.drop_last())
    }
}

/// How many decimal points a text holds.
pub open spec fn dot_count(s: Seq<char>) -> nat
    decreases s.len(),
{
    if s.len() == 0 {
        0
    } else if s.last() == '.' {
        dot_count(s.drop_last()) + 1
    } else {
        dot_count(s.drop_last())
    }
}

/// A valid number literal: at least one digit and at most one decimal point.
/// Within a run of digits and decimal points this is exactly the shape a
/// float64 parse accepts.
pub open spec fn valid_number_literal(s: Seq<char>) -> bool {
    digit_count(s) >= 1 && dot_count(s) <= 1
}

/// Scans a number at the head of the input: the longest nonempty prefix of
/// digits and decimal points, kept as literal text. A run that is not a
/// valid literal, such as one with two decimal points or none of its
/// characters a digit, matches no rule.
pub open spec fn spec_parse_number(s: Seq<char>) -> Option<(SpecToken, int)> {
    if s.len() > 0 && is_num_char(s[0]) && valid_number_literal(s.take(num_len(s) as int)) {
        Some((SpecToken::Number(s.take(num_len(s) as int)), num_len(s) as int))
    } else {
        None
    }
}

/// Scans a variable at the head of the input: one of the letters x, y, z.
pub open spec fn spec_parse_variable(s: Seq<char>) -> Option<(SpecToken, int)> {
    if s.len() > 0 && s[0] == 'x' {
        Some((SpecToken::Variable(Variable::X), 1))
    } else if s.len() > 0 && s[0] == 'y' {
        Some((SpecToken::Variable(Variable::Y), 1))
    } else if s.len() > 0 && s[0] == 'z' {
        Some((SpecToken::Variable(Variable::Z), 1))
    } else {
        None
    }
}

/// Scans an operator or punctuation mark at the head of the input. A minus
/// sign takes one character of lookahead: it becomes a unary negation marker,
/// unless another minus follows, which no rule matches.
pub open spec fn spec_parse_operator(s: Seq<char>) -> Option<(SpecToken, int)> {
    if s.len() == 0 {
        None
    } else if s[0] == '+' {
        Some((SpecToken::Operator(plus_op()), 1))
    } else if s[0] == '-' {
        if s.len() >= 2 && s[1] == '-' {
            None
        } else {
            Some((SpecToken::Negate, 1))
        }
    } else if s[0] == '*' {
        Some((SpecToken::Operator(times_op()), 1))
    } else if s[0] == '/' {
        Some((SpecToken::Operator(divide_op()), 1))
    } else if s[0] == '^' {
        Some((SpecToken::Operator(power_op()), 1))
    } else if s[0] == '(' {
        Some((SpecToken::LeftParen, 1))
    } else if s[0] == ')' {
        Some((SpecToken::RightParen, 1))
    } else {
        None
    }
}

/// Scans a function name at the head of the input: one of the literals sin,
/// cos, tan, matched whole.
pub open spec fn spec_parse_function(s: Seq<char>) -> Option<(SpecToken, int)> {
    if s.len() >= 3 && s[0] == 's' && s[1] == 'i' && s[2] == 'n' {
        Some((SpecToken::Function(Function::Sin), 3))
    } else if s.len() >= 3 && s[0] == 'c' && s[1] == 'o' && s[2] == 's' {
        Some((SpecToken::Function(Function::Cos), 3))
    } else if s.len() >= 3 && s[0] == 't' && s[1] == 'a' && s[2] == 'n' {
        Some((SpecToken::Function(Function::Tan), 3))
    } else {
        None
    }
}

/// One token at the head of the input, trying the rules in their fixed
/// priority order: number, variable, operator, function.
pub open spec fn spec_next_token(s: Seq<char>) -> Option<(SpecToken, int)> {
    match spec_parse_number(s) {
        Some(r) => Some(r),
        None => match spec_parse_variable(s) {
            Some(r) => Some(r),
            None => match spec_parse_operator(s) {
                Some(r) => Some(r),
                None => spec_parse_function(s),
            },
        },
    }
}

/// The whole input scanned to tokens. `None` when some position matches no
/// rule; the scan succeeds only once the entire input is consumed.
pub open spec fn spec_tokenize(s: Seq<char>) -> Option<Seq<SpecToken>>
    decreases s.len(),
    via spec_tokenize_decreases
{
    if s.len() == 0 {
        Some(Seq::empty())
    } else {
        match spec_next_token(s) {
            None => None,
            Some((t, n)) => match spec_tokenize(s.skip(n)) {
                None => None,
                Some(rest) => Some(seq![t] + rest),
            },
        }
    }
}

#[via_fn]
proof fn spec_tokenize_decreases(s: Seq<char>) {
    lemma_num_len_le(s);
}

/// The input with every whitespace character removed.
pub open spec fn strip_spaces(s: Seq<char>) -> Seq<char>
    decreases s.len(),
{
    if s.len() == 0 {
        s
    } else if is_space_char(s.last()) {
        strip_spaces(s.drop_last())
    } else {
        strip_spaces(s.drop_last()).push(s.last())
    }
}

pub(crate) fn to_chars(s: &str) -> (r: Vec<char>)
    ensures
        r@ == s@,
{
    let mut it = s.chars();
    let mut out: Vec<char> = Vec::new();
    loop
        invariant
            out@ + it.remaining() == s@,
            it.decrease() is Some,
        ensures
            out@ == s@,
        decreases it.decrease()->0,
    {
        match it.next() {
            Some(c) => {
                out.push(c);
            }
            None => {
                break;
            }
        }
    }
    out
}

/// Holds the whitespace-stripped input text to scan.
pub struct Parser {
    input: Vec<char>,
}

impl View for Parser {
    type V = Seq<char>;

    closed spec fn view(&self) -> Seq<char> {
        self.input@
    }
}

impl Default for Parser {
    fn default() -> (p: Self)
        ensures
            p@ == Seq::<char>::empty(),
    {
        Parser { input: Vec::new() }
    }
}

impl Parser {
    /// Stores the input with all whitespace removed.
    pub fn new(i: String) -> (p: Parser)
        ensures
            p@ == strip_spaces(i@),
    {
        let cs = to_chars(i.as_str());
        let mut input: Vec<char> = Vec::new();
        let mut idx: usize = 0;
        while idx < cs.len()
            invariant
                idx <= cs.len(),
                cs@ == i@,
                input@ == strip_spaces(cs@.take(idx as int)),
            decreases cs.len() - idx,
        {
            let c = cs[idx];
            proof {
                assert(cs@.take(idx as int + 1).drop_last() =~= cs@.take(idx as int));
                assert(cs@.take(idx as int + 1).last() == cs@[idx as int]);
            }
            if !is_space(c) {
                input.push(c);
            }
            idx = idx + 1;
        }
        proof {
            assert(cs@.take(cs@.len() as int) =~= cs@);
        }
        Parser { input }
    }

    /// Scans a number token at position `at`, returning it with the count of
    /// characters consumed. The scanned run of digits and decimal points
    /// must be a valid literal, with at least one digit and at most one
    /// decimal point; any other run matches no rule.
    pub fn parse_number(input: &Vec<char>, at: usize) -> (r: Option<(Token, usize)>)
        requires
            at <= input.len(),
        ensures
            match r {
                Some((t, n)) => {
                    &&& spec_parse_number(input@.skip(at as int)) == Some((t@, n as int))
                    &&& 1 <= n
                    &&& at + n <= input.len()
                },
                None => spec_parse_number(input@.skip(at as int)) is None,
            },
    {
        let ghost s = input@.skip(at as int);
        if at < input.len() && is_num(input[at]) {
            proof {
                assert(s[0] == input@[at as int]);
            }
            let mut j: usize = at + 1;
            while j < input.len() && is_num(input[j])
                invariant
                    at < j <= input.len(),
                    forall|k: int| at <= k < j ==> is_num_char(input@[k]),
                ensures
                    at < j <= input.len(),
                    forall|k: int| at <= k < j ==> is_num_char(input@[k]),
                    j == input.len() || !is_num_char(input@[j as int]),
                decreases input.len() - j,
            {
                j = j + 1;
            }
            proof {
                assert(forall|k: int| 0 <= k < j - at ==> s[k] == input@[at + k]);
                lemma_num_len_eq(s, j - at);
            }
            let mut lit: Vec<char> = Vec::new();
            let mut k: usize = at;
            while k < j
                invariant
                    at <= k <= j <= input.len(),
                    lit@ == input@.subrange(at as int, k as int),
                decreases j - k,
            {
                lit.push(input[k]);
                proof {
                    assert(lit@ =~= input@.subrange(at as int, k as int + 1));
                }
                k = k + 1;
            }
            proof {
                assert(s.take(j - at) =~= input@.subrange(at as int, j as int));
            }
            let mut digits: usize = 0;
            let mut dots: usize = 0;
            let mut m: usize = 0;
            proof {
                assert(lit@.take(0) =~= Seq::<char>::empty());
            }
            while m < lit.len()
                invariant
                    m <= lit.len(),
                    lit@ == s.take(j - at),
                    digits == digit_count(lit@.take(m as int)),
                    dots == dot_count(lit@.take(m as int)),
                    digits <= m,
                    dots <= m,
                decreases lit.len() - m,
            {
                proof {
                    assert(lit@.take(m as int + 1).drop_last() =~= lit@.take(m as int));
                    assert(lit@.take(m as int + 1).last() == lit@[m as int]);
                }
                let c2 = lit[m];
                if is_digit(c2) {
                    digits = digits + 1;
                }
                if c2 == '.' {
                    dots = dots + 1;
                }
                m = m + 1;
            }
            proof {
                assert(lit@.take(lit@.len() as int) =~= lit@);
            }
            if digits >= 1 && dots <= 1 {
                Some((Token::Number(lit), j - at))
            } else {
                None
            }
        } else {
            None
        }
    }

    /// Scans a variable token, one of the letters x, y, z, at position `at`.
    pub fn parse_variable(input: &Vec<char>, at: usize) -> (r: Option<(Token, usize)>)
        requires
            at <= input.len(),
        ensures
            match r {
                Some((t, n)) => {
                    &&& spec_parse_variable(input@.skip(at as int)) == Some((t@, n as int))
                    &&& 1 <= n
                    &&& at + n <= input.len()
                },
                None => spec_parse_variable(input@.skip(at as int)) is None,
            },
    {
        let ghost s = input@.skip(at as int);
        proof {
            if at < input.len() {
                assert(s[0] == input@[at as int]);
            }
        }
        if at < input.len() && input[at] == 'x' {
            Some((Token::Variable(Variable::X), 1))
        } else if at < input.len() && input[at] == 'y' {
            Some((Token::Variable(Variable::Y), 1))
        } else if at < input.len() && input[at] == 'z' {
            Some((Token::Variable(Variable::Z), 1))
        } else {
            None
        }
    }

    /// Scans an operator, a parenthesis, or the unary negation marker at
    /// position `at`. A minus directly followed by another minus matches no
    /// rule.
    fn parse_operator(input: &Vec<char>, at: usize) -> (r: Option<(Token, usize)>)
        requires
            at <= input.len(),
        ensures
            match r {
                Some((t, n)) => {
                    &&& spec_parse_operator(input@.skip(at as int)) == Some((t@, n as int))
                    &&& 1 <= n
                    &&& at + n <= input.len()
                },
                None => spec_parse_operator(input@.skip(at as int)) is None,
            },
    {
        let ghost s = input@.skip(at as int);
        if at == input.len() {
            return None;
        }
        proof {
            assert(s[0] == input@[at as int]);
            if at + 1 < input.len() {
                assert(s[1] == input@[at as int + 1]);
            }
        }
        let c = input[at];
        if c == '+' {
            Some((Operator::new('+', 2, true), 1))
        } else if c == '-' {
            if at + 1 < input.len() && input[at + 1] == '-' {
                None
            } else {
                Some((Token::Negate, 1))
            }
        } else if c == '*' {
            Some((Operator::new('*', 3, true), 1))
        } else if c == '/' {
            Some((Operator::new('/', 3, true), 1))
        } else if c == '^' {
            Some((Operator::new('^', 4, false), 1))
        } else if c == '(' {
            Some((Token::LeftParen, 1))
        } else if c == ')' {
            Some((Token::RightParen, 1))
        } else {
            None
        }
    }

    /// Scans a function name, one of the whole literals sin, cos, tan, at
    /// position `at`.
    pub fn parse_function(input: &Vec<char>, at: usize) -> (r: Option<(Token, usize)>)
        requires
            at <= input.len(),
        ensures
            match r {
                Some((t, n)) => {
                    &&& spec_parse_function(input@.skip(at as int)) == Some((t@, n as int))
                    &&& 1 <= n
                    &&& at + n <= input.len()
                },
                None => spec_parse_function(input@.skip(at as int)) is None,
            },
    {
        let ghost s = input@.skip(at as int);
        proof {
            if at + 2 < input.len() {
                assert(s[0] == input@[at as int]);
                assert(s[1] == input@[at as int + 1]);
                assert(s[2] == input@[at as int + 2]);
            } else if at < input.len() {
                assert(s.len() < 3);
            }
        }
        let rem = input.len() - at;
        if rem >= 3 && input[at] == 's' && input[at + 1] == 'i' && input[at + 2] == 'n' {
            Some((Token::Function(Function::Sin), 3))
        } else if rem >= 3 && input[at] == 'c' && input[at + 1] == 'o' && input[at + 2] == 's' {
            Some((Token::Function(Function::Cos), 3))
        } else if rem >= 3 && input[at] == 't' && input[at + 1] == 'a' && input[at + 2] == 'n' {
            Some((Token::Function(Function::Tan), 3))
        } else {
            None
        }
    }

    /// Scans one token at position `at`, trying the rules in their priority
    /// order: number, variable, operator, function.
    fn next_token(input: &Vec<char>, at: usize) -> (r: Option<(Token, usize)>)
        requires
            at <= input.len(),
        ensures
            match r {
                Some((t, n)) => {
                    &&& spec_next_token(input@.skip(at as int)) == Some((t@, n as int))
                    &&& 1 <= n
                    &&& at + n <= input.len()
                },
                None => spec_next_token(input@.skip(at as int)) is None,
            },
    {
        match Self::parse_number(input, at) {
            Some(r) => Some(r),
            None => match Self::parse_variable(input, at) {
                Some(r) => Some(r),
                None => match Self::parse_operator(input, at) {
                    Some(r) => Some(r),
                    None => Self::parse_function(input, at),
                },
            },
        }
    }

    /// Scans the stored input to its token sequence, or `None` when some
    /// position matches no rule, so that nothing of the input is left
    /// unconsumed on success.
    pub fn tokens(&self) -> (r: Option<Vec<Token>>)
        ensures
            r.deep_view() == spec_tokenize(self@),
    {
        let mut acc: Vec<Token> = Vec::new();
        let mut at: usize = 0;
        proof {
            assert(self@.skip(0) =~= self@);
            assert(acc.deep_view() =~= Seq::<SpecToken>::empty());
            if spec_tokenize(self@) is Some {
                assert(acc.deep_view() + spec_tokenize(self@)->0 =~= spec_tokenize(self@)->0);
            }
        }
        loop
            invariant
                at <= self.input.len(),
                spec_tokenize(self@) == match spec_tokenize(self@.skip(at as int)) {
                    None => None::<Seq<SpecToken>>,
                    Some(rest) => Some(acc.deep_view() + rest),
                },
            ensures
                ({
                    let r_now = spec_tokenize(self@);
                    at == self.input.len() && r_now == Some(acc.deep_view())
                }),
            decreases self.input.len() - at,
        {
            if at == self.input.len() {
                proof {
                    assert(self@.skip(at as int).len() == 0);
                    assert(acc.deep_view() + Seq::<SpecToken>::empty() =~= acc.deep_view());
                }
                break;
            }
            let ghost s0 = self@.skip(at as int);
            match Self::next_token(&self.input, at) {
                None => {
                    proof {
                        assert(s0.len() > 0);
                        assert(spec_tokenize(s0) is None);
                    }
                    return None;
                }
                Some((t, n)) => {
                    proof {
                        assert(s0.len() > 0);
                        assert(s0.skip(n as int) =~= self@.skip(at as int + n as int));
                        assert(acc.deep_view().push(t@) =~= acc.deep_view() + seq![t@]);
                    }
                    let ghost old_acc = acc.deep_view();
                    acc.push(t);
                    proof {
                        assert(acc.deep_view() =~= old_acc + seq![t@]);
                        if spec_tokenize(s0.skip(n as int)) is Some {
                            let rest = spec_tokenize(s0.skip(n as int))->0;
                            assert(old_acc + (seq![t@] + rest) =~= (old_acc + seq![t@]) + rest);
                        }
                    }
                    at = at + n;
                }
            }
        }
        Some(acc)
    }
}

/// The sequence with every plain space character removed.
pub open spec fn drop_space_chars(s: Seq<char>) -> Seq<char>
    decreases s.len(),
{
    if s.len() == 0 {
        s
    } else if s.last() == ' ' {
        drop_space_chars(s.drop_last())
    } else {
        drop_space_chars(s.drop_last()).push(s.last())
    }
}

proof fn lemma_num_len_prefix(s: Seq<char>)
    ensures
        forall|k: int| 0 <= k < num_len(s) ==> is_num_char(#[trigger] s[k]),
    decreases s.len(),
{
    if s.len() != 0 && is_num_char(s[0]) {
        lemma_num_len_le(s);
        lemma_num_len_prefix(s.drop_first());
        assert forall|k: int| 0 <= k < num_len(s) implies is_num_char(#[trigger] s[k]) by {
            if k > 0 {
                assert(k - 1 < num_len(s.drop_first()));
                assert(s.drop_first()[k - 1] == s[k]);
            }
        }
    }
}

proof fn lemma_next_token_text(s: Seq<char>)
    requires
        spec_next_token(s) is Some,
    ensures
        ({
            let tn = spec_next_token(s)->0;
            &&& crate::tokens::spec_token_text(tn.0) == s.take(tn.1)
            &&& 1 <= tn.1 <= s.len()
            &&& forall|k: int|
                0 <= k < crate::tokens::spec_token_text(tn.0).len() ==> (
                #[trigger] crate::tokens::spec_token_text(tn.0)[k]) != ' '
        }),
{
    let tn = spec_next_token(s)->0;
    if spec_parse_number(s) is Some {
        lemma_num_len_le(s);
        lemma_num_len_prefix(s);
        assert(num_len(s) >= 1);
        assert forall|k: int| 0 <= k < s.take(num_len(s) as int).len() implies (
        #[trigger] s.take(num_len(s) as int)[k]) != ' ' by {
            assert(is_num_char(s[k]));
            assert(' ' as u32 == 32);
        }
    } else if spec_parse_variable(s) is Some {
        assert(crate::tokens::spec_token_text(tn.0) =~= s.take(1));
    } else if spec_parse_operator(s) is Some {
        assert(crate::tokens::spec_token_text(tn.0) =~= s.take(1));
    } else {
        assert(crate::tokens::spec_token_text(tn.0) =~= s.take(3));
    }
}

proof fn lemma_drop_space_id(u: Seq<char>)
    requires
        forall|k: int| 0 <= k < u.len() ==> (#[trigger] u[k]) != ' ',
    ensures
        drop_space_chars(u) == u,
    decreases u.len(),
{
    if u.len() != 0 {
        assert forall|k: int| 0 <= k < u.drop_last().len() implies (#[trigger] u.drop_last()[k])
            != ' ' by {
            assert(u.drop_last()[k] == u[k]);
        }
        lemma_drop_space_id(u.drop_last());
        assert(drop_space_chars(u) =~= u);
    }
}

proof fn lemma_drop_space_add(a: Seq<char>, b: Seq<char>)
    ensures
        drop_space_chars(a + b) == drop_space_chars(a) + drop_space_chars(b),
    decreases b.len(),
{
    if b.len() == 0 {
        assert(a + b =~= a);
        assert(drop_space_chars(a) + drop_space_chars(b) =~= drop_space_chars(a));
    } else {
        assert((a + b).drop_last() =~= a + b.drop_last());
        assert((a + b).last() == b.last());
        lemma_drop_space_add(a, b.drop_last());
        if b.last() == ' ' {
        } else {
            assert(drop_space_chars(a) + drop_space_chars(b) =~= (drop_space_chars(a)
                + drop_space_chars(b.drop_last())).push(b.last()));
        }
    }
}

/// The round trip: rendering the tokens a text scans to, then dropping the
/// single spaces the renderer inserts, reproduces that text exactly, every
/// literal, symbol and name in order.
pub proof fn lemma_tokenize_round_trip(s: Seq<char>)
    requires
        spec_tokenize(s) is Some,
    ensures
        drop_space_chars(crate::tokens::spec_tokens_text(spec_tokenize(s)->0)) == s,
    decreases s.len(),
{
    let ts = spec_tokenize(s)->0;
    if s.len() == 0 {
        assert(ts.len() == 0);
        assert(drop_space_chars(crate::tokens::spec_tokens_text(ts)) =~= s);
    } else {
        let tn = spec_next_token(s)->0;
        let t = tn.0;
        let n = tn.1;
        lemma_next_token_text(s);
        let rest = spec_tokenize(s.skip(n))->0;
        lemma_tokenize_round_trip(s.skip(n));
        assert(ts =~= seq![t] + rest);
        assert(ts[0] == t);
        if rest.len() == 0 {
            assert(s.skip(n).len() == 0);
            assert(ts.len() == 1);
            assert(crate::tokens::spec_tokens_text(ts) == crate::tokens::spec_token_text(t));
            lemma_drop_space_id(crate::tokens::spec_token_text(t));
            assert(s.take(n) =~= s);
        } else {
            assert(ts.len() >= 2);
            assert(ts.drop_first() =~= rest);
            let u = crate::tokens::spec_token_text(t);
            let w = crate::tokens::spec_tokens_text(rest);
            assert(crate::tokens::spec_tokens_text(ts) == u + seq![' '] + w);
            lemma_drop_space_add(u + seq![' '], w);
            lemma_drop_space_add(u, seq![' ']);
            lemma_drop_space_id(u);
            assert(seq![' '].drop_last() =~= Seq::<char>::empty());
            assert(seq![' '].last() == ' ');
            assert(drop_space_chars(Seq::<char>::empty()) =~= Seq::<char>::empty());
            assert(drop_space_chars(seq![' ']) =~= Seq::<char>::empty());
            assert(u + Seq::<char>::empty() =~= u);
            assert(drop_space_chars(u + seq![' '] + w) == drop_space_chars((u + seq![' ']) + w));
            assert(s.take(n) + s.skip(n) =~= s);
        }
    }
}

/// Tokenizing a number literal alone yields exactly the one number token
/// that carries the literal: any text of digits and at most one decimal
/// point, holding at least one digit, scans to itself.
pub proof fn lemma_number_literal_tokenizes(s: Seq<char>)
    requires
        forall|i: int| 0 <= i < s.len() ==> is_num_char(s[i]),
        digit_count(s) >= 1,
        dot_count(s) <= 1,
    ensures
        spec_tokenize(s) == Some(seq![SpecToken::Number(s)]),
{
    assert(s.len() >= 1);
    lemma_num_len_eq(s, s.len() as int);
    assert(s.take(num_len(s) as int) =~= s);
    assert(s.skip(s.len() as int).len() == 0);
    assert(spec_tokenize(s.skip(s.len() as int)) == Some(Seq::<SpecToken>::empty()));
    assert(seq![SpecToken::Number(s)] + Seq::<SpecToken>::empty() =~= seq![
        SpecToken::Number(s),
    ]);
}

} // verus!
