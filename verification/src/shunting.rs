use vstd::prelude::*;

use crate::tokens::SpecToken;
use crate::tokens::Token;
use crate::tokens::Operator;
use crate::tokenize::Parser;

verus! {

/// The two ways a reordering pass can fail: a right parenthesis with no
/// matching left one, or a left parenthesis never closed.
#[derive(Debug, Clone, Copy, PartialEq, Eq)]
pub enum ShuntError {
    UnmatchedRightParen,
    UnmatchedLeftParen,
}

impl ShuntError {
    /// The failure description, naming the offending parenthesis.
    pub fn message(&self) -> (m: &'static str)
        ensures
            *self == ShuntError::UnmatchedRightParen ==> m@ == "Mismatched ')'"@,
            *self == ShuntError::UnmatchedLeftParen ==> m@ == "Mismatched '('"@,
    {
        match self {
            ShuntError::UnmatchedRightParen => "Mismatched ')'",
            ShuntError::UnmatchedLeftParen => "Mismatched '('",
        }
    }
}

/// The state of a reordering pass: the postfix accumulator and the
/// operator/marker stack, whose top is the last element.
pub struct SpecShunt {
    pub out: Seq<SpecToken>,
    pub ops: Seq<SpecToken>,
}

/// What a binary operator `q` pops before it is pushed: operators stay ahead
/// of it while their precedence is greater, or equal with left associativity;
/// anything else on top, in particular a left parenthesis, stops the popping.
/// Returns the popped tokens in pop order and the remaining stack.
pub open spec fn spec_pop_for(ops: Seq<SpecToken>, q: Operator) -> (Seq<SpecToken>, Seq<SpecToken>)
    decreases ops.len(),
{
    if ops.len() == 0 {
        (Seq::empty(), ops)
    } else {
        match ops.last() {
            SpecToken::Operator(p) => {
                if (p.is_left_associative && p.precedence >= q.precedence)
                    || (!p.is_left_associative && p.precedence > q.precedence) {
                    let r = spec_pop_for(ops.drop_last(), q);
                    (seq![ops.last()] + r.0, r.1)
                } else {
                    (Seq::empty(), ops)
                }
            }
            _ => (Seq::empty(), ops),
        }
    }
}

/// What a right parenthesis pops: everything down to the first left
/// parenthesis, which is discarded; `None` when the stack holds none.
/// Returns the popped tokens in pop order and the remaining stack.
pub open spec fn spec_tilt(ops: Seq<SpecToken>) -> Option<(Seq<SpecToken>, Seq<SpecToken>)>
    decreases ops.len(),
{
    if ops.len() == 0 {
        None
    } else if ops.last() is LeftParen {
        Some((Seq::empty(), ops.drop_last()))
    } else {
        match spec_tilt(ops.drop_last()) {
            None => None,
            Some((moved, rest)) => Some((seq![ops.last()] + moved, rest)),
        }
    }
}

/// The whole stack popped to the output, top first.
pub open spec fn spec_drain(ops: Seq<SpecToken>) -> Seq<SpecToken>
    decreases ops.len(),
{
    if ops.len() == 0 {
        Seq::empty()
    } else {
        seq![ops.last()] + spec_drain(ops.drop_last())
    }
}

/// One token of the reordering pass: operands go to the output; left
/// parentheses, functions and negation markers go onto the stack; a binary
/// operator first pops by precedence; a right parenthesis pops to its
/// matching left one or fails.
pub open spec fn spec_shunt_step(st: SpecShunt, t: SpecToken) -> Result<SpecShunt, ShuntError> {
    match t {
        SpecToken::Number(_) => Ok(SpecShunt { out: st.out.push(t), ops: st.ops }),
        SpecToken::Variable(_) => Ok(SpecShunt { out: st.out.push(t), ops: st.ops }),
        SpecToken::LeftParen => Ok(SpecShunt { out: st.out, ops: st.ops.push(t) }),
        SpecToken::Function(_) => Ok(SpecShunt { out: st.out, ops: st.ops.push(t) }),
        SpecToken::Negate => Ok(SpecShunt { out: st.out, ops: st.ops.push(t) }),
        SpecToken::Operator(q) => {
            let r = spec_pop_for(st.ops, q);
            Ok(SpecShunt { out: st.out + r.0, ops: r.1.push(t) })
        }
        SpecToken::RightParen => match spec_tilt(st.ops) {
            None => Err(ShuntError::UnmatchedRightParen),
            Some((moved, rest)) => Ok(SpecShunt { out: st.out + moved, ops: rest }),
        },
    }
}

/// The reordering pass over a whole token sequence, left to right.
pub open spec fn spec_shunt_fold(ts: Seq<SpecToken>) -> Result<SpecShunt, ShuntError>
    decreases ts.len(),
{
    if ts.len() == 0 {
        Ok(SpecShunt { out: Seq::empty(), ops: Seq::empty() })
    } else {
        match spec_shunt_fold(ts.drop_last()) {
            Err(e) => Err(e),
            Ok(st) => spec_shunt_step(st, ts.last()),
        }
    }
}

/// The postfix form of a token sequence: the pass over all tokens, then the
/// stack drained to the output; a left parenthesis still on the stack at that
/// point was never closed.
pub open spec fn spec_shunting_yard(ts: Seq<SpecToken>) -> Result<Seq<SpecToken>, ShuntError> {
    match spec_shunt_fold(ts) {
        Err(e) => Err(e),
        Ok(st) => if spec_tilt(st.ops) is Some {
            Err(ShuntError::UnmatchedLeftParen)
        } else {
            Ok(st.out + spec_drain(st.ops))
        },
    }
}

/// The top of a stack kept in a vector: its last element, without removing
/// it.
fn top(stack: &Vec<Token>) -> (r: Option<&Token>)
    ensures
        match r {
            Some(t) => stack@.len() > 0 && *t == stack@[stack@.len() - 1],
            None => stack@.len() == 0,
        },
{
    if stack.len() == 0 {
        None
    } else {
        Some(&stack[stack.len() - 1])
    }
}

/// Once the pass has failed on a prefix, the whole pass fails the same way.
proof fn lemma_fold_err_prefix(ts: Seq<SpecToken>, i: int)
    requires
        0 <= i <= ts.len(),
        spec_shunt_fold(ts.take(i)) is Err,
    ensures
        spec_shunt_fold(ts) == spec_shunt_fold(ts.take(i)),
    decreases ts.len() - i,
{
    if i == ts.len() {
        assert(ts.take(i) =~= ts);
    } else {
        assert(ts.take(i + 1).drop_last() =~= ts.take(i));
        lemma_fold_err_prefix(ts, i + 1);
    }
}

impl Parser {
    /// Pops the operator stack to the output until a left parenthesis is
    /// popped and discarded, returning whether one was found; with none, the
    /// whole stack ends up on the output.
    fn tilt_until(operators: &mut Vec<Token>, output: &mut Vec<Token>) -> (found: bool)
        ensures
            match spec_tilt(old(operators).deep_view()) {
                Some((moved, rest)) => {
                    &&& found
                    &&& final(operators).deep_view() == rest
                    &&& final(output).deep_view() == old(output).deep_view() + moved
                },
                None => {
                    &&& !found
                    &&& final(operators).deep_view() == Seq::<SpecToken>::empty()
                    &&& final(output).deep_view() == old(output).deep_view() + spec_drain(
                        old(operators).deep_view(),
                    )
                },
            },
    {
        loop
            invariant
                match spec_tilt(old(operators).deep_view()) {
                    Some((moved, rest)) => match spec_tilt(operators.deep_view()) {
                        Some((m2, r2)) => r2 == rest && old(output).deep_view() + moved
                            == output.deep_view() + m2,
                        None => false,
                    },
                    None => {
                        &&& spec_tilt(operators.deep_view()) is None
                        &&& old(output).deep_view() + spec_drain(old(operators).deep_view())
                            == output.deep_view() + spec_drain(operators.deep_view())
                    },
                },
            decreases operators.len(),
        {
            let ghost odv = operators.deep_view();
            if operators.len() == 0 {
                proof {
                    assert(odv.len() == 0);
                    assert(spec_drain(odv) =~= Seq::<SpecToken>::empty());
                    assert(output.deep_view() + Seq::<SpecToken>::empty() =~= output.deep_view());
                    assert(odv =~= Seq::<SpecToken>::empty());
                }
                return false;
            }
            proof {
                assert(odv.len() > 0);
            }
            match operators.pop() {
                None => {
                    proof {
                        assert(false);
                    }
                }
                Some(token) => {
                    proof {
                        assert(operators.deep_view() =~= odv.drop_last());
                        assert(token@ == odv.last());
                    }
                    match token {
                        Token::LeftParen => {
                            proof {
                                assert(spec_tilt(odv) == Some(
                                    (Seq::<SpecToken>::empty(), odv.drop_last()),
                                ));
                                assert(output.deep_view() + Seq::<SpecToken>::empty()
                                    =~= output.deep_view());
                            }
                            return true;
                        }
                        _ => {
                            let ghost out_before = output.deep_view();
                            proof {
                                assert(!(odv.last() is LeftParen));
                            }
                            output.push(token);
                            proof {
                                assert(output.deep_view() =~= out_before.push(odv.last()));
                                assert(out_before.push(odv.last()) =~= out_before + seq![
                                    odv.last(),
                                ]);
                                match spec_tilt(odv.drop_last()) {
                                    None => {
                                        assert(spec_drain(odv) == seq![odv.last()] + spec_drain(
                                            odv.drop_last(),
                                        ));
                                        assert(out_before + spec_drain(odv) =~= output.deep_view()
                                            + spec_drain(odv.drop_last()));
                                    }
                                    Some((m_rec, r_rec)) => {
                                        assert(spec_tilt(odv) == Some(
                                            (seq![odv.last()] + m_rec, r_rec),
                                        ));
                                        assert(out_before + (seq![odv.last()] + m_rec)
                                            =~= output.deep_view() + m_rec);
                                    }
                                }
                            }
                        }
                    }
                }
            }
        }
    }

    /// Reorders an infix token sequence to postfix by the shunting-yard
    /// algorithm, or reports the unmatched parenthesis that prevents it.
    pub fn shunting_yard(tokens: Vec<Token>) -> (r: Result<Vec<Token>, ShuntError>)
        ensures
            ({
                let s = spec_shunting_yard(tokens.deep_view());
                match r {
                    Ok(out) => s == Ok::<Seq<SpecToken>, ShuntError>(out.deep_view()),
                    Err(e) => s == Err::<Seq<SpecToken>, ShuntError>(e),
                }
            }),
    {
        let ghost ts = tokens.deep_view();
        let mut output: Vec<Token> = Vec::new();
        let mut operators: Vec<Token> = Vec::new();
        let mut i: usize = 0;
        proof {
            assert(ts.take(0) =~= Seq::<SpecToken>::empty());
            assert(output.deep_view() =~= Seq::<SpecToken>::empty());
            assert(operators.deep_view() =~= Seq::<SpecToken>::empty());
        }
        while i < tokens.len()
            invariant
                i <= tokens.len(),
                ts == tokens.deep_view(),
                spec_shunt_fold(ts.take(i as int)) == Ok::<SpecShunt, ShuntError>(
                    SpecShunt { out: output.deep_view(), ops: operators.deep_view() },
                ),
            decreases tokens.len() - i,
        {
            proof {
                assert(ts.take(i as int + 1).drop_last() =~= ts.take(i as int));
                assert(ts.take(i as int + 1).last() == ts[i as int]);
            }
            let ghost st = SpecShunt { out: output.deep_view(), ops: operators.deep_view() };
            match &tokens[i] {
                Token::Number(lit) => {
                    output.push(Token::Number(lit.clone()));
                    proof {
                        assert(output.deep_view() =~= st.out.push(ts[i as int]));
                    }
                }
                Token::Variable(v) => {
                    output.push(Token::Variable(*v));
                    proof {
                        assert(output.deep_view() =~= st.out.push(ts[i as int]));
                    }
                }
                Token::LeftParen => {
                    operators.push(Token::LeftParen);
                    proof {
                        assert(operators.deep_view() =~= st.ops.push(ts[i as int]));
                    }
                }
                Token::Function(f) => {
                    operators.push(Token::Function(*f));
                    proof {
                        assert(operators.deep_view() =~= st.ops.push(ts[i as int]));
                    }
                }
                Token::Negate => {
                    operators.push(Token::Negate);
                    proof {
                        assert(operators.deep_view() =~= st.ops.push(ts[i as int]));
                    }
                }
                Token::RightParen => {
                    let found = Self::tilt_until(&mut operators, &mut output);
                    if !found {
                        proof {
                            assert(spec_shunt_fold(ts.take(i as int + 1)) == Err::<
                                SpecShunt,
                                ShuntError,
                            >(ShuntError::UnmatchedRightParen));
                            lemma_fold_err_prefix(ts, i as int + 1);
                        }
                        return Err(ShuntError::UnmatchedRightParen);
                    }
                }
                Token::Operator(op) => {
                    let q = *op;
                    let ghost ops0 = st.ops;
                    let ghost out0 = st.out;
                    proof {
                        assert(out0 + spec_pop_for(ops0, q).0 == output.deep_view() + spec_pop_for(
                            operators.deep_view(),
                            q,
                        ).0);
                    }
                    loop
                        invariant
                            ts == tokens.deep_view(),
                            out0 + spec_pop_for(ops0, q).0 == output.deep_view() + spec_pop_for(
                                operators.deep_view(),
                                q,
                            ).0,
                            spec_pop_for(ops0, q).1 == spec_pop_for(operators.deep_view(), q).1,
                        ensures
                            ts == tokens.deep_view(),
                            output.deep_view() == out0 + spec_pop_for(ops0, q).0,
                            operators.deep_view() == spec_pop_for(ops0, q).1,
                        decreases operators.len(),
                    {
                        let ghost odv = operators.deep_view();
                        let mut do_pop = false;
                        match top(&operators) {
                            None => {
                                proof {
                                    assert(spec_pop_for(odv, q) == (
                                        Seq::<SpecToken>::empty(),
                                        odv,
                                    ));
                                    assert(output.deep_view() + Seq::<SpecToken>::empty()
                                        =~= output.deep_view());
                                }
                                break;
                            }
                            Some(t) => {
                                proof {
                                    assert(odv.len() > 0);
                                    assert(odv.last() == t@);
                                }
                                match t {
                                    Token::Operator(p) => {
                                        if (p.is_left_associative && p.precedence >= q.precedence)
                                            || (!p.is_left_associative && p.precedence
                                            > q.precedence) {
                                            do_pop = true;
                                        }
                                    }
                                    _ => {}
                                }
                            }
                        }
                        if do_pop {
                            let ghost out_before = output.deep_view();
                            match operators.pop() {
                                None => {
                                    proof {
                                        assert(false);
                                    }
                                }
                                Some(popped) => {
                                    output.push(popped);
                                    proof {
                                        assert(operators.deep_view() =~= odv.drop_last());
                                        assert(output.deep_view() =~= out_before + seq![
                                            odv.last(),
                                        ]);
                                        let rec = spec_pop_for(odv.drop_last(), q);
                                        assert(spec_pop_for(odv, q) == (
                                            seq![odv.last()] + rec.0,
                                            rec.1,
                                        ));
                                        assert(out_before + (seq![odv.last()] + rec.0) =~= (
                                        out_before + seq![odv.last()]) + rec.0);
                                    }
                                }
                            }
                        } else {
                            proof {
                                assert(spec_pop_for(odv, q) == (Seq::<SpecToken>::empty(), odv));
                                assert(output.deep_view() + Seq::<SpecToken>::empty()
                                    =~= output.deep_view());
                            }
                            break;
                        }
                    }
                    operators.push(Token::Operator(q));
                    proof {
                        assert(operators.deep_view() =~= spec_pop_for(ops0, q).1.push(
                            ts[i as int],
                        ));
                    }
                }
            }
            i = i + 1;
        }
        proof {
            assert(ts.take(tokens.len() as int) =~= ts);
        }
        let found = Self::tilt_until(&mut operators, &mut output);
        if found {
            return Err(ShuntError::UnmatchedLeftParen);
        }
        Ok(output)
    }
}

/// A token the operator/marker stack may hold: an operator, a left
/// parenthesis, a function, or the negation marker.
pub open spec fn marker_token(t: SpecToken) -> bool {
    ||| t is Operator
    ||| t is LeftParen
    ||| t is Function
    ||| t is Negate
}

/// Every element of the operator/marker stack is a marker token.
pub open spec fn ops_wf(ops: Seq<SpecToken>) -> bool {
    forall|k: int| 0 <= k < ops.len() ==> marker_token(#[trigger] ops[k])
}

/// Every element of the output is free of parentheses.
pub open spec fn out_wf(out: Seq<SpecToken>) -> bool {
    forall|k: int| 0 <= k < out.len() ==> crate::calculate::postfix_token(#[trigger] out[k])
}

proof fn lemma_pop_for_wf(ops: Seq<SpecToken>, q: Operator)
    requires
        ops_wf(ops),
    ensures
        ops_wf(spec_pop_for(ops, q).1),
        forall|k: int|
            0 <= k < spec_pop_for(ops, q).0.len() ==> (#[trigger] spec_pop_for(ops, q).0[k])
                is Operator,
    decreases ops.len(),
{
    if ops.len() == 0 {
    } else {
        assert forall|k: int| 0 <= k < ops.drop_last().len() implies marker_token(
            #[trigger] ops.drop_last()[k],
        ) by {
            assert(ops.drop_last()[k] == ops[k]);
        }
        lemma_pop_for_wf(ops.drop_last(), q);
    }
}

proof fn lemma_tilt_wf(ops: Seq<SpecToken>)
    requires
        ops_wf(ops),
    ensures
        match spec_tilt(ops) {
            Some((moved, rest)) => ops_wf(rest) && out_wf(moved),
            None => true,
        },
    decreases ops.len(),
{
    if ops.len() == 0 {
    } else {
        assert forall|k: int| 0 <= k < ops.drop_last().len() implies marker_token(
            #[trigger] ops.drop_last()[k],
        ) by {
            assert(ops.drop_last()[k] == ops[k]);
        }
        lemma_tilt_wf(ops.drop_last());
    }
}

proof fn lemma_tilt_none_no_lp(ops: Seq<SpecToken>)
    requires
        spec_tilt(ops) is None,
    ensures
        forall|k: int| 0 <= k < ops.len() ==> !((#[trigger] ops[k]) is LeftParen),
    decreases ops.len(),
{
    if ops.len() == 0 {
    } else {
        lemma_tilt_none_no_lp(ops.drop_last());
        assert forall|k: int| 0 <= k < ops.len() implies !((#[trigger] ops[k]) is LeftParen) by {
            if k < ops.len() - 1 {
                assert(ops.drop_last()[k] == ops[k]);
            }
        }
    }
}

proof fn lemma_drain_wf(ops: Seq<SpecToken>)
    requires
        ops_wf(ops),
        forall|k: int| 0 <= k < ops.len() ==> !((#[trigger] ops[k]) is LeftParen),
    ensures
        out_wf(spec_drain(ops)),
    decreases ops.len(),
{
    if ops.len() == 0 {
    } else {
        assert forall|k: int| 0 <= k < ops.drop_last().len() implies marker_token(
            #[trigger] ops.drop_last()[k],
        ) && !(ops.drop_last()[k] is LeftParen) by {
            assert(ops.drop_last()[k] == ops[k]);
        }
        lemma_drain_wf(ops.drop_last());
    }
}

/// The internal invariant of the pass: the operator/marker stack holds only
/// operators, left parentheses, functions and negation markers, and nothing
/// it sends to the output is a parenthesis.
pub proof fn lemma_fold_wf(ts: Seq<SpecToken>)
    ensures
        match spec_shunt_fold(ts) {
            Ok(st) => out_wf(st.out) && ops_wf(st.ops),
            Err(_) => true,
        },
    decreases ts.len(),
{
    if ts.len() == 0 {
    } else {
        lemma_fold_wf(ts.drop_last());
        match spec_shunt_fold(ts.drop_last()) {
            Err(_) => {}
            Ok(st) => {
                match ts.last() {
                    SpecToken::Operator(q) => {
                        lemma_pop_for_wf(st.ops, q);
                    }
                    SpecToken::RightParen => {
                        lemma_tilt_wf(st.ops);
                    }
                    _ => {}
                }
            }
        }
    }
}

/// A successful reordering sends no parenthesis to the postfix output: the
/// postfix form is entirely within the reduction pass's domain.
pub proof fn lemma_postfix_no_parens(ts: Seq<SpecToken>)
    ensures
        match spec_shunting_yard(ts) {
            Ok(out) => out_wf(out),
            Err(_) => true,
        },
{
    lemma_fold_wf(ts);
    match spec_shunt_fold(ts) {
        Err(_) => {}
        Ok(st) => {
            if spec_tilt(st.ops) is None {
                lemma_tilt_none_no_lp(st.ops);
                lemma_drain_wf(st.ops);
            }
        }
    }
}

/// How many left parentheses a token sequence holds.
pub open spec fn lp_count(s: Seq<SpecToken>) -> nat
    decreases s.len(),
{
    if s.len() == 0 {
        0
    } else if s.last() is LeftParen {
        lp_count(s.drop_last()) + 1
    } else {
        lp_count(s.drop_last())
    }
}

/// How many right parentheses a token sequence holds.
pub open spec fn rp_count(s: Seq<SpecToken>) -> nat
    decreases s.len(),
{
    if s.len() == 0 {
        0
    } else if s.last() is RightParen {
        rp_count(s.drop_last()) + 1
    } else {
        rp_count(s.drop_last())
    }
}

/// No prefix closes more parentheses than were opened before it.
pub open spec fn prefixes_ok(ts: Seq<SpecToken>) -> bool {
    forall|i: int| 0 <= i <= ts.len() ==> rp_count(#[trigger] ts.take(i)) <= lp_count(ts.take(i))
}

/// The parentheses of a token sequence match: no prefix closes too early,
/// and every opened parenthesis is closed by the end.
pub open spec fn spec_balanced(ts: Seq<SpecToken>) -> bool {
    prefixes_ok(ts) && lp_count(ts) == rp_count(ts)
}

proof fn lemma_pop_for_lp(ops: Seq<SpecToken>, q: Operator)
    ensures
        lp_count(spec_pop_for(ops, q).1) == lp_count(ops),
    decreases ops.len(),
{
    if ops.len() == 0 {
    } else {
        lemma_pop_for_lp(ops.drop_last(), q);
    }
}

proof fn lemma_tilt_lp(ops: Seq<SpecToken>)
    ensures
        match spec_tilt(ops) {
            Some((moved, rest)) => lp_count(ops) >= 1 && lp_count(rest) + 1 == lp_count(ops),
            None => lp_count(ops) == 0,
        },
    decreases ops.len(),
{
    if ops.len() == 0 {
    } else if ops.last() is LeftParen {
    } else {
        lemma_tilt_lp(ops.drop_last());
    }
}

proof fn lemma_fold_parens(ts: Seq<SpecToken>)
    ensures
        match spec_shunt_fold(ts) {
            Ok(st) => prefixes_ok(ts) && lp_count(st.ops) + rp_count(ts) == lp_count(ts),
            Err(e) => e == ShuntError::UnmatchedRightParen && !prefixes_ok(ts),
        },
    decreases ts.len(),
{
    if ts.len() == 0 {
        assert forall|i: int| 0 <= i <= ts.len() implies rp_count(#[trigger] ts.take(i))
            <= lp_count(ts.take(i)) by {
            assert(ts.take(i).len() == 0);
        }
    } else {
        let dl = ts.drop_last();
        let t = ts.last();
        lemma_fold_parens(dl);
        assert forall|i: int| 0 <= i <= dl.len() implies ts.take(i) =~= dl.take(i) by {}
        assert(ts.take(ts.len() as int) =~= ts);
        assert(dl.take(dl.len() as int) =~= dl);
        match spec_shunt_fold(dl) {
            Err(_) => {
                assert(!prefixes_ok(dl));
                let i = choose|i: int|
                    0 <= i <= dl.len() && !(rp_count(#[trigger] dl.take(i)) <= lp_count(
                        dl.take(i),
                    ));
                assert(rp_count(ts.take(i)) > lp_count(ts.take(i)));
                assert(!prefixes_ok(ts));
            }
            Ok(st) => {
                assert(prefixes_ok(dl));
                assert(rp_count(dl) <= lp_count(dl));
                match t {
                    SpecToken::RightParen => {
                        lemma_tilt_lp(st.ops);
                        match spec_tilt(st.ops) {
                            Some((moved, rest)) => {
                                assert(rp_count(ts) <= lp_count(ts));
                                assert forall|i: int| 0 <= i <= ts.len() implies rp_count(
                                    #[trigger] ts.take(i),
                                ) <= lp_count(ts.take(i)) by {
                                    if i <= dl.len() {
                                        assert(ts.take(i) =~= dl.take(i));
                                    } else {
                                        assert(ts.take(i) =~= ts);
                                    }
                                }
                            }
                            None => {
                                assert(lp_count(st.ops) == 0);
                                assert(rp_count(ts) > lp_count(ts));
                                assert(!(rp_count(ts.take(ts.len() as int)) <= lp_count(
                                    ts.take(ts.len() as int),
                                )));
                                assert(!prefixes_ok(ts));
                            }
                        }
                    }
                    SpecToken::Operator(q) => {
                        lemma_pop_for_lp(st.ops, q);
                        let rest = spec_pop_for(st.ops, q).1;
                        assert((rest.push(t)).drop_last() =~= rest);
                        assert((rest.push(t)).last() == t);
                        assert forall|i: int| 0 <= i <= ts.len() implies rp_count(
                            #[trigger] ts.take(i),
                        ) <= lp_count(ts.take(i)) by {
                            if i <= dl.len() {
                                assert(ts.take(i) =~= dl.take(i));
                            } else {
                                assert(ts.take(i) =~= ts);
                            }
                        }
                    }
                    _ => {
                        assert((st.ops.push(t)).drop_last() =~= st.ops);
                        assert((st.ops.push(t)).last() == t);
                        assert((st.out.push(t)).drop_last() =~= st.out);
                        assert forall|i: int| 0 <= i <= ts.len() implies rp_count(
                            #[trigger] ts.take(i),
                        ) <= lp_count(ts.take(i)) by {
                            if i <= dl.len() {
                                assert(ts.take(i) =~= dl.take(i));
                            } else {
                                assert(ts.take(i) =~= ts);
                            }
                        }
                    }
                }
            }
        }
    }
}

/// A reordering pass succeeds exactly on the token sequences whose
/// parentheses match; with a prefix that closes an unopened parenthesis it
/// fails naming the right one, and with an unclosed parenthesis at the end it
/// fails naming the left one. No input with a mismatch reaches a result.
pub proof fn lemma_mismatch_detected(ts: Seq<SpecToken>)
    ensures
        spec_shunting_yard(ts) is Ok <==> spec_balanced(ts),
        spec_shunting_yard(ts) == Err::<Seq<SpecToken>, ShuntError>(
            ShuntError::UnmatchedRightParen,
        ) <==> !prefixes_ok(ts),
        spec_shunting_yard(ts) == Err::<Seq<SpecToken>, ShuntError>(
            ShuntError::UnmatchedLeftParen,
        ) <==> prefixes_ok(ts) && rp_count(ts) < lp_count(ts),
{
    lemma_fold_parens(ts);
    match spec_shunt_fold(ts) {
        Err(_) => {}
        Ok(st) => {
            lemma_tilt_lp(st.ops);
        }
    }
}

} // verus!
