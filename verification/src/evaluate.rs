use vstd::prelude::*;

use crate::calculate::SpecExpr;
use crate::calculate::Expr;
use crate::calculate::spec_calculate;
use crate::shunting::lemma_postfix_no_parens;
use crate::shunting::spec_shunting_yard;
use crate::tokenize::Parser;
use crate::tokenize::spec_tokenize;

verus! {

/// The whole pipeline on a stripped input: scan to tokens, reorder to
/// postfix, reduce to the expression tree; any failure along the way
/// collapses to an absent result.
pub open spec fn spec_evaluate(s: Seq<char>) -> Option<SpecExpr> {
    match spec_tokenize(s) {
        None => None,
        Some(ts) => match spec_shunting_yard(ts) {
            Err(_) => None,
            Ok(post) => match spec_calculate(post) {
                Err(_) => None,
                Ok(e) => Some(e),
            },
        },
    }
}

impl Parser {
    /// Runs the whole pipeline on the stored input: the expression the text
    /// denotes, or `None` when the text does not scan, its parentheses do not
    /// match, or the postfix reduction fails.
    pub fn evaluate(&self) -> (r: Option<Expr>)
        ensures
            r.deep_view() == spec_evaluate(self@),
    {
        match self.tokens() {
            None => None,
            Some(ts) => {
                proof {
                    lemma_postfix_no_parens(ts.deep_view());
                }
                match Self::shunting_yard(ts) {
                    Err(_) => None,
                    Ok(post) => match Self::calculate(post) {
                        Err(_) => None,
                        Ok(e) => Some(e),
                    },
                }
            }
        }
    }
}

/// Evaluation is a function of the input text alone: two runs over the same
/// text agree on their result, present or absent.
pub proof fn lemma_evaluate_deterministic(
    s: Seq<char>,
    r1: Option<SpecExpr>,
    r2: Option<SpecExpr>,
)
    requires
        r1 == spec_evaluate(s),
        r2 == spec_evaluate(s),
    ensures
        r1 == r2,
{
}

} // verus!
