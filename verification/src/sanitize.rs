use vstd::prelude::*;

use crate::tokenize::is_digit_char;
use crate::tokenize::to_chars;

verus! {

/// An ASCII letter or digit.
pub open spec fn is_alnum_char(c: char) -> bool {
    ||| (48 <= c as u32 && c as u32 <= 57)
    ||| (65 <= c as u32 && c as u32 <= 90)
    ||| (97 <= c as u32 && c as u32 <= 122)
}

fn is_alnum(c: char) -> (r: bool)
    ensures
        r == is_alnum_char(c),
{
    let u = c as u32;
    (48 <= u && u <= 57) || (65 <= u && u <= 90) || (97 <= u && u <= 122)
}

fn is_digit(c: char) -> (r: bool)
    ensures
        r == is_digit_char(c),
{
    let u = c as u32;
    48 <= u && u <= 57
}

/// The text from position `i` on, with `prev` the character before it: a
/// multiplication sign goes in front of any letter or digit that directly
/// follows a digit or a closing parenthesis.
pub open spec fn spec_sanitize_from(s: Seq<char>, i: int, prev: char) -> Seq<char>
    decreases s.len() - i,
{
    if i < 0 || i >= s.len() {
        Seq::empty()
    } else {
        let c = s[i];
        let emitted = if is_alnum_char(c) && i > 0 && (is_digit_char(prev) || prev == ')') {
            seq!['*', c]
        } else {
            seq![c]
        };
        emitted + spec_sanitize_from(s, i + 1, c)
    }
}

/// The whole text made explicit about adjacency: a multiplication sign
/// inserted before every letter or digit that directly follows a digit or a
/// closing parenthesis.
pub open spec fn spec_sanitize(s: Seq<char>) -> Seq<char> {
    spec_sanitize_from(s, 0, ' ')
}

/// Making implicit multiplication explicit in a text.
pub trait Sanitize: View<V = Seq<char>> {
    /// The text with a multiplication sign inserted wherever a letter or
    /// digit directly follows a digit or a closing parenthesis.
    fn sanitize(&self) -> (r: Vec<char>)
        ensures
            r@ == spec_sanitize(self@),
    ;
}

impl Sanitize for String {
    fn sanitize(&self) -> (r: Vec<char>) {
        let cs = to_chars(self.as_str());
        let mut out: Vec<char> = Vec::new();
        let mut prev: char = ' ';
        let mut i: usize = 0;
        while i < cs.len()
            invariant
                i <= cs.len(),
                cs@ == self@,
                i == 0 ==> prev == ' ',
                i > 0 ==> prev == cs@[i - 1],
                spec_sanitize(self@) == out@ + spec_sanitize_from(cs@, i as int, prev),
            decreases cs.len() - i,
        {
            let c = cs[i];
            let ghost out_before = out@;
            if is_alnum(c) && i > 0 && (is_digit(prev) || prev == ')') {
                out.push('*');
                out.push(c);
                proof {
                    assert(out@ =~= out_before + seq!['*', c]);
                }
            } else {
                out.push(c);
                proof {
                    assert(out@ =~= out_before + seq![c]);
                }
            }
            prev = c;
            i = i + 1;
        }
        proof {
            assert(out@ + spec_sanitize_from(cs@, i as int, prev) =~= out@);
        }
        out
    }
}

} // verus!
