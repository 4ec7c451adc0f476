//! Mathematical model of the parser and the RPN validator.
//!
//! The model follows the two passes of the evaluator: [`strip_ws`] and
//! [`tokenize`] turn the input characters into tokens, [`sy_toks`] runs the
//! shunting-yard conversion over them, and [`rpn_scan`] replays the stack
//! discipline of the postfix evaluator.  [`spec_parse`] and
//! [`spec_validate`] are the results the executable functions are proved
//! equal to.

use vstd::prelude::*;

use crate::tokens::{is_digit_char, is_ws_char, oper_of_char, prec, ProcessingError, SpecTok};

verus! {

/// The input with every whitespace character removed.
pub open spec fn strip_ws(s: Seq<char>) -> Seq<char>
    decreases s.len(),
{
    if s.len() == 0 {
        Seq::empty()
    } else if is_ws_char(s[0]) {
        strip_ws(s.drop_first())
    } else {
        seq![s[0]] + strip_ws(s.drop_first())
    }
}

/// Length of the maximal run of ASCII digits at the front of `cs`.
pub open spec fn digit_run_len(cs: Seq<char>) -> nat
    decreases cs.len(),
{
    if cs.len() == 0 || !is_digit_char(cs[0]) {
        0
    } else {
        1 + digit_run_len(cs.drop_first())
    }
}

/// A digit run is never longer than the sequence it starts.
pub proof fn lemma_digit_run_le(cs: Seq<char>)
    ensures
        digit_run_len(cs) <= cs.len(),
    decreases cs.len(),
{
    if cs.len() != 0 && is_digit_char(cs[0]) {
        lemma_digit_run_le(cs.drop_first());
    }
}

/// The tokens of `cs`, a whitespace-free character sequence whose first
/// character sits at cursor position `p`: maximal digit runs become number
/// tokens, operators and parentheses single tokens, and the first character
/// of any other kind is the reported syntax error.
pub open spec fn tokenize(cs: Seq<char>, p: int) -> Result<Seq<SpecTok>, (char, int)>
    decreases cs.len(),
    via tokenize_decreases
{
    if cs.len() == 0 {
        Ok(Seq::empty())
    } else {
        let c = cs[0];
        if is_digit_char(c) {
            let n = digit_run_len(cs) as int;
            match tokenize(cs.skip(n), p + n) {
                Ok(ts) => Ok(seq![SpecTok::Num(cs.take(n))] + ts),
                Err(e) => Err(e),
            }
        } else if oper_of_char(c) is Some {
            match tokenize(cs.drop_first(), p + 1) {
                Ok(ts) => Ok(seq![SpecTok::Op(oper_of_char(c)->0)] + ts),
                Err(e) => Err(e),
            }
        } else if c == '(' {
            match tokenize(cs.drop_first(), p + 1) {
                Ok(ts) => Ok(seq![SpecTok::LParen] + ts),
                Err(e) => Err(e),
            }
        } else if c == ')' {
            match tokenize(cs.drop_first(), p + 1) {
                Ok(ts) => Ok(seq![SpecTok::RParen(p)] + ts),
                Err(e) => Err(e),
            }
        } else {
            Err((c, p))
        }
    }
}

#[via_fn]
proof fn tokenize_decreases(cs: Seq<char>, p: int) {
    lemma_digit_run_le(cs);
}

/// Operators popped off the stack when an operator of precedence `p`
/// arrives: every operator on top whose precedence is at least `p`, in pop
/// order, together with what remains of the stack.  The pops stop at an
/// opening parenthesis.
pub open spec fn pop_ge(st: Seq<SpecTok>, p: int) -> (Seq<SpecTok>, Seq<SpecTok>)
    decreases st.len(),
{
    if st.len() > 0 && (st.last() matches SpecTok::Op(o) && prec(o) >= p) {
        let (em, rest) = pop_ge(st.drop_last(), p);
        (seq![st.last()] + em, rest)
    } else {
        (Seq::empty(), st)
    }
}

/// Stack entries popped by a closing parenthesis: everything above the
/// topmost opening parenthesis, in pop order, and the stack below it with
/// the parenthesis itself discarded.  `None` when no opener is on the
/// stack.
pub open spec fn pop_to_lp(st: Seq<SpecTok>) -> Option<(Seq<SpecTok>, Seq<SpecTok>)>
    decreases st.len(),
{
    if st.len() == 0 {
        None
    } else if st.last() is LParen {
        Some((Seq::empty(), st.drop_last()))
    } else {
        match pop_to_lp(st.drop_last()) {
            None => None,
            Some((em, rest)) => Some((seq![st.last()] + em, rest)),
        }
    }
}

/// The whole stack drained onto the output, top first.
pub open spec fn drain(st: Seq<SpecTok>, out: Seq<SpecTok>) -> Seq<SpecTok>
    decreases st.len(),
{
    if st.len() == 0 {
        out
    } else {
        drain(st.drop_last(), out.push(st.last()))
    }
}

/// End of input: the remaining stack entries are popped onto the output;
/// an opening parenthesis still on the stack is unmatched and an error.
pub open spec fn finish(st: Seq<SpecTok>, out: Seq<SpecTok>) -> Result<
    Seq<SpecTok>,
    ProcessingError,
>
    decreases st.len(),
{
    if st.len() == 0 {
        Ok(out)
    } else if st.last() is LParen {
        Err(ProcessingError::OpenParenthesesError)
    } else {
        finish(st.drop_last(), out.push(st.last()))
    }
}

/// One shunting-yard step per token, starting from operator stack `st` and
/// output queue `out`: numbers go to the output, an operator first pops
/// every operator of precedence at least its own, an opening parenthesis is
/// pushed, a closing one pops down to its opener or fails with the
/// position it was read at.
pub open spec fn sy_toks(ts: Seq<SpecTok>, st: Seq<SpecTok>, out: Seq<SpecTok>) -> Result<
    Seq<SpecTok>,
    ProcessingError,
>
    decreases ts.len(),
{
    if ts.len() == 0 {
        finish(st, out)
    } else {
        match ts[0] {
            SpecTok::Num(s) => sy_toks(ts.drop_first(), st, out.push(SpecTok::Num(s))),
            SpecTok::Op(o) => {
                let (em, rest) = pop_ge(st, prec(o));
                sy_toks(ts.drop_first(), rest.push(SpecTok::Op(o)), out + em)
            },
            SpecTok::LParen => sy_toks(ts.drop_first(), st.push(SpecTok::LParen), out),
            SpecTok::RParen(p) => match pop_to_lp(st) {
                None => Err(ProcessingError::CloseParenthesesError(p as usize)),
                Some((em, rest)) => sy_toks(ts.drop_first(), rest, out + em),
            },
        }
    }
}

/// The character-by-character scan of the parser from cursor position `i`
/// of the whitespace-free input `cs`, with operator stack `st` and output
/// queue `out` built so far: a digit run becomes one number token, an
/// operator first pops by precedence, parentheses open and close groups,
/// and any other character fails the scan right there.  The executable
/// loop keeps `sy_from` of its state constant.
pub open spec fn sy_from(cs: Seq<char>, i: int, st: Seq<SpecTok>, out: Seq<SpecTok>) -> Result<
    Seq<SpecTok>,
    ProcessingError,
>
    decreases cs.len() - i,
    via sy_from_decreases
{
    if i < 0 || i >= cs.len() {
        finish(st, out)
    } else {
        let c = cs[i];
        if is_digit_char(c) {
            let n = digit_run_len(cs.skip(i)) as int;
            sy_from(cs, i + n, st, out.push(SpecTok::Num(cs.subrange(i, i + n))))
        } else if oper_of_char(c) is Some {
            let o = oper_of_char(c)->0;
            let popped = pop_ge(st, prec(o));
            sy_from(cs, i + 1, popped.1.push(SpecTok::Op(o)), out + popped.0)
        } else if c == '(' {
            sy_from(cs, i + 1, st.push(SpecTok::LParen), out)
        } else if c == ')' {
            match pop_to_lp(st) {
                None => Err(ProcessingError::CloseParenthesesError(i as usize)),
                Some(popped) => sy_from(cs, i + 1, popped.1, out + popped.0),
            }
        } else {
            Err(ProcessingError::SyntaxError(c, i as usize))
        }
    }
}

#[via_fn]
proof fn sy_from_decreases(cs: Seq<char>, i: int, st: Seq<SpecTok>, out: Seq<SpecTok>) {
    if 0 <= i < cs.len() {
        lemma_digit_run_le(cs.skip(i));
        if is_digit_char(cs[i]) {
            assert(cs.skip(i)[0] == cs[i]);
            assert(digit_run_len(cs.skip(i)) >= 1);
        }
    }
}

/// What parsing an expression string returns: the postfix token sequence
/// of the whitespace-stripped input, or the first error the left-to-right
/// scan runs into.
pub open spec fn spec_parse(s: Seq<char>) -> Result<Seq<SpecTok>, ProcessingError> {
    sy_from(strip_ws(s), 0, Seq::empty(), Seq::empty())
}

/// Stack depth of the postfix evaluator after scanning `ts`, starting from
/// `depth` pending values: a number pushes a value, an operator needs two
/// and leaves one.  Parenthesis tokens never reach the evaluator; it scans
/// past them unchanged.
pub open spec fn rpn_scan(ts: Seq<SpecTok>, depth: int) -> Result<int, ProcessingError>
    decreases ts.len(),
{
    if ts.len() == 0 {
        Ok(depth)
    } else {
        match ts[0] {
            SpecTok::Num(_) => rpn_scan(ts.drop_first(), depth + 1),
            SpecTok::Op(_) => if depth < 2 {
                Err(ProcessingError::ArgumentsError)
            } else {
                rpn_scan(ts.drop_first(), depth - 1)
            },
            _ => rpn_scan(ts.drop_first(), depth),
        }
    }
}

/// Whether a postfix token sequence evaluates to exactly one value: an
/// empty sequence is no input at all, an operator short of operands is an
/// argument error, and a scan that ends with more or fewer than one value
/// on the stack has too few or too many operators.
pub open spec fn spec_validate(ts: Seq<SpecTok>) -> Result<(), ProcessingError> {
    if ts.len() == 0 {
        Err(ProcessingError::NoInputError)
    } else {
        match rpn_scan(ts, 0) {
            Err(e) => Err(e),
            Ok(d) => if d == 1 {
                Ok(())
            } else {
                Err(ProcessingError::OperatorError)
            },
        }
    }
}

} // verus!
