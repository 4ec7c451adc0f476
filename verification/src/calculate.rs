//! The expression evaluator core: a shunting-yard parser from infix text
//! to postfix tokens, and the stack-discipline validator of the postfix
//! evaluator.  Each function is proved to return exactly what the model in
//! [`crate::model`] says.

use vstd::prelude::*;

use crate::model::{
    digit_run_len, drain, finish, lemma_digit_run_le, pop_ge, pop_to_lp, rpn_scan, spec_parse,
    spec_validate, strip_ws, sy_from,
};
use crate::tokens::{
    char_is_ascii_digit, char_is_whitespace, char_to_oper, is_digit_char, oper_precedence, prec,
    toks_view, Oper, ProcessingError, SpecTok, Token,
};
use vstd::string::StrSliceExecFns;

verus! {

/// The digit run starting at `start` reaches exactly to `j`, the first
/// position past it that holds no digit.
pub proof fn lemma_digit_run_from(cs: Seq<char>, start: int, j: int)
    requires
        0 <= start <= j <= cs.len(),
        forall|k: int| start <= k < j ==> is_digit_char(cs[k]),
        j == cs.len() || !is_digit_char(cs[j]),
    ensures
        digit_run_len(cs.skip(start)) == j - start,
    decreases j - start,
{
    if start < j {
        assert(cs.skip(start)[0] == cs[start]);
        assert(cs.skip(start).drop_first() =~= cs.skip(start + 1));
        lemma_digit_run_from(cs, start + 1, j);
    } else {
        if start < cs.len() {
            assert(cs.skip(start)[0] == cs[start]);
        }
    }
}

/// Mapping a pushed sequence is pushing the mapped sequence.
pub proof fn lemma_toks_view_push(v: Seq<Token>, t: Token)
    ensures
        toks_view(v.push(t)) == toks_view(v).push(t@),
{
    assert(toks_view(v.push(t)) =~= toks_view(v).push(t@));
}

/// Mapping commutes with dropping the last element.
pub proof fn lemma_toks_view_drop_last(v: Seq<Token>)
    requires
        v.len() > 0,
    ensures
        toks_view(v.drop_last()) == toks_view(v).drop_last(),
{
    assert(toks_view(v.drop_last()) =~= toks_view(v).drop_last());
}

/// What a parse result means: the view of the token sequence on success,
/// the error itself on failure.
pub open spec fn parse_result(r: Result<Vec<Token>, ProcessingError>) -> Result<
    Seq<SpecTok>,
    ProcessingError,
> {
    match r {
        Ok(v) => Ok(toks_view(v@)),
        Err(e) => Err(e),
    }
}

/// Evaluation is repeatable: the parse of a string is a function of the
/// string alone, so two calls on the same input mean the same result —
/// no hidden state survives a call.  The same holds of validation, whose
/// result is a function of its token sequence alone.
pub proof fn lemma_parse_repeatable(
    input: Seq<char>,
    r1: Result<Vec<Token>, ProcessingError>,
    r2: Result<Vec<Token>, ProcessingError>,
)
    requires
        parse_result(r1) == spec_parse(input),
        parse_result(r2) == spec_parse(input),
    ensures
        parse_result(r1) == parse_result(r2),
{
}

/// The arithmetic-expression evaluator.  It is stateless between calls:
/// the only configuration is the fixed operator-precedence table, embodied
/// by [`oper_precedence`].
pub struct Calculator {}

impl Calculator {
    /// A fresh calculator.
    pub fn new() -> Calculator {
        Calculator {}
    }

    /// Parse an infix expression string into its postfix token sequence by
    /// the shunting-yard algorithm, or report the first error of the scan.
    /// The result is exactly what [`spec_parse`] says of the input.
    pub fn parse_input(&self, input: &str) -> (r: Result<Vec<Token>, ProcessingError>)
        ensures
            parse_result(r) == spec_parse(input@),
    {
        let ghost s = input@;
        // Strip all whitespace before tokenizing; it is never significant.
        let n = input.unicode_len();
        let mut cleaned: Vec<char> = Vec::new();
        let mut i: usize = 0;
        proof {
            assert(s.skip(0) =~= s);
            assert(Seq::<char>::empty() + strip_ws(s) =~= strip_ws(s));
        }
        while i < n
            invariant
                n == s.len(),
                s == input@,
                i <= n,
                strip_ws(s) == cleaned@ + strip_ws(s.skip(i as int)),
            decreases n - i,
        {
            let c = input.get_char(i);
            proof {
                assert(s.skip(i as int)[0] == s[i as int]);
                assert(s.skip(i as int).drop_first() =~= s.skip(i as int + 1));
            }
            if !char_is_whitespace(c) {
                let ghost pre = cleaned@;
                cleaned.push(c);
                proof {
                    assert(cleaned@ + strip_ws(s.skip(i as int + 1)) =~= pre + (seq![c] + strip_ws(
                        s.skip(i as int + 1),
                    )));
                }
            }
            i += 1;
        }
        proof {
            assert(s.skip(n as int) =~= Seq::<char>::empty());
            assert(cleaned@ + strip_ws(s.skip(n as int)) =~= cleaned@);
        }
        let ghost cs = cleaned@;
        let mut output: Vec<Token> = Vec::new();
        let mut operators: Vec<Token> = Vec::new();
        let mut index: usize = 0;
        proof {
            assert(toks_view(Seq::<Token>::empty()) =~= Seq::<SpecTok>::empty());
        }
        while index < cleaned.len()
            invariant
                cs == cleaned@,
                index <= cs.len(),
                spec_parse(input@) == sy_from(
                    cs,
                    index as int,
                    toks_view(operators@),
                    toks_view(output@),
                ),
            decreases cs.len() - index,
        {
            let current_token = cleaned[index];
            let ghost ii = index as int;
            if char_is_ascii_digit(current_token) {
                proof {
                    assert(cs.skip(ii)[0] == cs[ii]);
                }
                let (new_index, num_s) = Self::handle_parsing_digits(index, &cleaned);
                proof {
                    lemma_digit_run_le(cs.skip(ii));
                    lemma_toks_view_push(output@, Token::Number(num_s));
                }
                output.push(Token::Number(num_s));
                index = new_index;
            } else if let Some(o) = char_to_oper(current_token) {
                self.handle_parsing_operators(o, &mut operators, &mut output);
                proof {
                    lemma_toks_view_push(operators@, Token::Operator(o));
                }
                operators.push(Token::Operator(o));
            } else if current_token == '(' {
                proof {
                    lemma_toks_view_push(operators@, Token::OpenParen);
                }
                operators.push(Token::OpenParen);
            } else if current_token == ')' {
                match Self::handle_parsing_closing_parenthesis(&mut operators, &mut output, index) {
                    Ok(_) => {},
                    Err(e) => {
                        return Err(e);
                    },
                }
            } else {
                return Err(ProcessingError::SyntaxError(current_token, index));
            }
            index += 1;
        }
        // Pop every remaining stack entry into the output; a leftover
        // opening parenthesis was never matched.
        while operators.len() > 0
            invariant
                spec_parse(input@) == finish(toks_view(operators@), toks_view(output@)),
            decreases operators.len(),
        {
            let ghost pre_ops = operators@;
            let ghost pre_out = output@;
            let op = operators.pop().unwrap();
            proof {
                lemma_toks_view_drop_last(pre_ops);
                assert(op@ == toks_view(pre_ops).last());
                lemma_toks_view_push(pre_out, op);
            }
            match op {
                Token::OpenParen => {
                    return Err(ProcessingError::OpenParenthesesError);
                },
                _ => {
                    output.push(op);
                },
            }
        }
        Ok(output)
    }

    /// Greedily consume the run of consecutive ASCII digits that starts at
    /// `current_index`, as one number literal.  Returns the index of the
    /// last digit of the run and the run's text.
    pub fn handle_parsing_digits(current_index: usize, tokens: &Vec<char>) -> (r: (usize, String))
        requires
            current_index < tokens@.len(),
            is_digit_char(tokens@[current_index as int]),
        ensures
            ({
                let run = digit_run_len(tokens@.skip(current_index as int)) as int;
                &&& r.0 == current_index + run - 1
                &&& r.1@ == tokens@.subrange(current_index as int, current_index as int + run)
            }),
    {
        let ghost cs = tokens@;
        let ghost start = current_index as int;
        let len = tokens.len();
        let mut num_s = String::new();
        num_s.push(tokens[current_index]);
        proof {
            assert(num_s@ =~= cs.subrange(start, start + 1));
        }
        let mut j: usize = current_index + 1;
        while j < len && char_is_ascii_digit(tokens[j])
            invariant
                cs == tokens@,
                len == cs.len(),
                start == current_index as int,
                0 <= start < j as int <= cs.len(),
                num_s@ == cs.subrange(start, j as int),
                forall|k: int| start <= k < j as int ==> is_digit_char(cs[k]),
            decreases cs.len() - j,
        {
            num_s.push(tokens[j]);
            proof {
                assert(cs.subrange(start, j as int).push(cs[j as int]) =~= cs.subrange(
                    start,
                    j as int + 1,
                ));
            }
            j += 1;
        }
        proof {
            lemma_digit_run_from(cs, start, j as int);
        }
        (j - 1, num_s)
    }

    /// Whether the stack's top entry is an operator of precedence at least
    /// `p`, the condition under which an arriving operator pops it.
    fn top_pops(operators: &Vec<Token>, p: u8) -> (r: bool)
        ensures
            r == (toks_view(operators@).len() > 0 && (toks_view(operators@).last()
                matches SpecTok::Op(o) && prec(o) >= p as int)),
    {
        if operators.len() == 0 {
            return false;
        }
        match &operators[operators.len() - 1] {
            Token::Operator(o) => oper_precedence(*o) >= p,
            _ => false,
        }
    }

    /// Before a new operator goes onto the stack, pop and emit every
    /// operator on top of the stack whose precedence is at least the new
    /// one's, stopping at an opening parenthesis.  Popping on equal
    /// precedence is what makes the operators left-associative.
    pub fn handle_parsing_operators(
        &self,
        current_token: Oper,
        operators: &mut Vec<Token>,
        output: &mut Vec<Token>,
    )
        ensures
            ({
                let popped = pop_ge(toks_view(old(operators)@), prec(current_token));
                &&& toks_view(final(operators)@) == popped.1
                &&& toks_view(final(output)@) == toks_view(old(output)@) + popped.0
            }),
    {
        let ghost st0 = toks_view(operators@);
        let ghost out0 = toks_view(output@);
        let ghost goal = pop_ge(st0, prec(current_token));
        let p = oper_precedence(current_token);
        while Self::top_pops(operators, p)
            invariant
                p as int == prec(current_token),
                goal == pop_ge(st0, prec(current_token)),
                ({
                    let cur = pop_ge(toks_view(operators@), prec(current_token));
                    &&& goal.1 == cur.1
                    &&& out0 + goal.0 == toks_view(output@) + cur.0
                }),
            decreases operators.len(),
        {
            let ghost pre_ops = operators@;
            let ghost pre_out = output@;
            let op = operators.pop().unwrap();
            output.push(op);
            proof {
                lemma_toks_view_drop_last(pre_ops);
                lemma_toks_view_push(pre_out, op);
                let cur_pre = pop_ge(toks_view(pre_ops), prec(current_token));
                let cur_now = pop_ge(toks_view(operators@), prec(current_token));
                assert(cur_pre.0 =~= seq![toks_view(pre_ops).last()] + cur_now.0);
                assert(toks_view(pre_out) + cur_pre.0 =~= toks_view(output@) + cur_now.0);
            }
        }
        proof {
            let cur = pop_ge(toks_view(operators@), prec(current_token));
            assert(cur.0 =~= Seq::<SpecTok>::empty());
            assert(toks_view(output@) + Seq::<SpecTok>::empty() =~= toks_view(output@));
        }
    }

    /// Whether the stack still has entries to pop before an opening
    /// parenthesis is reached.
    fn top_not_lp(operators: &Vec<Token>) -> (r: bool)
        ensures
            r == (operators@.len() > 0 && !(operators@.last()@ is LParen)),
    {
        if operators.len() == 0 {
            return false;
        }
        match &operators[operators.len() - 1] {
            Token::OpenParen => false,
            _ => true,
        }
    }

    /// A closing parenthesis pops operators into the output until the
    /// matching opening parenthesis is found and discarded.  If the stack
    /// runs out first, the closer at cursor position `index` has no match
    /// and the parse fails.
    pub fn handle_parsing_closing_parenthesis(
        operators: &mut Vec<Token>,
        output: &mut Vec<Token>,
        index: usize,
    ) -> (r: Result<(), ProcessingError>)
        ensures
            ({
                let st0 = toks_view(old(operators)@);
                let out0 = toks_view(old(output)@);
                match pop_to_lp(st0) {
                    Some(popped) => {
                        &&& r is Ok
                        &&& toks_view(final(operators)@) == popped.1
                        &&& toks_view(final(output)@) == out0 + popped.0
                    },
                    None => {
                        &&& r == Err::<(), ProcessingError>(
                            ProcessingError::CloseParenthesesError(index),
                        )
                        &&& final(operators)@.len() == 0
                        &&& toks_view(final(output)@) == drain(st0, out0)
                    },
                }
            }),
    {
        let ghost st0 = toks_view(operators@);
        let ghost out0 = toks_view(output@);
        while Self::top_not_lp(operators)
            invariant
                pop_to_lp(st0) is Some <==> pop_to_lp(toks_view(operators@)) is Some,
                (pop_to_lp(st0) matches Some(a) ==> pop_to_lp(toks_view(operators@))
                    matches Some(b) && a.1 == b.1 && out0 + a.0 == toks_view(output@) + b.0),
                drain(st0, out0) == drain(toks_view(operators@), toks_view(output@)),
            decreases operators.len(),
        {
            let ghost pre_ops = operators@;
            let ghost pre_out = output@;
            let op = operators.pop().unwrap();
            output.push(op);
            proof {
                lemma_toks_view_drop_last(pre_ops);
                lemma_toks_view_push(pre_out, op);
                if pop_to_lp(toks_view(pre_ops)) is Some {
                    let a0 = pop_to_lp(toks_view(pre_ops))->Some_0;
                    let b0 = pop_to_lp(toks_view(operators@))->Some_0;
                    assert(a0.0 =~= seq![toks_view(pre_ops).last()] + b0.0);
                    assert(toks_view(pre_out) + a0.0 =~= toks_view(output@) + b0.0);
                }
            }
        }
        if operators.len() == 0 {
            Err(ProcessingError::CloseParenthesesError(index))
        } else {
            let ghost pre_ops = operators@;
            let _ = operators.pop();
            proof {
                lemma_toks_view_drop_last(pre_ops);
                let a = pop_to_lp(st0)->Some_0;
                let b = pop_to_lp(toks_view(pre_ops))->Some_0;
                assert(b.0 =~= Seq::<SpecTok>::empty());
                assert(toks_view(output@) + Seq::<SpecTok>::empty() =~= toks_view(output@));
            }
            Ok(())
        }
    }

    /// Replay the stack discipline of the postfix evaluator over `tokens`:
    /// `Ok` exactly when the sequence folds to a single value, and
    /// otherwise the error the evaluator stops with, as [`spec_validate`]
    /// says.
    pub fn validate_rpn(&self, tokens: &Vec<Token>) -> (r: Result<(), ProcessingError>)
        ensures
            r == spec_validate(toks_view(tokens@)),
    {
        let ghost ts = toks_view(tokens@);
        if tokens.len() == 0 {
            return Err(ProcessingError::NoInputError);
        }
        let mut depth: usize = 0;
        let mut index: usize = 0;
        proof {
            assert(ts.skip(0) =~= ts);
        }
        while index < tokens.len()
            invariant
                ts == toks_view(tokens@),
                index <= tokens@.len(),
                depth <= index,
                rpn_scan(ts, 0) == rpn_scan(ts.skip(index as int), depth as int),
            decreases tokens@.len() - index,
        {
            proof {
                assert(ts.skip(index as int)[0] == ts[index as int]);
                assert(ts.skip(index as int).drop_first() =~= ts.skip(index as int + 1));
            }
            match &tokens[index] {
                Token::Number(_) => {
                    depth += 1;
                },
                Token::Operator(_) => {
                    if depth < 2 {
                        return Err(ProcessingError::ArgumentsError);
                    }
                    depth -= 1;
                },
                _ => {},
            }
            index += 1;
        }
        proof {
            assert(ts.skip(ts.len() as int) =~= Seq::<SpecTok>::empty());
        }
        if depth == 1 {
            Ok(())
        } else {
            Err(ProcessingError::OperatorError)
        }
    }
}

} // verus!
