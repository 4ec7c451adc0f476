//! The grammar of well-formed arithmetic expressions and the proof that
//! the shunting-yard conversion is correct on them: parsing never fails
//! and yields exactly the postorder of the expression tree, which the
//! postfix evaluator rebuilds.

use vstd::prelude::*;

use crate::model::{
    digit_run_len, finish, lemma_digit_run_le, pop_ge, pop_to_lp, rpn_scan, spec_parse,
    spec_validate, strip_ws, sy_from, sy_toks, tokenize,
};
use crate::calculate::parse_result;
use crate::tokens::{is_digit_char, oper_of_char, prec, toks_view, Oper, ProcessingError, SpecTok, Token};

verus! {

/// An arithmetic expression tree: a number literal, or a binary operator
/// applied to two subexpressions.
pub enum Expr {
    Num(Seq<char>),
    Bin(Oper, Box<Expr>, Box<Expr>),
}

/// The postfix (Reverse Polish) form of an expression: both operands,
/// then the operator.
pub open spec fn postorder(e: Expr) -> Seq<SpecTok>
    decreases e,
{
    match e {
        Expr::Num(s) => seq![SpecTok::Num(s)],
        Expr::Bin(o, l, r) => postorder(*l) + postorder(*r) + seq![SpecTok::Op(o)],
    }
}

/// A postfix form is never empty.
pub proof fn lemma_postorder_len(e: Expr)
    ensures
        postorder(e).len() >= 1,
    decreases e,
{
    match e {
        Expr::Num(_) => {},
        Expr::Bin(_, l, r) => {
            lemma_postorder_len(*l);
            lemma_postorder_len(*r);
        },
    }
}

/// `ts` derives an expression `e`: it is a term, or a smaller expression,
/// a `+` or `-`, and a term.  Taking the left operand at the same level
/// and the right one a level down is what left-associativity means.
pub open spec fn derives_expr(ts: Seq<SpecTok>, e: Expr) -> bool
    decreases ts.len(), 2int,
{
    derives_term(ts, e) || match e {
        Expr::Bin(o, l, r) => prec(o) == 1 && exists|k: int|
            0 <= k < ts.len() && ts[k] == SpecTok::Op(o) && derives_expr(ts.subrange(0, k), *l)
                && derives_term(ts.subrange(k + 1, ts.len() as int), *r),
        _ => false,
    }
}

/// `ts` derives `e` as a term: it is a factor, or a smaller term, a `*`
/// or `/`, and a factor.
pub open spec fn derives_term(ts: Seq<SpecTok>, e: Expr) -> bool
    decreases ts.len(), 1int,
{
    derives_factor(ts, e) || match e {
        Expr::Bin(o, l, r) => prec(o) == 2 && exists|k: int|
            0 <= k < ts.len() && ts[k] == SpecTok::Op(o) && derives_term(ts.subrange(0, k), *l)
                && derives_factor(ts.subrange(k + 1, ts.len() as int), *r),
        _ => false,
    }
}

/// `ts` derives `e` as a factor: a number literal, or any expression
/// wrapped in parentheses.
pub open spec fn derives_factor(ts: Seq<SpecTok>, e: Expr) -> bool
    decreases ts.len(), 0int,
{
    (match e {
        Expr::Num(s) => ts == seq![SpecTok::Num(s)],
        _ => false,
    }) || (ts.len() >= 2 && ts[0] is LParen && ts.last() is RParen && derives_expr(
        ts.subrange(1, ts.len() - 1),
        e,
    ))
}

/// A stack an expression may be scanned on top of: empty, or guarded by
/// an opening parenthesis.  Nothing below the guard can be popped while
/// the expression is scanned.
pub open spec fn expr_stack_ok(st: Seq<SpecTok>) -> bool {
    st.len() == 0 || st.last() is LParen
}

/// A stack a term may be scanned on top of: an expression stack, or one
/// whose top is a pending `+` or `-`, which no operator of a term pops.
pub open spec fn term_stack_ok(st: Seq<SpecTok>) -> bool {
    expr_stack_ok(st) || (st.last() matches SpecTok::Op(o) && prec(o) == 1)
}

/// A stack whose top is no operator of precedence `p` or more pops
/// nothing.
proof fn lemma_pop_ge_stop(st: Seq<SpecTok>, p: int)
    requires
        st.len() == 0 || st.last() is LParen || (st.last() matches SpecTok::Op(o) && prec(o) < p),
    ensures
        pop_ge(st, p) == (Seq::<SpecTok>::empty(), st),
{
}

/// Scanning the tokens of a factor flushes its whole postorder to the
/// output and leaves the stack as it was, whatever the stack holds: a
/// number is emitted at once, and a parenthesized group is emptied down
/// to its own opener.
pub proof fn lemma_sy_factor(
    ts: Seq<SpecTok>,
    e: Expr,
    st: Seq<SpecTok>,
    out: Seq<SpecTok>,
    rest: Seq<SpecTok>,
)
    requires
        derives_factor(ts, e),
    ensures
        sy_toks(ts + rest, st, out) == sy_toks(rest, st, out + postorder(e)),
    decreases ts.len(), 0int,
{
    if ts.len() == 1 {
        match e {
            Expr::Num(s) => {
                assert((ts + rest)[0] == SpecTok::Num(s));
                assert((ts + rest).drop_first() =~= rest);
                assert(out.push(SpecTok::Num(s)) =~= out + postorder(e));
            },
            _ => {
                assert(false);
            },
        }
    } else {
        let inner = ts.subrange(1, ts.len() - 1);
        let rp = ts.last();
        let rest1 = seq![rp] + rest;
        assert(ts + rest =~= seq![SpecTok::LParen] + (inner + rest1));
        assert((seq![SpecTok::LParen] + (inner + rest1))[0] == SpecTok::LParen);
        assert((seq![SpecTok::LParen] + (inner + rest1)).drop_first() =~= inner + rest1);
        let lp_st = st.push(SpecTok::LParen);
        assert(sy_toks(ts + rest, st, out) == sy_toks(inner + rest1, lp_st, out));
        let pend = lemma_sy_expr(inner, e, lp_st, out, rest1);
        assert(rest1[0] == rp);
        assert(rest1.drop_first() =~= rest);
        match pend {
            (None, None) => {
                assert(pop_to_lp(lp_st) == Some((Seq::<SpecTok>::empty(), st)));
                assert(out + postorder(e) + Seq::<SpecTok>::empty() =~= out + postorder(e));
                assert(sy_toks(rest1, lp_st, out + postorder(e)) == sy_toks(
                    rest,
                    st,
                    out + postorder(e),
                ));
            },
            (None, Some(o2)) => {
                let st2 = lp_st.push(SpecTok::Op(o2));
                assert(st2.drop_last() =~= lp_st);
                assert(pop_to_lp(st2) == Some((seq![SpecTok::Op(o2)], st)));
                assert(out + postorder(e).drop_last() + seq![SpecTok::Op(o2)] =~= out + postorder(
                    e,
                ));
            },
            (Some(o1), None) => {
                let st2 = lp_st.push(SpecTok::Op(o1));
                assert(st2.drop_last() =~= lp_st);
                assert(pop_to_lp(st2) == Some((seq![SpecTok::Op(o1)], st)));
                assert(out + postorder(e).drop_last() + seq![SpecTok::Op(o1)] =~= out + postorder(
                    e,
                ));
            },
            (Some(o1), Some(o2)) => {
                let st1 = lp_st.push(SpecTok::Op(o1));
                let st2 = st1.push(SpecTok::Op(o2));
                assert(st2.drop_last() =~= st1);
                assert(st1.drop_last() =~= lp_st);
                assert(pop_to_lp(st1) == Some((seq![SpecTok::Op(o1)], st)));
                assert(pop_to_lp(st2) == Some(
                    (seq![SpecTok::Op(o2), SpecTok::Op(o1)], st),
                ));
                assert(out + postorder(e).drop_last().drop_last() + seq![
                    SpecTok::Op(o2),
                    SpecTok::Op(o1),
                ] =~= out + postorder(e));
            },
        }
    }
}

/// Scanning the tokens of a term from a term stack flushes its postorder
/// except, possibly, one pending `*` or `/` left on top of the stack.
pub proof fn lemma_sy_term(
    ts: Seq<SpecTok>,
    e: Expr,
    st: Seq<SpecTok>,
    out: Seq<SpecTok>,
    rest: Seq<SpecTok>,
) -> (pend: Option<Oper>)
    requires
        derives_term(ts, e),
        term_stack_ok(st),
    ensures
        match pend {
            None => sy_toks(ts + rest, st, out) == sy_toks(rest, st, out + postorder(e)),
            Some(o2) => prec(o2) == 2 && postorder(e).len() >= 1 && postorder(e).last()
                == SpecTok::Op(o2) && sy_toks(ts + rest, st, out) == sy_toks(
                rest,
                st.push(SpecTok::Op(o2)),
                out + postorder(e).drop_last(),
            ),
        },
    decreases ts.len(), 1int,
{
    if derives_factor(ts, e) {
        lemma_sy_factor(ts, e, st, out, rest);
        None
    } else {
        match e {
            Expr::Bin(o, l, r) => {
                let k = choose|k: int|
                    0 <= k < ts.len() && ts[k] == SpecTok::Op(o) && derives_term(
                        ts.subrange(0, k),
                        *l,
                    ) && derives_factor(ts.subrange(k + 1, ts.len() as int), *r);
                let ts1 = ts.subrange(0, k);
                let ts2 = ts.subrange(k + 1, ts.len() as int);
                let rest1 = seq![SpecTok::Op(o)] + (ts2 + rest);
                assert(ts + rest =~= ts1 + rest1);
                let pl = lemma_sy_term(ts1, *l, st, out, rest1);
                assert(rest1[0] == SpecTok::Op(o));
                assert(rest1.drop_first() =~= ts2 + rest);
                let mid = out + postorder(*l);
                match pl {
                    None => {
                        lemma_pop_ge_stop(st, prec(o));
                        assert(mid + Seq::<SpecTok>::empty() =~= mid);
                        assert(sy_toks(rest1, st, mid) == sy_toks(
                            ts2 + rest,
                            st.push(SpecTok::Op(o)),
                            mid,
                        ));
                    },
                    Some(a2) => {
                        let st1 = st.push(SpecTok::Op(a2));
                        assert(st1.drop_last() =~= st);
                        lemma_pop_ge_stop(st, prec(o));
                        assert(pop_ge(st1, prec(o)) == (seq![SpecTok::Op(a2)], st));
                        assert(out + postorder(*l).drop_last() + seq![SpecTok::Op(a2)] =~= mid);
                    },
                }
                assert(sy_toks(ts + rest, st, out) == sy_toks(
                    ts2 + rest,
                    st.push(SpecTok::Op(o)),
                    mid,
                ));
                lemma_sy_factor(ts2, *r, st.push(SpecTok::Op(o)), mid, rest);
                lemma_postorder_len(*r);
                assert(postorder(e).drop_last() =~= postorder(*l) + postorder(*r));
                assert(postorder(e).last() == SpecTok::Op(o));
                assert(mid + postorder(*r) =~= out + postorder(e).drop_last());
                Some(o)
            },
            _ => {
                assert(false);
                None
            },
        }
    }
}

/// Scanning the tokens of an expression from an expression stack flushes
/// its postorder except, possibly, a pending `+` or `-` and a pending `*`
/// or `/` above it, in that order, left on top of the stack.
#[verifier::rlimit(60)]
pub proof fn lemma_sy_expr(
    ts: Seq<SpecTok>,
    e: Expr,
    st: Seq<SpecTok>,
    out: Seq<SpecTok>,
    rest: Seq<SpecTok>,
) -> (pend: (Option<Oper>, Option<Oper>))
    requires
        derives_expr(ts, e),
        expr_stack_ok(st),
    ensures
        match pend {
            (None, None) => sy_toks(ts + rest, st, out) == sy_toks(rest, st, out + postorder(e)),
            (None, Some(o2)) => prec(o2) == 2 && postorder(e).len() >= 1 && postorder(e).last()
                == SpecTok::Op(o2) && sy_toks(ts + rest, st, out) == sy_toks(
                rest,
                st.push(SpecTok::Op(o2)),
                out + postorder(e).drop_last(),
            ),
            (Some(o1), None) => prec(o1) == 1 && postorder(e).len() >= 1 && postorder(e).last()
                == SpecTok::Op(o1) && sy_toks(ts + rest, st, out) == sy_toks(
                rest,
                st.push(SpecTok::Op(o1)),
                out + postorder(e).drop_last(),
            ),
            (Some(o1), Some(o2)) => prec(o1) == 1 && prec(o2) == 2 && postorder(e).len() >= 2
                && postorder(e).last() == SpecTok::Op(o1) && postorder(e).drop_last().last()
                == SpecTok::Op(o2) && sy_toks(ts + rest, st, out) == sy_toks(
                rest,
                st.push(SpecTok::Op(o1)).push(SpecTok::Op(o2)),
                out + postorder(e).drop_last().drop_last(),
            ),
        },
    decreases ts.len(), 2int,
{
    if derives_term(ts, e) {
        let p2 = lemma_sy_term(ts, e, st, out, rest);
        match p2 {
            None => (None, None),
            Some(o2) => (None, Some(o2)),
        }
    } else {
        match e {
            Expr::Bin(o, l, r) => {
                let k = choose|k: int|
                    0 <= k < ts.len() && ts[k] == SpecTok::Op(o) && derives_expr(
                        ts.subrange(0, k),
                        *l,
                    ) && derives_term(ts.subrange(k + 1, ts.len() as int), *r);
                let ts1 = ts.subrange(0, k);
                let ts2 = ts.subrange(k + 1, ts.len() as int);
                let rest1 = seq![SpecTok::Op(o)] + (ts2 + rest);
                assert(ts + rest =~= ts1 + rest1);
                let pl = lemma_sy_expr(ts1, *l, st, out, rest1);
                assert(rest1[0] == SpecTok::Op(o));
                assert(rest1.drop_first() =~= ts2 + rest);
                let mid = out + postorder(*l);
                match pl {
                    (None, None) => {
                        lemma_pop_ge_stop(st, prec(o));
                        assert(mid + Seq::<SpecTok>::empty() =~= mid);
                    },
                    (None, Some(a2)) => {
                        let st1 = st.push(SpecTok::Op(a2));
                        assert(st1.drop_last() =~= st);
                        lemma_pop_ge_stop(st, prec(o));
                        assert(pop_ge(st1, prec(o)) == (seq![SpecTok::Op(a2)], st));
                        assert(out + postorder(*l).drop_last() + seq![SpecTok::Op(a2)] =~= mid);
                    },
                    (Some(a1), None) => {
                        let st1 = st.push(SpecTok::Op(a1));
                        assert(st1.drop_last() =~= st);
                        lemma_pop_ge_stop(st, prec(o));
                        assert(pop_ge(st1, prec(o)) == (seq![SpecTok::Op(a1)], st));
                        assert(out + postorder(*l).drop_last() + seq![SpecTok::Op(a1)] =~= mid);
                    },
                    (Some(a1), Some(a2)) => {
                        let st1 = st.push(SpecTok::Op(a1));
                        let st2 = st1.push(SpecTok::Op(a2));
                        assert(st2.drop_last() =~= st1);
                        assert(st1.drop_last() =~= st);
                        lemma_pop_ge_stop(st, prec(o));
                        assert(pop_ge(st1, prec(o)) == (seq![SpecTok::Op(a1)], st));
                        assert(pop_ge(st2, prec(o)) == (
                            seq![SpecTok::Op(a2), SpecTok::Op(a1)],
                            st,
                        ));
                        assert(out + postorder(*l).drop_last().drop_last() + seq![
                            SpecTok::Op(a2),
                            SpecTok::Op(a1),
                        ] =~= mid);
                    },
                }
                assert(sy_toks(ts + rest, st, out) == sy_toks(
                    ts2 + rest,
                    st.push(SpecTok::Op(o)),
                    mid,
                ));
                let pr = lemma_sy_term(ts2, *r, st.push(SpecTok::Op(o)), mid, rest);
                lemma_postorder_len(*r);
                assert(postorder(e).drop_last() =~= postorder(*l) + postorder(*r));
                assert(postorder(e).last() == SpecTok::Op(o));
                match pr {
                    None => {
                        assert(mid + postorder(*r) =~= out + postorder(e).drop_last());
                        (Some(o), None)
                    },
                    Some(o2) => {
                        assert(postorder(e).drop_last().drop_last() =~= postorder(*l) + postorder(
                            *r,
                        ).drop_last());
                        assert(mid + postorder(*r).drop_last() =~= out + postorder(
                            e,
                        ).drop_last().drop_last());
                        assert(postorder(e).drop_last().last() == postorder(*r).last());
                        (Some(o), Some(o2))
                    },
                }
            },
            _ => {
                assert(false);
                (None, None)
            },
        }
    }
}

/// The postfix evaluator at the level of expression trees: numbers are
/// pushed, an operator joins the two topmost trees.  `None` when an
/// operator is short of operands or a parenthesis strays in.
pub open spec fn rpn_build(ts: Seq<SpecTok>, stack: Seq<Expr>) -> Option<Seq<Expr>>
    decreases ts.len(),
{
    if ts.len() == 0 {
        Some(stack)
    } else {
        match ts[0] {
            SpecTok::Num(s) => rpn_build(ts.drop_first(), stack.push(Expr::Num(s))),
            SpecTok::Op(o) => if stack.len() < 2 {
                None
            } else {
                let r = stack.last();
                let l = stack.drop_last().last();
                rpn_build(
                    ts.drop_first(),
                    stack.drop_last().drop_last().push(Expr::Bin(o, Box::new(l), Box::new(r))),
                )
            },
            _ => None,
        }
    }
}

/// Scanning the postfix form of `e` grows the tree stack by exactly the
/// tree `e` itself: the postfix sequence carries the whole expression.
pub proof fn lemma_rpn_build_postorder(e: Expr, rest: Seq<SpecTok>, stack: Seq<Expr>)
    ensures
        rpn_build(postorder(e) + rest, stack) == rpn_build(rest, stack.push(e)),
    decreases e,
{
    match e {
        Expr::Num(s) => {
            assert((postorder(e) + rest)[0] == SpecTok::Num(s));
            assert((postorder(e) + rest).drop_first() =~= rest);
        },
        Expr::Bin(o, l, r) => {
            let tail = postorder(*r) + (seq![SpecTok::Op(o)] + rest);
            assert(postorder(e) + rest =~= postorder(*l) + tail);
            lemma_rpn_build_postorder(*l, tail, stack);
            let tail2 = seq![SpecTok::Op(o)] + rest;
            assert(tail =~= postorder(*r) + tail2);
            lemma_rpn_build_postorder(*r, tail2, stack.push(*l));
            let stack2 = stack.push(*l).push(*r);
            assert(tail2[0] == SpecTok::Op(o));
            assert(tail2.drop_first() =~= rest);
            assert(stack2.len() >= 2);
            assert(stack2.last() == *r);
            assert(stack2.drop_last() =~= stack.push(*l));
            assert(stack2.drop_last().last() == *l);
            assert(stack2.drop_last().drop_last() =~= stack);
            assert(rpn_build(tail2, stack2) == rpn_build(rest, stack.push(e)));
        },
    }
}

/// Where the tokenizer succeeds on the rest of the input, the
/// character-level scan agrees with the token-level scan of what it
/// produced.
pub proof fn lemma_sy_from_toks(cs: Seq<char>, i: int, st: Seq<SpecTok>, out: Seq<SpecTok>)
    requires
        0 <= i <= cs.len(),
        tokenize(cs.skip(i), i) is Ok,
    ensures
        sy_from(cs, i, st, out) == sy_toks(tokenize(cs.skip(i), i)->Ok_0, st, out),
    decreases cs.len() - i,
{
    let sub = cs.skip(i);
    let ts = tokenize(sub, i)->Ok_0;
    if i == cs.len() {
        assert(sub.len() == 0);
    } else {
        let c = cs[i];
        assert(sub[0] == c);
        if is_digit_char(c) {
            let n = digit_run_len(sub) as int;
            lemma_digit_run_le(sub);
            assert(n >= 1);
            assert(sub.skip(n) =~= cs.skip(i + n));
            assert(sub.take(n) =~= cs.subrange(i, i + n));
            let inner = tokenize(cs.skip(i + n), i + n);
            assert(inner is Ok);
            let num = SpecTok::Num(cs.subrange(i, i + n));
            assert(ts == seq![num] + inner->Ok_0);
            assert(ts[0] == num);
            assert(ts.drop_first() =~= inner->Ok_0);
            lemma_sy_from_toks(cs, i + n, st, out.push(num));
        } else if oper_of_char(c) is Some {
            let o = oper_of_char(c)->0;
            assert(sub.drop_first() =~= cs.skip(i + 1));
            let inner = tokenize(cs.skip(i + 1), i + 1);
            assert(inner is Ok);
            assert(ts[0] == SpecTok::Op(o));
            assert(ts.drop_first() =~= inner->Ok_0);
            let popped = pop_ge(st, prec(o));
            lemma_sy_from_toks(cs, i + 1, popped.1.push(SpecTok::Op(o)), out + popped.0);
        } else if c == '(' {
            assert(sub.drop_first() =~= cs.skip(i + 1));
            let inner = tokenize(cs.skip(i + 1), i + 1);
            assert(inner is Ok);
            assert(ts[0] == SpecTok::LParen);
            assert(ts.drop_first() =~= inner->Ok_0);
            lemma_sy_from_toks(cs, i + 1, st.push(SpecTok::LParen), out);
        } else if c == ')' {
            assert(sub.drop_first() =~= cs.skip(i + 1));
            let inner = tokenize(cs.skip(i + 1), i + 1);
            assert(inner is Ok);
            assert(ts[0] == SpecTok::RParen(i));
            assert(ts.drop_first() =~= inner->Ok_0);
            match pop_to_lp(st) {
                None => {},
                Some(popped) => {
                    lemma_sy_from_toks(cs, i + 1, popped.1, out + popped.0);
                },
            }
        } else {
            assert(false);
        }
    }
}

/// Where the tree-level evaluator succeeds, the stack-depth scan agrees
/// and counts the trees.
pub proof fn lemma_rpn_scan_of_build(ts: Seq<SpecTok>, stack: Seq<Expr>)
    requires
        rpn_build(ts, stack) is Some,
    ensures
        rpn_scan(ts, stack.len() as int) == Ok::<int, ProcessingError>(
            rpn_build(ts, stack)->0.len() as int,
        ),
    decreases ts.len(),
{
    if ts.len() == 0 {
    } else {
        match ts[0] {
            SpecTok::Num(s) => {
                lemma_rpn_scan_of_build(ts.drop_first(), stack.push(Expr::Num(s)));
            },
            SpecTok::Op(o) => {
                let r = stack.last();
                let l = stack.drop_last().last();
                lemma_rpn_scan_of_build(
                    ts.drop_first(),
                    stack.drop_last().drop_last().push(Expr::Bin(o, Box::new(l), Box::new(r))),
                );
            },
            _ => {},
        }
    }
}

/// A well-formed arithmetic string: its whitespace-stripped text
/// tokenizes, and the tokens derive an expression with balanced
/// parentheses.
pub open spec fn well_formed(s: Seq<char>, e: Expr) -> bool {
    tokenize(strip_ws(s), 0) is Ok && derives_expr(tokenize(strip_ws(s), 0)->Ok_0, e)
}

/// On every well-formed arithmetic string, parsing never fails and
/// returns exactly the postorder of the expression tree; the postfix
/// evaluator rebuilds that very tree from the postorder, so evaluating
/// the postfix sequence is evaluating the infix expression, with
/// left-to-right association of operators of equal precedence; and the
/// postfix sequence passes validation.
pub proof fn theorem_parse_well_formed(s: Seq<char>, e: Expr)
    requires
        well_formed(s, e),
    ensures
        spec_parse(s) == Ok::<Seq<SpecTok>, ProcessingError>(postorder(e)),
        rpn_build(postorder(e), Seq::empty()) == Some(seq![e]),
        spec_validate(postorder(e)) == Ok::<(), ProcessingError>(()),
{
    let cs = strip_ws(s);
    assert(cs.skip(0) =~= cs);
    let ts = tokenize(cs, 0)->Ok_0;
    lemma_sy_from_toks(cs, 0, Seq::empty(), Seq::empty());
    let empty = Seq::<SpecTok>::empty();
    let pend = lemma_sy_expr(ts, e, empty, empty, empty);
    assert(ts + empty =~= ts);
    let po = postorder(e);
    match pend {
        (None, None) => {
            assert(empty + po =~= po);
        },
        (None, Some(o2)) => {
            let st1 = empty.push(SpecTok::Op(o2));
            assert(st1.drop_last() =~= empty);
            assert(empty + po.drop_last() =~= po.drop_last());
            assert(po.drop_last().push(SpecTok::Op(o2)) =~= po);
            assert(finish(st1, po.drop_last()) == finish(empty, po));
        },
        (Some(o1), None) => {
            let st1 = empty.push(SpecTok::Op(o1));
            assert(st1.drop_last() =~= empty);
            assert(empty + po.drop_last() =~= po.drop_last());
            assert(po.drop_last().push(SpecTok::Op(o1)) =~= po);
            assert(finish(st1, po.drop_last()) == finish(empty, po));
        },
        (Some(o1), Some(o2)) => {
            let st1 = empty.push(SpecTok::Op(o1));
            let st2 = st1.push(SpecTok::Op(o2));
            assert(st2.drop_last() =~= st1);
            assert(st1.drop_last() =~= empty);
            let out2 = po.drop_last().drop_last();
            assert(empty + out2 =~= out2);
            assert(out2.push(SpecTok::Op(o2)) =~= po.drop_last());
            assert(po.drop_last().push(SpecTok::Op(o1)) =~= po);
            assert(finish(st2, out2) == finish(st1, po.drop_last()));
            assert(finish(st1, po.drop_last()) == finish(empty, po));
        },
    }
    assert(spec_parse(s) == Ok::<Seq<SpecTok>, ProcessingError>(po));
    lemma_rpn_build_postorder(e, Seq::empty(), Seq::empty());
    assert(po + Seq::<SpecTok>::empty() =~= po);
    assert(Seq::<Expr>::empty().push(e) =~= seq![e]);
    lemma_rpn_scan_of_build(po, Seq::empty());
    lemma_postorder_len(e);
}

/// The same law at the parser's doorstep: whatever
/// [`crate::calculate::Calculator::parse_input`] returns on a well-formed
/// string is a success, and its tokens are exactly the postorder of the
/// expression tree.
pub proof fn theorem_parse_input_well_formed(
    input: Seq<char>,
    e: Expr,
    r: Result<Vec<Token>, ProcessingError>,
)
    requires
        well_formed(input, e),
        parse_result(r) == spec_parse(input),
    ensures
        r is Ok,
        toks_view(r->Ok_0@) == postorder(e),
{
    theorem_parse_well_formed(input, e);
}

} // verus!
