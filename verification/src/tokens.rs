//! Token and error types shared by the parser and the RPN validator,
//! together with the character classes the tokenizer is built from.

use vstd::prelude::*;

verus! {

/// The four binary operators of the calculator.
#[derive(Clone, Copy, Debug, PartialEq, Eq, Structural)]
pub enum Oper {
    Add,
    Sub,
    Mul,
    Div,
}

/// Precedence rank of an operator: `*` and `/` bind tighter than `+` and `-`.
pub open spec fn prec(o: Oper) -> int {
    match o {
        Oper::Add | Oper::Sub => 1,
        Oper::Mul | Oper::Div => 2,
    }
}

/// The character an operator is written as.
pub open spec fn symbol(o: Oper) -> char {
    match o {
        Oper::Add => '+',
        Oper::Sub => '-',
        Oper::Mul => '*',
        Oper::Div => '/',
    }
}

/// The operator written as a given character, if any.
pub open spec fn oper_of_char(c: char) -> Option<Oper> {
    if c == '+' {
        Some(Oper::Add)
    } else if c == '-' {
        Some(Oper::Sub)
    } else if c == '*' {
        Some(Oper::Mul)
    } else if c == '/' {
        Some(Oper::Div)
    } else {
        None
    }
}

/// Executable counterpart of [`oper_of_char`].
pub fn char_to_oper(c: char) -> (r: Option<Oper>)
    ensures
        r == oper_of_char(c),
{
    if c == '+' {
        Some(Oper::Add)
    } else if c == '-' {
        Some(Oper::Sub)
    } else if c == '*' {
        Some(Oper::Mul)
    } else if c == '/' {
        Some(Oper::Div)
    } else {
        None
    }
}

/// Executable counterpart of [`prec`].
pub fn oper_precedence(o: Oper) -> (p: u8)
    ensures
        p as int == prec(o),
{
    match o {
        Oper::Add | Oper::Sub => 1,
        Oper::Mul | Oper::Div => 2,
    }
}

/// The Unicode `White_Space` code points, the characters that
/// `char::is_whitespace` recognizes and the tokenizer strips.
pub open spec fn is_ws_char(c: char) -> bool {
    let u = c as u32;
    u == 0x20 || (0x09 <= u && u <= 0x0D) || u == 0x85 || u == 0xA0 || u == 0x1680 || (0x2000
        <= u && u <= 0x200A) || u == 0x2028 || u == 0x2029 || u == 0x202F || u == 0x205F || u
        == 0x3000
}

/// Executable counterpart of [`is_ws_char`].
pub fn char_is_whitespace(c: char) -> (r: bool)
    ensures
        r == is_ws_char(c),
{
    let u = c as u32;
    u == 0x20 || (0x09 <= u && u <= 0x0D) || u == 0x85 || u == 0xA0 || u == 0x1680 || (0x2000
        <= u && u <= 0x200A) || u == 0x2028 || u == 0x2029 || u == 0x202F || u == 0x205F || u
        == 0x3000
}

/// An ASCII decimal digit, the only characters a number token is made of.
pub open spec fn is_digit_char(c: char) -> bool {
    0x30 <= c as u32 && c as u32 <= 0x39
}

/// Executable counterpart of [`is_digit_char`].
pub fn char_is_ascii_digit(c: char) -> (r: bool)
    ensures
        r == is_digit_char(c),
{
    let u = c as u32;
    0x30 <= u && u <= 0x39
}

/// Mathematical model of a token: what a [`Token`] means in contracts.
/// A closing parenthesis remembers the cursor position it was read at, so
/// that an unmatched one can be reported with its position.
pub enum SpecTok {
    Num(Seq<char>),
    Op(Oper),
    LParen,
    RParen(int),
}

/// A token of the calculator language.  Numbers are carried as their
/// literal text through the parse stage; they are only turned into values
/// when the postfix sequence is evaluated.
#[derive(Debug, PartialEq, Eq)]
pub enum Token {
    Number(String),
    Operator(Oper),
    OpenParen,
    CloseParen,
}

impl View for Token {
    type V = SpecTok;

    open spec fn view(&self) -> SpecTok {
        match self {
            Token::Number(s) => SpecTok::Num(s@),
            Token::Operator(o) => SpecTok::Op(*o),
            Token::OpenParen => SpecTok::LParen,
            Token::CloseParen => SpecTok::RParen(0),
        }
    }
}

/// The meaning of a sequence of tokens.
pub open spec fn toks_view(v: Seq<Token>) -> Seq<SpecTok> {
    v.map_values(|t: Token| t@)
}

/// The text a token is displayed as.
pub open spec fn tok_text(t: SpecTok) -> Seq<char> {
    match t {
        SpecTok::Num(s) => s,
        SpecTok::Op(o) => seq![symbol(o)],
        SpecTok::LParen => seq!['('],
        SpecTok::RParen(_) => seq![')'],
    }
}

/// Relies on `String::push` of std: appends the given character to the end
/// of the string.
pub assume_specification[ String::push ](s: &mut String, c: char)
    ensures
        final(s)@ == old(s)@.push(c),
;

impl Token {
    /// The text this token is displayed as.
    pub fn text(&self) -> (r: String)
        ensures
            r@ == tok_text(self@),
    {
        match self {
            Token::Number(s) => s.clone(),
            Token::Operator(o) => {
                let mut s = String::new();
                s.push(match o {
                    Oper::Add => '+',
                    Oper::Sub => '-',
                    Oper::Mul => '*',
                    Oper::Div => '/',
                });
                s
            },
            Token::OpenParen => {
                let mut s = String::new();
                s.push('(');
                s
            },
            Token::CloseParen => {
                let mut s = String::new();
                s.push(')');
                s
            },
        }
    }
}

/// Everything that can go wrong while parsing an expression string or
/// evaluating its postfix form.  Positions are indices into the input with
/// all whitespace removed.
#[derive(Clone, Copy, Debug, PartialEq, Eq, Structural)]
pub enum ProcessingError {
    /// A character that is neither a digit, an operator, a parenthesis nor
    /// whitespace, with its position.
    SyntaxError(char, usize),
    /// An opening parenthesis was never closed.
    OpenParenthesesError,
    /// A closing parenthesis at the given position has no matching opener.
    CloseParenthesesError(usize),
    /// The postfix token sequence is empty.
    NoInputError,
    /// Postfix evaluation finished with more or fewer than one value.
    OperatorError,
    /// An operator was applied with fewer than two operands available.
    ArgumentsError,
}

} // verus!
