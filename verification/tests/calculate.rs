use calculator::calculate::Calculator;
use calculator::tokens::{Oper, ProcessingError, Token};

/// The display text of each token of a parse result.
fn texts(tokens: &Vec<Token>) -> Vec<String> {
    let mut out: Vec<String> = Vec::new();
    for t in tokens.iter() {
        out.push(t.text());
    }
    out
}

/// Fold a postfix token sequence to its floating-point value, the way the
/// evaluator applies operators to the two topmost stack values.
fn rpn_value(tokens: &Vec<Token>) -> f64 {
    let mut values: Vec<f64> = Vec::new();
    for t in tokens.iter() {
        match t {
            Token::Number(s) => values.push(s.parse::<f64>().unwrap_or(0.0)),
            Token::Operator(o) => {
                let right = values.pop().unwrap();
                let left = values.pop().unwrap();
                values.push(match o {
                    Oper::Add => left + right,
                    Oper::Sub => left - right,
                    Oper::Mul => left * right,
                    Oper::Div => left / right,
                });
            }
            _ => {}
        }
    }
    assert_eq!(values.len(), 1);
    values[0]
}

#[test]
fn test_parse_input() {
    let cal = Calculator::new();

    let res = cal.parse_input("3 + 4 + 5").unwrap();
    assert_eq!(
        texts(&res),
        vec![
            String::from("3"),
            String::from("4"),
            String::from("+"),
            String::from("5"),
            String::from("+")
        ]
    );

    let res = cal.parse_input("3+4").unwrap();
    assert_eq!(
        texts(&res),
        vec![String::from("3"), String::from("4"), String::from("+"),]
    );

    let res = cal.parse_input("3+4*5").unwrap();
    assert_eq!(
        texts(&res),
        vec![
            String::from("3"),
            String::from("4"),
            String::from("5"),
            String::from("*"),
            String::from("+")
        ]
    );

    let res = cal.parse_input("3*4+5").unwrap();
    assert_eq!(
        texts(&res),
        vec![
            String::from("3"),
            String::from("4"),
            String::from("*"),
            String::from("5"),
            String::from("+")
        ]
    );

    let res = cal.parse_input("(3+4)*5").unwrap();
    assert_eq!(
        texts(&res),
        vec![
            String::from("3"),
            String::from("4"),
            String::from("+"),
            String::from("5"),
            String::from("*")
        ]
    );

    let res = cal.parse_input("(15 + 7) / 2 - (65 - 61) * 2").unwrap();
    assert_eq!(
        texts(&res),
        vec![
            String::from("15"),
            String::from("7"),
            String::from("+"),
            String::from("2"),
            String::from("/"),
            String::from("65"),
            String::from("61"),
            String::from("-"),
            String::from("2"),
            String::from("*"),
            String::from("-"),
        ]
    );

    let res = cal.parse_input("(11 + 13 * 2");
    assert!(res.is_err());
    let res = cal.parse_input("11 + 13) * 2");
    assert!(res.is_err());
}

#[test]
fn test_rpn() {
    let cal = Calculator::new();
    let parsed_data = cal.parse_input("5+5").unwrap();
    assert!(cal.validate_rpn(&parsed_data).is_ok());
    let result = rpn_value(&parsed_data);
    assert_eq!(result, 10.0);

    let cal = Calculator::new();
    let parsed_data = cal.parse_input("3+4*5").unwrap();
    assert!(cal.validate_rpn(&parsed_data).is_ok());
    let result = rpn_value(&parsed_data);
    assert_eq!(result, 23.0);

    let cal = Calculator::new();
    let parsed_data = cal.parse_input("(15 + 7) / 2 - (65 - 61) * 2").unwrap();
    assert!(cal.validate_rpn(&parsed_data).is_ok());
    let result = rpn_value(&parsed_data);
    assert_eq!(result, 3.0);
}

#[test]
fn test_left_associativity() {
    let cal = Calculator::new();
    let res = cal.parse_input("3-4-5").unwrap();
    assert_eq!(
        texts(&res),
        vec![
            String::from("3"),
            String::from("4"),
            String::from("-"),
            String::from("5"),
            String::from("-"),
        ]
    );
    assert_eq!(rpn_value(&res), -6.0);

    let res = cal.parse_input("8/4/2").unwrap();
    assert_eq!(rpn_value(&res), 1.0);
}

#[test]
fn test_multi_digit_numbers() {
    let cal = Calculator::new();
    let res = cal.parse_input("123").unwrap();
    assert_eq!(texts(&res), vec![String::from("123")]);
    let res = cal.parse_input("10 + 200").unwrap();
    assert_eq!(
        texts(&res),
        vec![String::from("10"), String::from("200"), String::from("+")]
    );
    assert_eq!(rpn_value(&res), 210.0);
}

#[test]
fn test_open_parentheses_error() {
    let cal = Calculator::new();
    let res = cal.parse_input("(11 + 13 * 2");
    assert_eq!(res.unwrap_err(), ProcessingError::OpenParenthesesError);
}

#[test]
fn test_close_parentheses_error() {
    let cal = Calculator::new();
    let res = cal.parse_input("11 + 13) * 2");
    // The position is counted in the whitespace-stripped input.
    assert_eq!(
        res.unwrap_err(),
        ProcessingError::CloseParenthesesError(5)
    );
    // A closer with nothing at all on the operator stack has no match either.
    let res = cal.parse_input(")");
    assert_eq!(res.unwrap_err(), ProcessingError::CloseParenthesesError(0));
}

#[test]
fn test_syntax_error() {
    let cal = Calculator::new();
    let res = cal.parse_input("3 + x");
    assert_eq!(res.unwrap_err(), ProcessingError::SyntaxError('x', 2));
    // The scanner recognizes plain digit runs only: a decimal point is not
    // part of a number token.
    let res = cal.parse_input("3.5");
    assert_eq!(res.unwrap_err(), ProcessingError::SyntaxError('.', 1));
}

#[test]
fn test_no_input_error() {
    let cal = Calculator::new();
    let parsed = cal.parse_input("").unwrap();
    assert_eq!(parsed.len(), 0);
    assert_eq!(
        cal.validate_rpn(&parsed).unwrap_err(),
        ProcessingError::NoInputError
    );
    // Whitespace-only input parses to an empty sequence too.
    let parsed = cal.parse_input("   ").unwrap();
    assert_eq!(
        cal.validate_rpn(&parsed).unwrap_err(),
        ProcessingError::NoInputError
    );
}

#[test]
fn test_arguments_error() {
    let cal = Calculator::new();
    // A lone operator reaches the evaluator with an empty value stack.
    let parsed = cal.parse_input("+").unwrap();
    assert_eq!(texts(&parsed), vec![String::from("+")]);
    assert_eq!(
        cal.validate_rpn(&parsed).unwrap_err(),
        ProcessingError::ArgumentsError
    );
}

#[test]
fn test_operator_error() {
    let cal = Calculator::new();
    // Two operands and no operator leave two values on the stack.
    let parsed = cal.parse_input("(3)(4)").unwrap();
    assert_eq!(texts(&parsed), vec![String::from("3"), String::from("4")]);
    assert_eq!(
        cal.validate_rpn(&parsed).unwrap_err(),
        ProcessingError::OperatorError
    );
}

#[test]
fn test_division_by_zero_is_infinite() {
    let cal = Calculator::new();
    let parsed = cal.parse_input("1/0").unwrap();
    assert!(cal.validate_rpn(&parsed).is_ok());
    let result = rpn_value(&parsed);
    assert!(result.is_infinite());
    assert!(result > 0.0);
}

#[test]
fn test_evaluate_is_repeatable() {
    let cal = Calculator::new();
    let first = cal.parse_input("(15 + 7) / 2 - (65 - 61) * 2").unwrap();
    let second = cal.parse_input("(15 + 7) / 2 - (65 - 61) * 2").unwrap();
    assert_eq!(first, second);
    assert_eq!(rpn_value(&first), rpn_value(&second));
    let e1 = cal.parse_input("(11 + 13 * 2").unwrap_err();
    let e2 = cal.parse_input("(11 + 13 * 2").unwrap_err();
    assert_eq!(e1, e2);
}
