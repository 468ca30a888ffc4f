use shunting_yard::{tokenize, Operator, PostfixEvalError, Token};
use std::cell::Cell;

fn read(text: &String) -> Option<f64> {
    text.parse::<f64>().ok()
}

fn operate(op: Operator, a: f64, b: f64) -> Option<f64> {
    let value = match op {
        Operator::Add => a + b,
        Operator::Div => a / b,
        Operator::Mod => a % b,
        Operator::Mult => a * b,
        Operator::Exp => a * 10.0_f64.powf(b),
        Operator::Pow => a.powf(b),
        Operator::Sub => a - b,
        _ => f64::NAN,
    };
    if value.is_nan() {
        None
    } else {
        Some(value)
    }
}

fn evaluate(tokens: Vec<Token>) -> Result<f64, PostfixEvalError> {
    shunting_yard::evaluate(tokens, read, operate)
}

fn calculate(expression: &str) -> Result<f64, String> {
    evaluate(tokenize(expression)).map_err(|e| e.to_string())
}

fn operand(text: &str) -> Token {
    Token::Operand(text.to_string())
}

#[test]
fn test_evaluate_simple() {
    // Test basic arithmetic
    assert_eq!(
        evaluate(vec![
            Token::Operand("3".to_string()),
            Token::Operand("4".to_string()),
            Token::Operator(Operator::Add)
        ]),
        Ok(7.0)
    );

    assert_eq!(
        evaluate(vec![
            Token::Operand("10".to_string()),
            Token::Operand("5".to_string()),
            Token::Operator(Operator::Sub)
        ]),
        Ok(5.0)
    );

    assert_eq!(
        evaluate(vec![
            Token::Operand("6".to_string()),
            Token::Operand("3".to_string()),
            Token::Operator(Operator::Mult)
        ]),
        Ok(18.0)
    );

    assert_eq!(
        evaluate(vec![
            Token::Operand("15".to_string()),
            Token::Operand("3".to_string()),
            Token::Operator(Operator::Div)
        ]),
        Ok(5.0)
    );
}

#[test]
fn test_evaluate_complex() {
    // Test more complex expressions
    assert_eq!(
        evaluate(vec![
            Token::Operand("3".to_string()),
            Token::Operand("4".to_string()),
            Token::Operand("2".to_string()),
            Token::Operator(Operator::Mult),
            Token::Operator(Operator::Add)
        ]),
        Ok(11.0)
    );

    assert_eq!(
        evaluate(vec![
            Token::Operand("10".to_string()),
            Token::Operand("2".to_string()),
            Token::Operator(Operator::Pow)
        ]),
        Ok(100.0)
    );

    // Test decimal numbers
    assert_eq!(
        evaluate(vec![
            Token::Operand("3.5".to_string()),
            Token::Operand("2.5".to_string()),
            Token::Operator(Operator::Add)
        ]),
        Ok(6.0)
    );

    // Test modulo
    assert_eq!(
        evaluate(vec![
            Token::Operand("10".to_string()),
            Token::Operand("3".to_string()),
            Token::Operator(Operator::Mod)
        ]),
        Ok(1.0)
    );

    // Test exponentiation
    assert_eq!(
        evaluate(vec![
            Token::Operand("2".to_string()),
            Token::Operand("3".to_string()),
            Token::Operator(Operator::Exp)
        ]),
        Ok(2000.0)
    );
}

#[test]
fn test_evaluate_errors() {
    // Test error case: invalid number
    assert!(evaluate(vec![Token::Operand("not_a_number".to_string())]).is_err());

    // Test error case: insufficient operands
    assert!(evaluate(vec![Token::Operand("5".to_string()), Token::Operator(Operator::Add)]).is_err());

    // Test error case: too many operands
    assert!(evaluate(vec![
        Token::Operand("5".to_string()),
        Token::Operand("3".to_string()),
        Token::Operand("2".to_string()),
        Token::Operator(Operator::Add)
    ])
    .is_err());
}

#[test]
fn sum_of_three_and_four() {
    assert_eq!(evaluate(vec![operand("3"), operand("4"), Token::Operator(Operator::Add)]), Ok(7.0));
}

#[test]
fn two_times_ten_to_the_third() {
    assert_eq!(
        evaluate(vec![operand("2"), operand("3"), Token::Operator(Operator::Exp)]),
        Ok(2000.0)
    );
}

#[test]
fn operator_without_enough_operands() {
    assert_eq!(
        evaluate(vec![operand("5"), Token::Operator(Operator::Add)]),
        Err(PostfixEvalError)
    );
    assert_eq!(evaluate(vec![Token::Operator(Operator::Add)]), Err(PostfixEvalError));
    assert_eq!(
        evaluate(vec![
            operand("1"),
            Token::Operator(Operator::Sub),
            operand("2"),
            operand("3"),
            Token::Operator(Operator::Add)
        ]),
        Err(PostfixEvalError)
    );
}

#[test]
fn full_pipeline() {
    assert_eq!(calculate("10/(2+3)"), Ok(2.0));
    assert_eq!(calculate("3+4*2"), Ok(11.0));
}

#[test]
fn the_top_of_the_stack_is_the_right_operand() {
    assert_eq!(evaluate(vec![operand("10"), operand("4"), Token::Operator(Operator::Sub)]), Ok(6.0));
    assert_eq!(evaluate(vec![operand("1"), operand("4"), Token::Operator(Operator::Div)]), Ok(0.25));
    assert_eq!(evaluate(vec![operand("2"), operand("5"), Token::Operator(Operator::Pow)]), Ok(32.0));
    assert_eq!(evaluate(vec![operand("7"), operand("4"), Token::Operator(Operator::Mod)]), Ok(3.0));
    assert_eq!(evaluate(vec![operand("5"), operand("2"), Token::Operator(Operator::Exp)]), Ok(500.0));
}

#[test]
fn each_operator_once() {
    assert_eq!(calculate("1.5+2.25"), Ok(3.75));
    assert_eq!(calculate("1.5-2.25"), Ok(-0.75));
    assert_eq!(calculate("1.5*4"), Ok(6.0));
    assert_eq!(calculate("9/4"), Ok(2.25));
    assert_eq!(calculate("9%4"), Ok(1.0));
    assert_eq!(calculate("9^0.5"), Ok(3.0));
    assert_eq!(calculate("1.5E2"), Ok(150.0));
}

#[test]
fn remainder_takes_the_sign_of_the_dividend() {
    assert_eq!(calculate("(0-7)%3"), Ok(-1.0));
    assert_eq!(calculate("7%(0-3)"), Ok(1.0));
    assert_eq!(calculate("7.5%2"), Ok(1.5));
}

#[test]
fn precedence_in_values() {
    assert_eq!(calculate("2+3*4"), Ok(14.0));
    assert_eq!(calculate("2*3+4"), Ok(10.0));
    assert_eq!(calculate("2*3^2"), Ok(18.0));
    assert_eq!(calculate("2^3*2"), Ok(16.0));
    assert_eq!(calculate("1+2*3^2"), Ok(19.0));
    assert_eq!(calculate("100-2E1*3"), Ok(40.0));
}

#[test]
fn one_rank_from_left_to_right_in_values() {
    assert_eq!(calculate("10-4-3"), Ok(3.0));
    assert_eq!(calculate("100/10/5"), Ok(2.0));
    assert_eq!(calculate("2^3^2"), Ok(64.0));
    assert_eq!(calculate("100/10*5"), Ok(50.0));
    assert_eq!(calculate("17%5%2"), Ok(0.0));
}

#[test]
fn parentheses_first_in_values() {
    assert_eq!(calculate("(2+3)*4"), Ok(20.0));
    assert_eq!(calculate("2*(3+4)"), Ok(14.0));
    assert_eq!(calculate("10-(4-3)"), Ok(9.0));
    assert_eq!(calculate("2^(3^2)"), Ok(512.0));
    assert_eq!(calculate("(1+2)^(1+1)"), Ok(9.0));
    assert_eq!(calculate("((((7))))"), Ok(7.0));
    assert_eq!(calculate(" ( 1 + 2 ) * ( 3 + 4 ) "), Ok(21.0));
}

#[test]
fn single_number() {
    assert_eq!(calculate("5"), Ok(5.0));
    assert_eq!(calculate("  42.5 "), Ok(42.5));
    assert_eq!(calculate("1 2"), Ok(12.0));
    assert_eq!(evaluate(vec![operand("1e3")]), Ok(1000.0));
}

#[test]
fn nothing_to_evaluate() {
    assert_eq!(evaluate(vec![]), Err(PostfixEvalError));
    assert_eq!(calculate(""), Err("Invalid postfix expression".to_string()));
    assert_eq!(calculate("()"), Err("Invalid postfix expression".to_string()));
}

#[test]
fn too_many_operands() {
    assert_eq!(evaluate(vec![operand("1"), operand("2")]), Err(PostfixEvalError));
    assert_eq!(
        evaluate(vec![operand("5"), operand("3"), operand("2"), Token::Operator(Operator::Add)]),
        Err(PostfixEvalError)
    );
    assert!(calculate("(1)(2)").is_err());
}

#[test]
fn operand_that_is_no_number() {
    assert_eq!(evaluate(vec![operand("not_a_number")]), Err(PostfixEvalError));
    assert_eq!(
        evaluate(vec![operand("1"), operand("x"), Token::Operator(Operator::Add)]),
        Err(PostfixEvalError)
    );
    assert_eq!(evaluate(vec![operand("")]), Err(PostfixEvalError));
    assert!(calculate("a+b").is_err());
    assert!(calculate("1+2=3").is_err());
}

#[test]
fn malformed_expressions_fail() {
    for text in ["+", "1+", "+1", "1+*2", "1+(2", "(", ")", "2*(3+)", "-5", "1--2", "(1)2"] {
        assert_eq!(calculate(text), Err("Invalid postfix expression".to_string()), "{}", text);
    }
}

#[test]
fn parenthesis_tokens_are_refused() {
    assert_eq!(
        evaluate(vec![operand("1"), operand("2"), Token::Operator(Operator::OpenParen)]),
        Err(PostfixEvalError)
    );
    assert_eq!(
        evaluate(vec![operand("1"), operand("2"), Token::Operator(Operator::CloseParen)]),
        Err(PostfixEvalError)
    );
    assert_eq!(evaluate(vec![Token::Operator(Operator::OpenParen)]), Err(PostfixEvalError));
}

#[test]
fn results_that_are_no_number_fail() {
    assert_eq!(calculate("0/0"), Err("Invalid postfix expression".to_string()));
    assert_eq!(calculate("1%0"), Err("Invalid postfix expression".to_string()));
    assert_eq!(calculate("(0-8)^0.5"), Err("Invalid postfix expression".to_string()));
    assert_eq!(calculate("1+0/0"), Err("Invalid postfix expression".to_string()));
    assert_eq!(calculate("(0/0)*0"), Err("Invalid postfix expression".to_string()));
    assert!(evaluate(vec![operand("NaN")]).map(f64::is_nan).unwrap_or(false));
}

#[test]
fn infinite_results_are_values() {
    assert_eq!(calculate("1/0"), Ok(f64::INFINITY));
    assert_eq!(calculate("(0-1)/0"), Ok(f64::NEG_INFINITY));
    assert_eq!(calculate("1/0-1/0"), Err("Invalid postfix expression".to_string()));
}

#[test]
fn the_first_failure_ends_the_evaluation() {
    let reads = Cell::new(0);
    let operations = Cell::new(0);
    let result = shunting_yard::evaluate(
        vec![
            operand("1"),
            operand("oops"),
            operand("3"),
            Token::Operator(Operator::Add),
            Token::Operator(Operator::Add),
        ],
        |text: &String| {
            reads.set(reads.get() + 1);
            text.parse::<f64>().ok()
        },
        |op: Operator, a: f64, b: f64| {
            operations.set(operations.get() + 1);
            operate(op, a, b)
        },
    );
    assert_eq!(result, Err(PostfixEvalError));
    assert_eq!(reads.get(), 2);
    assert_eq!(operations.get(), 0);
}

#[test]
fn the_operator_is_not_asked_without_two_operands() {
    let operations = Cell::new(0);
    let result = shunting_yard::evaluate(
        vec![operand("1"), Token::Operator(Operator::Add), operand("2")],
        read,
        |op: Operator, a: f64, b: f64| {
            operations.set(operations.get() + 1);
            operate(op, a, b)
        },
    );
    assert_eq!(result, Err(PostfixEvalError));
    assert_eq!(operations.get(), 0);
}

#[test]
fn other_numbers_than_floats() {
    let read = |text: &String| text.parse::<i64>().ok();
    let operate = |op: Operator, a: i64, b: i64| match op {
        Operator::Add => a.checked_add(b),
        Operator::Sub => a.checked_sub(b),
        Operator::Mult => a.checked_mul(b),
        Operator::Div => a.checked_div(b),
        Operator::Mod => a.checked_rem(b),
        _ => None,
    };
    assert_eq!(shunting_yard::evaluate(tokenize("7-2*3"), read, operate), Ok(1));
    assert_eq!(shunting_yard::evaluate(tokenize("(7-2)*3"), read, operate), Ok(15));
    assert_eq!(shunting_yard::evaluate(tokenize("7/0"), read, operate), Err(PostfixEvalError));
    assert_eq!(shunting_yard::evaluate(tokenize("2^3"), read, operate), Err(PostfixEvalError));
    assert_eq!(shunting_yard::evaluate(tokenize("1.5+1"), read, operate), Err(PostfixEvalError));
}

#[test]
fn values_need_one_more_operand_than_operators() {
    for text in ["1", "1+2", "1+2*3", "(1+2)*(3+4)", "1+", "1 2", "+", "1+2+", "((1+2)"] {
        let tokens = tokenize(text);
        let operands = tokens.iter().filter(|t| matches!(t, Token::Operand(_))).count();
        let operators = tokens.iter().filter(|t| matches!(t, Token::Operator(_))).count();
        if evaluate(tokens).is_ok() {
            assert_eq!(operands, operators + 1, "{}", text);
        }
        if operands != operators + 1 {
            assert!(calculate(text).is_err(), "{}", text);
        }
    }
}

#[test]
fn evaluation_error_message() {
    assert_eq!(PostfixEvalError.to_string(), "Invalid postfix expression");
}
