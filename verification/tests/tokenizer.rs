use shunting_yard::{tokenize, Operator, Token};

fn operand(text: &str) -> Token {
    Token::Operand(text.to_string())
}

fn operator(op: Operator) -> Token {
    Token::Operator(op)
}

/// The tokens written out, so that operators of one rank are told apart.
fn written(tokens: &[Token]) -> String {
    let mut out = String::new();
    for token in tokens {
        if !out.is_empty() {
            out.push(' ');
        }
        match token {
            Token::Operand(text) => out.push_str(text),
            Token::Operator(op) => out.push(char::from(*op)),
        }
    }
    out
}

#[test]
fn test_tokenize() {
    assert_eq!(
        tokenize("a+b"),
        vec![
            Token::Operand("a".to_string()),
            Token::Operand("b".to_string()),
            Token::Operator(Operator::Add),
        ]
    );

    assert_eq!(
        tokenize("a+b*c"),
        vec![
            Token::Operand("a".to_string()),
            Token::Operand("b".to_string()),
            Token::Operand("c".to_string()),
            Token::Operator(Operator::Mult),
            Token::Operator(Operator::Add),
        ]
    );

    assert_eq!(
        tokenize("(a+b)*c"),
        vec![
            Token::Operand("a".to_string()),
            Token::Operand("b".to_string()),
            Token::Operator(Operator::Add),
            Token::Operand("c".to_string()),
            Token::Operator(Operator::Mult),
        ]
    );

    assert_eq!(
        tokenize("a+b*c-d/e^f"),
        vec![
            Token::Operand("a".to_string()),
            Token::Operand("b".to_string()),
            Token::Operand("c".to_string()),
            Token::Operator(Operator::Mult),
            Token::Operator(Operator::Add),
            Token::Operand("d".to_string()),
            Token::Operand("e".to_string()),
            Token::Operand("f".to_string()),
            Token::Operator(Operator::Pow),
            Token::Operator(Operator::Div),
            Token::Operator(Operator::Sub),
        ]
    );

    assert_eq!(
        tokenize("a.3+b.2*c.1-d/e^f"),
        vec![
            Token::Operand("a.3".to_string()),
            Token::Operand("b.2".to_string()),
            Token::Operand("c.1".to_string()),
            Token::Operator(Operator::Mult),
            Token::Operator(Operator::Add),
            Token::Operand("d".to_string()),
            Token::Operand("e".to_string()),
            Token::Operand("f".to_string()),
            Token::Operator(Operator::Pow),
            Token::Operator(Operator::Div),
            Token::Operator(Operator::Sub),
        ]
    );

    assert_eq!(
        tokenize("a^(1/2)"),
        vec![
            Token::Operand("a".to_string()),
            Token::Operand("1".to_string()),
            Token::Operand("2".to_string()),
            Token::Operator(Operator::Div),
            Token::Operator(Operator::Pow),
        ]
    );

    assert_eq!(
        tokenize("aE10*2"),
        vec![
            Token::Operand("a".to_string()),
            Token::Operand("10".to_string()),
            Token::Operator(Operator::Exp),
            Token::Operand("2".to_string()),
            Token::Operator(Operator::Mult),
        ]
    );

    assert_eq!(
        tokenize("a%2 + 3"),
        vec![
            Token::Operand("a".to_string()),
            Token::Operand("2".to_string()),
            Token::Operator(Operator::Mod),
            Token::Operand("3".to_string()),
            Token::Operator(Operator::Add),
        ]
    );
}

#[test]
fn sum_of_two() {
    assert_eq!(written(&tokenize("a+b")), "a b +");
    assert_eq!(tokenize("a+b"), vec![operand("a"), operand("b"), operator(Operator::Add)]);
}

#[test]
fn product_binds_tighter_than_sum() {
    assert_eq!(written(&tokenize("a+b*c")), "a b c * +");
    assert_eq!(written(&tokenize("a*b+c")), "a b * c +");
}

#[test]
fn power_binds_tightest() {
    assert_eq!(written(&tokenize("a*b^c")), "a b c ^ *");
    assert_eq!(written(&tokenize("a^b*c")), "a b ^ c *");
    assert_eq!(written(&tokenize("a+b^c")), "a b c ^ +");
    assert_eq!(written(&tokenize("a+b*c^d")), "a b c d ^ * +");
    assert_eq!(written(&tokenize("a^b*c+d")), "a b ^ c * d +");
}

#[test]
fn one_rank_goes_from_left_to_right() {
    assert_eq!(written(&tokenize("a-b-c")), "a b - c -");
    assert_eq!(written(&tokenize("a-b+c")), "a b - c +");
    assert_eq!(written(&tokenize("a/b*c")), "a b / c *");
    assert_eq!(written(&tokenize("a%bEc/d")), "a b % c E d /");
    assert_eq!(written(&tokenize("a^b^c")), "a b ^ c ^");
}

#[test]
fn parentheses_come_first() {
    assert_eq!(written(&tokenize("(a+b)*c")), "a b + c *");
    assert_eq!(written(&tokenize("a*(b+c)")), "a b c + *");
    assert_eq!(written(&tokenize("(a+b)^(c-d)")), "a b + c d - ^");
    assert_eq!(written(&tokenize("a-(b-c)")), "a b c - -");
    assert_eq!(written(&tokenize("a^(b^c)")), "a b c ^ ^");
    assert_eq!(written(&tokenize("((a))")), "a");
    assert_eq!(written(&tokenize("((a+b))*((c))")), "a b + c *");
    assert_eq!(written(&tokenize("(a+b*(c-d))/e")), "a b c d - * + e /");
}

#[test]
fn single_operand() {
    assert_eq!(tokenize("5"), vec![operand("5")]);
    assert_eq!(tokenize("3.25"), vec![operand("3.25")]);
    assert_eq!(tokenize("abc"), vec![operand("abc")]);
}

#[test]
fn empty_expression() {
    assert_eq!(tokenize(""), Vec::<Token>::new());
    assert_eq!(tokenize("   "), Vec::<Token>::new());
    assert_eq!(tokenize("()"), Vec::<Token>::new());
}

#[test]
fn white_space_is_dropped() {
    assert_eq!(written(&tokenize(" a + b ")), "a b +");
    assert_eq!(written(&tokenize("a\t+\nb")), "a b +");
    assert_eq!(written(&tokenize("1 2 + 3")), "12 3 +");
    assert_eq!(written(&tokenize("a\u{00A0}*\u{2003}b\u{3000}")), "a b *");
    assert_eq!(tokenize("1 0 / ( 2 + 3 )"), tokenize("10/(2+3)"));
}

#[test]
fn white_space_is_what_char_says() {
    let near = 0..0x3100u32;
    let far = (0x3100..=0x10FFFFu32).step_by(101);
    for code in near.chain(far) {
        if let Some(c) = char::from_u32(code) {
            let text: String = ['1', c, '2'].iter().collect();
            let tokens = tokenize(&text);
            if c.is_whitespace() {
                assert_eq!(tokens, vec![operand("12")], "U+{:04X}", code);
            } else if Operator::try_from(c).is_ok() {
                assert!(written(&tokens) != "12", "U+{:04X}", code);
            } else {
                assert_eq!(tokens, vec![Token::Operand(text.clone())], "U+{:04X}", code);
            }
        }
    }
}

#[test]
fn letters_and_other_characters_are_operand_text() {
    assert_eq!(written(&tokenize("x1+rate")), "x1 rate +");
    assert_eq!(written(&tokenize("1e5+2")), "1e5 2 +");
    assert_eq!(written(&tokenize("a=b")), "a=b");
    assert_eq!(written(&tokenize("\u{03C0}*r^2")), "\u{03C0} r 2 ^ *");
}

#[test]
fn capital_e_is_an_operator() {
    assert_eq!(written(&tokenize("2E3")), "2 3 E");
    assert_eq!(written(&tokenize("1+2E3")), "1 2 3 E +");
    assert_eq!(written(&tokenize("2E3^2")), "2 3 2 ^ E");
}

#[test]
fn malformed_expressions_still_give_tokens() {
    assert_eq!(written(&tokenize("+")), "+");
    assert_eq!(written(&tokenize("a+")), "a +");
    assert_eq!(written(&tokenize("+a")), "a +");
    assert_eq!(written(&tokenize("a+*b")), "a b * +");
    assert_eq!(written(&tokenize("a*+b")), "a * b +");
    assert_eq!(written(&tokenize("a b")), "ab");
    assert_eq!(written(&tokenize("(a)(b)")), "a b");
    assert_eq!(written(&tokenize("a(b+c)")), "a b c +");
}

#[test]
fn unbalanced_parentheses() {
    // One closing parenthesis too many: it ends the enclosing pair early.
    assert_eq!(written(&tokenize("a+b)")), "a b +");
    assert_eq!(written(&tokenize("a+b)*c")), "a b + c *");
    assert_eq!(written(&tokenize(")")), "");
    assert_eq!(written(&tokenize("a)+b")), "a b +");
    // One open parenthesis too many: what waits below it stays behind.
    assert_eq!(written(&tokenize("(a+b")), "a b +");
    assert_eq!(written(&tokenize("a*(b+c")), "a b c +");
    assert_eq!(written(&tokenize("(")), "");
    assert_eq!(written(&tokenize("a+(b")), "a b");
}

#[test]
fn no_parenthesis_in_the_output() {
    for text in ["(a+b)*c", "((a))", "a+b)", "(a+b", ")(", "(()", "a*(b+(c-d))^e", "())(()"] {
        for token in tokenize(text) {
            match token {
                Token::Operator(op) => {
                    assert!(!matches!(op, Operator::OpenParen | Operator::CloseParen));
                    assert!(op.precidence() >= 1);
                }
                Token::Operand(text) => {
                    assert!(!text.is_empty());
                    for c in text.chars() {
                        assert!(Operator::try_from(c).is_err());
                        assert!(!c.is_whitespace());
                    }
                }
            }
        }
    }
}

#[test]
fn same_input_same_tokens() {
    for text in ["a+b*c-d/e^f", "(1+2)*3", "", "((", "1 + 2"] {
        let first = tokenize(text);
        let second = tokenize(&text.to_string());
        assert_eq!(written(&first), written(&second));
        assert_eq!(first, second);
    }
}

#[test]
fn operands_keep_their_order() {
    assert_eq!(written(&tokenize("a+b*c-d/e^f")), "a b c * + d e f ^ / -");
    assert_eq!(written(&tokenize("a.3+b.2*c.1-d/e^f")), "a.3 b.2 c.1 * + d e f ^ / -");
    assert_eq!(written(&tokenize("a^(1/2)")), "a 1 2 / ^");
    assert_eq!(written(&tokenize("aE10*2")), "a 10 E 2 *");
    assert_eq!(written(&tokenize("a%2 + 3")), "a 2 % 3 +");
}

#[test]
fn long_operand() {
    let text = "9".repeat(5000);
    assert_eq!(tokenize(&text), vec![Token::Operand(text.clone())]);
    let sum = format!("{}+{}", text, text);
    assert_eq!(
        tokenize(&sum),
        vec![Token::Operand(text.clone()), Token::Operand(text), operator(Operator::Add)]
    );
}

#[test]
fn deep_nesting() {
    let depth = 2000;
    let text = format!("{}a{}", "(".repeat(depth), ")".repeat(depth));
    assert_eq!(tokenize(&text), vec![operand("a")]);
    let chain = vec!["a"; 1000].join("^");
    let tokens = tokenize(&chain);
    assert_eq!(tokens.len(), 1999);
    assert_eq!(written(&tokens[..5]), "a a ^ a ^");
}
