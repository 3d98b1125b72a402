use expression_engine::{
    tokenize, trim_parantheses, validate, ErrorKind, Number, Operator, Parenthesis, Token,
    TrigonometricFunction,
};

fn check_tokens(tokens: &[Token], expected: &[&str]) {
    for (i, token) in tokens.iter().enumerate() {
        match token {
            Token::Number(num) => assert_eq!(
                num.to_text().parse::<f64>().unwrap(),
                expected[i].parse::<f64>().unwrap()
            ),
            Token::Operator(op) => assert_eq!(op.value_in_operator().to_string(), expected[i]),
            Token::Variable(v) => assert_eq!(v, expected[i]),
            Token::Parenthesis(Parenthesis::Open) => assert_eq!("(", expected[i]),
            Token::Parenthesis(Parenthesis::Close) => assert_eq!(")", expected[i]),
            Token::Trigonometric(tr) => assert_eq!(tr.name(), expected[i]),
        }
    }
}

#[test]
fn trim_parantheses_011() {
    let tokens_before_trim = tokenize("((x))").unwrap();
    let tokens = trim_parantheses(&tokens_before_trim);
    let expected = vec!["x"];
    assert_eq!(expected.len(), tokens.len());
    check_tokens(&tokens, &expected);
}

#[test]
fn trim_parantheses_012() {
    let tokens_before_trim = tokenize("((3x))").unwrap();
    let tokens = trim_parantheses(&tokens_before_trim);
    let expected = vec!["3", "x"];
    assert_eq!(expected.len(), tokens.len());
    check_tokens(&tokens, &expected);
}

#[test]
fn trim_parantheses_02() {
    let tokens_before_trim = tokenize("(x*3.125)").unwrap();
    let tokens = trim_parantheses(&tokens_before_trim);
    let expected = vec!["x", "*", "3.125"];
    assert_eq!(expected.len(), tokens.len());
    check_tokens(&tokens, &expected);
}

#[test]
fn trim_parantheses_03() {
    let tokens_before_trim = tokenize("((x*3.125))").unwrap();
    let tokens = trim_parantheses(&tokens_before_trim);
    let expected = vec!["x", "*", "3.125"];
    assert_eq!(expected.len(), tokens.len());
    check_tokens(&tokens, &expected);
}

#[test]
fn trim_parantheses_04() {
    let tokens_before_trim = tokenize("((3x)+(x^2))").unwrap();
    let tokens = trim_parantheses(&tokens_before_trim);
    let expected = vec!["(", "3", "x", ")", "+", "(", "x", "^", "2", ")"];
    assert_eq!(expected.len(), tokens.len());
    check_tokens(&tokens, &expected);
}

#[test]
fn trim_keeps_pair_whose_interior_is_unbalanced() {
    let tokens_before_trim = tokenize("(x)+(y)").unwrap();
    let tokens = trim_parantheses(&tokens_before_trim);
    assert_eq!(tokens.len(), 7);
    let empty = tokenize("()").unwrap();
    assert_eq!(trim_parantheses(&empty).len(), 2);
}

#[test]
fn test_tokenize_01() {
    let expected = vec!["x"];
    let tokens = tokenize("x").unwrap();
    assert_eq!(expected.len(), tokens.len());
    for (i, token) in tokens.iter().enumerate() {
        match token {
            Token::Variable(v) => assert_eq!(v, expected[i]),
            _ => assert!(false),
        }
    }
}

#[test]
fn test_tokenize_02() {
    let expected = vec!["3"];
    let tokens = tokenize("3").unwrap();
    assert_eq!(expected.len(), tokens.len());
    for (i, token) in tokens.iter().enumerate() {
        match token {
            Token::Number(num) => assert_eq!(
                num.to_text().parse::<f64>().unwrap(),
                expected[i].parse::<f64>().unwrap()
            ),
            _ => assert!(false),
        }
    }
}

#[test]
fn test_tokenize_03() {
    let expected = vec!["3", "x"];
    let tokens = tokenize("3x").unwrap();
    assert_eq!(expected.len(), tokens.len());
    for (i, token) in tokens.iter().enumerate() {
        match token {
            Token::Number(num) => assert_eq!(
                num.to_text().parse::<f64>().unwrap(),
                expected[i].parse::<f64>().unwrap()
            ),
            Token::Variable(v) => assert_eq!(v, expected[i]),
            _ => assert!(false),
        }
    }
}

#[test]
fn test_tokenize_1() {
    let expected = vec![
        "(", "x", "*", "3", ")", "+", "3", "*", "(", "x", "*", "2", ")",
    ];
    let tokens = tokenize("(x*3) + 3 * (x*2)").unwrap();
    assert_eq!(expected.len(), tokens.len());
    check_tokens(&tokens, &expected);
}

#[test]
fn test_tokenize_2() {
    let expected = vec![
        "(", "x", "*", "3.125", ")", "+", "3", "*", "(", "x", "*", "2.75", ")",
    ];
    let tokens = tokenize("(x*3.125) + 3 * (x*2.75)").unwrap();
    println!("expected {:?}", expected);
    println!("tokens {:?}", tokens);
    check_tokens(&tokens, &expected);
}

#[test]
fn test_tokenize_3_0() {
    let expected = vec!["sin", "(", "x", ")"];
    let tokens = tokenize("sin(x)").unwrap();
    println!("expected {:?}", expected);
    println!("tokens {:?}", tokens);
    check_tokens(&tokens, &expected);
}

#[test]
fn test_tokenize_3_1() {
    let expected = vec!["cos", "(", "x", ")"];
    let tokens = tokenize("cos(x)").unwrap();
    println!("expected {:?}", expected);
    println!("tokens {:?}", tokens);
    check_tokens(&tokens, &expected);
}

#[test]
fn test_tokenize_3_2() {
    let expected = vec!["cot", "(", "x", ")"];
    let tokens = tokenize("cot(x)").unwrap();
    println!("expected {:?}", expected);
    println!("tokens {:?}", tokens);
    check_tokens(&tokens, &expected);
}

#[test]
fn tokenize_cosec_is_one_keyword() {
    let tokens = tokenize("cosec(x)").unwrap();
    assert_eq!(tokens.len(), 4);
    assert!(matches!(tokens[0], Token::Trigonometric(TrigonometricFunction::Cosec)));
    check_tokens(&tokens, &["cosec", "(", "x", ")"]);
}

#[test]
fn tokenize_skips_unknown_characters() {
    let tokens = tokenize("x ? 1 # + é").unwrap();
    check_tokens(&tokens, &["x", "1", "+"]);
    assert_eq!(tokens.len(), 3);
}

#[test]
fn tokenize_identifiers_and_keyword_prefixes() {
    let tokens = tokenize("sinx+x2_y").unwrap();
    check_tokens(&tokens, &["sin", "x", "+", "x2_y"]);
    assert_eq!(tokens.len(), 4);
}

#[test]
fn tokenize_numbers_in_canonical_form() {
    let tokens = tokenize("007.250 2.0 3. .5 1.5.3").unwrap();
    let texts: Vec<String> = tokens
        .iter()
        .filter_map(|t| match t {
            Token::Number(n) => Some(n.to_text()),
            _ => None,
        })
        .collect();
    assert_eq!(texts, vec!["7.25", "2", "3", "5", "1.5", "3"]);
}

#[test]
fn number_from_literal() {
    assert_eq!(Number::from_literal("3.125").unwrap().to_text(), "3.125");
    assert_eq!(Number::from_literal("100").unwrap().to_text(), "100");
    assert_eq!(Number::from_literal("0.000").unwrap().to_text(), "0");
    assert!(Number::from_literal("3.").is_none());
    assert!(Number::from_literal("x").is_none());
    assert!(Number::from_literal("").is_none());
}

#[test]
fn tokenize_operators_are_typed() {
    let tokens = tokenize("1-2").unwrap();
    assert!(matches!(tokens[1], Token::Operator(Operator::Substract)));
}

#[test]
fn test_validate_ok() {
    let tokens = vec![
        Token::Parenthesis(Parenthesis::Open),
        Token::Variable(String::from("x")),
        Token::Parenthesis(Parenthesis::Close),
    ];
    let tokens_ref = tokens.as_slice();
    assert_eq!(validate(tokens_ref).is_ok(), true);
}

#[test]
fn test_validate_err() {
    let tokens = vec![
        Token::Parenthesis(Parenthesis::Close),
        Token::Operator(Operator::Add),
        Token::Parenthesis(Parenthesis::Open),
    ];
    let tokens_ref = tokens.as_slice();
    assert_eq!(validate(tokens_ref).is_ok(), false);
}

#[test]
fn validate_error_kinds() {
    let open = tokenize("(x").unwrap();
    assert_eq!(validate(&open).unwrap_err().kind, ErrorKind::InvalidOpenCloseParantheses);
    let empty = tokenize("()").unwrap();
    assert_eq!(validate(&empty).unwrap_err().kind, ErrorKind::Empty);
    let nothing = tokenize("").unwrap();
    assert_eq!(validate(&nothing).unwrap_err().kind, ErrorKind::Empty);
    // a stray `)` does not trip the single-flag balance check
    let stray = tokenize("x)").unwrap();
    assert!(validate(&stray).is_ok());
}
