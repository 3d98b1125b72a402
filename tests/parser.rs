use expression_engine::{
    find_operator, parse, tokenize, ErrorKind, ExpressionNodeType, Operator,
    TrigonometricFunction,
};

#[test]
fn find_operator_01() {
    let tokens = tokenize("x+1").unwrap();
    let res = find_operator(&tokens);
    assert_eq!(res.is_some(), true);
    assert_eq!(res.unwrap().0, 1);
    assert_eq!(res.unwrap().1, Operator::Add);
}

#[test]
fn find_operator_02() {
    let tokens = tokenize("x+1+0.5").unwrap();
    let res = find_operator(&tokens);
    assert_eq!(res.is_some(), true);
    assert_eq!(res.unwrap().0, 1);
    assert_eq!(res.unwrap().1, Operator::Add);
}

#[test]
fn find_operator_03() {
    let tokens = tokenize("x-1+0.5").unwrap();
    let res = find_operator(&tokens);
    assert_eq!(res.is_some(), true);
    assert_eq!(res.unwrap().0, 1);
    assert_eq!(res.unwrap().1, Operator::Substract);
}

#[test]
fn find_operator_04() {
    let tokens = tokenize("x+1-0.5").unwrap();
    let res = find_operator(&tokens);
    assert_eq!(res.is_some(), true);
    assert_eq!(res.unwrap().0, 3);
    assert_eq!(res.unwrap().1, Operator::Substract);
}

#[test]
fn find_operator_05() {
    let tokens = tokenize("x+(1-0.5)").unwrap();
    let res = find_operator(&tokens);
    assert_eq!(res.is_some(), true);
    assert_eq!(res.unwrap().0, 1);
    assert_eq!(res.unwrap().1, Operator::Add);
}

#[test]
fn find_operator_06() {
    let tokens = tokenize("(x+5)+(x-0.5)").unwrap();
    let res = find_operator(&tokens);
    assert_eq!(res.is_some(), true);
    assert_eq!(res.unwrap().0, 5);
    assert_eq!(res.unwrap().1, Operator::Add);
}

#[test]
fn find_operator_none_outside_parentheses() {
    let tokens = tokenize("sin(x+1)").unwrap();
    assert!(find_operator(&tokens).is_none());
    assert!(find_operator(&[]).is_none());
}

#[test]
fn parse_token_1() {
    let exp = parse("x");
    assert_eq!(exp.is_ok(), true);
    let node = exp.unwrap();
    match node.left {
        ExpressionNodeType::VariableOperand(va) => assert_eq!(va, 'x'),
        _ => assert!(false),
    }
    assert!(node.operator.is_none());
    assert!(node.right.is_none());
}

#[test]
fn parse_subtract_split_before_earlier_add() {
    let exp = parse("x+1-0.5").unwrap();
    assert_eq!(exp.operator, Some(Operator::Substract));
    assert_eq!(exp.generate_expression(), "(x+1)-0.5");
}

#[test]
fn parse_equal_ranks_group_to_the_left() {
    let exp = parse("x-1-2").unwrap();
    assert_eq!(exp.generate_expression(), "x-(1-2)");
    let exp = parse("8/4/2").unwrap();
    assert_eq!(exp.generate_expression(), "8/(4/2)");
}

#[test]
fn parse_redundant_parentheses() {
    let a = parse("((x))").unwrap();
    let b = parse("x").unwrap();
    assert_eq!(a.generate_expression(), b.generate_expression());
    assert!(matches!(a.left, ExpressionNodeType::VariableOperand('x')));
    assert!(a.operator.is_none() && a.right.is_none());
}

#[test]
fn parse_parenthesis_errors() {
    assert_eq!(parse("(x").err().unwrap().kind, ErrorKind::InvalidOpenCloseParantheses);
    assert_eq!(parse("").err().unwrap().kind, ErrorKind::Empty);
    assert_eq!(parse("()").err().unwrap().kind, ErrorKind::Empty);
    // the single-flag balance check lets a stray `)` through; the builder then rejects it
    assert_eq!(parse("x)").err().unwrap().kind, ErrorKind::InvalidExpression);
}

#[test]
fn parse_shape_errors() {
    assert_eq!(parse("3x").err().unwrap().kind, ErrorKind::InvalidExpression);
    assert_eq!(parse("x+").err().unwrap().kind, ErrorKind::Empty);
    assert_eq!(parse("-x").err().unwrap().kind, ErrorKind::Empty);
}

#[test]
fn parse_cosec_keyword() {
    let exp = parse("cosec(x)").unwrap();
    match &exp.left {
        ExpressionNodeType::TrigonometricOperand((f, _)) => {
            assert_eq!(*f, TrigonometricFunction::Cosec)
        }
        _ => assert!(false),
    }
    assert_eq!(exp.generate_expression(), "cosec(x)");
}

#[test]
fn parse_lone_tokens_as_variables() {
    let exp = parse("x++").unwrap();
    assert!(matches!(exp.right, Some(ExpressionNodeType::VariableOperand('?'))));
    let exp = parse("sin").unwrap();
    assert!(matches!(exp.left, ExpressionNodeType::VariableOperand('s')));
}

#[test]
fn parse_printed_with_nested_sides() {
    let exp = parse("x*2+sin(x)").unwrap();
    assert_eq!(exp.generate_expression(), "(x*2)+(sin(x))");
    let exp = parse("2^x/7").unwrap();
    assert_eq!(exp.generate_expression(), "(2^x)/7");
}
