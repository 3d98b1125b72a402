use expression_engine::{
    parse, ExpressionNode, ExpressionNodeType, Number, Operator, TrigonometricFunction,
};

// The library keeps numbers as exact decimal text and leaves floating-point evaluation to its
// caller; the tests evaluate trees with this walk of the tree.
fn evaluate(node: &ExpressionNode, substitute: f64) -> f64 {
    let left = evaluate_operand(&node.left, substitute);
    match &node.right {
        Some(right) => {
            let right = evaluate_operand(right, substitute);
            match node.operator {
                Some(Operator::Substract) => left - right,
                Some(Operator::Add) => left + right,
                Some(Operator::Divide) => left / right,
                Some(Operator::Multiply) => left * right,
                Some(Operator::Modulus) => left % right,
                Some(Operator::Power) => left.powf(right),
                None => left * right,
            }
        }
        None => left,
    }
}

fn evaluate_operand(operand: &ExpressionNodeType, substitute: f64) -> f64 {
    match operand {
        ExpressionNodeType::ValueOperand(n) => n.to_text().parse::<f64>().unwrap(),
        ExpressionNodeType::VariableOperand(_) => substitute,
        ExpressionNodeType::NodeOperand(node) => evaluate(node, substitute),
        ExpressionNodeType::TrigonometricOperand((f, node)) => {
            let v = evaluate(node, substitute);
            match f {
                TrigonometricFunction::Sin => v.sin(),
                TrigonometricFunction::Cos => v.cos(),
                TrigonometricFunction::Tan => v.tan(),
                TrigonometricFunction::Sec => 1.0 / v.cos(),
                TrigonometricFunction::Cosec => 1.0 / v.sin(),
                TrigonometricFunction::Cot => 1.0 / v.tan(),
            }
        }
    }
}

fn value(text: &str) -> ExpressionNodeType {
    ExpressionNodeType::ValueOperand(Number::from_literal(text).unwrap())
}

const PI: f64 = 3.1415926535897932;
const EPSILON: f64 = 0.0000000000000001;
const TEST_MAX: f64 = 1.0e16;

#[test]
fn evaluate_01() {
    let exp = parse("x");
    assert_eq!(exp.is_ok(), true);
    assert_eq!(evaluate(&exp.unwrap(), 0.5), 0.5);
}

#[test]
fn evaluate_1() {
    let exp = parse("x+1");
    assert_eq!(exp.is_ok(), true);
    assert_eq!(evaluate(&exp.unwrap(), 0.5), 1.5);
}

#[test]
fn evaluate_2() {
    let exp = parse("x-1");
    assert_eq!(exp.is_ok(), true);
    assert_eq!(evaluate(&exp.unwrap(), 1.5), 0.5);
}

#[test]
fn evaluate_3() {
    let exp = parse("x*2");
    assert_eq!(exp.is_ok(), true);
    assert_eq!(evaluate(&exp.unwrap(), 1.5), 3.0);
}

#[test]
fn evaluate_4() {
    let exp = parse("x^2");
    assert_eq!(exp.is_ok(), true);
    assert_eq!(evaluate(&exp.unwrap(), 1.5), 2.25);
}

#[test]
fn evaluate_5() {
    let exp = parse("x%3");
    assert_eq!(exp.is_ok(), true);
    assert_eq!(evaluate(&exp.unwrap(), 8.0), 2.0);
}

#[test]
fn evaluate_6() {
    let exp = parse("x+(x^2)");
    assert_eq!(exp.is_ok(), true);
    assert_eq!(evaluate(&exp.unwrap(), 1.5), 3.75);
}

fn trig_of_x(f: TrigonometricFunction) -> ExpressionNode {
    ExpressionNode::new(
        ExpressionNodeType::TrigonometricOperand((
            f,
            Box::new(ExpressionNode::new(
                ExpressionNodeType::VariableOperand('x'),
                None,
                None,
            )),
        )),
        None,
        None,
    )
}

#[test]
fn evaluate_sin() {
    let exp = trig_of_x(TrigonometricFunction::Sin);
    assert_eq!(evaluate(&exp, 0.0), 0.0);
    assert!(evaluate(&exp, PI) < 0.0000000001);
    assert_eq!(evaluate(&exp, PI / 2.0), 1.0);
}

#[test]
fn evaluate_cos() {
    let exp = trig_of_x(TrigonometricFunction::Cos);
    assert_eq!(evaluate(&exp, 0.0), 1.0);
    assert_eq!(evaluate(&exp, PI), -1.0);
    assert!(evaluate(&exp, PI / 2.0) < EPSILON);
}

#[test]
fn evaluate_tan() {
    let exp = trig_of_x(TrigonometricFunction::Tan);
    assert_eq!(evaluate(&exp, 0.0), 0.0);
    assert!(evaluate(&exp, PI) < -EPSILON);
    assert!(evaluate(&exp, PI / 2.0) > TEST_MAX);
}

#[test]
fn evaluate_implicit_multiplication_node() {
    let exp = ExpressionNode::new(value("3"), None, Some(ExpressionNodeType::VariableOperand('x')));
    assert_eq!(evaluate(&exp, 0.25), 0.75);
    assert_eq!(exp.generate_expression(), "3x");
}

#[test]
fn generate_expression_1() {
    let exp = ExpressionNode::new(
        ExpressionNodeType::NodeOperand(Box::new(ExpressionNode::new(
            ExpressionNodeType::VariableOperand('x'),
            Some(Operator::Divide),
            Some(value("100")),
        ))),
        Some(Operator::Add),
        Some(value("3.5")),
    );
    assert_eq!(exp.generate_expression(), "(x/100)+3.5");
    assert_eq!(format!("{}", exp.generate_expression()), "(x/100)+3.5");
}

#[test]
fn generate_expression_2() {
    let exp = ExpressionNode::new(
        ExpressionNodeType::NodeOperand(Box::new(ExpressionNode::new(
            ExpressionNodeType::VariableOperand('x'),
            Some(Operator::Power),
            Some(value("2")),
        ))),
        Some(Operator::Add),
        Some(value("3.5")),
    );
    assert_eq!(exp.generate_expression(), "(x^2)+3.5");
    assert_eq!(format!("{}", exp.generate_expression()), "(x^2)+3.5");
}

#[test]
fn generate_expression_3() {
    let exp = ExpressionNode::new(
        ExpressionNodeType::NodeOperand(Box::new(ExpressionNode::new(
            ExpressionNodeType::VariableOperand('x'),
            Some(Operator::Power),
            Some(value("2")),
        ))),
        Some(Operator::Add),
        Some(ExpressionNodeType::NodeOperand(Box::new(ExpressionNode::new(
            ExpressionNodeType::VariableOperand('x'),
            Some(Operator::Power),
            Some(value("3")),
        )))),
    );
    assert_eq!(exp.generate_expression(), "(x^2)+(x^3)");
    assert_eq!(format!("{}", exp.generate_expression()), "(x^2)+(x^3)");
}

#[test]
fn generate_expression_sin() {
    let exp = trig_of_x(TrigonometricFunction::Sin);
    assert_eq!(exp.generate_expression(), "sin(x)");
    assert_eq!(format!("{}", exp.generate_expression()), "sin(x)");
}

#[test]
fn generate_expression_cos() {
    let exp = trig_of_x(TrigonometricFunction::Cos);
    assert_eq!(exp.generate_expression(), "cos(x)");
    assert_eq!(format!("{}", exp.generate_expression()), "cos(x)");
}

#[test]
fn generate_expression_tan() {
    let exp = ExpressionNode::new(
        ExpressionNodeType::TrigonometricOperand((
            TrigonometricFunction::Tan,
            Box::new(ExpressionNode::new(
                ExpressionNodeType::VariableOperand('x'),
                Some(Operator::Power),
                Some(value("3")),
            )),
        )),
        None,
        None,
    );
    assert_eq!(exp.generate_expression(), "tan(x^3)");
    assert_eq!(format!("{}", exp.generate_expression()), "tan(x^3)");
}

#[test]
fn operand_text_forms() {
    assert_eq!(value("2.50").to_text(), "2.5");
    assert_eq!(ExpressionNodeType::VariableOperand('y').to_text(), "y");
    let cosec = ExpressionNodeType::TrigonometricOperand((
        TrigonometricFunction::Cosec,
        Box::new(ExpressionNode::new(value("1"), None, None)),
    ));
    assert_eq!(cosec.to_text(), "cosec(1)");
}

#[test]
fn reparse_of_printed_tree_evaluates_alike() {
    for text in ["x+(x^2)", "sin(x/2)", "((x))", "x-1+0.5*x", "cos(x)^2%3", "2^x/7"] {
        let tree = parse(text).unwrap();
        let again = parse(&tree.generate_expression()).unwrap();
        assert_eq!(again.generate_expression(), tree.generate_expression());
        for v in [0.0, 0.5, 1.5, -2.25, 3.0] {
            let (a, b) = (evaluate(&tree, v), evaluate(&again, v));
            assert!(a == b || (a.is_nan() && b.is_nan()));
        }
    }
}

#[test]
fn parse_trigonometric_sin() {
    let exp = parse("sin(x/2)");
    assert_eq!(exp.is_ok(), true);
    let exp = exp.unwrap();
    assert_eq!(exp.generate_expression(), "sin(x/2)");
    match &exp.left {
        ExpressionNodeType::TrigonometricOperand((f, arg)) => {
            assert_eq!(*f, TrigonometricFunction::Sin);
            assert_eq!(arg.operator, Some(Operator::Divide));
        }
        _ => assert!(false),
    }
    assert_eq!(evaluate(&exp, 0.0), 0.0);
    assert_eq!(evaluate(&exp, PI), 1.0);
    assert!(evaluate(&exp, PI / 2.0).is_finite());
}

#[test]
fn parse_rank_split_value() {
    // split at `-` (rank 0) although `+` (rank 1) comes first: (x+1)-0.5
    let exp = parse("x+1-0.5").unwrap();
    assert_eq!(evaluate(&exp, 1.0), 1.5);
    // `-` before `+`: split at the `-`, so x-(1+0.5)
    let exp = parse("x-1+0.5").unwrap();
    assert_eq!(evaluate(&exp, 1.0), -0.5);
}

#[test]
fn parse_redundant_parentheses_evaluate_alike() {
    let a = parse("((x))").unwrap();
    let b = parse("x").unwrap();
    for v in [-1.5, 0.0, 0.5, 2.0] {
        assert_eq!(evaluate(&a, v), evaluate(&b, v));
    }
}

#[test]
fn parse_reciprocal_functions() {
    let sec = parse("sec(x)").unwrap();
    assert_eq!(evaluate(&sec, 0.0), 1.0);
    let cosec = parse("cosec(x)").unwrap();
    assert!((evaluate(&cosec, PI / 2.0) - 1.0).abs() < 1e-12);
    let cot = parse("cot(x)").unwrap();
    assert!((evaluate(&cot, PI / 4.0) - 1.0).abs() < 1e-12);
}

#[test]
fn division_by_zero_is_not_an_error() {
    let exp = parse("1/x").unwrap();
    assert!(evaluate(&exp, 0.0).is_infinite());
}
