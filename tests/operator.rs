use expression_engine::{Operator, TrigonometricFunction};

#[test]
fn compare_in_operatoe() {
    assert_eq!(Operator::Add > Operator::Substract, true);
    assert_eq!(Operator::Substract > Operator::Add, false);
    assert_eq!(Operator::Multiply > Operator::Add, true);
    assert_eq!(Operator::Add > Operator::Multiply, false);
    assert_eq!(Operator::Multiply > Operator::Divide, true);
    assert_eq!(Operator::Divide > Operator::Multiply, false);
    assert_eq!(Operator::Modulus > Operator::Multiply, true);
    assert_eq!(Operator::Multiply > Operator::Modulus, false);
    assert_eq!(Operator::Power > Operator::Modulus, true);
    assert_eq!(Operator::Modulus > Operator::Power, false);
}

#[test]
fn values_in_operatoe() {
    assert_eq!(Operator::Add.value_in_operator(), '+');
    assert_eq!(Operator::Substract.value_in_operator(), '-');
    assert_eq!(Operator::Multiply.value_in_operator(), '*');
    assert_eq!(Operator::Divide.value_in_operator(), '/');
    assert_eq!(Operator::Modulus.value_in_operator(), '%');
    assert_eq!(Operator::Power.value_in_operator(), '^');
}

#[test]
fn operator_from() {
    assert_eq!(
        Operator::from("+").is_some_and(|op| op == Operator::Add),
        true
    );
    assert_eq!(
        Operator::from("-").is_some_and(|op| op == Operator::Substract),
        true
    );
    assert_eq!(
        Operator::from("*").is_some_and(|op| op == Operator::Multiply),
        true
    );
    assert_eq!(
        Operator::from("/").is_some_and(|op| op == Operator::Divide),
        true
    );
    assert_eq!(
        Operator::from("^").is_some_and(|op| op == Operator::Power),
        true
    );
    assert_eq!(
        Operator::from("%").is_some_and(|op| op == Operator::Modulus),
        true
    );
    assert_eq!(Operator::from("?").is_none(), true);
}

#[test]
fn operator_from_rejects_longer_text() {
    assert!(Operator::from("++").is_none());
    assert!(Operator::from("").is_none());
    assert!(Operator::from_char('x').is_none());
    assert_eq!(Operator::from_char('^'), Some(Operator::Power));
}

#[test]
fn rank_table_is_explicit() {
    assert_eq!(Operator::Substract.rank(), 0);
    assert_eq!(Operator::Add.rank(), 1);
    assert_eq!(Operator::Divide.rank(), 2);
    assert_eq!(Operator::Multiply.rank(), 3);
    assert_eq!(Operator::Modulus.rank(), 4);
    assert_eq!(Operator::Power.rank(), 5);
    assert!(Operator::Substract < Operator::Add);
    assert!(Operator::Add <= Operator::Add);
}

#[test]
fn trigonometric_names() {
    assert_eq!(TrigonometricFunction::from("cosec"), Some(TrigonometricFunction::Cosec));
    assert_eq!(TrigonometricFunction::from("cos"), Some(TrigonometricFunction::Cos));
    assert_eq!(TrigonometricFunction::from("sin"), Some(TrigonometricFunction::Sin));
    assert_eq!(TrigonometricFunction::from("tan"), Some(TrigonometricFunction::Tan));
    assert_eq!(TrigonometricFunction::from("sec"), Some(TrigonometricFunction::Sec));
    assert_eq!(TrigonometricFunction::from("cot"), Some(TrigonometricFunction::Cot));
    assert_eq!(TrigonometricFunction::from("co"), None);
    assert_eq!(TrigonometricFunction::from("sine"), None);
    assert_eq!(TrigonometricFunction::Cosec.name(), "cosec");
}
