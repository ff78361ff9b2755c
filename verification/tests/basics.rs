use std::collections::HashMap;
use std::str::FromStr;

use nerdle::constraint::{range_intersect, EquationConstraint};
use nerdle::eq::Equation;
use nerdle::eqgen::are_ops_ok;
use nerdle::expr::{
    ExpressionNumber, ExpressionOperator, ExpressionOperatorDivide, ExpressionOperatorEnum,
    ExpressionOperatorMinus, ExpressionOperatorPlus, ExpressionOperatorTimes,
};
use nerdle::nerdle::NerdleResult;
use nerdle::nerdsolver::NerdleSolver;
use nerdle::util::{num_digits, range_rand_or_only};

fn describe(constraint: &EquationConstraint) -> String {
    format!(
        "{}-{} Operator(s), a: {}..={}, b: {}..={}, b2: {}..={}, c: {}..={}",
        constraint.num_ops.start(),
        constraint.num_ops.end(),
        constraint.a_constraint.range.start(),
        constraint.a_constraint.range.end(),
        constraint.b_constraint.range.start(),
        constraint.b_constraint.range.end(),
        constraint.b2_constraint.range.start(),
        constraint.b2_constraint.range.end(),
        constraint.c_constraint.range.start(),
        constraint.c_constraint.range.end(),
    )
}

#[test]
fn range_intersect_test() {
    assert_eq!(range_intersect(&(0..=1), &(0..=1)), 0..=1);
    assert_eq!(range_intersect(&(0..=10), &(5..=15)), 5..=10);
    assert_eq!(range_intersect(&(0..=10), &(10..=15)), 10..=10);
    assert!(range_intersect(&(0..=10), &(15..=20)).is_empty());
}

#[test]
fn are_ops_ok_test() {
    // Simple cases with no constraints
    assert!(are_ops_ok(
        &ExpressionOperatorEnum::Plus,
        &None,
        &EquationConstraint::default(),
        1
    ));
    assert!(are_ops_ok(
        &ExpressionOperatorEnum::Minus,
        &None,
        &EquationConstraint::default(),
        1
    ));
    assert!(are_ops_ok(
        &ExpressionOperatorEnum::Divide,
        &None,
        &EquationConstraint::default(),
        1
    ));
    assert!(are_ops_ok(
        &ExpressionOperatorEnum::Times,
        &None,
        &EquationConstraint::default(),
        1
    ));

    // Simple cases where operators meet constraints
    assert!(are_ops_ok(
        &ExpressionOperatorEnum::Plus,
        &None,
        &EquationConstraint {
            operator: HashMap::from([('+' as u8, 1..=1)]),
            ..Default::default()
        },
        1
    ));

    assert!(are_ops_ok(
        &ExpressionOperatorEnum::Minus,
        &None,
        &EquationConstraint {
            operator: HashMap::from([('-' as u8, 1..=1)]),
            ..Default::default()
        },
        1
    ));

    assert!(are_ops_ok(
        &ExpressionOperatorEnum::Divide,
        &None,
        &EquationConstraint {
            operator: HashMap::from([('/' as u8, 1..=1)]),
            ..Default::default()
        },
        1
    ));

    assert!(are_ops_ok(
        &ExpressionOperatorEnum::Times,
        &None,
        &EquationConstraint {
            operator: HashMap::from([('*' as u8, 1..=1)]),
            ..Default::default()
        },
        1
    ));

    // Must appear once, and appears in second operator
    assert!(are_ops_ok(
        &ExpressionOperatorEnum::Minus,
        &Some(ExpressionOperatorEnum::Plus),
        &EquationConstraint {
            operator: HashMap::from([('+' as u8, 1..=1)]),
            ..Default::default()
        },
        1
    ));

    assert!(are_ops_ok(
        &ExpressionOperatorEnum::Plus,
        &Some(ExpressionOperatorEnum::Minus),
        &EquationConstraint {
            operator: HashMap::from([('-' as u8, 1..=1)]),
            ..Default::default()
        },
        1
    ));

    assert!(are_ops_ok(
        &ExpressionOperatorEnum::Plus,
        &Some(ExpressionOperatorEnum::Divide),
        &EquationConstraint {
            operator: HashMap::from([('/' as u8, 1..=1)]),
            ..Default::default()
        },
        1
    ));

    assert!(are_ops_ok(
        &ExpressionOperatorEnum::Plus,
        &Some(ExpressionOperatorEnum::Times),
        &EquationConstraint {
            operator: HashMap::from([('*' as u8, 1..=1)]),
            ..Default::default()
        },
        1
    ));

    // Must appear twice, and does
    assert!(are_ops_ok(
        &ExpressionOperatorEnum::Plus,
        &Some(ExpressionOperatorEnum::Plus),
        &EquationConstraint {
            operator: HashMap::from([('+' as u8, 2..=2)]),
            ..Default::default()
        },
        1
    ));

    assert!(are_ops_ok(
        &ExpressionOperatorEnum::Minus,
        &Some(ExpressionOperatorEnum::Minus),
        &EquationConstraint {
            operator: HashMap::from([('-' as u8, 2..=2)]),
            ..Default::default()
        },
        1
    ));

    assert!(are_ops_ok(
        &ExpressionOperatorEnum::Divide,
        &Some(ExpressionOperatorEnum::Divide),
        &EquationConstraint {
            operator: HashMap::from([('/' as u8, 2..=2)]),
            ..Default::default()
        },
        1
    ));

    assert!(are_ops_ok(
        &ExpressionOperatorEnum::Times,
        &Some(ExpressionOperatorEnum::Times),
        &EquationConstraint {
            operator: HashMap::from([('*' as u8, 2..=2)]),
            ..Default::default()
        },
        1
    ));

    // Operator does not appear but must
    assert!(!are_ops_ok(
        &ExpressionOperatorEnum::Plus,
        &None,
        &EquationConstraint {
            operator: HashMap::from([('-' as u8, 1..=1)]),
            ..Default::default()
        },
        1
    ));

    // Operator appears but must not
    assert!(!are_ops_ok(
        &ExpressionOperatorEnum::Plus,
        &Some(ExpressionOperatorEnum::Minus),
        &EquationConstraint {
            operator: HashMap::from([('+' as u8, 0..=0)]),
            ..Default::default()
        },
        1
    ));

    assert!(!are_ops_ok(
        &ExpressionOperatorEnum::Plus,
        &Some(ExpressionOperatorEnum::Minus),
        &EquationConstraint {
            operator: HashMap::from([('-' as u8, 0..=0)]),
            ..Default::default()
        },
        1
    ));

    // Operator appears once but must appear twice
    assert!(!are_ops_ok(
        &ExpressionOperatorEnum::Plus,
        &Some(ExpressionOperatorEnum::Minus),
        &EquationConstraint {
            operator: HashMap::from([('-' as u8, 2..=2)]),
            ..Default::default()
        },
        1
    ));

    assert!(!are_ops_ok(
        &ExpressionOperatorEnum::Plus,
        &Some(ExpressionOperatorEnum::Minus),
        &EquationConstraint {
            operator: HashMap::from([('+' as u8, 2..=2)]),
            ..Default::default()
        },
        1
    ));
}

#[test]
fn simple_int_test() {
    {
        let a = ExpressionNumber::new(10);
        assert!(a.is_int());
        assert_eq!(a.int_value().unwrap(), 10);
        assert_eq!(a.len().unwrap(), 2);
    }
    {
        let a = ExpressionNumber::new(1);
        assert!(a.is_int());
        assert_eq!(a.int_value().unwrap(), 1);
        assert_eq!(a.len().unwrap(), 1);
    }

    {
        let a = ExpressionNumber::new(0);
        assert!(a.is_int());
        assert_eq!(a.int_value().unwrap(), 0);
        assert_eq!(a.len().unwrap(), 1);
    }

    {
        let a = ExpressionNumber::new(-1);
        assert!(a.is_int());
        assert_eq!(a.int_value().unwrap(), -1);
        assert_eq!(a.len().unwrap(), 2);
    }

    {
        let a = ExpressionNumber::new(-10);
        assert!(a.is_int());
        assert_eq!(a.int_value().unwrap(), -10);
        assert_eq!(a.len().unwrap(), 3);
    }
}

#[test]
fn simple_frac_test() {
    {
        let a = ExpressionNumber {
            numerator: 1,
            denominator: 2,
        };
        assert!(!a.is_int());
        assert!(a.int_value().is_err());
        assert!(a.len().is_err());
    }
}

#[test]
fn simplify_test() {
    {
        let a = ExpressionNumber {
            numerator: 144,
            denominator: 12,
        };
        assert!(!a.is_int());
        assert!(a.int_value().is_err());
        assert!(a.len().is_err());

        let s = a.simplify();
        assert!(s.is_int());
        assert_eq!(s.int_value().unwrap(), 12);
        assert_eq!(s.len().unwrap(), 2);
    }
}

#[test]
fn add_int_test() {
    let plus = ExpressionOperatorPlus {};
    {
        let a = ExpressionNumber::new(10);
        let b = ExpressionNumber::new(2);
        let c = plus.operate(&a, &b).unwrap();
        assert_eq!(c.int_value().unwrap(), 12);
    }
}

#[test]
fn add_frac_test() {
    let plus = ExpressionOperatorPlus {};
    {
        let a = ExpressionNumber::new(10);
        let b = ExpressionNumber {
            numerator: 1,
            denominator: 2,
        };
        assert!(plus.operate(&a, &b).is_err());
    }
}

#[test]
fn sub_int_test() {
    let minus = ExpressionOperatorMinus {};
    {
        let a = ExpressionNumber::new(10);
        let b = ExpressionNumber::new(2);
        let c = minus.operate(&a, &b).unwrap();
        assert_eq!(c.int_value().unwrap(), 8);
    }
}

#[test]
fn sub_frac_test() {
    let minus = ExpressionOperatorMinus {};
    {
        let a = ExpressionNumber::new(10);
        let b = ExpressionNumber {
            numerator: 1,
            denominator: 2,
        };
        assert!(minus.operate(&a, &b).is_err());
    }
}

#[test]
fn mul_int_test() {
    let times = ExpressionOperatorTimes {};
    {
        let a = ExpressionNumber::new(10);
        let b = ExpressionNumber::new(2);
        let c = times.operate(&a, &b).unwrap();
        assert_eq!(c.int_value().unwrap(), 20);
    }
}

#[test]
fn mul_frac_test() {
    let times = ExpressionOperatorTimes {};
    {
        let a = ExpressionNumber::new(10);
        let b = ExpressionNumber {
            numerator: 1,
            denominator: 2,
        };
        let c = times.operate(&a, &b).unwrap();
        assert_eq!(c.int_value().unwrap(), 5);
    }
}

#[test]
fn div_int_test() {
    let divide = ExpressionOperatorDivide {};
    {
        let a = ExpressionNumber::new(10);
        let b = ExpressionNumber::new(2);
        let c = divide.operate(&a, &b).unwrap();
        assert_eq!(c.int_value().unwrap(), 5);
    }
}

#[test]
fn div_frac_test() {
    let divide = ExpressionOperatorDivide {};
    {
        let a = ExpressionNumber::new(10);
        let b = ExpressionNumber {
            numerator: 1,
            denominator: 2,
        };
        let c = divide.operate(&a, &b).unwrap();
        assert_eq!(c.int_value().unwrap(), 20);
    }

    {
        let a = ExpressionNumber::new(1);
        let b = ExpressionNumber::new(2);
        let c = divide.operate(&a, &b).unwrap();
        assert_eq!(c.numerator, 1);
        assert_eq!(c.denominator, 2);
        assert!(!c.is_int());
        assert!(c.int_value().is_err());

        let d = divide
            .operate(
                &c,
                &ExpressionNumber {
                    numerator: 1,
                    denominator: 4,
                },
            )
            .unwrap();
        assert!(d.is_int());
        assert_eq!(d.int_value().unwrap(), 2);
    }
}

#[test]
fn regression_test_1() {
    let mut solver = NerdleSolver::new();
    solver.update(
        &Equation::from_str("104-9=95").unwrap(),
        &NerdleResult::from_str("--Y--G-Y").unwrap(),
    );
    solver.update(
        &Equation::from_str("385/5=77").unwrap(),
        &NerdleResult::from_str("--Y--GYY").unwrap(),
    );
    let constraint = solver.constraint();
    println!("Eq Constraint: {}", describe(&constraint));
    assert!(solver
        .constraint()
        .accept(&Equation::from_str("42+24=66").unwrap())
        .is_err());
}

#[test]
fn regex_for_digits_test_1() {
    let mut solver = NerdleSolver::new();
    solver.update(
        &Equation::from_str("62+28=90").unwrap(),
        &NerdleResult::from_str("YG-YYY--").unwrap(),
    );
    let regex = solver.regex_for_digits_at(0, 4, true).unwrap();
    println!("Regex: {}", regex);
    assert!(!regex.is_match("23"));
    assert!(!regex.is_match("6"));
    assert!(!regex.is_match("41"));

    assert!(regex.is_match("3"));
    assert!(regex.is_match("32"));
    assert!(regex.is_match("321"));
    assert!(regex.is_match("3217"));
}

#[test]
fn range_rand_or_only_test() {
    assert_eq!(3, range_rand_or_only(3..=3).unwrap());
    for _i in 0..100 {
        let x = range_rand_or_only(1..=10).unwrap();
        assert!((1..=10).contains(&x));
    }
    assert!(!range_rand_or_only(3..=2).is_ok());
}

#[test]
fn num_digits_test() {
    for i in 0..=9 {
        assert_eq!(1, num_digits(i));
    }
    for i in 10..=99 {
        assert_eq!(2, num_digits(i));
    }
    for i in 100..=999 {
        assert_eq!(3, num_digits(i));
    }
    for i in 1000..=9999 {
        assert_eq!(4, num_digits(i));
    }
}
