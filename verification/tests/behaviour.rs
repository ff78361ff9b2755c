use std::collections::HashMap;
use std::str::FromStr;

use nerdle::constraint::{
    find_num_with_constraint, range_for_digits, range_for_digits_or_less, EquationConstraint,
    ExpressionNumberConstraint, NoMatchKind, NumberAcceptor,
};
use nerdle::eq::{Equation, EquationErrorKind};
use nerdle::eqgen::{
    assemble, digits_left, eqgen, eqgen_constrained, first_operand_range, gen_ops, op2op,
    operator_of_index,
};
use nerdle::expr::{
    mknum, Expression, ExpressionErrorKind, ExpressionNumber, ExpressionOperator,
    ExpressionOperatorDivide, ExpressionOperatorEnum, ExpressionOperatorMinus,
    ExpressionOperatorPlus, ExpressionOperatorTimes, ExpressionPart,
};
use nerdle::nerdle::{
    nerdle, nerdle_str, NerdleErrorKind, NerdlePositionResult, NerdleResult, NERDLE_CHARACTERS,
};
use nerdle::nerdledata::{NerdleCharInfo, NerdleData, NerdleIsChar};
use nerdle::nerdsolver::{plan_layout, NerdleSolver, SlotPlan};
use nerdle::strategy::{Strategy, StrategyEnum};
use nerdle::util::{num_digits, random_between, range_rand_or_only};

fn eq(text: &str) -> Equation {
    Equation::from_str(text).unwrap()
}

fn verdicts(text: &str) -> NerdleResult {
    NerdleResult::from_str(text).unwrap()
}

fn value(text: &str) -> ExpressionNumber {
    Expression::from_str(text).unwrap().calculate().unwrap()
}

fn failure(text: &str) -> ExpressionErrorKind {
    Expression::from_str(text).unwrap().calculate().unwrap_err().kind
}

#[test]
fn round_trip_of_valid_equations() {
    for text in ["12+34=46", "9*9-1=80", "100/4=25", "1+2=3", "0+0=0", "48/6/2=4"] {
        let first = eq(text);
        let printed = first.to_string();
        assert_eq!(printed, text);
        let second = eq(&printed);
        assert_eq!(first, second);
        assert_eq!(first.len().unwrap(), second.len().unwrap());
        assert_eq!(first.len().unwrap(), text.len());
        assert_eq!(first.res, second.res);
    }
}

#[test]
fn a_negative_result_does_not_round_trip() {
    let made = Equation {
        expr: Expression::from_str("10-19").unwrap(),
        res: mknum(-9),
    };
    assert_eq!(made.to_string(), "10-19=-9");
    assert_eq!(made.computes().unwrap(), true);
    assert_eq!(
        Equation::from_str("10-19=-9").unwrap_err().kind,
        EquationErrorKind::ResultNotNumber
    );
}

#[test]
fn parsing_skips_blanks_and_ends_numbers_at_them() {
    let e = Expression::from_str(" 1 2+ 3\n").unwrap();
    assert_eq!(
        e.parts,
        vec![
            ExpressionPart::Number(mknum(1)),
            ExpressionPart::Number(mknum(2)),
            ExpressionPart::Operator(ExpressionOperatorEnum::Plus),
            ExpressionPart::Number(mknum(3)),
        ]
    );
    assert_eq!(Expression::from_str("007").unwrap().parts, vec![ExpressionPart::Number(mknum(7))]);
    assert_eq!(Expression::from_str("").unwrap().parts, vec![]);
}

#[test]
fn parse_errors_name_their_reason() {
    assert_eq!(
        Expression::from_str("1x2").unwrap_err().kind,
        ExpressionErrorKind::UnrecognizedCharacter(b'x')
    );
    assert_eq!(
        Expression::from_str("1=2").unwrap_err().kind,
        ExpressionErrorKind::UnrecognizedCharacter(b'=')
    );
    assert_eq!(
        Expression::from_str("2147483648").unwrap_err().kind,
        ExpressionErrorKind::NumberTooLarge
    );
    assert_eq!(Expression::from_str("2147483647").unwrap().parts.len(), 1);
    assert_eq!(
        ExpressionPart::from_char_byte(&b'?').unwrap_err().kind,
        ExpressionErrorKind::UnrecognizedCharacter(b'?')
    );
    assert_eq!(
        ExpressionOperatorEnum::from_char_byte(&b'7').unwrap_err().kind,
        ExpressionErrorKind::UnrecognizedCharacter(b'7')
    );
    assert_eq!(
        Equation::from_str("1+2").unwrap_err().kind,
        EquationErrorKind::MissingEqualSign
    );
    assert_eq!(
        Equation::from_str("1+2=+").unwrap_err().kind,
        EquationErrorKind::ResultNotNumber
    );
    assert_eq!(
        Equation::from_str("1+2=").unwrap_err().kind,
        EquationErrorKind::ResultNotNumber
    );
    assert_eq!(
        Equation::from_str("1=1=1").unwrap_err().kind,
        EquationErrorKind::TooManyEqualSigns
    );
    assert_eq!(
        Equation::from_str("1x=2").unwrap_err().kind,
        EquationErrorKind::Expression(ExpressionErrorKind::UnrecognizedCharacter(b'x'))
    );
    assert_eq!(
        Equation::from_str("1=2y").unwrap_err().kind,
        EquationErrorKind::Expression(ExpressionErrorKind::UnrecognizedCharacter(b'y'))
    );
}

#[test]
fn operators_know_their_characters() {
    for (byte, op) in [
        (b'+', ExpressionOperatorEnum::Plus),
        (b'-', ExpressionOperatorEnum::Minus),
        (b'*', ExpressionOperatorEnum::Times),
        (b'/', ExpressionOperatorEnum::Divide),
    ] {
        assert_eq!(ExpressionOperatorEnum::from_char_byte(&byte).unwrap(), op);
        assert_eq!(op.to_char_byte(), byte);
        assert_eq!(op.to_char(), byte as char);
        assert_eq!(op2op(&op), ExpressionPart::Operator(op));
        assert_eq!(ExpressionPart::from_char_byte(&byte).unwrap(), ExpressionPart::Operator(op));
        assert_eq!(ExpressionPart::Operator(op).len().unwrap(), 1);
    }
    assert_eq!(ExpressionOperatorEnum::Plus.precedence(), 1);
    assert_eq!(ExpressionOperatorEnum::Minus.precedence(), 1);
    assert_eq!(ExpressionOperatorEnum::Times.precedence(), 0);
    assert_eq!(ExpressionOperatorEnum::Divide.precedence(), 0);
    assert_eq!(ExpressionOperatorPlus {}.as_char(), '+');
    assert_eq!(ExpressionOperatorMinus {}.as_char_byte(), b'-');
    assert_eq!(ExpressionOperatorTimes {}.precedence(), 0);
    assert_eq!(ExpressionOperatorDivide {}.len().unwrap(), 1);
    assert_eq!(ExpressionOperatorPlus {}.precedence(), 1);
}

#[test]
fn evaluation_respects_precedence() {
    assert_eq!(value("2+3*4"), mknum(14));
    assert_eq!(value("2*3+4"), mknum(10));
    assert_eq!(value("10-4-3"), mknum(3));
    assert_eq!(value("48/6/2"), mknum(4));
    assert_eq!(value("1/2*4"), mknum(2));
    assert_eq!(value("7"), mknum(7));
    assert_eq!(value("3-5"), mknum(-2));
    assert_eq!(value("1+6/3-2*2"), mknum(-1));
    assert_eq!(value("7/2"), ExpressionNumber { numerator: 7, denominator: 2 });
    assert_eq!(value("6/4"), ExpressionNumber { numerator: 3, denominator: 2 });
}

#[test]
fn evaluation_errors_name_their_reason() {
    assert_eq!(failure(""), ExpressionErrorKind::EndedEarly);
    assert_eq!(failure("1+"), ExpressionErrorKind::EndedEarly);
    assert_eq!(failure("+1"), ExpressionErrorKind::ExpectedNumber);
    assert_eq!(failure("1++2"), ExpressionErrorKind::ExpectedNumber);
    assert_eq!(failure("1 2"), ExpressionErrorKind::ExpectedOperator);
    assert_eq!(failure("1/2+1"), ExpressionErrorKind::NotInteger);
    assert_eq!(failure("3-1/2"), ExpressionErrorKind::NotInteger);
    assert_eq!(failure("99999*99999"), ExpressionErrorKind::Overflow);
    assert_eq!(failure("2147483647+1"), ExpressionErrorKind::Overflow);
    assert_eq!(failure("0-2147483647-2"), ExpressionErrorKind::Overflow);
    assert_eq!(failure("1/0"), ExpressionErrorKind::DivisionByZero);
    assert_eq!(failure("1/0+2"), ExpressionErrorKind::DivisionByZero);
    // the first failure from the left is the one reported
    assert_eq!(failure("1/0+"), ExpressionErrorKind::DivisionByZero);
    let mut kept: Vec<ExpressionPart> = vec![ExpressionPart::Number(mknum(5))];
    let parts = Expression::from_str("1+2*3").unwrap().parts;
    Expression::calculate_for_precedence(&parts, 0, &mut kept).unwrap();
    assert_eq!(
        kept,
        vec![
            ExpressionPart::Number(mknum(5)),
            ExpressionPart::Number(mknum(1)),
            ExpressionPart::Operator(ExpressionOperatorEnum::Plus),
            ExpressionPart::Number(mknum(6)),
        ]
    );
    let mut untouched: Vec<ExpressionPart> = Vec::new();
    Expression::calculate_for_precedence(&parts, 7, &mut untouched).unwrap();
    assert_eq!(untouched, parts);
}

#[test]
fn division_is_exact_or_a_fraction() {
    let divide = ExpressionOperatorDivide {};
    let c = divide.operate(&mknum(7), &mknum(2)).unwrap();
    assert!(!c.is_int());
    assert_eq!(c.int_value().unwrap_err().kind, ExpressionErrorKind::NotInteger);
    assert_eq!(c.len().unwrap_err().kind, ExpressionErrorKind::NotInteger);
    let d = divide.operate(&mknum(6), &mknum(2)).unwrap();
    assert_eq!(d.int_value().unwrap(), 3);
    assert_eq!(
        divide.operate(&mknum(6), &mknum(0)).unwrap_err().kind,
        ExpressionErrorKind::DivisionByZero
    );
    assert_eq!(
        divide.operate(&mknum(i32::MIN), &mknum(-1)).unwrap_err().kind,
        ExpressionErrorKind::Overflow
    );
    assert_eq!(divide.operate(&mknum(-6), &mknum(-3)).unwrap(), mknum(2));
    assert_eq!(divide.operate(&mknum(6), &mknum(-3)).unwrap(), mknum(-2));
}

#[test]
fn numbers_are_brought_to_lowest_terms() {
    let n = |numerator: i32, denominator: i32| ExpressionNumber { numerator, denominator };
    assert_eq!(n(6, 4).simplify(), n(3, 2));
    assert_eq!(n(3, -6).simplify(), n(-1, 2));
    assert_eq!(n(-3, -6).simplify(), n(1, 2));
    assert_eq!(n(0, 5).simplify(), n(0, 1));
    assert_eq!(n(0, -5).simplify(), n(0, 1));
    assert_eq!(n(5, 0).simplify(), n(5, 0));
    assert_eq!(n(7, 1).simplify(), n(7, 1));
    assert_eq!(n(i32::MIN, -1).simplify(), n(i32::MIN, -1));
    assert_eq!(n(i32::MIN, 2).simplify(), n(-1073741824, 1));
    assert_eq!(n(1, i32::MIN).simplify(), n(1, i32::MIN));
    assert_eq!(ExpressionNumber::default(), n(0, 1));
    let times = ExpressionOperatorTimes {};
    assert_eq!(times.operate(&n(1, 4), &mknum(2)).unwrap(), n(1, 2));
    assert_eq!(
        times.operate(&n(1, 0), &mknum(2)).unwrap_err().kind,
        ExpressionErrorKind::DivisionByZero
    );
    assert_eq!(
        times.operate(&mknum(65536), &mknum(65536)).unwrap_err().kind,
        ExpressionErrorKind::Overflow
    );
    let minus = ExpressionOperatorMinus {};
    assert_eq!(
        minus.operate(&mknum(i32::MIN), &mknum(1)).unwrap_err().kind,
        ExpressionErrorKind::Overflow
    );
    let plus = ExpressionOperatorPlus {};
    assert_eq!(
        plus.operate(&mknum(i32::MAX), &mknum(1)).unwrap_err().kind,
        ExpressionErrorKind::Overflow
    );
    assert_eq!(
        plus.operate(&n(1, 2), &mknum(1)).unwrap_err().kind,
        ExpressionErrorKind::NotInteger
    );
}

#[test]
fn printed_lengths_are_exact() {
    assert_eq!(num_digits(0), 1);
    assert_eq!(num_digits(-1), 2);
    assert_eq!(num_digits(10000), 5);
    assert_eq!(num_digits(99999), 5);
    assert_eq!(num_digits(100000), 6);
    assert_eq!(num_digits(9999999), 7);
    assert_eq!(num_digits(99999999), 8);
    assert_eq!(num_digits(999999999), 9);
    assert_eq!(num_digits(i32::MAX), 10);
    assert_eq!(num_digits(i32::MIN), 11);
    for v in [0, 5, 10, 99, 100, 12345, -7, -100, i32::MAX, i32::MIN] {
        assert_eq!(num_digits(v) as usize, v.to_string().len());
        assert_eq!(mknum(v).len().unwrap(), v.to_string().len());
    }
    assert_eq!(mknum(-12).to_string(), "-12");
    assert_eq!(mknum(0).to_string(), "0");
    assert_eq!(ExpressionNumber { numerator: -7, denominator: 2 }.to_string(), "-7/2");
    assert_eq!(ExpressionOperatorEnum::Times.to_string(), "*");
    assert_eq!(ExpressionPart::Number(mknum(42)).to_string(), "42");
    assert_eq!(ExpressionPart::Operator(ExpressionOperatorEnum::Divide).to_string(), "/");
    assert_eq!(eq("12+34=46").len().unwrap(), 8);
    assert_eq!(eq("1+2=3").len().unwrap(), 5);
    assert_eq!(Expression::from_str("12+34").unwrap().len().unwrap(), 5);
    assert_eq!(Expression::from_str("12+34").unwrap().to_string(), "12+34");
    assert_eq!(Expression::from_str("12+34").unwrap().render(), b"12+34".to_vec());
    let fraction = Equation {
        expr: Expression::from_str("1+2").unwrap(),
        res: ExpressionNumber { numerator: 7, denominator: 2 },
    };
    assert_eq!(fraction.to_string(), "1+2=7/2");
    assert_eq!(
        fraction.len().unwrap_err().kind,
        EquationErrorKind::Expression(ExpressionErrorKind::NotInteger)
    );
    assert_eq!(fraction.computes().unwrap(), false);
    assert_eq!(
        ExpressionPart::Number(ExpressionNumber { numerator: 7, denominator: 2 })
            .len()
            .unwrap_err()
            .kind,
        ExpressionErrorKind::NotInteger
    );
}

#[test]
fn equations_compute_or_not() {
    assert_eq!(eq("12+34=46").computes().unwrap(), true);
    assert_eq!(eq("12+34=47").computes().unwrap(), false);
    assert_eq!(eq("7/2=3").computes().unwrap(), false);
    assert_eq!(eq("1+=3").computes().unwrap_err().kind, ExpressionErrorKind::EndedEarly);
}

#[test]
fn scoring_counts_duplicates_once() {
    assert_eq!(nerdle_str("112233XX", "121233XX").unwrap().to_string(), "GYYGGGGG");
    // two misplaced copies against one in the answer: one Yellow, one Gray
    assert_eq!(nerdle_str("77aaaaaa", "bb7bbbbb").unwrap().to_string(), "Y-------");
    // a Green takes its copy before any Yellow is given
    assert_eq!(nerdle_str("7a7aaaaa", "bb7bbbbb").unwrap().to_string(), "--G-----");
    assert_eq!(nerdle_str("a7a7aaaa", "77bbbbbb").unwrap().to_string(), "-G-Y----");
    assert_eq!(
        nerdle(&eq("11+1=12"), &eq("2+2=4")).unwrap_err().kind,
        NerdleErrorKind::GuessLength
    );
    assert_eq!(nerdle(&eq("11+11=22"), &eq("12+34=46")).unwrap().to_string(), "G-G--GY-");
}

#[test]
fn scoring_the_scenario() {
    let answer = eq("12+34=46");
    let guess = eq("56+12=68");
    let result = nerdle(&guess, &answer).unwrap();
    assert_eq!(result.to_string(), "-YGYYG--");
    assert!(!result.won());
    assert_eq!(result.positions[2], NerdlePositionResult::Green);
    assert_eq!(result.positions[0], NerdlePositionResult::Gray);
    assert_eq!(result.positions[1], NerdlePositionResult::Yellow);
    assert_eq!(result.positions, verdicts("-YGYYG--").positions);
}

#[test]
fn scoring_errors_name_their_reason() {
    assert_eq!(nerdle_str("1+2=3", "12+34=46").unwrap_err().kind, NerdleErrorKind::GuessLength);
    assert_eq!(nerdle_str("12+34=46", "1+2=3").unwrap_err().kind, NerdleErrorKind::AnswerLength);
    assert_eq!(nerdle_str("1+2=3", "1+2=3").unwrap_err().kind, NerdleErrorKind::GuessLength);
    assert_eq!(
        nerdle(&eq("12+34=47"), &eq("12+34=46")).unwrap_err().kind,
        NerdleErrorKind::GuessDoesNotCompute
    );
    assert_eq!(
        nerdle(&eq("12+34=46"), &eq("12+34=47")).unwrap_err().kind,
        NerdleErrorKind::AnswerDoesNotCompute
    );
    assert_eq!(
        nerdle(&eq("12+34+=4"), &eq("12+34=46")).unwrap_err().kind,
        NerdleErrorKind::Expression(ExpressionErrorKind::EndedEarly)
    );
    assert_eq!(
        nerdle(&eq("12+34=46"), &eq("1/0+34=4")).unwrap_err().kind,
        NerdleErrorKind::Expression(ExpressionErrorKind::DivisionByZero)
    );
    assert_eq!(nerdle(&eq("1+2=3"), &eq("1+2=3")).unwrap_err().kind, NerdleErrorKind::GuessLength);
    assert_eq!(
        nerdle(&eq("12+34=46"), &eq("1+2=3")).unwrap_err().kind,
        NerdleErrorKind::AnswerLength
    );
}

#[test]
fn an_answer_wins_against_itself() {
    for text in ["12+34=46", "9*9-1=80", "100/4=25", "3+4+5=12", "98-76=22"] {
        let answer = eq(text);
        let result = nerdle(&answer, &answer).unwrap();
        assert!(result.won());
        assert_eq!(result.to_string(), "GGGGGGGG");
    }
    assert!(!NerdleResult::default().won());
    assert_eq!(NerdleResult::default().to_string(), "--------");
}

#[test]
fn verdicts_are_read_from_text() {
    assert_eq!(verdicts("--Y--G-Y").to_string(), "--Y--G-Y");
    assert_eq!(verdicts("yyggYYGG").to_string(), "YYGGYYGG");
    assert_eq!(verdicts("  GGGGGGGG\n").to_string(), "GGGGGGGG");
    assert!(verdicts("\tGGGGGGGG \r\n").won());
    assert!(verdicts("\u{a0}GGGGGGGG\u{3000}\u{2003}").won());
    assert_eq!(
        NerdleResult::from_str("GGGG\u{a0}GGG").unwrap_err().kind,
        NerdleErrorKind::VerdictCount
    );
    assert_eq!(
        NerdleResult::from_str("GGGG").unwrap_err().kind,
        NerdleErrorKind::VerdictCount
    );
    assert_eq!(NerdleResult::from_str("").unwrap_err().kind, NerdleErrorKind::VerdictCount);
    assert_eq!(
        NerdleResult::from_str("GG GGGGG").unwrap_err().kind,
        NerdleErrorKind::InvalidVerdict(b' ')
    );
    assert_eq!(
        NerdleResult::from_str("GGGGGGGx").unwrap_err().kind,
        NerdleErrorKind::InvalidVerdict(b'x')
    );
    assert_eq!(
        NerdleResult::from_str("xGGGGGG?").unwrap_err().kind,
        NerdleErrorKind::InvalidVerdict(b'x')
    );
}

#[test]
fn equations_made_at_random_are_valid() {
    for _ in 0..200 {
        let made = eqgen().unwrap();
        assert_eq!(made.computes().unwrap(), true);
        assert_eq!(made.len().unwrap(), NERDLE_CHARACTERS as usize);
        assert_eq!(made.to_string().len(), 8);
        assert!(EquationConstraint::default().accept(&made).is_ok());
        assert_eq!(eq(&made.to_string()), made);
    }
}

#[test]
fn random_choices_stay_in_their_range() {
    assert_eq!(random_between(5, 5), Some(5));
    assert_eq!(random_between(6, 5), None);
    let mut seen = [false; 4];
    for _ in 0..400 {
        let v = random_between(-3, 3).unwrap();
        assert!((-3..=3).contains(&v));
        match gen_ops(&EquationConstraint::default()).unwrap().0 {
            ExpressionOperatorEnum::Plus => seen[0] = true,
            ExpressionOperatorEnum::Minus => seen[1] = true,
            ExpressionOperatorEnum::Times => seen[2] = true,
            ExpressionOperatorEnum::Divide => seen[3] = true,
        }
    }
    assert_eq!(seen, [true; 4]);
    assert_eq!(range_rand_or_only(7..=6).unwrap_err().kind, NoMatchKind::EmptyRange);
    let mut low = false;
    let mut high = false;
    for _ in 0..200 {
        match range_rand_or_only(1..=2).unwrap() {
            1 => low = true,
            2 => high = true,
            other => panic!("{} is not in 1..=2", other),
        }
    }
    assert!(low && high);
}

#[test]
fn ranges_for_digits() {
    assert_eq!(range_for_digits(1, true), 0..=9);
    assert_eq!(range_for_digits(1, false), 1..=9);
    assert_eq!(range_for_digits(2, true), 10..=99);
    assert_eq!(range_for_digits(3, false), 100..=999);
    assert_eq!(range_for_digits(4, false), 1000..=9999);
    assert_eq!(range_for_digits(0, true), 1..=999);
    assert_eq!(range_for_digits(5, true), 1..=999);
    assert_eq!(range_for_digits_or_less(1, true), 0..=9);
    assert_eq!(range_for_digits_or_less(2, false), 1..=99);
    assert_eq!(range_for_digits_or_less(3, true), 0..=999);
    assert_eq!(range_for_digits_or_less(4, false), 1..=9999);
    assert_eq!(range_for_digits_or_less(7, true), 0..=999);
    assert_eq!(range_for_digits_or_less(0, false), 1..=999);
}

#[test]
fn number_constraints_accept_and_reject() {
    let plain = ExpressionNumberConstraint::default();
    assert!(plain.accept(&mknum(0)).is_ok());
    assert!(plain.accept(&mknum(999)).is_ok());
    assert_eq!(plain.accept(&mknum(1000)).unwrap_err().kind, NoMatchKind::OutOfRange);
    assert_eq!(plain.accept(&mknum(-1)).unwrap_err().kind, NoMatchKind::OutOfRange);
    assert_eq!(
        plain
            .accept(&ExpressionNumber { numerator: 1, denominator: 2 })
            .unwrap_err()
            .kind,
        NoMatchKind::NotInteger
    );
    let none = ExpressionNumberConstraint {
        range: 0..=9,
        acceptor: NumberAcceptor::nothing(),
    };
    assert_eq!(none.accept(&mknum(5)).unwrap_err().kind, NoMatchKind::ValueRejected);
    assert_eq!(
        find_num_with_constraint(&none).unwrap_err().kind,
        NoMatchKind::OutOfAttempts
    );
    let empty = ExpressionNumberConstraint::of_range(5, 4);
    assert_eq!(find_num_with_constraint(&empty).unwrap_err().kind, NoMatchKind::EmptyRange);
    let one = ExpressionNumberConstraint::of_range(42, 42);
    assert_eq!(find_num_with_constraint(&one).unwrap(), mknum(42));
    let both = ExpressionNumberConstraint::intersect(
        &ExpressionNumberConstraint::of_range(0, 50),
        &ExpressionNumberConstraint::of_range(40, 90),
    );
    assert_eq!(both.range, 40..=50);
    for _ in 0..50 {
        let found = find_num_with_constraint(&both).unwrap().int_value().unwrap();
        assert!((40..=50).contains(&found));
    }
    assert!(NumberAcceptor::anything().accepts_value(-17));
    assert!(!NumberAcceptor::nothing().accepts_value(3));
}

#[test]
fn patterns_are_kept_when_constraints_are_joined() {
    let mut solver = NerdleSolver::new();
    solver.update(&eq("62+28=90"), &verdicts("YG-YYY--"));
    let first = solver.constraint_for_digits(2, Some(0), false, false);
    assert_eq!(first.range, 10..=99);
    assert!(first.accept(&mknum(32)).is_ok());
    assert_eq!(first.accept(&mknum(23)).unwrap_err().kind, NoMatchKind::ValueRejected);
    assert_eq!(first.accept(&mknum(3)).unwrap_err().kind, NoMatchKind::OutOfRange);
    let joined = ExpressionNumberConstraint::intersect(
        &ExpressionNumberConstraint::of_range(30, 35),
        &first,
    );
    assert_eq!(joined.range, 30..=35);
    assert_eq!(joined.acceptor.patterns.len(), 1);
    assert_eq!(joined.acceptor.patterns[0].as_str(), first.acceptor.patterns[0].as_str());
    assert!(joined.accept(&mknum(32)).is_ok());
    assert_eq!(joined.accept(&mknum(31)).unwrap_err().kind, NoMatchKind::ValueRejected);
    assert_eq!(joined.accept(&mknum(36)).unwrap_err().kind, NoMatchKind::OutOfRange);
    let twice = NumberAcceptor::both(&first.acceptor, &joined.acceptor);
    assert_eq!(twice.patterns.len(), 2);
    assert!(twice.accepts_value(32));
    assert!(!twice.accepts_value(23));
    let never = NumberAcceptor::both(&first.acceptor, &NumberAcceptor::nothing());
    assert!(!never.accepts_value(32));
}

#[test]
fn patterns_have_the_expected_text() {
    let solver = NerdleSolver::new();
    assert_eq!(
        solver.regex_for_digits_at(0, 2, false).unwrap().as_str(),
        "(?-u)^[0123456789][0123456789]$"
    );
    assert_eq!(
        solver.regex_for_digits_at(1, 3, true).unwrap().as_str(),
        "(?-u)^[0123456789](?:|[0123456789](?:|[0123456789]))$"
    );
    assert_eq!(solver.regex_for_digits_at(3, 0, true).unwrap().as_str(), "(?-u)^$");
    assert_eq!(
        solver.regex_for_digits_anywhere(4, true).unwrap().as_str(),
        "(?-u)^[0123456789]{1,4}$"
    );
    assert_eq!(
        solver.regex_for_digits_anywhere(2, false).unwrap().as_str(),
        "(?-u)^[0123456789]{2}$"
    );
    let mut taught = NerdleSolver::new();
    taught.update(&eq("62+28=90"), &verdicts("YG-YYY--"));
    assert_eq!(
        taught.regex_for_digits_at(0, 4, true).unwrap().as_str(),
        "(?-u)^[1234578](?:|[2](?:|[12345678](?:|[1345678])))$"
    );
    assert_eq!(
        taught.regex_for_digits_anywhere(2, true).unwrap().as_str(),
        "(?-u)^[12345678]{1,2}$"
    );
    // a position where no digit can stand gives a class that is none
    let mut pinned = NerdleSolver::new();
    pinned.update(&eq("12+34=46"), &verdicts("GGGGGGGG"));
    assert!(pinned.regex_for_digits_at(2, 1, false).is_err());
    let slot = pinned.constraint_for_digits(1, Some(2), false, false);
    assert!(slot.acceptor.rejects);
    assert_eq!(slot.accept(&mknum(5)).unwrap_err().kind, NoMatchKind::ValueRejected);
}

#[test]
fn equation_constraints_name_what_fails() {
    let plain = EquationConstraint::default();
    assert!(plain.accept(&eq("12+34=46")).is_ok());
    assert!(plain.accept(&eq("3+4+5=12")).is_ok());
    assert_eq!(plain.accept(&eq("5=5")).unwrap_err().kind, NoMatchKind::UnrecognizedShape);
    assert_eq!(
        plain.accept(&eq("1+2+3+4=10")).unwrap_err().kind,
        NoMatchKind::UnrecognizedShape
    );
    assert_eq!(plain.accept(&eq("+1+=5")).unwrap_err().kind, NoMatchKind::UnrecognizedShape);
    assert_eq!(plain.accept(&eq("1+2=3000")).unwrap_err().kind, NoMatchKind::OutOfRange);
    assert_eq!(plain.accept(&eq("1000+2=3")).unwrap_err().kind, NoMatchKind::OutOfRange);
    let one_only = EquationConstraint {
        num_ops: 1..=1,
        ..Default::default()
    };
    assert!(one_only.accept(&eq("12+34=46")).is_ok());
    assert_eq!(one_only.accept(&eq("3+4+5=12")).unwrap_err().kind, NoMatchKind::OperatorCount);
    let two_only = EquationConstraint {
        num_ops: 2..=2,
        ..Default::default()
    };
    assert_eq!(two_only.accept(&eq("12+34=46")).unwrap_err().kind, NoMatchKind::OperatorCount);
    let no_plus = EquationConstraint {
        operator: HashMap::from([(b'+', 0..=0)]),
        ..Default::default()
    };
    assert!(!no_plus.can_have_op_byte(b'+'));
    assert!(no_plus.can_have_op_byte(b'-'));
    assert!(!no_plus.can_have_op(&ExpressionOperatorEnum::Plus));
    assert!(no_plus.can_have_op(&ExpressionOperatorEnum::Times));
    assert_eq!(
        no_plus.accept(&eq("12+34=46")).unwrap_err().kind,
        NoMatchKind::OperatorNotAllowed
    );
    assert_eq!(
        no_plus.accept(&eq("9-4+5=10")).unwrap_err().kind,
        NoMatchKind::OperatorNotAllowed
    );
    assert!(no_plus.accept(&eq("98-76=22")).is_ok());
    let small_b2 = EquationConstraint {
        b2_constraint: ExpressionNumberConstraint::of_range(0, 3),
        ..Default::default()
    };
    assert_eq!(small_b2.accept(&eq("3+4+5=12")).unwrap_err().kind, NoMatchKind::OutOfRange);
    let data = NerdleData::default();
    let knowing = EquationConstraint {
        knowledge: Some(&data),
        ..Default::default()
    };
    assert!(knowing.accept(&eq("12+34=46")).is_ok());
    assert_eq!(knowing.accept(&eq("1+2=3")).unwrap_err().kind, NoMatchKind::EquationRejected);
}

#[test]
fn the_generator_respects_its_constraint() {
    let divisions = EquationConstraint {
        operator: HashMap::from([(b'/', 1..=1), (b'+', 0..=0), (b'-', 0..=0), (b'*', 0..=0)]),
        num_ops: 1..=1,
        ..Default::default()
    };
    for _ in 0..20 {
        let made = eqgen_constrained(&divisions).unwrap();
        assert!(divisions.accept(&made).is_ok());
        assert_eq!(made.expr.parts.len(), 3);
        assert_eq!(made.expr.parts[1], ExpressionPart::Operator(ExpressionOperatorEnum::Divide));
        assert_eq!(made.computes().unwrap(), true);
        assert_eq!(made.len().unwrap(), 8);
    }
    let two = EquationConstraint {
        num_ops: 2..=2,
        c_constraint: ExpressionNumberConstraint::of_range(0, 9),
        ..Default::default()
    };
    for _ in 0..20 {
        let made = eqgen_constrained(&two).unwrap();
        assert_eq!(made.expr.parts.len(), 5);
        assert!((0..=9).contains(&made.res.int_value().unwrap()));
        assert!(two.accept(&made).is_ok());
    }
    let (op1, op2) = gen_ops(&divisions).unwrap();
    assert_eq!(op1, ExpressionOperatorEnum::Divide);
    assert_eq!(op2, None);
    let no_count = EquationConstraint {
        num_ops: 2..=1,
        ..Default::default()
    };
    assert_eq!(gen_ops(&no_count).unwrap_err().kind, NoMatchKind::EmptyRange);
    assert_eq!(eqgen_constrained(&no_count).unwrap_err().kind, NoMatchKind::EmptyRange);
    let impossible_ops = EquationConstraint {
        operator: HashMap::from([(b'+', 2..=2)]),
        num_ops: 1..=1,
        ..Default::default()
    };
    assert_eq!(gen_ops(&impossible_ops).unwrap_err().kind, NoMatchKind::OutOfAttempts);
    let no_first_operand = EquationConstraint {
        a_constraint: ExpressionNumberConstraint::of_range(5000, 6000),
        ..Default::default()
    };
    assert_eq!(
        eqgen_constrained(&no_first_operand).unwrap_err().kind,
        NoMatchKind::OutOfAttempts
    );
}

#[test]
fn knowledge_grows_with_feedback() {
    let mut data = NerdleData::default();
    assert!(data.char_info.is_empty());
    assert_eq!(data.equal_pos, None);
    assert_eq!(data.possibilities_for_pos(0).len(), 15);
    let fresh = NerdleCharInfo::new();
    assert_eq!(fresh.min_count, 0);
    assert_eq!(fresh.max_count, 8);
    assert!(fresh.positions.iter().all(|p| *p == NerdleIsChar::Maybe));

    let answer = eq("12+34=46");
    let guess = eq("56+12=68");
    let result = nerdle(&guess, &answer).unwrap();
    data.update(&guess, &result);
    assert_eq!(data.equal_pos, Some(5));
    // 5 and 8 are absent, 6 occurs exactly once, 1 and 2 at least once
    let count = |data: &NerdleData, ch: u8| {
        let info = data.char_info_of(ch);
        (info.min_count, info.max_count)
    };
    assert_eq!(count(&data, b'5'), (0, 0));
    assert_eq!(count(&data, b'8'), (0, 0));
    assert_eq!(count(&data, b'6'), (1, 1));
    assert_eq!(count(&data, b'1'), (1, 8));
    assert_eq!(count(&data, b'2'), (1, 8));
    assert_eq!(count(&data, b'+'), (1, 8));
    assert_eq!(count(&data, b'='), (1, 8));
    assert_eq!(count(&data, b'3'), (0, 8));
    assert_eq!(data.char_info_of(b'+').positions[2], NerdleIsChar::Definitely);
    assert_eq!(data.char_info_of(b'6').positions[1], NerdleIsChar::DefinitelyNot);
    assert_eq!(data.char_info_of(b'6').positions[0], NerdleIsChar::Maybe);
    assert_eq!(data.positions[2].get(&b'+'), Some(&true));
    assert_eq!(data.positions[2].get(&b'7'), Some(&false));
    assert_eq!(data.positions[0].get(&b'5'), Some(&false));
    assert_eq!(data.positions[0].get(&b'7'), None);
    let at = |data: &NerdleData, pos: usize| {
        let mut found: Vec<u8> = data.possibilities_for_pos(pos).into_iter().collect();
        found.sort();
        String::from_utf8(found).unwrap()
    };
    assert_eq!(at(&data, 2), "+");
    assert_eq!(at(&data, 5), "=");
    assert_eq!(at(&data, 0), "*+-/01234679");
    assert_eq!(at(&data, 1), "*+-/0123479");
    assert_eq!(at(&data, 3), "*+-/0234679");
    assert_eq!(at(&data, 6), "*+-/0123479");
    assert!(data.admits(0, b'1'));
    assert!(!data.admits(0, b'5'));
    assert!(!data.admits(0, b'='));
    assert!(!data.admits(2, b'1'));
    assert_eq!(data.sole_possibility(2), Some(b'+'));
    assert_eq!(data.sole_possibility(0), None);
    assert!(data.eq_matches(&answer).is_ok());
    assert_eq!(
        data.eq_matches(&guess).unwrap_err().kind,
        NerdleErrorKind::TooMany(b'5')
    );
    assert_eq!(
        data.eq_matches(&eq("34+12=46")).unwrap_err().kind,
        NerdleErrorKind::Excluded(3, b'1')
    );
    assert_eq!(
        data.eq_matches(&eq("13+34=47")).unwrap_err().kind,
        NerdleErrorKind::TooFew(b'2')
    );
    assert_eq!(
        data.eq_matches(&eq("1+2=3")).unwrap_err().kind,
        NerdleErrorKind::CandidateLength
    );
}

#[test]
fn counts_only_tighten_and_the_answer_stays_possible() {
    let answer = eq("12+34=46");
    let mut data = NerdleData::default();
    let mut before: Vec<(u32, u32)> = (0..=255u8)
        .map(|c| {
            let info = data.char_info_of(c);
            (info.min_count, info.max_count)
        })
        .collect();
    for text in ["56+12=68", "9*8-7=65", "24+13=37", "14+32=46", "12+34=46"] {
        let guess = eq(text);
        let result = nerdle(&guess, &answer).unwrap();
        data.update(&guess, &result);
        for c in 0..=255u8 {
            let info = data.char_info_of(c);
            assert!(info.min_count >= before[c as usize].0);
            assert!(info.max_count <= before[c as usize].1);
            before[c as usize] = (info.min_count, info.max_count);
        }
        assert!(data.eq_matches(&answer).is_ok());
        for pos in 0..8 {
            assert!(data.admits(pos, answer.render()[pos]));
        }
    }
    for pos in 0..8 {
        assert_eq!(data.sole_possibility(pos), Some(answer.render()[pos]));
    }
}

#[test]
fn certainty_is_carried_to_positions_with_one_possibility() {
    let mut data = NerdleData::default();
    for c in b"012345678+-*/=" {
        let mut info = NerdleCharInfo::new();
        info.positions[3] = NerdleIsChar::DefinitelyNot;
        data.char_info.insert(*c, info);
    }
    assert_eq!(data.sole_possibility(3), Some(b'9'));
    assert_eq!(data.char_info_of(b'9').min_count, 0);
    data.update(&eq("12+34=46"), &verdicts("--------"));
    assert_eq!(data.positions[3].get(&b'9'), Some(&true));
    assert_eq!(data.char_info_of(b'9').min_count, 1);
    assert_eq!(data.char_info_of(b'9').max_count, 8);
    assert_eq!(data.char_info_of(b'9').positions[3], NerdleIsChar::Definitely);
    assert_eq!(data.char_info_of(b'9').positions[2], NerdleIsChar::Maybe);
    assert!(data.admits(3, b'9'));
    assert!(!data.admits(3, b'7'));
    // what is settled at one position counts at the next: with one copy
    // of 9 at most, it cannot stand anywhere else
    let mut single = NerdleData::default();
    for c in b"012345678+-*/=" {
        let mut info = NerdleCharInfo::new();
        info.positions[0] = NerdleIsChar::DefinitelyNot;
        single.char_info.insert(*c, info);
    }
    let mut nine = NerdleCharInfo::new();
    nine.max_count = 1;
    single.char_info.insert(b'9', nine);
    assert!(single.admits(1, b'9'));
    single.update(&eq("12+34=46"), &verdicts("--------"));
    assert_eq!(single.positions[0].get(&b'9'), Some(&true));
    assert!(!single.admits(1, b'9'));
    assert!(single.admits(0, b'9'));
}

#[test]
fn layouts_follow_the_known_positions() {
    let exact = |digits: usize, start: usize, allow_zero: bool| {
        Some(SlotPlan { digits, start: Some(start), or_less: false, allow_zero })
    };
    let full = plan_layout(Some(2), Some(4), Some(6));
    assert_eq!(full.a, exact(2, 0, false));
    assert_eq!(full.b, exact(1, 3, false));
    assert_eq!(full.b2, exact(1, 5, false));
    assert_eq!(full.c, exact(1, 7, true));
    assert_eq!(full.num_ops, Some(2));
    let close = plan_layout(Some(2), None, Some(5));
    assert_eq!(close.a, exact(2, 0, false));
    assert_eq!(close.b, exact(2, 3, false));
    assert_eq!(close.b2, None);
    assert_eq!(close.c, exact(2, 6, true));
    assert_eq!(close.num_ops, Some(1));
    let wide = plan_layout(Some(1), None, Some(6));
    assert_eq!(wide.b, Some(SlotPlan { digits: 4, start: Some(2), or_less: true, allow_zero: false }));
    assert_eq!(wide.num_ops, None);
    let late = plan_layout(Some(3), None, Some(6));
    assert_eq!(late.a, Some(SlotPlan { digits: 3, start: Some(0), or_less: true, allow_zero: false }));
    assert_eq!(late.b, Some(SlotPlan { digits: 2, start: None, or_less: true, allow_zero: false }));
    let alone = plan_layout(Some(3), None, None);
    assert_eq!(alone.c, Some(SlotPlan { digits: 4, start: None, or_less: true, allow_zero: true }));
    let equal_only = plan_layout(None, None, Some(6));
    assert_eq!(equal_only.a, Some(SlotPlan { digits: 4, start: Some(0), or_less: true, allow_zero: false }));
    assert_eq!(equal_only.c, exact(1, 7, true));
    let nothing = plan_layout(None, None, None);
    assert_eq!(nothing.a, Some(SlotPlan { digits: 4, start: Some(0), or_less: true, allow_zero: false }));
    let pair = plan_layout(Some(1), Some(3), None);
    assert_eq!(pair.b2, None);
    assert_eq!(pair.c, None);
    assert_eq!(pair.num_ops, Some(2));
    // an equal sign in front of the operator leaves no room for a slot
    let odd = plan_layout(Some(2), None, Some(1));
    assert_eq!(odd.b, Some(SlotPlan { digits: 0, start: Some(3), or_less: true, allow_zero: false }));
}

#[test]
fn the_solver_guesses_what_fits_the_feedback() {
    let answer = eq("12+34=46");
    let mut solver = NerdleSolver::new();
    assert!(solver.answer_ok(&answer).is_ok());
    let guess = eq("56+12=68");
    let result = nerdle(&guess, &answer).unwrap();
    solver.update(&guess, &result);
    assert!(solver.answer_ok(&answer).is_ok());
    assert!(solver.constraint().accept(&answer).is_ok());
    assert!(solver.answer_ok(&guess).is_err());
    assert!(solver.is_op_at(2));
    assert!(!solver.is_op_at(0));
    assert!(!solver.is_op_at(5));
    assert!(NerdleSolver::is_op_char('+'));
    assert!(NerdleSolver::is_op_char('/'));
    assert!(!NerdleSolver::is_op_char('='));
    assert!(!NerdleSolver::is_op_char('7'));
    let layout = solver.layout();
    assert_eq!(layout.num_ops, Some(1));
    assert_eq!(layout.a.unwrap().digits, 2);
    assert_eq!(layout.b.unwrap().digits, 2);
    assert_eq!(layout.c.unwrap().digits, 2);
    let constraint = solver.constraint();
    assert_eq!(constraint.num_ops, 1..=1);
    assert_eq!(constraint.a_constraint.range, 10..=99);
    assert_eq!(constraint.operator.get(&b'+'), Some(&(1..=2)));
    assert_eq!(constraint.operator.get(&b'-'), None);
    for _ in 0..10 {
        let next = solver.take_guess().unwrap();
        assert!(solver.answer_ok(&next).is_ok());
        assert!(solver.constraint().accept(&next).is_ok());
        assert_eq!(next.computes().unwrap(), true);
        assert_eq!(next.len().unwrap(), 8);
        let text = next.to_string();
        assert_eq!(&text[2..3], "+");
        assert_eq!(&text[5..6], "=");
        assert!(!text.contains('5') && !text.contains('8'));
        assert_eq!(text.matches('6').count(), 1);
        assert!(text.contains('1') && text.contains('2'));
    }
    assert_eq!(
        solver.answer_ok(&eq("1+2=3")).unwrap_err().kind,
        NerdleErrorKind::CandidateLength
    );
    assert_eq!(solver.possibilities_for_pos(2).len(), 1);
    let same = solver.constraint_for_digits_start_end(2, 5, false, false);
    assert_eq!(same.range, 10..=99);
}

#[test]
fn a_structure_that_does_not_fit_is_reported_as_such() {
    let mut solver = NerdleSolver::new();
    solver.update(&eq("104-9=95"), &verdicts("--Y--G-Y"));
    solver.update(&eq("385/5=77"), &verdicts("--Y--GYY"));
    let kind = solver.answer_ok(&eq("42+24=66")).unwrap_err().kind;
    assert!(matches!(kind, NerdleErrorKind::TooFew(_) | NerdleErrorKind::Structure(_)));
    let fresh = NerdleSolver::new();
    assert_eq!(
        fresh.answer_ok(&eq("12345=12")).unwrap_err().kind,
        NerdleErrorKind::Structure(NoMatchKind::UnrecognizedShape)
    );
}

#[test]
fn a_game_can_be_played_to_the_end() {
    let answer = eqgen().unwrap();
    let mut strategy = StrategyEnum::by_name("first_possible").unwrap();
    for _turn in 0..4 {
        assert!(strategy.as_strategy().data.eq_matches(&answer).is_ok());
        let guess = match strategy.take_guess() {
            Ok(guess) => guess,
            Err(_) => break,
        };
        assert!(strategy.answer_ok(&guess).is_ok());
        let result = nerdle(&guess, &answer).unwrap();
        if result.won() {
            assert_eq!(guess, answer);
            break;
        }
        strategy.update(&guess, &result);
        assert!(strategy.answer_ok(&guess).is_err());
        assert_eq!(strategy.hint(), strategy.as_strategy().hint());
    }
    assert!(strategy.as_strategy().data.eq_matches(&answer).is_ok());
    assert!(strategy.as_strategy_mut().data.eq_matches(&answer).is_ok());
}

#[test]
fn strategies_are_found_by_name() {
    assert!(StrategyEnum::by_name("first_possible").is_ok());
    assert_eq!(StrategyEnum::by_name("best").err().unwrap().name, "best");
    assert_eq!(StrategyEnum::by_name("").err().unwrap().name, "");
    assert_eq!(
        StrategyEnum::by_name("first_possible ").err().unwrap().name,
        "first_possible "
    );
    assert!(StrategyEnum::by_name("first_possiblé").is_err());
}

#[test]
fn knowledge_is_told_in_words() {
    let fresh = NerdleSolver::new();
    assert_eq!(fresh.data.describe_counts(), "digit counts");
    let hint = fresh.hint();
    let lines: Vec<&str> = hint.lines().collect();
    assert_eq!(lines.len(), 9);
    assert_eq!(lines[0], "Equal sign not at ");
    assert_eq!(lines[1], "Position 0 could be * + - / 0 1 2 3 4 5 6 7 8 9 =");
    assert_eq!(lines[8], "Position 7 could be * + - / 0 1 2 3 4 5 6 7 8 9 =");
    assert!(hint.ends_with('\n'));

    let mut solver = NerdleSolver::new();
    let answer = eq("12+34=46");
    let guess = eq("56+12=68");
    solver.update(&guess, &nerdle(&guess, &answer).unwrap());
    assert_eq!(
        solver.data.describe_counts(),
        "digit counts: +[1-8], 1[1-8], 2[1-8], 5[0-0], 6[1-1], 8[0-0], =[1-8]"
    );
    assert_eq!(
        solver.hint(),
        "Equal sign at 5\n\
         Position 0 could be * + - / 0 1 2 3 4 6 7 9\n\
         Position 1 could be * + - / 0 1 2 3 4 7 9\n\
         Position 2 is +\n\
         Position 3 could be * + - / 0 2 3 4 6 7 9\n\
         Position 4 could be * + - / 0 1 3 4 6 7 9\n\
         Position 5 is =\n\
         Position 6 could be * + - / 0 1 2 3 4 7 9\n\
         Position 7 could be * + - / 0 1 2 3 4 6 7 9\n"
    );

    let mut other = NerdleSolver::new();
    other.update(&eq("62+28=90"), &verdicts("YG-YYY--"));
    assert!(other.hint().starts_with("Equal sign not at 5 \nPosition 0 could be"));
    assert!(other.hint().contains("\nPosition 1 is 2\n"));
    assert!(other.data.knows(b'9'));
    assert!(!other.data.knows(b'7'));

    let mut stuck = NerdleSolver::new();
    for c in b"0123456789+-*/=" {
        let mut info = NerdleCharInfo::new();
        info.positions[4] = NerdleIsChar::DefinitelyNot;
        stuck.data.char_info.insert(*c, info);
    }
    assert!(stuck.hint().contains("\nPosition 4 NO POSSIBILITIES?!\n"));
}

#[test]
fn equations_are_assembled_from_operands() {
    let plain = EquationConstraint::default();
    let made = assemble(&plain, mknum(12), ExpressionOperatorEnum::Plus, mknum(34), None).unwrap();
    assert_eq!(made, eq("12+34=46"));
    let long = assemble(
        &plain,
        mknum(3),
        ExpressionOperatorEnum::Plus,
        mknum(4),
        Some((ExpressionOperatorEnum::Times, mknum(5))),
    )
    .unwrap();
    assert_eq!(long.to_string(), "3+4*5=23");
    // too short, no value, a fraction, out of range
    assert_eq!(assemble(&plain, mknum(1), ExpressionOperatorEnum::Plus, mknum(2), None), None);
    assert_eq!(assemble(&plain, mknum(100), ExpressionOperatorEnum::Divide, mknum(0), None), None);
    assert_eq!(assemble(&plain, mknum(100), ExpressionOperatorEnum::Divide, mknum(30), None), None);
    assert_eq!(assemble(&plain, mknum(10), ExpressionOperatorEnum::Minus, mknum(19), None), None);
    assert_eq!(assemble(&plain, mknum(99), ExpressionOperatorEnum::Times, mknum(99), None), None);
    let no_plus = EquationConstraint {
        operator: HashMap::from([(b'+', 0..=0)]),
        ..Default::default()
    };
    assert_eq!(assemble(&no_plus, mknum(12), ExpressionOperatorEnum::Plus, mknum(34), None), None);
    assert_eq!(
        assemble(&no_plus, mknum(98), ExpressionOperatorEnum::Minus, mknum(76), None),
        Some(eq("98-76=22"))
    );

    assert_eq!(operator_of_index(0), ExpressionOperatorEnum::Plus);
    assert_eq!(operator_of_index(1), ExpressionOperatorEnum::Minus);
    assert_eq!(operator_of_index(2), ExpressionOperatorEnum::Times);
    assert_eq!(operator_of_index(3), ExpressionOperatorEnum::Divide);
    assert_eq!(operator_of_index(-1), ExpressionOperatorEnum::Divide);

    assert_eq!(first_operand_range(ExpressionOperatorEnum::Plus, true).range, 1..=999);
    assert_eq!(first_operand_range(ExpressionOperatorEnum::Divide, true).range, 100..=999);
    assert_eq!(first_operand_range(ExpressionOperatorEnum::Divide, false).range, 1..=99);
    assert_eq!(first_operand_range(ExpressionOperatorEnum::Times, false).range, 1..=99);

    assert_eq!(digits_left(3, 2), 3);
    assert_eq!(digits_left(4, 4), 0);
    assert_eq!(digits_left(2, 4), 2);
    assert_eq!(digits_left(9, 0), 0);
    assert_eq!(digits_left(usize::MAX, 2), 0);
    assert_eq!(digits_left(0, 0), 8);
}

#[test]
fn an_attempt_that_cannot_fail_gives_its_equation() {
    let pinned = EquationConstraint {
        a_constraint: ExpressionNumberConstraint::of_range(12, 12),
        b_constraint: ExpressionNumberConstraint::of_range(34, 34),
        operator: HashMap::from([(b'+', 1..=1), (b'-', 0..=0), (b'*', 0..=0), (b'/', 0..=0)]),
        num_ops: 1..=1,
        ..Default::default()
    };
    for _ in 0..5 {
        assert_eq!(eqgen_constrained(&pinned).unwrap(), eq("12+34=46"));
    }
    let three = EquationConstraint {
        a_constraint: only(3),
        b_constraint: only(4),
        b2_constraint: only(5),
        operator: HashMap::from([(b'+', 2..=2)]),
        num_ops: 2..=2,
        ..Default::default()
    };
    assert_eq!(eqgen_constrained(&three).unwrap(), eq("3+4+5=12"));
    // with any operators allowed, a choice of operators is always found
    for _ in 0..50 {
        assert!(gen_ops(&EquationConstraint::default()).is_ok());
    }
}

fn only(v: i32) -> ExpressionNumberConstraint {
    ExpressionNumberConstraint::of_range(v, v)
}

#[test]
fn a_solver_that_knows_of_too_many_operators_has_no_guess() {
    let mut solver = NerdleSolver::new();
    let mut plus = NerdleCharInfo::new();
    plus.min_count = 2;
    let mut minus = NerdleCharInfo::new();
    minus.min_count = 1;
    solver.data.char_info.insert(b'+', plus);
    solver.data.char_info.insert(b'-', minus);
    assert_eq!(solver.take_guess().unwrap_err().kind, NoMatchKind::EmptyRange);
    let strategy = StrategyEnum::FirstPossible(solver);
    assert_eq!(strategy.take_guess().unwrap_err().kind, NoMatchKind::EmptyRange);
}

#[test]
fn texts_are_read_through_from_str() {
    assert_eq!(
        Expression::from_str("1+2").unwrap().parts,
        Expression::parse("1+2").unwrap().parts
    );
    assert_eq!(
        Expression::from_str("1a").unwrap_err().kind,
        Expression::parse("1a").unwrap_err().kind
    );
    assert_eq!(Equation::from_str("1+2=3").unwrap(), Equation::parse("1+2=3").unwrap());
    assert_eq!(
        Equation::from_str("1+2").unwrap_err().kind,
        Equation::parse("1+2").unwrap_err().kind
    );
    assert_eq!(
        NerdleResult::from_str("GY-GY-GY").unwrap().positions,
        NerdleResult::parse("GY-GY-GY").unwrap().positions
    );
    assert_eq!(
        NerdleResult::from_str("GY").unwrap_err().kind,
        NerdleResult::parse("GY").unwrap_err().kind
    );
}
