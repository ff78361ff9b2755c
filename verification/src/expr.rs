//! Numbers, operators and expressions: exact arithmetic on fractions,
//! evaluation with two classes of precedence, and text in both directions.

use vstd::prelude::*;
use vstd::arithmetic::div_mod::{
    lemma_fundamental_div_mod, lemma_mod_multiples_basic, lemma_mod_self_0, lemma_small_mod,
};
use vstd::string::StringSliceAdditionalSpecFns;
use crate::util::{num_digits, printed_len};
use crate::text::{
    as_chars, int_text, is_digit, is_expression_symbol, lemma_int_text, push_int,
    symbols_to_string,
};

verus! {

/// Why an expression could not be read or evaluated.
#[derive(Clone, Copy, Debug, PartialEq, Eq)]
pub enum ExpressionErrorKind {
    /// A byte that is no digit, operator or white space.
    UnrecognizedCharacter(u8),
    /// A literal above `i32::MAX`.
    NumberTooLarge,
    /// An operator stands where a number is due.
    ExpectedNumber,
    /// A number stands where an operator is due.
    ExpectedOperator,
    /// The expression is empty or ends with an operator.
    EndedEarly,
    /// The reduced expression is not one single number.
    NotOneValue,
    /// `+` or `-` met an operand that is no integer, or the integer value
    /// or printed length of a fraction was asked for.
    NotInteger,
    /// A sum, difference or product left the range of `i32`.
    Overflow,
    /// A quotient with denominator zero.
    DivisionByZero,
}

/// The failure of reading or evaluating an expression.
#[derive(Clone, Copy, Debug, PartialEq, Eq)]
pub struct InvalidExpressionError {
    pub kind: ExpressionErrorKind,
}

/// Whether `x` can be held in an `i32`.
pub open spec fn fits_i32(x: int) -> bool {
    i32::MIN <= x <= i32::MAX
}

/// The absolute value of `x`.
pub open spec fn magnitude(x: int) -> nat {
    if x < 0 {
        (-x) as nat
    } else {
        x as nat
    }
}

/// The greatest common divisor of `a` and `b`, by Euclid's recurrence;
/// `greatest_common_divisor(0, 0)` is 0.
pub open spec fn greatest_common_divisor(a: nat, b: nat) -> nat
    decreases b,
{
    if b == 0 {
        a
    } else {
        greatest_common_divisor(b, a % b)
    }
}

/// The fraction `n / d` in lowest terms with a positive denominator, as
/// numerator and denominator. With `d == 0` there is no fraction and the
/// pair is left as it is.
pub open spec fn lowest_terms(n: int, d: int) -> (int, int) {
    if d == 0 {
        (n, d)
    } else {
        let g = greatest_common_divisor(magnitude(n), magnitude(d));
        let m = (magnitude(n) / g) as int;
        let e = (magnitude(d) / g) as int;
        if (n < 0) != (d < 0) {
            (-m, e)
        } else {
            (m, e)
        }
    }
}

/// `greatest_common_divisor(a, b)` is positive unless both are zero, and
/// divides both.
pub proof fn lemma_gcd_divides(a: nat, b: nat)
    ensures
        (a > 0 || b > 0) ==> greatest_common_divisor(a, b) > 0,
        greatest_common_divisor(a, b) > 0 ==> a % greatest_common_divisor(a, b) == 0 && b
            % greatest_common_divisor(a, b) == 0,
    decreases b,
{
    let g = greatest_common_divisor(a, b);
    if b == 0 {
        if a > 0 {
            lemma_mod_self_0(a as int);
            lemma_small_mod(0, a);
        }
    } else {
        let r = a % b;
        lemma_gcd_divides(b, r);
        assert(g == greatest_common_divisor(b, r));
        assert(g > 0);
        lemma_fundamental_div_mod(a as int, b as int);
        lemma_fundamental_div_mod(b as int, g as int);
        lemma_fundamental_div_mod(r as int, g as int);
        let q = (a / b) as int;
        let kb = (b / g) as int;
        let kr = (r / g) as int;
        assert(b == g * kb);
        assert(r == g * kr);
        assert(a == (kb * q + kr) * g) by (nonlinear_arith)
            requires
                a == b * q + r,
                b == g * kb,
                r == g * kr,
        ;
        lemma_mod_multiples_basic(kb * q + kr, g as int);
    }
}

/// Every common divisor of `a` and `b` divides their greatest common
/// divisor: it is the greatest one.
pub proof fn lemma_gcd_is_greatest(a: nat, b: nat, k: nat)
    requires
        k > 0,
        a % k == 0,
        b % k == 0,
    ensures
        greatest_common_divisor(a, b) % k == 0,
    decreases b,
{
    if b != 0 {
        let r = a % b;
        lemma_fundamental_div_mod(a as int, b as int);
        lemma_fundamental_div_mod(a as int, k as int);
        lemma_fundamental_div_mod(b as int, k as int);
        let q = (a / b) as int;
        let ka = (a / k) as int;
        let kb = (b / k) as int;
        assert(r == (ka - kb * q) * k) by (nonlinear_arith)
            requires
                a == b * q + r,
                a == k * ka,
                b == k * kb,
        ;
        lemma_mod_multiples_basic(ka - kb * q, k as int);
        lemma_gcd_is_greatest(b, r, k);
    }
}

/// A fraction in lowest terms has the value it had: cross products agree,
/// and its denominator is positive.
pub proof fn lemma_lowest_terms_same_value(n: int, d: int)
    requires
        d != 0,
    ensures
        lowest_terms(n, d).1 > 0,
        lowest_terms(n, d).0 * d == n * lowest_terms(n, d).1,
{
    let a = magnitude(n);
    let b = magnitude(d);
    let g = greatest_common_divisor(a, b);
    lemma_gcd_divides(a, b);
    lemma_fundamental_div_mod(a as int, g as int);
    lemma_fundamental_div_mod(b as int, g as int);
    let m = (a / g) as int;
    let e = (b / g) as int;
    assert(a == g * m);
    assert(b == g * e);
    assert(e > 0) by (nonlinear_arith)
        requires
            b == g * e,
            b > 0,
            g > 0,
            e >= 0,
    ;
    assert(m * b == a * e) by (nonlinear_arith)
        requires
            a == g * m,
            b == g * e,
    ;
    let r = lowest_terms(n, d);
    assert(r.0 * d == n * r.1) by (nonlinear_arith)
        requires
            m * b == a * e,
            r.1 == e,
            r.0 == (if (n < 0) != (d < 0) { -m } else { m }),
            a == (if n < 0 { -n } else { n }),
            b == (if d < 0 { -d } else { d }),
    ;
}

/// A fraction in lowest terms has no common factor left in numerator and
/// denominator.
pub proof fn lemma_lowest_terms_is_reduced(n: int, d: int)
    requires
        d != 0,
    ensures
        greatest_common_divisor(magnitude(lowest_terms(n, d).0), magnitude(lowest_terms(n, d).1))
            == 1,
{
    let a = magnitude(n);
    let b = magnitude(d);
    let g = greatest_common_divisor(a, b);
    lemma_gcd_divides(a, b);
    lemma_fundamental_div_mod(a as int, g as int);
    lemma_fundamental_div_mod(b as int, g as int);
    let m = a / g;
    let e = b / g;
    assert(a == g * m);
    assert(b == g * e);
    assert(magnitude(lowest_terms(n, d).0) == m);
    assert(magnitude(lowest_terms(n, d).1) == e);
    assert(e > 0) by (nonlinear_arith)
        requires
            b == g * e,
            b > 0,
            g > 0,
    ;
    let h = greatest_common_divisor(m, e);
    lemma_gcd_divides(m, e);
    lemma_fundamental_div_mod(m as int, h as int);
    lemma_fundamental_div_mod(e as int, h as int);
    let km = (m / h) as int;
    let ke = (e / h) as int;
    let gh = g * h;
    assert(gh > 0) by (nonlinear_arith)
        requires
            gh == g * h,
            g > 0,
            h > 0,
    ;
    assert(a == km * gh) by (nonlinear_arith)
        requires
            a == g * m,
            m == h * km,
            gh == g * h,
    ;
    assert(b == ke * gh) by (nonlinear_arith)
        requires
            b == g * e,
            e == h * ke,
            gh == g * h,
    ;
    lemma_mod_multiples_basic(km, gh as int);
    lemma_mod_multiples_basic(ke, gh as int);
    lemma_gcd_is_greatest(a, b, gh);
    // g is a positive multiple of g * h, so h is 1
    lemma_fundamental_div_mod(g as int, gh as int);
    let t = (g / gh) as int;
    assert(h == 1) by (nonlinear_arith)
        requires
            g == gh * t,
            gh == g * h,
            g > 0,
            h > 0,
    ;
}

/// A fraction in lowest terms is an integer exactly when the denominator
/// divides the numerator.
pub proof fn lemma_lowest_terms_integer(n: int, d: int)
    requires
        d != 0,
    ensures
        lowest_terms(n, d).1 == 1 <==> magnitude(n) % magnitude(d) == 0,
{
    let a = magnitude(n);
    let b = magnitude(d);
    let g = greatest_common_divisor(a, b);
    lemma_gcd_divides(a, b);
    lemma_fundamental_div_mod(b as int, g as int);
    let e = (b / g) as int;
    assert(b == g * e);
    if a % b == 0 {
        lemma_mod_self_0(b as int);
        lemma_gcd_is_greatest(a, b, b);
        lemma_fundamental_div_mod(g as int, b as int);
        let t = (g / b) as int;
        assert(e == 1) by (nonlinear_arith)
            requires
                b == g * e,
                g == b * t,
                b > 0,
                g > 0,
        ;
    }
    if e == 1 {
        assert(g == b) by (nonlinear_arith)
            requires
                b == g * e,
                e == 1,
        ;
    }
}

fn gcd_u64(a: u64, b: u64) -> (g: u64)
    ensures
        g == greatest_common_divisor(a as nat, b as nat),
{
    let mut x: u64 = a;
    let mut y: u64 = b;
    while y != 0
        invariant
            greatest_common_divisor(x as nat, y as nat) == greatest_common_divisor(
                a as nat,
                b as nat,
            ),
        decreases y,
    {
        let t: u64 = x % y;
        x = y;
        y = t;
    }
    x
}

fn magnitude_i32(x: i32) -> (m: u64)
    ensures
        m == magnitude(x as int),
        m <= 0x8000_0000,
{
    if x < 0 {
        (-(x as i64)) as u64
    } else {
        x as u64
    }
}

/// A rational number as numerator and denominator. It is an integer when
/// its denominator is 1.
#[derive(Clone, Copy, Debug, PartialEq, Eq, Structural)]
pub struct ExpressionNumber {
    pub numerator: i32,
    pub denominator: i32,
}

impl Default for ExpressionNumber {
    fn default() -> (r: Self)
        ensures
            r == (ExpressionNumber { numerator: 0, denominator: 1 }),
    {
        ExpressionNumber { numerator: 0, denominator: 1 }
    }
}

impl ExpressionNumber {
    /// Whether the number is an integer.
    pub open spec fn is_integer(self) -> bool {
        self.denominator == 1
    }

    /// The number in lowest terms, where that can be held; else the number
    /// itself.
    pub open spec fn simplified(self) -> ExpressionNumber {
        let r = lowest_terms(self.numerator as int, self.denominator as int);
        if fits_i32(r.0) && fits_i32(r.1) {
            ExpressionNumber { numerator: r.0 as i32, denominator: r.1 as i32 }
        } else {
            self
        }
    }

    /// The integer `value`.
    pub fn new(value: i32) -> (r: ExpressionNumber)
        ensures
            r == (ExpressionNumber { numerator: value, denominator: 1 }),
    {
        ExpressionNumber { numerator: value, denominator: 1 }
    }

    /// The printed length of an integer; a fraction has none.
    pub fn len(&self) -> (r: Result<usize, InvalidExpressionError>)
        ensures
            self.is_integer() ==> r is Ok && r->Ok_0 == printed_len(self.numerator as int),
            !self.is_integer() ==> r == Err::<usize, InvalidExpressionError>(
                InvalidExpressionError { kind: ExpressionErrorKind::NotInteger },
            ),
            r matches Ok(n) ==> 1 <= n <= 11,
    {
        if self.is_int() {
            Ok(num_digits(self.numerator) as usize)
        } else {
            Err(InvalidExpressionError { kind: ExpressionErrorKind::NotInteger })
        }
    }

    /// The value of an integer; a fraction has none.
    pub fn int_value(&self) -> (r: Result<i32, InvalidExpressionError>)
        ensures
            r == if self.is_integer() {
                Ok(self.numerator)
            } else {
                Err(InvalidExpressionError { kind: ExpressionErrorKind::NotInteger })
            },
    {
        if self.is_int() {
            Ok(self.numerator)
        } else {
            Err(InvalidExpressionError { kind: ExpressionErrorKind::NotInteger })
        }
    }

    /// Whether the number is an integer.
    pub fn is_int(&self) -> (r: bool)
        ensures
            r == self.is_integer(),
    {
        self.denominator == 1
    }

    /// Brings the number to lowest terms with a positive denominator. A
    /// zero denominator, or a result outside `i32`, leaves it unchanged.
    pub fn simplify(self) -> (r: ExpressionNumber)
        ensures
            r == self.simplified(),
    {
        if self.denominator == 0 {
            return self;
        }
        match reduce(self.numerator, self.denominator) {
            Some(r) => r,
            None => self,
        }
    }
}

fn reduce(numerator: i32, denominator: i32) -> (r: Option<ExpressionNumber>)
    requires
        denominator != 0,
    ensures
        ({
            let low = lowest_terms(numerator as int, denominator as int);
            r == if fits_i32(low.0) && fits_i32(low.1) {
                Some(ExpressionNumber { numerator: low.0 as i32, denominator: low.1 as i32 })
            } else {
                None
            }
        }),
{
    let a: u64 = magnitude_i32(numerator);
    let b: u64 = magnitude_i32(denominator);
    let g: u64 = gcd_u64(a, b);
    proof {
        lemma_gcd_divides(a as nat, b as nat);
    }
    let m: u64 = a / g;
    let e: u64 = b / g;
    let negative: bool = (numerator < 0) != (denominator < 0);
    if e > 0x7fff_ffff {
        return None;
    }
    if negative {
        if m > 0x8000_0000 {
            return None;
        }
        let n: i64 = -(m as i64);
        Some(ExpressionNumber { numerator: n as i32, denominator: e as i32 })
    } else {
        if m > 0x7fff_ffff {
            return None;
        }
        Some(ExpressionNumber { numerator: m as i32, denominator: e as i32 })
    }
}

/// The integer `x` as a number.
pub fn mknum(x: i32) -> (r: ExpressionNumber)
    ensures
        r == (ExpressionNumber { numerator: x, denominator: 1 }),
{
    ExpressionNumber::new(x)
}


/// One of the four operators.
#[derive(Clone, Copy, Debug, PartialEq, Eq, Structural)]
pub enum ExpressionOperatorEnum {
    Plus,
    Minus,
    Times,
    Divide,
}

/// The byte an operator is written with.
pub open spec fn operator_byte(op: ExpressionOperatorEnum) -> u8 {
    match op {
        ExpressionOperatorEnum::Plus => 43,
        ExpressionOperatorEnum::Minus => 45,
        ExpressionOperatorEnum::Times => 42,
        ExpressionOperatorEnum::Divide => 47,
    }
}

/// The operator that a byte stands for, if any.
pub open spec fn operator_of_byte(b: u8) -> Option<ExpressionOperatorEnum> {
    if b == 43 {
        Some(ExpressionOperatorEnum::Plus)
    } else if b == 45 {
        Some(ExpressionOperatorEnum::Minus)
    } else if b == 42 {
        Some(ExpressionOperatorEnum::Times)
    } else if b == 47 {
        Some(ExpressionOperatorEnum::Divide)
    } else {
        None
    }
}

/// The precedence class of an operator: 0 for `*` and `/`, which bind
/// tighter, 1 for `+` and `-`.
pub open spec fn operator_precedence(op: ExpressionOperatorEnum) -> u8 {
    match op {
        ExpressionOperatorEnum::Plus => 1,
        ExpressionOperatorEnum::Minus => 1,
        ExpressionOperatorEnum::Times => 0,
        ExpressionOperatorEnum::Divide => 0,
    }
}

/// The failure with the given reason.
pub open spec fn failure(kind: ExpressionErrorKind) -> InvalidExpressionError {
    InvalidExpressionError { kind }
}

/// The fraction `n / d` as a number in lowest terms: an overflow where `n`,
/// `d` or the reduced pair leaves `i32`, a division by zero where `d` is 0.
pub open spec fn quotient(n: int, d: int) -> Result<ExpressionNumber, InvalidExpressionError> {
    if !fits_i32(n) || !fits_i32(d) {
        Err(failure(ExpressionErrorKind::Overflow))
    } else if d == 0 {
        Err(failure(ExpressionErrorKind::DivisionByZero))
    } else {
        let r = lowest_terms(n, d);
        if fits_i32(r.0) && fits_i32(r.1) {
            Ok(ExpressionNumber { numerator: r.0 as i32, denominator: r.1 as i32 })
        } else {
            Err(failure(ExpressionErrorKind::Overflow))
        }
    }
}

/// The integer `v` as a number, or an overflow where it leaves `i32`.
pub open spec fn whole(v: int) -> Result<ExpressionNumber, InvalidExpressionError> {
    if fits_i32(v) {
        Ok(ExpressionNumber { numerator: v as i32, denominator: 1 })
    } else {
        Err(failure(ExpressionErrorKind::Overflow))
    }
}

/// What `op` makes of `a` and `b`. `+` and `-` take integers only; `*` and
/// `/` take fractions and give the result in lowest terms.
pub open spec fn operate_spec(
    op: ExpressionOperatorEnum,
    a: ExpressionNumber,
    b: ExpressionNumber,
) -> Result<ExpressionNumber, InvalidExpressionError> {
    match op {
        ExpressionOperatorEnum::Plus => if a.is_integer() && b.is_integer() {
            whole(a.numerator + b.numerator)
        } else {
            Err(failure(ExpressionErrorKind::NotInteger))
        },
        ExpressionOperatorEnum::Minus => if a.is_integer() && b.is_integer() {
            whole(a.numerator - b.numerator)
        } else {
            Err(failure(ExpressionErrorKind::NotInteger))
        },
        ExpressionOperatorEnum::Times => quotient(
            a.numerator * b.numerator,
            a.denominator * b.denominator,
        ),
        ExpressionOperatorEnum::Divide => quotient(
            a.numerator * b.denominator,
            a.denominator * b.numerator,
        ),
    }
}

fn make_quotient(n: Option<i32>, d: Option<i32>) -> (r: Result<
    ExpressionNumber,
    InvalidExpressionError,
>)
    ensures
        (n is None || d is None) ==> r == Err::<ExpressionNumber, InvalidExpressionError>(
            failure(ExpressionErrorKind::Overflow),
        ),
        (n is Some && d is Some) ==> r == quotient(n->0 as int, d->0 as int),
{
    match (n, d) {
        (Some(numerator), Some(denominator)) => {
            if denominator == 0 {
                return Err(InvalidExpressionError { kind: ExpressionErrorKind::DivisionByZero });
            }
            match reduce(numerator, denominator) {
                Some(r) => Ok(r),
                None => Err(InvalidExpressionError { kind: ExpressionErrorKind::Overflow }),
            }
        },
        _ => Err(InvalidExpressionError { kind: ExpressionErrorKind::Overflow }),
    }
}

impl ExpressionOperatorEnum {
    /// The operator that `char_byte` stands for.
    pub fn from_char_byte(char_byte: &u8) -> (r: Result<
        ExpressionOperatorEnum,
        InvalidExpressionError,
    >)
        ensures
            r == match operator_of_byte(*char_byte) {
                Some(op) => Ok::<ExpressionOperatorEnum, InvalidExpressionError>(op),
                None => Err(failure(ExpressionErrorKind::UnrecognizedCharacter(*char_byte))),
            },
    {
        let b: u8 = *char_byte;
        if b == 43 {
            Ok(ExpressionOperatorEnum::Plus)
        } else if b == 45 {
            Ok(ExpressionOperatorEnum::Minus)
        } else if b == 42 {
            Ok(ExpressionOperatorEnum::Times)
        } else if b == 47 {
            Ok(ExpressionOperatorEnum::Divide)
        } else {
            Err(InvalidExpressionError { kind: ExpressionErrorKind::UnrecognizedCharacter(b) })
        }
    }

    /// The byte the operator is written with.
    pub fn to_char_byte(&self) -> (b: u8)
        ensures
            b == operator_byte(*self),
            operator_of_byte(b) == Some(*self),
    {
        match self {
            ExpressionOperatorEnum::Plus => 43,
            ExpressionOperatorEnum::Minus => 45,
            ExpressionOperatorEnum::Times => 42,
            ExpressionOperatorEnum::Divide => 47,
        }
    }

    /// The character the operator is written with.
    pub fn to_char(&self) -> (c: char)
        ensures
            c as u8 == operator_byte(*self),
    {
        match self {
            ExpressionOperatorEnum::Plus => '+',
            ExpressionOperatorEnum::Minus => '-',
            ExpressionOperatorEnum::Times => '*',
            ExpressionOperatorEnum::Divide => '/',
        }
    }

    /// The precedence class of the operator.
    pub fn precedence(&self) -> (p: u8)
        ensures
            p == operator_precedence(*self),
    {
        match self {
            ExpressionOperatorEnum::Plus => 1,
            ExpressionOperatorEnum::Minus => 1,
            ExpressionOperatorEnum::Times => 0,
            ExpressionOperatorEnum::Divide => 0,
        }
    }

    /// Applies the operator to `a` and `b`.
    pub fn operate(&self, a: &ExpressionNumber, b: &ExpressionNumber) -> (r: Result<
        ExpressionNumber,
        InvalidExpressionError,
    >)
        ensures
            r == operate_spec(*self, *a, *b),
    {
        match self {
            ExpressionOperatorEnum::Plus => {
                if a.is_int() && b.is_int() {
                    match a.numerator.checked_add(b.numerator) {
                        Some(v) => Ok(ExpressionNumber::new(v)),
                        None => Err(InvalidExpressionError { kind: ExpressionErrorKind::Overflow }),
                    }
                } else {
                    Err(InvalidExpressionError { kind: ExpressionErrorKind::NotInteger })
                }
            },
            ExpressionOperatorEnum::Minus => {
                if a.is_int() && b.is_int() {
                    match a.numerator.checked_sub(b.numerator) {
                        Some(v) => Ok(ExpressionNumber::new(v)),
                        None => Err(InvalidExpressionError { kind: ExpressionErrorKind::Overflow }),
                    }
                } else {
                    Err(InvalidExpressionError { kind: ExpressionErrorKind::NotInteger })
                }
            },
            ExpressionOperatorEnum::Times => {
                let n: Option<i32> = a.numerator.checked_mul(b.numerator);
                let d: Option<i32> = a.denominator.checked_mul(b.denominator);
                make_quotient(n, d)
            },
            ExpressionOperatorEnum::Divide => {
                let n: Option<i32> = a.numerator.checked_mul(b.denominator);
                let d: Option<i32> = a.denominator.checked_mul(b.numerator);
                make_quotient(n, d)
            },
        }
    }
}

/// An operator as a value of its own type: what it computes, how tightly
/// it binds and how it is written.
pub trait ExpressionOperator {
    /// Which of the four operators this is.
    spec fn operator(&self) -> ExpressionOperatorEnum;

    /// Applies the operator to `a` and `b`.
    fn operate(&self, a: &ExpressionNumber, b: &ExpressionNumber) -> (r: Result<
        ExpressionNumber,
        InvalidExpressionError,
    >)
        ensures
            r == operate_spec(self.operator(), *a, *b),
    ;

    /// The precedence class of the operator.
    fn precedence(&self) -> (p: u8)
        ensures
            p == operator_precedence(self.operator()),
    ;

    /// The character the operator is written with.
    fn as_char(&self) -> (c: char)
        ensures
            c as u8 == operator_byte(self.operator()),
    ;

    /// The byte the operator is written with.
    fn as_char_byte(&self) -> (b: u8)
        ensures
            b == operator_byte(self.operator()),
    ;

    /// The printed length of an operator, which is 1.
    fn len(&self) -> (r: Result<usize, InvalidExpressionError>)
        ensures
            r == Ok::<usize, InvalidExpressionError>(1),
    ;
}

/// The operator `+`.
#[derive(Clone, Copy, Debug)]
pub struct ExpressionOperatorPlus {}

/// The operator `-`.
#[derive(Clone, Copy, Debug)]
pub struct ExpressionOperatorMinus {}

/// The operator `*`.
#[derive(Clone, Copy, Debug)]
pub struct ExpressionOperatorTimes {}

/// The operator `/`.
#[derive(Clone, Copy, Debug)]
pub struct ExpressionOperatorDivide {}

impl ExpressionOperator for ExpressionOperatorPlus {
    open spec fn operator(&self) -> ExpressionOperatorEnum {
        ExpressionOperatorEnum::Plus
    }

    fn operate(&self, a: &ExpressionNumber, b: &ExpressionNumber) -> (r: Result<
        ExpressionNumber,
        InvalidExpressionError,
    >) {
        ExpressionOperatorEnum::Plus.operate(a, b)
    }

    fn precedence(&self) -> (p: u8) {
        1
    }

    fn as_char(&self) -> (c: char) {
        '+'
    }

    fn as_char_byte(&self) -> (b: u8) {
        43
    }

    fn len(&self) -> (r: Result<usize, InvalidExpressionError>) {
        Ok(1)
    }
}

impl ExpressionOperator for ExpressionOperatorMinus {
    open spec fn operator(&self) -> ExpressionOperatorEnum {
        ExpressionOperatorEnum::Minus
    }

    fn operate(&self, a: &ExpressionNumber, b: &ExpressionNumber) -> (r: Result<
        ExpressionNumber,
        InvalidExpressionError,
    >) {
        ExpressionOperatorEnum::Minus.operate(a, b)
    }

    fn precedence(&self) -> (p: u8) {
        1
    }

    fn as_char(&self) -> (c: char) {
        '-'
    }

    fn as_char_byte(&self) -> (b: u8) {
        45
    }

    fn len(&self) -> (r: Result<usize, InvalidExpressionError>) {
        Ok(1)
    }
}

impl ExpressionOperator for ExpressionOperatorTimes {
    open spec fn operator(&self) -> ExpressionOperatorEnum {
        ExpressionOperatorEnum::Times
    }

    fn operate(&self, a: &ExpressionNumber, b: &ExpressionNumber) -> (r: Result<
        ExpressionNumber,
        InvalidExpressionError,
    >) {
        ExpressionOperatorEnum::Times.operate(a, b)
    }

    fn precedence(&self) -> (p: u8) {
        0
    }

    fn as_char(&self) -> (c: char) {
        '*'
    }

    fn as_char_byte(&self) -> (b: u8) {
        42
    }

    fn len(&self) -> (r: Result<usize, InvalidExpressionError>) {
        Ok(1)
    }
}

impl ExpressionOperator for ExpressionOperatorDivide {
    open spec fn operator(&self) -> ExpressionOperatorEnum {
        ExpressionOperatorEnum::Divide
    }

    fn operate(&self, a: &ExpressionNumber, b: &ExpressionNumber) -> (r: Result<
        ExpressionNumber,
        InvalidExpressionError,
    >) {
        ExpressionOperatorEnum::Divide.operate(a, b)
    }

    fn precedence(&self) -> (p: u8) {
        0
    }

    fn as_char(&self) -> (c: char) {
        '/'
    }

    fn as_char_byte(&self) -> (b: u8) {
        47
    }

    fn len(&self) -> (r: Result<usize, InvalidExpressionError>) {
        Ok(1)
    }
}


/// One item of an expression: a number or an operator.
#[derive(Clone, Copy, Debug, PartialEq, Eq, Structural)]
pub enum ExpressionPart {
    Number(ExpressionNumber),
    Operator(ExpressionOperatorEnum),
}

/// A sequence of numbers and operators. It is well formed when numbers and
/// operators alternate and a number stands at both ends.
#[derive(Clone, Debug, PartialEq, Eq)]
pub struct Expression {
    pub parts: Vec<ExpressionPart>,
}

/// The text of a number: an integer as such, a fraction as numerator, `/`
/// and denominator.
pub open spec fn number_text(n: ExpressionNumber) -> Seq<u8> {
    if n.is_integer() {
        int_text(n.numerator as int)
    } else {
        int_text(n.numerator as int) + seq![47u8] + int_text(n.denominator as int)
    }
}

/// The text of one part.
pub open spec fn part_text(p: ExpressionPart) -> Seq<u8> {
    match p {
        ExpressionPart::Number(n) => number_text(n),
        ExpressionPart::Operator(op) => seq![operator_byte(op)],
    }
}

/// The text of a sequence of parts: the texts of the parts, one after the
/// other with nothing between them.
pub open spec fn parts_text(parts: Seq<ExpressionPart>) -> Seq<u8>
    decreases parts.len(),
{
    if parts.len() == 0 {
        Seq::empty()
    } else {
        parts_text(parts.drop_last()) + part_text(parts.last())
    }
}

/// Whether every number among `parts` is an integer.
pub open spec fn all_integers(parts: Seq<ExpressionPart>) -> bool {
    forall|i: int|
        0 <= i < parts.len() ==> (#[trigger] parts[i] matches ExpressionPart::Number(n)
            ==> n.is_integer())
}

/// The printed length of a sequence of parts: the length of its text, where
/// every number is an integer.
pub open spec fn parts_len(parts: Seq<ExpressionPart>) -> Result<usize, InvalidExpressionError> {
    if all_integers(parts) {
        Ok(parts_text(parts).len() as usize)
    } else {
        Err(failure(ExpressionErrorKind::NotInteger))
    }
}

/// `head` before the parts of `tail`, where there are any.
pub open spec fn prepend(
    head: Seq<ExpressionPart>,
    tail: Result<Seq<ExpressionPart>, InvalidExpressionError>,
) -> Result<Seq<ExpressionPart>, InvalidExpressionError> {
    match tail {
        Ok(rest) => Ok(head + rest),
        Err(e) => Err(e),
    }
}

/// One pass over what follows a number of value `cur`: operators of class
/// `precedence` are applied from left to right as they come, the others
/// are kept with the numbers between them.
pub open spec fn collapse_from(
    parts: Seq<ExpressionPart>,
    precedence: u8,
    cur: ExpressionNumber,
) -> Result<Seq<ExpressionPart>, InvalidExpressionError>
    decreases parts.len(),
{
    if parts.len() == 0 {
        Ok(seq![ExpressionPart::Number(cur)])
    } else {
        match parts[0] {
            ExpressionPart::Number(_) => Err(failure(ExpressionErrorKind::ExpectedOperator)),
            ExpressionPart::Operator(op) => {
                if parts.len() == 1 {
                    Err(failure(ExpressionErrorKind::EndedEarly))
                } else {
                    match parts[1] {
                        ExpressionPart::Operator(_) => Err(
                            failure(ExpressionErrorKind::ExpectedNumber),
                        ),
                        ExpressionPart::Number(n) => {
                            if operator_precedence(op) == precedence {
                                match operate_spec(op, cur, n) {
                                    Err(e) => Err(e),
                                    Ok(v) => collapse_from(parts.skip(2), precedence, v),
                                }
                            } else {
                                prepend(
                                    seq![ExpressionPart::Number(cur), ExpressionPart::Operator(op)],
                                    collapse_from(parts.skip(2), precedence, n),
                                )
                            }
                        },
                    }
                }
            },
        }
    }
}

/// One pass over an expression, which starts with a number.
pub open spec fn collapse(parts: Seq<ExpressionPart>, precedence: u8) -> Result<
    Seq<ExpressionPart>,
    InvalidExpressionError,
> {
    if parts.len() == 0 {
        Err(failure(ExpressionErrorKind::EndedEarly))
    } else {
        match parts[0] {
            ExpressionPart::Operator(_) => Err(failure(ExpressionErrorKind::ExpectedNumber)),
            ExpressionPart::Number(n) => collapse_from(parts.skip(1), precedence, n),
        }
    }
}

/// The value of an expression: `*` and `/` first, then `+` and `-`, each
/// from left to right.
pub open spec fn calculate_spec(parts: Seq<ExpressionPart>) -> Result<
    ExpressionNumber,
    InvalidExpressionError,
> {
    match collapse(parts, 0) {
        Err(e) => Err(e),
        Ok(products) => match collapse(products, 1) {
            Err(e) => Err(e),
            Ok(sums) => if sums.len() != 1 {
                Err(failure(ExpressionErrorKind::NotOneValue))
            } else {
                match sums[0] {
                    ExpressionPart::Number(n) => Ok(n),
                    ExpressionPart::Operator(_) => Err(failure(ExpressionErrorKind::NotOneValue)),
                }
            },
        },
    }
}

/// A single number evaluates to itself.
pub proof fn lemma_calculate_number(a: ExpressionNumber)
    ensures
        calculate_spec(seq![ExpressionPart::Number(a)]) == Ok::<
            ExpressionNumber,
            InvalidExpressionError,
        >(a),
{
    let parts = seq![ExpressionPart::Number(a)];
    assert(parts.skip(1) =~= Seq::empty());
    assert(collapse(parts, 0) == Ok::<Seq<ExpressionPart>, InvalidExpressionError>(parts));
}

/// `a op b` evaluates to what `op` makes of `a` and `b`.
pub proof fn lemma_calculate_binary(
    a: ExpressionNumber,
    op: ExpressionOperatorEnum,
    b: ExpressionNumber,
)
    ensures
        calculate_spec(
            seq![ExpressionPart::Number(a), ExpressionPart::Operator(op), ExpressionPart::Number(b)],
        ) == operate_spec(op, a, b),
{
    reveal_with_fuel(collapse_from, 3);
    let parts = seq![
        ExpressionPart::Number(a),
        ExpressionPart::Operator(op),
        ExpressionPart::Number(b),
    ];
    let rest = parts.skip(1);
    assert(rest.skip(2) =~= Seq::empty());
    if operator_precedence(op) == 0 {
        if let Ok(v) = operate_spec(op, a, b) {
            lemma_calculate_number(v);
        }
    } else {
        let kept = seq![ExpressionPart::Number(a), ExpressionPart::Operator(op)] + seq![
            ExpressionPart::Number(b),
        ];
        assert(kept =~= parts);
        assert(collapse(parts, 0) == Ok::<Seq<ExpressionPart>, InvalidExpressionError>(parts));
        if let Ok(v) = operate_spec(op, a, b) {
            assert(collapse_from(Seq::empty(), 1, v) == Ok::<
                Seq<ExpressionPart>,
                InvalidExpressionError,
            >(seq![ExpressionPart::Number(v)]));
        }
    }
}

/// Operators and numbers in turn, an operator first and a number last:
/// what may follow a number in an expression.
pub open spec fn continues(parts: Seq<ExpressionPart>) -> bool {
    &&& parts.len() % 2 == 0
    &&& forall|i: int|
        0 <= i < parts.len() ==> if i % 2 == 0 {
            #[trigger] parts[i] is Operator
        } else {
            parts[i] is Number
        }
}

/// Numbers and operators in turn, with a number at both ends: the shape of
/// an expression that can be evaluated.
pub open spec fn alternates(parts: Seq<ExpressionPart>) -> bool {
    parts.len() > 0 && parts[0] is Number && continues(parts.skip(1))
}

/// Whether every operator among `parts` is of the class `precedence`, or
/// with `same` false, of another.
pub open spec fn operators_of_class(
    parts: Seq<ExpressionPart>,
    precedence: u8,
    same: bool,
) -> bool {
    forall|i: int|
        0 <= i < parts.len() ==> (#[trigger] parts[i] matches ExpressionPart::Operator(op) ==> (
        operator_precedence(op) == precedence) == same)
}

/// Whether a failure is one of arithmetic: a fraction where an integer is
/// needed, an overflow, or a division by zero.
pub open spec fn is_arithmetic(kind: ExpressionErrorKind) -> bool {
    kind is NotInteger || kind is Overflow || kind is DivisionByZero
}

/// What continues an expression begins with an operator and a number, and
/// what follows those continues it too.
pub proof fn lemma_continues_skip(parts: Seq<ExpressionPart>)
    requires
        continues(parts),
        parts.len() > 0,
    ensures
        continues(parts.skip(2)),
        parts[0] is Operator,
        parts[1] is Number,
{
    assert(parts[0] is Operator);
    assert(parts[1] is Number);
    assert forall|i: int| 0 <= i < parts.skip(2).len() implies if i % 2 == 0 {
        #[trigger] parts.skip(2)[i] is Operator
    } else {
        parts.skip(2)[i] is Number
    } by {
        assert(parts.skip(2)[i] == parts[i + 2]);
    }
}

/// One pass over what follows a number either fails at the arithmetic or
/// leaves numbers with the operators of the other classes between them.
pub proof fn lemma_collapse_from(parts: Seq<ExpressionPart>, precedence: u8, cur: ExpressionNumber)
    requires
        continues(parts),
    ensures
        match collapse_from(parts, precedence, cur) {
            Ok(out) => alternates(out) && operators_of_class(out, precedence, false) && (
            operators_of_class(parts, precedence, true) ==> out.len() == 1),
            Err(e) => is_arithmetic(e.kind),
        },
    decreases parts.len(),
{
    if parts.len() == 0 {
        let out = seq![ExpressionPart::Number(cur)];
        assert(out.skip(1) =~= Seq::empty());
    } else {
        lemma_continues_skip(parts);
        let op = parts[0]->Operator_0;
        let n = parts[1]->Number_0;
        let rest = parts.skip(2);
        assert forall|i: int| 0 <= i < rest.len() implies #[trigger] rest[i] == parts[i + 2] by {}
        if operator_precedence(op) == precedence {
            if let Ok(v) = operate_spec(op, cur, n) {
                lemma_collapse_from(rest, precedence, v);
                if operators_of_class(parts, precedence, true) {
                    assert(operators_of_class(rest, precedence, true)) by {
                        assert forall|i: int| 0 <= i < rest.len() implies (
                        #[trigger] rest[i] matches ExpressionPart::Operator(o) ==> (
                        operator_precedence(o) == precedence) == true) by {
                            assert(rest[i] == parts[i + 2]);
                        }
                    }
                }
            }
        } else {
            lemma_collapse_from(rest, precedence, n);
            assert(!operators_of_class(parts, precedence, true)) by {
                assert(parts[0] matches ExpressionPart::Operator(o) && operator_precedence(o)
                    != precedence);
            }
            if let Ok(tail) = collapse_from(rest, precedence, n) {
                let head = seq![ExpressionPart::Number(cur), ExpressionPart::Operator(op)];
                let out = head + tail;
                assert(out.skip(1) =~= seq![ExpressionPart::Operator(op)] + tail);
                assert(continues(out.skip(1))) by {
                    assert forall|i: int| 0 <= i < out.skip(1).len() implies if i % 2 == 0 {
                        #[trigger] out.skip(1)[i] is Operator
                    } else {
                        out.skip(1)[i] is Number
                    } by {
                        if i >= 2 {
                            assert(out.skip(1)[i] == tail.skip(1)[i - 2]);
                        } else if i == 1 {
                            assert(out.skip(1)[i] == tail[0]);
                        }
                    }
                }
                assert forall|i: int| 0 <= i < out.len() implies (
                #[trigger] out[i] matches ExpressionPart::Operator(o) ==> (operator_precedence(o)
                    == precedence) == false) by {
                    if i >= 2 {
                        assert(out[i] == tail[i - 2]);
                    }
                }
            }
        }
    }
}

/// An expression of numbers and operators in turn has a value, unless the
/// arithmetic fails on the way.
pub proof fn lemma_calculate_alternating(parts: Seq<ExpressionPart>)
    requires
        alternates(parts),
    ensures
        match calculate_spec(parts) {
            Ok(_) => true,
            Err(e) => is_arithmetic(e.kind),
        },
{
    let first = parts[0]->Number_0;
    lemma_collapse_from(parts.skip(1), 0, first);
    if let Ok(products) = collapse(parts, 0) {
        let second = products[0]->Number_0;
        let tail = products.skip(1);
        assert(operators_of_class(tail, 1, true)) by {
            assert forall|i: int| 0 <= i < tail.len() implies (
            #[trigger] tail[i] matches ExpressionPart::Operator(o) ==> (operator_precedence(o)
                == 1) == true) by {
                assert(tail[i] == products[i + 1]);
            }
        }
        lemma_collapse_from(tail, 1, second);
    }
}

/// A pass succeeds only on what continues an expression.
pub proof fn lemma_collapse_shape(parts: Seq<ExpressionPart>, precedence: u8, cur: ExpressionNumber)
    requires
        collapse_from(parts, precedence, cur) is Ok,
    ensures
        continues(parts),
    decreases parts.len(),
{
    if parts.len() > 0 {
        let op = parts[0]->Operator_0;
        let n = parts[1]->Number_0;
        let rest = parts.skip(2);
        if operator_precedence(op) == precedence {
            lemma_collapse_shape(rest, precedence, operate_spec(op, cur, n)->Ok_0);
        } else {
            lemma_collapse_shape(rest, precedence, n);
        }
        assert forall|i: int| 0 <= i < parts.len() implies if i % 2 == 0 {
            #[trigger] parts[i] is Operator
        } else {
            parts[i] is Number
        } by {
            if i >= 2 {
                assert(parts[i] == rest[i - 2]);
            }
        }
    }
}

proof fn lemma_collapse_failure(parts: Seq<ExpressionPart>, precedence: u8, cur: ExpressionNumber)
    ensures
        collapse_from(parts, precedence, cur) matches Err(e) ==> !(e.kind is NotOneValue),
    decreases parts.len(),
{
    if parts.len() > 1 {
        if let ExpressionPart::Operator(op) = parts[0] {
            if let ExpressionPart::Number(n) = parts[1] {
                if operator_precedence(op) == precedence {
                    if let Ok(v) = operate_spec(op, cur, n) {
                        lemma_collapse_failure(parts.skip(2), precedence, v);
                    }
                } else {
                    lemma_collapse_failure(parts.skip(2), precedence, n);
                }
            }
        }
    }
}

/// The two passes of an evaluation leave one number or fail before: the
/// failure of a reduction that is not one single number does not occur.
pub proof fn lemma_calculate_never_stuck(parts: Seq<ExpressionPart>)
    ensures
        calculate_spec(parts) matches Err(e) ==> !(e.kind is NotOneValue),
{
    if parts.len() > 0 && parts[0] is Number {
        lemma_collapse_failure(parts.skip(1), 0, parts[0]->Number_0);
    }
    if let Ok(products) = collapse(parts, 0) {
        let first = parts[0]->Number_0;
        lemma_collapse_shape(parts.skip(1), 0, first);
        lemma_collapse_from(parts.skip(1), 0, first);
        lemma_collapse_failure(products.skip(1), 1, products[0]->Number_0);
        if let Ok(sums) = collapse(products, 1) {
            let second = products[0]->Number_0;
            let tail = products.skip(1);
            assert(operators_of_class(tail, 1, true)) by {
                assert forall|i: int| 0 <= i < tail.len() implies (
                #[trigger] tail[i] matches ExpressionPart::Operator(o) ==> (operator_precedence(o)
                    == 1) == true) by {
                    assert(tail[i] == products[i + 1]);
                }
            }
            lemma_collapse_from(tail, 1, second);
        }
    }
}

/// What `op` makes of a result that may have failed and of `b`.
pub open spec fn then_operate(
    first: Result<ExpressionNumber, InvalidExpressionError>,
    op: ExpressionOperatorEnum,
    b: ExpressionNumber,
) -> Result<ExpressionNumber, InvalidExpressionError> {
    match first {
        Ok(v) => operate_spec(op, v, b),
        Err(e) => Err(e),
    }
}

/// What `op` makes of `a` and of a result that may have failed.
pub open spec fn operate_then(
    a: ExpressionNumber,
    op: ExpressionOperatorEnum,
    second: Result<ExpressionNumber, InvalidExpressionError>,
) -> Result<ExpressionNumber, InvalidExpressionError> {
    match second {
        Ok(v) => operate_spec(op, a, v),
        Err(e) => Err(e),
    }
}

/// `a op1 b op2 c` is evaluated from the left, unless `op2` binds tighter
/// than `op1`: then `b op2 c` is evaluated first.
#[verifier::rlimit(50)]
pub proof fn lemma_calculate_ternary(
    a: ExpressionNumber,
    op1: ExpressionOperatorEnum,
    b: ExpressionNumber,
    op2: ExpressionOperatorEnum,
    c: ExpressionNumber,
)
    ensures
        calculate_spec(
            seq![
                ExpressionPart::Number(a),
                ExpressionPart::Operator(op1),
                ExpressionPart::Number(b),
                ExpressionPart::Operator(op2),
                ExpressionPart::Number(c),
            ],
        ) == if operator_precedence(op2) < operator_precedence(op1) {
            operate_then(a, op1, operate_spec(op2, b, c))
        } else {
            then_operate(operate_spec(op1, a, b), op2, c)
        },
{
    reveal_with_fuel(collapse_from, 4);
    let parts = seq![
        ExpressionPart::Number(a),
        ExpressionPart::Operator(op1),
        ExpressionPart::Number(b),
        ExpressionPart::Operator(op2),
        ExpressionPart::Number(c),
    ];
    let rest = parts.skip(1);
    let last = rest.skip(2);
    assert(last.skip(2) =~= Seq::empty());
    assert(last[0] == ExpressionPart::Operator(op2));
    assert(last[1] == ExpressionPart::Number(c));
    let class1 = operator_precedence(op1);
    let class2 = operator_precedence(op2);
    if class1 == 0 && class2 == 0 {
        // both at once, from the left
        if let Ok(v) = operate_spec(op1, a, b) {
            if let Ok(w) = operate_spec(op2, v, c) {
                lemma_calculate_number(w);
            }
        }
    } else if class1 == 0 && class2 == 1 {
        if let Ok(v) = operate_spec(op1, a, b) {
            let kept = seq![ExpressionPart::Number(v), ExpressionPart::Operator(op2)] + seq![
                ExpressionPart::Number(c),
            ];
            assert(collapse(parts, 0) == Ok::<Seq<ExpressionPart>, InvalidExpressionError>(kept));
            assert(kept =~= seq![
                ExpressionPart::Number(v),
                ExpressionPart::Operator(op2),
                ExpressionPart::Number(c),
            ]);
            lemma_calculate_binary(v, op2, c);
            lemma_collapse_low(v, op2, c);
        }
    } else if class1 == 1 && class2 == 1 {
        let kept = seq![ExpressionPart::Number(a), ExpressionPart::Operator(op1)] + (seq![
            ExpressionPart::Number(b),
            ExpressionPart::Operator(op2),
        ] + seq![ExpressionPart::Number(c)]);
        assert(kept =~= parts);
        assert(collapse(parts, 0) == Ok::<Seq<ExpressionPart>, InvalidExpressionError>(parts));
        if let Ok(v) = operate_spec(op1, a, b) {
            if let Ok(w) = operate_spec(op2, v, c) {
                assert(collapse_from(Seq::empty(), 1, w) == Ok::<
                    Seq<ExpressionPart>,
                    InvalidExpressionError,
                >(seq![ExpressionPart::Number(w)]));
            }
        }
    } else {
        if let Ok(w) = operate_spec(op2, b, c) {
            let kept = seq![ExpressionPart::Number(a), ExpressionPart::Operator(op1)] + seq![
                ExpressionPart::Number(w),
            ];
            assert(collapse(parts, 0) == Ok::<Seq<ExpressionPart>, InvalidExpressionError>(kept));
            assert(kept =~= seq![
                ExpressionPart::Number(a),
                ExpressionPart::Operator(op1),
                ExpressionPart::Number(w),
            ]);
            lemma_collapse_low(a, op1, w);
        }
    }
}

proof fn lemma_collapse_low(a: ExpressionNumber, op: ExpressionOperatorEnum, b: ExpressionNumber)
    requires
        operator_precedence(op) == 1,
    ensures
        collapse(
            seq![ExpressionPart::Number(a), ExpressionPart::Operator(op), ExpressionPart::Number(b)],
            1,
        ) == match operate_spec(op, a, b) {
            Ok(v) => Ok::<Seq<ExpressionPart>, InvalidExpressionError>(
                seq![ExpressionPart::Number(v)],
            ),
            Err(e) => Err(e),
        },
{
    reveal_with_fuel(collapse_from, 3);
    let parts = seq![
        ExpressionPart::Number(a),
        ExpressionPart::Operator(op),
        ExpressionPart::Number(b),
    ];
    assert(parts.skip(1).skip(2) =~= Seq::empty());
}

impl ExpressionPart {
    /// The printed length of the part.
    pub fn len(&self) -> (r: Result<usize, InvalidExpressionError>)
        ensures
            match *self {
                ExpressionPart::Number(n) => if n.is_integer() {
                    r is Ok && r->Ok_0 == part_text(*self).len()
                } else {
                    r == Err::<usize, InvalidExpressionError>(
                        failure(ExpressionErrorKind::NotInteger),
                    )
                },
                ExpressionPart::Operator(_) => r == Ok::<usize, InvalidExpressionError>(1),
            },
            r matches Ok(n) ==> 1 <= n <= 11,
    {
        match self {
            ExpressionPart::Number(num) => {
                proof {
                    lemma_int_text(num.numerator as int);
                }
                num.len()
            },
            ExpressionPart::Operator(_) => Ok(1),
        }
    }

    /// The operator that `char_byte` stands for, as a part.
    pub fn from_char_byte(char_byte: &u8) -> (r: Result<ExpressionPart, InvalidExpressionError>)
        ensures
            r == match operator_of_byte(*char_byte) {
                Some(op) => Ok::<ExpressionPart, InvalidExpressionError>(
                    ExpressionPart::Operator(op),
                ),
                None => Err(failure(ExpressionErrorKind::UnrecognizedCharacter(*char_byte))),
            },
    {
        match ExpressionOperatorEnum::from_char_byte(char_byte) {
            Ok(op) => Ok(ExpressionPart::Operator(op)),
            Err(e) => Err(e),
        }
    }
}

/// The text of `parts` with one more part is the text of `parts` and then
/// that of the part.
pub proof fn lemma_parts_text_push(parts: Seq<ExpressionPart>, p: ExpressionPart)
    ensures
        parts_text(parts.push(p)) == parts_text(parts) + part_text(p),
{
    assert(parts.push(p).drop_last() =~= parts);
}

/// The text of parts holds the symbols of expressions only.
pub proof fn lemma_parts_text_symbols(parts: Seq<ExpressionPart>)
    ensures
        forall|i: int|
            0 <= i < parts_text(parts).len() ==> is_expression_symbol(
                #[trigger] parts_text(parts)[i],
            ),
    decreases parts.len(),
{
    if parts.len() > 0 {
        lemma_parts_text_symbols(parts.drop_last());
        let head = parts_text(parts.drop_last());
        let tail = part_text(parts.last());
        match parts.last() {
            ExpressionPart::Number(n) => {
                lemma_int_text(n.numerator as int);
                lemma_int_text(n.denominator as int);
            },
            ExpressionPart::Operator(_) => {},
        }
        assert forall|i: int| 0 <= i < tail.len() implies is_expression_symbol(
            #[trigger] tail[i],
        ) by {
            match parts.last() {
                ExpressionPart::Number(n) => {
                    let a = int_text(n.numerator as int);
                    let b = int_text(n.denominator as int);
                    if !n.is_integer() {
                        if i < a.len() {
                            assert(tail[i] == a[i]);
                        } else if i > a.len() {
                            assert(tail[i] == b[i - a.len() - 1]);
                        }
                    }
                },
                ExpressionPart::Operator(_) => {},
            }
        }
        assert forall|i: int| 0 <= i < parts_text(parts).len() implies is_expression_symbol(
            #[trigger] parts_text(parts)[i],
        ) by {
            if i < head.len() {
                assert(parts_text(parts)[i] == head[i]);
            } else {
                assert(parts_text(parts)[i] == tail[i - head.len()]);
            }
        }
    }
}

fn push_number(out: &mut Vec<u8>, n: &ExpressionNumber)
    ensures
        final(out)@ == old(out)@ + number_text(*n),
{
    push_int(out, n.numerator);
    if !n.is_int() {
        out.push(47);
        push_int(out, n.denominator);
        assert(out@ =~= old(out)@ + number_text(*n));
    }
}

impl ExpressionNumber {
    /// The text of the number.
    pub fn to_string(&self) -> (s: String)
        ensures
            s@ == as_chars(number_text(*self)),
    {
        let mut bytes: Vec<u8> = Vec::new();
        push_number(&mut bytes, self);
        proof {
            lemma_int_text(self.numerator as int);
            lemma_int_text(self.denominator as int);
            let a = int_text(self.numerator as int);
            let b = int_text(self.denominator as int);
            assert(bytes@ =~= number_text(*self));
            assert forall|i: int| 0 <= i < bytes@.len() implies is_expression_symbol(
                #[trigger] bytes@[i],
            ) by {
                if !self.is_integer() {
                    if i < a.len() {
                        assert(bytes@[i] == a[i]);
                    } else if i > a.len() {
                        assert(bytes@[i] == b[i - a.len() - 1]);
                    }
                }
            }
        }
        symbols_to_string(&bytes)
    }
}

impl ExpressionOperatorEnum {
    /// The text of the operator: its character.
    pub fn to_string(&self) -> (s: String)
        ensures
            s@ == seq![operator_byte(*self) as char],
    {
        let mut bytes: Vec<u8> = Vec::new();
        bytes.push(self.to_char_byte());
        let s = symbols_to_string(&bytes);
        assert(s@ =~= seq![operator_byte(*self) as char]);
        s
    }
}

impl ExpressionPart {
    /// The text of the part.
    pub fn to_string(&self) -> (s: String)
        ensures
            s@ == as_chars(part_text(*self)),
    {
        match self {
            ExpressionPart::Number(num) => num.to_string(),
            ExpressionPart::Operator(op) => {
                let s = op.to_string();
                assert(s@ =~= as_chars(part_text(*self)));
                s
            },
        }
    }
}

impl Expression {
    /// Evaluates the expression with `*` and `/` binding tighter than `+`
    /// and `-`.
    pub fn calculate(&self) -> (r: Result<ExpressionNumber, InvalidExpressionError>)
        ensures
            r == calculate_spec(self.parts@),
    {
        let mut products: Vec<ExpressionPart> = Vec::new();
        let mut sums: Vec<ExpressionPart> = Vec::new();
        match Expression::calculate_for_precedence(&self.parts, 0, &mut products) {
            Err(e) => {
                return Err(e);
            },
            Ok(()) => {},
        }
        assert(products@ =~= collapse(self.parts@, 0)->Ok_0);
        match Expression::calculate_for_precedence(&products, 1, &mut sums) {
            Err(e) => {
                return Err(e);
            },
            Ok(()) => {},
        }
        assert(sums@ =~= collapse(products@, 1)->Ok_0);
        if sums.len() != 1 {
            return Err(InvalidExpressionError { kind: ExpressionErrorKind::NotOneValue });
        }
        match sums[0] {
            ExpressionPart::Number(num) => Ok(num),
            ExpressionPart::Operator(_) => Err(
                InvalidExpressionError { kind: ExpressionErrorKind::NotOneValue },
            ),
        }
    }

    /// One pass over `parts`: applies the operators of class `precedence`
    /// and appends what is left to `next_parts`. When it fails, what
    /// `next_parts` held before is still its beginning.
    pub fn calculate_for_precedence(
        parts: &Vec<ExpressionPart>,
        precedence: u8,
        next_parts: &mut Vec<ExpressionPart>,
    ) -> (r: Result<(), InvalidExpressionError>)
        ensures
            match collapse(parts@, precedence) {
                Ok(reduced) => r is Ok && final(next_parts)@ == old(next_parts)@ + reduced,
                Err(e) => r == Err::<(), InvalidExpressionError>(e) && old(next_parts)@.is_prefix_of(
                    final(next_parts)@,
                ),
            },
    {
        let n: usize = parts.len();
        if n == 0 {
            return Err(InvalidExpressionError { kind: ExpressionErrorKind::EndedEarly });
        }
        let mut cur: ExpressionNumber = match parts[0] {
            ExpressionPart::Number(num) => num,
            ExpressionPart::Operator(_) => {
                return Err(InvalidExpressionError { kind: ExpressionErrorKind::ExpectedNumber });
            },
        };
        let ghost mut kept: Seq<ExpressionPart> = Seq::empty();
        let mut i: usize = 1;
        assert(old(next_parts)@ + kept =~= next_parts@);
        while i < n
            invariant
                n == parts@.len(),
                1 <= i <= n,
                next_parts@ == old(next_parts)@ + kept,
                collapse(parts@, precedence) == prepend(
                    kept,
                    collapse_from(parts@.skip(i as int), precedence, cur),
                ),
            decreases n - i,
        {
            let ghost tail = parts@.skip(i as int);
            assert(tail[0] == parts@[i as int]);
            match parts[i] {
                ExpressionPart::Number(_) => {
                    return Err(
                        InvalidExpressionError { kind: ExpressionErrorKind::ExpectedOperator },
                    );
                },
                ExpressionPart::Operator(op) => {
                    if i + 1 >= n {
                        return Err(
                            InvalidExpressionError { kind: ExpressionErrorKind::EndedEarly },
                        );
                    }
                    assert(tail[1] == parts@[i + 1]);
                    assert(tail.skip(2) =~= parts@.skip(i + 2));
                    match parts[i + 1] {
                        ExpressionPart::Operator(_) => {
                            return Err(
                                InvalidExpressionError {
                                    kind: ExpressionErrorKind::ExpectedNumber,
                                },
                            );
                        },
                        ExpressionPart::Number(num) => {
                            if op.precedence() == precedence {
                                match op.operate(&cur, &num) {
                                    Err(e) => {
                                        return Err(e);
                                    },
                                    Ok(v) => {
                                        cur = v;
                                    },
                                }
                            } else {
                                next_parts.push(ExpressionPart::Number(cur));
                                next_parts.push(ExpressionPart::Operator(op));
                                proof {
                                    let pair = seq![
                                        ExpressionPart::Number(cur),
                                        ExpressionPart::Operator(op),
                                    ];
                                    let rest = collapse_from(
                                        parts@.skip(i + 2),
                                        precedence,
                                        num,
                                    );
                                    assert(prepend(kept, prepend(pair, rest)) == prepend(
                                        kept + pair,
                                        rest,
                                    )) by {
                                        if let Ok(items) = rest {
                                            assert(kept + (pair + items) =~= (kept + pair) + items);
                                        }
                                    }
                                    assert(next_parts@ =~= old(next_parts)@ + (kept + pair));
                                    kept = kept + pair;
                                }
                                cur = num;
                            }
                        },
                    }
                    i = i + 2;
                },
            }
        }
        assert(parts@.skip(i as int) =~= Seq::empty());
        next_parts.push(ExpressionPart::Number(cur));
        assert(next_parts@ =~= old(next_parts)@ + (kept + seq![ExpressionPart::Number(cur)]));
        Ok(())
    }

    /// The printed length of the expression; none where a number is no
    /// integer.
    pub fn len(&self) -> (r: Result<usize, InvalidExpressionError>)
        requires
            11 * self.parts@.len() <= usize::MAX,
        ensures
            r == parts_len(self.parts@),
            r matches Ok(n) ==> n == parts_text(self.parts@).len(),
    {
        let mut sum: usize = 0;
        let mut i: usize = 0;
        while i < self.parts.len()
            invariant
                i <= self.parts@.len(),
                11 * self.parts@.len() <= usize::MAX,
                all_integers(self.parts@.take(i as int)),
                sum == parts_text(self.parts@.take(i as int)).len(),
                sum <= 11 * i,
            decreases self.parts@.len() - i,
        {
            let ghost before = self.parts@.take(i as int);
            let ghost after = self.parts@.take(i + 1);
            proof {
                assert(after =~= before.push(self.parts@[i as int]));
                lemma_parts_text_push(before, self.parts@[i as int]);
            }
            match self.parts[i].len() {
                Ok(n) => {
                    sum = sum + n;
                },
                Err(e) => {
                    assert(!all_integers(self.parts@));
                    return Err(e);
                },
            }
            i += 1;
        }
        assert(self.parts@.take(i as int) =~= self.parts@);
        Ok(sum)
    }

    /// The text of the expression as bytes.
    pub fn render(&self) -> (out: Vec<u8>)
        ensures
            out@ == parts_text(self.parts@),
    {
        let mut out: Vec<u8> = Vec::new();
        let mut i: usize = 0;
        while i < self.parts.len()
            invariant
                i <= self.parts@.len(),
                out@ == parts_text(self.parts@.take(i as int)),
            decreases self.parts@.len() - i,
        {
            proof {
                assert(self.parts@.take(i + 1) =~= self.parts@.take(i as int).push(
                    self.parts@[i as int],
                ));
                lemma_parts_text_push(self.parts@.take(i as int), self.parts@[i as int]);
            }
            match self.parts[i] {
                ExpressionPart::Number(num) => {
                    push_number(&mut out, &num);
                },
                ExpressionPart::Operator(op) => {
                    out.push(op.to_char_byte());
                },
            }
            i += 1;
        }
        assert(self.parts@.take(i as int) =~= self.parts@);
        out
    }

    /// The text of the expression.
    pub fn to_string(&self) -> (s: String)
        ensures
            s@ == as_chars(parts_text(self.parts@)),
    {
        let bytes = self.render();
        proof {
            lemma_parts_text_symbols(self.parts@);
        }
        symbols_to_string(&bytes)
    }
}


/// Whether `b` is white space between the items of an expression.
pub open spec fn is_space(b: u8) -> bool {
    b == 32 || b == 10 || b == 13
}

/// The number that a run of digits read so far stands for, as a part.
pub open spec fn flush(acc: Option<i32>) -> Seq<ExpressionPart> {
    match acc {
        Some(v) => seq![ExpressionPart::Number(ExpressionNumber { numerator: v, denominator: 1 })],
        None => Seq::empty(),
    }
}

/// The parts that the text `s` holds, read from the left; `acc` is the
/// value of the run of digits that ends where `s` begins. A run of digits
/// is one number, `+ - * /` are operators, blanks and line ends only part
/// runs of digits, and any other byte is an error, as is a number above
/// `i32::MAX`.
pub open spec fn tokenize(s: Seq<u8>, acc: Option<i32>) -> Result<
    Seq<ExpressionPart>,
    InvalidExpressionError,
>
    decreases s.len(),
{
    if s.len() == 0 {
        Ok(flush(acc))
    } else {
        let c = s[0];
        let rest = s.drop_first();
        if is_digit(c) {
            let v = (match acc {
                Some(a) => a as int,
                None => 0,
            }) * 10 + (c - 48);
            if v > i32::MAX {
                Err(failure(ExpressionErrorKind::NumberTooLarge))
            } else {
                tokenize(rest, Some(v as i32))
            }
        } else if is_space(c) {
            prepend(flush(acc), tokenize(rest, None))
        } else {
            match operator_of_byte(c) {
                Some(op) => prepend(
                    flush(acc).push(ExpressionPart::Operator(op)),
                    tokenize(rest, None),
                ),
                None => Err(failure(ExpressionErrorKind::UnrecognizedCharacter(c))),
            }
        }
    }
}

/// The parts that a text holds.
pub open spec fn parse_parts(s: Seq<u8>) -> Result<Seq<ExpressionPart>, InvalidExpressionError> {
    tokenize(s, None)
}

proof fn lemma_prepend_twice(
    a: Seq<ExpressionPart>,
    b: Seq<ExpressionPart>,
    tail: Result<Seq<ExpressionPart>, InvalidExpressionError>,
)
    ensures
        prepend(a, prepend(b, tail)) == prepend(a + b, tail),
{
    if let Ok(items) = tail {
        assert(a + (b + items) =~= (a + b) + items);
    }
}

/// Reads the parts that `bytes[start..end]` holds.
pub fn parse_range(bytes: &[u8], start: usize, end: usize) -> (r: Result<
    Vec<ExpressionPart>,
    InvalidExpressionError,
>)
    requires
        start <= end <= bytes@.len(),
    ensures
        match parse_parts(bytes@.subrange(start as int, end as int)) {
            Ok(parts) => r is Ok && r->Ok_0@ == parts,
            Err(e) => r == Err::<Vec<ExpressionPart>, InvalidExpressionError>(e),
        },
{
    let ghost s = bytes@.subrange(start as int, end as int);
    let mut parts: Vec<ExpressionPart> = Vec::new();
    let mut acc: Option<i32> = None;
    let mut i: usize = start;
    assert(s.skip(0) =~= s);
    assert(Seq::<ExpressionPart>::empty() + Seq::<ExpressionPart>::empty() =~= Seq::empty());
    while i < end
        invariant
            start <= i <= end <= bytes@.len(),
            s == bytes@.subrange(start as int, end as int),
            acc matches Some(a) ==> a >= 0,
            parse_parts(s) == prepend(parts@, tokenize(s.skip(i - start), acc)),
        decreases end - i,
    {
        let ghost here = s.skip(i - start);
        assert(here[0] == bytes@[i as int]);
        assert(here.drop_first() =~= s.skip(i + 1 - start));
        let c: u8 = bytes[i];
        if 48 <= c && c <= 57 {
            let so_far: i64 = match acc {
                Some(a) => a as i64,
                None => 0,
            };
            let v: i64 = so_far * 10 + (c - 48) as i64;
            if v > 0x7fff_ffff {
                return Err(InvalidExpressionError { kind: ExpressionErrorKind::NumberTooLarge });
            }
            acc = Some(v as i32);
        } else {
            let ghost before = parts@;
            let ghost flushed = flush(acc);
            match acc {
                Some(a) => {
                    parts.push(ExpressionPart::Number(ExpressionNumber::new(a)));
                },
                None => {},
            }
            assert(parts@ =~= before + flushed);
            acc = None;
            if c == 32 || c == 10 || c == 13 {
                proof {
                    lemma_prepend_twice(before, flushed, tokenize(s.skip(i + 1 - start), None));
                }
            } else {
                match ExpressionPart::from_char_byte(&c) {
                    Ok(part) => {
                        parts.push(part);
                        proof {
                            assert(parts@ =~= before + flushed.push(part));
                            lemma_prepend_twice(
                                before,
                                flushed.push(part),
                                tokenize(s.skip(i + 1 - start), None),
                            );
                        }
                    },
                    Err(e) => {
                        return Err(e);
                    },
                }
            }
        }
        i += 1;
    }
    assert(s.skip(i - start) =~= Seq::empty());
    let ghost before = parts@;
    match acc {
        Some(a) => {
            parts.push(ExpressionPart::Number(ExpressionNumber::new(a)));
        },
        None => {},
    }
    assert(parts@ =~= before + flush(acc));
    Ok(parts)
}

impl Expression {
    /// Reads an expression from its text.
    pub fn parse(input: &str) -> (r: Result<Expression, InvalidExpressionError>)
        ensures
            match parse_parts(input.spec_bytes()) {
                Ok(parts) => r is Ok && r->Ok_0.parts@ == parts,
                Err(e) => r == Err::<Expression, InvalidExpressionError>(e),
            },
    {
        let bytes = input.as_bytes();
        assert(bytes@.subrange(0, bytes@.len() as int) =~= bytes@);
        match parse_range(bytes, 0, bytes.len()) {
            Ok(parts) => Ok(Expression { parts }),
            Err(e) => Err(e),
        }
    }
}

impl std::str::FromStr for Expression {
    type Err = InvalidExpressionError;

    fn from_str(input: &str) -> (r: Result<Self, Self::Err>)
        ensures
            match parse_parts(input.spec_bytes()) {
                Ok(parts) => r is Ok && r->Ok_0.parts@ == parts,
                Err(e) => r == Err::<Expression, InvalidExpressionError>(e),
            },
    {
        Expression::parse(input)
    }
}

} // verus!
