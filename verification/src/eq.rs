//! Equations: an expression and the number it is said to equal, their text,
//! and the proof that reading the text of an equation gives it back.

use vstd::prelude::*;
use vstd::string::StringSliceAdditionalSpecFns;
use crate::expr::{
    all_integers, alternates, calculate_spec, continues, flush, lemma_continues_skip,
    lemma_parts_text_push, lemma_parts_text_symbols, number_text, operator_byte, parse_parts,
    parse_range, part_text, parts_text, tokenize, Expression, ExpressionErrorKind,
    ExpressionNumber, ExpressionPart, InvalidExpressionError,
};
use crate::text::{as_chars, digits_of, is_symbol, lemma_int_text, push_int, symbols_to_string};

verus! {

/// Why an equation could not be read or measured.
#[derive(Clone, Copy, Debug, PartialEq, Eq)]
pub enum EquationErrorKind {
    /// One side of the equation is no expression, or holds a fraction that
    /// has no printed length.
    Expression(ExpressionErrorKind),
    /// The text holds no `=`.
    MissingEqualSign,
    /// What follows the `=` is not one single number.
    ResultNotNumber,
    /// The text holds more than one `=`.
    TooManyEqualSigns,
}

/// The failure of reading or measuring an equation.
#[derive(Clone, Copy, Debug, PartialEq, Eq)]
pub struct InvalidEquationError {
    pub kind: EquationErrorKind,
}

impl From<InvalidExpressionError> for InvalidEquationError {
    fn from(error: InvalidExpressionError) -> (r: Self) {
        InvalidEquationError { kind: EquationErrorKind::Expression(error.kind) }
    }
}

impl vstd::std_specs::convert::FromSpecImpl<InvalidExpressionError> for InvalidEquationError {
    open spec fn obeys_from_spec() -> bool {
        true
    }

    open spec fn from_spec(error: InvalidExpressionError) -> Self {
        InvalidEquationError { kind: EquationErrorKind::Expression(error.kind) }
    }
}

/// An expression and the number it is said to equal.
#[derive(Clone, Debug, PartialEq, Eq)]
pub struct Equation {
    pub expr: Expression,
    pub res: ExpressionNumber,
}

/// The failure of an equation for the given reason.
pub open spec fn equation_failure(kind: EquationErrorKind) -> InvalidEquationError {
    InvalidEquationError { kind }
}

/// The failure of an equation that one of its sides caused.
pub open spec fn side_failure(e: InvalidExpressionError) -> InvalidEquationError {
    InvalidEquationError { kind: EquationErrorKind::Expression(e.kind) }
}

/// The text of an equation: its left side, `=`, and its result.
pub open spec fn equation_text(parts: Seq<ExpressionPart>, res: ExpressionNumber) -> Seq<u8> {
    parts_text(parts) + seq![61u8] + number_text(res)
}

/// Whether the expression of the given parts evaluates, and to `res`.
pub open spec fn computes_parts(parts: Seq<ExpressionPart>, res: ExpressionNumber) -> Result<
    bool,
    InvalidExpressionError,
> {
    match calculate_spec(parts) {
        Ok(v) => Ok(v == res),
        Err(e) => Err(e),
    }
}

/// The printed length of the equation of the given parts and result: that
/// of its text, where all numbers are integers.
pub open spec fn len_parts(parts: Seq<ExpressionPart>, res: ExpressionNumber) -> Result<
    usize,
    InvalidEquationError,
> {
    if all_integers(parts) && res.is_integer() {
        Ok(equation_text(parts, res).len() as usize)
    } else {
        Err(equation_failure(EquationErrorKind::Expression(ExpressionErrorKind::NotInteger)))
    }
}

/// Where the first `=` of `s` stands; the length of `s` when it has none.
pub open spec fn first_equal(s: Seq<u8>) -> int
    decreases s.len(),
{
    if s.len() == 0 {
        0
    } else if s[0] == 61 {
        0
    } else {
        1 + first_equal(s.drop_first())
    }
}

/// The equation that the text `s` holds: an expression up to the first `=`,
/// then one number up to the end. The left side is read first, so that its
/// errors come first; a second `=` is the last thing looked for.
pub open spec fn parse_equation(s: Seq<u8>) -> Result<
    (Seq<ExpressionPart>, ExpressionNumber),
    InvalidEquationError,
> {
    let e1 = first_equal(s);
    match parse_parts(s.take(e1)) {
        Err(e) => Err(side_failure(e)),
        Ok(left) => if e1 == s.len() {
            Err(equation_failure(EquationErrorKind::MissingEqualSign))
        } else {
            let after = s.skip(e1 + 1);
            let e2 = first_equal(after);
            match parse_parts(after.take(e2)) {
                Err(e) => Err(side_failure(e)),
                Ok(right) => if right.len() != 1 {
                    Err(equation_failure(EquationErrorKind::ResultNotNumber))
                } else {
                    match right[0] {
                        ExpressionPart::Operator(_) => Err(
                            equation_failure(EquationErrorKind::ResultNotNumber),
                        ),
                        ExpressionPart::Number(n) => if e2 < after.len() {
                            Err(equation_failure(EquationErrorKind::TooManyEqualSigns))
                        } else {
                            Ok((left, n))
                        },
                    }
                },
            }
        },
    }
}

/// An integer that is not negative, as the game writes its numbers.
pub open spec fn is_literal(n: ExpressionNumber) -> bool {
    n.is_integer() && n.numerator >= 0
}

/// Whether every number among `parts` is a literal.
pub open spec fn all_literals(parts: Seq<ExpressionPart>) -> bool {
    forall|i: int|
        0 <= i < parts.len() ==> (#[trigger] parts[i] matches ExpressionPart::Number(n)
            ==> is_literal(n))
}

/// A well-formed expression of literals: literals and operators in turn,
/// with a literal at both ends.
pub open spec fn is_well_formed(parts: Seq<ExpressionPart>) -> bool {
    alternates(parts) && all_literals(parts)
}

fn find_equal(bytes: &[u8], from: usize) -> (r: usize)
    requires
        from <= bytes@.len(),
    ensures
        r == from + first_equal(bytes@.skip(from as int)),
        from <= r <= bytes@.len(),
{
    let mut i: usize = from;
    while i < bytes.len()
        invariant
            from <= i <= bytes@.len(),
            first_equal(bytes@.skip(from as int)) == (i - from) + first_equal(
                bytes@.skip(i as int),
            ),
        decreases bytes@.len() - i,
    {
        assert(bytes@.skip(i as int)[0] == bytes@[i as int]);
        assert(bytes@.skip(i as int).drop_first() =~= bytes@.skip(i + 1));
        if bytes[i] == 61 {
            return i;
        }
        i += 1;
    }
    assert(bytes@.skip(i as int).len() == 0);
    i
}

impl Equation {
    /// The text of the equation.
    pub open spec fn text(&self) -> Seq<u8> {
        equation_text(self.expr.parts@, self.res)
    }

    /// Whether the left side evaluates, and to the result, as a
    /// specification.
    pub open spec fn computes_spec(&self) -> Result<bool, InvalidExpressionError> {
        computes_parts(self.expr.parts@, self.res)
    }

    /// The printed length, as a specification: that of the text, where all
    /// numbers are integers.
    pub open spec fn len_spec(&self) -> Result<usize, InvalidEquationError> {
        len_parts(self.expr.parts@, self.res)
    }

    /// Whether the left side evaluates to the result. An expression that
    /// cannot be evaluated is an error.
    pub fn computes(&self) -> (r: Result<bool, InvalidExpressionError>)
        ensures
            r == self.computes_spec(),
    {
        match self.expr.calculate() {
            Ok(calc) => Ok(calc == self.res),
            Err(e) => Err(e),
        }
    }

    /// The printed length of the equation: that of its numbers, one for
    /// each operator and one for the `=`.
    pub fn len(&self) -> (r: Result<usize, InvalidEquationError>)
        requires
            11 * self.expr.parts@.len() + 12 <= usize::MAX,
        ensures
            r == self.len_spec(),
            r matches Ok(n) ==> n == self.text().len(),
    {
        let left: usize = match self.expr.len() {
            Ok(n) => n,
            Err(e) => {
                return Err(InvalidEquationError::from(e));
            },
        };
        let right: usize = match self.res.len() {
            Ok(n) => n,
            Err(e) => {
                return Err(InvalidEquationError::from(e));
            },
        };
        proof {
            lemma_int_text(self.res.numerator as int);
            lemma_text_len_bound(self.expr.parts@);
        }
        Ok(left + right + 1)
    }

    /// The text of the equation as bytes.
    pub fn render(&self) -> (out: Vec<u8>)
        ensures
            out@ == self.text(),
            forall|i: int| 0 <= i < out@.len() ==> is_symbol(#[trigger] out@[i]),
    {
        let mut out: Vec<u8> = self.expr.render();
        out.push(61);
        push_int(&mut out, self.res.numerator);
        if !self.res.is_int() {
            out.push(47);
            push_int(&mut out, self.res.denominator);
        }
        assert(out@ =~= self.text());
        proof {
            lemma_equation_text_symbols(self.expr.parts@, self.res);
        }
        out
    }

    /// The text of the equation.
    pub fn to_string(&self) -> (s: String)
        ensures
            s@ == as_chars(self.text()),
            vstd::utf8::encode_utf8(s@) == self.text(),
    {
        let bytes = self.render();
        symbols_to_string(&bytes)
    }

    /// Reads an equation from its text: an expression, `=`, and one number.
    pub fn parse(input: &str) -> (r: Result<Equation, InvalidEquationError>)
        ensures
            match parse_equation(input.spec_bytes()) {
                Ok((parts, res)) => r is Ok && r->Ok_0.expr.parts@ == parts && r->Ok_0.res == res,
                Err(e) => r == Err::<Equation, InvalidEquationError>(e),
            },
    {
        let bytes = input.as_bytes();
        let ghost s = bytes@;
        assert(s.skip(0) =~= s);
        let e1: usize = find_equal(bytes, 0);
        assert(s.subrange(0, e1 as int) =~= s.take(e1 as int));
        let left: Vec<ExpressionPart> = match parse_range(bytes, 0, e1) {
            Ok(parts) => parts,
            Err(e) => {
                return Err(InvalidEquationError::from(e));
            },
        };
        if e1 == bytes.len() {
            return Err(InvalidEquationError { kind: EquationErrorKind::MissingEqualSign });
        }
        let e2: usize = find_equal(bytes, e1 + 1);
        let ghost after = s.skip(e1 + 1);
        assert(s.subrange(e1 + 1, e2 as int) =~= after.take(e2 - e1 - 1));
        let right: Vec<ExpressionPart> = match parse_range(bytes, e1 + 1, e2) {
            Ok(parts) => parts,
            Err(e) => {
                return Err(InvalidEquationError::from(e));
            },
        };
        if right.len() != 1 {
            return Err(InvalidEquationError { kind: EquationErrorKind::ResultNotNumber });
        }
        let res: ExpressionNumber = match right[0] {
            ExpressionPart::Number(n) => n,
            ExpressionPart::Operator(_) => {
                return Err(InvalidEquationError { kind: EquationErrorKind::ResultNotNumber });
            },
        };
        if e2 < bytes.len() {
            return Err(InvalidEquationError { kind: EquationErrorKind::TooManyEqualSigns });
        }
        Ok(Equation { expr: Expression { parts: left }, res })
    }
}

impl std::str::FromStr for Equation {
    type Err = InvalidEquationError;

    fn from_str(input: &str) -> (r: Result<Self, Self::Err>)
        ensures
            match parse_equation(input.spec_bytes()) {
                Ok((parts, res)) => r is Ok && r->Ok_0.expr.parts@ == parts && r->Ok_0.res == res,
                Err(e) => r == Err::<Equation, InvalidEquationError>(e),
            },
    {
        Equation::parse(input)
    }
}

/// The text of integer parts is at most eleven bytes for each part.
pub proof fn lemma_text_len_bound(parts: Seq<ExpressionPart>)
    requires
        all_integers(parts),
    ensures
        parts_text(parts).len() <= 11 * parts.len(),
    decreases parts.len(),
{
    if parts.len() > 0 {
        assert(all_integers(parts.drop_last())) by {
            assert forall|i: int| 0 <= i < parts.drop_last().len() implies (
            #[trigger] parts.drop_last()[i] matches ExpressionPart::Number(n)
                ==> n.is_integer()) by {
                assert(parts.drop_last()[i] == parts[i]);
            }
        }
        lemma_text_len_bound(parts.drop_last());
        match parts.last() {
            ExpressionPart::Number(n) => {
                lemma_int_text(n.numerator as int);
                crate::util::lemma_printed_len_i32(n.numerator as int);
            },
            ExpressionPart::Operator(_) => {},
        }
    }
}

/// The text of an equation holds symbols only.
pub proof fn lemma_equation_text_symbols(parts: Seq<ExpressionPart>, res: ExpressionNumber)
    ensures
        forall|i: int|
            0 <= i < equation_text(parts, res).len() ==> is_symbol(
                #[trigger] equation_text(parts, res)[i],
            ),
{
    lemma_parts_text_symbols(parts);
    lemma_parts_text_symbols(seq![ExpressionPart::Number(res)]);
    let single = seq![ExpressionPart::Number(res)];
    assert(single =~= Seq::<ExpressionPart>::empty().push(ExpressionPart::Number(res)));
    lemma_parts_text_push(Seq::empty(), ExpressionPart::Number(res));
    assert(parts_text(single) =~= number_text(res));
    let a = parts_text(parts);
    let b = number_text(res);
    let t = equation_text(parts, res);
    assert forall|i: int| 0 <= i < t.len() implies is_symbol(#[trigger] t[i]) by {
        if i < a.len() {
            assert(t[i] == a[i]);
        } else if i > a.len() {
            assert(t[i] == b[i - a.len() - 1]);
        }
    }
}


proof fn lemma_tokenize_digits(v: nat, rest: Seq<u8>)
    requires
        v <= i32::MAX,
    ensures
        tokenize(digits_of(v) + rest, None) == tokenize(rest, Some(v as i32)),
    decreases v,
{
    if v < 10 {
        let s = digits_of(v) + rest;
        assert(s[0] == (48 + v) as u8);
        assert(s.drop_first() =~= rest);
    } else {
        let d = (48 + v % 10) as u8;
        let tail = seq![d] + rest;
        assert(digits_of(v) + rest =~= digits_of(v / 10) + tail);
        lemma_tokenize_digits(v / 10, tail);
        assert(tail[0] == d);
        assert(tail.drop_first() =~= rest);
        assert((v / 10) * 10 + (d - 48) == v);
    }
}

proof fn lemma_parts_text_front(p: ExpressionPart, rest: Seq<ExpressionPart>)
    ensures
        parts_text(seq![p] + rest) == part_text(p) + parts_text(rest),
    decreases rest.len(),
{
    let all = seq![p] + rest;
    if rest.len() == 0 {
        assert(all =~= Seq::<ExpressionPart>::empty().push(p));
        lemma_parts_text_push(Seq::empty(), p);
        assert(parts_text(all) =~= part_text(p) + parts_text(rest));
    } else {
        assert(all.drop_last() =~= seq![p] + rest.drop_last());
        assert(all.last() == rest.last());
        lemma_parts_text_front(p, rest.drop_last());
        assert(parts_text(all) =~= part_text(p) + parts_text(rest));
    }
}

proof fn lemma_tokenize_continuation(parts: Seq<ExpressionPart>, v: i32)
    requires
        continues(parts),
        all_literals(parts),
        v >= 0,
    ensures
        tokenize(parts_text(parts), Some(v)) == Ok::<Seq<ExpressionPart>, InvalidExpressionError>(
            flush(Some(v)) + parts,
        ),
    decreases parts.len(),
{
    if parts.len() == 0 {
        assert(flush(Some(v)) + parts =~= flush(Some(v)));
    } else {
        lemma_continues_skip(parts);
        let op = parts[0]->Operator_0;
        let n = parts[1]->Number_0;
        assert(is_literal(n));
        let rest = parts.skip(2);
        assert(parts =~= seq![parts[0]] + (seq![parts[1]] + rest));
        lemma_parts_text_front(parts[0], seq![parts[1]] + rest);
        lemma_parts_text_front(parts[1], rest);
        let t1 = digits_of(n.numerator as nat) + parts_text(rest);
        let text = parts_text(parts);
        assert(text =~= seq![operator_byte(op)] + t1);
        assert(text[0] == operator_byte(op));
        assert(text.drop_first() =~= t1);
        lemma_tokenize_digits(n.numerator as nat, parts_text(rest));
        assert(all_literals(rest)) by {
            assert forall|i: int| 0 <= i < rest.len() implies (
            #[trigger] rest[i] matches ExpressionPart::Number(m) ==> is_literal(m)) by {
                assert(rest[i] == parts[i + 2]);
            }
        }
        lemma_tokenize_continuation(rest, n.numerator);
        assert(flush(Some(v)).push(ExpressionPart::Operator(op)) + (flush(Some(n.numerator))
            + rest) =~= flush(Some(v)) + parts);
    }
}

/// Reading the text of a well-formed expression of literals gives the
/// expression back.
pub proof fn lemma_expression_round_trip(parts: Seq<ExpressionPart>)
    requires
        is_well_formed(parts),
    ensures
        parse_parts(parts_text(parts)) == Ok::<Seq<ExpressionPart>, InvalidExpressionError>(parts),
{
    let a = parts[0]->Number_0;
    let tail = parts.skip(1);
    assert(is_literal(a));
    assert(parts =~= seq![parts[0]] + tail);
    lemma_parts_text_front(parts[0], tail);
    lemma_tokenize_digits(a.numerator as nat, parts_text(tail));
    assert(all_literals(tail)) by {
        assert forall|i: int| 0 <= i < tail.len() implies (
        #[trigger] tail[i] matches ExpressionPart::Number(m) ==> is_literal(m)) by {
            assert(tail[i] == parts[i + 1]);
        }
    }
    lemma_tokenize_continuation(tail, a.numerator);
    assert(flush(Some(a.numerator)) + tail =~= parts);
}

proof fn lemma_first_equal_none(s: Seq<u8>)
    requires
        forall|i: int| 0 <= i < s.len() ==> #[trigger] s[i] != 61,
    ensures
        first_equal(s) == s.len(),
    decreases s.len(),
{
    if s.len() > 0 {
        assert forall|i: int| 0 <= i < s.drop_first().len() implies #[trigger] s.drop_first()[i]
            != 61 by {
            assert(s.drop_first()[i] == s[i + 1]);
        }
        lemma_first_equal_none(s.drop_first());
    }
}

proof fn lemma_first_equal_split(left: Seq<u8>, right: Seq<u8>)
    requires
        forall|i: int| 0 <= i < left.len() ==> #[trigger] left[i] != 61,
    ensures
        first_equal(left + seq![61u8] + right) == left.len(),
    decreases left.len(),
{
    let s = left + seq![61u8] + right;
    if left.len() > 0 {
        assert(s[0] == left[0]);
        assert(s.drop_first() =~= left.drop_first() + seq![61u8] + right);
        assert forall|i: int| 0 <= i < left.drop_first().len() implies
            #[trigger] left.drop_first()[i] != 61 by {
            assert(left.drop_first()[i] == left[i + 1]);
        }
        lemma_first_equal_split(left.drop_first(), right);
    } else {
        assert(s[0] == 61);
    }
}

/// Reading the text of an equation gives the equation back, where its left
/// side is a well-formed expression of literals and its result a literal:
/// the same parts and the same result, and so the same length.
pub proof fn lemma_equation_round_trip(parts: Seq<ExpressionPart>, res: ExpressionNumber)
    requires
        is_well_formed(parts),
        is_literal(res),
    ensures
        parse_equation(equation_text(parts, res)) == Ok::<
            (Seq<ExpressionPart>, ExpressionNumber),
            InvalidEquationError,
        >((parts, res)),
{
    let left = parts_text(parts);
    let right = number_text(res);
    let s = equation_text(parts, res);
    lemma_parts_text_symbols(parts);
    lemma_int_text(res.numerator as int);
    lemma_first_equal_split(left, right);
    assert(s.take(left.len() as int) =~= left);
    lemma_expression_round_trip(parts);
    let after = s.skip(left.len() as int + 1);
    assert(after =~= right);
    lemma_first_equal_none(right);
    assert(after.take(right.len() as int) =~= right);
    assert(right + Seq::<u8>::empty() =~= right);
    lemma_tokenize_digits(res.numerator as nat, Seq::empty());
    assert(flush(Some(res.numerator))[0] == ExpressionPart::Number(res));
}

} // verus!
