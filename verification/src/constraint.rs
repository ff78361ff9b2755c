//! Constraints on the numbers and on the structure of an equation, with
//! the regular expressions that the digits of a number are held against.

use vstd::prelude::*;
use std::collections::HashMap;
use std::ops::RangeInclusive;
use regex::Regex;
use crate::eq::{equation_text, Equation};
use crate::expr::{ExpressionNumber, ExpressionOperatorEnum, ExpressionPart, mknum, operator_byte};
use crate::nerdle::{NERDLE_MAX_OPS, NERDLE_NUM_MAX};
use crate::nerdledata::{matches_spec, NerdleData};
use crate::text::{as_chars, int_text, lemma_int_text, push_int, symbols_to_string};
use crate::util::{lemma_digit_count_bounds, printed_len, range_rand_or_only};

verus! {

/// Why no value or equation could be produced or accepted.
#[derive(Clone, Copy, Debug, PartialEq, Eq)]
pub enum NoMatchKind {
    /// The range to choose from holds no value.
    EmptyRange,
    /// The value is not an integer.
    NotInteger,
    /// The value lies outside the range of its slot.
    OutOfRange,
    /// The value does not fit the digits known for its slot.
    ValueRejected,
    /// The equation has a number of operators that is not allowed.
    OperatorCount,
    /// The equation uses an operator that is not allowed.
    OperatorNotAllowed,
    /// The equation is not of the shape `a op b` or `a op b op b2`.
    UnrecognizedShape,
    /// The equation contradicts what feedback has shown.
    EquationRejected,
    /// The attempts were used up.
    OutOfAttempts,
}

/// The failure of a search: nothing was found that fits the constraint.
#[derive(Clone, Copy, Debug, PartialEq, Eq)]
pub struct NoMatchFound {
    pub kind: NoMatchKind,
}

/// The failure of a search for the given reason.
pub open spec fn no_match(kind: NoMatchKind) -> NoMatchFound {
    NoMatchFound { kind }
}

/// A compiled regular expression of the `regex` crate.
#[verifier::external_type_specification]
#[verifier::external_body]
pub struct ExRegex(regex::Regex);

/// The error that `regex` gives for a pattern it cannot compile.
#[verifier::external_type_specification]
#[verifier::external_body]
pub struct ExRegexError(regex::Error);

/// The pattern that a regular expression was compiled from: what
/// `Regex::as_str` gives.
pub uninterp spec fn regex_source(re: Regex) -> Seq<char>;

/// Whether the regular expression with the given pattern matches somewhere
/// in `text`: what `Regex::is_match` gives.
pub uninterp spec fn regex_matches(pattern: Seq<char>, text: Seq<char>) -> bool;

/// Whether the pattern is one that `Regex::new` compiles.
pub uninterp spec fn regex_compiles(pattern: Seq<char>) -> bool;

/// Compiles `pattern` with `Regex::new`. Whether it compiles depends on
/// the pattern alone; a regular expression that comes back keeps the
/// pattern it was made from.
#[verifier::external_body]
pub(crate) fn regex_compile(pattern: &str) -> (r: Result<Regex, regex::Error>)
    ensures
        r is Ok <==> regex_compiles(pattern@),
        r matches Ok(re) ==> regex_source(re) == pattern@,
{
    Regex::new(pattern)
}

/// Asks `Regex::is_match` whether `re` matches somewhere in `text`. The
/// answer depends on the pattern of `re` and on `text` alone.
#[verifier::external_body]
pub(crate) fn regex_is_match(re: &Regex, text: &str) -> (b: bool)
    ensures
        b == regex_matches(regex_source(*re), text@),
{
    re.is_match(text)
}

/// Copies `re` with its `Clone`: the copy has the same pattern.
#[verifier::external_body]
pub(crate) fn regex_clone(re: &Regex) -> (r: Regex)
    ensures
        regex_source(r) == regex_source(*re),
{
    re.clone()
}

/// What the text of a number must fit: every one of some patterns, or
/// nothing fits at all.
pub struct NumberAcceptor {
    /// No number is accepted.
    pub rejects: bool,
    /// The patterns that the text of a number must match, every one.
    pub patterns: Vec<Regex>,
}

/// An acceptor as a mathematical value: its patterns as text.
pub struct AcceptorView {
    pub rejects: bool,
    pub patterns: Seq<Seq<char>>,
}

impl View for NumberAcceptor {
    type V = AcceptorView;

    open spec fn view(&self) -> AcceptorView {
        AcceptorView {
            rejects: self.rejects,
            patterns: Seq::new(self.patterns@.len(), |i: int| regex_source(self.patterns@[i])),
        }
    }
}

impl AcceptorView {
    /// Whether `text` is accepted.
    pub open spec fn accepts(self, text: Seq<char>) -> bool {
        &&& !self.rejects
        &&& forall|i: int|
            0 <= i < self.patterns.len() ==> regex_matches(#[trigger] self.patterns[i], text)
    }

    /// What both `self` and `other` accept.
    pub open spec fn and(self, other: AcceptorView) -> AcceptorView {
        AcceptorView {
            rejects: self.rejects || other.rejects,
            patterns: self.patterns + other.patterns,
        }
    }
}

/// The text of the integer `v` as characters.
pub open spec fn number_chars(v: i32) -> Seq<char> {
    as_chars(int_text(v as int))
}

impl NumberAcceptor {
    /// The acceptor that accepts every number.
    pub fn anything() -> (r: NumberAcceptor)
        ensures
            r@ == (AcceptorView { rejects: false, patterns: Seq::empty() }),
    {
        let r = NumberAcceptor { rejects: false, patterns: Vec::new() };
        assert(r@.patterns =~= Seq::empty());
        r
    }

    /// The acceptor that accepts no number.
    pub fn nothing() -> (r: NumberAcceptor)
        ensures
            r@ == (AcceptorView { rejects: true, patterns: Seq::empty() }),
    {
        let r = NumberAcceptor { rejects: true, patterns: Vec::new() };
        assert(r@.patterns =~= Seq::empty());
        r
    }

    /// The acceptor of the numbers whose text `re` matches.
    pub fn matching(re: Regex) -> (r: NumberAcceptor)
        ensures
            r@ == (AcceptorView { rejects: false, patterns: seq![regex_source(re)] }),
    {
        let mut patterns: Vec<Regex> = Vec::new();
        patterns.push(re);
        let r = NumberAcceptor { rejects: false, patterns };
        assert(r@.patterns =~= seq![regex_source(re)]);
        r
    }

    /// The acceptor of what both `a` and `b` accept.
    pub fn both(a: &NumberAcceptor, b: &NumberAcceptor) -> (r: NumberAcceptor)
        ensures
            r@ == a@.and(b@),
    {
        let mut patterns: Vec<Regex> = Vec::new();
        let mut i: usize = 0;
        while i < a.patterns.len()
            invariant
                i <= a.patterns@.len(),
                patterns@.len() == i,
                forall|j: int|
                    0 <= j < i ==> regex_source(#[trigger] patterns@[j]) == regex_source(
                        a.patterns@[j],
                    ),
            decreases a.patterns@.len() - i,
        {
            patterns.push(regex_clone(&a.patterns[i]));
            i += 1;
        }
        let mut k: usize = 0;
        while k < b.patterns.len()
            invariant
                k <= b.patterns@.len(),
                patterns@.len() == a.patterns@.len() + k,
                forall|j: int|
                    0 <= j < a.patterns@.len() ==> regex_source(#[trigger] patterns@[j])
                        == regex_source(a.patterns@[j]),
                forall|j: int|
                    0 <= j < k ==> regex_source(#[trigger] patterns@[a.patterns@.len() + j])
                        == regex_source(b.patterns@[j]),
            decreases b.patterns@.len() - k,
        {
            patterns.push(regex_clone(&b.patterns[k]));
            k += 1;
        }
        let r = NumberAcceptor { rejects: a.rejects || b.rejects, patterns };
        assert(r@.patterns =~= a@.patterns + b@.patterns) by {
            assert forall|j: int| 0 <= j < r@.patterns.len() implies r@.patterns[j] == (a@.patterns
                + b@.patterns)[j] by {
                if j >= a.patterns@.len() {
                    assert(regex_source(patterns@[a.patterns@.len() + (j - a.patterns@.len())])
                        == regex_source(b.patterns@[j - a.patterns@.len()]));
                }
            }
        }
        r
    }

    /// Whether the text of the integer `v` is accepted.
    pub fn accepts_value(&self, v: i32) -> (r: bool)
        ensures
            r == self@.accepts(number_chars(v)),
    {
        if self.rejects {
            return false;
        }
        if self.patterns.len() == 0 {
            return true;
        }
        let mut bytes: Vec<u8> = Vec::new();
        push_int(&mut bytes, v);
        proof {
            lemma_int_text(v as int);
            assert(bytes@ =~= int_text(v as int));
        }
        let text: String = symbols_to_string(&bytes);
        let mut i: usize = 0;
        while i < self.patterns.len()
            invariant
                i <= self.patterns@.len(),
                text@ == number_chars(v),
                forall|j: int|
                    0 <= j < i ==> regex_matches(#[trigger] self@.patterns[j], number_chars(v)),
            decreases self.patterns@.len() - i,
        {
            if !regex_is_match(&self.patterns[i], text.as_str()) {
                assert(!regex_matches(self@.patterns[i as int], number_chars(v)));
                return false;
            }
            i += 1;
        }
        true
    }
}

/// What a number in one slot of an equation must meet: a range for its
/// value and an acceptor for its text.
pub struct ExpressionNumberConstraint {
    pub range: RangeInclusive<i32>,
    pub acceptor: NumberAcceptor,
}

impl ExpressionNumberConstraint {
    /// Whether `num` meets the constraint, and if not, why: it must be an
    /// integer, lie in the range, and have a text that is accepted.
    pub open spec fn admits(&self, num: ExpressionNumber) -> Result<(), NoMatchFound> {
        if !num.is_integer() {
            Err(no_match(NoMatchKind::NotInteger))
        } else if !(self.range@.start <= num.numerator <= self.range@.end) {
            Err(no_match(NoMatchKind::OutOfRange))
        } else if !self.acceptor@.accepts(number_chars(num.numerator)) {
            Err(no_match(NoMatchKind::ValueRejected))
        } else {
            Ok(())
        }
    }

    /// Whether the range holds no number.
    pub open spec fn is_empty(&self) -> bool {
        self.range@.start > self.range@.end
    }

    /// Whether the acceptor takes the text of every number of the range.
    pub open spec fn accepts_all(&self) -> bool {
        forall|v: i32|
            self.range@.start <= v <= self.range@.end ==> #[trigger] self.acceptor@.accepts(
                number_chars(v),
            )
    }

    /// The constraint that both `a` and `b` are met.
    pub fn intersect(a: &ExpressionNumberConstraint, b: &ExpressionNumberConstraint) -> (r:
        ExpressionNumberConstraint)
        ensures
            r.range@.start == larger(a.range@.start as int, b.range@.start as int),
            r.range@.end == smaller(a.range@.end as int, b.range@.end as int),
            r.acceptor@ == a.acceptor@.and(b.acceptor@),
            forall|num: ExpressionNumber|
                #[trigger] r.admits(num) is Ok <==> a.admits(num) is Ok && b.admits(num) is Ok,
    {
        let r = ExpressionNumberConstraint {
            range: range_intersect(&a.range, &b.range),
            acceptor: NumberAcceptor::both(&a.acceptor, &b.acceptor),
        };
        proof {
            assert forall|num: ExpressionNumber| #[trigger]
                r.admits(num) is Ok <==> a.admits(num) is Ok && b.admits(num) is Ok by {
                let text = number_chars(num.numerator);
                let both = a.acceptor@.and(b.acceptor@);
                if a.acceptor@.accepts(text) && b.acceptor@.accepts(text) {
                    assert forall|i: int| 0 <= i < both.patterns.len() implies regex_matches(
                        #[trigger] both.patterns[i],
                        text,
                    ) by {
                        if i < a.acceptor@.patterns.len() {
                            assert(both.patterns[i] == a.acceptor@.patterns[i]);
                        } else {
                            assert(both.patterns[i] == b.acceptor@.patterns[i
                                - a.acceptor@.patterns.len()]);
                        }
                    }
                }
                if both.accepts(text) {
                    assert forall|i: int| 0 <= i < a.acceptor@.patterns.len() implies regex_matches(
                        #[trigger] a.acceptor@.patterns[i],
                        text,
                    ) by {
                        assert(both.patterns[i] == a.acceptor@.patterns[i]);
                    }
                    assert forall|i: int| 0 <= i < b.acceptor@.patterns.len() implies regex_matches(
                        #[trigger] b.acceptor@.patterns[i],
                        text,
                    ) by {
                        assert(both.patterns[a.acceptor@.patterns.len() + i]
                            == b.acceptor@.patterns[i]);
                    }
                }
            }
        }
        r
    }

    /// Whether `num` meets the constraint, and if not, why.
    pub fn accept(&self, num: &ExpressionNumber) -> (r: Result<(), NoMatchFound>)
        ensures
            r == self.admits(*num),
    {
        match num.int_value() {
            Ok(value) => {
                if value < *self.range.start() || value > *self.range.end() {
                    Err(NoMatchFound { kind: NoMatchKind::OutOfRange })
                } else if !self.acceptor.accepts_value(value) {
                    Err(NoMatchFound { kind: NoMatchKind::ValueRejected })
                } else {
                    Ok(())
                }
            },
            Err(_) => Err(NoMatchFound { kind: NoMatchKind::NotInteger }),
        }
    }

    /// The constraint of the range `start..=end` with nothing asked of the
    /// text.
    pub fn of_range(start: i32, end: i32) -> (r: ExpressionNumberConstraint)
        ensures
            r.range@.start == start,
            r.range@.end == end,
            r.acceptor@ == (AcceptorView { rejects: false, patterns: Seq::empty() }),
    {
        ExpressionNumberConstraint {
            range: RangeInclusive::new(start, end),
            acceptor: NumberAcceptor::anything(),
        }
    }
}

impl Default for ExpressionNumberConstraint {
    fn default() -> (r: Self)
        ensures
            r.range@.start == 0,
            r.range@.end == NERDLE_NUM_MAX,
            r.acceptor@ == (AcceptorView { rejects: false, patterns: Seq::empty() }),
    {
        ExpressionNumberConstraint::of_range(0, NERDLE_NUM_MAX)
    }
}

/// The larger of two integers.
pub open spec fn larger(a: int, b: int) -> int {
    if a >= b {
        a
    } else {
        b
    }
}

/// The smaller of two integers.
pub open spec fn smaller(a: int, b: int) -> int {
    if a <= b {
        a
    } else {
        b
    }
}

/// The range of what lies in both `a` and `b`: from the larger start to
/// the smaller end. It is empty where they do not meet.
pub fn range_intersect(a: &RangeInclusive<i32>, b: &RangeInclusive<i32>) -> (r: RangeInclusive<i32>)
    ensures
        r@.start == larger(a@.start as int, b@.start as int),
        r@.end == smaller(a@.end as int, b@.end as int),
        !r@.exhausted,
{
    let start: i32 = if *a.start() >= *b.start() {
        *a.start()
    } else {
        *b.start()
    };
    let end: i32 = if *a.end() <= *b.end() {
        *a.end()
    } else {
        *b.end()
    };
    RangeInclusive::new(start, end)
}

/// The least value of a range for one digit.
pub open spec fn least_digit(allow_zero: bool) -> int {
    if allow_zero {
        0
    } else {
        1
    }
}

/// The range of the numbers of exactly `digits` digits, for one to four
/// digits; with `allow_zero` a single digit may be 0. For any other number
/// of digits, the range from 1 to the largest number of the game.
pub fn range_for_digits(digits: usize, allow_zero: bool) -> (r: RangeInclusive<i32>)
    ensures
        !r@.exhausted,
        r@.start == (if digits == 1 {
            least_digit(allow_zero)
        } else if digits == 2 {
            10
        } else if digits == 3 {
            100
        } else if digits == 4 {
            1000
        } else {
            1
        }),
        r@.end == (if digits == 1 {
            9
        } else if digits == 2 {
            99
        } else if digits == 3 {
            999
        } else if digits == 4 {
            9999
        } else {
            NERDLE_NUM_MAX as int
        }),
{
    let single_digit_range_start: i32 = if allow_zero {
        0
    } else {
        1
    };
    if digits == 1 {
        RangeInclusive::new(single_digit_range_start, 9)
    } else if digits == 2 {
        RangeInclusive::new(10, 99)
    } else if digits == 3 {
        RangeInclusive::new(100, 999)
    } else if digits == 4 {
        RangeInclusive::new(1000, 9999)
    } else {
        RangeInclusive::new(1, NERDLE_NUM_MAX)
    }
}

/// The range of the numbers of at most `digits` digits, for one to four
/// digits, from 1, or from 0 with `allow_zero`. For any other number of
/// digits, the range up to the largest number of the game.
pub fn range_for_digits_or_less(digits: usize, allow_zero: bool) -> (r: RangeInclusive<i32>)
    ensures
        !r@.exhausted,
        r@.start == least_digit(allow_zero),
        r@.end == (if digits == 1 {
            9
        } else if digits == 2 {
            99
        } else if digits == 3 {
            999
        } else if digits == 4 {
            9999
        } else {
            NERDLE_NUM_MAX as int
        }),
{
    let single_digit_range_start: i32 = if allow_zero {
        0
    } else {
        1
    };
    if digits == 1 {
        RangeInclusive::new(single_digit_range_start, 9)
    } else if digits == 2 {
        RangeInclusive::new(single_digit_range_start, 99)
    } else if digits == 3 {
        RangeInclusive::new(single_digit_range_start, 999)
    } else if digits == 4 {
        RangeInclusive::new(single_digit_range_start, 9999)
    } else {
        RangeInclusive::new(single_digit_range_start, NERDLE_NUM_MAX)
    }
}

/// For one to four digits, the numbers of the range for exactly `digits`
/// digits are written with `digits` characters, and those of the range for
/// at most `digits` digits with no more.
pub proof fn lemma_ranges_for_digits(digits: int, v: int)
    requires
        1 <= digits <= 4,
        v >= 0,
    ensures
        (digits == 1 && v <= 9) ==> printed_len(v) == 1,
        (digits == 2 && 10 <= v <= 99) ==> printed_len(v) == 2,
        (digits == 3 && 100 <= v <= 999) ==> printed_len(v) == 3,
        (digits == 4 && 1000 <= v <= 9999) ==> printed_len(v) == 4,
        (digits == 1 && v <= 9) || (digits == 2 && v <= 99) || (digits == 3 && v <= 999) || (digits
            == 4 && v <= 9999) ==> printed_len(v) <= digits,
{
    lemma_digit_count_bounds(v as nat);
}

/// How often a candidate is drawn for one number at most.
pub const NUMBER_ATTEMPTS: u32 = 1000;

/// Draws numbers from the range of `constraint` until its acceptor takes
/// one: at most as many as the range holds values, and at most
/// `NUMBER_ATTEMPTS`. What comes back meets the constraint. An empty range
/// gives `EmptyRange`, draws that are all refused `OutOfAttempts`; where
/// the acceptor takes every number of a range that is not empty, the first
/// draw is taken.
pub fn find_num_with_constraint(constraint: &ExpressionNumberConstraint) -> (r: Result<
    ExpressionNumber,
    NoMatchFound,
>)
    ensures
        r matches Ok(num) ==> constraint.admits(num) is Ok,
        constraint.is_empty() ==> r == Err::<ExpressionNumber, NoMatchFound>(
            no_match(NoMatchKind::EmptyRange),
        ),
        !constraint.is_empty() ==> (r matches Err(e) ==> e.kind == NoMatchKind::OutOfAttempts),
        !constraint.is_empty() && constraint.accepts_all() ==> r is Ok,
{
    let start: i32 = *constraint.range.start();
    let end: i32 = *constraint.range.end();
    let size: i64 = end as i64 - start as i64 + 1;
    let attempts: i64 = if size < NUMBER_ATTEMPTS as i64 {
        size
    } else {
        NUMBER_ATTEMPTS as i64
    };
    let mut attempt: i64 = 0;
    while attempt < attempts
        invariant
            start == constraint.range@.start,
            end == constraint.range@.end,
            attempts <= end - start + 1,
            start <= end ==> attempts >= 1,
            attempt >= 0,
            attempt > 0 ==> !constraint.accepts_all(),
        decreases attempts - attempt,
    {
        let candidate: i32 = match range_rand_or_only(RangeInclusive::new(start, end)) {
            Ok(num) => num,
            Err(e) => {
                return Err(e);
            },
        };
        if constraint.acceptor.accepts_value(candidate) {
            return Ok(mknum(candidate));
        }
        attempt += 1;
    }
    if start > end {
        Err(NoMatchFound { kind: NoMatchKind::EmptyRange })
    } else {
        Err(NoMatchFound { kind: NoMatchKind::OutOfAttempts })
    }
}

/// What an equation must meet: a constraint for each of its numbers, how
/// many operators it may have and how often each operator may occur, and
/// what feedback has shown of the hidden equation, if anything.
pub struct EquationConstraint<'a> {
    /// What is known from feedback; `None` where nothing is asked.
    pub knowledge: Option<&'a NerdleData>,
    pub a_constraint: ExpressionNumberConstraint,
    pub b_constraint: ExpressionNumberConstraint,
    pub b2_constraint: ExpressionNumberConstraint,
    pub c_constraint: ExpressionNumberConstraint,
    /// For an operator's byte, how often the operator may occur.
    pub operator: HashMap<u8, RangeInclusive<u32>>,
    /// How many operators the equation may have.
    pub num_ops: RangeInclusive<u32>,
}

impl<'a> Default for EquationConstraint<'a> {
    fn default() -> (r: Self)
        ensures
            r.knowledge is None,
            r.operator@ == Map::<u8, RangeInclusive<u32>>::empty(),
            r.num_ops@.start == 1,
            r.num_ops@.end == NERDLE_MAX_OPS,
            r.a_constraint.range@.start == 0 && r.a_constraint.range@.end == NERDLE_NUM_MAX,
            r.b_constraint.range@.start == 0 && r.b_constraint.range@.end == NERDLE_NUM_MAX,
            r.b2_constraint.range@.start == 0 && r.b2_constraint.range@.end == NERDLE_NUM_MAX,
            r.c_constraint.range@.start == 0 && r.c_constraint.range@.end == NERDLE_NUM_MAX,
            r.a_constraint.acceptor@ == (AcceptorView { rejects: false, patterns: Seq::empty() }),
            r.b_constraint.acceptor@ == (AcceptorView { rejects: false, patterns: Seq::empty() }),
            r.b2_constraint.acceptor@ == (AcceptorView { rejects: false, patterns: Seq::empty() }),
            r.c_constraint.acceptor@ == (AcceptorView { rejects: false, patterns: Seq::empty() }),
    {
        EquationConstraint {
            knowledge: None,
            a_constraint: ExpressionNumberConstraint::default(),
            b_constraint: ExpressionNumberConstraint::default(),
            b2_constraint: ExpressionNumberConstraint::default(),
            c_constraint: ExpressionNumberConstraint::default(),
            operator: HashMap::new(),
            num_ops: RangeInclusive::new(1, NERDLE_MAX_OPS),
        }
    }
}

impl<'a> EquationConstraint<'a> {
    /// Whether the operator written with `byte` may occur: it may unless
    /// its count is limited to zero.
    pub open spec fn allows_byte(&self, byte: u8) -> bool {
        self.operator@.contains_key(byte) ==> self.operator@[byte]@.end >= 1
    }

    /// Whether an equation may have `n` operators.
    pub open spec fn allows_count(&self, n: u32) -> bool {
        self.num_ops@.start <= n <= self.num_ops@.end
    }

    /// What is asked of `a op1 b`, with `n` operators in the equation.
    pub open spec fn admits_first(
        &self,
        a: ExpressionNumber,
        op1: ExpressionOperatorEnum,
        b: ExpressionNumber,
        n: u32,
    ) -> Result<(), NoMatchFound> {
        if self.a_constraint.admits(a) is Err {
            self.a_constraint.admits(a)
        } else if self.b_constraint.admits(b) is Err {
            self.b_constraint.admits(b)
        } else if !self.allows_count(n) {
            Err(no_match(NoMatchKind::OperatorCount))
        } else if !self.allows_byte(operator_byte(op1)) {
            Err(no_match(NoMatchKind::OperatorNotAllowed))
        } else {
            Ok(())
        }
    }

    /// What is asked of the structure of the equation of the given parts
    /// and result: of its result, then of its numbers and operators from
    /// the left.
    pub open spec fn admits_structure(
        &self,
        parts: Seq<ExpressionPart>,
        res: ExpressionNumber,
    ) -> Result<(), NoMatchFound> {
        if self.c_constraint.admits(res) is Err {
            self.c_constraint.admits(res)
        } else if parts.len() == 3 && parts[0] is Number && parts[1] is Operator
            && parts[2] is Number {
            self.admits_first(parts[0]->Number_0, parts[1]->Operator_0, parts[2]->Number_0, 1)
        } else if parts.len() == 5 && parts[0] is Number && parts[1] is Operator
            && parts[2] is Number && parts[3] is Operator && parts[4] is Number {
            if self.admits_first(parts[0]->Number_0, parts[1]->Operator_0, parts[2]->Number_0, 2)
                is Err {
                self.admits_first(parts[0]->Number_0, parts[1]->Operator_0, parts[2]->Number_0, 2)
            } else if self.b2_constraint.admits(parts[4]->Number_0) is Err {
                self.b2_constraint.admits(parts[4]->Number_0)
            } else if !self.allows_byte(operator_byte(parts[3]->Operator_0)) {
                Err(no_match(NoMatchKind::OperatorNotAllowed))
            } else {
                Ok(())
            }
        } else {
            Err(no_match(NoMatchKind::UnrecognizedShape))
        }
    }

    /// Whether the equation of the given parts and result meets the
    /// constraint, and if not, why: its structure first, then what
    /// feedback has shown.
    pub open spec fn admits_parts(
        &self,
        parts: Seq<ExpressionPart>,
        res: ExpressionNumber,
    ) -> Result<(), NoMatchFound> {
        if self.admits_structure(parts, res) is Err {
            self.admits_structure(parts, res)
        } else if self.knowledge matches Some(data) && matches_spec(
            data@,
            equation_text(parts, res),
        ) is Err {
            Err(no_match(NoMatchKind::EquationRejected))
        } else {
            Ok(())
        }
    }

    /// Whether `eq` meets the constraint, and if not, why.
    pub open spec fn admits(&self, eq: Equation) -> Result<(), NoMatchFound> {
        self.admits_parts(eq.expr.parts@, eq.res)
    }

    fn accept_first(
        &self,
        a: &ExpressionNumber,
        op1: &ExpressionOperatorEnum,
        b: &ExpressionNumber,
        n: u32,
    ) -> (r: Result<(), NoMatchFound>)
        ensures
            r == self.admits_first(*a, *op1, *b, n),
    {
        match self.a_constraint.accept(a) {
            Err(e) => {
                return Err(e);
            },
            Ok(()) => {},
        }
        match self.b_constraint.accept(b) {
            Err(e) => {
                return Err(e);
            },
            Ok(()) => {},
        }
        if n < *self.num_ops.start() || n > *self.num_ops.end() {
            return Err(NoMatchFound { kind: NoMatchKind::OperatorCount });
        }
        if !self.can_have_op(op1) {
            return Err(NoMatchFound { kind: NoMatchKind::OperatorNotAllowed });
        }
        Ok(())
    }

    /// Whether `eq` meets the constraint, and if not, why.
    pub fn accept(&self, eq: &Equation) -> (r: Result<(), NoMatchFound>)
        ensures
            r == self.admits(*eq),
    {
        match self.c_constraint.accept(&eq.res) {
            Err(e) => {
                return Err(e);
            },
            Ok(()) => {},
        }
        let n: usize = eq.expr.parts.len();
        if n == 3 {
            match (eq.expr.parts[0], eq.expr.parts[1], eq.expr.parts[2]) {
                (
                    ExpressionPart::Number(a),
                    ExpressionPart::Operator(op1),
                    ExpressionPart::Number(b),
                ) => {
                    match self.accept_first(&a, &op1, &b, 1) {
                        Err(e) => {
                            return Err(e);
                        },
                        Ok(()) => {},
                    }
                },
                _ => {
                    return Err(NoMatchFound { kind: NoMatchKind::UnrecognizedShape });
                },
            }
        } else if n == 5 {
            match (
                eq.expr.parts[0],
                eq.expr.parts[1],
                eq.expr.parts[2],
                eq.expr.parts[3],
                eq.expr.parts[4],
            ) {
                (
                    ExpressionPart::Number(a),
                    ExpressionPart::Operator(op1),
                    ExpressionPart::Number(b),
                    ExpressionPart::Operator(op2),
                    ExpressionPart::Number(b2),
                ) => {
                    match self.accept_first(&a, &op1, &b, 2) {
                        Err(e) => {
                            return Err(e);
                        },
                        Ok(()) => {},
                    }
                    match self.b2_constraint.accept(&b2) {
                        Err(e) => {
                            return Err(e);
                        },
                        Ok(()) => {},
                    }
                    if !self.can_have_op(&op2) {
                        return Err(NoMatchFound { kind: NoMatchKind::OperatorNotAllowed });
                    }
                },
                _ => {
                    return Err(NoMatchFound { kind: NoMatchKind::UnrecognizedShape });
                },
            }
        } else {
            return Err(NoMatchFound { kind: NoMatchKind::UnrecognizedShape });
        }
        match self.knowledge {
            Some(data) => {
                match data.eq_matches(eq) {
                    Ok(()) => {},
                    Err(_) => {
                        return Err(NoMatchFound { kind: NoMatchKind::EquationRejected });
                    },
                }
            },
            None => {},
        }
        Ok(())
    }

    /// Whether the operator written with `byte` may occur.
    pub fn can_have_op_byte(&self, byte: u8) -> (r: bool)
        ensures
            r == self.allows_byte(byte),
    {
        broadcast use vstd::std_specs::hash::group_hash_axioms;

        match self.operator.get(&byte) {
            Some(range) => *range.end() >= 1,
            None => true,
        }
    }

    /// Whether the operator `op` may occur.
    pub fn can_have_op(&self, op: &ExpressionOperatorEnum) -> (r: bool)
        ensures
            r == self.allows_byte(operator_byte(*op)),
    {
        self.can_have_op_byte(op.to_char_byte())
    }
}

} // verus!
