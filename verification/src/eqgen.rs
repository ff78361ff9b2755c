//! Random search for an equation of the game that meets a constraint.

use vstd::prelude::*;
use crate::constraint::{
    find_num_with_constraint, larger, no_match, number_chars, range_for_digits_or_less, smaller,
    AcceptorView, EquationConstraint, ExpressionNumberConstraint, NoMatchFound, NoMatchKind,
    NumberAcceptor, NUMBER_ATTEMPTS,
};
use crate::eq::{computes_parts, equation_text, len_parts, Equation};
use crate::expr::{
    calculate_spec, mknum, operate_spec, operator_byte, Expression, ExpressionNumber,
    ExpressionOperatorEnum, ExpressionPart, InvalidExpressionError,
};
use crate::nerdle::{NERDLE_A_MAX, NERDLE_CHARACTERS, NERDLE_NUM_MAX};
use crate::util::{printed_len, random_between};

verus! {

/// How often an equation is tried, and how often a choice of operators.
pub const ATTEMPTS: u32 = 10000;

/// How many of the operators `op1` and `op2` are written with `ch`.
pub open spec fn operator_count(
    op1: ExpressionOperatorEnum,
    op2: Option<ExpressionOperatorEnum>,
    ch: u8,
) -> nat {
    (if operator_byte(op1) == ch {
        1nat
    } else {
        0nat
    }) + (match op2 {
        Some(op) => if operator_byte(op) == ch {
            1nat
        } else {
            0nat
        },
        None => 0nat,
    })
}

/// Whether the operators `op1` and `op2` occur as often as the constraint
/// allows: for every byte that it limits, the count lies in the limits.
pub open spec fn operators_fit(
    op1: ExpressionOperatorEnum,
    op2: Option<ExpressionOperatorEnum>,
    constraint: &EquationConstraint,
) -> bool {
    forall|ch: u8| #[trigger]
        constraint.operator@.contains_key(ch) ==> constraint.operator@[ch]@.start <= operator_count(
            op1,
            op2,
            ch,
        ) <= constraint.operator@[ch]@.end
}

/// Whether any choice of operators occurs as often as the constraint
/// allows.
pub open spec fn any_operators_fit(constraint: &EquationConstraint) -> bool {
    forall|op1: ExpressionOperatorEnum, op2: Option<ExpressionOperatorEnum>| #[trigger]
        operators_fit(op1, op2, constraint)
}

/// The operator `op` as a part of an expression.
pub fn op2op(op: &ExpressionOperatorEnum) -> (r: ExpressionPart)
    ensures
        r == ExpressionPart::Operator(*op),
{
    ExpressionPart::Operator(*op)
}

/// Whether the operators `op1` and `op2_opt` occur as often as the
/// constraint allows.
pub fn are_ops_ok(
    op1: &ExpressionOperatorEnum,
    op2_opt: &Option<ExpressionOperatorEnum>,
    constraint: &EquationConstraint,
    _tries: u32,
) -> (r: bool)
    ensures
        r == operators_fit(*op1, *op2_opt, constraint),
{
    broadcast use vstd::std_specs::hash::group_hash_axioms;

    if constraint.operator.is_empty() {
        return true;
    }
    let first: u8 = op1.to_char_byte();
    let mut ch: usize = 0;
    while ch < 256
        invariant
            ch <= 256,
            first == operator_byte(*op1),
            forall|c: u8|
                c < ch && #[trigger] constraint.operator@.contains_key(c)
                    ==> constraint.operator@[c]@.start <= operator_count(*op1, *op2_opt, c)
                    <= constraint.operator@[c]@.end,
        decreases 256 - ch,
    {
        let byte: u8 = ch as u8;
        match constraint.operator.get(&byte) {
            Some(info) => {
                let mut count: u32 = 0;
                if first == byte {
                    count += 1;
                }
                match op2_opt {
                    Some(op2) => {
                        if op2.to_char_byte() == byte {
                            count += 1;
                        }
                    },
                    None => {},
                }
                if count < *info.start() || count > *info.end() {
                    assert(constraint.operator@.contains_key(byte));
                    return false;
                }
            },
            None => {},
        }
        ch += 1;
    }
    true
}

/// The operator with the given number: `+` for 0, `-` for 1, `*` for 2 and
/// `/` for any other.
pub fn operator_of_index(index: i64) -> (r: ExpressionOperatorEnum)
    ensures
        r == if index == 0 {
            ExpressionOperatorEnum::Plus
        } else if index == 1 {
            ExpressionOperatorEnum::Minus
        } else if index == 2 {
            ExpressionOperatorEnum::Times
        } else {
            ExpressionOperatorEnum::Divide
        },
{
    if index == 0 {
        ExpressionOperatorEnum::Plus
    } else if index == 1 {
        ExpressionOperatorEnum::Minus
    } else if index == 2 {
        ExpressionOperatorEnum::Times
    } else {
        ExpressionOperatorEnum::Divide
    }
}

fn random_operator() -> (r: ExpressionOperatorEnum) {
    match random_between(0, 3) {
        Some(index) => operator_of_index(index),
        None => ExpressionOperatorEnum::Divide,
    }
}

/// Draws a number of operators from the range the constraint allows, one
/// operator where it is 1 and two for any other, and the operators at
/// random, until they occur as often as the constraint allows.
pub fn gen_ops(constraint: &EquationConstraint) -> (r: Result<
    (ExpressionOperatorEnum, Option<ExpressionOperatorEnum>),
    NoMatchFound,
>)
    ensures
        r matches Ok((op1, op2)) ==> operators_fit(op1, op2, constraint),
        r matches Ok((op1, op2)) ==> if op2 is None {
            constraint.allows_count(1)
        } else {
            exists|n: u32| n != 1 && constraint.allows_count(n)
        },
        constraint.num_ops@.start > constraint.num_ops@.end ==> r == Err::<
            (ExpressionOperatorEnum, Option<ExpressionOperatorEnum>),
            NoMatchFound,
        >(no_match(NoMatchKind::EmptyRange)),
        constraint.num_ops@.start <= constraint.num_ops@.end ==> (r matches Err(e) ==> e.kind
            == NoMatchKind::OutOfAttempts),
        constraint.num_ops@.start <= constraint.num_ops@.end && any_operators_fit(constraint)
            ==> r is Ok,
{
    let low: u32 = *constraint.num_ops.start();
    let high: u32 = *constraint.num_ops.end();
    let mut tries: u32 = 0;
    while tries < ATTEMPTS
        invariant
            low == constraint.num_ops@.start,
            high == constraint.num_ops@.end,
            tries > 0 ==> low <= high && !any_operators_fit(constraint),
        decreases ATTEMPTS - tries,
    {
        tries += 1;
        let num_ops: i64 = match random_between(low as i64, high as i64) {
            Some(n) => n,
            None => {
                return Err(NoMatchFound { kind: NoMatchKind::EmptyRange });
            },
        };
        let op1: ExpressionOperatorEnum = random_operator();
        let op2_opt: Option<ExpressionOperatorEnum> = if num_ops == 1 {
            None
        } else {
            Some(random_operator())
        };
        if are_ops_ok(&op1, &op2_opt, constraint, tries) {
            assert(constraint.allows_count(num_ops as u32));
            return Ok((op1, op2_opt));
        }
    }
    if low > high {
        Err(NoMatchFound { kind: NoMatchKind::EmptyRange })
    } else {
        Err(NoMatchFound { kind: NoMatchKind::OutOfAttempts })
    }
}

/// Whether the equation of the given parts and result is one that the
/// generator may hand out: its left side evaluates to its result, its text
/// has the length of the game, and it meets the constraint.
pub open spec fn is_valid(
    parts: Seq<ExpressionPart>,
    res: ExpressionNumber,
    constraint: &EquationConstraint,
) -> bool {
    &&& computes_parts(parts, res) == Ok::<bool, InvalidExpressionError>(true)
    &&& len_parts(parts, res) is Ok
    &&& equation_text(parts, res).len() == NERDLE_CHARACTERS
    &&& constraint.admits_parts(parts, res) is Ok
}

/// Whether `eq` is one that the generator may hand out for `constraint`.
pub open spec fn is_valid_for(eq: Equation, constraint: &EquationConstraint) -> bool {
    is_valid(eq.expr.parts@, eq.res, constraint)
}

/// Whether `b` is a second operand that `a op b` can have: the operator
/// has a result for it, and `result` admits that result.
pub open spec fn is_feasible(
    a: ExpressionNumber,
    op: ExpressionOperatorEnum,
    b: ExpressionNumber,
    result: &ExpressionNumberConstraint,
) -> bool {
    operate_spec(op, a, b) is Ok && result.admits(operate_spec(op, a, b)->Ok_0) is Ok
}

/// Whether the integer `v` will do as second operand of `a op b`: the
/// acceptor of `constraint` takes it, and `a op v` can have it.
pub open spec fn will_do(
    constraint: &ExpressionNumberConstraint,
    a: ExpressionNumber,
    op: ExpressionOperatorEnum,
    v: i32,
    result: &ExpressionNumberConstraint,
) -> bool {
    constraint.acceptor@.accepts(number_chars(v)) && is_feasible(
        a,
        op,
        ExpressionNumber { numerator: v, denominator: 1 },
        result,
    )
}

/// Whether every number of the range of `constraint` will do as second
/// operand of `a op b`.
pub open spec fn all_feasible(
    constraint: &ExpressionNumberConstraint,
    a: ExpressionNumber,
    op: ExpressionOperatorEnum,
    result: &ExpressionNumberConstraint,
) -> bool {
    forall|v: i32|
        constraint.range@.start <= v <= constraint.range@.end ==> #[trigger] will_do(
            constraint,
            a,
            op,
            v,
            result,
        )
}

/// Draws a second operand for `a op b` from the range of `constraint`
/// until its acceptor takes it and the result is one that `result` admits:
/// at most as many draws as the range holds values, and at most
/// `NUMBER_ATTEMPTS`. An empty range gives `EmptyRange`, draws that are all
/// refused `OutOfAttempts`; where every number of a range that is not empty
/// will do, the first draw is taken.
fn find_second_operand(
    constraint: &ExpressionNumberConstraint,
    a: &ExpressionNumber,
    op: &ExpressionOperatorEnum,
    result: &ExpressionNumberConstraint,
) -> (r: Result<ExpressionNumber, NoMatchFound>)
    ensures
        r matches Ok(num) ==> constraint.admits(num) is Ok && is_feasible(*a, *op, num, result),
        constraint.is_empty() ==> r == Err::<ExpressionNumber, NoMatchFound>(
            no_match(NoMatchKind::EmptyRange),
        ),
        !constraint.is_empty() ==> (r matches Err(e) ==> e.kind == NoMatchKind::OutOfAttempts),
        !constraint.is_empty() && all_feasible(constraint, *a, *op, result) ==> r is Ok,
{
    let start: i32 = *constraint.range.start();
    let end: i32 = *constraint.range.end();
    let size: i64 = end as i64 - start as i64 + 1;
    let attempts: i64 = if size < NUMBER_ATTEMPTS as i64 {
        size
    } else {
        NUMBER_ATTEMPTS as i64
    };
    let mut attempt: i64 = 0;
    while attempt < attempts
        invariant
            start == constraint.range@.start,
            end == constraint.range@.end,
            attempts <= end - start + 1,
            start <= end ==> attempts >= 1,
            attempt >= 0,
            attempt > 0 ==> !all_feasible(constraint, *a, *op, result),
        decreases attempts - attempt,
    {
        let candidate: i32 = match random_between(start as i64, end as i64) {
            Some(v) => v as i32,
            None => {
                return Err(NoMatchFound { kind: NoMatchKind::EmptyRange });
            },
        };
        let b = mknum(candidate);
        if constraint.acceptor.accepts_value(candidate) {
            match op.operate(a, &b) {
                Ok(c) => {
                    if result.accept(&c).is_ok() {
                        return Ok(b);
                    }
                },
                Err(_) => {},
            }
        }
        assert(!will_do(constraint, *a, *op, candidate, result));
        attempt += 1;
    }
    if start > end {
        Err(NoMatchFound { kind: NoMatchKind::EmptyRange })
    } else {
        Err(NoMatchFound { kind: NoMatchKind::OutOfAttempts })
    }
}

/// The parts of `a op1 b`, or of `a op1 b op2 b2` where a second operator
/// and operand are given.
pub open spec fn parts_of(
    a: ExpressionNumber,
    op1: ExpressionOperatorEnum,
    b: ExpressionNumber,
    second: Option<(ExpressionOperatorEnum, ExpressionNumber)>,
) -> Seq<ExpressionPart> {
    let first = seq![
        ExpressionPart::Number(a),
        ExpressionPart::Operator(op1),
        ExpressionPart::Number(b),
    ];
    match second {
        Some((op2, b2)) => first + seq![ExpressionPart::Operator(op2), ExpressionPart::Number(b2)],
        None => first,
    }
}

/// The equation of the given operands and operators with the value of its
/// left side as its result, if the left side has a value and the equation
/// is valid for the constraint.
pub fn assemble(
    constraint: &EquationConstraint,
    a: ExpressionNumber,
    op1: ExpressionOperatorEnum,
    b: ExpressionNumber,
    second: Option<(ExpressionOperatorEnum, ExpressionNumber)>,
) -> (r: Option<Equation>)
    ensures
        match calculate_spec(parts_of(a, op1, b, second)) {
            Ok(res) => if is_valid(parts_of(a, op1, b, second), res, constraint) {
                r is Some && r->0.expr.parts@ == parts_of(a, op1, b, second) && r->0.res == res
            } else {
                r is None
            },
            Err(_) => r is None,
        },
{
    let mut parts: Vec<ExpressionPart> = Vec::new();
    parts.push(ExpressionPart::Number(a));
    parts.push(op2op(&op1));
    parts.push(ExpressionPart::Number(b));
    match second {
        Some((op2, b2)) => {
            parts.push(op2op(&op2));
            parts.push(ExpressionPart::Number(b2));
        },
        None => {},
    }
    assert(parts@ =~= parts_of(a, op1, b, second));
    let expr = Expression { parts };
    let res: ExpressionNumber = match expr.calculate() {
        Ok(num) => num,
        Err(_) => {
            return None;
        },
    };
    let eq = Equation { expr, res };
    if constraint.c_constraint.accept(&res).is_err() {
        return None;
    }
    match eq.len() {
        Ok(n) => {
            if n != NERDLE_CHARACTERS as usize {
                return None;
            }
        },
        Err(_) => {
            return None;
        },
    }
    match eq.computes() {
        Ok(holds) => {
            if !holds {
                return None;
            }
        },
        Err(_) => {
            return None;
        },
    }
    if constraint.accept(&eq).is_err() {
        return None;
    }
    Some(eq)
}

/// The range that the first operand is drawn from: up to the largest first
/// operand with one operator, a number of three digits where that is a
/// division, and up to 99 with two operators.
pub fn first_operand_range(op1: ExpressionOperatorEnum, single: bool) -> (r:
    ExpressionNumberConstraint)
    ensures
        r.acceptor@ == (crate::constraint::AcceptorView { rejects: false, patterns: Seq::empty() }),
        r.range@.start == (if single && op1 == ExpressionOperatorEnum::Divide {
            100int
        } else {
            1int
        }),
        r.range@.end == (if single {
            NERDLE_A_MAX as int
        } else {
            99int
        }),
{
    if single {
        match op1 {
            ExpressionOperatorEnum::Divide => ExpressionNumberConstraint::of_range(100, 999),
            _ => ExpressionNumberConstraint::of_range(1, NERDLE_A_MAX),
        }
    } else {
        ExpressionNumberConstraint::of_range(1, 99)
    }
}

/// How many digits are left for an operand when `used` characters stand
/// before it and `reserved` are needed behind it; none where that is more
/// than the equation has.
pub fn digits_left(used: usize, reserved: usize) -> (r: usize)
    ensures
        r == if used + reserved <= NERDLE_CHARACTERS {
            NERDLE_CHARACTERS - used - reserved
        } else {
            0
        },
{
    let total: usize = NERDLE_CHARACTERS as usize;
    if used <= total && reserved <= total - used {
        total - used - reserved
    } else {
        0
    }
}

/// How many digits are left for an operand, as a number without bounds.
pub open spec fn room(used: int, reserved: int) -> int {
    if used + reserved <= NERDLE_CHARACTERS {
        NERDLE_CHARACTERS - used - reserved
    } else {
        0
    }
}

/// The greatest number that is drawn for a slot of `digits` digits.
pub open spec fn most_for_digits(digits: int) -> int {
    if digits == 1 {
        9
    } else if digits == 2 {
        99
    } else if digits == 3 {
        999
    } else if digits == 4 {
        9999
    } else {
        NERDLE_NUM_MAX as int
    }
}

/// The least first operand that is drawn.
pub open spec fn first_least(op1: ExpressionOperatorEnum, single: bool) -> int {
    if single && op1 == ExpressionOperatorEnum::Divide {
        100
    } else {
        1
    }
}

/// The greatest first operand that is drawn.
pub open spec fn first_most(single: bool) -> int {
    if single {
        NERDLE_A_MAX as int
    } else {
        99
    }
}

/// The greatest second operand that is drawn behind `a`: behind it stand
/// an equal sign and a result, and before those a second operator and
/// operand where there are two operators.
pub open spec fn second_most(a: ExpressionNumber, single: bool) -> int {
    most_for_digits(
        room(
            (printed_len(a.numerator as int) + 1) as int,
            if single {
                2
            } else {
                4
            },
        ),
    )
}

/// The greatest third operand that is drawn behind `a` and `b`.
pub open spec fn third_most(a: ExpressionNumber, b: ExpressionNumber) -> int {
    most_for_digits(
        room((printed_len(a.numerator as int) + 1 + printed_len(b.numerator as int) + 1) as int, 2),
    )
}

/// Whether `num` can be drawn for a slot that takes `least` to `most` and
/// of which `slot` is asked.
pub open spec fn in_slot(
    least: int,
    most: int,
    slot: &ExpressionNumberConstraint,
    num: ExpressionNumber,
) -> bool {
    least <= num.numerator <= most && slot.admits(num) is Ok
}

/// Whether no number can be drawn for a slot that takes `least` to `most`
/// and of which `slot` is asked: the ranges do not meet.
pub open spec fn slot_is_empty(least: int, most: int, slot: &ExpressionNumberConstraint) -> bool {
    larger(least, slot.range@.start as int) > smaller(most, slot.range@.end as int)
}

/// Whether every draw for a slot is taken: the ranges meet, and the
/// acceptor of `slot` takes every number where they do.
pub open spec fn slot_is_open(least: int, most: int, slot: &ExpressionNumberConstraint) -> bool {
    &&& !slot_is_empty(least, most, slot)
    &&& forall|v: i32|
        larger(least, slot.range@.start as int) <= v <= smaller(most, slot.range@.end as int)
            ==> #[trigger] slot.acceptor@.accepts(number_chars(v))
}

/// Whether `a` and `b` can be drawn as first and second operand.
pub open spec fn draws_two(
    constraint: &EquationConstraint,
    op1: ExpressionOperatorEnum,
    single: bool,
    a: ExpressionNumber,
    b: ExpressionNumber,
) -> bool {
    &&& in_slot(first_least(op1, single), first_most(single), &constraint.a_constraint, a)
    &&& in_slot(1, second_most(a, single), &constraint.b_constraint, b)
    &&& single ==> is_feasible(a, op1, b, &constraint.c_constraint)
}

/// Whether the integer `v` as second operand gives `a op v` a result that
/// `result` admits.
pub open spec fn is_feasible_value(
    a: ExpressionNumber,
    op: ExpressionOperatorEnum,
    v: i32,
    result: &ExpressionNumberConstraint,
) -> bool {
    is_feasible(a, op, ExpressionNumber { numerator: v, denominator: 1 }, result)
}

/// Whether every draw of a second operand behind `a` is taken.
pub open spec fn second_slot_open(
    constraint: &EquationConstraint,
    op1: ExpressionOperatorEnum,
    single: bool,
    a: ExpressionNumber,
) -> bool {
    &&& slot_is_open(1, second_most(a, single), &constraint.b_constraint)
    &&& single ==> forall|v: i32|
        larger(1, constraint.b_constraint.range@.start as int) <= v <= smaller(
            second_most(a, single),
            constraint.b_constraint.range@.end as int,
        ) ==> #[trigger] is_feasible_value(a, op1, v, &constraint.c_constraint)
}

/// Whether the given operands and operators make an equation that is
/// valid for the constraint.
pub open spec fn assembles(
    constraint: &EquationConstraint,
    a: ExpressionNumber,
    op1: ExpressionOperatorEnum,
    b: ExpressionNumber,
    second: Option<(ExpressionOperatorEnum, ExpressionNumber)>,
) -> bool {
    calculate_spec(parts_of(a, op1, b, second)) is Ok && is_valid(
        parts_of(a, op1, b, second),
        calculate_spec(parts_of(a, op1, b, second))->Ok_0,
        constraint,
    )
}

/// Whether an attempt with the operators `op1` and `op2_opt` cannot fail:
/// every draw for every slot is taken, and whatever is drawn makes an
/// equation that is valid for the constraint.
pub open spec fn every_draw_valid(
    constraint: &EquationConstraint,
    op1: ExpressionOperatorEnum,
    op2_opt: Option<ExpressionOperatorEnum>,
) -> bool {
    let single = op2_opt is None;
    &&& slot_is_open(first_least(op1, single), first_most(single), &constraint.a_constraint)
    &&& forall|a: ExpressionNumber| #[trigger]
        in_slot(first_least(op1, single), first_most(single), &constraint.a_constraint, a)
            ==> second_slot_open(constraint, op1, single, a)
    &&& forall|a: ExpressionNumber, b: ExpressionNumber| #[trigger]
        draws_two(constraint, op1, single, a, b) ==> match op2_opt {
            None => assembles(constraint, a, op1, b, None),
            Some(op2) => slot_is_open(1, third_most(a, b), &constraint.b2_constraint)
                && forall|b2: ExpressionNumber| #[trigger]
                in_slot(1, third_most(a, b), &constraint.b2_constraint, b2) ==> assembles(
                    constraint,
                    a,
                    op1,
                    b,
                    Some((op2, b2)),
                ),
        }
}

/// Whether `parts` are what an attempt with the operators `op1` and
/// `op2_opt` draws: the operators between operands that are drawn for
/// their slots from the left.
pub open spec fn is_drawn(
    constraint: &EquationConstraint,
    op1: ExpressionOperatorEnum,
    op2_opt: Option<ExpressionOperatorEnum>,
    parts: Seq<ExpressionPart>,
) -> bool {
    exists|a: ExpressionNumber, b: ExpressionNumber| #[trigger]
        draws_two(constraint, op1, op2_opt is None, a, b) && match op2_opt {
            None => parts == parts_of(a, op1, b, None),
            Some(op2) => exists|b2: ExpressionNumber| #[trigger]
                in_slot(1, third_most(a, b), &constraint.b2_constraint, b2) && parts == parts_of(
                    a,
                    op1,
                    b,
                    Some((op2, b2)),
                ),
        }
}

/// What both a slot's digits and `slot` take is what the constraint of
/// both takes; and where every draw for the slot is taken, that constraint
/// is not empty and its acceptor takes all of its range.
proof fn lemma_slot(
    base: &ExpressionNumberConstraint,
    slot: &ExpressionNumberConstraint,
    both: &ExpressionNumberConstraint,
)
    requires
        base.acceptor@ == (AcceptorView { rejects: false, patterns: Seq::empty() }),
        both.range@.start == larger(base.range@.start as int, slot.range@.start as int),
        both.range@.end == smaller(base.range@.end as int, slot.range@.end as int),
        forall|num: ExpressionNumber| #[trigger]
            both.admits(num) is Ok <==> base.admits(num) is Ok && slot.admits(num) is Ok,
    ensures
        both.is_empty() == slot_is_empty(base.range@.start as int, base.range@.end as int, slot),
        forall|num: ExpressionNumber| #[trigger]
            both.admits(num) is Ok ==> in_slot(
                base.range@.start as int,
                base.range@.end as int,
                slot,
                num,
            ),
        slot_is_open(base.range@.start as int, base.range@.end as int, slot) ==> both.accepts_all(),
{
    if slot_is_open(base.range@.start as int, base.range@.end as int, slot) {
        assert forall|v: i32| both.range@.start <= v <= both.range@.end implies
            #[trigger] both.acceptor@.accepts(number_chars(v)) by {
            let num = ExpressionNumber { numerator: v, denominator: 1 };
            assert(slot.acceptor@.accepts(number_chars(v)));
            assert(base.admits(num) is Ok);
            assert(slot.admits(num) is Ok);
            assert(both.admits(num) is Ok);
        }
    }
}

/// One attempt at an equation with the operators `op1` and `op2_opt`:
/// operands are drawn for the slots from the left, each with as many
/// digits as the length of the game leaves at most, and the equation is
/// assembled. `None` where a slot finds no operand or the equation that
/// comes of it is not valid for the constraint; an equation where no draw
/// can fail.
fn attempt_equation(
    constraint: &EquationConstraint,
    op1: ExpressionOperatorEnum,
    op2_opt: Option<ExpressionOperatorEnum>,
) -> (r: Option<Equation>)
    ensures
        r matches Some(eq) ==> is_valid_for(eq, constraint) && is_drawn(
            constraint,
            op1,
            op2_opt,
            eq.expr.parts@,
        ),
        slot_is_empty(
            first_least(op1, op2_opt is None),
            first_most(op2_opt is None),
            &constraint.a_constraint,
        ) ==> r is None,
        every_draw_valid(constraint, op1, op2_opt) ==> r is Some,
{
    let single: bool = op2_opt.is_none();
    let ghost sure = every_draw_valid(constraint, op1, op2_opt);
    let a_base = first_operand_range(op1, single);
    let a_constraint = ExpressionNumberConstraint::intersect(&a_base, &constraint.a_constraint);
    proof {
        lemma_slot(&a_base, &constraint.a_constraint, &a_constraint);
    }
    let a: ExpressionNumber = match find_num_with_constraint(&a_constraint) {
        Ok(num) => num,
        Err(_) => {
            return None;
        },
    };
    assert(in_slot(first_least(op1, single), first_most(single), &constraint.a_constraint, a));
    let a_len: usize = match a.len() {
        Ok(n) => n,
        Err(_) => {
            return None;
        },
    };
    // behind `a` stand its operator, and behind `b` the equal sign and a
    // result, and before those a second operator and operand if any
    let b_digits: usize = digits_left(a_len + 1, if single {
        2
    } else {
        4
    });
    let b_base = ExpressionNumberConstraint {
        range: range_for_digits_or_less(b_digits, false),
        acceptor: NumberAcceptor::anything(),
    };
    let b_constraint = ExpressionNumberConstraint::intersect(&b_base, &constraint.b_constraint);
    proof {
        assert(b_base.range@.end == second_most(a, single));
        lemma_slot(&b_base, &constraint.b_constraint, &b_constraint);
        if sure {
            assert(second_slot_open(constraint, op1, single, a));
            if single {
                assert forall|v: i32|
                    b_constraint.range@.start <= v <= b_constraint.range@.end implies
                    #[trigger] will_do(&b_constraint, a, op1, v, &constraint.c_constraint) by {
                    assert(is_feasible_value(a, op1, v, &constraint.c_constraint));
                    assert(b_constraint.acceptor@.accepts(number_chars(v)));
                }
            }
        }
    }
    let found = if single {
        find_second_operand(&b_constraint, &a, &op1, &constraint.c_constraint)
    } else {
        find_num_with_constraint(&b_constraint)
    };
    let b: ExpressionNumber = match found {
        Ok(num) => num,
        Err(_) => {
            return None;
        },
    };
    assert(draws_two(constraint, op1, single, a, b));
    let second: Option<(ExpressionOperatorEnum, ExpressionNumber)> = match op2_opt {
        Some(op2) => {
            let b_len: usize = match b.len() {
                Ok(n) => n,
                Err(_) => {
                    return None;
                },
            };
            let b2_digits: usize = digits_left(a_len + 1 + b_len + 1, 2);
            let b2_base = ExpressionNumberConstraint {
                range: range_for_digits_or_less(b2_digits, false),
                acceptor: NumberAcceptor::anything(),
            };
            let b2_constraint = ExpressionNumberConstraint::intersect(
                &b2_base,
                &constraint.b2_constraint,
            );
            proof {
                assert(b2_base.range@.end == third_most(a, b));
                lemma_slot(&b2_base, &constraint.b2_constraint, &b2_constraint);
            }
            match find_num_with_constraint(&b2_constraint) {
                Ok(num) => {
                    assert(in_slot(1, third_most(a, b), &constraint.b2_constraint, num));
                    Some((op2, num))
                },
                Err(_) => {
                    return None;
                },
            }
        },
        None => None,
    };
    let made = assemble(constraint, a, op1, b, second);
    proof {
        if sure {
            assert(assembles(constraint, a, op1, b, second));
        }
        if made is Some {
            let parts = made->0.expr.parts@;
            assert(parts == parts_of(a, op1, b, second));
            assert(is_drawn(constraint, op1, op2_opt, parts));
        }
    }
    made
}

/// Whether `parts` are what the generator makes for the constraint:
/// operators that occur as often as the constraint allows, between
/// operands that are drawn for their slots.
pub open spec fn is_generated(constraint: &EquationConstraint, parts: Seq<ExpressionPart>) -> bool {
    exists|op1: ExpressionOperatorEnum, op2: Option<ExpressionOperatorEnum>| #[trigger]
        is_drawn(constraint, op1, op2, parts) && operators_fit(op1, op2, constraint)
}

/// Tries up to `ATTEMPTS - 1` times to make an equation that is valid for
/// `constraint`: operators are chosen, operands drawn, and the result
/// computed and checked. An attempt that fails at any step is given up for
/// the next; only the choice of operators ends the search when it fails.
pub fn eqgen_constrained(constraint: &EquationConstraint) -> (r: Result<Equation, NoMatchFound>)
    ensures
        r matches Ok(eq) ==> is_valid_for(eq, constraint) && is_generated(
            constraint,
            eq.expr.parts@,
        ),
        constraint.num_ops@.start > constraint.num_ops@.end ==> r == Err::<Equation, NoMatchFound>(
            no_match(NoMatchKind::EmptyRange),
        ),
        constraint.num_ops@.start <= constraint.num_ops@.end ==> (r matches Err(e) ==> e.kind
            == NoMatchKind::OutOfAttempts),
{
    let mut attempt: u32 = 1;
    while attempt < ATTEMPTS
        invariant
            1 <= attempt <= ATTEMPTS,
        decreases ATTEMPTS - attempt,
    {
        let (op1, op2_opt) = match gen_ops(constraint) {
            Ok(ops) => ops,
            Err(e) => {
                return Err(e);
            },
        };
        match attempt_equation(constraint, op1, op2_opt) {
            Some(eq) => {
                return Ok(eq);
            },
            None => {},
        }
        attempt += 1;
    }
    if *constraint.num_ops.start() > *constraint.num_ops.end() {
        Err(NoMatchFound { kind: NoMatchKind::EmptyRange })
    } else {
        Err(NoMatchFound { kind: NoMatchKind::OutOfAttempts })
    }
}

/// Tries to make an equation of the game with nothing asked but that: its
/// numbers lie between 0 and the largest number of the game.
pub fn eqgen() -> (r: Result<Equation, NoMatchFound>)
    ensures
        r matches Ok(eq) ==> eq.computes_spec() == Ok::<bool, InvalidExpressionError>(true)
            && eq.len_spec() == Ok::<usize, crate::eq::InvalidEquationError>(8),
        r matches Err(e) ==> e.kind == NoMatchKind::OutOfAttempts,
{
    let constraint = EquationConstraint::default();
    eqgen_constrained(&constraint)
}

} // verus!
