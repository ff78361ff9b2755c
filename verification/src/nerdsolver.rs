//! The solver: it derives the layout of the hidden equation and a
//! constraint from what is known, and guesses equations that meet it.

use vstd::prelude::*;
use vstd::string::StringExecFns;
use std::collections::{HashMap, HashSet};
use std::ops::RangeInclusive;
use regex::Regex;
use crate::constraint::{
    no_match, number_chars, range_for_digits, range_for_digits_or_less, regex_compile,
    regex_compiles, regex_source, AcceptorView, EquationConstraint, ExpressionNumberConstraint,
    NoMatchFound, NoMatchKind, NumberAcceptor,
};
use crate::eq::Equation;
use crate::eqgen::{eqgen_constrained, is_valid_for};
use crate::nerdle::{
    NerdleError, NerdleErrorKind, NerdleResult, NERDLE_CHARACTERS, NERDLE_MAX_OPS, NERDLE_NUM_MAX,
    NERDLE_OPERAND_MAX_DIGITS,
};
use crate::nerdledata::{
    admitted_below, matches_spec, update_spec, Knowledge, NerdleData, NerdleIsChar,
};
use crate::text::{
    as_chars, digits_of, int_text, lemma_int_text, number_string, push_int, symbol_str,
    symbols_to_string,
};

verus! {

/// Whether `c` is one of the four operator characters.
pub open spec fn is_operator_symbol(c: u8) -> bool {
    c == 43 || c == 45 || c == 42 || c == 47
}

/// Whether only operators can stand at `pos`.
pub open spec fn operator_only(k: Knowledge, pos: int) -> bool {
    forall|c: u8| #[trigger] k.admits(pos, c) ==> is_operator_symbol(c)
}

/// The first position from `from` on where only operators can stand; 8
/// when there is none.
pub open spec fn first_operator_from(k: Knowledge, from: int) -> int
    decreases 8 - from,
{
    if from >= 8 {
        8
    } else if from >= 0 && operator_only(k, from) {
        from
    } else {
        first_operator_from(k, from + 1)
    }
}

/// A position below 8 as an option: 8 stands for none.
pub open spec fn found(pos: int) -> Option<usize> {
    if 0 <= pos < 8 {
        Some(pos as usize)
    } else {
        None
    }
}

/// How a slot for a number is laid out: how many digits it has, exactly or
/// at most, where it starts if that is known, and whether it may be 0.
#[derive(Clone, Copy, Debug, PartialEq, Eq)]
pub struct SlotPlan {
    pub digits: usize,
    pub start: Option<usize>,
    pub or_less: bool,
    pub allow_zero: bool,
}

/// How the slots of the hidden equation are laid out, as far as the known
/// positions of operators and equal sign show it. A slot without a plan is
/// left as it is by default; `num_ops` is the number of operators where
/// the layout settles it.
#[derive(Clone, Copy, Debug, PartialEq, Eq)]
pub struct Layout {
    pub a: Option<SlotPlan>,
    pub b: Option<SlotPlan>,
    pub b2: Option<SlotPlan>,
    pub c: Option<SlotPlan>,
    pub num_ops: Option<u32>,
}

/// How many positions lie between `start` and `end`, both left out; none
/// where `end` does not lie behind `start`.
pub open spec fn gap(start: usize, end: usize) -> usize {
    if end > start {
        (end - start - 1) as usize
    } else {
        0
    }
}

/// The plan of the slot between the positions `start` and `end`. A slot
/// that begins the equation starts at 0 and has `end` digits; any other
/// starts behind `start` and fills the gap up to `end`.
pub open spec fn slot_between(start: usize, end: usize, or_less: bool, allow_zero: bool) -> SlotPlan {
    if start == 0 {
        SlotPlan { digits: end, start: Some(0), or_less, allow_zero }
    } else {
        SlotPlan {
            digits: gap(start, end),
            start: Some((start + 1) as usize),
            or_less,
            allow_zero,
        }
    }
}

/// The plan of a slot of up to `digits` digits of which the place is not
/// known.
pub open spec fn slot_anywhere(digits: usize, allow_zero: bool) -> SlotPlan {
    SlotPlan { digits, start: None, or_less: true, allow_zero }
}

/// The layout that follows from the position `op1` of the first operator,
/// `op2` of the second, and `equal` of the equal sign, as far as they are
/// known. The cases, in this order:
/// both operators and the equal sign; both operators; an operator among
/// the first three positions and the equal sign at most three behind it;
/// an operator among the first three positions and the equal sign; an
/// operator further right and the equal sign; an operator alone; the equal
/// sign alone; nothing.
pub open spec fn layout_spec(op1: Option<usize>, op2: Option<usize>, equal: Option<usize>) -> Layout {
    match (op1, op2, equal) {
        (Some(o1), Some(o2), Some(e)) => Layout {
            a: Some(slot_between(0, o1, false, false)),
            b: Some(slot_between(o1, o2, false, false)),
            b2: Some(slot_between(o2, e, false, false)),
            c: Some(slot_between(e, 8, false, true)),
            num_ops: Some(2),
        },
        (Some(o1), Some(o2), None) => Layout {
            a: Some(slot_between(0, o1, false, false)),
            b: Some(slot_between(o1, o2, false, false)),
            b2: None,
            c: None,
            num_ops: Some(2),
        },
        (Some(o1), None, Some(e)) => if o1 < 3 && e >= o1 && e - o1 <= 3 {
            Layout {
                a: Some(slot_between(0, o1, false, false)),
                b: Some(slot_between(o1, e, false, false)),
                b2: None,
                c: Some(slot_between(e, 8, false, true)),
                num_ops: Some(1),
            }
        } else if o1 < 3 {
            Layout {
                a: Some(slot_between(0, o1, false, false)),
                b: Some(slot_between(o1, e, true, false)),
                b2: None,
                c: Some(slot_between(e, 8, false, true)),
                num_ops: None,
            }
        } else {
            Layout {
                a: Some(slot_between(0, o1, true, false)),
                b: Some(slot_anywhere(2, false)),
                b2: Some(slot_anywhere(2, false)),
                c: Some(slot_between(e, 8, false, true)),
                num_ops: None,
            }
        },
        (Some(o1), None, None) => Layout {
            a: Some(slot_between(0, o1, o1 >= 3, false)),
            b: Some(slot_anywhere(4, false)),
            b2: Some(slot_anywhere(4, false)),
            c: Some(slot_anywhere(4, true)),
            num_ops: None,
        },
        (None, _, Some(e)) => Layout {
            a: Some(
                slot_between(
                    0,
                    if e < 4 {
                        e
                    } else {
                        4
                    },
                    true,
                    false,
                ),
            ),
            b: Some(slot_anywhere(4, false)),
            b2: Some(slot_anywhere(4, false)),
            c: Some(slot_between(e, 8, false, true)),
            num_ops: None,
        },
        (None, _, None) => Layout {
            a: Some(SlotPlan { digits: 4, start: Some(0), or_less: true, allow_zero: false }),
            b: Some(slot_anywhere(4, false)),
            b2: Some(slot_anywhere(4, false)),
            c: Some(slot_anywhere(4, true)),
            num_ops: None,
        },
    }
}

/// Where both operators and the equal sign are known and stand in that
/// order behind a first digit, the slots, the operators and the equal sign
/// fill the equation exactly.
pub proof fn lemma_layout_two_operators(o1: usize, o2: usize, e: usize)
    requires
        0 < o1 < o2 < e < 8,
    ensures
        ({
            let l = layout_spec(Some(o1), Some(o2), Some(e));
            l.a->0.digits + 1 + l.b->0.digits + 1 + l.b2->0.digits + 1 + l.c->0.digits == 8
        }),
{
}

/// Where one operator and the equal sign are known to stand close to each
/// other behind a first digit, the slots, the operator and the equal sign
/// fill the equation exactly.
pub proof fn lemma_layout_one_operator(o1: usize, e: usize)
    requires
        0 < o1 < 3,
        o1 < e < 8,
        e - o1 <= 3,
    ensures
        ({
            let l = layout_spec(Some(o1), None, Some(e));
            l.a->0.digits + 1 + l.b->0.digits + 1 + l.c->0.digits == 8
        }),
{
}

/// A slot that a plan places ends within the equation.
pub open spec fn plan_in_bounds(plan: SlotPlan) -> bool {
    &&& plan.digits <= 8
    &&& plan.start matches Some(s) ==> s + plan.digits <= 8
}

/// The digits below `upto` that can stand at `pos`, in ascending order.
pub open spec fn class_digits(k: Knowledge, pos: int, upto: int) -> Seq<char>
    decreases upto,
{
    if upto <= 0 {
        Seq::empty()
    } else {
        class_digits(k, pos, upto - 1) + if k.admits(pos, (48 + upto - 1) as u8) {
            seq![((48 + upto - 1) as u8) as char]
        } else {
            Seq::empty()
        }
    }
}

/// The character class of the digits that can stand at `pos`.
pub open spec fn class_text(k: Knowledge, pos: int) -> Seq<char> {
    seq!['['] + class_digits(k, pos, 10) + seq![']']
}

/// The classes of `count` positions from `start` on. With `or_less` every
/// class but the first opens a group that may also match nothing.
pub open spec fn classes_text(k: Knowledge, start: int, count: int, or_less: bool) -> Seq<char>
    decreases count,
{
    if count <= 0 {
        Seq::empty()
    } else {
        classes_text(k, start, count - 1, or_less) + (if or_less && count > 1 {
            seq!['(', '?', ':', '|']
        } else {
            Seq::empty()
        }) + class_text(k, start + count - 1)
    }
}

/// `n` closing brackets.
pub open spec fn closers(n: int) -> Seq<char>
    decreases n,
{
    if n <= 0 {
        Seq::empty()
    } else {
        closers(n - 1).push(')')
    }
}

/// The pattern of the numbers that can stand in `count` positions from
/// `start` on: one digit of its class at each position; with `or_less`,
/// any beginning of that of at least one digit.
pub open spec fn pattern_at(k: Knowledge, start: int, count: int, or_less: bool) -> Seq<char> {
    seq!['(', '?', '-', 'u', ')', '^'] + classes_text(k, start, count, or_less) + (if or_less {
        closers(count - 1)
    } else {
        Seq::empty()
    }) + seq!['$']
}

/// The digits below `upto` of which the answer can hold a copy.
pub open spec fn free_digits(k: Knowledge, upto: int) -> Seq<char>
    decreases upto,
{
    if upto <= 0 {
        Seq::empty()
    } else {
        free_digits(k, upto - 1) + if k.facts((48 + upto - 1) as u8).max_count > 0 {
            seq![((48 + upto - 1) as u8) as char]
        } else {
            Seq::empty()
        }
    }
}

/// The pattern of the numbers of `count` digits, or with `or_less` of one
/// to `count` digits, of which the answer can hold a copy.
pub open spec fn pattern_anywhere(k: Knowledge, count: usize, or_less: bool) -> Seq<char> {
    seq!['(', '?', '-', 'u', ')', '^', '['] + free_digits(k, 10) + seq![']', '{'] + (if or_less {
        seq!['1', ',']
    } else {
        Seq::empty()
    }) + number_chars(count as i32) + seq!['}', '$']
}

/// The pattern of a plan.
pub open spec fn plan_pattern(k: Knowledge, plan: SlotPlan) -> Seq<char> {
    match plan.start {
        Some(s) => pattern_at(k, s as int, plan.digits as int, plan.or_less),
        None => pattern_anywhere(k, plan.digits, plan.or_less),
    }
}

/// The least value of the range of a plan.
pub open spec fn plan_range_start(plan: SlotPlan) -> int {
    if plan.or_less {
        if plan.allow_zero {
            0
        } else {
            1
        }
    } else if plan.digits == 1 {
        if plan.allow_zero {
            0
        } else {
            1
        }
    } else if plan.digits == 2 {
        10
    } else if plan.digits == 3 {
        100
    } else if plan.digits == 4 {
        1000
    } else {
        1
    }
}

/// The greatest value of the range of a plan.
pub open spec fn plan_range_end(plan: SlotPlan) -> int {
    if plan.digits == 1 {
        9
    } else if plan.digits == 2 {
        99
    } else if plan.digits == 3 {
        999
    } else if plan.digits == 4 {
        9999
    } else {
        NERDLE_NUM_MAX as int
    }
}

/// Whether `constraint` is what a plan asks for: the range of the plan,
/// and its pattern for the text. Where the pattern does not compile, the
/// constraint accepts nothing.
pub open spec fn meets_plan(
    k: Knowledge,
    plan: Option<SlotPlan>,
    constraint: &ExpressionNumberConstraint,
) -> bool {
    match plan {
        None => {
            &&& constraint.range@.start == 0
            &&& constraint.range@.end == NERDLE_NUM_MAX
            &&& constraint.acceptor@ == (AcceptorView { rejects: false, patterns: Seq::empty() })
        },
        Some(p) => {
            &&& constraint.range@.start == plan_range_start(p)
            &&& constraint.range@.end == plan_range_end(p)
            &&& constraint.acceptor@ == (if regex_compiles(plan_pattern(k, p)) {
                AcceptorView { rejects: false, patterns: seq![plan_pattern(k, p)] }
            } else {
                AcceptorView { rejects: true, patterns: Seq::empty() }
            })
        },
    }
}

/// The sum of the least counts known of the four operators.
pub open spec fn least_operators(k: Knowledge) -> int {
    (if k.chars.contains_key(45) {
        k.chars[45].min_count as int
    } else {
        0
    }) + (if k.chars.contains_key(43) {
        k.chars[43].min_count as int
    } else {
        0
    }) + (if k.chars.contains_key(42) {
        k.chars[42].min_count as int
    } else {
        0
    }) + (if k.chars.contains_key(47) {
        k.chars[47].min_count as int
    } else {
        0
    })
}

/// The equal sign's position where it is known and lies in the equation.
pub open spec fn known_equal(k: Knowledge) -> Option<usize> {
    match k.equal_pos {
        Some(p) => if p < 8 {
            Some(p)
        } else {
            None
        },
        None => None,
    }
}

/// The layout that follows from what is known.
pub open spec fn layout_of(k: Knowledge) -> Layout {
    let o1 = first_operator_from(k, 0);
    let o2 = if o1 < 8 {
        first_operator_from(k, o1 + 1)
    } else {
        8
    };
    layout_spec(found(o1), found(o2), known_equal(k))
}

/// Whether `constraint` is the one derived from what is known: each
/// operator met so far may occur from its least count to its greatest, or
/// twice at most; the equation has the operators that are known at least,
/// one at least, and two at most, unless the layout settles their number;
/// each slot meets its plan; and the equation must fit what is known.
pub open spec fn derived_from(data: &NerdleData, constraint: &EquationConstraint) -> bool {
    let k = data@;
    let l = layout_of(k);
    &&& constraint.knowledge == Some(data)
    &&& forall|c: u8| #[trigger]
        constraint.operator@.contains_key(c) <==> is_operator_symbol(c) && k.chars.contains_key(c)
    &&& forall|c: u8| #[trigger]
        constraint.operator@.contains_key(c) ==> constraint.operator@[c]@.start
            == k.chars[c].min_count && constraint.operator@[c]@.end == (if k.chars[c].max_count
            < 2 {
            k.chars[c].max_count
        } else {
            2
        })
    &&& match l.num_ops {
        Some(n) => constraint.num_ops@.start == n && constraint.num_ops@.end == n,
        None => constraint.num_ops@.end == 2 && constraint.num_ops@.start == (if least_operators(k)
            < 1 {
            1
        } else if least_operators(k) > u32::MAX {
            u32::MAX as int
        } else {
            least_operators(k)
        }),
    }
    &&& meets_plan(k, l.a, &constraint.a_constraint)
    &&& meets_plan(k, l.b, &constraint.b_constraint)
    &&& meets_plan(k, l.b2, &constraint.b2_constraint)
    &&& meets_plan(k, l.c, &constraint.c_constraint)
}

/// The positions below `upto` where the equal sign is known not to stand,
/// each with a blank behind.
pub open spec fn equal_exclusions(k: Knowledge, upto: int) -> Seq<char>
    decreases upto,
{
    if upto <= 0 {
        Seq::empty()
    } else {
        equal_exclusions(k, upto - 1) + if k.chars.contains_key(61) && k.chars[61].marks[upto - 1]
            == NerdleIsChar::DefinitelyNot {
            as_chars(digits_of((upto - 1) as nat)) + " "@
        } else {
            Seq::empty()
        }
    }
}

/// The line of a hint that tells of the equal sign: where it stands, or
/// where it does not.
pub open spec fn equal_hint(k: Knowledge) -> Seq<char> {
    "Equal sign "@ + (match k.equal_pos {
        Some(p) => "at "@ + as_chars(digits_of(p as nat)),
        None => "not at "@ + equal_exclusions(k, 8),
    }) + "\n"@
}

/// The characters below `upto` that can stand at `pos`, in ascending
/// order, each with a blank in front.
pub open spec fn possibility_list(k: Knowledge, pos: int, upto: int) -> Seq<char>
    decreases upto,
{
    if upto <= 0 {
        Seq::empty()
    } else {
        possibility_list(k, pos, upto - 1) + if k.admits(pos, (upto - 1) as u8) {
            " "@.push(((upto - 1) as u8) as char)
        } else {
            Seq::empty()
        }
    }
}

/// The line of a hint that tells what can stand at `pos`.
pub open spec fn position_hint(k: Knowledge, pos: int) -> Seq<char> {
    "Position "@ + as_chars(digits_of(pos as nat)) + " "@ + (if admitted_below(k, pos, 256) == 0 {
        "NO POSSIBILITIES?!"@
    } else if admitted_below(k, pos, 256) == 1 {
        "is"@
    } else {
        "could be"@
    }) + possibility_list(k, pos, 256) + "\n"@
}

/// The lines of a hint for the first `upto` positions.
pub open spec fn position_hints(k: Knowledge, upto: int) -> Seq<char>
    decreases upto,
{
    if upto <= 0 {
        Seq::empty()
    } else {
        position_hints(k, upto - 1) + position_hint(k, upto - 1)
    }
}

/// The hint that a solver gives: a line on the equal sign and a line for
/// each position.
pub open spec fn hint_text(k: Knowledge) -> Seq<char> {
    equal_hint(k) + position_hints(k, 8)
}

/// Whether more operators are known to be in the answer than an equation
/// can have, so that no number of operators is left to choose from.
pub open spec fn too_many_operators(k: Knowledge) -> bool {
    layout_of(k).num_ops is None && least_operators(k) > NERDLE_MAX_OPS
}

/// Two constraints that are derived from the same knowledge ask the same
/// of every equation.
pub proof fn lemma_derived_agree(
    data: &NerdleData,
    c1: &EquationConstraint,
    c2: &EquationConstraint,
    eq: Equation,
)
    requires
        derived_from(data, c1),
        derived_from(data, c2),
    ensures
        c1.admits(eq) == c2.admits(eq),
{
    let parts = eq.expr.parts@;
    assert(c1.c_constraint.admits(eq.res) == c2.c_constraint.admits(eq.res));
    assert forall|b: u8| c1.allows_byte(b) == c2.allows_byte(b) by {
        if c1.operator@.contains_key(b) {
            assert(c2.operator@.contains_key(b));
        }
        if c2.operator@.contains_key(b) {
            assert(c1.operator@.contains_key(b));
        }
    }
    assert forall|n: u32| c1.allows_count(n) == c2.allows_count(n) by {}
    assert forall|num: crate::expr::ExpressionNumber|
        c1.a_constraint.admits(num) == c2.a_constraint.admits(num) by {}
    assert forall|num: crate::expr::ExpressionNumber|
        c1.b_constraint.admits(num) == c2.b_constraint.admits(num) by {}
    assert forall|num: crate::expr::ExpressionNumber|
        c1.b2_constraint.admits(num) == c2.b2_constraint.admits(num) by {}
    assert(c1.admits_structure(parts, eq.res) == c2.admits_structure(parts, eq.res));
}

/// What is reported of a candidate with the text `text`, of which the
/// derived constraint says `structure`: what contradicts the feedback
/// first, as it is; then what contradicts the structure, as a failure of
/// the structure.
pub open spec fn answer_outcome(
    k: Knowledge,
    text: Seq<u8>,
    structure: Result<(), NoMatchFound>,
) -> Result<(), NerdleError> {
    match matches_spec(k, text) {
        Err(e) => Err(e),
        Ok(_) => match structure {
            Ok(_) => Ok(()),
            Err(e) => Err(NerdleError { kind: NerdleErrorKind::Structure(e.kind) }),
        },
    }
}

/// The strategy that guesses the first equation it finds that fits all
/// feedback so far.
pub struct NerdleSolver {
    pub data: NerdleData,
}

fn gap_between(start: usize, end: usize) -> (r: usize)
    ensures
        r == gap(start, end),
{
    if end > start {
        end - start - 1
    } else {
        0
    }
}

fn plan_between(start: usize, end: usize, or_less: bool, allow_zero: bool) -> (r: SlotPlan)
    requires
        start < 8,
    ensures
        r == slot_between(start, end, or_less, allow_zero),
{
    if start == 0 {
        SlotPlan { digits: end, start: Some(0), or_less, allow_zero }
    } else {
        SlotPlan { digits: gap_between(start, end), start: Some(start + 1), or_less, allow_zero }
    }
}

fn plan_anywhere(digits: usize, allow_zero: bool) -> (r: SlotPlan)
    ensures
        r == slot_anywhere(digits, allow_zero),
{
    SlotPlan { digits, start: None, or_less: true, allow_zero }
}

/// The layout that follows from the positions of the operators and of the
/// equal sign, as far as they are known.
pub fn plan_layout(op1: Option<usize>, op2: Option<usize>, equal: Option<usize>) -> (r: Layout)
    requires
        op1 matches Some(o) ==> o < 8,
        op2 matches Some(o) ==> o < 8,
        equal matches Some(e) ==> e < 8,
    ensures
        r == layout_spec(op1, op2, equal),
{
    let max_digits: usize = NERDLE_OPERAND_MAX_DIGITS as usize;
    let end: usize = NERDLE_CHARACTERS as usize;
    match (op1, op2, equal) {
        (Some(o1), Some(o2), Some(e)) => Layout {
            a: Some(plan_between(0, o1, false, false)),
            b: Some(plan_between(o1, o2, false, false)),
            b2: Some(plan_between(o2, e, false, false)),
            c: Some(plan_between(e, end, false, true)),
            num_ops: Some(2),
        },
        (Some(o1), Some(o2), None) => Layout {
            a: Some(plan_between(0, o1, false, false)),
            b: Some(plan_between(o1, o2, false, false)),
            b2: None,
            c: None,
            num_ops: Some(2),
        },
        (Some(o1), None, Some(e)) => {
            if o1 < 3 && e >= o1 && e - o1 <= 3 {
                Layout {
                    a: Some(plan_between(0, o1, false, false)),
                    b: Some(plan_between(o1, e, false, false)),
                    b2: None,
                    c: Some(plan_between(e, end, false, true)),
                    num_ops: Some(1),
                }
            } else if o1 < 3 {
                Layout {
                    a: Some(plan_between(0, o1, false, false)),
                    b: Some(plan_between(o1, e, true, false)),
                    b2: None,
                    c: Some(plan_between(e, end, false, true)),
                    num_ops: None,
                }
            } else {
                Layout {
                    a: Some(plan_between(0, o1, true, false)),
                    b: Some(plan_anywhere(2, false)),
                    b2: Some(plan_anywhere(2, false)),
                    c: Some(plan_between(e, end, false, true)),
                    num_ops: None,
                }
            }
        },
        (Some(o1), None, None) => Layout {
            a: Some(plan_between(0, o1, o1 >= 3, false)),
            b: Some(plan_anywhere(max_digits, false)),
            b2: Some(plan_anywhere(max_digits, false)),
            c: Some(plan_anywhere(max_digits, true)),
            num_ops: None,
        },
        (None, _, Some(e)) => Layout {
            a: Some(plan_between(0, if e < max_digits {
                e
            } else {
                max_digits
            }, true, false)),
            b: Some(plan_anywhere(max_digits, false)),
            b2: Some(plan_anywhere(max_digits, false)),
            c: Some(plan_between(e, end, false, true)),
            num_ops: None,
        },
        (None, _, None) => Layout {
            a: Some(SlotPlan { digits: max_digits, start: Some(0), or_less: true, allow_zero: false }),
            b: Some(plan_anywhere(max_digits, false)),
            b2: Some(plan_anywhere(max_digits, false)),
            c: Some(plan_anywhere(max_digits, true)),
            num_ops: None,
        },
    }
}

/// The plans of a layout that is made from positions in the equation place
/// their slots within it.
pub proof fn lemma_layout_in_bounds(op1: Option<usize>, op2: Option<usize>, equal: Option<usize>)
    requires
        op1 matches Some(o) ==> o < 8,
        op2 matches Some(o) ==> o < 8 && op1 is Some && op1->0 < o,
        equal matches Some(e) ==> e < 8,
    ensures
        ({
            let l = layout_spec(op1, op2, equal);
            &&& l.a matches Some(p) ==> plan_in_bounds(p)
            &&& l.b matches Some(p) ==> plan_in_bounds(p)
            &&& l.b2 matches Some(p) ==> plan_in_bounds(p)
            &&& l.c matches Some(p) ==> plan_in_bounds(p)
        }),
{
}


fn is_op_byte(c: u8) -> (r: bool)
    ensures
        r == is_operator_symbol(c),
{
    c == 43 || c == 45 || c == 42 || c == 47
}

fn append_digit(out: &mut String, d: u8)
    requires
        d < 10,
    ensures
        final(out)@ == old(out)@.push(((48 + d) as u8) as char),
{
    let piece = symbol_str(48 + d);
    out.append(piece);
    assert(out@ =~= old(out)@.push(((48 + d) as u8) as char));
}

impl NerdleSolver {
    /// A solver that knows nothing yet.
    pub fn new() -> (r: NerdleSolver)
        ensures
            r.data@ == crate::nerdledata::nothing_known(),
    {
        NerdleSolver { data: NerdleData::default() }
    }

    /// Whether `ch` is one of the four operator characters.
    pub fn is_op_char(ch: char) -> (r: bool)
        ensures
            r == (ch == '+' || ch == '-' || ch == '/' || ch == '*'),
    {
        ch == '+' || ch == '-' || ch == '/' || ch == '*'
    }

    /// The characters that can stand at `pos`.
    pub fn possibilities_for_pos(&self, pos: usize) -> (r: HashSet<u8>)
        requires
            pos < 8,
        ensures
            r@ == self.data@.possibilities(pos as int),
    {
        self.data.possibilities_for_pos(pos)
    }

    /// Whether only operators can stand at `pos`.
    pub fn is_op_at(&self, pos: usize) -> (r: bool)
        requires
            pos < 8,
        ensures
            r == operator_only(self.data@, pos as int),
    {
        let mut c: usize = 0;
        while c < 256
            invariant
                pos < 8,
                c <= 256,
                forall|x: u8|
                    x < c && #[trigger] self.data@.admits(pos as int, x) ==> is_operator_symbol(x),
            decreases 256 - c,
        {
            if self.data.admits(pos, c as u8) && !is_op_byte(c as u8) {
                return false;
            }
            c += 1;
        }
        true
    }

    fn first_operator(&self, from: usize) -> (r: Option<usize>)
        requires
            from <= 8,
        ensures
            r == found(first_operator_from(self.data@, from as int)),
            r matches Some(p) ==> from <= p < 8,
    {
        let mut pos: usize = from;
        while pos < 8
            invariant
                from <= pos <= 8,
                first_operator_from(self.data@, from as int) == first_operator_from(
                    self.data@,
                    pos as int,
                ),
            decreases 8 - pos,
        {
            if self.is_op_at(pos) {
                return Some(pos);
            }
            pos += 1;
        }
        None
    }

    /// The layout of the slots that follows from what is known.
    pub fn layout(&self) -> (r: Layout)
        ensures
            r == layout_of(self.data@),
            r.a matches Some(p) ==> plan_in_bounds(p),
            r.b matches Some(p) ==> plan_in_bounds(p),
            r.b2 matches Some(p) ==> plan_in_bounds(p),
            r.c matches Some(p) ==> plan_in_bounds(p),
    {
        let op1: Option<usize> = self.first_operator(0);
        let op2: Option<usize> = match op1 {
            Some(o1) => self.first_operator(o1 + 1),
            None => None,
        };
        let equal: Option<usize> = match self.data.equal_pos {
            Some(p) => if p < 8 {
                Some(p)
            } else {
                None
            },
            None => None,
        };
        proof {
            lemma_layout_in_bounds(op1, op2, equal);
        }
        plan_layout(op1, op2, equal)
    }

    fn append_class(&self, out: &mut String, pos: usize)
        requires
            pos < 8,
        ensures
            final(out)@ == old(out)@ + class_text(self.data@, pos as int),
    {
        proof {
            reveal_strlit("[");
            reveal_strlit("]");
        }
        out.append("[");
        let mut d: u8 = 0;
        while d < 10
            invariant
                d <= 10,
                pos < 8,
                out@ == old(out)@ + seq!['['] + class_digits(self.data@, pos as int, d as int),
            decreases 10 - d,
        {
            if self.data.admits(pos, 48 + d) {
                append_digit(out, d);
            }
            assert(out@ =~= old(out)@ + seq!['['] + class_digits(self.data@, pos as int, d + 1));
            d += 1;
        }
        out.append("]");
        assert(out@ =~= old(out)@ + class_text(self.data@, pos as int));
    }

    /// The regular expression of the numbers that can stand in `digits`
    /// positions from `start` on, or with `min` in the first of them.
    pub fn regex_for_digits_at(&self, start: usize, digits: usize, min: bool) -> (r: Result<
        Regex,
        regex::Error,
    >)
        requires
            start + digits <= 8,
        ensures
            r is Ok <==> regex_compiles(pattern_at(self.data@, start as int, digits as int, min)),
            r matches Ok(re) ==> regex_source(re) == pattern_at(
                self.data@,
                start as int,
                digits as int,
                min,
            ),
    {
        let ghost k = self.data@;
        let ghost head = seq!['(', '?', '-', 'u', ')', '^'];
        let mut regex = String::new();
        proof {
            reveal_strlit("(?-u)^");
        }
        regex.append("(?-u)^");
        assert(regex@ =~= head + classes_text(k, start as int, 0, min));
        let mut i: usize = 0;
        while i < digits
            invariant
                i <= digits,
                start + digits <= 8,
                k == self.data@,
                head == seq!['(', '?', '-', 'u', ')', '^'],
                regex@ == head + classes_text(k, start as int, i as int, min),
            decreases digits - i,
        {
            let ghost before = regex@;
            if min && i != 0 {
                proof {
                    reveal_strlit("(?:|");
                }
                regex.append("(?:|");
                assert(regex@ =~= before + seq!['(', '?', ':', '|']);
            }
            self.append_class(&mut regex, start + i);
            assert(regex@ =~= head + classes_text(k, start as int, i + 1, min));
            i += 1;
        }
        let ghost body = regex@;
        if min {
            let mut j: usize = 1;
            assert(regex@ =~= body + closers(0));
            while j < digits
                invariant
                    1 <= j,
                    j <= digits || (digits == 0 && j == 1),
                    regex@ == body + closers(j - 1),
                decreases digits - j,
            {
                proof {
                    reveal_strlit(")");
                }
                regex.append(")");
                assert(regex@ =~= body + closers(j as int));
                j += 1;
            }
            assert(regex@ =~= body + closers(digits - 1));
        }
        let ghost closed = regex@;
        proof {
            reveal_strlit("$");
        }
        regex.append("$");
        assert(regex@ =~= pattern_at(k, start as int, digits as int, min)) by {
            assert(regex@ =~= closed + seq!['$']);
            if !min {
                assert(closed =~= body + Seq::<char>::empty());
            }
        }
        regex_compile(regex.as_str())
    }

    /// The regular expression of the numbers of `digits` digits, or with
    /// `min` of one to `digits` digits, of which the answer can hold a
    /// copy.
    pub fn regex_for_digits_anywhere(&self, digits: usize, min: bool) -> (r: Result<
        Regex,
        regex::Error,
    >)
        requires
            digits <= i32::MAX,
        ensures
            r is Ok <==> regex_compiles(pattern_anywhere(self.data@, digits, min)),
            r matches Ok(re) ==> regex_source(re) == pattern_anywhere(self.data@, digits, min),
    {
        let ghost k = self.data@;
        let ghost head = seq!['(', '?', '-', 'u', ')', '^', '['];
        let mut regex = String::new();
        proof {
            reveal_strlit("(?-u)^[");
        }
        regex.append("(?-u)^[");
        assert(regex@ =~= head + free_digits(k, 0));
        let mut d: u8 = 0;
        while d < 10
            invariant
                d <= 10,
                k == self.data@,
                head == seq!['(', '?', '-', 'u', ')', '^', '['],
                regex@ == head + free_digits(k, d as int),
            decreases 10 - d,
        {
            let info = self.data.char_info_of(48 + d);
            if info.max_count > 0 {
                append_digit(&mut regex, d);
            }
            assert(regex@ =~= head + free_digits(k, d + 1));
            d += 1;
        }
        let ghost classed = regex@;
        proof {
            reveal_strlit("]{");
            reveal_strlit("1,");
            reveal_strlit("}$");
        }
        regex.append("]{");
        if min {
            regex.append("1,");
        }
        let mut bytes: Vec<u8> = Vec::new();
        push_int(&mut bytes, digits as i32);
        proof {
            lemma_int_text(digits as int);
            assert(bytes@ =~= int_text(digits as int));
        }
        let count: String = symbols_to_string(&bytes);
        regex.append(count.as_str());
        regex.append("}$");
        assert(regex@ =~= pattern_anywhere(k, digits, min)) by {
            let opened = classed + seq![']', '{'];
            let limited = opened + (if min {
                seq!['1', ',']
            } else {
                Seq::<char>::empty()
            });
            assert(regex@ =~= limited + number_chars(digits as i32) + seq!['}', '$']);
        }
        regex_compile(regex.as_str())
    }

    /// The constraint of a slot of `digits` digits, or with `min` of up to
    /// `digits` digits, that starts at `start` if that is given: the range
    /// of such numbers, and the pattern of the digits that can stand
    /// there. A pattern that does not compile leaves nothing to accept.
    pub fn constraint_for_digits(
        &self,
        digits: usize,
        start: Option<usize>,
        min: bool,
        allow_zero: bool,
    ) -> (r: ExpressionNumberConstraint)
        requires
            plan_in_bounds(SlotPlan { digits, start, or_less: min, allow_zero }),
        ensures
            meets_plan(
                self.data@,
                Some(SlotPlan { digits, start, or_less: min, allow_zero }),
                &r,
            ),
    {
        let range = if min {
            range_for_digits_or_less(digits, allow_zero)
        } else {
            range_for_digits(digits, allow_zero)
        };
        let compiled = match start {
            Some(s) => self.regex_for_digits_at(s, digits, min),
            None => self.regex_for_digits_anywhere(digits, min),
        };
        let acceptor = match compiled {
            Ok(re) => NumberAcceptor::matching(re),
            Err(_) => NumberAcceptor::nothing(),
        };
        ExpressionNumberConstraint { range, acceptor }
    }

    /// The constraint of the slot between the positions `start` and `end`.
    pub fn constraint_for_digits_start_end(
        &self,
        start: usize,
        end: usize,
        min: bool,
        allow_zero: bool,
    ) -> (r: ExpressionNumberConstraint)
        requires
            start < 8,
            end <= 8,
        ensures
            meets_plan(self.data@, Some(slot_between(start, end, min, allow_zero)), &r),
    {
        let plan = plan_between(start, end, min, allow_zero);
        self.constraint_for_digits(plan.digits, plan.start, plan.or_less, plan.allow_zero)
    }

    fn constraint_for_plan(&self, plan: Option<SlotPlan>) -> (r: ExpressionNumberConstraint)
        requires
            plan matches Some(p) ==> plan_in_bounds(p),
        ensures
            meets_plan(self.data@, plan, &r),
    {
        match plan {
            Some(p) => self.constraint_for_digits(p.digits, p.start, p.or_less, p.allow_zero),
            None => ExpressionNumberConstraint::default(),
        }
    }

    fn limit_operator(&self, operator: &mut HashMap<u8, RangeInclusive<u32>>, op: u8) -> (least: u32)
        ensures
            final(operator)@ == (if self.data@.chars.contains_key(op) {
                old(operator)@.insert(op, final(operator)@[op])
            } else {
                old(operator)@
            }),
            self.data@.chars.contains_key(op) ==> final(operator)@[op]@.start
                == self.data@.chars[op].min_count && final(operator)@[op]@.end == (
            if self.data@.chars[op].max_count < 2 {
                self.data@.chars[op].max_count
            } else {
                2
            }),
            least == (if self.data@.chars.contains_key(op) {
                self.data@.chars[op].min_count
            } else {
                0
            }),
    {
        broadcast use vstd::std_specs::hash::group_hash_axioms;

        match self.data.char_info.get(&op) {
            Some(info) => {
                let most: u32 = if info.max_count < NERDLE_MAX_OPS {
                    info.max_count
                } else {
                    NERDLE_MAX_OPS
                };
                let least: u32 = info.min_count;
                operator.insert(op, RangeInclusive::new(least, most));
                assert(operator@ =~= old(operator)@.insert(op, operator@[op]));
                least
            },
            None => 0,
        }
    }

    /// The constraint on equations that follows from what is known.
    pub fn constraint(&self) -> (r: EquationConstraint<'_>)
        ensures
            derived_from(&self.data, &r),
    {
        let layout = self.layout();
        let mut operator: HashMap<u8, RangeInclusive<u32>> = HashMap::new();
        let minus: u32 = self.limit_operator(&mut operator, 45);
        let plus: u32 = self.limit_operator(&mut operator, 43);
        let times: u32 = self.limit_operator(&mut operator, 42);
        let divide: u32 = self.limit_operator(&mut operator, 47);
        let least: u64 = minus as u64 + plus as u64 + times as u64 + divide as u64;
        let num_ops: RangeInclusive<u32> = match layout.num_ops {
            Some(n) => RangeInclusive::new(n, n),
            None => {
                let start: u32 = if least < 1 {
                    1
                } else if least > 0xffff_ffff {
                    0xffff_ffff
                } else {
                    least as u32
                };
                RangeInclusive::new(start, NERDLE_MAX_OPS)
            },
        };
        EquationConstraint {
            knowledge: Some(&self.data),
            a_constraint: self.constraint_for_plan(layout.a),
            b_constraint: self.constraint_for_plan(layout.b),
            b2_constraint: self.constraint_for_plan(layout.b2),
            c_constraint: self.constraint_for_plan(layout.c),
            operator,
            num_ops,
        }
    }

    fn append_position_hint(&self, out: &mut String, pos: usize)
        requires
            pos < 8,
        ensures
            final(out)@ == old(out)@ + position_hint(self.data@, pos as int),
    {
        let ghost k = self.data@;
        let mut listing = String::new();
        let mut count: u32 = 0;
        let mut c: usize = 0;
        assert(listing@ =~= possibility_list(k, pos as int, 0));
        while c < 256
            invariant
                pos < 8,
                c <= 256,
                k == self.data@,
                count == admitted_below(k, pos as int, c as int),
                count <= c,
                listing@ == possibility_list(k, pos as int, c as int),
            decreases 256 - c,
        {
            let ghost before = listing@;
            if self.data.admits(pos, c as u8) {
                count += 1;
                listing.append(" ");
                listing.push(c as u8 as char);
                assert(listing@ =~= before + " "@.push((c as u8) as char));
            }
            assert(listing@ =~= possibility_list(k, pos as int, c + 1));
            c += 1;
        }
        out.append("Position ");
        let place = number_string(pos as u64);
        out.append(place.as_str());
        out.append(" ");
        if count == 0 {
            out.append("NO POSSIBILITIES?!");
        } else if count == 1 {
            out.append("is");
        } else {
            out.append("could be");
        }
        out.append(listing.as_str());
        out.append("\n");
        assert(out@ =~= old(out)@ + position_hint(k, pos as int));
    }

    /// What is known, as text for people: where the equal sign stands or
    /// does not stand, and what can stand at each position.
    pub fn hint(&self) -> (r: String)
        ensures
            r@ == hint_text(self.data@),
    {
        let ghost k = self.data@;
        let mut out = String::from_str("Equal sign ");
        match self.data.equal_pos {
            Some(p) => {
                out.append("at ");
                let place = number_string(p as u64);
                out.append(place.as_str());
            },
            None => {
                out.append("not at ");
                let info = self.data.char_info_of(61);
                let known: bool = self.data.knows(61);
                let ghost head = out@;
                let mut pos: usize = 0;
                assert(out@ =~= head + equal_exclusions(k, 0));
                while pos < 8
                    invariant
                        pos <= 8,
                        k == self.data@,
                        info@ == k.facts(61),
                        known == k.chars.contains_key(61),
                        out@ == head + equal_exclusions(k, pos as int),
                    decreases 8 - pos,
                {
                    let ghost before = out@;
                    if known {
                        match info.positions[pos] {
                            NerdleIsChar::DefinitelyNot => {
                                let place = number_string(pos as u64);
                                out.append(place.as_str());
                                out.append(" ");
                                assert(out@ =~= before + (as_chars(digits_of(pos as nat)) + " "@));
                            },
                            _ => {},
                        }
                    }
                    assert(out@ =~= head + equal_exclusions(k, pos + 1));
                    pos += 1;
                }
            },
        }
        out.append("\n");
        assert(out@ =~= equal_hint(k) + position_hints(k, 0));
        let mut pos: usize = 0;
        while pos < 8
            invariant
                pos <= 8,
                k == self.data@,
                out@ == equal_hint(k) + position_hints(k, pos as int),
            decreases 8 - pos,
        {
            self.append_position_hint(&mut out, pos);
            assert(out@ =~= equal_hint(k) + position_hints(k, pos + 1));
            pos += 1;
        }
        out
    }

    /// Looks for an equation that fits all feedback so far: up to 101
    /// searches with the constraint that follows from what is known. What
    /// comes back is an equation of the game of which `answer_ok` approves.
    pub fn take_guess(&self) -> (r: Result<Equation, NoMatchFound>)
        ensures
            r matches Ok(eq) ==> eq.computes_spec() == Ok::<
                bool,
                crate::expr::InvalidExpressionError,
            >(true) && eq.text().len() == 8 && matches_spec(self.data@, eq.text()) is Ok,
            r matches Ok(eq) ==> forall|c: EquationConstraint|
                derived_from(&self.data, &c) ==> answer_outcome(
                    self.data@,
                    eq.text(),
                    #[trigger] c.admits(eq),
                ) is Ok,
            too_many_operators(self.data@) ==> r == Err::<Equation, NoMatchFound>(
                no_match(NoMatchKind::EmptyRange),
            ),
            !too_many_operators(self.data@) ==> (r matches Err(e) ==> e.kind
                == NoMatchKind::OutOfAttempts),
    {
        let constraint = self.constraint();
        let mut tries: u32 = 0;
        let mut found: Result<Equation, NoMatchFound> = eqgen_constrained(&constraint);
        while tries < 100 && found.is_err()
            invariant
                derived_from(&self.data, &constraint),
                found matches Ok(eq) ==> is_valid_for(eq, &constraint),
                constraint.num_ops@.start > constraint.num_ops@.end ==> found == Err::<
                    Equation,
                    NoMatchFound,
                >(no_match(NoMatchKind::EmptyRange)),
                constraint.num_ops@.start <= constraint.num_ops@.end ==> (found matches Err(e)
                    ==> e.kind == NoMatchKind::OutOfAttempts),
            decreases 100 - tries,
        {
            found = eqgen_constrained(&constraint);
            tries += 1;
        }
        proof {
            if found is Ok {
                let eq = found->Ok_0;
                assert forall|c: EquationConstraint| derived_from(&self.data, &c) implies
                    answer_outcome(self.data@, eq.text(), #[trigger] c.admits(eq)) is Ok by {
                    lemma_derived_agree(&self.data, &c, &constraint, eq);
                }
            }
        }
        found
    }

    /// Folds the verdicts on a guess into what is known.
    pub fn update(&mut self, guess: &Equation, result: &NerdleResult)
        requires
            guess.text().len() == 8,
        ensures
            final(self).data@ == update_spec(old(self).data@, guess.text(), result.positions@),
    {
        self.data.update(guess, result);
    }

    /// Whether `eq` fits what is known and the constraint that follows
    /// from it.
    pub fn answer_ok(&self, eq: &Equation) -> (r: Result<(), NerdleError>)
        ensures
            forall|c: EquationConstraint|
                derived_from(&self.data, &c) ==> r == answer_outcome(
                    self.data@,
                    eq.text(),
                    #[trigger] c.admits(*eq),
                ),
            matches_spec(self.data@, eq.text()) matches Err(e) ==> r == Err::<(), NerdleError>(e),
            r is Ok ==> matches_spec(self.data@, eq.text()) is Ok,
            (r is Err && matches_spec(self.data@, eq.text()) is Ok) ==> r->Err_0.kind is Structure,
    {
        let constraint = self.constraint();
        proof {
            assert forall|c: EquationConstraint| derived_from(&self.data, &c) implies
                #[trigger] c.admits(*eq) == constraint.admits(*eq) by {
                lemma_derived_agree(&self.data, &c, &constraint, *eq);
            }
        }
        match self.data.eq_matches(eq) {
            Err(e) => {
                return Err(e);
            },
            Ok(()) => {},
        }
        match constraint.accept(eq) {
            Err(err) => Err(NerdleError { kind: NerdleErrorKind::Structure(err.kind) }),
            Ok(()) => Ok(()),
        }
    }
}

} // verus!
