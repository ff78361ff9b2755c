//! The constants of the game and the scoring of a guess against an answer.

use vstd::prelude::*;
use vstd::string::{StringExecFns, StringSliceAdditionalSpecFns};
use std::collections::HashMap;
use crate::eq::Equation;
use crate::expr::{ExpressionErrorKind, InvalidExpressionError};

verus! {

/// How many guesses a game allows.
pub const NERDLE_TURNS: u32 = 6;

/// How many operators an equation may hold at most.
pub const NERDLE_MAX_OPS: u32 = 2;

/// How many characters an equation of the game has.
pub const NERDLE_CHARACTERS: u32 = 8;

/// The largest number the game uses.
pub const NERDLE_NUM_MAX: i32 = 999;

/// The most digits an operand may have.
pub const NERDLE_OPERAND_MAX_DIGITS: u32 = 4;

/// The largest first operand the generator tries.
pub const NERDLE_A_MAX: i32 = 999;

/// Why a guess could not be scored, or a candidate does not fit.
#[derive(Clone, Copy, Debug, PartialEq, Eq)]
pub enum NerdleErrorKind {
    /// The guess has not the length of the game.
    GuessLength,
    /// The answer has not the length of the game.
    AnswerLength,
    /// The guess cannot be evaluated.
    Expression(ExpressionErrorKind),
    /// The guess evaluates, but not to its result.
    GuessDoesNotCompute,
    /// The answer evaluates, but not to its result.
    AnswerDoesNotCompute,
    /// A text of verdicts has not the length of the game.
    VerdictCount,
    /// A text of verdicts holds a byte that is no verdict.
    InvalidVerdict(u8),
    /// The candidate has not the length of the game.
    CandidateLength,
    /// The candidate holds fewer of a character than are known to be there.
    TooFew(u8),
    /// The candidate holds more of a character than can be there.
    TooMany(u8),
    /// The candidate has, at a position, a character that is excluded there.
    Excluded(usize, u8),
    /// The candidate does not fit the structure derived from the feedback.
    Structure(crate::constraint::NoMatchKind),
}

/// The failure of scoring a guess, or of a candidate to fit the feedback.
#[derive(Clone, Copy, Debug, PartialEq, Eq)]
pub struct NerdleError {
    pub kind: NerdleErrorKind,
}

impl From<InvalidExpressionError> for NerdleError {
    fn from(error: InvalidExpressionError) -> (r: Self) {
        NerdleError { kind: NerdleErrorKind::Expression(error.kind) }
    }
}

impl vstd::std_specs::convert::FromSpecImpl<InvalidExpressionError> for NerdleError {
    open spec fn obeys_from_spec() -> bool {
        true
    }

    open spec fn from_spec(error: InvalidExpressionError) -> Self {
        NerdleError { kind: NerdleErrorKind::Expression(error.kind) }
    }
}

/// The verdict on one position of a guess.
#[derive(Clone, Copy, Debug, PartialEq, Eq, Structural)]
pub enum NerdlePositionResult {
    /// The character is in the answer, elsewhere.
    Yellow,
    /// The character stands at this position in the answer.
    Green,
    /// The answer has no further copy of the character.
    Gray,
}

/// The verdicts on the positions of a guess.
#[derive(Clone, Copy, Debug, PartialEq, Eq)]
pub struct NerdleResult {
    pub positions: [NerdlePositionResult; 8],
}

/// The failure of scoring for the given reason.
pub open spec fn nerdle_failure(kind: NerdleErrorKind) -> NerdleError {
    NerdleError { kind }
}

/// How many of the first `upto` positions of `a` hold `c`.
pub open spec fn occurrences(a: Seq<u8>, c: u8, upto: int) -> nat
    decreases upto,
{
    if upto <= 0 {
        0
    } else {
        occurrences(a, c, upto - 1) + if a[upto - 1] == c {
            1nat
        } else {
            0nat
        }
    }
}

/// How many of the first `upto` positions hold `c` in both `x` and `y`.
pub open spec fn matched(x: Seq<u8>, y: Seq<u8>, c: u8, upto: int) -> nat
    decreases upto,
{
    if upto <= 0 {
        0
    } else {
        matched(x, y, c, upto - 1) + if x[upto - 1] == c && y[upto - 1] == c {
            1nat
        } else {
            0nat
        }
    }
}

/// How many of the first `upto` positions hold `c` in `x` and something
/// else in `y`.
pub open spec fn unmatched(x: Seq<u8>, y: Seq<u8>, c: u8, upto: int) -> nat
    decreases upto,
{
    if upto <= 0 {
        0
    } else {
        unmatched(x, y, c, upto - 1) + if x[upto - 1] == c && y[upto - 1] != c {
            1nat
        } else {
            0nat
        }
    }
}

/// The verdict on position `i` of `guess`. Green where guess and answer
/// agree. Elsewhere the copies of a character that the answer holds at
/// positions where the guess does not match it are handed out from the
/// left: Yellow while they last, then Gray.
pub open spec fn verdict(guess: Seq<u8>, answer: Seq<u8>, i: int) -> NerdlePositionResult {
    if guess[i] == answer[i] {
        NerdlePositionResult::Green
    } else if unmatched(guess, answer, guess[i], i) < unmatched(
        answer,
        guess,
        guess[i],
        answer.len() as int,
    ) {
        NerdlePositionResult::Yellow
    } else {
        NerdlePositionResult::Gray
    }
}

/// The verdicts on all positions of `guess`.
pub open spec fn score(guess: Seq<u8>, answer: Seq<u8>) -> Seq<NerdlePositionResult> {
    Seq::new(guess.len(), |i: int| verdict(guess, answer, i))
}

/// Whether all verdicts are Green.
pub open spec fn all_green(verdicts: Seq<NerdlePositionResult>) -> bool {
    forall|i: int| 0 <= i < verdicts.len() ==> #[trigger] verdicts[i] == NerdlePositionResult::Green
}

/// How many of the first `upto` positions of `guess` hold `c` and are
/// Yellow.
pub open spec fn yellows(guess: Seq<u8>, answer: Seq<u8>, c: u8, upto: int) -> nat
    decreases upto,
{
    if upto <= 0 {
        0
    } else {
        yellows(guess, answer, c, upto - 1) + if guess[upto - 1] == c && verdict(
            guess,
            answer,
            upto - 1,
        ) == NerdlePositionResult::Yellow {
            1nat
        } else {
            0nat
        }
    }
}

/// The copies of `c` in `a` are those that `g` matches and those that it
/// does not.
pub proof fn lemma_occurrences_split(g: Seq<u8>, a: Seq<u8>, c: u8, upto: int)
    ensures
        occurrences(a, c, upto) == matched(g, a, c, upto) + unmatched(a, g, c, upto),
    decreases upto,
{
    if upto > 0 {
        lemma_occurrences_split(g, a, c, upto - 1);
    }
}

/// A guess gets, for each character, as many Yellows as it has misplaced
/// copies of it, but no more than the answer has copies left after the
/// Greens: two misplaced copies against one in the answer are one Yellow
/// and one Gray.
pub proof fn lemma_yellows(guess: Seq<u8>, answer: Seq<u8>, c: u8, upto: int)
    requires
        0 <= upto <= guess.len(),
        guess.len() == answer.len(),
    ensures
        yellows(guess, answer, c, upto) == if unmatched(guess, answer, c, upto) < unmatched(
            answer,
            guess,
            c,
            answer.len() as int,
        ) {
            unmatched(guess, answer, c, upto)
        } else {
            unmatched(answer, guess, c, answer.len() as int)
        },
        yellows(guess, answer, c, upto) <= occurrences(answer, c, answer.len() as int) - matched(
            guess,
            answer,
            c,
            answer.len() as int,
        ),
    decreases upto,
{
    lemma_occurrences_split(guess, answer, c, answer.len() as int);
    if upto > 0 {
        lemma_yellows(guess, answer, c, upto - 1);
    }
}

/// A guess that is the answer is all Green.
pub proof fn lemma_score_self(answer: Seq<u8>)
    ensures
        all_green(score(answer, answer)),
        score(answer, answer).len() == answer.len(),
{
}

/// The count that `m` holds for `c`: nothing counts as zero.
pub open spec fn tally(m: Map<u8, i32>, c: u8) -> int {
    if m.contains_key(c) {
        m[c] as int
    } else {
        0
    }
}

/// What is left of `have` after `taken` were taken, and nothing where more
/// were asked for than there were.
pub open spec fn left_over(have: nat, taken: nat) -> int {
    if taken < have {
        have - taken
    } else {
        0
    }
}

fn tally_of(m: &HashMap<u8, i32>, c: u8) -> (r: i32)
    ensures
        r == tally(m@, c),
{
    broadcast use vstd::std_specs::hash::group_hash_axioms;

    match m.get(&c) {
        Some(v) => *v,
        None => 0,
    }
}

/// Scores `guess` against `answer`, both of the length of the game: Greens
/// first, then Yellows from the left for as long as the answer has copies
/// of the character left.
pub fn score_bytes(guess: &[u8], answer: &[u8]) -> (r: NerdleResult)
    requires
        guess@.len() == 8,
        answer@.len() == 8,
    ensures
        r.positions@ == score(guess@, answer@),
{
    broadcast use vstd::std_specs::hash::group_hash_axioms;

    let mut result = NerdleResult { positions: [NerdlePositionResult::Gray; 8] };
    let mut remaining: HashMap<u8, i32> = HashMap::new();
    let mut pos: usize = 0;
    while pos < 8
        invariant
            pos <= 8,
            answer@.len() == 8,
            forall|c: u8|
                tally(remaining@, c) == #[trigger] occurrences(answer@, c, pos as int)
                    && occurrences(answer@, c, pos as int) <= pos,
        decreases 8 - pos,
    {
        let ch: u8 = answer[pos];
        let count: i32 = tally_of(&remaining, ch);
        let ghost before = remaining@;
        assert(occurrences(answer@, ch, pos as int) <= pos);
        remaining.insert(ch, count + 1);
        proof {
            assert forall|c: u8|
                tally(remaining@, c) == #[trigger] occurrences(answer@, c, pos + 1) && occurrences(
                    answer@,
                    c,
                    pos + 1,
                ) <= pos + 1 by {
                assert(tally(before, c) == occurrences(answer@, c, pos as int));
            }
        }
        pos += 1;
    }
    pos = 0;
    while pos < 8
        invariant
            pos <= 8,
            answer@.len() == 8,
            guess@.len() == 8,
            forall|c: u8|
                tally(remaining@, c) == occurrences(answer@, c, 8) - #[trigger] matched(
                    guess@,
                    answer@,
                    c,
                    pos as int,
                ) && matched(guess@, answer@, c, pos as int) <= pos && occurrences(answer@, c, 8)
                    <= 8,
            forall|j: int|
                0 <= j < 8 ==> #[trigger] result.positions@[j] == if j < pos && guess@[j]
                    == answer@[j] {
                    NerdlePositionResult::Green
                } else {
                    NerdlePositionResult::Gray
                },
        decreases 8 - pos,
    {
        let guess_pos: u8 = guess[pos];
        let ghost before = remaining@;
        let ghost marks = result.positions@;
        assert(matched(guess@, answer@, guess_pos, pos as int) <= pos);
        assert(marks[pos as int] == NerdlePositionResult::Gray);
        if guess_pos == answer[pos] {
            result.positions[pos] = NerdlePositionResult::Green;
            let count: i32 = tally_of(&remaining, guess_pos);
            remaining.insert(guess_pos, count - 1);
        }
        proof {
            assert forall|c: u8|
                tally(remaining@, c) == occurrences(answer@, c, 8) - #[trigger] matched(
                    guess@,
                    answer@,
                    c,
                    pos + 1,
                ) && matched(guess@, answer@, c, pos + 1) <= pos + 1 && occurrences(answer@, c, 8)
                    <= 8 by {
                assert(matched(guess@, answer@, c, pos as int) <= pos);
            }
            assert forall|j: int| 0 <= j < 8 implies #[trigger] result.positions@[j] == if j < pos
                + 1 && guess@[j] == answer@[j] {
                NerdlePositionResult::Green
            } else {
                NerdlePositionResult::Gray
            } by {
                if j != pos {
                    assert(result.positions@[j] == marks[j]);
                }
            }
        }
        pos += 1;
    }
    proof {
        assert forall|c: u8| tally(remaining@, c) == #[trigger] unmatched(
            answer@,
            guess@,
            c,
            8,
        ) by {
            lemma_occurrences_split(guess@, answer@, c, 8);
        }
    }
    pos = 0;
    while pos < 8
        invariant
            pos <= 8,
            answer@.len() == 8,
            guess@.len() == 8,
            forall|c: u8|
                tally(remaining@, c) == left_over(
                    unmatched(answer@, guess@, c, 8),
                    #[trigger] unmatched(guess@, answer@, c, pos as int),
                ),
            forall|j: int|
                0 <= j < 8 ==> result.positions@[j] == if j < pos {
                    verdict(guess@, answer@, j)
                } else if guess@[j] == answer@[j] {
                    NerdlePositionResult::Green
                } else {
                    NerdlePositionResult::Gray
                },
        decreases 8 - pos,
    {
        let guess_pos: u8 = guess[pos];
        let ghost before = remaining@;
        let ghost marks = result.positions@;
        assert(tally(before, guess_pos) == left_over(
            unmatched(answer@, guess@, guess_pos, 8),
            unmatched(guess@, answer@, guess_pos, pos as int),
        ));
        if guess_pos != answer[pos] {
            let count: i32 = tally_of(&remaining, guess_pos);
            if count > 0 {
                result.positions[pos] = NerdlePositionResult::Yellow;
                remaining.insert(guess_pos, count - 1);
            }
        }
        proof {
            assert forall|c: u8|
                tally(remaining@, c) == left_over(
                    unmatched(answer@, guess@, c, 8),
                    #[trigger] unmatched(guess@, answer@, c, pos + 1),
                ) by {
                assert(tally(before, c) == left_over(
                    unmatched(answer@, guess@, c, 8),
                    unmatched(guess@, answer@, c, pos as int),
                ));
            }
            assert(result.positions@[pos as int] == verdict(guess@, answer@, pos as int));
        }
        pos += 1;
    }
    assert(result.positions@ =~= score(guess@, answer@));
    result
}

/// A longer prefix holds no fewer copies of a character.
pub proof fn lemma_occurrences_monotone(a: Seq<u8>, c: u8, i: int, j: int)
    requires
        i <= j,
    ensures
        occurrences(a, c, i) <= occurrences(a, c, j),
        occurrences(a, c, j) <= occurrences(a, c, i) + (j - i),
    decreases j - i,
{
    if i < j {
        lemma_occurrences_monotone(a, c, i, j - 1);
    }
}


/// The outcome of scoring two texts: both must have the length of the game.
pub open spec fn nerdle_str_spec(guess: Seq<u8>, answer: Seq<u8>) -> Result<
    Seq<NerdlePositionResult>,
    NerdleError,
> {
    if guess.len() != 8 {
        Err(nerdle_failure(NerdleErrorKind::GuessLength))
    } else if answer.len() != 8 {
        Err(nerdle_failure(NerdleErrorKind::AnswerLength))
    } else {
        Ok(score(guess, answer))
    }
}

/// The outcome of scoring two equations: both must evaluate to their
/// result, the guess being looked at first, and then their texts are
/// scored.
pub open spec fn nerdle_spec(guess: Equation, answer: Equation) -> Result<
    Seq<NerdlePositionResult>,
    NerdleError,
> {
    match guess.computes_spec() {
        Err(e) => Err(nerdle_failure(NerdleErrorKind::Expression(e.kind))),
        Ok(guess_holds) => if !guess_holds {
            Err(nerdle_failure(NerdleErrorKind::GuessDoesNotCompute))
        } else {
            match answer.computes_spec() {
                Err(e) => Err(nerdle_failure(NerdleErrorKind::Expression(e.kind))),
                Ok(answer_holds) => if !answer_holds {
                    Err(nerdle_failure(NerdleErrorKind::AnswerDoesNotCompute))
                } else {
                    nerdle_str_spec(guess.text(), answer.text())
                },
            }
        },
    }
}

/// An answer of the length of the game that evaluates to its result wins
/// against itself.
pub proof fn lemma_answer_wins(answer: Equation)
    requires
        answer.computes_spec() == Ok::<bool, InvalidExpressionError>(true),
        answer.text().len() == 8,
    ensures
        nerdle_spec(answer, answer) is Ok,
        all_green(nerdle_spec(answer, answer)->Ok_0),
{
    lemma_score_self(answer.text());
}

fn score_checked(guess: &[u8], answer: &[u8]) -> (r: Result<NerdleResult, NerdleError>)
    ensures
        match nerdle_str_spec(guess@, answer@) {
            Ok(v) => r is Ok && r->Ok_0.positions@ == v,
            Err(e) => r == Err::<NerdleResult, NerdleError>(e),
        },
{
    if guess.len() != NERDLE_CHARACTERS as usize {
        return Err(NerdleError { kind: NerdleErrorKind::GuessLength });
    }
    if answer.len() != NERDLE_CHARACTERS as usize {
        return Err(NerdleError { kind: NerdleErrorKind::AnswerLength });
    }
    Ok(score_bytes(guess, answer))
}

/// Scores the text `guess` against the text `answer`.
pub fn nerdle_str(guess: &str, answer: &str) -> (r: Result<NerdleResult, NerdleError>)
    ensures
        match nerdle_str_spec(guess.spec_bytes(), answer.spec_bytes()) {
            Ok(v) => r is Ok && r->Ok_0.positions@ == v,
            Err(e) => r == Err::<NerdleResult, NerdleError>(e),
        },
{
    score_checked(guess.as_bytes(), answer.as_bytes())
}

/// Scores the equation `guess` against the equation `answer`.
pub fn nerdle(guess: &Equation, answer: &Equation) -> (r: Result<NerdleResult, NerdleError>)
    ensures
        match nerdle_spec(*guess, *answer) {
            Ok(v) => r is Ok && r->Ok_0.positions@ == v,
            Err(e) => r == Err::<NerdleResult, NerdleError>(e),
        },
{
    match guess.computes() {
        Err(e) => {
            return Err(NerdleError::from(e));
        },
        Ok(holds) => {
            if !holds {
                return Err(NerdleError { kind: NerdleErrorKind::GuessDoesNotCompute });
            }
        },
    }
    match answer.computes() {
        Err(e) => {
            return Err(NerdleError::from(e));
        },
        Ok(holds) => {
            if !holds {
                return Err(NerdleError { kind: NerdleErrorKind::AnswerDoesNotCompute });
            }
        },
    }
    let guess_text: Vec<u8> = guess.render();
    let answer_text: Vec<u8> = answer.render();
    score_checked(guess_text.as_slice(), answer_text.as_slice())
}

/// The verdict that a byte stands for: `y` or `Y`, `g` or `G`, and `-`.
pub open spec fn verdict_of_byte(b: u8) -> Option<NerdlePositionResult> {
    if b == 121 || b == 89 {
        Some(NerdlePositionResult::Yellow)
    } else if b == 103 || b == 71 {
        Some(NerdlePositionResult::Green)
    } else if b == 45 {
        Some(NerdlePositionResult::Gray)
    } else {
        None
    }
}

/// The character a verdict is written with.
pub open spec fn verdict_char(v: NerdlePositionResult) -> char {
    match v {
        NerdlePositionResult::Yellow => 'Y',
        NerdlePositionResult::Green => 'G',
        NerdlePositionResult::Gray => '-',
    }
}

/// Whether `c` is white space: a character with the Unicode property
/// `White_Space`.
pub open spec fn is_white_space(c: char) -> bool {
    let u = c as u32;
    (0x09 <= u <= 0x0d) || u == 0x20 || u == 0x85 || u == 0xa0 || u == 0x1680 || (0x2000 <= u
        <= 0x200a) || u == 0x2028 || u == 0x2029 || u == 0x202f || u == 0x205f || u == 0x3000
}

/// How many white spaces `s` begins with.
pub open spec fn leading_white(s: Seq<char>) -> int
    decreases s.len(),
{
    if s.len() > 0 && is_white_space(s[0]) {
        1 + leading_white(s.drop_first())
    } else {
        0
    }
}

/// How many white spaces `s` ends with.
pub open spec fn trailing_white(s: Seq<char>) -> int
    decreases s.len(),
{
    if s.len() > 0 && is_white_space(s.last()) {
        1 + trailing_white(s.drop_last())
    } else {
        0
    }
}

/// `s` without the white space at its ends.
pub open spec fn trimmed(s: Seq<char>) -> Seq<char> {
    let rest = s.skip(leading_white(s));
    rest.take(rest.len() - trailing_white(rest))
}

/// Cuts the white space off both ends of `input` with `str::trim`, which
/// takes white space to be the characters with the Unicode property
/// `White_Space`.
#[verifier::external_body]
fn trim(input: &str) -> (r: &str)
    ensures
        r@ == trimmed(input@),
{
    input.trim()
}

/// The verdicts that the bytes of `s` stand for, or the first byte from
/// the left that stands for none.
pub open spec fn verdicts_of(s: Seq<u8>) -> Result<Seq<NerdlePositionResult>, NerdleError>
    decreases s.len(),
{
    if s.len() == 0 {
        Ok(Seq::empty())
    } else {
        match verdict_of_byte(s[0]) {
            None => Err(nerdle_failure(NerdleErrorKind::InvalidVerdict(s[0]))),
            Some(v) => match verdicts_of(s.drop_first()) {
                Ok(rest) => Ok(seq![v] + rest),
                Err(e) => Err(e),
            },
        }
    }
}

/// The verdicts that a text holds: eight of them, with or without white
/// space around them.
pub open spec fn parse_verdicts(s: Seq<char>) -> Result<Seq<NerdlePositionResult>, NerdleError> {
    let t = vstd::utf8::encode_utf8(trimmed(s));
    if t.len() != 8 {
        Err(nerdle_failure(NerdleErrorKind::VerdictCount))
    } else {
        verdicts_of(t)
    }
}

impl Default for NerdleResult {
    fn default() -> (r: Self)
        ensures
            forall|i: int| 0 <= i < 8 ==> #[trigger] r.positions@[i] == NerdlePositionResult::Gray,
    {
        NerdleResult { positions: [NerdlePositionResult::Gray; 8] }
    }
}

impl NerdleResult {
    /// Whether every position is Green.
    pub fn won(&self) -> (r: bool)
        ensures
            r == all_green(self.positions@),
    {
        let mut pos: usize = 0;
        while pos < 8
            invariant
                pos <= 8,
                forall|i: int|
                    0 <= i < pos ==> #[trigger] self.positions@[i] == NerdlePositionResult::Green,
            decreases 8 - pos,
        {
            match self.positions[pos] {
                NerdlePositionResult::Green => {},
                _ => {
                    return false;
                },
            }
            pos += 1;
        }
        true
    }

    /// Reads verdicts from their text.
    pub fn parse(input: &str) -> (r: Result<NerdleResult, NerdleError>)
        ensures
            match parse_verdicts(input@) {
                Ok(v) => r is Ok && r->Ok_0.positions@ == v,
                Err(e) => r == Err::<NerdleResult, NerdleError>(e),
            },
    {
        let bytes = trim(input).as_bytes();
        let ghost t = bytes@;
        if bytes.len() != NERDLE_CHARACTERS as usize {
            return Err(NerdleError { kind: NerdleErrorKind::VerdictCount });
        }
        let mut res = NerdleResult { positions: [NerdlePositionResult::Gray; 8] };
        let mut i: usize = 0;
        let ghost mut done: Seq<NerdlePositionResult> = Seq::empty();
        assert(t.skip(0) =~= t);
        while i < 8
            invariant
                i <= 8,
                t.len() == 8,
                t == bytes@,
                t == vstd::utf8::encode_utf8(trimmed(input@)),
                done.len() == i,
                forall|j: int| 0 <= j < i ==> #[trigger] res.positions@[j] == done[j],
                verdicts_of(t) == match verdicts_of(t.skip(i as int)) {
                    Ok(more) => Ok::<Seq<NerdlePositionResult>, NerdleError>(done + more),
                    Err(e) => Err(e),
                },
            decreases 8 - i,
        {
            let b: u8 = bytes[i];
            assert(t.skip(i as int)[0] == b);
            assert(t.skip(i as int).drop_first() =~= t.skip(i + 1));
            let read: Option<NerdlePositionResult> = if b == 121 || b == 89 {
                Some(NerdlePositionResult::Yellow)
            } else if b == 103 || b == 71 {
                Some(NerdlePositionResult::Green)
            } else if b == 45 {
                Some(NerdlePositionResult::Gray)
            } else {
                None
            };
            assert(read == verdict_of_byte(b));
            let v: NerdlePositionResult = match read {
                Some(v) => v,
                None => {
                    return Err(NerdleError { kind: NerdleErrorKind::InvalidVerdict(b) });
                },
            };
            res.positions[i] = v;
            proof {
                if let Ok(more) = verdicts_of(t.skip(i + 1)) {
                    assert(done + (seq![v] + more) =~= done.push(v) + more);
                }
                done = done.push(v);
            }
            i += 1;
        }
        assert(t.skip(8) =~= Seq::empty());
        assert(done + Seq::<NerdlePositionResult>::empty() =~= done);
        assert(res.positions@ =~= done);
        Ok(res)
    }

    /// The verdicts as text: `Y`, `G` and `-`.
    pub fn to_string(&self) -> (s: String)
        ensures
            s@ == Seq::new(8, |i: int| verdict_char(self.positions@[i])),
    {
        let mut s = String::new();
        let mut pos: usize = 0;
        while pos < 8
            invariant
                pos <= 8,
                s@ == Seq::new(pos as nat, |i: int| verdict_char(self.positions@[i])),
            decreases 8 - pos,
        {
            proof {
                reveal_strlit("Y");
                reveal_strlit("G");
                reveal_strlit("-");
            }
            match self.positions[pos] {
                NerdlePositionResult::Yellow => {
                    s.append("Y");
                },
                NerdlePositionResult::Green => {
                    s.append("G");
                },
                NerdlePositionResult::Gray => {
                    s.append("-");
                },
            }
            assert(s@ =~= Seq::new(
                (pos + 1) as nat,
                |i: int| verdict_char(self.positions@[i]),
            ));
            pos += 1;
        }
        s
    }
}

impl std::str::FromStr for NerdleResult {
    type Err = NerdleError;

    fn from_str(input: &str) -> (r: Result<Self, Self::Err>)
        ensures
            match parse_verdicts(input@) {
                Ok(v) => r is Ok && r->Ok_0.positions@ == v,
                Err(e) => r == Err::<NerdleResult, NerdleError>(e),
            },
    {
        NerdleResult::parse(input)
    }
}

} // verus!
