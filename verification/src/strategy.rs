//! Ways to play, found by name.

use vstd::prelude::*;
use vstd::string::{StrSliceExecFns, StringExecFns};
use crate::constraint::{no_match, NoMatchFound, NoMatchKind};
use crate::eq::Equation;
use crate::expr::InvalidExpressionError;
use crate::nerdle::{NerdleError, NerdleResult};
use crate::nerdledata::{matches_spec, nothing_known, update_spec, Knowledge};
use crate::nerdsolver::{hint_text, too_many_operators, NerdleSolver};

verus! {

/// A way to play: it guesses, and learns from the verdicts on guesses.
pub trait Strategy {
    /// What the strategy has learnt from feedback.
    spec fn knowledge(&self) -> Knowledge;

    /// An equation to guess next. It is an equation of the game, and it
    /// fits all feedback so far.
    fn take_guess(&self) -> (r: Result<Equation, NoMatchFound>)
        ensures
            r matches Ok(eq) ==> eq.computes_spec() == Ok::<bool, InvalidExpressionError>(true)
                && eq.text().len() == 8 && matches_spec(self.knowledge(), eq.text()) is Ok,
            too_many_operators(self.knowledge()) ==> r == Err::<Equation, NoMatchFound>(
                no_match(NoMatchKind::EmptyRange),
            ),
            !too_many_operators(self.knowledge()) ==> (r matches Err(e) ==> e.kind
                == NoMatchKind::OutOfAttempts),
    ;

    /// Learns from the verdicts on a guess.
    fn update(&mut self, guess: &Equation, result: &NerdleResult)
        requires
            guess.text().len() == 8,
        ensures
            final(self).knowledge() == update_spec(
                old(self).knowledge(),
                guess.text(),
                result.positions@,
            ),
    ;

    /// What the strategy has learnt, as text for people.
    fn hint(&self) -> (r: String)
        ensures
            r@ == hint_text(self.knowledge()),
    ;

    /// Whether `eq` can still be the answer. What contradicts the feedback
    /// is reported first, as it is; any other failure is one of the
    /// structure that the strategy derives from the feedback.
    fn answer_ok(&self, eq: &Equation) -> (r: Result<(), NerdleError>)
        ensures
            matches_spec(self.knowledge(), eq.text()) matches Err(e) ==> r == Err::<
                (),
                NerdleError,
            >(e),
            r is Ok ==> matches_spec(self.knowledge(), eq.text()) is Ok,
            (r is Err && matches_spec(self.knowledge(), eq.text()) is Ok)
                ==> r->Err_0.kind is Structure,
    ;
}

impl Strategy for NerdleSolver {
    open spec fn knowledge(&self) -> Knowledge {
        self.data@
    }

    fn take_guess(&self) -> (r: Result<Equation, NoMatchFound>) {
        NerdleSolver::take_guess(self)
    }

    fn update(&mut self, guess: &Equation, result: &NerdleResult) {
        NerdleSolver::update(self, guess, result)
    }

    fn hint(&self) -> (r: String) {
        NerdleSolver::hint(self)
    }

    fn answer_ok(&self, eq: &Equation) -> (r: Result<(), NerdleError>) {
        NerdleSolver::answer_ok(self, eq)
    }
}

/// The strategies there are.
pub enum StrategyEnum {
    /// Guess the first equation found that fits all feedback.
    FirstPossible(NerdleSolver),
}

/// The failure of asking for a strategy that there is not.
#[derive(Clone, Debug)]
pub struct NoSuchStrategyError {
    /// The name that was asked for.
    pub name: String,
}

impl StrategyEnum {
    /// The strategy of the given name, new: `first_possible` is the one
    /// there is.
    pub fn by_name(name: &str) -> (r: Result<StrategyEnum, NoSuchStrategyError>)
        ensures
            name@ == "first_possible"@ <==> r is Ok,
            r matches Ok(strategy) ==> strategy.knowledge() == nothing_known(),
            r matches Err(e) ==> e.name@ == name@,
    {
        let known: &str = "first_possible";
        let n: usize = known.unicode_len();
        let mut same: bool = name.unicode_len() == n;
        let mut i: usize = 0;
        while same && i < n
            invariant
                i <= n,
                n == known@.len(),
                same ==> name@.len() == n,
                same ==> forall|j: int| 0 <= j < i ==> name@[j] == known@[j],
                !same ==> name@ != known@,
            decreases n - i,
        {
            if name.get_char(i) != known.get_char(i) {
                same = false;
            }
            i += 1;
        }
        if same {
            assert(name@ =~= known@);
            Ok(StrategyEnum::FirstPossible(NerdleSolver::new()))
        } else {
            Err(NoSuchStrategyError { name: String::from_str(name) })
        }
    }

    /// The strategy as such.
    pub fn as_strategy(&self) -> (r: &NerdleSolver)
        ensures
            r.knowledge() == self.knowledge(),
    {
        match self {
            StrategyEnum::FirstPossible(solver) => solver,
        }
    }
}

impl StrategyEnum {
    /// The strategy as such, to learn.
    pub fn as_strategy_mut(&mut self) -> (r: &mut NerdleSolver)
        ensures
            r.knowledge() == old(self).knowledge(),
            final(self).knowledge() == final(r).knowledge(),
    {
        match self {
            StrategyEnum::FirstPossible(solver) => solver,
        }
    }
}

impl Strategy for StrategyEnum {
    open spec fn knowledge(&self) -> Knowledge {
        match self {
            StrategyEnum::FirstPossible(solver) => solver.data@,
        }
    }

    fn take_guess(&self) -> (r: Result<Equation, NoMatchFound>) {
        match self {
            StrategyEnum::FirstPossible(solver) => NerdleSolver::take_guess(solver),
        }
    }

    fn update(&mut self, guess: &Equation, result: &NerdleResult) {
        match self {
            StrategyEnum::FirstPossible(solver) => NerdleSolver::update(solver, guess, result),
        }
    }

    fn hint(&self) -> (r: String) {
        match self {
            StrategyEnum::FirstPossible(solver) => NerdleSolver::hint(solver),
        }
    }

    fn answer_ok(&self, eq: &Equation) -> (r: Result<(), NerdleError>) {
        match self {
            StrategyEnum::FirstPossible(solver) => NerdleSolver::answer_ok(solver, eq),
        }
    }
}

} // verus!
