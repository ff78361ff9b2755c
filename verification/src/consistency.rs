//! Feedback never rules the answer out: what is known stays true of the
//! answer through any history of guesses, and the counts only tighten.

use vstd::prelude::*;
use crate::nerdle::{
    lemma_occurrences_monotone, lemma_occurrences_split, lemma_yellows, matched, occurrences,
    score, unmatched, verdict, yellows, NerdlePositionResult,
};
use crate::nerdledata::{
    admitted_below, after_counts, after_positions, after_propagation, counted, definite_count,
    first_admitted, first_true, fits, fold_count, fold_position, grays, nothing_known,
    propagate_at,
    sole_possibility, unknown_facts, update_spec, Knowledge, NerdleIsChar,
};
use crate::nerdsolver::{is_operator_symbol, operator_only};
use crate::text::is_symbol;

verus! {

/// A text that can be an answer of the game: eight symbols, one of them
/// the equal sign.
pub open spec fn is_playable(answer: Seq<u8>) -> bool {
    &&& answer.len() == 8
    &&& forall|i: int| 0 <= i < 8 ==> is_symbol(#[trigger] answer[i])
    &&& occurrences(answer, 61, 8) == 1
}

/// Whether what is known is true of `answer`: the counts hold of it, it
/// has at each position what is known to stand there and nothing that is
/// excluded there, and its equal sign stands where it is known to stand.
/// What is marked as certain for a character is also held by its position.
pub open spec fn consistent(k: Knowledge, answer: Seq<u8>) -> bool {
    &&& k.well_formed()
    &&& forall|c: u8|
        k.chars.contains_key(c) ==> (#[trigger] k.chars[c]).min_count <= occurrences(answer, c, 8)
            <= k.chars[c].max_count
    &&& forall|pos: int, c: u8|
        0 <= pos < 8 && #[trigger] k.places[pos].contains_key(c) ==> (k.places[pos][c]
            <==> answer[pos] == c)
    &&& forall|c: u8, pos: int|
        k.chars.contains_key(c) && 0 <= pos < 8 ==> match #[trigger] k.chars[c].marks[pos] {
            NerdleIsChar::Definitely => answer[pos] == c && k.places[pos].contains_key(c)
                && k.places[pos][c],
            NerdleIsChar::DefinitelyNot => answer[pos] != c,
            NerdleIsChar::Maybe => true,
        }
    &&& k.equal_pos matches Some(p) ==> p < 8 && answer[p as int] == 61 && k.places[p as int].contains_key(
        61,
    ) && k.places[p as int][61]
}

/// Whether `after` knows of every character all that `before` knew of its
/// count: no lesser minimum and no greater maximum.
pub open spec fn tightened(before: Knowledge, after: Knowledge) -> bool {
    forall|c: u8|
        before.facts(c).min_count <= (#[trigger] after.facts(c)).min_count && after.facts(
            c,
        ).max_count <= before.facts(c).max_count
}

/// At the start of a game nothing is known that could be false.
pub proof fn lemma_nothing_known_is_consistent(answer: Seq<u8>)
    ensures
        consistent(nothing_known(), answer),
{
}

/// What is consistent with an answer is a knowledge that the answer fits.
pub proof fn lemma_consistent_fits(k: Knowledge, answer: Seq<u8>)
    requires
        consistent(k, answer),
        answer.len() == 8,
    ensures
        fits(k, answer),
{
    assert forall|pos: int| 0 <= pos < 8 implies !(k.places[pos].contains_key(
        #[trigger] answer[pos],
    ) && !k.places[pos][answer[pos]]) by {
        if k.places[pos].contains_key(answer[pos]) {
            assert(k.places[pos][answer[pos]] <==> answer[pos] == answer[pos]);
        }
    }
}

proof fn lemma_occurrences_bound(a: Seq<u8>, c: u8)
    ensures
        occurrences(a, c, 8) <= 8,
{
    lemma_occurrences_monotone(a, c, 0, 8);
}

proof fn lemma_occurrence_at(a: Seq<u8>, c: u8, pos: int, upto: int)
    requires
        0 <= pos < upto,
        a[pos] == c,
    ensures
        occurrences(a, c, upto) >= 1,
    decreases upto,
{
    if pos < upto - 1 {
        lemma_occurrence_at(a, c, pos, upto - 1);
    }
}

proof fn lemma_two_occurrences(a: Seq<u8>, c: u8, p: int, q: int, upto: int)
    requires
        0 <= p < q < upto,
        a[p] == c,
        a[q] == c,
    ensures
        occurrences(a, c, upto) >= 2,
    decreases upto,
{
    if q < upto - 1 {
        lemma_two_occurrences(a, c, p, q, upto - 1);
    } else {
        lemma_occurrence_at(a, c, p, upto - 1);
    }
}

proof fn lemma_unmatched_monotone(x: Seq<u8>, y: Seq<u8>, c: u8, i: int, j: int)
    requires
        i <= j,
    ensures
        unmatched(x, y, c, i) <= unmatched(x, y, c, j),
    decreases j - i,
{
    if i < j {
        lemma_unmatched_monotone(x, y, c, i, j - 1);
    }
}

/// The copies of `c` that a guess is shown to hold are its Greens and its
/// Yellows.
proof fn lemma_counted(guess: Seq<u8>, answer: Seq<u8>, c: u8, upto: int)
    requires
        0 <= upto <= guess.len(),
        guess.len() == answer.len(),
    ensures
        counted(guess, score(guess, answer), c, upto) == matched(guess, answer, c, upto) + yellows(
            guess,
            answer,
            c,
            upto,
        ),
        counted(guess, score(guess, answer), c, upto) <= upto,
    decreases upto,
{
    if upto > 0 {
        lemma_counted(guess, answer, c, upto - 1);
        assert(score(guess, answer)[upto - 1] == verdict(guess, answer, upto - 1));
    }
}

/// A Gray copy of `c` shows that the guess has at least as many misplaced
/// copies of `c` as the answer has copies left.
proof fn lemma_grays(guess: Seq<u8>, answer: Seq<u8>, c: u8, upto: int)
    requires
        0 <= upto <= guess.len(),
        guess.len() == answer.len(),
        grays(guess, score(guess, answer), c, upto) > 0,
    ensures
        unmatched(guess, answer, c, guess.len() as int) >= unmatched(
            answer,
            guess,
            c,
            answer.len() as int,
        ),
    decreases upto,
{
    if upto > 0 {
        let j = upto - 1;
        assert(score(guess, answer)[j] == verdict(guess, answer, j));
        if guess[j] == c && verdict(guess, answer, j) == NerdlePositionResult::Gray {
            lemma_unmatched_monotone(guess, answer, c, j, guess.len() as int);
        } else {
            lemma_grays(guess, answer, c, j);
        }
    }
}

/// What a guess shows of the count of `c` is true of the answer: it holds
/// no fewer copies than are Green or Yellow, and exactly that many where
/// one copy is Gray.
proof fn lemma_shown_count(guess: Seq<u8>, answer: Seq<u8>, c: u8)
    requires
        guess.len() == 8,
        answer.len() == 8,
    ensures
        counted(guess, score(guess, answer), c, 8) <= occurrences(answer, c, 8),
        counted(guess, score(guess, answer), c, 8) <= 8,
        grays(guess, score(guess, answer), c, 8) > 0 ==> counted(
            guess,
            score(guess, answer),
            c,
            8,
        ) == occurrences(answer, c, 8),
{
    lemma_counted(guess, answer, c, 8);
    lemma_yellows(guess, answer, c, 8);
    lemma_occurrences_split(guess, answer, c, 8);
    if grays(guess, score(guess, answer), c, 8) > 0 {
        lemma_grays(guess, answer, c, 8);
    }
}

proof fn lemma_position_consistent(k: Knowledge, guess: Seq<u8>, answer: Seq<u8>, i: int)
    requires
        consistent(k, answer),
        answer.len() == 8,
        guess.len() == 8,
        0 <= i < 8,
    ensures
        consistent(fold_position(k, guess, score(guess, answer), i), answer),
        forall|c: u8|
            fold_position(k, guess, score(guess, answer), i).facts(c).min_count == k.facts(
                c,
            ).min_count && fold_position(k, guess, score(guess, answer), i).facts(c).max_count
                == k.facts(c).max_count,
{
    let v = score(guess, answer);
    let g = guess[i];
    let after = fold_position(k, guess, v, i);
    assert(v[i] == verdict(guess, answer, i));
    lemma_occurrences_bound(answer, g);
    let green = v[i] == NerdlePositionResult::Green;
    assert(green <==> g == answer[i]);
    let placed = if green {
        k.with_pin(i, g)
    } else {
        k.with_place(i, g, false)
    };
    let mark = if green {
        NerdleIsChar::Definitely
    } else {
        NerdleIsChar::DefinitelyNot
    };
    let marked = placed.with_mark(g, i, mark);
    assert(after.chars == marked.chars);
    assert(after.places == marked.places);
    assert(after.well_formed()) by {
        assert forall|c: u8| after.chars.contains_key(c) implies (#[trigger] after.chars[c]).marks.len()
            == 8 by {
            if c != g {
                assert(after.chars[c] == k.chars[c]);
            }
        }
    }
    assert forall|c: u8| after.chars.contains_key(c) implies (#[trigger] after.chars[c]).min_count
        <= occurrences(answer, c, 8) <= after.chars[c].max_count by {
        if c != g {
            assert(after.chars[c] == k.chars[c]);
        } else if k.chars.contains_key(g) {
            assert(k.chars[g].min_count <= occurrences(answer, g, 8));
        }
    }
    assert forall|pos: int, c: u8| 0 <= pos < 8 && #[trigger] after.places[pos].contains_key(
        c,
    ) implies (after.places[pos][c] <==> answer[pos] == c) by {
        if pos != i {
            assert(after.places[pos] == k.places[pos]);
            assert(k.places[pos].contains_key(c));
        } else if c != g && !(green && is_symbol(c)) {
            assert(k.places[pos].contains_key(c));
        }
    }
    assert forall|c: u8, pos: int| after.chars.contains_key(c) && 0 <= pos < 8 implies match
        #[trigger] after.chars[c].marks[pos] {
        NerdleIsChar::Definitely => answer[pos] == c && after.places[pos].contains_key(c)
            && after.places[pos][c],
        NerdleIsChar::DefinitelyNot => answer[pos] != c,
        NerdleIsChar::Maybe => true,
    } by {
        if c == g && pos == i {
        } else {
            if c != g {
                assert(after.chars[c] == k.chars[c]);
                assert(k.chars.contains_key(c));
            } else {
                assert(after.chars[c].marks[pos] == k.facts(c).marks[pos]);
            }
            if k.chars.contains_key(c) {
                let old_mark = k.chars[c].marks[pos];
                assert(after.chars[c].marks[pos] == old_mark);
                if old_mark == NerdleIsChar::Definitely {
                    assert(k.places[pos].contains_key(c) && k.places[pos][c]);
                    assert(answer[pos] == c);
                    if pos != i {
                        assert(after.places[pos] == k.places[pos]);
                    }
                }
            }
        }
    }
    match after.equal_pos {
        Some(p) => {
            if green && g == 61 {
                assert(p == i);
            } else {
                assert(k.equal_pos == Some(p));
                assert(k.places[p as int].contains_key(61));
                if p as int != i {
                    assert(after.places[p as int] == k.places[p as int]);
                }
            }
        },
        None => {},
    }
    assert forall|c: u8|
        after.facts(c).min_count == k.facts(c).min_count && after.facts(c).max_count == k.facts(
            c,
        ).max_count by {
        if c != g && after.chars.contains_key(c) {
            assert(after.chars[c] == k.chars[c]);
        }
    }
}

proof fn lemma_positions_consistent(k: Knowledge, guess: Seq<u8>, answer: Seq<u8>, upto: int)
    requires
        consistent(k, answer),
        answer.len() == 8,
        guess.len() == 8,
        0 <= upto <= 8,
    ensures
        consistent(after_positions(k, guess, score(guess, answer), upto), answer),
        tightened(k, after_positions(k, guess, score(guess, answer), upto)),
    decreases upto,
{
    if upto > 0 {
        lemma_positions_consistent(k, guess, answer, upto - 1);
        let before = after_positions(k, guess, score(guess, answer), upto - 1);
        lemma_position_consistent(before, guess, answer, upto - 1);
        let after = after_positions(k, guess, score(guess, answer), upto);
        assert forall|c: u8|
            k.facts(c).min_count <= (#[trigger] after.facts(c)).min_count && after.facts(
                c,
            ).max_count <= k.facts(c).max_count by {
            assert(k.facts(c).min_count <= before.facts(c).min_count);
        }
    }
}

proof fn lemma_count_consistent(k: Knowledge, guess: Seq<u8>, answer: Seq<u8>, i: int)
    requires
        consistent(k, answer),
        answer.len() == 8,
        guess.len() == 8,
        0 <= i < 8,
    ensures
        consistent(fold_count(k, guess, score(guess, answer), i), answer),
        tightened(k, fold_count(k, guess, score(guess, answer), i)),
{
    let v = score(guess, answer);
    let g = guess[i];
    let after = fold_count(k, guess, v, i);
    lemma_shown_count(guess, answer, g);
    lemma_occurrences_bound(answer, g);
    assert(after.places == k.places);
    if k.chars.contains_key(g) {
        assert(k.chars[g].min_count <= occurrences(answer, g, 8));
    }
    assert forall|c: u8| after.chars.contains_key(c) implies (#[trigger] after.chars[c]).marks.len()
        == 8 by {
        if c != g {
            assert(after.chars[c] == k.chars[c]);
        }
    }
    assert forall|c: u8| after.chars.contains_key(c) implies (#[trigger] after.chars[c]).min_count
        <= occurrences(answer, c, 8) <= after.chars[c].max_count by {
        if c != g {
            assert(after.chars[c] == k.chars[c]);
        }
    }
    assert forall|c: u8, pos: int| after.chars.contains_key(c) && 0 <= pos < 8 implies match
        #[trigger] after.chars[c].marks[pos] {
        NerdleIsChar::Definitely => answer[pos] == c && after.places[pos].contains_key(c)
            && after.places[pos][c],
        NerdleIsChar::DefinitelyNot => answer[pos] != c,
        NerdleIsChar::Maybe => true,
    } by {
        if c != g {
            assert(after.chars[c] == k.chars[c]);
            assert(k.chars.contains_key(c));
        } else if k.chars.contains_key(c) {
            assert(after.chars[c].marks[pos] == k.chars[c].marks[pos]);
        }
    }
    assert forall|c: u8|
        k.facts(c).min_count <= (#[trigger] after.facts(c)).min_count && after.facts(c).max_count
            <= k.facts(c).max_count by {
        if c != g && after.chars.contains_key(c) {
            assert(after.chars[c] == k.chars[c]);
        }
    }
}

proof fn lemma_counts_consistent(k: Knowledge, guess: Seq<u8>, answer: Seq<u8>, upto: int)
    requires
        consistent(k, answer),
        answer.len() == 8,
        guess.len() == 8,
        0 <= upto <= 8,
    ensures
        consistent(after_counts(k, guess, score(guess, answer), upto), answer),
        tightened(k, after_counts(k, guess, score(guess, answer), upto)),
    decreases upto,
{
    if upto > 0 {
        lemma_counts_consistent(k, guess, answer, upto - 1);
        let before = after_counts(k, guess, score(guess, answer), upto - 1);
        lemma_count_consistent(before, guess, answer, upto - 1);
        let after = after_counts(k, guess, score(guess, answer), upto);
        assert forall|c: u8|
            k.facts(c).min_count <= (#[trigger] after.facts(c)).min_count && after.facts(
                c,
            ).max_count <= k.facts(c).max_count by {
            assert(k.facts(c).min_count <= before.facts(c).min_count);
        }
    }
}

proof fn lemma_first_true(place: Map<u8, bool>, from: int)
    requires
        0 <= from <= 256,
    ensures
        from <= first_true(place, from) <= 256,
        first_true(place, from) < 256 ==> place.contains_key(first_true(place, from) as u8)
            && place[first_true(place, from) as u8],
        first_true(place, from) == 256 ==> forall|x: u8|
            from <= x ==> !(#[trigger] place.contains_key(x) && place[x]),
    decreases 256 - from,
{
    if from < 256 {
        lemma_first_true(place, from + 1);
    }
}

proof fn lemma_no_marks(upto: int)
    requires
        0 <= upto <= 8,
    ensures
        definite_count(unknown_facts().marks, upto) == 0,
    decreases upto,
{
    if upto > 0 {
        lemma_no_marks(upto - 1);
    }
}

proof fn lemma_definite_bound(
    marks: Seq<NerdleIsChar>,
    answer: Seq<u8>,
    c: u8,
    pos: int,
    upto: int,
)
    requires
        0 <= upto <= 8,
        0 <= pos < 8,
        forall|q: int| 0 <= q < 8 && #[trigger] marks[q] == NerdleIsChar::Definitely ==> answer[q] == c,
        marks[pos] != NerdleIsChar::Definitely,
        answer[pos] == c,
    ensures
        definite_count(marks, upto) + (if pos < upto {
            1int
        } else {
            0int
        }) <= occurrences(answer, c, upto),
    decreases upto,
{
    if upto > 0 {
        lemma_definite_bound(marks, answer, c, pos, upto - 1);
        if marks[upto - 1] == NerdleIsChar::Definitely {
            assert(answer[upto - 1] == c);
        }
    }
}

/// What is consistent with an answer admits, at each position, the
/// character that the answer has there.
pub proof fn lemma_answer_admitted(k: Knowledge, answer: Seq<u8>, pos: int)
    requires
        consistent(k, answer),
        is_playable(answer),
        0 <= pos < 8,
    ensures
        k.admits(pos, answer[pos]),
{
    let a = answer[pos];
    let place = k.places[pos];
    lemma_first_true(place, 0);
    let t = first_true(place, 0);
    if t < 256 {
        assert(place.contains_key(t as u8));
        assert(place[t as u8] <==> answer[pos] == t as u8);
    } else {
        assert(k.pinned(pos) is None);
        let f = k.facts(a);
        assert(is_symbol(a));
        if k.chars.contains_key(a) {
            let marks = k.chars[a].marks;
            assert(marks[pos] != NerdleIsChar::Definitely) by {
                if marks[pos] == NerdleIsChar::Definitely {
                    assert(k.chars[a].marks[pos] == NerdleIsChar::Definitely);
                    assert(place.contains_key(a) && place[a]);
                }
            }
            assert forall|q: int| 0 <= q < 8 && #[trigger] marks[q]
                == NerdleIsChar::Definitely implies answer[q] == a by {
                assert(k.chars[a].marks[q] == NerdleIsChar::Definitely);
            }
            lemma_definite_bound(marks, answer, a, pos, 8);
            assert(k.chars[a].min_count <= occurrences(answer, a, 8));
            assert(k.chars[a].marks[pos] != NerdleIsChar::DefinitelyNot);
        } else {
            lemma_no_marks(8);
        }
        if a == 61 {
            match k.equal_pos {
                Some(p) => {
                    if p as int == pos {
                        assert(place.contains_key(61) && place[61]);
                    } else if (p as int) < pos {
                        lemma_two_occurrences(answer, 61, p as int, pos, 8);
                    } else {
                        lemma_two_occurrences(answer, 61, pos, p as int, 8);
                    }
                },
                None => {},
            }
        }
    }
}

/// Where only operators can stand at a position, the answer has an
/// operator there.
pub proof fn lemma_operator_only_is_operator(k: Knowledge, answer: Seq<u8>, pos: int)
    requires
        consistent(k, answer),
        is_playable(answer),
        0 <= pos < 8,
        operator_only(k, pos),
    ensures
        is_operator_symbol(answer[pos]),
{
    lemma_answer_admitted(k, answer, pos);
}

proof fn lemma_first_admitted(k: Knowledge, pos: int, from: int)
    requires
        0 <= from <= 256,
    ensures
        from <= first_admitted(k, pos, from) <= 256,
        first_admitted(k, pos, from) < 256 ==> k.admits(pos, first_admitted(k, pos, from) as u8),
        forall|x: u8|
            from <= x && #[trigger] k.admits(pos, x) ==> first_admitted(k, pos, from) <= x,
    decreases 256 - from,
{
    if from < 256 {
        lemma_first_admitted(k, pos, from + 1);
    }
}

proof fn lemma_two_admitted(k: Knowledge, pos: int, u: int, w: int, upto: int)
    requires
        0 <= u < w < upto <= 256,
        k.admits(pos, u as u8),
        k.admits(pos, w as u8),
    ensures
        admitted_below(k, pos, upto) >= 2,
    decreases upto,
{
    if w < upto - 1 {
        lemma_two_admitted(k, pos, u, w, upto - 1);
    } else {
        lemma_one_admitted(k, pos, u, upto - 1);
    }
}

proof fn lemma_one_admitted(k: Knowledge, pos: int, u: int, upto: int)
    requires
        0 <= u < upto <= 256,
        k.admits(pos, u as u8),
    ensures
        admitted_below(k, pos, upto) >= 1,
    decreases upto,
{
    if u < upto - 1 {
        lemma_one_admitted(k, pos, u, upto - 1);
    }
}

proof fn lemma_none_admitted(k: Knowledge, pos: int, upto: int)
    requires
        0 <= upto <= 256,
        forall|x: u8| x < upto ==> !#[trigger] k.admits(pos, x),
    ensures
        admitted_below(k, pos, upto) == 0,
    decreases upto,
{
    if upto > 0 {
        lemma_none_admitted(k, pos, upto - 1);
        assert(!k.admits(pos, (upto - 1) as u8));
    }
}

proof fn lemma_single_admitted(k: Knowledge, pos: int, c: u8, upto: int)
    requires
        0 <= upto <= 256,
        forall|x: u8| x < upto ==> (#[trigger] k.admits(pos, x) <==> x == c),
    ensures
        admitted_below(k, pos, upto) == if c < upto {
            1nat
        } else {
            0nat
        },
    decreases upto,
{
    if upto > 0 {
        lemma_single_admitted(k, pos, c, upto - 1);
        assert(k.admits(pos, (upto - 1) as u8) <==> (upto - 1) as u8 == c);
    }
}

/// One character alone can stand at a position exactly when the characters
/// that can stand there are that one and no other.
pub proof fn lemma_sole_possibility(k: Knowledge, pos: int, c: u8)
    ensures
        sole_possibility(k, pos) == Some(c) <==> k.possibilities(pos) == set![c],
{
    lemma_first_admitted(k, pos, 0);
    let f = first_admitted(k, pos, 0);
    if sole_possibility(k, pos) == Some(c) {
        if f == 256 {
            assert forall|x: u8| x < 256 implies !#[trigger] k.admits(pos, x) by {
                if k.admits(pos, x) {
                    assert(f <= x);
                }
            }
            lemma_none_admitted(k, pos, 256);
        }
        assert(f == c);
        assert forall|x: u8| k.possibilities(pos).contains(x) <==> set![c].contains(x) by {
            if k.admits(pos, x) && x != c {
                assert(f <= x);
                lemma_two_admitted(k, pos, f, x as int, 256);
            }
        }
        assert(k.possibilities(pos) =~= set![c]);
    }
    if k.possibilities(pos) == set![c] {
        assert forall|x: u8| x < 256 implies (#[trigger] k.admits(pos, x) <==> x == c) by {
            assert(k.possibilities(pos).contains(x) <==> set![c].contains(x));
        }
        lemma_single_admitted(k, pos, c, 256);
        assert(k.admits(pos, c));
        assert(f <= c);
        if f < c {
            assert(k.admits(pos, f as u8));
        }
    }
}

/// Where one character alone can stand at a position, it is the one that
/// the answer has there.
pub proof fn lemma_sole_possibility_is_answer(k: Knowledge, answer: Seq<u8>, pos: int)
    requires
        consistent(k, answer),
        is_playable(answer),
        0 <= pos < 8,
    ensures
        sole_possibility(k, pos) matches Some(c) ==> c == answer[pos],
{
    if sole_possibility(k, pos) is Some {
        lemma_answer_admitted(k, answer, pos);
        lemma_first_admitted(k, pos, 0);
        let f = first_admitted(k, pos, 0);
        let a = answer[pos];
        assert(f <= a);
        if f < a {
            lemma_two_admitted(k, pos, f, a as int, 256);
        }
    }
}

proof fn lemma_propagate_consistent(k: Knowledge, answer: Seq<u8>, pos: int)
    requires
        consistent(k, answer),
        is_playable(answer),
        0 <= pos < 8,
    ensures
        consistent(propagate_at(k, pos), answer),
        tightened(k, propagate_at(k, pos)),
{
    let after = propagate_at(k, pos);
    lemma_sole_possibility_is_answer(k, answer, pos);
    match sole_possibility(k, pos) {
        None => {},
        Some(g) => {
            assert(g == answer[pos]);
            lemma_occurrence_at(answer, g, pos, 8);
            lemma_occurrences_bound(answer, g);
            if k.chars.contains_key(g) {
                assert(k.chars[g].min_count <= occurrences(answer, g, 8));
            }
            assert forall|c: u8| after.chars.contains_key(c) implies (
            #[trigger] after.chars[c]).marks.len() == 8 by {
                if c != g {
                    assert(after.chars[c] == k.chars[c]);
                }
            }
            assert forall|c: u8| after.chars.contains_key(c) implies (
            #[trigger] after.chars[c]).min_count <= occurrences(answer, c, 8)
                <= after.chars[c].max_count by {
                if c != g {
                    assert(after.chars[c] == k.chars[c]);
                }
            }
            assert forall|q: int, c: u8| 0 <= q < 8 && #[trigger] after.places[q].contains_key(
                c,
            ) implies (after.places[q][c] <==> answer[q] == c) by {
                if q != pos {
                    assert(after.places[q] == k.places[q]);
                    assert(k.places[q].contains_key(c));
                } else if c != g {
                    assert(k.places[q].contains_key(c));
                }
            }
            assert forall|c: u8, q: int| after.chars.contains_key(c) && 0 <= q < 8 implies match
                #[trigger] after.chars[c].marks[q] {
                NerdleIsChar::Definitely => answer[q] == c && after.places[q].contains_key(c)
                    && after.places[q][c],
                NerdleIsChar::DefinitelyNot => answer[q] != c,
                NerdleIsChar::Maybe => true,
            } by {
                if c == g && q == pos {
                } else {
                    if c != g {
                        assert(after.chars[c] == k.chars[c]);
                        assert(k.chars.contains_key(c));
                    } else {
                        assert(after.chars[c].marks[q] == k.facts(c).marks[q]);
                    }
                    if k.chars.contains_key(c) {
                        let old_mark = k.chars[c].marks[q];
                        assert(after.chars[c].marks[q] == old_mark);
                        if old_mark == NerdleIsChar::Definitely {
                            assert(k.places[q].contains_key(c) && k.places[q][c]);
                            if q != pos {
                                assert(after.places[q] == k.places[q]);
                            }
                        }
                    }
                }
            }
            match after.equal_pos {
                Some(p) => {
                    assert(k.places[p as int].contains_key(61));
                    if p as int != pos {
                        assert(after.places[p as int] == k.places[p as int]);
                    }
                },
                None => {},
            }
            assert forall|c: u8|
                k.facts(c).min_count <= (#[trigger] after.facts(c)).min_count && after.facts(
                    c,
                ).max_count <= k.facts(c).max_count by {
                if c != g && after.chars.contains_key(c) {
                    assert(after.chars[c] == k.chars[c]);
                }
            }
        },
    }
}

proof fn lemma_propagation_consistent(k: Knowledge, answer: Seq<u8>, upto: int)
    requires
        consistent(k, answer),
        is_playable(answer),
        0 <= upto <= 8,
    ensures
        consistent(after_propagation(k, upto), answer),
        tightened(k, after_propagation(k, upto)),
    decreases upto,
{
    if upto > 0 {
        lemma_propagation_consistent(k, answer, upto - 1);
        let before = after_propagation(k, upto - 1);
        lemma_propagate_consistent(before, answer, upto - 1);
        let after = after_propagation(k, upto);
        assert forall|c: u8|
            k.facts(c).min_count <= (#[trigger] after.facts(c)).min_count && after.facts(
                c,
            ).max_count <= k.facts(c).max_count by {
            assert(k.facts(c).min_count <= before.facts(c).min_count);
        }
    }
}

/// Feedback that a guess gets from the answer keeps what is known
/// consistent with the answer: the answer still fits, no minimum count
/// has gone down and no maximum count has gone up.
pub proof fn lemma_update_keeps_answer(k: Knowledge, guess: Seq<u8>, answer: Seq<u8>)
    requires
        consistent(k, answer),
        is_playable(answer),
        guess.len() == 8,
    ensures
        consistent(update_spec(k, guess, score(guess, answer)), answer),
        fits(update_spec(k, guess, score(guess, answer)), answer),
        tightened(k, update_spec(k, guess, score(guess, answer))),
{
    let v = score(guess, answer);
    lemma_positions_consistent(k, guess, answer, 8);
    let placed = after_positions(k, guess, v, 8);
    lemma_counts_consistent(placed, guess, answer, 8);
    let counted_all = after_counts(placed, guess, v, 8);
    lemma_propagation_consistent(counted_all, answer, 8);
    let after = update_spec(k, guess, v);
    lemma_consistent_fits(after, answer);
    assert forall|c: u8|
        k.facts(c).min_count <= (#[trigger] after.facts(c)).min_count && after.facts(c).max_count
            <= k.facts(c).max_count by {
        assert(k.facts(c).min_count <= placed.facts(c).min_count);
        assert(placed.facts(c).min_count <= counted_all.facts(c).min_count);
    }
}

/// What is known after the first `n` of some guesses were scored against
/// `answer` and folded in, one after the other.
pub open spec fn after_guesses(guesses: Seq<Seq<u8>>, answer: Seq<u8>, n: int) -> Knowledge
    decreases n,
{
    if n <= 0 {
        nothing_known()
    } else {
        update_spec(
            after_guesses(guesses, answer, n - 1),
            guesses[n - 1],
            score(guesses[n - 1], answer),
        )
    }
}

/// Through any history of guesses that are scored against one answer, the
/// answer fits what is known, and from any point of the history to any
/// later one no minimum count goes down and no maximum count goes up.
pub proof fn lemma_history_keeps_answer(guesses: Seq<Seq<u8>>, answer: Seq<u8>, m: int, n: int)
    requires
        is_playable(answer),
        0 <= m <= n <= guesses.len(),
        forall|i: int| 0 <= i < guesses.len() ==> (#[trigger] guesses[i]).len() == 8,
    ensures
        consistent(after_guesses(guesses, answer, n), answer),
        fits(after_guesses(guesses, answer, n), answer),
        tightened(after_guesses(guesses, answer, m), after_guesses(guesses, answer, n)),
    decreases n,
{
    if n == 0 {
        lemma_nothing_known_is_consistent(answer);
        lemma_consistent_fits(nothing_known(), answer);
    } else {
        let before = after_guesses(guesses, answer, n - 1);
        let after = after_guesses(guesses, answer, n);
        if m < n {
            lemma_history_keeps_answer(guesses, answer, m, n - 1);
        } else {
            lemma_history_keeps_answer(guesses, answer, n - 1, n - 1);
        }
        lemma_update_keeps_answer(before, guesses[n - 1], answer);
        if m < n {
            let start = after_guesses(guesses, answer, m);
            assert forall|c: u8|
                start.facts(c).min_count <= (#[trigger] after.facts(c)).min_count && after.facts(
                    c,
                ).max_count <= start.facts(c).max_count by {
                assert(start.facts(c).min_count <= before.facts(c).min_count);
            }
        }
    }
}

} // verus!
