//! What feedback has shown of the hidden equation: counts of characters,
//! what can stand where, and how verdicts on a guess are folded in.

use vstd::prelude::*;
use std::collections::{HashMap, HashSet};
use crate::eq::Equation;
use crate::nerdle::{
    nerdle_failure, occurrences, NerdleError, NerdleErrorKind, NerdlePositionResult, NerdleResult,
};
use vstd::string::{StrSliceExecFns, StringExecFns};
use crate::text::{as_chars, digits_of, is_symbol, number_string, symbol_str};

verus! {

/// What is known of a character at a position.
#[derive(Clone, Copy, Debug, PartialEq, Eq, Structural)]
pub enum NerdleIsChar {
    Definitely,
    DefinitelyNot,
    Maybe,
}

/// What is known of one character: how many copies the answer holds at
/// least and at most, and what is known of it at each position.
#[derive(Clone, Copy, Debug)]
pub struct NerdleCharInfo {
    pub min_count: u32,
    pub max_count: u32,
    pub positions: [NerdleIsChar; 8],
}

/// What feedback has shown of the hidden equation.
pub struct NerdleData {
    /// For each character met so far, what is known of it.
    pub char_info: HashMap<u8, NerdleCharInfo>,
    /// For each position, the characters known to stand there (`true`)
    /// or known not to (`false`).
    pub positions: [HashMap<u8, bool>; 8],
    /// Where the equal sign stands, once a Green has shown it.
    pub equal_pos: Option<usize>,
}

/// What is known of one character, as a mathematical value.
#[verifier::ext_equal]
pub struct CharFacts {
    pub min_count: u32,
    pub max_count: u32,
    pub marks: Seq<NerdleIsChar>,
}

/// What feedback has shown, as a mathematical value.
#[verifier::ext_equal]
pub struct Knowledge {
    pub chars: Map<u8, CharFacts>,
    pub places: Seq<Map<u8, bool>>,
    pub equal_pos: Option<usize>,
}

/// What is known of a character that no guess has held yet.
pub open spec fn unknown_facts() -> CharFacts {
    CharFacts { min_count: 0, max_count: 8, marks: Seq::new(8, |i: int| NerdleIsChar::Maybe) }
}

impl View for NerdleCharInfo {
    type V = CharFacts;

    open spec fn view(&self) -> CharFacts {
        CharFacts {
            min_count: self.min_count,
            max_count: self.max_count,
            marks: self.positions@,
        }
    }
}

impl View for NerdleData {
    type V = Knowledge;

    open spec fn view(&self) -> Knowledge {
        Knowledge {
            chars: Map::new(
                |c: u8| self.char_info@.contains_key(c),
                |c: u8| self.char_info@[c]@,
            ),
            places: Seq::new(8, |p: int| self.positions@[p]@),
            equal_pos: self.equal_pos,
        }
    }
}

/// What is known at the start of a game: nothing.
pub open spec fn nothing_known() -> Knowledge {
    Knowledge {
        chars: Map::empty(),
        places: Seq::new(8, |p: int| Map::<u8, bool>::empty()),
        equal_pos: None,
    }
}

/// How many of the first `upto` marks are `Definitely`.
pub open spec fn definite_count(marks: Seq<NerdleIsChar>, upto: int) -> nat
    decreases upto,
{
    if upto <= 0 {
        0
    } else {
        definite_count(marks, upto - 1) + if marks[upto - 1] == NerdleIsChar::Definitely {
            1nat
        } else {
            0nat
        }
    }
}

/// The least character from `from` on that `place` holds as `true`; 256
/// when there is none.
pub open spec fn first_true(place: Map<u8, bool>, from: int) -> int
    decreases 256 - from,
{
    if from >= 256 {
        256
    } else if from >= 0 && place.contains_key(from as u8) && place[from as u8] {
        from
    } else {
        first_true(place, from + 1)
    }
}

impl Knowledge {
    /// Eight positions, and eight marks for each character.
    pub open spec fn well_formed(self) -> bool {
        &&& self.places.len() == 8
        &&& forall|c: u8| self.chars.contains_key(c) ==> (#[trigger] self.chars[c]).marks.len() == 8
    }

    /// What is known of `c`.
    pub open spec fn facts(self, c: u8) -> CharFacts {
        if self.chars.contains_key(c) {
            self.chars[c]
        } else {
            unknown_facts()
        }
    }

    /// The knowledge with `f` for what is known of `c`.
    pub open spec fn with_facts(self, c: u8, f: CharFacts) -> Knowledge {
        Knowledge { chars: self.chars.insert(c, f), places: self.places, equal_pos: self.equal_pos }
    }

    /// The knowledge with `c` known to stand (`v`) or not to stand at `pos`.
    pub open spec fn with_place(self, pos: int, c: u8, v: bool) -> Knowledge {
        Knowledge {
            chars: self.chars,
            places: self.places.update(pos, self.places[pos].insert(c, v)),
            equal_pos: self.equal_pos,
        }
    }

    /// The knowledge with the mark `m` for `c` at `pos`.
    pub open spec fn with_mark(self, c: u8, pos: int, m: NerdleIsChar) -> Knowledge {
        let f = self.facts(c);
        self.with_facts(
            c,
            CharFacts {
                min_count: f.min_count,
                max_count: f.max_count,
                marks: f.marks.update(pos, m),
            },
        )
    }

    /// The knowledge with `c` known to stand at `pos` and every other
    /// symbol known not to.
    pub open spec fn with_pin(self, pos: int, c: u8) -> Knowledge {
        let place = self.places[pos];
        Knowledge {
            chars: self.chars,
            places: self.places.update(
                pos,
                Map::new(
                    |x: u8| x == c || is_symbol(x) || place.contains_key(x),
                    |x: u8|
                        if x == c {
                            true
                        } else if is_symbol(x) {
                            false
                        } else {
                            place[x]
                        },
                ),
            ),
            equal_pos: self.equal_pos,
        }
    }

    /// The knowledge with the equal sign known to stand at `pos`.
    pub open spec fn with_equal_at(self, pos: usize) -> Knowledge {
        Knowledge { chars: self.chars, places: self.places, equal_pos: Some(pos) }
    }

    /// The character that is known to stand at `pos`: the least one that
    /// the position holds as `true`.
    pub open spec fn pinned(self, pos: int) -> Option<u8> {
        let c = first_true(self.places[pos], 0);
        if c < 256 {
            Some(c as u8)
        } else {
            None
        }
    }

    /// Whether `c` can stand at `pos`. Where a character is pinned, only
    /// that one can. Elsewhere a symbol can, unless all the copies the
    /// answer can hold of it are placed, or it is excluded here, or it is
    /// the equal sign and that is known to stand elsewhere.
    pub open spec fn admits(self, pos: int, c: u8) -> bool {
        match self.pinned(pos) {
            Some(p) => c == p,
            None => {
                let f = self.facts(c);
                &&& is_symbol(c)
                &&& definite_count(f.marks, 8) < f.max_count
                &&& match f.marks[pos] {
                    NerdleIsChar::Definitely => true,
                    NerdleIsChar::DefinitelyNot => false,
                    NerdleIsChar::Maybe => c == 61 ==> self.equal_pos is None,
                }
            },
        }
    }

    /// The characters that can stand at `pos`.
    pub open spec fn possibilities(self, pos: int) -> Set<u8> {
        Set::new(|c: u8| self.admits(pos, c))
    }
}

impl NerdleCharInfo {
    /// What is known of a character that no guess has held yet: none to
    /// eight copies, anywhere.
    pub fn new() -> (r: NerdleCharInfo)
        ensures
            r@ == unknown_facts(),
    {
        let r = NerdleCharInfo {
            min_count: 0,
            max_count: 8,
            positions: [NerdleIsChar::Maybe; 8],
        };
        assert(r@.marks =~= unknown_facts().marks);
        r
    }

    fn definite(&self) -> (r: u32)
        ensures
            r == definite_count(self@.marks, 8),
            r <= 8,
    {
        let mut n: u32 = 0;
        let mut i: usize = 0;
        while i < 8
            invariant
                i <= 8,
                n == definite_count(self@.marks, i as int),
                n <= i,
            decreases 8 - i,
        {
            match self.positions[i] {
                NerdleIsChar::Definitely => {
                    n += 1;
                },
                _ => {},
            }
            i += 1;
        }
        n
    }
}

impl Default for NerdleData {
    fn default() -> (r: Self)
        ensures
            r@ == nothing_known(),
    {
        let r = NerdleData {
            char_info: HashMap::new(),
            positions: [
                HashMap::new(),
                HashMap::new(),
                HashMap::new(),
                HashMap::new(),
                HashMap::new(),
                HashMap::new(),
                HashMap::new(),
                HashMap::new(),
            ],
            equal_pos: None,
        };
        assert(r@.chars =~= Map::<u8, CharFacts>::empty());
        assert(r@.places =~= Seq::new(8, |p: int| Map::<u8, bool>::empty()));
        r
    }
}

impl NerdleData {
    /// Whether a guess has held `c` yet.
    pub fn knows(&self, c: u8) -> (r: bool)
        ensures
            r == self@.chars.contains_key(c),
    {
        broadcast use vstd::std_specs::hash::group_hash_axioms;

        self.char_info.contains_key(&c)
    }

    /// What is known of `c`.
    pub fn char_info_of(&self, c: u8) -> (r: NerdleCharInfo)
        ensures
            r@ == self@.facts(c),
    {
        self.info_of(c)
    }

    fn info_of(&self, c: u8) -> (r: NerdleCharInfo)
        ensures
            r@ == self@.facts(c),
    {
        broadcast use vstd::std_specs::hash::group_hash_axioms;

        match self.char_info.get(&c) {
            Some(info) => *info,
            None => NerdleCharInfo::new(),
        }
    }

    fn put_info(&mut self, c: u8, info: NerdleCharInfo)
        ensures
            final(self)@ == old(self)@.with_facts(c, info@),
    {
        broadcast use vstd::std_specs::hash::group_hash_axioms;

        self.char_info.insert(c, info);
        assert(self@.chars =~= old(self)@.chars.insert(c, info@));
        assert(self@.places =~= old(self)@.places);
    }

    fn put_place(&mut self, pos: usize, c: u8, v: bool)
        requires
            pos < 8,
        ensures
            final(self)@ == old(self)@.with_place(pos as int, c, v),
    {
        broadcast use vstd::std_specs::hash::group_hash_axioms;

        self.positions[pos].insert(c, v);
        assert(self@.places =~= old(self)@.places.update(
            pos as int,
            old(self)@.places[pos as int].insert(c, v),
        ));
        assert(self@.chars =~= old(self)@.chars);
    }

    fn place_of(&self, pos: usize, c: u8) -> (r: Option<bool>)
        requires
            pos < 8,
        ensures
            r == if self@.places[pos as int].contains_key(c) {
                Some(self@.places[pos as int][c])
            } else {
                None
            },
    {
        broadcast use vstd::std_specs::hash::group_hash_axioms;

        match self.positions[pos].get(&c) {
            Some(v) => Some(*v),
            None => None,
        }
    }

    fn pinned_at(&self, pos: usize) -> (r: Option<u8>)
        requires
            pos < 8,
        ensures
            r == self@.pinned(pos as int),
    {
        let mut c: usize = 0;
        while c < 256
            invariant
                pos < 8,
                c <= 256,
                first_true(self@.places[pos as int], 0) == first_true(
                    self@.places[pos as int],
                    c as int,
                ),
            decreases 256 - c,
        {
            match self.place_of(pos, c as u8) {
                Some(true) => {
                    return Some(c as u8);
                },
                _ => {},
            }
            c += 1;
        }
        None
    }

    fn admits_given(&self, pinned: Option<u8>, pos: usize, c: u8) -> (r: bool)
        requires
            pos < 8,
            pinned == self@.pinned(pos as int),
        ensures
            r == self@.admits(pos as int, c),
    {
        match pinned {
            Some(p) => c == p,
            None => {
                if !is_symbol_byte(c) {
                    return false;
                }
                let info = self.info_of(c);
                if info.definite() >= info.max_count {
                    return false;
                }
                match info.positions[pos] {
                    NerdleIsChar::Definitely => true,
                    NerdleIsChar::DefinitelyNot => false,
                    NerdleIsChar::Maybe => {
                        if c == 61 {
                            self.equal_pos.is_none()
                        } else {
                            true
                        }
                    },
                }
            },
        }
    }

    /// Whether `c` can stand at `pos`.
    pub fn admits(&self, pos: usize, c: u8) -> (r: bool)
        requires
            pos < 8,
        ensures
            r == self@.admits(pos as int, c),
    {
        let pinned = self.pinned_at(pos);
        self.admits_given(pinned, pos, c)
    }

    fn pin_place(&mut self, pos: usize, c: u8)
        requires
            pos < 8,
        ensures
            final(self)@ == old(self)@.with_pin(pos as int, c),
    {
        let ghost place = self@.places[pos as int];
        self.put_place(pos, c, true);
        let mut x: usize = 0;
        proof {
            let first = Map::new(
                |y: u8| y == c || (is_symbol(y) && y < 0) || place.contains_key(y),
                |y: u8|
                    if y == c {
                        true
                    } else if is_symbol(y) && y < 0 {
                        false
                    } else {
                        place[y]
                    },
            );
            assert(self@.places[pos as int] =~= first);
            assert(self@.places =~= old(self)@.places.update(pos as int, first));
        }
        while x < 256
            invariant
                pos < 8,
                x <= 256,
                place == old(self)@.places[pos as int],
                self@.chars == old(self)@.chars,
                self@.equal_pos == old(self)@.equal_pos,
                self@.places == old(self)@.places.update(
                    pos as int,
                    Map::new(
                        |y: u8| y == c || (is_symbol(y) && y < x) || place.contains_key(y),
                        |y: u8|
                            if y == c {
                                true
                            } else if is_symbol(y) && y < x {
                                false
                            } else {
                                place[y]
                            },
                    ),
                ),
            decreases 256 - x,
        {
            let b: u8 = x as u8;
            let ghost before = self@.places[pos as int];
            if is_symbol_byte(b) && b != c {
                self.put_place(pos, b, false);
            }
            proof {
                let next = Map::new(
                    |y: u8| y == c || (is_symbol(y) && y < x + 1) || place.contains_key(y),
                    |y: u8|
                        if y == c {
                            true
                        } else if is_symbol(y) && y < x + 1 {
                            false
                        } else {
                            place[y]
                        },
                );
                assert(self@.places[pos as int] =~= next);
                assert(self@.places =~= old(self)@.places.update(pos as int, next));
            }
            x += 1;
        }
        assert(self@.places[pos as int] =~= old(self)@.with_pin(pos as int, c).places[pos as int]);
        assert(self@.places =~= old(self)@.with_pin(pos as int, c).places);
    }

    fn put_mark(&mut self, c: u8, pos: usize, mark: NerdleIsChar)
        requires
            pos < 8,
        ensures
            final(self)@ == old(self)@.with_mark(c, pos as int, mark),
    {
        let mut info = self.info_of(c);
        info.positions[pos] = mark;
        self.put_info(c, info);
    }

    fn shown_count(guess: &Vec<u8>, result: &NerdleResult, c: u8) -> (r: (u32, bool))
        requires
            guess@.len() == 8,
        ensures
            r.0 == counted(guess@, result.positions@, c, 8),
            r.0 <= 8,
            r.1 == (grays(guess@, result.positions@, c, 8) > 0),
    {
        let mut shown: u32 = 0;
        let mut gray: bool = false;
        let mut i: usize = 0;
        while i < 8
            invariant
                i <= 8,
                guess@.len() == 8,
                shown == counted(guess@, result.positions@, c, i as int),
                shown <= i,
                gray == (grays(guess@, result.positions@, c, i as int) > 0),
            decreases 8 - i,
        {
            if guess[i] == c {
                match result.positions[i] {
                    NerdlePositionResult::Gray => {
                        gray = true;
                    },
                    _ => {
                        shown += 1;
                    },
                }
            }
            i += 1;
        }
        (shown, gray)
    }

    /// The character that alone can stand at `pos`, if there is just one.
    pub fn sole_possibility(&self, pos: usize) -> (r: Option<u8>)
        requires
            pos < 8,
        ensures
            r == sole_possibility(self@, pos as int),
    {
        let pinned = self.pinned_at(pos);
        let mut count: u32 = 0;
        let mut first: Option<u8> = None;
        let mut c: usize = 0;
        while c < 256
            invariant
                pos < 8,
                c <= 256,
                pinned == self@.pinned(pos as int),
                count == admitted_below(self@, pos as int, c as int),
                count <= c,
                first is None <==> count == 0,
                first_admitted(self@, pos as int, 0) == match first {
                    Some(f) => f as int,
                    None => first_admitted(self@, pos as int, c as int),
                },
            decreases 256 - c,
        {
            if self.admits_given(pinned, pos, c as u8) {
                count += 1;
                if first.is_none() {
                    first = Some(c as u8);
                }
            }
            c += 1;
        }
        if count == 1 {
            first
        } else {
            None
        }
    }

    /// Folds the verdicts on a guess into what is known.
    pub fn update(&mut self, guess: &Equation, result: &NerdleResult)
        requires
            guess.text().len() == 8,
        ensures
            final(self)@ == update_spec(old(self)@, guess.text(), result.positions@),
    {
        let text: Vec<u8> = guess.render();
        let ghost verdicts = result.positions@;
        let mut i: usize = 0;
        while i < 8
            invariant
                i <= 8,
                text@.len() == 8,
                verdicts == result.positions@,
                self@ == after_positions(old(self)@, text@, verdicts, i as int),
            decreases 8 - i,
        {
            let ch: u8 = text[i];
            match result.positions[i] {
                NerdlePositionResult::Green => {
                    self.pin_place(i, ch);
                    self.put_mark(ch, i, NerdleIsChar::Definitely);
                    if ch == 61 {
                        self.equal_pos = Some(i);
                    }
                },
                _ => {
                    self.put_place(i, ch, false);
                    self.put_mark(ch, i, NerdleIsChar::DefinitelyNot);
                },
            }
            assert(self@ =~= fold_position(
                after_positions(old(self)@, text@, verdicts, i as int),
                text@,
                verdicts,
                i as int,
            ));
            i += 1;
        }
        let ghost placed = self@;
        i = 0;
        while i < 8
            invariant
                i <= 8,
                text@.len() == 8,
                verdicts == result.positions@,
                self@ == after_counts(placed, text@, verdicts, i as int),
            decreases 8 - i,
        {
            let ch: u8 = text[i];
            let (shown, gray) = Self::shown_count(&text, result, ch);
            let mut info = self.info_of(ch);
            if shown > info.min_count {
                info.min_count = shown;
            }
            if gray {
                info.max_count = shown;
            }
            self.put_info(ch, info);
            assert(self@ =~= fold_count(
                after_counts(placed, text@, verdicts, i as int),
                text@,
                verdicts,
                i as int,
            ));
            i += 1;
        }
        let ghost counted_all = self@;
        i = 0;
        while i < 8
            invariant
                i <= 8,
                self@ == after_propagation(counted_all, i as int),
            decreases 8 - i,
        {
            match self.sole_possibility(i) {
                Some(ch) => {
                    let mut info = self.info_of(ch);
                    if info.min_count < 1 {
                        info.min_count = 1;
                    }
                    info.positions[i] = NerdleIsChar::Definitely;
                    self.put_info(ch, info);
                    self.put_place(i, ch, true);
                },
                None => {},
            }
            assert(self@ =~= propagate_at(after_propagation(counted_all, i as int), i as int));
            i += 1;
        }
    }

    /// The counts known of the symbols, as text for people.
    pub fn describe_counts(&self) -> (r: String)
        ensures
            r@ == counts_text(self@),
    {
        broadcast use vstd::std_specs::hash::group_hash_axioms;

        let mut description = String::from_str("digit counts: ");
        assert(description@ =~= "digit counts: "@ + count_entries(self@, 0));
        let mut c: usize = 0;
        while c < 256
            invariant
                c <= 256,
                description@ == "digit counts: "@ + count_entries(self@, c as int),
            decreases 256 - c,
        {
            let ch: u8 = c as u8;
            let ghost before = description@;
            if is_symbol_byte(ch) {
                match self.char_info.get(&ch) {
                    Some(info) => {
                        description.append(symbol_str(ch));
                        description.append("[");
                        let least = number_string(info.min_count as u64);
                        description.append(least.as_str());
                        description.append("-");
                        let most = number_string(info.max_count as u64);
                        description.append(most.as_str());
                        description.append("], ");
                        assert(description@ =~= before + count_entry(ch, self@.chars[ch]));
                    },
                    None => {},
                }
            }
            assert(description@ =~= "digit counts: "@ + count_entries(self@, c + 1));
            c += 1;
        }
        proof {
            reveal_strlit("digit counts: ");
        }
        let n: usize = description.as_str().unicode_len();
        String::from_str(description.as_str().substring_char(0, n - 2))
    }

    /// Whether the text of `eq` fits what is known, and if not, what it
    /// contradicts first.
    pub fn eq_matches(&self, eq: &Equation) -> (r: Result<(), NerdleError>)
        ensures
            r == matches_spec(self@, eq.text()),
    {
        broadcast use vstd::std_specs::hash::group_hash_axioms;

        let text: Vec<u8> = eq.render();
        if text.len() != 8 {
            return Err(NerdleError { kind: NerdleErrorKind::CandidateLength });
        }
        let mut c: usize = 0;
        while c < 256
            invariant
                c <= 256,
                text@.len() == 8,
                text@ == eq.text(),
                count_violation(self@, text@, 0) == count_violation(self@, text@, c as int),
            decreases 256 - c,
        {
            let ch: u8 = c as u8;
            match self.char_info.get(&ch) {
                Some(info) => {
                    let count: u32 = count_byte(&text, ch);
                    if count < info.min_count {
                        return Err(NerdleError { kind: NerdleErrorKind::TooFew(ch) });
                    }
                    if count > info.max_count {
                        return Err(NerdleError { kind: NerdleErrorKind::TooMany(ch) });
                    }
                },
                None => {},
            }
            c += 1;
        }
        let mut pos: usize = 0;
        while pos < 8
            invariant
                pos <= 8,
                text@.len() == 8,
                text@ == eq.text(),
                count_violation(self@, text@, 0) is None,
                place_violation(self@, text@, 0) == place_violation(self@, text@, pos as int),
            decreases 8 - pos,
        {
            let ch: u8 = text[pos];
            match self.place_of(pos, ch) {
                Some(false) => {
                    return Err(NerdleError { kind: NerdleErrorKind::Excluded(pos, ch) });
                },
                _ => {},
            }
            pos += 1;
        }
        Ok(())
    }

    /// The characters that can stand at `pos`.
    pub fn possibilities_for_pos(&self, pos: usize) -> (r: HashSet<u8>)
        requires
            pos < 8,
        ensures
            r@ == self@.possibilities(pos as int),
    {
        broadcast use vstd::std_specs::hash::group_hash_axioms;

        let pinned = self.pinned_at(pos);
        let mut ret: HashSet<u8> = HashSet::new();
        let mut c: usize = 0;
        while c < 256
            invariant
                pos < 8,
                c <= 256,
                pinned == self@.pinned(pos as int),
                forall|x: u8| ret@.contains(x) <==> x < c && self@.admits(pos as int, x),
            decreases 256 - c,
        {
            if self.admits_given(pinned, pos, c as u8) {
                ret.insert(c as u8);
            }
            c += 1;
        }
        assert(ret@ =~= self@.possibilities(pos as int));
        ret
    }
}

/// How many of the first `upto` positions of `guess` hold `c` and are
/// Green or Yellow: the copies of `c` that the answer is shown to hold.
pub open spec fn counted(
    guess: Seq<u8>,
    verdicts: Seq<NerdlePositionResult>,
    c: u8,
    upto: int,
) -> nat
    decreases upto,
{
    if upto <= 0 {
        0
    } else {
        counted(guess, verdicts, c, upto - 1) + if guess[upto - 1] == c && verdicts[upto - 1]
            != NerdlePositionResult::Gray {
            1nat
        } else {
            0nat
        }
    }
}

/// How many of the first `upto` positions of `guess` hold `c` and are Gray.
pub open spec fn grays(
    guess: Seq<u8>,
    verdicts: Seq<NerdlePositionResult>,
    c: u8,
    upto: int,
) -> nat
    decreases upto,
{
    if upto <= 0 {
        0
    } else {
        grays(guess, verdicts, c, upto - 1) + if guess[upto - 1] == c && verdicts[upto - 1]
            == NerdlePositionResult::Gray {
            1nat
        } else {
            0nat
        }
    }
}

/// What the verdict on position `i` adds. Green pins the character there;
/// Yellow and Gray exclude it there. A Green equal sign gives its position.
pub open spec fn fold_position(
    k: Knowledge,
    guess: Seq<u8>,
    verdicts: Seq<NerdlePositionResult>,
    i: int,
) -> Knowledge {
    let c = guess[i];
    if verdicts[i] == NerdlePositionResult::Green {
        let placed = k.with_pin(i, c).with_mark(c, i, NerdleIsChar::Definitely);
        if c == 61 {
            placed.with_equal_at(i as usize)
        } else {
            placed
        }
    } else {
        k.with_place(i, c, false).with_mark(c, i, NerdleIsChar::DefinitelyNot)
    }
}

/// What the verdicts on the first `upto` positions add.
pub open spec fn after_positions(
    k: Knowledge,
    guess: Seq<u8>,
    verdicts: Seq<NerdlePositionResult>,
    upto: int,
) -> Knowledge
    decreases upto,
{
    if upto <= 0 {
        k
    } else {
        fold_position(after_positions(k, guess, verdicts, upto - 1), guess, verdicts, upto - 1)
    }
}

/// What the guess shows of how often the character at position `i` occurs:
/// at least as often as it is Green or Yellow, and exactly that often
/// where one copy of it is Gray.
pub open spec fn fold_count(
    k: Knowledge,
    guess: Seq<u8>,
    verdicts: Seq<NerdlePositionResult>,
    i: int,
) -> Knowledge {
    let c = guess[i];
    let f = k.facts(c);
    let shown = counted(guess, verdicts, c, 8) as u32;
    k.with_facts(
        c,
        CharFacts {
            min_count: if f.min_count > shown {
                f.min_count
            } else {
                shown
            },
            max_count: if grays(guess, verdicts, c, 8) > 0 {
                shown
            } else {
                f.max_count
            },
            marks: f.marks,
        },
    )
}

/// What the guess shows of the counts of the characters at its first
/// `upto` positions.
pub open spec fn after_counts(
    k: Knowledge,
    guess: Seq<u8>,
    verdicts: Seq<NerdlePositionResult>,
    upto: int,
) -> Knowledge
    decreases upto,
{
    if upto <= 0 {
        k
    } else {
        fold_count(after_counts(k, guess, verdicts, upto - 1), guess, verdicts, upto - 1)
    }
}

/// How many characters below `upto` can stand at `pos`.
pub open spec fn admitted_below(k: Knowledge, pos: int, upto: int) -> nat
    decreases upto,
{
    if upto <= 0 {
        0
    } else {
        admitted_below(k, pos, upto - 1) + if k.admits(pos, (upto - 1) as u8) {
            1nat
        } else {
            0nat
        }
    }
}

/// The least character from `from` on that can stand at `pos`; 256 when
/// there is none.
pub open spec fn first_admitted(k: Knowledge, pos: int, from: int) -> int
    decreases 256 - from,
{
    if from >= 256 {
        256
    } else if from >= 0 && k.admits(pos, from as u8) {
        from
    } else {
        first_admitted(k, pos, from + 1)
    }
}

/// The character that alone can stand at `pos`, if there is just one.
pub open spec fn sole_possibility(k: Knowledge, pos: int) -> Option<u8> {
    if admitted_below(k, pos, 256) == 1 {
        Some(first_admitted(k, pos, 0) as u8)
    } else {
        None
    }
}

/// Where only one character can stand at `pos`, it is pinned there and the
/// answer holds at least one copy of it.
pub open spec fn propagate_at(k: Knowledge, pos: int) -> Knowledge {
    match sole_possibility(k, pos) {
        None => k,
        Some(c) => {
            let f = k.facts(c);
            k.with_facts(
                c,
                CharFacts {
                    min_count: if f.min_count > 1 {
                        f.min_count
                    } else {
                        1
                    },
                    max_count: f.max_count,
                    marks: f.marks.update(pos, NerdleIsChar::Definitely),
                },
            ).with_place(pos, c, true)
        },
    }
}

/// The knowledge after certainty has been carried to the first `upto`
/// positions, from the left: what one position settles counts at the next.
pub open spec fn after_propagation(k: Knowledge, upto: int) -> Knowledge
    decreases upto,
{
    if upto <= 0 {
        k
    } else {
        propagate_at(after_propagation(k, upto - 1), upto - 1)
    }
}

/// The knowledge after the verdicts on a guess are folded in: first what
/// each position shows, then the counts, then the positions that are left
/// with one possibility.
pub open spec fn update_spec(
    k: Knowledge,
    guess: Seq<u8>,
    verdicts: Seq<NerdlePositionResult>,
) -> Knowledge {
    after_propagation(after_counts(after_positions(k, guess, verdicts, 8), guess, verdicts, 8), 8)
}

/// What is known of the count of `c`, as text: the character, and its
/// least and greatest count in brackets, with a comma and a blank behind.
pub open spec fn count_entry(c: u8, f: CharFacts) -> Seq<char> {
    seq![c as char] + "["@ + as_chars(digits_of(f.min_count as nat)) + "-"@ + as_chars(
        digits_of(f.max_count as nat),
    ) + "], "@
}

/// The entries of the symbols below `upto` that were met so far, in
/// ascending order.
pub open spec fn count_entries(k: Knowledge, upto: int) -> Seq<char>
    decreases upto,
{
    if upto <= 0 {
        Seq::empty()
    } else {
        count_entries(k, upto - 1) + if is_symbol((upto - 1) as u8) && k.chars.contains_key(
            (upto - 1) as u8,
        ) {
            count_entry((upto - 1) as u8, k.chars[(upto - 1) as u8])
        } else {
            Seq::empty()
        }
    }
}

/// The counts known of the symbols, as text: a heading and the entries,
/// without the last two characters.
pub open spec fn counts_text(k: Knowledge) -> Seq<char> {
    let full = "digit counts: "@ + count_entries(k, 256);
    full.take(full.len() - 2)
}

/// The first character from `from` on of which `text` holds fewer copies
/// than are known to be there, or more than can be there.
pub open spec fn count_violation(k: Knowledge, text: Seq<u8>, from: int) -> Option<NerdleError>
    decreases 256 - from,
{
    if from >= 256 || from < 0 {
        None
    } else {
        let c = from as u8;
        let n = occurrences(text, c, text.len() as int);
        if k.chars.contains_key(c) && n < k.chars[c].min_count {
            Some(nerdle_failure(NerdleErrorKind::TooFew(c)))
        } else if k.chars.contains_key(c) && n > k.chars[c].max_count {
            Some(nerdle_failure(NerdleErrorKind::TooMany(c)))
        } else {
            count_violation(k, text, from + 1)
        }
    }
}

/// The first position from `from` on where `text` has a character that is
/// excluded there.
pub open spec fn place_violation(k: Knowledge, text: Seq<u8>, from: int) -> Option<NerdleError>
    decreases 8 - from,
{
    if from >= 8 || from < 0 {
        None
    } else if k.places[from].contains_key(text[from]) && !k.places[from][text[from]] {
        Some(nerdle_failure(NerdleErrorKind::Excluded(from as usize, text[from])))
    } else {
        place_violation(k, text, from + 1)
    }
}

/// Whether `text` fits what is known: it has the length of the game, holds
/// of each character met so far no fewer copies than its minimum and no
/// more than its maximum, and has at no position a character excluded
/// there.
pub open spec fn fits(k: Knowledge, text: Seq<u8>) -> bool {
    &&& text.len() == 8
    &&& forall|c: u8|
        k.chars.contains_key(c) ==> (#[trigger] k.chars[c]).min_count <= occurrences(
            text,
            c,
            8,
        ) <= k.chars[c].max_count
    &&& forall|pos: int|
        0 <= pos < 8 ==> !(k.places[pos].contains_key(#[trigger] text[pos])
            && !k.places[pos][text[pos]])
}

/// Whether `text` fits what is known, and if not, the first thing that it
/// contradicts: its length, then the counts of the characters in
/// ascending order, then the positions from the left.
pub open spec fn matches_spec(k: Knowledge, text: Seq<u8>) -> Result<(), NerdleError> {
    if text.len() != 8 {
        Err(nerdle_failure(NerdleErrorKind::CandidateLength))
    } else {
        match count_violation(k, text, 0) {
            Some(e) => Err(e),
            None => match place_violation(k, text, 0) {
                Some(e) => Err(e),
                None => Ok(()),
            },
        }
    }
}

proof fn lemma_count_violation(k: Knowledge, text: Seq<u8>, from: int)
    requires
        0 <= from <= 256,
        text.len() == 8,
    ensures
        count_violation(k, text, from) is None <==> forall|c: u8|
            from <= c && k.chars.contains_key(c) ==> (#[trigger] k.chars[c]).min_count
                <= occurrences(text, c, 8) <= k.chars[c].max_count,
    decreases 256 - from,
{
    if from < 256 {
        lemma_count_violation(k, text, from + 1);
        let c0 = from as u8;
        if count_violation(k, text, from) is None {
            assert forall|c: u8| from <= c && k.chars.contains_key(c) implies (
            #[trigger] k.chars[c]).min_count <= occurrences(text, c, 8)
                <= k.chars[c].max_count by {
                if c != c0 {
                    assert(from + 1 <= c);
                }
            }
        }
    }
}

proof fn lemma_place_violation(k: Knowledge, text: Seq<u8>, from: int)
    requires
        0 <= from <= 8,
    ensures
        place_violation(k, text, from) is None <==> forall|pos: int|
            from <= pos < 8 ==> !(k.places[pos].contains_key(#[trigger] text[pos])
                && !k.places[pos][text[pos]]),
    decreases 8 - from,
{
    if from < 8 {
        lemma_place_violation(k, text, from + 1);
        if place_violation(k, text, from) is None {
            assert forall|pos: int| from <= pos < 8 implies !(k.places[pos].contains_key(
                #[trigger] text[pos],
            ) && !k.places[pos][text[pos]]) by {
                if pos != from {
                    assert(from + 1 <= pos);
                }
            }
        }
    }
}

/// A text is found to match exactly when it fits.
pub proof fn lemma_matches_iff_fits(k: Knowledge, text: Seq<u8>)
    ensures
        matches_spec(k, text) is Ok <==> fits(k, text),
{
    if text.len() == 8 {
        lemma_count_violation(k, text, 0);
        lemma_place_violation(k, text, 0);
    }
}

fn count_byte(text: &Vec<u8>, c: u8) -> (r: u32)
    requires
        text@.len() == 8,
    ensures
        r == occurrences(text@, c, 8),
        r <= 8,
{
    let mut n: u32 = 0;
    let mut i: usize = 0;
    while i < 8
        invariant
            i <= 8,
            text@.len() == 8,
            n == occurrences(text@, c, i as int),
            n <= i,
        decreases 8 - i,
    {
        if text[i] == c {
            n += 1;
        }
        i += 1;
    }
    n
}

/// Whether `b` is one of the fifteen symbols.
pub fn is_symbol_byte(b: u8) -> (r: bool)
    ensures
        r == is_symbol(b),
{
    (48 <= b && b <= 57) || b == 43 || b == 45 || b == 42 || b == 47 || b == 61
}

} // verus!
