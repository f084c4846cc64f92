//! A degenerate baseline strategy that never narrows anything.
//!
//! The repeater proposes the same word in every round, whatever feedback
//! it receives.  It exists to pin down the failure side of the game loop:
//! unless its word happens to be the answer, a game against it exhausts
//! any round budget.

use vstd::prelude::*;

verus! {

use crate::game::{spec_play, Guess, GuessView, Solver};

/// A solver that proposes one fixed word in every round.
pub struct Repeater {
    word: String,
}

impl Repeater {
    /// A repeater for the given five-letter word.
    pub fn new(word: String) -> (s: Repeater)
        requires
            word@.len() == 5,
        ensures
            s.inv(),
            s.model() == word@,
    {
        Repeater { word }
    }
}

impl Solver for Repeater {
    type Model = Seq<char>;

    closed spec fn inv(&self) -> bool {
        self.word@.len() == 5
    }

    closed spec fn model(&self) -> Seq<char> {
        self.word@
    }

    open spec fn next_word(m: Seq<char>, h: Seq<GuessView>) -> Seq<char> {
        m
    }

    open spec fn next_state(m: Seq<char>, h: Seq<GuessView>) -> Seq<char> {
        m
    }

    open spec fn ready(m: Seq<char>, h: Seq<GuessView>) -> bool {
        true
    }

    open spec fn admits(m: Seq<char>, answer: Seq<char>) -> bool {
        m.len() == 5
    }

    proof fn lemma_step(m: Seq<char>, answer: Seq<char>, h: Seq<GuessView>) {
    }

    fn guess(&mut self, history: &[Guess]) -> (w: String) {
        self.word.clone()
    }
}

/// A solver that never narrows its choice cannot win: against any answer
/// other than its fixed word, the game fails whatever the round budget.
pub proof fn lemma_repeater_never_solves(
    w: Seq<char>,
    answer: Seq<char>,
    h: Seq<GuessView>,
    used: int,
    left: int,
)
    requires
        w != answer,
    ensures
        spec_play::<Repeater>(w, answer, h, used, left) is None,
    decreases left,
{
    if left > 0 {
        lemma_repeater_never_solves(
            w,
            answer,
            h.push(
                GuessView {
                    word: w,
                    result: crate::tiles::spec_compute(w, answer),
                },
            ),
            used + 1,
            left - 1,
        );
    }
}

} // verus!
