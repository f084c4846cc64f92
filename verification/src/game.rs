//! The game loop and the solver interface.
//!
//! A solver is specified through an abstract model: `next_word` gives the
//! word it proposes for a history and `next_state` the model it moves to
//! afterwards.  The game loop `Wordle::play` repeatedly asks the solver for
//! a guess, stops with the round count on a hit, and otherwise appends the
//! computed feedback to the history; the whole run is pinned down by the
//! recursive specification `spec_play`.

use vstd::prelude::*;

verus! {

use crate::tiles::{lemma_spec_compute_len, spec_compute, Tiles};
use vstd::string::StrSliceExecFns;

/// One past round: the guessed word and the feedback it earned.
#[derive(Debug)]
pub struct Guess {
    pub word: String,
    pub result: [Tiles; 5],
}

/// The mathematical shadow of a `Guess`.
pub struct GuessView {
    pub word: Seq<char>,
    pub result: Seq<Tiles>,
}

impl View for Guess {
    type V = GuessView;

    open spec fn view(&self) -> GuessView {
        GuessView { word: self.word@, result: self.result@ }
    }
}

/// The views of a history of guesses, in order.
pub open spec fn hv(s: Seq<Guess>) -> Seq<GuessView> {
    Seq::new(s.len(), |i: int| s[i]@)
}

/// Five-letter words and five-tile results throughout the history.
pub open spec fn history_wf(h: Seq<GuessView>) -> bool {
    forall|i: int|
        0 <= i < h.len() ==> (#[trigger] h[i]).word.len() == 5 && h[i].result.len() == 5
}

/// A history that could arise when playing against `answer`: every
/// recorded result is the feedback of its word against `answer`.
pub open spec fn consistent_history(h: Seq<GuessView>, answer: Seq<char>) -> bool {
    forall|i: int|
        0 <= i < h.len() ==> (#[trigger] h[i]).word.len() == 5 && h[i].result == spec_compute(
            h[i].word,
            answer,
        )
}

/// A guessing strategy.
///
/// Each strategy chooses a mathematical model of its state; `next_word`
/// pins down which word it proposes for a history and `next_state` how the
/// model evolves, so `guess` has an exact contract.  `ready` says when a
/// step is defined (for the pool strategies: the filtered pool is not
/// empty); `admits` gives a condition a caller establishes once which
/// keeps the solver ready for every history consistent with the chosen
/// answer — `lemma_step` is each strategy's proof of that.
pub trait Solver: Sized {
    /// The mathematical state of the strategy.
    type Model;

    /// The strategy's internal invariant.
    spec fn inv(&self) -> bool;

    /// The model of the current state.
    spec fn model(&self) -> Self::Model;

    /// The word proposed for a history.
    spec fn next_word(m: Self::Model, h: Seq<GuessView>) -> Seq<char>;

    /// The model after answering that history.
    spec fn next_state(m: Self::Model, h: Seq<GuessView>) -> Self::Model;

    /// The histories for which a step is defined.
    spec fn ready(m: Self::Model, h: Seq<GuessView>) -> bool;

    /// Answers this state can be played against.
    spec fn admits(m: Self::Model, answer: Seq<char>) -> bool;

    /// An admitted answer keeps the solver ready and admitting along every
    /// history consistent with that answer, and its guesses are words.
    proof fn lemma_step(m: Self::Model, answer: Seq<char>, h: Seq<GuessView>)
        requires
            Self::admits(m, answer),
            answer.len() == 5,
            consistent_history(h, answer),
        ensures
            Self::ready(m, h),
            Self::next_word(m, h).len() == 5,
            Self::admits(Self::next_state(m, h), answer),
    ;

    /// Propose a word for the given history and update the state.
    fn guess(&mut self, history: &[Guess]) -> (w: String)
        requires
            old(self).inv(),
            Self::ready(old(self).model(), hv(history@)),
            history_wf(hv(history@)),
        ensures
            final(self).inv(),
            w@ == Self::next_word(old(self).model(), hv(history@)),
            final(self).model() == Self::next_state(old(self).model(), hv(history@)),
    ;
}

/// The round in which a game against `answer` ends with a hit, counting
/// from `used` rounds already played and `left` still allowed; `None`
/// when the budget runs out first.
pub open spec fn spec_play<S: Solver>(
    m: S::Model,
    answer: Seq<char>,
    h: Seq<GuessView>,
    used: int,
    left: int,
) -> Option<int>
    decreases left,
{
    if left <= 0 {
        None
    } else if S::next_word(m, h) == answer {
        Some(used + 1)
    } else {
        spec_play::<S>(
            S::next_state(m, h),
            answer,
            h.push(
                GuessView {
                    word: S::next_word(m, h),
                    result: spec_compute(S::next_word(m, h), answer),
                },
            ),
            used + 1,
            left - 1,
        )
    }
}

/// The game itself.
pub struct Wordle {}

impl Wordle {
    /// Play `solver` against `answer` for at most `max_rounds` rounds and
    /// report the round of the winning guess, or `None` when the budget
    /// is exhausted without a hit.
    #[verifier::loop_isolation(false)]
    pub fn play<S: Solver>(answer: &str, solver: S, max_rounds: usize) -> (r: Option<usize>)
        requires
            answer@.len() == 5,
            solver.inv(),
            S::admits(solver.model(), answer@),
        ensures
            r matches Some(i) ==> 1 <= i <= max_rounds,
            r matches Some(i) ==> spec_play::<S>(
                solver.model(),
                answer@,
                Seq::empty(),
                0,
                max_rounds as int,
            ) == Some(i as int),
            r is None ==> spec_play::<S>(
                solver.model(),
                answer@,
                Seq::empty(),
                0,
                max_rounds as int,
            ) is None,
    {
        let ghost orig = solver.model();
        let mut cur = solver;
        let mut history: Vec<Guess> = Vec::new();
        let mut i: usize = 0;
        proof {
            assert(hv(history@) =~= Seq::<GuessView>::empty());
        }
        while i < max_rounds
            invariant
                i <= max_rounds,
                cur.inv(),
                S::admits(cur.model(), answer@),
                consistent_history(hv(history@), answer@),
                history_wf(hv(history@)),
                history@.len() == i,
                spec_play::<S>(orig, answer@, Seq::empty(), 0, max_rounds as int) == spec_play::<
                    S,
                >(cur.model(), answer@, hv(history@), i as int, max_rounds - i),
            decreases max_rounds - i,
        {
            let ghost h = hv(history@);
            let ghost pre = cur.model();
            proof {
                S::lemma_step(pre, answer@, h);
            }
            let w = cur.guess(history.as_slice());
            let hit = words_equal(w.as_str(), answer);
            i = i + 1;
            if hit {
                proof {
                    assert(S::next_word(pre, h) == answer@);
                    assert(spec_play::<S>(pre, answer@, h, i - 1, max_rounds - (i - 1)) == Some(
                        i as int,
                    ));
                }
                return Some(i);
            }
            let result = Tiles::compute(w.as_str(), answer);
            let ghost wv = w@;
            proof {
                lemma_spec_compute_len(wv, answer@);
            }
            history.push(Guess { word: w, result });
            proof {
                assert(hv(history@) =~= h.push(
                    GuessView { word: wv, result: spec_compute(wv, answer@) },
                ));
            }
        }
        None
    }
}

/// Compare two five-letter words character by character.
fn words_equal(a: &str, b: &str) -> (r: bool)
    requires
        a@.len() == 5,
        b@.len() == 5,
    ensures
        r == (a@ == b@),
{
    let mut same = true;
    for i in 0..5usize
        invariant
            a@.len() == 5,
            b@.len() == 5,
            same == (forall|j: int| 0 <= j < i ==> a@[j] == b@[j]),
    {
        same = same && a.get_char(i) == b.get_char(i);
    }
    proof {
        if same {
            assert(a@ =~= b@);
        }
    }
    same
}

} // verus!
