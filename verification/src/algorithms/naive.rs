//! The frequency-greedy strategy.
//!
//! On the first round it proposes the most frequent word of its pool; on
//! every later round it filters the pool by the feedback of the last guess
//! and again proposes the most frequent survivor.

use vstd::prelude::*;

verus! {

use crate::game::{hv, Guess, GuessView, Solver};
use crate::pool::{
    all_words_wf, contains_word, filter_matching, lemma_filter_retains_answer, lemma_filter_wf,
    lemma_sort_contains_word, mass, sort_desc_spec, Candidate, Pool,
};

/// Frequency-greedy solver: always the most frequent surviving candidate.
pub struct Naive {
    pool: Pool,
}

impl Naive {
    /// Build the solver from dictionary entries.
    pub fn new(entries: Vec<Candidate>) -> (s: Naive)
        requires
            all_words_wf(entries@),
            mass(entries@) <= u64::MAX,
        ensures
            s.inv(),
            s.model() == sort_desc_spec(entries@),
            forall|ans: Seq<char>|
                #[trigger] Naive::admits(s.model(), ans) <==> contains_word(entries@, ans),
    {
        let ghost orig = entries@;
        let pool = Pool::new(entries);
        proof {
            assert forall|ans: Seq<char>|
                #[trigger] Naive::admits(pool@, ans) <==> contains_word(orig, ans) by {
                lemma_sort_contains_word(orig, ans);
            }
        }
        Naive { pool }
    }
}

impl Solver for Naive {
    type Model = Seq<Candidate>;

    closed spec fn inv(&self) -> bool {
        self.pool.wf()
    }

    closed spec fn model(&self) -> Seq<Candidate> {
        self.pool@
    }

    open spec fn next_word(m: Seq<Candidate>, h: Seq<GuessView>) -> Seq<char> {
        if h.len() == 0 {
            m[0].word@
        } else {
            filter_matching(m, h.last().word, h.last().result)[0].word@
        }
    }

    open spec fn next_state(m: Seq<Candidate>, h: Seq<GuessView>) -> Seq<Candidate> {
        if h.len() == 0 {
            m
        } else {
            filter_matching(m, h.last().word, h.last().result)
        }
    }

    open spec fn ready(m: Seq<Candidate>, h: Seq<GuessView>) -> bool {
        if h.len() == 0 {
            m.len() > 0
        } else {
            filter_matching(m, h.last().word, h.last().result).len() > 0
        }
    }

    open spec fn admits(m: Seq<Candidate>, answer: Seq<char>) -> bool {
        all_words_wf(m) && contains_word(m, answer)
    }

    proof fn lemma_step(m: Seq<Candidate>, answer: Seq<char>, h: Seq<GuessView>) {
        if h.len() == 0 {
            let i = choose|i: int| 0 <= i < m.len() && (#[trigger] m[i]).word@ == answer;
        } else {
            let g = h.last().word;
            let f = filter_matching(m, g, h.last().result);
            lemma_filter_retains_answer(m, g, answer);
            lemma_filter_wf(m, g, h.last().result);
            let i = choose|i: int| 0 <= i < f.len() && (#[trigger] f[i]).word@ == answer;
        }
    }

    fn guess(&mut self, history: &[Guess]) -> (w: String) {
        if history.len() == 0 {
            let c = self.pool.first();
            c.word.clone()
        } else {
            let last = &history[history.len() - 1];
            proof {
                assert(hv(history@).last() == history@[history@.len() - 1]@);
            }
            self.pool.filter(last.word.as_str(), &last.result);
            let c = self.pool.first();
            c.word.clone()
        }
    }
}

} // verus!
