//! The entropy-maximising strategy.
//!
//! The first round plays a fixed, precomputed opening word.  Every later
//! round filters the pool by the last feedback; with fewer than ten
//! survivors it simply plays the most frequent one, and otherwise it
//! scores the top quarter of the survivors (at least twenty) by the
//! expected information of their feedback distribution and plays the
//! first maximum, falling back to the most frequent survivor when no
//! word scores above zero.

use vstd::prelude::*;

verus! {

use crate::algorithms::score::{
    lemma_lg_bound, lemma_lg_mono, lemma_mass_matching_le, lemma_mass_matching_take_step,
    lemma_mass_split_le, lemma_score_upto_bounds, lg, lg_exec, mass_matching, mass_split,
    pattern_term, score_upto, spec_score,
};
use crate::game::{hv, Guess, GuessView, Solver};
use crate::pool::{
    all_words_wf, contains_word, filter_matching, lemma_filter_retains_answer, lemma_filter_wf,
    lemma_mass_nonneg, lemma_mass_take_le, lemma_sort_contains_word, mass, sort_desc_spec,
    Candidate, Pool,
};
use crate::tiles::{pattern_of, Tiles};

/// The mathematical state of the entropy strategy: the surviving pool
/// and the fixed opening word.
pub struct EntropyModel {
    pub pool: Seq<Candidate>,
    pub opening: Seq<char>,
}

/// First-seen maximum score over the first `count` candidates, starting
/// from a zero baseline: a candidate becomes the tracked best only by
/// scoring strictly above everything before it.
pub open spec fn select_best(s: Seq<Candidate>, count: int) -> (Option<int>, int)
    decreases count,
{
    if count <= 0 {
        (None::<int>, 0)
    } else {
        let prev = select_best(s, count - 1);
        let sc = spec_score(s, s[count - 1].word@);
        if sc > prev.1 {
            (Some(count - 1), sc)
        } else {
            prev
        }
    }
}

/// The tracked best is an index into the scanned prefix, and the
/// tracked score never drops below the zero baseline.
pub proof fn lemma_select_best_bounds(s: Seq<Candidate>, count: int)
    ensures
        select_best(s, count).0 matches Some(i) ==> 0 <= i < count,
        select_best(s, count).1 >= 0,
    decreases count,
{
    if count > 0 {
        lemma_select_best_bounds(s, count - 1);
    }
}

/// How many of the `r` survivors are scored: a quarter of them, at
/// least twenty, and never more than there are.
pub open spec fn eval_count(r: int) -> int {
    let quarter = r / 4;
    let limit = if quarter > 20 {
        quarter
    } else {
        20
    };
    if limit < r {
        limit
    } else {
        r
    }
}

/// The word the strategy picks from a filtered pool.
pub open spec fn entropy_choice(p: Seq<Candidate>) -> Seq<char> {
    if p.len() < 10 {
        p[0].word@
    } else {
        match select_best(p, eval_count(p.len() as int)).0 {
            Some(i) => p[i].word@,
            None => p[0].word@,
        }
    }
}

/// The chosen word belongs to the pool and is five letters long.
pub proof fn lemma_entropy_choice_wf(p: Seq<Candidate>)
    requires
        all_words_wf(p),
        p.len() > 0,
    ensures
        entropy_choice(p).len() == 5,
{
    if p.len() >= 10 {
        lemma_select_best_bounds(p, eval_count(p.len() as int));
    }
}

/// Entropy-maximising solver.
pub struct Entropy {
    pool: Pool,
    opening: String,
}

impl Entropy {
    /// Build the solver from dictionary entries and a precomputed
    /// opening word, played on the first round.
    pub fn new(entries: Vec<Candidate>, opening: String) -> (s: Entropy)
        requires
            all_words_wf(entries@),
            mass(entries@) <= u64::MAX,
            opening@.len() == 5,
        ensures
            s.inv(),
            s.model() == (EntropyModel { pool: sort_desc_spec(entries@), opening: opening@ }),
            forall|ans: Seq<char>|
                #[trigger] Entropy::admits(s.model(), ans) <==> contains_word(entries@, ans),
    {
        let ghost orig = entries@;
        let pool = Pool::new(entries);
        let s = Entropy { pool, opening };
        proof {
            assert forall|ans: Seq<char>|
                #[trigger] Entropy::admits(s.model(), ans) <==> contains_word(orig, ans) by {
                lemma_sort_contains_word(orig, ans);
            }
        }
        s
    }
}

impl Solver for Entropy {
    type Model = EntropyModel;

    closed spec fn inv(&self) -> bool {
        self.pool.wf() && self.opening@.len() == 5
    }

    closed spec fn model(&self) -> EntropyModel {
        EntropyModel { pool: self.pool@, opening: self.opening@ }
    }

    open spec fn next_word(m: EntropyModel, h: Seq<GuessView>) -> Seq<char> {
        if h.len() == 0 {
            m.opening
        } else {
            entropy_choice(filter_matching(m.pool, h.last().word, h.last().result))
        }
    }

    open spec fn next_state(m: EntropyModel, h: Seq<GuessView>) -> EntropyModel {
        if h.len() == 0 {
            m
        } else {
            EntropyModel {
                pool: filter_matching(m.pool, h.last().word, h.last().result),
                opening: m.opening,
            }
        }
    }

    open spec fn ready(m: EntropyModel, h: Seq<GuessView>) -> bool {
        h.len() == 0 || filter_matching(m.pool, h.last().word, h.last().result).len() > 0
    }

    open spec fn admits(m: EntropyModel, answer: Seq<char>) -> bool {
        m.opening.len() == 5 && all_words_wf(m.pool) && contains_word(m.pool, answer)
    }

    proof fn lemma_step(m: EntropyModel, answer: Seq<char>, h: Seq<GuessView>) {
        if h.len() > 0 {
            let g = h.last().word;
            let f = filter_matching(m.pool, g, h.last().result);
            lemma_filter_retains_answer(m.pool, g, answer);
            lemma_filter_wf(m.pool, g, h.last().result);
            let i = choose|i: int| 0 <= i < f.len() && (#[trigger] f[i]).word@ == answer;
            lemma_entropy_choice_wf(f);
        }
    }

    fn guess(&mut self, history: &[Guess]) -> (w: String) {
        if history.len() == 0 {
            return self.opening.clone();
        }
        let last = &history[history.len() - 1];
        proof {
            assert(hv(history@).last() == history@[history@.len() - 1]@);
        }
        self.pool.filter(last.word.as_str(), &last.result);
        let ghost fp = self.pool@;
        let ghost op = self.opening@;
        let r = self.pool.len();
        if r < 10 {
            let c = self.pool.first();
            return c.word.clone();
        }
        let quarter = r / 4;
        let limit = if quarter > 20 {
            quarter
        } else {
            20
        };
        let count = if limit < r {
            limit
        } else {
            r
        };
        proof {
            assert(count == eval_count(r as int));
        }
        let total = self.pool.total_mass();
        let patterns = Tiles::permutations();
        let mut best_idx: usize = r;
        let mut best_score: u128 = 0;
        let mut i: usize = 0;
        while i < count
            invariant
                self.pool@ == fp,
                self.opening@ == op,
                self.pool.wf(),
                self.opening@.len() == 5,
                0 <= i <= count <= r,
                r == self.pool@.len(),
                total as int == mass(self.pool@),
                patterns@.len() == 243,
                forall|k: int| 0 <= k < 243 ==> (#[trigger] patterns@[k])@ == pattern_of(k),
                best_score as int == select_best(fp, i as int).1,
                if best_idx == r {
                    select_best(fp, i as int).0 is None
                } else {
                    best_idx < i && select_best(fp, i as int).0 == Some(best_idx as int)
                },
            decreases count - i,
        {
            let cand = self.pool.get(i);
            let sc = score_word(&self.pool, total, &patterns, cand.word.as_str());
            proof {
                lemma_select_best_bounds(fp, i as int);
                assert(select_best(fp, i + 1).1 >= 0) by {
                    lemma_select_best_bounds(fp, i + 1);
                }
            }
            if sc > best_score {
                best_idx = i;
                best_score = sc;
            }
            i += 1;
        }
        let c = if best_idx < r {
            proof {
                lemma_select_best_bounds(fp, count as int);
            }
            self.pool.get(best_idx)
        } else {
            self.pool.first()
        };
        c.word.clone()
    }
}

/// The scaled expected information of guessing `w` against the pool:
/// the sum, over the 243 feedback patterns, of the frequency mass each
/// pattern attracts times the fixed-point log-ratio of the total mass to
/// that mass.  Dividing by the pool's total mass and by 65536 yields the
/// expected information in bits.
pub fn expected_information(pool: &Pool, word: &str) -> (sc: u128)
    requires
        pool.wf(),
        word@.len() == 5,
    ensures
        sc as int == spec_score(pool@, word@),
{
    let total = pool.total_mass();
    let patterns = Tiles::permutations();
    score_word(pool, total, &patterns, word)
}

/// Frequency mass of the candidates in `pool` that would earn pattern
/// `p` if `w` were guessed against them.
fn mass_for_pattern(pool: &Pool, w: &str, p: &[Tiles; 5]) -> (m: u64)
    requires
        pool.wf(),
        w@.len() == 5,
    ensures
        m as int == mass_matching(pool@, w@, p@),
{
    let n = pool.len();
    let mut m: u64 = 0;
    for i in 0..n
        invariant
            n == pool@.len(),
            pool.wf(),
            w@.len() == 5,
            m as int == mass_matching(pool@.take(i as int), w@, p@),
    {
        proof {
            lemma_mass_matching_take_step(pool@, w@, p@, i as int);
            lemma_mass_matching_le(pool@.take(i + 1), w@, p@);
            lemma_mass_take_le(pool@, i + 1);
        }
        let c = pool.get(i);
        if Tiles::matches(w, c.word.as_str(), p) {
            m = m + c.freq;
        }
    }
    proof {
        assert(pool@.take(n as int) =~= pool@);
    }
    m
}

/// The scaled expected-information score of `w` against the whole pool.
fn score_word(pool: &Pool, total: u64, patterns: &Vec<[Tiles; 5]>, w: &str) -> (sc: u128)
    requires
        pool.wf(),
        w@.len() == 5,
        total as int == mass(pool@),
        patterns@.len() == 243,
        forall|k: int| 0 <= k < 243 ==> (#[trigger] patterns@[k])@ == pattern_of(k),
    ensures
        sc as int == spec_score(pool@, w@),
{
    let lt = if total >= 1 {
        lg_exec(total)
    } else {
        0
    };
    proof {
        assert(lt == lg(total as int));
        if total >= 1 {
            lemma_lg_bound(total as int);
        }
    }
    let mut sc: u128 = 0;
    let mut k: usize = 0;
    while k < 243
        invariant
            pool.wf(),
            w@.len() == 5,
            total as int == mass(pool@),
            patterns@.len() == 243,
            forall|j: int| 0 <= j < 243 ==> (#[trigger] patterns@[j])@ == pattern_of(j),
            lt == lg(total as int),
            lt < 64 * 65536,
            0 <= k <= 243,
            sc as int == score_upto(pool@, w@, total as int, k as int),
        decreases 243 - k,
    {
        let m = mass_for_pattern(pool, w, &patterns[k]);
        proof {
            assert(m as int == mass_matching(pool@, w@, pattern_of(k as int)));
            lemma_mass_matching_le(pool@, w@, pattern_of(k as int));
            lemma_score_upto_bounds(pool@, w@, k + 1);
            lemma_mass_split_le(pool@, w@, k + 1);
            lemma_mass_nonneg(pool@);
            assert(score_upto(pool@, w@, total as int, k + 1) <= lg(total as int) * mass_split(
                pool@,
                w@,
                k + 1,
            ));
            assert(lg(total as int) * mass_split(pool@, w@, k + 1) < 0x4000000000000000000000) by {
                vstd::arithmetic::mul::lemma_mul_upper_bound(
                    lg(total as int),
                    4194303,
                    mass_split(pool@, w@, k + 1),
                    0xffff_ffff_ffff_ffff,
                );
            }
            if m > 0 {
                lemma_lg_mono(m as int, total as int);
            }
        }
        if m > 0 {
            let lm = lg_exec(m);
            proof {
                let diff = lt - lm;
                assert((m as int) * (diff as int) < 0x4000000000000000000000) by {
                    vstd::arithmetic::mul::lemma_mul_upper_bound(
                        m as int,
                        0xffff_ffff_ffff_ffff,
                        diff as int,
                        4194303,
                    );
                }
                assert(pattern_term(pool@, w@, total as int, k as int) == m * (lt - lm));
            }
            sc = sc + (m as u128) * ((lt - lm) as u128);
        }
        k += 1;
    }
    sc
}

} // verus!
