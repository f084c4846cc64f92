//! The candidate pool: frequency-weighted words, sorted by frequency.
//!
//! A pool is built once per game from dictionary entries, kept sorted in
//! descending frequency order (ties keep their original order), and only
//! ever shrinks: filtering by an observed feedback pattern retains exactly
//! the candidates whose word is consistent with that pattern, preserving
//! the order of the survivors.

use vstd::prelude::*;

verus! {

use crate::tiles::{pattern_matches, spec_compute, Tiles};

/// A dictionary word together with its frequency weight.
#[derive(Debug)]
pub struct Candidate {
    pub word: String,
    pub freq: u64,
}

/// Every candidate word has exactly five letters.
pub open spec fn all_words_wf(s: Seq<Candidate>) -> bool {
    forall|i: int| 0 <= i < s.len() ==> (#[trigger] s[i]).word@.len() == 5
}

/// Frequencies never increase along the sequence.
pub open spec fn sorted_desc(s: Seq<Candidate>) -> bool {
    forall|i: int, j: int| 0 <= i <= j < s.len() ==> (#[trigger] s[i]).freq >= (#[trigger] s[j]).freq
}

/// Total frequency mass of a candidate sequence.
pub open spec fn mass(s: Seq<Candidate>) -> int
    decreases s.len(),
{
    if s.len() == 0 {
        0
    } else {
        mass(s.drop_last()) + s.last().freq
    }
}

/// The subsequence of candidates whose word is consistent with pattern `p`
/// observed for guess `g`, in their original order.
pub open spec fn filter_matching(s: Seq<Candidate>, g: Seq<char>, p: Seq<Tiles>) -> Seq<Candidate>
    decreases s.len(),
{
    if s.len() == 0 {
        Seq::empty()
    } else {
        let rest = filter_matching(s.drop_last(), g, p);
        if pattern_matches(g, s.last().word@, p) {
            rest.push(s.last())
        } else {
            rest
        }
    }
}

/// Inserting `c` into a descending run places it after every candidate of
/// at least its frequency, so equal frequencies keep their arrival order.
pub open spec fn insert_desc(s: Seq<Candidate>, c: Candidate) -> Seq<Candidate>
    decreases s.len(),
{
    if s.len() == 0 {
        seq![c]
    } else if s[0].freq >= c.freq {
        seq![s[0]] + insert_desc(s.drop_first(), c)
    } else {
        seq![c] + s
    }
}

/// Stable descending sort by frequency: candidates are inserted in their
/// original order, each after all earlier ones of equal frequency.
pub open spec fn sort_desc_spec(s: Seq<Candidate>) -> Seq<Candidate>
    decreases s.len(),
{
    if s.len() == 0 {
        Seq::empty()
    } else {
        insert_desc(sort_desc_spec(s.drop_last()), s.last())
    }
}

/// Some candidate carries exactly this word.
pub open spec fn contains_word(s: Seq<Candidate>, w: Seq<char>) -> bool {
    exists|i: int| 0 <= i < s.len() && (#[trigger] s[i]).word@ == w
}

/// Sorting keeps exactly the same words.
pub proof fn lemma_sort_contains_word(s: Seq<Candidate>, w: Seq<char>)
    ensures
        contains_word(sort_desc_spec(s), w) <==> contains_word(s, w),
{
    lemma_sort_desc_elems(s);
    let r = sort_desc_spec(s);
    if contains_word(r, w) {
        let i = choose|i: int| 0 <= i < r.len() && (#[trigger] r[i]).word@ == w;
        assert(r.contains(r[i]));
        assert(s.contains(r[i]));
        let j = choose|j: int| 0 <= j < s.len() && s[j] == r[i];
    }
    if contains_word(s, w) {
        let i = choose|i: int| 0 <= i < s.len() && (#[trigger] s[i]).word@ == w;
        assert(s.contains(s[i]));
        assert(r.contains(s[i]));
        let j = choose|j: int| 0 <= j < r.len() && r[j] == s[i];
    }
}

/// A candidate whose word is the true answer survives filtering by the
/// feedback that any guess earns against that answer.
pub proof fn lemma_filter_retains_answer(s: Seq<Candidate>, g: Seq<char>, answer: Seq<char>)
    requires
        contains_word(s, answer),
    ensures
        contains_word(filter_matching(s, g, spec_compute(g, answer)), answer),
{
    let p = spec_compute(g, answer);
    lemma_filter_membership(s, g, p);
    let i = choose|i: int| 0 <= i < s.len() && (#[trigger] s[i]).word@ == answer;
    let c = s[i];
    assert(s.contains(c));
    assert(pattern_matches(g, c.word@, p));
    assert(filter_matching(s, g, p).contains(c));
    let f = filter_matching(s, g, p);
    let j = choose|j: int| 0 <= j < f.len() && f[j] == c;
}

/// Mass is a sum of non-negative weights.
pub proof fn lemma_mass_nonneg(s: Seq<Candidate>)
    ensures
        0 <= mass(s),
    decreases s.len(),
{
    if s.len() > 0 {
        lemma_mass_nonneg(s.drop_last());
    }
}

/// Appending one candidate adds exactly its weight.
pub proof fn lemma_mass_push(s: Seq<Candidate>, c: Candidate)
    ensures
        mass(s.push(c)) == mass(s) + c.freq,
{
    assert(s.push(c).drop_last() =~= s);
    assert(s.push(c).last() == c);
}

/// Extending a prefix by one element adds exactly that element's weight.
pub proof fn lemma_mass_take_step(s: Seq<Candidate>, i: int)
    requires
        0 <= i < s.len(),
    ensures
        mass(s.take(i + 1)) == mass(s.take(i)) + s[i].freq,
{
    assert(s.take(i + 1).drop_last() =~= s.take(i));
    assert(s.take(i + 1).last() == s[i]);
}

/// A prefix never weighs more than the whole sequence.
pub proof fn lemma_mass_take_le(s: Seq<Candidate>, i: int)
    requires
        0 <= i <= s.len(),
    ensures
        mass(s.take(i)) <= mass(s),
    decreases s.len(),
{
    if i == s.len() {
        assert(s.take(i) =~= s);
    } else {
        assert(s.drop_last().take(i) =~= s.take(i));
        lemma_mass_take_le(s.drop_last(), i);
    }
}

/// Filtering can only shrink the pool.
pub proof fn lemma_filter_len_le(s: Seq<Candidate>, g: Seq<char>, p: Seq<Tiles>)
    ensures
        filter_matching(s, g, p).len() <= s.len(),
    decreases s.len(),
{
    if s.len() > 0 {
        lemma_filter_len_le(s.drop_last(), g, p);
    }
}

/// Filtering never increases the mass.
pub proof fn lemma_filter_mass_le(s: Seq<Candidate>, g: Seq<char>, p: Seq<Tiles>)
    ensures
        mass(filter_matching(s, g, p)) <= mass(s),
    decreases s.len(),
{
    if s.len() > 0 {
        lemma_filter_mass_le(s.drop_last(), g, p);
        if pattern_matches(g, s.last().word@, p) {
            lemma_mass_push(filter_matching(s.drop_last(), g, p), s.last());
        } else {
            assert(s.last().freq >= 0);
        }
    }
}

/// A candidate survives the filter exactly when it was present and its
/// word is consistent with the observed pattern.
pub proof fn lemma_filter_membership(s: Seq<Candidate>, g: Seq<char>, p: Seq<Tiles>)
    ensures
        forall|c: Candidate|
            #[trigger] filter_matching(s, g, p).contains(c) <==> (s.contains(c)
                && pattern_matches(g, c.word@, p)),
    decreases s.len(),
{
    let f = filter_matching(s, g, p);
    if s.len() == 0 {
        assert forall|c: Candidate| !(#[trigger] s.contains(c)) by {
        }
    } else {
        let d = s.drop_last();
        lemma_filter_membership(d, g, p);
        let rest = filter_matching(d, g, p);
        assert forall|c: Candidate| #[trigger] f.contains(c) implies (s.contains(c)
            && pattern_matches(g, c.word@, p)) by {
            if pattern_matches(g, s.last().word@, p) {
                let i = choose|i: int| 0 <= i < f.len() && f[i] == c;
                if i < rest.len() {
                    assert(rest.contains(c));
                    let j = choose|j: int| 0 <= j < d.len() && d[j] == c;
                    assert(s[j] == c);
                } else {
                    assert(c == s.last());
                    assert(s[s.len() - 1] == c);
                }
            } else {
                assert(rest.contains(c));
                let j = choose|j: int| 0 <= j < d.len() && d[j] == c;
                assert(s[j] == c);
            }
        }
        assert forall|c: Candidate| s.contains(c) && pattern_matches(g, c.word@, p) implies #[trigger] f.contains(
            c,
        ) by {
            let i = choose|i: int| 0 <= i < s.len() && s[i] == c;
            if i < s.len() - 1 {
                assert(d[i] == c);
                assert(d.contains(c));
                assert(rest.contains(c));
                let m = choose|m: int| 0 <= m < rest.len() && rest[m] == c;
                if pattern_matches(g, s.last().word@, p) {
                    assert(f == rest.push(s.last()));
                    assert(f[m] == c);
                } else {
                    assert(f[m] == c);
                }
            } else {
                assert(c == s.last());
                assert(f.last() == c);
                assert(f[f.len() - 1] == c);
            }
        }
    }
}

/// Filtering keeps the five-letter invariant.
pub proof fn lemma_filter_wf(s: Seq<Candidate>, g: Seq<char>, p: Seq<Tiles>)
    requires
        all_words_wf(s),
    ensures
        all_words_wf(filter_matching(s, g, p)),
{
    let f = filter_matching(s, g, p);
    lemma_filter_membership(s, g, p);
    assert forall|i: int| 0 <= i < f.len() implies (#[trigger] f[i]).word@.len() == 5 by {
        assert(f.contains(f[i]));
        let j = choose|j: int| 0 <= j < s.len() && s[j] == f[i];
    }
}

/// Filtering preserves the descending frequency order of the survivors.
pub proof fn lemma_filter_sorted(s: Seq<Candidate>, g: Seq<char>, p: Seq<Tiles>)
    requires
        sorted_desc(s),
    ensures
        sorted_desc(filter_matching(s, g, p)),
    decreases s.len(),
{
    if s.len() > 0 {
        let d = s.drop_last();
        let rest = filter_matching(d, g, p);
        lemma_filter_sorted(d, g, p);
        if pattern_matches(g, s.last().word@, p) {
            let f = rest.push(s.last());
            lemma_filter_membership(d, g, p);
            assert forall|i: int, j: int| 0 <= i <= j < f.len() implies (#[trigger] f[i]).freq
                >= (#[trigger] f[j]).freq by {
                if j < rest.len() {
                } else {
                    if i < rest.len() {
                        assert(rest.contains(rest[i]));
                        assert(d.contains(rest[i]));
                        let m = choose|m: int| 0 <= m < d.len() && d[m] == rest[i];
                        assert(s[m] == rest[i]);
                        assert(s[m].freq >= s[s.len() - 1].freq);
                    }
                }
            }
        }
    }
}

/// Inserting keeps sortedness when the run is sorted.
pub proof fn lemma_insert_desc_sorted(s: Seq<Candidate>, c: Candidate)
    requires
        sorted_desc(s),
    ensures
        sorted_desc(insert_desc(s, c)),
        insert_desc(s, c).len() == s.len() + 1,
    decreases s.len(),
{
    if s.len() == 0 {
    } else if s[0].freq >= c.freq {
        let d = s.drop_first();
        lemma_insert_desc_sorted(d, c);
        let r = seq![s[0]] + insert_desc(d, c);
        lemma_insert_desc_elems(d, c);
        assert forall|i: int, j: int| 0 <= i <= j < r.len() implies (#[trigger] r[i]).freq
            >= (#[trigger] r[j]).freq by {
            if i == 0 && j > 0 {
                let e = insert_desc(d, c)[j - 1];
                assert(insert_desc(d, c).contains(e));
                if e == c {
                } else {
                    let m = choose|m: int| 0 <= m < d.len() && d[m] == e;
                    assert(s[m + 1] == e);
                }
            }
        }
    } else {
    }
}

/// Everything in an insertion result is the new candidate or an original.
pub proof fn lemma_insert_desc_elems(s: Seq<Candidate>, c: Candidate)
    ensures
        forall|e: Candidate|
            #[trigger] insert_desc(s, c).contains(e) <==> (e == c || s.contains(e)),
    decreases s.len(),
{
    let r = insert_desc(s, c);
    if s.len() == 0 {
        assert forall|e: Candidate| #[trigger] r.contains(e) implies (e == c || s.contains(e)) by {
            let i = choose|i: int| 0 <= i < r.len() && r[i] == e;
        }
        assert(r[0] == c);
    } else if s[0].freq >= c.freq {
        let d = s.drop_first();
        lemma_insert_desc_elems(d, c);
        let rd = insert_desc(d, c);
        assert forall|e: Candidate| #[trigger] r.contains(e) implies (e == c || s.contains(e)) by {
            let i = choose|i: int| 0 <= i < r.len() && r[i] == e;
            if i == 0 {
                assert(s[0] == e);
            } else {
                assert(rd[i - 1] == e);
                assert(rd.contains(e));
                if e != c {
                    let m = choose|m: int| 0 <= m < d.len() && d[m] == e;
                    assert(s[m + 1] == e);
                }
            }
        }
        assert forall|e: Candidate| (e == c || s.contains(e)) implies #[trigger] r.contains(e) by {
            if e == c {
                assert(rd.contains(c));
                let m = choose|m: int| 0 <= m < rd.len() && rd[m] == c;
                assert(r[m + 1] == c);
            } else {
                let i = choose|i: int| 0 <= i < s.len() && s[i] == e;
                if i == 0 {
                    assert(r[0] == e);
                } else {
                    assert(d[i - 1] == e);
                    assert(d.contains(e));
                    assert(rd.contains(e));
                    let m = choose|m: int| 0 <= m < rd.len() && rd[m] == e;
                    assert(r[m + 1] == e);
                }
            }
        }
    } else {
        assert forall|e: Candidate| #[trigger] r.contains(e) implies (e == c || s.contains(e)) by {
            let i = choose|i: int| 0 <= i < r.len() && r[i] == e;
            if i == 0 {
            } else {
                assert(s[i - 1] == e);
            }
        }
        assert forall|e: Candidate| (e == c || s.contains(e)) implies #[trigger] r.contains(e) by {
            if e == c {
                assert(r[0] == e);
            } else {
                let i = choose|i: int| 0 <= i < s.len() && s[i] == e;
                assert(r[i + 1] == e);
            }
        }
    }
}

/// Insertion adds exactly the new candidate's weight.
pub proof fn lemma_insert_desc_mass(s: Seq<Candidate>, c: Candidate)
    ensures
        mass(insert_desc(s, c)) == mass(s) + c.freq,
    decreases s.len(),
{
    if s.len() == 0 {
        lemma_mass_cons(c, s);
        assert(insert_desc(s, c) =~= seq![c] + s);
    } else if s[0].freq >= c.freq {
        let d = s.drop_first();
        lemma_insert_desc_mass(d, c);
        let rd = insert_desc(d, c);
        let r = seq![s[0]] + rd;
        assert(insert_desc(s, c) == r);
        lemma_mass_cons(s[0], rd);
        lemma_mass_cons(s[0], d);
        assert(s =~= seq![s[0]] + d);
        assert(mass(s) == s[0].freq + mass(d));
        assert(mass(r) == s[0].freq + mass(rd));
    } else {
        lemma_mass_cons(c, s);
    }
}

/// Insertion grows the run by one.
pub proof fn lemma_insert_desc_sorted_len(s: Seq<Candidate>, c: Candidate)
    ensures
        insert_desc(s, c).len() == s.len() + 1,
    decreases s.len(),
{
    if s.len() > 0 && s[0].freq >= c.freq {
        lemma_insert_desc_sorted_len(s.drop_first(), c);
    }
}

/// Mass of a sequence with one candidate prepended.
pub proof fn lemma_mass_cons(c: Candidate, s: Seq<Candidate>)
    ensures
        mass(seq![c] + s) == c.freq + mass(s),
    decreases s.len(),
{
    let r = seq![c] + s;
    if s.len() == 0 {
        assert(r.drop_last() =~= Seq::<Candidate>::empty());
        assert(mass(r.drop_last()) == 0);
        assert(r.last() == c);
        assert(mass(r) == mass(r.drop_last()) + r.last().freq);
        assert(mass(s) == 0);
    } else {
        assert(r.drop_last() =~= seq![c] + s.drop_last());
        lemma_mass_cons(c, s.drop_last());
        assert(r.last() == s.last());
        assert(mass(r) == mass(r.drop_last()) + r.last().freq);
        assert(mass(s) == mass(s.drop_last()) + s.last().freq);
    }
}

/// The stable sort is sorted, keeps the five-letter invariant, and keeps
/// the total mass.
pub proof fn lemma_sort_desc_spec(s: Seq<Candidate>)
    ensures
        sorted_desc(sort_desc_spec(s)),
        mass(sort_desc_spec(s)) == mass(s),
        all_words_wf(s) ==> all_words_wf(sort_desc_spec(s)),
    decreases s.len(),
{
    if s.len() > 0 {
        let d = s.drop_last();
        lemma_sort_desc_spec(d);
        let sd = sort_desc_spec(d);
        lemma_insert_desc_sorted(sd, s.last());
        lemma_insert_desc_mass(sd, s.last());
        lemma_insert_desc_elems(sd, s.last());
        lemma_sort_desc_elems(d);
        if all_words_wf(s) {
            assert(all_words_wf(d));
            let r = sort_desc_spec(s);
            assert forall|i: int| 0 <= i < r.len() implies (#[trigger] r[i]).word@.len() == 5 by {
                assert(r.contains(r[i]));
                if r[i] == s.last() {
                    assert(s[s.len() - 1].word@.len() == 5);
                } else {
                    assert(sd.contains(r[i]));
                    let m = choose|m: int| 0 <= m < d.len() && d[m] == r[i];
                    assert(s[m] == r[i]);
                }
            }
        }
    }
}

/// Sorting neither adds nor drops candidates.
pub proof fn lemma_sort_desc_elems(s: Seq<Candidate>)
    ensures
        forall|e: Candidate| #[trigger] sort_desc_spec(s).contains(e) <==> s.contains(e),
    decreases s.len(),
{
    let r = sort_desc_spec(s);
    if s.len() > 0 {
        let d = s.drop_last();
        lemma_sort_desc_elems(d);
        lemma_insert_desc_elems(sort_desc_spec(d), s.last());
        assert forall|e: Candidate| #[trigger] r.contains(e) implies s.contains(e) by {
            if e == s.last() {
                assert(s[s.len() - 1] == e);
            } else {
                assert(sort_desc_spec(d).contains(e));
                let m = choose|m: int| 0 <= m < d.len() && d[m] == e;
                assert(s[m] == e);
            }
        }
        assert forall|e: Candidate| s.contains(e) implies #[trigger] r.contains(e) by {
            let i = choose|i: int| 0 <= i < s.len() && s[i] == e;
            if i == s.len() - 1 {
            } else {
                assert(d[i] == e);
                assert(d.contains(e));
            }
        }
    }
}

/// An ordered, shrinking set of candidate answers.
pub struct Pool {
    entries: Vec<Candidate>,
}

impl View for Pool {
    type V = Seq<Candidate>;

    closed spec fn view(&self) -> Seq<Candidate> {
        self.entries@
    }
}

impl Pool {
    /// Five-letter words, descending frequencies, and a total mass that a
    /// machine word can hold.
    pub open spec fn wf(&self) -> bool {
        &&& all_words_wf(self@)
        &&& sorted_desc(self@)
        &&& mass(self@) <= u64::MAX
    }

    /// Build a pool from dictionary entries, sorting them by descending
    /// frequency; entries of equal frequency keep their original order.
    pub fn new(entries: Vec<Candidate>) -> (p: Pool)
        requires
            all_words_wf(entries@),
            mass(entries@) <= u64::MAX,
        ensures
            p@ == sort_desc_spec(entries@),
            p.wf(),
    {
        let ghost orig = entries@;
        let mut input = entries;
        let mut out: Vec<Candidate> = Vec::new();
        while input.len() > 0
            invariant
                input@ =~= orig.skip(orig.len() - input@.len()),
                out@ == sort_desc_spec(orig.take(orig.len() - input@.len())),
                sorted_desc(out@),
                input@.len() <= orig.len(),
            decreases input@.len(),
        {
            let ghost i = orig.len() - input@.len();
            let c = input.remove(0);
            proof {
                assert(c == orig[i]);
                assert(input@ =~= orig.skip(i + 1));
                assert(orig.take(i + 1).drop_last() =~= orig.take(i as int));
                assert(orig.take(i + 1).last() == orig[i]);
            }
            sorted_insert(&mut out, c);
            proof {
                lemma_insert_desc_sorted(sort_desc_spec(orig.take(i as int)), c);
            }
        }
        proof {
            assert(orig.take(orig.len() as int) =~= orig);
            lemma_sort_desc_spec(orig);
        }
        Pool { entries: out }
    }

    /// Number of surviving candidates.
    pub fn len(&self) -> (n: usize)
        ensures
            n == self@.len(),
    {
        self.entries.len()
    }

    /// The highest-frequency surviving candidate.
    pub fn first(&self) -> (c: &Candidate)
        requires
            self@.len() > 0,
        ensures
            *c == self@[0],
    {
        &self.entries[0]
    }

    /// The candidate at position `i`.
    pub fn get(&self, i: usize) -> (c: &Candidate)
        requires
            i < self@.len(),
        ensures
            *c == self@[i as int],
    {
        &self.entries[i]
    }

    /// Retain exactly the candidates whose word is consistent with
    /// `pattern` observed for `guess`, in their original order.
    pub fn filter(&mut self, guess: &str, pattern: &[Tiles; 5])
        requires
            old(self).wf(),
            guess@.len() == 5,
        ensures
            final(self)@ == filter_matching(old(self)@, guess@, pattern@),
            final(self).wf(),
    {
        let ghost orig = self.entries@;
        let ghost g = guess@;
        let mut kept: Vec<Candidate> = Vec::new();
        while self.entries.len() > 0
            invariant
                guess@ == g,
                g.len() == 5,
                all_words_wf(orig),
                self.entries@ =~= orig.skip(orig.len() - self.entries@.len()),
                kept@ == filter_matching(orig.take(orig.len() - self.entries@.len()), g, pattern@),
                self.entries@.len() <= orig.len(),
            decreases self.entries@.len(),
        {
            let ghost i = orig.len() - self.entries@.len();
            let c = self.entries.remove(0);
            proof {
                assert(c == orig[i]);
                assert(self.entries@ =~= orig.skip(i + 1));
                assert(orig.take(i + 1).drop_last() =~= orig.take(i as int));
                assert(orig.take(i + 1).last() == orig[i]);
                assert(orig[i].word@.len() == 5);
            }
            if Tiles::matches(guess, c.word.as_str(), pattern) {
                kept.push(c);
            }
        }
        proof {
            assert(orig.take(orig.len() as int) =~= orig);
            lemma_filter_wf(orig, g, pattern@);
            lemma_filter_sorted(orig, g, pattern@);
            lemma_filter_mass_le(orig, g, pattern@);
            lemma_mass_nonneg(filter_matching(orig, g, pattern@));
        }
        self.entries = kept;
    }

    /// Total frequency mass of the surviving candidates.
    pub fn total_mass(&self) -> (m: u64)
        requires
            self.wf(),
        ensures
            m == mass(self@),
    {
        let mut m: u64 = 0;
        let n = self.entries.len();
        for i in 0..n
            invariant
                n == self@.len(),
                self.wf(),
                m == mass(self@.take(i as int)),
        {
            proof {
                lemma_mass_take_step(self@, i as int);
                lemma_mass_take_le(self@, i + 1);
                lemma_mass_nonneg(self@.take(i as int));
            }
            m = m + self.entries[i].freq;
        }
        proof {
            assert(self@.take(n as int) =~= self@);
        }
        m
    }
}

/// Insert a candidate into a descending run, after all candidates of at
/// least its frequency.
fn sorted_insert(v: &mut Vec<Candidate>, c: Candidate)
    requires
        sorted_desc(old(v)@),
    ensures
        final(v)@ == insert_desc(old(v)@, c),
{
    let mut pos: usize = 0;
    while pos < v.len() && v[pos].freq >= c.freq
        invariant
            0 <= pos <= v@.len(),
            forall|m: int| 0 <= m < pos ==> (#[trigger] v@[m]).freq >= c.freq,
        decreases v@.len() - pos,
    {
        pos += 1;
    }
    proof {
        lemma_insert_desc_at(v@, c, pos as int);
    }
    v.insert(pos, c);
    proof {
        assert(v@ =~= old(v)@.take(pos as int) + seq![c] + old(v)@.skip(pos as int));
    }
}

/// The recursive insertion lands exactly at the first position whose
/// frequency is below the new candidate's.
proof fn lemma_insert_desc_at(s: Seq<Candidate>, c: Candidate, pos: int)
    requires
        sorted_desc(s),
        0 <= pos <= s.len(),
        forall|m: int| 0 <= m < pos ==> (#[trigger] s[m]).freq >= c.freq,
        pos == s.len() || s[pos].freq < c.freq,
    ensures
        insert_desc(s, c) == s.take(pos) + seq![c] + s.skip(pos),
    decreases s.len(),
{
    if pos == 0 {
        if s.len() == 0 {
            assert(insert_desc(s, c) =~= s.take(0) + seq![c] + s.skip(0));
        } else {
            assert(insert_desc(s, c) =~= s.take(0) + seq![c] + s.skip(0));
        }
    } else {
        let d = s.drop_first();
        assert forall|m: int| 0 <= m < pos - 1 implies (#[trigger] d[m]).freq >= c.freq by {
            assert(s[m + 1] == d[m]);
        }
        lemma_insert_desc_at(d, c, pos - 1);
        assert(insert_desc(s, c) =~= seq![s[0]] + (d.take(pos - 1) + seq![c] + d.skip(pos - 1)));
        assert(seq![s[0]] + (d.take(pos - 1) + seq![c] + d.skip(pos - 1)) =~= s.take(pos) + seq![c]
            + s.skip(pos));
    }
}

} // verus!
