//! Fixed-point expected-information scoring.
//!
//! The entropy strategy compares words by the Shannon information their
//! feedback distribution is expected to carry.  All arithmetic here is on
//! integers: `lg` approximates the base-two logarithm in units of
//! 1/65536, exact at powers of two and linearly interpolated between
//! them, and a word's score is `sum of m * (lg(total) - lg(m))` over the
//! frequency mass `m` that each of the 243 feedback patterns attracts.
//! Dividing a score by the total mass would yield the expected
//! information in units of 1/65536 of a bit.

use vstd::prelude::*;

verus! {

use crate::pool::{all_words_wf, mass, Candidate};
use crate::tiles::{
    lemma_pattern_of_index, lemma_spec_compute_len, pattern_index, pattern_matches, pattern_of,
    spec_compute,
};
use vstd::arithmetic::div_mod::{
    lemma_div_is_ordered, lemma_div_pos_is_pos, lemma_fundamental_div_mod,
    lemma_multiply_divide_lt,
};
use vstd::arithmetic::mul::{lemma_mul_inequality, lemma_mul_nonnegative};

/// Powers of two over the integers.
pub open spec fn pow2i(e: int) -> int
    decreases e,
{
    if e <= 0 {
        1
    } else {
        2 * pow2i(e - 1)
    }
}

/// The integer part of the base-two logarithm.
pub open spec fn floor_log2(x: int) -> int
    decreases x,
{
    if x < 2 {
        0
    } else {
        1 + floor_log2(x / 2)
    }
}

/// Base-two logarithm in units of 1/65536: exact at powers of two,
/// linearly interpolated in between, and zero below one.
pub open spec fn lg(x: int) -> int {
    if x < 1 {
        0
    } else {
        let e = floor_log2(x);
        e * 65536 + (x - pow2i(e)) * 65536 / pow2i(e)
    }
}

/// Powers of two are positive.
pub proof fn lemma_pow2i_pos(e: int)
    ensures
        pow2i(e) >= 1,
    decreases e,
{
    if e > 0 {
        lemma_pow2i_pos(e - 1);
    }
}

/// Powers of two grow with the exponent.
pub proof fn lemma_pow2i_mono(e1: int, e2: int)
    requires
        e1 <= e2,
    ensures
        pow2i(e1) <= pow2i(e2),
    decreases e2 - e1,
{
    if e1 < e2 {
        lemma_pow2i_mono(e1, e2 - 1);
        lemma_pow2i_pos(e2 - 1);
    }
}

/// The integer logarithm brackets its argument between two powers of two.
pub proof fn lemma_log2_bounds(x: int)
    requires
        x >= 1,
    ensures
        0 <= floor_log2(x),
        pow2i(floor_log2(x)) <= x < pow2i(floor_log2(x) + 1),
    decreases x,
{
    if x < 2 {
    } else {
        let h = x / 2;
        assert(1 <= h < x);
        lemma_log2_bounds(h);
        let e = floor_log2(h);
        lemma_fundamental_div_mod(x, 2);
        assert(x == 2 * h + x % 2);
        assert(0 <= x % 2 < 2) by {
            vstd::arithmetic::div_mod::lemma_mod_bound(x, 2);
        }
        assert(pow2i(e + 1) == 2 * pow2i(e));
        assert(pow2i(e + 2) == 2 * pow2i(e + 1));
        assert(pow2i(e) <= h < pow2i(e + 1));
        assert(pow2i(e + 1) <= 2 * h <= x);
        assert(x <= 2 * h + 1 < 2 * (h + 1) <= 2 * pow2i(e + 1));
    }
}

/// The integer logarithm never decreases.
pub proof fn lemma_floor_log2_mono(x: int, y: int)
    requires
        1 <= x <= y,
    ensures
        floor_log2(x) <= floor_log2(y),
    decreases x,
{
    if x < 2 {
        lemma_log2_bounds(y);
    } else {
        assert(y >= 2);
        lemma_div_is_ordered(x, y, 2);
        assert(1 <= x / 2);
        lemma_floor_log2_mono(x / 2, y / 2);
    }
}

/// Anything below a power of two has a smaller integer logarithm.
pub proof fn lemma_floor_log2_lt(x: int, e: int)
    requires
        1 <= x,
        0 <= e,
        x < pow2i(e),
    ensures
        floor_log2(x) < e,
{
    lemma_log2_bounds(x);
    let f = floor_log2(x);
    if f >= e {
        lemma_pow2i_mono(e, f);
        assert(pow2i(e) <= pow2i(f) <= x);
    }
}

/// The fixed-point logarithm is non-negative and monotone.
pub proof fn lemma_lg_mono(x: int, y: int)
    requires
        1 <= x <= y,
    ensures
        0 <= lg(x) <= lg(y),
{
    let ex = floor_log2(x);
    let ey = floor_log2(y);
    lemma_log2_bounds(x);
    lemma_log2_bounds(y);
    lemma_floor_log2_mono(x, y);
    let px = pow2i(ex);
    let py = pow2i(ey);
    lemma_pow2i_pos(ex);
    lemma_pow2i_pos(ey);
    lemma_div_pos_is_pos((x - px) * 65536, px);
    lemma_div_pos_is_pos((y - py) * 65536, py);
    lemma_mul_nonnegative(x - px, 65536);
    lemma_mul_nonnegative(y - py, 65536);
    if ex == ey {
        lemma_mul_inequality(x - px, y - py, 65536);
        lemma_div_is_ordered((x - px) * 65536, (y - py) * 65536, px);
    } else {
        assert(ex < ey);
        assert((x - px) * 65536 < px * 65536) by {
            vstd::arithmetic::mul::lemma_mul_strict_inequality(x - px, px, 65536);
        }
        assert((x - px) * 65536 / px < 65536) by {
            lemma_multiply_divide_lt((x - px) * 65536, px, 65536);
        }
        assert(lg(x) < ex * 65536 + 65536);
        assert((ex + 1) * 65536 <= ey * 65536) by {
            lemma_mul_inequality(ex + 1, ey, 65536);
        }
        assert(lg(y) >= ey * 65536);
    }
}

/// Below `2^64` the fixed-point logarithm stays below `64 * 65536`.
pub proof fn lemma_lg_bound(x: int)
    requires
        1 <= x < 0x1_0000_0000_0000_0000,
    ensures
        0 <= lg(x) < 64 * 65536,
{
    lemma_lg_mono(x, x);
    lemma_pow2i_64();
    lemma_floor_log2_lt(x, 64);
    let e = floor_log2(x);
    lemma_log2_bounds(x);
    let p = pow2i(e);
    lemma_pow2i_pos(e);
    assert((x - p) * 65536 < p * 65536) by {
        vstd::arithmetic::mul::lemma_mul_strict_inequality(x - p, p, 65536);
    }
    assert((x - p) * 65536 / p < 65536) by {
        lemma_multiply_divide_lt((x - p) * 65536, p, 65536);
    }
    assert(e * 65536 <= 63 * 65536) by {
        lemma_mul_inequality(e, 63, 65536);
    }
}

/// The value of `2^64`.
pub proof fn lemma_pow2i_64()
    ensures
        pow2i(64) == 0x1_0000_0000_0000_0000,
{
    reveal_with_fuel(pow2i, 65);
}

/// Frequency mass of the candidates whose word earns pattern `p` when
/// `w` is guessed against it.
pub open spec fn mass_matching(s: Seq<Candidate>, w: Seq<char>, p: Seq<Tiles>) -> int
    decreases s.len(),
{
    if s.len() == 0 {
        0
    } else {
        mass_matching(s.drop_last(), w, p) + if pattern_matches(w, s.last().word@, p) {
            s.last().freq as int
        } else {
            0
        }
    }
}

use crate::tiles::Tiles;

/// Matching mass is bounded by the total mass.
pub proof fn lemma_mass_matching_le(s: Seq<Candidate>, w: Seq<char>, p: Seq<Tiles>)
    ensures
        0 <= mass_matching(s, w, p) <= mass(s),
    decreases s.len(),
{
    if s.len() > 0 {
        lemma_mass_matching_le(s.drop_last(), w, p);
    }
}

/// Extending the candidate prefix by one element adds its weight exactly
/// when its word earns the pattern.
pub proof fn lemma_mass_matching_take_step(s: Seq<Candidate>, w: Seq<char>, p: Seq<Tiles>, i: int)
    requires
        0 <= i < s.len(),
    ensures
        mass_matching(s.take(i + 1), w, p) == mass_matching(s.take(i), w, p) + if pattern_matches(
            w,
            s[i].word@,
            p,
        ) {
            s[i].freq as int
        } else {
            0
        },
{
    assert(s.take(i + 1).drop_last() =~= s.take(i));
    assert(s.take(i + 1).last() == s[i]);
}

/// The scaled information carried by the `k`-th feedback pattern.
pub open spec fn pattern_term(s: Seq<Candidate>, w: Seq<char>, total: int, k: int) -> int {
    let m = mass_matching(s, w, pattern_of(k));
    if m > 0 {
        m * (lg(total) - lg(m))
    } else {
        0
    }
}

/// Sum of the pattern terms for patterns `0 .. k`.
pub open spec fn score_upto(s: Seq<Candidate>, w: Seq<char>, total: int, k: int) -> int
    decreases k,
{
    if k <= 0 {
        0
    } else {
        score_upto(s, w, total, k - 1) + pattern_term(s, w, total, k - 1)
    }
}

/// The expected-information score of guessing `w` against the pool `s`,
/// scaled by the total mass and by 65536.
pub open spec fn spec_score(s: Seq<Candidate>, w: Seq<char>) -> int {
    score_upto(s, w, mass(s), 243)
}

/// Sum of the matching masses of patterns `0 .. k`.
pub open spec fn mass_split(s: Seq<Candidate>, w: Seq<char>, k: int) -> int
    decreases k,
{
    if k <= 0 {
        0
    } else {
        mass_split(s, w, k - 1) + mass_matching(s, w, pattern_of(k - 1))
    }
}

/// An empty pool attracts no mass at any pattern.
proof fn lemma_mass_split_empty(w: Seq<char>, k: int)
    requires
        k >= 0,
    ensures
        mass_split(Seq::empty(), w, k) == 0,
    decreases k,
{
    if k > 0 {
        lemma_mass_split_empty(w, k - 1);
    }
}

/// Dropping the last candidate changes the split sum by its weight for
/// the patterns that already include its own pattern index.
proof fn lemma_mass_split_step(s: Seq<Candidate>, w: Seq<char>, k: int)
    requires
        s.len() > 0,
        w.len() == 5,
        s.last().word@.len() == 5,
        0 <= k <= 243,
    ensures
        mass_split(s, w, k) == mass_split(s.drop_last(), w, k) + if pattern_index(
            spec_compute(w, s.last().word@),
        ) < k {
            s.last().freq as int
        } else {
            0
        },
    decreases k,
{
    let cp = spec_compute(w, s.last().word@);
    lemma_spec_compute_len(w, s.last().word@);
    lemma_pattern_of_index(cp);
    if k > 0 {
        lemma_mass_split_step(s, w, k - 1);
        if pattern_matches(w, s.last().word@, pattern_of(k - 1)) {
            assert(cp == pattern_of(k - 1));
            assert(pattern_of(pattern_index(cp)) == cp);
            crate::tiles::lemma_pattern_of_injective(pattern_index(cp), k - 1);
        } else {
            assert(cp != pattern_of(k - 1));
            if pattern_index(cp) == k - 1 {
                assert(pattern_of(pattern_index(cp)) == cp);
            }
        }
    }
}

/// Every candidate's word earns exactly one of the 243 patterns, so the
/// masses of all patterns add up to the pool's total mass.
pub proof fn lemma_mass_partition(s: Seq<Candidate>, w: Seq<char>)
    requires
        all_words_wf(s),
        w.len() == 5,
    ensures
        mass_split(s, w, 243) == mass(s),
    decreases s.len(),
{
    if s.len() == 0 {
        lemma_mass_split_empty(w, 243);
        assert(s =~= Seq::<Candidate>::empty());
    } else {
        let d = s.drop_last();
        assert(all_words_wf(d)) by {
            assert forall|i: int| 0 <= i < d.len() implies (#[trigger] d[i]).word@.len() == 5 by {
                assert(d[i] == s[i]);
            }
        }
        lemma_mass_partition(d, w);
        assert(s[s.len() - 1].word@.len() == 5);
        lemma_mass_split_step(s, w, 243);
        let cp = spec_compute(w, s.last().word@);
        lemma_spec_compute_len(w, s.last().word@);
        lemma_pattern_of_index(cp);
    }
}

/// Partial split sums never exceed the total mass.
pub proof fn lemma_mass_split_le(s: Seq<Candidate>, w: Seq<char>, k: int)
    requires
        all_words_wf(s),
        w.len() == 5,
        0 <= k <= 243,
    ensures
        0 <= mass_split(s, w, k) <= mass(s),
{
    lemma_mass_partition(s, w);
    lemma_mass_split_mono(s, w, 0, k);
    lemma_mass_split_mono(s, w, k, 243);
}

/// The split sum grows with the number of patterns included.
proof fn lemma_mass_split_mono(s: Seq<Candidate>, w: Seq<char>, k1: int, k2: int)
    requires
        0 <= k1 <= k2,
    ensures
        mass_split(s, w, k1) <= mass_split(s, w, k2),
    decreases k2 - k1,
{
    if k1 < k2 {
        lemma_mass_split_mono(s, w, k1, k2 - 1);
        lemma_mass_matching_le(s, w, pattern_of(k2 - 1));
        vstd::arithmetic::mul::lemma_mul_nonnegative(mass_matching(s, w, pattern_of(k2 - 1)), 1);
    }
}

/// Partial scores are non-negative and bounded by `lg(total)` times the
/// mass accounted for so far.
pub proof fn lemma_score_upto_bounds(s: Seq<Candidate>, w: Seq<char>, k: int)
    requires
        0 <= k,
    ensures
        0 <= score_upto(s, w, mass(s), k) <= lg(mass(s)) * mass_split(s, w, k),
    decreases k,
{
    let total = mass(s);
    crate::pool::lemma_mass_nonneg(s);
    if k > 0 {
        lemma_score_upto_bounds(s, w, k - 1);
        let m = mass_matching(s, w, pattern_of(k - 1));
        lemma_mass_matching_le(s, w, pattern_of(k - 1));
        if m > 0 {
            lemma_lg_mono(m, total);
            assert(0 <= lg(total) - lg(m));
            lemma_mul_nonnegative(m, lg(total) - lg(m));
            assert(m * (lg(total) - lg(m)) <= m * lg(total)) by {
                lemma_mul_inequality(lg(total) - lg(m), lg(total), m);
                vstd::arithmetic::mul::lemma_mul_is_commutative(lg(total) - lg(m), m);
                vstd::arithmetic::mul::lemma_mul_is_commutative(lg(total), m);
            }
            assert(lg(total) * mass_split(s, w, k - 1) + m * lg(total) == lg(total) * mass_split(
                s,
                w,
                k,
            )) by {
                vstd::arithmetic::mul::lemma_mul_is_distributive_add(
                    lg(total),
                    mass_split(s, w, k - 1),
                    m,
                );
                vstd::arithmetic::mul::lemma_mul_is_commutative(m, lg(total));
            }
        } else {
            assert(mass_split(s, w, k) == mass_split(s, w, k - 1) + m);
            assert(m >= 0) by {
                lemma_mass_matching_le(s, w, pattern_of(k - 1));
            }
            assert(m == 0);
        }
    }
}

/// The score of any word is non-negative and at most `lg` of the total
/// mass, scaled by that mass: the expected information of one guess can
/// never exceed the logarithm of the candidate mass.
pub proof fn lemma_score_bounds(s: Seq<Candidate>, w: Seq<char>)
    requires
        all_words_wf(s),
        w.len() == 5,
    ensures
        0 <= spec_score(s, w) <= mass(s) * lg(mass(s)),
{
    lemma_score_upto_bounds(s, w, 243);
    lemma_mass_split_le(s, w, 243);
    lemma_mass_partition(s, w);
    crate::pool::lemma_mass_nonneg(s);
    vstd::arithmetic::mul::lemma_mul_is_commutative(lg(mass(s)), mass(s));
}

/// Fixed-point base-two logarithm of a positive machine word.
pub fn lg_exec(x: u64) -> (r: u64)
    requires
        x >= 1,
    ensures
        r == lg(x as int),
{
    let mut e: u64 = 0;
    let mut p: u64 = 1;
    while p <= x / 2
        invariant
            x >= 1,
            1 <= p <= x,
            p == pow2i(e as int),
            0 <= e <= 63,
        decreases x - p,
    {
        proof {
            lemma_pow2i_64();
            lemma_pow2i_mono(e as int + 1, 64);
            assert(2 * p == pow2i(e as int + 1));
            lemma_fundamental_div_mod(x as int, 2);
            if e + 1 > 63 {
                lemma_pow2i_mono(64, e as int + 1);
            }
        }
        p = 2 * p;
        e = e + 1;
    }
    proof {
        lemma_fundamental_div_mod(x as int, 2);
        assert(x < 2 * p);
        assert(pow2i(e as int) <= x < pow2i(e as int + 1));
        lemma_log2_unique(x as int, e as int);
        lemma_mul_nonnegative(x as int - p as int, 65536);
        assert((x - p) * 65536 < p * 65536) by {
            vstd::arithmetic::mul::lemma_mul_strict_inequality(x as int - p as int, p as int, 65536);
        }
        assert((x - p) * 65536 / (p as int) < 65536) by {
            lemma_multiply_divide_lt((x as int - p as int) * 65536, p as int, 65536);
        }
        lemma_div_pos_is_pos((x as int - p as int) * 65536, p as int);
    }
    let frac = (((x - p) as u128 * 65536) / (p as u128)) as u64;
    e * 65536 + frac
}

/// A value bracketed between consecutive powers of two determines its
/// integer logarithm.
proof fn lemma_log2_unique(x: int, e: int)
    requires
        x >= 1,
        e >= 0,
        pow2i(e) <= x < pow2i(e + 1),
    ensures
        floor_log2(x) == e,
    decreases e,
{
    if e == 0 {
        assert(x < 2);
    } else {
        assert(x >= 2) by {
            lemma_pow2i_mono(1, e);
        }
        let h = x / 2;
        lemma_fundamental_div_mod(x, 2);
        assert(pow2i(e) == 2 * pow2i(e - 1));
        assert(pow2i(e + 1) == 2 * pow2i(e));
        assert(2 * pow2i(e - 1) <= 2 * h + x % 2);
        assert(0 <= x % 2 < 2) by {
            vstd::arithmetic::div_mod::lemma_mod_bound(x, 2);
        }
        assert(pow2i(e - 1) <= h) by {
            assert(2 * pow2i(e - 1) <= 2 * h + 1);
        }
        assert(h < pow2i(e)) by {
            assert(2 * h <= x);
        }
        lemma_pow2i_pos(e - 1);
        lemma_log2_unique(h, e - 1);
    }
}

} // verus!
