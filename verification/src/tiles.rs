//! The feedback engine: per-letter feedback for a guess against an answer.
//!
//! `compute` colours each guess position Green, Yellow or Grey following the
//! two-pass rule of the game: first every exact positional match turns Green
//! and consumes its answer slot; then every remaining guess letter scans the
//! answer left to right for the first unconsumed slot holding the same
//! letter, turning Yellow and consuming it, or Grey when none is left.  The
//! greedy left-to-right consumption is the tie-break for duplicate letters.

use vstd::prelude::*;

verus! {

use vstd::string::StrSliceExecFns;

/// Per-position feedback for one letter of a guess.
#[derive(Clone, Copy, Debug, PartialEq, Eq, Structural)]
pub enum Tiles {
    /// Correct letter in the correct position.
    Green,
    /// Letter occurs elsewhere in the answer.
    Yellow,
    /// Letter absent (after duplicates are accounted for).
    Grey,
}

/// Tiles after the first pass: Green wherever guess and answer agree.
pub open spec fn initial_tiles(g: Seq<char>, a: Seq<char>) -> Seq<Tiles> {
    Seq::new(g.len(), |i: int| if g[i] == a[i] { Tiles::Green } else { Tiles::Grey })
}

/// Answer slots consumed by the first pass: exactly the positional matches.
pub open spec fn initial_used(g: Seq<char>, a: Seq<char>) -> Seq<bool> {
    Seq::new(a.len(), |j: int| g[j] == a[j])
}

/// Index of the first unconsumed answer slot at or after `j` holding `c`.
pub open spec fn first_free(a: Seq<char>, used: Seq<bool>, c: char, j: int) -> Option<int>
    decreases a.len() - j,
{
    if j < 0 || j >= a.len() {
        None
    } else if !used[j] && a[j] == c {
        Some(j)
    } else {
        first_free(a, used, c, j + 1)
    }
}

/// The second pass from position `i` on: every non-Green guess position
/// consumes the first free answer slot with its letter (Yellow), or stays
/// Grey.  Returns the final tiles together with the consumed slots.
pub open spec fn leftover_pass(
    g: Seq<char>,
    a: Seq<char>,
    tiles: Seq<Tiles>,
    used: Seq<bool>,
    i: int,
) -> (Seq<Tiles>, Seq<bool>)
    decreases g.len() - i,
{
    if i < 0 || i >= g.len() {
        (tiles, used)
    } else if tiles[i] == Tiles::Green {
        leftover_pass(g, a, tiles, used, i + 1)
    } else {
        match first_free(a, used, g[i], 0) {
            Some(j) => leftover_pass(g, a, tiles.update(i, Tiles::Yellow), used.update(j, true), i + 1),
            None => leftover_pass(g, a, tiles, used, i + 1),
        }
    }
}

/// The feedback pattern for guess `g` against answer `a`.
pub open spec fn spec_compute(g: Seq<char>, a: Seq<char>) -> Seq<Tiles> {
    leftover_pass(g, a, initial_tiles(g, a), initial_used(g, a), 0).0
}

/// A word is consistent with pattern `p` observed for guess `g` exactly
/// when guessing `g` against it would produce `p`.
pub open spec fn pattern_matches(g: Seq<char>, c: Seq<char>, p: Seq<Tiles>) -> bool {
    spec_compute(g, c) == p
}

/// The equivalence law behind `Tiles::matches`: a word is consistent
/// with an observed pattern exactly when recomputing the feedback for it
/// yields that pattern.  `matches` decides the left-hand side, `compute`
/// returns the right-hand side's pattern.
pub proof fn lemma_matches_is_compute_equality(g: Seq<char>, c: Seq<char>, p: Seq<Tiles>)
    ensures
        pattern_matches(g, c, p) <==> (spec_compute(g, c) == p),
{
}

/// The tile encoded by one base-three digit.
pub open spec fn tile_of_trit(t: int) -> Tiles {
    if t == 0 {
        Tiles::Green
    } else if t == 1 {
        Tiles::Grey
    } else {
        Tiles::Yellow
    }
}

/// Base-three digit of `k` at position `j`; position 0 varies slowest.
pub open spec fn trit(k: int, j: int) -> int {
    if j == 0 {
        (k / 81) % 3
    } else if j == 1 {
        (k / 27) % 3
    } else if j == 2 {
        (k / 9) % 3
    } else if j == 3 {
        (k / 3) % 3
    } else {
        k % 3
    }
}

/// The `k`-th of the 243 feedback patterns, for `0 <= k < 243`.
pub open spec fn pattern_of(k: int) -> Seq<Tiles> {
    Seq::new(5, |j: int| tile_of_trit(trit(k, j)))
}

/// The base-three digit encoding one tile; inverse of `tile_of_trit`.
pub open spec fn trit_of_tile(t: Tiles) -> int {
    match t {
        Tiles::Green => 0,
        Tiles::Grey => 1,
        Tiles::Yellow => 2,
    }
}

/// The index whose pattern a five-tile sequence is; inverse of
/// `pattern_of`.
pub open spec fn pattern_index(p: Seq<Tiles>) -> int {
    81 * trit_of_tile(p[0]) + 27 * trit_of_tile(p[1]) + 9 * trit_of_tile(p[2]) + 3 * trit_of_tile(
        p[3],
    ) + trit_of_tile(p[4])
}

/// Every five-tile sequence is one of the 243 patterns: `pattern_of`
/// inverts `pattern_index`.
pub proof fn lemma_pattern_of_index(p: Seq<Tiles>)
    requires
        p.len() == 5,
    ensures
        0 <= pattern_index(p) < 243,
        pattern_of(pattern_index(p)) == p,
{
    let t0 = trit_of_tile(p[0]);
    let t1 = trit_of_tile(p[1]);
    let t2 = trit_of_tile(p[2]);
    let t3 = trit_of_tile(p[3]);
    let t4 = trit_of_tile(p[4]);
    let n = pattern_index(p);
    assert(0 <= t0 <= 2 && 0 <= t1 <= 2 && 0 <= t2 <= 2 && 0 <= t3 <= 2 && 0 <= t4 <= 2);
    assert(n == 81 * t0 + 27 * t1 + 9 * t2 + 3 * t3 + t4);
    assert(n / 81 == t0 && n % 81 == 27 * t1 + 9 * t2 + 3 * t3 + t4) by {
        vstd::arithmetic::div_mod::lemma_fundamental_div_mod_converse(
            n,
            81,
            t0,
            27 * t1 + 9 * t2 + 3 * t3 + t4,
        );
    }
    assert(n / 27 == 3 * t0 + t1 && n % 27 == 9 * t2 + 3 * t3 + t4) by {
        vstd::arithmetic::div_mod::lemma_fundamental_div_mod_converse(
            n,
            27,
            3 * t0 + t1,
            9 * t2 + 3 * t3 + t4,
        );
    }
    assert(n / 9 == 9 * t0 + 3 * t1 + t2 && n % 9 == 3 * t3 + t4) by {
        vstd::arithmetic::div_mod::lemma_fundamental_div_mod_converse(
            n,
            9,
            9 * t0 + 3 * t1 + t2,
            3 * t3 + t4,
        );
    }
    assert(n / 3 == 27 * t0 + 9 * t1 + 3 * t2 + t3 && n % 3 == t4) by {
        vstd::arithmetic::div_mod::lemma_fundamental_div_mod_converse(
            n,
            3,
            27 * t0 + 9 * t1 + 3 * t2 + t3,
            t4,
        );
    }
    assert((n / 81) % 3 == t0) by {
        vstd::arithmetic::div_mod::lemma_small_mod(t0 as nat, 3);
    }
    assert((n / 27) % 3 == t1) by {
        vstd::arithmetic::div_mod::lemma_fundamental_div_mod_converse(3 * t0 + t1, 3, t0, t1);
    }
    assert((n / 9) % 3 == t2) by {
        vstd::arithmetic::div_mod::lemma_fundamental_div_mod_converse(
            9 * t0 + 3 * t1 + t2,
            3,
            3 * t0 + t1,
            t2,
        );
    }
    assert((n / 3) % 3 == t3) by {
        vstd::arithmetic::div_mod::lemma_fundamental_div_mod_converse(
            27 * t0 + 9 * t1 + 3 * t2 + t3,
            3,
            9 * t0 + 3 * t1 + t2,
            t3,
        );
    }
    assert forall|j: int| 0 <= j < 5 implies pattern_of(n)[j] == p[j] by {
        assert(pattern_of(n)[j] == tile_of_trit(trit(n, j)));
    }
    assert(pattern_of(n) =~= p);
}

impl Tiles {
    /// Colour each position of `guess` against `answer`.
    pub fn compute(guess: &str, answer: &str) -> (tiles: [Tiles; 5])
        requires
            guess@.len() == 5,
            answer@.len() == 5,
        ensures
            tiles@ == spec_compute(guess@, answer@),
    {
        let ghost g = guess@;
        let ghost a = answer@;
        let mut used: [bool; 5] = [false, false, false, false, false];
        let mut tiles: [Tiles; 5] = [
            Tiles::Grey,
            Tiles::Grey,
            Tiles::Grey,
            Tiles::Grey,
            Tiles::Grey,
        ];

        // First pass: mark exact matches Green and consume their slots.
        for i in 0..5usize
            invariant
                guess@ == g,
                answer@ == a,
                g.len() == 5,
                a.len() == 5,
                used@.len() == 5,
                tiles@.len() == 5,
                forall|j: int| 0 <= j < i ==> tiles@[j] == initial_tiles(g, a)[j],
                forall|j: int| 0 <= j < i ==> used@[j] == initial_used(g, a)[j],
                forall|j: int| i <= j < 5 ==> tiles@[j] == Tiles::Grey && used@[j] == false,
        {
            if guess.get_char(i) == answer.get_char(i) {
                tiles[i] = Tiles::Green;
                used[i] = true;
            }
        }
        proof {
            assert(tiles@ =~= initial_tiles(g, a));
            assert(used@ =~= initial_used(g, a));
        }

        // Second pass: non-Green positions consume the first free slot
        // holding their letter, left to right.
        for i in 0..5usize
            invariant
                guess@ == g,
                answer@ == a,
                g.len() == 5,
                a.len() == 5,
                used@.len() == 5,
                tiles@.len() == 5,
                leftover_pass(g, a, tiles@, used@, i as int) == leftover_pass(
                    g,
                    a,
                    initial_tiles(g, a),
                    initial_used(g, a),
                    0,
                ),
        {
            let ghost tiles_in = tiles@;
            let ghost used_in = used@;
            if !matches!(tiles[i], Tiles::Green) {
                let gi = guess.get_char(i);
                let mut found: usize = 5;
                let mut j: usize = 0;
                while j < 5
                    invariant
                        answer@ == a,
                        a.len() == 5,
                        used@ == used_in,
                        used@.len() == 5,
                        0 <= j <= 5,
                        found == 5 || (0 <= found < j && first_free(a, used_in, gi, 0) == Some(
                            found as int,
                        )),
                        found == 5 ==> first_free(a, used_in, gi, 0) == first_free(
                            a,
                            used_in,
                            gi,
                            j as int,
                        ),
                    decreases 5 - j,
                {
                    if found == 5 && !used[j] && answer.get_char(j) == gi {
                        found = j;
                    }
                    j += 1;
                }
                if found < 5 {
                    tiles[i] = Tiles::Yellow;
                    used[found] = true;
                    proof {
                        assert(tiles@ =~= tiles_in.update(i as int, Tiles::Yellow));
                        assert(used@ =~= used_in.update(found as int, true));
                    }
                } else {
                    proof {
                        assert(first_free(a, used_in, gi, 0) is None);
                    }
                }
            }
            proof {
                assert(leftover_pass(g, a, tiles@, used@, i + 1) == leftover_pass(
                    g,
                    a,
                    tiles_in,
                    used_in,
                    i as int,
                ));
            }
        }
        tiles
    }

    /// Decide whether guessing `guess` against `answer` would produce
    /// exactly `pattern`, without allocating a fresh pattern for the caller.
    pub fn matches(guess: &str, answer: &str, pattern: &[Tiles; 5]) -> (r: bool)
        requires
            guess@.len() == 5,
            answer@.len() == 5,
        ensures
            r == pattern_matches(guess@, answer@, pattern@),
    {
        let computed = Self::compute(guess, answer);
        let mut same = true;
        for i in 0..5usize
            invariant
                computed@ == spec_compute(guess@, answer@),
                computed@.len() == 5,
                pattern@.len() == 5,
                same == (forall|j: int| 0 <= j < i ==> computed@[j] == pattern@[j]),
        {
            same = same && computed[i] == pattern[i];
        }
        proof {
            if same {
                assert(computed@ =~= pattern@);
            }
        }
        same
    }

    /// Every one of the 243 feedback patterns, each exactly once, in the
    /// order given by `pattern_of`.  The result is freshly built on every
    /// call, so consuming it never affects a later enumeration.
    pub fn permutations() -> (v: Vec<[Tiles; 5]>)
        ensures
            v@.len() == 243,
            forall|k: int| 0 <= k < 243 ==> (#[trigger] v@[k])@ == pattern_of(k),
    {
        let mut v: Vec<[Tiles; 5]> = Vec::new();
        let mut k: usize = 0;
        while k < 243
            invariant
                0 <= k <= 243,
                v@.len() == k,
                forall|m: int| 0 <= m < k ==> (#[trigger] v@[m])@ == pattern_of(m),
            decreases 243 - k,
        {
            let d0 = k / 81;
            let r0 = k % 81;
            let d1 = r0 / 27;
            let r1 = r0 % 27;
            let d2 = r1 / 9;
            let r2 = r1 % 9;
            let d3 = r2 / 3;
            let d4 = r2 % 3;
            proof {
                lemma_digit_split(k as int);
            }
            let pat = [
                tile_of_digit(d0),
                tile_of_digit(d1),
                tile_of_digit(d2),
                tile_of_digit(d3),
                tile_of_digit(d4),
            ];
            proof {
                assert(pat@ =~= pattern_of(k as int));
            }
            v.push(pat);
            k += 1;
        }
        v
    }
}

/// The tile for one executable base-three digit.
fn tile_of_digit(d: usize) -> (t: Tiles)
    ensures
        t == tile_of_trit(d as int),
{
    if d == 0 {
        Tiles::Green
    } else if d == 1 {
        Tiles::Grey
    } else {
        Tiles::Yellow
    }
}

/// Peeling remainders digit by digit agrees with the direct quotients that
/// `trit` takes.
proof fn lemma_digit_split(k: int)
    requires
        0 <= k < 243,
    ensures
        k / 81 == trit(k, 0),
        (k % 81) / 27 == trit(k, 1),
        ((k % 81) % 27) / 9 == trit(k, 2),
        (((k % 81) % 27) % 9) / 3 == trit(k, 3),
        (((k % 81) % 27) % 9) % 3 == trit(k, 4),
{
    lemma_mod_div_digit(k, 81);
    lemma_mod_div_digit(k, 27);
    lemma_mod_div_digit(k, 9);
    lemma_mod_div_digit(k, 3);
    assert((k % 81) % 27 == k % 27) by {
        vstd::arithmetic::div_mod::lemma_mod_mod(k, 27, 3);
    }
    assert((k % 27) % 9 == k % 9) by {
        vstd::arithmetic::div_mod::lemma_mod_mod(k, 9, 3);
    }
    assert((k % 9) % 3 == k % 3) by {
        vstd::arithmetic::div_mod::lemma_mod_mod(k, 3, 3);
    }
    assert(k / 81 == (k / 81) % 3) by {
        vstd::arithmetic::div_mod::lemma_mod_bound(k, 81);
        vstd::arithmetic::div_mod::lemma_small_mod((k / 81) as nat, 3);
    }
}

/// Dividing the remainder by the next smaller power extracts the base-three
/// digit: `(k % (3 n)) / n == (k / n) % 3`.
proof fn lemma_mod_div_digit(k: int, n: int)
    requires
        0 <= k,
        1 <= n,
    ensures
        (k % (3 * n)) / n == (k / n) % 3,
{
    let q = k / (3 * n);
    let r = k % (3 * n);
    vstd::arithmetic::div_mod::lemma_fundamental_div_mod(k, 3 * n);
    assert(k == r + (3 * q) * n) by (nonlinear_arith)
        requires
            k == 3 * n * q + r,
    ;
    vstd::arithmetic::div_mod::lemma_div_denominator(k, n, 3);
    assert((k / n) / 3 == q);
    vstd::arithmetic::div_mod::lemma_fundamental_div_mod(k / n, 3);
    assert((k / n) % 3 == k / n - 3 * q);
    assert(r / n + 3 * q == (r + (3 * q) * n) / n) by {
        vstd::arithmetic::div_mod::lemma_hoist_over_denominator(r, 3 * q, n as nat);
    }
}

/// Every index below 243 is recovered from its five digits, so the digits
/// determine the index.
proof fn lemma_trit_reconstruct(k: int)
    requires
        0 <= k < 243,
    ensures
        k == 81 * trit(k, 0) + 27 * trit(k, 1) + 9 * trit(k, 2) + 3 * trit(k, 3) + trit(k, 4),
{
    vstd::arithmetic::div_mod::lemma_fundamental_div_mod(k, 3);
    vstd::arithmetic::div_mod::lemma_fundamental_div_mod(k / 3, 3);
    vstd::arithmetic::div_mod::lemma_fundamental_div_mod(k / 9, 3);
    vstd::arithmetic::div_mod::lemma_fundamental_div_mod(k / 27, 3);
    vstd::arithmetic::div_mod::lemma_div_denominator(k, 3, 3);
    vstd::arithmetic::div_mod::lemma_div_denominator(k, 9, 3);
    vstd::arithmetic::div_mod::lemma_div_denominator(k, 27, 3);
    assert(k / 81 == (k / 81) % 3) by {
        vstd::arithmetic::div_mod::lemma_mod_bound(k, 81);
        vstd::arithmetic::div_mod::lemma_small_mod((k / 81) as nat, 3);
    }
}

/// No two of the 243 indices encode the same pattern.
pub proof fn lemma_pattern_of_injective(k1: int, k2: int)
    requires
        0 <= k1 < 243,
        0 <= k2 < 243,
        pattern_of(k1) == pattern_of(k2),
    ensures
        k1 == k2,
{
    assert forall|j: int| 0 <= j < 5 implies trit(k1, j) == trit(k2, j) by {
        assert(pattern_of(k1)[j] == pattern_of(k2)[j]);
        assert(pattern_of(k1)[j] == tile_of_trit(trit(k1, j)));
        assert(pattern_of(k2)[j] == tile_of_trit(trit(k2, j)));
        assert(tile_of_trit(trit(k1, j)) == tile_of_trit(trit(k2, j)));
        lemma_trit_in_range(k1, j);
        lemma_trit_in_range(k2, j);
        let t1 = trit(k1, j);
        let t2 = trit(k2, j);
        if t1 != t2 {
            assert(tile_of_trit(0) == Tiles::Green);
            assert(tile_of_trit(1) == Tiles::Grey);
            assert(tile_of_trit(2) == Tiles::Yellow);
            assert(false);
        }
    }
    lemma_trit_reconstruct(k1);
    lemma_trit_reconstruct(k2);
}

/// Each digit of a non-negative index lies in `0..3`.
proof fn lemma_trit_in_range(k: int, j: int)
    requires
        0 <= k,
    ensures
        0 <= trit(k, j) < 3,
{
    vstd::arithmetic::div_mod::lemma_mod_bound(k / 81, 3);
    vstd::arithmetic::div_mod::lemma_mod_bound(k / 27, 3);
    vstd::arithmetic::div_mod::lemma_mod_bound(k / 9, 3);
    vstd::arithmetic::div_mod::lemma_mod_bound(k / 3, 3);
    vstd::arithmetic::div_mod::lemma_mod_bound(k, 3);
    vstd::arithmetic::div_mod::lemma_div_pos_is_pos(k, 81);
    vstd::arithmetic::div_mod::lemma_div_pos_is_pos(k, 27);
    vstd::arithmetic::div_mod::lemma_div_pos_is_pos(k, 9);
    vstd::arithmetic::div_mod::lemma_div_pos_is_pos(k, 3);
}

/// The patterns that `Tiles::permutations` enumerates are pairwise
/// distinct: each of the 243 values occurs exactly once.
pub proof fn lemma_permutations_distinct(v: Seq<[Tiles; 5]>)
    requires
        v.len() == 243,
        forall|k: int| 0 <= k < 243 ==> (#[trigger] v[k])@ == pattern_of(k),
    ensures
        forall|k1: int, k2: int|
            0 <= k1 < 243 && 0 <= k2 < 243 && k1 != k2 ==> v[k1] != v[k2],
{
    assert forall|k1: int, k2: int|
        0 <= k1 < 243 && 0 <= k2 < 243 && k1 != k2 implies v[k1] != v[k2] by {
        if v[k1] == v[k2] {
            lemma_pattern_of_injective(k1, k2);
        }
    }
}

/// A position is Green exactly when guess and answer agree there: the
/// second pass neither adds nor removes Green tiles.
pub proof fn lemma_green_iff(g: Seq<char>, a: Seq<char>, i: int)
    requires
        g.len() == a.len(),
        0 <= i < g.len(),
    ensures
        (spec_compute(g, a)[i] == Tiles::Green) <==> (g[i] == a[i]),
{
    lemma_leftover_pass_green(g, a, initial_tiles(g, a), initial_used(g, a), 0);
}

/// The computed pattern always has one tile per guess position.
pub proof fn lemma_spec_compute_len(g: Seq<char>, a: Seq<char>)
    ensures
        spec_compute(g, a).len() == g.len(),
{
    lemma_leftover_pass_green(g, a, initial_tiles(g, a), initial_used(g, a), 0);
}

/// The second pass keeps the tile count and the set of Green positions.
proof fn lemma_leftover_pass_green(
    g: Seq<char>,
    a: Seq<char>,
    tiles: Seq<Tiles>,
    used: Seq<bool>,
    i: int,
)
    requires
        tiles.len() == g.len(),
    ensures
        leftover_pass(g, a, tiles, used, i).0.len() == tiles.len(),
        forall|m: int|
            0 <= m < tiles.len() ==> ((#[trigger] leftover_pass(g, a, tiles, used, i).0[m]
                == Tiles::Green) <==> (tiles[m] == Tiles::Green)),
    decreases g.len() - i,
{
    if i < 0 || i >= g.len() {
    } else if tiles[i] == Tiles::Green {
        lemma_leftover_pass_green(g, a, tiles, used, i + 1);
    } else {
        match first_free(a, used, g[i], 0) {
            Some(j) => {
                lemma_leftover_pass_green(g, a, tiles.update(i, Tiles::Yellow), used.update(j, true), i + 1);
            },
            None => {
                lemma_leftover_pass_green(g, a, tiles, used, i + 1);
            },
        }
    }
}

} // verus!
