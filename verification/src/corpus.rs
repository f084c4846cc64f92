//! Building the dictionary from an n-gram corpus.
//!
//! The corpus arrives as gzip-compressed text; each useful line starts
//! with a five-letter lowercase word, an optional `_TAG`, a tab, and then
//! whitespace-separated year groups of the shape `YYYY,count,volumes`.
//! This module decompresses archives, recognises those lines, sums their
//! per-year counts, accumulates the sums into a word list, and prepares
//! the list for writing: counts rescaled to fit a 32-bit range, entries
//! sorted by word, and the whole list laid out as `word count` lines.

use vstd::prelude::*;

verus! {

use crate::dict::{
    all_digits, digits_val, is_digit, is_space_exec, lemma_digits_val_grows,
    lemma_digits_val_nonneg, skip_spaces, spec_lines, token_end,
};
use crate::pool::Candidate;
use vstd::string::StrSliceExecFns;

/// Why corpus processing failed; every failure is fatal.
#[derive(Clone, Copy, Debug, PartialEq, Eq, Structural)]
pub enum CorpusError {
    /// The archive is not a gzip stream this library can decode.
    BadArchive,
    /// This line matches the corpus shape but a year group in it does
    /// not parse.
    BadLine { line: usize },
    /// Accumulating this line overflows a word's count.
    Overflow { line: usize },
}

/// What decompressing a gzip stream yields; the result depends on the
/// input bytes alone.
pub uninterp spec fn gunzip_of(data: Seq<u8>) -> Option<Seq<u8>>;

/// Relies on `flate2::read::GzDecoder` (driven through
/// `std::io::Read::read_to_end`): decodes one gzip stream; success and
/// output depend on the input bytes alone.
#[verifier::external_body]
fn gunzip(data: &[u8]) -> (r: Result<Vec<u8>, ()>)
    ensures
        r matches Ok(v) ==> gunzip_of(data@) == Some(v@),
        r is Err ==> gunzip_of(data@) is None,
{
    let mut decoder = flate2::read::GzDecoder::new(data);
    let mut out = Vec::new();
    match std::io::Read::read_to_end(&mut decoder, &mut out) {
        Ok(_) => Ok(out),
        Err(_) => Err(()),
    }
}

/// Decompress one corpus archive held in memory.
pub fn decompress(data: &[u8]) -> (r: Result<Vec<u8>, CorpusError>)
    ensures
        r matches Ok(v) ==> gunzip_of(data@) == Some(v@),
        r matches Err(e) ==> gunzip_of(data@) is None && e == CorpusError::BadArchive,
{
    match gunzip(data) {
        Ok(v) => Ok(v),
        Err(_) => Err(CorpusError::BadArchive),
    }
}

/// A lowercase letter.
pub open spec fn is_lower(c: char) -> bool {
    97 <= c as u32 <= 122
}

/// A letter of either case.
pub open spec fn is_alpha(c: char) -> bool {
    is_lower(c) || (65 <= c as u32 <= 90)
}

/// The first position at or after `i` holding a non-letter, or the end.
pub open spec fn alpha_end(s: Seq<char>, i: int) -> int
    decreases s.len() - i,
{
    if i < 0 || i >= s.len() {
        s.len() as int
    } else if is_alpha(s[i]) {
        alpha_end(s, i + 1)
    } else {
        i
    }
}

/// The first position at or after `i` holding a comma, or the end.
pub open spec fn comma_pos(s: Seq<char>, i: int) -> int
    decreases s.len() - i,
{
    if i < 0 || i >= s.len() {
        s.len() as int
    } else if s[i] == ',' {
        i
    } else {
        comma_pos(s, i + 1)
    }
}

/// Where the word and its optional `_TAG` end.
pub open spec fn tag_end(s: Seq<char>) -> int {
    if s.len() > 5 && s[5] == '_' {
        alpha_end(s, 6)
    } else {
        5
    }
}

/// A line the corpus scan uses: five lowercase letters, an optional
/// underscore tag of letters, a tab, and four digits opening the first
/// year group.
pub open spec fn corpus_line_shape(s: Seq<char>) -> bool {
    &&& s.len() >= 5
    &&& (forall|i: int| 0 <= i < 5 ==> is_lower(#[trigger] s[i]))
    &&& (s.len() > 5 && s[5] == '_' ==> alpha_end(s, 6) > 6)
    &&& tag_end(s) < s.len()
    &&& s[tag_end(s)] == '\t'
    &&& tag_end(s) + 5 <= s.len()
    &&& (forall|i: int| tag_end(s) + 1 <= i < tag_end(s) + 5 ==> is_digit(#[trigger] s[i]))
}

/// The count carried by one year group `YYYY,count,volumes`: the digits
/// between position five and the first comma after it.
pub open spec fn group_value(tok: Seq<char>) -> Result<int, ()> {
    if tok.len() <= 5 {
        Err(())
    } else {
        let c = comma_pos(tok, 5);
        if c >= tok.len() {
            Err(())
        } else {
            let digits = tok.subrange(5, c);
            if digits.len() == 0 || !all_digits(digits) || digits_val(digits) > u64::MAX {
                Err(())
            } else {
                Ok(digits_val(digits))
            }
        }
    }
}

/// Sum of the year-group counts in the tokens at or after position `i`.
/// The two `Ok(0)` guards are never reached: the scans stay in bounds.
pub open spec fn groups_sum(s: Seq<char>, i: int) -> Result<int, ()>
    decreases s.len() - i,
{
    let t0 = skip_spaces(s, i);
    if t0 < i || t0 >= s.len() {
        Ok(0)
    } else {
        let t1 = token_end(s, t0);
        if t1 <= t0 || t1 > s.len() {
            Ok(0)
        } else {
            match group_value(s.subrange(t0, t1)) {
                Err(e) => Err(e),
                Ok(v) => match groups_sum(s, t1) {
                    Err(e) => Err(e),
                    Ok(rest) => if v + rest > u64::MAX {
                        Err(())
                    } else {
                        Ok(v + rest)
                    },
                },
            }
        }
    }
}

/// The same sum carried out with a running accumulator, as the scan
/// performs it; kept in step with `groups_sum` by `lemma_groups_rem`.
pub open spec fn groups_rem(s: Seq<char>, i: int, acc: int) -> Result<int, ()>
    decreases s.len() - i,
{
    let t0 = skip_spaces(s, i);
    if t0 < i || t0 >= s.len() {
        Ok(acc)
    } else {
        let t1 = token_end(s, t0);
        if t1 <= t0 || t1 > s.len() {
            Ok(acc)
        } else {
            match group_value(s.subrange(t0, t1)) {
                Err(e) => Err(e),
                Ok(v) => if acc + v > u64::MAX {
                    Err(())
                } else {
                    groups_rem(s, t1, acc + v)
                },
            }
        }
    }
}

/// Whatever `groups_sum` yields lies between zero and the machine word.
proof fn lemma_groups_sum_range(s: Seq<char>, i: int)
    requires
        0 <= i <= s.len(),
    ensures
        groups_sum(s, i) matches Ok(w) ==> 0 <= w <= u64::MAX,
    decreases s.len() - i,
{
    let t0 = skip_spaces(s, i);
    lemma_scan_bounds(s, i);
    if !(t0 < i || t0 >= s.len()) {
        lemma_scan_bounds(s, t0);
        let t1 = token_end(s, t0);
        if t1 > t0 && t1 <= s.len() {
            lemma_groups_sum_range(s, t1);
            match group_value(s.subrange(t0, t1)) {
                Err(_) => {},
                Ok(v) => {
                    assert(v >= 0) by {
                        let digits = s.subrange(t0, t1).subrange(
                            5,
                            comma_pos(s.subrange(t0, t1), 5),
                        );
                        lemma_digits_val_nonneg(digits);
                    }
                },
            }
        }
    }
}

/// Accumulating left to right agrees with the recursive sum: starting
/// from `acc`, the scan ends with `acc` plus the sum, or fails exactly
/// when the sum fails or leaves the machine word.
proof fn lemma_groups_rem(s: Seq<char>, i: int, acc: int)
    requires
        0 <= i <= s.len(),
        0 <= acc <= u64::MAX,
    ensures
        match groups_sum(s, i) {
            Ok(w) => if acc + w <= u64::MAX {
                groups_rem(s, i, acc) == Ok::<int, ()>(acc + w)
            } else {
                groups_rem(s, i, acc) is Err
            },
            Err(_) => groups_rem(s, i, acc) is Err,
        },
    decreases s.len() - i,
{
    let t0 = skip_spaces(s, i);
    lemma_scan_bounds(s, i);
    if !(t0 < i || t0 >= s.len()) {
        lemma_scan_bounds(s, t0);
        let t1 = token_end(s, t0);
        if t1 > t0 && t1 <= s.len() {
            lemma_groups_sum_range(s, t1);
            match group_value(s.subrange(t0, t1)) {
                Err(_) => {},
                Ok(v) => {
                    assert(v >= 0) by {
                        let digits = s.subrange(t0, t1).subrange(
                            5,
                            comma_pos(s.subrange(t0, t1), 5),
                        );
                        lemma_digits_val_nonneg(digits);
                    }
                    if acc + v <= u64::MAX {
                        lemma_groups_rem(s, t1, acc + v);
                    }
                },
            }
        }
    }
}

/// What one corpus line contributes: nothing when its shape is foreign,
/// otherwise its word and the sum of its year-group counts.
pub open spec fn line_value(s: Seq<char>) -> Result<Option<(Seq<char>, int)>, ()> {
    if !corpus_line_shape(s) {
        Ok(None)
    } else {
        match groups_sum(s, token_end(s, 0)) {
            Err(e) => Err(e),
            Ok(v) => Ok(Some((s.subrange(0, 5), v))),
        }
    }
}

/// The scans stay within the text.
proof fn lemma_scan_bounds(s: Seq<char>, i: int)
    requires
        0 <= i <= s.len(),
    ensures
        i <= skip_spaces(s, i) <= s.len(),
        i <= token_end(s, i) <= s.len(),
        i <= comma_pos(s, i) <= s.len(),
        i <= alpha_end(s, i) <= s.len(),
    decreases s.len() - i,
{
    if i < s.len() {
        lemma_scan_bounds(s, i + 1);
    }
}

/// A lowercase letter, executably.
fn is_lower_exec(c: char) -> (r: bool)
    ensures
        r == is_lower(c),
{
    let u = c as u32;
    97 <= u && u <= 122
}

/// A letter of either case, executably.
fn is_alpha_exec(c: char) -> (r: bool)
    ensures
        r == is_alpha(c),
{
    let u = c as u32;
    (97 <= u && u <= 122) || (65 <= u && u <= 90)
}

/// Decide whether a line has the corpus shape.
#[verifier::loop_isolation(false)]
fn corpus_shape_exec(line: &str) -> (r: bool)
    ensures
        r == corpus_line_shape(line@),
{
    let ghost sv = line@;
    let n = line.unicode_len();
    if n < 5 {
        return false;
    }
    let mut i: usize = 0;
    while i < 5
        invariant
            0 <= i <= 5,
            forall|j: int| 0 <= j < i ==> is_lower(#[trigger] sv[j]),
        decreases 5 - i,
    {
        if !is_lower_exec(line.get_char(i)) {
            return false;
        }
        i += 1;
    }
    let p: usize = if n > 5 && line.get_char(5) == '_' {
        let mut q: usize = 6;
        while q < n && is_alpha_exec(line.get_char(q))
            invariant
                6 <= q <= n,
                alpha_end(sv, 6) == alpha_end(sv, q as int),
            decreases n - q,
        {
            q += 1;
        }
        proof {
            assert(alpha_end(sv, 6) == q);
        }
        if q == 6 {
            return false;
        }
        q
    } else {
        5
    };
    proof {
        assert(p == tag_end(sv));
    }
    if p >= n || line.get_char(p) != '\t' {
        return false;
    }
    if n - p < 5 {
        return false;
    }
    let mut d: usize = p + 1;
    while d < p + 5
        invariant
            p + 1 <= d <= p + 5,
            p + 5 <= n,
            forall|j: int| p + 1 <= j < d ==> is_digit(#[trigger] sv[j]),
        decreases p + 5 - d,
    {
        let c = line.get_char(d);
        let u = c as u32;
        if u < 48 || u > 57 {
            proof {
                assert(!is_digit(sv[d as int]));
            }
            return false;
        }
        d += 1;
    }
    true
}

/// Parse one corpus line: `Ok(None)` for a line of foreign shape, the
/// word with its summed counts for a matching one, and an error when a
/// matching line carries a year group that does not parse or overflows.
#[verifier::loop_isolation(false)]
pub fn parse_corpus_line(line: &str) -> (r: Result<Option<(String, u64)>, ()>)
    ensures
        r matches Ok(Some(e)) ==> line_value(line@) == Ok::<Option<(Seq<char>, int)>, ()>(
            Some((e.0@, e.1 as int)),
        ),
        r matches Ok(None::<(String, u64)>) ==> line_value(line@) == Ok::<
            Option<(Seq<char>, int)>,
            (),
        >(None),
        r is Err ==> line_value(line@) is Err,
{
    let ghost sv = line@;
    if !corpus_shape_exec(line) {
        return Ok(None);
    }
    let n = line.unicode_len();
    // the first token is the word itself; groups start after it
    let mut t: usize = 0;
    while t < n && !is_space_exec(line.get_char(t))
        invariant
            0 <= t <= n,
            token_end(sv, 0) == token_end(sv, t as int),
        decreases n - t,
    {
        t += 1;
    }
    proof {
        assert(token_end(sv, 0) == t);
    }
    let ghost te0 = token_end(sv, 0);
    let mut total: u64 = 0;
    let mut i: usize = t;
    while i < n
        invariant
            0 <= i <= n,
            n == sv.len(),
            groups_rem(sv, te0, 0) == groups_rem(sv, i as int, total as int),
        decreases n - i,
    {
        // find the next group
        let mut t0: usize = i;
        while t0 < n && is_space_exec(line.get_char(t0))
            invariant
                i <= t0 <= n,
                skip_spaces(sv, i as int) == skip_spaces(sv, t0 as int),
            decreases n - t0,
        {
            t0 += 1;
        }
        proof {
            assert(skip_spaces(sv, i as int) == t0);
        }
        if t0 == n {
            i = n;
        } else {
            let mut t1: usize = t0;
            while t1 < n && !is_space_exec(line.get_char(t1))
                invariant
                    t0 <= t1 <= n,
                    token_end(sv, t0 as int) == token_end(sv, t1 as int),
                decreases n - t1,
            {
                t1 += 1;
            }
            proof {
                assert(token_end(sv, t0 as int) == t1);
                assert(t1 > t0);
            }
            let tok = line.substring_char(t0, t1);
            proof {
                assert(tok@ =~= sv.subrange(t0 as int, t1 as int));
            }
            match parse_group(tok) {
                Ok(v) => {
                    if v > u64::MAX - total {
                        proof {
                            assert(groups_rem(sv, i as int, total as int) is Err);
                            lemma_groups_rem(sv, te0, 0);
                            lemma_groups_sum_range(sv, te0);
                        }
                        return Err(());
                    }
                    total = total + v;
                },
                Err(_) => {
                    proof {
                        assert(groups_rem(sv, i as int, (total) as int) is Err);
                        lemma_groups_rem(sv, te0, 0);
                        lemma_groups_sum_range(sv, te0);
                    }
                    return Err(());
                },
            }
            i = t1;
        }
    }
    proof {
        assert(groups_rem(sv, n as int, total as int) == Ok::<int, ()>(total as int));
        lemma_groups_rem(sv, te0, 0);
        lemma_groups_sum_range(sv, te0);
        assert(groups_sum(sv, te0) == Ok::<int, ()>(total as int));
    }
    let word = line.substring_char(0, 5).to_owned();
    Ok(Some((word, total)))
}

/// The value of one year-group token.
#[verifier::loop_isolation(false)]
fn parse_group(tok: &str) -> (r: Result<u64, ()>)
    ensures
        r matches Ok(v) ==> group_value(tok@) == Ok::<int, ()>(v as int),
        r is Err ==> group_value(tok@) is Err,
{
    let ghost tv = tok@;
    let n = tok.unicode_len();
    if n <= 5 {
        return Err(());
    }
    let mut c: usize = 5;
    while c < n && tok.get_char(c) != ','
        invariant
            5 <= c <= n,
            comma_pos(tv, 5) == comma_pos(tv, c as int),
        decreases n - c,
    {
        c += 1;
    }
    proof {
        assert(comma_pos(tv, 5) == c);
    }
    if c == n {
        return Err(());
    }
    if c == 5 {
        proof {
            assert(tv.subrange(5, 5).len() == 0);
        }
        return Err(());
    }
    let ghost digits = tv.subrange(5, c as int);
    let mut val: u64 = 0;
    let mut i: usize = 5;
    while i < c
        invariant
            5 <= i <= c <= n,
            n == tv.len(),
            digits == tv.subrange(5, c as int),
            all_digits(tv.subrange(5, i as int)),
            val as int == digits_val(tv.subrange(5, i as int)),
        decreases c - i,
    {
        let ch = tok.get_char(i);
        let u = ch as u32;
        proof {
            assert(digits[i - 5] == tv[i as int]);
        }
        if u < 48 || u > 57 {
            proof {
                assert(!is_digit(tv[i as int]));
                assert(!all_digits(digits));
            }
            return Err(());
        }
        let d = (u - 48) as u64;
        proof {
            assert(tv.subrange(5, i + 1).drop_last() =~= tv.subrange(5, i as int));
            assert(tv.subrange(5, i + 1).last() == tv[i as int]);
            lemma_digits_val_nonneg(tv.subrange(5, i as int));
        }
        if val > (u64::MAX - d) / 10 {
            proof {
                assert(10 * (val as int) + d > u64::MAX) by {
                    vstd::arithmetic::div_mod::lemma_fundamental_div_mod(u64::MAX - d, 10);
                    vstd::arithmetic::div_mod::lemma_mod_bound(u64::MAX - d, 10);
                    vstd::arithmetic::mul::lemma_mul_inequality(
                        ((u64::MAX - d) / 10) + 1,
                        val as int,
                        10,
                    );
                    vstd::arithmetic::mul::lemma_mul_is_commutative(val as int, 10);
                    vstd::arithmetic::mul::lemma_mul_is_commutative(((u64::MAX - d) / 10) + 1, 10);
                }
                assert(digits_val(tv.subrange(5, i + 1)) > u64::MAX);
                if all_digits(digits) {
                    lemma_digits_val_grows(digits, i + 1 - 5);
                    assert(digits.take(i + 1 - 5) =~= tv.subrange(5, i + 1));
                }
            }
            return Err(());
        }
        proof {
            assert(val as int * 10 + d <= u64::MAX) by {
                vstd::arithmetic::div_mod::lemma_fundamental_div_mod(u64::MAX - d, 10);
                vstd::arithmetic::div_mod::lemma_mod_bound(u64::MAX - d, 10);
                vstd::arithmetic::mul::lemma_mul_inequality(val as int, (u64::MAX - d) / 10, 10);
                vstd::arithmetic::mul::lemma_mul_is_commutative(val as int, 10);
                vstd::arithmetic::mul::lemma_mul_is_commutative((u64::MAX - d) / 10, 10);
            }
        }
        val = val * 10 + d;
        i += 1;
    }
    proof {
        assert(tv.subrange(5, i as int) =~= digits);
    }
    Ok(val)
}

/// Split a text into its lines, as `spec_lines` lays them out.
#[verifier::loop_isolation(false)]
pub fn split_lines(text: &str) -> (v: Vec<String>)
    ensures
        v@.len() == spec_lines(text@).len(),
        forall|i: int| 0 <= i < v@.len() ==> (#[trigger] v@[i])@ == spec_lines(text@)[i],
{
    let ghost ls = spec_lines(text@);
    let n = text.unicode_len();
    let mut out: Vec<String> = Vec::new();
    let mut pos: usize = 0;
    proof {
        assert(text@.skip(0) =~= text@);
        assert(ls.take(0) =~= Seq::<Seq<char>>::empty());
        assert(ls =~= ls.take(0) + spec_lines(text@.skip(0)));
    }
    while pos < n
        invariant
            n == text@.len(),
            0 <= pos <= n,
            ls == spec_lines(text@),
            out@.len() <= ls.len(),
            ls =~= ls.take(out@.len() as int) + spec_lines(text@.skip(pos as int)),
            ls.len() == out@.len() + spec_lines(text@.skip(pos as int)).len(),
            pos == n ==> ls.len() == out@.len(),
            forall|i: int| 0 <= i < out@.len() ==> (#[trigger] out@[i])@ == ls[i],
        decreases n - pos,
    {
        let ghost suffix = text@.skip(pos as int);
        let mut j = pos;
        while j < n && text.get_char(j) != '\n'
            invariant
                n == text@.len(),
                pos <= j <= n,
                crate::dict::find_newline(suffix, 0) == crate::dict::find_newline(
                    suffix,
                    j - pos,
                ),
                suffix == text@.skip(pos as int),
            decreases n - j,
        {
            j += 1;
        }
        proof {
            assert(crate::dict::find_newline(suffix, 0) == j - pos);
        }
        let lend = if j > pos && text.get_char(j - 1) == '\r' {
            j - 1
        } else {
            j
        };
        let line = text.substring_char(pos, lend);
        let ghost done = out@.len() as int;
        proof {
            let k = crate::dict::find_newline(suffix, 0);
            if j == n {
                assert(suffix.take(k) =~= suffix);
                assert(line@ =~= crate::dict::strip_cr(suffix));
                assert(spec_lines(suffix) =~= seq![crate::dict::strip_cr(suffix)]);
            } else {
                assert(line@ =~= crate::dict::strip_cr(suffix.take(k)));
                assert(spec_lines(suffix) =~= seq![crate::dict::strip_cr(suffix.take(k))]
                    + spec_lines(suffix.skip(k + 1)));
            }
            assert(spec_lines(suffix)[0] == line@);
            assert(ls.take(done).len() == done);
            assert((ls.take(done) + spec_lines(suffix))[done] == spec_lines(suffix)[0]);
            assert(ls[done] == line@);
            if j < n {
                assert(text@.skip(pos + k + 1) =~= suffix.skip(k + 1));
            } else {
                assert(spec_lines(text@.skip(n as int)).len() == 0);
            }
            assert(ls.take(done).push(ls[done]) =~= ls.take(done + 1));
        }
        out.push(line.to_owned());
        pos = if j < n {
            j + 1
        } else {
            n
        };
    }
    proof {
        assert(spec_lines(text@.skip(n as int)).len() == 0);
    }
    out
}

/// The first entry carrying this word, at or after `i`, or the length.
pub open spec fn first_word_index(s: Seq<Candidate>, w: Seq<char>, i: int) -> int
    decreases s.len() - i,
{
    if i < 0 || i >= s.len() {
        s.len() as int
    } else if s[i].word@ == w {
        i
    } else {
        first_word_index(s, w, i + 1)
    }
}

/// Add `v` to the first entry carrying `w`, if any; fail when the
/// entry's count would leave the machine word.
pub open spec fn bump(entries: Seq<Candidate>, w: Seq<char>, v: int) -> Result<Seq<Candidate>, ()> {
    let i = first_word_index(entries, w, 0);
    if i >= entries.len() {
        Ok(entries)
    } else if entries[i].freq + v > u64::MAX {
        Err(())
    } else {
        Ok(
            entries.update(
                i,
                Candidate { word: entries[i].word, freq: (entries[i].freq + v) as u64 },
            ),
        )
    }
}

/// Folding the first `k` corpus lines into the entries, left to right.
pub open spec fn aggregate_spec(
    entries: Seq<Candidate>,
    lines: Seq<Seq<char>>,
    k: int,
) -> Result<Seq<Candidate>, CorpusError>
    decreases k,
{
    if k <= 0 {
        Ok(entries)
    } else {
        match aggregate_spec(entries, lines, k - 1) {
            Err(e) => Err(e),
            Ok(cur) => match line_value(lines[k - 1]) {
                Err(_) => Err(CorpusError::BadLine { line: (k - 1) as usize }),
                Ok(None) => Ok(cur),
                Ok(Some(wv)) => match bump(cur, wv.0, wv.1) {
                    Err(_) => Err(CorpusError::Overflow { line: (k - 1) as usize }),
                    Ok(next) => Ok(next),
                },
            },
        }
    }
}

/// A failed prefix fails every longer prefix with the same error.
proof fn lemma_aggregate_err_persists(
    entries: Seq<Candidate>,
    lines: Seq<Seq<char>>,
    k: int,
    k2: int,
)
    requires
        0 <= k <= k2,
        aggregate_spec(entries, lines, k) is Err,
    ensures
        aggregate_spec(entries, lines, k2) == aggregate_spec(entries, lines, k),
    decreases k2 - k,
{
    if k < k2 {
        lemma_aggregate_err_persists(entries, lines, k, k2 - 1);
    }
}

/// Accumulate the counts of every corpus line of `text` into the
/// matching entries, or report the first line that fails.
#[verifier::loop_isolation(false)]
pub fn aggregate_counts(entries: &mut Vec<Candidate>, text: &str) -> (r: Result<(), CorpusError>)
    ensures
        r matches Ok(u) ==> aggregate_spec(
            old(entries)@,
            spec_lines(text@),
            spec_lines(text@).len() as int,
        ) == Ok::<Seq<Candidate>, CorpusError>(final(entries)@),
        r matches Err(e) ==> aggregate_spec(
            old(entries)@,
            spec_lines(text@),
            spec_lines(text@).len() as int,
        ) == Err::<Seq<Candidate>, CorpusError>(e),
{
    let ghost orig = entries@;
    let ghost ls = spec_lines(text@);
    let lines = split_lines(text);
    let mut li: usize = 0;
    while li < lines.len()
        invariant
            li <= lines@.len(),
            aggregate_spec(orig, ls, li as int) == Ok::<Seq<Candidate>, CorpusError>(entries@),
        decreases lines@.len() - li,
    {
        let ghost before = entries@;
        let line = &lines[li];
        match parse_corpus_line(line.as_str()) {
            Err(_) => {
                proof {
                    assert(aggregate_spec(orig, ls, li + 1) == Err::<Seq<Candidate>, CorpusError>(
                        CorpusError::BadLine { line: li },
                    ));
                    lemma_aggregate_err_persists(orig, ls, li + 1, ls.len() as int);
                }
                return Err(CorpusError::BadLine { line: li });
            },
            Ok(None) => {
                proof {
                    assert(aggregate_spec(orig, ls, li + 1) == Ok::<Seq<Candidate>, CorpusError>(
                        entries@,
                    ));
                }
            },
            Ok(Some(wv)) => {
                let (w, v) = wv;
                let n = entries.len();
                let mut j: usize = 0;
                while j < n && !str_eq(entries[j].word.as_str(), w.as_str())
                    invariant
                        0 <= j <= n,
                        n == entries@.len(),
                        entries@ == before,
                        first_word_index(before, w@, 0) == first_word_index(before, w@, j as int),
                    decreases n - j,
                {
                    j += 1;
                }
                proof {
                    assert(first_word_index(before, w@, 0) == j);
                }
                if j < n {
                    let cur = entries[j].freq;
                    if v > u64::MAX - cur {
                        proof {
                            assert(bump(before, w@, v as int) is Err);
                            assert(aggregate_spec(orig, ls, li + 1) == Err::<
                                Seq<Candidate>,
                                CorpusError,
                            >(CorpusError::Overflow { line: li }));
                            lemma_aggregate_err_persists(orig, ls, li + 1, ls.len() as int);
                        }
                        return Err(CorpusError::Overflow { line: li });
                    }
                    let mut c = entries.remove(j);
                    c.freq = cur + v;
                    entries.insert(j, c);
                    proof {
                        assert(entries@ =~= before.update(
                            j as int,
                            Candidate { word: before[j as int].word, freq: (cur + v) as u64 },
                        ));
                        assert(bump(before, w@, v as int) == Ok::<Seq<Candidate>, ()>(entries@));
                        assert(aggregate_spec(orig, ls, li + 1) == Ok::<
                            Seq<Candidate>,
                            CorpusError,
                        >(entries@));
                    }
                } else {
                    proof {
                        assert(bump(before, w@, v as int) == Ok::<Seq<Candidate>, ()>(entries@));
                        assert(aggregate_spec(orig, ls, li + 1) == Ok::<
                            Seq<Candidate>,
                            CorpusError,
                        >(entries@));
                    }
                }
            },
        }
        li += 1;
    }
    Ok(())
}

/// Compare two strings character by character.
fn str_eq(a: &str, b: &str) -> (r: bool)
    ensures
        r == (a@ == b@),
{
    let na = a.unicode_len();
    let nb = b.unicode_len();
    if na != nb {
        return false;
    }
    let mut same = true;
    let mut i: usize = 0;
    while i < na
        invariant
            na == a@.len(),
            na == b@.len(),
            0 <= i <= na,
            same == (forall|j: int| 0 <= j < i ==> a@[j] == b@[j]),
        decreases na - i,
    {
        same = same && a.get_char(i) == b.get_char(i);
        i += 1;
    }
    proof {
        if same {
            assert(a@ =~= b@);
        }
    }
    same
}

/// The greatest frequency in the list, zero when it is empty.
pub open spec fn max_freq_spec(s: Seq<Candidate>) -> int
    decreases s.len(),
{
    if s.len() == 0 {
        0
    } else {
        let m = max_freq_spec(s.drop_last());
        if s.last().freq > m {
            s.last().freq as int
        } else {
            m
        }
    }
}

/// The greatest frequency among the entries.
#[verifier::loop_isolation(false)]
pub fn max_freq(entries: &Vec<Candidate>) -> (m: u64)
    requires
        entries@.len() > 0,
    ensures
        m as int == max_freq_spec(entries@),
{
    let mut m: u64 = 0;
    let n = entries.len();
    let mut i: usize = 0;
    proof {
        assert(entries@.take(0) =~= Seq::<Candidate>::empty());
    }
    while i < n
        invariant
            0 <= i <= n,
            n == entries@.len(),
            m as int == max_freq_spec(entries@.take(i as int)),
        decreases n - i,
    {
        proof {
            assert(entries@.take(i + 1).drop_last() =~= entries@.take(i as int));
            assert(entries@.take(i + 1).last() == entries@[i as int]);
        }
        let f = entries[i].freq;
        if f > m {
            m = f;
        }
        i += 1;
    }
    proof {
        assert(entries@.take(n as int) =~= entries@);
    }
    m
}

/// How many entries have a zero count.
pub open spec fn zero_count_spec(s: Seq<Candidate>) -> int
    decreases s.len(),
{
    if s.len() == 0 {
        0
    } else {
        zero_count_spec(s.drop_last()) + if s.last().freq == 0 {
            1int
        } else {
            0int
        }
    }
}

/// Count the entries whose frequency is zero.
#[verifier::loop_isolation(false)]
pub fn count_zero_entries(entries: &Vec<Candidate>) -> (z: usize)
    ensures
        z as int == zero_count_spec(entries@),
{
    let mut z: usize = 0;
    let n = entries.len();
    let mut i: usize = 0;
    proof {
        assert(entries@.take(0) =~= Seq::<Candidate>::empty());
    }
    while i < n
        invariant
            0 <= i <= n,
            n == entries@.len(),
            z as int == zero_count_spec(entries@.take(i as int)),
            z <= i,
        decreases n - i,
    {
        proof {
            assert(entries@.take(i + 1).drop_last() =~= entries@.take(i as int));
            assert(entries@.take(i + 1).last() == entries@[i as int]);
        }
        if entries[i].freq == 0 {
            z += 1;
        }
        i += 1;
    }
    proof {
        assert(entries@.take(n as int) =~= entries@);
    }
    z
}

/// The counts rescaled so that the largest fits a 32-bit range: when the
/// maximum exceeds it, every count is divided by one more than the
/// maximum's multiple of that range, plus one so nothing drops to zero.
pub open spec fn rescale_spec(s: Seq<Candidate>) -> Seq<Candidate> {
    let m = max_freq_spec(s);
    if m > u32::MAX {
        Seq::new(
            s.len(),
            |i: int|
                Candidate {
                    word: s[i].word,
                    freq: ((s[i].freq as int) / (m / (u32::MAX as int) + 1) + 1) as u64,
                },
        )
    } else {
        s
    }
}

/// Rescale the counts in place.
#[verifier::loop_isolation(false)]
pub fn rescale_counts(entries: &mut Vec<Candidate>)
    requires
        old(entries)@.len() > 0,
    ensures
        final(entries)@ == rescale_spec(old(entries)@),
{
    let ghost orig = entries@;
    let m = max_freq(entries);
    if m <= u32::MAX as u64 {
        proof {
            assert(rescale_spec(orig) == orig);
        }
        return ;
    }
    let div = m / (u32::MAX as u64) + 1;
    proof {
        assert(m / (u32::MAX as u64) >= 1) by {
            assert(m >= 4294967295);
            vstd::arithmetic::div_mod::lemma_div_is_ordered(
                u32::MAX as int,
                m as int,
                u32::MAX as int,
            );
            vstd::arithmetic::div_mod::lemma_div_by_self(u32::MAX as int);
        }
    }
    let n = entries.len();
    let mut i: usize = 0;
    while i < n
        invariant
            0 <= i <= n,
            n == entries@.len(),
            orig.len() == n,
            div >= 2,
            div as int == max_freq_spec(orig) / (u32::MAX as int) + 1,
            max_freq_spec(orig) > u32::MAX,
            forall|j: int|
                0 <= j < i ==> (#[trigger] entries@[j]) == (Candidate {
                    word: orig[j].word,
                    freq: ((orig[j].freq as int) / (div as int) + 1) as u64,
                }),
            forall|j: int| i <= j < n ==> (#[trigger] entries@[j]) == orig[j],
        decreases n - i,
    {
        let ghost before = entries@;
        let mut c = entries.remove(i);
        proof {
            assert(c == orig[i as int]);
            assert((c.freq as int) / (div as int) <= c.freq as int) by {
                vstd::arithmetic::div_mod::lemma_div_is_ordered_by_denominator(
                    c.freq as int,
                    1,
                    div as int,
                );
                vstd::arithmetic::div_mod::lemma_div_basics(c.freq as int);
            }
            vstd::arithmetic::div_mod::lemma_div_pos_is_pos(c.freq as int, div as int);
            assert((c.freq as int) / (div as int) < u64::MAX) by {
                vstd::arithmetic::div_mod::lemma_multiply_divide_lt(
                    c.freq as int,
                    2,
                    0x8000_0000_0000_0000,
                );
                vstd::arithmetic::div_mod::lemma_div_is_ordered_by_denominator(
                    c.freq as int,
                    2,
                    div as int,
                );
            }
        }
        c.freq = c.freq / div + 1;
        entries.insert(i, c);
        proof {
            assert(entries@ =~= before.update(
                i as int,
                Candidate {
                    word: orig[i as int].word,
                    freq: ((orig[i as int].freq as int) / (div as int) + 1) as u64,
                },
            ));
        }
        i += 1;
    }
    proof {
        assert(entries@ =~= rescale_spec(orig));
    }
}

/// Strict lexicographic order on words, by character value.
pub open spec fn lex_lt(a: Seq<char>, b: Seq<char>) -> bool
    decreases a.len(),
{
    if b.len() == 0 {
        false
    } else if a.len() == 0 {
        true
    } else if (a[0] as u32) < (b[0] as u32) {
        true
    } else if a[0] != b[0] {
        false
    } else {
        lex_lt(a.drop_first(), b.drop_first())
    }
}

/// Inserting a candidate before the first strictly greater word, so
/// equal words keep their arrival order.
pub open spec fn insert_lex(s: Seq<Candidate>, c: Candidate) -> Seq<Candidate>
    decreases s.len(),
{
    if s.len() == 0 {
        seq![c]
    } else if !lex_lt(c.word@, s[0].word@) {
        seq![s[0]] + insert_lex(s.drop_first(), c)
    } else {
        seq![c] + s
    }
}

/// Stable sort by word: candidates are inserted in their original
/// order, each after all earlier ones with a word not above its own.
pub open spec fn sort_lex_spec(s: Seq<Candidate>) -> Seq<Candidate>
    decreases s.len(),
{
    if s.len() == 0 {
        Seq::empty()
    } else {
        insert_lex(sort_lex_spec(s.drop_last()), s.last())
    }
}

/// Sort the entries alphabetically by word.
pub fn sort_by_word(entries: Vec<Candidate>) -> (out: Vec<Candidate>)
    ensures
        out@ == sort_lex_spec(entries@),
{
    let ghost orig = entries@;
    let mut input = entries;
    let mut out: Vec<Candidate> = Vec::new();
    while input.len() > 0
        invariant
            input@ =~= orig.skip(orig.len() - input@.len()),
            out@ == sort_lex_spec(orig.take(orig.len() - input@.len())),
            input@.len() <= orig.len(),
        decreases input@.len(),
    {
        let ghost i = orig.len() - input@.len();
        let c = input.remove(0);
        proof {
            assert(c == orig[i]);
            assert(input@ =~= orig.skip(i + 1));
            assert(orig.take(i + 1).drop_last() =~= orig.take(i as int));
            assert(orig.take(i + 1).last() == orig[i]);
        }
        sorted_insert_lex(&mut out, c);
    }
    proof {
        assert(orig.take(orig.len() as int) =~= orig);
    }
    out
}

/// Compare two words lexicographically.
#[verifier::loop_isolation(false)]
fn lex_less(a: &str, b: &str) -> (r: bool)
    ensures
        r == lex_lt(a@, b@),
{
    let na = a.unicode_len();
    let nb = b.unicode_len();
    let mut i: usize = 0;
    proof {
        assert(a@.skip(0) =~= a@);
        assert(b@.skip(0) =~= b@);
    }
    while i < na && i < nb && a.get_char(i) == b.get_char(i)
        invariant
            na == a@.len(),
            nb == b@.len(),
            0 <= i <= na,
            0 <= i <= nb,
            lex_lt(a@, b@) == lex_lt(a@.skip(i as int), b@.skip(i as int)),
        decreases na - i,
    {
        proof {
            assert(a@.skip(i as int).drop_first() =~= a@.skip(i + 1));
            assert(b@.skip(i as int).drop_first() =~= b@.skip(i + 1));
        }
        i += 1;
    }
    if i >= nb {
        proof {
            assert(b@.skip(i as int).len() == 0);
        }
        false
    } else if i >= na {
        proof {
            assert(a@.skip(i as int).len() == 0);
        }
        true
    } else {
        let ca = a.get_char(i);
        let cb = b.get_char(i);
        (ca as u32) < (cb as u32)
    }
}

/// Insert a candidate into an alphabetical run, before the first entry
/// whose word is strictly greater.
fn sorted_insert_lex(v: &mut Vec<Candidate>, c: Candidate)
    ensures
        final(v)@ == insert_lex(old(v)@, c),
{
    let mut pos: usize = 0;
    while pos < v.len() && !lex_less(c.word.as_str(), v[pos].word.as_str())
        invariant
            0 <= pos <= v@.len(),
            forall|m: int| 0 <= m < pos ==> !lex_lt(c.word@, (#[trigger] v@[m]).word@),
        decreases v@.len() - pos,
    {
        pos += 1;
    }
    proof {
        lemma_insert_lex_at(v@, c, pos as int);
    }
    v.insert(pos, c);
    proof {
        assert(v@ =~= old(v)@.take(pos as int) + seq![c] + old(v)@.skip(pos as int));
    }
}

/// The recursive insertion lands exactly at the first position whose
/// word is strictly greater than the new candidate's.
proof fn lemma_insert_lex_at(s: Seq<Candidate>, c: Candidate, pos: int)
    requires
        0 <= pos <= s.len(),
        forall|m: int| 0 <= m < pos ==> !lex_lt(c.word@, (#[trigger] s[m]).word@),
        pos == s.len() || lex_lt(c.word@, s[pos].word@),
    ensures
        insert_lex(s, c) == s.take(pos) + seq![c] + s.skip(pos),
    decreases s.len(),
{
    if pos == 0 {
        if s.len() == 0 {
            assert(insert_lex(s, c) =~= s.take(0) + seq![c] + s.skip(0));
        } else {
            assert(insert_lex(s, c) =~= s.take(0) + seq![c] + s.skip(0));
        }
    } else {
        let d = s.drop_first();
        assert forall|m: int| 0 <= m < pos - 1 implies !lex_lt(c.word@, (#[trigger] d[m]).word@) by {
            assert(s[m + 1] == d[m]);
        }
        lemma_insert_lex_at(d, c, pos - 1);
        assert(insert_lex(s, c) =~= seq![s[0]] + (d.take(pos - 1) + seq![c] + d.skip(pos - 1)));
        assert(seq![s[0]] + (d.take(pos - 1) + seq![c] + d.skip(pos - 1)) =~= s.take(pos) + seq![c]
            + s.skip(pos));
    }
}

/// The decimal digits of a non-negative number, most significant first.
pub open spec fn dec_bytes(n: int) -> Seq<u8>
    decreases n,
{
    if n < 10 {
        seq![(48 + if 0 <= n < 10 {
            n
        } else {
            0
        }) as u8]
    } else {
        dec_bytes(n / 10) + seq![(48 + n % 10) as u8]
    }
}

/// One formatted dictionary line: the word's characters (low eight bits
/// each), a space, the decimal count, and a line feed.
pub open spec fn line_bytes(c: Candidate) -> Seq<u8> {
    Seq::new(c.word@.len(), |i: int| c.word@[i] as u8) + seq![32u8] + dec_bytes(c.freq as int)
        + seq![10u8]
}

/// The whole formatted dictionary.
pub open spec fn format_spec(s: Seq<Candidate>) -> Seq<u8>
    decreases s.len(),
{
    if s.len() == 0 {
        Seq::empty()
    } else {
        format_spec(s.drop_last()) + line_bytes(s.last())
    }
}

/// Append the decimal digits of `n`.
fn push_dec(out: &mut Vec<u8>, n: u64)
    ensures
        final(out)@ == old(out)@ + dec_bytes(n as int),
    decreases n,
{
    if n < 10 {
        out.push(48 + n as u8);
        proof {
            assert(final(out)@ =~= old(out)@ + dec_bytes(n as int));
        }
    } else {
        push_dec(out, n / 10);
        out.push(48 + (n % 10) as u8);
        proof {
            assert(final(out)@ =~= old(out)@ + dec_bytes(n as int));
        }
    }
}

/// Lay the entries out as `word count` lines.
#[verifier::loop_isolation(false)]
pub fn format_dictionary(entries: &Vec<Candidate>) -> (out: Vec<u8>)
    ensures
        out@ == format_spec(entries@),
{
    let mut out: Vec<u8> = Vec::new();
    let n = entries.len();
    let mut i: usize = 0;
    proof {
        assert(entries@.take(0) =~= Seq::<Candidate>::empty());
        assert(out@ =~= format_spec(entries@.take(0)));
    }
    while i < n
        invariant
            0 <= i <= n,
            n == entries@.len(),
            out@ == format_spec(entries@.take(i as int)),
        decreases n - i,
    {
        let ghost prev = out@;
        let c = &entries[i];
        let wlen = c.word.as_str().unicode_len();
        let mut j: usize = 0;
        while j < wlen
            invariant
                0 <= j <= wlen,
                wlen == c.word@.len(),
                c == entries@[i as int],
                out@ =~= prev + Seq::new(j as nat, |m: int| c.word@[m] as u8),
            decreases wlen - j,
        {
            let ch = c.word.as_str().get_char(j);
            #[verifier::truncate]
            let byte = (ch as u32) as u8;
            out.push(byte);
            proof {
                assert(out@ =~= prev + Seq::new((j + 1) as nat, |m: int| c.word@[m] as u8));
            }
            j += 1;
        }
        out.push(32);
        push_dec(&mut out, c.freq);
        out.push(10);
        proof {
            assert(entries@.take(i + 1).drop_last() =~= entries@.take(i as int));
            assert(entries@.take(i + 1).last() == entries@[i as int]);
            assert(out@ =~= format_spec(entries@.take(i as int)) + line_bytes(entries@[i as int]));
        }
        i += 1;
    }
    proof {
        assert(entries@.take(n as int) =~= entries@);
    }
    out
}

} // verus!
