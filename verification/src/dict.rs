//! Parsing the dictionary resource.
//!
//! The dictionary is plain text with one entry per line: a five-letter
//! word, whitespace, and a non-negative decimal frequency.  Anything
//! malformed is fatal at load time: the parser reports the first bad
//! line and never hands back a partial pool.  The total frequency mass
//! must fit a machine word, so that pools built from the entries can sum
//! frequencies without overflow.

use vstd::prelude::*;

verus! {

use crate::pool::{all_words_wf, mass, Candidate};
use vstd::string::StrSliceExecFns;

/// The whitespace accepted between the word and its frequency.
pub open spec fn is_space(c: char) -> bool {
    c == ' ' || c == '\t' || c == '\r' || c == '\u{b}' || c == '\u{c}'
}

/// A decimal digit.
pub open spec fn is_digit(c: char) -> bool {
    48 <= c as u32 <= 57
}

/// The first position at or after `i` holding something other than
/// whitespace, or the end.
pub open spec fn skip_spaces(s: Seq<char>, i: int) -> int
    decreases s.len() - i,
{
    if i < 0 || i >= s.len() {
        s.len() as int
    } else if is_space(s[i]) {
        skip_spaces(s, i + 1)
    } else {
        i
    }
}

/// The first position at or after `i` holding whitespace, or the end.
pub open spec fn token_end(s: Seq<char>, i: int) -> int
    decreases s.len() - i,
{
    if i < 0 || i >= s.len() {
        s.len() as int
    } else if is_space(s[i]) {
        i
    } else {
        token_end(s, i + 1)
    }
}

/// The first position at or after `i` holding a line feed, or the end.
pub open spec fn find_newline(s: Seq<char>, i: int) -> int
    decreases s.len() - i,
{
    if i < 0 || i >= s.len() {
        s.len() as int
    } else if s[i] == '\n' {
        i
    } else {
        find_newline(s, i + 1)
    }
}

/// A line without its trailing carriage return, if it carries one.
pub open spec fn strip_cr(s: Seq<char>) -> Seq<char> {
    if s.len() > 0 && s.last() == '\r' {
        s.drop_last()
    } else {
        s
    }
}

/// The lines of a text, split at line feeds, each without a trailing
/// carriage return; a final line feed does not open an empty last line.
pub open spec fn spec_lines(s: Seq<char>) -> Seq<Seq<char>>
    decreases s.len(),
{
    if s.len() == 0 {
        Seq::empty()
    } else {
        let k = find_newline(s, 0);
        if 0 <= k < s.len() {
            seq![strip_cr(s.take(k))] + spec_lines(s.skip(k + 1))
        } else {
            seq![strip_cr(s)]
        }
    }
}

/// The value of a run of decimal digits.
pub open spec fn digits_val(s: Seq<char>) -> int
    decreases s.len(),
{
    if s.len() == 0 {
        0
    } else {
        digits_val(s.drop_last()) * 10 + (s.last() as u32 - 48)
    }
}

/// Every character is a decimal digit.
pub open spec fn all_digits(s: Seq<char>) -> bool {
    forall|i: int| 0 <= i < s.len() ==> is_digit(#[trigger] s[i])
}

/// What is wrong with one dictionary line.
#[derive(Clone, Copy, Debug, PartialEq, Eq, Structural)]
pub enum LineIssue {
    /// Nothing but whitespace.
    NoWord,
    /// A word with no frequency after it.
    NoFrequency,
    /// The word does not have exactly five letters.
    BadWord,
    /// The frequency is not a decimal number a machine word can hold.
    BadFrequency,
}

/// The outcome of parsing one line: the word and its frequency, or the
/// first issue found.  The word is checked before the frequency's shape.
pub open spec fn line_result(s: Seq<char>) -> Result<(Seq<char>, int), LineIssue> {
    let a0 = skip_spaces(s, 0);
    if a0 == s.len() {
        Err(LineIssue::NoWord)
    } else {
        let a1 = token_end(s, a0);
        let word = s.subrange(a0, a1);
        let b0 = skip_spaces(s, a1);
        if b0 == s.len() {
            Err(LineIssue::NoFrequency)
        } else {
            let b1 = token_end(s, b0);
            let tok = s.subrange(b0, b1);
            if word.len() != 5 {
                Err(LineIssue::BadWord)
            } else if !all_digits(tok) || digits_val(tok) > u64::MAX {
                Err(LineIssue::BadFrequency)
            } else {
                Ok((word, digits_val(tok)))
            }
        }
    }
}

/// Why a dictionary text was rejected.
#[derive(Clone, Copy, Debug, PartialEq, Eq, Structural)]
pub enum DictError {
    /// This line holds nothing but whitespace.
    NoWord { line: usize },
    /// This line has a word but no frequency.
    NoFrequency { line: usize },
    /// This line's word does not have exactly five letters.
    BadWord { line: usize },
    /// This line's frequency is not a number a machine word can hold.
    BadFrequency { line: usize },
    /// The frequencies add up beyond what a machine word can hold.
    TotalTooLarge,
}

/// All lines before `k` parse.
pub open spec fn lines_ok_upto(ls: Seq<Seq<char>>, k: int) -> bool {
    forall|j: int| 0 <= j < k ==> line_result(#[trigger] ls[j]) is Ok
}

/// Sum of the frequencies of the first `k` lines, each of which must
/// parse.
pub open spec fn values_sum(ls: Seq<Seq<char>>, k: int) -> int
    decreases k,
{
    if k <= 0 {
        0
    } else {
        values_sum(ls, k - 1) + match line_result(ls[k - 1]) {
            Ok(e) => e.1,
            Err(_) => 0,
        }
    }
}

/// What each rejection says of the text.
pub open spec fn dict_error_spec(t: Seq<char>, e: DictError) -> bool {
    let ls = spec_lines(t);
    match e {
        DictError::NoWord { line } => line < ls.len() && lines_ok_upto(ls, line as int)
            && line_result(ls[line as int]) == Err::<(Seq<char>, int), LineIssue>(LineIssue::NoWord),
        DictError::NoFrequency { line } => line < ls.len() && lines_ok_upto(ls, line as int)
            && line_result(ls[line as int]) == Err::<(Seq<char>, int), LineIssue>(
            LineIssue::NoFrequency,
        ),
        DictError::BadWord { line } => line < ls.len() && lines_ok_upto(ls, line as int)
            && line_result(ls[line as int]) == Err::<(Seq<char>, int), LineIssue>(
            LineIssue::BadWord,
        ),
        DictError::BadFrequency { line } => line < ls.len() && lines_ok_upto(ls, line as int)
            && line_result(ls[line as int]) == Err::<(Seq<char>, int), LineIssue>(
            LineIssue::BadFrequency,
        ),
        DictError::TotalTooLarge => exists|k: int|
            0 <= k < ls.len() && lines_ok_upto(ls, k + 1) && (#[trigger] values_sum(ls, k + 1))
                > u64::MAX && values_sum(ls, k) <= u64::MAX,
    }
}

/// Parse a whole dictionary text into candidates, line by line, or
/// report the first fatal flaw.
#[verifier::loop_isolation(false)]
pub fn parse_dictionary(text: &str) -> (r: Result<Vec<Candidate>, DictError>)
    ensures
        r matches Ok(v) ==> {
            &&& v@.len() == spec_lines(text@).len()
            &&& forall|i: int|
                0 <= i < v@.len() ==> line_result(spec_lines(text@)[i]) == Ok::<
                    (Seq<char>, int),
                    LineIssue,
                >(((#[trigger] v@[i]).word@, v@[i].freq as int))
            &&& all_words_wf(v@)
            &&& mass(v@) <= u64::MAX
        },
        r matches Err(e) ==> dict_error_spec(text@, e),
{
    let ghost ls = spec_lines(text@);
    let n = text.unicode_len();
    let mut entries: Vec<Candidate> = Vec::new();
    let mut total: u64 = 0;
    let mut pos: usize = 0;
    let mut line_idx: usize = 0;
    proof {
        assert(text@.skip(0) =~= text@);
        assert(ls.take(0) =~= Seq::<Seq<char>>::empty());
        assert(ls =~= ls.take(0) + spec_lines(text@.skip(0)));
    }
    while pos < n
        invariant
            n == text@.len(),
            0 <= pos <= n,
            ls == spec_lines(text@),
            entries@.len() == line_idx,
            ls =~= ls.take(line_idx as int) + spec_lines(text@.skip(pos as int)),
            ls.len() == line_idx + spec_lines(text@.skip(pos as int)).len(),
            pos < n ==> spec_lines(text@.skip(pos as int)).len() > 0,
            pos == n ==> ls.len() == line_idx,
            line_idx <= pos,
            lines_ok_upto(ls, line_idx as int),
            forall|i: int|
                0 <= i < line_idx ==> line_result(ls[i]) == Ok::<(Seq<char>, int), LineIssue>((
                    (#[trigger] entries@[i]).word@,
                    entries@[i].freq as int,
                )),
            all_words_wf(entries@),
            total == mass(entries@),
            total as int == values_sum(ls, line_idx as int),
        decreases n - pos,
    {
        let ghost suffix = text@.skip(pos as int);
        // find the end of the current line
        let mut j = pos;
        while j < n && text.get_char(j) != '\n'
            invariant
                n == text@.len(),
                pos <= j <= n,
                find_newline(suffix, 0) == find_newline(suffix, j - pos),
                suffix == text@.skip(pos as int),
            decreases n - j,
        {
            j += 1;
        }
        proof {
            assert(find_newline(suffix, 0) == j - pos);
        }
        // strip one trailing carriage return
        let lend = if j > pos && text.get_char(j - 1) == '\r' {
            j - 1
        } else {
            j
        };
        let line = text.substring_char(pos, lend);
        proof {
            let k = find_newline(suffix, 0);
            if j == n {
                assert(suffix.take(k) =~= suffix);
                assert(line@ =~= strip_cr(suffix));
                assert(spec_lines(suffix) =~= seq![strip_cr(suffix)]);
            } else {
                assert(line@ =~= strip_cr(suffix.take(k)));
                assert(spec_lines(suffix) =~= seq![strip_cr(suffix.take(k))] + spec_lines(
                    suffix.skip(k + 1),
                ));
            }
            assert(spec_lines(suffix)[0] == line@);
            assert(ls.take(line_idx as int).len() == line_idx);
            assert((ls.take(line_idx as int) + spec_lines(suffix))[line_idx as int]
                == spec_lines(suffix)[0]);
            assert(ls[line_idx as int] == line@);
        }
        match parse_line(line) {
            Ok(c) => {
                if c.freq > u64::MAX - total {
                    proof {
                        assert(values_sum(ls, line_idx + 1) == values_sum(ls, line_idx as int)
                            + c.freq);
                        assert(lines_ok_upto(ls, line_idx + 1));
                    }
                    return Err(DictError::TotalTooLarge);
                }
                total = total + c.freq;
                let ghost prev = entries@;
                entries.push(c);
                proof {
                    assert(entries@.drop_last() =~= prev);
                    assert(values_sum(ls, line_idx + 1) == values_sum(ls, line_idx as int)
                        + entries@.last().freq);
                }
            },
            Err(issue) => {
                let e = match issue {
                    LineIssue::NoWord => DictError::NoWord { line: line_idx },
                    LineIssue::NoFrequency => DictError::NoFrequency { line: line_idx },
                    LineIssue::BadWord => DictError::BadWord { line: line_idx },
                    LineIssue::BadFrequency => DictError::BadFrequency { line: line_idx },
                };
                return Err(e);
            },
        }
        proof {
            let k = find_newline(suffix, 0);
            if j < n {
                assert(text@.skip(pos + k + 1) =~= suffix.skip(k + 1));
            } else {
                assert(spec_lines(text@.skip(n as int)) =~= Seq::<Seq<char>>::empty());
                assert(text@.skip(n as int).len() == 0);
            }
            assert(ls.take(line_idx as int).push(ls[line_idx as int]) =~= ls.take(line_idx + 1));
        }
        line_idx += 1;
        pos = if j < n {
            j + 1
        } else {
            n
        };
    }
    proof {
        assert(spec_lines(text@.skip(n as int)).len() == 0);
    }
    Ok(entries)
}

/// Whether this character separates tokens.
pub(crate) fn is_space_exec(c: char) -> (r: bool)
    ensures
        r == is_space(c),
{
    c == ' ' || c == '\t' || c == '\r' || c == '\u{b}' || c == '\u{c}'
}

/// Parse one line into a candidate, or say what is wrong with it.
#[verifier::loop_isolation(false)]
fn parse_line(line: &str) -> (r: Result<Candidate, LineIssue>)
    ensures
        r matches Ok(c) ==> line_result(line@) == Ok::<(Seq<char>, int), LineIssue>((
            c.word@,
            c.freq as int,
        )) && c.word@.len() == 5,
        r matches Err(e) ==> line_result(line@) == Err::<(Seq<char>, int), LineIssue>(e),
{
    let s = line;
    let ghost sv = line@;
    let n = s.unicode_len();
    // start of the word
    let mut a0: usize = 0;
    while a0 < n && is_space_exec(s.get_char(a0))
        invariant
            n == sv.len(),
            sv == s@,
            0 <= a0 <= n,
            skip_spaces(sv, 0) == skip_spaces(sv, a0 as int),
        decreases n - a0,
    {
        a0 += 1;
    }
    proof {
        assert(skip_spaces(sv, 0) == a0);
    }
    if a0 == n {
        return Err(LineIssue::NoWord);
    }
    // end of the word
    let mut a1: usize = a0;
    while a1 < n && !is_space_exec(s.get_char(a1))
        invariant
            n == sv.len(),
            sv == s@,
            a0 <= a1 <= n,
            token_end(sv, a0 as int) == token_end(sv, a1 as int),
        decreases n - a1,
    {
        a1 += 1;
    }
    proof {
        assert(token_end(sv, a0 as int) == a1);
    }
    // start of the frequency
    let mut b0: usize = a1;
    while b0 < n && is_space_exec(s.get_char(b0))
        invariant
            n == sv.len(),
            sv == s@,
            a1 <= b0 <= n,
            skip_spaces(sv, a1 as int) == skip_spaces(sv, b0 as int),
        decreases n - b0,
    {
        b0 += 1;
    }
    proof {
        assert(skip_spaces(sv, a1 as int) == b0);
    }
    if b0 == n {
        return Err(LineIssue::NoFrequency);
    }
    // end of the frequency
    let mut b1: usize = b0;
    while b1 < n && !is_space_exec(s.get_char(b1))
        invariant
            n == sv.len(),
            sv == s@,
            b0 <= b1 <= n,
            token_end(sv, b0 as int) == token_end(sv, b1 as int),
        decreases n - b1,
    {
        b1 += 1;
    }
    proof {
        assert(token_end(sv, b0 as int) == b1);
    }
    if a1 - a0 != 5 {
        return Err(LineIssue::BadWord);
    }
    let ghost tok = sv.subrange(b0 as int, b1 as int);
    // decimal value of the frequency token
    let mut val: u64 = 0;
    let mut i: usize = b0;
    while i < b1
        invariant
            n == sv.len(),
            sv == s@,
            b0 <= i <= b1 <= n,
            tok == sv.subrange(b0 as int, b1 as int),
            all_digits(sv.subrange(b0 as int, i as int)),
            val as int == digits_val(sv.subrange(b0 as int, i as int)),
        decreases b1 - i,
    {
        let c = s.get_char(i);
        let u = c as u32;
        proof {
            assert(tok[i - b0] == sv[i as int]);
        }
        if u < 48 || u > 57 {
            proof {
                assert(!is_digit(sv[i as int]));
                assert(!all_digits(tok));
            }
            return Err(LineIssue::BadFrequency);
        }
        let d = (u - 48) as u64;
        proof {
            assert(sv.subrange(b0 as int, i + 1).drop_last() =~= sv.subrange(b0 as int, i as int));
            assert(sv.subrange(b0 as int, i + 1).last() == sv[i as int]);
            lemma_digits_val_nonneg(sv.subrange(b0 as int, i as int));
        }
        if val > (u64::MAX - d) / 10 {
            proof {
                assert(10 * (val as int) + d > u64::MAX) by {
                    vstd::arithmetic::div_mod::lemma_fundamental_div_mod(u64::MAX - d, 10);
                    vstd::arithmetic::div_mod::lemma_mod_bound(u64::MAX - d, 10);
                    vstd::arithmetic::mul::lemma_mul_inequality(
                        ((u64::MAX - d) / 10) + 1,
                        val as int,
                        10,
                    );
                    vstd::arithmetic::mul::lemma_mul_is_commutative(val as int, 10);
                    vstd::arithmetic::mul::lemma_mul_is_commutative(((u64::MAX - d) / 10) + 1, 10);
                }
                assert(digits_val(sv.subrange(b0 as int, i + 1)) > u64::MAX);
                if all_digits(tok) {
                    lemma_digits_val_grows(tok, i + 1 - b0);
                    assert(tok.take(i + 1 - b0) =~= sv.subrange(b0 as int, i + 1));
                }
            }
            return Err(LineIssue::BadFrequency);
        }
        proof {
            assert(val as int * 10 + d <= u64::MAX) by {
                vstd::arithmetic::div_mod::lemma_fundamental_div_mod(u64::MAX - d, 10);
                vstd::arithmetic::div_mod::lemma_mod_bound(u64::MAX - d, 10);
                vstd::arithmetic::mul::lemma_mul_inequality(val as int, (u64::MAX - d) / 10, 10);
                vstd::arithmetic::mul::lemma_mul_is_commutative(val as int, 10);
                vstd::arithmetic::mul::lemma_mul_is_commutative((u64::MAX - d) / 10, 10);
            }
        }
        val = val * 10 + d;
        i += 1;
    }
    proof {
        assert(tok =~= sv.subrange(b0 as int, b1 as int));
    }
    let word = s.substring_char(a0, a1).to_owned();
    Ok(Candidate { word, freq: val })
}

/// Digit runs have non-negative values.
pub proof fn lemma_digits_val_nonneg(s: Seq<char>)
    requires
        all_digits(s),
    ensures
        digits_val(s) >= 0,
    decreases s.len(),
{
    if s.len() > 0 {
        assert(all_digits(s.drop_last())) by {
            assert(forall|i: int|
                0 <= i < s.len() - 1 ==> is_digit(#[trigger] s.drop_last()[i]) == is_digit(s[i]));
        }
        lemma_digits_val_nonneg(s.drop_last());
        assert(is_digit(s[s.len() - 1]));
    }
}

/// Reading more digits never shrinks the value.
pub proof fn lemma_digits_val_grows(s: Seq<char>, k: int)
    requires
        all_digits(s),
        0 <= k <= s.len(),
    ensures
        digits_val(s) >= digits_val(s.take(k)),
    decreases s.len() - k,
{
    if k < s.len() {
        lemma_digits_val_grows(s, k + 1);
        assert(s.take(k + 1).drop_last() =~= s.take(k));
        assert(s.take(k + 1).last() == s[k]);
        assert(is_digit(s[k]));
        assert(all_digits(s.take(k))) by {
            assert(forall|i: int| 0 <= i < k ==> (#[trigger] s.take(k)[i]) == s[i]);
        }
        lemma_digits_val_nonneg(s.take(k));
        assert(digits_val(s.take(k + 1)) == digits_val(s.take(k)) * 10 + (s[k] as u32 - 48));
        assert(digits_val(s.take(k)) * 10 >= digits_val(s.take(k))) by {
            vstd::arithmetic::mul::lemma_mul_inequality(1, 10, digits_val(s.take(k)));
            vstd::arithmetic::mul::lemma_mul_is_commutative(digits_val(s.take(k)), 10);
            vstd::arithmetic::mul::lemma_mul_basics(digits_val(s.take(k)));
        }
    } else {
        assert(s.take(k) =~= s);
    }
}

} // verus!
