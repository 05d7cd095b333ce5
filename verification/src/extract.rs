//! Entity extraction: scans text for four pattern classes — monetary
//! amounts, percentages, dates, and ticker-like tokens — independently of
//! chunking. Matches are found left to right and never overlap within one
//! class; the scan resumes at the end of each match.

use vstd::prelude::*;
use crate::text::{chars_of, views, str_views, sub_chars, is_space, strings_of};
use crate::segment::{space_run_end, lemma_space_run_end_bounds};

verus! {

pub open spec fn is_digit(c: char) -> bool {
    48 <= c as u32 <= 57
}

pub open spec fn is_digit_comma(c: char) -> bool {
    is_digit(c) || c == ','
}

pub open spec fn is_upper(c: char) -> bool {
    65 <= c as u32 <= 90
}

pub open spec fn is_lower(c: char) -> bool {
    97 <= c as u32 <= 122
}

/// A word character as word boundaries see it: a letter, a digit, or an
/// underscore.
pub open spec fn is_word_char(c: char) -> bool {
    is_upper(c) || is_lower(c) || is_digit(c) || c == '_'
}

/// End of the maximal run of characters satisfying `p`, starting at `i`.
pub open spec fn run_end(s: Seq<char>, i: int, p: spec_fn(char) -> bool) -> int
    decreases s.len() - i,
{
    if 0 <= i < s.len() && p(s[i]) {
        run_end(s, i + 1, p)
    } else {
        i
    }
}

pub proof fn lemma_run_end_bounds(s: Seq<char>, i: int, p: spec_fn(char) -> bool)
    requires
        0 <= i <= s.len(),
    ensures
        i <= run_end(s, i, p) <= s.len(),
    decreases s.len() - i,
{
    if i < s.len() && p(s[i]) {
        lemma_run_end_bounds(s, i + 1, p);
    }
}

/// The word `w` occurs at position `i` of `s`.
pub open spec fn word_at(s: Seq<char>, i: int, w: Seq<char>) -> bool {
    &&& 0 <= i
    &&& i + w.len() <= s.len()
    &&& s.subrange(i, i + w.len()) == w
}

/// Exactly four digits occur at position `i`.
pub open spec fn four_digits_at(s: Seq<char>, i: int) -> bool {
    &&& 0 <= i
    &&& i + 4 <= s.len()
    &&& forall|k: int| i <= k < i + 4 ==> is_digit(s[k])
}

/// End of the optional cents part after the integer part ending at `i`: a
/// dot followed by one or two fraction digits (two when available), or
/// nothing.
pub open spec fn cents_end(s: Seq<char>, i: int) -> int
    recommends
        0 <= i <= s.len(),
{
    if 0 <= i < s.len() && s[i] == '.' {
        let d = run_end(s, i + 1, |c: char| is_digit(c));
        if d - (i + 1) >= 2 {
            i + 3
        } else if d - (i + 1) == 1 {
            i + 2
        } else {
            i
        }
    } else {
        i
    }
}

/// End of a scale word at position `i`: a spelled-out scale or one of the
/// single-letter abbreviations.
pub open spec fn scale_end(s: Seq<char>, i: int) -> Option<int> {
    if word_at(s, i, "million"@) {
        Some(i + "million"@.len() as int)
    } else if word_at(s, i, "billion"@) {
        Some(i + "billion"@.len() as int)
    } else if word_at(s, i, "thousand"@) {
        Some(i + "thousand"@.len() as int)
    } else if word_at(s, i, "M"@) {
        Some(i + "M"@.len() as int)
    } else if word_at(s, i, "B"@) {
        Some(i + "B"@.len() as int)
    } else if word_at(s, i, "K"@) {
        Some(i + "K"@.len() as int)
    } else {
        None
    }
}

/// A monetary amount starting at `i`: a dollar sign, at least one digit or
/// thousands separator, optional cents, and an optional scale word that may
/// be preceded by whitespace. Whitespace is part of the match only when a
/// scale word follows it. Returns the end of the match.
pub open spec fn money_at(s: Seq<char>, i: int) -> Option<int> {
    if 0 <= i < s.len() && s[i] == '$' {
        let a = run_end(s, i + 1, |c: char| is_digit_comma(c));
        if a > i + 1 {
            let p = cents_end(s, a);
            let q = space_run_end(s, p);
            match scale_end(s, q) {
                Some(e) => Some(e),
                None => Some(p),
            }
        } else {
            None
        }
    } else {
        None
    }
}

/// A percentage starting at `i`: digits, an optional decimal fraction, and
/// a percent sign directly after. Returns the end of the match.
pub open spec fn pct_at(s: Seq<char>, i: int) -> Option<int> {
    if 0 <= i < s.len() && is_digit(s[i]) {
        let d = run_end(s, i, |c: char| is_digit(c));
        if d < s.len() && s[d] == '.' {
            let d2 = run_end(s, d + 1, |c: char| is_digit(c));
            if d2 > d + 1 && d2 < s.len() && s[d2] == '%' {
                Some(d2 + 1)
            } else {
                None
            }
        } else if d < s.len() && s[d] == '%' {
            Some(d + 1)
        } else {
            None
        }
    } else {
        None
    }
}

/// End of a full month name at position `i`.
pub open spec fn month_end(s: Seq<char>, i: int) -> Option<int> {
    if word_at(s, i, "January"@) {
        Some(i + "January"@.len() as int)
    } else if word_at(s, i, "February"@) {
        Some(i + "February"@.len() as int)
    } else if word_at(s, i, "March"@) {
        Some(i + "March"@.len() as int)
    } else if word_at(s, i, "April"@) {
        Some(i + "April"@.len() as int)
    } else if word_at(s, i, "May"@) {
        Some(i + "May"@.len() as int)
    } else if word_at(s, i, "June"@) {
        Some(i + "June"@.len() as int)
    } else if word_at(s, i, "July"@) {
        Some(i + "July"@.len() as int)
    } else if word_at(s, i, "August"@) {
        Some(i + "August"@.len() as int)
    } else if word_at(s, i, "September"@) {
        Some(i + "September"@.len() as int)
    } else if word_at(s, i, "October"@) {
        Some(i + "October"@.len() as int)
    } else if word_at(s, i, "November"@) {
        Some(i + "November"@.len() as int)
    } else if word_at(s, i, "December"@) {
        Some(i + "December"@.len() as int)
    } else {
        None
    }
}

/// A date starting at `i`: quarter-year shorthand, an ISO calendar date,
/// or a full month name with a one- or two-digit day, an optional comma,
/// and a four-digit year. Returns the end of the match.
pub open spec fn date_at(s: Seq<char>, i: int) -> Option<int> {
    if 0 <= i < s.len() && s[i] == 'Q' {
        if i + 1 < s.len() && 49 <= s[i + 1] as u32 <= 52 {
            let w = space_run_end(s, i + 2);
            if w > i + 2 && four_digits_at(s, w) {
                Some(w + 4)
            } else {
                None
            }
        } else {
            None
        }
    } else if four_digits_at(s, i) && i + 10 <= s.len() && s[i + 4] == '-' && is_digit(s[i + 5])
        && is_digit(s[i + 6]) && s[i + 7] == '-' && is_digit(s[i + 8]) && is_digit(s[i + 9]) {
        Some(i + 10)
    } else {
        match month_end(s, i) {
            Some(m) => {
                let w = space_run_end(s, m);
                if w > m {
                    let d = run_end(s, w, |c: char| is_digit(c));
                    if 1 <= d - w <= 2 {
                        let p = if d < s.len() && s[d] == ',' {
                            d + 1
                        } else {
                            d
                        };
                        let q = space_run_end(s, p);
                        if q > p && four_digits_at(s, q) {
                            Some(q + 4)
                        } else {
                            None
                        }
                    } else {
                        None
                    }
                } else {
                    None
                }
            },
            None => None,
        }
    }
}

/// A ticker-like token starting at `i`: a maximal run of two to five
/// uppercase letters bounded by word edges. Returns the end of the match.
pub open spec fn ticker_at(s: Seq<char>, i: int) -> Option<int> {
    if 0 <= i < s.len() && is_upper(s[i]) && (i == 0 || !is_word_char(s[i - 1])) {
        let e = run_end(s, i, |c: char| is_upper(c));
        if 2 <= e - i <= 5 && (e == s.len() || !is_word_char(s[e])) {
            Some(e)
        } else {
            None
        }
    } else {
        None
    }
}

pub proof fn lemma_money_at_advances(s: Seq<char>, i: int)
    requires
        0 <= i <= s.len(),
        money_at(s, i) is Some,
    ensures
        i < money_at(s, i).unwrap() <= s.len(),
{
    lemma_run_end_bounds(s, i + 1, |c: char| is_digit_comma(c));
    let a = run_end(s, i + 1, |c: char| is_digit_comma(c));
    if a < s.len() && s[a] == '.' {
        lemma_run_end_bounds(s, a + 1, |c: char| is_digit(c));
    }
    let p = cents_end(s, a);
    lemma_space_run_end_bounds(s, p);
}

pub proof fn lemma_pct_at_advances(s: Seq<char>, i: int)
    requires
        0 <= i <= s.len(),
        pct_at(s, i) is Some,
    ensures
        i < pct_at(s, i).unwrap() <= s.len(),
{
    lemma_run_end_bounds(s, i, |c: char| is_digit(c));
    let d = run_end(s, i, |c: char| is_digit(c));
    if d < s.len() && s[d] == '.' {
        lemma_run_end_bounds(s, d + 1, |c: char| is_digit(c));
    }
}

pub proof fn lemma_date_at_advances(s: Seq<char>, i: int)
    requires
        0 <= i <= s.len(),
        date_at(s, i) is Some,
    ensures
        i < date_at(s, i).unwrap() <= s.len(),
{
    if 0 <= i < s.len() && s[i] == 'Q' {
        lemma_space_run_end_bounds(s, i + 2);
    } else if four_digits_at(s, i) && i + 10 <= s.len() && s[i + 4] == '-' && is_digit(s[i + 5])
        && is_digit(s[i + 6]) && s[i + 7] == '-' && is_digit(s[i + 8]) && is_digit(s[i + 9]) {
    } else if date_at(s, i) is Some {
        let m = month_end(s, i).unwrap();
        lemma_space_run_end_bounds(s, m);
        let w = space_run_end(s, m);
        lemma_run_end_bounds(s, w, |c: char| is_digit(c));
        let d = run_end(s, w, |c: char| is_digit(c));
        let p = if d < s.len() && s[d] == ',' {
            d + 1
        } else {
            d
        };
        lemma_space_run_end_bounds(s, p);
    }
}

pub proof fn lemma_ticker_at_advances(s: Seq<char>, i: int)
    requires
        0 <= i <= s.len(),
        ticker_at(s, i) is Some,
    ensures
        i < ticker_at(s, i).unwrap() <= s.len(),
{
    lemma_run_end_bounds(s, i, |c: char| is_upper(c));
}

/// The monetary amounts of `s` from position `i` on, in first-match order.
pub open spec fn money_scan_from(s: Seq<char>, i: int) -> Seq<Seq<char>>
    decreases s.len() - i,
        when 0 <= i <= s.len()
        via money_scan_from_decreases
{
    if i >= s.len() {
        Seq::empty()
    } else {
        match money_at(s, i) {
            Some(j) => seq![s.subrange(i, j)] + money_scan_from(s, j),
            None => money_scan_from(s, i + 1),
        }
    }
}

#[via_fn]
proof fn money_scan_from_decreases(s: Seq<char>, i: int) {
    if i < s.len() && money_at(s, i) is Some {
        lemma_money_at_advances(s, i);
    }
}

/// The percentages of `s` from position `i` on, in first-match order.
pub open spec fn pct_scan_from(s: Seq<char>, i: int) -> Seq<Seq<char>>
    decreases s.len() - i,
        when 0 <= i <= s.len()
        via pct_scan_from_decreases
{
    if i >= s.len() {
        Seq::empty()
    } else {
        match pct_at(s, i) {
            Some(j) => seq![s.subrange(i, j)] + pct_scan_from(s, j),
            None => pct_scan_from(s, i + 1),
        }
    }
}

#[via_fn]
proof fn pct_scan_from_decreases(s: Seq<char>, i: int) {
    if i < s.len() && pct_at(s, i) is Some {
        lemma_pct_at_advances(s, i);
    }
}

/// The dates of `s` from position `i` on, in first-match order.
pub open spec fn date_scan_from(s: Seq<char>, i: int) -> Seq<Seq<char>>
    decreases s.len() - i,
        when 0 <= i <= s.len()
        via date_scan_from_decreases
{
    if i >= s.len() {
        Seq::empty()
    } else {
        match date_at(s, i) {
            Some(j) => seq![s.subrange(i, j)] + date_scan_from(s, j),
            None => date_scan_from(s, i + 1),
        }
    }
}

#[via_fn]
proof fn date_scan_from_decreases(s: Seq<char>, i: int) {
    if i < s.len() && date_at(s, i) is Some {
        lemma_date_at_advances(s, i);
    }
}

/// The ticker-like tokens of `s` from position `i` on, in first-match
/// order, before stoplist filtering and deduplication.
pub open spec fn ticker_scan_from(s: Seq<char>, i: int) -> Seq<Seq<char>>
    decreases s.len() - i,
        when 0 <= i <= s.len()
        via ticker_scan_from_decreases
{
    if i >= s.len() {
        Seq::empty()
    } else {
        match ticker_at(s, i) {
            Some(j) => seq![s.subrange(i, j)] + ticker_scan_from(s, j),
            None => ticker_scan_from(s, i + 1),
        }
    }
}

#[via_fn]
proof fn ticker_scan_from_decreases(s: Seq<char>, i: int) {
    if i < s.len() && ticker_at(s, i) is Some {
        lemma_ticker_at_advances(s, i);
    }
}

pub open spec fn money_scan(s: Seq<char>) -> Seq<Seq<char>> {
    money_scan_from(s, 0)
}

pub open spec fn pct_scan(s: Seq<char>) -> Seq<Seq<char>> {
    pct_scan_from(s, 0)
}

pub open spec fn date_scan(s: Seq<char>) -> Seq<Seq<char>> {
    date_scan_from(s, 0)
}

pub open spec fn ticker_scan(s: Seq<char>) -> Seq<Seq<char>> {
    ticker_scan_from(s, 0)
}

pub fn digit(c: char) -> (r: bool)
    ensures
        r == is_digit(c),
{
    let u = c as u32;
    48 <= u && u <= 57
}

pub fn digit_comma(c: char) -> (r: bool)
    ensures
        r == is_digit_comma(c),
{
    digit(c) || c == ','
}

pub fn upper(c: char) -> (r: bool)
    ensures
        r == is_upper(c),
{
    let u = c as u32;
    65 <= u && u <= 90
}

pub fn word_char(c: char) -> (r: bool)
    ensures
        r == is_word_char(c),
{
    let u = c as u32;
    (65 <= u && u <= 90) || (97 <= u && u <= 122) || (48 <= u && u <= 57) || u == 0x5F
}

fn digit_end(v: &Vec<char>, i: usize) -> (r: usize)
    requires
        i <= v@.len(),
    ensures
        r == run_end(v@, i as int, |c: char| is_digit(c)),
        i <= r <= v@.len(),
{
    let mut j: usize = i;
    while j < v.len() && digit(v[j])
        invariant
            i <= j <= v@.len(),
            run_end(v@, i as int, |c: char| is_digit(c)) == run_end(
                v@,
                j as int,
                |c: char| is_digit(c),
            ),
        decreases v@.len() - j,
    {
        j = j + 1;
    }
    proof {
        assert(run_end(v@, j as int, |c: char| is_digit(c)) == j);
    }
    j
}

fn digit_comma_end(v: &Vec<char>, i: usize) -> (r: usize)
    requires
        i <= v@.len(),
    ensures
        r == run_end(v@, i as int, |c: char| is_digit_comma(c)),
        i <= r <= v@.len(),
{
    let mut j: usize = i;
    while j < v.len() && digit_comma(v[j])
        invariant
            i <= j <= v@.len(),
            run_end(v@, i as int, |c: char| is_digit_comma(c)) == run_end(
                v@,
                j as int,
                |c: char| is_digit_comma(c),
            ),
        decreases v@.len() - j,
    {
        j = j + 1;
    }
    proof {
        assert(run_end(v@, j as int, |c: char| is_digit_comma(c)) == j);
    }
    j
}

fn upper_end(v: &Vec<char>, i: usize) -> (r: usize)
    requires
        i <= v@.len(),
    ensures
        r == run_end(v@, i as int, |c: char| is_upper(c)),
        i <= r <= v@.len(),
{
    let mut j: usize = i;
    while j < v.len() && upper(v[j])
        invariant
            i <= j <= v@.len(),
            run_end(v@, i as int, |c: char| is_upper(c)) == run_end(
                v@,
                j as int,
                |c: char| is_upper(c),
            ),
        decreases v@.len() - j,
    {
        j = j + 1;
    }
    proof {
        assert(run_end(v@, j as int, |c: char| is_upper(c)) == j);
    }
    j
}

fn space_end(v: &Vec<char>, i: usize) -> (r: usize)
    requires
        i <= v@.len(),
    ensures
        r == space_run_end(v@, i as int),
        i <= r <= v@.len(),
{
    let mut j: usize = i;
    while j < v.len() && is_space(v[j])
        invariant
            i <= j <= v@.len(),
            space_run_end(v@, i as int) == space_run_end(v@, j as int),
        decreases v@.len() - j,
    {
        j = j + 1;
    }
    proof {
        assert(space_run_end(v@, j as int) == j);
    }
    j
}

/// Whether the word `w` occurs at position `i` of `v`.
fn has_word_at(v: &Vec<char>, i: usize, w: &Vec<char>) -> (r: bool)
    requires
        i <= v@.len(),
    ensures
        r == word_at(v@, i as int, w@),
{
    let n = v.len();
    if n - i < w.len() {
        return false;
    }
    let mut k: usize = 0;
    while k < w.len()
        invariant
            k <= w@.len(),
            i + w@.len() <= v@.len(),
            i + w@.len() <= usize::MAX,
            forall|q: int| 0 <= q < k ==> v@[i + q] == w@[q],
        decreases w@.len() - k,
    {
        if v[i + k] != w[k] {
            proof {
                assert(v@.subrange(i as int, i + w@.len())[k as int] == v@[i + k]);
            }
            return false;
        }
        k = k + 1;
    }
    proof {
        assert(v@.subrange(i as int, i + w@.len()) =~= w@);
    }
    true
}

fn scale_end_exec(v: &Vec<char>, i: usize) -> (r: Option<usize>)
    requires
        i <= v@.len(),
    ensures
        r is Some <==> scale_end(v@, i as int) is Some,
        r is Some ==> r.unwrap() as int == scale_end(v@, i as int).unwrap(),
{
    let n = v.len();
    let w = chars_of("million");
    if has_word_at(v, i, &w) {
        return Some(i + w.len());
    }
    let w = chars_of("billion");
    if has_word_at(v, i, &w) {
        return Some(i + w.len());
    }
    let w = chars_of("thousand");
    if has_word_at(v, i, &w) {
        return Some(i + w.len());
    }
    let w = chars_of("M");
    if has_word_at(v, i, &w) {
        return Some(i + w.len());
    }
    let w = chars_of("B");
    if has_word_at(v, i, &w) {
        return Some(i + w.len());
    }
    let w = chars_of("K");
    if has_word_at(v, i, &w) {
        return Some(i + w.len());
    }
    None
}

fn month_end_exec(v: &Vec<char>, i: usize) -> (r: Option<usize>)
    requires
        i <= v@.len(),
    ensures
        r is Some <==> month_end(v@, i as int) is Some,
        r is Some ==> r.unwrap() as int == month_end(v@, i as int).unwrap(),
{
    let n = v.len();
    let w = chars_of("January");
    if has_word_at(v, i, &w) {
        return Some(i + w.len());
    }
    let w = chars_of("February");
    if has_word_at(v, i, &w) {
        return Some(i + w.len());
    }
    let w = chars_of("March");
    if has_word_at(v, i, &w) {
        return Some(i + w.len());
    }
    let w = chars_of("April");
    if has_word_at(v, i, &w) {
        return Some(i + w.len());
    }
    let w = chars_of("May");
    if has_word_at(v, i, &w) {
        return Some(i + w.len());
    }
    let w = chars_of("June");
    if has_word_at(v, i, &w) {
        return Some(i + w.len());
    }
    let w = chars_of("July");
    if has_word_at(v, i, &w) {
        return Some(i + w.len());
    }
    let w = chars_of("August");
    if has_word_at(v, i, &w) {
        return Some(i + w.len());
    }
    let w = chars_of("September");
    if has_word_at(v, i, &w) {
        return Some(i + w.len());
    }
    let w = chars_of("October");
    if has_word_at(v, i, &w) {
        return Some(i + w.len());
    }
    let w = chars_of("November");
    if has_word_at(v, i, &w) {
        return Some(i + w.len());
    }
    let w = chars_of("December");
    if has_word_at(v, i, &w) {
        return Some(i + w.len());
    }
    None
}

fn money_at_exec(v: &Vec<char>, i: usize) -> (r: Option<usize>)
    requires
        i < v@.len(),
    ensures
        r is Some <==> money_at(v@, i as int) is Some,
        r is Some ==> r.unwrap() as int == money_at(v@, i as int).unwrap(),
{
    let n = v.len();
    if v[i] != '$' {
        return None;
    }
    let a = digit_comma_end(v, i + 1);
    if a <= i + 1 {
        return None;
    }
    let p = if a < v.len() && v[a] == '.' {
        let d = digit_end(v, a + 1);
        if d - (a + 1) >= 2 {
            a + 3
        } else if d - (a + 1) == 1 {
            a + 2
        } else {
            a
        }
    } else {
        a
    };
    proof {
        assert(p as int == cents_end(v@, a as int));
    }
    let q = space_end(v, p);
    match scale_end_exec(v, q) {
        Some(e) => Some(e),
        None => Some(p),
    }
}

fn pct_at_exec(v: &Vec<char>, i: usize) -> (r: Option<usize>)
    requires
        i < v@.len(),
    ensures
        r is Some <==> pct_at(v@, i as int) is Some,
        r is Some ==> r.unwrap() as int == pct_at(v@, i as int).unwrap(),
{
    if !digit(v[i]) {
        return None;
    }
    let d = digit_end(v, i);
    if d < v.len() && v[d] == '.' {
        let d2 = digit_end(v, d + 1);
        if d2 > d + 1 && d2 < v.len() && v[d2] == '%' {
            Some(d2 + 1)
        } else {
            None
        }
    } else if d < v.len() && v[d] == '%' {
        Some(d + 1)
    } else {
        None
    }
}

fn date_at_exec(v: &Vec<char>, i: usize) -> (r: Option<usize>)
    requires
        i < v@.len(),
    ensures
        r is Some <==> date_at(v@, i as int) is Some,
        r is Some ==> r.unwrap() as int == date_at(v@, i as int).unwrap(),
{
    let n = v.len();
    if v[i] == 'Q' {
        if i + 1 < n {
            let u = v[i + 1] as u32;
            if 49 <= u && u <= 52 {
                let w = space_end(v, i + 2);
                if w > i + 2 && four_digits_exec(v, w) {
                    return Some(w + 4);
                }
            }
        }
        return None;
    }
    if four_digits_exec(v, i) && v.len() - i >= 10 && v[i + 4] == '-' && digit(v[i + 5]) && digit(
        v[i + 6],
    ) && v[i + 7] == '-' && digit(v[i + 8]) && digit(v[i + 9]) {
        return Some(i + 10);
    }
    proof {
        assert(!(four_digits_at(v@, i as int) && i + 10 <= v@.len() && v@[i + 4] == '-'
            && is_digit(v@[i + 5]) && is_digit(v@[i + 6]) && v@[i + 7] == '-' && is_digit(
            v@[i + 8],
        ) && is_digit(v@[i + 9])));
    }
    match month_end_exec(v, i) {
        Some(m) => {
            let w = space_end(v, m);
            if w > m {
                let d = digit_end(v, w);
                if 1 <= d - w && d - w <= 2 {
                    let p = if d < v.len() && v[d] == ',' {
                        d + 1
                    } else {
                        d
                    };
                    let q = space_end(v, p);
                    if q > p && four_digits_exec(v, q) {
                        return Some(q + 4);
                    }
                }
            }
            None
        },
        None => None,
    }
}

fn four_digits_exec(v: &Vec<char>, i: usize) -> (r: bool)
    ensures
        r == four_digits_at(v@, i as int),
{
    if i > v.len() || v.len() - i < 4 {
        return false;
    }
    let r = digit(v[i]) && digit(v[i + 1]) && digit(v[i + 2]) && digit(v[i + 3]);
    proof {
        if r {
            assert forall|k: int| i <= k < i + 4 implies is_digit(v@[k]) by {
                assert(k == i || k == i + 1 || k == i + 2 || k == i + 3);
            }
        }
    }
    r
}

fn ticker_at_exec(v: &Vec<char>, i: usize) -> (r: Option<usize>)
    requires
        i < v@.len(),
    ensures
        r is Some <==> ticker_at(v@, i as int) is Some,
        r is Some ==> r.unwrap() as int == ticker_at(v@, i as int).unwrap(),
{
    if !upper(v[i]) {
        return None;
    }
    if i > 0 && word_char(v[i - 1]) {
        return None;
    }
    let e = upper_end(v, i);
    if 2 <= e - i && e - i <= 5 && (e == v.len() || !word_char(v[e])) {
        Some(e)
    } else {
        None
    }
}

fn scan_money(v: &Vec<char>) -> (out: Vec<Vec<char>>)
    ensures
        views(out@) == money_scan(v@),
{
    let mut out: Vec<Vec<char>> = Vec::new();
    let mut i: usize = 0;
    proof {
        assert(views(out@) + money_scan_from(v@, 0) =~= money_scan_from(v@, 0));
    }
    while i < v.len()
        invariant
            i <= v@.len(),
            money_scan(v@) == views(out@) + money_scan_from(v@, i as int),
        decreases v@.len() - i,
    {
        let ghost old_out = views(out@);
        match money_at_exec(v, i) {
            Some(j) => {
                proof {
                    lemma_money_at_advances(v@, i as int);
                }
                let piece = sub_chars(v, i, j);
                out.push(piece);
                proof {
                    assert(views(out@) =~~= old_out.push(v@.subrange(i as int, j as int)));
                    assert(old_out + money_scan_from(v@, i as int) =~= views(out@)
                        + money_scan_from(v@, j as int));
                }
                i = j;
            },
            None => {
                i = i + 1;
            },
        }
    }
    proof {
        assert(views(out@) =~= money_scan(v@));
    }
    out
}

fn scan_pct(v: &Vec<char>) -> (out: Vec<Vec<char>>)
    ensures
        views(out@) == pct_scan(v@),
{
    let mut out: Vec<Vec<char>> = Vec::new();
    let mut i: usize = 0;
    proof {
        assert(views(out@) + pct_scan_from(v@, 0) =~= pct_scan_from(v@, 0));
    }
    while i < v.len()
        invariant
            i <= v@.len(),
            pct_scan(v@) == views(out@) + pct_scan_from(v@, i as int),
        decreases v@.len() - i,
    {
        let ghost old_out = views(out@);
        match pct_at_exec(v, i) {
            Some(j) => {
                proof {
                    lemma_pct_at_advances(v@, i as int);
                }
                let piece = sub_chars(v, i, j);
                out.push(piece);
                proof {
                    assert(views(out@) =~~= old_out.push(v@.subrange(i as int, j as int)));
                    assert(old_out + pct_scan_from(v@, i as int) =~= views(out@) + pct_scan_from(
                        v@,
                        j as int,
                    ));
                }
                i = j;
            },
            None => {
                i = i + 1;
            },
        }
    }
    proof {
        assert(views(out@) =~= pct_scan(v@));
    }
    out
}

fn scan_dates(v: &Vec<char>) -> (out: Vec<Vec<char>>)
    ensures
        views(out@) == date_scan(v@),
{
    let mut out: Vec<Vec<char>> = Vec::new();
    let mut i: usize = 0;
    proof {
        assert(views(out@) + date_scan_from(v@, 0) =~= date_scan_from(v@, 0));
    }
    while i < v.len()
        invariant
            i <= v@.len(),
            date_scan(v@) == views(out@) + date_scan_from(v@, i as int),
        decreases v@.len() - i,
    {
        let ghost old_out = views(out@);
        match date_at_exec(v, i) {
            Some(j) => {
                proof {
                    lemma_date_at_advances(v@, i as int);
                }
                let piece = sub_chars(v, i, j);
                out.push(piece);
                proof {
                    assert(views(out@) =~~= old_out.push(v@.subrange(i as int, j as int)));
                    assert(old_out + date_scan_from(v@, i as int) =~= views(out@)
                        + date_scan_from(v@, j as int));
                }
                i = j;
            },
            None => {
                i = i + 1;
            },
        }
    }
    proof {
        assert(views(out@) =~= date_scan(v@));
    }
    out
}

fn scan_tickers(v: &Vec<char>) -> (out: Vec<Vec<char>>)
    ensures
        views(out@) == ticker_scan(v@),
{
    let mut out: Vec<Vec<char>> = Vec::new();
    let mut i: usize = 0;
    proof {
        assert(views(out@) + ticker_scan_from(v@, 0) =~= ticker_scan_from(v@, 0));
    }
    while i < v.len()
        invariant
            i <= v@.len(),
            ticker_scan(v@) == views(out@) + ticker_scan_from(v@, i as int),
        decreases v@.len() - i,
    {
        let ghost old_out = views(out@);
        match ticker_at_exec(v, i) {
            Some(j) => {
                proof {
                    lemma_ticker_at_advances(v@, i as int);
                }
                let piece = sub_chars(v, i, j);
                out.push(piece);
                proof {
                    assert(views(out@) =~~= old_out.push(v@.subrange(i as int, j as int)));
                    assert(old_out + ticker_scan_from(v@, i as int) =~= views(out@)
                        + ticker_scan_from(v@, j as int));
                }
                i = j;
            },
            None => {
                i = i + 1;
            },
        }
    }
    proof {
        assert(views(out@) =~= ticker_scan(v@));
    }
    out
}

/// The fixed stoplist of common short uppercase words and acronyms that
/// would otherwise be reported as tickers.
pub open spec fn stopwords() -> Seq<Seq<char>> {
    seq![
        "THE"@,
        "AND"@,
        "FOR"@,
        "ARE"@,
        "BUT"@,
        "NOT"@,
        "YOU"@,
        "ALL"@,
        "CAN"@,
        "HAD"@,
        "HER"@,
        "WAS"@,
        "ONE"@,
        "OUR"@,
        "OUT"@,
        "CEO"@,
        "CFO"@,
        "COO"@,
        "IPO"@,
        "USA"@,
    ]
}

pub open spec fn is_stopword(w: Seq<char>) -> bool {
    stopwords().contains(w)
}

/// The tokens of `xs` that are not stopwords, in order.
pub open spec fn keep_non_stop(xs: Seq<Seq<char>>) -> Seq<Seq<char>>
    decreases xs.len(),
{
    if xs.len() == 0 {
        Seq::empty()
    } else {
        let rest = keep_non_stop(xs.drop_last());
        if !is_stopword(xs.last()) {
            rest.push(xs.last())
        } else {
            rest
        }
    }
}

/// Lexicographic order on character sequences by code point, the order in
/// which tickers are reported.
pub open spec fn lex_lt(a: Seq<char>, b: Seq<char>) -> bool
    decreases a.len(),
{
    if b.len() == 0 {
        false
    } else if a.len() == 0 {
        true
    } else if (a[0] as u32) < (b[0] as u32) {
        true
    } else if (a[0] as u32) > (b[0] as u32) {
        false
    } else {
        lex_lt(a.drop_first(), b.drop_first())
    }
}

proof fn lemma_char_code_eq(x: char, y: char)
    requires
        x as u32 == y as u32,
    ensures
        x == y,
{
}

pub proof fn lemma_lex_trichotomy(a: Seq<char>, b: Seq<char>)
    ensures
        a == b || lex_lt(a, b) || lex_lt(b, a),
        lex_lt(a, b) ==> a != b,
        !(lex_lt(a, b) && lex_lt(b, a)),
    decreases a.len(),
{
    if a.len() == 0 && b.len() == 0 {
        assert(a =~= b);
    } else if a.len() > 0 && b.len() > 0 {
        if (a[0] as u32) == (b[0] as u32) {
            lemma_lex_trichotomy(a.drop_first(), b.drop_first());
            if a.drop_first() == b.drop_first() {
                lemma_char_code_eq(a[0], b[0]);
                assert(a =~= seq![a[0]] + a.drop_first());
                assert(b =~= seq![b[0]] + b.drop_first());
                assert(a == b);
            }
            if a == b {
                assert(a.drop_first() =~= b.drop_first());
            }
        } else {
            if a == b {
                assert(a[0] == b[0]);
            }
        }
    } else {
        if a == b {
            assert(a.len() == b.len());
        }
    }
}

pub proof fn lemma_lex_trans(a: Seq<char>, b: Seq<char>, c: Seq<char>)
    requires
        lex_lt(a, b),
        lex_lt(b, c),
    ensures
        lex_lt(a, c),
    decreases a.len(),
{
    if a.len() > 0 {
        if (a[0] as u32) == (b[0] as u32) && (b[0] as u32) == (c[0] as u32) {
            lemma_lex_trans(a.drop_first(), b.drop_first(), c.drop_first());
        }
    }
}

pub open spec fn strictly_sorted(xs: Seq<Seq<char>>) -> bool {
    forall|p: int, q: int| 0 <= p < q < xs.len() ==> lex_lt(xs[p], xs[q])
}

/// `x` inserted into the strictly sorted `acc`, unless already present.
pub open spec fn insert_sorted(acc: Seq<Seq<char>>, x: Seq<char>) -> Seq<Seq<char>>
    decreases acc.len(),
{
    if acc.len() == 0 {
        seq![x]
    } else if lex_lt(acc[0], x) {
        seq![acc[0]] + insert_sorted(acc.drop_first(), x)
    } else if acc[0] == x {
        acc
    } else {
        seq![x] + acc
    }
}

/// `xs` sorted lexicographically with duplicates removed, by repeated
/// insertion.
pub open spec fn sort_dedup(xs: Seq<Seq<char>>) -> Seq<Seq<char>>
    decreases xs.len(),
{
    if xs.len() == 0 {
        Seq::empty()
    } else {
        insert_sorted(sort_dedup(xs.drop_last()), xs.last())
    }
}

pub proof fn lemma_insert_sorted_props(acc: Seq<Seq<char>>, x: Seq<char>)
    requires
        strictly_sorted(acc),
    ensures
        strictly_sorted(insert_sorted(acc, x)),
        insert_sorted(acc, x).contains(x),
        forall|y: Seq<char>|
            insert_sorted(acc, x).contains(y) <==> (acc.contains(y) || y == x),
    decreases acc.len(),
{
    let res = insert_sorted(acc, x);
    if acc.len() == 0 {
        assert(res =~= seq![x]);
        assert(res[0] == x);
        assert(res.contains(res[0]));
        assert forall|y: Seq<char>| res.contains(y) <==> (acc.contains(y) || y == x) by {
            if y == x {
                assert(res[0] == y);
                assert(res.contains(y));
            }
            if res.contains(y) {
                let k = choose|k: int| 0 <= k < res.len() && res[k] == y;
                assert(y == x);
            }
        }
    } else if lex_lt(acc[0], x) {
        let rest = acc.drop_first();
        assert(strictly_sorted(rest)) by {
            assert forall|p: int, q: int| 0 <= p < q < rest.len() implies lex_lt(
                rest[p],
                rest[q],
            ) by {
                assert(rest[p] == acc[p + 1]);
                assert(rest[q] == acc[q + 1]);
            }
        }
        lemma_insert_sorted_props(rest, x);
        let ins = insert_sorted(rest, x);
        assert(res == seq![acc[0]] + ins);
        assert(res.contains(x)) by {
            let j = choose|j: int| 0 <= j < ins.len() && ins[j] == x;
            assert(res[j + 1] == (seq![acc[0]] + ins)[j + 1]);
            assert(res[j + 1] == ins[j]);
            assert(res.contains(res[j + 1]));
        }
        assert forall|y: Seq<char>| res.contains(y) implies (acc.contains(y) || y == x) by {
            let k = choose|k: int| 0 <= k < res.len() && res[k] == y;
            assert(res[k] == (seq![acc[0]] + ins)[k]);
            if k == 0 {
                assert((seq![acc[0]] + ins)[0] == acc[0]);
                assert(acc.contains(acc[0]));
            } else {
                assert((seq![acc[0]] + ins)[k] == ins[k - 1]);
                assert(ins.contains(ins[k - 1]));
                assert(ins.contains(y));
                if rest.contains(y) {
                    let j = choose|j: int| 0 <= j < rest.len() && rest[j] == y;
                    assert(acc[j + 1] == rest[j]);
                    assert(acc.contains(acc[j + 1]));
                }
            }
        }
        assert forall|y: Seq<char>| (acc.contains(y) || y == x) implies res.contains(y) by {
            if acc.contains(y) && !(y == x) {
                let k = choose|k: int| 0 <= k < acc.len() && acc[k] == y;
                if k == 0 {
                    assert(res[0] == (seq![acc[0]] + ins)[0]);
                    assert(res[0] == acc[0]);
                    assert(res.contains(res[0]));
                } else {
                    assert(rest[k - 1] == acc[k]);
                    assert(rest.contains(rest[k - 1]));
                    assert(insert_sorted(rest, x).contains(y));
                    let j = choose|j: int| 0 <= j < ins.len() && ins[j] == y;
                    assert(res[j + 1] == (seq![acc[0]] + ins)[j + 1]);
                    assert(res[j + 1] == ins[j]);
                    assert(res.contains(res[j + 1]));
                }
            } else if y == x {
                assert(res.contains(x));
            }
        }
        assert forall|p: int, q: int| 0 <= p < q < res.len() implies lex_lt(res[p], res[q]) by {
            if p == 0 {
                assert(res[q] == (seq![acc[0]] + ins)[q]);
                assert(res[q] == ins[q - 1]);
                assert(ins.contains(ins[q - 1]));
                if rest.contains(res[q]) {
                    let j = choose|j: int| 0 <= j < rest.len() && rest[j] == res[q];
                    assert(acc[j + 1] == rest[j]);
                    assert(lex_lt(acc[0], acc[j + 1]));
                } else {
                    assert(res[q] == x);
                }
            } else {
                assert(res[p] == (seq![acc[0]] + ins)[p]);
                assert(res[q] == (seq![acc[0]] + ins)[q]);
                assert(res[p] == ins[p - 1]);
                assert(res[q] == ins[q - 1]);
            }
        }
    } else if acc[0] == x {
        assert(res == acc);
        assert(res.contains(res[0]));
        assert forall|y: Seq<char>| (acc.contains(y) || y == x) implies res.contains(y) by {
            if y == x {
                assert(res[0] == y);
            }
        }
    } else {
        lemma_lex_trichotomy(acc[0], x);
        assert(lex_lt(x, acc[0]));
        assert(res == seq![x] + acc);
        assert(res[0] == x);
        assert(res.contains(res[0]));
        assert forall|p: int, q: int| 0 <= p < q < res.len() implies lex_lt(res[p], res[q]) by {
            if p == 0 {
                assert(res[q] == acc[q - 1]);
                if q == 1 {
                } else {
                    assert(lex_lt(acc[0], acc[q - 1]));
                    lemma_lex_trans(x, acc[0], acc[q - 1]);
                }
            } else {
                assert(res[p] == acc[p - 1]);
                assert(res[q] == acc[q - 1]);
            }
        }
        assert forall|y: Seq<char>| res.contains(y) implies (acc.contains(y) || y == x) by {
            let k = choose|k: int| 0 <= k < res.len() && res[k] == y;
            if k > 0 {
                assert(acc[k - 1] == y);
                assert(acc.contains(y));
            }
        }
        assert forall|y: Seq<char>| (acc.contains(y) || y == x) implies res.contains(y) by {
            if y == x {
                assert(res[0] == y);
            } else {
                let k = choose|k: int| 0 <= k < acc.len() && acc[k] == y;
                assert(res[k + 1] == y);
            }
        }
    }
}

pub proof fn lemma_sort_dedup_props(xs: Seq<Seq<char>>)
    ensures
        strictly_sorted(sort_dedup(xs)),
        forall|y: Seq<char>| sort_dedup(xs).contains(y) <==> xs.contains(y),
    decreases xs.len(),
{
    if xs.len() == 0 {
    } else {
        let front = xs.drop_last();
        lemma_sort_dedup_props(front);
        lemma_insert_sorted_props(sort_dedup(front), xs.last());
        assert(sort_dedup(xs) == insert_sorted(sort_dedup(front), xs.last()));
        assert forall|y: Seq<char>| sort_dedup(xs).contains(y) implies xs.contains(y) by {
            if front.contains(y) {
                let k = choose|k: int| 0 <= k < front.len() && front[k] == y;
                assert(front[k] == xs[k]);
                assert(xs.contains(xs[k]));
            } else {
                assert(y == xs.last());
                assert(xs[xs.len() - 1] == y);
                assert(xs.contains(xs[xs.len() - 1]));
            }
        }
        assert forall|y: Seq<char>| xs.contains(y) implies sort_dedup(xs).contains(y) by {
            let k = choose|k: int| 0 <= k < xs.len() && xs[k] == y;
            if k < xs.len() - 1 {
                assert(front[k] == xs[k]);
                assert(front.contains(front[k]));
                assert(front.contains(y));
            } else {
                assert(y == xs.last());
            }
        }
    }
}

/// The reported tickers of `s`: scan matches with stopwords dropped,
/// deduplicated and sorted lexicographically.
pub open spec fn tickers_spec(s: Seq<char>) -> Seq<Seq<char>> {
    sort_dedup(keep_non_stop(ticker_scan(s)))
}

/// The reported ticker list is strictly sorted, so it carries no
/// duplicates and its order is the same on every extraction.
pub proof fn lemma_tickers_sorted(t: Seq<char>)
    ensures
        strictly_sorted(tickers_spec(t)),
        forall|p: int, q: int|
            0 <= p < q < tickers_spec(t).len() ==> tickers_spec(t)[p] != tickers_spec(t)[q],
{
    lemma_sort_dedup_props(keep_non_stop(ticker_scan(t)));
    assert forall|p: int, q: int| 0 <= p < q < tickers_spec(t).len() implies tickers_spec(t)[p]
        != tickers_spec(t)[q] by {
        lemma_lex_trichotomy(tickers_spec(t)[p], tickers_spec(t)[q]);
    }
}

fn chars_eq(a: &Vec<char>, b: &Vec<char>) -> (r: bool)
    ensures
        r == (a@ == b@),
{
    if a.len() != b.len() {
        return false;
    }
    let mut k: usize = 0;
    while k < a.len()
        invariant
            k <= a@.len(),
            a@.len() == b@.len(),
            forall|q: int| 0 <= q < k ==> a@[q] == b@[q],
        decreases a@.len() - k,
    {
        if a[k] != b[k] {
            return false;
        }
        k = k + 1;
    }
    proof {
        assert(a@ =~= b@);
    }
    true
}

fn lex_lt_exec(a: &Vec<char>, b: &Vec<char>) -> (r: bool)
    ensures
        r == lex_lt(a@, b@),
{
    let mut k: usize = 0;
    proof {
        assert(a@.skip(0) =~= a@);
        assert(b@.skip(0) =~= b@);
    }
    while k < a.len() && k < b.len() && char_code_eq(a[k], b[k])
        invariant
            k <= a@.len(),
            k <= b@.len(),
            lex_lt(a@, b@) == lex_lt(a@.skip(k as int), b@.skip(k as int)),
        decreases a@.len() - k,
    {
        proof {
            assert(a@.skip(k as int).drop_first() =~= a@.skip(k + 1));
            assert(b@.skip(k as int).drop_first() =~= b@.skip(k + 1));
        }
        k = k + 1;
    }
    if k == b.len() {
        proof {
            assert(b@.skip(k as int).len() == 0);
        }
        false
    } else if k == a.len() {
        proof {
            assert(a@.skip(k as int).len() == 0);
            assert(b@.skip(k as int).len() > 0);
        }
        true
    } else {
        let x = a[k] as u32;
        let y = b[k] as u32;
        proof {
            assert(a@.skip(k as int)[0] == a@[k as int]);
            assert(b@.skip(k as int)[0] == b@[k as int]);
        }
        x < y
    }
}

fn char_code_eq(a: char, b: char) -> (r: bool)
    ensures
        r == ((a as u32) == (b as u32)),
{
    (a as u32) == (b as u32)
}

fn insert_sorted_exec(acc: Vec<Vec<char>>, x: Vec<char>) -> (r: Vec<Vec<char>>)
    ensures
        views(r@) == insert_sorted(views(acc@), x@),
{
    let ghost a = views(acc@);
    let mut pos: usize = 0;
    proof {
        assert(a.take(0) =~= Seq::<Seq<char>>::empty());
        assert(a.skip(0) =~= a);
        assert(a.take(0) + insert_sorted(a.skip(0), x@) =~= insert_sorted(a, x@));
    }
    while pos < acc.len() && lex_lt_exec(&acc[pos], &x)
        invariant
            pos <= acc@.len(),
            a == views(acc@),
            insert_sorted(a, x@) == a.take(pos as int) + insert_sorted(a.skip(pos as int), x@),
        decreases acc@.len() - pos,
    {
        proof {
            assert(a.skip(pos as int)[0] == a[pos as int]);
            assert(a[pos as int] == acc@[pos as int]@);
            assert(a.skip(pos as int).drop_first() =~= a.skip(pos + 1));
            assert(a.take(pos as int) + (seq![a[pos as int]] + insert_sorted(
                a.skip(pos + 1),
                x@,
            )) =~= a.take(pos + 1) + insert_sorted(a.skip(pos + 1), x@));
        }
        pos = pos + 1;
    }
    if pos == acc.len() {
        let mut acc = acc;
        acc.push(x);
        proof {
            assert(a.skip(a.len() as int).len() == 0);
            assert(views(acc@) =~~= a.take(a.len() as int) + seq![acc@[a.len() as int]@]);
        }
        acc
    } else if chars_eq(&acc[pos], &x) {
        proof {
            assert(a.skip(pos as int)[0] == a[pos as int]);
            assert(a[pos as int] == acc@[pos as int]@);
            assert(insert_sorted(a.skip(pos as int), x@) == a.skip(pos as int));
            assert(a.take(pos as int) + a.skip(pos as int) =~= a);
        }
        acc
    } else {
        let mut acc = acc;
        acc.insert(pos, x);
        proof {
            assert(a.skip(pos as int)[0] == a[pos as int]);
            assert(insert_sorted(a.skip(pos as int), x@) == seq![x@] + a.skip(pos as int));
            assert(views(acc@) =~~= a.take(pos as int) + (seq![x@] + a.skip(pos as int)));
        }
        acc
    }
}

fn stopword_list() -> (r: Vec<Vec<char>>)
    ensures
        views(r@) == stopwords(),
{
    let mut r: Vec<Vec<char>> = Vec::new();
    r.push(chars_of("THE"));
    r.push(chars_of("AND"));
    r.push(chars_of("FOR"));
    r.push(chars_of("ARE"));
    r.push(chars_of("BUT"));
    r.push(chars_of("NOT"));
    r.push(chars_of("YOU"));
    r.push(chars_of("ALL"));
    r.push(chars_of("CAN"));
    r.push(chars_of("HAD"));
    r.push(chars_of("HER"));
    r.push(chars_of("WAS"));
    r.push(chars_of("ONE"));
    r.push(chars_of("OUR"));
    r.push(chars_of("OUT"));
    r.push(chars_of("CEO"));
    r.push(chars_of("CFO"));
    r.push(chars_of("COO"));
    r.push(chars_of("IPO"));
    r.push(chars_of("USA"));
    proof {
        assert(views(r@) =~~= stopwords());
    }
    r
}

fn is_stopword_exec(w: &Vec<char>, stop: &Vec<Vec<char>>) -> (r: bool)
    requires
        views(stop@) == stopwords(),
    ensures
        r == is_stopword(w@),
{
    let mut k: usize = 0;
    while k < stop.len()
        invariant
            k <= stop@.len(),
            views(stop@) == stopwords(),
            forall|q: int| 0 <= q < k ==> stopwords()[q] != w@,
        decreases stop@.len() - k,
    {
        if chars_eq(&stop[k], w) {
            proof {
                assert(stopwords()[k as int] == stop@[k as int]@);
                assert(stopwords().contains(w@));
            }
            return true;
        }
        proof {
            assert(stopwords()[k as int] == stop@[k as int]@);
        }
        k = k + 1;
    }
    proof {
        assert(!stopwords().contains(w@));
    }
    false
}

/// The extracted entity set of one processed unit of text.
pub struct Metadata {
    pub monetary_amounts: Vec<String>,
    pub percentages: Vec<String>,
    pub dates: Vec<String>,
    pub potential_tickers: Vec<String>,
}

/// Extract financial entities from text: monetary amounts, percentages and
/// dates in first-match order with duplicates allowed, and ticker-like
/// tokens deduplicated and sorted lexicographically. The result is a
/// function of the text alone, so repeated extraction yields identical
/// lists in identical order.
pub fn extract_metadata(text: &str) -> (m: Metadata)
    ensures
        str_views(m.monetary_amounts@) == money_scan(text@),
        str_views(m.percentages@) == pct_scan(text@),
        str_views(m.dates@) == date_scan(text@),
        str_views(m.potential_tickers@) == tickers_spec(text@),
        strictly_sorted(str_views(m.potential_tickers@)),
{
    let v = chars_of(text);
    let money = scan_money(&v);
    let pcts = scan_pct(&v);
    let dates = scan_dates(&v);
    let raw = scan_tickers(&v);
    let stop = stopword_list();
    let mut acc: Vec<Vec<char>> = Vec::new();
    let mut j: usize = 0;
    proof {
        assert(views(raw@).take(0) =~= Seq::<Seq<char>>::empty());
        assert(views(acc@) =~= sort_dedup(keep_non_stop(views(raw@).take(0))));
    }
    while j < raw.len()
        invariant
            j <= raw@.len(),
            views(stop@) == stopwords(),
            views(acc@) == sort_dedup(keep_non_stop(views(raw@).take(j as int))),
        decreases raw@.len() - j,
    {
        let ghost kept = keep_non_stop(views(raw@).take(j as int));
        proof {
            assert(views(raw@).take(j + 1).drop_last() =~= views(raw@).take(j as int));
            assert(views(raw@).take(j + 1).last() == raw@[j as int]@);
        }
        if !is_stopword_exec(&raw[j], &stop) {
            let x = sub_chars(&raw[j], 0, raw[j].len());
            proof {
                assert(x@ =~= raw@[j as int]@);
                assert(keep_non_stop(views(raw@).take(j + 1)) == kept.push(raw@[j as int]@));
                assert(kept.push(raw@[j as int]@).drop_last() =~= kept);
            }
            acc = insert_sorted_exec(acc, x);
        } else {
            proof {
                assert(keep_non_stop(views(raw@).take(j + 1)) == kept);
            }
        }
        j = j + 1;
    }
    proof {
        assert(views(raw@).take(raw@.len() as int) =~= views(raw@));
        lemma_tickers_sorted(text@);
    }
    let tickers = strings_of(&acc);
    proof {
        assert(str_views(tickers@) == tickers_spec(text@));
    }
    Metadata {
        monetary_amounts: strings_of(&money),
        percentages: strings_of(&pcts),
        dates: strings_of(&dates),
        potential_tickers: tickers,
    }
}

} // verus!

