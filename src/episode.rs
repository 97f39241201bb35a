//! Episode numbers read from file names, by an ordered list of patterns.
use vstd::prelude::*;
use crate::text::{chars_of, decimal_end, decimal_end_exec, is_decimal_digit, is_decimal_digit_exec, sub_vec};
use crate::timecode::{digits_value, parse_digits, valid_field};

verus! {

/// White space as regular expressions know it (the Unicode `White_Space` set).
pub open spec fn is_space(c: char) -> bool {
    ||| c == ' ' || c == '\t' || c == '\n' || c == '\r' || c == '\x0B' || c == '\x0C'
    ||| c == '\u{85}' || c == '\u{A0}' || c == '\u{1680}'
    ||| '\u{2000}' <= c <= '\u{200A}'
    ||| c == '\u{2028}' || c == '\u{2029}' || c == '\u{202F}' || c == '\u{205F}' || c == '\u{3000}'
}

/// A separator before or after a bare episode number.
pub open spec fn is_separator(c: char) -> bool {
    is_space(c) || c == '-' || c == '_'
}

/// `c` matches the lower-case letter `p` without regard to case (`s` also
/// matches the long s, its case-folding partner).
pub open spec fn letter_matches(c: char, p: char) -> bool {
    c == p || (c as int) == (p as int) - 32 || (p == 's' && c == '\u{17F}')
}

pub open spec fn word_at(s: Seq<char>, i: int, w: Seq<char>) -> bool {
    0 <= i && i + w.len() <= s.len() && forall|k: int|
        0 <= k < w.len() ==> #[trigger] letter_matches(s[i + k], w[k])
}

pub open spec fn word_e() -> Seq<char> {
    seq!['e']
}

pub open spec fn word_ep() -> Seq<char> {
    seq!['e', 'p']
}

pub open spec fn word_episode() -> Seq<char> {
    seq!['e', 'p', 'i', 's', 'o', 'd', 'e']
}

/// The end of the run of white space or `_` that starts at `i`.
pub open spec fn filler_end(s: Seq<char>, i: int) -> int
    decreases s.len() - i,
{
    if 0 <= i < s.len() && (is_space(s[i]) || s[i] == '_') {
        filler_end(s, i + 1)
    } else {
        i
    }
}

/// The patterns, in order of priority:
/// `e<digits>`; `ep<digits>`; `episode`, optional white space or `_`, `<digits>`;
/// a separator, then two or three digits followed by `.`, a separator or the end.
/// A digit here is a decimal digit of any script.
#[derive(Clone, Copy, Debug, PartialEq, Eq, Structural)]
pub enum EpisodePattern {
    Letter,
    Abbreviated,
    Word,
    Bare,
}

/// Where the digits of a match of `pat` starting at `i` begin.
pub open spec fn capture_start(s: Seq<char>, pat: EpisodePattern, i: int) -> int {
    match pat {
        EpisodePattern::Letter => i + 1,
        EpisodePattern::Abbreviated => i + 2,
        EpisodePattern::Word => filler_end(s, i + 7),
        EpisodePattern::Bare => i + 1,
    }
}

pub open spec fn pattern_at(s: Seq<char>, pat: EpisodePattern, i: int) -> bool {
    let c = capture_start(s, pat, i);
    match pat {
        EpisodePattern::Letter => word_at(s, i, word_e()) && c < s.len() && is_decimal_digit(s[c]),
        EpisodePattern::Abbreviated => word_at(s, i, word_ep()) && c < s.len() && is_decimal_digit(s[c]),
        EpisodePattern::Word => word_at(s, i, word_episode()) && c < s.len() && is_decimal_digit(s[c]),
        EpisodePattern::Bare => {
            let e = decimal_end(s, c);
            &&& 0 <= i < s.len() && is_separator(s[i])
            &&& (e - c == 2 || e - c == 3)
            &&& (e == s.len() || s[e] == '.' || is_separator(s[e]))
        },
    }
}

/// The leftmost position at or after `i` where `pat` matches.
pub open spec fn first_match(s: Seq<char>, pat: EpisodePattern, i: int) -> Option<int>
    decreases s.len() - i,
{
    if i < 0 || i >= s.len() {
        None
    } else if pattern_at(s, pat, i) {
        Some(i)
    } else {
        first_match(s, pat, i + 1)
    }
}

/// The number captured by the leftmost match of `pat`, when its digits are
/// all ASCII and it fits in a `u32`; otherwise the pattern yields nothing.
pub open spec fn pattern_value(s: Seq<char>, pat: EpisodePattern) -> Option<int> {
    match first_match(s, pat, 0) {
        Some(i) => {
            let c = capture_start(s, pat, i);
            let cap = s.subrange(c, decimal_end(s, c));
            if valid_field(cap) && digits_value(cap) <= u32::MAX {
                Some(digits_value(cap))
            } else {
                None
            }
        },
        None => None,
    }
}

/// The first pattern, in priority order, that yields a number.
pub open spec fn episode_of(s: Seq<char>) -> Option<int> {
    if pattern_value(s, EpisodePattern::Letter) is Some {
        pattern_value(s, EpisodePattern::Letter)
    } else if pattern_value(s, EpisodePattern::Abbreviated) is Some {
        pattern_value(s, EpisodePattern::Abbreviated)
    } else if pattern_value(s, EpisodePattern::Word) is Some {
        pattern_value(s, EpisodePattern::Word)
    } else {
        pattern_value(s, EpisodePattern::Bare)
    }
}

fn is_space_exec(c: char) -> (r: bool)
    ensures
        r == is_space(c),
{
    c == ' ' || c == '\t' || c == '\n' || c == '\r' || c == '\x0B' || c == '\x0C' || c == '\u{85}'
        || c == '\u{A0}' || c == '\u{1680}' || ('\u{2000}' <= c && c <= '\u{200A}') || c
        == '\u{2028}' || c == '\u{2029}' || c == '\u{202F}' || c == '\u{205F}' || c == '\u{3000}'
}

fn is_separator_exec(c: char) -> (r: bool)
    ensures
        r == is_separator(c),
{
    is_space_exec(c) || c == '-' || c == '_'
}

fn letter_matches_exec(c: char, p: char) -> (r: bool)
    requires
        'a' <= p <= 'z',
    ensures
        r == letter_matches(c, p),
{
    c == p || (c as u32) + 32 == (p as u32) || (p == 's' && c == '\u{17F}')
}

fn word_at_exec(s: &[char], i: usize, w: &[char]) -> (r: bool)
    requires
        forall|k: int| 0 <= k < w@.len() ==> 'a' <= #[trigger] w@[k] <= 'z',
    ensures
        r == word_at(s@, i as int, w@),
{
    let n = s.len();
    if i > n || w.len() > n - i {
        return false;
    }
    let mut k: usize = 0;
    while k < w.len()
        invariant
            n == s@.len(),
            i + w@.len() <= n,
            k <= w@.len(),
            forall|j: int| 0 <= j < w@.len() ==> 'a' <= #[trigger] w@[j] <= 'z',
            forall|j: int| 0 <= j < k ==> #[trigger] letter_matches(s@[i + j], w@[j]),
        decreases w.len() - k,
    {
        if !letter_matches_exec(s[i + k], w[k]) {
            return false;
        }
        k = k + 1;
    }
    true
}

fn filler_end_exec(s: &[char], i: usize) -> (r: usize)
    requires
        i <= s@.len(),
    ensures
        r as int == filler_end(s@, i as int),
        i <= r <= s@.len(),
{
    let mut j: usize = i;
    while j < s.len() && (is_space_exec(s[j]) || s[j] == '_')
        invariant
            i <= j <= s@.len(),
            filler_end(s@, i as int) == filler_end(s@, j as int),
        decreases s.len() - j,
    {
        j = j + 1;
    }
    j
}

fn pattern_word(pat: EpisodePattern) -> (r: Vec<char>)
    ensures
        pat == EpisodePattern::Letter ==> r@ == word_e(),
        pat == EpisodePattern::Abbreviated ==> r@ == word_ep(),
        pat == EpisodePattern::Word ==> r@ == word_episode(),
        forall|k: int| 0 <= k < r@.len() ==> 'a' <= #[trigger] r@[k] <= 'z',
{
    let r = match pat {
        EpisodePattern::Letter => vec!['e'],
        EpisodePattern::Abbreviated => vec!['e', 'p'],
        EpisodePattern::Word => vec!['e', 'p', 'i', 's', 'o', 'd', 'e'],
        EpisodePattern::Bare => Vec::new(),
    };
    assert(pat == EpisodePattern::Letter ==> r@ == word_e());
    assert(pat == EpisodePattern::Abbreviated ==> r@ == word_ep());
    assert(pat == EpisodePattern::Word ==> r@ == word_episode());
    r
}

/// Where the digits of a match at `i` begin, when `pat` matches at `i`.
fn match_at_exec(s: &[char], pat: EpisodePattern, i: usize, word: &[char]) -> (r: Option<usize>)
    requires
        i < s@.len(),
        pat == EpisodePattern::Letter ==> word@ == word_e(),
        pat == EpisodePattern::Abbreviated ==> word@ == word_ep(),
        pat == EpisodePattern::Word ==> word@ == word_episode(),
        forall|k: int| 0 <= k < word@.len() ==> 'a' <= #[trigger] word@[k] <= 'z',
    ensures
        r is Some <==> pattern_at(s@, pat, i as int),
        r is Some ==> r->0 as int == capture_start(s@, pat, i as int) && r->0 < s@.len(),
{
    let n = s.len();
    match pat {
        EpisodePattern::Bare => {
            if !is_separator_exec(s[i]) {
                return None;
            }
            let c = i + 1;
            let e = decimal_end_exec(s, c);
            if (e - c == 2 || e - c == 3) && (e == n || s[e] == '.' || is_separator_exec(s[e])) {
                Some(c)
            } else {
                None
            }
        },
        _ => {
            if !word_at_exec(s, i, word) {
                return None;
            }
            let c = match pat {
                EpisodePattern::Letter => i + 1,
                EpisodePattern::Abbreviated => i + 2,
                _ => filler_end_exec(s, i + 7),
            };
            if c < n && is_decimal_digit_exec(s[c]) {
                Some(c)
            } else {
                None
            }
        },
    }
}

/// The number captured by the leftmost match of `pat` in `s`, when it fits in a `u32`.
pub fn find_pattern(s: &[char], pat: EpisodePattern) -> (r: Option<u32>)
    ensures
        r is Some <==> pattern_value(s@, pat) is Some,
        r is Some ==> pattern_value(s@, pat) == Some(r->0 as int),
{
    let word = pattern_word(pat);
    let n = s.len();
    let mut i: usize = 0;
    while i < n
        invariant
            n == s@.len(),
            first_match(s@, pat, 0) == first_match(s@, pat, i as int),
            pat == EpisodePattern::Letter ==> word@ == word_e(),
            pat == EpisodePattern::Abbreviated ==> word@ == word_ep(),
            pat == EpisodePattern::Word ==> word@ == word_episode(),
            forall|k: int| 0 <= k < word@.len() ==> 'a' <= #[trigger] word@[k] <= 'z',
        decreases n - i,
    {
        if let Some(c) = match_at_exec(s, pat, i, &word) {
            let e = decimal_end_exec(s, c);
            let digits = sub_vec(s, c, e);
            return match parse_digits(&digits) {
                Some(v) => {
                    if v <= 4294967295 {
                        Some(v as u32)
                    } else {
                        None
                    }
                },
                None => None,
            };
        }
        i = i + 1;
    }
    None
}

/// The episode number of a file name: the number found by the first of the
/// patterns, in priority order, whose leftmost match yields one (written in
/// ASCII digits and fitting in a `u32`).
pub fn extract_episode_number(filename: &str) -> (r: Option<u32>)
    ensures
        r is Some <==> episode_of(filename@) is Some,
        r is Some ==> episode_of(filename@) == Some(r->0 as int),
{
    let s = chars_of(filename);
    if let Some(v) = find_pattern(&s, EpisodePattern::Letter) {
        return Some(v);
    }
    if let Some(v) = find_pattern(&s, EpisodePattern::Abbreviated) {
        return Some(v);
    }
    if let Some(v) = find_pattern(&s, EpisodePattern::Word) {
        return Some(v);
    }
    find_pattern(&s, EpisodePattern::Bare)
}

} // verus!
