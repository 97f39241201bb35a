//! Character-level helpers shared by the codecs and the rewriter.
use vstd::prelude::*;

verus! {

/// Relies on `String::push`: appends one character at the end.
#[verifier::external_body]
pub(crate) fn push_char(s: &mut String, c: char)
    ensures
        final(s)@ == old(s)@.push(c),
{
    s.push(c);
}

/// The characters of `s`, in order.
pub fn chars_of(s: &str) -> (r: Vec<char>)
    ensures
        r@ == s@,
{
    let mut r: Vec<char> = Vec::new();
    for c in it: s.chars()
        invariant
            r@ == it.seq().take(it.index() as int),
    {
        r.push(c);
    }
    r
}

/// A copy of `v[from..to]`.
pub fn sub_vec(v: &[char], from: usize, to: usize) -> (r: Vec<char>)
    requires
        from <= to <= v@.len(),
    ensures
        r@ == v@.subrange(from as int, to as int),
{
    let mut r: Vec<char> = Vec::new();
    let mut i: usize = from;
    while i < to
        invariant
            from <= i <= to <= v@.len(),
            r@ == v@.subrange(from as int, i as int),
        decreases to - i,
    {
        r.push(v[i]);
        assert(v@.subrange(from as int, i + 1) == v@.subrange(from as int, i as int).push(
            v@[i as int],
        ));
        i = i + 1;
    }
    r
}

/// Append `v[from..to]`.
pub(crate) fn push_range(out: &mut String, v: &[char], from: usize, to: usize)
    requires
        from <= to <= v@.len(),
    ensures
        final(out)@ == old(out)@ + v@.subrange(from as int, to as int),
{
    let ghost start = out@;
    let mut i: usize = from;
    while i < to
        invariant
            from <= i <= to <= v@.len(),
            out@ == start + v@.subrange(from as int, i as int),
        decreases to - i,
    {
        push_char(out, v[i]);
        assert(v@.subrange(from as int, i + 1) == v@.subrange(from as int, i as int).push(
            v@[i as int],
        ));
        i = i + 1;
    }
}

/// Whether `pat` occurs in `v` at position `i`.
pub fn matches_at(v: &[char], i: usize, pat: &[char]) -> (r: bool)
    ensures
        r == (i + pat@.len() <= v@.len() && v@.subrange(i as int, i + pat@.len()) == pat@),
{
    if i > v.len() || pat.len() > v.len() - i {
        return false;
    }
    let mut k: usize = 0;
    while k < pat.len()
        invariant
            i + pat@.len() <= v@.len(),
            v@.len() == v.len(),
            k <= pat@.len(),
            v@.subrange(i as int, i + k) == pat@.take(k as int),
        decreases pat.len() - k,
    {
        if v[i + k] != pat[k] {
            assert(v@.subrange(i as int, i + pat@.len())[k as int] != pat@[k as int]);
            return false;
        }
        assert(v@.subrange(i as int, i + k + 1) == pat@.take(k + 1));
        k = k + 1;
    }
    assert(pat@.take(pat@.len() as int) == pat@);
    true
}

/// A decimal digit of any script (Unicode general category `Nd`, as of
/// Unicode 16.0), as `\d` matches in a regular expression.
pub open spec fn is_decimal_digit(c: char) -> bool {
    ||| '\u{30}' <= c <= '\u{39}'
    ||| '\u{660}' <= c <= '\u{669}'
    ||| '\u{6F0}' <= c <= '\u{6F9}'
    ||| '\u{7C0}' <= c <= '\u{7C9}'
    ||| '\u{966}' <= c <= '\u{96F}'
    ||| '\u{9E6}' <= c <= '\u{9EF}'
    ||| '\u{A66}' <= c <= '\u{A6F}'
    ||| '\u{AE6}' <= c <= '\u{AEF}'
    ||| '\u{B66}' <= c <= '\u{B6F}'
    ||| '\u{BE6}' <= c <= '\u{BEF}'
    ||| '\u{C66}' <= c <= '\u{C6F}'
    ||| '\u{CE6}' <= c <= '\u{CEF}'
    ||| '\u{D66}' <= c <= '\u{D6F}'
    ||| '\u{DE6}' <= c <= '\u{DEF}'
    ||| '\u{E50}' <= c <= '\u{E59}'
    ||| '\u{ED0}' <= c <= '\u{ED9}'
    ||| '\u{F20}' <= c <= '\u{F29}'
    ||| '\u{1040}' <= c <= '\u{1049}'
    ||| '\u{1090}' <= c <= '\u{1099}'
    ||| '\u{17E0}' <= c <= '\u{17E9}'
    ||| '\u{1810}' <= c <= '\u{1819}'
    ||| '\u{1946}' <= c <= '\u{194F}'
    ||| '\u{19D0}' <= c <= '\u{19D9}'
    ||| '\u{1A80}' <= c <= '\u{1A89}'
    ||| '\u{1A90}' <= c <= '\u{1A99}'
    ||| '\u{1B50}' <= c <= '\u{1B59}'
    ||| '\u{1BB0}' <= c <= '\u{1BB9}'
    ||| '\u{1C40}' <= c <= '\u{1C49}'
    ||| '\u{1C50}' <= c <= '\u{1C59}'
    ||| '\u{A620}' <= c <= '\u{A629}'
    ||| '\u{A8D0}' <= c <= '\u{A8D9}'
    ||| '\u{A900}' <= c <= '\u{A909}'
    ||| '\u{A9D0}' <= c <= '\u{A9D9}'
    ||| '\u{A9F0}' <= c <= '\u{A9F9}'
    ||| '\u{AA50}' <= c <= '\u{AA59}'
    ||| '\u{ABF0}' <= c <= '\u{ABF9}'
    ||| '\u{FF10}' <= c <= '\u{FF19}'
    ||| '\u{104A0}' <= c <= '\u{104A9}'
    ||| '\u{10D30}' <= c <= '\u{10D39}'
    ||| '\u{10D40}' <= c <= '\u{10D49}'
    ||| '\u{11066}' <= c <= '\u{1106F}'
    ||| '\u{110F0}' <= c <= '\u{110F9}'
    ||| '\u{11136}' <= c <= '\u{1113F}'
    ||| '\u{111D0}' <= c <= '\u{111D9}'
    ||| '\u{112F0}' <= c <= '\u{112F9}'
    ||| '\u{11450}' <= c <= '\u{11459}'
    ||| '\u{114D0}' <= c <= '\u{114D9}'
    ||| '\u{11650}' <= c <= '\u{11659}'
    ||| '\u{116C0}' <= c <= '\u{116C9}'
    ||| '\u{116D0}' <= c <= '\u{116E3}'
    ||| '\u{11730}' <= c <= '\u{11739}'
    ||| '\u{118E0}' <= c <= '\u{118E9}'
    ||| '\u{11950}' <= c <= '\u{11959}'
    ||| '\u{11BF0}' <= c <= '\u{11BF9}'
    ||| '\u{11C50}' <= c <= '\u{11C59}'
    ||| '\u{11D50}' <= c <= '\u{11D59}'
    ||| '\u{11DA0}' <= c <= '\u{11DA9}'
    ||| '\u{11F50}' <= c <= '\u{11F59}'
    ||| '\u{16130}' <= c <= '\u{16139}'
    ||| '\u{16A60}' <= c <= '\u{16A69}'
    ||| '\u{16AC0}' <= c <= '\u{16AC9}'
    ||| '\u{16B50}' <= c <= '\u{16B59}'
    ||| '\u{16D70}' <= c <= '\u{16D79}'
    ||| '\u{1CCF0}' <= c <= '\u{1CCF9}'
    ||| '\u{1D7CE}' <= c <= '\u{1D7FF}'
    ||| '\u{1E140}' <= c <= '\u{1E149}'
    ||| '\u{1E2F0}' <= c <= '\u{1E2F9}'
    ||| '\u{1E4F0}' <= c <= '\u{1E4F9}'
    ||| '\u{1E5F1}' <= c <= '\u{1E5FA}'
    ||| '\u{1E950}' <= c <= '\u{1E959}'
    ||| '\u{1FBF0}' <= c <= '\u{1FBF9}'
}

pub fn is_decimal_digit_exec(c: char) -> (r: bool)
    ensures
        r == is_decimal_digit(c),
{
    ('\u{30}' <= c && c <= '\u{39}') ||
    ('\u{660}' <= c && c <= '\u{669}') ||
    ('\u{6F0}' <= c && c <= '\u{6F9}') ||
    ('\u{7C0}' <= c && c <= '\u{7C9}') ||
    ('\u{966}' <= c && c <= '\u{96F}') ||
    ('\u{9E6}' <= c && c <= '\u{9EF}') ||
    ('\u{A66}' <= c && c <= '\u{A6F}') ||
    ('\u{AE6}' <= c && c <= '\u{AEF}') ||
    ('\u{B66}' <= c && c <= '\u{B6F}') ||
    ('\u{BE6}' <= c && c <= '\u{BEF}') ||
    ('\u{C66}' <= c && c <= '\u{C6F}') ||
    ('\u{CE6}' <= c && c <= '\u{CEF}') ||
    ('\u{D66}' <= c && c <= '\u{D6F}') ||
    ('\u{DE6}' <= c && c <= '\u{DEF}') ||
    ('\u{E50}' <= c && c <= '\u{E59}') ||
    ('\u{ED0}' <= c && c <= '\u{ED9}') ||
    ('\u{F20}' <= c && c <= '\u{F29}') ||
    ('\u{1040}' <= c && c <= '\u{1049}') ||
    ('\u{1090}' <= c && c <= '\u{1099}') ||
    ('\u{17E0}' <= c && c <= '\u{17E9}') ||
    ('\u{1810}' <= c && c <= '\u{1819}') ||
    ('\u{1946}' <= c && c <= '\u{194F}') ||
    ('\u{19D0}' <= c && c <= '\u{19D9}') ||
    ('\u{1A80}' <= c && c <= '\u{1A89}') ||
    ('\u{1A90}' <= c && c <= '\u{1A99}') ||
    ('\u{1B50}' <= c && c <= '\u{1B59}') ||
    ('\u{1BB0}' <= c && c <= '\u{1BB9}') ||
    ('\u{1C40}' <= c && c <= '\u{1C49}') ||
    ('\u{1C50}' <= c && c <= '\u{1C59}') ||
    ('\u{A620}' <= c && c <= '\u{A629}') ||
    ('\u{A8D0}' <= c && c <= '\u{A8D9}') ||
    ('\u{A900}' <= c && c <= '\u{A909}') ||
    ('\u{A9D0}' <= c && c <= '\u{A9D9}') ||
    ('\u{A9F0}' <= c && c <= '\u{A9F9}') ||
    ('\u{AA50}' <= c && c <= '\u{AA59}') ||
    ('\u{ABF0}' <= c && c <= '\u{ABF9}') ||
    ('\u{FF10}' <= c && c <= '\u{FF19}') ||
    ('\u{104A0}' <= c && c <= '\u{104A9}') ||
    ('\u{10D30}' <= c && c <= '\u{10D39}') ||
    ('\u{10D40}' <= c && c <= '\u{10D49}') ||
    ('\u{11066}' <= c && c <= '\u{1106F}') ||
    ('\u{110F0}' <= c && c <= '\u{110F9}') ||
    ('\u{11136}' <= c && c <= '\u{1113F}') ||
    ('\u{111D0}' <= c && c <= '\u{111D9}') ||
    ('\u{112F0}' <= c && c <= '\u{112F9}') ||
    ('\u{11450}' <= c && c <= '\u{11459}') ||
    ('\u{114D0}' <= c && c <= '\u{114D9}') ||
    ('\u{11650}' <= c && c <= '\u{11659}') ||
    ('\u{116C0}' <= c && c <= '\u{116C9}') ||
    ('\u{116D0}' <= c && c <= '\u{116E3}') ||
    ('\u{11730}' <= c && c <= '\u{11739}') ||
    ('\u{118E0}' <= c && c <= '\u{118E9}') ||
    ('\u{11950}' <= c && c <= '\u{11959}') ||
    ('\u{11BF0}' <= c && c <= '\u{11BF9}') ||
    ('\u{11C50}' <= c && c <= '\u{11C59}') ||
    ('\u{11D50}' <= c && c <= '\u{11D59}') ||
    ('\u{11DA0}' <= c && c <= '\u{11DA9}') ||
    ('\u{11F50}' <= c && c <= '\u{11F59}') ||
    ('\u{16130}' <= c && c <= '\u{16139}') ||
    ('\u{16A60}' <= c && c <= '\u{16A69}') ||
    ('\u{16AC0}' <= c && c <= '\u{16AC9}') ||
    ('\u{16B50}' <= c && c <= '\u{16B59}') ||
    ('\u{16D70}' <= c && c <= '\u{16D79}') ||
    ('\u{1CCF0}' <= c && c <= '\u{1CCF9}') ||
    ('\u{1D7CE}' <= c && c <= '\u{1D7FF}') ||
    ('\u{1E140}' <= c && c <= '\u{1E149}') ||
    ('\u{1E2F0}' <= c && c <= '\u{1E2F9}') ||
    ('\u{1E4F0}' <= c && c <= '\u{1E4F9}') ||
    ('\u{1E5F1}' <= c && c <= '\u{1E5FA}') ||
    ('\u{1E950}' <= c && c <= '\u{1E959}') ||
    ('\u{1FBF0}' <= c && c <= '\u{1FBF9}')
}

/// The end of the run of decimal digits (of any script) that starts at `i`.
pub open spec fn decimal_end(s: Seq<char>, i: int) -> int
    decreases s.len() - i,
{
    if 0 <= i < s.len() && is_decimal_digit(s[i]) {
        decimal_end(s, i + 1)
    } else {
        i
    }
}

pub fn decimal_end_exec(s: &[char], i: usize) -> (r: usize)
    requires
        i <= s@.len(),
    ensures
        r as int == decimal_end(s@, i as int),
        i <= r <= s@.len(),
{
    let mut j: usize = i;
    while j < s.len() && is_decimal_digit_exec(s[j])
        invariant
            i <= j <= s@.len(),
            decimal_end(s@, i as int) == decimal_end(s@, j as int),
        decreases s.len() - j,
    {
        j = j + 1;
    }
    j
}

} // verus!
