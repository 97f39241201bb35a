//! Time codes: parsing and formatting of the two textual encodings, and the
//! clamped shift applied to every time code of a document.
use vstd::prelude::*;
use crate::text::push_char;

verus! {

/// Milliseconds in one hour, one minute and one second.
pub const MS_PER_HOUR: u64 = 3600000;
pub const MS_PER_MINUTE: u64 = 60000;
pub const MS_PER_SECOND: u64 = 1000;

/// The largest time code the library represents, in milliseconds.
pub open spec fn max_ms() -> int {
    i64::MAX as int
}

pub open spec fn is_digit(c: char) -> bool {
    '0' <= c && c <= '9'
}

pub open spec fn all_digits(s: Seq<char>) -> bool {
    forall|i: int| 0 <= i < s.len() ==> #[trigger] is_digit(s[i])
}

pub open spec fn digit_value(c: char) -> int {
    (c as int) - ('0' as int)
}

/// The number written by a string of decimal digits (most significant first).
pub open spec fn digits_value(s: Seq<char>) -> int
    decreases s.len(),
{
    if s.len() == 0 {
        0
    } else {
        digits_value(s.drop_last()) * 10 + digit_value(s.last())
    }
}

/// The pieces of `s` between occurrences of either separator `a` or `b`;
/// there is always one piece more than there are separators.
pub open spec fn split_fields(s: Seq<char>, a: char, b: char) -> Seq<Seq<char>>
    decreases s.len(),
{
    if s.len() == 0 {
        seq![Seq::empty()]
    } else {
        let init = split_fields(s.drop_last(), a, b);
        let c = s.last();
        if c == a || c == b {
            init.push(Seq::empty())
        } else {
            init.update(init.len() - 1, init.last().push(c))
        }
    }
}

/// The value of a four-field time code whose last field counts `unit` milliseconds.
pub open spec fn fields_value(f: Seq<Seq<char>>, unit: int) -> int {
    digits_value(f[0]) * 3600000 + digits_value(f[1]) * 60000 + digits_value(f[2]) * 1000
        + digits_value(f[3]) * unit
}

pub open spec fn valid_field(f: Seq<char>) -> bool {
    f.len() > 0 && all_digits(f)
}

/// Parse a time code split on `:` and `frac_sep` into four decimal fields
/// (hours, minutes, seconds, fraction counted in `unit` milliseconds).
/// Each field is a non-empty run of ASCII digits: a sign, `+` included, is
/// refused. No range check is made on any field; a value above `max_ms` is refused.
pub open spec fn parse_code(s: Seq<char>, frac_sep: char, unit: int) -> Option<int> {
    let f = split_fields(s, ':', frac_sep);
    if f.len() == 4 && valid_field(f[0]) && valid_field(f[1]) && valid_field(f[2]) && valid_field(
        f[3],
    ) && fields_value(f, unit) <= max_ms() {
        Some(fields_value(f, unit))
    } else {
        None
    }
}

/// Millisecond form `HH:MM:SS,mmm`.
pub open spec fn parse_srt(s: Seq<char>) -> Option<int> {
    parse_code(s, ',', 1)
}

/// Centisecond form `H:MM:SS.cc`.
pub open spec fn parse_ass(s: Seq<char>) -> Option<int> {
    parse_code(s, '.', 10)
}

pub open spec fn digit_char(d: int) -> char {
    (d + ('0' as int)) as char
}

/// The decimal digits of `n`, without leading zeros (`0` is written `"0"`).
pub open spec fn decimal(n: nat) -> Seq<char>
    decreases n,
{
    if n < 10 {
        seq![digit_char(n as int)]
    } else {
        decimal(n / 10).push(digit_char((n % 10) as int))
    }
}

pub open spec fn zeros(k: int) -> Seq<char> {
    if k <= 0 {
        Seq::empty()
    } else {
        Seq::new(k as nat, |i: int| '0')
    }
}

/// The decimal digits of `n`, left-padded with `0` to at least `w` characters.
pub open spec fn padded(n: nat, w: nat) -> Seq<char> {
    zeros(w - decimal(n).len()) + decimal(n)
}

pub open spec fn hours_of(ms: nat) -> nat {
    ms / 3600000
}

pub open spec fn minutes_of(ms: nat) -> nat {
    (ms % 3600000) / 60000
}

pub open spec fn seconds_of(ms: nat) -> nat {
    (ms % 60000) / 1000
}

pub open spec fn millis_of(ms: nat) -> nat {
    ms % 1000
}

/// `HH:MM:SS,mmm`: hours at least two digits, milliseconds three.
pub open spec fn format_srt(ms: nat) -> Seq<char> {
    padded(hours_of(ms), 2) + seq![':'] + padded(minutes_of(ms), 2) + seq![':'] + padded(
        seconds_of(ms),
        2,
    ) + seq![','] + padded(millis_of(ms), 3)
}

/// `H:MM:SS.cc`: hours unpadded, the fraction truncated to centiseconds.
pub open spec fn format_ass(ms: nat) -> Seq<char> {
    decimal(hours_of(ms)) + seq![':'] + padded(minutes_of(ms), 2) + seq![':'] + padded(
        seconds_of(ms),
        2,
    ) + seq!['.'] + padded(millis_of(ms) / 10, 2)
}

/// A shifted time code: `ms + offset`, clamped to `[0, max_ms]`.
pub open spec fn shifted(ms: int, offset: int) -> int {
    if ms + offset < 0 {
        0
    } else if ms + offset > max_ms() {
        max_ms()
    } else {
        ms + offset
    }
}

proof fn lemma_split_nonempty(s: Seq<char>, a: char, b: char)
    ensures
        split_fields(s, a, b).len() >= 1,
    decreases s.len(),
{
    if s.len() > 0 {
        lemma_split_nonempty(s.drop_last(), a, b);
    }
}

/// Split `s` at every `a` or `b`.
fn split_chars(s: &[char], a: char, b: char) -> (r: Vec<Vec<char>>)
    ensures
        r@.len() == split_fields(s@, a, b).len(),
        forall|j: int| 0 <= j < r@.len() ==> #[trigger] r@[j]@ == split_fields(s@, a, b)[j],
{
    let mut done: Vec<Vec<char>> = Vec::new();
    let mut cur: Vec<char> = Vec::new();
    let mut i: usize = 0;
    while i < s.len()
        invariant
            i <= s.len(),
            split_fields(s@.take(i as int), a, b).len() == done@.len() + 1,
            forall|j: int|
                0 <= j < done@.len() ==> #[trigger] done@[j]@ == split_fields(
                    s@.take(i as int),
                    a,
                    b,
                )[j],
            split_fields(s@.take(i as int), a, b).last() == cur@,
        decreases s.len() - i,
    {
        let c = s[i];
        let ghost pre = s@.take(i as int);
        assert(s@.take(i + 1).drop_last() == pre);
        proof {
            lemma_split_nonempty(pre, a, b);
        }
        if c == a || c == b {
            done.push(cur);
            cur = Vec::new();
        } else {
            cur.push(c);
        }
        i = i + 1;
    }
    assert(s@.take(s.len() as int) == s@);
    done.push(cur);
    done
}

proof fn lemma_digits_prefix_le(s: Seq<char>, k: int)
    requires
        all_digits(s),
        0 <= k <= s.len(),
    ensures
        0 <= digits_value(s.take(k)) <= digits_value(s),
    decreases s.len(),
{
    if s.len() > 0 {
        assert(all_digits(s.drop_last())) by {
            assert forall|i: int| 0 <= i < s.len() - 1 implies #[trigger] is_digit(
                s.drop_last()[i],
            ) by {
                assert(is_digit(s[i]));
            }
        }
        assert(is_digit(s[s.len() - 1]));
        if k < s.len() {
            assert(s.drop_last().take(k) == s.take(k));
            lemma_digits_prefix_le(s.drop_last(), k);
        } else {
            assert(s.take(k) == s);
            lemma_digits_prefix_le(s.drop_last(), 0);
        }
    } else {
        assert(s.take(k) == s);
    }
}

proof fn lemma_digits_nonneg(s: Seq<char>)
    ensures
        all_digits(s) ==> digits_value(s) >= 0,
{
    if all_digits(s) {
        lemma_digits_prefix_le(s, 0);
    }
}

/// The value of a non-empty string of decimal digits, when it is at most `max_ms`.
pub(crate) fn parse_digits(f: &Vec<char>) -> (r: Option<u64>)
    ensures
        r is Some <==> (valid_field(f@) && digits_value(f@) <= max_ms()),
        r is Some ==> r->0 as int == digits_value(f@),
{
    if f.len() == 0 {
        return None;
    }
    let mut v: u64 = 0;
    let mut i: usize = 0;
    while i < f.len()
        invariant
            i <= f.len(),
            all_digits(f@.take(i as int)),
            v as int == digits_value(f@.take(i as int)),
            v <= i64::MAX,
        decreases f.len() - i,
    {
        let c = f[i];
        let ghost pre = f@.take(i as int);
        assert(f@.take(i + 1).drop_last() == pre);
        if !('0' <= c && c <= '9') {
            assert(!is_digit(f@[i as int]));
            return None;
        }
        let d = (c as u32 - '0' as u32) as u64;
        if v > (9223372036854775807u64 - d) / 10 {
            assert(all_digits(f@.take(i + 1)) ==> digits_value(f@.take(i + 1)) > max_ms());
            proof {
                if all_digits(f@) {
                    lemma_digits_prefix_le(f@, i + 1);
                }
            }
            return None;
        }
        v = v * 10 + d;
        i = i + 1;
    }
    assert(f@.take(f.len() as int) == f@);
    Some(v)
}

pub(crate) fn parse_code_chars(ts: &[char], frac_sep: char, unit: u64) -> (r: Option<i64>)
    requires
        unit == 1 || unit == 10,
    ensures
        r is Some <==> parse_code(ts@, frac_sep, unit as int) is Some,
        r is Some ==> parse_code(ts@, frac_sep, unit as int) == Some(r->0 as int),
{
    let parts = split_chars(ts, ':', frac_sep);
    if parts.len() != 4 {
        return None;
    }
    proof {
        let f = split_fields(ts@, ':', frac_sep);
        lemma_digits_nonneg(f[0]);
        lemma_digits_nonneg(f[1]);
        lemma_digits_nonneg(f[2]);
        lemma_digits_nonneg(f[3]);
    }
    let h = match parse_digits(&parts[0]) {
        Some(v) => v,
        None => return None,
    };
    let m = match parse_digits(&parts[1]) {
        Some(v) => v,
        None => return None,
    };
    let s = match parse_digits(&parts[2]) {
        Some(v) => v,
        None => return None,
    };
    let f = match parse_digits(&parts[3]) {
        Some(v) => v,
        None => return None,
    };
    let frac: u128 = if unit == 1 {
        f as u128
    } else {
        f as u128 * 10
    };
    let total: u128 = h as u128 * 3600000 + m as u128 * 60000 + s as u128 * 1000 + frac;
    if total > 9223372036854775807u128 {
        return None;
    }
    Some(total as i64)
}

/// Parse a millisecond-form time code (`HH:MM:SS,mmm`).
pub fn parse_timestamp_srt(ts: &str) -> (r: Option<i64>)
    ensures
        r is Some <==> parse_srt(ts@) is Some,
        r is Some ==> parse_srt(ts@) == Some(r->0 as int),
{
    let chars = crate::text::chars_of(ts);
    parse_code_chars(&chars, ',', 1)
}

/// Parse a centisecond-form time code (`H:MM:SS.cc`).
pub fn parse_timestamp_ass(ts: &str) -> (r: Option<i64>)
    ensures
        r is Some <==> parse_ass(ts@) is Some,
        r is Some ==> parse_ass(ts@) == Some(r->0 as int),
{
    let chars = crate::text::chars_of(ts);
    parse_code_chars(&chars, '.', 10)
}

fn digit_to_char(d: u64) -> (c: char)
    requires
        d < 10,
    ensures
        c == digit_char(d as int),
{
    ((d as u8) + 48u8) as char
}

/// Append the decimal digits of `n`.
fn push_decimal(out: &mut String, n: u64)
    ensures
        final(out)@ == old(out)@ + decimal(n as nat),
    decreases n,
{
    if n >= 10 {
        push_decimal(out, n / 10);
    }
    push_char(out, digit_to_char(n % 10));
    proof {
        if n < 10 {
            assert(decimal(n as nat) == seq![digit_char(n as int)]);
        }
    }
}

fn decimal_len(n: u64) -> (r: u64)
    ensures
        r as int == decimal(n as nat).len(),
        r as int <= n as int / 10 + 1,
    decreases n,
{
    if n < 10 {
        1
    } else {
        decimal_len(n / 10) + 1
    }
}

/// Append the decimal digits of `n`, left-padded with `0` to `w` characters.
fn push_padded(out: &mut String, n: u64, w: u64)
    ensures
        final(out)@ == old(out)@ + padded(n as nat, w as nat),
{
    let len = decimal_len(n);
    let ghost start = out@;
    if len < w {
        let mut k: u64 = 0;
        while k < w - len
            invariant
                len < w,
                k <= w - len,
                out@ == start + Seq::new(k as nat, |i: int| '0'),
            decreases w - len - k,
        {
            push_char(out, '0');
            assert(Seq::new((k + 1) as nat, |i: int| '0') == Seq::new(k as nat, |i: int| '0').push(
                '0',
            ));
            k = k + 1;
        }
        assert(zeros(w - len) == Seq::new(k as nat, |i: int| '0'));
    } else {
        assert(zeros(w - len) == Seq::<char>::empty());
        assert(out@ == start + zeros(w - len));
    }
    push_decimal(out, n);
    assert(out@ == start + padded(n as nat, w as nat));
}

/// Append `ms` in millisecond form.
pub(crate) fn push_srt(out: &mut String, ms: u64)
    ensures
        final(out)@ == old(out)@ + format_srt(ms as nat),
{
    let ghost start = out@;
    push_padded(out, ms / MS_PER_HOUR, 2);
    push_char(out, ':');
    push_padded(out, (ms % MS_PER_HOUR) / MS_PER_MINUTE, 2);
    push_char(out, ':');
    push_padded(out, (ms % MS_PER_MINUTE) / MS_PER_SECOND, 2);
    push_char(out, ',');
    push_padded(out, ms % MS_PER_SECOND, 3);
    assert(out@ == start + format_srt(ms as nat));
}

/// Append `ms` in centisecond form.
pub(crate) fn push_ass(out: &mut String, ms: u64)
    ensures
        final(out)@ == old(out)@ + format_ass(ms as nat),
{
    let ghost start = out@;
    push_decimal(out, ms / MS_PER_HOUR);
    push_char(out, ':');
    push_padded(out, (ms % MS_PER_HOUR) / MS_PER_MINUTE, 2);
    push_char(out, ':');
    push_padded(out, (ms % MS_PER_MINUTE) / MS_PER_SECOND, 2);
    push_char(out, '.');
    push_padded(out, (ms % MS_PER_SECOND) / 10, 2);
    assert(out@ == start + format_ass(ms as nat));
}

/// Render a non-negative time code as `HH:MM:SS,mmm`.
pub fn format_timestamp_srt(ms: i64) -> (r: String)
    requires
        ms >= 0,
    ensures
        r@ == format_srt(ms as nat),
{
    let mut out = String::new();
    push_srt(&mut out, ms as u64);
    out
}

/// Render a non-negative time code as `H:MM:SS.cc`, dropping what is below ten milliseconds.
pub fn format_timestamp_ass(ms: i64) -> (r: String)
    requires
        ms >= 0,
    ensures
        r@ == format_ass(ms as nat),
{
    let mut out = String::new();
    push_ass(&mut out, ms as u64);
    out
}

/// Shift a time code by a signed offset, clamping the result to `[0, i64::MAX]`.
pub fn shift_time(ms: i64, offset: i64) -> (r: i64)
    ensures
        r as int == shifted(ms as int, offset as int),
        r >= 0,
{
    let sum: i128 = ms as i128 + offset as i128;
    if sum < 0 {
        0
    } else if sum > 9223372036854775807i128 {
        9223372036854775807i64
    } else {
        sum as i64
    }
}

/// A shifted time code, as every rewritten line of a document holds it, is
/// never negative: it is `max(0, ms + offset)`, however negative the offset,
/// up to the representable maximum.
pub proof fn lemma_shift_clamps(ms: int, offset: int)
    requires
        0 <= ms <= max_ms(),
    ensures
        0 <= shifted(ms, offset) <= max_ms(),
        ms + offset <= max_ms() ==> shifted(ms, offset) == if ms + offset < 0 {
            0
        } else {
            ms + offset
        },
{
}

/// Shifting twice equals shifting once by the sum of the offsets, unless the
/// first shift was clamped and the second moves back away from the clamp.
pub proof fn lemma_shift_additive(ms: int, offset1: int, offset2: int)
    requires
        0 <= ms <= max_ms(),
        (0 <= ms + offset1 <= max_ms()) || (ms + offset1 < 0 && offset2 <= 0) || (ms + offset1
            > max_ms() && offset2 >= 0),
    ensures
        shifted(shifted(ms, offset1), offset2) == shifted(ms, offset1 + offset2),
{
}

proof fn lemma_decimal(n: nat)
    ensures
        decimal(n).len() >= 1,
        all_digits(decimal(n)),
        digits_value(decimal(n)) == n,
    decreases n,
{
    let d = decimal(n);
    assert(digit_value(digit_char((n % 10) as int)) == n % 10);
    if n < 10 {
        assert(d.drop_last() == Seq::<char>::empty());
        assert(is_digit(d[0]));
        assert(d.last() == digit_char(n as int));
        assert(digits_value(d) == digits_value(d.drop_last()) * 10 + digit_value(d.last()));
    } else {
        lemma_decimal(n / 10);
        let init = decimal(n / 10);
        assert(d.drop_last() == init);
        assert(d.last() == digit_char((n % 10) as int));
        assert(digits_value(d) == digits_value(d.drop_last()) * 10 + digit_value(d.last()));
        assert(n == (n / 10) * 10 + n % 10);
        assert forall|i: int| 0 <= i < d.len() implies #[trigger] is_digit(d[i]) by {
            if i < init.len() {
                assert(d[i] == init[i]);
            }
        }
    }
}

proof fn lemma_leading_zeros(z: Seq<char>, d: Seq<char>)
    requires
        forall|i: int| 0 <= i < z.len() ==> #[trigger] z[i] == '0',
    ensures
        digits_value(z + d) == digits_value(d),
    decreases z.len() + d.len(),
{
    if d.len() == 0 {
        assert(z + d == z);
        if z.len() > 0 {
            lemma_leading_zeros(z.drop_last(), d);
            assert(z.drop_last() + d == z.drop_last());
        }
    } else {
        assert((z + d).drop_last() == z + d.drop_last());
        lemma_leading_zeros(z, d.drop_last());
    }
}

proof fn lemma_padded(n: nat, w: nat)
    ensures
        padded(n, w).len() >= 1,
        all_digits(padded(n, w)),
        digits_value(padded(n, w)) == n,
{
    lemma_decimal(n);
    let z = zeros(w - decimal(n).len());
    let p = padded(n, w);
    lemma_leading_zeros(z, decimal(n));
    assert forall|i: int| 0 <= i < p.len() implies #[trigger] is_digit(p[i]) by {
        if i >= z.len() {
            assert(p[i] == decimal(n)[i - z.len()]);
        }
    }
}

pub open spec fn free_of(t: Seq<char>, a: char, b: char) -> bool {
    forall|i: int| 0 <= i < t.len() ==> #[trigger] t[i] != a && t[i] != b
}

proof fn lemma_split_single(t: Seq<char>, a: char, b: char)
    requires
        free_of(t, a, b),
    ensures
        split_fields(t, a, b) == seq![t],
    decreases t.len(),
{
    if t.len() > 0 {
        assert(free_of(t.drop_last(), a, b)) by {
            assert forall|i: int| 0 <= i < t.len() - 1 implies #[trigger] t.drop_last()[i] != a
                && t.drop_last()[i] != b by {
                assert(t.drop_last()[i] == t[i]);
            }
        }
        lemma_split_single(t.drop_last(), a, b);
        assert(t.drop_last().push(t.last()) == t);
        assert(t[t.len() - 1] != a && t[t.len() - 1] != b);
        assert(seq![t.drop_last()].update(0, t) == seq![t]);
    } else {
        assert(t == Seq::<char>::empty());
    }
}

proof fn lemma_split_after(s: Seq<char>, x: char, t: Seq<char>, a: char, b: char)
    requires
        x == a || x == b,
        free_of(t, a, b),
    ensures
        split_fields(s + seq![x] + t, a, b) == split_fields(s, a, b).push(t),
    decreases t.len(),
{
    let u = s + seq![x] + t;
    if t.len() == 0 {
        assert(u.drop_last() == s);
        assert(u.last() == x);
        assert(t == Seq::<char>::empty());
    } else {
        assert(free_of(t.drop_last(), a, b)) by {
            assert forall|i: int| 0 <= i < t.len() - 1 implies #[trigger] t.drop_last()[i] != a
                && t.drop_last()[i] != b by {
                assert(t.drop_last()[i] == t[i]);
            }
        }
        assert(t[t.len() - 1] != a && t[t.len() - 1] != b);
        assert(u.last() == t.last());
        lemma_split_after(s, x, t.drop_last(), a, b);
        assert(u.drop_last() == s + seq![x] + t.drop_last());
        assert(t.drop_last().push(t.last()) == t);
        lemma_split_nonempty(s, a, b);
        assert(split_fields(s, a, b).push(t.drop_last()).update(
            split_fields(s, a, b).len() as int,
            t,
        ) == split_fields(s, a, b).push(t));
    }
}

proof fn lemma_split_four(
    f0: Seq<char>,
    f1: Seq<char>,
    f2: Seq<char>,
    f3: Seq<char>,
    x: char,
    a: char,
    b: char,
)
    requires
        x == a || x == b,
        ':' == a,
        free_of(f0, a, b),
        free_of(f1, a, b),
        free_of(f2, a, b),
        free_of(f3, a, b),
    ensures
        split_fields(f0 + seq![':'] + f1 + seq![':'] + f2 + seq![x] + f3, a, b) == seq![
            f0,
            f1,
            f2,
            f3,
        ],
{
    lemma_split_single(f0, a, b);
    lemma_split_after(f0, ':', f1, a, b);
    lemma_split_after(f0 + seq![':'] + f1, ':', f2, a, b);
    lemma_split_after(f0 + seq![':'] + f1 + seq![':'] + f2, x, f3, a, b);
    assert(seq![f0].push(f1).push(f2).push(f3) == seq![f0, f1, f2, f3]);
}

proof fn lemma_digits_free(t: Seq<char>, a: char, b: char)
    requires
        all_digits(t),
        !is_digit(a),
        !is_digit(b),
    ensures
        free_of(t, a, b),
{
    assert forall|i: int| 0 <= i < t.len() implies #[trigger] t[i] != a && t[i] != b by {
        assert(is_digit(t[i]));
    }
}

proof fn lemma_split_ms(ms: nat)
    ensures
        ms == hours_of(ms) * 3600000 + minutes_of(ms) * 60000 + seconds_of(ms) * 1000 + millis_of(
            ms,
        ),
        millis_of(ms) < 1000,
        ms % 10 == millis_of(ms) % 10,
{
    let h = ms / 3600000;
    let r1 = ms % 3600000;
    let m = r1 / 60000;
    let r2 = r1 % 60000;
    let s = r2 / 1000;
    let f = r2 % 1000;
    assert(ms == h * 3600000 + r1);
    assert(r1 == m * 60000 + r2);
    assert(r2 == s * 1000 + f);
    assert(ms % 60000 == r2);
    assert(ms % 1000 == f);
    assert(ms % 10 == f % 10);
}

/// Every time code written in millisecond form reads back as the same value,
/// so a time code in that form is rewritten to the same text.
pub proof fn lemma_srt_round_trip(ms: int)
    requires
        0 <= ms <= max_ms(),
    ensures
        parse_srt(format_srt(ms as nat)) == Some(ms),
        format_srt(parse_srt(format_srt(ms as nat))->0 as nat) == format_srt(ms as nat),
{
    let n = ms as nat;
    let f0 = padded(hours_of(n), 2);
    let f1 = padded(minutes_of(n), 2);
    let f2 = padded(seconds_of(n), 2);
    let f3 = padded(millis_of(n), 3);
    lemma_padded(hours_of(n), 2);
    lemma_padded(minutes_of(n), 2);
    lemma_padded(seconds_of(n), 2);
    lemma_padded(millis_of(n), 3);
    lemma_digits_free(f0, ':', ',');
    lemma_digits_free(f1, ':', ',');
    lemma_digits_free(f2, ':', ',');
    lemma_digits_free(f3, ':', ',');
    lemma_split_four(f0, f1, f2, f3, ',', ':', ',');
    let f = split_fields(format_srt(n), ':', ',');
    assert(f == seq![f0, f1, f2, f3]);
    lemma_split_ms(n);
    assert(fields_value(f, 1) == ms);
}

/// Every time code written in centisecond form reads back as its value
/// rounded down to whole centiseconds (the same value when it is
/// centisecond-aligned), so a time code in that form is rewritten to the same text.
pub proof fn lemma_ass_round_trip(ms: int)
    requires
        0 <= ms <= max_ms(),
    ensures
        parse_ass(format_ass(ms as nat)) == Some(ms - ms % 10),
        ms % 10 == 0 ==> parse_ass(format_ass(ms as nat)) == Some(ms),
        format_ass(parse_ass(format_ass(ms as nat))->0 as nat) == format_ass(ms as nat),
{
    let n = ms as nat;
    let f0 = decimal(hours_of(n));
    let f1 = padded(minutes_of(n), 2);
    let f2 = padded(seconds_of(n), 2);
    let f3 = padded(millis_of(n) / 10, 2);
    lemma_decimal(hours_of(n));
    lemma_padded(minutes_of(n), 2);
    lemma_padded(seconds_of(n), 2);
    lemma_padded(millis_of(n) / 10, 2);
    lemma_digits_free(f0, ':', '.');
    lemma_digits_free(f1, ':', '.');
    lemma_digits_free(f2, ':', '.');
    lemma_digits_free(f3, ':', '.');
    lemma_split_four(f0, f1, f2, f3, '.', ':', '.');
    let f = split_fields(format_ass(n), ':', '.');
    assert(f == seq![f0, f1, f2, f3]);
    lemma_split_ms(n);
    let v = ms - ms % 10;
    assert(fields_value(f, 10) == v);
    let vn = v as nat;
    lemma_split_ms(vn);
    assert(hours_of(vn) == hours_of(n));
    assert(minutes_of(vn) == minutes_of(n));
    assert(seconds_of(vn) == seconds_of(n));
    assert(millis_of(vn) / 10 == millis_of(n) / 10);
}

/// A well-formed millisecond-form time code: hours in at least two digits
/// without further leading zeros, minutes and seconds `00`..`59`, three
/// millisecond digits; that is, the rendering of some time code.
pub open spec fn canonical_srt(t: Seq<char>) -> bool {
    exists|ms: int| 0 <= ms <= max_ms() && t == #[trigger] format_srt(ms as nat)
}

/// A well-formed centisecond-form time code: the rendering of some time code.
pub open spec fn canonical_ass(t: Seq<char>) -> bool {
    exists|ms: int| 0 <= ms <= max_ms() && t == #[trigger] format_ass(ms as nat)
}

/// Formatting the parse of a well-formed millisecond-form time code gives the text back.
pub proof fn lemma_srt_text_round_trip(t: Seq<char>)
    requires
        canonical_srt(t),
    ensures
        parse_srt(t) is Some,
        format_srt(parse_srt(t)->0 as nat) == t,
{
    let ms = choose|ms: int| 0 <= ms <= max_ms() && t == #[trigger] format_srt(ms as nat);
    lemma_srt_round_trip(ms);
}

proof fn lemma_whole_centiseconds(ms: int)
    requires
        ms >= 0,
    ensures
        (ms - ms % 10) % 10 == 0,
{
}

/// Formatting the parse of a well-formed centisecond-form time code gives the
/// text back; its value is a whole number of centiseconds.
pub proof fn lemma_ass_text_round_trip(t: Seq<char>)
    requires
        canonical_ass(t),
    ensures
        parse_ass(t) is Some,
        parse_ass(t)->0 % 10 == 0,
        format_ass(parse_ass(t)->0 as nat) == t,
{
    let ms = choose|ms: int| 0 <= ms <= max_ms() && t == #[trigger] format_ass(ms as nat);
    lemma_ass_round_trip(ms);
    lemma_whole_centiseconds(ms);
}

} // verus!
