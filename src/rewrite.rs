//! The line rewriter: every time-code line of a document is shifted, every
//! other line is copied verbatim, and each output line ends with `\n`.
use vstd::prelude::*;
use crate::text::{
    chars_of, decimal_end, decimal_end_exec, matches_at, push_char, push_range, sub_vec,
};
use crate::timecode::{
    format_ass, format_srt, is_digit, parse_ass, parse_code_chars, parse_srt, push_ass, push_srt,
    shift_time, shifted,
};

verus! {

/// The two subtitle encodings: `Srt` uses millisecond time codes on
/// `start --> end` lines, `Ass` centisecond time codes on `Dialogue:` lines.
#[derive(Clone, Copy, Debug, PartialEq, Eq, Structural)]
pub enum SubtitleFormat {
    Srt,
    Ass,
}

/// The lines of `s` still to come, where `cur` is the part of the current line
/// already read. A line ends at `\n`; a `\r` just before that `\n` is dropped;
/// a final line without `\n` counts only if it is not empty.
pub open spec fn lines_acc(s: Seq<char>, cur: Seq<char>) -> Seq<Seq<char>>
    decreases s.len(),
{
    if s.len() == 0 {
        if cur.len() == 0 {
            Seq::empty()
        } else {
            seq![cur]
        }
    } else if s[0] == '\n' {
        seq![strip_cr(cur)] + lines_acc(s.skip(1), Seq::empty())
    } else {
        lines_acc(s.skip(1), cur.push(s[0]))
    }
}

pub open spec fn lines_of(s: Seq<char>) -> Seq<Seq<char>> {
    lines_acc(s, Seq::empty())
}

pub open spec fn strip_cr(l: Seq<char>) -> Seq<char> {
    if l.len() > 0 && l.last() == '\r' {
        l.drop_last()
    } else {
        l
    }
}

/// The separator of a millisecond-form cue line.
pub open spec fn arrow() -> Seq<char> {
    seq![' ', '-', '-', '>', ' ']
}

pub open spec fn arrow_at(l: Seq<char>, i: int) -> bool {
    0 <= i && i + 5 <= l.len() && l.subrange(i, i + 5) == arrow()
}

/// The first position at or after `i` where the separator starts.
pub open spec fn find_arrow(l: Seq<char>, i: int) -> Option<int>
    decreases l.len() - i,
{
    if i < 0 || i + 5 > l.len() {
        None
    } else if arrow_at(l, i) {
        Some(i)
    } else {
        find_arrow(l, i + 1)
    }
}

/// A millisecond-form line after the shift. A line is rewritten when the text
/// before its first separator and the whole text after it both parse as time
/// codes (so the rest holds no second separator); otherwise it is kept.
pub open spec fn rewrite_srt(l: Seq<char>, offset: int) -> Seq<char> {
    match find_arrow(l, 0) {
        Some(i) => match (parse_srt(l.take(i)), parse_srt(l.skip(i + 5))) {
            (Some(a), Some(b)) => format_srt(shifted(a, offset) as nat) + arrow() + format_srt(
                shifted(b, offset) as nat,
            ),
            _ => l,
        },
        None => l,
    }
}

/// The end of the run of decimal digits that starts at `i`.
pub open spec fn digits_end(s: Seq<char>, i: int) -> int
    decreases s.len() - i,
{
    if 0 <= i < s.len() && is_digit(s[i]) {
        digits_end(s, i + 1)
    } else {
        i
    }
}

/// The first position at or after `i` that holds `c`, or the length.
pub open spec fn find_from(s: Seq<char>, i: int, c: char) -> int
    decreases s.len() - i,
{
    if 0 <= i < s.len() && s[i] != c {
        find_from(s, i + 1, c)
    } else {
        i
    }
}

/// `digits:digits:digits.digits`, each run non-empty.
pub open spec fn time_shape(t: Seq<char>) -> bool {
    let i1 = digits_end(t, 0);
    let i2 = digits_end(t, i1 + 1);
    let i3 = digits_end(t, i2 + 1);
    let i4 = digits_end(t, i3 + 1);
    &&& 0 < i1 < t.len() && t[i1] == ':'
    &&& i1 + 1 < i2 < t.len() && t[i2] == ':'
    &&& i2 + 1 < i3 < t.len() && t[i3] == '.'
    &&& i3 + 1 < i4 == t.len()
}

pub open spec fn dialogue_prefix() -> Seq<char> {
    seq!['D', 'i', 'a', 'l', 'o', 'g', 'u', 'e', ':', ' ']
}

/// For a line `Dialogue: <layer>,<start>,<end>,<rest>` with a layer of decimal
/// digits of any script, both times in time shape and a non-empty rest: the
/// positions of the three commas.
pub open spec fn dialogue_split(l: Seq<char>) -> Option<(int, int, int)> {
    let p = decimal_end(l, 10);
    let q = find_from(l, p + 1, ',');
    let r = find_from(l, q + 1, ',');
    if l.len() >= 10 && l.take(10) == dialogue_prefix() && 10 < p < l.len() && l[p] == ','
        && q < l.len() && r + 1 < l.len() && time_shape(l.subrange(p + 1, q)) && time_shape(
        l.subrange(q + 1, r),
    ) {
        Some((p, q, r))
    } else {
        None
    }
}

/// A centisecond-form line after the shift: the two times of a dialogue line
/// are replaced when both parse; everything else is kept.
pub open spec fn rewrite_ass(l: Seq<char>, offset: int) -> Seq<char> {
    match dialogue_split(l) {
        Some((p, q, r)) => match (parse_ass(l.subrange(p + 1, q)), parse_ass(l.subrange(q + 1, r))) {
            (Some(a), Some(b)) => l.take(p + 1) + format_ass(shifted(a, offset) as nat) + seq![',']
                + format_ass(shifted(b, offset) as nat) + seq![','] + l.skip(r + 1),
            _ => l,
        },
        None => l,
    }
}

pub open spec fn rewrite_line(l: Seq<char>, offset: int, fmt: SubtitleFormat) -> Seq<char> {
    match fmt {
        SubtitleFormat::Srt => rewrite_srt(l, offset),
        SubtitleFormat::Ass => rewrite_ass(l, offset),
    }
}

/// Each line rewritten and followed by `\n`.
pub open spec fn render_lines(ls: Seq<Seq<char>>, offset: int, fmt: SubtitleFormat) -> Seq<char>
    decreases ls.len(),
{
    if ls.len() == 0 {
        Seq::empty()
    } else {
        rewrite_line(ls[0], offset, fmt) + seq!['\n'] + render_lines(ls.skip(1), offset, fmt)
    }
}

/// A whole document after the shift.
pub open spec fn shift_doc(s: Seq<char>, offset: int, fmt: SubtitleFormat) -> Seq<char> {
    render_lines(lines_of(s), offset, fmt)
}

fn arrow_chars() -> (r: Vec<char>)
    ensures
        r@ == arrow(),
{
    let r = vec![' ', '-', '-', '>', ' '];
    assert(r@ == arrow());
    r
}

fn find_arrow_exec(l: &[char]) -> (r: Option<usize>)
    ensures
        r is Some ==> find_arrow(l@, 0) == Some(r->0 as int) && r->0 + 5 <= l@.len(),
        r is None ==> find_arrow(l@, 0) is None,
{
    let pat = arrow_chars();
    assert(pat@.len() == 5);
    let mut i: usize = 0;
    while i < l.len() && 5 <= l.len() - i
        invariant
            pat@ == arrow(),
            pat@.len() == 5,
            find_arrow(l@, 0) == find_arrow(l@, i as int),
        decreases l.len() - i,
    {
        let m = matches_at(l, i, &pat);
        assert(m == arrow_at(l@, i as int));
        if m {
            return Some(i);
        }
        assert(find_arrow(l@, i as int) == find_arrow(l@, i + 1));
        i = i + 1;
    }
    None
}

/// Append the shifted form of a millisecond-form line.
fn push_rewritten_srt(out: &mut String, l: &[char], offset: i64)
    ensures
        final(out)@ == old(out)@ + rewrite_srt(l@, offset as int),
{
    let n = l.len();
    if let Some(i) = find_arrow_exec(l) {
        let a = parse_code_chars(&sub_vec(l, 0, i), ',', 1);
        let b = parse_code_chars(&sub_vec(l, i + 5, l.len()), ',', 1);
        assert(l@.subrange(0, i as int) == l@.take(i as int));
        assert(l@.subrange(i + 5, l@.len() as int) == l@.skip(i + 5));
        if let (Some(a), Some(b)) = (a, b) {
            push_srt(out, shift_time(a, offset) as u64);
            let pat = arrow_chars();
            push_range(out, &pat, 0, 5);
            assert(pat@.subrange(0, 5) == arrow());
            push_srt(out, shift_time(b, offset) as u64);
            return;
        }
    }
    push_range(out, l, 0, l.len());
    assert(l@.subrange(0, l@.len() as int) == l@);
}

pub(crate) fn digits_end_exec(l: &[char], i: usize) -> (r: usize)
    requires
        i <= l@.len(),
    ensures
        r as int == digits_end(l@, i as int),
        i <= r <= l@.len(),
{
    let mut j: usize = i;
    while j < l.len() && '0' <= l[j] && l[j] <= '9'
        invariant
            i <= j <= l@.len(),
            digits_end(l@, i as int) == digits_end(l@, j as int),
        decreases l.len() - j,
    {
        j = j + 1;
    }
    j
}

fn find_from_exec(l: &[char], i: usize, c: char) -> (r: usize)
    requires
        i <= l@.len(),
    ensures
        r as int == find_from(l@, i as int, c),
        i <= r <= l@.len(),
{
    let mut j: usize = i;
    while j < l.len() && l[j] != c
        invariant
            i <= j <= l@.len(),
            find_from(l@, i as int, c) == find_from(l@, j as int, c),
        decreases l.len() - j,
    {
        j = j + 1;
    }
    j
}

fn time_shape_exec(t: &[char]) -> (r: bool)
    ensures
        r == time_shape(t@),
{
    let n = t.len();
    let i1 = digits_end_exec(t, 0);
    if !(0 < i1 && i1 < n && t[i1] == ':') {
        return false;
    }
    let i2 = digits_end_exec(t, i1 + 1);
    if !(i1 + 1 < i2 && i2 < n && t[i2] == ':') {
        return false;
    }
    let i3 = digits_end_exec(t, i2 + 1);
    if !(i2 + 1 < i3 && i3 < n && t[i3] == '.') {
        return false;
    }
    let i4 = digits_end_exec(t, i3 + 1);
    i3 + 1 < i4 && i4 == n
}

fn dialogue_split_exec(l: &[char]) -> (r: Option<(usize, usize, usize)>)
    ensures
        r is None ==> dialogue_split(l@) is None,
        r matches Some((p, q, e)) ==> dialogue_split(l@) == Some((p as int, q as int, e as int))
            && p < q < e < l@.len(),
{
    let pre = vec!['D', 'i', 'a', 'l', 'o', 'g', 'u', 'e', ':', ' '];
    assert(pre@ == dialogue_prefix());
    if !matches_at(l, 0, &pre) {
        assert(l@.len() >= 10 ==> l@.subrange(0, 10) == l@.take(10));
        return None;
    }
    assert(l@.subrange(0, 10) == l@.take(10));
    let n = l.len();
    let p = decimal_end_exec(l, 10);
    if !(10 < p && p < n && l[p] == ',') {
        return None;
    }
    let q = find_from_exec(l, p + 1, ',');
    if q >= n {
        return None;
    }
    let r = find_from_exec(l, q + 1, ',');
    if r >= n || r + 1 >= n {
        return None;
    }
    if !time_shape_exec(&sub_vec(l, p + 1, q)) {
        return None;
    }
    if !time_shape_exec(&sub_vec(l, q + 1, r)) {
        return None;
    }
    Some((p, q, r))
}

/// Append the shifted form of a centisecond-form line.
fn push_rewritten_ass(out: &mut String, l: &[char], offset: i64)
    ensures
        final(out)@ == old(out)@ + rewrite_ass(l@, offset as int),
{
    let n = l.len();
    if let Some((p, q, r)) = dialogue_split_exec(l) {
        let a = parse_code_chars(&sub_vec(l, p + 1, q), '.', 10);
        let b = parse_code_chars(&sub_vec(l, q + 1, r), '.', 10);
        if let (Some(a), Some(b)) = (a, b) {
            let ghost start = out@;
            push_range(out, l, 0, p + 1);
            push_ass(out, shift_time(a, offset) as u64);
            push_char(out, ',');
            push_ass(out, shift_time(b, offset) as u64);
            push_char(out, ',');
            push_range(out, l, r + 1, l.len());
            assert(l@.subrange(0, p + 1) == l@.take(p + 1));
            assert(l@.subrange(r + 1, l@.len() as int) == l@.skip(r + 1));
            assert(out@ == start + rewrite_ass(l@, offset as int));
            return;
        }
    }
    push_range(out, l, 0, l.len());
    assert(l@.subrange(0, l@.len() as int) == l@);
}

fn push_rewritten(out: &mut String, l: &[char], offset: i64, fmt: SubtitleFormat)
    ensures
        final(out)@ == old(out)@ + rewrite_line(l@, offset as int, fmt),
{
    match fmt {
        SubtitleFormat::Srt => push_rewritten_srt(out, l, offset),
        SubtitleFormat::Ass => push_rewritten_ass(out, l, offset),
    }
}

proof fn lemma_lines_step(s: Seq<char>, i: int, cur: Seq<char>)
    requires
        0 <= i < s.len(),
    ensures
        s[i] == '\n' ==> lines_acc(s.skip(i), cur) == seq![strip_cr(cur)] + lines_acc(
            s.skip(i + 1),
            Seq::empty(),
        ),
        s[i] != '\n' ==> lines_acc(s.skip(i), cur) == lines_acc(s.skip(i + 1), cur.push(s[i])),
{
    let rest = s.skip(i);
    assert(rest[0] == s[i]);
    assert(rest.skip(1) == s.skip(i + 1));
}

proof fn lemma_render_cons(x: Seq<char>, rest: Seq<Seq<char>>, offset: int, fmt: SubtitleFormat)
    ensures
        render_lines(seq![x] + rest, offset, fmt) == rewrite_line(x, offset, fmt) + seq!['\n']
            + render_lines(rest, offset, fmt),
{
    let ls = seq![x] + rest;
    assert(ls[0] == x);
    assert(ls.skip(1) == rest);
}

/// Rewrite every line of `content` in the given encoding: time codes move by
/// `shift_ms` milliseconds (clamped at zero), all other text is kept, and
/// every output line, the last one included, ends with `\n`.
#[verifier::rlimit(50)]
pub fn shift_document(content: &str, shift_ms: i64, fmt: SubtitleFormat) -> (r: String)
    ensures
        r@ == shift_doc(content@, shift_ms as int, fmt),
{
    let s = chars_of(content);
    let n = s.len();
    let mut out = String::new();
    let mut start: usize = 0;
    let mut i: usize = 0;
    assert(s@.skip(0) == s@);
    assert(s@.subrange(0, 0) == Seq::<char>::empty());
    assert(out@ + shift_doc(s@, shift_ms as int, fmt) == shift_doc(s@, shift_ms as int, fmt));
    while i < n
        invariant
            n == s@.len(),
            content@ == s@,
            start <= i <= n,
            out@ + render_lines(
                lines_acc(s@.skip(i as int), s@.subrange(start as int, i as int)),
                shift_ms as int,
                fmt,
            ) == shift_doc(s@, shift_ms as int, fmt),
        decreases n - i,
    {
        let ghost cur = s@.subrange(start as int, i as int);
        if s[i] == '\n' {
            let end = if i > start && s[i - 1] == '\r' {
                i - 1
            } else {
                i
            };
            let line = sub_vec(&s, start, end);
            assert(line@ == strip_cr(cur));
            proof {
                lemma_lines_step(s@, i as int, cur);
                lemma_render_cons(line@, lines_acc(s@.skip(i + 1), Seq::empty()), shift_ms as int, fmt);
            }
            let ghost before = out@;
            push_rewritten(&mut out, &line, shift_ms, fmt);
            push_char(&mut out, '\n');
            proof {
                let tail = render_lines(lines_acc(s@.skip(i + 1), Seq::empty()), shift_ms as int, fmt);
                assert(out@ + tail == before + (rewrite_line(line@, shift_ms as int, fmt) + seq!['\n'] + tail));
            }
            start = i + 1;
            assert(s@.subrange(start as int, start as int) == Seq::<char>::empty());
        } else {
            proof {
                lemma_lines_step(s@, i as int, cur);
            }
            assert(cur.push(s@[i as int]) == s@.subrange(start as int, i + 1));
        }
        i = i + 1;
    }
    let ghost cur = s@.subrange(start as int, n as int);
    assert(s@.skip(n as int) == Seq::<char>::empty());
    if start < n {
        let line = sub_vec(&s, start, n);
        proof {
            lemma_render_cons(cur, Seq::empty(), shift_ms as int, fmt);
            assert(seq![cur] + Seq::<Seq<char>>::empty() == seq![cur]);
        }
        let ghost before = out@;
        push_rewritten(&mut out, &line, shift_ms, fmt);
        push_char(&mut out, '\n');
        assert(render_lines(Seq::<Seq<char>>::empty(), shift_ms as int, fmt) == Seq::<char>::empty());
        assert(out@ == before + (rewrite_line(cur, shift_ms as int, fmt) + seq!['\n'] + Seq::<char>::empty()));
    } else {
        assert(out@ + Seq::<char>::empty() == out@);
    }
    out
}

/// Shift every `start --> end` line of a document in millisecond form.
pub fn shift_srt(content: &str, shift_ms: i64) -> (r: String)
    ensures
        r@ == shift_doc(content@, shift_ms as int, SubtitleFormat::Srt),
{
    shift_document(content, shift_ms, SubtitleFormat::Srt)
}

/// Shift every dialogue line of a document in centisecond form.
pub fn shift_ass(content: &str, shift_ms: i64) -> (r: String)
    ensures
        r@ == shift_doc(content@, shift_ms as int, SubtitleFormat::Ass),
{
    shift_document(content, shift_ms, SubtitleFormat::Ass)
}

/// A line that carries no time-code marker of the encoding: no ` --> ` for
/// the millisecond form, no leading `Dialogue: ` for the centisecond form.
pub open spec fn unmarked(l: Seq<char>, fmt: SubtitleFormat) -> bool {
    match fmt {
        SubtitleFormat::Srt => forall|i: int| !#[trigger] arrow_at(l, i),
        SubtitleFormat::Ass => !(l.len() >= 10 && l.take(10) == dialogue_prefix()),
    }
}

/// Each line followed by `\n`, unchanged.
pub open spec fn join_lines(ls: Seq<Seq<char>>) -> Seq<char>
    decreases ls.len(),
{
    if ls.len() == 0 {
        Seq::empty()
    } else {
        ls[0] + seq!['\n'] + join_lines(ls.skip(1))
    }
}

proof fn lemma_find_arrow_found(l: Seq<char>, i: int)
    ensures
        find_arrow(l, i) matches Some(j) ==> arrow_at(l, j),
    decreases l.len() - i,
{
    if !(i < 0 || i + 5 > l.len()) && !arrow_at(l, i) {
        lemma_find_arrow_found(l, i + 1);
    }
}

/// A line without the marker of its encoding comes out as it went in.
pub proof fn lemma_unmarked_line_kept(l: Seq<char>, offset: int, fmt: SubtitleFormat)
    requires
        unmarked(l, fmt),
    ensures
        rewrite_line(l, offset, fmt) == l,
{
    lemma_find_arrow_found(l, 0);
}

/// A document none of whose lines carries a marker is only re-terminated:
/// every line is kept, in order, each followed by `\n`.
pub proof fn lemma_unmarked_document_kept(s: Seq<char>, offset: int, fmt: SubtitleFormat)
    requires
        forall|i: int| 0 <= i < lines_of(s).len() ==> unmarked(#[trigger] lines_of(s)[i], fmt),
    ensures
        shift_doc(s, offset, fmt) == join_lines(lines_of(s)),
{
    lemma_unmarked_lines_kept(lines_of(s), offset, fmt);
}

proof fn lemma_unmarked_lines_kept(ls: Seq<Seq<char>>, offset: int, fmt: SubtitleFormat)
    requires
        forall|i: int| 0 <= i < ls.len() ==> unmarked(#[trigger] ls[i], fmt),
    ensures
        render_lines(ls, offset, fmt) == join_lines(ls),
    decreases ls.len(),
{
    if ls.len() > 0 {
        lemma_unmarked_line_kept(ls[0], offset, fmt);
        assert forall|i: int| 0 <= i < ls.skip(1).len() implies unmarked(
            #[trigger] ls.skip(1)[i],
            fmt,
        ) by {
            assert(ls.skip(1)[i] == ls[i + 1]);
        }
        lemma_unmarked_lines_kept(ls.skip(1), offset, fmt);
    }
}

pub open spec fn no_newline(x: Seq<char>) -> bool {
    forall|k: int| 0 <= k < x.len() ==> #[trigger] x[k] != '\n'
}

proof fn lemma_lines_acc_skip(x: Seq<char>, t: Seq<char>, cur: Seq<char>)
    requires
        no_newline(x),
    ensures
        lines_acc(x + t, cur) == lines_acc(t, cur + x),
    decreases x.len(),
{
    if x.len() == 0 {
        assert(x + t == t);
        assert(cur + x == cur);
    } else {
        let u = x + t;
        assert(u[0] == x[0]);
        assert(u.skip(1) == x.skip(1) + t);
        assert(no_newline(x.skip(1))) by {
            assert forall|k: int| 0 <= k < x.skip(1).len() implies #[trigger] x.skip(1)[k]
                != '\n' by {
                assert(x.skip(1)[k] == x[k + 1]);
            }
        }
        lemma_lines_acc_skip(x.skip(1), t, cur.push(x[0]));
        assert(cur.push(x[0]) + x.skip(1) == cur + x);
    }
}

proof fn lemma_lines_acc_no_newline(s: Seq<char>, cur: Seq<char>)
    requires
        no_newline(cur),
    ensures
        forall|i: int|
            0 <= i < lines_acc(s, cur).len() ==> no_newline(#[trigger] lines_acc(s, cur)[i]),
    decreases s.len(),
{
    if s.len() == 0 {
        if cur.len() > 0 {
            assert(lines_acc(s, cur) == seq![cur]);
            assert(seq![cur][0] == cur);
        }
    } else if s[0] == '\n' {
        lemma_lines_acc_no_newline(s.skip(1), Seq::empty());
        let rest = lines_acc(s.skip(1), Seq::empty());
        let ls = seq![strip_cr(cur)] + rest;
        assert forall|i: int| 0 <= i < ls.len() implies no_newline(#[trigger] ls[i]) by {
            if i > 0 {
                assert(ls[i] == rest[i - 1]);
            } else {
                assert forall|k: int| 0 <= k < strip_cr(cur).len() implies #[trigger] strip_cr(
                    cur,
                )[k] != '\n' by {
                    assert(strip_cr(cur)[k] == cur[k]);
                }
            }
        }
        assert(lines_acc(s, cur) == ls);
    } else {
        let c2 = cur.push(s[0]);
        assert forall|k: int| 0 <= k < c2.len() implies #[trigger] c2[k] != '\n' by {
            if k < cur.len() {
                assert(c2[k] == cur[k]);
            }
        }
        lemma_lines_acc_no_newline(s.skip(1), c2);
        assert(lines_acc(s, cur) == lines_acc(s.skip(1), c2));
    }
}

proof fn lemma_join_reread(ls: Seq<Seq<char>>)
    requires
        forall|i: int| 0 <= i < ls.len() ==> no_newline(#[trigger] ls[i]),
        forall|i: int| 0 <= i < ls.len() ==> strip_cr(#[trigger] ls[i]) == ls[i],
    ensures
        lines_of(join_lines(ls)) == ls,
    decreases ls.len(),
{
    if ls.len() > 0 {
        let x = ls[0];
        let rest = ls.skip(1);
        assert forall|i: int| 0 <= i < rest.len() implies no_newline(#[trigger] rest[i])
            && strip_cr(rest[i]) == rest[i] by {
            assert(rest[i] == ls[i + 1]);
        }
        lemma_join_reread(rest);
        let t = seq!['\n'] + join_lines(rest);
        assert(join_lines(ls) == x + t);
        lemma_lines_acc_skip(x, t, Seq::empty());
        assert(Seq::<char>::empty() + x == x);
        assert(t[0] == '\n');
        assert(t.skip(1) == join_lines(rest));
        assert(seq![x] + rest == ls);
    }
}

/// When no line of a document carries a marker and none ends in a stray
/// `\r`, reading the shifted document back into lines gives the same lines,
/// in the same order: only line terminators may differ.
pub proof fn lemma_unmarked_document_lines(s: Seq<char>, offset: int, fmt: SubtitleFormat)
    requires
        forall|i: int| 0 <= i < lines_of(s).len() ==> unmarked(#[trigger] lines_of(s)[i], fmt),
        forall|i: int|
            0 <= i < lines_of(s).len() ==> strip_cr(#[trigger] lines_of(s)[i]) == lines_of(s)[i],
    ensures
        lines_of(shift_doc(s, offset, fmt)) == lines_of(s),
{
    lemma_unmarked_document_kept(s, offset, fmt);
    lemma_lines_acc_no_newline(s, Seq::empty());
    lemma_join_reread(lines_of(s));
}

} // verus!
