//! Media files: which extensions are videos or subtitles, which video a
//! subtitle belongs to, and the name its shifted copy is written under.
use vstd::prelude::*;
use crate::episode::{episode_of, extract_episode_number};
use crate::rewrite::SubtitleFormat;
use crate::text::{chars_of, push_char, push_range};

verus! {

/// The class of a file, decided by its extension.
#[derive(Clone, Copy, Debug, PartialEq, Eq, Structural)]
pub enum MediaKind {
    Video,
    Subtitle(SubtitleFormat),
}

/// `c` is `p` once lower-cased (the Kelvin sign lower-cases to `k`).
pub open spec fn ext_char_matches(c: char, p: char) -> bool {
    ||| c == p
    ||| ('a' <= p <= 'z' && (c as int) == (p as int) - 32)
    ||| (p == 'k' && c == '\u{212A}')
}

/// `e` lower-cases to `w`.
pub open spec fn ext_is(e: Seq<char>, w: Seq<char>) -> bool {
    e.len() == w.len() && forall|k: int| 0 <= k < w.len() ==> #[trigger] ext_char_matches(e[k], w[k])
}

pub open spec fn srt_name() -> Seq<char> {
    seq!['s', 'r', 't']
}

pub open spec fn ass_name() -> Seq<char> {
    seq!['a', 's', 's']
}

/// Video extensions: mkv, mp4, avi; subtitle extensions: srt, ass; any case.
pub open spec fn kind_of(ext: Seq<char>) -> Option<MediaKind> {
    if ext_is(ext, seq!['m', 'k', 'v']) || ext_is(ext, seq!['m', 'p', '4']) || ext_is(
        ext,
        seq!['a', 'v', 'i'],
    ) {
        Some(MediaKind::Video)
    } else if ext_is(ext, srt_name()) {
        Some(MediaKind::Subtitle(SubtitleFormat::Srt))
    } else if ext_is(ext, ass_name()) {
        Some(MediaKind::Subtitle(SubtitleFormat::Ass))
    } else {
        None
    }
}

/// The lower-case extension of a subtitle encoding.
pub open spec fn format_ext(fmt: SubtitleFormat) -> Seq<char> {
    match fmt {
        SubtitleFormat::Srt => srt_name(),
        SubtitleFormat::Ass => ass_name(),
    }
}

pub open spec fn shifted_prefix() -> Seq<char> {
    seq!['s', 'h', 'i', 'f', 't', 'e', 'd', '_']
}

/// `<video stem>.<ext>` for a matched subtitle, `shifted_<file name>` otherwise.
pub open spec fn target_of(
    file_name: Seq<char>,
    fmt: SubtitleFormat,
    video_stem: Option<Seq<char>>,
) -> Seq<char> {
    match video_stem {
        Some(stem) => stem + seq!['.'] + format_ext(fmt),
        None => shifted_prefix() + file_name,
    }
}

fn ext_char_matches_exec(c: char, p: char) -> (r: bool)
    ensures
        r == ext_char_matches(c, p),
{
    c == p || ('a' <= p && p <= 'z' && (c as u32) + 32 == (p as u32)) || (p == 'k' && c
        == '\u{212A}')
}

fn ext_is_exec(e: &[char], w: &[char]) -> (r: bool)
    ensures
        r == ext_is(e@, w@),
{
    if e.len() != w.len() {
        return false;
    }
    let mut k: usize = 0;
    while k < w.len()
        invariant
            e@.len() == w@.len(),
            k <= w@.len(),
            forall|j: int| 0 <= j < k ==> #[trigger] ext_char_matches(e@[j], w@[j]),
        decreases w.len() - k,
    {
        let c = e[k];
        let p = w[k];
        if !ext_char_matches_exec(c, p) {
            assert(!ext_char_matches(e@[k as int], w@[k as int]));
            return false;
        }
        assert(ext_char_matches(e@[k as int], w@[k as int]));
        k = k + 1;
    }
    true
}

/// The class of a file with extension `ext` (without the dot), if any.
pub fn media_kind(ext: &str) -> (r: Option<MediaKind>)
    ensures
        r == kind_of(ext@),
{
    let e = chars_of(ext);
    let mkv = vec!['m', 'k', 'v'];
    let mp4 = vec!['m', 'p', '4'];
    let avi = vec!['a', 'v', 'i'];
    let srt = vec!['s', 'r', 't'];
    let ass = vec!['a', 's', 's'];
    assert(mkv@ == seq!['m', 'k', 'v']);
    assert(mp4@ == seq!['m', 'p', '4']);
    assert(avi@ == seq!['a', 'v', 'i']);
    assert(srt@ == srt_name());
    assert(ass@ == ass_name());
    if ext_is_exec(&e, &mkv) || ext_is_exec(&e, &mp4) || ext_is_exec(&e, &avi) {
        Some(MediaKind::Video)
    } else if ext_is_exec(&e, &srt) {
        Some(MediaKind::Subtitle(SubtitleFormat::Srt))
    } else if ext_is_exec(&e, &ass) {
        Some(MediaKind::Subtitle(SubtitleFormat::Ass))
    } else {
        None
    }
}

/// A file takes part in matching when its extension has a class and its
/// name an episode number; it is then described by both.
pub fn classify_file(file_name: &str, ext: &str) -> (r: Option<(MediaKind, u32)>)
    ensures
        r is Some <==> (kind_of(ext@) is Some && episode_of(file_name@) is Some),
        r matches Some((k, ep)) ==> kind_of(ext@) == Some(k) && episode_of(file_name@) == Some(
            ep as int,
        ),
{
    match extract_episode_number(file_name) {
        Some(ep) => match media_kind(ext) {
            Some(k) => Some((k, ep)),
            None => None,
        },
        None => None,
    }
}

/// The first video, in list order, whose episode number is `episode`.
pub fn find_matching_video(video_files: &[(String, u32)], episode: u32) -> (r: Option<&String>)
    ensures
        r is None <==> forall|i: int| 0 <= i < video_files@.len() ==> video_files@[i].1 != episode,
        r is Some ==> exists|i: int|
            0 <= i < video_files@.len() && video_files@[i].1 == episode && r->0 == &video_files@[i].0
                && forall|j: int| 0 <= j < i ==> video_files@[j].1 != episode,
{
    let mut i: usize = 0;
    while i < video_files.len()
        invariant
            i <= video_files@.len(),
            forall|j: int| 0 <= j < i ==> video_files@[j].1 != episode,
        decreases video_files.len() - i,
    {
        if video_files[i].1 == episode {
            return Some(&video_files[i].0);
        }
        i = i + 1;
    }
    None
}

/// The name a shifted subtitle is written under: the matched video's stem
/// with the subtitle's lower-case extension, or `shifted_` before its own name.
pub fn target_name(file_name: &str, fmt: SubtitleFormat, video_stem: Option<&str>) -> (r: String)
    ensures
        r@ == target_of(file_name@, fmt, match video_stem {
            Some(s) => Some(s@),
            None => None,
        }),
{
    let mut out = String::new();
    match video_stem {
        Some(stem) => {
            let s = chars_of(stem);
            push_range(&mut out, &s, 0, s.len());
            push_char(&mut out, '.');
            match fmt {
                SubtitleFormat::Srt => {
                    push_char(&mut out, 's');
                    push_char(&mut out, 'r');
                    push_char(&mut out, 't');
                },
                SubtitleFormat::Ass => {
                    push_char(&mut out, 'a');
                    push_char(&mut out, 's');
                    push_char(&mut out, 's');
                },
            }
            assert(s@.subrange(0, s@.len() as int) == s@);
            assert(out@ == s@ + seq!['.'] + format_ext(fmt));
        },
        None => {
            let pre = vec!['s', 'h', 'i', 'f', 't', 'e', 'd', '_'];
            push_range(&mut out, &pre, 0, 8);
            let s = chars_of(file_name);
            push_range(&mut out, &s, 0, s.len());
            assert(pre@.subrange(0, 8) == shifted_prefix());
            assert(s@.subrange(0, s@.len() as int) == s@);
        },
    }
    out
}

} // verus!
