use subsync::{
    classify_file, extract_episode_number, find_matching_video, format_timestamp_ass,
    format_timestamp_srt, media_kind, parse_timestamp_ass, parse_timestamp_srt, shift_ass,
    shift_document, shift_srt, shift_time, target_name, EpisodePattern, MediaKind,
    SubtitleFormat,
};
use subsync::episode::find_pattern;

#[test]
fn parse_srt_value() {
    assert_eq!(parse_timestamp_srt("01:02:03,004"), Some(3_723_004));
    assert_eq!(parse_timestamp_srt("00:00:00,000"), Some(0));
}

#[test]
fn parse_srt_rejects_bad_fields() {
    assert_eq!(parse_timestamp_srt("00:01:02"), None);
    assert_eq!(parse_timestamp_srt("00:01:02,500,1"), None);
    assert_eq!(parse_timestamp_srt("aa:00:00,000"), None);
    assert_eq!(parse_timestamp_srt("-1:00:00,000"), None);
    assert_eq!(parse_timestamp_srt("00::00,000"), None);
    assert_eq!(parse_timestamp_srt(""), None);
}

#[test]
fn parse_srt_accepts_out_of_range_fields() {
    assert_eq!(parse_timestamp_srt("00:75:00,000"), Some(4_500_000));
    assert_eq!(parse_timestamp_srt("00,01,02,500"), Some(62_500));
}

#[test]
fn parse_srt_rejects_overflow() {
    assert_eq!(parse_timestamp_srt("9999999999999:00:00,000"), None);
    assert_eq!(parse_timestamp_srt("0:0:0,99999999999999999999"), None);
}

#[test]
fn parse_ass_value() {
    assert_eq!(parse_timestamp_ass("0:00:10.50"), Some(10_500));
    assert_eq!(parse_timestamp_ass("1:02:03.45"), Some(3_723_450));
    assert_eq!(parse_timestamp_ass("1:02:03,45"), None);
}

#[test]
fn format_srt_values() {
    assert_eq!(format_timestamp_srt(3_723_004), "01:02:03,004");
    assert_eq!(format_timestamp_srt(0), "00:00:00,000");
    assert_eq!(format_timestamp_srt(360_000_000), "100:00:00,000");
}

#[test]
fn format_ass_values() {
    assert_eq!(format_timestamp_ass(3_723_450), "1:02:03.45");
    assert_eq!(format_timestamp_ass(1_234), "0:00:01.23");
    assert_eq!(format_timestamp_ass(0), "0:00:00.00");
}

#[test]
fn srt_round_trip() {
    for t in ["00:00:00,000", "01:02:03,004", "12:59:59,999", "123:00:00,001"] {
        let v = parse_timestamp_srt(t).unwrap();
        assert_eq!(format_timestamp_srt(v), t);
    }
}

#[test]
fn ass_round_trip() {
    for t in ["0:00:00.00", "1:02:03.45", "10:59:59.99"] {
        let v = parse_timestamp_ass(t).unwrap();
        assert_eq!(v % 10, 0);
        assert_eq!(format_timestamp_ass(v), t);
    }
    assert_eq!(format_timestamp_ass(1_239), "0:00:01.23");
}

#[test]
fn shift_clamps_at_zero() {
    assert_eq!(shift_time(1_000, -5_000), 0);
    assert_eq!(shift_time(0, i64::MIN), 0);
    assert_eq!(shift_time(1_000, 500), 1_500);
    assert_eq!(shift_time(i64::MAX, i64::MAX), i64::MAX);
}

#[test]
fn shift_is_additive() {
    assert_eq!(shift_time(shift_time(10_000, -3_000), 1_200), shift_time(10_000, -1_800));
    assert_eq!(shift_time(shift_time(1_000, -2_000), -500), shift_time(1_000, -2_500));
    assert_eq!(shift_time(shift_time(1_000, -2_000), 2_000), 2_000);
    assert_eq!(shift_time(1_000, 0), 1_000);
}

#[test]
fn srt_sample_line() {
    assert_eq!(
        shift_srt("00:01:02,500 --> 00:01:05,000", 1500),
        "00:01:04,000 --> 00:01:06,500\n"
    );
}

#[test]
fn ass_sample_line() {
    assert_eq!(
        shift_ass("Dialogue: 0,0:00:10.50,0:00:12.00,Hello", -200),
        "Dialogue: 0,0:00:10.30,0:00:11.80,Hello\n"
    );
}

#[test]
fn srt_document_keeps_other_lines() {
    let doc = "1\r\n00:00:01,000 --> 00:00:02,500\r\nHello --> there\r\n\r\n2\n00:00:03,000 --> 00:00:04,000\nBye";
    let out = shift_srt(doc, -1_500);
    assert_eq!(
        out,
        "1\n00:00:00,000 --> 00:00:01,000\nHello --> there\n\n2\n00:00:01,500 --> 00:00:02,500\nBye\n"
    );
}

#[test]
fn srt_line_with_extra_separator_is_kept() {
    let line = "00:00:01,000 --> 00:00:02,000 --> 00:00:03,000";
    assert_eq!(shift_srt(line, 1_000), format!("{}\n", line));
}

#[test]
fn unmarked_lines_are_kept() {
    let doc = "[Script Info]\nTitle: x\r\nComment: 0,0:00:01.00,0:00:02.00,Hi\n\nplain";
    assert_eq!(shift_ass(doc, 5_000), "[Script Info]\nTitle: x\nComment: 0,0:00:01.00,0:00:02.00,Hi\n\nplain\n");
    assert_eq!(shift_srt(doc, 5_000), "[Script Info]\nTitle: x\nComment: 0,0:00:01.00,0:00:02.00,Hi\n\nplain\n");
}

#[test]
fn empty_document() {
    assert_eq!(shift_srt("", 100), "");
    assert_eq!(shift_ass("\n", 100), "\n");
}

#[test]
fn ass_lines_that_do_not_match() {
    let no_rest = "Dialogue: 0,0:00:10.50,0:00:12.00,";
    assert_eq!(shift_ass(no_rest, 100), format!("{}\n", no_rest));
    let bad_layer = "Dialogue: x,0:00:10.50,0:00:12.00,Hi";
    assert_eq!(shift_ass(bad_layer, 100), format!("{}\n", bad_layer));
    let bad_time = "Dialogue: 0,0:00:10,0:00:12.00,Hi";
    assert_eq!(shift_ass(bad_time, 100), format!("{}\n", bad_time));
}

#[test]
fn ass_keeps_commas_in_rest() {
    assert_eq!(
        shift_ass("Dialogue: 10,1:00:00.00,1:00:01.00,Default,,0,0,0,,Hi, there", -1_000),
        "Dialogue: 10,0:59:59.00,1:00:00.00,Default,,0,0,0,,Hi, there\n"
    );
}

#[test]
fn shift_document_by_format() {
    assert_eq!(
        shift_document("00:00:01,000 --> 00:00:02,000", 10, SubtitleFormat::Srt),
        "00:00:01,010 --> 00:00:02,010\n"
    );
    assert_eq!(
        shift_document("Dialogue: 0,0:00:01.00,0:00:02.00,A", 15, SubtitleFormat::Ass),
        "Dialogue: 0,0:00:01.01,0:00:02.01,A\n"
    );
}

#[test]
fn episode_examples() {
    assert_eq!(extract_episode_number("Show.S01E07.mkv"), Some(7));
    assert_eq!(extract_episode_number("Show EP12 [1080p].mkv"), Some(12));
    assert_eq!(extract_episode_number("Show - 003.mkv"), Some(3));
    assert_eq!(extract_episode_number("Show.mkv"), None);
}

#[test]
fn episode_word_pattern() {
    assert_eq!(extract_episode_number("Show Episode 5.mkv"), Some(5));
    assert_eq!(extract_episode_number("show_episode__14.srt"), Some(14));
}

#[test]
fn episode_bare_pattern() {
    assert_eq!(extract_episode_number("Show_12_x.mkv"), Some(12));
    assert_eq!(extract_episode_number("Show 1234.mkv"), None);
    assert_eq!(extract_episode_number("Show 42"), Some(42));
}

#[test]
fn episode_overflow_falls_to_next_pattern() {
    assert_eq!(extract_episode_number("e99999999999 - 05.mkv"), Some(5));
}

#[test]
fn episode_leftmost_match_wins() {
    assert_eq!(extract_episode_number("e1 e2"), Some(1));
    assert_eq!(find_pattern(&"a E3 b".chars().collect::<Vec<char>>(), EpisodePattern::Letter), Some(3));
    assert_eq!(find_pattern(&"x.mkv".chars().collect::<Vec<char>>(), EpisodePattern::Bare), None);
}

#[test]
fn extension_classes() {
    assert_eq!(media_kind("mkv"), Some(MediaKind::Video));
    assert_eq!(media_kind("MP4"), Some(MediaKind::Video));
    assert_eq!(media_kind("Avi"), Some(MediaKind::Video));
    assert_eq!(media_kind("srt"), Some(MediaKind::Subtitle(SubtitleFormat::Srt)));
    assert_eq!(media_kind("ASS"), Some(MediaKind::Subtitle(SubtitleFormat::Ass)));
    assert_eq!(media_kind("txt"), None);
    assert_eq!(media_kind(""), None);
}

#[test]
fn classify_needs_episode_and_extension() {
    assert_eq!(classify_file("Show - 003.mkv", "mkv"), Some((MediaKind::Video, 3)));
    assert_eq!(classify_file("Show.mkv", "mkv"), None);
    assert_eq!(classify_file("Show - 003.txt", "txt"), None);
}

#[test]
fn first_matching_video_wins() {
    let videos = vec![
        ("a - 01.mkv".to_string(), 1u32),
        ("b - 02.mkv".to_string(), 2u32),
        ("c - 02.mp4".to_string(), 2u32),
    ];
    assert_eq!(find_matching_video(&videos, 2), Some(&"b - 02.mkv".to_string()));
    assert_eq!(find_matching_video(&videos, 3), None);
    assert_eq!(find_matching_video(&[], 1), None);
}

#[test]
fn matched_subtitle_takes_video_name() {
    let sub_name = "Show - 003.srt";
    let (kind, ep) = classify_file(sub_name, "srt").unwrap();
    assert_eq!(kind, MediaKind::Subtitle(SubtitleFormat::Srt));
    let videos = vec![("Show - 003.mkv".to_string(), 3u32)];
    assert!(find_matching_video(&videos, ep).is_some());
    assert_eq!(target_name(sub_name, SubtitleFormat::Srt, Some("Show - 003")), "Show - 003.srt");
    let shift_ms = (-5.43f64 * 1000.0) as i64;
    assert_eq!(shift_ms, -5430);
    let doc = "1\n00:00:03,000 --> 00:00:10,000\nHi\n";
    assert_eq!(shift_srt(doc, shift_ms), "1\n00:00:00,000 --> 00:00:04,570\nHi\n");
}

#[test]
fn unmatched_subtitle_is_prefixed() {
    let videos: Vec<(String, u32)> = vec![("Other - 009.mkv".to_string(), 9)];
    let (_, ep) = classify_file("Show - 004.ass", "ass").unwrap();
    assert_eq!(find_matching_video(&videos, ep), None);
    assert_eq!(target_name("Show - 004.ass", SubtitleFormat::Ass, None), "shifted_Show - 004.ass");
    assert_eq!(
        shift_ass("Dialogue: 0,0:00:10.50,0:00:12.00,Hi", 1_000),
        "Dialogue: 0,0:00:11.50,0:00:13.00,Hi\n"
    );
}

#[test]
fn target_uses_lower_case_extension() {
    assert_eq!(target_name("X 01.SRT", SubtitleFormat::Srt, Some("Video 01")), "Video 01.srt");
    assert_eq!(target_name("X 01.ASS", SubtitleFormat::Ass, Some("V")), "V.ass");
}

#[test]
fn parse_refuses_signed_fields() {
    assert_eq!(parse_timestamp_srt("+1:00:00,000"), None);
    assert_eq!(parse_timestamp_ass("0:+1:00.00"), None);
}

#[test]
fn episode_capture_with_non_ascii_digit_yields_nothing() {
    // "e1" followed by ARABIC-INDIC DIGIT THREE: the first rule captures both
    // digits, which do not read as a number, and no later rule matches.
    assert_eq!(extract_episode_number("e1\u{663}"), None);
    assert_eq!(extract_episode_number("e\u{661}\u{662} - 05.mkv"), Some(5));
    assert_eq!(extract_episode_number("Show - \u{661}\u{662}.mkv"), None);
    assert_eq!(extract_episode_number("Show - 1\u{662}3.mkv"), None);
}

#[test]
fn dialogue_layer_of_any_script_is_shifted() {
    assert_eq!(
        shift_ass("Dialogue: \u{663},0:00:01.00,0:00:02.00,Hi", 500),
        "Dialogue: \u{663},0:00:01.50,0:00:02.50,Hi\n"
    );
    let non_ascii_time = "Dialogue: 0,0:00:\u{661}1.00,0:00:02.00,Hi";
    assert_eq!(shift_ass(non_ascii_time, 500), format!("{}\n", non_ascii_time));
}

fn regex_episode(filename: &str) -> Option<u32> {
    let patterns = [
        r"(?i)e(\d+)",
        r"(?i)ep(\d+)",
        r"(?i)episode[_\s]*(\d+)",
        r"[\s\-_](\d{2,3})(?:\.|$|[\s\-_])",
    ];
    for pattern in patterns {
        let re = regex::Regex::new(pattern).unwrap();
        if let Some(caps) = re.captures(filename) {
            if let Some(num) = caps.get(1).and_then(|m| m.as_str().parse().ok()) {
                return Some(num);
            }
        }
    }
    None
}

#[test]
fn episode_rules_agree_with_regular_expressions() {
    let names = [
        "Show.S01E07.mkv",
        "Show EP12 [1080p].mkv",
        "Show - 003.mkv",
        "Show.mkv",
        "Show Episode 5.mkv",
        "show_episode__14.srt",
        "Show_12_x.mkv",
        "Show 1234.mkv",
        "Show 42",
        "e99999999999 - 05.mkv",
        "e1\u{663}",
        "e\u{661}\u{662} - 05.mkv",
        "Show - \u{661}\u{662}.mkv",
        "Show\u{3000}77\u{2028}",
        "EPI\u{17F}ODE\u{a0}9",
        "x-\u{966}\u{967}-07.ass",
        "E",
        "",
    ];
    for name in names {
        assert_eq!(extract_episode_number(name), regex_episode(name), "{}", name);
    }
}

#[test]
fn dialogue_rule_agrees_with_regular_expression() {
    let re = regex::Regex::new(r"^(Dialogue: \d+,)(\d+:\d+:\d+\.\d+),(\d+:\d+:\d+\.\d+),(.+)$").unwrap();
    let lines = [
        "Dialogue: 0,0:00:10.50,0:00:12.00,Hello",
        "Dialogue: \u{663},0:00:01.00,0:00:02.00,Hi",
        "Dialogue: \u{9e6}\u{9e7},1:02:03.45,1:02:04.00,a,b",
        "Dialogue: ,0:00:01.00,0:00:02.00,Hi",
        "Dialogue: 0,0:00:01.00,0:00:02.00,",
        "Dialogue: 0,0:00:01,0:00:02.00,Hi",
        "Comment: 0,0:00:01.00,0:00:02.00,Hi",
    ];
    for line in lines {
        let shifted = shift_ass(line, 0);
        let kept = shifted == format!("{}\n", line);
        let matched = re.is_match(line);
        assert_eq!(!kept || matched, matched, "{}", line);
        if matched {
            let caps = re.captures(line).unwrap();
            assert!(shifted.starts_with(&caps[1]), "{}", line);
        }
    }
    assert_eq!(
        shift_ass("Dialogue: \u{9e6}\u{9e7},1:02:03.45,1:02:04.00,a,b", 1_000),
        "Dialogue: \u{9e6}\u{9e7},1:02:04.45,1:02:05.00,a,b\n"
    );
}
