//! Subtitle synchronisation: timestamp codecs, a line-oriented shift engine,
//! and episode-number based pairing of subtitle files with video files.
pub mod episode;
pub mod media;
pub mod rewrite;
pub mod text;
pub mod timecode;

pub use episode::{extract_episode_number, find_pattern, EpisodePattern};
pub use media::{classify_file, find_matching_video, media_kind, target_name, MediaKind};
pub use rewrite::{shift_ass, shift_document, shift_srt, SubtitleFormat};
pub use timecode::{
    format_timestamp_ass, format_timestamp_srt, parse_timestamp_ass, parse_timestamp_srt,
    shift_time,
};
