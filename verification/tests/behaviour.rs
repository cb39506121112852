use forge_subtitle::timestamp::{
    clamp, fmt_srt_ts, fmt_vtt_ts, parse_srt_timestamp, parse_vtt_timestamp, ts_to_ms,
};
use forge_subtitle::{Metadata, SubFormat, SubtitleDecomposer, SubtitleTile};
use uuid::Uuid;

fn sample_srt() -> &'static str {
    "1\n00:00:01,000 --> 00:00:04,000\nHello, world!\n\n2\n00:00:05,000 --> 00:00:08,000\nThis is a test.\n\n3\n00:00:10,000 --> 00:00:13,000\nThird subtitle line."
}

fn tile(index: u32, start_ms: u64, end_ms: u64, text: &str) -> SubtitleTile {
    SubtitleTile {
        id: Uuid::new_v4(),
        index,
        start_ms,
        end_ms,
        text: text.to_string(),
        meta: Metadata::new(),
    }
}

// ── timestamps ───────────────────────────────────────────────────────

#[test]
fn ts_to_ms_hours_minutes_seconds() {
    assert_eq!(ts_to_ms("00:01:23,456", ','), 83456);
    assert_eq!(ts_to_ms("01:02:03.004", '.'), 3723004);
}

#[test]
fn ts_to_ms_minutes_seconds() {
    assert_eq!(ts_to_ms("01:23,456", ','), 83456);
}

#[test]
fn ts_to_ms_odd_forms() {
    // a single part counts only the milliseconds
    assert_eq!(ts_to_ms("5", ','), 0);
    assert_eq!(ts_to_ms(",5", ','), 5);
    // parts that are not numbers are left out
    assert_eq!(ts_to_ms("aa:01:02,003", ','), 62003);
    // milliseconds that are not a number count as 0
    assert_eq!(ts_to_ms("00:00:02,xyz", ','), 2000);
    assert_eq!(ts_to_ms("+1:+2", ','), 62000);
}

#[test]
fn timing_lines() {
    assert_eq!(parse_srt_timestamp("00:00:01,000 --> 00:00:04,000"), Some((1000, 4000)));
    assert_eq!(parse_vtt_timestamp("00:00:01.500-->00:00:02.250"), Some((1500, 2250)));
    assert_eq!(parse_srt_timestamp("no arrow here"), None);
    assert_eq!(parse_srt_timestamp("1 --> 2 --> 3"), None);
}

#[test]
fn format_timestamps() {
    assert_eq!(fmt_srt_ts(3723456), "01:02:03,456");
    assert_eq!(fmt_vtt_ts(0), "00:00:00.000");
    assert_eq!(fmt_srt_ts(360_000_000), "100:00:00,000");
    assert_eq!(fmt_vtt_ts(61_001), "00:01:01.001");
}

#[test]
fn timestamp_roundtrip_values() {
    for ms in [0u64, 1, 999, 1000, 59_999, 3_600_000, 86_399_999, 123_456_789] {
        assert_eq!(ts_to_ms(&fmt_srt_ts(ms), ','), ms);
        assert_eq!(ts_to_ms(&fmt_vtt_ts(ms), '.'), ms);
    }
}

#[test]
fn clamp_values() {
    assert_eq!(clamp(-5), 0);
    assert_eq!(clamp(0), 0);
    assert_eq!(clamp(7), 7);
    assert_eq!(clamp(i64::MAX), i64::MAX as u64);
}

// ── detection ────────────────────────────────────────────────────────

#[test]
fn detect_edge_cases() {
    assert_eq!(SubtitleDecomposer::detect_format("  \nWEBVTT\n"), SubFormat::VTT);
    assert_eq!(SubtitleDecomposer::detect_format("42\n00:00:01,000 --> 00:00:02,000\nx"), SubFormat::SRT);
    assert_eq!(SubtitleDecomposer::detect_format("1abc"), SubFormat::SRT);
    assert_eq!(SubtitleDecomposer::detect_format(""), SubFormat::Unknown);
    assert_eq!(SubtitleDecomposer::detect_format("99999999999 x"), SubFormat::Unknown);
    assert_eq!(SubtitleDecomposer::detect_format("+7 x"), SubFormat::SRT);
}

// ── parsing ──────────────────────────────────────────────────────────

#[test]
fn parse_srt_skips_bad_blocks() {
    let srt = "x\n00:00:01,000 --> 00:00:02,000\nbad index\n\n2\nno timing\ntext\n\n3\n00:00:03,000 --> 00:00:04,000\n\n4\n00:00:05,000 --> 00:00:06,000\nkept";
    let tiles = SubtitleDecomposer::parse_srt(srt);
    assert_eq!(tiles.len(), 1);
    assert_eq!(tiles[0].index, 4);
    assert_eq!(tiles[0].text, "kept");
    assert!(tiles[0].meta.is_empty());
}

#[test]
fn parse_srt_crlf_lines() {
    let srt = "7\r\n00:00:01,000 --> 00:00:02,000\r\nfirst\r\nsecond";
    let tiles = SubtitleDecomposer::parse_srt(srt);
    assert_eq!(tiles.len(), 1);
    assert_eq!(tiles[0].index, 7);
    assert_eq!(tiles[0].text, "first\nsecond");
}

#[test]
fn parse_srt_fresh_ids() {
    let tiles = SubtitleDecomposer::parse_srt(sample_srt());
    assert_ne!(tiles[0].id, tiles[1].id);
}

#[test]
fn parse_vtt_numbers_and_ids() {
    let vtt = "WEBVTT - title\n\nintro\n00:01.000 --> 00:02.000\nfirst\n\n00:00:03.000 --> 00:00:04.000\nsecond\nmore";
    let tiles = SubtitleDecomposer::parse_vtt(vtt);
    assert_eq!(tiles.len(), 2);
    assert_eq!(tiles[0].index, 1);
    assert_eq!(tiles[0].start_ms, 1000);
    assert_eq!(tiles[0].meta.get("cue_id").unwrap(), "intro");
    assert_eq!(tiles[1].index, 2);
    assert_eq!(tiles[1].text, "second\nmore");
    assert!(tiles[1].meta.get("cue_id").is_none());
}

#[test]
fn parse_vtt_without_header() {
    let vtt = "00:00:01.000 --> 00:00:02.000\nno header";
    let tiles = SubtitleDecomposer::parse_vtt(vtt);
    assert_eq!(tiles.len(), 1);
    assert_eq!(tiles[0].text, "no header");
}

// ── output ───────────────────────────────────────────────────────────

#[test]
fn to_srt_exact() {
    let tiles = vec![tile(9, 1000, 2500, "a"), tile(3, 3000, 4000, "b\nc")];
    assert_eq!(
        SubtitleDecomposer::to_srt(&tiles),
        "1\n00:00:01,000 --> 00:00:02,500\na\n\n2\n00:00:03,000 --> 00:00:04,000\nb\nc"
    );
    assert_eq!(SubtitleDecomposer::to_srt(&[]), "");
}

#[test]
fn to_vtt_exact() {
    let tiles = vec![tile(9, 1000, 2500, "a")];
    assert_eq!(SubtitleDecomposer::to_vtt(&tiles), "WEBVTT\n\n9\n00:00:01.000 --> 00:00:02.500\na");
    assert_eq!(SubtitleDecomposer::to_vtt(&[]), "WEBVTT\n\n");
}

#[test]
fn srt_written_reads_back() {
    let tiles = vec![tile(5, 1000, 4000, "Hello"), tile(6, 4500, 9000, "two\nlines")];
    let back = SubtitleDecomposer::parse_srt(&SubtitleDecomposer::to_srt(&tiles));
    assert_eq!(back.len(), 2);
    for (i, (a, b)) in tiles.iter().zip(back.iter()).enumerate() {
        assert_eq!(b.index as usize, i + 1);
        assert_eq!(a.start_ms, b.start_ms);
        assert_eq!(a.end_ms, b.end_ms);
        assert_eq!(a.text, b.text);
    }
}

#[test]
fn vtt_written_reads_back() {
    let tiles = vec![tile(5, 1000, 4000, "Hello"), tile(6, 4500, 9000, "two\nlines ")];
    let back = SubtitleDecomposer::parse_vtt(&SubtitleDecomposer::to_vtt(&tiles));
    assert_eq!(back.len(), 2);
    assert_eq!(back[0].index, 1);
    assert_eq!(back[1].index, 2);
    assert_eq!(back[0].meta.get("cue_id").unwrap(), "5");
    assert_eq!(back[1].meta.get("cue_id").unwrap(), "6");
    assert_eq!(back[1].text, "two\nlines ");
    assert_eq!(back[1].end_ms, 9000);
}

#[test]
fn written_files_are_detected() {
    let tiles = vec![tile(5, 1000, 4000, "Hello")];
    assert_eq!(SubtitleDecomposer::detect_format(&SubtitleDecomposer::to_srt(&tiles)), SubFormat::SRT);
    assert_eq!(SubtitleDecomposer::detect_format(&SubtitleDecomposer::to_vtt(&tiles)), SubFormat::VTT);
    assert_eq!(SubtitleDecomposer::detect_format(&SubtitleDecomposer::to_vtt(&[])), SubFormat::VTT);
}

// ── transformations ──────────────────────────────────────────────────

#[test]
fn shift_keeps_everything_else() {
    let mut t = tile(4, 1000, 2000, "x");
    t.meta.insert("k".to_string(), "v".to_string());
    let shifted = SubtitleDecomposer::shift_timing(&[t.clone()], 250);
    assert_eq!(shifted[0].id, t.id);
    assert_eq!(shifted[0].index, 4);
    assert_eq!(shifted[0].text, "x");
    assert_eq!(shifted[0].meta.get("k").unwrap(), "v");
    assert_eq!((shifted[0].start_ms, shifted[0].end_ms), (1250, 2250));
}

#[test]
fn shift_there_and_back() {
    let tiles = SubtitleDecomposer::parse_srt(sample_srt());
    let there = SubtitleDecomposer::shift_timing(&tiles, 700);
    let back = SubtitleDecomposer::shift_timing(&there, -700);
    for (a, b) in tiles.iter().zip(back.iter()) {
        assert_eq!((a.start_ms, a.end_ms), (b.start_ms, b.end_ms));
    }
}

#[test]
fn filter_bounds_are_inclusive_and_idempotent() {
    let tiles = SubtitleDecomposer::parse_srt(sample_srt());
    let kept = SubtitleDecomposer::filter_by_time(&tiles, 5000, 13000);
    assert_eq!(kept.len(), 2);
    assert_eq!(kept[0].text, "This is a test.");
    assert_eq!(kept[0].id, tiles[1].id);
    let again = SubtitleDecomposer::filter_by_time(&kept, 5000, 13000);
    assert_eq!(again.len(), 2);
}

#[test]
fn merge_numbers_and_ids() {
    let tiles = vec![
        tile(10, 5000, 6000, "c"),
        tile(20, 0, 1000, "a"),
        tile(30, 1500, 2000, "b"),
    ];
    let merged = SubtitleDecomposer::merge_tiles(&tiles, 500);
    assert_eq!(merged.len(), 2);
    assert_eq!(merged[0].id, tiles[1].id);
    assert_eq!(merged[0].index, 20);
    assert_eq!(merged[0].text, "a b");
    assert_eq!((merged[0].start_ms, merged[0].end_ms), (0, 2000));
    assert_eq!(merged[1].index, 21);
    assert_eq!(merged[1].text, "c");
    assert!(merged[0].end_ms + 500 < merged[1].start_ms);
    assert!(SubtitleDecomposer::merge_tiles(&[], 100).is_empty());
}

#[test]
fn merge_keeps_text() {
    let tiles = SubtitleDecomposer::parse_srt(sample_srt());
    let merged = SubtitleDecomposer::merge_tiles(&tiles, 1500);
    assert_eq!(SubtitleDecomposer::total_text(&merged), SubtitleDecomposer::total_text(&tiles));
}

#[test]
fn merge_stable_for_equal_starts() {
    let tiles = vec![tile(1, 0, 100, "first"), tile(2, 0, 50, "second")];
    let merged = SubtitleDecomposer::merge_tiles(&tiles, 0);
    assert_eq!(merged.len(), 1);
    assert_eq!(merged[0].text, "first second");
    assert_eq!(merged[0].end_ms, 100);
}

#[test]
fn total_text_exact() {
    let tiles = SubtitleDecomposer::parse_srt(sample_srt());
    assert_eq!(
        SubtitleDecomposer::total_text(&tiles),
        "Hello, world! This is a test. Third subtitle line."
    );
    assert_eq!(SubtitleDecomposer::total_text(&[]), "");
}

#[test]
fn duration_in_ms() {
    let tiles = SubtitleDecomposer::parse_srt(sample_srt());
    assert_eq!(SubtitleDecomposer::duration_ms(&tiles), Some(12000));
    assert_eq!(SubtitleDecomposer::duration_ms(&[]), Some(0));
    assert_eq!(SubtitleDecomposer::duration_ms(&[tile(1, 5000, 1000, "x")]), None);
}

#[test]
fn split_text_pieces() {
    let text = "This is a very long subtitle that should definitely be split";
    let pieces = SubtitleDecomposer::split_long_text(text, 20).unwrap();
    assert_eq!(
        pieces,
        vec!["This is a very long", "subtitle that should", "definitely be split"]
    );
    assert!(SubtitleDecomposer::split_long_text("Short", 100).is_none());
    assert_eq!(
        SubtitleDecomposer::split_long_text("a  b", 2).unwrap(),
        vec!["a", "b"]
    );
    // a single word longer than the limit stays whole
    assert_eq!(
        SubtitleDecomposer::split_long_text("extraordinarily x", 5).unwrap(),
        vec!["extraordinarily", "x"]
    );
    // the limit counts bytes
    assert!(SubtitleDecomposer::split_long_text("éé", 3).is_some());
}

// ── metadata ─────────────────────────────────────────────────────────

#[test]
fn metadata_insert_get() {
    let mut m = Metadata::new();
    assert!(m.is_empty());
    assert!(m.get("a").is_none());
    m.insert("a".to_string(), "1".to_string());
    m.insert("b".to_string(), "2".to_string());
    m.insert("a".to_string(), "3".to_string());
    assert_eq!(m.get("a").unwrap(), "3");
    assert_eq!(m.get("b").unwrap(), "2");
    assert!(!m.is_empty());
    let pairs = m.pairs();
    assert_eq!(pairs.len(), 2);
    let copy = m.clone();
    assert_eq!(copy.get("a").unwrap(), "3");
}

#[test]
fn split_tiles_shares_time() {
    let mut t = tile(3, 1000, 9000, "one two three");
    t.meta.insert("k".to_string(), "v".to_string());
    let pieces = vec!["one".to_string(), "two".to_string(), "three".to_string()];
    let parts = SubtitleDecomposer::split_tiles(&t, Some(pieces), &vec![500, 1500]);
    assert_eq!(parts.len(), 3);
    assert_eq!((parts[0].start_ms, parts[0].end_ms), (1000, 1500));
    assert_eq!((parts[1].start_ms, parts[1].end_ms), (1500, 3000));
    assert_eq!((parts[2].start_ms, parts[2].end_ms), (3000, 9000));
    assert_eq!(parts[1].text, "two");
    assert!(parts.iter().all(|p| p.index == 3 && p.meta.get("k").unwrap() == "v"));
    assert_ne!(parts[0].id, t.id);
}

#[test]
fn split_tiles_whole_tile() {
    let t = tile(3, 1000, 9000, "short");
    let parts = SubtitleDecomposer::split_tiles(&t, None, &vec![]);
    assert_eq!(parts.len(), 1);
    assert_eq!(parts[0].id, t.id);
    assert_eq!(parts[0].text, "short");
    assert!(SubtitleDecomposer::split_tiles(&t, Some(vec![]), &vec![]).is_empty());
}
