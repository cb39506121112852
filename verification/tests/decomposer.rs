use forge_subtitle::{SubFormat, SubtitleDecomposer};

fn sample_srt() -> &'static str {
    "1\n00:00:01,000 --> 00:00:04,000\nHello, world!\n\n2\n00:00:05,000 --> 00:00:08,000\nThis is a test.\n\n3\n00:00:10,000 --> 00:00:13,000\nThird subtitle line."
}

fn sample_vtt() -> &'static str {
    "WEBVTT\n\n1\n00:00:01.000 --> 00:00:04.000\nHello, world!\n\n2\n00:00:05.000 --> 00:00:08.000\nThis is a test."
}

// ── Parse ────────────────────────────────────────────────────────

#[test]
fn parse_srt_basic() {
    let tiles = SubtitleDecomposer::parse_srt(sample_srt());
    assert_eq!(tiles.len(), 3);
    assert_eq!(tiles[0].index, 1);
    assert_eq!(tiles[0].text, "Hello, world!");
    assert_eq!(tiles[0].start_ms, 1000);
    assert_eq!(tiles[0].end_ms, 4000);
    assert_eq!(tiles[2].text, "Third subtitle line.");
}

#[test]
fn parse_srt_multiline_text() {
    let srt = "1\n00:00:01,000 --> 00:00:04,000\nLine one\nLine two";
    let tiles = SubtitleDecomposer::parse_srt(srt);
    assert_eq!(tiles[0].text, "Line one\nLine two");
}

#[test]
fn parse_vtt_basic() {
    let tiles = SubtitleDecomposer::parse_vtt(sample_vtt());
    assert_eq!(tiles.len(), 2);
    assert_eq!(tiles[0].text, "Hello, world!");
    assert_eq!(tiles[0].start_ms, 1000);
    assert_eq!(tiles[1].end_ms, 8000);
}

#[test]
fn parse_vtt_with_cue_ids() {
    let vtt = "WEBVTT\n\ncue-1\n00:00:01.000 --> 00:00:04.000\nHello";
    let tiles = SubtitleDecomposer::parse_vtt(vtt);
    assert_eq!(tiles.len(), 1);
    assert_eq!(tiles[0].meta.get("cue_id").unwrap(), "cue-1");
}

#[test]
fn parse_empty() {
    assert!(SubtitleDecomposer::parse_srt("").is_empty());
    assert!(SubtitleDecomposer::parse_vtt("WEBVTT").is_empty());
}

// ── Output ───────────────────────────────────────────────────────

#[test]
fn to_srt_roundtrip() {
    let tiles = SubtitleDecomposer::parse_srt(sample_srt());
    let out = SubtitleDecomposer::to_srt(&tiles);
    assert!(out.contains("1\n00:00:01,000 --> 00:00:04,000\nHello, world!"));
    assert!(out.contains("3\n00:00:10,000 --> 00:00:13,000\nThird subtitle line."));
}

#[test]
fn to_vtt_roundtrip() {
    let tiles = SubtitleDecomposer::parse_vtt(sample_vtt());
    let out = SubtitleDecomposer::to_vtt(&tiles);
    assert!(out.starts_with("WEBVTT"));
    assert!(out.contains("00:00:01.000 --> 00:00:04.000"));
}

// ── Detection ────────────────────────────────────────────────────

#[test]
fn detect_srt() {
    assert_eq!(SubtitleDecomposer::detect_format(sample_srt()), SubFormat::SRT);
}

#[test]
fn detect_vtt() {
    assert_eq!(SubtitleDecomposer::detect_format(sample_vtt()), SubFormat::VTT);
}

#[test]
fn detect_unknown() {
    assert_eq!(SubtitleDecomposer::detect_format("random gibberish"), SubFormat::Unknown);
}

// ── Shift timing ─────────────────────────────────────────────────

#[test]
fn shift_positive() {
    let tiles = SubtitleDecomposer::parse_srt(sample_srt());
    let shifted = SubtitleDecomposer::shift_timing(&tiles, 5000);
    assert_eq!(shifted[0].start_ms, 6000);
    assert_eq!(shifted[0].end_ms, 9000);
}

#[test]
fn shift_negative_clamp() {
    let tiles = SubtitleDecomposer::parse_srt(sample_srt());
    let shifted = SubtitleDecomposer::shift_timing(&tiles, -2000);
    assert_eq!(shifted[0].start_ms, 0); // 1000-2000 clamped to 0
}

// ── Filter ───────────────────────────────────────────────────────

#[test]
fn filter_by_time() {
    let tiles = SubtitleDecomposer::parse_srt(sample_srt());
    let filtered = SubtitleDecomposer::filter_by_time(&tiles, 0, 8000);
    assert_eq!(filtered.len(), 2);
}

// ── Merge ────────────────────────────────────────────────────────

#[test]
fn merge_close_tiles() {
    let tiles = SubtitleDecomposer::parse_srt(sample_srt());
    // gap between tile[0] end=4000 and tile[1] start=5000 is 1000ms
    let merged = SubtitleDecomposer::merge_tiles(&tiles, 1500);
    assert!(merged.len() < tiles.len());
    assert!(merged[0].text.contains("Hello"));
    assert!(merged[0].text.contains("test"));
}

// ── Total text ───────────────────────────────────────────────────

#[test]
fn total_text() {
    let tiles = SubtitleDecomposer::parse_srt(sample_srt());
    let text = SubtitleDecomposer::total_text(&tiles);
    assert!(text.contains("Hello, world!"));
    assert!(text.contains("This is a test."));
    assert!(text.contains("Third subtitle line."));
}

#[test]
fn single_entry() {
    let srt = "1\n00:00:01,500 --> 00:00:03,200\nSolo";
    let tiles = SubtitleDecomposer::parse_srt(srt);
    assert_eq!(tiles.len(), 1);
    assert_eq!(tiles[0].start_ms, 1500);
    assert_eq!(tiles[0].end_ms, 3200);
    let out = SubtitleDecomposer::to_srt(&tiles);
    assert!(out.contains("00:00:01,500 --> 00:00:03,200"));
}

#[test]
fn overlapping_times() {
    let srt = "1\n00:00:01,000 --> 00:00:05,000\nFirst\n\n2\n00:00:03,000 --> 00:00:07,000\nOverlapping";
    let tiles = SubtitleDecomposer::parse_srt(srt);
    assert_eq!(tiles.len(), 2);
    assert_eq!(tiles[0].end_ms, 5000);
    assert_eq!(tiles[1].start_ms, 3000); // overlap
}

// ── Split long ───────────────────────────────────────────────────
// The library gives the pieces of text; the shares of time, computed in
// floating point, are added around it.

#[test]
fn split_long_tile() {
    let tile = forge_subtitle::SubtitleTile {
        id: uuid::Uuid::new_v4(),
        index: 1,
        start_ms: 0,
        end_ms: 10000,
        text: "This is a very long subtitle that should definitely be split".to_string(),
        meta: forge_subtitle::Metadata::new(),
    };
    let parts = SubtitleDecomposer::split_long_text(&tile.text, 20).unwrap();
    assert!(parts.len() > 1);
    for p in &parts {
        assert!(p.len() <= 25); // word boundary may slightly exceed
    }
}

#[test]
fn split_short_tile_unchanged() {
    let tile = forge_subtitle::SubtitleTile {
        id: uuid::Uuid::new_v4(),
        index: 1,
        start_ms: 0,
        end_ms: 5000,
        text: "Short".to_string(),
        meta: forge_subtitle::Metadata::new(),
    };
    let parts = SubtitleDecomposer::split_long_text(&tile.text, 100);
    assert!(parts.is_none()); // the tile stays as it is, one part
}

// ── Duration ─────────────────────────────────────────────────────
// The library gives the span in milliseconds; seconds are a float.

#[test]
fn duration_seconds() {
    let tiles = SubtitleDecomposer::parse_srt(sample_srt());
    let dur = SubtitleDecomposer::duration_ms(&tiles).unwrap() as f64 / 1000.0;
    assert!((dur - 12.0).abs() < 0.001); // 1000ms to 13000ms = 12s
}

#[test]
fn duration_empty() {
    assert_eq!(SubtitleDecomposer::duration_ms(&[]).unwrap() as f64 / 1000.0, 0.0);
}
