//! `SubtitleDecomposer`: decompose SRT/VTT text into tiles, transform tiles,
//! and recompose them into SRT/VTT text.
use vstd::prelude::*;
use crate::format::{
    blank_sep, block_text, cue_fits, format_of, lemma_filter_map_prefix, push_span, srt_block,
    srt_cue, srt_cues, srt_text, u32_max, vtt_block, vtt_blocks, vtt_cue, vtt_cues, vtt_numbered,
    vtt_raw_cues, vtt_text, webvtt,
};
use crate::number::{parse_unsigned_range, push_decimal};
use crate::text::{
    chars_of, join, lemma_join_step, lemma_split_blank_nonempty, spans_view, split_blank,
    split_blank_spans, starts_with_span, trim, trim_span, trim_start, trim_start_span, words,
    words_spans, leading_word_end, starts_with,
};
use crate::tile::{cues_of, new_tile_id, views_of, Cue, SubFormat, SubtitleTile, TileView};
use crate::timestamp::{push_ts, string_from_chars, timing_text, u64_max};
use crate::transform::{
    insert_pos, lemma_merge_cues_len, lemma_merge_fits_prefix, max_end, merge_cues, merge_fits,
    min_start, shift_fits, shift_view, sort_order, sorted_by_start, span_of, split_text,
    start_keys, within, within_range, wrap_words, sum_of, split_piece, lemma_sum_prefix, taken_at,
    wrap_i64,
};
use crate::laws::{
    law_detect_exact, law_filter_exact, law_shift_fields, law_span_bounds, law_split_pieces,
};
use crate::number::parse_unsigned;

verus! {

/// Decomposes subtitle files into tiles, transforms tiles, and recomposes them.
pub struct SubtitleDecomposer;

/// Appends a cue block (number, timing line, text) for `t` to `out`.
fn push_block(out: &mut Vec<char>, number: u64, t: &SubtitleTile, frac_sep: char)
    ensures
        final(out)@ == old(out)@ + block_text(number as nat, t@.cue, frac_sep),
{
    let ghost start = out@;
    push_decimal(out, number);
    out.push('\n');
    let ghost a = out@;
    push_ts(out, t.start_ms, frac_sep);
    out.push(' ');
    out.push('-');
    out.push('-');
    out.push('>');
    out.push(' ');
    push_ts(out, t.end_ms, frac_sep);
    let ghost b = out@;
    assert(b =~= a + timing_text(t.start_ms as nat, t.end_ms as nat, frac_sep));
    out.push('\n');
    let text = chars_of(t.text.as_str());
    let ghost c = out@;
    push_span(out, &text, 0, text.len());
    assert(text@.subrange(0, text@.len() as int) =~= text@);
    assert(out@ =~= c + t@.cue.text);
    assert(out@ =~= start + block_text(number as nat, t@.cue, frac_sep));
}

/// A `u64` read as an `i64` the way `as i64` does.
fn wrap_to_i64(v: u64) -> (r: i64)
    ensures
        r == crate::transform::wrap_i64(v as int),
{
    if v <= 0x7fff_ffff_ffff_ffff {
        v as i64
    } else {
        (v - 0x8000_0000_0000_0000) as i64 + i64::MIN
    }
}

/// The positions as integers.
pub open spec fn positions(o: Seq<usize>) -> Seq<int> {
    o.map_values(|j: usize| j as int)
}

/// The positions of the tiles stably sorted by start time.
fn order_by_start(tiles: &[SubtitleTile]) -> (o: Vec<usize>)
    ensures
        positions(o@) == sort_order(start_keys(views_of(tiles@)), tiles@.len()),
        forall|p: int| 0 <= p < o@.len() ==> #[trigger] o@[p] < tiles@.len(),
{
    let ghost keys = start_keys(views_of(tiles@));
    let n = tiles.len();
    let mut o: Vec<usize> = Vec::new();
    let mut i: usize = 0;
    while i < n
        invariant
            n == tiles@.len(),
            i <= n,
            keys == start_keys(views_of(tiles@)),
            positions(o@) == sort_order(keys, i as nat),
            forall|p: int| 0 <= p < o@.len() ==> #[trigger] o@[p] < i,
        decreases n - i,
    {
        let key = tiles[i].start_ms;
        assert(keys[i as int] == key);
        let mut j: usize = 0;
        while j < o.len() && tiles[o[j]].start_ms <= key
            invariant
                n == tiles@.len(),
                i < n,
                keys == start_keys(views_of(tiles@)),
                j <= o@.len(),
                forall|p: int| 0 <= p < o@.len() ==> #[trigger] o@[p] < i,
                insert_pos(keys, positions(o@), key as int, 0) == insert_pos(
                    keys,
                    positions(o@),
                    key as int,
                    j as int,
                ),
            decreases o@.len() - j,
        {
            assert(keys[positions(o@)[j as int]] == tiles@[o@[j as int] as int].start_ms);
            j = j + 1;
        }
        proof {
            if j < o@.len() {
                assert(keys[positions(o@)[j as int]] == tiles@[o@[j as int] as int].start_ms);
            }
        }
        let ghost old_o = o@;
        o.insert(j, i);
        proof {
            assert(positions(o@) =~= positions(old_o).insert(j as int, i as int));
            assert forall|p: int| 0 <= p < o@.len() implies #[trigger] o@[p] < i + 1 by {
                if p < j {
                    assert(o@[p] == old_o[p]);
                } else if p > j {
                    assert(o@[p] == old_o[p - 1]);
                }
            }
        }
        i = i + 1;
    }
    o
}

/// `WEBVTT` as characters.
fn webvtt_chars() -> (v: Vec<char>)
    ensures
        v@ == webvtt(),
{
    let mut v: Vec<char> = Vec::new();
    v.push('W');
    v.push('E');
    v.push('B');
    v.push('V');
    v.push('T');
    v.push('T');
    assert(v@ =~= webvtt());
    v
}

/// A tile that starts no later than any and one that ends no earlier than
/// any: those whose start and end make up the span.
proof fn span_ends(tiles: Seq<SubtitleTile>) -> (ab: (int, int))
    requires
        tiles.len() > 0,
    ensures
        0 <= ab.0 < tiles.len(),
        0 <= ab.1 < tiles.len(),
        tiles[ab.0].start_ms == min_start(views_of(tiles)),
        tiles[ab.1].end_ms == max_end(views_of(tiles)),
        forall|k: int|
            0 <= k < tiles.len() ==> tiles[ab.0].start_ms <= (#[trigger] tiles[k]).start_ms
                && tiles[k].end_ms <= tiles[ab.1].end_ms,
{
    let vs = views_of(tiles);
    law_span_bounds(vs);
    let a = choose|i: int| 0 <= i < vs.len() && (#[trigger] vs[i]).cue.start_ms == min_start(vs);
    let b = choose|i: int| 0 <= i < vs.len() && (#[trigger] vs[i]).cue.end_ms == max_end(vs);
    assert(vs[a] == tiles[a]@ && vs[b] == tiles[b]@);
    assert forall|k: int| 0 <= k < tiles.len() implies tiles[a].start_ms <= (
    #[trigger] tiles[k]).start_ms && tiles[k].end_ms <= tiles[b].end_ms by {
        assert(vs[k] == tiles[k]@);
    }
    (a, b)
}

impl SubtitleDecomposer {
    /// Tells SRT, WebVTT and other text apart.
    pub fn detect_format(input: &str) -> (r: SubFormat)
        ensures
            r == format_of(input@),
            (r == SubFormat::VTT) == starts_with(trim(input@), webvtt()),
            (r == SubFormat::SRT) == (!starts_with(trim(input@), webvtt()) && ((trim(input@).len()
                > 0 && trim(input@)[0] == '1') || exists|p: int|
                #[trigger] leading_word_end(trim(input@), p) && parse_unsigned(
                    trim(input@).take(p),
                    u32_max(),
                ) is Some)),
    {
        proof {
            law_detect_exact(input@);
        }
        let cs = chars_of(input);
        let (lo, hi) = trim_span(&cs, 0, cs.len());
        let ghost t = cs@.subrange(lo as int, hi as int);
        proof {
            assert(cs@.subrange(0, cs@.len() as int) =~= cs@);
        }
        let header = webvtt_chars();
        if starts_with_span(&cs, lo, hi, &header) {
            return SubFormat::VTT;
        }
        if lo < hi && cs[lo] == '1' {
            return SubFormat::SRT;
        }
        let ws = words_spans(&cs, lo, hi);
        if ws.len() > 0 {
            let (a, b) = ws[0];
            assert(spans_view(cs@, ws@)[0] == cs@.subrange(a as int, b as int));
            if parse_unsigned_range(&cs, a, b, 0xffff_ffff).is_some() {
                return SubFormat::SRT;
            }
        }
        SubFormat::Unknown
    }

    /// Reads an SRT file into tiles, one per block that reads as a cue, each
    /// with a fresh id and no metadata.
    pub fn parse_srt(input: &str) -> (r: Vec<SubtitleTile>)
        requires
            forall|i: int| 0 <= i < srt_cues(input@).len() ==> cue_fits(#[trigger] srt_cues(input@)[i]),
        ensures
            cues_of(r@) == srt_cues(input@),
    {
        let cs = chars_of(input);
        let (lo, hi) = trim_span(&cs, 0, cs.len());
        proof {
            assert(cs@.subrange(0, cs@.len() as int) =~= cs@);
        }
        let blocks = split_blank_spans(&cs, lo, hi);
        let ghost bv = spans_view(cs@, blocks@);
        let ghost f = |b: Seq<char>| srt_cue(b);
        let mut tiles: Vec<SubtitleTile> = Vec::new();
        let n = blocks.len();
        let mut k: usize = 0;
        while k < n
            invariant
                n == blocks@.len(),
                k <= n,
                bv == spans_view(cs@, blocks@),
                bv == split_blank(trim(input@)),
                f == (|b: Seq<char>| srt_cue(b)),
                crate::text::spans_within(blocks@, lo as int, hi as int),
                hi <= cs@.len(),
                cues_of(tiles@) == bv.take(k as int).filter_map(f),
                forall|i: int| 0 <= i < srt_cues(input@).len() ==> cue_fits(#[trigger] srt_cues(input@)[i]),
            decreases n - k,
        {
            let (a, b) = blocks[k];
            let ghost old_tiles = tiles@;
            proof {
                bv.lemma_filter_map_take_succ(f, k as int);
                assert(bv[k as int] == cs@.subrange(a as int, b as int));
                lemma_filter_map_prefix(bv, f, k + 1);
                let pre = bv.take(k + 1).filter_map(f);
                if let Some(c) = srt_cue(bv[k as int]) {
                    assert(pre[pre.len() - 1] == c);
                    assert(cue_fits(srt_cues(input@)[pre.len() - 1]));
                }
            }
            match srt_block(&cs, a, b) {
                Some(t) => {
                    tiles.push(t);
                    assert(cues_of(tiles@) =~= cues_of(old_tiles).push(t@.cue));
                },
                None => {},
            }
            k = k + 1;
        }
        assert(bv.take(n as int) =~= bv);
        tiles
    }

    /// Reads a WebVTT file into tiles numbered from 1, one per block that
    /// reads as a cue, each with a fresh id; a cue identifier is kept as
    /// `cue_id` metadata.
    pub fn parse_vtt(input: &str) -> (r: Vec<SubtitleTile>)
        requires
            vtt_raw_cues(input@).len() <= u32_max(),
            forall|i: int|
                0 <= i < vtt_raw_cues(input@).len() ==> (#[trigger] vtt_raw_cues(input@)[i]).start_ms
                    <= u64_max() && vtt_raw_cues(input@)[i].end_ms <= u64_max(),
        ensures
            cues_of(r@) == vtt_cues(input@),
    {
        let cs = chars_of(input);
        proof {
            assert(cs@.subrange(0, cs@.len() as int) =~= cs@);
        }
        let lo = trim_start_span(&cs, 0, cs.len());
        let hi = cs.len();
        let blocks = split_blank_spans(&cs, lo, hi);
        let ghost all = spans_view(cs@, blocks@);
        proof {
            lemma_split_blank_nonempty(trim_start(input@));
        }
        let (h0, h1) = blocks[0];
        assert(all[0] == cs@.subrange(h0 as int, h1 as int));
        let header = webvtt_chars();
        let first: usize = if starts_with_span(&cs, h0, h1, &header) {
            1
        } else {
            0
        };
        let ghost bv = all.skip(first as int);
        assert(bv =~= vtt_blocks(input@));
        let ghost f = |b: Seq<char>| vtt_cue(b);
        let ghost raw = vtt_raw_cues(input@);
        let mut tiles: Vec<SubtitleTile> = Vec::new();
        let n = blocks.len();
        let mut k: usize = first;
        let mut idx: u32 = 0;
        while k < n
            invariant
                n == blocks@.len(),
                first <= k <= n,
                first <= 1,
                all == spans_view(cs@, blocks@),
                bv == all.skip(first as int),
                bv == vtt_blocks(input@),
                raw == bv.filter_map(f),
                f == (|b: Seq<char>| vtt_cue(b)),
                crate::text::spans_within(blocks@, lo as int, hi as int),
                hi <= cs@.len(),
                idx == tiles@.len(),
                tiles@.len() == bv.take(k - first).filter_map(f).len(),
                forall|i: int|
                    0 <= i < tiles@.len() ==> (#[trigger] tiles@[i])@.cue == vtt_numbered(
                        i,
                        bv.take(k - first).filter_map(f)[i],
                    ),
                raw.len() <= u32_max(),
                forall|i: int|
                    0 <= i < raw.len() ==> (#[trigger] raw[i]).start_ms <= u64_max() && raw[i].end_ms
                        <= u64_max(),
            decreases n - k,
        {
            let (a, b) = blocks[k];
            let ghost old_tiles = tiles@;
            let ghost j = k - first;
            proof {
                bv.lemma_filter_map_take_succ(f, j);
                assert(bv[j] == cs@.subrange(a as int, b as int));
                lemma_filter_map_prefix(bv, f, j + 1);
                let pre = bv.take(j + 1).filter_map(f);
                if let Some(c) = vtt_cue(bv[j]) {
                    assert(pre[pre.len() - 1] == c);
                    assert(raw[pre.len() - 1] == c);
                    assert(pre.len() <= raw.len());
                }
            }
            let ghost pre_old = bv.take(j).filter_map(f);
            match vtt_block(&cs, a, b, idx) {
                Some(t) => {
                    tiles.push(t);
                    idx = idx + 1;
                    proof {
                        assert forall|i: int| 0 <= i < tiles@.len() implies (#[trigger] tiles@[i])@.cue
                            == vtt_numbered(i, bv.take(j + 1).filter_map(f)[i]) by {
                            if i < old_tiles.len() {
                                assert(tiles@[i] == old_tiles[i]);
                            }
                        }
                    }
                },
                None => {
                    proof {
                        assert(bv.take(j + 1).filter_map(f) =~= pre_old);
                    }
                },
            }
            k = k + 1;
        }
        assert(bv.take(n - first) =~= bv);
        assert(cues_of(tiles@) =~= vtt_cues(input@));
        tiles
    }

    /// Writes tiles as an SRT file, numbering the blocks from 1 in order.
    pub fn to_srt(tiles: &[SubtitleTile]) -> (r: String)
        ensures
            r@ == srt_text(cues_of(tiles@)),
    {
        let ghost cues = cues_of(tiles@);
        let ghost blocks = Seq::new(cues.len(), |i: int| block_text((i + 1) as nat, cues[i], ','));
        let mut out: Vec<char> = Vec::new();
        let n = tiles.len();
        let mut i: usize = 0;
        while i < n
            invariant
                n == tiles@.len(),
                i <= n,
                cues == cues_of(tiles@),
                blocks == Seq::new(cues.len(), |i: int| block_text((i + 1) as nat, cues[i], ',')),
                out@ == join(blocks.take(i as int), blank_sep()),
            decreases n - i,
        {
            proof {
                lemma_join_step(blocks, blank_sep(), i as int);
            }
            if i > 0 {
                out.push('\n');
                out.push('\n');
            }
            push_block(&mut out, (i + 1) as u64, &tiles[i], ',');
            proof {
                assert(blocks[i as int] == block_text((i + 1) as nat, tiles@[i as int]@.cue, ','));
                if i > 0 {
                    assert(out@ =~= join(blocks.take(i as int), blank_sep()) + blank_sep()
                        + blocks[i as int]);
                } else {
                    assert(out@ =~= blocks[0]);
                }
            }
            i = i + 1;
        }
        assert(blocks.take(n as int) =~= blocks);
        string_from_chars(&out)
    }

    /// Writes tiles as a WebVTT file: the header, then each tile under its own number.
    pub fn to_vtt(tiles: &[SubtitleTile]) -> (r: String)
        ensures
            r@ == vtt_text(cues_of(tiles@)),
    {
        let ghost cues = cues_of(tiles@);
        let ghost blocks = Seq::new(cues.len(), |i: int| block_text(cues[i].index as nat, cues[i], '.'));
        let mut out: Vec<char> = webvtt_chars();
        out.push('\n');
        out.push('\n');
        let ghost head = out@;
        assert(head =~= webvtt() + blank_sep());
        let n = tiles.len();
        let mut i: usize = 0;
        while i < n
            invariant
                n == tiles@.len(),
                i <= n,
                cues == cues_of(tiles@),
                blocks == Seq::new(cues.len(), |i: int| block_text(cues[i].index as nat, cues[i], '.')),
                head == webvtt() + blank_sep(),
                out@ == head + join(blocks.take(i as int), blank_sep()),
            decreases n - i,
        {
            proof {
                lemma_join_step(blocks, blank_sep(), i as int);
            }
            if i > 0 {
                out.push('\n');
                out.push('\n');
            }
            push_block(&mut out, tiles[i].index as u64, &tiles[i], '.');
            proof {
                assert(blocks[i as int] == block_text(tiles@[i as int].index as nat, tiles@[i as int]@.cue, '.'));
                if i > 0 {
                    assert(out@ =~= head + (join(blocks.take(i as int), blank_sep()) + blank_sep()
                        + blocks[i as int]));
                } else {
                    assert(out@ =~= head + blocks[0]);
                }
            }
            i = i + 1;
        }
        assert(blocks.take(n as int) =~= blocks);
        string_from_chars(&out)
    }

    /// Moves every tile by `offset_ms` milliseconds (earlier for a negative
    /// offset), times that would fall below zero clamped to zero.
    pub fn shift_timing(tiles: &[SubtitleTile], offset_ms: i64) -> (r: Vec<SubtitleTile>)
        requires
            forall|i: int|
                0 <= i < tiles@.len() ==> shift_fits((#[trigger] tiles@[i]).start_ms as int, offset_ms)
                    && shift_fits(tiles@[i].end_ms as int, offset_ms),
        ensures
            views_of(r@) == views_of(tiles@).map_values(|v: TileView| shift_view(v, offset_ms)),
            r@.len() == tiles@.len(),
            forall|i: int|
                0 <= i < tiles@.len() ==> {
                    &&& (#[trigger] r@[i]).id == tiles@[i].id
                    &&& r@[i].index == tiles@[i].index
                    &&& r@[i].text@ == tiles@[i].text@
                    &&& r@[i].meta@ == tiles@[i].meta@
                    &&& r@[i].start_ms == (if wrap_i64(tiles@[i].start_ms as int) + offset_ms < 0 {
                        0
                    } else {
                        wrap_i64(tiles@[i].start_ms as int) + offset_ms
                    })
                    &&& r@[i].end_ms == (if wrap_i64(tiles@[i].end_ms as int) + offset_ms < 0 {
                        0
                    } else {
                        wrap_i64(tiles@[i].end_ms as int) + offset_ms
                    })
                },
    {
        let mut r: Vec<SubtitleTile> = Vec::new();
        let n = tiles.len();
        let mut i: usize = 0;
        while i < n
            invariant
                n == tiles@.len(),
                i <= n,
                r@.len() == i,
                forall|k: int| 0 <= k < i ==> (#[trigger] r@[k])@ == shift_view(tiles@[k]@, offset_ms),
                forall|i: int|
                    0 <= i < tiles@.len() ==> shift_fits((#[trigger] tiles@[i]).start_ms as int, offset_ms)
                        && shift_fits(tiles@[i].end_ms as int, offset_ms),
            decreases n - i,
        {
            let t = &tiles[i];
            assert(shift_fits(tiles@[i as int].start_ms as int, offset_ms));
            let start = crate::timestamp::clamp(wrap_to_i64(t.start_ms) + offset_ms);
            let end = crate::timestamp::clamp(wrap_to_i64(t.end_ms) + offset_ms);
            r.push(
                SubtitleTile {
                    id: t.id,
                    index: t.index,
                    start_ms: start,
                    end_ms: end,
                    text: t.text.clone(),
                    meta: t.meta.clone(),
                },
            );
            i = i + 1;
        }
        assert(views_of(r@) =~= views_of(tiles@).map_values(|v: TileView| shift_view(v, offset_ms)));
        assert forall|i: int| 0 <= i < tiles@.len() implies {
            &&& (#[trigger] r@[i]).id == tiles@[i].id
            &&& r@[i].index == tiles@[i].index
            &&& r@[i].text@ == tiles@[i].text@
            &&& r@[i].meta@ == tiles@[i].meta@
            &&& r@[i].start_ms == (if wrap_i64(tiles@[i].start_ms as int) + offset_ms < 0 {
                0
            } else {
                wrap_i64(tiles@[i].start_ms as int) + offset_ms
            })
            &&& r@[i].end_ms == (if wrap_i64(tiles@[i].end_ms as int) + offset_ms < 0 {
                0
            } else {
                wrap_i64(tiles@[i].end_ms as int) + offset_ms
            })
        } by {
            law_shift_fields(tiles@[i]@, offset_ms);
            assert(r@[i]@ == shift_view(tiles@[i]@, offset_ms));
        }
        r
    }

    /// The tiles that start at or after `start_ms` and end at or before `end_ms`, in order.
    pub fn filter_by_time(tiles: &[SubtitleTile], start_ms: u64, end_ms: u64) -> (r: Vec<SubtitleTile>)
        ensures
            views_of(r@) == within_range(views_of(tiles@), start_ms as int, end_ms as int),
            forall|k: int|
                0 <= k < r@.len() ==> (#[trigger] r@[k]).start_ms >= start_ms && r@[k].end_ms <= end_ms,
            exists|idx: Seq<int>|
                #[trigger] taken_at(views_of(tiles@), views_of(r@), idx) && forall|i: int|
                    0 <= i < tiles@.len() && (#[trigger] tiles@[i]).start_ms >= start_ms
                        && tiles@[i].end_ms <= end_ms ==> idx.contains(i),
    {
        let ghost vs = views_of(tiles@);
        let ghost f = |v: TileView| within(v, start_ms as int, end_ms as int);
        let mut r: Vec<SubtitleTile> = Vec::new();
        let n = tiles.len();
        let mut i: usize = 0;
        while i < n
            invariant
                n == tiles@.len(),
                i <= n,
                vs == views_of(tiles@),
                f == (|v: TileView| within(v, start_ms as int, end_ms as int)),
                views_of(r@) == vs.take(i as int).filter(f),
            decreases n - i,
        {
            let t = &tiles[i];
            let ghost old_r = r@;
            proof {
                reveal(Seq::filter);
                let p = vs.take(i + 1);
                assert(p.drop_last() =~= vs.take(i as int));
                assert(p.last() == t@);
                assert(p.filter(f) == (if f(p.last()) {
                    p.drop_last().filter(f).push(p.last())
                } else {
                    p.drop_last().filter(f)
                }));
            }
            if t.start_ms >= start_ms && t.end_ms <= end_ms {
                r.push(t.clone());
                assert(views_of(r@) =~= views_of(old_r).push(t@));
            }
            i = i + 1;
        }
        assert(vs.take(n as int) =~= vs);
        proof {
            law_filter_exact(vs, start_ms as int, end_ms as int);
            assert forall|k: int| 0 <= k < r@.len() implies (#[trigger] r@[k]).start_ms >= start_ms
                && r@[k].end_ms <= end_ms by {
                assert(views_of(r@)[k] == r@[k]@);
            }
            let idx = choose|idx: Seq<int>|
                #[trigger] taken_at(vs, within_range(vs, start_ms as int, end_ms as int), idx)
                    && forall|i: int|
                    0 <= i < vs.len() && (#[trigger] vs[i]).cue.start_ms >= start_ms
                        && vs[i].cue.end_ms <= end_ms ==> idx.contains(i);
            assert forall|i: int|
                0 <= i < tiles@.len() && (#[trigger] tiles@[i]).start_ms >= start_ms
                    && tiles@[i].end_ms <= end_ms implies idx.contains(i) by {
                assert(vs[i] == tiles@[i]@);
            }
            assert(taken_at(views_of(tiles@), views_of(r@), idx));
        }
        r
    }

    /// Sorts the tiles by start time and merges each into the one before it
    /// when it starts no more than `max_gap_ms` after that one ends: the
    /// merged tile ends at the later end and its text gets a space and the
    /// next text. The first merged tile keeps the id, number and metadata of
    /// the earliest tile; each later one has a fresh id and the next number.
    pub fn merge_tiles(tiles: &[SubtitleTile], max_gap_ms: u64) -> (r: Vec<SubtitleTile>)
        requires
            merge_fits(sorted_by_start(views_of(tiles@)), max_gap_ms as int),
        ensures
            cues_of(r@) == merge_cues(sorted_by_start(views_of(tiles@)), max_gap_ms as int),
            r@.len() > 0 ==> r@[0].id == sorted_by_start(views_of(tiles@))[0].id,
    {
        let ghost vs = views_of(tiles@);
        let ghost sorted = sorted_by_start(vs);
        let ghost gap = max_gap_ms as int;
        if tiles.len() == 0 {
            let r: Vec<SubtitleTile> = Vec::new();
            assert(sorted.len() == 0);
            assert(cues_of(r@) =~= merge_cues(sorted, gap));
            return r;
        }
        let order = order_by_start(tiles);
        let n = order.len();
        proof {
            crate::transform::lemma_sort_order_is_stable(start_keys(vs), vs.len());
            assert(sorted.len() == n);
            assert forall|k: int| 0 <= k < n implies #[trigger] sorted[k] == tiles@[order@[k] as int]@ by {
                assert(positions(order@)[k] == order@[k] as int);
            }
        }
        let mut current = tiles[order[0]].clone();
        let mut idx = current.index;
        let mut result: Vec<SubtitleTile> = Vec::new();
        proof {
            assert(sorted.take(1) =~= seq![sorted[0]]);
        }
        let mut k: usize = 1;
        while k < n
            invariant
                1 <= k <= n == order@.len() == sorted.len(),
                n == tiles@.len(),
                forall|p: int| 0 <= p < order@.len() ==> #[trigger] order@[p] < tiles@.len(),
                forall|k: int| 0 <= k < n ==> #[trigger] sorted[k] == tiles@[order@[k] as int]@,
                sorted == sorted_by_start(views_of(tiles@)),
                gap == max_gap_ms as int,
                merge_fits(sorted, gap),
                cues_of(result@).push(current@.cue) == merge_cues(sorted.take(k as int), gap),
                idx == current.index,
                result@.len() > 0 ==> result@[0].id == sorted[0].id,
                result@.len() == 0 ==> current.id == sorted[0].id,
            decreases n - k,
        {
            let t = &tiles[order[k]];
            let ghost pre = sorted.take(k as int);
            let ghost old_result = result@;
            proof {
                lemma_merge_fits_prefix(sorted, gap, k + 1);
                let s2 = sorted.take(k + 1);
                assert(s2.drop_last() =~= pre);
                assert(s2.last() == t@);
                lemma_merge_cues_len(pre, gap);
                let r = merge_cues(pre, gap);
                assert(r.last() == current@.cue);
            }
            if t.start_ms <= current.end_ms + max_gap_ms {
                let ghost cur0 = current@.cue;
                if t.end_ms > current.end_ms {
                    current.end_ms = t.end_ms;
                }
                current.text.append(" ");
                current.text.append(t.text.as_str());
                proof {
                    reveal_strlit(" ");
                    let r = merge_cues(pre, gap);
                    assert(current@.cue.text =~= cur0.text + seq![' '] + t@.cue.text);
                    let merged = Cue {
                        end_ms: if t@.cue.end_ms > cur0.end_ms {
                            t@.cue.end_ms
                        } else {
                            cur0.end_ms
                        },
                        text: cur0.text + seq![' '] + t@.cue.text,
                        ..cur0
                    };
                    assert(current@.cue == merged);
                    assert(merge_cues(sorted.take(k + 1), gap) == r.update(r.len() - 1, merged));
                    assert(cues_of(result@).push(current@.cue) =~= merge_cues(sorted.take(k + 1), gap));
                }
            } else {
                idx = idx + 1;
                let mut next = SubtitleTile {
                    id: new_tile_id(),
                    index: idx,
                    start_ms: t.start_ms,
                    end_ms: t.end_ms,
                    text: t.text.clone(),
                    meta: t.meta.clone(),
                };
                let ghost prev_cur = current@;
                std::mem::swap(&mut current, &mut next);
                result.push(next);
                proof {
                    assert(cues_of(result@) =~= cues_of(old_result).push(prev_cur.cue));
                    assert(cues_of(result@).push(current@.cue) =~= merge_cues(sorted.take(k + 1), gap));
                    if old_result.len() == 0 {
                        assert(result@[0].id == prev_cur.id);
                    } else {
                        assert(result@[0] == old_result[0]);
                    }
                }
            }
            k = k + 1;
        }
        let ghost before = result@;
        result.push(current);
        proof {
            assert(sorted.take(n as int) =~= sorted);
            assert(cues_of(result@) =~= cues_of(before).push(result@[before.len() as int]@.cue));
            if before.len() > 0 {
                assert(result@[0] == before[0]);
            }
        }
        result
    }

    /// The pieces into which a tile's text is split when it is longer than
    /// `max_chars` bytes: the words, joined by single spaces into lines that
    /// stay within `max_chars` bytes where a word allows. `None` when the text
    /// fits as it is.
    pub fn split_long_text(text: &str, max_chars: usize) -> (r: Option<Vec<String>>)
        requires
            crate::text::byte_len(text@) <= usize::MAX,
        ensures
            match split_text(text@, max_chars as int) {
                None => r is None,
                Some(ls) => r matches Some(v) && v@.map_values(|s: String| s@) == ls,
            },
    {
        let cs = chars_of(text);
        let ghost total = crate::text::byte_len(cs@);
        proof {
            assert(cs@.subrange(0, cs@.len() as int) =~= cs@);
        }
        let len = crate::text::span_byte_len(&cs, 0, cs.len());
        if len <= max_chars {
            return None;
        }
        let ws = words_spans(&cs, 0, cs.len());
        let ghost wv = spans_view(cs@, ws@);
        let ghost max = max_chars as int;
        let n = ws.len();
        let mut done: Vec<String> = Vec::new();
        let mut line: Vec<char> = Vec::new();
        let mut line_bytes: usize = 0;
        let mut e: usize = 0;
        let mut k: usize = 0;
        while k < n
            invariant
                n == ws@.len(),
                k <= n,
                wv == spans_view(cs@, ws@),
                wv == words(cs@),
                total == crate::text::byte_len(cs@),
                total <= usize::MAX,
                max == max_chars as int,
                crate::text::spans_within(ws@, 0, cs@.len() as int),
                forall|m: int| 0 <= m < ws@.len() ==> (#[trigger] ws@[m]).0 < ws@[m].1,
                forall|a: int, m: int| 0 <= a < m < ws@.len() ==> (#[trigger] ws@[a]).1 < (#[trigger] ws@[m]).0,
                done@.map_values(|s: String| s@) == wrap_words(wv.take(k as int), max).0,
                line@ == wrap_words(wv.take(k as int), max).1,
                line_bytes == crate::text::byte_len(line@),
                e <= cs@.len(),
                k > 0 ==> e == ws@[k - 1].1,
                line@.len() > 0 ==> k > 0 && line_bytes + crate::text::byte_len(cs@.subrange(e as int, cs@.len() as int)) <= total,
            decreases n - k,
        {
            let (a, b) = ws[k];
            let ghost w = cs@.subrange(a as int, b as int);
            let ghost prev = wrap_words(wv.take(k as int), max);
            proof {
                let t = wv.take(k + 1);
                assert(t.drop_last() =~= wv.take(k as int));
                assert(t.last() == w);
                crate::text::lemma_byte_len_split(cs@, 0, a as int, cs@.len() as int);
                crate::text::lemma_byte_len_split(cs@, a as int, b as int, cs@.len() as int);
                if line@.len() > 0 {
                    assert(e < a);
                    crate::text::lemma_byte_len_split(cs@, e as int, a as int, cs@.len() as int);
                    crate::text::lemma_byte_len_at_least_len(cs@.subrange(e as int, a as int));
                }
                assert(cs@.subrange(0, cs@.len() as int) =~= cs@);
            }
            let wb = crate::text::span_byte_len(&cs, a, b);
            let cand_bytes = if line.len() == 0 {
                wb
            } else {
                line_bytes + 1 + wb
            };
            proof {
                let cand = if line@.len() == 0 { w } else { line@ + seq![' '] + w };
                if line@.len() > 0 {
                    crate::text::lemma_byte_len_concat(line@ + seq![' '], w);
                    crate::text::lemma_byte_len_concat(line@, seq![' ']);
                    assert(seq![' '].drop_last() =~= Seq::<char>::empty());
                    assert((' ' as u32) == 32);
                    assert(crate::text::utf8_len(' ') == 1);
                    assert(crate::text::byte_len(Seq::<char>::empty()) == 0);
                    assert(crate::text::byte_len(seq![' ']) == 1);
                }
                assert(cand_bytes == crate::text::byte_len(cand));
            }
            let ghost old_done = done@;
            if cand_bytes > max_chars && line.len() > 0 {
                let s = string_from_chars(&line);
                done.push(s);
                line = Vec::new();
                push_span(&mut line, &cs, a, b);
                line_bytes = wb;
                proof {
                    assert(done@.map_values(|s: String| s@) =~= old_done.map_values(|s: String| s@).push(prev.1));
                    assert(line@ =~= w);
                }
            } else {
                if line.len() > 0 {
                    line.push(' ');
                }
                push_span(&mut line, &cs, a, b);
                line_bytes = cand_bytes;
                proof {
                    assert(line@ =~= (if prev.1.len() == 0 { w } else { prev.1 + seq![' '] + w }));
                }
            }
            e = b;
            k = k + 1;
        }
        let ghost before = done@;
        if line.len() > 0 {
            let s = string_from_chars(&line);
            done.push(s);
            proof {
                assert(done@.map_values(|s: String| s@) =~= before.map_values(|s: String| s@).push(line@));
            }
        }
        assert(wv.take(n as int) =~= wv);
        Some(done)
    }

    /// The tiles into which a tile is split, given its pieces of text (`None`
    /// when it stays whole) and, for every piece but the last, how long it
    /// lasts: each piece keeps the tile's number and metadata and gets a fresh
    /// id; the first starts at the tile's start, each next one where the one
    /// before ends, and the last ends at the tile's end.
    pub fn split_tiles(tile: &SubtitleTile, pieces: Option<Vec<String>>, offsets: &Vec<u64>) -> (r: Vec<SubtitleTile>)
        requires
            match pieces {
                Some(p) => p@.len() > 0 ==> offsets@.len() == p@.len() - 1 && tile.start_ms + sum_of(
                    offsets@,
                ) <= u64_max(),
                None => true,
            },
        ensures
            match pieces {
                None => r@.len() == 1 && r@[0]@ == tile@,
                Some(p) => {
                    &&& r@.len() == p@.len()
                    &&& forall|k: int|
                        0 <= k < p@.len() ==> (#[trigger] r@[k])@.cue == split_piece(
                            tile@.cue,
                            p@.map_values(|s: String| s@),
                            offsets@,
                            k,
                        )
                    &&& forall|k: int|
                        0 <= k < p@.len() ==> (#[trigger] r@[k]).text@ == p@[k]@ && r@[k].index
                            == tile.index && r@[k].meta@ == tile.meta@
                    &&& p@.len() > 0 ==> r@[0].start_ms == tile.start_ms && r@[p@.len() - 1].end_ms
                        == tile.end_ms
                    &&& forall|k: int|
                        0 <= k < p@.len() - 1 ==> (#[trigger] r@[k]).end_ms == r@[k].start_ms
                            + offsets@[k] && r@[k + 1].start_ms == r@[k].end_ms
                },
            },
    {
        let p = match pieces {
            None => {
                let mut r: Vec<SubtitleTile> = Vec::new();
                r.push(tile.clone());
                return r;
            },
            Some(p) => p,
        };
        let ghost pv = p@.map_values(|s: String| s@);
        let n = p.len();
        let mut r: Vec<SubtitleTile> = Vec::new();
        let mut line_start = tile.start_ms;
        let mut k: usize = 0;
        while k < n
            invariant
                n == p@.len(),
                k <= n,
                pv == p@.map_values(|s: String| s@),
                n > 0 ==> offsets@.len() == n - 1 && tile.start_ms + sum_of(offsets@) <= u64_max(),
                k < n ==> line_start == tile.start_ms + sum_of(offsets@.take(k as int)),
                r@.len() == k,
                forall|j: int| 0 <= j < k ==> (#[trigger] r@[j])@.cue == split_piece(tile@.cue, pv, offsets@, j),
            decreases n - k,
        {
            let end = if k + 1 < n {
                proof {
                    lemma_sum_prefix(offsets@, k + 1);
                    assert(offsets@.take(k + 1).drop_last() =~= offsets@.take(k as int));
                    assert(offsets@.take(k + 1).last() == offsets@[k as int]);
                }
                line_start + offsets[k]
            } else {
                tile.end_ms
            };
            let piece = SubtitleTile {
                id: new_tile_id(),
                index: tile.index,
                start_ms: line_start,
                end_ms: end,
                text: p[k].clone(),
                meta: tile.meta.clone(),
            };
            r.push(piece);
            line_start = end;
            k = k + 1;
        }
        proof {
            if n > 0 {
                law_split_pieces(tile@.cue, pv, offsets@);
                assert forall|k: int| 0 <= k < n implies (#[trigger] r@[k]).text@ == p@[k]@
                    && r@[k].index == tile.index && r@[k].meta@ == tile.meta@ by {
                    assert(r@[k]@.cue == split_piece(tile@.cue, pv, offsets@, k));
                    assert(pv[k] == p@[k]@);
                }
                assert(r@[0]@.cue == split_piece(tile@.cue, pv, offsets@, 0));
                assert(r@[n - 1]@.cue == split_piece(tile@.cue, pv, offsets@, n - 1));
                assert forall|k: int| 0 <= k < n - 1 implies (#[trigger] r@[k]).end_ms == r@[k].start_ms
                    + offsets@[k] && r@[k + 1].start_ms == r@[k].end_ms by {
                    assert(r@[k]@.cue == split_piece(tile@.cue, pv, offsets@, k));
                    assert(r@[k + 1]@.cue == split_piece(tile@.cue, pv, offsets@, k + 1));
                }
            }
        }
        r
    }

    /// All tile texts joined with a space.
    pub fn total_text(tiles: &[SubtitleTile]) -> (r: String)
        ensures
            r@ == join(tiles@.map_values(|t: SubtitleTile| t.text@), seq![' ']),
    {
        let ghost parts = tiles@.map_values(|t: SubtitleTile| t.text@);
        let mut out: Vec<char> = Vec::new();
        let n = tiles.len();
        let mut i: usize = 0;
        while i < n
            invariant
                n == tiles@.len(),
                i <= n,
                parts == tiles@.map_values(|t: SubtitleTile| t.text@),
                out@ == join(parts.take(i as int), seq![' ']),
            decreases n - i,
        {
            proof {
                lemma_join_step(parts, seq![' '], i as int);
            }
            if i > 0 {
                out.push(' ');
            }
            let text = chars_of(tiles[i].text.as_str());
            push_span(&mut out, &text, 0, text.len());
            proof {
                assert(text@.subrange(0, text@.len() as int) =~= text@);
                assert(parts[i as int] == text@);
                if i > 0 {
                    assert(out@ =~= join(parts.take(i as int), seq![' ']) + seq![' '] + parts[i as int]);
                } else {
                    assert(out@ =~= parts[0]);
                }
            }
            i = i + 1;
        }
        assert(parts.take(n as int) =~= parts);
        string_from_chars(&out)
    }

    /// The span of the tiles in milliseconds, from the earliest start to the
    /// latest end; 0 for no tiles; `None` where the latest end comes before the
    /// earliest start (the subtraction would go below zero).
    pub fn duration_ms(tiles: &[SubtitleTile]) -> (r: Option<u64>)
        ensures
            match span_of(views_of(tiles@)) {
                Some(d) => r == Some(d as u64),
                None => r is None,
            },
            tiles@.len() == 0 ==> r == Some(0u64),
            tiles@.len() > 0 ==> exists|i: int, j: int|
                #![trigger tiles@[i], tiles@[j]]
                0 <= i < tiles@.len() && 0 <= j < tiles@.len() && (forall|k: int|
                    0 <= k < tiles@.len() ==> tiles@[i].start_ms <= (#[trigger] tiles@[k]).start_ms
                        && tiles@[k].end_ms <= tiles@[j].end_ms) && r == (if tiles@[j].end_ms
                    >= tiles@[i].start_ms {
                    Some((tiles@[j].end_ms - tiles@[i].start_ms) as u64)
                } else {
                    None::<u64>
                }),
    {
        let ghost vs = views_of(tiles@);
        if tiles.len() == 0 {
            return Some(0);
        }
        let mut lo = tiles[0].start_ms;
        let mut hi = tiles[0].end_ms;
        let n = tiles.len();
        let mut i: usize = 1;
        while i < n
            invariant
                n == tiles@.len(),
                1 <= i <= n,
                vs == views_of(tiles@),
                lo == min_start(vs.take(i as int)),
                hi == max_end(vs.take(i as int)),
            decreases n - i,
        {
            proof {
                let p = vs.take(i + 1);
                assert(p.drop_last() =~= vs.take(i as int));
                assert(p.last() == tiles@[i as int]@);
            }
            if tiles[i].start_ms < lo {
                lo = tiles[i].start_ms;
            }
            if tiles[i].end_ms > hi {
                hi = tiles[i].end_ms;
            }
            i = i + 1;
        }
        assert(vs.take(n as int) =~= vs);
        let ghost (a, b) = span_ends(tiles@);
        if hi >= lo {
            Some(hi - lo)
        } else {
            None
        }
    }
}

} // verus!
