//! What holds of the library as a whole: written files read back into the
//! tiles they were written from, and the transformations keep their promises.
use vstd::prelude::*;
use crate::format::{
    block_text, clean_text, cue_id_key, format_of, lemma_block_facts, lemma_filter_map_all,
    lemma_srt_block_roundtrip, lemma_vtt_block_roundtrip, srt_cue, srt_cues, srt_text, u32_max,
    vtt_blocks, vtt_cue, vtt_cues, vtt_raw_cues, vtt_text, webvtt, VttCue,
};
use crate::number::{decimal, parse_unsigned};
use crate::text::{
    byte_len, has_blank, is_ws, join, lemma_join_cons, lemma_split_blank_join,
    lemma_split_blank_sep, lemma_trim_end_prefix, lemma_trim_unchanged, lines, pair_at,
    split_blank, split_on, starts_with, trim, trim_start, words, leading_word_end, split_by,
    sep_fn, no_sep, lemma_split_by_nonempty,
    lemma_trim_leading_word, lemma_leading_word, lemma_words_empty,
};
use crate::tile::{cues_of, Cue, SubFormat, SubtitleTile, TileView};
use crate::timestamp::u64_max;
use crate::transform::{
    insert_pos, lemma_merge_cues_len, lemma_sort_order_is_stable, max_end, merge_cues,
    merge_fits, min_start, shift_fits, shift_view, sort_order, sorted_by_start, split_text,
    start_keys, within, within_range, wrap_words, wrapped_lines, taken_at, span_of, split_piece,
    wrap_i64,
};

verus! {

/// The last character of joined non-empty pieces is that of the last piece,
/// and the first that of the first piece.
proof fn lemma_join_ends(bs: Seq<Seq<char>>, sep: Seq<char>)
    requires
        bs.len() >= 1,
        forall|i: int| 0 <= i < bs.len() ==> (#[trigger] bs[i]).len() > 0,
    ensures
        join(bs, sep).len() > 0,
        join(bs, sep)[0] == bs[0][0],
        join(bs, sep).last() == bs.last().last(),
{
    lemma_join_cons(bs[0], bs.drop_first(), sep);
    assert(seq![bs[0]] + bs.drop_first() =~= bs);
    assert(bs[0].len() > 0);
    if bs.len() > 1 {
        assert(bs.last().len() > 0);
    }
}

/// The blocks of an SRT file written from `tiles`.
pub open spec fn srt_blocks(cues: Seq<Cue>) -> Seq<Seq<char>> {
    Seq::new(cues.len(), |i: int| block_text((i + 1) as nat, cues[i], ','))
}

/// The blocks of a WebVTT file written from `tiles`.
pub open spec fn vtt_file_blocks(cues: Seq<Cue>) -> Seq<Seq<char>> {
    Seq::new(cues.len(), |i: int| block_text(cues[i].index as nat, cues[i], '.'))
}

/// Writing tiles as SRT and reading the file back gives every tile's start,
/// end and text, numbered from 1 in order (with no metadata) — provided the
/// numbers fit a `u32` and every text comes back from a file unchanged
/// (`clean_text`), the last one not ending in whitespace (which reading trims).
pub proof fn law_srt_roundtrip(tiles: Seq<SubtitleTile>)
    requires
        tiles.len() <= u32_max(),
        forall|i: int| 0 <= i < tiles.len() ==> clean_text(#[trigger] tiles[i].text@),
        tiles.len() > 0 ==> !is_ws(tiles.last().text@.last()),
    ensures
        srt_cues(srt_text(cues_of(tiles))) == Seq::new(
            tiles.len(),
            |i: int|
                Cue {
                    index: i + 1,
                    start_ms: tiles[i].start_ms as int,
                    end_ms: tiles[i].end_ms as int,
                    text: tiles[i].text@,
                    meta: Map::empty(),
                },
        ),
{
    let cues = cues_of(tiles);
    let bs = srt_blocks(cues);
    let f = |b: Seq<char>| srt_cue(b);
    let n = tiles.len();
    let expected = Seq::new(
        n,
        |i: int|
            Cue {
                index: i + 1,
                start_ms: tiles[i].start_ms as int,
                end_ms: tiles[i].end_ms as int,
                text: tiles[i].text@,
                meta: Map::empty(),
            },
    );
    assert(srt_text(cues) == join(bs, seq!['\n', '\n']));
    if n == 0 {
        assert(bs =~= Seq::<Seq<char>>::empty());
        let e = Seq::<char>::empty();
        assert(join(bs, seq!['\n', '\n']) == e);
        assert(trim(e) == e);
        assert(split_blank(e) == seq![e]);
        assert(split_on(e, '\n') == seq![e]);
        assert(lines(e) =~= Seq::<Seq<char>>::empty());
        assert(srt_cue(e) is None);
        assert(seq![e].drop_last() =~= Seq::<Seq<char>>::empty());
        assert(seq![e].last() == e);
        assert(f(e) is None);
        assert(Seq::<Seq<char>>::empty().filter_map(f) =~= Seq::<Cue>::empty());
        assert(seq![e].filter_map(f) =~= Seq::<Cue>::empty());
        assert(srt_cues(srt_text(cues)) =~= expected);
    } else {
        assert forall|i: int| 0 <= i < n implies (#[trigger] bs[i]).len() > 0 && !has_blank(bs[i])
            && bs[i].last() != '\n' && f(bs[i]) == Some(expected[i]) by {
            assert(cues[i] == tiles[i]@.cue);
            crate::format::lemma_block_facts((i + 1) as nat, cues[i], ',');
            lemma_srt_block_roundtrip((i + 1) as nat, cues[i]);
            assert(Cue { index: (i + 1) as int, meta: Map::empty(), ..cues[i] } == expected[i]);
        }
        lemma_split_blank_join(bs);
        lemma_join_ends(bs, seq!['\n', '\n']);
        assert(bs[0][0] == '1') by {
            crate::format::lemma_block_facts(1, cues[0], ',');
            reveal_with_fuel(decimal, 1);
        }
        assert(bs.last().last() == tiles.last().text@.last()) by {
            crate::format::lemma_block_facts(n as nat, cues[n - 1], ',');
        }
        lemma_trim_unchanged(join(bs, seq!['\n', '\n']));
        assert forall|i: int| 0 <= i < bs.len() implies (#[trigger] f(bs[i])) is Some by {}
        lemma_filter_map_all(bs, f);
        assert(srt_cues(srt_text(cues)) =~= expected) by {
            assert forall|i: int| 0 <= i < n implies bs.filter_map(f)[i] == expected[i] by {
                assert(Some(bs.filter_map(f)[i]) == f(bs[i]));
            }
        }
    }
}

/// Writing tiles as WebVTT and reading the file back gives every tile's
/// start, end and text, numbered from 1 in order, the number each was written
/// under kept as its `cue_id` — provided every text comes back from a file
/// unchanged (`clean_text`) and there are no more than `u32::MAX` tiles.
pub proof fn law_vtt_roundtrip(tiles: Seq<SubtitleTile>)
    requires
        tiles.len() <= u32_max(),
        forall|i: int| 0 <= i < tiles.len() ==> clean_text(#[trigger] tiles[i].text@),
    ensures
        vtt_raw_cues(vtt_text(cues_of(tiles))).len() == tiles.len(),
        vtt_cues(vtt_text(cues_of(tiles))) == Seq::new(
            tiles.len(),
            |i: int|
                Cue {
                    index: i + 1,
                    start_ms: tiles[i].start_ms as int,
                    end_ms: tiles[i].end_ms as int,
                    text: tiles[i].text@,
                    meta: Map::empty().insert(cue_id_key(), decimal(tiles[i].index as nat)),
                },
        ),
{
    let cues = cues_of(tiles);
    let bs = vtt_file_blocks(cues);
    let f = |b: Seq<char>| vtt_cue(b);
    let n = tiles.len();
    let sep = seq!['\n', '\n'];
    let w = webvtt();
    let body = join(bs, sep);
    let file = vtt_text(cues);
    assert(file == w + sep + body);
    assert(trim_start(file) == file);
    assert forall|i: int| !pair_at(w, i, '\n', '\n') by {}
    lemma_split_blank_sep(w, body);
    assert(starts_with(w, w)) by {
        assert(w.take(w.len() as int) =~= w);
    }
    let raw_expected = Seq::new(
        n,
        |i: int|
            VttCue {
                start_ms: tiles[i].start_ms as int,
                end_ms: tiles[i].end_ms as int,
                text: tiles[i].text@,
                cue_id: Some(decimal(tiles[i].index as nat)),
            },
    );
    if n == 0 {
        assert(bs =~= Seq::<Seq<char>>::empty());
        let e = Seq::<char>::empty();
        assert(body == e);
        assert(split_blank(e) == seq![e]);
        assert(vtt_blocks(file) =~= seq![e]);
        assert(split_on(e, '\n') == seq![e]);
        assert(lines(e) =~= Seq::<Seq<char>>::empty());
        assert(f(e) is None);
        assert(seq![e].drop_last() =~= Seq::<Seq<char>>::empty());
        assert(seq![e].last() == e);
        assert(Seq::<Seq<char>>::empty().filter_map(f) =~= Seq::<VttCue>::empty());
        assert(seq![e].filter_map(f) =~= Seq::<VttCue>::empty());
        assert(vtt_cues(file) =~= Seq::<Cue>::empty());
    } else {
        assert forall|i: int| 0 <= i < n implies (#[trigger] bs[i]).len() > 0 && !has_blank(bs[i])
            && bs[i].last() != '\n' && f(bs[i]) == Some(raw_expected[i]) by {
            assert(cues[i] == tiles[i]@.cue);
            crate::format::lemma_block_facts(tiles[i].index as nat, cues[i], '.');
            lemma_vtt_block_roundtrip(tiles[i].index as nat, cues[i]);
        }
        lemma_split_blank_join(bs);
        assert(vtt_blocks(file) =~= bs);
        assert forall|i: int| 0 <= i < bs.len() implies (#[trigger] f(bs[i])) is Some by {}
        lemma_filter_map_all(bs, f);
        assert(vtt_raw_cues(file) =~= raw_expected) by {
            assert forall|i: int| 0 <= i < n implies bs.filter_map(f)[i] == raw_expected[i] by {
                assert(Some(bs.filter_map(f)[i]) == f(bs[i]));
            }
        }
        assert(vtt_cues(file) =~= Seq::new(
            n,
            |i: int|
                Cue {
                    index: i + 1,
                    start_ms: tiles[i].start_ms as int,
                    end_ms: tiles[i].end_ms as int,
                    text: tiles[i].text@,
                    meta: Map::empty().insert(cue_id_key(), decimal(tiles[i].index as nat)),
                },
        ));
    }
}

/// Every written block is non-empty and starts with its number's first digit.
proof fn lemma_written_blocks(cues: Seq<Cue>, frac_sep: char, k: int)
    requires
        0 <= k < cues.len(),
    ensures
        block_text((k + 1) as nat, cues[k], frac_sep).len() > 0,
        block_text(cues[k].index as nat, cues[k], frac_sep).len() > 0,
        block_text(1, cues[k], frac_sep)[0] == '1',
{
    crate::number::lemma_decimal_value((k + 1) as nat);
    crate::number::lemma_decimal_value(cues[k].index as nat);
    reveal_with_fuel(decimal, 1);
    assert(decimal(1) == seq!['1']);
}

/// A WebVTT file written from any tiles is detected as WebVTT.
pub proof fn law_detect_vtt_written(tiles: Seq<SubtitleTile>)
    ensures
        format_of(vtt_text(cues_of(tiles))) == SubFormat::VTT,
{
    let w = webvtt();
    let v = vtt_text(cues_of(tiles));
    assert(v.take(6) =~= w);
    assert(v[0] == 'W');
    assert(trim_start(v) == v);
    assert(v[5] == 'T');
    lemma_trim_end_prefix(v, 5);
    let t = trim(v);
    assert(t.take(6) =~= v.take(6));
}

/// An SRT file written from at least one tile is detected as SRT.
pub proof fn law_detect_srt_written(tiles: Seq<SubtitleTile>)
    requires
        tiles.len() > 0,
    ensures
        format_of(srt_text(cues_of(tiles))) == SubFormat::SRT,
{
    let cues = cues_of(tiles);
    let sep = seq!['\n', '\n'];
    let w = webvtt();
    let bs = srt_blocks(cues);
    assert forall|i: int| 0 <= i < bs.len() implies (#[trigger] bs[i]).len() > 0 by {
        lemma_written_blocks(cues, ',', i);
    }
    lemma_join_ends(bs, sep);
    lemma_written_blocks(cues, ',', 0);
    let s = srt_text(cues);
    assert(s == join(bs, sep));
    assert(s[0] == '1');
    assert(trim_start(s) == s);
    lemma_trim_end_prefix(s, 0);
    let ts = trim(s);
    assert(ts[0] == '1');
    assert(!starts_with(ts, w)) by {
        if starts_with(ts, w) {
            assert(ts.take(6)[0] == w[0]);
        }
    }
}

/// After merging, every tile starts more than `gap` after the one before it ends.
pub proof fn law_merge_gaps(s: Seq<TileView>, gap: int)
    ensures
        forall|i: int|
            0 <= i < merge_cues(s, gap).len() - 1 ==> (#[trigger] merge_cues(s, gap)[i]).end_ms + gap
                < merge_cues(s, gap)[i + 1].start_ms,
    decreases s.len(),
{
    if s.len() > 1 {
        let t = s.drop_last();
        law_merge_gaps(t, gap);
        lemma_merge_cues_len(t, gap);
        let r = merge_cues(t, gap);
        let m = merge_cues(s, gap);
        assert forall|i: int| 0 <= i < m.len() - 1 implies (#[trigger] m[i]).end_ms + gap
            < m[i + 1].start_ms by {
            if i < r.len() - 1 {
                assert(m[i] == r[i]);
                assert(r[i].end_ms + gap < r[i + 1].start_ms);
            }
        }
    }
}

/// Joining texts with a space after appending one text to the last one with a space.
proof fn lemma_join_extend_last(d: Seq<Seq<char>>, x: Seq<char>)
    requires
        d.len() >= 1,
    ensures
        join(d.update(d.len() - 1, d.last() + seq![' '] + x), seq![' ']) == join(d.push(x), seq![' ']),
{
    let u = d.update(d.len() - 1, d.last() + seq![' '] + x);
    let p = d.push(x);
    assert(p.drop_last() =~= d);
    assert(p.last() == x);
    assert(join(p, seq![' ']) == join(d, seq![' ']) + seq![' '] + x);
    if d.len() == 1 {
        assert(join(u, seq![' ']) == u[0]);
        assert(join(d, seq![' ']) == d[0]);
        assert(u[0] =~= d[0] + seq![' '] + x);
    } else {
        assert(u.drop_last() =~= d.drop_last());
        assert(join(d, seq![' ']) == join(d.drop_last(), seq![' ']) + seq![' '] + d.last());
        assert(join(u, seq![' ']) == join(u.drop_last(), seq![' ']) + seq![' '] + u.last());
        assert(join(u, seq![' ']) =~= join(d.drop_last(), seq![' ']) + seq![' '] + d.last() + seq![' ']
            + x);
    }
}

/// The texts of cues, in order.
pub open spec fn texts_of(cs: Seq<Cue>) -> Seq<Seq<char>> {
    cs.map_values(|c: Cue| c.text)
}

/// Merging keeps all the text: the merged texts joined with spaces are the
/// texts of the sorted tiles joined with spaces.
pub proof fn law_merge_keeps_text(s: Seq<TileView>, gap: int)
    ensures
        join(texts_of(merge_cues(s, gap)), seq![' ']) == join(
            s.map_values(|v: TileView| v.cue.text),
            seq![' '],
        ),
    decreases s.len(),
{
    let ts = s.map_values(|v: TileView| v.cue.text);
    if s.len() == 1 {
        assert(texts_of(merge_cues(s, gap)) =~= ts);
    } else if s.len() > 1 {
        let t = s.drop_last();
        law_merge_keeps_text(t, gap);
        lemma_merge_cues_len(t, gap);
        let r = merge_cues(t, gap);
        let tr = texts_of(r);
        assert(ts.drop_last() =~= t.map_values(|v: TileView| v.cue.text));
        let x = s.last().cue.text;
        let cur = r.last();
        if s.last().cue.start_ms <= cur.end_ms + gap {
            assert(texts_of(merge_cues(s, gap)) =~= tr.update(tr.len() - 1, tr.last() + seq![' '] + x));
            lemma_join_extend_last(tr, x);
        } else {
            assert(texts_of(merge_cues(s, gap)) =~= tr.push(x));
        }
        assert(ts =~= ts.drop_last().push(x));
        assert(tr.push(x).drop_last() =~= tr);
        assert(ts.drop_last().push(x).drop_last() =~= ts.drop_last());
    } else {
        assert(texts_of(merge_cues(s, gap)) =~= ts);
    }
}

/// Merging tiles sorted by start keeps them sorted by start.
proof fn lemma_merge_starts_sorted(s: Seq<TileView>, gap: int)
    requires
        forall|p: int, q: int| 0 <= p < q < s.len() ==> (#[trigger] s[p]).cue.start_ms <= (#[trigger] s[q]).cue.start_ms,
    ensures
        forall|p: int, q: int|
            0 <= p < q < merge_cues(s, gap).len() ==> (#[trigger] merge_cues(s, gap)[p]).start_ms
                <= (#[trigger] merge_cues(s, gap)[q]).start_ms,
        s.len() > 0 ==> forall|p: int|
            0 <= p < merge_cues(s, gap).len() ==> (#[trigger] merge_cues(s, gap)[p]).start_ms
                <= s.last().cue.start_ms,
    decreases s.len(),
{
    if s.len() > 1 {
        let t = s.drop_last();
        lemma_merge_starts_sorted(t, gap);
        lemma_merge_cues_len(t, gap);
        let r = merge_cues(t, gap);
        let m = merge_cues(s, gap);
        assert(t.last().cue.start_ms <= s.last().cue.start_ms);
        assert forall|p: int| 0 <= p < m.len() implies (#[trigger] m[p]).start_ms <= s.last().cue.start_ms by {
            if p < r.len() {
                assert(m[p].start_ms == r[p].start_ms);
            }
        }
        assert forall|p: int, q: int| 0 <= p < q < m.len() implies (#[trigger] m[p]).start_ms
            <= (#[trigger] m[q]).start_ms by {
            if q < r.len() {
                assert(m[p].start_ms == r[p].start_ms);
                assert(m[q].start_ms == r[q].start_ms);
            } else {
                assert(m[p].start_ms == r[p].start_ms);
            }
        }
    } else if s.len() == 1 {
    }
}

/// The tiles sorted by start are in order of start, each one of the tiles.
pub proof fn law_sorted_by_start(vs: Seq<TileView>)
    ensures
        sorted_by_start(vs).len() == vs.len(),
        forall|p: int, q: int|
            0 <= p < q < vs.len() ==> (#[trigger] sorted_by_start(vs)[p]).cue.start_ms <= (#[trigger] sorted_by_start(
                vs,
            )[q]).cue.start_ms,
        forall|p: int| 0 <= p < vs.len() ==> vs.contains(#[trigger] sorted_by_start(vs)[p]),
        forall|j: int| 0 <= j < vs.len() ==> sorted_by_start(vs).contains(#[trigger] vs[j]),
{
    let keys = start_keys(vs);
    let o = sort_order(keys, vs.len());
    lemma_sort_order_is_stable(keys, vs.len());
    let srt = sorted_by_start(vs);
    assert forall|p: int, q: int| 0 <= p < q < vs.len() implies (#[trigger] srt[p]).cue.start_ms
        <= (#[trigger] srt[q]).cue.start_ms by {
        assert(keys[o[p]] < keys[o[q]] || keys[o[p]] == keys[o[q]]);
    }
    assert forall|p: int| 0 <= p < vs.len() implies vs.contains(#[trigger] srt[p]) by {
        assert(srt[p] == vs[o[p]]);
    }
    assert forall|j: int| 0 <= j < vs.len() implies srt.contains(#[trigger] vs[j]) by {
        assert(o.contains(j));
        let p = choose|p: int| 0 <= p < o.len() && o[p] == j;
        assert(srt[p] == vs[j]);
    }
}

/// Merged tiles are numbered on from the first tile's number.
pub proof fn law_merge_numbering(s: Seq<TileView>, gap: int)
    ensures
        forall|k: int|
            0 <= k < merge_cues(s, gap).len() ==> (#[trigger] merge_cues(s, gap)[k]).index == s[0].cue.index
                + k,
    decreases s.len(),
{
    let m = merge_cues(s, gap);
    if s.len() == 1 {
        assert(m =~= seq![s[0].cue]);
    } else if s.len() > 1 {
        let t = s.drop_last();
        law_merge_numbering(t, gap);
        lemma_merge_cues_len(t, gap);
        let r = merge_cues(t, gap);
        assert(t[0] == s[0]);
        assert forall|k: int| 0 <= k < m.len() implies (#[trigger] m[k]).index == s[0].cue.index + k by {
            if k < r.len() - 1 {
                assert(m[k] == r[k]);
            } else if k == r.len() - 1 {
                assert(m[k].index == r[k].index);
            }
        }
    }
}

/// Merging invents no time: every merged tile starts at the start of some
/// tile and ends at the end of some tile.
pub proof fn law_merge_sources(s: Seq<TileView>, gap: int)
    ensures
        forall|k: int|
            0 <= k < merge_cues(s, gap).len() ==> exists|j: int|
                0 <= j < s.len() && (#[trigger] merge_cues(s, gap)[k]).start_ms == (#[trigger] s[j]).cue.start_ms,
        forall|k: int|
            0 <= k < merge_cues(s, gap).len() ==> exists|j: int|
                0 <= j < s.len() && (#[trigger] merge_cues(s, gap)[k]).end_ms == (#[trigger] s[j]).cue.end_ms,
    decreases s.len(),
{
    let m = merge_cues(s, gap);
    if s.len() == 1 {
        assert(m =~= seq![s[0].cue]);
        assert forall|k: int| 0 <= k < m.len() implies exists|j: int|
            0 <= j < s.len() && (#[trigger] m[k]).start_ms == (#[trigger] s[j]).cue.start_ms by {
            assert(m[0] == s[0].cue);
        }
        assert forall|k: int| 0 <= k < m.len() implies exists|j: int|
            0 <= j < s.len() && (#[trigger] m[k]).end_ms == (#[trigger] s[j]).cue.end_ms by {
            assert(m[0] == s[0].cue);
        }
    } else if s.len() > 1 {
        let t = s.drop_last();
        law_merge_sources(t, gap);
        lemma_merge_cues_len(t, gap);
        let r = merge_cues(t, gap);
        let last = r.len() - 1;
        let cur = r.last();
        let n = s.len() - 1;
        let c = s.last().cue;
        assert(s[n] == s.last());
        assert forall|k: int| 0 <= k < m.len() implies exists|j: int|
            0 <= j < s.len() && (#[trigger] m[k]).start_ms == (#[trigger] s[j]).cue.start_ms by {
            if k < r.len() {
                let j = choose|j: int| 0 <= j < t.len() && (#[trigger] r[k]).start_ms == (#[trigger] t[j]).cue.start_ms;
                assert(t[j] == s[j]);
                if k < last || c.start_ms <= cur.end_ms + gap {
                    assert(m[k].start_ms == r[k].start_ms);
                }
            } else {
                assert(m[k].start_ms == s[n].cue.start_ms);
            }
        }
        assert forall|k: int| 0 <= k < m.len() implies exists|j: int|
            0 <= j < s.len() && (#[trigger] m[k]).end_ms == (#[trigger] s[j]).cue.end_ms by {
            if k < r.len() {
                let j = choose|j: int| 0 <= j < t.len() && (#[trigger] r[k]).end_ms == (#[trigger] t[j]).cue.end_ms;
                assert(t[j] == s[j]);
                if k < last || c.start_ms > cur.end_ms + gap {
                    assert(m[k] == r[k]);
                } else if c.end_ms > cur.end_ms {
                    assert(m[k].end_ms == s[n].cue.end_ms);
                } else {
                    assert(m[k].end_ms == s[j].cue.end_ms);
                }
            } else {
                assert(m[k].end_ms == s[n].cue.end_ms);
            }
        }
    }
}

/// One more tile for merging: the tiles merged so far keep their starts and
/// end no earlier, and the last merged tile covers the new tile's end,
/// starting where the new tile starts or where the last one so far started.
proof fn lemma_merge_step(s: Seq<TileView>, gap: int)
    requires
        s.len() > 1,
    ensures
        merge_cues(s.drop_last(), gap).len() >= 1,
        merge_cues(s, gap).len() >= merge_cues(s.drop_last(), gap).len(),
        forall|k: int|
            0 <= k < merge_cues(s.drop_last(), gap).len() ==> (#[trigger] merge_cues(s, gap)[k]).start_ms
                == merge_cues(s.drop_last(), gap)[k].start_ms && merge_cues(s, gap)[k].end_ms
                >= merge_cues(s.drop_last(), gap)[k].end_ms,
        merge_cues(s, gap).last().start_ms == s.last().cue.start_ms || (merge_cues(s, gap).last().start_ms
            == merge_cues(s.drop_last(), gap).last().start_ms),
        s.last().cue.end_ms <= merge_cues(s, gap).last().end_ms,
{
    let t = s.drop_last();
    lemma_merge_cues_len(t, gap);
    let r = merge_cues(t, gap);
    let m = merge_cues(s, gap);
    let cur = r.last();
    let c = s.last().cue;
    if c.start_ms <= cur.end_ms + gap {
        assert forall|k: int| 0 <= k < r.len() implies (#[trigger] m[k]).start_ms == r[k].start_ms
            && m[k].end_ms >= r[k].end_ms by {
            if k < r.len() - 1 {
                assert(m[k] == r[k]);
            }
        }
    } else {
        assert forall|k: int| 0 <= k < r.len() implies (#[trigger] m[k]).start_ms == r[k].start_ms
            && m[k].end_ms >= r[k].end_ms by {
            assert(m[k] == r[k]);
        }
    }
}

/// Of tiles sorted by start, the last merged tile starts no later than the last tile.
proof fn lemma_merge_last_start(s: Seq<TileView>, gap: int)
    requires
        s.len() > 0,
        forall|p: int, q: int|
            0 <= p < q < s.len() ==> (#[trigger] s[p]).cue.start_ms <= (#[trigger] s[q]).cue.start_ms,
    ensures
        merge_cues(s, gap).len() > 0,
        merge_cues(s, gap).last().start_ms <= s.last().cue.start_ms,
    decreases s.len(),
{
    if s.len() == 1 {
        assert(merge_cues(s, gap) =~= seq![s[0].cue]);
    } else {
        let t = s.drop_last();
        assert forall|p: int, q: int| 0 <= p < q < t.len() implies (#[trigger] t[p]).cue.start_ms
            <= (#[trigger] t[q]).cue.start_ms by {
            assert(t[p] == s[p] && t[q] == s[q]);
        }
        lemma_merge_last_start(t, gap);
        lemma_merge_step(s, gap);
        assert(t.last() == s[s.len() - 2]);
        assert(s.last() == s[s.len() - 1]);
    }
}

/// Merging loses no time: every tile of a list sorted by start lies within
/// some merged tile, which starts no later and ends no earlier.
pub proof fn law_merge_covers(s: Seq<TileView>, gap: int)
    requires
        forall|p: int, q: int|
            0 <= p < q < s.len() ==> (#[trigger] s[p]).cue.start_ms <= (#[trigger] s[q]).cue.start_ms,
    ensures
        forall|j: int|
            0 <= j < s.len() ==> exists|k: int|
                0 <= k < merge_cues(s, gap).len() && (#[trigger] merge_cues(s, gap)[k]).start_ms <= (
                #[trigger] s[j]).cue.start_ms && s[j].cue.end_ms <= merge_cues(s, gap)[k].end_ms,
    decreases s.len(),
{
    if s.len() == 1 {
        let m = merge_cues(s, gap);
        assert(m =~= seq![s[0].cue]);
        assert(m[0] == s[0].cue);
    } else if s.len() > 1 {
        let t = s.drop_last();
        assert forall|p: int, q: int| 0 <= p < q < t.len() implies (#[trigger] t[p]).cue.start_ms
            <= (#[trigger] t[q]).cue.start_ms by {
            assert(t[p] == s[p] && t[q] == s[q]);
        }
        law_merge_covers(t, gap);
        lemma_merge_last_start(s, gap);
        lemma_merge_step(s, gap);
        let r = merge_cues(t, gap);
        let m = merge_cues(s, gap);
        let n = s.len() - 1;
        assert(s[n] == s.last());
        assert(m[m.len() - 1] == m.last());
        assert forall|j: int| 0 <= j < s.len() implies exists|k: int|
            0 <= k < m.len() && (#[trigger] m[k]).start_ms <= (#[trigger] s[j]).cue.start_ms
                && s[j].cue.end_ms <= m[k].end_ms by {
            if j < n {
                assert(t[j] == s[j]);
                let k = choose|k: int| 0 <= k < r.len() && (#[trigger] r[k]).start_ms <= (
                #[trigger] t[j]).cue.start_ms && t[j].cue.end_ms <= r[k].end_ms;
                assert(m[k].start_ms == r[k].start_ms && m[k].end_ms >= r[k].end_ms);
            } else {
                assert(m[m.len() - 1].start_ms <= s[j].cue.start_ms);
            }
        }
    }
}

/// Merged tiles come in order of start, no more of them than there were tiles,
/// and at least one when there was a tile.
pub proof fn law_merge_order(vs: Seq<TileView>, gap: int)
    ensures
        merge_cues(sorted_by_start(vs), gap).len() <= vs.len(),
        vs.len() > 0 ==> merge_cues(sorted_by_start(vs), gap).len() >= 1,
        forall|p: int, q: int|
            0 <= p < q < merge_cues(sorted_by_start(vs), gap).len() ==> (#[trigger] merge_cues(
                sorted_by_start(vs),
                gap,
            )[p]).start_ms <= (#[trigger] merge_cues(sorted_by_start(vs), gap)[q]).start_ms,
{
    law_sorted_by_start(vs);
    lemma_merge_cues_len(sorted_by_start(vs), gap);
    lemma_merge_starts_sorted(sorted_by_start(vs), gap);
}

/// Moving tiles by `d` and then by `-d` gives them back, when no time would
/// go below zero (nothing is clamped) or past `i64::MAX` on the way.
pub proof fn law_shift_inverse(vs: Seq<TileView>, d: i64)
    requires
        d > i64::MIN,
        forall|i: int|
            0 <= i < vs.len() ==> 0 <= (#[trigger] vs[i]).cue.start_ms <= i64::MAX && 0 <= vs[i].cue.start_ms + d
                <= i64::MAX && 0 <= vs[i].cue.end_ms <= i64::MAX && 0 <= vs[i].cue.end_ms + d <= i64::MAX,
    ensures
        forall|i: int|
            0 <= i < vs.len() ==> shift_fits((#[trigger] vs[i]).cue.start_ms, d) && shift_fits(
                vs[i].cue.end_ms,
                d,
            ),
        forall|i: int|
            0 <= i < vs.len() ==> shift_fits((#[trigger] shift_view(vs[i], d)).cue.start_ms, (-d) as i64)
                && shift_fits(shift_view(vs[i], d).cue.end_ms, (-d) as i64),
        vs.map_values(|v: TileView| shift_view(v, d)).map_values(|v: TileView| shift_view(v, (-d) as i64))
            == vs,
{
    let once = vs.map_values(|v: TileView| shift_view(v, d));
    let twice = once.map_values(|v: TileView| shift_view(v, (-d) as i64));
    assert forall|i: int| 0 <= i < vs.len() implies twice[i] == vs[i] by {
        let v = vs[i];
        let w = shift_view(v, d);
        assert(w.cue.start_ms == v.cue.start_ms + d);
        assert(w.cue.end_ms == v.cue.end_ms + d);
        assert(shift_view(w, (-d) as i64).cue == v.cue);
    }
    assert(twice =~= vs);
}

/// The tiles that `filter_by_time` keeps: all within the range, every tile
/// within the range kept, and filtering again keeps them all.
pub proof fn law_filter_within(vs: Seq<TileView>, start_ms: int, end_ms: int)
    ensures
        forall|k: int|
            0 <= k < within_range(vs, start_ms, end_ms).len() ==> within(
                #[trigger] within_range(vs, start_ms, end_ms)[k],
                start_ms,
                end_ms,
            ),
        forall|i: int|
            0 <= i < vs.len() && within(vs[i], start_ms, end_ms) ==> within_range(
                vs,
                start_ms,
                end_ms,
            ).contains(#[trigger] vs[i]),
        within_range(within_range(vs, start_ms, end_ms), start_ms, end_ms) == within_range(
            vs,
            start_ms,
            end_ms,
        ),
{
    let f = |v: TileView| within(v, start_ms, end_ms);
    let r = vs.filter(f);
    assert forall|k: int| 0 <= k < r.len() implies f(#[trigger] r[k]) by {
        vs.lemma_filter_pred(f, k);
    }
    assert forall|i: int| 0 <= i < vs.len() && f(vs[i]) implies r.contains(#[trigger] vs[i]) by {
        vs.lemma_filter_contains(f, i);
    }
    lemma_filter_all(r, f);
}

/// Filtering a sequence whose elements all pass changes nothing.
proof fn lemma_filter_all<A>(s: Seq<A>, f: spec_fn(A) -> bool)
    requires
        forall|k: int| 0 <= k < s.len() ==> f(#[trigger] s[k]),
    ensures
        s.filter(f) == s,
    decreases s.len(),
{
    reveal(Seq::filter);
    if s.len() > 0 {
        let t = s.drop_last();
        assert forall|k: int| 0 <= k < t.len() implies f(#[trigger] t[k]) by {
            assert(t[k] == s[k]);
        }
        lemma_filter_all(t, f);
        assert(f(s[s.len() - 1]));
        assert(t.push(s.last()) =~= s);
    }
}

/// The span runs from the earliest start, which some tile has, to the latest
/// end, which some tile has.
pub proof fn law_span_bounds(vs: Seq<TileView>)
    requires
        vs.len() > 0,
    ensures
        forall|i: int| 0 <= i < vs.len() ==> min_start(vs) <= (#[trigger] vs[i]).cue.start_ms,
        forall|i: int| 0 <= i < vs.len() ==> (#[trigger] vs[i]).cue.end_ms <= max_end(vs),
        exists|i: int| 0 <= i < vs.len() && (#[trigger] vs[i]).cue.start_ms == min_start(vs),
        exists|i: int| 0 <= i < vs.len() && (#[trigger] vs[i]).cue.end_ms == max_end(vs),
    decreases vs.len(),
{
    if vs.len() > 1 {
        let t = vs.drop_last();
        law_span_bounds(t);
        assert forall|i: int| 0 <= i < vs.len() implies min_start(vs) <= (#[trigger] vs[i]).cue.start_ms by {
            if i < t.len() {
                assert(t[i] == vs[i]);
            }
        }
        assert forall|i: int| 0 <= i < vs.len() implies (#[trigger] vs[i]).cue.end_ms <= max_end(vs) by {
            if i < t.len() {
                assert(t[i] == vs[i]);
            }
        }
        let a = choose|i: int| 0 <= i < t.len() && (#[trigger] t[i]).cue.start_ms == min_start(t);
        let b = choose|i: int| 0 <= i < t.len() && (#[trigger] t[i]).cue.end_ms == max_end(t);
        assert(vs[a] == t[a]);
        assert(vs[b] == t[b]);
        assert(vs[vs.len() - 1] == vs.last());
    } else {
        assert(vs[0].cue.start_ms == min_start(vs));
        assert(vs[0].cue.end_ms == max_end(vs));
    }
}

/// The positions of the elements that a filter keeps, in increasing order.
proof fn lemma_filter_indices<A>(s: Seq<A>, f: spec_fn(A) -> bool) -> (idx: Seq<int>)
    ensures
        taken_at(s, s.filter(f), idx),
        forall|i: int| 0 <= i < s.len() && f(#[trigger] s[i]) ==> idx.contains(i),
    decreases s.len(),
{
    reveal(Seq::filter);
    if s.len() == 0 {
        Seq::<int>::empty()
    } else {
        let t = s.drop_last();
        let ti = lemma_filter_indices(t, f);
        let last = s.len() - 1;
        assert forall|i: int| 0 <= i < last && f(#[trigger] s[i]) implies ti.contains(i) by {
            assert(t[i] == s[i]);
        }
        if f(s.last()) {
            let idx = ti.push(last);
            assert(s.filter(f) == t.filter(f).push(s.last()));
            assert forall|k: int| 0 <= k < idx.len() implies 0 <= #[trigger] idx[k] < s.len()
                && s.filter(f)[k] == s[idx[k]] by {
                if k < ti.len() {
                    assert(idx[k] == ti[k]);
                    assert(t[ti[k]] == s[ti[k]]);
                }
            }
            assert forall|k1: int, k2: int| 0 <= k1 < k2 < idx.len() implies #[trigger] idx[k1]
                < #[trigger] idx[k2] by {
                assert(idx[k1] == ti[k1]);
                if k2 < ti.len() {
                    assert(idx[k2] == ti[k2]);
                }
            }
            assert forall|i: int| 0 <= i < s.len() && f(#[trigger] s[i]) implies idx.contains(i) by {
                if i < last {
                    let k = choose|k: int| 0 <= k < ti.len() && ti[k] == i;
                    assert(idx[k] == i);
                } else {
                    assert(idx[ti.len() as int] == i);
                }
            }
            idx
        } else {
            assert(s.filter(f) == t.filter(f));
            assert forall|k: int| 0 <= k < ti.len() implies 0 <= #[trigger] ti[k] < s.len()
                && s.filter(f)[k] == s[ti[k]] by {
                assert(t[ti[k]] == s[ti[k]]);
            }
            ti
        }
    }
}

/// `filter_by_time` keeps exactly the tiles that start at or after `start_ms`
/// and end at or before `end_ms`, in their order: every kept tile starts and
/// ends within the range, and the kept tiles are the input tiles taken at
/// increasing positions, among them every tile that lies within the range.
pub proof fn law_filter_exact(vs: Seq<TileView>, start_ms: int, end_ms: int)
    ensures
        forall|k: int|
            0 <= k < within_range(vs, start_ms, end_ms).len() ==> (#[trigger] within_range(
                vs,
                start_ms,
                end_ms,
            )[k]).cue.start_ms >= start_ms && within_range(vs, start_ms, end_ms)[k].cue.end_ms
                <= end_ms,
        exists|idx: Seq<int>|
            #[trigger] taken_at(vs, within_range(vs, start_ms, end_ms), idx) && forall|i: int|
                0 <= i < vs.len() && (#[trigger] vs[i]).cue.start_ms >= start_ms && vs[i].cue.end_ms
                    <= end_ms ==> idx.contains(i),
{
    let f = |v: TileView| within(v, start_ms, end_ms);
    let r = vs.filter(f);
    assert forall|k: int| 0 <= k < r.len() implies (#[trigger] r[k]).cue.start_ms >= start_ms
        && r[k].cue.end_ms <= end_ms by {
        vs.lemma_filter_pred(f, k);
    }
    let idx = lemma_filter_indices(vs, f);
    assert forall|i: int|
        0 <= i < vs.len() && (#[trigger] vs[i]).cue.start_ms >= start_ms && vs[i].cue.end_ms
            <= end_ms implies idx.contains(i) by {
        assert(f(vs[i]));
    }
    assert(taken_at(vs, within_range(vs, start_ms, end_ms), idx));
}

/// The span of tiles is the latest end minus the earliest start, whatever
/// their order: 0 for no tiles; otherwise, with `i` a tile that starts no
/// later than any and `j` one that ends no earlier than any, `end(j) -
/// start(i)`, or `None` where that would go below zero.
pub proof fn law_span_exact(vs: Seq<TileView>)
    ensures
        vs.len() == 0 ==> span_of(vs) == Some(0int),
        vs.len() > 0 ==> exists|i: int, j: int|
            #![trigger vs[i], vs[j]]
            0 <= i < vs.len() && 0 <= j < vs.len() && (forall|k: int|
                0 <= k < vs.len() ==> vs[i].cue.start_ms <= (#[trigger] vs[k]).cue.start_ms
                    && vs[k].cue.end_ms <= vs[j].cue.end_ms) && span_of(vs) == (if vs[j].cue.end_ms
                >= vs[i].cue.start_ms {
                Some(vs[j].cue.end_ms - vs[i].cue.start_ms)
            } else {
                None::<int>
            }),
{
    if vs.len() > 0 {
        law_span_bounds(vs);
        let i = choose|i: int| 0 <= i < vs.len() && (#[trigger] vs[i]).cue.start_ms == min_start(vs);
        let j = choose|j: int| 0 <= j < vs.len() && (#[trigger] vs[j]).cue.end_ms == max_end(vs);
        assert(0 <= i < vs.len() && 0 <= j < vs.len() && (forall|k: int|
            0 <= k < vs.len() ==> vs[i].cue.start_ms <= (#[trigger] vs[k]).cue.start_ms
                && vs[k].cue.end_ms <= vs[j].cue.end_ms));
    }
}

/// The span depends only on which tiles there are, not on their order or
/// repetition: two lists holding the same tiles have the same span.
pub proof fn law_span_order_free(vs: Seq<TileView>, ws: Seq<TileView>)
    requires
        forall|v: TileView| vs.contains(v) <==> ws.contains(v),
    ensures
        span_of(vs) == span_of(ws),
{
    if vs.len() > 0 {
        assert(vs.contains(vs[0]));
        assert(ws.contains(vs[0]));
    }
    if ws.len() > 0 {
        assert(ws.contains(ws[0]));
        assert(vs.contains(ws[0]));
    }
    if vs.len() > 0 && ws.len() > 0 {
        law_span_bounds(vs);
        law_span_bounds(ws);
        let a = choose|i: int| 0 <= i < vs.len() && (#[trigger] vs[i]).cue.start_ms == min_start(vs);
        let b = choose|i: int| 0 <= i < vs.len() && (#[trigger] vs[i]).cue.end_ms == max_end(vs);
        let c = choose|i: int| 0 <= i < ws.len() && (#[trigger] ws[i]).cue.start_ms == min_start(ws);
        let d = choose|i: int| 0 <= i < ws.len() && (#[trigger] ws[i]).cue.end_ms == max_end(ws);
        assert(vs.contains(vs[a]) && vs.contains(vs[b]));
        assert(ws.contains(ws[c]) && ws.contains(ws[d]));
        let a2 = choose|i: int| 0 <= i < ws.len() && ws[i] == vs[a];
        let b2 = choose|i: int| 0 <= i < ws.len() && ws[i] == vs[b];
        let c2 = choose|i: int| 0 <= i < vs.len() && vs[i] == ws[c];
        let d2 = choose|i: int| 0 <= i < vs.len() && vs[i] == ws[d];
        assert(min_start(ws) <= ws[a2].cue.start_ms);
        assert(min_start(vs) <= vs[c2].cue.start_ms);
        assert(ws[b2].cue.end_ms <= max_end(ws));
        assert(vs[d2].cue.end_ms <= max_end(vs));
    }
}

/// What `detect_format` decides, stated on the trimmed text itself: WebVTT
/// exactly when it starts with `WEBVTT`; SRT exactly when it does not, and it
/// starts with `1` or its first word (the whole leading run of
/// non-whitespace) reads as a `u32`; otherwise unknown. No later word counts.
pub proof fn law_detect_exact(s: Seq<char>)
    ensures
        (format_of(s) == SubFormat::VTT) == starts_with(trim(s), webvtt()),
        (format_of(s) == SubFormat::SRT) == (!starts_with(trim(s), webvtt()) && ((trim(s).len() > 0
            && trim(s)[0] == '1') || exists|p: int|
            #[trigger] leading_word_end(trim(s), p) && parse_unsigned(trim(s).take(p), u32_max())
                is Some)),
{
    let t = trim(s);
    if t.len() > 0 {
        let p = lemma_trim_leading_word(s);
        lemma_leading_word(t, p);
        if parse_unsigned(t.take(p), u32_max()) is Some {
            assert(leading_word_end(t, p));
        }
    } else {
        assert(t =~= Seq::<char>::empty());
        lemma_words_empty();
    }
}

/// Each piece of a split tile keeps the tile's number and metadata and holds
/// the piece of text at its own position; the first starts when the tile
/// starts, each lasts its offset and the next starts when it ends, and the
/// last ends when the tile ends.
pub proof fn law_split_pieces(tile: Cue, pieces: Seq<Seq<char>>, offsets: Seq<u64>)
    requires
        pieces.len() > 0,
        offsets.len() == pieces.len() - 1,
    ensures
        forall|k: int|
            0 <= k < pieces.len() ==> (#[trigger] split_piece(tile, pieces, offsets, k)).text
                == pieces[k] && split_piece(tile, pieces, offsets, k).index == tile.index
                && split_piece(tile, pieces, offsets, k).meta == tile.meta,
        split_piece(tile, pieces, offsets, 0).start_ms == tile.start_ms,
        split_piece(tile, pieces, offsets, pieces.len() - 1).end_ms == tile.end_ms,
        forall|k: int|
            0 <= k < pieces.len() - 1 ==> (#[trigger] split_piece(tile, pieces, offsets, k)).end_ms
                == split_piece(tile, pieces, offsets, k).start_ms + offsets[k] && split_piece(
                tile,
                pieces,
                offsets,
                k + 1,
            ).start_ms == split_piece(tile, pieces, offsets, k).end_ms,
{
    assert(offsets.take(0) =~= Seq::<u64>::empty());
    assert forall|k: int| 0 <= k < pieces.len() - 1 implies (#[trigger] split_piece(
        tile,
        pieces,
        offsets,
        k,
    )).end_ms == split_piece(tile, pieces, offsets, k).start_ms + offsets[k] && split_piece(
        tile,
        pieces,
        offsets,
        k + 1,
    ).start_ms == split_piece(tile, pieces, offsets, k).end_ms by {
        let q = offsets.take(k + 1);
        assert(q.drop_last() =~= offsets.take(k));
        assert(q.last() == offsets[k]);
    }
}

/// A shifted tile keeps its id, number, text and metadata; its start is the
/// start (read as an `i64`) plus the offset, or 0 where that is negative, and
/// its end, on its own, likewise.
pub proof fn law_shift_fields(v: TileView, d: i64)
    ensures
        shift_view(v, d).id == v.id,
        shift_view(v, d).cue.index == v.cue.index,
        shift_view(v, d).cue.text == v.cue.text,
        shift_view(v, d).cue.meta == v.cue.meta,
        shift_view(v, d).cue.start_ms == (if wrap_i64(v.cue.start_ms) + d < 0 {
            0
        } else {
            wrap_i64(v.cue.start_ms) + d
        }),
        shift_view(v, d).cue.end_ms == (if wrap_i64(v.cue.end_ms) + d < 0 {
            0
        } else {
            wrap_i64(v.cue.end_ms) + d
        }),
{
}

/// The finished lines and the current line as one list.
pub open spec fn all_lines(st: (Seq<Seq<char>>, Seq<char>)) -> Seq<Seq<char>> {
    if st.1.len() > 0 {
        st.0.push(st.1)
    } else {
        st.0
    }
}

/// Greedy wrapping loses no word and makes no line that is too long unless it is a single word.
proof fn lemma_wrap_words(ws: Seq<Seq<char>>, max: int)
    requires
        forall|k: int| 0 <= k < ws.len() ==> (#[trigger] ws[k]).len() > 0,
    ensures
        (wrap_words(ws, max).1.len() == 0) == (ws.len() == 0),
        ws.len() == 0 ==> wrap_words(ws, max).0.len() == 0,
        forall|k: int|
            0 <= k < all_lines(wrap_words(ws, max)).len() ==> (#[trigger] all_lines(
                wrap_words(ws, max),
            )[k]).len() > 0 && (byte_len(all_lines(wrap_words(ws, max))[k]) <= max || ws.contains(
                all_lines(wrap_words(ws, max))[k],
            )),
        join(all_lines(wrap_words(ws, max)), seq![' ']) == join(ws, seq![' ']),
    decreases ws.len(),
{
    if ws.len() > 0 {
        let t = ws.drop_last();
        assert forall|k: int| 0 <= k < t.len() implies (#[trigger] t[k]).len() > 0 by {
            assert(t[k] == ws[k]);
        }
        lemma_wrap_words(t, max);
        let (d, l) = wrap_words(t, max);
        let w = ws.last();
        assert(w == ws[ws.len() - 1]);
        assert(ws.contains(w));
        assert(ws =~= t.push(w));
        let st = wrap_words(ws, max);
        let a = all_lines(st);
        let prev = all_lines((d, l));
        assert forall|x: Seq<char>| t.contains(x) implies ws.contains(x) by {
            let k = choose|k: int| 0 <= k < t.len() && t[k] == x;
            assert(ws[k] == x);
        }
        if l.len() == 0 {
            assert(t.len() == 0);
            assert(st == (d, w));
            assert(a =~= seq![w]);
            assert(ws =~= seq![w]);
            assert(a == ws);
        } else {
            let cand = l + seq![' '] + w;
            assert(prev == d.push(l));
            assert(join(prev, seq![' ']) == join(t, seq![' ']));
            assert(t.len() > 0);
            assert(join(ws, seq![' ']) == join(t, seq![' ']) + seq![' '] + w);
            if byte_len(cand) > max {
                assert(st == (d.push(l), w));
                assert(a == prev.push(w));
                assert(a.drop_last() =~= prev);
                assert(join(a, seq![' ']) == join(prev, seq![' ']) + seq![' '] + w);
                assert forall|k: int| 0 <= k < a.len() implies (#[trigger] a[k]).len() > 0 && (byte_len(
                    a[k],
                ) <= max || ws.contains(a[k])) by {
                    if k < prev.len() {
                        assert(a[k] == prev[k]);
                    }
                }
            } else {
                assert(st == (d, cand));
                assert(a == d.push(cand));
                lemma_join_extend_last(prev, w);
                assert(prev.update(prev.len() - 1, prev.last() + seq![' '] + w) =~= a);
                assert(prev.push(w).drop_last() =~= prev);
                assert(join(prev.push(w), seq![' ']) == join(prev, seq![' ']) + seq![' '] + w);
                assert(join(a, seq![' ']) == join(ws, seq![' ']));
                assert forall|k: int| 0 <= k < a.len() implies (#[trigger] a[k]).len() > 0 && (byte_len(
                    a[k],
                ) <= max || ws.contains(a[k])) by {
                    if k < d.len() {
                        assert(a[k] == prev[k]);
                    }
                }
            }
        }
    }
}

/// How `split_long_text` splits: nothing when the text fits; otherwise no
/// empty line, no line over `max` bytes unless it is a single word, and the
/// lines joined with spaces are the words joined with spaces.
pub proof fn law_split_text(text: Seq<char>, max: int)
    ensures
        split_text(text, max) is None <==> byte_len(text) <= max,
        split_text(text, max) matches Some(ls) ==> {
            &&& forall|k: int|
                0 <= k < ls.len() ==> (#[trigger] ls[k]).len() > 0 && (byte_len(ls[k]) <= max || words(
                    text,
                ).contains(ls[k]))
            &&& join(ls, seq![' ']) == join(words(text), seq![' '])
        },
{
    let ws = words(text);
    let f = |w: Seq<char>| w.len() > 0;
    assert forall|k: int| 0 <= k < ws.len() implies (#[trigger] ws[k]).len() > 0 by {
        crate::text::split_by(text, crate::text::sep_fn(None)).lemma_filter_pred(f, k);
    }
    lemma_wrap_words(ws, max);
    assert(wrapped_lines(text, max) == all_lines(wrap_words(ws, max)));
}

/// The pieces of a split hold no separator.
proof fn lemma_split_by_no_sep(s: Seq<char>, f: spec_fn(char) -> bool)
    ensures
        forall|k: int| 0 <= k < split_by(s, f).len() ==> no_sep(#[trigger] split_by(s, f)[k], f),
    decreases s.len(),
{
    if s.len() > 0 {
        let t = s.drop_last();
        lemma_split_by_no_sep(t, f);
        lemma_split_by_nonempty(t, f);
        let r = split_by(t, f);
        if f(s.last()) {
            let u = r.push(Seq::<char>::empty());
            assert forall|k: int| 0 <= k < u.len() implies no_sep(#[trigger] u[k], f) by {
                if k < r.len() {
                    assert(u[k] == r[k]);
                }
            }
        } else {
            let x = r.last().push(s.last());
            let u = r.update(r.len() - 1, x);
            assert(no_sep(r[r.len() - 1], f));
            assert forall|i: int| 0 <= i < x.len() implies !f(#[trigger] x[i]) by {
                if i < r.last().len() {
                    assert(x[i] == r.last()[i]);
                }
            }
            assert forall|k: int| 0 <= k < u.len() implies no_sep(#[trigger] u[k], f) by {
                if k < r.len() - 1 {
                    assert(u[k] == r[k]);
                }
            }
        }
    }
}

/// The words of a text are not empty and hold no whitespace.
proof fn lemma_words_no_ws(s: Seq<char>)
    ensures
        forall|k: int| 0 <= k < words(s).len() ==> (#[trigger] words(s)[k]).len() > 0,
        forall|k: int, q: int|
            0 <= k < words(s).len() && 0 <= q < words(s)[k].len() ==> !is_ws(#[trigger] words(s)[k][q]),
{
    let f = sep_fn(None);
    let nonempty = |w: Seq<char>| w.len() > 0;
    let sp = split_by(s, f);
    let ws = words(s);
    lemma_split_by_no_sep(s, f);
    assert forall|k: int| 0 <= k < ws.len() implies (#[trigger] ws[k]).len() > 0 by {
        sp.lemma_filter_pred(nonempty, k);
    }
    assert forall|k: int, q: int| 0 <= k < ws.len() && 0 <= q < ws[k].len() implies !is_ws(
        #[trigger] ws[k][q],
    ) by {
        assert(ws.contains(ws[k]));
        sp.lemma_filter_contains_rev(nonempty, ws[k]);
        let j = choose|j: int| 0 <= j < sp.len() && sp[j] == ws[k];
        assert(no_sep(sp[j], f));
        assert(!f(sp[j][q]));
    }
}

/// Greedy wrapping leaves no room: the current line begins with a whole word
/// ending at `p`, each finished line followed by a space and the first word
/// of the next line would be longer than `max` bytes, and so would the last
/// finished line with the first word of the current one.
proof fn lemma_wrap_greedy(ws: Seq<Seq<char>>, max: int) -> (p: int)
    requires
        forall|k: int| 0 <= k < ws.len() ==> (#[trigger] ws[k]).len() > 0,
        forall|k: int, q: int| 0 <= k < ws.len() && 0 <= q < ws[k].len() ==> !is_ws(#[trigger] ws[k][q]),
    ensures
        wrap_words(ws, max).1.len() > 0 ==> leading_word_end(wrap_words(ws, max).1, p),
        wrap_words(ws, max).1.len() > 0 && wrap_words(ws, max).0.len() > 0 ==> byte_len(
            wrap_words(ws, max).0.last() + seq![' '] + wrap_words(ws, max).1.take(p),
        ) > max,
        forall|k: int|
            0 <= k < wrap_words(ws, max).0.len() - 1 ==> byte_len(
                #[trigger] wrap_words(ws, max).0[k] + seq![' '] + words(wrap_words(ws, max).0[k + 1])[0],
            ) > max,
    decreases ws.len(),
{
    if ws.len() == 0 {
        0
    } else {
        let t = ws.drop_last();
        assert forall|k: int| 0 <= k < t.len() implies (#[trigger] t[k]).len() > 0 by {
            assert(t[k] == ws[k]);
        }
        assert forall|k: int, q: int| 0 <= k < t.len() && 0 <= q < t[k].len() implies !is_ws(
            #[trigger] t[k][q],
        ) by {
            assert(t[k] == ws[k]);
        }
        let pt = lemma_wrap_greedy(t, max);
        lemma_wrap_words(t, max);
        let (d, l) = wrap_words(t, max);
        let w = ws.last();
        assert(w == ws[ws.len() - 1]);
        assert forall|q: int| 0 <= q < w.len() implies !is_ws(#[trigger] w[q]) by {
            assert(!is_ws(ws[ws.len() - 1][q]));
        }
        assert(leading_word_end(w, w.len() as int));
        assert(w.take(w.len() as int) =~= w);
        if l.len() == 0 {
            assert(t.len() == 0);
            assert(d.len() == 0);
            w.len() as int
        } else {
            let cand = l + seq![' '] + w;
            if byte_len(cand) > max {
                let d2 = d.push(l);
                assert(wrap_words(ws, max) == (d2, w));
                lemma_leading_word(l, pt);
                assert forall|k: int| 0 <= k < d2.len() - 1 implies byte_len(
                    #[trigger] d2[k] + seq![' '] + words(d2[k + 1])[0],
                ) > max by {
                    if k < d.len() - 1 {
                        assert(d2[k] == d[k]);
                        assert(d2[k + 1] == d[k + 1]);
                    } else {
                        assert(d2[k] == d.last());
                        assert(d2[k + 1] == l);
                    }
                }
                assert(d2.last() == l);
                w.len() as int
            } else {
                assert(wrap_words(ws, max) == (d, cand));
                assert forall|q: int| 0 <= q < pt implies !is_ws(#[trigger] cand[q]) by {
                    assert(cand[q] == l[q]);
                }
                if pt < l.len() {
                    assert(cand[pt] == l[pt]);
                } else {
                    assert(cand[pt] == ' ');
                }
                assert(leading_word_end(cand, pt));
                assert(cand.take(pt) =~= l.take(pt));
                pt
            }
        }
    }
}

/// `split_long_text` fills each line as far as the width allows: a line, a
/// space and the first word of the line after it would be longer than `max`
/// bytes.
pub proof fn law_split_greedy(text: Seq<char>, max: int)
    ensures
        split_text(text, max) matches Some(ls) ==> forall|k: int|
            0 <= k < ls.len() - 1 ==> byte_len(#[trigger] ls[k] + seq![' '] + words(ls[k + 1])[0])
                > max,
{
    let ws = words(text);
    lemma_words_no_ws(text);
    let p = lemma_wrap_greedy(ws, max);
    lemma_wrap_words(ws, max);
    let (d, l) = wrap_words(ws, max);
    assert(wrapped_lines(text, max) == all_lines(wrap_words(ws, max)));
    if l.len() > 0 {
        lemma_leading_word(l, p);
        let a = d.push(l);
        assert forall|k: int| 0 <= k < a.len() - 1 implies byte_len(
            #[trigger] a[k] + seq![' '] + words(a[k + 1])[0],
        ) > max by {
            if k < d.len() - 1 {
                assert(a[k] == d[k]);
                assert(a[k + 1] == d[k + 1]);
            } else {
                assert(a[k] == d.last());
                assert(a[k + 1] == l);
            }
        }
    }
}

/// The cues of tile views.
pub open spec fn view_cues(vs: Seq<TileView>) -> Seq<Cue> {
    vs.map_values(|v: TileView| v.cue)
}

/// Merged tiles are numbered on from the first tile's number.
proof fn lemma_merge_indices(s: Seq<TileView>, gap: int)
    requires
        s.len() > 0,
    ensures
        forall|k: int|
            0 <= k < merge_cues(s, gap).len() ==> (#[trigger] merge_cues(s, gap)[k]).index
                == s[0].cue.index + k,
    decreases s.len(),
{
    if s.len() > 1 {
        let t = s.drop_last();
        lemma_merge_indices(t, gap);
        lemma_merge_cues_len(t, gap);
        let r = merge_cues(t, gap);
        let m = merge_cues(s, gap);
        assert(t[0] == s[0]);
        assert forall|k: int| 0 <= k < m.len() implies (#[trigger] m[k]).index == s[0].cue.index + k by {
            if k < r.len() {
                assert(m[k].index == r[k].index);
            } else {
                assert(m[k].index == r.last().index + 1);
            }
        }
    }
}

/// Every merged end is the end of one of the tiles.
proof fn lemma_merge_ends(s: Seq<TileView>, gap: int)
    ensures
        forall|k: int|
            0 <= k < merge_cues(s, gap).len() ==> exists|i: int|
                0 <= i < s.len() && (#[trigger] merge_cues(s, gap)[k]).end_ms == s[i].cue.end_ms,
    decreases s.len(),
{
    if s.len() == 1 {
        assert forall|k: int| 0 <= k < merge_cues(s, gap).len() implies exists|i: int|
            0 <= i < s.len() && (#[trigger] merge_cues(s, gap)[k]).end_ms == s[i].cue.end_ms by {
            assert(merge_cues(s, gap)[k].end_ms == s[0].cue.end_ms);
        }
    } else if s.len() > 1 {
        let t = s.drop_last();
        lemma_merge_ends(t, gap);
        lemma_merge_cues_len(t, gap);
        let r = merge_cues(t, gap);
        let m = merge_cues(s, gap);
        let last = s.len() - 1;
        assert forall|k: int| 0 <= k < m.len() implies exists|i: int|
            0 <= i < s.len() && (#[trigger] m[k]).end_ms == s[i].cue.end_ms by {
            if k < r.len() - 1 {
                assert(m[k] == r[k]);
                let i = choose|i: int| 0 <= i < t.len() && r[k].end_ms == t[i].cue.end_ms;
                assert(t[i] == s[i]);
            } else if k == r.len() - 1 {
                let i = choose|i: int| 0 <= i < t.len() && r[k].end_ms == t[i].cue.end_ms;
                assert(t[i] == s[i]);
                if m[k].end_ms != r[k].end_ms {
                    assert(m[k].end_ms == s[last].cue.end_ms);
                }
            } else {
                assert(m[k].end_ms == s[last].cue.end_ms);
            }
        }
    }
}

/// Merging fits when every end plus the gap fits a `u64` and the numbers that
/// the merged tiles can take fit a `u32`.
proof fn lemma_merge_fits_bounds(s: Seq<TileView>, gap: int)
    requires
        forall|i: int| 0 <= i < s.len() ==> (#[trigger] s[i]).cue.end_ms + gap <= u64_max(),
        s.len() > 0 ==> s[0].cue.index + s.len() - 1 <= u32_max(),
    ensures
        merge_fits(s, gap),
    decreases s.len(),
{
    if s.len() > 1 {
        let t = s.drop_last();
        assert forall|i: int| 0 <= i < t.len() implies (#[trigger] t[i]).cue.end_ms + gap <= u64_max() by {
            assert(t[i] == s[i]);
        }
        assert(t[0] == s[0]);
        lemma_merge_fits_bounds(t, gap);
        lemma_merge_cues_len(t, gap);
        lemma_merge_ends(t, gap);
        lemma_merge_indices(t, gap);
        let r = merge_cues(t, gap);
        let k = r.len() - 1;
        let i = choose|i: int| 0 <= i < t.len() && (#[trigger] r[k]).end_ms == t[i].cue.end_ms;
        assert(t[i] == s[i]);
        assert(r.last().index == s[0].cue.index + k);
    }
}

/// `insert_pos` of a key no smaller than any from `j` on is the end.
proof fn lemma_insert_pos_end(keys: Seq<int>, o: Seq<int>, key: int, j: int)
    requires
        0 <= j <= o.len(),
        forall|p: int| j <= p < o.len() ==> keys[#[trigger] o[p]] <= key,
    ensures
        insert_pos(keys, o, key, j) == o.len(),
    decreases o.len() - j,
{
    if j < o.len() {
        lemma_insert_pos_end(keys, o, key, j + 1);
    }
}

/// Sorting keys that are already in order keeps every position in place.
proof fn lemma_sort_order_sorted(keys: Seq<int>, n: nat)
    requires
        n <= keys.len(),
        forall|p: int, q: int| 0 <= p <= q < n ==> keys[p] <= keys[q],
    ensures
        sort_order(keys, n) == Seq::new(n, |i: int| i),
    decreases n,
{
    if n > 0 {
        let m = (n - 1) as nat;
        lemma_sort_order_sorted(keys, m);
        let o = sort_order(keys, m);
        assert forall|p: int| 0 <= p < o.len() implies keys[#[trigger] o[p]] <= keys[m as int] by {
            assert(o[p] == p);
        }
        lemma_insert_pos_end(keys, o, keys[m as int], 0);
        assert(o.insert(m as int, m as int) =~= Seq::new(n, |i: int| i));
    }
}

/// Tiles already in order of start stay as they are when sorted by start.
proof fn lemma_sorted_by_start_id(vs: Seq<TileView>)
    requires
        forall|p: int, q: int| 0 <= p <= q < vs.len() ==> (#[trigger] vs[p]).cue.start_ms <= (#[trigger] vs[q]).cue.start_ms,
    ensures
        sorted_by_start(vs) == vs,
{
    let keys = start_keys(vs);
    assert forall|p: int, q: int| 0 <= p <= q < vs.len() implies keys[p] <= keys[q] by {
        assert(keys[p] == vs[p].cue.start_ms);
        assert(keys[q] == vs[q].cue.start_ms);
    }
    lemma_sort_order_sorted(keys, vs.len());
    assert(sorted_by_start(vs) =~= vs);
}

/// Tiles each more than `gap` after the one before and numbered one after
/// another do not merge.
proof fn lemma_merge_separated(s: Seq<TileView>, gap: int)
    requires
        s.len() > 0,
        forall|k: int| 0 <= k < s.len() - 1 ==> (#[trigger] s[k]).cue.end_ms + gap < s[k + 1].cue.start_ms,
        forall|k: int| 0 <= k < s.len() ==> (#[trigger] s[k]).cue.index == s[0].cue.index + k,
    ensures
        merge_cues(s, gap) == view_cues(s),
    decreases s.len(),
{
    if s.len() == 1 {
        assert(merge_cues(s, gap) =~= view_cues(s));
    } else {
        let t = s.drop_last();
        assert forall|k: int| 0 <= k < t.len() - 1 implies (#[trigger] t[k]).cue.end_ms + gap < t[k + 1].cue.start_ms by {
            assert(t[k] == s[k]);
            assert(t[k + 1] == s[k + 1]);
            assert(s[k].cue.end_ms + gap < s[k + 1].cue.start_ms);
        }
        assert forall|k: int| 0 <= k < t.len() implies (#[trigger] t[k]).cue.index == t[0].cue.index + k by {
            assert(t[k] == s[k]);
            assert(s[k].cue.index == s[0].cue.index + k);
        }
        lemma_merge_separated(t, gap);
        let n = s.len();
        assert(s[n - 2].cue.end_ms + gap < s[n - 1].cue.start_ms);
        assert(s[n - 1].cue.index == s[0].cue.index + (n - 1));
        assert(s[n - 2].cue.index == s[0].cue.index + (n - 2));
        assert(view_cues(t).last() == s[n - 2].cue);
        assert(merge_cues(s, gap) =~= view_cues(s));
    }
}

/// Merging tiles that merging made changes nothing: every merged tile stays
/// as it is. And when every end plus the gap fits a `u64` and the earliest
/// tile's number plus the number of tiles fits a `u32`, both merges fit.
pub proof fn law_merge_idempotent(vs: Seq<TileView>, ms: Seq<TileView>, gap: int)
    requires
        view_cues(ms) == merge_cues(sorted_by_start(vs), gap),
    ensures
        merge_cues(sorted_by_start(ms), gap) == view_cues(ms),
        ((forall|i: int| 0 <= i < vs.len() ==> (#[trigger] vs[i]).cue.end_ms + gap <= u64_max()) && (
        vs.len() > 0 ==> sorted_by_start(vs)[0].cue.index + vs.len() - 1 <= u32_max())) ==> merge_fits(
            sorted_by_start(vs),
            gap,
        ) && merge_fits(sorted_by_start(ms), gap),
{
    let s = sorted_by_start(vs);
    let m = merge_cues(s, gap);
    law_sorted_by_start(vs);
    law_merge_order(vs, gap);
    law_merge_gaps(s, gap);
    lemma_merge_cues_len(s, gap);
    assert(ms.len() == m.len());
    assert forall|k: int| 0 <= k < ms.len() implies (#[trigger] ms[k]).cue == m[k] by {
        assert(view_cues(ms)[k] == ms[k].cue);
    }
    assert forall|p: int, q: int| 0 <= p <= q < ms.len() implies (#[trigger] ms[p]).cue.start_ms
        <= (#[trigger] ms[q]).cue.start_ms by {
        if p < q {
            assert(m[p].start_ms <= m[q].start_ms);
        }
    }
    lemma_sorted_by_start_id(ms);
    if ms.len() > 0 {
        lemma_merge_indices(s, gap);
        assert forall|k: int| 0 <= k < ms.len() - 1 implies (#[trigger] ms[k]).cue.end_ms + gap
            < ms[k + 1].cue.start_ms by {
            assert(m[k].end_ms + gap < m[k + 1].start_ms);
        }
        assert forall|k: int| 0 <= k < ms.len() implies (#[trigger] ms[k]).cue.index == ms[0].cue.index + k by {
            assert(m[k].index == s[0].cue.index + k);
            assert(m[0].index == s[0].cue.index);
        }
        lemma_merge_separated(ms, gap);
    } else {
        assert(merge_cues(ms, gap) =~= view_cues(ms));
    }
    if (forall|i: int| 0 <= i < vs.len() ==> (#[trigger] vs[i]).cue.end_ms + gap <= u64_max()) && (
    vs.len() > 0 ==> s[0].cue.index + vs.len() - 1 <= u32_max()) {
        assert forall|i: int| 0 <= i < s.len() implies (#[trigger] s[i]).cue.end_ms + gap <= u64_max() by {
            assert(vs.contains(s[i]));
            let j = choose|j: int| 0 <= j < vs.len() && vs[j] == s[i];
            assert(vs[j].cue.end_ms + gap <= u64_max());
        }
        lemma_merge_fits_bounds(s, gap);
        if ms.len() > 0 {
            lemma_merge_ends(s, gap);
            lemma_merge_indices(s, gap);
            assert forall|i: int| 0 <= i < ms.len() implies (#[trigger] ms[i]).cue.end_ms + gap <= u64_max() by {
                let j = choose|j: int| 0 <= j < s.len() && (#[trigger] m[i]).end_ms == s[j].cue.end_ms;
                assert(s[j].cue.end_ms + gap <= u64_max());
            }
            assert(ms[0].cue.index == s[0].cue.index);
        }
        lemma_merge_fits_bounds(ms, gap);
    }
}

} // verus!
