//! The SRT and WebVTT formats: what a file holds, block by block, and how
//! each block is read into a cue.
use vstd::prelude::*;
use crate::number::{
    decimal, is_digit, lemma_decimal_value, lemma_parse_decimal, parse_unsigned,
    parse_unsigned_range,
};
use crate::text::{
    contains, has_blank, join, lemma_lines_clean, lemma_lines_cons, lemma_trim_unchanged,
    line_clean, lines, lines_spans, no_sep, occurs_at, pair_at, sep_fn, spans_view, spans_within,
    split_blank, starts_with, strip_cr, trim, trim_span, trim_start, words,
};
use crate::tile::{Cue, Metadata, SubFormat, SubtitleTile, new_tile_id};
use crate::timestamp::{
    cue_arrow, lemma_timing_roundtrip, lemma_ts_no_dash, string_from_chars, timing_span,
    timing_text, timing_value, ts_text, u64_max,
};

verus! {

/// The largest value of a `u32`, as a mathematical integer.
pub open spec fn u32_max() -> nat {
    0xffff_ffffnat
}

/// The header word of a WebVTT file.
pub open spec fn webvtt() -> Seq<char> {
    seq!['W', 'E', 'B', 'V', 'T', 'T']
}

/// The metadata key under which a WebVTT cue identifier is kept.
pub open spec fn cue_id_key() -> Seq<char> {
    seq!['c', 'u', 'e', '_', 'i', 'd']
}

/// A newline as a one-character sequence.
pub open spec fn newline() -> Seq<char> {
    seq!['\n']
}

/// The start and end of a cue fit in a `u64`.
pub open spec fn cue_fits(c: Cue) -> bool {
    c.start_ms <= u64_max() && c.end_ms <= u64_max()
}

/// The format that a text is in: WebVTT when it starts with `WEBVTT`, SRT when
/// it starts with `1` or its first word is a `u32`, otherwise unknown (all
/// after leading and trailing whitespace is removed).
pub open spec fn format_of(s: Seq<char>) -> SubFormat {
    let t = trim(s);
    if starts_with(t, webvtt()) {
        SubFormat::VTT
    } else if (t.len() > 0 && t[0] == '1') || (words(t).len() > 0 && parse_unsigned(
        words(t)[0],
        u32_max(),
    ) is Some) {
        SubFormat::SRT
    } else {
        SubFormat::Unknown
    }
}

/// One SRT block read into a cue: at least three lines, the first a `u32`
/// sequence number, the second a timing line with `,` before the
/// milliseconds, the rest the text.
pub open spec fn srt_cue(block: Seq<char>) -> Option<Cue> {
    let ls = lines(block);
    if ls.len() < 3 {
        None
    } else {
        match parse_unsigned(trim(ls[0]), u32_max()) {
            None => None,
            Some(i) => match timing_value(trim(ls[1]), ',') {
                None => None,
                Some((s, e)) => Some(
                    Cue {
                        index: i as int,
                        start_ms: s,
                        end_ms: e,
                        text: join(ls.skip(2), newline()),
                        meta: Map::empty(),
                    },
                ),
            },
        }
    }
}

/// The cues of an SRT file: its blank-line-separated blocks, in order,
/// those that do not read as a cue left out.
pub open spec fn srt_cues(input: Seq<char>) -> Seq<Cue> {
    split_blank(trim(input)).filter_map(|b: Seq<char>| srt_cue(b))
}

/// A WebVTT cue before it is numbered: start, end, text and cue identifier.
pub struct VttCue {
    pub start_ms: int,
    pub end_ms: int,
    pub text: Seq<char>,
    pub cue_id: Option<Seq<char>>,
}

/// The position of the first line from `k` on that holds `-->`, or 0 if none does.
pub open spec fn timing_line_from(ls: Seq<Seq<char>>, k: int) -> int
    decreases ls.len() - k,
{
    if k < 0 || k >= ls.len() {
        0
    } else if contains(ls[k], cue_arrow()) {
        k
    } else {
        timing_line_from(ls, k + 1)
    }
}

/// One WebVTT block read into a cue: the timing line is the first line that
/// holds `-->` (or the first line), the text the lines after it, and a line
/// before it is the cue identifier.
pub open spec fn vtt_cue(block: Seq<char>) -> Option<VttCue> {
    let ls = lines(block);
    if ls.len() == 0 {
        None
    } else {
        let p = timing_line_from(ls, 0);
        match timing_value(trim(ls[p]), '.') {
            None => None,
            Some((s, e)) => Some(
                VttCue {
                    start_ms: s,
                    end_ms: e,
                    text: join(ls.skip(p + 1), newline()),
                    cue_id: if p > 0 {
                        Some(trim(ls[0]))
                    } else {
                        None
                    },
                },
            ),
        }
    }
}

/// The blocks of a WebVTT file, without a first block that starts with `WEBVTT`.
pub open spec fn vtt_blocks(input: Seq<char>) -> Seq<Seq<char>> {
    let b = split_blank(trim_start(input));
    if starts_with(b[0], webvtt()) {
        b.drop_first()
    } else {
        b
    }
}

/// The WebVTT cues of a file before they are numbered.
pub open spec fn vtt_raw_cues(input: Seq<char>) -> Seq<VttCue> {
    vtt_blocks(input).filter_map(|b: Seq<char>| vtt_cue(b))
}

/// A WebVTT cue numbered `i + 1`, its identifier kept as `cue_id` metadata.
pub open spec fn vtt_numbered(i: int, c: VttCue) -> Cue {
    Cue {
        index: i + 1,
        start_ms: c.start_ms,
        end_ms: c.end_ms,
        text: c.text,
        meta: match c.cue_id {
            Some(id) => Map::empty().insert(cue_id_key(), id),
            None => Map::empty(),
        },
    }
}

/// The cues of a WebVTT file, numbered from 1 in order.
pub open spec fn vtt_cues(input: Seq<char>) -> Seq<Cue> {
    let r = vtt_raw_cues(input);
    Seq::new(r.len(), |i: int| vtt_numbered(i, r[i]))
}

/// The text of a cue block: number, timing line, text.
pub open spec fn block_text(number: nat, c: Cue, frac_sep: char) -> Seq<char> {
    decimal(number) + newline() + timing_text(c.start_ms as nat, c.end_ms as nat, frac_sep)
        + newline() + c.text
}

/// A blank line between blocks.
pub open spec fn blank_sep() -> Seq<char> {
    seq!['\n', '\n']
}

/// An SRT file of the cues: blocks numbered from 1 in order.
pub open spec fn srt_text(cues: Seq<Cue>) -> Seq<char> {
    join(Seq::new(cues.len(), |i: int| block_text((i + 1) as nat, cues[i], ',')), blank_sep())
}

/// A WebVTT file of the cues: the header, then blocks under the cues' own numbers.
pub open spec fn vtt_text(cues: Seq<Cue>) -> Seq<char> {
    webvtt() + blank_sep() + join(
        Seq::new(cues.len(), |i: int| block_text(cues[i].index as nat, cues[i], '.')),
        blank_sep(),
    )
}

// ── lemmas ───────────────────────────────────────────────────────────────

/// What `filter_map` keeps of a prefix is a prefix of what it keeps of the whole.
pub proof fn lemma_filter_map_prefix<A, B>(s: Seq<A>, f: spec_fn(A) -> Option<B>, k: int)
    requires
        0 <= k <= s.len(),
    ensures
        s.take(k).filter_map(f).len() <= s.filter_map(f).len(),
        forall|i: int|
            0 <= i < s.take(k).filter_map(f).len() ==> s.take(k).filter_map(f)[i] == #[trigger] s.filter_map(
                f,
            )[i],
    decreases s.len(),
{
    if k < s.len() {
        assert(s.drop_last().take(k) =~= s.take(k));
        lemma_filter_map_prefix(s.drop_last(), f, k);
    } else {
        assert(s.take(k) =~= s);
    }
}

/// Cue text that comes back unchanged from a file: not empty, no blank line,
/// no `\r\n`, and no newline at its start or end.
pub open spec fn clean_text(t: Seq<char>) -> bool {
    &&& t.len() > 0
    &&& t[0] != '\n'
    &&& !has_blank(t)
    &&& line_clean(t)
}

/// Two pieces, neither with a blank line and without a newline on both sides
/// of the seam, make a text without a blank line.
pub proof fn lemma_no_blank_concat(x: Seq<char>, y: Seq<char>)
    requires
        !has_blank(x),
        !has_blank(y),
        x.len() > 0 && y.len() > 0 ==> !(x.last() == '\n' && y[0] == '\n'),
    ensures
        !has_blank(x + y),
{
    let s = x + y;
    assert forall|i: int| !pair_at(s, i, '\n', '\n') by {
        if pair_at(s, i, '\n', '\n') {
            if i + 1 < x.len() {
                assert(pair_at(x, i, '\n', '\n'));
            } else if i >= x.len() {
                assert(pair_at(y, i - x.len(), '\n', '\n'));
            } else {
                assert(s[i] == x.last());
                assert(s[i + 1] == y[0]);
            }
        }
    }
}

/// Text without a newline has no blank line.
proof fn lemma_no_newline_no_blank(x: Seq<char>)
    requires
        no_sep(x, sep_fn(Some('\n'))),
    ensures
        !has_blank(x),
{
    assert forall|i: int| !pair_at(x, i, '\n', '\n') by {
        if 0 <= i < x.len() {
            assert(!(sep_fn(Some('\n')))(x[i]));
        }
    }
}

/// The timing line holds no newline and starts and ends with a digit.
proof fn lemma_timing_text_chars(start: nat, end: nat, frac_sep: char)
    requires
        frac_sep != '\n',
        frac_sep != '-',
    ensures
        no_sep(timing_text(start, end, frac_sep), sep_fn(Some('\n'))),
        timing_text(start, end, frac_sep).len() > 0,
        is_digit(timing_text(start, end, frac_sep)[0]),
        is_digit(timing_text(start, end, frac_sep).last()),
{
    let a = ts_text(start, frac_sep);
    let b = ts_text(end, frac_sep);
    let t = timing_text(start, end, frac_sep);
    assert forall|i: int| 0 <= i < t.len() implies !(sep_fn(Some('\n')))(#[trigger] t[i]) by {
        if i < a.len() {
            lemma_ts_no_dash(start, frac_sep, i);
            assert(t[i] == a[i]);
        } else if i >= a.len() + 5 {
            lemma_ts_no_dash(end, frac_sep, i - a.len() - 5);
            assert(t[i] == b[i - a.len() - 5]);
        }
    }
    lemma_ts_no_dash(start, frac_sep, 0);
    lemma_ts_no_dash(end, frac_sep, b.len() - 1);
    crate::number::lemma_padded_value(start / 3_600_000, 2);
    crate::number::lemma_padded_value(end % 1_000, 3);
    assert(t[0] == a[0]);
    assert(t.last() == b.last());
    let pl = crate::number::padded_decimal(end % 1_000, 3);
    assert(b.last() == pl.last());
    assert(is_digit(pl[pl.len() - 1]));
    let ph = crate::number::padded_decimal(start / 3_600_000, 2);
    assert(a[0] == ph[0]);
    assert(is_digit(ph[0]));
}

/// The parts of a written block.
proof fn lemma_block_parts(number: nat, c: Cue, frac_sep: char)
    requires
        clean_text(c.text),
        frac_sep != '\n',
        frac_sep != '-',
    ensures
        lines(block_text(number, c, frac_sep)).len() >= 3,
        lines(block_text(number, c, frac_sep))[0] == decimal(number),
        lines(block_text(number, c, frac_sep))[1] == timing_text(
            c.start_ms as nat,
            c.end_ms as nat,
            frac_sep,
        ),
        join(lines(block_text(number, c, frac_sep)).skip(2), newline()) == c.text,
        trim(decimal(number)) == decimal(number),
        trim(timing_text(c.start_ms as nat, c.end_ms as nat, frac_sep)) == timing_text(
            c.start_ms as nat,
            c.end_ms as nat,
            frac_sep,
        ),
        !contains(decimal(number), cue_arrow()),
        block_text(number, c, frac_sep).len() > 0,
        !has_blank(block_text(number, c, frac_sep)),
        block_text(number, c, frac_sep).last() == c.text.last(),
{
    let d = decimal(number);
    let t = timing_text(c.start_ms as nat, c.end_ms as nat, frac_sep);
    let x = c.text;
    let nl = sep_fn(Some('\n'));
    lemma_decimal_value(number);
    lemma_timing_text_chars(c.start_ms as nat, c.end_ms as nat, frac_sep);
    assert forall|i: int| 0 <= i < d.len() implies !nl(#[trigger] d[i]) by {
        assert(is_digit(d[i]));
    }
    let block = block_text(number, c, frac_sep);
    assert(block =~= d + seq!['\n'] + (t + seq!['\n'] + x));
    lemma_lines_cons(d, t + seq!['\n'] + x);
    lemma_lines_cons(t, x);
    lemma_lines_clean(x);
    assert(is_digit(d[d.len() - 1]));
    assert(strip_cr(d) == d);
    assert(strip_cr(t) == t);
    let ls = lines(block);
    assert(ls =~= seq![d] + (seq![t] + lines(x)));
    assert(ls.skip(2) =~= lines(x));
    assert(is_digit(d[0]));
    lemma_trim_unchanged(d);
    lemma_trim_unchanged(t);
    assert forall|i: int| !occurs_at(d, cue_arrow(), i) by {
        if occurs_at(d, cue_arrow(), i) {
            assert(d.subrange(i, i + 3)[0] == '-');
            assert(is_digit(d[i]));
        }
    }
    // no blank line in the block
    lemma_no_newline_no_blank(d);
    lemma_no_newline_no_blank(t);
    assert forall|i: int| !pair_at(seq!['\n'], i, '\n', '\n') by {}
    lemma_no_blank_concat(d, seq!['\n']);
    lemma_no_blank_concat(d + seq!['\n'], t);
    lemma_no_blank_concat(d + seq!['\n'] + t, seq!['\n']);
    lemma_no_blank_concat(d + seq!['\n'] + t + seq!['\n'], x);
    assert(block =~= d + seq!['\n'] + t + seq!['\n'] + x);
}

/// A written block is non-empty, has no blank line, starts with its number's
/// first digit and ends with its text's last character.
pub proof fn lemma_block_facts(number: nat, c: Cue, frac_sep: char)
    requires
        clean_text(c.text),
        frac_sep != '\n',
        frac_sep != '-',
    ensures
        block_text(number, c, frac_sep).len() > 0,
        !has_blank(block_text(number, c, frac_sep)),
        block_text(number, c, frac_sep).last() == c.text.last(),
        block_text(number, c, frac_sep)[0] == decimal(number)[0],
{
    lemma_block_parts(number, c, frac_sep);
    lemma_decimal_value(number);
}

/// A written SRT block reads back into its cue.
pub proof fn lemma_srt_block_roundtrip(number: nat, c: Cue)
    requires
        clean_text(c.text),
        1 <= number <= u32_max(),
        0 <= c.start_ms <= u64_max(),
        0 <= c.end_ms <= u64_max(),
    ensures
        srt_cue(block_text(number, c, ',')) == Some(
            Cue { index: number as int, meta: Map::empty(), ..c },
        ),
{
    lemma_block_parts(number, c, ',');
    lemma_parse_decimal(number, u32_max());
    lemma_timing_roundtrip(c.start_ms as nat, c.end_ms as nat, ',');
}

proof fn lemma_timing_line_second(ls: Seq<Seq<char>>)
    requires
        ls.len() >= 2,
        !contains(ls[0], cue_arrow()),
        contains(ls[1], cue_arrow()),
    ensures
        timing_line_from(ls, 0) == 1,
{
    assert(timing_line_from(ls, 1) == 1);
}

proof fn lemma_timing_text_has_arrow(start: nat, end: nat, frac_sep: char)
    ensures
        contains(timing_text(start, end, frac_sep), cue_arrow()),
{
    let t = timing_text(start, end, frac_sep);
    let a = ts_text(start, frac_sep);
    let p: int = a.len() as int + 1;
    assert(t.subrange(p, p + 3) =~= cue_arrow());
    assert(occurs_at(t, cue_arrow(), p));
}

/// A written WebVTT block reads back into its cue, its number as the cue identifier.
#[verifier::rlimit(30)]
pub proof fn lemma_vtt_block_roundtrip(number: nat, c: Cue)
    requires
        clean_text(c.text),
        0 <= c.start_ms <= u64_max(),
        0 <= c.end_ms <= u64_max(),
    ensures
        vtt_cue(block_text(number, c, '.')) == Some(
            VttCue {
                start_ms: c.start_ms,
                end_ms: c.end_ms,
                text: c.text,
                cue_id: Some(decimal(number)),
            },
        ),
{
    let t = timing_text(c.start_ms as nat, c.end_ms as nat, '.');
    let ls = lines(block_text(number, c, '.'));
    lemma_block_parts(number, c, '.');
    lemma_timing_roundtrip(c.start_ms as nat, c.end_ms as nat, '.');
    lemma_timing_text_has_arrow(c.start_ms as nat, c.end_ms as nat, '.');
    lemma_timing_line_second(ls);
}

/// When `f` keeps every element, `filter_map` is a map.
pub proof fn lemma_filter_map_all<A, B>(s: Seq<A>, f: spec_fn(A) -> Option<B>)
    requires
        forall|i: int| 0 <= i < s.len() ==> (#[trigger] f(s[i])) is Some,
    ensures
        s.filter_map(f).len() == s.len(),
        forall|i: int| 0 <= i < s.len() ==> Some(#[trigger] s.filter_map(f)[i]) == f(s[i]),
    decreases s.len(),
{
    if s.len() > 0 {
        let t = s.drop_last();
        assert forall|i: int| 0 <= i < t.len() implies (#[trigger] f(t[i])) is Some by {
            assert(t[i] == s[i]);
            assert(f(s[i]) is Some);
        }
        lemma_filter_map_all(t, f);
        assert(f(s[s.len() - 1]) is Some);
        assert forall|i: int| 0 <= i < s.len() implies Some(#[trigger] s.filter_map(f)[i]) == f(s[i]) by {
            if i < s.len() - 1 {
                assert(t[i] == s[i]);
                assert(Some(t.filter_map(f)[i]) == f(t[i]));
            }
        }
    }
}

// ── executable helpers ───────────────────────────────────────────────────

/// Appends `cs[a..b]` to `out`.
pub fn push_span(out: &mut Vec<char>, cs: &Vec<char>, a: usize, b: usize)
    requires
        a <= b <= cs@.len(),
    ensures
        final(out)@ == old(out)@ + cs@.subrange(a as int, b as int),
{
    let ghost start = out@;
    let mut i = a;
    while i < b
        invariant
            a <= i <= b <= cs@.len(),
            out@ == start + cs@.subrange(a as int, i as int),
        decreases b - i,
    {
        out.push(cs[i]);
        i = i + 1;
        assert(out@ =~= start + cs@.subrange(a as int, i as int));
    }
}

/// Appends the pieces `spans[from..]` of `cs`, joined by `sep`, to `out`.
pub fn push_joined(out: &mut Vec<char>, cs: &Vec<char>, spans: &Vec<(usize, usize)>, from: usize, sep: char)
    requires
        from <= spans@.len(),
        spans_within(spans@, 0, cs@.len() as int),
    ensures
        final(out)@ == old(out)@ + join(spans_view(cs@, spans@).skip(from as int), seq![sep]),
{
    let ghost start = out@;
    let ghost parts = spans_view(cs@, spans@).skip(from as int);
    let n = spans.len();
    let mut k = from;
    while k < n
        invariant
            from <= k <= n == spans@.len(),
            spans_within(spans@, 0, cs@.len() as int),
            parts == spans_view(cs@, spans@).skip(from as int),
            out@ == start + join(parts.take(k - from), seq![sep]),
        decreases n - k,
    {
        let (a, b) = spans[k];
        proof {
            crate::text::lemma_join_step(parts, seq![sep], k - from);
            assert(parts[k - from] == cs@.subrange(a as int, b as int));
        }
        if k > from {
            out.push(sep);
        }
        push_span(out, cs, a, b);
        proof {
            if k > from {
                assert(out@ =~= start + (join(parts.take(k - from), seq![sep]) + seq![sep] + parts[k
                    - from]));
            } else {
                assert(parts.take(0) =~= Seq::<Seq<char>>::empty());
                assert(out@ =~= start + parts[0]);
            }
        }
        k = k + 1;
    }
    assert(parts.take(n - from) =~= parts);
}

/// The SRT block `cs[a..b]` read into a tile with a fresh id.
pub fn srt_block(cs: &Vec<char>, a: usize, b: usize) -> (r: Option<SubtitleTile>)
    requires
        a <= b <= cs@.len(),
        srt_cue(cs@.subrange(a as int, b as int)) matches Some(c) ==> cue_fits(c),
    ensures
        match srt_cue(cs@.subrange(a as int, b as int)) {
            Some(c) => r matches Some(t) && t@.cue == c,
            None => r is None,
        },
{
    let ghost block = cs@.subrange(a as int, b as int);
    let ls = lines_spans(cs, a, b);
    let ghost lv = spans_view(cs@, ls@);
    if ls.len() < 3 {
        return None;
    }
    let (l0a, l0b) = ls[0];
    let (i0, i1) = trim_span(cs, l0a, l0b);
    assert(lv[0] == cs@.subrange(l0a as int, l0b as int));
    let index = match parse_unsigned_range(cs, i0, i1, 0xffff_ffff) {
        Some(i) => i,
        None => {
            return None;
        },
    };
    let (l1a, l1b) = ls[1];
    let (t0, t1) = trim_span(cs, l1a, l1b);
    assert(lv[1] == cs@.subrange(l1a as int, l1b as int));
    let (start_ms, end_ms) = match timing_span(cs, t0, t1, ',') {
        Some(t) => t,
        None => {
            return None;
        },
    };
    let mut text_chars: Vec<char> = Vec::new();
    proof {
        assert(spans_within(ls@, 0, cs@.len() as int));
    }
    push_joined(&mut text_chars, cs, &ls, 2, '\n');
    assert(text_chars@ =~= join(lv.skip(2), newline()));
    let text = string_from_chars(&text_chars);
    Some(
        SubtitleTile {
            id: new_tile_id(),
            index: index as u32,
            start_ms,
            end_ms,
            text,
            meta: Metadata::new(),
        },
    )
}

/// Whether `cs[lo..hi]` holds `-->`.
fn has_arrow(cs: &Vec<char>, lo: usize, hi: usize) -> (b: bool)
    requires
        lo <= hi <= cs@.len(),
    ensures
        b == contains(cs@.subrange(lo as int, hi as int), cue_arrow()),
{
    let mut arrow: Vec<char> = Vec::new();
    arrow.push('-');
    arrow.push('-');
    arrow.push('>');
    assert(arrow@ =~= cue_arrow());
    let occ = crate::text::first_occurrences(cs, lo, hi, &arrow);
    proof {
        if occ@.len() >= 1 {
            assert(occurs_at(cs@.subrange(lo as int, hi as int), cue_arrow(), occ@[0] as int));
        }
    }
    occ.len() >= 1
}

/// The WebVTT block `cs[a..b]` read into a tile numbered `prev + 1`, with a fresh id.
pub fn vtt_block(cs: &Vec<char>, a: usize, b: usize, prev: u32) -> (r: Option<SubtitleTile>)
    requires
        a <= b <= cs@.len(),
        vtt_cue(cs@.subrange(a as int, b as int)) matches Some(c) ==> c.start_ms <= u64_max()
            && c.end_ms <= u64_max() && prev < u32_max(),
    ensures
        match vtt_cue(cs@.subrange(a as int, b as int)) {
            Some(c) => r matches Some(t) && t@.cue == vtt_numbered(prev as int, c),
            None => r is None,
        },
{
    let ghost block = cs@.subrange(a as int, b as int);
    let ls = lines_spans(cs, a, b);
    let ghost lv = spans_view(cs@, ls@);
    if ls.len() == 0 {
        return None;
    }
    let n = ls.len();
    let mut p: usize = 0;
    let mut found = false;
    while p < n && !found
        invariant
            n == ls@.len(),
            p <= n,
            lv == spans_view(cs@, ls@),
            spans_within(ls@, a as int, b as int),
            b <= cs@.len(),
            found ==> p < n && contains(lv[p as int], cue_arrow()) && timing_line_from(lv, 0)
                == p,
            !found ==> timing_line_from(lv, 0) == timing_line_from(lv, p as int),
        decreases n - p + (if found { 0int } else { 1 }),
    {
        let (la, lb) = ls[p];
        assert(lv[p as int] == cs@.subrange(la as int, lb as int));
        if has_arrow(cs, la, lb) {
            found = true;
        } else {
            p = p + 1;
        }
    }
    if !found {
        p = 0;
    }
    assert(timing_line_from(lv, 0) == p);
    let (la, lb) = ls[p];
    assert(lv[p as int] == cs@.subrange(la as int, lb as int));
    let (t0, t1) = trim_span(cs, la, lb);
    let (start_ms, end_ms) = match timing_span(cs, t0, t1, '.') {
        Some(t) => t,
        None => {
            return None;
        },
    };
    let mut text_chars: Vec<char> = Vec::new();
    push_joined(&mut text_chars, cs, &ls, p + 1, '\n');
    assert(text_chars@ =~= join(lv.skip(p + 1), newline()));
    let text = string_from_chars(&text_chars);
    let mut meta = Metadata::new();
    if p > 0 {
        let (l0a, l0b) = ls[0];
        assert(lv[0] == cs@.subrange(l0a as int, l0b as int));
        let (i0, i1) = trim_span(cs, l0a, l0b);
        let mut id_chars: Vec<char> = Vec::new();
        push_span(&mut id_chars, cs, i0, i1);
        assert(id_chars@ =~= cs@.subrange(i0 as int, i1 as int));
        let mut key_chars: Vec<char> = Vec::new();
        key_chars.push('c');
        key_chars.push('u');
        key_chars.push('e');
        key_chars.push('_');
        key_chars.push('i');
        key_chars.push('d');
        assert(key_chars@ =~= cue_id_key());
        meta.insert(string_from_chars(&key_chars), string_from_chars(&id_chars));
    }
    Some(SubtitleTile { id: new_tile_id(), index: prev + 1, start_ms, end_ms, text, meta })
}

} // verus!
