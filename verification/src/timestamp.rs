//! Timestamps: `HH:MM:SS,mmm` (SRT) and `HH:MM:SS.mmm` (VTT), read into
//! milliseconds and written back from them.
use vstd::prelude::*;
use crate::number::{
    all_digits, is_digit, lemma_padded_value, lemma_parse_padded, padded_decimal, parse_unsigned,
    parse_unsigned_range, push_padded_decimal,
};
use crate::text::{
    chars_of, first_occurrences, is_ws, lemma_split_by_sep, lemma_split_by_whole,
    lemma_trim_space_after, lemma_trim_space_before, no_sep, occurs_at, sep_fn, spans_view,
    spans_within, split_on, split_spans, trim, trim_span,
};

verus! {

/// The largest value of a `u64`, as a mathematical integer.
pub open spec fn u64_max() -> nat {
    0xffff_ffff_ffff_ffffnat
}

/// What a timestamp `ts` stands for in milliseconds, `frac_sep` separating
/// the milliseconds: `H:M:S` or `M:S` before it (the parts that do not read
/// as a number are left out), the milliseconds after it, 0 for what is missing.
pub open spec fn ts_value(ts: Seq<char>, frac_sep: char) -> int {
    let main = split_on(ts, frac_sep);
    let ms: int = if main.len() > 1 {
        match parse_unsigned(main[1], u64_max()) {
            Some(v) => v as int,
            None => 0,
        }
    } else {
        0
    };
    let parts = split_on(main[0], ':').filter_map(|p: Seq<char>| parse_unsigned(p, u64_max()));
    if parts.len() == 3 {
        parts[0] * 3600000 + parts[1] * 60000 + parts[2] * 1000 + ms
    } else if parts.len() == 2 {
        parts[0] * 60000 + parts[1] * 1000 + ms
    } else {
        ms
    }
}

/// The separator between the two times of a cue.
pub open spec fn cue_arrow() -> Seq<char> {
    seq!['-', '-', '>']
}

/// `line` holds the arrow `-->` exactly once, at `p`.
pub open spec fn single_arrow_at(line: Seq<char>, p: int) -> bool {
    occurs_at(line, cue_arrow(), p) && forall|q: int| occurs_at(line, cue_arrow(), q) ==> q == p
}

/// The start and end of a timing line `START --> END`: `None` unless the
/// line holds the arrow exactly once (so that splitting it at `-->` gives two parts).
pub open spec fn timing_value(line: Seq<char>, frac_sep: char) -> Option<(int, int)> {
    if exists|p: int| single_arrow_at(line, p) {
        let p = choose|p: int| single_arrow_at(line, p);
        Some(
            (
                ts_value(trim(line.take(p)), frac_sep),
                ts_value(trim(line.skip(p + 3)), frac_sep),
            ),
        )
    } else {
        None
    }
}

/// `ms` written as `HH:MM:SS<frac_sep>mmm`, the hours with at least two digits.
pub open spec fn ts_text(ms: nat, frac_sep: char) -> Seq<char> {
    padded_decimal(ms / 3_600_000, 2) + seq![':'] + padded_decimal((ms % 3_600_000) / 60_000, 2)
        + seq![':'] + padded_decimal((ms % 60_000) / 1_000, 2) + seq![frac_sep] + padded_decimal(
        ms % 1_000,
        3,
    )
}

/// `max(v, 0)`.
pub open spec fn clamp_value(v: int) -> nat {
    if v < 0 {
        0
    } else {
        v as nat
    }
}

/// The milliseconds split into hours, minutes, seconds and milliseconds add up again.
proof fn lemma_ts_parts(ms: nat)
    ensures
        ms == (ms / 3_600_000) * 3600000 + ((ms % 3_600_000) / 60_000) * 60000 + ((ms % 60_000)
            / 1_000) * 1000 + ms % 1_000,
{
    let x = ms as int;
    vstd::arithmetic::div_mod::lemma_fundamental_div_mod(x, 3600000);
    let r = x % 3600000;
    vstd::arithmetic::div_mod::lemma_fundamental_div_mod(r, 60000);
    vstd::arithmetic::div_mod::lemma_mod_mod(x, 60000, 60);
    assert(60000 * 60 == 3600000);
    let q = x % 60000;
    vstd::arithmetic::div_mod::lemma_fundamental_div_mod(q, 1000);
    vstd::arithmetic::div_mod::lemma_mod_mod(x, 1000, 60);
    assert(1000 * 60 == 60000);
}

/// A string of digits holds no separator that is not a digit.
proof fn lemma_digits_no_sep(d: Seq<char>, c: char)
    requires
        all_digits(d),
        !is_digit(c),
    ensures
        no_sep(d, sep_fn(Some(c))),
{
    assert forall|i: int| 0 <= i < d.len() implies !(sep_fn(Some(c)))(#[trigger] d[i]) by {
        assert(is_digit(d[i]));
    }
}

/// Reading a written timestamp gives back its milliseconds, for a separator
/// that is neither a digit nor `:`.
pub proof fn lemma_ts_roundtrip(ms: nat, frac_sep: char)
    requires
        ms <= u64_max(),
        !is_digit(frac_sep),
        frac_sep != ':',
    ensures
        ts_value(ts_text(ms, frac_sep), frac_sep) == ms,
{
    let h = ms / 3_600_000;
    let m = (ms % 3_600_000) / 60_000;
    let s = (ms % 60_000) / 1_000;
    let mil = ms % 1_000;
    let ph = padded_decimal(h, 2);
    let pm = padded_decimal(m, 2);
    let ps = padded_decimal(s, 2);
    let pl = padded_decimal(mil, 3);
    lemma_padded_value(h, 2);
    lemma_padded_value(m, 2);
    lemma_padded_value(s, 2);
    lemma_padded_value(mil, 3);
    lemma_parse_padded(h, 2, u64_max());
    lemma_parse_padded(m, 2, u64_max());
    lemma_parse_padded(s, 2, u64_max());
    lemma_parse_padded(mil, 3, u64_max());
    let x = ph + seq![':'] + pm + seq![':'] + ps;
    let ts = ts_text(ms, frac_sep);
    assert(ts =~= x + seq![frac_sep] + pl);
    let fs = sep_fn(Some(frac_sep));
    let fc = sep_fn(Some(':'));
    assert forall|i: int| 0 <= i < x.len() implies !fs(#[trigger] x[i]) by {
        if i < ph.len() {
            assert(is_digit(ph[i]));
        } else if i == ph.len() {
        } else if i < ph.len() + 1 + pm.len() {
            assert(x[i] == pm[i - ph.len() - 1]);
            assert(is_digit(pm[i - ph.len() - 1]));
        } else if i == ph.len() + 1 + pm.len() {
        } else {
            assert(x[i] == ps[i - ph.len() - 2 - pm.len()]);
            assert(is_digit(ps[i - ph.len() - 2 - pm.len()]));
        }
    }
    lemma_split_by_sep(x, frac_sep, pl, fs);
    lemma_digits_no_sep(pl, frac_sep);
    lemma_split_by_whole(pl, fs);
    let main = split_on(ts, frac_sep);
    assert(main =~= seq![x, pl]);
    assert(main[0] == x);
    assert(main[1] == pl);
    // the hours, minutes and seconds
    lemma_digits_no_sep(ph, ':');
    lemma_digits_no_sep(pm, ':');
    lemma_digits_no_sep(ps, ':');
    assert(x =~= ph + seq![':'] + (pm + seq![':'] + ps));
    lemma_split_by_sep(ph, ':', pm + seq![':'] + ps, fc);
    lemma_split_by_sep(pm, ':', ps, fc);
    lemma_split_by_whole(ps, fc);
    let parts = split_on(x, ':');
    assert(parts =~= seq![ph, pm, ps]);
    let f = |p: Seq<char>| parse_unsigned(p, u64_max());
    assert(parts.filter_map(f) =~= seq![h, m, s]) by {
        reveal_with_fuel(Seq::filter_map, 4);
        assert(parts.drop_last() =~= seq![ph, pm]);
        assert(parts.drop_last().drop_last() =~= seq![ph]);
        assert(parts.drop_last().drop_last().drop_last() =~= Seq::<Seq<char>>::empty());
    }
    lemma_ts_parts(ms);
}

/// Timestamps hold no `-`.
pub proof fn lemma_ts_no_dash(ms: nat, frac_sep: char, i: int)
    requires
        frac_sep != '-',
        0 <= i < ts_text(ms, frac_sep).len(),
    ensures
        ts_text(ms, frac_sep)[i] != '-',
        is_digit(ts_text(ms, frac_sep)[i]) || ts_text(ms, frac_sep)[i] == ':' || ts_text(ms, frac_sep)[i]
            == frac_sep,
        !is_ws(ts_text(ms, frac_sep)[0]),
        !is_ws(ts_text(ms, frac_sep).last()),
{
    let ph = padded_decimal(ms / 3_600_000, 2);
    let pm = padded_decimal((ms % 3_600_000) / 60_000, 2);
    let ps = padded_decimal((ms % 60_000) / 1_000, 2);
    let pl = padded_decimal(ms % 1_000, 3);
    lemma_padded_value(ms / 3_600_000, 2);
    lemma_padded_value((ms % 3_600_000) / 60_000, 2);
    lemma_padded_value((ms % 60_000) / 1_000, 2);
    lemma_padded_value(ms % 1_000, 3);
    let t = ts_text(ms, frac_sep);
    assert(t =~= ph + (seq![':'] + (pm + (seq![':'] + (ps + (seq![frac_sep] + pl))))));
    let a = ph.len();
    let b = a + 1 + pm.len();
    let c = b + 1 + ps.len();
    if i < a {
        assert(is_digit(ph[i]));
    } else if i > a && i < b {
        assert(t[i] == pm[i - a - 1]);
        assert(is_digit(pm[i - a - 1]));
    } else if i > b && i < c {
        assert(t[i] == ps[i - b - 1]);
        assert(is_digit(ps[i - b - 1]));
    } else if i > c {
        assert(t[i] == pl[i - c - 1]);
        assert(is_digit(pl[i - c - 1]));
    }
    assert(is_digit(ph[0]));
    assert(t.last() == pl.last());
    assert(is_digit(pl[pl.len() - 1]));
}

/// The timing line of a cue.
pub open spec fn timing_text(start: nat, end: nat, frac_sep: char) -> Seq<char> {
    ts_text(start, frac_sep) + seq![' ', '-', '-', '>', ' '] + ts_text(end, frac_sep)
}

/// Reading a written timing line gives back its start and end.
pub proof fn lemma_timing_roundtrip(start: nat, end: nat, frac_sep: char)
    requires
        start <= u64_max(),
        end <= u64_max(),
        !is_digit(frac_sep),
        frac_sep != ':',
        frac_sep != '-',
    ensures
        timing_value(timing_text(start, end, frac_sep), frac_sep) == Some((start as int, end as int)),
{
    let a = ts_text(start, frac_sep);
    let b = ts_text(end, frac_sep);
    let line = timing_text(start, end, frac_sep);
    let p: int = a.len() as int + 1;
    assert(line.subrange(p, p + 3) =~= cue_arrow());
    assert(occurs_at(line, cue_arrow(), p));
    assert forall|q: int| occurs_at(line, cue_arrow(), q) implies q == p by {
        assert(line.subrange(q, q + 3)[0] == '-');
        assert(line[q] == '-');
        assert(line[q + 1] == '-');
        assert(line[q + 2] == '>');
        if q < a.len() {
            lemma_ts_no_dash(start, frac_sep, q);
            assert(line[q] == a[q]);
        } else if q > p + 1 {
            assert(q >= p + 3);
            lemma_ts_no_dash(end, frac_sep, q - p - 3);
            assert(line[q] == b[q - p - 3]);
        } else if q == p + 1 {
            assert(line[q + 1] == '>');
        } else if q == a.len() {
            assert(line[q] == ' ');
        }
    }
    assert(single_arrow_at(line, p));
    let q = choose|q: int| single_arrow_at(line, q);
    assert(q == p);
    lemma_ts_no_dash(start, frac_sep, 0);
    lemma_ts_no_dash(end, frac_sep, 0);
    assert(line.take(p) =~= a + seq![' ']);
    assert(line.skip(p + 3) =~= seq![' '] + b);
    lemma_trim_space_after(a);
    lemma_trim_space_before(b);
    lemma_ts_roundtrip(start, frac_sep);
    lemma_ts_roundtrip(end, frac_sep);
}

/// The string that holds the characters `v`.
///
/// Trusted: `Iterator::collect` into a `String` (std's `FromIterator<&char>`
/// for `String`) pushes each character in order, so the result's characters
/// are `v`'s.
#[verifier::external_body]
pub(crate) fn string_from_chars(v: &Vec<char>) -> (s: String)
    ensures
        s@ == v@,
{
    v.iter().collect()
}

/// `cs[lo..hi]` read as a timestamp in milliseconds.
pub fn ts_span_to_ms(cs: &Vec<char>, lo: usize, hi: usize, frac_sep: char) -> (r: u64)
    requires
        lo <= hi <= cs@.len(),
        ts_value(cs@.subrange(lo as int, hi as int), frac_sep) <= u64_max(),
    ensures
        r == ts_value(cs@.subrange(lo as int, hi as int), frac_sep),
{
    let ghost ts = cs@.subrange(lo as int, hi as int);
    let main = split_spans(cs, lo, hi, Some(frac_sep));
    let ghost mv = spans_view(cs@, main@);
    let ms: u64 = if main.len() > 1 {
        let (a, b) = main[1];
        assert(mv[1] == cs@.subrange(a as int, b as int));
        match parse_unsigned_range(cs, a, b, 0xffff_ffff_ffff_ffff) {
            Some(v) => v,
            None => 0,
        }
    } else {
        0
    };
    let (a0, b0) = main[0];
    assert(mv[0] == cs@.subrange(a0 as int, b0 as int));
    let parts = split_spans(cs, a0, b0, Some(':'));
    let ghost pv = spans_view(cs@, parts@);
    let ghost f = |p: Seq<char>| parse_unsigned(p, u64_max());
    let mut vals: Vec<u64> = Vec::new();
    let mut k: usize = 0;
    while k < parts.len()
        invariant
            k <= parts@.len(),
            pv == spans_view(cs@, parts@),
            f == (|p: Seq<char>| parse_unsigned(p, u64_max())),
            spans_within(parts@, a0 as int, b0 as int),
            b0 <= cs@.len(),
            vals@.map_values(|v: u64| v as nat) == pv.take(k as int).filter_map(f),
        decreases parts@.len() - k,
    {
        let (a, b) = parts[k];
        let ghost old_vals = vals@;
        let got = parse_unsigned_range(cs, a, b, 0xffff_ffff_ffff_ffff);
        proof {
            pv.lemma_filter_map_take_succ(f, k as int);
            assert(pv[k as int] == cs@.subrange(a as int, b as int));
        }
        match got {
            Some(v) => {
                vals.push(v);
                assert(vals@.map_values(|v: u64| v as nat) =~= old_vals.map_values(
                    |v: u64| v as nat,
                ) + seq![v as nat]);
            },
            None => {},
        }
        k = k + 1;
    }
    proof {
        assert(pv.take(parts@.len() as int) =~= pv);
        let nv = vals@.map_values(|v: u64| v as nat);
        assert(nv.len() == vals@.len());
        if vals@.len() >= 1 {
            assert(nv[0] == vals@[0] as nat);
        }
        if vals@.len() >= 2 {
            assert(nv[1] == vals@[1] as nat);
        }
        if vals@.len() >= 3 {
            assert(nv[2] == vals@[2] as nat);
        }
    }
    if vals.len() == 3 {
        vals[0] * 3600000 + vals[1] * 60000 + vals[2] * 1000 + ms
    } else if vals.len() == 2 {
        vals[0] * 60000 + vals[1] * 1000 + ms
    } else {
        ms
    }
}

/// The arrow `-->` as characters.
fn arrow_chars() -> (v: Vec<char>)
    ensures
        v@ == cue_arrow(),
{
    let mut v: Vec<char> = Vec::new();
    v.push('-');
    v.push('-');
    v.push('>');
    assert(v@ =~= cue_arrow());
    v
}

/// The timing line `cs[lo..hi]` read into its start and end in milliseconds.
pub fn timing_span(cs: &Vec<char>, lo: usize, hi: usize, frac_sep: char) -> (r: Option<(u64, u64)>)
    requires
        lo <= hi <= cs@.len(),
        timing_value(cs@.subrange(lo as int, hi as int), frac_sep) matches Some((s, e)) ==> s
            <= u64_max() && e <= u64_max(),
    ensures
        match timing_value(cs@.subrange(lo as int, hi as int), frac_sep) {
            Some((s, e)) => r == Some((s as u64, e as u64)),
            None => r is None,
        },
{
    let ghost line = cs@.subrange(lo as int, hi as int);
    let arrow = arrow_chars();
    let occ = first_occurrences(cs, lo, hi, &arrow);
    if occ.len() != 1 {
        proof {
            if exists|p: int| single_arrow_at(line, p) {
                let p = choose|p: int| single_arrow_at(line, p);
                assert(occurs_at(line, cue_arrow(), p));
                if occ@.len() == 2 {
                    assert(occurs_at(line, cue_arrow(), occ@[0] as int));
                    assert(occurs_at(line, cue_arrow(), occ@[1] as int));
                }
            }
        }
        return None;
    }
    let p = occ[0];
    proof {
        assert(occurs_at(line, cue_arrow(), p as int));
        assert(single_arrow_at(line, p as int));
    }
    let (a, b) = trim_span(cs, lo, lo + p);
    let (c, d) = trim_span(cs, lo + p + 3, hi);
    proof {
        let q = choose|q: int| single_arrow_at(line, q);
        assert(q == p);
        assert(line.take(p as int) =~= cs@.subrange(lo as int, lo + p));
        assert(line.skip(p + 3) =~= cs@.subrange(lo + p + 3, hi as int));
    }
    let start = ts_span_to_ms(cs, a, b, frac_sep);
    let end = ts_span_to_ms(cs, c, d, frac_sep);
    Some((start, end))
}

/// Appends the timestamp text of `ms` to `out`.
pub fn push_ts(out: &mut Vec<char>, ms: u64, frac_sep: char)
    ensures
        final(out)@ == old(out)@ + ts_text(ms as nat, frac_sep),
{
    let h = ms / 3_600_000;
    let m = (ms % 3_600_000) / 60_000;
    let s = (ms % 60_000) / 1_000;
    let mil = ms % 1_000;
    push_padded_decimal(out, h, 2);
    out.push(':');
    push_padded_decimal(out, m, 2);
    out.push(':');
    push_padded_decimal(out, s, 2);
    out.push(frac_sep);
    push_padded_decimal(out, mil, 3);
    assert(out@ =~= old(out)@ + ts_text(ms as nat, frac_sep));
}

/// `max(v, 0)` as an unsigned number.
pub fn clamp(v: i64) -> (r: u64)
    ensures
        r == clamp_value(v as int),
{
    if v < 0 {
        0
    } else {
        v as u64
    }
}

/// Reads a timestamp (`H:M:S` or `M:S`, then `frac_sep` and milliseconds) into milliseconds.
pub fn ts_to_ms(ts: &str, frac_sep: char) -> (r: u64)
    requires
        ts_value(ts@, frac_sep) <= u64_max(),
    ensures
        r == ts_value(ts@, frac_sep),
{
    let cs = chars_of(ts);
    assert(cs@.subrange(0, cs@.len() as int) =~= cs@);
    ts_span_to_ms(&cs, 0, cs.len(), frac_sep)
}

/// Reads an SRT timing line `00:01:23,456 --> 00:02:34,567`.
pub fn parse_srt_timestamp(line: &str) -> (r: Option<(u64, u64)>)
    requires
        timing_value(line@, ',') matches Some((s, e)) ==> s <= u64_max() && e <= u64_max(),
    ensures
        match timing_value(line@, ',') {
            Some((s, e)) => r == Some((s as u64, e as u64)),
            None => r is None,
        },
{
    let cs = chars_of(line);
    assert(cs@.subrange(0, cs@.len() as int) =~= cs@);
    timing_span(&cs, 0, cs.len(), ',')
}

/// Reads a VTT timing line `00:01:23.456 --> 00:02:34.567`.
pub fn parse_vtt_timestamp(line: &str) -> (r: Option<(u64, u64)>)
    requires
        timing_value(line@, '.') matches Some((s, e)) ==> s <= u64_max() && e <= u64_max(),
    ensures
        match timing_value(line@, '.') {
            Some((s, e)) => r == Some((s as u64, e as u64)),
            None => r is None,
        },
{
    let cs = chars_of(line);
    assert(cs@.subrange(0, cs@.len() as int) =~= cs@);
    timing_span(&cs, 0, cs.len(), '.')
}

/// Writes `ms` as an SRT timestamp `HH:MM:SS,mmm`.
pub fn fmt_srt_ts(ms: u64) -> (r: String)
    ensures
        r@ == ts_text(ms as nat, ','),
{
    let mut out: Vec<char> = Vec::new();
    push_ts(&mut out, ms, ',');
    assert(out@ =~= ts_text(ms as nat, ','));
    string_from_chars(&out)
}

/// Writes `ms` as a VTT timestamp `HH:MM:SS.mmm`.
pub fn fmt_vtt_ts(ms: u64) -> (r: String)
    ensures
        r@ == ts_text(ms as nat, '.'),
{
    let mut out: Vec<char> = Vec::new();
    push_ts(&mut out, ms, '.');
    assert(out@ =~= ts_text(ms as nat, '.'));
    string_from_chars(&out)
}

} // verus!
