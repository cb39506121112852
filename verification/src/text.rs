//! Text primitives over the characters of a string, each stated as what the
//! corresponding `str` method of std does: `trim`, `split`, `lines`,
//! `split_whitespace`, `starts_with`, `contains` and `join`.
//!
//! The executable functions work on a `Vec<char>` of the whole input and on
//! spans `(lo, hi)` of it, so that no piece is copied until it is needed.
use vstd::prelude::*;

verus! {

/// `char::is_whitespace`: the Unicode `White_Space` property.
pub open spec fn is_ws(c: char) -> bool {
    ||| ('\t' <= c && c <= '\r')
    ||| c == ' '
    ||| c == '\u{85}'
    ||| c == '\u{a0}'
    ||| c == '\u{1680}'
    ||| ('\u{2000}' <= c && c <= '\u{200a}')
    ||| c == '\u{2028}'
    ||| c == '\u{2029}'
    ||| c == '\u{202f}'
    ||| c == '\u{205f}'
    ||| c == '\u{3000}'
}

/// `str::trim_start`.
pub open spec fn trim_start(s: Seq<char>) -> Seq<char>
    decreases s.len(),
{
    if s.len() > 0 && is_ws(s[0]) {
        trim_start(s.drop_first())
    } else {
        s
    }
}

/// `str::trim_end`.
pub open spec fn trim_end(s: Seq<char>) -> Seq<char>
    decreases s.len(),
{
    if s.len() > 0 && is_ws(s.last()) {
        trim_end(s.drop_last())
    } else {
        s
    }
}

/// `str::trim`.
pub open spec fn trim(s: Seq<char>) -> Seq<char> {
    trim_end(trim_start(s))
}

/// `str::starts_with` with a string pattern.
pub open spec fn starts_with(s: Seq<char>, p: Seq<char>) -> bool {
    p.len() <= s.len() && s.take(p.len() as int) == p
}

/// `p` occurs in `s` at position `i`.
pub open spec fn occurs_at(s: Seq<char>, p: Seq<char>, i: int) -> bool {
    0 <= i && i + p.len() <= s.len() && s.subrange(i, i + p.len()) == p
}

/// `str::contains` with a string pattern.
pub open spec fn contains(s: Seq<char>, p: Seq<char>) -> bool {
    exists|i: int| occurs_at(s, p, i)
}

/// `str::split("\n\n")`: the pieces between the occurrences of a blank line
/// separator, found from the left without overlap.
pub open spec fn split_blank(s: Seq<char>) -> Seq<Seq<char>>
    decreases s.len(),
{
    if s.len() < 2 {
        seq![s]
    } else if s[0] == '\n' && s[1] == '\n' {
        seq![Seq::<char>::empty()] + split_blank(s.skip(2))
    } else {
        prepend(seq![s[0]], split_blank(s.skip(1)))
    }
}

/// `c` put in front of the first piece of `r`.
pub open spec fn prepend(c: Seq<char>, r: Seq<Seq<char>>) -> Seq<Seq<char>> {
    r.update(0, c + r[0])
}

/// `str::split` with a separator given as a predicate on characters.
pub open spec fn split_by(s: Seq<char>, sep: spec_fn(char) -> bool) -> Seq<Seq<char>>
    decreases s.len(),
{
    if s.len() == 0 {
        seq![Seq::<char>::empty()]
    } else {
        let r = split_by(s.drop_last(), sep);
        if sep(s.last()) {
            r.push(Seq::<char>::empty())
        } else {
            r.update(r.len() - 1, r.last().push(s.last()))
        }
    }
}

/// The separator predicate of a split: one character, or (for `None`) any whitespace.
pub open spec fn sep_fn(sep: Option<char>) -> spec_fn(char) -> bool {
    match sep {
        Some(c) => |x: char| x == c,
        None => |x: char| is_ws(x),
    }
}

/// `str::split(c)` with a character pattern.
pub open spec fn split_on(s: Seq<char>, c: char) -> Seq<Seq<char>> {
    split_by(s, sep_fn(Some(c)))
}

/// `str::split_whitespace`: the non-empty runs of non-whitespace characters.
pub open spec fn words(s: Seq<char>) -> Seq<Seq<char>> {
    split_by(s, sep_fn(None)).filter(|w: Seq<char>| w.len() > 0)
}

/// A line without the `\r` of a `\r\n` line ending.
pub open spec fn strip_cr(l: Seq<char>) -> Seq<char> {
    if l.len() > 0 && l.last() == '\r' {
        l.drop_last()
    } else {
        l
    }
}

/// `str::lines`: the pieces between `\n`s, those ended by a `\n` without a
/// `\r` before it, and no empty last piece after a final `\n`.
pub open spec fn lines(s: Seq<char>) -> Seq<Seq<char>> {
    let p = split_on(s, '\n');
    let body = p.drop_last().map_values(|l: Seq<char>| strip_cr(l));
    if p.last().len() == 0 {
        body
    } else {
        body.push(p.last())
    }
}

/// `[&str]::join(sep)`.
pub open spec fn join(parts: Seq<Seq<char>>, sep: Seq<char>) -> Seq<char>
    decreases parts.len(),
{
    if parts.len() == 0 {
        Seq::empty()
    } else if parts.len() == 1 {
        parts[0]
    } else {
        join(parts.drop_last(), sep) + sep + parts.last()
    }
}

/// How many bytes UTF-8 takes for `c`.
pub open spec fn utf8_len(c: char) -> nat {
    if (c as u32) < 0x80 {
        1
    } else if (c as u32) < 0x800 {
        2
    } else if (c as u32) < 0x10000 {
        3
    } else {
        4
    }
}

/// The length in bytes of the UTF-8 encoding of `s` (what `str::len` gives).
pub open spec fn byte_len(s: Seq<char>) -> nat
    decreases s.len(),
{
    if s.len() == 0 {
        0
    } else {
        byte_len(s.drop_last()) + utf8_len(s.last())
    }
}

/// The pieces of `s` that a list of spans marks.
pub open spec fn spans_view(s: Seq<char>, spans: Seq<(usize, usize)>) -> Seq<Seq<char>> {
    spans.map_values(|p: (usize, usize)| s.subrange(p.0 as int, p.1 as int))
}

/// Every span lies within `lo..hi` and is ordered.
pub open spec fn spans_within(spans: Seq<(usize, usize)>, lo: int, hi: int) -> bool {
    forall|k: int|
        0 <= k < spans.len() ==> lo <= (#[trigger] spans[k]).0 <= spans[k].1 <= hi
}

// ── lemmas ───────────────────────────────────────────────────────────────

pub proof fn lemma_split_blank_nonempty(s: Seq<char>)
    ensures
        split_blank(s).len() >= 1,
    decreases s.len(),
{
    if s.len() >= 2 {
        if s[0] == '\n' && s[1] == '\n' {
            lemma_split_blank_nonempty(s.skip(2));
        } else {
            lemma_split_blank_nonempty(s.skip(1));
        }
    }
}

pub proof fn lemma_split_by_nonempty(s: Seq<char>, sep: spec_fn(char) -> bool)
    ensures
        split_by(s, sep).len() >= 1,
    decreases s.len(),
{
    if s.len() > 0 {
        lemma_split_by_nonempty(s.drop_last(), sep);
    }
}

pub proof fn lemma_join_step(parts: Seq<Seq<char>>, sep: Seq<char>, i: int)
    requires
        0 <= i < parts.len(),
    ensures
        join(parts.take(i + 1), sep) == if i == 0 {
            parts[0]
        } else {
            join(parts.take(i), sep) + sep + parts[i]
        },
{
    assert(parts.take(i + 1).drop_last() =~= parts.take(i));
}

pub proof fn lemma_byte_len_concat(a: Seq<char>, b: Seq<char>)
    ensures
        byte_len(a + b) == byte_len(a) + byte_len(b),
    decreases b.len(),
{
    if b.len() > 0 {
        assert((a + b).drop_last() =~= a + b.drop_last());
        lemma_byte_len_concat(a, b.drop_last());
    } else {
        assert(a + b =~= a);
    }
}

pub proof fn lemma_byte_len_split(s: Seq<char>, x: int, y: int, z: int)
    requires
        0 <= x <= y <= z <= s.len(),
    ensures
        byte_len(s.subrange(x, z)) == byte_len(s.subrange(x, y)) + byte_len(s.subrange(y, z)),
{
    assert(s.subrange(x, z) =~= s.subrange(x, y) + s.subrange(y, z));
    lemma_byte_len_concat(s.subrange(x, y), s.subrange(y, z));
}

pub proof fn lemma_byte_len_at_least_len(s: Seq<char>)
    ensures
        byte_len(s) >= s.len(),
    decreases s.len(),
{
    if s.len() > 0 {
        lemma_byte_len_at_least_len(s.drop_last());
    }
}

/// No character of `s` is a separator.
pub open spec fn no_sep(s: Seq<char>, sep: spec_fn(char) -> bool) -> bool {
    forall|i: int| 0 <= i < s.len() ==> !sep(#[trigger] s[i])
}

/// Text without a separator is one piece.
pub proof fn lemma_split_by_whole(s: Seq<char>, sep: spec_fn(char) -> bool)
    requires
        no_sep(s, sep),
    ensures
        split_by(s, sep) == seq![s],
    decreases s.len(),
{
    if s.len() > 0 {
        assert(!sep(s[s.len() - 1]));
        lemma_split_by_whole(s.drop_last(), sep);
        assert(s.drop_last().push(s.last()) =~= s);
        let r = split_by(s.drop_last(), sep);
        assert(split_by(s, sep) == r.update(r.len() - 1, r.last().push(s.last())));
        assert(r == seq![s.drop_last()]);
        assert(r.len() == 1);
        assert(r.last() == s.drop_last());
        assert(split_by(s, sep).len() == 1);
        assert(split_by(s, sep)[0] == s.drop_last().push(s.last()));
        assert(split_by(s, sep)[0] == s);
        assert(split_by(s, sep) =~= seq![s]);
    } else {
        assert(s =~= Seq::<char>::empty());
    }
}

/// A separator after a piece without one splits off that piece.
pub proof fn lemma_split_by_sep(a: Seq<char>, c: char, b: Seq<char>, sep: spec_fn(char) -> bool)
    requires
        no_sep(a, sep),
        sep(c),
    ensures
        split_by(a + seq![c] + b, sep) == seq![a] + split_by(b, sep),
    decreases b.len(),
{
    let s = a + seq![c] + b;
    if b.len() == 0 {
        assert(s.drop_last() =~= a);
        lemma_split_by_whole(a, sep);
        assert(split_by(s, sep) =~= seq![a] + split_by(b, sep));
    } else {
        assert(s.drop_last() =~= a + seq![c] + b.drop_last());
        lemma_split_by_sep(a, c, b.drop_last(), sep);
        lemma_split_by_nonempty(b.drop_last(), sep);
        let r = split_by(b.drop_last(), sep);
        if sep(b.last()) {
            assert(split_by(s, sep) =~= seq![a] + split_by(b, sep));
        } else {
            assert((seq![a] + r).update(r.len() as int, (seq![a] + r).last().push(b.last())) =~= seq![a]
                + r.update(r.len() - 1, r.last().push(b.last())));
            assert(split_by(s, sep) =~= seq![a] + split_by(b, sep));
        }
    }
}

/// The last piece of a split is a suffix of the text.
pub proof fn lemma_split_by_last_suffix(s: Seq<char>, sep: spec_fn(char) -> bool)
    ensures
        split_by(s, sep).len() >= 1,
        split_by(s, sep).last().len() <= s.len(),
        s.skip(s.len() - split_by(s, sep).last().len()) == split_by(s, sep).last(),
    decreases s.len(),
{
    lemma_split_by_nonempty(s, sep);
    if s.len() == 0 {
        assert(s.skip(0) =~= split_by(s, sep).last());
    } else {
        lemma_split_by_last_suffix(s.drop_last(), sep);
        let r = split_by(s.drop_last(), sep);
        if sep(s.last()) {
            assert(s.skip(s.len() as int) =~= Seq::<char>::empty());
        } else {
            let l = r.last();
            let t = s.drop_last();
            assert(t.skip(t.len() - l.len()) == l);
            assert(s.skip(s.len() - (l.len() + 1)) =~= l.push(s.last()));
        }
    }
}

/// `join` of a piece in front of more pieces.
pub proof fn lemma_join_cons(x: Seq<char>, r: Seq<Seq<char>>, sep: Seq<char>)
    ensures
        join(seq![x] + r, sep) == if r.len() == 0 {
            x
        } else {
            x + sep + join(r, sep)
        },
    decreases r.len(),
{
    let s = seq![x] + r;
    if r.len() == 1 {
        assert(s.drop_last() =~= seq![x]);
        assert(join(seq![x], sep) == x);
        assert(join(r, sep) == r[0]);
    } else if r.len() > 1 {
        assert(s.drop_last() =~= seq![x] + r.drop_last());
        lemma_join_cons(x, r.drop_last(), sep);
        assert(x + sep + join(r.drop_last(), sep) + sep + r.last() =~= x + sep + (join(
            r.drop_last(),
            sep,
        ) + sep + r.last()));
    } else {
        assert(s =~= seq![x]);
    }
}

/// Joining the pieces of a split by their separator gives the text back.
pub proof fn lemma_join_split(t: Seq<char>, c: char)
    ensures
        join(split_on(t, c), seq![c]) == t,
    decreases t.len(),
{
    let f = sep_fn(Some(c));
    lemma_split_by_nonempty(t, f);
    if t.len() == 0 {
        assert(split_on(t, c) == seq![Seq::<char>::empty()]);
        assert(t =~= Seq::<char>::empty());
    } else {
        lemma_join_split(t.drop_last(), c);
        lemma_split_by_nonempty(t.drop_last(), f);
        let r = split_by(t.drop_last(), f);
        if t.last() == c {
            let r2 = r.push(Seq::<char>::empty());
            assert(r2.drop_last() =~= r);
            assert(t =~= t.drop_last() + seq![c] + Seq::<char>::empty());
        } else {
            let r2 = r.update(r.len() - 1, r.last().push(t.last()));
            if r.len() == 1 {
                assert(r.last() =~= t.drop_last());
                assert(t =~= t.drop_last().push(t.last()));
            } else {
                assert(r2.drop_last() =~= r.drop_last());
                assert(join(r, seq![c]) == join(r.drop_last(), seq![c]) + seq![c] + r.last());
                assert(join(r2, seq![c]) == join(r2.drop_last(), seq![c]) + seq![c] + r2.last());
                assert(r2.last() == r.last().push(t.last()));
                assert(t =~= t.drop_last().push(t.last()));
                assert(t =~= join(r.drop_last(), seq![c]) + seq![c] + r.last().push(t.last()));
            }
        }
    }
}

/// `occurs_at` of a two-character pattern.
pub open spec fn pair_at(s: Seq<char>, i: int, a: char, b: char) -> bool {
    0 <= i && i + 1 < s.len() && s[i] == a && s[i + 1] == b
}

/// `s` holds the two characters `a` `b` one after the other.
pub open spec fn has_pair(s: Seq<char>, a: char, b: char) -> bool {
    exists|i: int| pair_at(s, i, a, b)
}

/// Text that lines give back unchanged: no `\r\n` and no final `\n`.
pub open spec fn line_clean(t: Seq<char>) -> bool {
    &&& !has_pair(t, '\r', '\n')
    &&& (t.len() > 0 ==> t.last() != '\n')
}

/// Clean text is the join of its lines, of which there is one at least when it is non-empty.
pub proof fn lemma_lines_clean(t: Seq<char>)
    requires
        line_clean(t),
    ensures
        t.len() > 0 ==> lines(t).len() >= 1,
        join(lines(t), seq!['\n']) == t,
{
    let f = sep_fn(Some('\n'));
    let p = split_on(t, '\n');
    lemma_split_by_nonempty(t, f);
    lemma_split_by_last_suffix(t, f);
    lemma_join_split(t, '\n');
    lemma_pieces_no_cr_end(t);
    let body = p.drop_last().map_values(|l: Seq<char>| strip_cr(l));
    assert(body =~= p.drop_last());
    if p.last().len() == 0 {
        if t.len() > 0 {
            assert(t.skip(t.len() as int) =~= p.last());
            // the last piece is empty only after a final newline
            lemma_split_last_empty(t);
        }
        assert(p.len() == 1);
        assert(lines(t) =~= Seq::<Seq<char>>::empty());
        assert(p[0].len() == 0);
        assert(t == join(p, seq!['\n']));
    } else {
        assert(lines(t) =~= p);
    }
}

proof fn lemma_split_last_empty(t: Seq<char>)
    requires
        t.len() > 0,
        t.last() != '\n',
    ensures
        split_on(t, '\n').last().len() > 0,
{
    let f = sep_fn(Some('\n'));
    lemma_split_by_nonempty(t.drop_last(), f);
}

/// In text without `\r\n`, no piece followed by a newline ends with `\r`.
proof fn lemma_pieces_no_cr_end(t: Seq<char>)
    requires
        !has_pair(t, '\r', '\n'),
    ensures
        forall|k: int|
            0 <= k < split_on(t, '\n').len() - 1 ==> strip_cr(#[trigger] split_on(t, '\n')[k])
                == split_on(t, '\n')[k],
    decreases t.len(),
{
    let f = sep_fn(Some('\n'));
    if t.len() > 0 {
        let u = t.drop_last();
        assert forall|i: int| !pair_at(u, i, '\r', '\n') by {
            if pair_at(u, i, '\r', '\n') {
                assert(pair_at(t, i, '\r', '\n'));
            }
        }
        lemma_pieces_no_cr_end(u);
        lemma_split_by_nonempty(u, f);
        lemma_split_by_last_suffix(u, f);
        let r = split_by(u, f);
        let p = split_on(t, '\n');
        if t.last() == '\n' {
            let l = r.last();
            if l.len() > 0 && l.last() == '\r' {
                assert(u.skip(u.len() - l.len()) == l);
                assert(u[u.len() - 1] == l.last());
                assert(pair_at(t, t.len() - 2, '\r', '\n'));
            }
            assert(p == r.push(Seq::<char>::empty()));
            assert forall|k: int| 0 <= k < p.len() - 1 implies strip_cr(#[trigger] p[k]) == p[k] by {
                assert(p[k] == r[k]);
                if k < r.len() - 1 {
                    assert(r[k] == split_on(u, '\n')[k]);
                    assert(strip_cr(split_on(u, '\n')[k]) == split_on(u, '\n')[k]);
                }
            }
        } else {
            assert(p == r.update(r.len() - 1, r.last().push(t.last())));
            assert forall|k: int| 0 <= k < p.len() - 1 implies strip_cr(#[trigger] p[k]) == p[k] by {
                assert(p[k] == r[k]);
                assert(r[k] == split_on(u, '\n')[k]);
                assert(strip_cr(split_on(u, '\n')[k]) == split_on(u, '\n')[k]);
            }
        }
    }
}

/// A first line without a newline, then more text: the first line, then the lines of the rest.
pub proof fn lemma_lines_cons(a: Seq<char>, b: Seq<char>)
    requires
        no_sep(a, sep_fn(Some('\n'))),
    ensures
        lines(a + seq!['\n'] + b) == seq![strip_cr(a)] + lines(b),
{
    let f = sep_fn(Some('\n'));
    lemma_split_by_sep(a, '\n', b, f);
    lemma_split_by_nonempty(b, f);
    let q = split_on(b, '\n');
    let p = seq![a] + q;
    assert(p.drop_last() =~= seq![a] + q.drop_last());
    assert(p.last() == q.last());
    let g = |l: Seq<char>| strip_cr(l);
    assert(p.drop_last().map_values(g) =~= seq![strip_cr(a)] + q.drop_last().map_values(g));
    if q.last().len() == 0 {
        assert(lines(a + seq!['\n'] + b) =~= seq![strip_cr(a)] + lines(b));
    } else {
        assert(lines(a + seq!['\n'] + b) =~= seq![strip_cr(a)] + lines(b));
    }
}

/// `s` holds a blank-line separator `\n\n`.
pub open spec fn has_blank(s: Seq<char>) -> bool {
    has_pair(s, '\n', '\n')
}

/// Text without a blank-line separator is one block.
pub proof fn lemma_split_blank_whole(x: Seq<char>)
    requires
        !has_blank(x),
    ensures
        split_blank(x) == seq![x],
    decreases x.len(),
{
    if x.len() >= 2 {
        assert(!pair_at(x, 0, '\n', '\n'));
        let y = x.skip(1);
        assert forall|i: int| !pair_at(y, i, '\n', '\n') by {
            if pair_at(y, i, '\n', '\n') {
                assert(pair_at(x, i + 1, '\n', '\n'));
            }
        }
        lemma_split_blank_whole(y);
        assert(seq![x[0]] + y =~= x);
        assert(prepend(seq![x[0]], seq![y]) =~= seq![x]);
    }
}

/// A block without a blank line, not ending in a newline, then a blank line:
/// that block comes off first.
pub proof fn lemma_split_blank_sep(x: Seq<char>, y: Seq<char>)
    requires
        x.len() > 0,
        !has_blank(x),
        x.last() != '\n',
    ensures
        split_blank(x + seq!['\n', '\n'] + y) == seq![x] + split_blank(y),
    decreases x.len(),
{
    let s = x + seq!['\n', '\n'] + y;
    lemma_split_blank_nonempty(y);
    if x.len() == 1 {
        assert(s[0] == x[0]);
        assert(s[0] != '\n');
        assert(split_blank(s) == prepend(seq![s[0]], split_blank(s.skip(1))));
        assert(s.skip(1) =~= seq!['\n', '\n'] + y);
        assert((seq!['\n', '\n'] + y).skip(2) =~= y);
        let r = split_blank(y);
        assert(split_blank(s.skip(1)) == seq![Seq::<char>::empty()] + r);
        assert(seq![x[0]] + Seq::<char>::empty() =~= x);
        assert(prepend(seq![x[0]], seq![Seq::<char>::empty()] + r) =~= seq![x] + r);
    } else {
        assert(!pair_at(x, 0, '\n', '\n'));
        let x1 = x.skip(1);
        assert forall|i: int| !pair_at(x1, i, '\n', '\n') by {
            if pair_at(x1, i, '\n', '\n') {
                assert(pair_at(x, i + 1, '\n', '\n'));
            }
        }
        assert(x1.last() == x.last());
        lemma_split_blank_sep(x1, y);
        assert(s[0] == x[0] && s[1] == x[1]);
        assert(split_blank(s) == prepend(seq![s[0]], split_blank(s.skip(1))));
        assert(s.skip(1) =~= x1 + seq!['\n', '\n'] + y);
        assert(seq![x[0]] + x1 =~= x);
        let r = split_blank(y);
        assert(prepend(seq![x[0]], seq![x1] + r) =~= seq![x] + r);
    }
}

/// Blocks without blank lines, joined by blank lines, split back into the blocks.
pub proof fn lemma_split_blank_join(bs: Seq<Seq<char>>)
    requires
        bs.len() >= 1,
        forall|i: int|
            0 <= i < bs.len() ==> (#[trigger] bs[i]).len() > 0 && !has_blank(bs[i]) && bs[i].last()
                != '\n',
    ensures
        split_blank(join(bs, seq!['\n', '\n'])) == bs,
    decreases bs.len(),
{
    let sep = seq!['\n', '\n'];
    if bs.len() == 1 {
        lemma_split_blank_whole(bs[0]);
        assert(seq![bs[0]] =~= bs);
    } else {
        let rest = bs.drop_first();
        lemma_split_blank_join(rest);
        assert(seq![bs[0]] + rest =~= bs);
        lemma_join_cons(bs[0], rest, sep);
        lemma_split_blank_sep(bs[0], join(rest, sep));
    }
}

/// `trim` leaves text that starts and ends with non-whitespace unchanged.
pub proof fn lemma_trim_unchanged(s: Seq<char>)
    requires
        s.len() > 0,
        !is_ws(s[0]),
        !is_ws(s.last()),
    ensures
        trim(s) == s,
        trim_start(s) == s,
{
}

/// `trim_end` keeps a prefix, which reaches past every non-whitespace character.
pub proof fn lemma_trim_end_prefix(s: Seq<char>, k: int)
    requires
        0 <= k < s.len(),
        !is_ws(s[k]),
    ensures
        trim_end(s).len() > k,
        trim_end(s).len() <= s.len(),
        trim_end(s) == s.take(trim_end(s).len() as int),
    decreases s.len(),
{
    if is_ws(s.last()) {
        assert(k < s.len() - 1);
        assert(s.drop_last()[k] == s[k]);
        lemma_trim_end_prefix(s.drop_last(), k);
        let t = trim_end(s.drop_last());
        assert(s.drop_last().take(t.len() as int) =~= s.take(t.len() as int));
    } else {
        assert(s.take(s.len() as int) =~= s);
    }
}

/// `trim` of text after a space.
pub proof fn lemma_trim_space_before(s: Seq<char>)
    requires
        s.len() > 0,
        !is_ws(s[0]),
        !is_ws(s.last()),
    ensures
        trim(seq![' '] + s) == s,
{
    let t = seq![' '] + s;
    assert(t.drop_first() =~= s);
    assert(trim_start(t) == trim_start(s));
}

/// `trim` of text before a space.
pub proof fn lemma_trim_space_after(s: Seq<char>)
    requires
        s.len() > 0,
        !is_ws(s[0]),
        !is_ws(s.last()),
    ensures
        trim(s + seq![' ']) == s,
{
    let t = s + seq![' '];
    assert(t[0] == s[0]);
    assert(trim_start(t) == t);
    assert(t.drop_last() =~= s);
    assert(is_ws(t.last()));
    assert(trim_end(s) == s);
    assert(trim_end(t) == trim_end(t.drop_last()));
}

/// `s[..p]` is a whole word at the start of `s`: not empty, without
/// whitespace, and followed by whitespace or by the end of `s`.
pub open spec fn leading_word_end(s: Seq<char>, p: int) -> bool {
    &&& 0 < p <= s.len()
    &&& forall|q: int| 0 <= q < p ==> !is_ws(#[trigger] s[q])
    &&& (p == s.len() || is_ws(s[p]))
}

/// Where the run of non-whitespace that begins at `i` ends.
proof fn lemma_word_end_from(s: Seq<char>, i: int) -> (p: int)
    requires
        0 <= i <= s.len(),
    ensures
        i <= p <= s.len(),
        forall|q: int| i <= q < p ==> !is_ws(#[trigger] s[q]),
        p == s.len() || is_ws(s[p]),
    decreases s.len() - i,
{
    if i == s.len() || is_ws(s[i]) {
        i
    } else {
        lemma_word_end_from(s, i + 1)
    }
}

proof fn lemma_trim_start_first(s: Seq<char>)
    ensures
        trim_start(s).len() > 0 ==> !is_ws(trim_start(s)[0]),
    decreases s.len(),
{
    if s.len() > 0 && is_ws(s[0]) {
        lemma_trim_start_first(s.drop_first());
    }
}

/// Trimmed text that is not empty begins with a whole word, which ends at `p`.
pub proof fn lemma_trim_leading_word(s: Seq<char>) -> (p: int)
    requires
        trim(s).len() > 0,
    ensures
        leading_word_end(trim(s), p),
{
    lemma_trim_start_first(s);
    let u = trim_start(s);
    lemma_trim_end_prefix(u, 0);
    let t = trim(s);
    assert(t[0] == u[0]);
    let p = lemma_word_end_from(t, 1);
    assert forall|q: int| 0 <= q < p implies !is_ws(#[trigger] t[q]) by {
        if q >= 1 {
            assert(!is_ws(t[q]));
        }
    }
    p
}

/// A text that begins with a whole word `s[..p]` has it as its first word
/// (`split_whitespace().next()`), and no other leading word ends elsewhere.
pub proof fn lemma_leading_word(s: Seq<char>, p: int)
    requires
        leading_word_end(s, p),
    ensures
        words(s).len() > 0,
        words(s)[0] == s.take(p),
        forall|p2: int| #[trigger] leading_word_end(s, p2) ==> p2 == p,
{
    let f = sep_fn(None);
    let nonempty = |w: Seq<char>| w.len() > 0;
    let a = s.take(p);
    assert forall|i: int| 0 <= i < a.len() implies !f(#[trigger] a[i]) by {
        assert(a[i] == s[i]);
    }
    assert(no_sep(a, f));
    let rest = if p == s.len() {
        assert(a =~= s);
        lemma_split_by_whole(s, f);
        Seq::<Seq<char>>::empty()
    } else {
        let b = s.skip(p + 1);
        assert(s =~= a + seq![s[p]] + b);
        assert(f(s[p]));
        lemma_split_by_sep(a, s[p], b, f);
        split_by(b, f)
    };
    assert(split_by(s, f) =~= seq![a] + rest);
    rest.lemma_filter_prepend(a, nonempty);
    assert(nonempty(a));
    assert(words(s) == (seq![a] + rest).filter(nonempty));
    assert(words(s) =~= seq![a] + rest.filter(nonempty));
    assert forall|p2: int| #[trigger] leading_word_end(s, p2) implies p2 == p by {
        if p2 < p {
            assert(!is_ws(s[p2]));
        } else if p2 > p {
            assert(!is_ws(s[p]));
        }
    }
}

/// Text with nothing in it has no words.
pub proof fn lemma_words_empty()
    ensures
        words(Seq::<char>::empty()).len() == 0,
{
    let e = Seq::<char>::empty();
    let nonempty = |w: Seq<char>| w.len() > 0;
    assert(split_by(e, sep_fn(None)) == seq![e]);
    Seq::<Seq<char>>::empty().lemma_filter_prepend(e, nonempty);
    assert(seq![e] + Seq::<Seq<char>>::empty() =~= seq![e]);
    reveal(Seq::filter);
    assert(Seq::<Seq<char>>::empty().filter(nonempty) =~= Seq::<Seq<char>>::empty());
}

// ── executable functions ─────────────────────────────────────────────────

/// The characters of a string slice, in order.
pub fn chars_of(s: &str) -> (v: Vec<char>)
    ensures
        v@ == s@,
{
    let mut v: Vec<char> = Vec::new();
    for c in it: s.chars()
        invariant
            v@ == it.seq().take(it.index() as int),
    {
        v.push(c);
    }
    v
}

/// `char::is_whitespace`.
pub fn is_whitespace(c: char) -> (b: bool)
    ensures
        b == is_ws(c),
{
    ('\t' <= c && c <= '\r') || c == ' ' || c == '\u{85}' || c == '\u{a0}' || c == '\u{1680}'
        || ('\u{2000}' <= c && c <= '\u{200a}') || c == '\u{2028}' || c == '\u{2029}' || c
        == '\u{202f}' || c == '\u{205f}' || c == '\u{3000}'
}

/// The start of `trim_start(cs[lo..hi])`.
pub fn trim_start_span(cs: &Vec<char>, lo: usize, hi: usize) -> (a: usize)
    requires
        lo <= hi <= cs@.len(),
    ensures
        lo <= a <= hi,
        cs@.subrange(a as int, hi as int) == trim_start(cs@.subrange(lo as int, hi as int)),
{
    let mut i = lo;
    while i < hi && is_whitespace(cs[i])
        invariant
            lo <= i <= hi <= cs@.len(),
            trim_start(cs@.subrange(lo as int, hi as int)) == trim_start(
                cs@.subrange(i as int, hi as int),
            ),
        decreases hi - i,
    {
        assert(cs@.subrange(i as int, hi as int).drop_first() =~= cs@.subrange(
            i + 1,
            hi as int,
        ));
        i = i + 1;
    }
    i
}

/// The end of `trim_end(cs[lo..hi])`.
pub fn trim_end_span(cs: &Vec<char>, lo: usize, hi: usize) -> (b: usize)
    requires
        lo <= hi <= cs@.len(),
    ensures
        lo <= b <= hi,
        cs@.subrange(lo as int, b as int) == trim_end(cs@.subrange(lo as int, hi as int)),
{
    let mut j = hi;
    while j > lo && is_whitespace(cs[j - 1])
        invariant
            lo <= j <= hi <= cs@.len(),
            trim_end(cs@.subrange(lo as int, hi as int)) == trim_end(
                cs@.subrange(lo as int, j as int),
            ),
        decreases j - lo,
    {
        assert(cs@.subrange(lo as int, j as int).drop_last() =~= cs@.subrange(
            lo as int,
            j - 1,
        ));
        j = j - 1;
    }
    j
}

/// The span of `trim(cs[lo..hi])`.
pub fn trim_span(cs: &Vec<char>, lo: usize, hi: usize) -> (r: (usize, usize))
    requires
        lo <= hi <= cs@.len(),
    ensures
        lo <= r.0 <= r.1 <= hi,
        cs@.subrange(r.0 as int, r.1 as int) == trim(cs@.subrange(lo as int, hi as int)),
{
    let a = trim_start_span(cs, lo, hi);
    let b = trim_end_span(cs, a, hi);
    (a, b)
}

/// Whether `cs[lo..hi]` begins with `p`.
pub fn starts_with_span(cs: &Vec<char>, lo: usize, hi: usize, p: &Vec<char>) -> (b: bool)
    requires
        lo <= hi <= cs@.len(),
    ensures
        b == starts_with(cs@.subrange(lo as int, hi as int), p@),
{
    let ghost s = cs@.subrange(lo as int, hi as int);
    if p.len() > hi - lo {
        return false;
    }
    let mut k: usize = 0;
    while k < p.len()
        invariant
            lo <= hi <= cs@.len(),
            p@.len() <= hi - lo,
            s == cs@.subrange(lo as int, hi as int),
            0 <= k <= p@.len(),
            forall|m: int| 0 <= m < k ==> s[m] == p@[m],
        decreases p@.len() - k,
    {
        if cs[lo + k] != p[k] {
            assert(s.take(p@.len() as int)[k as int] != p@[k as int]);
            return false;
        }
        k = k + 1;
    }
    assert(s.take(p@.len() as int) =~= p@);
    true
}

/// Whether `p` occurs in `cs[lo..hi]` at offset `i`.
fn occurs_at_span(cs: &Vec<char>, lo: usize, hi: usize, p: &Vec<char>, i: usize) -> (b: bool)
    requires
        lo <= i <= hi <= cs@.len(),
    ensures
        b == occurs_at(cs@.subrange(lo as int, hi as int), p@, i - lo),
{
    let r = starts_with_span(cs, i, hi, p);
    proof {
        let s = cs@.subrange(lo as int, hi as int);
        let t = cs@.subrange(i as int, hi as int);
        if p@.len() <= t.len() {
            assert(t.take(p@.len() as int) =~= s.subrange(i - lo, i - lo + p@.len()));
        }
    }
    r
}

/// The offsets in `cs[lo..hi]` at which `p` occurs, up to the first two of them.
pub fn first_occurrences(cs: &Vec<char>, lo: usize, hi: usize, p: &Vec<char>) -> (r: Vec<usize>)
    requires
        lo <= hi <= cs@.len(),
        p@.len() > 0,
    ensures
        r@.len() <= 2,
        forall|k: int| 0 <= k < r@.len() ==> occurs_at(cs@.subrange(lo as int, hi as int), p@, #[trigger] r@[k] as int),
        r@.len() == 2 ==> r@[0] < r@[1],
        forall|i: int|
            occurs_at(cs@.subrange(lo as int, hi as int), p@, i) ==> (r@.len() >= 1 && r@[0] <= i) && (
            r@.len() == 2 || i == r@[0]),
{
    let ghost s = cs@.subrange(lo as int, hi as int);
    let mut r: Vec<usize> = Vec::new();
    let mut i = lo;
    while i < hi && r.len() < 2
        invariant
            lo <= i <= hi <= cs@.len(),
            p@.len() > 0,
            s == cs@.subrange(lo as int, hi as int),
            r@.len() <= 2,
            forall|k: int| 0 <= k < r@.len() ==> occurs_at(s, p@, #[trigger] r@[k] as int) && r@[k] < i - lo,
            r@.len() == 2 ==> r@[0] < r@[1],
            forall|j: int| 0 <= j < i - lo && occurs_at(s, p@, j) ==> (r@.len() >= 1 && r@[0] <= j) && (
            r@.len() == 2 || j == r@[0]),
        decreases hi - i,
    {
        if occurs_at_span(cs, lo, hi, p, i) {
            r.push(i - lo);
        }
        i = i + 1;
    }
    proof {
        assert forall|j: int| occurs_at(s, p@, j) implies (r@.len() >= 1 && r@[0] <= j) && (
        r@.len() == 2 || j == r@[0]) by {
            if j >= i - lo {
                if r@.len() < 2 {
                    assert(i == hi);
                    assert(j + p@.len() <= s.len());
                }
            }
        }
    }
    r
}

/// The spans of `split_blank(cs[lo..hi])`.
pub fn split_blank_spans(cs: &Vec<char>, lo: usize, hi: usize) -> (r: Vec<(usize, usize)>)
    requires
        lo <= hi <= cs@.len(),
    ensures
        spans_within(r@, lo as int, hi as int),
        spans_view(cs@, r@) == split_blank(cs@.subrange(lo as int, hi as int)),
{
    let mut done: Vec<(usize, usize)> = Vec::new();
    let mut cur = lo;
    let mut i = lo;
    proof {
        lemma_split_blank_nonempty(cs@.subrange(lo as int, hi as int));
        let e = cs@.subrange(lo as int, lo as int);
        let x = split_blank(cs@.subrange(lo as int, hi as int));
        assert(e + x[0] =~= x[0]);
        assert(prepend(e, x) =~= x);
    }
    while i < hi
        invariant
            lo <= cur <= i <= hi <= cs@.len(),
            spans_within(done@, lo as int, cur as int),
            split_blank(cs@.subrange(lo as int, hi as int)) == spans_view(cs@, done@) + prepend(
                cs@.subrange(cur as int, i as int),
                split_blank(cs@.subrange(i as int, hi as int)),
            ),
        decreases hi - i,
    {
        let ghost t = cs@.subrange(i as int, hi as int);
        let ghost c = cs@.subrange(cur as int, i as int);
        if i + 1 < hi && cs[i] == '\n' && cs[i + 1] == '\n' {
            let ghost old_done = done@;
            proof {
                assert(t.skip(2) =~= cs@.subrange(i + 2, hi as int));
                let x = split_blank(t.skip(2));
                lemma_split_blank_nonempty(t.skip(2));
                let e = cs@.subrange(i + 2, i + 2);
                assert(e + x[0] =~= x[0]);
                assert(prepend(e, x) =~= x);
                assert(prepend(c, seq![Seq::<char>::empty()] + x) =~= seq![c] + x);
            }
            done.push((cur, i));
            i = i + 2;
            cur = i;
            proof {
                assert(spans_view(cs@, done@) =~= spans_view(cs@, old_done) + seq![c]);
            }
        } else {
            proof {
                let c2 = cs@.subrange(cur as int, i + 1);
                if t.len() >= 2 {
                    assert(t.skip(1) =~= cs@.subrange(i + 1, hi as int));
                    let y = split_blank(t.skip(1));
                    lemma_split_blank_nonempty(t.skip(1));
                    assert(c + (seq![t[0]] + y[0]) =~= c2 + y[0]);
                    assert(prepend(c, prepend(seq![t[0]], y)) =~= prepend(c2, y));
                } else {
                    assert(t =~= seq![cs@[i as int]]);
                    let z = cs@.subrange(i + 1, hi as int);
                    assert(z.len() == 0);
                    assert(split_blank(z) == seq![z]);
                    assert(c + t =~= c2 + z);
                    assert(prepend(c, seq![t]) =~= prepend(c2, seq![z]));
                }
            }
            i = i + 1;
        }
    }
    let ghost old_done = done@;
    done.push((cur, hi));
    proof {
        let z = cs@.subrange(hi as int, hi as int);
        let c = cs@.subrange(cur as int, hi as int);
        assert(split_blank(z) == seq![z]);
        assert(c + z =~= c);
        assert(prepend(c, seq![z]) =~= seq![c]);
        assert(spans_view(cs@, done@) =~= spans_view(cs@, old_done) + seq![c]);
    }
    done
}

/// The spans of `split_by(cs[lo..hi], sep_fn(sep))`.
pub fn split_spans(cs: &Vec<char>, lo: usize, hi: usize, sep: Option<char>) -> (r: Vec<(usize, usize)>)
    requires
        lo <= hi <= cs@.len(),
    ensures
        spans_within(r@, lo as int, hi as int),
        spans_view(cs@, r@) == split_by(cs@.subrange(lo as int, hi as int), sep_fn(sep)),
        r@.len() >= 1,
        forall|k: int, m: int| 0 <= k < m < r@.len() ==> (#[trigger] r@[k]).1 < (#[trigger] r@[m]).0,
{
    let mut done: Vec<(usize, usize)> = Vec::new();
    let mut cur = lo;
    let mut i = lo;
    assert(cs@.subrange(lo as int, lo as int).len() == 0);
    assert(split_by(cs@.subrange(lo as int, lo as int), sep_fn(sep)) == seq![
        Seq::<char>::empty(),
    ]);
    assert(cs@.subrange(lo as int, lo as int) =~= Seq::<char>::empty());
    while i < hi
        invariant
            lo <= cur <= i <= hi <= cs@.len(),
            spans_within(done@, lo as int, cur as int),
            split_by(cs@.subrange(lo as int, i as int), sep_fn(sep)) == spans_view(cs@, done@)
                + seq![cs@.subrange(cur as int, i as int)],
            forall|k: int, m: int| 0 <= k < m < done@.len() ==> (#[trigger] done@[k]).1 < (#[trigger] done@[m]).0,
            forall|k: int| 0 <= k < done@.len() ==> (#[trigger] done@[k]).1 < cur,
        decreases hi - i,
    {
        let ch = cs[i];
        let is_sep = match sep {
            Some(c) => ch == c,
            None => is_whitespace(ch),
        };
        let ghost old_done = done@;
        let ghost c = cs@.subrange(cur as int, i as int);
        assert(cs@.subrange(lo as int, i + 1).drop_last() =~= cs@.subrange(lo as int, i as int));
        assert(cs@.subrange(lo as int, i + 1).last() == ch);
        assert(is_sep == (sep_fn(sep))(ch));
        if is_sep {
            done.push((cur, i));
            i = i + 1;
            cur = i;
            proof {
                assert(spans_view(cs@, done@) =~= spans_view(cs@, old_done) + seq![c]);
                assert(cs@.subrange(cur as int, i as int) =~= Seq::<char>::empty());
                assert(split_by(cs@.subrange(lo as int, i as int), sep_fn(sep)) =~= spans_view(
                    cs@,
                    done@,
                ) + seq![cs@.subrange(cur as int, i as int)]);
            }
        } else {
            i = i + 1;
            proof {
                assert(c.push(ch) =~= cs@.subrange(cur as int, i as int));
                assert(split_by(cs@.subrange(lo as int, i as int), sep_fn(sep)) =~= spans_view(
                    cs@,
                    done@,
                ) + seq![cs@.subrange(cur as int, i as int)]);
            }
        }
    }
    let ghost old_done = done@;
    done.push((cur, hi));
    proof {
        assert(spans_view(cs@, done@) =~= spans_view(cs@, old_done) + seq![
            cs@.subrange(cur as int, hi as int),
        ]);
    }
    done
}

/// The spans of `lines(cs[lo..hi])`.
pub fn lines_spans(cs: &Vec<char>, lo: usize, hi: usize) -> (r: Vec<(usize, usize)>)
    requires
        lo <= hi <= cs@.len(),
    ensures
        spans_within(r@, lo as int, hi as int),
        spans_view(cs@, r@) == lines(cs@.subrange(lo as int, hi as int)),
{
    let p = split_spans(cs, lo, hi, Some('\n'));
    let ghost pv = spans_view(cs@, p@);
    let n = p.len();
    let mut r: Vec<(usize, usize)> = Vec::new();
    let mut k: usize = 0;
    while k + 1 < n
        invariant
            n == p@.len(),
            n >= 1,
            k < n,
            pv == spans_view(cs@, p@),
            spans_within(p@, lo as int, hi as int),
            hi <= cs@.len(),
            spans_within(r@, lo as int, hi as int),
            spans_view(cs@, r@) == pv.take(k as int).map_values(|l: Seq<char>| strip_cr(l)),
        decreases n - k,
    {
        let (a, b) = p[k];
        let ghost old_r = r@;
        let span = if b > a && cs[b - 1] == '\r' {
            (a, b - 1)
        } else {
            (a, b)
        };
        r.push(span);
        proof {
            let l = cs@.subrange(a as int, b as int);
            assert(pv[k as int] == l);
            if b > a && cs@[b - 1] == '\r' {
                assert(l.drop_last() =~= cs@.subrange(a as int, b - 1));
            }
            assert(strip_cr(l) == cs@.subrange(span.0 as int, span.1 as int));
            assert(pv.take(k + 1).map_values(|l: Seq<char>| strip_cr(l)) =~= pv.take(
                k as int,
            ).map_values(|l: Seq<char>| strip_cr(l)).push(strip_cr(l)));
            assert(spans_view(cs@, r@) =~= spans_view(cs@, old_r).push(strip_cr(l)));
        }
        k = k + 1;
    }
    let (a, b) = p[n - 1];
    let ghost body = r@;
    if a < b {
        r.push((a, b));
    }
    proof {
        let sub = cs@.subrange(lo as int, hi as int);
        assert(pv == split_on(sub, '\n'));
        assert(pv.take(k as int) =~= pv.drop_last());
        assert(pv.last() == cs@.subrange(a as int, b as int));
        if a < b {
            assert(spans_view(cs@, r@) =~= spans_view(cs@, body).push(pv.last()));
        }
    }
    r
}

/// The spans of `words(cs[lo..hi])`.
pub fn words_spans(cs: &Vec<char>, lo: usize, hi: usize) -> (r: Vec<(usize, usize)>)
    requires
        lo <= hi <= cs@.len(),
    ensures
        spans_within(r@, lo as int, hi as int),
        spans_view(cs@, r@) == words(cs@.subrange(lo as int, hi as int)),
        forall|k: int| 0 <= k < r@.len() ==> (#[trigger] r@[k]).0 < r@[k].1,
        forall|k: int, m: int| 0 <= k < m < r@.len() ==> (#[trigger] r@[k]).1 < (#[trigger] r@[m]).0,
{
    let p = split_spans(cs, lo, hi, None);
    let ghost pv = spans_view(cs@, p@);
    let ghost f = |w: Seq<char>| w.len() > 0;
    let n = p.len();
    let mut r: Vec<(usize, usize)> = Vec::new();
    let mut k: usize = 0;
    while k < n
        invariant
            n == p@.len(),
            k <= n,
            pv == spans_view(cs@, p@),
            f == (|w: Seq<char>| w.len() > 0),
            spans_within(p@, lo as int, hi as int),
            hi <= cs@.len(),
            spans_within(r@, lo as int, hi as int),
            forall|m: int| 0 <= m < r@.len() ==> (#[trigger] r@[m]).0 < r@[m].1,
            spans_view(cs@, r@) == pv.take(k as int).filter(f),
            forall|k: int, m: int| 0 <= k < m < p@.len() ==> (#[trigger] p@[k]).1 < (#[trigger] p@[m]).0,
            forall|a: int, m: int| 0 <= a < m < r@.len() ==> (#[trigger] r@[a]).1 < (#[trigger] r@[m]).0,
            k < n ==> forall|m: int| 0 <= m < r@.len() ==> (#[trigger] r@[m]).1 < p@[k as int].0,
        decreases n - k,
    {
        let (a, b) = p[k];
        let ghost old_r = r@;
        if a < b {
            r.push((a, b));
        }
        proof {
            reveal(Seq::filter);
            assert(pv.take(k + 1).drop_last() =~= pv.take(k as int));
            assert(pv.take(k + 1).last() == cs@.subrange(a as int, b as int));
            assert(f(cs@.subrange(a as int, b as int)) == (a < b));
            let t = pv.take(k + 1);
            assert(t.len() > 0);
            assert(t.filter(f) == (if f(t.last()) {
                t.drop_last().filter(f).push(t.last())
            } else {
                t.drop_last().filter(f)
            }));
            if a < b {
                assert(spans_view(cs@, r@) =~= spans_view(cs@, old_r).push(
                    cs@.subrange(a as int, b as int),
                ));
            }
            if k + 1 < n {
                assert(p@[k as int].1 < p@[k + 1].0);
                assert forall|m: int| 0 <= m < r@.len() implies (#[trigger] r@[m]).1 < p@[k + 1].0 by {
                    if m < old_r.len() {
                        assert(r@[m] == old_r[m]);
                    }
                }
            }
        }
        k = k + 1;
    }
    assert(pv.take(n as int) =~= pv);
    r
}

/// How many bytes UTF-8 takes for `c`.
pub fn char_utf8_len(c: char) -> (n: usize)
    ensures
        n == utf8_len(c),
{
    let v = c as u32;
    if v < 0x80 {
        1
    } else if v < 0x800 {
        2
    } else if v < 0x10000 {
        3
    } else {
        4
    }
}

/// The UTF-8 length in bytes of `cs[lo..hi]`.
pub fn span_byte_len(cs: &Vec<char>, lo: usize, hi: usize) -> (n: usize)
    requires
        lo <= hi <= cs@.len(),
        byte_len(cs@.subrange(lo as int, hi as int)) <= usize::MAX,
    ensures
        n == byte_len(cs@.subrange(lo as int, hi as int)),
{
    let mut n: usize = 0;
    let mut i = lo;
    while i < hi
        invariant
            lo <= i <= hi <= cs@.len(),
            byte_len(cs@.subrange(lo as int, hi as int)) <= usize::MAX,
            n == byte_len(cs@.subrange(lo as int, i as int)),
        decreases hi - i,
    {
        proof {
            lemma_byte_len_split(cs@, lo as int, i + 1, hi as int);
            assert(cs@.subrange(lo as int, i + 1).drop_last() =~= cs@.subrange(lo as int, i as int));
        }
        n = n + char_utf8_len(cs[i]);
        i = i + 1;
    }
    n
}

} // verus!