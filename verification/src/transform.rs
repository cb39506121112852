//! What the transformations of tiles do, stated over tile views and cues.
use vstd::prelude::*;
use crate::tile::{Cue, TileView};
use crate::timestamp::u64_max;
use crate::format::u32_max;
use crate::text::{byte_len, words};

verus! {

/// A `u64` read as an `i64` the way `as i64` does (values above `i64::MAX` wrap).
pub open spec fn wrap_i64(v: int) -> int {
    if v <= i64::MAX {
        v
    } else {
        v - 0x1_0000_0000_0000_0000
    }
}

/// A time moved by `offset` milliseconds, before clamping.
pub open spec fn shifted(v: int, offset: i64) -> int {
    wrap_i64(v) + offset
}

/// Moving the time by `offset` stays within `i64`.
pub open spec fn shift_fits(v: int, offset: i64) -> bool {
    i64::MIN <= shifted(v, offset) <= i64::MAX
}

/// `max(v, 0)`.
pub open spec fn clamp0(v: int) -> int {
    if v < 0 {
        0
    } else {
        v
    }
}

/// A tile moved by `offset` milliseconds, times below zero clamped to zero.
pub open spec fn shift_view(v: TileView, offset: i64) -> TileView {
    TileView {
        id: v.id,
        cue: Cue {
            start_ms: clamp0(shifted(v.cue.start_ms, offset)),
            end_ms: clamp0(shifted(v.cue.end_ms, offset)),
            ..v.cue
        },
    }
}

/// A tile lies within `start_ms..=end_ms`.
pub open spec fn within(v: TileView, start_ms: int, end_ms: int) -> bool {
    v.cue.start_ms >= start_ms && v.cue.end_ms <= end_ms
}

/// The tiles that lie within `start_ms..=end_ms`, in order.
pub open spec fn within_range(vs: Seq<TileView>, start_ms: int, end_ms: int) -> Seq<TileView> {
    vs.filter(|v: TileView| within(v, start_ms, end_ms))
}

/// `r` is `s` taken at the strictly increasing positions `idx`.
pub open spec fn taken_at<A>(s: Seq<A>, r: Seq<A>, idx: Seq<int>) -> bool {
    &&& idx.len() == r.len()
    &&& forall|k: int| 0 <= k < idx.len() ==> 0 <= #[trigger] idx[k] < s.len() && r[k] == s[idx[k]]
    &&& forall|k1: int, k2: int| 0 <= k1 < k2 < idx.len() ==> #[trigger] idx[k1] < #[trigger] idx[k2]
}

/// The earliest start among the tiles.
pub open spec fn min_start(s: Seq<TileView>) -> int
    decreases s.len(),
{
    if s.len() <= 1 {
        s[0].cue.start_ms
    } else {
        let m = min_start(s.drop_last());
        if s.last().cue.start_ms < m {
            s.last().cue.start_ms
        } else {
            m
        }
    }
}

/// The latest end among the tiles.
pub open spec fn max_end(s: Seq<TileView>) -> int
    decreases s.len(),
{
    if s.len() <= 1 {
        s[0].cue.end_ms
    } else {
        let m = max_end(s.drop_last());
        if s.last().cue.end_ms > m {
            s.last().cue.end_ms
        } else {
            m
        }
    }
}

/// The span from the earliest start to the latest end in milliseconds: 0 for
/// no tiles, `None` where the latest end comes before the earliest start.
pub open spec fn span_of(s: Seq<TileView>) -> Option<int> {
    if s.len() == 0 {
        Some(0)
    } else if max_end(s) >= min_start(s) {
        Some(max_end(s) - min_start(s))
    } else {
        None
    }
}

/// Where a stable insertion puts `key` into `order` (sorted by `keys`):
/// before the first entry from `j` on whose key is greater.
pub open spec fn insert_pos(keys: Seq<int>, order: Seq<int>, key: int, j: int) -> int
    decreases order.len() - j,
{
    if j < 0 || j >= order.len() {
        order.len() as int
    } else if keys[order[j]] > key {
        j
    } else {
        insert_pos(keys, order, key, j + 1)
    }
}

/// The positions `0..n` ordered by `keys`, equal keys kept in their order
/// (a stable sort, as `sort_by_key` does).
pub open spec fn sort_order(keys: Seq<int>, n: nat) -> Seq<int>
    decreases n,
{
    if n == 0 {
        Seq::empty()
    } else {
        let o = sort_order(keys, (n - 1) as nat);
        o.insert(insert_pos(keys, o, keys[n - 1], 0), n - 1)
    }
}

/// The start times of the tiles.
pub open spec fn start_keys(s: Seq<TileView>) -> Seq<int> {
    s.map_values(|v: TileView| v.cue.start_ms)
}

/// The tiles stably sorted by start time.
pub open spec fn sorted_by_start(s: Seq<TileView>) -> Seq<TileView> {
    sort_order(start_keys(s), s.len()).map_values(|j: int| s[j])
}

/// `o` lists `0..n` exactly once each, ordered by key and, for equal keys, by position.
pub open spec fn is_stable_order(keys: Seq<int>, n: nat, o: Seq<int>) -> bool {
    &&& o.len() == n
    &&& forall|p: int| 0 <= p < n ==> 0 <= #[trigger] o[p] < n
    &&& forall|j: int| 0 <= j < n ==> o.contains(j)
    &&& forall|p: int, q: int|
        0 <= p < q < n ==> keys[#[trigger] o[p]] < keys[#[trigger] o[q]] || (keys[o[p]] == keys[o[q]]
            && o[p] < o[q])
}

/// The tiles merged into groups: sorted by start, a tile joins the current
/// group when it starts no later than `gap` after the group's end (the group
/// then ends at the later end and its text gets a space and the tile's text);
/// otherwise it opens a new group numbered one more than the last.
pub open spec fn merge_cues(s: Seq<TileView>, gap: int) -> Seq<Cue>
    decreases s.len(),
{
    if s.len() == 0 {
        Seq::empty()
    } else if s.len() == 1 {
        seq![s[0].cue]
    } else {
        let r = merge_cues(s.drop_last(), gap);
        let cur = r.last();
        let t = s.last().cue;
        if t.start_ms <= cur.end_ms + gap {
            r.update(
                r.len() - 1,
                Cue {
                    end_ms: if t.end_ms > cur.end_ms {
                        t.end_ms
                    } else {
                        cur.end_ms
                    },
                    text: cur.text + seq![' '] + t.text,
                    ..cur
                },
            )
        } else {
            r.push(Cue { index: cur.index + 1, ..t })
        }
    }
}

/// Merging stays within `u64` for the end plus gap, and within `u32` for the numbering.
pub open spec fn merge_fits(s: Seq<TileView>, gap: int) -> bool
    decreases s.len(),
{
    if s.len() <= 1 {
        true
    } else {
        let r = merge_cues(s.drop_last(), gap);
        let cur = r.last();
        let t = s.last().cue;
        &&& merge_fits(s.drop_last(), gap)
        &&& cur.end_ms + gap <= u64_max()
        &&& (t.start_ms > cur.end_ms + gap ==> cur.index + 1 <= u32_max())
    }
}

pub proof fn lemma_merge_cues_len(s: Seq<TileView>, gap: int)
    ensures
        s.len() > 0 ==> merge_cues(s, gap).len() >= 1,
        merge_cues(s, gap).len() <= s.len(),
    decreases s.len(),
{
    if s.len() > 1 {
        lemma_merge_cues_len(s.drop_last(), gap);
    }
}

pub proof fn lemma_merge_fits_prefix(s: Seq<TileView>, gap: int, k: int)
    requires
        merge_fits(s, gap),
        0 <= k <= s.len(),
    ensures
        merge_fits(s.take(k), gap),
    decreases s.len(),
{
    if k < s.len() {
        assert(s.drop_last().take(k) =~= s.take(k));
        lemma_merge_fits_prefix(s.drop_last(), gap, k);
    } else {
        assert(s.take(k) =~= s);
    }
}

proof fn lemma_insert_pos(keys: Seq<int>, o: Seq<int>, key: int, j: int)
    requires
        0 <= j <= o.len(),
        forall|p: int, q: int| 0 <= p < q < o.len() ==> keys[#[trigger] o[p]] <= keys[#[trigger] o[q]],
        forall|p: int| 0 <= p < j ==> keys[#[trigger] o[p]] <= key,
    ensures
        j <= insert_pos(keys, o, key, j) <= o.len(),
        forall|p: int| 0 <= p < insert_pos(keys, o, key, j) ==> keys[#[trigger] o[p]] <= key,
        forall|p: int| insert_pos(keys, o, key, j) <= p < o.len() ==> keys[#[trigger] o[p]] > key,
    decreases o.len() - j,
{
    if j < o.len() {
        if keys[o[j]] > key {
            assert forall|p: int| j <= p < o.len() implies keys[#[trigger] o[p]] > key by {
                if p > j {
                    assert(keys[o[j]] <= keys[o[p]]);
                }
            }
        } else {
            lemma_insert_pos(keys, o, key, j + 1);
        }
    }
}

/// `sort_order` is a stable sort: it lists each position once, by key, and
/// positions with equal keys in increasing order.
pub proof fn lemma_sort_order_is_stable(keys: Seq<int>, n: nat)
    requires
        n <= keys.len(),
    ensures
        is_stable_order(keys, n, sort_order(keys, n)),
    decreases n,
{
    if n > 0 {
        let m = (n - 1) as nat;
        let o = sort_order(keys, m);
        lemma_sort_order_is_stable(keys, m);
        let key = keys[m as int];
        assert forall|p: int, q: int| 0 <= p < q < o.len() implies keys[#[trigger] o[p]] <= keys[#[trigger] o[q]] by {}
        lemma_insert_pos(keys, o, key, 0);
        let pos = insert_pos(keys, o, key, 0);
        let o2 = o.insert(pos, m as int);
        o.insert_ensures(pos, m as int);
        assert(o2 == sort_order(keys, n));
        assert forall|p: int| 0 <= p < n implies 0 <= #[trigger] o2[p] < n by {
            if p < pos {
                assert(o2[p] == o[p]);
            } else if p > pos {
                assert(o2[p] == o[p - 1]);
            }
        }
        assert forall|j: int| 0 <= j < n implies o2.contains(j) by {
            if j == m {
                assert(o2[pos] == j);
            } else {
                assert(o.contains(j));
                let p = choose|p: int| 0 <= p < o.len() && o[p] == j;
                if p < pos {
                    assert(o2[p] == j);
                } else {
                    assert(o2[p + 1] == j);
                }
            }
        }
        assert forall|p: int, q: int| 0 <= p < q < n implies keys[#[trigger] o2[p]] < keys[#[trigger] o2[q]] || (
        keys[o2[p]] == keys[o2[q]] && o2[p] < o2[q]) by {
            let op = if p < pos { p } else { p - 1 };
            let oq = if q < pos { q } else { q - 1 };
            if p == pos {
                assert(o2[q] == o[oq]);
                assert(keys[o[oq]] > key);
            } else if q == pos {
                assert(o2[p] == o[op]);
                assert(keys[o[op]] <= key);
                assert(o[op] < m);
            } else {
                assert(o2[p] == o[op]);
                assert(o2[q] == o[oq]);
                assert(op < oq);
            }
        }
    }
}

/// The sum of the numbers.
pub open spec fn sum_of(s: Seq<u64>) -> int
    decreases s.len(),
{
    if s.len() == 0 {
        0
    } else {
        sum_of(s.drop_last()) + s.last()
    }
}

/// A prefix sums to no more than the whole.
pub proof fn lemma_sum_prefix(s: Seq<u64>, k: int)
    requires
        0 <= k <= s.len(),
    ensures
        0 <= sum_of(s.take(k)) <= sum_of(s),
    decreases s.len(),
{
    if k < s.len() {
        assert(s.drop_last().take(k) =~= s.take(k));
        lemma_sum_prefix(s.drop_last(), k);
    } else {
        assert(s.take(k) =~= s);
        lemma_sum_nonneg(s);
    }
}

proof fn lemma_sum_nonneg(s: Seq<u64>)
    ensures
        sum_of(s) >= 0,
    decreases s.len(),
{
    if s.len() > 0 {
        lemma_sum_nonneg(s.drop_last());
    }
}

/// Piece `k` of a tile split into `pieces`: the tile's number and metadata,
/// the piece's text, starting where the piece before ended (the first at the
/// tile's start), ending `offsets[k]` later, the last at the tile's end.
pub open spec fn split_piece(tile: Cue, pieces: Seq<Seq<char>>, offsets: Seq<u64>, k: int) -> Cue {
    Cue {
        index: tile.index,
        start_ms: tile.start_ms + sum_of(offsets.take(k)),
        end_ms: if k + 1 < pieces.len() {
            tile.start_ms + sum_of(offsets.take(k + 1))
        } else {
            tile.end_ms
        },
        text: pieces[k],
        meta: tile.meta,
    }
}

/// Greedy word wrapping: the finished lines and the line being filled after
/// taking the words `ws` in turn. A word goes on the current line (after a
/// space) unless that makes the line longer than `max` bytes, in which case
/// the current line is finished and the word starts the next one.
pub open spec fn wrap_words(ws: Seq<Seq<char>>, max: int) -> (Seq<Seq<char>>, Seq<char>)
    decreases ws.len(),
{
    if ws.len() == 0 {
        (Seq::empty(), Seq::empty())
    } else {
        let (done, line) = wrap_words(ws.drop_last(), max);
        let w = ws.last();
        let cand = if line.len() == 0 {
            w
        } else {
            line + seq![' '] + w
        };
        if byte_len(cand) > max && line.len() > 0 {
            (done.push(line), w)
        } else {
            (done, cand)
        }
    }
}

/// The lines that greedy wrapping makes of the words of `text`.
pub open spec fn wrapped_lines(text: Seq<char>, max: int) -> Seq<Seq<char>> {
    let (done, line) = wrap_words(words(text), max);
    if line.len() > 0 {
        done.push(line)
    } else {
        done
    }
}

/// How a text is split at word boundaries into pieces of at most `max` bytes
/// where a word allows: `None` when it fits as it is.
pub open spec fn split_text(text: Seq<char>, max: int) -> Option<Seq<Seq<char>>> {
    if byte_len(text) <= max {
        None
    } else {
        Some(wrapped_lines(text, max))
    }
}

} // verus!
