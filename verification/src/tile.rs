//! The tile: one subtitle cue with its id, sequence number, timing, text and metadata.
use vstd::prelude::*;
use uuid::Uuid;

verus! {

/// `uuid::Uuid`, carried through the library as an opaque value.
#[verifier::external_type_specification]
#[verifier::external_body]
pub struct ExUuid(Uuid);

/// A fresh random id for a tile.
///
/// Trusted: calls `uuid::Uuid::new_v4`, which draws a random version-4 UUID;
/// nothing is claimed of the value.
#[verifier::external_body]
pub(crate) fn new_tile_id() -> Uuid {
    Uuid::new_v4()
}

/// The subtitle formats that `detect_format` tells apart.
#[derive(Debug, Clone, Copy, PartialEq, Eq, Structural)]
pub enum SubFormat {
    SRT,
    VTT,
    Unknown,
}

/// String-to-string metadata of a tile: a map from keys to values.
#[derive(Debug)]
pub struct Metadata {
    entries: Vec<(String, String)>,
}

/// Key-value pairs of strings as pairs of character sequences.
pub open spec fn pairs_view(v: Seq<(String, String)>) -> Seq<(Seq<char>, Seq<char>)> {
    v.map_values(|e: (String, String)| (e.0@, e.1@))
}

/// The map that a list of entries stands for, a later entry for a key
/// replacing an earlier one.
pub open spec fn entries_map(s: Seq<(Seq<char>, Seq<char>)>) -> Map<Seq<char>, Seq<char>>
    decreases s.len(),
{
    if s.len() == 0 {
        Map::empty()
    } else {
        entries_map(s.drop_last()).insert(s.last().0, s.last().1)
    }
}

proof fn lemma_entries_map_has(s: Seq<(Seq<char>, Seq<char>)>, k: Seq<char>)
    ensures
        entries_map(s).contains_key(k) <==> exists|j: int| 0 <= j < s.len() && (#[trigger] s[j]).0 == k,
    decreases s.len(),
{
    if s.len() > 0 {
        let t = s.drop_last();
        lemma_entries_map_has(t, k);
        if exists|j: int| 0 <= j < s.len() && (#[trigger] s[j]).0 == k {
            let j = choose|j: int| 0 <= j < s.len() && (#[trigger] s[j]).0 == k;
            if j < s.len() - 1 {
                assert(t[j].0 == k);
            }
        }
        if exists|j: int| 0 <= j < t.len() && (#[trigger] t[j]).0 == k {
            let j = choose|j: int| 0 <= j < t.len() && (#[trigger] t[j]).0 == k;
            assert(s[j].0 == k);
        }
    }
}

proof fn lemma_entries_map_last(s: Seq<(Seq<char>, Seq<char>)>, k: Seq<char>, i: int)
    requires
        0 <= i < s.len(),
        s[i].0 == k,
        forall|j: int| i < j < s.len() ==> (#[trigger] s[j]).0 != k,
    ensures
        entries_map(s).contains_key(k),
        entries_map(s)[k] == s[i].1,
    decreases s.len(),
{
    if i < s.len() - 1 {
        let t = s.drop_last();
        assert(s[s.len() - 1].0 != k);
        assert forall|j: int| i < j < t.len() implies (#[trigger] t[j]).0 != k by {
            assert(s[j].0 != k);
        }
        lemma_entries_map_last(t, k, i);
    }
}

proof fn lemma_entries_map_update(s: Seq<(Seq<char>, Seq<char>)>, i: int, k: Seq<char>, v: Seq<char>)
    requires
        0 <= i < s.len(),
        s[i].0 == k,
        forall|j: int| i < j < s.len() ==> (#[trigger] s[j]).0 != k,
    ensures
        entries_map(s.update(i, (k, v))) == entries_map(s).insert(k, v),
    decreases s.len(),
{
    let u = s.update(i, (k, v));
    if i == s.len() - 1 {
        assert(u.drop_last() =~= s.drop_last());
        assert(entries_map(u) =~= entries_map(s).insert(k, v));
    } else {
        let t = s.drop_last();
        assert(u.drop_last() =~= t.update(i, (k, v)));
        assert forall|j: int| i < j < t.len() implies (#[trigger] t[j]).0 != k by {
            assert(s[j].0 != k);
        }
        lemma_entries_map_update(t, i, k, v);
        assert(s.last().0 != k);
        assert(entries_map(u) =~= entries_map(s).insert(k, v));
    }
}

impl Metadata {
    /// The entries, each as a pair of character sequences.
    pub closed spec fn entry_seq(self) -> Seq<(Seq<char>, Seq<char>)> {
        pairs_view(self.entries@)
    }

    /// No metadata.
    pub fn new() -> (m: Self)
        ensures
            m@ == Map::<Seq<char>, Seq<char>>::empty(),
    {
        let m = Metadata { entries: Vec::new() };
        assert(m.entry_seq() =~= Seq::<(Seq<char>, Seq<char>)>::empty());
        m
    }

    /// The position of the last entry for `key`.
    fn find(&self, key: &String) -> (r: Option<usize>)
        ensures
            match r {
                Some(i) => i < self.entry_seq().len() && self.entry_seq()[i as int].0 == key@ && (
                forall|j: int|
                    i < j < self.entry_seq().len() ==> (#[trigger] self.entry_seq()[j]).0 != key@),
                None => forall|j: int|
                    0 <= j < self.entry_seq().len() ==> (#[trigger] self.entry_seq()[j]).0 != key@,
            },
    {
        let n = self.entries.len();
        let mut i = n;
        while i > 0
            invariant
                i <= n == self.entries@.len(),
                forall|j: int| i <= j < n ==> (#[trigger] self.entry_seq()[j]).0 != key@,
            decreases i,
        {
            if self.entries[i - 1].0 == *key {
                return Some(i - 1);
            }
            i = i - 1;
        }
        None
    }

    /// Sets the value for `key`, replacing the one it had.
    pub fn insert(&mut self, key: String, value: String)
        ensures
            final(self)@ == old(self)@.insert(key@, value@),
    {
        let ghost k = key@;
        let ghost v = value@;
        match self.find(&key) {
            Some(i) => {
                let ghost s = self.entry_seq();
                self.entries.set(i, (key, value));
                proof {
                    assert(self.entry_seq() =~= s.update(i as int, (k, v)));
                    lemma_entries_map_update(s, i as int, k, v);
                }
            },
            None => {
                let ghost s = self.entry_seq();
                self.entries.push((key, value));
                proof {
                    assert(self.entry_seq() =~= s.push((k, v)));
                    assert(self.entry_seq().drop_last() =~= s);
                }
            },
        }
    }

    /// The value for `key`, if there is one.
    pub fn get(&self, key: &str) -> (r: Option<&String>)
        ensures
            match r {
                Some(v) => self@.contains_key(key@) && v@ == self@[key@],
                None => !self@.contains_key(key@),
            },
    {
        let k = String::from_str(key);
        let found = self.find(&k);
        proof {
            lemma_entries_map_has(self.entry_seq(), key@);
        }
        match found {
            Some(i) => {
                proof {
                    lemma_entries_map_last(self.entry_seq(), key@, i as int);
                }
                Some(&self.entries[i].1)
            },
            None => None,
        }
    }

    /// Whether there is no entry.
    pub fn is_empty(&self) -> (b: bool)
        ensures
            b == (self@ == Map::<Seq<char>, Seq<char>>::empty()),
    {
        proof {
            let s = self.entry_seq();
            if s.len() > 0 {
                lemma_entries_map_has(s, s[0].0);
                assert(self@.contains_key(s[0].0));
            } else {
                assert(self@ =~= Map::<Seq<char>, Seq<char>>::empty());
            }
        }
        self.entries.len() == 0
    }

    /// The entries as key-value pairs, later pairs replacing earlier ones for the same key.
    pub fn pairs(&self) -> (r: Vec<(String, String)>)
        ensures
            entries_map(pairs_view(r@)) == self@,
    {
        let mut r: Vec<(String, String)> = Vec::new();
        let n = self.entries.len();
        let mut i: usize = 0;
        while i < n
            invariant
                i <= n == self.entries@.len(),
                r@.len() == i,
                pairs_view(r@) == self.entry_seq().take(i as int),
            decreases n - i,
        {
            let ghost old_r = r@;
            let k = self.entries[i].0.clone();
            let v = self.entries[i].1.clone();
            assert(k@ == self.entry_seq()[i as int].0);
            assert(v@ == self.entry_seq()[i as int].1);
            r.push((k, v));
            assert(pairs_view(old_r) == self.entry_seq().take(i as int));
            assert forall|j: int| 0 <= j < i implies pairs_view(r@)[j] == self.entry_seq()[j] by {
                assert(r@[j] == old_r[j]);
                assert(pairs_view(old_r)[j] == self.entry_seq().take(i as int)[j]);
            }
            assert(pairs_view(r@) =~= self.entry_seq().take(i + 1));
            i = i + 1;
        }
        assert(self.entry_seq().take(n as int) =~= self.entry_seq());
        r
    }
}

impl View for Metadata {
    type V = Map<Seq<char>, Seq<char>>;

    closed spec fn view(&self) -> Map<Seq<char>, Seq<char>> {
        entries_map(self.entry_seq())
    }
}

impl Clone for Metadata {
    /// A copy with the same entries.
    fn clone(&self) -> (r: Self)
        ensures
            r@ == self@,
    {
        let mut entries: Vec<(String, String)> = Vec::new();
        let n = self.entries.len();
        let mut i: usize = 0;
        while i < n
            invariant
                i <= n == self.entries@.len(),
                entries@.len() == i,
                pairs_view(entries@) == self.entry_seq().take(
                    i as int,
                ),
            decreases n - i,
        {
            let k = self.entries[i].0.clone();
            let v = self.entries[i].1.clone();
            let ghost old_e = entries@;
            entries.push((k, v));
            assert forall|j: int| 0 <= j < i implies pairs_view(entries@)[j] == self.entry_seq()[j] by {
                assert(entries@[j] == old_e[j]);
                assert(pairs_view(old_e)[j] == self.entry_seq().take(i as int)[j]);
            }
            assert(pairs_view(entries@) =~= self.entry_seq().take(i + 1));
            i = i + 1;
        }
        let r = Metadata { entries };
        assert(self.entry_seq().take(n as int) =~= self.entry_seq());
        assert(r.entry_seq() == self.entry_seq());
        r
    }
}

/// A subtitle cue: its sequence number, start and end in milliseconds, its
/// text (which may hold several lines) and its metadata.
pub struct Cue {
    pub index: int,
    pub start_ms: int,
    pub end_ms: int,
    pub text: Seq<char>,
    pub meta: Map<Seq<char>, Seq<char>>,
}

/// What a tile holds: its id and its cue.
pub struct TileView {
    pub id: Uuid,
    pub cue: Cue,
}

/// One subtitle cue as an independent unit.
#[derive(Debug)]
pub struct SubtitleTile {
    pub id: Uuid,
    pub index: u32,
    pub start_ms: u64,
    pub end_ms: u64,
    pub text: String,
    pub meta: Metadata,
}

impl View for SubtitleTile {
    type V = TileView;

    open spec fn view(&self) -> TileView {
        TileView {
            id: self.id,
            cue: Cue {
                index: self.index as int,
                start_ms: self.start_ms as int,
                end_ms: self.end_ms as int,
                text: self.text@,
                meta: self.meta@,
            },
        }
    }
}

impl Clone for SubtitleTile {
    /// A copy with the same id and content.
    fn clone(&self) -> (r: Self)
        ensures
            r@ == self@,
    {
        SubtitleTile {
            id: self.id,
            index: self.index,
            start_ms: self.start_ms,
            end_ms: self.end_ms,
            text: self.text.clone(),
            meta: self.meta.clone(),
        }
    }
}

/// The cues of a list of tiles.
pub open spec fn cues_of(tiles: Seq<SubtitleTile>) -> Seq<Cue> {
    tiles.map_values(|t: SubtitleTile| t@.cue)
}

/// The views of a list of tiles.
pub open spec fn views_of(tiles: Seq<SubtitleTile>) -> Seq<TileView> {
    tiles.map_values(|t: SubtitleTile| t@)
}

} // verus!
