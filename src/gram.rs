//! A single-field inverted index from fixed-width byte n-grams to how often
//! each document holds them, and the frequency-weighted score of a query.

use std::collections::HashMap;
use vstd::arithmetic::power2::{
    lemma2_to64, lemma_pow2_adds, lemma_pow2_strictly_increases, lemma_pow2_unfold, pow2,
};
use vstd::prelude::*;

use crate::doc::DocId;
use crate::pairs::{
    add_score, find_id, lemma_pairs_map_dom, lemma_pairs_map_index, lemma_pairs_map_len,
    lemma_pairs_map_update, pairs_map, unique_ids,
};

verus! {

broadcast use vstd::std_specs::hash::group_hash_axioms;

/// The widest gram an index can have: a gram is keyed by a 64-bit number.
pub const MAX_WIDTH: usize = 8;

/// Fixed-point unit of the inverse-document-frequency weight.
pub const IDF_UNIT: u128 = 4294967296;

/// Every inverse-document-frequency weight is below this bound.
pub const IDF_BOUND: u128 = 274877906944;

// ---------------------------------------------------------------------------
// Model
// ---------------------------------------------------------------------------

/// The number of a gram: its bytes read as a big-endian integer.
pub open spec fn gram_key(g: Seq<u8>) -> nat
    decreases g.len(),
{
    if g.len() == 0 {
        0
    } else {
        (gram_key(g.drop_last()) * 256 + g.last()) as nat
    }
}

/// How many grams of width `n` a text of `len` bytes holds.
pub open spec fn num_windows(len: int, n: int) -> int {
    if len >= n {
        len - n + 1
    } else {
        0
    }
}

/// The key of the gram of width `n` that starts at byte `i` of `text`.
pub open spec fn window_key(text: Seq<u8>, n: int, i: int) -> u64 {
    gram_key(text.subrange(i, i + n)) as u64
}

/// What the index holds for one gram: how often each document holds it,
/// and the largest of those counts.
pub struct GramView {
    pub freqs: Map<DocId, usize>,
    pub max: usize,
}

/// What a gram index holds: its gram width, the counts of every gram it has
/// seen, and how many documents it has been given.
pub struct IndexView {
    pub width: usize,
    pub grams: Map<u64, GramView>,
    pub total: usize,
}

pub open spec fn empty_gram() -> GramView {
    GramView { freqs: Map::empty(), max: 0 }
}

/// The counts of one gram; a gram never seen has none.
pub open spec fn gram_of(v: IndexView, key: u64) -> GramView {
    if v.grams.contains_key(key) {
        v.grams[key]
    } else {
        empty_gram()
    }
}

/// How often document `id` holds the gram; 0 when it does not.
pub open spec fn count_of(g: GramView, id: DocId) -> usize {
    if g.freqs.contains_key(id) {
        g.freqs[id]
    } else {
        0
    }
}

/// `x + 1`, held at `usize::MAX`.
pub open spec fn sat_inc(x: usize) -> usize {
    if x < usize::MAX {
        (x + 1) as usize
    } else {
        x
    }
}

/// `m` is the largest count of `freqs`, or 0 when there is none.
pub open spec fn is_max(freqs: Map<DocId, usize>, m: usize) -> bool {
    &&& forall|id: DocId| #[trigger] freqs.contains_key(id) ==> freqs[id] <= m
    &&& (m == 0 || exists|id: DocId| #[trigger] freqs.contains_key(id) && freqs[id] == m)
}

/// Every count is positive and `max` is the largest of them.
pub open spec fn gram_wf(g: GramView) -> bool {
    &&& forall|id: DocId| #[trigger] g.freqs.contains_key(id) ==> g.freqs[id] >= 1
    &&& is_max(g.freqs, g.max)
    &&& g.freqs.dom().finite()
}

/// The gram after one more occurrence in document `id`.
pub open spec fn bumped(g: GramView, id: DocId) -> GramView {
    let c = sat_inc(count_of(g, id));
    GramView { freqs: g.freqs.insert(id, c), max: if c > g.max { c } else { g.max } }
}

/// The gram with document `id` taken out.
pub open spec fn without(g: GramView, id: DocId) -> GramView {
    let f = g.freqs.remove(id);
    GramView { freqs: f, max: choose|m: usize| is_max(f, m) }
}

impl IndexView {
    pub open spec fn wf(self) -> bool {
        &&& 1 <= self.width <= MAX_WIDTH
        &&& forall|k: u64| #[trigger] self.grams.contains_key(k) ==> gram_wf(self.grams[k])
    }

    /// The index after one more occurrence of gram `key` in document `id`.
    pub open spec fn bump(self, key: u64, id: DocId) -> IndexView {
        IndexView { grams: self.grams.insert(key, bumped(gram_of(self, key), id)), ..self }
    }

    /// The index after the first `upto` grams of `text` were counted for `id`.
    pub open spec fn add_windows(self, id: DocId, text: Seq<u8>, upto: nat) -> IndexView
        decreases upto,
    {
        if upto == 0 {
            self
        } else {
            self.add_windows(id, text, (upto - 1) as nat).bump(
                window_key(text, self.width as int, upto - 1),
                id,
            )
        }
    }

    /// The index after every gram of `text` was counted for `id`.
    pub open spec fn add_text(self, id: DocId, text: Seq<u8>) -> IndexView {
        self.add_windows(id, text, num_windows(text.len() as int, self.width as int) as nat)
    }

    /// The index after every gram of each of `texts` was counted for `id`.
    pub open spec fn add_texts(self, id: DocId, texts: Seq<Seq<u8>>) -> IndexView
        decreases texts.len(),
    {
        if texts.len() == 0 {
            self
        } else {
            self.add_texts(id, texts.drop_last()).add_text(id, texts.last())
        }
    }

    /// The index with one more document counted.
    pub open spec fn counted(self) -> IndexView {
        IndexView { total: sat_inc(self.total), ..self }
    }

    /// The index with document `id` taken out of every gram and one document
    /// fewer counted.
    pub open spec fn purged(self, id: DocId) -> IndexView {
        IndexView {
            grams: self.grams.map_values(|g: GramView| without(g, id)),
            total: if self.total > 0 {
                (self.total - 1) as usize
            } else {
                0
            },
            ..self
        }
    }
}

// ---------------------------------------------------------------------------
// Scoring
// ---------------------------------------------------------------------------

/// `(k, b)`: `b` is `d` doubled `k` times, the largest such value not above
/// `t` (or `d` itself when `t < 2d`).
pub open spec fn log_base(t: nat, d: nat) -> (nat, nat)
    decreases t - d,
{
    if d == 0 || t < 2 * d {
        (0, d)
    } else {
        let r = log_base(t, 2 * d);
        (r.0 + 1, r.1)
    }
}

/// The inverse-document-frequency weight of a gram that `d` of `t` documents
/// hold: `log2(t / d)` in units of `IDF_UNIT`, exact at powers of two and
/// linear in between, and 0 when `t <= d`.
pub open spec fn idf_weight(t: nat, d: nat) -> nat {
    if d == 0 || t <= d {
        0
    } else {
        let r = log_base(t, d);
        (r.0 * IDF_UNIT + ((t - r.1) * IDF_UNIT) / (r.1 as int)) as nat
    }
}

/// The number of documents that hold a gram, at least 1.
pub open spec fn doc_count(g: GramView) -> nat {
    if g.freqs.dom().len() == 0 {
        1
    } else {
        g.freqs.dom().len()
    }
}

/// What one occurrence of the gram in the query adds to document `id`'s
/// score: `(1 + count / max) / 2` times the gram's weight, rounded down.
pub open spec fn term(g: GramView, id: DocId, total: usize) -> nat {
    if g.max == 0 {
        0
    } else {
        (((g.max + count_of(g, id)) * idf_weight(total as nat, doc_count(g))) / (2 * g.max as int)) as nat
    }
}

/// `acc` with each document that holds the gram credited its term.
pub open spec fn credit(acc: Map<DocId, nat>, g: GramView, total: usize) -> Map<DocId, nat> {
    Map::new(
        |id: DocId| acc.contains_key(id) || g.freqs.contains_key(id),
        |id: DocId|
            (if acc.contains_key(id) {
                acc[id]
            } else {
                0
            }) + (if g.freqs.contains_key(id) {
                term(g, id, total)
            } else {
                0
            }),
    )
}

/// The scores after the first `upto` grams of `query`.
pub open spec fn scores_upto(v: IndexView, query: Seq<u8>, upto: nat) -> Map<DocId, nat>
    decreases upto,
{
    if upto == 0 {
        Map::empty()
    } else {
        credit(
            scores_upto(v, query, (upto - 1) as nat),
            gram_of(v, window_key(query, v.width as int, upto - 1)),
            v.total,
        )
    }
}

/// The score of every document that shares a gram with `query`; a document
/// that shares none has no entry.
pub open spec fn scores(v: IndexView, query: Seq<u8>) -> Map<DocId, nat> {
    scores_upto(v, query, num_windows(query.len() as int, v.width as int) as nat)
}

/// A list of byte strings as values.
pub open spec fn bytes_view(v: Seq<Vec<u8>>) -> Seq<Seq<u8>> {
    v.map_values(|t: Vec<u8>| t@)
}

/// A list of scores read as a map.
pub open spec fn score_map(s: Seq<(DocId, u128)>) -> Map<DocId, nat> {
    pairs_map(s).map_values(|x: u128| x as nat)
}

// ---------------------------------------------------------------------------
// Counts of one gram
// ---------------------------------------------------------------------------

/// How often each document holds one gram, and the largest of those counts.
struct Freqs {
    key: u64,
    counts: Vec<(DocId, usize)>,
    max: usize,
}

impl View for Freqs {
    type V = GramView;

    closed spec fn view(&self) -> GramView {
        GramView { freqs: pairs_map(self.counts@), max: self.max }
    }
}

proof fn lemma_unique_push<V>(s: Seq<(DocId, V)>, x: (DocId, V))
    requires
        unique_ids(s),
        forall|i: int| 0 <= i < s.len() ==> s[i].0 != x.0,
    ensures
        unique_ids(s.push(x)),
        pairs_map(s.push(x)) == pairs_map(s).insert(x.0, x.1),
{
    assert(s.push(x).drop_last() =~= s);
}

impl Freqs {
    pub closed spec fn wf(&self) -> bool {
        &&& unique_ids(self.counts@)
        &&& forall|i: int| 0 <= i < self.counts@.len() ==> 1 <= #[trigger] self.counts@[i].1 <= self.max
        &&& (self.max == 0 || exists|i: int|
            0 <= i < self.counts@.len() && #[trigger] self.counts@[i].1 == self.max)
    }

    proof fn lemma_wf_view(&self)
        requires
            self.wf(),
        ensures
            gram_wf(self@),
    {
        let f = pairs_map(self.counts@);
        assert forall|id: DocId| #[trigger] f.contains_key(id) implies 1 <= f[id] <= self.max by {
            lemma_pairs_map_dom(self.counts@, id);
            let i = choose|i: int| 0 <= i < self.counts@.len() && self.counts@[i].0 == id;
            lemma_pairs_map_index(self.counts@, i);
        }
        if self.max != 0 {
            let i = choose|i: int| 0 <= i < self.counts@.len() && #[trigger] self.counts@[i].1 == self.max;
            lemma_pairs_map_index(self.counts@, i);
            assert(f.contains_key(self.counts@[i].0));
        }
        crate::pairs::lemma_pairs_map_finite(self.counts@);
    }

    fn new(key: u64) -> (r: Freqs)
        ensures
            r.wf(),
            r@ == empty_gram(),
            r.key == key,
    {
        let r = Freqs { key, counts: Vec::new(), max: 0 };
        assert(r@.freqs =~= Map::empty());
        r
    }

    fn len(&self) -> (r: usize)
        requires
            self.wf(),
        ensures
            r == self@.freqs.dom().len(),
    {
        proof {
            lemma_pairs_map_len(self.counts@);
        }
        self.counts.len()
    }

    /// Counts one more occurrence in document `id`.
    fn increase(&mut self, id: DocId)
        requires
            old(self).wf(),
        ensures
            final(self).wf(),
            final(self)@ == bumped(old(self)@, id),
            final(self).key == old(self).key,
    {
        proof {
            lemma_pairs_map_dom(self.counts@, id);
        }
        match find_id(&self.counts, id) {
            Some(i) => {
                let c = self.counts[i].1;
                let c2 = if c < usize::MAX {
                    c + 1
                } else {
                    c
                };
                proof {
                    lemma_pairs_map_index(self.counts@, i as int);
                    lemma_pairs_map_update(self.counts@, i as int, c2);
                }
                let ghost old_max = self.max;
                self.counts.set(i, (id, c2));
                if c2 > self.max {
                    self.max = c2;
                }
                proof {
                    if self.max != 0 {
                        if c2 > old_max {
                            assert(self.counts@[i as int].1 == self.max);
                        } else {
                            let j = choose|j: int|
                                0 <= j < old(self).counts@.len() && #[trigger] old(self).counts@[j].1
                                    == old_max;
                            assert(self.counts@[j].1 == self.max);
                        }
                    }
                }
            },
            None => {
                proof {
                    lemma_unique_push(self.counts@, (id, 1usize));
                }
                self.counts.push((id, 1));
                if 1 > self.max {
                    self.max = 1;
                }
                proof {
                    if self.max == 1 {
                        assert(self.counts@[self.counts@.len() - 1].1 == 1);
                    } else {
                        let j = choose|j: int|
                            0 <= j < old(self).counts@.len() && #[trigger] old(self).counts@[j].1
                                == self.max;
                        assert(self.counts@[j].1 == self.max);
                    }
                }
            },
        }
        proof {
            assert(self@.freqs =~= bumped(old(self)@, id).freqs);
        }
    }

    /// Takes document `id` out and finds the largest remaining count.
    fn remove_id(&mut self, id: DocId)
        requires
            old(self).wf(),
        ensures
            final(self).wf(),
            final(self)@ == without(old(self)@, id),
            final(self).key == old(self).key,
    {
        let ghost s = self.counts@;
        let mut kept: Vec<(DocId, usize)> = Vec::new();
        let mut max: usize = 0;
        let mut j: usize = 0;
        while j < self.counts.len()
            invariant
                s == self.counts@,
                unique_ids(s),
                forall|i: int| 0 <= i < s.len() ==> 1 <= #[trigger] s[i].1,
                j <= s.len(),
                unique_ids(kept@),
                forall|i: int| 0 <= i < kept@.len() ==> 1 <= #[trigger] kept@[i].1 <= max,
                max == 0 || exists|i: int| 0 <= i < kept@.len() && #[trigger] kept@[i].1 == max,
                pairs_map(kept@) == pairs_map(s.subrange(0, j as int)).remove(id),
            decreases s.len() - j,
        {
            let e = self.counts[j];
            proof {
                assert(s.subrange(0, j + 1).drop_last() =~= s.subrange(0, j as int));
            }
            if e.0 != id {
                proof {
                    lemma_pairs_map_dom(s.subrange(0, j as int), e.0);
                    if pairs_map(s.subrange(0, j as int)).contains_key(e.0) {
                        let k = choose|k: int| 0 <= k < j && s.subrange(0, j as int)[k].0 == e.0;
                        assert(s[k].0 == s[j as int].0);
                    }
                    assert forall|i: int| 0 <= i < kept@.len() implies kept@[i].0 != e.0 by {
                        lemma_pairs_map_dom(kept@, kept@[i].0);
                    }
                    lemma_unique_push(kept@, e);
                }
                let ghost old_kept = kept@;
                let ghost old_max = max;
                kept.push(e);
                if e.1 > max {
                    max = e.1;
                }
                proof {
                    assert(pairs_map(kept@) =~= pairs_map(s.subrange(0, j + 1)).remove(id));
                    if max != 0 {
                        if e.1 > old_max {
                            assert(kept@[kept@.len() - 1].1 == max);
                        } else {
                            let i = choose|i: int| 0 <= i < old_kept.len() && #[trigger] old_kept[i].1 == max;
                            assert(kept@[i].1 == max);
                        }
                    }
                }
            } else {
                proof {
                    assert(pairs_map(kept@) =~= pairs_map(s.subrange(0, j + 1)).remove(id));
                }
            }
            j = j + 1;
        }
        proof {
            assert(s.subrange(0, s.len() as int) =~= s);
        }
        self.counts = kept;
        self.max = max;
        proof {
            let f = pairs_map(self.counts@);
            assert forall|x: DocId| #[trigger] f.contains_key(x) implies 1 <= f[x] <= max by {
                lemma_pairs_map_dom(self.counts@, x);
                let i = choose|i: int| 0 <= i < self.counts@.len() && self.counts@[i].0 == x;
                lemma_pairs_map_index(self.counts@, i);
            }
            assert(is_max(f, max)) by {
                assert forall|x: DocId| #[trigger] f.contains_key(x) implies f[x] <= max by {
                    lemma_pairs_map_dom(self.counts@, x);
                    let i = choose|i: int| 0 <= i < self.counts@.len() && self.counts@[i].0 == x;
                    lemma_pairs_map_index(self.counts@, i);
                }
                if max != 0 {
                    let i = choose|i: int| 0 <= i < self.counts@.len() && #[trigger] self.counts@[i].1 == max;
                    lemma_pairs_map_index(self.counts@, i);
                    assert(f.contains_key(self.counts@[i].0));
                }
            }
            lemma_max_unique(f, max);
        }
    }
}

/// A map's largest count is unique.
proof fn lemma_max_unique(f: Map<DocId, usize>, m: usize)
    requires
        is_max(f, m),
        forall|id: DocId| #[trigger] f.contains_key(id) ==> f[id] >= 1,
    ensures
        (choose|x: usize| is_max(f, x)) == m,
{
    let c = choose|x: usize| is_max(f, x);
    assert(is_max(f, c));
    if c != m {
        if c != 0 {
            let a = choose|id: DocId| #[trigger] f.contains_key(id) && f[id] == c;
            assert(f[a] <= m);
        }
        if m != 0 {
            let b = choose|id: DocId| #[trigger] f.contains_key(id) && f[id] == m;
            assert(f[b] <= c);
        }
        if c == 0 {
            let b = choose|id: DocId| #[trigger] f.contains_key(id) && f[id] == m;
        }
        if m == 0 {
            let a = choose|id: DocId| #[trigger] f.contains_key(id) && f[id] == c;
        }
    }
}

// ---------------------------------------------------------------------------
// The index
// ---------------------------------------------------------------------------

/// An inverted index from the grams of one field to per-document counts.
pub struct Index {
    width: usize,
    slots: HashMap<u64, usize>,
    entries: Vec<Freqs>,
    total: usize,
}

impl View for Index {
    type V = IndexView;

    closed spec fn view(&self) -> IndexView {
        IndexView {
            width: self.width,
            grams: Map::new(
                |k: u64| self.slots@.contains_key(k),
                |k: u64| self.entries@[self.slots@[k] as int]@,
            ),
            total: self.total,
        }
    }
}

impl Index {
    pub closed spec fn wf(&self) -> bool {
        &&& 1 <= self.width <= MAX_WIDTH
        &&& forall|k: u64| #[trigger]
            self.slots@.contains_key(k) ==> self.slots@[k] < self.entries@.len()
                && self.entries@[self.slots@[k] as int].key == k
        &&& forall|i: int|
            0 <= i < self.entries@.len() ==> self.slots@.contains_key(#[trigger] self.entries@[i].key)
                && self.slots@[self.entries@[i].key] == i
        &&& forall|i: int| 0 <= i < self.entries@.len() ==> (#[trigger] self.entries@[i]).wf()
    }

    pub proof fn lemma_wf(&self)
        requires
            self.wf(),
        ensures
            self@.wf(),
    {
        assert forall|k: u64| #[trigger] self@.grams.contains_key(k) implies gram_wf(
            self@.grams[k],
        ) by {
            self.entries@[self.slots@[k] as int].lemma_wf_view();
        }
    }

    /// An empty index over grams of `width` bytes.
    pub fn new(width: usize) -> (r: Index)
        requires
            1 <= width <= MAX_WIDTH,
        ensures
            r.wf(),
            r@ == (IndexView { width, grams: Map::empty(), total: 0 }),
    {
        let r = Index { width, slots: HashMap::new(), entries: Vec::new(), total: 0 };
        assert(r@.grams =~= Map::empty());
        r
    }

    /// The gram width.
    pub fn width(&self) -> (r: usize)
        ensures
            r == self@.width,
    {
        self.width
    }

    /// How many documents the index has been given.
    pub fn total_docs(&self) -> (r: usize)
        ensures
            r == self@.total,
    {
        self.total
    }

    /// The key of the gram of `width` bytes at `start` in `text`.
    fn key_at(text: &[u8], start: usize, width: usize) -> (r: u64)
        requires
            1 <= width <= MAX_WIDTH,
            start + width <= text@.len(),
        ensures
            r == window_key(text@, width as int, start as int),
            r == gram_key(text@.subrange(start as int, start + width)),
    {
        let len = text.len();
        let mut k: u64 = 0;
        let mut j: usize = 0;
        proof {
            vstd::arithmetic::power2::lemma_pow2_pos(0);
        }
        while j < width
            invariant
                j <= width <= MAX_WIDTH,
                start + width <= text@.len() == len,
                k == gram_key(text@.subrange(start as int, start + j)),
                k < pow2(8 * j as nat),
            decreases width - j,
        {
            let b = text[start + j];
            proof {
                assert(text@.subrange(start as int, start + j + 1).drop_last() =~= text@.subrange(
                    start as int,
                    start + j,
                ));
                lemma_pow2_adds(8 * j as nat, 8);
                lemma2_to64();
                if 8 * (j + 1) < 64 {
                    lemma_pow2_strictly_increases(8 * (j + 1) as nat, 64);
                }
                assert(k * 256 + b < pow2(8 * j as nat) * 256) by (nonlinear_arith)
                    requires
                        k < pow2(8 * j as nat),
                        b < 256,
                ;
            }
            k = k * 256 + b as u64;
            j = j + 1;
        }
        k
    }

    /// Counts one more occurrence of gram `key` in document `id`.
    fn bump(&mut self, key: u64, id: DocId)
        requires
            old(self).wf(),
        ensures
            final(self).wf(),
            final(self)@ == old(self)@.bump(key, id),
    {
        match self.slots.get(&key) {
            Some(slot) => {
                let slot = *slot;
                let ghost before = self.entries@;
                self.entries[slot].increase(id);
                proof {
                    assert forall|i: int| 0 <= i < self.entries@.len() && i != slot implies
                        self.entries@[i] == before[i] by {}
                    assert(self@.grams =~= old(self)@.bump(key, id).grams);
                }
            },
            None => {
                let mut f = Freqs::new(key);
                f.increase(id);
                let slot = self.entries.len();
                self.entries.push(f);
                self.slots.insert(key, slot);
                proof {
                    assert(self@.grams =~= old(self)@.bump(key, id).grams);
                }
            },
        }
    }

    /// Counts every gram of `text` for document `id`.
    fn add_text(&mut self, id: DocId, text: &[u8])
        requires
            old(self).wf(),
        ensures
            final(self).wf(),
            final(self)@ == old(self)@.add_text(id, text@),
    {
        let n = self.width;
        if text.len() < n {
            return ;
        }
        let count = text.len() - n + 1;
        let mut i: usize = 0;
        while i < count
            invariant
                self.wf(),
                n == self.width == old(self)@.width,
                count == num_windows(text@.len() as int, n as int),
                i <= count,
                self@ == old(self)@.add_windows(id, text@, i as nat),
            decreases count - i,
        {
            let key = Self::key_at(text, i, n);
            self.bump(key, id);
            i = i + 1;
        }
    }

    /// Indexes `text` as the content of document `id`.
    pub fn insert(&mut self, id: DocId, text: &[u8])
        requires
            old(self).wf(),
        ensures
            final(self).wf(),
            final(self)@ == old(self)@.add_text(id, text@).counted(),
    {
        self.add_text(id, text);
        if self.total < usize::MAX {
            self.total = self.total + 1;
        }
    }

    /// Indexes each of `texts` as content of document `id`, which counts as
    /// one document.
    pub fn insert_many(&mut self, id: DocId, texts: &Vec<Vec<u8>>)
        requires
            old(self).wf(),
        ensures
            final(self).wf(),
            final(self)@ == old(self)@.add_texts(id, bytes_view(texts@)).counted(),
    {
        let ghost ts = bytes_view(texts@);
        let mut i: usize = 0;
        while i < texts.len()
            invariant
                self.wf(),
                i <= texts@.len(),
                ts == bytes_view(texts@),
                self@ == old(self)@.add_texts(id, ts.subrange(0, i as int)),
            decreases texts@.len() - i,
        {
            proof {
                assert(ts.subrange(0, i + 1).drop_last() =~= ts.subrange(0, i as int));
                lemma_add_texts_width(old(self)@, id, ts.subrange(0, i as int));
            }
            self.add_text(id, texts[i].as_slice());
            i = i + 1;
        }
        proof {
            assert(ts.subrange(0, texts@.len() as int) =~= ts);
        }
        if self.total < usize::MAX {
            self.total = self.total + 1;
        }
    }

    /// Takes document `id` out of every gram and counts one document fewer.
    pub fn remove(&mut self, id: DocId)
        requires
            old(self).wf(),
        ensures
            final(self).wf(),
            final(self)@ == old(self)@.purged(id),
    {
        let mut i: usize = 0;
        while i < self.entries.len()
            invariant
                self.wf(),
                self.slots@ == old(self).slots@,
                self.width == old(self).width,
                self.total == old(self).total,
                self.entries@.len() == old(self).entries@.len(),
                i <= self.entries@.len(),
                forall|j: int|
                    0 <= j < i ==> (#[trigger] self.entries@[j])@ == without(
                        old(self).entries@[j]@,
                        id,
                    ),
                forall|j: int|
                    i <= j < self.entries@.len() ==> #[trigger] self.entries@[j] == old(
                        self,
                    ).entries@[j],
            decreases self.entries@.len() - i,
        {
            let ghost before = self.entries@;
            self.entries[i].remove_id(id);
            proof {
                assert forall|j: int| 0 <= j < self.entries@.len() && j != i implies
                    self.entries@[j] == before[j] by {}
            }
            i = i + 1;
        }
        if self.total > 0 {
            self.total = self.total - 1;
        }
        proof {
            assert(self@.grams =~= old(self)@.purged(id).grams);
        }
    }
}

pub proof fn lemma_add_windows_width(v: IndexView, id: DocId, text: Seq<u8>, upto: nat)
    ensures
        v.add_windows(id, text, upto).width == v.width,
        v.add_windows(id, text, upto).total == v.total,
    decreases upto,
{
    if upto > 0 {
        lemma_add_windows_width(v, id, text, (upto - 1) as nat);
    }
}

pub proof fn lemma_add_texts_width(v: IndexView, id: DocId, texts: Seq<Seq<u8>>)
    ensures
        v.add_texts(id, texts).width == v.width,
        v.add_texts(id, texts).total == v.total,
    decreases texts.len(),
{
    if texts.len() > 0 {
        lemma_add_texts_width(v, id, texts.drop_last());
        let w = v.add_texts(id, texts.drop_last());
        lemma_add_windows_width(w, id, texts.last(), num_windows(texts.last().len() as int, w.width as int) as nat);
    }
}

// ---------------------------------------------------------------------------
// Search
// ---------------------------------------------------------------------------

/// `acc` with each document of `ids` credited its term of gram `g`.
pub open spec fn credit_with(
    acc: Map<DocId, nat>,
    ids: Map<DocId, usize>,
    g: GramView,
    total: usize,
) -> Map<DocId, nat> {
    Map::new(
        |id: DocId| acc.contains_key(id) || ids.contains_key(id),
        |id: DocId|
            (if acc.contains_key(id) {
                acc[id]
            } else {
                0
            }) + (if ids.contains_key(id) {
                term(g, id, total)
            } else {
                0
            }),
    )
}

proof fn lemma_log_base_bound(t: nat, d: nat)
    requires
        1 <= d <= t,
    ensures
        log_base(t, d).1 == d * pow2(log_base(t, d).0),
        d <= log_base(t, d).1 <= t < 2 * log_base(t, d).1,
    decreases t - d,
{
    vstd::arithmetic::power2::lemma_pow2_pos(0);
    assert(pow2(0) == 1) by {
        vstd::arithmetic::power2::lemma_pow2(0);
        vstd::arithmetic::power::lemma_pow0(2);
    }
    if t >= 2 * d {
        lemma_log_base_bound(t, 2 * d);
        let r = log_base(t, 2 * d);
        let k = r.0;
        assert(log_base(t, d) == (k + 1, r.1));
        lemma_pow2_unfold(k + 1);
        assert(pow2(k + 1) == 2 * pow2(k));
        assert(r.1 == 2 * d * pow2(k));
        assert(2 * d * pow2(k) == d * (2 * pow2(k))) by (nonlinear_arith);
        assert(r.1 == d * pow2(k + 1));
    } else {
        assert(log_base(t, d) == (0nat, d));
        assert(d * pow2(0) == d);
    }
}

/// `log_base(t, d)` doubles `d` a number of times up to the largest value
/// not above `t`.
pub proof fn lemma_log_base_bound_pub(t: nat, d: nat)
    requires
        1 <= d <= t,
    ensures
        log_base(t, d).1 == d * pow2(log_base(t, d).0),
        d <= log_base(t, d).1 <= t < 2 * log_base(t, d).1,
{
    lemma_log_base_bound(t, d);
}

proof fn lemma_frac_below(x: nat, b: nat)
    requires
        x < b,
    ensures
        (x * IDF_UNIT) / (b as int) < IDF_UNIT,
{
    assert((x * IDF_UNIT) / (b as int) < IDF_UNIT as int) by (nonlinear_arith)
        requires
            x < b,
    ;
}

/// The weight `idf_weight(t, d)` of a gram that `d` of `t` documents hold.
pub fn idf(t: usize, d: usize) -> (r: u128)
    requires
        d >= 1,
    ensures
        r == idf_weight(t as nat, d as nat),
        r < IDF_BOUND,
{
    if t <= d {
        return 0;
    }
    let mut k: u128 = 0;
    let mut b: usize = d;
    proof {
        lemma_log_base_bound(t as nat, d as nat);
        vstd::arithmetic::power2::lemma_pow2(0);
        vstd::arithmetic::power::lemma_pow0(2);
    }
    while b <= t / 2
        invariant
            1 <= d <= b <= t,
            log_base(t as nat, d as nat) == ((k + log_base(t as nat, b as nat).0) as nat, log_base(
                t as nat,
                b as nat,
            ).1),
            b == d * pow2(k as nat),
            k < 64,
        decreases t - b,
    {
        proof {
            lemma_pow2_unfold((k + 1) as nat);
            lemma2_to64();
            assert(2 * b == d * pow2((k + 1) as nat)) by (nonlinear_arith)
                requires
                    b == d * pow2(k as nat),
                    pow2((k + 1) as nat) == 2 * pow2(k as nat),
            ;
            assert(pow2((k + 1) as nat) <= d * pow2((k + 1) as nat)) by (nonlinear_arith)
                requires
                    d >= 1,
            ;
            if k + 1 > 64 {
                lemma_pow2_strictly_increases(64, (k + 1) as nat);
            }
        }
        b = b * 2;
        k = k + 1;
    }
    proof {
        lemma_frac_below((t - b) as nat, b as nat);
    }
    let frac = ((t - b) as u128 * IDF_UNIT) / (b as u128);
    k * IDF_UNIT + frac
}

proof fn lemma_term_bound(g: GramView, id: DocId, total: usize)
    requires
        gram_wf(g),
        g.freqs.contains_key(id),
    ensures
        term(g, id, total) <= idf_weight(total as nat, doc_count(g)),
{
    let w = idf_weight(total as nat, doc_count(g));
    let c = count_of(g, id);
    let m = g.max;
    assert((((m + c) * w) / (2 * m as int)) <= w) by (nonlinear_arith)
        requires
            1 <= c <= m,
    ;
}

impl Index {
    /// Credits each document that holds the gram in entry `slot` with its
    /// term.
    fn credit_slot(&self, acc: &mut Vec<(DocId, u128)>, slot: usize, Ghost(bound): Ghost<nat>)
        requires
            self.wf(),
            slot < self.entries@.len(),
            unique_ids(old(acc)@),
            bound <= 18446744073709551615,
            forall|id: DocId| #[trigger]
                score_map(old(acc)@).contains_key(id) ==> score_map(old(acc)@)[id] <= bound
                    * IDF_BOUND,
        ensures
            unique_ids(final(acc)@),
            score_map(final(acc)@) == credit(
                score_map(old(acc)@),
                self.entries@[slot as int]@,
                self.total,
            ),
            forall|id: DocId| #[trigger]
                score_map(final(acc)@).contains_key(id) ==> score_map(final(acc)@)[id] <= (bound
                    + 1) * IDF_BOUND,
    {
        let f = &self.entries[slot];
        let ghost g = f@;
        let ghost a0 = score_map(acc@);
        proof {
            f.lemma_wf_view();
        }
        let n = f.len();
        let d = if n == 0 {
            1
        } else {
            n
        };
        let w = idf(self.total, d);
        let mut j: usize = 0;
        while j < f.counts.len()
            invariant
                f.wf(),
                g == f@,
                gram_wf(g),
                j <= f.counts@.len(),
                w == idf_weight(self.total as nat, doc_count(g)),
                w < IDF_BOUND,
                bound <= 18446744073709551615,
                unique_ids(acc@),
                score_map(acc@) == credit_with(
                    a0,
                    pairs_map(f.counts@.subrange(0, j as int)),
                    g,
                    self.total,
                ),
                forall|id: DocId| #[trigger]
                    a0.contains_key(id) ==> a0[id] <= bound * IDF_BOUND,
            decreases f.counts@.len() - j,
        {
            let (id, c) = f.counts[j];
            let ghost es = f.counts@.subrange(0, j as int);
            proof {
                lemma_pairs_map_index(f.counts@, j as int);
                lemma_pairs_map_dom(es, id);
                if pairs_map(es).contains_key(id) {
                    let k = choose|k: int| 0 <= k < es.len() && es[k].0 == id;
                    assert(f.counts@[k].0 == f.counts@[j as int].0);
                }
                lemma_term_bound(g, id, self.total);
                assert(f.counts@.subrange(0, j + 1).drop_last() =~= es);
                assert(1 <= c <= f.max);
                assert((f.max + c) * w <= 2 * 18446744073709551615 * IDF_BOUND) by (nonlinear_arith)
                    requires
                        c <= f.max,
                        f.max <= 18446744073709551615,
                        w < IDF_BOUND,
                ;
                assert(bound * IDF_BOUND + IDF_BOUND <= 18446744073709551616 * IDF_BOUND) by (
                nonlinear_arith)
                    requires
                        bound <= 18446744073709551615,
                ;
                lemma_pairs_map_dom(acc@, id);
                assert(c == count_of(g, id));
                assert(!pairs_map(es).contains_key(id));
                if pairs_map(acc@).contains_key(id) {
                    assert(score_map(acc@).contains_key(id));
                    assert(score_map(acc@)[id] == pairs_map(acc@)[id] as nat);
                    assert(a0.contains_key(id));
                    assert(score_map(acc@)[id] == a0[id]);
                    assert(a0[id] <= bound * IDF_BOUND);
                }
            }
            let t = ((f.max as u128 + c as u128) * w) / (2 * f.max as u128);
            proof {
                assert(t == term(g, id, self.total));
            }
            let ghost before = acc@;
            add_score(acc, id, t);
            proof {
                assert(score_map(acc@) =~= score_map(before).insert(
                    id,
                    ((if score_map(before).contains_key(id) {
                        score_map(before)[id]
                    } else {
                        0
                    }) + t) as nat,
                ));
                assert(score_map(acc@) =~= credit_with(
                    a0,
                    pairs_map(f.counts@.subrange(0, j + 1)),
                    g,
                    self.total,
                ));
            }
            j = j + 1;
        }
        proof {
            assert(f.counts@.subrange(0, f.counts@.len() as int) =~= f.counts@);
            assert(score_map(acc@) =~= credit(a0, g, self.total));
            assert forall|id: DocId| #[trigger]
                score_map(acc@).contains_key(id) implies score_map(acc@)[id] <= (bound + 1)
                * IDF_BOUND by {
                if g.freqs.contains_key(id) {
                    lemma_term_bound(g, id, self.total);
                }
            }
        }
    }

    /// The score of every document that shares a gram with `text`.
    pub fn search(&self, text: &[u8]) -> (r: Vec<(DocId, u128)>)
        requires
            self.wf(),
        ensures
            unique_ids(r@),
            score_map(r@) == scores(self@, text@),
            forall|id: DocId| #[trigger]
                score_map(r@).contains_key(id) ==> score_map(r@)[id] <= text@.len()
                    * IDF_BOUND,
    {
        let n = self.width;
        let mut acc: Vec<(DocId, u128)> = Vec::new();
        proof {
            assert(score_map(acc@) =~= Map::empty());
        }
        if text.len() < n {
            return acc;
        }
        let count = text.len() - n + 1;
        let mut i: usize = 0;
        while i < count
            invariant
                self.wf(),
                n == self.width,
                count == num_windows(text@.len() as int, n as int),
                count <= text@.len(),
                i <= count,
                unique_ids(acc@),
                score_map(acc@) == scores_upto(self@, text@, i as nat),
                forall|id: DocId| #[trigger]
                    score_map(acc@).contains_key(id) ==> score_map(acc@)[id] <= i * IDF_BOUND,
            decreases count - i,
        {
            let key = Self::key_at(text, i, n);
            match self.slots.get(&key) {
                Some(slot) => {
                    self.credit_slot(&mut acc, *slot, Ghost(i as nat));
                },
                None => {
                    proof {
                        assert(score_map(acc@) =~= credit(
                            score_map(acc@),
                            empty_gram(),
                            self.total,
                        ));
                    }
                },
            }
            i = i + 1;
        }
        proof {
            assert forall|id: DocId| #[trigger]
                score_map(acc@).contains_key(id) implies score_map(acc@)[id] <= text@.len()
                * IDF_BOUND by {
                assert(count * IDF_BOUND <= text@.len() * IDF_BOUND) by (nonlinear_arith)
                    requires
                        count <= text@.len(),
                ;
            }
        }
        acc
    }
}

} // verus!
