//! The search engine: one gram index per searchable field, with the fields'
//! scores summed and ranked.

use vstd::prelude::*;

use crate::doc::{index_bytes, lowercase_all, lowercase_bytes, texts_bytes, Doc, DocId, DocView};
use crate::gram::{
    lemma_add_texts_width, lemma_add_windows_width, num_windows, score_map, scores, Index,
    IndexView, IDF_BOUND,
};
use crate::pairs::{add_score, lemma_pairs_map_dom, lemma_pairs_map_index, pairs_map, unique_ids};
use crate::rank::{is_ranking, rank};

verus! {

/// The gram width of every field.
pub const GRAM_WIDTH: usize = 3;

/// What the engine holds: the gram index of each field.
pub struct EngineView {
    pub title: IndexView,
    pub authors: IndexView,
    pub keywords: IndexView,
}

pub open spec fn empty_index() -> IndexView {
    IndexView { width: GRAM_WIDTH, grams: Map::empty(), total: 0 }
}

pub open spec fn empty_engine() -> EngineView {
    EngineView { title: empty_index(), authors: empty_index(), keywords: empty_index() }
}

impl EngineView {
    pub open spec fn wf(self) -> bool {
        &&& self.title.wf() && self.title.width == GRAM_WIDTH
        &&& self.authors.wf() && self.authors.width == GRAM_WIDTH
        &&& self.keywords.wf() && self.keywords.width == GRAM_WIDTH
    }

    /// The engine after document `id` with metadata `d` was indexed: its
    /// title as one text, its authors and keywords one text each.
    pub open spec fn indexed(self, id: DocId, d: DocView) -> EngineView {
        EngineView {
            title: self.title.add_text(id, index_bytes(d.title)).counted(),
            authors: self.authors.add_texts(id, texts_bytes(d.authors)).counted(),
            keywords: self.keywords.add_texts(id, texts_bytes(d.keywords)).counted(),
        }
    }

    /// The engine with document `id` taken out of every field.
    pub open spec fn purged(self, id: DocId) -> EngineView {
        EngineView {
            title: self.title.purged(id),
            authors: self.authors.purged(id),
            keywords: self.keywords.purged(id),
        }
    }
}

/// The sum of two score maps; a document missing from one counts 0 there.
pub open spec fn sum_scores(a: Map<DocId, nat>, b: Map<DocId, nat>) -> Map<DocId, nat> {
    Map::new(
        |id: DocId| a.contains_key(id) || b.contains_key(id),
        |id: DocId|
            (if a.contains_key(id) {
                a[id]
            } else {
                0
            }) + (if b.contains_key(id) {
                b[id]
            } else {
                0
            }),
    )
}

/// The score of every document that shares a gram with the lower-cased
/// query in some field: the sum of its field scores.
pub open spec fn engine_scores(e: EngineView, query: Seq<char>) -> Map<DocId, nat> {
    let q = index_bytes(query);
    sum_scores(sum_scores(scores(e.title, q), scores(e.authors, q)), scores(e.keywords, q))
}

/// Adds each score of `other` to `acc`.
fn merge_scores(
    acc: &mut Vec<(DocId, u128)>,
    other: &Vec<(DocId, u128)>,
    Ghost(cap_a): Ghost<nat>,
    Ghost(cap_b): Ghost<nat>,
)
    requires
        unique_ids(old(acc)@),
        unique_ids(other@),
        cap_a + cap_b <= u128::MAX,
        forall|id: DocId| #[trigger]
            score_map(old(acc)@).contains_key(id) ==> score_map(old(acc)@)[id] <= cap_a,
        forall|id: DocId| #[trigger] score_map(other@).contains_key(id) ==> score_map(other@)[id] <= cap_b,
    ensures
        unique_ids(final(acc)@),
        score_map(final(acc)@) == sum_scores(score_map(old(acc)@), score_map(other@)),
        forall|id: DocId| #[trigger]
            score_map(final(acc)@).contains_key(id) ==> score_map(final(acc)@)[id] <= cap_a + cap_b,
{
    let ghost a0 = score_map(acc@);
    let mut j: usize = 0;
    proof {
        assert(score_map(other@.subrange(0, 0)) =~= Map::empty());
        assert(score_map(acc@) =~= sum_scores(a0, score_map(other@.subrange(0, 0))));
    }
    while j < other.len()
        invariant
            j <= other@.len(),
            unique_ids(other@),
            unique_ids(acc@),
            cap_a + cap_b <= u128::MAX,
            forall|id: DocId| #[trigger] a0.contains_key(id) ==> a0[id] <= cap_a,
            forall|id: DocId| #[trigger] score_map(other@).contains_key(id) ==> score_map(other@)[id] <= cap_b,
            score_map(acc@) == sum_scores(a0, score_map(other@.subrange(0, j as int))),
        decreases other@.len() - j,
    {
        let (id, s) = other[j];
        let ghost es = other@.subrange(0, j as int);
        proof {
            lemma_pairs_map_index(other@, j as int);
            lemma_pairs_map_dom(es, id);
            if pairs_map(es).contains_key(id) {
                let k = choose|k: int| 0 <= k < es.len() && es[k].0 == id;
                assert(other@[k].0 == other@[j as int].0);
            }
            assert(other@.subrange(0, j + 1).drop_last() =~= es);
            assert(score_map(other@).contains_key(id));
            assert(score_map(other@)[id] == s as nat);
            if pairs_map(acc@).contains_key(id) {
                assert(score_map(acc@).contains_key(id));
                assert(score_map(acc@)[id] == a0[id]);
            }
        }
        let ghost before = acc@;
        add_score(acc, id, s);
        proof {
            assert(score_map(acc@) =~= score_map(before).insert(
                id,
                ((if score_map(before).contains_key(id) {
                    score_map(before)[id]
                } else {
                    0
                }) + s) as nat,
            ));
            assert(score_map(acc@) =~= sum_scores(a0, score_map(other@.subrange(0, j + 1))));
        }
        j = j + 1;
    }
    proof {
        assert(other@.subrange(0, other@.len() as int) =~= other@);
    }
}

/// One gram index per searchable field.
pub struct SearchEngine {
    title: Index,
    authors: Index,
    keywords: Index,
}

impl View for SearchEngine {
    type V = EngineView;

    closed spec fn view(&self) -> EngineView {
        EngineView { title: self.title@, authors: self.authors@, keywords: self.keywords@ }
    }
}

impl SearchEngine {
    pub closed spec fn wf(&self) -> bool {
        &&& self.title.wf() && self.title@.width == GRAM_WIDTH
        &&& self.authors.wf() && self.authors@.width == GRAM_WIDTH
        &&& self.keywords.wf() && self.keywords@.width == GRAM_WIDTH
    }

    pub proof fn lemma_wf(&self)
        requires
            self.wf(),
        ensures
            self@.wf(),
    {
        self.title.lemma_wf();
        self.authors.lemma_wf();
        self.keywords.lemma_wf();
    }

    /// An engine with nothing indexed.
    pub fn new() -> (r: SearchEngine)
        ensures
            r.wf(),
            r@ == empty_engine(),
    {
        SearchEngine {
            title: Index::new(GRAM_WIDTH),
            authors: Index::new(GRAM_WIDTH),
            keywords: Index::new(GRAM_WIDTH),
        }
    }

    /// Indexes the title, authors and keywords of document `id`.
    pub fn insert(&mut self, id: DocId, doc: &Doc)
        requires
            old(self).wf(),
        ensures
            final(self).wf(),
            final(self)@ == old(self)@.indexed(id, doc@),
    {
        proof {
            let d = doc@;
            lemma_add_windows_width(
                self@.title,
                id,
                index_bytes(d.title),
                num_windows(index_bytes(d.title).len() as int, GRAM_WIDTH as int) as nat,
            );
            lemma_add_texts_width(self@.authors, id, texts_bytes(d.authors));
            lemma_add_texts_width(self@.keywords, id, texts_bytes(d.keywords));
        }
        let title = lowercase_bytes(doc.title.as_str());
        self.title.insert(id, title.as_slice());
        let authors = lowercase_all(&doc.authors);
        self.authors.insert_many(id, &authors);
        let keywords = lowercase_all(&doc.keywords);
        self.keywords.insert_many(id, &keywords);
    }

    /// Takes document `id` out of every field.
    pub fn remove(&mut self, id: DocId)
        requires
            old(self).wf(),
        ensures
            final(self).wf(),
            final(self)@ == old(self)@.purged(id),
    {
        self.title.remove(id);
        self.authors.remove(id);
        self.keywords.remove(id);
    }

    /// The summed score of every document that shares a gram with the
    /// lower-cased `text` in some field.
    pub fn scores(&self, text: &str) -> (r: Vec<(DocId, u128)>)
        requires
            self.wf(),
        ensures
            unique_ids(r@),
            score_map(r@) == engine_scores(self@, text@),
    {
        let q = lowercase_bytes(text);
        let qlen = q.len();
        let ghost cap: nat = (q@.len() * IDF_BOUND) as nat;
        proof {
            assert(3 * q@.len() * IDF_BOUND <= u128::MAX) by (nonlinear_arith)
                requires
                    q@.len() <= usize::MAX,
            ;
        }
        let mut acc = self.title.search(q.as_slice());
        let authors = self.authors.search(q.as_slice());
        merge_scores(&mut acc, &authors, Ghost(cap), Ghost(cap));
        let keywords = self.keywords.search(q.as_slice());
        merge_scores(&mut acc, &keywords, Ghost((cap + cap) as nat), Ghost(cap));
        acc
    }

    /// The best `limit` documents for `text`, best first, with their scores.
    pub fn search(&self, text: &str, limit: usize) -> (r: Vec<(DocId, u128)>)
        requires
            self.wf(),
        ensures
            is_ranking(r@, engine_scores(self@, text@), limit as nat),
    {
        let all = self.scores(text);
        rank(&all, limit)
    }
}

} // verus!
