//! The document store: metadata by identity, soft removal, ranked search
//! over the visible documents, and resolution of hash prefixes.

use vstd::prelude::*;
use vstd::utf8::encode_utf8;

use crate::doc::{
    join, joined, lower_of, lowercase, parsed_identity, strings_view, Doc, DocId, DocView,
};
use crate::engine::{empty_engine, engine_scores, EngineView, SearchEngine};
use crate::gram::score_map;
use crate::hash::{
    all_hex_digits, lemma_range_is_prefix, nibbles_le, prefix_matches, prefix_range, DocHash,
    HASH_DIGITS, HASH_LEN,
};
use crate::pairs::{lemma_pairs_map_dom, pairs_map, unique_ids};
use crate::rank::{is_ranking, rank};

verus! {

/// How many documents a search returns unless configured otherwise.
pub const DEFAULT_LIMIT: usize = 10;

/// Why a library operation failed.
#[derive(Clone, Copy, PartialEq, Eq, Structural, Debug)]
pub enum LibraryError {
    /// No visible document has the identity, or none matches the prefix.
    NotFound,
    /// Two or more visible documents match the prefix: a longer one is needed.
    AmbiguousPrefix,
    /// A visible document already has the same content hash.
    DuplicateDocument,
    /// The text is not a hexadecimal hash or hash prefix.
    InvalidIdentity,
}

/// What a library holds: its storage root, every document ever stored (the
/// identity of a document is its position), which of them were given to the
/// search engine, and how many results a search returns.
pub struct LibraryView {
    pub root: Seq<char>,
    pub docs: Seq<DocView>,
    pub indexed: Seq<bool>,
    pub limit: usize,
}

pub open spec fn docs_view(v: Seq<Doc>) -> Seq<DocView> {
    v.map_values(|d: Doc| d@)
}

/// The engine that results from indexing, in identity order, each document
/// marked in `indexed`.
pub open spec fn engine_of(docs: Seq<DocView>, indexed: Seq<bool>) -> EngineView
    decreases docs.len(),
{
    if docs.len() == 0 || indexed.len() == 0 {
        empty_engine()
    } else {
        let e = engine_of(docs.drop_last(), indexed.drop_last());
        if indexed.last() {
            e.indexed(DocId((docs.len() - 1) as usize), docs.last())
        } else {
            e
        }
    }
}

/// The visibility flags of `docs`.
pub open spec fn shown(docs: Seq<DocView>) -> Seq<bool> {
    Seq::new(docs.len(), |i: int| docs[i].show)
}

/// A document as the library stores it: visible, extension lower-cased.
pub open spec fn stored(d: DocView) -> DocView {
    DocView { extension: lower_of(d.extension), show: true, ..d }
}

impl LibraryView {
    /// A library loaded from a snapshot of `docs`: every visible document is
    /// indexed.
    pub open spec fn loaded(root: Seq<char>, docs: Seq<DocView>) -> LibraryView {
        LibraryView { root, docs, indexed: shown(docs), limit: DEFAULT_LIMIT }
    }

    pub open spec fn is_visible(self, id: DocId) -> bool {
        id.0 < self.docs.len() && self.docs[id.0 as int].show
    }

    pub open spec fn engine(self) -> EngineView {
        engine_of(self.docs, self.indexed)
    }

    /// The score of every visible document for `query`.
    pub open spec fn visible_scores(self, query: Seq<char>) -> Map<DocId, nat> {
        engine_scores(self.engine(), query).restrict(Set::new(|id: DocId| self.is_visible(id)))
    }

    pub open spec fn has_visible_hash(self, h: Seq<u8>) -> bool {
        exists|i: int| 0 <= i < self.docs.len() && self.docs[i].show && self.docs[i].hash == h
    }

    pub open spec fn inserted(self, d: DocView) -> LibraryView {
        LibraryView { docs: self.docs.push(stored(d)), indexed: self.indexed.push(true), ..self }
    }

    pub open spec fn removed(self, id: DocId) -> LibraryView {
        LibraryView {
            docs: self.docs.update(id.0 as int, DocView { show: false, ..self.docs[id.0 as int] }),
            ..self
        }
    }

    /// Visible document `i`'s hash begins with the hexadecimal digits `d`.
    pub open spec fn prefix_match(self, i: int, d: Seq<u8>) -> bool {
        0 <= i < self.docs.len() && self.docs[i].show && prefix_matches(d, self.docs[i].hash)
    }

    /// What resolving the hexadecimal digits `d` may give: the one visible
    /// document whose hash they begin, `NotFound` when there is none,
    /// `AmbiguousPrefix` when there are several, `InvalidIdentity` when `d`
    /// is longer than a hash or holds a non-digit.
    pub open spec fn resolves(self, d: Seq<u8>, r: Result<DocId, LibraryError>) -> bool {
        if d.len() > HASH_DIGITS || !all_hex_digits(d) {
            r == Err::<DocId, LibraryError>(LibraryError::InvalidIdentity)
        } else {
            match r {
                Ok(id) => self.prefix_match(id.0 as int, d) && forall|j: int|
                    #![trigger self.docs[j]]
                    j != id.0 ==> !self.prefix_match(j, d),
                Err(LibraryError::NotFound) => forall|j: int|
                    #![trigger self.docs[j]]
                    !self.prefix_match(j, d),
                Err(LibraryError::AmbiguousPrefix) => exists|i: int, j: int|
                    #![trigger self.docs[i], self.docs[j]]
                    i != j && self.prefix_match(i, d) && self.prefix_match(j, d),
                Err(_) => false,
            }
        }
    }
}

/// What a search front-end shows of a document: its identity, its title as
/// name, and its authors, comma-separated, as description.
pub struct ResultMeta {
    pub id: DocId,
    pub name: String,
    pub description: String,
}

/// `m` describes document `id` with metadata `d`.
pub open spec fn describes(m: ResultMeta, id: DocId, d: DocView) -> bool {
    &&& m.id == id
    &&& m.name@ == d.title
    &&& m.description@ == joined(d.authors, seq![',', ' '])
}

/// The identity that decimal text `t` spells, when it names a visible
/// document.
pub open spec fn names_visible(lib: LibraryView, t: Seq<char>) -> bool {
    match parsed_identity(encode_utf8(t)) {
        Some(id) => lib.is_visible(id),
        None => false,
    }
}

/// The library of documents.
pub struct Library {
    root: String,
    docs: Vec<Doc>,
    engine: SearchEngine,
    indexed: Ghost<Seq<bool>>,
    limit: usize,
}

impl View for Library {
    type V = LibraryView;

    closed spec fn view(&self) -> LibraryView {
        LibraryView {
            root: self.root@,
            docs: docs_view(self.docs@),
            indexed: self.indexed@,
            limit: self.limit,
        }
    }
}

/// Only the title, authors and keywords of indexed documents shape the
/// engine.
proof fn lemma_engine_of_fields(a: Seq<DocView>, b: Seq<DocView>, indexed: Seq<bool>)
    requires
        a.len() == b.len() == indexed.len(),
        forall|i: int|
            0 <= i < a.len() ==> (#[trigger] a[i]).title == b[i].title && a[i].authors == b[i].authors
                && a[i].keywords == b[i].keywords,
    ensures
        engine_of(a, indexed) == engine_of(b, indexed),
    decreases a.len(),
{
    if a.len() > 0 {
        lemma_engine_of_fields(a.drop_last(), b.drop_last(), indexed.drop_last());
    }
}

fn same_hash(a: &DocHash, b: &DocHash) -> (r: bool)
    ensures
        r == (a.0@ == b.0@),
{
    let mut i: usize = 0;
    while i < HASH_LEN
        invariant
            i <= HASH_LEN,
            forall|j: int| 0 <= j < i ==> a.0@[j] == b.0@[j],
        decreases HASH_LEN - i,
    {
        if a.0[i] != b.0[i] {
            return false;
        }
        i = i + 1;
    }
    assert(a.0@ =~= b.0@);
    true
}

impl Library {
    pub closed spec fn wf(&self) -> bool {
        &&& self.docs@.len() == self.indexed@.len()
        &&& self.engine.wf()
        &&& self.engine@ == engine_of(docs_view(self.docs@), self.indexed@)
        &&& forall|i: int| 0 <= i < self.docs@.len() && (#[trigger] self.docs@[i]).show ==> self.indexed@[i]
    }

    pub proof fn lemma_wf(&self)
        requires
            self.wf(),
        ensures
            self@.docs.len() == self@.indexed.len(),
            forall|i: int| 0 <= i < self@.docs.len() && (#[trigger] self@.docs[i]).show ==> self@.indexed[i],
    {
        assert forall|i: int| 0 <= i < self@.docs.len() && (#[trigger] self@.docs[i]).show implies self@.indexed[i] by {
            assert(self.docs@[i].show);
        }
    }

    /// An empty library storing its files under `root`.
    pub fn with_root(root: String) -> (r: Library)
        ensures
            r.wf(),
            r@ == LibraryView::loaded(root@, Seq::empty()),
    {
        let r = Library {
            root,
            docs: Vec::new(),
            engine: SearchEngine::new(),
            indexed: Ghost(Seq::empty()),
            limit: DEFAULT_LIMIT,
        };
        assert(r@.docs =~= Seq::empty());
        assert(r@.indexed =~= shown(Seq::empty()));
        r
    }

    /// The library that a snapshot of `docs` (in identity order) describes:
    /// every visible document is indexed again.
    pub fn load(root: String, docs: Vec<Doc>) -> (r: Library)
        ensures
            r.wf(),
            r@ == LibraryView::loaded(root@, docs_view(docs@)),
    {
        let mut engine = SearchEngine::new();
        let ghost dv = docs_view(docs@);
        let ghost mut idx: Seq<bool> = Seq::empty();
        let mut i: usize = 0;
        proof {
            assert(dv.subrange(0, 0) =~= Seq::<DocView>::empty());
        }
        while i < docs.len()
            invariant
                i <= docs@.len(),
                dv == docs_view(docs@),
                engine.wf(),
                idx =~= shown(dv.subrange(0, i as int)),
                engine@ == engine_of(dv.subrange(0, i as int), idx),
            decreases docs@.len() - i,
        {
            let ghost before = idx;
            if docs[i].show {
                engine.insert(DocId(i), &docs[i]);
            }
            proof {
                idx = idx.push(dv[i as int].show);
                assert(dv.subrange(0, i + 1).drop_last() =~= dv.subrange(0, i as int));
                assert(idx.drop_last() =~= before);
                assert(idx =~= shown(dv.subrange(0, i + 1)));
            }
            i = i + 1;
        }
        proof {
            assert(dv.subrange(0, docs@.len() as int) =~= dv);
        }
        let r = Library { root, docs, engine, indexed: Ghost(idx), limit: DEFAULT_LIMIT };
        proof {
            assert forall|j: int| 0 <= j < r.docs@.len() && (#[trigger] r.docs@[j]).show implies r.indexed@[j] by {
                assert(dv[j].show);
            }
        }
        r
    }

    /// Every document ever stored, in identity order: what a snapshot holds.
    pub fn documents(&self) -> (r: &Vec<Doc>)
        ensures
            docs_view(r@) == self@.docs,
    {
        &self.docs
    }

    /// The directory the documents' files are stored in.
    pub fn root(&self) -> (r: &String)
        ensures
            r@ == self@.root,
    {
        &self.root
    }

    /// How many results a search returns.
    pub fn limit(&self) -> (r: usize)
        ensures
            r == self@.limit,
    {
        self.limit
    }

    /// Sets how many results a search returns.
    pub fn set_limit(&mut self, limit: usize)
        requires
            old(self).wf(),
        ensures
            final(self).wf(),
            final(self)@ == (LibraryView { limit, ..old(self)@ }),
    {
        self.limit = limit;
    }

    /// The metadata of visible document `id`.
    pub fn get(&self, id: DocId) -> (r: Result<&Doc, LibraryError>)
        ensures
            match r {
                Ok(d) => self@.is_visible(id) && d@ == self@.docs[id.0 as int],
                Err(e) => e == LibraryError::NotFound && !self@.is_visible(id),
            },
    {
        if id.0 < self.docs.len() && self.docs[id.0].show {
            Ok(&self.docs[id.0])
        } else {
            Err(LibraryError::NotFound)
        }
    }

    /// The name and description of visible document `id`.
    pub fn metadata(&self, id: DocId) -> (r: Result<ResultMeta, LibraryError>)
        ensures
            match r {
                Ok(m) => self@.is_visible(id) && describes(m, id, self@.docs[id.0 as int]),
                Err(e) => e == LibraryError::NotFound && !self@.is_visible(id),
            },
    {
        match self.get(id) {
            Ok(doc) => {
                proof {
                    reveal_strlit(", ");
                    assert(", "@ =~= seq![',', ' ']);
                }
                let description = join(&doc.authors, ", ");
                Ok(ResultMeta { id, name: doc.title.clone(), description })
            },
            Err(e) => Err(e),
        }
    }

    /// The metadata of each document named by a decimal identity in
    /// `identifiers`, in order; fails at the first text that is not an
    /// identity (`InvalidIdentity`) or names no visible document
    /// (`NotFound`).
    pub fn result_metas(&self, identifiers: &Vec<String>) -> (r: Result<Vec<ResultMeta>, LibraryError>)
        ensures
            match r {
                Ok(ms) => ms@.len() == identifiers@.len() && forall|i: int|
                    0 <= i < ms@.len() ==> names_visible(self@, #[trigger] identifiers@[i]@)
                        && parsed_identity(encode_utf8(identifiers@[i]@)) == Some(ms@[i].id)
                        && describes(ms@[i], ms@[i].id, self@.docs[ms@[i].id.0 as int]),
                Err(e) => exists|i: int|
                    0 <= i < identifiers@.len() && (forall|j: int|
                        0 <= j < i ==> names_visible(self@, #[trigger] identifiers@[j]@)) && !names_visible(
                        self@,
                        #[trigger] identifiers@[i]@,
                    ) && e == if parsed_identity(encode_utf8(identifiers@[i]@)) is None {
                        LibraryError::InvalidIdentity
                    } else {
                        LibraryError::NotFound
                    },
            },
    {
        let mut ms: Vec<ResultMeta> = Vec::new();
        let mut i: usize = 0;
        while i < identifiers.len()
            invariant
                i <= identifiers@.len(),
                ms@.len() == i,
                forall|j: int|
                    0 <= j < i ==> names_visible(self@, #[trigger] identifiers@[j]@) && parsed_identity(
                        encode_utf8(identifiers@[j]@),
                    ) == Some(ms@[j].id) && describes(ms@[j], ms@[j].id, self@.docs[ms@[j].id.0 as int]),
            decreases identifiers@.len() - i,
        {
            match DocId::parse(identifiers[i].as_str()) {
                Some(id) => match self.metadata(id) {
                    Ok(m) => {
                        ms.push(m);
                    },
                    Err(e) => {
                        proof {
                            assert(!names_visible(self@, identifiers@[i as int]@));
                        }
                        return Err(e);
                    },
                },
                None => {
                    proof {
                        assert(!names_visible(self@, identifiers@[i as int]@));
                    }
                    return Err(LibraryError::InvalidIdentity);
                },
            }
            i = i + 1;
        }
        Ok(ms)
    }

    /// The storage file name of visible document `id`.
    pub fn file_name(&self, id: DocId) -> (r: Result<String, LibraryError>)
        ensures
            match r {
                Ok(name) => self@.is_visible(id) && name@ == crate::hash::hex_chars(
                    self@.docs[id.0 as int].hash,
                ) + seq!['.'] + self@.docs[id.0 as int].extension,
                Err(e) => e == LibraryError::NotFound && !self@.is_visible(id),
            },
    {
        match self.get(id) {
            Ok(doc) => Ok(doc.filename()),
            Err(e) => Err(e),
        }
    }

    /// Stores `doc` under a new identity, visible and with its extension
    /// lower-cased, and indexes it; fails if a visible document has the same
    /// content hash.
    pub fn insert(&mut self, doc: Doc) -> (r: Result<DocId, LibraryError>)
        requires
            old(self).wf(),
        ensures
            final(self).wf(),
            match r {
                Ok(id) => !old(self)@.has_visible_hash(doc@.hash) && id.0 == old(self)@.docs.len()
                    && final(self)@ == old(self)@.inserted(doc@),
                Err(e) => e == LibraryError::DuplicateDocument && old(self)@.has_visible_hash(doc@.hash)
                    && final(self)@ == old(self)@,
            },
    {
        let mut i: usize = 0;
        while i < self.docs.len()
            invariant
                self.wf(),
                self == old(self),
                i <= self.docs@.len(),
                forall|j: int|
                    0 <= j < i ==> !((#[trigger] self.docs@[j]).show && self.docs@[j].hash.0@
                        == doc.hash.0@),
            decreases self.docs@.len() - i,
        {
            if self.docs[i].show && same_hash(&self.docs[i].hash, &doc.hash) {
                proof {
                    assert(docs_view(self.docs@)[i as int] == self.docs@[i as int]@);
                    assert(self@.docs[i as int].show && self@.docs[i as int].hash == doc@.hash);
                }
                return Err(LibraryError::DuplicateDocument);
            }
            i = i + 1;
        }
        proof {
            assert forall|j: int| 0 <= j < self@.docs.len() && self@.docs[j].show implies self@.docs[j].hash
                != doc@.hash by {
                assert(self@.docs[j] == self.docs@[j]@);
            }
        }
        let id = DocId(self.docs.len());
        let extension = lowercase(doc.extension.as_str());
        let stored_doc = Doc {
            title: doc.title,
            authors: doc.authors,
            keywords: doc.keywords,
            extension,
            show: true,
            hash: doc.hash,
        };
        self.engine.insert(id, &stored_doc);
        let ghost before = docs_view(self.docs@);
        self.docs.push(stored_doc);
        self.indexed = Ghost(self.indexed@.push(true));
        proof {
            assert(docs_view(self.docs@) =~= before.push(stored(doc@)));
            assert(docs_view(self.docs@).drop_last() =~= before);
            assert(self.indexed@.drop_last() =~= old(self).indexed@);
            assert forall|j: int| 0 <= j < self.docs@.len() && (#[trigger] self.docs@[j]).show implies self.indexed@[j] by {
                if j < self.docs@.len() - 1 {
                    assert(old(self).docs@[j] == self.docs@[j]);
                }
            }
        }
        Ok(id)
    }

    /// Marks visible document `id` removed: it keeps its identity and
    /// metadata but is no longer returned by `get` or `search`.
    pub fn remove(&mut self, id: DocId) -> (r: Result<(), LibraryError>)
        requires
            old(self).wf(),
        ensures
            final(self).wf(),
            match r {
                Ok(()) => old(self)@.is_visible(id) && final(self)@ == old(self)@.removed(id),
                Err(e) => e == LibraryError::NotFound && !old(self)@.is_visible(id) && final(self)@
                    == old(self)@,
            },
    {
        if id.0 >= self.docs.len() || !self.docs[id.0].show {
            return Err(LibraryError::NotFound);
        }
        let ghost before = docs_view(self.docs@);
        self.docs[id.0].show = false;
        proof {
            let after = docs_view(self.docs@);
            assert(after =~= before.update(id.0 as int, DocView { show: false, ..before[id.0 as int] }));
            lemma_engine_of_fields(after, before, self.indexed@);
            assert forall|j: int| 0 <= j < self.docs@.len() && (#[trigger] self.docs@[j]).show implies self.indexed@[j] by {
                assert(old(self).docs@[j].show);
            }
        }
        Ok(())
    }

    /// The scored entries of `all` that belong to visible documents.
    fn visible_only(&self, all: &Vec<(DocId, u128)>) -> (r: Vec<(DocId, u128)>)
        requires
            unique_ids(all@),
        ensures
            unique_ids(r@),
            score_map(r@) == score_map(all@).restrict(Set::new(|id: DocId| self@.is_visible(id))),
    {
        let ghost vis = Set::new(|id: DocId| self@.is_visible(id));
        let mut kept: Vec<(DocId, u128)> = Vec::new();
        let mut j: usize = 0;
        proof {
            assert(score_map(kept@) =~= score_map(all@.subrange(0, 0)).restrict(vis));
        }
        while j < all.len()
            invariant
                j <= all@.len(),
                unique_ids(all@),
                vis == Set::new(|id: DocId| self@.is_visible(id)),
                unique_ids(kept@),
                score_map(kept@) == score_map(all@.subrange(0, j as int)).restrict(vis),
            decreases all@.len() - j,
        {
            let (id, s) = all[j];
            let ghost es = all@.subrange(0, j as int);
            proof {
                assert(all@.subrange(0, j + 1).drop_last() =~= es);
                lemma_pairs_map_dom(es, id);
                if pairs_map(es).contains_key(id) {
                    let k = choose|k: int| 0 <= k < es.len() && es[k].0 == id;
                    assert(all@[k].0 == all@[j as int].0);
                }
            }
            if id.0 < self.docs.len() && self.docs[id.0].show {
                proof {
                    assert(self@.docs[id.0 as int] == self.docs@[id.0 as int]@);
                    assert(vis.contains(id));
                    assert forall|i: int| 0 <= i < kept@.len() implies kept@[i].0 != id by {
                        lemma_pairs_map_dom(kept@, kept@[i].0);
                        assert(score_map(kept@).contains_key(kept@[i].0));
                    }
                    assert(kept@.push((id, s)).drop_last() =~= kept@);
                    assert(pairs_map(all@.subrange(0, j + 1)) == pairs_map(es).insert(id, s));
                }
                let ghost old_kept = kept@;
                kept.push((id, s));
                proof {
                    assert(pairs_map(kept@) == pairs_map(old_kept).insert(id, s));
                    assert(score_map(kept@) =~= score_map(old_kept).insert(id, s as nat));
                    assert(score_map(all@.subrange(0, j + 1)) =~= score_map(es).insert(id, s as nat));
                    assert(unique_ids(kept@));
                    assert(score_map(kept@) =~= score_map(all@.subrange(0, j + 1)).restrict(vis));
                }
            } else {
                proof {
                    if id.0 < self.docs@.len() {
                        assert(self@.docs[id.0 as int] == self.docs@[id.0 as int]@);
                    }
                    assert(!vis.contains(id));
                    assert(pairs_map(all@.subrange(0, j + 1)) == pairs_map(es).insert(id, s));
                    assert(score_map(kept@) =~= score_map(all@.subrange(0, j + 1)).restrict(vis));
                }
            }
            j = j + 1;
        }
        proof {
            assert(all@.subrange(0, all@.len() as int) =~= all@);
        }
        kept
    }

    /// The best visible documents for `text` with their scores, best first,
    /// at most `limit()` of them.
    pub fn search_scored(&self, text: &str) -> (r: Vec<(DocId, u128)>)
        requires
            self.wf(),
        ensures
            is_ranking(r@, self@.visible_scores(text@), self@.limit as nat),
    {
        let all = self.engine.scores(text);
        let kept = self.visible_only(&all);
        rank(&kept, self.limit)
    }

    /// The identities of the best visible documents for `text`, best first,
    /// at most `limit()` of them.
    pub fn search(&self, text: &str) -> (r: Vec<DocId>)
        requires
            self.wf(),
        ensures
            exists|ranking: Seq<(DocId, u128)>|
                #![trigger is_ranking(ranking, self@.visible_scores(text@), self@.limit as nat)]
                is_ranking(ranking, self@.visible_scores(text@), self@.limit as nat) && r@
                    == ranking.map_values(|p: (DocId, u128)| p.0),
    {
        let scored = self.search_scored(text);
        let mut ids: Vec<DocId> = Vec::new();
        let mut i: usize = 0;
        while i < scored.len()
            invariant
                i <= scored@.len(),
                ids@ =~= scored@.subrange(0, i as int).map_values(|p: (DocId, u128)| p.0),
            decreases scored@.len() - i,
        {
            ids.push(scored[i].0);
            i = i + 1;
            proof {
                assert(ids@ =~= scored@.subrange(0, i as int).map_values(|p: (DocId, u128)| p.0));
            }
        }
        proof {
            assert(scored@.subrange(0, scored@.len() as int) =~= scored@);
        }
        ids
    }

    /// The identities found for `terms` joined by single spaces.
    pub fn search_terms(&self, terms: &Vec<String>) -> (r: Vec<DocId>)
        requires
            self.wf(),
        ensures
            exists|ranking: Seq<(DocId, u128)>|
                #![trigger is_ranking(
                    ranking,
                    self@.visible_scores(joined(strings_view(terms@), seq![' '])),
                    self@.limit as nat,
                )]
                is_ranking(
                    ranking,
                    self@.visible_scores(joined(strings_view(terms@), seq![' '])),
                    self@.limit as nat,
                ) && r@ == ranking.map_values(|p: (DocId, u128)| p.0),
    {
        proof {
            reveal_strlit(" ");
            assert(" "@ =~= seq![' ']);
        }
        let query = join(terms, " ");
        self.search(query.as_str())
    }

    /// Resolves a hash prefix: the identity of the one visible document
    /// whose content hash the hexadecimal `prefix` spells (a whole hash or
    /// its beginning, digits of either case). The prefix is padded with `0`s
    /// and with `f`s to the lowest and highest hash it begins, and the
    /// documents whose hash lies between the two are counted.
    pub fn get_hash(&self, prefix: &str) -> (r: Result<DocId, LibraryError>)
        ensures
            self@.resolves(encode_utf8(prefix@), r),
    {
        let digits = prefix.as_bytes();
        let ghost d = digits@;
        if digits.len() > HASH_DIGITS {
            return Err(LibraryError::InvalidIdentity);
        }
        let (lo, hi) = match prefix_range(digits) {
            Ok(p) => p,
            Err(_) => {
                return Err(LibraryError::InvalidIdentity);
            },
        };
        let mut found: Option<usize> = None;
        let mut i: usize = 0;
        while i < self.docs.len()
            invariant
                i <= self.docs@.len(),
                d == encode_utf8(prefix@),
                d.len() <= HASH_DIGITS,
                all_hex_digits(d),
                crate::hash::nibbles(lo@) == crate::hash::low_nibbles(d),
                crate::hash::nibbles(hi@) == crate::hash::high_nibbles(d),
                match found {
                    Some(k) => k < i && self@.prefix_match(k as int, d) && forall|j: int|
                        #![trigger self@.docs[j]]
                        0 <= j < i && j != k ==> !self@.prefix_match(j, d),
                    None => forall|j: int|
                        #![trigger self@.docs[j]]
                        0 <= j < i ==> !self@.prefix_match(j, d),
                },
            decreases self.docs@.len() - i,
        {
            let doc = &self.docs[i];
            proof {
                assert(self@.docs[i as int] == doc@);
                lemma_range_is_prefix(d, doc.hash.0@);
            }
            if doc.show && nibbles_le(&lo, &doc.hash.0) && nibbles_le(&doc.hash.0, &hi) {
                match found {
                    Some(k) => {
                        proof {
                            assert(self@.prefix_match(k as int, d));
                            assert(self@.prefix_match(i as int, d));
                            assert(self@.docs[k as int] == self@.docs[k as int]);
                        }
                        return Err(LibraryError::AmbiguousPrefix);
                    },
                    None => {
                        found = Some(i);
                    },
                }
            }
            i = i + 1;
        }
        match found {
            Some(k) => Ok(DocId(k)),
            None => Err(LibraryError::NotFound),
        }
    }
}

} // verus!
