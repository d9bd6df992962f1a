//! Properties that relate several operations of the library, proved over
//! the models that the operations' contracts speak of.

use vstd::prelude::*;

use crate::doc::{index_bytes, DocId, DocView};
use crate::engine::{engine_scores, sum_scores, GRAM_WIDTH};
use crate::gram::{
    count_of, credit, doc_count, gram_of, gram_wf, idf_weight, lemma_log_base_bound_pub,
    log_base, num_windows, scores, scores_upto, term, window_key, GramView, IndexView, IDF_UNIT,
};
use crate::hash::{all_hex_digits, hex_value, nibble, prefix_matches, HASH_DIGITS, HASH_LEN};
use crate::library::{engine_of, shown, stored, LibraryError, LibraryView};
use crate::rank::{ahead, is_ranking};

verus! {

/// Every field of an engine built from documents has the engine's gram
/// width.
proof fn lemma_engine_width(docs: Seq<DocView>, indexed: Seq<bool>)
    ensures
        engine_of(docs, indexed).title.width == GRAM_WIDTH,
        engine_of(docs, indexed).authors.width == GRAM_WIDTH,
        engine_of(docs, indexed).keywords.width == GRAM_WIDTH,
    decreases docs.len(),
{
    if docs.len() > 0 && indexed.len() > 0 {
        lemma_engine_width(docs.drop_last(), indexed.drop_last());
        let e = engine_of(docs.drop_last(), indexed.drop_last());
        let d = docs.last();
        let id = DocId((docs.len() - 1) as usize);
        crate::gram::lemma_add_windows_width(
            e.title,
            id,
            index_bytes(d.title),
            num_windows(index_bytes(d.title).len() as int, GRAM_WIDTH as int) as nat,
        );
        crate::gram::lemma_add_texts_width(e.authors, id, crate::doc::texts_bytes(d.authors));
        crate::gram::lemma_add_texts_width(e.keywords, id, crate::doc::texts_bytes(d.keywords));
    }
}

// ---------------------------------------------------------------------------
// Ranking
// ---------------------------------------------------------------------------

/// In any ranking, a document listed after another has no higher score:
/// if `a` scores above `b` and `b` is listed, `a` is listed before it.
pub proof fn lemma_higher_score_listed_first(
    r: Seq<(DocId, u128)>,
    m: Map<DocId, nat>,
    limit: nat,
    a: DocId,
    b: DocId,
    j: int,
)
    requires
        is_ranking(r, m, limit),
        m.contains_key(a),
        m.contains_key(b),
        m[a] > m[b],
        0 <= j < r.len(),
        r[j].0 == b,
    ensures
        exists|i: int| 0 <= i < j && r[i].0 == a,
{
    assert(r[j].1 as nat == m[b]);
    if forall|i: int| 0 <= i < r.len() ==> r[i].0 != a {
        assert(ahead(r[j].0, r[j].1 as nat, a, m[a]));
    } else {
        let i = choose|i: int| 0 <= i < r.len() && r[i].0 == a;
        assert(r[i].1 as nat == m[a]);
        if i > j {
            assert(crate::rank::outranks(r[j], r[i]));
        }
        assert(i != j);
    }
}

// ---------------------------------------------------------------------------
// Scoring order
// ---------------------------------------------------------------------------

proof fn lemma_idf_positive(t: nat)
    requires
        t > 2,
    ensures
        idf_weight(t, 2) >= 1,
{
    lemma_log_base_bound_pub(t, 2);
    let r = log_base(t, 2);
    if r.0 == 0 {
        assert(r.1 == 2) by {
            vstd::arithmetic::power2::lemma_pow2(0);
            vstd::arithmetic::power::lemma_pow0(2);
        }
        assert(((t - 2) * IDF_UNIT) / 2 >= 1) by (nonlinear_arith)
            requires
                t > 2,
        ;
    }
}

/// The terms of a gram that exactly two documents hold, the first more often.
proof fn lemma_two_doc_terms(g: GramView, d1: DocId, d2: DocId, total: usize)
    requires
        gram_wf(g),
        g.freqs.dom() == set![d1, d2],
        d1 != d2,
        count_of(g, d1) > count_of(g, d2),
        total > 2,
    ensures
        term(g, d1, total) >= term(g, d2, total) + 1,
{
    let c1 = count_of(g, d1);
    let c2 = count_of(g, d2);
    assert(g.freqs.contains_key(d1) && g.freqs.contains_key(d2));
    assert(g.max >= c1);
    let w = choose|id: DocId| #[trigger] g.freqs.contains_key(id) && g.freqs[id] == g.max;
    assert(set![d1, d2].contains(w));
    assert(g.max == c1);
    assert(set![d1, d2].len() == 2);
    assert(doc_count(g) == 2);
    lemma_idf_positive(total as nat);
    let idf = idf_weight(total as nat, 2);
    assert(((c1 + c1) * idf) / (2 * c1 as int) == idf) by (nonlinear_arith)
        requires
            c1 >= 1,
    ;
    assert(((c1 + c2) * idf) / (2 * c1 as int) < idf) by (nonlinear_arith)
        requires
            c1 > c2,
            idf >= 1,
    ;
}

proof fn lemma_denser_upto(v: IndexView, q: Seq<u8>, d1: DocId, d2: DocId, upto: nat)
    requires
        v.wf(),
        d1 != d2,
        v.total > 2,
        upto <= num_windows(q.len() as int, v.width as int),
        forall|i: int|
            0 <= i < num_windows(q.len() as int, v.width as int) ==> {
                let g = #[trigger] gram_of(v, window_key(q, v.width as int, i));
                g.freqs.dom() == set![d1, d2] && count_of(g, d1) > count_of(g, d2)
            },
    ensures
        upto > 0 ==> scores_upto(v, q, upto).contains_key(d1) && scores_upto(v, q, upto).contains_key(
            d2,
        ) && scores_upto(v, q, upto)[d1] >= scores_upto(v, q, upto)[d2] + upto,
    decreases upto,
{
    if upto > 0 {
        lemma_denser_upto(v, q, d1, d2, (upto - 1) as nat);
        let k = window_key(q, v.width as int, upto - 1);
        let g = gram_of(v, k);
        assert(g.freqs.dom() == set![d1, d2] && count_of(g, d1) > count_of(g, d2));
        assert(g.freqs.contains_key(d1));
        assert(v.grams.contains_key(k));
        assert(gram_wf(g));
        lemma_two_doc_terms(g, d1, d2, v.total);
        let prev = scores_upto(v, q, (upto - 1) as nat);
        let cur = scores_upto(v, q, upto);
        assert(cur == credit(prev, g, v.total));
        assert(cur.contains_key(d1) && cur.contains_key(d2));
        assert(cur[d1] == (if prev.contains_key(d1) {
            prev[d1]
        } else {
            0
        }) + term(g, d1, v.total));
        assert(cur[d2] == (if prev.contains_key(d2) {
            prev[d2]
        } else {
            0
        }) + term(g, d2, v.total));
    }
}

/// When every gram of the query is held by exactly two documents, the
/// first more often than the second, and the index counts more than two
/// documents, the first scores above the second.
pub proof fn lemma_denser_scores_higher(v: IndexView, q: Seq<u8>, d1: DocId, d2: DocId)
    requires
        v.wf(),
        d1 != d2,
        v.total > 2,
        q.len() >= v.width,
        forall|i: int|
            0 <= i < num_windows(q.len() as int, v.width as int) ==> {
                let g = #[trigger] gram_of(v, window_key(q, v.width as int, i));
                g.freqs.dom() == set![d1, d2] && count_of(g, d1) > count_of(g, d2)
            },
    ensures
        scores(v, q).contains_key(d1),
        scores(v, q).contains_key(d2),
        scores(v, q)[d1] > scores(v, q)[d2],
{
    lemma_denser_upto(v, q, d1, d2, num_windows(q.len() as int, v.width as int) as nat);
}

/// Under the same conditions, any ranking of the query's scores that lists
/// the second document lists the first before it.
pub proof fn lemma_denser_ranks_first(
    v: IndexView,
    q: Seq<u8>,
    d1: DocId,
    d2: DocId,
    r: Seq<(DocId, u128)>,
    limit: nat,
    j: int,
)
    requires
        v.wf(),
        d1 != d2,
        v.total > 2,
        q.len() >= v.width,
        forall|i: int|
            0 <= i < num_windows(q.len() as int, v.width as int) ==> {
                let g = #[trigger] gram_of(v, window_key(q, v.width as int, i));
                g.freqs.dom() == set![d1, d2] && count_of(g, d1) > count_of(g, d2)
            },
        is_ranking(r, scores(v, q), limit),
        0 <= j < r.len(),
        r[j].0 == d2,
    ensures
        exists|i: int| 0 <= i < j && r[i].0 == d1,
{
    lemma_denser_scores_higher(v, q, d1, d2);
    lemma_higher_score_listed_first(r, scores(v, q), limit, d1, d2, j);
}

// ---------------------------------------------------------------------------
// Finding what was stored
// ---------------------------------------------------------------------------

proof fn lemma_add_windows_keeps(v: IndexView, id: DocId, text: Seq<u8>, upto: nat, k: u64, x: DocId)
    requires
        gram_of(v, k).freqs.contains_key(x),
    ensures
        gram_of(v.add_windows(id, text, upto), k).freqs.contains_key(x),
    decreases upto,
{
    if upto > 0 {
        lemma_add_windows_keeps(v, id, text, (upto - 1) as nat, k, x);
    }
}

proof fn lemma_add_windows_has(v: IndexView, id: DocId, text: Seq<u8>, upto: nat, i: int)
    requires
        0 <= i < upto,
    ensures
        gram_of(v.add_windows(id, text, upto), window_key(text, v.width as int, i)).freqs.contains_key(
            id,
        ),
    decreases upto,
{
    if i < upto - 1 {
        lemma_add_windows_has(v, id, text, (upto - 1) as nat, i);
        let w = v.add_windows(id, text, (upto - 1) as nat);
        let k = window_key(text, v.width as int, i);
        assert(gram_of(w, k).freqs.contains_key(id));
    }
}

proof fn lemma_add_texts_keeps(v: IndexView, id: DocId, texts: Seq<Seq<u8>>, k: u64, x: DocId)
    requires
        gram_of(v, k).freqs.contains_key(x),
    ensures
        gram_of(v.add_texts(id, texts), k).freqs.contains_key(x),
    decreases texts.len(),
{
    if texts.len() > 0 {
        lemma_add_texts_keeps(v, id, texts.drop_last(), k, x);
        let w = v.add_texts(id, texts.drop_last());
        lemma_add_windows_keeps(
            w,
            id,
            texts.last(),
            num_windows(texts.last().len() as int, w.width as int) as nat,
            k,
            x,
        );
    }
}

proof fn lemma_scores_has(v: IndexView, q: Seq<u8>, upto: nat, w: int, x: DocId)
    requires
        0 <= w < upto,
        gram_of(v, window_key(q, v.width as int, w)).freqs.contains_key(x),
    ensures
        scores_upto(v, q, upto).contains_key(x),
    decreases upto,
{
    if w < upto - 1 {
        lemma_scores_has(v, q, (upto - 1) as nat, w, x);
    }
}

/// A document just stored is among the scored documents of every query
/// whose lower-cased bytes occur in its lower-cased title and are at least
/// a gram long; so a search lists it, unless `limit` documents that rank
/// before it fill the list.
pub proof fn lemma_inserted_title_found(
    lib: LibraryView,
    doc: DocView,
    query: Seq<char>,
    start: int,
    r: Seq<(DocId, u128)>,
)
    requires
        lib.docs.len() == lib.indexed.len(),
        lib.docs.len() < usize::MAX,
        index_bytes(query).len() >= GRAM_WIDTH,
        0 <= start,
        start + index_bytes(query).len() <= index_bytes(doc.title).len(),
        index_bytes(doc.title).subrange(start, start + index_bytes(query).len()) == index_bytes(query),
        is_ranking(r, lib.inserted(doc).visible_scores(query), lib.limit as nat),
    ensures
        lib.inserted(doc).visible_scores(query).contains_key(DocId(lib.docs.len() as usize)),
        (exists|i: int| 0 <= i < r.len() && r[i].0 == DocId(lib.docs.len() as usize)) || (r.len()
            == lib.limit && forall|i: int|
            0 <= i < r.len() ==> ahead(
                #[trigger] r[i].0,
                r[i].1 as nat,
                DocId(lib.docs.len() as usize),
                lib.inserted(doc).visible_scores(query)[DocId(lib.docs.len() as usize)],
            )),
{
    let l2 = lib.inserted(doc);
    let id = DocId(lib.docs.len() as usize);
    let e = engine_of(lib.docs, lib.indexed);
    assert(l2.docs.drop_last() =~= lib.docs);
    assert(l2.indexed.drop_last() =~= lib.indexed);
    let sd = stored(doc);
    assert(l2.docs.last() == sd);
    assert(l2.engine() == e.indexed(id, sd));
    let tb = index_bytes(doc.title);
    let qb = index_bytes(query);
    let title = e.title.add_text(id, tb).counted();
    let n = GRAM_WIDTH as int;
    assert(l2.engine().title == title);
    // the first gram of the query is the gram of the title at `start`
    assert(qb.subrange(0, n) =~= tb.subrange(start, start + n));
    assert(window_key(qb, n, 0) == window_key(tb, n, start));
    lemma_engine_width(lib.docs, lib.indexed);
    lemma_add_windows_has(e.title, id, tb, num_windows(tb.len() as int, n) as nat, start);
    assert(gram_of(title, window_key(qb, n, 0)).freqs.contains_key(id));
    crate::gram::lemma_add_windows_width(e.title, id, tb, num_windows(tb.len() as int, n) as nat);
    assert(title.width == GRAM_WIDTH);
    lemma_scores_has(title, qb, num_windows(qb.len() as int, n) as nat, 0, id);
    assert(scores(title, qb).contains_key(id));
    let es = engine_scores(l2.engine(), query);
    assert(es == sum_scores(
        sum_scores(scores(title, qb), scores(l2.engine().authors, qb)),
        scores(l2.engine().keywords, qb),
    ));
    assert(es.contains_key(id));
    assert(l2.is_visible(id));
    let vs = l2.visible_scores(query);
    assert(vs.contains_key(id));
}

// ---------------------------------------------------------------------------
// Removal
// ---------------------------------------------------------------------------

/// After a visible document is removed, no search lists it and it is no
/// longer visible, so `get` fails with `NotFound`.
pub proof fn lemma_removed_not_found(lib: LibraryView, id: DocId, query: Seq<char>, r: Seq<(DocId, u128)>)
    requires
        lib.is_visible(id),
        is_ranking(r, lib.removed(id).visible_scores(query), lib.limit as nat),
    ensures
        !lib.removed(id).is_visible(id),
        forall|i: int| 0 <= i < r.len() ==> r[i].0 != id,
{
    let l2 = lib.removed(id);
    assert(!l2.is_visible(id));
    assert forall|i: int| 0 <= i < r.len() implies r[i].0 != id by {
        assert(l2.visible_scores(query).contains_key(r[i].0));
    }
}

// ---------------------------------------------------------------------------
// Reloading
// ---------------------------------------------------------------------------

/// Loading a snapshot of a library's documents gives the same documents and
/// the same visible scores for every query, provided no document was
/// removed after it was indexed (a removed document stays counted by the
/// engine until the library is loaded again).
pub proof fn lemma_reload_keeps_scores(lib: LibraryView, query: Seq<char>)
    requires
        lib.indexed == shown(lib.docs),
    ensures
        LibraryView::loaded(lib.root, lib.docs).docs == lib.docs,
        LibraryView::loaded(lib.root, lib.docs).visible_scores(query) == lib.visible_scores(query),
{
    let l2 = LibraryView::loaded(lib.root, lib.docs);
    assert(l2.engine() == lib.engine());
    assert(Set::new(|id: DocId| l2.is_visible(id)) =~= Set::new(|id: DocId| lib.is_visible(id)));
}

// ---------------------------------------------------------------------------
// Prefix resolution
// ---------------------------------------------------------------------------

/// All 64 digits of a hash determine it.
pub proof fn lemma_full_digits_determine_hash(d: Seq<u8>, h1: Seq<u8>, h2: Seq<u8>)
    requires
        d.len() == HASH_DIGITS,
        h1.len() == HASH_LEN,
        h2.len() == HASH_LEN,
        prefix_matches(d, h1),
        prefix_matches(d, h2),
    ensures
        h1 == h2,
{
    assert forall|j: int| 0 <= j < HASH_LEN implies h1[j] == h2[j] by {
        assert(hex_value(d[2 * j]) == nibble(h1, 2 * j));
        assert(hex_value(d[2 * j]) == nibble(h2, 2 * j));
        assert(hex_value(d[2 * j + 1]) == nibble(h1, 2 * j + 1));
        assert(hex_value(d[2 * j + 1]) == nibble(h2, 2 * j + 1));
        let a = h1[j] as int;
        let b = h2[j] as int;
        assert((2 * j) / 2 == j && (2 * j + 1) / 2 == j && (2 * j) % 2 == 0 && (2 * j + 1) % 2 == 1);
        assert(nibble(h1, 2 * j) == a / 16 && nibble(h1, 2 * j + 1) == a % 16);
        assert(nibble(h2, 2 * j) == b / 16 && nibble(h2, 2 * j + 1) == b % 16);
        assert(a == (a / 16) * 16 + a % 16);
        assert(b == (b / 16) * 16 + b % 16);
    }
    assert(h1 =~= h2);
}

/// Resolving all 64 digits of the hash of a document just stored gives that
/// document.
pub proof fn lemma_full_hash_resolves_inserted(
    lib: LibraryView,
    doc: DocView,
    d: Seq<u8>,
    r: Result<DocId, LibraryError>,
)
    requires
        !lib.has_visible_hash(doc.hash),
        doc.hash.len() == HASH_LEN,
        forall|i: int| 0 <= i < lib.docs.len() ==> (#[trigger] lib.docs[i]).hash.len() == HASH_LEN,
        d.len() == HASH_DIGITS,
        all_hex_digits(d),
        prefix_matches(d, doc.hash),
        lib.inserted(doc).resolves(d, r),
    ensures
        r == Ok::<DocId, LibraryError>(DocId(lib.docs.len() as usize)),
{
    let l2 = lib.inserted(doc);
    let n = lib.docs.len() as int;
    assert(l2.docs[n] == stored(doc));
    assert(l2.prefix_match(n, d));
    assert forall|j: int| j != n implies !(#[trigger] l2.docs[j] == l2.docs[j] && l2.prefix_match(j, d)) by {
        if l2.prefix_match(j, d) {
            assert(l2.docs[j] == lib.docs[j]);
            lemma_full_digits_determine_hash(d, lib.docs[j].hash, doc.hash);
        }
    }
    match r {
        Ok(id) => {
            if id.0 != n {
                assert(l2.docs[id.0 as int] == l2.docs[id.0 as int]);
            }
        },
        Err(e) => {
            if e == LibraryError::NotFound {
                assert(l2.docs[n] == l2.docs[n]);
            } else if e == LibraryError::AmbiguousPrefix {
                let (i, j) = choose|i: int, j: int|
                    #![trigger l2.docs[i], l2.docs[j]]
                    i != j && l2.prefix_match(i, d) && l2.prefix_match(j, d);
                assert(l2.docs[i] == l2.docs[i]);
                assert(l2.docs[j] == l2.docs[j]);
            }
        },
    }
}

/// Resolving digits that begin the hash of exactly one visible document
/// gives that document; digits that begin none give `NotFound`, and digits
/// that begin two or more give `AmbiguousPrefix`.
pub proof fn lemma_prefix_resolution(lib: LibraryView, d: Seq<u8>, r: Result<DocId, LibraryError>)
    requires
        d.len() <= HASH_DIGITS,
        all_hex_digits(d),
        lib.resolves(d, r),
    ensures
        forall|i: int|
            #![trigger lib.docs[i]]
            lib.prefix_match(i, d) && (forall|j: int| #![trigger lib.docs[j]] j != i ==> !lib.prefix_match(j, d))
                ==> r == Ok::<DocId, LibraryError>(DocId(i as usize)),
        (forall|j: int| #![trigger lib.docs[j]] !lib.prefix_match(j, d)) ==> r == Err::<DocId, LibraryError>(
            LibraryError::NotFound,
        ),
        (exists|i: int, j: int|
            #![trigger lib.docs[i], lib.docs[j]]
            i != j && lib.prefix_match(i, d) && lib.prefix_match(j, d)) ==> r == Err::<DocId, LibraryError>(
            LibraryError::AmbiguousPrefix,
        ),
{
    assert forall|i: int|
        #![trigger lib.docs[i]]
        lib.prefix_match(i, d) && (forall|j: int| #![trigger lib.docs[j]] j != i ==> !lib.prefix_match(j, d))
            implies r == Ok::<DocId, LibraryError>(DocId(i as usize)) by {
        match r {
            Ok(id) => {
                if id.0 != i {
                    assert(lib.docs[id.0 as int] == lib.docs[id.0 as int]);
                }
            },
            Err(e) => {
                if e == LibraryError::AmbiguousPrefix {
                    let (a, b) = choose|a: int, b: int|
                        #![trigger lib.docs[a], lib.docs[b]]
                        a != b && lib.prefix_match(a, d) && lib.prefix_match(b, d);
                    assert(lib.docs[a] == lib.docs[a]);
                    assert(lib.docs[b] == lib.docs[b]);
                }
            },
        }
    }
    if forall|j: int| #![trigger lib.docs[j]] !lib.prefix_match(j, d) {
        match r {
            Ok(id) => {
                assert(lib.docs[id.0 as int] == lib.docs[id.0 as int]);
            },
            Err(e) => {
                if e == LibraryError::AmbiguousPrefix {
                    let (a, b) = choose|a: int, b: int|
                        #![trigger lib.docs[a], lib.docs[b]]
                        a != b && lib.prefix_match(a, d) && lib.prefix_match(b, d);
                    assert(lib.docs[a] == lib.docs[a]);
                }
            },
        }
    }
    if exists|i: int, j: int|
        #![trigger lib.docs[i], lib.docs[j]]
        i != j && lib.prefix_match(i, d) && lib.prefix_match(j, d) {
        let (a, b) = choose|a: int, b: int|
            #![trigger lib.docs[a], lib.docs[b]]
            a != b && lib.prefix_match(a, d) && lib.prefix_match(b, d);
        match r {
            Ok(id) => {
                assert(lib.docs[a] == lib.docs[a]);
                assert(lib.docs[b] == lib.docs[b]);
            },
            Err(e) => {
                if e == LibraryError::NotFound {
                    assert(lib.docs[a] == lib.docs[a]);
                }
            },
        }
    }
}

} // verus!
