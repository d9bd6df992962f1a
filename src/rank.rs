//! Ranking scored documents: highest score first, lower identity first among
//! equal scores, cut to a limit.

use vstd::prelude::*;

use crate::doc::DocId;
use crate::gram::score_map;
use crate::pairs::{lemma_pairs_map_dom, lemma_pairs_map_index, unique_ids};

verus! {

/// A document with score `s` ranks before document `id` with score `t`.
pub open spec fn ahead(id1: DocId, s: nat, id2: DocId, t: nat) -> bool {
    s > t || (s == t && id1.0 < id2.0)
}

pub open spec fn outranks(a: (DocId, u128), b: (DocId, u128)) -> bool {
    ahead(a.0, a.1 as nat, b.0, b.1 as nat)
}

/// Each entry ranks before every later one.
pub open spec fn sorted_ranking(r: Seq<(DocId, u128)>) -> bool {
    forall|i: int, j: int| 0 <= i < j < r.len() ==> outranks(#[trigger] r[i], #[trigger] r[j])
}

/// `r` lists the best `limit` documents of `scores` (all of them if there
/// are fewer), each with its score, best first.
pub open spec fn is_ranking(r: Seq<(DocId, u128)>, scores: Map<DocId, nat>, limit: nat) -> bool {
    &&& r.len() <= limit
    &&& forall|i: int|
        0 <= i < r.len() ==> scores.contains_key(#[trigger] r[i].0) && r[i].1 as nat == scores[r[i].0]
    &&& sorted_ranking(r)
    &&& forall|id: DocId|
        #![trigger scores.contains_key(id)]
        scores.contains_key(id) && (forall|i: int| 0 <= i < r.len() ==> r[i].0 != id) ==> {
            &&& r.len() == limit
            &&& forall|i: int| 0 <= i < r.len() ==> ahead(#[trigger] r[i].0, r[i].1 as nat, id, scores[id])
        }
}

proof fn lemma_insert_sorted(before: Seq<(DocId, u128)>, p: int, c: (DocId, u128))
    requires
        sorted_ranking(before),
        0 <= p <= before.len(),
        forall|a: int| 0 <= a < p ==> outranks(#[trigger] before[a], c),
        forall|a: int| p <= a < before.len() ==> outranks(c, #[trigger] before[a]),
    ensures
        sorted_ranking(before.insert(p, c)),
{
    let s = before.insert(p, c);
    assert forall|a: int, b: int| 0 <= a < b < s.len() implies outranks(
        #[trigger] s[a],
        #[trigger] s[b],
    ) by {
        if a < p && b < p {
            assert(s[a] == before[a] && s[b] == before[b]);
        } else if a < p && b == p {
            assert(s[a] == before[a]);
        } else if a < p {
            assert(s[a] == before[a] && s[b] == before[b - 1]);
        } else if a == p {
            assert(s[b] == before[b - 1]);
        } else {
            assert(s[a] == before[a - 1] && s[b] == before[b - 1]);
        }
    }
}

proof fn lemma_place(before: Seq<(DocId, u128)>, p: int, c: (DocId, u128))
    requires
        sorted_ranking(before),
        0 <= p <= before.len(),
        forall|a: int| 0 <= a < p ==> outranks(#[trigger] before[a], c),
        p == before.len() || !outranks(before[p], c),
        forall|a: int| 0 <= a < before.len() ==> (#[trigger] before[a]).0 != c.0,
    ensures
        sorted_ranking(before.insert(p, c)),
{
    assert forall|a: int| p <= a < before.len() implies outranks(c, #[trigger] before[a]) by {
        if a > p {
            assert(outranks(before[p], before[a]));
        }
    }
    lemma_insert_sorted(before, p, c);
}

proof fn lemma_insert_multiset<A>(s: Seq<A>, p: int, c: A)
    requires
        0 <= p <= s.len(),
    ensures
        s.insert(p, c).to_multiset() =~= s.to_multiset().insert(c),
{
    broadcast use vstd::seq_lib::group_to_multiset_ensures;

    let t = s.insert(p, c);
    assert(t.remove(p) =~= s);
    assert(t[p] == c);
    assert(t.contains(c));
}

/// Every entry of `s` occurs in `t`.
proof fn lemma_multiset_members<A>(s: Seq<A>, t: Seq<A>, i: int)
    requires
        s.to_multiset() =~= t.to_multiset(),
        0 <= i < s.len(),
    ensures
        exists|k: int| 0 <= k < t.len() && t[k] == s[i],
{
    broadcast use vstd::seq_lib::group_to_multiset_ensures;

    assert(s.contains(s[i]));
    assert(t.to_multiset().count(s[i]) > 0);
    assert(t.contains(s[i]));
}

/// Ranks the scored documents `cands` and keeps the best `limit`.
pub fn rank(cands: &Vec<(DocId, u128)>, limit: usize) -> (r: Vec<(DocId, u128)>)
    requires
        unique_ids(cands@),
    ensures
        is_ranking(r@, score_map(cands@), limit as nat),
{
    let mut sorted: Vec<(DocId, u128)> = Vec::new();
    let mut j: usize = 0;
    assert(sorted@ =~= cands@.subrange(0, 0));
    while j < cands.len()
        invariant
            j <= cands@.len(),
            unique_ids(cands@),
            sorted@.len() == j,
            sorted_ranking(sorted@),
            sorted@.to_multiset() =~= cands@.subrange(0, j as int).to_multiset(),
        decreases cands@.len() - j,
    {
        let c = cands[j];
        let mut p: usize = 0;
        while p < sorted.len() && (sorted[p].1 > c.1 || (sorted[p].1 == c.1 && sorted[p].0.0
            < c.0.0))
            invariant
                p <= sorted@.len(),
                j < cands@.len(),
                c == cands@[j as int],
                forall|a: int| 0 <= a < p ==> outranks(#[trigger] sorted@[a], c),
            decreases sorted@.len() - p,
        {
            p = p + 1;
        }
        let ghost before = sorted@;
        proof {
            assert forall|a: int| 0 <= a < before.len() implies before[a].0 != c.0 by {
                lemma_multiset_members(before, cands@.subrange(0, j as int), a);
                let k = choose|k: int| 0 <= k < j && cands@.subrange(0, j as int)[k] == before[a];
                assert(cands@[k] == before[a]);
            }
            lemma_place(before, p as int, c);
        }
        sorted.insert(p, c);
        proof {
            lemma_insert_multiset(before, p as int, c);
            assert(cands@.subrange(0, j + 1) =~= cands@.subrange(0, j as int).push(c));
            vstd::seq_lib::to_multiset_build(cands@.subrange(0, j as int), c);
        }
        j = j + 1;
    }
    let ghost full = sorted@;
    proof {
        assert(cands@.subrange(0, cands@.len() as int) =~= cands@);
    }
    if sorted.len() > limit {
        sorted.truncate(limit);
    }
    proof {
        lemma_ranking_prefix(cands@, full, sorted@, limit as nat);
    }
    sorted
}

proof fn lemma_ranking_prefix(
    cands: Seq<(DocId, u128)>,
    full: Seq<(DocId, u128)>,
    r: Seq<(DocId, u128)>,
    limit: nat,
)
    requires
        unique_ids(cands),
        sorted_ranking(full),
        full.len() == cands.len(),
        full.to_multiset() =~= cands.to_multiset(),
        r.len() <= limit,
        r.len() == full.len() || r.len() == limit,
        r.len() <= full.len(),
        forall|i: int| 0 <= i < r.len() ==> r[i] == full[i],
    ensures
        is_ranking(r, score_map(cands), limit),
{
    let m = score_map(cands);
    assert forall|i: int| 0 <= i < r.len() implies m.contains_key(#[trigger] r[i].0) && r[i].1 as nat
        == m[r[i].0] by {
        assert(r[i] == full[i]);
        lemma_multiset_members(full, cands, i);
        let k = choose|k: int| 0 <= k < cands.len() && cands[k] == full[i];
        lemma_pairs_map_index(cands, k);
    }
    assert forall|i: int, j: int| 0 <= i < j < r.len() implies outranks(
        #[trigger] r[i],
        #[trigger] r[j],
    ) by {
        assert(r[i] == full[i] && r[j] == full[j]);
    }
    assert forall|id: DocId|
        #![trigger m.contains_key(id)]
        m.contains_key(id) && (forall|i: int| 0 <= i < r.len() ==> r[i].0 != id) implies {
        &&& r.len() == limit
        &&& forall|i: int| 0 <= i < r.len() ==> ahead(#[trigger] r[i].0, r[i].1 as nat, id, m[id])
    } by {
        lemma_pairs_map_dom(cands, id);
        let k = choose|k: int| 0 <= k < cands.len() && cands[k].0 == id;
        lemma_pairs_map_index(cands, k);
        lemma_multiset_members(cands, full, k);
        let a = choose|a: int| 0 <= a < full.len() && full[a] == cands[k];
        if a < r.len() {
            assert(r[a].0 == id);
        }
        assert forall|i: int| 0 <= i < r.len() implies ahead(
            #[trigger] r[i].0,
            r[i].1 as nat,
            id,
            m[id],
        ) by {
            assert(r[i] == full[i]);
            assert(outranks(full[i], full[a]));
        }
    }
}

} // verus!
