//! Lists of `(DocId, value)` pairs with distinct identities, read as maps.

use vstd::prelude::*;

use crate::doc::DocId;

verus! {

/// The map that a list of pairs spells: later pairs win.
pub open spec fn pairs_map<V>(s: Seq<(DocId, V)>) -> Map<DocId, V>
    decreases s.len(),
{
    if s.len() == 0 {
        Map::empty()
    } else {
        pairs_map(s.drop_last()).insert(s.last().0, s.last().1)
    }
}

/// No identity occurs twice.
pub open spec fn unique_ids<V>(s: Seq<(DocId, V)>) -> bool {
    forall|i: int, j: int| 0 <= i < j < s.len() ==> s[i].0 != s[j].0
}

pub proof fn lemma_pairs_map_dom<V>(s: Seq<(DocId, V)>, id: DocId)
    ensures
        pairs_map(s).contains_key(id) <==> exists|i: int| 0 <= i < s.len() && s[i].0 == id,
    decreases s.len(),
{
    if s.len() > 0 {
        lemma_pairs_map_dom(s.drop_last(), id);
        if pairs_map(s.drop_last()).contains_key(id) {
            let i = choose|i: int| 0 <= i < s.len() - 1 && s.drop_last()[i].0 == id;
            assert(s[i].0 == id);
        }
        if exists|i: int| 0 <= i < s.len() && s[i].0 == id {
            let i = choose|i: int| 0 <= i < s.len() && s[i].0 == id;
            if i < s.len() - 1 {
                assert(s.drop_last()[i].0 == id);
            }
        }
    }
}

pub proof fn lemma_pairs_map_index<V>(s: Seq<(DocId, V)>, i: int)
    requires
        unique_ids(s),
        0 <= i < s.len(),
    ensures
        pairs_map(s).contains_key(s[i].0),
        pairs_map(s)[s[i].0] == s[i].1,
    decreases s.len(),
{
    if i < s.len() - 1 {
        lemma_pairs_map_index(s.drop_last(), i);
        assert(s.drop_last()[i] == s[i]);
    }
}

pub proof fn lemma_pairs_map_finite<V>(s: Seq<(DocId, V)>)
    ensures
        pairs_map(s).dom().finite(),
    decreases s.len(),
{
    if s.len() > 0 {
        lemma_pairs_map_finite(s.drop_last());
    }
}

pub proof fn lemma_pairs_map_len<V>(s: Seq<(DocId, V)>)
    requires
        unique_ids(s),
    ensures
        pairs_map(s).dom().len() == s.len(),
    decreases s.len(),
{
    if s.len() > 0 {
        let t = s.drop_last();
        assert(unique_ids(t));
        lemma_pairs_map_len(t);
        lemma_pairs_map_finite(t);
        lemma_pairs_map_dom(t, s.last().0);
        if pairs_map(t).contains_key(s.last().0) {
            let i = choose|i: int| 0 <= i < t.len() && t[i].0 == s.last().0;
            assert(s[i].0 == s[s.len() - 1].0);
        }
    }
}

pub proof fn lemma_pairs_map_update<V>(s: Seq<(DocId, V)>, j: int, v: V)
    requires
        unique_ids(s),
        0 <= j < s.len(),
    ensures
        unique_ids(s.update(j, (s[j].0, v))),
        pairs_map(s.update(j, (s[j].0, v))) == pairs_map(s).insert(s[j].0, v),
    decreases s.len(),
{
    let u = s.update(j, (s[j].0, v));
    assert(unique_ids(u)) by {
        assert forall|a: int, b: int| 0 <= a < b < u.len() implies u[a].0 != u[b].0 by {
            assert(u[a].0 == s[a].0 && u[b].0 == s[b].0);
        }
    }
    if j == s.len() - 1 {
        assert(u.drop_last() =~= s.drop_last());
    } else {
        let t = s.drop_last();
        assert(unique_ids(t));
        lemma_pairs_map_update(t, j, v);
        assert(u.drop_last() =~= t.update(j, (t[j].0, v)));
        assert(s.last().0 != s[j].0);
        assert(pairs_map(u) =~= pairs_map(s).insert(s[j].0, v));
    }
}

/// The position of `id` in `s`, if it occurs.
pub fn find_id<V>(s: &Vec<(DocId, V)>, id: DocId) -> (r: Option<usize>)
    ensures
        match r {
            Some(i) => i < s@.len() && s@[i as int].0 == id,
            None => forall|i: int| 0 <= i < s@.len() ==> s@[i].0 != id,
        },
{
    let mut i: usize = s.len();
    while i > 0
        invariant
            i <= s@.len(),
            forall|k: int| i <= k < s@.len() ==> s@[k].0 != id,
        decreases i,
    {
        i = i - 1;
        if s[i].0 == id {
            return Some(i);
        }
    }
    None
}

/// Adds `amount` to the score that `acc` holds for `id`, which counts as 0
/// where `acc` has none.
pub fn add_score(acc: &mut Vec<(DocId, u128)>, id: DocId, amount: u128)
    requires
        unique_ids(old(acc)@),
        pairs_map(old(acc)@).contains_key(id) ==> pairs_map(old(acc)@)[id] + amount <= u128::MAX,
    ensures
        unique_ids(final(acc)@),
        pairs_map(final(acc)@) == pairs_map(old(acc)@).insert(
            id,
            (if pairs_map(old(acc)@).contains_key(id) {
                pairs_map(old(acc)@)[id] + amount
            } else {
                amount as int
            }) as u128,
        ),
{
    proof {
        lemma_pairs_map_dom(acc@, id);
    }
    match find_id(acc, id) {
        Some(i) => {
            proof {
                lemma_pairs_map_index(acc@, i as int);
                lemma_pairs_map_update(acc@, i as int, (acc@[i as int].1 + amount) as u128);
            }
            let cur = acc[i].1;
            acc.set(i, (id, cur + amount));
        },
        None => {
            acc.push((id, amount));
            proof {
                assert(acc@.drop_last() =~= old(acc)@);
            }
        },
    }
}

} // verus!
