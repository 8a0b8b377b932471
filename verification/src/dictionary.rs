//! Dictionaries as mathematics: entries in ascending key order, and the
//! mapping from keys to values that they stand for.

use crate::order::{bytes_lt, lemma_lt_asymmetric, lemma_lt_total, lemma_lt_transitive};
use crate::value::{Entries, Value};
use vstd::prelude::*;

verus! {

/// Every key comes strictly before the keys behind it: the entries are in
/// ascending key order and no key occurs twice.
pub open spec fn keys_ascending(es: Entries) -> bool {
    forall|i: int, j: int| 0 <= i < j < es.len() ==> bytes_lt(#[trigger] es[i].0, #[trigger] es[j].0)
}

/// Where an entry with key `k` belongs: just behind the last entry whose key
/// comes before `k`.
pub open spec fn dict_rank(es: Entries, k: Seq<u8>) -> nat
    decreases es.len(),
{
    if es.len() == 0 || bytes_lt(es.last().0, k) {
        es.len()
    } else {
        dict_rank(es.drop_last(), k)
    }
}

/// The entries after `k` has been given the value `v`: an entry that has the
/// key `k` at its place is replaced, otherwise a new entry is put in.
pub open spec fn dict_insert(es: Entries, k: Seq<u8>, v: Value) -> Entries {
    let i = dict_rank(es, k) as int;
    if i < es.len() && es[i].0 == k {
        es.update(i, (k, v))
    } else {
        es.insert(i, (k, v))
    }
}

/// The value that `k` has, if it has one.
pub open spec fn dict_get(es: Entries, k: Seq<u8>) -> Option<Value> {
    let i = dict_rank(es, k) as int;
    if i < es.len() && es[i].0 == k {
        Some(es[i].1)
    } else {
        None
    }
}

/// The mapping from keys to values that the entries stand for.
pub open spec fn dict_map(es: Entries) -> Map<Seq<u8>, Value> {
    Map::new(|k: Seq<u8>| dict_get(es, k) is Some, |k: Seq<u8>| dict_get(es, k)->Some_0)
}

/// The mapping that comes of giving each key its value in turn, from the
/// first pair to the last.
pub open spec fn pairs_map(pairs: Entries) -> Map<Seq<u8>, Value>
    decreases pairs.len(),
{
    if pairs.len() == 0 {
        Map::empty()
    } else {
        pairs_map(pairs.drop_last()).insert(pairs.last().0, pairs.last().1)
    }
}

/// The dictionary that comes of giving each key its value in turn, from the
/// first pair to the last: of two pairs with one key the later one stays.
pub open spec fn dict_from_pairs(pairs: Entries) -> Entries
    decreases pairs.len(),
{
    if pairs.len() == 0 {
        Seq::empty()
    } else {
        dict_insert(dict_from_pairs(pairs.drop_last()), pairs.last().0, pairs.last().1)
    }
}

/// What `dict_rank` finds: the keys in front of it end with one before `k`, and
/// no key from it on comes before `k`.
pub proof fn lemma_rank_bounds(es: Entries, k: Seq<u8>)
    ensures
        dict_rank(es, k) <= es.len(),
        dict_rank(es, k) > 0 ==> bytes_lt(es[dict_rank(es, k) - 1].0, k),
        forall|j: int| dict_rank(es, k) <= j < es.len() ==> !bytes_lt(#[trigger] es[j].0, k),
    decreases es.len(),
{
    if es.len() == 0 || bytes_lt(es.last().0, k) {
    } else {
        let front = es.drop_last();
        lemma_rank_bounds(front, k);
        assert forall|j: int| dict_rank(es, k) <= j < es.len() implies !bytes_lt(
            #[trigger] es[j].0,
            k,
        ) by {
            if j < front.len() {
                assert(front[j].0 == es[j].0);
            }
        }
    }
}

/// An index of which `lemma_rank_bounds` would hold is the rank.
pub proof fn lemma_rank_unique(es: Entries, k: Seq<u8>, i: int)
    requires
        0 <= i <= es.len(),
        i > 0 ==> bytes_lt(es[i - 1].0, k),
        forall|j: int| i <= j < es.len() ==> !bytes_lt(#[trigger] es[j].0, k),
    ensures
        dict_rank(es, k) == i,
    decreases es.len(),
{
    if es.len() == 0 || bytes_lt(es.last().0, k) {
        if i < es.len() {
            assert(!bytes_lt(es[es.len() - 1].0, k));
        }
    } else {
        lemma_rank_unique(es.drop_last(), k, i);
    }
}

/// In a dictionary in ascending order the rank parts the keys before `k` from
/// the others.
pub proof fn lemma_rank_ascending(es: Entries, k: Seq<u8>)
    requires
        keys_ascending(es),
    ensures
        dict_rank(es, k) <= es.len(),
        forall|j: int| 0 <= j < dict_rank(es, k) ==> bytes_lt(#[trigger] es[j].0, k),
        forall|j: int|
            dict_rank(es, k) <= j < es.len() ==> (#[trigger] es[j].0 == k || bytes_lt(k, es[j].0)),
        forall|j: int| dict_rank(es, k) < j < es.len() ==> bytes_lt(k, #[trigger] es[j].0),
{
    lemma_rank_bounds(es, k);
    let r = dict_rank(es, k) as int;
    assert forall|j: int| 0 <= j < r implies bytes_lt(#[trigger] es[j].0, k) by {
        if j < r - 1 {
            lemma_lt_transitive(es[j].0, es[r - 1].0, k);
        }
    }
    assert forall|j: int| r <= j < es.len() implies (#[trigger] es[j].0 == k || bytes_lt(
        k,
        es[j].0,
    )) by {
        lemma_lt_total(es[j].0, k);
    }
    assert forall|j: int| r < j < es.len() implies bytes_lt(k, #[trigger] es[j].0) by {
        lemma_lt_total(es[r].0, k);
        if es[r].0 == k {
        } else {
            lemma_lt_transitive(k, es[r].0, es[j].0);
        }
    }
}

/// Keys of which each comes before the next are in ascending order.
pub proof fn lemma_neighbours_ascending(es: Entries)
    requires
        forall|i: int| 0 < i < es.len() ==> bytes_lt(es[i - 1].0, #[trigger] es[i].0),
    ensures
        keys_ascending(es),
    decreases es.len(),
{
    if es.len() > 1 {
        let front = es.drop_last();
        assert forall|i: int| 0 < i < front.len() implies bytes_lt(
            front[i - 1].0,
            #[trigger] front[i].0,
        ) by {
            assert(bytes_lt(es[i - 1].0, es[i].0));
        }
        lemma_neighbours_ascending(front);
        assert forall|i: int, j: int| 0 <= i < j < es.len() implies bytes_lt(
            #[trigger] es[i].0,
            #[trigger] es[j].0,
        ) by {
            if j < es.len() - 1 {
                assert(bytes_lt(front[i].0, front[j].0));
            } else {
                assert(bytes_lt(es[j - 1].0, es[j].0));
                if i < j - 1 {
                    assert(bytes_lt(front[i].0, front[j - 1].0));
                    lemma_lt_transitive(es[i].0, es[j - 1].0, es[j].0);
                }
            }
        }
    }
}

/// Giving a key a value keeps the keys in ascending order.
pub proof fn lemma_insert_ascending(es: Entries, k: Seq<u8>, v: Value)
    requires
        keys_ascending(es),
    ensures
        keys_ascending(dict_insert(es, k, v)),
{
    lemma_rank_ascending(es, k);
    let r = dict_rank(es, k) as int;
    let out = dict_insert(es, k, v);
    if r < es.len() && es[r].0 == k {
        assert forall|i: int, j: int| 0 <= i < j < out.len() implies bytes_lt(
            #[trigger] out[i].0,
            #[trigger] out[j].0,
        ) by {
            assert(out[i].0 == es[i].0);
            assert(out[j].0 == es[j].0);
        }
    } else {
        assert forall|i: int, j: int| 0 <= i < j < out.len() implies bytes_lt(
            #[trigger] out[i].0,
            #[trigger] out[j].0,
        ) by {
            if j < r {
                assert(out[i] == es[i] && out[j] == es[j]);
            } else if j == r {
                assert(out[i] == es[i]);
            } else if i < r {
                assert(out[i] == es[i] && out[j] == es[j - 1]);
                if j - 1 == r {
                }
                lemma_lt_transitive(es[i].0, k, es[j - 1].0);
            } else if i == r {
                assert(out[j] == es[j - 1]);
            } else {
                assert(out[i] == es[i - 1] && out[j] == es[j - 1]);
            }
        }
    }
}

/// In a dictionary in ascending order `dict_get` finds the value of every
/// key that occurs, and finds nothing for a key that does not.
pub proof fn lemma_get_ascending(es: Entries, k: Seq<u8>)
    requires
        keys_ascending(es),
    ensures
        forall|j: int| 0 <= j < es.len() && #[trigger] es[j].0 == k ==> dict_get(es, k) == Some(es[j].1),
        dict_get(es, k) is None ==> forall|j: int| 0 <= j < es.len() ==> #[trigger] es[j].0 != k,
{
    lemma_rank_ascending(es, k);
    let r = dict_rank(es, k) as int;
    assert forall|j: int| 0 <= j < es.len() && #[trigger] es[j].0 == k implies j == r by {
        if j < r {
            lemma_lt_asymmetric(es[j].0, k);
        } else if j > r {
            lemma_lt_asymmetric(k, es[j].0);
        }
    }
}

/// After `k` has been given the value `v`, `k` has that value and every other
/// key has what it had.
pub proof fn lemma_get_insert(es: Entries, k: Seq<u8>, v: Value, q: Seq<u8>)
    requires
        keys_ascending(es),
    ensures
        dict_get(dict_insert(es, k, v), q) == if q == k {
            Some(v)
        } else {
            dict_get(es, q)
        },
{
    let out = dict_insert(es, k, v);
    lemma_insert_ascending(es, k, v);
    lemma_rank_ascending(es, k);
    lemma_get_ascending(out, q);
    lemma_get_ascending(es, q);
    let r = dict_rank(es, k) as int;
    assert(out[r].0 == k && out[r].1 == v);
    if q != k {
        let replaced = r < es.len() && es[r].0 == k;
        match dict_get(es, q) {
            Some(w) => {
                let j = dict_rank(es, q) as int;
                if replaced || j < r {
                    assert(out[j].0 == q && out[j].1 == w);
                } else {
                    assert(out[j + 1].0 == q && out[j + 1].1 == w);
                }
            },
            None => {
                if dict_get(out, q) is Some {
                    let j = dict_rank(out, q) as int;
                    if replaced || j < r {
                        assert(es[j].0 == q);
                    } else {
                        assert(es[j - 1].0 == q);
                    }
                }
            },
        }
    }
}

/// Giving a key a value changes the mapping at that key and nowhere else.
pub proof fn lemma_map_insert(es: Entries, k: Seq<u8>, v: Value)
    requires
        keys_ascending(es),
    ensures
        dict_map(dict_insert(es, k, v)) == dict_map(es).insert(k, v),
{
    assert forall|q: Seq<u8>|
        dict_get(dict_insert(es, k, v), q) == if q == k {
            Some(v)
        } else {
            dict_get(es, q)
        } by {
        lemma_get_insert(es, k, v, q);
    }
    assert(dict_map(dict_insert(es, k, v)) =~= dict_map(es).insert(k, v));
}

/// The mapping of a dictionary in ascending key order holds just its entries:
/// each key of an entry with the value of that entry, and no other key.
pub proof fn lemma_map_entries(es: Entries)
    requires
        keys_ascending(es),
    ensures
        forall|i: int|
            0 <= i < es.len() ==> dict_map(es).contains_key(#[trigger] es[i].0) && dict_map(
                es,
            )[es[i].0] == es[i].1,
        forall|k: Seq<u8>|
            dict_map(es).contains_key(k) ==> exists|i: int| 0 <= i < es.len() && #[trigger] es[i].0 == k,
{
    assert forall|i: int| 0 <= i < es.len() implies dict_map(es).contains_key(#[trigger] es[i].0)
        && dict_map(es)[es[i].0] == es[i].1 by {
        lemma_get_ascending(es, es[i].0);
    }
    assert forall|k: Seq<u8>| dict_map(es).contains_key(k) implies exists|i: int|
        0 <= i < es.len() && #[trigger] es[i].0 == k by {
        lemma_rank_bounds(es, k);
        assert(es[dict_rank(es, k) as int].0 == k);
    }
}

/// Two dictionaries in ascending key order that stand for the same mapping
/// are the same dictionary.
pub proof fn lemma_map_extensional(a: Entries, b: Entries)
    requires
        keys_ascending(a),
        keys_ascending(b),
        dict_map(a) == dict_map(b),
    ensures
        a == b,
{
    assert forall|k: Seq<u8>| dict_get(a, k) == dict_get(b, k) by {
        assert(dict_map(a).contains_key(k) == dict_map(b).contains_key(k));
        assert(dict_map(a).contains_key(k) == dict_get(a, k) is Some);
        assert(dict_map(b).contains_key(k) == dict_get(b, k) is Some);
        if dict_get(a, k) is Some {
            assert(dict_map(a)[k] == dict_get(a, k)->Some_0);
            assert(dict_map(b)[k] == dict_get(b, k)->Some_0);
        }
    }
    lemma_dict_extensional(a, b);
}

/// Two dictionaries in ascending key order that give every key the same value
/// are the same dictionary: what a dictionary is does not depend on the order
/// in which its entries were put in.
pub proof fn lemma_dict_extensional(a: Entries, b: Entries)
    requires
        keys_ascending(a),
        keys_ascending(b),
        forall|k: Seq<u8>| dict_get(a, k) == dict_get(b, k),
    ensures
        a == b,
    decreases a.len(),
{
    if a.len() == 0 {
        if b.len() > 0 {
            lemma_get_ascending(b, b[0].0);
            assert(dict_get(a, b[0].0) is None);
        }
        assert(a =~= b);
    } else if b.len() == 0 {
        lemma_get_ascending(a, a[0].0);
        assert(dict_get(b, a[0].0) is None);
    } else {
        let ka = a[0].0;
        let kb = b[0].0;
        lemma_get_ascending(a, ka);
        lemma_get_ascending(b, ka);
        lemma_get_ascending(a, kb);
        lemma_get_ascending(b, kb);
        assert(dict_get(b, ka) == Some(a[0].1));
        assert(dict_get(a, kb) == Some(b[0].1));
        let j = dict_rank(b, ka) as int;
        let i = dict_rank(a, kb) as int;
        assert(b[j].0 == ka && a[i].0 == kb);
        if j > 0 {
            assert(bytes_lt(b[0].0, b[j].0));
            if i > 0 {
                assert(bytes_lt(a[0].0, a[i].0));
                lemma_lt_asymmetric(ka, kb);
            }
        }
        assert(ka == kb);
        assert(a[0] == b[0]);
        let ta = a.skip(1);
        let tb = b.skip(1);
        assert forall|x: int, y: int| 0 <= x < y < ta.len() implies bytes_lt(
            #[trigger] ta[x].0,
            #[trigger] ta[y].0,
        ) by {
            assert(bytes_lt(a[x + 1].0, a[y + 1].0));
        }
        assert forall|x: int, y: int| 0 <= x < y < tb.len() implies bytes_lt(
            #[trigger] tb[x].0,
            #[trigger] tb[y].0,
        ) by {
            assert(bytes_lt(b[x + 1].0, b[y + 1].0));
        }
        assert forall|k: Seq<u8>| dict_get(ta, k) == dict_get(tb, k) by {
            lemma_tail_get(a, k);
            lemma_tail_get(b, k);
        }
        lemma_dict_extensional(ta, tb);
        assert(a =~= seq![a[0]] + ta);
        assert(b =~= seq![b[0]] + tb);
    }
}

/// Behind the first entry of a dictionary in ascending key order every key
/// but the first has the value that it has in the whole.
pub proof fn lemma_tail_get(es: Entries, k: Seq<u8>)
    requires
        keys_ascending(es),
        es.len() > 0,
    ensures
        keys_ascending(es.skip(1)),
        dict_get(es.skip(1), k) == if k == es[0].0 {
            None
        } else {
            dict_get(es, k)
        },
{
    let t = es.skip(1);
    assert forall|x: int, y: int| 0 <= x < y < t.len() implies bytes_lt(
        #[trigger] t[x].0,
        #[trigger] t[y].0,
    ) by {
        assert(bytes_lt(es[x + 1].0, es[y + 1].0));
    }
    lemma_get_ascending(es, k);
    lemma_get_ascending(t, k);
    match dict_get(t, k) {
        Some(v) => {
            let j = dict_rank(t, k) as int;
            assert(t[j].0 == k);
            assert(es[j + 1].0 == k && es[j + 1].1 == v);
            assert(bytes_lt(es[0].0, es[j + 1].0));
            lemma_lt_asymmetric(es[0].0, k);
        },
        None => {
            if k != es[0].0 {
                if dict_get(es, k) is Some {
                    let j = dict_rank(es, k) as int;
                    assert(es[j].0 == k);
                    assert(t[j - 1].0 == k);
                }
            }
        },
    }
}

/// A dictionary made pair by pair is in ascending key order.
pub proof fn lemma_from_pairs_ascending(pairs: Entries)
    ensures
        keys_ascending(dict_from_pairs(pairs)),
    decreases pairs.len(),
{
    if pairs.len() > 0 {
        lemma_from_pairs_ascending(pairs.drop_last());
        lemma_insert_ascending(
            dict_from_pairs(pairs.drop_last()),
            pairs.last().0,
            pairs.last().1,
        );
    }
}

/// A dictionary made pair by pair stands for the mapping in which each key
/// has the value of the last pair with that key.
pub proof fn lemma_from_pairs_map(pairs: Entries)
    ensures
        dict_map(dict_from_pairs(pairs)) == pairs_map(pairs),
    decreases pairs.len(),
{
    if pairs.len() == 0 {
        assert(dict_map(dict_from_pairs(pairs)) =~= Map::empty());
    } else {
        let front = pairs.drop_last();
        lemma_from_pairs_map(front);
        lemma_from_pairs_ascending(front);
        lemma_map_insert(dict_from_pairs(front), pairs.last().0, pairs.last().1);
    }
}

/// Pairs that are in ascending key order already make the dictionary that
/// lists them as they are.
pub proof fn lemma_from_pairs_sorted(pairs: Entries)
    requires
        keys_ascending(pairs),
    ensures
        dict_from_pairs(pairs) == pairs,
    decreases pairs.len(),
{
    if pairs.len() > 0 {
        let front = pairs.drop_last();
        lemma_from_pairs_sorted(front);
        let k = pairs.last().0;
        if front.len() > 0 {
            assert(bytes_lt(front[front.len() - 1].0, pairs[pairs.len() - 1].0));
        }
        lemma_rank_unique(front, k, front.len() as int);
        assert(front.insert(front.len() as int, pairs.last()) =~= pairs);
    } else {
        assert(pairs =~= Seq::empty());
    }
}

} // verus!
