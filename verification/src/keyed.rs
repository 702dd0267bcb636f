//! Maps represented as sequences of entries with distinct string keys.
use vstd::prelude::*;
use crate::text::{chars_lt, lemma_chars_lt_irreflexive, lemma_chars_lt_transitive};

verus! {

pub open spec fn distinct_keys<V>(e: Seq<(Seq<char>, V)>) -> bool {
    forall|i: int, j: int| 0 <= i < j < e.len() ==> #[trigger] e[i].0 != #[trigger] e[j].0
}

pub open spec fn has_key<V>(e: Seq<(Seq<char>, V)>, k: Seq<char>) -> bool {
    exists|i: int| 0 <= i < e.len() && #[trigger] e[i].0 == k
}

/// The map that a sequence of entries with distinct keys stands for.
pub open spec fn keyed_map<V>(e: Seq<(Seq<char>, V)>) -> Map<Seq<char>, V> {
    Map::new(
        |k: Seq<char>| has_key(e, k),
        |k: Seq<char>| e[choose|i: int| 0 <= i < e.len() && #[trigger] e[i].0 == k].1,
    )
}

pub proof fn lemma_keyed_map_at<V>(e: Seq<(Seq<char>, V)>, i: int)
    requires
        distinct_keys(e),
        0 <= i < e.len(),
    ensures
        keyed_map(e).contains_key(e[i].0),
        keyed_map(e)[e[i].0] == e[i].1,
{
    assert(has_key(e, e[i].0));
    let j = choose|j: int| 0 <= j < e.len() && #[trigger] e[j].0 == e[i].0;
    if j != i {
        if j < i {
            assert(e[j].0 != e[i].0);
        } else {
            assert(e[i].0 != e[j].0);
        }
    }
}

pub proof fn lemma_keyed_map_update<V>(e: Seq<(Seq<char>, V)>, i: int, v: V)
    requires
        distinct_keys(e),
        0 <= i < e.len(),
    ensures
        distinct_keys(e.update(i, (e[i].0, v))),
        keyed_map(e.update(i, (e[i].0, v))) == keyed_map(e).insert(e[i].0, v),
{
    let k = e[i].0;
    let n = e.update(i, (k, v));
    assert forall|a: int, b: int| 0 <= a < b < n.len() implies #[trigger] n[a].0 != #[trigger] n[b].0 by {
        assert(n[a].0 == e[a].0 && n[b].0 == e[b].0);
    }
    assert forall|x: Seq<char>| has_key(n, x) == (has_key(e, x) || x == k) by {
        if has_key(e, x) {
            let j = choose|j: int| 0 <= j < e.len() && #[trigger] e[j].0 == x;
            assert(n[j].0 == x);
        }
        if has_key(n, x) {
            let j = choose|j: int| 0 <= j < n.len() && #[trigger] n[j].0 == x;
            assert(e[j].0 == x);
        }
        if x == k {
            assert(n[i].0 == k);
        }
    }
    assert forall|x: Seq<char>| has_key(n, x) implies keyed_map(n)[x] == keyed_map(e).insert(k, v)[x] by {
        let j = choose|j: int| 0 <= j < n.len() && #[trigger] n[j].0 == x;
        lemma_keyed_map_at(n, j);
        if j != i {
            assert(e[j] == n[j]);
            lemma_keyed_map_at(e, j);
            if j < i {
                assert(e[j].0 != e[i].0);
            } else {
                assert(e[i].0 != e[j].0);
            }
            assert(keyed_map(e).insert(k, v)[x] == keyed_map(e)[x]);
        }
    }
    assert(keyed_map(n) =~= keyed_map(e).insert(k, v));
}

pub proof fn lemma_keyed_map_push<V>(e: Seq<(Seq<char>, V)>, k: Seq<char>, v: V)
    requires
        distinct_keys(e),
        !has_key(e, k),
    ensures
        distinct_keys(e.push((k, v))),
        keyed_map(e.push((k, v))) == keyed_map(e).insert(k, v),
{
    let n = e.push((k, v));
    assert forall|a: int, b: int| 0 <= a < b < n.len() implies #[trigger] n[a].0 != #[trigger] n[b].0 by {
        assert(n[a] == e[a]);
        if b < e.len() {
            assert(n[b] == e[b]);
        } else {
            assert(e[a].0 != k);
        }
    }
    assert forall|x: Seq<char>| has_key(n, x) == (has_key(e, x) || x == k) by {
        if has_key(e, x) {
            let j = choose|j: int| 0 <= j < e.len() && #[trigger] e[j].0 == x;
            assert(n[j].0 == x);
        }
        if has_key(n, x) {
            let j = choose|j: int| 0 <= j < n.len() && #[trigger] n[j].0 == x;
            if j < e.len() {
                assert(e[j].0 == x);
            }
        }
        if x == k {
            assert(n[e.len() as int].0 == k);
        }
    }
    assert forall|x: Seq<char>| has_key(n, x) implies keyed_map(n)[x] == keyed_map(e).insert(k, v)[x] by {
        let j = choose|j: int| 0 <= j < n.len() && #[trigger] n[j].0 == x;
        lemma_keyed_map_at(n, j);
        if j < e.len() {
            assert(e[j] == n[j]);
            lemma_keyed_map_at(e, j);
            assert(x != k);
            assert(keyed_map(e).insert(k, v)[x] == keyed_map(e)[x]);
        }
    }
    assert(keyed_map(n) =~= keyed_map(e).insert(k, v));
}

pub proof fn lemma_keyed_map_absent<V>(e: Seq<(Seq<char>, V)>, k: Seq<char>)
    requires
        forall|i: int| 0 <= i < e.len() ==> #[trigger] e[i].0 != k,
    ensures
        !has_key(e, k),
        !keyed_map(e).contains_key(k),
{
}

/// Keys strictly increase along the sequence.
pub open spec fn sorted_keys<V>(e: Seq<(Seq<char>, V)>) -> bool {
    forall|i: int, j: int| 0 <= i < j < e.len() ==> chars_lt(#[trigger] e[i].0, #[trigger] e[j].0)
}

pub proof fn lemma_sorted_distinct<V>(e: Seq<(Seq<char>, V)>)
    requires
        sorted_keys(e),
    ensures
        distinct_keys(e),
{
    assert forall|i: int, j: int| 0 <= i < j < e.len() implies #[trigger] e[i].0 != #[trigger] e[j].0 by {
        lemma_chars_lt_irreflexive(e[i].0, 0);
    }
}

/// Inserting a new key at its place in the order keeps the keys sorted and adds it to the map.
pub proof fn lemma_sorted_insert<V>(e: Seq<(Seq<char>, V)>, i: int, k: Seq<char>, v: V)
    requires
        sorted_keys(e),
        0 <= i <= e.len(),
        forall|j: int| 0 <= j < i ==> chars_lt(#[trigger] e[j].0, k),
        forall|j: int| i <= j < e.len() ==> chars_lt(k, #[trigger] e[j].0),
    ensures
        sorted_keys(e.insert(i, (k, v))),
        keyed_map(e.insert(i, (k, v))) == keyed_map(e).insert(k, v),
{
    let n = e.insert(i, (k, v));
    assert forall|a: int, b: int| 0 <= a < b < n.len() implies chars_lt(#[trigger] n[a].0, #[trigger] n[b].0) by {
        if a < i && b < i {
            assert(n[a] == e[a] && n[b] == e[b]);
        } else if a < i && b == i {
            assert(n[a] == e[a]);
        } else if a < i {
            assert(n[a] == e[a] && n[b] == e[b - 1]);
            lemma_chars_lt_transitive(e[a].0, k, e[b - 1].0, 0);
        } else if a == i {
            assert(n[b] == e[b - 1]);
        } else {
            assert(n[a] == e[a - 1] && n[b] == e[b - 1]);
        }
    }
    lemma_sorted_distinct(e);
    lemma_sorted_distinct(n);
    lemma_chars_lt_irreflexive(k, 0);
    assert forall|x: Seq<char>| has_key(n, x) == (has_key(e, x) || x == k) by {
        if has_key(e, x) {
            let j = choose|j: int| 0 <= j < e.len() && #[trigger] e[j].0 == x;
            if j < i {
                assert(n[j].0 == x);
            } else {
                assert(n[j + 1].0 == x);
            }
        }
        if has_key(n, x) {
            let j = choose|j: int| 0 <= j < n.len() && #[trigger] n[j].0 == x;
            if j < i {
                assert(e[j].0 == x);
            } else if j > i {
                assert(e[j - 1].0 == x);
            }
        }
        if x == k {
            assert(n[i].0 == k);
        }
    }
    assert forall|x: Seq<char>| has_key(n, x) implies keyed_map(n)[x] == keyed_map(e).insert(k, v)[x] by {
        let j = choose|j: int| 0 <= j < n.len() && #[trigger] n[j].0 == x;
        lemma_keyed_map_at(n, j);
        if j < i {
            assert(n[j] == e[j]);
            lemma_keyed_map_at(e, j);
            assert(x != k);
        } else if j > i {
            assert(n[j] == e[j - 1]);
            lemma_keyed_map_at(e, j - 1);
            assert(x != k);
        }
    }
    assert(keyed_map(n) =~= keyed_map(e).insert(k, v));
}

} // verus!
