//! Entries kept in strictly increasing key order, read as a map.
//!
//! The CRDT state of an issue keys several things by text (labels, assignees,
//! custom fields, related files). They are held as vectors of `(key, value)`
//! entries sorted by key, which gives both a map view and a stable, sorted
//! listing order.
use crate::text::{lemma_seq_lt_asym, lemma_seq_lt_irrefl, lemma_seq_lt_total, lemma_seq_lt_trans, seq_lt, str_eq, str_lt};
use vstd::prelude::*;

verus! {

/// Keys in strictly increasing order (so each key occurs once).
pub open spec fn sorted_keys<V>(es: Seq<(Seq<char>, V)>) -> bool {
    forall|i: int, j: int| 0 <= i < j < es.len() ==> seq_lt(#[trigger] es[i].0, #[trigger] es[j].0)
}

/// Character sequences in strictly increasing order.
pub open spec fn strictly_sorted(s: Seq<Seq<char>>) -> bool {
    forall|i: int, j: int| 0 <= i < j < s.len() ==> seq_lt(#[trigger] s[i], #[trigger] s[j])
}

pub open spec fn has_key<V>(es: Seq<(Seq<char>, V)>, k: Seq<char>) -> bool {
    exists|i: int| 0 <= i < es.len() && (#[trigger] es[i]).0 == k
}

/// The entries read as a map from key to value (a later entry wins, though
/// sorted entries have distinct keys).
pub open spec fn keyed_map<V>(es: Seq<(Seq<char>, V)>) -> Map<Seq<char>, V>
    decreases es.len(),
{
    if es.len() == 0 {
        Map::empty()
    } else {
        keyed_map(es.drop_last()).insert(es.last().0, es.last().1)
    }
}

pub proof fn lemma_keyed_dom<V>(es: Seq<(Seq<char>, V)>, k: Seq<char>)
    ensures
        keyed_map(es).contains_key(k) <==> has_key(es, k),
    decreases es.len(),
{
    if es.len() > 0 {
        let d = es.drop_last();
        lemma_keyed_dom(d, k);
        if has_key(d, k) {
            let i = choose|i: int| 0 <= i < d.len() && (#[trigger] d[i]).0 == k;
            assert(es[i] == d[i]);
        }
        if has_key(es, k) && es.last().0 != k {
            let i = choose|i: int| 0 <= i < es.len() && (#[trigger] es[i]).0 == k;
            assert(d[i] == es[i]);
        }
        if es.last().0 == k {
            assert(es[es.len() - 1].0 == k);
        }
    }
}

pub proof fn lemma_keyed_at<V>(es: Seq<(Seq<char>, V)>, i: int)
    requires
        sorted_keys(es),
        0 <= i < es.len(),
    ensures
        keyed_map(es).contains_key(es[i].0),
        keyed_map(es)[es[i].0] == es[i].1,
    decreases es.len(),
{
    lemma_keyed_dom(es, es[i].0);
    if i < es.len() - 1 {
        let d = es.drop_last();
        assert forall|a: int, b: int| 0 <= a < b < d.len() implies seq_lt(
            #[trigger] d[a].0,
            #[trigger] d[b].0,
        ) by {
            assert(d[a] == es[a]);
            assert(d[b] == es[b]);
        }
        assert(d[i] == es[i]);
        lemma_keyed_at(d, i);
        assert(seq_lt(es[i].0, es[es.len() - 1].0));
        lemma_seq_lt_irrefl(es[i].0);
    }
}

/// Two sorted entry lists with the same entries at the same keys are the
/// same map when their key sets agree.
pub proof fn lemma_keyed_ext<V>(a: Seq<(Seq<char>, V)>, m: Map<Seq<char>, V>)
    requires
        sorted_keys(a),
        forall|k: Seq<char>| has_key(a, k) <==> m.contains_key(k),
        forall|i: int| 0 <= i < a.len() ==> m[(#[trigger] a[i]).0] == a[i].1,
    ensures
        keyed_map(a) == m,
{
    assert forall|k: Seq<char>| #[trigger] keyed_map(a).contains_key(k) implies keyed_map(a)[k]
        == m[k] by {
        lemma_keyed_dom(a, k);
        let i = choose|i: int| 0 <= i < a.len() && (#[trigger] a[i]).0 == k;
        lemma_keyed_at(a, i);
    }
    assert forall|k: Seq<char>| keyed_map(a).contains_key(k) <==> #[trigger] m.contains_key(k) by {
        lemma_keyed_dom(a, k);
    }
    assert(keyed_map(a) =~= m);
}

/// Where `k` stands among sorted keys: its index when present, or the index
/// at which it would be inserted.
pub fn find_slot<V>(es: &Vec<(String, V)>, k: &str) -> (r: (usize, bool))
    requires
        sorted_keys(key_views(es@)),
    ensures
        r.0 <= es@.len(),
        r.1 ==> r.0 < es@.len() && es@[r.0 as int].0@ == k@,
        !r.1 ==> forall|i: int| 0 <= i < r.0 ==> seq_lt(#[trigger] es@[i].0@, k@),
        !r.1 ==> forall|i: int| r.0 <= i < es@.len() ==> seq_lt(k@, #[trigger] es@[i].0@),
        r.1 == has_key(key_views(es@), k@),
{
    let ghost kv = key_views(es@);
    let n = es.len();
    let mut i: usize = 0;
    while i < n
        invariant
            n == es@.len(),
            kv == key_views(es@),
            sorted_keys(kv),
            i <= n,
            forall|j: int| 0 <= j < i ==> seq_lt(#[trigger] es@[j].0@, k@),
        decreases n - i,
    {
        assert(kv[i as int].0 == es@[i as int].0@);
        if str_eq(es[i].0.as_str(), k) {
            assert(kv[i as int].0 == k@);
            return (i, true);
        }
        if str_lt(k, es[i].0.as_str()) {
            proof {
                assert forall|j: int| i <= j < es@.len() implies seq_lt(k@, #[trigger] es@[j].0@) by {
                    if j > i {
                        assert(kv[j].0 == es@[j].0@);
                        assert(seq_lt(kv[i as int].0, kv[j].0));
                        lemma_seq_lt_trans(k@, es@[i as int].0@, es@[j].0@);
                    }
                }
                lemma_absent(kv, k@, i as int);
            }
            return (i, false);
        }
        proof {
            lemma_seq_lt_total(k@, es@[i as int].0@);
        }
        i = i + 1;
    }
    proof {
        lemma_absent(kv, k@, n as int);
    }
    (n, false)
}

proof fn lemma_absent<V>(kv: Seq<(Seq<char>, V)>, k: Seq<char>, at: int)
    requires
        0 <= at <= kv.len(),
        forall|j: int| 0 <= j < at ==> seq_lt(#[trigger] kv[j].0, k),
        forall|j: int| at <= j < kv.len() ==> seq_lt(k, #[trigger] kv[j].0),
    ensures
        !has_key(kv, k),
{
    if has_key(kv, k) {
        let j = choose|j: int| 0 <= j < kv.len() && (#[trigger] kv[j]).0 == k;
        lemma_seq_lt_irrefl(k);
        if j < at {
            assert(seq_lt(kv[j].0, k));
        } else {
            assert(seq_lt(k, kv[j].0));
        }
    }
}

/// The keys of exec entries as character sequences, values kept as they are.
pub open spec fn key_views<V>(es: Seq<(String, V)>) -> Seq<(Seq<char>, V)> {
    es.map_values(|p: (String, V)| (p.0@, p.1))
}

/// Inserting a fresh key at its slot keeps the keys sorted.
pub proof fn lemma_sorted_insert<V>(es: Seq<(Seq<char>, V)>, j: int, e: (Seq<char>, V))
    requires
        sorted_keys(es),
        0 <= j <= es.len(),
        forall|i: int| 0 <= i < j ==> seq_lt(#[trigger] es[i].0, e.0),
        forall|i: int| j <= i < es.len() ==> seq_lt(e.0, #[trigger] es[i].0),
    ensures
        sorted_keys(es.insert(j, e)),
        forall|k: Seq<char>| has_key(es.insert(j, e), k) <==> has_key(es, k) || k == e.0,
{
    let t = es.insert(j, e);
    assert forall|a: int, b: int| 0 <= a < b < t.len() implies seq_lt(
        #[trigger] t[a].0,
        #[trigger] t[b].0,
    ) by {
        if a < j && b < j {
        } else if a < j && b == j {
        } else if a < j && b > j {
            assert(t[b] == es[b - 1]);
        } else if a == j {
            assert(t[b] == es[b - 1]);
        } else {
            assert(t[a] == es[a - 1]);
            assert(t[b] == es[b - 1]);
        }
    }
    assert forall|k: Seq<char>| has_key(t, k) <==> has_key(es, k) || k == e.0 by {
        if has_key(t, k) {
            let i = choose|i: int| 0 <= i < t.len() && (#[trigger] t[i]).0 == k;
            if i < j {
                assert(t[i] == es[i]);
            } else if i > j {
                assert(t[i] == es[i - 1]);
            }
        }
        if has_key(es, k) {
            let i = choose|i: int| 0 <= i < es.len() && (#[trigger] es[i]).0 == k;
            if i < j {
                assert(t[i] == es[i]);
            } else {
                assert(t[i + 1] == es[i]);
            }
        }
        if k == e.0 {
            assert(t[j] == e);
        }
    }
}

pub proof fn lemma_sorted_remove<V>(es: Seq<(Seq<char>, V)>, j: int)
    requires
        sorted_keys(es),
        0 <= j < es.len(),
    ensures
        sorted_keys(es.remove(j)),
        forall|k: Seq<char>|
            has_key(es.remove(j), k) <==> has_key(es, k) && k != es[j].0,
{
    let t = es.remove(j);
    assert forall|a: int, b: int| 0 <= a < b < t.len() implies seq_lt(
        #[trigger] t[a].0,
        #[trigger] t[b].0,
    ) by {
        if b < j {
        } else if a < j {
            assert(t[b] == es[b + 1]);
        } else {
            assert(t[a] == es[a + 1]);
            assert(t[b] == es[b + 1]);
        }
    }
    assert forall|k: Seq<char>| has_key(t, k) <==> has_key(es, k) && k != es[j].0 by {
        if has_key(t, k) {
            let i = choose|i: int| 0 <= i < t.len() && (#[trigger] t[i]).0 == k;
            if i < j {
                assert(t[i] == es[i]);
                assert(seq_lt(es[i].0, es[j].0));
                lemma_seq_lt_irrefl(k);
            } else {
                assert(t[i] == es[i + 1]);
                assert(seq_lt(es[j].0, es[i + 1].0));
                lemma_seq_lt_irrefl(k);
            }
        }
        if has_key(es, k) && k != es[j].0 {
            let i = choose|i: int| 0 <= i < es.len() && (#[trigger] es[i]).0 == k;
            if i < j {
                assert(t[i] == es[i]);
            } else {
                assert(i != j);
                assert(t[i - 1] == es[i]);
            }
        }
    }
}

/// Replacing the value at an index keeps keys and their order.
pub proof fn lemma_sorted_update<V>(es: Seq<(Seq<char>, V)>, j: int, v: V)
    requires
        sorted_keys(es),
        0 <= j < es.len(),
    ensures
        sorted_keys(es.update(j, (es[j].0, v))),
        forall|k: Seq<char>| has_key(es.update(j, (es[j].0, v)), k) <==> has_key(es, k),
{
    let t = es.update(j, (es[j].0, v));
    assert forall|a: int, b: int| 0 <= a < b < t.len() implies seq_lt(
        #[trigger] t[a].0,
        #[trigger] t[b].0,
    ) by {
        assert(t[a].0 == es[a].0);
        assert(t[b].0 == es[b].0);
    }
    assert forall|k: Seq<char>| has_key(t, k) <==> has_key(es, k) by {
        if has_key(t, k) {
            let i = choose|i: int| 0 <= i < t.len() && (#[trigger] t[i]).0 == k;
            assert(es[i].0 == t[i].0);
        }
        if has_key(es, k) {
            let i = choose|i: int| 0 <= i < es.len() && (#[trigger] es[i]).0 == k;
            assert(es[i].0 == t[i].0);
        }
    }
}

/// Entries sorted by key have their keys strictly sorted.
pub proof fn lemma_keys_strictly_sorted<V>(es: Seq<(Seq<char>, V)>)
    requires
        sorted_keys(es),
    ensures
        strictly_sorted(es.map_values(|p: (Seq<char>, V)| p.0)),
{
    let ks = es.map_values(|p: (Seq<char>, V)| p.0);
    assert forall|i: int, j: int| 0 <= i < j < ks.len() implies seq_lt(
        #[trigger] ks[i],
        #[trigger] ks[j],
    ) by {
        assert(ks[i] == es[i].0);
        assert(ks[j] == es[j].0);
    }
}

/// Two strictly sorted sequences with the same elements are equal.
pub proof fn lemma_strictly_sorted_same_set(a: Seq<Seq<char>>, b: Seq<Seq<char>>)
    requires
        strictly_sorted(a),
        strictly_sorted(b),
        forall|x: Seq<char>| a.contains(x) <==> b.contains(x),
    ensures
        a == b,
    decreases a.len(),
{
    if a.len() == 0 {
        if b.len() > 0 {
            assert(b.contains(b[0]));
        }
        assert(b.len() == 0);
        assert(a =~= b);
    } else if b.len() == 0 {
        assert(a.contains(a[0]));
    } else {
        // The least elements agree.
        assert(a.contains(a[0]));
        assert(b.contains(b[0]));
        let ia = choose|i: int| 0 <= i < a.len() && a[i] == b[0];
        let ib = choose|i: int| 0 <= i < b.len() && b[i] == a[0];
        if ia > 0 && ib > 0 {
            assert(seq_lt(a[0], a[ia]));
            assert(seq_lt(b[0], b[ib]));
            lemma_seq_lt_asym(a[0], b[0]);
        }
        if ia == 0 {
        } else {
            assert(ib == 0);
        }
        assert(a[0] == b[0]);
        let ta = a.drop_first();
        let tb = b.drop_first();
        assert forall|i: int, j: int| 0 <= i < j < ta.len() implies seq_lt(
            #[trigger] ta[i],
            #[trigger] ta[j],
        ) by {
            assert(ta[i] == a[i + 1]);
            assert(ta[j] == a[j + 1]);
        }
        assert forall|i: int, j: int| 0 <= i < j < tb.len() implies seq_lt(
            #[trigger] tb[i],
            #[trigger] tb[j],
        ) by {
            assert(tb[i] == b[i + 1]);
            assert(tb[j] == b[j + 1]);
        }
        assert forall|x: Seq<char>| ta.contains(x) <==> tb.contains(x) by {
            if ta.contains(x) {
                let i = choose|i: int| 0 <= i < ta.len() && ta[i] == x;
                assert(a[i + 1] == x);
                assert(a.contains(x));
                let k = choose|k: int| 0 <= k < b.len() && b[k] == x;
                if k == 0 {
                    assert(seq_lt(a[0], a[i + 1]));
                    lemma_seq_lt_irrefl(x);
                }
                assert(tb[k - 1] == x);
            }
            if tb.contains(x) {
                let i = choose|i: int| 0 <= i < tb.len() && tb[i] == x;
                assert(b[i + 1] == x);
                assert(b.contains(x));
                let k = choose|k: int| 0 <= k < a.len() && a[k] == x;
                if k == 0 {
                    assert(seq_lt(b[0], b[i + 1]));
                    lemma_seq_lt_irrefl(x);
                }
                assert(ta[k - 1] == x);
            }
        }
        lemma_strictly_sorted_same_set(ta, tb);
        assert(a =~= seq![a[0]] + ta);
        assert(b =~= seq![b[0]] + tb);
    }
}

} // verus!
