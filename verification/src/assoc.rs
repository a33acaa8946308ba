//! Association lists: a sequence of key/value pairs read as a finite map.
//!
//! The containers of this crate keep their entries in vectors. Their contracts
//! speak of maps; the lemmas here carry each change of the sequence over to
//! the map it stands for.

use vstd::prelude::*;

verus! {

/// A byte-string key paired with its value.
pub type Pair<V> = (Seq<u8>, V);

/// `s` holds the key `k` at index `i`.
pub open spec fn holds_at<V>(s: Seq<Pair<V>>, k: Seq<u8>, i: int) -> bool {
    0 <= i < s.len() && s[i].0 == k
}

/// No key occurs twice in `s`.
pub open spec fn distinct_keys<V>(s: Seq<Pair<V>>) -> bool {
    forall|i: int, j: int| 0 <= i < j < s.len() ==> (#[trigger] s[i]).0 != (#[trigger] s[j]).0
}

/// The map that `s` stands for: its keys are the keys that occur in `s`, each
/// bound to the value it is paired with.
pub open spec fn as_map<V>(s: Seq<Pair<V>>) -> Map<Seq<u8>, V> {
    Map::new(
        |k: Seq<u8>| exists|i: int| holds_at(s, k, i),
        |k: Seq<u8>| s[choose|i: int| holds_at(s, k, i)].1,
    )
}

/// The pair at index `i` is the binding of its key.
pub proof fn lemma_binding<V>(s: Seq<Pair<V>>, i: int)
    requires
        distinct_keys(s),
        0 <= i < s.len(),
    ensures
        as_map(s).contains_key(s[i].0),
        as_map(s)[s[i].0] == s[i].1,
{
    let k = s[i].0;
    assert(holds_at(s, k, i));
    let j = choose|j: int| holds_at(s, k, j);
    assert(holds_at(s, k, j));
    if j < i {
        assert(s[j].0 != s[i].0);
    } else if i < j {
        assert(s[i].0 != s[j].0);
    }
}

/// A bound key occurs somewhere in `s`, with its value.
pub proof fn lemma_bound_occurs<V>(s: Seq<Pair<V>>, k: Seq<u8>) -> (i: int)
    requires
        distinct_keys(s),
        as_map(s).contains_key(k),
    ensures
        holds_at(s, k, i),
        as_map(s)[k] == s[i].1,
{
    let i = choose|i: int| holds_at(s, k, i);
    lemma_binding(s, i);
    i
}

/// A key that occurs nowhere in `s` is unbound.
pub proof fn lemma_unbound<V>(s: Seq<Pair<V>>, k: Seq<u8>)
    requires
        forall|i: int| 0 <= i < s.len() ==> (#[trigger] s[i]).0 != k,
    ensures
        !as_map(s).contains_key(k),
{
    if as_map(s).contains_key(k) {
        let i = choose|i: int| holds_at(s, k, i);
        assert(s[i].0 != k);
    }
}

/// The empty sequence stands for the empty map.
pub proof fn lemma_empty<V>()
    ensures
        distinct_keys(Seq::<Pair<V>>::empty()),
        as_map(Seq::<Pair<V>>::empty()) == Map::<Seq<u8>, V>::empty(),
{
    assert(as_map(Seq::<Pair<V>>::empty()) =~= Map::<Seq<u8>, V>::empty());
}

/// `t` stands for `m` when every pair of `t` is a binding of `m` and every key
/// of `m` occurs in `t`.
pub proof fn lemma_stands_for<V>(t: Seq<Pair<V>>, m: Map<Seq<u8>, V>)
    requires
        distinct_keys(t),
        forall|i: int|
            0 <= i < t.len() ==> m.contains_key((#[trigger] t[i]).0) && m[t[i].0] == t[i].1,
        forall|k: Seq<u8>| #[trigger] m.contains_key(k) ==> exists|i: int| holds_at(t, k, i),
    ensures
        as_map(t) == m,
{
    assert forall|k: Seq<u8>| as_map(t).contains_key(k) <==> m.contains_key(k) by {
        if as_map(t).contains_key(k) {
            let i = lemma_bound_occurs(t, k);
            assert(m.contains_key(t[i].0));
        }
    }
    assert forall|k: Seq<u8>| as_map(t).contains_key(k) implies as_map(t)[k] == m[k] by {
        let i = lemma_bound_occurs(t, k);
        assert(m[t[i].0] == t[i].1);
    }
    assert(as_map(t) =~= m);
}

/// Inserting a pair with a fresh key, at any index, binds that key.
pub proof fn lemma_insert_fresh<V>(s: Seq<Pair<V>>, p: int, k: Seq<u8>, v: V)
    requires
        distinct_keys(s),
        0 <= p <= s.len(),
        !as_map(s).contains_key(k),
    ensures
        distinct_keys(s.insert(p, (k, v))),
        as_map(s.insert(p, (k, v))) == as_map(s).insert(k, v),
{
    let t = s.insert(p, (k, v));
    let m = as_map(s).insert(k, v);
    assert forall|i: int| 0 <= i < s.len() implies (#[trigger] s[i]).0 != k by {
        lemma_binding(s, i);
    }
    assert forall|i: int, j: int| 0 <= i < j < t.len() implies (#[trigger] t[i]).0 != (
    #[trigger] t[j]).0 by {
        let a = if i < p { i } else { i - 1 };
        let b = if j < p { j } else { j - 1 };
        if i != p && j != p {
            assert(t[i] == s[a] && t[j] == s[b]);
            assert(s[a].0 != s[b].0);
        } else if i == p {
            assert(t[j] == s[b]);
        } else {
            assert(t[i] == s[a]);
        }
    }
    assert forall|i: int| 0 <= i < t.len() implies m.contains_key((#[trigger] t[i]).0) && m[t[i].0]
        == t[i].1 by {
        if i != p {
            let a = if i < p { i } else { i - 1 };
            assert(t[i] == s[a]);
            lemma_binding(s, a);
        }
    }
    assert forall|x: Seq<u8>| #[trigger] m.contains_key(x) implies exists|i: int|
        holds_at(t, x, i) by {
        if x == k {
            assert(holds_at(t, x, p));
        } else {
            let a = lemma_bound_occurs(s, x);
            let i = if a < p { a } else { a + 1 };
            assert(t[i] == s[a]);
            assert(holds_at(t, x, i));
        }
    }
    lemma_stands_for(t, m);
}

/// Appending a pair with a fresh key binds that key.
pub proof fn lemma_push_fresh<V>(s: Seq<Pair<V>>, k: Seq<u8>, v: V)
    requires
        distinct_keys(s),
        !as_map(s).contains_key(k),
    ensures
        distinct_keys(s.push((k, v))),
        as_map(s.push((k, v))) == as_map(s).insert(k, v),
{
    assert(s.push((k, v)) =~= s.insert(s.len() as int, (k, v)));
    lemma_insert_fresh(s, s.len() as int, k, v);
}

/// Replacing the value at index `i` rebinds the key that stands there.
pub proof fn lemma_replace<V>(s: Seq<Pair<V>>, i: int, v: V)
    requires
        distinct_keys(s),
        0 <= i < s.len(),
    ensures
        distinct_keys(s.update(i, (s[i].0, v))),
        as_map(s.update(i, (s[i].0, v))) == as_map(s).insert(s[i].0, v),
{
    let k = s[i].0;
    let t = s.update(i, (k, v));
    let m = as_map(s).insert(k, v);
    assert forall|a: int, b: int| 0 <= a < b < t.len() implies (#[trigger] t[a]).0 != (
    #[trigger] t[b]).0 by {
        assert(t[a].0 == s[a].0 && t[b].0 == s[b].0);
        assert(s[a].0 != s[b].0);
    }
    assert forall|a: int| 0 <= a < t.len() implies m.contains_key((#[trigger] t[a]).0) && m[t[a].0]
        == t[a].1 by {
        if a != i {
            lemma_binding(s, a);
            assert(t[a] == s[a]);
            if a < i {
                assert(s[a].0 != s[i].0);
            } else {
                assert(s[i].0 != s[a].0);
            }
        }
    }
    assert forall|x: Seq<u8>| #[trigger] m.contains_key(x) implies exists|a: int|
        holds_at(t, x, a) by {
        if x == k {
            assert(holds_at(t, x, i));
        } else {
            let a = lemma_bound_occurs(s, x);
            assert(holds_at(t, x, a));
        }
    }
    lemma_stands_for(t, m);
}

/// Removing the pair at index `i` unbinds the key that stood there.
pub proof fn lemma_remove<V>(s: Seq<Pair<V>>, i: int)
    requires
        distinct_keys(s),
        0 <= i < s.len(),
    ensures
        distinct_keys(s.remove(i)),
        as_map(s.remove(i)) == as_map(s).remove(s[i].0),
{
    let k = s[i].0;
    let t = s.remove(i);
    let m = as_map(s).remove(k);
    assert forall|a: int, b: int| 0 <= a < b < t.len() implies (#[trigger] t[a]).0 != (
    #[trigger] t[b]).0 by {
        let a0 = if a < i { a } else { a + 1 };
        let b0 = if b < i { b } else { b + 1 };
        assert(t[a] == s[a0] && t[b] == s[b0]);
        assert(s[a0].0 != s[b0].0);
    }
    assert forall|a: int| 0 <= a < t.len() implies m.contains_key((#[trigger] t[a]).0) && m[t[a].0]
        == t[a].1 by {
        let a0 = if a < i { a } else { a + 1 };
        assert(t[a] == s[a0]);
        lemma_binding(s, a0);
        if a0 < i {
            assert(s[a0].0 != s[i].0);
        } else {
            assert(s[i].0 != s[a0].0);
        }
    }
    assert forall|x: Seq<u8>| #[trigger] m.contains_key(x) implies exists|a: int|
        holds_at(t, x, a) by {
        let a0 = lemma_bound_occurs(s, x);
        let a = if a0 < i { a0 } else { a0 - 1 };
        assert(t[a] == s[a0]);
        assert(holds_at(t, x, a));
    }
    lemma_stands_for(t, m);
}

/// A sequence without repeated keys binds as many keys as it has pairs.
pub proof fn lemma_size<V>(s: Seq<Pair<V>>)
    requires
        distinct_keys(s),
    ensures
        as_map(s).dom().finite(),
        as_map(s).dom().len() == s.len(),
    decreases s.len(),
{
    if s.len() == 0 {
        assert(s =~= Seq::<Pair<V>>::empty());
        lemma_empty::<V>();
    } else {
        let r = s.drop_last();
        let last = s.last();
        assert forall|i: int, j: int| 0 <= i < j < r.len() implies (#[trigger] r[i]).0 != (
        #[trigger] r[j]).0 by {
            assert(r[i] == s[i] && r[j] == s[j]);
        }
        lemma_size(r);
        assert forall|i: int| 0 <= i < r.len() implies (#[trigger] r[i]).0 != last.0 by {
            assert(r[i] == s[i]);
            assert(s[i].0 != s[s.len() - 1].0);
        }
        lemma_unbound(r, last.0);
        lemma_push_fresh(r, last.0, last.1);
        assert(r.push((last.0, last.1)) =~= s);
        assert(as_map(s).dom() =~= as_map(r).dom().insert(last.0));
    }
}

} // verus!
