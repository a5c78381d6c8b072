//! Association lists: entries in the order in which their keys first came, each key once.
use vstd::prelude::*;

verus! {

/// The place of the first entry under `k`, looking from `i` on.
pub open spec fn position<K, V>(e: Seq<(K, V)>, k: K, i: int) -> Option<int>
    decreases e.len() - i,
{
    if i >= e.len() {
        None
    } else if e[i].0 == k {
        Some(i)
    } else {
        position(e, k, i + 1)
    }
}

/// The value under `k`.
pub open spec fn lookup<K, V>(e: Seq<(K, V)>, k: K) -> Option<V> {
    match position(e, k, 0) {
        Some(i) => Some(e[i].1),
        None => None,
    }
}

/// The entries with `v` under `k`: in the place of what was there, or at the end.
pub open spec fn put<K, V>(e: Seq<(K, V)>, k: K, v: V) -> Seq<(K, V)> {
    match position(e, k, 0) {
        Some(i) => e.update(i, (k, v)),
        None => e.push((k, v)),
    }
}

/// The entries but for the one under `k`.
pub open spec fn without<K, V>(e: Seq<(K, V)>, k: K) -> Seq<(K, V)> {
    match position(e, k, 0) {
        Some(i) => e.remove(i),
        None => e,
    }
}

/// No key has two entries.
pub open spec fn distinct<K, V>(e: Seq<(K, V)>) -> bool {
    forall|i: int, j: int|
        #![trigger e[i], e[j]]
        0 <= i < j < e.len() ==> e[i].0 != e[j].0
}

/// What [`position`] finds.
pub proof fn lemma_position<K, V>(e: Seq<(K, V)>, k: K, i: int)
    requires
        0 <= i,
    ensures
        match position(e, k, i) {
            Some(p) => i <= p < e.len() && e[p].0 == k && forall|j: int|
                i <= j < p ==> (#[trigger] e[j]).0 != k,
            None => forall|j: int| i <= j < e.len() ==> (#[trigger] e[j]).0 != k,
        },
    decreases e.len() - i,
{
    if i < e.len() && e[i].0 != k {
        lemma_position(e, k, i + 1);
    }
}

/// The one place that holds `k`, if `p` is it.
pub proof fn lemma_position_is<K, V>(e: Seq<(K, V)>, k: K, p: int)
    requires
        0 <= p < e.len(),
        e[p].0 == k,
        forall|j: int| 0 <= j < p ==> (#[trigger] e[j]).0 != k,
    ensures
        position(e, k, 0) == Some(p),
{
    lemma_position(e, k, 0);
}

/// No place holds `k`.
pub proof fn lemma_position_none<K, V>(e: Seq<(K, V)>, k: K)
    requires
        forall|j: int| 0 <= j < e.len() ==> (#[trigger] e[j]).0 != k,
    ensures
        position(e, k, 0) == None::<int>,
{
    lemma_position(e, k, 0);
}

/// A value that was put is found, and putting it moves nothing else.
pub broadcast proof fn lookup_after_put<K, V>(e: Seq<(K, V)>, k: K, v: V, q: K)
    ensures
        #[trigger] lookup(put(e, k, v), q) == (if q == k {
            Some(v)
        } else {
            lookup(e, q)
        }),
{
    let f = put(e, k, v);
    lemma_position(e, k, 0);
    lemma_position(e, q, 0);
    if q == k {
        match position(e, k, 0) {
            Some(i) => {
                lemma_position_is(f, k, i);
            },
            None => {
                lemma_position_is(f, k, e.len() as int);
            },
        }
    } else {
        match position(e, q, 0) {
            Some(i) => {
                lemma_position_is(f, q, i);
            },
            None => {
                lemma_position_none(f, q);
            },
        }
    }
}

/// Taking a key out leaves what lies under the others.
pub broadcast proof fn lookup_after_without<K, V>(e: Seq<(K, V)>, k: K, q: K)
    requires
        q != k,
    ensures
        #[trigger] lookup(without(e, k), q) == lookup(e, q),
{
    let f = without(e, k);
    lemma_position(e, k, 0);
    lemma_position(e, q, 0);
    match position(e, k, 0) {
        None => {},
        Some(p) => {
            assert forall|j: int| 0 <= j < f.len() implies #[trigger] f[j] == (if j < p {
                e[j]
            } else {
                e[j + 1]
            }) by {}
            match position(e, q, 0) {
                None => {
                    assert forall|j: int| 0 <= j < f.len() implies (#[trigger] f[j]).0 != q by {
                        if j >= p {
                            assert(e[j + 1].0 != q);
                        }
                    }
                    lemma_position_none(f, q);
                },
                Some(i) => {
                    let t = if i < p {
                        i
                    } else {
                        i - 1
                    };
                    assert(f[t] == e[i]);
                    assert forall|j: int| 0 <= j < t implies (#[trigger] f[j]).0 != q by {
                        if j >= p {
                            assert(e[j + 1].0 != q);
                        }
                    }
                    lemma_position_is(f, q, t);
                },
            }
        },
    }
}

/// A key that was taken out is gone.
pub proof fn lookup_removed<K, V>(e: Seq<(K, V)>, k: K)
    requires
        distinct(e),
    ensures
        lookup(without(e, k), k) == None::<V>,
{
    let f = without(e, k);
    lemma_position(e, k, 0);
    if let Some(p) = position(e, k, 0) {
        assert forall|j: int| 0 <= j < f.len() implies (#[trigger] f[j]).0 != k by {
            if j < p {
                assert(f[j] == e[j]);
                assert(e[p].0 == k);
            } else {
                assert(f[j] == e[j + 1]);
                assert(e[p].0 == k);
            }
        }
        lemma_position_none(f, k);
    }
}

/// Putting a value keeps keys distinct.
pub broadcast proof fn distinct_after_put<K, V>(e: Seq<(K, V)>, k: K, v: V)
    requires
        distinct(e),
    ensures
        distinct(#[trigger] put(e, k, v)),
{
    lemma_position(e, k, 0);
    let f = put(e, k, v);
    assert forall|i: int, j: int|
        #![trigger f[i], f[j]]
        0 <= i < j < f.len() implies f[i].0 != f[j].0 by {
        match position(e, k, 0) {
            Some(p) => {
                assert(f[i].0 == e[i].0 && f[j].0 == e[j].0);
            },
            None => {
                assert(f[i] == e[i]);
                if j < e.len() {
                    assert(f[j] == e[j]);
                }
            },
        }
    }
}

/// Taking a key out keeps keys distinct.
pub broadcast proof fn distinct_after_without<K, V>(e: Seq<(K, V)>, k: K)
    requires
        distinct(e),
    ensures
        distinct(#[trigger] without(e, k)),
{
    lemma_position(e, k, 0);
    let f = without(e, k);
    if let Some(p) = position(e, k, 0) {
        assert forall|i: int, j: int|
            #![trigger f[i], f[j]]
            0 <= i < j < f.len() implies f[i].0 != f[j].0 by {
            let x = if i < p {
                i
            } else {
                i + 1
            };
            let y = if j < p {
                j
            } else {
                j + 1
            };
            assert(f[i] == e[x] && f[j] == e[y]);
        }
    }
}

/// What is found under a key is there, with that key; what is not found is nowhere; and where no
/// key occurs twice, all that is there is found.
pub proof fn lookups_find_what_is_there<K, V>(e: Seq<(K, V)>, k: K, v: V)
    ensures
        lookup(e, k) == Some(v) ==> e.contains((k, v)),
        lookup(e, k) is None ==> !e.contains((k, v)),
        distinct(e) && e.contains((k, v)) ==> lookup(e, k) == Some(v),
{
    lemma_position(e, k, 0);
    if let Some(p) = position(e, k, 0) {
        assert(e[p] == (k, e[p].1));
    }
    if e.contains((k, v)) {
        let i = choose|i: int| 0 <= i < e.len() && e[i] == (k, v);
        assert(e[i].0 == k);
        if distinct(e) {
            assert forall|j: int| 0 <= j < i implies (#[trigger] e[j]).0 != k by {}
            lemma_position_is(e, k, i);
        }
    }
}

} // verus!
