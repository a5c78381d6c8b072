//! Medians.
use crate::raft::model::{is_median_match, lacking, not_beyond, reach};
use vstd::prelude::*;

verus! {

/// How many items fulfil `p`.
pub open spec fn count(s: Seq<u64>, p: spec_fn(u64) -> bool) -> nat
    decreases s.len(),
{
    if s.len() == 0 {
        0
    } else {
        count(s.drop_last(), p) + if p(s.last()) {
            1nat
        } else {
            0nat
        }
    }
}

pub open spec fn ascending(s: Seq<u64>) -> bool {
    forall|i: int, j: int| 0 <= i <= j < s.len() ==> s[i] <= s[j]
}

proof fn lemma_count_insert(s: Seq<u64>, i: int, x: u64, p: spec_fn(u64) -> bool)
    requires
        0 <= i <= s.len(),
    ensures
        count(s.insert(i, x), p) == count(s, p) + if p(x) {
            1nat
        } else {
            0nat
        },
    decreases s.len(),
{
    let t = s.insert(i, x);
    if i == s.len() {
        assert(t.drop_last() =~= s);
    } else {
        lemma_count_insert(s.drop_last(), i, x, p);
        assert(t.drop_last() =~= s.drop_last().insert(i, x));
        assert(t.last() == s.last());
    }
}

proof fn lemma_count_at_most(s: Seq<u64>, p: spec_fn(u64) -> bool, k: nat)
    requires
        forall|i: int| k <= i < s.len() ==> !p(#[trigger] s[i]),
    ensures
        count(s, p) <= k,
        count(s, p) <= s.len(),
    decreases s.len(),
{
    if s.len() > 0 {
        assert forall|i: int| k <= i < s.drop_last().len() implies !p(
            #[trigger] s.drop_last()[i],
        ) by {
            assert(!p(s[i]));
        }
        lemma_count_at_most(s.drop_last(), p, k);
        if s.len() > k {
            assert(!p(s[s.len() - 1]));
        }
    }
}

proof fn lemma_count_at_least(s: Seq<u64>, p: spec_fn(u64) -> bool, k: nat)
    requires
        k <= s.len(),
        forall|i: int| 0 <= i < k ==> p(#[trigger] s[i]),
    ensures
        count(s, p) >= k,
    decreases s.len(),
{
    if s.len() > 0 && k > 0 {
        let j = if k == s.len() {
            (k - 1) as nat
        } else {
            k
        };
        assert forall|i: int| 0 <= i < j implies p(#[trigger] s.drop_last()[i]) by {
            assert(p(s[i]));
        }
        lemma_count_at_least(s.drop_last(), p, j);
        if k == s.len() {
            assert(p(s[s.len() - 1]));
        }
    }
}

/// Brings numbers into ascending order.
fn sorted(items: &Vec<u64>) -> (r: Vec<u64>)
    ensures
        ascending(r@),
        r@.to_multiset() == items@.to_multiset(),
        r@.len() == items@.len(),
        forall|p: spec_fn(u64) -> bool| #[trigger] count(r@, p) == count(items@, p),
{
    let mut r: Vec<u64> = Vec::new();
    let mut k: usize = 0;
    assert(items@.take(0) =~= seq![]);
    assert(r@ =~= seq![]);
    while k < items.len()
        invariant
            k <= items@.len(),
            r@.len() == k,
            ascending(r@),
            r@.to_multiset() == items@.take(k as int).to_multiset(),
            forall|p: spec_fn(u64) -> bool| #[trigger]
                count(r@, p) == count(items@.take(k as int), p),
        decreases items@.len() - k,
    {
        let x: u64 = items[k];
        let ghost before = r@;
        let ghost front = items@.take(k as int);
        let mut i: usize = 0;
        while i < r.len() && r[i] <= x
            invariant
                i <= r@.len(),
                forall|j: int| 0 <= j < i ==> r@[j] <= x,
            decreases r@.len() - i,
        {
            i = i + 1;
        }
        r.insert(i, x);
        proof {
            let next = items@.take(k + 1);
            assert(next =~= front.push(x));
            assert(next.drop_last() =~= front);
            vstd::seq_lib::to_multiset_insert(before, i as int, x);
            vstd::seq_lib::to_multiset_build(front, x);
            assert forall|p: spec_fn(u64) -> bool| #[trigger] count(r@, p) == count(next, p) by {
                lemma_count_insert(before, i as int, x, p);
                assert(count(before, p) == count(front, p));
            }
        }
        k = k + 1;
    }
    assert(items@.take(k as int) =~= items@);
    r
}

/// Compute median, picking the lower/left value for even-sized inputs. What is in front of
/// it is no greater, and what is behind it is no less.
pub fn lower_median(items: &mut Vec<u64>) -> (r: Option<&u64>)
    ensures
        final(items)@.to_multiset() == old(items)@.to_multiset(),
        final(items)@.len() == old(items)@.len(),
        forall|p: spec_fn(u64) -> bool| #[trigger] count(final(items)@, p) == count(old(items)@, p),
        match r {
            None => old(items)@.len() == 0,
            Some(m) => {
                let middle = (old(items)@.len() - 1) / 2;
                &&& old(items)@.len() > 0
                &&& *m == final(items)@[middle]
                &&& forall|i: int| 0 <= i <= middle ==> final(items)@[i] <= *m
                &&& forall|i: int| middle <= i < final(items)@.len() ==> final(items)@[i] >= *m
            },
        },
{
    if items.len() == 0 {
        return None;
    }
    let s: Vec<u64> = sorted(&*items);
    *items = s;
    let middle: usize = (items.len() - 1) / 2;
    Some(&items[middle])
}

/// How many keys of a map fulfil what their values fulfil.
proof fn lemma_count_keys(
    matched: Map<Seq<char>, Option<u64>>,
    keys: Seq<Seq<char>>,
    values: Seq<u64>,
    p: spec_fn(u64) -> bool,
)
    requires
        keys.no_duplicates(),
        keys.len() == values.len(),
        forall|i: int| 0 <= i < keys.len() ==> reach(matched[#[trigger] keys[i]]) == values[i],
    ensures
        keys.to_set().filter(|k: Seq<char>| p(reach(matched[k]) as u64)).len() == count(values, p),
        keys.to_set().filter(|k: Seq<char>| p(reach(matched[k]) as u64)).finite(),
    decreases keys.len(),
{
    let f = |k: Seq<char>| p(reach(matched[k]) as u64);
    if keys.len() == 0 {
        assert(keys.to_set().filter(f) =~= Set::empty());
    } else {
        let front = keys.drop_last();
        let k = keys.last();
        assert forall|i: int| 0 <= i < front.len() implies reach(matched[#[trigger] front[i]])
            == values.drop_last()[i] by {
            assert(front[i] == keys[i]);
        }
        lemma_count_keys(matched, front, values.drop_last(), p);
        assert(reach(matched[keys[keys.len() - 1]]) == values.last());
        let a = front.to_set().filter(f);
        let b = keys.to_set().filter(f);
        assert(!front.contains(k)) by {
            if front.contains(k) {
                let i = choose|i: int| 0 <= i < front.len() && front[i] == k;
                assert(keys[i] == keys[keys.len() - 1]);
            }
        }
        assert forall|x: Seq<char>| keys.to_set().contains(x) <==> front.to_set().insert(
            k,
        ).contains(x) by {
            if keys.contains(x) {
                let i = choose|i: int| 0 <= i < keys.len() && keys[i] == x;
                if i < front.len() {
                    assert(front[i] == x);
                }
            }
            if front.contains(x) {
                let i = choose|i: int| 0 <= i < front.len() && front[i] == x;
                assert(keys[i] == x);
            }
            if x == k {
                assert(keys[keys.len() - 1] == x);
            }
        }
        assert(keys.to_set() =~= front.to_set().insert(k));
        if f(k) {
            assert(b =~= a.insert(k));
        } else {
            assert(b =~= a);
        }
    }
}

/// The lower median of the values of a map is the median match.
pub proof fn lemma_median_of_values(
    matched: Map<Seq<char>, Option<u64>>,
    keys: Seq<Seq<char>>,
    values: Seq<u64>,
    ordered: Seq<u64>,
    n: u64,
)
    requires
        keys.no_duplicates(),
        keys.len() == values.len(),
        keys.len() > 0,
        keys.to_set() == matched.dom(),
        forall|i: int| 0 <= i < keys.len() ==> reach(matched[#[trigger] keys[i]]) == values[i],
        ordered.len() == values.len(),
        ordered.to_multiset() == values.to_multiset(),
        forall|p: spec_fn(u64) -> bool| #[trigger] count(ordered, p) == count(values, p),
        ({
            let middle = (values.len() - 1) / 2;
            &&& n == ordered[middle]
            &&& forall|i: int| 0 <= i <= middle ==> ordered[i] <= n
            &&& forall|i: int| middle <= i < ordered.len() ==> ordered[i] >= n
        }),
    ensures
        is_median_match(matched, n),
        matched.dom().finite(),
{
    let middle = (values.len() - 1) / 2;
    let less = |x: u64| x < n;
    let upto = |x: u64| x <= n;
    keys.unique_seq_to_set();
    lemma_count_keys(matched, keys, values, less);
    lemma_count_keys(matched, keys, values, upto);
    lemma_count_at_most(ordered, less, middle as nat);
    lemma_count_at_least(ordered, upto, (middle + 1) as nat);
    assert(count(ordered, less) == count(values, less));
    assert(count(ordered, upto) == count(values, upto));
    assert(lacking(matched, n) =~= keys.to_set().filter(
        |k: Seq<char>| less(reach(matched[k]) as u64),
    ));
    assert(not_beyond(matched, n) =~= keys.to_set().filter(
        |k: Seq<char>| upto(reach(matched[k]) as u64),
    ));
    assert(values.contains(n)) by {
        broadcast use vstd::seq_lib::group_to_multiset_ensures;

        assert(ordered.contains(n));
        assert(ordered.to_multiset().count(n) > 0);
    }
    let i = choose|i: int| 0 <= i < values.len() && values[i] == n;
    assert(matched.contains_key(keys[i]));
}

/// There is one median at most.
pub proof fn median_is_unique(matched: Map<Seq<char>, Option<u64>>, a: u64, b: u64)
    requires
        matched.dom().finite(),
        is_median_match(matched, a),
        is_median_match(matched, b),
    ensures
        a == b,
{
    if a < b {
        vstd::set_lib::lemma_len_subset(not_beyond(matched, a), lacking(matched, b));
    } else if b < a {
        vstd::set_lib::lemma_len_subset(not_beyond(matched, b), lacking(matched, a));
    }
}

} // verus!
