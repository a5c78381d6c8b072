//! What a diff says of the documents it compares.
use crate::assoc::{distinct, lemma_position, lookup, position};
use crate::json::diff::{
    common, differences, found_le, index_loc, item_differences, loc_text, missing, ordered, slot,
    text_le, Found, Judged, Place, MAX_LOCATION,
};
use crate::json::equality::{json_eq, well_formed, Doubles};
use crate::json::value::Json;
use vstd::multiset::Multiset;
use vstd::prelude::*;

verus! {

spec fn keys(e: Seq<(Seq<char>, Json)>) -> Seq<Seq<char>> {
    e.map_values(|p: (Seq<char>, Json)| p.0)
}

proof fn lemma_keys(e: Seq<(Seq<char>, Json)>)
    requires
        distinct(e),
    ensures
        keys(e).to_set().len() == e.len(),
        keys(e).to_set().finite(),
        forall|k: Seq<char>| #[trigger] keys(e).to_set().contains(k) <==> lookup(e, k) is Some,
{
    let s = keys(e);
    assert forall|i: int, j: int| 0 <= i < s.len() && 0 <= j < s.len() && i != j implies s[i]
        != s[j] by {
        assert(e[i].0 == s[i] && e[j].0 == s[j]);
    }
    s.unique_seq_to_set();
    assert forall|k: Seq<char>| #[trigger] s.to_set().contains(k) <==> lookup(e, k) is Some by {
        lemma_position(e, k, 0);
        if s.to_set().contains(k) {
            let i = choose|i: int| 0 <= i < s.len() && s[i] == k;
            assert(e[i].0 == k);
        }
        if let Some(p) = position(e, k, 0) {
            assert(s[p] == k);
        }
    }
}

proof fn lemma_missing_none(loc: Place, a: Seq<(Seq<char>, Json)>, b: Seq<(Seq<char>, Json)>, i: int, left: bool)
    requires
        0 <= i,
    ensures
        missing(loc, a, b, i, left).len() == 0 <==> (forall|k: int|
            i <= k < a.len() ==> lookup(b, (#[trigger] a[k]).0) is Some),
    decreases a.len() - i,
{
    if i < a.len() {
        lemma_missing_none(loc, a, b, i + 1, left);
        assert(a[i] == a[i]);
    }
}

proof fn lemma_common_none(
    loc: Place,
    a: Seq<(Seq<char>, Json)>,
    b: Seq<(Seq<char>, Json)>,
    i: int,
    doubles: Doubles,
)
    requires
        0 <= i,
    ensures
        common(loc, a, b, i, doubles).len() == 0 <==> (forall|k: int|
            i <= k < a.len() ==> (match lookup(b, (#[trigger] a[k]).0) {
                Some(v) => differences(loc.push(a[k].0), a[k].1, v, doubles).len() == 0,
                None => true,
            })),
    decreases a.len() - i,
{
    if i < a.len() {
        lemma_common_none(loc, a, b, i + 1, doubles);
        assert(a[i] == a[i]);
    }
}

proof fn lemma_items_none(loc: Place, a: Seq<Json>, b: Seq<Json>, i: int, doubles: Doubles)
    requires
        0 <= i,
        i <= a.len() && i <= b.len(),
    ensures
        item_differences(loc, a, b, i, doubles).len() == 0 <==> (a.len() == b.len()
            && forall|k: int|
            i <= k < a.len() ==> differences(
                index_loc(loc, k),
                #[trigger] a[k],
                b[k],
                doubles,
            ).len() == 0),
    decreases a.len() + b.len() - i,
{
    if i < a.len() && i < b.len() {
        lemma_items_none(loc, a, b, i + 1, doubles);
        assert(a[i] == a[i]);
    }
}

/// Values that are the same do not differ.
pub proof fn equal_values_do_not_differ(loc: Place, l: Json, r: Json, doubles: Doubles)
    requires
        well_formed(l),
        well_formed(r),
        json_eq(l, r, doubles),
    ensures
        differences(loc, l, r, doubles) == Seq::<Found>::empty(),
    decreases l,
{
    if loc.len() <= MAX_LOCATION {
        match (l, r) {
            (Json::Object(a), Json::Object(b)) => {
                lemma_keys(a);
                lemma_keys(b);
                let ka = keys(a).to_set();
                let kb = keys(b).to_set();
                assert forall|k: Seq<char>| ka.contains(k) implies kb.contains(k) by {
                    lemma_position(a, k, 0);
                    let p = position(a, k, 0)->Some_0;
                    assert(a[p].0 == k);
                }
                vstd::set_lib::lemma_subset_equality(ka, kb);
                assert forall|k: int| 0 <= k < a.len() implies lookup(b, (#[trigger] a[k]).0)
                    is Some by {}
                lemma_missing_none(loc, a, b, 0, true);
                assert forall|k: int| 0 <= k < b.len() implies lookup(a, (#[trigger] b[k]).0)
                    is Some by {
                    assert(keys(b)[k] == b[k].0);
                    assert(kb.contains(b[k].0));
                }
                lemma_missing_none(loc, b, a, 0, false);
                assert forall|k: int| 0 <= k < a.len() implies (match lookup(
                    b,
                    (#[trigger] a[k]).0,
                ) {
                    Some(v) => differences(loc.push(a[k].0), a[k].1, v, doubles).len() == 0,
                    None => true,
                }) by {
                    lemma_position(b, a[k].0, 0);
                    let p = position(b, a[k].0, 0)->Some_0;
                    assert(well_formed(b[p].1));
                    equal_values_do_not_differ(loc.push(a[k].0), a[k].1, b[p].1, doubles);
                }
                lemma_common_none(loc, a, b, 0, doubles);
            },
            (Json::Array(a), Json::Array(b)) => {
                assert forall|k: int| 0 <= k < a.len() implies differences(
                    index_loc(loc, k),
                    #[trigger] a[k],
                    b[k],
                    doubles,
                ).len() == 0 by {
                    assert(well_formed(b[k]));
                    equal_values_do_not_differ(index_loc(loc, k), a[k], b[k], doubles);
                }
                lemma_items_none(loc, a, b, 0, doubles);
            },
            _ => {},
        }
    }
    assert(differences(loc, l, r, doubles) =~= seq![]);
}

/// No location inside the value grows too long to be looked into, where the value itself
/// lies at one of length `len`.
pub open spec fn within_reach(j: Json, len: nat) -> bool
    decreases j,
{
    &&& len <= MAX_LOCATION
    &&& match j {
        Json::Object(e) => forall|i: int|
            0 <= i < e.len() ==> within_reach((#[trigger] e[i]).1, len + 1),
        Json::Array(a) => forall|i: int|
            0 <= i < a.len() ==> within_reach(
                #[trigger] a[i],
                if len == 0 {
                    1
                } else {
                    len
                },
            ),
        _ => true,
    }
}

/// Values that do not differ are the same, as far as the diff looks.
pub proof fn values_that_do_not_differ_are_equal(loc: Place, l: Json, r: Json, doubles: Doubles)
    requires
        well_formed(l),
        well_formed(r),
        within_reach(l, loc.len()),
        differences(loc, l, r, doubles) == Seq::<Found>::empty(),
    ensures
        json_eq(l, r, doubles),
    decreases l,
{
    match (l, r) {
        (Json::Object(a), Json::Object(b)) => {
            lemma_missing_none(loc, a, b, 0, true);
            lemma_missing_none(loc, b, a, 0, false);
            lemma_common_none(loc, a, b, 0, doubles);
            lemma_keys(a);
            lemma_keys(b);
            assert(differences(loc, l, r, doubles).len() == missing(loc, a, b, 0, true).len()
                + missing(loc, b, a, 0, false).len() + common(loc, a, b, 0, doubles).len());
            let ka = keys(a).to_set();
            let kb = keys(b).to_set();
            assert forall|k: Seq<char>| ka.contains(k) <==> kb.contains(k) by {
                lemma_position(a, k, 0);
                lemma_position(b, k, 0);
                if let Some(p) = position(a, k, 0) {
                    assert(a[p].0 == k);
                }
                if let Some(p) = position(b, k, 0) {
                    assert(b[p].0 == k);
                }
            }
            assert(ka =~= kb);
            assert forall|k: int| 0 <= k < a.len() implies (match lookup(b, (#[trigger] a[k]).0) {
                Some(v) => json_eq(a[k].1, v, doubles),
                None => false,
            }) by {
                lemma_position(b, a[k].0, 0);
                let p = position(b, a[k].0, 0)->Some_0;
                assert(well_formed(b[p].1));
                let at = loc.push(a[k].0);
                assert(differences(at, a[k].1, b[p].1, doubles) =~= seq![]);
                values_that_do_not_differ_are_equal(at, a[k].1, b[p].1, doubles);
            }
        },
        (Json::Array(a), Json::Array(b)) => {
            lemma_items_none(loc, a, b, 0, doubles);
            assert forall|k: int| 0 <= k < a.len() implies json_eq(
                #[trigger] a[k],
                b[k],
                doubles,
            ) by {
                assert(well_formed(b[k]));
                let at = index_loc(loc, k);
                assert(differences(at, a[k], b[k], doubles) =~= seq![]);
                values_that_do_not_differ_are_equal(at, a[k], b[k], doubles);
            }
        },
        _ => {
            if !json_eq(l, r, doubles) {
                assert(differences(loc, l, r, doubles).len() == 1);
            }
        },
    }
}

proof fn lemma_text_total(a: Seq<char>, b: Seq<char>, i: int)
    requires
        0 <= i,
    ensures
        text_le(a, b, i) || text_le(b, a, i),
    decreases a.len() - i,
{
    if i < a.len() && i < b.len() && a[i] == b[i] {
        lemma_text_total(a, b, i + 1);
    }
}

proof fn lemma_text_transitive(a: Seq<char>, b: Seq<char>, c: Seq<char>, i: int)
    requires
        0 <= i,
        text_le(a, b, i),
        text_le(b, c, i),
    ensures
        text_le(a, c, i),
    decreases a.len() - i,
{
    if i < a.len() && i < b.len() && i < c.len() && a[i] == b[i] && b[i] == c[i] {
        lemma_text_transitive(a, b, c, i + 1);
    }
}

proof fn lemma_slot(s: Seq<Found>, f: Found, i: int)
    requires
        0 <= i <= s.len(),
        forall|k: int| 0 <= k < i ==> found_le(#[trigger] s[k], f),
    ensures
        i <= slot(s, f, i) <= s.len(),
        forall|k: int| 0 <= k < slot(s, f, i) ==> found_le(#[trigger] s[k], f),
        slot(s, f, i) < s.len() ==> !found_le(s[slot(s, f, i)], f),
    decreases s.len() - i,
{
    if i < s.len() && found_le(s[i], f) {
        lemma_slot(s, f, i + 1);
    }
}

/// A diff reports each finding once, in the order of the locations.
pub proof fn diff_is_ordered(s: Seq<Found>)
    ensures
        ordered(s).to_multiset() == s.to_multiset(),
        forall|i: int, j: int|
            #![trigger ordered(s)[i], ordered(s)[j]]
            0 <= i <= j < ordered(s).len() ==> found_le(ordered(s)[i], ordered(s)[j]),
    decreases s.len(),
{
    if s.len() == 0 {
        assert(s =~= seq![]);
    } else {
        let front = ordered(s.drop_last());
        let f = s.last();
        diff_is_ordered(s.drop_last());
        lemma_slot(front, f, 0);
        let p = slot(front, f, 0);
        let o = ordered(s);
        assert(o == front.insert(p, f));
        vstd::seq_lib::to_multiset_insert(front, p, f);
        vstd::seq_lib::to_multiset_build(s.drop_last(), f);
        assert(s.drop_last().push(f) =~= s);
        assert(o.to_multiset() =~= s.to_multiset());
        assert forall|i: int, j: int|
            #![trigger o[i], o[j]]
            0 <= i <= j < o.len() implies found_le(o[i], o[j]) by {
            let x = if i < p {
                i
            } else {
                i - 1
            };
            let y = if j < p {
                j
            } else {
                j - 1
            };
            if i == j {
                lemma_text_total(loc_text(o[i].loc), loc_text(o[i].loc), 0);
            } else if j == p {
                assert(o[i] == front[x]);
            } else if i == p {
                assert(o[j] == front[y]);
                lemma_text_total(loc_text(f.loc), loc_text(front[p].loc), 0);
                assert(found_le(front[p], front[y]));
                lemma_text_transitive(
                    loc_text(f.loc),
                    loc_text(front[p].loc),
                    loc_text(front[y].loc),
                    0,
                );
            } else {
                assert(o[i] == front[x] && o[j] == front[y]);
            }
        }
    }
}

/// A finding, with the two documents exchanged.
pub open spec fn flipped(f: Found) -> Found {
    Found {
        loc: f.loc,
        verdict: match f.verdict {
            Judged::OnlyLeft(v) => Judged::OnlyRight(v),
            Judged::OnlyRight(v) => Judged::OnlyLeft(v),
            Judged::Differ(l, r) => Judged::Differ(r, l),
        },
    }
}

/// Findings, with the two documents exchanged.
pub open spec fn all_flipped(s: Seq<Found>) -> Seq<Found> {
    Seq::new(s.len(), |i: int| flipped(s[i]))
}

/// It does not matter in which order two numbers are compared.
pub open spec fn symmetric(doubles: Doubles) -> bool {
    forall|a: Seq<char>, b: Seq<char>| #[trigger] doubles(a, b) == doubles(b, a)
}

proof fn lemma_flipped_concat(a: Seq<Found>, b: Seq<Found>)
    ensures
        all_flipped(a + b) == all_flipped(a) + all_flipped(b),
{
    assert(all_flipped(a + b) =~= all_flipped(a) + all_flipped(b));
}

/// Joining sequences joins what they hold.
proof fn lemma_concat_multiset(a: Seq<Found>, b: Seq<Found>)
    ensures
        (a + b).to_multiset() == a.to_multiset().add(b.to_multiset()),
{
    vstd::seq_lib::lemma_multiset_commutative(a, b);
}

/// All that keys stand for.
spec fn total(keys: Seq<Seq<char>>, f: spec_fn(Seq<char>) -> Multiset<Found>) -> Multiset<Found>
    decreases keys.len(),
{
    if keys.len() == 0 {
        Multiset::empty()
    } else {
        f(keys[0]).add(total(keys.drop_first(), f))
    }
}

proof fn lemma_total_remove(
    keys: Seq<Seq<char>>,
    f: spec_fn(Seq<char>) -> Multiset<Found>,
    p: int,
)
    requires
        0 <= p < keys.len(),
    ensures
        total(keys, f) == f(keys[p]).add(total(keys.remove(p), f)),
    decreases keys.len(),
{
    if p == 0 {
        assert(keys.remove(0) =~= keys.drop_first());
    } else {
        lemma_total_remove(keys.drop_first(), f, p - 1);
        assert(keys.remove(p).drop_first() =~= keys.drop_first().remove(p - 1));
        assert(keys.remove(p)[0] == keys[0]);
        assert(total(keys, f) =~= f(keys[p]).add(total(keys.remove(p), f)));
    }
}

/// Keys that stand for nothing do not matter, nor does the order of keys.
proof fn lemma_total_same(
    s: Seq<Seq<char>>,
    t: Seq<Seq<char>>,
    f: spec_fn(Seq<char>) -> Multiset<Found>,
)
    requires
        s.no_duplicates(),
        t.no_duplicates(),
        forall|k: Seq<char>|
            s.contains(k) && !t.contains(k) ==> #[trigger] f(k) == Multiset::<Found>::empty(),
        forall|k: Seq<char>|
            t.contains(k) && !s.contains(k) ==> #[trigger] f(k) == Multiset::<Found>::empty(),
    ensures
        total(s, f) == total(t, f),
    decreases s.len() + t.len(),
{
    if s.len() == 0 {
        if t.len() > 0 {
            assert(t.contains(t[0]));
            assert forall|k: Seq<char>|
                t.drop_first().contains(k) && !s.contains(k) implies #[trigger] f(k)
                == Multiset::<Found>::empty() by {
                let i = choose|i: int| 0 <= i < t.drop_first().len() && t.drop_first()[i] == k;
                assert(t[i + 1] == k);
            }
            lemma_total_same(s, t.drop_first(), f);
            assert(total(t, f) =~= total(s, f));
        }
    } else {
        let k = s[0];
        let rest = s.drop_first();
        assert(s.contains(k));
        assert(forall|i: int| 0 <= i < rest.len() ==> #[trigger] rest[i] == s[i + 1]);
        assert(rest.no_duplicates());
        assert(!rest.contains(k));
        assert forall|x: Seq<char>| s.contains(x) implies x == k || rest.contains(x) by {
            let i = choose|i: int| 0 <= i < s.len() && s[i] == x;
            if i > 0 {
                assert(rest[i - 1] == x);
            }
        }
        assert forall|x: Seq<char>| rest.contains(x) implies s.contains(x) by {
            let i = choose|i: int| 0 <= i < rest.len() && rest[i] == x;
            assert(s[i + 1] == x);
        }
        if t.contains(k) {
            let p = choose|p: int| 0 <= p < t.len() && t[p] == k;
            let others = t.remove(p);
            lemma_total_remove(t, f, p);
            assert(forall|i: int|
                0 <= i < others.len() ==> #[trigger] others[i] == (if i < p {
                    t[i]
                } else {
                    t[i + 1]
                }));
            assert(others.no_duplicates());
            assert(!others.contains(k));
            assert forall|x: Seq<char>| t.contains(x) implies x == k || others.contains(x) by {
                let i = choose|i: int| 0 <= i < t.len() && t[i] == x;
                if i < p {
                    assert(others[i] == x);
                } else if i > p {
                    assert(others[i - 1] == x);
                }
            }
            assert forall|x: Seq<char>| others.contains(x) implies t.contains(x) by {
                let i = choose|i: int| 0 <= i < others.len() && others[i] == x;
                if i < p {
                    assert(t[i] == x);
                } else {
                    assert(t[i + 1] == x);
                }
            }
            lemma_total_same(rest, others, f);
        } else {
            lemma_total_same(rest, t, f);
            assert(f(k) == Multiset::<Found>::empty());
            assert(total(s, f) =~= total(rest, f));
        }
    }
}

/// What differs under a key that both objects have, with the second one on the left.
spec fn under(
    loc: Place,
    a: Seq<(Seq<char>, Json)>,
    b: Seq<(Seq<char>, Json)>,
    doubles: Doubles,
) -> spec_fn(Seq<char>) -> Multiset<Found> {
    |k: Seq<char>|
        match (lookup(a, k), lookup(b, k)) {
            (Some(x), Some(y)) => differences(loc.push(k), y, x, doubles).to_multiset(),
            _ => Multiset::empty(),
        }
}

proof fn lemma_common_right(
    loc: Place,
    a: Seq<(Seq<char>, Json)>,
    b: Seq<(Seq<char>, Json)>,
    i: int,
    doubles: Doubles,
)
    requires
        distinct(b),
        0 <= i <= b.len(),
    ensures
        common(loc, b, a, i, doubles).to_multiset() == total(
            keys(b).skip(i),
            under(loc, a, b, doubles),
        ),
    decreases b.len() - i,
{
    broadcast use vstd::seq_lib::group_to_multiset_ensures;

    let f = under(loc, a, b, doubles);
    if i < b.len() {
        lemma_common_right(loc, a, b, i + 1, doubles);
        let rest = common(loc, b, a, i + 1, doubles);
        assert(keys(b).skip(i).drop_first() =~= keys(b).skip(i + 1));
        let k = b[i].0;
        assert(keys(b).skip(i)[0] == k);
        crate::assoc::lemma_position_is(b, k, i);
        if let Some(x) = lookup(a, k) {
            lemma_concat_multiset(differences(loc.push(k), b[i].1, x, doubles), rest);
        } else {
            assert(f(k).add(rest.to_multiset()) =~= rest.to_multiset());
        }
    } else {
        assert(keys(b).skip(i) =~= seq![]);
        assert(common(loc, b, a, i, doubles).to_multiset() =~= Multiset::empty());
    }
}

proof fn lemma_common_left(
    loc: Place,
    a: Seq<(Seq<char>, Json)>,
    b: Seq<(Seq<char>, Json)>,
    i: int,
    doubles: Doubles,
)
    requires
        distinct(a),
        0 <= i <= a.len(),
        forall|k: int|
            0 <= k < a.len() ==> (lookup(b, (#[trigger] a[k]).0) matches Some(v) ==> differences(
                loc.push(a[k].0),
                v,
                a[k].1,
                doubles,
            ).to_multiset() == all_flipped(
                differences(loc.push(a[k].0), a[k].1, v, doubles),
            ).to_multiset()),
    ensures
        all_flipped(common(loc, a, b, i, doubles)).to_multiset() == total(
            keys(a).skip(i),
            under(loc, a, b, doubles),
        ),
    decreases a.len() - i,
{
    broadcast use vstd::seq_lib::group_to_multiset_ensures;

    let f = under(loc, a, b, doubles);
    if i < a.len() {
        lemma_common_left(loc, a, b, i + 1, doubles);
        let rest = common(loc, a, b, i + 1, doubles);
        assert(keys(a).skip(i).drop_first() =~= keys(a).skip(i + 1));
        let k = a[i].0;
        assert(keys(a).skip(i)[0] == k);
        crate::assoc::lemma_position_is(a, k, i);
        if let Some(y) = lookup(b, k) {
            let here = differences(loc.push(k), a[i].1, y, doubles);
            lemma_flipped_concat(here, rest);
            lemma_concat_multiset(all_flipped(here), all_flipped(rest));
        } else {
            assert(f(k).add(all_flipped(rest).to_multiset())
                =~= all_flipped(rest).to_multiset());
        }
    } else {
        assert(keys(a).skip(i) =~= seq![]);
        assert(all_flipped(common(loc, a, b, i, doubles)) =~= seq![]);
        assert(all_flipped(common(loc, a, b, i, doubles)).to_multiset() =~= Multiset::empty());
    }
}

proof fn lemma_missing_flipped(
    loc: Place,
    a: Seq<(Seq<char>, Json)>,
    b: Seq<(Seq<char>, Json)>,
    i: int,
    left: bool,
)
    ensures
        all_flipped(missing(loc, a, b, i, left)) == missing(loc, a, b, i, !left),
    decreases a.len() - i,
{
    if i < a.len() {
        lemma_missing_flipped(loc, a, b, i + 1, left);
    }
    assert(all_flipped(missing(loc, a, b, i, left)) =~= missing(loc, a, b, i, !left));
}

proof fn lemma_items_flipped(loc: Place, a: Seq<Json>, b: Seq<Json>, i: int, doubles: Doubles)
    requires
        0 <= i,
        forall|k: int|
            0 <= k < a.len() && k < b.len() ==> differences(
                index_loc(loc, k),
                b[k],
                #[trigger] a[k],
                doubles,
            ).to_multiset() == all_flipped(
                differences(index_loc(loc, k), a[k], b[k], doubles),
            ).to_multiset(),
    ensures
        item_differences(loc, b, a, i, doubles).to_multiset() == all_flipped(
            item_differences(loc, a, b, i, doubles),
        ).to_multiset(),
    decreases a.len() + b.len() - i,
{
    let one = item_differences(loc, a, b, i, doubles);
    let other = item_differences(loc, b, a, i, doubles);
    if i < a.len() || i < b.len() {
        lemma_items_flipped(loc, a, b, i + 1, doubles);
        let (x, y) = (
            item_differences(loc, a, b, i + 1, doubles),
            item_differences(loc, b, a, i + 1, doubles),
        );
        let here = index_loc(loc, i);
        if i >= b.len() {
            let f = Found { loc: here, verdict: Judged::OnlyLeft(a[i]) };
            assert(one == seq![f] + x);
            assert(other == seq![flipped(f)] + y);
            assert(all_flipped(one) =~= seq![flipped(f)] + all_flipped(x));
            lemma_concat_multiset(seq![flipped(f)], all_flipped(x));
            lemma_concat_multiset(seq![flipped(f)], y);
        } else if i >= a.len() {
            let f = Found { loc: here, verdict: Judged::OnlyRight(b[i]) };
            assert(one == seq![f] + x);
            assert(other == seq![flipped(f)] + y);
            assert(all_flipped(one) =~= seq![flipped(f)] + all_flipped(x));
            lemma_concat_multiset(seq![flipped(f)], all_flipped(x));
            lemma_concat_multiset(seq![flipped(f)], y);
        } else {
            let d = differences(here, a[i], b[i], doubles);
            lemma_flipped_concat(d, x);
            lemma_concat_multiset(all_flipped(d), all_flipped(x));
            lemma_concat_multiset(differences(here, b[i], a[i], doubles), y);
        }
    } else {
        assert(all_flipped(one) =~= other);
    }
}

/// Exchanging two values exchanges the sides of what differs between them.
pub proof fn exchanged_values_differ_alike(loc: Place, l: Json, r: Json, doubles: Doubles)
    requires
        well_formed(l),
        well_formed(r),
        symmetric(doubles),
    ensures
        differences(loc, r, l, doubles).to_multiset() == all_flipped(
            differences(loc, l, r, doubles),
        ).to_multiset(),
    decreases l,
{
    let one = differences(loc, l, r, doubles);
    let other = differences(loc, r, l, doubles);
    if loc.len() > MAX_LOCATION {
        assert(all_flipped(one) =~= other);
    } else {
        match (l, r) {
            (Json::Object(a), Json::Object(b)) => {
                assert forall|k: int| 0 <= k < a.len() implies (lookup(b, (#[trigger] a[k]).0) matches Some(
                    v,
                ) ==> differences(loc.push(a[k].0), v, a[k].1, doubles).to_multiset() == all_flipped(
                    differences(loc.push(a[k].0), a[k].1, v, doubles),
                ).to_multiset()) by {
                    if let Some(v) = lookup(b, a[k].0) {
                        lemma_position(b, a[k].0, 0);
                        let p = position(b, a[k].0, 0)->Some_0;
                        assert(well_formed(b[p].1));
                        exchanged_values_differ_alike(loc.push(a[k].0), a[k].1, v, doubles);
                    }
                }
                lemma_common_left(loc, a, b, 0, doubles);
                lemma_common_right(loc, a, b, 0, doubles);
                assert(keys(a).skip(0) =~= keys(a));
                assert(keys(b).skip(0) =~= keys(b));
                lemma_keys(a);
                lemma_keys(b);
                let f = under(loc, a, b, doubles);
                assert forall|i: int, j: int|
                    0 <= i < a.len() && 0 <= j < a.len() && i != j implies keys(a)[i]
                    != keys(a)[j] by {
                    assert(keys(a)[i] == a[i].0 && keys(a)[j] == a[j].0);
                }
                assert forall|i: int, j: int|
                    0 <= i < b.len() && 0 <= j < b.len() && i != j implies keys(b)[i]
                    != keys(b)[j] by {
                    assert(keys(b)[i] == b[i].0 && keys(b)[j] == b[j].0);
                }
                assert forall|k: Seq<char>|
                    keys(a).contains(k) && !keys(b).contains(k) implies #[trigger] f(k)
                    == Multiset::<Found>::empty() by {
                    assert(!keys(b).to_set().contains(k));
                }
                assert forall|k: Seq<char>|
                    keys(b).contains(k) && !keys(a).contains(k) implies #[trigger] f(k)
                    == Multiset::<Found>::empty() by {
                    assert(!keys(a).to_set().contains(k));
                }
                lemma_total_same(keys(a), keys(b), f);
                lemma_missing_flipped(loc, a, b, 0, true);
                lemma_missing_flipped(loc, b, a, 0, false);
                let (ma, mb, c) = (
                    missing(loc, a, b, 0, true),
                    missing(loc, b, a, 0, false),
                    common(loc, a, b, 0, doubles),
                );
                lemma_flipped_concat(ma + mb, c);
                lemma_flipped_concat(ma, mb);
                lemma_concat_multiset(all_flipped(ma) + all_flipped(mb), all_flipped(c));
                lemma_concat_multiset(all_flipped(ma), all_flipped(mb));
                lemma_concat_multiset(
                    all_flipped(mb) + all_flipped(ma),
                    common(loc, b, a, 0, doubles),
                );
                lemma_concat_multiset(all_flipped(mb), all_flipped(ma));
                assert(other.to_multiset() =~= all_flipped(one).to_multiset());
            },
            (Json::Array(a), Json::Array(b)) => {
                assert forall|k: int| 0 <= k < a.len() && k < b.len() implies differences(
                    index_loc(loc, k),
                    b[k],
                    #[trigger] a[k],
                    doubles,
                ).to_multiset() == all_flipped(
                    differences(index_loc(loc, k), a[k], b[k], doubles),
                ).to_multiset() by {
                    assert(well_formed(b[k]));
                    exchanged_values_differ_alike(index_loc(loc, k), a[k], b[k], doubles);
                }
                lemma_items_flipped(loc, a, b, 0, doubles);
            },
            _ => {
                if let (Json::Number(x), Json::Number(y)) = (l, r) {
                    assert(doubles(x, y) == doubles(y, x));
                }
                assert(all_flipped(one) =~= other);
            },
        }
    }
}

proof fn lemma_slot_flipped(s: Seq<Found>, f: Found, i: int)
    requires
        0 <= i,
    ensures
        slot(all_flipped(s), flipped(f), i) == slot(s, f, i),
    decreases s.len() - i,
{
    if i < s.len() && found_le(s[i], f) {
        lemma_slot_flipped(s, f, i + 1);
    }
}

proof fn lemma_ordered_flipped(s: Seq<Found>)
    ensures
        ordered(all_flipped(s)) == all_flipped(ordered(s)),
    decreases s.len(),
{
    if s.len() == 0 {
        assert(ordered(all_flipped(s)) =~= all_flipped(ordered(s)));
    } else {
        let front = ordered(s.drop_last());
        lemma_ordered_flipped(s.drop_last());
        assert(all_flipped(s).drop_last() =~= all_flipped(s.drop_last()));
        lemma_slot_flipped(front, s.last(), 0);
        lemma_slot(front, s.last(), 0);
        assert(ordered(all_flipped(s)) =~= all_flipped(ordered(s)));
    }
}

/// Exchanging the two documents of a diff exchanges the sides of its findings, and changes
/// nothing else: there are the same findings at the same locations.
pub proof fn exchanged_documents_exchange_sides(l: Json, r: Json, doubles: Doubles)
    requires
        well_formed(l),
        well_formed(r),
        symmetric(doubles),
    ensures
        ordered(differences(seq![], r, l, doubles)).to_multiset() == all_flipped(
            ordered(differences(seq![], l, r, doubles)),
        ).to_multiset(),
{
    let one = differences(seq![], l, r, doubles);
    exchanged_values_differ_alike(seq![], l, r, doubles);
    lemma_ordered_flipped(one);
    diff_is_ordered(all_flipped(one));
    diff_is_ordered(differences(seq![], r, l, doubles));
}

} // verus!
