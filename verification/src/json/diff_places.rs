//! Where a diff says that documents differ, and that they differ there.
use crate::assoc::{distinct, lemma_position_is, lookup};
use crate::decimal::decimal;
use crate::json::diff::{
    common, differences, index_loc, item_differences, joined, loc_text, missing, ordered, report, text_le, Found,
    Judged, Place, MAX_LOCATION,
};
use crate::json::diff_laws::{
    diff_is_ordered, equal_values_do_not_differ, values_that_do_not_differ_are_equal, within_reach,
};
use crate::json::equality::{json_eq, well_formed, Doubles};
use crate::json::jdiff::reported;
use crate::json::print::text;
use crate::json::value::Json;
use crate::words::{is_white_space, trimmed, trimmed_end, trimmed_start};
use vstd::prelude::*;

verus! {

/// A step from a value into it: to the member with a key, or to an item.
#[verifier::ext_equal]
pub enum Step {
    Key(Seq<char>),
    Index(nat),
}

/// Where a step leads to.
pub open spec fn child(j: Json, s: Step) -> Option<Json> {
    match (j, s) {
        (Json::Object(e), Step::Key(k)) => lookup(e, k),
        (Json::Array(a), Step::Index(i)) => if i < a.len() {
            Some(a[i as int])
        } else {
            None
        },
        _ => None,
    }
}

/// The value that some steps lead to.
pub open spec fn at(j: Json, path: Seq<Step>) -> Option<Json>
    decreases path.len(),
{
    if path.len() == 0 {
        Some(j)
    } else {
        match child(j, path[0]) {
            Some(c) => at(c, path.skip(1)),
            None => None,
        }
    }
}

/// The location behind a step: a key is a part of its own, an index is attached to the part in
/// front, if there is one.
pub open spec fn behind(loc: Place, s: Step) -> Place {
    match s {
        Step::Key(k) => loc.push(k),
        Step::Index(i) => if loc.len() == 0 {
            seq![seq!['['] + decimal(i) + seq![']']]
        } else {
            loc.drop_last().push(loc.last() + seq!['['] + decimal(i) + seq![']'])
        },
    }
}

/// The location that some steps lead to.
pub open spec fn place(loc: Place, path: Seq<Step>) -> Place
    decreases path.len(),
{
    if path.len() == 0 {
        loc
    } else {
        place(behind(loc, path[0]), path.skip(1))
    }
}

/// Two objects, or two arrays: what differs between them differs inside.
pub open spec fn both_hold(l: Json, r: Json) -> bool {
    (l is Object && r is Object) || (l is Array && r is Array)
}

/// Two values that both have something inside, where some steps lead to.
pub open spec fn parents(l: Json, r: Json, path: Seq<Step>) -> bool {
    &&& path.len() > 0
    &&& at(l, path.drop_last()) matches Some(a)
    &&& at(r, path.drop_last()) matches Some(b)
    &&& both_hold(a, b)
}

/// A finding tells the truth about two values: what it tells to be only in one of them is there,
/// and not in the other, though both have what it lies in; and what it tells to differ is there
/// in both, and not the same.
pub open spec fn is_true(
    loc: Place,
    l: Json,
    r: Json,
    path: Seq<Step>,
    f: Found,
    doubles: Doubles,
) -> bool {
    &&& f.loc == place(loc, path)
    &&& match f.verdict {
        Judged::OnlyLeft(v) => at(l, path) == Some(v) && at(r, path) is None && parents(l, r, path),
        Judged::OnlyRight(v) => at(r, path) == Some(v) && at(l, path) is None && parents(
            l,
            r,
            path,
        ),
        Judged::Differ(a, b) => at(l, path) == Some(a) && at(r, path) == Some(b) && !both_hold(a, b)
            && !json_eq(a, b, doubles),
    }
}

proof fn lemma_concat_contains(a: Seq<Found>, b: Seq<Found>, f: Found)
    ensures
        (a + b).contains(f) == (a.contains(f) || b.contains(f)),
{
    let s = a + b;
    if s.contains(f) {
        let i = choose|i: int| 0 <= i < s.len() && s[i] == f;
        if i < a.len() {
            assert(a[i] == f);
        } else {
            assert(b[i - a.len()] == f);
        }
    }
    if a.contains(f) {
        let i = choose|i: int| 0 <= i < a.len() && a[i] == f;
        assert(s[i] == f);
    }
    if b.contains(f) {
        let i = choose|i: int| 0 <= i < b.len() && b[i] == f;
        assert(s[i + a.len()] == f);
    }
}

proof fn lemma_lookup_at(e: Seq<(Seq<char>, Json)>, i: int)
    requires
        distinct(e),
        0 <= i < e.len(),
    ensures
        lookup(e, e[i].0) == Some(e[i].1),
{
    lemma_position_is(e, e[i].0, i);
}

proof fn lemma_lookup_from(e: Seq<(Seq<char>, Json)>, k: Seq<char>) -> (i: int)
    requires
        lookup(e, k) is Some,
    ensures
        0 <= i < e.len(),
        e[i].0 == k,
        lookup(e, k) == Some(e[i].1),
{
    crate::assoc::lemma_position(e, k, 0);
    crate::assoc::position(e, k, 0)->Some_0
}

/// One step more in front.
proof fn lemma_step(j: Json, loc: Place, s: Step, path: Seq<Step>)
    ensures
        at(j, seq![s] + path) == (match child(j, s) {
            Some(c) => at(c, path),
            None => None,
        }),
        place(loc, seq![s] + path) == place(behind(loc, s), path),
        path.len() > 0 ==> (seq![s] + path).drop_last() == seq![s] + path.drop_last(),
{
    let longer = seq![s] + path;
    assert(longer.skip(1) =~= path);
    if path.len() > 0 {
        assert(longer.drop_last() =~= seq![s] + path.drop_last());
    }
}

proof fn lemma_true_below(
    loc: Place,
    l: Json,
    r: Json,
    s: Step,
    path: Seq<Step>,
    f: Found,
    doubles: Doubles,
)
    requires
        child(l, s) is Some,
        child(r, s) is Some,
        is_true(behind(loc, s), child(l, s)->Some_0, child(r, s)->Some_0, path, f, doubles),
    ensures
        is_true(loc, l, r, seq![s] + path, f, doubles),
{
    lemma_step(l, loc, s, path);
    lemma_step(r, loc, s, path);
    if path.len() > 0 {
        lemma_step(l, loc, s, path.drop_last());
        lemma_step(r, loc, s, path.drop_last());
    }
}

/// A finding about what only one of two values has, one step away.
proof fn lemma_true_here(
    loc: Place,
    l: Json,
    r: Json,
    s: Step,
    v: Json,
    left: bool,
    f: Found,
    doubles: Doubles,
)
    requires
        both_hold(l, r),
        f.loc == behind(loc, s),
        left ==> child(l, s) == Some(v) && child(r, s) is None && f.verdict == Judged::OnlyLeft(v),
        !left ==> child(r, s) == Some(v) && child(l, s) is None && f.verdict == Judged::OnlyRight(
            v,
        ),
    ensures
        is_true(loc, l, r, seq![s], f, doubles),
{
    let none = Seq::<Step>::empty();
    assert(seq![s] + none =~= seq![s]);
    lemma_step(l, loc, s, none);
    lemma_step(r, loc, s, none);
    assert(seq![s].drop_last() =~= none);
}

proof fn lemma_missing_true(
    loc: Place,
    a: Seq<(Seq<char>, Json)>,
    b: Seq<(Seq<char>, Json)>,
    i: int,
    left: bool,
    f: Found,
) -> (k: int)
    requires
        0 <= i,
        missing(loc, a, b, i, left).contains(f),
    ensures
        0 <= k < a.len(),
        lookup(b, a[k].0) is None,
        f.loc == loc.push(a[k].0),
        f.verdict == if left {
            Judged::OnlyLeft(a[k].1)
        } else {
            Judged::OnlyRight(a[k].1)
        },
    decreases a.len() - i,
{
    if i >= a.len() {
        assert(false);
        0
    } else {
        let rest = missing(loc, a, b, i + 1, left);
        if rest.contains(f) {
            lemma_missing_true(loc, a, b, i + 1, left, f)
        } else {
            let verdict = if left {
                Judged::OnlyLeft(a[i].1)
            } else {
                Judged::OnlyRight(a[i].1)
            };
            lemma_concat_contains(seq![Found { loc: loc.push(a[i].0), verdict }], rest, f);
            i
        }
    }
}

proof fn lemma_common_true(
    loc: Place,
    a: Seq<(Seq<char>, Json)>,
    b: Seq<(Seq<char>, Json)>,
    i: int,
    f: Found,
    doubles: Doubles,
) -> (k: int)
    requires
        0 <= i,
        common(loc, a, b, i, doubles).contains(f),
    ensures
        0 <= k < a.len(),
        lookup(b, a[k].0) is Some,
        differences(loc.push(a[k].0), a[k].1, lookup(b, a[k].0)->Some_0, doubles).contains(f),
    decreases a.len() - i,
{
    if i >= a.len() {
        assert(false);
        0
    } else {
        let rest = common(loc, a, b, i + 1, doubles);
        if rest.contains(f) {
            lemma_common_true(loc, a, b, i + 1, f, doubles)
        } else {
            if let Some(v) = lookup(b, a[i].0) {
                lemma_concat_contains(differences(loc.push(a[i].0), a[i].1, v, doubles), rest, f);
            }
            i
        }
    }
}

proof fn lemma_index_loc(loc: Place, i: nat)
    ensures
        index_loc(loc, i as int) == behind(loc, Step::Index(i)),
{
    let index = seq!['['] + decimal(i) + seq![']'];
    if loc.len() > 0 {
        assert(loc.last() + index =~= loc.last() + seq!['['] + decimal(i) + seq![']']);
        assert(index_loc(loc, i as int) =~= behind(loc, Step::Index(i)));
    }
}

proof fn lemma_items_true(
    loc: Place,
    a: Seq<Json>,
    b: Seq<Json>,
    i: int,
    f: Found,
    doubles: Doubles,
) -> (k: int)
    requires
        0 <= i,
        item_differences(loc, a, b, i, doubles).contains(f),
    ensures
        0 <= k < a.len() || 0 <= k < b.len(),
        k >= b.len() ==> f == (Found {
            loc: index_loc(loc, k),
            verdict: Judged::OnlyLeft(a[k]),
        }),
        k >= a.len() ==> f == (Found {
            loc: index_loc(loc, k),
            verdict: Judged::OnlyRight(b[k]),
        }),
        0 <= k < a.len() && k < b.len() ==> differences(
            index_loc(loc, k),
            a[k],
            b[k],
            doubles,
        ).contains(f),
    decreases a.len() + b.len() - i,
{
    if i >= a.len() && i >= b.len() {
        assert(false);
        0
    } else {
        let rest = item_differences(loc, a, b, i + 1, doubles);
        if rest.contains(f) {
            lemma_items_true(loc, a, b, i + 1, f, doubles)
        } else {
            let here = index_loc(loc, i);
            let first = if i >= b.len() {
                seq![Found { loc: here, verdict: Judged::OnlyLeft(a[i]) }]
            } else if i >= a.len() {
                seq![Found { loc: here, verdict: Judged::OnlyRight(b[i]) }]
            } else {
                differences(here, a[i], b[i], doubles)
            };
            lemma_concat_contains(first, rest, f);
            i
        }
    }
}

/// Every finding of a diff is true: its location is that of a place in the documents, and there
/// they differ as it says.
pub proof fn findings_are_true(loc: Place, l: Json, r: Json, doubles: Doubles, f: Found)
    requires
        well_formed(l),
        well_formed(r),
        differences(loc, l, r, doubles).contains(f),
    ensures
        exists|path: Seq<Step>| is_true(loc, l, r, path, f, doubles),
    decreases l,
{
    match (l, r) {
        (Json::Object(a), Json::Object(b)) => {
            let x = missing(loc, a, b, 0, true);
            let y = missing(loc, b, a, 0, false);
            let z = common(loc, a, b, 0, doubles);
            lemma_concat_contains(x + y, z, f);
            lemma_concat_contains(x, y, f);
            if x.contains(f) {
                let k = lemma_missing_true(loc, a, b, 0, true, f);
                lemma_lookup_at(a, k);
                lemma_true_here(loc, l, r, Step::Key(a[k].0), a[k].1, true, f, doubles);
            } else if y.contains(f) {
                let k = lemma_missing_true(loc, b, a, 0, false, f);
                lemma_lookup_at(b, k);
                lemma_true_here(loc, l, r, Step::Key(b[k].0), b[k].1, false, f, doubles);
            } else {
                let k = lemma_common_true(loc, a, b, 0, f, doubles);
                let s = Step::Key(a[k].0);
                lemma_lookup_at(a, k);
                let n = lemma_lookup_from(b, a[k].0);
                let v = lookup(b, a[k].0)->Some_0;
                assert(well_formed(a[k].1) && well_formed(b[n].1));
                findings_are_true(loc.push(a[k].0), a[k].1, v, doubles, f);
                let path = choose|path: Seq<Step>|
                    is_true(loc.push(a[k].0), a[k].1, v, path, f, doubles);
                lemma_true_below(loc, l, r, s, path, f, doubles);
            }
        },
        (Json::Array(a), Json::Array(b)) => {
            let k = lemma_items_true(loc, a, b, 0, f, doubles);
            let s = Step::Index(k as nat);
            lemma_index_loc(loc, k as nat);
            if k >= b.len() {
                lemma_true_here(loc, l, r, s, a[k], true, f, doubles);
            } else if k >= a.len() {
                lemma_true_here(loc, l, r, s, b[k], false, f, doubles);
            } else {
                assert(well_formed(a[k]) && well_formed(b[k]));
                findings_are_true(index_loc(loc, k), a[k], b[k], doubles, f);
                let path = choose|path: Seq<Step>|
                    is_true(index_loc(loc, k), a[k], b[k], path, f, doubles);
                lemma_true_below(loc, l, r, s, path, f, doubles);
            }
        },
        _ => {
            let d = differences(loc, l, r, doubles);
            let i = choose|i: int| 0 <= i < d.len() && d[i] == f;
            assert(is_true(loc, l, r, Seq::empty(), f, doubles));
        },
    }
}

proof fn lemma_place_grows(loc: Place, path: Seq<Step>)
    ensures
        place(loc, path).len() >= loc.len(),
    decreases path.len(),
{
    if path.len() > 0 {
        lemma_place_grows(behind(loc, path[0]), path.skip(1));
    }
}

proof fn lemma_missing_all(
    loc: Place,
    a: Seq<(Seq<char>, Json)>,
    b: Seq<(Seq<char>, Json)>,
    i: int,
    left: bool,
    k: int,
)
    requires
        0 <= i <= k < a.len(),
        lookup(b, a[k].0) is None,
    ensures
        missing(loc, a, b, i, left).contains(
            Found {
                loc: loc.push(a[k].0),
                verdict: if left {
                    Judged::OnlyLeft(a[k].1)
                } else {
                    Judged::OnlyRight(a[k].1)
                },
            },
        ),
    decreases a.len() - i,
{
    let f = Found {
        loc: loc.push(a[k].0),
        verdict: if left {
            Judged::OnlyLeft(a[k].1)
        } else {
            Judged::OnlyRight(a[k].1)
        },
    };
    let rest = missing(loc, a, b, i + 1, left);
    if i == k {
        assert(seq![f][0] == f);
        lemma_concat_contains(seq![f], rest, f);
    } else {
        lemma_missing_all(loc, a, b, i + 1, left, k);
        if lookup(b, a[i].0) is None {
            let first = missing(loc, a, b, i, left).take(1);
            assert(missing(loc, a, b, i, left) =~= first + rest);
            lemma_concat_contains(first, rest, f);
        }
    }
}

proof fn lemma_common_all(
    loc: Place,
    a: Seq<(Seq<char>, Json)>,
    b: Seq<(Seq<char>, Json)>,
    i: int,
    k: int,
    f: Found,
    doubles: Doubles,
)
    requires
        0 <= i <= k < a.len(),
        lookup(b, a[k].0) is Some,
        differences(loc.push(a[k].0), a[k].1, lookup(b, a[k].0)->Some_0, doubles).contains(f),
    ensures
        common(loc, a, b, i, doubles).contains(f),
    decreases a.len() - i,
{
    let rest = common(loc, a, b, i + 1, doubles);
    if i < k {
        lemma_common_all(loc, a, b, i + 1, k, f, doubles);
    }
    if let Some(v) = lookup(b, a[i].0) {
        lemma_concat_contains(differences(loc.push(a[i].0), a[i].1, v, doubles), rest, f);
    }
}

proof fn lemma_items_all(
    loc: Place,
    a: Seq<Json>,
    b: Seq<Json>,
    i: int,
    k: int,
    f: Found,
    doubles: Doubles,
)
    requires
        0 <= i <= k,
        k < a.len() || k < b.len(),
        k >= b.len() ==> f == (Found {
            loc: index_loc(loc, k),
            verdict: Judged::OnlyLeft(a[k]),
        }),
        k >= a.len() ==> f == (Found {
            loc: index_loc(loc, k),
            verdict: Judged::OnlyRight(b[k]),
        }),
        k < a.len() && k < b.len() ==> differences(
            index_loc(loc, k),
            a[k],
            b[k],
            doubles,
        ).contains(f),
    ensures
        item_differences(loc, a, b, i, doubles).contains(f),
    decreases k - i,
{
    let rest = item_differences(loc, a, b, i + 1, doubles);
    if i < k {
        lemma_items_all(loc, a, b, i + 1, k, f, doubles);
    }
    let here = index_loc(loc, i);
    let first = if i >= b.len() {
        seq![Found { loc: here, verdict: Judged::OnlyLeft(a[i]) }]
    } else if i >= a.len() {
        seq![Found { loc: here, verdict: Judged::OnlyRight(b[i]) }]
    } else {
        differences(here, a[i], b[i], doubles)
    };
    if i == k && (k >= a.len() || k >= b.len()) {
        assert(first[0] == f);
    }
    lemma_concat_contains(first, rest, f);
}

/// What differs inside two values that both have it differs between the values.
proof fn lemma_found_below(loc: Place, l: Json, r: Json, s: Step, f: Found, doubles: Doubles)
    requires
        well_formed(l),
        well_formed(r),
        loc.len() <= MAX_LOCATION,
        child(l, s) is Some,
        child(r, s) is Some,
        differences(behind(loc, s), child(l, s)->Some_0, child(r, s)->Some_0, doubles).contains(f),
    ensures
        differences(loc, l, r, doubles).contains(f),
        well_formed(child(l, s)->Some_0),
        well_formed(child(r, s)->Some_0),
{
    match (l, r, s) {
        (Json::Object(a), Json::Object(b), Step::Key(key)) => {
            let k = lemma_lookup_from(a, key);
            let n = lemma_lookup_from(b, key);
            assert(well_formed(a[k].1) && well_formed(b[n].1));
            lemma_common_all(loc, a, b, 0, k, f, doubles);
            let x = missing(loc, a, b, 0, true);
            let y = missing(loc, b, a, 0, false);
            lemma_concat_contains(x + y, common(loc, a, b, 0, doubles), f);
        },
        (Json::Array(a), Json::Array(b), Step::Index(i)) => {
            lemma_index_loc(loc, i);
            assert(well_formed(a[i as int]) && well_formed(b[i as int]));
            lemma_items_all(loc, a, b, 0, i as int, f, doubles);
        },
        _ => {},
    }
}

proof fn lemma_children_well_formed(j: Json, s: Step)
    requires
        well_formed(j),
        child(j, s) is Some,
    ensures
        well_formed(child(j, s)->Some_0),
{
    match (j, s) {
        (Json::Object(e), Step::Key(key)) => {
            let k = lemma_lookup_from(e, key);
            assert(well_formed(e[k].1));
        },
        (Json::Array(a), Step::Index(i)) => {
            assert(well_formed(a[i as int]));
        },
        _ => {},
    }
}

/// What lies in both of two documents at the same place, and is not the same, is found there,
/// unless it is two objects or two arrays: then it is found inside.
pub proof fn what_differs_is_found(
    loc: Place,
    l: Json,
    r: Json,
    path: Seq<Step>,
    doubles: Doubles,
)
    requires
        well_formed(l),
        well_formed(r),
        at(l, path) is Some,
        at(r, path) is Some,
        !both_hold(at(l, path)->Some_0, at(r, path)->Some_0),
        !json_eq(at(l, path)->Some_0, at(r, path)->Some_0, doubles),
        place(loc, path).len() <= MAX_LOCATION,
    ensures
        differences(loc, l, r, doubles).contains(
            Found {
                loc: place(loc, path),
                verdict: Judged::Differ(at(l, path)->Some_0, at(r, path)->Some_0),
            },
        ),
    decreases path.len(),
{
    let f = Found {
        loc: place(loc, path),
        verdict: Judged::Differ(at(l, path)->Some_0, at(r, path)->Some_0),
    };
    lemma_place_grows(loc, path);
    if path.len() == 0 {
        assert(differences(loc, l, r, doubles)[0] == f);
    } else {
        let s = path[0];
        lemma_children_well_formed(l, s);
        lemma_children_well_formed(r, s);
        what_differs_is_found(
            behind(loc, s),
            child(l, s)->Some_0,
            child(r, s)->Some_0,
            path.skip(1),
            doubles,
        );
        lemma_found_below(loc, l, r, s, f, doubles);
    }
}

/// What lies in one of two documents, and not in the other, is found, where both have what it
/// lies in.
pub proof fn what_is_missing_is_found(
    loc: Place,
    l: Json,
    r: Json,
    path: Seq<Step>,
    doubles: Doubles,
)
    requires
        well_formed(l),
        well_formed(r),
        parents(l, r, path),
        at(l, path) is Some != at(r, path) is Some,
        place(loc, path.drop_last()).len() <= MAX_LOCATION,
    ensures
        differences(loc, l, r, doubles).contains(
            Found {
                loc: place(loc, path),
                verdict: match at(l, path) {
                    Some(v) => Judged::OnlyLeft(v),
                    None => Judged::OnlyRight(at(r, path)->Some_0),
                },
            },
        ),
    decreases path.len(),
{
    let f = Found {
        loc: place(loc, path),
        verdict: match at(l, path) {
            Some(v) => Judged::OnlyLeft(v),
            None => Judged::OnlyRight(at(r, path)->Some_0),
        },
    };
    let s = path[0];
    let rest = path.skip(1);
    lemma_place_grows(loc, path.drop_last());
    if path.len() == 1 {
        assert(path =~= seq![s] + Seq::<Step>::empty());
        assert(path.drop_last() =~= Seq::<Step>::empty());
        lemma_step(l, loc, s, Seq::empty());
        lemma_step(r, loc, s, Seq::empty());
        match (l, r, s) {
            (Json::Object(a), Json::Object(b), Step::Key(key)) => {
                let x = missing(loc, a, b, 0, true);
                let y = missing(loc, b, a, 0, false);
                if lookup(a, key) is Some {
                    let k = lemma_lookup_from(a, key);
                    lemma_missing_all(loc, a, b, 0, true, k);
                } else {
                    let k = lemma_lookup_from(b, key);
                    lemma_missing_all(loc, b, a, 0, false, k);
                }
                lemma_concat_contains(x, y, f);
                lemma_concat_contains(x + y, common(loc, a, b, 0, doubles), f);
            },
            (Json::Array(a), Json::Array(b), Step::Index(i)) => {
                lemma_index_loc(loc, i);
                lemma_items_all(loc, a, b, 0, i as int, f, doubles);
            },
            _ => {},
        }
    } else {
        assert(path.drop_last()[0] == s);
        assert(path.drop_last().skip(1) =~= rest.drop_last());
        lemma_children_well_formed(l, s);
        lemma_children_well_formed(r, s);
        what_is_missing_is_found(
            behind(loc, s),
            child(l, s)->Some_0,
            child(r, s)->Some_0,
            rest,
            doubles,
        );
        lemma_found_below(loc, l, r, s, f, doubles);
    }
}

/// The text of a location is made of all its parts, in order, with points between them.
pub proof fn location_texts_name_every_part(loc: Place, k: Seq<char>)
    ensures
        loc_text(seq![]) == seq!['$', '.'],
        loc_text(seq![k]) == seq!['$', '.'] + k,
        loc.len() > 0 ==> loc_text(loc.push(k)) == loc_text(loc) + seq!['.'] + k,
{
    assert(joined(seq![k], 0) =~= k);
    assert(loc_text(seq![]) =~= seq!['$', '.']);
    if loc.len() > 0 {
        lemma_joined_push(loc, k, 0);
        assert(loc_text(loc.push(k)) =~= loc_text(loc) + seq!['.'] + k);
    }
}

proof fn lemma_joined_push(loc: Place, k: Seq<char>, i: int)
    requires
        0 <= i < loc.len(),
    ensures
        joined(loc.push(k), i) == joined(loc, i) + seq!['.'] + k,
    decreases loc.len() - i,
{
    let longer = loc.push(k);
    assert(longer[i] == loc[i]);
    if i + 1 < loc.len() {
        lemma_joined_push(loc, k, i + 1);
    } else {
        assert(joined(longer, i + 1) =~= k);
    }
    assert(joined(longer, i) =~= joined(loc, i) + seq!['.'] + k);
}

proof fn lemma_joined_apart(a: Place, b: Place, i: int)
    requires
        0 <= i < a.len(),
        i < b.len(),
        forall|k: int| 0 <= k < a.len() ==> !(#[trigger] a[k]).contains('.'),
        forall|k: int| 0 <= k < b.len() ==> !(#[trigger] b[k]).contains('.'),
        joined(a, i) == joined(b, i),
    ensures
        a.len() == b.len(),
        forall|k: int| i <= k < a.len() ==> #[trigger] a[k] == b[k],
    decreases a.len() - i,
{
    let (x, y) = (a[i], b[i]);
    let s = joined(a, i);
    assert forall|n: int| 0 <= n < x.len() implies s[n] == x[n] && s[n] != '.' by {
        assert(x.contains(x[n]));
    }
    assert forall|n: int| 0 <= n < y.len() implies s[n] == y[n] && s[n] != '.' by {
        assert(y.contains(y[n]));
    }
    if i + 1 < a.len() {
        assert(s[x.len() as int] == '.');
    }
    if i + 1 < b.len() {
        assert(s[y.len() as int] == '.');
    }
    assert(x.len() == y.len());
    assert(x =~= y);
    if i + 1 < a.len() && i + 1 < b.len() {
        assert(joined(a, i + 1) =~= s.skip(x.len() as int + 1));
        assert(joined(b, i + 1) =~= s.skip(x.len() as int + 1));
        lemma_joined_apart(a, b, i + 1);
    }
}

/// Different locations have different texts, where keys have no points in them.
pub proof fn location_texts_tell_locations_apart(a: Place, b: Place)
    requires
        a.len() > 0,
        b.len() > 0,
        forall|k: int| 0 <= k < a.len() ==> !(#[trigger] a[k]).contains('.'),
        forall|k: int| 0 <= k < b.len() ==> !(#[trigger] b[k]).contains('.'),
        loc_text(a) == loc_text(b),
    ensures
        a == b,
{
    assert(joined(a, 0) =~= loc_text(a).skip(2));
    assert(joined(b, 0) =~= loc_text(b).skip(2));
    lemma_joined_apart(a, b, 0);
    assert(a =~= b);
}

/// A report tells all findings, one after the other. Each begins with where it is, and tells
/// what is there: in the one document that has it, or in both.
pub proof fn reports_tell_every_finding(s: Seq<Found>, f: Found)
    ensures
        report(seq![], 0).len() == 0,
        report(s.push(f), 0) == report(s, 0) + report(seq![f], 0),
        loc_text(f.loc).is_prefix_of(report(seq![f], 0)),
        report(seq![f], 0) == loc_text(f.loc) + match f.verdict {
            Judged::OnlyLeft(v) => ": "@ + ("only in left document:\n\t"@ + text(v) + "\n\n"@),
            Judged::OnlyRight(v) => ": "@ + ("only in right document:\n\t"@ + text(v) + "\n\n"@),
            Judged::Differ(l, r) => ": "@ + ("values differ:\n\tleft:\n\t\t"@ + text(l)
                + "\n\tright:\n\t\t"@ + text(r) + "\n\n"@),
        },
{
    lemma_report_push(s, f, 0);
    let one = report(seq![f], 0);
    let place = loc_text(f.loc);
    let told = match f.verdict {
        Judged::OnlyLeft(v) => "only in left document:\n\t"@ + text(v) + "\n\n"@,
        Judged::OnlyRight(v) => "only in right document:\n\t"@ + text(v) + "\n\n"@,
        Judged::Differ(l, r) => "values differ:\n\tleft:\n\t\t"@ + text(l)
            + "\n\tright:\n\t\t"@ + text(r) + "\n\n"@,
    };
    assert(report(seq![f], 1) =~= seq![]);
    assert(one == place + ": "@ + told + report(seq![f], 1));
    assert(one =~= place + (": "@ + told));
    assert(one.subrange(0, place.len() as int) =~= place);
}

proof fn lemma_report_push(s: Seq<Found>, f: Found, i: int)
    requires
        0 <= i <= s.len(),
    ensures
        report(s.push(f), i) == report(s, i) + report(seq![f], 0),
    decreases s.len() - i,
{
    let longer = s.push(f);
    if i < s.len() {
        lemma_report_push(s, f, i + 1);
        assert(longer[i] == s[i]);
        assert(report(longer, i) =~= report(s, i) + report(seq![f], 0));
    } else {
        assert(report(longer, i + 1) =~= seq![]);
        assert(report(seq![f], 1) =~= seq![]);
        assert(longer[i] == f && seq![f][0] == f);
        assert(report(longer, i) =~= report(s, i) + report(seq![f], 0));
    }
}

proof fn lemma_trimmed_nonempty(s: Seq<char>)
    requires
        s.len() > 0,
        !is_white_space(s[0]),
    ensures
        trimmed(s).len() > 0,
{
    assert(trimmed_start(s) == s);
    lemma_trimmed_end_keeps(s);
}

proof fn lemma_trimmed_end_keeps(s: Seq<char>)
    requires
        s.len() > 0,
        !is_white_space(s[0]),
    ensures
        trimmed_end(s).len() > 0,
    decreases s.len(),
{
    if is_white_space(s.last()) {
        assert(s.len() > 1);
        lemma_trimmed_end_keeps(s.drop_last());
    }
}

/// Comparing documents gives no report if, and only if, they are the same, as far as a diff
/// looks; and a report tells at least where they differ first.
pub proof fn only_different_documents_are_reported(l: Json, r: Json, doubles: Doubles)
    requires
        well_formed(l),
        well_formed(r),
        within_reach(l, 0),
    ensures
        reported(l, r, doubles) is None <==> json_eq(l, r, doubles),
        reported(l, r, doubles) matches Some(t) ==> t == report(
            ordered(differences(seq![], l, r, doubles)),
            0,
        ),
{
    let d = differences(seq![], l, r, doubles);
    let s = ordered(d);
    let t = report(s, 0);
    diff_is_ordered(d);
    assert(s.to_multiset().len() == d.to_multiset().len());
    s.to_multiset_ensures();
    d.to_multiset_ensures();
    if json_eq(l, r, doubles) {
        equal_values_do_not_differ(seq![], l, r, doubles);
        assert(t =~= seq![]);
    } else {
        if d.len() == 0 {
            assert(d =~= seq![]);
            values_that_do_not_differ_are_equal(seq![], l, r, doubles);
        }
        assert(t[0] == '$');
        lemma_trimmed_nonempty(t);
    }
}

/// Locations are in order by the first character in which their texts differ; a text is in front
/// of those that go on behind it.
pub proof fn texts_are_ordered_like_words(a: Seq<char>, b: Seq<char>, i: int)
    requires
        0 <= i <= a.len(),
        i <= b.len(),
        a.take(i) == b.take(i),
    ensures
        i == a.len() ==> text_le(a, b, 0),
        i == b.len() && i < a.len() ==> !text_le(a, b, 0),
        i < a.len() && i < b.len() && a[i] < b[i] ==> text_le(a, b, 0),
        i < a.len() && i < b.len() && a[i] > b[i] ==> !text_le(a, b, 0),
{
    lemma_text_order(a, b, 0, i);
}

proof fn lemma_text_order(a: Seq<char>, b: Seq<char>, from: int, i: int)
    requires
        0 <= from <= i <= a.len(),
        i <= b.len(),
        a.take(i) == b.take(i),
    ensures
        text_le(a, b, from) == text_le(a, b, i),
    decreases i - from,
{
    if from < i {
        assert(a.take(i)[from] == a[from] && b.take(i)[from] == b[from]);
        lemma_text_order(a, b, from + 1, i);
    }
}

} // verus!
