//! A very simple JSON diffing implementation. Does not produce minimal diffs.
use crate::assoc::lookup;
use crate::decimal::{decimal, push_decimal};
use crate::json::equality::{agrees, answers, number_eq, Doubles};
use crate::json::print::text;
use crate::json::value::{lemma_array_view, models, Json, Object, Value};
use crate::text::{chars_of, str_eq};
use vstd::prelude::*;
use vstd::string::StringExecFns;

verus! {

/// Locations longer than this are not looked into.
pub const MAX_LOCATION: usize = 256;

/// A diff between two JSON documents.
#[derive(Debug)]
pub struct Diff<'doc> {
    pub findings: Vec<Finding<'doc>>,
}

/// Something that differs.
#[derive(Debug)]
pub struct Finding<'doc> {
    pub loc: Loc,
    pub verdict: Verdict<'doc>,
}

/// A location in a JSON document (given by keys in objects and indexes in arrays).
#[derive(Debug)]
pub struct Loc(pub Vec<String>);

/// How it differs.
#[derive(Debug)]
pub enum Verdict<'doc> {
    OnlyLeft(&'doc Value),
    OnlyRight(&'doc Value),
    Differ(&'doc Value, &'doc Value),
}

/// A location, mathematically.
pub type Place = Seq<Seq<char>>;

/// What a [`Verdict`] is, mathematically.
#[verifier::ext_equal]
pub enum Judged {
    OnlyLeft(Json),
    OnlyRight(Json),
    Differ(Json, Json),
}

/// What a [`Finding`] is, mathematically.
#[verifier::ext_equal]
pub struct Found {
    pub loc: Place,
    pub verdict: Judged,
}

impl View for Loc {
    type V = Place;

    open spec fn view(&self) -> Place {
        Seq::new(self.0@.len(), |i: int| self.0@[i]@)
    }
}

impl<'doc> View for Verdict<'doc> {
    type V = Judged;

    open spec fn view(&self) -> Judged {
        match *self {
            Verdict::OnlyLeft(v) => Judged::OnlyLeft(v@),
            Verdict::OnlyRight(v) => Judged::OnlyRight(v@),
            Verdict::Differ(l, r) => Judged::Differ(l@, r@),
        }
    }
}

impl<'doc> View for Finding<'doc> {
    type V = Found;

    open spec fn view(&self) -> Found {
        Found { loc: self.loc@, verdict: self.verdict@ }
    }
}

/// The findings of a list.
pub open spec fn all_found(f: Seq<Finding>) -> Seq<Found> {
    Seq::new(f.len(), |i: int| f[i]@)
}

impl<'doc> View for Diff<'doc> {
    type V = Seq<Found>;

    open spec fn view(&self) -> Seq<Found> {
        all_found(self.findings@)
    }
}

/// Where the `i`-th item of an array lies: array indexing notation is attached to the
/// location of the array, unless that is the top level.
pub open spec fn index_loc(loc: Place, i: int) -> Place {
    let index = seq!['['] + decimal(i as nat) + seq![']'];
    if loc.len() == 0 {
        seq![index]
    } else {
        loc.update(loc.len() - 1, loc.last() + index)
    }
}

/// The members of `a` from the `i`-th on whose keys `b` does not have.
pub open spec fn missing(
    loc: Place,
    a: Seq<(Seq<char>, Json)>,
    b: Seq<(Seq<char>, Json)>,
    i: int,
    left: bool,
) -> Seq<Found>
    decreases a.len() - i,
{
    if i >= a.len() {
        seq![]
    } else {
        let rest = missing(loc, a, b, i + 1, left);
        if lookup(b, a[i].0) is Some {
            rest
        } else {
            let verdict = if left {
                Judged::OnlyLeft(a[i].1)
            } else {
                Judged::OnlyRight(a[i].1)
            };
            seq![Found { loc: loc.push(a[i].0), verdict }] + rest
        }
    }
}

/// What differs in the members that both objects have, from the `i`-th of `a` on.
pub open spec fn common(
    loc: Place,
    a: Seq<(Seq<char>, Json)>,
    b: Seq<(Seq<char>, Json)>,
    i: int,
    doubles: Doubles,
) -> Seq<Found>
    decreases a, a.len() - i,
{
    if i < 0 || i >= a.len() {
        seq![]
    } else {
        let rest = common(loc, a, b, i + 1, doubles);
        match lookup(b, a[i].0) {
            Some(v) => differences(loc.push(a[i].0), a[i].1, v, doubles) + rest,
            None => rest,
        }
    }
}

/// What differs in the items of two arrays that both have, from the `i`-th on; then the
/// items that only one of them has.
pub open spec fn item_differences(
    loc: Place,
    a: Seq<Json>,
    b: Seq<Json>,
    i: int,
    doubles: Doubles,
) -> Seq<Found>
    decreases a, a.len() + b.len() - i,
{
    let here = index_loc(loc, i);
    if i < 0 || (i >= a.len() && i >= b.len()) {
        seq![]
    } else if i >= b.len() {
        seq![Found { loc: here, verdict: Judged::OnlyLeft(a[i]) }] + item_differences(
            loc,
            a,
            b,
            i + 1,
            doubles,
        )
    } else if i >= a.len() {
        seq![Found { loc: here, verdict: Judged::OnlyRight(b[i]) }] + item_differences(
            loc,
            a,
            b,
            i + 1,
            doubles,
        )
    } else {
        differences(here, a[i], b[i], doubles) + item_differences(loc, a, b, i + 1, doubles)
    }
}

/// What differs between two values that lie at `loc`.
pub open spec fn differences(loc: Place, l: Json, r: Json, doubles: Doubles) -> Seq<Found>
    decreases l, 0int,
{
    if loc.len() > MAX_LOCATION {
        seq![]
    } else {
        match (l, r) {
            (Json::Object(a), Json::Object(b)) => missing(loc, a, b, 0, true) + missing(
                loc,
                b,
                a,
                0,
                false,
            ) + common(loc, a, b, 0, doubles),
            (Json::Array(a), Json::Array(b)) => item_differences(loc, a, b, 0, doubles),
            _ => {
                let same = match (l, r) {
                    (Json::Number(a), Json::Number(b)) => number_eq(a, b, doubles(a, b)),
                    (Json::String(a), Json::String(b)) => a == b,
                    (Json::Bool(a), Json::Bool(b)) => a == b,
                    (Json::Null, Json::Null) => true,
                    _ => false,
                };
                if same {
                    seq![]
                } else {
                    seq![Found { loc, verdict: Judged::Differ(l, r) }]
                }
            },
        }
    }
}

/// Texts joined by points.
pub open spec fn joined(loc: Place, i: int) -> Seq<char>
    decreases loc.len() - i,
{
    if i >= loc.len() {
        seq![]
    } else if i + 1 == loc.len() {
        loc[i]
    } else {
        loc[i] + seq!['.'] + joined(loc, i + 1)
    }
}

/// A JSON pointer-like representation of a location.
pub open spec fn loc_text(loc: Place) -> Seq<char> {
    seq!['$', '.'] + joined(loc, 0)
}

/// Whether `a` comes before `b`, or is the same, by the numbers of their characters.
pub open spec fn text_le(a: Seq<char>, b: Seq<char>, i: int) -> bool
    decreases a.len() - i,
{
    if i >= a.len() {
        true
    } else if i >= b.len() {
        false
    } else if a[i] != b[i] {
        a[i] < b[i]
    } else {
        text_le(a, b, i + 1)
    }
}

pub open spec fn found_le(a: Found, b: Found) -> bool {
    text_le(loc_text(a.loc), loc_text(b.loc), 0)
}

/// The place for `f` among findings in order, looking from `i` on: in front of the first
/// that comes behind it.
pub open spec fn slot(s: Seq<Found>, f: Found, i: int) -> int
    decreases s.len() - i,
{
    if i >= s.len() {
        s.len() as int
    } else if !found_le(s[i], f) {
        i
    } else {
        slot(s, f, i + 1)
    }
}

/// Findings in the order of their locations; those at the same location stay in the order
/// in which they came.
pub open spec fn ordered(s: Seq<Found>) -> Seq<Found>
    decreases s.len(),
{
    if s.len() == 0 {
        seq![]
    } else {
        let front = ordered(s.drop_last());
        front.insert(slot(front, s.last(), 0), s.last())
    }
}

/// Pretty-printed findings from the `i`-th on.
pub open spec fn report(s: Seq<Found>, i: int) -> Seq<char>
    decreases s.len() - i,
{
    if i >= s.len() {
        seq![]
    } else {
        loc_text(s[i].loc) + ": "@ + (match s[i].verdict {
            Judged::OnlyLeft(v) => "only in left document:\n\t"@ + text(v) + "\n\n"@,
            Judged::OnlyRight(v) => "only in right document:\n\t"@ + text(v) + "\n\n"@,
            Judged::Differ(l, r) => "values differ:\n\tleft:\n\t\t"@ + text(l)
                + "\n\tright:\n\t\t"@ + text(r) + "\n\n"@,
        }) + report(s, i + 1)
    }
}

impl Loc {
    fn copy(&self) -> (l: Loc)
        ensures
            l@ == self@,
    {
        let mut parts: Vec<String> = Vec::new();
        let mut i: usize = 0;
        while i < self.0.len()
            invariant
                i <= self.0@.len(),
                parts@.len() == i,
                forall|k: int| 0 <= k < i ==> (#[trigger] parts@[k])@ == self.0@[k]@,
            decreases self.0@.len() - i,
        {
            parts.push(self.0[i].clone());
            i = i + 1;
        }
        let l = Loc(parts);
        assert(l@ =~= self@);
        l
    }

    fn with(&self, tail: &str) -> (l: Loc)
        ensures
            l@ == self@.push(tail@),
    {
        let mut l: Loc = self.copy();
        l.0.push(tail.to_owned());
        assert(l@ =~= self@.push(tail@));
        l
    }

    /// The location of the `i`-th item of the array at this location.
    fn at_index(&self, i: usize) -> (l: Loc)
        ensures
            l@ == index_loc(self@, i as int),
    {
        let mut l: Loc = self.copy();
        let mut tail: String = match l.0.pop() {
            Some(t) => t,
            None => String::new(),
        };
        let ghost before = tail@;
        tail.push('[');
        push_decimal(&mut tail, i as u64);
        tail.push(']');
        proof {
            let index = seq!['['] + decimal(i as nat) + seq![']'];
            assert(tail@ =~= before + index);
            if self@.len() == 0 {
                assert(tail@ =~= index);
            } else {
                assert(before == self@.last());
            }
        }
        l.0.push(tail);
        assert(l@ =~= index_loc(self@, i as int));
        l
    }

    /// Pretty-print to a JSON pointer-like representation.
    pub fn to_string(&self) -> (s: String)
        ensures
            s@ == loc_text(self@),
    {
        let mut s: String = String::new();
        s.push('$');
        s.push('.');
        assert(s@ =~= seq!['$', '.']);
        let mut i: usize = 0;
        let ghost whole = loc_text(self@);
        while i < self.0.len()
            invariant
                i <= self.0@.len(),
                whole == loc_text(self@),
                whole == s@ + joined(self@, i as int),
            decreases self.0@.len() - i,
        {
            let ghost before = s@;
            s.append(self.0[i].as_str());
            if self.0.len() - i > 1 {
                s.push('.');
                assert(before + (self@[i as int] + seq!['.'] + joined(self@, i + 1)) =~= s@
                    + joined(self@, i + 1));
            } else {
                assert(before + self@[i as int] =~= s@ + joined(self@, i + 1));
            }
            i = i + 1;
        }
        assert(s@ =~= whole);
        s
    }
}

/// Whether `a` comes before `b`, or is the same.
fn comes_first(a: &str, b: &str) -> (r: bool)
    ensures
        r == text_le(a@, b@, 0),
{
    let x: Vec<char> = chars_of(a);
    let y: Vec<char> = chars_of(b);
    let mut i: usize = 0;
    while i < x.len() && i < y.len()
        invariant
            x@ == a@,
            y@ == b@,
            i <= x@.len(),
            i <= y@.len(),
            text_le(a@, b@, 0) == text_le(a@, b@, i as int),
        decreases x@.len() - i,
    {
        if x[i] != y[i] {
            return x[i] < y[i];
        }
        i = i + 1;
    }
    i >= x.len()
}

/// Recursive backing implementation.
fn diff_rec<'doc, F: Fn(&str, &str) -> Option<bool>>(
    location: &Loc,
    left: &'doc Value,
    right: &'doc Value,
    doubles: &F,
    findings: &mut Vec<Finding<'doc>>,
)
    requires
        answers(*doubles),
    ensures
        forall|d: Doubles| #[trigger]
            agrees(*doubles, d) ==> all_found(final(findings)@) == all_found(old(findings)@)
                + differences(location@, left@, right@, d),
    decreases left,
{
    let ghost before = all_found(findings@);
    if location.0.len() > MAX_LOCATION {
        // Location length is recursion depth
        assert(all_found(findings@) =~= before + seq![]);
        return;
    }
    match (left, right) {
        (Value::Object(l), Value::Object(r)) => {
            diff_missing(location, l, r, true, findings);
            diff_missing(location, r, l, false, findings);
            let ghost outer = all_found(findings@);
            let n: usize = l.len();
            let mut i: usize = 0;
            proof {
                assert forall|d: Doubles| #[trigger] agrees(*doubles, d) implies outer + common(
                    location@,
                    l@,
                    r@,
                    0,
                    d,
                ) == all_found(findings@) + common(location@, l@, r@, i as int, d) by {}
            }
            while i < n
                invariant
                    answers(*doubles),
                    n == l@.len(),
                    i <= n,
                    decreases_to!(*left => *l),
                    forall|d: Doubles| #[trigger]
                        agrees(*doubles, d) ==> outer + common(location@, l@, r@, 0, d)
                            == all_found(findings@) + common(location@, l@, r@, i as int, d),
                decreases n - i,
            {
                let ghost start = all_found(findings@);
                let key: &str = l.key_at(i).as_str();
                match r.get(key) {
                    Some(v) => {
                        let loc: Loc = location.with(key);
                        diff_rec(&loc, l.value_at(i), v, doubles, findings);
                        proof {
                            assert forall|d: Doubles| #[trigger]
                                agrees(*doubles, d) implies outer + common(
                                location@,
                                l@,
                                r@,
                                0,
                                d,
                            ) == all_found(findings@) + common(location@, l@, r@, i + 1, d) by {
                                let here = differences(loc@, l@[i as int].1, v@, d);
                                let rest = common(location@, l@, r@, i + 1, d);
                                assert(start + (here + rest) =~= start + here + rest);
                            }
                        }
                    },
                    None => {},
                }
                i = i + 1;
            }
            proof {
                assert forall|d: Doubles| #[trigger] agrees(*doubles, d) implies all_found(
                    findings@,
                ) == before + differences(location@, left@, right@, d) by {
                    let x = missing(location@, l@, r@, 0, true);
                    let y = missing(location@, r@, l@, 0, false);
                    let z = common(location@, l@, r@, 0, d);
                    assert(all_found(findings@) + Seq::<Found>::empty() =~= all_found(findings@));
                    assert(before + x + y + z =~= before + (x + y + z));
                }
            }
        },
        (Value::Array(l), Value::Array(r)) => {
            proof {
                lemma_array_view(*l);
                lemma_array_view(*r);
            }
            let ghost a = models(l@);
            let ghost b = models(r@);
            let mut i: usize = 0;
            while i < l.len() || i < r.len()
                invariant
                    answers(*doubles),
                    a == models(l@),
                    b == models(r@),
                    i <= l@.len() || i <= r@.len(),
                    decreases_to!(*left => *l),
                    forall|d: Doubles| #[trigger]
                        agrees(*doubles, d) ==> before + item_differences(location@, a, b, 0, d)
                            == all_found(findings@) + item_differences(location@, a, b, i as int, d),
                decreases l@.len() + r@.len() - i,
            {
                let ghost start = findings@;
                let loc: Loc = location.at_index(i);
                if i >= r.len() {
                    findings.push(Finding { loc, verdict: Verdict::OnlyLeft(&l[i]) });
                } else if i >= l.len() {
                    findings.push(Finding { loc, verdict: Verdict::OnlyRight(&r[i]) });
                } else {
                    assert(decreases_to!(*l => l@[i as int]));
                    diff_rec(&loc, &l[i], &r[i], doubles, findings);
                }
                proof {
                    assert forall|d: Doubles| #[trigger] agrees(*doubles, d) implies before
                        + item_differences(location@, a, b, 0, d) == all_found(findings@)
                        + item_differences(location@, a, b, i + 1, d) by {
                        let rest = item_differences(location@, a, b, i + 1, d);
                        let here = if i >= b.len() {
                            seq![Found { loc: loc@, verdict: Judged::OnlyLeft(a[i as int]) }]
                        } else if i >= a.len() {
                            seq![Found { loc: loc@, verdict: Judged::OnlyRight(b[i as int]) }]
                        } else {
                            differences(loc@, a[i as int], b[i as int], d)
                        };
                        assert(all_found(findings@) =~= all_found(start) + here);
                        assert(all_found(start) + (here + rest) =~= all_found(start) + here + rest);
                    }
                }
                i = i + 1;
            }
            proof {
                assert forall|d: Doubles| #[trigger] agrees(*doubles, d) implies all_found(
                    findings@,
                ) == before + differences(location@, left@, right@, d) by {
                    assert(all_found(findings@) + Seq::<Found>::empty() =~= all_found(findings@));
                }
            }
        },
        _ => {
            let same: bool = match (left, right) {
                (Value::Number(l), Value::Number(r)) => {
                    let verdict: Option<bool> = doubles(l.0.as_str(), r.0.as_str());
                    l.eq_given(r, verdict)
                },
                (Value::String(l), Value::String(r)) => str_eq(l.as_str(), r.as_str()),
                (Value::Bool(l), Value::Bool(r)) => *l == *r,
                (Value::Null, Value::Null) => true,  // always identical
                _ => false,  // Different types: never equal
            };
            let ghost start = findings@;
            if !same {
                findings.push(
                    Finding { loc: location.copy(), verdict: Verdict::Differ(left, right) },
                );
            }
            proof {
                assert forall|d: Doubles| #[trigger] agrees(*doubles, d) implies all_found(
                    findings@,
                ) == before + differences(location@, left@, right@, d) by {
                    if same {
                        assert(all_found(findings@) =~= before + Seq::<Found>::empty());
                    } else {
                        assert(all_found(findings@) =~= before + seq![
                            Found { loc: location@, verdict: Judged::Differ(left@, right@) },
                        ]);
                    }
                }
            }
        },
    }
}

/// Reports the members of `a` whose keys `b` does not have.
fn diff_missing<'doc>(
    location: &Loc,
    a: &'doc Object,
    b: &'doc Object,
    left: bool,
    findings: &mut Vec<Finding<'doc>>,
)
    ensures
        all_found(final(findings)@) == all_found(old(findings)@) + missing(
            location@,
            a@,
            b@,
            0,
            left,
        ),
{
    let ghost before = all_found(findings@);
    let n: usize = a.len();
    let mut i: usize = 0;
    while i < n
        invariant
            n == a@.len(),
            i <= n,
            before + missing(location@, a@, b@, 0, left) == all_found(findings@) + missing(
                location@,
                a@,
                b@,
                i as int,
                left,
            ),
        decreases n - i,
    {
        let ghost start = findings@;
        let key: &str = a.key_at(i).as_str();
        if !b.contains_key(key) {
            let verdict: Verdict<'doc> = if left {
                Verdict::OnlyLeft(a.value_at(i))
            } else {
                Verdict::OnlyRight(a.value_at(i))
            };
            let ghost f = Found { loc: location@.push(key@), verdict: verdict@ };
            findings.push(Finding { loc: location.with(key), verdict });
            proof {
                let rest = missing(location@, a@, b@, i + 1, left);
                assert(all_found(findings@) =~= all_found(start) + seq![f]);
                assert(all_found(start) + (seq![f] + rest) =~= all_found(start) + seq![f] + rest);
            }
        }
        i = i + 1;
    }
    assert(all_found(findings@) + Seq::<Found>::empty() =~= all_found(findings@));
}

/// Brings findings into the order of their locations. Makes diff reporting stable.
fn sort_findings<'doc>(findings: Vec<Finding<'doc>>) -> (r: Vec<Finding<'doc>>)
    ensures
        all_found(r@) == ordered(all_found(findings@)),
{
    let ghost all = all_found(findings@);
    let n: usize = findings.len();
    let mut rest: Vec<Finding<'doc>> = findings;
    let mut turned: Vec<Finding<'doc>> = Vec::new();
    while rest.len() > 0
        invariant
            rest@.len() + turned@.len() == n,
            n == all.len(),
            all_found(rest@) == all.take(rest@.len() as int),
            forall|i: int| 0 <= i < turned@.len() ==> (#[trigger] turned@[i])@ == all[n - 1 - i],
        decreases rest@.len(),
    {
        let ghost m = rest@.len() as int;
        assert(rest@[m - 1]@ == all_found(rest@)[m - 1]);
        if let Some(f) = rest.pop() {
            turned.push(f);
        }
        assert(all_found(rest@) =~= all.take(m - 1));
    }
    let mut out: Vec<Finding<'doc>> = Vec::new();
    assert(all_found(out@) =~= ordered(all.take(0)));
    while turned.len() > 0
        invariant
            out@.len() + turned@.len() == n,
            n == all.len(),
            all_found(out@) == ordered(all.take(out@.len() as int)),
            forall|i: int| 0 <= i < turned@.len() ==> (#[trigger] turned@[i])@ == all[n - 1 - i],
        decreases turned@.len(),
    {
        let ghost done = out@.len() as int;
        assert(turned@[turned@.len() - 1]@ == all[done]);
        if let Some(f) = turned.pop() {
            let ghost front = all_found(out@);
            let key: String = f.loc.to_string();
            let mut i: usize = 0;
            while i < out.len() && comes_first(out[i].loc.to_string().as_str(), key.as_str())
                invariant
                    i <= out@.len(),
                    front == all_found(out@),
                    key@ == loc_text(f@.loc),
                    slot(front, f@, 0) == slot(front, f@, i as int),
                decreases out@.len() - i,
            {
                i = i + 1;
            }
            out.insert(i, f);
            proof {
                let next = all.take(done + 1);
                assert(next.drop_last() =~= all.take(done));
                assert(next.last() == f@);
                assert(all_found(out@) =~= front.insert(i as int, f@));
            }
        }
    }
    assert(all.take(n as int) =~= all);
    out
}

/// Produce a diff between two JSON values, where `doubles` compares numbers that are no
/// integers.
pub fn diff<'doc, F: Fn(&str, &str) -> Option<bool>>(
    left: &'doc Value,
    right: &'doc Value,
    doubles: &F,
) -> (r: Diff<'doc>)
    requires
        answers(*doubles),
    ensures
        forall|d: Doubles| #[trigger]
            agrees(*doubles, d) ==> r@ == ordered(differences(seq![], left@, right@, d)),
{
    let mut findings: Vec<Finding<'doc>> = Vec::new();
    let top: Loc = Loc(Vec::new());
    assert(top@ =~= seq![]);
    assert(all_found(findings@) =~= seq![]);
    diff_rec(&top, left, right, doubles, &mut findings);
    proof {
        assert forall|d: Doubles| #[trigger] agrees(*doubles, d) implies all_found(findings@)
            == differences(seq![], left@, right@, d) by {
            assert(Seq::<Found>::empty() + differences(seq![], left@, right@, d) =~= differences(
                seq![],
                left@,
                right@,
                d,
            ));
        }
    }
    Diff { findings: sort_findings(findings) }
}

impl<'doc> Diff<'doc> {
    /// Pretty-print.
    pub fn to_string(&self) -> (s: String)
        ensures
            s@ == report(self@, 0),
    {
        let mut s: String = String::new();
        let mut i: usize = 0;
        let ghost whole = report(self@, 0);
        assert(s@ + report(self@, 0) =~= whole);
        while i < self.findings.len()
            invariant
                i <= self.findings@.len(),
                whole == s@ + report(self@, i as int),
            decreases self.findings@.len() - i,
        {
            let ghost before = s@;
            let f: &Finding = &self.findings[i];
            s.append(f.loc.to_string().as_str());
            s.append(": ");
            let ghost head = s@;
            match &f.verdict {
                Verdict::OnlyLeft(v) => {
                    s.append("only in left document:\n\t");
                    v.write(&mut s);
                    s.append("\n\n");
                    assert(s@ =~= head + ("only in left document:\n\t"@ + text(v@) + "\n\n"@));
                },
                Verdict::OnlyRight(v) => {
                    s.append("only in right document:\n\t");
                    v.write(&mut s);
                    s.append("\n\n");
                    assert(s@ =~= head + ("only in right document:\n\t"@ + text(v@) + "\n\n"@));
                },
                Verdict::Differ(l, r) => {
                    s.append("values differ:\n\tleft:\n\t\t");
                    l.write(&mut s);
                    s.append("\n\tright:\n\t\t");
                    r.write(&mut s);
                    s.append("\n\n");
                    assert(s@ =~= head + ("values differ:\n\tleft:\n\t\t"@ + text(l@)
                        + "\n\tright:\n\t\t"@ + text(r@) + "\n\n"@));
                },
            }
            proof {
                let g = self@[i as int];
                let rest = report(self@, i + 1);
                assert(g == f@);
                assert(whole == before + report(self@, i as int));
                assert(before + report(self@, i as int) =~= s@ + rest);
            }
            i = i + 1;
        }
        assert(s@ =~= whole);
        s
    }
}

} // verus!
