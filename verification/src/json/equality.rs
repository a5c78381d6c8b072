//! When two JSON values are the same.
//!
//! Numbers are compared in ascending order of precision, by actual numeric value. Where
//! neither reads as an integer, double precision decides, and whoever compares says what
//! it decides: whether two texts read as equal doubles, if both read as doubles at all.
use crate::assoc::{distinct, lookup};
use crate::decimal::{
    parse_i64, parse_i64_inverts_to_string, parse_u64, parse_u64_inverts_to_string, signed_decimal,
    signed_value, unsigned_value,
};
use crate::json::value::{lemma_array_view, models, Json, Number, Object, Value};
use crate::text::str_eq;
use vstd::prelude::*;

verus! {

/// Whether two texts read as equal doubles; `None` where one of them reads as none.
pub type Doubles = spec_fn(Seq<char>, Seq<char>) -> Option<bool>;

/// Whether two numbers are the same, given what double precision says of them.
pub open spec fn number_eq(l: Seq<char>, r: Seq<char>, doubles: Option<bool>) -> bool {
    match (unsigned_value(l), unsigned_value(r)) {
        (Ok(a), Ok(b)) => a == b,
        _ => match (signed_value(l), signed_value(r)) {
            (Ok(a), Ok(b)) => a == b,
            _ => match doubles {
                Some(same) => same,
                None => l == r,
            },
        },
    }
}

/// Whether two values are the same. The order of an object's members does not matter.
pub open spec fn json_eq(l: Json, r: Json, doubles: Doubles) -> bool
    decreases l,
{
    match (l, r) {
        (Json::String(a), Json::String(b)) => a == b,
        (Json::Number(a), Json::Number(b)) => number_eq(a, b, doubles(a, b)),
        (Json::Object(a), Json::Object(b)) => {
            &&& a.len() == b.len()
            &&& forall|i: int|
                0 <= i < a.len() ==> (match lookup(b, (#[trigger] a[i]).0) {
                    Some(v) => json_eq(a[i].1, v, doubles),
                    None => false,
                })
        },
        (Json::Array(a), Json::Array(b)) => {
            &&& a.len() == b.len()
            &&& forall|i: int| 0 <= i < a.len() ==> json_eq(#[trigger] a[i], b[i], doubles)
        },
        (Json::Bool(a), Json::Bool(b)) => a == b,
        (Json::Null, Json::Null) => true,
        _ => false,
    }
}

/// The comparison `f` says what `doubles` says.
pub open spec fn agrees<F: Fn(&str, &str) -> Option<bool>>(f: F, doubles: Doubles) -> bool {
    forall|a: &str, b: &str, r: Option<bool>|
        #[trigger] call_ensures(f, (a, b), r) ==> r == doubles(a@, b@)
}

/// The comparison `f` can be asked about any two texts.
pub open spec fn answers<F: Fn(&str, &str) -> Option<bool>>(f: F) -> bool {
    forall|a: &str, b: &str| call_requires(f, (a, b))
}

impl Number {
    /// Compares numbers in ascending order of precision, by actual numeric value. The
    /// last resort is `doubles`: whether both texts read as equal doubles, if they do.
    pub fn eq_given(&self, other: &Number, doubles: Option<bool>) -> (b: bool)
        ensures
            b == number_eq(self@, other@, doubles),
    {
        if let (Ok(l), Ok(r)) = (parse_u64(self.0.as_str()), parse_u64(other.0.as_str())) {
            return l == r;
        }
        if let (Ok(l), Ok(r)) = (parse_i64(self.0.as_str()), parse_i64(other.0.as_str())) {
            return l == r;
        }
        match doubles {
            Some(same) => same,
            // Fallback to direct string comparison.
            None => str_eq(self.0.as_str(), other.0.as_str()),
        }
    }
}

impl Value {
    /// Whether two values are the same, where `doubles` compares numbers that are no
    /// integers.
    pub fn eq_by<F: Fn(&str, &str) -> Option<bool>>(&self, other: &Value, doubles: &F) -> (b: bool)
        requires
            answers(*doubles),
        ensures
            forall|d: Doubles| #[trigger] agrees(*doubles, d) ==> b == json_eq(self@, other@, d),
        decreases self,
    {
        match (self, other) {
            (Value::String(l), Value::String(r)) => str_eq(l.as_str(), r.as_str()),
            (Value::Number(l), Value::Number(r)) => {
                let verdict: Option<bool> = doubles(l.0.as_str(), r.0.as_str());
                let b: bool = l.eq_given(r, verdict);
                proof {
                    assert forall|d: Doubles| #[trigger] agrees(*doubles, d) implies b == json_eq(
                        self@,
                        other@,
                        d,
                    ) by {
                        assert(verdict == d(l.0@, r.0@));
                    }
                }
                b
            },
            (Value::Object(l), Value::Object(r)) => {
                let n: usize = l.len();
                if n != r.len() {
                    return false;
                }
                let mut i: usize = 0;
                while i < n
                    invariant
                        answers(*doubles),
                        i <= n,
                        n == l@.len(),
                        n == r@.len(),
                        self@ == Json::Object(l@),
                        other@ == Json::Object(r@),
                        decreases_to!(*self => *l),
                        forall|d: Doubles, k: int|
                            #![trigger agrees(*doubles, d), l@[k]]
                            agrees(*doubles, d) && 0 <= k < i ==> (match lookup(r@, l@[k].0) {
                                Some(v) => json_eq(l@[k].1, v, d),
                                None => false,
                            }),
                    decreases n - i,
                {
                    match r.get(l.key_at(i).as_str()) {
                        Some(v) => {
                            if !l.value_at(i).eq_by(v, doubles) {
                                proof {
                                    assert forall|d: Doubles| #[trigger]
                                        agrees(*doubles, d) implies !json_eq(self@, other@, d) by {
                                        assert(l@[i as int] == l@[i as int]);
                                    }
                                }
                                return false;
                            }
                        },
                        None => {
                            proof {
                                assert forall|d: Doubles| #[trigger]
                                    agrees(*doubles, d) implies !json_eq(self@, other@, d) by {
                                    assert(l@[i as int] == l@[i as int]);
                                }
                            }
                            return false;
                        },
                    }
                    i = i + 1;
                }
                true
            },
            (Value::Array(l), Value::Array(r)) => {
                proof {
                    lemma_array_view(*l);
                    lemma_array_view(*r);
                }
                if l.len() != r.len() {
                    return false;
                }
                let mut i: usize = 0;
                while i < l.len()
                    invariant
                        answers(*doubles),
                        i <= l@.len(),
                        l@.len() == r@.len(),
                        self@ == Json::Array(models(l@)),
                        other@ == Json::Array(models(r@)),
                        decreases_to!(*self => *l),
                        forall|d: Doubles, k: int|
                            #![trigger agrees(*doubles, d), models(l@)[k]]
                            agrees(*doubles, d) && 0 <= k < i ==> json_eq(
                                models(l@)[k],
                                models(r@)[k],
                                d,
                            ),
                    decreases l@.len() - i,
                {
                    assert(decreases_to!(*l => l@[i as int]));
                    if !l[i].eq_by(&r[i], doubles) {
                        proof {
                            assert forall|d: Doubles| #[trigger]
                                agrees(*doubles, d) implies !json_eq(self@, other@, d) by {
                                assert(!json_eq(models(l@)[i as int], models(r@)[i as int], d));
                            }
                        }
                        return false;
                    }
                    i = i + 1;
                }
                true
            },
            (Value::Bool(l), Value::Bool(r)) => *l == *r,
            (Value::Null, Value::Null) => true,
            _ => false,
        }
    }
}

/// Every object in a value has each of its keys once.
pub open spec fn well_formed(j: Json) -> bool
    decreases j,
{
    match j {
        Json::Object(e) => {
            &&& distinct(e)
            &&& forall|i: int| 0 <= i < e.len() ==> well_formed((#[trigger] e[i]).1)
        },
        Json::Array(a) => forall|i: int| 0 <= i < a.len() ==> well_formed(#[trigger] a[i]),
        _ => true,
    }
}

/// Every value is the same as itself, as long as double precision does not say otherwise.
pub proof fn json_eq_reflexive(j: Json, doubles: Doubles)
    requires
        well_formed(j),
        forall|n: Seq<char>| #[trigger] doubles(n, n) != Some(false),
    ensures
        json_eq(j, j, doubles),
    decreases j,
{
    match j {
        Json::Object(e) => {
            assert forall|i: int| 0 <= i < e.len() implies (match lookup(e, (#[trigger] e[i]).0) {
                Some(v) => json_eq(e[i].1, v, doubles),
                None => false,
            }) by {
                crate::assoc::lemma_position_is(e, e[i].0, i);
                json_eq_reflexive(e[i].1, doubles);
            }
        },
        Json::Array(a) => {
            assert forall|i: int| 0 <= i < a.len() implies json_eq(
                #[trigger] a[i],
                a[i],
                doubles,
            ) by {
                json_eq_reflexive(a[i], doubles);
            }
        },
        Json::Number(n) => {
            assert(doubles(n, n) != Some(false));
        },
        _ => {},
    }
}

/// Integers are the same if their values are, however they are written; and only numbers that
/// are no integers are left to double precision.
pub proof fn integers_are_compared_by_value(a: int, b: int, doubles: Option<bool>)
    requires
        i64::MIN <= a <= i64::MAX,
        i64::MIN <= b <= i64::MAX,
    ensures
        number_eq(signed_decimal(a), signed_decimal(b), doubles) == (a == b),
{
    parse_i64_inverts_to_string(a as i64);
    parse_i64_inverts_to_string(b as i64);
    if a >= 0 {
        parse_u64_inverts_to_string(a as u64);
    }
    if b >= 0 {
        parse_u64_inverts_to_string(b as u64);
    }
    if a < 0 {
        assert(signed_decimal(a)[0] == '-');
    }
    if b < 0 {
        assert(signed_decimal(b)[0] == '-');
    }
}

/// Two values are the same if they are of the same kind, and what is in them is the same: all
/// items in their order, and all members under their keys, in whatever order.
pub proof fn same_values_have_the_same_parts(l: Json, r: Json, doubles: Doubles)
    requires
        well_formed(l),
        well_formed(r),
    ensures
        json_eq(l, r, doubles) == (match (l, r) {
            (Json::Null, Json::Null) => true,
            (Json::Bool(a), Json::Bool(b)) => a == b,
            (Json::String(a), Json::String(b)) => a == b,
            (Json::Number(a), Json::Number(b)) => number_eq(a, b, doubles(a, b)),
            (Json::Array(a), Json::Array(b)) => a.len() == b.len() && (forall|i: int|
                0 <= i < a.len() ==> json_eq(#[trigger] a[i], b[i], doubles)),
            (Json::Object(a), Json::Object(b)) => forall|k: Seq<char>|
                match (#[trigger] lookup(a, k), lookup(b, k)) {
                    (None, None) => true,
                    (Some(x), Some(y)) => json_eq(x, y, doubles),
                    _ => false,
                },
            _ => false,
        }),
{
    if let (Json::Object(a), Json::Object(b)) = (l, r) {
        lemma_key_set(a);
        lemma_key_set(b);
        if json_eq(l, r, doubles) {
            assert(key_set(a).subset_of(key_set(b))) by {
                assert forall|k: Seq<char>| key_set(a).contains(k) implies key_set(b).contains(k) by {
                    let i = choose|i: int| 0 <= i < a.len() && (#[trigger] a[i]).0 == k;
                    assert(lookup(b, a[i].0) is Some);
                }
            }
            vstd::set_lib::lemma_subset_equality(key_set(a), key_set(b));
            assert forall|k: Seq<char>|
                match (#[trigger] lookup(a, k), lookup(b, k)) {
                    (None, None) => true,
                    (Some(x), Some(y)) => json_eq(x, y, doubles),
                    _ => false,
                } by {
                assert(key_set(a).contains(k) == key_set(b).contains(k));
                if key_set(a).contains(k) {
                    let i = choose|i: int| 0 <= i < a.len() && (#[trigger] a[i]).0 == k;
                    crate::assoc::lemma_position_is(a, k, i);
                    assert(lookup(b, a[i].0) is Some);
                }
            }
        }
        if forall|k: Seq<char>|
            match (#[trigger] lookup(a, k), lookup(b, k)) {
                (None, None) => true,
                (Some(x), Some(y)) => json_eq(x, y, doubles),
                _ => false,
            } {
            assert(key_set(a) =~= key_set(b)) by {
                assert forall|k: Seq<char>| key_set(a).contains(k) == key_set(b).contains(k) by {
                    assert(lookup(a, k) is Some == lookup(b, k) is Some);
                }
            }
            assert forall|i: int| 0 <= i < a.len() implies (match lookup(b, (#[trigger] a[i]).0) {
                Some(v) => json_eq(a[i].1, v, doubles),
                None => false,
            }) by {
                crate::assoc::lemma_position_is(a, a[i].0, i);
                assert(lookup(a, a[i].0) == Some(a[i].1));
            }
        }
    }
}

spec fn key_set(e: Seq<(Seq<char>, Json)>) -> Set<Seq<char>> {
    e.map_values(|p: (Seq<char>, Json)| p.0).to_set()
}

proof fn lemma_key_set(e: Seq<(Seq<char>, Json)>)
    requires
        distinct(e),
    ensures
        key_set(e).len() == e.len(),
        key_set(e).finite(),
        forall|k: Seq<char>| #[trigger] key_set(e).contains(k) <==> lookup(e, k) is Some,
        forall|k: Seq<char>| #[trigger] key_set(e).contains(k) ==> exists|i: int|
            0 <= i < e.len() && (#[trigger] e[i]).0 == k,
{
    let s = e.map_values(|p: (Seq<char>, Json)| p.0);
    assert forall|i: int, j: int| 0 <= i < s.len() && 0 <= j < s.len() && i != j implies s[i]
        != s[j] by {
        assert(e[i].0 == s[i] && e[j].0 == s[j]);
    }
    s.unique_seq_to_set();
    assert forall|k: Seq<char>| #[trigger] key_set(e).contains(k) <==> lookup(e, k) is Some by {
        crate::assoc::lemma_position(e, k, 0);
        if s.to_set().contains(k) {
            let i = choose|i: int| 0 <= i < s.len() && s[i] == k;
            assert(e[i].0 == k);
        }
        if let Some(p) = crate::assoc::position(e, k, 0) {
            assert(s[p] == k);
        }
    }
    assert forall|k: Seq<char>| #[trigger] key_set(e).contains(k) implies exists|i: int|
        0 <= i < e.len() && (#[trigger] e[i]).0 == k by {
        let i = choose|i: int| 0 <= i < s.len() && s[i] == k;
        assert(e[i].0 == k);
    }
}

} // verus!
