//! Taking several members out of an object at once.
use crate::assoc::{lookup, without};
use crate::json::value::{Json, Object, Value};
use vstd::prelude::*;

verus! {

/// The members of an object, mathematically.
pub type Members = Seq<(Seq<char>, Json)>;

/// One member, and what is left.
pub open spec fn taken1(m: Members, k1: Seq<char>) -> (Option<Json>, Members) {
    (lookup(m, k1), without(m, k1))
}

/// Two members, if both are there, and what is left.
pub open spec fn taken2(m: Members, k1: Seq<char>, k2: Seq<char>) -> (
    Option<(Json, Json)>,
    Members,
) {
    let (a, m1) = taken1(m, k1);
    let (b, m2) = taken1(m1, k2);
    match (a, b) {
        (Some(a), Some(b)) => (Some((a, b)), m2),
        _ => (None, m2),
    }
}

/// Three members, if all are there, and what is left.
pub open spec fn taken3(m: Members, k1: Seq<char>, k2: Seq<char>, k3: Seq<char>) -> (
    Option<(Json, Json, Json)>,
    Members,
) {
    let (ab, m2) = taken2(m, k1, k2);
    let (c, m3) = taken1(m2, k3);
    match (ab, c) {
        (Some((a, b)), Some(c)) => (Some((a, b, c)), m3),
        _ => (None, m3),
    }
}

/// Four members, if all are there, and what is left.
pub open spec fn taken4(
    m: Members,
    k1: Seq<char>,
    k2: Seq<char>,
    k3: Seq<char>,
    k4: Seq<char>,
) -> (Option<(Json, Json, Json, Json)>, Members) {
    let (abc, m3) = taken3(m, k1, k2, k3);
    let (d, m4) = taken1(m3, k4);
    match (abc, d) {
        (Some((a, b, c)), Some(d)) => (Some((a, b, c, d)), m4),
        _ => (None, m4),
    }
}

/// Five members, if all are there, and what is left.
pub open spec fn taken5(
    m: Members,
    k1: Seq<char>,
    k2: Seq<char>,
    k3: Seq<char>,
    k4: Seq<char>,
    k5: Seq<char>,
) -> (Option<(Json, Json, Json, Json, Json)>, Members) {
    let (abcd, m4) = taken4(m, k1, k2, k3, k4);
    let (e, m5) = taken1(m4, k5);
    match (abcd, e) {
        (Some((a, b, c, d)), Some(e)) => (Some((a, b, c, d, e)), m5),
        _ => (None, m5),
    }
}

impl Object {
    /// Takes out two members, and gives them if both were there.
    pub fn take2(&mut self, k1: &str, k2: &str) -> (r: Option<(Value, Value)>)
        ensures
            final(self)@ == taken2(old(self)@, k1@, k2@).1,
            match r {
                Some((a, b)) => taken2(old(self)@, k1@, k2@).0 == Some((a@, b@)),
                None => taken2(old(self)@, k1@, k2@).0 is None,
            },
    {
        let a: Option<Value> = self.remove(k1);
        let b: Option<Value> = self.remove(k2);
        match (a, b) {
            (Some(a), Some(b)) => Some((a, b)),
            _ => None,
        }
    }

    /// Takes out three members, and gives them if all were there.
    pub fn take3(&mut self, k1: &str, k2: &str, k3: &str) -> (r: Option<(Value, Value, Value)>)
        ensures
            final(self)@ == taken3(old(self)@, k1@, k2@, k3@).1,
            match r {
                Some((a, b, c)) => taken3(old(self)@, k1@, k2@, k3@).0 == Some((a@, b@, c@)),
                None => taken3(old(self)@, k1@, k2@, k3@).0 is None,
            },
    {
        let ab: Option<(Value, Value)> = self.take2(k1, k2);
        let c: Option<Value> = self.remove(k3);
        match (ab, c) {
            (Some((a, b)), Some(c)) => Some((a, b, c)),
            _ => None,
        }
    }

    /// Takes out four members, and gives them if all were there.
    pub fn take4(&mut self, k1: &str, k2: &str, k3: &str, k4: &str) -> (r: Option<
        (Value, Value, Value, Value),
    >)
        ensures
            final(self)@ == taken4(old(self)@, k1@, k2@, k3@, k4@).1,
            match r {
                Some((a, b, c, d)) => taken4(old(self)@, k1@, k2@, k3@, k4@).0 == Some(
                    (a@, b@, c@, d@),
                ),
                None => taken4(old(self)@, k1@, k2@, k3@, k4@).0 is None,
            },
    {
        let abc: Option<(Value, Value, Value)> = self.take3(k1, k2, k3);
        let d: Option<Value> = self.remove(k4);
        match (abc, d) {
            (Some((a, b, c)), Some(d)) => Some((a, b, c, d)),
            _ => None,
        }
    }

    /// Takes out five members, and gives them if all were there.
    pub fn take5(&mut self, k1: &str, k2: &str, k3: &str, k4: &str, k5: &str) -> (r: Option<
        (Value, Value, Value, Value, Value),
    >)
        ensures
            final(self)@ == taken5(old(self)@, k1@, k2@, k3@, k4@, k5@).1,
            match r {
                Some((a, b, c, d, e)) => taken5(old(self)@, k1@, k2@, k3@, k4@, k5@).0 == Some(
                    (a@, b@, c@, d@, e@),
                ),
                None => taken5(old(self)@, k1@, k2@, k3@, k4@, k5@).0 is None,
            },
    {
        let abcd: Option<(Value, Value, Value, Value)> = self.take4(k1, k2, k3, k4);
        let e: Option<Value> = self.remove(k5);
        match (abcd, e) {
            (Some((a, b, c, d)), Some(e)) => Some((a, b, c, d, e)),
            _ => None,
        }
    }

    /// Puts a value under a key.
    pub fn set(&mut self, key: &str, value: Value)
        ensures
            final(self)@ == crate::assoc::put(old(self)@, key@, value@),
    {
        self.insert(key.to_owned(), value);
    }
}

/// Both results, or the first error.
pub open spec fn both<A, B, E>(a: Result<A, E>, b: Result<B, E>) -> Result<(A, B), E> {
    match (a, b) {
        (Err(e), _) => Err(e),
        (_, Err(e)) => Err(e),
        (Ok(a), Ok(b)) => Ok((a, b)),
    }
}

/// All three results, or the first error.
pub open spec fn both3<A, B, C, E>(a: Result<A, E>, b: Result<B, E>, c: Result<C, E>) -> Result<
    (A, B, C),
    E,
> {
    match (both(a, b), c) {
        (Err(e), _) => Err(e),
        (_, Err(e)) => Err(e),
        (Ok((a, b)), Ok(c)) => Ok((a, b, c)),
    }
}

/// All four results, or the first error.
pub open spec fn both4<A, B, C, D, E>(
    a: Result<A, E>,
    b: Result<B, E>,
    c: Result<C, E>,
    d: Result<D, E>,
) -> Result<(A, B, C, D), E> {
    match (both3(a, b, c), d) {
        (Err(e), _) => Err(e),
        (_, Err(e)) => Err(e),
        (Ok((a, b, c)), Ok(d)) => Ok((a, b, c, d)),
    }
}

/// All five results, or the first error.
pub open spec fn both5<A, B, C, D, F, E>(
    a: Result<A, E>,
    b: Result<B, E>,
    c: Result<C, E>,
    d: Result<D, E>,
    f: Result<F, E>,
) -> Result<(A, B, C, D, F), E> {
    match (both4(a, b, c, d), f) {
        (Err(e), _) => Err(e),
        (_, Err(e)) => Err(e),
        (Ok((a, b, c, d)), Ok(f)) => Ok((a, b, c, d, f)),
    }
}

} // verus!
