//! A key-value store, and what is put into it.
use crate::assoc::{
    distinct, distinct_after_put, lemma_position, lookup, lookup_after_put, lookup_after_without,
    position, put, without,
};
use crate::base64::{ascii_text, decode_inverts_encode, encoded};
use crate::datum::Datum;
use crate::json::conversions::from_value::{bytes_in, TryFromError, Unconverted};
use crate::json::fields::{both, taken2};
use crate::json::serde::{
    converted, reads_back, Deserialize, DeserializeError, Serialize, SerializeError,
    Undeserialized,
};
use crate::json::value::{Json, Object, Value};
use vstd::prelude::*;

verus! {

/// A store of values, each under its key.
#[derive(Debug)]
pub struct Store<K: Datum, V: Datum> {
    inner: Vec<(K, V)>,
}

/// Why a value was not swapped.
#[derive(Debug)]
pub enum CASError<'v, V> {
    NoSuchKey,
    ValueMismatch { requested: V, found: &'v V },
}

/// What the store holds, in the order in which keys first came.
pub type Holds<K, V> = Seq<(K, V)>;

impl<K: Datum, V: Datum> DeepView for Store<K, V> {
    type V = Holds<K::V, V::V>;

    closed spec fn deep_view(&self) -> Holds<K::V, V::V> {
        Seq::new(
            self.inner@.len(),
            |i: int| (self.inner@[i].0.deep_view(), self.inner@[i].1.deep_view()),
        )
    }
}

/// What a compare-and-swap does to a store: the new value replaces the old one, if that is
/// what it was expected to be.
pub open spec fn swapped<K, V>(s: Holds<K, V>, key: K, from: V, to: V) -> Holds<K, V> {
    if lookup(s, key) == Some(from) {
        put(s, key, to)
    } else {
        s
    }
}

impl<K: Datum, V: Datum> Store<K, V> {
    #[verifier::type_invariant]
    spec fn keys_distinct(&self) -> bool {
        distinct(self.deep_view())
    }

    /// An empty store.
    pub fn new() -> (s: Store<K, V>)
        ensures
            s.deep_view() == Seq::<(K::V, V::V)>::empty(),
    {
        let s = Store { inner: Vec::new() };
        assert(s.deep_view() =~= Seq::<(K::V, V::V)>::empty());
        s
    }

    /// How many keys have a value. No key has two.
    pub fn len(&self) -> (n: usize)
        ensures
            n == self.deep_view().len(),
            distinct(self.deep_view()),
    {
        proof {
            use_type_invariant(self);
        }
        self.inner.len()
    }

    fn find(&self, key: &K) -> (r: Option<usize>)
        ensures
            match r {
                Some(i) => position(self.deep_view(), key.deep_view(), 0) == Some(i as int) && i
                    < self.inner@.len(),
                None => position(self.deep_view(), key.deep_view(), 0) is None,
            },
    {
        let mut i: usize = 0;
        while i < self.inner.len()
            invariant
                i <= self.inner@.len(),
                position(self.deep_view(), key.deep_view(), 0) == position(
                    self.deep_view(),
                    key.deep_view(),
                    i as int,
                ),
            decreases self.inner@.len() - i,
        {
            if self.inner[i].0.same(key) {
                return Some(i);
            }
            i = i + 1;
        }
        None
    }

    /// The value under a key.
    pub fn read(&self, key: &K) -> (r: Option<&V>)
        ensures
            match r {
                Some(v) => lookup(self.deep_view(), key.deep_view()) == Some(v.deep_view()),
                None => lookup(self.deep_view(), key.deep_view()) is None,
            },
    {
        match self.find(key) {
            Some(i) => Some(&self.inner[i].1),
            None => None,
        }
    }

    /// Puts a value under a key.
    pub fn write(&mut self, key: K, value: V)
        ensures
            final(self).deep_view() == put(
                old(self).deep_view(),
                key.deep_view(),
                value.deep_view(),
            ),
    {
        proof {
            use_type_invariant(&*self);
            distinct_after_put(self.deep_view(), key.deep_view(), value.deep_view());
        }
        let ghost before = self.deep_view();
        let found: Option<usize> = self.find(&key);
        let mut inner: Vec<(K, V)> = Vec::new();
        std::mem::swap(&mut inner, &mut self.inner);
        let ghost all = inner@;
        match found {
            Some(i) => {
                let ghost fresh = (key, value);
                inner.push((key, value));
                let _ = inner.swap_remove(i);
                assert(inner@ =~= all.update(i as int, fresh));
            },
            None => {
                inner.push((key, value));
            },
        }
        proof {
            let s = Store { inner };
            assert(s.deep_view() =~= put(before, key.deep_view(), value.deep_view()));
        }
        self.inner = inner;
    }

    /// Replaces the value under a key, if it is the expected one.
    pub fn compare_and_swap(&mut self, key: &K, from: V, to: V) -> (r: Result<(), CASError<'_, V>>)
        ensures
            final(self).deep_view() == swapped(
                old(self).deep_view(),
                key.deep_view(),
                from.deep_view(),
                to.deep_view(),
            ),
            match r {
                Ok(_) => lookup(old(self).deep_view(), key.deep_view()) == Some(from.deep_view()),
                Err(CASError::NoSuchKey) => lookup(old(self).deep_view(), key.deep_view()) is None,
                Err(CASError::ValueMismatch { requested, found }) => lookup(
                    old(self).deep_view(),
                    key.deep_view(),
                ) == Some(found.deep_view()) && found.deep_view() != from.deep_view() && requested
                    == from,
            },
    {
        proof {
            lemma_position(self.deep_view(), key.deep_view(), 0);
        }
        match self.find(key) {
            None => Err(CASError::NoSuchKey),
            Some(i) => {
                if self.inner[i].1.same(&from) {
                    self.replace_at(i, to);
                    Ok(())
                } else {
                    Err(CASError::ValueMismatch { requested: from, found: &self.inner[i].1 })
                }
            },
        }
    }

    /// Replaces the value at a place.
    fn replace_at(&mut self, i: usize, to: V)
        requires
            i < old(self).inner@.len(),
        ensures
            final(self).deep_view() == old(self).deep_view().update(
                i as int,
                (old(self).deep_view()[i as int].0, to.deep_view()),
            ),
    {
        proof {
            use_type_invariant(&*self);
        }
        let ghost before = self.deep_view();
        let mut inner: Vec<(K, V)> = Vec::new();
        std::mem::swap(&mut inner, &mut self.inner);
        inner[i].1 = to;
        proof {
            let s = Store { inner };
            let after = before.update(i as int, (before[i as int].0, to.deep_view()));
            assert(s.deep_view() =~= after);
            assert forall|x: int, y: int|
                #![trigger after[x], after[y]]
                0 <= x < y < after.len() implies after[x].0 != after[y].0 by {
                assert(before[x].0 != before[y].0);
            }
        }
        self.inner = inner;
    }
}

/// A read gives what was last written under the key, and a write leaves other keys alone.
pub proof fn read_after_write<K, V>(s: Holds<K, V>, key: K, value: V, other: K)
    ensures
        lookup(put(s, key, value), key) == Some(value),
        other != key ==> lookup(put(s, key, value), other) == lookup(s, other),
{
    lookup_after_put(s, key, value, key);
    lookup_after_put(s, key, value, other);
}

/// A compare-and-swap writes exactly where it finds what it expects; else it changes
/// nothing.
pub proof fn swap_is_a_guarded_write<K, V>(s: Holds<K, V>, key: K, from: V, to: V)
    ensures
        lookup(s, key) == Some(from) ==> lookup(swapped(s, key, from, to), key) == Some(to),
        lookup(s, key) != Some(from) ==> swapped(s, key, from, to) == s,
{
    lookup_after_put(s, key, to, key);
}

/// A key and a value, as bytes.
#[derive(Debug, Clone)]
pub struct Put {
    pub key: Vec<u8>,
    pub value: Vec<u8>,
}

/// What a [`Put`] is, mathematically.
#[verifier::ext_equal]
pub struct PutBytes {
    pub key: Seq<u8>,
    pub value: Seq<u8>,
}

impl DeepView for Put {
    type V = PutBytes;

    open spec fn deep_view(&self) -> PutBytes {
        PutBytes { key: self.key@, value: self.value@ }
    }
}

impl Default for Put {
    fn default() -> (p: Put)
        ensures
            p.key@.len() == 0,
            p.value@.len() == 0,
    {
        Put { key: Vec::new(), value: Vec::new() }
    }
}

/// Bytes as JSON: base64.
pub open spec fn bytes_json(b: Seq<u8>) -> Json {
    Json::String(ascii_text(encoded(b)))
}

/// A put as JSON.
pub open spec fn put_json(p: PutBytes) -> Json {
    Json::Object(
        put(put(Seq::empty(), "key"@, bytes_json(p.key)), "value"@, bytes_json(p.value)),
    )
}

/// The put that a JSON value holds. An object that lacks a key is handed back without
/// what it had of the two.
pub open spec fn put_in(j: Json) -> Result<PutBytes, Unconverted> {
    match j {
        Json::Object(m) => match taken2(m, "key"@, "value"@) {
            (Some((key, value)), _) => match both(bytes_in(key), bytes_in(value)) {
                Ok((key, value)) => Ok(PutBytes { key, value }),
                Err(e) => Err(e),
            },
            (None, rest) => Err(Unconverted { value: Json::Object(rest), reason: None }),
        },
        _ => Err(Unconverted { value: j, reason: None }),
    }
}

impl From<&Put> for Value {
    fn from(value: &Put) -> (v: Value)
        ensures
            v@ == put_json(value.deep_view()),
    {
        let mut map: Object = Object::new();
        map.set("key", Value::from(value.key.as_slice()));
        map.set("value", Value::from(value.value.as_slice()));
        Value::Object(map)
    }
}

impl vstd::std_specs::convert::FromSpecImpl<&Put> for Value {
    open spec fn obeys_from_spec() -> bool {
        false
    }

    open spec fn from_spec(value: &Put) -> Value {
        arbitrary()
    }
}

impl TryFrom<Value> for Put {
    type Error = TryFromError;

    fn try_from(value: Value) -> (r: Result<Self, TryFromError>)
        ensures
            match r {
                Ok(p) => put_in(value@) == Ok::<PutBytes, Unconverted>(p.deep_view()),
                Err(e) => put_in(value@) == Err::<PutBytes, Unconverted>(e@),
            },
    {
        match value {
            Value::Object(map) => {
                let mut map: Object = map;
                match map.take2("key", "value") {
                    Some((key, value)) => {
                        let key: Vec<u8> = match Vec::<u8>::try_from(key) {
                            Ok(b) => b,
                            Err(e) => return Err(e),
                        };
                        let value: Vec<u8> = match Vec::<u8>::try_from(value) {
                            Ok(b) => b,
                            Err(e) => return Err(e),
                        };
                        Ok(Put { key, value })
                    },
                    None => Err(TryFromError { value: Value::Object(map), reason: None }),
                }
            },
            _ => Err(TryFromError { value, reason: None }),
        }
    }
}

impl vstd::std_specs::convert::TryFromSpecImpl<Value> for Put {
    open spec fn obeys_try_from_spec() -> bool {
        false
    }

    open spec fn try_from_spec(value: Value) -> Result<Self, TryFromError> {
        arbitrary()
    }
}

impl Serialize for Put {
    open spec fn json(&self) -> Json {
        put_json(self.deep_view())
    }

    fn serialize(&self) -> (r: Result<Value, SerializeError>) {
        Ok(Value::from(self))
    }
}

impl Deserialize for Put {
    open spec fn from_json(j: Json) -> Result<PutBytes, Undeserialized> {
        match j {
            Json::Object(m) => match taken2(m, "key"@, "value"@) {
                (Some(_), _) => converted(put_in(j)),
                (None, rest) => Err(Undeserialized::InvalidValue(Json::Object(rest))),
            },
            _ => Err(Undeserialized::InvalidValue(j)),
        }
    }

    fn deserialize(value: Value) -> (r: Result<Self, DeserializeError>) {
        match value {
            Value::Object(map) => {
                let mut map: Object = map;
                match map.take2("key", "value") {
                    Some((key, value)) => {
                        let key: Vec<u8> = match Vec::<u8>::try_from(key) {
                            Ok(b) => b,
                            Err(e) => return Err(DeserializeError::InvalidConversion(e)),
                        };
                        let value: Vec<u8> = match Vec::<u8>::try_from(value) {
                            Ok(b) => b,
                            Err(e) => return Err(DeserializeError::InvalidConversion(e)),
                        };
                        Ok(Put { key, value })
                    },
                    None => Err(DeserializeError::InvalidValue(Value::Object(map))),
                }
            },
            _ => Err(DeserializeError::InvalidValue(value)),
        }
    }
}

/// Puts read back, either way.
pub proof fn put_reads_back(p: Put)
    ensures
        reads_back(p),
        put_in(put_json(p.deep_view())) == Ok::<PutBytes, Unconverted>(p.deep_view()),
{
    broadcast use lookup_after_put, lookup_after_without;

    assert("key"@ != "value"@) by {
        reveal_strlit("key");
        reveal_strlit("value");
        assert("key"@.len() == 3 && "value"@.len() == 5);
    }
    decode_inverts_encode(p.key@);
    decode_inverts_encode(p.value@);
    let m = put_json(p.deep_view())->Object_0;
    assert(lookup(m, "key"@) == Some(bytes_json(p.key@)));
    assert(lookup(without(m, "key"@), "value"@) == Some(bytes_json(p.value@)));
}

} // verus!
