//! JSON values.
use crate::assoc::{distinct, distinct_after_put, distinct_after_without, lookup, position, put, without};
use crate::text::str_eq;
use vstd::prelude::*;

verus! {

/// A [JSON value](https://datatracker.ietf.org/doc/html/rfc8259#section-3).
#[derive(Debug)]
pub enum Value {
    String(String),
    Number(Number),
    Object(Object),
    Array(Vec<Value>),
    Bool(bool),
    Null,
}

/// A JSON number.
///
/// In the JSON spec, numbers have infinite precision. While often limited to double
/// precision in real-world implementations, this type helps retain original, unlimited
/// JSON precision. Parsing simply normalizes the contained [`String`] to correspond to
/// JSON rules, such that all valid instances are valid JSON. Converting to native numeric
/// types is then up to consumers. Some common conversions are provided.
#[derive(Debug)]
pub struct Number(pub String);

/// The members of a JSON object: each key once, in the order in which keys first came.
#[derive(Debug)]
pub struct Object {
    entries: Vec<(String, Value)>,
}

/// What a JSON value is, mathematically.
#[verifier::ext_equal]
pub enum Json {
    String(Seq<char>),
    Number(Seq<char>),
    Object(Seq<(Seq<char>, Json)>),
    Array(Seq<Json>),
    Bool(bool),
    Null,
}

impl Value {
    /// What this value is.
    pub open spec fn model(self) -> Json
        decreases self,
    {
        match self {
            Value::String(s) => Json::String(s@),
            Value::Number(n) => Json::Number(n.0@),
            Value::Object(o) => Json::Object(o.model()),
            Value::Array(a) => Json::Array(
                Seq::new(
                    a@.len(),
                    |i: int|
                        if 0 <= i < a@.len() {
                            a@[i].model()
                        } else {
                            Json::Null
                        },
                ),
            ),
            Value::Bool(b) => Json::Bool(b),
            Value::Null => Json::Null,
        }
    }
}

impl View for Value {
    type V = Json;

    open spec fn view(&self) -> Json {
        self.model()
    }
}

impl DeepView for Value {
    type V = Json;

    open spec fn deep_view(&self) -> Json {
        self.model()
    }
}

impl View for Number {
    type V = Seq<char>;

    open spec fn view(&self) -> Seq<char> {
        self.0@
    }
}

impl View for Object {
    type V = Seq<(Seq<char>, Json)>;

    open spec fn view(&self) -> Seq<(Seq<char>, Json)> {
        self.model()
    }
}

/// The values of a list.
pub open spec fn models(values: Seq<Value>) -> Seq<Json> {
    Seq::new(values.len(), |i: int| values[i]@)
}

/// The view of a list of values is the list of their views.
pub proof fn lemma_array_view(a: Vec<Value>)
    ensures
        Value::Array(a)@ == Json::Array(models(a@)),
{
    let v = Value::Array(a)@;
    assert(v->Array_0 =~= models(a@));
}

impl Object {
    /// The members of this object.
    pub closed spec fn model(self) -> Seq<(Seq<char>, Json)>
        decreases self,
    {
        Seq::new(
            self.entries@.len(),
            |i: int|
                if 0 <= i < self.entries@.len() {
                    (self.entries@[i].0@, self.entries@[i].1.model())
                } else {
                    (Seq::empty(), Json::Null)
                },
        )
    }

    #[verifier::type_invariant]
    spec fn keys_distinct(self) -> bool {
        distinct(self.model())
    }

    /// An object without members.
    pub fn new() -> (o: Object)
        ensures
            o@ == Seq::<(Seq<char>, Json)>::empty(),
    {
        let o = Object { entries: Vec::new() };
        assert(o@ =~= Seq::<(Seq<char>, Json)>::empty());
        o
    }

    /// The number of members. No two of them have the same key.
    pub fn len(&self) -> (n: usize)
        ensures
            n == self@.len(),
            distinct(self@),
    {
        proof {
            use_type_invariant(self);
        }
        self.entries.len()
    }

    /// The key of a member.
    pub fn key_at(&self, i: usize) -> (k: &String)
        requires
            i < self@.len(),
        ensures
            k@ == self@[i as int].0,
    {
        &self.entries[i].0
    }

    /// The value of a member.
    pub fn value_at(&self, i: usize) -> (v: &Value)
        requires
            i < self@.len(),
        ensures
            v@ == self@[i as int].1,
            decreases_to!(*self => *v),
    {
        &self.entries[i].1
    }

    fn find(&self, key: &str) -> (r: Option<usize>)
        ensures
            match r {
                Some(i) => position(self@, key@, 0) == Some(i as int) && i < self@.len(),
                None => position(self@, key@, 0) is None,
            },
    {
        let mut i: usize = 0;
        while i < self.entries.len()
            invariant
                i <= self.entries.len(),
                position(self@, key@, 0) == position(self@, key@, i as int),
            decreases self.entries.len() - i,
        {
            if str_eq(self.entries[i].0.as_str(), key) {
                return Some(i);
            }
            i = i + 1;
        }
        None
    }

    /// The value under a key.
    pub fn get(&self, key: &str) -> (r: Option<&Value>)
        ensures
            match r {
                Some(v) => lookup(self@, key@) == Some(v@),
                None => lookup(self@, key@) is None,
            },
    {
        match self.find(key) {
            Some(i) => Some(&self.entries[i].1),
            None => None,
        }
    }

    /// Whether there is a member under this key.
    pub fn contains_key(&self, key: &str) -> (b: bool)
        ensures
            b == (lookup(self@, key@) is Some),
    {
        self.find(key).is_some()
    }

    /// Puts a value under a key, and gives back the value that it replaces.
    pub fn insert(&mut self, key: String, value: Value) -> (r: Option<Value>)
        ensures
            final(self)@ == put(old(self)@, key@, value@),
            match r {
                Some(v) => lookup(old(self)@, key@) == Some(v@),
                None => lookup(old(self)@, key@) is None,
            },
    {
        proof {
            use_type_invariant(&*self);
            distinct_after_put(self@, key@, value@);
        }
        let ghost before = self@;
        let found: Option<usize> = self.find(key.as_str());
        let mut entries: Vec<(String, Value)> = Vec::new();
        std::mem::swap(&mut entries, &mut self.entries);
        let ghost all = entries@;
        let r: Option<Value> = match found {
            Some(i) => {
                let ghost fresh = (key, value);
                entries.push((key, value));
                let old_entry: (String, Value) = entries.swap_remove(i);
                assert(entries@ =~= all.update(i as int, fresh));
                Some(old_entry.1)
            },
            None => {
                entries.push((key, value));
                None
            },
        };
        proof {
            let o = Object { entries };
            assert(o.model() =~= put(before, key@, value@));
        }
        self.entries = entries;
        r
    }

    /// Takes out the member under a key.
    pub fn remove(&mut self, key: &str) -> (r: Option<Value>)
        ensures
            final(self)@ == without(old(self)@, key@),
            match r {
                Some(v) => lookup(old(self)@, key@) == Some(v@),
                None => lookup(old(self)@, key@) is None,
            },
    {
        proof {
            use_type_invariant(&*self);
            distinct_after_without(self@, key@);
        }
        let ghost before = self@;
        let found: Option<usize> = self.find(key);
        match found {
            None => None,
            Some(i) => {
                let mut entries: Vec<(String, Value)> = Vec::new();
                std::mem::swap(&mut entries, &mut self.entries);
                let entry: (String, Value) = entries.remove(i);
                proof {
                    let o = Object { entries };
                    assert(o.model() =~= without(before, key@));
                }
                self.entries = entries;
                Some(entry.1)
            },
        }
    }
}

impl Value {
    /// A second value that is the same.
    pub fn copy(&self) -> (v: Value)
        ensures
            v@ == self@,
        decreases self,
    {
        match self {
            Value::String(s) => Value::String(s.clone()),
            Value::Number(n) => Value::Number(Number(n.0.clone())),
            Value::Object(o) => Value::Object(o.copy()),
            Value::Array(a) => {
                proof {
                    lemma_array_view(*a);
                }
                let mut items: Vec<Value> = Vec::new();
                let mut i: usize = 0;
                while i < a.len()
                    invariant
                        i <= a@.len(),
                        decreases_to!(*self => *a),
                        models(items@) == models(a@).take(i as int),
                    decreases a@.len() - i,
                {
                    let ghost before = items@;
                    assert(decreases_to!(*a => a@[i as int]));
                    items.push(a[i].copy());
                    assert(models(items@) =~= models(before).push(a@[i as int]@));
                    assert(models(items@) =~= models(a@).take(i + 1));
                    i = i + 1;
                }
                proof {
                    lemma_array_view(items);
                    assert(models(a@).take(i as int) =~= models(a@));
                }
                Value::Array(items)
            },
            Value::Bool(b) => Value::Bool(*b),
            Value::Null => Value::Null,
        }
    }
}

impl Object {
    /// A second object that is the same.
    pub fn copy(&self) -> (o: Object)
        ensures
            o@ == self@,
        decreases self,
    {
        proof {
            use_type_invariant(self);
        }
        let mut entries: Vec<(String, Value)> = Vec::new();
        let mut i: usize = 0;
        while i < self.entries.len()
            invariant
                i <= self.entries@.len(),
                entries@.len() == i,
                forall|k: int|
                    0 <= k < i ==> (#[trigger] entries@[k]).0@ == self.entries@[k].0@
                        && entries@[k].1@ == self.entries@[k].1@,
            decreases self.entries@.len() - i,
        {
            assert(decreases_to!(*self => self.entries));
            assert(decreases_to!(self.entries => self.entries@[i as int]));
            let v: Value = self.entries[i].1.copy();
            entries.push((self.entries[i].0.clone(), v));
            i = i + 1;
        }
        proof {
            let o = Object { entries };
            assert(o.model() =~= self.model());
        }
        Object { entries }
    }
}

} // verus!
