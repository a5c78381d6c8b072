//! Header fields.
use crate::assoc::{lookup, position, put};
use crate::text::str_eq;
use vstd::prelude::*;

verus! {

/// Header fields, in the order in which their names first came.
#[derive(Debug)]
pub struct Headers {
    inner: Vec<(String, String)>,
}

/// What [`Headers`] are, mathematically.
pub type Fields = Seq<(Seq<char>, Seq<char>)>;

impl View for Headers {
    type V = Fields;

    closed spec fn view(&self) -> Fields {
        Seq::new(self.inner@.len(), |i: int| (self.inner@[i].0@, self.inner@[i].1@))
    }
}

impl Headers {
    /// No fields.
    pub fn new() -> (h: Headers)
        ensures
            h@ == Fields::empty(),
    {
        let h = Headers { inner: Vec::new() };
        assert(h@ =~= Fields::empty());
        h
    }

    /// How many fields there are.
    pub fn len(&self) -> (n: usize)
        ensures
            n == self@.len(),
    {
        self.inner.len()
    }

    /// The name of a field.
    pub fn name_at(&self, i: usize) -> (s: &str)
        requires
            i < self@.len(),
        ensures
            s@ == self@[i as int].0,
    {
        self.inner[i].0.as_str()
    }

    /// The value of a field.
    pub fn value_at(&self, i: usize) -> (s: &str)
        requires
            i < self@.len(),
        ensures
            s@ == self@[i as int].1,
    {
        self.inner[i].1.as_str()
    }

    fn find(&self, name: &str) -> (r: Option<usize>)
        ensures
            match r {
                Some(i) => position(self@, name@, 0) == Some(i as int) && i < self@.len(),
                None => position(self@, name@, 0) is None,
            },
    {
        let mut i: usize = 0;
        while i < self.inner.len()
            invariant
                i <= self.inner@.len(),
                position(self@, name@, 0) == position(self@, name@, i as int),
            decreases self.inner@.len() - i,
        {
            if str_eq(self.inner[i].0.as_str(), name) {
                return Some(i);
            }
            i = i + 1;
        }
        None
    }

    /// The value of the field with a name.
    pub fn get(&self, name: &str) -> (r: Option<&String>)
        ensures
            match r {
                Some(v) => lookup(self@, name@) == Some(v@),
                None => lookup(self@, name@) is None,
            },
    {
        match self.find(name) {
            Some(i) => Some(&self.inner[i].1),
            None => None,
        }
    }

    /// Whether there is a field with a name.
    pub fn contains_key(&self, name: &str) -> (b: bool)
        ensures
            b == (lookup(self@, name@) is Some),
    {
        self.find(name).is_some()
    }

    /// Sets a field.
    pub fn insert(&mut self, name: String, value: String)
        ensures
            final(self)@ == put(old(self)@, name@, value@),
    {
        let ghost before = self@;
        match self.find(name.as_str()) {
            Some(i) => {
                self.inner[i] = (name, value);
            },
            None => {
                self.inner.push((name, value));
            },
        }
        assert(self@ =~= put(before, name@, value@));
    }
}

} // verus!
