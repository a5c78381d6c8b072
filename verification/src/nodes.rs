//! Sets of nodes, and data per node.
use crate::text::str_eq;
use vstd::prelude::*;

verus! {

/// A set of node IDs.
#[derive(Debug)]
pub struct NodeSet {
    names: Vec<String>,
}

impl View for NodeSet {
    type V = Set<Seq<char>>;

    closed spec fn view(&self) -> Set<Seq<char>> {
        self.texts().to_set()
    }
}

impl NodeSet {
    spec fn texts(&self) -> Seq<Seq<char>> {
        Seq::new(self.names@.len(), |i: int| self.names@[i]@)
    }

    #[verifier::type_invariant]
    spec fn no_twins(&self) -> bool {
        self.texts().no_duplicates()
    }

    /// The set of one node.
    pub fn of(name: String) -> (s: NodeSet)
        ensures
            s@ == Set::<Seq<char>>::empty().insert(name@),
    {
        let mut names: Vec<String> = Vec::new();
        names.push(name);
        let s = NodeSet { names };
        proof {
            let t = s.texts();
            assert forall|n: Seq<char>| t.to_set().contains(n) <==> n == name@ by {
                if n == name@ {
                    assert(t[0] == n);
                }
            }
            assert(s@ =~= Set::<Seq<char>>::empty().insert(name@));
        }
        s
    }

    /// How many nodes there are.
    pub fn len(&self) -> (n: usize)
        ensures
            n == self@.len(),
            self@.finite(),
    {
        proof {
            use_type_invariant(self);
            self.texts().unique_seq_to_set();
        }
        self.names.len()
    }

    /// Whether a node is among them.
    pub fn contains(&self, name: &str) -> (b: bool)
        ensures
            b == self@.contains(name@),
    {
        let mut i: usize = 0;
        while i < self.names.len()
            invariant
                i <= self.names@.len(),
                forall|k: int| 0 <= k < i ==> #[trigger] self.texts()[k] != name@,
            decreases self.names@.len() - i,
        {
            if str_eq(self.names[i].as_str(), name) {
                assert(self.texts()[i as int] == name@);
                return true;
            }
            i = i + 1;
        }
        false
    }

    /// Adds a node, if it is not there yet.
    pub fn insert(&mut self, name: String)
        ensures
            final(self)@ == old(self)@.insert(name@),
    {
        proof {
            use_type_invariant(&*self);
        }
        if self.contains(name.as_str()) {
            assert(self@.insert(name@) =~= self@);
            return;
        }
        let ghost before = self.texts();
        let mut names: Vec<String> = Vec::new();
        std::mem::swap(&mut names, &mut self.names);
        names.push(name);
        proof {
            let s = NodeSet { names };
            let t = s.texts();
            assert(t =~= before.push(name@));
            assert forall|n: Seq<char>| t.to_set().contains(n) <==> before.to_set().insert(
                name@,
            ).contains(n) by {
                if before.contains(n) {
                    let k = choose|k: int| 0 <= k < before.len() && before[k] == n;
                    assert(t[k] == n);
                }
                if n == name@ {
                    assert(t[before.len() as int] == n);
                }
                if t.contains(n) {
                    let k = choose|k: int| 0 <= k < t.len() && t[k] == n;
                    if k < before.len() {
                        assert(before[k] == n);
                    }
                }
            }
            assert(t.to_set() =~= before.to_set().insert(name@));
            assert forall|i: int, j: int|
                0 <= i < t.len() && 0 <= j < t.len() && i != j implies t[i] != t[j] by {
                if i < before.len() {
                    assert(before.contains(before[i]));
                }
                if j < before.len() {
                    assert(before.contains(before[j]));
                }
            }
        }
        self.names = names;
    }
}

/// Data per node.
#[derive(Debug)]
pub struct NodeMap<T> {
    entries: Vec<(String, T)>,
}

impl<T> View for NodeMap<T> {
    type V = Map<Seq<char>, T>;

    closed spec fn view(&self) -> Map<Seq<char>, T> {
        Map::new(
            |n: Seq<char>| exists|i: int| 0 <= i < self.entries@.len() && #[trigger] self.key(i) == n,
            |n: Seq<char>| self.entries@[self.place(n)].1,
        )
    }
}

impl<T> NodeMap<T> {
    spec fn key(&self, i: int) -> Seq<char> {
        self.entries@[i].0@
    }

    spec fn place(&self, n: Seq<char>) -> int {
        choose|i: int| 0 <= i < self.entries@.len() && #[trigger] self.key(i) == n
    }

    #[verifier::type_invariant]
    spec fn no_twins(&self) -> bool {
        forall|i: int, j: int|
            0 <= i < j < self.entries@.len() ==> #[trigger] self.key(i) != #[trigger] self.key(j)
    }

    /// No data yet.
    pub fn new() -> (m: NodeMap<T>)
        ensures
            m@ == Map::<Seq<char>, T>::empty(),
    {
        let m = NodeMap { entries: Vec::new() };
        assert(m@ =~= Map::<Seq<char>, T>::empty());
        m
    }

    /// The nodes that have data, in the order in which they came.
    pub closed spec fn keys(&self) -> Seq<Seq<char>> {
        Seq::new(self.entries@.len(), |i: int| self.key(i))
    }

    /// How many nodes have data. None of them has it twice.
    pub fn len(&self) -> (n: usize)
        ensures
            n == self@.len(),
            n == self.keys().len(),
            self@.dom().finite(),
            self.keys().no_duplicates(),
            self.keys().to_set() == self@.dom(),
    {
        proof {
            use_type_invariant(self);
            let keys = self.keys();
            assert forall|i: int, j: int|
                0 <= i < keys.len() && 0 <= j < keys.len() && i != j implies keys[i] != keys[j] by {
                if i < j {
                    assert(self.key(i) != self.key(j));
                } else {
                    assert(self.key(j) != self.key(i));
                }
            }
            keys.unique_seq_to_set();
            assert forall|n: Seq<char>| keys.to_set().contains(n) <==> self@.dom().contains(n) by {
                if keys.contains(n) {
                    let k = choose|k: int| 0 <= k < keys.len() && keys[k] == n;
                    assert(self.key(k) == n);
                }
                if self@.dom().contains(n) {
                    let k = self.place(n);
                    assert(self.key(k) == n);
                    assert(keys[k] == n);
                }
            }
            assert(keys.to_set() =~= self@.dom());
        }
        self.entries.len()
    }

    /// The data at a place in the order in which nodes came.
    pub fn value_at(&self, i: usize) -> (v: &T)
        requires
            i < self.keys().len(),
        ensures
            *v == self@[self.keys()[i as int]],
    {
        proof {
            use_type_invariant(self);
            let name = self.keys()[i as int];
            let p = self.place(name);
            assert(self.key(i as int) == name);
            assert(self.key(p) == name);
            if p < i {
                assert(self.key(p) != self.key(i as int));
            }
            if i < p {
                assert(self.key(i as int) != self.key(p));
            }
        }
        &self.entries[i].1
    }

    fn find(&self, name: &str) -> (r: Option<usize>)
        ensures
            match r {
                Some(i) => i < self.entries@.len() && self.key(i as int) == name@
                    && self@.contains_key(name@) && self@[name@] == self.entries@[i as int].1,
                None => !self@.contains_key(name@),
            },
    {
        proof {
            use_type_invariant(self);
        }
        let mut i: usize = 0;
        while i < self.entries.len()
            invariant
                i <= self.entries@.len(),
                self.no_twins(),
                forall|k: int| 0 <= k < i ==> #[trigger] self.key(k) != name@,
            decreases self.entries@.len() - i,
        {
            if str_eq(self.entries[i].0.as_str(), name) {
                proof {
                    assert(self.key(i as int) == name@);
                    let p = self.place(name@);
                    if p < i {
                        assert(self.key(p) != self.key(i as int));
                    }
                    if i < p {
                        assert(self.key(i as int) != self.key(p));
                    }
                }
                return Some(i);
            }
            i = i + 1;
        }
        None
    }

    /// The data of a node.
    pub fn get(&self, name: &str) -> (r: Option<&T>)
        ensures
            match r {
                Some(v) => self@.contains_key(name@) && self@[name@] == *v,
                None => !self@.contains_key(name@),
            },
    {
        match self.find(name) {
            Some(i) => Some(&self.entries[i].1),
            None => None,
        }
    }

    /// Sets the data of a node.
    pub fn insert(&mut self, name: String, value: T)
        ensures
            final(self)@ == old(self)@.insert(name@, value),
    {
        proof {
            use_type_invariant(&*self);
        }
        let ghost before = *self;
        let found: Option<usize> = self.find(name.as_str());
        let mut entries: Vec<(String, T)> = Vec::new();
        std::mem::swap(&mut entries, &mut self.entries);
        match found {
            Some(i) => {
                let ghost fresh = (name, value);
                entries.push((name, value));
                let _ = entries.swap_remove(i);
                assert(entries@ =~= before.entries@.update(i as int, fresh));
            },
            None => {
                entries.push((name, value));
            },
        }
        proof {
            let m = NodeMap { entries };
            let at = match found {
                Some(i) => i as int,
                None => before.entries@.len() as int,
            };
            assert(m.key(at) == name@);
            assert forall|k: int| 0 <= k < before.entries@.len() && k != at implies #[trigger] m.key(
                k,
            ) == before.key(k) && m.entries@[k] == before.entries@[k] by {}
            assert forall|k: int| 0 <= k < m.entries@.len() && k != at implies k
                < before.entries@.len() && #[trigger] m.key(k) == before.key(k) by {}
            assert forall|k: int| 0 <= k < before.entries@.len() && k != at implies #[trigger] before.key(
                k,
            ) != name@ by {
                if found is Some {
                    if k < at {
                        assert(before.key(k) != before.key(at));
                    } else {
                        assert(before.key(at) != before.key(k));
                    }
                }
            }
            assert forall|i: int, j: int|
                0 <= i < j < m.entries@.len() implies #[trigger] m.key(i) != #[trigger] m.key(j) by {
                if i != at && j != at {
                    assert(before.key(i) != before.key(j));
                } else if i == at {
                    assert(before.key(j) != name@);
                } else {
                    assert(before.key(i) != name@);
                }
            }
            assert forall|n: Seq<char>| m@.dom().contains(n) <==> before@.insert(
                name@,
                value,
            ).dom().contains(n) by {
                if before@.dom().contains(n) && n != name@ {
                    let k = before.place(n);
                    assert(before.key(k) == n);
                    assert(m.key(k) == n);
                }
                if m@.dom().contains(n) && n != name@ {
                    let k = m.place(n);
                    assert(m.key(k) == n);
                    assert(before.key(k) == n);
                }
            }
            assert forall|n: Seq<char>| m@.dom().contains(n) implies m@[n] == before@.insert(
                name@,
                value,
            )[n] by {
                let k = m.place(n);
                assert(m.key(k) == n);
                if n == name@ {
                    if k != at {
                        assert(before.key(k) == n);
                    }
                } else {
                    assert(before.key(k) == n);
                    let p = before.place(n);
                    assert(before.key(p) == n);
                    if k < p {
                        assert(before.key(k) != before.key(p));
                    } else if p < k {
                        assert(before.key(p) != before.key(k));
                    }
                }
            }
            assert(m@ =~= before@.insert(name@, value));
        }
        self.entries = entries;
    }
}

} // verus!
