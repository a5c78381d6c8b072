//! Terms, and the log that nodes agree on.
use crate::datum::Duplicate;
use vstd::prelude::*;

verus! {

/// An election term.
#[derive(Debug, Clone, Copy, PartialEq, Eq, Structural)]
pub struct Term(pub u64);

impl DeepView for Term {
    type V = u64;

    open spec fn deep_view(&self) -> u64 {
        self.0
    }
}

impl Default for Term {
    fn default() -> (t: Term)
        ensures
            t.0 == 0,
    {
        Term(0)
    }
}

impl Duplicate for Term {
    fn duplicate(&self) -> (d: Term) {
        *self
    }
}

impl Term {
    /// Set term to a specific target.
    pub fn set(&mut self, to: Term)
        requires
            to.0 > old(self).0,
        ensures
            *final(self) == to,
    {
        *self = to;
    }

    /// Increment term by 1.
    pub fn step(&mut self)
        requires
            old(self).0 < u64::MAX,
        ensures
            final(self).0 == old(self).0 + 1,
    {
        self.set(Term(self.0 + 1));
    }

    /// The term as text.
    pub fn to_string(&self) -> (s: String)
        ensures
            s@ == crate::decimal::decimal(self.0 as nat),
    {
        crate::decimal::u64_to_string(self.0)
    }
}

/// The place of an entry in the log. The first entry has index 1.
#[derive(Debug, Clone, Copy)]
pub struct LogIndex {
    n: u64,
}

impl DeepView for LogIndex {
    type V = u64;

    closed spec fn deep_view(&self) -> u64 {
        self.n
    }
}

impl View for LogIndex {
    type V = u64;

    open spec fn view(&self) -> u64 {
        self.deep_view()
    }
}

/// The lowest index.
pub fn min_log_index() -> (i: LogIndex)
    ensures
        i@ == 1,
{
    LogIndex { n: 1 }
}

impl LogIndex {
    #[verifier::type_invariant]
    spec fn nonzero(&self) -> bool {
        self.n >= 1
    }

    /// The index with a number, unless that is zero.
    pub fn new(n: u64) -> (r: Option<LogIndex>)
        ensures
            match r {
                Some(i) => n >= 1 && i@ == n,
                None => n == 0,
            },
    {
        if n == 0 {
            None
        } else {
            Some(LogIndex { n })
        }
    }

    /// The number of this index.
    pub fn get(&self) -> (n: u64)
        ensures
            n == self@,
            n >= 1,
    {
        proof {
            use_type_invariant(self);
        }
        self.n
    }

    /// The index behind this one.
    pub fn next(&self) -> (i: LogIndex)
        requires
            self@ < u64::MAX,
        ensures
            i@ == self@ + 1,
            self@ >= 1,
    {
        proof {
            use_type_invariant(self);
        }
        LogIndex { n: self.n + 1 }
    }
}

impl Duplicate for LogIndex {
    fn duplicate(&self) -> (d: LogIndex) {
        *self
    }
}

/// An entry in the Raft log.
#[derive(Debug, PartialEq)]
pub struct LogEntry<Cmd> {
    /// Command to apply to state machine once this log entry is considered committed.
    pub cmd: Cmd,
    /// Term in which this entry was received by leader.
    pub term: Term,
}

/// What a [`LogEntry`] is, mathematically.
#[verifier::ext_equal]
pub struct Entry<C> {
    pub cmd: C,
    pub term: u64,
}

impl<Cmd: DeepView> DeepView for LogEntry<Cmd> {
    type V = Entry<Cmd::V>;

    open spec fn deep_view(&self) -> Entry<Cmd::V> {
        Entry { cmd: self.cmd.deep_view(), term: self.term.0 }
    }
}

impl<Cmd: Duplicate> Duplicate for LogEntry<Cmd> {
    fn duplicate(&self) -> (d: LogEntry<Cmd>) {
        LogEntry { cmd: self.cmd.duplicate(), term: self.term }
    }
}

/// The Raft log. 1-indexed.
#[derive(Debug, PartialEq)]
pub struct Log<Cmd> {
    pub inner: Vec<LogEntry<Cmd>>,
}

impl<Cmd: DeepView> DeepView for Log<Cmd> {
    type V = Seq<Entry<Cmd::V>>;

    open spec fn deep_view(&self) -> Seq<Entry<Cmd::V>> {
        self.inner.deep_view()
    }
}

impl<Cmd: Duplicate> Duplicate for Log<Cmd> {
    fn duplicate(&self) -> (d: Log<Cmd>) {
        Log { inner: self.inner.duplicate() }
    }
}

impl<Cmd: DeepView> Default for Log<Cmd> {
    fn default() -> (l: Log<Cmd>)
        ensures
            l.deep_view() == Seq::<Entry<Cmd::V>>::empty(),
    {
        let l = Log { inner: Vec::new() };
        assert(l.deep_view() =~= Seq::<Entry<Cmd::V>>::empty());
        l
    }
}

/// The index of the last entry, if there is one.
pub open spec fn highest<C>(log: Seq<Entry<C>>) -> Option<u64> {
    if log.len() == 0 {
        None
    } else {
        Some(log.len() as u64)
    }
}

/// The term of the last entry, if there is one.
pub open spec fn last_term<C>(log: Seq<Entry<C>>) -> Option<u64> {
    if log.len() == 0 {
        None
    } else {
        Some(log.last().term)
    }
}

/// The term of the entry at an index, if there is one.
pub open spec fn term_at<C>(log: Seq<Entry<C>>, index: Option<u64>) -> Option<u64> {
    match index {
        None => None,
        Some(i) => if 1 <= i <= log.len() {
            Some(log[i - 1].term)
        } else {
            None
        },
    }
}

/// The entries from an index on.
pub open spec fn entries_from<C>(log: Seq<Entry<C>>, index: u64) -> Seq<Entry<C>> {
    if 1 <= index <= log.len() {
        log.skip(index - 1)
    } else {
        seq![]
    }
}

/// The entries in front of an index, if there are so many; else all of them.
pub open spec fn entries_before<C>(log: Seq<Entry<C>>, index: u64) -> Seq<Entry<C>> {
    if 1 <= index <= log.len() {
        log.take(index - 1)
    } else {
        log
    }
}

impl<Cmd: Duplicate> Log<Cmd> {
    /// Get entry at given index, if any.
    pub fn get(&self, index: LogIndex) -> (r: Option<&LogEntry<Cmd>>)
        ensures
            match r {
                Some(e) => 1 <= index@ <= self.deep_view().len() && e.deep_view()
                    == self.deep_view()[index@ - 1],
                None => index@ > self.deep_view().len(),
            },
    {
        let i: u64 = index.get() - 1;
        if i < self.inner.len() as u64 {
            Some(&self.inner[i as usize])
        } else {
            None
        }
    }

    /// The term of the entry at an index, if there is one.
    pub fn term_at(&self, index: Option<LogIndex>) -> (r: Option<Term>)
        ensures
            r.deep_view() == term_at(self.deep_view(), index.deep_view()),
    {
        match index {
            None => None,
            Some(i) => match self.get(i) {
                Some(e) => Some(e.term),
                None => {
                    proof {
                        use_type_invariant(&i);
                    }
                    None
                },
            },
        }
    }

    /// Get all entries starting from the given entry, if any.
    pub fn get_from(&self, index: LogIndex) -> (r: Vec<LogEntry<Cmd>>)
        ensures
            r.deep_view() == entries_from(self.deep_view(), index@),
    {
        let mut r: Vec<LogEntry<Cmd>> = Vec::new();
        let from: u64 = index.get() - 1;
        if from >= self.inner.len() as u64 {
            assert(r.deep_view() =~= entries_from(self.deep_view(), index@));
            return r;
        }
        let mut i: usize = from as usize;
        assert(r.deep_view() =~= self.deep_view().subrange(from as int, i as int));
        while i < self.inner.len()
            invariant
                from <= i <= self.inner@.len(),
                r.deep_view() == self.deep_view().subrange(from as int, i as int),
            decreases self.inner@.len() - i,
        {
            let ghost before = r.deep_view();
            r.push(self.inner[i].duplicate());
            assert(r.deep_view() =~= before.push(self.deep_view()[i as int]));
            assert(r.deep_view() =~= self.deep_view().subrange(from as int, i + 1));
            i = i + 1;
        }
        assert(r.deep_view() =~= entries_from(self.deep_view(), index@));
        r
    }

    /// Replace all entries starting at given index with new ones.
    pub fn replace_from(&mut self, index: LogIndex, with: Vec<LogEntry<Cmd>>)
        ensures
            final(self).deep_view() == entries_before(old(self).deep_view(), index@)
                + with.deep_view(),
    {
        let ghost before = self.deep_view();
        let ghost added = with.deep_view();
        let from: u64 = index.get() - 1;
        if from < self.inner.len() as u64 {
            self.inner.truncate(from as usize);
        }
        assert(self.deep_view() =~= entries_before(before, index@));
        let mut with: Vec<LogEntry<Cmd>> = with;
        self.inner.append(&mut with);
        assert(self.deep_view() =~= entries_before(before, index@) + added);
    }

    /// Gets the last log entry, if any.
    pub fn last(&self) -> (r: Option<&LogEntry<Cmd>>)
        ensures
            match r {
                Some(e) => self.deep_view().len() > 0 && e.deep_view() == self.deep_view().last(),
                None => self.deep_view().len() == 0,
            },
    {
        if self.inner.len() == 0 {
            None
        } else {
            Some(&self.inner[self.inner.len() - 1])
        }
    }

    /// The term of the last log entry, if any.
    pub fn last_term(&self) -> (r: Option<Term>)
        ensures
            r.deep_view() == last_term(self.deep_view()),
    {
        match self.last() {
            Some(e) => Some(e.term),
            None => None,
        }
    }

    /// Gets the index of the last log entry, if any.
    pub fn highest_index(&self) -> (r: Option<LogIndex>)
        ensures
            r.deep_view() == highest(self.deep_view()),
    {
        LogIndex::new(self.inner.len() as u64)
    }

    /// Adds entries at the end.
    pub fn append(&mut self, entries: Vec<LogEntry<Cmd>>)
        ensures
            final(self).deep_view() == old(self).deep_view() + entries.deep_view(),
    {
        let ghost before = self.deep_view();
        let ghost added = entries.deep_view();
        let mut entries: Vec<LogEntry<Cmd>> = entries;
        self.inner.append(&mut entries);
        assert(self.deep_view() =~= before + added);
    }
}

} // verus!
