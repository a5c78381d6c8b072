//! What nodes keep.
use crate::datum::Readable;
use crate::decimal::{decimal, hexadecimal, push_decimal, push_hexadecimal, u64_to_string};
use crate::serde::{
    broken, option_reads_back, reads_back, u64_reads_back, vec_reads_back, whole, Deserialize, DeserializeError,
    Read, Reader, Serialize, SerializeError,
};
use crate::text::chars_of;
use vstd::prelude::*;
use vstd::string::StringExecFns;

verus! {

/// Who runs for a term.
#[derive(Debug, PartialEq)]
pub struct Candidate(pub u64);

impl DeepView for Candidate {
    type V = u64;

    open spec fn deep_view(&self) -> u64 {
        self.0
    }
}

impl Serialize for Candidate {
    open spec fn bytes(&self) -> Seq<u8> {
        self.0.bytes()
    }

    fn serialize(&self, writer: &mut Vec<u8>) -> (r: Result<(), SerializeError>) {
        self.0.serialize(writer)
    }
}

impl Deserialize for Candidate {
    open spec fn start() -> u64 {
        0
    }

    open spec fn read_onto(was: u64, data: Seq<u8>) -> Read<u64> {
        u64::read_onto(was, data)
    }

    fn fresh() -> (x: Candidate) {
        Candidate(0)
    }

    fn deserialize_into(&mut self, reader: &mut Reader) -> (r: Result<(), DeserializeError>) {
        self.0.deserialize_into(reader)
    }
}

impl Candidate {
    /// The candidate as text.
    pub fn to_string(&self) -> (s: String)
        ensures
            s@ == decimal(self.0 as nat),
    {
        u64_to_string(self.0)
    }
}

impl Default for Candidate {
    fn default() -> (c: Candidate)
        ensures
            c.0 == 0,
    {
        Candidate(0)
    }
}

/// An election term.
#[derive(Debug, PartialEq)]
pub struct Term(pub u64);

impl DeepView for Term {
    type V = u64;

    open spec fn deep_view(&self) -> u64 {
        self.0
    }
}

impl Serialize for Term {
    open spec fn bytes(&self) -> Seq<u8> {
        self.0.bytes()
    }

    fn serialize(&self, writer: &mut Vec<u8>) -> (r: Result<(), SerializeError>) {
        self.0.serialize(writer)
    }
}

impl Deserialize for Term {
    open spec fn start() -> u64 {
        0
    }

    open spec fn read_onto(was: u64, data: Seq<u8>) -> Read<u64> {
        u64::read_onto(was, data)
    }

    fn fresh() -> (x: Term) {
        Term(0)
    }

    fn deserialize_into(&mut self, reader: &mut Reader) -> (r: Result<(), DeserializeError>) {
        self.0.deserialize_into(reader)
    }
}

impl Term {
    /// The term as text.
    pub fn to_string(&self) -> (s: String)
        ensures
            s@ == decimal(self.0 as nat),
    {
        u64_to_string(self.0)
    }
}

impl Default for Term {
    fn default() -> (t: Term)
        ensures
            t.0 == 0,
    {
        Term(0)
    }
}

/// An entry of the log.
#[derive(Debug, PartialEq)]
pub struct LogEntry<C> {
    pub cmd: C,
    pub term: Term,
}

impl<C: DeepView> DeepView for LogEntry<C> {
    type V = (C::V, u64);

    open spec fn deep_view(&self) -> (C::V, u64) {
        (self.cmd.deep_view(), self.term.0)
    }
}

impl<C: Serialize> Serialize for LogEntry<C> {
    open spec fn bytes(&self) -> Seq<u8> {
        self.cmd.bytes() + self.term.bytes()
    }

    fn serialize(&self, writer: &mut Vec<u8>) -> (r: Result<(), SerializeError>) {
        let ghost before = writer@;
        self.cmd.serialize(writer)?;
        self.term.serialize(writer)?;
        assert(writer@ =~= before + self.bytes());
        Ok(())
    }
}

impl<C: Deserialize> Deserialize for LogEntry<C> {
    open spec fn start() -> (C::V, u64) {
        (C::start(), 0)
    }

    open spec fn read_onto(was: (C::V, u64), data: Seq<u8>) -> Read<(C::V, u64)> {
        let cmd = C::read_onto(was.0, data);
        match cmd.fault {
            Some(e) => broken((cmd.value, was.1), cmd.left, e),
            None => {
                let term = Term::read_onto(was.1, cmd.left);
                Read { value: (cmd.value, term.value), left: term.left, fault: term.fault }
            },
        }
    }

    fn fresh() -> (x: LogEntry<C>) {
        LogEntry { cmd: C::fresh(), term: Term::fresh() }
    }

    fn deserialize_into(&mut self, reader: &mut Reader) -> (r: Result<(), DeserializeError>) {
        match self.cmd.deserialize_into(reader) {
            Ok(_) => {},
            Err(e) => return Err(e),
        }
        self.term.deserialize_into(reader)
    }
}

/// A character as ASCII, with escapes like those of Rust's literals.
pub open spec fn escaped(c: char) -> Seq<char> {
    if c == '\t' {
        seq!['\\', 't']
    } else if c == '\r' {
        seq!['\\', 'r']
    } else if c == '\n' {
        seq!['\\', 'n']
    } else if c == '\'' || c == '"' || c == '\\' {
        seq!['\\', c]
    } else if 0x20 <= c as u32 <= 0x7e {
        seq![c]
    } else {
        "\\u{"@ + hexadecimal(c as u32 as nat) + "}"@
    }
}

/// A text as ASCII, from the `i`-th character on.
pub open spec fn all_escaped(s: Seq<char>, i: int) -> Seq<char>
    decreases s.len() - i,
{
    if i < 0 || i >= s.len() {
        seq![]
    } else {
        escaped(s[i]) + all_escaped(s, i + 1)
    }
}

fn push_escaped(out: &mut String, c: char)
    ensures
        final(out)@ == old(out)@ + escaped(c),
{
    let ghost before = out@;
    if c == '\t' {
        out.push('\\');
        out.push('t');
    } else if c == '\r' {
        out.push('\\');
        out.push('r');
    } else if c == '\n' {
        out.push('\\');
        out.push('n');
    } else if c == '\'' || c == '"' || c == '\\' {
        out.push('\\');
        out.push(c);
    } else if 0x20 <= c as u32 && c as u32 <= 0x7e {
        out.push(c);
    } else {
        out.append("\\u{");
        push_hexadecimal(out, c as u32 as u64);
        out.append("}");
    }
    assert(out@ =~= before + escaped(c));
}

fn escape_default(s: &str) -> (r: String)
    ensures
        r@ == all_escaped(s@, 0),
{
    let chars: Vec<char> = chars_of(s);
    let mut r: String = String::new();
    let mut i: usize = 0;
    assert(r@ + all_escaped(s@, 0) =~= all_escaped(s@, 0));
    while i < chars.len()
        invariant
            i <= chars@.len(),
            chars@ == s@,
            r@ + all_escaped(s@, i as int) == all_escaped(s@, 0),
        decreases chars@.len() - i,
    {
        let ghost before = r@;
        push_escaped(&mut r, chars[i]);
        assert(r@ + all_escaped(s@, i + 1) =~= before + all_escaped(s@, i as int));
        i = i + 1;
    }
    assert(r@ + Seq::<char>::empty() =~= r@);
    r
}

impl<C: Readable> LogEntry<C> {
    /// The entry as text: the command on a line, then the term.
    pub fn to_string(&self) -> (s: String)
        ensures
            s@ == all_escaped(C::printed(self.cmd.deep_view()), 0) + "\n"@ + decimal(
                self.term.0 as nat,
            ),
    {
        let mut s: String = escape_default(self.cmd.print().as_str());
        s.append("\n");
        push_decimal(&mut s, self.term.0);
        s
    }
}

/// What survives reboots.
#[derive(Debug, PartialEq)]
pub struct Persistent<C> {
    pub current_term: Term,
    pub voted_for: Option<Candidate>,
    pub log: Vec<LogEntry<C>>,
}

/// What [`Persistent`] is, mathematically.
#[verifier::ext_equal]
pub struct Lasting<C> {
    pub current_term: u64,
    pub voted_for: Option<u64>,
    pub log: Seq<(C, u64)>,
}

impl<C: DeepView> DeepView for Persistent<C> {
    type V = Lasting<C::V>;

    open spec fn deep_view(&self) -> Lasting<C::V> {
        Lasting {
            current_term: self.current_term.0,
            voted_for: self.voted_for.deep_view(),
            log: self.log.deep_view(),
        }
    }
}

impl<C: DeepView> Default for Persistent<C> {
    fn default() -> (p: Persistent<C>)
        ensures
            p.deep_view() == (Lasting::<C::V> {
                current_term: 0,
                voted_for: None,
                log: Seq::empty(),
            }),
    {
        let p: Persistent<C> = Persistent {
            current_term: Term(0),
            voted_for: None,
            log: Vec::new(),
        };
        assert(p.log.deep_view() =~= Seq::empty());
        p
    }
}

impl<C> Persistent<C> {
    /// The state as text: the term on a line, then who was voted for, if anyone.
    pub fn to_string(&self) -> (s: String)
        ensures
            s@ == decimal(self.current_term.0 as nat) + "\n"@ + match self.voted_for {
                Some(c) => decimal(c.0 as nat),
                None => seq![],
            } + "\n"@,
    {
        let mut s: String = u64_to_string(self.current_term.0);
        s.append("\n");
        let ghost before = s@;
        if let Some(c) = &self.voted_for {
            push_decimal(&mut s, c.0);
        } else {
            assert(s@ =~= before + Seq::<char>::empty());
        }
        s.append("\n");
        s
    }
}

impl<C: Serialize> Serialize for Persistent<C> {
    open spec fn bytes(&self) -> Seq<u8> {
        self.current_term.bytes() + self.voted_for.bytes() + self.log.bytes()
    }

    fn serialize(&self, writer: &mut Vec<u8>) -> (r: Result<(), SerializeError>) {
        let ghost before = writer@;
        self.current_term.serialize(writer)?;
        self.voted_for.serialize(writer)?;
        self.log.serialize(writer)?;
        assert(writer@ =~= before + self.bytes());
        Ok(())
    }
}

impl<C: Deserialize> Deserialize for Persistent<C> {
    open spec fn start() -> Lasting<C::V> {
        Lasting { current_term: 0, voted_for: None, log: seq![] }
    }

    open spec fn read_onto(was: Lasting<C::V>, data: Seq<u8>) -> Read<Lasting<C::V>> {
        let term = Term::read_onto(was.current_term, data);
        let was = Lasting { current_term: term.value, ..was };
        match term.fault {
            Some(e) => broken(was, term.left, e),
            None => {
                let vote = Option::<Candidate>::read_onto(was.voted_for, term.left);
                let was = Lasting { voted_for: vote.value, ..was };
                match vote.fault {
                    Some(e) => broken(was, vote.left, e),
                    None => {
                        let log = Vec::<LogEntry<C>>::read_onto(was.log, vote.left);
                        Read {
                            value: Lasting { log: log.value, ..was },
                            left: log.left,
                            fault: log.fault,
                        }
                    },
                }
            },
        }
    }

    fn fresh() -> (x: Persistent<C>) {
        Persistent { current_term: Term::fresh(), voted_for: None, log: Vec::fresh() }
    }

    fn deserialize_into(&mut self, reader: &mut Reader) -> (r: Result<(), DeserializeError>) {
        match self.current_term.deserialize_into(reader) {
            Ok(_) => {},
            Err(e) => return Err(e),
        }
        match self.voted_for.deserialize_into(reader) {
            Ok(_) => {},
            Err(e) => return Err(e),
        }
        self.log.deserialize_into(reader)
    }
}

/// What does not survive reboots.
#[derive(Debug)]
pub struct Volatile {
    pub commit_index: usize,
    pub last_applied: usize,
}

impl Default for Volatile {
    fn default() -> (v: Volatile)
        ensures
            v.commit_index == 0,
            v.last_applied == 0,
    {
        Volatile { commit_index: 0, last_applied: 0 }
    }
}

/// What leaders know of their followers.
#[derive(Debug)]
pub struct Leader {
    pub next_index: Vec<usize>,
    pub match_index: Vec<usize>,
}

impl Default for Leader {
    fn default() -> (l: Leader)
        ensures
            l.next_index@ == Seq::<usize>::empty(),
            l.match_index@ == Seq::<usize>::empty(),
    {
        Leader { next_index: Vec::new(), match_index: Vec::new() }
    }
}

/// The state of a node, by its role.
#[derive(Debug)]
pub enum State<C> {
    Follower { p: Persistent<C>, v: Volatile },
    Candidate { p: Persistent<C>, v: Volatile },
    Leader { p: Persistent<C>, v: Volatile, l: Leader },
}

proof fn lemma_candidate_reads_back(c: Candidate)
    ensures
        reads_back(c),
{
    u64_reads_back(c.0);
    assert forall|rest: Seq<u8>| #[trigger]
        Candidate::read_onto(0, c.bytes() + rest) == whole(c.0, rest) by {
        assert(u64::read_onto(0, c.0.bytes() + rest) == whole(c.0, rest));
    }
}

/// Entries are read as they were written, if their commands are.
pub proof fn entry_reads_back<C: Serialize + Deserialize>(e: LogEntry<C>)
    requires
        reads_back(e.cmd),
    ensures
        reads_back(e),
{
    u64_reads_back(e.term.0);
    assert forall|rest: Seq<u8>| #[trigger]
        LogEntry::<C>::read_onto(LogEntry::<C>::start(), e.bytes() + rest) == whole(e.deep_view(), rest) by {
        let left = e.term.bytes() + rest;
        assert(e.bytes() + rest =~= e.cmd.bytes() + left);
        assert(C::read_onto(C::start(), e.cmd.bytes() + left) == whole(e.cmd.deep_view(), left));
        assert(u64::read_onto(0, e.term.0.bytes() + rest) == whole(e.term.0, rest));
    }
}

/// What survives reboots is read as it was written, if the commands in the log are.
pub proof fn persistent_reads_back<C: Serialize + Deserialize>(p: Persistent<C>)
    requires
        p.log@.len() <= u64::MAX,
        forall|i: int| 0 <= i < p.log@.len() ==> reads_back((#[trigger] p.log@[i]).cmd),
    ensures
        reads_back(p),
{
    u64_reads_back(p.current_term.0);
    if let Some(c) = p.voted_for {
        lemma_candidate_reads_back(c);
    }
    option_reads_back(p.voted_for);
    assert forall|i: int| 0 <= i < p.log@.len() implies reads_back(#[trigger] p.log@[i]) by {
        entry_reads_back(p.log@[i]);
    }
    vec_reads_back(p.log);
    assert forall|rest: Seq<u8>| #[trigger]
        Persistent::<C>::read_onto(Persistent::<C>::start(), p.bytes() + rest) == whole(p.deep_view(), rest) by {
        let left2 = p.log.bytes() + rest;
        let left1 = p.voted_for.bytes() + left2;
        assert(p.bytes() + rest =~= p.current_term.bytes() + left1);
        assert(u64::read_onto(0, p.current_term.0.bytes() + left1) == whole(p.current_term.0, left1));
        assert(Option::<Candidate>::read_onto(None, p.voted_for.bytes() + left2) == whole(
            p.voted_for.deep_view(),
            left2,
        ));
        assert(Vec::<LogEntry<C>>::read_onto(seq![], p.log.bytes() + rest) == whole(p.log.deep_view(), rest));
    }
}

/// What survives reboots is written as the term, then the vote, then the log; an entry as its
/// command, then its term.
pub proof fn states_are_written_part_by_part<C: Serialize>(p: Persistent<C>, e: LogEntry<C>)
    ensures
        p.bytes().take(8) == p.current_term.0.bytes(),
        p.voted_for matches Some(c) ==> p.bytes()[8] == 1 && p.bytes().subrange(9, 17)
            == c.0.bytes() && p.bytes().skip(17) == p.log.bytes(),
        p.voted_for is None ==> p.bytes()[8] == 0 && p.bytes().skip(9) == p.log.bytes(),
        e.bytes().take(e.bytes().len() - 8) == e.cmd.bytes(),
        e.bytes().skip(e.bytes().len() - 8) == e.term.0.bytes(),
{
    crate::serde::numbers_are_written_little_endian(p.current_term.0);
    crate::serde::numbers_are_written_little_endian(e.term.0);
    crate::serde::options_are_written_behind_a_tag(p.voted_for);
    assert(p.bytes().take(8) =~= p.current_term.0.bytes());
    match p.voted_for {
        Some(c) => {
            crate::serde::numbers_are_written_little_endian(c.0);
            assert(p.bytes().subrange(9, 17) =~= c.0.bytes());
            assert(p.bytes().skip(17) =~= p.log.bytes());
        },
        None => {
            assert(p.bytes().skip(9) =~= p.log.bytes());
        },
    }
    assert(e.bytes().take(e.bytes().len() - 8) =~= e.cmd.bytes());
    assert(e.bytes().skip(e.bytes().len() - 8) =~= e.term.0.bytes());
}

/// A character of ASCII that can be printed stands for itself, unless it is a quote or a
/// backslash; any other is told by a backslash and a letter, or by its number.
pub proof fn escapes_tell_the_character(c: char)
    ensures
        ' ' <= c <= '~' && c != '\'' && c != '"' && c != '\\' ==> escaped(c) == seq![c],
        c == '\'' || c == '"' || c == '\\' ==> escaped(c) == seq!['\\', c],
        c == '\n' ==> escaped(c) == seq!['\\', 'n'],
        c == '\r' ==> escaped(c) == seq!['\\', 'r'],
        c == '\t' ==> escaped(c) == seq!['\\', 't'],
        !(' ' <= c <= '~') && c != '\n' && c != '\r' && c != '\t' ==> {
            let t = escaped(c);
            &&& t.len() > 4
            &&& t.take(3) == seq!['\\', 'u', '{']
            &&& t.last() == '}'
            &&& crate::decimal::hexadecimal_value(t.subrange(3, t.len() - 1)) == c as int
        },
{
    if !(' ' <= c <= '~') && c != '\n' && c != '\r' && c != '\t' {
        reveal_strlit("\\u{");
        reveal_strlit("}");
        let h = hexadecimal(c as u32 as nat);
        crate::decimal::numbers_are_written_by_value(c as u32 as nat);
        let t = escaped(c);
        assert(t.take(3) =~= seq!['\\', 'u', '{']);
        assert(t.subrange(3, t.len() - 1) =~= h);
    }
}

/// A text is escaped one character after the other.
pub proof fn texts_are_escaped_in_order(s: Seq<char>, c: char)
    ensures
        all_escaped(seq![], 0) == Seq::<char>::empty(),
        all_escaped(s.push(c), 0) == all_escaped(s, 0) + escaped(c),
{
    lemma_escaped_push(s, c, 0);
}

proof fn lemma_escaped_push(s: Seq<char>, c: char, i: int)
    requires
        0 <= i <= s.len(),
    ensures
        all_escaped(s.push(c), i) == all_escaped(s, i) + escaped(c),
    decreases s.len() - i,
{
    let all = s.push(c);
    if i < s.len() {
        lemma_escaped_push(s, c, i + 1);
        assert(all[i] == s[i]);
        assert(all_escaped(all, i) =~= all_escaped(s, i) + escaped(c));
    } else {
        assert(all_escaped(all, i + 1) =~= seq![]);
        assert(all_escaped(all, i) =~= all_escaped(s, i) + escaped(c));
    }
}

} // verus!
