//! Keeping state across reboots.
use crate::assoc::{
    distinct_after_put, lemma_position, lookup, lookup_after_put, lookup_after_without, put, without,
};
use crate::datum::Duplicate;
use crate::json::error::Error;
use crate::json::fields::{both3, taken3};
use crate::json::grammar::MAX_DEPTH;
use crate::json::print::text;
use crate::json::roundtrip::{
    lemma_decimal_is_number, lemma_signed_decimal_is_number, parse_inverts_to_string,
    printable,
};
use crate::json::serde::{
    all_json, i64_reads_back, option_reads_back, reads_as, reads_back, string_reads_back,
    u64_reads_back, Deserialize, DeserializeError, Serialize, SerializeError, Undeserialized,
};
use crate::json::value::{Json, Object, Value};
use crate::json::wire::{
    read_as, read_document, read_inverts_write, write_document, ReadError, Unread,
};
use crate::raft::command::{command_keeps_operation, Cmd, Command, WireCommand};
use crate::raft::log::{Entry, Log, LogEntry, Term};
use crate::raft::serde::{log_reads_as, term_reads_back, with_commands};
use crate::raft::NodeID;
use vstd::prelude::*;
use vstd::string::{StrSliceExecFns, StringExecFns};
use vstd::utf8::encode_utf8;

verus! {

/// Persistent node state.
///
/// Needs to be persisted to stable storage before responding to requests, and restored
/// from it on node boot.
///
/// See also fig. 4 in <https://raft.github.io/raft.pdf>.
#[derive(Debug, PartialEq)]
pub struct Persistent<Cmd> {
    pub current_term: Term,
    pub voted_for: Option<NodeID>,
    pub log: Log<Cmd>,
}

/// What a [`Persistent`] is, mathematically.
#[verifier::ext_equal]
pub struct Kept<C> {
    pub current_term: u64,
    pub voted_for: Option<Seq<char>>,
    pub log: Seq<Entry<C>>,
}

impl<Cmd: DeepView> DeepView for Persistent<Cmd> {
    type V = Kept<Cmd::V>;

    open spec fn deep_view(&self) -> Kept<Cmd::V> {
        Kept {
            current_term: self.current_term.0,
            voted_for: self.voted_for.deep_view(),
            log: self.log.deep_view(),
        }
    }
}

/// If no persisted state to restore from exists, allow to start from scratch.
impl<Cmd: DeepView> Default for Persistent<Cmd> {
    fn default() -> (p: Persistent<Cmd>)
        ensures
            p.deep_view() == (Kept::<Cmd::V> {
                current_term: 0,
                voted_for: None,
                log: Seq::empty(),
            }),
    {
        Persistent { current_term: Term::default(), voted_for: None, log: Log::default() }
    }
}

impl<Cmd: Duplicate> Duplicate for Persistent<Cmd> {
    fn duplicate(&self) -> (d: Persistent<Cmd>) {
        Persistent {
            current_term: self.current_term,
            voted_for: self.voted_for.duplicate(),
            log: self.log.duplicate(),
        }
    }
}

impl<C: Serialize> Serialize for Persistent<C> {
    open spec fn json(&self) -> Json {
        let m = put(Seq::empty(), "current_term"@, self.current_term.json());
        let m = put(m, "voted_for"@, self.voted_for.json());
        Json::Object(put(m, "log"@, self.log.json()))
    }

    fn serialize(&self) -> (r: Result<Value, SerializeError>) {
        let mut map: Object = Object::new();
        map.put("current_term", &self.current_term)?;
        map.put("voted_for", &self.voted_for)?;
        map.put("log", &self.log)?;
        Ok(Value::Object(map))
    }
}

/// The state that a representation stands for.
pub open spec fn kept_from_json<C: Deserialize>(j: Json) -> Result<Kept<C::V>, Undeserialized> {
    match j {
        Json::Object(m) => match taken3(m, "current_term"@, "voted_for"@, "log"@) {
            (Some((a, b, c)), _) => match both3(
                Term::from_json(a),
                Option::<String>::from_json(b),
                Log::<C>::from_json(c),
            ) {
                Ok((current_term, voted_for, log)) => Ok(Kept { current_term, voted_for, log }),
                Err(e) => Err(e),
            },
            (None, rest) => Err(Undeserialized::InvalidValue(Json::Object(rest))),
        },
        _ => Err(Undeserialized::InvalidValue(j)),
    }
}

impl<C: Deserialize> Deserialize for Persistent<C> {
    open spec fn from_json(j: Json) -> Result<Kept<C::V>, Undeserialized> {
        kept_from_json::<C>(j)
    }

    fn deserialize(value: Value) -> (r: Result<Self, DeserializeError>) {
        match value {
            Value::Object(map) => {
                let mut map: Object = map;
                match map.take3("current_term", "voted_for", "log") {
                    Some((a, b, c)) => {
                        let current_term: Term = match Term::deserialize(a) {
                            Ok(x) => x,
                            Err(e) => return Err(e),
                        };
                        let voted_for: Option<String> = match Option::<String>::deserialize(b) {
                            Ok(x) => x,
                            Err(e) => return Err(e),
                        };
                        let log: Log<C> = match Log::<C>::deserialize(c) {
                            Ok(x) => x,
                            Err(e) => return Err(e),
                        };
                        Ok(Persistent { current_term, voted_for, log })
                    },
                    None => Err(DeserializeError::InvalidValue(Value::Object(map))),
                }
            },
            _ => Err(DeserializeError::InvalidValue(value)),
        }
    }
}

/// Error raised when persisting or restoring from stable storage.
#[derive(Debug)]
pub enum PersistenceError {
    Serialize(SerializeError),
    Parse(Error),
    Deserialize(DeserializeError),
    IoError(String),
}

impl PersistenceError {
    /// The message for this error, with what could not be deserialized, if that is what it is
    /// about, shown as `shown`.
    pub open spec fn message(self, shown: Seq<char>) -> Seq<char> {
        match self {
            PersistenceError::Serialize(_) => "serialization error while persisting: "@
                + "serialization error"@,
            PersistenceError::Parse(e) => "JSON parsing error while restoring: "@ + e.message(),
            PersistenceError::Deserialize(e) => "deserialization error while restoring: "@
                + e.message(shown),
            PersistenceError::IoError(e) => "i/o error while persisting: "@ + e@,
        }
    }

    /// The message for this error. How what could not be deserialized is shown to developers
    /// is up to the caller.
    pub fn to_string(&self, shown: &str) -> (s: String)
        ensures
            s@ == self.message(shown@),
    {
        match self {
            PersistenceError::Serialize(e) => {
                let mut s: String = "serialization error while persisting: ".to_owned();
                s.append(e.to_string().as_str());
                s
            },
            PersistenceError::Parse(e) => {
                let mut s: String = "JSON parsing error while restoring: ".to_owned();
                s.append(e.to_string().as_str());
                s
            },
            PersistenceError::Deserialize(e) => {
                let mut s: String = "deserialization error while restoring: ".to_owned();
                s.append(e.to_string(shown).as_str());
                s
            },
            PersistenceError::IoError(e) => {
                let mut s: String = "i/o error while persisting: ".to_owned();
                s.append(e.as_str());
                s
            },
        }
    }
}

impl From<SerializeError> for PersistenceError {
    fn from(value: SerializeError) -> (e: PersistenceError) {
        PersistenceError::Serialize(value)
    }
}

impl vstd::std_specs::convert::FromSpecImpl<SerializeError> for PersistenceError {
    open spec fn obeys_from_spec() -> bool {
        true
    }

    open spec fn from_spec(value: SerializeError) -> PersistenceError {
        PersistenceError::Serialize(value)
    }
}

impl From<DeserializeError> for PersistenceError {
    fn from(value: DeserializeError) -> (e: PersistenceError) {
        PersistenceError::Deserialize(value)
    }
}

impl vstd::std_specs::convert::FromSpecImpl<DeserializeError> for PersistenceError {
    open spec fn obeys_from_spec() -> bool {
        true
    }

    open spec fn from_spec(value: DeserializeError) -> PersistenceError {
        PersistenceError::Deserialize(value)
    }
}

impl From<Error> for PersistenceError {
    fn from(value: Error) -> (e: PersistenceError) {
        PersistenceError::Parse(value)
    }
}

impl vstd::std_specs::convert::FromSpecImpl<Error> for PersistenceError {
    open spec fn obeys_from_spec() -> bool {
        true
    }

    open spec fn from_spec(value: Error) -> PersistenceError {
        PersistenceError::Parse(value)
    }
}

impl<Cmd: Serialize> Persistent<Cmd> {
    /// Serializes out to a buffer.
    pub fn persist(&self, dest: &mut Vec<u8>) -> (r: Result<(), PersistenceError>)
        ensures
            r is Ok,
            final(dest)@ == old(dest)@ + encode_utf8(text(self.json())),
    {
        match write_document(self) {
            Ok(s) => {
                let mut bytes: Vec<u8> = s.as_str().as_bytes_vec();
                dest.append(&mut bytes);
                Ok(())
            },
            Err(e) => Err(PersistenceError::from(e)),
        }
    }
}

impl<Cmd: Deserialize> Persistent<Cmd> {
    /// Restores from all that was persisted.
    pub fn restore(src: &[u8]) -> (r: Result<Self, PersistenceError>)
        ensures
            match r {
                Ok(p) => read_as::<Persistent<Cmd>>(src@) == Ok::<Kept<Cmd::V>, Unread>(
                    p.deep_view(),
                ),
                Err(PersistenceError::Parse(e)) => read_as::<Persistent<Cmd>>(src@) == Err::<
                    Kept<Cmd::V>,
                    Unread,
                >(Unread::Parse(e.kind@, e.pos as nat)),
                Err(PersistenceError::Deserialize(e)) => read_as::<Persistent<Cmd>>(src@) == Err::<
                    Kept<Cmd::V>,
                    Unread,
                >(Unread::Deserialize(e@)),
                Err(_) => false,
            },
    {
        match read_document::<Persistent<Cmd>>(src) {
            Ok(p) => Ok(p),
            Err(ReadError::Parse(e)) => Err(PersistenceError::from(e)),
            Err(ReadError::Deserialize(e)) => Err(PersistenceError::from(e)),
        }
    }
}

/// Putting a printable value under a key keeps an object printable.
pub proof fn lemma_put_printable(e: Seq<(Seq<char>, Json)>, k: Seq<char>, v: Json, depth: nat)
    requires
        printable(Json::Object(e), depth),
        printable(v, depth + 1),
    ensures
        printable(Json::Object(put(e, k, v)), depth),
{
    let f = put(e, k, v);
    distinct_after_put(e, k, v);
    lemma_position(e, k, 0);
    assert forall|i: int| 0 <= i < f.len() implies printable((#[trigger] f[i]).1, depth + 1) by {
        if i < e.len() && f[i] == e[i] {
            assert(printable(e[i].1, depth + 1));
        } else {
            assert(f[i].1 == v);
        }
    }
}

/// An object without members is printable.
pub proof fn lemma_empty_printable(depth: nat)
    requires
        depth + 1 <= MAX_DEPTH,
    ensures
        printable(Json::Object(Seq::<(Seq<char>, Json)>::empty()), depth),
{
}

proof fn lemma_entry_printable<C: Serialize>(e: LogEntry<C>, depth: nat)
    requires
        printable(e.cmd.json(), depth + 1),
    ensures
        printable(e.json(), depth),
{
    lemma_empty_printable(depth);
    let m = put(Seq::empty(), "c"@, e.cmd.json());
    lemma_put_printable(Seq::empty(), "c"@, e.cmd.json(), depth);
    lemma_decimal_is_number(e.term.0 as nat);
    lemma_put_printable(m, "t"@, e.term.json(), depth);
}

/// Persisted state can be printed, where the commands in its log can.
pub proof fn lemma_persistent_printable<C: Serialize>(p: Persistent<C>)
    requires
        forall|k: int|
            0 <= k < p.log.inner@.len() ==> printable((#[trigger] p.log.inner@[k]).cmd.json(), 3),
    ensures
        printable(p.json(), 0),
{
    lemma_empty_printable(0);
    let m1 = put(Seq::empty(), "current_term"@, p.current_term.json());
    lemma_decimal_is_number(p.current_term.0 as nat);
    lemma_put_printable(Seq::empty(), "current_term"@, p.current_term.json(), 0);
    let m2 = put(m1, "voted_for"@, p.voted_for.json());
    lemma_put_printable(m1, "voted_for"@, p.voted_for.json(), 0);
    let entries = all_json(p.log.inner@);
    assert forall|k: int| 0 <= k < entries.len() implies printable(#[trigger] entries[k], 2) by {
        assert(printable(p.log.inner@[k].cmd.json(), 3));
        lemma_entry_printable(p.log.inner@[k], 2);
    }
    assert(printable(Json::Array(entries), 1));
    lemma_put_printable(m2, "log"@, p.log.json(), 0);
}

/// Persisted state is read with what the commands in its log are read as.
pub proof fn persistent_reads_as<C: Serialize + Deserialize>(p: Persistent<C>, cmds: Seq<C::V>)
    requires
        cmds.len() == p.log.inner@.len(),
        forall|k: int|
            0 <= k < cmds.len() ==> reads_as((#[trigger] p.log.inner@[k]).cmd, cmds[k]),
    ensures
        reads_as(p, Kept { log: with_commands(p.log.deep_view(), cmds), ..p.deep_view() }),
{
    broadcast use lookup_after_put, lookup_after_without;

    assert("current_term"@ != "voted_for"@) by {
        reveal_strlit("current_term");
        reveal_strlit("voted_for");
        assert("current_term"@.len() == 12 && "voted_for"@.len() == 9);
    }
    assert("current_term"@ != "log"@) by {
        reveal_strlit("current_term");
        reveal_strlit("log");
        assert("current_term"@.len() == 12 && "log"@.len() == 3);
    }
    assert("voted_for"@ != "log"@) by {
        reveal_strlit("voted_for");
        reveal_strlit("log");
        assert("voted_for"@.len() == 9 && "log"@.len() == 3);
    }
    term_reads_back(p.current_term);
    assert(reads_back(p.current_term));
    if let Some(s) = p.voted_for {
        string_reads_back(s);
    }
    option_reads_back(p.voted_for);
    log_reads_as(p.log, cmds);
    let m0 = p.json()->Object_0;
    assert(lookup(m0, "current_term"@) == Some(p.current_term.json()));
    let m1 = without(m0, "current_term"@);
    assert(lookup(m1, "voted_for"@) == Some(p.voted_for.json()));
    let m2 = without(m1, "voted_for"@);
    assert(lookup(m2, "log"@) == Some(p.log.json()));
}

/// A node restores what it persisted, whatever its term, its vote and its log, where the
/// commands in the log read back and can be printed.
pub proof fn restore_inverts_persist<C: Serialize + Deserialize>(p: Persistent<C>)
    requires
        forall|k: int|
            0 <= k < p.log.inner@.len() ==> reads_back((#[trigger] p.log.inner@[k]).cmd)
                && printable(p.log.inner@[k].cmd.json(), 3),
    ensures
        read_as::<Persistent<C>>(encode_utf8(text(p.json()))) == Ok::<Kept<C::V>, Unread>(
            p.deep_view(),
        ),
{
    let cmds = Seq::new(p.log.inner@.len(), |k: int| p.log.inner@[k].cmd.deep_view());
    persistent_reads_as(p, cmds);
    assert(with_commands(p.log.deep_view(), cmds) =~= p.log.deep_view());
    lemma_persistent_printable(p);
    read_inverts_write(p);
}

/// A command without what is only known in memory: who asked for it, and how to answer.
pub open spec fn on_disk<K, V>(c: Cmd<K, V>) -> Cmd<K, V> {
    Cmd { inner: c.inner, response_id: None, in_reply_to: None, client: None }
}

/// Whether a key or a value can be written into the log and read from it.
pub open spec fn storable<T: Serialize + Deserialize>(x: T) -> bool {
    reads_back(x) && printable(x.json(), 4)
}

/// Whether the data in a command can be written into the log and read from it.
pub open spec fn operands_storable<K: Serialize + Deserialize, V: Serialize + Deserialize>(
    c: WireCommand<K, V>,
) -> bool {
    match c {
        WireCommand::Read { key } => storable(key),
        WireCommand::Write { key, value } => storable(key) && storable(value),
        WireCommand::CAS { key, from, to } => storable(key) && storable(from) && storable(to),
    }
}

proof fn lemma_command_printable<K: Serialize + Deserialize, V: Serialize + Deserialize>(
    c: WireCommand<K, V>,
)
    requires
        operands_storable(c),
    ensures
        printable(c.json(), 3),
{
    lemma_empty_printable(3);
    match c {
        WireCommand::Read { key } => {
            let m = put(Seq::empty(), "T"@, Json::String("r"@));
            lemma_put_printable(Seq::empty(), "T"@, Json::String("r"@), 3);
            lemma_put_printable(m, "k"@, key.json(), 3);
        },
        WireCommand::Write { key, value } => {
            let m = put(Seq::empty(), "T"@, Json::String("w"@));
            lemma_put_printable(Seq::empty(), "T"@, Json::String("w"@), 3);
            lemma_put_printable(m, "k"@, key.json(), 3);
            lemma_put_printable(put(m, "k"@, key.json()), "v"@, value.json(), 3);
        },
        WireCommand::CAS { key, from, to } => {
            let m = put(Seq::empty(), "T"@, Json::String("c"@));
            lemma_put_printable(Seq::empty(), "T"@, Json::String("c"@), 3);
            lemma_put_printable(m, "k"@, key.json(), 3);
            let m = put(m, "k"@, key.json());
            lemma_put_printable(m, "f"@, from.json(), 3);
            lemma_put_printable(put(m, "f"@, from.json()), "t"@, to.json(), 3);
        },
    }
}

/// A node that keeps a key-value store restores its term, its vote and every operation in
/// its log. Who asked for an operation is not persisted: clients have to ask again.
pub proof fn restore_keeps_operations<K: Serialize + Deserialize, V: Serialize + Deserialize>(
    p: Persistent<Command<K, V>>,
)
    requires
        forall|k: int|
            0 <= k < p.log.inner@.len() ==> operands_storable(
                (#[trigger] p.log.inner@[k]).cmd.inner,
            ),
    ensures
        read_as::<Persistent<Command<K, V>>>(encode_utf8(text(p.json()))) == Ok::<
            Kept<Cmd<K::V, V::V>>,
            Unread,
        >(
            Kept {
                log: Seq::new(
                    p.log.deep_view().len(),
                    |k: int|
                        Entry {
                            cmd: on_disk(p.log.deep_view()[k].cmd),
                            term: p.log.deep_view()[k].term,
                        },
                ),
                ..p.deep_view()
            },
        ),
{
    let cmds = Seq::new(p.log.inner@.len(), |k: int| on_disk(p.log.inner@[k].cmd.deep_view()));
    assert forall|k: int| 0 <= k < cmds.len() implies reads_as(
        (#[trigger] p.log.inner@[k]).cmd,
        cmds[k],
    ) by {
        command_keeps_operation(p.log.inner@[k].cmd);
    }
    persistent_reads_as(p, cmds);
    assert forall|k: int| 0 <= k < p.log.inner@.len() implies printable(
        (#[trigger] p.log.inner@[k]).cmd.json(),
        3,
    ) by {
        lemma_command_printable(p.log.inner@[k].cmd.inner);
    }
    lemma_persistent_printable(p);
    parse_inverts_to_string(p.json());
    assert(with_commands(p.log.deep_view(), cmds) =~= Seq::new(
        p.log.deep_view().len(),
        |k: int|
            Entry {
                cmd: on_disk(p.log.deep_view()[k].cmd),
                term: p.log.deep_view()[k].term,
            },
    ));
}

/// Numbers and strings can be written into the log and read from it, whatever they are.
pub proof fn numbers_and_strings_are_storable(n: u64, i: i64, s: String)
    ensures
        storable(n),
        storable(i),
        storable(s),
{
    u64_reads_back(n);
    i64_reads_back(i);
    string_reads_back(s);
    lemma_decimal_is_number(n as nat);
    lemma_signed_decimal_is_number(i as int);
    assert(reads_back(n) && reads_back(i) && reads_back(s));
}

} // verus!
