//! Ser/de implementations for domain types.
use crate::assoc::{lookup_after_put, lookup_after_without, put};
use crate::decimal::{decimal, parse_u64};
use crate::json::conversions::from_value::{Reason, TryFromError};
use crate::json::fields::{both, taken2};
use crate::json::serde::{
    all_json, list_reads_as, reads_as, reads_back, u64_from_json, u64_reads_back, Deserialize,
    DeserializeError, Serialize, SerializeError, Undeserialized,
};
use crate::json::value::{Json, Object, Value};
use crate::raft::log::{Entry, Log, LogEntry, LogIndex, Term};
use vstd::prelude::*;

verus! {

impl Serialize for LogIndex {
    open spec fn json(&self) -> Json {
        Json::Number(decimal(self@ as nat))
    }

    fn serialize(&self) -> (r: Result<Value, SerializeError>) {
        self.get().serialize()
    }
}

/// The index that a representation stands for: any unsigned number but zero.
pub open spec fn index_from_json(j: Json) -> Result<u64, Undeserialized> {
    match u64_from_json(j) {
        Err(e) => Err(e),
        Ok(n) => if n == 0 {
            Err(Undeserialized::InvalidValue(j))
        } else {
            Ok(n)
        },
    }
}

impl Deserialize for LogIndex {
    open spec fn from_json(j: Json) -> Result<u64, Undeserialized> {
        index_from_json(j)
    }

    fn deserialize(value: Value) -> (r: Result<Self, DeserializeError>) {
        match value {
            Value::Number(n) => match parse_u64(n.0.as_str()) {
                Ok(x) => match LogIndex::new(x) {
                    Some(i) => Ok(i),
                    None => Err(DeserializeError::InvalidValue(Value::Number(n))),
                },
                Err(e) => Err(
                    DeserializeError::InvalidConversion(
                        TryFromError { value: Value::Number(n), reason: Some(Reason::Int(e)) },
                    ),
                ),
            },
            _ => Err(DeserializeError::InvalidConversion(TryFromError { value, reason: None })),
        }
    }
}

impl Serialize for Term {
    open spec fn json(&self) -> Json {
        Json::Number(decimal(self.0 as nat))
    }

    fn serialize(&self) -> (r: Result<Value, SerializeError>) {
        self.0.serialize()
    }
}

impl Deserialize for Term {
    open spec fn from_json(j: Json) -> Result<u64, Undeserialized> {
        u64_from_json(j)
    }

    fn deserialize(value: Value) -> (r: Result<Self, DeserializeError>) {
        match u64::deserialize(value) {
            Ok(n) => Ok(Term(n)),
            Err(e) => Err(e),
        }
    }
}

impl<C: Serialize> Serialize for LogEntry<C> {
    open spec fn json(&self) -> Json {
        Json::Object(put(put(Seq::empty(), "c"@, self.cmd.json()), "t"@, self.term.json()))
    }

    fn serialize(&self) -> (r: Result<Value, SerializeError>) {
        let mut map: Object = Object::new();
        match self.cmd.serialize() {
            Ok(v) => map.set("c", v),
            Err(e) => return Err(e),
        }
        match self.term.serialize() {
            Ok(v) => map.set("t", v),
            Err(e) => return Err(e),
        }
        Ok(Value::Object(map))
    }
}

impl<C: Deserialize> Deserialize for LogEntry<C> {
    open spec fn from_json(j: Json) -> Result<Entry<C::V>, Undeserialized> {
        match j {
            Json::Object(m) => match taken2(m, "c"@, "t"@) {
                (Some((cmd, term)), _) => match both(C::from_json(cmd), Term::from_json(term)) {
                    Ok((cmd, term)) => Ok(Entry { cmd, term }),
                    Err(e) => Err(e),
                },
                (None, rest) => Err(Undeserialized::InvalidValue(Json::Object(rest))),
            },
            _ => Err(Undeserialized::InvalidValue(j)),
        }
    }

    fn deserialize(value: Value) -> (r: Result<Self, DeserializeError>) {
        match value {
            Value::Object(map) => {
                let mut map: Object = map;
                match map.take2("c", "t") {
                    Some((cmd, term)) => {
                        let cmd: C = match C::deserialize(cmd) {
                            Ok(x) => x,
                            Err(e) => return Err(e),
                        };
                        let term: Term = match Term::deserialize(term) {
                            Ok(x) => x,
                            Err(e) => return Err(e),
                        };
                        Ok(LogEntry { cmd, term })
                    },
                    None => Err(DeserializeError::InvalidValue(Value::Object(map))),
                }
            },
            _ => Err(DeserializeError::InvalidValue(value)),
        }
    }
}

impl<C: Serialize> Serialize for Log<C> {
    open spec fn json(&self) -> Json {
        Json::Array(all_json(self.inner@))
    }

    fn serialize(&self) -> (r: Result<Value, SerializeError>) {
        self.inner.serialize()
    }
}

impl<C: Deserialize> Deserialize for Log<C> {
    open spec fn from_json(j: Json) -> Result<Seq<Entry<C::V>>, Undeserialized> {
        Vec::<LogEntry<C>>::from_json(j)
    }

    fn deserialize(value: Value) -> (r: Result<Self, DeserializeError>) {
        match Vec::<LogEntry<C>>::deserialize(value) {
            Ok(inner) => Ok(Log { inner }),
            Err(e) => Err(e),
        }
    }
}

/// Terms read back.
pub broadcast proof fn term_reads_back(t: Term)
    ensures
        #[trigger] reads_back(t),
{
    u64_reads_back(t.0);
    assert(reads_back(t.0));
}

/// Indexes read back.
pub broadcast proof fn index_reads_back(i: LogIndex)
    requires
        i@ >= 1,
    ensures
        #[trigger] reads_back(i),
{
    u64_reads_back(i@);
    assert(reads_back(i@));
}

/// A log entry is read with what its command is read as.
pub proof fn log_entry_reads_as<C: Serialize + Deserialize>(e: LogEntry<C>, cmd: C::V)
    requires
        reads_as(e.cmd, cmd),
    ensures
        reads_as(e, Entry { cmd, term: e.term.0 }),
{
    broadcast use lookup_after_put, lookup_after_without, term_reads_back;

    assert("c"@ != "t"@) by {
        reveal_strlit("c");
        reveal_strlit("t");
        assert("c"@[0] == 'c' && "t"@[0] == 't');
    }
    assert(reads_back(e.term));
}

/// A log is read with what its commands are read as.
pub proof fn log_reads_as<C: Serialize + Deserialize>(l: Log<C>, cmds: Seq<C::V>)
    requires
        cmds.len() == l.inner@.len(),
        forall|k: int|
            0 <= k < cmds.len() ==> reads_as((#[trigger] l.inner@[k]).cmd, cmds[k]),
    ensures
        reads_as(l, with_commands(l.deep_view(), cmds)),
{
    let entries = with_commands(l.deep_view(), cmds);
    assert forall|k: int| 0 <= k < l.inner@.len() implies reads_as(
        #[trigger] l.inner@[k],
        entries[k],
    ) by {
        log_entry_reads_as(l.inner@[k], cmds[k]);
    }
    list_reads_as(l.inner@, entries);
}

/// A log with other commands in its entries.
pub open spec fn with_commands<C>(log: Seq<Entry<C>>, cmds: Seq<C>) -> Seq<Entry<C>> {
    Seq::new(log.len(), |k: int| Entry { cmd: cmds[k], term: log[k].term })
}

/// A log reads back where its commands do.
pub proof fn log_reads_back<C: Serialize + Deserialize>(l: Log<C>)
    requires
        forall|k: int| 0 <= k < l.inner@.len() ==> reads_back((#[trigger] l.inner@[k]).cmd),
    ensures
        reads_back(l),
{
    let cmds = Seq::new(l.inner@.len(), |k: int| l.inner@[k].cmd.deep_view());
    log_reads_as(l, cmds);
    assert(with_commands(l.deep_view(), cmds) =~= l.deep_view());
}

} // verus!
