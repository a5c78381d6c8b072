//! What a node is called, where it is, and how it comes back.
use crate::decimal::{parse_u16, unsigned_upto, ParseIntError};
use crate::json::serde::Deserialize;
use crate::json::wire::{read_as, Unread};
use crate::raft::persistence::{Kept, PersistenceError, Persistent};
use crate::raft::NodeID;
use crate::text::chars_of;
use crate::words::string_of;
use vstd::prelude::*;
use vstd::string::StringExecFns;

verus! {

/// The names in a list that commas separate, behind the beginning of a name, from the `i`-th
/// character on.
pub open spec fn names_from(s: Seq<char>, i: int, begun: Seq<char>) -> Seq<Seq<char>>
    decreases s.len() - i,
{
    if i < 0 || i >= s.len() {
        seq![begun]
    } else if s[i] == ',' {
        seq![begun] + names_from(s, i + 1, seq![])
    } else {
        names_from(s, i + 1, begun.push(s[i]))
    }
}

/// The names in a list that commas separate.
pub open spec fn names_in(s: Seq<char>) -> Seq<Seq<char>> {
    names_from(s, 0, seq![])
}

/// Names as a list that commas separate, from the `i`-th on.
pub open spec fn joined_from(names: Seq<Seq<char>>, i: int) -> Seq<char>
    decreases names.len() - i,
{
    if i < 0 || i >= names.len() {
        seq![]
    } else if i == names.len() - 1 {
        names[i]
    } else {
        names[i] + ","@ + joined_from(names, i + 1)
    }
}

/// Names as a list that commas separate.
pub open spec fn joined(names: Seq<Seq<char>>) -> Seq<char> {
    joined_from(names, 0)
}

/// The names in a list that commas separate.
pub fn split_names(s: &str) -> (r: Vec<NodeID>)
    ensures
        r.deep_view() == names_in(s@),
{
    let chars: Vec<char> = chars_of(s);
    let mut r: Vec<NodeID> = Vec::new();
    let mut name: String = String::new();
    let mut i: usize = 0;
    assert(r.deep_view() + names_from(s@, 0, name@) =~= names_in(s@));
    while i < chars.len()
        invariant
            i <= chars@.len(),
            chars@ == s@,
            r.deep_view() + names_from(s@, i as int, name@) == names_in(s@),
        decreases chars@.len() - i,
    {
        let ghost before = r.deep_view();
        let ghost begun = name@;
        if chars[i] == ',' {
            let ghost rest = names_from(s@, i + 1, seq![]);
            r.push(name);
            assert(r.deep_view() =~= before.push(begun));
            assert(before + (seq![begun] + rest) =~= before.push(begun) + rest);
            name = String::new();
            assert(name@ =~= seq![]);
        } else {
            name.push(chars[i]);
        }
        i = i + 1;
    }
    let ghost before = r.deep_view();
    let ghost begun = name@;
    r.push(name);
    assert(r.deep_view() =~= before + seq![begun]);
    r
}

/// Names as a list that commas separate.
pub fn join_names(names: &Vec<NodeID>) -> (s: String)
    ensures
        s@ == joined(names.deep_view()),
{
    let mut s: String = String::new();
    let ghost all = names.deep_view();
    let mut i: usize = 0;
    assert(s@ + joined_from(all, 0) =~= joined(all));
    while i < names.len()
        invariant
            i <= names@.len(),
            all == names.deep_view(),
            s@ + joined_from(all, i as int) == joined(all),
        decreases names@.len() - i,
    {
        let ghost before = s@;
        assert(all[i as int] == names@[i as int]@);
        s.append(names[i].as_str());
        if i + 1 < names.len() {
            s.append(",");
        }
        assert(before + joined_from(all, i as int) =~= s@ + joined_from(all, i + 1));
        i = i + 1;
    }
    assert(s@ + Seq::<char>::empty() =~= s@);
    s
}

proof fn lemma_name_ends(s: Seq<char>, i: int, begun: Seq<char>, name: Seq<char>)
    requires
        0 <= i,
        i + name.len() <= s.len(),
        !name.contains(','),
        forall|k: int| 0 <= k < name.len() ==> s[i + k] == name[k],
    ensures
        names_from(s, i, begun) == names_from(s, i + name.len(), begun + name),
    decreases name.len(),
{
    if name.len() == 0 {
        assert(begun + name =~= begun);
    } else {
        assert(name[0] == s[i + 0]);
        assert(name.contains(name[0]));
        let rest = name.skip(1);
        assert(!rest.contains(',')) by {
            if rest.contains(',') {
                let k = choose|k: int| 0 <= k < rest.len() && rest[k] == ',';
                assert(name[k + 1] == ',');
            }
        }
        assert forall|k: int| 0 <= k < rest.len() implies s[i + 1 + k] == rest[k] by {
            assert(s[i + (k + 1)] == name[k + 1]);
        }
        lemma_name_ends(s, i + 1, begun.push(s[i]), rest);
        assert(begun.push(s[i]) + rest =~= begun + name);
    }
}

proof fn lemma_split_from(names: Seq<Seq<char>>, s: Seq<char>, at: int, i: int)
    requires
        0 <= i < names.len(),
        0 <= at <= s.len(),
        s.skip(at) == joined_from(names, i),
        forall|k: int| 0 <= k < names.len() ==> !(#[trigger] names[k]).contains(','),
    ensures
        names_from(s, at, seq![]) == names.skip(i),
    decreases names.len() - i,
{
    let name = names[i];
    let tail = s.skip(at);
    assert(!name.contains(','));
    if i < names.len() - 1 {
        assert(tail == name + ","@ + joined_from(names, i + 1));
    }
    assert(tail.len() >= name.len());
    assert forall|k: int| 0 <= k < name.len() implies s[at + k] == name[k] by {
        assert(tail[k] == s[at + k]);
        assert(tail[k] == name[k]);
    }
    lemma_name_ends(s, at, seq![], name);
    assert(Seq::<char>::empty() + name =~= name);
    let end = at + name.len();
    if i == names.len() - 1 {
        assert(end == s.len());
        assert(names.skip(i) =~= seq![name]);
    } else {
        reveal_strlit(",");
        assert(tail[name.len() as int] == ',');
        assert(s[end] == ',');
        assert(s.skip(end + 1) =~= joined_from(names, i + 1)) by {
            assert(s.skip(end + 1) =~= tail.skip(name.len() as int + 1));
            assert(tail.skip(name.len() as int + 1) =~= joined_from(names, i + 1));
        }
        lemma_split_from(names, s, end + 1, i + 1);
        assert(names.skip(i) =~= seq![name] + names.skip(i + 1));
    }
}

/// A child is told its peers as its parent knows them: what is split is what was joined,
/// where there is a name at all, and none has a comma in it.
pub proof fn split_inverts_join(names: Seq<Seq<char>>)
    requires
        names.len() > 0,
        forall|k: int| 0 <= k < names.len() ==> !(#[trigger] names[k]).contains(','),
    ensures
        names_in(joined(names)) == names,
{
    let s = joined(names);
    assert(s.skip(0) =~= joined_from(names, 0));
    lemma_split_from(names, s, 0, 0);
    assert(names.skip(0) =~= names);
}

/// Whether a character is a numeral, whatever the script.
pub uninterp spec fn is_numeral(c: char) -> bool;

/// `char::is_numeric`. What it gives depends on the character alone; which characters are
/// numerals is Unicode's matter, and not said here.
#[verifier::external_body]
fn numeral(c: char) -> (b: bool)
    ensures
        b == is_numeral(c),
{
    c.is_numeric()
}

/// A node's name without its first character, if that is a letter or the like.
pub open spec fn number_text(name: Seq<char>, first_is_numeral: bool) -> Option<Seq<char>> {
    if name.len() == 0 || first_is_numeral {
        None
    } else {
        Some(name.skip(1))
    }
}

/// A node's name without its first character, if that is no numeral.
pub fn strip_letter(name: &str) -> (r: Option<String>)
    ensures
        r.deep_view() == number_text(name@, is_numeral(name@[0])),
{
    let chars: Vec<char> = chars_of(name);
    if chars.len() == 0 {
        return None;
    }
    let first: bool = numeral(chars[0]);
    strip_first(name, first)
}

/// A name without its first character, if there is one, and it is told to be no numeral.
pub fn strip_first(name: &str, first_is_numeral: bool) -> (r: Option<String>)
    ensures
        r.deep_view() == number_text(name@, first_is_numeral),
{
    let chars: Vec<char> = chars_of(name);
    if chars.len() == 0 || first_is_numeral {
        return None;
    }
    assert(name@.subrange(1, name@.len() as int) =~= name@.skip(1));
    Some(string_of(&chars, 1, chars.len()))
}

/// The first port for metrics.
pub const METRICS_PORT: u16 = 11_000;

/// The port for the metrics of the node with a number, if there is such a port.
pub fn metrics_port(number: &str) -> (r: Result<Option<u16>, ParseIntError>)
    ensures
        match unsigned_upto(number@, u16::MAX as nat) {
            Ok(n) => if n + METRICS_PORT > u16::MAX {
                r == Ok::<Option<u16>, ParseIntError>(None)
            } else {
                r == Ok::<Option<u16>, ParseIntError>(Some((n + METRICS_PORT) as u16))
            },
            Err(e) => r == Err::<Option<u16>, ParseIntError>(e),
        },
{
    match parse_u16(number) {
        Err(e) => Err(e),
        Ok(n) => Ok(n.checked_add(METRICS_PORT)),
    }
}

/// What a node boots with: what it kept, or nothing, if it kept nothing. An empty file might
/// be there if it was created but never initially written to before crashing.
pub fn boot<Cmd: Deserialize>(kept: Option<&[u8]>) -> (r: Result<Persistent<Cmd>, PersistenceError>)
    ensures
        match kept {
            Some(data) if data@.len() > 0 => match r {
                Ok(p) => read_as::<Persistent<Cmd>>(data@) == Ok::<Kept<Cmd::V>, Unread>(
                    p.deep_view(),
                ),
                Err(PersistenceError::Parse(e)) => read_as::<Persistent<Cmd>>(data@) == Err::<
                    Kept<Cmd::V>,
                    Unread,
                >(Unread::Parse(e.kind@, e.pos as nat)),
                Err(PersistenceError::Deserialize(e)) => read_as::<Persistent<Cmd>>(data@) == Err::<
                    Kept<Cmd::V>,
                    Unread,
                >(Unread::Deserialize(e@)),
                Err(_) => false,
            },
            _ => r matches Ok(p) && p.deep_view() == (Kept::<Cmd::V> {
                current_term: 0,
                voted_for: None,
                log: Seq::empty(),
            }),
        },
{
    match kept {
        Some(data) => {
            if data.len() == 0 {
                Ok(Persistent::default())
            } else {
                Persistent::restore(data)
            }
        },
        None => Ok(Persistent::default()),
    }
}

/// The name of a file, with some random digits in base sixteen. A bit like a UUID.
pub open spec fn backing_name(digits: Seq<u8>) -> Seq<char> {
    "raft-persistence-"@ + Seq::new(
        digits.len(),
        |i: int| crate::decimal::digit_char(digits[i] as nat),
    )
}

/// The name of a file, with some random digits in base sixteen. A bit like a UUID.
pub fn generate_name(digits: &Vec<u8>) -> (s: String)
    requires
        forall|i: int| 0 <= i < digits@.len() ==> digits@[i] < 16,
    ensures
        s@ == backing_name(digits@),
{
    let mut s: String = "raft-persistence-".to_owned();
    let ghost start = s@;
    let ghost all = Seq::new(
        digits@.len(),
        |i: int| crate::decimal::digit_char(digits@[i] as nat),
    );
    let mut i: usize = 0;
    assert(s@ =~= start + all.take(0));
    while i < digits.len()
        invariant
            i <= digits@.len(),
            forall|i: int| 0 <= i < digits@.len() ==> digits@[i] < 16,
            all == Seq::new(
                digits@.len(),
                |i: int| crate::decimal::digit_char(digits@[i] as nat),
            ),
            s@ == start + all.take(i as int),
        decreases digits@.len() - i,
    {
        crate::decimal::push_digit(&mut s, digits[i]);
        assert(all.take(i + 1) =~= all.take(i as int).push(all[i as int]));
        assert(s@ =~= start + all.take(i + 1));
        i = i + 1;
    }
    assert(all.take(i as int) =~= all);
    s
}

/// Splitting loses nothing: what is joined again is what was split, and no name has a comma in it.
pub proof fn join_inverts_split(s: Seq<char>)
    ensures
        names_in(s).len() > 0,
        joined(names_in(s)) == s,
        forall|k: int| 0 <= k < names_in(s).len() ==> !(#[trigger] names_in(s)[k]).contains(','),
{
    lemma_join_from(s, 0, seq![]);
    assert(s.skip(0) =~= s);
    assert(Seq::<char>::empty() + s =~= s);
}

proof fn lemma_join_shift(first: Seq<char>, rest: Seq<Seq<char>>, i: int)
    requires
        0 <= i <= rest.len(),
    ensures
        joined_from(seq![first] + rest, i + 1) == joined_from(rest, i),
    decreases rest.len() - i,
{
    let all = seq![first] + rest;
    if i < rest.len() {
        assert(all[i + 1] == rest[i]);
        lemma_join_shift(first, rest, i + 1);
    }
}

proof fn lemma_join_from(s: Seq<char>, i: int, begun: Seq<char>)
    requires
        0 <= i <= s.len(),
        !begun.contains(','),
    ensures
        names_from(s, i, begun).len() > 0,
        joined(names_from(s, i, begun)) == begun + s.skip(i),
        forall|k: int|
            0 <= k < names_from(s, i, begun).len() ==> !(#[trigger] names_from(s, i, begun)[k]).contains(
                ',',
            ),
    decreases s.len() - i,
{
    let all = names_from(s, i, begun);
    if i == s.len() {
        assert(all =~= seq![begun]);
        assert(begun + s.skip(i) =~= begun);
    } else if s[i] == ',' {
        let rest = names_from(s, i + 1, seq![]);
        lemma_join_from(s, i + 1, seq![]);
        assert(all == seq![begun] + rest);
        lemma_join_shift(begun, rest, 0);
        reveal_strlit(",");
        assert(joined(all) == all[0] + ","@ + joined_from(all, 1));
        assert(joined(all) =~= begun + s.skip(i)) by {
            assert(s.skip(i) =~= ","@ + s.skip(i + 1));
            assert(Seq::<char>::empty() + s.skip(i + 1) =~= s.skip(i + 1));
        }
        assert forall|k: int| 0 <= k < all.len() implies !(#[trigger] all[k]).contains(',') by {
            if k > 0 {
                assert(all[k] == rest[k - 1]);
            }
        }
    } else {
        let more = begun.push(s[i]);
        assert(!more.contains(',')) by {
            if more.contains(',') {
                let k = choose|k: int| 0 <= k < more.len() && more[k] == ',';
                if k < begun.len() {
                    assert(begun[k] == ',');
                }
            }
        }
        lemma_join_from(s, i + 1, more);
        assert(more + s.skip(i + 1) =~= begun + s.skip(i));
    }
}

/// Different digits give different names, each of them spelled out.
pub proof fn names_tell_digits_apart(a: Seq<u8>, b: Seq<u8>)
    requires
        forall|i: int| 0 <= i < a.len() ==> a[i] < 16,
        forall|i: int| 0 <= i < b.len() ==> b[i] < 16,
    ensures
        backing_name(a).len() == "raft-persistence-"@.len() + a.len(),
        backing_name(a).take("raft-persistence-"@.len() as int) == "raft-persistence-"@,
        backing_name(a) == backing_name(b) ==> a == b,
{
    let p = "raft-persistence-"@;
    assert(backing_name(a).take(p.len() as int) =~= p);
    if backing_name(a) == backing_name(b) {
        assert(backing_name(b).len() == p.len() + b.len());
        assert(a.len() == b.len());
        assert forall|i: int| 0 <= i < a.len() implies a[i] == b[i] by {
            assert(backing_name(a)[p.len() + i] == crate::decimal::digit_char(a[i] as nat));
            assert(backing_name(b)[p.len() + i] == crate::decimal::digit_char(b[i] as nat));
        }
        assert(a =~= b);
    }
}

} // verus!
