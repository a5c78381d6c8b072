//! A binary format.
use crate::decimal::{decimal, push_decimal};
use vstd::prelude::*;
use vstd::string::StringExecFns;

verus! {

/// Why something could not be written.
#[derive(Debug)]
pub enum SerializeError {
    Io(String),
}

impl SerializeError {
    /// The message for this error.
    pub fn to_string(&self) -> (s: String)
        ensures
            self matches SerializeError::Io(e) && s@ == "i/o error: "@ + e@,
    {
        match self {
            SerializeError::Io(e) => {
                let mut s: String = "i/o error: ".to_owned();
                s.append(e.as_str());
                s
            },
        }
    }
}

/// Why something could not be read.
#[derive(Debug)]
pub enum DeserializeError {
    Io(String),
    InvalidTag { found: Vec<u8>, diag: String },
}

/// What a [`DeserializeError`] is, mathematically.
#[verifier::ext_equal]
pub enum Fault {
    Io(Seq<char>),
    InvalidTag { found: Seq<u8>, diag: Seq<char> },
}

impl View for DeserializeError {
    type V = Fault;

    open spec fn view(&self) -> Fault {
        match *self {
            DeserializeError::Io(e) => Fault::Io(e@),
            DeserializeError::InvalidTag { found, diag } => Fault::InvalidTag {
                found: found@,
                diag: diag@,
            },
        }
    }
}

/// Bytes as developers see them, from the `i`-th on.
pub open spec fn bytes_shown(bytes: Seq<u8>, i: int) -> Seq<char>
    decreases bytes.len() - i,
{
    if i < 0 || i >= bytes.len() {
        seq![]
    } else {
        (if i == 0 {
            seq![]
        } else {
            ", "@
        }) + decimal(bytes[i] as nat) + bytes_shown(bytes, i + 1)
    }
}

impl Fault {
    /// The message for this error.
    pub open spec fn message(self) -> Seq<char> {
        match self {
            Fault::Io(e) => "i/o error: "@ + e,
            Fault::InvalidTag { found, diag } => "invalid tag '["@ + bytes_shown(found, 0)
                + "]' for enum ("@ + diag + ")"@,
        }
    }
}

impl DeserializeError {
    /// The message for this error.
    pub fn to_string(&self) -> (s: String)
        ensures
            s@ == self@.message(),
    {
        match self {
            DeserializeError::Io(e) => {
                let mut s: String = "i/o error: ".to_owned();
                s.append(e.as_str());
                s
            },
            DeserializeError::InvalidTag { found, diag } => {
                let mut s: String = "invalid tag '[".to_owned();
                let ghost start = s@;
                let mut i: usize = 0;
                while i < found.len()
                    invariant
                        i <= found@.len(),
                        s@ + bytes_shown(found@, i as int) == start + bytes_shown(found@, 0),
                    decreases found@.len() - i,
                {
                    let ghost before = s@;
                    if i > 0 {
                        s.append(", ");
                    }
                    push_decimal(&mut s, found[i] as u64);
                    assert(s@ + bytes_shown(found@, i + 1) =~= before + bytes_shown(
                        found@,
                        i as int,
                    ));
                    i = i + 1;
                }
                assert(s@ =~= start + bytes_shown(found@, 0));
                s.append("]' for enum (");
                s.append(diag.as_str());
                s.append(")");
                s
            },
        }
    }
}

/// Something that can be written.
pub trait Serialize {
    /// What is written.
    spec fn bytes(&self) -> Seq<u8>;

    /// Writes behind what was written before.
    fn serialize(&self, writer: &mut Vec<u8>) -> (r: Result<(), SerializeError>)
        ensures
            r is Ok,
            final(writer)@ == old(writer)@ + self.bytes(),
    ;
}

/// Bytes that are read one after the other.
#[derive(Debug)]
pub struct Reader<'a> {
    data: &'a [u8],
    at: usize,
}

impl<'a> Reader<'a> {
    #[verifier::type_invariant]
    spec fn within(&self) -> bool {
        self.at <= self.data@.len()
    }

    /// What is still to be read.
    pub closed spec fn left(&self) -> Seq<u8> {
        self.data@.skip(self.at as int)
    }

    /// Reads some bytes.
    pub fn new(data: &'a [u8]) -> (r: Reader<'a>)
        ensures
            r.left() == data@,
    {
        let r = Reader { data, at: 0 };
        assert(r.left() =~= data@);
        r
    }

    /// Reads a byte.
    pub fn next(&mut self) -> (r: Option<u8>)
        ensures
            match r {
                Some(b) => old(self).left().len() > 0 && b == old(self).left()[0]
                    && final(self).left() == old(self).left().skip(1),
                None => old(self).left().len() == 0 && final(self).left() == old(self).left(),
            },
    {
        proof {
            use_type_invariant(&*self);
        }
        let ghost before = self.left();
        if self.at < self.data.len() {
            let b: u8 = self.data[self.at];
            self.at = self.at + 1;
            assert(self.left() =~= before.skip(1));
            Some(b)
        } else {
            None
        }
    }
}

/// What there is after a read, be it whole or not: the value, and what is left to be read. A
/// read that is not whole has a fault.
#[verifier::ext_equal]
pub struct Read<T> {
    pub value: T,
    pub left: Seq<u8>,
    pub fault: Option<Fault>,
}

/// A read that is whole.
pub open spec fn whole<T>(value: T, left: Seq<u8>) -> Read<T> {
    Read { value, left, fault: None }
}

/// A read that came upon a fault.
pub open spec fn broken<T>(value: T, left: Seq<u8>, fault: Fault) -> Read<T> {
    Read { value, left, fault: Some(fault) }
}

/// Fewer bytes were there than needed.
pub open spec fn too_short() -> Fault {
    Fault::Io("failed to fill whole buffer"@)
}

fn short() -> (e: DeserializeError)
    ensures
        e@ == too_short(),
{
    DeserializeError::Io("failed to fill whole buffer".to_owned())
}

/// An executable read says what the mathematical one does.
pub open spec fn agrees<T: DeepView>(
    r: Result<(), DeserializeError>,
    x: T,
    left: Seq<u8>,
    s: Read<T::V>,
) -> bool {
    match r {
        Ok(_) => s == whole(x.deep_view(), left),
        Err(e) => s == broken(x.deep_view(), left, e@),
    }
}

/// Something that can be read.
pub trait Deserialize: DeepView + Sized {
    /// What there is before anything is read.
    spec fn start() -> Self::V;

    /// What there is once it was read onto `was`. A fault leaves what was read so far.
    spec fn read_onto(was: Self::V, data: Seq<u8>) -> Read<Self::V>;

    fn fresh() -> (x: Self)
        ensures
            x.deep_view() == Self::start(),
    ;

    fn deserialize_into(&mut self, reader: &mut Reader) -> (r: Result<(), DeserializeError>)
        ensures
            agrees(
                r,
                *final(self),
                final(reader).left(),
                Self::read_onto(old(self).deep_view(), old(reader).left()),
            ),
    ;

    fn deserialize(reader: &mut Reader) -> (r: Result<Self, DeserializeError>)
        ensures
            ({
                let s = Self::read_onto(Self::start(), old(reader).left());
                &&& final(reader).left() == s.left
                &&& match r {
                    Ok(x) => s.fault is None && x.deep_view() == s.value,
                    Err(e) => s.fault == Some(e@),
                }
            }),
    {
        let mut s: Self = Self::fresh();
        match s.deserialize_into(reader) {
            Ok(_) => Ok(s),
            Err(e) => Err(e),
        }
    }
}

/// A number in `n` bytes, the least significant first.
pub open spec fn le_bytes(x: nat, n: nat) -> Seq<u8>
    decreases n,
{
    if n == 0 {
        seq![]
    } else {
        seq![(x % 256) as u8] + le_bytes(x / 256, (n - 1) as nat)
    }
}

/// The number in some bytes, the least significant first.
pub open spec fn le_value(s: Seq<u8>) -> nat
    decreases s.len(),
{
    if s.len() == 0 {
        0
    } else {
        s[0] as nat + 256 * le_value(s.skip(1))
    }
}

/// The size of a number in `n` bytes.
pub open spec fn le_limit(n: nat) -> nat
    decreases n,
{
    if n == 0 {
        1
    } else {
        256 * le_limit((n - 1) as nat)
    }
}

proof fn lemma_le_inverse(x: nat, n: nat)
    requires
        x < le_limit(n),
    ensures
        le_bytes(x, n).len() == n,
        le_value(le_bytes(x, n)) == x,
    decreases n,
{
    if n > 0 {
        let rest = le_bytes(x / 256, (n - 1) as nat);
        lemma_le_inverse(x / 256, (n - 1) as nat);
        assert((seq![(x % 256) as u8] + rest).skip(1) =~= rest);
    }
}

proof fn lemma_le_bound(s: Seq<u8>)
    ensures
        le_value(s) < le_limit(s.len()),
    decreases s.len(),
{
    if s.len() > 0 {
        lemma_le_bound(s.skip(1));
    }
}

proof fn lemma_limit_8()
    ensures
        le_limit(8) == 0x1_0000_0000_0000_0000,
{
    reveal_with_fuel(le_limit, 9);
}

impl Serialize for u64 {
    open spec fn bytes(&self) -> Seq<u8> {
        le_bytes(*self as nat, 8)
    }

    fn serialize(&self, writer: &mut Vec<u8>) -> (r: Result<(), SerializeError>) {
        let mut x: u64 = *self;
        let mut k: usize = 0;
        let ghost before = writer@;
        let ghost all = le_bytes(*self as nat, 8);
        assert(before + all =~= writer@ + le_bytes(x as nat, 8));
        while k < 8
            invariant
                k <= 8,
                before + all == writer@ + le_bytes(x as nat, (8 - k) as nat),
            decreases 8 - k,
        {
            let ghost w = writer@;
            let ghost rest = le_bytes((x / 256) as nat, (8 - k - 1) as nat);
            let b: u8 = (x % 256) as u8;
            writer.push(b);
            assert(w + (seq![b] + rest) =~= writer@ + rest);
            x = x / 256;
            k = k + 1;
        }
        assert(writer@ + Seq::<u8>::empty() =~= writer@);
        Ok(())
    }
}

impl Deserialize for u64 {
    open spec fn start() -> u64 {
        0
    }

    open spec fn read_onto(was: u64, data: Seq<u8>) -> Read<u64> {
        if data.len() < 8 {
            broken(was, seq![], too_short())
        } else {
            whole(le_value(data.take(8)) as u64, data.skip(8))
        }
    }

    fn fresh() -> (x: u64) {
        0
    }

    fn deserialize_into(&mut self, reader: &mut Reader) -> (r: Result<(), DeserializeError>) {
        let ghost data = reader.left();
        let mut bytes: Vec<u8> = Vec::new();
        let mut k: usize = 0;
        assert(data.skip(0) =~= data);
        while k < 8
            invariant
                k <= 8,
                data == old(reader).left(),
                k <= data.len(),
                bytes@ == data.take(k as int),
                reader.left() == data.skip(k as int),
            decreases 8 - k,
        {
            match reader.next() {
                Some(b) => {
                    bytes.push(b);
                    assert(data.take(k + 1) =~= data.take(k as int).push(data[k as int]));
                    assert(data.skip(k as int).skip(1) =~= data.skip(k + 1));
                },
                None => {
                    assert(reader.left() =~= seq![]);
                    return Err(short());
                },
            }
            k = k + 1;
        }
        let ghost s = bytes@;
        let mut x: u64 = 0;
        proof {
            lemma_limit_8();
            assert(s.skip(8) =~= seq![]);
        }
        while k > 0
            invariant
                k <= 8,
                s == bytes@,
                s.len() == 8,
                le_limit(8) == 0x1_0000_0000_0000_0000,
                x == le_value(s.skip(k as int)),
            decreases k,
        {
            proof {
                let t = s.skip(k - 1);
                assert(t.skip(1) =~= s.skip(k as int));
                assert(t[0] == s[k - 1]);
                lemma_le_bound(t);
                lemma_limit_grows(t.len(), 8);
            }
            x = x * 256 + bytes[k - 1] as u64;
            k = k - 1;
        }
        assert(s.skip(0) =~= s);
        *self = x;
        Ok(())
    }
}

proof fn lemma_limit_grows(a: nat, b: nat)
    requires
        a <= b,
    ensures
        le_limit(a) <= le_limit(b),
        le_limit(a) >= 1,
    decreases b,
{
    if a < b {
        lemma_limit_grows(a, (b - 1) as nat);
    } else if a > 0 {
        lemma_limit_grows((a - 1) as nat, (b - 1) as nat);
    }
}

impl Serialize for u8 {
    open spec fn bytes(&self) -> Seq<u8> {
        seq![*self]
    }

    fn serialize(&self, writer: &mut Vec<u8>) -> (r: Result<(), SerializeError>) {
        let ghost before = writer@;
        writer.push(*self);
        assert(writer@ =~= before + seq![*self]);
        Ok(())
    }
}

impl Deserialize for u8 {
    open spec fn start() -> u8 {
        0
    }

    open spec fn read_onto(was: u8, data: Seq<u8>) -> Read<u8> {
        if data.len() == 0 {
            broken(was, data, too_short())
        } else {
            whole(data[0], data.skip(1))
        }
    }

    fn fresh() -> (x: u8) {
        0
    }

    fn deserialize_into(&mut self, reader: &mut Reader) -> (r: Result<(), DeserializeError>) {
        match reader.next() {
            Some(b) => {
                *self = b;
                Ok(())
            },
            None => Err(short()),
        }
    }
}

/// Items one after the other, from the `i`-th on.
pub open spec fn all_bytes<T: Serialize>(items: Seq<T>, i: int) -> Seq<u8>
    decreases items.len() - i,
{
    if i < 0 || i >= items.len() {
        seq![]
    } else {
        items[i].bytes() + all_bytes(items, i + 1)
    }
}

impl<T: Serialize> Serialize for [T] {
    /// How many items there are, then the items.
    open spec fn bytes(&self) -> Seq<u8> {
        (self@.len() as u64).bytes() + all_bytes(self@, 0)
    }

    fn serialize(&self, writer: &mut Vec<u8>) -> (r: Result<(), SerializeError>) {
        let ghost before = writer@;
        let n: usize = self.len();
        (n as u64).serialize(writer)?;
        let ghost start = writer@;
        let mut i: usize = 0;
        while i < n
            invariant
                i <= n,
                n == self@.len(),
                start + all_bytes(self@, 0) == writer@ + all_bytes(self@, i as int),
            decreases n - i,
        {
            let ghost w = writer@;
            let ghost rest = all_bytes(self@, i + 1);
            self[i].serialize(writer)?;
            assert(w + (self@[i as int].bytes() + rest) =~= writer@ + rest);
            i = i + 1;
        }
        assert(writer@ + Seq::<u8>::empty() =~= writer@);
        assert(start + all_bytes(self@, 0) =~= before + self.bytes());
        Ok(())
    }
}

impl<T: Serialize> Serialize for Vec<T> {
    open spec fn bytes(&self) -> Seq<u8> {
        (self@.len() as u64).bytes() + all_bytes(self@, 0)
    }

    fn serialize(&self, writer: &mut Vec<u8>) -> (r: Result<(), SerializeError>) {
        self.as_slice().serialize(writer)
    }
}

/// Reads `n` items behind those that were there.
pub open spec fn items_in<T: Deserialize>(was: Seq<T::V>, n: nat, data: Seq<u8>) -> Read<Seq<T::V>>
    decreases n,
{
    if n == 0 {
        whole(was, data)
    } else {
        let item = T::read_onto(T::start(), data);
        match item.fault {
            Some(e) => broken(was, item.left, e),
            None => items_in::<T>(was.push(item.value), (n - 1) as nat, item.left),
        }
    }
}

impl<T: Deserialize> Deserialize for Vec<T> {
    open spec fn start() -> Seq<T::V> {
        seq![]
    }

    open spec fn read_onto(was: Seq<T::V>, data: Seq<u8>) -> Read<Seq<T::V>> {
        let n = u64::read_onto(u64::start(), data);
        match n.fault {
            Some(e) => broken(was, n.left, e),
            None => items_in::<T>(was, n.value as nat, n.left),
        }
    }

    fn fresh() -> (x: Vec<T>) {
        let v: Vec<T> = Vec::new();
        assert(v.deep_view() =~= seq![]);
        v
    }

    fn deserialize_into(&mut self, reader: &mut Reader) -> (r: Result<(), DeserializeError>) {
        let ghost was = self.deep_view();
        let length: u64 = match u64::deserialize(reader) {
            Ok(n) => n,
            Err(e) => return Err(e),
        };
        let ghost data = reader.left();
        let mut k: u64 = 0;
        while k < length
            invariant
                k <= length,
                items_in::<T>(was, length as nat, data) == items_in::<T>(
                    self.deep_view(),
                    (length - k) as nat,
                    reader.left(),
                ),
                Vec::<T>::read_onto(old(self).deep_view(), old(reader).left()) == items_in::<T>(
                    was,
                    length as nat,
                    data,
                ),
            decreases length - k,
        {
            let ghost before = self.deep_view();
            match T::deserialize(reader) {
                Ok(x) => {
                    self.push(x);
                    assert(self.deep_view() =~= before.push(x.deep_view()));
                },
                Err(e) => return Err(e),
            }
            k = k + 1;
        }
        Ok(())
    }
}

impl<T: Serialize> Serialize for Option<T> {
    /// A tag, and what there is.
    open spec fn bytes(&self) -> Seq<u8> {
        match *self {
            Some(elem) => seq![1u8] + elem.bytes(),
            None => seq![0u8],
        }
    }

    fn serialize(&self, writer: &mut Vec<u8>) -> (r: Result<(), SerializeError>) {
        let ghost before = writer@;
        match self {
            Some(elem) => {
                writer.push(1);
                elem.serialize(writer)?;
                assert(writer@ =~= before + (seq![1u8] + elem.bytes()));
            },
            None => {
                writer.push(0);
                assert(writer@ =~= before + seq![0u8]);
            },
        }
        Ok(())
    }
}

impl<T: Deserialize> Deserialize for Option<T> {
    open spec fn start() -> Option<T::V> {
        None
    }

    open spec fn read_onto(was: Option<T::V>, data: Seq<u8>) -> Read<Option<T::V>> {
        if data.len() == 0 {
            broken(was, data, too_short())
        } else if data[0] == 0 {
            whole(None, data.skip(1))
        } else if data[0] == 1 {
            let item = T::read_onto(T::start(), data.skip(1));
            match item.fault {
                Some(e) => broken(was, item.left, e),
                None => whole(Some(item.value), item.left),
            }
        } else {
            broken(
                was,
                data.skip(1),
                Fault::InvalidTag { found: seq![data[0]], diag: "Option only has tags: 0, 1"@ },
            )
        }
    }

    fn fresh() -> (x: Option<T>) {
        None
    }

    fn deserialize_into(&mut self, reader: &mut Reader) -> (r: Result<(), DeserializeError>) {
        match reader.next() {
            None => Err(short()),
            Some(0) => {
                *self = None;
                Ok(())
            },
            Some(1) => match T::deserialize(reader) {
                Ok(x) => {
                    *self = Some(x);
                    Ok(())
                },
                Err(e) => Err(e),
            },
            Some(tag) => {
                let mut found: Vec<u8> = Vec::new();
                found.push(tag);
                assert(found@ =~= seq![tag]);
                Err(
                    DeserializeError::InvalidTag {
                        found,
                        diag: "Option only has tags: 0, 1".to_owned(),
                    },
                )
            },
        }
    }
}

/// What was written is read again, whatever comes behind it.
pub open spec fn reads_back<T: Serialize + Deserialize>(x: T) -> bool {
    forall|rest: Seq<u8>| #[trigger]
        T::read_onto(T::start(), x.bytes() + rest) == whole(x.deep_view(), rest)
}

/// Numbers are read as they were written.
pub proof fn u64_reads_back(x: u64)
    ensures
        reads_back(x),
{
    lemma_limit_8();
    lemma_le_inverse(x as nat, 8);
    assert forall|rest: Seq<u8>| #[trigger]
        u64::read_onto(0, x.bytes() + rest) == whole(x, rest) by {
        assert((x.bytes() + rest).take(8) =~= x.bytes());
        assert((x.bytes() + rest).skip(8) =~= rest);
    }
}

/// Bytes are read as they were written.
pub proof fn u8_reads_back(x: u8)
    ensures
        reads_back(x),
{
    assert forall|rest: Seq<u8>| #[trigger]
        u8::read_onto(0, x.bytes() + rest) == whole(x, rest) by {
        assert((x.bytes() + rest).skip(1) =~= rest);
    }
}

/// Options are read as they were written, if what they hold is.
pub proof fn option_reads_back<T: Serialize + Deserialize>(x: Option<T>)
    requires
        x matches Some(y) ==> reads_back(y),
    ensures
        reads_back(x),
{
    assert forall|rest: Seq<u8>| #[trigger]
        Option::<T>::read_onto(Option::<T>::start(), x.bytes() + rest) == whole(x.deep_view(), rest) by {
        let data = x.bytes() + rest;
        match x {
            Some(y) => {
                assert(data.skip(1) =~= y.bytes() + rest);
                assert(T::read_onto(T::start(), y.bytes() + rest) == whole(y.deep_view(), rest));
            },
            None => {
                assert(data.skip(1) =~= rest);
            },
        }
    }
}

proof fn lemma_items_read_back<T: Serialize + Deserialize>(x: Vec<T>, i: int, rest: Seq<u8>)
    requires
        0 <= i <= x@.len(),
        forall|k: int| 0 <= k < x@.len() ==> reads_back(#[trigger] x@[k]),
    ensures
        items_in::<T>(
            x.deep_view().take(i),
            (x@.len() - i) as nat,
            all_bytes(x@, i) + rest,
        ) == whole(x.deep_view(), rest),
    decreases x@.len() - i,
{
    if i < x@.len() {
        let data = all_bytes(x@, i) + rest;
        let left = all_bytes(x@, i + 1) + rest;
        assert(data =~= x@[i].bytes() + left);
        assert(reads_back(x@[i]));
        assert(T::read_onto(T::start(), x@[i].bytes() + left) == whole(x@[i].deep_view(), left));
        assert(x.deep_view().take(i).push(x@[i].deep_view()) =~= x.deep_view().take(i + 1));
        lemma_items_read_back(x, i + 1, rest);
    } else {
        assert(x.deep_view().take(i) =~= x.deep_view());
        assert(all_bytes(x@, i) + rest =~= rest);
    }
}

/// Lists are read as they were written, if their items are.
pub proof fn vec_reads_back<T: Serialize + Deserialize>(x: Vec<T>)
    requires
        x@.len() <= u64::MAX,
        forall|k: int| 0 <= k < x@.len() ==> reads_back(#[trigger] x@[k]),
    ensures
        reads_back(x),
{
    let n = x@.len() as u64;
    u64_reads_back(n);
    assert forall|rest: Seq<u8>| #[trigger]
        Vec::<T>::read_onto(Vec::<T>::start(), x.bytes() + rest) == whole(x.deep_view(), rest) by {
        let left = all_bytes(x@, 0) + rest;
        assert(x.bytes() + rest =~= n.bytes() + left);
        assert(u64::read_onto(u64::start(), n.bytes() + left) == whole(n, left));
        lemma_items_read_back(x, 0, rest);
        assert(x.deep_view().take(0) =~= seq![]);
    }
}

/// What eight bytes stand for: each counts 256 times what the one in front of it does.
pub open spec fn eight(b: Seq<u8>) -> int {
    b[0] + 0x100 * b[1] + 0x1_0000 * b[2] + 0x100_0000 * b[3] + 0x1_0000_0000 * b[4]
        + 0x100_0000_0000 * b[5] + 0x1_0000_0000_0000 * b[6] + 0x100_0000_0000_0000 * b[7]
}

proof fn lemma_eight(b: Seq<u8>)
    requires
        b.len() == 8,
    ensures
        le_value(b) == eight(b),
{
    reveal_with_fuel(le_value, 9);
    assert(b.skip(1).skip(1) =~= b.skip(2));
    assert(b.skip(2).skip(1) =~= b.skip(3));
    assert(b.skip(3).skip(1) =~= b.skip(4));
    assert(b.skip(4).skip(1) =~= b.skip(5));
    assert(b.skip(5).skip(1) =~= b.skip(6));
    assert(b.skip(6).skip(1) =~= b.skip(7));
    assert(b.skip(7).skip(1) =~= b.skip(8));
    assert(le_value(b.skip(8)) == 0);
    assert(le_value(b.skip(7)) == b[7] as nat);
    assert(le_value(b.skip(6)) == b[6] as nat + 256 * le_value(b.skip(7)));
    assert(le_value(b.skip(5)) == b[5] as nat + 256 * le_value(b.skip(6)));
    assert(le_value(b.skip(4)) == b[4] as nat + 256 * le_value(b.skip(5)));
    assert(le_value(b.skip(3)) == b[3] as nat + 256 * le_value(b.skip(4)));
    assert(le_value(b.skip(2)) == b[2] as nat + 256 * le_value(b.skip(3)));
    assert(le_value(b.skip(1)) == b[1] as nat + 256 * le_value(b.skip(2)));
}

/// A number is written in eight bytes, the least significant first.
pub proof fn numbers_are_written_little_endian(x: u64)
    ensures
        x.bytes().len() == 8,
        eight(x.bytes()) == x,
{
    lemma_limit_8();
    lemma_le_inverse(x as nat, 8);
    lemma_eight(x.bytes());
}

/// A number is read from eight bytes, the least significant first, if there are so many, whatever
/// was there before.
pub proof fn numbers_are_read_little_endian(was: u64, data: Seq<u8>)
    ensures
        ({
            let r = u64::read_onto(was, data);
            if data.len() >= 8 {
                r.fault is None && r.value == eight(data.take(8)) && r.left == data.skip(8)
            } else {
                r.fault == Some(Fault::Io("failed to fill whole buffer"@)) && r.value == was
            }
        }),
{
    if data.len() >= 8 {
        lemma_limit_8();
        lemma_eight(data.take(8));
        lemma_le_bound(data.take(8));
    }
}

/// A list is written as the number of its items, and then what the items are written as. One more
/// item comes last.
pub proof fn lists_are_written_item_by_item<T: Serialize>(short: Vec<T>, x: T, long: Vec<T>)
    requires
        long@ == short@.push(x),
        long@.len() <= u64::MAX,
    ensures
        long.bytes().take(8) == (long@.len() as u64).bytes(),
        long.bytes().skip(8) == short.bytes().skip(8) + x.bytes(),
{
    numbers_are_written_little_endian(long@.len() as u64);
    numbers_are_written_little_endian(short@.len() as u64);
    lemma_all_bytes_push(short@, x, 0);
    assert(long.bytes().take(8) =~= (long@.len() as u64).bytes());
    assert(long.bytes().skip(8) =~= all_bytes(long@, 0));
    assert(short.bytes().skip(8) =~= all_bytes(short@, 0));
}

proof fn lemma_all_bytes_push<T: Serialize>(items: Seq<T>, x: T, i: int)
    requires
        0 <= i <= items.len(),
    ensures
        all_bytes(items.push(x), i) == all_bytes(items, i) + x.bytes(),
    decreases items.len() - i,
{
    let all = items.push(x);
    if i < items.len() {
        lemma_all_bytes_push(items, x, i + 1);
        assert(all[i] == items[i]);
        assert(all_bytes(all, i) =~= all_bytes(items, i) + x.bytes());
    } else {
        assert(all_bytes(all, i + 1) =~= seq![]);
        assert(all_bytes(all, i) =~= all_bytes(items, i) + x.bytes());
    }
}

/// An empty list is written as a zero.
pub proof fn empty_lists_are_written_as_zero<T: Serialize>(none: Vec<T>)
    requires
        none@.len() == 0,
    ensures
        none.bytes() == 0u64.bytes(),
{
    assert(none.bytes() =~= 0u64.bytes());
}

/// An option is written as a byte that tells whether there is something, and then what there is.
pub proof fn options_are_written_behind_a_tag<T: Serialize>(x: Option<T>)
    ensures
        x.bytes().len() > 0,
        x matches Some(y) ==> x.bytes()[0] == 1 && x.bytes().skip(1) == y.bytes(),
        x is None ==> x.bytes()[0] == 0 && x.bytes().len() == 1,
{
    if let Some(y) = x {
        assert(x.bytes().skip(1) =~= y.bytes());
    }
}

/// An option is read by the byte in front of it; one that is no tag is refused.
pub proof fn options_are_read_behind_a_tag<T: Deserialize>(was: Option<T::V>, data: Seq<u8>)
    requires
        data.len() > 0,
    ensures
        ({
            let r = Option::<T>::read_onto(was, data);
            let inner = T::read_onto(T::start(), data.skip(1));
            &&& data[0] == 0 ==> r.fault is None && r.value is None && r.left == data.skip(1)
            &&& data[0] == 1 && inner.fault is None ==> r.fault is None && r.value == Some(
                inner.value,
            ) && r.left == inner.left
            &&& data[0] == 1 && inner.fault is Some ==> r.fault == inner.fault && r.value == was
            &&& data[0] > 1 ==> r.value == was && r.fault is Some && r.fault->Some_0 is InvalidTag
                && r.fault->Some_0->found == seq![data[0]]
        }),
{
}

/// A list is read behind the items that were there before.
pub proof fn lists_are_read_behind_what_was_there<T: Serialize + Deserialize>(
    was: Seq<T::V>,
    x: Vec<T>,
    rest: Seq<u8>,
)
    requires
        x@.len() <= u64::MAX,
        forall|k: int| 0 <= k < x@.len() ==> reads_back(#[trigger] x@[k]),
    ensures
        ({
            let r = Vec::<T>::read_onto(was, x.bytes() + rest);
            r.fault is None && r.value == was + x.deep_view() && r.left == rest
        }),
{
    let n = x@.len() as u64;
    u64_reads_back(n);
    let left = all_bytes(x@, 0) + rest;
    assert(x.bytes() + rest =~= n.bytes() + left);
    assert(u64::read_onto(u64::start(), n.bytes() + left) == whole(n, left));
    assert(was + x.deep_view().take(0) =~= was);
    lemma_items_read_behind(was, x, 0, rest);
}

proof fn lemma_items_read_behind<T: Serialize + Deserialize>(was: Seq<T::V>, x: Vec<T>, i: int, rest: Seq<u8>)
    requires
        0 <= i <= x@.len(),
        forall|k: int| 0 <= k < x@.len() ==> reads_back(#[trigger] x@[k]),
    ensures
        items_in::<T>(
            was + x.deep_view().take(i),
            (x@.len() - i) as nat,
            all_bytes(x@, i) + rest,
        ) == whole(was + x.deep_view(), rest),
    decreases x@.len() - i,
{
    if i < x@.len() {
        let left = all_bytes(x@, i + 1) + rest;
        assert(all_bytes(x@, i) + rest =~= x@[i].bytes() + left);
        assert(reads_back(x@[i]));
        assert(T::read_onto(T::start(), x@[i].bytes() + left) == whole(x@[i].deep_view(), left));
        assert((was + x.deep_view().take(i)).push(x@[i].deep_view()) =~= was + x.deep_view().take(
            i + 1,
        ));
        lemma_items_read_behind(was, x, i + 1, rest);
    } else {
        assert(x.deep_view().take(i) =~= x.deep_view());
        assert(all_bytes(x@, i) + rest =~= rest);
    }
}

/// Bytes are shown in base ten, with commas between them.
pub proof fn bytes_are_shown_in_order(bytes: Seq<u8>, b: u8)
    ensures
        bytes_shown(seq![], 0) == Seq::<char>::empty(),
        bytes_shown(bytes.push(b), 0) == bytes_shown(bytes, 0) + (if bytes.len() > 0 {
            seq![',', ' ']
        } else {
            seq![]
        }) + decimal(b as nat),
{
    reveal_strlit(", ");
    assert(", "@ =~= seq![',', ' ']);
    lemma_shown_push(bytes, b, 0);
}

proof fn lemma_shown_push(bytes: Seq<u8>, b: u8, i: int)
    requires
        0 <= i <= bytes.len(),
        ", "@ == seq![',', ' '],
    ensures
        bytes_shown(bytes.push(b), i) == bytes_shown(bytes, i) + (if bytes.len() > 0 {
            seq![',', ' ']
        } else {
            seq![]
        }) + decimal(b as nat),
    decreases bytes.len() - i,
{
    let all = bytes.push(b);
    if i < bytes.len() {
        lemma_shown_push(bytes, b, i + 1);
        assert(all[i] == bytes[i]);
        assert(bytes_shown(all, i) =~= bytes_shown(bytes, i) + seq![',', ' '] + decimal(b as nat));
    } else {
        assert(bytes_shown(all, i + 1) =~= seq![]);
        assert(bytes_shown(bytes, i) =~= seq![]);
        assert(all[i] == b);
        assert(bytes_shown(all, i) =~= bytes_shown(bytes, i) + (if bytes.len() > 0 {
            seq![',', ' ']
        } else {
            seq![]
        }) + decimal(b as nat));
    }
}

} // verus!
