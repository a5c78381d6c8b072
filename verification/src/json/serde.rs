//! A bit like [serde](https://serde.rs/) except much simpler (no derive macros, ...).
//! Conversions are therefore very verbose.
use crate::decimal::{
    all_digits, decimal, digits_value, parse_i64_inverts_to_string, parse_u64_inverts_to_string, signed_decimal,
    signed_numbers_are_read_by_value, unsigned_numbers_are_read_by_value,
};
use crate::json::conversions::from_value::{
    signed_in, string_in, unsigned_in, TryFromError, Unconverted,
};
use crate::assoc::put;
use crate::json::value::{lemma_array_view, models, Json, Object, Value};
use vstd::prelude::*;
use vstd::string::StringExecFns;

verus! {

/// Serialize a type into a JSON representation.
pub trait Serialize {
    /// The representation.
    spec fn json(&self) -> Json;

    fn serialize(&self) -> (r: Result<Value, SerializeError>)
        ensures
            r matches Ok(v) && v@ == self.json(),
    ;
}

/// Deserialize a type from a JSON representation.
pub trait Deserialize: DeepView + Sized {
    /// What a representation stands for.
    spec fn from_json(j: Json) -> Result<Self::V, Undeserialized>;

    fn deserialize(value: Value) -> (r: Result<Self, DeserializeError>)
        ensures
            says(r, Self::from_json(value@)),
    ;
}

/// An executable deserialization says what the mathematical one does.
pub open spec fn says<T: DeepView>(
    r: Result<T, DeserializeError>,
    s: Result<T::V, Undeserialized>,
) -> bool {
    match r {
        Ok(x) => s == Ok::<T::V, Undeserialized>(x.deep_view()),
        Err(e) => s == Err::<T::V, Undeserialized>(e@),
    }
}

/// Why a value has no representation. None of the contracts here ever gives it.
#[derive(Debug)]
pub enum SerializeError {
    /// There is no representation.
    Unrepresentable,
}

impl SerializeError {
    /// The message for this error.
    pub fn to_string(&self) -> (s: String)
        ensures
            s@ == "serialization error"@,
    {
        "serialization error".to_owned()
    }
}

#[derive(Debug)]
pub enum DeserializeError {
    InvalidConversion(TryFromError),
    InvalidValue(Value),
}

impl DeserializeError {
    /// The message for this error, with what it is about shown as `shown`.
    pub open spec fn message(self, shown: Seq<char>) -> Seq<char> {
        match self {
            DeserializeError::InvalidConversion(_) => "invalid conversion: "@ + shown,
            DeserializeError::InvalidValue(_) => "invalid object: "@ + shown,
        }
    }

    /// The message for this error. How the failed conversion, or the value, is shown to
    /// developers is up to the caller.
    pub fn to_string(&self, shown: &str) -> (s: String)
        ensures
            s@ == self.message(shown@),
    {
        let mut s: String = match self {
            DeserializeError::InvalidConversion(_) => "invalid conversion: ".to_owned(),
            DeserializeError::InvalidValue(_) => "invalid object: ".to_owned(),
        };
        s.append(shown);
        s
    }
}

/// What a [`DeserializeError`] is, mathematically.
#[verifier::ext_equal]
pub enum Undeserialized {
    InvalidConversion(Unconverted),
    InvalidValue(Json),
}

impl View for DeserializeError {
    type V = Undeserialized;

    open spec fn view(&self) -> Undeserialized {
        match *self {
            DeserializeError::InvalidConversion(e) => Undeserialized::InvalidConversion(e@),
            DeserializeError::InvalidValue(v) => Undeserialized::InvalidValue(v@),
        }
    }
}

impl vstd::std_specs::convert::FromSpecImpl<TryFromError> for DeserializeError {
    open spec fn obeys_from_spec() -> bool {
        true
    }

    open spec fn from_spec(value: TryFromError) -> DeserializeError {
        DeserializeError::InvalidConversion(value)
    }
}

impl From<TryFromError> for DeserializeError {
    fn from(value: TryFromError) -> (e: DeserializeError) {
        DeserializeError::InvalidConversion(value)
    }
}

impl Object {
    /// Puts the representation of something under a key.
    pub fn put<T: Serialize + ?Sized>(&mut self, key: &str, x: &T) -> (r: Result<(), SerializeError>)
        ensures
            r is Ok,
            final(self)@ == put(old(self)@, key@, x.json()),
    {
        match x.serialize() {
            Ok(v) => {
                self.set(key, v);
                Ok(())
            },
            Err(e) => Err(e),
        }
    }
}

/// A conversion as a deserialization.
pub open spec fn converted<T>(r: Result<T, Unconverted>) -> Result<T, Undeserialized> {
    match r {
        Ok(x) => Ok(x),
        Err(e) => Err(Undeserialized::InvalidConversion(e)),
    }
}

/// What is deserialized from a serialized value is `v`.
pub open spec fn reads_as<T: Serialize + Deserialize>(x: T, v: T::V) -> bool {
    T::from_json(x.json()) == Ok::<T::V, Undeserialized>(v)
}

/// What is deserialized from a serialized value is that value.
pub open spec fn reads_back<T: Serialize + Deserialize>(x: T) -> bool {
    T::from_json(x.json()) == Ok::<T::V, Undeserialized>(x.deep_view())
}

// Primitives, non-generic
impl Serialize for () {
    open spec fn json(&self) -> Json {
        Json::Null
    }

    fn serialize(&self) -> (r: Result<Value, SerializeError>) {
        Ok(Value::Null)
    }
}

impl Serialize for str {
    open spec fn json(&self) -> Json {
        Json::String(self@)
    }

    fn serialize(&self) -> (r: Result<Value, SerializeError>) {
        Ok(Value::from(self))
    }
}

impl Serialize for String {
    open spec fn json(&self) -> Json {
        Json::String(self@)
    }

    fn serialize(&self) -> (r: Result<Value, SerializeError>) {
        Ok(Value::from(self.as_str()))
    }
}

impl Deserialize for String {
    open spec fn from_json(j: Json) -> Result<Seq<char>, Undeserialized> {
        converted(string_in(j))
    }

    fn deserialize(value: Value) -> (r: Result<Self, DeserializeError>) {
        match String::try_from(value) {
            Ok(s) => Ok(s),
            Err(e) => Err(DeserializeError::InvalidConversion(e)),
        }
    }
}

impl Serialize for bool {
    open spec fn json(&self) -> Json {
        Json::Bool(*self)
    }

    fn serialize(&self) -> (r: Result<Value, SerializeError>) {
        Ok(Value::from(*self))
    }
}

impl Deserialize for bool {
    open spec fn from_json(j: Json) -> Result<bool, Undeserialized> {
        match j {
            Json::Bool(b) => Ok(b),
            _ => Err(Undeserialized::InvalidValue(j)),
        }
    }

    fn deserialize(value: Value) -> (r: Result<Self, DeserializeError>) {
        match value {
            Value::Bool(b) => Ok(b),
            _ => Err(DeserializeError::InvalidValue(value)),
        }
    }
}

impl Serialize for u64 {
    open spec fn json(&self) -> Json {
        Json::Number(decimal(*self as nat))
    }

    fn serialize(&self) -> (r: Result<Value, SerializeError>) {
        Ok(Value::from(*self))
    }
}

/// The unsigned number that a representation stands for.
pub open spec fn u64_from_json(j: Json) -> Result<u64, Undeserialized> {
    match unsigned_in(j) {
        Ok(n) => Ok(n as u64),
        Err(e) => Err(Undeserialized::InvalidConversion(e)),
    }
}

impl Deserialize for u64 {
    open spec fn from_json(j: Json) -> Result<u64, Undeserialized> {
        u64_from_json(j)
    }

    fn deserialize(value: Value) -> (r: Result<Self, DeserializeError>) {
        assert(Self::from_json(value@) == u64_from_json(value@));
        match u64::try_from(value) {
            Ok(n) => Ok(n),
            Err(e) => Err(DeserializeError::InvalidConversion(e)),
        }
    }
}

impl Serialize for i64 {
    open spec fn json(&self) -> Json {
        Json::Number(signed_decimal(*self as int))
    }

    fn serialize(&self) -> (r: Result<Value, SerializeError>) {
        Ok(Value::from(*self))
    }
}

impl Deserialize for i64 {
    open spec fn from_json(j: Json) -> Result<i64, Undeserialized> {
        match signed_in(j) {
            Ok(n) => Ok(n as i64),
            Err(e) => Err(Undeserialized::InvalidConversion(e)),
        }
    }

    fn deserialize(value: Value) -> (r: Result<Self, DeserializeError>) {
        match i64::try_from(value) {
            Ok(n) => Ok(n),
            Err(e) => Err(DeserializeError::InvalidConversion(e)),
        }
    }
}

// Generics
impl<T: Serialize> Serialize for &T {
    open spec fn json(&self) -> Json {
        (**self).json()
    }

    fn serialize(&self) -> (r: Result<Value, SerializeError>) {
        (**self).serialize()
    }
}

/// The representations of some items.
pub open spec fn all_json<T: Serialize>(items: Seq<T>) -> Seq<Json> {
    Seq::new(items.len(), |i: int| items[i].json())
}

impl<T: Serialize> Serialize for [T] {
    open spec fn json(&self) -> Json {
        Json::Array(all_json(self@))
    }

    fn serialize(&self) -> (r: Result<Value, SerializeError>) {
        let mut items: Vec<Value> = Vec::new();
        let mut i: usize = 0;
        while i < self.len()
            invariant
                i <= self@.len(),
                models(items@) == all_json(self@).take(i as int),
            decreases self@.len() - i,
        {
            let ghost before = items@;
            match self[i].serialize() {
                Ok(v) => {
                    items.push(v);
                    assert(models(items@) =~= models(before).push(v@));
                    assert(models(items@) =~= all_json(self@).take(i + 1));
                },
                Err(e) => return Err(e),
            }
            i = i + 1;
        }
        proof {
            lemma_array_view(items);
            assert(all_json(self@).take(i as int) =~= all_json(self@));
        }
        Ok(Value::Array(items))
    }
}

impl<T: Serialize> Serialize for Vec<T> {
    open spec fn json(&self) -> Json {
        Json::Array(all_json(self@))
    }

    fn serialize(&self) -> (r: Result<Value, SerializeError>) {
        self.as_slice().serialize()
    }
}

/// What the representations from the `i`-th on stand for; the first faulty one decides.
pub open spec fn all_from_json<T: Deserialize>(items: Seq<Json>, i: int) -> Result<
    Seq<T::V>,
    Undeserialized,
>
    decreases items.len() - i,
{
    if i >= items.len() {
        Ok(seq![])
    } else {
        match T::from_json(items[i]) {
            Err(e) => Err(e),
            Ok(x) => match all_from_json::<T>(items, i + 1) {
                Err(e) => Err(e),
                Ok(rest) => Ok(seq![x] + rest),
            },
        }
    }
}

impl<T: Deserialize> Deserialize for Vec<T> {
    open spec fn from_json(j: Json) -> Result<Seq<T::V>, Undeserialized> {
        match j {
            Json::Array(items) => all_from_json::<T>(items, 0),
            _ => Err(Undeserialized::InvalidValue(j)),
        }
    }

    fn deserialize(value: Value) -> (r: Result<Self, DeserializeError>) {
        match value {
            Value::Array(values) => {
                proof {
                    lemma_array_view(values);
                }
                let ghost all = models(values@);
                let ghost whole = values@;
                let mut items: Vec<T> = Vec::new();
                let mut rest: Vec<Value> = values;
                // Taking from the back is cheap, so turn the list over first.
                let mut turned: Vec<Value> = Vec::new();
                while rest.len() > 0
                    invariant
                        rest@.len() + turned@.len() == whole.len(),
                        rest@ == whole.take(rest@.len() as int),
                        forall|i: int|
                            0 <= i < turned@.len() ==> #[trigger] turned@[i] == whole[whole.len() - 1
                                - i],
                    decreases rest@.len(),
                {
                    if let Some(v) = rest.pop() {
                        turned.push(v);
                    }
                    assert(rest@ =~= whole.take(rest@.len() as int));
                }
                proof {
                    if let Ok(r) = all_from_json::<T>(all, 0) {
                        assert(items.deep_view() + r =~= r);
                    }
                }
                while turned.len() > 0
                    invariant
                        value@ == Json::Array(all),
                        all == models(whole),
                        items@.len() + turned@.len() == whole.len(),
                        forall|i: int|
                            0 <= i < turned@.len() ==> #[trigger] turned@[i] == whole[whole.len() - 1
                                - i],
                        all_from_json::<T>(all, 0) == (match all_from_json::<T>(
                            all,
                            items@.len() as int,
                        ) {
                            Ok(r) => Ok(items.deep_view() + r),
                            Err(e) => Err(e),
                        }),
                    decreases turned@.len(),
                {
                    let ghost done = items@.len() as int;
                    let ghost before = items.deep_view();
                    assert(turned@[turned@.len() - 1] == whole[done]);
                    if let Some(v) = turned.pop() {
                        assert(v@ == all[done]);
                        match T::deserialize(v) {
                            Ok(x) => {
                                items.push(x);
                                proof {
                                    assert(items.deep_view() =~= before.push(x.deep_view()));
                                    if let Ok(r) = all_from_json::<T>(all, done + 1) {
                                        assert(before + (seq![x.deep_view()] + r)
                                            =~= items.deep_view() + r);
                                    }
                                }
                            },
                            Err(e) => return Err(e),
                        }
                    }
                }
                assert(items.deep_view() + Seq::<T::V>::empty() =~= items.deep_view());
                Ok(items)
            },
            _ => Err(DeserializeError::InvalidValue(value)),
        }
    }
}

impl<T: Serialize> Serialize for Option<T> {
    open spec fn json(&self) -> Json {
        match *self {
            Some(x) => x.json(),
            None => Json::Null,
        }
    }

    fn serialize(&self) -> (r: Result<Value, SerializeError>) {
        match self {
            Some(v) => v.serialize(),
            None => Ok(Value::Null),
        }
    }
}

impl<T: Deserialize> Deserialize for Option<T> {
    open spec fn from_json(j: Json) -> Result<Option<T::V>, Undeserialized> {
        match j {
            Json::Null => Ok(None),
            _ => match T::from_json(j) {
                Ok(x) => Ok(Some(x)),
                Err(e) => Err(e),
            },
        }
    }

    fn deserialize(value: Value) -> (r: Result<Self, DeserializeError>) {
        if let Value::Null = value {
            Ok(None)
        } else {
            match T::deserialize(value) {
                Ok(x) => Ok(Some(x)),
                Err(e) => Err(e),
            }
        }
    }
}

/// Strings read back.
pub broadcast proof fn string_reads_back(s: String)
    ensures
        #[trigger] reads_back(s),
{
}

/// Truth values read back.
pub broadcast proof fn bool_reads_back(b: bool)
    ensures
        #[trigger] reads_back(b),
{
}

/// Unsigned numbers read back.
pub broadcast proof fn u64_reads_back(n: u64)
    ensures
        #[trigger] reads_back(n),
{
    parse_u64_inverts_to_string(n);
}

/// Signed numbers read back.
pub broadcast proof fn i64_reads_back(n: i64)
    ensures
        #[trigger] reads_back(n),
{
    parse_i64_inverts_to_string(n);
}

/// An option reads back where what it holds does, unless that is written as `null` itself.
pub proof fn option_reads_back<T: Serialize + Deserialize>(x: Option<T>)
    requires
        x matches Some(v) ==> reads_back(v) && v.json() != Json::Null,
    ensures
        reads_back(x),
{
}

proof fn lemma_all_read_as<T: Serialize + Deserialize>(items: Seq<T>, values: Seq<T::V>, i: int)
    requires
        items.len() == values.len(),
        forall|k: int|
            0 <= k < items.len() ==> reads_as(#[trigger] items[k], values[k]),
        0 <= i <= items.len(),
    ensures
        all_from_json::<T>(all_json(items), i) == Ok::<Seq<T::V>, Undeserialized>(values.skip(i)),
    decreases items.len() - i,
{
    if i < items.len() {
        lemma_all_read_as(items, values, i + 1);
        assert(reads_as(items[i], values[i]));
        assert(seq![values[i]] + values.skip(i + 1) =~= values.skip(i));
    } else {
        assert(values.skip(i) =~= seq![]);
    }
}

/// A list is read as the list of what its items are read as.
pub proof fn list_reads_as<T: Serialize + Deserialize>(items: Seq<T>, values: Seq<T::V>)
    requires
        items.len() == values.len(),
        forall|k: int|
            0 <= k < items.len() ==> reads_as(#[trigger] items[k], values[k]),
    ensures
        all_from_json::<T>(all_json(items), 0) == Ok::<Seq<T::V>, Undeserialized>(values),
{
    lemma_all_read_as(items, values, 0);
    assert(values.skip(0) =~= values);
}

/// A list reads back where each of its items does.
pub proof fn vec_reads_back<T: Serialize + Deserialize>(items: Vec<T>)
    requires
        forall|k: int| 0 <= k < items@.len() ==> reads_back(#[trigger] items@[k]),
    ensures
        reads_back(items),
{
    assert forall|k: int| 0 <= k < items@.len() implies reads_as(
        #[trigger] items@[k],
        items.deep_view()[k],
    ) by {
        assert(reads_back(items@[k]));
    }
    list_reads_as(items@, items.deep_view());
}

/// A list is read exactly if each of its items is, in order.
pub proof fn lists_are_read_item_by_item<T: Deserialize>(items: Seq<Json>, values: Seq<T::V>)
    ensures
        Vec::<T>::from_json(Json::Array(items)) == Ok::<Seq<T::V>, Undeserialized>(values)
            <==> items.len() == values.len() && forall|k: int|
            0 <= k < items.len() ==> T::from_json(#[trigger] items[k]) == Ok::<T::V, Undeserialized>(
                values[k],
            ),
{
    lemma_all_read::<T>(items, values, 0);
    assert(values.skip(0) =~= values);
    if items.len() == values.len() && forall|k: int|
        0 <= k < items.len() ==> T::from_json(#[trigger] items[k]) == Ok::<T::V, Undeserialized>(
            values[k],
        ) {
        assert(all_from_json::<T>(items, 0) == Ok::<Seq<T::V>, Undeserialized>(values));
    }
}

proof fn lemma_all_read<T: Deserialize>(items: Seq<Json>, values: Seq<T::V>, i: int)
    requires
        0 <= i <= items.len(),
    ensures
        i <= values.len() ==> (all_from_json::<T>(items, i) == Ok::<Seq<T::V>, Undeserialized>(
            values.skip(i),
        ) <==> items.len() == values.len() && forall|k: int|
            i <= k < items.len() ==> T::from_json(#[trigger] items[k]) == Ok::<T::V, Undeserialized>(
                values[k],
            )),
    decreases items.len() - i,
{
    if i <= values.len() {
        let rest = values.skip(i);
        if i < items.len() {
            if i < values.len() {
                lemma_all_read::<T>(items, values, i + 1);
                if let Ok(x) = T::from_json(items[i]) {
                    if let Ok(r) = all_from_json::<T>(items, i + 1) {
                        let t = seq![x] + r;
                        if t == rest {
                            assert(t[0] == rest[0]);
                            assert(t.skip(1) =~= r);
                            assert(rest.skip(1) =~= values.skip(i + 1));
                        }
                        if x == values[i] && r == values.skip(i + 1) {
                            assert(t =~= rest);
                        }
                    }
                }
            } else {
                assert(rest.len() == 0);
                if let Ok(x) = T::from_json(items[i]) {
                    if let Ok(r) = all_from_json::<T>(items, i + 1) {
                        assert((seq![x] + r).len() > 0);
                    }
                }
            }
        } else {
            if values.len() == i {
                assert(rest =~= seq![]);
            } else {
                assert(rest.len() > 0);
            }
        }
    }
}

/// Options are read as `null`, or as what they hold.
pub proof fn options_are_null_or_the_value<T: Deserialize>(j: Json)
    ensures
        Option::<T>::from_json(j) matches Ok(x) ==> match x {
            None => j == Json::Null,
            Some(v) => j != Json::Null && T::from_json(j) == Ok::<T::V, Undeserialized>(v),
        },
        j == Json::Null ==> Option::<T>::from_json(j) == Ok::<Option<T::V>, Undeserialized>(None),
        j != Json::Null && T::from_json(j) is Ok ==> Option::<T>::from_json(j) == Ok::<
            Option<T::V>,
            Undeserialized,
        >(Some(T::from_json(j)->Ok_0)),
{
}

/// Strings, truth values and whole numbers are read from just those. A whole number is read from
/// digits that have its value, with a sign in front or not.
pub proof fn plain_values_are_read_by_kind(j: Json, x: u64, y: i64)
    ensures
        String::from_json(j) is Ok <==> j is String,
        j matches Json::String(s) ==> String::from_json(j) == Ok::<Seq<char>, Undeserialized>(s),
        bool::from_json(j) is Ok <==> j is Bool,
        j matches Json::Bool(b) ==> bool::from_json(j) == Ok::<bool, Undeserialized>(b),
        u64::from_json(j) == Ok::<u64, Undeserialized>(x) <==> j is Number && {
            let n = j->Number_0;
            ||| all_digits(n) && digits_value(n) == x
            ||| n.len() > 0 && n[0] == '+' && all_digits(n.skip(1)) && digits_value(n.skip(1)) == x
        },
        i64::from_json(j) == Ok::<i64, Undeserialized>(y) <==> j is Number && {
            let n = j->Number_0;
            ||| all_digits(n) && digits_value(n) == y
            ||| n.len() > 0 && n[0] == '+' && all_digits(n.skip(1)) && digits_value(n.skip(1)) == y
            ||| n.len() > 0 && n[0] == '-' && all_digits(n.skip(1)) && digits_value(n.skip(1)) == -y
        },
{
    if let Json::Number(n) = j {
        unsigned_numbers_are_read_by_value(n, x as nat);
        signed_numbers_are_read_by_value(n, y as int);
        if let Ok(v) = crate::decimal::unsigned_value(n) {
            unsigned_numbers_are_read_by_value(n, v);
        }
        if let Ok(v) = crate::decimal::signed_value(n) {
            signed_numbers_are_read_by_value(n, v);
        }
    }
}

} // verus!
