//! Data that can be copied, compared and shown, and what that means mathematically.
use crate::decimal::{
    decimal, i64_to_string, parse_i64_inverts_to_string, parse_u64_inverts_to_string, signed_decimal, signed_value,
    u64_to_string, unsigned_value, ParseIntError,
};
use crate::text::str_eq;
use vstd::prelude::*;

verus! {

/// Something that can be had twice.
pub trait Duplicate: DeepView + Sized {
    /// A second value that means the same.
    fn duplicate(&self) -> (d: Self)
        ensures
            d.deep_view() == self.deep_view(),
    ;
}

/// A key or a value of a store.
pub trait Datum: Duplicate {
    /// How this is shown to developers.
    spec fn shown(d: Self::V) -> Seq<char>;

    /// Whether two values mean the same.
    fn same(&self, other: &Self) -> (b: bool)
        ensures
            b == (self.deep_view() == other.deep_view()),
    ;

    /// How this is shown to developers.
    fn show(&self) -> (s: String)
        ensures
            s@ == Self::shown(self.deep_view()),
    ;
}

/// A value that users can read.
pub trait Readable: Datum {
    /// How this is shown to users.
    spec fn printed(d: Self::V) -> Seq<char>;

    /// How this is shown to users.
    fn print(&self) -> (s: String)
        ensures
            s@ == Self::printed(self.deep_view()),
    ;
}

/// What std's `Debug` makes of a string: the string in quotes, with escapes.
pub uninterp spec fn debug_text(s: Seq<char>) -> Seq<char>;

/// `Debug` for [`str`], through [`std::format!`]. What it gives depends on the characters
/// of the string alone; which characters it escapes, and how, is not said here.
#[verifier::external_body]
fn debug_str(s: &str) -> (r: String)
    ensures
        r@ == debug_text(s@),
{
    format!("{:?}", s)
}

impl Duplicate for u64 {
    fn duplicate(&self) -> (d: u64) {
        *self
    }
}

impl Datum for u64 {
    open spec fn shown(d: u64) -> Seq<char> {
        decimal(d as nat)
    }

    fn same(&self, other: &u64) -> (b: bool) {
        *self == *other
    }

    fn show(&self) -> (s: String) {
        u64_to_string(*self)
    }
}

impl Readable for u64 {
    open spec fn printed(d: u64) -> Seq<char> {
        decimal(d as nat)
    }

    fn print(&self) -> (s: String) {
        u64_to_string(*self)
    }
}

impl Duplicate for i64 {
    fn duplicate(&self) -> (d: i64) {
        *self
    }
}

impl Datum for i64 {
    open spec fn shown(d: i64) -> Seq<char> {
        signed_decimal(d as int)
    }

    fn same(&self, other: &i64) -> (b: bool) {
        *self == *other
    }

    fn show(&self) -> (s: String) {
        i64_to_string(*self)
    }
}

impl Readable for i64 {
    open spec fn printed(d: i64) -> Seq<char> {
        signed_decimal(d as int)
    }

    fn print(&self) -> (s: String) {
        i64_to_string(*self)
    }
}

impl Duplicate for String {
    fn duplicate(&self) -> (d: String) {
        self.clone()
    }
}

impl Datum for String {
    open spec fn shown(d: Seq<char>) -> Seq<char> {
        debug_text(d)
    }

    fn same(&self, other: &String) -> (b: bool) {
        str_eq(self.as_str(), other.as_str())
    }

    fn show(&self) -> (s: String) {
        debug_str(self.as_str())
    }
}

impl Readable for String {
    open spec fn printed(d: Seq<char>) -> Seq<char> {
        d
    }

    fn print(&self) -> (s: String) {
        self.clone()
    }
}

impl<T: Duplicate> Duplicate for Option<T> {
    fn duplicate(&self) -> (d: Option<T>) {
        match self {
            Some(x) => Some(x.duplicate()),
            None => None,
        }
    }
}

/// Copies a list.
pub fn duplicate_all<T: Duplicate>(items: &Vec<T>) -> (r: Vec<T>)
    ensures
        r.deep_view() == items.deep_view(),
{
    let mut r: Vec<T> = Vec::new();
    let mut i: usize = 0;
    while i < items.len()
        invariant
            i <= items@.len(),
            r.deep_view() == items.deep_view().take(i as int),
        decreases items@.len() - i,
    {
        let ghost before = r.deep_view();
        r.push(items[i].duplicate());
        assert(r.deep_view() =~= before.push(items@[i as int].deep_view()));
        assert(r.deep_view() =~= items.deep_view().take(i + 1));
        i = i + 1;
    }
    assert(items.deep_view().take(i as int) =~= items.deep_view());
    r
}

impl<T: Duplicate> Duplicate for Vec<T> {
    fn duplicate(&self) -> (d: Vec<T>) {
        duplicate_all(self)
    }
}

/// What is printed, or shown, of a number can be read as that number; a text is printed as it is.
pub proof fn data_are_printed_as_they_are(n: u64, i: i64, s: Seq<char>)
    ensures
        unsigned_value(<u64 as Readable>::printed(n)) == Ok::<nat, ParseIntError>(n as nat),
        unsigned_value(<u64 as Datum>::shown(n)) == Ok::<nat, ParseIntError>(n as nat),
        signed_value(<i64 as Readable>::printed(i)) == Ok::<int, ParseIntError>(i as int),
        signed_value(<i64 as Datum>::shown(i)) == Ok::<int, ParseIntError>(i as int),
        <String as Readable>::printed(s) == s,
{
    parse_u64_inverts_to_string(n);
    parse_i64_inverts_to_string(i);
}

} // verus!
