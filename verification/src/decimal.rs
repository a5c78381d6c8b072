//! Integers as text, in base ten and base sixteen.
use crate::text::chars_of;
use vstd::prelude::*;

verus! {

/// Why a text is not an integer of the wanted type.
#[derive(Debug, Clone, Copy, PartialEq, Eq, Structural)]
pub enum ParseIntError {
    /// There was nothing to read.
    Empty,
    /// A character that is no digit, or a sign with nothing behind it.
    InvalidDigit,
    /// The number is above the type's greatest value.
    PosOverflow,
    /// The number is below the type's least value.
    NegOverflow,
}

impl ParseIntError {
    /// The message for this error.
    pub open spec fn message(self) -> Seq<char> {
        match self {
            ParseIntError::Empty => "cannot parse integer from empty string"@,
            ParseIntError::InvalidDigit => "invalid digit found in string"@,
            ParseIntError::PosOverflow => "number too large to fit in target type"@,
            ParseIntError::NegOverflow => "number too small to fit in target type"@,
        }
    }

    /// The message for this error.
    pub fn to_string(&self) -> (s: String)
        ensures
            s@ == self.message(),
    {
        match self {
            ParseIntError::Empty => "cannot parse integer from empty string".to_owned(),
            ParseIntError::InvalidDigit => "invalid digit found in string".to_owned(),
            ParseIntError::PosOverflow => "number too large to fit in target type".to_owned(),
            ParseIntError::NegOverflow => "number too small to fit in target type".to_owned(),
        }
    }
}

/// The character for a digit below sixteen.
pub open spec fn digit_char(d: nat) -> char {
    if d < 10 {
        (48 + d) as char
    } else {
        (97 + (d - 10)) as char
    }
}

/// The digits of `n` in base ten, without leading zeros.
pub open spec fn decimal(n: nat) -> Seq<char>
    decreases n,
{
    if n < 10 {
        seq![digit_char(n)]
    } else {
        decimal(n / 10).push(digit_char(n % 10))
    }
}

/// A signed number in base ten.
pub open spec fn signed_decimal(n: int) -> Seq<char> {
    if n < 0 {
        seq!['-'] + decimal((-n) as nat)
    } else {
        decimal(n as nat)
    }
}

/// The digits of `n` in base sixteen, lower case, without leading zeros.
pub open spec fn hexadecimal(n: nat) -> Seq<char>
    decreases n,
{
    if n < 16 {
        seq![digit_char(n)]
    } else {
        hexadecimal(n / 16).push(digit_char(n % 16))
    }
}

pub open spec fn is_digit(c: char) -> bool {
    '0' <= c <= '9'
}

/// The value of the digits of `s` from `i` on, read behind a number `acc`.
///
/// The first character that is no digit, or the first digit with which the number
/// leaves the range up to `max`, decides.
pub open spec fn number_from(s: Seq<char>, i: int, acc: nat, max: nat, over: ParseIntError) -> Result<
    nat,
    ParseIntError,
>
    decreases s.len() - i,
{
    if i >= s.len() {
        Ok(acc)
    } else if !is_digit(s[i]) {
        Err(ParseIntError::InvalidDigit)
    } else {
        let next = (acc * 10 + (s[i] as nat - 48)) as nat;
        if next > max {
            Err(over)
        } else {
            number_from(s, i + 1, next, max, over)
        }
    }
}

/// The unsigned number up to `max` that a text stands for: digits, with `+` in front or not.
pub open spec fn unsigned_upto(s: Seq<char>, max: nat) -> Result<nat, ParseIntError> {
    if s.len() == 0 {
        Err(ParseIntError::Empty)
    } else if s[0] == '+' {
        if s.len() == 1 {
            Err(ParseIntError::InvalidDigit)
        } else {
            number_from(s, 1, 0, max, ParseIntError::PosOverflow)
        }
    } else {
        number_from(s, 0, 0, max, ParseIntError::PosOverflow)
    }
}

/// The unsigned number of 64 bits that a text stands for.
pub open spec fn unsigned_value(s: Seq<char>) -> Result<nat, ParseIntError> {
    unsigned_upto(s, u64::MAX as nat)
}

/// The signed number that a text stands for: digits, with `+` or `-` in front or not.
pub open spec fn signed_value(s: Seq<char>) -> Result<int, ParseIntError> {
    if s.len() == 0 {
        Err(ParseIntError::Empty)
    } else if s[0] == '-' || s[0] == '+' {
        if s.len() == 1 {
            Err(ParseIntError::InvalidDigit)
        } else if s[0] == '-' {
            match number_from(s, 1, 0, 0x8000_0000_0000_0000, ParseIntError::NegOverflow) {
                Ok(n) => Ok(-n),
                Err(e) => Err(e),
            }
        } else {
            match number_from(s, 1, 0, i64::MAX as nat, ParseIntError::PosOverflow) {
                Ok(n) => Ok(n as int),
                Err(e) => Err(e),
            }
        }
    } else {
        match number_from(s, 0, 0, i64::MAX as nat, ParseIntError::PosOverflow) {
            Ok(n) => Ok(n as int),
            Err(e) => Err(e),
        }
    }
}

/// Appends a digit below sixteen, lower case.
pub fn push_digit(out: &mut String, d: u8)
    requires
        d < 16,
    ensures
        final(out)@ == old(out)@.push(digit_char(d as nat)),
{
    let b: u8 = if d < 10 {
        48 + d
    } else {
        97 + (d - 10)
    };
    out.push(b as char);
}

/// Appends `n` in base ten.
pub fn push_decimal(out: &mut String, n: u64)
    ensures
        final(out)@ == old(out)@ + decimal(n as nat),
    decreases n,
{
    if n >= 10 {
        push_decimal(out, n / 10);
    }
    push_digit(out, (n % 10) as u8);
    assert(out@ =~= old(out)@ + decimal(n as nat));
}

/// Appends `n` in base sixteen, lower case.
pub fn push_hexadecimal(out: &mut String, n: u64)
    ensures
        final(out)@ == old(out)@ + hexadecimal(n as nat),
    decreases n,
{
    if n >= 16 {
        push_hexadecimal(out, n / 16);
    }
    push_digit(out, (n % 16) as u8);
    assert(out@ =~= old(out)@ + hexadecimal(n as nat));
}

/// An unsigned number in base ten.
pub fn u64_to_string(n: u64) -> (s: String)
    ensures
        s@ == decimal(n as nat),
{
    let mut s: String = String::new();
    push_decimal(&mut s, n);
    assert(s@ =~= decimal(n as nat));
    s
}

/// A signed number in base ten.
pub fn i64_to_string(n: i64) -> (s: String)
    ensures
        s@ == signed_decimal(n as int),
{
    let mut s: String = String::new();
    if n < 0 {
        s.push('-');
        push_decimal(&mut s, (-(n + 1)) as u64 + 1);
    } else {
        push_decimal(&mut s, n as u64);
    }
    assert(s@ =~= signed_decimal(n as int));
    s
}

fn read_digits(s: &Vec<char>, from: usize, max: u64, over: ParseIntError) -> (r: Result<
    u64,
    ParseIntError,
>)
    ensures
        match r {
            Ok(n) => number_from(s@, from as int, 0, max as nat, over) == Ok::<nat, ParseIntError>(
                n as nat,
            ) && n <= max,
            Err(e) => number_from(s@, from as int, 0, max as nat, over) == Err::<
                nat,
                ParseIntError,
            >(e),
        },
{
    let mut acc: u64 = 0;
    let mut i: usize = from;
    while i < s.len()
        invariant
            acc <= max,
            from <= i,
            number_from(s@, from as int, 0, max as nat, over) == number_from(
                s@,
                i as int,
                acc as nat,
                max as nat,
                over,
            ),
        decreases s.len() - i,
    {
        let c: char = s[i];
        if !('0' <= c && c <= '9') {
            return Err(ParseIntError::InvalidDigit);
        }
        let d: u64 = c as u64 - 48;
        if acc > u64::MAX / 10 || acc * 10 > max || d > max - acc * 10 {
            return Err(over);
        }
        acc = acc * 10 + d;
        i = i + 1;
    }
    Ok(acc)
}

fn parse_upto(s: &str, max: u64) -> (r: Result<u64, ParseIntError>)
    ensures
        match r {
            Ok(n) => unsigned_upto(s@, max as nat) == Ok::<nat, ParseIntError>(n as nat) && n
                <= max,
            Err(e) => unsigned_upto(s@, max as nat) == Err::<nat, ParseIntError>(e),
        },
{
    let cs: Vec<char> = chars_of(s);
    if cs.len() == 0 {
        return Err(ParseIntError::Empty);
    }
    if cs[0] == '+' {
        if cs.len() == 1 {
            return Err(ParseIntError::InvalidDigit);
        }
        return read_digits(&cs, 1, max, ParseIntError::PosOverflow);
    }
    read_digits(&cs, 0, max, ParseIntError::PosOverflow)
}

/// Reads an unsigned number of 64 bits.
pub fn parse_u64(s: &str) -> (r: Result<u64, ParseIntError>)
    ensures
        match r {
            Ok(n) => unsigned_value(s@) == Ok::<nat, ParseIntError>(n as nat),
            Err(e) => unsigned_value(s@) == Err::<nat, ParseIntError>(e),
        },
{
    parse_upto(s, u64::MAX)
}

/// Reads an unsigned number of 16 bits.
pub fn parse_u16(s: &str) -> (r: Result<u16, ParseIntError>)
    ensures
        match r {
            Ok(n) => unsigned_upto(s@, u16::MAX as nat) == Ok::<nat, ParseIntError>(n as nat),
            Err(e) => unsigned_upto(s@, u16::MAX as nat) == Err::<nat, ParseIntError>(e),
        },
{
    match parse_upto(s, u16::MAX as u64) {
        Ok(n) => Ok(n as u16),
        Err(e) => Err(e),
    }
}

/// Reads a signed number.
pub fn parse_i64(s: &str) -> (r: Result<i64, ParseIntError>)
    ensures
        match r {
            Ok(n) => signed_value(s@) == Ok::<int, ParseIntError>(n as int),
            Err(e) => signed_value(s@) == Err::<int, ParseIntError>(e),
        },
{
    let cs: Vec<char> = chars_of(s);
    if cs.len() == 0 {
        return Err(ParseIntError::Empty);
    }
    let signed: bool = cs[0] == '-' || cs[0] == '+';
    if signed && cs.len() == 1 {
        return Err(ParseIntError::InvalidDigit);
    }
    if cs[0] == '-' {
        match read_digits(&cs, 1, 0x8000_0000_0000_0000, ParseIntError::NegOverflow) {
            Ok(n) => Ok(
                if n == 0x8000_0000_0000_0000 {
                    i64::MIN
                } else {
                    -(n as i64)
                },
            ),
            Err(e) => Err(e),
        }
    } else {
        let from: usize = if signed {
            1
        } else {
            0
        };
        match read_digits(&cs, from, i64::MAX as u64, ParseIntError::PosOverflow) {
            Ok(n) => Ok(n as i64),
            Err(e) => Err(e),
        }
    }
}

/// Every digit of a number in base ten is a digit, and there is at least one.
pub proof fn lemma_decimal_digits(n: nat)
    ensures
        decimal(n).len() > 0,
        forall|i: int| 0 <= i < decimal(n).len() ==> is_digit(#[trigger] decimal(n)[i]),
        n > 0 ==> decimal(n)[0] != '0',
        decimal(n).len() > 1 ==> decimal(n)[0] != '0',
    decreases n,
{
    if n >= 10 {
        lemma_decimal_digits(n / 10);
    }
}

proof fn lemma_number_prefix(s: Seq<char>, c: char, i: int, acc: nat, max: nat, over: ParseIntError)
    requires
        0 <= i <= s.len(),
        number_from(s, i, acc, max, over) is Ok,
    ensures
        number_from(s.push(c), i, acc, max, over) == number_from(
            s.push(c),
            s.len() as int,
            number_from(s, i, acc, max, over)->Ok_0,
            max,
            over,
        ),
    decreases s.len() - i,
{
    if i < s.len() {
        let next = (acc * 10 + (s[i] as nat - 48)) as nat;
        lemma_number_prefix(s, c, i + 1, next, max, over);
    }
}

proof fn lemma_number_shift(p: Seq<char>, s: Seq<char>, i: int, acc: nat, max: nat, over: ParseIntError)
    requires
        0 <= i <= s.len(),
    ensures
        number_from(p + s, p.len() + i, acc, max, over) == number_from(s, i, acc, max, over),
    decreases s.len() - i,
{
    if i < s.len() {
        let next = (acc * 10 + (s[i] as nat - 48)) as nat;
        lemma_number_shift(p, s, i + 1, next, max, over);
    }
}

/// The digits of a number read back as that number.
pub proof fn lemma_decimal_read_back(n: nat, max: nat, over: ParseIntError)
    requires
        n <= max,
    ensures
        number_from(decimal(n), 0, 0, max, over) == Ok::<nat, ParseIntError>(n),
    decreases n,
{
    let s = decimal(n);
    if n < 10 {
        assert(number_from(s, 1, n, max, over) == Ok::<nat, ParseIntError>(n));
    } else {
        let p = decimal(n / 10);
        let c = digit_char(n % 10);
        lemma_decimal_read_back(n / 10, max, over);
        lemma_number_prefix(p, c, 0, 0, max, over);
        assert(number_from(s, s.len() as int, n, max, over) == Ok::<nat, ParseIntError>(n));
    }
}

/// Reading an unsigned number gives back the number that was written.
pub proof fn parse_u64_inverts_to_string(n: u64)
    ensures
        unsigned_value(decimal(n as nat)) == Ok::<nat, ParseIntError>(n as nat),
{
    lemma_decimal_digits(n as nat);
    lemma_decimal_read_back(n as nat, u64::MAX as nat, ParseIntError::PosOverflow);
    assert(is_digit(decimal(n as nat)[0]));
}

/// Reading a signed number gives back the number that was written.
pub proof fn parse_i64_inverts_to_string(n: i64)
    ensures
        signed_value(signed_decimal(n as int)) == Ok::<int, ParseIntError>(n as int),
{
    if n < 0 {
        let m = (-n) as nat;
        let p = seq!['-'];
        lemma_decimal_digits(m);
        lemma_decimal_read_back(m, 0x8000_0000_0000_0000, ParseIntError::NegOverflow);
        lemma_number_shift(p, decimal(m), 0, 0, 0x8000_0000_0000_0000, ParseIntError::NegOverflow);
    } else {
        lemma_decimal_digits(n as nat);
        lemma_decimal_read_back(n as nat, i64::MAX as nat, ParseIntError::PosOverflow);
        assert(is_digit(decimal(n as nat)[0]));
    }
}

/// Nothing but digits, and at least one.
pub open spec fn all_digits(s: Seq<char>) -> bool {
    s.len() > 0 && forall|i: int| 0 <= i < s.len() ==> '0' <= #[trigger] s[i] <= '9'
}

/// The value of digits: the last counts once, the one in front of it ten times, and so on.
pub open spec fn digits_value(s: Seq<char>) -> int
    decreases s.len(),
{
    if s.len() == 0 {
        0
    } else {
        digits_value(s.drop_last()) * 10 + (s.last() as int - '0' as int)
    }
}

/// The value of hexadecimal digits.
pub open spec fn hexadecimal_value(s: Seq<char>) -> int
    decreases s.len(),
{
    if s.len() == 0 {
        0
    } else {
        hexadecimal_value(s.drop_last()) * 16 + (if '0' <= s.last() <= '9' {
            s.last() as int - '0' as int
        } else {
            s.last() as int - 'a' as int + 10
        })
    }
}

/// What is read of the digits up to the `i`-th decides how the rest is read.
proof fn lemma_number_up_to(s: Seq<char>, i: int, max: nat, over: ParseIntError)
    requires
        0 <= i <= s.len(),
        forall|k: int| 0 <= k < i ==> '0' <= #[trigger] s[k] <= '9',
        digits_value(s.take(i)) <= max,
    ensures
        0 <= digits_value(s.take(i)),
        number_from(s, 0, 0, max, over) == number_from(
            s,
            i,
            digits_value(s.take(i)) as nat,
            max,
            over,
        ),
    decreases i,
{
    if i > 0 {
        let t = s.take(i);
        assert(t.drop_last() =~= s.take(i - 1));
        assert(t.last() == s[i - 1]);
        assert('0' <= s[i - 1] <= '9');
        lemma_digits_count(s.take(i - 1));
        lemma_number_up_to(s, i - 1, max, over);
    } else {
        assert(s.take(0) =~= seq![]);
    }
}

proof fn lemma_digits_count(s: Seq<char>)
    requires
        forall|k: int| 0 <= k < s.len() ==> '0' <= #[trigger] s[k] <= '9',
    ensures
        0 <= digits_value(s),
    decreases s.len(),
{
    if s.len() > 0 {
        let t = s.drop_last();
        assert forall|k: int| 0 <= k < t.len() implies '0' <= #[trigger] t[k] <= '9' by {
            assert(t[k] == s[k]);
        }
        lemma_digits_count(t);
        assert('0' <= s[s.len() - 1] <= '9');
    }
}

/// Digits are read as their value, if it is within the limit; and nothing else is read.
proof fn lemma_number_reads(s: Seq<char>, i: int, max: nat, over: ParseIntError)
    requires
        0 <= i <= s.len(),
        forall|k: int| 0 <= k < i ==> '0' <= #[trigger] s[k] <= '9',
        digits_value(s.take(i)) <= max,
    ensures
        match number_from(s, 0, 0, max, over) {
            Ok(n) => (forall|k: int| 0 <= k < s.len() ==> '0' <= #[trigger] s[k] <= '9')
                && digits_value(s) == n && n <= max,
            Err(e) => {
                ||| e == ParseIntError::InvalidDigit && exists|k: int|
                    0 <= k < s.len() && !('0' <= #[trigger] s[k] <= '9')
                ||| e == over && ((forall|k: int| 0 <= k < s.len() ==> '0' <= #[trigger] s[k] <= '9')
                    ==> digits_value(s) > max)
            },
        },
    decreases s.len() - i,
{
    lemma_number_up_to(s, i, max, over);
    if i == s.len() {
        assert(s.take(i) =~= s);
    } else if '0' <= s[i] <= '9' {
        let t = s.take(i + 1);
        assert(t.drop_last() =~= s.take(i));
        assert(t.last() == s[i]);
        if digits_value(t) <= max {
            lemma_number_reads(s, i + 1, max, over);
        } else {
            if forall|k: int| 0 <= k < s.len() ==> '0' <= #[trigger] s[k] <= '9' {
                lemma_digits_grow(s, i + 1);
            }
        }
    }
}

proof fn lemma_digits_grow(s: Seq<char>, i: int)
    requires
        0 <= i <= s.len(),
        forall|k: int| 0 <= k < s.len() ==> '0' <= #[trigger] s[k] <= '9',
    ensures
        digits_value(s.take(i)) <= digits_value(s),
    decreases s.len() - i,
{
    if i < s.len() {
        let t = s.take(i + 1);
        assert(t.drop_last() =~= s.take(i));
        assert(t.last() == s[i]);
        lemma_digits_count(s.take(i));
        lemma_digits_grow(s, i + 1);
    } else {
        assert(s.take(i) =~= s);
    }
}

/// Behind one character, digits are read as if it were not there.
proof fn lemma_number_behind(s: Seq<char>, max: nat, over: ParseIntError)
    requires
        s.len() > 0,
    ensures
        number_from(s, 1, 0, max, over) == number_from(s.skip(1), 0, 0, max, over),
{
    let p = seq![s[0]];
    assert(s =~= p + s.skip(1));
    lemma_number_shift(p, s.skip(1), 0, 0, max, over);
}

proof fn lemma_number_exact(s: Seq<char>, n: nat, max: nat, over: ParseIntError)
    requires
        s.len() > 0,
    ensures
        number_from(s, 0, 0, max, over) == Ok::<nat, ParseIntError>(n) <==> all_digits(s)
            && digits_value(s) == n && n <= max,
{
    assert(s.take(0) =~= seq![]);
    lemma_number_reads(s, 0, max, over);
    if all_digits(s) {
        assert(forall|k: int| 0 <= k < s.len() ==> '0' <= #[trigger] s[k] <= '9');
    }
}

/// An unsigned number is read exactly from digits, with `+` in front or not, whose value is in
/// range, and as that value.
pub proof fn unsigned_numbers_are_read_by_value(s: Seq<char>, n: nat)
    ensures
        unsigned_value(s) == Ok::<nat, ParseIntError>(n) <==> n <= u64::MAX && {
            ||| all_digits(s) && digits_value(s) == n
            ||| s.len() > 0 && s[0] == '+' && all_digits(s.skip(1)) && digits_value(s.skip(1)) == n
        },
{
    let max = u64::MAX as nat;
    let over = ParseIntError::PosOverflow;
    if s.len() > 0 {
        lemma_number_exact(s, n, max, over);
        lemma_number_behind(s, max, over);
        if s.len() > 1 {
            lemma_number_exact(s.skip(1), n, max, over);
        }
        if s[0] == '+' {
            assert(!all_digits(s)) by {
                if all_digits(s) {
                    assert('0' <= s[0] <= '9');
                }
            }
        }
    }
}

/// A signed number is read exactly from digits, with a sign in front or not, whose value is in
/// range, and as that value.
pub proof fn signed_numbers_are_read_by_value(s: Seq<char>, n: int)
    ensures
        signed_value(s) == Ok::<int, ParseIntError>(n) <==> i64::MIN <= n <= i64::MAX && {
            ||| all_digits(s) && digits_value(s) == n
            ||| s.len() > 0 && s[0] == '+' && all_digits(s.skip(1)) && digits_value(s.skip(1)) == n
            ||| s.len() > 0 && s[0] == '-' && all_digits(s.skip(1)) && digits_value(s.skip(1)) == -n
        },
{
    let max = i64::MAX as nat;
    let over = ParseIntError::PosOverflow;
    let m = (if n < 0 {
        -n
    } else {
        n
    }) as nat;
    if s.len() > 0 {
        lemma_number_exact(s, m, max, over);
        lemma_number_behind(s, max, over);
        lemma_number_behind(s, 0x8000_0000_0000_0000, ParseIntError::NegOverflow);
        if s.len() > 1 {
            lemma_number_exact(s.skip(1), m, max, over);
            lemma_number_exact(
                s.skip(1),
                m,
                0x8000_0000_0000_0000,
                ParseIntError::NegOverflow,
            );
            if all_digits(s.skip(1)) {
                lemma_digits_count(s.skip(1));
            }
        }
        if all_digits(s) {
            lemma_digits_count(s);
            assert('0' <= s[0] <= '9');
        }
    }
}

/// Numbers are written with digits that have their value, and without a leading zero.
pub proof fn numbers_are_written_by_value(n: nat)
    ensures
        all_digits(decimal(n)),
        digits_value(decimal(n)) == n,
        decimal(n).len() > 1 ==> decimal(n)[0] != '0',
        hexadecimal_value(hexadecimal(n)) == n,
        hexadecimal(n).len() > 0,
        hexadecimal(n).len() > 1 ==> hexadecimal(n)[0] != '0',
        forall|i: int|
            0 <= i < hexadecimal(n).len() ==> '0' <= #[trigger] hexadecimal(n)[i] <= '9' || 'a'
                <= hexadecimal(n)[i] <= 'f',
    decreases n,
{
    lemma_decimal_digits(n);
    assert forall|i: int| 0 <= i < decimal(n).len() implies '0' <= #[trigger] decimal(n)[i] <= '9' by {
        assert(is_digit(decimal(n)[i]));
    }
    lemma_decimal_value(n);
    lemma_hexadecimal_value(n);
}

proof fn lemma_decimal_value(n: nat)
    ensures
        digits_value(decimal(n)) == n,
    decreases n,
{
    if n >= 10 {
        lemma_decimal_value(n / 10);
        assert(decimal(n).drop_last() =~= decimal(n / 10));
        assert(decimal(n).last() == digit_char(n % 10));
    } else {
        assert(decimal(n).drop_last() =~= seq![]);
        assert(digits_value(seq![]) == 0);
        assert(decimal(n).last() == digit_char(n));
    }
}

proof fn lemma_hexadecimal_value(n: nat)
    ensures
        hexadecimal_value(hexadecimal(n)) == n,
        hexadecimal(n).len() > 0,
        n > 0 ==> hexadecimal(n)[0] != '0',
        hexadecimal(n).len() > 1 ==> hexadecimal(n)[0] != '0',
        forall|i: int|
            0 <= i < hexadecimal(n).len() ==> '0' <= #[trigger] hexadecimal(n)[i] <= '9' || 'a'
                <= hexadecimal(n)[i] <= 'f',
    decreases n,
{
    let h = hexadecimal(n);
    if n >= 16 {
        lemma_hexadecimal_value(n / 16);
        assert(h.drop_last() =~= hexadecimal(n / 16));
        assert(h.last() == digit_char(n % 16));
        assert forall|i: int| 0 <= i < h.len() implies '0' <= #[trigger] h[i] <= '9' || 'a' <= h[i]
            <= 'f' by {
            if i < h.len() - 1 {
                assert(h[i] == hexadecimal(n / 16)[i]);
            }
        }
    } else {
        assert(h.drop_last() =~= seq![]);
        assert(hexadecimal_value(seq![]) == 0);
        assert(h.last() == digit_char(n));
    }
}

} // verus!
