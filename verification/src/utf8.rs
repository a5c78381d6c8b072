//! Reading UTF-8: one character, or a whole text.
use vstd::prelude::*;
use vstd::utf8::{
    codepoint_width_2, codepoint_width_3, codepoint_width_4, decode_first_scalar, decode_utf8,
    is_continuation_byte, is_scalar, length_of_first_scalar, pop_first_scalar, valid_first_scalar,
    valid_utf8,
};

verus! {

/// [`std::char::from_u32`] gives the character with that number, for exactly the numbers
/// that are Unicode scalar values.
pub assume_specification[ std::char::from_u32 ](i: u32) -> (c: std::option::Option<char>)
    ensures
        is_scalar(i) == (c is Some),
        c is Some ==> c->Some_0 as u32 == i,
;

/// Why some bytes are not UTF-8.
#[derive(Debug, Clone, Copy, PartialEq, Eq, Structural)]
pub struct Utf8Error {
    /// How many bytes in front are fine.
    pub valid_up_to: usize,
    /// How many bytes behind them are wrong; `None` where more bytes could mend them.
    pub error_len: Option<u8>,
}

/// Whether `b` may follow the lead byte `lead`.
pub open spec fn follows(lead: u8, b: u8) -> bool {
    if lead == 0xe0 {
        0xa0 <= b <= 0xbf
    } else if lead == 0xed {
        0x80 <= b <= 0x9f
    } else if lead == 0xf0 {
        0x90 <= b <= 0xbf
    } else if lead == 0xf4 {
        0x80 <= b <= 0x8f
    } else {
        0x80 <= b <= 0xbf
    }
}

/// The number of bytes that a lead byte announces, if it is one.
pub open spec fn lead_width(b: u8) -> Option<int> {
    if b < 0x80 {
        Some(1)
    } else if 0xc2 <= b <= 0xdf {
        Some(2)
    } else if 0xe0 <= b <= 0xef {
        Some(3)
    } else if 0xf0 <= b <= 0xf4 {
        Some(4)
    } else {
        None
    }
}

/// What is wrong at the start of `b`, where something is: the longest run of bytes that
/// a character could have started with, or one byte; `None` where `b` ends inside such a
/// run.
pub open spec fn first_error_len(b: Seq<u8>) -> Option<u8> {
    match lead_width(b[0]) {
        None => Some(1),
        Some(w) => if b.len() < 2 {
            None
        } else if !follows(b[0], b[1]) {
            Some(1)
        } else if b.len() < 3 {
            None
        } else if !is_continuation_byte(b[2]) {
            Some(2)
        } else if b.len() < 4 {
            None
        } else {
            Some(3)
        },
    }
}

proof fn lemma_width_2(a: u8, b: u8)
    by (bit_vector)
    requires
        0xc0 <= a <= 0xdf,
        0x80 <= b <= 0xbf,
    ensures
        codepoint_width_2(a, b) == ((a - 0xc0) * 64 + (b - 0x80)) as u32,
{
}

proof fn lemma_width_3(a: u8, b: u8, c: u8)
    by (bit_vector)
    requires
        0xe0 <= a <= 0xef,
        0x80 <= b <= 0xbf,
        0x80 <= c <= 0xbf,
    ensures
        codepoint_width_3(a, b, c) == ((a - 0xe0) * 4096 + (b - 0x80) * 64 + (c - 0x80)) as u32,
{
}

proof fn lemma_width_4(a: u8, b: u8, c: u8, d: u8)
    by (bit_vector)
    requires
        0xf0 <= a <= 0xf7,
        0x80 <= b <= 0xbf,
        0x80 <= c <= 0xbf,
        0x80 <= d <= 0xbf,
    ensures
        codepoint_width_4(a, b, c, d) == ((a - 0xf0) * 262144 + (b - 0x80) * 4096 + (c - 0x80) * 64
            + (d - 0x80)) as u32,
{
}

proof fn lemma_width_1(a: u8)
    by (bit_vector)
    requires
        a < 0x80,
    ensures
        (a & 0x7f) as u32 == a as u32,
{
}

/// Reads the first character of `bytes[from..to]`, and says how many bytes it takes; or
/// else how many are wrong.
pub fn first_char(bytes: &[u8], from: usize, to: usize) -> (r: Result<(char, usize), Option<u8>>)
    requires
        from < to <= bytes@.len(),
    ensures
        ({
            let b = bytes@.subrange(from as int, to as int);
            match r {
                Ok((c, n)) => valid_first_scalar(b) && c as u32 == decode_first_scalar(b) && n
                    == length_of_first_scalar(b) && n <= b.len(),
                Err(len) => !valid_first_scalar(b) && len == first_error_len(b),
            }
        }),
{
    let ghost b = bytes@.subrange(from as int, to as int);
    let have: usize = to - from;
    let b0: u8 = bytes[from];
    assert(b[0] == b0);
    if b0 < 0x80 {
        proof {
            lemma_width_1(b0);
        }
        return Ok((b0 as char, 1));
    }
    if b0 < 0xc2 || b0 > 0xf4 {
        proof {
            if b.len() >= 2 && 0xc0 <= b0 <= 0xc1 && is_continuation_byte(b[1]) {
                lemma_width_2(b0, b[1]);
            }
            if b.len() >= 4 && 0xf5 <= b0 <= 0xf7 && is_continuation_byte(b[1])
                && is_continuation_byte(b[2]) && is_continuation_byte(b[3]) {
                lemma_width_4(b0, b[1], b[2], b[3]);
            }
        }
        return Err(Some(1));
    }
    if have < 2 {
        return Err(None);
    }
    let b1: u8 = bytes[from + 1];
    assert(b[1] == b1);
    let low: u8 = if b0 == 0xe0 {
        0xa0
    } else if b0 == 0xf0 {
        0x90
    } else {
        0x80
    };
    let high: u8 = if b0 == 0xed {
        0x9f
    } else if b0 == 0xf4 {
        0x8f
    } else {
        0xbf
    };
    if b1 < low || b1 > high {
        proof {
            if is_continuation_byte(b1) {
                if b0 <= 0xdf {
                    lemma_width_2(b0, b1);
                } else if b0 <= 0xef {
                    if b.len() >= 3 && is_continuation_byte(b[2]) {
                        lemma_width_3(b0, b1, b[2]);
                    }
                } else {
                    if b.len() >= 4 && is_continuation_byte(b[2]) && is_continuation_byte(b[3]) {
                        lemma_width_4(b0, b1, b[2], b[3]);
                    }
                }
            }
        }
        return Err(Some(1));
    }
    if b0 <= 0xdf {
        let u: u32 = (b0 as u32 - 0xc0) * 64 + (b1 as u32 - 0x80);
        proof {
            lemma_width_2(b0, b1);
        }
        match std::char::from_u32(u) {
            Some(c) => return Ok((c, 2)),
            None => {
                assert(false);
            },
        }
    }
    if have < 3 {
        return Err(None);
    }
    let b2: u8 = bytes[from + 2];
    assert(b[2] == b2);
    if b2 < 0x80 || b2 > 0xbf {
        return Err(Some(2));
    }
    if b0 <= 0xef {
        let u: u32 = (b0 as u32 - 0xe0) * 4096 + (b1 as u32 - 0x80) * 64 + (b2 as u32 - 0x80);
        proof {
            lemma_width_3(b0, b1, b2);
        }
        match std::char::from_u32(u) {
            Some(c) => return Ok((c, 3)),
            None => {
                assert(false);
            },
        }
    }
    if have < 4 {
        return Err(None);
    }
    let b3: u8 = bytes[from + 3];
    assert(b[3] == b3);
    if b3 < 0x80 || b3 > 0xbf {
        return Err(Some(3));
    }
    let u: u32 = (b0 as u32 - 0xf0) * 262144 + (b1 as u32 - 0x80) * 4096 + (b2 as u32 - 0x80) * 64 + (
    b3 as u32 - 0x80);
    proof {
        lemma_width_4(b0, b1, b2, b3);
    }
    match std::char::from_u32(u) {
        Some(c) => Ok((c, 4)),
        None => Err(Some(3)),
    }
}

/// The first fault in `b`, where `at` good bytes lie in front of it.
pub open spec fn utf8_fault(b: Seq<u8>, at: int) -> Option<Utf8Error>
    decreases b.len(),
{
    if b.len() == 0 {
        None
    } else if valid_first_scalar(b) {
        utf8_fault(pop_first_scalar(b), at + length_of_first_scalar(b))
    } else {
        Some(Utf8Error { valid_up_to: at as usize, error_len: first_error_len(b) })
    }
}

/// Reads bytes as UTF-8 text, or says where they are not.
pub fn read(bytes: &[u8]) -> (r: Result<String, Utf8Error>)
    ensures
        match r {
            Ok(s) => valid_utf8(bytes@) && s@ == decode_utf8(bytes@) && utf8_fault(bytes@, 0)
                is None,
            Err(e) => !valid_utf8(bytes@) && utf8_fault(bytes@, 0) == Some(e),
        },
{
    let mut out: String = String::new();
    let mut i: usize = 0;
    let n: usize = bytes.len();
    proof {
        assert(bytes@.subrange(0, n as int) =~= bytes@);
        if valid_utf8(bytes@) {
            assert(out@ + decode_utf8(bytes@) =~= decode_utf8(bytes@));
        }
    }
    while i < n
        invariant
            n == bytes@.len(),
            i <= n,
            valid_utf8(bytes@) == valid_utf8(bytes@.subrange(i as int, n as int)),
            valid_utf8(bytes@) ==> decode_utf8(bytes@) == out@ + decode_utf8(
                bytes@.subrange(i as int, n as int),
            ),
            utf8_fault(bytes@, 0) == utf8_fault(bytes@.subrange(i as int, n as int), i as int),
        decreases n - i,
    {
        let ghost b = bytes@.subrange(i as int, n as int);
        let ghost before = out@;
        match first_char(bytes, i, n) {
            Ok((c, len)) => {
                out.push(c);
                proof {
                    vstd::utf8::char_u32_cast(c, decode_first_scalar(b));
                    assert(pop_first_scalar(b) =~= bytes@.subrange(i + len, n as int));
                    if valid_utf8(b) {
                        assert(decode_utf8(b) == seq![c] + decode_utf8(pop_first_scalar(b)));
                        assert(before + (seq![c] + decode_utf8(pop_first_scalar(b))) =~= out@
                            + decode_utf8(pop_first_scalar(b)));
                    }
                }
                i = i + len;
            },
            Err(len) => {
                return Err(Utf8Error { valid_up_to: i, error_len: len });
            },
        }
    }
    assert(bytes@.subrange(n as int, n as int) =~= seq![]);
    assert(valid_utf8(bytes@) ==> out@ =~= decode_utf8(bytes@));
    Ok(out)
}

/// More bytes behind these can make them UTF-8.
pub open spec fn can_be_mended(b: Seq<u8>) -> bool {
    exists|more: Seq<u8>| #[trigger] valid_utf8(b + more)
}

/// Where a character begins with `b`, so it does with more bytes behind.
proof fn lemma_first_stays(b: Seq<u8>, more: Seq<u8>)
    requires
        valid_first_scalar(b),
    ensures
        valid_first_scalar(b + more),
        length_of_first_scalar(b + more) == length_of_first_scalar(b),
        pop_first_scalar(b + more) == pop_first_scalar(b) + more,
{
    let all = b + more;
    assert(all[0] == b[0]);
    if length_of_first_scalar(b) >= 2 {
        assert(all[1] == b[1]);
    }
    if length_of_first_scalar(b) >= 3 {
        assert(all[2] == b[2]);
    }
    if length_of_first_scalar(b) >= 4 {
        assert(all[3] == b[3]);
    }
    assert(pop_first_scalar(all) =~= pop_first_scalar(b) + more);
}

proof fn lemma_fault_place(b: Seq<u8>, at: int, more: Seq<u8>)
    requires
        0 <= at,
        at + b.len() <= usize::MAX,
    ensures
        utf8_fault(b, at) is None <==> valid_utf8(b),
        utf8_fault(b, at) matches Some(e) ==> {
            let k = e.valid_up_to - at;
            &&& 0 <= k < b.len()
            &&& valid_utf8(b.take(k))
            &&& !valid_first_scalar(b.skip(k))
            &&& e.error_len == first_error_len(b.skip(k))
            &&& valid_utf8(b + more) <==> valid_utf8(b.skip(k) + more)
        },
    decreases b.len(),
{
    if b.len() > 0 {
        if valid_first_scalar(b) {
            let n = length_of_first_scalar(b);
            let rest = pop_first_scalar(b);
            lemma_fault_place(rest, at + n, more);
            lemma_first_stays(b, more);
            if let Some(e) = utf8_fault(b, at) {
                let k = e.valid_up_to - at;
                assert(rest.skip(k - n) =~= b.skip(k));
                assert(b.take(k) =~= b.take(n) + rest.take(k - n));
                assert(b.take(n) =~= b.subrange(0, n));
                let front = b.take(k);
                assert(front[0] == b[0]);
                if n >= 2 {
                    assert(front[1] == b[1]);
                }
                if n >= 3 {
                    assert(front[2] == b[2]);
                }
                if n >= 4 {
                    assert(front[3] == b[3]);
                }
                assert(valid_first_scalar(front));
                assert(pop_first_scalar(front) =~= rest.take(k - n));
            }
        } else {
            assert(b.take(0) =~= seq![]);
            assert(b.skip(0) =~= b);
        }
    }
}

/// Bytes that end inside a character can go on as one; other bytes that are no character cannot.
proof fn lemma_mend(r: Seq<u8>) -> (more: Seq<u8>)
    requires
        r.len() > 0,
        !valid_first_scalar(r),
    ensures
        first_error_len(r) is None ==> valid_utf8(r + more),
        first_error_len(r) is Some ==> forall|m: Seq<u8>| !valid_utf8(#[trigger] (r + m)),
{
    let a = r[0];
    if a < 0x80 {
        lemma_width_1(a);
    }
    if first_error_len(r) is None {
        let second: u8 = if a == 0xe0 {
            0xa0
        } else if a == 0xf0 {
            0x90
        } else {
            0x80
        };
        let w = lead_width(a)->Some_0;
        let tail = if r.len() == 1 {
            seq![second, 0x80u8, 0x80u8]
        } else {
            seq![0x80u8, 0x80u8, 0x80u8]
        };
        let all = r + tail.take(w - r.len());
        if w == 2 {
            if r.len() >= 2 {
                lemma_width_2(a, r[1]);
            }
            assert(r.len() == 1);
            assert(all =~= seq![a, second]);
            lemma_width_2(a, second);
        } else if w == 3 {
            if r.len() == 1 {
                assert(all =~= seq![a, second, 0x80u8]);
            } else {
                if r.len() >= 3 {
                    lemma_width_3(a, r[1], r[2]);
                }
                assert(all =~= seq![a, r[1], 0x80u8]);
            }
            lemma_width_3(a, all[1], all[2]);
        } else if w == 4 {
            if r.len() == 1 {
                assert(all =~= seq![a, second, 0x80u8, 0x80u8]);
            } else if r.len() == 2 {
                assert(all =~= seq![a, r[1], 0x80u8, 0x80u8]);
            } else {
                assert(all =~= seq![a, r[1], r[2], 0x80u8]);
            }
            lemma_width_4(a, all[1], all[2], all[3]);
        }
        assert(valid_first_scalar(all));
        assert(pop_first_scalar(all) =~= seq![]);
        assert(valid_utf8(pop_first_scalar(all)));
        tail.take(w - r.len())
    } else {
        assert forall|m: Seq<u8>| !valid_utf8(#[trigger] (r + m)) by {
            let all = r + m;
            assert(all[0] == a);
            if valid_first_scalar(all) {
                if 0xc0 <= a <= 0xdf {
                    lemma_width_2(a, all[1]);
                    if r.len() >= 2 {
                        assert(all[1] == r[1]);
                    }
                } else if 0xe0 <= a <= 0xef {
                    lemma_width_3(a, all[1], all[2]);
                    assert(all[1] == r[1]);
                    if r.len() >= 3 {
                        assert(all[2] == r[2]);
                    }
                } else if 0xf0 <= a <= 0xf7 {
                    lemma_width_4(a, all[1], all[2], all[3]);
                    if r.len() >= 2 {
                        assert(all[1] == r[1]);
                    }
                    if r.len() >= 3 {
                        assert(all[2] == r[2]);
                    }
                    if r.len() >= 4 {
                        assert(all[3] == r[3]);
                    }
                }
            }
        }
        seq![]
    }
}

/// Bytes that are not UTF-8 are told to be fine up to where no character begins; and whether more
/// bytes could mend them. What is wrong is one byte, or the bytes that a character could begin
/// with.
pub proof fn faults_tell_where_and_why(b: Seq<u8>)
    requires
        b.len() <= usize::MAX,
    ensures
        utf8_fault(b, 0) is None <==> valid_utf8(b),
        utf8_fault(b, 0) matches Some(e) ==> {
            let r = b.skip(e.valid_up_to as int);
            &&& e.valid_up_to < b.len()
            &&& valid_utf8(b.take(e.valid_up_to as int))
            &&& !valid_first_scalar(r)
            &&& e.error_len is None <==> can_be_mended(b)
            &&& e.error_len matches Some(n) ==> 1 <= n <= 3 && n <= r.len() && (n > 1
                ==> can_be_mended(r.take(n as int))) && (n < r.len() ==> !can_be_mended(
                r.take(n + 1),
            ))
        },
{
    lemma_fault_place(b, 0, seq![]);
    if let Some(e) = utf8_fault(b, 0) {
        let r = b.skip(e.valid_up_to as int);
        let more = lemma_mend(r);
        if e.error_len is None {
            lemma_fault_place(b, 0, more);
            assert(valid_utf8(b + more));
        } else {
            let n = e.error_len->Some_0;
            if can_be_mended(b) {
                let m = choose|m: Seq<u8>| #[trigger] valid_utf8(b + m);
                lemma_fault_place(b, 0, m);
                assert(!valid_utf8(r + m));
            }
            if n > 1 {
                lemma_run_begins(r, n as int);
            }
            if n < r.len() {
                lemma_run_ends(r, n as int);
            }
        }
    }
}

proof fn lemma_run_begins(r: Seq<u8>, n: int)
    requires
        r.len() > 0,
        !valid_first_scalar(r),
        first_error_len(r) matches Some(k) && k == n && n > 1,
    ensures
        can_be_mended(r.take(n)),
{
    let t = r.take(n);
    assert(t[0] == r[0] && t[1] == r[1]);
    if n == 3 {
        assert(t[2] == r[2]);
    }
    if r[0] < 0x80 {
        lemma_width_1(r[0]);
    } else if 0xc0 <= r[0] <= 0xdf {
        lemma_width_2(r[0], r[1]);
    } else if 0xe0 <= r[0] <= 0xef && r.len() >= 3 && is_continuation_byte(r[2]) {
        lemma_width_3(r[0], r[1], r[2]);
    }
    assert(!valid_first_scalar(t));
    assert(first_error_len(t) is None);
    let more = lemma_mend(t);
    assert(valid_utf8(t + more));
}

proof fn lemma_run_ends(r: Seq<u8>, n: int)
    requires
        !valid_first_scalar(r),
        first_error_len(r) matches Some(k) && k == n && n < r.len(),
    ensures
        !can_be_mended(r.take(n + 1)),
{
    let t = r.take(n + 1);
    assert(t[0] == r[0] && t[1] == r[1]);
    if n >= 2 {
        assert(t[2] == r[2]);
    }
    if n >= 3 {
        assert(t[3] == r[3]);
    }
    assert(!valid_first_scalar(t)) by {
        if valid_first_scalar(t) {
            lemma_first_stays(t, r.skip(n + 1));
            assert(t + r.skip(n + 1) =~= r);
        }
    }
    assert(first_error_len(t) is Some);
    let more = lemma_mend(t);
    if can_be_mended(t) {
        let m = choose|m: Seq<u8>| #[trigger] valid_utf8(t + m);
        assert(!valid_utf8(t + m));
    }
}

} // verus!
