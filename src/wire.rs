use crate::codec::{base64_of, decode64, encode64, is_base64_symbol, MAX_ENCODED_INPUT};
use crate::error::Fault;
use vstd::prelude::*;

verus! {

/// The decimal digits of a natural number, most significant first.
pub open spec fn decimal(n: nat) -> Seq<u8>
    decreases n,
{
    if n < 10 {
        seq![(0x30 + n) as u8]
    } else {
        decimal(n / 10).push((0x30 + n % 10) as u8)
    }
}

/// The decimal text of an integer, with `-` before a negative one.
pub open spec fn signed_decimal(n: int) -> Seq<u8> {
    if n < 0 {
        seq![0x2du8] + decimal((-n) as nat)
    } else {
        decimal(n as nat)
    }
}

pub open spec fn is_digit(c: u8) -> bool {
    0x30 <= c && c <= 0x39
}

pub open spec fn all_digits(s: Seq<u8>) -> bool {
    forall|i: int| 0 <= i < s.len() ==> is_digit(#[trigger] s[i])
}

/// The number that a run of decimal digits denotes.
pub open spec fn digits_value(s: Seq<u8>) -> int
    decreases s.len(),
{
    if s.len() == 0 {
        0
    } else {
        digits_value(s.drop_last()) * 10 + (s.last() - 0x30)
    }
}

/// The digits of a priority tag, after an optional sign.
pub open spec fn unsigned_part(s: Seq<u8>) -> Seq<u8> {
    if s.len() > 0 && (s[0] == 0x2d || s[0] == 0x2b) {
        s.subrange(1, s.len() as int)
    } else {
        s
    }
}

/// The value of a priority tag: an optional `+` or `-`, then one or more
/// decimal digits, denoting a 32-bit signed integer.
pub open spec fn priority_value(s: Seq<u8>) -> Option<int> {
    let digits = unsigned_part(s);
    let v = if s.len() > 0 && s[0] == 0x2d {
        -digits_value(digits)
    } else {
        digits_value(digits)
    };
    if digits.len() == 0 || !all_digits(digits) || v < i32::MIN || v > i32::MAX {
        None
    } else {
        Some(v)
    }
}

/// One channel line: the priority in decimal, `:`, the payload in base64,
/// and a newline.
pub open spec fn frame(priority: int, payload: Seq<u8>) -> Seq<u8> {
    signed_decimal(priority) + seq![0x3au8] + base64_of(payload) + seq![0x0au8]
}

/// A line without its terminating newline, if it has one.
pub open spec fn line_body(line: Seq<u8>) -> Seq<u8> {
    if line.len() > 0 && line.last() == 0x0a {
        line.drop_last()
    } else {
        line
    }
}

/// `k` is the position of the first `:` of `s`.
pub open spec fn is_first_colon(s: Seq<u8>, k: int) -> bool {
    0 <= k < s.len() && s[k] == 0x3a && forall|j: int| 0 <= j < k ==> s[j] != 0x3a
}

proof fn lemma_decimal_digits(n: nat)
    ensures
        decimal(n).len() > 0,
        all_digits(decimal(n)),
        digits_value(decimal(n)) == n,
    decreases n,
{
    let d = decimal(n);
    if n >= 10 {
        lemma_decimal_digits(n / 10);
        assert(d.drop_last() =~= decimal(n / 10));
        assert(d.last() - 0x30 == n % 10);
        assert(digits_value(d.drop_last()) == n / 10);
        assert((n / 10) * 10 + n % 10 == n) by (nonlinear_arith);
        assert forall|i: int| 0 <= i < d.len() implies is_digit(#[trigger] d[i]) by {
            if i < d.len() - 1 {
                assert(d[i] == decimal(n / 10)[i]);
            }
        }
    } else {
        assert(d.drop_last() =~= Seq::<u8>::empty());
        assert(d.last() - 0x30 == n);
        assert(digits_value(d.drop_last()) == 0);
    }
}

/// Reading back the decimal text of a 32-bit priority gives the priority.
pub proof fn lemma_priority_round_trip(p: i32)
    ensures
        priority_value(signed_decimal(p as int)) == Some(p as int),
{
    if p < 0 {
        lemma_decimal_digits((-p) as nat);
        let s = signed_decimal(p as int);
        assert(unsigned_part(s) =~= decimal((-p) as nat));
    } else {
        lemma_decimal_digits(p as nat);
    }
}

proof fn lemma_value_of_prefix(s: Seq<u8>, k: int)
    requires
        all_digits(s),
        0 <= k <= s.len(),
    ensures
        0 <= digits_value(s.subrange(0, k)) <= digits_value(s),
    decreases s.len(),
{
    if s.len() > 0 {
        if k < s.len() {
            lemma_value_of_prefix(s.drop_last(), k);
            assert(s.drop_last().subrange(0, k) =~= s.subrange(0, k));
        } else {
            assert(s.subrange(0, k) =~= s);
            lemma_value_of_prefix(s.drop_last(), k - 1);
            assert(s.drop_last().subrange(0, k - 1) =~= s.drop_last());
        }
    }
}

fn push_decimal(n: u32, out: &mut Vec<u8>)
    ensures
        final(out)@ == old(out)@ + decimal(n as nat),
    decreases n,
{
    if n < 10 {
        out.push(0x30 + n as u8);
        assert(final(out)@ =~= old(out)@ + decimal(n as nat));
    } else {
        push_decimal(n / 10, out);
        out.push(0x30 + (n % 10) as u8);
        assert(final(out)@ =~= old(out)@ + decimal(n as nat));
    }
}

/// The decimal text of a priority.
pub fn format_priority(priority: i32) -> (r: Vec<u8>)
    ensures
        r@ == signed_decimal(priority as int),
{
    let mut out: Vec<u8> = Vec::new();
    if priority < 0 {
        out.push(0x2d);
        let magnitude: u32 = if priority == i32::MIN {
            2147483648u32
        } else {
            (-priority) as u32
        };
        push_decimal(magnitude, &mut out);
    } else {
        push_decimal(priority as u32, &mut out);
    }
    assert(out@ =~= signed_decimal(priority as int));
    out
}

/// Reads a priority tag as `i32::from_str` does: `None` where it is not an
/// optional sign followed by decimal digits, or is out of range.
pub fn parse_priority(tag: &[u8]) -> (r: Option<i32>)
    ensures
        r matches Some(p) ==> priority_value(tag@) == Some(p as int),
        r is None ==> priority_value(tag@) is None,
{
    let n = tag.len();
    let negative = n > 0 && tag[0] == 0x2d;
    let start: usize = if n > 0 && (tag[0] == 0x2d || tag[0] == 0x2b) {
        1
    } else {
        0
    };
    let ghost digits = unsigned_part(tag@);
    assert(digits =~= tag@.subrange(start as int, n as int));
    if start == n {
        return None;
    }
    let mut acc: u64 = 0;
    let mut i: usize = start;
    while i < n
        invariant
            start <= i <= n,
            n == tag@.len(),
            digits == tag@.subrange(start as int, n as int),
            digits == unsigned_part(tag@),
            negative == (n > 0 && tag@[0] == 0x2d),
            forall|j: int| 0 <= j < i - start ==> is_digit(#[trigger] digits[j]),
            acc == digits_value(digits.subrange(0, i - start)),
            acc <= 2147483648,
        decreases n - i,
    {
        let c = tag[i];
        assert(digits[i - start] == c);
        if c < 0x30 || c > 0x39 {
            assert(!is_digit(digits[i - start]));
            assert(!all_digits(digits));
            return None;
        }
        let next = acc * 10 + (c - 0x30) as u64;
        proof {
            let pre = digits.subrange(0, i - start + 1);
            assert(pre.drop_last() =~= digits.subrange(0, i - start));
            assert(pre.last() == c);
            assert(digits_value(pre) == next);
        }
        if next > 2147483648 {
            proof {
                if all_digits(digits) {
                    lemma_value_of_prefix(digits, i - start + 1);
                    assert(digits_value(digits) > 2147483648);
                }
            }
            return None;
        }
        acc = next;
        i = i + 1;
    }
    assert(digits.subrange(0, n - start) =~= digits);
    if negative {
        Some((0 - acc as i64) as i32)
    } else if acc > 2147483647 {
        None
    } else {
        Some(acc as i32)
    }
}

/// What a channel line carries, when it has a separator.
pub enum Parsed {
    /// A priority and the decoded payload.
    Update { priority: i32, payload: Vec<u8> },
    /// A line whose tag is not a priority: it is dropped.
    BadPriority { tag: Vec<u8> },
}

fn append_bytes(out: &mut Vec<u8>, s: &[u8])
    ensures
        final(out)@ == old(out)@ + s@,
{
    let mut i: usize = 0;
    while i < s.len()
        invariant
            i <= s@.len(),
            out@ == old(out)@ + s@.subrange(0, i as int),
        decreases s@.len() - i,
    {
        out.push(s[i]);
        i = i + 1;
        assert(out@ =~= old(out)@ + s@.subrange(0, i as int));
    }
    assert(s@.subrange(0, i as int) =~= s@);
}

fn copy_range(s: &[u8], lo: usize, hi: usize) -> (r: Vec<u8>)
    requires
        lo <= hi <= s@.len(),
    ensures
        r@ == s@.subrange(lo as int, hi as int),
{
    let mut out: Vec<u8> = Vec::new();
    let mut i: usize = lo;
    while i < hi
        invariant
            lo <= i <= hi,
            hi <= s@.len(),
            out@ == s@.subrange(lo as int, i as int),
        decreases hi - i,
    {
        out.push(s[i]);
        i = i + 1;
        assert(out@ =~= s@.subrange(lo as int, i as int));
    }
    out
}

/// The channel line that carries `payload` with `priority`. The newline at
/// its end is its only newline.
pub fn frame_message(priority: i32, payload: &[u8]) -> (r: Vec<u8>)
    requires
        payload@.len() <= MAX_ENCODED_INPUT,
    ensures
        r@ == frame(priority as int, payload@),
        r@.len() > 0 && r@.last() == 0x0a,
        forall|i: int| 0 <= i < r@.len() - 1 ==> #[trigger] r@[i] != 0x0a,
{
    let mut out = format_priority(priority);
    let ghost tag = out@;
    out.push(0x3a);
    let text = encode64(payload);
    append_bytes(&mut out, text.as_slice());
    out.push(0x0a);
    proof {
        let magnitude: nat = if priority < 0 { (-priority) as nat } else { priority as nat };
        lemma_decimal_digits(magnitude);
        assert(out@ =~= frame(priority as int, payload@));
        assert forall|i: int| 0 <= i < out@.len() - 1 implies #[trigger] out@[i] != 0x0a by {
            if i < tag.len() {
                if priority < 0 && i > 0 {
                    assert(tag[i] == decimal(magnitude)[i - 1]);
                }
            } else if i > tag.len() {
                assert(out@[i] == text@[i - tag.len() - 1]);
                assert(is_base64_symbol(text@[i - tag.len() - 1]));
            }
        }
    }
    out
}

/// The line's tag and text, split at its first `:`.
pub open spec fn split_at_colon(body: Seq<u8>, k: int) -> (Seq<u8>, Seq<u8>) {
    (body.subrange(0, k), body.subrange(k + 1, body.len() as int))
}

/// What a channel line means.
pub enum Reading {
    /// The line has no `:`.
    NoSeparator,
    /// The tag before the first `:` is not a priority.
    BadTag(Seq<u8>),
    /// The text after the first `:` is not the base64 text of any bytes.
    BadText,
    /// A priority and the bytes whose base64 text follows the first `:`.
    Update(int, Seq<u8>),
}

/// The meaning of a channel line, with or without its newline.
pub open spec fn reading(line: Seq<u8>) -> Reading {
    let body = line_body(line);
    if exists|k: int| is_first_colon(body, k) {
        let k = choose|k: int| is_first_colon(body, k);
        let (tag, text) = split_at_colon(body, k);
        match priority_value(tag) {
            None => Reading::BadTag(tag),
            Some(p) => if exists|b: Seq<u8>| #[trigger] base64_of(b) == text {
                Reading::Update(p, choose|b: Seq<u8>| #[trigger] base64_of(b) == text)
            } else {
                Reading::BadText
            },
        }
    } else {
        Reading::NoSeparator
    }
}

/// Reads one channel line. A line made by `frame_message` reads back as what
/// it was made from.
pub fn parse_line(line: &[u8]) -> (r: Result<Parsed, Fault>)
    ensures
        match reading(line@) {
            Reading::NoSeparator => r == Err::<Parsed, Fault>(Fault::MissingSeparator),
            Reading::BadTag(t) => r matches Ok(Parsed::BadPriority { tag }) && tag@ == t,
            Reading::BadText => r == Err::<Parsed, Fault>(Fault::InvalidPayload),
            Reading::Update(p, b) => r matches Ok(Parsed::Update { priority, payload })
                && priority == p && payload@ == b,
        },
        forall|p: i32, b: Seq<u8>|
            line@ == #[trigger] frame(p as int, b) ==> (r matches Ok(
                Parsed::Update { priority, payload },
            ) && priority == p && payload@ == b),
{
    let n = line.len();
    let end: usize = if n > 0 && line[n - 1] == 0x0a {
        n - 1
    } else {
        n
    };
    let ghost body = line_body(line@);
    assert(body =~= line@.subrange(0, end as int));
    let mut k: usize = 0;
    while k < end && line[k] != 0x3a
        invariant
            k <= end <= n,
            n == line@.len(),
            body == line@.subrange(0, end as int),
            forall|j: int| 0 <= j < k ==> body[j] != 0x3a,
        decreases end - k,
    {
        k = k + 1;
    }
    if k == end {
        proof {
            assert forall|p: i32, b: Seq<u8>| line@ == #[trigger] frame(p as int, b) implies false by {
                let d = signed_decimal(p as int);
                assert(body =~= d + seq![0x3au8] + base64_of(b));
                assert(body[d.len() as int] == 0x3a);
            }
            assert forall|k2: int| !is_first_colon(body, k2) by {
                if 0 <= k2 < body.len() {
                    assert(body[k2] != 0x3a);
                }
            }
        }
        return Err(Fault::MissingSeparator);
    }
    assert(is_first_colon(body, k as int));
    proof {
        assert forall|k2: int| #[trigger] is_first_colon(body, k2) implies k2 == k by {
            if k2 < k {
                assert(body[k2] != 0x3a);
            } else if k2 > k {
                assert(body[k as int] != 0x3a);
            }
        }
        assert((choose|k2: int| is_first_colon(body, k2)) == k);
    }
    let tag = copy_range(line, 0, k);
    let text = copy_range(line, k + 1, end);
    assert(tag@ =~= body.subrange(0, k as int));
    assert(text@ =~= body.subrange(k + 1, body.len() as int));
    proof {
        assert forall|p: i32, b: Seq<u8>| line@ == #[trigger] frame(p as int, b) implies tag@
            == signed_decimal(p as int) && text@ == base64_of(b) by {
            let magnitude: nat = if p < 0 { (-p) as nat } else { p as nat };
            let d = signed_decimal(p as int);
            lemma_decimal_digits(magnitude);
            assert(body =~= d + seq![0x3au8] + base64_of(b));
            assert forall|j: int| 0 <= j < d.len() implies d[j] != 0x3a by {
                if p < 0 && j > 0 {
                    assert(d[j] == decimal(magnitude)[j - 1]);
                }
            }
            assert(is_first_colon(body, d.len() as int));
            assert(tag@ =~= d);
            assert(text@ =~= base64_of(b));
            lemma_priority_round_trip(p);
        }
    }
    match parse_priority(tag.as_slice()) {
        None => {
            proof {
                assert forall|p: i32, b: Seq<u8>| line@ == #[trigger] frame(p as int, b) implies false by {
                    lemma_priority_round_trip(p);
                }
            }
            Ok(Parsed::BadPriority { tag })
        },
        Some(priority) => match decode64(text.as_slice()) {
            Ok(payload) => {
                proof {
                    assert forall|p: i32, b: Seq<u8>| line@ == #[trigger] frame(p as int, b) implies priority
                        == p && payload@ == b by {
                        lemma_priority_round_trip(p);
                    }
                    assert(base64_of(payload@) == text@);
                    let chosen = choose|b: Seq<u8>| #[trigger] base64_of(b) == text@;
                    assert(base64_of(chosen) == text@);
                }
                Ok(Parsed::Update { priority, payload })
            },
            Err(_) => {
                proof {
                    assert forall|p: i32, b: Seq<u8>| line@ == #[trigger] frame(p as int, b) implies false by {
                        assert(base64_of(b) == text@);
                    }
                }
                Err(Fault::InvalidPayload)
            },
        },
    }
}

} // verus!
