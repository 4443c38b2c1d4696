//! ASCII decimal integers, as the wire grammar writes lengths, counts and
//! integer values.

use vstd::prelude::*;

verus! {

/// The byte `0`.
pub const ZERO: u8 = 48;

/// The byte `9`.
pub const NINE: u8 = 57;

/// The byte `-`.
pub const MINUS: u8 = 45;

/// The byte `+`.
pub const PLUS: u8 = 43;

/// Whether the byte is a decimal digit.
pub open spec fn is_digit(b: u8) -> bool {
    ZERO <= b <= NINE
}

/// Whether every byte is a decimal digit.
pub open spec fn all_digits(s: Seq<u8>) -> bool {
    forall|i: int| 0 <= i < s.len() ==> is_digit(#[trigger] s[i])
}

/// The number that a run of decimal digits denotes, most significant first.
pub open spec fn digits_value(s: Seq<u8>) -> nat
    decreases s.len(),
{
    if s.len() == 0 {
        0
    } else {
        digits_value(s.drop_last()) * 10 + (s.last() - ZERO) as nat
    }
}

/// The canonical digits of a natural number: no leading zero but for `0`.
pub open spec fn nat_digits(n: nat) -> Seq<u8>
    decreases n,
{
    if n < 10 {
        seq![(ZERO + n) as u8]
    } else {
        nat_digits(n / 10).push((ZERO + n % 10) as u8)
    }
}

/// The canonical rendering of an integer: a `-` before the digits of a
/// negative one, no sign otherwise.
pub open spec fn int_digits(n: int) -> Seq<u8> {
    if n < 0 {
        seq![MINUS] + nat_digits((-n) as nat)
    } else {
        nat_digits(n as nat)
    }
}

/// Whether the text starts with a sign.
pub open spec fn has_sign(s: Seq<u8>) -> bool {
    s.len() > 0 && (s[0] == MINUS || s[0] == PLUS)
}

/// The digits of a signed decimal text: all of it but a leading sign.
pub open spec fn unsigned_part(s: Seq<u8>) -> Seq<u8> {
    if has_sign(s) {
        s.skip(1)
    } else {
        s
    }
}

/// The value of a decimal text: an optional `+` or `-`, then one or more
/// digits, denoting a number that fits in 64 bits. `None` for any other text.
pub open spec fn parse_int(s: Seq<u8>) -> Option<int> {
    let body = unsigned_part(s);
    let magnitude = digits_value(body) as int;
    let value = if has_sign(s) && s[0] == MINUS {
        -magnitude
    } else {
        magnitude
    };
    if body.len() > 0 && all_digits(body) && i64::MIN <= value <= i64::MAX {
        Some(value)
    } else {
        None
    }
}

/// A longer run of digits never denotes less than one of its prefixes.
pub proof fn lemma_digits_value_prefix(s: Seq<u8>, k: int)
    requires
        0 <= k <= s.len(),
    ensures
        digits_value(s.take(k)) <= digits_value(s),
    decreases s.len(),
{
    if k == s.len() {
        assert(s.take(k) =~= s);
    } else {
        lemma_digits_value_prefix(s.drop_last(), k);
        assert(s.drop_last().take(k) =~= s.take(k));
    }
}

/// The canonical digits are digits, at least one of them, and denote the
/// number they were made from.
pub proof fn lemma_nat_digits(n: nat)
    ensures
        nat_digits(n).len() >= 1,
        all_digits(nat_digits(n)),
        digits_value(nat_digits(n)) == n,
    decreases n,
{
    if n < 10 {
        let s = nat_digits(n);
        assert(s.drop_last() =~= Seq::<u8>::empty());
        assert(digits_value(s.drop_last()) == 0);
    } else {
        lemma_nat_digits(n / 10);
        let p = nat_digits(n / 10);
        let s = nat_digits(n);
        assert(s.drop_last() =~= p);
        assert(s.last() == (48 + n % 10) as u8);
    }
}

/// Reading back the canonical rendering of a 64-bit integer gives the integer.
pub proof fn lemma_parse_int_digits(n: int)
    requires
        i64::MIN <= n <= i64::MAX,
    ensures
        parse_int(int_digits(n)) == Some(n),
{
    let s = int_digits(n);
    if n < 0 {
        lemma_nat_digits((-n) as nat);
        assert(s.skip(1) =~= nat_digits((-n) as nat));
        assert(s[0] == 45);
    } else {
        lemma_nat_digits(n as nat);
        assert(is_digit(s[0]));
    }
}

/// Appends the canonical digits of `n` to `out`.
pub fn push_digits(n: u64, out: &mut Vec<u8>)
    ensures
        final(out)@ == old(out)@ + nat_digits(n as nat),
    decreases n,
{
    if n >= 10 {
        push_digits(n / 10, out);
    }
    let d: u8 = (n % 10) as u8;
    out.push(ZERO + d);
    assert(final(out)@ =~= old(out)@ + nat_digits(n as nat));
}

/// The canonical rendering of an unsigned number.
pub fn format_u64(n: u64) -> (out: Vec<u8>)
    ensures
        out@ == int_digits(n as int),
{
    let mut out: Vec<u8> = Vec::new();
    push_digits(n, &mut out);
    assert(out@ =~= nat_digits(n as nat));
    out
}

/// The canonical rendering of a signed number.
pub fn format_i64(n: i64) -> (out: Vec<u8>)
    ensures
        out@ == int_digits(n as int),
{
    let mut out: Vec<u8> = Vec::new();
    if n < 0 {
        out.push(MINUS);
        let magnitude: u64 = if n == i64::MIN {
            9223372036854775808u64
        } else {
            (-n) as u64
        };
        push_digits(magnitude, &mut out);
        assert(out@ =~= seq![MINUS] + nat_digits((-n) as nat));
    } else {
        push_digits(n as u64, &mut out);
        assert(out@ =~= nat_digits(n as nat));
    }
    out
}

/// Reads a signed decimal text.
pub fn parse_i64(s: &[u8]) -> (r: Option<i64>)
    ensures
        match r {
            Some(v) => parse_int(s@) == Some(v as int),
            None => parse_int(s@) is None,
        },
{
    let n: usize = s.len();
    let signed: bool = n > 0 && (s[0] == MINUS || s[0] == PLUS);
    let negative: bool = signed && s[0] == MINUS;
    let start: usize = if signed { 1 } else { 0 };
    if start == n {
        return None;
    }
    let ghost body = unsigned_part(s@);
    assert(body =~= s@.skip(start as int));
    let limit: u128 = 9223372036854775808u128;
    let mut acc: u128 = 0;
    let mut i: usize = start;
    while i < n
        invariant
            start <= i <= n,
            n == s.len(),
            body == s@.skip(start as int),
            body == unsigned_part(s@),
            limit == 9223372036854775808u128,
            acc <= limit,
            acc == digits_value(body.take(i - start)),
            all_digits(body.take(i - start)),
        decreases n - i,
    {
        let b: u8 = s[i];
        if b < ZERO || b > NINE {
            assert(!is_digit(body[i - start]));
            return None;
        }
        let ghost before = body.take(i - start);
        let ghost after = body.take(i - start + 1);
        assert(after.drop_last() =~= before);
        assert(after.last() == b);
        acc = acc * 10 + (b - ZERO) as u128;
        assert(acc == digits_value(after));
        if acc > limit {
            proof {
                lemma_digits_value_prefix(body, i - start + 1);
            }
            return None;
        }
        i += 1;
    }
    assert(body.take(n - start) =~= body);
    if negative {
        if acc == limit {
            Some(i64::MIN)
        } else {
            Some(-(acc as i64))
        }
    } else {
        if acc == limit {
            None
        } else {
            Some(acc as i64)
        }
    }
}

} // verus!
