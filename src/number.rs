//! Integer literals as they appear in `file@address` arguments.

use vstd::prelude::*;
use vstd::string::StringSliceAdditionalSpecFns;

verus! {

/// Value of an ASCII digit in radix 36 (`0-9`, `a-z`, `A-Z`); 36 for any other byte.
pub open spec fn digit_value(c: u8) -> int {
    if 0x30 <= c <= 0x39 {
        c - 0x30
    } else if 0x61 <= c <= 0x7a {
        c - 0x61 + 10
    } else if 0x41 <= c <= 0x5a {
        c - 0x41 + 10
    } else {
        36
    }
}

/// Every byte of `s` is a digit of `radix`.
pub open spec fn all_digits(s: Seq<u8>, radix: int) -> bool {
    forall|i: int| 0 <= i < s.len() ==> #[trigger] digit_value(s[i]) < radix
}

/// The number that the digits of `s` denote in `radix`, most significant first.
pub open spec fn digits_value(s: Seq<u8>, radix: int) -> int
    decreases s.len(),
{
    if s.len() == 0 {
        0
    } else {
        digits_value(s.drop_last(), radix) * radix + digit_value(s.last())
    }
}

/// Unsigned parse in `radix`, as `u32::from_str_radix` does it: an optional
/// leading `+`, then at least one digit, and a value that fits in 32 bits.
pub open spec fn parse_radix(s: Seq<u8>, radix: int) -> Option<u32> {
    let d = if s.len() > 0 && s[0] == 0x2b { s.drop_first() } else { s };
    if d.len() == 0 || !all_digits(d, radix) || digits_value(d, radix) > u32::MAX {
        None
    } else {
        Some(digits_value(d, radix) as u32)
    }
}

/// `s` starts with the two bytes `0` and `p`.
pub open spec fn has_prefix(s: Seq<u8>, p: u8) -> bool {
    s.len() >= 2 && s[0] == 0x30 && s[1] == p
}

/// An address literal: `0x` hexadecimal, `0b` binary, `0o` octal, else decimal.
pub open spec fn literal_value(s: Seq<u8>) -> Option<u32> {
    if has_prefix(s, 0x78) {
        parse_radix(s.skip(2), 16)
    } else if has_prefix(s, 0x62) {
        parse_radix(s.skip(2), 2)
    } else if has_prefix(s, 0x6f) {
        parse_radix(s.skip(2), 8)
    } else {
        parse_radix(s, 10)
    }
}

proof fn lemma_digits_value_nonneg(s: Seq<u8>, radix: int)
    requires
        2 <= radix <= 36,
        all_digits(s, radix),
    ensures
        digits_value(s, radix) >= 0,
    decreases s.len(),
{
    if s.len() > 0 {
        lemma_digits_value_nonneg(s.drop_last(), radix);
        assert(digit_value(s[s.len() - 1]) < radix);
        assert(digits_value(s.drop_last(), radix) * radix >= 0) by (nonlinear_arith)
            requires
                digits_value(s.drop_last(), radix) >= 0,
                radix >= 2,
        ;
    }
}

proof fn lemma_digits_value_grows(s: Seq<u8>, radix: int)
    requires
        2 <= radix <= 36,
        all_digits(s, radix),
        s.len() > 0,
    ensures
        digits_value(s, radix) >= digits_value(s.drop_last(), radix),
{
    lemma_digits_value_nonneg(s.drop_last(), radix);
    let v = digits_value(s.drop_last(), radix);
    assert(v * radix >= v) by (nonlinear_arith)
        requires
            v >= 0,
            radix >= 2,
    ;
}

/// Once a prefix of the digits exceeds `bound`, the whole does too.
proof fn lemma_digits_value_prefix(s: Seq<u8>, n: int, radix: int)
    requires
        2 <= radix <= 36,
        all_digits(s, radix),
        0 <= n <= s.len(),
    ensures
        digits_value(s, radix) >= digits_value(s.take(n), radix),
    decreases s.len() - n,
{
    if n < s.len() {
        assert(s.take(n + 1).drop_last() =~= s.take(n));
        lemma_digits_value_grows(s.take(n + 1), radix);
        lemma_digits_value_prefix(s, n + 1, radix);
    } else {
        assert(s.take(n) =~= s);
    }
}

fn digit_of(c: u8) -> (r: u32)
    ensures
        r == digit_value(c),
{
    if 0x30 <= c && c <= 0x39 {
        (c - 0x30) as u32
    } else if 0x61 <= c && c <= 0x7a {
        (c - 0x61 + 10) as u32
    } else if 0x41 <= c && c <= 0x5a {
        (c - 0x41 + 10) as u32
    } else {
        36
    }
}

/// Parses `s[start..]` in `radix` exactly as `parse_radix` describes.
fn parse_radix_from(s: &[u8], start: usize, radix: u32) -> (r: Option<u32>)
    requires
        start <= s@.len(),
        2 <= radix <= 36,
    ensures
        r == parse_radix(s@.skip(start as int), radix as int),
{
    let ghost t = s@.skip(start as int);
    let mut i: usize = start;
    if i < s.len() && s[i] == 0x2b {
        i = i + 1;
    }
    let base: usize = i;
    let ghost d = s@.skip(base as int);
    assert(d =~= (if t.len() > 0 && t[0] == 0x2b { t.drop_first() } else { t }));
    if i == s.len() {
        return None;
    }
    let mut value: u64 = 0;
    while i < s.len()
        invariant
            start <= base <= i <= s@.len(),
            2 <= radix <= 36,
            d == s@.skip(base as int),
            t == s@.skip(start as int),
            d == (if t.len() > 0 && t[0] == 0x2b { t.drop_first() } else { t }),
            all_digits(d.take(i - base), radix as int),
            value == digits_value(d.take(i - base), radix as int),
            value <= u32::MAX,
        decreases s@.len() - i,
    {
        let ghost k = i - base;
        assert(d[k] == s@[i as int]);
        let c = digit_of(s[i]);
        if c >= radix {
            assert(digit_value(d[k]) >= radix as int);
            assert(!all_digits(d, radix as int));
            return None;
        }
        proof {
            assert(d.take(k + 1).drop_last() =~= d.take(k));
            assert(d.take(k + 1).last() == s@[i as int]);
            assert(all_digits(d.take(k + 1), radix as int)) by {
                assert forall|j: int| 0 <= j < d.take(k + 1).len() implies #[trigger] digit_value(
                    d.take(k + 1)[j],
                ) < radix by {
                    if j < k {
                        assert(d.take(k + 1)[j] == d.take(k)[j]);
                    }
                }
            }
        }
        assert(value * radix <= 0xffff_ffff * 36) by (nonlinear_arith)
            requires
                value <= 0xffff_ffff,
                radix <= 36,
        ;
        let next: u64 = value * (radix as u64) + (c as u64);
        assert(next == digits_value(d.take(k + 1), radix as int));
        if next > 0xffff_ffff {
            proof {
                if all_digits(d, radix as int) {
                    lemma_digits_value_prefix(d, k + 1, radix as int);
                }
            }
            return None;
        }
        value = next;
        i = i + 1;
    }
    proof {
        assert(d.take(d.len() as int) =~= d);
    }
    Some(value as u32)
}

/// Parses an address literal given as bytes: see `literal_value`.
pub fn parse_literal(b: &[u8]) -> (r: Option<u32>)
    ensures
        r == literal_value(b@),
{
    if b.len() >= 2 && b[0] == 0x30 && b[1] == 0x78 {
        parse_radix_from(b, 2, 16)
    } else if b.len() >= 2 && b[0] == 0x30 && b[1] == 0x62 {
        parse_radix_from(b, 2, 2)
    } else if b.len() >= 2 && b[0] == 0x30 && b[1] == 0x6f {
        parse_radix_from(b, 2, 8)
    } else {
        assert(b@.skip(0) =~= b@);
        parse_radix_from(b, 0, 10)
    }
}

/// Parses an address literal: `0x` hexadecimal, `0b` binary, `0o` octal, or
/// decimal; `None` when the text is not such a literal or exceeds 32 bits.
pub fn str_to_u32(s: &str) -> (r: Option<u32>)
    ensures
        r == literal_value(s.spec_bytes()),
{
    parse_literal(s.as_bytes())
}

} // verus!
