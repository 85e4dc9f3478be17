//! Numbers written as ASCII digits, in hexadecimal and in decimal.
use vstd::prelude::*;

verus! {

/// The upper-case ASCII hexadecimal digit for `d < 16`.
pub open spec fn hex_digit(d: nat) -> u8 {
    if d < 10 {
        (48 + d) as u8
    } else {
        (55 + d) as u8
    }
}

/// `n` in upper-case hexadecimal, without leading zeros.
pub open spec fn hex(n: nat) -> Seq<u8>
    decreases n,
{
    if n < 16 {
        seq![hex_digit(n)]
    } else {
        hex(n / 16).push(hex_digit(n % 16))
    }
}

/// The ASCII decimal digit for `d < 10`.
pub open spec fn dec_digit(d: nat) -> u8 {
    (48 + d) as u8
}

/// `n` in decimal, without leading zeros.
pub open spec fn decimal(n: nat) -> Seq<u8>
    decreases n,
{
    if n < 10 {
        seq![dec_digit(n)]
    } else {
        decimal(n / 10).push(dec_digit(n % 10))
    }
}

/// Writes `n` in upper-case hexadecimal.
pub fn hex_upper(n: u64) -> (r: Vec<u8>)
    ensures
        r@ == hex(n as nat),
    decreases n,
{
    if n < 16 {
        let d: u8 = if n < 10 {
            48u8 + n as u8
        } else {
            55u8 + n as u8
        };
        let mut r = Vec::new();
        r.push(d);
        assert(r@ =~= seq![hex_digit(n as nat)]);
        r
    } else {
        let mut r = hex_upper(n / 16);
        let m = n % 16;
        let d: u8 = if m < 10 {
            48u8 + m as u8
        } else {
            55u8 + m as u8
        };
        r.push(d);
        r
    }
}

/// Writes `n` in decimal.
pub fn decimal_digits(n: u64) -> (r: Vec<u8>)
    ensures
        r@ == decimal(n as nat),
    decreases n,
{
    if n < 10 {
        let mut r = Vec::new();
        r.push(48u8 + n as u8);
        assert(r@ =~= seq![dec_digit(n as nat)]);
        r
    } else {
        let mut r = decimal_digits(n / 10);
        r.push(48u8 + (n % 10) as u8);
        r
    }
}

/// The value of a sequence of hexadecimal digits read after the value `s`.
pub open spec fn hex_value_from(s: int, digits: Seq<u8>) -> int
    decreases digits.len(),
{
    if digits.len() == 0 {
        s
    } else {
        let d = crate::chunked::decoder::hex_value(digits[0]);
        hex_value_from(s * 16 + d.unwrap(), digits.drop_first())
    }
}

/// Every byte is a hexadecimal digit.
pub open spec fn all_hex(digits: Seq<u8>) -> bool {
    forall|i: int| 0 <= i < digits.len() ==> (#[trigger] crate::chunked::decoder::hex_value(digits[i])) is Some
}

pub proof fn lemma_hex_digit_value(d: nat)
    requires
        d < 16,
    ensures
        crate::chunked::decoder::hex_value(hex_digit(d)) == Some(d as u8),
{
}

pub proof fn lemma_hex_value_from_push(s: int, digits: Seq<u8>, x: u8)
    requires
        all_hex(digits),
        crate::chunked::decoder::hex_value(x) is Some,
    ensures
        hex_value_from(s, digits.push(x)) == hex_value_from(s, digits) * 16
            + crate::chunked::decoder::hex_value(x).unwrap(),
    decreases digits.len(),
{
    if digits.len() == 0 {
        assert(digits.push(x)[0] == x);
        assert(digits.push(x).drop_first() =~= Seq::<u8>::empty());
        assert(hex_value_from(s, digits.push(x)) == hex_value_from(
            s * 16 + crate::chunked::decoder::hex_value(x).unwrap(),
            Seq::<u8>::empty(),
        ));
    } else {
        let d = crate::chunked::decoder::hex_value(digits[0]).unwrap();
        assert(digits.push(x)[0] == digits[0]);
        assert(digits.push(x).drop_first() =~= digits.drop_first().push(x));
        assert(crate::chunked::decoder::hex_value(digits[0]) is Some);
        assert(all_hex(digits.drop_first())) by {
            assert forall|i: int| 0 <= i < digits.drop_first().len() implies (
            #[trigger] crate::chunked::decoder::hex_value(digits.drop_first()[i])) is Some by {
                assert(digits.drop_first()[i] == digits[i + 1]);
            }
        }
        lemma_hex_value_from_push(s * 16 + d, digits.drop_first(), x);
    }
}

pub proof fn lemma_hex_all_digits(n: nat)
    ensures
        all_hex(hex(n)),
        hex(n).len() >= 1,
    decreases n,
{
    if n < 16 {
        lemma_hex_digit_value(n);
    } else {
        lemma_hex_all_digits(n / 16);
        lemma_hex_digit_value(n % 16);
        assert forall|i: int| 0 <= i < hex(n).len() implies (
        #[trigger] crate::chunked::decoder::hex_value(hex(n)[i])) is Some by {
            if i < hex(n / 16).len() {
                assert(hex(n)[i] == hex(n / 16)[i]);
            }
        }
    }
}

/// Reading the hexadecimal form of `n` gives back `n`.
pub proof fn lemma_hex_value(n: nat)
    ensures
        hex_value_from(0, hex(n)) == n,
    decreases n,
{
    lemma_hex_all_digits(n);
    if n < 16 {
        lemma_hex_digit_value(n);
        assert(hex(n).drop_first() =~= Seq::<u8>::empty());
        assert(hex(n)[0] == hex_digit(n));
        assert(hex_value_from(0, hex(n)) == hex_value_from(n as int, Seq::<u8>::empty()));
    } else {
        assert((n / 16) * 16 + n % 16 == n) by (nonlinear_arith);
        lemma_hex_value(n / 16);
        lemma_hex_all_digits(n / 16);
        lemma_hex_digit_value(n % 16);
        lemma_hex_value_from_push(0, hex(n / 16), hex_digit(n % 16));
    }
}

/// Reading more digits never lowers the value.
pub proof fn lemma_hex_value_from_grows(s: int, digits: Seq<u8>)
    requires
        s >= 0,
        all_hex(digits),
    ensures
        hex_value_from(s, digits) >= s,
    decreases digits.len(),
{
    if digits.len() > 0 {
        let d = crate::chunked::decoder::hex_value(digits[0]).unwrap();
        assert(crate::chunked::decoder::hex_value(digits[0]) is Some);
        assert(all_hex(digits.drop_first())) by {
            assert forall|i: int| 0 <= i < digits.drop_first().len() implies (
            #[trigger] crate::chunked::decoder::hex_value(digits.drop_first()[i])) is Some by {
                assert(digits.drop_first()[i] == digits[i + 1]);
            }
        }
        lemma_hex_value_from_grows(s * 16 + d, digits.drop_first());
    }
}

/// A number has no more hexadecimal digits than it is large, plus one.
pub proof fn lemma_hex_len(n: nat)
    ensures
        1 <= hex(n).len() <= n + 1,
    decreases n,
{
    if n >= 16 {
        lemma_hex_len(n / 16);
    }
}

} // verus!
