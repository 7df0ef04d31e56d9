//! Text encodings used by the reports: lowercase hexadecimal for account
//! addresses and decimal for counts, both as ASCII bytes.

use vstd::prelude::*;

verus! {

/// ASCII code of the decimal digit `d` (`d < 10`).
pub open spec fn decimal_digit(d: nat) -> u8 {
    (48 + d) as u8
}

/// The decimal rendering of `n`, most significant digit first, without
/// leading zeros.
pub open spec fn decimal(n: nat) -> Seq<u8>
    decreases n,
{
    if n < 10 {
        seq![decimal_digit(n)]
    } else {
        decimal(n / 10).push(decimal_digit(n % 10))
    }
}

/// The number that a run of ASCII decimal digits denotes.
pub open spec fn decimal_value(s: Seq<u8>) -> nat
    decreases s.len(),
{
    if s.len() == 0 {
        0
    } else {
        decimal_value(s.drop_last()) * 10 + (s.last() - 48) as nat
    }
}

/// Appends the decimal rendering of `n` to `out`.
pub fn push_decimal(n: u64, out: &mut Vec<u8>)
    ensures
        final(out)@ == old(out)@ + decimal(n as nat),
    decreases n,
{
    if n >= 10 {
        push_decimal(n / 10, out);
    }
    let d: u8 = (n % 10) as u8;
    out.push(48 + d);
    assert(out@ =~= old(out)@ + decimal(n as nat));
}

/// ASCII code of the lowercase hexadecimal digit `d` (`d < 16`).
pub open spec fn hex_digit(d: nat) -> u8 {
    if d < 10 {
        (48 + d) as u8
    } else {
        (87 + d) as u8
    }
}

/// Value of a lowercase hexadecimal digit given by its ASCII code.
pub open spec fn hex_digit_value(c: u8) -> nat {
    if 48 <= c <= 57 {
        (c - 48) as nat
    } else if 97 <= c <= 102 {
        (c - 87) as nat
    } else {
        0
    }
}

/// Lowercase hexadecimal encoding of `b`: two digits per byte, high nibble
/// first, no prefix.
pub open spec fn hex_ascii(b: Seq<u8>) -> Seq<u8>
    decreases b.len(),
{
    if b.len() == 0 {
        seq![]
    } else {
        seq![hex_digit(b[0] as nat / 16), hex_digit(b[0] as nat % 16)] + hex_ascii(b.skip(1))
    }
}

/// Decoding of lowercase hexadecimal text, two digits per byte.
pub open spec fn hex_decode(s: Seq<u8>) -> Seq<u8>
    decreases s.len(),
{
    if s.len() < 2 {
        seq![]
    } else {
        seq![(hex_digit_value(s[0]) * 16 + hex_digit_value(s[1])) as u8] + hex_decode(s.skip(2))
    }
}

/// Whether `c` is the ASCII code of a decimal or lowercase hexadecimal digit.
pub open spec fn is_hex_char(c: u8) -> bool {
    (48 <= c <= 57) || (97 <= c <= 102)
}

/// Every byte of `s` is a digit.
pub open spec fn all_hex_chars(s: Seq<u8>) -> bool {
    forall|i: int| 0 <= i < s.len() ==> is_hex_char(#[trigger] s[i])
}

pub proof fn lemma_hex_ascii_len(b: Seq<u8>)
    ensures
        hex_ascii(b).len() == 2 * b.len(),
        all_hex_chars(hex_ascii(b)),
    decreases b.len(),
{
    if b.len() > 0 {
        lemma_hex_ascii_len(b.skip(1));
        let h = hex_ascii(b);
        let t = hex_ascii(b.skip(1));
        assert(h =~= seq![hex_digit(b[0] as nat / 16), hex_digit(b[0] as nat % 16)] + t);
        assert forall|i: int| 0 <= i < h.len() implies is_hex_char(#[trigger] h[i]) by {
            if i >= 2 {
                assert(h[i] == t[i - 2]);
            }
        }
    }
}

/// Decoding the hexadecimal encoding of a byte string gives it back.
pub proof fn lemma_hex_round_trip(b: Seq<u8>)
    ensures
        hex_decode(hex_ascii(b)) == b,
    decreases b.len(),
{
    if b.len() > 0 {
        let x = b[0] as nat;
        let h = hex_ascii(b);
        lemma_hex_ascii_len(b.skip(1));
        lemma_hex_round_trip(b.skip(1));
        assert(h.skip(2) =~= hex_ascii(b.skip(1)));
        assert(hex_digit_value(hex_digit(x / 16)) == x / 16);
        assert(hex_digit_value(hex_digit(x % 16)) == x % 16);
        assert((x / 16) * 16 + x % 16 == x);
        assert(hex_decode(h) =~= b);
    }
}

pub proof fn lemma_decimal_digits(n: nat)
    ensures
        decimal(n).len() >= 1,
        forall|i: int| 0 <= i < decimal(n).len() ==> 48 <= #[trigger] decimal(n)[i] <= 57,
    decreases n,
{
    if n >= 10 {
        lemma_decimal_digits(n / 10);
    }
}

/// Reading back the decimal rendering of `n` gives `n`.
pub proof fn lemma_decimal_round_trip(n: nat)
    ensures
        decimal_value(decimal(n)) == n,
    decreases n,
{
    if n >= 10 {
        lemma_decimal_round_trip(n / 10);
        assert(decimal(n).drop_last() =~= decimal(n / 10));
        assert((n / 10) * 10 + n % 10 == n);
        assert(decimal(n).last() == decimal_digit(n % 10));
    } else {
        assert(decimal(n).drop_last() =~= Seq::<u8>::empty());
        assert(decimal_value(Seq::<u8>::empty()) == 0);
    }
}

} // verus!
