//! Hexadecimal and decimal digits as mathematical functions on byte strings.
use vstd::prelude::*;

verus! {

/// The lowercase hex digit (ASCII) of a nibble.
pub open spec fn hex_digit(n: int) -> u8 {
    if n < 10 {
        (48 + n) as u8
    } else {
        (87 + n) as u8
    }
}

/// Each byte of `data` written as two lowercase hex digits, high nibble first.
pub open spec fn hex_lower(data: Seq<u8>) -> Seq<u8> {
    Seq::new(
        data.len() * 2,
        |i: int|
            if i % 2 == 0 {
                hex_digit(data[i / 2] as int / 16)
            } else {
                hex_digit(data[i / 2] as int % 16)
            },
    )
}

/// The value of a hex digit (either case), if the byte is one.
pub open spec fn hex_value(c: u8) -> Option<u8> {
    if 48 <= c <= 57 {
        Some((c - 48) as u8)
    } else if 97 <= c <= 102 {
        Some((c - 87) as u8)
    } else if 65 <= c <= 70 {
        Some((c - 55) as u8)
    } else {
        None
    }
}

/// The bytes that the hex digits `s` denote, pair by pair; `None` for an odd length or a
/// byte that is not a hex digit.
pub open spec fn hex_decoded(s: Seq<u8>) -> Option<Seq<u8>> {
    if s.len() % 2 == 0 && forall|i: int| 0 <= i < s.len() ==> (#[trigger] hex_value(s[i])) is Some {
        Some(
            Seq::new(
                s.len() / 2,
                |k: int| (hex_value(s[2 * k])->Some_0 * 16 + hex_value(s[2 * k + 1])->Some_0) as u8,
            ),
        )
    } else {
        None
    }
}


/// The decimal digits (ASCII) of `n`, without leading zeros.
pub open spec fn decimal(n: nat) -> Seq<u8>
    decreases n,
{
    if n < 10 {
        seq![(48 + n) as u8]
    } else {
        decimal(n / 10).push((48 + n % 10) as u8)
    }
}

/// Appends the decimal digits of `n`.
pub fn push_decimal(out: &mut Vec<u8>, n: u32)
    ensures
        final(out)@ == old(out)@ + decimal(n as nat),
    decreases n,
{
    if n >= 10 {
        push_decimal(out, n / 10);
    }
    out.push(48 + (n % 10) as u8);
    proof {
        if n < 10 {
            assert(old(out)@ + decimal(n as nat) =~= old(out)@.push((48 + n) as u8));
        } else {
            assert((old(out)@ + decimal((n / 10) as nat)).push((48 + n % 10) as u8) =~= old(out)@
                + decimal(n as nat));
        }
    }
}


/// A digit written by `hex_digit` reads back as its value.
pub proof fn lemma_hex_digit_value(n: int)
    requires
        0 <= n < 16,
    ensures
        hex_value(hex_digit(n)) == Some(n as u8),
{
}

/// Decoding the lowercase hex digits of bytes gives the bytes back.
pub proof fn law_hex_roundtrip(data: Seq<u8>)
    ensures
        hex_decoded(hex_lower(data)) == Some(data),
{
    let s = hex_lower(data);
    assert forall|i: int| 0 <= i < s.len() implies (#[trigger] hex_value(s[i])) is Some by {
        let b = data[i / 2];
        lemma_hex_digit_value(b as int / 16);
        lemma_hex_digit_value(b as int % 16);
    }
    assert(s.len() % 2 == 0);
    let d = hex_decoded(s)->Some_0;
    assert(d.len() == data.len());
    assert forall|k: int| 0 <= k < data.len() implies d[k] == data[k] by {
        let b = data[k];
        assert((2 * k) / 2 == k && (2 * k) % 2 == 0);
        assert((2 * k + 1) / 2 == k && (2 * k + 1) % 2 == 1);
        lemma_hex_digit_value(b as int / 16);
        lemma_hex_digit_value(b as int % 16);
        assert(hex_value(s[2 * k])->Some_0 == b / 16);
        assert(hex_value(s[2 * k + 1])->Some_0 == b % 16);
        assert((b / 16) * 16 + b % 16 == b);
    }
    assert(d =~= data);
}

} // verus!
