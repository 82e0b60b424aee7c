//! Decimal number parsing, as the tools read counts, versions and durations.

use vstd::prelude::*;
use vstd::string::StringSliceAdditionalSpecFns;

verus! {

/// An ASCII decimal digit.
pub open spec fn is_digit(b: u8) -> bool {
    0x30u8 <= b <= 0x39u8
}

pub open spec fn all_digits(bs: Seq<u8>) -> bool {
    forall|k: int| 0 <= k < bs.len() ==> is_digit(#[trigger] bs[k])
}

/// The value of a string of decimal digits, most significant first.
pub open spec fn decimal_value(bs: Seq<u8>) -> nat
    decreases bs.len(),
{
    if bs.len() == 0 {
        0
    } else {
        decimal_value(bs.drop_last()) * 10 + (bs.last() - 0x30u8) as nat
    }
}

/// The result of reading `bs` as a decimal number no larger than `max`.
/// Only digits are accepted; an empty text is refused where `allow_empty`
/// is false and reads as zero where it is true.
pub open spec fn parse_decimal(bs: Seq<u8>, max: nat, allow_empty: bool) -> Option<nat> {
    if (allow_empty || bs.len() > 0) && all_digits(bs) && decimal_value(bs) <= max {
        Some(decimal_value(bs))
    } else {
        None
    }
}

/// A prefix of a digit string never reads as more than the whole string.
pub proof fn lemma_decimal_prefix_le(bs: Seq<u8>, j: int)
    requires
        all_digits(bs),
        0 <= j <= bs.len(),
    ensures
        decimal_value(bs.take(j)) <= decimal_value(bs),
    decreases bs.len(),
{
    if j < bs.len() {
        let d = bs.drop_last();
        assert(all_digits(d)) by {
            assert forall|k: int| 0 <= k < d.len() implies is_digit(#[trigger] d[k]) by {
                assert(d[k] == bs[k]);
            }
        }
        lemma_decimal_prefix_le(d, j);
        assert(d.take(j) =~= bs.take(j));
    } else {
        assert(bs.take(j) =~= bs);
    }
}

proof fn lemma_decimal_step(bs: Seq<u8>, i: int)
    requires
        0 <= i < bs.len(),
    ensures
        decimal_value(bs.take(i + 1)) == decimal_value(bs.take(i)) * 10 + (bs[i] - 0x30u8) as nat,
{
    assert(bs.take(i + 1).drop_last() =~= bs.take(i));
}

/// Reads a decimal `u16`. Any byte that is not a digit, or a value above
/// `u16::MAX`, gives `None`; an empty text reads as zero.
pub fn parse_u16(s: &str) -> (r: Option<u16>)
    ensures
        match r {
            Some(v) => parse_decimal(s.spec_bytes(), u16::MAX as nat, true) == Some(v as nat),
            None => parse_decimal(s.spec_bytes(), u16::MAX as nat, true) is None,
        },
{
    let bytes = s.as_bytes();
    let n = bytes.len();
    let mut val: u16 = 0;
    let mut i: usize = 0;
    assert(bytes@.take(0) =~= Seq::<u8>::empty());
    while i < n
        invariant
            bytes@ == s.spec_bytes(),
            n == bytes@.len(),
            0 <= i <= n,
            all_digits(bytes@.take(i as int)),
            val as nat == decimal_value(bytes@.take(i as int)),
        decreases n - i,
    {
        let b = bytes[i];
        if b < 0x30u8 || b > 0x39u8 {
            return None;
        }
        proof {
            lemma_decimal_step(bytes@, i as int);
            assert forall|k: int| 0 <= k < i + 1 implies is_digit(#[trigger] bytes@.take(i + 1)[k]) by {
                if k < i {
                    assert(bytes@.take(i + 1)[k] == bytes@.take(i as int)[k]);
                }
            }
        }
        let m = match val.checked_mul(10) {
            Some(m) => m,
            None => {
                proof {
                    if all_digits(bytes@) {
                        lemma_decimal_prefix_le(bytes@, i + 1);
                    }
                }
                return None;
            },
        };
        val = match m.checked_add((b - 0x30u8) as u16) {
            Some(v) => v,
            None => {
                proof {
                    if all_digits(bytes@) {
                        lemma_decimal_prefix_le(bytes@, i + 1);
                    }
                }
                return None;
            },
        };
        i = i + 1;
    }
    assert(bytes@.take(n as int) =~= bytes@);
    Some(val)
}

/// Reads a non-empty decimal `u32`; anything else gives `None`.
pub fn parse_u32(s: &str) -> (r: Option<u32>)
    ensures
        match r {
            Some(v) => parse_decimal(s.spec_bytes(), u32::MAX as nat, false) == Some(v as nat),
            None => parse_decimal(s.spec_bytes(), u32::MAX as nat, false) is None,
        },
{
    let bytes = s.as_bytes();
    let n = bytes.len();
    if n == 0 {
        return None;
    }
    let mut val: u32 = 0;
    let mut i: usize = 0;
    assert(bytes@.take(0) =~= Seq::<u8>::empty());
    while i < n
        invariant
            bytes@ == s.spec_bytes(),
            n == bytes@.len(),
            0 <= i <= n,
            all_digits(bytes@.take(i as int)),
            val as nat == decimal_value(bytes@.take(i as int)),
        decreases n - i,
    {
        let b = bytes[i];
        if b < 0x30u8 || b > 0x39u8 {
            return None;
        }
        proof {
            lemma_decimal_step(bytes@, i as int);
            assert forall|k: int| 0 <= k < i + 1 implies is_digit(#[trigger] bytes@.take(i + 1)[k]) by {
                if k < i {
                    assert(bytes@.take(i + 1)[k] == bytes@.take(i as int)[k]);
                }
            }
        }
        let m = match val.checked_mul(10) {
            Some(m) => m,
            None => {
                proof {
                    if all_digits(bytes@) {
                        lemma_decimal_prefix_le(bytes@, i + 1);
                    }
                }
                return None;
            },
        };
        val = match m.checked_add((b - 0x30u8) as u32) {
            Some(v) => v,
            None => {
                proof {
                    if all_digits(bytes@) {
                        lemma_decimal_prefix_le(bytes@, i + 1);
                    }
                }
                return None;
            },
        };
        i = i + 1;
    }
    assert(bytes@.take(n as int) =~= bytes@);
    Some(val)
}

/// Reads a non-empty decimal `u64`; anything else gives `None`.
pub fn parse_u64(s: &str) -> (r: Option<u64>)
    ensures
        match r {
            Some(v) => parse_decimal(s.spec_bytes(), u64::MAX as nat, false) == Some(v as nat),
            None => parse_decimal(s.spec_bytes(), u64::MAX as nat, false) is None,
        },
{
    let bytes = s.as_bytes();
    let n = bytes.len();
    if n == 0 {
        return None;
    }
    let mut val: u64 = 0;
    let mut i: usize = 0;
    assert(bytes@.take(0) =~= Seq::<u8>::empty());
    while i < n
        invariant
            bytes@ == s.spec_bytes(),
            n == bytes@.len(),
            0 <= i <= n,
            all_digits(bytes@.take(i as int)),
            val as nat == decimal_value(bytes@.take(i as int)),
        decreases n - i,
    {
        let b = bytes[i];
        if b < 0x30u8 || b > 0x39u8 {
            return None;
        }
        proof {
            lemma_decimal_step(bytes@, i as int);
            assert forall|k: int| 0 <= k < i + 1 implies is_digit(#[trigger] bytes@.take(i + 1)[k]) by {
                if k < i {
                    assert(bytes@.take(i + 1)[k] == bytes@.take(i as int)[k]);
                }
            }
        }
        let m = match val.checked_mul(10) {
            Some(m) => m,
            None => {
                proof {
                    if all_digits(bytes@) {
                        lemma_decimal_prefix_le(bytes@, i + 1);
                    }
                }
                return None;
            },
        };
        val = match m.checked_add((b - 0x30u8) as u64) {
            Some(v) => v,
            None => {
                proof {
                    if all_digits(bytes@) {
                        lemma_decimal_prefix_le(bytes@, i + 1);
                    }
                }
                return None;
            },
        };
        i = i + 1;
    }
    assert(bytes@.take(n as int) =~= bytes@);
    Some(val)
}


/// Law: the tools' readers agree. A non-empty text that `parse_u16` reads
/// as `v` reads as `v` through `parse_u32`, and what `parse_u32` reads,
/// `parse_u64` reads alike.
pub proof fn law_parse_widths(bs: Seq<u8>)
    ensures
        bs.len() > 0 ==> (parse_decimal(bs, u16::MAX as nat, true) matches Some(v) ==> parse_decimal(
            bs,
            u32::MAX as nat,
            false,
        ) == Some(v)),
        parse_decimal(bs, u32::MAX as nat, false) matches Some(v) ==> parse_decimal(
            bs,
            u64::MAX as nat,
            false,
        ) == Some(v),
{
}

/// Law: leading zeros do not change what a text reads as.
pub proof fn law_leading_zero(bs: Seq<u8>)
    ensures
        decimal_value(seq![0x30u8] + bs) == decimal_value(bs),
        all_digits(bs) ==> all_digits(seq![0x30u8] + bs),
    decreases bs.len(),
{
    if bs.len() > 0 {
        law_leading_zero(bs.drop_last());
        assert((seq![0x30u8] + bs).drop_last() =~= seq![0x30u8] + bs.drop_last());
        let z = seq![0x30u8] + bs;
        assert(z.last() == bs.last());
        assert(z.len() > 0);
        assert(decimal_value(z) == decimal_value(z.drop_last()) * 10 + (z.last() - 0x30u8) as nat);
        assert(decimal_value(z.drop_last()) == decimal_value(bs.drop_last()));
        assert(decimal_value(z) == decimal_value(bs));
    } else {
        let z = seq![0x30u8] + bs;
        assert(z.drop_last() =~= Seq::<u8>::empty());
        assert(z.last() == 0x30u8);
        reveal_with_fuel(decimal_value, 2);
        assert(decimal_value(z) == decimal_value(bs));
    }
    if all_digits(bs) {
        assert forall|k: int| 0 <= k < (seq![0x30u8] + bs).len() implies is_digit(
            #[trigger] (seq![0x30u8] + bs)[k],
        ) by {
            if k > 0 {
                assert((seq![0x30u8] + bs)[k] == bs[k - 1]);
            }
        }
    }
}

} // verus!
