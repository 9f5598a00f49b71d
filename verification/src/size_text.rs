//! Human-readable byte counts: "{bytes} B" below a kibibyte, otherwise the
//! size in the largest of KB, MB, GB and TB (powers of 1024) that it reaches,
//! as its `f64` quotient printed with two decimals.

use vstd::prelude::*;
use crate::binary64::{binary64_value, binary64_round, round_half_even};
use crate::text::{decimal, digit_char, digit_str, push_decimal};

verus! {

pub open spec fn kib() -> nat {
    1024
}

pub open spec fn mib() -> nat {
    1048576
}

pub open spec fn gib() -> nat {
    1073741824
}

pub open spec fn tib() -> nat {
    1099511627776
}

/// `v / unit` printed with two decimals, the way `format!("{:.2}", ..)`
/// prints an `f64` holding it: the exact quotient rounded to hundredths,
/// ties to even.
pub open spec fn two_decimals(v: nat, unit: nat) -> Seq<char> {
    let h = round_half_even(v * 100, unit);
    decimal(h / 100) + seq!['.', digit_char((h % 100) / 10), digit_char(h % 10)]
}

/// A unit suffix: a space and the unit's letters.
pub open spec fn suffix(a: char, b: char) -> Seq<char> {
    seq![' ', a, b]
}

/// The text that shows a size of `bytes` bytes.
pub open spec fn size_text(bytes: nat) -> Seq<char> {
    if bytes >= tib() {
        two_decimals(binary64_value(bytes), tib()) + suffix('T', 'B')
    } else if bytes >= gib() {
        two_decimals(binary64_value(bytes), gib()) + suffix('G', 'B')
    } else if bytes >= mib() {
        two_decimals(binary64_value(bytes), mib()) + suffix('M', 'B')
    } else if bytes >= kib() {
        two_decimals(binary64_value(bytes), kib()) + suffix('K', 'B')
    } else {
        decimal(bytes) + seq![' ', 'B']
    }
}

fn push_two_decimals(out: &mut String, v: u128, unit: u128)
    requires
        0 < unit <= 1099511627776,
        v <= 0x2_0000_0000_0000_0000,
    ensures
        final(out)@ == old(out)@ + two_decimals(v as nat, unit as nat),
{
    let n = v * 100;
    let q = n / unit;
    let r = n % unit;
    let h: u128 = if 2 * r > unit || (2 * r == unit && q % 2 == 1) {
        q + 1
    } else {
        q
    };
    assert(h == round_half_even(v as nat * 100, unit as nat));
    let ghost start = out@;
    push_decimal(out, h / 100);
    proof {
        reveal_strlit(".");
    }
    out.append(".");
    out.append(digit_str((h % 100) / 10));
    out.append(digit_str(h % 10));
    assert(out@ =~= start + two_decimals(v as nat, unit as nat));
}

fn unit_suffix(letter: u8) -> (s: &'static str)
    ensures
        letter == 0 ==> s@ == suffix('T', 'B'),
        letter == 1 ==> s@ == suffix('G', 'B'),
        letter == 2 ==> s@ == suffix('M', 'B'),
        letter != 0 && letter != 1 && letter != 2 ==> s@ == suffix('K', 'B'),
{
    proof {
        reveal_strlit(" TB");
        reveal_strlit(" GB");
        reveal_strlit(" MB");
        reveal_strlit(" KB");
    }
    if letter == 0 {
        " TB"
    } else if letter == 1 {
        " GB"
    } else if letter == 2 {
        " MB"
    } else {
        " KB"
    }
}

/// Formats a byte count for display.
pub fn format_size(bytes: u64) -> (r: String)
    ensures
        r@ == size_text(bytes as nat),
{
    let mut out = String::new();
    if bytes >= 1024 {
        let value = binary64_round(bytes as u128);
        proof {
            lemma_value_bound(bytes as nat);
        }
        let (unit, letter): (u128, u8) = if bytes >= 1099511627776 {
            (1099511627776, 0)
        } else if bytes >= 1073741824 {
            (1073741824, 1)
        } else if bytes >= 1048576 {
            (1048576, 2)
        } else {
            (1024, 3)
        };
        push_two_decimals(&mut out, value, unit);
        out.append(unit_suffix(letter));
    } else {
        push_decimal(&mut out, bytes as u128);
        proof {
            reveal_strlit(" B");
        }
        out.append(" B");
    }
    out
}

proof fn lemma_value_bound(x: nat)
    requires
        x < 0x1_0000_0000_0000_0000,
    ensures
        binary64_value(x) <= 0x2_0000_0000_0000_0000,
{
    crate::binary64::lemma_value_at_most_twice(x);
}

} // verus!
