//! Reading numbers out of text: coordinates written as decimal degrees.

use vstd::prelude::*;
use vstd::string::StringSliceAdditionalSpecFns;

verus! {

/// The byte is a decimal digit.
pub open spec fn is_digit(b: u8) -> bool {
    0x30 <= b <= 0x39
}

/// Every byte from `from` up to `to` is a decimal digit.
pub open spec fn all_digits(bytes: Seq<u8>, from: int, to: int) -> bool {
    forall|i: int| from <= i < to ==> is_digit(#[trigger] bytes[i])
}

/// The number that the digits from `from` up to `to` write.
pub open spec fn digits_value(bytes: Seq<u8>, from: int, to: int) -> nat
    decreases to - from,
{
    if to <= from {
        0
    } else {
        digits_value(bytes, from, to - 1) * 10 + (bytes[to - 1] - 0x30) as nat
    }
}

/// The ten-millionths that the digits behind a decimal point write, from `from` up to `to`:
/// the first seven count, and digits that are missing count as zeros.
pub open spec fn fraction_e7(bytes: Seq<u8>, from: int, to: int) -> nat {
    if to - from >= 7 {
        digits_value(bytes, from, from + 7)
    } else {
        digits_value(bytes, from, to) * pow10((7 - (to - from)) as nat)
    }
}

/// Ten to the power `n`.
pub open spec fn pow10(n: nat) -> nat
    decreases n,
{
    if n == 0 {
        1
    } else {
        10 * pow10((n - 1) as nat)
    }
}

/// Where the digits before the decimal point end: at the first byte from `from` on that is no
/// digit, or at the end.
pub open spec fn digits_end(bytes: Seq<u8>, from: int) -> int
    decreases bytes.len() - from,
{
    if from >= bytes.len() || !is_digit(bytes[from]) {
        from
    } else {
        digits_end(bytes, from + 1)
    }
}

/// The number of ten-millionths that the text writes as a decimal number: a sign or none,
/// digits, and behind a point more digits, with one digit at least; rounded towards nothing.
/// `None` for any other text, and for a number that does not fit into 32 bits.
pub open spec fn decimal_e7(bytes: Seq<u8>) -> Option<i32> {
    let signed = bytes.len() > 0 && (bytes[0] == 0x2d || bytes[0] == 0x2b);
    let negative = bytes.len() > 0 && bytes[0] == 0x2d;
    let start: int = if signed {
        1
    } else {
        0
    };
    let dot = digits_end(bytes, start);
    let pointed = dot < bytes.len() && bytes[dot] == 0x2e;
    let behind: int = if pointed {
        dot + 1
    } else {
        dot
    };
    let end = bytes.len() as int;
    let magnitude = digits_value(bytes, start, dot) * 10_000_000 + fraction_e7(bytes, behind, end);
    if !(dot == end || pointed) || !all_digits(bytes, behind, end) || (dot - start) + (end - behind)
        == 0 || magnitude > 0x7fff_ffff {
        None
    } else if negative {
        Some((-magnitude) as i32)
    } else {
        Some(magnitude as i32)
    }
}

proof fn lemma_digits_end_meets(bytes: Seq<u8>, from: int, at: int)
    requires
        0 <= from <= at <= bytes.len(),
        all_digits(bytes, from, at),
        at < bytes.len() ==> !is_digit(bytes[at]),
    ensures
        digits_end(bytes, from) == at,
    decreases at - from,
{
    if from < at {
        lemma_digits_end_meets(bytes, from + 1, at);
    }
}

/// The digits written so far are what grows by a digit when they are read one further.
proof fn lemma_digits_grow(bytes: Seq<u8>, from: int, to: int)
    requires
        from <= to,
    ensures
        digits_value(bytes, from, to + 1) == digits_value(bytes, from, to) * 10 + (bytes[to] - 0x30) as nat,
{
}

/// Reads a run of digits from `from` on, as far as it goes, counting no higher than `cap`.
fn read_digits(bytes: &[u8], from: usize, cap: u64) -> (found: (u64, usize))
    requires
        from <= bytes@.len(),
        cap < 0xffff_ffff_ffff_ffff,
    ensures
        found.1 == digits_end(bytes@, from as int),
        from <= found.1 <= bytes@.len(),
        all_digits(bytes@, from as int, found.1 as int),
        found.1 < bytes@.len() ==> !is_digit(bytes@[found.1 as int]),
        found.0 == if digits_value(bytes@, from as int, found.1 as int) > cap {
            (cap + 1) as nat
        } else {
            digits_value(bytes@, from as int, found.1 as int)
        },
{
    let mut value: u64 = 0;
    let mut i: usize = from;
    while i < bytes.len() && bytes[i] >= 0x30 && bytes[i] <= 0x39
        invariant
            from <= i <= bytes@.len(),
            cap < 0xffff_ffff_ffff_ffff,
            all_digits(bytes@, from as int, i as int),
            value == if digits_value(bytes@, from as int, i as int) > cap {
                (cap + 1) as nat
            } else {
                digits_value(bytes@, from as int, i as int)
            },
        decreases bytes@.len() - i,
    {
        let digit: u64 = (bytes[i] - 0x30) as u64;
        proof {
            lemma_digits_grow(bytes@, from as int, i as int);
        }
        if value <= cap {
            let wide: u128 = value as u128 * 10 + digit as u128;
            value = if wide > cap as u128 {
                cap + 1
            } else {
                wide as u64
            };
        }
        i += 1;
    }
    proof {
        lemma_digits_end_meets(bytes@, from as int, i as int);
    }
    (value, i)
}

/// Reads up to seven digits behind a decimal point, from `from` to the end, and checks that
/// nothing but digits follows.
fn read_fraction(bytes: &[u8], from: usize) -> (found: Option<u32>)
    requires
        from <= bytes@.len(),
    ensures
        found is Some <==> all_digits(bytes@, from as int, bytes@.len() as int),
        found matches Some(f) ==> f == fraction_e7(bytes@, from as int, bytes@.len() as int) && f
            < 10_000_000,
{
    let mut value: u32 = 0;
    let mut i: usize = from;
    let mut taken: u32 = 0;
    while i < bytes.len()
        invariant
            from <= i <= bytes@.len(),
            all_digits(bytes@, from as int, i as int),
            taken == if i - from >= 7 {
                7
            } else {
                i - from
            },
            value == digits_value(bytes@, from as int, from + taken),
            value < pow10(taken as nat),
            pow10(taken as nat) <= 10_000_000,
        decreases bytes@.len() - i,
    {
        if !(bytes[i] >= 0x30 && bytes[i] <= 0x39) {
            return None;
        }
        if taken < 7 {
            proof {
                lemma_digits_grow(bytes@, from as int, i as int);
                lemma_pow10_small((taken + 1) as nat);
            }
            value = value * 10 + (bytes[i] - 0x30) as u32;
            taken += 1;
        }
        i += 1;
    }
    let mut pad: u32 = taken;
    let ghost base = value;
    let ghost shift: nat = 0;
    proof {
        lemma_pow10_small(0);
    }
    while pad < 7
        invariant
            taken <= pad <= 7,
            shift == pad - taken,
            value == base * pow10(shift),
            base < pow10(taken as nat),
            value < pow10(pad as nat),
            pow10(pad as nat) <= 10_000_000,
        decreases 7 - pad,
    {
        proof {
            lemma_pow10_small((pad + 1) as nat);
            assert(base * pow10(shift + 1) == base * pow10(shift) * 10) by (nonlinear_arith)
                requires
                    pow10(shift + 1) == 10 * pow10(shift),
            ;
            shift = shift + 1;
        }
        value = value * 10;
        pad += 1;
    }
    Some(value)
}

proof fn lemma_pow10_small(n: nat)
    requires
        n <= 7,
    ensures
        pow10(n) <= 10_000_000,
        n == 7 ==> pow10(n) == 10_000_000,
        n > 0 ==> pow10(n) == 10 * pow10((n - 1) as nat),
    decreases n,
{
    reveal_with_fuel(pow10, 9);
}

/// Reads a coordinate written as decimal degrees into ten-millionths of a degree.
pub fn parse_e7(text: &str) -> (value: Option<i32>)
    ensures
        value == decimal_e7(text.spec_bytes()),
{
    let bytes = text.as_bytes();
    let n = bytes.len();
    let negative = n > 0 && bytes[0] == 0x2d;
    let start: usize = if n > 0 && (bytes[0] == 0x2d || bytes[0] == 0x2b) {
        1
    } else {
        0
    };
    let (whole, dot) = read_digits(bytes, start, 1000);
    let pointed = dot < n && bytes[dot] == 0x2e;
    if !(dot == n || pointed) {
        return None;
    }
    let behind: usize = if pointed {
        dot + 1
    } else {
        dot
    };
    let fraction = match read_fraction(bytes, behind) {
        Some(f) => f,
        None => {
            return None;
        },
    };
    if (dot - start) + (n - behind) == 0 {
        return None;
    }
    if whole > 1000 {
        return None;
    }
    let magnitude: u64 = whole * 10_000_000 + fraction as u64;
    if magnitude > 0x7fff_ffff {
        return None;
    }
    if negative {
        Some(-(magnitude as i64) as i32)
    } else {
        Some(magnitude as i32)
    }
}

/// The whole number that the text writes in decimal digits, with a sign or without; `None`
/// for a text without a digit, for one that holds anything but a sign and digits, and for a
/// number that does not fit into 64 bits.
pub open spec fn decimal_i64(bytes: Seq<u8>) -> Option<i64> {
    let signed = bytes.len() > 0 && (bytes[0] == 0x2d || bytes[0] == 0x2b);
    let negative = bytes.len() > 0 && bytes[0] == 0x2d;
    let start: int = if signed {
        1
    } else {
        0
    };
    let end = bytes.len() as int;
    let magnitude = digits_value(bytes, start, end);
    if end == start || !all_digits(bytes, start, end) {
        None
    } else if negative {
        if magnitude <= 0x8000_0000_0000_0000 {
            Some((-magnitude) as i64)
        } else {
            None
        }
    } else if magnitude <= 0x7fff_ffff_ffff_ffff {
        Some(magnitude as i64)
    } else {
        None
    }
}

/// Reads a whole number written in decimal digits.
pub fn parse_i64(text: &str) -> (number: Option<i64>)
    ensures
        number == decimal_i64(text.spec_bytes()),
{
    let bytes = text.as_bytes();
    let n = bytes.len();
    let negative = n > 0 && bytes[0] == 0x2d;
    let start: usize = if n > 0 && (bytes[0] == 0x2d || bytes[0] == 0x2b) {
        1
    } else {
        0
    };
    let (magnitude, end) = read_digits(bytes, start, 0x8000_0000_0000_0000);
    if end != n {
        assert(!is_digit(bytes@[end as int]));
        return None;
    }
    if end == start {
        return None;
    }
    if negative {
        if magnitude <= 0x8000_0000_0000_0000 {
            Some((-(magnitude as i128)) as i64)
        } else {
            None
        }
    } else if magnitude <= 0x7fff_ffff_ffff_ffff {
        Some(magnitude as i64)
    } else {
        None
    }
}

} // verus!
