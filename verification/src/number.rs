//! Numbers written as text: hexadecimal digits, decimal readings and decimal
//! renderings.

use vstd::prelude::*;

use crate::ascii::{DIGIT_0, DIGIT_9, LOWER_A, LOWER_F, MINUS, PLUS, UPPER_A, UPPER_F};

verus! {

/// The value of a hexadecimal digit of either case.
pub open spec fn hex_value(c: u8) -> Option<u8> {
    if DIGIT_0 <= c <= DIGIT_9 {
        Some((c - DIGIT_0) as u8)
    } else if LOWER_A <= c <= LOWER_F {
        Some((c - LOWER_A + 10) as u8)
    } else if UPPER_A <= c <= UPPER_F {
        Some((c - UPPER_A + 10) as u8)
    } else {
        None
    }
}

/// Whether `c` is a digit of numbers in base `radix`, which is at most 16.
pub open spec fn is_digit(c: u8, radix: nat) -> bool {
    hex_value(c) is Some && hex_value(c).unwrap() < radix
}

/// Whether `s` is a number in base `radix`: one or more digits.
pub open spec fn is_number(s: Seq<u8>, radix: nat) -> bool {
    &&& s.len() > 0
    &&& forall|i: int| 0 <= i < s.len() ==> is_digit(#[trigger] s[i], radix)
}

/// The value of the digits `s` in base `radix`, most significant digit first.
pub open spec fn number_value(s: Seq<u8>, radix: nat) -> nat
    decreases s.len(),
{
    if s.len() == 0 {
        0
    } else {
        number_value(s.drop_last(), radix) * radix + hex_value(s.last()).unwrap() as nat
    }
}

/// What `s` reads as: an optional plus sign and a decimal number that fits
/// in 64 bits.
pub open spec fn u64_text(s: Seq<u8>) -> Option<u64> {
    let digits = if s.len() > 0 && s[0] == PLUS {
        s.skip(1)
    } else {
        s
    };
    if is_number(digits, 10) && number_value(digits, 10) <= u64::MAX {
        Some(number_value(digits, 10) as u64)
    } else {
        None
    }
}

/// `n` in decimal, without leading zeros.
pub open spec fn decimal(n: nat) -> Seq<u8>
    decreases n,
{
    if n < 10 {
        seq![(DIGIT_0 + n) as u8]
    } else {
        decimal(n / 10).push((DIGIT_0 + n % 10) as u8)
    }
}

/// `n` in decimal, with a minus sign where it is negative.
pub open spec fn signed_decimal(n: int) -> Seq<u8> {
    if n < 0 {
        seq![MINUS] + decimal((-n) as nat)
    } else {
        decimal(n as nat)
    }
}

/// More digits never make a smaller number.
pub proof fn lemma_number_value_grows(s: Seq<u8>, radix: nat, k: int)
    requires
        radix >= 1,
        0 <= k <= s.len(),
    ensures
        number_value(s.take(k), radix) <= number_value(s, radix),
    decreases s.len() - k,
{
    if k < s.len() {
        lemma_number_value_grows(s, radix, k + 1);
        assert(s.take(k + 1).drop_last() =~= s.take(k));
        let before = number_value(s.take(k), radix);
        assert(before <= before * radix) by (nonlinear_arith)
            requires
                radix >= 1,
        ;
    } else {
        assert(s.take(k) =~= s);
    }
}

/// Law: the decimal rendering of a number is a decimal number of that value.
pub proof fn decimal_reads_back(n: nat)
    ensures
        is_number(decimal(n), 10),
        number_value(decimal(n), 10) == n,
    decreases n,
{
    let s = decimal(n);
    if n < 10 {
        assert(number_value(s.drop_last(), 10) == 0);
        assert(s.last() == (DIGIT_0 + n) as u8);
    } else {
        decimal_reads_back(n / 10);
        let d = (DIGIT_0 + n % 10) as u8;
        assert(s.drop_last() =~= decimal(n / 10));
        assert(s.last() == d);
        assert forall|i: int| 0 <= i < s.len() implies is_digit(#[trigger] s[i], 10) by {
            if i < s.len() - 1 {
                assert(s[i] == decimal(n / 10)[i]);
            }
        }
    }
}

/// Law: a 64-bit number written in decimal reads as that number.
pub proof fn u64_text_of_decimal(n: u64)
    ensures
        u64_text(decimal(n as nat)) == Some(n),
{
    decimal_reads_back(n as nat);
    assert(is_digit(decimal(n as nat)[0], 10));
}

/// The value of a hexadecimal digit.
pub fn hex(c: u8) -> (r: Option<u8>)
    ensures
        r == hex_value(c),
{
    if DIGIT_0 <= c && c <= DIGIT_9 {
        Some(c - DIGIT_0)
    } else if LOWER_A <= c && c <= LOWER_F {
        Some(c - LOWER_A + 10)
    } else if UPPER_A <= c && c <= UPPER_F {
        Some(c - UPPER_A + 10)
    } else {
        None
    }
}

/// Reads a decimal number of at most 64 bits, which a plus sign may precede.
pub fn ascii_u64(b: &[u8]) -> (r: Option<u64>)
    ensures
        r == u64_text(b@),
{
    let start: usize = if b.len() > 0 && b[0] == PLUS {
        1
    } else {
        0
    };
    let digits: &[u8] = vstd::slice::slice_subrange(b, start, b.len());
    assert(digits@ =~= if b@.len() > 0 && b@[0] == PLUS {
        b@.skip(1)
    } else {
        b@
    });
    if digits.len() == 0 {
        return None;
    }
    let mut value: u64 = 0;
    let mut i: usize = 0;
    while i < digits.len()
        invariant
            i <= digits@.len(),
            value == number_value(digits@.take(i as int), 10),
            forall|j: int| 0 <= j < i ==> is_digit(#[trigger] digits@[j], 10),
            digits@ == if b@.len() > 0 && b@[0] == PLUS {
                b@.skip(1)
            } else {
                b@
            },
        decreases digits@.len() - i,
    {
        let c: u8 = digits[i];
        if c < DIGIT_0 || DIGIT_9 < c {
            assert(!is_digit(digits@[i as int], 10));
            return None;
        }
        let digit: u64 = (c - DIGIT_0) as u64;
        proof {
            assert(digits@.take(i + 1).drop_last() =~= digits@.take(i as int));
            lemma_number_value_grows(digits@, 10, i + 1);
        }
        if value > (u64::MAX - digit) / 10 {
            return None;
        }
        value = value * 10 + digit;
        i += 1;
    }
    assert(digits@.take(i as int) =~= digits@);
    Some(value)
}

/// Reads a number of at most `max_digits` digits in base `radix`.
pub fn short_number(s: &[u8], radix: u32, max_digits: usize) -> (r: Option<u32>)
    requires
        radix <= 16,
        max_digits <= 4,
    ensures
        match r {
            Some(v) => {
                &&& is_number(s@, radix as nat)
                &&& s@.len() <= max_digits
                &&& v == number_value(s@, radix as nat)
                &&& v <= 0xffff
            },
            None => !(is_number(s@, radix as nat) && s@.len() <= max_digits),
        },
{
    if s.len() == 0 || s.len() > max_digits {
        return None;
    }
    let mut value: u32 = 0;
    let mut i: usize = 0;
    while i < s.len()
        invariant
            radix <= 16,
            i <= s@.len() <= max_digits <= 4,
            value == number_value(s@.take(i as int), radix as nat),
            i == 0 ==> value == 0,
            i == 1 ==> value < 0x10,
            i == 2 ==> value < 0x100,
            i == 3 ==> value < 0x1000,
            i == 4 ==> value < 0x10000,
            forall|j: int| 0 <= j < i ==> is_digit(#[trigger] s@[j], radix as nat),
        decreases s@.len() - i,
    {
        let digit: u8 = match hex(s[i]) {
            Some(digit) => digit,
            None => {
                assert(!is_digit(s@[i as int], radix as nat));
                return None;
            },
        };
        if digit as u32 >= radix {
            assert(!is_digit(s@[i as int], radix as nat));
            return None;
        }
        assert(s@.take(i + 1).drop_last() =~= s@.take(i as int));
        assert(value * radix <= value * 16) by (nonlinear_arith)
            requires
                radix <= 16,
        ;
        value = value * radix + digit as u32;
        i += 1;
    }
    assert(s@.take(i as int) =~= s@);
    Some(value)
}

/// Writes `n` in decimal.
pub fn decimal_text(n: u64) -> (r: Vec<u8>)
    ensures
        r@ == decimal(n as nat),
    decreases n,
{
    let mut r: Vec<u8> = if n < 10 {
        Vec::new()
    } else {
        decimal_text(n / 10)
    };
    r.push(DIGIT_0 + (n % 10) as u8);
    assert(r@ =~= decimal(n as nat));
    r
}

} // verus!
