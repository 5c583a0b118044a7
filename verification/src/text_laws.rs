//! What holds of cutting and searching text, of numbers as text, and of the
//! order of byte strings.

use vstd::arithmetic::power::pow;
use vstd::prelude::*;

use crate::announce::{event_text, AnnounceEvent};
use crate::ascii::{DIGIT_0, MINUS, PLUS};
use crate::bytes::{
    after, before, lemma_first_index, lemma_single_piece, lemma_text_ascii, occurs, occurs_at,
    pieces, pieces_of_joined, text,
};
use crate::number::{
    decimal, decimal_reads_back, hex_value, is_digit, is_number, lemma_number_value_grows,
    number_value, signed_decimal, u64_text,
};
use crate::order::precedes;

verus! {

/// Law: text is cut at its first separator: what was written before it and
/// what was written after it come apart again, whatever the latter holds.
pub proof fn text_is_cut_at_its_separator(head: Seq<u8>, sep: u8, tail: Seq<u8>)
    requires
        forall|i: int| 0 <= i < head.len() ==> head[i] != sep,
    ensures
        before(head + seq![sep] + tail, sep) == head,
        after(head + seq![sep] + tail, sep) == tail,
{
    let s = head + seq![sep] + tail;
    assert(forall|i: int| 0 <= i < head.len() ==> s[i] == head[i]);
    lemma_first_index(s, sep, head.len() as int);
    assert(before(s, sep) =~= head);
    assert(after(s, sep) =~= tail);
}

/// Law: text without a separator is all before it, and nothing follows.
pub proof fn text_without_separator_is_not_cut(s: Seq<u8>, sep: u8)
    requires
        forall|i: int| 0 <= i < s.len() ==> s[i] != sep,
    ensures
        before(s, sep) == s,
        after(s, sep).len() == 0,
{
    lemma_first_index(s, sep, s.len() as int);
    assert(before(s, sep) =~= s);
}

/// Law: text splits at its first separator into what stands before it and the
/// pieces of what follows; without one, it is a single piece.
pub proof fn text_splits_at_its_separators(head: Seq<u8>, sep: u8, tail: Seq<u8>)
    requires
        forall|i: int| 0 <= i < head.len() ==> head[i] != sep,
    ensures
        pieces(head, sep) == seq![head],
        pieces(head + seq![sep] + tail, sep) == seq![head] + pieces(tail, sep),
{
    lemma_single_piece(head, sep);
    pieces_of_joined(head, sep, tail);
}

/// Law: a part occurs in a text just where the text is something, the part,
/// and something more.
pub proof fn part_occurs_where_it_stands(s: Seq<u8>, part: Seq<u8>, i: int)
    ensures
        occurs_at(s, part, i) <==> 0 <= i && i + part.len() <= s.len() && s == s.take(i) + part
            + s.skip(i + part.len() as int),
{
    if 0 <= i && i + part.len() <= s.len() {
        let t = s.take(i) + part + s.skip(i + part.len() as int);
        assert(s =~= s.take(i) + s.subrange(i, i + part.len()) + s.skip(i + part.len() as int));
        if s == t {
            assert(t.subrange(i, i + part.len()) =~= part);
        }
    }
}

/// Law: what is written with a part in it holds that part.
pub proof fn written_part_occurs(a: Seq<u8>, part: Seq<u8>, b: Seq<u8>)
    ensures
        occurs(a + part + b, part),
        occurs_at(a + part + b, part, a.len() as int),
{
    assert((a + part + b).subrange(a.len() as int, (a.len() + part.len()) as int) =~= part);
    assert(occurs_at(a + part + b, part, a.len() as int));
}

/// Law: a text that holds a part can be written with the part in it.
pub proof fn occurring_part_is_written(s: Seq<u8>, part: Seq<u8>)
    requires
        occurs(s, part),
    ensures
        exists|a: Seq<u8>, b: Seq<u8>| s == #[trigger] (a + part + b),
{
    let i = choose|i: int| occurs_at(s, part, i);
    part_occurs_where_it_stands(s, part, i);
    assert(s == s.take(i) + part + s.skip(i + part.len() as int));
}

/// Law: the hexadecimal digits are these sixteen, in two cases, and their
/// values are their places.
pub proof fn hexadecimal_digits_are_these(c: u8, v: u8)
    ensures
        hex_value(c) == Some(v) <==> v < 16 && (c == text("0123456789abcdef")[v as int] || c
            == text("0123456789ABCDEF")[v as int]),
        hex_value(c) is Some ==> hex_value(c).unwrap() < 16,
{
    reveal_strlit("0123456789abcdef");
    reveal_strlit("0123456789ABCDEF");
    lemma_text_ascii("0123456789abcdef");
    lemma_text_ascii("0123456789ABCDEF");
    let low = text("0123456789abcdef");
    let up = text("0123456789ABCDEF");
    assert(forall|i: int| 0 <= i < 10 ==> low[i] == 0x30 + i && up[i] == 0x30 + i);
    assert(forall|i: int| 10 <= i < 16 ==> low[i] == 0x57 + i && up[i] == 0x37 + i);
}

/// Law: the digits of decimal numbers are those from 0 to 9, and all
/// hexadecimal digits are digits of hexadecimal numbers.
pub proof fn digits_of_each_base(c: u8)
    ensures
        is_digit(c, 10) <==> 0x30 <= c <= 0x39,
        is_digit(c, 16) <==> hex_value(c) is Some,
{
}

/// Law: a number is made of one or more digits: text is a number if each of
/// two parts that it is cut into is one, and only if.
pub proof fn numbers_are_made_of_digits(a: Seq<u8>, b: Seq<u8>, c: u8, radix: nat)
    ensures
        !is_number(Seq::empty(), radix),
        is_number(seq![c], radix) <==> is_digit(c, radix),
        a.len() > 0 && b.len() > 0 ==> (is_number(a + b, radix) <==> is_number(a, radix)
            && is_number(b, radix)),
{
    assert(is_digit(seq![c][0], radix) == is_digit(c, radix));
    let s = a + b;
    assert(forall|i: int| 0 <= i < a.len() ==> s[i] == a[i]);
    assert(forall|i: int| 0 <= i < b.len() ==> s[a.len() + i] == b[i]);
    if a.len() > 0 && b.len() > 0 {
        if is_number(s, radix) {
            assert forall|i: int| 0 <= i < a.len() implies is_digit(#[trigger] a[i], radix) by {
                assert(is_digit(s[i], radix));
            }
            assert forall|i: int| 0 <= i < b.len() implies is_digit(#[trigger] b[i], radix) by {
                assert(is_digit(s[a.len() + i], radix));
            }
        }
        if is_number(a, radix) && is_number(b, radix) {
            assert forall|i: int| 0 <= i < s.len() implies is_digit(#[trigger] s[i], radix) by {
                if i < a.len() {
                    assert(is_digit(a[i], radix));
                } else {
                    assert(is_digit(b[i - a.len()], radix));
                }
            }
        }
    }
}

/// Law: numbers are written in positions: digits written before others count
/// as often as the base to the power of how many these are.
pub proof fn numbers_are_positional(a: Seq<u8>, b: Seq<u8>, radix: nat)
    ensures
        number_value(a + b, radix) == number_value(a, radix) * pow(radix as int, b.len())
            + number_value(b, radix),
    decreases b.len(),
{
    if b.len() == 0 {
        assert(a + b =~= a);
        vstd::arithmetic::power::lemma_pow0(radix as int);
    } else {
        let init = b.drop_last();
        numbers_are_positional(a, init, radix);
        assert((a + b).drop_last() =~= a + init);
        assert((a + b).last() == b.last());
        let x = number_value(a, radix) as int;
        let y = number_value(init, radix) as int;
        let p = pow(radix as int, init.len());
        let r = radix as int;
        reveal(pow);
        assert(pow(r, b.len()) == r * p);
        assert((x * p + y) * r == x * (r * p) + y * r) by (nonlinear_arith);
    }
}

/// Law: a single digit has the value of that digit, and no digits have none.
pub proof fn single_digit_has_its_value(c: u8, radix: nat)
    requires
        hex_value(c) is Some,
    ensures
        number_value(Seq::empty(), radix) == 0,
        number_value(seq![c], radix) == hex_value(c).unwrap(),
{
    assert(seq![c].drop_last() =~= Seq::empty());
    assert(number_value(seq![c].drop_last(), radix) == 0);
    assert(0 * radix == 0) by (nonlinear_arith);
}

/// Law: text reads as a 64-bit number if, and only if, it is a decimal number
/// of that value, alone or after one plus sign.
pub proof fn u64_text_is_a_number(s: Seq<u8>, n: u64)
    ensures
        u64_text(s) == Some(n) <==> {
            ||| is_number(s, 10) && number_value(s, 10) == n
            ||| s.len() > 0 && s[0] == PLUS && is_number(s.skip(1), 10) && number_value(
                s.skip(1),
                10,
            ) == n
        },
{
    if s.len() > 0 && s[0] == PLUS {
        assert(!is_digit(s[0], 10));
    }
}

/// A decimal number that does not start with a zero is not zero.
proof fn lemma_no_leading_zero(s: Seq<u8>)
    requires
        is_number(s, 10),
        s[0] != DIGIT_0,
    ensures
        number_value(s, 10) >= 1,
{
    lemma_number_value_grows(s, 10, 1);
    assert(is_digit(s[0], 10));
    assert(s.take(1) =~= seq![s[0]]);
    single_digit_has_its_value(s[0], 10);
}

/// Law: a number is written in decimal without leading zeros.
pub proof fn decimal_has_no_leading_zero(n: nat)
    ensures
        decimal(n).len() > 0,
        n > 0 ==> decimal(n)[0] != DIGIT_0,
        decimal(n).len() > 1 ==> decimal(n)[0] != DIGIT_0,
    decreases n,
{
    if n >= 10 {
        decimal_has_no_leading_zero(n / 10);
        assert(decimal(n)[0] == decimal(n / 10)[0]);
        if n / 10 < 10 {
            assert(decimal(n / 10)[0] == (DIGIT_0 + n / 10) as u8);
        }
    }
}

/// Law: a decimal number without leading zeros is what its value is written
/// as.
pub proof fn decimal_is_unique(s: Seq<u8>)
    requires
        is_number(s, 10),
        s.len() > 1 ==> s[0] != DIGIT_0,
    ensures
        s == decimal(number_value(s, 10)),
    decreases s.len(),
{
    let last = s.last();
    assert(is_digit(last, 10));
    let d = hex_value(last).unwrap();
    if s.len() == 1 {
        assert(s =~= seq![last]);
        single_digit_has_its_value(last, 10);
    } else {
        let init = s.drop_last();
        assert forall|i: int| 0 <= i < init.len() implies is_digit(#[trigger] init[i], 10) by {
            assert(is_digit(s[i], 10));
        }
        decimal_is_unique(init);
        lemma_no_leading_zero(init);
        let v = number_value(s, 10);
        assert(v == number_value(init, 10) * 10 + d);
        assert(v / 10 == number_value(init, 10) && v % 10 == d);
        assert(s =~= init.push(last));
    }
}

/// Law: a number that may be negative is written as its decimal digits, with a
/// minus sign before them where it is.
pub proof fn signed_decimal_reads_back(n: int)
    ensures
        n >= 0 ==> is_number(signed_decimal(n), 10) && number_value(signed_decimal(n), 10) == n,
        n < 0 ==> {
            &&& signed_decimal(n).len() > 1
            &&& signed_decimal(n)[0] == MINUS
            &&& is_number(signed_decimal(n).skip(1), 10)
            &&& number_value(signed_decimal(n).skip(1), 10) == -n
            &&& signed_decimal(n)[1] != DIGIT_0
        },
        signed_decimal(n).len() > 1 ==> signed_decimal(n)[0] != DIGIT_0,
{
    let size = (if n < 0 {
        -n
    } else {
        n
    }) as nat;
    decimal_reads_back(size);
    decimal_has_no_leading_zero(size);
    if n < 0 {
        let digits = decimal(size);
        assert(signed_decimal(n).skip(1) =~= digits);
        assert(signed_decimal(n)[1] == digits[0]);
        if digits[0] == DIGIT_0 {
            assert(digits =~= seq![DIGIT_0]);
            single_digit_has_its_value(DIGIT_0, 10);
        }
    }
}

/// Law: where a byte string goes on after the end of another, the shorter one
/// comes first.
pub proof fn prefix_comes_first(a: Seq<u8>, more: Seq<u8>)
    requires
        more.len() > 0,
    ensures
        precedes(a, a + more),
        !precedes(a + more, a),
    decreases a.len(),
{
    if a.len() > 0 {
        prefix_comes_first(a.skip(1), more);
        assert((a + more).skip(1) =~= a.skip(1) + more);
    }
}

/// Law: each event has one name, and whatever is no name of an event is taken
/// as a refresh.
pub proof fn events_have_their_names(value: Seq<u8>)
    ensures
        event_text(value) == AnnounceEvent::Started <==> value == text("started"),
        event_text(value) == AnnounceEvent::Stopped <==> value == text("stopped"),
        event_text(value) == AnnounceEvent::Completed <==> value == text("completed"),
{
    reveal_strlit("started");
    reveal_strlit("stopped");
    reveal_strlit("completed");
    lemma_text_ascii("started");
    lemma_text_ascii("stopped");
    lemma_text_ascii("completed");
    assert(text("started")[2] != text("stopped")[2]);
    assert(text("completed").len() == 9 && text("started").len() == 7 && text("stopped").len()
        == 7);
}

/// Law: the bytes of a string are the string again when they are decoded.
pub proof fn text_decodes_back(s: &str)
    ensures
        vstd::utf8::decode_utf8(text(s)) == s@,
{
    vstd::utf8::encode_utf8_decode_utf8(s@);
}

} // verus!
