//! Percent-encoding, as in the query of a URL.

use vstd::prelude::*;

use crate::ascii::{DIGIT_0, PERCENT, PLUS, SPACE, UPPER_A};
use crate::number::{hex, hex_value};

verus! {

/// Whether `s` starts with a percent sign and two hexadecimal digits.
pub open spec fn starts_escaped(s: Seq<u8>) -> bool {
    &&& s.len() >= 3
    &&& s[0] == PERCENT
    &&& hex_value(s[1]) is Some
    &&& hex_value(s[2]) is Some
}

/// What `s` decodes to: each percent sign with two hexadecimal digits is the
/// byte of that number, each plus sign is a space, and any other byte is
/// itself, also a percent sign without its digits.
pub open spec fn decoded(s: Seq<u8>) -> Seq<u8>
    decreases s.len(),
{
    if s.len() == 0 {
        Seq::empty()
    } else if starts_escaped(s) {
        seq![(hex_value(s[1]).unwrap() * 16 + hex_value(s[2]).unwrap()) as u8] + decoded(s.skip(3))
    } else if s[0] == PLUS {
        seq![SPACE] + decoded(s.skip(1))
    } else {
        seq![s[0]] + decoded(s.skip(1))
    }
}

/// The hexadecimal digit of the value `v`, in upper case.
pub open spec fn hex_digit(v: u8) -> u8 {
    if v < 10 {
        (DIGIT_0 + v) as u8
    } else {
        (UPPER_A + v - 10) as u8
    }
}

/// `s` with every byte escaped.
pub open spec fn escaped(s: Seq<u8>) -> Seq<u8>
    decreases s.len(),
{
    if s.len() == 0 {
        Seq::empty()
    } else {
        seq![PERCENT, hex_digit((s[0] / 16) as u8), hex_digit((s[0] % 16) as u8)] + escaped(
            s.skip(1),
        )
    }
}

/// Law: a byte string whose every byte was escaped decodes to itself,
/// whatever its bytes are.
pub proof fn escaped_decodes(s: Seq<u8>)
    ensures
        decoded(escaped(s)) == s,
    decreases s.len(),
{
    if s.len() > 0 {
        escaped_decodes(s.skip(1));
        let e = escaped(s);
        assert(e.skip(3) =~= escaped(s.skip(1)));
        assert(starts_escaped(e));
        assert(decoded(e) =~= s);
    }
}

/// Whether the three bytes of `s` from `3 * i` on are an escape of `b`, with
/// digits in upper or in lower case.
pub open spec fn is_escape(s: Seq<u8>, i: int, b: u8) -> bool {
    &&& s[3 * i] == PERCENT
    &&& hex_value(s[3 * i + 1]) == Some((b / 16) as u8)
    &&& hex_value(s[3 * i + 2]) == Some((b % 16) as u8)
}

/// Law: escapes decode to the bytes that they stand for, whether their digits
/// are in upper or in lower case.
pub proof fn escapes_decode_in_either_case(s: Seq<u8>, data: Seq<u8>)
    requires
        s.len() == 3 * data.len(),
        forall|i: int| 0 <= i < data.len() ==> #[trigger] is_escape(s, i, data[i]),
    ensures
        decoded(s) == data,
    decreases data.len(),
{
    if data.len() > 0 {
        let rest = s.skip(3);
        assert(is_escape(s, 0, data[0]));
        assert(starts_escaped(s));
        assert forall|i: int| 0 <= i < data.skip(1).len() implies #[trigger] is_escape(
            rest,
            i,
            data.skip(1)[i],
        ) by {
            assert(is_escape(s, i + 1, data[i + 1]));
            assert(rest[3 * i] == s[3 * (i + 1)]);
            assert(rest[3 * i + 1] == s[3 * (i + 1) + 1]);
            assert(rest[3 * i + 2] == s[3 * (i + 1) + 2]);
        }
        escapes_decode_in_either_case(rest, data.skip(1));
    }
    assert(decoded(s) =~= data);
}

/// Law: a byte string without percent and plus signs decodes to itself.
pub proof fn plain_decodes(s: Seq<u8>)
    requires
        forall|i: int| 0 <= i < s.len() ==> s[i] != PERCENT && s[i] != PLUS,
    ensures
        decoded(s) == s,
    decreases s.len(),
{
    if s.len() > 0 {
        plain_decodes(s.skip(1));
        assert(decoded(s) =~= s);
    }
}

/// Law: text is decoded byte by byte. A byte that is neither a percent nor a
/// plus sign stands for itself, whatever follows it.
pub proof fn plain_byte_stands_for_itself(s: Seq<u8>)
    requires
        s.len() > 0,
        s[0] != PERCENT,
        s[0] != PLUS,
    ensures
        decoded(s) == seq![s[0]] + decoded(s.skip(1)),
{
}

/// Law: a plus sign stands for a space, whatever follows it.
pub proof fn plus_stands_for_space(rest: Seq<u8>)
    ensures
        decoded(seq![PLUS] + rest) == seq![SPACE] + decoded(rest),
{
    assert((seq![PLUS] + rest).skip(1) =~= rest);
}

/// Law: a percent sign and the two hexadecimal digits of a byte stand for that
/// byte, whatever follows them.
pub proof fn escape_stands_for_its_byte(high: u8, low: u8, byte: u8, rest: Seq<u8>)
    requires
        hex_value(high) == Some((byte / 16) as u8),
        hex_value(low) == Some((byte % 16) as u8),
    ensures
        decoded(seq![PERCENT, high, low] + rest) == seq![byte] + decoded(rest),
{
    let s = seq![PERCENT, high, low] + rest;
    assert(starts_escaped(s));
    assert(s.skip(3) =~= rest);
}

/// Law: a percent sign that two hexadecimal digits do not follow stands for
/// itself, and what follows it is decoded on its own.
pub proof fn stray_percent_stands_for_itself(rest: Seq<u8>)
    requires
        rest.len() < 2 || hex_value(rest[0]) is None || hex_value(rest[1]) is None,
    ensures
        decoded(seq![PERCENT] + rest) == seq![PERCENT] + decoded(rest),
{
    let s = seq![PERCENT] + rest;
    assert(s.skip(1) =~= rest);
    if s.len() >= 3 {
        assert(s[1] == rest[0] && s[2] == rest[1]);
    }
}

/// Law: no text decodes to no bytes, and only no text does.
pub proof fn only_nothing_decodes_to_nothing(s: Seq<u8>)
    ensures
        decoded(s).len() == 0 <==> s.len() == 0,
{
}

/// Whether `unit` is one way to write the byte `b`: as itself, a space as a
/// plus sign, or any byte as an escape.
pub open spec fn writes(unit: Seq<u8>, b: u8) -> bool {
    ||| unit == seq![b] && b != PERCENT && b != PLUS
    ||| unit == seq![PLUS] && b == SPACE
    ||| unit.len() == 3 && is_escape(unit, 0, b)
}

/// Law: bytes that are written each in any of their ways, in any mixture, are
/// what the text decodes to.
pub proof fn mixed_text_decodes(units: Seq<Seq<u8>>, data: Seq<u8>)
    requires
        units.len() == data.len(),
        forall|i: int| 0 <= i < data.len() ==> #[trigger] writes(units[i], data[i]),
    ensures
        decoded(units.flatten()) == data,
    decreases units.len(),
{
    if units.len() == 0 {
        assert(units.flatten() =~= Seq::empty());
        assert(decoded(units.flatten()) =~= data);
    } else {
        let unit = units[0];
        let rest = units.drop_first();
        assert forall|i: int| 0 <= i < data.skip(1).len() implies #[trigger] writes(
            rest[i],
            data.skip(1)[i],
        ) by {
            assert(writes(units[i + 1], data[i + 1]));
        }
        mixed_text_decodes(rest, data.skip(1));
        let s = units.flatten();
        assert(s =~= unit + rest.flatten());
        assert(writes(units[0], data[0]));
        if unit.len() == 3 {
            assert(unit =~= seq![PERCENT, unit[1], unit[2]]);
            escape_stands_for_its_byte(unit[1], unit[2], data[0], rest.flatten());
        } else if unit[0] == PLUS {
            plus_stands_for_space(rest.flatten());
        } else {
            plain_byte_stands_for_itself(s);
            assert(s.skip(1) =~= rest.flatten());
        }
        assert(decoded(s) =~= data);
    }
}

/// Decodes a percent-encoded byte string.
pub fn percent_decode(s: &[u8]) -> (out: Vec<u8>)
    ensures
        out@ == decoded(s@),
{
    let mut out: Vec<u8> = Vec::with_capacity(s.len());
    let mut i: usize = 0;
    assert(s@.skip(0) =~= s@);
    assert(out@ + decoded(s@) =~= decoded(s@));
    while i < s.len()
        invariant
            i <= s@.len(),
            decoded(s@) == out@ + decoded(s@.skip(i as int)),
        decreases s@.len() - i,
    {
        let ghost rest = s@.skip(i as int);
        let ghost before = out@;
        if s[i] == PERCENT && s.len() - i > 2 {
            if let (Some(hi), Some(lo)) = (hex(s[i + 1]), hex(s[i + 2])) {
                out.push(hi * 16 + lo);
                i += 3;
                proof {
                    assert(starts_escaped(rest));
                    assert(rest.skip(3) =~= s@.skip(i as int));
                    assert(before + decoded(rest) =~= out@ + decoded(s@.skip(i as int)));
                }
                continue;
            }
        }
        assert(!starts_escaped(rest));
        out.push(
            if s[i] == PLUS {
                SPACE
            } else {
                s[i]
            },
        );
        i += 1;
        proof {
            assert(rest.skip(1) =~= s@.skip(i as int));
            assert(before + decoded(rest) =~= out@ + decoded(s@.skip(i as int)));
        }
    }
    assert(s@.skip(i as int) =~= Seq::empty());
    assert(out@ + Seq::<u8>::empty() =~= out@);
    out
}

} // verus!
