//! What holds of IP addresses as text.

use vstd::prelude::*;

use crate::addr::{
    group_text, groups_text, ip_text, octet_text, run_text, v4_text, v6_text, IpAddr,
    IpView,
};
use crate::ascii::{COLON, DIGIT_0, DOT, LOWER_A};
use crate::bytes::{
    first_index, first_part, is_free, lemma_first_index_holds, lemma_first_part_holds,
    lemma_single_piece, occurs, occurs_at, pieces, pieces_of_joined,
};
use crate::number::{decimal, decimal_reads_back, is_digit, is_number, number_value};
use crate::text_laws::decimal_is_unique;

verus! {

/// An IPv4 address in decimal with dots.
pub open spec fn dotted(octets: Seq<u8>) -> Seq<u8> {
    decimal(octets[0] as nat) + seq![DOT] + decimal(octets[1] as nat) + seq![DOT] + decimal(
        octets[2] as nat,
    ) + seq![DOT] + decimal(octets[3] as nat)
}

/// The hexadecimal digit of the value `v`, in lower case.
pub open spec fn low_hex_digit(v: nat) -> u8 {
    if v < 10 {
        (DIGIT_0 + v) as u8
    } else {
        (LOWER_A + v - 10) as u8
    }
}

/// `n` in hexadecimal, without leading zeros.
pub open spec fn hexadecimal(n: nat) -> Seq<u8>
    decreases n,
{
    if n < 16 {
        seq![low_hex_digit(n)]
    } else {
        hexadecimal(n / 16).push(low_hex_digit(n % 16))
    }
}

/// Groups in hexadecimal with colons between them.
pub open spec fn colons(groups: Seq<u16>) -> Seq<u8>
    decreases groups.len(),
{
    if groups.len() == 0 {
        Seq::empty()
    } else if groups.len() == 1 {
        hexadecimal(groups[0] as nat)
    } else {
        hexadecimal(groups[0] as nat) + seq![COLON] + colons(groups.skip(1))
    }
}

/// Law: an IPv4 address in decimal with dots reads as that address.
pub proof fn dotted_reads_back(octets: Seq<u8>)
    requires
        octets.len() == 4,
    ensures
        v4_text(dotted(octets)) == Some(octets),
        ip_text(dotted(octets)) == Some(IpView::V4(octets)),
{
    let a = decimal(octets[0] as nat);
    let b = decimal(octets[1] as nat);
    let c = decimal(octets[2] as nat);
    let d = decimal(octets[3] as nat);
    lemma_octet(octets[0]);
    lemma_octet(octets[1]);
    lemma_octet(octets[2]);
    lemma_octet(octets[3]);
    pieces_of_joined(a, DOT, b);
    pieces_of_joined(a + seq![DOT] + b, DOT, c);
    pieces_of_joined(a + seq![DOT] + b + seq![DOT] + c, DOT, d);
    lemma_single_piece(a, DOT);
    lemma_single_piece(b, DOT);
    lemma_single_piece(c, DOT);
    lemma_single_piece(d, DOT);
    assert(pieces(dotted(octets), DOT) =~= seq![a, b, c, d]);
    assert(v4_text(dotted(octets)).unwrap() =~= octets);
}

/// A byte in decimal reads as an octet.
proof fn lemma_octet(n: u8)
    ensures
        octet_text(decimal(n as nat)) == Some(n),
        is_free(decimal(n as nat), DOT),
{
    decimal_reads_back(n as nat);
    assert(forall|i: int|
        0 <= i < decimal(n as nat).len() ==> is_digit(#[trigger] decimal(n as nat)[i], 10));
    reveal_with_fuel(decimal, 4);
}

/// A group in hexadecimal reads as that group, and is nothing else.
proof fn lemma_group(n: u16)
    ensures
        group_text(hexadecimal(n as nat)) == Some(n),
        is_free(hexadecimal(n as nat), COLON),
        is_free(hexadecimal(n as nat), DOT),
        hexadecimal(n as nat).len() > 0,
{
    lemma_hexadecimal(n as nat);
    assert(forall|i: int|
        0 <= i < hexadecimal(n as nat).len() ==> is_digit(#[trigger] hexadecimal(n as nat)[i], 16));
    reveal_with_fuel(hexadecimal, 5);
}

/// The hexadecimal rendering of a number is a hexadecimal number of that value.
proof fn lemma_hexadecimal(n: nat)
    ensures
        is_number(hexadecimal(n), 16),
        number_value(hexadecimal(n), 16) == n,
    decreases n,
{
    let s = hexadecimal(n);
    if n < 16 {
        assert(number_value(s.drop_last(), 16) == 0);
        assert(s.last() == low_hex_digit(n));
    } else {
        lemma_hexadecimal(n / 16);
        assert(s.drop_last() =~= hexadecimal(n / 16));
        assert(s.last() == low_hex_digit(n % 16));
        assert forall|i: int| 0 <= i < s.len() implies is_digit(#[trigger] s[i], 16) by {
            if i < s.len() - 1 {
                assert(s[i] == hexadecimal(n / 16)[i]);
            }
        }
    }
}

/// Text without dots is no IPv4 address.
proof fn lemma_no_dots(s: Seq<u8>)
    requires
        is_free(s, DOT),
    ensures
        v4_text(s) is None,
{
    lemma_single_piece(s, DOT);
}

/// Groups with colons between them are read as they were written.
proof fn lemma_colons(groups: Seq<u16>, v4_end: bool)
    ensures
        run_text(colons(groups), v4_end) == Some(groups),
        is_free(colons(groups), DOT),
        groups.len() > 0 ==> {
            &&& groups_text(pieces(colons(groups), COLON), v4_end) == Some(groups)
            &&& colons(groups).len() > 0
            &&& colons(groups)[0] != COLON
            &&& colons(groups).last() != COLON
            &&& forall|i: int|
                0 <= i < pieces(colons(groups), COLON).len() ==> #[trigger] pieces(
                    colons(groups),
                    COLON,
                )[i].len() > 0
        },
    decreases groups.len(),
{
    let s = colons(groups);
    if groups.len() == 0 {
        assert(groups =~= Seq::empty());
    } else {
        let first = hexadecimal(groups[0] as nat);
        lemma_group(groups[0]);
        lemma_no_dots(first);
        lemma_single_piece(first, COLON);
        if groups.len() == 1 {
            let parts = pieces(s, COLON);
            assert(parts == seq![first]);
            assert(groups_text(parts.skip(1), v4_end) == Some(Seq::<u16>::empty()));
            assert(groups =~= seq![groups[0]] + Seq::<u16>::empty());
        } else {
            let rest = colons(groups.skip(1));
            lemma_colons(groups.skip(1), v4_end);
            pieces_of_joined(first, COLON, rest);
            let parts = pieces(s, COLON);
            assert(parts == seq![first] + pieces(rest, COLON));
            assert(parts.skip(1) =~= pieces(rest, COLON));
            assert(groups =~= seq![groups[0]] + groups.skip(1));
            assert(s.last() == rest.last());
            assert(s[0] == first[0]);
            assert forall|i: int| 0 <= i < s.len() implies s[i] != DOT by {
                if i < first.len() {
                    assert(s[i] == first[i]);
                } else if i > first.len() {
                    assert(s[i] == rest[i - first.len() - 1]);
                }
            }
            assert forall|i: int| 0 <= i < parts.len() implies (#[trigger] parts[i]).len() > 0 by {
                if i > 0 {
                    assert(parts[i] == pieces(rest, COLON)[i - 1]);
                }
            }
        }
    }
}

/// Two colons side by side have an empty piece between them.
proof fn lemma_double_colon(s: Seq<u8>, i: int)
    requires
        occurs_at(s, seq![COLON, COLON], i),
    ensures
        exists|k: int|
            0 <= k < pieces(s, COLON).len() && (#[trigger] pieces(s, COLON)[k]).len() == 0,
{
    let a = s.take(i);
    let c = s.skip(i + 2);
    let none = Seq::<u8>::empty();
    assert(s[i] == s.subrange(i, i + 2)[0] && s[i + 1] == s.subrange(i, i + 2)[1]);
    assert(s =~= a + seq![COLON] + (none + seq![COLON] + c));
    pieces_of_joined(a, COLON, none + seq![COLON] + c);
    pieces_of_joined(none, COLON, c);
    lemma_single_piece(none, COLON);
    let k = pieces(a, COLON).len() as int;
    assert(pieces(s, COLON)[k] == none);
}

/// Law: an IPv6 address with all its groups in hexadecimal reads as that
/// address.
pub proof fn colons_read_back(groups: Seq<u16>)
    requires
        groups.len() == 8,
    ensures
        v6_text(colons(groups)) == Some(groups),
        ip_text(colons(groups)) == Some(IpView::V6(groups)),
{
    let s = colons(groups);
    let gap = seq![COLON, COLON];
    lemma_colons(groups, true);
    lemma_no_dots(s);
    lemma_colons_without_gap(groups);
    lemma_first_part_holds(s, gap);
}

/// Two colons stand side by side where a double colon does.
proof fn lemma_gap_at(s: Seq<u8>, j: int)
    ensures
        occurs_at(s, seq![COLON, COLON], j) <==> 0 <= j && j + 2 <= s.len() && s[j] == COLON && s[j
            + 1] == COLON,
{
    if 0 <= j && j + 2 <= s.len() {
        let here = s.subrange(j, j + 2);
        assert(here[0] == s[j] && here[1] == s[j + 1]);
        if s[j] == COLON && s[j + 1] == COLON {
            assert(here =~= seq![COLON, COLON]);
        }
    }
}

/// A double colon after text without one, which does not end in a colon
/// either, is the first one.
proof fn lemma_first_gap(a: Seq<u8>, rest: Seq<u8>)
    requires
        !occurs(a, seq![COLON, COLON]),
        a.len() > 0 ==> a.last() != COLON,
    ensures
        first_part(a + seq![COLON, COLON] + rest, seq![COLON, COLON]) == Some(a.len() as int),
{
    let gap = seq![COLON, COLON];
    let s = a + gap + rest;
    let i = a.len() as int;
    lemma_first_part_holds(s, gap);
    assert(occurs_at(s, gap, i)) by {
        lemma_gap_at(s, i);
    }
    let k = first_part(s, gap).unwrap();
    assert(k <= i);
    if k < i {
        lemma_gap_at(s, k);
        assert(s[k] == a[k]);
        lemma_gap_at(a, k);
        assert(occurs_at(a, gap, k));
    }
}

/// Groups with colons between them hold no double colon.
proof fn lemma_colons_without_gap(groups: Seq<u16>)
    ensures
        !occurs(colons(groups), seq![COLON, COLON]),
{
    let gap = seq![COLON, COLON];
    if occurs(colons(groups), gap) {
        lemma_double_colon(colons(groups), choose|i: int| occurs_at(colons(groups), gap, i));
        lemma_colons(groups, true);
    }
}

/// Law: a double colon between groups stands for the zero groups that are
/// missing, of which there is at least one.
pub proof fn double_colon_reads_back(head: Seq<u16>, tail: Seq<u16>)
    requires
        head.len() + tail.len() <= 7,
    ensures
        v6_text(colons(head) + seq![COLON, COLON] + colons(tail)) == Some(
            head + Seq::new((8 - head.len() - tail.len()) as nat, |k: int| 0u16) + tail,
        ),
{
    let s = colons(head) + seq![COLON, COLON] + colons(tail);
    let i = colons(head).len() as int;
    assert(colons(head).len() > 0 ==> colons(head).last() != COLON) by {
        lemma_colons(head, false);
    }
    lemma_colons_without_gap(head);
    lemma_first_gap(colons(head), colons(tail));
    assert(run_text(s.take(i), false) == Some(head)) by {
        lemma_colons(head, false);
        assert(s.take(i) =~= colons(head));
    }
    assert(run_text(s.skip(i + 2), true) == Some(tail)) by {
        lemma_colons(tail, true);
        assert(s.skip(i + 2) =~= colons(tail));
    }
}

/// Law: an octet is read from its decimal digits, and from nothing else: not
/// with leading zeros, and not from a larger number.
pub proof fn octet_is_written_in_decimal(s: Seq<u8>, n: u8)
    ensures
        octet_text(s) == Some(n) <==> s == decimal(n as nat),
{
    lemma_octet(n);
    if octet_text(s) == Some(n) {
        decimal_is_unique(s);
    }
}

/// Text of more than one piece is the first one, a separator, and the text of
/// the others.
proof fn lemma_first_piece(s: Seq<u8>, sep: u8) -> (rest: Seq<u8>)
    ensures
        pieces(s, sep).len() == 1 ==> s == pieces(s, sep)[0],
        pieces(s, sep).len() >= 1,
        pieces(s, sep).len() > 1 ==> {
            &&& s == pieces(s, sep)[0] + seq![sep] + rest
            &&& pieces(rest, sep) == pieces(s, sep).skip(1)
        },
    decreases s.len(),
{
    let i = first_index(s, sep);
    lemma_first_index_holds(s, sep);
    if i < s.len() {
        let rest = s.skip(i + 1);
        let again = lemma_first_piece(rest, sep);
        assert(s =~= s.take(i) + seq![sep] + rest);
        assert(pieces(s, sep).skip(1) =~= pieces(rest, sep));
        rest
    } else {
        Seq::empty()
    }
}

/// Law: an IPv4 address is read from its four octets in decimal with dots
/// between them, and from nothing else.
pub proof fn ipv4_is_written_with_dots(s: Seq<u8>, octets: Seq<u8>)
    ensures
        v4_text(s) == Some(octets) <==> octets.len() == 4 && s == dotted(octets),
{
    if octets.len() == 4 && s == dotted(octets) {
        dotted_reads_back(octets);
    }
    if v4_text(s) == Some(octets) {
        let parts = pieces(s, DOT);
        let s1 = lemma_first_piece(s, DOT);
        let s2 = lemma_first_piece(s1, DOT);
        let s3 = lemma_first_piece(s2, DOT);
        let s4 = lemma_first_piece(s3, DOT);
        assert(pieces(s1, DOT)[0] == parts[1]);
        assert(pieces(s2, DOT)[0] == parts[2]);
        assert(pieces(s3, DOT)[0] == parts[3]);
        assert(octet_text(parts[0]) is Some && octet_text(parts[1]) is Some && octet_text(parts[2])
            is Some && octet_text(parts[3]) is Some);
        octet_is_written_in_decimal(parts[0], octets[0]);
        octet_is_written_in_decimal(parts[1], octets[1]);
        octet_is_written_in_decimal(parts[2], octets[2]);
        octet_is_written_in_decimal(parts[3], octets[3]);
        assert(s =~= dotted(octets));
    }
}

/// Law: a group of an IPv6 address is read from one to four hexadecimal
/// digits, in either case and with or without leading zeros, and from nothing
/// else.
pub proof fn group_is_a_short_hexadecimal_number(s: Seq<u8>, n: u16)
    ensures
        group_text(s) == Some(n) <==> 1 <= s.len() <= 4 && is_number(s, 16) && number_value(s, 16)
            == n,
{
    if is_number(s, 16) && s.len() <= 4 {
        lemma_four_digits(s);
    }
}

/// Four hexadecimal digits fit in 16 bits.
proof fn lemma_four_digits(s: Seq<u8>)
    requires
        is_number(s, 16),
        s.len() <= 4,
    ensures
        number_value(s, 16) <= 0xffff,
        s.len() <= 3 ==> number_value(s, 16) <= 0xfff,
        s.len() <= 2 ==> number_value(s, 16) <= 0xff,
        s.len() <= 1 ==> number_value(s, 16) <= 0xf,
    decreases s.len(),
{
    let init = s.drop_last();
    assert(is_digit(s.last(), 16));
    if s.len() == 1 {
        assert(number_value(init, 16) == 0);
    } else {
        assert forall|i: int| 0 <= i < init.len() implies is_digit(#[trigger] init[i], 16) by {
            assert(is_digit(s[i], 16));
        }
        lemma_four_digits(init);
    }
}

/// Parts one after the other read as their groups one after the other; an IPv4
/// address can stand only at the end.
proof fn lemma_groups_join(a: Seq<Seq<u8>>, b: Seq<Seq<u8>>, v4_end: bool)
    requires
        b.len() > 0,
    ensures
        groups_text(a + b, v4_end) == match (groups_text(a, false), groups_text(b, v4_end)) {
            (Some(head), Some(tail)) => Some(head + tail),
            _ => None,
        },
    decreases a.len(),
{
    if a.len() == 0 {
        assert(a + b =~= b);
        if let Some(tail) = groups_text(b, v4_end) {
            assert(Seq::<u16>::empty() + tail =~= tail);
        }
    } else {
        lemma_groups_join(a.skip(1), b, v4_end);
        assert((a + b).skip(1) =~= a.skip(1) + b);
        assert((a + b)[0] == a[0]);
        match (group_text(a[0]), groups_text(a.skip(1), false), groups_text(b, v4_end)) {
            (Some(group), Some(head), Some(tail)) => {
                assert(seq![group] + (head + tail) =~= seq![group] + head + tail);
            },
            _ => {},
        }
    }
}

/// Law: groups on both sides of a colon are read one after the other, and an
/// IPv4 address can stand only at the end.
pub proof fn groups_are_joined_by_colons(a: Seq<u8>, b: Seq<u8>, v4_end: bool)
    requires
        a.len() > 0,
        b.len() > 0,
    ensures
        run_text(a + seq![COLON] + b, v4_end) == match (run_text(a, false), run_text(b, v4_end)) {
            (Some(head), Some(tail)) => Some(head + tail),
            _ => None,
        },
{
    pieces_of_joined(a, COLON, b);
    let rest = lemma_first_piece(b, COLON);
    lemma_groups_join(pieces(a, COLON), pieces(b, COLON), v4_end);
}

/// Law: nothing on one side of a colon is no group.
pub proof fn empty_group_is_refused(s: Seq<u8>, v4_end: bool)
    ensures
        run_text(seq![COLON] + s, v4_end) is None,
        run_text(s + seq![COLON], v4_end) is None,
        run_text(Seq::empty(), v4_end) == Some(Seq::<u16>::empty()),
{
    let none = Seq::<u8>::empty();
    lemma_single_piece(none, COLON);
    lemma_no_dots(none);
    let rest = lemma_first_piece(s, COLON);
    pieces_of_joined(none, COLON, s);
    assert(none + seq![COLON] + s =~= seq![COLON] + s);
    assert(pieces(seq![COLON] + s, COLON)[0] == none);
    pieces_of_joined(s, COLON, none);
    assert(s + seq![COLON] + none =~= s + seq![COLON]);
    lemma_groups_join(pieces(s, COLON), seq![none], v4_end);
    assert(seq![none][0] == none);
    assert(groups_text(seq![none], v4_end) is None);
}

/// Law: what stands alone between colons is a group, or, where it may be one,
/// an IPv4 address, whose octets make two groups.
pub proof fn single_group_is_read(s: Seq<u8>, v4_end: bool, groups: Seq<u16>)
    requires
        s.len() > 0,
        forall|i: int| 0 <= i < s.len() ==> s[i] != COLON,
    ensures
        run_text(s, v4_end) == Some(groups) <==> match v4_text(s) {
            Some(octets) => v4_end && groups.len() == 2 && groups[0] == octets[0] * 256 + octets[1]
                && groups[1] == octets[2] * 256 + octets[3],
            None => groups.len() == 1 && group_text(s) == Some(groups[0]),
        },
{
    lemma_single_piece(s, COLON);
    let parts = seq![s];
    assert(pieces(s, COLON) == parts);
    assert(parts[0] == s);
    assert(groups_text(parts.skip(1), v4_end) == Some(Seq::<u16>::empty()));
    match v4_text(s) {
        Some(octets) => {
            let two = seq![
                (octets[0] * 256 + octets[1]) as u16,
                (octets[2] * 256 + octets[3]) as u16,
            ];
            if groups.len() == 2 && groups[0] == two[0] && groups[1] == two[1] {
                assert(groups =~= two);
            }
            ipv4_is_written_with_dots(s, octets);
            lemma_dotted(octets);
            if group_text(s) is Some {
                let k = decimal(octets[0] as nat).len() as int;
                assert(s[k] == DOT);
                assert(is_digit(s[k], 16));
            }
        },
        None => {
            if let Some(group) = group_text(s) {
                assert(seq![group] + Seq::<u16>::empty() =~= seq![group]);
                if groups.len() == 1 && groups[0] == group {
                    assert(groups =~= seq![group]);
                }
            }
        },
    }
}

/// An IPv4 address with dots holds no colon.
proof fn lemma_dotted(octets: Seq<u8>)
    ensures
        is_free(dotted(octets), COLON),
        dotted(octets)[decimal(octets[0] as nat).len() as int] == DOT,
        dotted(octets).len() > 0,
        decimal(octets[0] as nat).len() < dotted(octets).len(),
{
    lemma_decimal_without_colon(octets[0] as nat);
    lemma_decimal_without_colon(octets[1] as nat);
    lemma_decimal_without_colon(octets[2] as nat);
    lemma_decimal_without_colon(octets[3] as nat);
}

/// A number in decimal holds no colon.
proof fn lemma_decimal_without_colon(n: nat)
    ensures
        is_free(decimal(n), COLON),
{
    decimal_reads_back(n);
    assert(forall|i: int| 0 <= i < decimal(n).len() ==> is_digit(#[trigger] decimal(n)[i], 10));
}

/// Law: an IPv6 address without a double colon is read from eight groups, and
/// from nothing else.
pub proof fn ipv6_has_eight_groups(s: Seq<u8>, groups: Seq<u16>)
    requires
        forall|i: int|
            #![trigger s[i]]
            0 <= i && i + 1 < s.len() && s[i] == COLON ==> s[i + 1] != COLON,
    ensures
        v6_text(s) == Some(groups) <==> groups.len() == 8 && run_text(s, true) == Some(groups),
{
    let gap = seq![COLON, COLON];
    lemma_first_part_holds(s, gap);
    if let Some(i) = first_part(s, gap) {
        lemma_gap_at(s, i);
        assert(s[i] == COLON);
    }
}

/// Law: the first double colon of an IPv6 address stands for as many zero
/// groups as are missing to eight, of which there is at least one, between the
/// groups before it and those after it.
pub proof fn double_colon_stands_for_zeros(a: Seq<u8>, b: Seq<u8>, groups: Seq<u16>)
    requires
        forall|i: int|
            #![trigger a[i]]
            0 <= i < a.len() && a[i] == COLON ==> i + 1 < a.len() && a[i + 1] != COLON,
    ensures
        v6_text(a + seq![COLON, COLON] + b) == Some(groups) <==> match (
            run_text(a, false),
            run_text(b, true),
        ) {
            (Some(head), Some(tail)) => {
                &&& head.len() + tail.len() < 8
                &&& groups.len() == 8
                &&& groups.take(head.len() as int) == head
                &&& groups.skip(8 - tail.len()) == tail
                &&& forall|k: int| head.len() <= k < 8 - tail.len() ==> groups[k] == 0
            },
            _ => false,
        },
{
    let gap = seq![COLON, COLON];
    let s = a + gap + b;
    if occurs(a, gap) {
        let i = choose|i: int| occurs_at(a, gap, i);
        lemma_gap_at(a, i);
        assert(a[i] == COLON);
    }
    if a.len() > 0 && a.last() == COLON {
        assert(a[a.len() - 1] == COLON);
    }
    lemma_first_gap(a, b);
    assert(s.take(a.len() as int) =~= a);
    assert(s.skip(a.len() as int + 2) =~= b);
    match (run_text(a, false), run_text(b, true)) {
        (Some(head), Some(tail)) => {
            if head.len() + tail.len() < 8 {
                let whole = head + Seq::new((8 - head.len() - tail.len()) as nat, |k: int| 0u16)
                    + tail;
                assert(whole.take(head.len() as int) =~= head);
                assert(whole.skip(8 - tail.len()) =~= tail);
                if groups.len() == 8 && groups.take(head.len() as int) == head && groups.skip(
                    8 - tail.len(),
                ) == tail && forall|k: int| head.len() <= k < 8 - tail.len() ==> groups[k] == 0 {
                    assert forall|k: int| 0 <= k < 8 implies groups[k] == whole[k] by {
                        if k < head.len() {
                            assert(groups[k] == groups.take(head.len() as int)[k]);
                        } else if k >= 8 - tail.len() {
                            assert(groups[k] == groups.skip(8 - tail.len())[k - 8 + tail.len()]);
                        }
                    }
                    assert(groups =~= whole);
                }
            }
        },
        _ => {},
    }
}

/// Law: text is read as an IPv4 address where it is one, as an IPv6 address
/// where it is one, and never is both.
pub proof fn ip_is_of_one_version(s: Seq<u8>, octets: Seq<u8>, groups: Seq<u16>)
    ensures
        ip_text(s) == Some(IpView::V4(octets)) <==> v4_text(s) == Some(octets),
        ip_text(s) == Some(IpView::V6(groups)) <==> v6_text(s) == Some(groups),
        ip_text(s) is None <==> v4_text(s) is None && v6_text(s) is None,
{
    if let Some(dots) = v4_text(s) {
        ipv4_is_written_with_dots(s, dots);
        lemma_dotted(dots);
        if let Some(read) = v6_text(s) {
            ipv6_has_eight_groups(s, read);
            single_group_is_read(s, true, read);
        }
    }
}

/// Law: an IP address is made of the numbers that it holds.
pub proof fn ip_is_what_it_holds(octets: [u8; 4], groups: [u16; 8])
    ensures
        IpAddr::V4(octets)@ == IpView::V4(octets@),
        IpAddr::V6(groups)@ == IpView::V6(groups@),
{
}

} // verus!
