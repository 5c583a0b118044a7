//! What holds of replies on the wire: nothing that was written is lost.

use vstd::prelude::*;

use crate::addr::{IpAddr, IpView, SocketAddr};
use crate::ascii::{COLON, CR, DIGIT_0, DIGIT_9, LF, LOWER_D, LOWER_E, LOWER_I, MINUS};
use crate::bytes::{
    after, before, first_index, first_part, is_free, lemma_first_index, lemma_first_part_holds,
    lemma_single_piece, lemma_text_ascii, lemma_text_injective, occurs, occurs_at, pieces,
    pieces_of_joined, text,
};
use crate::http::{framed, head_end};
use crate::number::{
    decimal, decimal_reads_back, is_digit, is_number, number_value, signed_decimal,
};
use crate::response::{
    compact, compact_addr, failure_encoding, lemma_keys_in_order, response_encoding,
};
use crate::text_laws::text_is_cut_at_its_separator;
use crate::wire::{
    bytes_encoding, dict_encoding, entries_encoding, in_key_order, value_encoding, ValueView,
};

verus! {

/// A number in decimal starts with a digit and holds nothing but digits.
proof fn lemma_decimal_digits(n: nat)
    ensures
        decimal(n).len() > 0,
        forall|i: int| 0 <= i < decimal(n).len() ==> DIGIT_0 <= #[trigger] decimal(n)[i] <= DIGIT_9,
{
    decimal_reads_back(n);
    assert forall|i: int| 0 <= i < decimal(n).len() implies DIGIT_0 <= #[trigger] decimal(n)[i]
        <= DIGIT_9 by {
        assert(is_digit(decimal(n)[i], 10));
    }
}

/// A number in decimal can be told from what follows it, if that is no digit.
proof fn lemma_decimal_ends(n: nat, m: nat, end: u8, a: Seq<u8>, b: Seq<u8>)
    requires
        !(DIGIT_0 <= end <= DIGIT_9),
        decimal(n) + seq![end] + a == decimal(m) + seq![end] + b,
    ensures
        n == m,
        a == b,
{
    let s = decimal(n) + seq![end] + a;
    let t = decimal(m) + seq![end] + b;
    lemma_decimal_digits(n);
    lemma_decimal_digits(m);
    assert(forall|i: int| 0 <= i < decimal(n).len() ==> s[i] == decimal(n)[i]);
    assert(forall|i: int| 0 <= i < decimal(m).len() ==> t[i] == decimal(m)[i]);
    lemma_first_index(s, end, decimal(n).len() as int);
    lemma_first_index(t, end, decimal(m).len() as int);
    assert(decimal(n) =~= s.take(first_index(s, end)));
    assert(decimal(m) =~= t.take(first_index(t, end)));
    decimal_reads_back(n);
    decimal_reads_back(m);
    assert(a =~= s.skip(first_index(s, end) + 1));
    assert(b =~= t.skip(first_index(t, end) + 1));
}

/// The encoding of a byte string can be told from what follows it.
proof fn lemma_bytes_end(x: Seq<u8>, y: Seq<u8>, a: Seq<u8>, b: Seq<u8>)
    requires
        bytes_encoding(x) + a == bytes_encoding(y) + b,
    ensures
        x == y,
        a == b,
{
    assert(bytes_encoding(x) + a =~= decimal(x.len()) + seq![COLON] + (x + a));
    assert(bytes_encoding(y) + b =~= decimal(y.len()) + seq![COLON] + (y + b));
    lemma_decimal_ends(x.len(), y.len(), COLON, x + a, y + b);
    assert(x =~= (x + a).take(x.len() as int));
    assert(y =~= (y + b).take(x.len() as int));
    assert(a =~= (x + a).skip(x.len() as int));
    assert(b =~= (y + b).skip(x.len() as int));
}

/// The encoding of a value can be told from what follows it.
proof fn lemma_value_ends(x: ValueView, y: ValueView, a: Seq<u8>, b: Seq<u8>)
    requires
        value_encoding(x) + a == value_encoding(y) + b,
    ensures
        x == y,
        a == b,
{
    let s = value_encoding(x) + a;
    let t = value_encoding(y) + b;
    match (x, y) {
        (ValueView::Bytes(x), ValueView::Bytes(y)) => {
            lemma_bytes_end(x, y, a, b);
        },
        (ValueView::Int(n), ValueView::Int(m)) => {
            let n_abs = (if n < 0 {
                -n
            } else {
                n
            }) as nat;
            let m_abs = (if m < 0 {
                -m
            } else {
                m
            }) as nat;
            lemma_decimal_digits(n_abs);
            lemma_decimal_digits(m_abs);
            assert(s[1] == signed_decimal(n)[0]);
            assert(t[1] == signed_decimal(m)[0]);
            assert(n < 0 <==> s[1] == MINUS);
            assert(m < 0 <==> t[1] == MINUS);
            let start = if n < 0 {
                2int
            } else {
                1int
            };
            assert(s.skip(start) =~= decimal(n_abs) + seq![LOWER_E] + a);
            assert(t.skip(start) =~= decimal(m_abs) + seq![LOWER_E] + b);
            lemma_decimal_ends(n_abs, m_abs, LOWER_E, a, b);
        },
        (ValueView::Int(n), ValueView::Bytes(y)) => {
            lemma_decimal_digits(y.len());
            assert(s[0] == LOWER_I);
            assert(t[0] == decimal(y.len())[0]);
        },
        (ValueView::Bytes(x), ValueView::Int(m)) => {
            lemma_decimal_digits(x.len());
            assert(t[0] == LOWER_I);
            assert(s[0] == decimal(x.len())[0]);
        },
    }
}

/// Entries can be told from the end of their dictionary.
proof fn lemma_entries_end(a: Seq<(Seq<u8>, ValueView)>, b: Seq<(Seq<u8>, ValueView)>)
    requires
        entries_encoding(a) + seq![LOWER_E] == entries_encoding(b) + seq![LOWER_E],
    ensures
        a == b,
    decreases a.len(),
{
    let end = seq![LOWER_E];
    let s = entries_encoding(a) + end;
    let t = entries_encoding(b) + end;
    if a.len() > 0 {
        lemma_decimal_digits(a[0].0.len());
        assert(s[0] == decimal(a[0].0.len())[0]);
    } else {
        assert(s[0] == LOWER_E);
    }
    if b.len() > 0 {
        lemma_decimal_digits(b[0].0.len());
        assert(t[0] == decimal(b[0].0.len())[0]);
    } else {
        assert(t[0] == LOWER_E);
    }
    if a.len() > 0 && b.len() > 0 {
        let a_rest = entries_encoding(a.skip(1)) + end;
        let b_rest = entries_encoding(b.skip(1)) + end;
        assert(s =~= bytes_encoding(a[0].0) + (value_encoding(a[0].1) + a_rest));
        assert(t =~= bytes_encoding(b[0].0) + (value_encoding(b[0].1) + b_rest));
        lemma_bytes_end(
            a[0].0,
            b[0].0,
            value_encoding(a[0].1) + a_rest,
            value_encoding(b[0].1) + b_rest,
        );
        lemma_value_ends(a[0].1, b[0].1, a_rest, b_rest);
        lemma_entries_end(a.skip(1), b.skip(1));
        assert(a =~= seq![a[0]] + a.skip(1));
        assert(b =~= seq![b[0]] + b.skip(1));
    } else {
        assert(a =~= b);
    }
}

/// Law: different dictionaries are different on the wire, so that a reader
/// can give back what was written.
pub proof fn dict_encoding_is_injective(
    a: Seq<(Seq<u8>, ValueView)>,
    b: Seq<(Seq<u8>, ValueView)>,
)
    requires
        dict_encoding(a) == dict_encoding(b),
    ensures
        a == b,
{
    assert(dict_encoding(a).skip(1) =~= entries_encoding(a) + seq![LOWER_E]);
    assert(dict_encoding(b).skip(1) =~= entries_encoding(b) + seq![LOWER_E]);
    lemma_entries_end(a, b);
}

/// Law: a reply on the wire tells its interval, its counts and its peers in
/// compact form.
pub proof fn response_encoding_tells_all(
    interval1: int,
    complete1: int,
    incomplete1: int,
    peers1: Seq<SocketAddr>,
    interval2: int,
    complete2: int,
    incomplete2: int,
    peers2: Seq<SocketAddr>,
)
    requires
        response_encoding(interval1, complete1, incomplete1, peers1) == response_encoding(
            interval2,
            complete2,
            incomplete2,
            peers2,
        ),
    ensures
        interval1 == interval2,
        complete1 == complete2,
        incomplete1 == incomplete2,
        compact(peers1) == compact(peers2),
{
    let a = seq![
        (text("complete"), ValueView::Int(complete1)),
        (text("incomplete"), ValueView::Int(incomplete1)),
        (text("interval"), ValueView::Int(interval1)),
        (text("peers"), ValueView::Bytes(compact(peers1))),
    ];
    let b = seq![
        (text("complete"), ValueView::Int(complete2)),
        (text("incomplete"), ValueView::Int(incomplete2)),
        (text("interval"), ValueView::Int(interval2)),
        (text("peers"), ValueView::Bytes(compact(peers2))),
    ];
    dict_encoding_is_injective(a, b);
    assert(a[0].1 == b[0].1);
    assert(a[1].1 == b[1].1);
    assert(a[2].1 == b[2].1);
    assert(a[3].1 == b[3].1);
}

/// Law: a refusal on the wire tells its reason.
pub proof fn failure_encoding_tells_reason(reason1: &str, reason2: &str)
    requires
        failure_encoding(text(reason1)) == failure_encoding(text(reason2)),
    ensures
        reason1@ == reason2@,
{
    let a = seq![(text("failure reason"), ValueView::Bytes(text(reason1)))];
    let b = seq![(text("failure reason"), ValueView::Bytes(text(reason2)))];
    dict_encoding_is_injective(a, b);
    assert(a[0].1 == b[0].1);
    lemma_text_injective(reason1, reason2);
}

/// Law: no refusal can be taken for a reply.
pub proof fn failure_is_no_response(
    reason: Seq<u8>,
    interval: int,
    complete: int,
    incomplete: int,
    peers: Seq<SocketAddr>,
)
    ensures
        failure_encoding(reason) != response_encoding(interval, complete, incomplete, peers),
{
    let a = seq![(text("failure reason"), ValueView::Bytes(reason))];
    let b = seq![
        (text("complete"), ValueView::Int(complete)),
        (text("incomplete"), ValueView::Int(incomplete)),
        (text("interval"), ValueView::Int(interval)),
        (text("peers"), ValueView::Bytes(compact(peers))),
    ];
    if failure_encoding(reason) == response_encoding(interval, complete, incomplete, peers) {
        dict_encoding_is_injective(a, b);
        assert(a.len() == b.len());
    }
}

/// Law: a response tells its body.
pub proof fn framed_tells_body(a: Seq<u8>, b: Seq<u8>)
    requires
        framed(a) == framed(b),
    ensures
        a == b,
{
    let head = text("HTTP/1.0 200 OK\r\nContent-Type: text/plain\r\nContent-Length: ");
    let close = text("\r\nConnection: close\r\n\r\n");
    reveal_strlit("\r\nConnection: close\r\n\r\n");
    lemma_text_ascii("\r\nConnection: close\r\n\r\n");
    assert(close[0] == CR);
    let rest = close.skip(1);
    assert(close =~= seq![CR] + rest);
    assert(framed(a).skip(head.len() as int) =~= decimal(a.len()) + seq![CR] + (rest + a));
    assert(framed(b).skip(head.len() as int) =~= decimal(b.len()) + seq![CR] + (rest + b));
    lemma_decimal_ends(a.len(), b.len(), CR, rest + a, rest + b);
    assert(a =~= (rest + a).skip(rest.len() as int));
    assert(b =~= (rest + b).skip(rest.len() as int));
}

/// The IPv4 addresses among `peers`, in order.
pub open spec fn v4_peers(peers: Seq<SocketAddr>) -> Seq<SocketAddr> {
    peers.filter(|peer: SocketAddr| peer.ip is V4)
}

/// Law: the compact form of a list holds its IPv4 addresses and no others,
/// each in six bytes, at its place in the list.
pub proof fn compact_holds_v4_peers(peers: Seq<SocketAddr>, i: int)
    requires
        0 <= i < v4_peers(peers).len(),
    ensures
        compact(peers).len() == 6 * v4_peers(peers).len(),
        compact(peers).subrange(6 * i, 6 * i + 6) == compact_addr(v4_peers(peers)[i]),
    decreases peers.len(),
{
    let is_v4 = |peer: SocketAddr| peer.ip is V4;
    reveal(Seq::filter);
    lemma_compact_len(peers);
    lemma_compact_len(peers.drop_last());
    let init = v4_peers(peers.drop_last());
    assert(v4_peers(peers) == if is_v4(peers.last()) {
        init.push(peers.last())
    } else {
        init
    });
    if i < init.len() {
        compact_holds_v4_peers(peers.drop_last(), i);
        assert(compact(peers).subrange(6 * i, 6 * i + 6) =~= compact(
            peers.drop_last(),
        ).subrange(6 * i, 6 * i + 6));
    } else {
        assert(compact(peers).subrange(6 * i, 6 * i + 6) =~= compact_addr(peers.last()));
    }
}

/// The compact form of a list has six bytes for each of its IPv4 addresses.
pub proof fn lemma_compact_len(peers: Seq<SocketAddr>)
    ensures
        compact(peers).len() == 6 * v4_peers(peers).len(),
    decreases peers.len(),
{
    reveal(Seq::filter);
    if peers.len() > 0 {
        lemma_compact_len(peers.drop_last());
    }
}

/// Law: the compact form of an IPv4 address tells its octets and its port.
pub proof fn compact_addr_tells_all(a: SocketAddr, b: SocketAddr)
    requires
        a.ip is V4,
        b.ip is V4,
        compact_addr(a) == compact_addr(b),
    ensures
        a.ip@ == b.ip@,
        a.port == b.port,
{
    let x = compact_addr(a);
    let y = compact_addr(b);
    assert(a.ip->V4_0@ =~= x.take(4));
    assert(b.ip->V4_0@ =~= y.take(4));
    assert(x[4] == (a.port / 256) as u8 && x[5] == (a.port % 256) as u8);
    assert(y[4] == (b.port / 256) as u8 && y[5] == (b.port % 256) as u8);
}

/// Law: an IPv6 address has no compact form.
pub proof fn ipv6_has_no_compact_form(groups: [u16; 8], port: u16)
    ensures
        compact_addr(SocketAddr { ip: IpAddr::V6(groups), port }).len() == 0,
{
}

/// Law: the compact form of an IPv4 address is its four octets and then its
/// port, most significant byte first.
pub proof fn compact_addr_is_octets_and_port(octets: [u8; 4], port: u16)
    ensures
        ({
            let b = compact_addr(SocketAddr { ip: IpAddr::V4(octets), port });
            &&& b.len() == 6
            &&& b.take(4) == octets@
            &&& b[4] * 256 + b[5] == port
        }),
{
    let b = compact_addr(SocketAddr { ip: IpAddr::V4(octets), port });
    assert(b.take(4) =~= octets@);
}

/// Law: lists one after the other have their compact forms one after the
/// other, and a single address has its own.
pub proof fn compact_forms_join(a: Seq<SocketAddr>, b: Seq<SocketAddr>, addr: SocketAddr)
    ensures
        compact(a + b) == compact(a) + compact(b),
        compact(seq![addr]) == compact_addr(addr),
    decreases b.len(),
{
    assert(compact(seq![addr].drop_last()) =~= Seq::empty());
    assert(compact(seq![addr]) =~= compact_addr(addr));
    if b.len() == 0 {
        assert(a + b =~= a);
        assert(compact(a) + compact(b) =~= compact(a));
    } else {
        compact_forms_join(a, b.drop_last(), addr);
        assert((a + b).drop_last() =~= a + b.drop_last());
        assert(compact(a + b) =~= compact(a) + compact(b));
    }
}

/// Law: six bytes after six bytes, the compact form of a list gives the octets
/// and the port of its IPv4 addresses, in their order.
pub proof fn compact_form_reads_back(peers: Seq<SocketAddr>, i: int)
    requires
        0 <= i < v4_peers(peers).len(),
    ensures
        compact(peers).len() == 6 * v4_peers(peers).len(),
        v4_peers(peers)[i].ip@ == IpView::V4(compact(peers).subrange(6 * i, 6 * i + 4)),
        v4_peers(peers)[i].port == compact(peers)[6 * i + 4] * 256 + compact(peers)[6 * i + 5],
{
    let addr = v4_peers(peers)[i];
    peers.lemma_filter_pred(|peer: SocketAddr| peer.ip is V4, i);
    compact_holds_v4_peers(peers, i);
    let c = compact(peers);
    let six = c.subrange(6 * i, 6 * i + 6);
    compact_addr_is_octets_and_port(addr.ip->V4_0, addr.port);
    assert(addr == (SocketAddr { ip: IpAddr::V4(addr.ip->V4_0), port: addr.port }));
    assert(six.take(4) =~= c.subrange(6 * i, 6 * i + 4));
    assert(six[4] == c[6 * i + 4] && six[5] == c[6 * i + 5]);
}

/// Law: a byte string on the wire reads back: before its first colon stands its
/// length in decimal, and after it so many bytes, which are the string,
/// whatever follows.
pub proof fn bytes_encoding_reads_back(bytes: Seq<u8>, rest: Seq<u8>)
    ensures
        ({
            let s = bytes_encoding(bytes) + rest;
            &&& is_number(before(s, COLON), 10)
            &&& number_value(before(s, COLON), 10) == bytes.len()
            &&& after(s, COLON) == bytes + rest
        }),
{
    let s = bytes_encoding(bytes) + rest;
    lemma_decimal_digits(bytes.len());
    decimal_reads_back(bytes.len());
    assert(s =~= decimal(bytes.len()) + seq![COLON] + (bytes + rest));
    text_is_cut_at_its_separator(decimal(bytes.len()), COLON, bytes + rest);
}

/// Law: an integer on the wire reads back: between an `i` and the first `e`
/// stands the integer in decimal, whatever follows.
pub proof fn int_encoding_reads_back(n: int, rest: Seq<u8>)
    ensures
        ({
            let s = value_encoding(ValueView::Int(n)) + rest;
            &&& s[0] == LOWER_I
            &&& before(s.skip(1), LOWER_E) == signed_decimal(n)
            &&& after(s.skip(1), LOWER_E) == rest
        }),
{
    let s = value_encoding(ValueView::Int(n)) + rest;
    let size = (if n < 0 {
        -n
    } else {
        n
    }) as nat;
    lemma_decimal_digits(size);
    assert forall|i: int| 0 <= i < signed_decimal(n).len() implies signed_decimal(n)[i]
        != LOWER_E by {
        if n < 0 && i > 0 {
            assert(signed_decimal(n)[i] == decimal(size)[i - 1]);
        }
    }
    assert(s.skip(1) =~= signed_decimal(n) + seq![LOWER_E] + rest);
    text_is_cut_at_its_separator(signed_decimal(n), LOWER_E, rest);
}

/// The keys of a reply on the wire.
proof fn lemma_key_encodings()
    ensures
        bytes_encoding(text("complete")) == text("8:complete"),
        bytes_encoding(text("incomplete")) == text("10:incomplete"),
        bytes_encoding(text("interval")) == text("8:interval"),
        bytes_encoding(text("peers")) == text("5:peers"),
        bytes_encoding(text("failure reason")) == text("14:failure reason"),
{
    reveal_strlit("complete");
    reveal_strlit("incomplete");
    reveal_strlit("interval");
    reveal_strlit("peers");
    reveal_strlit("failure reason");
    reveal_strlit("8:complete");
    reveal_strlit("10:incomplete");
    reveal_strlit("8:interval");
    reveal_strlit("5:peers");
    reveal_strlit("14:failure reason");
    lemma_text_ascii("complete");
    lemma_text_ascii("incomplete");
    lemma_text_ascii("interval");
    lemma_text_ascii("peers");
    lemma_text_ascii("failure reason");
    lemma_text_ascii("8:complete");
    lemma_text_ascii("10:incomplete");
    lemma_text_ascii("8:interval");
    lemma_text_ascii("5:peers");
    lemma_text_ascii("14:failure reason");
    reveal_with_fuel(decimal, 3);
    assert(bytes_encoding(text("complete")) =~= text("8:complete"));
    assert(bytes_encoding(text("incomplete")) =~= text("10:incomplete"));
    assert(bytes_encoding(text("interval")) =~= text("8:interval"));
    assert(bytes_encoding(text("peers")) =~= text("5:peers"));
    assert(bytes_encoding(text("failure reason")) =~= text("14:failure reason"));
}

/// Text joined from its end is the same as joined from its start.
proof fn lemma_joined(s: Seq<u8>, a: Seq<u8>, b: Seq<u8>, c: Seq<u8>, d: Seq<u8>, t: Seq<u8>)
    ensures
        s + (a + (b + (c + d))) + t == s + a + b + c + d + t,
{
    assert(s + (a + (b + (c + d))) + t =~= s + a + b + c + d + t);
}

/// Law: a reply on the wire is laid out so: a dictionary with the counts of
/// seeders and of leechers, the interval, and the peers in compact form, each
/// under its key.
pub proof fn reply_is_laid_out(
    interval: int,
    complete: int,
    incomplete: int,
    peers: Seq<SocketAddr>,
)
    ensures
        response_encoding(interval, complete, incomplete, peers) == seq![LOWER_D] + (text(
            "8:complete",
        ) + (seq![LOWER_I] + signed_decimal(complete) + seq![LOWER_E])) + (text("10:incomplete") + (
        seq![LOWER_I] + signed_decimal(incomplete) + seq![LOWER_E])) + (text("8:interval") + (
        seq![LOWER_I] + signed_decimal(interval) + seq![LOWER_E])) + (text("5:peers") + (decimal(
            compact(peers).len(),
        ) + seq![COLON] + compact(peers))) + seq![LOWER_E],
{
    let all = seq![
        (text("complete"), ValueView::Int(complete)),
        (text("incomplete"), ValueView::Int(incomplete)),
        (text("interval"), ValueView::Int(interval)),
        (text("peers"), ValueView::Bytes(compact(peers))),
    ];
    lemma_key_encodings();
    let last3 = all.skip(1);
    let last2 = last3.skip(1);
    let last1 = last2.skip(1);
    assert(last3[0] == all[1] && last2[0] == all[2] && last1[0] == all[3]);
    let a = text("8:complete") + value_encoding(ValueView::Int(complete));
    let b = text("10:incomplete") + value_encoding(ValueView::Int(incomplete));
    let c = text("8:interval") + value_encoding(ValueView::Int(interval));
    let d = text("5:peers") + value_encoding(ValueView::Bytes(compact(peers)));
    assert(entries_encoding(last1) == d) by {
        assert(entries_encoding(last1.skip(1)) =~= Seq::empty());
        assert(d + Seq::<u8>::empty() =~= d);
    }
    assert(entries_encoding(last2) == c + d);
    assert(entries_encoding(last3) == b + (c + d));
    assert(entries_encoding(all) == a + (b + (c + d)));
    lemma_joined(seq![LOWER_D], a, b, c, d, seq![LOWER_E]);
}

/// Law: a refusal on the wire is laid out so: a dictionary with the whole
/// reason, and nothing else.
pub proof fn refusal_is_laid_out(reason: Seq<u8>)
    ensures
        failure_encoding(reason) == seq![LOWER_D] + text("14:failure reason") + decimal(
            reason.len(),
        ) + seq![COLON] + reason + seq![LOWER_E],
{
    let all = seq![(text("failure reason"), ValueView::Bytes(reason))];
    lemma_key_encodings();
    assert(entries_encoding(all.skip(1)) =~= Seq::empty());
    assert(failure_encoding(reason) =~= seq![LOWER_D] + text("14:failure reason") + decimal(
        reason.len(),
    ) + seq![COLON] + reason + seq![LOWER_E]);
}

/// Law: whoever reads a reply as a dictionary finds in it the interval, the
/// counts and the peers that it was written with, and nothing else, in the
/// order of the keys.
pub proof fn reply_reads_back(
    interval: int,
    complete: int,
    incomplete: int,
    peers: Seq<SocketAddr>,
    entries: Seq<(Seq<u8>, ValueView)>,
)
    requires
        dict_encoding(entries) == response_encoding(interval, complete, incomplete, peers),
    ensures
        entries.len() == 4,
        entries.contains((text("interval"), ValueView::Int(interval))),
        entries.contains((text("complete"), ValueView::Int(complete))),
        entries.contains((text("incomplete"), ValueView::Int(incomplete))),
        entries.contains((text("peers"), ValueView::Bytes(compact(peers)))),
        in_key_order(entries),
{
    let all = seq![
        (text("complete"), ValueView::Int(complete)),
        (text("incomplete"), ValueView::Int(incomplete)),
        (text("interval"), ValueView::Int(interval)),
        (text("peers"), ValueView::Bytes(compact(peers))),
    ];
    dict_encoding_is_injective(entries, all);
    assert(all[0].0 == text("complete"));
    assert(all[1].0 == text("incomplete"));
    assert(all[2].0 == text("interval"));
    assert(all[3].0 == text("peers"));
    lemma_keys_in_order();
}

/// Law: whoever reads a refusal as a dictionary finds in it the reason, and
/// nothing else.
pub proof fn refusal_reads_back(reason: Seq<u8>, entries: Seq<(Seq<u8>, ValueView)>)
    requires
        dict_encoding(entries) == failure_encoding(reason),
    ensures
        entries == seq![(text("failure reason"), ValueView::Bytes(reason))],
{
    dict_encoding_is_injective(
        entries,
        seq![(text("failure reason"), ValueView::Bytes(reason))],
    );
}

/// The first two lines of a response, and the name of the third.
spec fn frame_start() -> Seq<u8> {
    text("HTTP/1.0 200 OK\r\nContent-Type: text/plain\r\nContent-Length: ")
}

/// The end of the third line of a response, its fourth line and the empty one.
spec fn frame_end() -> Seq<u8> {
    text("\r\nConnection: close\r\n\r\n")
}

/// Where the start of a response has its carriage returns, and where it names
/// the length.
proof fn lemma_frame_start()
    ensures
        frame_start().len() == 59,
        forall|j: int|
            0 <= j < 59 ==> (frame_start()[j] == CR <==> j == 15 || j == 41),
        frame_start()[17] != CR,
        frame_start()[43] != CR,
        frame_start().take(15) == text("HTTP/1.0 200 OK"),
        frame_start().subrange(16, 41) == text("\nContent-Type: text/plain"),
        frame_start().subrange(42, 59) == text("\nContent-Length: "),
        frame_start().subrange(43, 59) == text("Content-Length: "),
        text("Content-Length: ").len() == 16,
        text("Content-Length: ")[0] == 0x43,
        text("Content-Length: ")[8] == 0x4c,
        forall|j: int| 0 <= j < 43 ==> (frame_start()[j] == 0x43 ==> j == 17),
        frame_start()[25] != 0x4c,
{
    reveal_strlit("HTTP/1.0 200 OK\r\nContent-Type: text/plain\r\nContent-Length: ");
    reveal_strlit("HTTP/1.0 200 OK");
    reveal_strlit("\nContent-Type: text/plain");
    reveal_strlit("\nContent-Length: ");
    reveal_strlit("Content-Length: ");
    lemma_text_ascii("HTTP/1.0 200 OK\r\nContent-Type: text/plain\r\nContent-Length: ");
    lemma_text_ascii("HTTP/1.0 200 OK");
    lemma_text_ascii("\nContent-Type: text/plain");
    lemma_text_ascii("\nContent-Length: ");
    lemma_text_ascii("Content-Length: ");
    assert(frame_start().take(15) =~= text("HTTP/1.0 200 OK"));
    assert(frame_start().subrange(16, 41) =~= text("\nContent-Type: text/plain"));
    assert(frame_start().subrange(42, 59) =~= text("\nContent-Length: "));
    assert(frame_start().subrange(43, 59) =~= text("Content-Length: "));
}

/// Where the end of a head has its carriage returns.
proof fn lemma_frame_end()
    ensures
        frame_end().len() == 23,
        forall|j: int| 0 <= j < 19 ==> (frame_end()[j] == CR <==> j == 0),
        frame_end()[0] == CR,
        frame_end()[2] != CR,
        frame_end().subrange(1, 19) == text("\nConnection: close"),
        frame_end().skip(19) == head_end(),
{
    reveal_strlit("\r\nConnection: close\r\n\r\n");
    reveal_strlit("\nConnection: close");
    lemma_text_ascii("\r\nConnection: close\r\n\r\n");
    lemma_text_ascii("\nConnection: close");
    assert(frame_end().subrange(1, 19) =~= text("\nConnection: close"));
    assert(frame_end().skip(19) =~= head_end());
}

/// Law: a response tells the length of its body: after the first
/// `Content-Length: ` stands, up to the next carriage return, a decimal number
/// that is the length of the body.
pub proof fn content_length_is_that_of_the_body(body: Seq<u8>)
    ensures
        match first_part(framed(body), text("Content-Length: ")) {
            Some(i) => {
                let digits = before(framed(body).skip(i + 16), CR);
                &&& is_number(digits, 10)
                &&& number_value(digits, 10) == body.len()
            },
            None => false,
        },
{
    let r = framed(body);
    let name = text("Content-Length: ");
    lemma_frame_start();
    lemma_frame_end();
    lemma_decimal_digits(body.len());
    decimal_reads_back(body.len());
    assert(forall|j: int| 0 <= j < 59 ==> r[j] == frame_start()[j]);
    lemma_first_part_holds(r, name);
    assert(r.subrange(43, 59) =~= frame_start().subrange(43, 59));
    assert(occurs_at(r, name, 43));
    assert(occurs(r, name));
    let i = first_part(r, name).unwrap();
    assert(i <= 43);
    if i < 43 {
        assert(r.subrange(i, i + 16)[0] == r[i]);
        assert(r.subrange(i, i + 16)[8] == r[i + 8]);
    }
    let rest = frame_end().skip(1) + body;
    assert(r.skip(59) =~= decimal(body.len()) + seq![CR] + rest);
    text_is_cut_at_its_separator(decimal(body.len()), CR, rest);
}

/// Law: whoever reads a response up to its first empty line finds after it the
/// whole body, and before it these lines, of which one gives the length of the
/// body.
pub proof fn response_reads_back(body: Seq<u8>)
    ensures
        match first_part(framed(body), seq![CR, LF, CR, LF]) {
            Some(i) => {
                &&& framed(body).skip(i + 4) == body
                &&& pieces(framed(body).take(i), CR) == seq![
                    text("HTTP/1.0 200 OK"),
                    text("\nContent-Type: text/plain"),
                    text("\nContent-Length: ") + decimal(body.len()),
                    text("\nConnection: close"),
                ]
            },
            None => false,
        },
{
    let r = framed(body);
    let digits = decimal(body.len());
    let end = 78 + digits.len() as int;
    lemma_frame_start();
    lemma_frame_end();
    lemma_decimal_digits(body.len());
    assert(r == frame_start() + digits + frame_end() + body);
    assert(forall|j: int| 0 <= j < 59 ==> r[j] == frame_start()[j]);
    assert(forall|j: int| 0 <= j < digits.len() ==> r[59 + j] == digits[j]);
    assert forall|j: int| 59 + digits.len() <= j < 82 + digits.len() implies r[j] == frame_end()[j
        - 59 - digits.len()] by {}
    lemma_first_part_holds(r, head_end());
    assert(r.subrange(end, end + 4) =~= frame_end().skip(19));
    assert(occurs_at(r, head_end(), end));
    assert(occurs(r, head_end()));
    let i = first_part(r, head_end()).unwrap();
    if i < end {
        assert(r.subrange(i, i + 4)[0] == r[i]);
        assert(r.subrange(i, i + 4)[2] == r[i + 2]);
        if 59 <= i < 59 + digits.len() {
            assert(r[i] == digits[i - 59]);
        } else if i >= 59 {
            assert(r[i] == frame_end()[i - 59 - digits.len()]);
            assert(r[i + 2] == frame_end()[2]);
        }
        assert(false);
    }
    assert(r.skip(end + 4) =~= body);
    let one = text("HTTP/1.0 200 OK");
    let two = text("\nContent-Type: text/plain");
    let three = text("\nContent-Length: ") + digits;
    let four = text("\nConnection: close");
    assert(r.take(end) =~= one + seq![CR] + two + seq![CR] + three + seq![CR] + four) by {
        assert(frame_start() =~= one + seq![CR] + two + seq![CR] + text("\nContent-Length: "));
        assert(frame_end().take(19) =~= seq![CR] + four);
        assert(r.take(end) =~= frame_start() + digits + frame_end().take(19));
    }
    assert(is_free(one, CR)) by {
        assert(forall|j: int| 0 <= j < 15 ==> one[j] == frame_start()[j]);
    }
    assert(is_free(two, CR)) by {
        assert(forall|j: int| 0 <= j < 25 ==> two[j] == frame_start()[16 + j]);
    }
    assert(is_free(three, CR)) by {
        assert forall|j: int| 0 <= j < three.len() implies three[j] != CR by {
            if j < 17 {
                assert(three[j] == frame_start()[42 + j]);
            } else {
                assert(three[j] == digits[j - 17]);
            }
        }
    }
    assert(is_free(four, CR)) by {
        assert(forall|j: int| 0 <= j < 18 ==> four[j] == frame_end()[1 + j]);
    }
    lemma_single_piece(one, CR);
    lemma_single_piece(two, CR);
    lemma_single_piece(three, CR);
    lemma_single_piece(four, CR);
    pieces_of_joined(one, CR, two);
    pieces_of_joined(one + seq![CR] + two, CR, three);
    pieces_of_joined(one + seq![CR] + two + seq![CR] + three, CR, four);
    assert(pieces(r.take(end), CR) =~= seq![one, two, three, four]);
}

} // verus!
