//! What is written in the text encoding is what is read from it.

use super::event::{EventKind, EventModel};
use super::json::{
    body_at, byte_at, bytes_at, closing_at, digits_at, escape_at, event_at, event_head_at,
    events_at, events_key, events_more, field_at, fields_at, hex4_at, hex_decode, hex_val, i32_at,
    is_digit, is_hex, is_ws, key_at, lemma_digits_grow, lemma_fields_step, member_at, null_at,
    number_at, opt_text_at, pair_at, pair_list_at, pairs_more, string_at, string_body, text_at,
    text_list_at, texts_more, trace_of, u64_pair_at, uint_at, value_at, ws_end, CLOSE_BRACE,
    CLOSE_BRACKET, COLON, COMMA, MINUS, OPEN_BRACE, OPEN_BRACKET, QUOTE, ZERO,
};
use super::json_write::{
    after_colon, bytes_text, colon, dec_text, escape_byte, escaped, event_head_text, event_text, events_tail,
    events_text, fields_text, gap, line_feed, pretty_trace, stream_close, stream_events,
    stream_open, stream_trace, trace_head, hex_char, hex_text, int_text, lemma_fields_text_step, member_start, member_text, null_text,
    opt_text_text, pair_list_text, pair_text, pairs_tail, spaces, string_text, text_list_text,
    text_text, texts_tail, u64_pair_text, value_text,
};
use super::octets::{holds_at, lemma_holds_after, lemma_holds_index, lemma_holds_split, utf8};
use super::schema::{
    all_fit, event_of, fields_of, fits, kind_of_tag, kind_tag, layout, lemma_fields_round_trip,
    lemma_tag_names_kind, tag_key, Field, FieldType, FieldValue,
};
use vstd::prelude::*;
use vstd::utf8::encode_scalar;

verus! {

/// True when every byte is white space.
pub open spec fn all_ws(w: Seq<u8>) -> bool {
    forall|i: int| 0 <= i < w.len() ==> is_ws(#[trigger] w[i])
}

/// White space that was written is skipped, up to the first byte that is none.
pub proof fn lemma_ws(s: Seq<u8>, pos: int, w: Seq<u8>)
    requires
        holds_at(s, pos, w),
        all_ws(w),
        pos + w.len() == s.len() || !is_ws(s[pos + w.len()]),
    ensures
        ws_end(s, pos) == pos + w.len(),
    decreases w.len(),
{
    if w.len() > 0 {
        lemma_holds_index(s, pos, w, 0);
        assert(seq![w[0]] + w.drop_first() =~= w);
        lemma_holds_split(s, pos, seq![w[0]], w.drop_first());
        lemma_ws(s, pos + 1, w.drop_first());
    }
}

/// White space that was written does not change what is read behind it.
pub proof fn lemma_ws_prefix(s: Seq<u8>, pos: int, w: Seq<u8>)
    requires
        holds_at(s, pos, w),
        all_ws(w),
    ensures
        ws_end(s, pos) == ws_end(s, pos + w.len()),
    decreases w.len(),
{
    if w.len() > 0 {
        lemma_holds_index(s, pos, w, 0);
        assert(seq![w[0]] + w.drop_first() =~= w);
        lemma_holds_split(s, pos, seq![w[0]], w.drop_first());
        lemma_ws_prefix(s, pos + 1, w.drop_first());
    }
}

/// Behind white space that was written stands the token that was written
/// behind it.
pub proof fn lemma_skip_to(s: Seq<u8>, pos: int, w: Seq<u8>, token: Seq<u8>)
    requires
        holds_at(s, pos, w + token),
        all_ws(w),
        token.len() > 0,
        !is_ws(token[0]),
    ensures
        ws_end(s, pos) == pos + w.len(),
        holds_at(s, pos + w.len(), token),
        pos + w.len() < s.len(),
        s[pos + w.len()] == token[0],
{
    lemma_holds_split(s, pos, w, token);
    lemma_holds_index(s, pos + w.len(), token, 0);
    lemma_ws(s, pos, w);
}

/// What stands before a member or an item is white space.
pub proof fn lemma_gap_ws(pretty: bool, depth: nat)
    ensures
        all_ws(gap(pretty, depth)),
{
    reveal(gap);
}

/// The white space behind a colon is white space.
pub proof fn lemma_after_colon_ws(pretty: bool)
    ensures
        all_ws(after_colon(pretty)),
{
}

/// A byte that was written behind white space is the byte that is read.
pub proof fn lemma_byte(s: Seq<u8>, pos: int, w: Seq<u8>, c: u8)
    requires
        holds_at(s, pos, w + seq![c]),
        all_ws(w),
        !is_ws(c),
    ensures
        byte_at(s, pos, c) == Some(pos + w.len() + 1),
        ws_end(s, pos) == pos + w.len(),
        pos + w.len() < s.len(),
        s[pos + w.len()] == c,
{
    lemma_skip_to(s, pos, w, seq![c]);
}

/// A byte that was written is the byte that is read.
pub proof fn lemma_byte_here(s: Seq<u8>, pos: int, c: u8)
    requires
        holds_at(s, pos, seq![c]),
        !is_ws(c),
    ensures
        byte_at(s, pos, c) == Some(pos + 1),
        ws_end(s, pos) == pos,
        0 <= pos < s.len(),
        s[pos] == c,
{
    lemma_holds_index(s, pos, seq![c], 0);
}

/// The first byte of what closes an array or an object is no digit.
pub proof fn lemma_gap_then(s: Seq<u8>, pos: int, pretty: bool, depth: nat, c: u8)
    requires
        holds_at(s, pos, gap(pretty, depth) + seq![c]),
        !is_digit(c),
    ensures
        ends_number(s, pos),
{
    reveal(gap);
    lemma_holds_index(s, pos, gap(pretty, depth) + seq![c], 0);
}

proof fn lemma_low_scalar(c: u8)
    requires
        c < 0x80,
    ensures
        encode_scalar(c as u32) == seq![c],
{
    let x = c as u32;
    assert((x & 0x7F) as u8 == c) by (bit_vector)
        requires
            x == c as u32,
            c < 0x80,
    ;
}

/// A byte that was written inside a string is the byte that is read there.
pub proof fn lemma_escape_byte(s: Seq<u8>, pos: int, c: u8, acc: Seq<u8>)
    requires
        holds_at(s, pos, escape_byte(c)),
    ensures
        string_body(s, pos, acc) == string_body(s, pos + escape_byte(c).len(), acc.push(c)),
{
    let e = escape_byte(c);
    lemma_holds_index(s, pos, e, 0);
    if e.len() >= 2 {
        lemma_holds_index(s, pos, e, 1);
        assert(acc + seq![c] =~= acc.push(c));
    }
    if e.len() == 6 {
        lemma_holds_index(s, pos, e, 2);
        lemma_holds_index(s, pos, e, 3);
        lemma_holds_index(s, pos, e, 4);
        lemma_holds_index(s, pos, e, 5);
        lemma_low_scalar(c);
        assert(hex4_at(s, pos + 2) == Some(c as u32));
    }
}

/// Bytes that were written inside a string, up to its closing quote, are the
/// bytes that are read.
pub proof fn lemma_escaped(s: Seq<u8>, pos: int, b: Seq<u8>, acc: Seq<u8>)
    requires
        holds_at(s, pos, escaped(b) + seq![QUOTE]),
    ensures
        string_body(s, pos, acc) == Some((acc + b, pos + escaped(b).len() + 1)),
    decreases b.len(),
{
    if b.len() == 0 {
        lemma_holds_index(s, pos, escaped(b) + seq![QUOTE], 0);
        assert(acc + b =~= acc);
    } else {
        let first = escape_byte(b[0]);
        let rest = b.drop_first();
        assert(escaped(b) + seq![QUOTE] =~= first + (escaped(rest) + seq![QUOTE]));
        lemma_holds_split(s, pos, first, escaped(rest) + seq![QUOTE]);
        lemma_escape_byte(s, pos, b[0], acc);
        lemma_escaped(s, pos + first.len(), rest, acc.push(b[0]));
        assert(acc.push(b[0]) + rest =~= acc + b);
    }
}

/// A string that was written behind white space is the string that is read.
pub proof fn lemma_string(s: Seq<u8>, pos: int, w: Seq<u8>, b: Seq<u8>)
    requires
        holds_at(s, pos, w + string_text(b)),
        all_ws(w),
    ensures
        string_at(s, pos) == Some((b, pos + w.len() + string_text(b).len())),
        ws_end(s, pos) == pos + w.len(),
        s[pos + w.len()] == QUOTE,
        pos + w.len() < s.len(),
{
    reveal(string_at);
    lemma_skip_to(s, pos, w, string_text(b));
    let p = pos + w.len();
    lemma_holds_split(s, p, seq![QUOTE], escaped(b) + seq![QUOTE]);
    lemma_escaped(s, p + 1, b, Seq::empty());
    assert(Seq::<u8>::empty() + b =~= b);
}

/// A text that was written behind white space is the text that is read, and
/// the name that is found.
pub proof fn lemma_text(s: Seq<u8>, pos: int, w: Seq<u8>, t: Seq<char>)
    requires
        holds_at(s, pos, w + text_text(t)),
        all_ws(w),
    ensures
        text_at(s, pos) == Some((t, pos + w.len() + text_text(t).len())),
        key_at(s, pos, t) == Some(pos + w.len() + text_text(t).len()),
        string_at(s, pos) == Some((utf8(t), pos + w.len() + text_text(t).len())),
        ws_end(s, pos) == pos + w.len(),
        s[pos + w.len()] == QUOTE,
        pos + w.len() < s.len(),
{
    reveal(text_at);
    reveal(key_at);
    reveal(text_text);
    lemma_string(s, pos, w, utf8(t));
    vstd::utf8::encode_utf8_valid_utf8(t);
    vstd::utf8::encode_utf8_decode_utf8(t);
}


/// The value of the digits that the buffer holds from `start` to `end`.
pub open spec fn dec_value(s: Seq<u8>, start: int, end: int) -> nat
    decreases end - start,
{
    if end <= start {
        0
    } else {
        dec_value(s, start, end - 1) * 10 + (s[end - 1] - 0x30) as nat
    }
}

/// True when the buffer holds digits only from `start` to `end`.
pub open spec fn all_digits(s: Seq<u8>, start: int, end: int) -> bool {
    forall|i: int| start <= i < end ==> is_digit(#[trigger] s[i])
}

/// True when no digit stands at `end`: a number that ends there ends there.
pub open spec fn ends_number(s: Seq<u8>, end: int) -> bool {
    end == s.len() || (0 <= end < s.len() && !is_digit(s[end]))
}

proof fn lemma_digits_run(s: Seq<u8>, start: int, end: int)
    requires
        0 <= start <= end <= s.len(),
        all_digits(s, start, end),
    ensures
        digits_at(s, start, 0) == digits_at(s, end, dec_value(s, start, end)),
    decreases end - start,
{
    if end > start {
        lemma_digits_run(s, start, end - 1);
        assert(is_digit(s[end - 1]));
    }
}

proof fn lemma_dec_holds(s: Seq<u8>, pos: int, n: nat)
    requires
        holds_at(s, pos, dec_text(n)),
    ensures
        dec_text(n).len() >= 1,
        all_digits(s, pos, pos + dec_text(n).len()),
        dec_value(s, pos, pos + dec_text(n).len()) == n,
        s[pos] == ZERO ==> n == 0,
        n < 10 ==> dec_text(n).len() == 1,
        is_digit(dec_text(n)[0]),
    decreases n,
{
    if n < 10 {
        lemma_holds_index(s, pos, dec_text(n), 0);
        assert(dec_value(s, pos, pos) == 0);
    } else {
        let head = dec_text(n / 10);
        let last = (0x30 + n % 10) as u8;
        assert(dec_text(n) =~= head + seq![last]);
        lemma_holds_split(s, pos, head, seq![last]);
        lemma_holds_index(s, pos + head.len(), seq![last], 0);
        lemma_dec_holds(s, pos, n / 10);
        let end = pos + dec_text(n).len();
        assert forall|i: int| pos <= i < end implies is_digit(#[trigger] s[i]) by {
            if i < end - 1 {
                assert(all_digits(s, pos, pos + head.len()));
            }
        }
        assert(dec_value(s, pos, end) == dec_value(s, pos, end - 1) * 10 + (s[end - 1]
            - 0x30) as nat);
    }
}

/// The first byte of a number in decimal digits is a digit.
pub proof fn lemma_dec_shape(n: nat)
    ensures
        dec_text(n).len() >= 1,
        is_digit(dec_text(n)[0]),
    decreases n,
{
    if n >= 10 {
        lemma_dec_shape(n / 10);
    }
}

/// A number that was written, and behind which no digit stands, is the
/// number that is read.
pub proof fn lemma_number(s: Seq<u8>, pos: int, n: nat)
    requires
        holds_at(s, pos, dec_text(n)),
        ends_number(s, pos + dec_text(n).len()),
    ensures
        number_at(s, pos) == Some((n, pos + dec_text(n).len())),
{
    lemma_dec_holds(s, pos, n);
    let end = pos + dec_text(n).len();
    lemma_digits_run(s, pos, end);
    assert(is_digit(s[pos]));
}

/// An unsigned integer that was written behind white space is the one that
/// is read, where it is within the bound.
pub proof fn lemma_uint(s: Seq<u8>, pos: int, w: Seq<u8>, n: nat, max: u64)
    requires
        holds_at(s, pos, w + dec_text(n)),
        all_ws(w),
        n <= max,
        ends_number(s, pos + w.len() + dec_text(n).len()),
    ensures
        uint_at(s, pos, max) == Some((n as u64, pos + w.len() + dec_text(n).len())),
{
    reveal(uint_at);
    lemma_dec_shape(n);
    lemma_skip_to(s, pos, w, dec_text(n));
    lemma_number(s, pos + w.len(), n);
}

/// A signed integer that was written behind white space is the one that is
/// read.
pub proof fn lemma_int(s: Seq<u8>, pos: int, w: Seq<u8>, n: int)
    requires
        holds_at(s, pos, w + int_text(n)),
        all_ws(w),
        i32::MIN <= n <= i32::MAX,
        ends_number(s, pos + w.len() + int_text(n).len()),
    ensures
        i32_at(s, pos) == Some((n as i32, pos + w.len() + int_text(n).len())),
{
    reveal(i32_at);
    if n < 0 {
        let digits = dec_text((-n) as nat);
        lemma_skip_to(s, pos, w, int_text(n));
        lemma_holds_split(s, pos + w.len(), seq![MINUS], digits);
        lemma_number(s, pos + w.len() + 1, (-n) as nat);
    } else {
        lemma_dec_shape(n as nat);
        lemma_skip_to(s, pos, w, int_text(n));
        lemma_number(s, pos + w.len(), n as nat);
    }
}

/// An optional text that was written behind white space is the one that is
/// read.
pub proof fn lemma_opt_text(s: Seq<u8>, pos: int, w: Seq<u8>, t: Option<Seq<char>>)
    requires
        holds_at(s, pos, w + opt_text_text(t)),
        all_ws(w),
    ensures
        opt_text_at(s, pos) == Some((t, pos + w.len() + opt_text_text(t).len())),
{
    reveal(opt_text_at);
    match t {
        None => {
            lemma_skip_to(s, pos, w, null_text());
            let p = pos + w.len();
            lemma_holds_index(s, p, null_text(), 0);
            lemma_holds_index(s, p, null_text(), 1);
            lemma_holds_index(s, p, null_text(), 2);
            lemma_holds_index(s, p, null_text(), 3);
        },
        Some(text) => {
            lemma_text(s, pos, w, text);
        },
    }
}

/// The hexadecimal text of bytes is hexadecimal text, and stands for them.
pub proof fn lemma_hex(b: Seq<u8>)
    ensures
        is_hex(hex_text(b)),
        hex_decode(hex_text(b)) == b,
{
    let h = hex_text(b);
    assert forall|i: int| 0 <= i < h.len() implies hex_val(#[trigger] h[i]) is Some by {
        let byte = b[i / 2];
        assert(0 <= byte as int / 16 < 16);
        assert(0 <= byte as int % 16 < 16);
    }
    assert forall|i: int| 0 <= i < b.len() implies hex_decode(h)[i] == b[i] by {
        let byte = b[i];
        assert(h[2 * i] == hex_char(byte as int / 16));
        assert(h[2 * i + 1] == hex_char(byte as int % 16));
        assert(0 <= byte as int / 16 < 16);
        assert(0 <= byte as int % 16 < 16);
    }
    assert(hex_decode(h) =~= b);
}

/// Bytes that were written behind white space are the bytes that are read.
pub proof fn lemma_bytes(s: Seq<u8>, pos: int, w: Seq<u8>, b: Seq<u8>)
    requires
        holds_at(s, pos, w + bytes_text(b)),
        all_ws(w),
    ensures
        bytes_at(s, pos) == Some((b, pos + w.len() + bytes_text(b).len())),
{
    reveal(bytes_at);
    lemma_string(s, pos, w, hex_text(b));
    lemma_hex(b);
}


/// The texts that were written behind the first of an array are the texts
/// that are read.
pub proof fn lemma_texts_tail(
    s: Seq<u8>,
    pos: int,
    pretty: bool,
    depth: nat,
    l: Seq<Seq<char>>,
    acc: Seq<Seq<char>>,
)
    requires
        holds_at(s, pos, texts_tail(pretty, depth, l)),
    ensures
        texts_more(s, pos, acc) == Some((acc + l, pos + texts_tail(pretty, depth, l).len())),
    decreases l.len(),
{
    lemma_gap_ws(pretty, depth);
    lemma_gap_ws(pretty, depth + 1);
    if l.len() == 0 {
        lemma_byte(s, pos, gap(pretty, depth), CLOSE_BRACKET);
        assert(acc + l =~= acc);
    } else {
        let item = gap(pretty, depth + 1) + text_text(l[0]);
        let rest = texts_tail(pretty, depth, l.drop_first());
        lemma_holds_split(s, pos, seq![COMMA], item + rest);
        lemma_byte_here(s, pos, COMMA);
        lemma_holds_split(s, pos + 1, item, rest);
        lemma_text(s, pos + 1, gap(pretty, depth + 1), l[0]);
        lemma_texts_tail(s, pos + 1 + item.len(), pretty, depth, l.drop_first(), acc.push(l[0]));
        assert(acc.push(l[0]) + l.drop_first() =~= acc + l);
    }
}

/// An array of texts that was written behind white space is the one that is
/// read.
pub proof fn lemma_text_list(
    s: Seq<u8>,
    pos: int,
    w: Seq<u8>,
    pretty: bool,
    depth: nat,
    l: Seq<Seq<char>>,
)
    requires
        holds_at(s, pos, w + text_list_text(pretty, depth, l)),
        all_ws(w),
    ensures
        text_list_at(s, pos) == Some((l, pos + w.len() + text_list_text(pretty, depth, l).len())),
{
    reveal(text_list_at);
    lemma_gap_ws(pretty, depth + 1);
    let p = pos + w.len() + 1;
    if l.len() == 0 {
        lemma_holds_after(s, pos, w, seq![OPEN_BRACKET], seq![CLOSE_BRACKET]);
        lemma_byte(s, pos, w, OPEN_BRACKET);
        lemma_byte_here(s, p, CLOSE_BRACKET);
    } else {
        let item = gap(pretty, depth + 1) + text_text(l[0]);
        let rest = texts_tail(pretty, depth, l.drop_first());
        lemma_holds_after(s, pos, w, seq![OPEN_BRACKET], item + rest);
        lemma_byte(s, pos, w, OPEN_BRACKET);
        lemma_holds_split(s, p, item, rest);
        lemma_text(s, p, gap(pretty, depth + 1), l[0]);
        lemma_texts_tail(s, p + item.len(), pretty, depth, l.drop_first(), seq![l[0]]);
        assert(seq![l[0]] + l.drop_first() =~= l);
    }
}

/// A pair that was written behind white space is the pair that is read.
pub proof fn lemma_pair(
    s: Seq<u8>,
    pos: int,
    w: Seq<u8>,
    pretty: bool,
    depth: nat,
    p: (Seq<char>, Seq<char>),
)
    requires
        holds_at(s, pos, w + pair_text(pretty, depth, p)),
        all_ws(w),
    ensures
        pair_at(s, pos) == Some((p, pos + w.len() + pair_text(pretty, depth, p).len())),
        ws_end(s, pos) == pos + w.len(),
        s[pos + w.len()] == OPEN_BRACKET,
        pos + w.len() < s.len(),
{
    reveal(pair_at);
    lemma_gap_ws(pretty, depth);
    lemma_gap_ws(pretty, depth + 1);
    let x1 = gap(pretty, depth + 1) + text_text(p.0);
    let x3 = gap(pretty, depth + 1) + text_text(p.1);
    let x4 = gap(pretty, depth) + seq![CLOSE_BRACKET];
    lemma_holds_after(s, pos, w, seq![OPEN_BRACKET], x1 + (seq![COMMA] + (x3 + x4)));
    lemma_byte(s, pos, w, OPEN_BRACKET);
    let at0 = pos + w.len() + 1;
    lemma_holds_split(s, at0, x1, seq![COMMA] + (x3 + x4));
    lemma_text(s, at0, gap(pretty, depth + 1), p.0);
    let at1 = at0 + x1.len();
    lemma_holds_split(s, at1, seq![COMMA], x3 + x4);
    lemma_byte_here(s, at1, COMMA);
    let at2 = at1 + 1;
    lemma_holds_split(s, at2, x3, x4);
    lemma_text(s, at2, gap(pretty, depth + 1), p.1);
    let at3 = at2 + x3.len();
    lemma_byte(s, at3, gap(pretty, depth), CLOSE_BRACKET);
}

/// The pairs that were written behind the first of an array are the pairs
/// that are read.
pub proof fn lemma_pairs_tail(
    s: Seq<u8>,
    pos: int,
    pretty: bool,
    depth: nat,
    l: Seq<(Seq<char>, Seq<char>)>,
    acc: Seq<(Seq<char>, Seq<char>)>,
)
    requires
        holds_at(s, pos, pairs_tail(pretty, depth, l)),
    ensures
        pairs_more(s, pos, acc) == Some((acc + l, pos + pairs_tail(pretty, depth, l).len())),
    decreases l.len(),
{
    lemma_gap_ws(pretty, depth);
    lemma_gap_ws(pretty, depth + 1);
    if l.len() == 0 {
        lemma_byte(s, pos, gap(pretty, depth), CLOSE_BRACKET);
        assert(acc + l =~= acc);
    } else {
        let item = gap(pretty, depth + 1) + pair_text(pretty, depth + 1, l[0]);
        let rest = pairs_tail(pretty, depth, l.drop_first());
        lemma_holds_split(s, pos, seq![COMMA], item + rest);
        lemma_byte_here(s, pos, COMMA);
        lemma_holds_split(s, pos + 1, item, rest);
        lemma_pair(s, pos + 1, gap(pretty, depth + 1), pretty, depth + 1, l[0]);
        lemma_pairs_tail(s, pos + 1 + item.len(), pretty, depth, l.drop_first(), acc.push(l[0]));
        assert(acc.push(l[0]) + l.drop_first() =~= acc + l);
    }
}

/// An array of pairs that was written behind white space is the one that is
/// read.
pub proof fn lemma_pair_list(
    s: Seq<u8>,
    pos: int,
    w: Seq<u8>,
    pretty: bool,
    depth: nat,
    l: Seq<(Seq<char>, Seq<char>)>,
)
    requires
        holds_at(s, pos, w + pair_list_text(pretty, depth, l)),
        all_ws(w),
    ensures
        pair_list_at(s, pos) == Some((l, pos + w.len() + pair_list_text(pretty, depth, l).len())),
{
    reveal(pair_list_at);
    lemma_gap_ws(pretty, depth + 1);
    let p = pos + w.len() + 1;
    if l.len() == 0 {
        lemma_holds_after(s, pos, w, seq![OPEN_BRACKET], seq![CLOSE_BRACKET]);
        lemma_byte(s, pos, w, OPEN_BRACKET);
        lemma_byte_here(s, p, CLOSE_BRACKET);
    } else {
        let item = gap(pretty, depth + 1) + pair_text(pretty, depth + 1, l[0]);
        let rest = pairs_tail(pretty, depth, l.drop_first());
        lemma_holds_after(s, pos, w, seq![OPEN_BRACKET], item + rest);
        lemma_byte(s, pos, w, OPEN_BRACKET);
        lemma_holds_split(s, p, item, rest);
        lemma_pair(s, p, gap(pretty, depth + 1), pretty, depth + 1, l[0]);
        lemma_pairs_tail(s, p + item.len(), pretty, depth, l.drop_first(), seq![l[0]]);
        assert(seq![l[0]] + l.drop_first() =~= l);
    }
}

/// Two unsigned integers that were written behind white space are the two
/// that are read.
pub proof fn lemma_u64_pair(
    s: Seq<u8>,
    pos: int,
    w: Seq<u8>,
    pretty: bool,
    depth: nat,
    a: u64,
    b: u64,
)
    requires
        holds_at(s, pos, w + u64_pair_text(pretty, depth, a, b)),
        all_ws(w),
    ensures
        u64_pair_at(s, pos) == Some(
            ((a, b), pos + w.len() + u64_pair_text(pretty, depth, a, b).len()),
        ),
{
    reveal(u64_pair_at);
    lemma_gap_ws(pretty, depth);
    lemma_gap_ws(pretty, depth + 1);
    let x1 = gap(pretty, depth + 1) + dec_text(a as nat);
    let x3 = gap(pretty, depth + 1) + dec_text(b as nat);
    let x4 = gap(pretty, depth) + seq![CLOSE_BRACKET];
    lemma_holds_after(s, pos, w, seq![OPEN_BRACKET], x1 + (seq![COMMA] + (x3 + x4)));
    lemma_byte(s, pos, w, OPEN_BRACKET);
    let at0 = pos + w.len() + 1;
    lemma_holds_split(s, at0, x1, seq![COMMA] + (x3 + x4));
    let at1 = at0 + x1.len();
    lemma_holds_split(s, at1, seq![COMMA], x3 + x4);
    lemma_byte_here(s, at1, COMMA);
    lemma_uint(s, at0, gap(pretty, depth + 1), a as nat, u64::MAX);
    let at2 = at1 + 1;
    lemma_holds_split(s, at2, x3, x4);
    let at3 = at2 + x3.len();
    lemma_gap_then(s, at3, pretty, depth, CLOSE_BRACKET);
    lemma_uint(s, at2, gap(pretty, depth + 1), b as nat, u64::MAX);
    lemma_byte(s, at3, gap(pretty, depth), CLOSE_BRACKET);
}


proof fn lemma_value_int(
    s: Seq<u8>,
    pos: int,
    w: Seq<u8>,
    pretty: bool,
    depth: nat,
    ty: FieldType,
    v: FieldValue,
)
    requires
        holds_at(s, pos, w + value_text(pretty, depth, v)),
        all_ws(w),
        fits(ty, v),
        ends_number(s, pos + w.len() + value_text(pretty, depth, v).len()),
        v is Int,
    ensures
        value_at(s, pos, ty) == Some((v, pos + w.len() + value_text(pretty, depth, v).len())),
{
    let n = v->Int_0;
    match ty {
        FieldType::U64 => lemma_uint(s, pos, w, n as nat, u64::MAX),
        FieldType::U32 => lemma_uint(s, pos, w, n as nat, u32::MAX as u64),
        FieldType::U16 => lemma_uint(s, pos, w, n as nat, u16::MAX as u64),
        _ => lemma_int(s, pos, w, n),
    }
}

proof fn lemma_value_text(
    s: Seq<u8>,
    pos: int,
    w: Seq<u8>,
    pretty: bool,
    depth: nat,
    ty: FieldType,
    v: FieldValue,
)
    requires
        holds_at(s, pos, w + value_text(pretty, depth, v)),
        all_ws(w),
        fits(ty, v),
        ends_number(s, pos + w.len() + value_text(pretty, depth, v).len()),
        v is Text,
    ensures
        value_at(s, pos, ty) == Some((v, pos + w.len() + value_text(pretty, depth, v).len())),
{
    lemma_text(s, pos, w, v->Text_0);
}

proof fn lemma_value_opt_text(
    s: Seq<u8>,
    pos: int,
    w: Seq<u8>,
    pretty: bool,
    depth: nat,
    ty: FieldType,
    v: FieldValue,
)
    requires
        holds_at(s, pos, w + value_text(pretty, depth, v)),
        all_ws(w),
        fits(ty, v),
        ends_number(s, pos + w.len() + value_text(pretty, depth, v).len()),
        v is OptText,
    ensures
        value_at(s, pos, ty) == Some((v, pos + w.len() + value_text(pretty, depth, v).len())),
{
    lemma_opt_text(s, pos, w, v->OptText_0);
}

proof fn lemma_value_bytes(
    s: Seq<u8>,
    pos: int,
    w: Seq<u8>,
    pretty: bool,
    depth: nat,
    ty: FieldType,
    v: FieldValue,
)
    requires
        holds_at(s, pos, w + value_text(pretty, depth, v)),
        all_ws(w),
        fits(ty, v),
        ends_number(s, pos + w.len() + value_text(pretty, depth, v).len()),
        v is Bytes,
    ensures
        value_at(s, pos, ty) == Some((v, pos + w.len() + value_text(pretty, depth, v).len())),
{
    lemma_bytes(s, pos, w, v->Bytes_0);
}

proof fn lemma_value_text_list(
    s: Seq<u8>,
    pos: int,
    w: Seq<u8>,
    pretty: bool,
    depth: nat,
    ty: FieldType,
    v: FieldValue,
)
    requires
        holds_at(s, pos, w + value_text(pretty, depth, v)),
        all_ws(w),
        fits(ty, v),
        ends_number(s, pos + w.len() + value_text(pretty, depth, v).len()),
        v is TextList,
    ensures
        value_at(s, pos, ty) == Some((v, pos + w.len() + value_text(pretty, depth, v).len())),
{
    lemma_text_list(s, pos, w, pretty, depth, v->TextList_0);
}

proof fn lemma_value_pair_list(
    s: Seq<u8>,
    pos: int,
    w: Seq<u8>,
    pretty: bool,
    depth: nat,
    ty: FieldType,
    v: FieldValue,
)
    requires
        holds_at(s, pos, w + value_text(pretty, depth, v)),
        all_ws(w),
        fits(ty, v),
        ends_number(s, pos + w.len() + value_text(pretty, depth, v).len()),
        v is PairList,
    ensures
        value_at(s, pos, ty) == Some((v, pos + w.len() + value_text(pretty, depth, v).len())),
{
    lemma_pair_list(s, pos, w, pretty, depth, v->PairList_0);
}

proof fn lemma_value_u64_pair(
    s: Seq<u8>,
    pos: int,
    w: Seq<u8>,
    pretty: bool,
    depth: nat,
    ty: FieldType,
    v: FieldValue,
)
    requires
        holds_at(s, pos, w + value_text(pretty, depth, v)),
        all_ws(w),
        fits(ty, v),
        ends_number(s, pos + w.len() + value_text(pretty, depth, v).len()),
        v is U64Pair,
    ensures
        value_at(s, pos, ty) == Some((v, pos + w.len() + value_text(pretty, depth, v).len())),
{
    lemma_u64_pair(s, pos, w, pretty, depth, v->U64Pair_0, v->U64Pair_1);
}

/// A value that was written behind white space, and behind which no digit
/// stands, is the value that is read, whatever the type of field it fits.
pub proof fn lemma_value(
    s: Seq<u8>,
    pos: int,
    w: Seq<u8>,
    pretty: bool,
    depth: nat,
    ty: FieldType,
    v: FieldValue,
)
    requires
        holds_at(s, pos, w + value_text(pretty, depth, v)),
        all_ws(w),
        fits(ty, v),
        ends_number(s, pos + w.len() + value_text(pretty, depth, v).len()),
        
    ensures
        value_at(s, pos, ty) == Some((v, pos + w.len() + value_text(pretty, depth, v).len())),
{
    match v {
        FieldValue::Int(_) => lemma_value_int(s, pos, w, pretty, depth, ty, v),
        FieldValue::Text(_) => lemma_value_text(s, pos, w, pretty, depth, ty, v),
        FieldValue::OptText(_) => lemma_value_opt_text(s, pos, w, pretty, depth, ty, v),
        FieldValue::Bytes(_) => lemma_value_bytes(s, pos, w, pretty, depth, ty, v),
        FieldValue::TextList(_) => lemma_value_text_list(s, pos, w, pretty, depth, ty, v),
        FieldValue::PairList(_) => lemma_value_pair_list(s, pos, w, pretty, depth, ty, v),
        FieldValue::U64Pair(_, _) => lemma_value_u64_pair(s, pos, w, pretty, depth, ty, v),
    }
}

/// A member that was written is the member that is read.
pub proof fn lemma_member(
    s: Seq<u8>,
    pos: int,
    pretty: bool,
    depth: nat,
    field: Field,
    v: FieldValue,
)
    requires
        holds_at(s, pos, member_text(pretty, depth, field.name, v)),
        fits(field.ty, v),
        ends_number(s, pos + member_text(pretty, depth, field.name, v).len()),
    ensures
        member_at(s, pos, field) == Some(
            (v, pos + member_text(pretty, depth, field.name, v).len()),
        ),
        s[pos] == COMMA,
        0 <= pos < s.len(),
{
    reveal(member_at);
    lemma_gap_ws(pretty, depth + 1);
    lemma_after_colon_ws(pretty);
    let x1 = gap(pretty, depth + 1) + text_text(field.name);
    let x3 = after_colon(pretty) + value_text(pretty, depth + 1, v);
    lemma_holds_split(s, pos, seq![COMMA], x1 + (seq![COLON] + x3));
    lemma_byte_here(s, pos, COMMA);
    let at0 = pos + 1;
    lemma_holds_split(s, at0, x1, seq![COLON] + x3);
    lemma_text(s, at0, gap(pretty, depth + 1), field.name);
    let at1 = at0 + x1.len();
    lemma_holds_split(s, at1, seq![COLON], x3);
    lemma_byte_here(s, at1, COLON);
    let at2 = at1 + 1;
    lemma_value(s, at2, after_colon(pretty), pretty, depth + 1, field.ty, v);
}

/// Fields that were written one after the other, and behind which no digit
/// stands, are the fields that are read.
pub proof fn lemma_fields(
    s: Seq<u8>,
    pos: int,
    pretty: bool,
    depth: nat,
    fields: Seq<Field>,
    values: Seq<FieldValue>,
    i: int,
    acc: Seq<FieldValue>,
)
    requires
        holds_at(s, pos, fields_text(pretty, depth, fields, values, i)),
        0 <= i <= fields.len(),
        all_fit(fields, values),
        ends_number(s, pos + fields_text(pretty, depth, fields, values, i).len()),
    ensures
        fields_at(s, pos, fields, i, acc) == Some(
            (acc + values.skip(i), pos + fields_text(pretty, depth, fields, values, i).len()),
        ),
    decreases fields.len() - i,
{
    lemma_fields_step(s, pos, fields, i, acc);
    lemma_fields_text_step(pretty, depth, fields, values, i);
    if i >= fields.len() {
        assert(acc + values.skip(i) =~= acc);
    } else {
        let member = member_text(pretty, depth, fields[i].name, values[i]);
        let rest = fields_text(pretty, depth, fields, values, i + 1);
        let next = pos + member.len();
        lemma_holds_split(s, pos, member, rest);
        assert(fits(fields[i].ty, values[i]));
        assert(ends_number(s, next)) by {
            lemma_fields_text_step(pretty, depth, fields, values, i + 1);
            if i + 1 < fields.len() {
                lemma_holds_index(s, next, rest, 0);
                assert(rest[0] == COMMA);
            } else {
                assert(rest.len() == 0);
            }
        }
        lemma_member(s, pos, pretty, depth, fields[i], values[i]);
        lemma_fields(s, next, pretty, depth, fields, values, i + 1, acc.push(values[i]));
        assert(acc.push(values[i]) + values.skip(i + 1) =~= acc + values.skip(i));
    }
}

/// The start of an event that was written behind white space is the one that
/// is read.
pub proof fn lemma_event_head(
    s: Seq<u8>,
    pos: int,
    w: Seq<u8>,
    pretty: bool,
    depth: nat,
    kind: EventKind,
)
    requires
        holds_at(s, pos, w + event_head_text(pretty, depth, kind)),
        all_ws(w),
    ensures
        event_head_at(s, pos) == Some(
            (kind, pos + w.len() + event_head_text(pretty, depth, kind).len()),
        ),
        ws_end(s, pos) == pos + w.len(),
        pos + w.len() < s.len(),
        s[pos + w.len()] == OPEN_BRACE,
{
    reveal(event_head_at);
    lemma_gap_ws(pretty, depth + 1);
    lemma_after_colon_ws(pretty);
    lemma_tag_names_kind(kind);
    let x1 = gap(pretty, depth + 1) + text_text(tag_key());
    let x3 = after_colon(pretty) + text_text(kind_tag(kind));
    lemma_holds_after(s, pos, w, seq![OPEN_BRACE], x1 + (seq![COLON] + x3));
    lemma_byte(s, pos, w, OPEN_BRACE);
    let at0 = pos + w.len() + 1;
    lemma_holds_split(s, at0, x1, seq![COLON] + x3);
    lemma_text(s, at0, gap(pretty, depth + 1), tag_key());
    let at1 = at0 + x1.len();
    lemma_holds_split(s, at1, seq![COLON], x3);
    lemma_byte_here(s, at1, COLON);
    let at2 = at1 + 1;
    lemma_text(s, at2, after_colon(pretty), kind_tag(kind));
}

/// An event that was written behind white space is the event that is read.
pub proof fn lemma_event(
    s: Seq<u8>,
    pos: int,
    w: Seq<u8>,
    pretty: bool,
    depth: nat,
    e: EventModel,
)
    requires
        holds_at(s, pos, w + event_text(pretty, depth, e)),
        all_ws(w),
    ensures
        event_at(s, pos) == Some((e, pos + w.len() + event_text(pretty, depth, e).len())),
        ws_end(s, pos) == pos + w.len(),
        pos + w.len() < s.len(),
        s[pos + w.len()] == OPEN_BRACE,
{
    reveal(event_at);
    reveal(body_at);
    let kind = e.kind();
    let fields = layout(kind);
    let values = fields_of(e);
    let head = event_head_text(pretty, depth, kind);
    let body = fields_text(pretty, depth, fields, values, 0);
    let close = gap(pretty, depth) + seq![CLOSE_BRACE];
    lemma_gap_ws(pretty, depth);
    lemma_fields_round_trip(e);
    lemma_holds_after(s, pos, w, head, body + close);
    lemma_event_head(s, pos, w, pretty, depth, kind);
    let at0 = pos + w.len() + head.len();
    lemma_holds_split(s, at0, body, close);
    let at1 = at0 + body.len();
    lemma_gap_then(s, at1, pretty, depth, CLOSE_BRACE);
    lemma_fields(s, at0, pretty, depth, fields, values, 0, Seq::empty());
    assert(Seq::<FieldValue>::empty() + values.skip(0) =~= values);
    lemma_byte(s, at1, gap(pretty, depth), CLOSE_BRACE);
}

/// True when the events end at `pos`: the bytes end behind the white space
/// there, or the array and the object close and nothing but white space
/// follows.
pub open spec fn closes(s: Seq<u8>, pos: int) -> bool {
    let p = ws_end(s, pos);
    p < 0 || p >= s.len() || (s[p] == CLOSE_BRACKET && closing_at(s, p + 1))
}

/// The events end where the array and the object were closed and the bytes
/// end.
pub proof fn lemma_closes_with(s: Seq<u8>, pos: int, before: Seq<u8>, between: Seq<u8>)
    requires
        holds_at(s, pos, (before + seq![CLOSE_BRACKET]) + (between + seq![CLOSE_BRACE])),
        pos + before.len() + between.len() + 2 == s.len(),
        all_ws(before),
        all_ws(between),
    ensures
        closes(s, pos),
{
    lemma_holds_split(s, pos, before + seq![CLOSE_BRACKET], between + seq![CLOSE_BRACE]);
    lemma_byte(s, pos, before, CLOSE_BRACKET);
    lemma_byte(s, pos + before.len() + 1, between, CLOSE_BRACE);
}

/// The events that were written behind the first, and behind which the
/// events end, are the events that are read.
pub proof fn lemma_events_tail(
    s: Seq<u8>,
    pos: int,
    sep: Seq<u8>,
    pretty: bool,
    depth: nat,
    l: Seq<EventModel>,
    acc: Seq<EventModel>,
)
    requires
        holds_at(s, pos, events_tail(sep, pretty, depth, l)),
        all_ws(sep),
        closes(s, pos + events_tail(sep, pretty, depth, l).len()),
    ensures
        events_more(s, pos, acc) == Some(acc + l),
    decreases l.len(),
{
    if l.len() == 0 {
        assert(acc + l =~= acc);
    } else {
        let item = sep + event_text(pretty, depth, l[0]);
        let rest = events_tail(sep, pretty, depth, l.drop_first());
        lemma_holds_split(s, pos, seq![COMMA], item + rest);
        lemma_byte_here(s, pos, COMMA);
        lemma_holds_split(s, pos + 1, item, rest);
        lemma_event(s, pos + 1, sep, pretty, depth, l[0]);
        lemma_events_tail(s, pos + 1 + item.len(), sep, pretty, depth, l.drop_first(), acc.push(l[0]));
        assert(acc.push(l[0]) + l.drop_first() =~= acc + l);
    }
}

/// What opens a trace is read up to the place behind the opening bracket.
pub proof fn lemma_trace_head(s: Seq<u8>, lead: Seq<u8>, space: Seq<u8>)
    requires
        holds_at(s, 0, trace_head(lead, space)),
        all_ws(lead),
        all_ws(space),
    ensures
        trace_of(s) == events_at(s, trace_head(lead, space).len() as int),
{
    reveal(trace_of);
    let x1 = lead + text_text(events_key());
    let x3 = space + seq![OPEN_BRACKET];
    lemma_holds_split(s, 0, seq![OPEN_BRACE], x1 + (seq![COLON] + x3));
    lemma_byte_here(s, 0, OPEN_BRACE);
    lemma_holds_split(s, 1, x1, seq![COLON] + x3);
    lemma_text(s, 1, lead, events_key());
    let at1 = 1 + x1.len() as int;
    lemma_holds_split(s, at1, seq![COLON], x3);
    lemma_byte_here(s, at1, COLON);
    lemma_byte(s, at1 + 1, space, OPEN_BRACKET);
}

/// Events that were written behind the opening of a trace, and behind which
/// the events end, are the events that are read.
pub proof fn lemma_framed(
    s: Seq<u8>,
    lead: Seq<u8>,
    space: Seq<u8>,
    first: Seq<u8>,
    sep: Seq<u8>,
    pretty: bool,
    depth: nat,
    events: Seq<EventModel>,
)
    requires
        holds_at(s, 0, trace_head(lead, space) + (first + events_text(sep, pretty, depth, events))),
        all_ws(lead),
        all_ws(space),
        all_ws(first),
        all_ws(sep),
        closes(
            s,
            (trace_head(lead, space) + (first + events_text(sep, pretty, depth, events))).len() as int,
        ),
    ensures
        trace_of(s) == Some(events),
{
    reveal(events_at);
    let head = trace_head(lead, space);
    let body = events_text(sep, pretty, depth, events);
    lemma_holds_split(s, 0, head, first + body);
    lemma_trace_head(s, lead, space);
    let p = head.len() as int;
    if events.len() == 0 {
        lemma_holds_split(s, p, first, body);
        lemma_ws_prefix(s, p, first);
    } else {
        let event = event_text(pretty, depth, events[0]);
        let rest = events_tail(sep, pretty, depth, events.drop_first());
        lemma_holds_after(s, p, first, event, rest);
        lemma_event(s, p, first, pretty, depth, events[0]);
        lemma_events_tail(
            s,
            p + first.len() + event.len(),
            sep,
            pretty,
            depth,
            events.drop_first(),
            seq![events[0]],
        );
        assert(seq![events[0]] + events.drop_first() =~= events);
    }
}

/// Round trip of the pretty form: reading what was written gives the events
/// back.
pub proof fn law_pretty_round_trip(events: Seq<EventModel>)
    ensures
        trace_of(pretty_trace(events)) == Some(events),
{
    let s = pretty_trace(events);
    let lead = gap(true, 1);
    let space = seq![0x20u8];
    let head = trace_head(lead, space);
    lemma_gap_ws(true, 0);
    lemma_gap_ws(true, 1);
    lemma_gap_ws(true, 2);
    assert(s.subrange(0, s.len() as int) =~= s);
    if events.len() == 0 {
        let front = head + (Seq::<u8>::empty() + events_text(gap(true, 2), true, 2, events));
        let close = (Seq::<u8>::empty() + seq![CLOSE_BRACKET]) + (gap(true, 0)
            + seq![CLOSE_BRACE]);
        assert(s =~= front + close);
        lemma_holds_split(s, 0, front, close);
        lemma_closes_with(s, front.len() as int, Seq::empty(), gap(true, 0));
        lemma_framed(s, lead, space, Seq::empty(), gap(true, 2), true, 2, events);
    } else {
        let front = head + (gap(true, 2) + events_text(gap(true, 2), true, 2, events));
        let close = (gap(true, 1) + seq![CLOSE_BRACKET]) + (gap(true, 0) + seq![CLOSE_BRACE]);
        assert(s =~= front + close);
        lemma_holds_split(s, 0, front, close);
        lemma_closes_with(s, front.len() as int, gap(true, 1), gap(true, 0));
        lemma_framed(s, lead, space, gap(true, 2), gap(true, 2), true, 2, events);
    }
}

/// Round trip of a recording: reading what was recorded gives the events
/// back, whether the recording was closed or not.
pub proof fn law_stream_round_trip(events: Seq<EventModel>, closed: bool)
    ensures
        trace_of(stream_trace(events, closed)) == Some(events),
{
    let s = stream_trace(events, closed);
    let head = trace_head(Seq::empty(), Seq::empty());
    let front = head + (line_feed() + events_text(line_feed(), false, 0, events));
    assert(s.subrange(0, s.len() as int) =~= s);
    if closed {
        let close = (line_feed() + seq![CLOSE_BRACKET]) + (Seq::<u8>::empty()
            + seq![CLOSE_BRACE]);
        assert(s =~= front + close);
        lemma_holds_split(s, 0, front, close);
        lemma_closes_with(s, front.len() as int, line_feed(), Seq::empty());
    } else {
        assert(s =~= front);
    }
    lemma_framed(s, Seq::empty(), Seq::empty(), line_feed(), line_feed(), false, 0, events);
}

} // verus!
