//! The text encoding of a trace, as it is written: compact, with nothing
//! between the tokens, or pretty, with every member and every item on a line
//! of its own, indented by two spaces for each level.

use super::event::{EventKind, EventModel, TraceEvent};
use super::json::{
    events_key, CLOSE_BRACE, CLOSE_BRACKET, COLON, COMMA, MINUS, OPEN_BRACE, OPEN_BRACKET, QUOTE,
};
use super::octets::{append, utf8};
use super::schema::{fields_of, kind_tag, layout, tag_key, tag_of, Field, FieldValue};
use vstd::prelude::*;

verus! {

/// The deepest level at which anything is written.
pub const MAX_DEPTH: usize = 64;

/// `n` spaces.
pub open spec fn spaces(n: nat) -> Seq<u8> {
    Seq::new(n, |i: int| 0x20u8)
}

/// What stands before a member or an item at the given depth: nothing, or a
/// line feed and the indentation.
#[verifier::opaque]
pub open spec fn gap(pretty: bool, depth: nat) -> Seq<u8> {
    if pretty {
        seq![0x0au8] + spaces(2 * depth)
    } else {
        Seq::empty()
    }
}

/// The white space that stands behind a colon.
pub open spec fn after_colon(pretty: bool) -> Seq<u8> {
    if pretty {
        seq![0x20u8]
    } else {
        Seq::empty()
    }
}

/// What stands between a name and its value.
pub open spec fn colon(pretty: bool) -> Seq<u8> {
    seq![COLON] + after_colon(pretty)
}

/// The lower-case hexadecimal digit of a value below sixteen.
pub open spec fn hex_char(n: int) -> u8 {
    if n < 10 {
        (0x30 + n) as u8
    } else {
        (0x61 + n - 10) as u8
    }
}

/// A byte as it stands inside a string: a quote, a backslash and the control
/// characters escaped, every other byte as it is.
pub open spec fn escape_byte(c: u8) -> Seq<u8> {
    if c == 0x22 {
        seq![0x5cu8, 0x22u8]
    } else if c == 0x5c {
        seq![0x5cu8, 0x5cu8]
    } else if c == 0x08 {
        seq![0x5cu8, 0x62u8]
    } else if c == 0x0c {
        seq![0x5cu8, 0x66u8]
    } else if c == 0x0a {
        seq![0x5cu8, 0x6eu8]
    } else if c == 0x0d {
        seq![0x5cu8, 0x72u8]
    } else if c == 0x09 {
        seq![0x5cu8, 0x74u8]
    } else if c < 0x20 {
        seq![0x5cu8, 0x75u8, 0x30u8, 0x30u8, hex_char(c as int / 16), hex_char(c as int % 16)]
    } else {
        seq![c]
    }
}

/// Bytes as they stand inside a string.
pub open spec fn escaped(b: Seq<u8>) -> Seq<u8>
    decreases b.len(),
{
    if b.len() == 0 {
        Seq::empty()
    } else {
        escape_byte(b[0]) + escaped(b.drop_first())
    }
}

/// A string: its bytes, escaped, between quotes.
pub open spec fn string_text(b: Seq<u8>) -> Seq<u8> {
    seq![QUOTE] + (escaped(b) + seq![QUOTE])
}

/// A text: the string of its UTF-8 bytes.
#[verifier::opaque]
pub open spec fn text_text(t: Seq<char>) -> Seq<u8> {
    string_text(utf8(t))
}

/// A natural number in decimal digits.
pub open spec fn dec_text(n: nat) -> Seq<u8>
    decreases n,
{
    if n < 10 {
        seq![(0x30 + n) as u8]
    } else {
        dec_text(n / 10).push((0x30 + n % 10) as u8)
    }
}

/// An integer in decimal digits, a negative one behind a minus sign.
pub open spec fn int_text(n: int) -> Seq<u8> {
    if n < 0 {
        seq![MINUS] + dec_text((-n) as nat)
    } else {
        dec_text(n as nat)
    }
}

/// The word that stands for an absent value.
pub open spec fn null_text() -> Seq<u8> {
    seq![0x6eu8, 0x75u8, 0x6cu8, 0x6cu8]
}

/// A text, or the word `null` for an absent one.
pub open spec fn opt_text_text(t: Option<Seq<char>>) -> Seq<u8> {
    match t {
        None => null_text(),
        Some(t) => text_text(t),
    }
}

/// Bytes as hexadecimal text: two lower-case digits for each.
pub open spec fn hex_text(b: Seq<u8>) -> Seq<u8> {
    Seq::new(
        2 * b.len(),
        |i: int|
            if i % 2 == 0 {
                hex_char(b[i / 2] as int / 16)
            } else {
                hex_char(b[i / 2] as int % 16)
            },
    )
}

/// Bytes: the string of their hexadecimal text.
pub open spec fn bytes_text(b: Seq<u8>) -> Seq<u8> {
    string_text(hex_text(b))
}

/// What follows the first text of an array: the other texts, each behind a
/// comma, and the closing bracket.
pub open spec fn texts_tail(pretty: bool, depth: nat, l: Seq<Seq<char>>) -> Seq<u8>
    decreases l.len(),
{
    if l.len() == 0 {
        gap(pretty, depth) + seq![CLOSE_BRACKET]
    } else {
        seq![COMMA] + ((gap(pretty, depth + 1) + text_text(l[0])) + texts_tail(
            pretty,
            depth,
            l.drop_first(),
        ))
    }
}

/// An array of texts.
pub open spec fn text_list_text(pretty: bool, depth: nat, l: Seq<Seq<char>>) -> Seq<u8> {
    if l.len() == 0 {
        seq![OPEN_BRACKET] + seq![CLOSE_BRACKET]
    } else {
        seq![OPEN_BRACKET] + ((gap(pretty, depth + 1) + text_text(l[0])) + texts_tail(
            pretty,
            depth,
            l.drop_first(),
        ))
    }
}

/// A pair: an array of two texts.
pub open spec fn pair_text(pretty: bool, depth: nat, p: (Seq<char>, Seq<char>)) -> Seq<u8> {
    seq![OPEN_BRACKET] + ((gap(pretty, depth + 1) + text_text(p.0)) + (seq![COMMA] + ((gap(
        pretty,
        depth + 1,
    ) + text_text(p.1)) + (gap(pretty, depth) + seq![CLOSE_BRACKET]))))
}

/// What follows the first pair of an array.
pub open spec fn pairs_tail(pretty: bool, depth: nat, l: Seq<(Seq<char>, Seq<char>)>) -> Seq<u8>
    decreases l.len(),
{
    if l.len() == 0 {
        gap(pretty, depth) + seq![CLOSE_BRACKET]
    } else {
        seq![COMMA] + ((gap(pretty, depth + 1) + pair_text(pretty, depth + 1, l[0]))
            + pairs_tail(pretty, depth, l.drop_first()))
    }
}

/// An array of pairs.
pub open spec fn pair_list_text(pretty: bool, depth: nat, l: Seq<(Seq<char>, Seq<char>)>) -> Seq<
    u8,
> {
    if l.len() == 0 {
        seq![OPEN_BRACKET] + seq![CLOSE_BRACKET]
    } else {
        seq![OPEN_BRACKET] + ((gap(pretty, depth + 1) + pair_text(pretty, depth + 1, l[0]))
            + pairs_tail(pretty, depth, l.drop_first()))
    }
}

/// An array of two unsigned integers.
pub open spec fn u64_pair_text(pretty: bool, depth: nat, a: u64, b: u64) -> Seq<u8> {
    seq![OPEN_BRACKET] + ((gap(pretty, depth + 1) + dec_text(a as nat)) + (seq![COMMA] + ((gap(
        pretty,
        depth + 1,
    ) + dec_text(b as nat)) + (gap(pretty, depth) + seq![CLOSE_BRACKET]))))
}

/// The value of a field that stands at the given depth.
pub open spec fn value_text(pretty: bool, depth: nat, v: FieldValue) -> Seq<u8> {
    match v {
        FieldValue::Int(n) => int_text(n),
        FieldValue::Text(t) => text_text(t),
        FieldValue::OptText(t) => opt_text_text(t),
        FieldValue::Bytes(b) => bytes_text(b),
        FieldValue::TextList(l) => text_list_text(pretty, depth, l),
        FieldValue::PairList(l) => pair_list_text(pretty, depth, l),
        FieldValue::U64Pair(a, b) => u64_pair_text(pretty, depth, a, b),
    }
}

/// What stands before the value of a member that is not the first of its
/// object, which stands at the given depth: the comma, the name and the colon.
pub open spec fn member_start(pretty: bool, depth: nat, name: Seq<char>) -> Seq<u8> {
    seq![COMMA] + gap(pretty, depth + 1) + text_text(name) + colon(pretty)
}

/// A member that is not the first of its object, which stands at the given
/// depth: a comma, the name, a colon and the value.
pub open spec fn member_text(pretty: bool, depth: nat, name: Seq<char>, v: FieldValue) -> Seq<
    u8,
> {
    seq![COMMA] + ((gap(pretty, depth + 1) + text_text(name)) + (seq![COLON] + (after_colon(
        pretty,
    ) + value_text(pretty, depth + 1, v))))
}

/// The fields from the `i`-th on of an event that stands at the given depth.
#[verifier::opaque]
pub open spec fn fields_text(
    pretty: bool,
    depth: nat,
    fields: Seq<Field>,
    values: Seq<FieldValue>,
    i: int,
) -> Seq<u8>
    decreases fields.len() - i,
{
    if i < 0 || i >= fields.len() {
        Seq::empty()
    } else {
        member_text(pretty, depth, fields[i].name, values[i]) + fields_text(
            pretty,
            depth,
            fields,
            values,
            i + 1,
        )
    }
}

/// Writing the fields from the `i`-th on is writing the `i`-th and then the rest.
pub proof fn lemma_fields_text_step(
    pretty: bool,
    depth: nat,
    fields: Seq<Field>,
    values: Seq<FieldValue>,
    i: int,
)
    ensures
        fields_text(pretty, depth, fields, values, i) == if i < 0 || i >= fields.len() {
            Seq::<u8>::empty()
        } else {
            member_text(pretty, depth, fields[i].name, values[i]) + fields_text(
                pretty,
                depth,
                fields,
                values,
                i + 1,
            )
        },
{
    reveal(fields_text);
}

/// The start of an event: the opening brace and the tag.
pub open spec fn event_head_text(pretty: bool, depth: nat, kind: EventKind) -> Seq<u8> {
    seq![OPEN_BRACE] + ((gap(pretty, depth + 1) + text_text(tag_key())) + (seq![COLON] + (
        after_colon(pretty) + text_text(kind_tag(kind))
    )))
}

/// An event that stands at the given depth.
pub open spec fn event_text(pretty: bool, depth: nat, e: EventModel) -> Seq<u8> {
    event_head_text(pretty, depth, e.kind()) + (fields_text(
        pretty,
        depth,
        layout(e.kind()),
        fields_of(e),
        0,
    ) + (gap(pretty, depth) + seq![CLOSE_BRACE]))
}

/// Writes what stands before a member or an item at the given depth.
pub fn write_gap(out: &mut Vec<u8>, pretty: bool, depth: usize)
    requires
        depth <= MAX_DEPTH,
    ensures
        final(out)@ == old(out)@ + gap(pretty, depth as nat),
{
    reveal(gap);
    if pretty {
        out.push(0x0a);
        let mut i: usize = 0;
        while i < 2 * depth
            invariant
                depth <= MAX_DEPTH,
                i <= 2 * depth,
                out@ == old(out)@ + (seq![0x0au8] + spaces(i as nat)),
            decreases 2 * depth - i,
        {
            out.push(0x20);
            i += 1;
            assert(out@ =~= old(out)@ + (seq![0x0au8] + spaces(i as nat)));
        }
    } else {
        assert(out@ =~= old(out)@ + gap(pretty, depth as nat));
    }
}

/// Writes what stands between a name and its value.
pub fn write_colon(out: &mut Vec<u8>, pretty: bool)
    ensures
        final(out)@ == old(out)@ + colon(pretty),
{
    out.push(COLON);
    if pretty {
        out.push(0x20);
    }
    assert(out@ =~= old(out)@ + colon(pretty));
}

/// The lower-case hexadecimal digit of a value below sixteen.
pub fn hex_char_of(n: u8) -> (r: u8)
    requires
        n < 16,
    ensures
        r == hex_char(n as int),
{
    if n < 10 {
        0x30 + n
    } else {
        0x61 + n - 10
    }
}

/// Writes a byte as it stands inside a string.
fn write_escaped_byte(out: &mut Vec<u8>, c: u8)
    ensures
        final(out)@ == old(out)@ + escape_byte(c),
{
    if c == 0x22 {
        out.push(0x5c);
        out.push(0x22);
    } else if c == 0x5c {
        out.push(0x5c);
        out.push(0x5c);
    } else if c == 0x08 {
        out.push(0x5c);
        out.push(0x62);
    } else if c == 0x0c {
        out.push(0x5c);
        out.push(0x66);
    } else if c == 0x0a {
        out.push(0x5c);
        out.push(0x6e);
    } else if c == 0x0d {
        out.push(0x5c);
        out.push(0x72);
    } else if c == 0x09 {
        out.push(0x5c);
        out.push(0x74);
    } else if c < 0x20 {
        out.push(0x5c);
        out.push(0x75);
        out.push(0x30);
        out.push(0x30);
        out.push(hex_char_of(c / 16));
        out.push(hex_char_of(c % 16));
    } else {
        out.push(c);
    }
    assert(out@ =~= old(out)@ + escape_byte(c));
}

/// Writes a string.
pub fn write_string(out: &mut Vec<u8>, b: &[u8])
    ensures
        final(out)@ == old(out)@ + string_text(b@),
{
    let ghost target = old(out)@ + string_text(b@);
    out.push(QUOTE);
    let mut i: usize = 0;
    assert(b@.skip(0) =~= b@);
    assert(out@ + (escaped(b@) + seq![QUOTE]) =~= target);
    while i < b.len()
        invariant
            i <= b.len(),
            out@ + (escaped(b@.skip(i as int)) + seq![QUOTE]) == target,
        decreases b.len() - i,
    {
        let ghost rest = b@.skip(i as int);
        let ghost before = out@;
        write_escaped_byte(out, b[i]);
        proof {
            assert(rest.drop_first() =~= b@.skip(i + 1));
            assert(before + (escaped(rest) + seq![QUOTE]) =~= out@ + (escaped(rest.drop_first())
                + seq![QUOTE]));
        }
        i += 1;
    }
    let ghost before = out@;
    out.push(QUOTE);
    assert(out@ =~= before + (escaped(b@.skip(i as int)) + seq![QUOTE]));
}

/// Writes a text.
pub fn write_text(out: &mut Vec<u8>, t: &str)
    ensures
        final(out)@ == old(out)@ + text_text(t@),
{
    reveal(text_text);
    write_string(out, t.as_bytes());
}

/// Writes a natural number in decimal digits.
pub fn write_uint(out: &mut Vec<u8>, n: u64)
    ensures
        final(out)@ == old(out)@ + dec_text(n as nat),
    decreases n,
{
    if n < 10 {
        out.push(0x30 + n as u8);
        assert(out@ =~= old(out)@ + dec_text(n as nat));
    } else {
        write_uint(out, n / 10);
        out.push(0x30 + (n % 10) as u8);
        assert(out@ =~= old(out)@ + dec_text(n as nat));
    }
}

/// Writes a signed 32-bit integer.
pub fn write_i32(out: &mut Vec<u8>, n: i32)
    ensures
        final(out)@ == old(out)@ + int_text(n as int),
{
    if n < 0 {
        out.push(MINUS);
        write_uint(out, (-(n as i64)) as u64);
        assert(out@ =~= old(out)@ + int_text(n as int));
    } else {
        write_uint(out, n as u64);
    }
}

/// Writes a text, or the word `null` for an absent one.
pub fn write_opt_text(out: &mut Vec<u8>, t: &Option<String>)
    ensures
        final(out)@ == old(out)@ + opt_text_text(t.deep_view()),
{
    match t {
        None => {
            out.push(0x6e);
            out.push(0x75);
            out.push(0x6c);
            out.push(0x6c);
            assert(out@ =~= old(out)@ + null_text());
        },
        Some(text) => {
            write_text(out, text.as_str());
        },
    }
}

/// The hexadecimal text of bytes.
pub fn encode_hex(b: &[u8]) -> (r: Vec<u8>)
    ensures
        r@ == hex_text(b@),
{
    let mut out: Vec<u8> = Vec::new();
    let mut i: usize = 0;
    while i < b.len()
        invariant
            i <= b.len(),
            out@.len() == 2 * i,
            forall|j: int| 0 <= j < 2 * i ==> out@[j] == hex_text(b@)[j],
        decreases b.len() - i,
    {
        out.push(hex_char_of(b[i] / 16));
        out.push(hex_char_of(b[i] % 16));
        i += 1;
    }
    assert(out@ =~= hex_text(b@));
    out
}

/// Writes bytes as a string of hexadecimal text.
pub fn write_bytes(out: &mut Vec<u8>, b: &[u8])
    ensures
        final(out)@ == old(out)@ + bytes_text(b@),
{
    let h = encode_hex(b);
    write_string(out, h.as_slice());
}


/// Writes an array of texts that stands at the given depth.
pub fn write_text_list(out: &mut Vec<u8>, pretty: bool, depth: usize, l: &Vec<String>)
    requires
        depth < MAX_DEPTH,
    ensures
        final(out)@ == old(out)@ + text_list_text(pretty, depth as nat, l.deep_view()),
{
    let ghost target = old(out)@ + text_list_text(pretty, depth as nat, l.deep_view());
    let ghost items = l.deep_view();
    out.push(OPEN_BRACKET);
    if l.len() == 0 {
        out.push(CLOSE_BRACKET);
        assert(out@ =~= target);
        return ;
    }
    write_gap(out, pretty, depth + 1);
    write_text(out, l[0].as_str());
    assert(items.drop_first() =~= items.skip(1));
    assert(out@ + texts_tail(pretty, depth as nat, items.skip(1)) =~= target);
    let mut i: usize = 1;
    while i < l.len()
        invariant
            1 <= i <= l.len(),
            depth < MAX_DEPTH,
            items == l.deep_view(),
            out@ + texts_tail(pretty, depth as nat, items.skip(i as int)) == target,
        decreases l.len() - i,
    {
        let ghost rest = items.skip(i as int);
        let ghost before = out@;
        out.push(COMMA);
        write_gap(out, pretty, depth + 1);
        write_text(out, l[i].as_str());
        proof {
            assert(rest.drop_first() =~= items.skip(i + 1));
            assert(rest[0] == l[i as int]@);
            assert(before + texts_tail(pretty, depth as nat, rest) =~= out@ + texts_tail(
                pretty,
                depth as nat,
                rest.drop_first(),
            ));
        }
        i += 1;
    }
    let ghost before = out@;
    write_gap(out, pretty, depth);
    out.push(CLOSE_BRACKET);
    assert(out@ =~= before + texts_tail(pretty, depth as nat, items.skip(i as int)));
}

/// Writes a pair that stands at the given depth.
pub fn write_pair(out: &mut Vec<u8>, pretty: bool, depth: usize, p: &(String, String))
    requires
        depth < MAX_DEPTH,
    ensures
        final(out)@ == old(out)@ + pair_text(pretty, depth as nat, (p.0@, p.1@)),
{
    out.push(OPEN_BRACKET);
    write_gap(out, pretty, depth + 1);
    write_text(out, p.0.as_str());
    out.push(COMMA);
    write_gap(out, pretty, depth + 1);
    write_text(out, p.1.as_str());
    write_gap(out, pretty, depth);
    out.push(CLOSE_BRACKET);
    assert(out@ =~= old(out)@ + pair_text(pretty, depth as nat, (p.0@, p.1@)));
}

/// Writes an array of pairs that stands at the given depth.
pub fn write_pair_list(out: &mut Vec<u8>, pretty: bool, depth: usize, l: &Vec<(String, String)>)
    requires
        depth + 1 < MAX_DEPTH,
    ensures
        final(out)@ == old(out)@ + pair_list_text(pretty, depth as nat, l.deep_view()),
{
    let ghost target = old(out)@ + pair_list_text(pretty, depth as nat, l.deep_view());
    let ghost items = l.deep_view();
    out.push(OPEN_BRACKET);
    if l.len() == 0 {
        out.push(CLOSE_BRACKET);
        assert(out@ =~= target);
        return ;
    }
    write_gap(out, pretty, depth + 1);
    write_pair(out, pretty, depth + 1, &l[0]);
    assert(items.drop_first() =~= items.skip(1));
    assert(items[0] == (l[0].0@, l[0].1@));
    assert(out@ + pairs_tail(pretty, depth as nat, items.skip(1)) =~= target);
    let mut i: usize = 1;
    while i < l.len()
        invariant
            1 <= i <= l.len(),
            depth + 1 < MAX_DEPTH,
            items == l.deep_view(),
            out@ + pairs_tail(pretty, depth as nat, items.skip(i as int)) == target,
        decreases l.len() - i,
    {
        let ghost rest = items.skip(i as int);
        let ghost before = out@;
        out.push(COMMA);
        write_gap(out, pretty, depth + 1);
        write_pair(out, pretty, depth + 1, &l[i]);
        proof {
            assert(rest.drop_first() =~= items.skip(i + 1));
            assert(rest[0] == (l[i as int].0@, l[i as int].1@));
            assert(before + pairs_tail(pretty, depth as nat, rest) =~= out@ + pairs_tail(
                pretty,
                depth as nat,
                rest.drop_first(),
            ));
        }
        i += 1;
    }
    let ghost before = out@;
    write_gap(out, pretty, depth);
    out.push(CLOSE_BRACKET);
    assert(out@ =~= before + pairs_tail(pretty, depth as nat, items.skip(i as int)));
}

/// Writes an array of two unsigned integers that stands at the given depth.
pub fn write_u64_pair(out: &mut Vec<u8>, pretty: bool, depth: usize, a: u64, b: u64)
    requires
        depth < MAX_DEPTH,
    ensures
        final(out)@ == old(out)@ + u64_pair_text(pretty, depth as nat, a, b),
{
    out.push(OPEN_BRACKET);
    write_gap(out, pretty, depth + 1);
    write_uint(out, a);
    out.push(COMMA);
    write_gap(out, pretty, depth + 1);
    write_uint(out, b);
    write_gap(out, pretty, depth);
    out.push(CLOSE_BRACKET);
    assert(out@ =~= old(out)@ + u64_pair_text(pretty, depth as nat, a, b));
}

/// Writes what stands before the value of a member.
fn write_member_start(out: &mut Vec<u8>, pretty: bool, depth: usize, name: &str)
    requires
        depth < MAX_DEPTH,
    ensures
        final(out)@ == old(out)@ + member_start(pretty, depth as nat, name@),
{
    out.push(COMMA);
    write_gap(out, pretty, depth + 1);
    write_text(out, name);
    write_colon(out, pretty);
    assert(out@ =~= old(out)@ + member_start(pretty, depth as nat, name@));
}

/// Once the `i`-th member stands behind what was written, what is left to
/// write are the fields behind the `i`-th.
proof fn lemma_member_written(
    before: Seq<u8>,
    mid: Seq<u8>,
    after: Seq<u8>,
    pretty: bool,
    depth: nat,
    fields: Seq<Field>,
    values: Seq<FieldValue>,
    i: int,
)
    requires
        0 <= i < fields.len(),
        mid == before + member_start(pretty, depth, fields[i].name),
        after == mid + value_text(pretty, depth + 1, values[i]),
    ensures
        after + fields_text(pretty, depth, fields, values, i + 1) == before + fields_text(
            pretty,
            depth,
            fields,
            values,
            i,
        ),
{
    lemma_fields_text_step(pretty, depth, fields, values, i);
    assert(member_start(pretty, depth, fields[i].name) + value_text(pretty, depth + 1, values[i])
        =~= member_text(pretty, depth, fields[i].name, values[i]));
    assert(after + fields_text(pretty, depth, fields, values, i + 1) =~= before + fields_text(
        pretty,
        depth,
        fields,
        values,
        i,
    ));
}

/// Writes the six fields of an HTTP event.
fn write_http_fields(
    out: &mut Vec<u8>,
    pretty: bool,
    depth: usize,
    request_method: &String,
    request_url: &String,
    request_headers: &Vec<(String, String)>,
    status: u16,
    headers: &Vec<(String, String)>,
    body: &Vec<u8>,
)
    requires
        depth + 4 <= MAX_DEPTH,
    ensures
        final(out)@ == old(out)@ + fields_text(
            pretty,
            depth as nat,
            layout(EventKind::HttpResponse),
            fields_of(
                EventModel::HttpResponse {
                    request_method: request_method@,
                    request_url: request_url@,
                    request_headers: request_headers.deep_view(),
                    status,
                    headers: headers.deep_view(),
                    body: body@,
                },
            ),
            0,
        ),
{
    let ghost fields = layout(EventKind::HttpResponse);
    let ghost values = fields_of(
        EventModel::HttpResponse {
            request_method: request_method@,
            request_url: request_url@,
            request_headers: request_headers.deep_view(),
            status,
            headers: headers.deep_view(),
            body: body@,
        },
    );
    let ghost d = depth as nat;
    let ghost o0 = out@;
    write_member_start(out, pretty, depth, "request_method");
    let ghost m0 = out@;
    write_text(out, request_method.as_str());
    let ghost o1 = out@;
    proof {
        lemma_member_written(o0, m0, o1, pretty, d, fields, values, 0);
    }
    write_member_start(out, pretty, depth, "request_url");
    let ghost m1 = out@;
    write_text(out, request_url.as_str());
    let ghost o2 = out@;
    proof {
        lemma_member_written(o1, m1, o2, pretty, d, fields, values, 1);
    }
    write_member_start(out, pretty, depth, "request_headers");
    let ghost m2 = out@;
    write_pair_list(out, pretty, depth + 1, request_headers);
    let ghost o3 = out@;
    proof {
        lemma_member_written(o2, m2, o3, pretty, d, fields, values, 2);
    }
    write_member_start(out, pretty, depth, "status");
    let ghost m3 = out@;
    write_uint(out, status as u64);
    let ghost o4 = out@;
    proof {
        lemma_member_written(o3, m3, o4, pretty, d, fields, values, 3);
    }
    write_member_start(out, pretty, depth, "headers");
    let ghost m4 = out@;
    write_pair_list(out, pretty, depth + 1, headers);
    let ghost o5 = out@;
    proof {
        lemma_member_written(o4, m4, o5, pretty, d, fields, values, 4);
    }
    write_member_start(out, pretty, depth, "body");
    let ghost m5 = out@;
    write_bytes(out, body.as_slice());
    let ghost o6 = out@;
    proof {
        lemma_member_written(o5, m5, o6, pretty, d, fields, values, 5);
        lemma_fields_text_step(pretty, d, fields, values, 6);
        assert(o6 + Seq::<u8>::empty() =~= o6);
    }
}

/// Writes the fields of an event that stands at the given depth.
fn write_fields(out: &mut Vec<u8>, pretty: bool, depth: usize, e: &TraceEvent)
    requires
        depth + 4 <= MAX_DEPTH,
    ensures
        final(out)@ == old(out)@ + fields_text(
            pretty,
            depth as nat,
            layout(e@.kind()),
            fields_of(e@),
            0,
        ),
{
    let ghost fields = layout(e@.kind());
    let ghost values = fields_of(e@);
    let ghost d = depth as nat;
    match e {
        TraceEvent::ClockNow { seconds, nanoseconds } => {
            write_member_start(out, pretty, depth, "seconds");
            let ghost m0 = out@;
            write_uint(out, *seconds);
            let ghost o1 = out@;
            write_member_start(out, pretty, depth, "nanoseconds");
            let ghost m1 = out@;
            write_uint(out, *nanoseconds as u64);
            proof {
                lemma_member_written(old(out)@, m0, o1, pretty, d, fields, values, 0);
                lemma_member_written(o1, m1, out@, pretty, d, fields, values, 1);
                lemma_fields_text_step(pretty, d, fields, values, 2);
                assert(out@ + Seq::<u8>::empty() =~= out@);
            }
        },
        TraceEvent::ClockResolution { seconds, nanoseconds } => {
            write_member_start(out, pretty, depth, "seconds");
            let ghost m0 = out@;
            write_uint(out, *seconds);
            let ghost o1 = out@;
            write_member_start(out, pretty, depth, "nanoseconds");
            let ghost m1 = out@;
            write_uint(out, *nanoseconds as u64);
            proof {
                lemma_member_written(old(out)@, m0, o1, pretty, d, fields, values, 0);
                lemma_member_written(o1, m1, out@, pretty, d, fields, values, 1);
                lemma_fields_text_step(pretty, d, fields, values, 2);
                assert(out@ + Seq::<u8>::empty() =~= out@);
            }
        },
        TraceEvent::MonotonicClockNow { nanoseconds } => {
            write_member_start(out, pretty, depth, "nanoseconds");
            let ghost mid = out@;
            write_uint(out, *nanoseconds);
            proof {
                lemma_member_written(old(out)@, mid, out@, pretty, d, fields, values, 0);
                lemma_fields_text_step(pretty, d, fields, values, 1);
                assert(out@ + Seq::<u8>::empty() =~= out@);
            }
        },
        TraceEvent::MonotonicClockResolution { nanoseconds } => {
            write_member_start(out, pretty, depth, "nanoseconds");
            let ghost mid = out@;
            write_uint(out, *nanoseconds);
            proof {
                lemma_member_written(old(out)@, mid, out@, pretty, d, fields, values, 0);
                lemma_fields_text_step(pretty, d, fields, values, 1);
                assert(out@ + Seq::<u8>::empty() =~= out@);
            }
        },
        TraceEvent::Environment { entries } => {
            write_member_start(out, pretty, depth, "entries");
            let ghost mid = out@;
            write_pair_list(out, pretty, depth + 1, entries);
            proof {
                lemma_member_written(old(out)@, mid, out@, pretty, d, fields, values, 0);
                lemma_fields_text_step(pretty, d, fields, values, 1);
                assert(out@ + Seq::<u8>::empty() =~= out@);
            }
        },
        TraceEvent::Arguments { args } => {
            write_member_start(out, pretty, depth, "args");
            let ghost mid = out@;
            write_text_list(out, pretty, depth + 1, args);
            proof {
                lemma_member_written(old(out)@, mid, out@, pretty, d, fields, values, 0);
                lemma_fields_text_step(pretty, d, fields, values, 1);
                assert(out@ + Seq::<u8>::empty() =~= out@);
            }
        },
        TraceEvent::InitialCwd { path } => {
            write_member_start(out, pretty, depth, "path");
            let ghost mid = out@;
            write_opt_text(out, path);
            proof {
                lemma_member_written(old(out)@, mid, out@, pretty, d, fields, values, 0);
                lemma_fields_text_step(pretty, d, fields, values, 1);
                assert(out@ + Seq::<u8>::empty() =~= out@);
            }
        },
        TraceEvent::RandomBytes { bytes } => {
            write_member_start(out, pretty, depth, "bytes");
            let ghost mid = out@;
            write_bytes(out, bytes.as_slice());
            proof {
                lemma_member_written(old(out)@, mid, out@, pretty, d, fields, values, 0);
                lemma_fields_text_step(pretty, d, fields, values, 1);
                assert(out@ + Seq::<u8>::empty() =~= out@);
            }
        },
        TraceEvent::InsecureRandomBytes { bytes } => {
            write_member_start(out, pretty, depth, "bytes");
            let ghost mid = out@;
            write_bytes(out, bytes.as_slice());
            proof {
                lemma_member_written(old(out)@, mid, out@, pretty, d, fields, values, 0);
                lemma_fields_text_step(pretty, d, fields, values, 1);
                assert(out@ + Seq::<u8>::empty() =~= out@);
            }
        },
        TraceEvent::RandomU64 { value } => {
            write_member_start(out, pretty, depth, "value");
            let ghost mid = out@;
            write_uint(out, *value);
            proof {
                lemma_member_written(old(out)@, mid, out@, pretty, d, fields, values, 0);
                lemma_fields_text_step(pretty, d, fields, values, 1);
                assert(out@ + Seq::<u8>::empty() =~= out@);
            }
        },
        TraceEvent::InsecureRandomU64 { value } => {
            write_member_start(out, pretty, depth, "value");
            let ghost mid = out@;
            write_uint(out, *value);
            proof {
                lemma_member_written(old(out)@, mid, out@, pretty, d, fields, values, 0);
                lemma_fields_text_step(pretty, d, fields, values, 1);
                assert(out@ + Seq::<u8>::empty() =~= out@);
            }
        },
        TraceEvent::InsecureSeed { seed } => {
            write_member_start(out, pretty, depth, "seed");
            let ghost mid = out@;
            write_u64_pair(out, pretty, depth + 1, seed.0, seed.1);
            proof {
                lemma_member_written(old(out)@, mid, out@, pretty, d, fields, values, 0);
                lemma_fields_text_step(pretty, d, fields, values, 1);
                assert(out@ + Seq::<u8>::empty() =~= out@);
            }
        },
        TraceEvent::Read => {
            proof {
                lemma_fields_text_step(pretty, d, fields, values, 0);
                assert(out@ + Seq::<u8>::empty() =~= out@);
            }
        },
        TraceEvent::HttpResponse {
            request_method,
            request_url,
            request_headers,
            status,
            headers,
            body,
        } => {
            write_http_fields(
                out,
                pretty,
                depth,
                request_method,
                request_url,
                request_headers,
                *status,
                headers,
                body,
            );
        },
        TraceEvent::Exit { code } => {
            write_member_start(out, pretty, depth, "code");
            let ghost mid = out@;
            write_i32(out, *code);
            proof {
                lemma_member_written(old(out)@, mid, out@, pretty, d, fields, values, 0);
                lemma_fields_text_step(pretty, d, fields, values, 1);
                assert(out@ + Seq::<u8>::empty() =~= out@);
            }
        },
    }
}

/// Writes the start of an event: the opening brace and the tag.
fn write_event_head(out: &mut Vec<u8>, pretty: bool, depth: usize, kind: EventKind)
    requires
        depth < MAX_DEPTH,
    ensures
        final(out)@ == old(out)@ + event_head_text(pretty, depth as nat, kind),
{
    out.push(OPEN_BRACE);
    write_gap(out, pretty, depth + 1);
    write_text(out, "call");
    write_colon(out, pretty);
    write_text(out, tag_of(kind));
    assert(out@ =~= old(out)@ + event_head_text(pretty, depth as nat, kind));
}

/// An event is written once its start, its fields and its closing brace are.
proof fn lemma_event_written(
    before: Seq<u8>,
    head: Seq<u8>,
    body: Seq<u8>,
    close: Seq<u8>,
    after: Seq<u8>,
)
    requires
        after == before + head + body + close,
    ensures
        after == before + (head + (body + close)),
{
    assert(before + head + body + close =~= before + (head + (body + close)));
}

/// Writes an event that stands at the given depth.
pub fn write_event(out: &mut Vec<u8>, pretty: bool, depth: usize, e: &TraceEvent)
    requires
        depth + 4 <= MAX_DEPTH,
    ensures
        final(out)@ == old(out)@ + event_text(pretty, depth as nat, e@),
{
    let kind = e.kind();
    write_event_head(out, pretty, depth, kind);
    write_fields(out, pretty, depth, e);
    let ghost mid = out@;
    write_gap(out, pretty, depth);
    out.push(CLOSE_BRACE);
    proof {
        let close = gap(pretty, depth as nat) + seq![CLOSE_BRACE];
        assert(out@ =~= mid + close);
        lemma_event_written(
            old(out)@,
            event_head_text(pretty, depth as nat, kind),
            fields_text(pretty, depth as nat, layout(kind), fields_of(e@), 0),
            close,
            out@,
        );
    }
}


/// The events behind the first: each behind a comma and the white space `sep`.
pub open spec fn events_tail(sep: Seq<u8>, pretty: bool, depth: nat, l: Seq<EventModel>) -> Seq<
    u8,
>
    decreases l.len(),
{
    if l.len() == 0 {
        Seq::empty()
    } else {
        seq![COMMA] + ((sep + event_text(pretty, depth, l[0])) + events_tail(
            sep,
            pretty,
            depth,
            l.drop_first(),
        ))
    }
}

/// Events, with a comma and the white space `sep` between them.
pub open spec fn events_text(sep: Seq<u8>, pretty: bool, depth: nat, l: Seq<EventModel>) -> Seq<
    u8,
> {
    if l.len() == 0 {
        Seq::empty()
    } else {
        event_text(pretty, depth, l[0]) + events_tail(sep, pretty, depth, l.drop_first())
    }
}

/// What opens a trace: the brace, the name of the events and the bracket,
/// with the white space `lead` before the name and `space` behind the colon.
pub open spec fn trace_head(lead: Seq<u8>, space: Seq<u8>) -> Seq<u8> {
    seq![OPEN_BRACE] + ((lead + text_text(events_key())) + (seq![COLON] + (space
        + seq![OPEN_BRACKET])))
}

/// A trace in its pretty form: every member, every event and every item on a
/// line of its own, indented by two spaces for each level.
pub open spec fn pretty_trace(events: Seq<EventModel>) -> Seq<u8> {
    if events.len() == 0 {
        trace_head(gap(true, 1), seq![0x20u8]) + seq![CLOSE_BRACKET] + gap(true, 0)
            + seq![CLOSE_BRACE]
    } else {
        trace_head(gap(true, 1), seq![0x20u8]) + gap(true, 2) + events_text(
            gap(true, 2),
            true,
            2,
            events,
        ) + gap(true, 1) + seq![CLOSE_BRACKET] + gap(true, 0) + seq![CLOSE_BRACE]
    }
}

/// The line feed that a recording puts before each event.
pub open spec fn line_feed() -> Seq<u8> {
    seq![0x0au8]
}

/// What a recording starts with.
pub open spec fn stream_open() -> Seq<u8> {
    trace_head(Seq::empty(), Seq::empty()) + line_feed()
}

/// What a recording ends with when it is closed.
pub open spec fn stream_close() -> Seq<u8> {
    seq![0x0au8, CLOSE_BRACKET, CLOSE_BRACE]
}

/// What a recording appends for an event: the event in compact form, behind
/// a comma and a line feed where it is not the first.
pub open spec fn stream_frame(first: bool, e: EventModel) -> Seq<u8> {
    if first {
        event_text(false, 0, e)
    } else {
        seq![COMMA] + (line_feed() + event_text(false, 0, e))
    }
}

/// The events of a recording, as they stand between its start and its end.
pub open spec fn stream_events(events: Seq<EventModel>) -> Seq<u8> {
    events_text(line_feed(), false, 0, events)
}

/// A recording of the given events, closed or left open.
pub open spec fn stream_trace(events: Seq<EventModel>, closed: bool) -> Seq<u8> {
    if closed {
        stream_open() + stream_events(events) + stream_close()
    } else {
        stream_open() + stream_events(events)
    }
}

/// One more event behind the others is one more comma, white space and event
/// behind what was written for them.
pub proof fn lemma_events_tail_push(
    sep: Seq<u8>,
    pretty: bool,
    depth: nat,
    l: Seq<EventModel>,
    e: EventModel,
)
    ensures
        events_tail(sep, pretty, depth, l.push(e)) == events_tail(sep, pretty, depth, l) + (
            seq![COMMA] + (sep + event_text(pretty, depth, e))
        ),
    decreases l.len(),
{
    let one = seq![COMMA] + (sep + event_text(pretty, depth, e));
    if l.len() == 0 {
        assert(l.push(e).drop_first() =~= l);
        assert(events_tail(sep, pretty, depth, l.push(e)) =~= events_tail(sep, pretty, depth, l)
            + one);
    } else {
        assert(l.push(e).drop_first() =~= l.drop_first().push(e));
        lemma_events_tail_push(sep, pretty, depth, l.drop_first(), e);
        assert(events_tail(sep, pretty, depth, l.push(e)) =~= events_tail(sep, pretty, depth, l)
            + one);
    }
}

/// Recording one more event appends its frame to what was recorded.
pub proof fn lemma_stream_push(events: Seq<EventModel>, e: EventModel)
    ensures
        stream_events(events.push(e)) == stream_events(events) + stream_frame(
            events.len() == 0,
            e,
        ),
{
    if events.len() == 0 {
        assert(events.push(e).drop_first() =~= events);
        assert(stream_events(events.push(e)) =~= stream_events(events) + stream_frame(true, e));
    } else {
        assert(events.push(e).drop_first() =~= events.drop_first().push(e));
        lemma_events_tail_push(line_feed(), false, 0, events.drop_first(), e);
        assert(stream_events(events.push(e)) =~= stream_events(events) + stream_frame(false, e));
    }
}

/// Writes what opens a trace in its pretty form.
fn write_pretty_head(out: &mut Vec<u8>)
    ensures
        final(out)@ == old(out)@ + trace_head(gap(true, 1), seq![0x20u8]),
{
    out.push(OPEN_BRACE);
    write_gap(out, true, 1);
    write_text(out, "events");
    out.push(COLON);
    out.push(0x20);
    out.push(OPEN_BRACKET);
    assert(out@ =~= old(out)@ + trace_head(gap(true, 1), seq![0x20u8]));
}

/// A trace in its pretty form.
pub fn write_pretty_trace(events: &Vec<TraceEvent>) -> (r: Vec<u8>)
    ensures
        r@ == pretty_trace(events.deep_view()),
{
    let mut out: Vec<u8> = Vec::new();
    let ghost items = events.deep_view();
    write_pretty_head(&mut out);
    if events.len() == 0 {
        out.push(CLOSE_BRACKET);
        write_gap(&mut out, true, 0);
        out.push(CLOSE_BRACE);
        assert(out@ =~= pretty_trace(items));
        return out;
    }
    let ghost close = gap(true, 1) + seq![CLOSE_BRACKET] + gap(true, 0) + seq![CLOSE_BRACE];
    write_gap(&mut out, true, 2);
    write_event(&mut out, true, 2, &events[0]);
    assert(items.drop_first() =~= items.skip(1));
    assert(items[0] == events[0]@);
    assert(out@ + (events_tail(gap(true, 2), true, 2, items.skip(1)) + close) =~= pretty_trace(
        items,
    ));
    let mut i: usize = 1;
    while i < events.len()
        invariant
            1 <= i <= events.len(),
            items == events.deep_view(),
            out@ + (events_tail(gap(true, 2), true, 2, items.skip(i as int)) + close)
                == pretty_trace(items),
        decreases events.len() - i,
    {
        let ghost rest = items.skip(i as int);
        let ghost before = out@;
        out.push(COMMA);
        write_gap(&mut out, true, 2);
        write_event(&mut out, true, 2, &events[i]);
        proof {
            assert(rest.drop_first() =~= items.skip(i + 1));
            assert(rest[0] == events[i as int]@);
            assert(before + (events_tail(gap(true, 2), true, 2, rest) + close) =~= out@ + (
                events_tail(gap(true, 2), true, 2, rest.drop_first()) + close
            ));
        }
        i += 1;
    }
    let ghost before = out@;
    write_gap(&mut out, true, 1);
    out.push(CLOSE_BRACKET);
    write_gap(&mut out, true, 0);
    out.push(CLOSE_BRACE);
    assert(out@ =~= before + (events_tail(gap(true, 2), true, 2, items.skip(i as int)) + close));
    out
}

/// What a recording starts with.
pub fn stream_preamble() -> (r: Vec<u8>)
    ensures
        r@ == stream_open(),
{
    let mut out: Vec<u8> = Vec::new();
    out.push(OPEN_BRACE);
    write_text(&mut out, "events");
    out.push(COLON);
    out.push(OPEN_BRACKET);
    out.push(0x0a);
    assert(out@ =~= stream_open());
    out
}

/// Appends what a recording holds for an event.
pub fn write_stream_frame(out: &mut Vec<u8>, first: bool, e: &TraceEvent)
    ensures
        final(out)@ == old(out)@ + stream_frame(first, e@),
{
    if !first {
        out.push(COMMA);
        out.push(0x0a);
    }
    write_event(out, false, 0, e);
    assert(out@ =~= old(out)@ + stream_frame(first, e@));
}

/// Appends what a recording ends with.
pub fn write_stream_close(out: &mut Vec<u8>)
    ensures
        final(out)@ == old(out)@ + stream_close(),
{
    out.push(0x0a);
    out.push(CLOSE_BRACKET);
    out.push(CLOSE_BRACE);
    assert(out@ =~= old(out)@ + stream_close());
}

} // verus!
