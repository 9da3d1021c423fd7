//! The text encoding of a trace, as it is read: one object whose `events`
//! member is the array of the events, each an object of its tag and its fields
//! in the order of its layout. Bytes are written as hexadecimal text.
//! White space may stand before every token. A file that ends behind the
//! opening of the array, or behind an event, is read as the events it holds:
//! that is what a recording leaves that was not closed.
//!
//! Only what the writers write is read: in every event the tag stands first
//! and the fields follow in the order of the layout. An event whose members
//! stand in another order, or that holds a member which its layout does not
//! name, is refused.

use super::event::{EventKind, EventModel, TraceEvent};
use super::octets::{bytes_eq, string_from_utf8, utf8};
use super::schema::{
    event_of, kind_from_tag, kind_of_tag, layout, tag_key, Field, FieldType, FieldValue,
};
use vstd::prelude::*;
use vstd::utf8::{decode_utf8, encode_scalar, valid_utf8};

verus! {

/// The double quote.
pub const QUOTE: u8 = 0x22;

/// The backslash.
pub const BACKSLASH: u8 = 0x5c;

/// The comma.
pub const COMMA: u8 = 0x2c;

/// The colon.
pub const COLON: u8 = 0x3a;

/// The bracket that opens an array.
pub const OPEN_BRACKET: u8 = 0x5b;

/// The bracket that closes an array.
pub const CLOSE_BRACKET: u8 = 0x5d;

/// The brace that opens an object.
pub const OPEN_BRACE: u8 = 0x7b;

/// The brace that closes an object.
pub const CLOSE_BRACE: u8 = 0x7d;

/// The minus sign.
pub const MINUS: u8 = 0x2d;

/// The digit zero.
pub const ZERO: u8 = 0x30;

/// True for a space, a line feed, a carriage return and a tab.
pub open spec fn is_ws(b: u8) -> bool {
    b == 0x20 || b == 0x0a || b == 0x0d || b == 0x09
}

/// True for a decimal digit.
pub open spec fn is_digit(b: u8) -> bool {
    0x30 <= b <= 0x39
}

/// The first place from `pos` on that holds no white space.
pub open spec fn ws_end(s: Seq<u8>, pos: int) -> int
    decreases s.len() - pos,
{
    if 0 <= pos < s.len() && is_ws(s[pos]) {
        ws_end(s, pos + 1)
    } else {
        pos
    }
}

/// The place behind the byte `c`, which must be the first behind the white
/// space at `pos`.
pub open spec fn byte_at(s: Seq<u8>, pos: int, c: u8) -> Option<int> {
    let p = ws_end(s, pos);
    if 0 <= p < s.len() && s[p] == c {
        Some(p + 1)
    } else {
        None
    }
}

/// The value of a hexadecimal digit, of either case.
pub open spec fn hex_val(b: u8) -> Option<u8> {
    if 0x30 <= b <= 0x39 {
        Some((b - 0x30) as u8)
    } else if 0x61 <= b <= 0x66 {
        Some((b - 0x61 + 10) as u8)
    } else if 0x41 <= b <= 0x46 {
        Some((b - 0x41 + 10) as u8)
    } else {
        None
    }
}

/// The value of the four hexadecimal digits at `pos`.
pub open spec fn hex4_at(s: Seq<u8>, pos: int) -> Option<u32> {
    if 0 <= pos && pos + 4 <= s.len() && hex_val(s[pos]) is Some && hex_val(s[pos + 1]) is Some
        && hex_val(s[pos + 2]) is Some && hex_val(s[pos + 3]) is Some {
        Some(
            (((hex_val(s[pos])->0 as int * 16 + hex_val(s[pos + 1])->0 as int) * 16 + hex_val(
                s[pos + 2],
            )->0 as int) * 16 + hex_val(s[pos + 3])->0 as int) as u32,
        )
    } else {
        None
    }
}

/// The bytes that the escape behind a backslash stands for; `pos` is the
/// place behind the backslash. A `u` escape stands for the UTF-8 bytes of its
/// code point; two of them may give a code point as a surrogate pair.
pub open spec fn escape_at(s: Seq<u8>, pos: int) -> Option<(Seq<u8>, int)> {
    if pos < 0 || pos >= s.len() {
        None
    } else if s[pos] == 0x22 || s[pos] == 0x5c || s[pos] == 0x2f {
        Some((seq![s[pos]], pos + 1))
    } else if s[pos] == 0x62 {
        Some((seq![0x08u8], pos + 1))
    } else if s[pos] == 0x66 {
        Some((seq![0x0cu8], pos + 1))
    } else if s[pos] == 0x6e {
        Some((seq![0x0au8], pos + 1))
    } else if s[pos] == 0x72 {
        Some((seq![0x0du8], pos + 1))
    } else if s[pos] == 0x74 {
        Some((seq![0x09u8], pos + 1))
    } else if s[pos] == 0x75 {
        match hex4_at(s, pos + 1) {
            None => None,
            Some(unit) => if 0xd800 <= unit <= 0xdbff {
                if pos + 11 <= s.len() && s[pos + 5] == 0x5c && s[pos + 6] == 0x75 {
                    match hex4_at(s, pos + 7) {
                        None => None,
                        Some(low) => if 0xdc00 <= low <= 0xdfff {
                            Some(
                                (
                                    encode_scalar(
                                        (0x10000 + (unit - 0xd800) * 1024 + (low - 0xdc00)) as u32,
                                    ),
                                    pos + 11,
                                ),
                            )
                        } else {
                            None
                        },
                    }
                } else {
                    None
                }
            } else if 0xdc00 <= unit <= 0xdfff {
                None
            } else {
                Some((encode_scalar(unit), pos + 5))
            },
        }
    } else {
        None
    }
}

/// The bytes of a string from `pos` on up to its closing quote, appended to
/// `acc`, and the place behind the quote.
pub open spec fn string_body(s: Seq<u8>, pos: int, acc: Seq<u8>) -> Option<(Seq<u8>, int)>
    decreases s.len() - pos,
{
    if pos < 0 || pos >= s.len() {
        None
    } else if s[pos] == QUOTE {
        Some((acc, pos + 1))
    } else if s[pos] == BACKSLASH {
        match escape_at(s, pos + 1) {
            None => None,
            Some((bytes, next)) => if pos < next <= s.len() {
                string_body(s, next, acc + bytes)
            } else {
                None
            },
        }
    } else if s[pos] < 0x20 {
        None
    } else {
        string_body(s, pos + 1, acc.push(s[pos]))
    }
}

/// The bytes of the string at `pos`, with its escapes resolved.
#[verifier::opaque]
pub open spec fn string_at(s: Seq<u8>, pos: int) -> Option<(Seq<u8>, int)> {
    match byte_at(s, pos, QUOTE) {
        None => None,
        Some(p) => string_body(s, p, Seq::empty()),
    }
}

/// The text of the string at `pos`; its bytes must be valid UTF-8.
#[verifier::opaque]
pub open spec fn text_at(s: Seq<u8>, pos: int) -> Option<(Seq<char>, int)> {
    match string_at(s, pos) {
        None => None,
        Some((bytes, next)) => if valid_utf8(bytes) {
            Some((decode_utf8(bytes), next))
        } else {
            None
        },
    }
}

/// The place behind the string at `pos`, which must be the given name.
#[verifier::opaque]
pub open spec fn key_at(s: Seq<u8>, pos: int, name: Seq<char>) -> Option<int> {
    match string_at(s, pos) {
        None => None,
        Some((bytes, next)) => if bytes == utf8(name) {
            Some(next)
        } else {
            None
        },
    }
}

/// The value of the digits from `pos` on, read behind the value `acc`, and
/// the place behind them.
pub open spec fn digits_at(s: Seq<u8>, pos: int, acc: nat) -> (nat, int)
    decreases s.len() - pos,
{
    if 0 <= pos < s.len() && is_digit(s[pos]) {
        digits_at(s, pos + 1, acc * 10 + (s[pos] - 0x30) as nat)
    } else {
        (acc, pos)
    }
}

/// The number whose digits start at `pos`: at least one digit, and no zero
/// before another digit.
pub open spec fn number_at(s: Seq<u8>, pos: int) -> Option<(nat, int)> {
    if 0 <= pos < s.len() && is_digit(s[pos]) {
        let r = digits_at(s, pos, 0);
        if s[pos] == ZERO && r.1 != pos + 1 {
            None
        } else {
            Some(r)
        }
    } else {
        None
    }
}

/// The unsigned integer at `pos`, which must not exceed `max`.
#[verifier::opaque]
pub open spec fn uint_at(s: Seq<u8>, pos: int, max: u64) -> Option<(u64, int)> {
    match number_at(s, ws_end(s, pos)) {
        None => None,
        Some((v, end)) => if v <= max {
            Some((v as u64, end))
        } else {
            None
        },
    }
}

/// The signed 32-bit integer at `pos`.
#[verifier::opaque]
pub open spec fn i32_at(s: Seq<u8>, pos: int) -> Option<(i32, int)> {
    let p = ws_end(s, pos);
    if 0 <= p < s.len() && s[p] == MINUS {
        match number_at(s, p + 1) {
            None => None,
            Some((v, end)) => if 1 <= v <= 2147483648 {
                Some(((-(v as int)) as i32, end))
            } else {
                None
            },
        }
    } else {
        match number_at(s, p) {
            None => None,
            Some((v, end)) => if v <= i32::MAX {
                Some((v as i32, end))
            } else {
                None
            },
        }
    }
}

/// True when the word `null` stands behind the white space at `pos`.
pub open spec fn null_at(s: Seq<u8>, pos: int) -> bool {
    let p = ws_end(s, pos);
    0 <= p && p + 4 <= s.len() && s[p] == 0x6e && s[p + 1] == 0x75 && s[p + 2] == 0x6c && s[p + 3]
        == 0x6c
}

/// The text at `pos`, or nothing where `null` stands there.
#[verifier::opaque]
pub open spec fn opt_text_at(s: Seq<u8>, pos: int) -> Option<(Option<Seq<char>>, int)> {
    if null_at(s, pos) {
        Some((None, ws_end(s, pos) + 4))
    } else {
        match text_at(s, pos) {
            None => None,
            Some((t, next)) => Some((Some(t), next)),
        }
    }
}

/// True when every byte is a hexadecimal digit and their number is even.
pub open spec fn is_hex(h: Seq<u8>) -> bool {
    h.len() % 2 == 0 && forall|i: int| 0 <= i < h.len() ==> hex_val(#[trigger] h[i]) is Some
}

/// The bytes that hexadecimal text stands for, two digits for each.
pub open spec fn hex_decode(h: Seq<u8>) -> Seq<u8> {
    Seq::new(
        h.len() / 2,
        |i: int| (hex_val(h[2 * i])->0 as int * 16 + hex_val(h[2 * i + 1])->0 as int) as u8,
    )
}

/// The bytes at `pos`: a string of hexadecimal text.
#[verifier::opaque]
pub open spec fn bytes_at(s: Seq<u8>, pos: int) -> Option<(Seq<u8>, int)> {
    match string_at(s, pos) {
        None => None,
        Some((h, next)) => if is_hex(h) {
            Some((hex_decode(h), next))
        } else {
            None
        },
    }
}

/// The texts that follow a first one in an array, appended to `acc`: each
/// behind a comma, up to the closing bracket.
pub open spec fn texts_more(s: Seq<u8>, pos: int, acc: Seq<Seq<char>>) -> Option<
    (Seq<Seq<char>>, int),
>
    decreases s.len() - pos,
{
    let p = ws_end(s, pos);
    if p < 0 || p >= s.len() {
        None
    } else if s[p] == CLOSE_BRACKET {
        Some((acc, p + 1))
    } else if s[p] == COMMA {
        match text_at(s, p + 1) {
            None => None,
            Some((t, next)) => if p < next <= s.len() && pos <= p {
                texts_more(s, next, acc.push(t))
            } else {
                None
            },
        }
    } else {
        None
    }
}

/// The array of texts at `pos`.
#[verifier::opaque]
pub open spec fn text_list_at(s: Seq<u8>, pos: int) -> Option<(Seq<Seq<char>>, int)> {
    match byte_at(s, pos, OPEN_BRACKET) {
        None => None,
        Some(p) => match byte_at(s, p, CLOSE_BRACKET) {
            Some(end) => Some((Seq::empty(), end)),
            None => match text_at(s, p) {
                None => None,
                Some((t, next)) => texts_more(s, next, seq![t]),
            },
        },
    }
}

/// The pair at `pos`: an array of two texts.
#[verifier::opaque]
pub open spec fn pair_at(s: Seq<u8>, pos: int) -> Option<((Seq<char>, Seq<char>), int)> {
    match byte_at(s, pos, OPEN_BRACKET) {
        None => None,
        Some(at0) => match text_at(s, at0) {
            None => None,
            Some((a, at1)) => match byte_at(s, at1, COMMA) {
                None => None,
                Some(at2) => match text_at(s, at2) {
                    None => None,
                    Some((b, at3)) => match byte_at(s, at3, CLOSE_BRACKET) {
                        None => None,
                        Some(at4) => Some(((a, b), at4)),
                    },
                },
            },
        },
    }
}

/// The pairs that follow a first one in an array, appended to `acc`.
pub open spec fn pairs_more(s: Seq<u8>, pos: int, acc: Seq<(Seq<char>, Seq<char>)>) -> Option<
    (Seq<(Seq<char>, Seq<char>)>, int),
>
    decreases s.len() - pos,
{
    let p = ws_end(s, pos);
    if p < 0 || p >= s.len() {
        None
    } else if s[p] == CLOSE_BRACKET {
        Some((acc, p + 1))
    } else if s[p] == COMMA {
        match pair_at(s, p + 1) {
            None => None,
            Some((pair, next)) => if p < next <= s.len() && pos <= p {
                pairs_more(s, next, acc.push(pair))
            } else {
                None
            },
        }
    } else {
        None
    }
}

/// The array of pairs at `pos`.
#[verifier::opaque]
pub open spec fn pair_list_at(s: Seq<u8>, pos: int) -> Option<
    (Seq<(Seq<char>, Seq<char>)>, int),
> {
    match byte_at(s, pos, OPEN_BRACKET) {
        None => None,
        Some(p) => match byte_at(s, p, CLOSE_BRACKET) {
            Some(end) => Some((Seq::empty(), end)),
            None => match pair_at(s, p) {
                None => None,
                Some((pair, next)) => pairs_more(s, next, seq![pair]),
            },
        },
    }
}

/// The two unsigned integers at `pos`: an array of two.
#[verifier::opaque]
pub open spec fn u64_pair_at(s: Seq<u8>, pos: int) -> Option<((u64, u64), int)> {
    match byte_at(s, pos, OPEN_BRACKET) {
        None => None,
        Some(at0) => match uint_at(s, at0, u64::MAX) {
            None => None,
            Some((a, at1)) => match byte_at(s, at1, COMMA) {
                None => None,
                Some(at2) => match uint_at(s, at2, u64::MAX) {
                    None => None,
                    Some((b, at3)) => match byte_at(s, at3, CLOSE_BRACKET) {
                        None => None,
                        Some(at4) => Some(((a, b), at4)),
                    },
                },
            },
        },
    }
}

/// The value of the given type at `pos`.
pub open spec fn value_at(s: Seq<u8>, pos: int, ty: FieldType) -> Option<(FieldValue, int)> {
    match ty {
        FieldType::U64 => match uint_at(s, pos, u64::MAX) {
            None => None,
            Some((n, next)) => Some((FieldValue::Int(n as int), next)),
        },
        FieldType::U32 => match uint_at(s, pos, u32::MAX as u64) {
            None => None,
            Some((n, next)) => Some((FieldValue::Int(n as int), next)),
        },
        FieldType::U16 => match uint_at(s, pos, u16::MAX as u64) {
            None => None,
            Some((n, next)) => Some((FieldValue::Int(n as int), next)),
        },
        FieldType::I32 => match i32_at(s, pos) {
            None => None,
            Some((n, next)) => Some((FieldValue::Int(n as int), next)),
        },
        FieldType::Text => match text_at(s, pos) {
            None => None,
            Some((t, next)) => Some((FieldValue::Text(t), next)),
        },
        FieldType::OptText => match opt_text_at(s, pos) {
            None => None,
            Some((t, next)) => Some((FieldValue::OptText(t), next)),
        },
        FieldType::Bytes => match bytes_at(s, pos) {
            None => None,
            Some((b, next)) => Some((FieldValue::Bytes(b), next)),
        },
        FieldType::TextList => match text_list_at(s, pos) {
            None => None,
            Some((l, next)) => Some((FieldValue::TextList(l), next)),
        },
        FieldType::PairList => match pair_list_at(s, pos) {
            None => None,
            Some((l, next)) => Some((FieldValue::PairList(l), next)),
        },
        FieldType::U64Pair => match u64_pair_at(s, pos) {
            None => None,
            Some((p, next)) => Some((FieldValue::U64Pair(p.0, p.1), next)),
        },
    }
}

/// The member at `pos`: its name, a colon and its value.
pub open spec fn field_at(s: Seq<u8>, pos: int, field: Field) -> Option<(FieldValue, int)> {
    match key_at(s, pos, field.name) {
        None => None,
        Some(at0) => match byte_at(s, at0, COLON) {
            None => None,
            Some(at1) => value_at(s, at1, field.ty),
        },
    }
}

/// The member behind the comma at `pos`.
#[verifier::opaque]
pub open spec fn member_at(s: Seq<u8>, pos: int, field: Field) -> Option<(FieldValue, int)> {
    match byte_at(s, pos, COMMA) {
        None => None,
        Some(p) => field_at(s, p, field),
    }
}

/// The fields from the `i`-th on, each behind a comma, read from `pos` on and
/// appended to `acc`.
#[verifier::opaque]
pub open spec fn fields_at(s: Seq<u8>, pos: int, fields: Seq<Field>, i: int, acc: Seq<FieldValue>)
    -> Option<(Seq<FieldValue>, int)>
    decreases fields.len() - i,
{
    if i < 0 || i >= fields.len() {
        Some((acc, pos))
    } else {
        match member_at(s, pos, fields[i]) {
            None => None,
            Some((v, next)) => fields_at(s, next, fields, i + 1, acc.push(v)),
        }
    }
}

/// Reading the fields from the `i`-th on is reading a comma, the `i`-th and
/// then the rest.
pub proof fn lemma_fields_step(
    s: Seq<u8>,
    pos: int,
    fields: Seq<Field>,
    i: int,
    acc: Seq<FieldValue>,
)
    ensures
        fields_at(s, pos, fields, i, acc) == if i < 0 || i >= fields.len() {
            Some((acc, pos))
        } else {
            match member_at(s, pos, fields[i]) {
            None => None,
            Some((v, next)) => fields_at(s, next, fields, i + 1, acc.push(v)),
        }
        },
{
    reveal(fields_at);
}

/// The start of the event at `pos`: the opening brace and the tag, which
/// names the kind of the event.
#[verifier::opaque]
pub open spec fn event_head_at(s: Seq<u8>, pos: int) -> Option<(EventKind, int)> {
    match byte_at(s, pos, OPEN_BRACE) {
        None => None,
        Some(at0) => match key_at(s, at0, tag_key()) {
            None => None,
            Some(at1) => match byte_at(s, at1, COLON) {
                None => None,
                Some(at2) => match string_at(s, at2) {
                    None => None,
                    Some((tag, at3)) => match kind_of_tag(tag) {
                        None => None,
                        Some(kind) => Some((kind, at3)),
                    },
                },
            },
        },
    }
}

/// The event of the given kind whose fields start at `pos`, up to its closing
/// brace.
#[verifier::opaque]
pub open spec fn body_at(s: Seq<u8>, pos: int, kind: EventKind) -> Option<(EventModel, int)> {
    match fields_at(s, pos, layout(kind), 0, Seq::empty()) {
        None => None,
        Some((values, p)) => match byte_at(s, p, CLOSE_BRACE) {
            None => None,
            Some(next) => Some((event_of(kind, values), next)),
        },
    }
}

/// The event at `pos` and the place behind it.
#[verifier::opaque]
pub open spec fn event_at(s: Seq<u8>, pos: int) -> Option<(EventModel, int)> {
    match event_head_at(s, pos) {
        None => None,
        Some((kind, p)) => body_at(s, p, kind),
    }
}

/// True when, behind the closing bracket of the events, the object closes
/// and only white space follows.
pub open spec fn closing_at(s: Seq<u8>, pos: int) -> bool {
    match byte_at(s, pos, CLOSE_BRACE) {
        None => false,
        Some(p) => ws_end(s, p) == s.len(),
    }
}

/// The events that follow a first one, appended to `acc`: each behind a
/// comma, up to the closing of the file or to its end.
pub open spec fn events_more(s: Seq<u8>, pos: int, acc: Seq<EventModel>) -> Option<
    Seq<EventModel>,
>
    decreases s.len() - pos,
{
    let p = ws_end(s, pos);
    if p < 0 || p >= s.len() {
        Some(acc)
    } else if s[p] == CLOSE_BRACKET {
        if closing_at(s, p + 1) {
            Some(acc)
        } else {
            None
        }
    } else if s[p] == COMMA {
        match event_at(s, p + 1) {
            None => None,
            Some((e, next)) => if p < next <= s.len() && pos <= p {
                events_more(s, next, acc.push(e))
            } else {
                None
            },
        }
    } else {
        None
    }
}

/// The events of the array that was opened before `pos`.
#[verifier::opaque]
pub open spec fn events_at(s: Seq<u8>, pos: int) -> Option<Seq<EventModel>> {
    let p = ws_end(s, pos);
    if p < 0 || p >= s.len() {
        Some(Seq::empty())
    } else if s[p] == CLOSE_BRACKET {
        if closing_at(s, p + 1) {
            Some(Seq::empty())
        } else {
            None
        }
    } else {
        match event_at(s, pos) {
            None => None,
            Some((e, next)) => events_more(s, next, seq![e]),
        }
    }
}

/// The name of the member that holds the events.
pub open spec fn events_key() -> Seq<char> {
    "events"@
}

/// The events of a trace in its text encoding, or nothing where the bytes are
/// no such trace.
#[verifier::opaque]
pub open spec fn trace_of(s: Seq<u8>) -> Option<Seq<EventModel>> {
    match byte_at(s, 0, OPEN_BRACE) {
        None => None,
        Some(at0) => match key_at(s, at0, events_key()) {
            None => None,
            Some(at1) => match byte_at(s, at1, COLON) {
                None => None,
                Some(at2) => match byte_at(s, at2, OPEN_BRACKET) {
                    None => None,
                    Some(at3) => events_at(s, at3),
                },
            },
        },
    }
}


/// Skips the white space at `pos`.
pub fn skip_ws(buf: &[u8], pos: usize) -> (r: usize)
    requires
        pos <= buf.len(),
    ensures
        r == ws_end(buf@, pos as int),
        pos <= r <= buf.len(),
{
    let mut i: usize = pos;
    while i < buf.len() && (buf[i] == 0x20 || buf[i] == 0x0a || buf[i] == 0x0d || buf[i] == 0x09)
        invariant
            pos <= i <= buf.len(),
            ws_end(buf@, pos as int) == ws_end(buf@, i as int),
        decreases buf.len() - i,
    {
        i += 1;
    }
    i
}

/// Reads the byte `c` behind the white space at `pos`.
pub fn read_byte(buf: &[u8], pos: usize, c: u8) -> (r: Option<usize>)
    requires
        pos <= buf.len(),
    ensures
        match r {
            Some(next) => byte_at(buf@, pos as int, c) == Some(next as int) && pos < next
                <= buf.len(),
            None => byte_at(buf@, pos as int, c) is None,
        },
{
    let p = skip_ws(buf, pos);
    if p < buf.len() && buf[p] == c {
        Some(p + 1)
    } else {
        None
    }
}

/// The value of a hexadecimal digit.
pub fn hex_digit(b: u8) -> (r: Option<u8>)
    ensures
        r == hex_val(b),
        r matches Some(v) ==> v < 16,
{
    if 0x30 <= b && b <= 0x39 {
        Some(b - 0x30)
    } else if 0x61 <= b && b <= 0x66 {
        Some(b - 0x61 + 10)
    } else if 0x41 <= b && b <= 0x46 {
        Some(b - 0x41 + 10)
    } else {
        None
    }
}

fn read_hex4(buf: &[u8], pos: usize) -> (r: Option<u32>)
    requires
        pos <= buf.len(),
    ensures
        r == hex4_at(buf@, pos as int),
        r matches Some(v) ==> v <= 0xffff,
{
    if buf.len() - pos < 4 {
        return None;
    }
    let a = hex_digit(buf[pos])?;
    let b = hex_digit(buf[pos + 1])?;
    let c = hex_digit(buf[pos + 2])?;
    let d = hex_digit(buf[pos + 3])?;
    Some(((a as u32 * 16 + b as u32) * 16 + c as u32) * 16 + d as u32)
}

/// Appends the UTF-8 bytes of a code point.
fn push_scalar(out: &mut Vec<u8>, scalar: u32)
    requires
        vstd::utf8::is_scalar(scalar),
    ensures
        final(out)@ == old(out)@ + encode_scalar(scalar),
{
    if scalar <= 0x7f {
        out.push((scalar & 0x7f) as u8);
    } else if scalar <= 0x7ff {
        out.push(0xc0 | ((scalar >> 6) & 0x1f) as u8);
        out.push(0x80 | (scalar & 0x3f) as u8);
    } else if scalar <= 0xffff {
        out.push(0xe0 | ((scalar >> 12) & 0x0f) as u8);
        out.push(0x80 | ((scalar >> 6) & 0x3f) as u8);
        out.push(0x80 | (scalar & 0x3f) as u8);
    } else {
        out.push(0xf0 | ((scalar >> 18) & 0x7) as u8);
        out.push(0x80 | ((scalar >> 12) & 0x3f) as u8);
        out.push(0x80 | ((scalar >> 6) & 0x3f) as u8);
        out.push(0x80 | (scalar & 0x3f) as u8);
    }
    assert(out@ =~= old(out)@ + encode_scalar(scalar));
}

/// Reads the escape behind a backslash and appends the bytes it stands for.
fn read_escape(buf: &[u8], pos: usize, out: &mut Vec<u8>) -> (r: Option<usize>)
    requires
        pos <= buf.len(),
    ensures
        match r {
            Some(next) => {
                &&& escape_at(buf@, pos as int) matches Some((bytes, n))
                &&& n == next
                &&& final(out)@ == old(out)@ + bytes
                &&& pos < next <= buf.len()
            },
            None => escape_at(buf@, pos as int) is None,
        },
{
    if pos >= buf.len() {
        return None;
    }
    let c = buf[pos];
    if c == 0x22 || c == 0x5c || c == 0x2f {
        out.push(c);
        assert(out@ =~= old(out)@ + seq![c]);
        Some(pos + 1)
    } else if c == 0x62 {
        out.push(0x08);
        assert(out@ =~= old(out)@ + seq![0x08u8]);
        Some(pos + 1)
    } else if c == 0x66 {
        out.push(0x0c);
        assert(out@ =~= old(out)@ + seq![0x0cu8]);
        Some(pos + 1)
    } else if c == 0x6e {
        out.push(0x0a);
        assert(out@ =~= old(out)@ + seq![0x0au8]);
        Some(pos + 1)
    } else if c == 0x72 {
        out.push(0x0d);
        assert(out@ =~= old(out)@ + seq![0x0du8]);
        Some(pos + 1)
    } else if c == 0x74 {
        out.push(0x09);
        assert(out@ =~= old(out)@ + seq![0x09u8]);
        Some(pos + 1)
    } else if c == 0x75 {
        let unit = read_hex4(buf, pos + 1)?;
        if 0xd800 <= unit && unit <= 0xdbff {
            if buf.len() - pos < 11 || buf[pos + 5] != 0x5c || buf[pos + 6] != 0x75 {
                return None;
            }
            let low = read_hex4(buf, pos + 7)?;
            if low < 0xdc00 || low > 0xdfff {
                return None;
            }
            push_scalar(out, 0x10000 + (unit - 0xd800) * 1024 + (low - 0xdc00));
            Some(pos + 11)
        } else if 0xdc00 <= unit && unit <= 0xdfff {
            None
        } else {
            push_scalar(out, unit);
            Some(pos + 5)
        }
    } else {
        None
    }
}

/// Reads the string at `pos` and resolves its escapes.
pub fn read_string(buf: &[u8], pos: usize) -> (r: Option<(Vec<u8>, usize)>)
    requires
        pos <= buf.len(),
    ensures
        match r {
            Some((b, next)) => string_at(buf@, pos as int) == Some((b@, next as int)) && pos
                < next <= buf.len(),
            None => string_at(buf@, pos as int) is None,
        },
{
    reveal(string_at);
    let start = read_byte(buf, pos, QUOTE)?;
    let mut out: Vec<u8> = Vec::new();
    let mut i: usize = start;
    loop
        invariant
            pos < start <= i <= buf.len(),
            string_at(buf@, pos as int) == string_body(buf@, i as int, out@),
        decreases buf.len() - i,
    {
        if i >= buf.len() {
            return None;
        }
        let c = buf[i];
        if c == QUOTE {
            return Some((out, i + 1));
        } else if c == BACKSLASH {
            match read_escape(buf, i + 1, &mut out) {
                None => {
                    return None;
                },
                Some(next) => {
                    i = next;
                },
            }
        } else if c < 0x20 {
            return None;
        } else {
            out.push(c);
            i += 1;
        }
    }
}

/// Reads the text at `pos`.
pub fn read_text(buf: &[u8], pos: usize) -> (r: Option<(String, usize)>)
    requires
        pos <= buf.len(),
    ensures
        match r {
            Some((t, next)) => text_at(buf@, pos as int) == Some((t@, next as int)) && pos < next
                <= buf.len(),
            None => text_at(buf@, pos as int) is None,
        },
{
    reveal(text_at);
    let (bytes, next) = read_string(buf, pos)?;
    match string_from_utf8(bytes) {
        Some(t) => Some((t, next)),
        None => None,
    }
}

/// Reads the string at `pos`, which must be the given name.
pub fn read_key(buf: &[u8], pos: usize, name: &str) -> (r: Option<usize>)
    requires
        pos <= buf.len(),
    ensures
        match r {
            Some(next) => key_at(buf@, pos as int, name@) == Some(next as int) && pos < next
                <= buf.len(),
            None => key_at(buf@, pos as int, name@) is None,
        },
{
    reveal(key_at);
    let (bytes, next) = read_string(buf, pos)?;
    if bytes_eq(bytes.as_slice(), name.as_bytes()) {
        Some(next)
    } else {
        None
    }
}

/// Digits only add to the value read before them.
pub proof fn lemma_digits_grow(s: Seq<u8>, pos: int, acc: nat)
    requires
        0 <= pos <= s.len(),
    ensures
        digits_at(s, pos, acc).0 >= acc,
        pos <= digits_at(s, pos, acc).1 <= s.len(),
    decreases s.len() - pos,
{
    if pos < s.len() && is_digit(s[pos]) {
        lemma_digits_grow(s, pos + 1, acc * 10 + (s[pos] - 0x30) as nat);
    }
}

/// Reads the number whose digits start at `pos`, if it does not exceed `max`.
fn read_number(buf: &[u8], pos: usize, max: u64) -> (r: Option<(u64, usize)>)
    requires
        pos <= buf.len(),
        max >= 9,
    ensures
        match number_at(buf@, pos as int) {
            Some((v, end)) => if v <= max {
                r == Some((v as u64, end as usize)) && pos < end <= buf.len()
            } else {
                r is None
            },
            None => r is None,
        },
{
    if pos >= buf.len() || buf[pos] < 0x30 || buf[pos] > 0x39 {
        return None;
    }
    let mut acc: u64 = 0;
    let mut i: usize = pos;
    while i < buf.len() && buf[i] >= 0x30 && buf[i] <= 0x39
        invariant
            pos <= i <= buf.len(),
            acc <= max,
            max >= 9,
            pos < buf.len(),
            is_digit(buf@[pos as int]),
            digits_at(buf@, pos as int, 0) == digits_at(buf@, i as int, acc as nat),
        decreases buf.len() - i,
    {
        let d: u64 = (buf[i] - 0x30) as u64;
        if acc > (max - d) / 10 {
            proof {
                lemma_digits_grow(buf@, i + 1, (acc * 10 + d) as nat);
            }
            return None;
        }
        acc = acc * 10 + d;
        i += 1;
    }
    if buf[pos] == ZERO && i != pos + 1 {
        return None;
    }
    Some((acc, i))
}

/// Reads the unsigned integer at `pos`, which must not exceed `max`.
pub fn read_uint(buf: &[u8], pos: usize, max: u64) -> (r: Option<(u64, usize)>)
    requires
        pos <= buf.len(),
        max >= 9,
    ensures
        match r {
            Some((n, next)) => uint_at(buf@, pos as int, max) == Some((n, next as int)) && pos
                < next <= buf.len() && n <= max,
            None => uint_at(buf@, pos as int, max) is None,
        },
{
    reveal(uint_at);
    let p = skip_ws(buf, pos);
    read_number(buf, p, max)
}

/// Reads the signed 32-bit integer at `pos`.
pub fn read_i32(buf: &[u8], pos: usize) -> (r: Option<(i32, usize)>)
    requires
        pos <= buf.len(),
    ensures
        match r {
            Some((n, next)) => i32_at(buf@, pos as int) == Some((n, next as int)) && pos < next
                <= buf.len(),
            None => i32_at(buf@, pos as int) is None,
        },
{
    reveal(i32_at);
    let p = skip_ws(buf, pos);
    if p < buf.len() && buf[p] == MINUS {
        let (v, end) = read_number(buf, p + 1, 2147483648)?;
        if v == 0 {
            None
        } else if v == 2147483648 {
            Some((i32::MIN, end))
        } else {
            Some((-(v as i32), end))
        }
    } else {
        let (v, end) = read_number(buf, p, i32::MAX as u64)?;
        Some((v as i32, end))
    }
}

/// Reads the text at `pos`, or nothing where `null` stands there.
pub fn read_opt_text(buf: &[u8], pos: usize) -> (r: Option<(Option<String>, usize)>)
    requires
        pos <= buf.len(),
    ensures
        match r {
            Some((t, next)) => opt_text_at(buf@, pos as int) == Some((t.deep_view(), next as int))
                && pos < next <= buf.len(),
            None => opt_text_at(buf@, pos as int) is None,
        },
{
    reveal(opt_text_at);
    let p = skip_ws(buf, pos);
    if buf.len() - p >= 4 && buf[p] == 0x6e && buf[p + 1] == 0x75 && buf[p + 2] == 0x6c && buf[p
        + 3] == 0x6c {
        Some((None, p + 4))
    } else {
        let (t, next) = read_text(buf, pos)?;
        Some((Some(t), next))
    }
}

/// The bytes that hexadecimal text stands for, if it is such text.
pub fn decode_hex(h: &[u8]) -> (r: Option<Vec<u8>>)
    ensures
        r is Some <==> is_hex(h@),
        r matches Some(b) ==> b@ == hex_decode(h@),
{
    if h.len() % 2 != 0 {
        return None;
    }
    let mut out: Vec<u8> = Vec::new();
    let mut i: usize = 0;
    while i < h.len() / 2
        invariant
            h.len() % 2 == 0,
            i <= h.len() / 2,
            out@.len() == i,
            forall|j: int| 0 <= j < 2 * i ==> hex_val(#[trigger] h@[j]) is Some,
            forall|j: int| 0 <= j < i ==> out@[j] == hex_decode(h@)[j],
        decreases h.len() / 2 - i,
    {
        let high = match hex_digit(h[2 * i]) {
            None => {
                return None;
            },
            Some(v) => v,
        };
        let low = match hex_digit(h[2 * i + 1]) {
            None => {
                return None;
            },
            Some(v) => v,
        };
        out.push(high * 16 + low);
        i += 1;
    }
    assert(out@ =~= hex_decode(h@));
    Some(out)
}

/// Reads the bytes at `pos`: a string of hexadecimal text.
pub fn read_bytes(buf: &[u8], pos: usize) -> (r: Option<(Vec<u8>, usize)>)
    requires
        pos <= buf.len(),
    ensures
        match r {
            Some((b, next)) => bytes_at(buf@, pos as int) == Some((b@, next as int)) && pos < next
                <= buf.len(),
            None => bytes_at(buf@, pos as int) is None,
        },
{
    reveal(bytes_at);
    let (h, next) = read_string(buf, pos)?;
    match decode_hex(h.as_slice()) {
        Some(b) => Some((b, next)),
        None => None,
    }
}


/// Reads the texts that follow a first one in an array.
fn read_texts_more(buf: &[u8], pos: usize, first: Vec<String>) -> (r: Option<
    (Vec<String>, usize),
>)
    requires
        pos <= buf.len(),
    ensures
        match r {
            Some((l, next)) => texts_more(buf@, pos as int, first.deep_view()) == Some(
                (l.deep_view(), next as int),
            ) && pos < next <= buf.len(),
            None => texts_more(buf@, pos as int, first.deep_view()) is None,
        },
{
    let mut out = first;
    let mut i: usize = pos;
    loop
        invariant
            pos <= i <= buf.len(),
            texts_more(buf@, pos as int, first.deep_view()) == texts_more(
                buf@,
                i as int,
                out.deep_view(),
            ),
        decreases buf.len() - i,
    {
        let p = skip_ws(buf, i);
        if p >= buf.len() {
            return None;
        }
        if buf[p] == CLOSE_BRACKET {
            return Some((out, p + 1));
        }
        if buf[p] != COMMA {
            return None;
        }
        match read_text(buf, p + 1) {
            None => {
                return None;
            },
            Some((t, next)) => {
                let ghost before = out.deep_view();
                let ghost text = t@;
                out.push(t);
                assert(out.deep_view() =~= before.push(text));
                i = next;
            },
        }
    }
}

/// Reads the array of texts at `pos`.
pub fn read_text_list(buf: &[u8], pos: usize) -> (r: Option<(Vec<String>, usize)>)
    requires
        pos <= buf.len(),
    ensures
        match r {
            Some((l, next)) => text_list_at(buf@, pos as int) == Some(
                (l.deep_view(), next as int),
            ) && pos < next <= buf.len(),
            None => text_list_at(buf@, pos as int) is None,
        },
{
    reveal(text_list_at);
    let p = read_byte(buf, pos, OPEN_BRACKET)?;
    let mut out: Vec<String> = Vec::new();
    match read_byte(buf, p, CLOSE_BRACKET) {
        Some(end) => {
            assert(out.deep_view() =~= Seq::<Seq<char>>::empty());
            Some((out, end))
        },
        None => {
            let (t, next) = read_text(buf, p)?;
            let ghost text = t@;
            out.push(t);
            assert(out.deep_view() =~= seq![text]);
            read_texts_more(buf, next, out)
        },
    }
}

/// Reads the pair at `pos`.
pub fn read_pair(buf: &[u8], pos: usize) -> (r: Option<((String, String), usize)>)
    requires
        pos <= buf.len(),
    ensures
        match r {
            Some((p, next)) => pair_at(buf@, pos as int) == Some(((p.0@, p.1@), next as int))
                && pos < next <= buf.len(),
            None => pair_at(buf@, pos as int) is None,
        },
{
    reveal(pair_at);
    let at0 = read_byte(buf, pos, OPEN_BRACKET)?;
    let (a, at1) = read_text(buf, at0)?;
    let at2 = read_byte(buf, at1, COMMA)?;
    let (b, at3) = read_text(buf, at2)?;
    let at4 = read_byte(buf, at3, CLOSE_BRACKET)?;
    Some(((a, b), at4))
}

/// Reads the pairs that follow a first one in an array.
fn read_pairs_more(buf: &[u8], pos: usize, first: Vec<(String, String)>) -> (r: Option<
    (Vec<(String, String)>, usize),
>)
    requires
        pos <= buf.len(),
    ensures
        match r {
            Some((l, next)) => pairs_more(buf@, pos as int, first.deep_view()) == Some(
                (l.deep_view(), next as int),
            ) && pos < next <= buf.len(),
            None => pairs_more(buf@, pos as int, first.deep_view()) is None,
        },
{
    let mut out = first;
    let mut i: usize = pos;
    loop
        invariant
            pos <= i <= buf.len(),
            pairs_more(buf@, pos as int, first.deep_view()) == pairs_more(
                buf@,
                i as int,
                out.deep_view(),
            ),
        decreases buf.len() - i,
    {
        let p = skip_ws(buf, i);
        if p >= buf.len() {
            return None;
        }
        if buf[p] == CLOSE_BRACKET {
            return Some((out, p + 1));
        }
        if buf[p] != COMMA {
            return None;
        }
        match read_pair(buf, p + 1) {
            None => {
                return None;
            },
            Some((pair, next)) => {
                let ghost before = out.deep_view();
                let ghost added = (pair.0@, pair.1@);
                out.push(pair);
                assert(out.deep_view() =~= before.push(added));
                i = next;
            },
        }
    }
}

/// Reads the array of pairs at `pos`.
pub fn read_pair_list(buf: &[u8], pos: usize) -> (r: Option<(Vec<(String, String)>, usize)>)
    requires
        pos <= buf.len(),
    ensures
        match r {
            Some((l, next)) => pair_list_at(buf@, pos as int) == Some(
                (l.deep_view(), next as int),
            ) && pos < next <= buf.len(),
            None => pair_list_at(buf@, pos as int) is None,
        },
{
    reveal(pair_list_at);
    let p = read_byte(buf, pos, OPEN_BRACKET)?;
    let mut out: Vec<(String, String)> = Vec::new();
    match read_byte(buf, p, CLOSE_BRACKET) {
        Some(end) => {
            assert(out.deep_view() =~= Seq::<(Seq<char>, Seq<char>)>::empty());
            Some((out, end))
        },
        None => {
            let (pair, next) = read_pair(buf, p)?;
            let ghost added = (pair.0@, pair.1@);
            out.push(pair);
            assert(out.deep_view() =~= seq![added]);
            read_pairs_more(buf, next, out)
        },
    }
}

/// Reads the two unsigned integers at `pos`.
pub fn read_u64_pair(buf: &[u8], pos: usize) -> (r: Option<((u64, u64), usize)>)
    requires
        pos <= buf.len(),
    ensures
        match r {
            Some((p, next)) => u64_pair_at(buf@, pos as int) == Some((p, next as int)) && pos
                < next <= buf.len(),
            None => u64_pair_at(buf@, pos as int) is None,
        },
{
    reveal(u64_pair_at);
    let at0 = read_byte(buf, pos, OPEN_BRACKET)?;
    let (a, at1) = read_uint(buf, at0, u64::MAX)?;
    let at2 = read_byte(buf, at1, COMMA)?;
    let (b, at3) = read_uint(buf, at2, u64::MAX)?;
    let at4 = read_byte(buf, at3, CLOSE_BRACKET)?;
    Some(((a, b), at4))
}

/// Reads the member of the given name behind the comma at `pos`.
fn read_member_u64(buf: &[u8], pos: usize, name: &str) -> (r: Option<(u64, usize)>)
    requires
        pos <= buf.len(),
    ensures
        match r {
            Some((x, next)) => member_at(buf@, pos as int, Field { name: name@, ty: FieldType::U64 })
                == Some((FieldValue::Int(x as int), next as int)) && pos < next <= buf.len(),
            None => member_at(buf@, pos as int, Field { name: name@, ty: FieldType::U64 }) is None,
        },
{
    reveal(member_at);
    let p = read_byte(buf, pos, COMMA)?;
    let p = read_key(buf, p, name)?;
    let p = read_byte(buf, p, COLON)?;
    read_uint(buf, p, u64::MAX)
}

/// Reads the member of the given name behind the comma at `pos`.
fn read_member_u32(buf: &[u8], pos: usize, name: &str) -> (r: Option<(u32, usize)>)
    requires
        pos <= buf.len(),
    ensures
        match r {
            Some((x, next)) => member_at(buf@, pos as int, Field { name: name@, ty: FieldType::U32 })
                == Some((FieldValue::Int(x as int), next as int)) && pos < next <= buf.len(),
            None => member_at(buf@, pos as int, Field { name: name@, ty: FieldType::U32 }) is None,
        },
{
    reveal(member_at);
    let p = read_byte(buf, pos, COMMA)?;
    let p = read_key(buf, p, name)?;
    let p = read_byte(buf, p, COLON)?;
    let (n, next) = read_uint(buf, p, u32::MAX as u64)?;
    Some((n as u32, next))
}

/// Reads the member of the given name behind the comma at `pos`.
fn read_member_u16(buf: &[u8], pos: usize, name: &str) -> (r: Option<(u16, usize)>)
    requires
        pos <= buf.len(),
    ensures
        match r {
            Some((x, next)) => member_at(buf@, pos as int, Field { name: name@, ty: FieldType::U16 })
                == Some((FieldValue::Int(x as int), next as int)) && pos < next <= buf.len(),
            None => member_at(buf@, pos as int, Field { name: name@, ty: FieldType::U16 }) is None,
        },
{
    reveal(member_at);
    let p = read_byte(buf, pos, COMMA)?;
    let p = read_key(buf, p, name)?;
    let p = read_byte(buf, p, COLON)?;
    let (n, next) = read_uint(buf, p, u16::MAX as u64)?;
    Some((n as u16, next))
}

/// Reads the member of the given name behind the comma at `pos`.
fn read_member_i32(buf: &[u8], pos: usize, name: &str) -> (r: Option<(i32, usize)>)
    requires
        pos <= buf.len(),
    ensures
        match r {
            Some((x, next)) => member_at(buf@, pos as int, Field { name: name@, ty: FieldType::I32 })
                == Some((FieldValue::Int(x as int), next as int)) && pos < next <= buf.len(),
            None => member_at(buf@, pos as int, Field { name: name@, ty: FieldType::I32 }) is None,
        },
{
    reveal(member_at);
    let p = read_byte(buf, pos, COMMA)?;
    let p = read_key(buf, p, name)?;
    let p = read_byte(buf, p, COLON)?;
    read_i32(buf, p)
}

/// Reads the member of the given name behind the comma at `pos`.
fn read_member_text(buf: &[u8], pos: usize, name: &str) -> (r: Option<(String, usize)>)
    requires
        pos <= buf.len(),
    ensures
        match r {
            Some((x, next)) => member_at(buf@, pos as int, Field { name: name@, ty: FieldType::Text })
                == Some((FieldValue::Text(x@), next as int)) && pos < next <= buf.len(),
            None => member_at(buf@, pos as int, Field { name: name@, ty: FieldType::Text }) is None,
        },
{
    reveal(member_at);
    let p = read_byte(buf, pos, COMMA)?;
    let p = read_key(buf, p, name)?;
    let p = read_byte(buf, p, COLON)?;
    read_text(buf, p)
}

/// Reads the member of the given name behind the comma at `pos`.
fn read_member_opt_text(buf: &[u8], pos: usize, name: &str) -> (r: Option<(Option<String>, usize)>)
    requires
        pos <= buf.len(),
    ensures
        match r {
            Some((x, next)) => member_at(buf@, pos as int, Field { name: name@, ty: FieldType::OptText })
                == Some((FieldValue::OptText(x.deep_view()), next as int)) && pos < next <= buf.len(),
            None => member_at(buf@, pos as int, Field { name: name@, ty: FieldType::OptText }) is None,
        },
{
    reveal(member_at);
    let p = read_byte(buf, pos, COMMA)?;
    let p = read_key(buf, p, name)?;
    let p = read_byte(buf, p, COLON)?;
    read_opt_text(buf, p)
}

/// Reads the member of the given name behind the comma at `pos`.
fn read_member_bytes(buf: &[u8], pos: usize, name: &str) -> (r: Option<(Vec<u8>, usize)>)
    requires
        pos <= buf.len(),
    ensures
        match r {
            Some((x, next)) => member_at(buf@, pos as int, Field { name: name@, ty: FieldType::Bytes })
                == Some((FieldValue::Bytes(x@), next as int)) && pos < next <= buf.len(),
            None => member_at(buf@, pos as int, Field { name: name@, ty: FieldType::Bytes }) is None,
        },
{
    reveal(member_at);
    let p = read_byte(buf, pos, COMMA)?;
    let p = read_key(buf, p, name)?;
    let p = read_byte(buf, p, COLON)?;
    read_bytes(buf, p)
}

/// Reads the member of the given name behind the comma at `pos`.
fn read_member_text_list(buf: &[u8], pos: usize, name: &str) -> (r: Option<(Vec<String>, usize)>)
    requires
        pos <= buf.len(),
    ensures
        match r {
            Some((x, next)) => member_at(buf@, pos as int, Field { name: name@, ty: FieldType::TextList })
                == Some((FieldValue::TextList(x.deep_view()), next as int)) && pos < next <= buf.len(),
            None => member_at(buf@, pos as int, Field { name: name@, ty: FieldType::TextList }) is None,
        },
{
    reveal(member_at);
    let p = read_byte(buf, pos, COMMA)?;
    let p = read_key(buf, p, name)?;
    let p = read_byte(buf, p, COLON)?;
    read_text_list(buf, p)
}

/// Reads the member of the given name behind the comma at `pos`.
fn read_member_pair_list(buf: &[u8], pos: usize, name: &str) -> (r: Option<(Vec<(String, String)>, usize)>)
    requires
        pos <= buf.len(),
    ensures
        match r {
            Some((x, next)) => member_at(buf@, pos as int, Field { name: name@, ty: FieldType::PairList })
                == Some((FieldValue::PairList(x.deep_view()), next as int)) && pos < next <= buf.len(),
            None => member_at(buf@, pos as int, Field { name: name@, ty: FieldType::PairList }) is None,
        },
{
    reveal(member_at);
    let p = read_byte(buf, pos, COMMA)?;
    let p = read_key(buf, p, name)?;
    let p = read_byte(buf, p, COLON)?;
    read_pair_list(buf, p)
}

/// Reads the member of the given name behind the comma at `pos`.
fn read_member_u64_pair(buf: &[u8], pos: usize, name: &str) -> (r: Option<((u64, u64), usize)>)
    requires
        pos <= buf.len(),
    ensures
        match r {
            Some((x, next)) => member_at(buf@, pos as int, Field { name: name@, ty: FieldType::U64Pair })
                == Some((FieldValue::U64Pair(x.0, x.1), next as int)) && pos < next <= buf.len(),
            None => member_at(buf@, pos as int, Field { name: name@, ty: FieldType::U64Pair }) is None,
        },
{
    reveal(member_at);
    let p = read_byte(buf, pos, COMMA)?;
    let p = read_key(buf, p, name)?;
    let p = read_byte(buf, p, COLON)?;
    read_u64_pair(buf, p)
}

fn read_clock_fields(buf: &[u8], pos: usize, kind: EventKind) -> (r: Option<(TraceEvent, usize)>)
    requires
        pos <= buf.len(),
        kind == EventKind::ClockNow || kind == EventKind::ClockResolution,
    ensures
        match r {
            Some((e, end)) => fields_at(buf@, pos as int, layout(kind), 0, Seq::empty()) matches Some(
                (values, p),
            ) && e@ == event_of(kind, values) && p == end && pos <= end <= buf.len(),
            None => fields_at(buf@, pos as int, layout(kind), 0, Seq::empty()) is None,
        },
{
    let ghost a0 = Seq::<FieldValue>::empty();
    proof {
        lemma_fields_step(buf@, pos as int, layout(kind), 0, a0);
    }
    let (seconds, at1) = read_member_u64(buf, pos, "seconds")?;
    let ghost a1 = a0.push(FieldValue::Int(seconds as int));
    proof {
        lemma_fields_step(buf@, at1 as int, layout(kind), 1, a1);
    }
    let (nanoseconds, at2) = read_member_u32(buf, at1, "nanoseconds")?;
    let ghost a2 = a1.push(FieldValue::Int(nanoseconds as int));
    proof {
        lemma_fields_step(buf@, at2 as int, layout(kind), 2, a2);
    }
    match kind {
        EventKind::ClockNow => Some((TraceEvent::ClockNow { seconds, nanoseconds }, at2)),
        _ => Some((TraceEvent::ClockResolution { seconds, nanoseconds }, at2)),
    }
}

fn read_u64_fields(buf: &[u8], pos: usize, kind: EventKind) -> (r: Option<(TraceEvent, usize)>)
    requires
        pos <= buf.len(),
        kind == EventKind::MonotonicClockNow || kind == EventKind::MonotonicClockResolution || kind
            == EventKind::RandomU64 || kind == EventKind::InsecureRandomU64,
    ensures
        match r {
            Some((e, end)) => fields_at(buf@, pos as int, layout(kind), 0, Seq::empty()) matches Some(
                (values, p),
            ) && e@ == event_of(kind, values) && p == end && pos <= end <= buf.len(),
            None => fields_at(buf@, pos as int, layout(kind), 0, Seq::empty()) is None,
        },
{
    let ghost a0 = Seq::<FieldValue>::empty();
    proof {
        lemma_fields_step(buf@, pos as int, layout(kind), 0, a0);
    }
    match kind {
        EventKind::MonotonicClockNow => {
            let (x, at1) = read_member_u64(buf, pos, "nanoseconds")?;
            proof {
                lemma_fields_step(buf@, at1 as int, layout(kind), 1, a0.push(FieldValue::Int(x as int)));
            }
            Some((TraceEvent::MonotonicClockNow { nanoseconds: x }, at1))
        },
        EventKind::MonotonicClockResolution => {
            let (x, at1) = read_member_u64(buf, pos, "nanoseconds")?;
            proof {
                lemma_fields_step(buf@, at1 as int, layout(kind), 1, a0.push(FieldValue::Int(x as int)));
            }
            Some((TraceEvent::MonotonicClockResolution { nanoseconds: x }, at1))
        },
        EventKind::RandomU64 => {
            let (x, at1) = read_member_u64(buf, pos, "value")?;
            proof {
                lemma_fields_step(buf@, at1 as int, layout(kind), 1, a0.push(FieldValue::Int(x as int)));
            }
            Some((TraceEvent::RandomU64 { value: x }, at1))
        },
        _ => {
            let (x, at1) = read_member_u64(buf, pos, "value")?;
            proof {
                lemma_fields_step(buf@, at1 as int, layout(kind), 1, a0.push(FieldValue::Int(x as int)));
            }
            Some((TraceEvent::InsecureRandomU64 { value: x }, at1))
        },
    }
}

fn read_bytes_fields(buf: &[u8], pos: usize, kind: EventKind) -> (r: Option<(TraceEvent, usize)>)
    requires
        pos <= buf.len(),
        kind == EventKind::RandomBytes || kind == EventKind::InsecureRandomBytes,
    ensures
        match r {
            Some((e, end)) => fields_at(buf@, pos as int, layout(kind), 0, Seq::empty()) matches Some(
                (values, p),
            ) && e@ == event_of(kind, values) && p == end && pos <= end <= buf.len(),
            None => fields_at(buf@, pos as int, layout(kind), 0, Seq::empty()) is None,
        },
{
    let ghost a0 = Seq::<FieldValue>::empty();
    proof {
        lemma_fields_step(buf@, pos as int, layout(kind), 0, a0);
    }
    match kind {
        EventKind::RandomBytes => {
            let (x, at1) = read_member_bytes(buf, pos, "bytes")?;
            proof {
                lemma_fields_step(buf@, at1 as int, layout(kind), 1, a0.push(FieldValue::Bytes(x@)));
            }
            Some((TraceEvent::RandomBytes { bytes: x }, at1))
        },
        _ => {
            let (x, at1) = read_member_bytes(buf, pos, "bytes")?;
            proof {
                lemma_fields_step(buf@, at1 as int, layout(kind), 1, a0.push(FieldValue::Bytes(x@)));
            }
            Some((TraceEvent::InsecureRandomBytes { bytes: x }, at1))
        },
    }
}

fn read_list_fields(buf: &[u8], pos: usize, kind: EventKind) -> (r: Option<(TraceEvent, usize)>)
    requires
        pos <= buf.len(),
        kind == EventKind::Environment || kind == EventKind::Arguments,
    ensures
        match r {
            Some((e, end)) => fields_at(buf@, pos as int, layout(kind), 0, Seq::empty()) matches Some(
                (values, p),
            ) && e@ == event_of(kind, values) && p == end && pos <= end <= buf.len(),
            None => fields_at(buf@, pos as int, layout(kind), 0, Seq::empty()) is None,
        },
{
    let ghost a0 = Seq::<FieldValue>::empty();
    proof {
        lemma_fields_step(buf@, pos as int, layout(kind), 0, a0);
    }
    match kind {
        EventKind::Environment => {
            let (x, at1) = read_member_pair_list(buf, pos, "entries")?;
            proof {
                lemma_fields_step(buf@, at1 as int, layout(kind), 1, a0.push(FieldValue::PairList(x.deep_view())));
            }
            Some((TraceEvent::Environment { entries: x }, at1))
        },
        _ => {
            let (x, at1) = read_member_text_list(buf, pos, "args")?;
            proof {
                lemma_fields_step(buf@, at1 as int, layout(kind), 1, a0.push(FieldValue::TextList(x.deep_view())));
            }
            Some((TraceEvent::Arguments { args: x }, at1))
        },
    }
}

fn read_other_fields(buf: &[u8], pos: usize, kind: EventKind) -> (r: Option<(TraceEvent, usize)>)
    requires
        pos <= buf.len(),
        kind == EventKind::InitialCwd || kind == EventKind::InsecureSeed || kind == EventKind::Exit,
    ensures
        match r {
            Some((e, end)) => fields_at(buf@, pos as int, layout(kind), 0, Seq::empty()) matches Some(
                (values, p),
            ) && e@ == event_of(kind, values) && p == end && pos <= end <= buf.len(),
            None => fields_at(buf@, pos as int, layout(kind), 0, Seq::empty()) is None,
        },
{
    let ghost a0 = Seq::<FieldValue>::empty();
    proof {
        lemma_fields_step(buf@, pos as int, layout(kind), 0, a0);
    }
    match kind {
        EventKind::InitialCwd => {
            let (x, at1) = read_member_opt_text(buf, pos, "path")?;
            proof {
                lemma_fields_step(buf@, at1 as int, layout(kind), 1, a0.push(FieldValue::OptText(x.deep_view())));
            }
            Some((TraceEvent::InitialCwd { path: x }, at1))
        },
        EventKind::InsecureSeed => {
            let (x, at1) = read_member_u64_pair(buf, pos, "seed")?;
            proof {
                lemma_fields_step(buf@, at1 as int, layout(kind), 1, a0.push(FieldValue::U64Pair(x.0, x.1)));
            }
            Some((TraceEvent::InsecureSeed { seed: x }, at1))
        },
        _ => {
            let (x, at1) = read_member_i32(buf, pos, "code")?;
            proof {
                lemma_fields_step(buf@, at1 as int, layout(kind), 1, a0.push(FieldValue::Int(x as int)));
            }
            Some((TraceEvent::Exit { code: x }, at1))
        },
    }
}

fn read_http_fields(buf: &[u8], pos: usize, kind: EventKind) -> (r: Option<(TraceEvent, usize)>)
    requires
        pos <= buf.len(),
        kind == EventKind::HttpResponse,
    ensures
        match r {
            Some((e, end)) => fields_at(buf@, pos as int, layout(kind), 0, Seq::empty()) matches Some(
                (values, p),
            ) && e@ == event_of(kind, values) && p == end && pos <= end <= buf.len(),
            None => fields_at(buf@, pos as int, layout(kind), 0, Seq::empty()) is None,
        },
{
    let ghost fields = layout(EventKind::HttpResponse);
    let ghost a0 = Seq::<FieldValue>::empty();
    proof {
        lemma_fields_step(buf@, pos as int, fields, 0, a0);
    }
    let (request_method, at1) = read_member_text(buf, pos, "request_method")?;
    let ghost a1 = a0.push(FieldValue::Text(request_method@));
    proof {
        lemma_fields_step(buf@, at1 as int, fields, 1, a1);
    }
    let (request_url, at2) = read_member_text(buf, at1, "request_url")?;
    let ghost a2 = a1.push(FieldValue::Text(request_url@));
    proof {
        lemma_fields_step(buf@, at2 as int, fields, 2, a2);
    }
    let (request_headers, at3) = read_member_pair_list(buf, at2, "request_headers")?;
    let ghost a3 = a2.push(FieldValue::PairList(request_headers.deep_view()));
    proof {
        lemma_fields_step(buf@, at3 as int, fields, 3, a3);
    }
    let (status, at4) = read_member_u16(buf, at3, "status")?;
    let ghost a4 = a3.push(FieldValue::Int(status as int));
    proof {
        lemma_fields_step(buf@, at4 as int, fields, 4, a4);
    }
    let (headers, at5) = read_member_pair_list(buf, at4, "headers")?;
    let ghost a5 = a4.push(FieldValue::PairList(headers.deep_view()));
    proof {
        lemma_fields_step(buf@, at5 as int, fields, 5, a5);
    }
    let (body, at6) = read_member_bytes(buf, at5, "body")?;
    let ghost a6 = a5.push(FieldValue::Bytes(body@));
    proof {
        lemma_fields_step(buf@, at6 as int, fields, 6, a6);
    }
    Some(
        (
            TraceEvent::HttpResponse {
                request_method,
                request_url,
                request_headers,
                status,
                headers,
                body,
            },
            at6,
        ),
    )
}

/// Reads the fields of an event of the given kind, which start at `pos`.
fn read_fields(buf: &[u8], pos: usize, kind: EventKind) -> (r: Option<(TraceEvent, usize)>)
    requires
        pos <= buf.len(),
        
    ensures
        match r {
            Some((e, end)) => fields_at(buf@, pos as int, layout(kind), 0, Seq::empty()) matches Some(
                (values, p),
            ) && e@ == event_of(kind, values) && p == end && pos <= end <= buf.len(),
            None => fields_at(buf@, pos as int, layout(kind), 0, Seq::empty()) is None,
        },
{
    match kind {
        EventKind::ClockNow | EventKind::ClockResolution => read_clock_fields(buf, pos, kind),
        EventKind::MonotonicClockNow
        | EventKind::MonotonicClockResolution
        | EventKind::RandomU64
        | EventKind::InsecureRandomU64 => read_u64_fields(buf, pos, kind),
        EventKind::RandomBytes | EventKind::InsecureRandomBytes => read_bytes_fields(
            buf,
            pos,
            kind,
        ),
        EventKind::HttpResponse => read_http_fields(buf, pos, kind),
        EventKind::Read => {
            proof {
                lemma_fields_step(buf@, pos as int, layout(kind), 0, Seq::empty());
            }
            Some((TraceEvent::Read, pos))
        },
        EventKind::Environment | EventKind::Arguments => read_list_fields(buf, pos, kind),
        _ => read_other_fields(buf, pos, kind),
    }
}

/// Reads the event at `pos`.
pub fn read_event(buf: &[u8], pos: usize) -> (r: Option<(TraceEvent, usize)>)
    requires
        pos <= buf.len(),
    ensures
        match r {
            Some((e, next)) => event_at(buf@, pos as int) == Some((e@, next as int)) && pos < next
                <= buf.len(),
            None => event_at(buf@, pos as int) is None,
        },
{
    reveal(event_at);
    reveal(event_head_at);
    reveal(body_at);
    let at0 = read_byte(buf, pos, OPEN_BRACE)?;
    let at1 = read_key(buf, at0, "call")?;
    let at2 = read_byte(buf, at1, COLON)?;
    let (tag, at3) = read_string(buf, at2)?;
    assert(tag@.subrange(0, tag@.len() as int) =~= tag@);
    let kind = kind_from_tag(tag.as_slice(), 0, tag.len())?;
    let (e, at4) = read_fields(buf, at3, kind)?;
    let next = read_byte(buf, at4, CLOSE_BRACE)?;
    Some((e, next))
}

/// True when, behind the closing bracket of the events, the object closes
/// and only white space follows.
fn read_closing(buf: &[u8], pos: usize) -> (r: bool)
    requires
        pos <= buf.len(),
    ensures
        r == closing_at(buf@, pos as int),
{
    match read_byte(buf, pos, CLOSE_BRACE) {
        None => false,
        Some(p) => skip_ws(buf, p) == buf.len(),
    }
}

/// Reads the events that follow a first one.
fn read_events_more(buf: &[u8], pos: usize, first: Vec<TraceEvent>) -> (r: Option<
    Vec<TraceEvent>,
>)
    requires
        pos <= buf.len(),
    ensures
        match r {
            Some(l) => events_more(buf@, pos as int, first.deep_view()) == Some(l.deep_view()),
            None => events_more(buf@, pos as int, first.deep_view()) is None,
        },
{
    let mut out = first;
    let mut i: usize = pos;
    loop
        invariant
            pos <= i <= buf.len(),
            events_more(buf@, pos as int, first.deep_view()) == events_more(
                buf@,
                i as int,
                out.deep_view(),
            ),
        decreases buf.len() - i,
    {
        let p = skip_ws(buf, i);
        if p >= buf.len() {
            return Some(out);
        }
        if buf[p] == CLOSE_BRACKET {
            if read_closing(buf, p + 1) {
                return Some(out);
            } else {
                return None;
            }
        }
        if buf[p] != COMMA {
            return None;
        }
        match read_event(buf, p + 1) {
            None => {
                return None;
            },
            Some((e, next)) => {
                let ghost before = out.deep_view();
                let ghost model = e@;
                out.push(e);
                assert(out.deep_view() =~= before.push(model));
                i = next;
            },
        }
    }
}

/// Reads a trace in its text encoding.
pub fn read_trace(buf: &[u8]) -> (r: Option<Vec<TraceEvent>>)
    ensures
        match r {
            Some(l) => trace_of(buf@) == Some(l.deep_view()),
            None => trace_of(buf@) is None,
        },
{
    reveal(trace_of);
    reveal(events_at);
    let at0 = read_byte(buf, 0, OPEN_BRACE)?;
    let at1 = read_key(buf, at0, "events")?;
    let at2 = read_byte(buf, at1, COLON)?;
    let at3 = read_byte(buf, at2, OPEN_BRACKET)?;
    let mut out: Vec<TraceEvent> = Vec::new();
    let p = skip_ws(buf, at3);
    if p >= buf.len() {
        assert(out.deep_view() =~= Seq::<EventModel>::empty());
        return Some(out);
    }
    if buf[p] == CLOSE_BRACKET {
        if read_closing(buf, p + 1) {
            assert(out.deep_view() =~= Seq::<EventModel>::empty());
            return Some(out);
        } else {
            return None;
        }
    }
    let (e, next) = read_event(buf, at3)?;
    let ghost model = e@;
    out.push(e);
    assert(out.deep_view() =~= seq![model]);
    read_events_more(buf, next, out)
}

} // verus!
